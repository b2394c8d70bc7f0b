//! Writing single bits and fixed-width integers into a byte sink.

use vstd::prelude::*;
use vstd::arithmetic::power2::{pow2, lemma_pow2_unfold, lemma_pow2_strictly_increases,
    lemma2_to64};
use crate::bits::{be_bits, unpack, pack, padded, padding, zeros, lemma_be_bits_len,
    lemma_unpack_push, lemma_unpack_pack, lemma_unpack_injective, lemma_byte_bit, lemma_word_bit,
    lemma_quad_bit};

verus! {

/// A bit-granular writer over a growable byte sink.
///
/// Bits gather in one byte, most significant first, and reach the sink once
/// eight of them are there.
pub struct BitWriter {
    inner: Vec<u8>,
    byte: u8,
    pos: u8,
}

impl BitWriter {
    /// The writer holds at most seven pending bits.
    pub closed spec fn wf(&self) -> bool {
        &&& self.pos < 8
        &&& (self.byte as nat) < pow2(self.pos as nat)
    }

    /// Every bit that the sink held at the start or that was written since,
    /// in order.
    pub closed spec fn bits(&self) -> Seq<bool> {
        unpack(self.inner@) + be_bits(self.byte as nat, self.pos as nat)
    }

    /// The bytes that have reached the sink.
    pub closed spec fn sink(&self) -> Seq<u8> {
        self.inner@
    }

    /// The number of bits that wait for a byte to fill (0 to 7).
    pub closed spec fn pending(&self) -> nat {
        self.pos as nat
    }

    /// The sink holds exactly the whole bytes of the bits written.
    pub proof fn lemma_sink(&self)
        requires
            self.wf(),
        ensures
            self.pending() < 8,
            self.bits().len() == 8 * self.sink().len() + self.pending(),
            unpack(self.sink()) == self.bits().subrange(0, (8 * self.sink().len()) as int),
    {
        lemma_be_bits_len(self.byte as nat, self.pos as nat);
        assert(unpack(self.sink()) =~= self.bits().subrange(0, (8 * self.sink().len()) as int));
    }

    /// Instantiates a new `BitWriter` that appends to `inner`.
    pub fn new(inner: Vec<u8>) -> (w: BitWriter)
        ensures
            w.wf(),
            w.bits() == unpack(inner@),
            w.sink() == inner@,
            w.pending() == 0,
    {
        let w = BitWriter { inner, byte: 0, pos: 0 };
        proof {
            lemma2_to64();
            assert(w.bits() =~= unpack(inner@));
        }
        w
    }

    /// Adds one bit; the eighth pending bit sends the filled byte to the
    /// sink.
    pub fn write_bit(&mut self, input: bool)
        requires
            old(self).wf(),
        ensures
            final(self).wf(),
            final(self).bits() == old(self).bits().push(input),
            final(self).pending() == if old(self).pending() == 7 { 0 } else { old(self).pending() + 1 },
    {
        let bit: u8 = if input { 1 } else { 0 };
        let acc = self.byte;
        proof {
            lemma2_to64();
            if self.pos < 7 {
                lemma_pow2_strictly_increases(self.pos as nat, 7);
            }
            lemma_pow2_unfold((self.pos + 1) as nat);
            assert(((acc << 1) | bit) == 2 * acc + bit) by (bit_vector)
                requires
                    acc < 128,
                    bit <= 1,
            ;
            assert(be_bits((2 * acc + bit) as nat, (self.pos + 1) as nat) == be_bits(
                acc as nat,
                self.pos as nat,
            ).push(input));
        }
        self.byte = (acc << 1) | bit;
        self.pos += 1;
        if self.pos == 8 {
            proof {
                lemma_unpack_push(self.inner@, self.byte);
            }
            self.inner.push(self.byte);
            self.reset();
        }
        proof {
            assert(self.bits() =~= old(self).bits().push(input));
        }
    }

    /// Writes a byte, most significant bit first.
    pub fn write_u8(&mut self, input: u8)
        requires
            old(self).wf(),
        ensures
            final(self).wf(),
            final(self).bits() == old(self).bits() + be_bits(input as nat, 8),
    {
        let mut k: u8 = 0;
        proof {
            lemma_be_bits_len(input as nat, 8);
        }
        while k < 8
            invariant
                k <= 8,
                self.wf(),
                be_bits(input as nat, 8).len() == 8,
                self.bits() == old(self).bits() + be_bits(input as nat, 8).subrange(0, k as int),
            decreases 8 - k,
        {
            let bit = ((input >> (7 - k)) & 1) == 1;
            proof {
                lemma_byte_bit(input, k);
            }
            self.write_bit(bit);
            k += 1;
            proof {
                assert(self.bits() =~= old(self).bits() + be_bits(input as nat, 8).subrange(
                    0,
                    k as int,
                ));
            }
        }
        proof {
            assert(be_bits(input as nat, 8).subrange(0, 8) =~= be_bits(input as nat, 8));
        }
    }

    /// Writes a 16-bit word, most significant bit first.
    pub fn write_u16(&mut self, input: u16)
        requires
            old(self).wf(),
        ensures
            final(self).wf(),
            final(self).bits() == old(self).bits() + be_bits(input as nat, 16),
    {
        let mut k: u16 = 0;
        proof {
            lemma_be_bits_len(input as nat, 16);
        }
        while k < 16
            invariant
                k <= 16,
                self.wf(),
                be_bits(input as nat, 16).len() == 16,
                self.bits() == old(self).bits() + be_bits(input as nat, 16).subrange(0, k as int),
            decreases 16 - k,
        {
            let bit = ((input >> (15 - k)) & 1) == 1;
            proof {
                lemma_word_bit(input, k);
            }
            self.write_bit(bit);
            k += 1;
            proof {
                assert(self.bits() =~= old(self).bits() + be_bits(input as nat, 16).subrange(
                    0,
                    k as int,
                ));
            }
        }
        proof {
            assert(be_bits(input as nat, 16).subrange(0, 16) =~= be_bits(input as nat, 16));
        }
    }

    /// Writes a 64-bit word, most significant bit first.
    pub fn write_u64(&mut self, input: u64)
        requires
            old(self).wf(),
        ensures
            final(self).wf(),
            final(self).bits() == old(self).bits() + be_bits(input as nat, 64),
    {
        let mut k: u64 = 0;
        proof {
            lemma_be_bits_len(input as nat, 64);
        }
        while k < 64
            invariant
                k <= 64,
                self.wf(),
                be_bits(input as nat, 64).len() == 64,
                self.bits() == old(self).bits() + be_bits(input as nat, 64).subrange(0, k as int),
            decreases 64 - k,
        {
            let bit = ((input >> (63 - k)) & 1) == 1;
            proof {
                lemma_quad_bit(input, k);
            }
            self.write_bit(bit);
            k += 1;
            proof {
                assert(self.bits() =~= old(self).bits() + be_bits(input as nat, 64).subrange(
                    0,
                    k as int,
                ));
            }
        }
        proof {
            assert(be_bits(input as nat, 64).subrange(0, 64) =~= be_bits(input as nat, 64));
        }
    }

    /// Completes a partly filled byte with zero bits and sends it to the
    /// sink; afterwards nothing is pending.
    pub fn flush(&mut self)
        requires
            old(self).wf(),
        ensures
            final(self).wf(),
            final(self).pending() == 0,
            final(self).bits() == padded(old(self).bits()),
            final(self).sink() == pack(old(self).bits()),
    {
        let ghost mut added: nat = 0;
        let ghost total: nat = if self.pos == 0 { 0 } else { (8 - self.pos) as nat };
        proof {
            old(self).lemma_sink();
            assert(total == padding(old(self).bits().len()));
            assert(self.bits() =~= old(self).bits() + zeros(0));
        }
        while self.pos > 0
            invariant
                self.wf(),
                added <= total,
                self.pending() == if added == total { 0 } else { old(self).pending() + added },
                total == if old(self).pending() == 0 { 0 } else { 8 - old(self).pending() },
                self.bits() == old(self).bits() + zeros(added),
            decreases total - added,
        {
            let ghost before = *self;
            self.write_bit(false);
            proof {
                assert(before.bits().push(false) =~= old(self).bits() + zeros(added + 1));
                added = added + 1;
            }
        }
        proof {
            self.lemma_sink();
            lemma_unpack_pack(old(self).bits());
            lemma_be_bits_len(self.byte as nat, 0);
            assert(self.bits() =~= unpack(self.inner@));
            lemma_unpack_injective(self.inner@, pack(old(self).bits()));
        }
    }

    /// Flushes and hands back the sink: the bytes that hold every bit
    /// written, the last byte completed with zero bits.
    pub fn into_inner(self) -> (bytes: Vec<u8>)
        requires
            self.wf(),
        ensures
            bytes@ == pack(self.bits()),
    {
        let mut w = self;
        w.flush();
        w.inner
    }

    fn reset(&mut self)
        ensures
            final(self).inner == old(self).inner,
            final(self).byte == 0,
            final(self).pos == 0,
    {
        self.byte = 0;
        self.pos = 0;
    }
}

} // verus!
