//! Reading single bits and fixed-width integers from a byte buffer.

use vstd::prelude::*;
use vstd::arithmetic::power2::{lemma_pow2_strictly_increases, lemma2_to64};
use crate::bits::{be_value, unpack, lemma_be_bits_len, lemma_be_value_push,
    lemma_bits_of_value, lemma_byte_bit};
use crate::error::Error;

verus! {

/// A bit-granular reader over a byte buffer.
///
/// It holds the byte being consumed and how many of its bits are gone.
pub struct BitReader<'a> {
    inner: &'a [u8],
    next: usize,
    byte: u8,
    pos: u8,
}

impl<'a> BitReader<'a> {
    /// The byte in hand is the one last taken from the buffer.
    pub closed spec fn wf(&self) -> bool {
        &&& self.next <= self.inner@.len()
        &&& self.pos < 8
        &&& self.pos > 0 ==> self.next > 0 && self.byte == self.inner@[self.next - 1]
    }

    /// All the bits of the buffer, in reading order.
    pub closed spec fn stream(&self) -> Seq<bool> {
        unpack(self.inner@)
    }

    /// How many bits have been read.
    pub closed spec fn position(&self) -> nat {
        if self.pos == 0 {
            (8 * self.next) as nat
        } else {
            (8 * (self.next - 1) + self.pos) as nat
        }
    }

    /// The bits not read yet.
    pub open spec fn remaining(&self) -> Seq<bool> {
        self.stream().skip(self.position() as int)
    }

    /// A reader never runs past its buffer, whose bits come in whole bytes.
    pub proof fn lemma_position(&self)
        requires
            self.wf(),
        ensures
            self.position() <= self.stream().len(),
            self.stream().len() % 8 == 0,
    {
    }

    /// Instantiates a new `BitReader` at the first bit of `inner`.
    pub fn new(inner: &'a [u8]) -> (r: BitReader<'a>)
        ensures
            r.wf(),
            r.stream() == unpack(inner@),
            r.position() == 0,
    {
        BitReader { inner, next: 0, byte: 0, pos: 0 }
    }

    /// Reads in one bit of data, `0` or `1`.
    ///
    /// Fails with `EndOfStream`, and stays where it is, once every bit has
    /// been read.
    pub fn read_bit(&mut self) -> (r: Result<u8, Error>)
        requires
            old(self).wf(),
        ensures
            final(self).wf(),
            final(self).stream() == old(self).stream(),
            match r {
                Ok(bit) => {
                    &&& old(self).position() < old(self).stream().len()
                    &&& final(self).position() == old(self).position() + 1
                    &&& bit == if old(self).stream()[old(self).position() as int] { 1u8 } else { 0u8 }
                },
                Err(e) => {
                    &&& e == Error::EndOfStream
                    &&& old(self).position() == old(self).stream().len()
                    &&& final(self).position() == old(self).position()
                },
            },
    {
        if self.pos == 0 {
            if self.next >= self.inner.len() {
                return Err(Error::EndOfStream);
            }
            self.byte = self.inner[self.next];
            self.next += 1;
        }
        proof {
            lemma_byte_bit(self.byte, self.pos);
            lemma_be_bits_len(self.byte as nat, 8);
        }
        let bit = (self.byte >> (7 - self.pos)) & 1;
        self.pos += 1;
        if self.pos == 8 {
            self.reset();
        }
        Ok(bit)
    }

    /// Reads in one byte of data, most significant bit first.
    ///
    /// Fails with `EndOfStream` where fewer than eight bits are left, which
    /// are then consumed.
    pub fn read_byte(&mut self) -> (r: Result<u8, Error>)
        requires
            old(self).wf(),
        ensures
            final(self).wf(),
            final(self).stream() == old(self).stream(),
            match r {
                Ok(byte) => {
                    &&& old(self).position() + 8 <= old(self).stream().len()
                    &&& final(self).position() == old(self).position() + 8
                    &&& byte == be_value(
                        old(self).stream().subrange(
                            old(self).position() as int,
                            (old(self).position() + 8) as int,
                        ),
                    )
                },
                Err(e) => {
                    &&& e == Error::EndOfStream
                    &&& old(self).position() + 8 > old(self).stream().len()
                    &&& final(self).position() == old(self).stream().len()
                },
            },
    {
        let mut byte: u8 = 0;
        let mut k: u8 = 0;
        let ghost start = self.position() as int;
        proof {
            self.lemma_position();
        }
        while k < 8
            invariant
                k <= 8,
                self.wf(),
                self.stream() == old(self).stream(),
                start == old(self).position(),
                self.position() == start + k,
                start + k <= self.stream().len(),
                byte == be_value(self.stream().subrange(start, start + k)),
            decreases 8 - k,
        {
            let bit = match self.read_bit() {
                Ok(bit) => bit,
                Err(e) => {
                    return Err(e);
                },
            };
            proof {
                let have = self.stream().subrange(start, start + k);
                lemma_bits_of_value(have);
                lemma2_to64();
                if k < 7 {
                    lemma_pow2_strictly_increases(k as nat, 7);
                }
                lemma_be_value_push(have, self.stream()[start + k]);
                assert(have.push(self.stream()[start + k]) =~= self.stream().subrange(
                    start,
                    start + k + 1,
                ));
                assert(((byte << 1) | bit) == 2 * byte + bit) by (bit_vector)
                    requires
                        byte < 128,
                        bit <= 1,
                ;
            }
            byte = (byte << 1) | bit;
            k += 1;
        }
        Ok(byte)
    }

    /// Reads in two bytes of data in big endian.
    ///
    /// Fails with `EndOfStream` where fewer than sixteen bits are left, which
    /// are then consumed.
    pub fn read_u16(&mut self) -> (r: Result<u16, Error>)
        requires
            old(self).wf(),
        ensures
            final(self).wf(),
            final(self).stream() == old(self).stream(),
            match r {
                Ok(word) => {
                    &&& old(self).position() + 16 <= old(self).stream().len()
                    &&& final(self).position() == old(self).position() + 16
                    &&& word == be_value(
                        old(self).stream().subrange(
                            old(self).position() as int,
                            (old(self).position() + 16) as int,
                        ),
                    )
                },
                Err(e) => {
                    &&& e == Error::EndOfStream
                    &&& old(self).position() + 16 > old(self).stream().len()
                    &&& final(self).position() == old(self).stream().len()
                },
            },
    {
        let mut output: u16 = 0;
        let mut k: u8 = 0;
        let ghost start = self.position() as int;
        proof {
            self.lemma_position();
        }
        while k < 16
            invariant
                k <= 16,
                self.wf(),
                self.stream() == old(self).stream(),
                start == old(self).position(),
                self.position() == start + k,
                start + k <= self.stream().len(),
                output == be_value(self.stream().subrange(start, start + k)),
            decreases 16 - k,
        {
            let bit = match self.read_bit() {
                Ok(bit) => bit as u16,
                Err(e) => {
                    return Err(e);
                },
            };
            proof {
                let have = self.stream().subrange(start, start + k);
                lemma_bits_of_value(have);
                lemma2_to64();
                if k < 15 {
                    lemma_pow2_strictly_increases(k as nat, 15);
                }
                lemma_be_value_push(have, self.stream()[start + k]);
                assert(have.push(self.stream()[start + k]) =~= self.stream().subrange(
                    start,
                    start + k + 1,
                ));
                assert(((output << 1) | bit) == 2 * output + bit) by (bit_vector)
                    requires
                        output < 32768,
                        bit <= 1,
                ;
            }
            output = (output << 1) | bit;
            k += 1;
        }
        Ok(output)
    }

    /// Reads in eight bytes of data in big endian.
    ///
    /// Fails with `EndOfStream` where fewer than sixty-four bits are left, which
    /// are then consumed.
    pub fn read_u64(&mut self) -> (r: Result<u64, Error>)
        requires
            old(self).wf(),
        ensures
            final(self).wf(),
            final(self).stream() == old(self).stream(),
            match r {
                Ok(word) => {
                    &&& old(self).position() + 64 <= old(self).stream().len()
                    &&& final(self).position() == old(self).position() + 64
                    &&& word == be_value(
                        old(self).stream().subrange(
                            old(self).position() as int,
                            (old(self).position() + 64) as int,
                        ),
                    )
                },
                Err(e) => {
                    &&& e == Error::EndOfStream
                    &&& old(self).position() + 64 > old(self).stream().len()
                    &&& final(self).position() == old(self).stream().len()
                },
            },
    {
        let mut output: u64 = 0;
        let mut k: u8 = 0;
        let ghost start = self.position() as int;
        proof {
            self.lemma_position();
        }
        while k < 64
            invariant
                k <= 64,
                self.wf(),
                self.stream() == old(self).stream(),
                start == old(self).position(),
                self.position() == start + k,
                start + k <= self.stream().len(),
                output == be_value(self.stream().subrange(start, start + k)),
            decreases 64 - k,
        {
            let bit = match self.read_bit() {
                Ok(bit) => bit as u64,
                Err(e) => {
                    return Err(e);
                },
            };
            proof {
                let have = self.stream().subrange(start, start + k);
                lemma_bits_of_value(have);
                lemma2_to64();
                vstd::arithmetic::power2::lemma2_to64_rest();
                if k < 63 {
                    lemma_pow2_strictly_increases(k as nat, 63);
                }
                lemma_be_value_push(have, self.stream()[start + k]);
                assert(have.push(self.stream()[start + k]) =~= self.stream().subrange(
                    start,
                    start + k + 1,
                ));
                assert(((output << 1) | bit) == 2 * output + bit) by (bit_vector)
                    requires
                        output < 0x8000_0000_0000_0000,
                        bit <= 1,
                ;
            }
            output = (output << 1) | bit;
            k += 1;
        }
        Ok(output)
    }

    fn reset(&mut self)
        ensures
            final(self).inner == old(self).inner,
            final(self).next == old(self).next,
            final(self).byte == 0,
            final(self).pos == 0,
    {
        self.byte = 0;
        self.pos = 0;
    }
}

} // verus!
