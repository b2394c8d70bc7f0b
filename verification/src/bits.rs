//! The mathematical model of bit streams: how numbers spell bits, how bytes
//! unpack into a bit sequence, and how a bit sequence packs into bytes.

use vstd::prelude::*;
use vstd::arithmetic::power2::{pow2, lemma_pow2_unfold, lemma_pow2_pos, lemma2_to64};
use vstd::arithmetic::div_mod::lemma_div_denominator;

verus! {

/// The `n` low bits of `v`, most significant first.
pub open spec fn be_bits(v: nat, n: nat) -> Seq<bool>
    decreases n,
{
    if n == 0 {
        Seq::empty()
    } else {
        be_bits(v / 2, (n - 1) as nat).push(v % 2 == 1)
    }
}

/// The number that a bit sequence spells, most significant bit first.
pub open spec fn be_value(bits: Seq<bool>) -> nat
    decreases bits.len(),
{
    if bits.len() == 0 {
        0
    } else {
        2 * be_value(bits.drop_last()) + if bits.last() { 1nat } else { 0nat }
    }
}

/// `n` zero bits.
pub open spec fn zeros(n: nat) -> Seq<bool> {
    Seq::new(n, |i: int| false)
}

/// The bits of a byte sequence in stream order: byte by byte, each byte most
/// significant bit first.
pub open spec fn unpack(bytes: Seq<u8>) -> Seq<bool> {
    Seq::new(8 * bytes.len(), |i: int| be_bits(bytes[i / 8] as nat, 8)[i % 8])
}

/// How many zero bits complete `len` bits to a whole number of bytes.
pub open spec fn padding(len: nat) -> nat {
    ((8 - len % 8) % 8) as nat
}

/// A bit sequence completed with zero bits to a whole number of bytes.
pub open spec fn padded(bits: Seq<bool>) -> Seq<bool> {
    bits + zeros(padding(bits.len()))
}

/// The bytes that hold a bit sequence, the last byte completed with zero
/// bits.
pub open spec fn pack(bits: Seq<bool>) -> Seq<u8> {
    Seq::new(
        (bits.len() + 7) / 8,
        |j: int| be_value(padded(bits).subrange(8 * j, 8 * j + 8)) as u8,
    )
}

/// A number spelled with `n` bits takes `n` bits.
pub proof fn lemma_be_bits_len(v: nat, n: nat)
    ensures
        be_bits(v, n).len() == n,
    decreases n,
{
    if n > 0 {
        lemma_be_bits_len(v / 2, (n - 1) as nat);
    }
}

/// Bit `k` of `be_bits(v, n)` is the binary digit of weight `2^(n-1-k)`.
pub proof fn lemma_be_bits_index(v: nat, n: nat, k: int)
    requires
        0 <= k < n,
    ensures
        be_bits(v, n).len() == n,
        be_bits(v, n)[k] == ((v / pow2((n - 1 - k) as nat)) % 2 == 1),
    decreases n,
{
    lemma_be_bits_len(v, n);
    lemma_be_bits_len(v / 2, (n - 1) as nat);
    if k == n - 1 {
        lemma2_to64();
        assert(be_bits(v, n)[k] == (v % 2 == 1));
        assert(pow2((n - 1 - k) as nat) == 1);
        assert(v / pow2((n - 1 - k) as nat) == v);
    } else {
        let m = (n - 2 - k) as nat;
        lemma_be_bits_index(v / 2, (n - 1) as nat, k);
        lemma_pow2_unfold(m + 1);
        lemma_pow2_pos(m);
        lemma_div_denominator(v as int, 2, pow2(m) as int);
        assert(be_bits(v, n)[k] == be_bits(v / 2, (n - 1) as nat)[k]);
        assert(pow2((n - 1 - k) as nat) == 2 * pow2(m));
        assert((v / 2) / pow2(m) == v / (2 * pow2(m)));
        assert(v / pow2((n - 1 - k) as nat) == (v / 2) / pow2(m));
    }
}

/// A number below `2^n` is spelled back by its `n` bits.
pub proof fn lemma_value_of_bits(v: nat, n: nat)
    requires
        v < pow2(n),
    ensures
        be_value(be_bits(v, n)) == v,
    decreases n,
{
    lemma_be_bits_len(v, n);
    if n == 0 {
        lemma2_to64();
    } else {
        lemma_pow2_unfold(n);
        lemma_value_of_bits(v / 2, (n - 1) as nat);
        assert(be_bits(v, n).drop_last() =~= be_bits(v / 2, (n - 1) as nat));
    }
}

/// A bit sequence spells a number below `2^len`, whose bits are the
/// sequence again.
pub proof fn lemma_bits_of_value(bits: Seq<bool>)
    ensures
        be_value(bits) < pow2(bits.len()),
        be_bits(be_value(bits), bits.len()) == bits,
    decreases bits.len(),
{
    if bits.len() == 0 {
        lemma2_to64();
        assert(be_bits(be_value(bits), 0) =~= bits);
    } else {
        lemma_bits_of_value(bits.drop_last());
        lemma_pow2_unfold(bits.len());
        assert(be_bits(be_value(bits), bits.len()) =~= bits);
    }
}

/// Appending one bit doubles the number and adds the bit.
pub proof fn lemma_be_value_push(bits: Seq<bool>, bit: bool)
    ensures
        be_value(bits.push(bit)) == 2 * be_value(bits) + if bit { 1nat } else { 0nat },
{
    assert(bits.push(bit).drop_last() =~= bits);
}

/// Every byte unpacks into eight bits.
pub proof fn lemma_unpack_len(bytes: Seq<u8>)
    ensures
        unpack(bytes).len() == 8 * bytes.len(),
{
}

/// Appending a byte appends its eight bits.
pub proof fn lemma_unpack_push(bytes: Seq<u8>, byte: u8)
    ensures
        unpack(bytes.push(byte)) == unpack(bytes) + be_bits(byte as nat, 8),
{
    lemma_be_bits_len(byte as nat, 8);
    assert(unpack(bytes.push(byte)) =~= unpack(bytes) + be_bits(byte as nat, 8));
}

/// The eight bits that start at a byte boundary are the bits of that byte.
pub proof fn lemma_unpack_byte(bytes: Seq<u8>, j: int)
    requires
        0 <= j < bytes.len(),
    ensures
        unpack(bytes).subrange(8 * j, 8 * j + 8) == be_bits(bytes[j] as nat, 8),
{
    lemma_be_bits_len(bytes[j] as nat, 8);
    assert(unpack(bytes).subrange(8 * j, 8 * j + 8) =~= be_bits(bytes[j] as nat, 8));
}

/// Two byte sequences with the same bits are the same bytes.
pub proof fn lemma_unpack_injective(a: Seq<u8>, b: Seq<u8>)
    requires
        unpack(a) == unpack(b),
    ensures
        a == b,
{
    assert(a.len() == b.len()) by {
        lemma_unpack_len(a);
        lemma_unpack_len(b);
    }
    assert forall|j: int| 0 <= j < a.len() implies a[j] == b[j] by {
        lemma_unpack_byte(a, j);
        lemma_unpack_byte(b, j);
        lemma2_to64();
        lemma_value_of_bits(a[j] as nat, 8);
        lemma_value_of_bits(b[j] as nat, 8);
    }
    assert(a =~= b);
}

/// Packing never loses a bit: the packed bytes unpack to the bits written,
/// followed by the zero bits that complete the last byte.
pub proof fn lemma_unpack_pack(bits: Seq<bool>)
    ensures
        unpack(pack(bits)) == padded(bits),
        padded(bits).len() == 8 * pack(bits).len(),
        padded(bits).subrange(0, bits.len() as int) == bits,
        forall|i: int| bits.len() <= i < padded(bits).len() ==> !padded(bits)[i],
{
    let p = padded(bits);
    let bytes = pack(bits);
    assert(p.len() == 8 * bytes.len());
    assert forall|i: int| 0 <= i < p.len() implies unpack(bytes)[i] == p[i] by {
        let j = i / 8;
        let chunk = p.subrange(8 * j, 8 * j + 8);
        lemma_bits_of_value(chunk);
        lemma2_to64();
        assert(bytes[j] as nat == be_value(chunk));
        assert(chunk[i % 8] == p[i]);
    }
    assert(unpack(bytes) =~= p);
    assert(p.subrange(0, bits.len() as int) =~= bits);
}

/// Bit `k` of a byte, counted from the most significant, read with a shift
/// and a mask.
pub proof fn lemma_byte_bit(b: u8, k: u8)
    requires
        k < 8,
    ensures
        (((b >> ((7 - k) as u8)) & 1) == 1) == be_bits(b as nat, 8)[k as int],
        ((b >> ((7 - k) as u8)) & 1) == 0 || ((b >> ((7 - k) as u8)) & 1) == 1,
{
    let s = (7 - k) as u8;
    lemma_be_bits_index(b as nat, 8, k as int);
    vstd::bits::lemma_u8_shr_is_div(b, s);
    let x = b >> s;
    assert(x & 1 == x % 2) by (bit_vector);
}

/// Bit `k` of a 16-bit word, counted from the most significant.
pub proof fn lemma_word_bit(w: u16, k: u16)
    requires
        k < 16,
    ensures
        (((w >> ((15 - k) as u16)) & 1) == 1) == be_bits(w as nat, 16)[k as int],
{
    let s = (15 - k) as u16;
    lemma_be_bits_index(w as nat, 16, k as int);
    vstd::bits::lemma_u16_shr_is_div(w, s);
    let x = w >> s;
    assert(x & 1 == x % 2) by (bit_vector);
}

/// Bit `k` of a 64-bit word, counted from the most significant.
pub proof fn lemma_quad_bit(w: u64, k: u64)
    requires
        k < 64,
    ensures
        (((w >> ((63 - k) as u64)) & 1) == 1) == be_bits(w as nat, 64)[k as int],
{
    let s = (63 - k) as u64;
    lemma_be_bits_index(w as nat, 64, k as int);
    vstd::bits::lemma_u64_shr_is_div(w, s);
    let x = w >> s;
    assert(x & 1 == x % 2) by (bit_vector);
}

} // verus!
