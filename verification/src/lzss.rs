//! The LZSS dictionary coder: a greedy longest-match search over a sliding
//! window, a token stream of literals and back-references, and its
//! bit-packed wire form.

use vstd::prelude::*;
use vstd::slice::slice_subrange;
use vstd::arithmetic::power2::lemma2_to64;
use crate::bits::{be_bits, be_value, unpack, pack, padding, zeros, lemma_be_bits_len,
    lemma_value_of_bits, lemma_unpack_pack};
use crate::bitreader::BitReader;
use crate::bitwriter::BitWriter;
use crate::error::{Error, Decoded};
use crate::window::{WINDOW_CAPACITY, window_bytes, recent, window_new, window_capacity, window_len, window_push_front,
    window_range, lemma_recent_push};

verus! {

/// Farthest distance, in bytes, that a back-reference may reach.
pub const MAX_SEARCH: usize = 4095;

/// Longest run, in bytes, that one back-reference may reproduce.
pub const LOOK_AHEAD: usize = 15;

/// Shortest run worth a back-reference; shorter runs go out as literals.
pub const MIN_MATCH: usize = 3;

/// One token of the LZSS stream.
#[derive(Clone, Copy, Debug, PartialEq, Eq, Structural)]
pub enum Output {
    /// A byte that stands for itself.
    Literal(u8),
    /// `length` bytes that repeat the bytes found `offset` back in what has
    /// been produced so far.
    Reference { offset: u16, length: u8 },
}

/// The LZSS codec.
pub struct LZSS;

/// How many leading bytes two sequences share.
pub open spec fn common_prefix(a: Seq<u8>, b: Seq<u8>) -> nat
    decreases a.len(),
{
    if a.len() == 0 || b.len() == 0 || a[0] != b[0] {
        0
    } else {
        1 + common_prefix(a.skip(1), b.skip(1))
    }
}

/// The bytes ahead of the cursor that one token may cover.
pub open spec fn look_ahead(data: Seq<u8>, pos: int) -> Seq<u8> {
    data.subrange(
        pos,
        if pos + LOOK_AHEAD <= data.len() {
            pos + LOOK_AHEAD
        } else {
            data.len() as int
        },
    )
}

/// Length of the match at `pos` against the run that starts `offset` bytes
/// back: the source run stays before the cursor, the copy within the
/// look-ahead.
pub open spec fn match_len(data: Seq<u8>, pos: int, offset: int) -> nat {
    common_prefix(data.subrange(pos - offset, pos), look_ahead(data, pos))
}

/// The farthest offset that the search tries at `pos`.
pub open spec fn reach(data: Seq<u8>, pos: int) -> nat {
    if pos <= 0 || pos >= data.len() {
        0
    } else if pos <= MAX_SEARCH {
        pos as nat
    } else {
        MAX_SEARCH as nat
    }
}

/// The best match among the offsets `1..=tried`, scanned from the nearest
/// outwards: a farther candidate wins only if it is strictly longer, and
/// nothing shorter than three bytes counts. `(0, 0)` means no match.
pub open spec fn best_upto(data: Seq<u8>, pos: int, tried: nat) -> (nat, nat)
    decreases tried,
{
    if tried == 0 {
        (0, 0)
    } else {
        let best = best_upto(data, pos, (tried - 1) as nat);
        let len = match_len(data, pos, tried as int);
        if len > best.1 && len >= MIN_MATCH {
            (tried, len)
        } else {
            best
        }
    }
}

/// The match that the encoder takes at `pos`, as `(offset, length)`.
pub open spec fn best_match(data: Seq<u8>, pos: int) -> (nat, nat) {
    best_upto(data, pos, reach(data, pos))
}

/// The token that the encoder emits at `pos`.
pub open spec fn token_at(data: Seq<u8>, pos: int) -> Output {
    let m = best_match(data, pos);
    if m.1 == 0 {
        Output::Literal(data[pos])
    } else {
        Output::Reference { offset: m.0 as u16, length: m.1 as u8 }
    }
}

/// How far the cursor moves over the token emitted at `pos`.
pub open spec fn advance_at(data: Seq<u8>, pos: int) -> int {
    let m = best_match(data, pos);
    if m.1 == 0 {
        1
    } else {
        m.1 as int
    }
}

/// How many bytes lie at or after `pos`.
pub open spec fn bytes_left(data: Seq<u8>, pos: int) -> nat {
    if pos < data.len() {
        (data.len() - pos) as nat
    } else {
        0
    }
}

/// The tokens that encode `data` from `pos` to its end.
pub open spec fn tokens_from(data: Seq<u8>, pos: int) -> Seq<Output>
    decreases bytes_left(data, pos),
{
    if pos < 0 || pos >= data.len() {
        Seq::empty()
    } else {
        seq![token_at(data, pos)] + tokens_from(data, pos + advance_at(data, pos))
    }
}

/// The wire form of one token: a flag bit, then the literal byte or the
/// 16-bit field with the offset in its high twelve bits and the length in
/// its low four.
pub open spec fn token_bits(t: Output) -> Seq<bool> {
    match t {
        Output::Literal(byte) => seq![true] + be_bits(byte as nat, 8),
        Output::Reference { offset, length } => seq![false] + be_bits(
            (offset * 16 + length) as nat,
            16,
        ),
    }
}

/// The wire form of a token sequence.
pub open spec fn tokens_bits(tokens: Seq<Output>) -> Seq<bool>
    decreases tokens.len(),
{
    if tokens.len() == 0 {
        Seq::empty()
    } else {
        token_bits(tokens[0]) + tokens_bits(tokens.skip(1))
    }
}

/// The compressed form of `data`.
pub open spec fn compressed(data: Seq<u8>) -> Seq<u8> {
    pack(tokens_bits(tokens_from(data, 0)))
}

/// Whether a token is one that the encoder can emit.
pub open spec fn well_formed(t: Output) -> bool {
    match t {
        Output::Literal(_) => true,
        Output::Reference { offset, length } => {
            &&& 1 <= offset <= MAX_SEARCH
            &&& MIN_MATCH <= length <= LOOK_AHEAD
            &&& length <= offset
        },
    }
}

/// Whether the decoder can replay a reference once `produced` bytes are out:
/// the offset lies inside the history, short of its capacity, and the run
/// does not reach past the most recent byte.
pub open spec fn replayable(produced: nat, offset: nat, length: nat) -> bool {
    offset < WINDOW_CAPACITY && offset <= produced && length <= offset
}

/// The output after one more token.
pub open spec fn apply(out: Seq<u8>, t: Output) -> Seq<u8> {
    match t {
        Output::Literal(byte) => out.push(byte),
        Output::Reference { offset, length } => out + out.subrange(
            out.len() - offset,
            out.len() - offset + length,
        ),
    }
}

/// Decodes `bits`, continuing an output of `out`. The end of the bits, also
/// inside a token, ends the decoding cleanly; a reference that cannot be
/// replayed ends it as corrupt.
pub open spec fn decode_bits(bits: Seq<bool>, out: Seq<u8>) -> Decoded
    decreases bits.len(),
{
    if bits.len() == 0 {
        Decoded { bytes: out, corrupt: false }
    } else if bits[0] {
        if bits.len() < 9 {
            Decoded { bytes: out, corrupt: false }
        } else {
            decode_bits(bits.skip(9), out.push(be_value(bits.subrange(1, 9)) as u8))
        }
    } else {
        if bits.len() < 17 {
            Decoded { bytes: out, corrupt: false }
        } else {
            let word = be_value(bits.subrange(1, 17));
            let offset = word / 16;
            let length = word % 16;
            if replayable(out.len(), offset, length) {
                decode_bits(
                    bits.skip(17),
                    out + out.subrange(out.len() - offset, out.len() - offset + length),
                )
            } else {
                Decoded { bytes: out, corrupt: true }
            }
        }
    }
}

/// What decompressing `input` yields.
pub open spec fn decompressed(input: Seq<u8>) -> Decoded {
    decode_bits(unpack(input), Seq::empty())
}

/// A common prefix is shared and fits in both sequences.
pub proof fn lemma_common_prefix(a: Seq<u8>, b: Seq<u8>)
    ensures
        common_prefix(a, b) <= a.len(),
        common_prefix(a, b) <= b.len(),
        forall|j: int| 0 <= j < common_prefix(a, b) ==> a[j] == b[j],
        common_prefix(a, b) < a.len() && common_prefix(a, b) < b.len() ==> a[common_prefix(
            a,
            b,
        ) as int] != b[common_prefix(a, b) as int],
    decreases a.len(),
{
    if a.len() == 0 || b.len() == 0 || a[0] != b[0] {
    } else {
        lemma_common_prefix(a.skip(1), b.skip(1));
        let c = common_prefix(a.skip(1), b.skip(1));
        assert forall|j: int| 0 <= j < c + 1 implies a[j] == b[j] by {
            if j > 0 {
                assert(a.skip(1)[j - 1] == b.skip(1)[j - 1]);
            }
        }
        if c + 1 < a.len() && c + 1 < b.len() {
            assert(a.skip(1)[c as int] == a[(c + 1) as int]);
            assert(b.skip(1)[c as int] == b[(c + 1) as int]);
        }
    }
}

/// A shared run that cannot be extended is the common prefix.
pub proof fn lemma_common_prefix_is(a: Seq<u8>, b: Seq<u8>, t: nat)
    requires
        t <= a.len(),
        t <= b.len(),
        forall|j: int| 0 <= j < t ==> a[j] == b[j],
        t == a.len() || t == b.len() || a[t as int] != b[t as int],
    ensures
        common_prefix(a, b) == t,
    decreases t,
{
    if t > 0 {
        assert forall|j: int| 0 <= j < t - 1 implies a.skip(1)[j] == b.skip(1)[j] by {
            assert(a[j + 1] == b[j + 1]);
        }
        if t < a.len() && t < b.len() {
            assert(a.skip(1)[t - 1] == a[t as int]);
            assert(b.skip(1)[t - 1] == b[t as int]);
        }
        lemma_common_prefix_is(a.skip(1), b.skip(1), (t - 1) as nat);
    }
}

/// The scan keeps the longest match, and among the longest the nearest.
pub proof fn lemma_best_upto(data: Seq<u8>, pos: int, tried: nat)
    requires
        tried <= pos,
        tried <= MAX_SEARCH,
        pos < data.len(),
    ensures
        ({
            let best = best_upto(data, pos, tried);
            &&& best.0 <= tried
            &&& best.1 <= LOOK_AHEAD
            &&& best.1 <= best.0
            &&& (best.1 == 0 <==> best.0 == 0)
            &&& best.1 == 0 ==> forall|o: int|
                1 <= o <= tried ==> match_len(data, pos, o) < MIN_MATCH
            &&& best.1 != 0 ==> {
                &&& best.1 >= MIN_MATCH
                &&& best.1 == match_len(data, pos, best.0 as int)
                &&& forall|o: int| 1 <= o <= tried ==> match_len(data, pos, o) <= best.1
                &&& forall|o: int| 1 <= o < best.0 ==> match_len(data, pos, o) < best.1
            }
        }),
    decreases tried,
{
    if tried > 0 {
        lemma_best_upto(data, pos, (tried - 1) as nat);
        lemma_common_prefix(data.subrange(pos - tried, pos), look_ahead(data, pos));
    }
}

/// The encoder emits only well-formed tokens, each repeating bytes that
/// are really there: applying the token at `pos` to the first `pos` bytes
/// gives the bytes up to the next cursor.
pub proof fn lemma_token_at(data: Seq<u8>, pos: int)
    requires
        0 <= pos < data.len(),
    ensures
        well_formed(token_at(data, pos)),
        1 <= advance_at(data, pos) <= data.len() - pos,
        match token_at(data, pos) {
            Output::Literal(_) => true,
            Output::Reference { offset, length } => offset == best_match(data, pos).0 && length
                == best_match(data, pos).1 && offset <= pos,
        },
        apply(data.take(pos), token_at(data, pos)) == data.take(pos + advance_at(data, pos)),
{
    let m = best_match(data, pos);
    lemma_best_upto(data, pos, reach(data, pos));
    if m.1 == 0 {
        assert(data.take(pos).push(data[pos]) =~= data.take(pos + 1));
    } else {
        let source = data.subrange(pos - m.0, pos);
        let ahead = look_ahead(data, pos);
        lemma_common_prefix(source, ahead);
        let out = data.take(pos);
        let copied = out + out.subrange(out.len() - m.0, out.len() - m.0 + m.1);
        let target = data.take(pos + m.1);
        assert forall|i: int| 0 <= i < target.len() implies copied[i] == target[i] by {
            if i >= pos {
                assert(source[i - pos] == ahead[i - pos]);
            }
        }
        assert(copied =~= target);
    }
}

/// Every token that the encoder emits is well-formed.
pub proof fn lemma_tokens_well_formed(data: Seq<u8>, pos: int)
    requires
        0 <= pos,
    ensures
        forall|i: int|
            0 <= i < tokens_from(data, pos).len() ==> well_formed(
                #[trigger] tokens_from(data, pos)[i],
            ),
    decreases bytes_left(data, pos),
{
    if pos < data.len() {
        let tokens = tokens_from(data, pos);
        let rest = tokens_from(data, pos + advance_at(data, pos));
        lemma_token_at(data, pos);
        lemma_tokens_well_formed(data, pos + advance_at(data, pos));
        assert forall|i: int| 0 <= i < tokens.len() implies well_formed(#[trigger] tokens[i]) by {
            if i > 0 {
                assert(tokens[i] == rest[i - 1]);
            }
        }
    }
}

/// The wire form of a concatenation is the concatenation of the wire forms.
pub proof fn lemma_tokens_bits_concat(a: Seq<Output>, b: Seq<Output>)
    ensures
        tokens_bits(a + b) == tokens_bits(a) + tokens_bits(b),
    decreases a.len(),
{
    if a.len() == 0 {
        assert(a + b =~= b);
        assert(tokens_bits(a) + tokens_bits(b) =~= tokens_bits(b));
    } else {
        lemma_tokens_bits_concat(a.skip(1), b);
        assert((a + b).skip(1) =~= a.skip(1) + b);
        assert(tokens_bits(a + b) =~= tokens_bits(a) + tokens_bits(b));
    }
}

/// Decoding the wire form of a token that can be replayed applies the token
/// and goes on with the bits behind it.
pub proof fn lemma_decode_token(t: Output, rest: Seq<bool>, out: Seq<u8>)
    requires
        well_formed(t),
        match t {
            Output::Literal(_) => true,
            Output::Reference { offset, length } => replayable(
                out.len(),
                offset as nat,
                length as nat,
            ),
        },
    ensures
        decode_bits(token_bits(t) + rest, out) == decode_bits(rest, apply(out, t)),
{
    let bits = token_bits(t) + rest;
    lemma2_to64();
    match t {
        Output::Literal(byte) => {
            lemma_be_bits_len(byte as nat, 8);
            lemma_value_of_bits(byte as nat, 8);
            assert(bits.subrange(1, 9) =~= be_bits(byte as nat, 8));
            assert(bits.skip(9) =~= rest);
        },
        Output::Reference { offset, length } => {
            let word = (offset * 16 + length) as nat;
            lemma_be_bits_len(word, 16);
            lemma_value_of_bits(word, 16);
            assert(bits.subrange(1, 17) =~= be_bits(word, 16));
            assert(bits.skip(17) =~= rest);
        },
    }
}

/// The zero bits that complete the last byte decode to nothing.
pub proof fn lemma_decode_padding(n: nat, out: Seq<u8>)
    requires
        n < 8,
    ensures
        decode_bits(zeros(n), out) == (Decoded { bytes: out, corrupt: false }),
{
}

/// Whether every reference among the tokens of `data` from `pos` on stays
/// short of the history's capacity.
pub open spec fn references_in_reach(data: Seq<u8>, pos: int) -> bool {
    forall|i: int|
        0 <= i < tokens_from(data, pos).len() ==> match #[trigger] tokens_from(data, pos)[i] {
            Output::Literal(_) => true,
            Output::Reference { offset, length } => offset < WINDOW_CAPACITY,
        }
}

/// Decoding the tokens of `data` from `pos` on, after the first `pos` bytes
/// are out, produces all of `data` and goes on with the bits behind them.
pub proof fn lemma_decode_tokens(data: Seq<u8>, pos: int, tail: Seq<bool>)
    requires
        0 <= pos <= data.len(),
        references_in_reach(data, pos),
    ensures
        decode_bits(tokens_bits(tokens_from(data, pos)) + tail, data.take(pos)) == decode_bits(
            tail,
            data,
        ),
    decreases bytes_left(data, pos),
{
    let tokens = tokens_from(data, pos);
    if pos >= data.len() {
        assert(tokens_bits(tokens) + tail =~= tail);
        assert(data.take(pos) =~= data);
    } else {
        let t = token_at(data, pos);
        let next = pos + advance_at(data, pos);
        let rest = tokens_from(data, next);
        lemma_token_at(data, pos);
        assert(tokens[0] == t);
        assert(tokens.skip(1) =~= rest);
        assert(references_in_reach(data, next)) by {
            assert forall|i: int| 0 <= i < rest.len() implies match #[trigger] rest[i] {
                Output::Literal(_) => true,
                Output::Reference { offset, length } => offset < WINDOW_CAPACITY,
            } by {
                assert(rest[i] == tokens[i + 1]);
            }
        }
        lemma_decode_tokens(data, next, tail);
        assert(tokens_bits(tokens) + tail =~= token_bits(t) + (tokens_bits(rest) + tail));
        lemma_decode_token(t, tokens_bits(rest) + tail, data.take(pos));
    }
}

/// Decompressing what compression produced gives the input back, for every
/// input whose references all stay short of the farthest offset: the
/// encoder may reach that far, and the decoder takes such an offset for
/// corruption.
pub proof fn lemma_round_trip(data: Seq<u8>)
    requires
        references_in_reach(data, 0),
    ensures
        decompressed(compressed(data)) == (Decoded { bytes: data, corrupt: false }),
{
    let bits = tokens_bits(tokens_from(data, 0));
    lemma_unpack_pack(bits);
    lemma_decode_tokens(data, 0, zeros(padding(bits.len())));
    lemma_decode_padding(padding(bits.len()), data);
    assert(data.take(0) =~= Seq::<u8>::empty());
}

impl LZSS {
    /// Searches the window before `pos` for the longest run that matches
    /// the bytes at `pos`, nearest candidates first.
    ///
    /// Returns `(offset, length)` of the match, or `(0, 0)` where no run of
    /// three bytes or more matches.
    pub fn search_buffer(data: &[u8], pos: usize) -> (m: (u16, u8))
        ensures
            m.0 == best_match(data@, pos as int).0,
            m.1 == best_match(data@, pos as int).1,
    {
        let (mut offset, mut length): (usize, usize) = (0, 0);
        if pos == 0 || pos >= data.len() {
            return (0, 0);
        }
        let farthest: usize = if pos <= MAX_SEARCH { pos } else { MAX_SEARCH };
        let end: usize = if data.len() - pos <= LOOK_AHEAD { data.len() } else { pos + LOOK_AHEAD };
        let mut temp_offset: usize = 1;
        while temp_offset <= farthest
            invariant
                0 < pos < data.len(),
                farthest == reach(data@, pos as int),
                end == if pos + LOOK_AHEAD <= data.len() {
                    pos + LOOK_AHEAD
                } else {
                    data.len() as int
                },
                1 <= temp_offset <= farthest + 1,
                offset == best_upto(data@, pos as int, (temp_offset - 1) as nat).0,
                length == best_upto(data@, pos as int, (temp_offset - 1) as nat).1,
                offset <= MAX_SEARCH,
                length <= LOOK_AHEAD,
            decreases farthest + 1 - temp_offset,
        {
            let i: usize = pos - temp_offset;
            let mut temp_len: usize = 0;
            let ghost source = data@.subrange(i as int, pos as int);
            let ghost ahead = look_ahead(data@, pos as int);
            while i + temp_len < pos && pos + temp_len < end && data[i + temp_len] == data[pos
                + temp_len]
                invariant
                    i + temp_offset == pos,
                    pos < end <= data.len(),
                    end - pos <= LOOK_AHEAD,
                    source == data@.subrange(i as int, pos as int),
                    ahead == data@.subrange(pos as int, end as int),
                    temp_len <= source.len(),
                    temp_len <= ahead.len(),
                    forall|j: int| 0 <= j < temp_len ==> source[j] == ahead[j],
                decreases pos - i - temp_len,
            {
                temp_len += 1;
            }
            proof {
                lemma_common_prefix_is(source, ahead, temp_len as nat);
                lemma_best_upto(data@, pos as int, (temp_offset - 1) as nat);
            }
            if temp_len > length && temp_len >= MIN_MATCH {
                offset = temp_offset;
                length = temp_len;
            }
            temp_offset += 1;
        }
        (offset as u16, length as u8)
    }

    /// Encodes the first `len` bytes of `data` into tokens: at each
    /// position a reference to the best match, or the byte itself where no
    /// match is long enough.
    pub fn encode(data: &[u8], len: usize) -> (output: Vec<Output>)
        requires
            len <= data.len(),
        ensures
            output@ == tokens_from(data@.take(len as int), 0),
    {
        let data = slice_subrange(data, 0, len);
        let mut output: Vec<Output> = Vec::with_capacity(len);
        let mut pos: usize = 0;
        while pos < len
            invariant
                len == data@.len(),
                pos <= len,
                output@ + tokens_from(data@, pos as int) == tokens_from(data@, 0),
            decreases len - pos,
        {
            let byte = data[pos];
            let (offset, length) = Self::search_buffer(data, pos);
            proof {
                lemma_best_upto(data@, pos as int, reach(data@, pos as int));
                lemma_common_prefix(
                    data@.subrange(pos - offset, pos as int),
                    look_ahead(data@, pos as int),
                );
            }
            let ghost before = output@;
            let return_value = if length == 0 {
                pos += 1;
                Output::Literal(byte)
            } else {
                pos += length as usize;
                Output::Reference { offset, length }
            };
            output.push(return_value);
            proof {
                assert(output@ + tokens_from(data@, pos as int) =~= before + (seq![return_value]
                    + tokens_from(data@, pos as int)));
            }
        }
        proof {
            assert(output@ + tokens_from(data@, pos as int) =~= output@);
        }
        output
    }

    /// Compresses `reader`: encodes it into tokens and packs their wire
    /// forms, the last byte completed with zero bits.
    pub fn write_output(reader: &[u8]) -> (writer: Vec<u8>)
        ensures
            writer@ == compressed(reader@),
    {
        let mut writer = BitWriter::new(Vec::new());
        let encoded_output = Self::encode(reader, reader.len());
        let ghost tokens = encoded_output@;
        proof {
            assert(reader@.take(reader@.len() as int) =~= reader@);
            lemma_tokens_well_formed(reader@, 0);
            assert(writer.bits() =~= tokens_bits(tokens.take(0)));
        }
        let mut n: usize = 0;
        while n < encoded_output.len()
            invariant
                n <= encoded_output.len(),
                tokens == encoded_output@,
                forall|i: int| 0 <= i < tokens.len() ==> well_formed(#[trigger] tokens[i]),
                writer.wf(),
                writer.bits() == tokens_bits(tokens.take(n as int)),
            decreases encoded_output.len() - n,
        {
            let ghost before = writer.bits();
            let token = encoded_output[n];
            assert(well_formed(tokens[n as int]));
            match token {
                Output::Literal(val) => {
                    writer.write_bit(true);
                    writer.write_u8(val);
                },
                Output::Reference { offset, length } => {
                    writer.write_bit(false);
                    let len16 = length as u16;
                    assert((offset << 4 | len16) == offset * 16 + len16) by (bit_vector)
                        requires
                            offset <= 4095,
                            len16 <= 15,
                    ;
                    let double_byte = offset << 4 | len16;
                    writer.write_u16(double_byte);
                },
            }
            proof {
                assert(writer.bits() =~= before + token_bits(token));
                lemma_tokens_bits_concat(tokens.take(n as int), seq![token]);
                assert(tokens_bits(seq![token].skip(1)) =~= Seq::<bool>::empty());
                assert(tokens_bits(seq![token]) =~= token_bits(token));
                assert(tokens.take(n as int) + seq![token] =~= tokens.take(n + 1));
            }
            n += 1;
        }
        proof {
            assert(tokens.take(n as int) =~= tokens);
        }
        writer.into_inner()
    }

    /// Decompresses `reader` and appends the bytes to `writer`.
    ///
    /// A literal is emitted as it is; a reference replays a run from the
    /// history of the last bytes produced. The end of the input, also
    /// inside a token, ends the decoding with what has been produced. A
    /// reference that the history cannot serve ends it with
    /// `Error::CorruptStream`, after the bytes decoded before it.
    pub fn read_input(reader: &[u8], writer: &mut Vec<u8>) -> (r: Result<(), Error>)
        ensures
            final(writer)@ == old(writer)@ + decompressed(reader@).bytes,
            r == if decompressed(reader@).corrupt {
                Err::<(), Error>(Error::CorruptStream)
            } else {
                Ok::<(), Error>(())
            },
    {
        let ghost input = reader@;
        let ghost base = writer@;
        let ghost mut out: Seq<u8> = Seq::empty();
        let mut source = BitReader::new(reader);
        let mut sliding_window = window_new();
        proof {
            assert(writer@ =~= base + out);
            assert(source.remaining() =~= unpack(input));
            assert(recent(out) =~= Seq::<u8>::empty());
        }
        loop
            invariant
                input == reader@,
                base == old(writer)@,
                source.wf(),
                source.stream() == unpack(input),
                writer@ == base + out,
                window_bytes(sliding_window) == recent(out),
                decode_bits(source.remaining(), out) == decompressed(input),
            ensures
                writer@ == base + decompressed(input).bytes,
                !decompressed(input).corrupt,
            decreases source.stream().len() - source.position(),
        {
            let ghost bits = source.remaining();
            let ghost start = source.position() as int;
            proof {
                source.lemma_position();
            }
            let flag = match source.read_bit() {
                Ok(flag) => flag,
                Err(_) => {
                    assert(bits.len() == 0);
                    break ;
                },
            };
            assert(bits[0] == (flag == 1));
            if flag == 1 {
                match source.read_byte() {
                    Ok(literal) => {
                        proof {
                            assert(bits.subrange(1, 9) =~= source.stream().subrange(
                                start + 1,
                                start + 9,
                            ));
                            assert(bits.skip(9) =~= source.remaining());
                            lemma_recent_push(out, literal);
                            out = out.push(literal);
                        }
                        writer.push(literal);
                        window_push_front(&mut sliding_window, literal);
                        proof {
                            assert(writer@ =~= base + out);
                        }
                    },
                    Err(_) => {
                        assert(bits.len() < 9);
                        break ;
                    },
                }
            } else {
                match source.read_u16() {
                    Ok(reference) => {
                        assert(reference >> 4 == reference / 16 && reference & 0b1111 == reference
                            % 16) by (bit_vector);
                        let offset = (reference >> 4) as usize;
                        let length = (reference & 0b1111) as usize;
                        proof {
                            assert(bits.subrange(1, 17) =~= source.stream().subrange(
                                start + 1,
                                start + 17,
                            ));
                            assert(bits.skip(17) =~= source.remaining());
                            assert(bits.len() >= 17);
                            assert(offset == be_value(bits.subrange(1, 17)) / 16);
                            assert(length == be_value(bits.subrange(1, 17)) % 16);
                        }
                        if offset >= window_capacity(&sliding_window) || offset > window_len(
                            &sliding_window,
                        ) || length > offset {
                            proof {
                                assert(!replayable(out.len(), offset as nat, length as nat));
                                assert(decode_bits(bits, out) == (Decoded {
                                    bytes: out,
                                    corrupt: true,
                                }));
                            }
                            return Err(Error::CorruptStream);
                        }
                        let replay = window_range(&sliding_window, offset - length, offset);
                        let ghost before = out;
                        let mut k: usize = replay.len();
                        proof {
                            assert(out =~= before + before.subrange(
                                before.len() - offset,
                                before.len() - offset,
                            ));
                        }
                        while k > 0
                            invariant
                                k <= length,
                                length <= offset <= recent(before).len(),
                                replay@ == recent(before).subrange(offset - length, offset as int),
                                writer@ == base + out,
                                window_bytes(sliding_window) == recent(out),
                                out == before + before.subrange(
                                    before.len() - offset,
                                    before.len() - offset + length - k,
                                ),
                            decreases k,
                        {
                            k -= 1;
                            let literal = replay[k];
                            proof {
                                lemma_recent_push(out, literal);
                                assert(literal == before[before.len() - offset + length - 1 - k]);
                                assert(out.push(literal) =~= before + before.subrange(
                                    before.len() - offset,
                                    before.len() - offset + length - k,
                                ));
                                out = out.push(literal);
                            }
                            writer.push(literal);
                            window_push_front(&mut sliding_window, literal);
                            proof {
                                assert(writer@ =~= base + out);
                            }
                        }
                    },
                    Err(_) => {
                        assert(bits.len() < 17);
                        break ;
                    },
                }
            }
        }
        Ok(())
    }
}

} // verus!
