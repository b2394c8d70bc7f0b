//! The Huffman entropy coder: frequency analysis, tree construction, code
//! generation, and encoding and decoding against the tree.

use vstd::prelude::*;
use vstd::multiset::Multiset;
use vstd::slice::slice_subrange;
use crate::bits::{be_bits, be_value, unpack, pack, padded, padding, zeros, lemma_be_bits_len,
    lemma_value_of_bits, lemma_unpack_pack};
use crate::bitreader::BitReader;
use crate::bitwriter::BitWriter;
use crate::error::{Error, Decoded};
use crate::forest::{Measure, measure, forest_measure, all_trees, join, leaf_nodes, rarest_in,
    merge_step, is_merge_run, merges_to, lemma_join_measure, lemma_forest_insert, lemma_forest_perm,
    lemma_leaf_nodes, lemma_sum_counts, lemma_count_positive};
use crate::heap::{Heap, total_order, at_least, outranks};
use crate::map::{ByteMap, CountMap, count_of, lemma_count_concat, lemma_count_bound,
    lemma_count_prefix};
use crate::node::Node;
use crate::tree::{Shape, Parsed, parse, lemma_path_exists, lemma_height, lemma_symbols_encoded,
    lemma_parse_wire};

verus! {

/// Pages shorter than this are counted in one go.
pub const SINGLE_THREAD_LIMIT: usize = 320_000;

/// Bytes that a page holds for each worker.
pub const BYTES_MULTIPLIER: usize = 80_000;

/// The highest tree that the decoder accepts: a code tree has at most 256
/// leaves.
pub const MAX_HEIGHT: u32 = 255;

/// The Huffman codec.
pub struct Huffman;

/// Nodes are totally ordered by their frequency, the rarer the greater.
pub proof fn lemma_node_order()
    ensures
        total_order::<Node>(),
{
    assert forall|a: Node, b: Node| #[trigger] at_least(a, b) || outranks(b, a) by {}
    assert forall|a: Node, b: Node, c: Node| #[trigger]
        at_least(a, b) && #[trigger] at_least(b, c) implies at_least(a, c) by {}
}

/// A node ranks at least as high as another exactly if it is no more
/// frequent.
pub proof fn lemma_node_rank(a: Node, b: Node)
    ensures
        at_least(a, b) <==> a.freq <= b.freq,
{
}

/// An item of a forest that ranks at least as high as every tree there is
/// one of its rarest.
pub proof fn lemma_rarest(x: Node, forest: Seq<Node>)
    requires
        forest.to_multiset().contains(x),
        forall|i: int| 0 <= i < forest.len() ==> at_least(x, #[trigger] forest[i]),
    ensures
        rarest_in(x, forest.to_multiset()),
{
    assert forall|y: Node| forest.to_multiset().contains(y) implies x.freq <= y.freq by {
        vstd::seq_lib::to_multiset_contains(forest, y);
        let i = choose|i: int| 0 <= i < forest.len() && forest[i] == y;
        lemma_node_rank(x, forest[i]);
    }
}

/// One step of the construction: where the two rarest trees have been taken
/// from a forest one after the other and their join has been put there, the
/// forest has made a merge step, measures what it did, and holds trees only.
pub proof fn lemma_joined(
    before: Seq<Node>,
    between: Seq<Node>,
    after: Seq<Node>,
    now: Seq<Node>,
    left: Node,
    right: Node,
)
    requires
        before.to_multiset() == between.to_multiset().insert(left),
        between.to_multiset() == after.to_multiset().insert(right),
        now.to_multiset() == after.to_multiset().insert(join(left, right)),
        forall|i: int| 0 <= i < before.len() ==> at_least(left, #[trigger] before[i]),
        forall|i: int| 0 <= i < between.len() ==> at_least(right, #[trigger] between[i]),
        left.freq + right.freq <= u64::MAX,
        all_trees(before),
    ensures
        merge_step(before.to_multiset(), now.to_multiset()),
        forall|k: Measure| forest_measure(now, k) == forest_measure(before, k),
        all_trees(now),
{
    broadcast use vstd::multiset::group_multiset_axioms;

    let node = join(left, right);
    assert forall|k: Measure| forest_measure(now, k) == forest_measure(before, k) by {
        lemma_forest_insert(before, between, left, k);
        lemma_forest_insert(between, after, right, k);
        lemma_join_measure(left, right, k);
        lemma_forest_insert(now, after, node, k);
    }
    lemma_forest_insert(before, between, left, Measure::Weight);
    lemma_forest_insert(between, after, right, Measure::Weight);
    lemma_join_measure(left, right, Measure::Weight);
    lemma_forest_insert(now, after, node, Measure::Weight);
    let m0 = before.to_multiset();
    let m1 = between.to_multiset();
    let m2 = after.to_multiset();
    lemma_rarest(left, before);
    lemma_rarest(right, between);
    assert(m1 =~= m0.remove(left));
    assert(m2 =~= m1.remove(right));
    assert(now.to_multiset() == m0.remove(left).remove(right).insert(node));
}

/// Counts every byte of `input`.
#[inline]
pub fn count(input: &[u8]) -> (map: CountMap)
    ensures
        map.counts(input@),
{
    let mut map = CountMap::new();
    let mut i: usize = 0;
    while i < input.len()
        invariant
            i <= input.len(),
            map@.len() == 256,
            forall|b: u8| map@[b as int] == count_of(input@.take(i as int), b),
        decreases input.len() - i,
    {
        let byte = input[i];
        proof {
            lemma_count_bound(input@.take(i as int), byte);
            assert(input@.take(i + 1).drop_last() =~= input@.take(i as int));
        }
        map.increment_count(byte);
        i += 1;
    }
    proof {
        assert(input@.take(i as int) =~= input@);
    }
    map
}

/// Adds the counts of the bytes of `data` to `result`.
#[inline]
pub fn count_single_thread(result: &mut CountMap, data: &[u8])
    requires
        old(result).has_room(data@),
    ensures
        forall|b: u8| final(result)@[b as int] == old(result)@[b as int] + count_of(data@, b),
{
    let mut i: usize = 0;
    proof {
        result.lemma_len();
    }
    while i < data.len()
        invariant
            i <= data.len(),
            result@.len() == 256,
            old(result)@.len() == 256,
            old(result).has_room(data@),
            forall|b: u8|
                result@[b as int] == old(result)@[b as int] + count_of(data@.take(i as int), b),
        decreases data.len() - i,
    {
        let byte = data[i];
        proof {
            lemma_count_prefix(data@, i + 1, byte);
            assert(data@.take(i + 1).drop_last() =~= data@.take(i as int));
        }
        result.increment_count(byte);
        i += 1;
    }
    proof {
        assert(data@.take(i as int) =~= data@);
    }
}

/// Adds the counts of `part` to `result`, slot by slot.
pub fn merge_counts(result: &mut CountMap, part: &CountMap)
    requires
        forall|b: u8| old(result)@[b as int] + part@[b as int] <= u64::MAX,
    ensures
        forall|b: u8| final(result)@[b as int] == old(result)@[b as int] + part@[b as int],
{
    let mut key: usize = 0;
    proof {
        result.lemma_len();
        part.lemma_len();
    }
    while key < 256
        invariant
            key <= 256,
            result@.len() == 256,
            old(result)@.len() == 256,
            part@.len() == 256,
            forall|b: u8| old(result)@[b as int] + part@[b as int] <= u64::MAX,
            forall|b: u8|
                result@[b as int] == if b < key {
                    old(result)@[b as int] + part@[b as int]
                } else {
                    old(result)@[b as int] as int
                },
        decreases 256 - key,
    {
        let value = part.get(key as u8);
        result.increment_count_by(key as u8, value);
        key += 1;
    }
}

/// The length of the chunks into which `len` bytes are split for `threads`
/// workers: one more than an even share, or the largest length there is
/// where one more does not fit.
pub fn chunk_size(len: usize, threads: usize) -> (size: usize)
    requires
        threads > 0,
    ensures
        size == if len / threads < usize::MAX {
            len / threads + 1
        } else {
            usize::MAX as int
        },
{
    (len / threads).saturating_add(1)
}

/// Adds the counts of the bytes of `data` to `result`, counting chunk by
/// chunk into a table of its own and merging the tables. Each chunk is
/// counted without regard to any other, so that workers may count them side
/// by side; the outcome is that of `count_single_thread`.
pub fn count_chunked(result: &mut CountMap, data: &[u8], threads: usize)
    requires
        threads > 0,
        old(result).has_room(data@),
    ensures
        forall|b: u8| final(result)@[b as int] == old(result)@[b as int] + count_of(data@, b),
{
    let size = chunk_size(data.len(), threads);
    let mut start: usize = 0;
    proof {
        result.lemma_len();
    }
    while start < data.len()
        invariant
            size > 0,
            result@.len() == 256,
            old(result)@.len() == 256,
            start <= data.len(),
            old(result).has_room(data@),
            forall|b: u8|
                result@[b as int] == old(result)@[b as int] + count_of(
                    data@.take(start as int),
                    b,
                ),
        decreases data.len() - start,
    {
        let end = if data.len() - start <= size { data.len() } else { start + size };
        let chunk = slice_subrange(data, start, end);
        let map = count(chunk);
        proof {
            map.lemma_len();
            assert(data@.take(start as int) + chunk@ =~= data@.take(end as int));
            assert forall|b: u8| #[trigger]
                count_of(data@.take(end as int), b) == count_of(data@.take(start as int), b)
                    + count_of(chunk@, b) by {
                lemma_count_concat(data@.take(start as int), chunk@, b);
            }
            assert forall|b: u8| result@[b as int] + #[trigger] map@[b as int] <= u64::MAX by {
                lemma_count_concat(data@.take(start as int), chunk@, b);
                lemma_count_prefix(data@, end as int, b);
            }
        }
        merge_counts(result, &map);
        proof {
            result.lemma_len();
        }
        start = end;
    }
    proof {
        assert(data@.take(start as int) =~= data@);
    }
}

/// The frequency table of `data`.
pub open spec fn histogram(data: Seq<u8>) -> Seq<u64> {
    Seq::new(256, |b: int| count_of(data, b as u8) as u64)
}

/// Whether `root` is a code tree grown from the frequency table of `data`:
/// a well-formed tree that the leaves of the table merge to, and whose
/// leaves are therefore those of the table.
pub open spec fn grown_from(root: Node, data: Seq<u8>) -> bool {
    &&& root.is_tree()
    &&& merges_to(leaf_nodes(histogram(data), 256).to_multiset(), root)
    &&& forall|k: Measure| measure(root, k) == forest_measure(leaf_nodes(histogram(data), 256), k)
}

/// The bits of a compressed stream: the number of bytes as a 64-bit word,
/// the tree, and the codes of the bytes.
pub open spec fn stream(shape: Shape, data: Seq<u8>) -> Seq<bool> {
    be_bits(data.len(), 64) + shape.wire() + shape.encoded(data)
}

/// Whether `out` is a compressed form of `data`: for no data the 64-bit
/// word zero alone, else the stream under a code tree grown from the data.
pub open spec fn is_encoding(out: Seq<u8>, data: Seq<u8>) -> bool {
    if data.len() == 0 {
        out == pack(be_bits(0, 64))
    } else {
        exists|root: Node| #[trigger] grown_from(root, data) && out == pack(stream(root.shape(), data))
    }
}

/// What decompressing `input` yields. Input that ends early yields what was
/// decoded up to there; a tree higher than any code tree is corrupt.
pub open spec fn decompressed(input: Seq<u8>) -> Decoded {
    let bits = unpack(input);
    if bits.len() < 64 {
        Decoded { bytes: Seq::empty(), corrupt: false }
    } else {
        let count = be_value(bits.subrange(0, 64));
        if count == 0 {
            Decoded { bytes: Seq::empty(), corrupt: false }
        } else {
            match parse(bits.skip(64), MAX_HEIGHT as nat) {
                Parsed::Tree(shape, n) => Decoded {
                    bytes: shape.symbols(bits.skip((64 + n) as int), count),
                    corrupt: false,
                },
                Parsed::Truncated => Decoded { bytes: Seq::empty(), corrupt: false },
                Parsed::TooDeep => Decoded { bytes: Seq::empty(), corrupt: true },
            }
        }
    }
}

/// A tree grown from data has a leaf for every byte of the data, and no
/// more than 256 leaves.
pub proof fn lemma_grown(root: Node, data: Seq<u8>)
    requires
        grown_from(root, data),
        data.len() <= u64::MAX,
    ensures
        root.shape().covers(data),
        root.shape().leaves() <= 256,
        root.shape().height() <= 255,
        forall|b: u8| root.shape().occurs(b) == if count_of(data, b) > 0 { 1nat } else { 0nat },
        forall|b: u8| root.weight_of(b) == count_of(data, b),
        root.freq == data.len(),
{
    let counts = histogram(data);
    let shape = root.shape();
    assert forall|b: u8| counts[b as int] == count_of(data, b) by {
        lemma_count_bound(data, b);
    }
    assert forall|b: u8| shape.occurs(b) == if count_of(data, b) > 0 { 1nat } else { 0nat } by {
        lemma_leaf_nodes(counts, 256, Measure::Occurs(b));
        assert(measure(root, Measure::Occurs(b)) == shape.occurs(b));
    }
    assert forall|b: u8| root.weight_of(b) == count_of(data, b) by {
        lemma_leaf_nodes(counts, 256, Measure::WeightOf(b));
        assert(measure(root, Measure::WeightOf(b)) == root.weight_of(b));
    }
    assert forall|i: int| 0 <= i < data.len() implies shape.occurs(#[trigger] data[i]) > 0 by {
        lemma_count_positive(data, i);
    }
    lemma_leaf_nodes(counts, 256, Measure::Leaves);
    assert(measure(root, Measure::Leaves) == shape.leaves());
    lemma_height(shape);
    lemma_leaf_nodes(counts, 256, Measure::Weight);
    lemma_sum_counts(counts, data, 256);
    assert(measure(root, Measure::Weight) == root.freq);
}

/// Decompressing a compressed form of `data` gives `data` back.
pub proof fn lemma_round_trip(out: Seq<u8>, data: Seq<u8>)
    requires
        is_encoding(out, data),
        data.len() <= u64::MAX,
    ensures
        decompressed(out) == (Decoded { bytes: data, corrupt: false }),
{
    vstd::arithmetic::power2::lemma2_to64();
    let head = be_bits(data.len(), 64);
    lemma_be_bits_len(data.len(), 64);
    lemma_value_of_bits(data.len(), 64);
    if data.len() == 0 {
        lemma_unpack_pack(head);
        assert(padded(head) =~= head);
        assert(unpack(out).subrange(0, 64) =~= head);
        assert(data =~= Seq::<u8>::empty());
    } else {
        let root = choose|root: Node| #[trigger]
            grown_from(root, data) && out == pack(stream(root.shape(), data));
        let shape = root.shape();
        let sent = stream(shape, data);
        let tail = zeros(padding(sent.len()));
        let bits = unpack(out);
        lemma_grown(root, data);
        lemma_unpack_pack(sent);
        assert(bits.subrange(0, 64) =~= head);
        assert(bits.skip(64) =~= shape.wire() + (shape.encoded(data) + tail));
        lemma_parse_wire(shape, shape.encoded(data) + tail, 255);
        assert(bits.skip((64 + shape.wire().len()) as int) =~= shape.encoded(data) + tail);
        lemma_symbols_encoded(shape, data, tail);
    }
}

/// What walking gives when `used` bits went before.
pub open spec fn after(walked: Option<(u8, nat)>, used: nat) -> Option<(u8, nat)> {
    match walked {
        Some((b, n)) => Some((b, n + used)),
        None => None,
    }
}

/// The code that a slot of a code table holds.
pub open spec fn slot_code(slot: Option<Vec<bool>>) -> Option<Seq<bool>> {
    match slot {
        Some(code) => Some(code@),
        None => None,
    }
}

/// The codes that a table holds, slot by slot.
pub open spec fn table_codes(table: Seq<Option<Vec<bool>>>) -> Seq<Option<Seq<bool>>> {
    Seq::new(table.len(), |i: int| slot_code(table[i]))
}

/// Whether the table holds the code of every byte that the tree has a leaf
/// for, and nothing else.
pub open spec fn holds_codes(table: ByteMap<Vec<bool>>, shape: Shape) -> bool {
    &&& table.wf()
    &&& forall|b: u8| slot_code(#[trigger] table@[b as int]) == shape.code_of(b)
}

/// What every code starts with: in a tree that is one leaf the single bit
/// `0`, so that its byte gets a code of one bit; in any other tree nothing.
pub open spec fn first_prefix(shape: Shape) -> Seq<bool> {
    match shape {
        Shape::Leaf(_) => seq![false],
        Shape::Fork(_, _) => Seq::empty(),
    }
}

/// What the table will hold for `byte` once the subtrees on the stack have
/// been gone through, the topmost (last) first: a later subtree overrides an
/// earlier one and what the table holds already.
pub open spec fn pending(
    stack: Seq<(Shape, Seq<bool>)>,
    table: Seq<Option<Seq<bool>>>,
    byte: u8,
) -> Option<Seq<bool>>
    decreases stack.len(),
{
    if stack.len() == 0 {
        table[byte as int]
    } else {
        match stack[0].0.path_to(byte) {
            Some(c) => Some(stack[0].1 + c),
            None => pending(stack.skip(1), table, byte),
        }
    }
}

/// The number of nodes in the subtrees on the stack.
pub open spec fn stacked_nodes(stack: Seq<(Shape, Seq<bool>)>) -> nat
    decreases stack.len(),
{
    if stack.len() == 0 {
        0
    } else {
        (stacked_nodes(stack.drop_last()) + 2 * stack.last().0.leaves() - 1) as nat
    }
}

/// The subtrees and prefixes on an explicit stack.
pub open spec fn stack_work(stack: Seq<(&Node, Vec<bool>)>) -> Seq<(Shape, Seq<bool>)> {
    Seq::new(stack.len(), |i: int| (stack[i].0.shape(), stack[i].1@))
}

/// Taking a leaf off the stack is entering its code into the table.
pub proof fn lemma_pending_leaf(
    rest: Seq<(Shape, Seq<bool>)>,
    x: u8,
    p: Seq<bool>,
    table: Seq<Option<Seq<bool>>>,
    byte: u8,
)
    requires
        table.len() == 256,
    ensures
        pending(rest.push((Shape::Leaf(x), p)), table, byte) == pending(
            rest,
            table.update(x as int, Some(p)),
            byte,
        ),
    decreases rest.len(),
{
    let stack = rest.push((Shape::Leaf(x), p));
    reveal_with_fuel(pending, 3);
    if rest.len() == 0 {
        assert(p + Seq::<bool>::empty() =~= p);
        assert(stack.skip(1) =~= rest);
    } else {
        lemma_pending_leaf(rest.skip(1), x, p, table, byte);
        assert(stack.skip(1) =~= rest.skip(1).push((Shape::Leaf(x), p)));
    }
}

/// Taking a fork off the stack and putting its right and then its left
/// subtree there changes nothing of what the table will hold.
pub proof fn lemma_pending_fork(
    rest: Seq<(Shape, Seq<bool>)>,
    l: Shape,
    r: Shape,
    p: Seq<bool>,
    table: Seq<Option<Seq<bool>>>,
    byte: u8,
)
    ensures
        pending(rest.push((Shape::Fork(Box::new(l), Box::new(r)), p)), table, byte) == pending(
            rest.push((r, p.push(true))).push((l, p.push(false))),
            table,
            byte,
        ),
    decreases rest.len(),
{
    let fork = Shape::Fork(Box::new(l), Box::new(r));
    let before = rest.push((fork, p));
    let after = rest.push((r, p.push(true))).push((l, p.push(false)));
    reveal_with_fuel(pending, 4);
    if rest.len() == 0 {
        assert(before.skip(1) =~= rest);
        assert(after.skip(1) =~= seq![(l, p.push(false))]);
        assert(after.skip(1).skip(1) =~= rest);
        match r.path_to(byte) {
            Some(c) => {
                assert(p + (seq![true] + c) =~= p.push(true) + c);
            },
            None => {
                match l.path_to(byte) {
                    Some(c) => {
                        assert(p + (seq![false] + c) =~= p.push(false) + c);
                    },
                    None => {},
                }
            },
        }
    } else {
        lemma_pending_fork(rest.skip(1), l, r, p, table, byte);
        assert(before.skip(1) =~= rest.skip(1).push((fork, p)));
        assert(after.skip(1) =~= rest.skip(1).push((r, p.push(true))).push((l, p.push(false))));
    }
}

/// A copy of `code` with `bit` appended.
fn extend_code(code: &Vec<bool>, bit: bool) -> (longer: Vec<bool>)
    ensures
        longer@ == code@.push(bit),
{
    let mut longer: Vec<bool> = Vec::new();
    let mut i: usize = 0;
    while i < code.len()
        invariant
            i <= code.len(),
            longer@ == code@.take(i as int),
        decreases code.len() - i,
    {
        longer.push(code[i]);
        proof {
            assert(code@.take(i as int).push(code@[i as int]) =~= code@.take(i + 1));
        }
        i += 1;
    }
    proof {
        assert(code@.take(i as int) =~= code@);
    }
    longer.push(bit);
    longer
}

/// The code that every leaf of a tree that is one leaf gets: the single bit
/// `0`; for any other tree the empty start of all paths.
fn first_code(root: &Node) -> (code: Vec<bool>)
    requires
        root.is_tree(),
    ensures
        code@ == first_prefix(root.shape()),
{
    let mut code: Vec<bool> = Vec::new();
    if root.get_left().is_none() && root.get_right().is_none() {
        code.push(false);
    }
    proof {
        assert(code@ =~= first_prefix(root.shape()));
    }
    code
}

/// A copy of `code`.
fn copy_code(code: &Vec<bool>) -> (copy: Vec<bool>)
    ensures
        copy@ == code@,
{
    let mut copy: Vec<bool> = Vec::with_capacity(code.len());
    let mut i: usize = 0;
    while i < code.len()
        invariant
            i <= code.len(),
            copy@ == code@.take(i as int),
        decreases code.len() - i,
    {
        copy.push(code[i]);
        proof {
            assert(code@.take(i as int).push(code@[i as int]) =~= code@.take(i + 1));
        }
        i += 1;
    }
    proof {
        assert(code@.take(i as int) =~= code@);
    }
    copy
}

/// Counting in one go and counting in chunks give the same table: whatever
/// the chunks and the order of merging, each count ends as what it was plus
/// the occurrences of its byte.
pub proof fn lemma_counting_paths_agree(
    start: CountMap,
    single: CountMap,
    chunked: CountMap,
    data: Seq<u8>,
)
    requires
        forall|b: u8| single@[b as int] == start@[b as int] + count_of(data, b),
        forall|b: u8| chunked@[b as int] == start@[b as int] + count_of(data, b),
    ensures
        single@ == chunked@,
{
    single.lemma_len();
    chunked.lemma_len();
    assert forall|i: int| 0 <= i < 256 implies single@[i] == chunked@[i] by {
        assert(single@[(i as u8) as int] == chunked@[(i as u8) as int]);
    }
    assert(single@ =~= chunked@);
}

/// The table of a piece of data is one table: whatever the pages, the
/// chunks and the number of workers that counted it, two tables that hold
/// its counts are the same.
pub proof fn lemma_table_is_determined(a: CountMap, b: CountMap, data: Seq<u8>)
    requires
        a.counts(data),
        b.counts(data),
    ensures
        a@ == b@,
{
    a.lemma_len();
    b.lemma_len();
    assert forall|i: int| 0 <= i < 256 implies a@[i] == b@[i] by {
        let byte = i as u8;
        assert(a@[byte as int] == count_of(data, byte));
        assert(b@[byte as int] == count_of(data, byte));
    }
    assert(a@ =~= b@);
}

impl Huffman {
    /// Counts every byte of `data`, page by page: short pages in one go,
    /// long ones in chunks. A page holds `BYTES_MULTIPLIER` bytes for each
    /// worker, as far as the machine's word holds that many. The table does
    /// not depend on `worker_count`.
    pub fn create_freq_table(data: &[u8], worker_count: usize) -> (result: CountMap)
        requires
            worker_count > 0,
        ensures
            result.counts(data@),
    {
        let bytes_each = match worker_count.checked_mul(BYTES_MULTIPLIER) {
            Some(bytes) => bytes,
            None => usize::MAX,
        };
        let mut result = CountMap::new();
        let mut start: usize = 0;
        while start < data.len()
            invariant
                worker_count > 0,
                bytes_each > 0,
                result@.len() == 256,
                start <= data.len(),
                result.counts(data@.take(start as int)),
            decreases data.len() - start,
        {
            let end = if data.len() - start <= bytes_each { data.len() } else { start + bytes_each };
            let page = slice_subrange(data, start, end);
            let ghost before = result@;
            proof {
                assert(data@.take(start as int) + page@ =~= data@.take(end as int));
                assert forall|b: u8| before[b as int] + count_of(page@, b) <= u64::MAX by {
                    lemma_count_concat(data@.take(start as int), page@, b);
                    lemma_count_bound(data@.take(end as int), b);
                }
            }
            if page.len() < SINGLE_THREAD_LIMIT {
                count_single_thread(&mut result, page);
            } else {
                count_chunked(&mut result, page, worker_count);
            }
            proof {
                result.lemma_len();
                assert forall|b: u8| result@[b as int] == count_of(data@.take(end as int), b) by {
                    lemma_count_concat(data@.take(start as int), page@, b);
                }
            }
            start = end;
        }
        proof {
            assert(data@.take(start as int) =~= data@);
        }
        result
    }

    /// Creates a heap of leaf nodes from a frequency table: one for each
    /// byte that occurs.
    pub fn create_node_heap(char_count: &CountMap) -> (heap: Heap<Node>)
        ensures
            heap.wf(),
            heap@.to_multiset() == leaf_nodes(char_count@, 256).to_multiset(),
    {
        let mut node_vec: Vec<Node> = Vec::with_capacity(256);
        let mut byte: usize = 0;
        proof {
            char_count.lemma_len();
        }
        while byte < 256
            invariant
                byte <= 256,
                char_count@.len() == 256,
                node_vec@ == leaf_nodes(char_count@, byte as nat),
            decreases 256 - byte,
        {
            let count = char_count.get(byte as u8);
            if count > 0 {
                node_vec.push(Node::new(byte as u8, count));
            }
            byte += 1;
        }
        proof {
            lemma_node_order();
        }
        Heap::new(node_vec)
    }

    /// Builds a huffman tree from a heap of nodes: joins the two rarest
    /// trees until one is left.
    ///
    /// The tree holds the leaves of the trees that were in the heap, which
    /// is left empty.
    pub fn build_tree(heap: &mut Heap<Node>) -> (root: Node)
        requires
            old(heap).wf(),
            old(heap)@.len() >= 1,
            all_trees(old(heap)@),
            forest_measure(old(heap)@, Measure::Weight) <= u64::MAX,
        ensures
            root.is_tree(),
            merges_to(old(heap)@.to_multiset(), root),
            forall|k: Measure| measure(root, k) == forest_measure(old(heap)@, k),
            final(heap).wf(),
            final(heap)@.len() == 0,
    {
        let size = heap.size();
        let ghost mut steps: Seq<Multiset<Node>> = seq![heap@.to_multiset()];
        let mut step: usize = 1;
        while step < size
            invariant
                heap.wf(),
                1 <= step <= size,
                heap@.len() == size - step + 1,
                all_trees(heap@),
                forall|k: Measure| forest_measure(heap@, k) == forest_measure(old(heap)@, k),
                forest_measure(old(heap)@, Measure::Weight) <= u64::MAX,
                steps.len() == step,
                size == old(heap)@.len(),
                steps[0] == old(heap)@.to_multiset(),
                steps.last() == heap@.to_multiset(),
                forall|i: int|
                    0 <= i < steps.len() - 1 ==> merge_step(#[trigger] steps[i], steps[i + 1]),
            decreases size - step,
        {
            let ghost before = heap@;
            let left = heap.remove().unwrap();
            let ghost between = heap@;
            let right = heap.remove().unwrap();
            let ghost after = heap@;
            proof {
                lemma_forest_insert(before, between, left, Measure::Weight);
                lemma_forest_insert(between, after, right, Measure::Weight);
            }
            let freq = left.get_freq() + right.get_freq();

            let node = Node::new_huffman(left, right, freq);
            heap.insert(node);
            proof {
                lemma_joined(before, between, after, heap@, left, right);
                assert forall|k: Measure| forest_measure(heap@, k) == forest_measure(
                    old(heap)@,
                    k,
                ) by {
                    assert(forest_measure(heap@, k) == forest_measure(before, k));
                }
                let longer = steps.push(heap@.to_multiset());
                assert forall|i: int| 0 <= i < longer.len() - 1 implies merge_step(
                    #[trigger] longer[i],
                    longer[i + 1],
                ) by {
                    if i < steps.len() - 1 {
                        assert(merge_step(steps[i], steps[i + 1]));
                    }
                }
                steps = longer;
            }
            step += 1;
        }
        let ghost last = heap@;
        let root = heap.remove().unwrap();
        proof {
            assert forall|k: Measure| measure(root, k) == forest_measure(old(heap)@, k) by {
                lemma_forest_insert(last, heap@, root, k);
                assert(forest_measure(heap@, k) == 0);
            }
            lemma_forest_insert(last, heap@, root, Measure::Weight);
            assert(heap@ =~= Seq::<Node>::empty());
            assert(heap@.to_multiset() =~= Multiset::<Node>::empty()) by {
                broadcast use vstd::multiset::group_multiset_axioms;

                vstd::seq_lib::to_multiset_len(heap@);
            }
            vstd::seq_lib::to_multiset_len(old(heap)@);
            assert(is_merge_run(steps, old(heap)@.to_multiset(), root));
        }
        root
    }

    /// Generate huffman codes recursively from a huffman tree
    pub fn generate_codes(root: &Node) -> (map: ByteMap<Vec<bool>>)
        requires
            root.is_tree(),
        ensures
            holds_codes(map, root.shape()),
    {
        let mut map = ByteMap::new();
        let code = first_code(root);
        Self::gen_codes_helper(&mut map, Some(root), &code);
        proof {
            assert forall|b: u8| slot_code(#[trigger] map@[b as int]) == root.shape().code_of(
                b,
            ) by {
                match root.shape().path_to(b) {
                    Some(c) => {
                        assert(Seq::<bool>::empty() + c =~= c);
                        assert(seq![false] + Seq::<bool>::empty() =~= seq![false]);
                    },
                    None => {},
                }
            }
        }
        map
    }

    // Helper for generating huffman codes from a huffman tree
    fn gen_codes_helper(
        table: &mut ByteMap<Vec<bool>>,
        curr_node: Option<&Node>,
        curr_code: &Vec<bool>,
    )
        requires
            old(table).wf(),
            match curr_node {
                Some(node) => node.is_tree(),
                None => true,
            },
        ensures
            final(table).wf(),
            match curr_node {
                Some(node) => forall|b: u8|
                    slot_code(#[trigger] final(table)@[b as int]) == (match node.shape().path_to(b) {
                        Some(c) => Some(curr_code@ + c),
                        None => slot_code(old(table)@[b as int]),
                    }),
                None => final(table)@ == old(table)@,
            },
        decreases
                (match curr_node {
                    Some(node) => node.shape().height() + 1,
                    None => 0,
                }),
    {
        if let Some(node) = curr_node {
            let left = node.get_left();
            let right = node.get_right();
            if left.is_none() && right.is_none() {
                table.insert(copy_code(curr_code), node.get_byte().unwrap());
                proof {
                    assert(curr_code@ + Seq::<bool>::empty() =~= curr_code@);
                }
            } else {
                let zero = extend_code(curr_code, false);
                let one = extend_code(curr_code, true);
                let ghost before = table@;
                Self::gen_codes_helper(table, left, &zero);
                let ghost between = table@;
                Self::gen_codes_helper(table, right, &one);
                proof {
                    let l = left->0.shape();
                    let r = right->0.shape();
                    assert forall|b: u8|
                        slot_code(#[trigger] table@[b as int]) == (match node.shape().path_to(b) {
                            Some(c) => Some(curr_code@ + c),
                            None => slot_code(before[b as int]),
                        }) by {
                        assert(slot_code(between[b as int]) == (match l.path_to(b) {
                            Some(c) => Some(zero@ + c),
                            None => slot_code(before[b as int]),
                        }));
                        match r.path_to(b) {
                            Some(c) => {
                                assert(curr_code@ + (seq![true] + c) =~= one@ + c);
                            },
                            None => {
                                match l.path_to(b) {
                                    Some(c) => {
                                        assert(curr_code@ + (seq![false] + c) =~= zero@ + c);
                                    },
                                    None => {},
                                }
                            },
                        }
                    }
                }
            }
        }
    }

    /// Does the same thing as generate_codes but uses a stack instead of
    /// recursion to prevent stack overflow
    pub fn gen_codes__safe(root: &Node) -> (table: ByteMap<Vec<bool>>)
        requires
            root.is_tree(),
        ensures
            holds_codes(table, root.shape()),
    {
        let mut stack: Vec<(&Node, Vec<bool>)> = Vec::with_capacity(256);
        let mut table: ByteMap<Vec<bool>> = ByteMap::new();
        let start = first_code(root);
        let ghost prefix = start@;
        stack.push((root, start));
        proof {
            reveal_with_fuel(pending, 3);
            assert(table_codes(table@).len() == 256);
            assert(stack_work(stack@) =~= seq![(root.shape(), prefix)]);
            assert(stack_work(stack@).skip(1) =~= Seq::<(Shape, Seq<bool>)>::empty());
            assert(stack_work(stack@).drop_last() =~= Seq::<(Shape, Seq<bool>)>::empty());
        }
        while stack.len() > 0
            invariant
                table.wf(),
                forall|i: int| 0 <= i < stack@.len() ==> (#[trigger] stack@[i]).0.is_tree(),
                forall|b: u8|
                    pending(stack_work(stack@), table_codes(table@), b) == (match root.shape().path_to(
                        b,
                    ) {
                        Some(c) => Some(prefix + c),
                        None => None,
                    }),
            decreases stacked_nodes(stack_work(stack@)),
        {
            let ghost work = stack_work(stack@);
            let ghost codes = table_codes(table@);
            assert(stack@[stack@.len() - 1].0.is_tree());
            let (node, code) = stack.pop().unwrap();
            assert(node.is_tree());
            let ghost rest = stack_work(stack@);
            proof {
                reveal_with_fuel(stacked_nodes, 3);
                assert(work.drop_last() =~= rest);
                assert(work =~= rest.push((node.shape(), code@)));
                lemma_height(node.shape());
            }
            let left = node.get_left();
            let right = node.get_right();
            if left.is_none() && right.is_none() {
                let byte = node.get_byte().unwrap();
                table.insert(code, byte);
                proof {
                    assert(table_codes(table@) =~= codes.update(byte as int, Some(code@)));
                    assert(node.shape() == Shape::Leaf(byte));
                    assert(stack_work(stack@) == rest);
                    assert forall|b: u8|
                        #[trigger] pending(rest, table_codes(table@), b) == pending(work, codes, b) by {
                        lemma_pending_leaf(rest, byte, code@, codes, b);
                    }
                }
            } else {
                let zero = extend_code(&code, false);
                let one = extend_code(&code, true);
                let left_node = left.unwrap();
                let right_node = right.unwrap();
                stack.push((right_node, one));
                stack.push((left_node, zero));
                proof {
                    let l = left_node.shape();
                    let r = right_node.shape();
                    lemma_height(l);
                    lemma_height(r);
                    let after = rest.push((r, code@.push(true))).push((l, code@.push(false)));
                    assert(stack_work(stack@) =~= after);
                    assert(after.drop_last() =~= rest.push((r, code@.push(true))));
                    assert(after.drop_last().drop_last() =~= rest);
                    assert(node.shape() == Shape::Fork(Box::new(l), Box::new(r)));
                    assert(table_codes(table@) == codes);
                    assert forall|b: u8| #[trigger] pending(after, codes, b) == pending(work, codes, b) by {
                        lemma_pending_fork(rest, l, r, code@, codes, b);
                    }
                }
            }
        }
        proof {
            assert forall|b: u8| slot_code(#[trigger] table@[b as int]) == root.shape().code_of(
                b,
            ) by {
                assert(pending(stack_work(stack@), table_codes(table@), b) == table_codes(
                    table@,
                )[b as int]);
                match root.shape().path_to(b) {
                    Some(c) => {
                        assert(Seq::<bool>::empty() + c =~= c);
                        assert(seq![false] + Seq::<bool>::empty() =~= seq![false]);
                    },
                    None => {},
                }
            }
        }
        table
    }
    // Writes the wire form of a tree
    fn write_tree(node: &Node, writer: &mut BitWriter)
        requires
            node.is_tree(),
            old(writer).wf(),
        ensures
            final(writer).wf(),
            final(writer).bits() == old(writer).bits() + node.shape().wire(),
        decreases node.shape().height(),
    {
        let left = node.get_left();
        let right = node.get_right();
        if left.is_none() && right.is_none() {
            writer.write_bit(true);
            writer.write_u8(node.get_byte().unwrap());
            proof {
                assert(writer.bits() =~= old(writer).bits() + node.shape().wire());
            }
        } else {
            writer.write_bit(false);
            Self::write_tree(left.unwrap(), writer);
            Self::write_tree(right.unwrap(), writer);
            proof {
                assert(writer.bits() =~= old(writer).bits() + node.shape().wire());
            }
        }
    }

    // Reads a tree of height `depth` at most
    fn read_tree(reader: &mut BitReader, depth: u32) -> (r: Result<Node, Error>)
        requires
            old(reader).wf(),
        ensures
            final(reader).wf(),
            final(reader).stream() == old(reader).stream(),
            match parse(old(reader).remaining(), depth as nat) {
                Parsed::Tree(shape, n) => match r {
                    Ok(node) => {
                        &&& node.is_tree()
                        &&& node.freq == 0
                        &&& node.shape() == shape
                        &&& final(reader).position() == old(reader).position() + n
                    },
                    Err(_) => false,
                },
                Parsed::Truncated => r == Err::<Node, Error>(Error::EndOfStream),
                Parsed::TooDeep => r == Err::<Node, Error>(Error::CorruptStream),
            },
        decreases depth,
    {
        let ghost bits = reader.remaining();
        let ghost start = reader.position() as int;
        proof {
            reader.lemma_position();
        }
        let flag = match reader.read_bit() {
            Ok(flag) => flag,
            Err(e) => {
                return Err(e);
            },
        };
        assert(bits[0] == (flag == 1));
        if flag == 1 {
            match reader.read_byte() {
                Ok(byte) => {
                    proof {
                        assert(bits.subrange(1, 9) =~= reader.stream().subrange(
                            start + 1,
                            start + 9,
                        ));
                    }
                    Ok(Node::new(byte, 0))
                },
                Err(e) => Err(e),
            }
        } else {
            if depth == 0 {
                return Err(Error::CorruptStream);
            }
            proof {
                assert(bits.skip(1) =~= reader.remaining());
            }
            let left = match Self::read_tree(reader, depth - 1) {
                Ok(node) => node,
                Err(e) => {
                    return Err(e);
                },
            };
            proof {
                let n = reader.position() - start - 1;
                reader.lemma_position();
                assert(bits.skip(1 + n) =~= reader.remaining());
            }
            let right = match Self::read_tree(reader, depth - 1) {
                Ok(node) => node,
                Err(e) => {
                    return Err(e);
                },
            };
            Ok(Node::new_huffman(left, right, 0))
        }
    }

    // Decodes one symbol: follows bits from the root down to a leaf
    fn decode_symbol(root: &Node, source: &mut BitReader) -> (r: Option<u8>)
        requires
            root.is_tree(),
            old(source).wf(),
        ensures
            final(source).wf(),
            final(source).stream() == old(source).stream(),
            match root.shape().symbol(old(source).remaining()) {
                Some((byte, n)) => {
                    &&& r == Some(byte)
                    &&& final(source).position() == old(source).position() + n
                },
                None => r is None,
            },
    {
        let ghost bits = source.remaining();
        let ghost start = source.position() as int;
        proof {
            source.lemma_position();
        }
        if root.get_left().is_none() && root.get_right().is_none() {
            return match source.read_bit() {
                Ok(_) => root.get_byte(),
                Err(_) => None,
            };
        }
        let mut node: &Node = root;
        let ghost mut used: nat = 0;
        proof {
            assert(bits.skip(0) =~= bits);
        }
        loop
            invariant
                node.is_tree(),
                root.shape() is Fork,
                source.wf(),
                source.stream() == old(source).stream(),
                bits == old(source).remaining(),
                start == old(source).position(),
                source.position() == start + used,
                root.shape().walk(bits) == after(node.shape().walk(source.remaining()), used),
            decreases node.shape().height(),
        {
            let left = node.get_left();
            let right = node.get_right();
            if left.is_none() && right.is_none() {
                return node.get_byte();
            }
            let ghost here = source.remaining();
            proof {
                source.lemma_position();
            }
            let bit = match source.read_bit() {
                Ok(bit) => bit,
                Err(_) => {
                    assert(here.len() == 0);
                    return None;
                },
            };
            proof {
                assert(here[0] == (bit == 1));
                assert(here.skip(1) =~= source.remaining());
                used = used + 1;
            }
            node = if bit == 1 { right.unwrap() } else { left.unwrap() };
        }
    }

    /// Compresses `input`: the number of bytes, then, unless there are
    /// none, the code tree grown from their frequencies and the code of each
    /// byte, the last byte of the output completed with zero bits.
    pub fn encode(input: &[u8]) -> (output: Vec<u8>)
        ensures
            is_encoding(output@, input@),
    {
        let table = count(input);
        Self::encode_counted(input, &table)
    }

    /// Compresses `input` as `encode` does, with the frequency table that
    /// the caller has counted, in one go or on several workers.
    pub fn encode_counted(input: &[u8], table: &CountMap) -> (output: Vec<u8>)
        requires
            table.counts(input@),
        ensures
            is_encoding(output@, input@),
    {
        let mut writer = BitWriter::new(Vec::new());
        writer.write_u64(input.len() as u64);
        proof {
            assert(writer.bits() =~= be_bits(input@.len(), 64));
        }
        if input.len() == 0 {
            return writer.into_inner();
        }
        let mut heap = Self::create_node_heap(table);
        proof {
            table.lemma_len();
            assert(table@ =~= histogram(input@)) by {
                assert forall|b: int| 0 <= b < 256 implies table@[b] == histogram(input@)[b] by {
                    lemma_count_bound(input@, b as u8);
                    assert(table@[(b as u8) as int] == count_of(input@, b as u8));
                }
            }
            let leaves = leaf_nodes(table@, 256);
            lemma_forest_perm(leaves, heap@, Measure::Weight);
            lemma_leaf_nodes(table@, 256, Measure::Weight);
            lemma_sum_counts(table@, input@, 256);
            lemma_forest_perm(leaves, heap@, Measure::Occurs(input@[0]));
            lemma_leaf_nodes(table@, 256, Measure::Occurs(input@[0]));
            lemma_count_positive(input@, 0);
            assert(heap@.len() > 0) by {
                if heap@.len() == 0 {
                    assert(forest_measure(heap@, Measure::Occurs(input@[0])) == 0);
                }
            }
        }
        let ghost forest = heap@;
        let root = Self::build_tree(&mut heap);
        proof {
            assert forall|k: Measure|
                measure(root, k) == forest_measure(leaf_nodes(histogram(input@), 256), k) by {
                lemma_forest_perm(leaf_nodes(table@, 256), forest, k);
            }
            assert(grown_from(root, input@));
            lemma_grown(root, input@);
        }
        let codes = Self::gen_codes__safe(&root);
        Self::write_tree(&root, &mut writer);
        let ghost shape = root.shape();
        let ghost head = writer.bits();
        proof {
            assert(head + shape.encoded(input@.take(0)) =~= head);
        }
        let mut i: usize = 0;
        while i < input.len()
            invariant
                i <= input.len(),
                writer.wf(),
                shape == root.shape(),
                holds_codes(codes, shape),
                shape.covers(input@),
                writer.bits() == head + shape.encoded(input@.take(i as int)),
            decreases input.len() - i,
        {
            let byte = input[i];
            proof {
                assert(shape.occurs(input@[i as int]) > 0);
                lemma_path_exists(shape, byte);
                assert(slot_code(codes@[byte as int]) == shape.code_of(byte));
                assert(input@.take(i + 1).drop_last() =~= input@.take(i as int));
            }
            if let Some(code) = codes.get(byte) {
                let ghost before = writer.bits();
                let mut j: usize = 0;
                while j < code.len()
                    invariant
                        j <= code.len(),
                        writer.wf(),
                        writer.bits() == before + code@.take(j as int),
                    decreases code.len() - j,
                {
                    writer.write_bit(code[j]);
                    proof {
                        assert(code@.take(j as int).push(code@[j as int]) =~= code@.take(j + 1));
                    }
                    j += 1;
                }
                proof {
                    assert(code@.take(j as int) =~= code@);
                    assert(writer.bits() =~= head + shape.encoded(input@.take(i + 1)));
                }
            }
            i += 1;
        }
        proof {
            assert(input@.take(i as int) =~= input@);
            assert(writer.bits() =~= stream(shape, input@));
        }
        writer.into_inner()
    }

    /// Decompresses `input` and appends the bytes to `output`.
    ///
    /// Input that ends early, in the header or in a code, ends the decoding
    /// with what has been produced. A tree higher than any code tree ends it
    /// with `Error::CorruptStream`.
    pub fn decode(input: &[u8], output: &mut Vec<u8>) -> (r: Result<(), Error>)
        ensures
            final(output)@ == old(output)@ + decompressed(input@).bytes,
            r == if decompressed(input@).corrupt {
                Err::<(), Error>(Error::CorruptStream)
            } else {
                Ok::<(), Error>(())
            },
    {
        let ghost bits = unpack(input@);
        let mut source = BitReader::new(input);
        proof {
            source.lemma_position();
            assert(source.remaining() =~= bits);
            assert(old(output)@ + Seq::<u8>::empty() =~= old(output)@);
        }
        let count = match source.read_u64() {
            Ok(count) => count,
            Err(_) => {
                return Ok(());
            },
        };
        if count == 0 {
            return Ok(());
        }
        proof {
            assert(bits.skip(64) =~= source.remaining());
        }
        let root = match Self::read_tree(&mut source, MAX_HEIGHT) {
            Ok(root) => root,
            Err(Error::EndOfStream) => {
                return Ok(());
            },
            Err(e) => {
                return Err(e);
            },
        };
        let ghost shape = root.shape();
        let ghost payload = source.remaining();
        let ghost mut out: Seq<u8> = Seq::empty();
        proof {
            source.lemma_position();
            assert(payload =~= bits.skip(source.position() as int));
            assert(decompressed(input@) == (Decoded {
                bytes: shape.symbols(payload, count as nat),
                corrupt: false,
            }));
            assert(out + shape.symbols(payload, count as nat) =~= shape.symbols(
                payload,
                count as nat,
            ));
        }
        let mut produced: u64 = 0;
        while produced < count
            invariant
                produced <= count,
                root.is_tree(),
                shape == root.shape(),
                source.wf(),
                decompressed(input@) == (Decoded {
                    bytes: shape.symbols(payload, count as nat),
                    corrupt: false,
                }),
                output@ == old(output)@ + out,
                out + shape.symbols(source.remaining(), (count - produced) as nat) == shape.symbols(
                    payload,
                    count as nat,
                ),
            decreases count - produced,
        {
            let ghost here = source.remaining();
            proof {
                source.lemma_position();
            }
            match Self::decode_symbol(&root, &mut source) {
                Some(byte) => {
                    proof {
                        let found = shape.symbol(here)->0;
                        let n = found.1;
                        source.lemma_position();
                        assert(here.skip(n as int) =~= source.remaining());
                        assert(out.push(byte) + shape.symbols(
                            source.remaining(),
                            (count - produced - 1) as nat,
                        ) =~= out + shape.symbols(here, (count - produced) as nat));
                        out = out.push(byte);
                    }
                    output.push(byte);
                    produced += 1;
                },
                None => {
                    proof {
                        assert(out + shape.symbols(here, (count - produced) as nat) =~= out);
                    }
                    return Ok(());
                },
            }
        }
        proof {
            assert(out + shape.symbols(source.remaining(), 0) =~= out);
        }
        Ok(())
    }
}

} // verus!
