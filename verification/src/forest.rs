//! Collections of code trees on their way to becoming one: what is summed
//! over them, and why merging and reordering keep those sums.

use vstd::prelude::*;
use vstd::multiset::Multiset;
use crate::map::count_of;
use crate::node::Node;

verus! {

/// A quantity that adds up when trees are joined.
pub enum Measure {
    /// The frequency at the root.
    Weight,
    /// The number of leaves.
    Leaves,
    /// The number of leaves that carry the given byte.
    Occurs(u8),
    /// The summed frequency of the leaves that carry the given byte.
    WeightOf(u8),
}

/// The measure of one tree.
pub open spec fn measure(node: Node, k: Measure) -> nat {
    match k {
        Measure::Weight => node.freq as nat,
        Measure::Leaves => node.shape().leaves(),
        Measure::Occurs(b) => node.shape().occurs(b),
        Measure::WeightOf(b) => node.weight_of(b),
    }
}

/// The measure of a sequence of trees: the sum over its members.
pub open spec fn forest_measure(s: Seq<Node>, k: Measure) -> nat
    decreases s.len(),
{
    if s.len() == 0 {
        0
    } else {
        forest_measure(s.drop_last(), k) + measure(s.last(), k)
    }
}

/// Every member is a well-formed tree.
pub open spec fn all_trees(s: Seq<Node>) -> bool {
    forall|i: int| 0 <= i < s.len() ==> (#[trigger] s[i]).is_tree()
}

/// The node that joins two trees.
pub open spec fn join(left: Node, right: Node) -> Node {
    Node {
        left: Some(Box::new(left)),
        right: Some(Box::new(right)),
        byte: None,
        freq: (left.freq + right.freq) as u64,
    }
}

/// The leaf of a byte with its count.
pub open spec fn leaf(byte: u8, freq: u64) -> Node {
    Node { left: None, right: None, byte: Some(byte), freq }
}

/// The leaves of a frequency table: one for each byte below `upto` that
/// occurs at all, in the order of the bytes.
pub open spec fn leaf_nodes(counts: Seq<u64>, upto: nat) -> Seq<Node>
    decreases upto,
{
    if upto == 0 {
        Seq::empty()
    } else {
        let rest = leaf_nodes(counts, (upto - 1) as nat);
        if counts[upto - 1] > 0 {
            rest.push(leaf((upto - 1) as u8, counts[upto - 1]))
        } else {
            rest
        }
    }
}

/// The sum of the counts of the bytes below `upto`.
pub open spec fn sum_counts(counts: Seq<u64>, upto: nat) -> nat
    decreases upto,
{
    if upto == 0 {
        0
    } else {
        sum_counts(counts, (upto - 1) as nat) + counts[upto - 1] as nat
    }
}

/// `x` is in the forest, and no tree there is rarer.
pub open spec fn rarest_in(x: Node, forest: Multiset<Node>) -> bool {
    &&& forest.contains(x)
    &&& forall|y: Node| forest.contains(y) ==> x.freq <= y.freq
}

/// One step of the construction: two rarest trees leave the forest and
/// their join enters it.
pub open spec fn merge_step(before: Multiset<Node>, after: Multiset<Node>) -> bool {
    exists|l: Node, r: Node|
        {
            &&& rarest_in(l, before)
            &&& rarest_in(r, before.remove(l))
            &&& l.freq + r.freq <= u64::MAX
            &&& after == #[trigger] before.remove(l).remove(r).insert(join(l, r))
        }
}

/// `steps` is a construction that starts from `forest` and ends with `root`
/// alone: each forest comes from the one before by one step, so that a
/// forest of `k` trees takes `k - 1` steps.
pub open spec fn is_merge_run(steps: Seq<Multiset<Node>>, forest: Multiset<Node>, root: Node) -> bool {
    &&& steps.len() == forest.len()
    &&& steps.len() >= 1
    &&& steps[0] == forest
    &&& steps.last() == Multiset::<Node>::empty().insert(root)
    &&& forall|i: int| 0 <= i < steps.len() - 1 ==> merge_step(#[trigger] steps[i], steps[i + 1])
}

/// `root` is what is left of `forest` after joining two rarest trees again
/// and again. Where several trees are equally rare, any of them may have
/// been taken.
pub open spec fn merges_to(forest: Multiset<Node>, root: Node) -> bool {
    exists|steps: Seq<Multiset<Node>>| #[trigger] is_merge_run(steps, forest, root)
}

/// Joining two trees adds their measures, as long as the frequencies fit.
pub proof fn lemma_join_measure(left: Node, right: Node, k: Measure)
    requires
        left.freq + right.freq <= u64::MAX,
    ensures
        measure(join(left, right), k) == measure(left, k) + measure(right, k),
        left.is_tree() && right.is_tree() ==> join(left, right).is_tree(),
{
}

/// Taking a member out takes its measure out.
pub proof fn lemma_forest_remove(s: Seq<Node>, j: int, k: Measure)
    requires
        0 <= j < s.len(),
    ensures
        forest_measure(s, k) == forest_measure(s.remove(j), k) + measure(s[j], k),
    decreases s.len(),
{
    if j == s.len() - 1 {
        assert(s.remove(j) =~= s.drop_last());
    } else {
        lemma_forest_remove(s.drop_last(), j, k);
        assert(s.remove(j).drop_last() =~= s.drop_last().remove(j));
    }
}

/// The measure of a forest does not depend on the order of its members.
pub proof fn lemma_forest_perm(a: Seq<Node>, b: Seq<Node>, k: Measure)
    requires
        a.to_multiset() == b.to_multiset(),
    ensures
        forest_measure(a, k) == forest_measure(b, k),
        a.len() == b.len(),
        all_trees(a) ==> all_trees(b),
    decreases a.len(),
{
    vstd::seq_lib::to_multiset_len(a);
    vstd::seq_lib::to_multiset_len(b);
    if all_trees(a) {
        assert forall|i: int| 0 <= i < b.len() implies (#[trigger] b[i]).is_tree() by {
            vstd::seq_lib::to_multiset_contains(a, b[i]);
            vstd::seq_lib::to_multiset_contains(b, b[i]);
            assert(b.contains(b[i]));
            let j = choose|j: int| 0 <= j < a.len() && a[j] == b[i];
            assert(a[j].is_tree());
        }
    }
    if a.len() > 0 {
        let x = a.last();
        vstd::seq_lib::to_multiset_contains(a, x);
        vstd::seq_lib::to_multiset_contains(b, x);
        assert(a.contains(x));
        let j = choose|j: int| 0 <= j < b.len() && b[j] == x;
        vstd::seq_lib::to_multiset_remove(a, a.len() - 1);
        vstd::seq_lib::to_multiset_remove(b, j);
        assert(a.remove(a.len() - 1) =~= a.drop_last());
        lemma_forest_perm(a.drop_last(), b.remove(j), k);
        lemma_forest_remove(b, j, k);
    }
}

/// A forest that holds the members of another and one tree more measures
/// the sum of both; and all of its members are trees exactly if those are.
pub proof fn lemma_forest_insert(a: Seq<Node>, b: Seq<Node>, x: Node, k: Measure)
    requires
        a.to_multiset() == b.to_multiset().insert(x),
    ensures
        forest_measure(a, k) == forest_measure(b, k) + measure(x, k),
        all_trees(a) <==> all_trees(b) && x.is_tree(),
        a.len() == b.len() + 1,
{
    broadcast use vstd::multiset::group_multiset_axioms;

    let c = b.push(x);
    vstd::seq_lib::to_multiset_build(b, x);
    lemma_forest_perm(a, c, k);
    assert(c.drop_last() =~= b);
    vstd::seq_lib::to_multiset_len(a);
    vstd::seq_lib::to_multiset_len(c);
    if all_trees(a) {
        assert forall|i: int| 0 <= i < c.len() implies (#[trigger] c[i]).is_tree() by {
            vstd::seq_lib::to_multiset_contains(c, c[i]);
            vstd::seq_lib::to_multiset_contains(a, c[i]);
            assert(c.contains(c[i]));
            let j = choose|j: int| 0 <= j < a.len() && a[j] == c[i];
            assert(a[j].is_tree());
        }
        assert(c[b.len() as int].is_tree());
        assert forall|i: int| 0 <= i < b.len() implies (#[trigger] b[i]).is_tree() by {
            assert(c[i].is_tree());
        }
    }
    if all_trees(b) && x.is_tree() {
        assert forall|i: int| 0 <= i < a.len() implies (#[trigger] a[i]).is_tree() by {
            vstd::seq_lib::to_multiset_contains(c, a[i]);
            vstd::seq_lib::to_multiset_contains(a, a[i]);
            assert(a.contains(a[i]));
            let j = choose|j: int| 0 <= j < c.len() && c[j] == a[i];
            if j < b.len() {
                assert(b[j].is_tree());
            }
        }
    }
}

/// What the leaves of a frequency table measure.
pub proof fn lemma_leaf_nodes(counts: Seq<u64>, upto: nat, k: Measure)
    requires
        upto <= 256,
        counts.len() == 256,
    ensures
        all_trees(leaf_nodes(counts, upto)),
        leaf_nodes(counts, upto).len() <= upto,
        forest_measure(leaf_nodes(counts, upto), k) == (match k {
            Measure::Weight => sum_counts(counts, upto),
            Measure::Leaves => leaf_nodes(counts, upto).len(),
            Measure::Occurs(b) => if b < upto && counts[b as int] > 0 {
                1nat
            } else {
                0nat
            },
            Measure::WeightOf(b) => if b < upto {
                counts[b as int] as nat
            } else {
                0nat
            },
        }),
    decreases upto,
{
    if upto > 0 {
        let rest = leaf_nodes(counts, (upto - 1) as nat);
        lemma_leaf_nodes(counts, (upto - 1) as nat, k);
        if counts[upto - 1] > 0 {
            let x = leaf((upto - 1) as u8, counts[upto - 1]);
            assert(rest.push(x).drop_last() =~= rest);
            assert(x.is_tree());
        }
    }
}

/// The sum, over the bytes below `upto`, of how often each occurs.
pub open spec fn occurrences_below(data: Seq<u8>, upto: nat) -> nat
    decreases upto,
{
    if upto == 0 {
        0
    } else {
        occurrences_below(data, (upto - 1) as nat) + count_of(data, (upto - 1) as u8)
    }
}

/// One more byte is one more occurrence, if the byte is below `upto`.
proof fn lemma_occurrences_push(data: Seq<u8>, x: u8, upto: nat)
    requires
        upto <= 256,
    ensures
        occurrences_below(data.push(x), upto) == occurrences_below(data, upto) + if x < upto {
            1nat
        } else {
            0nat
        },
    decreases upto,
{
    if upto > 0 {
        lemma_occurrences_push(data, x, (upto - 1) as nat);
        assert(data.push(x).drop_last() =~= data);
    }
}

/// Every byte is counted once: the counts of all byte values add up to the
/// length.
pub proof fn lemma_occurrences_total(data: Seq<u8>)
    ensures
        occurrences_below(data, 256) == data.len(),
    decreases data.len(),
{
    if data.len() == 0 {
        lemma_occurrences_empty(data, 256);
    } else {
        lemma_occurrences_total(data.drop_last());
        lemma_occurrences_push(data.drop_last(), data.last(), 256);
        assert(data.drop_last().push(data.last()) =~= data);
    }
}

/// Nothing occurs in no data.
proof fn lemma_occurrences_empty(data: Seq<u8>, upto: nat)
    requires
        data.len() == 0,
    ensures
        occurrences_below(data, upto) == 0,
    decreases upto,
{
    if upto > 0 {
        lemma_occurrences_empty(data, (upto - 1) as nat);
    }
}

/// The counts of a frequency table add up to the length of what was
/// counted.
pub proof fn lemma_sum_counts(counts: Seq<u64>, data: Seq<u8>, upto: nat)
    requires
        upto <= 256,
        counts.len() == 256,
        forall|b: u8| counts[b as int] == count_of(data, b),
    ensures
        sum_counts(counts, upto) == occurrences_below(data, upto),
        upto == 256 ==> sum_counts(counts, upto) == data.len(),
    decreases upto,
{
    if upto > 0 {
        lemma_sum_counts(counts, data, (upto - 1) as nat);
        assert(counts[((upto - 1) as u8) as int] == count_of(data, (upto - 1) as u8));
    }
    if upto == 256 {
        lemma_occurrences_total(data);
    }
}

/// A byte that is there is counted.
pub proof fn lemma_count_positive(data: Seq<u8>, i: int)
    requires
        0 <= i < data.len(),
    ensures
        count_of(data, data[i]) > 0,
    decreases data.len(),
{
    if i < data.len() - 1 {
        lemma_count_positive(data.drop_last(), i);
    }
}

} // verus!
