//! An array-backed binary max-heap over any totally ordered element type.

use vstd::prelude::*;
use vstd::std_specs::cmp::PartialOrdSpec;
use core::cmp::Ordering;

verus! {

/// `a` ranks strictly above `b`.
pub open spec fn outranks<T: PartialOrd>(a: T, b: T) -> bool {
    a.partial_cmp_spec(&b) == Some(Ordering::Greater)
}

/// `a` ranks above `b` or ties with it.
pub open spec fn at_least<T: PartialOrd>(a: T, b: T) -> bool {
    a.partial_cmp_spec(&b) == Some(Ordering::Greater) || a.partial_cmp_spec(&b) == Some(
        Ordering::Equal,
    )
}

/// The comparison of `T` is a total order (ties allowed): the operators
/// compute it, of any two items exactly one holds, that the first ranks at
/// least as high as the second or that the second outranks the first, and
/// ranking at least as high is transitive.
pub open spec fn total_order<T: PartialOrd>() -> bool {
    &&& T::obeys_partial_cmp_spec()
    &&& forall|a: T, b: T| #[trigger] at_least(a, b) || outranks(b, a)
    &&& forall|a: T, b: T| #[trigger] at_least(a, b) ==> !outranks(b, a)
    &&& forall|a: T, b: T, c: T|
        #[trigger] at_least(a, b) && #[trigger] at_least(b, c) ==> at_least(a, c)
}

/// Whether index `i` lies in the subtree whose root sits at index `pos`: it
/// is `pos`, or its parent lies there.
pub open spec fn in_subtree(i: int, pos: int) -> bool
    decreases i,
{
    i == pos || (i > pos && i > 0 && in_subtree((i - 1) / 2, pos))
}

/// The subtree at `pos` is a heap: every item in it but its root ranks no
/// higher than its parent.
pub open spec fn heap_at<T: PartialOrd>(s: Seq<T>, pos: int) -> bool {
    forall|i: int|
        0 < i < s.len() && i != pos && in_subtree(i, pos) ==> at_least(
            s[(i - 1) / 2],
            #[trigger] s[i],
        )
}

/// Whether `t` is `s` but for the items in the subtree at `pos`.
pub open spec fn same_outside<T>(s: Seq<T>, t: Seq<T>, pos: int) -> bool {
    &&& t.len() == s.len()
    &&& forall|i: int| 0 <= i < s.len() && !in_subtree(i, pos) ==> #[trigger] t[i] == s[i]
}

/// Whether `t` is `s` but for the items on the way from index `from` up to
/// the root.
pub open spec fn same_off_path<T>(s: Seq<T>, t: Seq<T>, from: int) -> bool {
    &&& t.len() == s.len()
    &&& forall|i: int| 0 <= i < s.len() && !in_subtree(from, i) ==> #[trigger] t[i] == s[i]
}

/// Every item whose parent sits at index `lo` or later ranks no higher
/// than that parent.
pub open spec fn ordered_from<T: PartialOrd>(s: Seq<T>, lo: int) -> bool {
    forall|i: int| 0 < i < s.len() && (i - 1) / 2 >= lo ==> at_least(s[(i - 1) / 2], #[trigger] s[i])
}

/// The heap invariant: every item but the root ranks no higher than its
/// parent.
pub open spec fn is_heap<T: PartialOrd>(s: Seq<T>) -> bool {
    ordered_from(s, 0)
}

/// What lies in a subtree below its root lies in the subtree of one of the
/// root's two children.
pub proof fn lemma_subtree_child(i: int, pos: int)
    requires
        pos >= 0,
        in_subtree(i, pos),
        i != pos,
    ensures
        in_subtree(i, 2 * pos + 1) || in_subtree(i, 2 * pos + 2),
    decreases i,
{
    if (i - 1) / 2 != pos {
        lemma_subtree_child((i - 1) / 2, pos);
    }
}

/// What lies in a subtree lies in the subtree of the root's parent.
pub proof fn lemma_subtree_parent(i: int, pos: int)
    requires
        pos > 0,
        in_subtree(i, pos),
    ensures
        in_subtree(i, (pos - 1) / 2),
    decreases i,
{
    if i != pos {
        lemma_subtree_parent((i - 1) / 2, pos);
    } else {
        assert(in_subtree((pos - 1) / 2, (pos - 1) / 2));
    }
}

/// Every index lies in the subtree of the root.
pub proof fn lemma_subtree_of_root(i: int)
    requires
        i >= 0,
    ensures
        in_subtree(i, 0),
    decreases i,
{
    if i > 0 {
        lemma_subtree_of_root((i - 1) / 2);
    }
}

/// Order from `pos` on makes the subtree at `pos` a heap; and a heap at the
/// root is a heap.
pub proof fn lemma_heap_at<T: PartialOrd>(s: Seq<T>, pos: int)
    requires
        pos >= 0,
    ensures
        ordered_from(s, pos) ==> heap_at(s, pos),
        heap_at(s, 0) ==> is_heap(s),
{
    if ordered_from(s, pos) {
        assert forall|i: int| 0 < i < s.len() && i != pos && in_subtree(i, pos) implies at_least(
            s[(i - 1) / 2],
            #[trigger] s[i],
        ) by {
            assert(in_subtree((i - 1) / 2, pos));
        }
    }
    if heap_at(s, 0) {
        assert forall|i: int| 0 < i < s.len() && (i - 1) / 2 >= 0 implies at_least(
            s[(i - 1) / 2],
            #[trigger] s[i],
        ) by {
            lemma_subtree_of_root(i);
        }
    }
}

/// Making the subtree at `pos` a heap, with nothing moved outside it,
/// extends order from `pos + 1` on to order from `pos` on.
pub proof fn lemma_order_extends<T: PartialOrd>(s: Seq<T>, t: Seq<T>, pos: int)
    requires
        pos >= 0,
        ordered_from(s, pos + 1),
        heap_at(t, pos),
        same_outside(s, t, pos),
    ensures
        ordered_from(t, pos),
{
    assert forall|i: int| 0 < i < t.len() && (i - 1) / 2 >= pos implies at_least(
        t[(i - 1) / 2],
        #[trigger] t[i],
    ) by {
        if !in_subtree(i, pos) {
            assert(!in_subtree((i - 1) / 2, pos));
            assert(t[i] == s[i]);
            assert(t[(i - 1) / 2] == s[(i - 1) / 2]);
            assert(at_least(s[(i - 1) / 2], s[i]));
        }
    }
}

/// The root of a heap ranks at least as high as every item.
pub proof fn lemma_root_is_max<T: PartialOrd>(s: Seq<T>, i: int)
    requires
        total_order::<T>(),
        is_heap(s),
        0 <= i < s.len(),
    ensures
        at_least(s[0], s[i]),
    decreases i,
{
    if i == 0 {
        assert(at_least(s[0], s[0]) || outranks(s[0], s[0]));
    } else {
        lemma_root_is_max(s, (i - 1) / 2);
        assert(at_least(s[(i - 1) / 2], s[i]));
    }
}

/// Exchanging two items keeps the items.
pub proof fn lemma_swap_keeps_items<T>(s: Seq<T>, a: int, b: int)
    requires
        0 <= a < s.len(),
        0 <= b < s.len(),
    ensures
        s.update(a, s[b]).update(b, s[a]).to_multiset() == s.to_multiset(),
{
    broadcast use vstd::multiset::group_multiset_axioms;

    vstd::seq_lib::to_multiset_update(s, a, s[b]);
    vstd::seq_lib::to_multiset_update(s.update(a, s[b]), b, s[a]);
    vstd::seq_lib::to_multiset_contains(s, s[a]);
    vstd::seq_lib::to_multiset_contains(s, s[b]);
    assert(s.contains(s[a]));
    assert(s.contains(s[b]));
    if a == b {
        assert(s.update(a, s[b]).update(b, s[a]) =~= s);
    } else {
        assert(s.update(a, s[b]).update(b, s[a]).to_multiset() =~= s.to_multiset());
    }
}

/// Moving the last item into the place of another and dropping the last
/// place takes exactly the overwritten item away.
pub proof fn lemma_swap_remove_items<T>(s: Seq<T>, i: int)
    requires
        0 <= i < s.len(),
    ensures
        s.update(i, s.last()).drop_last().to_multiset().insert(s[i]) == s.to_multiset(),
{
    broadcast use vstd::multiset::group_multiset_axioms;

    let last = s.len() - 1;
    vstd::seq_lib::to_multiset_contains(s, s[i]);
    vstd::seq_lib::to_multiset_contains(s, s.last());
    assert(s.contains(s[i]));
    assert(s.contains(s[last]));
    if i == last {
        assert(s.update(i, s.last()) =~= s);
        assert(s.drop_last() =~= s.remove(last));
        vstd::seq_lib::to_multiset_remove(s, last);
        assert(s.drop_last().to_multiset().insert(s[i]) =~= s.to_multiset());
    } else {
        let u = s.update(i, s.last());
        vstd::seq_lib::to_multiset_update(s, i, s.last());
        assert(u.drop_last() =~= u.remove(last));
        vstd::seq_lib::to_multiset_remove(u, last);
        assert(u.drop_last().to_multiset().insert(s[i]) =~= s.to_multiset());
    }
}

/// `<[T]>::swap`: exchanges the items at the two indices and leaves every
/// other item in place. The call panics on an index out of bounds, so both
/// are required to be in bounds.
#[verifier::external_body]
fn swap_items<T>(items: &mut Vec<T>, a: usize, b: usize)
    requires
        a < old(items).len(),
        b < old(items).len(),
    ensures
        final(items)@ == old(items)@.update(a as int, old(items)@[b as int]).update(
            b as int,
            old(items)@[a as int],
        ),
{
    items.swap(a, b);
}

/// A binary max-heap: `remove` hands out an item that no other item
/// outranks.
pub struct Heap<T: PartialOrd> {
    items: Vec<T>,
}

impl<T: PartialOrd> View for Heap<T> {
    type V = Seq<T>;

    /// The items in their array order: the children of the item at index
    /// `i` sit at `2i + 1` and `2i + 2`.
    closed spec fn view(&self) -> Seq<T> {
        self.items@
    }
}

impl<T: PartialOrd> Heap<T> {
    /// The heap invariant holds, over a total order.
    pub open spec fn wf(&self) -> bool {
        &&& total_order::<T>()
        &&& is_heap(self@)
    }

    /// Instantiates a new `Heap` that holds `items`.
    pub fn new(items: Vec<T>) -> (heap: Self)
        requires
            total_order::<T>(),
        ensures
            heap.wf(),
            heap@.len() == items@.len(),
            heap@.to_multiset() == items@.to_multiset(),
    {
        let mut heap = Self { items };
        heap.heapify();
        heap
    }

    fn heapify(&mut self)
        requires
            total_order::<T>(),
        ensures
            final(self).wf(),
            final(self)@.len() == old(self)@.len(),
            final(self)@.to_multiset() == old(self)@.to_multiset(),
    {
        let mut i: usize = self.size() / 2;
        while i > 0
            invariant
                total_order::<T>(),
                self@.len() == old(self)@.len(),
                i <= self@.len() / 2,
                ordered_from(self@, i as int),
                self@.to_multiset() == old(self)@.to_multiset(),
            decreases i,
        {
            i -= 1;
            let ghost before = self@;
            proof {
                lemma_heap_at(before, 2 * i + 1);
                lemma_heap_at(before, 2 * i + 2);
            }
            self.sift_down(i);
            proof {
                lemma_order_extends(before, self@, i as int);
            }
        }
    }

    /// Insert an item into the heap
    pub fn insert(&mut self, item: T)
        requires
            old(self).wf(),
        ensures
            final(self).wf(),
            final(self)@.len() == old(self)@.len() + 1,
            final(self)@.to_multiset() == old(self)@.to_multiset().insert(item),
    {
        self.items.push(item);
        proof {
            vstd::seq_lib::to_multiset_build(old(self)@, item);
            assert forall|i: int| 0 < i < self@.len() && i != self@.len() - 1 implies at_least(
                self@[(i - 1) / 2],
                #[trigger] self@[i],
            ) by {
                assert(at_least(old(self)@[(i - 1) / 2], old(self)@[i]));
            }
        }
        self.sift_up()
    }

    /// Remove an item from the heap: one that ranks at least as high as every
    /// other. `None` if the heap is empty.
    pub fn remove(&mut self) -> (r: Option<T>)
        requires
            old(self).wf(),
        ensures
            final(self).wf(),
            match r {
                None => old(self)@.len() == 0 && final(self)@ == old(self)@,
                Some(item) => {
                    &&& old(self)@.len() > 0
                    &&& final(self)@.len() == old(self)@.len() - 1
                    &&& old(self)@.to_multiset() == final(self)@.to_multiset().insert(item)
                    &&& forall|i: int|
                        0 <= i < old(self)@.len() ==> at_least(item, #[trigger] old(self)@[i])
                },
            },
    {
        proof {
            assert forall|i: int| 0 <= i < old(self)@.len() implies at_least(
                old(self)@[0],
                #[trigger] old(self)@[i],
            ) by {
                lemma_root_is_max(old(self)@, i);
            }
        }
        let size = self.size();
        if size == 0 {
            None
        } else if size == 1 {
            proof {
                lemma_swap_remove_items(old(self)@, 0);
                let items = old(self)@;
                assert(items.update(0, items.last()).drop_last() =~= items.drop_last());
            }
            self.items.pop()
        } else {
            proof {
                lemma_swap_remove_items(old(self)@, 0);
            }
            let item = self.items.swap_remove(0);
            proof {
                assert forall|i: int| 0 < i < self@.len() && (i - 1) / 2 >= 1 implies at_least(
                    self@[(i - 1) / 2],
                    #[trigger] self@[i],
                ) by {
                    assert(at_least(old(self)@[(i - 1) / 2], old(self)@[i]));
                }
                lemma_heap_at(self@, 1);
                lemma_heap_at(self@, 2);
            }
            self.sift_down(0);
            proof {
                lemma_heap_at(self@, 0);
            }
            Some(item)
        }
    }

    // Sifts the item at `pos` down until it outranks both its children:
    // makes the subtree at `pos` a heap where the subtrees of its two
    // children are, and moves nothing outside that subtree
    fn sift_down(&mut self, pos: usize)
        requires
            total_order::<T>(),
            heap_at(old(self)@, 2 * pos + 1),
            heap_at(old(self)@, 2 * pos + 2),
        ensures
            heap_at(final(self)@, pos as int),
            final(self)@.len() == old(self)@.len(),
            final(self)@.to_multiset() == old(self)@.to_multiset(),
            same_outside(old(self)@, final(self)@, pos as int),
            2 * pos + 1 >= old(self)@.len() ==> final(self)@ == old(self)@,
    {
        let mut cur = pos;
        proof {
            let s = self@;
            assert forall|i: int|
                0 < i < s.len() && i != pos && in_subtree(i, pos as int) && (i - 1) / 2
                    != pos implies at_least(s[(i - 1) / 2], #[trigger] s[i]) by {
                lemma_subtree_child(i, pos as int);
            }
        }
        while cur < self.size() / 2
            invariant
                total_order::<T>(),
                pos <= cur,
                in_subtree(cur as int, pos as int),
                cur == pos ==> self@ == old(self)@,
                cur != pos ==> 2 * pos + 1 < self@.len(),
                self@.len() == old(self)@.len(),
                self@.to_multiset() == old(self)@.to_multiset(),
                same_outside(old(self)@, self@, pos as int),
                forall|i: int|
                    0 < i < self@.len() && i != pos && in_subtree(i, pos as int) && (i - 1) / 2
                        != cur ==> at_least(self@[(i - 1) / 2], #[trigger] self@[i]),
                cur != pos ==> forall|c: int|
                    0 < c < self@.len() && (c - 1) / 2 == cur ==> at_least(
                        self@[(cur - 1) / 2],
                        #[trigger] self@[c],
                    ),
            decreases self@.len() - cur,
        {
            let left = 2 * cur + 1;
            let right = left + 1;
            let mut largest = cur;
            let ghost s = self@;

            let left_wins = self.items[left] > self.items[largest];
            if left_wins {
                largest = left;
            }
            let ghost mid = largest as int;
            let right_wins = right < self.size() && self.items[right] > self.items[largest];
            if right_wins {
                largest = right;
            }
            proof {
                // the chosen item ranks at least as high as the item at `cur` and both children
                let (p, l, r) = (cur as int, left as int, right as int);
                assert(at_least(s[p], s[p]) || outranks(s[p], s[p]));
                assert(at_least(s[l], s[l]) || outranks(s[l], s[l]));
                assert(at_least(s[p], s[l]) || outranks(s[l], s[p]));
                assert(at_least(s[mid], s[p]) && at_least(s[mid], s[l]));
                if r < s.len() {
                    assert(at_least(s[r], s[r]) || outranks(s[r], s[r]));
                    assert(at_least(s[mid], s[r]) || outranks(s[r], s[mid]));
                    if right_wins {
                        assert(at_least(s[r], s[mid]));
                    }
                    assert(at_least(s[largest as int], s[r]));
                }
                assert(at_least(s[largest as int], s[p]));
                assert(at_least(s[largest as int], s[l]));
            }
            if largest == cur {
                proof {
                    assert forall|i: int|
                        0 < i < s.len() && i != pos && in_subtree(i, pos as int) implies at_least(
                        s[(i - 1) / 2],
                        #[trigger] s[i],
                    ) by {
                        if (i - 1) / 2 == cur {
                            assert(i == left || i == right);
                        }
                    }
                }
                return ;
            }
            swap_items(&mut self.items, cur, largest);
            proof {
                lemma_swap_keeps_items(s, cur as int, largest as int);
                let t = self@;
                assert(in_subtree(largest as int, pos as int));
                assert forall|i: int|
                    0 < i < t.len() && i != pos && in_subtree(i, pos as int) && (i - 1) / 2
                        != largest implies at_least(t[(i - 1) / 2], #[trigger] t[i]) by {
                    if (i - 1) / 2 == cur {
                        assert(i == left || i == right);
                    } else if i == cur {
                        assert(at_least(s[(cur - 1) / 2], s[largest as int]));
                    } else {
                        assert(at_least(s[(i - 1) / 2], s[i]));
                    }
                }
                assert forall|c: int|
                    0 < c < t.len() && (c - 1) / 2 == largest implies at_least(
                    t[(largest - 1) / 2],
                    #[trigger] t[c],
                ) by {
                    assert(in_subtree(c, pos as int));
                    assert(at_least(s[(c - 1) / 2], s[c]));
                }
                assert forall|i: int|
                    0 <= i < t.len() && !in_subtree(i, pos as int) implies #[trigger] t[i] == old(
                    self,
                )@[i] by {
                    assert(s[i] == old(self)@[i]);
                }
            }
            cur = largest;
        }
    }

    // Sifts the last item up until its parent is not outranked: makes the
    // heap whole where all but the last item are in order, and moves
    // nothing off the way from the last place to the root
    fn sift_up(&mut self)
        requires
            total_order::<T>(),
            forall|i: int|
                0 < i < old(self)@.len() && i != old(self)@.len() - 1 ==> at_least(
                    old(self)@[(i - 1) / 2],
                    #[trigger] old(self)@[i],
                ),
        ensures
            is_heap(final(self)@),
            final(self)@.len() == old(self)@.len(),
            final(self)@.to_multiset() == old(self)@.to_multiset(),
            same_off_path(old(self)@, final(self)@, old(self)@.len() - 1),
            old(self)@.len() <= 1 ==> final(self)@ == old(self)@,
    {
        if self.size() == 0 {
            return ;
        }
        let last = self.size() - 1;
        let mut pos = last;
        while pos > 0
            invariant
                total_order::<T>(),
                pos <= last,
                last == old(self)@.len() - 1,
                in_subtree(last as int, pos as int),
                pos == last ==> self@ == old(self)@,
                self@.len() == old(self)@.len(),
                self@.to_multiset() == old(self)@.to_multiset(),
                same_off_path(old(self)@, self@, last as int),
                forall|i: int|
                    0 < i < self@.len() && i != pos ==> at_least(
                        self@[(i - 1) / 2],
                        #[trigger] self@[i],
                    ),
                pos > 0 ==> forall|c: int|
                    0 < c < self@.len() && (c - 1) / 2 == pos ==> at_least(
                        self@[(pos - 1) / 2],
                        #[trigger] self@[c],
                    ),
            decreases pos,
        {
            let parent = (pos - 1) / 2;
            let ghost s = self@;
            if !(self.items[pos] > self.items[parent]) {
                proof {
                    assert(at_least(s[parent as int], s[pos as int]) || outranks(
                        s[pos as int],
                        s[parent as int],
                    ));
                }
                return ;
            }
            swap_items(&mut self.items, pos, parent);
            proof {
                lemma_swap_keeps_items(s, pos as int, parent as int);
                lemma_subtree_parent(last as int, pos as int);
                let t = self@;
                assert(at_least(s[pos as int], s[parent as int]));
                assert forall|i: int| 0 < i < t.len() && i != parent implies at_least(
                    t[(i - 1) / 2],
                    #[trigger] t[i],
                ) by {
                    if i == pos {
                    } else if (i - 1) / 2 == parent {
                        assert(at_least(s[parent as int], s[i]));
                    } else if (i - 1) / 2 == pos {
                        assert(at_least(s[(pos - 1) / 2], s[i]));
                    } else {
                        assert(at_least(s[(i - 1) / 2], s[i]));
                    }
                }
                if parent > 0 {
                    assert forall|c: int|
                        0 < c < t.len() && (c - 1) / 2 == parent implies at_least(
                        t[(parent - 1) / 2],
                        #[trigger] t[c],
                    ) by {
                        assert(at_least(s[(parent - 1) / 2], s[parent as int]));
                        if c != pos {
                            assert(at_least(s[parent as int], s[c]));
                        }
                    }
                }
                assert forall|i: int|
                    0 <= i < t.len() && !in_subtree(last as int, i) implies #[trigger] t[i] == old(
                    self,
                )@[i] by {
                    assert(s[i] == old(self)@[i]);
                }
            }
            pos = parent;
        }
    }

    /// Returns the size of the heap
    pub fn size(&self) -> (n: usize)
        ensures
            n == self@.len(),
    {
        self.items.len()
    }
}

} // verus!
