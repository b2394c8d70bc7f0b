//! Tables indexed by byte value: a general one and the frequency table.

use vstd::prelude::*;

verus! {

/// How often `byte` occurs in `data`.
pub open spec fn count_of(data: Seq<u8>, byte: u8) -> nat
    decreases data.len(),
{
    if data.len() == 0 {
        0
    } else {
        count_of(data.drop_last(), byte) + if data.last() == byte { 1nat } else { 0nat }
    }
}

/// Counting a concatenation adds the counts of its parts, whatever the
/// split.
pub proof fn lemma_count_concat(a: Seq<u8>, b: Seq<u8>, byte: u8)
    ensures
        count_of(a + b, byte) == count_of(a, byte) + count_of(b, byte),
    decreases b.len(),
{
    if b.len() == 0 {
        assert(a + b =~= a);
    } else {
        lemma_count_concat(a, b.drop_last(), byte);
        assert((a + b).drop_last() =~= a + b.drop_last());
    }
}

/// A byte occurs in a part no more often than in the whole.
pub proof fn lemma_count_prefix(data: Seq<u8>, n: int, byte: u8)
    requires
        0 <= n <= data.len(),
    ensures
        count_of(data.take(n), byte) <= count_of(data, byte),
{
    lemma_count_concat(data.take(n), data.skip(n), byte);
    assert(data.take(n) + data.skip(n) =~= data);
}

/// A byte cannot occur more often than there are bytes.
pub proof fn lemma_count_bound(data: Seq<u8>, byte: u8)
    ensures
        count_of(data, byte) <= data.len(),
    decreases data.len(),
{
    if data.len() > 0 {
        lemma_count_bound(data.drop_last(), byte);
    }
}

/// No value, whatever the index.
fn no_value<T>(idx: usize) -> (slot: Option<T>)
    ensures
        slot is None,
{
    None
}

/// `core::array::from_fn`: the array whose item at each index is what the
/// function returns for that index; here the function is `no_value`, so that
/// every slot holds nothing.
#[verifier::external_body]
fn empty_slots<T>() -> (slots: [Option<T>; 256])
    ensures
        forall|b: int| 0 <= b < 256 ==> slots@[b] is None,
{
    core::array::from_fn(no_value)
}

/// A `ByteMap` maps a byte to a value, or to nothing.
pub struct ByteMap<T> {
    map: [Option<T>; 256],
}

impl<T> View for ByteMap<T> {
    type V = Seq<Option<T>>;

    /// The 256 slots, indexed by byte value.
    closed spec fn view(&self) -> Seq<Option<T>> {
        self.map@
    }
}

impl<T> ByteMap<T> {
    /// There is one slot for each byte value.
    pub open spec fn wf(&self) -> bool {
        self@.len() == 256
    }

    /// A table always has its 256 slots.
    pub proof fn lemma_len(&self)
        ensures
            self.wf(),
    {
    }

    /// Creates a new `ByteMap` in which no byte has a value.
    pub fn new() -> (m: Self)
        ensures
            m.wf(),
            forall|b: int| 0 <= b < 256 ==> m@[b] is None,
    {
        ByteMap { map: empty_slots() }
    }

    /// The slot of `idx`.
    pub fn get(&self, idx: u8) -> (slot: &Option<T>)
        ensures
            *slot == self@[idx as int],
    {
        &self.map[idx as usize]
    }

    /// A copy of the 256 slots, each value cloned.
    pub fn get_copy(&self) -> (copy: [Option<T>; 256]) where T: Clone
        ensures
            forall|i: int| 0 <= i < 256 ==> cloned(self@[i], #[trigger] copy@[i]),
    {
        self.map.clone()
    }

    /// Gives `idx` the value `item`, in place of any it had.
    pub fn insert(&mut self, item: T, idx: u8)
        ensures
            final(self).wf(),
            final(self)@ == old(self)@.update(idx as int, Some(item)),
    {
        self.map[idx as usize] = Some(item);
    }

    /// Takes the value of `idx` out, leaving nothing.
    pub fn remove(&mut self, idx: u8) -> (item: Option<T>)
        ensures
            final(self).wf(),
            item == old(self)@[idx as int],
            final(self)@ == old(self)@.update(idx as int, None),
    {
        let mut slot: Option<T> = None;
        core::mem::swap(&mut self.map[idx as usize], &mut slot);
        slot
    }

    /// Gives `idx` the value `default` if it has none; else lets `closure`
    /// change the value it has.
    pub fn modify_or_default<F>(&mut self, idx: u8, closure: F, default: T) where F: FnOnce(&mut T)
        requires
            forall|r: &mut T| old(self)@[idx as int] == Some(*r) ==> call_requires(closure, (r,)),
        ensures
            final(self).wf(),
            match old(self)@[idx as int] {
                None => final(self)@ == old(self)@.update(idx as int, Some(default)),
                Some(value) => exists|r: &mut T|
                    {
                        &&& *r == value
                        &&& #[trigger] call_ensures(closure, (r,), ())
                        &&& final(self)@ == old(self)@.update(idx as int, Some(*final(r)))
                    },
            },
    {
        let mut slot: Option<T> = None;
        core::mem::swap(&mut self.map[idx as usize], &mut slot);
        match slot {
            None => {
                self.map[idx as usize] = Some(default);
            },
            Some(mut value) => {
                closure(&mut value);
                self.map[idx as usize] = Some(value);
            },
        }
    }
}

/// A `CountMap` maps a byte to its count.
pub struct CountMap {
    map: [u64; 256],
}

impl View for CountMap {
    type V = Seq<u64>;

    /// The 256 counts, indexed by byte value.
    closed spec fn view(&self) -> Seq<u64> {
        self.map@
    }
}

impl CountMap {
    /// Whether the table holds the counts of `data`.
    pub open spec fn counts(&self, data: Seq<u8>) -> bool {
        forall|b: u8| self@[b as int] == count_of(data, b)
    }

    /// Whether the counts of `data` can be added without any count
    /// exceeding 64 bits.
    pub open spec fn has_room(&self, data: Seq<u8>) -> bool {
        forall|b: u8| self@[b as int] + count_of(data, b) <= u64::MAX
    }

    /// A table always has its 256 slots.
    pub proof fn lemma_len(&self)
        ensures
            self@.len() == 256,
    {
    }

    /// Creates a new `CountMap` with every count at zero.
    pub fn new() -> (m: CountMap)
        ensures
            m@.len() == 256,
            forall|b: int| 0 <= b < 256 ==> m@[b] == 0,
    {
        CountMap { map: [0;256] }
    }

    /// The count of `idx`.
    #[inline]
    pub fn get(&self, idx: u8) -> (n: u64)
        ensures
            n == self@[idx as int],
    {
        self.map[idx as usize]
    }

    /// Counts one more occurrence of `idx`.
    #[inline]
    pub fn increment_count(&mut self, idx: u8)
        requires
            old(self)@[idx as int] < u64::MAX,
        ensures
            final(self)@ == old(self)@.update(idx as int, (old(self)@[idx as int] + 1) as u64),
    {
        self.map[idx as usize] = self.map[idx as usize] + 1;
    }

    /// Counts `num` more occurrences of `idx`.
    #[inline]
    pub fn increment_count_by(&mut self, idx: u8, num: u64)
        requires
            old(self)@[idx as int] + num <= u64::MAX,
        ensures
            final(self)@ == old(self)@.update(idx as int, (old(self)@[idx as int] + num) as u64),
    {
        self.map[idx as usize] = self.map[idx as usize] + num;
    }

    /// The 256 counts as an array.
    #[inline]
    pub fn get_copy(&self) -> (counts: [u64; 256])
        ensures
            counts@ == self@,
    {
        self.map
    }
}

} // verus!
