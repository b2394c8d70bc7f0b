//! The bounded history of recently produced bytes that the LZSS decoder
//! replays back-references from, kept in a `circular_buffer::CircularBuffer`.

use vstd::prelude::*;
use circular_buffer::CircularBuffer;

verus! {

/// The number of bytes that a history holds at most.
pub const WINDOW_CAPACITY: usize = 4095;

/// `circular_buffer::CircularBuffer`: the type is made known so that a
/// buffer can be held and handed on; nothing is claimed of what is inside.
#[verifier::external_type_specification]
#[verifier::external_body]
#[verifier::reject_recursive_types(T)]
pub struct ExCircularBuffer<const N: usize, T>(CircularBuffer<N, T>);

/// The bytes that a history buffer holds, from its front (the most recent
/// byte) to its back (the oldest).
pub uninterp spec fn window_bytes(w: CircularBuffer<4095, u8>) -> Seq<u8>;

/// What a history holds once `out` has been produced: the last bytes of
/// `out`, as many as it has room for or all of them if there are fewer, the
/// most recent first.
pub open spec fn recent(out: Seq<u8>) -> Seq<u8> {
    Seq::new(
        if out.len() <= WINDOW_CAPACITY { out.len() } else { WINDOW_CAPACITY as nat },
        |i: int| out[out.len() - 1 - i],
    )
}

/// `CircularBuffer::new`: the buffer it returns is empty.
#[verifier::external_body]
pub(crate) fn window_new() -> (w: CircularBuffer<4095, u8>)
    ensures
        window_bytes(w) == Seq::<u8>::empty(),
{
    CircularBuffer::<4095, u8>::new()
}

/// `CircularBuffer::capacity`: always the type's size parameter, here 4095.
#[verifier::external_body]
pub(crate) fn window_capacity(w: &CircularBuffer<4095, u8>) -> (n: usize)
    ensures
        n == 4095,
{
    w.capacity()
}

/// `CircularBuffer::len`: the number of items held, never more than the
/// capacity.
#[verifier::external_body]
pub(crate) fn window_len(w: &CircularBuffer<4095, u8>) -> (n: usize)
    ensures
        n == window_bytes(*w).len(),
        n <= 4095,
{
    w.len()
}

/// `CircularBuffer::push_front`: the item becomes the front; where the
/// buffer was full, the item at its back is dropped to make room.
#[verifier::external_body]
pub(crate) fn window_push_front(w: &mut CircularBuffer<4095, u8>, byte: u8)
    ensures
        window_bytes(*final(w)) == if window_bytes(*old(w)).len() < 4095 {
            seq![byte] + window_bytes(*old(w))
        } else {
            seq![byte] + window_bytes(*old(w)).subrange(0, 4094)
        },
{
    w.push_front(byte);
}

/// `CircularBuffer::range`: the items at the indices `start..end`, counted
/// from the front, in that order. The call panics on a range that is reversed
/// or runs past the items held, so both are required not to happen.
#[verifier::external_body]
pub(crate) fn window_range(w: &CircularBuffer<4095, u8>, start: usize, end: usize) -> (items: Vec<u8>)
    requires
        start <= end <= window_bytes(*w).len(),
    ensures
        items@ == window_bytes(*w).subrange(start as int, end as int),
{
    w.range(start..end).copied().collect()
}

/// Pushing a byte keeps a history in step with the output.
pub proof fn lemma_recent_push(out: Seq<u8>, byte: u8)
    ensures
        recent(out.push(byte)) == if recent(out).len() < WINDOW_CAPACITY {
            seq![byte] + recent(out)
        } else {
            seq![byte] + recent(out).subrange(0, WINDOW_CAPACITY - 1)
        },
{
    if recent(out).len() < WINDOW_CAPACITY {
        assert(recent(out.push(byte)) =~= seq![byte] + recent(out));
    } else {
        assert(recent(out.push(byte)) =~= seq![byte] + recent(out).subrange(
            0,
            WINDOW_CAPACITY - 1,
        ));
    }
}

} // verus!
