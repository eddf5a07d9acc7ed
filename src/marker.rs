use vstd::prelude::*;

verus! {

/// A byte stream on which a position can be marked and returned to.
///
/// The model: `stream` is everything the stream delivers, `position` how
/// much of it has been handed out. Marked, every byte handed out is
/// recorded from `mark_point` on; `reset` goes back there. `queued` bytes
/// are held ahead of the position, to be handed out before new ones.
pub trait MarkerStream: Sized {
    spec fn wf(&self) -> bool;

    spec fn stream(&self) -> Seq<u8>;

    spec fn position(&self) -> nat;

    spec fn is_marked(&self) -> bool;

    spec fn mark_point(&self) -> nat;

    spec fn queued(&self) -> nat;

    /// Whether the source beneath may fail.
    spec fn fallible(&self) -> bool;

    /// The bound on the recorded bytes, if any.
    spec fn back_limit(&self) -> Option<usize>;

    /// How many more bytes may be recorded (unbounded while unmarked).
    spec fn record_room(&self) -> nat;

    /// Marks the current position: from here on, reads are recorded. Every
    /// byte held is dropped: what a previous mark recorded, and the queued
    /// bytes, which the stream then skips. Returns how many were dropped.
    fn mark(&mut self) -> (dropped: usize)
        requires
            old(self).wf(),
        ensures
            final(self).wf(),
            final(self).is_marked(),
            final(self).position() == old(self).position() + old(self).queued(),
            final(self).mark_point() == final(self).position(),
            final(self).queued() == 0,
            final(self).stream() == old(self).stream(),
            final(self).fallible() == old(self).fallible(),
            final(self).back_limit() == old(self).back_limit(),
            final(self).record_room() == match old(self).back_limit() {
                Some(l) => l as nat,
                None => usize::MAX as nat,
            },
            dropped == old(self).queued() + if old(self).is_marked() {
                old(self).position() - old(self).mark_point()
            } else {
                0
            },
    ;

    /// Returns to the marked position and stops recording; the bytes from
    /// there on are handed out again. Without a mark, nothing changes.
    fn reset(&mut self)
        requires
            old(self).wf(),
        ensures
            final(self).wf(),
            !final(self).is_marked(),
            final(self).stream() == old(self).stream(),
            final(self).fallible() == old(self).fallible(),
            final(self).back_limit() == old(self).back_limit(),
            old(self).is_marked() ==> final(self).position() == old(self).mark_point(),
            old(self).is_marked() ==> final(self).queued() == old(self).queued() + old(
                self,
            ).position() - old(self).mark_point(),
            !old(self).is_marked() ==> final(self).position() == old(self).position(),
            !old(self).is_marked() ==> final(self).queued() == old(self).queued(),
            !old(self).is_marked() ==> *final(self) == *old(self),
    ;

    /// Drops every recorded byte, the queued ones too, and stops recording.
    fn clear_buffer(&mut self)
        requires
            old(self).wf(),
        ensures
            final(self).wf(),
            !final(self).is_marked(),
            final(self).stream() == old(self).stream(),
            final(self).fallible() == old(self).fallible(),
            final(self).back_limit() == old(self).back_limit(),
            final(self).position() == old(self).position() + old(self).queued(),
            final(self).queued() == 0,
    ;
}

} // verus!
