use vstd::prelude::*;
use crate::buffer::{overwrite, min_nat, Buffer};

verus! {

/// The record that makes `reset` possible.
///
/// Marked, `mark_buffer` holds the bytes handed out since the mark (the
/// history) and nothing is queued. Unmarked, it holds the queue: bytes put
/// back by a `reset`, handed out before any new byte of the source;
/// `replay` is their number.
pub struct MarkLog {
    is_marked: bool,
    replay: usize,
    mark_buffer: Buffer,
}

impl MarkLog {
    pub closed spec fn wf(&self) -> bool {
        &&& self.mark_buffer.wf()
        &&& self.is_marked ==> self.replay == 0
        &&& !self.is_marked ==> self.replay == self.mark_buffer@.len()
    }

    pub closed spec fn marked(&self) -> bool {
        self.is_marked
    }

    /// Every byte held: the history, or the queue.
    pub closed spec fn recorded(&self) -> Seq<u8> {
        self.mark_buffer@
    }

    pub closed spec fn queue_len(&self) -> nat {
        self.replay as nat
    }

    pub closed spec fn limit(&self) -> Option<usize> {
        self.mark_buffer.limit()
    }

    /// The size the record's store may reach before it has to grow.
    pub closed spec fn capacity(&self) -> nat {
        self.mark_buffer.capacity()
    }

    pub open spec fn queue(&self) -> Seq<u8> {
        self.recorded().skip(self.recorded().len() - self.queue_len())
    }

    pub open spec fn history(&self) -> Seq<u8> {
        self.recorded().take(self.recorded().len() - self.queue_len())
    }

    /// How many new bytes may still be recorded.
    pub open spec fn room(&self) -> nat {
        if !self.marked() {
            usize::MAX as nat
        } else {
            match self.limit() {
                Some(l) => (l - self.recorded().len()) as nat,
                None => (usize::MAX - self.recorded().len()) as nat,
            }
        }
    }

    pub proof fn lemma_wf(&self)
        requires
            self.wf(),
        ensures
            self.queue_len() <= self.recorded().len() <= usize::MAX,
            self.marked() ==> self.queue_len() == 0,
            self.marked() ==> self.history() == self.recorded(),
            !self.marked() ==> self.queue_len() == self.recorded().len(),
            !self.marked() ==> self.history().len() == 0,
            !self.marked() ==> self.queue() == self.recorded(),
            self.limit() matches Some(l) ==> self.recorded().len() <= l,
            self.history() + self.queue() == self.recorded(),
    {
        self.mark_buffer.lemma_wf();
        assert(self.history() + self.queue() =~= self.recorded());
        assert(self.recorded().skip(0) =~= self.recorded());
        assert(self.recorded().take(self.recorded().len() as int) =~= self.recorded());
    }

    pub fn new(capacity: usize, limit: Option<usize>) -> (m: MarkLog)
        ensures
            m.wf(),
            !m.marked(),
            m.recorded() == Seq::<u8>::empty(),
            m.limit() == limit,
            m.capacity() == capacity,
    {
        MarkLog { is_marked: false, replay: 0, mark_buffer: Buffer::new(capacity, limit) }
    }

    /// Starts recording here. Everything held, history and queue, is
    /// dropped; returns how many bytes that was.
    pub fn mark(&mut self) -> (dropped: usize)
        requires
            old(self).wf(),
        ensures
            final(self).wf(),
            final(self).marked(),
            dropped == old(self).recorded().len(),
            final(self).recorded() == Seq::<u8>::empty(),
            final(self).queue_len() == 0,
            final(self).limit() == old(self).limit(),
            final(self).capacity() == old(self).capacity(),
    {
        let dropped = self.mark_buffer.clear();
        self.replay = 0;
        self.is_marked = true;
        dropped
    }

    /// Puts the history back as the queue and stops recording. Unmarked,
    /// nothing changes.
    pub fn reset(&mut self)
        requires
            old(self).wf(),
        ensures
            final(self).wf(),
            !final(self).marked(),
            final(self).recorded() == old(self).recorded(),
            final(self).limit() == old(self).limit(),
            final(self).capacity() == old(self).capacity(),
            !old(self).marked() ==> *final(self) == *old(self),
    {
        if self.is_marked {
            self.replay = self.mark_buffer.len();
            self.is_marked = false;
        }
    }

    /// Drops everything held and stops recording.
    pub fn clear(&mut self)
        requires
            old(self).wf(),
        ensures
            final(self).wf(),
            !final(self).marked(),
            final(self).recorded() == Seq::<u8>::empty(),
            final(self).limit() == old(self).limit(),
            final(self).capacity() == old(self).capacity(),
    {
        self.mark_buffer.clear();
        self.replay = 0;
        self.is_marked = false;
    }

    /// Whether bytes handed out are being recorded.
    pub fn is_marked(&self) -> (r: bool)
        ensures
            r == self.marked(),
    {
        self.is_marked
    }

    /// The number of queued bytes.
    pub fn queued(&self) -> (r: usize)
        requires
            self.wf(),
        ensures
            r == self.queue_len(),
    {
        self.replay
    }

    /// Hands out queued bytes into `buf` from index `offset` on, as many as
    /// both have.
    pub fn take_queued(&mut self, buf: &mut [u8], offset: usize) -> (n: usize)
        requires
            old(self).wf(),
            offset <= old(buf)@.len(),
        ensures
            final(self).wf(),
            n == min_nat(old(self).queue_len(), (old(buf)@.len() - offset) as nat),
            final(buf)@ == overwrite(old(buf)@, offset as int, old(self).queue().take(n as int)),
            final(self).marked() == old(self).marked(),
            final(self).limit() == old(self).limit(),
            final(self).capacity() == old(self).capacity(),
            final(self).queue_len() == old(self).queue_len() - n,
            final(self).recorded() == old(self).recorded().skip(n as int),
    {
        if self.is_marked {
            proof {
                assert(buf@ =~= overwrite(buf@, offset as int, self.queue().take(0)));
                assert(self.recorded().skip(0) =~= self.recorded());
            }
            return 0;
        }
        let n = self.mark_buffer.read_into(buf, offset);
        self.replay = self.mark_buffer.len();
        proof {
            assert(old(self).queue() =~= old(self).recorded());
        }
        n
    }

    /// Whether `count` new bytes may be recorded now (always, unmarked).
    pub fn fits(&self, count: usize) -> (r: bool)
        requires
            self.wf(),
        ensures
            r == (count <= self.room()),
    {
        if !self.is_marked {
            true
        } else {
            let used = self.mark_buffer.len();
            proof {
                self.mark_buffer.lemma_wf();
            }
            let room = match self.mark_buffer.limit_value() {
                Some(l) => l - used,
                None => usize::MAX - used,
            };
            count <= room
        }
    }

    /// Records bytes that were just handed out from the source; unmarked,
    /// nothing is recorded.
    pub fn record(&mut self, bytes: &[u8])
        requires
            old(self).wf(),
            old(self).queue_len() == 0,
            bytes@.len() <= old(self).room(),
        ensures
            final(self).wf(),
            final(self).marked() == old(self).marked(),
            final(self).limit() == old(self).limit(),
            final(self).queue_len() == 0,
            final(self).recorded() == if old(self).marked() {
                old(self).recorded() + bytes@
            } else {
                old(self).recorded()
            },
    {
        if self.is_marked {
            proof {
                self.mark_buffer.lemma_wf();
            }
            let _ = self.mark_buffer.append(bytes);
        }
    }
}

} // verus!
