use vstd::prelude::*;
use crate::buffer::{overwrite, min_nat};
use crate::mark_log::MarkLog;
use crate::marker::MarkerStream;
use crate::source::{is_suffix, lemma_suffix_skip, lemma_suffix_extend, ByteSource, ReadError};

verus! {

/// Initial capacity of the record of marked reads.
pub const DEFAULT_MARKER_BUFFER_SIZE: usize = 2048;

/// Reads bytes from an inner source, one at a time, with the ability to
/// `mark` a position and to come back to it with `reset`. While marked,
/// reads are handed out as usual and also recorded.
///
/// `fetched` is everything the inner source has produced so far; what the
/// log holds is its tail end.
pub struct MarkableReader<R> {
    inner: R,
    inner_complete: bool,
    log: MarkLog,
    fetched: Ghost<Seq<u8>>,
}

impl<R: ByteSource> MarkerStream for MarkableReader<R> {
    closed spec fn wf(&self) -> bool {
        &&& self.log.wf()
        &&& is_suffix(self.fetched@, self.log.recorded())
        &&& self.source_ok()
    }

    closed spec fn stream(&self) -> Seq<u8> {
        self.fetched@ + self.inner.remaining()
    }

    closed spec fn position(&self) -> nat {
        (self.fetched@.len() - self.log.queue_len()) as nat
    }

    closed spec fn is_marked(&self) -> bool {
        self.log.marked()
    }

    closed spec fn mark_point(&self) -> nat {
        (self.position() - self.log.history().len()) as nat
    }

    closed spec fn queued(&self) -> nat {
        self.log.queue_len()
    }

    closed spec fn fallible(&self) -> bool {
        self.inner.fallible()
    }

    closed spec fn back_limit(&self) -> Option<usize> {
        self.log.limit()
    }

    closed spec fn record_room(&self) -> nat {
        self.log.room()
    }

    fn mark(&mut self) -> (dropped: usize) {
        proof {
            self.log.lemma_wf();
        }
        let dropped = self.log.mark();
        proof {
            self.log.lemma_wf();
            assert(self.fetched@.skip(self.fetched@.len() as int) =~= Seq::<u8>::empty());
        }
        dropped
    }

    fn reset(&mut self) {
        proof {
            self.log.lemma_wf();
        }
        self.log.reset();
        proof {
            self.log.lemma_wf();
        }
    }

    fn clear_buffer(&mut self) {
        proof {
            self.log.lemma_wf();
        }
        self.log.clear();
        proof {
            self.log.lemma_wf();
            assert(self.fetched@.skip(self.fetched@.len() as int) =~= Seq::<u8>::empty());
        }
    }
}

impl<R: ByteSource> MarkableReader<R> {
    /// The end of the source is noted only once it is reached.
    closed spec fn source_ok(&self) -> bool {
        self.inner_complete ==> self.inner.remaining().len() == 0
    }

    /// Whether the inner source has reported its end.
    pub closed spec fn source_exhausted(&self) -> bool {
        self.inner_complete
    }

    /// The size the record's store may reach before it has to grow.
    pub closed spec fn back_capacity(&self) -> nat {
        self.log.capacity()
    }

    pub closed spec fn source(&self) -> R {
        self.inner
    }

    pub proof fn lemma_bounds(&self)
        requires
            self.wf(),
        ensures
            self.is_marked() ==> self.mark_point() <= self.position(),
            self.is_marked() ==> self.queued() == 0,
            self.position() + self.queued() <= self.stream().len(),
            self.source_exhausted() ==> self.position() + self.queued() == self.stream().len(),
    {
        self.log.lemma_wf();
    }

    /// What a read into the region `b0` from index `offset` on does: it
    /// takes the reader from `a` to `b`, the region to `b1`, and returns `r`.
    ///
    /// The bytes handed out, at `offset` on, are the next bytes of the
    /// stream, queued ones first; a read that succeeds hands out as many as
    /// the region and the stream have. `EndOfStream` comes at the end of the
    /// stream; `CapacityExceeded`, with nothing taken, when a marked read
    /// would pass the record's limit; a fault only from a fallible source,
    /// after the bytes taken before it were handed out (and recorded).
    pub open spec fn read_outcome(
        a: Self,
        b: Self,
        b0: Seq<u8>,
        b1: Seq<u8>,
        offset: nat,
        r: Result<usize, ReadError<R::Fault>>,
    ) -> bool {
        let m = b0.len() - offset;
        let moved = b.position() - a.position();
        &&& b1.len() == b0.len()
        &&& b.stream() == a.stream()
        &&& b.is_marked() == a.is_marked()
        &&& b.is_marked() ==> b.mark_point() == a.mark_point()
        &&& b.back_limit() == a.back_limit()
        &&& b.fallible() == a.fallible()
        &&& a.source_exhausted() ==> b.source_exhausted()
        &&& a.position() <= b.position() <= a.position() + m
        &&& b.position() <= b.stream().len()
        &&& b1 == overwrite(b0, offset as int, a.stream().subrange(a.position() as int, b.position() as int))
        &&& b.queued() == a.queued() - min_nat(moved as nat, a.queued())
        &&& b.is_marked() ==> b.record_room() + moved == a.record_room()
        &&& match r {
            Ok(n) => {
                &&& b.position() == a.position() + n
                &&& n == min_nat(m as nat, (a.stream().len() - a.position()) as nat)
                &&& m > 0 ==> n > 0
                &&& a.is_marked() ==> n == m
            },
            Err(ReadError::EndOfStream) => {
                &&& m > 0
                &&& b.position() == a.stream().len()
                &&& !a.is_marked() ==> b.position() == a.position()
                &&& a.is_marked() ==> b.position() < a.position() + m
            },
            Err(ReadError::CapacityExceeded) => {
                &&& m > 0
                &&& b.position() == a.position()
                &&& a.is_marked()
                &&& m > a.record_room()
            },
            Err(ReadError::Fault(_)) => m > 0 && a.fallible(),
        }
        &&& (m > 0 && a.queued() == 0 && a.source_exhausted()) ==> (r matches Err(ReadError::EndOfStream))
        &&& (m > 0 && a.queued() >= m) ==> r is Ok
        &&& (!a.fallible() && a.position() < a.stream().len() && (!a.is_marked() || (m <= a.record_room()
            && a.position() + m <= a.stream().len()))) ==> r is Ok
    }

    /// A reader over `inner` whose record has the given capacity and limit.
    fn with_log(inner: R, capacity: usize, limit: Option<usize>) -> (r: Self)
        ensures
            r.wf(),
            r.stream() == inner.remaining(),
            r.fallible() == inner.fallible(),
            r.position() == 0,
            !r.is_marked(),
            r.queued() == 0,
            !r.source_exhausted(),
            r.back_limit() == limit,
            r.back_capacity() == capacity,
    {
        let r = MarkableReader {
            inner,
            inner_complete: false,
            log: MarkLog::new(capacity, limit),
            fetched: Ghost(Seq::empty()),
        };
        proof {
            r.log.lemma_wf();
            assert(r.stream() =~= inner.remaining());
        }
        r
    }

    /// Creates a reader whose record of marked reads is unbounded.
    pub fn new(inner: R) -> (r: Self)
        ensures
            r.wf(),
            r.stream() == inner.remaining(),
            r.fallible() == inner.fallible(),
            r.position() == 0,
            !r.is_marked(),
            r.queued() == 0,
            !r.source_exhausted(),
            r.back_limit() == None::<usize>,
            r.back_capacity() == DEFAULT_MARKER_BUFFER_SIZE,
    {
        Self::with_log(inner, DEFAULT_MARKER_BUFFER_SIZE, None)
    }

    /// Creates a reader whose record of marked reads holds at most `limit` bytes.
    pub fn new_with_limited_back_buffer(inner: R, limit: usize) -> (r: Self)
        ensures
            r.wf(),
            r.stream() == inner.remaining(),
            r.fallible() == inner.fallible(),
            r.position() == 0,
            !r.is_marked(),
            r.queued() == 0,
            !r.source_exhausted(),
            r.back_limit() == Some(limit),
            r.back_capacity() == DEFAULT_MARKER_BUFFER_SIZE,
    {
        Self::with_log(inner, DEFAULT_MARKER_BUFFER_SIZE, Some(limit))
    }

    /// Creates a reader whose record of marked reads starts with room for
    /// `capacity` bytes and holds at most `limit`.
    pub fn new_with_capacity_and_limit(inner: R, capacity: usize, limit: usize) -> (r: Self)
        ensures
            r.wf(),
            r.stream() == inner.remaining(),
            r.fallible() == inner.fallible(),
            r.position() == 0,
            !r.is_marked(),
            r.queued() == 0,
            !r.source_exhausted(),
            r.back_limit() == Some(limit),
            r.back_capacity() == capacity,
    {
        Self::with_log(inner, capacity, Some(limit))
    }

    /// Gives the inner source back; what is buffered is lost. The source
    /// still has the stream from the end of the queued bytes on.
    pub fn into_inner(self) -> (r: R)
        requires
            self.wf(),
        ensures
            r == self.source(),
            r.remaining() == self.stream().skip((self.position() + self.queued()) as int),
    {
        proof {
            self.log.lemma_wf();
            assert(self.stream().skip(self.fetched@.len() as int) =~= self.inner.remaining());
        }
        self.inner
    }

    /// Takes up to `count` bytes from the inner source, one read at a time,
    /// into `buf` from index `offset` on. Stops at the end of the source,
    /// which it notes, or at a fault, which it returns beside the count.
    fn fill_from_inner(&mut self, buf: &mut [u8], offset: usize, count: usize) -> (r: (
        usize,
        Option<R::Fault>,
    ))
        requires
            old(self).source_ok(),
            offset + count <= old(buf)@.len(),
        ensures
            final(self).source_ok(),
            final(self).stream() == old(self).stream(),
            final(self).log == old(self).log,
            final(self).inner.fallible() == old(self).inner.fallible(),
            final(buf)@.len() == old(buf)@.len(),
            old(self).inner_complete ==> final(self).inner_complete,
            r.0 <= count,
            final(self).fetched@ == old(self).fetched@ + final(buf)@.subrange(offset as int, offset + r.0),
            final(buf)@ == overwrite(old(buf)@, offset as int, final(buf)@.subrange(offset as int, offset + r.0)),
            r.1 is None ==> r.0 == count || final(self).inner_complete,
            r.1 is Some ==> old(self).inner.fallible(),
    {
        if self.inner_complete || count == 0 {
            proof {
                assert(buf@ =~= overwrite(buf@, offset as int, buf@.subrange(offset as int, offset as int)));
                assert(self.fetched@ =~= self.fetched@ + buf@.subrange(offset as int, offset as int));
            }
            return (0, None);
        }
        let ghost b0 = buf@;
        let ghost f0 = self.fetched@;
        let blen = buf.len();
        let mut read: usize = 0;
        let mut single_byte_buf: Vec<u8> = vec![0u8];
        while read < count
            invariant
                self.log == old(self).log,
                f0 == old(self).fetched@,
                !self.inner_complete,
                !old(self).inner_complete,
                self.inner.fallible() == old(self).inner.fallible(),
                blen == b0.len(),
                self.fetched@ + self.inner.remaining() == f0 + old(self).inner.remaining(),
                self.fetched@ == f0 + buf@.subrange(offset as int, offset + read),
                buf@.len() == b0.len(),
                b0 == old(buf)@,
                offset + count <= b0.len(),
                read <= count,
                single_byte_buf@.len() == 1,
                forall|j: int|
                    0 <= j < b0.len() && !(offset <= j < offset + read) ==> #[trigger] buf@[j]
                        == b0[j],
            decreases count - read,
        {
            let ghost rem = self.inner.remaining();
            match self.inner.read(single_byte_buf.as_mut_slice()) {
                Ok(got) => {
                    if got > 0 {
                        let b = single_byte_buf[0];
                        let ghost prev = buf@;
                        buf[offset + read] = b;
                        proof {
                            assert(rem =~= seq![b] + self.inner.remaining()) by {
                                assert(single_byte_buf@.take(1) =~= seq![b]);
                            }
                            self.fetched@ = self.fetched@.push(b);
                            assert(buf@.subrange(offset as int, offset + read + 1) =~= prev.subrange(offset as int, offset + read).push(b));
                        }
                        read = read + 1;
                    } else {
                        self.inner_complete = true;
                        proof {
                            assert(buf@ =~= overwrite(b0, offset as int, buf@.subrange(offset as int, offset + read)));
                        }
                        return (read, None);
                    }
                },
                Err(e) => {
                    proof {
                        assert(buf@ =~= overwrite(b0, offset as int, buf@.subrange(offset as int, offset + read)));
                    }
                    return (read, Some(e));
                },
            }
        }
        proof {
            assert(buf@ =~= overwrite(b0, offset as int, buf@.subrange(offset as int, offset + read)));
        }
        (read, None)
    }

    /// Takes up to `count` bytes from the inner source into `buf` from index
    /// `offset` on, and records them if marked; a fault comes back beside
    /// the count.
    fn read_data_into_buf_and_marked_stream(
        &mut self,
        buf: &mut [u8],
        offset: usize,
        count: usize,
    ) -> (r: (usize, Option<R::Fault>))
        requires
            old(self).wf(),
            old(self).log.queue_len() == 0,
            count <= old(self).log.room(),
            offset + count <= old(buf)@.len(),
        ensures
            final(self).wf(),
            final(self).stream() == old(self).stream(),
            final(self).log.marked() == old(self).log.marked(),
            final(self).log.limit() == old(self).log.limit(),
            final(self).log.queue_len() == 0,
            final(self).inner.fallible() == old(self).inner.fallible(),
            final(self).is_marked() ==> final(self).mark_point() == old(self).mark_point(),
            final(self).is_marked() ==> final(self).log.recorded().len() == old(self).log.recorded().len() + r.0,
            final(buf)@.len() == old(buf)@.len(),
            old(self).inner_complete ==> final(self).inner_complete,
            r.0 <= count,
            final(buf)@ == overwrite(
                old(buf)@,
                offset as int,
                old(self).stream().subrange(old(self).position() as int, old(self).position() + r.0),
            ),
            final(self).position() == old(self).position() + r.0,
            r.1 is None ==> r.0 == count || final(self).inner_complete,
            r.1 is Some ==> old(self).inner.fallible(),
    {
        proof {
            self.log.lemma_wf();
        }
        let blen = buf.len();
        let ghost f0 = self.fetched@;
        let ghost rem0 = self.inner.remaining();
        let (got, fault) = self.fill_from_inner(buf, offset, count);
        let ghost fresh = buf@.subrange(offset as int, offset + got);
        proof {
            assert(fresh =~= (f0 + rem0).subrange(f0.len() as int, f0.len() + got)) by {
                assert(self.fetched@ + self.inner.remaining() =~= f0 + rem0);
                assert forall|j: int| 0 <= j < got implies fresh[j] == (f0 + rem0)[f0.len() + j] by {
                    assert((self.fetched@ + self.inner.remaining())[f0.len() + j] == self.fetched@[f0.len() + j]);
                }
            }
        }
        self.log.record(&buf[offset..offset + got]);
        proof {
            self.log.lemma_wf();
            if old(self).log.marked() {
                lemma_suffix_extend(f0, old(self).log.recorded(), fresh);
            } else {
                assert(self.fetched@.skip(self.fetched@.len() as int) =~= self.log.recorded());
            }
        }
        (got, fault)
    }

    /// Fills `buf` from index `offset` on: queued bytes first, then bytes of
    /// the inner source, recorded if marked. Returns how many were placed.
    fn read_into_buf(&mut self, buf: &mut [u8], offset: usize) -> (r: Result<usize, ReadError<R::Fault>>)
        requires
            old(self).wf(),
            offset <= old(buf)@.len(),
        ensures
            final(self).wf(),
            Self::read_outcome(*old(self), *final(self), old(buf)@, final(buf)@, offset as nat, r),
    {
        let len = buf.len();
        proof {
            self.lemma_bounds();
        }
        if offset == len {
            proof {
                assert(buf@ =~= overwrite(buf@, offset as int, self.stream().subrange(self.position() as int, self.position() as int)));
            }
            return Ok(0);
        }
        let m = len - offset;
        proof {
            self.log.lemma_wf();
            let q = self.log.queue();
            let f = self.fetched@;
            assert(q =~= self.stream().subrange(self.position() as int, f.len() as int)) by {
                assert(f.skip(f.len() - self.log.recorded().len()) == self.log.recorded());
                assert forall|j: int| 0 <= j < q.len() implies q[j] == self.stream()[self.position() + j] by {
                    assert(q[j] == self.log.recorded()[self.log.recorded().len() - self.log.queue_len() + j]);
                }
            }
        }
        if self.log.queued() == 0 && self.inner_complete {
            proof {
                assert(buf@ =~= overwrite(buf@, offset as int, self.stream().subrange(self.position() as int, self.position() as int)));
            }
            return Err(ReadError::EndOfStream);
        }
        if !self.log.fits(m) {
            proof {
                assert(buf@ =~= overwrite(buf@, offset as int, self.stream().subrange(self.position() as int, self.position() as int)));
            }
            return Err(ReadError::CapacityExceeded);
        }
        let ghost st = self.stream();
        let ghost pos0 = self.position();
        let ghost q0 = self.log.queue();
        let ghost b0 = buf@;
        let from_queue = self.log.take_queued(buf, offset);
        proof {
            self.log.lemma_wf();
            lemma_suffix_skip(self.fetched@, old(self).log.recorded(), from_queue as int);
            assert(q0.take(from_queue as int) =~= st.subrange(pos0 as int, pos0 + from_queue));
        }
        if from_queue == m {
            return Ok(m);
        }
        let (live, fault) = self.read_data_into_buf_and_marked_stream(buf, offset + from_queue, m - from_queue);
        proof {
            self.lemma_bounds();
            assert(buf@ =~= overwrite(b0, offset as int, st.subrange(pos0 as int, pos0 + from_queue + live)));
        }
        match fault {
            Some(e) => Err(ReadError::Fault(e)),
            None => {
                if from_queue + live == 0 {
                    Err(ReadError::EndOfStream)
                } else if self.log.is_marked() && from_queue + live < m {
                    Err(ReadError::EndOfStream)
                } else {
                    Ok(from_queue + live)
                }
            },
        }
    }

    /// Reads into `buf`: queued bytes first, then bytes of the inner source,
    /// recorded if marked. Returns how many were placed, at the front of
    /// `buf`; see `read_outcome`.
    pub fn read(&mut self, buf: &mut [u8]) -> (r: Result<usize, ReadError<R::Fault>>)
        requires
            old(self).wf(),
        ensures
            final(self).wf(),
            Self::read_outcome(*old(self), *final(self), old(buf)@, final(buf)@, 0, r),
    {
        self.read_into_buf(buf, 0)
    }

    /// Fills the whole of `buf`, reading as often as it takes. On an error,
    /// the bytes placed before it stay handed out, at the front of `buf`.
    pub fn read_exact(&mut self, buf: &mut [u8]) -> (r: Result<(), ReadError<R::Fault>>)
        requires
            old(self).wf(),
        ensures
            final(self).wf(),
            final(self).stream() == old(self).stream(),
            final(self).is_marked() == old(self).is_marked(),
            final(self).is_marked() ==> final(self).mark_point() == old(self).mark_point(),
            final(self).back_limit() == old(self).back_limit(),
            final(self).fallible() == old(self).fallible(),
            final(buf)@.len() == old(buf)@.len(),
            old(self).position() <= final(self).position() <= old(self).position() + old(buf)@.len(),
            final(buf)@.take(final(self).position() - old(self).position()) == old(self).stream().subrange(
                old(self).position() as int,
                final(self).position() as int,
            ),
            r is Ok ==> final(self).position() == old(self).position() + old(buf)@.len(),
            r matches Err(ReadError::EndOfStream) ==> final(self).position() == old(self).stream().len(),
            r matches Err(ReadError::CapacityExceeded) ==> final(self).is_marked() && final(self).record_room()
                < old(self).position() + old(buf)@.len() - final(self).position(),
            r matches Err(ReadError::Fault(_)) ==> old(self).fallible(),
            final(self).queued() == old(self).queued() - min_nat(
                (final(self).position() - old(self).position()) as nat,
                old(self).queued(),
            ),
            old(self).queued() >= old(buf)@.len() ==> r is Ok,
            !old(self).fallible() && old(self).position() + old(buf)@.len() <= old(self).stream().len()
                && (!old(self).is_marked() || old(buf)@.len() <= old(self).record_room()) ==> r is Ok,
    {
        let len = buf.len();
        let ghost st = self.stream();
        let ghost pos0 = self.position();
        let mut filled: usize = 0;
        proof {
            self.lemma_bounds();
            assert(buf@.take(0) =~= st.subrange(pos0 as int, pos0 as int));
        }
        while filled < len
            invariant
                self.wf(),
                self.stream() == st,
                self.is_marked() == old(self).is_marked(),
                self.is_marked() ==> self.mark_point() == old(self).mark_point(),
                self.is_marked() ==> self.record_room() + filled == old(self).record_room(),
                self.queued() == old(self).queued() - min_nat(filled as nat, old(self).queued()),
                self.back_limit() == old(self).back_limit(),
                self.fallible() == old(self).fallible(),
                st == old(self).stream(),
                pos0 == old(self).position(),
                buf@.len() == len,
                len == old(buf)@.len(),
                filled <= len,
                self.position() == pos0 + filled,
                buf@.take(filled as int) == st.subrange(pos0 as int, pos0 + filled),
            decreases len - filled,
        {
            let ghost b = buf@;
            let ghost before = *self;
            let res = self.read_into_buf(buf, filled);
            proof {
                self.lemma_bounds();
                let moved = self.position() - before.position();
                assert(buf@.take(filled + moved) =~= st.subrange(pos0 as int, pos0 + filled + moved)) by {
                    assert forall|j: int| 0 <= j < filled + moved implies buf@[j] == st[pos0 + j] by {
                        if j < filled {
                            assert(buf@[j] == b[j]);
                            assert(b.take(filled as int)[j] == b[j]);
                        }
                    }
                }
            }
            match res {
                Ok(n) => {
                    filled = filled + n;
                },
                Err(e) => {
                    return Err(e);
                },
            }
        }
        Ok(())
    }
}

} // verus!
