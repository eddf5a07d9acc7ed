use vstd::prelude::*;
use crate::buffer::{overwrite, min_nat, Buffer};
use crate::mark_log::MarkLog;
use crate::markable_reader::DEFAULT_MARKER_BUFFER_SIZE;
use crate::source::{is_suffix, lemma_suffix_skip, lemma_suffix_extend, ByteSource, ReadError};

verus! {

/// Size and limit of the read-ahead buffer unless given.
pub const DEFAULT_BUFFER_SIZE: usize = 8192;

/// Reads bytes from an inner source through a read-ahead buffer, so that
/// the source is asked for large chunks whatever the size of the reads
/// made here, with the ability to `mark` a position and to come back to it
/// with `reset`. While marked, reads are handed out as usual and also
/// recorded.
///
/// `fetched` is everything the inner source has produced so far; it ends
/// with what the log holds, followed by the read-ahead bytes.
pub struct BufferedMarkableReader<R> {
    inner: R,
    inner_complete: bool,
    log: MarkLog,
    read_buffer: Buffer,
    fetched: Ghost<Seq<u8>>,
}

impl<R: ByteSource> BufferedMarkableReader<R> {
    /// The end of the source is noted only once it is reached.
    closed spec fn source_ok(&self) -> bool {
        self.inner_complete ==> self.inner.remaining().len() == 0
    }

    /// The read-ahead buffer is bounded by the size of its store, which
    /// has room for at least one byte.
    closed spec fn read_buffer_ok(&self) -> bool {
        &&& self.read_buffer.wf()
        &&& self.read_buffer.limit() matches Some(c) && c == self.read_buffer.capacity()
        &&& self.read_buffer.capacity() >= 1
    }

    pub closed spec fn wf(&self) -> bool {
        &&& self.log.wf()
        &&& self.read_buffer_ok()
        &&& is_suffix(self.fetched@, self.log.recorded() + self.read_buffer@)
        &&& self.source_ok()
    }

    /// Everything the reader delivers: what the source produced so far and
    /// what it has still to produce.
    pub closed spec fn stream(&self) -> Seq<u8> {
        self.fetched@ + self.inner.remaining()
    }

    /// How much of the stream has been handed out.
    pub closed spec fn position(&self) -> nat {
        (self.fetched@.len() - self.log.queue_len() - self.read_buffer@.len()) as nat
    }

    pub closed spec fn is_marked(&self) -> bool {
        self.log.marked()
    }

    /// Where the stream was marked.
    pub closed spec fn mark_point(&self) -> nat {
        (self.position() - self.log.history().len()) as nat
    }

    /// Bytes put back by a `reset`, to be handed out before the read-ahead ones.
    pub closed spec fn queued(&self) -> nat {
        self.log.queue_len()
    }

    /// Bytes taken from the source and not yet handed out, after the queued ones.
    pub closed spec fn ahead(&self) -> nat {
        self.read_buffer@.len()
    }

    /// The size, and bound, of the read-ahead buffer.
    pub closed spec fn read_capacity(&self) -> nat {
        self.read_buffer.capacity()
    }

    /// Whether the source beneath may fail.
    pub closed spec fn fallible(&self) -> bool {
        self.inner.fallible()
    }

    /// Whether the inner source has reported its end.
    pub closed spec fn source_exhausted(&self) -> bool {
        self.inner_complete
    }

    /// The bound on the recorded bytes, if any.
    pub closed spec fn back_limit(&self) -> Option<usize> {
        self.log.limit()
    }

    /// The size the record's store may reach before it has to grow.
    pub closed spec fn back_capacity(&self) -> nat {
        self.log.capacity()
    }

    /// How many more bytes may be recorded (unbounded while unmarked).
    pub closed spec fn record_room(&self) -> nat {
        self.log.room()
    }

    pub closed spec fn source(&self) -> R {
        self.inner
    }

    pub proof fn lemma_bounds(&self)
        requires
            self.wf(),
        ensures
            self.is_marked() ==> self.mark_point() <= self.position(),
            self.is_marked() ==> self.queued() == 0,
            self.position() + self.queued() + self.ahead() <= self.stream().len(),
            self.source_exhausted() ==> self.position() + self.queued() + self.ahead()
                == self.stream().len(),
    {
        self.log.lemma_wf();
    }

    /// What a read into the region `b0` from index `offset` on does: it
    /// takes the reader from `a` to `b`, the region to `b1`, and returns `r`.
    ///
    /// The bytes handed out, at `offset` on, are the next bytes of the
    /// stream, queued ones first, then read-ahead ones; a read that comes
    /// short has emptied both. `EndOfStream` comes at the end of the stream;
    /// `CapacityExceeded`, with nothing handed out, when a marked read would
    /// pass the record's limit with the bytes it has; a fault only from a
    /// fallible source, with nothing handed out.
    pub open spec fn read_outcome(
        a: Self,
        b: Self,
        b0: Seq<u8>,
        b1: Seq<u8>,
        offset: nat,
        r: Result<usize, ReadError<R::Fault>>,
    ) -> bool {
        let m = b0.len() - offset;
        let moved = b.position() - a.position();
        &&& b1.len() == b0.len()
        &&& b.stream() == a.stream()
        &&& b.is_marked() == a.is_marked()
        &&& b.is_marked() ==> b.mark_point() == a.mark_point()
        &&& b.back_limit() == a.back_limit()
        &&& b.read_capacity() == a.read_capacity()
        &&& b.fallible() == a.fallible()
        &&& a.source_exhausted() ==> b.source_exhausted()
        &&& a.position() <= b.position() <= a.position() + m
        &&& b.position() <= b.stream().len()
        &&& b1 == overwrite(b0, offset as int, a.stream().subrange(a.position() as int, b.position() as int))
        &&& b.queued() == a.queued() - min_nat(moved as nat, a.queued())
        &&& b.is_marked() ==> b.record_room() + moved == a.record_room()
        &&& match r {
            Ok(n) => {
                &&& b.position() == a.position() + n
                &&& n >= min_nat(m as nat, a.queued() + a.ahead())
                &&& n < m ==> b.queued() == 0 && b.ahead() == 0
                &&& (a.is_marked() && n < m) ==> !b.source_exhausted()
                &&& m > 0 ==> n > 0
            },
            Err(ReadError::EndOfStream) => {
                &&& m > 0
                &&& b.position() == a.stream().len()
                &&& !a.is_marked() ==> b.position() == a.position()
                &&& a.is_marked() ==> b.position() < a.position() + m
            },
            Err(ReadError::CapacityExceeded) => {
                &&& m > 0
                &&& b.position() == a.position()
                &&& a.is_marked()
                &&& a.record_room() < min_nat(m as nat, b.ahead())
            },
            Err(ReadError::Fault(_)) => m > 0 && a.fallible() && b.position() == a.position(),
        }
        &&& (m > 0 && a.queued() == 0 && a.ahead() == 0 && a.source_exhausted())
            ==> (r matches Err(ReadError::EndOfStream))
        &&& (m > 0 && a.queued() >= m) ==> r is Ok
        &&& (!a.fallible() && a.position() < a.stream().len() && (!a.is_marked() || (m <= a.record_room()
            && a.position() + m <= a.stream().len()))) ==> r is Ok
    }

    /// A reader over `inner` with the given record and read-ahead buffer.
    /// A read-ahead buffer of no size would never let a byte through, so it
    /// holds at least one.
    fn with_buffers(inner: R, back_capacity: usize, back_limit: Option<usize>, read_capacity: usize) -> (r: Self)
        ensures
            r.wf(),
            r.stream() == inner.remaining(),
            r.fallible() == inner.fallible(),
            r.position() == 0,
            !r.is_marked(),
            r.queued() == 0,
            r.ahead() == 0,
            !r.source_exhausted(),
            r.back_limit() == back_limit,
            r.back_capacity() == back_capacity,
            r.read_capacity() == if read_capacity == 0 { 1 } else { read_capacity },
    {
        let size = if read_capacity == 0 {
            1
        } else {
            read_capacity
        };
        let r = BufferedMarkableReader {
            inner,
            inner_complete: false,
            log: MarkLog::new(back_capacity, back_limit),
            read_buffer: Buffer::new(size, Some(size)),
            fetched: Ghost(Seq::empty()),
        };
        proof {
            r.log.lemma_wf();
            assert(r.stream() =~= inner.remaining());
            assert(r.log.recorded() + r.read_buffer@ =~= Seq::<u8>::empty());
        }
        r
    }

    /// Creates a reader whose record of marked reads is unbounded, with a
    /// read-ahead buffer of the default size.
    pub fn new(inner: R) -> (r: Self)
        ensures
            r.wf(),
            r.stream() == inner.remaining(),
            r.fallible() == inner.fallible(),
            r.position() == 0,
            !r.is_marked(),
            r.queued() == 0,
            r.ahead() == 0,
            !r.source_exhausted(),
            r.back_limit() == None::<usize>,
            r.back_capacity() == DEFAULT_MARKER_BUFFER_SIZE,
            r.read_capacity() == DEFAULT_BUFFER_SIZE,
    {
        Self::with_buffers(inner, DEFAULT_MARKER_BUFFER_SIZE, None, DEFAULT_BUFFER_SIZE)
    }

    /// Creates a reader whose record of marked reads holds at most `limit`
    /// bytes, with a read-ahead buffer of the default size.
    pub fn new_with_limited_back_buffer(inner: R, limit: usize) -> (r: Self)
        ensures
            r.wf(),
            r.stream() == inner.remaining(),
            r.fallible() == inner.fallible(),
            r.position() == 0,
            !r.is_marked(),
            r.queued() == 0,
            r.ahead() == 0,
            !r.source_exhausted(),
            r.back_limit() == Some(limit),
            r.back_capacity() == DEFAULT_MARKER_BUFFER_SIZE,
            r.read_capacity() == DEFAULT_BUFFER_SIZE,
    {
        Self::with_buffers(inner, DEFAULT_MARKER_BUFFER_SIZE, Some(limit), DEFAULT_BUFFER_SIZE)
    }

    /// Creates a reader whose record of marked reads has room for, and holds
    /// at most, `back_buffer_capacity` bytes, and whose read-ahead buffer
    /// holds `reader_buffer_capacity` (at least one).
    pub fn new_with_capacity_and_limit(
        inner: R,
        back_buffer_capacity: usize,
        reader_buffer_capacity: usize,
    ) -> (r: Self)
        ensures
            r.wf(),
            r.stream() == inner.remaining(),
            r.fallible() == inner.fallible(),
            r.position() == 0,
            !r.is_marked(),
            r.queued() == 0,
            r.ahead() == 0,
            !r.source_exhausted(),
            r.back_limit() == Some(back_buffer_capacity),
            r.back_capacity() == back_buffer_capacity,
            r.read_capacity() == if reader_buffer_capacity == 0 { 1 } else { reader_buffer_capacity },
    {
        Self::with_buffers(
            inner,
            back_buffer_capacity,
            Some(back_buffer_capacity),
            reader_buffer_capacity,
        )
    }

    /// Gives the inner source back; what is buffered is lost. The source
    /// still has the stream from the end of the buffered bytes on.
    pub fn into_inner(self) -> (r: R)
        requires
            self.wf(),
        ensures
            r == self.source(),
            r.remaining() == self.stream().skip((self.position() + self.queued() + self.ahead()) as int),
    {
        proof {
            self.log.lemma_wf();
            assert((self.log.recorded() + self.read_buffer@).len() <= self.fetched@.len());
            assert(self.stream().skip(self.fetched@.len() as int) =~= self.inner.remaining());
        }
        self.inner
    }

    /// Marks the current position: from here on, reads are recorded. Every
    /// byte held in the record is dropped: what a previous mark recorded,
    /// and the queued bytes, which the stream then skips. Returns how many
    /// were dropped.
    pub fn mark(&mut self) -> (dropped: usize)
        requires
            old(self).wf(),
        ensures
            final(self).wf(),
            final(self).is_marked(),
            final(self).position() == old(self).position() + old(self).queued(),
            final(self).mark_point() == final(self).position(),
            final(self).queued() == 0,
            final(self).ahead() == old(self).ahead(),
            final(self).stream() == old(self).stream(),
            final(self).fallible() == old(self).fallible(),
            final(self).back_limit() == old(self).back_limit(),
            final(self).record_room() == match old(self).back_limit() {
                Some(l) => l as nat,
                None => usize::MAX as nat,
            },
            final(self).read_capacity() == old(self).read_capacity(),
            final(self).source_exhausted() == old(self).source_exhausted(),
            dropped == old(self).queued() + if old(self).is_marked() {
                old(self).position() - old(self).mark_point()
            } else {
                0
            },
    {
        proof {
            self.log.lemma_wf();
        }
        let ghost rec = self.log.recorded();
        let dropped = self.log.mark();
        proof {
            self.log.lemma_wf();
            lemma_suffix_skip(self.fetched@, rec + self.read_buffer@, rec.len() as int);
            assert((rec + self.read_buffer@).skip(rec.len() as int) =~= self.log.recorded() + self.read_buffer@);
        }
        dropped
    }

    /// Returns to the marked position and stops recording; the bytes from
    /// there on are handed out again. Without a mark, nothing changes.
    pub fn reset(&mut self)
        requires
            old(self).wf(),
        ensures
            final(self).wf(),
            !final(self).is_marked(),
            final(self).stream() == old(self).stream(),
            final(self).ahead() == old(self).ahead(),
            final(self).fallible() == old(self).fallible(),
            final(self).back_limit() == old(self).back_limit(),
            final(self).read_capacity() == old(self).read_capacity(),
            final(self).source_exhausted() == old(self).source_exhausted(),
            old(self).is_marked() ==> final(self).position() == old(self).mark_point(),
            old(self).is_marked() ==> final(self).queued() == old(self).queued() + old(self).position()
                - old(self).mark_point(),
            !old(self).is_marked() ==> *final(self) == *old(self),
    {
        proof {
            self.log.lemma_wf();
        }
        self.log.reset();
        proof {
            self.log.lemma_wf();
        }
    }

    /// Drops every recorded byte, the queued ones too, and stops recording.
    pub fn clear_buffer(&mut self)
        requires
            old(self).wf(),
        ensures
            final(self).wf(),
            !final(self).is_marked(),
            final(self).stream() == old(self).stream(),
            final(self).position() == old(self).position() + old(self).queued(),
            final(self).queued() == 0,
            final(self).ahead() == old(self).ahead(),
            final(self).fallible() == old(self).fallible(),
            final(self).back_limit() == old(self).back_limit(),
            final(self).read_capacity() == old(self).read_capacity(),
            final(self).source_exhausted() == old(self).source_exhausted(),
    {
        proof {
            self.log.lemma_wf();
        }
        let ghost rec = self.log.recorded();
        self.log.clear();
        proof {
            self.log.lemma_wf();
            lemma_suffix_skip(self.fetched@, rec + self.read_buffer@, rec.len() as int);
            assert((rec + self.read_buffer@).skip(rec.len() as int) =~= self.log.recorded() + self.read_buffer@);
        }
    }

    /// Asks the inner source once for as many bytes as the read-ahead
    /// buffer has room for, and appends what comes. Notes the end of the
    /// source when it hands out nothing.
    fn fill_read_buffer(&mut self) -> (r: Result<(), R::Fault>)
        requires
            old(self).wf(),
            !old(self).inner_complete,
        ensures
            final(self).wf(),
            final(self).stream() == old(self).stream(),
            final(self).log == old(self).log,
            final(self).inner.fallible() == old(self).inner.fallible(),
            final(self).read_buffer.capacity() == old(self).read_buffer.capacity(),
            final(self).position() == old(self).position(),
            final(self).read_buffer@.len() >= old(self).read_buffer@.len(),
            (final(self).read_buffer@.len() == old(self).read_buffer@.len()
                && old(self).read_buffer.available() > 0 && r is Ok) ==> final(self).inner_complete,
            r is Err ==> old(self).inner.fallible() && !final(self).inner_complete,
    {
        let read_length = self.read_buffer.get_available_space();
        if read_length == 0 {
            return Ok(());
        }
        let mut chunk: Vec<u8> = vec![0u8; read_length];
        let ghost rem0 = self.inner.remaining();
        let got = match self.inner.read(chunk.as_mut_slice()) {
            Ok(got) => got,
            Err(e) => {
                return Err(e);
            },
        };
        proof {
            self.read_buffer.lemma_wf();
        }
        if got == 0 {
            self.inner_complete = true;
            proof {
                assert(self.inner.remaining() =~= rem0) by {
                    assert(chunk@.take(0) =~= Seq::<u8>::empty());
                    assert(chunk@.take(0) + self.inner.remaining() =~= self.inner.remaining());
                }
            }
            return Ok(());
        }
        let ghost fresh = chunk@.take(got as int);
        let ghost a0 = self.read_buffer@;
        let ghost rec = self.log.recorded();
        let ghost f0 = self.fetched@;
        let _ = self.read_buffer.append(&chunk.as_slice()[0..got]);
        proof {
            self.fetched@ = self.fetched@ + fresh;
            assert(self.stream() =~= old(self).stream());
            lemma_suffix_extend(f0, rec + a0, fresh);
            assert(rec + a0 + fresh =~= rec + self.read_buffer@);
        }
        Ok(())
    }

    /// Takes `count` bytes from the read-ahead buffer into `buf` from index
    /// `offset` on.
    fn fill_from_read_buffer(&mut self, buf: &mut [u8], offset: usize, count: usize)
        requires
            old(self).read_buffer_ok(),
            count <= old(self).read_buffer@.len(),
            offset + count <= old(buf)@.len(),
        ensures
            final(self).read_buffer_ok(),
            final(self).read_buffer@ == old(self).read_buffer@.skip(count as int),
            final(self).read_buffer.capacity() == old(self).read_buffer.capacity(),
            final(buf)@ == overwrite(old(buf)@, offset as int, old(self).read_buffer@.take(count as int)),
            final(self).inner == old(self).inner,
            final(self).inner_complete == old(self).inner_complete,
            final(self).log == old(self).log,
            final(self).fetched == old(self).fetched,
    {
        let _ = self.read_buffer.take_into(buf, offset, count);
    }

    /// Takes `count` bytes from the read-ahead buffer into `buf` from index
    /// `offset` on, and records them if marked.
    fn read_data_into_buf_and_marked_stream(&mut self, buf: &mut [u8], offset: usize, count: usize)
        requires
            old(self).wf(),
            old(self).log.queue_len() == 0,
            count <= old(self).log.room(),
            count <= old(self).read_buffer@.len(),
            offset + count <= old(buf)@.len(),
        ensures
            final(self).wf(),
            final(self).stream() == old(self).stream(),
            final(self).log.marked() == old(self).log.marked(),
            final(self).log.limit() == old(self).log.limit(),
            final(self).log.queue_len() == 0,
            final(self).inner.fallible() == old(self).inner.fallible(),
            final(self).inner_complete == old(self).inner_complete,
            final(self).read_capacity() == old(self).read_capacity(),
            final(self).read_buffer@.len() == old(self).read_buffer@.len() - count,
            final(self).is_marked() ==> final(self).mark_point() == old(self).mark_point(),
            final(self).is_marked() ==> final(self).log.recorded().len() == old(self).log.recorded().len() + count,
            final(buf)@ == overwrite(
                old(buf)@,
                offset as int,
                old(self).stream().subrange(old(self).position() as int, old(self).position() + count),
            ),
            final(self).position() == old(self).position() + count,
    {
        proof {
            self.log.lemma_wf();
        }
        let blen = buf.len();
        let ghost f = self.fetched@;
        let ghost a0 = self.read_buffer@;
        let ghost rec0 = self.log.recorded();
        proof {
            assert(a0.take(count as int) =~= self.stream().subrange(self.position() as int, self.position() + count)) by {
                assert(f.skip(f.len() - (rec0 + a0).len()) == rec0 + a0);
                assert forall|j: int| 0 <= j < count implies a0[j] == self.stream()[self.position() + j] by {
                    assert((rec0 + a0)[rec0.len() + j] == a0[j]);
                }
            }
        }
        self.fill_from_read_buffer(buf, offset, count);
        self.log.record(&buf[offset..offset + count]);
        proof {
            self.log.lemma_wf();
            assert(buf@.subrange(offset as int, offset + count) =~= a0.take(count as int));
            if old(self).log.marked() {
                assert(rec0 + a0 =~= self.log.recorded() + self.read_buffer@);
            } else {
                lemma_suffix_skip(f, rec0 + a0, count as int);
                assert((rec0 + a0).skip(count as int) =~= self.log.recorded() + self.read_buffer@);
            }
        }
    }

    /// Fills `buf` from index `offset` on: queued bytes first, then bytes
    /// through the read-ahead buffer, refilled once where the two hold fewer
    /// than asked; recorded if marked. Returns how many were placed.
    fn read_into_buf(&mut self, buf: &mut [u8], offset: usize) -> (r: Result<usize, ReadError<R::Fault>>)
        requires
            old(self).wf(),
            offset <= old(buf)@.len(),
        ensures
            final(self).wf(),
            Self::read_outcome(*old(self), *final(self), old(buf)@, final(buf)@, offset as nat, r),
    {
        let len = buf.len();
        proof {
            self.lemma_bounds();
        }
        if offset == len {
            proof {
                assert(buf@ =~= overwrite(buf@, offset as int, self.stream().subrange(self.position() as int, self.position() as int)));
            }
            return Ok(0);
        }
        let m = len - offset;
        let q = self.log.queued();
        if q == 0 && self.read_buffer.len() == 0 && self.inner_complete {
            proof {
                assert(buf@ =~= overwrite(buf@, offset as int, self.stream().subrange(self.position() as int, self.position() as int)));
            }
            return Err(ReadError::EndOfStream);
        }
        if q < m && self.read_buffer.len() < m - q && !self.inner_complete {
            match self.fill_read_buffer() {
                Ok(()) => {},
                Err(e) => {
                    proof {
                        assert(buf@ =~= overwrite(buf@, offset as int, self.stream().subrange(self.position() as int, self.position() as int)));
                    }
                    return Err(ReadError::Fault(e));
                },
            }
        }
        proof {
            self.lemma_bounds();
        }
        let ahead = self.read_buffer.len();
        let live = if q < m {
            if m - q < ahead {
                m - q
            } else {
                ahead
            }
        } else {
            0
        };
        if !self.log.fits(live) {
            proof {
                assert(buf@ =~= overwrite(buf@, offset as int, self.stream().subrange(self.position() as int, self.position() as int)));
            }
            return Err(ReadError::CapacityExceeded);
        }
        let n = self.hand_out(buf, offset, live);
        proof {
            self.lemma_bounds();
        }
        if n == 0 {
            Err(ReadError::EndOfStream)
        } else if self.log.is_marked() && n < m && self.inner_complete {
            Err(ReadError::EndOfStream)
        } else {
            Ok(n)
        }
    }

    /// Hands out the queued bytes, as many as fit, then `live` read-ahead
    /// bytes, into `buf` from index `offset` on, recording the latter if
    /// marked. Returns how many were placed.
    fn hand_out(&mut self, buf: &mut [u8], offset: usize, live: usize) -> (n: usize)
        requires
            old(self).wf(),
            offset <= old(buf)@.len(),
            live <= old(self).read_buffer@.len(),
            live <= old(self).log.room(),
            live > 0 ==> old(self).log.queue_len() + live <= old(buf)@.len() - offset,
        ensures
            final(self).wf(),
            final(self).stream() == old(self).stream(),
            final(self).is_marked() == old(self).is_marked(),
            final(self).is_marked() ==> final(self).mark_point() == old(self).mark_point(),
            final(self).is_marked() ==> final(self).record_room() + n == old(self).record_room(),
            final(self).back_limit() == old(self).back_limit(),
            final(self).fallible() == old(self).fallible(),
            final(self).inner_complete == old(self).inner_complete,
            final(self).read_capacity() == old(self).read_capacity(),
            n == min_nat(old(self).queued(), (old(buf)@.len() - offset) as nat) + live,
            final(buf)@ == overwrite(
                old(buf)@,
                offset as int,
                old(self).stream().subrange(old(self).position() as int, old(self).position() + n),
            ),
            final(self).position() == old(self).position() + n,
            final(self).queued() == old(self).queued() - min_nat(old(self).queued(), (old(buf)@.len() - offset) as nat),
            final(self).ahead() == old(self).ahead() - live,
    {
        proof {
            self.lemma_bounds();
            self.log.lemma_wf();
            let qs = self.log.queue();
            let f = self.fetched@;
            let rec = self.log.recorded();
            let a = self.read_buffer@;
            assert(qs =~= self.stream().subrange(self.position() as int, (self.position() + qs.len()) as int)) by {
                assert(f.skip(f.len() - (rec + a).len()) == rec + a);
                assert forall|j: int| 0 <= j < qs.len() implies qs[j] == self.stream()[self.position() + j] by {
                    assert(qs[j] == rec[rec.len() - self.log.queue_len() + j]);
                    assert((rec + a)[rec.len() - self.log.queue_len() + j] == rec[rec.len() - self.log.queue_len() + j]);
                }
            }
        }
        let ghost st = self.stream();
        let ghost pos0 = self.position();
        let ghost q0 = self.log.queue();
        let ghost b0 = buf@;
        let ghost rec0 = self.log.recorded();
        let blen = buf.len();
        let from_queue = self.log.take_queued(buf, offset);
        proof {
            self.log.lemma_wf();
            lemma_suffix_skip(self.fetched@, rec0 + self.read_buffer@, from_queue as int);
            assert((rec0 + self.read_buffer@).skip(from_queue as int) =~= self.log.recorded() + self.read_buffer@);
            assert(q0.take(from_queue as int) =~= st.subrange(pos0 as int, pos0 + from_queue));
        }
        if live > 0 {
            self.read_data_into_buf_and_marked_stream(buf, offset + from_queue, live);
        }
        proof {
            self.log.lemma_wf();
            assert(buf@ =~= overwrite(b0, offset as int, st.subrange(pos0 as int, pos0 + from_queue + live)));
        }
        from_queue + live
    }

    /// Reads into `buf`: queued bytes first, then bytes through the
    /// read-ahead buffer, recorded if marked. Returns how many were placed,
    /// at the front of `buf`; see `read_outcome`.
    pub fn read(&mut self, buf: &mut [u8]) -> (r: Result<usize, ReadError<R::Fault>>)
        requires
            old(self).wf(),
        ensures
            final(self).wf(),
            Self::read_outcome(*old(self), *final(self), old(buf)@, final(buf)@, 0, r),
    {
        self.read_into_buf(buf, 0)
    }

    /// Fills the whole of `buf`, reading as often as it takes. On an error,
    /// the bytes placed before it stay handed out, at the front of `buf`.
    pub fn read_exact(&mut self, buf: &mut [u8]) -> (r: Result<(), ReadError<R::Fault>>)
        requires
            old(self).wf(),
        ensures
            final(self).wf(),
            final(self).stream() == old(self).stream(),
            final(self).is_marked() == old(self).is_marked(),
            final(self).is_marked() ==> final(self).mark_point() == old(self).mark_point(),
            final(self).back_limit() == old(self).back_limit(),
            final(self).read_capacity() == old(self).read_capacity(),
            final(self).fallible() == old(self).fallible(),
            final(buf)@.len() == old(buf)@.len(),
            old(self).position() <= final(self).position() <= old(self).position() + old(buf)@.len(),
            final(buf)@.take(final(self).position() - old(self).position()) == old(self).stream().subrange(
                old(self).position() as int,
                final(self).position() as int,
            ),
            r is Ok ==> final(self).position() == old(self).position() + old(buf)@.len(),
            r matches Err(ReadError::EndOfStream) ==> final(self).position() == old(self).stream().len(),
            r matches Err(ReadError::CapacityExceeded) ==> final(self).is_marked() && final(self).record_room()
                < old(self).position() + old(buf)@.len() - final(self).position(),
            r matches Err(ReadError::Fault(_)) ==> old(self).fallible(),
            final(self).queued() == old(self).queued() - min_nat(
                (final(self).position() - old(self).position()) as nat,
                old(self).queued(),
            ),
            old(self).queued() >= old(buf)@.len() ==> r is Ok,
            !old(self).fallible() && old(self).position() + old(buf)@.len() <= old(self).stream().len()
                && (!old(self).is_marked() || old(buf)@.len() <= old(self).record_room()) ==> r is Ok,
    {
        let len = buf.len();
        let ghost st = self.stream();
        let ghost pos0 = self.position();
        let mut filled: usize = 0;
        proof {
            self.lemma_bounds();
            assert(buf@.take(0) =~= st.subrange(pos0 as int, pos0 as int));
        }
        while filled < len
            invariant
                self.wf(),
                self.stream() == st,
                self.is_marked() == old(self).is_marked(),
                self.is_marked() ==> self.mark_point() == old(self).mark_point(),
                self.is_marked() ==> self.record_room() + filled == old(self).record_room(),
                self.queued() == old(self).queued() - min_nat(filled as nat, old(self).queued()),
                self.back_limit() == old(self).back_limit(),
                self.read_capacity() == old(self).read_capacity(),
                self.fallible() == old(self).fallible(),
                st == old(self).stream(),
                pos0 == old(self).position(),
                buf@.len() == len,
                len == old(buf)@.len(),
                filled <= len,
                self.position() == pos0 + filled,
                buf@.take(filled as int) == st.subrange(pos0 as int, pos0 + filled),
            decreases len - filled,
        {
            let ghost b = buf@;
            let ghost before = *self;
            let res = self.read_into_buf(buf, filled);
            proof {
                self.lemma_bounds();
                let moved = self.position() - before.position();
                assert(buf@.take(filled + moved) =~= st.subrange(pos0 as int, pos0 + filled + moved)) by {
                    assert forall|j: int| 0 <= j < filled + moved implies buf@[j] == st[pos0 + j] by {
                        if j < filled {
                            assert(buf@[j] == b[j]);
                            assert(b.take(filled as int)[j] == b[j]);
                        }
                    }
                }
            }
            match res {
                Ok(n) => {
                    filled = filled + n;
                },
                Err(e) => {
                    return Err(e);
                },
            }
        }
        Ok(())
    }
}

} // verus!
