use vstd::prelude::*;
use crate::laws::{apply_op, BufferOp};

verus! {

/// The sequence `dest` with `src` written over it from index `at` on;
/// what would fall beyond the end of `dest` is left out.
pub open spec fn overwrite(dest: Seq<u8>, at: int, src: Seq<u8>) -> Seq<u8> {
    Seq::new(
        dest.len(),
        |i: int|
            if at <= i < at + src.len() {
                src[i - at]
            } else {
                dest[i]
            },
    )
}

pub open spec fn min_nat(a: nat, b: nat) -> nat {
    if a <= b {
        a
    } else {
        b
    }
}

/// An append was refused: it would have taken the pending bytes past the limit.
#[derive(Debug, PartialEq, Eq, Structural)]
pub struct CapacityExceeded;

/// A growable FIFO of bytes with a read cursor and an optional limit on the
/// number of pending (written, not yet read) bytes.
///
/// The store is `buffer`; `buffer[0..pos]` has been read already and is
/// reclaimed by compaction when an append needs room, `buffer[pos..]` is
/// pending. `capacity` is the size the store may reach without growing.
pub struct Buffer {
    pos: usize,
    capacity: usize,
    buffer_limit: Option<usize>,
    buffer: Vec<u8>,
}

impl View for Buffer {
    type V = Seq<u8>;

    /// The pending bytes, oldest first.
    closed spec fn view(&self) -> Seq<u8> {
        self.buffer@.skip(self.pos as int)
    }
}

impl Buffer {
    pub closed spec fn wf(&self) -> bool {
        &&& self.pos <= self.buffer@.len() <= self.capacity
        &&& self.buffer_limit matches Some(l) ==> self@.len() <= l
    }

    /// The bound on the number of pending bytes, if any.
    pub closed spec fn limit(&self) -> Option<usize> {
        self.buffer_limit
    }

    /// The size the store may reach before it has to grow.
    pub closed spec fn capacity(&self) -> nat {
        self.capacity as nat
    }

    /// Bytes held in the store, the read ones included.
    pub closed spec fn store_len(&self) -> nat {
        self.buffer@.len()
    }

    /// Room for new bytes without growing the store: the unused tail plus
    /// the read prefix that compaction would reclaim.
    pub open spec fn available(&self) -> nat {
        (self.capacity() - self.store_len() + self.store_len() - self@.len()) as nat
    }

    /// Whether appending `size` bytes would take the pending bytes past the limit.
    pub open spec fn exceeds_limit(&self, size: nat) -> bool {
        self.limit() matches Some(l) && self@.len() + size > l
    }

    pub proof fn lemma_wf(&self)
        requires
            self.wf(),
        ensures
            self@.len() <= self.store_len() <= self.capacity() <= usize::MAX,
            self.limit() matches Some(l) ==> self@.len() <= l,
    {
    }

    /// Creates a buffer whose store starts with room for `buffer_size` bytes,
    /// bounded by `buffer_limit` pending bytes if that is given.
    pub fn new(buffer_size: usize, buffer_limit: Option<usize>) -> (b: Buffer)
        ensures
            b.wf(),
            b@ == Seq::<u8>::empty(),
            b.limit() == buffer_limit,
            b.capacity() == buffer_size,
            b.store_len() == 0,
    {
        Buffer { pos: 0, capacity: buffer_size, buffer_limit, buffer: Vec::with_capacity(buffer_size) }
    }

    /// Drops every pending byte and returns how many were dropped.
    pub fn clear(&mut self) -> (dropped: usize)
        requires
            old(self).wf(),
        ensures
            final(self).wf(),
            dropped == old(self)@.len(),
            final(self)@ == Seq::<u8>::empty(),
            final(self).store_len() == 0,
            final(self).limit() == old(self).limit(),
            final(self).capacity() == old(self).capacity(),
    {
        let dropped = self.buffer.len() - self.pos;
        self.pos = 0;
        self.buffer.clear();
        dropped
    }

    /// Moves pending bytes into `buf` from index `offset` on, as many as both
    /// have, and returns how many were moved.
    pub fn read_into(&mut self, buf: &mut [u8], offset: usize) -> (n: usize)
        requires
            old(self).wf(),
        ensures
            final(self).wf(),
            n == min_nat(old(self)@.len(), (old(buf)@.len() - min_nat(offset as nat, old(buf)@.len()))  as nat),
            final(buf)@ == overwrite(old(buf)@, offset as int, old(self)@.take(n as int)),
            final(self)@ == old(self)@.skip(n as int),
            (final(self)@, old(self)@.take(n as int)) == apply_op(
                old(self)@,
                BufferOp::Read((old(buf)@.len() - min_nat(offset as nat, old(buf)@.len())) as nat),
            ),
            final(self).limit() == old(self).limit(),
            final(self).capacity() == old(self).capacity(),
            final(self).store_len() == old(self).store_len(),
    {
        let max = buf.len();
        self.take_into(buf, offset, max)
    }

    /// Moves at most `max` pending bytes into `buf` from index `offset` on,
    /// as many as both have, and returns how many were moved.
    pub fn take_into(&mut self, buf: &mut [u8], offset: usize, max: usize) -> (n: usize)
        requires
            old(self).wf(),
        ensures
            final(self).wf(),
            n == min_nat(min_nat(old(self)@.len(), (old(buf)@.len() - min_nat(offset as nat, old(buf)@.len()))  as nat), max as nat),
            final(buf)@ == overwrite(old(buf)@, offset as int, old(self)@.take(n as int)),
            final(self)@ == old(self)@.skip(n as int),
            final(self).limit() == old(self).limit(),
            final(self).capacity() == old(self).capacity(),
            final(self).store_len() == old(self).store_len(),
    {
        let n = self.copy_into(buf, offset, 0, max);
        self.pos = self.pos + n;
        proof {
            assert(self@ =~= old(self)@.skip(n as int));
        }
        n
    }

    /// Copies at most `max` pending bytes, from the `skip`-th on, into `buf`
    /// from index `offset` on, as many as both have, and returns how many
    /// were copied. The buffer itself is left as it was.
    pub fn copy_into(&self, buf: &mut [u8], offset: usize, skip: usize, max: usize) -> (n: usize)
        requires
            self.wf(),
            skip <= self@.len(),
        ensures
            n == min_nat(min_nat((self@.len() - skip) as nat, (old(buf)@.len() - min_nat(offset as nat, old(buf)@.len()))  as nat), max as nat),
            final(buf)@ == overwrite(old(buf)@, offset as int, self@.subrange(skip as int, skip + n)),
    {
        let blen = buf.len();
        let requested = if offset < blen {
            buf.len() - offset
        } else {
            0
        };
        let pending = self.buffer.len() - self.pos - skip;
        let fits = if pending < requested {
            pending
        } else {
            requested
        };
        let n = if fits < max {
            fits
        } else {
            max
        };
        let start = self.pos + skip;
        let ghost b0 = buf@;
        let mut i: usize = 0;
        while i < n
            invariant
                n <= pending,
                n <= requested,
                requested == 0 || offset + requested == blen,
                blen == b0.len(),
                start + pending == self.buffer@.len(),
                start == self.pos + skip,
                self.wf(),
                i <= n,
                buf@.len() == b0.len(),
                forall|j: int|
                    0 <= j < b0.len() ==> #[trigger] buf@[j] == if offset <= j < offset + i {
                        self.buffer@[start + j - offset]
                    } else {
                        b0[j]
                    },
            decreases n - i,
        {
            buf[offset + i] = self.buffer[start + i];
            i = i + 1;
        }
        assert(buf@ =~= overwrite(b0, offset as int, self@.subrange(skip as int, skip + n)));
        n
    }

    /// Marks the first `count` pending bytes as read.
    pub fn discard(&mut self, count: usize)
        requires
            old(self).wf(),
            count <= old(self)@.len(),
        ensures
            final(self).wf(),
            final(self)@ == old(self)@.skip(count as int),
            final(self).limit() == old(self).limit(),
            final(self).capacity() == old(self).capacity(),
            final(self).store_len() == old(self).store_len(),
    {
        self.pos = self.pos + count;
        assert(self@ =~= old(self)@.skip(count as int));
    }

    /// Appends `bytes` after the pending ones. Refused, with the buffer left
    /// as it was, when that would take the pending bytes past the limit.
    /// Where the unused tail of the store is too short, the read prefix is
    /// dropped first; the store grows only if that is still not enough.
    pub fn append(&mut self, bytes: &[u8]) -> (r: Result<(), CapacityExceeded>)
        requires
            old(self).wf(),
            old(self)@.len() + bytes@.len() <= usize::MAX,
        ensures
            final(self).wf(),
            r is Err <==> old(self).exceeds_limit(bytes@.len()),
            r is Err ==> *final(self) == *old(self),
            r is Ok ==> final(self)@ == old(self)@ + bytes@,
            r is Ok ==> final(self)@ == apply_op(old(self)@, BufferOp::Write(bytes@)).0,
            final(self).limit() == old(self).limit(),
            r is Ok ==> final(self).capacity() == if old(self)@.len() + bytes@.len() <= old(
                self,
            ).capacity() {
                old(self).capacity()
            } else {
                old(self)@.len() + bytes@.len()
            },
    {
        if self.size_exceeds_capacity(bytes.len()) {
            return Err(CapacityExceeded);
        }
        self.prepare_for_bytes(bytes.len());
        let ghost before = self@;
        let mut i: usize = 0;
        while i < bytes.len()
            invariant
                self.pos <= self.buffer@.len(),
                self.buffer@.len() == self.pos + before.len() + i,
                self.pos + before.len() + bytes@.len() <= usize::MAX,
                self@ == before + bytes@.take(i as int),
                i <= bytes@.len(),
                self.buffer_limit == old(self).buffer_limit,
                self.capacity == old(self).capacity,
                before == old(self)@,
                self.pos == 0 || self.pos + before.len() + bytes@.len() <= self.capacity,
            decreases bytes@.len() - i,
        {
            let ghost prev = self.buffer@;
            self.buffer.push(bytes[i]);
            assert(self.buffer@ == prev.push(bytes@[i as int]));
            i = i + 1;
            assert(self@ =~= before + bytes@.take(i as int)) by {
                assert(self.buffer@.skip(self.pos as int) =~= prev.skip(self.pos as int).push(
                    bytes@[i - 1],
                ));
                assert(bytes@.take(i as int) =~= bytes@.take(i - 1).push(bytes@[i - 1]));
            }
        }
        assert(bytes@.take(bytes@.len() as int) =~= bytes@);
        if self.buffer.len() > self.capacity {
            self.capacity = self.buffer.len();
        }
        Ok(())
    }

    /// Whether `size` more bytes would take the pending bytes past the limit.
    fn size_exceeds_capacity(&self, size: usize) -> (r: bool)
        requires
            self.wf(),
        ensures
            r == self.exceeds_limit(size as nat),
    {
        let used_space = self.len();
        match self.buffer_limit {
            Some(limit) => size > limit - used_space,
            None => false,
        }
    }

    /// The bound on the number of pending bytes, if any.
    pub fn limit_value(&self) -> (r: Option<usize>)
        ensures
            r == self.limit(),
    {
        self.buffer_limit
    }

    /// The number of pending bytes.
    pub fn len(&self) -> (r: usize)
        requires
            self.wf(),
        ensures
            r == self@.len(),
    {
        self.buffer.len() - self.pos
    }

    /// The room for new bytes that the store has without growing.
    pub fn get_available_space(&self) -> (r: usize)
        requires
            self.wf(),
        ensures
            r == self.available(),
    {
        (self.capacity - self.buffer.len()) + self.pos
    }

    /// Makes room for `byte_size` more bytes: where the unused tail is too
    /// short, the read prefix is dropped and the pending bytes moved to the
    /// front of the store.
    fn prepare_for_bytes(&mut self, byte_size: usize)
        requires
            old(self).wf(),
            old(self)@.len() + byte_size <= usize::MAX,
        ensures
            final(self).wf(),
            final(self)@ == old(self)@,
            final(self).limit() == old(self).limit(),
            final(self).capacity() == old(self).capacity(),
            final(self).pos == 0 || final(self).buffer@.len() + byte_size <= final(self).capacity,
            old(self).store_len() + byte_size > old(self).capacity() ==> final(self).pos == 0
                && final(self).store_len() == old(self)@.len(),
            old(self).store_len() + byte_size <= old(self).capacity() ==> *final(self) == *old(self),
    {
        if byte_size > self.capacity - self.buffer.len() {
            let p = self.pos;
            let len = self.buffer.len();
            let ghost old_store = self.buffer@;
            let mut i: usize = 0;
            while i < len - p
                invariant
                    p <= len,
                    p == self.pos,
                    len == old_store.len(),
                    self.buffer_limit == old(self).buffer_limit,
                    self.capacity == old(self).capacity,
                    len <= self.capacity,
                    self.buffer@.len() == len,
                    i <= len - p,
                    forall|j: int| 0 <= j < i ==> #[trigger] self.buffer@[j] == old_store[p + j],
                    forall|j: int| i <= j < len ==> #[trigger] self.buffer@[j] == old_store[j],
                decreases len - p - i,
            {
                let b = self.buffer[p + i];
                self.buffer[i] = b;
                i = i + 1;
            }
            self.buffer.truncate(len - p);
            self.pos = 0;
            assert(self@ =~= old(self)@);
        }
    }
}

} // verus!
