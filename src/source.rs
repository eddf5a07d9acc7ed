use vstd::prelude::*;

verus! {

/// A sequential source of bytes, the capability a reader is built on.
///
/// Its model is `remaining`: the bytes it has still to produce, in order.
/// A read hands out a prefix of them; it hands out none, on a region that
/// is not empty, only once none are left. A fault leaves them as they were,
/// and only a source that is `fallible` ever reports one.
pub trait ByteSource {
    /// What the source reports when it cannot read.
    type Fault;

    spec fn remaining(&self) -> Seq<u8>;

    /// Whether a read may fail.
    spec fn fallible(&self) -> bool;

    /// Fills a prefix of `buf` with the next bytes and returns its length.
    fn read(&mut self, buf: &mut [u8]) -> (r: Result<usize, Self::Fault>)
        ensures
            final(buf)@.len() == old(buf)@.len(),
            final(self).fallible() == old(self).fallible(),
            r is Err ==> old(self).fallible(),
            match r {
                Ok(n) => {
                    &&& n <= old(buf)@.len()
                    &&& final(buf)@.take(n as int) + final(self).remaining() == old(
                        self,
                    ).remaining()
                    &&& final(buf)@.skip(n as int) == old(buf)@.skip(n as int)
                    &&& (n == 0 && old(buf)@.len() > 0) ==> old(self).remaining().len() == 0
                },
                Err(_) => final(self).remaining() == old(self).remaining(),
            },
    ;
}

/// Why a read handed out no bytes.
#[derive(Debug)]
pub enum ReadError<F> {
    /// The source has no more bytes, and nothing is buffered.
    EndOfStream,
    /// The bytes would have to be recorded, and the record is at its limit.
    CapacityExceeded,
    /// The source failed; its fault is passed on as it came.
    Fault(F),
}

/// Whether `t` is the tail end of `s`.
pub open spec fn is_suffix(s: Seq<u8>, t: Seq<u8>) -> bool {
    t.len() <= s.len() && s.skip(s.len() - t.len()) == t
}

pub proof fn lemma_suffix_skip(s: Seq<u8>, t: Seq<u8>, k: int)
    requires
        is_suffix(s, t),
        0 <= k <= t.len(),
    ensures
        is_suffix(s, t.skip(k)),
{
    assert(s.skip(s.len() - t.skip(k).len()) =~= t.skip(k));
}

pub proof fn lemma_suffix_extend(s: Seq<u8>, t: Seq<u8>, more: Seq<u8>)
    requires
        is_suffix(s, t),
    ensures
        is_suffix(s + more, t + more),
{
    assert((s + more).skip((s + more).len() - (t + more).len()) =~= t + more);
}

/// The fault of a source that cannot fail.
#[derive(Debug, PartialEq, Eq, Structural)]
pub struct NoFault;

/// A source over bytes held in memory.
pub struct MemorySource {
    data: Vec<u8>,
    pos: usize,
}

impl MemorySource {
    pub closed spec fn wf(&self) -> bool {
        self.pos <= self.data@.len()
    }

    /// Creates a source that produces `data`.
    pub fn new(data: Vec<u8>) -> (s: MemorySource)
        ensures
            s.remaining() == data@,
    {
        let s = MemorySource { data, pos: 0 };
        assert(s.data@.skip(0) =~= s.data@);
        s
    }
}

impl ByteSource for MemorySource {
    type Fault = NoFault;

    open spec fn fallible(&self) -> bool {
        false
    }

    closed spec fn remaining(&self) -> Seq<u8> {
        if self.pos <= self.data@.len() {
            self.data@.skip(self.pos as int)
        } else {
            Seq::empty()
        }
    }

    fn read(&mut self, buf: &mut [u8]) -> (r: Result<usize, NoFault>) {
        let dlen = self.data.len();
        let left = if self.pos < dlen {
            self.data.len() - self.pos
        } else {
            0
        };
        let n = if left < buf.len() {
            left
        } else {
            buf.len()
        };
        let ghost b0 = buf@;
        let ghost rest = self.remaining();
        let mut i: usize = 0;
        while i < n
            invariant
                n <= left,
                n <= b0.len(),
                left == 0 || self.pos + left == dlen,
                dlen == self.data@.len(),
                rest == self.remaining(),
                buf@.len() == b0.len(),
                i <= n,
                forall|j: int|
                    0 <= j < b0.len() ==> #[trigger] buf@[j] == if j < i {
                        rest[j]
                    } else {
                        b0[j]
                    },
            decreases n - i,
        {
            buf[i] = self.data[self.pos + i];
            i = i + 1;
        }
        if n > 0 {
            self.pos = self.pos + n;
        }
        assert(buf@.take(n as int) + self.remaining() =~= rest);
        assert(buf@.skip(n as int) =~= b0.skip(n as int));
        Ok(n)
    }
}

} // verus!
