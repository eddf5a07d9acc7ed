use vstd::prelude::*;
use crate::buffer::min_nat;

verus! {

/// One operation on a buffer, as far as its pending bytes go.
pub enum BufferOp {
    /// An append that was not refused.
    Write(Seq<u8>),
    /// A read into a region of the given length.
    Read(nat),
}

/// The pending bytes after `op`, and the bytes it read out, as the
/// contracts of `Buffer::append` and `Buffer::read_into` give them.
pub open spec fn apply_op(pending: Seq<u8>, op: BufferOp) -> (Seq<u8>, Seq<u8>) {
    match op {
        BufferOp::Write(bytes) => (pending + bytes, Seq::empty()),
        BufferOp::Read(room) => {
            let n = min_nat(pending.len(), room);
            (pending.skip(n as int), pending.take(n as int))
        },
    }
}

/// The pending bytes after `ops`, and everything they read out, in order.
pub open spec fn run_ops(pending: Seq<u8>, ops: Seq<BufferOp>) -> (Seq<u8>, Seq<u8>)
    decreases ops.len(),
{
    if ops.len() == 0 {
        (pending, Seq::empty())
    } else {
        let before = run_ops(pending, ops.drop_last());
        let step = apply_op(before.0, ops.last());
        (step.0, before.1 + step.1)
    }
}

/// Everything `ops` wrote, in order.
pub open spec fn written(ops: Seq<BufferOp>) -> Seq<u8>
    decreases ops.len(),
{
    if ops.len() == 0 {
        Seq::empty()
    } else {
        written(ops.drop_last()) + match ops.last() {
            BufferOp::Write(bytes) => bytes,
            BufferOp::Read(_) => Seq::empty(),
        }
    }
}

/// A buffer is first in, first out: over any run of appends and reads from
/// an empty buffer, what was read, followed by what is still pending, is
/// exactly what was written, in the order it was written.
pub proof fn buffer_round_trip(ops: Seq<BufferOp>)
    ensures
        run_ops(Seq::empty(), ops).1 + run_ops(Seq::empty(), ops).0 == written(ops),
    decreases ops.len(),
{
    if ops.len() == 0 {
        assert(Seq::<u8>::empty() + Seq::<u8>::empty() =~= Seq::<u8>::empty());
    } else {
        let rest = ops.drop_last();
        buffer_round_trip(rest);
        let before = run_ops(Seq::empty(), rest);
        match ops.last() {
            BufferOp::Write(bytes) => {
                assert(before.1 + Seq::<u8>::empty() + (before.0 + bytes) =~= before.1 + before.0
                    + bytes);
            },
            BufferOp::Read(room) => {
                let n = min_nat(before.0.len(), room);
                assert(before.1 + before.0.take(n as int) + before.0.skip(n as int) =~= before.1
                    + before.0);
                assert(written(rest) + Seq::<u8>::empty() =~= written(rest));
            },
        }
    }
}

/// The total of the chunk sizes.
pub open spec fn total(sizes: Seq<nat>) -> nat
    decreases sizes.len(),
{
    if sizes.len() == 0 {
        0
    } else {
        total(sizes.drop_last()) + sizes.last()
    }
}

/// What successive reads hand out, from position `start` of `stream`, when
/// they return the given sizes: by the contract of `read`, each hands out
/// the next bytes of the stream.
pub open spec fn delivered(stream: Seq<u8>, start: nat, sizes: Seq<nat>) -> Seq<u8>
    decreases sizes.len(),
{
    if sizes.len() == 0 {
        Seq::empty()
    } else {
        let at = start + total(sizes.drop_last());
        delivered(stream, start, sizes.drop_last()) + stream.subrange(at as int, (at + sizes.last()) as int)
    }
}

/// Successive reads hand out the stream itself, from where they started,
/// whatever sizes the reads came in.
pub proof fn delivered_is_stream(stream: Seq<u8>, start: nat, sizes: Seq<nat>)
    requires
        start + total(sizes) <= stream.len(),
    ensures
        delivered(stream, start, sizes) == stream.subrange(start as int, (start + total(sizes)) as int),
    decreases sizes.len(),
{
    if sizes.len() == 0 {
        assert(stream.subrange(start as int, start as int) =~= Seq::<u8>::empty());
    } else {
        let rest = sizes.drop_last();
        delivered_is_stream(stream, start, rest);
        let at = start + total(rest);
        assert(stream.subrange(start as int, at as int) + stream.subrange(at as int, (at + sizes.last()) as int)
            =~= stream.subrange(start as int, (start + total(sizes)) as int));
    }
}

/// One more read extends what the reads handed out by exactly the bytes
/// the contract of `read` gives it: the next `n` bytes of the stream.
pub proof fn delivered_step(stream: Seq<u8>, start: nat, sizes: Seq<nat>, n: nat)
    ensures
        delivered(stream, start, sizes.push(n)) == delivered(stream, start, sizes) + stream.subrange(
            (start + total(sizes)) as int,
            (start + total(sizes) + n) as int,
        ),
{
    assert(sizes.push(n).drop_last() =~= sizes);
}

/// The chunking of reads cannot be observed: two runs of reads from the same
/// position that hand out the same number of bytes in chunks of different
/// sizes hand out the same bytes.
pub proof fn chunking_is_transparent(stream: Seq<u8>, start: nat, a: Seq<nat>, b: Seq<nat>)
    requires
        total(a) == total(b),
        start + total(a) <= stream.len(),
    ensures
        delivered(stream, start, a) == delivered(stream, start, b),
{
    delivered_is_stream(stream, start, a);
    delivered_is_stream(stream, start, b);
}

} // verus!
