//! Byte streams: the reading and writing interfaces of devices, terminal
//! sinks and sources, the placeholder device, and pipes.
use std::collections::VecDeque;
use vstd::prelude::*;

use crate::fs::{FSError, FSErrorKind, FSResult, NodeType};

verus! {

/// Something bytes can be read from, at an offset.
pub trait Read {
    fn read(&mut self, buf: &mut [u8], offset: usize) -> (r: FSResult<usize>)
        ensures
            final(buf)@.len() == old(buf)@.len(),
            r matches Ok(n) ==> n <= old(buf)@.len(),
    ;
}

/// Something bytes can be written to, at an offset.
pub trait Write {
    fn write(&mut self, buf: &[u8], offset: usize) -> (r: FSResult<usize>)
        ensures
            r matches Ok(n) ==> n <= buf@.len(),
    ;

    /// Writes all of `buf`, in as many writes as it takes, starting at
    /// `offset`; a write that takes nothing fails with `Other`.
    fn write_all(&mut self, buf: &[u8], offset: usize) -> (r: FSResult<()>)
        where
            Self: Sized,
        requires
            offset + buf@.len() <= usize::MAX,
        ensures
            r matches Err(e) ==> buf@.len() > 0,
            buf@.len() == 0 ==> r is Ok && *final(self) == *old(self),
    {
        let mut rest = buf;
        let mut at = offset;
        while rest.len() > 0
            invariant
                rest@.len() == buf@.len() ==> *self == *old(self),
                at + rest@.len() <= usize::MAX,
                rest@.len() <= buf@.len(),
                rest@.len() < buf@.len() || rest@ == buf@,
            decreases rest@.len(),
        {
            match self.write(rest, at) {
                Ok(0) => {
                    return Err(FSError::simple(FSErrorKind::Other));
                },
                Ok(n) => {
                    rest = vstd::slice::slice_subrange(rest, n, rest.len());
                    at = at + n;
                },
                Err(e) => {
                    return Err(e);
                },
            }
        }
        Ok(())
    }
}

/// Where a terminal's output goes.
pub trait TTYSink {
    fn write(&mut self, bytes: &[u8]);

    fn flush(&mut self);
}

/// Where a terminal's input comes from, a byte at a time.
pub trait TTYSource {
    fn read(&mut self) -> Option<u8>;

    /// Reads one byte into the front of `buf`: none when the source has
    /// nothing; a byte read into an empty buffer is lost and the call fails
    /// with `UnexpectedEOF`.
    fn read_buf(&mut self, buf: &mut [u8], offset: usize) -> (r: FSResult<usize>)
        ensures
            final(buf)@.len() == old(buf)@.len(),
            match r {
                Ok(n) => (n == 0 && final(buf)@ == old(buf)@) || (n == 1 && old(buf)@.len() >= 1
                    && final(buf)@.skip(1) == old(buf)@.skip(1)),
                Err(e) => e.kind_of() == FSErrorKind::UnexpectedEOF && old(buf)@.len() == 0
                    && final(buf)@ == old(buf)@,
            },
    {
        match self.read() {
            Some(r) => {
                if buf.len() == 0 {
                    return Err(FSError::simple(FSErrorKind::UnexpectedEOF));
                }
                let ghost before = buf@;
                buf[0] = r;
                proof {
                    assert(buf@.skip(1) =~= before.skip(1));
                }
                Ok(1)
            },
            None => Ok(0),
        }
    }
}

/// A placeholder device that does nothing.
#[derive(Clone, Copy, Debug, Default)]
pub struct Null;

impl Null {
    /// The placeholder is no kind of node.
    pub fn node_type(&self) -> (r: NodeType)
        ensures
            r == NodeType::Void,
    {
        NodeType::Void
    }
}

impl TTYSink for Null {
    fn write(&mut self, bytes: &[u8]) {
    }

    fn flush(&mut self) {
    }
}

impl TTYSource for Null {
    fn read(&mut self) -> (r: Option<u8>)
        ensures
            r is None,
    {
        None
    }
}

/// The buffer between the two ends of a pipe: bytes come out in the order
/// they went in.
pub struct PipeInternal {
    buf: VecDeque<u8>,
}

impl View for PipeInternal {
    type V = Seq<u8>;

    closed spec fn view(&self) -> Seq<u8> {
        self.buf@
    }
}

/// Writing appends to what the pipe holds.
pub open spec fn pipe_write_spec(held: Seq<u8>, data: Seq<u8>) -> Seq<u8> {
    held + data
}

/// How many bytes a read into `cap` bytes takes from a pipe holding `held`.
pub open spec fn pipe_take(held: Seq<u8>, cap: int) -> int {
    if cap < held.len() {
        cap
    } else {
        held.len() as int
    }
}

impl PipeInternal {
    /// An empty pipe.
    pub fn new() -> (r: Self)
        ensures
            r@ == Seq::<u8>::empty(),
    {
        PipeInternal { buf: VecDeque::new() }
    }

    /// The pipe is no kind of node.
    pub fn node_type(&self) -> (r: NodeType)
        ensures
            r == NodeType::Void,
    {
        NodeType::Void
    }
}

impl Write for PipeInternal {
    /// Appends all of `buf`; the offset is not used.
    fn write(&mut self, buf: &[u8], offset: usize) -> (r: FSResult<usize>)
        ensures
            final(self)@ == pipe_write_spec(old(self)@, buf@),
            r == Ok::<usize, FSError>(buf@.len() as usize),
    {
        let n = buf.len();
        let mut i: usize = 0;
        while i < n
            invariant
                n == buf@.len(),
                i <= n,
                self@ == old(self)@ + buf@.take(i as int),
            decreases n - i,
        {
            self.buf.push_back(buf[i]);
            proof {
                assert(self@ =~= old(self)@ + buf@.take(i + 1));
            }
            i = i + 1;
        }
        proof {
            assert(buf@.take(n as int) =~= buf@);
        }
        Ok(n)
    }
}

impl Read for PipeInternal {
    /// Moves the oldest bytes, as many as fit, to the front of `buf`; the
    /// offset is not used.
    fn read(&mut self, buf: &mut [u8], offset: usize) -> (r: FSResult<usize>)
        ensures
            r == Ok::<usize, FSError>(pipe_take(old(self)@, old(buf)@.len() as int) as usize),
            final(buf)@.take(pipe_take(old(self)@, old(buf)@.len() as int)) == old(self)@.take(
                pipe_take(old(self)@, old(buf)@.len() as int),
            ),
            final(buf)@.skip(pipe_take(old(self)@, old(buf)@.len() as int)) == old(buf)@.skip(
                pipe_take(old(self)@, old(buf)@.len() as int),
            ),
            final(self)@ == old(self)@.skip(pipe_take(old(self)@, old(buf)@.len() as int)),
    {
        let ghost held = self@;
        let ghost orig = buf@;
        let cap = buf.len();
        let avail = self.buf.len();
        let len = if cap < avail { cap } else { avail };
        let mut i: usize = 0;
        while i < len
            invariant
                held == old(self)@,
                orig == old(buf)@,
                cap == orig.len(),
                avail == held.len(),
                len == pipe_take(held, cap as int),
                i <= len,
                buf@.len() == cap,
                self@ == held.skip(i as int),
                buf@.take(i as int) == held.take(i as int),
                buf@.skip(i as int) == orig.skip(i as int),
            decreases len - i,
        {
            let ghost prev = buf@;
            let ghost before = self@;
            match self.buf.pop_front() {
                Some(b) => {
                    buf[i] = b;
                    proof {
                        assert(before[0] == held[i as int]);
                        assert(self@ =~= held.skip(i + 1));
                        assert(buf@.take(i + 1) =~= held.take(i + 1)) by {
                            assert forall|j: int| 0 <= j < i implies buf@[j] == prev.take(i as int)[j] by {}
                        }
                        assert forall|j: int| 0 <= j < buf@.skip(i + 1).len() implies #[trigger] buf@.skip(i + 1)[j]
                            == orig.skip(i + 1)[j] by {
                            assert(prev.skip(i as int)[j + 1] == orig.skip(i as int)[j + 1]);
                        }
                        assert(buf@.skip(i + 1) =~= orig.skip(i + 1));
                    }
                },
                None => {
                    proof {
                        assert(false);
                    }
                },
            }
            i = i + 1;
        }
        Ok(len)
    }
}

/// Makes pipes.
pub struct Pipe;

impl Pipe {
    /// A new pipe: its buffer, the end that reads from it and the end that
    /// writes to it. Each end is used with the buffer.
    pub fn new() -> (r: (PipeInternal, PipeReadEnd, PipeWriteEnd))
        ensures
            r.0@ == Seq::<u8>::empty(),
    {
        (PipeInternal::new(), PipeReadEnd, PipeWriteEnd)
    }
}

/// The end of a pipe that reads.
pub struct PipeReadEnd;

/// The end of a pipe that writes.
pub struct PipeWriteEnd;

impl PipeReadEnd {
    /// Reads from the pipe.
    pub fn read(&self, pipe: &mut PipeInternal, buf: &mut [u8], offset: usize) -> (r: FSResult<usize>)
        ensures
            r == Ok::<usize, FSError>(pipe_take(old(pipe)@, old(buf)@.len() as int) as usize),
            final(buf)@.take(pipe_take(old(pipe)@, old(buf)@.len() as int)) == old(pipe)@.take(
                pipe_take(old(pipe)@, old(buf)@.len() as int),
            ),
            final(buf)@.skip(pipe_take(old(pipe)@, old(buf)@.len() as int)) == old(buf)@.skip(
                pipe_take(old(pipe)@, old(buf)@.len() as int),
            ),
            final(pipe)@ == old(pipe)@.skip(pipe_take(old(pipe)@, old(buf)@.len() as int)),
    {
        pipe.read(buf, offset)
    }

    /// The reading end cannot be written to.
    pub fn write(&self, pipe: &mut PipeInternal, buf: &[u8], offset: usize) -> (r: FSResult<usize>)
        ensures
            r matches Err(e) && e.kind_of() == FSErrorKind::PermissionDenied,
            final(pipe)@ == old(pipe)@,
    {
        Err(FSError::simple(FSErrorKind::PermissionDenied))
    }

    pub fn node_type(&self, pipe: &PipeInternal) -> (r: NodeType)
        ensures
            r == NodeType::Void,
    {
        pipe.node_type()
    }
}

impl PipeWriteEnd {
    /// The writing end cannot be read from.
    pub fn read(&self, pipe: &mut PipeInternal, buf: &mut [u8], offset: usize) -> (r: FSResult<usize>)
        ensures
            r matches Err(e) && e.kind_of() == FSErrorKind::PermissionDenied,
            final(pipe)@ == old(pipe)@,
            final(buf)@ == old(buf)@,
    {
        Err(FSError::simple(FSErrorKind::PermissionDenied))
    }

    /// Writes to the pipe.
    pub fn write(&self, pipe: &mut PipeInternal, buf: &[u8], offset: usize) -> (r: FSResult<usize>)
        ensures
            final(pipe)@ == pipe_write_spec(old(pipe)@, buf@),
            r == Ok::<usize, FSError>(buf@.len() as usize),
    {
        pipe.write(buf, offset)
    }

    pub fn node_type(&self, pipe: &PipeInternal) -> (r: NodeType)
        ensures
            r == NodeType::Void,
    {
        pipe.node_type()
    }
}

/// A pipe gives its bytes back in the order they were written: a read after
/// a write takes the oldest bytes first, as many as fit, and leaves the rest.
pub proof fn law_pipe_fifo(held: Seq<u8>, data: Seq<u8>, cap: int)
    requires
        cap >= 0,
    ensures
        pipe_write_spec(held, data).take(pipe_take(pipe_write_spec(held, data), cap))
            + pipe_write_spec(held, data).skip(pipe_take(pipe_write_spec(held, data), cap))
            == held + data,
        cap >= held.len() + data.len() ==> pipe_write_spec(held, data).take(
            pipe_take(pipe_write_spec(held, data), cap),
        ) == held + data,
        held.len() == 0 && cap >= data.len() ==> pipe_write_spec(held, data).take(
            pipe_take(pipe_write_spec(held, data), cap),
        ) == data,
{
    let all = held + data;
    let k = pipe_take(all, cap);
    assert(all.take(k) + all.skip(k) =~= all);
    if cap >= all.len() {
        assert(all.take(k) =~= all);
    }
    if held.len() == 0 {
        assert(all =~= data);
    }
}

} // verus!
