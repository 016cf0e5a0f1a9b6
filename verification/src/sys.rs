//! The in-process pipe-stdin buffer.
//!
//! Where the kernel does not support `pipe`/`dup2`, the shell forwards the
//! stdout of one built-in command to the stdin of the next through this buffer.
use crate::bytes::{cut, cut_copy};
use crate::io::PIPE_BUF_SIZE;
use vstd::prelude::*;

verus! {

/// Temporary fd used to save stdin while setting up a pipe.
pub const SAVED_STDIN_FD: i64 = 100;

/// Temporary fd used to save stdout while setting up a pipe.
pub const SAVED_STDOUT_FD: i64 = 101;

/// The pipe-stdin buffer.  Its view is what is still to be read from it.
pub struct PipeStdin {
    buf: Vec<u8>,
    pos: usize,
}

impl View for PipeStdin {
    type V = Seq<u8>;

    closed spec fn view(&self) -> Seq<u8> {
        self.buf@.skip(self.pos as int)
    }
}

impl PipeStdin {
    pub closed spec fn wf(&self) -> bool {
        &&& self.pos <= self.buf@.len()
        &&& self.buf@.len() <= PIPE_BUF_SIZE
    }

    /// An empty buffer.
    pub fn new() -> (r: Self)
        ensures
            r.wf(),
            r@ == Seq::<u8>::empty(),
    {
        let r = PipeStdin { buf: Vec::new(), pos: 0 };
        assert(r@ =~= Seq::<u8>::empty());
        r
    }
}

/// Load `data` into the pipe-stdin buffer so that the next command can read
/// it.  What exceeds the buffer is dropped.
pub fn pipe_stdin_set(p: &mut PipeStdin, data: &[u8])
    requires
        old(p).wf(),
    ensures
        final(p).wf(),
        final(p)@ == cut(data@, PIPE_BUF_SIZE as int),
{
    p.buf = cut_copy(data, PIPE_BUF_SIZE);
    p.pos = 0;
    assert(p@ =~= cut(data@, PIPE_BUF_SIZE as int));
}

/// Clear the pipe-stdin buffer (called after the pipeline finishes).
pub fn pipe_stdin_clear(p: &mut PipeStdin)
    requires
        old(p).wf(),
    ensures
        final(p).wf(),
        final(p)@ == Seq::<u8>::empty(),
{
    p.buf = Vec::new();
    p.pos = 0;
    assert(p@ =~= Seq::<u8>::empty());
}

/// Returns `true` if there are unread bytes in the pipe-stdin buffer.
pub fn pipe_stdin_has_data(p: &PipeStdin) -> (r: bool)
    requires
        p.wf(),
    ensures
        r == (p@.len() > 0),
{
    p.pos < p.buf.len()
}

/// Read one byte from the pipe-stdin buffer, or `None` if the buffer is empty.
pub fn read_pipe_byte(p: &mut PipeStdin) -> (r: Option<u8>)
    requires
        old(p).wf(),
    ensures
        final(p).wf(),
        old(p)@.len() == 0 ==> r is None && final(p)@ == old(p)@,
        old(p)@.len() > 0 ==> r == Some(old(p)@[0]) && final(p)@ == old(p)@.skip(1),
{
    if p.pos < p.buf.len() {
        let b: u8 = p.buf[p.pos];
        p.pos += 1;
        assert(p@ =~= old(p)@.skip(1));
        Some(b)
    } else {
        None
    }
}

/// What is left to be read after `k` bytes have been read from `unread`.
pub open spec fn after_reads(unread: Seq<u8>, k: nat) -> Seq<u8>
    decreases k,
{
    if k == 0 || unread.len() == 0 {
        unread
    } else {
        after_reads(unread.skip(1), (k - 1) as nat)
    }
}

/// What was put into the pipe-stdin buffer is read back byte by byte, in
/// order: read number `k` (counted from zero) finds byte `k`, and after as many
/// reads as there are bytes nothing is left.
pub proof fn law_pipe_stdin_order(data: Seq<u8>, k: nat)
    ensures
        k < data.len() ==> after_reads(data, k).len() > 0 && after_reads(data, k)[0]
            == data[k as int],
        k >= data.len() ==> after_reads(data, k).len() == 0,
    decreases k,
{
    if k > 0 && data.len() > 0 {
        law_pipe_stdin_order(data.skip(1), (k - 1) as nat);
    }
}

} // verus!
