use vstd::prelude::*;

verus! {

/// What one call of the decompressor reported.
#[derive(Debug, Clone, Copy, PartialEq, Eq, Structural)]
pub enum Status {
    /// Progress was made; the stream goes on.
    Progress,
    BufError,
    StreamEnd,
    /// The input is not a valid deflate stream.
    Corrupt,
}

/// What the read loop does after one call of the decompressor.
#[derive(Debug, Clone, Copy, PartialEq, Eq, Structural)]
pub enum Flow {
    /// Return the bytes written so far.
    Done,
    /// Fetch more input and call the decompressor again.
    More,
    /// Fail: the stream is corrupt.
    Fail,
}

pub open spec fn flow_spec(status: Status, eof: bool, out_full: bool, consumed: usize, written: usize) -> Flow {
    match status {
        Status::Corrupt => Flow::Fail,
        Status::StreamEnd => Flow::Done,
        _ => if eof || out_full {
            Flow::Done
        } else if consumed != 0 && written == 0 {
            Flow::More
        } else if consumed == 0 && written != 0 {
            Flow::More
        } else {
            Flow::Done
        },
    }
}

/// Decides the next move of a decompressing read: `eof` says the input is
/// exhausted, `out_full` that the output buffer is, and `consumed` and
/// `written` are what the last call took and produced. The stream's end,
/// an exhausted side, or a call that neither only consumed nor only
/// produced ends the read; a corrupt stream fails it.
pub fn next_flow(status: Status, eof: bool, out_full: bool, consumed: usize, written: usize) -> (r: Flow)
    ensures
        r == flow_spec(status, eof, out_full, consumed, written),
{
    match status {
        Status::Corrupt => Flow::Fail,
        Status::StreamEnd => Flow::Done,
        _ => {
            if eof || out_full {
                Flow::Done
            } else if consumed != 0 && written == 0 {
                Flow::More
            } else if consumed == 0 && written != 0 {
                Flow::More
            } else {
                Flow::Done
            }
        },
    }
}

} // verus!
