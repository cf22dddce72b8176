//! The pure half of a connection. A connection owns a byte stream and
//! a growable receive buffer; what can be decided without I/O is
//! decided here: whether the buffer already holds one complete
//! message, and what a read of zero bytes means.

use crate::frame::{parse_at, Frame, FrameError, ParseStep};
use vstd::prelude::*;

verus! {

/// What a read of zero bytes from the peer means: a clean end of the
/// stream, or a connection reset that cut a message short.
#[derive(Debug, PartialEq, Eq, Structural)]
pub enum StreamEnd {
    Clean,
    Reset,
}

/// Classifies end-of-stream: clean exactly when no partial message is
/// left in the receive buffer.
pub fn classify_eof(buffered: usize) -> (r: StreamEnd)
    ensures
        r is Clean <==> buffered == 0,
{
    if buffered == 0 {
        StreamEnd::Clean
    } else {
        StreamEnd::Reset
    }
}

/// Tries to take one complete message from the front of the buffer:
/// the message and the bytes it consumed, or nothing while the buffer
/// is still a prefix of some encoding, or a protocol error when it can
/// never become one. The caller drops the consumed bytes and reads
/// more from the stream on `None`.
pub fn try_parse(buf: &Vec<u8>) -> (r: Result<Option<(Frame, usize)>, FrameError>)
    ensures
        match r {
            Ok(Some((f, n))) => parse_at(buf@, 0) == ParseStep::Complete(f.model(), n as int) && 0
                < n <= buf@.len(),
            Ok(None) => parse_at(buf@, 0) is Incomplete,
            Err(e) => e is Other && parse_at(buf@, 0) is Malformed,
        },
{
    let mut pos: usize = 0;
    match Frame::check(buf, &mut pos) {
        Ok(()) => {
            let end = pos;
            let mut again: usize = 0;
            let f = Frame::parse(buf, &mut again);
            proof {
                assert(again == end);
            }
            Ok(Some((f, end)))
        },
        Err(FrameError::Incomplete) => Ok(None),
        Err(e) => Err(e),
    }
}

} // verus!
