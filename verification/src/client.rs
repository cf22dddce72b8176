//! The pure half of the demonstration client: how a reply frame is
//! read as the result of a GET or a SET. Opening the socket and
//! exchanging bytes live with the caller.

use crate::frame::{rendered, Frame, FrameModel};
use vstd::prelude::*;
use vstd::string::StringExecFns;

verus! {

/// Splits a reply: an `Error` frame is the server refusing the
/// request, with its text; any other frame is the reply proper.
pub fn response_of(f: Frame) -> (r: Result<Frame, String>)
    ensures
        match r {
            Ok(reply) => !(f.model() is Error) && reply == f,
            Err(msg) => f.model() matches FrameModel::Error(t) && msg@ == t,
        },
{
    match f {
        Frame::Error(msg) => Err(msg),
        other => Ok(other),
    }
}

/// Reads a GET reply: a `Bulk` frame carries the value, `Null` means
/// the key is absent, and any other frame is unexpected.
pub fn get_reply(f: Frame) -> (r: Result<Option<Vec<u8>>, String>)
    ensures
        match r {
            Ok(Some(v)) => f.model() matches FrameModel::Bulk(b) && v@ == b,
            Ok(None) => f.model() is Null,
            Err(msg) => !(f.model() is Bulk) && !(f.model() is Null) && msg@ == "unexpected frame: "@
                + rendered(f.model()),
        },
{
    match f {
        Frame::Bulk(b) => Ok(Some(b)),
        Frame::Null => Ok(None),
        other => Err(other.to_err()),
    }
}

/// Reads a SET reply: only the exact status line `OK` counts as
/// success.
pub fn set_reply(f: Frame) -> (r: Result<(), String>)
    ensures
        match r {
            Ok(()) => f.model() == FrameModel::Simple("OK"@),
            Err(msg) => f.model() != FrameModel::Simple("OK"@) && msg@ == "unexpected frame: "@
                + rendered(f.model()),
        },
{
    match f {
        Frame::Simple(s) => {
            if s.eq(&String::from_str("OK")) {
                Ok(())
            } else {
                Err(Frame::Simple(s).to_err())
            }
        },
        other => Err(other.to_err()),
    }
}

} // verus!
