//! A positional reader over the elements of an `Array` frame: commands
//! consume their name and arguments one element at a time.

use crate::frame::{bytes_to_string, lemma_models_remove_first, models_from, Frame, FrameModel};
use vstd::prelude::*;
use vstd::string::{StrSliceExecFns, StringExecFns};
use vstd::utf8::*;

verus! {

/// Why reading a command's next argument failed: the frame ran out of
/// elements, or an element had the wrong shape.
#[derive(Debug)]
pub enum ParseError {
    EndOfStream,
    Other(String),
}

impl ParseError {
    /// A human-readable description of the error.
    pub fn message(&self) -> String {
        match self {
            ParseError::EndOfStream => String::from_str("protocol error; end of stream"),
            ParseError::Other(s) => s.clone(),
        }
    }
}

/// Builds the wrong-shape variant of `ParseError`.
fn shape_err(msg: &str) -> (r: ParseError)
    ensures
        r is Other,
{
    ParseError::Other(String::from_str(msg))
}

/// True of a frame model that can stand for a text argument.
pub open spec fn string_like(m: FrameModel) -> bool {
    match m {
        FrameModel::Simple(_) => true,
        FrameModel::Bulk(b) => valid_utf8(b),
        _ => false,
    }
}

/// The text a string-like frame model stands for.
pub open spec fn text_of(m: FrameModel) -> Seq<char> {
    match m {
        FrameModel::Simple(t) => t,
        FrameModel::Bulk(b) => decode_utf8(b),
        _ => Seq::empty(),
    }
}

/// True of a frame model that can stand for a byte-string argument.
pub open spec fn bytes_like(m: FrameModel) -> bool {
    m is Bulk || m is Simple
}

/// The bytes a bytes-like frame model stands for.
pub open spec fn bytes_of(m: FrameModel) -> Seq<u8> {
    match m {
        FrameModel::Bulk(b) => b,
        FrameModel::Simple(t) => encode_utf8(t),
        _ => Seq::empty(),
    }
}

/// Walks the elements of an `Array` frame in order.
pub struct Parse {
    frames: Vec<Frame>,
}

impl Parse {
    /// The models of the elements not yet consumed.
    pub closed spec fn remaining(&self) -> Seq<FrameModel> {
        models_from(self.frames@, 0)
    }

    /// Wraps an `Array` frame for element-wise reading; any other frame
    /// shape is a protocol error.
    pub fn new(frame: Frame) -> (r: Result<Parse, ParseError>)
        ensures
            match r {
                Ok(p) => frame.model() matches FrameModel::Array(items) && p.remaining() == items,
                Err(e) => e is Other && !(frame.model() is Array),
            },
    {
        match frame {
            Frame::Array(v) => Ok(Parse { frames: v }),
            _ => Err(shape_err("protocol error; expected an array frame")),
        }
    }

    /// Takes the next element, or reports that the frame is exhausted.
    pub fn next(&mut self) -> (r: Result<Frame, ParseError>)
        ensures
            match r {
                Ok(f) => old(self).remaining().len() > 0 && f.model() == old(self).remaining()[0]
                    && final(self).remaining() == old(self).remaining().drop_first(),
                Err(e) => e is EndOfStream && old(self).remaining().len() == 0 && *final(self)
                    == *old(self),
            },
    {
        proof {
            crate::frame::lemma_models_from_props(self.frames@, 0);
        }
        if self.frames.len() > 0 {
            let ghost s0 = self.frames@;
            let f = self.frames.remove(0);
            proof {
                lemma_models_remove_first(s0);
                assert(models_from(s0, 0)[0 - 0] == s0[0].model());
            }
            Ok(f)
        } else {
            Err(ParseError::EndOfStream)
        }
    }

    /// Takes the next element as text: a `Simple` line, or a `Bulk`
    /// payload holding valid UTF-8.
    pub fn next_string(&mut self) -> (r: Result<String, ParseError>)
        ensures
            match r {
                Ok(s) => old(self).remaining().len() > 0 && string_like(old(self).remaining()[0])
                    && s@ == text_of(old(self).remaining()[0]) && final(self).remaining() == old(
                    self,
                ).remaining().drop_first(),
                Err(e) => match e {
                    ParseError::EndOfStream => old(self).remaining().len() == 0 && *final(self)
                        == *old(self),
                    ParseError::Other(_) => old(self).remaining().len() > 0 && !string_like(
                        old(self).remaining()[0],
                    ) && final(self).remaining() == old(self).remaining().drop_first(),
                },
            },
    {
        let f = match self.next() {
            Ok(f) => f,
            Err(e) => {
                return Err(e);
            },
        };
        match f {
            Frame::Simple(s) => Ok(s),
            Frame::Bulk(b) => match bytes_to_string(b) {
                Some(s) => Ok(s),
                None => Err(shape_err("protocol error; invalid string")),
            },
            _ => Err(shape_err("protocol error; expected a string")),
        }
    }

    /// Takes the next element as raw bytes: a `Bulk` payload, or the
    /// UTF-8 bytes of a `Simple` line.
    pub fn next_bytes(&mut self) -> (r: Result<Vec<u8>, ParseError>)
        ensures
            match r {
                Ok(b) => old(self).remaining().len() > 0 && bytes_like(old(self).remaining()[0])
                    && b@ == bytes_of(old(self).remaining()[0]) && final(self).remaining() == old(
                    self,
                ).remaining().drop_first(),
                Err(e) => match e {
                    ParseError::EndOfStream => old(self).remaining().len() == 0 && *final(self)
                        == *old(self),
                    ParseError::Other(_) => old(self).remaining().len() > 0 && !bytes_like(
                        old(self).remaining()[0],
                    ) && final(self).remaining() == old(self).remaining().drop_first(),
                },
            },
    {
        let f = match self.next() {
            Ok(f) => f,
            Err(e) => {
                return Err(e);
            },
        };
        match f {
            Frame::Bulk(b) => Ok(b),
            Frame::Simple(s) => Ok(s.as_str().as_bytes_vec()),
            _ => Err(shape_err("protocol error; expected string or bytes")),
        }
    }

    /// Takes the next element as an unsigned integer frame.
    pub fn next_int(&mut self) -> (r: Result<u64, ParseError>)
        ensures
            match r {
                Ok(n) => old(self).remaining().len() > 0 && old(self).remaining()[0]
                    == FrameModel::Integer(n) && final(self).remaining() == old(
                    self,
                ).remaining().drop_first(),
                Err(e) => match e {
                    ParseError::EndOfStream => old(self).remaining().len() == 0 && *final(self)
                        == *old(self),
                    ParseError::Other(_) => old(self).remaining().len() > 0 && !(old(
                        self,
                    ).remaining()[0] is Integer) && final(self).remaining() == old(
                        self,
                    ).remaining().drop_first(),
                },
            },
    {
        let f = match self.next() {
            Ok(f) => f,
            Err(e) => {
                return Err(e);
            },
        };
        match f {
            Frame::Integer(n) => Ok(n),
            _ => Err(shape_err("protocol error; expected a number")),
        }
    }

    /// Succeeds only when every element has been consumed.
    pub fn finish(&mut self) -> (r: Result<(), ParseError>)
        ensures
            match r {
                Ok(()) => old(self).remaining().len() == 0 && *final(self) == *old(self),
                Err(e) => e is Other && old(self).remaining().len() > 0,
            },
    {
        match self.next() {
            Ok(_) => Err(shape_err("protocol error; trailing arguments")),
            Err(_) => Ok(()),
        }
    }
}

} // verus!
