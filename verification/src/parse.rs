//! Consuming the elements of an array frame one by one, the way a
//! command sent by a client is pulled apart: first the command name,
//! then each argument in position.

use vstd::prelude::*;
use vstd::utf8::{decode_utf8, encode_utf8, valid_utf8};

use crate::frame::{frames_view, Frame, FrameData};

verus! {

/// Failure while pulling arguments out of a command frame.
#[derive(Debug)]
pub enum ParseError {
    /// Attempting to extract a value failed due to the frame being
    /// fully consumed.
    EndOfStream,
    /// All other errors.
    Other(String),
}

/// The elements of one array frame, consumed front to back.
pub struct Parse {
    blocks: Vec<Frame>,
}

/// The text a frame yields when read as a string argument: simple
/// strings as they are, bulk bytes decoded as UTF-8.
pub open spec fn as_text(f: FrameData) -> Option<Seq<char>> {
    match f {
        FrameData::Simple(s) => Some(s),
        FrameData::Bulk(b) => if valid_utf8(b) {
            Some(decode_utf8(b))
        } else {
            None
        },
        _ => None,
    }
}

/// The integer a frame yields when read as a number argument.
pub open spec fn as_int(f: FrameData) -> Option<i64> {
    match as_text(f) {
        Some(s) => crate::frame::spec_dec_i64(encode_utf8(s)),
        None => None,
    }
}

impl View for Parse {
    type V = Seq<FrameData>;

    closed spec fn view(&self) -> Seq<FrameData> {
        frames_view(self.blocks@)
    }
}

impl Parse {
    /// Takes an array frame apart into its elements; any other frame is
    /// a protocol error.
    pub fn new(frame: Frame) -> (r: Result<Parse, ParseError>)
        ensures
            match frame@ {
                FrameData::Array(items) => r matches Ok(p) && p@ == items,
                _ => r matches Err(e) && e is Other,
            },
    {
        match frame {
            Frame::Array(blocks) => Ok(Parse { blocks }),
            _ => Err(ParseError::Other("protocol error; expected array".to_owned())),
        }
    }

    /// How many elements are still unconsumed.
    pub fn remaining(&self) -> (r: usize)
        ensures
            r == self@.len(),
    {
        proof {
            crate::frame::lemma_frames_view_index(self.blocks@);
        }
        self.blocks.len()
    }

    /// Returns the next element.
    pub fn next(&mut self) -> (r: Result<Frame, ParseError>)
        ensures
            old(self)@.len() == 0 ==> (r matches Err(e) && e is EndOfStream && final(self)@
                == old(self)@),
            old(self)@.len() > 0 ==> (r matches Ok(f) && f@ == old(self)@[0] && final(self)@
                == old(self)@.drop_first()),
    {
        proof {
            crate::frame::lemma_frames_view_index(self.blocks@);
        }
        if self.blocks.len() == 0 {
            return Err(ParseError::EndOfStream);
        }
        let f = self.blocks.remove(0);
        proof {
            crate::frame::lemma_frames_view_index(old(self).blocks@);
            crate::frame::lemma_frames_view_index(self.blocks@);
            assert(self.blocks@ =~= old(self).blocks@.drop_first());
            assert(frames_view(self.blocks@) =~= frames_view(old(self).blocks@).drop_first());
        }
        Ok(f)
    }

    /// Returns the next element read as text: a simple string, or bulk
    /// bytes holding valid UTF-8; anything else is a protocol error.
    pub fn next_string(&mut self) -> (r: Result<String, ParseError>)
        ensures
            old(self)@.len() == 0 ==> (r matches Err(e) && e is EndOfStream && final(self)@
                == old(self)@),
            old(self)@.len() > 0 ==> final(self)@ == old(self)@.drop_first() && (match as_text(
                old(self)@[0],
            ) {
                Some(s) => r matches Ok(st) && st@ == s,
                None => r matches Err(e) && e is Other,
            }),
    {
        let f = match self.next() {
            Ok(f) => f,
            Err(e) => {
                return Err(e);
            },
        };
        match f {
            Frame::Simple(s) => Ok(s),
            Frame::Bulk(b) => match crate::frame::bulk_to_string(b.as_slice()) {
                Some(s) => Ok(s),
                None => Err(ParseError::Other("protocol error; invalid string".to_owned())),
            },
            _ => Err(ParseError::Other("protocol error; expected simple or bulk".to_owned())),
        }
    }

    /// Returns the next element read as raw bytes: only a bulk frame
    /// qualifies.
    pub fn next_bytes(&mut self) -> (r: Result<Vec<u8>, ParseError>)
        ensures
            old(self)@.len() == 0 ==> (r matches Err(e) && e is EndOfStream && final(self)@
                == old(self)@),
            old(self)@.len() > 0 ==> final(self)@ == old(self)@.drop_first() && (match old(
                self,
            )@[0] {
                FrameData::Bulk(b) => r matches Ok(v) && v@ == b,
                _ => r matches Err(e) && e is Other,
            }),
    {
        let f = match self.next() {
            Ok(f) => f,
            Err(e) => {
                return Err(e);
            },
        };
        match f {
            Frame::Bulk(b) => Ok(b),
            _ => Err(ParseError::Other("protocol error; expected bulk".to_owned())),
        }
    }

    /// Returns the next element read as a signed decimal integer.
    pub fn next_int(&mut self) -> (r: Result<i64, ParseError>)
        ensures
            old(self)@.len() == 0 ==> (r matches Err(e) && e is EndOfStream && final(self)@
                == old(self)@),
            old(self)@.len() > 0 ==> final(self)@ == old(self)@.drop_first() && (match as_int(
                old(self)@[0],
            ) {
                Some(v) => r matches Ok(x) && x == v,
                None => r matches Err(e) && e is Other,
            }),
    {
        let s = match self.next_string() {
            Ok(s) => s,
            Err(e) => {
                return Err(e);
            },
        };
        match crate::frame::parse_i64(s.as_str().as_bytes()) {
            Some(v) => Ok(v),
            None => Err(ParseError::Other("protocol error; invalid number".to_owned())),
        }
    }

    /// Succeeds only when every element has been consumed: leftover
    /// elements mean a malformed command.
    pub fn finish(&self) -> (r: Result<(), ParseError>)
        ensures
            self@.len() == 0 <==> r is Ok,
            self@.len() > 0 ==> (r matches Err(e) && e is Other),
    {
        proof {
            crate::frame::lemma_frames_view_index(self.blocks@);
        }
        if self.blocks.len() == 0 {
            Ok(())
        } else {
            Err(ParseError::Other("protocol error; expected end of frame".to_owned()))
        }
    }
}

} // verus!

verus! {

impl From<String> for ParseError {
    /// Wraps a message as a protocol-level failure.
    fn from(value: String) -> (r: ParseError)
        ensures
            r == ParseError::Other(value),
    {
        ParseError::Other(value)
    }
}

impl vstd::std_specs::convert::FromSpecImpl<String> for ParseError {
    open spec fn obeys_from_spec() -> bool {
        true
    }

    open spec fn from_spec(value: String) -> ParseError {
        ParseError::Other(value)
    }
}

// The conversion from a borrowed message cannot promise a particular
// `String` value in spec, so it claims no `from_spec`; its own
// `ensures` pins the view.
impl<'a> vstd::std_specs::convert::FromSpecImpl<&'a str> for ParseError {
    open spec fn obeys_from_spec() -> bool {
        false
    }

    open spec fn from_spec(value: &'a str) -> ParseError {
        ParseError::EndOfStream
    }
}

impl<'a> From<&'a str> for ParseError {
    /// Wraps a message as a protocol-level failure.
    fn from(value: &'a str) -> (r: ParseError)
        ensures
            r matches ParseError::Other(m) && m@ == value@,
    {
        ParseError::Other(value.to_owned())
    }
}

} // verus!
