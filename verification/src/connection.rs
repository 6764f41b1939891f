//! The connection reader's pure core: one growable byte buffer that
//! bytes from the peer are appended to, and from whose front complete
//! frames are cut. The socket itself, and the loop that reads from it,
//! live outside the library; they only feed bytes in and act on what
//! comes out.

use vstd::prelude::*;

use crate::frame::{spec_scan, Error, Frame, ScanOutcome};

verus! {

/// The bytes received from a peer and not yet consumed as frames.
pub struct FrameBuffer {
    buf: Vec<u8>,
}

impl View for FrameBuffer {
    type V = Seq<u8>;

    closed spec fn view(&self) -> Seq<u8> {
        self.buf@
    }
}

impl FrameBuffer {
    /// An empty buffer.
    pub fn new() -> (r: FrameBuffer)
        ensures
            r@ == Seq::<u8>::empty(),
    {
        FrameBuffer { buf: Vec::new() }
    }

    /// Whether nothing is buffered: a peer that closes now closed
    /// cleanly, one that closes with bytes still here cut a frame off.
    pub fn is_empty(&self) -> (r: bool)
        ensures
            r == (self@.len() == 0),
    {
        self.buf.len() == 0
    }

    /// Appends bytes read from the peer.
    pub fn extend(&mut self, bytes: &[u8])
        ensures
            final(self)@ == old(self)@ + bytes@,
    {
        let ghost start = self.buf@;
        let n = bytes.len();
        for i in 0..n
            invariant
                n == bytes@.len(),
                self.buf@ == start + bytes@.subrange(0, i as int),
            decreases n - i,
        {
            self.buf.push(bytes[i]);
            proof {
                assert(self.buf@ =~= start + bytes@.subrange(0, i + 1 as int));
            }
        }
        proof {
            assert(self.buf@ =~= start + bytes@);
        }
    }

    /// Cuts one complete frame off the front of the buffer, if one is
    /// there: exactly its bytes are consumed, so the start of the next
    /// pipelined frame stays untouched. With only a partial frame
    /// buffered it returns `None` and changes nothing; bytes that can
    /// never begin a frame are an error, and the buffer is left as it
    /// is for the caller to drop the connection.
    pub fn parse_frame(&mut self) -> (r: Result<Option<Frame>, Error>)
        ensures
            match spec_scan(old(self)@, 0) {
                ScanOutcome::Found(f, p) => r matches Ok(o) && o matches Some(fr) && fr@ == f
                    && final(self)@ == old(self)@.subrange(p, old(self)@.len() as int),
                ScanOutcome::Incomplete => r matches Ok(o) && o is None && final(self)@ == old(
                    self,
                )@,
                ScanOutcome::Malformed => r is Err && final(self)@ == old(self)@,
            },
    {
        match Frame::check(self.buf.as_slice(), 0) {
            Ok(len) => {
                match Frame::parse(self.buf.as_slice(), 0) {
                    Ok((frame, used)) => {
                        proof {
                            assert(used == len);
                        }
                        let rest = vstd::slice::slice_to_vec(
                            vstd::slice::slice_subrange(self.buf.as_slice(), used, self.buf.len()),
                        );
                        self.buf = rest;
                        Ok(Some(frame))
                    },
                    Err(e) => {
                        proof {
                            assert(false);
                        }
                        Err(e)
                    },
                }
            },
            Err(Error::Incomplete) => Ok(None),
            Err(e) => {
                proof {
                    assert(e is Other);
                }
                Err(e)
            },
        }
    }
}

} // verus!
