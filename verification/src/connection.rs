//! The receive side of one connection: an append-only byte accumulator that
//! is drained by exactly the bytes one successful decode consumes. Socket
//! reads happen outside; they hand their bytes to `feed`, and a zero-byte
//! read's meaning is decided by `on_peer_closed`.

use vstd::prelude::*;

verus! {

use crate::frame::{Frame, Error as CodecError, ProtocolError, SpecParse, spec_parse, Cursor};

/// Connection-level failures that the buffered decoder itself decides.
#[derive(Clone, Copy, Debug, PartialEq, Eq, Structural)]
pub enum Error {
    /// Malformed bytes: the framing is desynchronized and this connection
    /// must be torn down, never resynchronized mid-stream.
    Protocol(ProtocolError),
    /// The peer closed its write side while a frame was still partial.
    Reset,
}

/// One connection's buffered, not-yet-parsed bytes.
pub struct Connection {
    buffer: Vec<u8>,
}

impl Connection {
    /// The bytes currently buffered.
    pub closed spec fn buf(&self) -> Seq<u8> {
        self.buffer@
    }

    /// A connection with nothing buffered yet.
    pub fn new() -> (c: Connection)
        ensures
            c.buf() == Seq::<u8>::empty(),
    {
        Connection { buffer: Vec::new() }
    }

    /// Append the bytes of one socket read. Nothing already buffered is
    /// touched: bytes never consumed by a successful parse stay in place.
    #[verifier::loop_isolation(false)]
    pub fn feed(&mut self, chunk: &[u8])
        ensures
            final(self).buf() == old(self).buf() + chunk@,
    {
        let mut i: usize = 0;
        while i < chunk.len()
            invariant
                i <= chunk@.len(),
                self.buffer@ == old(self).buffer@ + chunk@.subrange(0, i as int),
            decreases chunk@.len() - i,
        {
            self.buffer.push(*vstd::slice::slice_index_get(chunk, i));
            proof {
                assert(old(self).buffer@ + chunk@.subrange(0, i as int) + seq![chunk@[i as int]]
                    =~= old(self).buffer@ + chunk@.subrange(0, i as int + 1));
            }
            i = i + 1;
        }
        proof {
            assert(chunk@.subrange(0, chunk@.len() as int) =~= chunk@);
        }
    }

    /// Try to extract one frame from the front of the buffer. Two-phase by
    /// design: the whole frame is validated as present before the allocating
    /// decode runs, and exactly the consumed prefix is dropped — trailing
    /// bytes of a following frame stay buffered. With too few bytes the
    /// buffer is untouched and the caller must read more; malformed bytes
    /// leave the buffer untouched and condemn the connection.
    pub fn try_read_frame(&mut self) -> (r: Result<Option<Frame>, Error>)
        ensures
            match spec_parse(old(self).buf(), 0) {
                SpecParse::Parsed(fv, p) => (r matches Ok(Some(f)) && f@ == fv) && final(self).buf() == old(self).buf().subrange(p, old(self).buf().len() as int),
                SpecParse::Incomplete => (r matches Ok(o) && o is None) && *final(self) == *old(self),
                SpecParse::Bad(e) => (r matches Err(ce) && ce == Error::Protocol(e)) && *final(self) == *old(self),
            },
    {
        let mut cur = Cursor::new(self.buffer.as_slice());
        match Frame::check(&mut cur) {
            Ok(_) => {},
            Err(CodecError::Incomplete) => { return Ok(None) },
            Err(CodecError::Other(e)) => { return Err(Error::Protocol(e)) },
        }
        let mut cur2 = Cursor::new(self.buffer.as_slice());
        match Frame::parse(&mut cur2) {
            Ok(f) => {
                let consumed = cur2.consumed();
                let rest = vstd::slice::slice_to_vec(
                    vstd::slice::slice_subrange(self.buffer.as_slice(), consumed,
                    self.buffer.len()),
                );
                self.buffer = rest;
                Ok(Some(f))
            },
            Err(_) => {
                proof {
                    assert(false);
                }
                Err(Error::Reset)
            },
        }
    }

    /// Decide what a zero-byte read (the peer closed its write side) means:
    /// with nothing buffered the stream ended cleanly; with bytes of a
    /// partial frame still buffered, the peer vanished mid-frame and the
    /// connection was reset.
    pub fn on_peer_closed(&self) -> (clean: bool)
        ensures
            clean == (self.buf().len() == 0),
    {
        self.buffer.len() == 0
    }
}

} // verus!
