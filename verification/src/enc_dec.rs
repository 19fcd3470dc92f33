//! The JSON messages and the codec that frames them on a connection.

use vstd::prelude::*;
use bytes::BytesMut;
use crate::buf::{bytes_of, bytes_clone, bytes_extend};

verus! {

/// A message exchanged as JSON.
#[derive(Debug)]
pub struct JsonMsg {
    pub item: u32,
    pub name: String,
    pub hello: String,
}

/// Which part of a request the codec expects next.
#[derive(Debug, Clone, Copy, PartialEq, Eq, Structural)]
pub enum RequestState {
    Header,
    Body,
}

/// The codec that frames JSON messages.
#[derive(Debug, Clone, Copy, PartialEq, Eq, Structural)]
pub struct JsonCodec {
    /// The part of the request expected next.
    pub state: RequestState,
    /// The length of the body, once the header has given it.
    pub cont_len: usize,
}

impl JsonCodec {
    /// A codec that expects a header, with no body length yet.
    pub fn new() -> (c: JsonCodec)
        ensures
            c.state == RequestState::Header,
            c.cont_len == 0,
    {
        JsonCodec { state: RequestState::Header, cont_len: 0 }
    }

    /// Decodes the bytes at hand into one frame. `parsed` is the outcome of
    /// reading those bytes as a `JsonMsg`: where they are one, the frame is
    /// a copy of all of them; where they are not, the error is passed on.
    /// The bytes at hand are left as they are.
    pub fn decode<E>(&mut self, src: &BytesMut, parsed: Result<(), E>) -> (r: Result<Option<BytesMut>, E>)
        ensures
            *final(self) == *old(self),
            match parsed {
                Ok(_) => r matches Ok(Some(frame)) && bytes_of(frame) == bytes_of(*src),
                Err(e) => r == Err::<Option<BytesMut>, E>(e),
            },
    {
        match parsed {
            Ok(()) => Ok(Some(bytes_clone(src))),
            Err(e) => Err(e),
        }
    }

    /// Encodes one message, given as its JSON text `json`, by appending
    /// that text to `dst`.
    pub fn encode(&mut self, json: &[u8], dst: &mut BytesMut)
        requires
            bytes_of(*old(dst)).len() + json@.len() <= isize::MAX,
        ensures
            *final(self) == *old(self),
            bytes_of(*final(dst)) == bytes_of(*old(dst)) + json@,
    {
        bytes_extend(dst, json);
    }
}

} // verus!
