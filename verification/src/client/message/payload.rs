use crate::ben::FormatError;
use crate::client::buf::{be32, be32_value, clear, copy_rest, get_u32, put_u32, remaining, unread, written};
use crate::client::stream::{Decodable, Encodable};
use crate::error::Fault;
use bytes::{Bytes, BytesMut};
use vstd::prelude::*;

verus! {

/// Asks for `length` bytes of piece `index`, from offset `begin` of the piece on.
#[derive(Clone, Copy, Debug, PartialEq, Eq, Structural)]
pub struct Request {
    pub index: u32,
    pub begin: u32,
    pub length: u32,
}

impl Request {
    /// The request for `length` bytes of piece `index` from offset `begin` on.
    pub fn new(index: u32, begin: u32, length: u32) -> (r: Self)
        ensures
            r == (Request { index, begin, length }),
    {
        Request { index, begin, length }
    }
}

impl Encodable for Request {
    open spec fn wire(&self) -> Seq<u8> {
        be32(self.index) + be32(self.begin) + be32(self.length)
    }

    fn encode(&self, buf: &mut BytesMut) {
        put_u32(buf, self.index);
        put_u32(buf, self.begin);
        put_u32(buf, self.length);
        assert(written(*buf) =~= written(*old(buf)) + self.wire());
    }

    fn len(&self) -> (r: usize) {
        12
    }
}

/// A block of a piece: the bytes of piece `index` from offset `begin` on.
#[derive(Debug, PartialEq, Eq)]
pub struct Piece {
    pub index: u32,
    pub begin: u32,
    pub data: Vec<u8>,
}

impl Decodable for Piece {
    open spec fn refused(input: Seq<u8>) -> Option<Fault> {
        if input.len() < 8 {
            Some(Fault::Format(FormatError::Shape))
        } else {
            None
        }
    }

    open spec fn decodes(input: Seq<u8>, out: Self, rest: Seq<u8>) -> bool {
        &&& out.index == be32_value(input)
        &&& out.begin == be32_value(input.skip(4))
        &&& out.data@ == input.skip(8)
        &&& rest == Seq::<u8>::empty()
    }

    fn decode(bytes: &mut Bytes) -> (r: Result<Self, Fault>) {
        if remaining(bytes) < 8 {
            return Err(Fault::Format(FormatError::Shape));
        }
        let index = get_u32(bytes);
        let begin = get_u32(bytes);
        let data = copy_rest(bytes);
        clear(bytes);
        assert(data@ =~= unread(*old(bytes)).skip(8));
        Ok(Piece { index, begin, data })
    }
}

} // verus!
