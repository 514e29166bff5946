use super::buf::{get_u8, put_u8, remaining, share, unread, written};
use super::stream::{Decodable, Encodable};
use crate::error::Fault;
use bytes::{Bytes, BytesMut};
use vstd::prelude::*;

pub mod payload;

verus! {

/// The kind of a message, which its first byte tells.
#[derive(Clone, Copy, Debug, PartialEq, Eq, Structural)]
pub enum Code {
    Interested,
    Bitfield,
    Unchoke,
    Request,
    Piece,
}

impl Code {
    /// The byte that stands for the code on the wire.
    pub open spec fn value(self) -> u8 {
        match self {
            Code::Unchoke => 1,
            Code::Interested => 2,
            Code::Bitfield => 5,
            Code::Request => 6,
            Code::Piece => 7,
        }
    }

    /// The code that `b` stands for, if it stands for one.
    pub open spec fn of(b: u8) -> Option<Code> {
        if b == 1 {
            Some(Code::Unchoke)
        } else if b == 2 {
            Some(Code::Interested)
        } else if b == 5 {
            Some(Code::Bitfield)
        } else if b == 6 {
            Some(Code::Request)
        } else if b == 7 {
            Some(Code::Piece)
        } else {
            None
        }
    }

    /// Each code is read back from its own byte.
    pub proof fn lemma_value_of(self)
        ensures
            Code::of(self.value()) == Some(self),
    {
    }

    /// The byte that stands for the code on the wire.
    pub fn byte(self) -> (r: u8)
        ensures
            r == self.value(),
    {
        match self {
            Code::Unchoke => 1,
            Code::Interested => 2,
            Code::Bitfield => 5,
            Code::Request => 6,
            Code::Piece => 7,
        }
    }

    /// The code that `b` stands for, if it stands for one.
    pub fn from_byte(b: u8) -> (r: Option<Code>)
        ensures
            r == Code::of(b),
    {
        if b == 1 {
            Some(Code::Unchoke)
        } else if b == 2 {
            Some(Code::Interested)
        } else if b == 5 {
            Some(Code::Bitfield)
        } else if b == 6 {
            Some(Code::Request)
        } else if b == 7 {
            Some(Code::Piece)
        } else {
            None
        }
    }
}

impl Decodable for Code {
    open spec fn refused(input: Seq<u8>) -> Option<Fault> {
        if input.len() < 1 || Code::of(input[0]) is None {
            Some(Fault::Protocol)
        } else {
            None
        }
    }

    open spec fn decodes(input: Seq<u8>, out: Self, rest: Seq<u8>) -> bool {
        Code::of(input[0]) == Some(out) && rest == input.skip(1)
    }

    fn decode(bytes: &mut Bytes) -> (r: Result<Self, Fault>) {
        if remaining(bytes) < 1 {
            return Err(Fault::Protocol);
        }
        match Code::from_byte(get_u8(bytes)) {
            Some(c) => Ok(c),
            None => Err(Fault::Protocol),
        }
    }
}

impl Encodable for Code {
    open spec fn wire(&self) -> Seq<u8> {
        seq![self.value()]
    }

    fn encode(&self, buf: &mut BytesMut) {
        put_u8(buf, self.byte());
        assert(written(*buf) =~= written(*old(buf)) + self.wire());
    }

    fn len(&self) -> (r: usize) {
        1
    }
}

/// A message as it came in: its code, and its payload still to be decoded.
#[derive(Debug)]
pub struct Incoming {
    pub code: Code,
    pub data: Bytes,
}

impl Decodable for Incoming {
    open spec fn refused(input: Seq<u8>) -> Option<Fault> {
        Code::refused(input)
    }

    open spec fn decodes(input: Seq<u8>, out: Self, rest: Seq<u8>) -> bool {
        Code::of(input[0]) == Some(out.code) && out.body() == input.skip(1) && rest == input.skip(1)
    }

    fn decode(bytes: &mut Bytes) -> (r: Result<Self, Fault>) {
        match Code::decode(bytes) {
            Ok(code) => {
                let data = share(bytes);
                Ok(Incoming { code, data })
            },
            Err(e) => Err(e),
        }
    }
}

impl Incoming {
    /// The bytes of the payload.
    pub open spec fn body(&self) -> Seq<u8> {
        unread(self.data)
    }

    /// Decodes the payload as a `T`. The message itself is left as it was.
    pub fn payload<T: Decodable>(&self) -> (r: Result<T, Fault>)
        ensures
            match r {
                Ok(v) => T::refused(self.body()) is None && exists|rest: Seq<u8>| T::decodes(self.body(), v, rest),
                Err(e) => T::refused(self.body()) == Some(e),
            },
    {
        let mut copy = share(&self.data);
        let r = T::decode(&mut copy);
        proof {
            if r is Ok {
                assert(T::decodes(self.body(), r->Ok_0, unread(copy)));
            }
        }
        r
    }

    /// Holds the message to the code that the exchange expects next: a
    /// protocol error where it has another.
    pub fn expect(&self, c: Code) -> (r: Result<(), Fault>)
        ensures
            r == (if self.code == c {
                Ok::<(), Fault>(())
            } else {
                Err::<(), Fault>(Fault::Protocol)
            }),
    {
        if self.code == c {
            Ok(())
        } else {
            Err(Fault::Protocol)
        }
    }
}

/// A message to send: its code and its payload.
#[derive(Debug)]
pub struct Outgoing<Payload> {
    pub code: Code,
    pub data: Payload,
}

impl Outgoing<payload::Request> {
    /// The message that asks for the block `data`.
    pub fn request(data: payload::Request) -> (r: Self)
        ensures
            r.code == Code::Request,
            r.data == data,
    {
        Outgoing { code: Code::Request, data }
    }
}

impl Encodable for Outgoing<payload::Request> {
    open spec fn wire(&self) -> Seq<u8> {
        self.code.wire() + self.data.wire()
    }

    fn encode(&self, buf: &mut BytesMut) {
        self.code.encode(buf);
        self.data.encode(buf);
        assert(written(*buf) =~= written(*old(buf)) + self.wire());
    }

    fn len(&self) -> (r: usize) {
        13
    }
}

} // verus!
