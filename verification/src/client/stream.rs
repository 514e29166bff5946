use super::buf::{be32, be32_value, freeze, new_buffer, put_slice, put_u32, put_u8, remaining, unread, written};
use super::message::{Code, Incoming};
use crate::error::Fault;
use bytes::{Bytes, BytesMut};
use vstd::prelude::*;

verus! {

/// What can be read from the payload of a message.
pub trait Decodable: Sized {
    /// Why `input` is no value of this kind, where it is none.
    spec fn refused(input: Seq<u8>) -> Option<Fault>;

    /// `input` decodes to `out` and leaves `rest` unread.
    spec fn decodes(input: Seq<u8>, out: Self, rest: Seq<u8>) -> bool;

    fn decode(bytes: &mut Bytes) -> (r: Result<Self, Fault>)
        ensures
            match r {
                Ok(v) => Self::refused(unread(*old(bytes))) is None && Self::decodes(
                    unread(*old(bytes)),
                    v,
                    unread(*final(bytes)),
                ),
                Err(e) => Self::refused(unread(*old(bytes))) == Some(e),
            },
    ;
}

/// What can be written into a message.
pub trait Encodable: Sized {
    /// The bytes that stand for the value on the wire.
    spec fn wire(&self) -> Seq<u8>;

    /// Writes the value behind what `buf` holds.
    fn encode(&self, buf: &mut BytesMut)
        ensures
            written(*final(buf)) == written(*old(buf)) + self.wire(),
    ;

    /// The number of bytes that the value takes on the wire.
    fn len(&self) -> (r: usize)
        ensures
            r == self.wire().len(),
    ;
}

/// The first byte of a handshake: the length of the protocol's name.
pub const PROTOCOL_ID: u8 = 19;

/// The length of a handshake in bytes.
pub const HANDSHAKE_SIZE: usize = 68;

/// The protocol's name, `BitTorrent protocol`.
pub open spec fn protocol_name() -> Seq<u8> {
    seq![66u8, 105, 116, 84, 111, 114, 114, 101, 110, 116, 32, 112, 114, 111, 116, 111, 99, 111, 108]
}

/// The eight bytes that a handshake holds back, all zero.
pub open spec fn reserved() -> Seq<u8> {
    seq![0u8, 0, 0, 0, 0, 0, 0, 0]
}

/// The handshake that names the descriptor `info` and the client `id`.
pub open spec fn handshake_bytes(info: Seq<u8>, id: Seq<u8>) -> Seq<u8> {
    seq![19u8] + protocol_name() + reserved() + info + id
}

/// What a handshake of the remote side says: the descriptor hash and the
/// peer id that it holds. A network error where fewer than 68 bytes came, a
/// protocol error where they do not start with the protocol's name and its length.
pub open spec fn handshake_read(s: Seq<u8>) -> Result<(Seq<u8>, Seq<u8>), Fault> {
    if s.len() < 68 {
        Err(Fault::Network)
    } else if s[0] != 19 || s.subrange(1, 20) != protocol_name() {
        Err(Fault::Protocol)
    } else {
        Ok((s.subrange(28, 48), s.subrange(48, 68)))
    }
}

/// A handshake that was written is read back as it was.
pub proof fn lemma_handshake_round_trip(info: Seq<u8>, id: Seq<u8>)
    requires
        info.len() == 20,
        id.len() == 20,
    ensures
        handshake_bytes(info, id).len() == 68,
        handshake_read(handshake_bytes(info, id)) == Ok::<(Seq<u8>, Seq<u8>), Fault>((info, id)),
{
    let s = handshake_bytes(info, id);
    assert(s.subrange(1, 20) =~= protocol_name());
    assert(s.subrange(28, 48) =~= info);
    assert(s.subrange(48, 68) =~= id);
}

/// What both sides send first: the descriptor they mean and who they are.
#[derive(Clone, Copy, Debug, PartialEq, Eq)]
pub struct Handshake {
    pub info_hash: crate::hash::Hash,
    pub peer_id: crate::hash::Hash,
}

fn name_bytes() -> (r: [u8; 19])
    ensures
        r@ == protocol_name(),
{
    let r: [u8; 19] = [66, 105, 116, 84, 111, 114, 114, 101, 110, 116, 32, 112, 114, 111, 116, 111, 99, 111, 108];
    assert(r@ =~= protocol_name());
    r
}

impl Handshake {
    /// The handshake of the client `id` for the descriptor with hash `info`.
    pub fn new(id: crate::hash::Hash, info: crate::hash::Hash) -> (r: Self)
        ensures
            r.info_hash == info,
            r.peer_id == id,
    {
        Handshake { info_hash: info, peer_id: id }
    }

    /// The 68 bytes of the handshake.
    pub fn to_bytes(&self) -> (r: Bytes)
        ensures
            unread(r) == handshake_bytes(self.info_hash@, self.peer_id@),
            unread(r).len() == 68,
    {
        let mut buff = new_buffer(HANDSHAKE_SIZE);
        put_u8(&mut buff, PROTOCOL_ID);
        let name = name_bytes();
        put_slice(&mut buff, vstd::array::array_as_slice(&name));
        let zeros: [u8; 8] = [0u8; 8];
        assert(zeros@ =~= reserved());
        put_slice(&mut buff, vstd::array::array_as_slice(&zeros));
        put_slice(&mut buff, self.info_hash.as_bytes());
        put_slice(&mut buff, self.peer_id.as_bytes());
        assert(written(buff) =~= handshake_bytes(self.info_hash@, self.peer_id@));
        freeze(buff)
    }

    /// Reads the handshake that the remote side sent.
    pub fn from_bytes(bytes: &[u8]) -> (r: Result<Self, Fault>)
        ensures
            match handshake_read(bytes@) {
                Ok((info, id)) => r matches Ok(h) && h.info_hash@ == info && h.peer_id@ == id,
                Err(e) => r == Err::<Handshake, Fault>(e),
            },
    {
        if bytes.len() < HANDSHAKE_SIZE {
            return Err(Fault::Network);
        }
        if bytes[0] != PROTOCOL_ID {
            return Err(Fault::Protocol);
        }
        let name = name_bytes();
        if !crate::ben::bytes_equal(vstd::slice::slice_subrange(bytes, 1, 20), vstd::array::array_as_slice(&name)) {
            return Err(Fault::Protocol);
        }
        Ok(
            Handshake {
                info_hash: crate::hash::Hash::copy_from(bytes, 28),
                peer_id: crate::hash::Hash::copy_from(bytes, 48),
            },
        )
    }
}

/// Where a session with a peer stands.
#[derive(Clone, Copy, Debug, PartialEq, Eq, Structural)]
pub enum State {
    /// The connection is being opened.
    Connecting,
    /// The handshake was sent and the peer's is awaited.
    HandshakePending,
    /// Messages may be exchanged.
    Ready,
    /// The session is over.
    Closed,
}

/// A session with one peer. It knows the peer's id from the moment the
/// handshake has succeeded, and no earlier.
#[derive(Debug)]
pub struct Session {
    state: State,
    peer_id: Option<crate::hash::Hash>,
}

impl Session {
    #[verifier::type_invariant]
    spec fn well_formed(self) -> bool {
        self.state == State::Ready <==> self.peer_id is Some
    }

    /// Where the session stands.
    pub closed spec fn spec_state(&self) -> State {
        self.state
    }

    /// The id of the peer, once the session is ready.
    pub closed spec fn spec_peer(&self) -> Option<Seq<u8>> {
        match self.peer_id {
            Some(h) => Some(h@),
            None => None,
        }
    }

    /// A session whose connection is yet to be opened.
    pub fn new() -> (r: Self)
        ensures
            r.spec_state() == State::Connecting,
            r.spec_peer() is None,
    {
        Session { state: State::Connecting, peer_id: None }
    }

    /// Where the session stands.
    #[verifier::when_used_as_spec(spec_state)]
    pub fn state(&self) -> (r: State)
        ensures
            r == self.spec_state(),
    {
        self.state
    }

    /// The id of the peer: known if and only if the session is ready.
    pub fn peer_id(&self) -> (r: Option<crate::hash::Hash>)
        ensures
            r is Some <==> self.spec_state() == State::Ready,
            match r {
                Some(h) => self.spec_peer() == Some(h@),
                None => self.spec_peer() is None,
            },
    {
        proof {
            use_type_invariant(self);
        }
        self.peer_id
    }

    /// The connection is open. A session that was connecting now awaits the
    /// peer's handshake, and the result is the handshake to send. In any
    /// other state this is out of turn: the session is closed.
    pub fn connected(&mut self, id: crate::hash::Hash, info: crate::hash::Hash) -> (r: Result<Bytes, Fault>)
        ensures
            final(self).spec_peer() is None,
            match r {
                Ok(b) => old(self).spec_state() == State::Connecting && final(self).spec_state()
                    == State::HandshakePending && unread(b) == handshake_bytes(info@, id@),
                Err(e) => old(self).spec_state() != State::Connecting && final(self).spec_state() == State::Closed
                    && e == Fault::Protocol,
            },
    {
        match self.state {
            State::Connecting => {
                *self = Session { state: State::HandshakePending, peer_id: None };
                Ok(Handshake::new(id, info).to_bytes())
            },
            _ => {
                *self = Session { state: State::Closed, peer_id: None };
                Err(Fault::Protocol)
            },
        }
    }

    /// The peer's answer to the handshake came, `bytes` being all that could
    /// be read of it. The session is ready if it was awaiting the answer
    /// and the answer is a handshake, and closed otherwise: never ready after an error.
    pub fn reply(&mut self, bytes: &[u8]) -> (r: Result<crate::hash::Hash, Fault>)
        ensures
            match r {
                Ok(h) => {
                    &&& old(self).spec_state() == State::HandshakePending
                    &&& handshake_read(bytes@) is Ok
                    &&& handshake_read(bytes@)->Ok_0.1 == h@
                    &&& final(self).spec_state() == State::Ready
                    &&& final(self).spec_peer() == Some(h@)
                },
                Err(e) => final(self).spec_state() == State::Closed && final(self).spec_peer() is None && (if old(
                    self,
                ).spec_state() == State::HandshakePending {
                    handshake_read(bytes@) == Err::<(Seq<u8>, Seq<u8>), Fault>(e)
                } else {
                    e == Fault::Protocol
                }),
            },
    {
        match self.state {
            State::HandshakePending => match Handshake::from_bytes(bytes) {
                Ok(h) => {
                    *self = Session { state: State::Ready, peer_id: Some(h.peer_id) };
                    Ok(h.peer_id)
                },
                Err(e) => {
                    *self = Session { state: State::Closed, peer_id: None };
                    Err(e)
                },
            },
            _ => {
                *self = Session { state: State::Closed, peer_id: None };
                Err(Fault::Protocol)
            },
        }
    }

    /// Reading or writing failed: the session is closed, whatever state it
    /// was in, and the failure is a network error.
    pub fn failed(&mut self) -> (r: Fault)
        ensures
            r == Fault::Network,
            final(self).spec_state() == State::Closed,
            final(self).spec_peer() is None,
    {
        *self = Session { state: State::Closed, peer_id: None };
        Fault::Network
    }
}

/// The length that the four bytes in front of a message give.
pub fn frame_length(header: [u8; 4]) -> (r: u32)
    ensures
        r == be32_value(header@),
{
    let a: u32 = header[0] as u32;
    let b: u32 = header[1] as u32;
    let c: u32 = header[2] as u32;
    let d: u32 = header[3] as u32;
    a * 0x100_0000 + b * 0x1_0000 + c * 0x100 + d
}

/// A message as it goes over the wire: the length of what follows, in
/// four bytes, then the message.
pub fn frame<M: Encodable>(msg: &M) -> (r: Bytes)
    requires
        msg.wire().len() <= u32::MAX,
    ensures
        unread(r) == be32(msg.wire().len() as u32) + msg.wire(),
{
    let n: usize = msg.len();
    let mut buf = new_buffer(4);
    put_u32(&mut buf, n as u32);
    msg.encode(&mut buf);
    freeze(buf)
}

/// What `read_frame` makes of a body that was announced with `length` bytes.
pub open spec fn frame_read(length: u32, body: Seq<u8>) -> Option<Fault> {
    if body.len() < length {
        Some(Fault::Network)
    } else if body.len() > length {
        Some(Fault::Protocol)
    } else {
        Incoming::refused(body)
    }
}

/// Decodes a message whose length was announced as `length`, `body` being
/// what came behind the length before the stream ended or the message was
/// complete. A body that is too short is a network error.
pub fn read_frame(length: u32, body: Bytes) -> (r: Result<Incoming, Fault>)
    ensures
        match r {
            Ok(m) => frame_read(length, unread(body)) is None && Code::of(unread(body)[0]) == Some(m.code)
                && m.body() == unread(body).skip(1),
            Err(e) => frame_read(length, unread(body)) == Some(e),
        },
{
    let n: usize = remaining(&body);
    if n < length as usize {
        return Err(Fault::Network);
    }
    if n > length as usize {
        return Err(Fault::Protocol);
    }
    let mut body = body;
    Incoming::decode(&mut body)
}

} // verus!
