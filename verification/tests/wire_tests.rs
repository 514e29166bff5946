use bittorrent::ben::FormatError;
use bittorrent::client::message::payload::{Piece, Request};
use bittorrent::client::message::{Code, Incoming, Outgoing};
use bittorrent::client::stream::{
    frame, frame_length, read_frame, Decodable, Encodable, Handshake, Session, State,
};
use bittorrent::error::Fault;
use bittorrent::hash;
use bytes::{Bytes, BytesMut};

fn reply(name: &[u8], info: [u8; 20], id: [u8; 20]) -> Vec<u8> {
    let mut out = vec![19u8];
    out.extend_from_slice(name);
    out.extend_from_slice(&[0u8; 8]);
    out.extend_from_slice(&info);
    out.extend_from_slice(&id);
    out
}

#[test]
fn code_values() {
    assert_eq!(Code::Unchoke.byte(), 1);
    assert_eq!(Code::Interested.byte(), 2);
    assert_eq!(Code::Bitfield.byte(), 5);
    assert_eq!(Code::Request.byte(), 6);
    assert_eq!(Code::Piece.byte(), 7);
    for c in [
        Code::Unchoke,
        Code::Interested,
        Code::Bitfield,
        Code::Request,
        Code::Piece,
    ] {
        assert_eq!(Code::from_byte(c.byte()), Some(c));
    }
    assert_eq!(Code::from_byte(0), None);
    assert_eq!(Code::from_byte(3), None);
    assert_eq!(Code::from_byte(8), None);
}

#[test]
fn code_decodes_from_the_first_byte() {
    let mut b = Bytes::from(vec![5u8, 9, 9]);
    assert_eq!(Code::decode(&mut b), Ok(Code::Bitfield));
    assert_eq!(&b[..], &[9u8, 9]);
    let mut unknown = Bytes::from(vec![9u8]);
    assert_eq!(Code::decode(&mut unknown), Err(Fault::Protocol));
    let mut empty = Bytes::new();
    assert_eq!(Code::decode(&mut empty), Err(Fault::Protocol));
}

#[test]
fn request_is_three_big_endian_numbers() {
    let r = Request::new(1, 0x4000, 0x0102_0304);
    let mut buf = BytesMut::new();
    r.encode(&mut buf);
    assert_eq!(&buf[..], &[0u8, 0, 0, 1, 0, 0, 0x40, 0, 1, 2, 3, 4]);
    assert_eq!(r.len(), 12);
}

#[test]
fn encode_writes_behind_what_is_there() {
    let mut buf = BytesMut::new();
    Code::Interested.encode(&mut buf);
    Code::Piece.encode(&mut buf);
    assert_eq!(&buf[..], &[2u8, 7]);
    assert_eq!(Code::Interested.len(), 1);
}

#[test]
fn frames_carry_their_length() {
    assert_eq!(&frame(&Code::Interested)[..], &[0u8, 0, 0, 1, 2]);
    let out = Outgoing::request(Request::new(2, 16384, 100));
    assert_eq!(out.code, Code::Request);
    assert_eq!(out.len(), 13);
    assert_eq!(
        &frame(&out)[..],
        &[0u8, 0, 0, 13, 6, 0, 0, 0, 2, 0, 0, 0x40, 0, 0, 0, 0, 100]
    );
}

#[test]
fn frame_length_is_big_endian() {
    assert_eq!(frame_length([0, 0, 0, 13]), 13);
    assert_eq!(frame_length([1, 2, 3, 4]), 0x0102_0304);
    assert_eq!(frame_length([255, 255, 255, 255]), u32::MAX);
}

#[test]
fn piece_takes_the_rest_of_the_frame_as_data() {
    let mut b = Bytes::from(vec![0u8, 0, 0, 3, 0, 0, 0x40, 0, 10, 11, 12]);
    let p = Piece::decode(&mut b).unwrap();
    assert_eq!(
        p,
        Piece {
            index: 3,
            begin: 16384,
            data: vec![10, 11, 12]
        }
    );
    assert!(b.is_empty());
    let mut no_data = Bytes::from(vec![0u8; 8]);
    assert_eq!(Piece::decode(&mut no_data).unwrap().data, Vec::<u8>::new());
    let mut short = Bytes::from(vec![0u8; 7]);
    assert_eq!(
        Piece::decode(&mut short),
        Err(Fault::Format(FormatError::Shape))
    );
}

#[test]
fn incoming_keeps_the_payload() {
    let mut b = Bytes::from(vec![7u8, 0, 0, 0, 1, 0, 0, 0, 2, 42]);
    let m = Incoming::decode(&mut b).unwrap();
    assert_eq!(m.code, Code::Piece);
    let p: Piece = m.payload().unwrap();
    assert_eq!((p.index, p.begin, p.data), (1, 2, vec![42]));
    // the message is left as it was
    let again: Piece = m.payload().unwrap();
    assert_eq!(again.data, vec![42]);
    assert_eq!(m.expect(Code::Piece), Ok(()));
    assert_eq!(m.expect(Code::Unchoke), Err(Fault::Protocol));
}

#[test]
fn read_frame_holds_the_body_to_its_length() {
    let m = read_frame(1, Bytes::from(vec![1u8])).unwrap();
    assert_eq!(m.code, Code::Unchoke);
    // the stream ended early
    assert_eq!(
        read_frame(5, Bytes::from(vec![7u8, 0])).err(),
        Some(Fault::Network)
    );
    assert_eq!(
        read_frame(1, Bytes::from(vec![1u8, 0])).err(),
        Some(Fault::Protocol)
    );
    // a frame of no bytes has no code
    assert_eq!(read_frame(0, Bytes::new()).err(), Some(Fault::Protocol));
    assert_eq!(
        read_frame(1, Bytes::from(vec![99u8])).err(),
        Some(Fault::Protocol)
    );
}

#[test]
fn handshake_is_68_bytes() {
    let hs = Handshake::new(hash::Hash::new([2u8; 20]), hash::Hash::new([1u8; 20]));
    let bytes = hs.to_bytes();
    assert_eq!(bytes.len(), 68);
    assert_eq!(bytes[0], 19);
    assert_eq!(&bytes[1..20], b"BitTorrent protocol");
    assert_eq!(&bytes[20..28], &[0u8; 8]);
    assert_eq!(&bytes[28..48], &[1u8; 20]);
    assert_eq!(&bytes[48..68], &[2u8; 20]);
    assert_eq!(Handshake::from_bytes(&bytes), Ok(hs));
}

#[test]
fn handshake_rejection() {
    let good = reply(b"BitTorrent protocol", [1; 20], [2; 20]);
    assert!(Handshake::from_bytes(&good).is_ok());
    let wrong_name = reply(b"BitTorrent protocoL", [1; 20], [2; 20]);
    assert_eq!(Handshake::from_bytes(&wrong_name), Err(Fault::Protocol));
    let mut wrong_id = good.clone();
    wrong_id[0] = 18;
    assert_eq!(Handshake::from_bytes(&wrong_id), Err(Fault::Protocol));
    assert_eq!(Handshake::from_bytes(&good[..67]), Err(Fault::Network));
    assert_eq!(Handshake::from_bytes(&[]), Err(Fault::Network));
    // reserved bytes are not looked at
    let mut flags = good.clone();
    flags[25] = 0x10;
    assert_eq!(
        Handshake::from_bytes(&flags).unwrap().peer_id,
        hash::Hash::new([2; 20])
    );
}

#[test]
fn session_becomes_ready_on_a_handshake() {
    let mut s = Session::new();
    assert_eq!(s.state(), State::Connecting);
    assert_eq!(s.peer_id(), None);
    let out = s
        .connected(hash::Hash::new([9; 20]), hash::Hash::new([1; 20]))
        .unwrap();
    assert_eq!(&out[..], &reply(b"BitTorrent protocol", [1; 20], [9; 20])[..]);
    assert_eq!(s.state(), State::HandshakePending);
    assert_eq!(s.peer_id(), None);
    let id = s
        .reply(&reply(b"BitTorrent protocol", [1; 20], [2; 20]))
        .unwrap();
    assert_eq!(id, hash::Hash::new([2; 20]));
    assert_eq!(s.state(), State::Ready);
    assert_eq!(s.peer_id(), Some(hash::Hash::new([2; 20])));
    assert_eq!(s.failed(), Fault::Network);
    assert_eq!(s.state(), State::Closed);
    assert_eq!(s.peer_id(), None);
}

#[test]
fn session_is_closed_after_a_rejected_handshake() {
    let mut s = Session::new();
    s.connected(hash::Hash::new([9; 20]), hash::Hash::new([1; 20]))
        .unwrap();
    assert_eq!(
        s.reply(&reply(b"BitTorrent Protocol", [1; 20], [2; 20])),
        Err(Fault::Protocol)
    );
    assert_eq!(s.state(), State::Closed);
    assert_eq!(s.peer_id(), None);

    let mut s = Session::new();
    s.connected(hash::Hash::new([9; 20]), hash::Hash::new([1; 20]))
        .unwrap();
    let whole = reply(b"BitTorrent protocol", [1; 20], [2; 20]);
    assert_eq!(s.reply(&whole[..40]), Err(Fault::Network));
    assert_eq!(s.state(), State::Closed);
    assert_eq!(s.peer_id(), None);
}

#[test]
fn session_is_closed_by_a_step_out_of_turn() {
    let mut s = Session::new();
    assert_eq!(
        s.reply(&reply(b"BitTorrent protocol", [1; 20], [2; 20])),
        Err(Fault::Protocol)
    );
    assert_eq!(s.state(), State::Closed);
    assert_eq!(
        s.connected(hash::Hash::new([9; 20]), hash::Hash::new([1; 20]))
            .err(),
        Some(Fault::Protocol)
    );
    assert_eq!(s.state(), State::Closed);

    let mut s = Session::new();
    assert_eq!(s.failed(), Fault::Network);
    assert_eq!(s.state(), State::Closed);
}
