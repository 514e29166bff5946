use bittorrent::client::download::{
    assemble, next_turn, Action, Download, Fetch, Phase, Turn, CHUNK_SIZE,
};
use bittorrent::client::message::payload::Request;
use bittorrent::client::message::Incoming;
use bittorrent::client::stream::{frame_length, read_frame};
use bittorrent::client::Client;
use bittorrent::ben::FormatError;
use bittorrent::error::Fault;
use bittorrent::hash;
use bittorrent::torrent::info::Info;
use bittorrent::torrent::Torrent;
use bytes::Bytes;

fn content(n: usize) -> Vec<u8> {
    (0..n).map(|i| (i * 31 % 251) as u8).collect()
}

fn torrent_for(data: &[u8], piece_length: usize) -> Torrent {
    let mut pieces = Vec::new();
    for chunk in data.chunks(piece_length) {
        pieces.extend_from_slice(hash::Hash::encode(chunk).as_bytes());
    }
    Torrent {
        announce: b"http://tracker/announce".to_vec(),
        info: Info::new(data.len() as u32, b"file".to_vec(), piece_length as u32, pieces).unwrap(),
    }
}

fn message(code: u8, payload: &[u8]) -> Incoming {
    let mut body = vec![code];
    body.extend_from_slice(payload);
    read_frame(body.len() as u32, Bytes::from(body)).unwrap()
}

fn block(index: u32, begin: u32, data: &[u8]) -> Incoming {
    let mut payload = Vec::new();
    payload.extend_from_slice(&index.to_be_bytes());
    payload.extend_from_slice(&begin.to_be_bytes());
    payload.extend_from_slice(data);
    message(7, &payload)
}

/// Reads a frame that the client sent as the request that it holds.
fn request_in(frame: &Bytes) -> Request {
    assert_eq!(frame_length([frame[0], frame[1], frame[2], frame[3]]), 13);
    assert_eq!(frame.len(), 17);
    assert_eq!(frame[4], 6);
    let word = |at: usize| u32::from_be_bytes([frame[at], frame[at + 1], frame[at + 2], frame[at + 3]]);
    Request::new(word(5), word(9), word(13))
}

/// A peer that holds `data` and answers every request with the bytes asked for.
fn serve(data: &[u8], piece_length: usize, mut d: Download) -> Result<Vec<u8>, Fault> {
    let mut action = d.on_message(&message(5, &[0xff]));
    match &action {
        Action::Send(f) => assert_eq!(&f[..], &[0u8, 0, 0, 1, 2]),
        other => panic!("{:?}", other),
    }
    assert_eq!(d.phase(), Phase::AwaitUnchoke);
    action = d.on_message(&message(1, &[]));
    loop {
        match action {
            Action::Send(f) => {
                assert_eq!(d.phase(), Phase::AwaitPiece);
                let r = request_in(&f);
                assert!(r.length <= CHUNK_SIZE);
                let from = r.index as usize * piece_length + r.begin as usize;
                let reply = block(r.index, r.begin, &data[from..from + r.length as usize]);
                action = d.on_message(&reply);
            }
            Action::Done(bytes) => {
                assert_eq!(d.phase(), Phase::Done);
                return Ok(bytes);
            }
            Action::Fail(e) => {
                assert_eq!(d.phase(), Phase::Failed);
                return Err(e);
            }
        }
    }
}

#[test]
fn chunk_size_is_16_kib() {
    assert_eq!(CHUNK_SIZE, 16 * 1024);
}

#[test]
fn plan_covers_the_piece_in_chunks() {
    let data = content(40000);
    let t = torrent_for(&data, 40000);
    let f = t.fetch_index(0).unwrap();
    assert_eq!(f.hash, hash::Hash::encode(&data));
    assert_eq!(
        f.parts,
        vec![
            Request::new(0, 0, 16384),
            Request::new(0, 16384, 16384),
            Request::new(0, 32768, 7232),
        ]
    );
    assert_eq!(t.fetch_index(1).err(), Some(Fault::Index));
}

#[test]
fn plan_of_the_last_piece_is_shorter() {
    let data = content(17);
    let t = torrent_for(&data, 8);
    let plans = t.fetch_all();
    assert_eq!(plans.len(), 3);
    assert_eq!(plans[0].parts, vec![Request::new(0, 0, 8)]);
    assert_eq!(plans[1].parts, vec![Request::new(1, 0, 8)]);
    assert_eq!(plans[2].parts, vec![Request::new(2, 0, 1)]);
    assert_eq!(plans[2].hash, hash::Hash::encode(&data[16..]));
}

#[test]
fn plan_of_a_piece_of_whole_chunks() {
    let data = content(32768);
    let t = torrent_for(&data, 32768);
    let f = t.fetch_index(0).unwrap();
    assert_eq!(
        f.parts,
        vec![Request::new(0, 0, 16384), Request::new(0, 16384, 16384)]
    );
}

#[test]
fn fetch_piece_in_turn() {
    let data = content(40000);
    let t = torrent_for(&data, 40000);
    let d = Download::new(t.fetch_index(0).unwrap());
    assert_eq!(d.phase(), Phase::AwaitBitfield);
    assert_eq!(serve(&data, 40000, d), Ok(data));
}

#[test]
fn integrity_gate() {
    let data = content(20000);
    let t = torrent_for(&data, 20000);
    let mut forged = data.clone();
    forged[19999] ^= 1;
    let d = Download::new(t.fetch_index(0).unwrap());
    assert_eq!(serve(&forged, 20000, d), Err(Fault::Integrity));
}

#[test]
fn integrity_gate_on_a_fabricated_payload() {
    let fetch = Fetch {
        hash: hash::Hash::encode(b"what was promised"),
        parts: vec![Request::new(0, 0, 17)],
    };
    let mut d = Download::new(fetch);
    d.on_message(&message(5, &[]));
    d.on_message(&message(1, &[]));
    let action = d.on_message(&block(0, 0, b"what was sent...."));
    assert!(matches!(action, Action::Fail(Fault::Integrity)));
    assert_eq!(d.phase(), Phase::Failed);

    let fetch = Fetch {
        hash: hash::Hash::encode(b"what was promised"),
        parts: vec![Request::new(0, 0, 17)],
    };
    let mut d = Download::new(fetch);
    d.on_message(&message(5, &[]));
    d.on_message(&message(1, &[]));
    match d.on_message(&block(0, 0, b"what was promised")) {
        Action::Done(bytes) => assert_eq!(bytes, b"what was promised"),
        other => panic!("{:?}", other),
    }
}

#[test]
fn messages_out_of_turn_fail_the_exchange() {
    let plan = || Fetch {
        hash: hash::Hash::encode(b"x"),
        parts: vec![Request::new(0, 0, 1)],
    };
    // an unchoke where the bitfield is due
    let mut d = Download::new(plan());
    assert!(matches!(
        d.on_message(&message(1, &[])),
        Action::Fail(Fault::Protocol)
    ));
    assert_eq!(d.phase(), Phase::Failed);
    // a bitfield where the unchoke is due
    let mut d = Download::new(plan());
    d.on_message(&message(5, &[]));
    assert!(matches!(
        d.on_message(&message(5, &[])),
        Action::Fail(Fault::Protocol)
    ));
    // an unchoke where a block is due
    let mut d = Download::new(plan());
    d.on_message(&message(5, &[]));
    d.on_message(&message(1, &[]));
    assert!(matches!(
        d.on_message(&message(1, &[])),
        Action::Fail(Fault::Protocol)
    ));
    // a block that is cut short
    let mut d = Download::new(plan());
    d.on_message(&message(5, &[]));
    d.on_message(&message(1, &[]));
    assert!(matches!(
        d.on_message(&message(7, &[0, 0, 0])),
        Action::Fail(Fault::Format(FormatError::Shape))
    ));
    // anything after the end
    let mut d = Download::new(plan());
    d.on_message(&message(5, &[]));
    d.on_message(&message(1, &[]));
    assert!(matches!(d.on_message(&block(0, 0, b"x")), Action::Done(_)));
    assert!(matches!(
        d.on_message(&block(0, 0, b"x")),
        Action::Fail(Fault::Protocol)
    ));
    assert_eq!(d.phase(), Phase::Failed);
}

#[test]
fn assemble_joins_in_index_order() {
    assert_eq!(
        assemble(&vec![vec![1, 2], vec![], vec![3], vec![4, 5, 6]]),
        vec![1, 2, 3, 4, 5, 6]
    );
    assert_eq!(assemble(&vec![]), Vec::<u8>::new());
}

#[test]
fn end_to_end() {
    let data = content(1 << 20);
    let t = torrent_for(&data, 1 << 18);
    let client = Client::new(t);
    assert_eq!(client.torrent.info.piece_count(), 4);
    let mut pieces = Vec::new();
    for index in 0..4u32 {
        let d = client.download_piece(index).unwrap();
        let piece = serve(&data, 1 << 18, d).unwrap();
        assert_eq!(
            hash::Hash::encode(&piece),
            client.torrent.info.piece_at(index as usize).unwrap()
        );
        pieces.push(piece);
    }
    assert!(client.download_piece(4).is_err());
    let file = assemble(&pieces);
    assert_eq!(file.len(), 1 << 20);
    assert_eq!(file, data);
}

#[test]
fn one_bad_piece_fails_the_download() {
    let data = content(1 << 16);
    let t = torrent_for(&data, 1 << 14);
    let mut served = data.clone();
    served[(1 << 15) + 5] ^= 0x80;
    let mut outcome = Vec::new();
    for f in t.fetch_all() {
        outcome.push(serve(&served, 1 << 14, Download::new(f)).map(|p| p.len()));
    }
    assert_eq!(
        outcome,
        vec![Ok(1 << 14), Ok(1 << 14), Err(Fault::Integrity), Ok(1 << 14)]
    );
}

#[test]
fn turns_of_a_download() {
    assert_eq!(next_turn(3, 0, Ok(())), Turn::Fetch(0));
    assert_eq!(next_turn(3, 2, Ok(())), Turn::Fetch(2));
    assert_eq!(next_turn(3, 3, Ok(())), Turn::Join);
    assert_eq!(next_turn(0, 0, Ok(())), Turn::Join);
    assert_eq!(
        next_turn(3, 1, Err(Fault::Integrity)),
        Turn::Abort(Fault::Integrity)
    );
    assert_eq!(
        next_turn(3, 3, Err(Fault::Network)),
        Turn::Abort(Fault::Network)
    );
}

#[test]
fn a_download_stops_at_the_first_failed_piece() {
    let data = content(1 << 16);
    let t = torrent_for(&data, 1 << 14);
    let mut served = data.clone();
    served[(1 << 15) + 5] ^= 0x80;
    let mut plans = t.fetch_all().into_iter();
    let count = plans.len();
    let mut pieces: Vec<Vec<u8>> = Vec::new();
    let mut last = Ok(());
    let mut asked = Vec::new();
    let outcome = loop {
        match next_turn(count, pieces.len(), last) {
            Turn::Fetch(i) => {
                asked.push(i);
                let d = Download::new(plans.next().unwrap());
                match serve(&served, 1 << 14, d) {
                    Ok(p) => pieces.push(p),
                    Err(e) => last = Err(e),
                }
            }
            Turn::Join => break Ok(assemble(&pieces)),
            Turn::Abort(e) => break Err(e),
        }
    };
    assert_eq!(outcome, Err(Fault::Integrity));
    assert_eq!(asked, vec![0, 1, 2]);
}

#[test]
fn a_download_joins_when_every_piece_came() {
    let data = content(50000);
    let t = torrent_for(&data, 1 << 14);
    let mut plans = t.fetch_all().into_iter();
    let count = plans.len();
    let mut pieces: Vec<Vec<u8>> = Vec::new();
    let outcome = loop {
        match next_turn(count, pieces.len(), Ok(())) {
            Turn::Fetch(i) => {
                assert_eq!(i, pieces.len());
                let d = Download::new(plans.next().unwrap());
                pieces.push(serve(&data, 1 << 14, d).unwrap());
            }
            Turn::Join => break Ok(assemble(&pieces)),
            Turn::Abort(e) => break Err(e),
        }
    };
    assert_eq!(outcome, Ok(data));
}
