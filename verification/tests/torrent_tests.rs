use bittorrent::ben::{Ben, FormatError};
use bittorrent::error::Fault;
use bittorrent::hash;
use bittorrent::torrent::info::Info;
use bittorrent::torrent::Torrent;

const PIECES: [u8; 60] = [
    0xE8, 0x76, 0xF6, 0x7A, 0x2A, 0x88, 0x86, 0xE8, 0xF3, 0x6B, 0x13, 0x67, 0x26, 0xC3, 0x0F,
    0xA2, 0x97, 0x03, 0x02, 0x2D, 0x6E, 0x22, 0x75, 0xE6, 0x04, 0xA0, 0x76, 0x66, 0x56, 0x73,
    0x6E, 0x81, 0xFF, 0x10, 0xB5, 0x52, 0x04, 0xAD, 0x8D, 0x35, 0xF0, 0x0D, 0x93, 0x7A, 0x02,
    0x13, 0xDF, 0x19, 0x82, 0xBC, 0x8D, 0x09, 0x72, 0x27, 0xAD, 0x9E, 0x90, 0x9A, 0xCC, 0x17,
];

fn sample() -> Vec<u8> {
    let mut bytes = Vec::new();
    bytes.extend_from_slice(
        b"d8:announce55:http://bittorrent-test-tracker.codecrafters.io/announce",
    );
    bytes.extend_from_slice(b"10:created by13:mktorrent 1.1");
    bytes.extend_from_slice(b"4:infod6:lengthi92063e4:name10:sample.txt12:piece lengthi32768e6:pieces60:");
    bytes.extend_from_slice(&PIECES);
    bytes.extend_from_slice(b"ee");
    bytes
}

fn small(length: u32, piece_length: u32) -> Info {
    let count = (length as usize + piece_length as usize - 1) / piece_length as usize;
    Info::new(length, b"a".to_vec(), piece_length, vec![7u8; 20 * count]).unwrap()
}

#[test]
fn test_open() {
    let t = Torrent::load(&sample()).unwrap();
    assert_eq!(
        String::from_utf8(t.announce).unwrap(),
        "http://bittorrent-test-tracker.codecrafters.io/announce"
    )
}

#[test]
fn load_reads_the_description() {
    let t = Torrent::load(&sample()).unwrap();
    assert_eq!(t.info.length(), 92063);
    assert_eq!(t.info.name(), b"sample.txt");
    assert_eq!(t.info.piece_length(), 32768);
    assert_eq!(t.info.piece_count(), 3);
    let digests: Vec<String> = t.info.pieces().iter().map(|h| h.digest()).collect();
    assert_eq!(
        digests,
        vec![
            "e876f67a2a8886e8f36b136726c30fa29703022d",
            "6e2275e604a0766656736e81ff10b55204ad8d35",
            "f00d937a0213df1982bc8d097227ad9e909acc17",
        ]
    );
}

#[test]
fn info_hash_of_the_sample() {
    let t = Torrent::load(&sample()).unwrap();
    assert_eq!(
        t.info.hash().digest(),
        "d69f91e6b2ae4c542468d1073a71d4ea13879a7f"
    );
}

#[test]
fn info_hash_agrees_with_another_encoder() {
    let t = Torrent::load(&sample()).unwrap();
    let mut map = std::collections::HashMap::new();
    map.insert(b"length".to_vec(), serde_bencode::value::Value::Int(92063));
    map.insert(
        b"name".to_vec(),
        serde_bencode::value::Value::Bytes(b"sample.txt".to_vec()),
    );
    map.insert(
        b"piece length".to_vec(),
        serde_bencode::value::Value::Int(32768),
    );
    map.insert(
        b"pieces".to_vec(),
        serde_bencode::value::Value::Bytes(PIECES.to_vec()),
    );
    let bytes = serde_bencode::to_bytes(&serde_bencode::value::Value::Dict(map)).unwrap();
    assert_eq!(t.info.hash(), hash::Hash::encode(&bytes));
}

#[test]
fn info_hash_is_the_same_each_time() {
    let t = Torrent::load(&sample()).unwrap();
    assert_eq!(t.info.hash(), t.info.hash());
    let again = Torrent::load(&sample()).unwrap();
    assert_eq!(t.info.hash(), again.info.hash());
}

#[test]
fn info_hash_changes_with_every_field() {
    let base = Info::new(17, b"a".to_vec(), 8, vec![7u8; 60]).unwrap();
    let name = Info::new(17, b"b".to_vec(), 8, vec![7u8; 60]).unwrap();
    let length = Info::new(18, b"a".to_vec(), 8, vec![7u8; 60]).unwrap();
    let piece_length = Info::new(17, b"a".to_vec(), 7, vec![7u8; 60]).unwrap();
    let mut other = vec![7u8; 60];
    other[59] = 8;
    let fingerprint = Info::new(17, b"a".to_vec(), 8, other).unwrap();
    assert_ne!(base.hash(), name.hash());
    assert_ne!(base.hash(), length.hash());
    assert_ne!(base.hash(), piece_length.hash());
    assert_ne!(base.hash(), fingerprint.hash());
}

#[test]
fn info_hash_is_taken_from_the_canonical_encoding() {
    // the same description with the keys of `info` in another order
    let mut bytes = Vec::new();
    bytes.extend_from_slice(b"d4:infod6:pieces60:");
    bytes.extend_from_slice(&PIECES);
    bytes.extend_from_slice(b"4:name10:sample.txt12:piece lengthi32768e6:lengthi92063ee");
    bytes.extend_from_slice(b"8:announce3:urle");
    let t = Torrent::load(&bytes).unwrap();
    assert_eq!(
        t.info.hash(),
        Torrent::load(&sample()).unwrap().info.hash()
    );
}

#[test]
fn load_rejects_wrong_shapes() {
    assert_eq!(
        Torrent::load(b"d8:announce3:url"),
        Err(FormatError::Syntax { offset: 16 })
    );
    // no announce
    assert_eq!(
        Torrent::load(b"d4:infod6:lengthi1e4:name1:a12:piece lengthi1e6:pieces20:aaaaaaaaaaaaaaaaaaaaee"),
        Err(FormatError::Shape)
    );
    // no info
    assert_eq!(Torrent::load(b"d8:announce3:urle"), Err(FormatError::Shape));
    // not a dictionary
    assert_eq!(Torrent::load(b"i1e"), Err(FormatError::Shape));
    // pieces that are no multiple of 20 bytes
    assert_eq!(
        Torrent::load(b"d8:announce3:url4:infod6:lengthi1e4:name1:a12:piece lengthi1e6:pieces19:aaaaaaaaaaaaaaaaaaaee"),
        Err(FormatError::Shape)
    );
    // a length that is not positive
    assert_eq!(
        Torrent::load(b"d8:announce3:url4:infod6:lengthi0e4:name1:a12:piece lengthi1e6:pieces0:ee"),
        Err(FormatError::Shape)
    );
    assert_eq!(
        Torrent::load(b"d8:announce3:url4:infod6:lengthi-5e4:name1:a12:piece lengthi1e6:pieces20:aaaaaaaaaaaaaaaaaaaaee"),
        Err(FormatError::Shape)
    );
    // a piece length that is not positive
    assert_eq!(
        Torrent::load(b"d8:announce3:url4:infod6:lengthi1e4:name1:a12:piece lengthi0e6:pieces20:aaaaaaaaaaaaaaaaaaaaee"),
        Err(FormatError::Shape)
    );
    // a field of the wrong kind
    assert_eq!(
        Torrent::load(b"d8:announce3:url4:infod6:length1:14:name1:a12:piece lengthi1e6:pieces20:aaaaaaaaaaaaaaaaaaaaee"),
        Err(FormatError::Shape)
    );
    // more fingerprints than pieces
    assert_eq!(
        Torrent::load(b"d8:announce3:url4:infod6:lengthi1e4:name1:a12:piece lengthi1e6:pieces40:aaaaaaaaaaaaaaaaaaaaaaaaaaaaaaaaaaaaaaaaee"),
        Err(FormatError::Shape)
    );
    assert!(Torrent::load(
        b"d8:announce3:url4:infod6:lengthi1e4:name1:a12:piece lengthi1e6:pieces20:aaaaaaaaaaaaaaaaaaaaee"
    )
    .is_ok());
}

#[test]
fn from_ben_maps_a_decoded_value() {
    let term = Ben::parse(&sample()).unwrap();
    let t = Torrent::from_ben(&term).unwrap();
    assert_eq!(t, Torrent::load(&sample()).unwrap());
    assert_eq!(Info::from_ben(&term).err(), Some(FormatError::Shape));
    assert_eq!(Info::from_ben(term.get(b"info").unwrap()).unwrap(), t.info);
}

#[test]
fn new_checks_the_description() {
    assert!(Info::new(17, vec![], 8, vec![0u8; 60]).is_ok());
    assert_eq!(Info::new(17, vec![], 8, vec![0u8; 40]).err(), Some(FormatError::Shape));
    assert_eq!(Info::new(17, vec![], 8, vec![0u8; 61]).err(), Some(FormatError::Shape));
    assert_eq!(Info::new(0, vec![], 8, vec![]).err(), Some(FormatError::Shape));
    assert_eq!(Info::new(17, vec![], 0, vec![0u8; 60]).err(), Some(FormatError::Shape));
    assert!(Info::new(u32::MAX, vec![], u32::MAX, vec![0u8; 20]).is_ok());
    assert!(Info::new(u32::MAX, vec![], u32::MAX - 1, vec![0u8; 40]).is_ok());
}

#[test]
fn piece_ranges() {
    let info = small(17, 8);
    assert_eq!(info.piece_count(), 3);
    assert_eq!(info.piece_range(0), Ok((0, 8)));
    assert_eq!(info.piece_range(1), Ok((8, 8)));
    assert_eq!(info.piece_range(2), Ok((16, 1)));
    assert_eq!(info.piece_range(3), Err(Fault::Index));
    let sum: u64 = (0..3).map(|i| info.piece_range(i).unwrap().1 as u64).sum();
    assert_eq!(sum, 17);
}

#[test]
fn piece_ranges_when_the_length_is_a_multiple() {
    let info = small(16, 8);
    assert_eq!(info.piece_count(), 2);
    assert_eq!(info.piece_range(0), Ok((0, 8)));
    assert_eq!(info.piece_range(1), Ok((8, 8)));
    assert_eq!(info.piece_range(2), Err(Fault::Index));
    let one = small(5, 8);
    assert_eq!(one.piece_count(), 1);
    assert_eq!(one.piece_range(0), Ok((0, 5)));
}

#[test]
fn piece_ranges_of_the_sample() {
    let t = Torrent::load(&sample()).unwrap();
    assert_eq!(t.info.piece_range(0), Ok((0, 32768)));
    assert_eq!(t.info.piece_range(1), Ok((32768, 32768)));
    assert_eq!(t.info.piece_range(2), Ok((65536, 26527)));
}

#[test]
fn piece_ranges_cover_large_files() {
    let info = small(u32::MAX, 1 << 30);
    assert_eq!(info.piece_count(), 4);
    assert_eq!(info.piece_range(3), Ok((3 << 30, (1 << 30) - 1)));
    let mut total: u64 = 0;
    for i in 0..info.piece_count() {
        let (offset, length) = info.piece_range(i).unwrap();
        assert_eq!(offset, total);
        assert!(length > 0);
        total += length as u64;
    }
    assert_eq!(total, u32::MAX as u64);
}

#[test]
fn piece_at_slices_the_fingerprints() {
    let t = Torrent::load(&sample()).unwrap();
    assert_eq!(
        t.info.piece_at(1).unwrap().digest(),
        "6e2275e604a0766656736e81ff10b55204ad8d35"
    );
    assert_eq!(t.info.piece_at(2).unwrap().as_bytes(), &PIECES[40..60]);
    assert_eq!(t.info.piece_at(3).err(), Some(Fault::Index));
}
