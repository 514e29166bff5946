use bittorrent::hash;

const CHUNK: &[u8] = &[
    0xE8, 0x76, 0xF6, 0x7A, 0x2A, 0x88, 0x86, 0xE8, 0xF3, 0x6B, 0x13, 0x67, 0x26, 0xC3, 0x0F,
    0xA2, 0x97, 0x03, 0x02, 0x2D, 0x6E, 0x22, 0x75, 0xE6, 0x04, 0xA0, 0x76, 0x66, 0x56, 0x73,
    0x6E, 0x81, 0xFF, 0x10, 0xB5, 0x52, 0x04, 0xAD, 0x8D, 0x35, 0xF0, 0x0D, 0x93, 0x7A, 0x02,
    0x13, 0xDF, 0x19, 0x82, 0xBC, 0x8D, 0x09, 0x72, 0x27, 0xAD, 0x9E, 0x90, 0x9A, 0xCC, 0x17,
    0x65, 0x65,
];

#[test]
fn test_build() {
    let hashes: Vec<_> = hash::Hash::build(CHUNK);
    assert_eq!(hashes.len(), 3)
}

#[test]
fn test_url_encoded() {
    let hash = hash::Hash::build(CHUNK).into_iter().next().unwrap();
    let s = hash.url_encoded();
    assert_eq!(
        s,
        "%e8%76%f6%7a%2a%88%86%e8%f3%6b%13%67%26%c3%0f%a2%97%03%02%2d"
    );
}

#[test]
fn test_digest() {
    let hash = hash::Hash::build(CHUNK).into_iter().next().unwrap();
    let d = hash.digest();
    assert_eq!(d, "e876f67a2a8886e8f36b136726c30fa29703022d");
}

#[test]
fn build_cuts_whole_digests() {
    let hashes = hash::Hash::build(CHUNK);
    assert_eq!(hashes[1].as_bytes(), &CHUNK[20..40]);
    assert_eq!(hashes[2].as_bytes(), &CHUNK[40..60]);
    assert!(hash::Hash::build(&CHUNK[..19]).is_empty());
    assert_eq!(hash::Hash::build(&CHUNK[..20]).len(), 1);
}

#[test]
fn encode_is_sha1() {
    assert_eq!(
        hash::Hash::encode(b"abc").digest(),
        "a9993e364706816aba3e25717850c26c9cd0d89d"
    );
    assert_eq!(
        hash::Hash::encode(b"").digest(),
        "da39a3ee5e6b4b0d3255bfef95601890afd80709"
    );
    assert_eq!(hash::Hash::encode(b"abc"), hash::Hash::encode(b"abc"));
    assert_ne!(hash::Hash::encode(b"abc"), hash::Hash::encode(b"abd"));
}

#[test]
fn digest_writes_every_byte_in_two_digits() {
    let mut b = [0u8; 20];
    b[0] = 0x0f;
    b[1] = 0xf0;
    b[19] = 0xab;
    let h = hash::Hash::new(b);
    assert_eq!(h.digest(), "0ff00000000000000000000000000000000000ab");
    assert_eq!(
        h.url_encoded(),
        "%0f%f0%00%00%00%00%00%00%00%00%00%00%00%00%00%00%00%00%00%ab"
    );
    assert_eq!(h.as_bytes(), &b);
}

#[test]
fn same_compares_the_bytes() {
    let a = hash::Hash::new([1u8; 20]);
    let mut other = [1u8; 20];
    other[19] = 2;
    assert!(a.same(&hash::Hash::new([1u8; 20])));
    assert!(!a.same(&hash::Hash::new(other)));
}
