use neodepends::hashing::Sha1Hash;
use neodepends::ids::ContentId;

#[test]
fn sha1_of_empty_input() {
    let h = Sha1Hash::hash(b"");
    assert_eq!(h.to_string(), "da39a3ee5e6b4b0d3255bfef95601890afd80709");
}

#[test]
fn sha1_of_abc() {
    let h = Sha1Hash::hash(b"abc");
    assert_eq!(h.to_string(), "a9993e364706816aba3e25717850c26c9cd0d89d");
}

#[test]
fn hex_round_trip() {
    let h = Sha1Hash::hash(b"some bytes");
    let s = h.to_string();
    let back = Sha1Hash::from_str(&s).unwrap();
    assert_eq!(back, h);
}

#[test]
fn from_str_rejects_bad_input() {
    assert!(Sha1Hash::from_str("xyz").is_none());
    assert!(Sha1Hash::from_str("da39a3ee5e6b4b0d3255bfef95601890afd8070").is_none());
    assert!(Sha1Hash::from_str("zz39a3ee5e6b4b0d3255bfef95601890afd80709").is_none());
    assert!(Sha1Hash::from_str("DA39A3EE5E6B4B0D3255BFEF95601890AFD80709").is_some());
}

#[test]
fn new_packs_digest_bytes() {
    let h = Sha1Hash::new([0; 20]);
    assert_eq!(h.to_string(), "0000000000000000000000000000000000000000");
    let h2 = Sha1Hash::new([
        0x01, 0x02, 0x03, 0x04, 0x05, 0x06, 0x07, 0x08, 0x09, 0x0a, 0x0b, 0x0c, 0x0d, 0x0e, 0x0f,
        0x10, 0x11, 0x12, 0x13, 0xff,
    ]);
    assert_eq!(h2.to_string(), "0102030405060708090a0b0c0d0e0f10111213ff");
}

#[test]
fn content_id_matches_blob_hash() {
    // the ids git itself assigns to these blobs
    let empty = ContentId::from_content("");
    assert_eq!(empty.0.to_string(), "e69de29bb2d1d6434b8b29ae775ad8c2e48c5391");
    let hello = ContentId::from_content("hello\n");
    assert_eq!(hello.0.to_string(), "ce013625030ba8dba906f756967f9e9ca394464a");
}

#[test]
fn content_id_same_bytes_same_id() {
    let a = ContentId::from_content("fn main() {}\n");
    let b = ContentId::from_bytes("fn main() {}\n".as_bytes());
    assert_eq!(a, b);
}
