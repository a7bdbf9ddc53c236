use snap::digest::{hex, sha1_hex, ContentHasher};

#[test]
fn sha1_known_values() {
    assert_eq!(sha1_hex(b""), "da39a3ee5e6b4b0d3255bfef95601890afd80709");
    assert_eq!(sha1_hex(b"abc"), "a9993e364706816aba3e25717850c26c9cd0d89d");
}

#[test]
fn hashing_in_pieces_is_hashing_the_whole() {
    let mut h = ContentHasher::new();
    h.update(b"ab");
    h.update(b"");
    h.update(b"c");
    assert_eq!(h.finish_hex(), "a9993e364706816aba3e25717850c26c9cd0d89d");
}

#[test]
fn hex_spelling() {
    assert_eq!(hex(&[0x00, 0x0f, 0xa0, 0xff]), "000fa0ff");
}
