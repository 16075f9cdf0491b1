use indexed_docs::digest::{digest, OFFSET_BASIS, PRIME};

#[test]
fn digest_of_nothing_is_the_offset_basis() {
    assert_eq!(digest(&[]), 0xcbf2_9ce4_8422_2325);
    assert_eq!(OFFSET_BASIS, 0xcbf2_9ce4_8422_2325);
    assert_eq!(PRIME, 0x0000_0100_0000_01b3);
}

#[test]
fn digest_matches_known_values() {
    assert_eq!(digest(b"a"), 0xaf63_dc4c_8601_ec8c);
    assert_eq!(digest(b"foobar"), 0x8594_4171_f739_67e8);
}

#[test]
fn digest_mixes_one_byte_as_stated() {
    let expected = (OFFSET_BASIS ^ 0x61).wrapping_mul(PRIME);
    assert_eq!(digest(&[0x61]), expected);
    let next = (expected ^ 0x62).wrapping_mul(PRIME);
    assert_eq!(digest(&[0x61, 0x62]), next);
}

#[test]
fn digest_tells_different_content_apart() {
    assert_ne!(digest(b"version one"), digest(b"version two"));
    assert_ne!(digest(b"ab"), digest(b"ba"));
    assert_eq!(digest(b"same"), digest(b"same"));
}
