use indexed_docs::codec::{decode_key, decode_package, encode_key, encode_package};
use indexed_docs::entry::{DocEntry, DocKind};
use indexed_docs::identity::PackageIdentity;
use indexed_docs::package::IndexedPackage;

fn identity(provider: &str, name: &str, version: Option<&str>) -> PackageIdentity {
    PackageIdentity::new(provider.to_string(), name.to_string(), version.map(|v| v.to_string()))
}

fn entry(title: &str, path: &[&str], body: &str, kind: DocKind, url: Option<&str>) -> DocEntry {
    DocEntry::new(
        path.iter().map(|s| s.to_string()).collect(),
        kind,
        title.to_string(),
        body.to_string(),
        url.map(|u| u.to_string()),
    )
    .unwrap()
}

fn sample() -> IndexedPackage {
    IndexedPackage {
        identity: identity("rustdoc", "serde", Some("1.0.0")),
        entries: vec![
            entry("Serialize", &["serde", "Serialize"], "A data structure.", DocKind::Trait, None),
            entry(
                "to_string",
                &["serde_json", "to_string"],
                "",
                DocKind::Function,
                Some("https://docs.rs/serde_json"),
            ),
            entry("de", &["serde", "de"], "Désérialisation — 日本語", DocKind::Module, None),
        ],
        indexed_at: 1_700_000_000,
        content_hash: 0x0123_4567_89ab_cdef,
    }
}

#[test]
fn key_has_the_stated_layout() {
    let key = encode_key(&identity("ab", "c", None));
    let expected: Vec<u8> =
        vec![2, 0, 0, 0, 0, 0, 0, 0, b'a', b'b', 1, 0, 0, 0, 0, 0, 0, 0, b'c', 0];
    assert_eq!(key, expected);
    let key = encode_key(&identity("", "é", Some("1")));
    let expected: Vec<u8> = vec![
        0, 0, 0, 0, 0, 0, 0, 0, 2, 0, 0, 0, 0, 0, 0, 0, 0xc3, 0xa9, 1, 1, 0, 0, 0, 0, 0, 0, 0,
        b'1',
    ];
    assert_eq!(key, expected);
}

#[test]
fn key_round_trips() {
    for id in [
        identity("rustdoc", "serde", None),
        identity("rustdoc", "serde", Some("1.0.0")),
        identity("", "", None),
        identity("", "", Some("")),
        identity("docs-日本", "パッケージ", Some("β")),
    ] {
        assert_eq!(decode_key(&encode_key(&id)), Some(id));
    }
}

#[test]
fn key_with_and_without_version_differ() {
    assert_ne!(
        encode_key(&identity("p", "n", None)),
        encode_key(&identity("p", "n", Some("")))
    );
    assert_ne!(
        encode_key(&identity("p", "n", Some("1"))),
        encode_key(&identity("p", "n", Some("2")))
    );
    assert_ne!(encode_key(&identity("ab", "c", None)), encode_key(&identity("a", "bc", None)));
}

#[test]
fn malformed_keys_are_refused() {
    let key = encode_key(&identity("rustdoc", "serde", Some("1")));
    assert_eq!(decode_key(&[]), None);
    assert_eq!(decode_key(&key[..key.len() - 1]), None);
    let mut longer = key.clone();
    longer.push(0);
    assert_eq!(decode_key(&longer), None);
    let mut bad_flag = encode_key(&identity("p", "n", None));
    let last = bad_flag.len() - 1;
    bad_flag[last] = 2;
    assert_eq!(decode_key(&bad_flag), None);
    let bad_text: Vec<u8> = vec![1, 0, 0, 0, 0, 0, 0, 0, 0xff, 0, 0, 0, 0, 0, 0, 0, 0, 0];
    assert_eq!(decode_key(&bad_text), None);
    let huge_length: Vec<u8> = vec![0xff, 0xff, 0xff, 0xff, 0xff, 0xff, 0xff, 0xff, b'a'];
    assert_eq!(decode_key(&huge_length), None);
}

#[test]
fn package_has_the_stated_layout() {
    let pkg = IndexedPackage {
        identity: identity("p", "n", None),
        entries: vec![entry("t", &["s"], "", DocKind::Function, Some("u"))],
        indexed_at: 0x0102,
        content_hash: 0xff,
    };
    let expected: Vec<u8> = vec![
        0x49, 0x44, 0x58, 0x31, // IDX1
        1, 0, 0, 0, 0, 0, 0, 0, b'p', // provider
        1, 0, 0, 0, 0, 0, 0, 0, b'n', // name
        0, // no version
        0x02, 0x01, 0, 0, 0, 0, 0, 0, // indexed at
        0xff, 0, 0, 0, 0, 0, 0, 0, // digest
        1, 0, 0, 0, 0, 0, 0, 0, // one entry
        1, 0, 0, 0, 0, 0, 0, 0, // one segment
        1, 0, 0, 0, 0, 0, 0, 0, b's', // segment
        2, // function
        1, 0, 0, 0, 0, 0, 0, 0, b't', // title
        0, 0, 0, 0, 0, 0, 0, 0, // body
        1, 1, 0, 0, 0, 0, 0, 0, 0, b'u', // source
    ];
    assert_eq!(encode_package(&pkg), expected);
    assert_eq!(decode_package(&expected), Some(pkg));
}

#[test]
fn package_round_trips() {
    let pkg = sample();
    let bytes = encode_package(&pkg);
    assert_eq!(decode_package(&bytes), Some(pkg));
}

#[test]
fn package_without_entries_round_trips() {
    let pkg = IndexedPackage {
        identity: identity("p", "n", None),
        entries: Vec::new(),
        indexed_at: u64::MAX,
        content_hash: 0,
    };
    assert_eq!(decode_package(&encode_package(&pkg)), Some(pkg));
}

#[test]
fn every_kind_round_trips() {
    for kind in [
        DocKind::Module,
        DocKind::Type,
        DocKind::Function,
        DocKind::Constant,
        DocKind::Trait,
        DocKind::Other,
    ] {
        let pkg = IndexedPackage {
            identity: identity("p", "n", None),
            entries: vec![entry("t", &["s"], "b", kind, None)],
            indexed_at: 1,
            content_hash: 2,
        };
        let back = decode_package(&encode_package(&pkg)).unwrap();
        assert_eq!(back.entries[0].kind(), kind);
        assert_eq!(back, pkg);
    }
}

#[test]
fn every_cut_of_a_package_is_refused() {
    let bytes = encode_package(&sample());
    for cut in 0..bytes.len() {
        assert_eq!(decode_package(&bytes[..cut]), None);
    }
}

#[test]
fn trailing_bytes_are_refused() {
    let mut bytes = encode_package(&sample());
    bytes.push(0);
    assert_eq!(decode_package(&bytes), None);
}

#[test]
fn wrong_magic_is_refused() {
    let mut bytes = encode_package(&sample());
    bytes[3] = 0x32;
    assert_eq!(decode_package(&bytes), None);
    assert_eq!(decode_package(b"IDX"), None);
    assert_eq!(decode_package(b""), None);
}

fn minimal_with(kind: u8, title: &[u8], path_count: u8) -> Vec<u8> {
    let mut bytes: Vec<u8> = vec![0x49, 0x44, 0x58, 0x31];
    bytes.extend_from_slice(&[1, 0, 0, 0, 0, 0, 0, 0, b'p']);
    bytes.extend_from_slice(&[1, 0, 0, 0, 0, 0, 0, 0, b'n']);
    bytes.push(0);
    bytes.extend_from_slice(&[5, 0, 0, 0, 0, 0, 0, 0]);
    bytes.extend_from_slice(&[6, 0, 0, 0, 0, 0, 0, 0]);
    bytes.extend_from_slice(&[1, 0, 0, 0, 0, 0, 0, 0]);
    bytes.extend_from_slice(&[path_count, 0, 0, 0, 0, 0, 0, 0]);
    for _ in 0..path_count {
        bytes.extend_from_slice(&[1, 0, 0, 0, 0, 0, 0, 0, b's']);
    }
    bytes.push(kind);
    bytes.extend_from_slice(&[title.len() as u8, 0, 0, 0, 0, 0, 0, 0]);
    bytes.extend_from_slice(title);
    bytes.extend_from_slice(&[0, 0, 0, 0, 0, 0, 0, 0]);
    bytes.push(0);
    bytes
}

#[test]
fn hand_written_package_is_read() {
    let pkg = decode_package(&minimal_with(4, b"t", 2)).unwrap();
    assert_eq!(pkg.identity, identity("p", "n", None));
    assert_eq!(pkg.indexed_at, 5);
    assert_eq!(pkg.content_hash, 6);
    assert_eq!(pkg.entries, vec![entry("t", &["s", "s"], "", DocKind::Trait, None)]);
}

#[test]
fn unknown_kind_is_refused() {
    assert!(decode_package(&minimal_with(5, b"t", 1)).is_some());
    assert_eq!(decode_package(&minimal_with(6, b"t", 1)), None);
    assert_eq!(decode_package(&minimal_with(255, b"t", 1)), None);
}

#[test]
fn entry_without_title_or_path_is_refused() {
    assert_eq!(decode_package(&minimal_with(0, b"", 1)), None);
    assert_eq!(decode_package(&minimal_with(0, b"t", 0)), None);
}

#[test]
fn text_that_is_not_utf8_is_refused() {
    assert_eq!(decode_package(&minimal_with(0, &[0xff], 1)), None);
    assert_eq!(decode_package(&minimal_with(0, &[0xc3], 1)), None);
    assert_eq!(decode_package(&minimal_with(0, &[0xed, 0xa0, 0x80], 1)), None);
    assert!(decode_package(&minimal_with(0, &[0xc3, 0xa9], 1)).is_some());
}

#[test]
fn text_outside_ascii_is_read_back_as_text() {
    let id = identity("π", "naïve-日本", Some("v∞"));
    let back = decode_key(&encode_key(&id)).unwrap();
    assert_eq!(back.provider_id, "π");
    assert_eq!(back.name, "naïve-日本");
    assert_eq!(back.version, Some("v∞".to_string()));
}

#[test]
fn entry_count_beyond_the_bytes_is_refused() {
    let mut bytes: Vec<u8> = vec![0x49, 0x44, 0x58, 0x31];
    bytes.extend_from_slice(&[0, 0, 0, 0, 0, 0, 0, 0]);
    bytes.extend_from_slice(&[0, 0, 0, 0, 0, 0, 0, 0]);
    bytes.push(0);
    bytes.extend_from_slice(&[0; 16]);
    bytes.extend_from_slice(&[0xff, 0xff, 0xff, 0xff, 0, 0, 0, 0]);
    assert_eq!(decode_package(&bytes), None);
}
