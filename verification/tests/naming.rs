use indexed_docs::codec::encode_key;
use indexed_docs::identity::PackageIdentity;
use indexed_docs::naming::{file_name, parse_file_name};

#[test]
fn name_is_two_lower_case_hex_digits_per_byte() {
    assert_eq!(file_name(&[]), b"".to_vec());
    assert_eq!(file_name(&[0x00]), b"00".to_vec());
    assert_eq!(file_name(&[0x0f, 0xa0, 0xff, 0x19]), b"0fa0ff19".to_vec());
    assert_eq!(file_name(&[0x12, 0xab, 0xcd, 0xef]), b"12abcdef".to_vec());
}

#[test]
fn name_round_trips_for_every_byte() {
    let all: Vec<u8> = (0..=255).collect();
    let name = file_name(&all);
    assert_eq!(name.len(), 512);
    assert_eq!(parse_file_name(&name), Some(all));
}

#[test]
fn what_is_no_name_is_refused() {
    assert_eq!(parse_file_name(b""), Some(Vec::new()));
    assert_eq!(parse_file_name(b"0"), None);
    assert_eq!(parse_file_name(b"0g"), None);
    assert_eq!(parse_file_name(b"0A"), None);
    assert_eq!(parse_file_name(b"ab.tmp"), None);
    assert_eq!(parse_file_name(b"abc"), None);
    assert_eq!(parse_file_name(b" 0"), None);
    assert_eq!(parse_file_name(b"/0"), None);
    assert_eq!(parse_file_name(b":0"), None);
    assert_eq!(parse_file_name(b"`0"), None);
    assert_eq!(parse_file_name(b"0a1b"), Some(vec![0x0a, 0x1b]));
}

#[test]
fn different_identities_have_different_names() {
    let plain = PackageIdentity::new("p".to_string(), "n".to_string(), None);
    let empty_version = PackageIdentity::new("p".to_string(), "n".to_string(), Some(String::new()));
    let shifted = PackageIdentity::new("pn".to_string(), String::new(), None);
    let names = [
        file_name(&encode_key(&plain)),
        file_name(&encode_key(&empty_version)),
        file_name(&encode_key(&shifted)),
    ];
    assert_ne!(names[0], names[1]);
    assert_ne!(names[0], names[2]);
    assert_ne!(names[1], names[2]);
}
