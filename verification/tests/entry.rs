use indexed_docs::entry::{copy_entries, copy_strings, DocEntry, DocKind, EntryError};
use indexed_docs::identity::{copy_optional, same_optional, PackageIdentity};

fn path(segments: &[&str]) -> Vec<String> {
    segments.iter().map(|s| s.to_string()).collect()
}

#[test]
fn entry_keeps_its_parts() {
    let entry = DocEntry::new(
        path(&["mod", "Widget"]),
        DocKind::Type,
        "Widget".to_string(),
        "A widget.".to_string(),
        Some("https://docs.example/widget".to_string()),
    )
    .unwrap();
    assert_eq!(entry.path(), &path(&["mod", "Widget"]));
    assert_eq!(entry.kind(), DocKind::Type);
    assert_eq!(entry.title(), "Widget");
    assert_eq!(entry.body(), "A widget.");
    assert_eq!(entry.source_url(), &Some("https://docs.example/widget".to_string()));
}

#[test]
fn entry_may_have_an_empty_body_and_no_source() {
    let entry =
        DocEntry::new(path(&["mod"]), DocKind::Module, "mod".to_string(), String::new(), None)
            .unwrap();
    assert_eq!(entry.body(), "");
    assert_eq!(entry.source_url(), &None);
}

#[test]
fn entry_without_path_is_refused() {
    let r = DocEntry::new(Vec::new(), DocKind::Other, "t".to_string(), String::new(), None);
    assert_eq!(r, Err(EntryError::EmptyPath));
}

#[test]
fn entry_without_title_is_refused() {
    let r = DocEntry::new(path(&["mod"]), DocKind::Other, String::new(), "body".to_string(), None);
    assert_eq!(r, Err(EntryError::EmptyTitle));
}

#[test]
fn entry_without_path_and_title_reports_the_path() {
    let r = DocEntry::new(Vec::new(), DocKind::Other, String::new(), String::new(), None);
    assert_eq!(r, Err(EntryError::EmptyPath));
}

#[test]
fn entry_with_an_empty_segment_is_accepted() {
    let r = DocEntry::new(path(&[""]), DocKind::Other, "t".to_string(), String::new(), None);
    assert!(r.is_ok());
}

#[test]
fn entry_clone_is_equal() {
    let entry = DocEntry::new(
        path(&["a", "b"]),
        DocKind::Function,
        "b".to_string(),
        "does b".to_string(),
        Some("u".to_string()),
    )
    .unwrap();
    assert_eq!(entry.clone(), entry);
    let list = vec![entry.clone(), entry];
    assert_eq!(copy_entries(&list), list);
}

#[test]
fn copies_of_strings_are_equal() {
    let v = path(&["x", "", "zé"]);
    assert_eq!(copy_strings(&v), v);
    assert_eq!(copy_optional(&Some("v".to_string())), Some("v".to_string()));
    assert_eq!(copy_optional(&None), None);
    assert!(same_optional(&None, &None));
    assert!(same_optional(&Some("1".to_string()), &Some("1".to_string())));
    assert!(!same_optional(&Some("1".to_string()), &None));
    assert!(!same_optional(&None, &Some("1".to_string())));
    assert!(!same_optional(&Some("1".to_string()), &Some("2".to_string())));
}

#[test]
fn identities_are_equal_only_when_all_parts_agree() {
    let base = PackageIdentity::new("rustdoc".to_string(), "serde".to_string(), None);
    let same = PackageIdentity::new("rustdoc".to_string(), "serde".to_string(), None);
    let versioned =
        PackageIdentity::new("rustdoc".to_string(), "serde".to_string(), Some("1.0".to_string()));
    let other_version =
        PackageIdentity::new("rustdoc".to_string(), "serde".to_string(), Some("2.0".to_string()));
    let other_name = PackageIdentity::new("rustdoc".to_string(), "tokio".to_string(), None);
    let other_provider = PackageIdentity::new("npm".to_string(), "serde".to_string(), None);
    assert_eq!(base, same);
    assert_ne!(base, versioned);
    assert_ne!(versioned, other_version);
    assert_ne!(base, other_name);
    assert_ne!(base, other_provider);
    assert_eq!(versioned.clone(), versioned);
    assert_eq!(base.provider_id, "rustdoc");
    assert_eq!(base.name, "serde");
    assert_eq!(versioned.version, Some("1.0".to_string()));
}
