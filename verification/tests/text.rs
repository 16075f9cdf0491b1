use indexed_docs::lexical::{path_standing, text_standing, Standing};
use indexed_docs::text::{chars_of, contains_text, fold, fold_text, same_text};

fn chars(s: &str) -> Vec<char> {
    s.chars().collect()
}

#[test]
fn fold_lowers_ascii_capitals_only() {
    assert_eq!(fold('A'), 'a');
    assert_eq!(fold('Z'), 'z');
    assert_eq!(fold('m'), 'm');
    assert_eq!(fold('@'), '@');
    assert_eq!(fold('['), '[');
    assert_eq!(fold('É'), 'É');
    assert_eq!(fold('7'), '7');
}

#[test]
fn fold_text_folds_every_character() {
    assert_eq!(fold_text("Hello, WORLD"), chars("hello, world"));
    assert_eq!(fold_text(""), chars(""));
    assert_eq!(fold_text("ÀB"), chars("Àb"));
}

#[test]
fn chars_of_keeps_the_text() {
    assert_eq!(chars_of("aé😀"), vec!['a', 'é', '😀']);
    assert_eq!(chars_of(""), Vec::<char>::new());
}

#[test]
fn same_text_tells_equal_from_different() {
    assert!(same_text("rustdoc", "rustdoc"));
    assert!(same_text("", ""));
    assert!(!same_text("rustdoc", "rustdoC"));
    assert!(!same_text("rust", "rustdoc"));
    assert!(same_text("naïve", "naïve"));
    assert!(!same_text("naïve", "naive"));
}

#[test]
fn contains_text_finds_a_needle_anywhere() {
    let hay = chars("contains widget here");
    assert!(contains_text(&hay, &chars("widget")));
    assert!(contains_text(&hay, &chars("contains")));
    assert!(contains_text(&hay, &chars("here")));
    assert!(contains_text(&hay, &chars("")));
    assert!(!contains_text(&hay, &chars("widgets")));
    assert!(!contains_text(&chars("ab"), &chars("abc")));
    assert!(contains_text(&chars(""), &chars("")));
    assert!(!contains_text(&chars(""), &chars("a")));
    assert!(contains_text(&chars("aab"), &chars("ab")));
}

#[test]
fn text_standing_orders_by_first_difference() {
    assert_eq!(text_standing(&chars("abc"), &chars("abd")), Standing::Before);
    assert_eq!(text_standing(&chars("abd"), &chars("abc")), Standing::After);
    assert_eq!(text_standing(&chars("abc"), &chars("abc")), Standing::Same);
    assert_eq!(text_standing(&chars("ab"), &chars("abc")), Standing::Before);
    assert_eq!(text_standing(&chars("abc"), &chars("ab")), Standing::After);
    assert_eq!(text_standing(&chars(""), &chars("")), Standing::Same);
    assert_eq!(text_standing(&chars(""), &chars("a")), Standing::Before);
    assert_eq!(text_standing(&chars("Z"), &chars("a")), Standing::Before);
    assert_eq!(text_standing(&chars("é"), &chars("z")), Standing::After);
}

#[test]
fn text_standing_agrees_with_the_order_of_strings() {
    let words = ["", "a", "A", "ab", "abc", "b", "mod", "Widget", "widget", "é", "日本"];
    for x in words.iter() {
        for y in words.iter() {
            let expected = if x < y {
                Standing::Before
            } else if x > y {
                Standing::After
            } else {
                Standing::Same
            };
            assert_eq!(text_standing(&chars(x), &chars(y)), expected);
        }
    }
}

fn path(segments: &[&str]) -> Vec<String> {
    segments.iter().map(|s| s.to_string()).collect()
}

#[test]
fn path_standing_orders_segment_by_segment() {
    assert_eq!(path_standing(&path(&["mod"]), &path(&["mod", "Widget"])), Standing::Before);
    assert_eq!(path_standing(&path(&["mod", "Widget"]), &path(&["mod"])), Standing::After);
    assert_eq!(path_standing(&path(&["mod", "a"]), &path(&["mod", "b"])), Standing::Before);
    assert_eq!(path_standing(&path(&["mod", "b"]), &path(&["mod", "a"])), Standing::After);
    assert_eq!(path_standing(&path(&["mod", "a"]), &path(&["mod", "a"])), Standing::Same);
    assert_eq!(path_standing(&path(&[]), &path(&[])), Standing::Same);
    assert_eq!(path_standing(&path(&["a", "z"]), &path(&["ab"])), Standing::Before);
    assert_eq!(path_standing(&path(&["b"]), &path(&["a", "z"])), Standing::After);
}

#[test]
fn path_standing_is_antisymmetric_and_transitive_on_samples() {
    let paths = [
        path(&["a"]),
        path(&["a", "b"]),
        path(&["a", "c"]),
        path(&["ab"]),
        path(&["b"]),
        path(&["b", "a"]),
    ];
    for x in paths.iter() {
        for y in paths.iter() {
            let forward = path_standing(x, y);
            let backward = path_standing(y, x);
            match forward {
                Standing::Before => assert_eq!(backward, Standing::After),
                Standing::After => assert_eq!(backward, Standing::Before),
                Standing::Same => assert_eq!(backward, Standing::Same),
            }
            for z in paths.iter() {
                if forward == Standing::Before && path_standing(y, z) == Standing::Before {
                    assert_eq!(path_standing(x, z), Standing::Before);
                }
            }
        }
    }
}
