use indexed_docs::entry::{DocEntry, DocKind};
use indexed_docs::search::{
    collect_matches, grade_entry, hit_outranks, place, rank, search_entries, SearchHit, BODY_TEXT,
    EXACT_TITLE, NO_MATCH, PATH_SEGMENT,
};

fn entry(title: &str, path: &[&str], body: &str) -> DocEntry {
    DocEntry::new(
        path.iter().map(|s| s.to_string()).collect(),
        DocKind::Other,
        title.to_string(),
        body.to_string(),
        None,
    )
    .unwrap()
}

fn needle(query: &str) -> Vec<char> {
    query.chars().map(|c| c.to_ascii_lowercase()).collect()
}

fn titles(hits: &[SearchHit]) -> Vec<String> {
    hits.iter().map(|h| h.entry.title().clone()).collect()
}

fn scores(hits: &[SearchHit]) -> Vec<u32> {
    hits.iter().map(|h| h.score).collect()
}

#[test]
fn exact_title_ranks_above_body_match() {
    let entries = vec![
        entry("Other", &["mod"], "contains Widget here"),
        entry("Widget", &["mod", "Widget"], ""),
    ];
    let hits = search_entries(&entries, "Widget");
    assert_eq!(titles(&hits), vec!["Widget", "Other"]);
    assert_eq!(scores(&hits), vec![3, 1]);
}

#[test]
fn exact_title_ranks_first_whatever_the_order_of_entries() {
    let entries = vec![
        entry("Widget", &["mod", "Widget"], ""),
        entry("Other", &["mod"], "contains Widget here"),
    ];
    let hits = search_entries(&entries, "Widget");
    assert_eq!(titles(&hits), vec!["Widget", "Other"]);
}

#[test]
fn scores_have_their_stated_values() {
    assert_eq!(EXACT_TITLE, 3);
    assert_eq!(PATH_SEGMENT, 2);
    assert_eq!(BODY_TEXT, 1);
    assert_eq!(NO_MATCH, 0);
}

#[test]
fn grade_follows_the_tiers() {
    let q = needle("widget");
    assert_eq!(grade_entry(&entry("Widget", &["mod", "Widget"], ""), &q), 3);
    assert_eq!(grade_entry(&entry("WIDGET", &["x"], "widget"), &q), 3);
    assert_eq!(grade_entry(&entry("Builder", &["widget", "Builder"], ""), &q), 2);
    assert_eq!(grade_entry(&entry("Builder", &["gui", "widgets"], ""), &q), 2);
    assert_eq!(grade_entry(&entry("WidgetBuilder", &["gui"], ""), &q), 2);
    assert_eq!(grade_entry(&entry("Other", &["mod"], "contains Widget here"), &q), 1);
    assert_eq!(grade_entry(&entry("Other", &["mod"], "nothing"), &q), 0);
    assert_eq!(grade_entry(&entry("Widge", &["t"], "wid get"), &q), 0);
}

#[test]
fn path_match_outweighs_body_match() {
    let q = needle("io");
    let both = entry("Reader", &["std", "io"], "reads from io");
    assert_eq!(grade_entry(&both, &q), 2);
}

#[test]
fn search_ignores_case() {
    let entries = vec![
        entry("Widget", &["mod", "Widget"], ""),
        entry("Other", &["mod"], "contains WIDGET here"),
        entry("Unrelated", &["mod"], "nothing to see"),
    ];
    for query in ["widget", "WIDGET", "wIdGeT"] {
        let hits = search_entries(&entries, query);
        assert_eq!(titles(&hits), vec!["Widget", "Other"]);
        assert_eq!(scores(&hits), vec![3, 1]);
    }
}

#[test]
fn search_folds_ascii_letters_only() {
    let entries = vec![entry("École", &["fr"], "")];
    assert_eq!(search_entries(&entries, "école").len(), 0);
    assert_eq!(scores(&search_entries(&entries, "École")), vec![3]);
    assert_eq!(scores(&search_entries(&entries, "ÉCOLE")), vec![3]);
}

#[test]
fn entries_that_do_not_match_are_left_out() {
    let entries = vec![entry("Alpha", &["a"], "first"), entry("Beta", &["b"], "second")];
    assert!(search_entries(&entries, "gamma").is_empty());
    assert!(search_entries(&Vec::new(), "alpha").is_empty());
}

#[test]
fn ties_are_broken_by_path_order() {
    let entries = vec![
        entry("z", &["pkg", "zeta"], "uses parse"),
        entry("a", &["pkg", "alpha"], "uses parse"),
        entry("m", &["pkg"], "uses parse"),
        entry("b", &["lib", "zz"], "uses parse"),
    ];
    let hits = search_entries(&entries, "parse");
    assert_eq!(scores(&hits), vec![1, 1, 1, 1]);
    assert_eq!(titles(&hits), vec!["b", "m", "a", "z"]);
}

#[test]
fn score_comes_before_path_order() {
    let entries = vec![
        entry("aaa", &["a"], "about parse"),
        entry("parse", &["z", "parse"], ""),
        entry("parser", &["m", "parser"], ""),
    ];
    let hits = search_entries(&entries, "parse");
    assert_eq!(titles(&hits), vec!["parse", "parser", "aaa"]);
    assert_eq!(scores(&hits), vec![3, 2, 1]);
}

#[test]
fn full_ties_keep_the_order_of_the_entries() {
    let entries = vec![
        entry("first", &["same"], "token"),
        entry("second", &["same"], "token"),
        entry("third", &["same"], "token"),
    ];
    let hits = search_entries(&entries, "token");
    assert_eq!(titles(&hits), vec!["first", "second", "third"]);
}

#[test]
fn empty_query_matches_every_entry_by_name() {
    let entries = vec![entry("B", &["b"], ""), entry("A", &["a"], "text")];
    let hits = search_entries(&entries, "");
    assert_eq!(titles(&hits), vec!["A", "B"]);
    assert_eq!(scores(&hits), vec![2, 2]);
}

#[test]
fn result_is_ordered_and_holds_every_match_once() {
    let entries = vec![
        entry("net", &["std", "net"], ""),
        entry("TcpStream", &["std", "net", "TcpStream"], "a stream over the net"),
        entry("File", &["std", "fs", "File"], "not a network thing"),
        entry("Net", &["ext", "Net"], ""),
        entry("connect", &["std", "net", "connect"], ""),
        entry("Path", &["std", "path"], ""),
    ];
    let hits = search_entries(&entries, "net");
    assert_eq!(hits.len(), 5);
    for pair in hits.windows(2) {
        assert!(!hit_outranks(&pair[1], &pair[0]));
    }
    for e in entries.iter() {
        let expected = grade_entry(e, &needle("net"));
        let count = hits.iter().filter(|h| &h.entry == e).count();
        if expected == 0 {
            assert_eq!(count, 0);
        } else {
            assert_eq!(count, 1);
            assert!(hits.iter().any(|h| &h.entry == e && h.score == expected));
        }
    }
    assert_eq!(titles(&hits), vec!["Net", "net", "TcpStream", "connect", "File"]);
}

#[test]
fn outranks_compares_score_then_path() {
    let high = SearchHit { entry: entry("x", &["z"], ""), score: 3 };
    let low = SearchHit { entry: entry("y", &["a"], ""), score: 1 };
    let low_later = SearchHit { entry: entry("y", &["b"], ""), score: 1 };
    let low_same = SearchHit { entry: entry("w", &["a"], ""), score: 1 };
    assert!(hit_outranks(&high, &low));
    assert!(!hit_outranks(&low, &high));
    assert!(hit_outranks(&low, &low_later));
    assert!(!hit_outranks(&low_later, &low));
    assert!(!hit_outranks(&low, &low_same));
    assert!(!hit_outranks(&low_same, &low));
}

#[test]
fn place_enters_a_hit_at_its_position() {
    let mut ranked = vec![
        SearchHit { entry: entry("a", &["a"], ""), score: 3 },
        SearchHit { entry: entry("b", &["b"], ""), score: 2 },
        SearchHit { entry: entry("d", &["d"], ""), score: 2 },
    ];
    place(&mut ranked, SearchHit { entry: entry("c", &["c"], ""), score: 2 });
    assert_eq!(titles(&ranked), vec!["a", "b", "c", "d"]);
    place(&mut ranked, SearchHit { entry: entry("e", &["a"], ""), score: 1 });
    assert_eq!(titles(&ranked), vec!["a", "b", "c", "d", "e"]);
    place(&mut ranked, SearchHit { entry: entry("f", &["zz"], ""), score: 3 });
    assert_eq!(titles(&ranked), vec!["a", "f", "b", "c", "d", "e"]);
    place(&mut ranked, SearchHit { entry: entry("g", &["b"], ""), score: 2 });
    assert_eq!(titles(&ranked), vec!["a", "f", "b", "g", "c", "d", "e"]);
}

#[test]
fn rank_orders_hits_and_keeps_them_all() {
    let hits = vec![
        SearchHit { entry: entry("low", &["a"], ""), score: 1 },
        SearchHit { entry: entry("top", &["z"], ""), score: 3 },
        SearchHit { entry: entry("mid", &["m"], ""), score: 2 },
        SearchHit { entry: entry("mid2", &["c"], ""), score: 2 },
    ];
    let ranked = rank(hits);
    assert_eq!(titles(&ranked), vec!["top", "mid2", "mid", "low"]);
    assert!(rank(Vec::new()).is_empty());
}

#[test]
fn collect_matches_appends_in_entry_order() {
    let entries = vec![
        entry("one", &["p"], "has key"),
        entry("two", &["p"], "nothing"),
        entry("key", &["p", "key"], ""),
    ];
    let mut found = vec![SearchHit { entry: entry("kept", &["k"], ""), score: 2 }];
    collect_matches(&mut found, &entries, &needle("key"));
    assert_eq!(titles(&found), vec!["kept", "one", "key"]);
    assert_eq!(scores(&found), vec![2, 1, 3]);
}
