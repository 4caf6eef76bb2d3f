use std::path::PathBuf;
use vybim::file_find::{fuzzy_score, gather_entry, is_hidden, rank, FileItem, MAX_FILES};

fn item(display: &str) -> FileItem {
    FileItem {
        path: PathBuf::from(display),
        display: display.to_string(),
    }
}

#[test]
fn subsequence_matches_in_order() {
    assert!(fuzzy_score("mn", "main.rs").is_some());
    assert!(fuzzy_score("main", "src/main.rs").is_some());
    // out of order is not a subsequence
    assert!(fuzzy_score("nm", "main.rs").is_none());
    // a char missing entirely
    assert!(fuzzy_score("xyz", "main.rs").is_none());
}

#[test]
fn matching_is_case_insensitive() {
    assert!(fuzzy_score("MAIN", "src/main.rs").is_some());
    assert!(fuzzy_score("main", "src/MAIN.rs").is_some());
}

#[test]
fn tighter_match_scores_higher_than_looser() {
    // consecutive run at a boundary beats a scattered, gappy match
    let tight = fuzzy_score("main", "main.rs").unwrap();
    let loose = fuzzy_score("main", "m_a_i_long_n.rs").unwrap();
    assert!(tight > loose, "tight {tight} should beat loose {loose}");
}

#[test]
fn filename_hit_beats_directory_hit() {
    let items = vec![item("main/util.rs"), item("src/main.rs")];
    // querying "main": the filename hit (src/main.rs) should rank first
    let order = rank(&items, "main");
    assert_eq!(order[0], 1);
}

#[test]
fn empty_query_returns_all_in_snapshot_order() {
    let items = vec![item("b.rs"), item("a.rs"), item("c.rs")];
    assert_eq!(rank(&items, ""), vec![0, 1, 2]);
}

#[test]
fn rank_drops_non_matches_and_orders_by_score() {
    let items = vec![item("README.md"), item("src/main.rs"), item("Cargo.toml")];
    let order = rank(&items, "main");
    // only main.rs matches "main"
    assert_eq!(order, vec![1]);
}

#[test]
fn rank_breaks_ties_by_shorter_then_lexical() {
    // identical match shape; shorter display wins, then lexical order
    let items = vec![item("ab/x.rs"), item("x.rs"), item("ax.rs")];
    let order = rank(&items, "x");
    // "x.rs" (len 4) and "ax.rs" (len 5) and "ab/x.rs" (len 7)
    assert_eq!(items[order[0]].display, "x.rs");
}

#[test]
fn scores_add_up() {
    // A boundary and the file name for the first, a run for the others.
    assert_eq!(fuzzy_score("main", "main.rs"), Some(14 + 9 + 9 + 9));
    // Two characters are skipped.
    assert_eq!(fuzzy_score("mn", "main.rs"), Some(14 + 4 - 6));
    // The first hit is in the directory, the second one starts the name.
    assert_eq!(fuzzy_score("ss", "src/s.rs"), Some(11 + 14 - 9));
    assert_eq!(fuzzy_score("", "anything"), Some(0));
    assert_eq!(fuzzy_score("MAIN", "main.rs"), fuzzy_score("main", "MAIN.rs"));
    // Only ASCII letters fold.
    assert_eq!(fuzzy_score("\u{c9}", "\u{e9}"), None);
}

#[test]
fn equal_scores_rank_by_length_and_then_by_text() {
    let items = vec![item("xb"), item("xab"), item("xa")];
    assert_eq!(rank(&items, "x"), vec![2, 0, 1]);
}

#[test]
fn dot_files_are_hidden_below_the_root() {
    assert!(is_hidden(1, Some(".git")));
    assert!(!is_hidden(0, Some(".config")));
    assert!(!is_hidden(2, Some("src")));
    assert!(!is_hidden(2, Some("")));
    assert!(!is_hidden(2, None));
}

#[test]
fn the_walk_keeps_files_and_stops_at_the_bound() {
    let mut files = Vec::new();
    assert!(gather_entry(&mut files, true, PathBuf::from("/r/a"), "a".to_string()));
    assert!(gather_entry(&mut files, false, PathBuf::from("/r/d"), "d".to_string()));
    assert_eq!(files, vec![FileItem { path: PathBuf::from("/r/a"), display: "a".to_string() }]);
    while files.len() < MAX_FILES {
        assert!(gather_entry(&mut files, true, PathBuf::from("/r/b"), "b".to_string()));
    }
    assert!(!gather_entry(&mut files, true, PathBuf::from("/r/c"), "c".to_string()));
    assert_eq!(files.len(), MAX_FILES);
}

#[test]
fn case_changes_no_score() {
    for (query, candidate) in [("mr", "src/main.rs"), ("FB", "a/foo_Bar.c"), ("zz", "src/x")] {
        let score = fuzzy_score(query, candidate);
        assert_eq!(fuzzy_score(&query.to_uppercase(), candidate), score);
        assert_eq!(fuzzy_score(query, &candidate.to_uppercase()), score);
        assert_eq!(fuzzy_score(&query.to_lowercase(), &candidate.to_uppercase()), score);
    }
}
