use vybim::buffer::Buffer;
use vybim::complete::{candidates, is_word_char, is_word_start, prefix_at, Completion};
use vybim::pane::EditorPane;

#[test]
fn prefix_at_reads_the_word_before_the_cursor() {
    let b = Buffer::from_str("foo bar");
    // cursor just after "ba"
    assert_eq!(prefix_at(&b, (0, 6)), Some(("ba".to_string(), (0, 4))));
}

#[test]
fn prefix_at_none_without_a_word_char_before_cursor() {
    let b = Buffer::from_str("foo bar");
    assert_eq!(prefix_at(&b, (0, 4)), None); // cursor just after the space
    assert_eq!(prefix_at(&b, (0, 0)), None); // start of line
}

#[test]
fn prefix_at_rejects_a_run_starting_with_a_digit() {
    let b = Buffer::from_str("123abc");
    assert_eq!(prefix_at(&b, (0, 6)), None);
}

#[test]
fn prefix_at_spans_into_the_middle_of_a_word() {
    let b = Buffer::from_str("foobar");
    // cursor inside the word, after "foo"
    assert_eq!(prefix_at(&b, (0, 3)), Some(("foo".to_string(), (0, 0))));
}

#[test]
fn candidates_filter_dedup_and_exclude_the_in_progress_word() {
    // The "ap" at (0,0) is the in-progress token; it must not appear, and
    // duplicates collapse to one entry.
    let b = Buffer::from_str("ap apple apple apricot\nax");
    let c = candidates(&b, "ap", (0, 0), 0);
    assert_eq!(c, vec!["apple".to_string(), "apricot".to_string()]);
}

#[test]
fn candidates_exclude_the_prefix_itself() {
    let b = Buffer::from_str("foo foo bar");
    // typing the full word "foo" at (0,0); other "foo" equals the prefix and
    // is useless, so nothing is offered.
    assert!(candidates(&b, "foo", (0, 0), 0).is_empty());
}

#[test]
fn candidates_rank_nearer_lines_first() {
    let b = Buffer::from_str("albatross\n\n\nalpha alpine");
    // cursor on the last line (no token at the exclude position): alpha/alpine
    // (dist 0) beat albatross (dist 3).
    let c = candidates(&b, "al", (99, 99), 3);
    assert_eq!(
        c,
        vec![
            "alpha".to_string(),
            "alpine".to_string(),
            "albatross".to_string()
        ]
    );
}

#[test]
fn candidates_break_distance_ties_by_frequency() {
    let b = Buffer::from_str("foo bar foo fond");
    // all on line 0 (dist 0): foo occurs twice, fond once -> foo first.
    let c = candidates(&b, "fo", (99, 99), 0);
    assert_eq!(c, vec!["foo".to_string(), "fond".to_string()]);
}

#[test]
fn open_returns_none_when_nothing_matches() {
    let b = Buffer::from_str("foo");
    // prefix "fo" but no other word matches -> no popup.
    assert!(Completion::open(&b, (0, 2)).is_none());
}

#[test]
fn move_selection_wraps() {
    let mut comp = Completion {
        prefix_start: (0, 0),
        query: "a".to_string(),
        candidates: vec!["aa".into(), "ab".into(), "ac".into()],
        selected: 0,
    };
    comp.move_up(); // wraps to last
    assert_eq!(comp.selected, 2);
    comp.move_down(); // wraps to first
    assert_eq!(comp.selected, 0);
    comp.move_down();
    assert_eq!(comp.selected, 1);
}

#[test]
fn words_start_with_a_letter_or_an_underscore() {
    assert!(is_word_start('a') && is_word_start('_'));
    assert!(!is_word_start('7') && !is_word_start('-'));
    assert!(is_word_char('7') && is_word_char('_') && is_word_char('Z'));
    assert!(!is_word_char(' '));
}

#[test]
fn the_popup_follows_the_word_as_it_grows() {
    let b = Buffer::from_str("alpha alpine al");
    let mut c = Completion::open(&b, (0, 15)).unwrap();
    assert_eq!(c.prefix_start, (0, 13));
    assert_eq!(c.query, "al");
    assert_eq!(c.candidates, vec!["alpha", "alpine"]);
    assert_eq!(c.selected_word(), Some("alpha"));
    c.move_down();
    assert_eq!(c.selected_word(), Some("alpine"));

    let longer = Buffer::from_str("alpha alpine alpi");
    assert!(c.requery(&longer, (0, 17)));
    assert_eq!((c.query.as_str(), c.selected), ("alpi", 0));
    assert_eq!(c.candidates, vec!["alpine"]);
    // Nothing matches, the cursor left the word, or it is on another line.
    let other = Buffer::from_str("alpha alpine alpx\n");
    assert!(!c.requery(&other, (0, 17)));
    assert!(!c.requery(&longer, (0, 12)));
    assert!(!c.requery(&other, (1, 0)));
    assert_eq!(c.candidates, vec!["alpine"]);
}

#[test]
fn accepting_is_one_step_of_undo() {
    let mut b = Buffer::from_str("foobar fo");
    let mut p = EditorPane::new(0);
    p.move_line_end(&b, false);
    let c = Completion::open(&b, p.cursor_line_col()).unwrap();
    let word = c.selected_word().unwrap().to_string();
    p.complete_accept(&mut b, c.prefix_start, &word);
    assert_eq!(b.text(), "foobar foobar");
    assert_eq!(p.cursor_line_col(), (0, 13));
    p.undo(&mut b);
    assert_eq!(b.text(), "foobar fo");
    p.redo(&mut b);
    assert_eq!(b.text(), "foobar foobar");
}

#[test]
fn up_takes_back_down() {
    let b = Buffer::from_str("ap apple apricot apt\n");
    let mut c = Completion::open(&b, (0, 2)).unwrap();
    for start in 0..c.candidates.len() {
        c.selected = start;
        c.move_down();
        c.move_up();
        assert_eq!(c.selected, start);
        c.move_up();
        c.move_down();
        assert_eq!(c.selected, start);
    }
    c.selected = 0;
    c.move_up();
    assert_eq!(c.selected, c.candidates.len() - 1);
    c.candidates.clear();
    c.selected = 0;
    c.move_up();
    c.move_down();
    assert_eq!(c.selected, 0);
}

#[test]
fn the_selection_wraps_from_anywhere() {
    let b = Buffer::from_str("ap apple apricot apt\n");
    let mut c = Completion::open(&b, (0, 2)).unwrap();
    assert_eq!(c.candidates.len(), 3);
    for (start, up, down) in [(7, 0, 2), (usize::MAX, 2, 1), (2, 1, 0), (3, 2, 1)] {
        c.selected = start;
        c.move_up();
        assert_eq!(c.selected, up, "{start}");
        c.selected = start;
        c.move_down();
        assert_eq!(c.selected, down, "{start}");
    }
}
