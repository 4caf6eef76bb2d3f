use std::path::PathBuf;
use vybim::diff_view::{
    build_hunks, build_rows, render_row, rows_from_changes, DiffFocus, DiffPanel, DiffRow, DiffView,
    FileDiff, Hunk, LineChange, Side,
};
use vybim::git::{ChangeKind, ChangedFile, FileContents};
use vybim::style::{Color, Rect, Style};
use vybim::theme::Theme;

fn view_with(rows: Vec<DiffRow>) -> DiffView {
    let hunks = build_hunks(&rows);
    DiffView {
        root: Some(PathBuf::from("/repo")),
        files: vec![
            ChangedFile { path: "a.rs".into(), kind: ChangeKind::Modified },
            ChangedFile { path: "b.rs".into(), kind: ChangeKind::Added },
        ],
        selected: 0,
        file: FileDiff { rows, hunks, current_hunk: 0, scroll: 0, binary: false },
        focus: DiffFocus::List,
    }
}

#[test]
fn pure_add_is_all_inserts_on_the_right() {
    let rows = build_rows("", "a\nb\n");
    assert_eq!(rows, vec![DiffRow::Insert("a".into()), DiffRow::Insert("b".into())]);
}

#[test]
fn pure_delete_is_all_deletes_on_the_left() {
    let rows = build_rows("a\nb\n", "");
    assert_eq!(rows, vec![DiffRow::Delete("a".into()), DiffRow::Delete("b".into())]);
}

#[test]
fn mixed_change_keeps_equal_lines_aligned() {
    let rows = build_rows("keep\nold\ntail\n", "keep\nnew\ntail\n");
    assert_eq!(
        rows,
        vec![
            DiffRow::Equal("keep".into()),
            DiffRow::Delete("old".into()),
            DiffRow::Insert("new".into()),
            DiffRow::Equal("tail".into()),
        ]
    );
}

#[test]
fn crlf_does_not_create_spurious_diffs() {
    let rows = build_rows("a\r\nb\r\n", "a\nb\n");
    assert!(rows.iter().all(|r| matches!(r, DiffRow::Equal(_))));
}

#[test]
fn hunks_group_contiguous_changes() {
    let rows = vec![
        DiffRow::Equal("0".into()),
        DiffRow::Delete("1".into()),
        DiffRow::Insert("2".into()),
        DiffRow::Equal("3".into()),
        DiffRow::Equal("4".into()),
        DiffRow::Insert("5".into()),
    ];
    let hunks = build_hunks(&rows);
    assert_eq!(hunks, vec![Hunk { start: 1, end: 3 }, Hunk { start: 5, end: 6 }]);
}

#[test]
fn next_prev_hunk_wraps_and_scrolls() {
    let rows = vec![
        DiffRow::Delete("0".into()),
        DiffRow::Equal("1".into()),
        DiffRow::Insert("2".into()),
    ];
    let mut v = view_with(rows);
    v.focus = DiffFocus::Diff;
    assert_eq!(v.file.hunks.len(), 2);
    v.next_hunk();
    assert_eq!(v.file.current_hunk, 1);
    assert_eq!(v.file.scroll, 2); // hunk at row 2
    v.next_hunk(); // wraps to first
    assert_eq!(v.file.current_hunk, 0);
    assert_eq!(v.file.scroll, 0);
    v.prev_hunk(); // wraps back to last
    assert_eq!(v.file.current_hunk, 1);
}

#[test]
fn enter_diff_requires_rows_then_back_returns() {
    let mut empty = view_with(vec![]);
    empty.enter_diff();
    assert!(empty.focus_in_list()); // nothing to enter
    let mut v = view_with(vec![DiffRow::Insert("x".into())]);
    v.enter_diff();
    assert!(!v.focus_in_list());
    v.back_to_list();
    assert!(v.focus_in_list());
}

#[test]
fn select_next_prev_clamps_to_ends() {
    let mut v = view_with(vec![DiffRow::Equal("x".into())]);
    v.select_prev(); // already at 0, clamped
    assert_eq!(v.selected, 0);
    v.select_next();
    assert_eq!(v.selected, 1);
    v.select_next(); // clamped at last
    assert_eq!(v.selected, 1);
}

fn text(s: &str) -> FileContents {
    FileContents::Text(s.to_string())
}

#[test]
fn changes_become_rows_without_their_line_feeds() {
    let change = |side, s: &str| LineChange { side, text: s.to_string() };
    let rows = rows_from_changes(vec![
        change(Side::Both, "a\n"),
        change(Side::Old, "b\n"),
        change(Side::New, "c"),
    ]);
    assert_eq!(
        rows,
        vec![
            DiffRow::Equal("a".into()),
            DiffRow::Delete("b".into()),
            DiffRow::Insert("c".into())
        ]
    );
}

#[test]
fn the_sides_of_a_diff_are_the_texts() {
    let (old, new) = ("a\nb\nc\nd\n", "a\nx\nc\ny\nz\n");
    let (mut left, mut right) = (String::new(), String::new());
    for row in build_rows(old, new) {
        match row {
            DiffRow::Equal(t) => {
                left += &format!("{t}\n");
                right += &format!("{t}\n");
            }
            DiffRow::Delete(t) => left += &format!("{t}\n"),
            DiffRow::Insert(t) => right += &format!("{t}\n"),
        }
    }
    assert_eq!((left.as_str(), right.as_str()), (old, new));
}

#[test]
fn a_view_asks_for_the_sides_it_needs() {
    let files = vec![
        ChangedFile { path: "m.rs".into(), kind: ChangeKind::Modified },
        ChangedFile { path: "a.rs".into(), kind: ChangeKind::Added },
        ChangedFile { path: "d.rs".into(), kind: ChangeKind::Deleted },
    ];
    let mut v = DiffView::open(Some(PathBuf::from("/repo")), files);
    let asked = |v: &DiffView| {
        let w = v.wanted().unwrap();
        (w.path, w.head, w.disk)
    };
    assert_eq!(asked(&v), ("m.rs".to_string(), true, true));
    v.reload_selected(text("a\nb\n"), text("a\nc\n"));
    assert_eq!(v.file.rows.len(), 3);
    assert_eq!(v.file.hunks, vec![Hunk { start: 1, end: 3 }]);
    assert!(v.select_next());
    assert_eq!(asked(&v), ("a.rs".to_string(), false, true));
    // The side that was not asked for does not count.
    v.reload_selected(text("old\n"), text("new\n"));
    assert_eq!(v.file.rows, vec![DiffRow::Insert("new".into())]);
    assert!(v.select_next());
    assert_eq!(asked(&v), ("d.rs".to_string(), true, false));
    v.reload_selected(text("old\n"), FileContents::Binary);
    assert_eq!(v.file.rows, vec![DiffRow::Delete("old".into())]);
    v.reload_selected(FileContents::Binary, text(""));
    assert!(v.file.binary && v.file.rows.is_empty());
    assert_eq!(v.placeholder(), Some("Binary file \u{2014} not shown."));
}

#[test]
fn refreshing_keeps_the_selection_within_the_list() {
    let file = |p: &str| ChangedFile { path: p.into(), kind: ChangeKind::Modified };
    let root = Some(PathBuf::from("/repo"));
    let mut v = DiffView::open(root.clone(), vec![file("a"), file("b"), file("c")]);
    v.select_next();
    v.select_next();
    v.refresh(root.clone(), vec![file("a"), file("b")]);
    assert_eq!(v.selected, 1);
    v.refresh(root, vec![]);
    assert_eq!((v.selected, v.wanted().is_none()), (0, true));
    assert_eq!(v.placeholder(), Some("No changes against HEAD."));
    v.refresh(None, vec![file("a")]);
    assert!(v.files.is_empty());
    assert_eq!(v.placeholder(), Some("No git repository found."));
}

#[test]
fn scrolling_stays_within_the_rows() {
    let rows = (0..25).map(|i| DiffRow::Equal(i.to_string())).collect();
    let mut v = view_with(rows);
    v.scroll_up();
    assert_eq!(v.file.scroll, 0);
    v.scroll_down();
    v.page_down();
    assert_eq!(v.file.scroll, 11);
    v.page_down();
    v.page_down();
    assert_eq!(v.file.scroll, 24);
    v.scroll_down();
    assert_eq!(v.file.scroll, 24);
    v.page_up();
    v.page_up();
    v.scroll_up();
    assert_eq!(v.file.scroll, 3);
    v.page_up();
    assert_eq!(v.file.scroll, 0);
    // Without hunks there is none to go to.
    v.next_hunk();
    v.prev_hunk();
    assert_eq!(v.file.scroll, 0);
}

#[test]
fn the_view_shows_its_list_and_its_rows() {
    let theme = Theme::default();
    let mut v = view_with(vec![
        DiffRow::Equal("same".into()),
        DiffRow::Delete("old".into()),
        DiffRow::Insert("new".into()),
    ]);
    v.file.scroll = 1;
    let plan = v.render(Rect::new(0, 0, 81, 20), &theme);
    assert_eq!(plan.list_inner, Rect::new(1, 1, 28, 18));
    assert_eq!(plan.header, Rect::new(31, 1, 49, 1));
    assert_eq!(plan.body, Rect::new(31, 2, 49, 17));
    assert_eq!(plan.left, Rect::new(31, 2, 24, 17));
    assert_eq!(plan.mid, Rect::new(55, 2, 1, 17));
    assert_eq!(plan.right, Rect::new(56, 2, 24, 17));
    let chosen = Style::new().bg(Color::Blue).fg(Color::White);
    let (letter, path) = &plan.list[0];
    assert_eq!((letter.text.as_str(), letter.style), ("M ", chosen));
    assert_eq!((path.text.as_str(), path.style), ("a.rs", chosen));
    let (letter, path) = &plan.list[1];
    assert_eq!((letter.text.as_str(), letter.style), ("A ", Style::new().fg(Color::Green)));
    assert_eq!((path.text.as_str(), path.style), ("b.rs", Style::new()));
    match plan.diff {
        DiffPanel::Rows { header, lines } => {
            assert_eq!(header.text, "a.rs");
            assert_eq!(header.style, Style::new().fg(Color::Gray));
            assert_eq!(lines.len(), 2);
            assert_eq!((lines[0].0.text.as_str(), lines[0].1.text.as_str()), ("old", ""));
            assert_eq!((lines[1].0.text.as_str(), lines[1].1.text.as_str()), ("", "new"));
        }
        other => panic!("{other:?}"),
    }
    let empty = view_with(vec![]);
    match empty.render(Rect::new(0, 0, 81, 20), &theme).diff {
        DiffPanel::Message(run) => {
            assert_eq!(run.text, "No changes in this file.");
            assert_eq!(run.style, Style::new().fg(Color::DarkGray));
        }
        other => panic!("{other:?}"),
    }
}

#[test]
fn changed_lines_stand_over_from_a_gap() {
    let theme = Theme::default();
    let gap = Style::new().bg(Color::Indexed(235));
    let (l, r) = render_row(&DiffRow::Delete("x".into()), &theme);
    assert_eq!((l.text.as_str(), l.style), ("x", Style::new().fg(Color::Red).bg(Color::Indexed(52))));
    assert_eq!((r.text.as_str(), r.style), ("", gap));
    let (l, r) = render_row(&DiffRow::Insert("y".into()), &theme);
    assert_eq!((l.text.as_str(), l.style), ("", gap));
    assert_eq!((r.text.as_str(), r.style), ("y", Style::new().fg(Color::Green).bg(Color::Indexed(22))));
    let (l, r) = render_row(&DiffRow::Equal("z".into()), &theme);
    assert_eq!((l.text, r.text, l.style, r.style), ("z".into(), "z".into(), Style::new(), Style::new()));
}

#[test]
fn equal_texts_have_equal_rows_only() {
    for text in ["", "a", "a\n", "a\r\nb\rc\n\n"] {
        let rows = build_rows(text, text);
        assert!(rows.iter().all(|r| matches!(r, DiffRow::Equal(_))), "{text:?}");
        assert!(build_hunks(&rows).is_empty());
    }
}

#[test]
fn every_row_is_one_line() {
    let rows = build_rows("a\n\nb\rc", "a\nb\r");
    assert_eq!(
        rows,
        vec![
            DiffRow::Equal("a".into()),
            DiffRow::Delete("".into()),
            DiffRow::Equal("b\r".into()),
            DiffRow::Delete("c".into()),
        ]
    );
}
