use vybim::buffer::Buffer;
use vybim::pane::{Caret, Cursor, EditorPane};

fn at(line: usize, col: usize) -> Cursor {
    Cursor { line, col, target_col: col }
}

fn pane_at(line: usize, col: usize) -> EditorPane {
    let mut p = EditorPane::new(0);
    p.cursor = at(line, col);
    p
}

fn lines(b: &Buffer) -> Vec<String> {
    (0..b.line_count()).map(|i| b.line_text(i)).collect()
}

#[test]
fn enter_moves_the_rest_to_a_line_of_its_own() {
    let mut b = Buffer::from_str("one\ntwo three\nfour");
    let mut p = pane_at(1, 3);
    p.insert_newline(&mut b);
    assert_eq!(lines(&b), vec!["one", "two", " three", "four"]);
    assert_eq!(p.cursor, at(2, 0));
}

#[test]
fn enter_after_a_lone_carriage_return_splits_too() {
    let mut b = Buffer::from_str("a\rb");
    assert_eq!(lines(&b), vec!["a", "b"]);
    let mut p = pane_at(1, 0);
    p.insert_newline(&mut b);
    assert_eq!(b.text(), "a\r\rb");
    assert_eq!(lines(&b), vec!["a", "", "b"]);
    assert_eq!(p.cursor, at(2, 0));
    // At the end of the text.
    let mut b = Buffer::from_str("a\r");
    let mut p = pane_at(1, 0);
    p.insert_newline(&mut b);
    assert_eq!(lines(&b), vec!["a", "", ""]);
    assert_eq!(p.cursor, at(2, 0));
    // Before a CRLF a line feed is put, as everywhere else.
    let mut b = Buffer::from_str("ab\r\ncd");
    let mut p = pane_at(0, 1);
    p.insert_newline(&mut b);
    assert_eq!(b.text(), "a\nb\r\ncd");
}

#[test]
fn deleting_a_crlf_joins_its_lines() {
    let mut b = Buffer::from_str("ab\r\ncd");
    let mut p = pane_at(0, 2);
    p.delete_forward(&mut b);
    assert_eq!(b.line_count(), 1);
    assert_eq!(b.line_text(0), "abcd");
    assert_eq!(p.cursor, at(0, 2));
    p.undo(&mut b);
    assert_eq!(b.text(), "ab\r\ncd");

    let mut b = Buffer::from_str("a\r\nb");
    let mut p = pane_at(1, 0);
    p.backspace(&mut b);
    assert_eq!(lines(&b), vec!["ab"]);
    assert_eq!(p.cursor, at(0, 1));

    // A carriage return by itself is a break of one character.
    let mut b = Buffer::from_str("a\rb");
    let mut p = pane_at(1, 0);
    p.backspace(&mut b);
    assert_eq!(b.text(), "ab");
}

#[test]
fn every_caret_takes_a_whole_crlf() {
    let text = "ab\r\ncd\r\nef";
    let mut b = Buffer::from_str(text);
    let mut p = pane_at(0, 2);
    p.secondary = vec![Caret { cursor: at(1, 2), anchor: None }];
    p.delete_forward(&mut b);
    assert_eq!(lines(&b), vec!["abcdef"]);
    assert_eq!(p.cursor, at(0, 2));
    assert_eq!(p.secondary[0].cursor, at(0, 4));

    let mut b = Buffer::from_str(text);
    let mut p = pane_at(1, 0);
    p.secondary = vec![Caret { cursor: at(2, 0), anchor: None }];
    p.backspace(&mut b);
    assert_eq!(lines(&b), vec!["abcdef"]);
    assert_eq!(p.cursor, at(0, 2));
    assert_eq!(p.secondary[0].cursor, at(0, 4));

    let mut b = Buffer::from_str("a\rb\rc");
    let mut p = pane_at(1, 0);
    p.secondary = vec![Caret { cursor: at(2, 0), anchor: None }];
    p.insert_newline(&mut b);
    assert_eq!(lines(&b), vec!["a", "", "b", "", "c"]);
    assert_eq!((p.cursor, p.secondary[0].cursor), (at(2, 0), at(4, 0)));
}

#[test]
fn delete_joins_and_stays() {
    let mut b = Buffer::from_str("ab\n\ncd");
    let mut p = pane_at(0, 2);
    p.delete_forward(&mut b);
    assert_eq!(lines(&b), vec!["ab", "cd"]);
    p.delete_forward(&mut b);
    assert_eq!(lines(&b), vec!["abcd"]);
    assert_eq!(p.cursor, at(0, 2));
}

#[test]
fn keys_replace_what_is_selected_either_way_round() {
    for (cursor, anchor) in [(at(0, 1), (1, 2)), (at(1, 2), (0, 1))] {
        let mut b = Buffer::from_str("abc\ndef");
        let mut p = pane_at(0, 0);
        p.cursor = cursor;
        p.anchor = Some(anchor);
        p.insert_char(&mut b, 'x');
        assert_eq!(b.text(), "axf");
        assert_eq!((p.cursor, p.anchor), (at(0, 2), None));

        let mut b = Buffer::from_str("abc\ndef");
        p.cursor = cursor;
        p.anchor = Some(anchor);
        p.delete_forward(&mut b);
        assert_eq!(b.text(), "af");
        assert_eq!((p.cursor, p.anchor), (at(0, 1), None));
    }
}

#[test]
fn a_line_break_over_a_selection_is_one_step() {
    let mut b = Buffer::from_str("abc\ndef");
    let mut p = pane_at(0, 3);
    p.insert_char(&mut b, '!');
    p.cursor = at(0, 1);
    p.anchor = Some((1, 2));
    p.insert_newline(&mut b);
    assert_eq!(b.text(), "a\nf");
    p.undo(&mut b);
    assert_eq!(b.text(), "abc!\ndef");
    p.undo(&mut b);
    assert_eq!(b.text(), "abc\ndef");
    assert!(b.is_dirty());
}

#[test]
fn shift_extends_and_a_plain_move_ends_the_selection() {
    let b = Buffer::from_str("abcdef\nx\nghijkl");
    let mut p = pane_at(0, 4);
    p.move_down(&b, true);
    assert_eq!((p.cursor.line, p.cursor.col, p.cursor.target_col), (1, 1, 4));
    p.move_down(&b, true);
    assert_eq!((p.cursor.line, p.cursor.col), (2, 4));
    assert_eq!(p.anchor, Some((0, 4)));
    p.move_left(&b, false);
    assert_eq!(p.anchor, None);
    assert_eq!(p.cursor, at(2, 3));
}

#[test]
fn what_is_typed_goes_where_the_selection_was() {
    // Without the selection the carriage return and the line feed make one
    // break; with what is typed between them they do not.
    let mut b = Buffer::from_str("a\rXX\nb");
    let mut p = pane_at(1, 2);
    p.anchor = Some((1, 0));
    p.insert_char(&mut b, 'y');
    assert_eq!(b.text(), "a\ry\nb");
    assert_eq!(lines(&b), vec!["a", "y", "b"]);
    assert_eq!(p.cursor, at(1, 1));
    p.undo(&mut b);
    assert_eq!(b.text(), "a\rXX\nb");

    let mut b = Buffer::from_str("a\rXX\nb");
    let mut p = pane_at(1, 2);
    p.anchor = Some((1, 0));
    p.insert_newline(&mut b);
    assert_eq!(b.text(), "a\r\n\nb");
    assert_eq!(p.cursor, at(2, 0));
    p.undo(&mut b);
    assert_eq!(b.text(), "a\rXX\nb");
}

#[test]
fn a_caret_with_nothing_to_delete_stays() {
    // The first line is empty: the caret at the start of the text has nothing
    // before it, the other one joins its line to the first.
    for (first, other) in [(at(1, 0), at(0, 0)), (at(0, 0), at(1, 0))] {
        let mut b = Buffer::from_str("\nab");
        let mut p = pane_at(0, 0);
        p.cursor = first;
        p.secondary = vec![Caret { cursor: other, anchor: None }];
        p.backspace(&mut b);
        assert_eq!(b.text(), "ab");
        assert_eq!(p.cursor, at(0, 0));
        assert!(p.secondary.is_empty());
    }
    // A caret at the start of another one's selection.
    let mut b = Buffer::from_str("abcdef");
    let mut p = pane_at(0, 4);
    p.anchor = Some((0, 2));
    p.secondary = vec![Caret { cursor: at(0, 2), anchor: None }];
    p.insert_char(&mut b, 'x');
    assert_eq!(b.text(), "abxxef");
    assert_eq!((p.cursor, p.secondary[0].cursor), (at(0, 4), at(0, 3)));
}
