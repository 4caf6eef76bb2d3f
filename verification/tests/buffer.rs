use std::path::PathBuf;
use vybim::buffer::{temp_name, Buffer};

#[test]
fn empty_buffer_has_one_line() {
    let b = Buffer::empty();
    assert_eq!(b.line_count(), 1);
    assert_eq!(b.line_text(0), "");
    assert!(!b.is_dirty());
}

#[test]
fn line_text_strips_newline() {
    let b = Buffer::from_str("hello\nworld\n");
    assert_eq!(b.line_text(0), "hello");
    assert_eq!(b.line_text(1), "world");
    assert_eq!(b.line_len_chars(0), 5);
    // trailing newline produces a final empty line
    assert_eq!(b.line_count(), 3);
    assert_eq!(b.line_text(2), "");
}

#[test]
fn char_idx_and_line_col_round_trip() {
    let b = Buffer::from_str("ab\ncde");
    assert_eq!(b.char_idx(0, 0), 0);
    assert_eq!(b.char_idx(1, 0), 3); // after "ab\n"
    assert_eq!(b.char_idx(1, 2), 5);
    assert_eq!(b.line_col(5), (1, 2));
    assert_eq!(b.line_col(0), (0, 0));
}

#[test]
fn undo_redo_return_cursor_targets() {
    let mut b = Buffer::from_str("");
    b.begin_edit(0);
    b.insert(0, "abc"); // one group: before 0, after 3
    assert_eq!(b.undo(), Some(0)); // cursor_before
    assert_eq!(b.line_text(0), "");
    assert_eq!(b.redo(), Some(3)); // cursor_after
    assert_eq!(b.line_text(0), "abc");
}

#[test]
fn undo_then_new_edit_clears_redo() {
    let mut b = Buffer::from_str("");
    b.begin_edit(0);
    b.insert(0, "abc");
    b.undo();
    b.begin_edit(0);
    b.insert(0, "x"); // diverging edit clears the redo stack
    assert_eq!(b.redo(), None);
    assert_eq!(b.line_text(0), "x");
}

#[test]
fn undo_redo_empty_stacks_are_none() {
    let mut b = Buffer::from_str("seed");
    assert_eq!(b.undo(), None);
    assert_eq!(b.redo(), None);
    assert_eq!(b.line_text(0), "seed");
}

#[test]
fn save_without_path_is_noop() {
    let mut b = Buffer::from_str("text");
    assert!(b.save().is_none());
}

#[test]
fn saving_hands_out_the_text_and_the_path() {
    let mut b = Buffer::from_path(PathBuf::from("/tmp/notes.txt"), "text");
    assert_eq!(b.path(), Some(&PathBuf::from("/tmp/notes.txt")));
    b.begin_edit(4);
    b.insert(4, "!");
    assert!(b.is_dirty());
    let job = b.save().unwrap();
    assert_eq!(job.path, PathBuf::from("/tmp/notes.txt"));
    assert_eq!(job.text, "text!");
    // Only a finished write makes the buffer clean.
    assert!(b.is_dirty());
    b.saved();
    assert!(!b.is_dirty());
    // What was typed before the save is one step, and undoing it is a change.
    b.insert(5, "?");
    assert_eq!(b.undo(), Some(4));
    assert_eq!(b.text(), "text!");
    assert_eq!(b.undo(), Some(4));
    assert_eq!(b.text(), "text");
    assert!(b.is_dirty());
}

#[test]
fn the_temporary_file_is_hidden_and_names_the_process() {
    assert_eq!(temp_name("a.rs", 42), ".a.rs.vybim-42.tmp");
    assert_eq!(temp_name("", 4_294_967_295), "..vybim-4294967295.tmp");
}

#[test]
fn every_line_break_of_unicode_counts() {
    let b = Buffer::from_str("a\r\nb\rc\u{2028}d\u{b}e");
    assert_eq!(b.line_count(), 5);
    assert_eq!(b.line_text(0), "a");
    assert_eq!(b.line_text(1), "b");
    // Only line feeds and carriage returns are taken off.
    assert_eq!(b.line_text(2), "c\u{2028}");
    assert_eq!(b.line_text(3), "d\u{b}");
    assert_eq!(b.line_text(4), "e");
    assert_eq!(b.line_text(5), "");
    assert_eq!(b.line_col(3), (1, 0));
    assert_eq!(b.line_col(99), (4, 1));
    assert_eq!(b.char_idx(5, 0), b.len_chars());
}

#[test]
fn edits_that_do_not_continue_are_steps_of_their_own() {
    let mut b = Buffer::from_str("0123456789");
    b.begin_edit(5);
    b.insert(5, "a");
    b.begin_edit(6);
    b.insert(6, "b"); // goes on with the run
    b.begin_edit(2);
    b.insert(2, "c"); // elsewhere
    b.begin_edit(4);
    b.remove(3, 4); // a removal ends a run of insertions
    assert_eq!(b.text(), "01c34ab56789");
    assert_eq!(b.undo(), Some(4));
    assert_eq!(b.text(), "01c234ab56789");
    assert_eq!(b.undo(), Some(2));
    assert_eq!(b.text(), "01234ab56789");
    assert_eq!(b.undo(), Some(5));
    assert_eq!(b.text(), "0123456789");
    assert_eq!(b.undo(), None);
    assert_eq!((b.redo(), b.redo(), b.redo()), (Some(7), Some(3), Some(3)));
    assert_eq!(b.text(), "01c34ab56789");
    assert_eq!(b.redo(), None);
}

#[test]
fn an_empty_removal_is_no_edit() {
    let mut b = Buffer::from_str("abc");
    b.remove(2, 2);
    b.remove(9, 3);
    assert!(!b.is_dirty());
    assert_eq!(b.undo(), None);
}

#[test]
fn utf16_columns_round_trip() {
    let b = Buffer::from_str("a\u{1f600}b\u{e9}\nz");
    for col in 0..5 {
        assert_eq!(b.char_col_from_utf16(0, b.utf16_col(0, col)), col);
    }
    assert_eq!(b.utf16_col(0, 2), 3);
    assert_eq!(b.utf16_col(0, 99), 5);
    // The second half of a pair belongs to its character.
    assert_eq!(b.char_col_from_utf16(0, 2), 1);
    assert_eq!(b.char_col_from_utf16(0, 99), 4);
    assert_eq!(b.utf16_col(7, 1), 1);
}

#[test]
fn an_edit_is_undone_and_made_again_unless_another_comes_between() {
    let mut b = Buffer::from_str("abc");
    assert_eq!(b.undo(), None);
    assert!(!b.is_dirty());
    b.finalize();
    b.begin_edit(1);
    b.remove(1, 2);
    assert_eq!(b.text(), "ac");
    assert_eq!(b.undo(), Some(1));
    assert_eq!(b.text(), "abc");
    assert!(b.is_dirty());
    assert!(b.redo().is_some());
    assert_eq!(b.text(), "ac");
    assert_eq!(b.undo(), Some(1));
    b.insert(0, "x");
    assert_eq!(b.redo(), None);
    assert_eq!(b.text(), "xabc");
}
