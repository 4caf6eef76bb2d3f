use vybim::app::EditorCommand;
use vybim::buffer::Buffer;
use vybim::pane::{
    find_matches, gutter_num_width, nearest_at_or_after, scroll_to_show, Caret, Cursor, EditorPane,
};

/// A pane over a fresh in-memory buffer.
fn setup(text: &str) -> (EditorPane, Buffer) {
    (EditorPane::new(0), Buffer::from_str(text))
}

#[test]
fn pane_cursor_inside_viewport_does_not_scroll() {
    assert_eq!(scroll_to_show(10, 12, 20), 10);
}

#[test]
fn pane_cursor_above_viewport_scrolls_up_to_cursor() {
    assert_eq!(scroll_to_show(10, 4, 20), 4);
}

#[test]
fn pane_cursor_below_viewport_scrolls_just_enough() {
    assert_eq!(scroll_to_show(10, 35, 20), 16);
}

#[test]
fn pane_zero_viewport_is_a_noop() {
    assert_eq!(scroll_to_show(7, 100, 0), 7);
}

#[test]
fn vertical_move_preserves_target_column() {
    let (mut p, b) = setup("abcde\nxy\nlongerline");
    for _ in 0..4 {
        p.move_right(&b, false);
    }
    assert_eq!((p.cursor.line, p.cursor.col), (0, 4));
    p.move_down(&b, false); // "xy" len 2 -> clamp to 2, target stays 4
    assert_eq!((p.cursor.line, p.cursor.col), (1, 2));
    assert_eq!(p.cursor.target_col, 4);
    p.move_down(&b, false); // "longerline" -> col back to 4
    assert_eq!((p.cursor.line, p.cursor.col), (2, 4));
}

#[test]
fn move_left_wraps_to_previous_line_end() {
    let (mut p, b) = setup("ab\ncd");
    p.move_down(&b, false);
    assert_eq!((p.cursor.line, p.cursor.col), (1, 0));
    p.move_left(&b, false);
    assert_eq!((p.cursor.line, p.cursor.col), (0, 2));
}

#[test]
fn word_right_stops_at_end_of_next_word() {
    let (mut p, b) = setup("foo bar baz");
    p.move_word_right(&b, false); // end of "foo"
    assert_eq!((p.cursor.line, p.cursor.col), (0, 3));
    p.move_word_right(&b, false); // skip space, end of "bar"
    assert_eq!((p.cursor.line, p.cursor.col), (0, 7));
}

#[test]
fn word_left_stops_at_start_of_previous_word() {
    let (mut p, b) = setup("foo bar baz");
    p.cursor.col = 11; // end of line
    p.move_word_left(&b, false); // start of "baz"
    assert_eq!((p.cursor.line, p.cursor.col), (0, 8));
    p.move_word_left(&b, false); // start of "bar"
    assert_eq!((p.cursor.line, p.cursor.col), (0, 4));
}

#[test]
fn word_movement_wraps_across_line_boundaries() {
    let (mut p, b) = setup("foo\nbar");
    p.cursor.col = 3; // end of "foo"
    p.move_word_right(&b, false); // cross newline, end of "bar"
    assert_eq!((p.cursor.line, p.cursor.col), (1, 3));
    p.move_word_left(&b, false); // start of "bar"
    assert_eq!((p.cursor.line, p.cursor.col), (1, 0));
    p.move_word_left(&b, false); // cross newline back, start of "foo"
    assert_eq!((p.cursor.line, p.cursor.col), (0, 0));
}

#[test]
fn word_movement_clamps_at_buffer_ends() {
    let (mut p, b) = setup("foo bar");
    p.move_word_left(&b, false); // already at start
    assert_eq!((p.cursor.line, p.cursor.col), (0, 0));
    p.cursor.col = 7; // end of buffer
    p.move_word_right(&b, false); // nowhere to go
    assert_eq!((p.cursor.line, p.cursor.col), (0, 7));
}

#[test]
fn shift_word_move_extends_selection_plain_collapses() {
    let (mut p, b) = setup("foo bar");
    p.move_word_right(&b, true); // select "foo"
    assert_eq!(p.ordered_selection(), Some(((0, 0), (0, 3))));
    p.move_word_left(&b, false); // plain move collapses
    assert_eq!(p.ordered_selection(), None);
}

#[test]
fn word_movement_applies_at_every_caret() {
    let (mut p, b) = setup("foo bar\nfoo bar");
    p.add_caret_below(&b);
    p.move_word_right(&b, false); // both carets to end of "foo"
    assert_eq!((p.cursor.line, p.cursor.col), (0, 3));
    assert_eq!(
        (p.secondary[0].cursor.line, p.secondary[0].cursor.col),
        (1, 3)
    );
}

#[test]
fn insert_chars_and_newline() {
    let (mut p, mut b) = setup("");
    p.insert_char(&mut b, 'h');
    p.insert_char(&mut b, 'i');
    assert_eq!(b.line_text(0), "hi");
    assert_eq!(p.cursor.col, 2);
    p.insert_newline(&mut b);
    assert_eq!((p.cursor.line, p.cursor.col), (1, 0));
    p.insert_char(&mut b, 'x');
    assert_eq!(b.line_text(1), "x");
    assert!(b.is_dirty());
}

#[test]
fn enter_splits_line() {
    let (mut p, mut b) = setup("abcd");
    p.move_right(&b, false);
    p.move_right(&b, false);
    p.insert_newline(&mut b);
    assert_eq!(b.line_text(0), "ab");
    assert_eq!(b.line_text(1), "cd");
    assert_eq!((p.cursor.line, p.cursor.col), (1, 0));
}

#[test]
fn backspace_at_line_start_joins_lines() {
    let (mut p, mut b) = setup("ab\ncd");
    p.move_down(&b, false);
    p.backspace(&mut b);
    assert_eq!(b.line_text(0), "abcd");
    assert_eq!((p.cursor.line, p.cursor.col), (0, 2));
}

#[test]
fn delete_forward_at_line_end_joins_lines() {
    let (mut p, mut b) = setup("ab\ncd");
    p.move_right(&b, false);
    p.move_right(&b, false);
    p.delete_forward(&mut b);
    assert_eq!(b.line_text(0), "abcd");
    assert_eq!((p.cursor.line, p.cursor.col), (0, 2));
}

#[test]
fn shift_arrow_selects_and_typing_replaces() {
    let (mut p, mut b) = setup("hello");
    p.move_right(&b, true);
    p.move_right(&b, true);
    p.move_right(&b, true); // select "hel"
    assert!(p.has_selection());
    p.insert_char(&mut b, 'H');
    assert_eq!(b.line_text(0), "Hlo");
    assert_eq!(p.cursor.col, 1);
    assert!(!p.has_selection());
}

#[test]
fn plain_move_collapses_selection() {
    let (mut p, b) = setup("hello");
    p.move_right(&b, true);
    assert!(p.has_selection());
    p.move_right(&b, false);
    assert!(!p.has_selection());
}

#[test]
fn backspace_removes_selection() {
    let (mut p, mut b) = setup("hello");
    p.move_right(&b, true);
    p.move_right(&b, true); // select "he"
    p.backspace(&mut b);
    assert_eq!(b.line_text(0), "llo");
    assert!(!p.has_selection());
    assert_eq!(p.cursor.col, 0);
}

#[test]
fn home_and_end_move_to_line_edges() {
    let (mut p, b) = setup("hello\nworld");
    p.move_down(&b, false); // line 1, col 0
    p.move_line_end(&b, false);
    assert_eq!((p.cursor.line, p.cursor.col), (1, 5));
    p.move_line_start(&b, false);
    assert_eq!((p.cursor.line, p.cursor.col), (1, 0));
}

#[test]
fn shift_end_extends_selection() {
    let (mut p, b) = setup("hello");
    p.move_line_end(&b, true);
    assert!(p.has_selection());
    assert_eq!(p.cursor.col, 5);
}

#[test]
fn plain_home_collapses_selection() {
    let (mut p, b) = setup("hello");
    p.move_right(&b, true);
    assert!(p.has_selection());
    p.move_line_start(&b, false);
    assert!(!p.has_selection());
    assert_eq!(p.cursor.col, 0);
}

#[test]
fn page_down_and_up_jump_by_viewport_height() {
    let text = (0..20)
        .map(|i| format!("line{i}"))
        .collect::<Vec<_>>()
        .join("\n");
    let (mut p, b) = setup(&text);
    p.last_height = 5; // pretend a 5-row viewport
    p.page_down(&b, false);
    assert_eq!(p.cursor.line, 5);
    p.page_down(&b, false);
    assert_eq!(p.cursor.line, 10);
    p.page_up(&b, false);
    assert_eq!(p.cursor.line, 5);
}

#[test]
fn page_down_clamps_to_last_line() {
    let (mut p, b) = setup("a\nb\nc");
    p.last_height = 100;
    p.page_down(&b, false);
    assert_eq!(p.cursor.line, 2); // last line, not past it
}

#[test]
fn shift_page_down_extends_selection() {
    let text = (0..10)
        .map(|i| i.to_string())
        .collect::<Vec<_>>()
        .join("\n");
    let (mut p, b) = setup(&text);
    p.last_height = 3;
    p.page_down(&b, true);
    assert!(p.has_selection());
    assert_eq!(p.cursor.line, 3);
}

#[test]
fn gutter_width_has_floor_of_three() {
    assert_eq!(gutter_num_width(1), 3);
    assert_eq!(gutter_num_width(999), 3);
    assert_eq!(gutter_num_width(1000), 4);
    assert_eq!(gutter_num_width(12345), 5);
}

// --- search & go-to-line ----------------------------------------------

/// The current match as an ordered (start, end) selection, for assertions.
fn match_selection(p: &EditorPane) -> Option<((usize, usize), (usize, usize))> {
    p.ordered_selection()
}

#[test]
fn find_matches_is_case_insensitive_and_finds_all() {
    let b = Buffer::from_str("Foo foo\nbar FOO");
    let m = find_matches(&b, "foo");
    assert_eq!(m, vec![(0, 0), (0, 4), (1, 4)]);
    assert!(find_matches(&b, "zzz").is_empty());
}

#[test]
fn nearest_at_or_after_picks_first_following_match() {
    let m = vec![(0, 0), (1, 2), (3, 0)];
    assert_eq!(nearest_at_or_after(&m, (1, 0)), Some(1));
    assert_eq!(nearest_at_or_after(&m, (3, 0)), Some(2));
    assert_eq!(nearest_at_or_after(&m, (9, 9)), None);
}

#[test]
fn search_update_selects_nearest_match_and_wraps() {
    let (mut p, b) = setup("foo\nbar foo\nfoo end");
    p.cursor.line = 1; // origin on line 1
    p.search_begin();
    p.search_update(&b, "foo");
    // nearest at/after (1,0) is the "foo" at (1,4)
    assert_eq!(match_selection(&p), Some(((1, 4), (1, 7))));
}

#[test]
fn search_update_with_no_origin_match_wraps_to_first() {
    let (mut p, b) = setup("foo\nbar");
    p.cursor.line = 1; // nothing matches at/after line 1
    p.search_begin();
    p.search_update(&b, "foo");
    assert_eq!(match_selection(&p), Some(((0, 0), (0, 3))));
}

#[test]
fn search_next_and_prev_wrap_around() {
    let (mut p, b) = setup("foo foo\nfoo");
    p.search_begin();
    p.search_update(&b, "foo"); // matches (0,0),(0,4),(1,0); current 0
    assert_eq!(match_selection(&p), Some(((0, 0), (0, 3))));
    p.search_next();
    assert_eq!(match_selection(&p), Some(((0, 4), (0, 7))));
    p.search_next();
    assert_eq!(match_selection(&p), Some(((1, 0), (1, 3))));
    p.search_next(); // wraps to first
    assert_eq!(match_selection(&p), Some(((0, 0), (0, 3))));
    p.search_prev(); // wraps back to last
    assert_eq!(match_selection(&p), Some(((1, 0), (1, 3))));
}

#[test]
fn empty_query_and_no_match_restore_origin_without_selection() {
    let (mut p, b) = setup("foo\nbar");
    p.cursor.line = 1;
    p.search_begin();
    p.search_update(&b, "foo"); // jumps to (0,0)
    assert!(p.has_selection());
    p.search_update(&b, ""); // empty -> back to origin, no selection
    assert!(!p.has_selection());
    assert_eq!((p.cursor.line, p.cursor.col), (1, 0));
    p.search_update(&b, "zzz"); // no match -> origin, no selection
    assert!(!p.has_selection());
    assert_eq!((p.cursor.line, p.cursor.col), (1, 0));
}

#[test]
fn search_cancel_restores_origin_commit_keeps_selection() {
    let (mut p, b) = setup("hello\nfoo here");
    p.cursor.line = 0;
    p.cursor.col = 2; // origin (0,2)
    p.search_begin();
    p.search_update(&b, "foo");
    assert_eq!(match_selection(&p), Some(((1, 0), (1, 3))));
    p.search_cancel();
    assert!(!p.has_selection());
    assert_eq!((p.cursor.line, p.cursor.col), (0, 2));

    // commit leaves the match selected
    p.search_begin();
    p.search_update(&b, "foo");
    p.search_commit();
    assert_eq!(match_selection(&p), Some(((1, 0), (1, 3))));
}

// --- undo / redo -------------------------------------------------------

#[test]
fn typed_run_undoes_and_redoes_as_one_group() {
    let (mut p, mut b) = setup("");
    for c in "hello".chars() {
        p.insert_char(&mut b, c);
    }
    assert_eq!(b.line_text(0), "hello");
    p.undo(&mut b);
    assert_eq!(b.line_text(0), ""); // whole run gone in one step
    p.redo(&mut b);
    assert_eq!(b.line_text(0), "hello");
}

#[test]
fn deletion_is_its_own_undo_step() {
    let (mut p, mut b) = setup("");
    for c in "abc".chars() {
        p.insert_char(&mut b, c);
    }
    p.backspace(&mut b); // delete 'c'
    assert_eq!(b.line_text(0), "ab");
    p.undo(&mut b); // reverts only the deletion
    assert_eq!(b.line_text(0), "abc");
    p.undo(&mut b); // reverts the typed run
    assert_eq!(b.line_text(0), "");
}

#[test]
fn line_breaks_split_groups() {
    let (mut p, mut b) = setup("");
    for c in "ab".chars() {
        p.insert_char(&mut b, c);
    }
    p.insert_newline(&mut b);
    for c in "cd".chars() {
        p.insert_char(&mut b, c);
    }
    assert_eq!(b.line_text(0), "ab");
    assert_eq!(b.line_text(1), "cd");
    p.undo(&mut b); // remove "cd"
    assert_eq!(b.line_text(1), "");
    p.undo(&mut b); // remove the newline
    assert_eq!(b.line_count(), 1);
    assert_eq!(b.line_text(0), "ab");
    p.undo(&mut b); // remove "ab"
    assert_eq!(b.line_text(0), "");
}

#[test]
fn selection_replace_is_one_group() {
    let (mut p, mut b) = setup("hello");
    p.move_right(&b, true);
    p.move_right(&b, true);
    p.move_right(&b, true); // select "hel"
    p.insert_char(&mut b, 'H'); // type over the selection -> "Hlo"
    assert_eq!(b.line_text(0), "Hlo");
    p.undo(&mut b); // single step restores the original
    assert_eq!(b.line_text(0), "hello");
}

#[test]
fn new_edit_after_undo_discards_redo() {
    let (mut p, mut b) = setup("");
    for c in "abc".chars() {
        p.insert_char(&mut b, c);
    }
    p.undo(&mut b);
    assert_eq!(b.line_text(0), "");
    p.insert_char(&mut b, 'x'); // diverge
    p.redo(&mut b); // nothing to redo
    assert_eq!(b.line_text(0), "x");
}

#[test]
fn undo_redo_restore_cursor_and_clear_selection() {
    let (mut p, mut b) = setup("");
    for c in "hi".chars() {
        p.insert_char(&mut b, c);
    }
    // move away and start a selection to prove undo restores both
    p.move_line_start(&b, false);
    p.move_right(&b, true);
    assert!(p.has_selection());
    p.undo(&mut b);
    assert_eq!(b.line_text(0), "");
    assert!(!p.has_selection());
    assert_eq!((p.cursor.line, p.cursor.col), (0, 0)); // cursor_before
    p.redo(&mut b);
    assert_eq!(b.line_text(0), "hi");
    assert_eq!((p.cursor.line, p.cursor.col), (0, 2)); // cursor_after
}

#[test]
fn undo_redo_on_empty_stacks_are_noops() {
    let (mut p, mut b) = setup("seed");
    p.undo(&mut b); // nothing recorded yet
    assert_eq!(b.line_text(0), "seed");
    p.redo(&mut b);
    assert_eq!(b.line_text(0), "seed");
    assert_eq!((p.cursor.line, p.cursor.col), (0, 0));
}

#[test]
fn goto_line_jumps_and_clamps() {
    let (mut p, b) = setup("a\nb\nc\nd");
    p.goto_line(&b, 3);
    assert_eq!((p.cursor.line, p.cursor.col), (2, 0));
    p.goto_line(&b, 999); // clamp to last line
    assert_eq!(p.cursor.line, 3);
    p.goto_line(&b, 1);
    assert_eq!(p.cursor.line, 0);
}

#[test]
fn set_cursor_clamps_line_and_col() {
    let (mut p, b) = setup("ab\ncdef\ng");
    p.set_cursor(&b, 1, 3);
    assert_eq!((p.cursor.line, p.cursor.col), (1, 3));
    // Line past the end lands on the last line; col past the end lands on
    // that line's length.
    p.set_cursor(&b, 999, 999);
    assert_eq!((p.cursor.line, p.cursor.col), (2, 1));
    assert_eq!(p.cursor.target_col, 1);
}

#[test]
fn set_cursor_clears_selection() {
    let (mut p, b) = setup("hello\nworld");
    p.move_right(&b, true); // start a selection
    assert!(p.has_selection());
    p.set_cursor(&b, 1, 0);
    assert!(!p.has_selection());
}

// --- multi-cursor ------------------------------------------------------

/// A secondary caret at `(line, col)` with no selection.
fn caret_at(line: usize, col: usize) -> Caret {
    Caret {
        cursor: Cursor {
            line,
            col,
            target_col: col,
        },
        anchor: None,
    }
}

#[test]
fn add_caret_below_and_above_place_carets_and_stop_at_edges() {
    let (mut p, b) = setup("aaa\nbbb\nccc");
    p.cursor.col = 1;
    p.cursor.target_col = 1;
    p.add_caret_below(&b);
    p.add_caret_below(&b);
    assert_eq!(p.secondary.len(), 2);
    assert_eq!(
        (p.secondary[0].cursor.line, p.secondary[0].cursor.col),
        (1, 1)
    );
    assert_eq!(
        (p.secondary[1].cursor.line, p.secondary[1].cursor.col),
        (2, 1)
    );
    // below the last line is a no-op
    p.add_caret_below(&b);
    assert_eq!(p.secondary.len(), 2);
}

#[test]
fn add_caret_above_is_a_noop_at_the_top() {
    let (mut p, b) = setup("aaa\nbbb");
    p.cursor.line = 0;
    p.add_caret_above(&b);
    assert!(p.secondary.is_empty());
}

#[test]
fn caret_clamps_column_to_a_short_line() {
    let (mut p, b) = setup("longline\nab");
    p.cursor.col = 6;
    p.cursor.target_col = 6;
    p.add_caret_below(&b); // line "ab" is only 2 long
    assert_eq!(
        (p.secondary[0].cursor.line, p.secondary[0].cursor.col),
        (1, 2)
    );
    assert_eq!(p.secondary[0].cursor.target_col, 6); // remembered
}

#[test]
fn typing_fans_out_to_carets_on_different_lines() {
    let (mut p, mut b) = setup("aaa\nbbb\nccc");
    p.cursor.col = 0;
    p.add_caret_below(&b);
    p.add_caret_below(&b);
    p.insert_char(&mut b, 'X');
    assert_eq!(b.line_text(0), "Xaaa");
    assert_eq!(b.line_text(1), "Xbbb");
    assert_eq!(b.line_text(2), "Xccc");
    assert_eq!(p.cursor.col, 1);
    assert!(p.secondary.iter().all(|c| c.cursor.col == 1));
}

#[test]
fn typing_at_two_carets_on_the_same_line_is_ordered_correctly() {
    // The ordering guard: edits must apply low-to-high without corrupting
    // the not-yet-applied positions.
    let (mut p, mut b) = setup("abcd");
    p.cursor.col = 1;
    p.cursor.target_col = 1;
    p.secondary.push(caret_at(0, 3));
    p.insert_char(&mut b, '-');
    assert_eq!(b.line_text(0), "a-bc-d");
}

#[test]
fn backspace_fans_out_to_all_carets() {
    let (mut p, mut b) = setup("aXa\nbXb");
    p.cursor.line = 0;
    p.cursor.col = 2;
    p.cursor.target_col = 2;
    p.secondary.push(caret_at(1, 2));
    p.backspace(&mut b);
    assert_eq!(b.line_text(0), "aa");
    assert_eq!(b.line_text(1), "bb");
}

#[test]
fn newline_at_multiple_carets_splits_each_line() {
    let (mut p, mut b) = setup("ab\ncd");
    p.cursor.line = 0;
    p.cursor.col = 1;
    p.cursor.target_col = 1;
    p.secondary.push(caret_at(1, 1));
    p.insert_newline(&mut b);
    assert_eq!(b.line_count(), 4);
    assert_eq!(b.line_text(0), "a");
    assert_eq!(b.line_text(1), "b");
    assert_eq!(b.line_text(2), "c");
    assert_eq!(b.line_text(3), "d");
}

#[test]
fn shift_move_extends_a_selection_at_every_caret() {
    let (mut p, b) = setup("aaaa\nbbbb");
    p.cursor.col = 0;
    p.add_caret_below(&b);
    p.move_right(&b, true);
    p.move_right(&b, true);
    assert!(p.has_selection());
    assert!(p.secondary[0].anchor.is_some());
    assert_eq!(p.cursor.col, 2);
    assert_eq!(p.secondary[0].cursor.col, 2);
}

#[test]
fn collapse_drops_secondary_carets() {
    let (mut p, b) = setup("aa\nbb\ncc");
    p.add_caret_below(&b);
    p.add_caret_below(&b);
    assert!(p.has_secondary_carets());
    p.collapse_carets();
    assert!(!p.has_secondary_carets());
}

#[test]
fn coincident_carets_merge_after_movement() {
    let (mut p, b) = setup("ab\ncd");
    p.cursor.line = 0;
    p.cursor.col = 1;
    p.cursor.target_col = 1;
    p.add_caret_below(&b); // secondary at (1,1)
    assert_eq!(p.secondary.len(), 1);
    // move all carets down: primary -> (1,1); the secondary is clamped at the
    // last line and stays (1,1), so they coincide and merge.
    p.move_down(&b, false);
    assert!(p.secondary.is_empty());
    assert_eq!((p.cursor.line, p.cursor.col), (1, 1));
}

#[test]
fn carets_lie_within_their_text_or_not() {
    let (mut p, b) = setup("ab\ncd");
    assert!(p.lies_within(&b));
    p.cursor = Cursor { line: 1, col: 2, target_col: 2 };
    assert!(p.lies_within(&b));
    p.cursor.col = 3;
    assert!(!p.lies_within(&b));
    p.cursor = Cursor { line: 2, col: 0, target_col: 0 };
    assert!(!p.lies_within(&b));
    p.cursor = Cursor { line: 0, col: 0, target_col: 0 };
    p.anchor = Some((1, 5));
    assert!(!p.lies_within(&b));
    p.anchor = None;
    p.secondary = vec![Caret { cursor: Cursor { line: 2, col: 0, target_col: 0 }, anchor: None }];
    assert!(!p.lies_within(&b));
    p.secondary[0].cursor.line = 1;
    assert!(p.lies_within(&b));
}

#[test]
fn a_pane_says_what_it_can_take() {
    let (mut p, b) = setup("ab\ncd");
    let all = [
        EditorCommand::Newline,
        EditorCommand::Backspace,
        EditorCommand::Delete,
        EditorCommand::Tab,
        EditorCommand::Insert('x'),
    ];
    let taken = |p: &EditorPane| all.map(|cmd| p.takes(&b, cmd));
    p.cursor = Cursor { line: 1, col: 2, target_col: 2 };
    assert_eq!(taken(&p), [true; 5]);
    // One line past the last there is the end of the text, but only one space.
    p.cursor = Cursor { line: 2, col: 0, target_col: 0 };
    assert_eq!(taken(&p), [true, true, true, false, true]);
    // Past the end of the text there is nothing to type at.
    p.cursor.col = 1;
    assert_eq!(taken(&p), [false, false, true, false, false]);
    p.cursor = Cursor { line: 3, col: 0, target_col: 0 };
    assert_eq!(taken(&p), [false; 5]);
    assert!(p.takes(&b, EditorCommand::Up) && p.takes(&b, EditorCommand::PageDown));
    p.cursor.line = usize::MAX;
    assert!(!p.takes(&b, EditorCommand::PageDown));
    // A selection that ends past the text.
    p.cursor = Cursor { line: 0, col: 0, target_col: 0 };
    p.anchor = Some((1, 5));
    assert_eq!(taken(&p), [false; 5]);
    // Another caret past the text.
    p.anchor = None;
    p.secondary = vec![Caret { cursor: Cursor { line: 1, col: 2, target_col: 2 }, anchor: None }];
    assert_eq!(taken(&p), [true; 5]);
    p.secondary[0].cursor.col = 3;
    assert_eq!(taken(&p), [false, false, true, false, false]);
    p.secondary[0].cursor.line = 3;
    assert_eq!(taken(&p), [false; 5]);
    p.secondary[0].cursor.line = usize::MAX;
    assert!(!p.takes(&b, EditorCommand::PageDown));
}

#[test]
fn several_carets_stay_within_their_text() {
    let (mut p, mut b) = setup("one\r\ntwo\rthree\n\nfour\r");
    p.add_caret_below(&b);
    p.add_caret_below(&b);
    for step in 0..60 {
        match step % 8 {
            0 => p.insert_char(&mut b, 'x'),
            1 => p.insert_newline(&mut b),
            2 => p.move_right(&b, true),
            3 => p.backspace(&mut b),
            4 => p.move_down(&b, false),
            5 => p.delete_forward(&mut b),
            6 => p.add_caret_below(&b),
            _ => p.move_left(&b, step % 3 == 0),
        }
        assert!(p.lies_within(&b), "{step}: {:?} in {:?}", p.cursor, b.text());
    }
}

#[test]
fn editing_keeps_the_caret_within_the_text() {
    let (mut p, mut b) = setup("one two\nthree\n\nfour");
    p.goto_line(&b, 2);
    for step in 0..60 {
        match step % 7 {
            0 => p.insert_char(&mut b, 'x'),
            1 => p.insert_newline(&mut b),
            2 => p.move_word_right(&b, true),
            3 => p.backspace(&mut b),
            4 => p.move_down(&b, false),
            5 => p.delete_forward(&mut b),
            _ => p.move_left(&b, step % 2 == 0),
        }
        assert!(p.lies_within(&b), "{step}: {:?} in {:?}", p.cursor, b.text());
    }
}

#[test]
fn typing_replaces_the_selection_of_every_caret() {
    let (mut p, mut b) = setup("foo bar baz");
    p.cursor = Cursor { line: 0, col: 3, target_col: 3 };
    p.anchor = Some((0, 0));
    p.secondary = vec![Caret {
        cursor: Cursor { line: 0, col: 8, target_col: 8 },
        anchor: Some((0, 11)),
    }];
    p.insert_char(&mut b, 'x');
    assert_eq!(b.text(), "x bar x");
    assert_eq!((p.cursor.line, p.cursor.col, p.anchor), (0, 1, None));
    let second = &p.secondary[0];
    assert_eq!((second.cursor.line, second.cursor.col, second.anchor), (0, 7, None));
}
