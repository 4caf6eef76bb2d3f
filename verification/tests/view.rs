use vybim::buffer::Buffer;
use vybim::pane::Cursor;
use vybim::style::Rect;
use vybim::view::{scroll_to_show, EditorView};

#[test]
fn view_cursor_inside_viewport_does_not_scroll() {
    assert_eq!(scroll_to_show(10, 12, 20), 10);
}

#[test]
fn view_cursor_above_viewport_scrolls_up_to_cursor() {
    assert_eq!(scroll_to_show(10, 4, 20), 4);
}

#[test]
fn view_cursor_below_viewport_scrolls_just_enough() {
    // viewport shows rows [scroll, scroll+20); cursor at 35 needs scroll 16
    assert_eq!(scroll_to_show(10, 35, 20), 16);
}

#[test]
fn view_zero_viewport_is_a_noop() {
    assert_eq!(scroll_to_show(7, 100, 0), 7);
}

#[test]
fn a_view_shows_the_part_around_its_cursor() {
    let mut view = EditorView::new(Buffer::from_str("one\ntwo\nthree\nfour"));
    let plan = view.render(Rect::new(2, 1, 10, 2));
    assert_eq!(plan.lines, vec!["one", "two"]);
    assert_eq!(plan.cursor, (2, 1));
    view.cursor = Cursor { line: 2, col: 4, target_col: 4 };
    let plan = view.render(Rect::new(2, 1, 3, 2));
    assert_eq!((view.scroll_row, view.scroll_col), (1, 2));
    assert_eq!(plan.lines, vec!["o", "ree"]);
    assert_eq!(plan.cursor, (4, 2));
    // Scrolling again changes nothing.
    view.render(Rect::new(2, 1, 3, 2));
    assert_eq!((view.scroll_row, view.scroll_col), (1, 2));
}
