use std::path::PathBuf;
use vybim::buffer::Buffer;
use vybim::pane::{Caret, Cursor, EditorPane};
use vybim::pane_view::{highlight_line, styled_runs};
use vybim::style::{Color, Rect, Run, Style};
use vybim::syntax::{spans_from_events, Event, Syntax};
use vybim::theme::Theme;

fn texts(runs: &[Run]) -> Vec<&str> {
    runs.iter().map(|r| r.text.as_str()).collect()
}

#[test]
fn spans_are_cut_out_and_gaps_stay_plain() {
    let red = Style::new().fg(Color::Red);
    let runs = styled_runs("let é = 1", &vec![(0, 3, red), (4, 6, red)]).unwrap();
    assert_eq!(texts(&runs), vec!["let", " ", "é", " = 1"]);
    assert_eq!(runs[0].style, red);
    assert_eq!(runs[1].style, Style::new());
    assert_eq!(runs[2].style, red);
}

#[test]
fn a_line_without_spans_is_one_run() {
    let runs = styled_runs("plain", &Vec::new()).unwrap();
    assert_eq!(texts(&runs), vec!["plain"]);
    assert_eq!(texts(&highlight_line("plain", None).unwrap()), vec!["plain"]);
}

#[test]
fn spans_that_cut_a_character_are_refused() {
    let red = Style::new().fg(Color::Red);
    assert!(styled_runs("é", &vec![(0, 1, red)]).is_none());
    assert!(styled_runs("ab", &vec![(0, 9, red)]).is_none());
    assert!(styled_runs("ab", &vec![(2, 1, red)]).is_none());
}

#[test]
fn highlighting_keeps_the_text() {
    let syntax = Syntax::for_path(&PathBuf::from("x.rs")).unwrap();
    for line in ["fn main() { let s = \"ä😀\"; } // é", "", "  ", "\"open", "match x {"] {
        let runs = highlight_line(line, Some(&syntax)).unwrap();
        assert_eq!(texts(&runs).concat(), line);
    }
    let runs = highlight_line("fn main", Some(&syntax)).unwrap();
    assert_eq!(runs[0].text, "fn");
    assert_eq!(runs[0].style, Style::new().fg(Color::Magenta));
}

#[test]
fn events_become_spans_of_the_innermost_capture() {
    let a = Style::new().fg(Color::Red);
    let b = Style::new().fg(Color::Blue);
    let styles = vec![a, b];
    let events = vec![
        Some(Event::Source { start: 0, end: 1 }),
        Some(Event::Start(0)),
        Some(Event::Source { start: 1, end: 2 }),
        Some(Event::Start(1)),
        Some(Event::Source { start: 2, end: 3 }),
        Some(Event::End),
        Some(Event::Source { start: 3, end: 4 }),
        Some(Event::Source { start: 4, end: 4 }),
        None,
        Some(Event::Source { start: 4, end: 5 }),
    ];
    assert_eq!(
        spans_from_events(&events, &styles),
        vec![(1, 2, a), (2, 3, b), (3, 4, a)]
    );
}

#[test]
fn content_has_numbers_lines_and_the_cursor() {
    let theme = Theme::default();
    let buffer = Buffer::from_str("one\ntwo\nthree");
    let mut pane = EditorPane::new(0);
    pane.set_cursor(&buffer, 1, 2);
    let plan = pane.render(Rect::new(10, 5, 20, 4), &buffer, None, true, &theme, None);
    let content = plan.content;
    assert_eq!(plan.content_area, Rect::new(10, 5, 20, 3));
    assert_eq!(content.gutter, Rect::new(10, 5, 4, 3));
    assert_eq!(content.content, Rect::new(14, 5, 16, 3));
    assert_eq!(texts(&content.numbers), vec!["  1 ", "  2 ", "  3 "]);
    assert_eq!(content.numbers[0].style, Style::new().fg(theme.text_muted));
    assert_eq!(content.numbers[1].style, Style::new().fg(theme.text));
    let lines: Vec<String> = content
        .lines
        .iter()
        .map(|l| texts(l.as_ref().unwrap()).concat())
        .collect();
    assert_eq!(lines, vec!["one", "two", "three"]);
    assert_eq!(content.current_line, Some(Rect::new(10, 6, 20, 1)));
    assert_eq!(content.cursor, Some((16, 6)));
    assert_eq!(pane.cursor_screen(), Some((16, 6)));
    assert_eq!(pane.last_height, 3);
    assert_eq!(plan.status_area, Rect::new(10, 8, 20, 1));
    assert_eq!(plan.status.text, " [No Name]    Ln 2, Col 3 ");
}

#[test]
fn an_unfocused_pane_has_no_cursor_and_no_tint() {
    let theme = Theme::default();
    let buffer = Buffer::from_str("one");
    let mut pane = EditorPane::new(0);
    let plan = pane.render(Rect::new(0, 0, 20, 4), &buffer, None, false, &theme, None);
    assert_eq!(plan.content.cursor, None);
    assert_eq!(plan.content.current_line, None);
    assert_eq!(pane.cursor_screen(), None);
    assert_eq!(plan.content.numbers[0].style, Style::new().fg(theme.text_muted));
    assert_eq!(plan.status.style, Style::new().bg(Color::DarkGray).fg(Color::Gray));
}

#[test]
fn drawing_scrolls_to_the_cursor() {
    let theme = Theme::default();
    let buffer = Buffer::from_str("aaaaaaaaaa\nb\nc\nd\ne");
    let mut pane = EditorPane::new(0);
    pane.set_cursor(&buffer, 4, 0);
    pane.render(Rect::new(0, 0, 9, 3), &buffer, None, true, &theme, None);
    assert_eq!(pane.scroll_row, 3);
    pane.set_cursor(&buffer, 0, 9);
    let plan = pane.render(Rect::new(0, 0, 9, 3), &buffer, None, true, &theme, None);
    assert_eq!((pane.scroll_row, pane.scroll_col), (0, 5));
    assert_eq!(texts(plan.content.lines[0].as_ref().unwrap()), vec!["aaaaa"]);
    assert_eq!(texts(plan.content.lines[1].as_ref().unwrap()), vec![""]);
}

#[test]
fn selections_cover_newlines_and_are_cut_at_the_edge() {
    let theme = Theme::default();
    let buffer = Buffer::from_str("abcdef\nxy\nlast");
    let mut pane = EditorPane::new(0);
    pane.set_cursor(&buffer, 0, 4);
    pane.move_down(&buffer, true);
    pane.move_down(&buffer, true);
    let area = Rect::new(0, 0, 8, 4);
    let plan = pane.render(area, &buffer, None, true, &theme, None);
    // From (0, 4) to (2, 4), in a region four columns wide that is scrolled by
    // one column: the first line is cut at the edge, the second one covers its
    // newline, the last one ends at the cursor.
    assert_eq!(pane.scroll_col, 1);
    assert_eq!(
        plan.content.selections,
        vec![
            Rect::new(7, 0, 1, 1),
            Rect::new(4, 1, 2, 1),
            Rect::new(4, 2, 3, 1)
        ]
    );
}

#[test]
fn secondary_carets_are_reversed_cells() {
    let theme = Theme::default();
    let buffer = Buffer::from_str("abc\nabc");
    let mut pane = EditorPane::new(0);
    for (line, col) in [(1, 2), (0, 30), (9, 0)] {
        pane.secondary.push(Caret {
            cursor: Cursor {
                line,
                col,
                target_col: col,
            },
            anchor: None,
        });
    }
    let plan = pane.render(Rect::new(0, 0, 20, 4), &buffer, None, true, &theme, None);
    // The others lie outside of the region.
    assert_eq!(plan.content.carets, vec![Rect::new(6, 1, 1, 1)]);
}

#[test]
fn the_status_bar_says_everything() {
    let theme = Theme::default();
    let mut buffer = Buffer::from_path(PathBuf::from("src/a.rs"), "ab");
    let mut pane = EditorPane::new(0);
    pane.insert_char(&mut buffer, 'x');
    pane.move_right(&buffer, true);
    let status = pane.render_status(&buffer, true, &theme, Some("LSP: ready"));
    assert_eq!(
        status.text,
        " src/a.rs [+]  SEL    Ln 1, Col 3    LSP: ready "
    );
    assert_eq!(status.style, Style::new().bg(Color::Blue).fg(Color::White));
}
