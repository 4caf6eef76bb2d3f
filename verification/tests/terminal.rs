use vybim::key::{KeyCode, KeyEvent, KeyModifiers};
use vybim::style::{Color, Rect, Style};
use vybim::terminal_area::TerminalArea;
use vybim::terminal_pane::{
    cell_style, convert_color, key_to_bytes, CellColor, Glyph, TerminalGrid, TerminalPane,
};

const NONE: KeyModifiers = KeyModifiers {
    ctrl: false,
    alt: false,
    shift: false,
};
const CONTROL: KeyModifiers = KeyModifiers {
    ctrl: true,
    alt: false,
    shift: false,
};

/// A terminal area holding `n` terminals.
fn area_with(n: usize) -> TerminalArea {
    let mut area = TerminalArea::new();
    for i in 0..n {
        area.add(TerminalPane::spawn(i));
    }
    area
}

/// A grid that was given some output.
fn grid_of(rows: u16, cols: u16, bytes: &[u8]) -> TerminalGrid {
    let mut grid = TerminalGrid::new(rows, cols);
    assert!(TerminalPane::spawn(0).process(&mut grid, bytes));
    grid
}

/// The rows of a grid as they are drawn.
fn rows_of(grid: &TerminalGrid, width: u16, height: u16) -> Vec<String> {
    let plan = TerminalPane::spawn(0).render(grid, Rect::new(0, 0, width, height), false);
    let text = |runs: &Vec<vybim::style::Run>| runs.iter().map(|r| r.text.as_str()).collect();
    plan.lines.iter().map(text).collect()
}

#[test]
fn key_translation_for_common_keys() {
    let k = |code, mods| KeyEvent::new(code, mods);
    assert_eq!(
        key_to_bytes(k(KeyCode::Char('a'), NONE)),
        Some(b"a".to_vec())
    );
    // Ctrl+C -> ETX (0x03)
    assert_eq!(
        key_to_bytes(k(KeyCode::Char('c'), CONTROL)),
        Some(vec![0x03])
    );
    assert_eq!(
        key_to_bytes(k(KeyCode::Enter, NONE)),
        Some(b"\r".to_vec())
    );
    assert_eq!(
        key_to_bytes(k(KeyCode::Up, NONE)),
        Some(b"\x1b[A".to_vec())
    );
    assert_eq!(
        key_to_bytes(k(KeyCode::Backspace, NONE)),
        Some(vec![0x7f])
    );
}

#[test]
fn every_key_has_its_bytes() {
    let bytes = |code| key_to_bytes(KeyEvent::new(code, NONE));
    assert_eq!(bytes(KeyCode::Tab), Some(b"\t".to_vec()));
    assert_eq!(bytes(KeyCode::Esc), Some(vec![0x1b]));
    assert_eq!(bytes(KeyCode::Left), Some(b"\x1b[D".to_vec()));
    assert_eq!(bytes(KeyCode::Right), Some(b"\x1b[C".to_vec()));
    assert_eq!(bytes(KeyCode::Down), Some(b"\x1b[B".to_vec()));
    assert_eq!(bytes(KeyCode::Home), Some(b"\x1b[H".to_vec()));
    assert_eq!(bytes(KeyCode::End), Some(b"\x1b[F".to_vec()));
    assert_eq!(bytes(KeyCode::PageUp), Some(b"\x1b[5~".to_vec()));
    assert_eq!(bytes(KeyCode::PageDown), Some(b"\x1b[6~".to_vec()));
    assert_eq!(bytes(KeyCode::Delete), Some(b"\x1b[3~".to_vec()));
    assert_eq!(bytes(KeyCode::F(1)), None);
    assert_eq!(bytes(KeyCode::Other), None);
    assert_eq!(bytes(KeyCode::Char('é')), Some(vec![0xc3, 0xa9]));
    assert_eq!(bytes(KeyCode::Char('😀')), Some("😀".as_bytes().to_vec()));
}

#[test]
fn control_characters_cover_letters_and_a_few_signs() {
    let ctrl = |c| key_to_bytes(KeyEvent::new(KeyCode::Char(c), CONTROL));
    assert_eq!(ctrl('a'), Some(vec![0x01]));
    assert_eq!(ctrl('Z'), Some(vec![0x1a]));
    assert_eq!(ctrl('@'), Some(vec![0x00]));
    assert_eq!(ctrl('_'), Some(vec![0x1f]));
    // Other characters are sent as they are.
    assert_eq!(ctrl('1'), Some(b"1".to_vec()));
}

#[test]
fn vt_colors_convert() {
    assert_eq!(convert_color(CellColor::Default), None);
    assert_eq!(convert_color(CellColor::Idx(4)), Some(Color::Indexed(4)));
    assert_eq!(
        convert_color(CellColor::Rgb(1, 2, 3)),
        Some(Color::Rgb(1, 2, 3))
    );
}

#[test]
fn cell_styles_carry_every_attribute() {
    let glyph = Glyph {
        contents: "x".to_string(),
        fg: CellColor::Idx(1),
        bg: CellColor::Rgb(9, 8, 7),
        bold: true,
        italic: false,
        underline: true,
        inverse: false,
    };
    assert_eq!(
        cell_style(&glyph),
        Style {
            fg: Some(Color::Indexed(1)),
            bg: Some(Color::Rgb(9, 8, 7)),
            bold: true,
            italic: false,
            underlined: true,
            reversed: false,
        }
    );
}

#[test]
fn resizing_reports_changes_only() {
    let mut term = TerminalPane::spawn(3);
    assert_eq!((term.id, term.rows, term.cols), (3, 24, 80));
    let mut grid = TerminalGrid::new(term.rows, term.cols);
    assert_eq!(term.resize(&mut grid, 24, 80), None);
    assert_eq!(term.resize(&mut grid, 0, 10), Some((1, 10)));
    assert_eq!(term.resize(&mut grid, 1, 10), None);
    assert_eq!((term.rows, term.cols), (1, 10));
    assert_eq!(grid.cols, 10);
}

#[test]
fn neighbors_with_one_style_are_drawn_as_one_run() {
    let grid = grid_of(2, 8, b"ab\x1b[31mcd\x1b[1;7me");
    let term = TerminalPane::spawn(0);
    let plan = term.render(&grid, Rect::new(5, 6, 8, 2), true);
    assert_eq!(plan.lines.len(), 2);
    let texts: Vec<&str> = plan.lines[0].iter().map(|r| r.text.as_str()).collect();
    assert_eq!(texts, vec!["ab", "cd", "e", "   "]);
    assert_eq!(plan.lines[0][0].style, Style::new());
    assert_eq!(plan.lines[0][1].style, Style::new().fg(Color::Indexed(1)));
    assert!(plan.lines[0][2].style.bold && plan.lines[0][2].style.reversed);
    assert_eq!(plan.lines[1].len(), 1);
    assert_eq!(plan.lines[1][0].text, "        ");
    // The cursor stands after the five characters.
    assert_eq!(plan.cursor, Some((10, 6)));
}

#[test]
fn the_cursor_is_drawn_only_where_it_shows() {
    let grid = grid_of(2, 8, b"ab");
    let term = TerminalPane::spawn(0);
    let area = Rect::new(0, 0, 8, 2);
    assert_eq!(term.render(&grid, area, false).cursor, None);
    let hidden = grid_of(2, 8, b"ab\x1b[?25l");
    assert_eq!(term.render(&hidden, area, true).cursor, None);
}

#[test]
fn cells_past_the_grid_are_spaces() {
    let grid = grid_of(2, 3, b"abc");
    let term = TerminalPane::spawn(0);
    let plan = term.render(&grid, Rect::new(0, 0, 5, 3), false);
    assert_eq!(plan.lines[0][0].text, "abc  ");
    assert_eq!(plan.lines[2][0].text, "     ");
}

/// The keys of a command reach the shell, and what it writes reaches the screen.
/// The shell is stood in for by its output: the echo of the keys, and the
/// command's own.
#[test]
fn shell_command_output_reaches_screen() {
    let mut term = TerminalPane::spawn(0);
    let mut grid = TerminalGrid::new(term.rows, term.cols);
    assert_eq!(term.resize(&mut grid, 24, 80), None);

    let mut sent: Vec<u8> = Vec::new();
    for ch in "echo nyxhello".chars() {
        sent.extend(term.send_key(KeyEvent::new(KeyCode::Char(ch), NONE)).unwrap());
    }
    sent.extend(term.send_key(KeyEvent::new(KeyCode::Enter, NONE)).unwrap());
    assert_eq!(sent, b"echo nyxhello\r");

    assert!(term.process(&mut grid, b"$ "));
    for byte in &sent {
        assert!(term.process(&mut grid, &[*byte]));
    }
    assert!(term.process(&mut grid, b"\nnyxhello\r\n$ "));
    let rows = rows_of(&grid, 80, 24);
    assert_eq!(rows[0].trim_end(), "$ echo nyxhello");
    assert_eq!(rows[1].trim_end(), "nyxhello");
    assert_eq!(rows[2].trim_end(), "$");
}

#[test]
fn output_fills_the_grid_piece_by_piece() {
    let term = TerminalPane::spawn(0);
    let mut grid = TerminalGrid::new(3, 6);
    assert!(term.process(&mut grid, b"$ echo"));
    assert_eq!(rows_of(&grid, 6, 3), vec!["$ echo", "      ", "      "]);
    // An escape sequence, and a character of two bytes, each cut in two.
    assert!(term.process(&mut grid, b"\r\n\x1b[3"));
    assert!(term.process(&mut grid, b"2mh\xc3"));
    assert!(term.process(&mut grid, b"\xa9"));
    assert_eq!(rows_of(&grid, 6, 3), vec!["$ echo", "h\u{e9}    ", "      "]);
    let plan = term.render(&grid, Rect::new(0, 0, 6, 3), true);
    assert_eq!(plan.lines[1][0].style, Style::new().fg(Color::Indexed(2)));
    assert_eq!(plan.cursor, Some((2, 1)));
    // The rows scroll off the top.
    assert!(term.process(&mut grid, b"\r\nx\r\ny"));
    assert_eq!(rows_of(&grid, 6, 3), vec!["h\u{e9}    ", "x     ", "y     "]);
}

#[test]
fn a_grid_takes_ascii_at_every_size_that_fits() {
    let term = TerminalPane::spawn(0);
    let mut grid = grid_of(2, 8, b"ab");
    grid.set_size(2, 7);
    assert!(term.process(&mut grid, b"cd"));
    assert_eq!(rows_of(&grid, 7, 1), vec!["abcd   "]);
    // Too small for a while, without output.
    for (rows, cols) in [(1, 80), (24, 2), (24, 65528), (1, 1)] {
        grid.set_size(rows, cols);
        assert!(!grid.is_ready());
        assert!(!term.process(&mut grid, b"x"));
    }
    grid.set_size(2, 8);
    assert!(term.process(&mut grid, b"\r\nef"));
    assert_eq!(rows_of(&grid, 8, 2)[1], "ef      ");
    // Narrowed with a scroll region, a tab stop and an insertion behind it.
    let mut grid = grid_of(24, 80, b"\x1b[4;20r\x1b[10;79Hxy\x1b7\x1b[?1049hz\tz");
    for (rows, cols) in [(3, 40), (2, 3), (24, 51), (5, 60)] {
        grid.set_size(rows, cols);
        assert!(term.process(&mut grid, b"\x1b8ab\t\x1b[9@\x1b[9P\x1b[L\x1b[M\r\n"));
        assert!(term.process(&mut grid, b"\x1b[?1049l0123456789\x1b[1K\x1bM\x1b[?1049h"));
    }
}

#[test]
fn a_grid_with_other_text_must_not_be_narrowed() {
    let mut term = TerminalPane::spawn(0);
    let mut grid = TerminalGrid::new(term.rows, term.cols);
    assert!(term.process(&mut grid, b"$ "));
    // All was ASCII, so it may shrink.
    assert_eq!(term.resize(&mut grid, 4, 4), Some((4, 4)));
    assert!(term.process(&mut grid, "\r\u{65e5}\u{672c}".as_bytes()));
    assert_eq!(rows_of(&grid, 4, 1), vec!["\u{65e5} \u{672c} "]);
    assert_eq!((grid.wide, grid.ascii), (4, false));
    assert_eq!(term.resize(&mut grid, 2, 6), Some((2, 6)));
    assert!(term.process(&mut grid, b"!\t\x1b[P\x1b[@"));
    assert_eq!(grid.wide, 6);
    // Wider without output, and back.
    assert_eq!(term.resize(&mut grid, 2, 9), Some((2, 9)));
    assert_eq!(term.resize(&mut grid, 1, 6), Some((1, 6)));
    assert!(!term.process(&mut grid, b"x"));
    assert_eq!(term.resize(&mut grid, 2, 6), Some((2, 6)));
    assert!(term.process(&mut grid, b"x"));
    // Narrower: half of a character may be left.
    assert_eq!(term.resize(&mut grid, 2, 5), Some((2, 5)));
    let before = rows_of(&grid, 5, 2);
    assert!(!term.process(&mut grid, b"cd"));
    assert_eq!(rows_of(&grid, 5, 2), before);
    assert_eq!(term.resize(&mut grid, 2, 6), Some((2, 6)));
    assert!(!term.process(&mut grid, b"cd"));
    // The character that is wider than all others.
    let mut small = TerminalGrid::new(2, 3);
    assert!(term.process(&mut small, "a\u{17d8}\u{17d8}".as_bytes()));
}

#[test]
fn a_grid_keeps_count_of_what_it_is_given_elsewhere() {
    let term = TerminalPane::spawn(0);
    let mut grid = TerminalGrid::new(1, 20);
    let bytes = "\u{65e5}".as_bytes();
    assert!(!term.process(&mut grid, bytes));
    grid.grid.parser.process(bytes);
    grid.note_output(bytes);
    assert_eq!((grid.wide, grid.ascii), (20, false));
    assert_eq!(rows_of(&grid, 3, 1), vec!["\u{65e5}  "]);
    grid.set_size(2, 20);
    assert!(term.process(&mut grid, b"x"));
    grid.set_size(2, 19);
    assert!(!term.process(&mut grid, b"x"));
}

#[test]
fn add_makes_active_and_visible() {
    let area = area_with(1);
    assert!(area.is_visible());
    assert_eq!(area.active, 0);
    assert_eq!(area.terminals.len(), 1);
}

#[test]
fn add_second_terminal_makes_it_active() {
    let area = area_with(2);
    assert_eq!(area.active, 1);
}

#[test]
fn cycle_wraps_through_terminals() {
    let mut area = area_with(3);
    assert_eq!(area.active, 2);
    area.cycle_next(); // wraps to 0
    assert_eq!(area.active, 0);
    area.cycle_prev(); // wraps back to 2
    assert_eq!(area.active, 2);
}

#[test]
fn close_active_with_others_picks_an_adjacent() {
    let mut area = area_with(2);
    assert_eq!(area.active, 1);
    let empty = area.close_active();
    assert!(!empty);
    assert!(area.is_visible());
    assert_eq!(area.terminals.len(), 1);
    assert_eq!(area.active, 0);
}

#[test]
fn close_last_hides_the_area() {
    let mut area = area_with(1);
    let empty = area.close_active();
    assert!(empty);
    assert!(!area.is_visible());
    assert!(area.is_empty());
}

#[test]
fn remove_by_id_of_last_hides_the_area() {
    let mut area = area_with(1);
    let id = area.terminals[0].id;
    let empty = area.remove_by_id(id);
    assert!(empty);
    assert!(!area.is_visible());
}

#[test]
fn removing_an_unknown_terminal_changes_nothing() {
    let mut area = area_with(2);
    assert!(!area.remove_by_id(9));
    assert_eq!(area.terminals.len(), 2);
    assert!(area.holds(1));
    assert!(!area.holds(9));
}

#[test]
fn hiding_keeps_the_terminals() {
    let mut area = area_with(2);
    area.cycle_next();
    area.hide_area();
    assert!(!area.is_visible());
    assert_eq!(area.terminals.len(), 2);
    area.show();
    assert!(area.is_visible());
    assert_eq!(area.active, 0);
}

#[test]
fn terminals_are_found_by_id_and_by_being_active() {
    let mut area = area_with(2);
    let mut grid = TerminalGrid::new(24, 80);
    area.find_mut(0).unwrap().resize(&mut grid, 5, 6);
    assert_eq!(area.terminals[0].rows, 5);
    assert!(area.find_mut(7).is_none());
    assert_eq!(area.active_mut().unwrap().id, 1);
    assert!(TerminalArea::new().active_mut().is_none());
}

#[test]
fn tabs_number_the_terminals_and_mark_the_active_one() {
    let area = area_with(2);
    let tabs = area.render_tabs(true);
    assert_eq!(tabs[0].text, " 1 ");
    assert_eq!(tabs[0].style, Style::new().fg(Color::Gray));
    assert_eq!(tabs[1].text, " 2 ");
    assert_eq!(tabs[1].style, Style::new().bg(Color::Blue).fg(Color::White));
    assert_eq!(
        area.render_tabs(false)[1].style,
        Style::new().bg(Color::DarkGray).fg(Color::White)
    );
    let plan = area.render(Rect::new(0, 0, 20, 10), true).unwrap();
    assert_eq!(plan.tabs_area, Rect::new(0, 0, 20, 1));
    assert_eq!(plan.content, Rect::new(0, 1, 20, 9));
    assert!(TerminalArea::new().render(Rect::new(0, 0, 20, 10), true).is_none());
}
