use vybim::chrome::{
    bindings, centered_rect, compact_keys, divide, help_text, render_footer,
    render_help_overlay, SIDEBAR_WIDTH, TERMINAL_AREA_WIDTH,
};
use vybim::layout::inside_border;
use vybim::minibuffer::Minibuffer;
use vybim::style::{Color, Rect, Style};
use vybim::theme::{BorderType, Theme};

#[test]
fn keys_are_compacted_for_the_footer() {
    assert_eq!(compact_keys("Ctrl+Q"), "^Q");
    assert_eq!(compact_keys("Alt+Left / Alt+Right"), "M-Left / M-Right");
    assert_eq!(compact_keys("Ctrl+Alt+X"), "^M-X");
    assert_eq!(compact_keys("F1"), "F1");
}

#[test]
fn the_footer_hints_at_the_core_chords() {
    let footer = render_footer();
    assert_eq!(
        footer.text,
        "  ^Q quit   ^B sidebar   ^J term   F1 help   ^S save   ^E split   ^W close "
    );
    assert_eq!(footer.style, Style::new().bg(Color::DarkGray).fg(Color::White));
}

#[test]
fn the_help_lists_every_binding_under_its_group() {
    let lines = help_text();
    let all = bindings();
    assert_eq!(all.len(), 19);
    assert_eq!(lines[0].text, "Global");
    assert_eq!(lines[0].style, Style::new().fg(Color::Yellow));
    assert_eq!(lines[1].text, "  Ctrl+Q                 Quit");
    assert_eq!(lines[5].text, "");
    assert_eq!(lines[6].text, "Editor");
    for b in &all {
        assert!(lines.iter().any(|l| l.text.ends_with(b.action)), "{}", b.action);
    }
    // Bindings, four groups, the gaps before three of them, and the last hint.
    assert_eq!(lines.len(), 19 + 4 + 3 + 2);
    assert_eq!(lines[lines.len() - 1].text, "  Esc or F1 to close");
}

#[test]
fn the_help_is_centered_and_clamped() {
    let plan = render_help_overlay(Rect::new(0, 0, 80, 40));
    assert_eq!(plan.area, Rect::new(14, 5, 52, 30));
    assert_eq!(plan.title, " NyxVim — Keybindings ");
    assert_eq!(plan.border, Style::new().fg(Color::Blue));
    let small = render_help_overlay(Rect::new(3, 2, 20, 10));
    assert_eq!(small.area, Rect::new(3, 2, 20, 10));
    assert_eq!(
        centered_rect(Rect::new(10, 10, 11, 7), 4, 4),
        Rect::new(13, 11, 4, 4)
    );
}

#[test]
fn panes_share_the_width_with_dividers_between() {
    let regions = divide(Rect::new(0, 0, 101, 20), false, false, 2);
    assert_eq!(
        regions.panes,
        vec![Rect::new(0, 0, 50, 19), Rect::new(51, 0, 50, 19)]
    );
    assert_eq!(regions.dividers, vec![Rect::new(50, 0, 1, 19)]);
    assert_eq!((SIDEBAR_WIDTH, TERMINAL_AREA_WIDTH), (28, 60));
}

#[test]
fn a_border_takes_one_cell_on_each_side() {
    assert_eq!(inside_border(Rect::new(2, 3, 10, 5)), Rect::new(3, 4, 8, 3));
    assert_eq!(inside_border(Rect::new(2, 3, 1, 0)), Rect::new(3, 3, 0, 0));
}

#[test]
fn the_prompt_row_follows_its_input() {
    let theme = Theme::default();
    let mut mini = Minibuffer::goto_line();
    mini.push('4');
    mini.push('2');
    let row = mini.render(Rect::new(5, 9, 40, 1), &theme);
    assert_eq!(row.text, "Go to line: 42");
    assert_eq!(row.cursor, 19);
    assert_eq!(row.style, Style::new().bg(Color::Black).fg(Color::White));
    mini.backspace();
    assert_eq!(mini.input, "4");
    // The cursor stays inside a narrow row.
    assert_eq!(mini.render(Rect::new(5, 9, 6, 1), &theme).cursor, 10);
    assert_eq!(Minibuffer::search().render(Rect::new(0, 0, 9, 1), &theme).text, "/");
    assert_eq!(Minibuffer::files().render(Rect::new(0, 0, 9, 1), &theme).text, "> ");
    // A row without cells keeps its cursor at the edge.
    assert_eq!(mini.render(Rect::new(5, 9, 0, 1), &theme).cursor, 5);
}

#[test]
fn the_theme_has_one_rule_for_selected_rows() {
    let theme = Theme::default();
    assert_eq!(theme.border_type(), BorderType::Plain);
    assert_eq!(theme.list_row(true), Style::new().bg(Color::Blue).fg(Color::White));
    assert_eq!(
        theme.list_row(false),
        Style::new().bg(Color::DarkGray).fg(Color::Gray)
    );
}
