//! The UI theme: a single source of truth for every chrome color.
//!
//! The [`Theme`] gathers **semantic tokens** named for their role (text, border,
//! selection, …) rather than their concrete color, so the whole editor can be
//! reskinned by changing one place.
//!
//! Scope: this owns *UI chrome* only. Syntax-highlight colors and terminal
//! content colors are separate color spaces and are intentionally left out.
use crate::style::{Color, Style};
use vstd::prelude::*;

verus! {

/// How the border of a block is drawn.
#[derive(Debug, Clone, Copy, PartialEq, Eq, Structural)]
pub enum BorderType {
    Plain,
    Rounded,
}

/// Semantic UI color tokens. Each field names a *role*; the concrete colors live
/// only in [`Theme::default`].
#[derive(Debug, Clone, Copy, PartialEq, Eq, Structural)]
pub struct Theme {
    /// Primary foreground text (buffer text, focused line number).
    pub text: Color,
    /// Muted foreground: borders-as-text, hints, placeholders, unfocused gutter.
    pub text_muted: Color,
    /// Accent for titles, group headers, and active markers.
    pub accent: Color,
    /// Block borders and inter-region dividers.
    pub border: Color,
    /// Background of the line the cursor is on.
    pub cursor_line: Color,
    /// Background of selected *editor text* (distinct from a selected list row).
    pub selection: Color,
    /// Foreground of a selected row in a *focused* region.
    pub focus_fg: Color,
    /// Background of a selected row in a *focused* region (the primary highlight;
    /// also used for the focused modal/help border).
    pub focus_bg: Color,
    /// Foreground of a selected row / muted list item in an *unfocused* region.
    pub inactive_fg: Color,
    /// Background of a selected row in an *unfocused* region, and of chrome
    /// surfaces such as the footer.
    pub inactive_bg: Color,
    /// Background of the minibuffer prompt row.
    pub prompt_bg: Color,
    /// Added line: foreground / background.
    pub diff_add_fg: Color,
    pub diff_add_bg: Color,
    /// Deleted line: foreground / background.
    pub diff_del_fg: Color,
    pub diff_del_bg: Color,
    /// The empty opposite side of a diff change.
    pub diff_gap_bg: Color,
}

impl Default for Theme {
    /// The default theme.
    fn default() -> (r: Self)
        ensures
            r.text == Color::White,
            r.text_muted == Color::DarkGray,
            r.accent == Color::Yellow,
            r.border == Color::DarkGray,
            r.cursor_line == Color::Indexed(236),
            r.selection == Color::Indexed(24),
            r.focus_fg == Color::White,
            r.focus_bg == Color::Blue,
            r.inactive_fg == Color::Gray,
            r.inactive_bg == Color::DarkGray,
            r.prompt_bg == Color::Black,
            r.diff_add_fg == Color::Green,
            r.diff_add_bg == Color::Indexed(22),
            r.diff_del_fg == Color::Red,
            r.diff_del_bg == Color::Indexed(52),
            r.diff_gap_bg == Color::Indexed(235),
    {
        Self {
            text: Color::White,
            text_muted: Color::DarkGray,
            accent: Color::Yellow,
            border: Color::DarkGray,
            cursor_line: Color::Indexed(236),
            selection: Color::Indexed(24),
            focus_fg: Color::White,
            focus_bg: Color::Blue,
            inactive_fg: Color::Gray,
            inactive_bg: Color::DarkGray,
            prompt_bg: Color::Black,
            diff_add_fg: Color::Green,
            diff_add_bg: Color::Indexed(22),
            diff_del_fg: Color::Red,
            diff_del_bg: Color::Indexed(52),
            diff_gap_bg: Color::Indexed(235),
        }
    }
}

impl Theme {
    /// The style of a selected row: the focus colors in a focused region, the
    /// inactive colors elsewhere.
    pub open spec fn row_style(self, focused: bool) -> Style {
        if focused {
            Style { bg: Some(self.focus_bg), fg: Some(self.focus_fg), ..Style::plain() }
        } else {
            Style { bg: Some(self.inactive_bg), fg: Some(self.inactive_fg), ..Style::plain() }
        }
    }

    /// Border style for bordered blocks. A single themed choice so the whole
    /// editor's border look (square vs rounded) lives in one place.
    pub fn border_type(&self) -> (r: BorderType)
        ensures
            r == BorderType::Plain,
    {
        BorderType::Plain
    }

    /// Style for a selected row whose region's focus state is `focused`. Collapses
    /// the focused-vs-inactive selection rule into one place.
    pub fn list_row(&self, focused: bool) -> (r: Style)
        ensures
            r == self.row_style(focused),
    {
        if focused {
            Style::new().bg(self.focus_bg).fg(self.focus_fg)
        } else {
            Style::new().bg(self.inactive_bg).fg(self.inactive_fg)
        }
    }
}

/// A selected row has the colors of the focus where its region has it, and the
/// inactive ones elsewhere.
pub proof fn rows_show_the_focus(theme: Theme)
    ensures
        theme.row_style(true).bg == Some(theme.focus_bg),
        theme.row_style(true).fg == Some(theme.focus_fg),
        theme.row_style(false).bg == Some(theme.inactive_bg),
        theme.row_style(false).fg == Some(theme.inactive_fg),
{
}

} // verus!
