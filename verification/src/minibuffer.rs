//! The minibuffer: a single reusable prompt rendered on the bottom row that
//! collects input for a feature (search, go-to-line, and fuzzy file-find). One
//! prompt is active at a time; the mode decides its label and what its input
//! drives.
use crate::style::{low16, truncate, Rect, Style};
use crate::theme::Theme;
use vstd::prelude::*;

verus! {

/// Which feature the minibuffer is currently driving.
#[derive(Debug, Clone, Copy, PartialEq, Eq, Structural)]
pub enum MiniMode {
    Search,
    GotoLine,
    Files,
}

/// The label of a prompt.
pub open spec fn prompt_label(mode: MiniMode) -> Seq<char> {
    match mode {
        MiniMode::Search => "/"@,
        MiniMode::GotoLine => "Go to line: "@,
        MiniMode::Files => "> "@,
    }
}

#[derive(Debug)]
pub struct Minibuffer {
    /// The fixed label shown before the input (e.g. `/` or `Go to line: `).
    pub prompt: String,
    /// The text the user has typed so far.
    pub input: String,
    pub mode: MiniMode,
}

/// The prompt row as it is drawn: its text, its style, and the screen column of
/// the text cursor.
#[derive(Debug)]
pub struct PromptRow {
    pub text: String,
    pub style: Style,
    pub cursor: u16,
}

impl Minibuffer {
    /// The label before the input.
    pub open spec fn label(self) -> Seq<char> {
        self.prompt@
    }

    pub fn search() -> (r: Self)
        ensures
            r.label() == prompt_label(MiniMode::Search),
            r.input@ == Seq::<char>::empty(),
            r.mode == MiniMode::Search,
    {
        Self { prompt: "/".to_owned(), input: String::new(), mode: MiniMode::Search }
    }

    pub fn goto_line() -> (r: Self)
        ensures
            r.label() == prompt_label(MiniMode::GotoLine),
            r.input@ == Seq::<char>::empty(),
            r.mode == MiniMode::GotoLine,
    {
        Self { prompt: "Go to line: ".to_owned(), input: String::new(), mode: MiniMode::GotoLine }
    }

    pub fn files() -> (r: Self)
        ensures
            r.label() == prompt_label(MiniMode::Files),
            r.input@ == Seq::<char>::empty(),
            r.mode == MiniMode::Files,
    {
        Self { prompt: "> ".to_owned(), input: String::new(), mode: MiniMode::Files }
    }

    pub fn push(&mut self, c: char)
        ensures
            final(self).input@ == old(self).input@.push(c),
            final(self).label() == old(self).label(),
            final(self).mode == old(self).mode,
    {
        self.input.push(c);
    }

    pub fn backspace(&mut self)
        ensures
            final(self).input@ == if old(self).input@.len() > 0 {
                old(self).input@.drop_last()
            } else {
                old(self).input@
            },
            final(self).label() == old(self).label(),
            final(self).mode == old(self).mode,
    {
        let _ = self.input.pop();
    }

    /// `<prompt><input>` as it is drawn across `area`, with the screen column
    /// where the text cursor belongs (just past the input, clamped into the row).
    pub fn render(&self, area: Rect, theme: &Theme) -> (r: PromptRow)
        requires
            area.wf(),
            self.label().len() + self.input@.len() <= usize::MAX,
        ensures
            r.text@ == self.label() + self.input@,
            r.style == (Style {
                bg: Some(theme.prompt_bg),
                fg: Some(theme.text),
                ..Style::plain()
            }),
            ({
                let col = low16((self.label().len() + self.input@.len()) as int);
                let last = if area.width > 0 {
                    area.width - 1
                } else {
                    0
                };
                r.cursor == area.x + if col <= last {
                    col as int
                } else {
                    last
                }
            }),
    {
        let mut text = self.prompt.clone();
        text.append(self.input.as_str());
        let style = Style::new().bg(theme.prompt_bg).fg(theme.text);
        let count: usize = self.prompt.as_str().unicode_len() + self.input.as_str().unicode_len();
        let col: u16 = truncate(count);
        let last: u16 = if area.width > 0 {
            area.width - 1
        } else {
            0
        };
        let shift: u16 = if col <= last {
            col
        } else {
            last
        };
        PromptRow { text, style, cursor: area.x + shift }
    }
}

/// A search is asked for behind a slash, a line behind its name, and a file
/// behind an angle bracket.
pub proof fn prompts_have_labels(mode: MiniMode)
    ensures
        mode == MiniMode::Search ==> prompt_label(mode) == seq!['/'],
        mode == MiniMode::GotoLine ==> prompt_label(mode) == seq![
            'G',
            'o',
            ' ',
            't',
            'o',
            ' ',
            'l',
            'i',
            'n',
            'e',
            ':',
            ' ',
        ],
        mode == MiniMode::Files ==> prompt_label(mode) == seq!['>', ' '],
{
    reveal_strlit("/");
    reveal_strlit("Go to line: ");
    reveal_strlit("> ");
    assert("/"@ =~= seq!['/']);
    assert("Go to line: "@ =~= seq!['G', 'o', ' ', 't', 'o', ' ', 'l', 'i', 'n', 'e', ':', ' ']);
    assert("> "@ =~= seq!['>', ' ']);
}

} // verus!
