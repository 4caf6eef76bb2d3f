//! Colors, text styles and screen areas, as plain values.
use vstd::prelude::*;

verus! {

/// A terminal color.
#[derive(Debug, Clone, Copy, PartialEq, Eq, Structural)]
pub enum Color {
    Black,
    Red,
    Green,
    Yellow,
    Blue,
    Magenta,
    Cyan,
    Gray,
    DarkGray,
    LightYellow,
    White,
    Indexed(u8),
    Rgb(u8, u8, u8),
}

/// How a run of text is drawn. A color that is not set leaves what is there.
#[derive(Debug, Clone, Copy, PartialEq, Eq, Structural)]
pub struct Style {
    pub fg: Option<Color>,
    pub bg: Option<Color>,
    pub bold: bool,
    pub italic: bool,
    pub underlined: bool,
    pub reversed: bool,
}

impl Style {
    /// A style that sets nothing.
    pub open spec fn plain() -> Style {
        Style { fg: None, bg: None, bold: false, italic: false, underlined: false, reversed: false }
    }

    /// A style that sets nothing.
    pub fn new() -> (r: Self)
        ensures
            r == Style::plain(),
    {
        Style { fg: None, bg: None, bold: false, italic: false, underlined: false, reversed: false }
    }

    /// With the text color set.
    pub fn fg(self, color: Color) -> (r: Self)
        ensures
            r == (Style { fg: Some(color), ..self }),
    {
        Style { fg: Some(color), ..self }
    }

    /// With the background color set.
    pub fn bg(self, color: Color) -> (r: Self)
        ensures
            r == (Style { bg: Some(color), ..self }),
    {
        Style { bg: Some(color), ..self }
    }
}

/// A run of text in one style.
#[derive(Debug)]
pub struct Run {
    pub text: String,
    pub style: Style,
}

/// A run of text in one style, as a value of the specifications.
#[verifier::ext_equal]
pub struct RunView {
    pub text: Seq<char>,
    pub style: Style,
}

impl View for Run {
    type V = RunView;

    open spec fn view(&self) -> RunView {
        RunView { text: self.text@, style: self.style }
    }
}

/// The runs of a line, as values of the specifications.
pub open spec fn runs_view(runs: Seq<Run>) -> Seq<RunView> {
    runs.map_values(|r: Run| r@)
}

/// A rectangle of screen cells.
#[derive(Debug, Clone, Copy, PartialEq, Eq, Structural)]
pub struct Rect {
    pub x: u16,
    pub y: u16,
    pub width: u16,
    pub height: u16,
}

impl Rect {
    /// The far edges of the rectangle are coordinates too.
    pub open spec fn wf(self) -> bool {
        self.x + self.width <= u16::MAX && self.y + self.height <= u16::MAX
    }

    pub fn new(x: u16, y: u16, width: u16, height: u16) -> (r: Self)
        ensures
            r == (Rect { x, y, width, height }),
    {
        Rect { x, y, width, height }
    }
}

/// The lower sixteen bits of a number.
pub open spec fn low16(n: int) -> u16 {
    (n % 0x10000) as u16
}

/// The lower sixteen bits of a number.
pub fn truncate(n: usize) -> (r: u16)
    ensures
        r == low16(n as int),
{
    (n % 0x10000) as u16
}

} // verus!
