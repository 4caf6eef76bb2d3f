//! An integrated terminal pane: the grid that a shell's output fills, the bytes
//! that its keys send to the shell, and how its grid is drawn.
//!
//! The shell and its pseudo-terminal belong to the caller, which hands in the
//! bytes that the shell writes.
use crate::key::{KeyCode, KeyEvent};
use crate::style::{low16, runs_view, truncate, Color, Rect, Run, RunView, Style};
use vstd::prelude::*;
use vstd::utf8::encode_utf8;

verus! {

// ---------------------------------------------------------------------------
// The grid.

/// A `vt100::Parser`: the cells of a terminal, and the state of the parser that
/// reads the shell's output. Seen from outside it is its history: the sizes and
/// the output that it was given, here or by way of `parser`.
#[verifier::external_body]
pub struct Grid {
    pub parser: vt100::Parser,
}

/// What is done to a grid: it is given a size, or some of the shell's output.
pub enum GridStep {
    Size(u16, u16),
    Output(Seq<u8>),
}

/// What was done to a grid, from the size that it was made with on.
pub uninterp spec fn grid_steps(grid: Grid) -> Seq<GridStep>;

/// The color of a cell.
#[derive(Debug, Clone, Copy, PartialEq, Eq, Structural)]
pub enum CellColor {
    Default,
    Idx(u8),
    Rgb(u8, u8, u8),
}

/// What a cell shows.
#[derive(Debug)]
pub struct Glyph {
    pub contents: String,
    pub fg: CellColor,
    pub bg: CellColor,
    pub bold: bool,
    pub italic: bool,
    pub underline: bool,
    pub inverse: bool,
}

/// What a cell shows, as a value of the specifications.
#[verifier::ext_equal]
pub struct GlyphView {
    pub contents: Seq<char>,
    pub fg: CellColor,
    pub bg: CellColor,
    pub bold: bool,
    pub italic: bool,
    pub underline: bool,
    pub inverse: bool,
}

impl View for Glyph {
    type V = GlyphView;

    open spec fn view(&self) -> GlyphView {
        GlyphView {
            contents: self.contents@,
            fg: self.fg,
            bg: self.bg,
            bold: self.bold,
            italic: self.italic,
            underline: self.underline,
            inverse: self.inverse,
        }
    }
}

/// What the cell of a grid with a history shows at a row and column, if there
/// is one.
pub uninterp spec fn cell_after(steps: Seq<GridStep>, row: u16, col: u16) -> Option<GlyphView>;

/// The row and column of the cursor of a grid with a history.
pub uninterp spec fn cursor_after(steps: Seq<GridStep>) -> (u16, u16);

/// Whether a grid with a history hides its cursor.
pub uninterp spec fn hidden_after(steps: Seq<GridStep>) -> bool;

/// The value of an optional cell.
pub open spec fn glyph_view(g: Option<Glyph>) -> Option<GlyphView> {
    match g {
        Some(g) => Some(g@),
        None => None,
    }
}

/// `Parser::new`: an empty grid with a size. Rows that scroll off the top are
/// kept up to `scrollback`; as nothing scrolls back to them, the cells do not
/// depend on it. A grid without a row panics.
#[verifier::external_body]
fn new_grid(rows: u16, cols: u16, scrollback: usize) -> (r: Grid)
    requires
        rows >= 1,
        cols >= 1,
    ensures
        grid_steps(r) == seq![GridStep::Size(rows, cols)],
{
    Grid { parser: vt100::Parser::new(rows, cols, scrollback) }
}

/// `Screen::set_size`: gives a grid another size. One without a row or a column
/// panics.
#[verifier::external_body]
fn set_grid_size(grid: &mut Grid, rows: u16, cols: u16)
    requires
        rows >= 1,
        cols >= 1,
    ensures
        grid_steps(*final(grid)) == grid_steps(*old(grid)).push(GridStep::Size(rows, cols)),
{
    grid.parser.screen_mut().set_size(rows, cols)
}

/// `Parser::process`: reads some of the shell's output into a grid. On some
/// output it panics in a grid that is too small (see [`fits`]), and in one that
/// was made so narrow that it may have cut a wide character in two. A grid that
/// is ready for output is neither.
#[verifier::external_body]
fn feed(grid: &mut Grid, bytes: &[u8])
    requires
        ready(grid_steps(*old(grid))),
    ensures
        grid_steps(*final(grid)) == grid_steps(*old(grid)).push(GridStep::Output(bytes@)),
{
    grid.parser.process(bytes)
}

/// `Screen::cell`: what the cell at a row and column shows, if there is one.
#[verifier::external_body]
fn cell(grid: &Grid, row: u16, col: u16) -> (r: Option<Glyph>)
    ensures
        glyph_view(r) == cell_after(grid_steps(*grid), row, col),
{
    let c = grid.parser.screen().cell(row, col)?;
    let color = |c| match c {
        vt100::Color::Default => CellColor::Default,
        vt100::Color::Idx(i) => CellColor::Idx(i),
        vt100::Color::Rgb(r, g, b) => CellColor::Rgb(r, g, b),
    };
    let (fg, bg) = (color(c.fgcolor()), color(c.bgcolor()));
    let (bold, italic) = (c.bold(), c.italic());
    let (underline, inverse) = (c.underline(), c.inverse());
    Some(Glyph { contents: c.contents().to_string(), fg, bg, bold, italic, underline, inverse })
}

/// `Screen::cursor_position`: the row and column of the cursor.
#[verifier::external_body]
fn cursor_position(grid: &Grid) -> (r: (u16, u16))
    ensures
        r == cursor_after(grid_steps(*grid)),
{
    grid.parser.screen().cursor_position()
}

/// `Screen::hide_cursor`: whether the cursor is hidden.
#[verifier::external_body]
fn hide_cursor(grid: &Grid) -> (r: bool)
    ensures
        r == hidden_after(grid_steps(*grid)),
{
    grid.parser.screen().hide_cursor()
}

// ---------------------------------------------------------------------------
// Histories.

/// Whether a grid of this size takes any output: a line can wrap to another
/// row, the widest character, of three columns, fits into a row, and the tab
/// stop after the last column has a number.
pub open spec fn fits(rows: u16, cols: u16) -> bool {
    rows >= 2 && 3 <= cols <= 65527
}

/// The rows and columns of a grid with a history.
pub open spec fn size_after(steps: Seq<GridStep>) -> (u16, u16)
    decreases steps.len(),
{
    if steps.len() == 0 {
        (0, 0)
    } else {
        match steps.last() {
            GridStep::Size(rows, cols) => (rows, cols),
            GridStep::Output(_) => size_after(steps.drop_last()),
        }
    }
}

/// Whether some output is ASCII: it then draws no wide character.
pub open spec fn is_ascii(bytes: Seq<u8>) -> bool {
    forall|i: int| 0 <= i < bytes.len() ==> (#[trigger] bytes[i]) < 0x80
}

/// Whether all output in a history is ASCII.
pub open spec fn ascii_so_far(steps: Seq<GridStep>) -> bool
    decreases steps.len(),
{
    steps.len() > 0 ==> {
        &&& ascii_so_far(steps.drop_last())
        &&& steps.last() matches GridStep::Output(bytes) ==> is_ascii(bytes)
    }
}

/// How many columns of a grid with a history may hold wide characters: the most
/// that it had when it was given output, from the first output on that is not
/// ASCII.
pub open spec fn wide_cols(steps: Seq<GridStep>) -> u16
    decreases steps.len(),
{
    if steps.len() == 0 {
        0
    } else {
        let before = steps.drop_last();
        match steps.last() {
            GridStep::Size(_, _) => wide_cols(before),
            GridStep::Output(_) => if !ascii_so_far(steps) && wide_cols(before) < size_after(
                before,
            ).1 {
                size_after(before).1
            } else {
                wide_cols(before)
            },
        }
    }
}

/// Whether no size in a history was too narrow for the wide characters that the
/// grid may have held.
pub open spec fn uncut(steps: Seq<GridStep>) -> bool
    decreases steps.len(),
{
    steps.len() > 0 ==> {
        let before = steps.drop_last();
        &&& uncut(before)
        &&& steps.last() matches GridStep::Size(_, cols) ==> wide_cols(before) <= cols
    }
}

/// Whether a grid with a history takes any output: it has a size that fits, and
/// no wide character was cut in two.
pub open spec fn ready(steps: Seq<GridStep>) -> bool {
    fits(size_after(steps).0, size_after(steps).1) && uncut(steps)
}

fn all_ascii(bytes: &[u8]) -> (r: bool)
    ensures
        r == is_ascii(bytes@),
{
    let mut i: usize = 0;
    while i < bytes.len()
        invariant
            i <= bytes@.len(),
            forall|k: int| 0 <= k < i ==> (#[trigger] bytes@[k]) < 0x80,
        decreases bytes@.len() - i,
    {
        if bytes[i] >= 0x80 {
            return false;
        }
        i += 1;
    }
    true
}

/// A grid, and what its history says of its size and of the wide characters that
/// it may hold.
pub struct TerminalGrid {
    pub grid: Grid,
    pub rows: u16,
    pub cols: u16,
    /// Whether all output was ASCII.
    pub ascii: bool,
    /// How many columns may hold wide characters.
    pub wide: u16,
    /// Whether none of them was cut in two.
    pub uncut: bool,
}

impl TerminalGrid {
    /// What was done to the grid.
    pub open spec fn steps(&self) -> Seq<GridStep> {
        grid_steps(self.grid)
    }

    /// Whether the numbers are those of a history.
    pub open spec fn tells_of(&self, steps: Seq<GridStep>) -> bool {
        &&& (self.rows, self.cols) == size_after(steps)
        &&& self.ascii == ascii_so_far(steps)
        &&& self.wide == wide_cols(steps)
        &&& self.uncut == uncut(steps)
    }

    /// The numbers are those of the history.
    pub open spec fn wf(&self) -> bool {
        self.tells_of(self.steps())
    }

    /// An empty grid with a size.
    pub fn new(rows: u16, cols: u16) -> (r: TerminalGrid)
        requires
            rows >= 1,
            cols >= 1,
        ensures
            r.wf(),
            r.steps() == seq![GridStep::Size(rows, cols)],
    {
        let grid = new_grid(rows, cols, 0);
        proof {
            assert(grid_steps(grid).drop_last() =~= Seq::<GridStep>::empty());
            reveal_with_fuel(wide_cols, 2);
            reveal_with_fuel(ascii_so_far, 2);
            reveal_with_fuel(uncut, 2);
        }
        TerminalGrid { grid, rows, cols, ascii: true, wide: 0, uncut: true }
    }

    /// Gives the grid another size.
    pub fn set_size(&mut self, rows: u16, cols: u16)
        requires
            old(self).wf(),
            rows >= 1,
            cols >= 1,
        ensures
            final(self).wf(),
            final(self).steps() == old(self).steps().push(GridStep::Size(rows, cols)),
    {
        let ghost before = self.steps();
        set_grid_size(&mut self.grid, rows, cols);
        self.rows = rows;
        self.cols = cols;
        self.uncut = self.uncut && self.wide <= cols;
        assert(self.steps().drop_last() =~= before);
    }

    /// Whether the grid takes any output.
    pub fn is_ready(&self) -> (r: bool)
        requires
            self.wf(),
        ensures
            r == ready(self.steps()),
    {
        self.rows >= 2 && 3 <= self.cols && self.cols <= 65527 && self.uncut
    }

    /// Takes down that the grid was given some output, which the numbers do not
    /// tell of yet.
    pub fn note_output(&mut self, bytes: &[u8])
        requires
            old(self).steps().len() > 0,
            old(self).steps().last() == GridStep::Output(bytes@),
            old(self).tells_of(old(self).steps().drop_last()),
        ensures
            final(self).wf(),
            final(self).grid == old(self).grid,
    {
        self.ascii = self.ascii && all_ascii(bytes);
        if !self.ascii && self.wide < self.cols {
            self.wide = self.cols;
        }
    }
}

// ---------------------------------------------------------------------------
// Cells.

/// The color to draw a cell's color with: none for the default.
pub open spec fn drawn_color(color: CellColor) -> Option<Color> {
    match color {
        CellColor::Default => None,
        CellColor::Idx(i) => Some(Color::Indexed(i)),
        CellColor::Rgb(r, g, b) => Some(Color::Rgb(r, g, b)),
    }
}

pub fn convert_color(color: CellColor) -> (r: Option<Color>)
    ensures
        r == drawn_color(color),
{
    match color {
        CellColor::Default => None,
        CellColor::Idx(i) => Some(Color::Indexed(i)),
        CellColor::Rgb(r, g, b) => Some(Color::Rgb(r, g, b)),
    }
}

/// The style of a cell.
pub open spec fn glyph_style(g: GlyphView) -> Style {
    Style {
        fg: drawn_color(g.fg),
        bg: drawn_color(g.bg),
        bold: g.bold,
        italic: g.italic,
        underlined: g.underline,
        reversed: g.inverse,
    }
}

pub fn cell_style(cell: &Glyph) -> (r: Style)
    ensures
        r == glyph_style(cell@),
{
    Style {
        fg: convert_color(cell.fg),
        bg: convert_color(cell.bg),
        bold: cell.bold,
        italic: cell.italic,
        underlined: cell.underline,
        reversed: cell.inverse,
    }
}

/// How a cell is drawn: an empty cell, or one that is not there, as a space.
pub open spec fn drawn_cell(g: Option<GlyphView>) -> RunView {
    match g {
        Some(g) => RunView {
            text: if g.contents.len() == 0 {
                " "@
            } else {
                g.contents
            },
            style: glyph_style(g),
        },
        None => RunView { text: " "@, style: Style::plain() },
    }
}

/// Some runs and one more piece: added to the last run where that has its
/// style, and a run of its own otherwise.
pub open spec fn joined(runs: Seq<RunView>, piece: RunView) -> Seq<RunView> {
    if runs.len() > 0 && runs.last().style == piece.style {
        runs.drop_last().push(
            RunView { text: runs.last().text + piece.text, style: piece.style },
        )
    } else {
        runs.push(piece)
    }
}

/// The first `cols` cells of a row of a grid as runs, neighbors with the same
/// style in one.
pub open spec fn row_runs(steps: Seq<GridStep>, row: u16, cols: int) -> Seq<RunView>
    decreases cols,
{
    if cols <= 0 {
        Seq::empty()
    } else {
        joined(
            row_runs(steps, row, cols - 1),
            drawn_cell(cell_after(steps, row, (cols - 1) as u16)),
        )
    }
}

/// How a terminal's grid is drawn: its rows, and where the hardware cursor goes.
#[derive(Debug)]
pub struct TerminalPlan {
    pub lines: Vec<Vec<Run>>,
    pub cursor: Option<(u16, u16)>,
}

fn draw_cell(grid: &Grid, row: u16, col: u16) -> (r: Run)
    ensures
        r@ == drawn_cell(cell_after(grid_steps(*grid), row, col)),
{
    match cell(grid, row, col) {
        Some(g) => {
            let style = cell_style(&g);
            if g.contents.as_str().unicode_len() == 0 {
                Run { text: " ".to_owned(), style }
            } else {
                Run { text: g.contents, style }
            }
        },
        None => Run { text: " ".to_owned(), style: Style::new() },
    }
}

/// The cells of a row as runs.
fn draw_row(grid: &Grid, row: u16, width: u16) -> (r: Vec<Run>)
    ensures
        runs_view(r@) == row_runs(grid_steps(*grid), row, width as int),
{
    let mut runs: Vec<Run> = Vec::new();
    let mut col: u16 = 0;
    assert(runs_view(runs@) =~= row_runs(grid_steps(*grid), row, 0));
    while col < width
        invariant
            col <= width,
            runs_view(runs@) == row_runs(grid_steps(*grid), row, col as int),
        decreases width - col,
    {
        let piece = draw_cell(grid, row, col);
        let ghost before = runs_view(runs@);
        let ghost list = runs@;
        assert(before.len() == list.len());
        let count: usize = runs.len();
        if count > 0 && runs[count - 1].style == piece.style {
            let mut last = runs.pop().unwrap();
            assert(last@ == before.last());
            last.text.append(piece.text.as_str());
            runs.push(last);
            assert(runs_view(runs@) =~= joined(before, piece@));
        } else {
            assert(count > 0 ==> before.last() == list.last()@);
            runs.push(piece);
            assert(runs_view(runs@) =~= joined(before, piece@));
        }
        col += 1;
    }
    runs
}

// ---------------------------------------------------------------------------
// The pane.

/// A terminal's number and the size of its grid.
#[derive(Debug, Clone, Copy, PartialEq, Eq, Structural)]
pub struct TerminalPane {
    pub id: usize,
    pub rows: u16,
    pub cols: u16,
}

/// An extent of at least one cell.
pub open spec fn at_least_one(n: u16) -> u16 {
    if n == 0 {
        1
    } else {
        n
    }
}

impl TerminalPane {
    /// A terminal as it is spawned: 24 rows of 80 columns.
    pub fn spawn(id: usize) -> (r: TerminalPane)
        ensures
            r == (TerminalPane { id, rows: 24, cols: 80 }),
    {
        TerminalPane { id, rows: 24, cols: 80 }
    }

    /// Feed raw shell output into the terminal grid. Returns whether the grid
    /// took it: one that is too small, or that may hold half of a wide character,
    /// is left as it is.
    pub fn process(&self, grid: &mut TerminalGrid, bytes: &[u8]) -> (r: bool)
        requires
            old(grid).wf(),
        ensures
            final(grid).wf(),
            r == ready(old(grid).steps()),
            r ==> final(grid).steps() == old(grid).steps().push(GridStep::Output(bytes@)),
            !r ==> *final(grid) == *old(grid),
    {
        if !grid.is_ready() {
            return false;
        }
        let ghost before = grid.steps();
        feed(&mut grid.grid, bytes);
        assert(grid.steps().drop_last() =~= before);
        grid.note_output(bytes);
        true
    }

    /// Match the size to a pane region, if it changed. Returns the size that the
    /// pseudo-terminal is to be given, or `None` where it has it already.
    /// Neither extent is ever zero.
    pub fn resize(&mut self, grid: &mut TerminalGrid, rows: u16, cols: u16) -> (r: Option<
        (u16, u16),
    >)
        requires
            old(grid).wf(),
        ensures
            final(grid).wf(),
            *final(self) == (TerminalPane {
                rows: at_least_one(rows),
                cols: at_least_one(cols),
                ..*old(self)
            }),
            r == if old(self).rows == at_least_one(rows) && old(self).cols == at_least_one(cols) {
                None
            } else {
                Some((at_least_one(rows), at_least_one(cols)))
            },
            match r {
                Some(size) => final(grid).steps() == old(grid).steps().push(
                    GridStep::Size(size.0, size.1),
                ),
                None => *final(grid) == *old(grid),
            },
    {
        let rows: u16 = if rows == 0 {
            1
        } else {
            rows
        };
        let cols: u16 = if cols == 0 {
            1
        } else {
            cols
        };
        if rows == self.rows && cols == self.cols {
            return None;
        }
        self.rows = rows;
        self.cols = cols;
        grid.set_size(rows, cols);
        Some((rows, cols))
    }

    /// Translate a key press into the bytes to send to the shell.
    pub fn send_key(&self, key: KeyEvent) -> (r: Option<Vec<u8>>)
        ensures
            crate::paths::bytes_view(r) == input_bytes(key),
    {
        key_to_bytes(key)
    }

    /// Lays out the grid in `area`. Only the focused terminal places the
    /// hardware cursor, unless the grid hides it.
    pub fn render(&self, grid: &TerminalGrid, area: Rect, focused: bool) -> (r: TerminalPlan)
        ensures
            r.lines@.len() == area.height,
            forall|i: int|
                0 <= i < r.lines@.len() ==> runs_view((#[trigger] r.lines@[i])@) == row_runs(
                    grid.steps(),
                    i as u16,
                    area.width as int,
                ),
            r.cursor == if focused && !hidden_after(grid.steps()) {
                Some(
                    (
                        low16(area.x + cursor_after(grid.steps()).1),
                        low16(area.y + cursor_after(grid.steps()).0),
                    ),
                )
            } else {
                None
            },
    {
        let mut lines: Vec<Vec<Run>> = Vec::new();
        let mut row: u16 = 0;
        while row < area.height
            invariant
                row <= area.height,
                lines@.len() == row,
                forall|i: int|
                    0 <= i < lines@.len() ==> runs_view((#[trigger] lines@[i])@) == row_runs(
                        grid.steps(),
                        i as u16,
                        area.width as int,
                    ),
            decreases area.height - row,
        {
            lines.push(draw_row(&grid.grid, row, area.width));
            row += 1;
        }
        let cursor = if focused && !hide_cursor(&grid.grid) {
            let (crow, ccol) = cursor_position(&grid.grid);
            let x: u16 = truncate(area.x as usize + ccol as usize);
            let y: u16 = truncate(area.y as usize + crow as usize);
            Some((x, y))
        } else {
            None
        };
        TerminalPlan { lines, cursor }
    }
}

// ---------------------------------------------------------------------------
// Keys.

/// An ASCII letter in upper case, any other character as it is.
pub open spec fn ascii_upper(c: char) -> char {
    if 'a' <= c <= 'z' {
        ((c as int) - 0x20) as char
    } else {
        c
    }
}

/// The bytes that a terminal expects for a key: a control character for a
/// letter or one of `@[\\]^_` with Ctrl, any other character in UTF-8, and an
/// escape sequence for a key that moves.
pub open spec fn input_bytes(key: KeyEvent) -> Option<Seq<u8>> {
    match key.code {
        KeyCode::Char(c) => {
            let upper = ascii_upper(c);
            if key.modifiers.ctrl && '@' <= upper <= '_' {
                Some(seq![((upper as int) - 0x40) as u8])
            } else {
                Some(encode_utf8(seq![c]))
            }
        },
        KeyCode::Enter => Some(seq![0x0du8]),
        KeyCode::Backspace => Some(seq![0x7fu8]),
        KeyCode::Tab => Some(seq![0x09u8]),
        KeyCode::Esc => Some(seq![0x1bu8]),
        KeyCode::Left => Some(seq![0x1bu8, 0x5b, 0x44]),
        KeyCode::Right => Some(seq![0x1bu8, 0x5b, 0x43]),
        KeyCode::Up => Some(seq![0x1bu8, 0x5b, 0x41]),
        KeyCode::Down => Some(seq![0x1bu8, 0x5b, 0x42]),
        KeyCode::Home => Some(seq![0x1bu8, 0x5b, 0x48]),
        KeyCode::End => Some(seq![0x1bu8, 0x5b, 0x46]),
        KeyCode::PageUp => Some(seq![0x1bu8, 0x5b, 0x35, 0x7e]),
        KeyCode::PageDown => Some(seq![0x1bu8, 0x5b, 0x36, 0x7e]),
        KeyCode::Delete => Some(seq![0x1bu8, 0x5b, 0x33, 0x7e]),
        KeyCode::F(_) => None,
        KeyCode::Other => None,
    }
}

fn to_upper(c: char) -> (r: char)
    ensures
        r == ascii_upper(c),
{
    if 'a' <= c && c <= 'z' {
        (c as u8 - 0x20) as char
    } else {
        c
    }
}

fn escape(code: u8) -> (r: Vec<u8>)
    ensures
        r@ == seq![0x1bu8, 0x5b, code],
{
    let out: Vec<u8> = vec![0x1b, 0x5b, code];
    assert(out@ =~= seq![0x1bu8, 0x5b, code]);
    out
}

fn escape_tilde(code: u8) -> (r: Vec<u8>)
    ensures
        r@ == seq![0x1bu8, 0x5b, code, 0x7e],
{
    let out: Vec<u8> = vec![0x1b, 0x5b, code, 0x7e];
    assert(out@ =~= seq![0x1bu8, 0x5b, code, 0x7e]);
    out
}

fn byte(b: u8) -> (r: Vec<u8>)
    ensures
        r@ == seq![b],
{
    let out: Vec<u8> = vec![b];
    assert(out@ =~= seq![b]);
    out
}

/// Translate a key event into the bytes a terminal expects.
pub fn key_to_bytes(key: KeyEvent) -> (r: Option<Vec<u8>>)
    ensures
        crate::paths::bytes_view(r) == input_bytes(key),
{
    match key.code {
        KeyCode::Char(c) => {
            let upper = to_upper(c);
            // Control characters: Ctrl+A..Ctrl+Z map to 0x01..0x1a, etc.
            if key.modifiers.ctrl && '@' <= upper && upper <= '_' {
                return Some(byte(upper as u8 - 0x40));
            }
            let mut text = String::new();
            text.push(c);
            assert(text@ =~= seq![c]);
            Some(text.as_str().as_bytes_vec())
        },
        KeyCode::Enter => Some(byte(0x0d)),
        KeyCode::Backspace => Some(byte(0x7f)),
        KeyCode::Tab => Some(byte(0x09)),
        KeyCode::Esc => Some(byte(0x1b)),
        KeyCode::Left => Some(escape(0x44)),
        KeyCode::Right => Some(escape(0x43)),
        KeyCode::Up => Some(escape(0x41)),
        KeyCode::Down => Some(escape(0x42)),
        KeyCode::Home => Some(escape(0x48)),
        KeyCode::End => Some(escape(0x46)),
        KeyCode::PageUp => Some(escape_tilde(0x35)),
        KeyCode::PageDown => Some(escape_tilde(0x36)),
        KeyCode::Delete => Some(escape_tilde(0x33)),
        KeyCode::F(_) => None,
        KeyCode::Other => None,
    }
}

// ---------------------------------------------------------------------------
// Laws.

/// Output changes nothing about whether a grid takes more. A size that fits lets
/// it take output whatever size it had before, where all output so far was
/// ASCII, or where it is as wide as it was when it was written to and no wide
/// character was cut before.
pub proof fn resized_grids_take_output(steps: Seq<GridStep>, bytes: Seq<u8>, rows: u16, cols: u16)
    ensures
        ready(steps.push(GridStep::Output(bytes))) == ready(steps),
        ready(steps.push(GridStep::Size(rows, cols))) == (fits(rows, cols) && uncut(steps)
            && wide_cols(steps) <= cols),
        ascii_so_far(steps) ==> ready(steps.push(GridStep::Size(rows, cols))) == fits(rows, cols),
{
    assert(steps.push(GridStep::Output(bytes)).drop_last() =~= steps);
    assert(steps.push(GridStep::Size(rows, cols)).drop_last() =~= steps);
    if ascii_so_far(steps) {
        lemma_ascii_cuts_nothing(steps);
    }
}

proof fn lemma_ascii_cuts_nothing(steps: Seq<GridStep>)
    requires
        ascii_so_far(steps),
    ensures
        wide_cols(steps) == 0,
        uncut(steps),
    decreases steps.len(),
{
    if steps.len() > 0 {
        lemma_ascii_cuts_nothing(steps.drop_last());
    }
}

/// The text of some runs.
pub open spec fn text_of(runs: Seq<RunView>) -> Seq<char>
    decreases runs.len(),
{
    if runs.len() == 0 {
        Seq::empty()
    } else {
        text_of(runs.drop_last()) + runs.last().text
    }
}

/// Joining a piece to some runs adds its text at the end, and leaves no two
/// neighbors with the same style.
pub proof fn joining_keeps_text_and_merges(runs: Seq<RunView>, piece: RunView)
    requires
        forall|i: int| 0 <= i < runs.len() - 1 ==> (#[trigger] runs[i]).style != runs[i + 1].style,
    ensures
        text_of(joined(runs, piece)) == text_of(runs) + piece.text,
        forall|i: int|
            0 <= i < joined(runs, piece).len() - 1 ==> (#[trigger] joined(runs, piece)[i]).style
                != joined(runs, piece)[i + 1].style,
{
    let all = joined(runs, piece);
    if runs.len() > 0 && runs.last().style == piece.style {
        assert(all.drop_last() =~= runs.drop_last());
        assert(text_of(all) =~= text_of(runs) + piece.text);
        assert forall|i: int| 0 <= i < all.len() - 1 implies (#[trigger] all[i]).style != all[i
            + 1].style by {
            assert(all[i] == runs[i]);
            assert(all[i + 1].style == runs[i + 1].style);
        }
    } else {
        assert(all.drop_last() =~= runs);
        assert forall|i: int| 0 <= i < all.len() - 1 implies (#[trigger] all[i]).style != all[i
            + 1].style by {
            assert(all[i] == runs[i]);
        }
    }
}

/// With Ctrl, a letter sends the control character with its number in the
/// alphabet, whatever its case; without, a character sends its own bytes.
pub proof fn letters_send_themselves(key: KeyEvent, c: char)
    requires
        key.code == KeyCode::Char(c),
    ensures
        !key.modifiers.ctrl ==> input_bytes(key) == Some(encode_utf8(seq![c])),
        key.modifiers.ctrl && 'a' <= c <= 'z' ==> input_bytes(key) == Some(
            seq![((c as int) - ('a' as int) + 1) as u8],
        ),
        key.modifiers.ctrl && 'A' <= c <= 'Z' ==> input_bytes(key) == Some(
            seq![((c as int) - ('A' as int) + 1) as u8],
        ),
        key.modifiers.ctrl && ('0' <= c <= '9' || c == ' ' || (c as int) >= 128) ==> input_bytes(key)
            == Some(encode_utf8(seq![c])),
{
}

/// Enter sends a carriage return, Backspace the delete character, Tab a tab and
/// Escape an escape. A key that moves sends an escape, a bracket and the letter
/// of its direction; keys without a letter a number and a tilde. Other keys send
/// nothing. The modifiers make no difference to them.
pub proof fn moving_keys_send_sequences(key: KeyEvent)
    ensures
        key.code is Enter ==> input_bytes(key) == Some(seq!['\r' as u8]),
        key.code is Backspace ==> input_bytes(key) == Some(seq!['\u{7f}' as u8]),
        key.code is Tab ==> input_bytes(key) == Some(seq!['\t' as u8]),
        key.code is Esc ==> input_bytes(key) == Some(seq!['\u{1b}' as u8]),
        key.code is Up ==> input_bytes(key) == Some(seq!['\u{1b}' as u8, '[' as u8, 'A' as u8]),
        key.code is Down ==> input_bytes(key) == Some(seq!['\u{1b}' as u8, '[' as u8, 'B' as u8]),
        key.code is Right ==> input_bytes(key) == Some(seq!['\u{1b}' as u8, '[' as u8, 'C' as u8]),
        key.code is Left ==> input_bytes(key) == Some(seq!['\u{1b}' as u8, '[' as u8, 'D' as u8]),
        key.code is Home ==> input_bytes(key) == Some(seq!['\u{1b}' as u8, '[' as u8, 'H' as u8]),
        key.code is End ==> input_bytes(key) == Some(seq!['\u{1b}' as u8, '[' as u8, 'F' as u8]),
        key.code is Delete ==> input_bytes(key) == Some(
            seq!['\u{1b}' as u8, '[' as u8, '3' as u8, '~' as u8],
        ),
        key.code is PageUp ==> input_bytes(key) == Some(
            seq!['\u{1b}' as u8, '[' as u8, '5' as u8, '~' as u8],
        ),
        key.code is PageDown ==> input_bytes(key) == Some(
            seq!['\u{1b}' as u8, '[' as u8, '6' as u8, '~' as u8],
        ),
        key.code is F || key.code is Other ==> input_bytes(key) is None,
{
}

/// A cell is drawn with what it holds, or as a space if it is empty or not there,
/// in its own colors and with its own marks.
pub proof fn cells_are_drawn_as_they_are(g: GlyphView)
    ensures
        drawn_cell(None).text == seq![' '],
        g.contents.len() == 0 ==> drawn_cell(Some(g)).text == seq![' '],
        g.contents.len() > 0 ==> drawn_cell(Some(g)).text == g.contents,
        ({
            let s = drawn_cell(Some(g)).style;
            &&& s.bold == g.bold && s.italic == g.italic
            &&& s.underlined == g.underline && s.reversed == g.inverse
            &&& s.fg == match g.fg {
                CellColor::Default => None,
                CellColor::Idx(i) => Some(Color::Indexed(i)),
                CellColor::Rgb(r, g, b) => Some(Color::Rgb(r, g, b)),
            }
            &&& s.bg == match g.bg {
                CellColor::Default => None,
                CellColor::Idx(i) => Some(Color::Indexed(i)),
                CellColor::Rgb(r, g, b) => Some(Color::Rgb(r, g, b)),
            }
        }),
{
    reveal_strlit(" ");
    assert(" "@ =~= seq![' ']);
}

/// A row shows its cells one after the other.
pub proof fn rows_show_their_cells(steps: Seq<GridStep>, row: u16, cols: u16)
    requires
        cols > 0,
    ensures
        text_of(row_runs(steps, row, cols as int)) == text_of(row_runs(steps, row, cols - 1))
            + drawn_cell(cell_after(steps, row, (cols - 1) as u16)).text,
        text_of(row_runs(steps, row, 0)) == Seq::<char>::empty(),
{
    lemma_joined_text(
        row_runs(steps, row, cols - 1),
        drawn_cell(cell_after(steps, row, (cols - 1) as u16)),
    );
}

proof fn lemma_joined_text(runs: Seq<RunView>, piece: RunView)
    ensures
        text_of(joined(runs, piece)) == text_of(runs) + piece.text,
{
    let all = joined(runs, piece);
    if runs.len() > 0 && runs.last().style == piece.style {
        assert(all.drop_last() =~= runs.drop_last());
        assert(text_of(all) =~= text_of(runs) + piece.text);
    } else {
        assert(all.drop_last() =~= runs);
    }
}

/// No extent of a grid is zero, and one that is not stays as it is.
pub proof fn extents_are_never_zero(n: u16)
    ensures
        at_least_one(n) >= 1,
        n >= 1 ==> at_least_one(n) == n,
        n == 0 ==> at_least_one(n) == 1,
{
}

} // verus!
