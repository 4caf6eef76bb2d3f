//! A plain editor view over a [`Buffer`]: the cursor, the scroll offset, and
//! the logic that lays out the visible region and keeps the cursor on screen.
use crate::buffer::{line_content, Buffer};
pub use crate::caret::Cursor;
use crate::pane::{can_scroll, scrolled};
use crate::rope::line_total;
use crate::style::{low16, truncate, Rect};
use crate::text::{chars_of, string_of};
use vstd::prelude::*;

verus! {

#[derive(Debug)]
pub struct EditorView {
    pub buffer: Buffer,
    pub cursor: Cursor,
    pub scroll_row: usize,
    pub scroll_col: usize,
}

/// The visible lines of a view and where the hardware cursor goes.
#[derive(Debug)]
pub struct ViewPlan {
    pub lines: Vec<String>,
    pub cursor: (u16, u16),
}

/// What of a line is visible when the columns before `col` are scrolled away.
pub open spec fn visible_part(content: Seq<char>, col: int) -> Seq<char> {
    if col < content.len() {
        content.skip(col)
    } else {
        Seq::empty()
    }
}

/// How many lines are visible from line `top` in a viewport `height` rows high.
pub open spec fn visible_rows(t: Seq<char>, top: int, height: int) -> int {
    if top + height <= line_total(t) {
        height
    } else if top <= line_total(t) {
        line_total(t) - top
    } else {
        0
    }
}

/// The part of a line from column `col` on.
pub fn visible_text(buffer: &Buffer, line: usize, col: usize) -> (r: String)
    ensures
        r@ == visible_part(line_content(buffer@.text, line as int), col as int),
{
    let chars = chars_of(buffer.line_text(line).as_str());
    if col < chars.len() {
        let r = string_of(&chars, col, chars.len());
        assert(r@ =~= chars@.skip(col as int));
        r
    } else {
        String::new()
    }
}

/// The distance from `origin` to `at`, not below zero.
pub open spec fn beyond(at: int, origin: int) -> int {
    if at >= origin {
        at - origin
    } else {
        0
    }
}

impl EditorView {
    pub fn new(buffer: Buffer) -> (r: Self)
        ensures
            r.buffer == buffer,
            r.cursor == (Cursor { line: 0, col: 0, target_col: 0 }),
            r.scroll_row == 0,
            r.scroll_col == 0,
    {
        Self {
            buffer,
            cursor: Cursor { line: 0, col: 0, target_col: 0 },
            scroll_row: 0,
            scroll_col: 0,
        }
    }

    /// The visible slice of the buffer in `area`, scrolling first so the cursor
    /// stays visible, and the place of the hardware cursor.
    pub fn render(&mut self, area: Rect) -> (r: ViewPlan)
        requires
            can_scroll(old(self).scroll_row, old(self).cursor.line, area.height as usize),
            can_scroll(old(self).scroll_col, old(self).cursor.col, area.width as usize),
        ensures
            final(self).buffer == old(self).buffer,
            final(self).cursor == old(self).cursor,
            final(self).scroll_row == scrolled(
                old(self).scroll_row as int,
                old(self).cursor.line as int,
                area.height as int,
            ),
            final(self).scroll_col == scrolled(
                old(self).scroll_col as int,
                old(self).cursor.col as int,
                area.width as int,
            ),
            r.lines@.len() == visible_rows(
                old(self).buffer@.text,
                final(self).scroll_row as int,
                area.height as int,
            ),
            forall|i: int|
                0 <= i < r.lines@.len() ==> (#[trigger] r.lines@[i])@ == visible_part(
                    line_content(old(self).buffer@.text, final(self).scroll_row + i),
                    final(self).scroll_col as int,
                ),
            r.cursor.0 == low16(
                area.x + low16(
                    beyond(old(self).cursor.col as int, final(self).scroll_col as int),
                ),
            ),
            r.cursor.1 == low16(
                area.y + low16(
                    beyond(old(self).cursor.line as int, final(self).scroll_row as int),
                ),
            ),
    {
        let height: usize = area.height as usize;
        let width: usize = area.width as usize;
        self.scroll_row = scroll_to_show(self.scroll_row, self.cursor.line, height);
        self.scroll_col = scroll_to_show(self.scroll_col, self.cursor.col, width);
        let mut lines: Vec<String> = Vec::new();
        let mut row: usize = 0;
        let total: usize = self.buffer.line_count();
        while row < height && self.scroll_row < total && row < total - self.scroll_row
            invariant
                row <= height,
                lines@.len() == row,
                total == line_total(self.buffer@.text),
                row <= visible_rows(self.buffer@.text, self.scroll_row as int, height as int),
                forall|i: int|
                    0 <= i < lines@.len() ==> (#[trigger] lines@[i])@ == visible_part(
                        line_content(self.buffer@.text, self.scroll_row + i),
                        self.scroll_col as int,
                    ),
            decreases height - row,
        {
            lines.push(visible_text(&self.buffer, self.scroll_row + row, self.scroll_col));
            row += 1;
        }
        let cx: u16 = screen_coord(area.x, self.cursor.col, self.scroll_col);
        let cy: u16 = screen_coord(area.y, self.cursor.line, self.scroll_row);
        ViewPlan { lines, cursor: (cx, cy) }
    }
}

/// The screen coordinate of a position `at` when `origin` is scrolled to the
/// screen coordinate `edge`.
pub fn screen_coord(edge: u16, at: usize, origin: usize) -> (r: u16)
    ensures
        r == low16(edge + low16(beyond(at as int, origin as int))),
{
    let shift: u16 = truncate(
        if at >= origin {
            at - origin
        } else {
            0
        },
    );
    truncate(edge as usize + shift as usize)
}

/// Given the current scroll offset, the cursor index, and the viewport size on
/// one axis, return the scroll offset that keeps the cursor visible while
/// moving as little as possible.
pub fn scroll_to_show(scroll: usize, cursor: usize, viewport: usize) -> (r: usize)
    requires
        can_scroll(scroll, cursor, viewport),
    ensures
        r == scrolled(scroll as int, cursor as int, viewport as int),
{
    crate::pane::scroll_to_show(scroll, cursor, viewport)
}

/// From the top line on as many lines are shown as there is room for: the
/// viewport is full, or the last line is shown. Of a line what stands from the
/// first visible column on is shown.
pub proof fn the_viewport_shows_what_fits(t: Seq<char>, top: int, height: int, line: int, col: int)
    requires
        0 <= top,
        0 <= height,
        0 <= col,
    ensures
        ({
            let n = visible_rows(t, top, height);
            &&& 0 <= n <= height
            &&& top <= line_total(t) ==> top + n <= line_total(t) && (n == height || top + n
                == line_total(t))
            &&& top > line_total(t) ==> n == 0
        }),
        ({
            let content = line_content(t, line);
            let shown = visible_part(content, col);
            &&& col <= content.len() ==> content == content.take(col) + shown
            &&& col > content.len() ==> shown.len() == 0
        }),
{
    let content = line_content(t, line);
    if col <= content.len() {
        assert(content =~= content.take(col) + visible_part(content, col));
    }
}

/// A place that is not scrolled away is drawn as far from the edge of the screen
/// as it is from what is scrolled to the edge.
pub proof fn places_are_drawn_in_proportion(edge: u16, at: int, origin: int, extent: int)
    requires
        0 <= origin <= at < origin + extent,
        edge + extent <= 0xffff,
    ensures
        low16(edge + low16(beyond(at, origin))) == edge + (at - origin),
        edge <= low16(edge + low16(beyond(at, origin))) < edge + extent,
{
}

} // verus!
