//! How a caret moves: by characters, words, lines and pages.
use crate::buffer::{line_content, Buffer};
use crate::caret::{Caret, Cursor};
use crate::complete::{is_word_char, word_char};
use crate::rope::line_total;
use crate::text::chars_of;
use vstd::prelude::*;

verus! {

/// A movement of the carets. A page movement carries its number of rows.
#[derive(Debug, Clone, Copy, PartialEq, Eq, Structural)]
pub enum Move {
    Left,
    Right,
    WordLeft,
    WordRight,
    Up,
    Down,
    LineStart,
    LineEnd,
    PageUp(usize),
    PageDown(usize),
}

/// The first position at or after (line, col) that has a word character, over
/// line ends; the end of the buffer when there is none.
pub open spec fn skip_right(text: Seq<char>, line: int, col: int) -> (int, int)
    decreases line_total(text) - line, line_content(text, line).len() - col,
{
    let content = line_content(text, line);
    if col < content.len() {
        if word_char(content[col]) {
            (line, col)
        } else {
            skip_right(text, line, col + 1)
        }
    } else if line + 1 < line_total(text) {
        skip_right(text, line + 1, 0)
    } else {
        (line, col)
    }
}

/// The end of the run of word characters that starts at `col`.
pub open spec fn word_end(content: Seq<char>, col: int) -> int
    decreases content.len() - col,
{
    if col < content.len() && word_char(content[col]) {
        word_end(content, col + 1)
    } else {
        col
    }
}

/// Just past the next word.
pub open spec fn word_right(text: Seq<char>, line: int, col: int) -> (int, int) {
    let p = skip_right(text, line, col);
    (p.0, word_end(line_content(text, p.0), p.1))
}

/// The last position at or before (line, col) with a word character before it,
/// over line starts; the start of the buffer when there is none.
pub open spec fn skip_left(text: Seq<char>, line: int, col: int) -> (int, int)
    decreases line, col,
{
    if col > 0 {
        if word_char(line_content(text, line)[col - 1]) {
            (line, col)
        } else {
            skip_left(text, line, col - 1)
        }
    } else if line > 0 {
        skip_left(text, line - 1, line_content(text, line - 1).len() as int)
    } else {
        (line, col)
    }
}

/// The start of the run of word characters that ends at `col`.
pub open spec fn word_begin(content: Seq<char>, col: int) -> int
    decreases col,
{
    if col > 0 && word_char(content[col - 1]) {
        word_begin(content, col - 1)
    } else {
        col
    }
}

/// The start of the word before.
pub open spec fn word_left(text: Seq<char>, line: int, col: int) -> (int, int) {
    let p = skip_left(text, line, col);
    (p.0, word_begin(line_content(text, p.0), p.1))
}

/// The smaller of two numbers.
pub open spec fn least(a: int, b: int) -> int {
    if a <= b {
        a
    } else {
        b
    }
}

/// A cursor on another line, in the column it wants as far as that line goes.
pub open spec fn on_line(text: Seq<char>, c: Cursor, line: int) -> Cursor {
    Cursor {
        line: line as usize,
        col: least(c.target_col as int, line_content(text, line).len() as int) as usize,
        target_col: c.target_col,
    }
}

/// A cursor put at a line and column.
pub open spec fn cursor_at(line: int, col: int) -> Cursor {
    Cursor { line: line as usize, col: col as usize, target_col: col as usize }
}

/// Where a movement takes a cursor.
pub open spec fn moved_cursor(text: Seq<char>, c: Cursor, mv: Move) -> Cursor {
    let last = line_total(text) - 1;
    match mv {
        Move::Left => if c.col > 0 {
            cursor_at(c.line as int, c.col - 1)
        } else if c.line > 0 {
            cursor_at(c.line - 1, line_content(text, c.line - 1).len() as int)
        } else {
            cursor_at(c.line as int, c.col as int)
        },
        Move::Right => if c.col < line_content(text, c.line as int).len() {
            cursor_at(c.line as int, c.col + 1)
        } else if c.line < last {
            cursor_at(c.line + 1, 0)
        } else {
            cursor_at(c.line as int, c.col as int)
        },
        Move::WordLeft => {
            let p = word_left(text, c.line as int, c.col as int);
            cursor_at(p.0, p.1)
        },
        Move::WordRight => {
            let p = word_right(text, c.line as int, c.col as int);
            cursor_at(p.0, p.1)
        },
        Move::Up => if c.line > 0 {
            on_line(text, c, c.line - 1)
        } else {
            c
        },
        Move::Down => if c.line < last {
            on_line(text, c, c.line + 1)
        } else {
            c
        },
        Move::LineStart => cursor_at(c.line as int, 0),
        Move::LineEnd => cursor_at(c.line as int, line_content(text, c.line as int).len() as int),
        Move::PageUp(page) => on_line(
            text,
            c,
            if c.line >= page {
                c.line - page
            } else {
                0
            },
        ),
        Move::PageDown(page) => on_line(text, c, least(c.line + page, last)),
    }
}

/// What a movement makes of the selection: extending keeps its anchor or drops
/// one where the caret stands, a plain movement ends it.
pub open spec fn moved_anchor(c: Caret, extend: bool) -> Option<(usize, usize)> {
    if !extend {
        None
    } else if c.anchor is Some {
        c.anchor
    } else {
        Some(c.at())
    }
}

/// Where a movement takes a caret.
pub open spec fn moved(text: Seq<char>, c: Caret, mv: Move, extend: bool) -> Caret {
    Caret { cursor: moved_cursor(text, c.cursor, mv), anchor: moved_anchor(c, extend) }
}

/// Whether a caret can make a movement: a word movement to the left starts
/// within its line, and a page does not lead past the largest line number.
pub open spec fn can_move(text: Seq<char>, c: Cursor, mv: Move) -> bool {
    match mv {
        Move::WordLeft => c.col <= line_content(text, c.line as int).len(),
        Move::PageDown(page) => c.line + page <= usize::MAX,
        _ => true,
    }
}

/// Whether a line and column stand on a character of the buffer or at the end
/// of one of its lines.
pub open spec fn inside(text: Seq<char>, line: int, col: int) -> bool {
    0 <= line < line_total(text) && 0 <= col <= line_content(text, line).len()
}

proof fn lemma_skip_right(text: Seq<char>, line: int, col: int)
    requires
        inside(text, line, col),
    ensures
        inside(text, skip_right(text, line, col).0, skip_right(text, line, col).1),
    decreases line_total(text) - line, line_content(text, line).len() - col,
{
    let content = line_content(text, line);
    if col < content.len() {
        if !word_char(content[col]) {
            lemma_skip_right(text, line, col + 1);
        }
    } else if line + 1 < line_total(text) {
        lemma_skip_right(text, line + 1, 0);
    }
}

proof fn lemma_skip_left(text: Seq<char>, line: int, col: int)
    requires
        inside(text, line, col),
    ensures
        inside(text, skip_left(text, line, col).0, skip_left(text, line, col).1),
    decreases line, col,
{
    if col > 0 {
        if !word_char(line_content(text, line)[col - 1]) {
            lemma_skip_left(text, line, col - 1);
        }
    } else if line > 0 {
        lemma_skip_left(text, line - 1, line_content(text, line - 1).len() as int);
    }
}

proof fn lemma_word_end(content: Seq<char>, col: int)
    requires
        0 <= col <= content.len(),
    ensures
        col <= word_end(content, col) <= content.len(),
    decreases content.len() - col,
{
    if col < content.len() && word_char(content[col]) {
        lemma_word_end(content, col + 1);
    }
}

proof fn lemma_word_begin(content: Seq<char>, col: int)
    requires
        0 <= col <= content.len(),
    ensures
        0 <= word_begin(content, col) <= col,
    decreases col,
{
    if col > 0 && word_char(content[col - 1]) {
        lemma_word_begin(content, col - 1);
    }
}

/// Moving up or down keeps the column that the user wants: on another line the
/// cursor lands in it, or at the end of a line that is shorter.
pub proof fn vertical_moves_keep_the_target(text: Seq<char>, c: Cursor, mv: Move)
    requires
        mv is Up || mv is Down || mv is PageUp || mv is PageDown,
        c.line < line_total(text),
        can_move(text, c, mv),
        text.len() < usize::MAX,
    ensures
        ({
            let m = moved_cursor(text, c, mv);
            &&& m.target_col == c.target_col
            &&& m.line != c.line ==> m.col == least(
                c.target_col as int,
                line_content(text, m.line as int).len() as int,
            )
        }),
{
    crate::rope::lemma_breaks_monotone(text, 0, text.len() as int);
    lemma_content_len(text, moved_cursor(text, c, mv).line as int);
}

/// A movement with Shift held sets the anchor of a selection where the caret
/// stood, unless there is one, and extends the selection to where the caret
/// goes; one without ends it.
pub proof fn selections_extend_or_end(text: Seq<char>, c: Caret, mv: Move)
    ensures
        moved(text, c, mv, false).anchor is None,
        moved(text, c, mv, true).anchor == Some(
            match c.anchor {
                Some(a) => a,
                None => c.at(),
            },
        ),
        moved(text, c, mv, true).cursor == moved_cursor(text, c.cursor, mv),
        moved(text, c, mv, false).cursor == moved_cursor(text, c.cursor, mv),
{
}

/// No movement takes a cursor that is inside the buffer out of it.
pub proof fn moves_stay_inside(text: Seq<char>, c: Cursor, mv: Move)
    requires
        inside(text, c.line as int, c.col as int),
        can_move(text, c, mv),
        text.len() < usize::MAX,
    ensures
        inside(text, moved_cursor(text, c, mv).line as int, moved_cursor(text, c, mv).col as int),
{
    crate::rope::lemma_breaks_monotone(text, 0, text.len() as int);
    let n = moved_cursor(text, c, mv);
    match mv {
        Move::WordLeft => {
            lemma_skip_left(text, c.line as int, c.col as int);
            let p = skip_left(text, c.line as int, c.col as int);
            lemma_word_begin(line_content(text, p.0), p.1);
            lemma_content_len(text, p.0);
        },
        Move::WordRight => {
            lemma_skip_right(text, c.line as int, c.col as int);
            let p = skip_right(text, c.line as int, c.col as int);
            lemma_word_end(line_content(text, p.0), p.1);
            lemma_content_len(text, p.0);
        },
        Move::Left => {
            if c.col == 0 && c.line > 0 {
                lemma_content_len(text, c.line - 1);
            }
        },
        Move::LineEnd => {
            lemma_content_len(text, c.line as int);
        },
        _ => {
            lemma_content_len(text, n.line as int);
        },
    }
}

/// The content of a line is no longer than the text.
pub proof fn lemma_content_len(text: Seq<char>, line: int)
    requires
        0 <= line,
    ensures
        line_content(text, line).len() <= text.len(),
{
    if line < line_total(text) {
        crate::rope::lemma_line_bounds(text, line);
        crate::text::lemma_trim_line_end_prefix(crate::rope::line_with_break(text, line));
    }
}

/// Forward word-boundary scan from `(line, col)`: skip separators (crossing line
/// ends), then advance over word chars, returning the position just past the
/// word (or the buffer end).
pub fn scan_word_right(buffer: &Buffer, line: usize, col: usize) -> (r: (usize, usize))
    ensures
        (r.0 as int, r.1 as int) == word_right(buffer@.text, line as int, col as int),
{
    let last: usize = buffer.line_count() - 1;
    let mut line: usize = line;
    let mut col: usize = col;
    let ghost text = buffer@.text;
    let ghost goal = skip_right(text, line as int, col as int);
    let mut chars: Vec<char> = chars_of(buffer.line_text(line).as_str());
    loop
        invariant_except_break
            text == buffer@.text,
            last == line_total(text) - 1,
            chars@ == line_content(text, line as int),
            skip_right(text, line as int, col as int) == goal,
        ensures
            chars@ == line_content(text, line as int),
            goal == (line as int, col as int),
        decreases line_total(text) - line, chars@.len() - col,
    {
        if col < chars.len() {
            if is_word_char(chars[col]) {
                break;
            }
            col += 1;
        } else if line < last {
            line += 1;
            col = 0;
            chars = chars_of(buffer.line_text(line).as_str());
        } else {
            break;
        }
    }
    let ghost stop = word_end(chars@, col as int);
    while col < chars.len() && is_word_char(chars[col])
        invariant
            word_end(chars@, col as int) == stop,
        decreases chars@.len() - col,
    {
        col += 1;
    }
    (line, col)
}

/// Backward word-boundary scan from `(line, col)`: step back over separators
/// (crossing line starts), then over word chars, returning the start of the word
/// (or the buffer start).
pub fn scan_word_left(buffer: &Buffer, line: usize, col: usize) -> (r: (usize, usize))
    requires
        col <= line_content(buffer@.text, line as int).len(),
    ensures
        (r.0 as int, r.1 as int) == word_left(buffer@.text, line as int, col as int),
{
    let mut line: usize = line;
    let mut col: usize = col;
    let ghost text = buffer@.text;
    let ghost goal = skip_left(text, line as int, col as int);
    let mut chars: Vec<char> = chars_of(buffer.line_text(line).as_str());
    loop
        invariant_except_break
            text == buffer@.text,
            chars@ == line_content(text, line as int),
            col <= chars@.len(),
            skip_left(text, line as int, col as int) == goal,
        ensures
            chars@ == line_content(text, line as int),
            col <= chars@.len(),
            goal == (line as int, col as int),
        decreases line, col,
    {
        if col > 0 {
            if is_word_char(chars[col - 1]) {
                break;
            }
            col -= 1;
        } else if line > 0 {
            line -= 1;
            chars = chars_of(buffer.line_text(line).as_str());
            col = chars.len();
        } else {
            break;
        }
    }
    let ghost stop = word_begin(chars@, col as int);
    while col > 0 && is_word_char(chars[col - 1])
        invariant
            col <= chars@.len(),
            word_begin(chars@, col as int) == stop,
        decreases col,
    {
        col -= 1;
    }
    (line, col)
}

fn min(a: usize, b: usize) -> (r: usize)
    ensures
        r == least(a as int, b as int),
{
    if a <= b {
        a
    } else {
        b
    }
}

/// Moves one cursor.
fn move_cursor(buffer: &Buffer, c: Cursor, mv: Move) -> (r: Cursor)
    requires
        can_move(buffer@.text, c, mv),
    ensures
        r == moved_cursor(buffer@.text, c, mv),
{
    let last: usize = buffer.line_count() - 1;
    match mv {
        Move::Left => if c.col > 0 {
            Cursor { line: c.line, col: c.col - 1, target_col: c.col - 1 }
        } else if c.line > 0 {
            let col: usize = buffer.line_len_chars(c.line - 1);
            Cursor { line: c.line - 1, col, target_col: col }
        } else {
            Cursor { line: c.line, col: c.col, target_col: c.col }
        },
        Move::Right => if c.col < buffer.line_len_chars(c.line) {
            Cursor { line: c.line, col: c.col + 1, target_col: c.col + 1 }
        } else if c.line < last {
            Cursor { line: c.line + 1, col: 0, target_col: 0 }
        } else {
            Cursor { line: c.line, col: c.col, target_col: c.col }
        },
        Move::WordLeft => {
            let (line, col) = scan_word_left(buffer, c.line, c.col);
            Cursor { line, col, target_col: col }
        },
        Move::WordRight => {
            let (line, col) = scan_word_right(buffer, c.line, c.col);
            Cursor { line, col, target_col: col }
        },
        Move::Up => if c.line > 0 {
            let col: usize = min(c.target_col, buffer.line_len_chars(c.line - 1));
            Cursor { line: c.line - 1, col, target_col: c.target_col }
        } else {
            c
        },
        Move::Down => if c.line < last {
            let col: usize = min(c.target_col, buffer.line_len_chars(c.line + 1));
            Cursor { line: c.line + 1, col, target_col: c.target_col }
        } else {
            c
        },
        Move::LineStart => Cursor { line: c.line, col: 0, target_col: 0 },
        Move::LineEnd => {
            let col: usize = buffer.line_len_chars(c.line);
            Cursor { line: c.line, col, target_col: col }
        },
        Move::PageUp(page) => {
            let line: usize = if c.line >= page {
                c.line - page
            } else {
                0
            };
            let col: usize = min(c.target_col, buffer.line_len_chars(line));
            Cursor { line, col, target_col: c.target_col }
        },
        Move::PageDown(page) => {
            let line: usize = min(c.line + page, last);
            let col: usize = min(c.target_col, buffer.line_len_chars(line));
            Cursor { line, col, target_col: c.target_col }
        },
    }
}

/// Moves one caret: extend keeps or sets the anchor, a plain move collapses any
/// selection.
pub fn move_caret(buffer: &Buffer, c: Caret, mv: Move, extend: bool) -> (r: Caret)
    requires
        can_move(buffer@.text, c.cursor, mv),
    ensures
        r == moved(buffer@.text, c, mv, extend),
{
    let anchor = if !extend {
        None
    } else if c.anchor.is_some() {
        c.anchor
    } else {
        Some((c.cursor.line, c.cursor.col))
    };
    Caret { cursor: move_cursor(buffer, c.cursor, mv), anchor }
}

// ---------------------------------------------------------------------------
// Where movements lead.

/// Whether a line and column come before another.
pub open spec fn earlier(a: (int, int), b: (int, int)) -> bool {
    a.0 < b.0 || (a.0 == b.0 && a.1 < b.1)
}

/// Right leads to the next place in the buffer and Left to the one before:
/// there is no place between. They stay only at the end of the buffer and at its
/// start.
pub proof fn left_and_right_go_to_the_next_place(text: Seq<char>, c: Cursor, p: (int, int))
    requires
        inside(text, c.line as int, c.col as int),
        inside(text, p.0, p.1),
        text.len() < usize::MAX,
    ensures
        ({
            let here = (c.line as int, c.col as int);
            let l = moved_cursor(text, c, Move::Left);
            let r = moved_cursor(text, c, Move::Right);
            let left = (l.line as int, l.col as int);
            let right = (r.line as int, r.col as int);
            &&& inside(text, left.0, left.1) && l.target_col == l.col
            &&& inside(text, right.0, right.1) && r.target_col == r.col
            &&& earlier(here, p) ==> earlier(here, right) && !earlier(p, right)
            &&& earlier(p, here) ==> earlier(left, here) && !earlier(left, p)
            &&& left == here || earlier(left, here)
            &&& right == here || earlier(here, right)
            &&& here == (0int, 0int) ==> left == here
        }),
{
    crate::rope::lemma_breaks_monotone(text, 0, text.len() as int);
    lemma_content_len(text, c.line as int);
    if c.line > 0 {
        lemma_content_len(text, c.line - 1);
    }
}

/// Left takes back Right and Right takes back Left, but at the ends of the
/// buffer.
pub proof fn left_and_right_undo_each_other(text: Seq<char>, c: Cursor)
    requires
        inside(text, c.line as int, c.col as int),
        text.len() < usize::MAX,
    ensures
        ({
            let l = moved_cursor(text, c, Move::Left);
            let r = moved_cursor(text, c, Move::Right);
            let lr = moved_cursor(text, l, Move::Right);
            let rl = moved_cursor(text, r, Move::Left);
            &&& c.line > 0 || c.col > 0 ==> lr.line == c.line && lr.col == c.col
            &&& c.line + 1 < line_total(text) || c.col < line_content(text, c.line as int).len()
                ==> rl.line == c.line && rl.col == c.col
        }),
{
    crate::rope::lemma_breaks_monotone(text, 0, text.len() as int);
    lemma_content_len(text, c.line as int);
    if c.line > 0 {
        lemma_content_len(text, c.line - 1);
    }
}

/// Up and Down lead one line on, a page as many lines as it has rows, and no
/// movement leads past the first or the last line. Home and End stay on their
/// line, and lead before its first character and behind its last.
pub proof fn vertical_moves_count_lines(text: Seq<char>, c: Cursor, page: usize)
    requires
        inside(text, c.line as int, c.col as int),
        text.len() < usize::MAX,
        c.line + page <= usize::MAX,
    ensures
        moved_cursor(text, c, Move::Up).line == if c.line == 0 {
            0
        } else {
            c.line - 1
        },
        moved_cursor(text, c, Move::Down).line == if c.line + 1 == line_total(text) {
            c.line as int
        } else {
            c.line + 1
        },
        c.line == 0 ==> moved_cursor(text, c, Move::Up) == c,
        c.line + 1 == line_total(text) ==> moved_cursor(text, c, Move::Down) == c,
        page <= c.line ==> moved_cursor(text, c, Move::PageUp(page)).line + page == c.line,
        page > c.line ==> moved_cursor(text, c, Move::PageUp(page)).line == 0,
        c.line + page < line_total(text) ==> moved_cursor(text, c, Move::PageDown(page)).line
            == c.line + page,
        c.line + page >= line_total(text) ==> moved_cursor(text, c, Move::PageDown(page)).line + 1
            == line_total(text),
        moved_cursor(text, c, Move::LineStart).line == c.line,
        moved_cursor(text, c, Move::LineStart).col == 0,
        moved_cursor(text, c, Move::LineStart).target_col == 0,
        moved_cursor(text, c, Move::LineEnd).line == c.line,
        moved_cursor(text, c, Move::LineEnd).col == line_content(text, c.line as int).len(),
        moved_cursor(text, c, Move::LineEnd).target_col == moved_cursor(text, c, Move::LineEnd).col,
{
    crate::rope::lemma_breaks_monotone(text, 0, text.len() as int);
    lemma_content_len(text, c.line as int);
}

/// Whether no word character stands at `a` or behind it and before `b`.
pub open spec fn no_word_between(text: Seq<char>, a: (int, int), b: (int, int)) -> bool {
    forall|line: int, col: int|
        #![trigger line_content(text, line)[col]]
        0 <= line < line_total(text) && 0 <= col < line_content(text, line).len() && !earlier(
            (line, col),
            a,
        ) && earlier((line, col), b) ==> !word_char(line_content(text, line)[col])
}

proof fn lemma_skips_right(text: Seq<char>, line: int, col: int)
    requires
        inside(text, line, col),
    ensures
        ({
            let p = skip_right(text, line, col);
            &&& inside(text, p.0, p.1)
            &&& !earlier(p, (line, col))
            &&& no_word_between(text, (line, col), p)
            &&& {
                ||| p.1 < line_content(text, p.0).len() && word_char(line_content(text, p.0)[p.1])
                ||| p.0 + 1 == line_total(text) && p.1 == line_content(text, p.0).len()
            }
        }),
    decreases line_total(text) - line, line_content(text, line).len() - col,
{
    let content = line_content(text, line);
    if col < content.len() {
        if !word_char(content[col]) {
            lemma_skips_right(text, line, col + 1);
        }
    } else if line + 1 < line_total(text) {
        lemma_skips_right(text, line + 1, 0);
    }
}

proof fn lemma_skips_left(text: Seq<char>, line: int, col: int)
    requires
        inside(text, line, col),
    ensures
        ({
            let p = skip_left(text, line, col);
            &&& inside(text, p.0, p.1)
            &&& !earlier((line, col), p)
            &&& no_word_between(text, p, (line, col))
            &&& {
                ||| p.1 > 0 && word_char(line_content(text, p.0)[p.1 - 1])
                ||| p == (0int, 0int)
            }
        }),
    decreases line, col,
{
    if col > 0 {
        if !word_char(line_content(text, line)[col - 1]) {
            lemma_skips_left(text, line, col - 1);
        }
    } else if line > 0 {
        lemma_skips_left(text, line - 1, line_content(text, line - 1).len() as int);
    }
}

pub(crate) proof fn lemma_word_run_right(content: Seq<char>, col: int)
    requires
        0 <= col <= content.len(),
    ensures
        col <= word_end(content, col) <= content.len(),
        forall|k: int| col <= k < word_end(content, col) ==> word_char(#[trigger] content[k]),
        word_end(content, col) < content.len() ==> !word_char(content[word_end(content, col)]),
    decreases content.len() - col,
{
    if col < content.len() && word_char(content[col]) {
        lemma_word_run_right(content, col + 1);
    }
}

pub(crate) proof fn lemma_word_run_left(content: Seq<char>, col: int)
    requires
        0 <= col <= content.len(),
    ensures
        0 <= word_begin(content, col) <= col,
        forall|k: int| word_begin(content, col) <= k < col ==> word_char(#[trigger] content[k]),
        word_begin(content, col) > 0 ==> !word_char(content[word_begin(content, col) - 1]),
    decreases col,
{
    if col > 0 && word_char(content[col - 1]) {
        lemma_word_run_left(content, col - 1);
    }
}

/// A word movement to the right passes over what is no word and then over one
/// word, to just behind it; with no word left it goes to the end of the buffer.
pub proof fn word_right_passes_one_word(text: Seq<char>, c: Cursor)
    requires
        inside(text, c.line as int, c.col as int),
        text.len() < usize::MAX,
    ensures
        ({
            let here = (c.line as int, c.col as int);
            let m = moved_cursor(text, c, Move::WordRight);
            let r = (m.line as int, m.col as int);
            let content = line_content(text, r.0);
            &&& inside(text, r.0, r.1)
            &&& r.1 < content.len() ==> !word_char(content[r.1])
            &&& {
                ||| exists|k: int|
                    #![trigger content.take(k)]
                    {
                        &&& 0 <= k < r.1
                        &&& !earlier((r.0, k), here)
                        &&& no_word_between(text, here, (r.0, k))
                        &&& forall|i: int| k <= i < r.1 ==> word_char(#[trigger] content[i])
                    }
                ||| r.0 + 1 == line_total(text) && r.1 == content.len() && no_word_between(
                    text,
                    here,
                    r,
                )
            }
        }),
{
    crate::rope::lemma_breaks_monotone(text, 0, text.len() as int);
    lemma_skips_right(text, c.line as int, c.col as int);
    let p = skip_right(text, c.line as int, c.col as int);
    let content = line_content(text, p.0);
    lemma_word_run_right(content, p.1);
    lemma_content_len(text, p.0);
    assert(content.take(p.1).len() == p.1);
}

/// A word movement to the left passes over what is no word and then over one
/// word, to its first character; with no word left it goes to the start of the
/// buffer.
pub proof fn word_left_passes_one_word(text: Seq<char>, c: Cursor)
    requires
        inside(text, c.line as int, c.col as int),
        text.len() < usize::MAX,
    ensures
        ({
            let here = (c.line as int, c.col as int);
            let m = moved_cursor(text, c, Move::WordLeft);
            let r = (m.line as int, m.col as int);
            let content = line_content(text, r.0);
            &&& inside(text, r.0, r.1)
            &&& r.1 > 0 ==> !word_char(content[r.1 - 1])
            &&& {
                ||| exists|k: int|
                    #![trigger content.take(k)]
                    {
                        &&& r.1 < k <= content.len()
                        &&& !earlier(here, (r.0, k))
                        &&& no_word_between(text, (r.0, k), here)
                        &&& forall|i: int| r.1 <= i < k ==> word_char(#[trigger] content[i])
                    }
                ||| r == (0int, 0int) && no_word_between(text, r, here)
            }
        }),
{
    crate::rope::lemma_breaks_monotone(text, 0, text.len() as int);
    lemma_skips_left(text, c.line as int, c.col as int);
    let p = skip_left(text, c.line as int, c.col as int);
    let content = line_content(text, p.0);
    lemma_word_run_left(content, p.1);
    lemma_content_len(text, p.0);
    assert(content.take(p.1).len() == p.1);
}

} // verus!
