//! What the editing keys do to the lines of a text: Enter splits a line,
//! Backspace and Delete join two at their border, and typing replaces what is
//! selected.
use crate::buffer::{
    edit_then_undo, origin_is_kept, position_of, run_of_edits_then_undo, BufferState,
};
use crate::caret::{merged, merged_carets_keep_positions, stands_at, Caret};
use crate::fan_out::{
    ahead_of, back_from, break_char, every_caret_edits_at_its_own_place, fanned_out, index_at,
    inside_crlf, lemma_plan_takes_out, on_its_line, plan_of, plans_of, put_in_count, ranges_apart,
    shifted_by, takes_out, Stroke,
};
use crate::history::{cut_out, put_in, Op};
use crate::pane::{all_carets, caret_at_index, noted, without_selection, EditorPane};
use crate::rope::{
    breaks_before, ends_line, lemma_breaks_monotone, lemma_line_bounds, lemma_line_start,
    lemma_line_start_past, lemma_own_line, lemma_seek_line, line_start, line_total, line_with_break,
};
use vstd::prelude::*;

verus! {

// ---------------------------------------------------------------------------
// Lines of two texts.

/// Whether lines end at the same places of two texts after position `from` and
/// up to `to`, which are `shift` further on in the second one.
pub(crate) open spec fn same_ends(
    t: Seq<char>,
    u: Seq<char>,
    from: int,
    to: int,
    shift: int,
) -> bool {
    forall|m: int| from < m <= to ==> (#[trigger] ends_line(t, m)) == ends_line(u, m + shift)
}

/// Where lines end at the same places, as many of them end.
pub(crate) proof fn lemma_same_breaks(t: Seq<char>, u: Seq<char>, from: int, to: int, shift: int)
    requires
        0 <= from <= to,
        0 <= from + shift,
        same_ends(t, u, from, to, shift),
    ensures
        breaks_before(u, to + shift) - breaks_before(u, from + shift) == breaks_before(t, to)
            - breaks_before(t, from),
    decreases to,
{
    if from < to {
        assert forall|m: int| from < m <= to - 1 implies (#[trigger] ends_line(t, m)) == ends_line(
            u,
            m + shift,
        ) by {}
        lemma_same_breaks(t, u, from, to - 1, shift);
        assert(ends_line(t, to) == ends_line(u, to + shift));
        assert(breaks_before(u, to + shift) == breaks_before(u, to + shift - 1) + if ends_line(
            u,
            to + shift,
        ) {
            1int
        } else {
            0
        });
    }
}

/// A line starts at the first position that is on it.
pub(crate) proof fn lemma_starts_there(s: Seq<char>, n: int, k: int)
    requires
        0 <= k <= s.len(),
        breaks_before(s, k) == n,
        k > 0 ==> breaks_before(s, k - 1) < n,
    ensures
        line_start(s, n) == k,
{
    lemma_seek_line(s, n, 0);
    let a = line_start(s, n);
    if a < k {
        lemma_breaks_monotone(s, a, k - 1);
    }
}

/// Where a line starts, told from how many lines end before a position.
proof fn lemma_start_side(s: Seq<char>, n: int, i: int)
    requires
        0 <= n < line_total(s),
        0 <= i <= s.len(),
    ensures
        n <= breaks_before(s, i) ==> line_start(s, n) <= i,
        n > breaks_before(s, i) ==> line_start(s, n) > i,
{
    lemma_line_start(s, n);
    let a = line_start(s, n);
    if a <= i {
        lemma_breaks_monotone(s, a, i);
    }
}

// ---------------------------------------------------------------------------
// Splitting.

/// Whether `u` is `t` with a line split at a column: what is before the column
/// stays on the line, what follows goes to a line of its own, and the other
/// lines are as they were.
pub open spec fn split_at(t: Seq<char>, u: Seq<char>, line: int, col: int) -> bool {
    let i = line_start(t, line) + col;
    &&& line_total(u) == line_total(t) + 1
    &&& forall|n: int|
        0 <= n < line ==> (#[trigger] line_with_break(u, n)) == line_with_break(t, n)
    &&& line_with_break(u, line) == line_with_break(t, line).take(col).push(
        break_char(t, i, i),
    )
    &&& line_with_break(u, line + 1) == line_with_break(t, line).skip(col)
    &&& forall|n: int|
        line < n < line_total(t) ==> (#[trigger] line_with_break(t, n)) == line_with_break(u, n + 1)
}

/// A line break at position `i` splits the line there.
pub(crate) proof fn lemma_split(t: Seq<char>, i: int)
    requires
        0 <= i <= t.len(),
    ensures
        ({
            let line = breaks_before(t, i) as int;
            &&& split_at(
                t,
                put_in(t, i, seq![break_char(t, i, i)]),
                line,
                i - line_start(t, line),
            )
            &&& breaks_before(put_in(t, i, seq![break_char(t, i, i)]), i + 1) == line + 1
        }),
{
    let ch = break_char(t, i, i);
    let u = put_in(t, i, seq![ch]);
    let line = breaks_before(t, i) as int;
    let total = line_total(t) as int;
    assert forall|m: int| 0 < m <= i implies (#[trigger] ends_line(t, m)) == ends_line(u, m) by {
        assert(u[m - 1] == t[m - 1]);
        if m < i {
            assert(u[m] == t[m]);
        } else {
            assert(u[m] == ch);
        }
    }
    assert forall|m: int| i < m <= t.len() implies (#[trigger] ends_line(t, m)) == ends_line(
        u,
        m + 1,
    ) by {
        assert(u[m] == t[m - 1]);
        if m < t.len() {
            assert(u[m + 1] == t[m]);
        }
    }
    assert(u[i] == ch);
    if i < t.len() {
        assert(u[i + 1] == t[i]);
    }
    assert(ends_line(u, i + 1));
    assert forall|j: int| 0 <= j <= i implies #[trigger] breaks_before(u, j) == breaks_before(
        t,
        j,
    ) by {
        lemma_same_breaks(t, u, 0, j, 0);
    }
    assert(breaks_before(u, i) == breaks_before(t, i));
    assert(breaks_before(u, i + 1) == line + 1);
    assert forall|j: int| i <= j <= t.len() implies breaks_before(u, j + 1) == #[trigger]
        breaks_before(t, j) + 1 by {
        lemma_same_breaks(t, u, i, j, 1);
    }
    assert(breaks_before(u, t.len() + 1int) == breaks_before(t, t.len() as int) + 1);
    lemma_own_line(t, i);
    lemma_line_start(t, line);
    // Where the lines start.
    assert forall|n: int| 0 <= n <= line implies #[trigger] line_start(u, n) == line_start(t, n) by {
        lemma_start_side(t, n, i);
        lemma_line_start(t, n);
        let k = line_start(t, n);
        if k > 0 {
            assert(breaks_before(t, k - 1) < n);
            assert(breaks_before(u, k - 1) == breaks_before(t, k - 1));
        }
        assert(breaks_before(u, k) == breaks_before(t, k));
        lemma_starts_there(u, n, k);
    }
    lemma_starts_there(u, line + 1, i + 1);
    assert forall|n: int| line < n <= total implies line_start(u, n + 1) == #[trigger] line_start(
        t,
        n,
    ) + 1 by {
        if n < total {
            lemma_start_side(t, n, i);
            lemma_line_start(t, n);
            let k = line_start(t, n);
            assert(breaks_before(u, k + 1) == breaks_before(t, k) + 1);
            assert(breaks_before(u, k - 1 + 1) == breaks_before(t, k - 1) + 1);
            lemma_starts_there(u, n + 1, k + 1);
        } else {
            lemma_line_start_past(t, n);
            lemma_line_start_past(u, n + 1);
        }
    }
    // What they hold.
    let start = line_start(t, line);
    let col = i - start;
    lemma_line_bounds(t, line);
    assert(line_start(u, line) == start);
    assert(line_with_break(u, line) =~= line_with_break(t, line).take(col).push(ch));
    assert(line_start(u, line + 1 + 1) == line_start(t, line + 1) + 1);
    assert(line_with_break(u, line + 1) =~= line_with_break(t, line).skip(col));
    assert forall|n: int| 0 <= n < line implies (#[trigger] line_with_break(u, n))
        == line_with_break(t, n) by {
        lemma_line_bounds(t, n);
        lemma_start_side(t, n + 1, i);
        assert(line_start(u, n) == line_start(t, n));
        assert(line_start(u, n + 1) == line_start(t, n + 1));
        assert(line_with_break(u, n) =~= line_with_break(t, n));
    }
    assert forall|n: int| line < n < total implies (#[trigger] line_with_break(t, n))
        == line_with_break(u, n + 1) by {
        lemma_line_bounds(t, n);
        lemma_start_side(t, n, i);
        assert(line_start(u, n + 1) == line_start(t, n) + 1);
        assert(line_start(u, n + 1 + 1) == line_start(t, n + 1) + 1);
        assert(line_with_break(t, n) =~= line_with_break(u, n + 1));
    }
}

/// Whether a pane has one caret, without a selection, that stands on a line of
/// its text.
pub open spec fn stands(p: EditorPane, t: Seq<char>) -> bool {
    let i = index_at(t, p.caret().at()) as int;
    &&& p.secondary@.len() == 0
    &&& p.anchor is None
    &&& p.cursor.line < line_total(t)
    &&& i <= t.len()
    &&& breaks_before(t, i) == p.cursor.line
}

/// Enter splits the line at the cursor, and the cursor moves to the start of
/// the new line.
pub proof fn enter_splits_the_line(p: EditorPane, b: BufferState, q: EditorPane, c: BufferState)
    requires
        stands(p, b.text),
        p.broken(b, q, c),
    ensures
        split_at(b.text, c.text, p.cursor.line as int, p.cursor.col as int),
        q.caret() == Caret::placed(p.cursor.line + 1, 0),
{
    lemma_line_start(b.text, p.cursor.line as int);
    lemma_split(b.text, index_at(b.text, p.caret().at()) as int);
}

// ---------------------------------------------------------------------------
// Joining.

/// Whether `u` is `t` with a line joined to the one before it, whose break of
/// `width` characters is gone; the other lines are as they were.
pub open spec fn joined_at(t: Seq<char>, u: Seq<char>, line: int, width: int) -> bool {
    let above = line_with_break(t, line - 1);
    &&& line_total(u) == line_total(t) - 1
    &&& forall|n: int|
        0 <= n < line - 1 ==> (#[trigger] line_with_break(u, n)) == line_with_break(t, n)
    &&& line_with_break(u, line - 1) == above.take(above.len() - width) + line_with_break(t, line)
    &&& forall|n: int|
        line < n < line_total(t) ==> (#[trigger] line_with_break(t, n)) == line_with_break(u, n - 1)
}

/// The number of characters of the line break that ends before position `i`.
pub open spec fn break_width(t: Seq<char>, i: int) -> int {
    i - back_from(t, i as nat)
}

/// Whether a line ends before position `i`, and without its break no carriage
/// return comes to stand before a line feed.
pub open spec fn clean_break(t: Seq<char>, i: int) -> bool {
    let r = i - break_width(t, i);
    &&& 1 <= i <= t.len()
    &&& ends_line(t, i)
    &&& !(r > 0 && t[r - 1] == '\r' && i < t.len() && t[i] == '\n')
}

/// Without the break before position `i` the lines there are joined.
proof fn lemma_join(t: Seq<char>, i: int)
    requires
        clean_break(t, i),
    ensures
        ({
            let line = breaks_before(t, i) as int;
            let width = break_width(t, i);
            let u = cut_out(t, i - width, i);
            &&& line > 0
            &&& line_start(t, line) == i
            &&& joined_at(t, u, line, width)
            &&& position_of(u, i - width) == (
                line - 1,
                line_with_break(t, line - 1).len() - width,
            )
        }),
{
    let width = break_width(t, i);
    let r = i - width;
    let u = cut_out(t, r, i);
    let line = breaks_before(t, i) as int;
    let total = line_total(t) as int;
    assert(breaks_before(t, i) == breaks_before(t, i - 1) + 1);
    if width == 2 {
        assert(!ends_line(t, i - 1));
        assert(breaks_before(t, i - 1) == breaks_before(t, r));
    }
    assert(breaks_before(t, i) == breaks_before(t, r) + 1);
    lemma_breaks_monotone(t, 0, r);
    lemma_starts_there(t, line, i);
    assert forall|m: int| 0 < m <= r implies (#[trigger] ends_line(t, m)) == ends_line(u, m) by {
        assert(u[m - 1] == t[m - 1]);
        if m < r {
            assert(u[m] == t[m]);
        } else if i < t.len() {
            assert(u[m] == t[i]);
        }
    }
    assert forall|m: int| i < m <= t.len() implies (#[trigger] ends_line(t, m)) == ends_line(
        u,
        m - width,
    ) by {
        assert(u[m - width - 1] == t[m - 1]);
        if m < t.len() {
            assert(u[m - width] == t[m]);
        }
    }
    assert forall|j: int| 0 <= j <= r implies #[trigger] breaks_before(u, j) == breaks_before(
        t,
        j,
    ) by {
        lemma_same_breaks(t, u, 0, j, 0);
    }
    assert forall|j: int| i <= j <= t.len() implies breaks_before(u, j - width) == #[trigger]
        breaks_before(t, j) - 1 by {
        lemma_same_breaks(t, u, i, j, -width);
        assert(breaks_before(u, r) == breaks_before(t, r));
    }
    assert(breaks_before(u, t.len() - width) == breaks_before(t, t.len() as int) - 1);
    lemma_own_line(t, i);
    // Where the lines start.
    assert forall|n: int| 0 <= n < line implies #[trigger] line_start(u, n) == line_start(t, n) by {
        lemma_start_side(t, n, r);
        lemma_line_start(t, n);
        let k = line_start(t, n);
        if k > 0 {
            assert(breaks_before(t, k - 1) < n);
            assert(breaks_before(u, k - 1) == breaks_before(t, k - 1));
        }
        assert(breaks_before(u, k) == breaks_before(t, k));
        lemma_starts_there(u, n, k);
    }
    assert forall|n: int| line < n <= total implies line_start(u, n - 1) == #[trigger] line_start(
        t,
        n,
    ) - width by {
        if n < total {
            lemma_start_side(t, n, i);
            lemma_line_start(t, n);
            let k = line_start(t, n);
            assert(breaks_before(u, k - width) == breaks_before(t, k) - 1);
            assert(breaks_before(u, k - 1 - width) == breaks_before(t, k - 1) - 1);
            lemma_starts_there(u, n - 1, k - width);
        } else {
            lemma_line_start_past(t, n);
            lemma_line_start_past(u, n - 1);
        }
    }
    // What they hold.
    let above = line_with_break(t, line - 1);
    lemma_line_bounds(t, line - 1);
    lemma_line_bounds(t, line);
    lemma_start_side(t, line - 1, r);
    assert(line_start(u, line - 1) == line_start(t, line - 1));
    assert(line_start(u, line + 1 - 1) == line_start(t, line + 1) - width);
    assert(line_with_break(u, line - 1) =~= above.take(above.len() - width) + line_with_break(
        t,
        line,
    ));
    assert forall|n: int| 0 <= n < line - 1 implies (#[trigger] line_with_break(u, n))
        == line_with_break(t, n) by {
        lemma_line_bounds(t, n);
        lemma_start_side(t, n + 1, r);
        assert(line_start(u, n) == line_start(t, n));
        assert(line_start(u, n + 1) == line_start(t, n + 1));
        assert(line_with_break(u, n) =~= line_with_break(t, n));
    }
    assert forall|n: int| line < n < total implies (#[trigger] line_with_break(t, n))
        == line_with_break(u, n - 1) by {
        lemma_line_bounds(t, n);
        lemma_start_side(t, n, i);
        assert(line_start(u, n - 1) == line_start(t, n) - width);
        assert(line_start(u, n + 1 - 1) == line_start(t, n + 1) - width);
        assert(line_with_break(t, n) =~= line_with_break(u, n - 1));
    }
}

/// Backspace at the start of a line joins it with the line before, whether that
/// ends in one character or in a CRLF, and the cursor moves to where they join.
/// Left out is a break without which a carriage return and a line feed would
/// make one.
pub proof fn backspace_joins_lines(p: EditorPane, b: BufferState, q: EditorPane, c: BufferState)
    requires
        stands(p, b.text),
        p.cursor.line > 0,
        p.cursor.col == 0,
        clean_break(b.text, line_start(b.text, p.cursor.line as int)),
        p.backspaced(b, q, c),
    ensures
        ({
            let width = break_width(b.text, line_start(b.text, p.cursor.line as int));
            &&& joined_at(b.text, c.text, p.cursor.line as int, width)
            &&& q.caret() == Caret::placed(
                p.cursor.line - 1,
                line_with_break(b.text, p.cursor.line - 1).len() - width,
            )
        }),
{
    let i = line_start(b.text, p.cursor.line as int);
    let r = i - break_width(b.text, i);
    lemma_join(b.text, i);
    assert(b.text.subrange(r, i).len() == i - r);
    assert(c.text == cut_out(b.text, r, i));
}

/// Delete at the end of a line joins it with the next one, whether the line ends
/// in one character or in a CRLF, and the cursor stays. The same line breaks are
/// left out.
pub proof fn delete_joins_lines(p: EditorPane, b: BufferState, q: EditorPane, c: BufferState)
    requires
        stands(p, b.text),
        !inside_crlf(b.text, index_at(b.text, p.caret().at())),
        clean_break(b.text, ahead_of(b.text, index_at(b.text, p.caret().at())) as int),
        index_at(b.text, p.caret().at()) < b.text.len(),
        p.deleted(b, q, c),
    ensures
        ({
            let i = index_at(b.text, p.caret().at());
            joined_at(b.text, c.text, p.cursor.line + 1, ahead_of(b.text, i) - i)
        }),
        q == p,
{
    let t = b.text;
    let i = index_at(t, p.caret().at()) as int;
    let e = ahead_of(t, i as nat) as int;
    assert(break_width(t, e) == e - i);
    lemma_join(t, e);
    if e == i + 2 {
        assert(!ends_line(t, i + 1));
        assert(breaks_before(t, i + 1) == breaks_before(t, i));
    }
    assert(breaks_before(t, e) == breaks_before(t, e - 1) + 1);
    assert(t.subrange(i, e).len() == e - i);
    assert(c.text == cut_out(t, i, e));
}

// ---------------------------------------------------------------------------
// Typing.

/// The ends of what a caret has selected, or its place twice.
pub open spec fn span_of(c: Caret) -> ((usize, usize), (usize, usize)) {
    match c.selection() {
        Some(sel) => sel,
        None => (c.at(), c.at()),
    }
}

/// Whether a pane has one caret, whose selection lies within its text.
pub open spec fn selects(p: EditorPane, t: Seq<char>) -> bool {
    let (from, to) = span_of(p.caret());
    let s = index_at(t, from) as int;
    let e = index_at(t, to) as int;
    &&& p.secondary@.len() == 0
    &&& from.0 < line_total(t)
    &&& s <= e <= t.len()
}

/// A line that starts before a cut starts where it did.
pub(crate) proof fn lemma_cut_start(t: Seq<char>, line: int, s: int, e: int)
    requires
        0 <= line < line_total(t),
        line_start(t, line) <= s < e <= t.len(),
        !(line_start(t, line) == s && s > 0 && t[s - 1] == '\r' && e < t.len() && t[e] == '\n'),
    ensures
        line < line_total(cut_out(t, s, e)),
        line_start(cut_out(t, s, e), line) == line_start(t, line),
{
    let u = cut_out(t, s, e);
    let k = line_start(t, line);
    lemma_line_start(t, line);
    assert forall|m: int| 0 < m <= k implies (#[trigger] ends_line(t, m)) == ends_line(u, m) by {
        assert(u[m - 1] == t[m - 1]);
        if m < s {
            assert(u[m] == t[m]);
        } else if e < t.len() {
            assert(u[m] == t[e]);
        }
    }
    lemma_same_breaks(t, u, 0, k, 0);
    if k > 0 {
        lemma_same_breaks(t, u, 0, k - 1, 0);
    }
    lemma_starts_there(u, line, k);
    lemma_breaks_monotone(u, k, u.len() as int);
}

/// Without its selection the text is what is before and after it, and the
/// cursor stands between them.
proof fn lemma_selection_goes(p: EditorPane, b: BufferState)
    requires
        selects(p, b.text),
    ensures
        ({
            let (from, to) = span_of(p.caret());
            let s = index_at(b.text, from) as int;
            let e = index_at(b.text, to) as int;
            let (cut, cursor) = without_selection(noted(b, p.caret()), p.caret());
            &&& cut.text == cut_out(b.text, s, e)
            &&& (cursor.line, cursor.col) == from
        }),
{
    let t = b.text;
    let (from, to) = span_of(p.caret());
    let s = index_at(t, from) as int;
    let e = index_at(t, to) as int;
    lemma_line_start(t, from.0 as int);
    if s < e {
        assert(t.subrange(s, e).len() == e - s);
    } else {
        assert(cut_out(t, s, e) =~= t);
    }
}

/// Typing a character puts it in place of what is selected, or at the cursor if
/// nothing is, and the cursor moves on behind it.
pub proof fn typing_replaces_the_selection(
    p: EditorPane,
    b: BufferState,
    ch: char,
    q: EditorPane,
    c: BufferState,
)
    requires
        selects(p, b.text),
        p.inserted(b, ch, q, c),
    ensures
        ({
            let (from, to) = span_of(p.caret());
            &&& c.text == b.text.take(index_at(b.text, from) as int) + seq![ch] + b.text.skip(
                index_at(b.text, to) as int,
            )
            &&& q.caret() == Caret::placed(from.0 as int, from.1 + 1)
        }),
{
    let t = b.text;
    let (from, to) = span_of(p.caret());
    let s = index_at(t, from) as int;
    let e = index_at(t, to) as int;
    lemma_selection_goes(p, b);
    lemma_line_start(t, from.0 as int);
    let u = cut_out(t, s, e);
    assert(u.take(s) =~= t.take(s));
    assert(u.skip(s) =~= t.skip(e));
    assert(c.text == put_in(u, s, seq![ch]));
}

/// Backspace and Delete take out what is selected, and the cursor stands where
/// it was.
pub proof fn deleting_takes_out_the_selection(
    p: EditorPane,
    b: BufferState,
    q: EditorPane,
    c: BufferState,
)
    requires
        selects(p, b.text),
        p.anchor is Some,
        p.backspaced(b, q, c) || p.deleted(b, q, c),
    ensures
        ({
            let (from, to) = span_of(p.caret());
            &&& c.text == b.text.take(index_at(b.text, from) as int) + b.text.skip(
                index_at(b.text, to) as int,
            )
            &&& q.caret() == Caret::placed(from.0 as int, from.1 as int)
        }),
{
    lemma_selection_goes(p, b);
}

/// A line break is an undo step of its own, together with the selection that it
/// replaced: undoing it gives the text back, whatever was typed before.
pub proof fn enter_is_one_step(p: EditorPane, b: BufferState, q: EditorPane, c: BufferState)
    requires
        b.wf(),
        selects(p, b.text),
        b.text.len() < usize::MAX,
        p.broken(b, q, c),
    ensures
        c.can_undo(),
        c.undone().text == b.text,
        c.undone().undo == b.finalized().undo,
{
    let t = b.text;
    let closed = b.finalized();
    let (from, to) = span_of(p.caret());
    let s = index_at(t, from);
    let e = index_at(t, to);
    lemma_line_start(t, from.0 as int);
    lemma_selection_goes(p, closed);
    origin_is_kept(b, Op::Insert { at: 0, text: Seq::empty() });
    let ready = noted(closed, p.caret());
    assert(ready.wf());
    let left = cut_out(t, s as int, e as int);
    let insert = Op::Insert { at: s, text: seq![break_char(left, s as int, s as int)] };
    if s < e {
        let remove = Op::Remove { at: s, text: t.subrange(s as int, e as int) };
        origin_is_kept(ready, remove);
        let cut = ready.edited(remove);
        assert(remove.continued_by(insert));
        assert(cut.open->0.ops =~= seq![remove]);
        run_of_edits_then_undo(cut, insert);
        edit_then_undo(ready, remove);
        assert(c == cut.edited(insert).finalized());
        assert(cut.edited(insert).finalized().undone() == cut.edited(insert).undone());
    } else {
        edit_then_undo(ready, insert);
        assert(c == ready.edited(insert).finalized());
        assert(ready.edited(insert).finalized().undone() == ready.edited(insert).undone());
    }
}

/// A character that ends no line, put in on a line, leaves the start of the line
/// where it is.
pub(crate) proof fn lemma_typed_start(t: Seq<char>, line: int, i: int, ch: char)
    requires
        0 <= line < line_total(t),
        line_start(t, line) <= i <= t.len(),
        !crate::rope::is_break(ch),
    ensures
        line < line_total(put_in(t, i, seq![ch])),
        line_start(put_in(t, i, seq![ch]), line) == line_start(t, line),
{
    let u = put_in(t, i, seq![ch]);
    let k = line_start(t, line);
    lemma_line_start(t, line);
    assert(u[i] == ch);
    assert forall|m: int| 0 < m <= k implies (#[trigger] ends_line(t, m)) == ends_line(u, m) by {
        assert(u[m - 1] == t[m - 1]);
        if m < i {
            assert(u[m] == t[m]);
        } else {
            assert(u[m] == ch);
            assert(ends_line(t, k));
        }
    }
    lemma_same_breaks(t, u, 0, k, 0);
    if k > 0 {
        lemma_same_breaks(t, u, 0, k - 1, 0);
    }
    lemma_starts_there(u, line, k);
    lemma_breaks_monotone(u, k, u.len() as int);
}

// ---------------------------------------------------------------------------
// Every caret at once.

/// Whether a key was pressed that makes a stroke at every caret of a pane: a
/// character that is typed, Enter, Backspace or Delete.
pub open spec fn pressed(
    p: EditorPane,
    b: BufferState,
    stroke: Stroke,
    q: EditorPane,
    c: BufferState,
) -> bool {
    match stroke {
        Stroke::Replace(x) => x.len() == 1 && p.inserted(b, x[0], q, c),
        Stroke::Break => p.broken(b, q, c),
        Stroke::Backspace => p.backspaced(b, q, c),
        Stroke::Delete => p.deleted(b, q, c),
    }
}

/// A stroke at a lone caret is one replacement.
proof fn lemma_lone_stroke(b: BufferState, c: Caret, stroke: Stroke)
    requires
        plan_of(b.text, c, stroke).start <= plan_of(b.text, c, stroke).end <= b.text.len(),
        b.text.len() + plan_of(b.text, c, stroke).text.len() <= usize::MAX,
    ensures
        ({
            let p = plan_of(b.text, c, stroke);
            fanned_out(b, seq![c], stroke).buffer.text == b.text.take(p.start as int) + p.text
                + b.text.skip(p.end as int)
        }),
{
    let t = b.text;
    let carets = seq![c];
    let plans = plans_of(t, carets, stroke);
    let p = plan_of(t, c, stroke);
    assert(plans =~= seq![p]);
    let slot = crate::fan_out::Slot { slot: 0, plan: p };
    let slots = crate::fan_out::by_start(plans);
    assert(plans.drop_last() =~= Seq::empty());
    let none = crate::fan_out::by_start(plans.drop_last());
    assert(none =~= Seq::empty());
    assert(crate::fan_out::place_of(none, p) == 0);
    assert(slots =~= seq![slot]);
    assert(slots.drop_last() =~= Seq::empty());
    assert(slots.last() == slot);
    let done = t.take(p.start as int) + p.text + t.skip(p.end as int);
    assert(crate::fan_out::woven(t, slots.drop_last()) =~= Seq::empty());
    assert(t.subrange(0, p.start as int) =~= t.take(p.start as int));
    assert(crate::fan_out::woven(t, slots) =~= t.take(p.start as int) + p.text);
    assert(crate::fan_out::replaced(t, slots) =~= done);
    assert forall|k: int| 0 <= k <= slots.len() implies (#[trigger] crate::fan_out::replaced(
        t,
        slots.take(k),
    )).len() <= usize::MAX by {
        if k == 0 {
            assert(slots.take(k) =~= Seq::empty());
            assert(crate::fan_out::replaced(t, slots.take(k)) =~= t);
        } else {
            assert(slots.take(k) =~= slots);
        }
    }
    crate::fan_out::edits_make_one_replacement(b, slots, 1);
}

/// With one caret a key makes the same of the text as it makes at each of
/// several.
proof fn lemma_lone_key(
    p: EditorPane,
    b: BufferState,
    stroke: Stroke,
    q: EditorPane,
    c: BufferState,
    lo: int,
    hi: int,
)
    requires
        p.secondary@.len() == 0,
        b.text.len() + put_in_count(stroke) <= usize::MAX,
        on_its_line(b.text, p.caret()),
        takes_out(b.text, p.caret(), stroke, lo, hi),
        0 <= lo <= hi <= b.text.len(),
        pressed(p, b, stroke, q, c),
    ensures
        c.text == fanned_out(b, seq![p.caret()], stroke).buffer.text,
{
    let t = b.text;
    let caret = p.caret();
    lemma_plan_takes_out(t, caret, stroke, lo, hi);
    lemma_lone_stroke(b, caret, stroke);
    let plan = plan_of(t, caret, stroke);
    lemma_line_start(t, p.cursor.line as int);
    if p.anchor is Some {
        lemma_line_start(t, (p.anchor->0).0 as int);
    }
    match stroke {
        Stroke::Replace(x) => {
            lemma_selection_goes(p, b);
            let u = cut_out(t, lo, hi);
            assert(x =~= seq![x[0]]);
            assert(u.take(lo) =~= t.take(lo));
            assert(u.skip(lo) =~= t.skip(hi));
            assert(c.text == put_in(u, lo, x));
        },
        Stroke::Break => {
            lemma_selection_goes(p, b.finalized());
            let u = cut_out(t, lo, hi);
            assert(u.take(lo) =~= t.take(lo));
            assert(u.skip(lo) =~= t.skip(hi));
            if lo > 0 {
                assert(u[lo - 1] == t[lo - 1]);
            }
            if hi < t.len() {
                assert(u[lo] == t[hi]);
            }
            assert(break_char(u, lo, lo) == break_char(t, lo, hi));
            assert(c.text == put_in(u, lo, plan.text));
        },
        _ => {
            if p.anchor is Some {
                lemma_selection_goes(p, b);
            } else if lo < hi {
                assert(t.subrange(lo, hi).len() == hi - lo);
            }
            assert(t.take(lo) + t.skip(lo) =~= t);
            assert(t.take(lo) + plan.text + t.skip(hi) =~= t.take(lo) + t.skip(hi));
        },
    }
}

/// A key that is typed, Enter, Backspace and Delete act at every caret, whether
/// there is one or there are many. Each caret takes out its own characters and
/// puts in what was typed; every other character of the text is kept, shifted by
/// what the edits before it added and took away; and the text has the length
/// that this gives. With several carets, each then stands behind what was put in
/// for it.
pub proof fn keys_act_at_every_caret(
    p: EditorPane,
    b: BufferState,
    stroke: Stroke,
    q: EditorPane,
    c: BufferState,
    lo: Seq<int>,
    hi: Seq<int>,
)
    requires
        pressed(p, b, stroke, q, c),
        b.text.len() + (p.secondary@.len() + 1) * put_in_count(stroke) <= usize::MAX,
        lo.len() == p.secondary@.len() + 1,
        ranges_apart(lo, hi, b.text.len()),
        on_its_line(b.text, p.caret()),
        takes_out(b.text, p.caret(), stroke, lo[0], hi[0]),
        forall|i: int|
            0 <= i < p.secondary@.len() ==> on_its_line(b.text, #[trigger] p.secondary@[i])
                && takes_out(b.text, p.secondary@[i], stroke, lo[i + 1], hi[i + 1]),
    ensures
        ({
            let t = b.text;
            let u = c.text;
            let count = put_in_count(stroke);
            &&& u.len() == t.len() + shifted_by(lo, hi, count, t.len() as int)
            &&& forall|m: int|
                0 <= m < t.len() && (forall|i: int|
                    0 <= i < lo.len() ==> !(#[trigger] lo[i] <= m < hi[i])) ==> 0 <= m
                    + #[trigger] shifted_by(lo, hi, count, m) < u.len() && u[m + shifted_by(
                    lo,
                    hi,
                    count,
                    m,
                )] == t[m]
            &&& forall|i: int|
                0 <= i < lo.len() ==> ({
                    let place = #[trigger] lo[i] + shifted_by(lo, hi, count, lo[i]) + count - if lo[i]
                        == hi[i] {
                        count as int
                    } else {
                        0
                    };
                    &&& count <= place <= u.len()
                    &&& stroke matches Stroke::Replace(x) ==> u[place - 1] == x[0]
                    &&& stroke is Break ==> u[place - 1] == if lo[i] > 0 && t[lo[i] - 1] == '\r'
                        && !(hi[i] < t.len() && t[hi[i]] == '\n') {
                        '\r'
                    } else {
                        '\n'
                    }
                    &&& p.secondary@.len() > 0 ==> {
                        let (line, col) = position_of(u, place);
                        let at = (line as usize, col as usize);
                        if i == 0 {
                            &&& (q.cursor.line, q.cursor.col) == at
                            &&& q.cursor.target_col == q.cursor.col
                            &&& q.anchor is None
                        } else {
                            at == (q.cursor.line, q.cursor.col) || stands_at(q.secondary@, at)
                        }
                    }
                })
        }),
{
    let t = b.text;
    let carets = all_carets(p);
    let count = put_in_count(stroke);
    assert forall|i: int| 0 <= i < carets.len() implies on_its_line(t, #[trigger] carets[i])
        && takes_out(t, carets[i], stroke, lo[i], hi[i]) by {
        if i > 0 {
            assert(carets[i] == p.secondary@[i - 1]);
            assert(on_its_line(t, p.secondary@[i - 1]));
            assert(lo[i - 1 + 1] == lo[i]);
        }
    }
    every_caret_edits_at_its_own_place(b, carets, stroke, lo, hi);
    let batch = fanned_out(b, carets, stroke);
    let u = batch.buffer.text;
    if p.secondary@.len() == 0 {
        assert(carets =~= seq![p.caret()]);
        assert(lo[0] <= hi[0] <= t.len());
        assert((p.secondary@.len() + 1) * count == count) by (nonlinear_arith)
            requires
                p.secondary@.len() == 0,
        ;
        lemma_lone_key(p, b, stroke, q, c, lo[0], hi[0]);
    } else if stroke is Replace {
        assert(stroke->Replace_0 =~= seq![stroke->Replace_0[0]]);
    }
    assert(c.text == u);
    assert forall|i: int| 0 <= i < lo.len() implies ({
        let place = #[trigger] lo[i] + shifted_by(lo, hi, count, lo[i]) + count - if lo[i] == hi[i] {
            count as int
        } else {
            0
        };
        &&& count <= place <= u.len()
        &&& stroke matches Stroke::Replace(x) ==> u[place - 1] == x[0]
        &&& stroke is Break ==> u[place - 1] == if lo[i] > 0 && t[lo[i] - 1] == '\r' && !(hi[i]
            < t.len() && t[hi[i]] == '\n') {
            '\r'
        } else {
            '\n'
        }
        &&& p.secondary@.len() > 0 ==> {
            let (line, col) = position_of(u, place);
            let at = (line as usize, col as usize);
            if i == 0 {
                &&& (q.cursor.line, q.cursor.col) == at
                &&& q.cursor.target_col == q.cursor.col
                &&& q.anchor is None
            } else {
                at == (q.cursor.line, q.cursor.col) || stands_at(q.secondary@, at)
            }
        }
    }) by {
        let place = batch.places[i];
        if stroke is Replace {
            assert(u.subrange(place - 1, place as int)[0] == u[place - 1]);
        }
        if p.secondary@.len() > 0 {
            let placed = batch.places.map_values(|k: nat| caret_at_index(u, k as int));
            assert(placed[i] == caret_at_index(u, place as int));
            if i > 0 {
                let rest = placed.skip(1);
                assert(rest[i - 1] == placed[i]);
                merged_carets_keep_positions(placed[0].at(), rest);
                assert(rest[i - 1].at() != placed[0].at() ==> stands_at(
                    merged(placed[0].at(), rest),
                    rest[i - 1].at(),
                ));
            }
        }
    }
}

/// How many of the carets stand before position `m` of a text.
pub open spec fn carets_before(t: Seq<char>, carets: Seq<Caret>, m: int) -> nat
    decreases carets.len(),
{
    if carets.len() == 0 {
        0
    } else {
        carets_before(t, carets.drop_last(), m) + if index_at(t, carets.last().at()) < m {
            1nat
        } else {
            0nat
        }
    }
}

proof fn lemma_carets_before(t: Seq<char>, carets: Seq<Caret>, lo: Seq<int>, hi: Seq<int>, m: int)
    requires
        lo.len() == hi.len() == carets.len(),
        forall|i: int|
            0 <= i < carets.len() ==> #[trigger] lo[i] == index_at(t, carets[i].at()) && hi[i]
                == lo[i] + 1,
    ensures
        shifted_by(lo, hi, 0, m) == -carets_before(t, carets, m),
    decreases carets.len(),
{
    if carets.len() > 0 {
        let n = carets.len() - 1;
        assert(lo[n] == index_at(t, carets[n].at()));
        assert forall|i: int| 0 <= i < n implies #[trigger] lo.drop_last()[i] == index_at(
            t,
            carets.drop_last()[i].at(),
        ) && hi.drop_last()[i] == lo.drop_last()[i] + 1 by {
            assert(lo[i] == index_at(t, carets[i].at()));
        }
        lemma_carets_before(t, carets.drop_last(), lo.drop_last(), hi.drop_last(), m);
    }
}

/// Delete takes out exactly the one character at each caret, however many there
/// are: the text is the old one without those characters, and shorter by the
/// number of the carets. The carets have no selections and stand at different
/// places, none at the end of the text nor in or before a CRLF.
pub proof fn delete_takes_one_character_at_each_caret(
    p: EditorPane,
    b: BufferState,
    q: EditorPane,
    c: BufferState,
)
    requires
        p.deleted(b, q, c),
        b.text.len() <= usize::MAX,
        forall|i: int|
            0 <= i < all_carets(p).len() ==> ({
                let k = index_at(b.text, (#[trigger] all_carets(p)[i]).at()) as int;
                &&& all_carets(p)[i].anchor is None
                &&& all_carets(p)[i].cursor.line < line_total(b.text)
                &&& k < b.text.len()
                &&& !(b.text[k] == '\r' && k + 1 < b.text.len() && b.text[k + 1] == '\n')
                &&& !(k > 0 && b.text[k - 1] == '\r' && b.text[k] == '\n')
            }),
        forall|i: int, j: int|
            0 <= i < j < all_carets(p).len() ==> index_at(b.text, (#[trigger] all_carets(p)[i]).at())
                != index_at(b.text, (#[trigger] all_carets(p)[j]).at()),
    ensures
        c.text.len() == b.text.len() - (1 + p.secondary@.len()),
        forall|m: int|
            0 <= m < b.text.len() && (forall|i: int|
                0 <= i < all_carets(p).len() ==> index_at(
                    b.text,
                    (#[trigger] all_carets(p)[i]).at(),
                ) != m) ==> 0 <= m - #[trigger] carets_before(b.text, all_carets(p), m)
                < c.text.len() && c.text[m - carets_before(b.text, all_carets(p), m)] == b.text[m],
{
    let t = b.text;
    let carets = all_carets(p);
    let lo = carets.map_values(|k: Caret| index_at(t, k.at()) as int);
    let hi = lo.map_values(|k: int| k + 1);
    assert forall|i: int| 0 <= i < carets.len() implies on_its_line(t, #[trigger] carets[i])
        && takes_out(t, carets[i], Stroke::Delete, lo[i], hi[i]) && 0 <= lo[i] < t.len() by {
        lemma_line_start(t, carets[i].cursor.line as int);
    }
    assert(ranges_apart(lo, hi, t.len())) by {
        assert forall|i: int| 0 <= i < lo.len() implies 0 <= #[trigger] lo[i] <= hi[i]
            <= t.len() by {
            assert(on_its_line(t, carets[i]));
        }
        assert forall|i: int, j: int|
            #![trigger lo[i], lo[j]]
            0 <= i < lo.len() && 0 <= j < lo.len() && i != j implies (lo[i] != lo[j] || hi[i]
            != hi[j]) && (hi[i] <= lo[j] || hi[j] <= lo[i]) by {
            let a = if i < j { i } else { j };
            let z = if i < j { j } else { i };
            assert(index_at(t, carets[a].at()) != index_at(t, carets[z].at()));
        }
    }
    assert(carets[0] == p.caret());
    assert forall|i: int| 0 <= i < p.secondary@.len() implies on_its_line(
        t,
        #[trigger] p.secondary@[i],
    ) && takes_out(t, p.secondary@[i], Stroke::Delete, lo[i + 1], hi[i + 1]) by {
        assert(carets[i + 1] == p.secondary@[i]);
    }
    assert((p.secondary@.len() + 1) * 0 == 0) by (nonlinear_arith);
    keys_act_at_every_caret(p, b, Stroke::Delete, q, c, lo, hi);
    assert forall|i: int| 0 <= i < carets.len() implies #[trigger] lo[i] == index_at(
        t,
        carets[i].at(),
    ) && hi[i] == lo[i] + 1 by {}
    lemma_carets_before(t, carets, lo, hi, t.len() as int);
    lemma_all_before(t, carets);
    assert forall|m: int|
        0 <= m < t.len() && (forall|i: int|
            0 <= i < carets.len() ==> index_at(t, (#[trigger] carets[i]).at()) != m) implies 0 <= m
        - #[trigger] carets_before(t, carets, m) < c.text.len() && c.text[m - carets_before(
        t,
        carets,
        m,
    )] == t[m] by {
        lemma_carets_before(t, carets, lo, hi, m);
        assert forall|i: int| 0 <= i < lo.len() implies !(#[trigger] lo[i] <= m < hi[i]) by {
            assert(index_at(t, carets[i].at()) != m);
        }
        assert(0 <= m + shifted_by(lo, hi, 0, m) < c.text.len());
    }
}

proof fn lemma_all_before(t: Seq<char>, carets: Seq<Caret>)
    requires
        forall|i: int|
            0 <= i < carets.len() ==> index_at(t, (#[trigger] carets[i]).at()) < t.len(),
    ensures
        carets_before(t, carets, t.len() as int) == carets.len(),
    decreases carets.len(),
{
    if carets.len() > 0 {
        assert(index_at(t, carets[carets.len() - 1].at()) < t.len());
        assert forall|i: int| 0 <= i < carets.len() - 1 implies index_at(
            t,
            (#[trigger] carets.drop_last()[i]).at(),
        ) < t.len() by {
            assert(carets[i] == carets.drop_last()[i]);
        }
        lemma_all_before(t, carets.drop_last());
    }
}

} // verus!
