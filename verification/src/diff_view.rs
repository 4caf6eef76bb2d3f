//! The diff view: a read-only, full-body surface showing the working tree's
//! changes against `HEAD`. A changed-files list on the left; a side-by-side
//! before/after diff of the selected file on the right.
//!
//! The diff itself comes from the `similar` crate, which yields exactly the
//! per-line op stream that maps onto two aligned columns.
use crate::git::{ChangeKind, ChangedFile, FileContents};
use crate::layout::{
    bordered, columns, cut_front, inside_border, side_by_side, split_front, Size, Way,
};
use crate::style::{Color, Rect, Run, Style};
use crate::text::{chars_of, string_of};
use crate::theme::Theme;
use similar::{ChangeTag, TextDiff};
use std::path::PathBuf;
use vstd::prelude::*;

verus! {

/// Width of the changed-files list column, in columns.
pub const LIST_WIDTH: u16 = 30;

/// One aligned row of a side-by-side diff. `Equal` lines sit across from each
/// other; `Delete` is left-only (removed), `Insert` is right-only (added).
#[derive(Debug, Clone, PartialEq, Eq)]
pub enum DiffRow {
    Equal(String),
    Delete(String),
    Insert(String),
}

/// Which of the two texts a line belongs to.
#[derive(Debug, Clone, Copy, PartialEq, Eq, Structural)]
pub enum Side {
    Both,
    Old,
    New,
}

impl DiffRow {
    /// Which of the two texts the row's line belongs to.
    pub open spec fn side(self) -> Side {
        match self {
            DiffRow::Equal(_) => Side::Both,
            DiffRow::Delete(_) => Side::Old,
            DiffRow::Insert(_) => Side::New,
        }
    }

    /// The row's line.
    pub open spec fn line(self) -> Seq<char> {
        match self {
            DiffRow::Equal(t) => t@,
            DiffRow::Delete(t) => t@,
            DiffRow::Insert(t) => t@,
        }
    }

    fn is_change(&self) -> (r: bool)
        ensures
            r == (self.side() != Side::Both),
    {
        match self {
            DiffRow::Equal(_) => false,
            _ => true,
        }
    }
}

/// The rows, each as the side and the line it shows.
pub open spec fn row_lines(rows: Seq<DiffRow>) -> Seq<(Side, Seq<char>)> {
    rows.map_values(|r: DiffRow| (r.side(), r.line()))
}

// ---------------------------------------------------------------------------
// Rows.

/// A text with every carriage return that a line feed follows taken out.
pub open spec fn unix_lines(s: Seq<char>) -> Seq<char>
    decreases s.len(),
{
    if s.len() == 0 {
        s
    } else if s.len() >= 2 && s[0] == '\r' && s[1] == '\n' {
        unix_lines(s.skip(1))
    } else {
        seq![s[0]] + unix_lines(s.skip(1))
    }
}

/// A line without the line feeds at its end.
pub open spec fn trim_lf(s: Seq<char>) -> Seq<char>
    decreases s.len(),
{
    if s.len() > 0 && s.last() == '\n' {
        trim_lf(s.drop_last())
    } else {
        s
    }
}

/// Where the first line of a text ends at or after position `i`, its line break
/// counted: a line feed, a carriage return or both.
pub open spec fn first_end(t: Seq<char>, i: int) -> int
    decreases t.len() - i,
{
    if i >= t.len() {
        t.len() as int
    } else if t[i] == '\r' && i + 1 < t.len() && t[i + 1] == '\n' {
        i + 2
    } else if t[i] == '\r' || t[i] == '\n' {
        i + 1
    } else {
        first_end(t, i + 1)
    }
}

/// A line that there is holds a character.
pub proof fn lemma_first_end(t: Seq<char>, i: int)
    requires
        0 <= i < t.len(),
    ensures
        i < first_end(t, i) <= t.len(),
    decreases t.len() - i,
{
    if i + 1 < t.len() {
        lemma_first_end(t, i + 1);
    } else {
        assert(first_end(t, i + 1) == t.len());
    }
}

/// The lines of a text, each with its line break; the last one may have none.
pub open spec fn text_lines(t: Seq<char>) -> Seq<Seq<char>>
    decreases t.len(),
{
    if t.len() == 0 {
        Seq::empty()
    } else {
        proof {
            lemma_first_end(t, 0);
        }
        seq![t.take(first_end(t, 0))] + text_lines(t.skip(first_end(t, 0)))
    }
}

/// The lines of one side: those of both texts and those of `side`.
pub open spec fn side_lines(changes: Seq<(Side, Seq<char>)>, side: Side) -> Seq<Seq<char>>
    decreases changes.len(),
{
    if changes.len() == 0 {
        Seq::empty()
    } else {
        let rest = side_lines(changes.drop_last(), side);
        let last = changes.last();
        if last.0 == Side::Both || last.0 == side {
            rest.push(last.1)
        } else {
            rest
        }
    }
}

/// Whether every change is a line of both texts.
pub open spec fn all_equal(changes: Seq<(Side, Seq<char>)>) -> bool {
    forall|i: int| 0 <= i < changes.len() ==> (#[trigger] changes[i]).0 == Side::Both
}

/// The lines of one side put together: those of both texts and those of `side`.
pub open spec fn joined(changes: Seq<(Side, Seq<char>)>, side: Side) -> Seq<char>
    decreases changes.len(),
{
    if changes.len() == 0 {
        Seq::empty()
    } else {
        let rest = joined(changes.drop_last(), side);
        let last = changes.last();
        if last.0 == Side::Both || last.0 == side {
            rest + last.1
        } else {
            rest
        }
    }
}

/// The changes that `TextDiff::from_lines` finds between two texts, in order:
/// each a line with its line break, and the side it belongs to.
pub uninterp spec fn line_changes(old: Seq<char>, new: Seq<char>) -> Seq<(Side, Seq<char>)>;

/// One change of a line diff.
#[derive(Debug)]
pub struct LineChange {
    pub side: Side,
    pub text: String,
}

/// The changes, each as its side and its line.
pub open spec fn change_lines(changes: Seq<LineChange>) -> Seq<(Side, Seq<char>)> {
    changes.map_values(|c: LineChange| (c.side, c.text@))
}

/// `TextDiff::from_lines` and `TextDiff::iter_all_changes`: the changes between
/// the lines of two texts. The lines of each side are those of that text, and
/// between equal texts nothing changes. Lines are numbered with 32 bits there,
/// so there are fewer of them than that.
#[verifier::external_body]
fn diff_lines(old: &str, new: &str) -> (r: Vec<LineChange>)
    requires
        text_lines(old@).len() + text_lines(new@).len() < u32::MAX,
    ensures
        change_lines(r@) == line_changes(old@, new@),
        side_lines(change_lines(r@), Side::Old) == text_lines(old@),
        side_lines(change_lines(r@), Side::New) == text_lines(new@),
        old@ == new@ ==> all_equal(change_lines(r@)),
{
    let diff = TextDiff::from_lines(old, new);
    let change = |tag, value: &str| match tag {
        ChangeTag::Equal => LineChange { side: Side::Both, text: value.to_string() },
        ChangeTag::Delete => LineChange { side: Side::Old, text: value.to_string() },
        ChangeTag::Insert => LineChange { side: Side::New, text: value.to_string() },
    };
    diff.iter_all_changes().map(|c| change(c.tag(), c.value())).collect()
}

proof fn lemma_unix_lines_step(s: Seq<char>, i: int)
    requires
        0 <= i < s.len(),
    ensures
        unix_lines(s.skip(i)) == if i + 1 < s.len() && s[i] == '\r' && s[i + 1] == '\n' {
            unix_lines(s.skip(i + 1))
        } else {
            seq![s[i]] + unix_lines(s.skip(i + 1))
        },
{
    assert(s.skip(i).skip(1) =~= s.skip(i + 1));
}

/// Takes the carriage return out of every CRLF.
fn normalize(s: &str) -> (r: String)
    ensures
        r@ == unix_lines(s@),
        r@.len() <= s@.len(),
{
    let chars = chars_of(s);
    let mut out = String::new();
    let mut i: usize = 0;
    assert(chars@.skip(0) =~= chars@);
    assert(out@ + unix_lines(chars@.skip(0)) =~= unix_lines(chars@));
    while i < chars.len()
        invariant
            i <= chars@.len(),
            chars@ == s@,
            out@.len() <= i,
            out@ + unix_lines(chars@.skip(i as int)) == unix_lines(s@),
        decreases chars@.len() - i,
    {
        let ghost before = out@;
        proof {
            lemma_unix_lines_step(chars@, i as int);
        }
        if !(i < chars.len() - 1 && chars[i] == '\r' && chars[i + 1] == '\n') {
            out.push(chars[i]);
            assert(before + (seq![chars@[i as int]] + unix_lines(chars@.skip(i + 1))) =~= out@
                + unix_lines(chars@.skip(i + 1)));
        }
        i += 1;
    }
    assert(out@ + unix_lines(chars@.skip(i as int)) =~= out@);
    out
}

fn trim_line_feeds(s: String) -> (r: String)
    ensures
        r@ == trim_lf(s@),
{
    let chars = chars_of(s.as_str());
    let mut end: usize = chars.len();
    assert(chars@.take(end as int) =~= chars@);
    while end > 0 && chars[end - 1] == '\n'
        invariant
            end <= chars@.len(),
            trim_lf(chars@.take(end as int)) == trim_lf(chars@),
        decreases end,
    {
        assert(chars@.take(end as int).drop_last() =~= chars@.take(end - 1));
        end -= 1;
    }
    let r = string_of(&chars, 0, end);
    assert(r@ =~= chars@.take(end as int));
    r
}

/// The rows that the changes of a line diff make: each line without its line
/// feed, on its side.
pub open spec fn rows_of_changes(changes: Seq<(Side, Seq<char>)>) -> Seq<(Side, Seq<char>)> {
    changes.map_values(|c: (Side, Seq<char>)| (c.0, trim_lf(c.1)))
}

/// Turns the changes of a line diff into aligned rows.
pub fn rows_from_changes(changes: Vec<LineChange>) -> (r: Vec<DiffRow>)
    ensures
        row_lines(r@) == rows_of_changes(change_lines(changes@)),
{
    let ghost all = change_lines(changes@);
    let ghost goal = rows_of_changes(all);
    let mut rows: Vec<DiffRow> = Vec::new();
    assert(row_lines(rows@) =~= goal.take(0));
    for c in it: changes
        invariant
            goal == rows_of_changes(change_lines(it.seq())),
            row_lines(rows@) == goal.take(it.index() as int),
    {
        let ghost i = it.index() as int;
        let ghost before = row_lines(rows@);
        let ghost side = c.side;
        let ghost line = c.text@;
        assert(change_lines(it.seq())[i] == (side, line));
        let text = trim_line_feeds(c.text);
        let row = match c.side {
            Side::Both => DiffRow::Equal(text),
            Side::Old => DiffRow::Delete(text),
            Side::New => DiffRow::Insert(text),
        };
        rows.push(row);
        assert(row_lines(rows@) =~= before.push(goal[i]));
        assert(goal.take(i + 1) =~= goal.take(i).push(goal[i]));
    }
    assert(goal.take(goal.len() as int) =~= goal);
    rows
}

/// Some lines put together.
pub open spec fn glued(lines: Seq<Seq<char>>) -> Seq<char>
    decreases lines.len(),
{
    if lines.len() == 0 {
        Seq::empty()
    } else {
        glued(lines.drop_last()) + lines.last()
    }
}

proof fn lemma_glued_first(first: Seq<char>, rest: Seq<Seq<char>>)
    ensures
        glued(seq![first] + rest) == first + glued(rest),
    decreases rest.len(),
{
    let all = seq![first] + rest;
    if rest.len() == 0 {
        assert(all.drop_last() =~= Seq::<Seq<char>>::empty());
        assert(glued(all.drop_last()) =~= Seq::empty());
        assert(all.last() == first);
        assert(glued(all) =~= first);
        assert(first + glued(rest) =~= first);
    } else {
        lemma_glued_first(first, rest.drop_last());
        assert(all.drop_last() =~= seq![first] + rest.drop_last());
        assert(glued(all) =~= first + glued(rest));
    }
}

/// The lines of a text, put together, are the text.
pub proof fn lines_make_the_text(t: Seq<char>)
    ensures
        glued(text_lines(t)) == t,
    decreases t.len(),
{
    if t.len() > 0 {
        lemma_first_end(t, 0);
        let n = first_end(t, 0);
        lines_make_the_text(t.skip(n));
        lemma_glued_first(t.take(n), text_lines(t.skip(n)));
        assert(t.take(n) + t.skip(n) =~= t);
    }
}

proof fn lemma_joined(changes: Seq<(Side, Seq<char>)>, side: Side)
    ensures
        joined(changes, side) == glued(side_lines(changes, side)),
    decreases changes.len(),
{
    if changes.len() > 0 {
        lemma_joined(changes.drop_last(), side);
        let rest = side_lines(changes.drop_last(), side);
        assert(rest.push(changes.last().1).drop_last() =~= rest);
    }
}

/// The rows of one side show its lines, in order, each without the line feed at
/// its end.
pub proof fn rows_show_the_lines(changes: Seq<(Side, Seq<char>)>, side: Side)
    ensures
        side_lines(rows_of_changes(changes), side) == side_lines(changes, side).map_values(
            |l: Seq<char>| trim_lf(l),
        ),
    decreases changes.len(),
{
    let rows = rows_of_changes(changes);
    if changes.len() > 0 {
        rows_show_the_lines(changes.drop_last(), side);
        assert(rows.drop_last() =~= rows_of_changes(changes.drop_last()));
    }
    assert(side_lines(rows, side) =~= side_lines(changes, side).map_values(
        |l: Seq<char>| trim_lf(l),
    ));
}

proof fn lemma_trim_lf(s: Seq<char>)
    ensures
        trim_lf(s).len() <= s.len(),
        trim_lf(s) == s.take(trim_lf(s).len() as int),
        forall|i: int| trim_lf(s).len() <= i < s.len() ==> s[i] == '\n',
        trim_lf(s).len() > 0 ==> trim_lf(s).last() != '\n',
    decreases s.len(),
{
    if s.len() > 0 && s.last() == '\n' {
        let d = s.drop_last();
        lemma_trim_lf(d);
        let n = trim_lf(s).len() as int;
        assert(d.take(n) =~= s.take(n));
        assert forall|i: int| n <= i < s.len() implies s[i] == '\n' by {
            if i < d.len() {
                assert(d[i] == s[i]);
            }
        }
    } else {
        assert(s.take(s.len() as int) =~= s);
    }
}

/// A row shows its line as it is up to the line feeds at its end: with some line
/// feeds behind it the row's text is the line again, and it ends in none. Nothing
/// is lost of the indentation, nor of anything else in the line.
pub proof fn rows_keep_their_lines(changes: Seq<(Side, Seq<char>)>)
    ensures
        rows_of_changes(changes).len() == changes.len(),
        forall|i: int|
            0 <= i < changes.len() ==> ({
                let row = #[trigger] rows_of_changes(changes)[i];
                let line = changes[i].1;
                &&& row.0 == changes[i].0
                &&& row.1.len() <= line.len()
                &&& row.1 == line.take(row.1.len() as int)
                &&& forall|k: int| row.1.len() <= k < line.len() ==> line[k] == '\n'
                &&& row.1.len() > 0 ==> row.1[row.1.len() - 1] != '\n'
            }),
{
    assert forall|i: int| 0 <= i < changes.len() implies ({
        let row = #[trigger] rows_of_changes(changes)[i];
        let line = changes[i].1;
        &&& row.0 == changes[i].0
        &&& row.1.len() <= line.len()
        &&& row.1 == line.take(row.1.len() as int)
        &&& forall|k: int| row.1.len() <= k < line.len() ==> line[k] == '\n'
        &&& row.1.len() > 0 ==> row.1[row.1.len() - 1] != '\n'
    }) by {
        lemma_trim_lf(changes[i].1);
    }
}

proof fn lemma_first_end_lf(t: Seq<char>, i: int)
    requires
        0 <= i < t.len(),
        !t.contains('\r'),
    ensures
        i < first_end(t, i) <= t.len(),
        forall|k: int| i <= k < first_end(t, i) - 1 ==> t[k] != '\n',
        t[first_end(t, i) - 1] == '\n' || first_end(t, i) == t.len(),
    decreases t.len() - i,
{
    assert(t[i] != '\r');
    if t[i] != '\n' && i + 1 < t.len() {
        lemma_first_end_lf(t, i + 1);
    } else if t[i] != '\n' {
        assert(first_end(t, i + 1) == t.len());
    }
}

/// The lines of one side, each with a line feed behind it, put together are the
/// text of that side: from what the rows show, the file can be read off. A line
/// feed is added at the end if the text ends in none. Left out are texts with
/// carriage returns, which a row may end in.
pub proof fn rows_make_the_text(t: Seq<char>)
    requires
        t.len() > 0,
        !t.contains('\r'),
    ensures
        glued(
            text_lines(t).map_values(|l: Seq<char>| trim_lf(l)).map_values(
                |row: Seq<char>| row.push('\n'),
            ),
        ) == if t.last() == '\n' {
            t
        } else {
            t.push('\n')
        },
    decreases t.len(),
{
    lemma_first_end(t, 0);
    lemma_first_end_lf(t, 0);
    let n = first_end(t, 0);
    let first = t.take(n);
    let rest = t.skip(n);
    let row = trim_lf(first);
    lemma_trim_lf(first);
    assert(row.push('\n') =~= if first.last() == '\n' {
        first
    } else {
        first.push('\n')
    }) by {
        assert forall|k: int| 0 <= k < n - 1 implies first[k] != '\n' by {
            assert(t[k] != '\n');
        }
        if first.last() == '\n' {
            assert(row.len() < n);
            if row.len() < n - 1 {
                assert(first[row.len() as int] == '\n');
            }
        } else {
            if row.len() < n {
                assert(first[n - 1] == '\n');
            }
        }
    }
    let rows = |u: Seq<char>|
        text_lines(u).map_values(|l: Seq<char>| trim_lf(l)).map_values(
            |r: Seq<char>| r.push('\n'),
        );
    assert(rows(t) =~= seq![row.push('\n')] + rows(rest)) by {
        assert(text_lines(t) == seq![first] + text_lines(rest));
    }
    lemma_glued_first(row.push('\n'), rows(rest));
    if rest.len() > 0 {
        assert(!rest.contains('\r')) by {
            if rest.contains('\r') {
                let k = choose|k: int| 0 <= k < rest.len() && rest[k] == '\r';
                assert(t[n + k] == '\r');
            }
        }
        rows_make_the_text(rest);
        assert(rest.last() == t.last());
        assert(first + rest =~= t);
        assert(first + rest.push('\n') =~= t.push('\n'));
    } else {
        assert(rows(rest) =~= Seq::empty());
        assert(first =~= t);
        assert(row.push('\n') + glued(rows(rest)) =~= row.push('\n'));
    }
    assert(rows(t) == text_lines(t).map_values(|l: Seq<char>| trim_lf(l)).map_values(
        |row: Seq<char>| row.push('\n'),
    ));
}

/// Each CRLF becomes one line feed, whatever stands before and behind it, and a
/// text without one is left as it is.
pub proof fn crlf_becomes_line_feed(a: Seq<char>, b: Seq<char>)
    ensures
        unix_lines(a + seq!['\r', '\n'] + b) == unix_lines(a) + seq!['\n'] + unix_lines(b),
        (forall|i: int| 0 <= i < a.len() - 1 ==> !(#[trigger] a[i] == '\r' && a[i + 1] == '\n'))
            ==> unix_lines(a) == a,
    decreases a.len(),
{
    let crlf = seq!['\r', '\n'];
    let t = a + crlf + b;
    if a.len() == 0 {
        assert(t.skip(1).skip(1) =~= b);
        assert(t.skip(1)[0] == '\n');
        assert(unix_lines(t) == unix_lines(t.skip(1)));
        assert(unix_lines(t.skip(1)) == seq!['\n'] + unix_lines(b));
        assert(unix_lines(a) + seq!['\n'] + unix_lines(b) =~= seq!['\n'] + unix_lines(b));
    } else {
        let c = a.skip(1);
        crlf_becomes_line_feed(c, b);
        assert(t.skip(1) =~= c + crlf + b);
        assert(t[0] == a[0]);
        if a.len() >= 2 {
            assert(t[1] == a[1]);
        } else {
            assert(t[1] == '\r');
        }
        assert(seq![a[0]] + (unix_lines(c) + seq!['\n'] + unix_lines(b)) =~= (seq![a[0]]
            + unix_lines(c)) + seq!['\n'] + unix_lines(b));
        if forall|i: int| 0 <= i < a.len() - 1 ==> !(#[trigger] a[i] == '\r' && a[i + 1] == '\n') {
            assert forall|i: int| 0 <= i < c.len() - 1 implies !(#[trigger] c[i] == '\r' && c[i + 1]
                == '\n') by {
                assert(c[i] == a[i + 1]);
            }
            if a.len() >= 2 {
                assert(!(a[0int] == '\r' && a[0int + 1] == '\n'));
            }
            assert(seq![a[0]] + c =~= a);
        }
    }
}

/// Align `old` and `new` into a row stream via `similar`. Deleted lines become
/// left-only `Delete` rows, inserted lines right-only `Insert` rows, and equal
/// lines sit on both sides. Line endings are normalized away: the lines of each
/// side are those of that text with its CRLFs turned into line feeds.
pub fn build_rows(old: &str, new: &str) -> (r: Vec<DiffRow>)
    requires
        text_lines(unix_lines(old@)).len() + text_lines(unix_lines(new@)).len() < u32::MAX,
    ensures
        row_lines(r@) == rows_of_changes(line_changes(unix_lines(old@), unix_lines(new@))),
        side_lines(line_changes(unix_lines(old@), unix_lines(new@)), Side::Old) == text_lines(
            unix_lines(old@),
        ),
        side_lines(line_changes(unix_lines(old@), unix_lines(new@)), Side::New) == text_lines(
            unix_lines(new@),
        ),
        joined(line_changes(unix_lines(old@), unix_lines(new@)), Side::Old) == unix_lines(old@),
        joined(line_changes(unix_lines(old@), unix_lines(new@)), Side::New) == unix_lines(new@),
        side_lines(row_lines(r@), Side::Old) == text_lines(unix_lines(old@)).map_values(
            |l: Seq<char>| trim_lf(l),
        ),
        side_lines(row_lines(r@), Side::New) == text_lines(unix_lines(new@)).map_values(
            |l: Seq<char>| trim_lf(l),
        ),
        unix_lines(old@) == unix_lines(new@) ==> all_equal(row_lines(r@)),
{
    // Normalize line endings before diffing so CRLF/LF differences don't show
    // up as spurious whole-line changes.
    let old = normalize(old);
    let new = normalize(new);
    let changes = diff_lines(old.as_str(), new.as_str());
    proof {
        let all = change_lines(changes@);
        lemma_joined(all, Side::Old);
        lemma_joined(all, Side::New);
        lines_make_the_text(old@);
        lines_make_the_text(new@);
        rows_show_the_lines(all, Side::Old);
        rows_show_the_lines(all, Side::New);
        let rows = rows_of_changes(all);
        assert forall|i: int|
            old@ == new@ && 0 <= i < rows.len() implies (#[trigger] rows[i]).0 == Side::Both by {
            assert(all[i].0 == Side::Both);
        }
    }
    rows_from_changes(changes)
}

// ---------------------------------------------------------------------------
// Hunks.

/// A contiguous run of changed rows, as `[start, end)` row indices. Used for
/// next/previous-change navigation.
#[derive(Debug, Clone, Copy, PartialEq, Eq, Structural)]
pub struct Hunk {
    pub start: usize,
    pub end: usize,
}

/// Whether row `i` is a change.
pub open spec fn changed(rows: Seq<DiffRow>, i: int) -> bool {
    rows[i].side() != Side::Both
}

/// Where the run of changes that reaches up to row `n` starts, if row `n - 1`
/// is a change.
pub open spec fn run_start(rows: Seq<DiffRow>, n: int) -> Option<int>
    decreases n,
{
    if n <= 0 || !changed(rows, n - 1) {
        None
    } else {
        match run_start(rows, n - 1) {
            Some(s) => Some(s),
            None => Some(n - 1),
        }
    }
}

/// The runs of changes that have ended before row `n`.
pub open spec fn ended_runs(rows: Seq<DiffRow>, n: int) -> Seq<Hunk>
    decreases n,
{
    if n <= 0 {
        Seq::empty()
    } else {
        let rest = ended_runs(rows, n - 1);
        match run_start(rows, n - 1) {
            Some(s) if !changed(rows, n - 1) => rest.push(
                Hunk { start: s as usize, end: (n - 1) as usize },
            ),
            _ => rest,
        }
    }
}

/// The runs of changed rows, in order.
pub open spec fn hunks_of(rows: Seq<DiffRow>) -> Seq<Hunk> {
    let n = rows.len() as int;
    match run_start(rows, n) {
        Some(s) => ended_runs(rows, n).push(Hunk { start: s as usize, end: n as usize }),
        None => ended_runs(rows, n),
    }
}

/// Group contiguous changed rows into hunks for next/previous navigation.
pub fn build_hunks(rows: &[DiffRow]) -> (r: Vec<Hunk>)
    ensures
        r@ == hunks_of(rows@),
{
    let mut hunks: Vec<Hunk> = Vec::new();
    let mut start: Option<usize> = None;
    let count: usize = rows.len();
    let mut i: usize = 0;
    while i < count
        invariant
            i <= count == rows@.len(),
            hunks@ == ended_runs(rows@, i as int),
            match start {
                Some(s) => run_start(rows@, i as int) == Some(s as int),
                None => run_start(rows@, i as int) is None,
            },
        decreases count - i,
    {
        if rows[i].is_change() {
            if start.is_none() {
                start = Some(i);
            }
        } else {
            match start {
                Some(s) => {
                    hunks.push(Hunk { start: s, end: i });
                    start = None;
                },
                None => {},
            }
        }
        i += 1;
    }
    match start {
        Some(s) => {
            hunks.push(Hunk { start: s, end: count });
        },
        None => {},
    }
    hunks
}

/// Whether row `i` lies in a hunk.
pub open spec fn in_hunk(h: Hunk, i: int) -> bool {
    h.start <= i < h.end
}

/// Whether hunks lie in order within the first `n` rows, each of at least one
/// row and with a row between any two.
pub open spec fn hunks_apart(hunks: Seq<Hunk>, n: int) -> bool {
    &&& forall|k: int| 0 <= k < hunks.len() ==> (#[trigger] hunks[k]).start < hunks[k].end <= n
    &&& forall|j: int, k: int|
        0 <= j < k < hunks.len() ==> (#[trigger] hunks[j]).end < (#[trigger] hunks[k]).start
}

proof fn lemma_run_start(rows: Seq<DiffRow>, n: int)
    requires
        0 <= n <= rows.len(),
    ensures
        match run_start(rows, n) {
            Some(s) => 0 <= s < n && (forall|i: int| s <= i < n ==> #[trigger] changed(rows, i))
                && (s > 0 ==> !changed(rows, s - 1)),
            None => n == 0 || !changed(rows, n - 1),
        },
    decreases n,
{
    if n > 0 {
        lemma_run_start(rows, n - 1);
    }
}

proof fn lemma_ended_runs(rows: Seq<DiffRow>, n: int)
    requires
        0 <= n <= rows.len() <= usize::MAX,
    ensures
        hunks_apart(ended_runs(rows, n), n),
        match run_start(rows, n) {
            Some(s) => forall|k: int|
                0 <= k < ended_runs(rows, n).len() ==> (#[trigger] ended_runs(rows, n)[k]).end < s,
            None => true,
        },
        forall|i: int|
            0 <= i < n ==> (#[trigger] changed(rows, i) <==> {
                ||| exists|k: int|
                    0 <= k < ended_runs(rows, n).len() && in_hunk(
                        #[trigger] ended_runs(rows, n)[k],
                        i,
                    )
                ||| (run_start(rows, n) matches Some(s) && s <= i)
            }),
    decreases n,
{
    if n > 0 {
        lemma_ended_runs(rows, n - 1);
        lemma_run_start(rows, n - 1);
        lemma_run_start(rows, n);
        let rest = ended_runs(rows, n - 1);
        let all = ended_runs(rows, n);
        if all != rest {
            assert(all.len() == rest.len() + 1);
            let h = all[rest.len() as int];
            assert forall|j: int, k: int| 0 <= j < k < all.len() implies (#[trigger] all[j]).end < (
            #[trigger] all[k]).start by {
                assert(all[j] == rest[j]);
                if k < rest.len() {
                    assert(all[k] == rest[k]);
                }
            }
            assert forall|k: int| 0 <= k < all.len() implies (#[trigger] all[k]).start < all[k].end
                <= n by {
                if k < rest.len() {
                    assert(all[k] == rest[k]);
                }
            }
        }
        assert forall|i: int| 0 <= i < n implies (#[trigger] changed(rows, i) <==> {
            ||| exists|k: int| 0 <= k < all.len() && in_hunk(#[trigger] all[k], i)
            ||| (run_start(rows, n) matches Some(s) && s <= i)
        }) by {
            if i < n - 1 {
                let before = exists|k: int| 0 <= k < rest.len() && in_hunk(#[trigger] rest[k], i);
                if before {
                    let k = choose|k: int| 0 <= k < rest.len() && in_hunk(#[trigger] rest[k], i);
                    assert(all[k] == rest[k]);
                    assert(in_hunk(all[k], i));
                } else if run_start(rows, n - 1) matches Some(s) && s <= i {
                    if !changed(rows, n - 1) {
                        let h = all[rest.len() as int];
                        assert(in_hunk(h, i));
                    }
                }
                if exists|k: int| 0 <= k < all.len() && in_hunk(#[trigger] all[k], i) {
                    let k = choose|k: int| 0 <= k < all.len() && in_hunk(#[trigger] all[k], i);
                    if k < rest.len() {
                        assert(in_hunk(rest[k], i));
                    }
                }
            } else {
                if exists|k: int| 0 <= k < all.len() && in_hunk(#[trigger] all[k], i) {
                    let k = choose|k: int| 0 <= k < all.len() && in_hunk(#[trigger] all[k], i);
                    if k < rest.len() {
                        assert(all[k] == rest[k]);
                    }
                    assert(all[k].end <= n - 1);
                }
            }
        }
    }
}

/// The hunks lie in order with a row between any two, and a row lies in a hunk
/// exactly when it is a change.
pub proof fn hunks_cover_the_changes(rows: Seq<DiffRow>)
    requires
        rows.len() <= usize::MAX,
    ensures
        hunks_apart(hunks_of(rows), rows.len() as int),
        forall|i: int|
            0 <= i < rows.len() ==> (#[trigger] changed(rows, i) <==> exists|k: int|
                0 <= k < hunks_of(rows).len() && in_hunk(#[trigger] hunks_of(rows)[k], i)),
{
    let n = rows.len() as int;
    lemma_ended_runs(rows, n);
    lemma_run_start(rows, n);
    let ended = ended_runs(rows, n);
    let all = hunks_of(rows);
    assert forall|i: int| 0 <= i < n implies (#[trigger] changed(rows, i) <==> exists|k: int|
        0 <= k < all.len() && in_hunk(#[trigger] all[k], i)) by {
        if exists|k: int| 0 <= k < ended.len() && in_hunk(#[trigger] ended[k], i) {
            let k = choose|k: int| 0 <= k < ended.len() && in_hunk(#[trigger] ended[k], i);
            assert(in_hunk(all[k], i));
        }
        if run_start(rows, n) matches Some(s) && s <= i {
            assert(in_hunk(all[ended.len() as int], i));
        }
        if exists|k: int| 0 <= k < all.len() && in_hunk(#[trigger] all[k], i) {
            let k = choose|k: int| 0 <= k < all.len() && in_hunk(#[trigger] all[k], i);
            if k < ended.len() {
                assert(in_hunk(ended[k], i));
            }
        }
    }
    assert forall|k: int| 0 <= k < all.len() implies (#[trigger] all[k]).start < all[k].end
        <= n by {
        if k < ended.len() {
            assert(all[k] == ended[k]);
        }
    }
    assert forall|j: int, k: int| 0 <= j < k < all.len() implies (#[trigger] all[j]).end < (
    #[trigger] all[k]).start by {
        assert(all[j] == ended[j]);
        if k < ended.len() {
            assert(all[k] == ended[k]);
        }
    }
}

// ---------------------------------------------------------------------------
// The view.

/// Which side of the view has the keyboard.
#[derive(Debug, Clone, Copy, PartialEq, Eq, Structural)]
pub enum DiffFocus {
    List,
    Diff,
}

/// The diff of one file, plus the navigation state over it.
#[derive(Debug)]
pub struct FileDiff {
    pub rows: Vec<DiffRow>,
    pub hunks: Vec<Hunk>,
    pub current_hunk: usize,
    pub scroll: usize,
    /// True when the file is binary / non-UTF-8 on either side; no rows are
    /// built and a placeholder is shown instead.
    pub binary: bool,
}

impl FileDiff {
    /// A diff with nothing in it.
    pub open spec fn blank(self) -> bool {
        &&& self.rows@.len() == 0
        &&& self.hunks@.len() == 0
        &&& self.current_hunk == 0
        &&& self.scroll == 0
    }

    fn empty(binary: bool) -> (r: Self)
        ensures
            r.blank(),
            r.binary == binary,
    {
        FileDiff { rows: Vec::new(), hunks: Vec::new(), current_hunk: 0, scroll: 0, binary }
    }
}

/// The full diff-view state: the changed-files snapshot, the selected file's
/// diff, and inner focus. `root` is `None` when not inside a git repository.
#[derive(Debug)]
pub struct DiffView {
    pub root: Option<PathBuf>,
    pub files: Vec<ChangedFile>,
    pub selected: usize,
    pub file: FileDiff,
    pub focus: DiffFocus,
}

/// What of the selected file has to be read to show its diff: its path, whether
/// its committed contents are needed, and whether those on disk are.
#[derive(Debug)]
pub struct Wanted {
    pub path: String,
    pub head: bool,
    pub disk: bool,
}

/// The contents that one side of a diff shows: nothing where the file is absent
/// on that side.
pub open spec fn shown_side(c: FileContents, absent: bool) -> Option<Seq<char>> {
    if absent {
        Some(Seq::empty())
    } else {
        match c {
            FileContents::Text(t) => Some(t@),
            FileContents::Binary => None,
        }
    }
}

impl DiffView {
    /// The selection is one of the files, if there are any.
    pub open spec fn wf(self) -> bool {
        self.files@.len() > 0 ==> self.selected < self.files@.len()
    }

    /// The selected file, if the view is in a repository and has one.
    pub open spec fn current(self) -> Option<ChangedFile> {
        if self.root is Some && self.selected < self.files@.len() {
            Some(self.files@[self.selected as int])
        } else {
            None
        }
    }

    /// Whether the diff is that of the selected file, whose committed contents
    /// are `head` and whose contents on disk are `disk`: the rows and hunks of
    /// the two texts, a flag where either is binary, and nothing at all where no
    /// file is selected. Added files have no committed contents; deleted files
    /// have nothing on disk.
    pub open spec fn shows(self, f: FileDiff, head: FileContents, disk: FileContents) -> bool {
        match self.current() {
            None => f.blank() && !f.binary,
            Some(file) => match (
                shown_side(head, file.kind == ChangeKind::Added),
                shown_side(disk, file.kind == ChangeKind::Deleted),
            ) {
                (Some(old), Some(new)) => {
                    &&& row_lines(f.rows@) == rows_of_changes(
                        line_changes(unix_lines(old), unix_lines(new)),
                    )
                    &&& side_lines(row_lines(f.rows@), Side::Old) == text_lines(
                        unix_lines(old),
                    ).map_values(|l: Seq<char>| trim_lf(l))
                    &&& side_lines(row_lines(f.rows@), Side::New) == text_lines(
                        unix_lines(new),
                    ).map_values(|l: Seq<char>| trim_lf(l))
                    &&& f.hunks@ == hunks_of(f.rows@)
                    &&& f.current_hunk == 0
                    &&& f.scroll == 0
                    &&& !f.binary
                },
                _ => f.blank() && f.binary,
            },
        }
    }

    /// Whether the selected file's diff can be computed: where both sides are
    /// text, they have fewer lines than can be numbered.
    pub open spec fn can_show(self, head: FileContents, disk: FileContents) -> bool {
        self.current() matches Some(file) ==> match (
            shown_side(head, file.kind == ChangeKind::Added),
            shown_side(disk, file.kind == ChangeKind::Deleted),
        ) {
            (Some(old), Some(new)) => text_lines(unix_lines(old)).len() + text_lines(
                unix_lines(new),
            ).len() < u32::MAX,
            _ => true,
        }
    }

    /// Opens the view on a git snapshot. Outside a repo, opens in an empty "no
    /// repository" state; with a clean tree, an empty "no changes" state. The
    /// diff of the selected file is yet to be loaded with
    /// [`reload_selected`](Self::reload_selected).
    pub fn open(root: Option<PathBuf>, files: Vec<ChangedFile>) -> (r: Self)
        ensures
            r.root == root,
            r.files@ == if root is Some {
                files@
            } else {
                Seq::empty()
            },
            r.wf(),
            r.selected == 0,
            r.file.blank() && !r.file.binary,
            r.focus == DiffFocus::List,
    {
        let files = if root.is_some() {
            files
        } else {
            Vec::new()
        };
        Self { root, files, selected: 0, file: FileDiff::empty(false), focus: DiffFocus::List }
    }

    /// Takes a new git snapshot in place (the refresh key), keeping the selection
    /// clamped to the new list.
    pub fn refresh(&mut self, root: Option<PathBuf>, files: Vec<ChangedFile>)
        ensures
            final(self).root == root,
            final(self).files@ == if root is Some {
                files@
            } else {
                Seq::empty()
            },
            final(self).selected == if old(self).selected < final(self).files@.len() {
                old(self).selected as int
            } else if final(self).files@.len() > 0 {
                final(self).files@.len() - 1
            } else {
                0
            },
            final(self).wf(),
            final(self).file == old(self).file,
            final(self).focus == old(self).focus,
    {
        self.files = if root.is_some() {
            files
        } else {
            Vec::new()
        };
        self.root = root;
        let count: usize = self.files.len();
        if self.selected >= count {
            self.selected = if count > 0 {
                count - 1
            } else {
                0
            };
        }
    }

    /// What has to be read to show the diff of the selected file. Added files
    /// have no `HEAD` blob; deleted files have nothing on disk.
    pub fn wanted(&self) -> (r: Option<Wanted>)
        ensures
            match (r, self.current()) {
                (Some(w), Some(f)) => {
                    &&& w.path@ == f.path@
                    &&& w.head == (f.kind != ChangeKind::Added)
                    &&& w.disk == (f.kind != ChangeKind::Deleted)
                },
                (None, None) => true,
                _ => false,
            },
    {
        if self.root.is_none() || self.selected >= self.files.len() {
            return None;
        }
        let f = &self.files[self.selected];
        Some(
            Wanted {
                path: f.path.clone(),
                head: f.kind != ChangeKind::Added,
                disk: f.kind != ChangeKind::Deleted,
            },
        )
    }

    /// Recompute the selected file's diff from its committed and working texts.
    pub fn reload_selected(&mut self, head: FileContents, disk: FileContents)
        requires
            old(self).can_show(head, disk),
        ensures
            old(self).shows(final(self).file, head, disk),
            final(self).root == old(self).root,
            final(self).files == old(self).files,
            final(self).selected == old(self).selected,
            final(self).focus == old(self).focus,
    {
        if self.root.is_none() || self.selected >= self.files.len() {
            self.file = FileDiff::empty(false);
            return ;
        }
        let kind = self.files[self.selected].kind;
        let old_text = side_text(head, kind == ChangeKind::Added);
        let new_text = side_text(disk, kind == ChangeKind::Deleted);
        self.file =
        match (old_text, new_text) {
            (Some(o), Some(n)) => {
                let rows = build_rows(o.as_str(), n.as_str());
                let hunks = build_hunks(rows.as_slice());
                FileDiff { rows, hunks, current_hunk: 0, scroll: 0, binary: false }
            },
            _ => FileDiff::empty(true),
        };
    }

    // --- list navigation ---------------------------------------------------

    /// Selects the file before. Returns whether the selection moved, so that the
    /// diff is to be loaded anew.
    pub fn select_prev(&mut self) -> (moved: bool)
        ensures
            moved == (old(self).selected > 0),
            final(self).selected == if moved {
                old(self).selected - 1
            } else {
                old(self).selected as int
            },
            final(self).root == old(self).root,
            final(self).files == old(self).files,
            final(self).file == old(self).file,
            final(self).focus == old(self).focus,
    {
        if self.selected > 0 {
            self.selected -= 1;
            true
        } else {
            false
        }
    }

    /// Selects the next file. Returns whether the selection moved, so that the
    /// diff is to be loaded anew.
    pub fn select_next(&mut self) -> (moved: bool)
        ensures
            moved == (old(self).selected + 1 < old(self).files@.len()),
            final(self).selected == if moved {
                old(self).selected + 1
            } else {
                old(self).selected as int
            },
            final(self).root == old(self).root,
            final(self).files == old(self).files,
            final(self).file == old(self).file,
            final(self).focus == old(self).focus,
    {
        let count: usize = self.files.len();
        if count > 0 && self.selected < count - 1 {
            self.selected += 1;
            true
        } else {
            false
        }
    }

    /// Whether two views differ at most in their focus.
    pub open spec fn same_but_focus(self, v: DiffView) -> bool {
        self.root == v.root && self.files == v.files && self.selected == v.selected && self.file
            == v.file
    }

    /// Move focus from the list into the diff (no-op if there is nothing to
    /// show).
    pub fn enter_diff(&mut self)
        ensures
            final(self).focus == if old(self).file.rows@.len() > 0 {
                DiffFocus::Diff
            } else {
                old(self).focus
            },
            old(self).same_but_focus(*final(self)),
    {
        if self.file.rows.len() > 0 {
            self.focus = DiffFocus::Diff;
        }
    }

    pub fn back_to_list(&mut self)
        ensures
            final(self).focus == DiffFocus::List,
            old(self).same_but_focus(*final(self)),
    {
        self.focus = DiffFocus::List;
    }

    pub fn focus_in_list(&self) -> (r: bool)
        ensures
            r == (self.focus == DiffFocus::List),
    {
        self.focus == DiffFocus::List
    }

    // --- diff navigation ---------------------------------------------------

    /// Whether two views differ at most in where they are in the diff.
    pub open spec fn same_but_place(self, v: DiffView) -> bool {
        &&& self.root == v.root
        &&& self.files == v.files
        &&& self.selected == v.selected
        &&& self.focus == v.focus
        &&& self.file.rows == v.file.rows
        &&& self.file.hunks == v.file.hunks
        &&& self.file.binary == v.file.binary
    }

    pub fn scroll_up(&mut self)
        ensures
            final(self).file.scroll == if old(self).file.scroll > 0 {
                old(self).file.scroll - 1
            } else {
                0
            },
            final(self).file.current_hunk == old(self).file.current_hunk,
            old(self).same_but_place(*final(self)),
    {
        if self.file.scroll > 0 {
            self.file.scroll -= 1;
        }
    }

    pub fn scroll_down(&mut self)
        ensures
            final(self).file.scroll == if old(self).file.scroll + 1 < old(self).file.rows@.len() {
                old(self).file.scroll + 1
            } else {
                old(self).file.scroll as int
            },
            final(self).file.current_hunk == old(self).file.current_hunk,
            old(self).same_but_place(*final(self)),
    {
        let count: usize = self.file.rows.len();
        if count > 0 && self.file.scroll < count - 1 {
            self.file.scroll += 1;
        }
    }

    pub fn page_up(&mut self)
        ensures
            final(self).file.scroll == if old(self).file.scroll >= 10 {
                old(self).file.scroll - 10
            } else {
                0
            },
            final(self).file.current_hunk == old(self).file.current_hunk,
            old(self).same_but_place(*final(self)),
    {
        self.file.scroll = if self.file.scroll >= 10 {
            self.file.scroll - 10
        } else {
            0
        };
    }

    pub fn page_down(&mut self)
        requires
            old(self).file.scroll + 10 <= usize::MAX,
        ensures
            ({
                let last = if old(self).file.rows@.len() > 0 {
                    old(self).file.rows@.len() - 1
                } else {
                    0
                };
                final(self).file.scroll == if old(self).file.scroll + 10 <= last {
                    old(self).file.scroll + 10
                } else {
                    last
                }
            }),
            final(self).file.current_hunk == old(self).file.current_hunk,
            old(self).same_but_place(*final(self)),
    {
        let count: usize = self.file.rows.len();
        let last: usize = if count > 0 {
            count - 1
        } else {
            0
        };
        self.file.scroll = if self.file.scroll + 10 <= last {
            self.file.scroll + 10
        } else {
            last
        };
    }

    /// Jump to the next hunk, wrapping to the first; scrolls it into view.
    pub fn next_hunk(&mut self)
        requires
            old(self).file.hunks@.len() > 0 ==> old(self).file.current_hunk < usize::MAX,
        ensures
            old(self).same_but_place(*final(self)),
            if old(self).file.hunks@.len() == 0 {
                *final(self) == *old(self)
            } else {
                let k = (old(self).file.current_hunk + 1) % (old(self).file.hunks@.len() as int);
                &&& final(self).file.current_hunk == k
                &&& final(self).file.scroll == old(self).file.hunks@[k].start
            },
    {
        let count: usize = self.file.hunks.len();
        if count == 0 {
            return ;
        }
        self.file.current_hunk = (self.file.current_hunk + 1) % count;
        self.file.scroll = self.file.hunks[self.file.current_hunk].start;
    }

    /// Jump to the previous hunk, wrapping to the last; scrolls it into view.
    pub fn prev_hunk(&mut self)
        requires
            old(self).file.current_hunk + old(self).file.hunks@.len() <= usize::MAX,
        ensures
            old(self).same_but_place(*final(self)),
            if old(self).file.hunks@.len() == 0 {
                *final(self) == *old(self)
            } else {
                let n = old(self).file.hunks@.len() as int;
                let k = (old(self).file.current_hunk + n - 1) % n;
                &&& final(self).file.current_hunk == k
                &&& final(self).file.scroll == old(self).file.hunks@[k].start
            },
    {
        let count: usize = self.file.hunks.len();
        if count == 0 {
            return ;
        }
        self.file.current_hunk = (self.file.current_hunk + count - 1) % count;
        self.file.scroll = self.file.hunks[self.file.current_hunk].start;
    }

    // --- rendering ---------------------------------------------------------

    /// The two panels of the view: the list at the left, the diff beside it.
    /// Returns what each of them shows.
    pub fn render(&self, area: Rect, theme: &Theme) -> (r: DiffPlan)
        requires
            self.wf(),
        ensures
            is_list(*self, *theme, r.list@),
            self.is_diff_plan(*theme, r.diff, r.body),
            (r.list_area, r.diff_area) == cut_front(area, Way::Across, LIST_WIDTH, 0),
            r.list_inner == bordered(r.list_area),
            r.diff_inner == bordered(r.diff_area),
            (r.header, r.body) == cut_front(r.diff_inner, Way::Down, 1, 0),
            side_by_side(r.body, seq![r.left, r.right], seq![r.mid]),
    {
        let (list_area, diff_area) = split_front(area, Way::Across, LIST_WIDTH, Size::Fill(1));
        let list_inner = inside_border(list_area);
        let diff_inner = inside_border(diff_area);
        let (header, body) = split_front(diff_inner, Way::Down, 1, Size::Fill(1));
        let (halves, dividers) = columns(body, 2);
        let list = self.render_list(theme);
        let diff = self.render_diff(body, theme);
        assert(seq![halves@[0], halves@[1]] =~= halves@);
        assert(seq![dividers@[0]] =~= dividers@);
        DiffPlan {
            list_area,
            list_inner,
            diff_area,
            diff_inner,
            header,
            body,
            left: halves[0],
            mid: dividers[0],
            right: halves[1],
            list,
            diff,
        }
    }

    /// The rows of the changed-files list: the change's letter, and the path.
    pub fn render_list(&self, theme: &Theme) -> (r: Vec<(Run, Run)>)
        ensures
            is_list(*self, *theme, r@),
    {
        let list_focused = self.focus == DiffFocus::List;
        let mut lines: Vec<(Run, Run)> = Vec::new();
        let mut i: usize = 0;
        while i < self.files.len()
            invariant
                i <= self.files@.len(),
                list_focused == (self.focus == DiffFocus::List),
                lines@.len() == i,
                forall|k: int|
                    0 <= k < i ==> is_list_row(*self, *theme, k, #[trigger] lines@[k]),
            decreases self.files@.len() - i,
        {
            let f = &self.files[i];
            let color = match f.kind {
                ChangeKind::Modified => theme.accent,
                ChangeKind::Added => theme.diff_add_fg,
                ChangeKind::Deleted => theme.diff_del_fg,
            };
            // A selected row keeps a focus-colored foreground in both states;
            // only the background tracks focus.
            let row_style = if i == self.selected {
                let bg = if list_focused {
                    theme.focus_bg
                } else {
                    theme.inactive_bg
                };
                Style::new().bg(bg).fg(theme.focus_fg)
            } else {
                Style::new()
            };
            let kind_style = if i == self.selected {
                row_style
            } else {
                Style::new().fg(color)
            };
            let mut letter = String::new();
            letter.push(f.kind.indicator());
            letter.push(' ');
            let line = (
                Run { text: letter, style: kind_style },
                Run { text: f.path.clone(), style: row_style },
            );
            assert(line.0.text@ =~= seq![kind_letter(f.kind), ' ']);
            lines.push(line);
            i += 1;
        }
        lines
    }

    /// What the diff panel shows in a body of that height: a message, or the
    /// file's path over the visible rows of its two sides.
    pub fn render_diff(&self, body: Rect, theme: &Theme) -> (r: DiffPanel)
        requires
            self.wf(),
        ensures
            self.is_diff_plan(*theme, r, body),
    {
        match self.placeholder() {
            Some(message) => DiffPanel::Message(
                Run { text: message.to_owned(), style: Style::new().fg(theme.text_muted) },
            ),
            None => {
                let header_style = if self.focus == DiffFocus::Diff {
                    Style { bold: true, ..Style::new().fg(theme.text) }
                } else {
                    Style::new().fg(theme.inactive_fg)
                };
                let path = self.files[self.selected].path.clone();
                let height: usize = body.height as usize;
                let count: usize = self.file.rows.len();
                let top: usize = self.file.scroll;
                let mut lines: Vec<(Run, Run)> = Vec::new();
                let mut i: usize = 0;
                while i < height && top < count && i < count - top
                    invariant
                        count == self.file.rows@.len(),
                        top == self.file.scroll,
                        lines@.len() == i,
                        i <= height,
                        i <= rows_shown(count as int, top as int, height as int),
                        forall|k: int|
                            0 <= k < i ==> is_row(
                                self.file.rows@[top + k],
                                *theme,
                                #[trigger] lines@[k],
                            ),
                    decreases height - i,
                {
                    lines.push(render_row(&self.file.rows[top + i], theme));
                    i += 1;
                }
                DiffPanel::Rows { header: Run { text: path, style: header_style }, lines }
            },
        }
    }

    /// The placeholder message for the diff pane, if no diff should be drawn.
    pub fn placeholder(&self) -> (r: Option<&'static str>)
        ensures
            match (r, self.message()) {
                (Some(m), Some(n)) => m@ == n,
                (None, None) => true,
                _ => false,
            },
    {
        if self.root.is_none() {
            Some("No git repository found.")
        } else if self.files.len() == 0 {
            Some("No changes against HEAD.")
        } else if self.file.binary {
            Some("Binary file — not shown.")
        } else if self.file.rows.len() == 0 {
            Some("No changes in this file.")
        } else {
            None
        }
    }

    /// The message that is shown in place of a diff.
    pub open spec fn message(self) -> Option<Seq<char>> {
        if self.root is None {
            Some("No git repository found."@)
        } else if self.files@.len() == 0 {
            Some("No changes against HEAD."@)
        } else if self.file.binary {
            Some("Binary file — not shown."@)
        } else if self.file.rows@.len() == 0 {
            Some("No changes in this file."@)
        } else {
            None
        }
    }

    /// Whether a panel shows what the view holds: the message, or the path of
    /// the selected file and as many rows from the scroll offset on as the body
    /// has room for.
    pub open spec fn is_diff_plan(self, theme: Theme, p: DiffPanel, body: Rect) -> bool {
        match (self.message(), p) {
            (Some(m), DiffPanel::Message(run)) => {
                &&& run.text@ == m
                &&& run.style == Style { fg: Some(theme.text_muted), ..Style::plain() }
            },
            (None, DiffPanel::Rows { header, lines }) => {
                &&& header.text@ == self.files@[self.selected as int].path@
                &&& header.style == if self.focus == DiffFocus::Diff {
                    Style { fg: Some(theme.text), bold: true, ..Style::plain() }
                } else {
                    Style { fg: Some(theme.inactive_fg), ..Style::plain() }
                }
                &&& lines@.len() == rows_shown(
                    self.file.rows@.len() as int,
                    self.file.scroll as int,
                    body.height as int,
                )
                &&& forall|k: int|
                    0 <= k < lines@.len() ==> is_row(
                        self.file.rows@[self.file.scroll + k],
                        theme,
                        #[trigger] lines@[k],
                    )
            },
            _ => false,
        }
    }
}

fn side_text(c: FileContents, absent: bool) -> (r: Option<String>)
    ensures
        match (r, shown_side(c, absent)) {
            (Some(t), Some(s)) => t@ == s,
            (None, None) => true,
            _ => false,
        },
{
    if absent {
        Some(String::new())
    } else {
        match c {
            FileContents::Text(t) => Some(t),
            FileContents::Binary => None,
        }
    }
}

/// What the diff panel shows: a message, or the header and the visible rows,
/// each as its left and its right line.
#[derive(Debug)]
pub enum DiffPanel {
    Message(Run),
    Rows { header: Run, lines: Vec<(Run, Run)> },
}

/// The whole view as it is drawn: the areas of its parts, the rows of the list
/// and the diff panel.
#[derive(Debug)]
pub struct DiffPlan {
    pub list_area: Rect,
    pub list_inner: Rect,
    pub diff_area: Rect,
    pub diff_inner: Rect,
    pub header: Rect,
    pub body: Rect,
    pub left: Rect,
    pub mid: Rect,
    pub right: Rect,
    pub list: Vec<(Run, Run)>,
    pub diff: DiffPanel,
}

/// How many rows from `top` on fit into `height`.
pub open spec fn rows_shown(count: int, top: int, height: int) -> int {
    if top >= count {
        0
    } else if count - top < height {
        count - top
    } else {
        height
    }
}

/// The letter of a change.
pub open spec fn kind_letter(kind: ChangeKind) -> char {
    match kind {
        ChangeKind::Modified => 'M',
        ChangeKind::Added => 'A',
        ChangeKind::Deleted => 'D',
    }
}

/// The color of a change's letter.
pub open spec fn kind_color(kind: ChangeKind, theme: Theme) -> Color {
    match kind {
        ChangeKind::Modified => theme.accent,
        ChangeKind::Added => theme.diff_add_fg,
        ChangeKind::Deleted => theme.diff_del_fg,
    }
}

/// Whether a row of the list shows file `k`: the letter in the change's color
/// and the path; the selected row in the focus foreground, over a background
/// that says whether the list has the focus.
pub open spec fn is_list_row(v: DiffView, theme: Theme, k: int, row: (Run, Run)) -> bool {
    let f = v.files@[k];
    let chosen = Style {
        bg: Some(
            if v.focus == DiffFocus::List {
                theme.focus_bg
            } else {
                theme.inactive_bg
            },
        ),
        fg: Some(theme.focus_fg),
        ..Style::plain()
    };
    &&& row.0.text@ == seq![kind_letter(f.kind), ' ']
    &&& row.1.text@ == f.path@
    &&& row.0.style == if k == v.selected {
        chosen
    } else {
        Style { fg: Some(kind_color(f.kind, theme)), ..Style::plain() }
    }
    &&& row.1.style == if k == v.selected {
        chosen
    } else {
        Style::plain()
    }
}

/// Whether the rows show the changed files.
pub open spec fn is_list(v: DiffView, theme: Theme, rows: Seq<(Run, Run)>) -> bool {
    &&& rows.len() == v.files@.len()
    &&& forall|k: int| 0 <= k < rows.len() ==> is_list_row(v, theme, k, #[trigger] rows[k])
}

/// Whether two lines show a diff row: an equal line on both sides, a removed
/// one at the left and an added one at the right, over from a gap.
pub open spec fn is_row(row: DiffRow, theme: Theme, lines: (Run, Run)) -> bool {
    let gap = Style { bg: Some(theme.diff_gap_bg), ..Style::plain() };
    let nothing = Seq::<char>::empty();
    let (l, r) = (lines.0@, lines.1@);
    match row {
        DiffRow::Equal(t) => l.text == t@ && r.text == t@ && l.style == Style::plain() && r.style
            == Style::plain(),
        DiffRow::Delete(t) => {
            &&& l.text == t@ && r.text == nothing
            &&& l.style == Style {
                fg: Some(theme.diff_del_fg),
                bg: Some(theme.diff_del_bg),
                ..Style::plain()
            }
            &&& r.style == gap
        },
        DiffRow::Insert(t) => {
            &&& l.text == nothing && r.text == t@
            &&& l.style == gap
            &&& r.style == Style {
                fg: Some(theme.diff_add_fg),
                bg: Some(theme.diff_add_bg),
                ..Style::plain()
            }
        },
    }
}

/// Render one diff row into its (left, right) styled lines, gap-filling the
/// opposite side of an insert/delete.
pub fn render_row(row: &DiffRow, theme: &Theme) -> (r: (Run, Run))
    ensures
        is_row(*row, *theme, r),
{
    let gap = Run { text: String::new(), style: Style::new().bg(theme.diff_gap_bg) };
    match row {
        DiffRow::Equal(t) => (
            Run { text: t.clone(), style: Style::new() },
            Run { text: t.clone(), style: Style::new() },
        ),
        DiffRow::Delete(t) => (
            Run {
                text: t.clone(),
                style: Style::new().fg(theme.diff_del_fg).bg(theme.diff_del_bg),
            },
            gap,
        ),
        DiffRow::Insert(t) => (
            gap,
            Run {
                text: t.clone(),
                style: Style::new().fg(theme.diff_add_fg).bg(theme.diff_add_bg),
            },
        ),
    }
}

// ---------------------------------------------------------------------------
// What is seen of a diff.

proof fn lemma_no_side_lines(changes: Seq<(Side, Seq<char>)>, side: Side)
    requires
        side_lines(changes, side).len() == 0,
    ensures
        forall|i: int|
            0 <= i < changes.len() ==> (#[trigger] changes[i]).0 != Side::Both && changes[i].0
                != side,
    decreases changes.len(),
{
    if changes.len() > 0 {
        lemma_no_side_lines(changes.drop_last(), side);
        assert forall|i: int| 0 <= i < changes.len() implies (#[trigger] changes[i]).0 != Side::Both
            && changes[i].0 != side by {
            if i < changes.len() - 1 {
                assert(changes.drop_last()[i] == changes[i]);
            }
        }
    }
}

/// A modified file is shown with the lines of the committed text on one side and
/// those of the text on disk on the other. An added file is all additions and a
/// deleted one all removals, whatever the other side holds. Contents that are no
/// text are flagged, and no rows are shown.
pub proof fn a_diff_shows_both_texts(v: DiffView, f: FileDiff, head: FileContents, disk: FileContents)
    requires
        v.shows(f, head, disk),
        v.root is Some,
        v.selected < v.files@.len(),
    ensures
        ({
            let kind = v.files@[v.selected as int].kind;
            let rows = row_lines(f.rows@);
            let lines = |t: Seq<char>|
                text_lines(unix_lines(t)).map_values(|l: Seq<char>| trim_lf(l));
            &&& kind == ChangeKind::Modified ==> match (head, disk) {
                (FileContents::Text(old), FileContents::Text(new)) => {
                    &&& !f.binary
                    &&& side_lines(rows, Side::Old) == lines(old@)
                    &&& side_lines(rows, Side::New) == lines(new@)
                },
                _ => f.binary && f.rows@.len() == 0,
            }
            &&& kind == ChangeKind::Added ==> match disk {
                FileContents::Text(new) => {
                    &&& !f.binary
                    &&& side_lines(rows, Side::New) == lines(new@)
                    &&& forall|i: int| 0 <= i < rows.len() ==> (#[trigger] rows[i]).0 == Side::New
                },
                FileContents::Binary => f.binary && f.rows@.len() == 0,
            }
            &&& kind == ChangeKind::Deleted ==> match head {
                FileContents::Text(old) => {
                    &&& !f.binary
                    &&& side_lines(rows, Side::Old) == lines(old@)
                    &&& forall|i: int| 0 <= i < rows.len() ==> (#[trigger] rows[i]).0 == Side::Old
                },
                FileContents::Binary => f.binary && f.rows@.len() == 0,
            }
            &&& f.current_hunk == 0 && f.scroll == 0
        }),
{
    let kind = v.files@[v.selected as int].kind;
    let rows = row_lines(f.rows@);
    assert(unix_lines(Seq::empty()) =~= Seq::empty());
    assert(text_lines(unix_lines(Seq::empty())).len() == 0);
    if kind == ChangeKind::Added && disk is Text {
        lemma_no_side_lines(rows, Side::Old);
    }
    if kind == ChangeKind::Deleted && head is Text {
        lemma_no_side_lines(rows, Side::New);
    }
}

/// The left of a row shows the line if the old text has it, and the right if the
/// new one has it; the other side stays empty.
pub proof fn rows_stand_on_their_sides(row: DiffRow, theme: Theme, lines: (Run, Run))
    requires
        is_row(row, theme, lines),
    ensures
        row is Equal <==> row.side() == Side::Both,
        row is Delete <==> row.side() == Side::Old,
        row is Insert <==> row.side() == Side::New,
        row is Equal ==> lines.0.text@ == row.line() && lines.1.text@ == row.line(),
        row is Delete ==> lines.0.text@ == row.line() && lines.1.text@.len() == 0,
        row is Insert ==> lines.0.text@.len() == 0 && lines.1.text@ == row.line(),
        row is Delete ==> lines.0.style.bg == Some(theme.diff_del_bg) && lines.1.style.bg == Some(
            theme.diff_gap_bg,
        ),
        row is Insert ==> lines.1.style.bg == Some(theme.diff_add_bg) && lines.0.style.bg == Some(
            theme.diff_gap_bg,
        ),
{
}

/// As many rows are shown as fit, from the scroll offset on: either the body is
/// full or the last row is shown. A message stands in their place exactly where
/// there is no repository, no changed file, no text, or no row.
pub proof fn rows_fill_the_body(v: DiffView, top: int, height: int)
    requires
        0 <= top,
        0 <= height,
    ensures
        ({
            let count = v.file.rows@.len() as int;
            let n = rows_shown(count, top, height);
            &&& 0 <= n <= height
            &&& top <= count ==> top + n <= count && (n == height || top + n == count)
            &&& top > count ==> n == 0
        }),
        v.message() is None <==> v.root is Some && v.files@.len() > 0 && !v.file.binary
            && v.file.rows@.len() > 0,
{
}

/// Moving the focus, or the place in the diff, changes nothing else of the view.
pub proof fn moving_about_keeps_the_view(v: DiffView, w: DiffView)
    ensures
        v.same_but_focus(w) ==> {
            &&& w.root == v.root && w.files == v.files
            &&& w.selected == v.selected && w.file == v.file
        },
        v.same_but_place(w) ==> {
            &&& w.root == v.root && w.files == v.files
            &&& w.selected == v.selected && w.focus == v.focus
            &&& w.file.rows == v.file.rows && w.file.hunks == v.file.hunks
            &&& w.file.binary == v.file.binary
        },
{
}

/// The list has a row for each changed file: an M for a modified one, an A for an
/// added one and a D for a deleted one, and the path. Only the selected row has a
/// background, which says whether the list has focus.
pub proof fn the_list_shows_the_files(v: DiffView, theme: Theme, rows: Seq<(Run, Run)>, k: int)
    requires
        is_list(v, theme, rows),
        0 <= k < rows.len(),
    ensures
        rows.len() == v.files@.len(),
        rows[k].1.text@ == v.files@[k].path@,
        v.files@[k].kind == ChangeKind::Modified ==> rows[k].0.text@ == seq!['M', ' '],
        v.files@[k].kind == ChangeKind::Added ==> rows[k].0.text@ == seq!['A', ' '],
        v.files@[k].kind == ChangeKind::Deleted ==> rows[k].0.text@ == seq!['D', ' '],
        k == v.selected ==> rows[k].1.style.bg == Some(
            if v.focus == DiffFocus::List {
                theme.focus_bg
            } else {
                theme.inactive_bg
            },
        ),
        k != v.selected ==> rows[k].0.style.bg is None && rows[k].1.style.bg is None,
        k != v.selected && v.files@[k].kind == ChangeKind::Added ==> rows[k].0.style.fg == Some(
            theme.diff_add_fg,
        ),
        k != v.selected && v.files@[k].kind == ChangeKind::Deleted ==> rows[k].0.style.fg == Some(
            theme.diff_del_fg,
        ),
{
    assert(is_list_row(v, theme, k, rows[k]));
}

/// What stands in place of a diff says why there is none.
pub proof fn messages_say_why(v: DiffView)
    ensures
        v.root is None ==> v.message() == Some("No git repository found."@),
        v.root is Some && v.files@.len() == 0 ==> v.message() == Some("No changes against HEAD."@),
        v.root is Some && v.files@.len() > 0 && v.file.binary ==> v.message() == Some(
            "Binary file — not shown."@,
        ),
        v.root is Some && v.files@.len() > 0 && !v.file.binary && v.file.rows@.len() == 0
            ==> v.message() == Some("No changes in this file."@),
{
}

} // verus!
