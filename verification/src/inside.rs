//! Carets that stay within their text: while they do, no key of the editor asks
//! for a place that the text does not have.
use crate::app::{can_repeat, can_take, repeated, took, EditorCommand};
use crate::buffer::{line_content, Buffer, BufferState, SaveJob};
use crate::caret::{
    before, lemma_rank_of, merged, merged_carets_are_distinct, merged_carets_keep_positions, Caret,
};
use crate::editing::{lemma_cut_start, lemma_same_breaks, lemma_split, lemma_starts_there};
use crate::fan_out::{
    ahead_of, apart, back_from, batch_start, break_char, by_start, can_fan_out, caret_has_index,
    edits_fit, fanned_out, has_index, index_at, last_end, lemma_by_start_ordered,
    lemma_by_start_slots, lemma_plans_apart, plan_edits, plan_of, plans_apart, plans_of, replaced,
    stays_indexable, strokes_apart, woven, wrap, Batch, CaretEdit, Slot, Stroke,
};
use crate::history::{cut_out, put_in};
use crate::motion::{moved_cursor, Move};
use crate::pane::{
    all_carets, can_cut, can_type, caret_at_index, lemma_run_places, noted, start_of, struck,
    typed_over, without_selection, EditorPane,
};
use crate::rope::{
    breaks_before, ends_line, lemma_breaks_monotone, lemma_line_bounds, lemma_line_start,
    lemma_line_start_past, lemma_own_line, lemma_seek_line, line_start, line_total,
};
use vstd::prelude::*;

verus! {

/// Whether a line and column lie within a text: there is such a line, and the
/// place is not past the end.
pub open spec fn within(t: Seq<char>, p: (usize, usize)) -> bool {
    p.0 < line_total(t) && line_start(t, p.0 as int) + p.1 <= t.len()
}

/// Whether a caret and the other end of its selection lie within a text.
pub open spec fn caret_within(t: Seq<char>, c: Caret) -> bool {
    within(t, c.at()) && (c.anchor matches Some(a) ==> within(t, a))
}

/// Whether every caret of a pane lies within a text.
pub open spec fn pane_within(p: EditorPane, t: Seq<char>) -> bool {
    &&& caret_within(t, p.caret())
    &&& forall|i: int| 0 <= i < p.secondary@.len() ==> caret_within(t, #[trigger] p.secondary@[i])
}

// ---------------------------------------------------------------------------
// Places in an edited text.

/// Removing what follows a place leaves the place within the text.
proof fn lemma_cut_within(t: Seq<char>, p: (usize, usize), e: int)
    requires
        within(t, p),
        index_at(t, p) <= e <= t.len(),
    ensures
        within(cut_out(t, index_at(t, p) as int, e), p),
{
    let line = p.0 as int;
    let s = index_at(t, p) as int;
    let u = cut_out(t, s, e);
    lemma_line_start(t, line);
    let k = line_start(t, line);
    if s == e {
        assert(u =~= t);
    } else if !(k == s && s > 0 && t[s - 1] == '\r' && e < t.len() && t[e] == '\n') {
        lemma_cut_start(t, line, s, e);
    } else {
        // The carriage return before the place takes the line feed after it.
        assert forall|m: int| 0 < m <= s - 1 implies (#[trigger] ends_line(t, m)) == ends_line(
            u,
            m + 0,
        ) by {
            assert(u[m - 1] == t[m - 1]);
            assert(u[m] == t[m]);
        }
        lemma_same_breaks(t, u, 0, s - 1, 0);
        assert(u[s - 1] == '\r' && u[s] == '\n');
        assert(!ends_line(u, s));
        assert(ends_line(u, s + 1));
        assert(breaks_before(t, s) == breaks_before(t, s - 1) + 1);
        assert(breaks_before(u, s) == breaks_before(u, s - 1));
        assert(breaks_before(u, s + 1) == line);
        lemma_starts_there(u, line, s + 1);
        lemma_breaks_monotone(u, s + 1, u.len() as int);
    }
}

/// Whether a character in place of what follows a place, up to `e`, is a line
/// feed that a carriage return takes into its own break at the very end of the
/// text: the place behind it is then on a line that there is not.
pub open spec fn completes_last_break(t: Seq<char>, p: (usize, usize), e: int, ch: char) -> bool {
    let s = index_at(t, p) as int;
    &&& ch == '\n'
    &&& p.1 == 0
    &&& 0 < s <= e == t.len()
    &&& t[s - 1] == '\r'
}

/// Where what a caret has selected starts, and the index where it ends: nothing
/// is removed where the end is not behind the start.
pub open spec fn span_at(t: Seq<char>, c: Caret) -> ((usize, usize), int) {
    let from = start_of(c);
    let s = index_at(t, from) as int;
    match c.selection() {
        Some(sel) if s < index_at(t, sel.1) => (from, index_at(t, sel.1) as int),
        _ => (from, s),
    }
}

/// Whether typing a character over a caret's selection does so.
pub open spec fn types_last_break(t: Seq<char>, c: Caret, ch: char) -> bool {
    completes_last_break(t, span_at(t, c).0, span_at(t, c).1, ch)
}

/// A character typed in place of what follows a place leaves the place behind it
/// within the text, unless it is a line feed at the very end that a carriage
/// return takes.
proof fn lemma_typed_within(t: Seq<char>, p: (usize, usize), e: int, ch: char)
    requires
        within(t, p),
        index_at(t, p) <= e <= t.len(),
        !completes_last_break(t, p, e, ch),
        cut_out(t, index_at(t, p) as int, e).len() < usize::MAX,
    ensures
        ({
            let s = index_at(t, p) as int;
            within(put_in(cut_out(t, s, e), s, seq![ch]), (p.0, (p.1 + 1) as usize))
        }),
        p.1 + 1 <= usize::MAX,
{
    let line = p.0 as int;
    lemma_line_start(t, line);
    let k = line_start(t, line);
    let i = index_at(t, p) as int;
    let u = put_in(cut_out(t, i, e), i, seq![ch]);
    assert(u.len() == i + 1 + t.len() - e);
    assert(u[i] == ch);
    assert forall|m: int| 0 <= m < i implies (#[trigger] u[m]) == t[m] by {}
    if k == i && i > 0 && t[i - 1] == '\r' && ch == '\n' {
        assert forall|m: int| 0 < m <= i - 1 implies (#[trigger] ends_line(t, m)) == ends_line(
            u,
            m + 0,
        ) by {
            assert(u[m - 1] == t[m - 1]);
            assert(u[m] == t[m]);
        }
        lemma_same_breaks(t, u, 0, i - 1, 0);
        assert(u[i - 1] == '\r');
        assert(!ends_line(u, i));
        assert(ends_line(u, i + 1));
        assert(breaks_before(t, i) == breaks_before(t, i - 1) + 1);
        assert(breaks_before(u, i) == breaks_before(u, i - 1));
        assert(breaks_before(u, i + 1) == line);
        lemma_starts_there(u, line, i + 1);
        lemma_breaks_monotone(u, i + 1, u.len() as int);
    } else {
        assert forall|m: int| 0 < m <= k implies (#[trigger] ends_line(t, m)) == ends_line(
            u,
            m + 0,
        ) by {
            assert(u[m - 1] == t[m - 1]);
            if m < i {
                assert(u[m] == t[m]);
            }
        }
        lemma_same_breaks(t, u, 0, k, 0);
        if k > 0 {
            lemma_same_breaks(t, u, 0, k - 1, 0);
        }
        lemma_starts_there(u, line, k);
        lemma_breaks_monotone(u, k, u.len() as int);
    }
}

/// A line break typed in place of what follows a place leaves the start of the
/// next line within the text.
proof fn lemma_broken_within(t: Seq<char>, p: (usize, usize), e: int)
    requires
        within(t, p),
        index_at(t, p) <= e <= t.len(),
        cut_out(t, index_at(t, p) as int, e).len() < usize::MAX,
    ensures
        ({
            let i = index_at(t, p) as int;
            let cut = cut_out(t, i, e);
            let u = put_in(cut, i, seq![break_char(cut, i, i)]);
            p.0 + 1 <= usize::MAX && within(u, ((p.0 + 1) as usize, 0))
        }),
{
    let line = p.0 as int;
    lemma_line_start(t, line);
    let i = index_at(t, p) as int;
    let k = line_start(t, line);
    let cut = cut_out(t, i, e);
    let u = put_in(cut, i, seq![break_char(cut, i, i)]);
    assert(u.len() == cut.len() + 1);
    lemma_breaks_monotone(u, 0, u.len() as int);
    if i < e && k == i && i > 0 && t[i - 1] == '\r' && e < t.len() && t[e] == '\n' {
        // The carriage return before the place takes one of the two line feeds.
        assert(cut[i - 1] == '\r' && cut[i] == '\n');
        assert(u[i - 1] == '\r' && u[i] == '\n' && u[i + 1] == '\n');
        assert forall|m: int| 0 < m <= i - 1 implies (#[trigger] ends_line(t, m)) == ends_line(
            u,
            m + 0,
        ) by {
            assert(u[m - 1] == t[m - 1]);
            assert(u[m] == t[m]);
        }
        lemma_same_breaks(t, u, 0, i - 1, 0);
        assert(breaks_before(t, i) == breaks_before(t, i - 1) + 1);
        assert(!ends_line(u, i) && ends_line(u, i + 1) && ends_line(u, i + 2));
        assert(breaks_before(u, i) == breaks_before(u, i - 1));
        assert(breaks_before(u, i + 1) == breaks_before(u, i) + 1);
        assert(breaks_before(u, i + 2) == breaks_before(u, i + 1) + 1);
        lemma_breaks_monotone(u, i + 2, u.len() as int);
    } else {
        if i < e {
            lemma_cut_start(t, line, i, e);
        } else {
            assert(cut =~= t);
        }
        lemma_line_start(cut, line);
        lemma_split(cut, i);
        lemma_breaks_monotone(cut, k, i);
        lemma_breaks_monotone(u, i + 1, u.len() as int);
    }
    lemma_line_start(u, line + 1);
}

/// The place of an index lies within the text.
proof fn lemma_position_within(t: Seq<char>, i: int)
    requires
        0 <= i,
        t.len() <= usize::MAX,
    ensures
        caret_within(t, caret_at_index(t, i)),
        index_at(t, caret_at_index(t, i).at()) == if i <= t.len() {
            i
        } else {
            t.len() as int
        },
{
    let k = if i <= t.len() {
        i
    } else {
        t.len() as int
    };
    lemma_own_line(t, k);
    lemma_breaks_monotone(t, 0, t.len() as int);
    lemma_breaks_monotone(t, 0, k);
}

/// A place within a text has an index there.
proof fn lemma_within_index(t: Seq<char>, p: (usize, usize))
    requires
        within(t, p),
        t.len() <= usize::MAX,
    ensures
        has_index(t, p),
        index_at(t, p) <= t.len(),
        line_start(t, p.0 as int) >= 0,
{
    lemma_line_start(t, p.0 as int);
}

/// The text without the selection, and the place where it was.
proof fn lemma_without_selection(b: BufferState, c: Caret)
    requires
        caret_within(b.text, c),
        b.text.len() <= usize::MAX,
    ensures
        ({
            let (cut, cursor) = without_selection(noted(b, c), c);
            let (from, e) = span_at(b.text, c);
            let s = index_at(b.text, from) as int;
            &&& can_cut(b.text, c)
            &&& within(b.text, from)
            &&& s <= e <= b.text.len()
            &&& from == start_of(c)
            &&& cut.text == cut_out(b.text, s, e)
            &&& (cursor.line, cursor.col) == from
            &&& within(cut.text, from)
            &&& cut.text.len() <= b.text.len()
        }),
{
    lemma_within_index(b.text, c.at());
    match c.selection() {
        Some(sel) => {
            lemma_within_index(b.text, sel.0);
            lemma_within_index(b.text, sel.1);
            let s = index_at(b.text, sel.0);
            let e = index_at(b.text, sel.1);
            if s < e {
                lemma_cut_within(b.text, sel.0, e as int);
                assert(b.text.subrange(s as int, e as int).len() == e - s);
            } else {
                assert(cut_out(b.text, s as int, s as int) =~= b.text);
            }
        },
        None => {
            let s = index_at(b.text, c.at()) as int;
            assert(cut_out(b.text, s, s) =~= b.text);
        },
    }
}

/// Text can be typed over the selection of a caret that lies within its text.
proof fn lemma_can_type(b: BufferState, c: Caret)
    requires
        caret_within(b.text, c),
        b.text.len() + 1 <= usize::MAX,
    ensures
        can_type(b, c, 1),
{
    lemma_without_selection(b, c);
    lemma_within_index(b.text, c.at());
}

// ---------------------------------------------------------------------------
// Many carets.

/// How long the text gets: no longer than by what is put in, and never longer
/// than can be indexed.
proof fn lemma_run_len(start: Batch, slots: Seq<Slot>)
    requires
        start.run_fits(slots),
        start.buffer.text.len() <= usize::MAX,
        forall|i: int| 0 <= i < slots.len() ==> (#[trigger] slots[i]).plan.text.len() <= 1,
    ensures
        start.run(slots).buffer.text.len() <= start.buffer.text.len() + slots.len(),
        start.run(slots).buffer.text.len() <= usize::MAX,
    decreases slots.len(),
{
    if slots.len() > 0 {
        let rest = slots.drop_last();
        assert forall|i: int| 0 <= i < rest.len() implies (#[trigger] rest[i]).plan.text.len()
            <= 1 by {
            assert(rest[i] == slots[i]);
        }
        lemma_run_len(start, rest);
        let now = start.run(rest);
        let last = slots.last();
        assert(slots[slots.len() - 1] == last);
        let t = now.buffer.text;
        let s = wrap(last.plan.start + now.shift);
        let e = wrap(last.plan.end + now.shift);
        if s < e {
            assert(t.subrange(s as int, e as int).len() == e - s);
        }
    }
}

/// What one character at every caret asks for is one character each.
proof fn lemma_plan_texts(t: Seq<char>, carets: Seq<Caret>, stroke: Stroke)
    requires
        stroke matches Stroke::Replace(x) ==> x.len() <= 1,
    ensures
        forall|i: int|
            0 <= i < carets.len() ==> (#[trigger] by_start(
                plans_of(t, carets, stroke),
            )[i]).plan.text.len() <= 1,
        by_start(plans_of(t, carets, stroke)).len() == carets.len(),
{
    let plans = plans_of(t, carets, stroke);
    lemma_by_start_slots(plans);
    assert forall|i: int| 0 <= i < carets.len() implies (#[trigger] by_start(
        plans,
    )[i]).plan.text.len() <= 1 by {
        let k = by_start(plans)[i].slot as int;
        assert(plans[k] == plan_of(t, carets[k], stroke));
    }
}

/// A text whose edits lie apart grows by no more than what is put in.
proof fn lemma_woven_len(t: Seq<char>, slots: Seq<Slot>)
    requires
        apart(slots, t.len()),
        forall|i: int| 0 <= i < slots.len() ==> (#[trigger] slots[i]).plan.text.len() <= 1,
    ensures
        last_end(slots) <= t.len(),
        woven(t, slots).len() <= last_end(slots) + slots.len(),
    decreases slots.len(),
{
    if slots.len() > 0 {
        let rest = slots.drop_last();
        assert forall|i: int| 0 <= i < rest.len() implies (#[trigger] rest[i]) == slots[i] by {}
        lemma_woven_len(t, rest);
        assert(slots[slots.len() - 1] == slots.last());
        if rest.len() > 0 {
            assert(slots[slots.len() - 2] == rest.last());
        }
    }
}

proof fn lemma_stays_indexable(t: Seq<char>, slots: Seq<Slot>)
    requires
        apart(slots, t.len()),
        forall|i: int| 0 <= i < slots.len() ==> (#[trigger] slots[i]).plan.text.len() <= 1,
        t.len() + slots.len() <= usize::MAX,
    ensures
        stays_indexable(t, slots),
{
    assert forall|k: int| 0 <= k <= slots.len() implies (#[trigger] replaced(
        t,
        slots.take(k),
    )).len() <= usize::MAX by {
        let some = slots.take(k);
        assert forall|i: int| 0 <= i < some.len() implies (#[trigger] some[i]) == slots[i] by {}
        lemma_woven_len(t, some);
    }
}

/// A stroke of one character at carets within the text that do not overlap can
/// be made.
proof fn lemma_can_strike(b: BufferState, carets: Seq<Caret>, stroke: Stroke)
    requires
        forall|i: int| 0 <= i < carets.len() ==> caret_within(b.text, #[trigger] carets[i]),
        plans_apart(b.text, plans_of(b.text, carets, stroke)),
        stroke matches Stroke::Replace(x) ==> x.len() <= 1,
        b.text.len() + carets.len() <= usize::MAX,
    ensures
        can_fan_out(b, carets, stroke),
{
    let t = b.text;
    let plans = plans_of(t, carets, stroke);
    let slots = by_start(plans);
    assert forall|i: int| 0 <= i < carets.len() implies caret_has_index(
        t,
        #[trigger] carets[i],
    ) by {
        assert(caret_within(t, carets[i]));
        lemma_within_index(t, carets[i].at());
        if carets[i].anchor is Some {
            lemma_within_index(t, carets[i].anchor->0);
        }
    }
    lemma_plan_texts(t, carets, stroke);
    lemma_by_start_slots(plans);
    lemma_by_start_ordered(plans);
    assert forall|i: int| 0 <= i < slots.len() implies (#[trigger] slots[i]).plan.start
        <= slots[i].plan.end <= t.len() by {
        assert(slots[i].plan == plans[slots[i].slot as int]);
    }
    assert forall|i: int, j: int| 0 <= i < j < slots.len() implies (#[trigger] slots[i]).plan.end
        <= (#[trigger] slots[j]).plan.start by {
        assert(slots[i].plan == plans[slots[i].slot as int]);
        assert(slots[j].plan == plans[slots[j].slot as int]);
        assert(slots[i].slot != slots[j].slot);
    }
    lemma_stays_indexable(t, slots);
    strokes_apart(b, carets, stroke);
}

/// Merging adds no caret.
proof fn lemma_merged_len(primary: (usize, usize), carets: Seq<Caret>)
    ensures
        merged(primary, carets).len() <= carets.len(),
    decreases carets.len(),
{
    if carets.len() > 0 {
        let rest = merged(primary, carets.drop_last());
        lemma_merged_len(primary, carets.drop_last());
        merged_carets_are_distinct(primary, carets.drop_last());
        lemma_rank_of(rest, carets.last().at());
    }
}

/// After a stroke at every caret the carets lie within the text, have no
/// selections and stand at different places.
proof fn lemma_struck_within(
    p: EditorPane,
    b: BufferState,
    stroke: Stroke,
    q: EditorPane,
    c: BufferState,
)
    requires
        struck(p, b, stroke, q, c),
        can_fan_out(b, all_carets(p), stroke),
        stroke matches Stroke::Replace(x) ==> x.len() <= 1,
        b.text.len() <= usize::MAX,
    ensures
        pane_within(q, c.text),
        c.text.len() <= b.text.len() + all_carets(p).len(),
        c.text.len() <= usize::MAX,
        all_carets(q).len() <= all_carets(p).len(),
        forall|i: int| 0 <= i < all_carets(q).len() ==> (#[trigger] all_carets(q)[i]).anchor is None,
        forall|i: int, j: int|
            0 <= i < j < all_carets(q).len() ==> index_at(c.text, (#[trigger] all_carets(q)[i]).at())
                != index_at(c.text, (#[trigger] all_carets(q)[j]).at()),
{
    let carets = all_carets(p);
    let plans = plans_of(b.text, carets, stroke);
    let start = batch_start(b, carets.len());
    let batch = fanned_out(b, carets, stroke);
    let t = batch.buffer.text;
    let placed = batch.places.map_values(|i: nat| caret_at_index(t, i as int));
    lemma_plan_texts(b.text, carets, stroke);
    lemma_by_start_slots(plans);
    assert forall|i: int| 0 <= i < by_start(plans).len() implies (#[trigger] by_start(
        plans,
    )[i]).slot < start.places.len() by {}
    lemma_run_places(start, by_start(plans));
    lemma_run_len(start, by_start(plans));
    assert(c.text == t);
    assert forall|i: int| 0 <= i < placed.len() implies caret_within(t, #[trigger] placed[i])
        && placed[i].anchor is None by {
        lemma_position_within(t, batch.places[i] as int);
    }
    let rest = placed.skip(1);
    let at = placed[0].at();
    merged_carets_keep_positions(at, rest);
    merged_carets_are_distinct(at, rest);
    lemma_merged_len(at, rest);
    let all = all_carets(q);
    assert(all[0] == placed[0]);
    assert forall|i: int| 0 <= i < all.len() implies placed.contains(#[trigger] all[i]) by {
        if i > 0 {
            let m = q.secondary@[i - 1];
            assert(all[i] == m);
            assert(rest.contains(m));
            let k = choose|k: int| 0 <= k < rest.len() && rest[k] == m;
            assert(placed[k + 1] == m);
        } else {
            assert(placed[0] == all[0]);
        }
    }
    assert forall|i: int| 0 <= i < q.secondary@.len() implies caret_within(
        t,
        #[trigger] q.secondary@[i],
    ) by {
        assert(all[i + 1] == q.secondary@[i]);
        assert(placed.contains(all[i + 1]));
    }
    assert forall|i: int, j: int| 0 <= i < j < all.len() implies index_at(
        t,
        (#[trigger] all[i]).at(),
    ) != index_at(t, (#[trigger] all[j]).at()) by {
        assert(placed.contains(all[i]) && placed.contains(all[j]));
        let k = choose|k: int| 0 <= k < placed.len() && placed[k] == all[i];
        let l = choose|l: int| 0 <= l < placed.len() && placed[l] == all[j];
        lemma_position_within(t, batch.places[k] as int);
        lemma_position_within(t, batch.places[l] as int);
        assert(all[j] == q.secondary@[j - 1]);
        if i > 0 {
            assert(all[i] == q.secondary@[i - 1]);
            assert(before(q.secondary@[i - 1].at(), q.secondary@[j - 1].at()));
        }
        assert(all[i].at() != all[j].at());
        assert(all[i] == caret_at_index(t, batch.places[k] as int));
        assert(all[j] == caret_at_index(t, batch.places[l] as int));
    }
}

// ---------------------------------------------------------------------------
// Typing.

/// Typing a character keeps the carets within the text.
proof fn lemma_inserted_within(
    p: EditorPane,
    b: BufferState,
    ch: char,
    q: EditorPane,
    c: BufferState,
)
    requires
        pane_within(p, b.text),
        b.text.len() <= usize::MAX,
        p.can_insert(b, ch),
        p.secondary@.len() == 0 ==> !types_last_break(b.text, p.caret(), ch),
        p.inserted(b, ch, q, c),
    ensures
        pane_within(q, c.text),
        c.text.len() <= usize::MAX,
        c.text.len() <= b.text.len() + all_carets(p).len(),
        all_carets(q).len() <= all_carets(p).len(),
        q.caret().anchor is None,
        q.secondary@.len() > 0 ==> plans_apart(
            c.text,
            plans_of(c.text, all_carets(q), Stroke::Replace(seq![ch])),
        ),
{
    if p.secondary@.len() == 0 {
        let caret = p.caret();
        lemma_without_selection(b, caret);
        let (from, e) = span_at(b.text, caret);
        lemma_within_index(b.text, from);
        lemma_typed_within(b.text, from, e, ch);
    } else {
        lemma_struck_apart(p, b, ch, q, c);
    }
}

/// After a character is typed at every caret, another one can be.
proof fn lemma_struck_apart(
    p: EditorPane,
    b: BufferState,
    ch: char,
    q: EditorPane,
    c: BufferState,
)
    requires
        b.text.len() <= usize::MAX,
        can_fan_out(b, all_carets(p), Stroke::Replace(seq![ch])),
        struck(p, b, Stroke::Replace(seq![ch]), q, c),
    ensures
        pane_within(q, c.text),
        c.text.len() <= usize::MAX,
        c.text.len() <= b.text.len() + all_carets(p).len(),
        all_carets(q).len() <= all_carets(p).len(),
        q.caret().anchor is None,
        plans_apart(c.text, plans_of(c.text, all_carets(q), Stroke::Replace(seq![ch]))),
{
    let stroke = Stroke::Replace(seq![ch]);
    lemma_struck_within(p, b, stroke, q, c);
    let all = all_carets(q);
    assert(all[0] == q.caret());
    assert forall|i: int| 0 <= i < all.len() implies index_at(c.text, (#[trigger] all[i]).at())
        <= c.text.len() by {
        if i > 0 {
            assert(all[i] == q.secondary@[i - 1]);
        }
        lemma_within_index(c.text, all[i].at());
    }
    lemma_plans_apart(c.text, all, stroke);
}

/// Whether a character can be typed at the carets of a pane some times.
spec fn ready(p: EditorPane, b: BufferState, ch: char, times: nat) -> bool {
    &&& pane_within(p, b.text)
    &&& b.text.len() + times * all_carets(p).len() <= usize::MAX
    &&& p.secondary@.len() > 0 ==> plans_apart(
        b.text,
        plans_of(b.text, all_carets(p), Stroke::Replace(seq![ch])),
    )
}

proof fn lemma_can_insert(p: EditorPane, b: BufferState, ch: char)
    requires
        ready(p, b, ch, 1),
    ensures
        p.can_insert(b, ch),
{
    if p.secondary@.len() == 0 {
        lemma_can_type(b, p.caret());
    } else {
        lemma_carets_within(p, b.text);
        lemma_can_strike(b, all_carets(p), Stroke::Replace(seq![ch]));
    }
}

proof fn lemma_carets_within(p: EditorPane, t: Seq<char>)
    requires
        pane_within(p, t),
    ensures
        forall|i: int| 0 <= i < all_carets(p).len() ==> caret_within(t, #[trigger] all_carets(p)[i]),
{
    assert forall|i: int| 0 <= i < all_carets(p).len() implies caret_within(
        t,
        #[trigger] all_carets(p)[i],
    ) by {
        if i > 0 {
            assert(all_carets(p)[i] == p.secondary@[i - 1]);
        }
    }
}

proof fn lemma_room(len: nat, carets: nat, after: nat, left: nat, times: nat)
    requires
        len + times * carets <= usize::MAX,
        times > 0,
        after <= len + carets,
        left <= carets,
    ensures
        after + (times - 1) * left <= usize::MAX,
        len + carets <= usize::MAX,
{
    assert(len + carets + (times - 1) * carets == len + times * carets) by (nonlinear_arith);
    assert((times - 1) * left <= (times - 1) * carets) by (nonlinear_arith)
        requires
            left <= carets,
            times > 0,
    ;
    assert(0 <= (times - 1) * carets) by (nonlinear_arith)
        requires
            times > 0,
    ;
}

proof fn lemma_can_repeat(p: EditorPane, b: BufferState, ch: char, n: nat)
    requires
        ready(p, b, ch, n),
        ch != '\n',
    ensures
        can_repeat(p, b, ch, n),
    decreases n,
{
    if n > 0 {
        lemma_room(b.text.len(), all_carets(p).len(), b.text.len(), 0, n);
        assert(ready(p, b, ch, 1));
        lemma_can_insert(p, b, ch);
        assert forall|q: EditorPane, c: BufferState| #[trigger]
            p.inserted(b, ch, q, c) implies can_repeat(q, c, ch, (n - 1) as nat) by {
            lemma_inserted_within(p, b, ch, q, c);
            lemma_room(
                b.text.len(),
                all_carets(p).len(),
                c.text.len(),
                all_carets(q).len(),
                n,
            );
            lemma_can_repeat(q, c, ch, (n - 1) as nat);
        }
    }
}

proof fn lemma_repeated_within(
    p: EditorPane,
    b: BufferState,
    ch: char,
    n: nat,
    q: EditorPane,
    c: BufferState,
)
    requires
        pane_within(p, b.text),
        b.text.len() <= usize::MAX,
        ch != '\n',
        can_repeat(p, b, ch, n),
        repeated(p, b, ch, n, q, c),
    ensures
        pane_within(q, c.text),
    decreases n,
{
    if n > 0 {
        let (m, d) = choose|m: EditorPane, d: BufferState| #[trigger]
            p.inserted(b, ch, m, d) && repeated(m, d, ch, (n - 1) as nat, q, c);
        lemma_inserted_within(p, b, ch, m, d);
        lemma_repeated_within(m, d, ch, (n - 1) as nat, q, c);
    }
}

// ---------------------------------------------------------------------------
// Moving.

/// A movement keeps a caret within the text.
proof fn lemma_moved_within(t: Seq<char>, c: Caret, mv: Move, extend: bool)
    requires
        caret_within(t, c),
        t.len() < usize::MAX,
        mv is Left || mv is Right || mv is Up || mv is Down || mv is LineStart || mv is LineEnd
            || mv is PageUp || mv is PageDown,
    ensures
        caret_within(t, crate::motion::moved(t, c, mv, extend)),
{
    lemma_breaks_monotone(t, 0, t.len() as int);
    let line = c.cursor.line as int;
    let n = moved_cursor(t, c.cursor, mv);
    lemma_place(t, line);
    if line > 0 {
        lemma_place(t, line - 1);
    }
    if line + 1 < line_total(t) {
        lemma_place(t, line + 1);
    }
    match mv {
        Move::PageUp(page) => {
            let up = if line >= page {
                line - page
            } else {
                0
            };
            lemma_place(t, up);
        },
        Move::PageDown(page) => {
            let last = line_total(t) - 1;
            lemma_place(
                t,
                if line + page <= last {
                    line + page
                } else {
                    last
                },
            );
        },
        _ => {},
    }
}

/// A line that there is starts, and its content ends, within the text.
proof fn lemma_place(t: Seq<char>, line: int)
    requires
        0 <= line < line_total(t),
    ensures
        0 <= line_start(t, line),
        line_start(t, line) + line_content(t, line).len() <= t.len(),
{
    lemma_line_bounds(t, line);
    crate::text::lemma_trim_line_end_prefix(crate::rope::line_with_break(t, line));
}

// ---------------------------------------------------------------------------
// The laws.

/// What a command does at each of several carets, if it edits.
pub open spec fn stroke_of(cmd: EditorCommand) -> Option<Stroke> {
    match cmd {
        EditorCommand::Newline => Some(Stroke::Break),
        EditorCommand::Backspace => Some(Stroke::Backspace),
        EditorCommand::Delete => Some(Stroke::Delete),
        EditorCommand::Tab => Some(Stroke::Replace(seq![' '])),
        EditorCommand::Insert(ch) => Some(Stroke::Replace(seq![ch])),
        _ => None,
    }
}

/// An editor pane whose carets lie within its text can take every command: no
/// key asks for a place that the text does not have. With several carets, what
/// they replace must not overlap, nor be one range twice.
pub proof fn carets_within_can_edit(p: EditorPane, b: BufferState, cmd: EditorCommand)
    requires
        pane_within(p, b.text),
        p.secondary@.len() > 0 ==> (stroke_of(cmd) matches Some(stroke) ==> plans_apart(
            b.text,
            plans_of(b.text, all_carets(p), stroke),
        )),
        b.text.len() + 4 * all_carets(p).len() < usize::MAX,
        p.page() + b.text.len() < usize::MAX,
    ensures
        can_take(p, b, cmd),
{
    lemma_breaks_monotone(b.text, 0, b.text.len() as int);
    lemma_without_selection(b, p.caret());
    lemma_within_index(b.text, p.caret().at());
    lemma_carets_within(p, b.text);
    match cmd {
        EditorCommand::Tab => {
            lemma_can_repeat(p, b, ' ', 4);
        },
        EditorCommand::Insert(ch) => {
            lemma_can_insert(p, b, ch);
        },
        EditorCommand::PageDown => {
            assert forall|i: int| 0 <= i < p.secondary@.len() implies crate::motion::can_move(
                b.text,
                (#[trigger] p.secondary@[i]).cursor,
                Move::PageDown(p.page()),
            ) by {
                assert(caret_within(b.text, p.secondary@[i]));
            }
        },
        EditorCommand::Newline | EditorCommand::Backspace | EditorCommand::Delete => {
            if p.secondary@.len() == 0 {
                lemma_can_type(b.finalized(), p.caret());
            } else {
                lemma_can_strike(b, all_carets(p), stroke_of(cmd)->0);
            }
        },
        _ => {},
    }
}

/// Every command leaves the carets of an editor pane within its text, but for a
/// line feed typed at the very end of the text, behind a carriage return that
/// takes it into its own break.
pub proof fn editing_keeps_carets_within(
    p: EditorPane,
    b: BufferState,
    cmd: EditorCommand,
    extend: bool,
    q: EditorPane,
    c: BufferState,
    job: Option<SaveJob>,
)
    requires
        pane_within(p, b.text),
        b.text.len() < usize::MAX,
        can_take(p, b, cmd),
        p.secondary@.len() == 0 ==> (cmd matches EditorCommand::Insert(ch) ==> !types_last_break(
            b.text,
            p.caret(),
            ch,
        )),
        took(p, b, cmd, extend, q, c, job),
    ensures
        pane_within(q, c.text),
{
    let caret = p.caret();
    let t = b.text;
    lemma_within_index(t, caret.at());
    lemma_without_selection(b, caret);
    let one = p.secondary@.len() == 0;
    match cmd {
        EditorCommand::Save => {},
        EditorCommand::Left => {
            lemma_moved_pane(p, q, t, Move::Left, extend);
        },
        EditorCommand::Right => {
            lemma_moved_pane(p, q, t, Move::Right, extend);
        },
        EditorCommand::Up => {
            lemma_moved_pane(p, q, t, Move::Up, extend);
        },
        EditorCommand::Down => {
            lemma_moved_pane(p, q, t, Move::Down, extend);
        },
        EditorCommand::LineStart => {
            lemma_moved_pane(p, q, t, Move::LineStart, extend);
        },
        EditorCommand::LineEnd => {
            lemma_moved_pane(p, q, t, Move::LineEnd, extend);
        },
        EditorCommand::PageUp => {
            lemma_moved_pane(p, q, t, Move::PageUp(p.page()), extend);
        },
        EditorCommand::PageDown => {
            lemma_moved_pane(p, q, t, Move::PageDown(p.page()), extend);
        },
        EditorCommand::Newline => {
            if one {
                lemma_without_selection(b.finalized(), caret);
                let (from, e) = span_at(t, caret);
                lemma_broken_within(t, from, e);
            } else {
                lemma_struck_within(p, b, Stroke::Break, q, c);
            }
        },
        EditorCommand::Backspace => {
            let i = index_at(t, caret.at());
            if !one {
                lemma_struck_within(p, b, Stroke::Backspace, q, c);
            } else if caret.anchor is None && i > 0 {
                let start = back_from(t, i) as int;
                assert(t.subrange(start, i as int).len() == i - start);
                assert(c.text == cut_out(t, start, i as int));
                lemma_position_within(c.text, start);
            }
        },
        EditorCommand::Delete => {
            let i = index_at(t, caret.at());
            if !one {
                lemma_struck_within(p, b, Stroke::Delete, q, c);
            } else if caret.anchor is None && i < t.len() {
                let end = ahead_of(t, i) as int;
                assert(t.subrange(i as int, end).len() == end - i);
                assert(c.text == cut_out(t, i as int, end));
                lemma_cut_within(t, caret.at(), end);
            }
        },
        EditorCommand::Tab => {
            lemma_repeated_within(p, b, ' ', 4, q, c);
        },
        EditorCommand::Insert(ch) => {
            lemma_inserted_within(p, b, ch, q, c);
        },
    }
}

proof fn lemma_moved_pane(p: EditorPane, q: EditorPane, t: Seq<char>, mv: Move, extend: bool)
    requires
        p.moved_to(q, t, mv, extend),
        pane_within(p, t),
        t.len() < usize::MAX,
        mv is Left || mv is Right || mv is Up || mv is Down || mv is LineStart || mv is LineEnd
            || mv is PageUp || mv is PageDown,
    ensures
        pane_within(q, t),
{
    lemma_moved_within(t, p.caret(), mv, extend);
    let all = p.secondary@.map_values(|c: Caret| crate::motion::moved(t, c, mv, extend));
    assert forall|i: int| 0 <= i < all.len() implies caret_within(t, #[trigger] all[i]) by {
        assert(caret_within(t, p.secondary@[i]));
        lemma_moved_within(t, p.secondary@[i], mv, extend);
    }
    merged_carets_keep_positions(q.caret().at(), all);
    assert forall|i: int| 0 <= i < q.secondary@.len() implies caret_within(
        t,
        #[trigger] q.secondary@[i],
    ) by {
        assert(all.contains(q.secondary@[i]));
    }
}

/// Whether a line and column lie within a buffer.
fn lies_within(buffer: &Buffer, p: (usize, usize)) -> (r: bool)
    requires
        buffer@.text.len() < usize::MAX,
    ensures
        r == within(buffer@.text, p),
{
    if p.0 >= buffer.line_count() {
        return false;
    }
    proof {
        lemma_line_start(buffer@.text, p.0 as int);
    }
    let start: usize = buffer.char_idx(p.0, 0);
    p.1 <= buffer.len_chars() - start
}

/// Whether a caret and the other end of its selection lie within a buffer.
fn caret_lies_within(buffer: &Buffer, c: &Caret) -> (r: bool)
    requires
        buffer@.text.len() < usize::MAX,
    ensures
        r == caret_within(buffer@.text, *c),
{
    let anchor = match c.anchor {
        Some(a) => lies_within(buffer, a),
        None => true,
    };
    anchor && lies_within(buffer, (c.cursor.line, c.cursor.col))
}

impl EditorPane {
    /// Whether every caret and the other end of its selection lie within the
    /// buffer. An edit made in another pane can leave them behind.
    pub fn lies_within(&self, buffer: &Buffer) -> (r: bool)
        requires
            buffer@.text.len() < usize::MAX,
        ensures
            r == pane_within(*self, buffer@.text),
    {
        let primary = Caret { cursor: self.cursor, anchor: self.anchor };
        if !caret_lies_within(buffer, &primary) {
            return false;
        }
        let mut i: usize = 0;
        while i < self.secondary.len()
            invariant
                i <= self.secondary@.len(),
                buffer@.text.len() < usize::MAX,
                caret_within(buffer@.text, self.caret()),
                forall|k: int|
                    0 <= k < i ==> caret_within(buffer@.text, #[trigger] self.secondary@[k]),
            decreases self.secondary@.len() - i,
        {
            if !caret_lies_within(buffer, &self.secondary[i]) {
                return false;
            }
            i += 1;
        }
        true
    }
}

// ---------------------------------------------------------------------------
// Testing what a pane can take.

/// The absolute index of a line and column of a buffer, if it has one.
fn index_of(buffer: &Buffer, p: (usize, usize)) -> (r: Option<usize>)
    ensures
        match r {
            Some(i) => has_index(buffer@.text, p) && i == index_at(buffer@.text, p),
            None => !has_index(buffer@.text, p),
        },
{
    let len: usize = buffer.len_chars();
    proof {
        lemma_seek_line(buffer@.text, p.0 as int, 0);
        assert(line_start(buffer@.text, p.0 as int) <= len);
    }
    if p.0 > buffer.line_count() {
        return None;
    }
    let start: usize = buffer.char_idx(p.0, 0);
    if p.1 <= usize::MAX - start {
        Some(start + p.1)
    } else {
        None
    }
}

/// Whether the selection of a caret can be removed.
fn can_cut_at(buffer: &Buffer, c: &Caret) -> (r: bool)
    ensures
        r == can_cut(buffer@.text, *c),
{
    match c.ordered_selection() {
        None => true,
        Some((a, b)) => match (index_of(buffer, a), index_of(buffer, b)) {
            (Some(s), Some(e)) => s >= e || e <= buffer.len_chars(),
            _ => false,
        },
    }
}

/// Whether a character can be typed over the selection or at the caret, and
/// whether that is on a line that there is.
fn can_type_at(buffer: &Buffer, c: &Caret) -> (r: (bool, bool))
    ensures
        r.0 == can_type(buffer@, *c, 1),
        r.0 ==> r.1 == (start_of(*c).0 < line_total(buffer@.text)),
{
    let len: usize = buffer.len_chars();
    let at = match index_of(buffer, (c.cursor.line, c.cursor.col)) {
        Some(i) => i,
        None => return (false, false),
    };
    if !can_cut_at(buffer, c) {
        return (false, false);
    }
    match c.ordered_selection() {
        None => (at <= len && len < usize::MAX, c.cursor.line < buffer.line_count()),
        Some((a, b)) => {
            let ghost t = buffer@.text;
            proof {
                lemma_seek_line(t, a.0 as int, 0);
                lemma_seek_line(t, b.0 as int, 0);
            }
            let s: usize = buffer.char_idx(a.0, a.1);
            let e: usize = buffer.char_idx(b.0, b.1);
            let there = a.0 < buffer.line_count();
            if s < e {
                assert(t.subrange(s as int, e as int).len() == e - s);
                assert(cut_out(t, s as int, e as int).len() == t.len() - (e - s));
                (true, there)
            } else {
                (s <= len && len < usize::MAX, there)
            }
        },
    }
}

/// Whether a stroke can be made at every one of some carets.
fn can_strike(buffer: &Buffer, carets: &Vec<Caret>, edit: &CaretEdit) -> (r: bool)
    ensures
        r == can_fan_out(buffer@, carets@, edit@),
{
    let mut i: usize = 0;
    while i < carets.len()
        invariant
            i <= carets@.len(),
            forall|k: int|
                0 <= k < i ==> caret_has_index(buffer@.text, #[trigger] carets@[k]),
        decreases carets@.len() - i,
    {
        let c = &carets[i];
        let anchor = match c.anchor {
            Some(a) => index_of(buffer, a).is_some(),
            None => true,
        };
        if !anchor || index_of(buffer, (c.cursor.line, c.cursor.col)).is_none() {
            assert(!caret_has_index(buffer@.text, carets@[i as int]));
            return false;
        }
        i += 1;
    }
    let edits = plan_edits(buffer, carets, edit);
    edits_fit(buffer, &edits, carets.len())
}

/// A caret on the line after the last one has no place behind a space that is
/// typed there: only one can be typed.
proof fn lemma_past_the_lines(p: EditorPane, b: BufferState, n: nat)
    requires
        p.secondary@.len() == 0,
        n >= 2,
        can_repeat(p, b, ' ', n),
    ensures
        start_of(p.caret()).0 < line_total(b.text),
{
    let c = p.caret();
    let from = start_of(c);
    let t = b.text;
    if from.0 >= line_total(t) {
        lemma_line_start_past(t, from.0 as int);
        lemma_shorter(b, c);
        let cut = without_selection(noted(b, c), c).0;
        assert(cut.text == t);
        let d = typed_over(b, c, seq![' ']);
        let u = d.text;
        let q = EditorPane {
            cursor: Caret::placed(from.0 as int, from.1 + 1).cursor,
            anchor: None,
            ..p
        };
        assert(q.secondary@ =~= Seq::empty());
        assert(p.inserted(b, ' ', q, d));
        assert(can_repeat(q, d, ' ', (n - 1) as nat));
        assert(u == put_in(t, t.len() as int, seq![' ']));
        assert forall|m: int| 0 < m <= t.len() implies (#[trigger] ends_line(t, m)) == ends_line(
            u,
            m + 0,
        ) by {
            assert(u[m - 1] == t[m - 1]);
        }
        lemma_same_breaks(t, u, 0, t.len() as int, 0);
        assert(u[t.len() as int] == ' ');
        assert(!ends_line(u, t.len() + 1int));
        assert(breaks_before(u, t.len() + 1int) == breaks_before(u, t.len() as int));
        lemma_line_start_past(u, from.0 as int);
    }
}

/// Where a space can be typed and there is room, more can be.
proof fn lemma_first_space(p: EditorPane, b: BufferState)
    requires
        p.can_insert(b, ' '),
        p.secondary@.len() == 0 ==> start_of(p.caret()).0 < line_total(b.text),
        b.text.len() + 4 * all_carets(p).len() <= usize::MAX,
    ensures
        can_repeat(p, b, ' ', 4),
{
    assert forall|q: EditorPane, c: BufferState| #[trigger]
        p.inserted(b, ' ', q, c) implies can_repeat(q, c, ' ', 3) by {
        if p.secondary@.len() == 0 {
            lemma_shorter(b, p.caret());
            let (from, e) = span_at(b.text, p.caret());
            lemma_line_start(b.text, from.0 as int);
            let s = index_at(b.text, from) as int;
            assert(s == e ==> cut_out(b.text, s, e) =~= b.text);
            lemma_typed_within(b.text, from, e, ' ');
        } else {
            lemma_struck_apart(p, b, ' ', q, c);
        }
        lemma_room(b.text.len(), all_carets(p).len(), c.text.len(), all_carets(q).len(), 4);
        lemma_can_repeat(q, c, ' ', 3);
    }
}

impl EditorPane {
    /// Whether the pane and its buffer can take a command. An edit made in
    /// another pane can leave a caret at a place that the text no longer has.
    pub fn takes(&self, buffer: &Buffer, cmd: EditorCommand) -> (r: bool)
        ensures
            r ==> can_take(*self, buffer@, cmd),
            cmd != EditorCommand::Tab || buffer@.text.len() + 4 * all_carets(*self).len()
                <= usize::MAX ==> r == can_take(*self, buffer@, cmd),
    {
        let primary = Caret { cursor: self.cursor, anchor: self.anchor };
        let one = self.secondary.len() == 0;
        let len: usize = buffer.len_chars();
        match cmd {
            EditorCommand::PageDown => self.can_page_down(),
            EditorCommand::Newline => if one {
                can_type_at(buffer, &primary).0 && self.cursor.line < usize::MAX
            } else {
                can_strike(buffer, &self.carets(), &CaretEdit::Break)
            },
            EditorCommand::Backspace => if one {
                match index_of(buffer, (self.cursor.line, self.cursor.col)) {
                    Some(i) => can_cut_at(buffer, &primary) && (self.anchor.is_some() || i <= len),
                    None => false,
                }
            } else {
                can_strike(buffer, &self.carets(), &CaretEdit::Backspace)
            },
            EditorCommand::Delete => if one {
                index_of(buffer, (self.cursor.line, self.cursor.col)).is_some() && can_cut_at(
                    buffer,
                    &primary,
                )
            } else {
                can_strike(buffer, &self.carets(), &CaretEdit::Delete)
            },
            EditorCommand::Tab => {
                let carets = self.carets();
                let (can, there) = self.can_type_everywhere(buffer, ' ');
                let r = can && there && carets.len() <= (usize::MAX - len) / 4;
                proof {
                    if r {
                        lemma_first_space(*self, buffer@);
                    }
                    if one && can_take(*self, buffer@, cmd) {
                        lemma_past_the_lines(*self, buffer@, 4);
                    }
                }
                r
            },
            EditorCommand::Insert(ch) => self.can_type_everywhere(buffer, ch).0,
            _ => true,
        }
    }

    /// Whether every caret can move down by a page.
    fn can_page_down(&self) -> (r: bool)
        ensures
            forall|t: Seq<char>| r == #[trigger] self.can_move(t, Move::PageDown(self.page())),
    {
        let page: usize = if self.last_height >= 1 {
            self.last_height
        } else {
            1
        };
        let most: usize = usize::MAX - page;
        let mut i: usize = 0;
        while i < self.secondary.len()
            invariant
                i <= self.secondary@.len(),
                page == self.page(),
                most == usize::MAX - page,
                forall|k: int| 0 <= k < i ==> (#[trigger] self.secondary@[k]).cursor.line <= most,
            decreases self.secondary@.len() - i,
        {
            if self.secondary[i].cursor.line > most {
                assert(self.secondary@[i as int].cursor.line > most);
                return false;
            }
            i += 1;
        }
        self.cursor.line <= most
    }

    /// Whether a character can be typed at every caret, and whether the primary
    /// one is then on a line that there is.
    fn can_type_everywhere(&self, buffer: &Buffer, ch: char) -> (r: (bool, bool))
        ensures
            r.0 == self.can_insert(buffer@, ch),
            r.0 ==> r.1 == (self.secondary@.len() == 0 ==> start_of(self.caret()).0 < line_total(
                buffer@.text,
            )),
    {
        if self.secondary.len() == 0 {
            let primary = Caret { cursor: self.cursor, anchor: self.anchor };
            can_type_at(buffer, &primary)
        } else {
            let mut text = String::new();
            text.push(ch);
            assert(text@ =~= seq![ch]);
            (can_strike(buffer, &self.carets(), &CaretEdit::Replace(text)), true)
        }
    }
}

/// Removing a selection makes no text longer.
proof fn lemma_shorter(b: BufferState, c: Caret)
    requires
        can_cut(b.text, c),
    ensures
        without_selection(noted(b, c), c).0.text.len() <= b.text.len(),
{
    if let Some(sel) = c.selection() {
        let s = index_at(b.text, sel.0) as int;
        let e = index_at(b.text, sel.1) as int;
        if s < e {
            assert(b.text.subrange(s, e).len() == e - s);
        }
    }
}

} // verus!
