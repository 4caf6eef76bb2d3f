//! One edit at every caret: what each caret asks for, the order in which the
//! edits are made, and what comes of them together.
use crate::buffer::{Buffer, BufferState};
use crate::caret::Caret;
use crate::history::{cut_out, put_in, Op};
use crate::rope::{crlf_at, line_start, line_total};
use vstd::prelude::*;

verus! {

/// What is typed at every caret: text that replaces the selection or goes in
/// at the caret, a line break that does so, a deletion backwards, or a deletion
/// forwards.
#[derive(Debug)]
pub enum CaretEdit {
    Replace(String),
    Break,
    Backspace,
    Delete,
}

/// What is typed at every caret, as a value of the specifications.
pub enum Stroke {
    Replace(Seq<char>),
    Break,
    Backspace,
    Delete,
}

impl View for CaretEdit {
    type V = Stroke;

    open spec fn view(&self) -> Stroke {
        match self {
            CaretEdit::Replace(text) => Stroke::Replace(text@),
            CaretEdit::Break => Stroke::Break,
            CaretEdit::Backspace => Stroke::Backspace,
            CaretEdit::Delete => Stroke::Delete,
        }
    }
}

/// The edit that one caret asks for: the characters `start..end` leave, and
/// `text` goes in their place.
#[verifier::ext_equal]
pub struct Plan {
    pub start: nat,
    pub end: nat,
    pub text: Seq<char>,
}

/// The absolute index of a line and column.
pub open spec fn index_at(text: Seq<char>, p: (usize, usize)) -> nat {
    (line_start(text, p.0 as int) + p.1) as nat
}

/// Whether a line and column have an absolute index: the line is at most one
/// past the last one, and the index is a number the machine can hold.
pub open spec fn has_index(text: Seq<char>, p: (usize, usize)) -> bool {
    p.0 <= line_total(text) && line_start(text, p.0 as int) + p.1 <= usize::MAX
}

/// Whether the caret and its anchor have absolute indices.
pub open spec fn caret_has_index(text: Seq<char>, c: Caret) -> bool {
    &&& has_index(text, c.at())
    &&& c.anchor matches Some(anchor) ==> has_index(text, anchor)
}

/// Where a deletion backwards from position `i` starts: before the character
/// there, or before both characters of a CRLF.
pub open spec fn back_from(t: Seq<char>, i: nat) -> nat {
    if i >= 2 && crlf_at(t, i - 2) {
        (i - 2) as nat
    } else if i > 0 {
        (i - 1) as nat
    } else {
        0
    }
}

/// Where a deletion forwards from position `i` ends: behind the character
/// there, or behind both characters of a CRLF.
pub open spec fn ahead_of(t: Seq<char>, i: nat) -> nat {
    if crlf_at(t, i as int) {
        i + 2
    } else if i < t.len() {
        i + 1
    } else {
        i
    }
}

/// The line break that is typed in place of the characters `from..to`: a line
/// feed, but a carriage return behind one that is a break by itself, since a
/// line feed would make one break with it.
pub open spec fn break_char(t: Seq<char>, from: int, to: int) -> char {
    if 0 < from <= t.len() && t[from - 1] == '\r' && !(0 <= to < t.len() && t[to] == '\n') {
        '\r'
    } else {
        '\n'
    }
}

/// What a stroke puts in place of the characters `from..to`.
pub open spec fn typed(t: Seq<char>, stroke: Stroke, from: int, to: int) -> Seq<char> {
    match stroke {
        Stroke::Replace(x) => x,
        Stroke::Break => seq![break_char(t, from, to)],
        _ => Seq::empty(),
    }
}

/// The characters that a stroke at a caret replaces: those that are selected,
/// or those that it deletes, if any.
pub open spec fn range_of(t: Seq<char>, c: Caret, stroke: Stroke) -> (nat, nat) {
    match c.selection() {
        Some(sel) => (index_at(t, sel.0), index_at(t, sel.1)),
        None => {
            let i = index_at(t, c.at());
            match stroke {
                Stroke::Backspace => (back_from(t, i), i),
                Stroke::Delete => (i, ahead_of(t, i)),
                _ => (i, i),
            }
        },
    }
}

/// What the caret asks for on the text as it is.
pub open spec fn plan_of(text: Seq<char>, c: Caret, stroke: Stroke) -> Plan {
    let (start, end) = range_of(text, c, stroke);
    Plan { start, end, text: typed(text, stroke, start as int, end as int) }
}

/// A plan together with the number of the caret it belongs to.
#[verifier::ext_equal]
pub struct Slot {
    pub slot: nat,
    pub plan: Plan,
}

/// Whether a plan is carried out after another: it starts later, or it starts at
/// the same place and ends later. What only puts text in at a place thus goes
/// before what removes the characters behind it.
pub open spec fn comes_after(p: Plan, q: Plan) -> bool {
    p.start > q.start || (p.start == q.start && p.end > q.end)
}

/// Where a plan goes in an ordered list: after all that do not come after it.
pub open spec fn place_of(slots: Seq<Slot>, p: Plan) -> int
    decreases slots.len(),
{
    if slots.len() == 0 || !comes_after(slots.last().plan, p) {
        slots.len() as int
    } else {
        place_of(slots.drop_last(), p)
    }
}

/// The plans by where they start and end; those with one range stay in the order
/// of their carets.
pub open spec fn by_start(plans: Seq<Plan>) -> Seq<Slot>
    decreases plans.len(),
{
    if plans.len() == 0 {
        Seq::empty()
    } else {
        let rest = by_start(plans.drop_last());
        rest.insert(
            place_of(rest, plans.last()),
            Slot { slot: (plans.len() - 1) as nat, plan: plans.last() },
        )
    }
}

/// A number as it is after wrapping around at the end of the index range.
pub open spec fn wrap(x: int) -> nat {
    (x % (usize::MAX + 1)) as nat
}

/// Where a batch of edits has got to: the buffer, by how much the positions
/// that are still to come have shifted, and where the carets have landed.
#[verifier::ext_equal]
pub struct Batch {
    pub buffer: BufferState,
    pub shift: int,
    pub places: Seq<nat>,
}

/// The buffer after one edit at the shifted range `s..e`.
pub open spec fn edited_range(b: BufferState, s: nat, e: nat, text: Seq<char>) -> BufferState {
    let noted = BufferState { pending: s, ..b };
    let cut = if s < e {
        noted.edited(Op::Remove { at: s, text: b.text.subrange(s as int, e as int) })
    } else {
        noted
    };
    if text.len() > 0 {
        cut.edited(Op::Insert { at: s, text })
    } else {
        cut
    }
}

/// Whether the edit at the shifted range `s..e` falls within the text.
pub open spec fn range_fits(t: Seq<char>, s: nat, e: nat, text: Seq<char>) -> bool {
    let cut = if s < e {
        cut_out(t, s as int, e as int)
    } else {
        t
    };
    &&& s < e ==> e <= t.len()
    &&& text.len() > 0 ==> s <= cut.len() && cut.len() + text.len() <= usize::MAX
}

impl Batch {
    /// One more edit.
    pub open spec fn step(self, s: Slot) -> Batch {
        let start = wrap(s.plan.start + self.shift);
        let end = wrap(s.plan.end + self.shift);
        Batch {
            buffer: edited_range(self.buffer, start, end, s.plan.text),
            shift: self.shift + s.plan.text.len() - (s.plan.end - s.plan.start),
            places: self.places.update(s.slot as int, start + s.plan.text.len()),
        }
    }

    /// Whether one more edit falls within the text.
    pub open spec fn step_fits(self, s: Slot) -> bool {
        range_fits(
            self.buffer.text,
            wrap(s.plan.start + self.shift),
            wrap(s.plan.end + self.shift),
            s.plan.text,
        )
    }

    /// The edits one after the other.
    pub open spec fn run(self, slots: Seq<Slot>) -> Batch
        decreases slots.len(),
    {
        if slots.len() == 0 {
            self
        } else {
            self.run(slots.drop_last()).step(slots.last())
        }
    }

    /// Whether every edit falls within the text as it then is.
    pub open spec fn run_fits(self, slots: Seq<Slot>) -> bool
        decreases slots.len(),
    {
        slots.len() > 0 ==> {
            &&& self.run_fits(slots.drop_last())
            &&& self.run(slots.drop_last()).step_fits(slots.last())
        }
    }
}

/// A batch over `carets` carets before its first edit.
pub open spec fn batch_start(b: BufferState, carets: nat) -> Batch {
    Batch { buffer: b.finalized(), shift: 0, places: Seq::new(carets, |i: int| 0nat) }
}

/// The edits that the carets ask for.
pub open spec fn plans_of(text: Seq<char>, carets: Seq<Caret>, stroke: Stroke) -> Seq<Plan> {
    carets.map_values(|c: Caret| plan_of(text, c, stroke))
}

/// What a stroke at every caret makes of the buffer and of the places of the
/// carets.
pub open spec fn fanned_out(b: BufferState, carets: Seq<Caret>, stroke: Stroke) -> Batch {
    batch_start(b, carets.len()).run(by_start(plans_of(b.text, carets, stroke)))
}

/// Whether a stroke at every caret can be made: every caret has an index, and
/// every edit falls within the text.
pub open spec fn can_fan_out(b: BufferState, carets: Seq<Caret>, stroke: Stroke) -> bool {
    &&& forall|i: int| 0 <= i < carets.len() ==> caret_has_index(b.text, #[trigger] carets[i])
    &&& batch_start(b, carets.len()).run_fits(by_start(plans_of(b.text, carets, stroke)))
}

// ---------------------------------------------------------------------------
// The edits, carried out.

/// The edit of one caret, as it is carried out.
#[derive(Debug)]
pub struct PlannedEdit {
    pub slot: usize,
    pub start: usize,
    pub end: usize,
    pub text: String,
}

impl PlannedEdit {
    pub open spec fn as_slot(self) -> Slot {
        Slot {
            slot: self.slot as nat,
            plan: Plan { start: self.start as nat, end: self.end as nat, text: self.text@ },
        }
    }
}

/// The planned edits, as values of the specifications.
pub open spec fn slots_of(edits: Seq<PlannedEdit>) -> Seq<Slot> {
    edits.map_values(|e: PlannedEdit| e.as_slot())
}

/// Where a deletion backwards from position `i` starts.
pub(crate) fn deletion_start(buffer: &Buffer, i: usize) -> (r: usize)
    ensures
        r == back_from(buffer@.text, i as nat),
{
    if i >= 2 && buffer.has_crlf(i - 2) {
        i - 2
    } else if i > 0 {
        i - 1
    } else {
        0
    }
}

/// Where a deletion forwards from position `i` ends.
pub(crate) fn deletion_end(buffer: &Buffer, i: usize) -> (r: usize)
    ensures
        r == ahead_of(buffer@.text, i as nat),
{
    let n: usize = buffer.len_chars();
    if buffer.has_crlf(i) {
        i + 2
    } else if i < n {
        i + 1
    } else {
        i
    }
}

/// The line break that is typed in place of the characters `from..to`.
pub(crate) fn line_break(buffer: &Buffer, from: usize, to: usize) -> (r: String)
    ensures
        r@ == seq![break_char(buffer@.text, from as int, to as int)],
{
    let mut text = String::new();
    if from > 0 && buffer.char_is(from - 1, '\r') && !buffer.char_is(to, '\n') {
        text.push('\r');
    } else {
        text.push('\n');
    }
    assert(text@ =~= seq![break_char(buffer@.text, from as int, to as int)]);
    text
}

/// What the caret in slot `slot` asks for.
pub fn plan_edit(buffer: &Buffer, c: &Caret, edit: &CaretEdit, slot: usize) -> (r: PlannedEdit)
    requires
        caret_has_index(buffer@.text, *c),
    ensures
        r.as_slot() == (Slot { slot: slot as nat, plan: plan_of(buffer@.text, *c, edit@) }),
{
    proof {
        assert forall|n: int| 0 <= n <= line_total(buffer@.text) implies 0 <= #[trigger] line_start(
            buffer@.text,
            n,
        ) by {
            crate::rope::lemma_seek_line(buffer@.text, n, 0);
        }
    }
    let (start, end): (usize, usize) = match c.ordered_selection() {
        Some((a, b)) => (buffer.char_idx(a.0, a.1), buffer.char_idx(b.0, b.1)),
        None => {
            let i: usize = buffer.char_idx(c.cursor.line, c.cursor.col);
            match edit {
                CaretEdit::Backspace => (deletion_start(buffer, i), i),
                CaretEdit::Delete => (i, deletion_end(buffer, i)),
                _ => (i, i),
            }
        },
    };
    let text = match edit {
        CaretEdit::Replace(t) => t.clone(),
        CaretEdit::Break => line_break(buffer, start, end),
        _ => String::new(),
    };
    PlannedEdit { slot, start, end, text }
}

proof fn lemma_place_of(slots: Seq<Slot>, p: Plan)
    ensures
        0 <= place_of(slots, p) <= slots.len(),
    decreases slots.len(),
{
    if slots.len() > 0 && comes_after(slots.last().plan, p) {
        lemma_place_of(slots.drop_last(), p);
    }
}

/// Every slot of an ordered list of plans is the number of a plan, and it holds
/// that plan.
pub proof fn lemma_by_start_slots(plans: Seq<Plan>)
    ensures
        by_start(plans).len() == plans.len(),
        forall|i: int|
            0 <= i < plans.len() ==> (#[trigger] by_start(plans)[i]).slot < plans.len() && by_start(
                plans,
            )[i].plan == plans[by_start(plans)[i].slot as int],
    decreases plans.len(),
{
    if plans.len() > 0 {
        let front = plans.drop_last();
        lemma_by_start_slots(front);
        let rest = by_start(front);
        lemma_place_of(rest, plans.last());
        let k = place_of(rest, plans.last());
        let m = by_start(plans);
        assert forall|i: int| 0 <= i < plans.len() implies (#[trigger] m[i]).slot < plans.len()
            && m[i].plan == plans[m[i].slot as int] by {
            if i < k {
                assert(m[i] == rest[i]);
            } else if i > k {
                assert(m[i] == rest[i - 1]);
            }
        }
    }
}

/// What every caret asks for, ordered by where it starts.
pub fn plan_edits(buffer: &Buffer, carets: &Vec<Caret>, edit: &CaretEdit) -> (r: Vec<PlannedEdit>)
    requires
        forall|i: int| 0 <= i < carets@.len() ==> caret_has_index(buffer@.text, #[trigger] carets@[i]),
    ensures
        slots_of(r@) == by_start(plans_of(buffer@.text, carets@, edit@)),
{
    let ghost plans = plans_of(buffer@.text, carets@, edit@);
    let mut out: Vec<PlannedEdit> = Vec::new();
    let mut i: usize = 0;
    assert(slots_of(out@) =~= by_start(plans.take(0)));
    while i < carets.len()
        invariant
            i <= carets@.len(),
            plans == plans_of(buffer@.text, carets@, edit@),
            forall|j: int|
                0 <= j < carets@.len() ==> caret_has_index(buffer@.text, #[trigger] carets@[j]),
            slots_of(out@) == by_start(plans.take(i as int)),
        decreases carets@.len() - i,
    {
        assert(caret_has_index(buffer@.text, carets@[i as int]));
        let e = plan_edit(buffer, &carets[i], edit, i);
        let ghost rest = slots_of(out@);
        let ghost slot = e.as_slot();
        assert(slot.plan == plans[i as int]);
        let mut k: usize = out.len();
        assert(rest.take(k as int) =~= rest);
        while k > 0 && (out[k - 1].start > e.start || (out[k - 1].start == e.start && out[k
            - 1].end > e.end))
            invariant
                k <= out@.len(),
                rest == slots_of(out@),
                slot == e.as_slot(),
                place_of(rest, slot.plan) == place_of(rest.take(k as int), slot.plan),
            decreases k,
        {
            assert(rest.take(k as int).drop_last() =~= rest.take(k - 1));
            assert(rest.take(k as int).last() == rest[k - 1]);
            k -= 1;
        }
        proof {
            if k > 0 {
                assert(rest.take(k as int).last() == rest[k - 1]);
            }
            assert(place_of(rest, slot.plan) == k);
            assert(plans.take(i + 1).drop_last() =~= plans.take(i as int));
            assert(plans.take(i + 1).last() == plans[i as int]);
        }
        let ghost out0 = out@;
        out.insert(k, e);
        assert(slots_of(out@) =~= rest.insert(k as int, slot));
        i += 1;
    }
    assert(plans.take(plans.len() as int) =~= plans);
    out
}

proof fn lemma_wrap_add(x: usize, y: int)
    ensures
        wrap(x + y) == x.wrapping_add(wrap(y) as usize),
        wrap(y) <= usize::MAX,
{
    let m = usize::MAX + 1;
    vstd::arithmetic::div_mod::lemma_mod_bound(y, m);
    let w = y % m;
    vstd::arithmetic::div_mod::lemma_add_mod_noop(x as int, y, m);
    vstd::arithmetic::div_mod::lemma_small_mod(x as nat, m as nat);
    assert((x + y) % m == (x + w) % m);
    if x + w <= usize::MAX {
        vstd::arithmetic::div_mod::lemma_small_mod((x + w) as nat, m as nat);
    } else {
        vstd::arithmetic::div_mod::lemma_small_mod((x + w - m) as nat, m as nat);
        vstd::arithmetic::div_mod::lemma_mod_sub_multiples_vanish(x + w, m);
        assert((-m + (x + w)) % m == (x + w) % m);
    }
}

proof fn lemma_wrap_sub(x: int, y: usize)
    ensures
        wrap(x - y) == (wrap(x) as usize).wrapping_sub(y),
{
    let m = usize::MAX + 1;
    vstd::arithmetic::div_mod::lemma_mod_bound(x, m);
    let w = x % m;
    vstd::arithmetic::div_mod::lemma_sub_mod_noop(x, y as int, m);
    vstd::arithmetic::div_mod::lemma_small_mod(y as nat, m as nat);
    assert((x - y) % m == (w - y) % m);
    if w - y >= 0 {
        vstd::arithmetic::div_mod::lemma_small_mod((w - y) as nat, m as nat);
    } else {
        vstd::arithmetic::div_mod::lemma_small_mod((w - y + m) as nat, m as nat);
        vstd::arithmetic::div_mod::lemma_mod_add_multiples_vanish(w - y, m);
        assert((m + (w - y)) % m == (w - y) % m);
    }
}

/// Makes the edits from the lowest start to the highest with a running offset,
/// so that positions stay correct across length changes, and returns where
/// each caret lands: just past its inserted text.
pub fn apply_edits(buffer: &mut Buffer, edits: &Vec<PlannedEdit>, carets: usize) -> (r: Vec<usize>)
    requires
        old(buffer).wf(),
        forall|i: int| 0 <= i < edits@.len() ==> (#[trigger] edits@[i]).slot < carets,
        batch_start(old(buffer)@, carets as nat).run_fits(slots_of(edits@)),
    ensures
        final(buffer).wf(),
        final(buffer)@ == batch_start(old(buffer)@, carets as nat).run(
            slots_of(edits@),
        ).buffer.finalized(),
        r@.len() == carets,
        forall|i: int|
            0 <= i < carets ==> #[trigger] r@[i] == batch_start(old(buffer)@, carets as nat).run(
                slots_of(edits@),
            ).places[i],
{
    let ghost start = batch_start(buffer@, carets as nat);
    let ghost slots = slots_of(edits@);
    buffer.finalize();
    let mut shift: usize = 0;
    let mut places: Vec<usize> = Vec::new();
    while places.len() < carets
        invariant
            places@.len() <= carets,
            forall|j: int| 0 <= j < places@.len() ==> #[trigger] places@[j] == 0,
        decreases carets - places@.len(),
    {
        places.push(0);
    }
    let mut i: usize = 0;
    assert(slots.take(0) =~= Seq::empty());
    proof {
        vstd::arithmetic::div_mod::lemma_small_mod(0, (usize::MAX + 1) as nat);
        assert(slots.take(slots.len() as int) =~= slots);
    }
    while i < edits.len()
        invariant
            i <= edits@.len(),
            slots == slots_of(edits@),
            buffer.wf(),
            buffer@ == start.run(slots.take(i as int)).buffer,
            shift == wrap(start.run(slots.take(i as int)).shift),
            start.places.len() == carets,
            places@.len() == carets,
            start.run(slots.take(i as int)).places.len() == carets,
            forall|j: int|
                0 <= j < carets ==> #[trigger] places@[j] == start.run(
                    slots.take(i as int),
                ).places[j],
            start.run_fits(slots),
            forall|j: int| 0 <= j < edits@.len() ==> (#[trigger] edits@[j]).slot < carets,
        decreases edits@.len() - i,
    {
        let e = &edits[i];
        let ghost now = start.run(slots.take(i as int));
        let ghost slot = e.as_slot();
        proof {
            lemma_run_fits_prefix(start, slots, i + 1);
            assert(slots.take(i + 1).drop_last() =~= slots.take(i as int));
            assert(slots.take(i + 1).last() == slot);
            lemma_wrap_add(e.start, now.shift);
            lemma_wrap_add(e.end, now.shift);
        }
        let s: usize = e.start.wrapping_add(shift);
        let t: usize = e.end.wrapping_add(shift);
        let count: usize = e.text.as_str().unicode_len();
        assert(edits@[i as int].slot < carets);
        buffer.begin_edit(s);
        if s < t {
            buffer.remove(s, t);
        }
        if count > 0 {
            buffer.insert(s, e.text.as_str());
        }
        assert(buffer@ == edited_range(now.buffer, s as nat, t as nat, e.text@));
        places.set(e.slot, s + count);
        proof {
            lemma_wrap_add(count, now.shift);
            lemma_wrap_sub(now.shift + count, e.end);
            lemma_wrap_add(e.start, now.shift + count - e.end);
            assert(now.step(slot).shift == e.start + (now.shift + count - e.end));
        }
        shift = e.start.wrapping_add(count.wrapping_add(shift).wrapping_sub(e.end));
        i += 1;
    }
    buffer.finalize();
    places
}

/// When one more edit falls within the text, and how long the text then is.
proof fn lemma_step_len(now: Batch, slot: Slot)
    ensures
        ({
            let s = wrap(slot.plan.start + now.shift);
            let e = wrap(slot.plan.end + now.shift);
            let len = now.buffer.text.len() as int;
            let count = slot.plan.text.len() as int;
            let cut = if s < e {
                len - (e - s)
            } else {
                len
            };
            &&& now.step_fits(slot) == ((s < e ==> e <= len) && (count > 0 ==> s <= cut && cut
                + count <= usize::MAX))
            &&& now.step_fits(slot) ==> now.step(slot).buffer.text.len() == cut + count
        }),
{
    let s = wrap(slot.plan.start + now.shift);
    let e = wrap(slot.plan.end + now.shift);
    let t = now.buffer.text;
    if s < e && e <= t.len() {
        assert(t.subrange(s as int, e as int).len() == e - s);
        assert(cut_out(t, s as int, e as int).len() == t.len() - (e - s));
    }
}

/// The length of the text and the offset after one more edit, if it falls within
/// the text.
fn fit_one(e: &PlannedEdit, len: usize, shift: usize, now: Ghost<Batch>) -> (r: Option<
    (usize, usize),
>)
    requires
        len == now@.buffer.text.len(),
        shift == wrap(now@.shift),
    ensures
        match r {
            Some((left, offset)) => {
                &&& now@.step_fits(e.as_slot())
                &&& left == now@.step(e.as_slot()).buffer.text.len()
                &&& offset == wrap(now@.step(e.as_slot()).shift)
            },
            None => !now@.step_fits(e.as_slot()),
        },
{
    proof {
        lemma_wrap_add(e.start, now@.shift);
        lemma_wrap_add(e.end, now@.shift);
        lemma_step_len(now@, e.as_slot());
    }
    let s: usize = e.start.wrapping_add(shift);
    let t: usize = e.end.wrapping_add(shift);
    let count: usize = e.text.as_str().unicode_len();
    if s < t && t > len {
        return None;
    }
    let cut: usize = if s < t {
        len - (t - s)
    } else {
        len
    };
    if count > 0 && (s > cut || count > usize::MAX - cut) {
        return None;
    }
    proof {
        lemma_wrap_add(count, now@.shift);
        lemma_wrap_sub(now@.shift + count, e.end);
        lemma_wrap_add(e.start, now@.shift + count - e.end);
        assert(now@.step(e.as_slot()).shift == e.start + (now@.shift + count - e.end));
    }
    Some((cut + count, e.start.wrapping_add(count.wrapping_add(shift).wrapping_sub(e.end))))
}

/// Whether every one of some edits falls within the text as it then is.
pub(crate) fn edits_fit(buffer: &Buffer, edits: &Vec<PlannedEdit>, carets: usize) -> (r: bool)
    ensures
        r == batch_start(buffer@, carets as nat).run_fits(slots_of(edits@)),
{
    let ghost start = batch_start(buffer@, carets as nat);
    let ghost slots = slots_of(edits@);
    let mut len: usize = buffer.len_chars();
    let mut shift: usize = 0;
    let mut i: usize = 0;
    let mut fits = true;
    proof {
        vstd::arithmetic::div_mod::lemma_small_mod(0, (usize::MAX + 1) as nat);
        assert(slots.take(0) =~= Seq::empty());
    }
    while fits && i < edits.len()
        invariant
            i <= edits@.len(),
            slots == slots_of(edits@),
            fits ==> start.run_fits(slots.take(i as int)),
            fits ==> len == start.run(slots.take(i as int)).buffer.text.len(),
            fits ==> shift == wrap(start.run(slots.take(i as int)).shift),
            !fits ==> !start.run_fits(slots),
        decreases edits@.len() - i,
    {
        let ghost now = start.run(slots.take(i as int));
        let ghost slot = edits@[i as int].as_slot();
        match fit_one(&edits[i], len, shift, Ghost(now)) {
            Some((left, offset)) => {
                len = left;
                shift = offset;
            },
            None => {
                fits = false;
            },
        }
        proof {
            lemma_run_next(start, slots, i as int, slot);
        }
        i += 1;
    }
    assert(slots.take(slots.len() as int) =~= slots);
    fits
}

/// One more edit of a run.
proof fn lemma_run_next(b: Batch, slots: Seq<Slot>, i: int, slot: Slot)
    requires
        0 <= i < slots.len(),
        slot == slots[i],
    ensures
        b.run(slots.take(i + 1)) == b.run(slots.take(i)).step(slot),
        b.run_fits(slots.take(i + 1)) == (b.run_fits(slots.take(i)) && b.run(
            slots.take(i),
        ).step_fits(slot)),
        b.run_fits(slots) ==> b.run_fits(slots.take(i + 1)),
{
    assert(slots.take(i + 1).drop_last() =~= slots.take(i));
    assert(slots.take(i + 1).last() == slot);
    if b.run_fits(slots) {
        lemma_run_fits_prefix(b, slots, i + 1);
    }
}

proof fn lemma_run_fits_prefix(b: Batch, slots: Seq<Slot>, k: int)
    requires
        b.run_fits(slots),
        0 <= k <= slots.len(),
    ensures
        b.run_fits(slots.take(k)),
    decreases slots.len() - k,
{
    if k < slots.len() {
        lemma_run_fits_prefix(b, slots, k + 1);
        assert(slots.take(k + 1).drop_last() =~= slots.take(k));
    } else {
        assert(slots.take(k) =~= slots);
    }
}

// ---------------------------------------------------------------------------
// Laws.

/// Whether the edits lie one after the other within a text of length `len`.
pub open spec fn apart(slots: Seq<Slot>, len: nat) -> bool {
    &&& forall|i: int|
        0 <= i < slots.len() ==> (#[trigger] slots[i]).plan.start <= slots[i].plan.end <= len
    &&& forall|i: int, j: int|
        0 <= i < j < slots.len() ==> (#[trigger] slots[i]).plan.end <= (
        #[trigger] slots[j]).plan.start
}

/// Where the last of the edits ends.
pub open spec fn last_end(slots: Seq<Slot>) -> nat {
    if slots.len() == 0 {
        0
    } else {
        slots.last().plan.end
    }
}

/// What stands before the end of the last edit once all are made at once: the
/// text between the edits stays, and each edited range becomes its new text.
pub open spec fn woven(t: Seq<char>, slots: Seq<Slot>) -> Seq<char>
    decreases slots.len(),
{
    if slots.len() == 0 {
        Seq::empty()
    } else {
        let rest = slots.drop_last();
        let last = slots.last().plan;
        woven(t, rest) + t.subrange(last_end(rest) as int, last.start as int) + last.text
    }
}

/// The text with all the edits made at once.
pub open spec fn replaced(t: Seq<char>, slots: Seq<Slot>) -> Seq<char> {
    woven(t, slots) + t.skip(last_end(slots) as int)
}

/// Whether the text stays indexable while the edits are made one by one, also
/// before the characters that an edit removes are gone.
pub open spec fn stays_indexable(t: Seq<char>, slots: Seq<Slot>) -> bool {
    forall|k: int|
        0 <= k <= slots.len() ==> (#[trigger] replaced(t, slots.take(k))).len() <= usize::MAX
}

/// One edit on a text whose front has already been edited.
proof fn lemma_weave_one(t: Seq<char>, w: Seq<char>, e0: int, p: Plan)
    requires
        0 <= e0 <= p.start <= p.end <= t.len(),
    ensures
        ({
            let cur = w + t.skip(e0);
            let s = p.start + w.len() - e0;
            let e = p.end + w.len() - e0;
            let cut = if s < e {
                cut_out(cur, s, e)
            } else {
                cur
            };
            let done = if p.text.len() > 0 {
                put_in(cut, s, p.text)
            } else {
                cut
            };
            &&& 0 <= s <= e <= cur.len()
            &&& s <= cut.len()
            &&& done.len() == cut.len() + p.text.len()
            &&& done == w + t.subrange(e0, p.start as int) + p.text + t.skip(p.end as int)
        }),
{
    let cur = w + t.skip(e0);
    let s = p.start + w.len() - e0;
    let e = p.end + w.len() - e0;
    let gap = t.subrange(e0, p.start as int);
    let cut = if s < e {
        cut_out(cur, s, e)
    } else {
        cur
    };
    assert(cut =~= w + gap + t.skip(p.end as int));
    assert(put_in(cut, s, p.text) =~= w + gap + p.text + t.skip(p.end as int));
    if p.text.len() == 0 {
        assert(put_in(cut, s, p.text) =~= cut);
    }
}

/// The text that one step of a batch makes, where nothing wraps around.
proof fn lemma_step_text(now: Batch, slot: Slot, w: Seq<char>, t: Seq<char>, e0: int)
    requires
        0 <= e0 <= slot.plan.start <= slot.plan.end <= t.len(),
        now.buffer.text == w + t.skip(e0),
        now.shift == w.len() - e0,
        now.buffer.text.len() <= usize::MAX,
        (w + t.subrange(e0, slot.plan.start as int) + slot.plan.text + t.skip(
            slot.plan.end as int,
        )).len() <= usize::MAX,
    ensures
        now.step_fits(slot),
        now.step(slot).buffer.text == w + t.subrange(e0, slot.plan.start as int) + slot.plan.text
            + t.skip(slot.plan.end as int),
        wrap(slot.plan.start + now.shift) == w.len() + slot.plan.start - e0,
{
    let p = slot.plan;
    lemma_weave_one(t, w, e0, p);
    let s = p.start + now.shift;
    let e = p.end + now.shift;
    vstd::arithmetic::div_mod::lemma_small_mod(s as nat, (usize::MAX + 1) as nat);
    vstd::arithmetic::div_mod::lemma_small_mod(e as nat, (usize::MAX + 1) as nat);
}

/// Edits that lie one after the other all fall within the text, and making them
/// one by one with a running offset gives the same text as making them all at
/// once: no edit disturbs the place of another. Each caret lands just past the
/// text that went in for it.
#[verifier::spinoff_prover]
#[verifier::rlimit(60)]
pub proof fn edits_make_one_replacement(b: BufferState, slots: Seq<Slot>, carets: nat)
    requires
        apart(slots, b.text.len()),
        stays_indexable(b.text, slots),
        forall|i: int| 0 <= i < slots.len() ==> (#[trigger] slots[i]).slot < carets,
        forall|i: int, j: int|
            0 <= i < j < slots.len() ==> (#[trigger] slots[i]).slot != (#[trigger] slots[j]).slot,
    ensures
        batch_start(b, carets).run_fits(slots),
        batch_start(b, carets).run(slots).buffer.text == replaced(b.text, slots),
        batch_start(b, carets).run(slots).shift == woven(b.text, slots).len() - last_end(slots),
        batch_start(b, carets).run(slots).places.len() == carets,
        forall|i: int|
            0 <= i < slots.len() ==> batch_start(b, carets).run(
                slots,
            ).places[(#[trigger] slots[i]).slot as int] == woven(b.text, slots.take(i + 1)).len(),
    decreases slots.len(),
{
    let t = b.text;
    let start = batch_start(b, carets);
    if slots.len() == 0 {
        assert(t.skip(0) =~= t);
        assert(replaced(t, slots) =~= t);
    } else {
        let rest = slots.drop_last();
        let last = slots.last();
        let p = last.plan;
        assert forall|i: int| 0 <= i < rest.len() implies (#[trigger] rest[i]) == slots[i] by {}
        assert forall|k: int| 0 <= k <= rest.len() implies (#[trigger] replaced(
            t,
            rest.take(k),
        )).len() <= usize::MAX by {
            assert(rest.take(k) =~= slots.take(k));
            assert(replaced(t, slots.take(k)).len() <= usize::MAX);
        }
        edits_make_one_replacement(b, rest, carets);
        let now = start.run(rest);
        let e0 = last_end(rest);
        let w = woven(t, rest);
        assert(slots[slots.len() - 1] == last);
        if rest.len() > 0 {
            assert(slots[slots.len() - 2] == rest.last());
            assert(e0 <= p.start);
        }
        assert(slots.take(slots.len() as int) =~= slots);
        assert(rest.take(rest.len() as int) =~= rest);
        assert(replaced(t, slots.take(slots.len() as int)).len() <= usize::MAX);
        assert(replaced(t, rest.take(rest.len() as int)).len() <= usize::MAX);
        let done = replaced(t, slots);
        assert(done == w + t.subrange(e0 as int, p.start as int) + p.text + t.skip(p.end as int));
        lemma_step_text(now, last, w, t, e0 as int);
        let s = w.len() + p.start - e0;
        let after = now.step(last);
        assert(after.buffer.text == done);
        assert(start.run(slots) == after);
        assert forall|i: int| 0 <= i < slots.len() implies after.places[(
        #[trigger] slots[i]).slot as int] == woven(t, slots.take(i + 1)).len() by {
            if i < rest.len() {
                assert(rest[i] == slots[i]);
                assert(slots[i].slot != slots[slots.len() - 1].slot);
                assert(rest.take(i + 1) =~= slots.take(i + 1));
            } else {
                assert(woven(t, slots).len() == s + p.text.len());
            }
        }
    }
}

/// Ordered plans come one after the other, and no two belong to one caret.
pub proof fn lemma_by_start_ordered(plans: Seq<Plan>)
    ensures
        forall|i: int, j: int|
            0 <= i < j < plans.len() ==> !comes_after(
                (#[trigger] by_start(plans)[i]).plan,
                (#[trigger] by_start(plans)[j]).plan,
            ),
        forall|i: int, j: int|
            0 <= i < j < plans.len() ==> (#[trigger] by_start(plans)[i]).slot != (
            #[trigger] by_start(plans)[j]).slot,
    decreases plans.len(),
{
    if plans.len() > 0 {
        let front = plans.drop_last();
        lemma_by_start_ordered(front);
        lemma_by_start_slots(front);
        let rest = by_start(front);
        let p = plans.last();
        lemma_place_of(rest, p);
        lemma_place_bounds(rest, p);
        let k = place_of(rest, p);
        let m = by_start(plans);
        let new = Slot { slot: (plans.len() - 1) as nat, plan: plans.last() };
        assert(m == rest.insert(k, new));
        assert forall|i: int, j: int| 0 <= i < j < plans.len() implies !comes_after(
            (#[trigger] m[i]).plan,
            (#[trigger] m[j]).plan,
        ) && m[i].slot != m[j].slot by {
            if i < k {
                assert(m[i] == rest[i]);
            } else if i > k {
                assert(m[i] == rest[i - 1]);
            }
            if j < k {
                assert(m[j] == rest[j]);
            } else if j > k {
                assert(m[j] == rest[j - 1]);
            }
        }
    }
}

proof fn lemma_place_bounds(slots: Seq<Slot>, p: Plan)
    requires
        forall|i: int, j: int|
            0 <= i < j < slots.len() ==> !comes_after(
                (#[trigger] slots[i]).plan,
                (#[trigger] slots[j]).plan,
            ),
    ensures
        forall|i: int|
            0 <= i < place_of(slots, p) ==> !comes_after((#[trigger] slots[i]).plan, p),
        forall|i: int|
            place_of(slots, p) <= i < slots.len() ==> comes_after((#[trigger] slots[i]).plan, p),
    decreases slots.len(),
{
    if slots.len() > 0 && comes_after(slots.last().plan, p) {
        let rest = slots.drop_last();
        assert forall|i: int, j: int| 0 <= i < j < rest.len() implies !comes_after(
            (#[trigger] rest[i]).plan,
            (#[trigger] rest[j]).plan,
        ) by {
            assert(rest[i] == slots[i] && rest[j] == slots[j]);
        }
        lemma_place_bounds(rest, p);
        lemma_place_of(rest, p);
        assert forall|i: int| 0 <= i < place_of(slots, p) implies !comes_after(
            (#[trigger] slots[i]).plan,
            p,
        ) by {
            assert(rest[i] == slots[i]);
        }
        assert forall|i: int| place_of(slots, p) <= i < slots.len() implies comes_after(
            (#[trigger] slots[i]).plan,
            p,
        ) by {
            if i < rest.len() {
                assert(rest[i] == slots[i]);
            }
        }
    } else if slots.len() > 0 {
        assert forall|i: int| 0 <= i < slots.len() implies !comes_after(
            (#[trigger] slots[i]).plan,
            p,
        ) by {
            if i < slots.len() - 1 {
                assert(!comes_after(slots[i].plan, slots[slots.len() - 1].plan));
            }
        }
    }
}

/// Whether the edits that the carets ask for lie within the text, have different
/// ranges and do not overlap.
pub open spec fn plans_apart(t: Seq<char>, plans: Seq<Plan>) -> bool {
    &&& forall|i: int|
        0 <= i < plans.len() ==> (#[trigger] plans[i]).start <= plans[i].end <= t.len()
    &&& forall|i: int, j: int|
        #![trigger plans[i], plans[j]]
        0 <= i < plans.len() && 0 <= j < plans.len() && i != j ==> {
            &&& plans[i].start != plans[j].start || plans[i].end != plans[j].end
            &&& plans[i].end <= plans[j].start || plans[j].end <= plans[i].start
        }
}

/// A stroke at carets whose selections, or the characters that they delete, do
/// not overlap can always be made, and is one replacement: every caret changes
/// the text at its own place and lands just past what it put there.
pub proof fn strokes_apart(b: BufferState, carets: Seq<Caret>, stroke: Stroke)
    requires
        forall|i: int| 0 <= i < carets.len() ==> caret_has_index(b.text, #[trigger] carets[i]),
        plans_apart(b.text, plans_of(b.text, carets, stroke)),
        stays_indexable(b.text, by_start(plans_of(b.text, carets, stroke))),
    ensures
        can_fan_out(b, carets, stroke),
        ({
            let slots = by_start(plans_of(b.text, carets, stroke));
            let batch = fanned_out(b, carets, stroke);
            &&& batch.buffer.text == replaced(b.text, slots)
            &&& forall|i: int|
                0 <= i < slots.len() ==> batch.places[(#[trigger] slots[i]).slot as int] == woven(
                    b.text,
                    slots.take(i + 1),
                ).len()
        }),
{
    let plans = plans_of(b.text, carets, stroke);
    let slots = by_start(plans);
    lemma_by_start_slots(plans);
    lemma_by_start_ordered(plans);
    assert forall|i: int| 0 <= i < slots.len() implies (#[trigger] slots[i]).plan.start
        <= slots[i].plan.end <= b.text.len() by {
        assert(slots[i].plan == plans[slots[i].slot as int]);
    }
    assert forall|i: int, j: int| 0 <= i < j < slots.len() implies (#[trigger] slots[i]).plan.end
        <= (#[trigger] slots[j]).plan.start by {
        assert(slots[i].plan == plans[slots[i].slot as int]);
        assert(slots[j].plan == plans[slots[j].slot as int]);
        assert(slots[i].slot != slots[j].slot);
    }
    edits_make_one_replacement(b, slots, carets.len());
}

/// Whether position `i` is between the two characters of a CRLF.
pub open spec fn inside_crlf(t: Seq<char>, i: nat) -> bool {
    i > 0 && crlf_at(t, i - 1)
}

/// Typing or deleting forwards at carets without selections, at different
/// places of the text and not within a line break, can always be done, and is
/// one replacement: every caret changes the text at its own place.
pub proof fn strokes_at_carets(b: BufferState, carets: Seq<Caret>, stroke: Stroke)
    requires
        !(stroke is Backspace),
        forall|i: int|
            0 <= i < carets.len() ==> (#[trigger] carets[i]).anchor is None && has_index(
                b.text,
                carets[i].at(),
            ) && index_at(b.text, carets[i].at()) <= b.text.len(),
        stroke is Delete ==> forall|i: int|
            0 <= i < carets.len() ==> !inside_crlf(
                b.text,
                index_at(b.text, (#[trigger] carets[i]).at()),
            ),
        forall|i: int, j: int|
            0 <= i < j < carets.len() ==> index_at(b.text, (#[trigger] carets[i]).at())
                != index_at(b.text, (#[trigger] carets[j]).at()),
        stays_indexable(b.text, by_start(plans_of(b.text, carets, stroke))),
    ensures
        can_fan_out(b, carets, stroke),
        fanned_out(b, carets, stroke).buffer.text == replaced(
            b.text,
            by_start(plans_of(b.text, carets, stroke)),
        ),
{
    lemma_plans_apart(b.text, carets, stroke);
    strokes_apart(b, carets, stroke);
}

/// Deleting backwards at carets without selections, at different places, none of
/// which is within a line break, can always be done, and is one replacement.
pub proof fn backspaces_at_carets(b: BufferState, carets: Seq<Caret>)
    requires
        forall|i: int|
            0 <= i < carets.len() ==> (#[trigger] carets[i]).anchor is None && has_index(
                b.text,
                carets[i].at(),
            ) && index_at(b.text, carets[i].at()) <= b.text.len() && !inside_crlf(
                b.text,
                index_at(b.text, carets[i].at()),
            ),
        forall|i: int, j: int|
            0 <= i < j < carets.len() ==> index_at(b.text, (#[trigger] carets[i]).at())
                != index_at(b.text, (#[trigger] carets[j]).at()),
        stays_indexable(b.text, by_start(plans_of(b.text, carets, Stroke::Backspace))),
    ensures
        can_fan_out(b, carets, Stroke::Backspace),
        fanned_out(b, carets, Stroke::Backspace).buffer.text == replaced(
            b.text,
            by_start(plans_of(b.text, carets, Stroke::Backspace)),
        ),
{
    lemma_plans_apart(b.text, carets, Stroke::Backspace);
    strokes_apart(b, carets, Stroke::Backspace);
}

/// What carets without selections ask for at different places does not overlap.
pub(crate) proof fn lemma_plans_apart(t: Seq<char>, carets: Seq<Caret>, stroke: Stroke)
    requires
        forall|i: int|
            0 <= i < carets.len() ==> (#[trigger] carets[i]).anchor is None && index_at(
                t,
                carets[i].at(),
            ) <= t.len() && (stroke is Backspace || stroke is Delete ==> !inside_crlf(
                t,
                index_at(t, carets[i].at()),
            )),
        forall|i: int, j: int|
            0 <= i < j < carets.len() ==> index_at(t, (#[trigger] carets[i]).at()) != index_at(
                t,
                (#[trigger] carets[j]).at(),
            ),
    ensures
        plans_apart(t, plans_of(t, carets, stroke)),
{
    let plans = plans_of(t, carets, stroke);
    assert forall|i: int| 0 <= i < plans.len() implies (#[trigger] plans[i]).start <= plans[i].end
        <= t.len() by {
        assert(plans[i] == plan_of(t, carets[i], stroke));
    }
    assert forall|i: int, j: int|
        #![trigger plans[i], plans[j]]
        0 <= i < plans.len() && 0 <= j < plans.len() && i != j implies (plans[i].start
        != plans[j].start || plans[i].end != plans[j].end) && (plans[i].end <= plans[j].start
        || plans[j].end <= plans[i].start) by {
        assert(plans[i] == plan_of(t, carets[i], stroke));
        assert(plans[j] == plan_of(t, carets[j], stroke));
        if i < j {
            assert(index_at(t, carets[i].at()) != index_at(t, carets[j].at()));
        } else {
            assert(index_at(t, carets[j].at()) != index_at(t, carets[i].at()));
        }
    }
}

// ---------------------------------------------------------------------------
// Where everything comes to stand.

/// By how much one edit shifts what stands at position `m` or behind it.
spec fn shift_by(p: Plan, m: int) -> int {
    if p.end <= m {
        p.text.len() - (p.end - p.start)
    } else {
        0
    }
}

/// By how much some edits shift the character at position `m`.
spec fn shift_of(plans: Seq<Plan>, m: int) -> int
    decreases plans.len(),
{
    if plans.len() == 0 {
        0
    } else {
        shift_of(plans.drop_last(), m) + shift_by(plans.last(), m)
    }
}

/// The same for edits with the numbers of their carets.
spec fn slots_shift(slots: Seq<Slot>, m: int) -> int
    decreases slots.len(),
{
    if slots.len() == 0 {
        0
    } else {
        slots_shift(slots.drop_last(), m) + shift_by(slots.last().plan, m)
    }
}

proof fn lemma_shift_insert(slots: Seq<Slot>, k: int, s: Slot, m: int)
    requires
        0 <= k <= slots.len(),
    ensures
        slots_shift(slots.insert(k, s), m) == slots_shift(slots, m) + shift_by(s.plan, m),
    decreases slots.len(),
{
    let all = slots.insert(k, s);
    if k == slots.len() {
        assert(all.drop_last() =~= slots);
    } else {
        lemma_shift_insert(slots.drop_last(), k, s, m);
        assert(all.drop_last() =~= slots.drop_last().insert(k, s));
        assert(all.last() == slots.last());
    }
}

/// The order in which the edits are made is of no account to the shift.
proof fn lemma_shift_by_start(plans: Seq<Plan>, m: int)
    ensures
        slots_shift(by_start(plans), m) == shift_of(plans, m),
    decreases plans.len(),
{
    if plans.len() > 0 {
        let rest = by_start(plans.drop_last());
        lemma_shift_by_start(plans.drop_last(), m);
        lemma_place_of(rest, plans.last());
        lemma_shift_insert(
            rest,
            place_of(rest, plans.last()),
            Slot { slot: (plans.len() - 1) as nat, plan: plans.last() },
            m,
        );
    }
}

/// Where the text of an edit ends once all are made.
spec fn landing(p: Plan, shift: int) -> int {
    if p.start == p.end {
        p.start + shift
    } else {
        p.start + shift + p.text.len()
    }
}

/// Whether a position is among the characters that an edit takes out.
spec fn taken_by(slots: Seq<Slot>, m: int) -> bool {
    exists|i: int| 0 <= i < slots.len() && (#[trigger] slots[i]).plan.start <= m < slots[i].plan.end
}

/// Whether no two edits have one range.
spec fn ranges_differ(slots: Seq<Slot>) -> bool {
    forall|i: int, j: int|
        0 <= i < j < slots.len() ==> (#[trigger] slots[i]).plan.start != (
        #[trigger] slots[j]).plan.start || slots[i].plan.end != slots[j].plan.end
}

/// Edits one after the other without the last one of them still come so.
proof fn lemma_front_apart(slots: Seq<Slot>, len: nat)
    requires
        apart(slots, len),
        ranges_differ(slots),
        slots.len() > 0,
    ensures
        apart(slots.drop_last(), len),
        ranges_differ(slots.drop_last()),
        last_end(slots.drop_last()) <= slots.last().plan.start <= slots.last().plan.end <= len,
{
    let rest = slots.drop_last();
    assert forall|i: int| 0 <= i < rest.len() implies (#[trigger] rest[i]) == slots[i] by {}
    assert(slots[slots.len() - 1] == slots.last());
    if rest.len() > 0 {
        assert(slots[slots.len() - 2] == rest.last());
    }
}

/// How long the woven text is: the edits have shifted all that follows by what it
/// is longer than the text that it replaces.
proof fn lemma_woven_len(t: Seq<char>, slots: Seq<Slot>, m: int)
    requires
        apart(slots, t.len()),
        ranges_differ(slots),
        m >= last_end(slots),
    ensures
        last_end(slots) <= t.len(),
        slots_shift(slots, m) == woven(t, slots).len() - last_end(slots),
    decreases slots.len(),
{
    if slots.len() > 0 {
        let rest = slots.drop_last();
        let last = slots.last().plan;
        lemma_front_apart(slots, t.len());
        lemma_woven_len(t, rest, m);
        let gap = t.subrange(last_end(rest) as int, last.start as int);
        assert(gap.len() == last.start - last_end(rest));
        assert(woven(t, slots) == woven(t, rest) + gap + last.text);
    }
}

/// Where a character before the end of the last edit comes to stand, if no edit
/// takes it out.
proof fn lemma_woven_kept(t: Seq<char>, slots: Seq<Slot>, m: int)
    requires
        apart(slots, t.len()),
        ranges_differ(slots),
        0 <= m < last_end(slots),
        !taken_by(slots, m),
    ensures
        0 <= m + slots_shift(slots, m) < woven(t, slots).len(),
        woven(t, slots)[m + slots_shift(slots, m)] == t[m],
    decreases slots.len(),
{
    let rest = slots.drop_last();
    let last = slots.last().plan;
    lemma_front_apart(slots, t.len());
    let w = woven(t, rest);
    let e0 = last_end(rest) as int;
    let gap = t.subrange(e0, last.start as int);
    let all = woven(t, slots);
    assert(all == w + gap + last.text);
    assert(slots[slots.len() - 1].plan == last);
    assert(!(last.start <= m < last.end));
    assert(slots_shift(slots, m) == slots_shift(rest, m));
    if m < e0 {
        assert(!taken_by(rest, m)) by {
            if taken_by(rest, m) {
                let i = choose|i: int|
                    0 <= i < rest.len() && (#[trigger] rest[i]).plan.start <= m < rest[i].plan.end;
                assert(slots[i] == rest[i]);
            }
        }
        lemma_woven_kept(t, rest, m);
        let d = slots_shift(rest, m);
        assert(all[m + d] == w[m + d]);
    } else {
        lemma_woven_len(t, rest, m);
        assert(all[m + w.len() - e0] == gap[m - e0]);
    }
}

/// Where the text of edit `i` comes to stand.
proof fn lemma_woven_landed(t: Seq<char>, slots: Seq<Slot>, i: int)
    requires
        apart(slots, t.len()),
        ranges_differ(slots),
        0 <= i < slots.len(),
    ensures
        ({
            let p = slots[i].plan;
            let e = landing(p, slots_shift(slots, p.start as int));
            &&& 0 <= e - p.text.len()
            &&& e <= woven(t, slots).len()
            &&& woven(t, slots).subrange(e - p.text.len(), e) == p.text
            &&& woven(t, slots.take(i + 1)).len() == e
        }),
    decreases slots.len(),
{
    let rest = slots.drop_last();
    let last = slots.last().plan;
    lemma_front_apart(slots, t.len());
    let w = woven(t, rest);
    let e0 = last_end(rest) as int;
    let gap = t.subrange(e0, last.start as int);
    let all = woven(t, slots);
    assert(all == w + gap + last.text);
    let p = slots[i].plan;
    let e = landing(p, slots_shift(slots, p.start as int));
    if i < rest.len() {
        let j = slots.len() - 1;
        assert(rest[i] == slots[i]);
        assert(slots[i].plan.end <= slots[j].plan.start);
        assert(slots[i].plan.start != slots[j].plan.start || slots[i].plan.end
            != slots[j].plan.end);
        assert(!(last.end <= p.start));
        assert(slots_shift(slots, p.start as int) == slots_shift(rest, p.start as int));
        lemma_woven_landed(t, rest, i);
        assert(rest.take(i + 1) =~= slots.take(i + 1));
        assert(all.subrange(e - p.text.len(), e) =~= w.subrange(e - p.text.len(), e));
    } else {
        assert(slots.take(i + 1) =~= slots);
        lemma_woven_len(t, rest, last.start as int);
        assert(e == all.len());
        assert(all.subrange(e - last.text.len(), e) =~= last.text);
    }
}

/// The characters that a stroke takes out at one caret: those that are selected;
/// with no selection, Backspace takes out the character before the caret and
/// Delete the one behind it, which is both characters of a CRLF, and typing and
/// Enter take out none.
pub open spec fn takes_out(t: Seq<char>, c: Caret, stroke: Stroke, lo: int, hi: int) -> bool {
    let i = line_start(t, c.cursor.line as int) + c.cursor.col;
    match c.anchor {
        Some(a) => {
            let j = line_start(t, a.0 as int) + a.1;
            (lo == i && hi == j && i <= j) || (lo == j && hi == i && j <= i)
        },
        None => match stroke {
            Stroke::Backspace => hi == i && if i >= 2 && t[i - 2] == '\r' && t[i - 1] == '\n' {
                lo == i - 2
            } else if i >= 1 {
                lo == i - 1
            } else {
                lo == i
            },
            Stroke::Delete => lo == i && if i + 1 < t.len() && t[i] == '\r' && t[i + 1] == '\n' {
                hi == i + 2
            } else if i < t.len() {
                hi == i + 1
            } else {
                hi == i
            },
            _ => lo == i && hi == i,
        },
    }
}

/// How many characters a stroke puts in at each caret.
pub open spec fn put_in_count(stroke: Stroke) -> nat {
    match stroke {
        Stroke::Replace(x) => x.len(),
        Stroke::Break => 1,
        _ => 0,
    }
}

/// By how much edits that put `count` characters in the place of each range
/// `lo[i]..hi[i]` shift the character at position `m`: the ranges that end at or
/// before it count.
pub open spec fn shifted_by(lo: Seq<int>, hi: Seq<int>, count: nat, m: int) -> int
    decreases lo.len(),
{
    if lo.len() == 0 {
        0
    } else {
        shifted_by(lo.drop_last(), hi.drop_last(), count, m) + if hi.last() <= m {
            count - (hi.last() - lo.last())
        } else {
            0
        }
    }
}

/// Whether the ranges lie within a text of length `len`, and no two overlap or
/// are one.
pub open spec fn ranges_apart(lo: Seq<int>, hi: Seq<int>, len: nat) -> bool {
    &&& lo.len() == hi.len()
    &&& forall|i: int| 0 <= i < lo.len() ==> 0 <= #[trigger] lo[i] <= hi[i] <= len
    &&& forall|i: int, j: int|
        #![trigger lo[i], lo[j]]
        0 <= i < lo.len() && 0 <= j < lo.len() && i != j ==> {
            &&& lo[i] != lo[j] || hi[i] != hi[j]
            &&& hi[i] <= lo[j] || hi[j] <= lo[i]
        }
}

/// Whether a caret stands on its line of the text, and so does the other end of
/// its selection.
pub open spec fn on_its_line(t: Seq<char>, c: Caret) -> bool {
    &&& c.cursor.line < line_total(t)
    &&& line_start(t, c.cursor.line as int) + c.cursor.col <= t.len()
    &&& c.anchor matches Some(a) ==> {
        &&& a.0 < line_total(t)
        &&& line_start(t, a.0 as int) + a.1 <= t.len()
        &&& crate::rope::breaks_before(t, line_start(t, a.0 as int) + a.1) == a.0
        &&& crate::rope::breaks_before(t, line_start(t, c.cursor.line as int) + c.cursor.col)
            == c.cursor.line
    }
}

/// What the plan of a caret takes out.
pub(crate) proof fn lemma_plan_takes_out(t: Seq<char>, c: Caret, stroke: Stroke, lo: int, hi: int)
    requires
        on_its_line(t, c),
        t.len() <= usize::MAX,
        takes_out(t, c, stroke, lo, hi),
    ensures
        caret_has_index(t, c),
        plan_of(t, c, stroke).start == lo,
        plan_of(t, c, stroke).end == hi,
        plan_of(t, c, stroke).text.len() == put_in_count(stroke),
{
    crate::rope::lemma_line_start(t, c.cursor.line as int);
    let i = line_start(t, c.cursor.line as int) + c.cursor.col;
    match c.anchor {
        Some(a) => {
            crate::rope::lemma_line_start(t, a.0 as int);
            let j = line_start(t, a.0 as int) + a.1;
            if i < j {
                crate::rope::lemma_breaks_monotone(t, i, j);
            } else if j < i {
                crate::rope::lemma_breaks_monotone(t, j, i);
            }
        },
        None => {},
    }
}

proof fn lemma_shift_of(plans: Seq<Plan>, lo: Seq<int>, hi: Seq<int>, count: nat, m: int)
    requires
        plans.len() == lo.len() == hi.len(),
        forall|i: int|
            0 <= i < plans.len() ==> (#[trigger] plans[i]).start == lo[i] && plans[i].end == hi[i]
                && plans[i].text.len() == count,
    ensures
        shift_of(plans, m) == shifted_by(lo, hi, count, m),
    decreases plans.len(),
{
    if plans.len() > 0 {
        let n = plans.len() - 1;
        assert(plans[n].start == lo[n]);
        assert forall|i: int| 0 <= i < n implies (#[trigger] plans.drop_last()[i]).start
            == lo.drop_last()[i] && plans.drop_last()[i].end == hi.drop_last()[i]
            && plans.drop_last()[i].text.len() == count by {
            assert(plans[i].start == lo[i]);
        }
        lemma_shift_of(plans.drop_last(), lo.drop_last(), hi.drop_last(), count, m);
    }
}

/// Edits that put in `count` characters each make the text longer by no more
/// than that.
proof fn lemma_shift_bound(slots: Seq<Slot>, count: nat, m: int)
    requires
        forall|i: int|
            0 <= i < slots.len() ==> (#[trigger] slots[i]).plan.start <= slots[i].plan.end
                && slots[i].plan.text.len() == count,
    ensures
        slots_shift(slots, m) <= slots.len() * count,
    decreases slots.len(),
{
    if slots.len() > 0 {
        let rest = slots.drop_last();
        assert forall|i: int| 0 <= i < rest.len() implies (#[trigger] rest[i]).plan.start
            <= rest[i].plan.end && rest[i].plan.text.len() == count by {
            assert(rest[i] == slots[i]);
        }
        lemma_shift_bound(rest, count, m);
        assert(slots[slots.len() - 1] == slots.last());
        assert(slots.len() * count == rest.len() * count + count) by (nonlinear_arith)
            requires
                slots.len() == rest.len() + 1,
        ;
    }
}

/// Whether the plans take out the ranges and put in `count` characters each.
spec fn plans_take(plans: Seq<Plan>, lo: Seq<int>, hi: Seq<int>, count: nat) -> bool {
    &&& plans.len() == lo.len() == hi.len()
    &&& forall|i: int|
        0 <= i < plans.len() ==> (#[trigger] plans[i]).start == lo[i] && plans[i].end == hi[i]
            && plans[i].text.len() == count
}

/// What carets ask for takes out their ranges.
proof fn lemma_plans_take(
    t: Seq<char>,
    carets: Seq<Caret>,
    stroke: Stroke,
    lo: Seq<int>,
    hi: Seq<int>,
)
    requires
        t.len() <= usize::MAX,
        lo.len() == carets.len(),
        ranges_apart(lo, hi, t.len()),
        forall|i: int|
            0 <= i < carets.len() ==> on_its_line(t, #[trigger] carets[i]) && takes_out(
                t,
                carets[i],
                stroke,
                lo[i],
                hi[i],
            ),
    ensures
        plans_take(plans_of(t, carets, stroke), lo, hi, put_in_count(stroke)),
        plans_apart(t, plans_of(t, carets, stroke)),
        forall|i: int| 0 <= i < carets.len() ==> caret_has_index(t, #[trigger] carets[i]),
{
    let plans = plans_of(t, carets, stroke);
    let count = put_in_count(stroke);
    assert forall|i: int| 0 <= i < plans.len() implies (#[trigger] plans[i]).start == lo[i]
        && plans[i].end == hi[i] && plans[i].text.len() == count && caret_has_index(
        t,
        carets[i],
    ) by {
        assert(plans[i] == plan_of(t, carets[i], stroke));
        assert(on_its_line(t, carets[i]));
        lemma_plan_takes_out(t, carets[i], stroke, lo[i], hi[i]);
    }
    assert forall|i: int| 0 <= i < carets.len() implies caret_has_index(t, #[trigger] carets[i]) by {
        assert(plans[i].start == lo[i]);
    }
    assert forall|i: int| 0 <= i < plans.len() implies (#[trigger] plans[i]).start <= plans[i].end
        <= t.len() by {
        assert(lo[i] <= hi[i]);
    }
    assert forall|i: int, j: int|
        #![trigger plans[i], plans[j]]
        0 <= i < plans.len() && 0 <= j < plans.len() && i != j implies (plans[i].start
        != plans[j].start || plans[i].end != plans[j].end) && (plans[i].end <= plans[j].start
        || plans[j].end <= plans[i].start) by {
        assert(lo[i] != lo[j] || hi[i] != hi[j]);
    }
}

/// Plans that do not overlap, in order.
proof fn lemma_slots_apart(t: Seq<char>, plans: Seq<Plan>, lo: Seq<int>, hi: Seq<int>, count: nat)
    requires
        plans_take(plans, lo, hi, count),
        plans_apart(t, plans),
    ensures
        by_start(plans).len() == plans.len(),
        apart(by_start(plans), t.len()),
        ranges_differ(by_start(plans)),
        forall|i: int|
            0 <= i < by_start(plans).len() ==> (#[trigger] by_start(plans)[i]).plan.text.len()
                == count,
{
    let slots = by_start(plans);
    lemma_by_start_slots(plans);
    lemma_by_start_ordered(plans);
    assert forall|i: int| 0 <= i < slots.len() implies (#[trigger] slots[i]).plan.start
        <= slots[i].plan.end <= t.len() && slots[i].plan.text.len() == count by {
        assert(slots[i].plan == plans[slots[i].slot as int]);
    }
    assert forall|i: int, j: int| 0 <= i < j < slots.len() implies (#[trigger] slots[i]).plan.end
        <= (#[trigger] slots[j]).plan.start && (slots[i].plan.start != slots[j].plan.start
        || slots[i].plan.end != slots[j].plan.end) by {
        assert(slots[i].plan == plans[slots[i].slot as int]);
        assert(slots[j].plan == plans[slots[j].slot as int]);
        assert(slots[i].slot != slots[j].slot);
    }
}

/// Edits that put in `count` characters each keep the text indexable, if there
/// is room for all of them.
proof fn lemma_slots_indexable(t: Seq<char>, slots: Seq<Slot>, count: nat, k: int)
    requires
        apart(slots, t.len()),
        ranges_differ(slots),
        forall|i: int| 0 <= i < slots.len() ==> (#[trigger] slots[i]).plan.text.len() == count,
        0 <= k <= slots.len(),
        t.len() + slots.len() * count <= usize::MAX,
    ensures
        replaced(t, slots.take(k)).len() <= usize::MAX,
{
    let some = slots.take(k);
    assert forall|i: int| 0 <= i < some.len() implies (#[trigger] some[i]) == slots[i] by {}
    lemma_replaced_len(t, some);
    lemma_shift_bound(some, count, t.len() as int);
    assert(k * count <= slots.len() * count) by (nonlinear_arith)
        requires
            0 <= k <= slots.len(),
            0 <= count,
    ;
}

/// Plans that do not overlap stay so, and indexable, in order.
proof fn lemma_slots_take(t: Seq<char>, plans: Seq<Plan>, lo: Seq<int>, hi: Seq<int>, count: nat)
    requires
        plans_take(plans, lo, hi, count),
        plans_apart(t, plans),
        t.len() + plans.len() * count <= usize::MAX,
    ensures
        apart(by_start(plans), t.len()),
        ranges_differ(by_start(plans)),
        stays_indexable(t, by_start(plans)),
{
    let slots = by_start(plans);
    lemma_slots_apart(t, plans, lo, hi, count);
    assert forall|k: int| 0 <= k <= slots.len() implies (#[trigger] replaced(
        t,
        slots.take(k),
    )).len() <= usize::MAX by {
        lemma_slots_indexable(t, slots, count, k);
    }
}

/// The ordered plans shift what follows them as the ranges say.
proof fn lemma_slots_shift(plans: Seq<Plan>, lo: Seq<int>, hi: Seq<int>, count: nat, m: int)
    requires
        plans_take(plans, lo, hi, count),
    ensures
        slots_shift(by_start(plans), m) == shifted_by(lo, hi, count, m),
{
    lemma_shift_by_start(plans, m);
    lemma_shift_of(plans, lo, hi, count, m);
}

/// Where a character that none of the ordered edits takes out comes to stand.
proof fn lemma_kept_slots(t: Seq<char>, slots: Seq<Slot>, m: int)
    requires
        apart(slots, t.len()),
        ranges_differ(slots),
        0 <= m < t.len(),
        !taken_by(slots, m),
    ensures
        0 <= m + slots_shift(slots, m) < replaced(t, slots).len(),
        replaced(t, slots)[m + slots_shift(slots, m)] == t[m],
{
    let u = replaced(t, slots);
    let w = woven(t, slots);
    let e0 = last_end(slots) as int;
    let d = slots_shift(slots, m);
    if m < e0 {
        lemma_woven_kept(t, slots, m);
        assert(u[m + d] == w[m + d]);
    } else {
        lemma_woven_len(t, slots, m);
        assert(u[m + d] == t.skip(e0)[m - e0]);
    }
}

/// How long the text is once the edits are made.
proof fn lemma_replaced_len(t: Seq<char>, slots: Seq<Slot>)
    requires
        apart(slots, t.len()),
        ranges_differ(slots),
    ensures
        replaced(t, slots).len() == t.len() + slots_shift(slots, t.len() as int),
{
    if slots.len() > 0 {
        lemma_front_apart(slots, t.len());
    }
    lemma_woven_len(t, slots, t.len() as int);
}

/// Where the text of edit `k` comes to stand.
proof fn lemma_landed(t: Seq<char>, slots: Seq<Slot>, k: int)
    requires
        apart(slots, t.len()),
        ranges_differ(slots),
        0 <= k < slots.len(),
    ensures
        ({
            let p = slots[k].plan;
            let e = landing(p, slots_shift(slots, p.start as int));
            &&& p.text.len() <= e <= replaced(t, slots).len()
            &&& replaced(t, slots).subrange(e - p.text.len(), e) == p.text
            &&& woven(t, slots.take(k + 1)).len() == e
        }),
{
    lemma_woven_landed(t, slots, k);
    let p = slots[k].plan;
    let e = landing(p, slots_shift(slots, p.start as int));
    let w = woven(t, slots);
    assert(w.subrange(e - p.text.len(), e) == p.text);
    assert(replaced(t, slots).subrange(e - p.text.len(), e) =~= w.subrange(e - p.text.len(), e));
}

/// Where a character that no edit takes out comes to stand.
proof fn lemma_kept(t: Seq<char>, plans: Seq<Plan>, lo: Seq<int>, hi: Seq<int>, count: nat, m: int)
    requires
        plans_take(plans, lo, hi, count),
        plans_apart(t, plans),
        t.len() + plans.len() * count <= usize::MAX,
        0 <= m < t.len(),
        forall|i: int| 0 <= i < lo.len() ==> !(#[trigger] lo[i] <= m < hi[i]),
    ensures
        ({
            let u = replaced(t, by_start(plans));
            let d = shifted_by(lo, hi, count, m);
            0 <= m + d < u.len() && u[m + d] == t[m]
        }),
{
    let slots = by_start(plans);
    lemma_slots_take(t, plans, lo, hi, count);
    lemma_slots_shift(plans, lo, hi, count, m);
    assert(!taken_by(slots, m)) by {
        lemma_by_start_slots(plans);
        if taken_by(slots, m) {
            let k = choose|k: int|
                0 <= k < slots.len() && (#[trigger] slots[k]).plan.start <= m < slots[k].plan.end;
            let i = slots[k].slot as int;
            assert(slots[k].plan == plans[i]);
            assert(!(lo[i] <= m < hi[i]));
        }
    }
    lemma_kept_slots(t, slots, m);
}

/// Where the text of an edit comes to stand, and where its caret lands.
proof fn lemma_lands(
    b: BufferState,
    plans: Seq<Plan>,
    lo: Seq<int>,
    hi: Seq<int>,
    count: nat,
    i: int,
)
    requires
        plans_take(plans, lo, hi, count),
        plans_apart(b.text, plans),
        b.text.len() + plans.len() * count <= usize::MAX,
        0 <= i < plans.len(),
    ensures
        ({
            let batch = batch_start(b, plans.len()).run(by_start(plans));
            let u = batch.buffer.text;
            let place = batch.places[i];
            let own = if lo[i] == hi[i] {
                count as int
            } else {
                0
            };
            &&& batch_start(b, plans.len()).run_fits(by_start(plans))
            &&& u == replaced(b.text, by_start(plans))
            &&& batch.places.len() == plans.len()
            &&& place == lo[i] + shifted_by(lo, hi, count, lo[i]) - own + count
            &&& count <= place <= u.len()
            &&& u.subrange(place - count, place as int) == plans[i].text
        }),
{
    let t = b.text;
    let slots = by_start(plans);
    lemma_slots_take(t, plans, lo, hi, count);
    lemma_by_start_slots(plans);
    lemma_by_start_ordered(plans);
    edits_make_one_replacement(b, slots, plans.len());
    lemma_slot_of(plans, i);
    let batch = batch_start(b, plans.len()).run(slots);
    let k = choose|k: int| 0 <= k < slots.len() && (#[trigger] slots[k]).slot == i;
    assert(slots[k].plan == plans[i]);
    assert(batch.places[slots[k].slot as int] == woven(t, slots.take(k + 1)).len());
    lemma_slots_shift(plans, lo, hi, count, lo[i]);
    lemma_landed(t, slots, k);
}

/// What a stroke at several carets does to the text. At each caret the characters
/// that it takes out leave and those that it puts in come in their place; every
/// other character of the text stays, shifted by what the edits before it added
/// and took away. The text is as long as that makes it, and each caret lands
/// behind what was put in for it.
pub proof fn every_caret_edits_at_its_own_place(
    b: BufferState,
    carets: Seq<Caret>,
    stroke: Stroke,
    lo: Seq<int>,
    hi: Seq<int>,
)
    requires
        b.text.len() + carets.len() * put_in_count(stroke) <= usize::MAX,
        lo.len() == carets.len(),
        ranges_apart(lo, hi, b.text.len()),
        forall|i: int|
            0 <= i < carets.len() ==> on_its_line(b.text, #[trigger] carets[i]) && takes_out(
                b.text,
                carets[i],
                stroke,
                lo[i],
                hi[i],
            ),
    ensures
        can_fan_out(b, carets, stroke),
        ({
            let t = b.text;
            let u = fanned_out(b, carets, stroke).buffer.text;
            let places = fanned_out(b, carets, stroke).places;
            let count = put_in_count(stroke);
            &&& u.len() == t.len() + shifted_by(lo, hi, count, t.len() as int)
            &&& forall|m: int|
                0 <= m < t.len() && (forall|i: int|
                    0 <= i < lo.len() ==> !(#[trigger] lo[i] <= m < hi[i])) ==> 0 <= m
                    + #[trigger] shifted_by(lo, hi, count, m) < u.len() && u[m + shifted_by(
                    lo,
                    hi,
                    count,
                    m,
                )] == t[m]
            &&& places.len() == carets.len()
            &&& forall|i: int|
                0 <= i < carets.len() ==> ({
                    let place = #[trigger] places[i];
                    let before = shifted_by(lo, hi, count, lo[i]) - if lo[i] == hi[i] {
                        count as int
                    } else {
                        0
                    };
                    &&& place == lo[i] + before + count
                    &&& count <= place <= u.len()
                    &&& stroke matches Stroke::Replace(x) ==> u.subrange(
                        place - count,
                        place as int,
                    ) == x
                    &&& stroke is Break ==> u[place - 1] == if lo[i] > 0 && t[lo[i] - 1] == '\r'
                        && !(hi[i] < t.len() && t[hi[i]] == '\n') {
                        '\r'
                    } else {
                        '\n'
                    }
                })
        }),
{
    let t = b.text;
    let count = put_in_count(stroke);
    let plans = plans_of(t, carets, stroke);
    assert(0 <= carets.len() * count) by (nonlinear_arith);
    lemma_plans_take(t, carets, stroke, lo, hi);
    lemma_slots_take(t, plans, lo, hi, count);
    strokes_apart(b, carets, stroke);
    let u = fanned_out(b, carets, stroke).buffer.text;
    let places = fanned_out(b, carets, stroke).places;
    assert(u.len() == t.len() + shifted_by(lo, hi, count, t.len() as int)) by {
        lemma_replaced_len(t, by_start(plans));
        lemma_slots_shift(plans, lo, hi, count, t.len() as int);
    }
    assert forall|m: int|
        0 <= m < t.len() && (forall|i: int|
            0 <= i < lo.len() ==> !(#[trigger] lo[i] <= m < hi[i])) implies 0 <= m
        + #[trigger] shifted_by(lo, hi, count, m) < u.len() && u[m + shifted_by(lo, hi, count, m)]
        == t[m] by {
        lemma_kept(t, plans, lo, hi, count, m);
    }
    assert(places.len() == carets.len()) by {
        if carets.len() > 0 {
            lemma_lands(b, plans, lo, hi, count, 0);
        } else {
            assert(by_start(plans).len() == 0);
        }
    }
    assert forall|i: int| 0 <= i < carets.len() implies ({
        let place = #[trigger] places[i];
        let before = shifted_by(lo, hi, count, lo[i]) - if lo[i] == hi[i] {
            count as int
        } else {
            0
        };
        &&& place == lo[i] + before + count
        &&& count <= place <= u.len()
        &&& stroke matches Stroke::Replace(x) ==> u.subrange(place - count, place as int) == x
        &&& stroke is Break ==> u[place - 1] == if lo[i] > 0 && t[lo[i] - 1] == '\r' && !(hi[i]
            < t.len() && t[hi[i]] == '\n') {
            '\r'
        } else {
            '\n'
        }
    }) by {
        lemma_lands(b, plans, lo, hi, count, i);
        let place = places[i];
        assert(plans[i] == plan_of(t, carets[i], stroke));
        assert(plans[i].start == lo[i] && plans[i].end == hi[i]);
        assert(lo[i] <= hi[i]);
        if stroke is Break {
            assert(plans[i].text == seq![break_char(t, lo[i], hi[i])]);
            assert(u.subrange(place - 1, place as int)[0] == u[place - 1]);
        }
    }
}

/// Every caret has its slot among the ordered ones.
proof fn lemma_slot_of(plans: Seq<Plan>, i: int)
    requires
        0 <= i < plans.len(),
    ensures
        exists|k: int| 0 <= k < by_start(plans).len() && (#[trigger] by_start(plans)[k]).slot == i,
    decreases plans.len(),
{
    let rest = by_start(plans.drop_last());
    lemma_place_of(rest, plans.last());
    let at = place_of(rest, plans.last());
    let all = by_start(plans);
    if i == plans.len() - 1 {
        assert(all[at].slot == i);
    } else {
        lemma_slot_of(plans.drop_last(), i);
        let k = choose|k: int| 0 <= k < rest.len() && (#[trigger] rest[k]).slot == i;
        if k < at {
            assert(all[k] == rest[k]);
        } else {
            assert(all[k + 1] == rest[k]);
        }
    }
}

/// What one caret replaces is one undo step, the removal and the text that went
/// in together: undoing it gives the text back, and the cursor goes to where the
/// replaced text began.
pub proof fn a_replacement_is_one_step(b: BufferState, s: nat, e: nat, text: Seq<char>)
    requires
        b.wf(),
        b.open is None,
        s <= e <= b.text.len(),
        s < e || text.len() > 0,
        b.text.len() + text.len() <= usize::MAX,
    ensures
        ({
            let c = edited_range(b, s, e, text);
            &&& c.text == b.text.take(s as int) + text + b.text.skip(e as int)
            &&& c.can_undo()
            &&& c.finalized().undo.len() == b.undo.len() + 1
            &&& c.finalized().undo.last().before == s
            &&& c.undone().text == b.text
            &&& c.undone().undo == b.undo
        }),
{
    let t = b.text;
    let ready = BufferState { pending: s, ..b };
    assert(ready.wf());
    let insert = Op::Insert { at: s, text };
    let cut = t.take(s as int) + t.skip(e as int);
    if s < e {
        let remove = Op::Remove { at: s, text: t.subrange(s as int, e as int) };
        assert(remove.apply(t) =~= cut);
        crate::buffer::origin_is_kept(ready, remove);
        crate::buffer::edit_then_undo(ready, remove);
        let mid = ready.edited(remove);
        assert(mid.open->0.ops =~= seq![remove]);
        if text.len() > 0 {
            assert(remove.continued_by(insert));
            crate::buffer::run_of_edits_then_undo(mid, insert);
            assert(cut.take(s as int) =~= t.take(s as int));
            assert(cut.skip(s as int) =~= t.skip(e as int));
        } else {
            assert(t.take(s as int) + text + t.skip(e as int) =~= cut);
        }
    } else {
        crate::buffer::edit_then_undo(ready, insert);
    }
}

} // verus!
