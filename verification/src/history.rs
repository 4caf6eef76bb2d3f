//! Reversible edits and the steps that undo and redo walk through.
//!
//! An edit inserts or removes one run of characters. A step is a run of edits
//! that are undone and redone together. Replaying a step applies its edits in
//! order; rewinding it reverts them in the opposite order.
use vstd::prelude::*;

verus! {

/// One reversible edit: a run of characters that went in at, or came out of, a
/// position.
#[verifier::ext_equal]
pub enum Op {
    Insert { at: nat, text: Seq<char> },
    Remove { at: nat, text: Seq<char> },
}

/// One undo step: its edits, the cursor before it and the cursor after it.
#[verifier::ext_equal]
pub struct Step {
    pub ops: Seq<Op>,
    pub before: nat,
    pub after: nat,
}

/// `t` with `x` put in at position `at`.
pub open spec fn put_in(t: Seq<char>, at: int, x: Seq<char>) -> Seq<char> {
    t.take(at) + x + t.skip(at)
}

/// `t` without the characters `start..end`.
pub open spec fn cut_out(t: Seq<char>, start: int, end: int) -> Seq<char> {
    t.take(start) + t.skip(end)
}

/// Whether the characters of `t` at position `at` are `x`.
pub open spec fn holds_at(t: Seq<char>, at: int, x: Seq<char>) -> bool {
    &&& 0 <= at
    &&& at + x.len() <= t.len()
    &&& t.subrange(at, at + x.len()) == x
}

/// A text short enough to be indexed.
pub open spec fn indexable(t: Seq<char>) -> bool {
    t.len() <= usize::MAX
}

impl Op {
    /// Whether the edit can be made on `t`.
    pub open spec fn applies(self, t: Seq<char>) -> bool {
        match self {
            Op::Insert { at, text } => at <= t.len(),
            Op::Remove { at, text } => holds_at(t, at as int, text),
        }
    }

    /// `t` after the edit.
    pub open spec fn apply(self, t: Seq<char>) -> Seq<char> {
        match self {
            Op::Insert { at, text } => put_in(t, at as int, text),
            Op::Remove { at, text } => cut_out(t, at as int, (at + text.len()) as int),
        }
    }

    /// The edit that takes this one back.
    pub open spec fn inverse(self) -> Op {
        match self {
            Op::Insert { at, text } => Op::Remove { at, text },
            Op::Remove { at, text } => Op::Insert { at, text },
        }
    }

    /// Where the cursor stands after the edit.
    pub open spec fn cursor(self) -> nat {
        match self {
            Op::Insert { at, text } => at + text.len(),
            Op::Remove { at, text } => at,
        }
    }

    /// Whether the edit `next` continues the run that ends with this one: an
    /// insert where the last insert ended, a removal that ends where the last
    /// one began or that begins where it began, or an insert in the place of
    /// what was removed.
    pub open spec fn continued_by(self, next: Op) -> bool {
        match (self, next) {
            (Op::Insert { at, text }, Op::Insert { at: next_at, text: ntext }) => next_at == at + text.len(),
            (Op::Remove { at, text }, Op::Remove { at: next_at, text: ntext }) => next_at + ntext.len()
                == at || next_at == at,
            (Op::Remove { at, text }, Op::Insert { at: next_at, text: ntext }) => next_at == at,
            (Op::Insert { at, text }, Op::Remove { at: next_at, text: ntext }) => false,
        }
    }
}

/// `t` after the edits, in order.
pub open spec fn replay(ops: Seq<Op>, t: Seq<char>) -> Seq<char>
    decreases ops.len(),
{
    if ops.len() == 0 {
        t
    } else {
        ops.last().apply(replay(ops.drop_last(), t))
    }
}

/// Whether the edits can be made on `t` one after the other, on texts that can
/// all be indexed.
pub open spec fn can_replay(ops: Seq<Op>, t: Seq<char>) -> bool
    decreases ops.len(),
{
    if ops.len() == 0 {
        indexable(t)
    } else {
        let mid = replay(ops.drop_last(), t);
        &&& can_replay(ops.drop_last(), t)
        &&& ops.last().applies(mid)
        &&& indexable(ops.last().apply(mid))
    }
}

/// `t` with the edits taken back, the last one first.
pub open spec fn rewind(ops: Seq<Op>, t: Seq<char>) -> Seq<char>
    decreases ops.len(),
{
    if ops.len() == 0 {
        t
    } else {
        rewind(ops.drop_last(), ops.last().inverse().apply(t))
    }
}

/// Whether the edits can be taken back from `t`, the last one first.
pub open spec fn can_rewind(ops: Seq<Op>, t: Seq<char>) -> bool
    decreases ops.len(),
{
    if ops.len() == 0 {
        indexable(t)
    } else {
        let mid = ops.last().inverse().apply(t);
        &&& indexable(t)
        &&& ops.last().inverse().applies(t)
        &&& can_rewind(ops.drop_last(), mid)
    }
}

/// Whether a stack of steps, the most recent one last, can be taken back from
/// `t` all the way down.
pub open spec fn stack_rewinds(steps: Seq<Step>, t: Seq<char>) -> bool
    decreases steps.len(),
{
    steps.len() > 0 ==> {
        &&& can_rewind(steps.last().ops, t)
        &&& stack_rewinds(steps.drop_last(), rewind(steps.last().ops, t))
    }
}

/// `t` with a whole stack of steps taken back.
pub open spec fn stack_origin(steps: Seq<Step>, t: Seq<char>) -> Seq<char>
    decreases steps.len(),
{
    if steps.len() == 0 {
        t
    } else {
        stack_origin(steps.drop_last(), rewind(steps.last().ops, t))
    }
}

/// Whether a stack of undone steps, the most recent one last, can be replayed
/// on `t` all the way down.
pub open spec fn stack_replays(steps: Seq<Step>, t: Seq<char>) -> bool
    decreases steps.len(),
{
    steps.len() > 0 ==> {
        &&& can_replay(steps.last().ops, t)
        &&& stack_replays(steps.drop_last(), replay(steps.last().ops, t))
    }
}

/// Whether the step's edits and cursors are all positions a machine can hold.
pub open spec fn step_fits(step: Step) -> bool {
    &&& step.ops.len() > 0
    &&& step.before <= usize::MAX
    &&& step.after <= usize::MAX
    &&& forall|i: int| 0 <= i < step.ops.len() ==> op_fits(#[trigger] step.ops[i])
}

/// Whether both ends of the edit are positions a machine can hold.
pub open spec fn op_fits(op: Op) -> bool {
    match op {
        Op::Insert { at, text } => at + text.len() <= usize::MAX,
        Op::Remove { at, text } => at + text.len() <= usize::MAX,
    }
}

/// An edit is taken back by its inverse: making it and then its inverse gives
/// the text back, and the inverse can be made.
pub proof fn edit_then_inverse(op: Op, t: Seq<char>)
    requires
        op.applies(t),
    ensures
        op.inverse().applies(op.apply(t)),
        op.inverse().apply(op.apply(t)) == t,
{
    let u = op.apply(t);
    match op {
        Op::Insert { at, text } => {
            assert(u.subrange(at as int, (at + text.len()) as int) =~= text);
            assert(u.take(at as int) + u.skip((at + text.len()) as int) =~= t);
        },
        Op::Remove { at, text } => {
            assert(u.take(at as int) =~= t.take(at as int));
            assert(t =~= t.take(at as int) + t.subrange(at as int, (at + text.len()) as int) + t.skip(
                (at + text.len()) as int,
            ));
            assert(u.skip(at as int) =~= t.skip((at + text.len()) as int));
        },
    }
}

/// Rewinding a run of edits and replaying it gives the text back.
pub proof fn rewind_then_replay(ops: Seq<Op>, t: Seq<char>)
    requires
        can_rewind(ops, t),
    ensures
        can_replay(ops, rewind(ops, t)),
        replay(ops, rewind(ops, t)) == t,
    decreases ops.len(),
{
    if ops.len() > 0 {
        let inv = ops.last().inverse();
        let mid = inv.apply(t);
        rewind_then_replay(ops.drop_last(), mid);
        edit_then_inverse(inv, t);
        assert(inv.inverse() == ops.last());
    }
}

/// Replaying a run of edits and rewinding it gives the text back.
pub proof fn replay_then_rewind(ops: Seq<Op>, t: Seq<char>)
    requires
        can_replay(ops, t),
    ensures
        can_rewind(ops, replay(ops, t)),
        rewind(ops, replay(ops, t)) == t,
    decreases ops.len(),
{
    if ops.len() > 0 {
        let mid = replay(ops.drop_last(), t);
        replay_then_rewind(ops.drop_last(), t);
        edit_then_inverse(ops.last(), mid);
    }
}

/// One more edit at the end of a run.
pub proof fn lemma_replay_push(ops: Seq<Op>, op: Op, t: Seq<char>)
    ensures
        replay(ops.push(op), t) == op.apply(replay(ops, t)),
        can_replay(ops.push(op), t) == (can_replay(ops, t) && op.applies(replay(ops, t))
            && indexable(op.apply(replay(ops, t)))),
        rewind(ops.push(op), t) == rewind(ops, op.inverse().apply(t)),
        can_rewind(ops.push(op), t) == (indexable(t) && op.inverse().applies(t) && can_rewind(
            ops,
            op.inverse().apply(t),
        )),
{
    assert(ops.push(op).drop_last() =~= ops);
}

/// The texts at both ends of a run that rewinds can be indexed.
pub proof fn lemma_rewind_indexable(ops: Seq<Op>, t: Seq<char>)
    requires
        can_rewind(ops, t),
    ensures
        indexable(t),
        indexable(rewind(ops, t)),
    decreases ops.len(),
{
    if ops.len() > 0 {
        lemma_rewind_indexable(ops.drop_last(), ops.last().inverse().apply(t));
    }
}

/// The texts at both ends of a run that replays can be indexed.
pub proof fn lemma_replay_indexable(ops: Seq<Op>, t: Seq<char>)
    requires
        can_replay(ops, t),
    ensures
        indexable(t),
        indexable(replay(ops, t)),
    decreases ops.len(),
{
    if ops.len() > 0 {
        lemma_replay_indexable(ops.drop_last(), t);
    }
}

/// The first `k` edits of a run that replays do so too.
pub proof fn lemma_replay_prefix(ops: Seq<Op>, t: Seq<char>, k: int)
    requires
        can_replay(ops, t),
        0 <= k <= ops.len(),
    ensures
        can_replay(ops.take(k), t),
    decreases ops.len() - k,
{
    if k < ops.len() {
        lemma_replay_prefix(ops, t, k + 1);
        assert(ops.take(k + 1).drop_last() =~= ops.take(k));
    } else {
        assert(ops.take(k) =~= ops);
    }
}

} // verus!
