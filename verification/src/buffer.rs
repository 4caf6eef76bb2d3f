//! The text buffer: a rope, the file it came from, whether it differs from
//! that file, and the steps that undo and redo walk through.
use crate::history::{
    can_replay, can_rewind, cut_out, indexable, op_fits, put_in, replay, replay_then_rewind, rewind,
    rewind_then_replay, stack_origin, stack_replays, stack_rewinds, step_fits, Op, Step,
};
use crate::paths::path_bytes;
use crate::rope::{
    breaks_before, crlf_at, line_start, line_total, line_with_break, rope_line,
    rope_line_from_utf16, rope_line_utf16, rope_remove, rope_slice, rope_string, rope_text, utf16_len,
};
use crate::text::{chars_of, decimal, decimal_string, trim_line_end, trim_newlines};
use ropey::Rope;
use std::path::PathBuf;
use vstd::prelude::*;

verus! {

/// A single reversible primitive edit. `Insert` reverts by removing the same
/// span; `Remove` carries the removed text so it can be reinserted.
#[derive(Debug)]
enum EditOp {
    Insert { at: usize, text: String },
    Remove { at: usize, text: String },
}

impl EditOp {
    spec fn op(self) -> Op {
        match self {
            EditOp::Insert { at, text } => Op::Insert { at: at as nat, text: text@ },
            EditOp::Remove { at, text } => Op::Remove { at: at as nat, text: text@ },
        }
    }

    /// Where the cursor stands after the edit.
    fn cursor(&self) -> (r: usize)
        requires
            op_fits(self.op()),
        ensures
            r == self.op().cursor(),
    {
        match self {
            EditOp::Insert { at, text } => *at + text.as_str().unicode_len(),
            EditOp::Remove { at, .. } => *at,
        }
    }

    /// Whether `next` continues the run that ends with this edit.
    fn continued_by(&self, next: &EditOp) -> (r: bool)
        requires
            op_fits(self.op()),
            op_fits(next.op()),
        ensures
            r == self.op().continued_by(next.op()),
    {
        match (self, next) {
            (EditOp::Insert { at, text }, EditOp::Insert { at: next_at, .. }) => *next_at == *at
                + text.as_str().unicode_len(),
            (EditOp::Remove { at, .. }, EditOp::Remove { at: next_at, text: next_text }) => *next_at
                + next_text.as_str().unicode_len() == *at || *next_at == *at,
            (EditOp::Remove { at, .. }, EditOp::Insert { at: next_at, .. }) => *next_at == *at,
            (EditOp::Insert { .. }, EditOp::Remove { .. }) => false,
        }
    }
}

/// One undo step: a run of contiguous primitive edits, plus the cursor char
/// index before the run (the undo target) and after it (the redo target).
#[derive(Debug)]
struct EditGroup {
    ops: Vec<EditOp>,
    cursor_before: usize,
    cursor_after: usize,
}

spec fn ops_view(ops: Seq<EditOp>) -> Seq<Op> {
    ops.map_values(|op: EditOp| op.op())
}

impl EditGroup {
    spec fn step(self) -> Step {
        Step {
            ops: ops_view(self.ops@),
            before: self.cursor_before as nat,
            after: self.cursor_after as nat,
        }
    }

    /// Whether `next` continues this group's run (so it coalesces) rather than
    /// starting a fresh undo step. Decided purely by op positions.
    fn accepts(&self, next: &EditOp) -> (r: bool)
        requires
            step_fits(self.step()),
            op_fits(next.op()),
        ensures
            r == self.step().ops.last().continued_by(next.op()),
    {
        let last = &self.ops[self.ops.len() - 1];
        assert(last.op() == self.step().ops[self.ops@.len() - 1]);
        last.continued_by(next)
    }
}

spec fn groups_view(groups: Seq<EditGroup>) -> Seq<Step> {
    groups.map_values(|g: EditGroup| g.step())
}

/// What a buffer is: its text, its file, whether it was changed since it was
/// loaded or saved, the finished steps, the undone steps, the step that is
/// still growing, and the cursor reported for the next edit.
#[verifier::ext_equal]
pub struct BufferState {
    pub text: Seq<char>,
    pub path: Option<Seq<u8>>,
    pub dirty: bool,
    pub undo: Seq<Step>,
    pub redo: Seq<Step>,
    pub open: Option<Step>,
    pub pending: nat,
}

impl BufferState {
    /// A buffer as it is when it has just been made.
    pub open spec fn fresh(text: Seq<char>, path: Option<Seq<u8>>) -> BufferState {
        BufferState {
            text,
            path,
            dirty: false,
            undo: Seq::empty(),
            redo: Seq::empty(),
            open: None,
            pending: 0,
        }
    }

    /// What every buffer keeps: the growing step and the finished steps can be
    /// taken back from the text one after the other, the undone steps can be
    /// replayed on it, and nothing can be redone while a step is growing.
    pub open spec fn wf(self) -> bool {
        &&& indexable(self.text)
        &&& self.pending <= usize::MAX
        &&& match self.open {
            Some(step) => {
                &&& step_fits(step)
                &&& can_rewind(step.ops, self.text)
                &&& stack_rewinds(self.undo, rewind(step.ops, self.text))
                &&& self.redo.len() == 0
            },
            None => stack_rewinds(self.undo, self.text),
        }
        &&& stack_replays(self.redo, self.text)
        &&& forall|i: int| 0 <= i < self.undo.len() ==> step_fits(#[trigger] self.undo[i])
        &&& forall|i: int| 0 <= i < self.redo.len() ==> step_fits(#[trigger] self.redo[i])
    }

    /// The text that is left when every edit is taken back.
    pub open spec fn origin(self) -> Seq<char> {
        match self.open {
            Some(step) => stack_origin(self.undo, rewind(step.ops, self.text)),
            None => stack_origin(self.undo, self.text),
        }
    }

    /// With the growing step closed onto the undo stack.
    pub open spec fn finalized(self) -> BufferState {
        match self.open {
            Some(step) => BufferState { undo: self.undo.push(step), open: None, ..self },
            None => self,
        }
    }

    /// With the edit `op` made and recorded: as part of the growing step where
    /// it continues that step's run, else as the start of a new one, which
    /// drops what could be redone.
    pub open spec fn edited(self, op: Op) -> BufferState {
        let changed = BufferState { text: op.apply(self.text), dirty: true, ..self };
        match self.open {
            Some(step) if step.ops.last().continued_by(op) => BufferState {
                open: Some(
                    Step { ops: step.ops.push(op), before: step.before, after: op.cursor() },
                ),
                ..changed
            },
            _ => BufferState {
                redo: Seq::empty(),
                open: Some(
                    Step { ops: seq![op], before: self.pending, after: op.cursor() },
                ),
                ..changed.finalized()
            },
        }
    }

    /// Whether there is a step to take back.
    pub open spec fn can_undo(self) -> bool {
        self.finalized().undo.len() > 0
    }

    /// With the most recent step taken back.
    pub open spec fn undone(self) -> BufferState {
        let closed = self.finalized();
        if self.can_undo() {
            let step = closed.undo.last();
            BufferState {
                text: rewind(step.ops, self.text),
                dirty: true,
                undo: closed.undo.drop_last(),
                redo: closed.redo.push(step),
                ..closed
            }
        } else {
            closed
        }
    }

    /// With the most recently undone step made again.
    pub open spec fn redone(self) -> BufferState {
        if self.redo.len() > 0 {
            let step = self.redo.last();
            BufferState {
                text: replay(step.ops, self.text),
                dirty: true,
                undo: self.undo.push(step),
                redo: self.redo.drop_last(),
                ..self
            }
        } else {
            self
        }
    }
}

#[derive(Debug)]
pub struct Buffer {
    rope: Rope,
    path: Option<PathBuf>,
    dirty: bool,
    /// Finalized undo steps (most recent on top).
    undo: Vec<EditGroup>,
    /// Steps that have been undone and can be re-applied (most recent on top).
    redo: Vec<EditGroup>,
    /// The currently growing, not-yet-finalized edit group.
    open: Option<EditGroup>,
    /// Cursor index reported by the pane for the next edit; becomes
    /// `cursor_before` when a new group opens.
    pending_before: usize,
}

impl View for Buffer {
    type V = BufferState;

    closed spec fn view(&self) -> BufferState {
        BufferState {
            text: rope_text(self.rope),
            path: match self.path {
                Some(p) => Some(path_bytes(p)),
                None => None,
            },
            dirty: self.dirty,
            undo: groups_view(self.undo@),
            redo: groups_view(self.redo@),
            open: match self.open {
                Some(g) => Some(g.step()),
                None => None,
            },
            pending: self.pending_before as nat,
        }
    }
}

/// What the content of line `n` is: the line without the line feeds and
/// carriage returns at its end, and nothing where there is no such line.
pub open spec fn line_content(text: Seq<char>, n: int) -> Seq<char> {
    if n < line_total(text) {
        trim_line_end(line_with_break(text, n))
    } else {
        Seq::empty()
    }
}

/// The line that is meant by a line number past the last line: the last one.
pub open spec fn clamp_line(text: Seq<char>, n: int) -> int {
    if n < line_total(text) {
        n
    } else {
        line_total(text) - 1
    }
}

/// The UTF-16 column of a character column; a column past the content of its
/// line counts as the end of the content.
pub open spec fn utf16_column(text: Seq<char>, line: int, col: int) -> nat {
    let content = line_content(text, clamp_line(text, line));
    utf16_len(
        if col < content.len() {
            content.take(col)
        } else {
            content
        },
    )
}

/// How many whole characters of `s` lie before UTF-16 code unit `u`.
pub open spec fn chars_before_unit(s: Seq<char>, u: int) -> int
    decreases s.len(),
{
    if s.len() == 0 || utf16_len(s) <= u {
        s.len() as int
    } else {
        chars_before_unit(s.drop_last(), u)
    }
}

/// The line and the column of a position; one past the end counts as the end.
pub open spec fn position_of(text: Seq<char>, i: int) -> (int, int) {
    let idx = if i <= text.len() {
        i
    } else {
        text.len() as int
    };
    let line = breaks_before(text, idx) as int;
    (line, idx - line_start(text, line))
}

impl Buffer {
    /// What every buffer keeps; see [`BufferState::wf`].
    pub open spec fn wf(&self) -> bool {
        self@.wf()
    }

    /// An empty, unnamed buffer.
    pub fn empty() -> (r: Self)
        ensures
            r.wf(),
            r@ == BufferState::fresh(Seq::empty(), None),
    {
        let r = Self {
            rope: Rope::new(),
            path: None,
            dirty: false,
            undo: Vec::new(),
            redo: Vec::new(),
            open: None,
            pending_before: 0,
        };
        assert(r@ =~= BufferState::fresh(Seq::empty(), None));
        r
    }

    /// A buffer from an in-memory string, with no backing file.
    pub fn from_str(text: &str) -> (r: Self)
        requires
            text@.len() <= usize::MAX,
        ensures
            r.wf(),
            r@ == BufferState::fresh(text@, None),
    {
        let r = Self {
            rope: Rope::from_str(text),
            path: None,
            dirty: false,
            undo: Vec::new(),
            redo: Vec::new(),
            open: None,
            pending_before: 0,
        };
        assert(r@ =~= BufferState::fresh(text@, None));
        r
    }

    /// A buffer for the file `path`, which holds `text`.
    pub fn from_path(path: PathBuf, text: &str) -> (r: Self)
        requires
            text@.len() <= usize::MAX,
        ensures
            r.wf(),
            r@ == BufferState::fresh(text@, Some(path_bytes(path))),
    {
        let ghost bytes = path_bytes(path);
        let r = Self {
            rope: Rope::from_str(text),
            path: Some(path),
            dirty: false,
            undo: Vec::new(),
            redo: Vec::new(),
            open: None,
            pending_before: 0,
        };
        assert(r@ =~= BufferState::fresh(text@, Some(bytes)));
        r
    }

    /// Number of lines. A trailing newline yields a final empty line, matching
    /// how editors display files.
    pub fn line_count(&self) -> (n: usize)
        ensures
            n == line_total(self@.text),
    {
        self.rope.len_lines()
    }

    /// The display text of a line, without its trailing newline.
    pub fn line_text(&self, idx: usize) -> (r: String)
        ensures
            r@ == line_content(self@.text, idx as int),
    {
        if idx >= self.rope.len_lines() {
            return String::new();
        }
        trim_newlines(rope_line(&self.rope, idx))
    }

    /// Number of characters on a line, excluding the trailing newline.
    pub fn line_len_chars(&self, idx: usize) -> (n: usize)
        ensures
            n == line_content(self@.text, idx as int).len(),
    {
        self.line_text(idx).as_str().unicode_len()
    }

    /// Total number of characters in the buffer.
    pub fn len_chars(&self) -> (n: usize)
        ensures
            n == self@.text.len(),
    {
        self.rope.len_chars()
    }

    /// Convert a (line, column) position into an absolute character index.
    /// `col` is a count of characters into the line, excluding the newline.
    pub fn char_idx(&self, line: usize, col: usize) -> (i: usize)
        requires
            line <= line_total(self@.text),
            line_start(self@.text, line as int) + col <= usize::MAX,
        ensures
            i == line_start(self@.text, line as int) + col,
    {
        self.rope.line_to_char(line) + col
    }

    /// Convert an absolute character index back into a (line, column) position.
    pub fn line_col(&self, char_idx: usize) -> (r: (usize, usize))
        ensures
            r.0 == position_of(self@.text, char_idx as int).0,
            r.1 == position_of(self@.text, char_idx as int).1,
            r.0 < line_total(self@.text),
    {
        let total: usize = self.rope.len_chars();
        let idx: usize = if char_idx < total {
            char_idx
        } else {
            total
        };
        let line: usize = self.rope.char_to_line(idx);
        proof {
            crate::rope::lemma_own_line(self@.text, idx as int);
        }
        let col: usize = idx - self.rope.line_to_char(line);
        (line, col)
    }

    /// Whether the character at an absolute index is `c`.
    pub(crate) fn char_is(&self, at: usize, c: char) -> (r: bool)
        ensures
            r == (at < self@.text.len() && self@.text[at as int] == c),
    {
        if at >= self.rope.len_chars() {
            return false;
        }
        let piece = chars_of(rope_slice(&self.rope, at, at + 1).as_str());
        assert(piece@[0] == self@.text[at as int]);
        piece[0] == c
    }

    /// Whether a carriage return and a line feed stand at an absolute index.
    pub(crate) fn has_crlf(&self, at: usize) -> (r: bool)
        ensures
            r == crlf_at(self@.text, at as int),
    {
        let n: usize = self.rope.len_chars();
        n >= 2 && at < n - 1 && self.char_is(at, '\r') && self.char_is(at + 1, '\n')
    }

    /// Insert `text` at an absolute character index and mark the buffer dirty.
    pub fn insert(&mut self, char_idx: usize, text: &str)
        requires
            old(self).wf(),
            char_idx <= old(self)@.text.len(),
            old(self)@.text.len() + text@.len() <= usize::MAX,
        ensures
            final(self).wf(),
            final(self)@ == old(self)@.edited(Op::Insert { at: char_idx as nat, text: text@ }),
            final(self)@.text == put_in(old(self)@.text, char_idx as int, text@),
    {
        self.rope.insert(char_idx, text);
        self.dirty = true;
        let ghost op = Op::Insert { at: char_idx as nat, text: text@ };
        proof {
            lemma_edit_keeps_wf(old(self)@, op);
        }
        self.record(EditOp::Insert { at: char_idx, text: text.to_owned() }, Ghost(old(self)@));
    }

    /// Remove the half-open character range `[start, end)` and mark dirty.
    pub fn remove(&mut self, start: usize, end: usize)
        requires
            old(self).wf(),
            start < end ==> end <= old(self)@.text.len(),
        ensures
            final(self).wf(),
            start < end ==> final(self)@ == old(self)@.edited(
                Op::Remove {
                    at: start as nat,
                    text: old(self)@.text.subrange(start as int, end as int),
                },
            ),
            start < end ==> final(self)@.text == cut_out(
                old(self)@.text,
                start as int,
                end as int,
            ),
            start >= end ==> final(self)@ == old(self)@,
    {
        if start < end {
            let text = rope_slice(&self.rope, start, end);
            rope_remove(&mut self.rope, start, end);
            self.dirty = true;
            let ghost op = Op::Remove { at: start as nat, text: text@ };
            proof {
                lemma_edit_keeps_wf(old(self)@, op);
            }
            self.record(EditOp::Remove { at: start, text }, Ghost(old(self)@));
        }
    }

    /// Report the pane cursor index for the edit about to happen. It becomes the
    /// `cursor_before` of a freshly opened group; ignored while a contiguous run
    /// continues.
    pub fn begin_edit(&mut self, cursor: usize)
        requires
            old(self).wf(),
        ensures
            final(self).wf(),
            final(self)@ == (BufferState { pending: cursor as nat, ..old(self)@ }),
    {
        self.pending_before = cursor;
    }

    /// Append `op` to the open group, coalescing it into the current run when it
    /// continues, or finalizing the run and starting a new group otherwise.
    /// Opening a new group discards the redo stack (the branch has diverged).
    fn record(&mut self, op: EditOp, Ghost(before): Ghost<BufferState>)
        requires
            before.wf(),
            old(self)@ == (BufferState {
                text: op.op().apply(before.text),
                dirty: true,
                ..before
            }),
            op_fits(op.op()),
        ensures
            final(self)@ == before.edited(op.op()),
    {
        let contiguous = match &self.open {
            Some(group) => group.accepts(&op),
            None => false,
        };
        let ghost start = *self;
        if !contiguous {
            self.finalize_group();
            self.redo.clear();
            self.open = Some(
                EditGroup {
                    ops: Vec::new(),
                    cursor_before: self.pending_before,
                    cursor_after: self.pending_before,
                },
            );
        }
        let ghost mid = *self;
        let ghost ops0 = mid.open->0.ops@;
        let cursor: usize = op.cursor();
        let ghost opv = op.op();
        match self.open.take() {
            Some(mut group) => {
                group.cursor_after = cursor;
                group.ops.push(op);
                assert(ops_view(group.ops@) =~= ops_view(ops0).push(opv));
                self.open = Some(group);
            },
            None => {
                assert(false);
            },
        }
        proof {
            let target = before.edited(opv);
            if contiguous {
                assert(self@ =~= target);
            } else {
                assert(ops_view(ops0) =~= Seq::empty());
                assert(seq![opv] =~= Seq::<Op>::empty().push(opv));
                assert(self@.redo =~= Seq::empty());
                assert(self@.undo =~= target.undo);
                assert(self@ =~= target);
            }
        }
    }

    fn finalize_group(&mut self)
        requires
            old(self)@.open is Some ==> old(self)@.open->0.ops.len() > 0,
        ensures
            final(self)@ == old(self)@.finalized(),
    {
        match self.open.take() {
            Some(group) => {
                let ghost undo0 = self.undo@;
                if group.ops.len() > 0 {
                    let ghost step = group.step();
                    self.undo.push(group);
                    assert(groups_view(self.undo@) =~= groups_view(undo0).push(step));
                }
            },
            None => {},
        }
        assert(self@ =~= old(self)@.finalized());
    }

    /// Close the open edit group onto the undo stack so it becomes a single
    /// undoable unit. A no-op when nothing is in progress.
    pub fn finalize(&mut self)
        requires
            old(self).wf(),
        ensures
            final(self).wf(),
            final(self)@ == old(self)@.finalized(),
    {
        proof {
            lemma_finalized_wf(old(self)@);
        }
        self.finalize_group();
    }

    /// Revert the most recent edit group, returning the cursor char index to
    /// restore (the position before that edit), or `None` if there is nothing to
    /// undo. Inverse edits bypass recording so they don't pollute the history.
    pub fn undo(&mut self) -> (r: Option<usize>)
        requires
            old(self).wf(),
        ensures
            final(self).wf(),
            final(self)@ == old(self)@.undone(),
            match r {
                Some(cursor) => old(self)@.can_undo() && cursor == old(
                    self,
                )@.finalized().undo.last().before,
                None => !old(self)@.can_undo(),
            },
    {
        self.finalize();
        let ghost closed = self@;
        let ghost undo0 = self.undo@;
        let ghost redo0 = self.redo@;
        proof {
            lemma_undone_wf(old(self)@);
        }
        match self.undo.pop() {
            None => {
                assert(groups_view(undo0).len() == undo0.len());
                assert(groups_view(self.undo@) =~= groups_view(undo0));
                None
            },
            Some(group) => {
                assert(groups_view(undo0).last() == group.step());
                assert(groups_view(self.undo@) =~= groups_view(undo0).drop_last());
                let ghost ops = group.step().ops;
                let ghost text = closed.text;
                let ghost rest = *self;
                let mut i: usize = group.ops.len();
                assert(ops.take(ops.len() as int) =~= ops);
                while i > 0
                    invariant
                        i <= group.ops@.len(),
                        ops == ops_view(group.ops@),
                        can_rewind(ops.take(i as int), rope_text(self.rope)),
                        rewind(ops.take(i as int), rope_text(self.rope)) == rewind(ops, text),
                        forall|k: int| 0 <= k < ops.len() ==> op_fits(#[trigger] ops[k]),
                        self.path == rest.path,
                        self.dirty == rest.dirty,
                        self.undo == rest.undo,
                        self.redo == rest.redo,
                        self.open == rest.open,
                        self.pending_before == rest.pending_before,
                    decreases i,
                {
                    i -= 1;
                    let ghost t = rope_text(self.rope);
                    proof {
                        assert(ops.take(i + 1).last() == ops[i as int]);
                        assert(ops.take(i + 1).drop_last() =~= ops.take(i as int));
                        assert(op_fits(ops[i as int]));
                        crate::history::lemma_rewind_indexable(
                            ops.take(i as int),
                            ops[i as int].inverse().apply(t),
                        );
                    }
                    match &group.ops[i] {
                        EditOp::Insert { at, text } => {
                            rope_remove(&mut self.rope, *at, *at + text.as_str().unicode_len());
                        },
                        EditOp::Remove { at, text } => {
                            self.rope.insert(*at, text.as_str());
                        },
                    }
                    assert(rope_text(self.rope) =~= ops[i as int].inverse().apply(t));
                }
                self.dirty = true;
                let target: usize = group.cursor_before;
                let ghost step = group.step();
                self.redo.push(group);
                assert(groups_view(self.redo@) =~= groups_view(redo0).push(step));
                assert(self@ =~= old(self)@.undone());
                Some(target)
            },
        }
    }

    /// Re-apply the most recently undone edit group, returning the cursor char
    /// index to restore (the position after that edit), or `None` if there is
    /// nothing to redo.
    pub fn redo(&mut self) -> (r: Option<usize>)
        requires
            old(self).wf(),
        ensures
            final(self).wf(),
            final(self)@ == old(self)@.redone(),
            match r {
                Some(cursor) => old(self)@.redo.len() > 0 && cursor == old(self)@.redo.last().after,
                None => old(self)@.redo.len() == 0,
            },
    {
        let ghost undo0 = self.undo@;
        let ghost redo0 = self.redo@;
        proof {
            lemma_redone_wf(old(self)@);
        }
        match self.redo.pop() {
            None => {
                assert(groups_view(redo0).len() == redo0.len());
                assert(groups_view(self.redo@) =~= groups_view(redo0));
                None
            },
            Some(group) => {
                assert(groups_view(redo0).last() == group.step());
                assert(groups_view(self.redo@) =~= groups_view(redo0).drop_last());
                let ghost ops = group.step().ops;
                let ghost text = rope_text(self.rope);
                let ghost rest = *self;
                let mut i: usize = 0;
                assert(ops.take(0) =~= Seq::empty());
                while i < group.ops.len()
                    invariant
                        i <= group.ops@.len(),
                        ops == ops_view(group.ops@),
                        can_replay(ops, text),
                        rope_text(self.rope) == replay(ops.take(i as int), text),
                        forall|k: int| 0 <= k < ops.len() ==> op_fits(#[trigger] ops[k]),
                        self.path == rest.path,
                        self.dirty == rest.dirty,
                        self.undo == rest.undo,
                        self.redo == rest.redo,
                        self.open == rest.open,
                        self.pending_before == rest.pending_before,
                    decreases group.ops@.len() - i,
                {
                    let ghost t = rope_text(self.rope);
                    proof {
                        crate::history::lemma_replay_prefix(ops, text, i + 1);
                        assert(ops.take(i + 1).last() == ops[i as int]);
                        assert(ops.take(i + 1).drop_last() =~= ops.take(i as int));
                        assert(op_fits(ops[i as int]));
                    }
                    match &group.ops[i] {
                        EditOp::Insert { at, text } => {
                            self.rope.insert(*at, text.as_str());
                        },
                        EditOp::Remove { at, text } => {
                            rope_remove(&mut self.rope, *at, *at + text.as_str().unicode_len());
                        },
                    }
                    assert(rope_text(self.rope) =~= ops[i as int].apply(t));
                    i += 1;
                }
                assert(ops.take(ops.len() as int) =~= ops);
                self.dirty = true;
                let target: usize = group.cursor_after;
                let ghost step = group.step();
                self.undo.push(group);
                assert(groups_view(self.undo@) =~= groups_view(undo0).push(step));
                assert(self@ =~= old(self)@.redone());
                Some(target)
            },
        }
    }

    pub fn path(&self) -> (r: Option<&PathBuf>)
        ensures
            match r {
                Some(p) => self@.path == Some(path_bytes(*p)),
                None => self@.path is None,
            },
    {
        self.path.as_ref()
    }

    pub fn is_dirty(&self) -> (r: bool)
        ensures
            r == self@.dirty,
    {
        self.dirty
    }

    /// The full document text, for LSP document synchronization.
    pub fn text(&self) -> (r: String)
        ensures
            r@ == self@.text,
    {
        rope_string(&self.rope)
    }

    /// The number of UTF-16 code units from the start of `line` to `char_col`
    /// characters in. LSP columns are UTF-16 code units, not chars/bytes; this
    /// is the conversion at the protocol boundary. Out-of-range inputs clamp.
    pub fn utf16_col(&self, line: usize, char_col: usize) -> (r: usize)
        ensures
            r == utf16_column(self@.text, line as int, char_col as int),
    {
        let last: usize = self.rope.len_lines() - 1;
        let line: usize = if line < last {
            line
        } else {
            last
        };
        let len: usize = self.line_len_chars(line);
        let cc: usize = if char_col < len {
            char_col
        } else {
            len
        };
        proof {
            let whole = line_with_break(self@.text, line as int);
            crate::text::lemma_trim_line_end_prefix(whole);
            assert(whole.take(len as int).take(cc as int) =~= whole.take(cc as int));
            assert(whole.take(len as int).take(len as int) =~= whole.take(len as int));
        }
        rope_line_utf16(&self.rope, line, cc)
    }

    /// The character column corresponding to `utf16_col` UTF-16 code units into
    /// `line` — the inverse of [`utf16_col`](Self::utf16_col). Out-of-range
    /// inputs clamp.
    pub fn char_col_from_utf16(&self, line: usize, utf16_col: usize) -> (r: usize)
        ensures
            r == chars_before_unit(
                line_content(self@.text, clamp_line(self@.text, line as int)),
                utf16_col as int,
            ),
    {
        let last: usize = self.rope.len_lines() - 1;
        let line: usize = if line < last {
            line
        } else {
            last
        };
        let len: usize = self.line_len_chars(line);
        let ghost whole = line_with_break(self@.text, line as int);
        let ghost content = line_content(self@.text, line as int);
        proof {
            crate::text::lemma_trim_line_end_prefix(whole);
            assert(whole.take(whole.len() as int) =~= whole);
            crate::rope::lemma_utf16_len_monotone(whole, len as int, whole.len() as int);
        }
        let max_units: usize = rope_line_utf16(&self.rope, line, len);
        let units: usize = if utf16_col < max_units {
            utf16_col
        } else {
            max_units
        };
        let r: usize = rope_line_from_utf16(&self.rope, line, units);
        proof {
            if r > len {
                crate::rope::lemma_utf16_len_monotone(whole, len as int, r as int);
            }
            assert(content.take(r as int) =~= whole.take(r as int));
            if r < len {
                assert(content.take(r + 1) =~= whole.take(r + 1));
            }
            lemma_chars_before_unit(content, units as int, r as int);
            if utf16_col >= max_units {
                assert(content.take(content.len() as int) =~= content);
            }
        }
        r
    }

    /// Starts to write the buffer back to its file: closes any edit in progress,
    /// so that the saved content is one undoable unit, and says what goes where.
    /// `None` if the buffer has no associated path (nothing to write).
    pub fn save(&mut self) -> (r: Option<SaveJob>)
        requires
            old(self).wf(),
        ensures
            final(self).wf(),
            final(self)@ == old(self)@.finalized(),
            match r {
                Some(job) => {
                    &&& old(self)@.path == Some(path_bytes(job.path))
                    &&& job.text@ == old(self)@.text
                },
                None => old(self)@.path is None,
            },
    {
        self.finalize();
        match &self.path {
            None => None,
            Some(path) => {
                let path = path.clone();
                Some(SaveJob { path, text: self.text() })
            },
        }
    }

    /// Notes that the file now holds the buffer's text.
    pub fn saved(&mut self)
        requires
            old(self).wf(),
        ensures
            final(self).wf(),
            final(self)@ == (BufferState { dirty: false, ..old(self)@ }),
    {
        self.dirty = false;
    }
}

/// A file to write: where it stands and what it is to hold.
#[derive(Debug)]
pub struct SaveJob {
    pub path: PathBuf,
    pub text: String,
}

/// The name of the temporary file that is written beside the file `name` and
/// then renamed over it, so that a crash never leaves a truncated file.
pub fn temp_name(name: &str, process_id: u32) -> (r: String)
    ensures
        r@ == seq!['.'] + name@ + ".vybim-"@ + decimal(process_id as nat) + ".tmp"@,
{
    let mut out = String::new();
    out.push('.');
    out.append(name);
    out.append(".vybim-");
    out.append(decimal_string(process_id as u64).as_str());
    out.append(".tmp");
    assert(Seq::<char>::empty().push('.') =~= seq!['.']);
    out
}

// ---------------------------------------------------------------------------
// Laws.

/// Undoing a step and redoing it gives back the buffer as it was, with the
/// growing step closed; only the buffer now counts as changed.
pub proof fn undo_then_redo(v: BufferState)
    requires
        v.wf(),
        v.can_undo(),
    ensures
        v.undone().redo.len() > 0,
        v.undone().redone() == (BufferState { dirty: true, ..v.finalized() }),
        v.undone().redone().text == v.text,
        v.undone().redo.last().after == v.finalized().undo.last().after,
{
    lemma_finalized_wf(v);
    let c = v.finalized();
    let step = c.undo.last();
    rewind_then_replay(step.ops, v.text);
    assert(c.redo.push(step).drop_last() =~= c.redo);
    assert(c.undo.drop_last().push(step) =~= c.undo);
    assert(v.undone().redone() =~= (BufferState { dirty: true, ..c }));
}

/// Redoing a step and undoing it gives back the buffer as it was; only it now
/// counts as changed.
pub proof fn redo_then_undo(v: BufferState)
    requires
        v.wf(),
        v.redo.len() > 0,
    ensures
        v.redone().can_undo(),
        v.redone().undone() == (BufferState { dirty: true, ..v }),
        v.redone().undone().text == v.text,
{
    let step = v.redo.last();
    replay_then_rewind(step.ops, v.text);
    assert(v.undo.push(step).drop_last() =~= v.undo);
    assert(v.redo.drop_last().push(step) =~= v.redo);
    assert(v.redone().undone() =~= (BufferState { dirty: true, ..v }));
}

/// An edit that starts a new step is taken back by one undo: the text and the
/// earlier steps are as before, and the cursor goes to where it was reported
/// before the edit.
pub proof fn edit_then_undo(v: BufferState, op: Op)
    requires
        v.wf(),
        op.applies(v.text),
        indexable(op.apply(v.text)),
        v.open matches Some(step) ==> !step.ops.last().continued_by(op),
    ensures
        v.edited(op).can_undo(),
        v.edited(op).undone().text == v.text,
        v.edited(op).undone().undo == v.finalized().undo,
        v.edited(op).finalized().undo.last().before == v.pending,
        v.edited(op).finalized().undo.last().after == op.cursor(),
{
    crate::history::edit_then_inverse(op, v.text);
    let e = v.edited(op);
    assert(seq![op] =~= Seq::<Op>::empty().push(op));
    crate::history::lemma_replay_push(Seq::empty(), op, e.text);
    assert(e.undo.push(e.open->0).drop_last() =~= v.finalized().undo);
}

/// An edit made with the cursor reported and the growing step closed is a step
/// of its own: one undo leads back to the text and the cursor before it, and the
/// buffer counts as changed. Where no edit is recorded, an undo leaves the text
/// and the mark as they are.
pub proof fn one_edit_is_one_undo(v: BufferState, cursor: nat, op: Op)
    requires
        v.wf(),
        cursor <= usize::MAX,
        op.applies(v.text),
        indexable(op.apply(v.text)),
    ensures
        ({
            let e = (BufferState { pending: cursor, ..v.finalized() }).edited(op);
            &&& e.can_undo()
            &&& e.finalized().undo.last().before == cursor
            &&& e.undone().text == v.text
            &&& e.undone().dirty
        }),
        !v.can_undo() ==> v.undone() == v,
{
    lemma_finalized_wf(v);
    edit_then_undo(BufferState { pending: cursor, ..v.finalized() }, op);
}

/// A step that was taken back can be made again, which gives the text as it was;
/// an edit in between leaves nothing to be made again, and the text stays as the
/// edit left it.
pub proof fn redo_needs_an_undo_before_it(v: BufferState, op: Op)
    requires
        v.wf(),
    ensures
        v.can_undo() ==> v.undone().redo.len() > 0 && v.undone().redone().text == v.text,
        v.undone().edited(op).redo.len() == 0,
        v.undone().edited(op).redone() == v.undone().edited(op),
{
    lemma_undone_wf(v);
    edit_clears_redo(v.undone(), op);
    if v.can_undo() {
        undo_then_redo(v);
    }
}

/// An edit that continues the growing step is taken back together with it: one
/// undo leads to the text before the step's first edit.
pub proof fn run_of_edits_then_undo(v: BufferState, op: Op)
    requires
        v.wf(),
        v.open is Some,
        v.open->0.ops.last().continued_by(op),
        op.applies(v.text),
        indexable(op.apply(v.text)),
    ensures
        v.edited(op).undone().text == v.undone().text,
        v.edited(op).undone().undo == v.undone().undo,
        v.edited(op).finalized().undo.last().before == v.finalized().undo.last().before,
{
    crate::history::edit_then_inverse(op, v.text);
    let e = v.edited(op);
    crate::history::lemma_replay_push(v.open->0.ops, op, e.text);
    assert(e.undo.push(e.open->0).drop_last() =~= v.undo.push(v.open->0).drop_last());
}

/// Two edits in a row are undone together where the second goes on from where
/// the first left off, and one after the other where it does not. What is typed
/// goes on with what is typed right behind it; what is deleted goes on with a
/// deletion that ends or starts at its place, or with text that is typed there.
/// In any case a second undo, if there is one, leads to the text before both.
pub proof fn steps_are_contiguous_runs(v: BufferState, a: Op, b: Op)
    requires
        v.wf(),
        v.open is None,
        a.applies(v.text),
        indexable(a.apply(v.text)),
        b.applies(a.apply(v.text)),
        indexable(b.apply(a.apply(v.text))),
    ensures
        ({
            let two = v.edited(a).edited(b);
            let goes_on = match (a, b) {
                (Op::Insert { at, text }, Op::Insert { at: next, text: more }) => next == at
                    + text.len(),
                (Op::Insert { at, text }, Op::Remove { at: next, text: more }) => false,
                (Op::Remove { at, text }, Op::Insert { at: next, text: more }) => next == at,
                (Op::Remove { at, text }, Op::Remove { at: next, text: more }) => next == at || next
                    + more.len() == at,
            };
            &&& two.text == b.apply(a.apply(v.text))
            &&& two.can_undo()
            &&& goes_on ==> {
                &&& two.undone().text == v.text
                &&& two.undone().undo == v.undo
            }
            &&& !goes_on ==> {
                &&& two.undone().text == a.apply(v.text)
                &&& two.undone().can_undo()
                &&& two.undone().undone().text == v.text
                &&& two.undone().undone().undo == v.undo
            }
        }),
{
    let one = v.edited(a);
    origin_is_kept(v, a);
    edit_then_undo(v, a);
    assert(one.open->0.ops =~= seq![a]);
    assert(one.open->0.ops.last() == a);
    if a.continued_by(b) {
        run_of_edits_then_undo(one, b);
    } else {
        edit_then_undo(one, b);
        let back = one.edited(b).undone();
        assert(back.open is None);
        assert(back.undo == v.undo.push(one.open->0));
        assert(one.undone().undo =~= v.undo);
        assert(back.undo.drop_last() =~= v.undo);
        assert(back.undone().text == one.undone().text);
    }
}

/// However long a step has grown, its last edit decides whether the next one is
/// undone together with it, or by itself.
pub proof fn the_last_edit_decides(v: BufferState, b: Op)
    requires
        v.wf(),
        v.open is Some,
        b.applies(v.text),
        indexable(b.apply(v.text)),
    ensures
        ({
            let goes_on = match ((v.open->0).ops.last(), b) {
                (Op::Insert { at, text }, Op::Insert { at: next, text: more }) => next == at
                    + text.len(),
                (Op::Insert { at, text }, Op::Remove { at: next, text: more }) => false,
                (Op::Remove { at, text }, Op::Insert { at: next, text: more }) => next == at,
                (Op::Remove { at, text }, Op::Remove { at: next, text: more }) => next == at || next
                    + more.len() == at,
            };
            &&& goes_on ==> v.edited(b).undone().text == v.undone().text
                && v.edited(b).undone().undo == v.undone().undo
            &&& !goes_on ==> v.edited(b).undone().text == v.text
                && v.edited(b).undone().undone().text == v.undone().text
        }),
{
    if (v.open->0).ops.last().continued_by(b) {
        run_of_edits_then_undo(v, b);
    } else {
        edit_then_undo(v, b);
        let back = v.edited(b).undone();
        assert(back.undo == v.undo.push(v.open->0));
    }
}

/// Closing the growing step separates what comes after it from what came
/// before, wherever the two edits are: each is undone by itself.
pub proof fn closing_separates_edits(v: BufferState, a: Op, b: Op)
    requires
        v.wf(),
        v.open is None,
        a.applies(v.text),
        indexable(a.apply(v.text)),
        b.applies(a.apply(v.text)),
        indexable(b.apply(a.apply(v.text))),
    ensures
        v.edited(a).finalized().edited(b).undone().text == a.apply(v.text),
        v.edited(a).finalized().edited(b).undone().undone().text == v.text,
{
    let one = v.edited(a);
    origin_is_kept(v, a);
    edit_then_undo(v, a);
    lemma_finalized_wf(one);
    let closed = one.finalized();
    edit_then_undo(closed, b);
    let back = closed.edited(b).undone();
    assert(back.undo == v.undo.push(one.open->0));
    assert(back.undone().text == one.undone().text);
}

/// Where the cursor goes: an undo leads to where it was reported before the
/// first edit of the step, a redo to behind what was put in, or to where
/// something was taken out.
pub proof fn cursor_goes_to_the_edit(v: BufferState, op: Op)
    requires
        v.wf(),
        v.open is None,
        op.applies(v.text),
        indexable(op.apply(v.text)),
    ensures
        v.edited(op).finalized().undo.last().before == v.pending,
        v.edited(op).undone().redo.last().after == match op {
            Op::Insert { at, text } => at + text.len(),
            Op::Remove { at, text } => at,
        },
{
    edit_then_undo(v, op);
}

/// A buffer is marked as changed by every edit, and by taking one back or
/// making it again; closing a step or reporting the cursor leaves the mark.
pub proof fn changes_are_marked(v: BufferState, op: Op, cursor: nat)
    ensures
        v.edited(op).dirty,
        v.can_undo() ==> v.undone().dirty,
        !v.can_undo() ==> v.undone().dirty == v.dirty,
        v.redone().dirty == (v.dirty || v.redo.len() > 0),
        v.finalized().dirty == v.dirty,
        (BufferState { pending: cursor, ..v }).dirty == v.dirty,
{
}

/// Every edit drops what could be redone: the branch has diverged.
pub proof fn edit_clears_redo(v: BufferState, op: Op)
    requires
        v.wf(),
    ensures
        v.edited(op).redo.len() == 0,
{
}

/// No sequence of edits, undos and redos loses the text that the buffer began
/// with: each of them keeps the text that is left when every edit is taken
/// back, and for a fresh buffer that is its text.
pub proof fn origin_is_kept(v: BufferState, op: Op)
    requires
        v.wf(),
    ensures
        op.applies(v.text) && indexable(op.apply(v.text)) ==> v.edited(op).wf() && v.edited(
            op,
        ).origin() == v.origin(),
        v.undone().wf() && v.undone().origin() == v.origin(),
        v.redone().wf() && v.redone().origin() == v.origin(),
        v.finalized().wf() && v.finalized().origin() == v.origin(),
        forall|text: Seq<char>, path: Option<Seq<u8>>|
            (#[trigger] BufferState::fresh(text, path)).origin() == text,
{
    if op.applies(v.text) && indexable(op.apply(v.text)) {
        lemma_edit_keeps_wf(v, op);
    }
    lemma_undone_wf(v);
    lemma_redone_wf(v);
    lemma_finalized_wf(v);
}

/// The position of the line and column of `i` is `i` again.
pub proof fn position_round_trip(text: Seq<char>, i: int)
    requires
        0 <= i <= text.len(),
    ensures
        0 <= position_of(text, i).0 < line_total(text),
        0 <= position_of(text, i).1,
        line_start(text, position_of(text, i).0) + position_of(text, i).1 == i,
{
    crate::rope::lemma_own_line(text, i);
}

/// A column within a line is found again from its position: a column before
/// the end of the line with its break, or any column of the last line.
pub proof fn line_col_round_trip(text: Seq<char>, line: int, col: int)
    requires
        0 <= line < line_total(text),
        0 <= col,
        col < line_with_break(text, line).len() || (line + 1 == line_total(text) && col
            <= line_with_break(text, line).len()),
    ensures
        position_of(text, line_start(text, line) + col) == (line, col),
{
    crate::rope::lemma_line_bounds(text, line);
    crate::rope::lemma_position_on_line(text, line, line_start(text, line) + col);
}

/// A character column turned into a UTF-16 column and back is the same column,
/// clamped to the content of its line.
pub proof fn utf16_round_trip(text: Seq<char>, line: int, col: int)
    requires
        0 <= line,
        0 <= col,
    ensures
        ({
            let content = line_content(text, clamp_line(text, line));
            chars_before_unit(content, utf16_column(text, line, col) as int) == if col
                < content.len() {
                col
            } else {
                content.len() as int
            }
        }),
{
    let content = line_content(text, clamp_line(text, line));
    let c = if col < content.len() {
        col
    } else {
        content.len() as int
    };
    assert(content.take(content.len() as int) =~= content);
    if c < content.len() {
        crate::rope::lemma_utf16_len_monotone(content, c, c + 1);
    }
    lemma_chars_before_unit(content, utf16_len(content.take(c)) as int, c);
}

/// A column in UTF-16 counts two units for each character beyond the Basic
/// Multilingual Plane and one for every other, from the start of the line.
pub proof fn utf16_columns_count_units(text: Seq<char>, line: int, col: int)
    requires
        0 <= line < line_total(text),
        0 <= col < line_content(text, line).len(),
    ensures
        utf16_column(text, line, 0) == 0,
        utf16_column(text, line, col + 1) == utf16_column(text, line, col) + if line_content(
            text,
            line,
        )[col] as int >= 0x10000 {
            2int
        } else {
            1
        },
        forall|past: int|
            past >= line_content(text, line).len() ==> #[trigger] utf16_column(text, line, past)
                == utf16_len(line_content(text, line)),
{
    let content = line_content(text, line);
    assert(content.take(0) =~= Seq::empty());
    assert(content.take(col + 1).drop_last() =~= content.take(col));
    assert(content.take(content.len() as int) =~= content);
}

/// The lines of a text with their breaks, one after the other, are the text, and
/// the content of a line is what stands before its break.
pub proof fn lines_make_up_the_text(text: Seq<char>, n: int)
    requires
        0 <= n < line_total(text),
    ensures
        0 <= line_start(text, n) <= line_start(text, n + 1) <= text.len(),
        line_start(text, 0) == 0,
        line_start(text, line_total(text) as int) == text.len(),
        line_with_break(text, n) == text.subrange(line_start(text, n), line_start(text, n + 1)),
        ({
            let whole = line_with_break(text, n);
            let content = line_content(text, n);
            &&& content.len() <= whole.len()
            &&& content == whole.take(content.len() as int)
            &&& forall|i: int|
                content.len() <= i < whole.len() ==> whole[i] == '\n' || whole[i] == '\r'
            &&& content.len() > 0 ==> content.last() != '\n' && content.last() != '\r'
        }),
        n + 1 < line_total(text) ==> crate::rope::is_break(text[line_start(text, n + 1) - 1]),
{
    crate::rope::lemma_line_bounds(text, n);
    crate::rope::lemma_line_start(text, 0);
    crate::rope::lemma_line_start_past(text, line_total(text) as int);
    crate::text::lines_lose_only_their_break(line_with_break(text, n));
    if n + 1 < line_total(text) {
        crate::rope::lemma_line_start(text, n + 1);
    }
}

/// A line ends at every line feed and at every carriage return that no line feed
/// follows, so a text has one line more than it has such breaks, and a break at
/// the end is followed by an empty line.
pub proof fn breaks_end_lines(text: Seq<char>, c: char)
    requires
        c == '\n' || c == '\r' || !crate::rope::is_break(c),
        text.len() > 0 ==> !(text.last() == '\r' && c == '\n'),
    ensures
        line_total(Seq::empty()) == 1,
        line_total(text.push(c)) == line_total(text) + if c == '\n' || c == '\r' {
            1int
        } else {
            0
        },
{
    let u = text.push(c);
    let n = text.len() as int;
    assert forall|m: int| 0 < m <= n implies (#[trigger] crate::rope::ends_line(text, m))
        == crate::rope::ends_line(u, m) by {
        assert(u[m - 1] == text[m - 1]);
        if m < n {
            assert(u[m] == text[m]);
        }
    }
    crate::editing::lemma_same_breaks(text, u, 0, n, 0);
    assert(u[n] == c);
    assert(breaks_before(u, n + 1) == breaks_before(u, n) + if crate::rope::ends_line(u, n + 1) {
        1int
    } else {
        0
    });
}

/// A buffer that was just made is unchanged and has nothing to undo or redo.
pub proof fn fresh_buffers_are_clean(text: Seq<char>, path: Option<Seq<u8>>)
    requires
        indexable(text),
    ensures
        ({
            let b = BufferState::fresh(text, path);
            &&& b.wf()
            &&& b.text == text && b.path == path
            &&& !b.dirty
            &&& !b.can_undo() && b.undone() == b
            &&& b.redone() == b
        }),
{
}

/// The number of whole characters before a unit, by its two bounds.
proof fn lemma_chars_before_unit(s: Seq<char>, u: int, r: int)
    requires
        0 <= r <= s.len(),
        utf16_len(s.take(r)) <= u,
        r < s.len() ==> u < utf16_len(s.take(r + 1)),
    ensures
        chars_before_unit(s, u) == r,
    decreases s.len(),
{
    if r == s.len() {
        assert(s.take(r) =~= s);
    } else {
        crate::rope::lemma_utf16_len_monotone(s, r + 1, s.len() as int);
        assert(s.take(s.len() as int) =~= s);
        let d = s.drop_last();
        assert(d.take(r) =~= s.take(r));
        if r + 1 <= d.len() {
            assert(d.take(r + 1) =~= s.take(r + 1));
        }
        lemma_chars_before_unit(d, u, r);
    }
}

// ---------------------------------------------------------------------------
// What the operations keep.

proof fn lemma_finalized_wf(v: BufferState)
    requires
        v.wf(),
    ensures
        v.finalized().wf(),
        v.finalized().origin() == v.origin(),
        v.finalized().open is None,
{
    match v.open {
        Some(step) => {
            assert(v.undo.push(step).drop_last() =~= v.undo);
        },
        None => {},
    }
}

proof fn lemma_edit_keeps_wf(v: BufferState, op: Op)
    requires
        v.wf(),
        op.applies(v.text),
        indexable(op.apply(v.text)),
    ensures
        op_fits(op),
        v.edited(op).wf(),
        v.edited(op).origin() == v.origin(),
{
    crate::history::edit_then_inverse(op, v.text);
    let e = v.edited(op);
    match op {
        Op::Insert { at, text } => {
            assert(e.text.len() == v.text.len() + text.len());
        },
        Op::Remove { at, text } => {},
    }
    match v.open {
        Some(step) if step.ops.last().continued_by(op) => {
            crate::history::lemma_replay_push(step.ops, op, e.text);
            assert forall|i: int| 0 <= i < e.open->0.ops.len() implies op_fits(
                #[trigger] e.open->0.ops[i],
            ) by {
                if i < step.ops.len() {
                    assert(e.open->0.ops[i] == step.ops[i]);
                }
            }
        },
        _ => {
            lemma_finalized_wf(v);
            assert(seq![op] =~= Seq::<Op>::empty().push(op));
            crate::history::lemma_replay_push(Seq::empty(), op, e.text);
            assert(e.undo =~= v.finalized().undo);
        },
    }
}

proof fn lemma_undone_wf(v: BufferState)
    requires
        v.wf(),
    ensures
        v.undone().wf(),
        v.undone().origin() == v.origin(),
        v.undone().open is None,
{
    lemma_finalized_wf(v);
    let c = v.finalized();
    if v.can_undo() {
        let step = c.undo.last();
        rewind_then_replay(step.ops, v.text);
        crate::history::lemma_rewind_indexable(step.ops, v.text);
        assert(c.redo.push(step).drop_last() =~= c.redo);
        assert(step_fits(c.undo[c.undo.len() - 1]));
    }
}

proof fn lemma_redone_wf(v: BufferState)
    requires
        v.wf(),
    ensures
        v.redone().wf(),
        v.redone().origin() == v.origin(),
{
    if v.redo.len() > 0 {
        let step = v.redo.last();
        replay_then_rewind(step.ops, v.text);
        crate::history::lemma_replay_indexable(step.ops, v.text);
        assert(v.undo.push(step).drop_last() =~= v.undo);
        assert(step_fits(v.redo[v.redo.len() - 1]));
    }
}

/// A UTF-16 code unit belongs to the character that it is part of: the second
/// unit of a pair counts no further than the first. Units past the content of a
/// line count as its end, and lines past the last one as the last.
pub proof fn units_belong_to_their_character(text: Seq<char>, line: int, u: int, r: int)
    requires
        0 <= line,
    ensures
        ({
            let content = line_content(text, clamp_line(text, line));
            &&& 0 <= r < content.len() && utf16_len(content.take(r)) <= u < utf16_len(
                content.take(r + 1),
            ) ==> chars_before_unit(content, u) == r
            &&& utf16_len(content) <= u ==> chars_before_unit(content, u) == content.len()
        }),
        line >= line_total(text) ==> clamp_line(text, line) == line_total(text) - 1,
        line < line_total(text) ==> clamp_line(text, line) == line,
{
    let content = line_content(text, clamp_line(text, line));
    if 0 <= r < content.len() && utf16_len(content.take(r)) <= u < utf16_len(content.take(r + 1)) {
        lemma_chars_before_unit(content, u, r);
    }
}

} // verus!
