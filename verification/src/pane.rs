//! An editor pane: a view onto a [`Buffer`] (referenced by id) with its own
//! cursor, selection, and scroll offset.
//!
//! Panes do not own their buffer. The buffer lives in a central store, and each
//! pane refers to it by `buffer_id`; editing methods take the buffer as a
//! parameter. This indirection lets two panes view one buffer.
use crate::buffer::{line_content, position_of, Buffer, BufferState};
use crate::caret::{before, is_before, merge_carets, merged};
pub use crate::caret::{Caret, Cursor};
use crate::fan_out::{
    ahead_of, apply_edits, back_from, break_char, by_start, can_fan_out, deletion_end,
    deletion_start, fanned_out, has_index, index_at, line_break, plan_edits, plans_of, slots_of,
    CaretEdit, Stroke,
};
use crate::history::Op;
use crate::motion::{can_move, cursor_at, least, move_caret, moved, Move};
use crate::rope::line_total;
use crate::text::{chars_of, decimal, decimal_string};
use vstd::prelude::*;

verus! {

/// Active incremental-search state for a pane: the match positions, which one
/// is current, the cursor to restore on cancel, and the query's char length.
#[derive(Debug)]
pub struct SearchState {
    /// `(line, col)` start of each match, in buffer order.
    pub matches: Vec<(usize, usize)>,
    pub current: usize,
    pub origin: Cursor,
    pub len: usize,
}

impl SearchState {
    /// The current match is one of the matches, and every match ends at a
    /// column the machine can hold.
    pub open spec fn wf(self) -> bool {
        &&& self.matches@.len() > 0 ==> self.current < self.matches@.len()
        &&& forall|i: int|
            0 <= i < self.matches@.len() ==> (#[trigger] self.matches@[i]).1 + self.len
                <= usize::MAX
    }
}

#[derive(Debug)]
pub struct EditorPane {
    pub buffer_id: usize,
    pub cursor: Cursor,
    /// Selection anchor (line, col) of the primary caret. The selection spans
    /// from here to the cursor; `None` means no active selection.
    pub anchor: Option<(usize, usize)>,
    /// Secondary carets for multi-cursor editing (empty in the common case).
    /// The primary caret is `cursor`/`anchor` above; these are the extras.
    pub secondary: Vec<Caret>,
    pub scroll_row: usize,
    pub scroll_col: usize,
    /// Height of the content region at the last render, used by page movement
    /// (which needs the viewport size, only known at render time).
    pub last_height: usize,
    /// Incremental-search state, present only while a search prompt is open.
    pub search: Option<SearchState>,
    /// Screen `(x, y)` of the hardware cursor at the last render, used to anchor
    /// the completion popup to the cursor. `None` before the first focused render.
    pub cursor_screen: Option<(u16, u16)>,
}

/// Whether two panes differ in nothing but their carets.
pub open spec fn same_but_carets(a: EditorPane, b: EditorPane) -> bool {
    &&& a.buffer_id == b.buffer_id
    &&& a.scroll_row == b.scroll_row
    &&& a.scroll_col == b.scroll_col
    &&& a.last_height == b.last_height
    &&& a.search == b.search
    &&& a.cursor_screen == b.cursor_screen
}

/// The highest line of a cursor and of some carets.
pub open spec fn highest_line(line: usize, carets: Seq<Caret>) -> usize
    decreases carets.len(),
{
    if carets.len() == 0 {
        line
    } else {
        let rest = highest_line(line, carets.drop_last());
        if carets.last().cursor.line > rest {
            carets.last().cursor.line
        } else {
            rest
        }
    }
}

/// The lowest line of a cursor and of some carets.
pub open spec fn lowest_line(line: usize, carets: Seq<Caret>) -> usize
    decreases carets.len(),
{
    if carets.len() == 0 {
        line
    } else {
        let rest = lowest_line(line, carets.drop_last());
        if carets.last().cursor.line < rest {
            carets.last().cursor.line
        } else {
            rest
        }
    }
}

/// The buffer without the caret's selection, and the cursor at its start.
pub open spec fn without_selection(b: BufferState, c: Caret) -> (BufferState, Cursor) {
    match c.selection() {
        Some(sel) => {
            let s = index_at(b.text, sel.0);
            let e = index_at(b.text, sel.1);
            let cut = if s < e {
                b.edited(Op::Remove { at: s, text: b.text.subrange(s as int, e as int) })
            } else {
                b
            };
            (cut, cursor_at(sel.0.0 as int, sel.0.1 as int))
        },
        None => (b, c.cursor),
    }
}

/// Whether the caret's selection can be removed.
pub open spec fn can_cut(t: Seq<char>, c: Caret) -> bool {
    c.selection() matches Some(sel) ==> {
        &&& has_index(t, sel.0)
        &&& has_index(t, sel.1)
        &&& index_at(t, sel.0) < index_at(t, sel.1) ==> index_at(t, sel.1) <= t.len()
    }
}

/// The buffer with the cursor reported for the next edit.
pub open spec fn noted(b: BufferState, c: Caret) -> BufferState {
    BufferState { pending: index_at(b.text, c.at()), ..b }
}

/// Where a caret's selection starts, or where the caret stands.
pub open spec fn start_of(c: Caret) -> (usize, usize) {
    match c.selection() {
        Some(sel) => sel.0,
        None => c.at(),
    }
}

/// What typing text over the selection, or at the caret, makes of the buffer.
pub open spec fn typed_over(b: BufferState, c: Caret, text: Seq<char>) -> BufferState {
    let cut = without_selection(noted(b, c), c).0;
    cut.edited(Op::Insert { at: index_at(b.text, start_of(c)), text })
}

/// Whether `extra` characters can be typed over the selection or at the caret.
pub open spec fn can_type(b: BufferState, c: Caret, extra: nat) -> bool {
    let cut = without_selection(noted(b, c), c).0;
    &&& has_index(b.text, c.at())
    &&& can_cut(b.text, c)
    &&& index_at(b.text, start_of(c)) <= cut.text.len()
    &&& cut.text.len() + extra <= usize::MAX
}

/// The carets of a pane: the primary one, then the secondary ones.
pub open spec fn all_carets(p: EditorPane) -> Seq<Caret> {
    seq![p.caret()] + p.secondary@
}

/// The caret that stands at an absolute index, with no selection.
pub open spec fn caret_at_index(t: Seq<char>, i: int) -> Caret {
    Caret::placed(position_of(t, i).0, position_of(t, i).1)
}

/// What a stroke at every caret makes of the pane and its buffer: the carets
/// land where the edits put them, and those that coincide merge.
pub open spec fn struck(
    p: EditorPane,
    b: BufferState,
    stroke: Stroke,
    q: EditorPane,
    c: BufferState,
) -> bool {
    let batch = fanned_out(b, all_carets(p), stroke);
    let placed = batch.places.map_values(|i: nat| caret_at_index(batch.buffer.text, i as int));
    &&& c == batch.buffer.finalized()
    &&& q.caret() == placed[0]
    &&& q.secondary@ == merged(placed[0].at(), placed.skip(1))
    &&& same_but_carets(p, q)
}

impl EditorPane {
    /// The primary caret.
    pub open spec fn caret(self) -> Caret {
        Caret { cursor: self.cursor, anchor: self.anchor }
    }

    /// With the primary caret alone, at a line and column.
    pub open spec fn caret_put(self, q: EditorPane, line: int, col: int) -> bool {
        &&& q.caret() == Caret::placed(line, col)
        &&& q.secondary@ == Seq::<Caret>::empty()
        &&& same_but_carets(self, q)
    }

    /// Whether every caret can make a movement.
    pub open spec fn can_move(self, t: Seq<char>, mv: Move) -> bool {
        &&& can_move(t, self.cursor, mv)
        &&& forall|i: int|
            0 <= i < self.secondary@.len() ==> can_move(
                t,
                (#[trigger] self.secondary@[i]).cursor,
                mv,
            )
    }

    /// Whether every caret made a movement, and those that then coincide were
    /// merged.
    pub open spec fn moved_to(
        self,
        q: EditorPane,
        t: Seq<char>,
        mv: Move,
        extend: bool,
    ) -> bool {
        &&& q.caret() == moved(t, self.caret(), mv, extend)
        &&& q.secondary@ == merged(
            q.caret().at(),
            self.secondary@.map_values(|c: Caret| moved(t, c, mv, extend)),
        )
        &&& same_but_carets(self, q)
    }

    /// The rows of a page: the height at the last render, but at least one.
    pub open spec fn page(self) -> usize {
        if self.last_height >= 1 {
            self.last_height
        } else {
            1
        }
    }

    /// Whether a character can be typed at every caret.
    pub open spec fn can_insert(self, b: BufferState, ch: char) -> bool {
        if self.secondary@.len() == 0 {
            can_type(b, self.caret(), 1)
        } else {
            can_fan_out(b, all_carets(self), Stroke::Replace(seq![ch]))
        }
    }

    /// What typing a character makes of the pane and its buffer.
    pub open spec fn inserted(
        self,
        b: BufferState,
        ch: char,
        q: EditorPane,
        c: BufferState,
    ) -> bool {
        if self.secondary@.len() == 0 {
            let cursor = without_selection(noted(b, self.caret()), self.caret()).1;
            &&& c == typed_over(b, self.caret(), seq![ch])
            &&& self.caret_put(q, cursor.line as int, cursor.col + 1)
        } else {
            struck(self, b, Stroke::Replace(seq![ch]), q, c)
        }
    }

    /// Whether the line can be broken at every caret.
    pub open spec fn can_break(self, b: BufferState) -> bool {
        if self.secondary@.len() == 0 {
            &&& can_type(b.finalized(), self.caret(), 1)
            &&& self.cursor.line < usize::MAX
        } else {
            can_fan_out(b, all_carets(self), Stroke::Break)
        }
    }

    /// What breaking the line makes of the pane and its buffer: a step of its
    /// own in the history. The break is a line feed, unless that would make one
    /// break with a carriage return before it.
    pub open spec fn broken(self, b: BufferState, q: EditorPane, c: BufferState) -> bool {
        if self.secondary@.len() == 0 {
            let (cut, cursor) = without_selection(noted(b.finalized(), self.caret()), self.caret());
            let at = index_at(b.text, start_of(self.caret()));
            let text = seq![break_char(cut.text, at as int, at as int)];
            &&& c == cut.edited(Op::Insert { at, text }).finalized()
            &&& self.caret_put(q, cursor.line + 1, 0)
        } else {
            struck(self, b, Stroke::Break, q, c)
        }
    }

    /// Whether the characters before the carets can be deleted.
    pub open spec fn can_backspace(self, b: BufferState) -> bool {
        if self.secondary@.len() == 0 {
            &&& has_index(b.text, self.caret().at())
            &&& can_cut(b.text, self.caret())
            &&& self.anchor is None ==> index_at(b.text, self.caret().at()) <= b.text.len()
        } else {
            can_fan_out(b, all_carets(self), Stroke::Backspace)
        }
    }

    /// What deleting the character before the caret makes of the pane and its
    /// buffer: a selection goes as a whole, so does a CRLF, and at the start of
    /// the text nothing is deleted.
    pub open spec fn backspaced(self, b: BufferState, q: EditorPane, c: BufferState) -> bool {
        if self.secondary@.len() == 0 {
            let caret = self.caret();
            let ready = noted(b, caret);
            let i = index_at(ready.text, caret.at());
            if caret.anchor is Some {
                let cursor = without_selection(ready, caret).1;
                &&& c == without_selection(ready, caret).0
                &&& self.caret_put(q, cursor.line as int, cursor.col as int)
            } else if i == 0 {
                c == ready && q == self
            } else {
                let start = back_from(ready.text, i);
                let p = position_of(c.text, start as int);
                &&& c == ready.edited(
                    Op::Remove {
                        at: start,
                        text: ready.text.subrange(start as int, i as int),
                    },
                )
                &&& self.caret_put(q, p.0, p.1)
            }
        } else {
            struck(self, b, Stroke::Backspace, q, c)
        }
    }

    /// Whether the characters at the carets can be deleted.
    pub open spec fn can_delete(self, b: BufferState) -> bool {
        if self.secondary@.len() == 0 {
            has_index(b.text, self.caret().at()) && can_cut(b.text, self.caret())
        } else {
            can_fan_out(b, all_carets(self), Stroke::Delete)
        }
    }

    /// What deleting the character at the caret makes of the pane and its
    /// buffer: a selection goes as a whole, so does a CRLF, and at the end of the
    /// text nothing is deleted.
    pub open spec fn deleted(self, b: BufferState, q: EditorPane, c: BufferState) -> bool {
        if self.secondary@.len() == 0 {
            let caret = self.caret();
            let ready = noted(b, caret);
            let i = index_at(ready.text, caret.at());
            if caret.anchor is Some {
                let cursor = without_selection(ready, caret).1;
                &&& c == without_selection(ready, caret).0
                &&& self.caret_put(q, cursor.line as int, cursor.col as int)
            } else if i < ready.text.len() {
                &&& c == ready.edited(
                    Op::Remove {
                        at: i,
                        text: ready.text.subrange(i as int, ahead_of(ready.text, i) as int),
                    },
                )
                &&& q == self
            } else {
                c == ready && q == self
            }
        } else {
            struck(self, b, Stroke::Delete, q, c)
        }
    }

    /// Whether the pane shows a buffer from its start.
    pub open spec fn starts_at(self, buffer_id: usize, last_height: usize) -> bool {
        &&& self.buffer_id == buffer_id
        &&& self.caret() == Caret::placed(0, 0)
        &&& self.secondary@ == Seq::<Caret>::empty()
        &&& self.scroll_row == 0
        &&& self.scroll_col == 0
        &&& self.last_height == last_height
        &&& self.search is None
        &&& self.cursor_screen is None
    }

    pub fn new(buffer_id: usize) -> (r: Self)
        ensures
            r.starts_at(buffer_id, 0),
    {
        Self {
            buffer_id,
            cursor: Cursor { line: 0, col: 0, target_col: 0 },
            anchor: None,
            secondary: Vec::new(),
            scroll_row: 0,
            scroll_col: 0,
            last_height: 0,
            search: None,
            cursor_screen: None,
        }
    }

    /// Point this pane at a different buffer, resetting the view state.
    pub fn set_buffer(&mut self, buffer_id: usize)
        ensures
            final(self).starts_at(buffer_id, old(self).last_height),
    {
        self.buffer_id = buffer_id;
        self.cursor = Cursor { line: 0, col: 0, target_col: 0 };
        self.anchor = None;
        self.secondary.clear();
        self.scroll_row = 0;
        self.scroll_col = 0;
        self.search = None;
        self.cursor_screen = None;
    }

    // --- queries -----------------------------------------------------------

    pub fn has_selection(&self) -> (r: bool)
        ensures
            r == (self.anchor is Some),
    {
        self.anchor.is_some()
    }

    /// Screen `(x, y)` of the cursor at the last focused render, for anchoring
    /// the completion popup. `None` before the pane has rendered focused.
    pub fn cursor_screen(&self) -> (r: Option<(u16, u16)>)
        ensures
            r == self.cursor_screen,
    {
        self.cursor_screen
    }

    /// The primary caret's selection as an ordered (start, end) pair, if any.
    pub fn ordered_selection(&self) -> (r: Option<((usize, usize), (usize, usize))>)
        ensures
            r == self.caret().selection(),
    {
        self.primary_caret().ordered_selection()
    }

    // --- carets ------------------------------------------------------------

    /// The primary caret (its cursor + anchor) as a [`Caret`] value.
    fn primary_caret(&self) -> (r: Caret)
        ensures
            r == self.caret(),
    {
        Caret { cursor: self.cursor, anchor: self.anchor }
    }

    /// Whether any secondary carets are present (multi-cursor is active).
    pub fn has_secondary_carets(&self) -> (r: bool)
        ensures
            r == (self.secondary@.len() > 0),
    {
        self.secondary.len() > 0
    }

    /// Moves every caret, then merges any that became coincident. Each caret
    /// moves on its own and no buffer indices shift, so order does not matter.
    pub fn move_carets(&mut self, buffer: &Buffer, mv: Move, extend: bool)
        requires
            old(self).can_move(buffer@.text, mv),
        ensures
            old(self).moved_to(*final(self), buffer@.text, mv, extend),
    {
        let primary = move_caret(buffer, self.primary_caret(), mv, extend);
        let ghost goal = self.secondary@.map_values(
            |c: Caret| moved(buffer@.text, c, mv, extend),
        );
        let mut carets: Vec<Caret> = Vec::new();
        let mut i: usize = 0;
        while i < self.secondary.len()
            invariant
                i <= self.secondary@.len(),
                *self == *old(self),
                goal == self.secondary@.map_values(
                    |c: Caret| moved(buffer@.text, c, mv, extend),
                ),
                carets@ == goal.take(i as int),
                forall|j: int|
                    0 <= j < self.secondary@.len() ==> can_move(
                        buffer@.text,
                        (#[trigger] self.secondary@[j]).cursor,
                        mv,
                    ),
            decreases self.secondary@.len() - i,
        {
            assert(can_move(buffer@.text, self.secondary@[i as int].cursor, mv));
            carets.push(move_caret(buffer, self.secondary[i], mv, extend));
            i += 1;
            assert(carets@ =~= goal.take(i as int));
        }
        assert(carets@ =~= goal);
        self.cursor = primary.cursor;
        self.anchor = primary.anchor;
        self.secondary = merge_carets((primary.cursor.line, primary.cursor.col), &carets);
    }

    /// The highest line index over all carets (primary + secondary).
    fn max_caret_line(&self) -> (r: usize)
        ensures
            r == highest_line(self.cursor.line, self.secondary@),
    {
        let mut best: usize = self.cursor.line;
        let mut i: usize = 0;
        assert(self.secondary@.take(0) =~= Seq::empty());
        while i < self.secondary.len()
            invariant
                i <= self.secondary@.len(),
                best == highest_line(self.cursor.line, self.secondary@.take(i as int)),
            decreases self.secondary@.len() - i,
        {
            assert(self.secondary@.take(i + 1).drop_last() =~= self.secondary@.take(i as int));
            if self.secondary[i].cursor.line > best {
                best = self.secondary[i].cursor.line;
            }
            i += 1;
        }
        assert(self.secondary@.take(i as int) =~= self.secondary@);
        best
    }

    /// The lowest line index over all carets (primary + secondary).
    fn min_caret_line(&self) -> (r: usize)
        ensures
            r == lowest_line(self.cursor.line, self.secondary@),
    {
        let mut best: usize = self.cursor.line;
        let mut i: usize = 0;
        assert(self.secondary@.take(0) =~= Seq::empty());
        while i < self.secondary.len()
            invariant
                i <= self.secondary@.len(),
                best == lowest_line(self.cursor.line, self.secondary@.take(i as int)),
            decreases self.secondary@.len() - i,
        {
            assert(self.secondary@.take(i + 1).drop_last() =~= self.secondary@.take(i as int));
            if self.secondary[i].cursor.line < best {
                best = self.secondary[i].cursor.line;
            }
            i += 1;
        }
        assert(self.secondary@.take(i as int) =~= self.secondary@);
        best
    }

    /// Whether a caret was pushed onto `line` at the primary's target column.
    pub open spec fn caret_pushed(self, q: EditorPane, t: Seq<char>, line: int) -> bool {
        let c = Caret {
            cursor: Cursor {
                line: line as usize,
                col: least(
                    self.cursor.target_col as int,
                    line_content(t, line).len() as int,
                ) as usize,
                target_col: self.cursor.target_col,
            },
            anchor: None,
        };
        &&& q.caret() == self.caret()
        &&& q.secondary@ == merged(self.caret().at(), self.secondary@.push(c))
        &&& same_but_carets(self, q)
    }

    /// Add a caret one line below the bottom-most caret, at the primary caret's
    /// target column (clamped to that line). A no-op at the last line.
    pub fn add_caret_below(&mut self, buffer: &Buffer)
        ensures
            ({
                let bottom = highest_line(old(self).cursor.line, old(self).secondary@);
                if bottom + 1 < line_total(buffer@.text) {
                    old(self).caret_pushed(*final(self), buffer@.text, bottom + 1)
                } else {
                    *final(self) == *old(self)
                }
            }),
    {
        let bottom: usize = self.max_caret_line();
        if bottom >= buffer.line_count() - 1 {
            return ;
        }
        self.push_caret(buffer, bottom + 1);
    }

    /// Add a caret one line above the top-most caret, at the primary caret's
    /// target column (clamped to that line). A no-op at the first line.
    pub fn add_caret_above(&mut self, buffer: &Buffer)
        ensures
            ({
                let top = lowest_line(old(self).cursor.line, old(self).secondary@);
                if top > 0 {
                    old(self).caret_pushed(*final(self), buffer@.text, top - 1)
                } else {
                    *final(self) == *old(self)
                }
            }),
    {
        let top: usize = self.min_caret_line();
        if top == 0 {
            return ;
        }
        self.push_caret(buffer, top - 1);
    }

    /// Push a new secondary caret onto `line` at the primary's target column.
    fn push_caret(&mut self, buffer: &Buffer, line: usize)
        ensures
            old(self).caret_pushed(*final(self), buffer@.text, line as int),
    {
        let target: usize = self.cursor.target_col;
        let len: usize = buffer.line_len_chars(line);
        let col: usize = if target <= len {
            target
        } else {
            len
        };
        self.secondary.push(
            Caret { cursor: Cursor { line, col, target_col: target }, anchor: None },
        );
        self.secondary = merge_carets((self.cursor.line, self.cursor.col), &self.secondary);
    }

    /// Drop all secondary carets, leaving just the primary.
    pub fn collapse_carets(&mut self)
        ensures
            final(self).caret() == old(self).caret(),
            final(self).secondary@ == Seq::<Caret>::empty(),
            same_but_carets(*old(self), *final(self)),
    {
        self.secondary.clear();
    }

    // --- editing -----------------------------------------------------------

    /// Delete the active selection, if any, moving the cursor to its start.
    /// Returns whether a selection was deleted.
    fn delete_selection(&mut self, buffer: &mut Buffer) -> (r: bool)
        requires
            old(buffer).wf(),
            can_cut(old(buffer)@.text, old(self).caret()),
        ensures
            final(buffer).wf(),
            r == (old(self).anchor is Some),
            final(buffer)@ == without_selection(old(buffer)@, old(self).caret()).0,
            final(self).cursor == without_selection(old(buffer)@, old(self).caret()).1,
            final(self).anchor is None,
            final(self).secondary == old(self).secondary,
            same_but_carets(*old(self), *final(self)),
    {
        match self.ordered_selection() {
            None => false,
            Some((start, end)) => {
                proof {
                    lemma_line_start_at_least_zero(buffer@.text, start.0 as int);
                    lemma_line_start_at_least_zero(buffer@.text, end.0 as int);
                }
                let s: usize = buffer.char_idx(start.0, start.1);
                let e: usize = buffer.char_idx(end.0, end.1);
                buffer.remove(s, e);
                self.cursor = Cursor { line: start.0, col: start.1, target_col: start.1 };
                self.anchor = None;
                true
            },
        }
    }

    /// Report the cursor, delete the active selection, if any, and return where
    /// the text that is typed goes.
    fn begin_typing(&mut self, buffer: &mut Buffer) -> (at: usize)
        requires
            old(buffer).wf(),
            has_index(old(buffer)@.text, old(self).caret().at()),
            can_cut(old(buffer)@.text, old(self).caret()),
        ensures
            final(buffer).wf(),
            at == index_at(old(buffer)@.text, start_of(old(self).caret())),
            final(self).cursor.col <= at,
            final(buffer)@ == without_selection(
                noted(old(buffer)@, old(self).caret()),
                old(self).caret(),
            ).0,
            final(self).cursor == without_selection(
                noted(old(buffer)@, old(self).caret()),
                old(self).caret(),
            ).1,
            final(self).anchor is None,
            final(self).secondary == old(self).secondary,
            same_but_carets(*old(self), *final(self)),
    {
        let start = match self.ordered_selection() {
            Some((start, _)) => start,
            None => (self.cursor.line, self.cursor.col),
        };
        proof {
            lemma_line_start_at_least_zero(buffer@.text, self.cursor.line as int);
            lemma_line_start_at_least_zero(buffer@.text, start.0 as int);
        }
        let at: usize = buffer.char_idx(start.0, start.1);
        buffer.begin_edit(buffer.char_idx(self.cursor.line, self.cursor.col));
        let _ = self.delete_selection(buffer);
        at
    }

    pub fn insert_char(&mut self, buffer: &mut Buffer, ch: char)
        requires
            old(buffer).wf(),
            old(self).can_insert(old(buffer)@, ch),
        ensures
            final(buffer).wf(),
            old(self).inserted(old(buffer)@, ch, *final(self), final(buffer)@),
    {
        let mut text = String::new();
        text.push(ch);
        assert(text@ =~= seq![ch]);
        if self.secondary.len() > 0 {
            self.fan_out_edit(buffer, &CaretEdit::Replace(text));
            return ;
        }
        let idx: usize = self.begin_typing(buffer);
        buffer.insert(idx, text.as_str());
        self.cursor.col += 1;
        self.cursor.target_col = self.cursor.col;
        assert(self.secondary@ =~= Seq::empty());
    }

    pub fn insert_newline(&mut self, buffer: &mut Buffer)
        requires
            old(buffer).wf(),
            old(self).can_break(old(buffer)@),
        ensures
            final(buffer).wf(),
            old(self).broken(old(buffer)@, *final(self), final(buffer)@),
    {
        if self.secondary.len() > 0 {
            self.fan_out_edit(buffer, &CaretEdit::Break);
            return ;
        }
        // A line break is its own undo step: close any run before it, and close
        // the newline group after so the next typing starts fresh.
        buffer.finalize();
        let idx: usize = self.begin_typing(buffer);
        let text = line_break(buffer, idx, idx);
        buffer.insert(idx, text.as_str());
        buffer.finalize();
        self.cursor.line += 1;
        self.cursor.col = 0;
        self.cursor.target_col = 0;
        assert(self.secondary@ =~= Seq::empty());
    }

    /// Delete the character before the cursor, joining lines at a line start.
    pub fn backspace(&mut self, buffer: &mut Buffer)
        requires
            old(buffer).wf(),
            old(self).can_backspace(old(buffer)@),
        ensures
            final(buffer).wf(),
            old(self).backspaced(old(buffer)@, *final(self), final(buffer)@),
    {
        if self.secondary.len() > 0 {
            self.fan_out_edit(buffer, &CaretEdit::Backspace);
            return ;
        }
        proof {
            lemma_line_start_at_least_zero(buffer@.text, self.cursor.line as int);
        }
        assert(self.secondary@ =~= Seq::empty());
        buffer.begin_edit(buffer.char_idx(self.cursor.line, self.cursor.col));
        if self.delete_selection(buffer) {
            return ;
        }
        let idx: usize = buffer.char_idx(self.cursor.line, self.cursor.col);
        if idx == 0 {
            return ;
        }
        let start: usize = deletion_start(buffer, idx);
        buffer.remove(start, idx);
        let (line, col) = buffer.line_col(start);
        self.cursor = Cursor { line, col, target_col: col };
    }

    /// Delete the character at the cursor, joining lines at a line end.
    pub fn delete_forward(&mut self, buffer: &mut Buffer)
        requires
            old(buffer).wf(),
            old(self).can_delete(old(buffer)@),
        ensures
            final(buffer).wf(),
            old(self).deleted(old(buffer)@, *final(self), final(buffer)@),
    {
        if self.secondary.len() > 0 {
            self.fan_out_edit(buffer, &CaretEdit::Delete);
            return ;
        }
        proof {
            lemma_line_start_at_least_zero(buffer@.text, self.cursor.line as int);
        }
        assert(self.secondary@ =~= Seq::empty());
        buffer.begin_edit(buffer.char_idx(self.cursor.line, self.cursor.col));
        if self.delete_selection(buffer) {
            return ;
        }
        let idx: usize = buffer.char_idx(self.cursor.line, self.cursor.col);
        if idx < buffer.len_chars() {
            let end: usize = deletion_end(buffer, idx);
            buffer.remove(idx, end);
        }
    }

    /// The carets: slot 0 is the primary one, the rest are the secondaries in
    /// order.
    pub(crate) fn carets(&self) -> (r: Vec<Caret>)
        ensures
            r@ == all_carets(*self),
    {
        let mut carets: Vec<Caret> = Vec::new();
        carets.push(self.primary_caret());
        let mut i: usize = 0;
        assert(carets@ =~= all_carets(*self).take(1));
        while i < self.secondary.len()
            invariant
                i <= self.secondary@.len(),
                carets@ == all_carets(*self).take(i + 1),
            decreases self.secondary@.len() - i,
        {
            carets.push(self.secondary[i]);
            i += 1;
            assert(carets@ =~= all_carets(*self).take(i + 1));
        }
        assert(carets@ =~= all_carets(*self));
        carets
    }

    /// Apply one planned edit per caret as a single batch, then re-place every
    /// caret. Edits are applied low-to-high with a running offset so positions
    /// stay correct across length changes and newlines; each caret lands just
    /// past its inserted text with its selection cleared.
    fn fan_out_edit(&mut self, buffer: &mut Buffer, edit: &CaretEdit)
        requires
            old(buffer).wf(),
            can_fan_out(old(buffer)@, all_carets(*old(self)), edit@),
        ensures
            final(buffer).wf(),
            struck(*old(self), old(buffer)@, edit@, *final(self), final(buffer)@),
    {
        let carets = self.carets();
        let edits = plan_edits(buffer, &carets, edit);
        let ghost plans = plans_of(buffer@.text, carets@, edit@);
        proof {
            crate::fan_out::lemma_by_start_slots(plans);
            assert forall|j: int| 0 <= j < edits@.len() implies (#[trigger] edits@[j]).slot
                < carets@.len() by {
                assert(slots_of(edits@)[j].slot == edits@[j].slot);
            }
        }
        let places = apply_edits(buffer, &edits, carets.len());
        let ghost batch = fanned_out(old(buffer)@, carets@, edit@);
        let ghost placed = batch.places.map_values(
            |i: nat| caret_at_index(batch.buffer.text, i as int),
        );
        proof {
            lemma_run_places(
                crate::fan_out::batch_start(old(buffer)@, carets@.len()),
                by_start(plans),
            );
            assert(buffer@.text == batch.buffer.text);
        }
        let mut moved: Vec<Caret> = Vec::new();
        let mut k: usize = 1;
        let (line, col) = buffer.line_col(places[0]);
        let primary = Caret { cursor: Cursor { line, col, target_col: col }, anchor: None };
        assert(primary == placed[0]);
        assert(placed.skip(1).take(0) =~= Seq::empty());
        while k < places.len()
            invariant
                1 <= k <= places@.len(),
                places@.len() == placed.len(),
                placed == batch.places.map_values(
                    |i: nat| caret_at_index(batch.buffer.text, i as int),
                ),
                buffer@.text == batch.buffer.text,
                forall|j: int| 0 <= j < places@.len() ==> #[trigger] places@[j] == batch.places[j],
                moved@ == placed.skip(1).take(k - 1),
            decreases places@.len() - k,
        {
            let (line, col) = buffer.line_col(places[k]);
            let c = Caret { cursor: Cursor { line, col, target_col: col }, anchor: None };
            assert(c == placed[k as int]);
            moved.push(c);
            k += 1;
            assert(moved@ =~= placed.skip(1).take(k - 1));
        }
        assert(moved@ =~= placed.skip(1));
        self.cursor = primary.cursor;
        self.anchor = primary.anchor;
        self.secondary = merge_carets((primary.cursor.line, primary.cursor.col), &moved);
    }
}

impl EditorPane {
    // --- movement ----------------------------------------------------------

    /// One character to the left; from a line start to the end of the line
    /// before.
    pub fn move_left(&mut self, buffer: &Buffer, extend: bool)
        ensures
            old(self).moved_to(*final(self), buffer@.text, Move::Left, extend),
    {
        self.move_carets(buffer, Move::Left, extend);
    }

    /// One character to the right; from a line end to the start of the next
    /// line.
    pub fn move_right(&mut self, buffer: &Buffer, extend: bool)
        ensures
            old(self).moved_to(*final(self), buffer@.text, Move::Right, extend),
    {
        self.move_carets(buffer, Move::Right, extend);
    }

    /// Move each caret forward to the next word boundary: skip any separators
    /// (crossing line ends), then advance over word chars, landing just past the
    /// word. `extend` grows the selection instead of collapsing it.
    pub fn move_word_right(&mut self, buffer: &Buffer, extend: bool)
        ensures
            old(self).moved_to(*final(self), buffer@.text, Move::WordRight, extend),
    {
        self.move_carets(buffer, Move::WordRight, extend);
    }

    /// Move each caret backward to the previous word boundary: step back over
    /// separators (crossing line starts), then over word chars, landing at the
    /// start of the word. `extend` grows the selection instead of collapsing it.
    pub fn move_word_left(&mut self, buffer: &Buffer, extend: bool)
        requires
            old(self).can_move(buffer@.text, Move::WordLeft),
        ensures
            old(self).moved_to(*final(self), buffer@.text, Move::WordLeft, extend),
    {
        self.move_carets(buffer, Move::WordLeft, extend);
    }

    /// One line up, keeping the wanted column.
    pub fn move_up(&mut self, buffer: &Buffer, extend: bool)
        ensures
            old(self).moved_to(*final(self), buffer@.text, Move::Up, extend),
    {
        self.move_carets(buffer, Move::Up, extend);
    }

    /// One line down, keeping the wanted column.
    pub fn move_down(&mut self, buffer: &Buffer, extend: bool)
        ensures
            old(self).moved_to(*final(self), buffer@.text, Move::Down, extend),
    {
        self.move_carets(buffer, Move::Down, extend);
    }

    /// Move to column zero of the current line (Home).
    pub fn move_line_start(&mut self, buffer: &Buffer, extend: bool)
        ensures
            old(self).moved_to(*final(self), buffer@.text, Move::LineStart, extend),
    {
        self.move_carets(buffer, Move::LineStart, extend);
    }

    /// Move to the end of the current line (End).
    pub fn move_line_end(&mut self, buffer: &Buffer, extend: bool)
        ensures
            old(self).moved_to(*final(self), buffer@.text, Move::LineEnd, extend),
    {
        self.move_carets(buffer, Move::LineEnd, extend);
    }

    /// Move up by roughly one viewport height (PageUp), keeping the target
    /// column. Uses the height cached at the last render.
    pub fn page_up(&mut self, buffer: &Buffer, extend: bool)
        ensures
            old(self).moved_to(
                *final(self),
                buffer@.text,
                Move::PageUp(old(self).page()),
                extend,
            ),
    {
        let page: usize = self.page_rows();
        self.move_carets(buffer, Move::PageUp(page), extend);
    }

    /// Move down by roughly one viewport height (PageDown), keeping the target
    /// column. Uses the height cached at the last render.
    pub fn page_down(&mut self, buffer: &Buffer, extend: bool)
        requires
            old(self).can_move(buffer@.text, Move::PageDown(old(self).page())),
        ensures
            old(self).moved_to(
                *final(self),
                buffer@.text,
                Move::PageDown(old(self).page()),
                extend,
            ),
    {
        let page: usize = self.page_rows();
        self.move_carets(buffer, Move::PageDown(page), extend);
    }

    /// Rows to jump for a page movement: the last-rendered content height, or a
    /// sane default before the first render.
    fn page_rows(&self) -> (r: usize)
        ensures
            r == self.page(),
    {
        if self.last_height >= 1 {
            self.last_height
        } else {
            1
        }
    }

    // --- undo & redo -------------------------------------------------------

    /// Undo the last edit group on `buffer`, moving this pane's cursor to the
    /// edit site and clearing any selection. A no-op when there is nothing to
    /// undo.
    pub fn undo(&mut self, buffer: &mut Buffer)
        requires
            old(buffer).wf(),
        ensures
            final(buffer).wf(),
            final(buffer)@ == old(buffer)@.undone(),
            if old(buffer)@.can_undo() {
                let p = position_of(
                    final(buffer)@.text,
                    old(buffer)@.finalized().undo.last().before as int,
                );
                old(self).caret_put(*final(self), p.0, p.1)
            } else {
                *final(self) == *old(self)
            },
    {
        match buffer.undo() {
            Some(idx) => {
                self.move_to_edit(buffer, idx);
            },
            None => {},
        }
    }

    /// Redo the last undone edit group on `buffer`, moving this pane's cursor to
    /// the edit site and clearing any selection. A no-op when there is nothing
    /// to redo.
    pub fn redo(&mut self, buffer: &mut Buffer)
        requires
            old(buffer).wf(),
        ensures
            final(buffer).wf(),
            final(buffer)@ == old(buffer)@.redone(),
            if old(buffer)@.redo.len() > 0 {
                let p = position_of(
                    final(buffer)@.text,
                    old(buffer)@.redo.last().after as int,
                );
                old(self).caret_put(*final(self), p.0, p.1)
            } else {
                *final(self) == *old(self)
            },
    {
        match buffer.redo() {
            Some(idx) => {
                self.move_to_edit(buffer, idx);
            },
            None => {},
        }
    }

    /// Place the cursor at buffer char index `idx`, clear the selection, and
    /// collapse to a single caret, shared by undo and redo.
    fn move_to_edit(&mut self, buffer: &Buffer, idx: usize)
        ensures
            old(self).caret_put(
                *final(self),
                position_of(buffer@.text, idx as int).0,
                position_of(buffer@.text, idx as int).1,
            ),
    {
        let (line, col) = buffer.line_col(idx);
        self.cursor = Cursor { line, col, target_col: col };
        self.anchor = None;
        self.secondary.clear();
    }

    // --- search & go-to-line -----------------------------------------------

    /// With the search state `s`, the current match selected: anchored at its
    /// start, the cursor at its end. With no match, the caret stays.
    pub open spec fn match_selected(self, s: SearchState, q: EditorPane) -> bool {
        if s.matches@.len() == 0 {
            q.caret() == self.caret()
        } else {
            let m = s.matches@[s.current as int];
            &&& q.anchor == Some(m)
            &&& q.cursor == cursor_at(m.0 as int, m.1 + s.len)
        }
    }

    /// Whether two panes differ at most in the primary caret and the search.
    pub open spec fn same_but_search(self, q: EditorPane) -> bool {
        &&& self.buffer_id == q.buffer_id
        &&& self.secondary == q.secondary
        &&& self.scroll_row == q.scroll_row
        &&& self.scroll_col == q.scroll_col
        &&& self.last_height == q.last_height
        &&& self.cursor_screen == q.cursor_screen
    }

    /// Begin a search: remember the current cursor so a cancel can restore it.
    pub fn search_begin(&mut self)
        ensures
            old(self).same_but_search(*final(self)),
            final(self).caret() == old(self).caret(),
            match final(self).search {
                Some(s) => {
                    &&& s.wf()
                    &&& s.matches@ == Seq::<(usize, usize)>::empty()
                    &&& s.current == 0
                    &&& s.origin == old(self).cursor
                    &&& s.len == 0
                },
                None => false,
            },
    {
        self.search = Some(
            SearchState { matches: Vec::new(), current: 0, origin: self.cursor, len: 0 },
        );
    }

    /// Recompute matches for `query` and jump to the nearest one at or after the
    /// search origin (wrapping to the first). An empty query or no matches puts
    /// the cursor back at the origin with no selection.
    pub fn search_update(&mut self, buffer: &Buffer, query: &str)
        requires
            buffer.wf(),
        ensures
            old(self).same_but_search(*final(self)),
            match (old(self).search, final(self).search) {
                (Some(was), Some(s)) => {
                    let origin = (was.origin.line, was.origin.col);
                    &&& s.wf()
                    &&& s.matches@ == all_matches(buffer@.text, query@)
                    &&& s.len == query@.len()
                    &&& s.origin == was.origin
                    &&& s.current == match first_from(s.matches@, origin) {
                        Some(k) => k,
                        None => 0,
                    }
                    &&& if s.matches@.len() == 0 {
                        &&& final(self).cursor == cursor_at(
                            was.origin.line as int,
                            was.origin.col as int,
                        )
                        &&& final(self).anchor is None
                    } else {
                        old(self).match_selected(s, *final(self))
                    }
                },
                (None, None) => final(self).caret() == old(self).caret(),
                _ => false,
            },
    {
        match self.search.take() {
            None => {},
            Some(was) => {
                let origin = was.origin;
                let matches = find_matches(buffer, query);
                let count: usize = matches.len();
                proof {
                    lemma_matches_fit(buffer@.text, query@, line_total(buffer@.text) as int);
                    lemma_first_from(matches@, (origin.line, origin.col));
                }
                let current: usize = match nearest_at_or_after(
                    &matches,
                    (origin.line, origin.col),
                ) {
                    Some(k) => k,
                    None => 0,
                };
                let len: usize = query.unicode_len();
                if count == 0 {
                    self.cursor =
                    Cursor { line: origin.line, col: origin.col, target_col: origin.col };
                    self.anchor = None;
                } else {
                    let (line, col) = matches[current];
                    self.anchor = Some((line, col));
                    self.cursor = Cursor { line, col: col + len, target_col: col + len };
                }
                self.search = Some(SearchState { matches, current, origin, len });
            },
        }
    }

    /// Move to the next match, wrapping past the last to the first.
    pub fn search_next(&mut self)
        requires
            old(self).search matches Some(s) ==> s.wf(),
        ensures
            old(self).same_but_search(*final(self)),
            match (old(self).search, final(self).search) {
                (Some(was), Some(s)) => {
                    &&& s.wf()
                    &&& s.matches == was.matches && s.origin == was.origin && s.len == was.len
                    &&& s.current == if was.matches@.len() == 0 {
                        was.current as int
                    } else {
                        (was.current + 1) % (was.matches@.len() as int)
                    }
                    &&& old(self).match_selected(s, *final(self))
                },
                (None, None) => final(self).caret() == old(self).caret(),
                _ => false,
            },
    {
        match self.search.take() {
            None => {},
            Some(was) => {
                let count: usize = was.matches.len();
                let current: usize = if count == 0 {
                    was.current
                } else if was.current + 1 < count {
                    was.current + 1
                } else {
                    0
                };
                proof {
                    if count > 0 {
                        lemma_next_wraps(was.current as int, count as int);
                    }
                }
                self.search = Some(SearchState { current, ..was });
                self.select_current_match();
            },
        }
    }

    /// Move to the previous match, wrapping past the first to the last.
    pub fn search_prev(&mut self)
        requires
            old(self).search matches Some(s) ==> s.wf(),
        ensures
            old(self).same_but_search(*final(self)),
            match (old(self).search, final(self).search) {
                (Some(was), Some(s)) => {
                    &&& s.wf()
                    &&& s.matches == was.matches && s.origin == was.origin && s.len == was.len
                    &&& s.current == if was.matches@.len() == 0 {
                        was.current as int
                    } else {
                        (was.current + was.matches@.len() - 1) % (was.matches@.len() as int)
                    }
                    &&& old(self).match_selected(s, *final(self))
                },
                (None, None) => final(self).caret() == old(self).caret(),
                _ => false,
            },
    {
        match self.search.take() {
            None => {},
            Some(was) => {
                let count: usize = was.matches.len();
                let current: usize = if count == 0 {
                    was.current
                } else if was.current == 0 {
                    count - 1
                } else {
                    was.current - 1
                };
                proof {
                    if count > 0 {
                        lemma_prev_wraps(was.current as int, count as int);
                    }
                }
                self.search = Some(SearchState { current, ..was });
                self.select_current_match();
            },
        }
    }

    /// Confirm the search: drop the search state but leave the match selected.
    pub fn search_commit(&mut self)
        ensures
            old(self).same_but_search(*final(self)),
            final(self).caret() == old(self).caret(),
            final(self).search is None,
    {
        self.search = None;
    }

    /// Abandon the search: restore the origin cursor and clear the selection.
    pub fn search_cancel(&mut self)
        ensures
            old(self).same_but_search(*final(self)),
            final(self).search is None,
            match old(self).search {
                Some(s) => {
                    &&& final(self).cursor == cursor_at(s.origin.line as int, s.origin.col as int)
                    &&& final(self).anchor is None
                },
                None => final(self).caret() == old(self).caret(),
            },
    {
        match self.search.take() {
            Some(s) => {
                self.cursor =
                Cursor { line: s.origin.line, col: s.origin.col, target_col: s.origin.col };
                self.anchor = None;
            },
            None => {},
        }
    }

    /// Select the current match by spanning it: anchor at its start, cursor at
    /// its end, so the existing selection highlight draws it.
    fn select_current_match(&mut self)
        requires
            old(self).search matches Some(s) ==> s.wf(),
        ensures
            old(self).same_but_search(*final(self)),
            final(self).search == old(self).search,
            match old(self).search {
                Some(s) => old(self).match_selected(s, *final(self)),
                None => final(self).caret() == old(self).caret(),
            },
    {
        let target = match &self.search {
            Some(s) => {
                if s.matches.len() == 0 {
                    None
                } else {
                    Some((s.matches[s.current], s.len))
                }
            },
            None => None,
        };
        match target {
            Some(((line, col), len)) => {
                self.anchor = Some((line, col));
                self.cursor = Cursor { line, col: col + len, target_col: col + len };
            },
            None => {},
        }
    }

    /// Move the cursor to the start of 1-based line `n`, clamped to the last
    /// line, clearing any selection.
    pub fn goto_line(&mut self, buffer: &Buffer, n: usize)
        ensures
            final(self).caret() == Caret::placed(
                least(
                    if n == 0 {
                        0
                    } else {
                        n - 1
                    },
                    line_total(buffer@.text) - 1,
                ),
                0,
            ),
            final(self).secondary == old(self).secondary,
            same_but_carets(*old(self), *final(self)),
    {
        let wanted: usize = if n == 0 {
            0
        } else {
            n - 1
        };
        let last: usize = buffer.line_count() - 1;
        let line: usize = if wanted <= last {
            wanted
        } else {
            last
        };
        self.cursor = Cursor { line, col: 0, target_col: 0 };
        self.anchor = None;
    }

    /// The primary caret's current `(line, col)`, for snapshotting a jump origin.
    pub fn cursor_line_col(&self) -> (r: (usize, usize))
        ensures
            r == self.caret().at(),
    {
        (self.cursor.line, self.cursor.col)
    }

    /// Move the primary caret to `(line, col)`, clamped into `buffer` (line to
    /// the last line, col to that line's length), clearing any selection and
    /// collapsing secondary carets.
    pub fn set_cursor(&mut self, buffer: &Buffer, line: usize, col: usize)
        ensures
            ({
                let l = least(line as int, line_total(buffer@.text) - 1);
                let c = least(col as int, line_content(buffer@.text, l).len() as int);
                old(self).caret_put(*final(self), l, c)
            }),
    {
        self.collapse_carets();
        let last: usize = buffer.line_count() - 1;
        let line: usize = if line <= last {
            line
        } else {
            last
        };
        let len: usize = buffer.line_len_chars(line);
        let col: usize = if col <= len {
            col
        } else {
            len
        };
        self.cursor = Cursor { line, col, target_col: col };
        self.anchor = None;
    }

    // --- autocomplete ------------------------------------------------------

    /// Accept a completion: replace the word-prefix spanning from `prefix_start`
    /// to the cursor with `word`, leaving the cursor at the end of the inserted
    /// word. The swap is a single undo step.
    pub fn complete_accept(
        &mut self,
        buffer: &mut Buffer,
        prefix_start: (usize, usize),
        word: &str,
    )
        requires
            old(buffer).wf(),
            can_complete(old(buffer)@.text, prefix_start, old(self).caret().at(), word@),
        ensures
            final(buffer).wf(),
            final(buffer)@ == completed(
                old(buffer)@,
                prefix_start,
                old(self).caret().at(),
                word@,
            ),
            ({
                let p = position_of(
                    final(buffer)@.text,
                    (index_at(old(buffer)@.text, prefix_start) + word@.len()) as int,
                );
                &&& final(self).caret() == Caret::placed(p.0, p.1)
                &&& final(self).secondary == old(self).secondary
                &&& same_but_carets(*old(self), *final(self))
            }),
    {
        proof {
            lemma_line_start_at_least_zero(buffer@.text, prefix_start.0 as int);
            lemma_line_start_at_least_zero(buffer@.text, self.cursor.line as int);
        }
        let start: usize = buffer.char_idx(prefix_start.0, prefix_start.1);
        let end: usize = buffer.char_idx(self.cursor.line, self.cursor.col);
        buffer.finalize();
        buffer.begin_edit(start);
        if start < end {
            buffer.remove(start, end);
        }
        buffer.insert(start, word);
        buffer.finalize();
        let (line, col) = buffer.line_col(start + word.unicode_len());
        self.cursor = Cursor { line, col, target_col: col };
        self.anchor = None;
    }
}

/// What accepting a completion makes of the buffer: the characters from the
/// start of the word to the cursor become `word`, as a step of its own.
pub open spec fn completed(
    b: BufferState,
    start: (usize, usize),
    cursor: (usize, usize),
    word: Seq<char>,
) -> BufferState {
    let s = index_at(b.text, start);
    let e = index_at(b.text, cursor);
    let ready = BufferState { pending: s, ..b.finalized() };
    let cut = if s < e {
        ready.edited(Op::Remove { at: s, text: b.text.subrange(s as int, e as int) })
    } else {
        ready
    };
    cut.edited(Op::Insert { at: s, text: word }).finalized()
}

/// Whether a completion can be accepted: both ends have an index within the
/// text, and the text stays indexable.
pub open spec fn can_complete(
    t: Seq<char>,
    start: (usize, usize),
    cursor: (usize, usize),
    word: Seq<char>,
) -> bool {
    let s = index_at(t, start);
    let e = index_at(t, cursor);
    let left = if s < e {
        t.len() - (e - s)
    } else {
        t.len() as int
    };
    &&& has_index(t, start)
    &&& has_index(t, cursor)
    &&& s < e ==> e <= t.len()
    &&& s <= left
    &&& left + word.len() <= usize::MAX
}

/// Accepting a completion is one undo step: undoing it gives the text back.
pub proof fn completion_is_one_step(
    b: BufferState,
    start: (usize, usize),
    cursor: (usize, usize),
    word: Seq<char>,
)
    requires
        b.wf(),
        can_complete(b.text, start, cursor, word),
    ensures
        completed(b, start, cursor, word).undone().text == b.text,
        completed(b, start, cursor, word).undone().undo == b.finalized().undo,
        completed(b, start, cursor, word).finalized().undo.last().before == index_at(
            b.text,
            start,
        ),
{
    lemma_line_start_at_least_zero(b.text, start.0 as int);
    lemma_line_start_at_least_zero(b.text, cursor.0 as int);
    let s = index_at(b.text, start);
    let e = index_at(b.text, cursor);
    let ready = BufferState { pending: s, ..b.finalized() };
    crate::buffer::origin_is_kept(b, Op::Insert { at: 0, text: Seq::empty() });
    assert(ready.wf());
    let insert = Op::Insert { at: s, text: word };
    if s < e {
        let remove = Op::Remove { at: s, text: b.text.subrange(s as int, e as int) };
        crate::buffer::origin_is_kept(ready, remove);
        let cut = ready.edited(remove);
        assert(remove.continued_by(insert));
        assert(cut.open->0.ops =~= seq![remove]);
        crate::buffer::run_of_edits_then_undo(cut, insert);
        crate::buffer::edit_then_undo(ready, remove);
        crate::buffer::origin_is_kept(cut, insert);
    } else {
        crate::buffer::edit_then_undo(ready, insert);
    }
    let swapped = if s < e {
        ready.edited(Op::Remove { at: s, text: b.text.subrange(s as int, e as int) }).edited(insert)
    } else {
        ready.edited(insert)
    };
    assert(swapped.finalized().undone() == swapped.undone());
}

/// Accepting a completion puts the word in the place of what was typed of it,
/// from where the word starts to the cursor; the rest of the text stays.
pub proof fn completion_replaces_the_prefix(
    b: BufferState,
    start: (usize, usize),
    cursor: (usize, usize),
    word: Seq<char>,
)
    requires
        can_complete(b.text, start, cursor, word),
        index_at(b.text, start) <= index_at(b.text, cursor) <= b.text.len(),
    ensures
        completed(b, start, cursor, word).text == b.text.take(index_at(b.text, start) as int) + word
            + b.text.skip(index_at(b.text, cursor) as int),
        completed(b, start, cursor, word).dirty,
        completed(b, start, cursor, word).path == b.path,
{
    let t = b.text;
    let s = index_at(t, start) as int;
    let e = index_at(t, cursor) as int;
    if s < e {
        assert(t.subrange(s, e).len() == e - s);
        let u = t.take(s) + t.skip(e);
        assert(u.take(s) =~= t.take(s));
        assert(u.skip(s) =~= t.skip(e));
    }
}

// ---------------------------------------------------------------------------
// Searching.

/// An ASCII capital letter becomes the small one; any other character stays.
pub open spec fn folded(c: char) -> char {
    if 'A' <= c && c <= 'Z' {
        ((c as int) + 32) as char
    } else {
        c
    }
}

/// An ASCII capital letter as the small one; any other character as it is.
pub fn fold(c: char) -> (r: char)
    ensures
        r == folded(c),
{
    if 'A' <= c && c <= 'Z' {
        ((c as u8) + 32) as char
    } else {
        c
    }
}

/// Whether `needle` stands in `hay` at `i`, but for the case of ASCII letters.
pub open spec fn matches_at(hay: Seq<char>, needle: Seq<char>, i: int) -> bool {
    &&& 0 <= i
    &&& i + needle.len() <= hay.len()
    &&& forall|k: int|
        0 <= k < needle.len() ==> folded(hay[i + k]) == folded(#[trigger] needle[k])
}

/// The matches in one line that start before column `n`, in order.
pub open spec fn line_matches(hay: Seq<char>, needle: Seq<char>, line: int, n: int) -> Seq<
    (usize, usize),
>
    decreases n,
{
    if n <= 0 {
        Seq::empty()
    } else {
        let rest = line_matches(hay, needle, line, n - 1);
        if matches_at(hay, needle, n - 1) {
            rest.push((line as usize, (n - 1) as usize))
        } else {
            rest
        }
    }
}

/// The matches in the first `lines` lines, in order.
pub open spec fn matches_in(t: Seq<char>, needle: Seq<char>, lines: int) -> Seq<(usize, usize)>
    decreases lines,
{
    if lines <= 0 {
        Seq::empty()
    } else {
        let hay = line_content(t, lines - 1);
        matches_in(t, needle, lines - 1) + line_matches(hay, needle, lines - 1, hay.len() as int)
    }
}

/// Every place where `needle` matches within a line, in buffer order; nothing
/// for an empty needle.
pub open spec fn all_matches(t: Seq<char>, needle: Seq<char>) -> Seq<(usize, usize)> {
    if needle.len() == 0 {
        Seq::empty()
    } else {
        matches_in(t, needle, line_total(t) as int)
    }
}

fn matches_here(hay: &Vec<char>, needle: &Vec<char>, i: usize) -> (r: bool)
    requires
        i + needle@.len() <= hay@.len(),
    ensures
        r == matches_at(hay@, needle@, i as int),
{
    let mut k: usize = 0;
    let end: usize = hay.len();
    while k < needle.len()
        invariant
            k <= needle@.len(),
            i + needle@.len() <= hay@.len() == end,
            forall|j: int| 0 <= j < k ==> folded(hay@[i + j]) == folded(#[trigger] needle@[j]),
        decreases needle@.len() - k,
    {
        if fold(hay[i + k]) != fold(needle[k]) {
            assert(folded(hay@[i + k]) != folded(needle@[k as int]));
            return false;
        }
        k += 1;
    }
    true
}

/// All `(line, col)` starts where `query` matches case-insensitively (ASCII
/// case folding). Matching works in character columns so highlight positions
/// line up with the char-based cursor. A query never spans a newline, so every
/// match is contained within a single line.
pub fn find_matches(buffer: &Buffer, query: &str) -> (r: Vec<(usize, usize)>)
    ensures
        r@ == all_matches(buffer@.text, query@),
{
    let needle = chars_of(query);
    let mut out: Vec<(usize, usize)> = Vec::new();
    if needle.len() == 0 {
        return out;
    }
    let lines: usize = buffer.line_count();
    let mut line: usize = 0;
    while line < lines
        invariant
            line <= lines,
            lines == line_total(buffer@.text),
            needle@ == query@,
            needle@.len() > 0,
            out@ == matches_in(buffer@.text, query@, line as int),
        decreases lines - line,
    {
        let hay = chars_of(buffer.line_text(line).as_str());
        let ghost before = out@;
        let mut i: usize = 0;
        assert(before + line_matches(hay@, needle@, line as int, 0) =~= before);
        while i < hay.len()
            invariant
                i <= hay@.len(),
                needle@.len() > 0,
                out@ == before + line_matches(hay@, needle@, line as int, i as int),
            decreases hay@.len() - i,
        {
            let ghost found = line_matches(hay@, needle@, line as int, i as int);
            if needle.len() <= hay.len() - i && matches_here(&hay, &needle, i) {
                out.push((line, i));
                assert(out@ =~= before + found.push((line, i)));
            }
            i += 1;
        }
        line += 1;
    }
    out
}

/// The first of the matches at or after `p`.
pub open spec fn first_from(m: Seq<(usize, usize)>, p: (usize, usize)) -> Option<usize>
    decreases m.len(),
{
    if m.len() == 0 {
        None
    } else {
        match first_from(m.drop_last(), p) {
            Some(k) => Some(k),
            None => if before(m.last(), p) {
                None
            } else {
                Some((m.len() - 1) as usize)
            },
        }
    }
}

proof fn lemma_first_from(m: Seq<(usize, usize)>, p: (usize, usize))
    requires
        m.len() <= usize::MAX,
    ensures
        match first_from(m, p) {
            Some(k) => k < m.len() && !before(m[k as int], p) && forall|i: int|
                0 <= i < k ==> before(#[trigger] m[i], p),
            None => forall|i: int| 0 <= i < m.len() ==> before(#[trigger] m[i], p),
        },
    decreases m.len(),
{
    if m.len() > 0 {
        let rest = m.drop_last();
        lemma_first_from(rest, p);
        assert forall|i: int| 0 <= i < rest.len() implies rest[i] == #[trigger] m[i] by {}
    }
}

/// Index of the first match at or after `pos` in a buffer-ordered match list,
/// or `None` if every match precedes `pos`.
pub fn nearest_at_or_after(matches: &[(usize, usize)], pos: (usize, usize)) -> (r: Option<usize>)
    ensures
        r == first_from(matches@, pos),
{
    let mut i: usize = 0;
    let count: usize = matches.len();
    proof {
        lemma_first_from(matches@, pos);
    }
    while i < count
        invariant
            i <= count == matches@.len(),
            forall|j: int| 0 <= j < i ==> before(#[trigger] matches@[j], pos),
            match first_from(matches@, pos) {
                Some(k) => k < matches@.len() && !before(matches@[k as int], pos) && forall|j: int|
                    0 <= j < k ==> before(#[trigger] matches@[j], pos),
                None => forall|j: int| 0 <= j < matches@.len() ==> before(#[trigger] matches@[j], pos),
            },
        decreases matches@.len() - i,
    {
        if !is_before(matches[i], pos) {
            return Some(i);
        }
        i += 1;
    }
    None
}

proof fn lemma_line_matches_fit(hay: Seq<char>, needle: Seq<char>, line: int, n: int)
    requires
        hay.len() <= usize::MAX,
    ensures
        forall|i: int|
            0 <= i < line_matches(hay, needle, line, n).len() ==> (#[trigger] line_matches(
                hay,
                needle,
                line,
                n,
            )[i]).1 + needle.len() <= usize::MAX,
    decreases n,
{
    if n > 0 {
        lemma_line_matches_fit(hay, needle, line, n - 1);
        let rest = line_matches(hay, needle, line, n - 1);
        let m = line_matches(hay, needle, line, n);
        assert forall|i: int| 0 <= i < m.len() implies (#[trigger] m[i]).1 + needle.len()
            <= usize::MAX by {
            if i < rest.len() {
                assert(m[i] == rest[i]);
            }
        }
    }
}

/// Every match ends at a column the machine can hold.
proof fn lemma_matches_fit(t: Seq<char>, needle: Seq<char>, lines: int)
    requires
        t.len() <= usize::MAX,
    ensures
        forall|i: int|
            0 <= i < matches_in(t, needle, lines).len() ==> (#[trigger] matches_in(
                t,
                needle,
                lines,
            )[i]).1 + needle.len() <= usize::MAX,
    decreases lines,
{
    if lines > 0 {
        lemma_matches_fit(t, needle, lines - 1);
        let hay = line_content(t, lines - 1);
        crate::motion::lemma_content_len(t, lines - 1);
        lemma_line_matches_fit(hay, needle, lines - 1, hay.len() as int);
        let a = matches_in(t, needle, lines - 1);
        let b = line_matches(hay, needle, lines - 1, hay.len() as int);
        assert forall|i: int| 0 <= i < (a + b).len() implies (#[trigger] (a + b)[i]).1
            + needle.len() <= usize::MAX by {
            if i < a.len() {
                assert((a + b)[i] == a[i]);
            } else {
                assert((a + b)[i] == b[i - a.len()]);
            }
        }
    }
}

/// Whether two characters are one, but for the case of an ASCII letter: the
/// small letter is 32 places behind the capital one.
pub open spec fn same_letter(a: char, b: char) -> bool {
    ||| a == b
    ||| 'A' <= a <= 'Z' && b as int == a as int + 32
    ||| 'A' <= b <= 'Z' && a as int == b as int + 32
}

/// Whether two texts are one, but for the case of ASCII letters.
pub open spec fn same_letters(a: Seq<char>, b: Seq<char>) -> bool {
    &&& a.len() == b.len()
    &&& forall|k: int| 0 <= k < a.len() ==> same_letter(#[trigger] a[k], b[k])
}

pub(crate) proof fn lemma_folded(a: char, b: char)
    ensures
        same_letter(a, b) <==> folded(a) == folded(b),
{
}

proof fn lemma_matches_at(hay: Seq<char>, needle: Seq<char>, i: int)
    ensures
        matches_at(hay, needle, i) <==> 0 <= i && i + needle.len() <= hay.len() && same_letters(
            hay.subrange(i, i + needle.len()),
            needle,
        ),
{
    if 0 <= i && i + needle.len() <= hay.len() {
        let part = hay.subrange(i, i + needle.len());
        assert forall|k: int| 0 <= k < needle.len() implies same_letter(part[k], needle[k]) == (
        folded(hay[i + k]) == folded(#[trigger] needle[k])) by {
            assert(part[k] == hay[i + k]);
            lemma_folded(part[k], needle[k]);
        }
        if matches_at(hay, needle, i) {
            assert forall|k: int| 0 <= k < part.len() implies same_letter(
                #[trigger] part[k],
                needle[k],
            ) by {
                assert(folded(hay[i + k]) == folded(needle[k]));
            }
        }
        if same_letters(part, needle) {
            assert forall|k: int| 0 <= k < needle.len() implies folded(hay[i + k]) == folded(
                #[trigger] needle[k],
            ) by {
                assert(same_letter(part[k], needle[k]));
            }
        }
    }
}

proof fn lemma_line_matches(hay: Seq<char>, needle: Seq<char>, line: int, n: int)
    requires
        0 <= n <= hay.len() <= usize::MAX,
        0 <= line <= usize::MAX,
    ensures
        forall|m: (usize, usize)|
            #![trigger line_matches(hay, needle, line, n).contains(m)]
            line_matches(hay, needle, line, n).contains(m) <==> m.0 == line && m.1 < n && matches_at(
                hay,
                needle,
                m.1 as int,
            ),
        forall|i: int, j: int|
            0 <= i < j < line_matches(hay, needle, line, n).len() ==> (#[trigger] line_matches(
                hay,
                needle,
                line,
                n,
            )[i]).1 < (#[trigger] line_matches(hay, needle, line, n)[j]).1,
    decreases n,
{
    if n > 0 {
        lemma_line_matches(hay, needle, line, n - 1);
        let rest = line_matches(hay, needle, line, n - 1);
        let all = line_matches(hay, needle, line, n);
        let new = (line as usize, (n - 1) as usize);
        assert forall|m: (usize, usize)| #![trigger all.contains(m)] all.contains(m) <==> m.0 == line
            && m.1 < n && matches_at(hay, needle, m.1 as int) by {
            assert(rest.contains(m) <==> m.0 == line && m.1 < n - 1 && matches_at(
                hay,
                needle,
                m.1 as int,
            ));
            if all.contains(m) {
                let k = choose|k: int| 0 <= k < all.len() && all[k] == m;
                if k < rest.len() {
                    assert(rest[k] == m);
                }
            }
            if rest.contains(m) {
                let k = choose|k: int| 0 <= k < rest.len() && rest[k] == m;
                assert(all[k] == m);
            }
            if m == new && matches_at(hay, needle, n - 1) {
                assert(all[rest.len() as int] == m);
            }
        }
        assert forall|i: int, j: int| 0 <= i < j < all.len() implies (#[trigger] all[i]).1 < (
        #[trigger] all[j]).1 by {
            assert(all[i] == rest[i]);
            assert(rest.contains(rest[i]));
            if j < rest.len() {
                assert(all[j] == rest[j]);
            }
        }
    }
}

proof fn lemma_matches_in(t: Seq<char>, needle: Seq<char>, lines: int)
    requires
        t.len() < usize::MAX,
        0 <= lines <= line_total(t),
    ensures
        forall|m: (usize, usize)|
            #![trigger matches_in(t, needle, lines).contains(m)]
            matches_in(t, needle, lines).contains(m) <==> m.0 < lines && m.1 < line_content(
                t,
                m.0 as int,
            ).len() && matches_at(line_content(t, m.0 as int), needle, m.1 as int),
        forall|i: int, j: int|
            0 <= i < j < matches_in(t, needle, lines).len() ==> before(
                #[trigger] matches_in(t, needle, lines)[i],
                #[trigger] matches_in(t, needle, lines)[j],
            ),
    decreases lines,
{
    if lines > 0 {
        let line = lines - 1;
        let hay = line_content(t, line);
        crate::motion::lemma_content_len(t, line);
        crate::rope::lemma_breaks_monotone(t, 0, t.len() as int);
        lemma_matches_in(t, needle, line);
        lemma_line_matches(hay, needle, line, hay.len() as int);
        let a = matches_in(t, needle, line);
        let b = line_matches(hay, needle, line, hay.len() as int);
        let all = matches_in(t, needle, lines);
        assert(all == a + b);
        assert forall|m: (usize, usize)| #![trigger all.contains(m)] all.contains(m) <==> m.0 < lines
            && m.1 < line_content(t, m.0 as int).len() && matches_at(
            line_content(t, m.0 as int),
            needle,
            m.1 as int,
        ) by {
            if all.contains(m) {
                let k = choose|k: int| 0 <= k < all.len() && all[k] == m;
                if k < a.len() {
                    assert(a[k] == m);
                    assert(a.contains(m));
                } else {
                    assert(b[k - a.len()] == m);
                    assert(b.contains(m));
                }
            }
            assert(a.contains(m) ==> all.contains(m)) by {
                if a.contains(m) {
                    let k = choose|k: int| 0 <= k < a.len() && a[k] == m;
                    assert(all[k] == m);
                }
            }
            assert(b.contains(m) ==> all.contains(m)) by {
                if b.contains(m) {
                    let k = choose|k: int| 0 <= k < b.len() && b[k] == m;
                    assert(all[a.len() + k] == m);
                }
            }
            if m.0 < line {
                assert(a.contains(m) <==> m.1 < line_content(t, m.0 as int).len() && matches_at(
                    line_content(t, m.0 as int),
                    needle,
                    m.1 as int,
                ));
            } else if m.0 == line {
                assert(b.contains(m) <==> m.1 < hay.len() && matches_at(hay, needle, m.1 as int));
            }
        }
        assert forall|i: int, j: int| 0 <= i < j < all.len() implies before(
            #[trigger] all[i],
            #[trigger] all[j],
        ) by {
            if i < a.len() {
                assert(all[i] == a[i]);
                assert(a.contains(a[i]));
                if j < a.len() {
                    assert(all[j] == a[j]);
                } else {
                    assert(all[j] == b[j - a.len()]);
                    assert(b.contains(b[j - a.len()]));
                }
            } else {
                assert(all[i] == b[i - a.len()]);
                assert(all[j] == b[j - a.len()]);
                assert(b.contains(b[i - a.len()]));
                assert(b.contains(b[j - a.len()]));
            }
        }
    }
}

/// A search finds the query, but for the case of ASCII letters, wherever it
/// stands in the content of a line, and nothing else; the matches come in the
/// order of their lines and columns, each once.
pub proof fn search_finds_every_place(t: Seq<char>, query: Seq<char>)
    requires
        t.len() < usize::MAX,
        query.len() > 0,
    ensures
        forall|m: (usize, usize)|
            #![trigger all_matches(t, query).contains(m)]
            all_matches(t, query).contains(m) <==> {
                &&& m.0 < line_total(t)
                &&& m.1 + query.len() <= line_content(t, m.0 as int).len()
                &&& same_letters(
                    line_content(t, m.0 as int).subrange(m.1 as int, m.1 + query.len()),
                    query,
                )
            },
        forall|i: int, j: int|
            #![trigger all_matches(t, query)[i], all_matches(t, query)[j]]
            0 <= i < j < all_matches(t, query).len() ==> {
                let (a, b) = (all_matches(t, query)[i], all_matches(t, query)[j]);
                a.0 < b.0 || (a.0 == b.0 && a.1 < b.1)
            },
{
    lemma_matches_in(t, query, line_total(t) as int);
    assert forall|m: (usize, usize)|
        #![trigger all_matches(t, query).contains(m)]
        all_matches(t, query).contains(m) <==> {
            &&& m.0 < line_total(t)
            &&& m.1 + query.len() <= line_content(t, m.0 as int).len()
            &&& same_letters(
                line_content(t, m.0 as int).subrange(m.1 as int, m.1 + query.len()),
                query,
            )
        } by {
        lemma_matches_at(line_content(t, m.0 as int), query, m.1 as int);
        assert(matches_in(t, query, line_total(t) as int).contains(m) == all_matches(
            t,
            query,
        ).contains(m));
    }
    assert forall|i: int, j: int|
        #![trigger all_matches(t, query)[i], all_matches(t, query)[j]]
        0 <= i < j < all_matches(t, query).len() implies ({
        let (a, b) = (all_matches(t, query)[i], all_matches(t, query)[j]);
        a.0 < b.0 || (a.0 == b.0 && a.1 < b.1)
    }) by {
        let m = matches_in(t, query, line_total(t) as int);
        assert(before(m[i], m[j]));
    }
}

/// The matches do not depend on the case of the ASCII letters of the query, nor
/// does a query without characters have any.
pub proof fn search_ignores_case(t: Seq<char>, a: Seq<char>, b: Seq<char>)
    requires
        same_letters(a, b),
    ensures
        all_matches(t, a) == all_matches(t, b),
        a.len() == 0 ==> all_matches(t, a) == Seq::<(usize, usize)>::empty(),
{
    lemma_same_matches(t, a, b, line_total(t) as int);
}

proof fn lemma_same_line_matches(hay: Seq<char>, a: Seq<char>, b: Seq<char>, line: int, n: int)
    requires
        same_letters(a, b),
    ensures
        line_matches(hay, a, line, n) == line_matches(hay, b, line, n),
    decreases n,
{
    if n > 0 {
        lemma_same_line_matches(hay, a, b, line, n - 1);
        assert forall|k: int| 0 <= k < a.len() implies folded(#[trigger] a[k]) == folded(b[k]) by {
            lemma_folded(a[k], b[k]);
        }
        if matches_at(hay, a, n - 1) {
            assert forall|k: int| 0 <= k < b.len() implies folded(hay[n - 1 + k]) == folded(
                #[trigger] b[k],
            ) by {
                assert(folded(a[k]) == folded(b[k]));
            }
        }
        if matches_at(hay, b, n - 1) {
            assert forall|k: int| 0 <= k < a.len() implies folded(hay[n - 1 + k]) == folded(
                #[trigger] a[k],
            ) by {
                assert(folded(hay[n - 1 + k]) == folded(b[k]));
            }
        }
    }
}

proof fn lemma_same_matches(t: Seq<char>, a: Seq<char>, b: Seq<char>, lines: int)
    requires
        same_letters(a, b),
    ensures
        matches_in(t, a, lines) == matches_in(t, b, lines),
    decreases lines,
{
    if lines > 0 {
        lemma_same_matches(t, a, b, lines - 1);
        let hay = line_content(t, lines - 1);
        lemma_same_line_matches(hay, a, b, lines - 1, hay.len() as int);
    }
}

/// A query that stands somewhere in the text, letter for letter or in another
/// case, and holds no line break, is found there: at the line and the column of
/// its first character.
pub proof fn search_finds_what_stands_there(t: Seq<char>, query: Seq<char>, i: int)
    requires
        t.len() < usize::MAX,
        0 < query.len(),
        0 <= i,
        i + query.len() <= t.len(),
        same_letters(t.subrange(i, i + query.len()), query),
        forall|k: int| i <= k < i + query.len() ==> !crate::rope::is_break(#[trigger] t[k]),
    ensures
        exists|m: (usize, usize)|
            #[trigger] all_matches(t, query).contains(m) && crate::rope::line_start(t, m.0 as int)
                + m.1 == i,
{
    let n = crate::rope::breaks_before(t, i) as int;
    let last = i + query.len() - 1;
    lemma_no_breaks(t, i, last);
    crate::rope::lemma_breaks_monotone(t, 0, t.len() as int);
    crate::rope::lemma_own_line(t, i);
    crate::rope::lemma_position_on_line(t, n, i);
    crate::rope::lemma_position_on_line(t, n, last);
    crate::rope::lemma_line_bounds(t, n);
    let start = crate::rope::line_start(t, n);
    let whole = crate::rope::line_with_break(t, n);
    crate::text::lemma_trim_line_end_prefix(whole);
    let content = line_content(t, n);
    let col = i - start;
    assert(whole[last - start] == t[last]);
    assert(last - start < content.len());
    assert(content.subrange(col, col + query.len()) =~= t.subrange(i, i + query.len()));
    let m = (n as usize, col as usize);
    search_finds_every_place(t, query);
    assert(all_matches(t, query).contains(m));
}

proof fn lemma_no_breaks(t: Seq<char>, i: int, j: int)
    requires
        0 <= i <= j <= t.len(),
        forall|k: int| i <= k < j ==> !crate::rope::is_break(#[trigger] t[k]),
    ensures
        crate::rope::breaks_before(t, j) == crate::rope::breaks_before(t, i),
    decreases j,
{
    if i < j {
        lemma_no_breaks(t, i, j - 1);
        assert(!crate::rope::is_break(t[j - 1]));
    }
}

/// A search goes to the first match at or behind the place where it began: the
/// matches before that one all lie before that place. There is none exactly if
/// every match lies before it.
pub proof fn search_goes_on_from_where_it_began(m: Seq<(usize, usize)>, p: (usize, usize))
    requires
        m.len() <= usize::MAX,
    ensures
        first_from(m, p) matches Some(k) ==> {
            &&& k < m.len()
            &&& m[k as int].0 > p.0 || (m[k as int].0 == p.0 && m[k as int].1 >= p.1)
            &&& forall|i: int|
                0 <= i < k ==> (#[trigger] m[i]).0 < p.0 || (m[i].0 == p.0 && m[i].1 < p.1)
        },
        first_from(m, p) is None <==> forall|i: int|
            0 <= i < m.len() ==> (#[trigger] m[i]).0 < p.0 || (m[i].0 == p.0 && m[i].1 < p.1),
{
    lemma_first_from(m, p);
    if first_from(m, p) is None {
        assert forall|i: int| 0 <= i < m.len() implies (#[trigger] m[i]).0 < p.0 || (m[i].0 == p.0
            && m[i].1 < p.1) by {
            assert(before(m[i], p));
        }
    } else {
        let k = first_from(m, p)->0 as int;
        assert forall|i: int| 0 <= i < k implies (#[trigger] m[i]).0 < p.0 || (m[i].0 == p.0
            && m[i].1 < p.1) by {
            assert(before(m[i], p));
        }
        assert(!before(m[k], p));
    }
}

pub(crate) proof fn lemma_next_wraps(i: int, n: int)
    requires
        0 <= i < n,
    ensures
        (i + 1) % n == if i + 1 < n {
            i + 1
        } else {
            0
        },
{
    if i + 1 < n {
        vstd::arithmetic::div_mod::lemma_small_mod((i + 1) as nat, n as nat);
    } else {
        vstd::arithmetic::div_mod::lemma_mod_self_0(n);
    }
}

pub(crate) proof fn lemma_prev_wraps(i: int, n: int)
    requires
        0 <= i < n,
    ensures
        (i + n - 1) % n == if i == 0 {
            n - 1
        } else {
            i - 1
        },
{
    if i == 0 {
        vstd::arithmetic::div_mod::lemma_small_mod((n - 1) as nat, n as nat);
    } else {
        vstd::arithmetic::div_mod::lemma_small_mod((i - 1) as nat, n as nat);
        vstd::arithmetic::div_mod::lemma_mod_add_multiples_vanish(i - 1, n);
        assert((n + (i - 1)) % n == (i - 1) % n);
    }
}

/// The next match after the previous one is the one that was current, and the
/// other way round: stepping through the matches goes round in a circle.
pub proof fn next_and_prev_undo_each_other(i: int, n: int)
    requires
        0 <= i < n,
    ensures
        ((i + 1) % n + n - 1) % n == i,
        ((i + n - 1) % n + 1) % n == i,
{
    lemma_next_wraps(i, n);
    lemma_prev_wraps(i, n);
    lemma_prev_wraps((i + 1) % n, n);
    lemma_next_wraps((i + n - 1) % n, n);
}

// ---------------------------------------------------------------------------
// The view.

/// The scroll offset that keeps the cursor visible while moving as little as
/// possible.
pub open spec fn scrolled(scroll: int, cursor: int, viewport: int) -> int {
    if viewport == 0 {
        scroll
    } else if cursor < scroll {
        cursor
    } else if cursor >= scroll + viewport {
        cursor + 1 - viewport
    } else {
        scroll
    }
}

/// Whether the sums that scrolling takes can be held by the machine.
pub open spec fn can_scroll(scroll: usize, cursor: usize, viewport: usize) -> bool {
    viewport > 0 && scroll <= cursor ==> {
        &&& scroll + viewport <= usize::MAX
        &&& scroll + viewport <= cursor ==> cursor < usize::MAX
    }
}

/// Given the current scroll offset, the cursor index, and the viewport size on
/// one axis, return the scroll offset that keeps the cursor visible while
/// moving as little as possible.
pub fn scroll_to_show(scroll: usize, cursor: usize, viewport: usize) -> (r: usize)
    requires
        can_scroll(scroll, cursor, viewport),
    ensures
        r == scrolled(scroll as int, cursor as int, viewport as int),
{
    if viewport == 0 {
        return scroll;
    }
    if cursor < scroll {
        cursor
    } else if cursor >= scroll + viewport {
        cursor + 1 - viewport
    } else {
        scroll
    }
}

/// After scrolling, the cursor is in the viewport, and scrolling again changes
/// nothing; no offset that shows the cursor is nearer to the old one.
pub proof fn scrolling_shows_the_cursor(scroll: int, cursor: int, viewport: int, other: int)
    requires
        0 <= scroll,
        0 <= cursor,
        0 < viewport,
        0 <= other <= cursor < other + viewport,
    ensures
        ({
            let s = scrolled(scroll, cursor, viewport);
            &&& 0 <= s <= cursor < s + viewport
            &&& scrolled(s, cursor, viewport) == s
            &&& (if s >= scroll { s - scroll } else { scroll - s }) <= (if other >= scroll {
                other - scroll
            } else {
                scroll - other
            })
        }),
{
}

/// The number of digits of a line count, but at least three.
pub open spec fn number_width(lines: nat) -> nat {
    if decimal(lines).len() >= 3 {
        decimal(lines).len()
    } else {
        3
    }
}

/// Width (in digits) reserved for line numbers, given the line count. A floor
/// of 3 keeps the gutter from jittering on small files.
pub fn gutter_num_width(line_count: usize) -> (r: usize)
    ensures
        r == number_width(line_count as nat),
{
    let digits: usize = decimal_string(line_count as u64).as_str().unicode_len();
    if digits >= 3 {
        digits
    } else {
        3
    }
}

proof fn lemma_line_start_at_least_zero(t: Seq<char>, n: int)
    ensures
        0 <= crate::rope::line_start(t, n) <= t.len(),
{
    crate::rope::lemma_seek_line(t, n, 0);
}

pub(crate) proof fn lemma_run_places(b: crate::fan_out::Batch, slots: Seq<crate::fan_out::Slot>)
    requires
        forall|i: int| 0 <= i < slots.len() ==> (#[trigger] slots[i]).slot < b.places.len(),
    ensures
        b.run(slots).places.len() == b.places.len(),
    decreases slots.len(),
{
    if slots.len() > 0 {
        let rest = slots.drop_last();
        assert forall|i: int| 0 <= i < rest.len() implies (#[trigger] rest[i]).slot
            < b.places.len() by {
            assert(rest[i] == slots[i]);
        }
        lemma_run_places(b, rest);
        assert(slots[slots.len() - 1].slot < b.places.len());
    }
}

/// The line that carets are added below is that of the lowest caret on the
/// screen, and the one that they are added above that of the highest: it is the
/// line of one of them, and no other caret is beyond it.
pub proof fn outermost_lines(line: usize, carets: Seq<Caret>)
    ensures
        highest_line(line, carets) >= line,
        lowest_line(line, carets) <= line,
        forall|i: int|
            0 <= i < carets.len() ==> lowest_line(line, carets) <= (#[trigger] carets[i]).cursor.line
                <= highest_line(line, carets),
        highest_line(line, carets) == line || exists|i: int|
            0 <= i < carets.len() && (#[trigger] carets[i]).cursor.line == highest_line(
                line,
                carets,
            ),
        lowest_line(line, carets) == line || exists|i: int|
            0 <= i < carets.len() && (#[trigger] carets[i]).cursor.line == lowest_line(line, carets),
    decreases carets.len(),
{
    if carets.len() > 0 {
        let rest = carets.drop_last();
        let n = carets.len() - 1;
        outermost_lines(line, rest);
        assert(carets[n] == carets.last());
        assert forall|i: int| 0 <= i < carets.len() implies lowest_line(line, carets) <= (
        #[trigger] carets[i]).cursor.line <= highest_line(line, carets) by {
            if i < n {
                assert(rest[i] == carets[i]);
            }
        }
        if highest_line(line, rest) != line {
            let i = choose|i: int|
                0 <= i < rest.len() && (#[trigger] rest[i]).cursor.line == highest_line(line, rest);
            assert(carets[i] == rest[i]);
        }
        if lowest_line(line, rest) != line {
            let i = choose|i: int|
                0 <= i < rest.len() && (#[trigger] rest[i]).cursor.line == lowest_line(line, rest);
            assert(carets[i] == rest[i]);
        }
    }
}

/// A caret that is added stands on the line it was added to, in the column that
/// the primary caret wants or at the end of a shorter line, without a selection;
/// the primary caret stays.
pub proof fn added_carets_take_the_target_column(p: EditorPane, q: EditorPane, t: Seq<char>, line: int)
    requires
        p.caret_pushed(q, t, line),
        0 <= line < line_total(t),
        line != p.cursor.line,
        t.len() < usize::MAX,
    ensures
        q.cursor == p.cursor && q.anchor == p.anchor,
        ({
            let len = line_content(t, line).len();
            let col = if p.cursor.target_col <= len {
                p.cursor.target_col as int
            } else {
                len as int
            };
            crate::caret::stands_at(q.secondary@, (line as usize, col as usize))
        }),
        forall|i: int|
            0 <= i < p.secondary@.len() && (#[trigger] p.secondary@[i]).at() != p.caret().at()
                ==> crate::caret::stands_at(q.secondary@, p.secondary@[i].at()),
{
    crate::motion::lemma_content_len(t, line);
    crate::rope::lemma_breaks_monotone(t, 0, t.len() as int);
    let len = line_content(t, line).len();
    let col = least(p.cursor.target_col as int, len as int);
    let c = Caret {
        cursor: Cursor {
            line: line as usize,
            col: col as usize,
            target_col: p.cursor.target_col,
        },
        anchor: None,
    };
    let all = p.secondary@.push(c);
    crate::caret::merged_carets_keep_positions(p.caret().at(), all);
    assert(all[p.secondary@.len() as int] == c);
    assert forall|i: int|
        0 <= i < p.secondary@.len() && (#[trigger] p.secondary@[i]).at()
            != p.caret().at() implies crate::caret::stands_at(
        q.secondary@,
        p.secondary@[i].at(),
    ) by {
        assert(all[i] == p.secondary@[i]);
    }
}

/// Line numbers have room: the gutter has at least three digits and at least as
/// many as the largest number needs, and no more than that.
pub proof fn line_numbers_have_room(lines: nat)
    ensures
        number_width(lines) >= 3,
        number_width(lines) >= decimal(lines).len(),
        number_width(lines) == 3 || number_width(lines) == decimal(lines).len(),
{
}

/// A page is as many rows as were shown last, and one before anything was shown.
pub proof fn a_page_is_what_was_shown(p: EditorPane)
    ensures
        p.last_height > 0 ==> p.page() == p.last_height,
        p.last_height == 0 ==> p.page() == 1,
{
}

/// Where only the carets change, or only the primary caret and the search, what
/// is seen of the pane and what it shows stay as they are.
pub proof fn views_stay_where_they_are(p: EditorPane, q: EditorPane)
    ensures
        same_but_carets(p, q) ==> {
            &&& q.buffer_id == p.buffer_id
            &&& q.scroll_row == p.scroll_row && q.scroll_col == p.scroll_col
            &&& q.last_height == p.last_height && q.cursor_screen == p.cursor_screen
            &&& q.search == p.search
        },
        p.same_but_search(q) ==> {
            &&& q.buffer_id == p.buffer_id
            &&& q.scroll_row == p.scroll_row && q.scroll_col == p.scroll_col
            &&& q.last_height == p.last_height && q.cursor_screen == p.cursor_screen
            &&& q.secondary == p.secondary
        },
{
}

/// The current match is selected, from its first character to behind its last;
/// with no match the caret stays.
pub proof fn the_current_match_is_selected(p: EditorPane, s: SearchState, q: EditorPane)
    requires
        s.wf(),
        p.match_selected(s, q),
    ensures
        s.matches@.len() > 0 ==> ({
            let m = s.matches@[s.current as int];
            &&& q.anchor == Some(m)
            &&& q.cursor.line == m.0
            &&& q.cursor.col == m.1 + s.len
            &&& q.cursor.target_col == q.cursor.col
        }),
        s.matches@.len() == 0 ==> q.cursor == p.cursor && q.anchor == p.anchor,
{
}

/// An edit at a lone caret that starts a step of its own is undone to where the
/// caret stood before it, also where it had something selected.
pub proof fn undo_returns_the_cursor(
    p: EditorPane,
    b: BufferState,
    q: EditorPane,
    c: BufferState,
    ch: char,
)
    requires
        p.secondary@.len() == 0,
        b.open is None,
        ({
            let i = index_at(b.text, p.caret().at());
            let chosen = p.anchor matches Some(a) && index_at(b.text, a) != i && index_at(
                b.text,
                start_of(p.caret()),
            ) <= i && index_at(b.text, start_of(p.caret())) <= index_at(b.text, a);
            ||| p.inserted(b, ch, q, c)
            ||| p.broken(b, q, c)
            ||| p.backspaced(b, q, c) && (p.anchor is None && i > 0 || chosen)
            ||| p.deleted(b, q, c) && (p.anchor is None && i < b.text.len() || chosen)
        }),
    ensures
        c.can_undo(),
        c.finalized().undo.last().before == index_at(b.text, p.caret().at()),
{
    let sel = p.caret().selection();
    if sel is Some {
        let s = index_at(b.text, (sel->0).0);
        let e = index_at(b.text, (sel->0).1);
        let remove = Op::Remove { at: s, text: b.text.subrange(s as int, e as int) };
        let cut = noted(b, p.caret()).edited(remove);
        assert(cut.open->0.ops =~= seq![remove]);
        assert(cut.open->0.ops.last() == remove);
    }
}

/// A movement moves every caret: where a caret would go by itself, one of the
/// carets stands, and every caret that is left is one that went there. With the
/// selection extended each keeps its own anchor, or drops one where it stood;
/// else none has one.
pub proof fn every_caret_moves(
    p: EditorPane,
    q: EditorPane,
    t: Seq<char>,
    mv: Move,
    extend: bool,
    i: int,
)
    requires
        p.moved_to(q, t, mv, extend),
        0 <= i < p.secondary@.len(),
    ensures
        ({
            let m = crate::motion::moved_cursor(t, p.secondary@[i].cursor, mv);
            ||| (m.line, m.col) == (q.cursor.line, q.cursor.col)
            ||| crate::caret::stands_at(q.secondary@, (m.line, m.col))
        }),
        q.cursor == crate::motion::moved_cursor(t, p.cursor, mv),
        forall|j: int|
            0 <= j < q.secondary@.len() ==> exists|k: int|
                #![trigger p.secondary@[k]]
                {
                    let c = p.secondary@[k];
                    &&& 0 <= k < p.secondary@.len()
                    &&& (#[trigger] q.secondary@[j]).cursor == crate::motion::moved_cursor(
                        t,
                        c.cursor,
                        mv,
                    )
                    &&& q.secondary@[j].anchor == if extend {
                        Some(
                            match c.anchor {
                                Some(a) => a,
                                None => (c.cursor.line, c.cursor.col),
                            },
                        )
                    } else {
                        None
                    }
                },
{
    let goal = p.secondary@.map_values(|c: Caret| moved(t, c, mv, extend));
    crate::caret::merged_carets_keep_positions(q.caret().at(), goal);
    assert(goal[i] == moved(t, p.secondary@[i], mv, extend));
    assert forall|j: int| 0 <= j < q.secondary@.len() implies exists|k: int|
        #![trigger p.secondary@[k]]
        {
            let c = p.secondary@[k];
            &&& 0 <= k < p.secondary@.len()
            &&& (#[trigger] q.secondary@[j]).cursor == crate::motion::moved_cursor(t, c.cursor, mv)
            &&& q.secondary@[j].anchor == if extend {
                Some(
                    match c.anchor {
                        Some(a) => a,
                        None => (c.cursor.line, c.cursor.col),
                    },
                )
            } else {
                None
            }
        } by {
        assert(goal.contains(q.secondary@[j]));
        let k = choose|k: int| 0 <= k < goal.len() && goal[k] == q.secondary@[j];
        assert(goal[k] == moved(t, p.secondary@[k], mv, extend));
    }
}

/// A pane that starts on a buffer shows it from its start, with one caret there
/// and nothing selected, no search, and the height that it was last drawn with.
pub proof fn panes_start_at_the_top(p: EditorPane, buffer_id: usize, last_height: usize)
    requires
        p.starts_at(buffer_id, last_height),
    ensures
        p.buffer_id == buffer_id,
        p.cursor == (Cursor { line: 0, col: 0, target_col: 0 }),
        p.anchor is None,
        p.secondary@.len() == 0,
        p.scroll_row == 0 && p.scroll_col == 0,
        p.last_height == last_height,
        p.search is None,
        p.cursor_screen is None,
{
}

/// A caret that is put somewhere is the only one, with nothing selected, and the
/// rest of the pane stays.
pub proof fn a_put_caret_is_alone(p: EditorPane, q: EditorPane, line: usize, col: usize)
    requires
        p.caret_put(q, line as int, col as int),
    ensures
        q.cursor == (Cursor { line, col, target_col: col }),
        q.anchor is None,
        q.secondary@.len() == 0,
        q.buffer_id == p.buffer_id && q.scroll_row == p.scroll_row && q.scroll_col == p.scroll_col,
        q.search == p.search && q.last_height == p.last_height,
{
}

} // verus!
