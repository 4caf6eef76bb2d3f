//! Carets: a cursor with its optional selection, and the list of carets of a
//! pane.
use vstd::prelude::*;

verus! {

/// Cursor position within the buffer. `target_col` remembers the column the
/// user "wants" so vertical movement across short lines doesn't lose it.
#[derive(Debug, Clone, Copy, PartialEq, Eq, Structural)]
pub struct Cursor {
    pub line: usize,
    pub col: usize,
    pub target_col: usize,
}

impl Default for Cursor {
    fn default() -> (r: Self)
        ensures
            r == (Cursor { line: 0, col: 0, target_col: 0 }),
    {
        Cursor { line: 0, col: 0, target_col: 0 }
    }
}

/// A single caret: a cursor plus its optional selection anchor. The primary
/// caret is stored as the pane's `cursor`/`anchor` fields; additional carets
/// live in `EditorPane::secondary`.
#[derive(Debug, Clone, Copy)]
pub struct Caret {
    pub cursor: Cursor,
    pub anchor: Option<(usize, usize)>,
}

/// Whether position `a` lies before position `b`: on an earlier line, or on
/// the same line in an earlier column.
pub open spec fn before(a: (usize, usize), b: (usize, usize)) -> bool {
    a.0 < b.0 || (a.0 == b.0 && a.1 < b.1)
}

/// Whether position `a` lies before position `b`.
pub fn is_before(a: (usize, usize), b: (usize, usize)) -> (r: bool)
    ensures
        r == before(a, b),
{
    a.0 < b.0 || (a.0 == b.0 && a.1 < b.1)
}

impl Caret {
    /// The caret's line and column.
    pub open spec fn at(self) -> (usize, usize) {
        (self.cursor.line, self.cursor.col)
    }

    /// The caret's selection, its earlier end first.
    pub open spec fn selection(self) -> Option<((usize, usize), (usize, usize))> {
        match self.anchor {
            Some(anchor) => if before(self.at(), anchor) {
                Some((self.at(), anchor))
            } else {
                Some((anchor, self.at()))
            },
            None => None,
        }
    }

    /// A caret at a line and column, with no selection.
    pub open spec fn placed(line: int, col: int) -> Caret {
        Caret {
            cursor: Cursor { line: line as usize, col: col as usize, target_col: col as usize },
            anchor: None,
        }
    }

    /// This caret's selection as an ordered (start, end) pair, if any.
    pub fn ordered_selection(&self) -> (r: Option<((usize, usize), (usize, usize))>)
        ensures
            r == self.selection(),
    {
        match self.anchor {
            Some(anchor) => {
                let cursor = (self.cursor.line, self.cursor.col);
                if is_before(cursor, anchor) {
                    Some((cursor, anchor))
                } else {
                    Some((anchor, cursor))
                }
            },
            None => None,
        }
    }
}

/// How many carets of an ordered list lie before `p`.
pub open spec fn rank_of(carets: Seq<Caret>, p: (usize, usize)) -> int
    decreases carets.len(),
{
    if carets.len() == 0 || before(carets.last().at(), p) {
        carets.len() as int
    } else {
        rank_of(carets.drop_last(), p)
    }
}

/// An ordered list of carets with one more: it goes to its place in the order,
/// unless it coincides with the primary caret or with one that is there.
pub open spec fn with_caret(carets: Seq<Caret>, primary: (usize, usize), c: Caret) -> Seq<Caret> {
    let k = rank_of(carets, c.at());
    if c.at() == primary || (k < carets.len() && carets[k].at() == c.at()) {
        carets
    } else {
        carets.insert(k, c)
    }
}

/// The secondary carets ordered by position, without those that coincide with
/// the primary one; of several that coincide the first stays.
pub open spec fn merged(primary: (usize, usize), carets: Seq<Caret>) -> Seq<Caret>
    decreases carets.len(),
{
    if carets.len() == 0 {
        Seq::empty()
    } else {
        with_caret(merged(primary, carets.drop_last()), primary, carets.last())
    }
}

/// Whether the carets stand in order, no two at one position.
pub open spec fn in_order(carets: Seq<Caret>) -> bool {
    forall|i: int, j: int|
        0 <= i < j < carets.len() ==> before(
            (#[trigger] carets[i]).at(),
            (#[trigger] carets[j]).at(),
        )
}

pub(crate) proof fn lemma_rank_of(carets: Seq<Caret>, p: (usize, usize))
    requires
        in_order(carets),
    ensures
        0 <= rank_of(carets, p) <= carets.len(),
        forall|i: int| 0 <= i < rank_of(carets, p) ==> before((#[trigger] carets[i]).at(), p),
        forall|i: int|
            rank_of(carets, p) <= i < carets.len() ==> !before((#[trigger] carets[i]).at(), p),
    decreases carets.len(),
{
    if carets.len() > 0 && !before(carets.last().at(), p) {
        let rest = carets.drop_last();
        lemma_rank_of(rest, p);
        let k = rank_of(carets, p);
        assert forall|i: int| 0 <= i < k implies before((#[trigger] carets[i]).at(), p) by {
            assert(rest[i] == carets[i]);
        }
        assert forall|i: int| k <= i < carets.len() implies !before(
            (#[trigger] carets[i]).at(),
            p,
        ) by {
            if i < rest.len() {
                assert(rest[i] == carets[i]);
            }
        }
    }
}

/// Merged carets stand in order, no two coincide, and none coincides with the
/// primary one.
pub proof fn merged_carets_are_distinct(primary: (usize, usize), carets: Seq<Caret>)
    ensures
        in_order(merged(primary, carets)),
        forall|i: int|
            0 <= i < merged(primary, carets).len() ==> (#[trigger] merged(primary, carets)[i]).at()
                != primary,
    decreases carets.len(),
{
    if carets.len() > 0 {
        let rest = merged(primary, carets.drop_last());
        let c = carets.last();
        merged_carets_are_distinct(primary, carets.drop_last());
        lemma_rank_of(rest, c.at());
        let k = rank_of(rest, c.at());
        let m = merged(primary, carets);
        if m != rest {
            assert(m == rest.insert(k, c));
            assert forall|i: int, j: int| 0 <= i < j < m.len() implies before(
                (#[trigger] m[i]).at(),
                (#[trigger] m[j]).at(),
            ) by {
                let a = if i < k {
                    i
                } else {
                    i - 1
                };
                let b = if j < k {
                    j
                } else {
                    j - 1
                };
                if i == k {
                    assert(rest[b].at() == m[j].at());
                    assert(rest[k].at() != c.at());
                    if b > k {
                        assert(before(rest[k].at(), rest[b].at()));
                    }
                } else if j == k {
                    assert(rest[a].at() == m[i].at());
                } else {
                    assert(rest[a].at() == m[i].at());
                    assert(rest[b].at() == m[j].at());
                }
            }
            assert forall|i: int| 0 <= i < m.len() implies (#[trigger] m[i]).at() != primary by {
                if i < k {
                    assert(m[i] == rest[i]);
                } else if i > k {
                    assert(m[i] == rest[i - 1]);
                }
            }
        }
    }
}

/// Whether one of the carets stands at `p`.
pub open spec fn stands_at(carets: Seq<Caret>, p: (usize, usize)) -> bool {
    exists|i: int| 0 <= i < carets.len() && (#[trigger] carets[i]).at() == p
}

proof fn lemma_with_caret(rest: Seq<Caret>, primary: (usize, usize), c: Caret)
    requires
        in_order(rest),
    ensures
        forall|p: (usize, usize)|
            #[trigger] stands_at(rest, p) ==> stands_at(with_caret(rest, primary, c), p),
        c.at() != primary ==> stands_at(with_caret(rest, primary, c), c.at()),
        forall|j: int|
            0 <= j < with_caret(rest, primary, c).len() ==> (#[trigger] with_caret(
                rest,
                primary,
                c,
            )[j]) == c || rest.contains(with_caret(rest, primary, c)[j]),
{
    lemma_rank_of(rest, c.at());
    let k = rank_of(rest, c.at());
    let m = with_caret(rest, primary, c);
    if m != rest {
        assert(m == rest.insert(k, c));
        assert(m[k] == c);
        assert forall|p: (usize, usize)| #[trigger] stands_at(rest, p) implies stands_at(m, p) by {
            let j = choose|j: int| 0 <= j < rest.len() && (#[trigger] rest[j]).at() == p;
            if j < k {
                assert(m[j] == rest[j]);
            } else {
                assert(m[j + 1] == rest[j]);
            }
        }
        assert forall|j: int| 0 <= j < m.len() implies (#[trigger] m[j]) == c || rest.contains(
            m[j],
        ) by {
            if j < k {
                assert(m[j] == rest[j]);
            } else if j > k {
                assert(m[j] == rest[j - 1]);
            }
        }
    } else {
        assert forall|j: int| 0 <= j < m.len() implies (#[trigger] m[j]) == c || rest.contains(
            m[j],
        ) by {
            assert(rest[j] == m[j]);
        }
        if c.at() != primary {
            if k < rest.len() && rest[k].at() == c.at() {
            } else {
                assert(rest.insert(k, c).len() == rest.len() + 1);
            }
        }
    }
}

/// Merging drops no position: every caret that does not coincide with the
/// primary one still has a caret at its position, and every caret that is left
/// was one of them.
pub proof fn merged_carets_keep_positions(primary: (usize, usize), carets: Seq<Caret>)
    ensures
        forall|i: int|
            0 <= i < carets.len() && (#[trigger] carets[i]).at() != primary ==> stands_at(
                merged(primary, carets),
                carets[i].at(),
            ),
        forall|j: int|
            0 <= j < merged(primary, carets).len() ==> carets.contains(
                #[trigger] merged(primary, carets)[j],
            ),
    decreases carets.len(),
{
    if carets.len() > 0 {
        let front = carets.drop_last();
        let rest = merged(primary, front);
        let c = carets.last();
        merged_carets_keep_positions(primary, front);
        merged_carets_are_distinct(primary, front);
        lemma_with_caret(rest, primary, c);
        let m = merged(primary, carets);
        assert(m == with_caret(rest, primary, c));
        assert forall|i: int|
            0 <= i < carets.len() && (#[trigger] carets[i]).at() != primary implies stands_at(
            m,
            carets[i].at(),
        ) by {
            if i < front.len() {
                assert(front[i] == carets[i]);
                assert(stands_at(rest, front[i].at()));
            }
        }
        assert forall|j: int| 0 <= j < m.len() implies carets.contains(#[trigger] m[j]) by {
            if m[j] == c {
                assert(carets[carets.len() - 1] == m[j]);
            } else {
                assert(rest.contains(m[j]));
                let i = choose|i: int| 0 <= i < rest.len() && rest[i] == m[j];
                assert(front.contains(rest[i]));
                let h = choose|h: int| 0 <= h < front.len() && front[h] == rest[i];
                assert(carets[h] == m[j]);
            }
        }
    }
}

/// Sorts the secondary carets by position and merges any coincident with the
/// primary or each other, always keeping the primary.
pub fn merge_carets(primary: (usize, usize), carets: &Vec<Caret>) -> (r: Vec<Caret>)
    ensures
        r@ == merged(primary, carets@),
{
    let mut out: Vec<Caret> = Vec::new();
    let mut i: usize = 0;
    assert(carets@.take(0) =~= Seq::empty());
    while i < carets.len()
        invariant
            i <= carets@.len(),
            out@ == merged(primary, carets@.take(i as int)),
        decreases carets@.len() - i,
    {
        let c = carets[i];
        let ghost rest = out@;
        proof {
            merged_carets_are_distinct(primary, carets@.take(i as int));
            lemma_rank_of(rest, c.at());
            assert(carets@.take(i + 1).drop_last() =~= carets@.take(i as int));
            assert(carets@.take(i + 1).last() == c);
        }
        let at = (c.cursor.line, c.cursor.col);
        let mut k: usize = out.len();
        assert(rest.take(k as int) =~= rest);
        while k > 0 && !is_before((out[k - 1].cursor.line, out[k - 1].cursor.col), at)
            invariant
                k <= out@.len(),
                out@ == rest,
                at == c.at(),
                rank_of(rest, c.at()) == rank_of(rest.take(k as int), c.at()),
            decreases k,
        {
            assert(rest.take(k as int).drop_last() =~= rest.take(k - 1));
            k -= 1;
        }
        proof {
            if k > 0 {
                assert(rest.take(k as int).last() == rest[k - 1]);
            }
            assert(k == rank_of(rest, c.at()));
        }
        let same = k < out.len() && out[k].cursor.line == at.0 && out[k].cursor.col == at.1;
        if !(at.0 == primary.0 && at.1 == primary.1) && !same {
            out.insert(k, c);
        }
        i += 1;
    }
    assert(carets@.take(carets@.len() as int) =~= carets@);
    out
}

/// A selection runs from the anchor to the cursor, whichever of them comes first:
/// its earlier end is on an earlier line, or on the same line and not behind the
/// other. Without an anchor there is none.
pub proof fn selections_run_forwards(c: Caret)
    ensures
        c.selection() is Some <==> c.anchor is Some,
        c.selection() matches Some((from, to)) ==> {
            &&& from.0 < to.0 || (from.0 == to.0 && from.1 <= to.1)
            &&& (from == (c.cursor.line, c.cursor.col) && to == c.anchor->0) || (from == c.anchor->0
                && to == (c.cursor.line, c.cursor.col))
        },
{
}

/// Merged carets stand in the order of their lines, and on one line in the order
/// of their columns.
pub proof fn merged_carets_rise(primary: (usize, usize), carets: Seq<Caret>, i: int, j: int)
    requires
        0 <= i < j < merged(primary, carets).len(),
    ensures
        ({
            let a = merged(primary, carets)[i].cursor;
            let b = merged(primary, carets)[j].cursor;
            a.line < b.line || (a.line == b.line && a.col < b.col)
        }),
{
    merged_carets_are_distinct(primary, carets);
    assert(before(merged(primary, carets)[i].at(), merged(primary, carets)[j].at()));
}

/// Carets that stand at different places, none at that of the primary one, all
/// stay: merging changes only their order.
pub proof fn distinct_carets_all_stay(primary: (usize, usize), carets: Seq<Caret>)
    requires
        forall|i: int, j: int|
            0 <= i < j < carets.len() ==> (#[trigger] carets[i]).at() != (#[trigger] carets[j]).at(),
        forall|i: int| 0 <= i < carets.len() ==> (#[trigger] carets[i]).at() != primary,
    ensures
        merged(primary, carets).to_multiset() == carets.to_multiset(),
        merged(primary, carets).len() == carets.len(),
    decreases carets.len(),
{
    broadcast use vstd::seq_lib::group_to_multiset_ensures;

    if carets.len() == 0 {
        assert(merged(primary, carets) =~= carets);
    } else {
        let front = carets.drop_last();
        let c = carets.last();
        assert forall|i: int, j: int| 0 <= i < j < front.len() implies (#[trigger] front[i]).at()
            != (#[trigger] front[j]).at() by {
            assert(front[i] == carets[i] && front[j] == carets[j]);
        }
        assert forall|i: int| 0 <= i < front.len() implies (#[trigger] front[i]).at() != primary by {
            assert(front[i] == carets[i]);
        }
        distinct_carets_all_stay(primary, front);
        merged_carets_are_distinct(primary, front);
        merged_carets_keep_positions(primary, front);
        let rest = merged(primary, front);
        lemma_rank_of(rest, c.at());
        let k = rank_of(rest, c.at());
        assert(carets[carets.len() - 1] == c);
        if k < rest.len() && rest[k].at() == c.at() {
            assert(front.contains(rest[k]));
            let h = choose|h: int| 0 <= h < front.len() && front[h] == rest[k];
            assert(carets[h].at() != carets[carets.len() - 1].at());
        }
        assert(merged(primary, carets) == rest.insert(k, c));
        assert(front.push(c) =~= carets);
        assert(rest.insert(k, c).to_multiset() =~= rest.to_multiset().insert(c));
    }
}

/// A caret that is placed stands at its line and column, wants that column, and
/// has nothing selected.
pub proof fn carets_are_placed(line: usize, col: usize)
    ensures
        Caret::placed(line as int, col as int) == (Caret {
            cursor: Cursor { line, col, target_col: col },
            anchor: None,
        }),
{
}

proof fn lemma_with_caret_keeps(rest: Seq<Caret>, primary: (usize, usize), c: Caret)
    requires
        in_order(rest),
    ensures
        forall|d: Caret| rest.contains(d) ==> #[trigger] with_caret(rest, primary, c).contains(d),
        c.at() != primary && !stands_at(rest, c.at()) ==> with_caret(rest, primary, c).contains(c),
{
    lemma_rank_of(rest, c.at());
    let k = rank_of(rest, c.at());
    let all = with_caret(rest, primary, c);
    if c.at() == primary || (k < rest.len() && rest[k].at() == c.at()) {
        assert(all == rest);
        if k < rest.len() && rest[k].at() == c.at() {
            assert(stands_at(rest, c.at()));
        }
    } else {
        assert(all == rest.insert(k, c));
        assert(all[k] == c);
        assert forall|d: Caret| rest.contains(d) implies #[trigger] all.contains(d) by {
            let i = choose|i: int| 0 <= i < rest.len() && rest[i] == d;
            if i < k {
                assert(all[i] == d);
            } else {
                assert(all[i + 1] == d);
            }
        }
    }
}

/// Of carets that coincide the first one stays, with what it has selected.
pub proof fn the_first_of_coinciding_carets_stays(
    primary: (usize, usize),
    carets: Seq<Caret>,
    i: int,
)
    requires
        0 <= i < carets.len(),
        carets[i].at() != primary,
        forall|j: int| 0 <= j < i ==> (#[trigger] carets[j]).at() != carets[i].at(),
    ensures
        merged(primary, carets).contains(carets[i]),
    decreases carets.len(),
{
    let front = carets.drop_last();
    let rest = merged(primary, front);
    merged_carets_are_distinct(primary, front);
    lemma_with_caret_keeps(rest, primary, carets.last());
    if i < front.len() {
        assert(front[i] == carets[i]);
        assert forall|j: int| 0 <= j < i implies (#[trigger] front[j]).at() != front[i].at() by {
            assert(front[j] == carets[j]);
        }
        the_first_of_coinciding_carets_stays(primary, front, i);
        assert(rest.contains(carets[i]));
        assert(with_caret(rest, primary, carets.last()).contains(carets[i]));
    } else {
        merged_carets_keep_positions(primary, front);
        if stands_at(rest, carets[i].at()) {
            let k = choose|k: int| 0 <= k < rest.len() && (#[trigger] rest[k]).at() == carets[i].at();
            assert(front.contains(rest[k]));
            let h = choose|h: int| 0 <= h < front.len() && front[h] == rest[k];
            assert(carets[h].at() != carets[i].at());
        }
    }
}

} // verus!
