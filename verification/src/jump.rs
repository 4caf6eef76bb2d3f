//! A browser-style jump history: a bounded trail of `(path, line, col)`
//! locations with back/forward navigation.
//!
//! Points are keyed by **path**, not buffer index, so the history survives
//! buffers being reordered or replaced and can re-open a file whose buffer was
//! closed. Only deliberate, cross-distance navigations record a point.
use crate::paths::{path_bytes, path_parts, same_path};
use std::path::PathBuf;
use vstd::prelude::*;

verus! {

/// A single location in the jump history.
#[derive(Clone, PartialEq, Eq, Debug)]
pub struct JumpPoint {
    pub path: PathBuf,
    pub line: usize,
    pub col: usize,
}

/// A location, as a value of the specifications.
#[verifier::ext_equal]
pub struct Place {
    pub path: Seq<u8>,
    pub line: usize,
    pub col: usize,
}

impl Place {
    /// Whether two locations are the same: the same file, line and column.
    pub open spec fn same(self, other: Place) -> bool {
        path_parts(self.path) == path_parts(other.path) && self.line == other.line && self.col
            == other.col
    }
}

impl View for JumpPoint {
    type V = Place;

    open spec fn view(&self) -> Place {
        Place { path: path_bytes(self.path), line: self.line, col: self.col }
    }
}

impl JumpPoint {
    pub fn new(path: PathBuf, line: usize, col: usize) -> (r: Self)
        ensures
            r@ == (Place { path: path_bytes(path), line, col }),
    {
        Self { path, line, col }
    }

    /// Whether two points are the same location.
    fn same(&self, other: &JumpPoint) -> (r: bool)
        ensures
            r == self@.same(other@),
    {
        same_path(&self.path, &other.path) && self.line == other.line && self.col == other.col
    }

    /// The same location once more.
    fn copy(&self) -> (r: JumpPoint)
        ensures
            r@ == self@,
    {
        JumpPoint { path: self.path.clone(), line: self.line, col: self.col }
    }
}

/// Deepest history retained; older entries are evicted. Far more than anyone
/// navigates back through, but bounded so the trail can't leak.
pub const CAP: usize = 64;

/// A bounded back/forward history, modelled on browser navigation.
///
/// `index` is the current position within `points`. When `index ==
/// points.len()` we are at the **live tip** — the cursor sits at a location
/// not yet recorded (the destination of the last jump). Going `back` from the
/// tip first captures that live location so `forward` can return to it.
#[derive(Debug)]
pub struct JumpList {
    pub points: Vec<JumpPoint>,
    pub index: usize,
}

/// A jump history: the trail and the position in it.
#[verifier::ext_equal]
pub struct Trail {
    pub points: Seq<Place>,
    pub index: nat,
}

/// A trail with one more place, without its oldest one if it grew too long.
pub open spec fn pushed(points: Seq<Place>, p: Place) -> Seq<Place> {
    let all = points.push(p);
    if all.len() > CAP {
        all.skip(1)
    } else {
        all
    }
}

impl Trail {
    /// The position is in the trail or at its tip, and the trail is bounded.
    pub open spec fn wf(self) -> bool {
        self.index <= self.points.len() <= CAP
    }

    /// With `p` as the newest place: what lies ahead is dropped, and a repeat of
    /// the newest place is ignored.
    pub open spec fn recorded(self, p: Place) -> Trail {
        let kept = self.points.take(self.index as int);
        let points = if kept.len() > 0 && kept.last().same(p) {
            kept
        } else {
            pushed(kept, p)
        };
        Trail { points, index: points.len() }
    }

    /// With the live location noted, if the position is at the tip of a trail
    /// that is not empty.
    pub open spec fn noted(self, current: Place) -> Trail {
        if self.index == self.points.len() && self.points.len() > 0 {
            let points = if self.points.last().same(current) {
                self.points
            } else {
                pushed(self.points, current)
            };
            Trail { points, index: (points.len() - 1) as nat }
        } else {
            self
        }
    }

    /// One step back from the live location `current`, and where it leads.
    pub open spec fn backed(self, current: Place) -> (Trail, Option<Place>) {
        let n = self.noted(current);
        if n.index == 0 {
            (n, None)
        } else {
            let index = (n.index - 1) as nat;
            (Trail { points: n.points, index }, Some(n.points[index as int]))
        }
    }

    /// One step forward, and where it leads.
    pub open spec fn forwarded(self) -> (Trail, Option<Place>) {
        if self.index + 1 >= self.points.len() {
            (self, None)
        } else {
            (
                Trail { points: self.points, index: self.index + 1 },
                Some(self.points[self.index as int + 1]),
            )
        }
    }
}

spec fn places(points: Seq<JumpPoint>) -> Seq<Place> {
    points.map_values(|p: JumpPoint| p@)
}

impl View for JumpList {
    type V = Trail;

    closed spec fn view(&self) -> Trail {
        Trail { points: places(self.points@), index: self.index as nat }
    }
}

impl JumpList {
    /// What every history keeps; see [`Trail::wf`].
    pub open spec fn wf(&self) -> bool {
        self@.wf()
    }

    pub fn new() -> (r: Self)
        ensures
            r.wf(),
            r@ == (Trail { points: Seq::empty(), index: 0 }),
    {
        let r = JumpList { points: Vec::new(), index: 0 };
        assert(r@.points =~= Seq::empty());
        r
    }

    /// Push `point`, evicting the oldest entry if over [`CAP`]. Does not touch
    /// `index` — callers set it explicitly.
    fn push_capped(&mut self, point: JumpPoint)
        requires
            old(self)@.points.len() <= CAP,
        ensures
            final(self)@.points == pushed(old(self)@.points, point@),
            final(self)@.points.len() <= CAP,
            final(self).index == old(self).index,
            final(self)@.index == old(self)@.index,
    {
        let ghost before = self.points@;
        self.points.push(point);
        assert(places(self.points@) =~= places(before).push(point@));
        if self.points.len() > CAP {
            let ghost all = self.points@;
            let _ = self.points.remove(0);
            assert(places(self.points@) =~= places(all).skip(1));
        }
    }

    /// Record `point` as the newest history entry. A repeat of the most recent
    /// point is ignored (dedup adjacent); otherwise any forward branch is
    /// discarded (a divergent jump abandons where "forward" would have gone).
    pub fn record(&mut self, point: JumpPoint)
        requires
            old(self).wf(),
        ensures
            final(self).wf(),
            final(self)@ == old(self)@.recorded(point@),
    {
        let ghost before = self.points@;
        self.points.truncate(self.index);
        let ghost kept = places(self.points@);
        assert(kept =~= places(before).take(self.index as int));
        let count: usize = self.points.len();
        if count > 0 && self.points[count - 1].same(&point) {
            self.index = count;
            return ;
        }
        self.push_capped(point);
        self.index = self.points.len();
    }

    /// Step back one entry, returning the location to move to, or `None` when
    /// already at the start. `current` is the live cursor location; on the
    /// first step back from the tip it is captured so [`forward`](Self::forward)
    /// can return to it.
    pub fn back(&mut self, current: JumpPoint) -> (r: Option<JumpPoint>)
        requires
            old(self).wf(),
        ensures
            final(self).wf(),
            final(self)@ == old(self)@.backed(current@).0,
            match r {
                Some(p) => old(self)@.backed(current@).1 == Some(p@),
                None => old(self)@.backed(current@).1 is None,
            },
    {
        let count: usize = self.points.len();
        if self.index == count {
            // At the live tip: nothing recorded means nowhere to go back to.
            if count == 0 {
                return None;
            }
            if !self.points[count - 1].same(&current) {
                self.push_capped(current);
            }
            // `index` now points at the live location (the last entry).
            self.index = self.points.len() - 1;
        }
        assert(self@ =~= old(self)@.noted(current@));
        if self.index == 0 {
            return None;
        }
        self.index -= 1;
        Some(self.points[self.index].copy())
    }

    /// Step forward one entry, returning the location to move to, or `None`
    /// when already at the tip.
    pub fn forward(&mut self) -> (r: Option<JumpPoint>)
        requires
            old(self).wf(),
        ensures
            final(self).wf(),
            final(self)@ == old(self)@.forwarded().0,
            match r {
                Some(p) => old(self)@.forwarded().1 == Some(p@),
                None => old(self)@.forwarded().1 is None,
            },
    {
        if self.index + 1 >= self.points.len() {
            return None;
        }
        self.index += 1;
        Some(self.points[self.index].copy())
    }
}

// ---------------------------------------------------------------------------
// Laws.

/// A step back and a step forward lead to where one was: from the live tip to
/// the live location, from within the trail to the place one stood on.
pub proof fn back_then_forward(t: Trail, current: Place)
    requires
        t.wf(),
        t.backed(current).1 is Some,
    ensures
        t.backed(current).0.wf(),
        t.backed(current).0.forwarded().0 == t.noted(current),
        t.backed(current).0.forwarded().1 == Some(
            t.noted(current).points[t.noted(current).index as int],
        ),
        t.index == t.points.len() ==> t.backed(current).0.forwarded().1->0.same(current),
{
    let n = t.noted(current);
    let b = t.backed(current).0;
    assert(b.forwarded().0 =~= n);
}

/// A step forward and a step back lead to where one was.
pub proof fn forward_then_back(t: Trail, current: Place)
    requires
        t.wf(),
        t.forwarded().1 is Some,
    ensures
        t.forwarded().0.wf(),
        t.forwarded().0.backed(current).1 == Some(t.points[t.index as int]),
        t.forwarded().0.backed(current).0 == t,
{
    assert(t.forwarded().0.backed(current).0 =~= t);
}

/// A new jump abandons what lay ahead: after it there is nothing to go forward
/// to.
pub proof fn record_discards_forward(t: Trail, p: Place)
    requires
        t.wf(),
    ensures
        t.recorded(p).wf(),
        t.recorded(p).forwarded().1 is None,
        t.recorded(p).points.len() > 0,
        t.recorded(p).points.last().same(p),
{
}

/// Recording the same place twice in a row is recording it once.
pub proof fn record_is_idempotent(t: Trail, p: Place)
    requires
        t.wf(),
    ensures
        t.recorded(p).recorded(p) == t.recorded(p),
{
    let r = t.recorded(p);
    assert(r.points.take(r.index as int) =~= r.points);
    assert(r.recorded(p) =~= r);
}

/// An empty history leads nowhere and is left as it is.
pub proof fn empty_history_leads_nowhere(current: Place)
    ensures
        ({
            let t = Trail { points: Seq::empty(), index: 0 };
            &&& t.backed(current) == (t, None::<Place>)
            &&& t.forwarded() == (t, None::<Place>)
        }),
{
}

/// A jump is kept as the newest place, behind the places up to where one stood;
/// only sixty-four are kept, and the oldest goes first. A place counts as the
/// same as the newest one only if its file, its line and its column are the
/// same.
pub proof fn record_keeps_the_newest_places(t: Trail, p: Place)
    requires
        t.wf(),
    ensures
        ({
            let kept = t.points.take(t.index as int);
            let r = t.recorded(p);
            let repeated = kept.len() > 0 && path_parts(kept.last().path) == path_parts(p.path)
                && kept.last().line == p.line && kept.last().col == p.col;
            &&& repeated ==> r.points == kept
            &&& !repeated && kept.len() < 64 ==> r.points == kept.push(p)
            &&& !repeated && kept.len() == 64 ==> r.points == kept.push(p).skip(1)
            &&& r.points.len() <= 64
            &&& r.index == r.points.len()
        }),
{
}

/// A step back leads to the place before: from the live tip to the newest place
/// that was recorded, or to the one before it if one still stands there; from
/// within the trail to the place before the one where one stands. From the first
/// place there is no step back.
pub proof fn back_leads_to_the_place_before(t: Trail, current: Place)
    requires
        t.wf(),
    ensures
        ({
            let n = t.points.len();
            let r = t.backed(current).1;
            let here = n > 0 && path_parts(t.points[n - 1].path) == path_parts(current.path)
                && t.points[n - 1].line == current.line && t.points[n - 1].col == current.col;
            &&& t.index < n && t.index > 0 ==> r == Some(t.points[t.index - 1])
            &&& t.index < n && t.index == 0 ==> r is None
            &&& t.index == n && n > 0 && !here ==> r == Some(t.points[n - 1])
            &&& t.index == n && n > 1 && here ==> r == Some(t.points[n - 2])
            &&& t.index == n && n == 1 && here ==> r is None
            &&& n == 0 ==> r is None
        }),
{
}

/// A step forward leads to the place behind the one where one stands, if there is
/// one, and leaves the trail as it is.
pub proof fn forward_leads_to_the_next_place(t: Trail)
    requires
        t.wf(),
    ensures
        t.index + 1 < t.points.len() ==> t.forwarded().1 == Some(t.points[t.index + 1int])
            && t.forwarded().0.index == t.index + 1,
        t.index + 1 >= t.points.len() ==> t.forwarded().1 is None && t.forwarded().0 == t,
        t.forwarded().0.points == t.points,
{
}

} // verus!
