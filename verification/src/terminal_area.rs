//! The docked terminal area: a single right-docked region that hosts multiple
//! integrated terminals as tabs, of which exactly one is active and displayed
//! at a time.
//!
//! Hiding the area does NOT tear down any shell: the terminals stay in it, and
//! showing the area again reveals them as they are.
use crate::layout::{cut_front, split_front, Size, Way};
use crate::style::{Color, Rect, Run, RunView, Style};
use crate::terminal_pane::TerminalPane;
use crate::text::{decimal, decimal_string};
use vstd::prelude::*;

verus! {

#[derive(Debug)]
pub struct TerminalArea {
    pub terminals: Vec<TerminalPane>,
    /// Index into `terminals` of the displayed terminal.
    pub active: usize,
    pub visible: bool,
}

/// The area as a value of the specifications.
#[verifier::ext_equal]
pub struct AreaState {
    pub terminals: Seq<TerminalPane>,
    pub active: int,
    pub visible: bool,
}

impl View for TerminalArea {
    type V = AreaState;

    open spec fn view(&self) -> AreaState {
        AreaState {
            terminals: self.terminals@,
            active: self.active as int,
            visible: self.visible,
        }
    }
}

/// The place of the first terminal with a number at or after `from`.
pub open spec fn place_of(terminals: Seq<TerminalPane>, id: usize, from: int) -> Option<int>
    decreases terminals.len() - from,
{
    if from < 0 || from >= terminals.len() {
        None
    } else if terminals[from].id == id {
        Some(from)
    } else {
        place_of(terminals, id, from + 1)
    }
}

impl AreaState {
    /// An area with no terminals.
    pub open spec fn fresh() -> AreaState {
        AreaState { terminals: Seq::empty(), active: 0, visible: false }
    }

    /// Whether the active terminal is one of the terminals, if there are any.
    pub open spec fn wf(self) -> bool {
        0 <= self.active && (self.active < self.terminals.len() || (self.terminals.len() == 0
            && self.active == 0))
    }

    /// The area with one more terminal, which is active and shown.
    pub open spec fn added(self, term: TerminalPane) -> AreaState {
        AreaState {
            terminals: self.terminals.push(term),
            active: self.terminals.len() as int,
            visible: true,
        }
    }

    /// The area without its terminal `i`: the active terminal stays in range,
    /// and an area without terminals is hidden.
    pub open spec fn without(self, i: int) -> AreaState {
        let left = self.terminals.remove(i);
        if left.len() == 0 {
            AreaState::fresh()
        } else {
            AreaState {
                terminals: left,
                active: if self.active >= left.len() {
                    left.len() - 1
                } else {
                    self.active
                },
                ..self
            }
        }
    }

    /// The area with its next terminal active, the first one after the last.
    pub open spec fn cycled_next(self) -> AreaState {
        if self.terminals.len() == 0 {
            self
        } else {
            AreaState { active: (self.active + 1) % self.terminals.len() as int, ..self }
        }
    }

    /// The area with its previous terminal active, the last one before the
    /// first.
    pub open spec fn cycled_prev(self) -> AreaState {
        if self.terminals.len() == 0 {
            self
        } else {
            AreaState {
                active: (self.active + self.terminals.len() - 1) % self.terminals.len() as int,
                ..self
            }
        }
    }

    /// The area after its active terminal was closed.
    pub open spec fn closed(self) -> AreaState {
        if self.terminals.len() == 0 {
            self
        } else {
            self.without(self.active)
        }
    }

    /// The area after the terminal with a number was removed.
    pub open spec fn removed(self, id: usize) -> AreaState {
        match place_of(self.terminals, id, 0) {
            Some(i) => self.without(i),
            None => self,
        }
    }

    /// The tab of terminal `i`: its number, marked if it is active.
    pub open spec fn tab(self, i: int, focused: bool) -> RunView {
        RunView {
            text: " "@ + decimal((i + 1) as nat) + " "@,
            style: if i == self.active {
                Style {
                    bg: Some(
                        if focused {
                            Color::Blue
                        } else {
                            Color::DarkGray
                        },
                    ),
                    fg: Some(Color::White),
                    ..Style::plain()
                }
            } else {
                Style { fg: Some(Color::Gray), ..Style::plain() }
            },
        }
    }
}

/// How the area is drawn: its tabs, and where the active terminal goes.
#[derive(Debug)]
pub struct AreaPlan {
    pub tabs_area: Rect,
    pub tabs: Vec<Run>,
    pub content: Rect,
}

proof fn lemma_place(terminals: Seq<TerminalPane>, id: usize, from: int)
    requires
        0 <= from,
    ensures
        match place_of(terminals, id, from) {
            Some(i) => from <= i < terminals.len() && terminals[i].id == id,
            None => forall|j: int|
                from <= j < terminals.len() ==> (#[trigger] terminals[j]).id != id,
        },
    decreases terminals.len() - from,
{
    if from < terminals.len() && terminals[from].id != id {
        lemma_place(terminals, id, from + 1);
    }
}

impl Default for TerminalArea {
    fn default() -> (r: Self)
        ensures
            r@ == AreaState::fresh(),
    {
        let r = TerminalArea { terminals: Vec::new(), active: 0, visible: false };
        assert(r@.terminals =~= Seq::empty());
        r
    }
}

impl TerminalArea {
    pub fn new() -> (r: Self)
        ensures
            r@ == AreaState::fresh(),
    {
        Self::default()
    }

    // --- queries -----------------------------------------------------------

    pub fn is_visible(&self) -> (r: bool)
        ensures
            r == self@.visible,
    {
        self.visible
    }

    pub fn is_empty(&self) -> (r: bool)
        ensures
            r == (self@.terminals.len() == 0),
    {
        self.terminals.len() == 0
    }

    /// Whether the terminal with a number is in the area.
    pub fn holds(&self, id: usize) -> (r: bool)
        ensures
            r == (place_of(self@.terminals, id, 0) is Some),
    {
        self.find(id).is_some()
    }

    // --- visibility --------------------------------------------------------

    pub fn show(&mut self)
        ensures
            final(self)@ == (AreaState { visible: true, ..old(self)@ }),
    {
        self.visible = true;
    }

    pub fn hide_area(&mut self)
        ensures
            final(self)@ == (AreaState { visible: false, ..old(self)@ }),
    {
        self.visible = false;
    }

    // --- terminals ---------------------------------------------------------

    /// Add an already-spawned terminal, make it the active one, and show the
    /// area (creating a terminal always brings the area forward).
    pub fn add(&mut self, term: TerminalPane)
        ensures
            final(self)@ == old(self)@.added(term),
    {
        self.terminals.push(term);
        self.active = self.terminals.len() - 1;
        self.visible = true;
    }

    pub fn cycle_next(&mut self)
        requires
            old(self)@.wf(),
        ensures
            final(self)@ == old(self)@.cycled_next(),
    {
        let count: usize = self.terminals.len();
        if count > 0 {
            self.active = if self.active + 1 == count {
                0
            } else {
                self.active + 1
            };
            proof {
                lemma_wraps(old(self).active as int + 1, count as int);
            }
        }
    }

    pub fn cycle_prev(&mut self)
        requires
            old(self)@.wf(),
        ensures
            final(self)@ == old(self)@.cycled_prev(),
    {
        let count: usize = self.terminals.len();
        if count > 0 {
            self.active = if self.active == 0 {
                count - 1
            } else {
                self.active - 1
            };
            proof {
                lemma_wraps(old(self).active as int + count - 1, count as int);
            }
        }
    }

    /// Close the active terminal. Returns `true` when the area is now empty, in
    /// which case it has hidden itself and the caller should return focus to
    /// the editor.
    pub fn close_active(&mut self) -> (r: bool)
        requires
            old(self)@.wf(),
        ensures
            final(self)@ == old(self)@.closed(),
            r == (final(self)@.terminals.len() == 0),
    {
        if self.terminals.len() == 0 {
            return true;
        }
        self.terminals.remove(self.active);
        self.after_removal()
    }

    /// Remove the terminal whose shell exited on its own. Returns `true` when
    /// the area is now empty (and has hidden itself).
    pub fn remove_by_id(&mut self, id: usize) -> (r: bool)
        ensures
            final(self)@ == old(self)@.removed(id),
            r == (place_of(old(self)@.terminals, id, 0) is Some && final(self)@.terminals.len()
                == 0),
    {
        match self.find(id) {
            Some(i) => {
                self.terminals.remove(i);
                self.after_removal()
            },
            None => false,
        }
    }

    /// Keep `active` in range after a removal; hide the area if it emptied.
    fn after_removal(&mut self) -> (r: bool)
        ensures
            r == (old(self)@.terminals.len() == 0),
            final(self)@ == if old(self)@.terminals.len() == 0 {
                AreaState::fresh()
            } else {
                AreaState {
                    active: if old(self)@.active >= old(self)@.terminals.len() {
                        old(self)@.terminals.len() - 1
                    } else {
                        old(self)@.active
                    },
                    ..old(self)@
                }
            },
    {
        if self.terminals.len() == 0 {
            self.active = 0;
            self.visible = false;
            assert(self@.terminals =~= Seq::empty());
            return true;
        }
        if self.active >= self.terminals.len() {
            self.active = self.terminals.len() - 1;
        }
        false
    }

    /// The place of the terminal with a number.
    fn find(&self, id: usize) -> (r: Option<usize>)
        ensures
            match (r, place_of(self@.terminals, id, 0)) {
                (Some(i), Some(j)) => i == j && i < self.terminals@.len()
                    && self.terminals@[i as int].id == id,
                (None, None) => true,
                _ => false,
            },
    {
        let mut i: usize = 0;
        while i < self.terminals.len()
            invariant
                i <= self.terminals@.len(),
                place_of(self@.terminals, id, 0) == place_of(self@.terminals, id, i as int),
            decreases self.terminals@.len() - i,
        {
            if self.terminals[i].id == id {
                return Some(i);
            }
            i += 1;
        }
        None
    }

    /// The terminal matching `id`, for routing PTY output.
    pub fn find_mut(&mut self, id: usize) -> (r: Option<&mut TerminalPane>)
        ensures
            match (r, place_of(old(self)@.terminals, id, 0)) {
                (Some(term), Some(i)) => {
                    &&& *term == old(self)@.terminals[i]
                    &&& final(self)@ == (AreaState {
                        terminals: old(self)@.terminals.update(i, *final(term)),
                        ..old(self)@
                    })
                },
                (None, None) => final(self)@ == old(self)@,
                _ => false,
            },
    {
        match self.find(id) {
            Some(i) => Some(&mut self.terminals[i]),
            None => None,
        }
    }

    /// The displayed terminal, for forwarding keystrokes.
    pub fn active_mut(&mut self) -> (r: Option<&mut TerminalPane>)
        ensures
            match r {
                Some(term) => {
                    &&& old(self)@.active < old(self)@.terminals.len()
                    &&& *term == old(self)@.terminals[old(self)@.active]
                    &&& final(self)@ == (AreaState {
                        terminals: old(self)@.terminals.update(old(self)@.active, *final(term)),
                        ..old(self)@
                    })
                },
                None => old(self)@.active >= old(self)@.terminals.len() && final(self)@
                    == old(self)@,
            },
    {
        if self.active < self.terminals.len() {
            let at: usize = self.active;
            Some(&mut self.terminals[at])
        } else {
            None
        }
    }

    // --- rendering ---------------------------------------------------------

    /// Lays out the tab strip and the active terminal in `area`. The caller
    /// only invokes this when the area is visible; an empty area draws nothing.
    pub fn render(&self, area: Rect, focused: bool) -> (r: Option<AreaPlan>)
        ensures
            match r {
                Some(plan) => {
                    &&& self@.terminals.len() > 0
                    &&& (plan.tabs_area, plan.content) == cut_front(area, Way::Down, 1, 1)
                    &&& plan.tabs@.len() == self@.terminals.len()
                    &&& forall|i: int|
                        0 <= i < plan.tabs@.len() ==> (#[trigger] plan.tabs@[i])@ == self@.tab(
                            i,
                            focused,
                        )
                },
                None => self@.terminals.len() == 0,
            },
    {
        if self.terminals.len() == 0 {
            return None;
        }
        let (tabs_area, content) = split_front(area, Way::Down, 1, Size::Min(1));
        Some(AreaPlan { tabs_area, tabs: self.render_tabs(focused), content })
    }

    /// A thin tab strip numbering the terminals, with the active one marked.
    pub fn render_tabs(&self, focused: bool) -> (r: Vec<Run>)
        ensures
            r@.len() == self@.terminals.len(),
            forall|i: int| 0 <= i < r@.len() ==> (#[trigger] r@[i])@ == self@.tab(i, focused),
    {
        let mut tabs: Vec<Run> = Vec::new();
        let mut i: usize = 0;
        while i < self.terminals.len()
            invariant
                i <= self.terminals@.len(),
                tabs@.len() == i,
                forall|k: int|
                    0 <= k < tabs@.len() ==> (#[trigger] tabs@[k])@ == self@.tab(k, focused),
            decreases self.terminals@.len() - i,
        {
            let mut text = " ".to_owned();
            text.append(decimal_string(i as u64 + 1).as_str());
            text.append(" ");
            let style = if i == self.active {
                let bg = if focused {
                    Color::Blue
                } else {
                    Color::DarkGray
                };
                Style::new().bg(bg).fg(Color::White)
            } else {
                Style::new().fg(Color::Gray)
            };
            tabs.push(Run { text, style });
            i += 1;
        }
        tabs
    }
}

/// A number below twice a count wraps around once.
pub(crate) proof fn lemma_wraps(n: int, count: int)
    requires
        0 < count,
        0 <= n < 2 * count,
    ensures
        n % count == if n < count {
            n
        } else {
            n - count
        },
{
    if n < count {
        vstd::arithmetic::div_mod::lemma_small_mod(n as nat, count as nat);
    } else {
        vstd::arithmetic::div_mod::lemma_mod_add_multiples_vanish(n - count, count);
        vstd::arithmetic::div_mod::lemma_small_mod((n - count) as nat, count as nat);
    }
}

// ---------------------------------------------------------------------------
// Laws.

/// Every operation keeps the active terminal among the terminals.
pub proof fn active_stays_in_range(a: AreaState, term: TerminalPane, id: usize)
    requires
        a.wf(),
    ensures
        AreaState::fresh().wf(),
        a.added(term).wf(),
        a.cycled_next().wf(),
        a.cycled_prev().wf(),
        a.closed().wf(),
        a.removed(id).wf(),
{
    let n = a.terminals.len() as int;
    if n > 0 {
        lemma_wraps(a.active + 1, n);
        lemma_wraps(a.active + n - 1, n);
        lemma_place(a.terminals, id, 0);
    }
}

/// Going to the next terminal and back, or back and to the next, leads nowhere.
pub proof fn cycling_is_undone(a: AreaState)
    requires
        a.wf(),
    ensures
        a.cycled_next().cycled_prev() == a,
        a.cycled_prev().cycled_next() == a,
{
    let n = a.terminals.len() as int;
    if n > 0 {
        lemma_wraps(a.active + 1, n);
        lemma_wraps(a.active + n - 1, n);
        let next = a.cycled_next().active;
        let prev = a.cycled_prev().active;
        lemma_wraps(next + n - 1, n);
        lemma_wraps(prev + 1, n);
    }
}

/// Closing the last terminal hides the area, and closing one of several leaves
/// it as visible as it was.
pub proof fn closing_the_last_hides_the_area(a: AreaState)
    requires
        a.wf(),
        a.terminals.len() > 0,
    ensures
        a.closed().terminals.len() == a.terminals.len() - 1,
        a.terminals.len() == 1 ==> !a.closed().visible,
        a.terminals.len() > 1 ==> a.closed().visible == a.visible,
{
}

/// Hiding the area and showing it again keeps every terminal, and which one is
/// active.
pub proof fn hiding_keeps_the_terminals(a: AreaState)
    ensures
        ({
            let hidden = AreaState { visible: false, ..a };
            let shown = AreaState { visible: true, ..hidden };
            &&& hidden.terminals == a.terminals
            &&& shown.terminals == a.terminals
            &&& shown.active == a.active
            &&& a.visible ==> shown == a
        }),
{
}

/// A new terminal comes last, is active and is shown; the others stay as they
/// are.
pub proof fn new_terminals_come_last(a: AreaState, term: TerminalPane)
    ensures
        ({
            let b = a.added(term);
            &&& b.terminals.len() == a.terminals.len() + 1
            &&& forall|i: int|
                0 <= i < a.terminals.len() ==> #[trigger] b.terminals[i] == a.terminals[i]
            &&& b.terminals[b.active] == term
            &&& b.active == b.terminals.len() - 1
            &&& b.visible
        }),
{
}

/// The next terminal is the one behind the active one, and the first behind the
/// last; the previous one is the one before it, and the last before the first.
/// The terminals stay, and so does what is seen of the area.
pub proof fn cycling_goes_by_one(a: AreaState)
    requires
        a.wf(),
    ensures
        ({
            let n = a.terminals.len() as int;
            let next = a.cycled_next();
            let prev = a.cycled_prev();
            &&& next.terminals == a.terminals && next.visible == a.visible
            &&& prev.terminals == a.terminals && prev.visible == a.visible
            &&& n == 0 ==> next == a && prev == a
            &&& n > 0 && a.active + 1 < n ==> next.active == a.active + 1
            &&& n > 0 && a.active + 1 == n ==> next.active == 0
            &&& n > 0 && a.active > 0 ==> prev.active == a.active - 1
            &&& n > 0 && a.active == 0 ==> prev.active == n - 1
        }),
{
    let n = a.terminals.len() as int;
    if n > 0 {
        lemma_wraps(a.active + 1, n);
        lemma_wraps(a.active + n - 1, n);
    }
}

proof fn lemma_first_place(terminals: Seq<TerminalPane>, id: usize, from: int, i: int)
    requires
        0 <= from <= i < terminals.len(),
        terminals[i].id == id,
        forall|j: int| from <= j < i ==> (#[trigger] terminals[j]).id != id,
    ensures
        place_of(terminals, id, from) == Some(i),
    decreases terminals.len() - from,
{
    if from < i {
        assert(terminals[from].id != id);
        lemma_first_place(terminals, id, from + 1, i);
    }
}

/// When a shell exits, the terminal with its number leaves and no other; a number
/// that no terminal has changes nothing. The active terminal keeps its place in
/// the row of tabs, or is the last one where there is no such place any more.
pub proof fn exits_remove_one_terminal(a: AreaState, id: usize, i: int)
    requires
        a.wf(),
        0 <= i < a.terminals.len(),
    ensures
        a.terminals[i].id == id && (forall|j: int| 0 <= j < i ==> (#[trigger] a.terminals[j]).id
            != id) ==> {
            let b = a.removed(id);
            &&& b.terminals == a.terminals.take(i) + a.terminals.skip(i + 1)
            &&& b.terminals.len() > 0 ==> b.visible == a.visible && b.active == if a.active
                < b.terminals.len() {
                a.active
            } else {
                b.terminals.len() - 1
            }
            &&& b.terminals.len() == 0 ==> !b.visible
        },
        (forall|j: int| 0 <= j < a.terminals.len() ==> (#[trigger] a.terminals[j]).id != id)
            ==> a.removed(id) == a,
{
    lemma_place(a.terminals, id, 0);
    if a.terminals[i].id == id && (forall|j: int| 0 <= j < i ==> (#[trigger] a.terminals[j]).id
        != id) {
        lemma_first_place(a.terminals, id, 0, i);
        assert(a.terminals.remove(i) =~= a.terminals.take(i) + a.terminals.skip(i + 1));
    }
}

/// Closing takes out the active terminal and no other.
pub proof fn closing_takes_out_the_active_one(a: AreaState)
    requires
        a.wf(),
        a.terminals.len() > 0,
    ensures
        a.closed().terminals == a.terminals.take(a.active) + a.terminals.skip(a.active + 1),
        a.closed().terminals.len() > 0 ==> a.closed().active == if a.active
            < a.terminals.len() - 1 {
            a.active
        } else {
            a.terminals.len() - 2
        },
{
    assert(a.terminals.remove(a.active) =~= a.terminals.take(a.active) + a.terminals.skip(
        a.active + 1,
    ));
}

/// The tabs are numbered from one on. Only that of the active terminal has a
/// background, which is blue where the area has focus and dark gray elsewhere.
pub proof fn tabs_are_numbered(a: AreaState, i: int, focused: bool)
    requires
        0 <= i < a.terminals.len(),
    ensures
        a.tab(i, focused).text == seq![' '] + decimal((i + 1) as nat) + seq![' '],
        i != a.active ==> a.tab(i, focused).style.bg is None && a.tab(i, focused).style.fg == Some(
            Color::Gray,
        ),
        i == a.active ==> a.tab(i, focused).style.fg == Some(Color::White) && a.tab(
            i,
            focused,
        ).style.bg == Some(
            if focused {
                Color::Blue
            } else {
                Color::DarkGray
            },
        ),
{
    reveal_strlit(" ");
    assert(" "@ =~= seq![' ']);
}

/// A new area has no terminals and is hidden.
pub proof fn new_areas_are_hidden()
    ensures
        AreaState::fresh().terminals.len() == 0,
        AreaState::fresh().active == 0,
        !AreaState::fresh().visible,
{
}

} // verus!
