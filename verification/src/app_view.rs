//! How the whole screen is drawn.
use crate::app::{App, Focus};
use crate::chrome::{
    divide, footer_run, is_divided, is_help, render_footer, render_help_overlay, HelpPlan, Regions,
};
use crate::file_tree::{row_style, row_text};
use crate::layout::{cut_back, cut_front, Way};
use crate::pane_view::{beside_gutter, PanePlan};
use crate::style::{Color, Rect, Run, Style};
use crate::syntax::Syntax;
use crate::terminal_area::AreaPlan;
use crate::theme::Theme;
use vstd::prelude::*;

verus! {

/// What of the screen is painted where.
#[derive(Debug)]
pub struct AppPlan {
    pub regions: Regions,
    /// The style of the dividers.
    pub divider: Style,
    /// The rows of the file tree, if it is shown.
    pub tree: Option<Vec<(String, Style)>>,
    /// The tabs of the terminal area, if it is shown and has terminals.
    pub terminals: Option<AreaPlan>,
    /// The editor panes, from left to right.
    pub panes: Vec<PanePlan>,
    pub footer: Run,
    /// The help overlay, if it is shown.
    pub help: Option<HelpPlan>,
}

/// The language that a buffer is highlighted in.
pub open spec fn language_at(app: App, buffer_id: int) -> Option<Seq<char>> {
    match app.syntaxes@[buffer_id] {
        Some(s) => Some(s@),
        None => None,
    }
}

/// Whether pane `i` was drawn in its region: a one-row status bar at the bottom,
/// above it the line numbers and the text, scrolled so that its cursor is
/// visible, with the hardware cursor in it if it is the focused one.
pub open spec fn pane_drawn(
    p: App,
    q: App,
    i: int,
    region: Rect,
    theme: Theme,
    plan: PanePlan,
) -> bool {
    let was = p.panes@[i];
    let now = q.panes@[i];
    let buffer = p.buffers@[was.buffer_id as int]@;
    let focused = p.focus == Focus::Editor && i == p.focused;
    &&& (plan.content_area, plan.status_area) == cut_back(region, Way::Down, 1, 1)
    &&& (plan.content.gutter, plan.content.content) == beside_gutter(plan.content_area, buffer.text)
    &&& now == was.drawn(plan.content.content, focused)
    &&& now.is_content_plan(
        buffer.text,
        language_at(p, was.buffer_id as int),
        plan.content_area,
        focused,
        theme,
        plan.content,
    )
    &&& plan.status@ == now.status_run(buffer, focused, theme, None)
}

impl App {
    /// Whether the sums that drawing takes can be held by the machine.
    pub open spec fn can_render(self) -> bool {
        &&& 2 * self.panes@.len() - 1 <= usize::MAX
        &&& forall|i: int|
            0 <= i < self.panes@.len() ==> (#[trigger] self.panes@[i]).can_draw(
                self.buffers@[self.panes@[i].buffer_id as int]@.text,
            )
        &&& forall|i: int|
            0 <= i < self.tree.rows().len() ==> 2 * (#[trigger] self.tree.rows()[i]).depth
                <= usize::MAX
    }

    /// Lays out the whole screen.
    pub fn render(&mut self, screen: Rect, theme: &Theme) -> (r: AppPlan)
        requires
            old(self).wf(),
            old(self).can_render(),
            screen.wf(),
        ensures
            final(self).wf(),
            *final(self) == (App { panes: final(self).panes, ..*old(self) }),
            final(self).panes@.len() == old(self).panes@.len(),
            is_divided(screen, old(self).sidebar_visible, old(self).terminal_area@.visible, r.regions),
            r.regions.panes@.len() == old(self).panes@.len(),
            r.divider == (Style { fg: Some(Color::DarkGray), ..Style::plain() }),
            match r.tree {
                Some(rows) => {
                    let focused = old(self).focus == Focus::Sidebar;
                    &&& old(self).sidebar_visible
                    &&& rows@.len() == old(self).tree.rows().len()
                    &&& forall|i: int|
                        0 <= i < rows@.len() ==> {
                            &&& (#[trigger] rows@[i]).0@ == row_text(old(self).tree.rows()[i])
                            &&& rows@[i].1 == row_style(
                                i == old(self).tree.selected,
                                focused,
                                *theme,
                            )
                        }
                },
                None => !old(self).sidebar_visible,
            },
            match r.terminals {
                Some(plan) => {
                    let area = old(self).terminal_area@;
                    &&& r.regions.terminal matches Some((_, region)) && (plan.tabs_area, plan.content)
                        == cut_front(region, Way::Down, 1, 1)
                    &&& area.terminals.len() > 0
                    &&& plan.tabs@.len() == area.terminals.len()
                    &&& forall|i: int|
                        0 <= i < plan.tabs@.len() ==> (#[trigger] plan.tabs@[i])@ == area.tab(
                            i,
                            old(self).focus == Focus::Terminal,
                        )
                },
                None => !old(self).terminal_area@.visible || old(
                    self,
                ).terminal_area@.terminals.len() == 0,
            },
            r.panes@.len() == old(self).panes@.len(),
            forall|i: int|
                0 <= i < r.panes@.len() ==> pane_drawn(
                    *old(self),
                    *final(self),
                    i,
                    r.regions.panes@[i],
                    *theme,
                    #[trigger] r.panes@[i],
                ),
            r.footer@ == footer_run(),
            match r.help {
                Some(help) => old(self).help_visible && is_help(screen, help),
                None => !old(self).help_visible,
            },
    {
        assert(self.panes@.len() == self.panes.len());
        let regions = divide(
            screen,
            self.sidebar_visible,
            self.terminal_area.is_visible(),
            self.panes.len(),
        );
        let tree = if self.sidebar_visible {
            Some(self.tree.render(self.focus == Focus::Sidebar, theme))
        } else {
            None
        };
        let terminals = match &regions.terminal {
            Some((_, area)) => self.terminal_area.render(*area, self.focus == Focus::Terminal),
            None => None,
        };
        let panes = self.render_panes(&regions.panes, theme);
        let help = if self.help_visible {
            Some(render_help_overlay(screen))
        } else {
            None
        };
        AppPlan {
            regions,
            divider: Style::new().fg(Color::DarkGray),
            tree,
            terminals,
            panes,
            footer: render_footer(),
            help,
        }
    }

    /// Lays out the editor panes in their regions.
    fn render_panes(&mut self, regions: &Vec<Rect>, theme: &Theme) -> (r: Vec<PanePlan>)
        requires
            old(self).wf(),
            old(self).can_render(),
            regions@.len() == old(self).panes@.len(),
        ensures
            final(self).wf(),
            *final(self) == (App { panes: final(self).panes, ..*old(self) }),
            final(self).panes@.len() == old(self).panes@.len(),
            r@.len() == old(self).panes@.len(),
            forall|i: int|
                0 <= i < r@.len() ==> pane_drawn(
                    *old(self),
                    *final(self),
                    i,
                    regions@[i],
                    *theme,
                    #[trigger] r@[i],
                ),
    {
        let ghost p = *self;
        let mut plans: Vec<PanePlan> = Vec::new();
        let mut i: usize = 0;
        while i < self.panes.len()
            invariant
                p.wf(),
                p.can_render(),
                i <= self.panes@.len(),
                regions@.len() == p.panes@.len(),
                self.panes@.len() == p.panes@.len(),
                plans@.len() == i,
                *self == (App { panes: self.panes, ..p }),
                forall|k: int| i <= k < p.panes@.len() ==> (#[trigger] self.panes@[k]) == p.panes@[k],
                forall|k: int|
                    0 <= k < p.panes@.len() ==> (#[trigger] self.panes@[k]).buffer_id
                        == p.panes@[k].buffer_id,
                forall|k: int|
                    0 <= k < i ==> pane_drawn(
                        p,
                        *self,
                        k,
                        regions@[k],
                        *theme,
                        #[trigger] plans@[k],
                    ),
            decreases self.panes@.len() - i,
        {
            let ghost before = *self;
            assert(self.panes@[i as int] == p.panes@[i as int]);
            let id: usize = self.panes[i].buffer_id;
            let focused = self.focus == Focus::Editor && i == self.focused;
            assert(crate::app::syntax_fits(p.buffers@[id as int]@, p.syntaxes@[id as int]));
            let syntax: Option<&Syntax> = self.syntaxes[id].as_ref();
            let plan = self.panes[i].render(
                regions[i],
                &self.buffers[id],
                syntax,
                focused,
                theme,
                None,
            );
            plans.push(plan);
            proof {
                assert(self.panes@ =~= before.panes@.update(i as int, self.panes@[i as int]));
                assert(pane_drawn(p, *self, i as int, regions@[i as int], *theme, plan));
                assert forall|k: int| 0 <= k < i + 1 implies pane_drawn(
                    p,
                    *self,
                    k,
                    regions@[k],
                    *theme,
                    #[trigger] plans@[k],
                ) by {
                    if k < i {
                        assert(self.panes@[k] == before.panes@[k]);
                        assert(pane_drawn(p, before, k, regions@[k], *theme, plans@[k]));
                    }
                }
            }
            i += 1;
        }
        plans
    }
}

} // verus!
