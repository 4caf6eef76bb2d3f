//! The parts of the screen around the editor: the keybinding hint at the
//! bottom, the help overlay, and how the screen is divided.
use crate::complete::begins_with;
use crate::layout::{
    along, columns, cut_back, cut_front, follows, least_sum, minima, part, shares, side_by_side, split,
    split_back, split_front, stretch, Size, Way,
};
use crate::style::{low16, runs_view, truncate, Color, Rect, Run, RunView, Style};
use crate::text::{chars_of, same_text};
use vstd::prelude::*;

verus! {

/// Width of the file-tree sidebar, in columns.
pub const SIDEBAR_WIDTH: u16 = 28;

/// Width of the docked terminal area, in columns. Fixed (resize is a deliberate
/// non-goal); the PTY resizes to whatever width it is given.
pub const TERMINAL_AREA_WIDTH: u16 = 60;

/// One keybinding, the single source of truth for both the footer hint and the
/// help overlay (so they can't drift). `footer` holds a terse label when the
/// binding should also appear in the bottom hint.
#[derive(Debug, Clone, Copy)]
pub struct KeyBinding {
    pub group: &'static str,
    pub keys: &'static str,
    pub action: &'static str,
    pub footer: Option<&'static str>,
}

/// A keybinding, as a value of the specifications.
#[verifier::ext_equal]
pub struct Binding {
    pub group: Seq<char>,
    pub keys: Seq<char>,
    pub action: Seq<char>,
    pub footer: Option<Seq<char>>,
}

impl View for KeyBinding {
    type V = Binding;

    open spec fn view(&self) -> Binding {
        Binding {
            group: self.group@,
            keys: self.keys@,
            action: self.action@,
            footer: match self.footer {
                Some(f) => Some(f@),
                None => None,
            },
        }
    }
}

/// The values of a list of bindings.
pub open spec fn binding_views(bindings: Seq<KeyBinding>) -> Seq<Binding> {
    bindings.map_values(|b: KeyBinding| b@)
}

/// A keybinding.
pub open spec fn bound(
    group: Seq<char>,
    keys: Seq<char>,
    action: Seq<char>,
    footer: Option<Seq<char>>,
) -> Binding {
    Binding { group, keys, action, footer }
}

/// All user-facing keybindings, grouped. The overlay renders every entry; the
/// footer renders only those with a `footer` label.
pub open spec fn all_bindings() -> Seq<Binding> {
    seq![
        bound("Global"@, "Ctrl+Q"@, "Quit"@, Some("quit"@)),
        bound("Global"@, "Ctrl+B"@, "Show / hide sidebar"@, Some("sidebar"@)),
        bound("Global"@, "Ctrl+J"@, "Show / hide terminal"@, Some("term"@)),
        bound("Global"@, "F1"@, "Toggle this help"@, Some("help"@)),
        bound("Editor"@, "Arrows"@, "Move cursor"@, None),
        bound("Editor"@, "Shift+move"@, "Extend selection"@, None),
        bound("Editor"@, "Home / End"@, "Line start / end"@, None),
        bound("Editor"@, "PageUp / PageDown"@, "Move by a screenful"@, None),
        bound("Editor"@, "Ctrl+S"@, "Save"@, Some("save"@)),
        bound("Editor"@, "Ctrl+E"@, "Split pane vertically"@, Some("split"@)),
        bound("Editor"@, "Ctrl+\\"@, "Split pane (alias)"@, None),
        bound("Editor"@, "Ctrl+W"@, "Close pane"@, Some("close"@)),
        bound("Editor"@, "Alt+Left / Alt+Right"@, "Move focus between panes"@, None),
        bound("Terminal"@, "Ctrl+T"@, "New terminal"@, None),
        bound("Terminal"@, "Ctrl+PageUp / PageDown"@, "Switch terminal"@, None),
        bound("Terminal"@, "Ctrl+W"@, "Close terminal"@, None),
        bound("Sidebar"@, "Up / Down"@, "Move selection"@, None),
        bound("Sidebar"@, "Left / Right"@, "Collapse / expand directory"@, None),
        bound("Sidebar"@, "Enter"@, "Open file / toggle directory"@, None),
    ]
}

fn bind(
    group: &'static str,
    keys: &'static str,
    action: &'static str,
    footer: Option<&'static str>,
) -> (r: KeyBinding)
    ensures
        r.group == group,
        r.keys == keys,
        r.action == action,
        r.footer == footer,
{
    KeyBinding { group, keys, action, footer }
}

/// All user-facing keybindings, grouped.
pub fn bindings() -> (r: Vec<KeyBinding>)
    ensures
        binding_views(r@) == all_bindings(),
{
    let list: Vec<KeyBinding> = vec![
        bind("Global", "Ctrl+Q", "Quit", Some("quit")),
        bind("Global", "Ctrl+B", "Show / hide sidebar", Some("sidebar")),
        bind("Global", "Ctrl+J", "Show / hide terminal", Some("term")),
        bind("Global", "F1", "Toggle this help", Some("help")),
        bind("Editor", "Arrows", "Move cursor", None),
        bind("Editor", "Shift+move", "Extend selection", None),
        bind("Editor", "Home / End", "Line start / end", None),
        bind("Editor", "PageUp / PageDown", "Move by a screenful", None),
        bind("Editor", "Ctrl+S", "Save", Some("save")),
        bind("Editor", "Ctrl+E", "Split pane vertically", Some("split")),
        bind("Editor", "Ctrl+\\", "Split pane (alias)", None),
        bind("Editor", "Ctrl+W", "Close pane", Some("close")),
        bind("Editor", "Alt+Left / Alt+Right", "Move focus between panes", None),
        bind("Terminal", "Ctrl+T", "New terminal", None),
        bind("Terminal", "Ctrl+PageUp / PageDown", "Switch terminal", None),
        bind("Terminal", "Ctrl+W", "Close terminal", None),
        bind("Sidebar", "Up / Down", "Move selection", None),
        bind("Sidebar", "Left / Right", "Collapse / expand directory", None),
        bind("Sidebar", "Enter", "Open file / toggle directory", None),
    ];
    assert(binding_views(list@) =~= all_bindings());
    list
}

// ---------------------------------------------------------------------------
// The footer.

/// A text with every `from` in it, one after the other from the left, replaced
/// by `to`.
pub open spec fn replaced(s: Seq<char>, from: Seq<char>, to: Seq<char>) -> Seq<char>
    decreases s.len(),
{
    if s.len() == 0 || from.len() == 0 {
        s
    } else if begins_with(s, from) {
        to + replaced(s.skip(from.len() as int), from, to)
    } else {
        seq![s[0]] + replaced(s.skip(1), from, to)
    }
}

/// A key string for the narrow footer (`Ctrl+Q` -> `^Q`).
pub open spec fn compact(keys: Seq<char>) -> Seq<char> {
    replaced(replaced(keys, "Ctrl+"@, "^"@), "Alt+"@, "M-"@)
}

fn replace(s: &str, from: &str, to: &str) -> (r: String)
    requires
        from@.len() > 0,
    ensures
        r@ == replaced(s@, from@, to@),
{
    let chars = chars_of(s);
    let pattern = chars_of(from);
    let mut out = String::new();
    let mut i: usize = 0;
    assert(s@.skip(0) =~= s@);
    assert(out@ + replaced(s@, from@, to@) =~= replaced(s@, from@, to@));
    while i < chars.len()
        invariant
            i <= chars@.len(),
            chars@ == s@,
            pattern@ == from@,
            from@.len() > 0,
            out@ + replaced(s@.skip(i as int), from@, to@) == replaced(s@, from@, to@),
        decreases chars@.len() - i,
    {
        let ghost left = s@.skip(i as int);
        let ghost before = out@;
        let here = starts_here(&chars, i, &pattern);
        if here {
            out.append(to);
            i += pattern.len();
            assert(left.skip(from@.len() as int) =~= s@.skip(i as int));
            assert(out@ + replaced(s@.skip(i as int), from@, to@) =~= before + replaced(
                left,
                from@,
                to@,
            ));
        } else {
            out.push(chars[i]);
            i += 1;
            assert(left.skip(1) =~= s@.skip(i as int));
            assert(out@ + replaced(s@.skip(i as int), from@, to@) =~= before + replaced(
                left,
                from@,
                to@,
            ));
        }
    }
    assert(s@.skip(i as int).len() == 0);
    assert(replaced(s@.skip(i as int), from@, to@) =~= Seq::empty());
    assert(out@ =~= out@ + replaced(s@.skip(i as int), from@, to@));
    out
}

fn starts_here(chars: &Vec<char>, i: usize, pattern: &Vec<char>) -> (r: bool)
    requires
        i <= chars@.len(),
    ensures
        r == begins_with(chars@.skip(i as int), pattern@),
{
    if pattern.len() > chars.len() - i {
        return false;
    }
    let mut k: usize = 0;
    while k < pattern.len()
        invariant
            k <= pattern@.len(),
            i + pattern@.len() <= chars@.len(),
            forall|j: int| 0 <= j < k ==> chars@[i + j] == pattern@[j],
        decreases pattern@.len() - k,
    {
        assert(i + k < chars.len());
        if chars[i + k] != pattern[k] {
            assert(chars@.skip(i as int).take(pattern@.len() as int)[k as int]
                != pattern@[k as int]);
            return false;
        }
        k += 1;
    }
    assert(chars@.skip(i as int).take(pattern@.len() as int) =~= pattern@);
    true
}

/// Compact a key string for the narrow footer (`Ctrl+Q` -> `^Q`).
pub fn compact_keys(keys: &str) -> (r: String)
    ensures
        r@ == compact(keys@),
{
    proof {
        reveal_strlit("Ctrl+");
        reveal_strlit("Alt+");
    }
    let short = replace(keys, "Ctrl+", "^");
    replace(short.as_str(), "Alt+", "M-")
}

/// The hint of the first `n` bindings: each that has a label, with its keys.
pub open spec fn hint(bindings: Seq<Binding>, n: int) -> Seq<char>
    decreases n,
{
    if n <= 0 {
        Seq::empty()
    } else {
        let b = bindings[n - 1];
        hint(bindings, n - 1) + (match b.footer {
            Some(label) => "  "@ + compact(b.keys) + " "@ + label + " "@,
            None => Seq::empty(),
        })
    }
}

/// The bottom keybinding hint: the labels of all bindings that have one.
pub open spec fn footer_run() -> RunView {
    RunView {
        text: hint(all_bindings(), all_bindings().len() as int),
        style: Style { bg: Some(Color::DarkGray), fg: Some(Color::White), ..Style::plain() },
    }
}

/// The bottom keybinding hint, so the core chords are discoverable. Built from
/// the bindings so it can never drift from the help overlay.
pub fn render_footer() -> (r: Run)
    ensures
        r@ == footer_run(),
{
    let list = bindings();
    let mut text = String::new();
    let mut i: usize = 0;
    while i < list.len()
        invariant
            i <= list@.len(),
            binding_views(list@) == all_bindings(),
            text@ == hint(all_bindings(), i as int),
        decreases list@.len() - i,
    {
        let ghost before = text@;
        assert(all_bindings()[i as int] == list@[i as int]@);
        if let Some(label) = list[i].footer {
            text.append("  ");
            text.append(compact_keys(list[i].keys).as_str());
            text.append(" ");
            text.append(label);
            text.append(" ");
        }
        i += 1;
        assert(text@ =~= hint(all_bindings(), i as int));
    }
    Run { text, style: Style::new().bg(Color::DarkGray).fg(Color::White) }
}

// ---------------------------------------------------------------------------
// The help overlay.

/// A text with spaces after it up to a width.
pub open spec fn filled(text: Seq<char>, width: int) -> Seq<char> {
    if text.len() >= width {
        text
    } else {
        text + Seq::new((width - text.len()) as nat, |i: int| ' ')
    }
}

/// A line in the default style.
pub open spec fn plain(text: Seq<char>) -> RunView {
    RunView { text, style: Style::plain() }
}

/// A line in one color.
pub open spec fn colored(text: Seq<char>, color: Color) -> RunView {
    RunView { text, style: Style { fg: Some(color), ..Style::plain() } }
}

/// The group of the last of the first `n` bindings.
pub open spec fn group_before(bindings: Seq<Binding>, n: int) -> Seq<char> {
    if n <= 0 {
        Seq::empty()
    } else {
        bindings[n - 1].group
    }
}

/// The lines of the first `n` bindings: where a group begins, its name, with an
/// empty line before it unless it is the first; and for each binding its keys
/// and what they do.
pub open spec fn help_of(bindings: Seq<Binding>, n: int) -> Seq<RunView>
    decreases n,
{
    if n <= 0 {
        Seq::empty()
    } else {
        let b = bindings[n - 1];
        let group = group_before(bindings, n - 1);
        let gap = if b.group != group && group.len() > 0 {
            seq![plain(Seq::empty())]
        } else {
            Seq::empty()
        };
        let head = if b.group != group {
            seq![colored(b.group, Color::Yellow)]
        } else {
            Seq::empty()
        };
        help_of(bindings, n - 1) + gap + head + seq![
            plain("  "@ + filled(b.keys, 22) + " "@ + b.action),
        ]
    }
}

/// The lines of the help overlay.
pub open spec fn help_lines() -> Seq<RunView> {
    help_of(all_bindings(), all_bindings().len() as int) + seq![
        plain(Seq::empty()),
        colored("  Esc or F1 to close"@, Color::DarkGray),
    ]
}

/// The help overlay: where it goes, its border and its lines.
#[derive(Debug)]
pub struct HelpPlan {
    pub area: Rect,
    pub title: &'static str,
    pub border: Style,
    pub lines: Vec<Run>,
}

proof fn lemma_runs_push(runs: Seq<Run>, run: Run)
    ensures
        runs_view(runs.push(run)) == runs_view(runs).push(run@),
{
    assert(runs_view(runs.push(run)) =~= runs_view(runs).push(run@));
}

/// Adds a line.
fn add_line(lines: &mut Vec<Run>, text: String, color: Option<Color>)
    ensures
        runs_view(final(lines)@) == runs_view(old(lines)@).push(
            RunView { text: text@, style: Style { fg: color, ..Style::plain() } },
        ),
{
    let style = match color {
        Some(c) => Style::new().fg(c),
        None => Style::new(),
    };
    let run = Run { text, style };
    proof {
        lemma_runs_push(lines@, run);
    }
    lines.push(run);
}

/// The keys and the action of a binding, in columns.
fn binding_line(b: &KeyBinding) -> (r: String)
    ensures
        r@ == "  "@ + filled(b@.keys, 22) + " "@ + b@.action,
{
    let mut line = "  ".to_owned();
    let ghost head = line@;
    line.append(b.keys);
    let count: usize = b.keys.unicode_len();
    let mut n: usize = count;
    let ghost mut pad = Seq::<char>::empty();
    assert(line@ =~= head + b.keys@ + pad);
    while n < 22
        invariant
            count == b.keys@.len(),
            count <= n,
            n <= 22 || n == count,
            pad =~= Seq::new((n - count) as nat, |i: int| ' '),
            line@ == head + b.keys@ + pad,
        decreases 22 - n,
    {
        line.push(' ');
        n += 1;
        proof {
            pad = pad.push(' ');
        }
        assert(line@ =~= head + b.keys@ + pad);
    }
    assert(b.keys@ + pad =~= filled(b@.keys, 22));
    assert(line@ =~= head + filled(b@.keys, 22));
    line.append(" ");
    line.append(b.action);
    line
}

/// The lines of the help overlay.
pub fn help_text() -> (r: Vec<Run>)
    ensures
        runs_view(r@) == help_lines(),
{
    let list = bindings();
    let mut lines: Vec<Run> = Vec::new();
    let mut group: &'static str = "";
    let mut i: usize = 0;
    proof {
        reveal_strlit("");
        assert(group@ =~= Seq::empty());
        assert(runs_view(lines@) =~= Seq::empty());
    }
    while i < list.len()
        invariant
            i <= list@.len(),
            binding_views(list@) == all_bindings(),
            group@ == group_before(all_bindings(), i as int),
            runs_view(lines@) == help_of(all_bindings(), i as int),
        decreases list@.len() - i,
    {
        let b = &list[i];
        assert(all_bindings()[i as int] == b@);
        let ghost before = runs_view(lines@);
        let ghost was = group@;
        if !same_text(b.group, group) {
            if group.unicode_len() > 0 {
                add_line(&mut lines, String::new(), None);
            }
            add_line(&mut lines, b.group.to_owned(), Some(Color::Yellow));
            group = b.group;
        }
        add_line(&mut lines, binding_line(b), None);
        i += 1;
        assert(runs_view(lines@) =~= help_of(all_bindings(), i as int));
    }
    let ghost all = runs_view(lines@);
    add_line(&mut lines, String::new(), None);
    add_line(&mut lines, "  Esc or F1 to close".to_owned(), Some(Color::DarkGray));
    assert(runs_view(lines@) =~= help_lines());
    lines
}

/// Whether a plan is that of the help overlay: the keybindings under a title, in
/// a blue border, centered over the screen.
pub open spec fn is_help(screen: Rect, plan: HelpPlan) -> bool {
    &&& plan.area == centered(screen, 52, low16(help_lines().len() as int + 2))
    &&& plan.title@ == " NyxVim — Keybindings "@
    &&& plan.border == Style { fg: Some(Color::Blue), ..Style::plain() }
    &&& runs_view(plan.lines@) == help_lines()
}

/// The help overlay, centered over the screen. Modal: input is swallowed while
/// it is visible.
pub fn render_help_overlay(screen: Rect) -> (r: HelpPlan)
    requires
        screen.wf(),
    ensures
        is_help(screen, r),
{
    let lines = help_text();
    assert(runs_view(lines@).len() == lines@.len());
    // + borders
    let height: u16 = truncate(lines.len());
    let tall: u16 = truncate(height as usize + 2);
    proof {
        lemma_low16_sum(lines@.len() as int, 2);
    }
    HelpPlan {
        area: centered_rect(screen, 52, tall),
        title: " NyxVim — Keybindings ",
        border: Style::new().fg(Color::Blue),
        lines,
    }
}

proof fn lemma_low16_sum(a: int, b: int)
    requires
        0 <= a,
        0 <= b,
    ensures
        low16(low16(a) + b) == low16(a + b),
{
}

/// A `width`x`height` rectangle centered within `area`, clamped to fit.
pub open spec fn centered(area: Rect, width: u16, height: u16) -> Rect {
    let w = if width <= area.width {
        width
    } else {
        area.width
    };
    let h = if height <= area.height {
        height
    } else {
        area.height
    };
    Rect {
        x: (area.x + (area.width - w) / 2) as u16,
        y: (area.y + (area.height - h) / 2) as u16,
        width: w,
        height: h,
    }
}

/// A `width`x`height` rectangle centered within `area`, clamped to fit.
pub fn centered_rect(area: Rect, width: u16, height: u16) -> (r: Rect)
    requires
        area.wf(),
    ensures
        r == centered(area, width, height),
{
    let w: u16 = if width <= area.width {
        width
    } else {
        area.width
    };
    let h: u16 = if height <= area.height {
        height
    } else {
        area.height
    };
    let x: u16 = area.x + (area.width - w) / 2;
    let y: u16 = area.y + (area.height - h) / 2;
    Rect::new(x, y, w, h)
}

/// A centered rectangle lies within its area, with the same room, to a cell, on
/// either side.
pub proof fn centered_fits(area: Rect, width: u16, height: u16)
    requires
        area.wf(),
    ensures
        ({
            let r = centered(area, width, height);
            &&& area.x <= r.x
            &&& r.x + r.width <= area.x + area.width
            &&& area.y <= r.y
            &&& r.y + r.height <= area.y + area.height
            &&& r.width == width || r.width == area.width
            &&& r.height == height || r.height == area.height
            &&& 0 <= (area.x + area.width - r.x - r.width) - (r.x - area.x) <= 1
            &&& 0 <= (area.y + area.height - r.y - r.height) - (r.y - area.y) <= 1
        }),
{
}

// ---------------------------------------------------------------------------
// The screen.

/// Where the regions of the screen are.
#[derive(Debug)]
pub struct Regions {
    pub footer: Rect,
    pub sidebar: Option<Rect>,
    /// The divider before the terminal area, and the area.
    pub terminal: Option<(Rect, Rect)>,
    /// What is left for the editor panes.
    pub editors: Rect,
    /// The editor panes, from left to right.
    pub panes: Vec<Rect>,
    /// The dividers between them.
    pub dividers: Vec<Rect>,
}

/// Whether an area is divided among the editors, a divider of one column and the
/// terminal area, which follow on one another. The latter two have their widths
/// if there is room for them; if not, they take all there is, and the divider no
/// more than its column.
pub open spec fn docked(area: Rect, editors: Rect, divider: Rect, terminal: Rect) -> bool {
    let all = along(area, Way::Across);
    let e = stretch(editors, Way::Across);
    let d = stretch(divider, Way::Across);
    let t = stretch(terminal, Way::Across);
    &&& editors == part(area, Way::Across, e)
    &&& divider == part(area, Way::Across, d)
    &&& terminal == part(area, Way::Across, t)
    &&& e.start == all.start
    &&& d.start == e.start + e.len
    &&& t.start == d.start + d.len
    &&& t.start + t.len == all.start + all.len
    &&& 1 + TERMINAL_AREA_WIDTH <= all.len ==> d.len == 1 && t.len == TERMINAL_AREA_WIDTH
    &&& all.len < 1 + TERMINAL_AREA_WIDTH ==> e.len == 0 && d.len <= 1 && t.len
        <= TERMINAL_AREA_WIDTH
}

/// Whether the screen is divided into regions: a one-row footer at the bottom,
/// above it the sidebar at the left if it is shown, the terminal area at the
/// right if it is shown, and the panes side by side in the rest.
pub open spec fn is_divided(screen: Rect, sidebar: bool, terminal: bool, r: Regions) -> bool {
    let (body, footer) = cut_back(screen, Way::Down, 1, 1);
    let (left, beside) = cut_front(body, Way::Across, SIDEBAR_WIDTH, 0);
    let main = if sidebar {
        beside
    } else {
        body
    };
    &&& r.footer == footer
    &&& r.sidebar == if sidebar {
        Some(left)
    } else {
        None
    }
    &&& match r.terminal {
        Some((divider, area)) => terminal && docked(main, r.editors, divider, area),
        None => !terminal && r.editors == main,
    }
    &&& side_by_side(r.editors, r.panes@, r.dividers@)
}

/// Divides the screen: a one-row keybinding hint at the very bottom; above it
/// the sidebar on the left when visible, the terminal area docked on the right
/// when visible, with a thin divider before it, and the editor panes in the
/// rest, with a one-column divider between adjacent panes.
pub fn divide(screen: Rect, sidebar: bool, terminal: bool, panes: usize) -> (r: Regions)
    requires
        0 < panes,
        2 * panes - 1 <= usize::MAX,
    ensures
        is_divided(screen, sidebar, terminal, r),
        r.panes@.len() == panes,
{
    let (body, footer) = split_back(screen, Way::Down, Size::Min(1), 1);
    let (left, main) = if sidebar {
        let (left, main) = split_front(body, Way::Across, SIDEBAR_WIDTH, Size::Fill(1));
        (Some(left), main)
    } else {
        (None, body)
    };
    let (right, editors) = if terminal {
        let (editors, divider, area) = dock(main);
        (Some((divider, area)), editors)
    } else {
        (None, main)
    };
    let (areas, dividers) = columns(editors, panes);
    Regions { footer, sidebar: left, terminal: right, editors, panes: areas, dividers }
}

/// Divides an area among the editors, a divider and the terminal area.
fn dock(area: Rect) -> (r: (Rect, Rect, Rect))
    ensures
        docked(area, r.0, r.1, r.2),
{
    let (fill, one, wide) = (Size::Fill(1), Size::Length(1), Size::Length(TERMINAL_AREA_WIDTH));
    let mut sizes: Vec<Size> = Vec::new();
    sizes.push(fill);
    sizes.push(one);
    sizes.push(wide);
    let parts = split(area, Way::Across, &sizes);
    proof {
        assert(sizes@ =~= seq![fill, one, wide]);
        assert(sizes@.drop_last() =~= seq![fill, one]);
        assert(seq![fill, one].drop_last() =~= seq![fill]);
        assert(seq![fill].drop_last() =~= Seq::<Size>::empty());
        reveal_with_fuel(minima, 4);
        reveal_with_fuel(shares, 4);
        reveal_with_fuel(least_sum, 4);
        assert(follows(parts@, Way::Across, 1));
        assert(follows(parts@, Way::Across, 2));
        assert forall|i: int| 0 <= i < 3 implies (#[trigger] parts@[i]) == part(
            area,
            Way::Across,
            stretch(parts@[i], Way::Across),
        ) by {}
    }
    (parts[0], parts[1], parts[2])
}

/// The footer is the last row of the screen. The sidebar stands at the left, in
/// twenty-eight columns, and the terminals at the right, in sixty, with a column
/// between them and the editors, which have the rest. What is hidden takes no
/// room.
pub proof fn regions_stand_where_they_belong(
    screen: Rect,
    sidebar: bool,
    terminal: bool,
    r: Regions,
)
    requires
        screen.wf(),
        screen.height >= 2,
        screen.width >= 100,
        is_divided(screen, sidebar, terminal, r),
    ensures
        r.footer == (Rect {
            x: screen.x,
            y: (screen.y + screen.height - 1) as u16,
            width: screen.width,
            height: 1,
        }),
        r.sidebar is Some <==> sidebar,
        r.sidebar matches Some(s) ==> s == (Rect {
            width: 28,
            height: (screen.height - 1) as u16,
            ..screen
        }),
        r.terminal is Some <==> terminal,
        r.terminal matches Some((d, t)) ==> {
            &&& t.x + t.width == screen.x + screen.width && t.width == 60
            &&& d.x + 1 == t.x && d.width == 1
            &&& t.y == screen.y && t.height == screen.height - 1
            &&& r.editors.x + r.editors.width == d.x
        },
        !terminal ==> r.editors.x + r.editors.width == screen.x + screen.width,
        r.editors.x == (if sidebar {
            screen.x + 28
        } else {
            screen.x as int
        }),
        r.editors.y == screen.y && r.editors.height == screen.height - 1,
{
}

/// What is replaced is replaced wherever it stands, and the rest stays: at the
/// front of a text it becomes the new text, before what the rest becomes, and a
/// text that does not have it is left alone.
pub proof fn replacing_touches_only_what_it_finds(
    s: Seq<char>,
    from: Seq<char>,
    to: Seq<char>,
    rest: Seq<char>,
)
    requires
        from.len() > 0,
    ensures
        replaced(from + rest, from, to) == to + replaced(rest, from, to),
        (forall|i: int| 0 <= i < s.len() ==> #[trigger] s[i] != from[0]) ==> replaced(s, from, to)
            == s,
    decreases s.len(),
{
    let all = from + rest;
    assert(all.take(from.len() as int) =~= from);
    assert(all.skip(from.len() as int) =~= rest);
    if s.len() > 0 && (forall|i: int| 0 <= i < s.len() ==> #[trigger] s[i] != from[0]) {
        assert(s[0] != from[0]);
        if begins_with(s, from) {
            assert(s.take(from.len() as int)[0] == s[0]);
        }
        let tail = s.skip(1);
        assert forall|i: int| 0 <= i < tail.len() implies #[trigger] tail[i] != from[0] by {
            assert(tail[i] == s[i + 1]);
        }
        replacing_touches_only_what_it_finds(tail, from, to, rest);
        assert(seq![s[0]] + tail =~= s);
    }
}

/// Every binding is in the help, with its keys in a column of their own and what
/// they do behind them.
pub proof fn the_help_lists_every_binding(bindings: Seq<Binding>, n: int, i: int)
    requires
        0 <= i < n <= bindings.len(),
    ensures
        exists|k: int|
            0 <= k < help_of(bindings, n).len() && (#[trigger] help_of(bindings, n)[k]).text
                == seq![' ', ' '] + filled(bindings[i].keys, 22) + seq![' '] + bindings[i].action,
        filled(bindings[i].keys, 22).take(bindings[i].keys.len() as int) == bindings[i].keys,
        filled(bindings[i].keys, 22).len() >= 22,
    decreases n,
{
    reveal_strlit("  ");
    reveal_strlit(" ");
    assert("  "@ =~= seq![' ', ' ']);
    assert(" "@ =~= seq![' ']);
    let all = help_of(bindings, n);
    let keys = bindings[i].keys;
    assert(filled(keys, 22).take(keys.len() as int) =~= keys);
    let line = seq![' ', ' '] + filled(keys, 22) + seq![' '] + bindings[i].action;
    if i == n - 1 {
        assert(all[all.len() - 1].text == line);
    } else {
        the_help_lists_every_binding(bindings, n - 1, i);
        let before = help_of(bindings, n - 1);
        let k = choose|k: int| 0 <= k < before.len() && (#[trigger] before[k]).text == line;
        assert(all[k] == before[k]);
    }
}

/// The hint names a binding if it has a label, with its keys in short before the
/// label, and leaves out every other.
pub proof fn the_hint_names_labelled_bindings(bindings: Seq<Binding>, n: int)
    requires
        0 < n <= bindings.len(),
    ensures
        hint(bindings, 0) == Seq::<char>::empty(),
        bindings[n - 1].footer is None ==> hint(bindings, n) == hint(bindings, n - 1),
        bindings[n - 1].footer matches Some(label) ==> hint(bindings, n) == hint(bindings, n - 1)
            + (seq![' ', ' '] + compact(bindings[n - 1].keys) + seq![' '] + label + seq![' ']),
{
    reveal_strlit("  ");
    reveal_strlit(" ");
    assert("  "@ =~= seq![' ', ' ']);
    assert(" "@ =~= seq![' ']);
    assert(hint(bindings, n - 1) + Seq::<char>::empty() =~= hint(bindings, n - 1));
}

/// Keys are written in short with a caret for Ctrl and an M for Alt.
pub proof fn keys_in_short(key: char)
    requires
        key != 'C',
        key != 'A',
    ensures
        compact(seq!['C', 't', 'r', 'l', '+', key]) == seq!['^', key],
        compact(seq!['A', 'l', 't', '+', key]) == seq!['M', '-', key],
        compact(seq![key]) == seq![key],
{
    reveal_strlit("Ctrl+");
    reveal_strlit("^");
    reveal_strlit("Alt+");
    reveal_strlit("M-");
    let ctrl = seq!['C', 't', 'r', 'l', '+'];
    let alt = seq!['A', 'l', 't', '+'];
    assert("Ctrl+"@ =~= ctrl);
    assert("Alt+"@ =~= alt);
    assert("^"@ =~= seq!['^']);
    assert("M-"@ =~= seq!['M', '-']);
    let one = seq![key];
    let c = seq!['C', 't', 'r', 'l', '+', key];
    assert(c =~= ctrl + one);
    replacing_touches_only_what_it_finds(one, ctrl, seq!['^'], one);
    assert(seq!['^'] + one =~= seq!['^', key]);
    let short = seq!['^', key];
    assert(forall|i: int| 0 <= i < short.len() ==> #[trigger] short[i] != 'A');
    replacing_touches_only_what_it_finds(short, alt, seq!['M', '-'], one);
    let a = seq!['A', 'l', 't', '+', key];
    assert(forall|i: int| 0 <= i < a.len() ==> #[trigger] a[i] != 'C');
    replacing_touches_only_what_it_finds(a, ctrl, seq!['^'], one);
    assert(a =~= alt + one);
    replacing_touches_only_what_it_finds(one, alt, seq!['M', '-'], one);
    assert(seq!['M', '-'] + one =~= seq!['M', '-', key]);
}

/// The help names the chords and what they do.
pub proof fn the_bindings_name_the_chords()
    ensures
        all_bindings().contains(bound("Global"@, "Ctrl+Q"@, "Quit"@, Some("quit"@))),
        all_bindings().contains(
            bound("Global"@, "Ctrl+B"@, "Show / hide sidebar"@, Some("sidebar"@)),
        ),
        all_bindings().contains(
            bound("Global"@, "Ctrl+J"@, "Show / hide terminal"@, Some("term"@)),
        ),
        all_bindings().contains(bound("Global"@, "F1"@, "Toggle this help"@, Some("help"@))),
        all_bindings().contains(bound("Editor"@, "Ctrl+S"@, "Save"@, Some("save"@))),
        all_bindings().contains(
            bound("Editor"@, "Ctrl+E"@, "Split pane vertically"@, Some("split"@)),
        ),
        all_bindings().contains(bound("Editor"@, "Ctrl+W"@, "Close pane"@, Some("close"@))),
        all_bindings().contains(
            bound("Editor"@, "Alt+Left / Alt+Right"@, "Move focus between panes"@, None),
        ),
        all_bindings().contains(bound("Terminal"@, "Ctrl+T"@, "New terminal"@, None)),
        all_bindings().contains(bound("Terminal"@, "Ctrl+W"@, "Close terminal"@, None)),
{
    let all = all_bindings();
    assert(all[0] == bound("Global"@, "Ctrl+Q"@, "Quit"@, Some("quit"@)));
    assert(all[1] == bound("Global"@, "Ctrl+B"@, "Show / hide sidebar"@, Some("sidebar"@)));
    assert(all[2] == bound("Global"@, "Ctrl+J"@, "Show / hide terminal"@, Some("term"@)));
    assert(all[3] == bound("Global"@, "F1"@, "Toggle this help"@, Some("help"@)));
    assert(all[8] == bound("Editor"@, "Ctrl+S"@, "Save"@, Some("save"@)));
    assert(all[9] == bound("Editor"@, "Ctrl+E"@, "Split pane vertically"@, Some("split"@)));
    assert(all[11] == bound("Editor"@, "Ctrl+W"@, "Close pane"@, Some("close"@)));
    assert(all[12] == bound(
        "Editor"@,
        "Alt+Left / Alt+Right"@,
        "Move focus between panes"@,
        None,
    ));
    assert(all[13] == bound("Terminal"@, "Ctrl+T"@, "New terminal"@, None));
    assert(all[15] == bound("Terminal"@, "Ctrl+W"@, "Close terminal"@, None));
}

} // verus!
