//! The central application state: what every key does to it.
//!
//! [`App`] is the single owner of all application state: the central buffer
//! store, the editor panes, the file tree, the terminal area, and focus. It
//! reads and writes nothing: where a key asks for a file, a directory or a
//! shell, the [`Action`] that comes back says so, and the caller hands in what
//! came of it.
use crate::buffer::{Buffer, BufferState, SaveJob};
use crate::caret::Caret;
use crate::editing::{pressed, typing_replaces_the_selection};
use crate::fan_out::{
    batch_start, by_start, fanned_out, index_at, plans_of, Batch, Slot, Stroke,
};
use crate::file_tree::{clamped, node_views, Activation, Change, FileTree};
use crate::key::{KeyCode, KeyEvent};
use crate::lsp::registry::language_in;
use crate::motion::{moved_cursor, Move};
use crate::pane::{all_carets, EditorPane};
use crate::paths::{file_name_bytes, path_bytes};
use crate::syntax::{has_grammar, Syntax};
use crate::terminal_area::{lemma_wraps, AreaState, TerminalArea};
use crate::terminal_pane::{input_bytes, TerminalPane};
use std::path::PathBuf;
use vstd::prelude::*;

verus! {

/// Which region currently receives keyboard input.
#[derive(Debug, Clone, Copy, PartialEq, Eq, Structural)]
pub enum Focus {
    Sidebar,
    Editor,
    Terminal,
}

/// What a key asks of the world outside.
#[derive(Debug)]
pub enum Action {
    Nothing,
    /// Write a file, and say so with [`App::saved`] if it worked.
    Save { buffer_id: usize, job: SaveJob },
    /// Read a file, and hand its buffer to [`App::open_in_focused_pane`].
    OpenFile(PathBuf),
    /// Read a directory, and hand its entries to the tree.
    ReadDir(PathBuf),
    /// Spawn a shell, and say so with [`App::terminal_spawned`] if it worked.
    SpawnTerminal { id: usize },
    /// Send bytes to a shell.
    TerminalInput { id: usize, bytes: Vec<u8> },
}

/// Central application state — the single owner of everything the editor tracks.
pub struct App {
    pub should_quit: bool,
    /// Central buffer store; editor panes reference entries by index.
    pub buffers: Vec<Buffer>,
    /// Per-buffer highlighter (parallel to `buffers`); `None` when the buffer's
    /// language has no bundled grammar.
    pub syntaxes: Vec<Option<Syntax>>,
    /// Side-by-side editor panes (vertical splits).
    pub panes: Vec<EditorPane>,
    /// Index into `panes` of the editor pane receiving input.
    pub focused: usize,
    /// The docked terminal area: multiple terminals, toggled as one unit.
    pub terminal_area: TerminalArea,
    pub tree: FileTree,
    pub focus: Focus,
    /// Monotonic id source for terminal panes.
    pub next_terminal_id: usize,
    /// Whether the keybinding help overlay is currently shown.
    pub help_visible: bool,
    /// Whether the file-tree sidebar is shown.
    pub sidebar_visible: bool,
}

// ---------------------------------------------------------------------------
// What a key means.

/// What a key does.
#[derive(Debug, Clone, Copy, PartialEq, Eq, Structural)]
pub enum Command {
    /// Nothing.
    Ignore,
    ToggleHelp,
    CloseHelp,
    Quit,
    ToggleSidebar,
    ToggleTerminal,
    TreePrev,
    TreeNext,
    TreeCollapse,
    TreeExpand,
    TreeActivate,
    Split,
    ClosePane,
    FocusPrev,
    FocusNext,
    SpawnTerminal,
    CloseTerminal,
    TerminalPrev,
    TerminalNext,
    /// The key goes to the active terminal's shell.
    Forward,
    /// The key goes to the focused editor pane.
    Edit(EditorCommand),
}

/// What a key does to an editor pane.
#[derive(Debug, Clone, Copy, PartialEq, Eq, Structural)]
pub enum EditorCommand {
    Save,
    Left,
    Right,
    Up,
    Down,
    LineStart,
    LineEnd,
    PageUp,
    PageDown,
    Newline,
    Backspace,
    Delete,
    Tab,
    Insert(char),
}

/// What a key does to an editor pane, if anything: an editing or movement key,
/// or a printable character that isn't part of a Ctrl/Alt chord.
pub open spec fn editor_command(key: KeyEvent) -> Command {
    match key.code {
        KeyCode::Char(c) => if c == 's' && key.modifiers.ctrl {
            Command::Edit(EditorCommand::Save)
        } else if !key.modifiers.ctrl && !key.modifiers.alt {
            Command::Edit(EditorCommand::Insert(c))
        } else {
            Command::Ignore
        },
        KeyCode::Left => Command::Edit(EditorCommand::Left),
        KeyCode::Right => Command::Edit(EditorCommand::Right),
        KeyCode::Up => Command::Edit(EditorCommand::Up),
        KeyCode::Down => Command::Edit(EditorCommand::Down),
        KeyCode::Home => Command::Edit(EditorCommand::LineStart),
        KeyCode::End => Command::Edit(EditorCommand::LineEnd),
        KeyCode::PageUp => Command::Edit(EditorCommand::PageUp),
        KeyCode::PageDown => Command::Edit(EditorCommand::PageDown),
        KeyCode::Enter => Command::Edit(EditorCommand::Newline),
        KeyCode::Backspace => Command::Edit(EditorCommand::Backspace),
        KeyCode::Delete => Command::Edit(EditorCommand::Delete),
        KeyCode::Tab => Command::Edit(EditorCommand::Tab),
        _ => Command::Ignore,
    }
}

/// What a key does while the pane area is focused: pane-management chords,
/// otherwise what it does to the focused pane.
pub open spec fn pane_command(key: KeyEvent) -> Command {
    let ctrl = key.modifiers.ctrl;
    let alt = key.modifiers.alt;
    if ctrl && (key.code == KeyCode::Char('e') || key.code == KeyCode::Char('\\')) {
        Command::Split
    } else if ctrl && key.code == KeyCode::Char('t') {
        Command::SpawnTerminal
    } else if ctrl && key.code == KeyCode::Char('w') {
        Command::ClosePane
    } else if alt && key.code == KeyCode::Left {
        Command::FocusPrev
    } else if alt && key.code == KeyCode::Right {
        Command::FocusNext
    } else {
        editor_command(key)
    }
}

/// What a key does while the sidebar is focused.
pub open spec fn sidebar_command(key: KeyEvent) -> Command {
    match key.code {
        KeyCode::Up => Command::TreePrev,
        KeyCode::Down => Command::TreeNext,
        KeyCode::Left => Command::TreeCollapse,
        KeyCode::Right => Command::TreeExpand,
        KeyCode::Enter => Command::TreeActivate,
        _ => Command::Ignore,
    }
}

/// What a key does while the terminal area is focused: area-management chords,
/// otherwise it goes to the shell.
pub open spec fn terminal_command(key: KeyEvent) -> Command {
    let ctrl = key.modifiers.ctrl;
    if ctrl && key.code == KeyCode::Char('t') {
        Command::SpawnTerminal
    } else if ctrl && key.code == KeyCode::Char('w') {
        Command::CloseTerminal
    } else if ctrl && key.code == KeyCode::PageUp {
        Command::TerminalPrev
    } else if ctrl && key.code == KeyCode::PageDown {
        Command::TerminalNext
    } else {
        Command::Forward
    }
}

/// What a key does. The help overlay is modal: F1 toggles it, and while it is
/// open every other key is swallowed (Esc also closes it). Then come the global
/// chords; the rest is up to the region that has focus.
pub open spec fn command(focus: Focus, help_visible: bool, key: KeyEvent) -> Command {
    let ctrl = key.modifiers.ctrl;
    if key.code == KeyCode::F(1) {
        Command::ToggleHelp
    } else if help_visible {
        if key.code == KeyCode::Esc {
            Command::CloseHelp
        } else {
            Command::Ignore
        }
    } else if ctrl && key.code == KeyCode::Char('q') {
        Command::Quit
    } else if ctrl && key.code == KeyCode::Char('b') {
        Command::ToggleSidebar
    } else if ctrl && key.code == KeyCode::Char('j') {
        Command::ToggleTerminal
    } else {
        match focus {
            Focus::Sidebar => sidebar_command(key),
            Focus::Editor => pane_command(key),
            Focus::Terminal => terminal_command(key),
        }
    }
}

fn editor_command_of(key: KeyEvent) -> (r: Command)
    ensures
        r == editor_command(key),
{
    match key.code {
        KeyCode::Char(c) => if c == 's' && key.modifiers.ctrl {
            Command::Edit(EditorCommand::Save)
        } else if !key.modifiers.ctrl && !key.modifiers.alt {
            Command::Edit(EditorCommand::Insert(c))
        } else {
            Command::Ignore
        },
        KeyCode::Left => Command::Edit(EditorCommand::Left),
        KeyCode::Right => Command::Edit(EditorCommand::Right),
        KeyCode::Up => Command::Edit(EditorCommand::Up),
        KeyCode::Down => Command::Edit(EditorCommand::Down),
        KeyCode::Home => Command::Edit(EditorCommand::LineStart),
        KeyCode::End => Command::Edit(EditorCommand::LineEnd),
        KeyCode::PageUp => Command::Edit(EditorCommand::PageUp),
        KeyCode::PageDown => Command::Edit(EditorCommand::PageDown),
        KeyCode::Enter => Command::Edit(EditorCommand::Newline),
        KeyCode::Backspace => Command::Edit(EditorCommand::Backspace),
        KeyCode::Delete => Command::Edit(EditorCommand::Delete),
        KeyCode::Tab => Command::Edit(EditorCommand::Tab),
        _ => Command::Ignore,
    }
}

fn pane_command_of(key: KeyEvent) -> (r: Command)
    ensures
        r == pane_command(key),
{
    let ctrl = key.modifiers.ctrl;
    let alt = key.modifiers.alt;
    match key.code {
        // Primary split chord. `ctrl+e` is layout-independent and reachable
        // (e.g. on ABNT, where `ctrl+\` is impractical); `ctrl+\` stays as
        // a secondary alias.
        KeyCode::Char('e') if ctrl => Command::Split,
        KeyCode::Char('\\') if ctrl => Command::Split,
        KeyCode::Char('t') if ctrl => Command::SpawnTerminal,
        KeyCode::Char('w') if ctrl => Command::ClosePane,
        KeyCode::Left if alt => Command::FocusPrev,
        KeyCode::Right if alt => Command::FocusNext,
        _ => editor_command_of(key),
    }
}

fn sidebar_command_of(key: KeyEvent) -> (r: Command)
    ensures
        r == sidebar_command(key),
{
    match key.code {
        KeyCode::Up => Command::TreePrev,
        KeyCode::Down => Command::TreeNext,
        KeyCode::Left => Command::TreeCollapse,
        KeyCode::Right => Command::TreeExpand,
        KeyCode::Enter => Command::TreeActivate,
        _ => Command::Ignore,
    }
}

fn terminal_command_of(key: KeyEvent) -> (r: Command)
    ensures
        r == terminal_command(key),
{
    let ctrl = key.modifiers.ctrl;
    match key.code {
        KeyCode::Char('t') if ctrl => Command::SpawnTerminal,
        KeyCode::Char('w') if ctrl => Command::CloseTerminal,
        KeyCode::PageUp if ctrl => Command::TerminalPrev,
        KeyCode::PageDown if ctrl => Command::TerminalNext,
        _ => Command::Forward,
    }
}

/// What a key does.
pub fn command_of(focus: Focus, help_visible: bool, key: KeyEvent) -> (r: Command)
    ensures
        r == command(focus, help_visible, key),
{
    let ctrl = key.modifiers.ctrl;
    match key.code {
        KeyCode::F(1) => return Command::ToggleHelp,
        KeyCode::Esc if help_visible => return Command::CloseHelp,
        _ if help_visible => return Command::Ignore,
        KeyCode::Char('q') if ctrl => return Command::Quit,
        KeyCode::Char('b') if ctrl => return Command::ToggleSidebar,
        KeyCode::Char('j') if ctrl => return Command::ToggleTerminal,
        _ => {},
    }
    match focus {
        Focus::Sidebar => sidebar_command_of(key),
        Focus::Editor => pane_command_of(key),
        Focus::Terminal => terminal_command_of(key),
    }
}

// ---------------------------------------------------------------------------
// Editing.

/// Whether a character can be typed `n` times.
pub open spec fn can_repeat(p: EditorPane, b: BufferState, ch: char, n: nat) -> bool
    decreases n,
{
    n == 0 || {
        &&& p.can_insert(b, ch)
        &&& forall|q: EditorPane, c: BufferState| #[trigger]
            p.inserted(b, ch, q, c) ==> can_repeat(q, c, ch, (n - 1) as nat)
    }
}

/// What typing a character `n` times makes of a pane and its buffer.
pub open spec fn repeated(
    p: EditorPane,
    b: BufferState,
    ch: char,
    n: nat,
    q: EditorPane,
    c: BufferState,
) -> bool
    decreases n,
{
    if n == 0 {
        q == p && c == b
    } else {
        exists|m: EditorPane, d: BufferState| #[trigger]
            p.inserted(b, ch, m, d) && repeated(m, d, ch, (n - 1) as nat, q, c)
    }
}

/// Whether a pane and its buffer can take a command: the carets it edits at are
/// within the text, and the sums it takes can be held by the machine.
pub open spec fn can_take(p: EditorPane, b: BufferState, cmd: EditorCommand) -> bool {
    match cmd {
        EditorCommand::PageDown => p.can_move(b.text, Move::PageDown(p.page())),
        EditorCommand::Newline => p.can_break(b),
        EditorCommand::Backspace => p.can_backspace(b),
        EditorCommand::Delete => p.can_delete(b),
        EditorCommand::Tab => can_repeat(p, b, ' ', 4),
        EditorCommand::Insert(c) => p.can_insert(b, c),
        _ => true,
    }
}

/// What is to be written of a buffer, if it has a file.
pub open spec fn saves(b: BufferState, job: Option<SaveJob>) -> bool {
    match job {
        Some(j) => b.path == Some(path_bytes(j.path)) && j.text@ == b.text,
        None => b.path is None,
    }
}

/// What a command makes of a pane and its buffer, and what is to be written.
/// Tab inserts spaces so one character always equals one column.
pub open spec fn took(
    p: EditorPane,
    b: BufferState,
    cmd: EditorCommand,
    extend: bool,
    q: EditorPane,
    c: BufferState,
    job: Option<SaveJob>,
) -> bool {
    match cmd {
        EditorCommand::Save => q == p && c == b.finalized() && saves(b, job),
        EditorCommand::Left => p.moved_to(q, b.text, Move::Left, extend) && c == b && job is None,
        EditorCommand::Right => p.moved_to(q, b.text, Move::Right, extend) && c == b
            && job is None,
        EditorCommand::Up => p.moved_to(q, b.text, Move::Up, extend) && c == b && job is None,
        EditorCommand::Down => p.moved_to(q, b.text, Move::Down, extend) && c == b && job is None,
        EditorCommand::LineStart => p.moved_to(q, b.text, Move::LineStart, extend) && c == b
            && job is None,
        EditorCommand::LineEnd => p.moved_to(q, b.text, Move::LineEnd, extend) && c == b
            && job is None,
        EditorCommand::PageUp => p.moved_to(q, b.text, Move::PageUp(p.page()), extend) && c == b
            && job is None,
        EditorCommand::PageDown => p.moved_to(q, b.text, Move::PageDown(p.page()), extend) && c
            == b && job is None,
        EditorCommand::Newline => p.broken(b, q, c) && job is None,
        EditorCommand::Backspace => p.backspaced(b, q, c) && job is None,
        EditorCommand::Delete => p.deleted(b, q, c) && job is None,
        EditorCommand::Tab => repeated(p, b, ' ', 4, q, c) && job is None,
        EditorCommand::Insert(ch) => p.inserted(b, ch, q, c) && job is None,
    }
}

/// Types a character some times.
fn insert_times(ed: &mut EditorPane, buffer: &mut Buffer, ch: char, n: u8)
    requires
        old(buffer).wf(),
        can_repeat(*old(ed), old(buffer)@, ch, n as nat),
    ensures
        final(buffer).wf(),
        repeated(*old(ed), old(buffer)@, ch, n as nat, *final(ed), final(buffer)@),
    decreases n,
{
    if n > 0 {
        let ghost p = *ed;
        let ghost b = buffer@;
        ed.insert_char(buffer, ch);
        assert(p.inserted(b, ch, *ed, buffer@));
        insert_times(ed, buffer, ch, n - 1);
    }
}

/// Route an editing/movement command to an editor pane and its buffer.
pub fn dispatch_editor(
    ed: &mut EditorPane,
    buffer: &mut Buffer,
    cmd: EditorCommand,
    extend: bool,
) -> (r: Option<SaveJob>)
    requires
        old(buffer).wf(),
        can_take(*old(ed), old(buffer)@, cmd),
    ensures
        final(buffer).wf(),
        took(*old(ed), old(buffer)@, cmd, extend, *final(ed), final(buffer)@, r),
{
    match cmd {
        EditorCommand::Save => return buffer.save(),
        EditorCommand::Left => ed.move_left(buffer, extend),
        EditorCommand::Right => ed.move_right(buffer, extend),
        EditorCommand::Up => ed.move_up(buffer, extend),
        EditorCommand::Down => ed.move_down(buffer, extend),
        EditorCommand::LineStart => ed.move_line_start(buffer, extend),
        EditorCommand::LineEnd => ed.move_line_end(buffer, extend),
        EditorCommand::PageUp => ed.page_up(buffer, extend),
        EditorCommand::PageDown => ed.page_down(buffer, extend),
        EditorCommand::Newline => ed.insert_newline(buffer),
        EditorCommand::Backspace => ed.backspace(buffer),
        EditorCommand::Delete => ed.delete_forward(buffer),
        EditorCommand::Tab => insert_times(ed, buffer, ' ', 4),
        EditorCommand::Insert(c) => ed.insert_char(buffer, c),
    }
    None
}

// ---------------------------------------------------------------------------
// The application.

/// Whether a buffer has the highlighter that belongs to it.
pub open spec fn syntax_fits(b: BufferState, syntax: Option<Syntax>) -> bool {
    let language = match b.path {
        Some(bytes) => language_in(file_name_bytes(bytes)),
        None => None,
    };
    match (language, syntax) {
        (Some(l), Some(s)) => has_grammar(l) && s.wf() && s@ == l,
        (Some(l), None) => !has_grammar(l),
        (None, s) => s is None,
    }
}

/// The highlighter of a buffer.
fn syntax_for(buffer: &Buffer) -> (r: Option<Syntax>)
    ensures
        syntax_fits(buffer@, r),
{
    match buffer.path() {
        Some(path) => Syntax::for_path(path),
        None => None,
    }
}

/// The bytes that go to a shell.
pub open spec fn forwards(area: AreaState, key: KeyEvent, action: Action) -> bool {
    if area.active < area.terminals.len() {
        match (input_bytes(key), action) {
            (Some(wanted), Action::TerminalInput { id, bytes }) => id
                == area.terminals[area.active].id && bytes@ == wanted,
            (None, Action::Nothing) => true,
            _ => false,
        }
    } else {
        action is Nothing
    }
}

impl App {
    /// Whether there is a pane, the focused one is one of them, every pane shows
    /// a buffer that there is, and every buffer has its highlighter.
    pub open spec fn wf(self) -> bool {
        &&& self.focused < self.panes@.len()
        &&& forall|i: int|
            0 <= i < self.panes@.len() ==> (#[trigger] self.panes@[i]).buffer_id
                < self.buffers@.len()
        &&& forall|i: int| 0 <= i < self.buffers@.len() ==> (#[trigger] self.buffers@[i]).wf()
        &&& self.syntaxes@.len() == self.buffers@.len()
        &&& forall|i: int|
            0 <= i < self.buffers@.len() ==> syntax_fits(
                (#[trigger] self.buffers@[i])@,
                self.syntaxes@[i],
            )
        &&& self.terminal_area@.wf()
    }

    /// The focused pane.
    pub open spec fn pane(self) -> EditorPane {
        self.panes@[self.focused as int]
    }

    /// The buffer that the focused pane shows.
    pub open spec fn buffer(self) -> BufferState {
        self.buffers@[self.pane().buffer_id as int]@
    }

    /// Start with a single pane viewing `buffer` and a sidebar over `tree`.
    pub fn new(buffer: Buffer, tree: FileTree) -> (r: Self)
        requires
            buffer.wf(),
        ensures
            r.wf(),
            !r.should_quit,
            r.buffers@ == seq![buffer],
            r.panes@.len() == 1,
            r.panes@[0].starts_at(0, 0),
            r.focused == 0,
            r.terminal_area@ == AreaState::fresh(),
            r.tree == tree,
            r.focus == Focus::Editor,
            r.next_terminal_id == 0,
            !r.help_visible,
            r.sidebar_visible,
    {
        let syntax = syntax_for(&buffer);
        let mut buffers: Vec<Buffer> = Vec::new();
        buffers.push(buffer);
        let mut syntaxes: Vec<Option<Syntax>> = Vec::new();
        syntaxes.push(syntax);
        let mut panes: Vec<EditorPane> = Vec::new();
        panes.push(EditorPane::new(0));
        assert(buffers@ =~= seq![buffer]);
        Self {
            should_quit: false,
            buffers,
            syntaxes,
            panes,
            focused: 0,
            terminal_area: TerminalArea::new(),
            tree,
            focus: Focus::Editor,
            next_terminal_id: 0,
            help_visible: false,
            sidebar_visible: true,
        }
    }

    // --- sidebar -----------------------------------------------------------

    /// Show or hide the sidebar, moving focus automatically: showing it focuses
    /// the tree (ready to navigate); hiding it returns focus to the editor.
    pub fn toggle_sidebar(&mut self)
        ensures
            *final(self) == (App {
                sidebar_visible: !old(self).sidebar_visible,
                focus: if old(self).sidebar_visible {
                    Focus::Editor
                } else {
                    Focus::Sidebar
                },
                ..*old(self)
            }),
    {
        self.sidebar_visible = !self.sidebar_visible;
        self.focus = if self.sidebar_visible {
            Focus::Sidebar
        } else {
            Focus::Editor
        };
    }

    /// Whether a buffer was opened in the focused pane, which is shown from its
    /// start, with the editor focused.
    pub open spec fn opened(self, q: App, buffer: Buffer) -> bool {
        let id = self.buffers@.len();
        let at = self.focused as int;
        &&& q.buffers@ == self.buffers@.push(buffer)
        &&& q.syntaxes@.len() == id + 1
        &&& q.syntaxes@.drop_last() == self.syntaxes@
        &&& syntax_fits(buffer@, q.syntaxes@[id as int])
        &&& q.panes@ == self.panes@.update(at, q.panes@[at])
        &&& q.panes@[at].starts_at(id as usize, self.panes@[at].last_height)
        &&& q == App {
            buffers: q.buffers,
            syntaxes: q.syntaxes,
            panes: q.panes,
            focus: Focus::Editor,
            ..self
        }
    }

    /// Open a buffer that was read from its file into the focused pane (as a new
    /// buffer) and focus the editor.
    pub fn open_in_focused_pane(&mut self, buffer: Buffer)
        requires
            old(self).wf(),
            buffer.wf(),
        ensures
            final(self).wf(),
            old(self).opened(*final(self), buffer),
    {
        let syntax = syntax_for(&buffer);
        let id: usize = self.buffers.len();
        let at: usize = self.focused;
        let ghost was = self.panes@;
        self.buffers.push(buffer);
        self.syntaxes.push(syntax);
        assert(self.syntaxes@.drop_last() =~= old(self).syntaxes@);
        self.panes[at].set_buffer(id);
        assert(self.panes@ =~= was.update(at as int, self.panes@[at as int]));
        self.focus = Focus::Editor;
    }

    /// A buffer's file now holds its text.
    pub fn saved(&mut self, buffer_id: usize)
        requires
            old(self).wf(),
            buffer_id < old(self).buffers@.len(),
        ensures
            final(self).wf(),
            final(self).buffers@ == old(self).buffers@.update(
                buffer_id as int,
                final(self).buffers@[buffer_id as int],
            ),
            final(self).buffers@[buffer_id as int]@ == (BufferState {
                dirty: false,
                ..old(self).buffers@[buffer_id as int]@
            }),
            *final(self) == (App { buffers: final(self).buffers, ..*old(self) }),
    {
        let ghost was = self.buffers@;
        self.buffers[buffer_id].saved();
        assert(self.buffers@ =~= was.update(buffer_id as int, self.buffers@[buffer_id as int]));
    }

    // --- pane management ---------------------------------------------------

    /// Whether the focused pane was split: a new pane that shows the same buffer
    /// from its start stands beside it, and has focus.
    pub open spec fn split(self, q: App) -> bool {
        let at = self.focused + 1;
        &&& q.panes@ == self.panes@.insert(at, q.panes@[at])
        &&& q.panes@[at].starts_at(self.pane().buffer_id, 0)
        &&& q == App { panes: q.panes, focused: at as usize, ..self }
    }

    /// Split the focused editor pane, placing a new pane viewing the same
    /// buffer beside it.
    pub fn split_vertical(&mut self)
        requires
            old(self).wf(),
        ensures
            final(self).wf(),
            old(self).split(*final(self)),
    {
        let buffer_id: usize = self.panes[self.focused].buffer_id;
        assert(self.focused < self.panes.len());
        let at: usize = self.focused + 1;
        let ghost was = self.panes@;
        self.panes.insert(at, EditorPane::new(buffer_id));
        self.focused = at;
        proof {
            let now = self.panes@;
            assert(now =~= was.insert(at as int, now[at as int]));
            assert forall|i: int| 0 <= i < now.len() implies (#[trigger] now[i]).buffer_id
                < self.buffers@.len() by {
                if i < at {
                    assert(now[i] == was[i]);
                } else if i > at {
                    assert(now[i] == was[i - 1]);
                }
            }
        }
    }

    /// Whether the focused pane was closed, unless it is the last one; focus
    /// goes to the pane in its place, or to the last one.
    pub open spec fn pane_closed(self, q: App) -> bool {
        if self.panes@.len() <= 1 {
            q == self
        } else {
            &&& q.panes@ == self.panes@.remove(self.focused as int)
            &&& q == App {
                panes: q.panes,
                focused: if self.focused >= q.panes@.len() {
                    (q.panes@.len() - 1) as usize
                } else {
                    self.focused
                },
                ..self
            }
        }
    }

    /// Close the focused editor pane, unless it is the last one.
    pub fn close_focused_pane(&mut self)
        requires
            old(self).wf(),
        ensures
            final(self).wf(),
            old(self).pane_closed(*final(self)),
    {
        if self.panes.len() <= 1 {
            return;
        }
        let ghost was = self.panes@;
        let ghost at = self.focused as int;
        self.panes.remove(self.focused);
        self.clamp_focus();
        proof {
            let now = self.panes@;
            assert forall|i: int| 0 <= i < now.len() implies (#[trigger] now[i]).buffer_id
                < self.buffers@.len() by {
                if i < at {
                    assert(now[i] == was[i]);
                } else {
                    assert(now[i] == was[i + 1]);
                }
            }
        }
    }

    fn clamp_focus(&mut self)
        requires
            old(self).panes@.len() > 0,
        ensures
            *final(self) == (App {
                focused: if old(self).focused >= old(self).panes@.len() {
                    (old(self).panes@.len() - 1) as usize
                } else {
                    old(self).focused
                },
                ..*old(self)
            }),
    {
        if self.focused >= self.panes.len() {
            self.focused = self.panes.len() - 1;
        }
    }

    /// Move focus to the next pane, from the last one to the first.
    pub fn focus_next(&mut self)
        requires
            old(self).wf(),
        ensures
            final(self).wf(),
            *final(self) == (App {
                focused: ((old(self).focused + 1) % old(self).panes@.len() as int) as usize,
                ..*old(self)
            }),
    {
        proof {
            lemma_wraps(self.focused + 1, self.panes@.len() as int);
            assert(self.focused < self.panes.len());
        }
        self.focused = if self.focused + 1 == self.panes.len() {
            0
        } else {
            self.focused + 1
        };
    }

    /// Move focus to the previous pane, from the first one to the last.
    pub fn focus_prev(&mut self)
        requires
            old(self).wf(),
        ensures
            final(self).wf(),
            *final(self) == (App {
                focused: ((old(self).focused + old(self).panes@.len() - 1)
                    % old(self).panes@.len() as int) as usize,
                ..*old(self)
            }),
    {
        proof {
            lemma_wraps(self.focused + self.panes@.len() - 1, self.panes@.len() as int);
        }
        self.focused = if self.focused == 0 {
            self.panes.len() - 1
        } else {
            self.focused - 1
        };
    }

    // --- terminal area -----------------------------------------------------

    /// Whether the terminal area was toggled: hidden, with the editor focused;
    /// or shown, with the terminal focused. An area with nothing to show yet
    /// asks for its first terminal.
    pub open spec fn terminal_toggled(self, q: App, action: Action) -> bool {
        let area = self.terminal_area@;
        if area.visible {
            &&& q.terminal_area@ == (AreaState { visible: false, ..area })
            &&& q == App { terminal_area: q.terminal_area, focus: Focus::Editor, ..self }
            &&& action is Nothing
        } else if area.terminals.len() == 0 {
            &&& q == self
            &&& action == Action::SpawnTerminal { id: self.next_terminal_id }
        } else {
            &&& q.terminal_area@ == (AreaState { visible: true, ..area })
            &&& q == App { terminal_area: q.terminal_area, focus: Focus::Terminal, ..self }
            &&& action is Nothing
        }
    }

    /// Show or hide the whole terminal area without killing any shell. Showing
    /// it focuses the terminal (spawning a first one if the area is empty);
    /// hiding it returns focus to the editor.
    pub fn toggle_terminal_area(&mut self) -> (r: Action)
        ensures
            old(self).terminal_toggled(*final(self), r),
            old(self).wf() ==> final(self).wf(),
    {
        if self.terminal_area.is_visible() {
            self.terminal_area.hide_area();
            self.focus = Focus::Editor;
            Action::Nothing
        } else if self.terminal_area.is_empty() {
            // Nothing to show yet — opening the area creates its first terminal.
            self.spawn_terminal()
        } else {
            self.terminal_area.show();
            self.focus = Focus::Terminal;
            Action::Nothing
        }
    }

    /// Ask for a new terminal.
    pub fn spawn_terminal(&self) -> (r: Action)
        ensures
            r == (Action::SpawnTerminal { id: self.next_terminal_id }),
    {
        Action::SpawnTerminal { id: self.next_terminal_id }
    }

    /// A shell was spawned under the next id: add its terminal to the area, make
    /// it active, show the area, and move focus into it.
    pub fn terminal_spawned(&mut self)
        requires
            old(self).next_terminal_id < usize::MAX,
        ensures
            final(self).terminal_area@ == old(self).terminal_area@.added(
                TerminalPane { id: old(self).next_terminal_id, rows: 24, cols: 80 },
            ),
            *final(self) == (App {
                terminal_area: final(self).terminal_area,
                next_terminal_id: (old(self).next_terminal_id + 1) as usize,
                focus: Focus::Terminal,
                ..*old(self)
            }),
            old(self).wf() ==> final(self).wf(),
    {
        let id: usize = self.next_terminal_id;
        self.next_terminal_id = id + 1;
        self.terminal_area.add(TerminalPane::spawn(id));
        self.focus = Focus::Terminal;
    }

    /// Whether the active terminal was closed; an area without terminals hides
    /// itself, and focus returns to the editor.
    pub open spec fn terminal_closed(self, q: App) -> bool {
        &&& q.terminal_area@ == self.terminal_area@.closed()
        &&& q == App {
            terminal_area: q.terminal_area,
            focus: if q.terminal_area@.terminals.len() == 0 {
                Focus::Editor
            } else {
                self.focus
            },
            ..self
        }
    }

    /// Close the active terminal; if it was the last one the area hides itself,
    /// so return focus to the editor.
    pub fn close_active_terminal(&mut self)
        requires
            old(self).wf(),
        ensures
            final(self).wf(),
            old(self).terminal_closed(*final(self)),
    {
        if self.terminal_area.close_active() {
            self.focus = Focus::Editor;
        }
    }

    /// A terminal's shell exited: remove it from the area. If it was the last
    /// one the area hides itself, so return focus to the editor.
    pub fn on_terminal_exit(&mut self, id: usize)
        requires
            old(self).wf(),
        ensures
            final(self).wf(),
            final(self).terminal_area@ == old(self).terminal_area@.removed(id),
            *final(self) == (App {
                terminal_area: final(self).terminal_area,
                focus: if old(self).focus == Focus::Terminal && old(self).terminal_area@.removed(
                    id,
                ).terminals.len() == 0 && old(self).terminal_area@.terminals.len() > 0 {
                    Focus::Editor
                } else {
                    old(self).focus
                },
                ..*old(self)
            }),
    {
        proof {
            crate::terminal_area::active_stays_in_range(
                self.terminal_area@,
                TerminalPane { id: 0, rows: 1, cols: 1 },
                id,
            );
        }
        if self.terminal_area.remove_by_id(id) && self.focus == Focus::Terminal {
            self.focus = Focus::Editor;
        }
    }

    // --- keys --------------------------------------------------------------

    /// Whether the focused pane took a command: nothing but it and its buffer
    /// changes.
    pub open spec fn edited(self, q: App, cmd: EditorCommand, extend: bool, action: Action) -> bool {
        let at = self.focused as int;
        let id = self.pane().buffer_id;
        &&& q.panes@ == self.panes@.update(at, q.panes@[at])
        &&& q.buffers@ == self.buffers@.update(id as int, q.buffers@[id as int])
        &&& q == App { panes: q.panes, buffers: q.buffers, ..self }
        &&& match action {
            Action::Nothing => took(
                self.pane(),
                self.buffer(),
                cmd,
                extend,
                q.panes@[at],
                q.buffers@[id as int]@,
                None,
            ),
            Action::Save { buffer_id, job } => buffer_id == id && took(
                self.pane(),
                self.buffer(),
                cmd,
                extend,
                q.panes@[at],
                q.buffers@[id as int]@,
                Some(job),
            ),
            _ => false,
        }
    }

    /// Whether a command on the file tree was carried out: nothing but the tree
    /// changes.
    pub open spec fn browsed(self, q: App, cmd: Command, action: Action) -> bool {
        let t = self.tree;
        let u = q.tree;
        let row = t.selected_row();
        let first_time = match row {
            Some(n) => n.is_dir && !n.expanded && n.children is None,
            None => false,
        };
        &&& q == App { tree: u, ..self }
        &&& match cmd {
            Command::TreePrev => u.nodes == t.nodes && u.selected == (if t.selected > 0 {
                t.selected - 1
            } else {
                0
            }) && action is Nothing,
            Command::TreeNext => u.nodes == t.nodes && u.selected == (if t.selected + 1
                < t.rows().len() {
                t.selected + 1
            } else {
                t.selected as int
            }) && action is Nothing,
            Command::TreeCollapse => {
                &&& node_views(u.nodes@) == t.changed(Change::Collapse)
                &&& u.selected == clamped(t.selected as int, u.rows().len())
                &&& action is Nothing
            },
            Command::TreeExpand => {
                &&& node_views(u.nodes@) == t.changed(Change::Expand)
                &&& u.selected == t.selected
                &&& match action {
                    Action::ReadDir(p) => first_time && path_bytes(p) == row->0.path,
                    Action::Nothing => !first_time,
                    _ => false,
                }
            },
            _ => match row {
                Some(n) => if n.is_dir {
                    &&& node_views(u.nodes@) == t.changed(Change::Toggle)
                    &&& u.selected == clamped(t.selected as int, u.rows().len())
                    &&& match action {
                        Action::ReadDir(p) => first_time && path_bytes(p) == n.path,
                        Action::Nothing => !first_time,
                        _ => false,
                    }
                } else {
                    &&& u == t
                    &&& match action {
                        Action::OpenFile(p) => path_bytes(p) == n.path,
                        _ => false,
                    }
                },
                None => u == t && action is Nothing,
            },
        }
    }

    /// Whether a command was carried out, with `action` left to do.
    pub open spec fn carried_out(self, q: App, cmd: Command, key: KeyEvent, action: Action) -> bool {
        match cmd {
            Command::Ignore => q == self && action is Nothing,
            Command::ToggleHelp => q == (App { help_visible: !self.help_visible, ..self })
                && action is Nothing,
            Command::CloseHelp => q == (App { help_visible: false, ..self }) && action is Nothing,
            Command::Quit => q == (App { should_quit: true, ..self }) && action is Nothing,
            Command::ToggleSidebar => q == (App {
                sidebar_visible: !self.sidebar_visible,
                focus: if self.sidebar_visible {
                    Focus::Editor
                } else {
                    Focus::Sidebar
                },
                ..self
            }) && action is Nothing,
            Command::ToggleTerminal => self.terminal_toggled(q, action),
            Command::TreePrev => self.browsed(q, cmd, action),
            Command::TreeNext => self.browsed(q, cmd, action),
            Command::TreeCollapse => self.browsed(q, cmd, action),
            Command::TreeExpand => self.browsed(q, cmd, action),
            Command::TreeActivate => self.browsed(q, cmd, action),
            Command::Split => self.split(q) && action is Nothing,
            Command::ClosePane => self.pane_closed(q) && action is Nothing,
            Command::FocusPrev => q == (App {
                focused: ((self.focused + self.panes@.len() - 1) % self.panes@.len() as int)
                    as usize,
                ..self
            }) && action is Nothing,
            Command::FocusNext => q == (App {
                focused: ((self.focused + 1) % self.panes@.len() as int) as usize,
                ..self
            }) && action is Nothing,
            Command::SpawnTerminal => q == self && action == Action::SpawnTerminal {
                id: self.next_terminal_id,
            },
            Command::CloseTerminal => self.terminal_closed(q) && action is Nothing,
            Command::TerminalPrev => {
                &&& q.terminal_area@ == self.terminal_area@.cycled_prev()
                &&& q == App { terminal_area: q.terminal_area, ..self }
                &&& action is Nothing
            },
            Command::TerminalNext => {
                &&& q.terminal_area@ == self.terminal_area@.cycled_next()
                &&& q == App { terminal_area: q.terminal_area, ..self }
                &&& action is Nothing
            },
            Command::Forward => q == self && forwards(self.terminal_area@, key, action),
            Command::Edit(e) => self.edited(q, e, key.modifiers.shift, action),
        }
    }

    /// Whether a key can be handled: one that edits needs carets within the
    /// text.
    pub open spec fn can_press(self, key: KeyEvent) -> bool {
        match command(self.focus, self.help_visible, key) {
            Command::Edit(cmd) => can_take(self.pane(), self.buffer(), cmd),
            _ => true,
        }
    }

    /// Whether a key can be handled. Of a Tab in a text that all but fills the
    /// index range, it may say too little.
    pub fn takes_key(&self, key: KeyEvent) -> (r: bool)
        requires
            self.wf(),
        ensures
            r ==> self.can_press(key),
            self.buffer().text.len() + 4 * all_carets(self.pane()).len() <= usize::MAX ==> r
                == self.can_press(key),
    {
        match command_of(self.focus, self.help_visible, key) {
            Command::Edit(cmd) => {
                let pane = &self.panes[self.focused];
                pane.takes(&self.buffers[pane.buffer_id], cmd)
            },
            _ => true,
        }
    }

    /// Handle a key press. Truly global chords (quit, toggle sidebar) are
    /// handled first; the rest are routed by which region has focus.
    pub fn on_key(&mut self, key: KeyEvent) -> (r: Action)
        requires
            old(self).wf(),
            old(self).can_press(key),
        ensures
            final(self).wf(),
            old(self).carried_out(
                *final(self),
                command(old(self).focus, old(self).help_visible, key),
                key,
                r,
            ),
    {
        let cmd = command_of(self.focus, self.help_visible, key);
        match cmd {
            Command::Ignore => {},
            Command::ToggleHelp => {
                self.help_visible = !self.help_visible;
            },
            Command::CloseHelp => {
                self.help_visible = false;
            },
            Command::Quit => {
                self.should_quit = true;
            },
            Command::ToggleSidebar => self.toggle_sidebar(),
            Command::ToggleTerminal => return self.toggle_terminal_area(),
            Command::TreePrev => return self.on_sidebar_key(cmd),
            Command::TreeNext => return self.on_sidebar_key(cmd),
            Command::TreeCollapse => return self.on_sidebar_key(cmd),
            Command::TreeExpand => return self.on_sidebar_key(cmd),
            Command::TreeActivate => return self.on_sidebar_key(cmd),
            Command::Split => self.split_vertical(),
            Command::ClosePane => self.close_focused_pane(),
            Command::FocusPrev => self.focus_prev(),
            Command::FocusNext => self.focus_next(),
            Command::SpawnTerminal => return self.spawn_terminal(),
            Command::CloseTerminal => self.close_active_terminal(),
            Command::TerminalPrev => {
                proof {
                    crate::terminal_area::active_stays_in_range(
                        self.terminal_area@,
                        TerminalPane { id: 0, rows: 1, cols: 1 },
                        0,
                    );
                }
                self.terminal_area.cycle_prev();
            },
            Command::TerminalNext => {
                proof {
                    crate::terminal_area::active_stays_in_range(
                        self.terminal_area@,
                        TerminalPane { id: 0, rows: 1, cols: 1 },
                        0,
                    );
                }
                self.terminal_area.cycle_next();
            },
            Command::Forward => return self.on_terminal_key(key),
            Command::Edit(e) => return self.on_pane_key(e, key.modifiers.shift),
        }
        Action::Nothing
    }

    /// Keys while the sidebar is focused: navigate and open.
    fn on_sidebar_key(&mut self, cmd: Command) -> (r: Action)
        requires
            cmd is TreePrev || cmd is TreeNext || cmd is TreeCollapse || cmd is TreeExpand
                || cmd is TreeActivate,
        ensures
            old(self).browsed(*final(self), cmd, r),
            old(self).wf() ==> final(self).wf(),
    {
        match cmd {
            Command::TreePrev => self.tree.select_prev(),
            Command::TreeNext => self.tree.select_next(),
            Command::TreeCollapse => self.tree.collapse_selected(),
            Command::TreeExpand => {
                if let Some(path) = self.tree.expand_selected() {
                    return Action::ReadDir(path);
                }
            },
            _ => {
                match self.tree.activate() {
                    Activation::Open(path) => return Action::OpenFile(path),
                    Activation::Read(path) => return Action::ReadDir(path),
                    Activation::Done => {},
                }
            },
        }
        Action::Nothing
    }

    /// Keys that the shell gets.
    fn on_terminal_key(&self, key: KeyEvent) -> (r: Action)
        ensures
            forwards(self.terminal_area@, key, r),
    {
        if self.terminal_area.active < self.terminal_area.terminals.len() {
            let term = &self.terminal_area.terminals[self.terminal_area.active];
            match term.send_key(key) {
                Some(bytes) => Action::TerminalInput { id: term.id, bytes },
                None => Action::Nothing,
            }
        } else {
            Action::Nothing
        }
    }

    /// Keys that the focused pane gets.
    fn on_pane_key(&mut self, cmd: EditorCommand, extend: bool) -> (r: Action)
        requires
            old(self).wf(),
            can_take(old(self).pane(), old(self).buffer(), cmd),
        ensures
            final(self).wf(),
            old(self).edited(*final(self), cmd, extend, r),
    {
        let at: usize = self.focused;
        let id: usize = self.panes[at].buffer_id;
        let ghost panes = self.panes@;
        let ghost buffers = self.buffers@;
        let job = dispatch_editor(&mut self.panes[at], &mut self.buffers[id], cmd, extend);
        assert(self.panes@ =~= panes.update(at as int, self.panes@[at as int]));
        assert(self.buffers@ =~= buffers.update(id as int, self.buffers@[id as int]));
        proof {
            commands_keep_buffer_and_file(
                panes[at as int],
                buffers[id as int]@,
                cmd,
                extend,
                self.panes@[at as int],
                self.buffers@[id as int]@,
                job,
            );
        }
        match job {
            Some(job) => Action::Save { buffer_id: id, job },
            None => Action::Nothing,
        }
    }
}

/// A run of edits leaves a buffer with its file.
proof fn lemma_run_keeps(start: Batch, slots: Seq<Slot>)
    ensures
        start.run(slots).buffer.path == start.buffer.path,
    decreases slots.len(),
{
    if slots.len() > 0 {
        lemma_run_keeps(start, slots.drop_last());
    }
}

/// Typing a character leaves a pane with its buffer, and a buffer with its file.
proof fn lemma_inserted_keeps(
    p: EditorPane,
    b: BufferState,
    ch: char,
    q: EditorPane,
    c: BufferState,
)
    requires
        p.inserted(b, ch, q, c),
    ensures
        q.buffer_id == p.buffer_id,
        c.path == b.path,
{
    lemma_struck_keeps(b, all_carets(p), Stroke::Replace(seq![ch]));
}

proof fn lemma_struck_keeps(b: BufferState, carets: Seq<Caret>, stroke: Stroke)
    ensures
        fanned_out(b, carets, stroke).buffer.path == b.path,
{
    lemma_run_keeps(
        batch_start(b, carets.len()),
        by_start(plans_of(b.text, carets, stroke)),
    );
}

proof fn lemma_repeated_keeps(
    p: EditorPane,
    b: BufferState,
    ch: char,
    n: nat,
    q: EditorPane,
    c: BufferState,
)
    requires
        repeated(p, b, ch, n, q, c),
    ensures
        q.buffer_id == p.buffer_id,
        c.path == b.path,
    decreases n,
{
    if n > 0 {
        let (m, d) = choose|m: EditorPane, d: BufferState| #[trigger]
            p.inserted(b, ch, m, d) && repeated(m, d, ch, (n - 1) as nat, q, c);
        lemma_inserted_keeps(p, b, ch, m, d);
        lemma_repeated_keeps(m, d, ch, (n - 1) as nat, q, c);
    }
}

/// A command leaves a pane with its buffer, and a buffer with its file.
pub proof fn commands_keep_buffer_and_file(
    p: EditorPane,
    b: BufferState,
    cmd: EditorCommand,
    extend: bool,
    q: EditorPane,
    c: BufferState,
    job: Option<SaveJob>,
)
    requires
        took(p, b, cmd, extend, q, c, job),
    ensures
        q.buffer_id == p.buffer_id,
        c.path == b.path,
{
    match cmd {
        EditorCommand::Newline => {
            lemma_struck_keeps(b, all_carets(p), Stroke::Break);
        },
        EditorCommand::Backspace => {
            lemma_struck_keeps(b, all_carets(p), Stroke::Backspace);
        },
        EditorCommand::Delete => {
            lemma_struck_keeps(b, all_carets(p), Stroke::Delete);
        },
        EditorCommand::Tab => {
            lemma_repeated_keeps(p, b, ' ', 4, q, c);
        },
        EditorCommand::Insert(ch) => {
            lemma_inserted_keeps(p, b, ch, q, c);
        },
        _ => {},
    }
}

// ---------------------------------------------------------------------------
// Laws.

/// The help overlay is modal: while it is open, no key but F1 and Esc does
/// anything.
pub proof fn help_is_modal(focus: Focus, key: KeyEvent)
    requires
        key.code != KeyCode::F(1),
        key.code != KeyCode::Esc,
    ensures
        command(focus, true, key) == Command::Ignore,
{
}

/// The global chords mean the same wherever the focus is.
pub proof fn chords_are_global(a: Focus, b: Focus, help_visible: bool, key: KeyEvent)
    requires
        key.code == KeyCode::F(1) || (key.modifiers.ctrl && (key.code == KeyCode::Char('q')
            || key.code == KeyCode::Char('b') || key.code == KeyCode::Char('j'))),
    ensures
        command(a, help_visible, key) == command(b, help_visible, key),
{
}

/// A key edits only while the editor is focused.
pub proof fn only_the_editor_edits(focus: Focus, help_visible: bool, key: KeyEvent)
    requires
        command(focus, help_visible, key) is Edit,
    ensures
        focus == Focus::Editor,
        !help_visible,
{
}

/// While the terminal area is focused every key goes to the shell, but for the
/// global chords and those that manage the area.
pub proof fn the_shell_gets_the_rest(key: KeyEvent)
    ensures
        command(Focus::Terminal, false, key) == Command::Forward <==> !(key.code == KeyCode::F(1)
            || (key.modifiers.ctrl && (key.code == KeyCode::Char('q') || key.code == KeyCode::Char('b')
            || key.code == KeyCode::Char('j') || key.code == KeyCode::Char('t') || key.code
            == KeyCode::Char('w') || key.code == KeyCode::PageUp || key.code == KeyCode::PageDown))),
        forall|focus: Focus|
            (#[trigger] command(focus, false, key)) == Command::Forward ==> focus == Focus::Terminal,
{
}

/// Closing the pane that a split added leaves the panes as they were.
pub proof fn closing_a_split_restores_the_panes(p: App, q: App, r: App)
    requires
        p.wf(),
        p.split(q),
        q.pane_closed(r),
    ensures
        r.panes@ == p.panes@,
        r.focused < r.panes@.len(),
        r.buffers == p.buffers,
        r.focus == p.focus,
{
    let at = p.focused + 1;
    assert(q.panes@.len() == p.panes@.len() + 1);
    assert(q.panes.len() == q.panes@.len());
    assert(q.focused == at);
    assert(q.panes@.remove(at as int) =~= p.panes@);
}

/// Moving focus to the next pane and back, or back and to the next, leads
/// nowhere.
pub proof fn focus_moves_are_undone(focused: int, panes: int)
    requires
        0 <= focused < panes,
    ensures
        ({
            let next = (focused + 1) % panes;
            let prev = (focused + panes - 1) % panes;
            &&& 0 <= next < panes
            &&& 0 <= prev < panes
            &&& (next + panes - 1) % panes == focused
            &&& (prev + 1) % panes == focused
        }),
{
    lemma_wraps(focused + 1, panes);
    lemma_wraps(focused + panes - 1, panes);
    let next = (focused + 1) % panes;
    let prev = (focused + panes - 1) % panes;
    lemma_wraps(next + panes - 1, panes);
    lemma_wraps(prev + 1, panes);
}

/// A key that edits touches no pane but the focused one, and no buffer but the
/// one that it shows.
pub proof fn editing_stays_in_the_focused_pane(
    p: App,
    q: App,
    cmd: EditorCommand,
    extend: bool,
    action: Action,
    other: int,
)
    requires
        p.wf(),
        p.edited(q, cmd, extend, action),
    ensures
        q.panes@.len() == p.panes@.len(),
        q.buffers@.len() == p.buffers@.len(),
        0 <= other < p.panes@.len() && other != p.focused ==> q.panes@[other] == p.panes@[other],
        0 <= other < p.buffers@.len() && other != p.pane().buffer_id ==> q.buffers@[other]
            == p.buffers@[other],
        q.focused == p.focused,
        q.focus == p.focus,
        q.tree == p.tree,
        q.terminal_area == p.terminal_area,
{
}

/// Ctrl+Q quits, and nothing else does. F1 shows and hides the help, and Escape
/// hides it. Ctrl+B shows and hides the sidebar: shown it has focus, hidden the
/// editor has it. None of them does anything but that, nor works while the help
/// is shown, but for those that hide it.
pub proof fn global_keys(p: App, q: App, key: KeyEvent, action: Action)
    requires
        p.carried_out(q, command(p.focus, p.help_visible, key), key, action),
    ensures
        ({
            let ctrl = key.modifiers.ctrl;
            let quits = !p.help_visible && ctrl && key.code == KeyCode::Char('q');
            let sidebar = !p.help_visible && ctrl && key.code == KeyCode::Char('b');
            &&& q.should_quit == (p.should_quit || quits)
            &&& q.help_visible == (if key.code == KeyCode::F(1) {
                !p.help_visible
            } else {
                p.help_visible && key.code != KeyCode::Esc
            })
            &&& q.sidebar_visible == (p.sidebar_visible != sidebar)
            &&& sidebar && q.sidebar_visible ==> q.focus == Focus::Sidebar
            &&& sidebar && !q.sidebar_visible ==> q.focus == Focus::Editor
            &&& quits || sidebar || p.help_visible || key.code == KeyCode::F(1) ==> {
                &&& action is Nothing
                &&& q.buffers == p.buffers && q.panes == p.panes && q.focused == p.focused
                &&& q.tree == p.tree && q.terminal_area == p.terminal_area
            }
        }),
{
}

/// Ctrl+J hides the terminals if they are shown, and focus goes to the editor;
/// else it shows them, and they have focus. With no terminal to show it asks for
/// one.
pub proof fn terminal_toggle(p: App, q: App, key: KeyEvent, action: Action)
    requires
        p.carried_out(q, command(p.focus, p.help_visible, key), key, action),
        !p.help_visible,
        key.modifiers.ctrl,
        key.code == KeyCode::Char('j'),
    ensures
        q.terminal_area@.terminals == p.terminal_area@.terminals,
        q.terminal_area@.active == p.terminal_area@.active,
        p.terminal_area@.visible ==> !q.terminal_area@.visible && q.focus == Focus::Editor
            && action is Nothing,
        !p.terminal_area@.visible && p.terminal_area@.terminals.len() > 0
            ==> q.terminal_area@.visible && q.focus == Focus::Terminal && action is Nothing,
        !p.terminal_area@.visible && p.terminal_area@.terminals.len() == 0 ==> q == p && action
            == (Action::SpawnTerminal { id: p.next_terminal_id }),
        q.buffers == p.buffers && q.panes == p.panes && q.tree == p.tree,
{
}

/// In the editor a character that is typed goes in at every caret, Enter breaks
/// the line, and Backspace and Delete take out what is before and behind; none of
/// them asks for anything outside.
pub proof fn typing_keys(p: App, q: App, key: KeyEvent, action: Action)
    requires
        p.wf(),
        p.focus == Focus::Editor,
        !p.help_visible,
        p.carried_out(q, command(p.focus, p.help_visible, key), key, action),
    ensures
        ({
            let (a, z) = (p.pane(), q.panes@[p.focused as int]);
            let (b, c) = (p.buffer(), q.buffers@[a.buffer_id as int]@);
            let plain = !key.modifiers.ctrl && !key.modifiers.alt;
            &&& plain ==> (key.code matches KeyCode::Char(ch) ==> pressed(
                a,
                b,
                Stroke::Replace(seq![ch]),
                z,
                c,
            ) && action is Nothing)
            &&& key.code is Enter ==> pressed(a, b, Stroke::Break, z, c) && action is Nothing
            &&& key.code is Backspace ==> pressed(a, b, Stroke::Backspace, z, c)
                && action is Nothing
            &&& key.code is Delete ==> pressed(a, b, Stroke::Delete, z, c) && action is Nothing
        }),
{
}

/// In the editor the arrow keys, Home, End and the page keys move the cursor and
/// leave the text alone. With Shift they select from where the cursor was, or go
/// on with the selection that there is; without they end it.
pub proof fn moving_keys(p: App, q: App, key: KeyEvent, action: Action, mv: Move)
    requires
        p.wf(),
        p.focus == Focus::Editor,
        !p.help_visible,
        !key.modifiers.alt,
        p.carried_out(q, command(p.focus, p.help_visible, key), key, action),
        match key.code {
            KeyCode::Left => mv == Move::Left,
            KeyCode::Right => mv == Move::Right,
            KeyCode::Up => mv == Move::Up,
            KeyCode::Down => mv == Move::Down,
            KeyCode::Home => mv == Move::LineStart,
            KeyCode::End => mv == Move::LineEnd,
            KeyCode::PageUp => mv == Move::PageUp(p.pane().page()),
            KeyCode::PageDown => mv == Move::PageDown(p.pane().page()),
            _ => false,
        },
    ensures
        ({
            let (a, z) = (p.pane(), q.panes@[p.focused as int]);
            &&& z.cursor == moved_cursor(p.buffer().text, a.cursor, mv)
            &&& z.anchor == if key.modifiers.shift {
                Some(
                    match a.anchor {
                        Some(at) => at,
                        None => (a.cursor.line, a.cursor.col),
                    },
                )
            } else {
                None
            }
            &&& a.secondary@.len() == 0 ==> z.secondary@.len() == 0
            &&& z.buffer_id == a.buffer_id
            &&& q.buffers@[a.buffer_id as int]@ == p.buffer()
            &&& action is Nothing
        }),
{
    let a = p.pane();
    if a.secondary@.len() == 0 {
        let none = a.secondary@.map_values(
            |c: Caret| crate::motion::moved(p.buffer().text, c, mv, key.modifiers.shift),
        );
        assert(none.len() == 0);
    }
}

/// Ctrl+S in the editor asks for the buffer's text to be written to its file, if
/// it has one, and changes no text.
pub proof fn saving_key(p: App, q: App, key: KeyEvent, action: Action)
    requires
        p.wf(),
        p.focus == Focus::Editor,
        !p.help_visible,
        key.modifiers.ctrl,
        key.code == KeyCode::Char('s'),
        p.carried_out(q, command(p.focus, p.help_visible, key), key, action),
    ensures
        p.buffer().path is None ==> action is Nothing,
        p.buffer().path matches Some(path) ==> (action matches Action::Save { buffer_id, job }
            && buffer_id == p.pane().buffer_id && path_bytes(job.path) == path && job.text@
            == p.buffer().text),
        q.buffers@[p.pane().buffer_id as int]@.text == p.buffer().text,
        q.panes@[p.focused as int] == p.pane(),
{
}

proof fn lemma_typed_times(
    p: EditorPane,
    b: BufferState,
    n: nat,
    q: EditorPane,
    c: BufferState,
)
    requires
        p.secondary@.len() == 0,
        p.anchor is None,
        p.cursor.line < crate::rope::line_total(b.text),
        index_at(b.text, p.caret().at()) <= b.text.len(),
        b.text.len() + n <= usize::MAX,
        repeated(p, b, ' ', n, q, c),
    ensures
        ({
            let i = index_at(b.text, p.caret().at()) as int;
            &&& c.text == b.text.take(i) + Seq::new(n, |k: int| ' ') + b.text.skip(i)
            &&& q.cursor.line == p.cursor.line
            &&& q.cursor.col == p.cursor.col + n
            &&& q.anchor is None
            &&& q.secondary@.len() == 0
        }),
    decreases n,
{
    let t = b.text;
    let i = index_at(t, p.caret().at()) as int;
    let line = p.cursor.line as int;
    crate::rope::lemma_line_start(t, line);
    if n == 0 {
        assert(t.take(i) + Seq::new(n, |k: int| ' ') + t.skip(i) =~= t);
    } else {
        let (m, d) = choose|m: EditorPane, d: BufferState| #[trigger]
            p.inserted(b, ' ', m, d) && repeated(m, d, ' ', (n - 1) as nat, q, c);
        typing_replaces_the_selection(p, b, ' ', m, d);
        let u = crate::history::put_in(t, i, seq![' ']);
        assert(d.text =~= u);
        crate::editing::lemma_typed_start(t, line, i, ' ');
        assert(p.caret_put(m, line, p.cursor.col + 1));
        assert(index_at(d.text, m.caret().at()) == i + 1);
        lemma_typed_times(m, d, (n - 1) as nat, q, c);
        assert(d.text.take(i + 1) + Seq::new((n - 1) as nat, |k: int| ' ') + d.text.skip(i + 1)
            =~= t.take(i) + Seq::new(n, |k: int| ' ') + t.skip(i));
    }
}

/// Tab in the editor puts four spaces in at the cursor, which moves behind them.
pub proof fn tab_key(p: App, q: App, key: KeyEvent, action: Action)
    requires
        p.wf(),
        p.focus == Focus::Editor,
        !p.help_visible,
        key.code is Tab,
        p.pane().secondary@.len() == 0,
        p.pane().anchor is None,
        p.pane().cursor.line < crate::rope::line_total(p.buffer().text),
        index_at(p.buffer().text, p.pane().caret().at()) <= p.buffer().text.len(),
        p.buffer().text.len() + 4 <= usize::MAX,
        p.carried_out(q, command(p.focus, p.help_visible, key), key, action),
    ensures
        ({
            let t = p.buffer().text;
            let i = index_at(t, p.pane().caret().at()) as int;
            let z = q.panes@[p.focused as int];
            &&& q.buffers@[p.pane().buffer_id as int]@.text == t.take(i) + seq![' ', ' ', ' ', ' ']
                + t.skip(i)
            &&& z.cursor.line == p.pane().cursor.line && z.cursor.col == p.pane().cursor.col + 4
            &&& action is Nothing
        }),
{
    let a = p.pane();
    lemma_typed_times(
        a,
        p.buffer(),
        4,
        q.panes@[p.focused as int],
        q.buffers@[a.buffer_id as int]@,
    );
    assert(Seq::new(4nat, |k: int| ' ') =~= seq![' ', ' ', ' ', ' ']);
}

/// Ctrl+E and Ctrl+Backslash split the focused pane: a pane with the same buffer,
/// with its cursor at the start, comes right behind it and has focus. Ctrl+W
/// closes the focused pane, unless it is the only one. The other panes stay, in
/// their order, and so do the buffers. Alt+Right and Alt+Left go to the next pane
/// and to the one before, round in a circle, and Ctrl+T asks for a terminal.
pub proof fn pane_keys(p: App, q: App, key: KeyEvent, action: Action)
    requires
        p.wf(),
        p.focus == Focus::Editor,
        !p.help_visible,
        p.carried_out(q, command(p.focus, p.help_visible, key), key, action),
    ensures
        ({
            let ctrl = key.modifiers.ctrl;
            let alt = key.modifiers.alt;
            let n = p.panes@.len();
            let at = p.focused as int;
            &&& ctrl && (key.code == KeyCode::Char('e') || key.code == KeyCode::Char('\\')) ==> {
                &&& q.panes@.len() == n + 1
                &&& q.focused == at + 1
                &&& forall|i: int| 0 <= i <= at ==> #[trigger] q.panes@[i] == p.panes@[i]
                &&& forall|i: int| at < i < n ==> #[trigger] p.panes@[i] == q.panes@[i + 1]
                &&& q.panes@[at + 1].buffer_id == p.panes@[at].buffer_id
                &&& q.panes@[at + 1].cursor.line == 0 && q.panes@[at + 1].cursor.col == 0
                &&& q.panes@[at + 1].anchor is None && q.panes@[at + 1].secondary@.len() == 0
                &&& q.buffers == p.buffers && q.focus == p.focus && action is Nothing
            }
            &&& ctrl && key.code == KeyCode::Char('w') && n > 1 ==> {
                &&& q.panes@.len() == n - 1
                &&& forall|i: int| 0 <= i < at ==> #[trigger] q.panes@[i] == p.panes@[i]
                &&& forall|i: int| at < i < n ==> #[trigger] p.panes@[i] == q.panes@[i - 1]
                &&& q.focused == (if at + 1 == n {
                    at - 1
                } else {
                    at
                })
                &&& q.buffers == p.buffers && q.focus == p.focus && action is Nothing
            }
            &&& ctrl && key.code == KeyCode::Char('w') && n == 1 ==> q == p && action is Nothing
            &&& alt && key.code == KeyCode::Right ==> q.focused == (if at + 1 == n {
                0
            } else {
                at + 1
            }) && q.panes == p.panes && q.buffers == p.buffers
            &&& alt && key.code == KeyCode::Left ==> q.focused == (if at == 0 {
                n - 1
            } else {
                at - 1
            }) && q.panes == p.panes && q.buffers == p.buffers
            &&& ctrl && key.code == KeyCode::Char('t') ==> q == p && action
                == (Action::SpawnTerminal { id: p.next_terminal_id })
        }),
{
    let n = p.panes@.len() as int;
    lemma_wraps(p.focused + 1, n);
    lemma_wraps(p.focused + n - 1, n);
    assert(p.panes.len() == p.panes@.len());
    if key.modifiers.ctrl && key.code == KeyCode::Char('w') && n > 1 {
        let at = p.focused as int;
        assert forall|i: int| at < i < n implies #[trigger] p.panes@[i] == q.panes@[i - 1] by {}
    }
    if key.modifiers.ctrl && (key.code == KeyCode::Char('e') || key.code == KeyCode::Char('\\')) {
        let at = p.focused as int;
        assert(q.panes.len() == q.panes@.len());
        assert forall|i: int| at < i < n implies #[trigger] p.panes@[i] == q.panes@[i + 1] by {}
    }
}

/// In the sidebar Up and Down select the row above and the row below, Right
/// expands the selected directory and Left collapses it. Enter opens a file, and
/// expands or collapses a directory. A directory is read when it is expanded for
/// the first time. Nothing else changes.
pub proof fn sidebar_keys(p: App, q: App, key: KeyEvent, action: Action)
    requires
        p.focus == Focus::Sidebar,
        !p.help_visible,
        !key.modifiers.ctrl,
        p.carried_out(q, command(p.focus, p.help_visible, key), key, action),
    ensures
        ({
            let t = p.tree;
            let u = q.tree;
            let unread = t.selected_row() matches Some(n) && n.is_dir && !n.expanded
                && n.children is None;
            &&& key.code is Up ==> u.nodes == t.nodes && u.selected == (if t.selected == 0 {
                0
            } else {
                t.selected - 1
            }) && action is Nothing
            &&& key.code is Down ==> u.nodes == t.nodes && u.selected == (if t.selected + 1
                < t.rows().len() {
                t.selected + 1
            } else {
                t.selected as int
            }) && action is Nothing
            &&& t.selected < t.rows().len() ==> {
                let n = t.rows()[t.selected as int];
                let was = node_views(t.nodes@);
                let now = node_views(u.nodes@);
                &&& key.code is Right ==> now == crate::file_tree::changed_in(
                    was,
                    t.selected as int,
                    Change::Expand,
                )
                &&& key.code is Left ==> now == crate::file_tree::changed_in(
                    was,
                    t.selected as int,
                    Change::Collapse,
                ) && action is Nothing
                &&& key.code is Enter && n.is_dir ==> now == crate::file_tree::changed_in(
                    was,
                    t.selected as int,
                    Change::Toggle,
                )
                &&& key.code is Enter && !n.is_dir ==> u == t && (
                action matches Action::OpenFile(path) && path_bytes(path) == n.path)
                &&& (key.code is Right || key.code is Enter) && n.is_dir ==> (
                action is ReadDir <==> unread)
                &&& action matches Action::ReadDir(path) ==> path_bytes(path) == n.path
            }
            &&& q == App { tree: u, ..p } || key.code == KeyCode::F(1)
        }),
{
}

/// In the terminals Ctrl+T asks for another one, Ctrl+W closes the active one,
/// and Ctrl+PageDown and Ctrl+PageUp go to the next and to the one before. Any
/// other key that is no global chord goes to the shell of the active terminal.
pub proof fn terminal_keys(p: App, q: App, key: KeyEvent, action: Action)
    requires
        p.wf(),
        p.focus == Focus::Terminal,
        !p.help_visible,
        p.carried_out(q, command(p.focus, p.help_visible, key), key, action),
    ensures
        ({
            let ctrl = key.modifiers.ctrl;
            let a = p.terminal_area@;
            let n = a.terminals.len();
            &&& ctrl && key.code == KeyCode::Char('t') ==> q == p && action
                == (Action::SpawnTerminal { id: p.next_terminal_id })
            &&& ctrl && key.code == KeyCode::Char('w') && n > 0 ==> {
                &&& q.terminal_area@.terminals == a.terminals.remove(a.active)
                &&& n == 1 ==> q.focus == Focus::Editor && !q.terminal_area@.visible
                &&& n > 1 ==> q.focus == Focus::Terminal
            }
            &&& ctrl && key.code is PageDown && n > 0 ==> q.terminal_area@.terminals == a.terminals
                && q.terminal_area@.active == (if a.active + 1 == n {
                0
            } else {
                a.active + 1
            })
            &&& ctrl && key.code is PageUp && n > 0 ==> q.terminal_area@.terminals == a.terminals
                && q.terminal_area@.active == (if a.active == 0 {
                n - 1
            } else {
                a.active - 1
            })
            &&& !ctrl && !(key.code is F) && !(key.code is Other) && n > 0 ==> q == p && (
            action matches Action::TerminalInput { id, bytes } && id == a.terminals[a.active].id
                && Some(bytes@) == input_bytes(key))
        }),
{
    crate::terminal_area::cycling_goes_by_one(p.terminal_area@);
}

/// A file that is opened is shown in the focused pane from its start, and the
/// editor has focus; the other panes and the buffers that there are stay.
pub proof fn opening_a_file(p: App, q: App, buffer: Buffer)
    requires
        p.wf(),
        p.opened(q, buffer),
    ensures
        q.buffers@.len() == p.buffers@.len() + 1,
        forall|i: int| 0 <= i < p.buffers@.len() ==> #[trigger] q.buffers@[i] == p.buffers@[i],
        q.panes@.len() == p.panes@.len(),
        q.focused == p.focused,
        q.focus == Focus::Editor,
        q.buffers@[q.panes@[q.focused as int].buffer_id as int] == buffer,
        q.panes@[q.focused as int].cursor.line == 0,
        q.panes@[q.focused as int].cursor.col == 0,
        forall|i: int|
            0 <= i < p.panes@.len() && i != p.focused ==> #[trigger] q.panes@[i] == p.panes@[i],
{
    assert(q.buffers.len() == q.buffers@.len());
}

/// A character with Ctrl or Alt that is no chord does nothing in the editor, nor
/// do Escape and the keys without a meaning.
pub proof fn other_chords_do_nothing(p: App, q: App, key: KeyEvent, action: Action)
    requires
        p.focus == Focus::Editor,
        !p.help_visible,
        p.carried_out(q, command(p.focus, p.help_visible, key), key, action),
        match key.code {
            KeyCode::Char(c) => (key.modifiers.ctrl || key.modifiers.alt) && !(key.modifiers.ctrl
                && (c == 'q' || c == 'b' || c == 'j' || c == 's' || c == 'e' || c == '\\' || c == 't'
                || c == 'w')),
            KeyCode::Esc => true,
            KeyCode::F(n) => n != 1,
            KeyCode::Other => true,
            _ => false,
        },
    ensures
        q == p,
        action is Nothing,
{
}

/// A key without a meaning in the sidebar does nothing there; in particular
/// nothing can be typed.
pub proof fn the_sidebar_ignores_the_rest(p: App, q: App, key: KeyEvent, action: Action)
    requires
        p.focus == Focus::Sidebar,
        !p.help_visible,
        p.carried_out(q, command(p.focus, p.help_visible, key), key, action),
        match key.code {
            KeyCode::Char(c) => !(key.modifiers.ctrl && (c == 'q' || c == 'b' || c == 'j')),
            KeyCode::F(n) => n != 1,
            KeyCode::Up | KeyCode::Down | KeyCode::Left | KeyCode::Right | KeyCode::Enter => false,
            _ => true,
        },
    ensures
        q == p,
        action is Nothing,
{
}

} // verus!
