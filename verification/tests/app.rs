use std::path::PathBuf;
use vybim::app::{Action, App, Focus};
use vybim::buffer::Buffer;
use vybim::file_tree::{Entry, FileTree};
use vybim::key::{KeyCode, KeyEvent, KeyModifiers};
use vybim::style::Rect;
use vybim::theme::Theme;

const NONE: KeyModifiers = KeyModifiers {
    ctrl: false,
    alt: false,
    shift: false,
};
const CONTROL: KeyModifiers = KeyModifiers {
    ctrl: true,
    alt: false,
    shift: false,
};
const ALT: KeyModifiers = KeyModifiers {
    ctrl: false,
    alt: true,
    shift: false,
};
const SHIFT: KeyModifiers = KeyModifiers {
    ctrl: false,
    alt: false,
    shift: true,
};

fn entry(path: &str, is_dir: bool) -> Entry {
    Entry {
        path: PathBuf::from(path),
        file_name: path.rsplit('/').next().map(str::to_string),
        shown: path.to_string(),
        is_dir,
    }
}

fn tree() -> FileTree {
    FileTree::new(vec![entry("/root/sub", true), entry("/root/a.txt", false)])
}

fn test_app() -> App {
    App::new(Buffer::from_str("hello"), tree())
}

fn press(code: KeyCode, modifiers: KeyModifiers) -> KeyEvent {
    KeyEvent::new(code, modifiers)
}

/// The buffer id of editor pane `i`.
fn buffer_id_at(app: &App, i: usize) -> usize {
    app.panes[i].buffer_id
}

/// Presses a key, with every shell that is asked for spawned.
fn key(app: &mut App, code: KeyCode, modifiers: KeyModifiers) -> Action {
    let action = app.on_key(press(code, modifiers));
    carry_out(app, &action);
    action
}

fn carry_out(app: &mut App, action: &Action) {
    if let Action::SpawnTerminal { id } = action {
        assert_eq!(*id, app.next_terminal_id);
        app.terminal_spawned();
    }
}

fn spawn_terminal(app: &mut App) {
    let action = app.spawn_terminal();
    carry_out(app, &action);
}

fn toggle_terminal_area(app: &mut App) {
    let action = app.toggle_terminal_area();
    carry_out(app, &action);
}

#[test]
fn ctrl_q_requests_quit() {
    let mut app = test_app();
    assert!(!app.should_quit);
    key(&mut app, KeyCode::Char('q'), CONTROL);
    assert!(app.should_quit);
}

#[test]
fn plain_q_inserts_into_focused_pane() {
    let mut app = test_app();
    key(&mut app, KeyCode::Char('q'), NONE);
    assert!(!app.should_quit);
    assert_eq!(app.buffers[0].line_text(0), "qhello");
}

#[test]
fn ctrl_b_toggles_sidebar_visibility_and_focus() {
    let mut app = test_app();
    assert!(app.sidebar_visible);
    assert_eq!(app.focus, Focus::Editor);
    // hide: focus returns to the editor
    key(&mut app, KeyCode::Char('b'), CONTROL);
    assert!(!app.sidebar_visible);
    assert_eq!(app.focus, Focus::Editor);
    // show: focus moves to the tree, ready to navigate
    key(&mut app, KeyCode::Char('b'), CONTROL);
    assert!(app.sidebar_visible);
    assert_eq!(app.focus, Focus::Sidebar);
    // while in the sidebar, plain chars do not edit the buffer
    key(&mut app, KeyCode::Char('x'), NONE);
    assert_eq!(app.buffers[0].line_text(0), "hello");
}

#[test]
fn opening_a_file_adds_buffer_and_focuses_editor() {
    let mut app = App::new(Buffer::from_str(""), tree());
    app.focus = Focus::Sidebar;
    app.open_in_focused_pane(Buffer::from_path(PathBuf::from("/root/note.txt"), "from disk"));

    assert_eq!(app.focus, Focus::Editor);
    assert_eq!(app.buffers.len(), 2);
    let id = buffer_id_at(&app, app.focused);
    assert_eq!(app.buffers[id].line_text(0), "from disk");
    assert!(app.syntaxes[id].is_none());
    app.open_in_focused_pane(Buffer::from_path(PathBuf::from("/root/main.rs"), "fn"));
    assert!(app.syntaxes[2].is_some());
}

#[test]
fn split_adds_pane_and_focuses_it() {
    let mut app = test_app();
    app.split_vertical();
    assert_eq!(app.panes.len(), 2);
    assert_eq!(app.focused, 1);
    // both panes view the same buffer
    assert_eq!(buffer_id_at(&app, 0), buffer_id_at(&app, 1));
}

#[test]
fn f1_toggles_help_and_swallows_input_while_open() {
    let mut app = test_app();
    assert!(!app.help_visible);
    key(&mut app, KeyCode::F(1), NONE);
    assert!(app.help_visible);
    // while help is open, typing does not edit the buffer
    key(&mut app, KeyCode::Char('x'), NONE);
    assert_eq!(app.buffers[0].line_text(0), "hello");
    // Esc closes it
    key(&mut app, KeyCode::Esc, NONE);
    assert!(!app.help_visible);
    // F1 again toggles back on
    key(&mut app, KeyCode::F(1), NONE);
    assert!(app.help_visible);
    // Not even quitting gets through.
    key(&mut app, KeyCode::Char('q'), CONTROL);
    assert!(!app.should_quit);
}

#[test]
fn ctrl_e_splits_the_focused_pane() {
    let mut app = test_app();
    key(&mut app, KeyCode::Char('e'), CONTROL);
    assert_eq!(app.panes.len(), 2);
    assert_eq!(app.focused, 1);
}

#[test]
fn ctrl_backslash_still_splits() {
    let mut app = test_app();
    key(&mut app, KeyCode::Char('\\'), CONTROL);
    assert_eq!(app.panes.len(), 2);
}

#[test]
fn focus_cycles_through_panes() {
    let mut app = test_app();
    app.split_vertical(); // focused = 1
    app.focus_next(); // wraps to 0
    assert_eq!(app.focused, 0);
    app.focus_prev(); // wraps to 1
    assert_eq!(app.focused, 1);
    key(&mut app, KeyCode::Right, ALT);
    assert_eq!(app.focused, 0);
    key(&mut app, KeyCode::Left, ALT);
    assert_eq!(app.focused, 1);
}

#[test]
fn close_pane_keeps_at_least_one() {
    let mut app = test_app();
    app.split_vertical();
    app.close_focused_pane();
    assert_eq!(app.panes.len(), 1);
    assert_eq!(app.focused, 0);
    // closing the last pane is a no-op
    app.close_focused_pane();
    assert_eq!(app.panes.len(), 1);
}

#[test]
fn ctrl_j_toggles_terminal_area_and_focus() {
    let mut app = test_app();
    assert!(!app.terminal_area.is_visible());
    // first toggle: empty area spawns a terminal, shows it, focuses terminal
    key(&mut app, KeyCode::Char('j'), CONTROL);
    assert!(app.terminal_area.is_visible());
    assert!(!app.terminal_area.is_empty());
    assert_eq!(app.focus, Focus::Terminal);
    // second toggle: hides the area (shell stays alive) and refocuses editor
    key(&mut app, KeyCode::Char('j'), CONTROL);
    assert!(!app.terminal_area.is_visible());
    assert!(!app.terminal_area.is_empty());
    assert_eq!(app.focus, Focus::Editor);
    // third toggle: non-empty area just shows again, no new terminal
    key(&mut app, KeyCode::Char('j'), CONTROL);
    assert!(app.terminal_area.is_visible());
    assert_eq!(app.focus, Focus::Terminal);
    assert_eq!(app.terminal_area.terminals.len(), 1);
}

#[test]
fn ctrl_t_spawns_terminal_without_touching_editor_panes() {
    let mut app = test_app();
    app.split_vertical(); // two editor panes, focused = 1
    assert_eq!(app.panes.len(), 2);
    key(&mut app, KeyCode::Char('t'), CONTROL);
    // editor panes are untouched; the terminal is the new focus
    assert_eq!(app.panes.len(), 2);
    assert_eq!(app.focused, 1);
    assert!(app.terminal_area.is_visible());
    assert_eq!(app.focus, Focus::Terminal);
}

#[test]
fn closing_last_terminal_hides_area_and_refocuses_editor() {
    let mut app = test_app();
    spawn_terminal(&mut app);
    assert!(app.terminal_area.is_visible());
    app.close_active_terminal();
    assert!(!app.terminal_area.is_visible());
    assert!(app.terminal_area.is_empty());
    assert_eq!(app.focus, Focus::Editor);
}

#[test]
fn last_shell_exit_hides_area_and_refocuses_editor() {
    let mut app = test_app();
    spawn_terminal(&mut app);
    let id = app.next_terminal_id - 1;
    app.on_terminal_exit(id);
    assert!(!app.terminal_area.is_visible());
    assert!(app.terminal_area.is_empty());
    assert_eq!(app.focus, Focus::Editor);
}

#[test]
fn toggling_terminal_leaves_editor_panes_unchanged() {
    let mut app = test_app();
    app.split_vertical(); // two panes, focused = 1
    let (n, focused) = (app.panes.len(), app.focused);
    toggle_terminal_area(&mut app); // show (spawns first terminal)
    toggle_terminal_area(&mut app); // hide
    assert_eq!(app.panes.len(), n);
    assert_eq!(app.focused, focused);
}

#[test]
fn terminal_keys_cycle_close_and_reach_the_shell() {
    let mut app = test_app();
    key(&mut app, KeyCode::Char('t'), CONTROL);
    key(&mut app, KeyCode::Char('t'), CONTROL);
    assert_eq!(app.terminal_area.active, 1);
    key(&mut app, KeyCode::PageDown, CONTROL);
    assert_eq!(app.terminal_area.active, 0);
    key(&mut app, KeyCode::PageUp, CONTROL);
    assert_eq!(app.terminal_area.active, 1);
    match key(&mut app, KeyCode::Char('c'), CONTROL) {
        Action::TerminalInput { id, bytes } => {
            assert_eq!(id, 1);
            assert_eq!(bytes, vec![3]);
        }
        other => panic!("{other:?}"),
    }
    assert!(matches!(key(&mut app, KeyCode::Other, NONE), Action::Nothing));
    // The editor is left alone.
    assert_eq!(app.buffers[0].line_text(0), "hello");
    key(&mut app, KeyCode::Char('w'), CONTROL);
    assert_eq!(app.focus, Focus::Terminal);
    key(&mut app, KeyCode::Char('w'), CONTROL);
    assert_eq!(app.focus, Focus::Editor);
}

#[test]
fn sidebar_keys_browse_the_tree() {
    let mut app = test_app();
    app.focus = Focus::Sidebar;
    match key(&mut app, KeyCode::Right, NONE) {
        Action::ReadDir(dir) => assert_eq!(dir, PathBuf::from("/root/sub")),
        other => panic!("{other:?}"),
    }
    app.tree.load_selected(vec![entry("/root/sub/b.txt", false)]);
    key(&mut app, KeyCode::Down, NONE);
    match key(&mut app, KeyCode::Enter, NONE) {
        Action::OpenFile(file) => assert_eq!(file, PathBuf::from("/root/sub/b.txt")),
        other => panic!("{other:?}"),
    }
    key(&mut app, KeyCode::Up, NONE);
    assert_eq!(app.tree.selected, 0);
    key(&mut app, KeyCode::Left, NONE);
    assert_eq!(app.tree.visible().len(), 2);
    assert!(matches!(key(&mut app, KeyCode::Enter, NONE), Action::Nothing));
    assert_eq!(app.tree.visible().len(), 3);
}

#[test]
fn editing_keys_edit_the_focused_pane_only() {
    let mut app = test_app();
    app.split_vertical();
    key(&mut app, KeyCode::Tab, NONE);
    assert_eq!(app.buffers[0].line_text(0), "    hello");
    assert_eq!(app.panes[1].cursor.col, 4);
    assert_eq!(app.panes[0].cursor.col, 0);
    key(&mut app, KeyCode::Backspace, NONE);
    key(&mut app, KeyCode::Home, NONE);
    key(&mut app, KeyCode::Delete, NONE);
    assert_eq!(app.buffers[0].line_text(0), "  hello");
    key(&mut app, KeyCode::End, SHIFT);
    assert!(app.panes[1].has_selection());
    key(&mut app, KeyCode::Enter, NONE);
    assert_eq!(app.buffers[0].line_count(), 2);
    assert_eq!(app.panes[1].cursor.line, 1);
    key(&mut app, KeyCode::Up, NONE);
    assert_eq!(app.panes[1].cursor.line, 0);
    key(&mut app, KeyCode::PageDown, NONE);
    assert_eq!(app.panes[1].cursor.line, 1);
    // A chord that means nothing types nothing.
    key(&mut app, KeyCode::Char('x'), ALT);
    assert_eq!(app.buffers[0].line_text(1), "");
}

#[test]
fn saving_asks_for_the_file_to_be_written() {
    let mut app = test_app();
    // Nothing to write without a file.
    assert!(matches!(key(&mut app, KeyCode::Char('s'), CONTROL), Action::Nothing));
    app.open_in_focused_pane(Buffer::from_path(PathBuf::from("/root/a.txt"), "old"));
    key(&mut app, KeyCode::Char('!'), NONE);
    assert!(app.buffers[1].is_dirty());
    match key(&mut app, KeyCode::Char('s'), CONTROL) {
        Action::Save { buffer_id, job } => {
            assert_eq!(buffer_id, 1);
            assert_eq!(job.path, PathBuf::from("/root/a.txt"));
            assert_eq!(job.text, "!old");
            app.saved(buffer_id);
        }
        other => panic!("{other:?}"),
    }
    assert!(!app.buffers[1].is_dirty());
}

#[test]
fn the_whole_screen_is_laid_out() {
    let mut app = test_app();
    app.split_vertical();
    key(&mut app, KeyCode::Char('t'), CONTROL);
    let plan = app.render(Rect::new(0, 0, 200, 40), &Theme::default());
    assert_eq!(plan.regions.footer, Rect::new(0, 39, 200, 1));
    assert_eq!(plan.regions.sidebar, Some(Rect::new(0, 0, 28, 39)));
    let (divider, term) = plan.regions.terminal.unwrap();
    assert_eq!(divider, Rect::new(139, 0, 1, 39));
    assert_eq!(term, Rect::new(140, 0, 60, 39));
    assert_eq!(plan.regions.panes.len(), 2);
    assert_eq!(plan.regions.dividers.len(), 1);
    assert_eq!(plan.panes.len(), 2);
    assert_eq!(plan.tree.unwrap().len(), 2);
    assert_eq!(plan.terminals.unwrap().tabs.len(), 1);
    assert!(plan.help.is_none());
    // No pane has the cursor while the terminal has focus.
    assert!(plan.panes.iter().all(|p| p.content.cursor.is_none()));

    let mut app = test_app();
    key(&mut app, KeyCode::Char('b'), CONTROL);
    key(&mut app, KeyCode::F(1), NONE);
    let plan = app.render(Rect::new(0, 0, 80, 24), &Theme::default());
    assert_eq!(plan.regions.sidebar, None);
    assert_eq!(plan.regions.terminal, None);
    assert_eq!(plan.regions.panes, vec![Rect::new(0, 0, 80, 23)]);
    assert!(plan.help.is_some());
    assert_eq!(plan.panes[0].content.cursor, Some((4, 0)));
}

#[test]
fn closing_a_split_leaves_the_other_panes() {
    let mut app = test_app();
    app.split_vertical();
    app.split_vertical();
    app.focused = 0;
    let before: Vec<usize> = app.panes.iter().map(|p| p.buffer_id).collect();
    app.split_vertical();
    assert_eq!((app.panes.len(), app.focused), (4, 1));
    app.close_focused_pane();
    let after: Vec<usize> = app.panes.iter().map(|p| p.buffer_id).collect();
    assert_eq!((after, app.focused), (before, 1));
}

#[test]
fn a_key_is_taken_while_its_caret_has_a_place() {
    let mut app = test_app();
    let x = press(KeyCode::Char('x'), NONE);
    assert!(app.takes_key(x));
    // Two panes on one buffer: an edit in one leaves the caret of the other.
    key(&mut app, KeyCode::Enter, NONE);
    key(&mut app, KeyCode::Char('e'), CONTROL);
    app.panes[0].cursor.line = 1;
    let (old, new) = (0, app.focused);
    app.panes[new].cursor.line = 1;
    key(&mut app, KeyCode::Backspace, NONE);
    app.focused = old;
    assert!(app.takes_key(x));
    assert!(!app.takes_key(press(KeyCode::Tab, NONE)));
    app.panes[old].cursor.col = 1;
    assert!(!app.takes_key(x));
    assert!(app.takes_key(press(KeyCode::Up, NONE)));
    assert!(app.takes_key(press(KeyCode::Char('q'), CONTROL)));
}
