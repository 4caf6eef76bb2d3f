use std::path::PathBuf;
use vybim::file_tree::{Activation, Entry, FileTree};
use vybim::style::{Color, Style};
use vybim::theme::Theme;

fn entry(path: &str, is_dir: bool) -> Entry {
    Entry {
        path: PathBuf::from(path),
        file_name: path.rsplit('/').next().map(str::to_string),
        shown: path.to_string(),
        is_dir,
    }
}

/// A tree over this directory:
///   root/
///     a.txt
///     z.txt
///     sub/
///       b.txt
fn fixture() -> FileTree {
    FileTree::new(vec![
        entry("/root/z.txt", false),
        entry("/root/sub", true),
        entry("/root/a.txt", false),
    ])
}

/// Expands the selected directory, reading `sub` where it is asked for.
fn expand(tree: &mut FileTree) {
    if let Some(dir) = tree.expand_selected() {
        assert_eq!(dir, PathBuf::from("/root/sub"));
        tree.load_selected(vec![entry("/root/sub/b.txt", false)]);
    }
}

fn names(tree: &FileTree) -> Vec<String> {
    tree.visible().iter().map(|n| n.name.clone()).collect()
}

#[test]
fn lists_dirs_first_then_files() {
    let tree = fixture();
    assert_eq!(names(&tree), vec!["sub", "a.txt", "z.txt"]);
}

#[test]
fn expand_and_collapse_directory() {
    let mut tree = fixture();
    // "sub" is selected first (index 0)
    expand(&mut tree);
    assert_eq!(names(&tree), vec!["sub", "b.txt", "a.txt", "z.txt"]);
    tree.collapse_selected();
    assert_eq!(names(&tree), vec!["sub", "a.txt", "z.txt"]);
    // What was read once is not asked for again.
    assert!(tree.expand_selected().is_none());
    assert_eq!(names(&tree), vec!["sub", "b.txt", "a.txt", "z.txt"]);
}

#[test]
fn navigation_and_activate_file_returns_path() {
    let mut tree = fixture();
    tree.select_next(); // a.txt
    assert_eq!(tree.selected_path().unwrap().file_name().unwrap(), "a.txt");
    match tree.activate() {
        Activation::Open(opened) => assert_eq!(opened.file_name().unwrap(), "a.txt"),
        other => panic!("file should yield a path: {other:?}"),
    }
}

#[test]
fn activate_directory_toggles_and_returns_none() {
    let mut tree = fixture();
    // selected is "sub"
    match tree.activate() {
        Activation::Read(dir) => assert_eq!(dir, PathBuf::from("/root/sub")),
        other => panic!("{other:?}"),
    }
    tree.load_selected(vec![entry("/root/sub/b.txt", false)]);
    assert_eq!(names(&tree), vec!["sub", "b.txt", "a.txt", "z.txt"]);
    assert!(matches!(tree.activate(), Activation::Done));
    assert_eq!(names(&tree), vec!["sub", "a.txt", "z.txt"]);
}

#[test]
fn selection_clamps_after_collapse() {
    let mut tree = fixture();
    expand(&mut tree); // sub, b.txt, a.txt, z.txt
    tree.select_next();
    tree.select_next();
    tree.select_next(); // z.txt at index 3
    assert_eq!(tree.selected, 3);
    tree.select_next(); // already at the end
    assert_eq!(tree.selected, 3);
    // collapse from a non-sub row changes nothing; collapse sub via reselect
    tree.collapse_selected();
    assert_eq!(tree.selected, 3);
    tree.selected = 0;
    tree.collapse_selected();
    // selection still valid
    assert!(tree.selected_path().is_some());
    tree.select_prev();
    assert_eq!(tree.selected, 0);
}

#[test]
fn an_empty_tree_has_nothing_selected() {
    let mut tree = FileTree::new(Vec::new());
    assert_eq!(tree.selected_path(), None);
    assert!(matches!(tree.activate(), Activation::Done));
    assert!(tree.expand_selected().is_none());
    tree.collapse_selected();
    assert_eq!(tree.selected, 0);
}

#[test]
fn rows_are_indented_marked_and_styled() {
    let mut tree = fixture();
    expand(&mut tree);
    let theme = Theme::default();
    let rows = tree.render(true, &theme);
    let texts: Vec<&str> = rows.iter().map(|r| r.0.as_str()).collect();
    assert_eq!(texts, vec!["▾ sub/", "    b.txt", "  a.txt", "  z.txt"]);
    assert_eq!(rows[0].1, Style::new().bg(Color::Blue).fg(Color::White));
    assert_eq!(rows[1].1, Style::new());
    let rows = tree.render(false, &theme);
    assert_eq!(rows[0].1, Style::new().bg(Color::DarkGray));
    tree.collapse_selected();
    assert_eq!(tree.render(true, &theme)[0].0, "▸ sub/");
}

#[test]
fn a_directory_is_read_once() {
    let mut tree = fixture();
    assert_eq!(tree.expand_selected(), Some(PathBuf::from("/root/sub")));
    tree.load_selected(vec![entry("/root/sub/b.txt", false)]);
    let open = names(&tree);
    assert_eq!(open, vec!["sub", "b.txt", "a.txt", "z.txt"]);
    tree.collapse_selected();
    assert_eq!(names(&tree), vec!["sub", "a.txt", "z.txt"]);
    assert_eq!(tree.selected, 0);
    assert_eq!(tree.expand_selected(), None);
    assert_eq!(names(&tree), open);
    // Collapsing a file, and a directory that is closed, changes nothing.
    tree.select_next();
    tree.collapse_selected();
    assert_eq!(names(&tree), open);
    assert_eq!(tree.selected, 1);
    tree.select_prev();
    tree.collapse_selected();
    tree.collapse_selected();
    assert_eq!(names(&tree), vec!["sub", "a.txt", "z.txt"]);
}

#[test]
fn activating_a_directory_twice_restores_the_rows() {
    let mut tree = fixture();
    let closed = names(&tree);
    assert!(matches!(tree.activate(), Activation::Read(_)));
    assert!(tree.takes_entries());
    tree.load_selected(vec![entry("/root/sub/b.txt", false)]);
    let open = names(&tree);
    assert!(matches!(tree.activate(), Activation::Done));
    assert_eq!((names(&tree), tree.selected), (closed, 0));
    assert!(matches!(tree.activate(), Activation::Done));
    assert_eq!((names(&tree), tree.selected), (open, 0));
    tree.nodes[0].depth = usize::MAX;
    assert!(!tree.takes_entries());
}
