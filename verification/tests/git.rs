use vybim::git::{
    checked_porcelain, decode, parse_porcelain, parse_records, toplevel, ChangeKind, ChangedFile,
    FileContents,
};

/// Build a NUL-separated porcelain payload from `XY PATH` lines.
fn porcelain(records: &[&str]) -> Vec<u8> {
    let mut v = Vec::new();
    for r in records {
        v.extend_from_slice(r.as_bytes());
        v.push(0);
    }
    v
}

#[test]
fn parses_each_change_kind() {
    let raw = porcelain(&[" M src/a.rs", "A  src/new.rs", " D src/gone.rs"]);
    let files = parse_porcelain(&raw);
    assert_eq!(
        files,
        vec![
            ChangedFile {
                path: "src/a.rs".into(),
                kind: ChangeKind::Modified
            },
            ChangedFile {
                path: "src/new.rs".into(),
                kind: ChangeKind::Added
            },
            ChangedFile {
                path: "src/gone.rs".into(),
                kind: ChangeKind::Deleted
            },
        ]
    );
}

#[test]
fn untracked_files_count_as_added() {
    let files = parse_porcelain(&porcelain(&["?? notes.txt"]));
    assert_eq!(
        files,
        vec![ChangedFile {
            path: "notes.txt".into(),
            kind: ChangeKind::Added
        }]
    );
}

#[test]
fn preserves_spaces_in_names() {
    let files = parse_porcelain(&porcelain(&[" M my file.rs"]));
    assert_eq!(files[0].path, "my file.rs");
}

#[test]
fn rename_consumes_origin_field_and_keeps_new_path() {
    // A rename record is followed by its original path as a separate field.
    let mut raw = Vec::new();
    raw.extend_from_slice(b"R  new name.rs");
    raw.push(0);
    raw.extend_from_slice(b"old name.rs");
    raw.push(0);
    raw.extend_from_slice(b" M after.rs");
    raw.push(0);
    let files = parse_porcelain(&raw);
    assert_eq!(files.len(), 2);
    assert_eq!(files[0].path, "new name.rs");
    assert_eq!(files[1].path, "after.rs");
}

#[test]
fn clean_tree_yields_no_files() {
    assert!(parse_porcelain(b"").is_empty());
}

#[test]
fn decode_flags_non_utf8_and_nul_as_binary() {
    assert_eq!(decode(vec![0xff, 0xfe]), FileContents::Binary);
    assert_eq!(decode(vec![b'a', 0, b'b']), FileContents::Binary);
    assert_eq!(decode(b"hi".to_vec()), FileContents::Text("hi".into()));
}

#[test]
fn changes_have_letters() {
    assert_eq!(ChangeKind::Modified.indicator(), 'M');
    assert_eq!(ChangeKind::Added.indicator(), 'A');
    assert_eq!(ChangeKind::Deleted.indicator(), 'D');
}

#[test]
fn the_root_is_trimmed_and_an_empty_one_is_none() {
    assert_eq!(toplevel(b"/home/me/repo\n"), Some("/home/me/repo".to_string()));
    assert_eq!(toplevel(b"  /my repo \r\n"), Some("/my repo".to_string()));
    assert_eq!(toplevel(b" \n"), None);
    assert_eq!(toplevel(b""), None);
    // What is not UTF-8 is replaced.
    assert_eq!(toplevel(b"/a\xff\n"), Some("/a\u{fffd}".to_string()));
}

#[test]
fn a_record_without_room_for_its_letters_is_refused() {
    // The second byte is inside a character, so there are no two letters.
    assert_eq!(checked_porcelain("M\u{e9} a.rs\0".as_bytes()), None);
    assert_eq!(parse_records("M\u{e9} a.rs\0"), None);
    let good = porcelain(&[" M a.rs", "x", "MM b.rs"]);
    // A field that is too short is skipped.
    let files = checked_porcelain(&good).unwrap();
    assert_eq!(files, parse_porcelain(&good));
    assert_eq!(files.len(), 2);
    assert_eq!(files[1].path, "b.rs");
}

#[test]
fn copies_consume_their_origin_too() {
    let files = parse_porcelain(&porcelain(&["C  new.rs", "old.rs", "D  gone.rs"]));
    assert_eq!(files.len(), 2);
    assert_eq!(files[0].path, "new.rs");
    assert_eq!(files[1].kind, ChangeKind::Deleted);
}

#[test]
fn output_that_is_not_utf8_is_read_as_far_as_it_is() {
    let files = parse_porcelain(b" M caf\xc3\xa9.rs\0?? x\xff.rs\0");
    assert_eq!(files[0].path, "caf\u{e9}.rs");
    assert_eq!(files[1].path, "x\u{fffd}.rs");
    assert_eq!(toplevel(b"/caf\xc3\xa9\n").as_deref(), Some("/caf\u{e9}"));
}
