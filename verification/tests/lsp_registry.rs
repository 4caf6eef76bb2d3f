use std::path::PathBuf;
use vybim::lsp::registry::{
    default_command, is_bare_name, language_of, language_of_name, Registry, ServerCmd,
};

#[test]
fn language_resolves_by_extension() {
    assert_eq!(language_of(&PathBuf::from("src/main.rs")), Some("rust"));
    assert_eq!(language_of(&PathBuf::from("a.py")), Some("python"));
    assert_eq!(language_of(&PathBuf::from("a.tsx")), Some("typescript"));
    assert_eq!(language_of(&PathBuf::from("README")), None);
    assert_eq!(language_of(&PathBuf::from("a.unknownext")), None);
}

#[test]
fn every_mapped_extension_has_its_language() {
    for (name, language) in [
        ("a.rs", "rust"),
        ("a.py", "python"),
        ("a.pyi", "python"),
        ("a.ts", "typescript"),
        ("a.tsx", "typescript"),
        ("a.js", "javascript"),
        ("a.jsx", "javascript"),
        ("a.go", "go"),
        ("a.c", "c"),
        ("a.h", "c"),
        ("a.cpp", "cpp"),
        ("a.cc", "cpp"),
        ("a.cxx", "cpp"),
        ("a.hpp", "cpp"),
    ] {
        assert_eq!(language_of(&PathBuf::from(name)), Some(language), "{name}");
        assert!(default_command(language).is_some(), "{language}");
    }
}

#[test]
fn extensions_follow_the_last_dot_of_the_name() {
    assert_eq!(language_of(&PathBuf::from("a.tar.rs")), Some("rust"));
    assert_eq!(language_of(&PathBuf::from("dir.rs/notes")), None);
    // A name that only begins with a dot has no extension.
    assert_eq!(language_of(&PathBuf::from(".rs")), None);
    assert_eq!(language_of(&PathBuf::from(".x.rs")), Some("rust"));
    assert_eq!(language_of(&PathBuf::from("main.")), None);
    assert_eq!(language_of(&PathBuf::from("src/..")), None);
    assert_eq!(language_of_name(None), None);
    assert_eq!(language_of_name(Some(vec![b'a', b'.', 0xff])), None);
    assert_eq!(language_of_name(Some(b"a.c".to_vec())), Some("c"));
}

#[test]
fn default_resolution_requires_program_on_path() {
    let reg = Registry::default().with_override("toy", ServerCmd::new("sh", &["-c", "true"]));
    assert_eq!(
        reg.resolve("toy", true),
        Some(ServerCmd::new("sh", &["-c", "true"]))
    );
}

#[test]
fn user_override_beats_default() {
    let reg = Registry::default().with_override("rust", ServerCmd::new("sh", &["--my-analyzer"]));
    // Override present and on PATH → override wins over rust-analyzer.
    assert_eq!(
        reg.resolve("rust", true),
        Some(ServerCmd::new("sh", &["--my-analyzer"]))
    );
    // Another override replaces it, and other languages keep their default.
    let reg = reg.with_override("rust", ServerCmd::new("other", &[]));
    assert_eq!(reg.mapped("rust"), Some(ServerCmd::new("other", &[])));
    assert_eq!(reg.mapped("go"), Some(ServerCmd::new("gopls", &[])));
}

#[test]
fn unknown_language_resolves_to_none() {
    let reg = Registry::default();
    assert_eq!(reg.resolve("cobol", true), None);
    assert_eq!(reg.mapped("cobol"), None);
}

#[test]
fn missing_program_resolves_to_none() {
    let reg = Registry::default().with_override(
        "toy",
        ServerCmd::new("definitely-not-a-real-program-xyz", &[]),
    );
    assert_eq!(reg.resolve("toy", false), None);
    assert!(reg.mapped("toy").is_some());
}

#[test]
fn defaults_are_the_usual_servers() {
    assert_eq!(
        default_command("python"),
        Some(ServerCmd::new("pyright-langserver", &["--stdio"]))
    );
    assert_eq!(
        default_command("javascript"),
        Some(ServerCmd::new("typescript-language-server", &["--stdio"]))
    );
    assert_eq!(default_command("cpp"), Some(ServerCmd::new("clangd", &[])));
    assert_eq!(
        default_command("rust"),
        Some(ServerCmd::new("rust-analyzer", &[]))
    );
}

#[test]
fn bare_names_are_looked_for_and_paths_are_not() {
    assert!(is_bare_name(&PathBuf::from("clangd")));
    assert!(is_bare_name(&PathBuf::from("")));
    assert!(!is_bare_name(&PathBuf::from("./clangd")));
    assert!(!is_bare_name(&PathBuf::from("/usr/bin/clangd")));
    assert!(!is_bare_name(&PathBuf::from("tools/clangd")));
}
