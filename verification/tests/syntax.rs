use std::path::PathBuf;
use vybim::style::{Color, Style};
use vybim::syntax::{style_for, Syntax};

#[test]
fn unsupported_extension_has_no_grammar() {
    assert!(Syntax::for_path(&PathBuf::from("notes.txt")).is_none());
    assert!(Syntax::for_path(&PathBuf::from("README")).is_none());
}

#[test]
fn rust_files_get_a_grammar() {
    assert!(Syntax::for_path(&PathBuf::from("main.rs")).is_some());
}

#[test]
fn registry_languages_without_a_bundled_grammar_have_none() {
    // The registry maps these for LSP, but no grammar is bundled: the
    // shared extension→language map must not invent a highlighter.
    assert!(Syntax::for_path(&PathBuf::from("app.ts")).is_none());
    assert!(Syntax::for_path(&PathBuf::from("main.go")).is_none());
}

#[test]
fn c_files_and_headers_get_a_grammar() {
    assert!(Syntax::for_path(&PathBuf::from("main.c")).is_some());
    assert!(Syntax::for_path(&PathBuf::from("main.h")).is_some());
}

#[test]
fn python_and_cpp_files_get_a_grammar() {
    assert!(Syntax::for_path(&PathBuf::from("app.py")).is_some());
    assert!(Syntax::for_path(&PathBuf::from("app.pyi")).is_some());
    assert!(Syntax::for_path(&PathBuf::from("app.cpp")).is_some());
    assert!(Syntax::for_path(&PathBuf::from("app.cc")).is_some());
    assert!(Syntax::for_path(&PathBuf::from("app.hpp")).is_some());
}

#[test]
fn python_and_cpp_keywords_are_highlighted() {
    let keyword_style = style_for("keyword");
    // Python: "def" (bytes 0..3) is a keyword.
    let py = Syntax::for_path(&PathBuf::from("x.py")).unwrap();
    let spans = py.highlight_line("def f():");
    assert!(
        spans
            .iter()
            .any(|(s, e, style)| *s == 0 && *e == 3 && *style == keyword_style),
        "expected 'def' highlighted as a keyword"
    );
    // C++: "class" (bytes 0..5) is a keyword.
    let cpp = Syntax::for_path(&PathBuf::from("x.cpp")).unwrap();
    let spans = cpp.highlight_line("class Foo {};");
    assert!(
        spans
            .iter()
            .any(|(s, e, style)| *s == 0 && *e == 5 && *style == keyword_style),
        "expected 'class' highlighted as a keyword"
    );
}

#[test]
fn c_keyword_is_highlighted() {
    let syntax = Syntax::for_path(&PathBuf::from("x.c")).unwrap();
    // "return" is a keyword; a span should cover it with the keyword color.
    let spans = syntax.highlight_line("return 0;");
    let keyword_style = style_for("keyword");
    let covers_return = spans
        .iter()
        .any(|(s, e, style)| *s == 0 && *e == 6 && *style == keyword_style);
    assert!(covers_return, "expected 'return' highlighted as a keyword");
}

#[test]
fn keyword_and_comment_are_highlighted_distinctly() {
    let syntax = Syntax::for_path(&PathBuf::from("x.rs")).unwrap();
    // "fn" is a keyword; the spans should cover it with the keyword color.
    let spans = syntax.highlight_line("fn main() {}");
    assert!(!spans.is_empty(), "expected some highlight spans");
    let keyword_style = style_for("keyword");
    let covers_fn = spans
        .iter()
        .any(|(s, e, style)| *s == 0 && *e == 2 && *style == keyword_style);
    assert!(covers_fn, "expected 'fn' to be highlighted as a keyword");
}

#[test]
fn comment_line_highlights_as_comment() {
    let syntax = Syntax::for_path(&PathBuf::from("x.rs")).unwrap();
    let spans = syntax.highlight_line("// hello");
    let comment_style = style_for("comment");
    assert!(spans.iter().any(|(_, _, style)| *style == comment_style));
}

#[test]
fn captures_have_their_colors() {
    assert_colors(&[
        ("comment.doc", Color::DarkGray),
        ("keyword", Color::Magenta),
        ("string.special", Color::Green),
        ("escape", Color::Green),
        ("function.method", Color::Blue),
        ("constructor", Color::Blue),
        ("type.builtin", Color::Yellow),
        ("constant", Color::Cyan),
        ("number", Color::Cyan),
        ("attribute", Color::LightYellow),
        ("label", Color::LightYellow),
        ("variable.builtin", Color::Red),
        // The longer prefix counts.
        ("constant.builtin", Color::Red),
        ("operator", Color::Gray),
        ("punctuation.bracket", Color::Gray),
    ]);
    assert_eq!(style_for("variable"), Style::new());
    assert_eq!(style_for("property"), Style::new());
    assert!(style_for("comment").italic);
    assert!(!style_for("keyword").italic);
}

fn assert_colors(expected: &[(&str, Color)]) {
    for (name, color) in expected {
        assert_eq!(style_for(name).fg, Some(*color), "{name}");
    }
}

#[test]
fn spans_come_in_order_and_within_the_line() {
    let syntax = Syntax::for_language("rust").unwrap();
    let line = "let x: u32 = f(\"a\\n\", 1); // \u{e9}nd";
    let mut at = 0;
    for (start, end, _) in syntax.highlight_line(line) {
        assert!(at <= start && start < end && end <= line.len());
        at = end;
    }
    assert!(at > 0);
}
