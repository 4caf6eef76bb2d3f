//! Syntax highlighting via tree-sitter.
//!
//! Highlighting is computed per visible line at render time, so the work is
//! bounded by the viewport rather than the file size — typing stays responsive
//! even in a large file.
use crate::complete::{begins_with, has_prefix};
use crate::lsp::registry::{language_in, language_of};
use crate::paths::{file_name_bytes, path_bytes};
use crate::style::{Color, Style};
use crate::text::{chars_of, same_text};
use std::path::PathBuf;
use tree_sitter_highlight::{HighlightConfiguration, HighlightEvent, Highlighter};
use vstd::prelude::*;

verus! {

/// The highlight capture names we recognize. The event stream refers to
/// captures by their index in this list.
pub open spec fn recognized() -> Seq<Seq<char>> {
    seq![
        "attribute"@,
        "comment"@,
        "constant"@,
        "constant.builtin"@,
        "constructor"@,
        "escape"@,
        "function"@,
        "function.macro"@,
        "function.method"@,
        "keyword"@,
        "label"@,
        "number"@,
        "operator"@,
        "property"@,
        "punctuation"@,
        "punctuation.bracket"@,
        "punctuation.delimiter"@,
        "string"@,
        "type"@,
        "type.builtin"@,
        "variable"@,
        "variable.builtin"@,
        "variable.parameter"@,
    ]
}

/// The texts of a list of names.
pub open spec fn name_texts(names: Seq<&'static str>) -> Seq<Seq<char>> {
    names.map_values(|n: &'static str| n@)
}

/// The highlight capture names we recognize.
fn highlight_names() -> (r: Vec<&'static str>)
    ensures
        name_texts(r@) == recognized(),
{
    let names: Vec<&'static str> = vec![
        "attribute",
        "comment",
        "constant",
        "constant.builtin",
        "constructor",
        "escape",
        "function",
        "function.macro",
        "function.method",
        "keyword",
        "label",
        "number",
        "operator",
        "property",
        "punctuation",
        "punctuation.bracket",
        "punctuation.delimiter",
        "string",
        "type",
        "type.builtin",
        "variable",
        "variable.builtin",
        "variable.parameter",
    ];
    assert(name_texts(names@) =~= recognized());
    names
}

/// A highlighted run within a line: a byte range and the style to apply.
pub type Span = (usize, usize, Style);

// ---------------------------------------------------------------------------
// The highlighter.

/// `tree_sitter_highlight::HighlightConfiguration`, seen from outside as its
/// language's name and the capture names it recognizes.
#[verifier::external_type_specification]
#[verifier::external_body]
pub struct ExHighlightConfiguration(HighlightConfiguration);

/// The name of the language that a configuration highlights.
pub uninterp spec fn grammar_of(config: HighlightConfiguration) -> Seq<char>;

/// The capture names that a configuration recognizes.
pub uninterp spec fn names_of(config: HighlightConfiguration) -> Seq<Seq<char>>;

/// One step of a highlighted line: a piece of its bytes, or the start or the end
/// of a capture, which is named by its place in the list of recognized names.
#[derive(Debug, Clone, Copy, PartialEq, Eq, Structural)]
pub enum Event {
    Source { start: usize, end: usize },
    Start(usize),
    End,
}

/// What `Highlighter::highlight` yields for a line in a language, with a list of
/// recognized names: nothing if it fails, and otherwise its events, of which
/// those that are errors are `None`.
pub uninterp spec fn highlighted(
    grammar: Seq<char>,
    names: Seq<Seq<char>>,
    line: Seq<char>,
) -> Option<Seq<Option<Event>>>;

/// `HighlightConfiguration::new` with the grammar and the highlight query of
/// `tree_sitter_rust`, which are made for each other.
#[verifier::external_body]
fn rust_grammar() -> (r: HighlightConfiguration)
    ensures
        grammar_of(r) == "rust"@,
{
    HighlightConfiguration::new(
        tree_sitter_rust::LANGUAGE.into(),
        "rust",
        tree_sitter_rust::HIGHLIGHTS_QUERY,
        "",
        "",
    ).expect("bundled highlight query is valid")
}

/// `HighlightConfiguration::new` with the grammar and the highlight query of
/// `tree_sitter_c`, which are made for each other.
#[verifier::external_body]
fn c_grammar() -> (r: HighlightConfiguration)
    ensures
        grammar_of(r) == "c"@,
{
    HighlightConfiguration::new(
        tree_sitter_c::LANGUAGE.into(),
        "c",
        tree_sitter_c::HIGHLIGHT_QUERY,
        "",
        "",
    ).expect("bundled highlight query is valid")
}

/// `HighlightConfiguration::new` with the grammar and the highlight query of
/// `tree_sitter_python`, which are made for each other.
#[verifier::external_body]
fn python_grammar() -> (r: HighlightConfiguration)
    ensures
        grammar_of(r) == "python"@,
{
    HighlightConfiguration::new(
        tree_sitter_python::LANGUAGE.into(),
        "python",
        tree_sitter_python::HIGHLIGHTS_QUERY,
        "",
        "",
    ).expect("bundled highlight query is valid")
}

/// `HighlightConfiguration::new` with the grammar and the highlight query of
/// `tree_sitter_cpp`, which are made for each other.
#[verifier::external_body]
fn cpp_grammar() -> (r: HighlightConfiguration)
    ensures
        grammar_of(r) == "cpp"@,
{
    HighlightConfiguration::new(
        tree_sitter_cpp::LANGUAGE.into(),
        "cpp",
        tree_sitter_cpp::HIGHLIGHT_QUERY,
        "",
        "",
    ).expect("bundled highlight query is valid")
}

/// `HighlightConfiguration::configure`: sets the recognized names and leaves the
/// language as it is.
#[verifier::external_body]
fn configure(config: &mut HighlightConfiguration, names: &Vec<&'static str>)
    ensures
        grammar_of(*final(config)) == grammar_of(*old(config)),
        names_of(*final(config)) == name_texts(names@),
{
    config.configure(names.as_slice());
}

/// The events of a list.
pub open spec fn events_view(events: Option<Vec<Option<Event>>>) -> Option<Seq<Option<Event>>> {
    match events {
        Some(e) => Some(e@),
        None => None,
    }
}

/// Whether every capture that starts is one of `count` names.
pub open spec fn starts_within(events: Seq<Option<Event>>, count: int) -> bool {
    forall|i: int|
        0 <= i < events.len() ==> match #[trigger] events[i] {
            Some(Event::Start(h)) => h < count,
            _ => true,
        }
}

/// Whether the pieces of a line follow on one another from byte `at` on.
pub open spec fn pieces_follow(events: Seq<Option<Event>>, at: int) -> bool
    decreases events.len(),
{
    events.len() == 0 || match events[0] {
        Some(Event::Source { start, end }) => start == at && start < end && pieces_follow(
            events.skip(1),
            end as int,
        ),
        _ => pieces_follow(events.skip(1), at),
    }
}

/// `Highlighter::highlight` of one line, without injections: its result is a
/// function of the configuration and the line, a capture that starts is given
/// by its index in the list of recognized names, and each piece of the line
/// begins where the one before it ended.
#[verifier::external_body]
fn highlight(config: &HighlightConfiguration, line: &str) -> (r: Option<Vec<Option<Event>>>)
    ensures
        events_view(r) == highlighted(grammar_of(*config), names_of(*config), line@),
        match r {
            Some(events) => starts_within(events@, names_of(*config).len() as int)
                && pieces_follow(events@, 0),
            None => true,
        },
{
    let mut highlighter = Highlighter::new();
    let events = highlighter.highlight(config, line.as_bytes(), None, None, |_| None).ok()?;
    Some(
        events.map(
            |e| match e {
                Ok(HighlightEvent::Source { start, end }) => Some(Event::Source { start, end }),
                Ok(HighlightEvent::HighlightStart(h)) => Some(Event::Start(h.0)),
                Ok(HighlightEvent::HighlightEnd) => Some(Event::End),
                Err(_) => None,
            },
        ).collect(),
    )
}

// ---------------------------------------------------------------------------
// Spans.

/// The spans of a list of events, with the captures in `stack` open: each piece
/// of the line in the style of the innermost open capture, up to the first
/// error.
pub open spec fn spans_of(
    events: Seq<Option<Event>>,
    styles: Seq<Style>,
    stack: Seq<usize>,
) -> Seq<Span>
    decreases events.len(),
{
    if events.len() == 0 {
        Seq::empty()
    } else {
        let rest = events.skip(1);
        match events[0] {
            Some(Event::Start(h)) => spans_of(rest, styles, stack.push(h)),
            Some(Event::End) => spans_of(
                rest,
                styles,
                if stack.len() > 0 {
                    stack.drop_last()
                } else {
                    stack
                },
            ),
            Some(Event::Source { start, end }) => {
                let piece = if stack.len() > 0 && start < end {
                    seq![(start, end, styles[stack.last() as int])]
                } else {
                    Seq::empty()
                };
                piece + spans_of(rest, styles, stack)
            },
            None => Seq::empty(),
        }
    }
}

/// The spans of what a highlighter yields: none if it failed.
pub open spec fn line_spans(
    events: Option<Seq<Option<Event>>>,
    styles: Seq<Style>,
) -> Seq<Span> {
    match events {
        Some(e) => spans_of(e, styles, Seq::empty()),
        None => Seq::empty(),
    }
}

/// Turns the events of a line into its spans.
pub fn spans_from_events(events: &Vec<Option<Event>>, styles: &Vec<Style>) -> (r: Vec<Span>)
    requires
        starts_within(events@, styles@.len() as int),
    ensures
        r@ == spans_of(events@, styles@, Seq::empty()),
{
    let mut spans: Vec<Span> = Vec::new();
    let mut stack: Vec<usize> = Vec::new();
    let mut i: usize = 0;
    assert(events@.skip(0) =~= events@);
    assert(stack@ =~= Seq::empty());
    assert(spans@ + spans_of(events@, styles@, Seq::empty()) =~= spans_of(
        events@,
        styles@,
        Seq::empty(),
    ));
    while i < events.len()
        invariant
            i <= events@.len(),
            starts_within(events@, styles@.len() as int),
            forall|k: int| 0 <= k < stack@.len() ==> (#[trigger] stack@[k]) < styles@.len(),
            spans@ + spans_of(events@.skip(i as int), styles@, stack@) == spans_of(
                events@,
                styles@,
                Seq::empty(),
            ),
        decreases events@.len() - i,
    {
        let ghost left = events@.skip(i as int);
        assert(left.skip(1) =~= events@.skip(i + 1));
        assert(left[0] == events@[i as int]);
        match events[i] {
            Some(Event::Start(h)) => {
                stack.push(h);
            },
            Some(Event::End) => {
                stack.pop();
            },
            Some(Event::Source { start, end }) => {
                let ghost before = spans@;
                if stack.len() > 0 && start < end {
                    let idx: usize = stack[stack.len() - 1];
                    spans.push((start, end, styles[idx]));
                    assert(spans@ + spans_of(events@.skip(i + 1), styles@, stack@) =~= before
                        + spans_of(left, styles@, stack@));
                } else {
                    assert(spans_of(left, styles@, stack@) =~= spans_of(
                        events@.skip(i + 1),
                        styles@,
                        stack@,
                    ));
                }
            },
            None => {
                assert(spans@ =~= spans@ + spans_of(left, styles@, stack@));
                return spans;
            },
        }
        i += 1;
    }
    assert(spans@ =~= spans@ + spans_of(events@.skip(i as int), styles@, stack@));
    spans
}

// ---------------------------------------------------------------------------
// The palette.

/// The color of a capture name, by the longest prefix that has one.
pub open spec fn color_for(name: Seq<char>) -> Option<Color> {
    if begins_with(name, "comment"@) {
        Some(Color::DarkGray)
    } else if begins_with(name, "keyword"@) {
        Some(Color::Magenta)
    } else if begins_with(name, "string"@) || name == "escape"@ {
        Some(Color::Green)
    } else if begins_with(name, "function"@) || name == "constructor"@ {
        Some(Color::Blue)
    } else if begins_with(name, "type"@) {
        Some(Color::Yellow)
    } else if begins_with(name, "variable.builtin"@) || name == "constant.builtin"@ {
        Some(Color::Red)
    } else if begins_with(name, "constant"@) || name == "number"@ {
        Some(Color::Cyan)
    } else if name == "attribute"@ || name == "label"@ {
        Some(Color::LightYellow)
    } else if begins_with(name, "operator"@) || begins_with(name, "punctuation"@) {
        Some(Color::Gray)
    } else {
        None
    }
}

/// The style of a capture name: its color, and comments in italics.
pub open spec fn capture_style(name: Seq<char>) -> Style {
    Style { fg: color_for(name), italic: begins_with(name, "comment"@), ..Style::plain() }
}

fn starts_with(name: &str, prefix: &str) -> (r: bool)
    ensures
        r == begins_with(name@, prefix@),
{
    has_prefix(&chars_of(name), &chars_of(prefix))
}

/// Map a capture name to a palette color, by longest matching prefix.
pub fn style_for(name: &str) -> (r: Style)
    ensures
        r == capture_style(name@),
{
    let base = Style::new();
    let comment = starts_with(name, "comment");
    let color = if comment {
        Color::DarkGray
    } else if starts_with(name, "keyword") {
        Color::Magenta
    } else if starts_with(name, "string") || same_text(name, "escape") {
        Color::Green
    } else if starts_with(name, "function") || same_text(name, "constructor") {
        Color::Blue
    } else if starts_with(name, "type") {
        Color::Yellow
    } else if starts_with(name, "variable.builtin") || same_text(name, "constant.builtin") {
        Color::Red
    } else if starts_with(name, "constant") || same_text(name, "number") {
        Color::Cyan
    } else if same_text(name, "attribute") || same_text(name, "label") {
        Color::LightYellow
    } else if starts_with(name, "operator") || starts_with(name, "punctuation") {
        Color::Gray
    } else {
        return base;
    };
    let colored = base.fg(color);
    Style { italic: comment, ..colored }
}

/// The styles of the recognized names.
pub open spec fn palette() -> Seq<Style> {
    recognized().map_values(|n: Seq<char>| capture_style(n))
}

// ---------------------------------------------------------------------------
// Syntax.

pub struct Syntax {
    config: HighlightConfiguration,
    styles: Vec<Style>,
}

/// Whether a grammar is bundled for a language. The registry knows languages we
/// serve via LSP but don't highlight.
pub open spec fn has_grammar(language: Seq<char>) -> bool {
    language == "rust"@ || language == "c"@ || language == "python"@ || language == "cpp"@
}

impl View for Syntax {
    type V = Seq<char>;

    /// The language that is highlighted.
    closed spec fn view(&self) -> Seq<char> {
        grammar_of(self.config)
    }
}

impl Syntax {
    /// Whether the captures have their styles.
    pub closed spec fn wf(self) -> bool {
        names_of(self.config) == recognized() && self.styles@ == palette()
    }

    /// Build a highlighter for a file, or `None` if no grammar is bundled for
    /// it. Extension→language resolution is delegated to the LSP registry's
    /// [`language_of`](crate::lsp::registry::language_of) — the single map —
    /// so the highlighter and the language servers can't drift apart.
    pub fn for_path(path: &PathBuf) -> (r: Option<Syntax>)
        ensures
            match (language_in(file_name_bytes(path_bytes(*path))), r) {
                (Some(language), Some(syntax)) => has_grammar(language) && syntax.wf() && syntax@
                    == language,
                (Some(language), None) => !has_grammar(language),
                (None, r) => r is None,
            },
    {
        match language_of(path) {
            Some(language) => Syntax::for_language(language),
            None => None,
        }
    }

    /// A highlighter for a language key, or `None` when no grammar is bundled
    /// (the registry knows languages we serve via LSP but don't highlight).
    pub fn for_language(language: &str) -> (r: Option<Syntax>)
        ensures
            match r {
                Some(syntax) => has_grammar(language@) && syntax.wf() && syntax@ == language@,
                None => !has_grammar(language@),
            },
    {
        if same_text(language, "rust") {
            Some(Syntax::grammar(rust_grammar()))
        } else if same_text(language, "c") {
            Some(Syntax::grammar(c_grammar()))
        } else if same_text(language, "python") {
            Some(Syntax::grammar(python_grammar()))
        } else if same_text(language, "cpp") {
            Some(Syntax::grammar(cpp_grammar()))
        } else {
            None
        }
    }

    fn grammar(config: HighlightConfiguration) -> (r: Syntax)
        ensures
            r.wf(),
            r@ == grammar_of(config),
    {
        let mut config = config;
        let names = highlight_names();
        configure(&mut config, &names);
        let mut styles: Vec<Style> = Vec::new();
        let mut i: usize = 0;
        while i < names.len()
            invariant
                i <= names@.len(),
                name_texts(names@) == recognized(),
                styles@ == palette().take(i as int),
            decreases names@.len() - i,
        {
            assert(recognized()[i as int] == names@[i as int]@);
            styles.push(style_for(names[i]));
            i += 1;
            assert(styles@ =~= palette().take(i as int));
        }
        assert(palette().take(i as int) =~= palette());
        Syntax { config, styles }
    }

    /// Compute the highlight spans (byte ranges into `line`) for one line of
    /// text. Lines are highlighted independently, which keeps work bounded.
    pub fn highlight_line(&self, line: &str) -> (r: Vec<Span>)
        requires
            self.wf(),
        ensures
            r@ == line_spans(highlighted(self@, recognized(), line@), palette()),
            in_order(r@, 0),
    {
        match highlight(&self.config, line) {
            Some(events) => {
                proof {
                    spans_come_in_order(events@, self.styles@, Seq::empty(), 0);
                }
                spans_from_events(&events, &self.styles)
            },
            None => Vec::new(),
        }
    }
}

/// Whether spans come in order and do not overlap, from byte `cursor` on.
pub open spec fn in_order(spans: Seq<Span>, cursor: int) -> bool
    decreases spans.len(),
{
    spans.len() == 0 || (cursor <= spans[0].0 && in_order(spans.skip(1), spans[0].1 as int))
}

// ---------------------------------------------------------------------------
// Laws.

/// Where the pieces of a line follow on one another, its spans come in order and
/// do not overlap.
pub proof fn spans_come_in_order(
    events: Seq<Option<Event>>,
    styles: Seq<Style>,
    stack: Seq<usize>,
    at: int,
)
    requires
        pieces_follow(events, at),
    ensures
        in_order(spans_of(events, styles, stack), at),
    decreases events.len(),
{
    if events.len() > 0 {
        let rest = events.skip(1);
        match events[0] {
            Some(Event::Start(h)) => {
                spans_come_in_order(rest, styles, stack.push(h), at);
            },
            Some(Event::End) => {
                let after = if stack.len() > 0 {
                    stack.drop_last()
                } else {
                    stack
                };
                spans_come_in_order(rest, styles, after, at);
            },
            Some(Event::Source { start, end }) => {
                spans_come_in_order(rest, styles, stack, end as int);
                let later = spans_of(rest, styles, stack);
                if stack.len() > 0 {
                    let piece = seq![(start, end, styles[stack.last() as int])];
                    assert((piece + later).skip(1) =~= later);
                } else {
                    assert(spans_of(events, styles, stack) =~= later);
                    if later.len() > 0 {
                        assert(in_order(later, end as int));
                    }
                }
            },
            None => {},
        }
    }
}

/// Every span is a piece of the line that is not empty, as an event gave it, in
/// a style of the palette.
pub proof fn spans_are_pieces(
    events: Seq<Option<Event>>,
    styles: Seq<Style>,
    stack: Seq<usize>,
    k: int,
)
    requires
        starts_within(events, styles.len() as int),
        forall|i: int| 0 <= i < stack.len() ==> (#[trigger] stack[i]) < styles.len(),
        0 <= k < spans_of(events, styles, stack).len(),
    ensures
        ({
            let span = spans_of(events, styles, stack)[k];
            &&& span.0 < span.1
            &&& events.contains(Some(Event::Source { start: span.0, end: span.1 }))
            &&& styles.contains(span.2)
        }),
    decreases events.len(),
{
    let span = spans_of(events, styles, stack)[k];
    let rest = events.skip(1);
    assert forall|i: int| 0 <= i < rest.len() implies match #[trigger] rest[i] {
        Some(Event::Start(h)) => h < styles.len(),
        _ => true,
    } by {
        assert(rest[i] == events[i + 1]);
    }
    match events[0] {
        Some(Event::Start(h)) => {
            assert(events[0] == Some(Event::Start(h)));
            spans_are_pieces(rest, styles, stack.push(h), k);
            lemma_later_event(events, Some(Event::Source { start: span.0, end: span.1 }));
        },
        Some(Event::End) => {
            let after = if stack.len() > 0 {
                stack.drop_last()
            } else {
                stack
            };
            spans_are_pieces(rest, styles, after, k);
            lemma_later_event(events, Some(Event::Source { start: span.0, end: span.1 }));
        },
        Some(Event::Source { start, end }) => {
            if stack.len() > 0 && start < end {
                if k == 0 {
                    assert(span == (start, end, styles[stack.last() as int]));
                    assert(events[0] == Some(Event::Source { start, end }));
                    assert(stack[stack.len() - 1] < styles.len());
                    assert(styles.contains(styles[stack.last() as int]));
                } else {
                    assert(span == spans_of(rest, styles, stack)[k - 1]);
                    spans_are_pieces(rest, styles, stack, k - 1);
                    lemma_later_event(events, Some(Event::Source { start: span.0, end: span.1 }));
                }
            } else {
                assert(spans_of(events, styles, stack) =~= spans_of(rest, styles, stack));
                spans_are_pieces(rest, styles, stack, k);
                lemma_later_event(events, Some(Event::Source { start: span.0, end: span.1 }));
            }
        },
        None => {},
    }
}

proof fn lemma_later_event(events: Seq<Option<Event>>, e: Option<Event>)
    requires
        events.len() > 0,
        events.skip(1).contains(e),
    ensures
        events.contains(e),
{
    let i = choose|i: int| 0 <= i < events.skip(1).len() && events.skip(1)[i] == e;
    assert(events[i + 1] == e);
}

/// A capture styles what stands in it and nothing behind it: within another one
/// the inner style holds, and behind it the outer one again. Outside of captures
/// nothing is styled.
pub proof fn captures_style_what_they_hold(
    h: usize,
    start: usize,
    end: usize,
    rest: Seq<Option<Event>>,
    styles: Seq<Style>,
    stack: Seq<usize>,
)
    requires
        start < end,
    ensures
        spans_of(
            seq![Some(Event::Start(h)), Some(Event::Source { start, end }), Some(Event::End)] + rest,
            styles,
            stack,
        ) == seq![(start, end, styles[h as int])] + spans_of(rest, styles, stack),
        spans_of(seq![Some(Event::Source { start, end })] + rest, styles, stack) == if stack.len()
            == 0 {
            spans_of(rest, styles, stack)
        } else {
            seq![(start, end, styles[stack.last() as int])] + spans_of(rest, styles, stack)
        },
        spans_of(Seq::empty(), styles, stack) == Seq::<Span>::empty(),
{
    let source = Some(Event::Source { start, end });
    let all = seq![Some(Event::Start(h)), source, Some(Event::End)] + rest;
    let one = all.skip(1);
    let two = one.skip(1);
    assert(one[0] == source);
    assert(two[0] == Some(Event::End));
    assert(two.skip(1) =~= rest);
    let inner = stack.push(h);
    assert(inner.drop_last() =~= stack);
    assert(spans_of(two, styles, inner) == spans_of(rest, styles, stack));
    assert(spans_of(one, styles, inner) == seq![(start, end, styles[h as int])] + spans_of(
        two,
        styles,
        inner,
    ));
    let lone = seq![source] + rest;
    assert(lone.skip(1) =~= rest);
    assert(Seq::<Span>::empty() + spans_of(rest, styles, stack) =~= spans_of(rest, styles, stack));
}

/// A text whose character at `k` is another one does not begin with `p`.
proof fn lemma_begins_otherwise(name: Seq<char>, p: Seq<char>, k: int)
    requires
        0 <= k < p.len(),
        k < name.len() ==> name[k] != p[k],
    ensures
        !begins_with(name, p),
        name != p,
{
    if begins_with(name, p) {
        assert(name.take(p.len() as int)[k] == name[k]);
    }
}

/// Captures of one family have one color, whatever their names go on with:
/// comments are dark gray and in italics, which nothing else is, keywords are
/// magenta, strings green, functions blue and types yellow; operators and
/// punctuation are gray.
pub proof fn families_have_colors(x: Seq<char>)
    ensures
        capture_style("comment"@ + x) == (Style {
            fg: Some(Color::DarkGray),
            italic: true,
            ..Style::plain()
        }),
        capture_style("keyword"@ + x) == (Style { fg: Some(Color::Magenta), ..Style::plain() }),
        capture_style("string"@ + x) == (Style { fg: Some(Color::Green), ..Style::plain() }),
        capture_style("function"@ + x) == (Style { fg: Some(Color::Blue), ..Style::plain() }),
        capture_style("type"@ + x) == (Style { fg: Some(Color::Yellow), ..Style::plain() }),
        capture_style("operator"@ + x) == (Style { fg: Some(Color::Gray), ..Style::plain() }),
        capture_style("punctuation"@ + x) == (Style { fg: Some(Color::Gray), ..Style::plain() }),
{
    reveal_strlit("comment");
    reveal_strlit("keyword");
    reveal_strlit("string");
    reveal_strlit("escape");
    reveal_strlit("function");
    reveal_strlit("constructor");
    reveal_strlit("type");
    reveal_strlit("variable.builtin");
    reveal_strlit("constant.builtin");
    reveal_strlit("constant");
    reveal_strlit("number");
    reveal_strlit("attribute");
    reveal_strlit("label");
    reveal_strlit("operator");
    reveal_strlit("punctuation");
    let c = "comment"@ + x;
    assert(c.take(7) =~= "comment"@);
    let k = "keyword"@ + x;
    assert(k.take(7) =~= "keyword"@);
    lemma_begins_otherwise(k, "comment"@, 0);
    let s = "string"@ + x;
    assert(s.take(6) =~= "string"@);
    lemma_begins_otherwise(s, "comment"@, 0);
    lemma_begins_otherwise(s, "keyword"@, 0);
    let f = "function"@ + x;
    assert(f.take(8) =~= "function"@);
    lemma_begins_otherwise(f, "comment"@, 0);
    lemma_begins_otherwise(f, "keyword"@, 0);
    lemma_begins_otherwise(f, "string"@, 0);
    lemma_begins_otherwise(f, "escape"@, 0);
    let t = "type"@ + x;
    assert(t.take(4) =~= "type"@);
    lemma_begins_otherwise(t, "comment"@, 0);
    lemma_begins_otherwise(t, "keyword"@, 0);
    lemma_begins_otherwise(t, "string"@, 0);
    lemma_begins_otherwise(t, "escape"@, 0);
    lemma_begins_otherwise(t, "function"@, 0);
    lemma_begins_otherwise(t, "constructor"@, 0);
    let o = "operator"@ + x;
    assert(o.take(8) =~= "operator"@);
    let p = "punctuation"@ + x;
    assert(p.take(11) =~= "punctuation"@);
    lemma_none_before_operators(o);
    lemma_none_before_operators(p);
}

/// A name that begins with an `o` or a `p` is in none of the families before
/// those.
proof fn lemma_none_before_operators(name: Seq<char>)
    requires
        name.len() > 0,
        name[0] == 'o' || name[0] == 'p',
    ensures
        color_for(name) == (if begins_with(name, "operator"@) || begins_with(name, "punctuation"@) {
            Some(Color::Gray)
        } else {
            None
        }),
        !begins_with(name, "comment"@),
{
    reveal_strlit("comment");
    reveal_strlit("keyword");
    reveal_strlit("string");
    reveal_strlit("escape");
    reveal_strlit("function");
    reveal_strlit("constructor");
    reveal_strlit("type");
    reveal_strlit("variable.builtin");
    reveal_strlit("constant.builtin");
    reveal_strlit("constant");
    reveal_strlit("number");
    reveal_strlit("attribute");
    reveal_strlit("label");
    lemma_begins_otherwise(name, "comment"@, 0);
    lemma_begins_otherwise(name, "keyword"@, 0);
    lemma_begins_otherwise(name, "string"@, 0);
    lemma_begins_otherwise(name, "escape"@, 0);
    lemma_begins_otherwise(name, "function"@, 0);
    lemma_begins_otherwise(name, "constructor"@, 0);
    lemma_begins_otherwise(name, "type"@, 0);
    lemma_begins_otherwise(name, "variable.builtin"@, 0);
    lemma_begins_otherwise(name, "constant.builtin"@, 0);
    lemma_begins_otherwise(name, "constant"@, 0);
    lemma_begins_otherwise(name, "number"@, 0);
    lemma_begins_otherwise(name, "attribute"@, 0);
    lemma_begins_otherwise(name, "label"@, 0);
}

/// Rust, C, C++ and Python are highlighted, and no other language is.
pub proof fn highlighted_languages(language: Seq<char>)
    ensures
        has_grammar(language) <==> language == seq!['r', 'u', 's', 't'] || language == seq!['c']
            || language == seq!['c', 'p', 'p'] || language == seq!['p', 'y', 't', 'h', 'o', 'n'],
{
    reveal_strlit("rust");
    reveal_strlit("c");
    reveal_strlit("cpp");
    reveal_strlit("python");
    assert("rust"@ =~= seq!['r', 'u', 's', 't']);
    assert("c"@ =~= seq!['c']);
    assert("cpp"@ =~= seq!['c', 'p', 'p']);
    assert("python"@ =~= seq!['p', 'y', 't', 'h', 'o', 'n']);
}

/// The colors of the names that stand alone, and of the constants: the built-in
/// ones are red, and so are the built-in variables; the others and numbers are
/// cyan. Escapes are green as strings are, and constructors blue as functions
/// are. Attributes and labels are light yellow. Variables and properties have no
/// color.
pub proof fn names_have_colors()
    ensures
        color_for("constant.builtin"@) == Some(Color::Red),
        color_for("variable.builtin"@) == Some(Color::Red),
        color_for("constant"@) == Some(Color::Cyan),
        color_for("number"@) == Some(Color::Cyan),
        color_for("escape"@) == Some(Color::Green),
        color_for("constructor"@) == Some(Color::Blue),
        color_for("attribute"@) == Some(Color::LightYellow),
        color_for("label"@) == Some(Color::LightYellow),
        color_for("variable"@) is None,
        color_for("property"@) is None,
{
    reveal_strlit("comment");
    reveal_strlit("keyword");
    reveal_strlit("string");
    reveal_strlit("escape");
    reveal_strlit("function");
    reveal_strlit("constructor");
    reveal_strlit("type");
    reveal_strlit("variable.builtin");
    reveal_strlit("constant.builtin");
    reveal_strlit("constant");
    reveal_strlit("number");
    reveal_strlit("attribute");
    reveal_strlit("label");
    reveal_strlit("operator");
    reveal_strlit("punctuation");
    reveal_strlit("variable");
    reveal_strlit("property");
    let cb = "constant.builtin"@;
    lemma_begins_otherwise(cb, "comment"@, 2);
    lemma_plain_start(cb);
    lemma_begins_otherwise(cb, "constructor"@, 5);
    lemma_begins_otherwise(cb, "variable.builtin"@, 0);
    let vb = "variable.builtin"@;
    lemma_begins_otherwise(vb, "comment"@, 0);
    lemma_plain_start(vb);
    lemma_begins_otherwise(vb, "constructor"@, 0);
    assert(vb.take(vb.len() as int) =~= vb);
    let c = "constant"@;
    lemma_begins_otherwise(c, "comment"@, 2);
    lemma_plain_start(c);
    lemma_begins_otherwise(c, "constructor"@, 5);
    lemma_begins_otherwise(c, "variable.builtin"@, 0);
    assert(c.len() == 8 && cb.len() == 16);
    assert(c.take(c.len() as int) =~= c);
    let n = "number"@;
    lemma_begins_otherwise(n, "comment"@, 0);
    lemma_plain_start(n);
    lemma_begins_otherwise(n, "constructor"@, 0);
    lemma_begins_otherwise(n, "variable.builtin"@, 0);
    lemma_begins_otherwise(n, "constant.builtin"@, 0);
    let e = "escape"@;
    lemma_begins_otherwise(e, "comment"@, 0);
    lemma_begins_otherwise(e, "keyword"@, 0);
    let k = "constructor"@;
    lemma_begins_otherwise(k, "comment"@, 2);
    lemma_begins_otherwise(k, "keyword"@, 0);
    lemma_begins_otherwise(k, "string"@, 0);
    lemma_begins_otherwise(k, "escape"@, 0);
    let a = "attribute"@;
    lemma_begins_otherwise(a, "comment"@, 0);
    lemma_plain_start(a);
    lemma_begins_otherwise(a, "constructor"@, 0);
    lemma_begins_otherwise(a, "variable.builtin"@, 0);
    lemma_begins_otherwise(a, "constant.builtin"@, 0);
    lemma_begins_otherwise(a, "constant"@, 0);
    lemma_begins_otherwise(a, "number"@, 0);
    let l = "label"@;
    lemma_begins_otherwise(l, "comment"@, 0);
    lemma_plain_start(l);
    lemma_begins_otherwise(l, "constructor"@, 0);
    lemma_begins_otherwise(l, "variable.builtin"@, 0);
    lemma_begins_otherwise(l, "constant.builtin"@, 0);
    lemma_begins_otherwise(l, "constant"@, 0);
    lemma_begins_otherwise(l, "number"@, 0);
    let v = "variable"@;
    lemma_begins_otherwise(v, "comment"@, 0);
    lemma_plain_start(v);
    lemma_begins_otherwise(v, "constructor"@, 0);
    lemma_begins_otherwise(v, "variable.builtin"@, 8);
    lemma_begins_otherwise(v, "constant.builtin"@, 0);
    lemma_begins_otherwise(v, "constant"@, 0);
    lemma_begins_otherwise(v, "number"@, 0);
    lemma_begins_otherwise(v, "attribute"@, 0);
    lemma_begins_otherwise(v, "label"@, 0);
    lemma_begins_otherwise(v, "operator"@, 0);
    lemma_begins_otherwise(v, "punctuation"@, 0);
    let p = "property"@;
    lemma_none_before_operators(p);
    lemma_begins_otherwise(p, "operator"@, 0);
    lemma_begins_otherwise(p, "punctuation"@, 1);
}

/// A name that begins with none of these letters is in none of these families.
proof fn lemma_plain_start(name: Seq<char>)
    requires
        name.len() > 0,
        name[0] != 'k',
        name[0] != 's',
        name[0] != 'e',
        name[0] != 'f',
        name[0] != 't',
    ensures
        !begins_with(name, "keyword"@),
        !begins_with(name, "string"@),
        name != "escape"@,
        !begins_with(name, "function"@),
        !begins_with(name, "type"@),
{
    reveal_strlit("keyword");
    reveal_strlit("string");
    reveal_strlit("escape");
    reveal_strlit("function");
    reveal_strlit("type");
    lemma_begins_otherwise(name, "keyword"@, 0);
    lemma_begins_otherwise(name, "string"@, 0);
    lemma_begins_otherwise(name, "escape"@, 0);
    lemma_begins_otherwise(name, "function"@, 0);
    lemma_begins_otherwise(name, "type"@, 0);
}

} // verus!
