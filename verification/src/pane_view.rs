//! How an editor pane is drawn: its gutter, the visible part of its buffer with
//! highlighting, the selections and carets over it, and its status bar.
//!
//! A plan says what to paint where; painting it is left to the caller.
use crate::buffer::{line_content, Buffer, BufferState};
use crate::caret::Caret;
use crate::layout::{cut_back, cut_front, split_back, split_front, Size, Way};
use crate::pane::{gutter_num_width, number_width, scroll_to_show, scrolled, EditorPane};
use crate::paths::{display, shown_path};
use crate::rope::line_total;
use crate::style::{low16, runs_view, truncate, Rect, Run, RunView, Style};
use crate::syntax::{highlighted, in_order, line_spans, palette, recognized, Span, Syntax};
use crate::text::{byte_width, chars_of, decimal, decimal_string, string_of, width_in_bytes};
use crate::theme::Theme;
use crate::view::{beyond, screen_coord, visible_part, visible_rows, visible_text};
use vstd::prelude::*;

verus! {

// ---------------------------------------------------------------------------
// Styled lines.

/// How many bytes the first `n` characters of a text take in UTF-8.
pub open spec fn bytes_before(text: Seq<char>, n: int) -> int
    decreases n,
{
    if n <= 0 {
        0
    } else {
        bytes_before(text, n - 1) + byte_width(text[n - 1])
    }
}

/// The character that begins at byte `b`, searched from character `i` on; the
/// end of the text counts as one.
pub open spec fn char_from(text: Seq<char>, b: int, i: int) -> Option<int>
    decreases text.len() - i + 1,
{
    if i < 0 || i > text.len() {
        None
    } else if bytes_before(text, i) == b {
        Some(i)
    } else {
        char_from(text, b, i + 1)
    }
}

/// The characters between two byte offsets; none if one of them is not where a
/// character begins, or they are in the wrong order.
pub open spec fn cut(text: Seq<char>, from: int, to: int) -> Option<Seq<char>> {
    match (char_from(text, from, 0), char_from(text, to, 0)) {
        (Some(a), Some(b)) => if a <= b {
            Some(text.subrange(a, b))
        } else {
            None
        },
        _ => None,
    }
}

/// A run in the default style.
pub open spec fn plain_run(text: Seq<char>) -> RunView {
    RunView { text, style: Style::plain() }
}

/// A text from byte `cursor` on as runs: each span in its style, what lies
/// between in the default style; none if a span does not cut the text between
/// characters.
pub open spec fn runs_from(text: Seq<char>, spans: Seq<Span>, cursor: int) -> Option<Seq<RunView>>
    decreases spans.len(),
{
    let total = bytes_before(text, text.len() as int);
    if spans.len() == 0 {
        if cursor < total {
            match cut(text, cursor, total) {
                Some(rest) => Some(seq![plain_run(rest)]),
                None => None,
            }
        } else {
            Some(Seq::empty())
        }
    } else {
        let (start, end, style) = spans[0];
        let gap = if start > cursor {
            match cut(text, cursor, start as int) {
                Some(g) => Some(seq![plain_run(g)]),
                None => None,
            }
        } else {
            Some(Seq::empty())
        };
        let rest = runs_from(text, spans.skip(1), end as int);
        match (gap, cut(text, start as int, end as int), rest) {
            (Some(g), Some(body), Some(r)) => Some(g + seq![RunView { text: body, style }] + r),
            _ => None,
        }
    }
}

/// A line as runs: one run where there is nothing to highlight.
pub open spec fn line_runs(text: Seq<char>, spans: Seq<Span>) -> Option<Seq<RunView>> {
    if spans.len() == 0 {
        Some(seq![plain_run(text)])
    } else {
        runs_from(text, spans, 0)
    }
}

/// The runs of an optional line.
pub open spec fn runs_opt(runs: Option<Vec<Run>>) -> Option<Seq<RunView>> {
    match runs {
        Some(r) => Some(runs_view(r@)),
        None => None,
    }
}

proof fn lemma_bytes_bound(text: Seq<char>, n: int)
    requires
        0 <= n <= text.len(),
    ensures
        n <= bytes_before(text, n) <= 4 * n,
    decreases n,
{
    if n > 0 {
        lemma_bytes_bound(text, n - 1);
    }
}

/// The character that begins at a byte offset.
fn char_at_byte(chars: &Vec<char>, b: u128) -> (r: Option<usize>)
    ensures
        match (r, char_from(chars@, b as int, 0)) {
            (Some(i), Some(j)) => i == j && i <= chars@.len(),
            (None, None) => true,
            _ => false,
        },
{
    let mut i: usize = 0;
    let mut at: u128 = 0;
    while at != b && i < chars.len()
        invariant
            i <= chars@.len(),
            at == bytes_before(chars@, i as int),
            char_from(chars@, b as int, 0) == char_from(chars@, b as int, i as int),
        decreases chars@.len() - i,
    {
        proof {
            lemma_bytes_bound(chars@, i as int);
        }
        at = at + width_in_bytes(chars[i]) as u128;
        i += 1;
    }
    if at == b {
        Some(i)
    } else {
        assert(char_from(chars@, b as int, i + 1) is None);
        None
    }
}

/// The characters between two byte offsets.
fn cut_text(chars: &Vec<char>, from: u128, to: u128) -> (r: Option<String>)
    ensures
        match (r, cut(chars@, from as int, to as int)) {
            (Some(s), Some(t)) => s@ == t,
            (None, None) => true,
            _ => false,
        },
{
    match (char_at_byte(chars, from), char_at_byte(chars, to)) {
        (Some(a), Some(b)) => if a <= b {
            Some(string_of(chars, a, b))
        } else {
            None
        },
        _ => None,
    }
}

fn byte_total(chars: &Vec<char>) -> (r: u128)
    ensures
        r == bytes_before(chars@, chars@.len() as int),
{
    let mut i: usize = 0;
    let mut at: u128 = 0;
    while i < chars.len()
        invariant
            i <= chars@.len(),
            at == bytes_before(chars@, i as int),
        decreases chars@.len() - i,
    {
        proof {
            lemma_bytes_bound(chars@, i as int);
        }
        at = at + width_in_bytes(chars[i]) as u128;
        i += 1;
    }
    at
}

proof fn lemma_runs_push(runs: Seq<Run>, run: Run)
    ensures
        runs_view(runs.push(run)) == runs_view(runs).push(run@),
{
    assert(runs_view(runs.push(run)) =~= runs_view(runs).push(run@));
}

/// The runs so far and the rest of the line, as the whole line.
spec fn with_front(front: Seq<RunView>, rest: Option<Seq<RunView>>) -> Option<Seq<RunView>> {
    match rest {
        Some(r) => Some(front + r),
        None => None,
    }
}

/// Build a styled line from `text` and its highlight spans (byte ranges),
/// leaving gaps in the default style. `None` where a span does not cut the text
/// between characters.
pub fn styled_runs(text: &str, spans: &Vec<Span>) -> (r: Option<Vec<Run>>)
    ensures
        runs_opt(r) == line_runs(text@, spans@),
{
    if spans.len() == 0 {
        let mut out: Vec<Run> = Vec::new();
        out.push(Run { text: text.to_owned(), style: Style::new() });
        assert(runs_view(out@) =~= seq![plain_run(text@)]);
        return Some(out);
    }
    let chars = chars_of(text);
    let total: u128 = byte_total(&chars);
    let mut out: Vec<Run> = Vec::new();
    let mut cursor: u128 = 0;
    let mut i: usize = 0;
    let ghost whole = runs_from(text@, spans@, 0);
    assert(spans@.skip(0) =~= spans@);
    assert(with_front(runs_view(out@), whole) == whole) by {
        assert(runs_view(out@) =~= Seq::empty());
        if whole is Some {
            assert(Seq::<RunView>::empty() + whole->0 =~= whole->0);
        }
    }
    while i < spans.len()
        invariant
            i <= spans@.len(),
            chars@ == text@,
            spans@.len() > 0,
            whole == runs_from(text@, spans@, 0),
            with_front(runs_view(out@), runs_from(text@, spans@.skip(i as int), cursor as int))
                == whole,
        decreases spans@.len() - i,
    {
        let (start, end, style) = spans[i];
        let ghost left = spans@.skip(i as int);
        let ghost front = runs_view(out@);
        let ghost tail = runs_from(text@, left.skip(1), end as int);
        assert(left.skip(1) =~= spans@.skip(i + 1));
        assert(left[0] == spans@[i as int]);
        let ghost mut gap = Seq::<RunView>::empty();
        if start as u128 > cursor {
            match cut_text(&chars, cursor, start as u128) {
                Some(g) => {
                    let run = Run { text: g, style: Style::new() };
                    proof {
                        gap = seq![run@];
                        lemma_runs_push(out@, run);
                    }
                    out.push(run);
                },
                None => return None,
            }
        }
        assert(runs_view(out@) =~= front + gap);
        match cut_text(&chars, start as u128, end as u128) {
            Some(body) => {
                let run = Run { text: body, style };
                proof {
                    lemma_runs_push(out@, run);
                }
                out.push(run);
                proof {
                    assert(runs_view(out@) =~= front + gap + seq![run@]);
                    if tail is Some {
                        assert(runs_view(out@) + tail->0 =~= front + (gap + seq![run@] + tail->0));
                    }
                }
            },
            None => return None,
        }
        cursor = end as u128;
        i += 1;
    }
    assert(spans@.skip(i as int).len() == 0);
    if cursor < total {
        match cut_text(&chars, cursor, total) {
            Some(rest) => {
                let run = Run { text: rest, style: Style::new() };
                proof {
                    lemma_runs_push(out@, run);
                    assert(runs_view(out@).push(run@) =~= runs_view(out@) + seq![run@]);
                }
                out.push(run);
            },
            None => return None,
        }
    } else {
        assert(runs_view(out@) + Seq::<RunView>::empty() =~= runs_view(out@));
    }
    Some(out)
}

/// The language that a highlighter is for.
pub open spec fn language(syntax: Option<&Syntax>) -> Option<Seq<char>> {
    match syntax {
        Some(s) => Some(s@),
        None => None,
    }
}

/// The spans of a line in a language: none without a grammar.
pub open spec fn spans_for(language: Option<Seq<char>>, text: Seq<char>) -> Seq<Span> {
    match language {
        Some(l) => line_spans(highlighted(l, recognized(), text), palette()),
        None => Seq::empty(),
    }
}

/// Build a styled line from `text`, applying syntax highlight spans (byte
/// ranges) where a grammar is available, and leaving gaps in the default style.
/// `None` where a span does not cut the text between characters.
pub fn highlight_line(text: &str, syntax: Option<&Syntax>) -> (r: Option<Vec<Run>>)
    requires
        match syntax {
            Some(s) => s.wf(),
            None => true,
        },
    ensures
        runs_opt(r) == line_runs(text@, spans_for(language(syntax), text@)),
        // Highlighting never changes the text.
        r is Some ==> text_of_runs(runs_view(r->0@)) == text@,
{
    let spans: Vec<Span> = match syntax {
        Some(s) => s.highlight_line(text),
        None => Vec::new(),
    };
    let out = styled_runs(text, &spans);
    proof {
        if out is Some {
            if spans@.len() == 0 {
                lemma_text_of_one(plain_run(text@));
            } else {
                assert(char_from(text@, 0, 0) == Some(0int));
                highlighting_keeps_the_text(text@, spans@, 0);
                assert(text@.skip(0) =~= text@);
            }
        }
    }
    out
}

/// The text of a list of runs.
pub open spec fn text_of_runs(runs: Seq<RunView>) -> Seq<char>
    decreases runs.len(),
{
    if runs.len() == 0 {
        Seq::empty()
    } else {
        runs[0].text + text_of_runs(runs.skip(1))
    }
}

proof fn lemma_char_from(text: Seq<char>, b: int, i: int)
    requires
        0 <= i,
    ensures
        match char_from(text, b, i) {
            Some(j) => i <= j <= text.len() && bytes_before(text, j) == b,
            None => true,
        },
    decreases text.len() - i + 1,
{
    if i <= text.len() && bytes_before(text, i) != b {
        lemma_char_from(text, b, i + 1);
    }
}

proof fn lemma_bytes_grow(text: Seq<char>, i: int, j: int)
    requires
        0 <= i < j <= text.len(),
    ensures
        bytes_before(text, i) < bytes_before(text, j),
    decreases j,
{
    if i < j - 1 {
        lemma_bytes_grow(text, i, j - 1);
    }
}

proof fn lemma_text_of_joined(a: Seq<RunView>, b: Seq<RunView>)
    ensures
        text_of_runs(a + b) == text_of_runs(a) + text_of_runs(b),
    decreases a.len(),
{
    if a.len() == 0 {
        assert(a + b =~= b);
        assert(text_of_runs(a) + text_of_runs(b) =~= text_of_runs(b));
    } else {
        lemma_text_of_joined(a.skip(1), b);
        assert((a + b).skip(1) =~= a.skip(1) + b);
        assert(text_of_runs(a + b) =~= text_of_runs(a) + text_of_runs(b));
    }
}

proof fn lemma_text_of_one(run: RunView)
    ensures
        text_of_runs(seq![run]) == run.text,
{
    reveal_with_fuel(text_of_runs, 2);
    assert(seq![run].skip(1) =~= Seq::empty());
    assert(text_of_runs(seq![run]) =~= run.text);
}

proof fn lemma_text_of_none()
    ensures
        text_of_runs(Seq::<RunView>::empty()) == Seq::<char>::empty(),
{
}

/// Highlighting styles a line and never changes its text: where the spans come
/// in order, the runs put together are the text from the cursor on.
pub proof fn highlighting_keeps_the_text(text: Seq<char>, spans: Seq<Span>, cursor: int)
    requires
        in_order(spans, cursor),
        char_from(text, cursor, 0) is Some,
        runs_from(text, spans, cursor) is Some,
    ensures
        text_of_runs(runs_from(text, spans, cursor)->0) == text.skip(
            char_from(text, cursor, 0)->0,
        ),
    decreases spans.len(),
{
    let total = bytes_before(text, text.len() as int);
    let a = char_from(text, cursor, 0)->0;
    lemma_char_from(text, cursor, 0);
    lemma_char_from(text, total, 0);
    if spans.len() == 0 {
        if cursor < total {
            let b = char_from(text, total, 0)->0;
            if b < text.len() {
                lemma_bytes_grow(text, b, text.len() as int);
            }
            lemma_text_of_one(plain_run(text.subrange(a, b)));
            assert(text.subrange(a, b) =~= text.skip(a));
        } else {
            if a < text.len() {
                lemma_bytes_grow(text, a, text.len() as int);
            }
            lemma_text_of_none();
            assert(text.skip(a) =~= Seq::empty());
        }
    } else {
        let (start, end, style) = spans[0];
        let s = char_from(text, start as int, 0)->0;
        let e = char_from(text, end as int, 0)->0;
        lemma_char_from(text, start as int, 0);
        lemma_char_from(text, end as int, 0);
        highlighting_keeps_the_text(text, spans.skip(1), end as int);
        let rest = runs_from(text, spans.skip(1), end as int)->0;
        let gap = if start > cursor {
            seq![plain_run(text.subrange(a, s))]
        } else {
            Seq::empty()
        };
        let body = RunView { text: text.subrange(s, e), style };
        if start > cursor {
            lemma_text_of_one(plain_run(text.subrange(a, s)));
        } else {
            lemma_text_of_none();
            if a < s {
                lemma_bytes_grow(text, a, s);
            } else if s < a {
                lemma_bytes_grow(text, s, a);
            }
            assert(text_of_runs(gap) =~= text.subrange(a, s));
        }
        lemma_text_of_one(body);
        lemma_text_of_joined(gap, seq![body]);
        lemma_text_of_joined(gap + seq![body], rest);
        assert(text_of_runs(gap + seq![body] + rest) =~= text.skip(a));
    }
}

// ---------------------------------------------------------------------------
// The content of a pane.

/// What of an editor pane's text region is painted where.
#[derive(Debug)]
pub struct ContentPlan {
    /// Where the line numbers go.
    pub gutter: Rect,
    /// Where the text goes.
    pub content: Rect,
    /// The line numbers, from the top.
    pub numbers: Vec<Run>,
    /// The visible lines, from the top. A line is missing where its highlighting
    /// does not cut it between characters.
    pub lines: Vec<Option<Vec<Run>>>,
    /// The row that is tinted as the current line.
    pub current_line: Option<Rect>,
    /// What is painted as selected, over the tint.
    pub selections: Vec<Rect>,
    /// The cells that are reversed for the secondary carets.
    pub carets: Vec<Rect>,
    /// Where the hardware cursor goes.
    pub cursor: Option<(u16, u16)>,
}

/// A text with spaces before it up to a width.
pub open spec fn padded(text: Seq<char>, width: int) -> Seq<char> {
    if text.len() >= width {
        text
    } else {
        Seq::new((width - text.len()) as nat, |i: int| ' ') + text
    }
}

/// The number of a line in the gutter: right-aligned, with a space after it,
/// bright where the cursor is in the focused pane.
pub open spec fn number_run(line: int, width: int, bright: bool, theme: Theme) -> RunView {
    RunView {
        text: padded(decimal((line + 1) as nat), width) + " "@,
        style: Style {
            fg: Some(
                if bright {
                    theme.text
                } else {
                    theme.text_muted
                },
            ),
            ..Style::plain()
        },
    }
}

/// The row of the current line, if it is tinted: in the focused pane, where it
/// is visible, across the whole area.
pub open spec fn tinted_row(
    line: int,
    scroll: int,
    area: Rect,
    content: Rect,
    focused: bool,
) -> Option<Rect> {
    let row = low16(line - scroll);
    if focused && line >= scroll && row < content.height {
        Some(Rect { x: area.x, y: low16(content.y + row), width: area.width, height: 1 })
    } else {
        None
    }
}

/// What a selection covers of one row of the screen. A line whose end is
/// selected is covered one cell past it, so that the selected newline reads as
/// highlighted.
pub open spec fn selected_part(
    t: Seq<char>,
    selection: ((usize, usize), (usize, usize)),
    scroll: (int, int),
    content: Rect,
    row: int,
) -> Option<Rect> {
    let (start, end) = selection;
    let line = scroll.0 + row;
    let start_col = if line == start.0 {
        start.1 as int
    } else {
        0
    };
    let end_col = if line == end.0 {
        end.1 as int
    } else {
        line_content(t, line).len() as int + 1
    };
    let first = if start_col >= scroll.1 {
        start_col
    } else {
        scroll.1
    };
    let shift = low16(first - scroll.1);
    let room = if content.width >= shift {
        content.width - shift
    } else {
        0
    };
    let wanted = low16(end_col - first);
    let width = if wanted <= room {
        wanted as int
    } else {
        room
    };
    if line < start.0 || line > end.0 || end_col <= first || width == 0 {
        None
    } else {
        Some(
            Rect {
                x: low16(content.x + shift),
                y: low16(content.y + row),
                width: width as u16,
                height: 1,
            },
        )
    }
}

/// What a selection covers of the first `rows` rows of the screen.
pub open spec fn selected_rows(
    t: Seq<char>,
    selection: ((usize, usize), (usize, usize)),
    scroll: (int, int),
    content: Rect,
    rows: int,
) -> Seq<Rect>
    decreases rows,
{
    if rows <= 0 {
        Seq::empty()
    } else {
        let above = selected_rows(t, selection, scroll, content, rows - 1);
        match selected_part(t, selection, scroll, content, rows - 1) {
            Some(part) => above.push(part),
            None => above,
        }
    }
}

/// What the selection of a caret covers of the screen.
pub open spec fn caret_selected(
    t: Seq<char>,
    caret: Caret,
    scroll: (int, int),
    content: Rect,
) -> Seq<Rect> {
    match caret.selection() {
        Some(selection) => selected_rows(t, selection, scroll, content, content.height as int),
        None => Seq::empty(),
    }
}

/// What the selections of some carets cover of the screen, caret by caret.
pub open spec fn carets_selected(
    t: Seq<char>,
    carets: Seq<Caret>,
    scroll: (int, int),
    content: Rect,
) -> Seq<Rect>
    decreases carets.len(),
{
    if carets.len() == 0 {
        Seq::empty()
    } else {
        carets_selected(t, carets.drop_last(), scroll, content) + caret_selected(
            t,
            carets.last(),
            scroll,
            content,
        )
    }
}

/// The cell of a caret, if it is on the screen.
pub open spec fn caret_cell(caret: Caret, scroll: (int, int), content: Rect) -> Option<Rect> {
    let row = caret.cursor.line - scroll.0;
    let col = caret.cursor.col - scroll.1;
    if row < 0 || col < 0 || row >= content.height || col >= content.width {
        None
    } else {
        Some(
            Rect { x: low16(content.x + col), y: low16(content.y + row), width: 1, height: 1 },
        )
    }
}

/// The cells of the carets that are on the screen.
pub open spec fn caret_cells(carets: Seq<Caret>, scroll: (int, int), content: Rect) -> Seq<Rect>
    decreases carets.len(),
{
    if carets.len() == 0 {
        Seq::empty()
    } else {
        let before = caret_cells(carets.drop_last(), scroll, content);
        match caret_cell(carets.last(), scroll, content) {
            Some(cell) => before.push(cell),
            None => before,
        }
    }
}

impl EditorPane {
    /// Whether the sums that drawing takes can be held by the machine.
    pub open spec fn can_draw(self, t: Seq<char>) -> bool {
        &&& self.cursor.line + 0x10000 <= usize::MAX
        &&& self.cursor.col + 0x10000 <= usize::MAX
        &&& self.scroll_row + 0x10000 <= usize::MAX
        &&& self.scroll_col + 0x10000 <= usize::MAX
        &&& t.len() < usize::MAX
    }

    /// The pane after it was drawn with its text in `content`: scrolled so that
    /// the cursor is visible.
    pub open spec fn drawn(self, content: Rect, focused: bool) -> EditorPane {
        let row = scrolled(self.scroll_row as int, self.cursor.line as int, content.height as int);
        let col = scrolled(self.scroll_col as int, self.cursor.col as int, content.width as int);
        EditorPane {
            last_height: content.height as usize,
            scroll_row: row as usize,
            scroll_col: col as usize,
            cursor_screen: if focused {
                Some(
                    (
                        low16(content.x + low16(beyond(self.cursor.col as int, col))),
                        low16(content.y + low16(beyond(self.cursor.line as int, row))),
                    ),
                )
            } else {
                None
            },
            ..self
        }
    }

    /// Whether `plan` is what is painted of a pane that was scrolled to where it
    /// is drawn.
    pub open spec fn is_content_plan(
        self,
        t: Seq<char>,
        language: Option<Seq<char>>,
        area: Rect,
        focused: bool,
        theme: Theme,
        plan: ContentPlan,
    ) -> bool {
        let scroll = (self.scroll_row as int, self.scroll_col as int);
        let content = plan.content;
        &&& plan.numbers@.len() == visible_rows(t, scroll.0, content.height as int)
        &&& plan.lines@.len() == plan.numbers@.len()
        &&& forall|i: int|
            0 <= i < plan.numbers@.len() ==> (#[trigger] plan.numbers@[i])@ == number_run(
                scroll.0 + i,
                number_width(line_total(t)) as int,
                scroll.0 + i == self.cursor.line && focused,
                theme,
            )
        &&& forall|i: int|
            0 <= i < plan.lines@.len() ==> ({
                let text = visible_part(line_content(t, scroll.0 + i), scroll.1);
                runs_opt(#[trigger] plan.lines@[i]) == line_runs(text, spans_for(language, text))
            })
        &&& plan.current_line == tinted_row(
            self.cursor.line as int,
            scroll.0,
            area,
            content,
            focused,
        )
        &&& plan.selections@ == caret_selected(t, self.caret(), scroll, content) + carets_selected(
            t,
            self.secondary@,
            scroll,
            content,
        )
        &&& plan.carets@ == caret_cells(self.secondary@, scroll, content)
        &&& plan.cursor == self.cursor_screen
    }

    /// Adds what a selection covers of the screen.
    fn paint_selection(
        &self,
        buffer: &Buffer,
        caret: &Caret,
        content: Rect,
        out: &mut Vec<Rect>,
    )
        requires
            self.scroll_row + 0xffff <= usize::MAX,
            buffer@.text.len() < usize::MAX,
        ensures
            final(out)@ == old(out)@ + caret_selected(
                buffer@.text,
                *caret,
                (self.scroll_row as int, self.scroll_col as int),
                content,
            ),
    {
        let ghost before = out@;
        let ghost t = buffer@.text;
        let ghost scroll = (self.scroll_row as int, self.scroll_col as int);
        let selection = match caret.ordered_selection() {
            Some(s) => s,
            None => {
                assert(before + Seq::<Rect>::empty() =~= before);
                return;
            },
        };
        let (sel_start, sel_end) = selection;
        let height: usize = content.height as usize;
        let mut row: usize = 0;
        assert(before + Seq::<Rect>::empty() =~= before);
        while row < height
            invariant
                row <= height,
                height == content.height,
                self.scroll_row + 0xffff <= usize::MAX,
                t == buffer@.text,
                t.len() < usize::MAX,
                scroll == (self.scroll_row as int, self.scroll_col as int),
                selection == (sel_start, sel_end),
                out@ == before + selected_rows(t, selection, scroll, content, row as int),
            decreases height - row,
        {
            let ghost above = selected_rows(t, selection, scroll, content, row as int);
            let ghost so_far = out@;
            let line_idx: usize = self.scroll_row + row;
            if line_idx >= sel_start.0 && line_idx <= sel_end.0 {
                let start_col: usize = if line_idx == sel_start.0 {
                    sel_start.1
                } else {
                    0
                };
                let end_col: usize = if line_idx == sel_end.0 {
                    sel_end.1
                } else {
                    proof {
                        lemma_content_fits(t, line_idx as int);
                    }
                    buffer.line_len_chars(line_idx) + 1
                };
                let vis_start: usize = if start_col >= self.scroll_col {
                    start_col
                } else {
                    self.scroll_col
                };
                if end_col > vis_start {
                    let shift: u16 = truncate(vis_start - self.scroll_col);
                    let avail: u16 = if content.width >= shift {
                        content.width - shift
                    } else {
                        0
                    };
                    let wanted: u16 = truncate(end_col - vis_start);
                    let w: u16 = if wanted <= avail {
                        wanted
                    } else {
                        avail
                    };
                    if w > 0 {
                        let x: u16 = truncate(content.x as usize + shift as usize);
                        let y: u16 = truncate(content.y as usize + row);
                        out.push(Rect::new(x, y, w, 1));
                    }
                }
            }
            row += 1;
            proof {
                match selected_part(t, selection, scroll, content, row - 1) {
                    Some(part) => {
                        assert(out@ == so_far.push(part));
                        assert(out@ =~= before + above.push(part));
                    },
                    None => {
                        assert(out@ == so_far);
                    },
                }
            }
        }
    }

    /// Lays out the text region in `area`, with the line numbers in `gutter` and
    /// the text in `content`, scrolling so that the cursor is visible.
    pub fn plan_content(
        &mut self,
        area: Rect,
        gutter: Rect,
        content: Rect,
        buffer: &Buffer,
        syntax: Option<&Syntax>,
        focused: bool,
        theme: &Theme,
    ) -> (r: ContentPlan)
        requires
            old(self).can_draw(buffer@.text),
            match syntax {
                Some(s) => s.wf(),
                None => true,
            },
        ensures
            *final(self) == old(self).drawn(content, focused),
            r.gutter == gutter,
            r.content == content,
            final(self).is_content_plan(
                buffer@.text,
                language(syntax),
                area,
                focused,
                *theme,
                r,
            ),
    {
        let num_w: usize = gutter_num_width(buffer.line_count());
        let height: usize = content.height as usize;
        let width: usize = content.width as usize;
        self.last_height = height;
        self.scroll_row = scroll_to_show(self.scroll_row, self.cursor.line, height);
        self.scroll_col = scroll_to_show(self.scroll_col, self.cursor.col, width);
        self.cursor_screen = if focused {
            let cx: u16 = screen_coord(content.x, self.cursor.col, self.scroll_col);
            let cy: u16 = screen_coord(content.y, self.cursor.line, self.scroll_row);
            Some((cx, cy))
        } else {
            None
        };
        let ghost t = buffer@.text;
        let ghost scroll = (self.scroll_row as int, self.scroll_col as int);

        let mut numbers: Vec<Run> = Vec::new();
        let mut lines: Vec<Option<Vec<Run>>> = Vec::new();
        let total: usize = buffer.line_count();
        let mut row: usize = 0;
        while row < height && self.scroll_row < total && row < total - self.scroll_row
            invariant
                row <= height,
                numbers@.len() == row,
                lines@.len() == row,
                t == buffer@.text,
                total == line_total(t),
                num_w == number_width(line_total(t)),
                scroll == (self.scroll_row as int, self.scroll_col as int),
                row <= visible_rows(t, scroll.0, height as int),
                match syntax {
                    Some(s) => s.wf(),
                    None => true,
                },
                forall|i: int|
                    0 <= i < numbers@.len() ==> (#[trigger] numbers@[i])@ == number_run(
                        scroll.0 + i,
                        num_w as int,
                        scroll.0 + i == self.cursor.line && focused,
                        *theme,
                    ),
                forall|i: int|
                    0 <= i < lines@.len() ==> ({
                        let text = visible_part(line_content(t, scroll.0 + i), scroll.1);
                        runs_opt(#[trigger] lines@[i]) == line_runs(
                            text,
                            spans_for(language(syntax), text),
                        )
                    }),
            decreases height - row,
        {
            let line_idx: usize = self.scroll_row + row;
            numbers.push(number_line(line_idx, num_w, line_idx == self.cursor.line && focused, theme));
            let visible = visible_text(buffer, line_idx, self.scroll_col);
            lines.push(highlight_line(visible.as_str(), syntax));
            row += 1;
        }

        // Subtle current-line highlight: patch the background across the whole
        // row (gutter + text) so empty cells are covered too.
        let current_line = if focused && self.cursor.line >= self.scroll_row {
            let shift: u16 = truncate(self.cursor.line - self.scroll_row);
            if shift < content.height {
                let y: u16 = truncate(content.y as usize + shift as usize);
                Some(Rect::new(area.x, y, area.width, 1))
            } else {
                None
            }
        } else {
            None
        };

        // Every caret — primary and secondary — contributes its own selection.
        let mut selections: Vec<Rect> = Vec::new();
        let primary = Caret { cursor: self.cursor, anchor: self.anchor };
        self.paint_selection(buffer, &primary, content, &mut selections);
        assert(Seq::<Rect>::empty() + caret_selected(t, self.caret(), scroll, content)
            =~= caret_selected(t, self.caret(), scroll, content));
        let ghost first = selections@;
        assert(first + Seq::<Rect>::empty() =~= first);

        // Paint each secondary caret as a reversed cell. A terminal has only one
        // hardware cursor (kept on the primary caret), so the extras are drawn
        // in.
        let mut carets: Vec<Rect> = Vec::new();
        let mut k: usize = 0;
        assert(self.secondary@.take(0) =~= Seq::empty());
        while k < self.secondary.len()
            invariant
                k <= self.secondary@.len(),
                height == content.height,
                width == content.width,
                t == buffer@.text,
                t.len() < usize::MAX,
                self.scroll_row + 0xffff <= usize::MAX,
                scroll == (self.scroll_row as int, self.scroll_col as int),
                selections@ == first + carets_selected(
                    t,
                    self.secondary@.take(k as int),
                    scroll,
                    content,
                ),
                carets@ == caret_cells(self.secondary@.take(k as int), scroll, content),
            decreases self.secondary@.len() - k,
        {
            let caret = &self.secondary[k];
            let ghost some = self.secondary@.take(k as int);
            assert(self.secondary@.take(k + 1).drop_last() =~= some);
            assert(self.secondary@.take(k + 1).last() == *caret);
            self.paint_selection(buffer, caret, content, &mut selections);
            assert(selections@ =~= first + (carets_selected(t, some, scroll, content)
                + caret_selected(t, *caret, scroll, content)));
            if caret.cursor.line >= self.scroll_row && caret.cursor.col >= self.scroll_col {
                let down: usize = caret.cursor.line - self.scroll_row;
                let along: usize = caret.cursor.col - self.scroll_col;
                if down < height && along < width {
                    let x: u16 = truncate(content.x as usize + along);
                    let y: u16 = truncate(content.y as usize + down);
                    carets.push(Rect::new(x, y, 1, 1));
                }
            }
            k += 1;
        }
        assert(self.secondary@.take(k as int) =~= self.secondary@);

        ContentPlan {
            gutter,
            content,
            numbers,
            lines,
            current_line,
            selections,
            carets,
            cursor: self.cursor_screen,
        }
    }

    /// Lays out the text region: a left gutter for line numbers, text in the
    /// rest.
    pub fn render_content(
        &mut self,
        area: Rect,
        buffer: &Buffer,
        syntax: Option<&Syntax>,
        focused: bool,
        theme: &Theme,
    ) -> (r: ContentPlan)
        requires
            old(self).can_draw(buffer@.text),
            match syntax {
                Some(s) => s.wf(),
                None => true,
            },
        ensures
            (r.gutter, r.content) == beside_gutter(area, buffer@.text),
            *final(self) == old(self).drawn(r.content, focused),
            final(self).is_content_plan(
                buffer@.text,
                language(syntax),
                area,
                focused,
                *theme,
                r,
            ),
    {
        let num_w: usize = gutter_num_width(buffer.line_count());
        proof {
            lemma_decimal_len(line_total(buffer@.text) as nat);
        }
        let (gutter, content) = split_front(area, Way::Across, truncate(num_w + 1), Size::Min(0));
        self.plan_content(area, gutter, content, buffer, syntax, focused, theme)
    }

    /// The status bar of the pane: the file's name, whether it has unsaved
    /// changes, whether something is selected, the cursor's line and column, and
    /// an app-level note. The focused pane's status bar stands out so it's clear
    /// where input goes.
    pub fn render_status(
        &self,
        buffer: &Buffer,
        focused: bool,
        theme: &Theme,
        note: Option<&str>,
    ) -> (r: Run)
        requires
            self.cursor.line < usize::MAX,
            self.cursor.col < usize::MAX,
        ensures
            r@ == self.status_run(buffer@, focused, *theme, note_text(note)),
    {
        let mut text = " ".to_owned();
        match buffer.path() {
            Some(p) => text.append(display(p).as_str()),
            None => text.append("[No Name]"),
        }
        if buffer.is_dirty() {
            text.append(" [+]");
        }
        if self.has_selection() {
            text.append("  SEL");
        }
        text.append("    Ln ");
        text.append(decimal_string(self.cursor.line as u64 + 1).as_str());
        text.append(", Col ");
        text.append(decimal_string(self.cursor.col as u64 + 1).as_str());
        if let Some(n) = note {
            text.append("    ");
            text.append(n);
        }
        text.append(" ");
        let run = Run { text, style: theme.list_row(focused) };
        assert(run@.text =~= self.status_run(buffer@, focused, *theme, note_text(note)).text);
        run
    }

    /// The status bar of the pane.
    pub open spec fn status_run(
        self,
        b: BufferState,
        focused: bool,
        theme: Theme,
        note: Option<Seq<char>>,
    ) -> RunView {
        let name = match b.path {
            Some(bytes) => shown_path(bytes),
            None => "[No Name]"@,
        };
        let dirty = if b.dirty {
            " [+]"@
        } else {
            Seq::empty()
        };
        let selection = if self.anchor is Some {
            "  SEL"@
        } else {
            Seq::empty()
        };
        let note = match note {
            Some(n) => "    "@ + n,
            None => Seq::empty(),
        };
        RunView {
            text: " "@ + name + dirty + selection + "    Ln "@ + decimal(
                (self.cursor.line + 1) as nat,
            ) + ", Col "@ + decimal((self.cursor.col + 1) as nat) + note + " "@,
            style: theme.row_style(focused),
        }
    }

    /// Lays out this pane in `area`: the buffer's visible region plus a one-row
    /// status bar. Only the focused pane places the hardware cursor. `syntax` is
    /// `Some` when the buffer's language has a grammar. `note` is an app-level
    /// status (LSP progress etc.) appended to the status bar.
    pub fn render(
        &mut self,
        area: Rect,
        buffer: &Buffer,
        syntax: Option<&Syntax>,
        focused: bool,
        theme: &Theme,
        note: Option<&str>,
    ) -> (r: PanePlan)
        requires
            old(self).can_draw(buffer@.text),
            match syntax {
                Some(s) => s.wf(),
                None => true,
            },
        ensures
            (r.content_area, r.status_area) == cut_back(area, Way::Down, 1, 1),
            (r.content.gutter, r.content.content) == beside_gutter(r.content_area, buffer@.text),
            *final(self) == old(self).drawn(r.content.content, focused),
            final(self).is_content_plan(
                buffer@.text,
                language(syntax),
                r.content_area,
                focused,
                *theme,
                r.content,
            ),
            r.status@ == final(self).status_run(buffer@, focused, *theme, note_text(note)),
    {
        let (content_area, status_area) = split_back(area, Way::Down, Size::Min(1), 1);
        let content = self.render_content(content_area, buffer, syntax, focused, theme);
        let status = self.render_status(buffer, focused, theme, note);
        PanePlan { content_area, content, status_area, status }
    }
}

/// The gutter of an area that shows `t`, as wide as its line numbers and a space,
/// and what is left for the text.
pub open spec fn beside_gutter(area: Rect, t: Seq<char>) -> (Rect, Rect) {
    cut_front(area, Way::Across, low16(number_width(line_total(t)) + 1int), 0)
}

/// The text of an optional note.
pub open spec fn note_text(note: Option<&str>) -> Option<Seq<char>> {
    match note {
        Some(n) => Some(n@),
        None => None,
    }
}

/// What of an editor pane is painted where.
#[derive(Debug)]
pub struct PanePlan {
    pub content_area: Rect,
    pub content: ContentPlan,
    pub status_area: Rect,
    pub status: Run,
}

/// A number has no more digits than a tenth of it and two.
proof fn lemma_decimal_len(n: nat)
    ensures
        decimal(n).len() <= n / 10 + 2,
    decreases n,
{
    if n >= 10 {
        lemma_decimal_len(n / 10);
    }
}

/// The content of a line is not longer than the text.
proof fn lemma_content_fits(t: Seq<char>, line: int)
    requires
        0 <= line,
    ensures
        line_content(t, line).len() <= t.len(),
{
    crate::motion::lemma_content_len(t, line);
}

/// The number of a line in the gutter.
fn number_line(line: usize, width: usize, bright: bool, theme: &Theme) -> (r: Run)
    requires
        line < usize::MAX,
    ensures
        r@ == number_run(line as int, width as int, bright, *theme),
{
    let digits = decimal_string(line as u64 + 1);
    let count: usize = digits.as_str().unicode_len();
    let mut text = String::new();
    let mut n: usize = count;
    while n < width
        invariant
            count <= n,
            n <= width || n == count,
            text@ =~= Seq::new((n - count) as nat, |i: int| ' '),
        decreases width - n,
    {
        text.push(' ');
        n += 1;
    }
    assert(text@ + digits@ =~= padded(digits@, width as int));
    text.append(digits.as_str());
    text.append(" ");
    Run {
        text,
        style: Style::new().fg(
            if bright {
                theme.text
            } else {
                theme.text_muted
            },
        ),
    }
}

// ---------------------------------------------------------------------------
// What is seen of a pane.

/// Lines are numbered from one on, right-aligned in the gutter with a space
/// behind; only the number of the cursor's line in the focused pane is bright.
pub proof fn lines_are_numbered(line: int, width: int, bright: bool, theme: Theme)
    requires
        0 <= line,
    ensures
        ({
            let run = number_run(line, width, bright, theme);
            let digits = decimal((line + 1) as nat);
            let n = run.text.len() as int;
            &&& run.text[n - 1] == ' '
            &&& run.text.subrange(n - 1 - digits.len(), n - 1) == digits
            &&& forall|i: int| 0 <= i < n - 1 - digits.len() ==> #[trigger] run.text[i] == ' '
            &&& n == 1 + if digits.len() >= width {
                digits.len() as int
            } else {
                width
            }
            &&& run.style.fg == Some(
                if bright {
                    theme.text
                } else {
                    theme.text_muted
                },
            )
        }),
{
    reveal_strlit(" ");
    let run = number_run(line, width, bright, theme);
    let digits = decimal((line + 1) as nat);
    let n = run.text.len() as int;
    assert(run.text.subrange(n - 1 - digits.len(), n - 1) =~= digits);
}

/// The pane is scrolled so that the cursor is in the viewport, and the hardware
/// cursor is drawn there, as far into the text region as the cursor is from the
/// first line and column that are shown. Only the focused pane has it.
pub proof fn the_cursor_is_drawn_where_it_stands(p: EditorPane, content: Rect)
    requires
        content.width > 0,
        content.height > 0,
        content.wf(),
        p.cursor.line + 0x10000 <= usize::MAX,
        p.cursor.col + 0x10000 <= usize::MAX,
        p.scroll_row + 0x10000 <= usize::MAX,
        p.scroll_col + 0x10000 <= usize::MAX,
    ensures
        ({
            let q = p.drawn(content, true);
            &&& q.scroll_row <= p.cursor.line < q.scroll_row + content.height
            &&& q.scroll_col <= p.cursor.col < q.scroll_col + content.width
            &&& q.cursor_screen matches Some((x, y)) && x == content.x + (p.cursor.col
                - q.scroll_col) && y == content.y + (p.cursor.line - q.scroll_row)
            &&& q.last_height == content.height
            &&& q.cursor == p.cursor && q.anchor == p.anchor && q.secondary == p.secondary
        }),
        p.drawn(content, false).cursor_screen is None,
{
}

/// A selection covers exactly the cells of what is selected: on its first line
/// from its start on, on its last up to its end, and on the others, the selected
/// line breaks with them, all that is shown up to one cell past the end.
pub proof fn selections_cover_what_is_selected(
    t: Seq<char>,
    selection: ((usize, usize), (usize, usize)),
    scroll: (int, int),
    content: Rect,
    row: int,
    col: int,
)
    requires
        content.wf(),
        0 <= row < content.height,
        0 <= scroll.0,
        0 <= scroll.1 <= col < scroll.1 + content.width,
        (selection.0).1 < scroll.1 + 0x10000,
        (selection.1).1 < scroll.1 + 0x10000,
        line_content(t, scroll.0 + row).len() + 1 < scroll.1 + 0x10000,
    ensures
        ({
            let (start, end) = selection;
            let line = scroll.0 + row;
            let part = selected_part(t, selection, scroll, content, row);
            let x = content.x + (col - scroll.1);
            let covered = part matches Some(r) && r.x <= x < r.x + r.width;
            let behind_start = start.0 < line || (start.0 == line && start.1 <= col);
            let before_end = line < end.0 && col <= line_content(t, line).len() || (line == end.0
                && col < end.1);
            &&& covered <==> behind_start && before_end
            &&& part matches Some(r) ==> r.y == content.y + row && r.height == 1
        }),
{
}

/// A caret is drawn in its own cell if that is shown, and not at all if it is
/// not.
pub proof fn carets_are_drawn_in_their_cells(caret: Caret, scroll: (int, int), content: Rect)
    requires
        content.wf(),
        0 <= scroll.0,
        0 <= scroll.1,
    ensures
        ({
            let line = caret.cursor.line as int;
            let col = caret.cursor.col as int;
            let shown = scroll.0 <= line < scroll.0 + content.height && scroll.1 <= col < scroll.1
                + content.width;
            &&& caret_cell(caret, scroll, content) is Some <==> shown
            &&& caret_cell(caret, scroll, content) matches Some(r) ==> r.x == content.x + (col
                - scroll.1) && r.y == content.y + (line - scroll.0) && r.width == 1 && r.height == 1
        }),
{
}

/// The status bar says the name of the file, or that it has none, whether it has
/// unsaved changes, whether something is selected, and the line and the column of
/// the cursor, counted from one.
pub proof fn the_status_bar_tells(
    p: EditorPane,
    b: BufferState,
    focused: bool,
    theme: Theme,
    note: Option<Seq<char>>,
)
    ensures
        ({
            let name = match b.path {
                Some(bytes) => shown_path(bytes),
                None => "[No Name]"@,
            };
            let mark = if b.dirty {
                seq![' ', '[', '+', ']']
            } else {
                Seq::empty()
            };
            let selected = if p.anchor is Some {
                seq![' ', ' ', 'S', 'E', 'L']
            } else {
                Seq::empty()
            };
            let place = seq![' ', ' ', ' ', ' ', 'L', 'n', ' '] + decimal(
                (p.cursor.line + 1) as nat,
            ) + seq![',', ' ', 'C', 'o', 'l', ' '] + decimal((p.cursor.col + 1) as nat);
            let said = match note {
                Some(n) => seq![' ', ' ', ' ', ' '] + n,
                None => Seq::empty(),
            };
            p.status_run(b, focused, theme, note).text == seq![' '] + name + mark + selected + place
                + said + seq![' ']
        }),
        p.status_run(b, focused, theme, note).style.bg == Some(
            if focused {
                theme.focus_bg
            } else {
                theme.inactive_bg
            },
        ),
{
    reveal_strlit(" ");
    reveal_strlit(" [+]");
    reveal_strlit("  SEL");
    reveal_strlit("    Ln ");
    reveal_strlit(", Col ");
    reveal_strlit("    ");
    assert(" "@ =~= seq![' ']);
    assert(" [+]"@ =~= seq![' ', '[', '+', ']']);
    assert("  SEL"@ =~= seq![' ', ' ', 'S', 'E', 'L']);
    assert("    Ln "@ =~= seq![' ', ' ', ' ', ' ', 'L', 'n', ' ']);
    assert(", Col "@ =~= seq![',', ' ', 'C', 'o', 'l', ' ']);
    assert("    "@ =~= seq![' ', ' ', ' ', ' ']);
    let text = p.status_run(b, focused, theme, note).text;
    let name = match b.path {
        Some(bytes) => shown_path(bytes),
        None => "[No Name]"@,
    };
    let mark = if b.dirty {
        seq![' ', '[', '+', ']']
    } else {
        Seq::empty()
    };
    let selected = if p.anchor is Some {
        seq![' ', ' ', 'S', 'E', 'L']
    } else {
        Seq::empty()
    };
    let place = seq![' ', ' ', ' ', ' ', 'L', 'n', ' '] + decimal((p.cursor.line + 1) as nat)
        + seq![',', ' ', 'C', 'o', 'l', ' '] + decimal((p.cursor.col + 1) as nat);
    let said = match note {
        Some(n) => seq![' ', ' ', ' ', ' '] + n,
        None => Seq::empty(),
    };
    assert(text =~= seq![' '] + name + mark + selected + place + said + seq![' ']);
}

/// The row of the cursor's line is tinted in the focused pane, across the whole
/// area, if it is shown, and no row is in any other.
pub proof fn the_current_line_is_tinted(line: int, scroll: int, area: Rect, content: Rect)
    requires
        content.wf(),
        0 <= scroll,
        0 <= line < scroll + 0x10000,
    ensures
        tinted_row(line, scroll, area, content, false) is None,
        tinted_row(line, scroll, area, content, true) is Some <==> scroll <= line < scroll
            + content.height,
        tinted_row(line, scroll, area, content, true) matches Some(r) ==> r.y == content.y + (line
            - scroll) && r.x == area.x && r.width == area.width && r.height == 1,
{
}

/// A line without spans is one run as it is. A span that starts at the cursor is a
/// run of its own, in its style and with the characters between its ends, and
/// what follows is drawn from its end on.
pub proof fn spans_are_drawn_in_their_styles(text: Seq<char>, spans: Seq<Span>, a: int, b: int)
    requires
        spans.len() > 0,
        0 <= a <= b <= text.len(),
        spans[0].0 == bytes_before(text, a),
        spans[0].1 == bytes_before(text, b),
        runs_from(text, spans, spans[0].0 as int) is Some,
    ensures
        ({
            let runs = runs_from(text, spans, spans[0].0 as int)->0;
            let rest = runs_from(text, spans.skip(1), spans[0].1 as int);
            &&& runs.len() > 0
            &&& runs[0].text == text.subrange(a, b)
            &&& runs[0].style == spans[0].2
            &&& rest == Some(runs.skip(1))
        }),
        line_runs(text, Seq::empty()) == Some(
            seq![RunView { text, style: Style::plain() }],
        ),
{
    lemma_char_begins(text, a, 0);
    lemma_char_begins(text, b, 0);
    let runs = runs_from(text, spans, spans[0].0 as int)->0;
    let rest = runs_from(text, spans.skip(1), spans[0].1 as int)->0;
    let body = RunView { text: text.subrange(a, b), style: spans[0].2 };
    assert(runs =~= seq![body] + rest);
    assert(runs.skip(1) =~= rest);
}

proof fn lemma_char_begins(text: Seq<char>, a: int, i: int)
    requires
        0 <= i <= a <= text.len(),
    ensures
        char_from(text, bytes_before(text, a), i) == Some(a),
    decreases a - i,
{
    if i < a {
        lemma_bytes_grow(text, i, a);
        lemma_char_begins(text, a, i + 1);
    }
}

/// Every row that a selection covers is painted, and nothing else is.
pub proof fn selections_are_painted_row_by_row(
    t: Seq<char>,
    selection: ((usize, usize), (usize, usize)),
    scroll: (int, int),
    content: Rect,
    rows: int,
    r: Rect,
)
    requires
        0 <= rows,
    ensures
        selected_rows(t, selection, scroll, content, rows).contains(r) <==> exists|row: int|
            0 <= row < rows && #[trigger] selected_part(t, selection, scroll, content, row) == Some(
                r,
            ),
    decreases rows,
{
    if rows > 0 {
        selections_are_painted_row_by_row(t, selection, scroll, content, rows - 1, r);
        let above = selected_rows(t, selection, scroll, content, rows - 1);
        let all = selected_rows(t, selection, scroll, content, rows);
        let last = selected_part(t, selection, scroll, content, rows - 1);
        if above.contains(r) {
            let k = choose|k: int| 0 <= k < above.len() && above[k] == r;
            assert(all[k] == r);
        }
        if last == Some(r) {
            assert(all[above.len() as int] == r);
        }
        if all.contains(r) && !above.contains(r) {
            let k = choose|k: int| 0 <= k < all.len() && all[k] == r;
            if k < above.len() {
                assert(above[k] == r);
            }
            assert(last == Some(r));
        }
    }
}

/// Every caret whose cell is shown is painted, and so is what each of several has
/// selected; nothing else is.
pub proof fn carets_are_painted_one_by_one(
    t: Seq<char>,
    carets: Seq<Caret>,
    scroll: (int, int),
    content: Rect,
    r: Rect,
)
    ensures
        caret_cells(carets, scroll, content).contains(r) <==> exists|i: int|
            0 <= i < carets.len() && caret_cell(#[trigger] carets[i], scroll, content) == Some(r),
        carets_selected(t, carets, scroll, content).contains(r) <==> exists|i: int|
            0 <= i < carets.len() && caret_selected(
                t,
                #[trigger] carets[i],
                scroll,
                content,
            ).contains(r),
    decreases carets.len(),
{
    if carets.len() > 0 {
        let front = carets.drop_last();
        let c = carets.last();
        let n = carets.len() - 1;
        carets_are_painted_one_by_one(t, front, scroll, content, r);
        assert(carets[n] == c);
        assert forall|i: int| 0 <= i < n implies #[trigger] carets[i] == front[i] by {}
        let cells = caret_cells(front, scroll, content);
        let all = caret_cells(carets, scroll, content);
        if cells.contains(r) {
            let k = choose|k: int| 0 <= k < cells.len() && cells[k] == r;
            assert(all[k] == r);
            let i = choose|i: int|
                0 <= i < front.len() && caret_cell(#[trigger] front[i], scroll, content) == Some(r);
            assert(carets[i] == front[i]);
        }
        if caret_cell(c, scroll, content) == Some(r) {
            assert(all[cells.len() as int] == r);
        }
        if all.contains(r) && !cells.contains(r) {
            let k = choose|k: int| 0 <= k < all.len() && all[k] == r;
            if k < cells.len() {
                assert(cells[k] == r);
            }
            assert(caret_cell(carets[n], scroll, content) == Some(r));
        }
        if exists|i: int|
            0 <= i < carets.len() && caret_cell(#[trigger] carets[i], scroll, content) == Some(r) {
            let i = choose|i: int|
                0 <= i < carets.len() && caret_cell(#[trigger] carets[i], scroll, content) == Some(
                    r,
                );
            if i < n {
                assert(caret_cell(front[i], scroll, content) == Some(r));
            }
        }
        let a = carets_selected(t, front, scroll, content);
        let b = caret_selected(t, c, scroll, content);
        if a.contains(r) {
            let k = choose|k: int| 0 <= k < a.len() && a[k] == r;
            assert((a + b)[k] == r);
            let i = choose|i: int|
                0 <= i < front.len() && caret_selected(
                    t,
                    #[trigger] front[i],
                    scroll,
                    content,
                ).contains(r);
            assert(carets[i] == front[i]);
        }
        if b.contains(r) {
            let k = choose|k: int| 0 <= k < b.len() && b[k] == r;
            assert((a + b)[a.len() + k] == r);
        }
        if (a + b).contains(r) && !a.contains(r) {
            let k = choose|k: int| 0 <= k < (a + b).len() && (a + b)[k] == r;
            if k < a.len() {
                assert(a[k] == r);
            } else {
                assert(b[k - a.len()] == r);
            }
            assert(caret_selected(t, carets[n], scroll, content).contains(r));
        }
        if exists|i: int|
            0 <= i < carets.len() && caret_selected(t, #[trigger] carets[i], scroll, content).contains(
                r,
            ) {
            let i = choose|i: int|
                0 <= i < carets.len() && caret_selected(
                    t,
                    #[trigger] carets[i],
                    scroll,
                    content,
                ).contains(r);
            if i < n {
                assert(caret_selected(t, front[i], scroll, content).contains(r));
            }
        }
    }
}

} // verus!
