//! The rope that holds a buffer's text, with its line structure.
//!
//! The text itself lives in a [`ropey::Rope`]. What the rope holds is named by
//! [`rope_text`], and every operation is described by what it does to that
//! sequence of characters.
use ropey::Rope;
use vstd::prelude::*;

verus! {

/// `ropey::Rope`, seen from outside as the text that [`rope_text`] names.
#[verifier::external_type_specification]
#[verifier::external_body]
pub struct ExRope(Rope);

/// The characters that a rope holds, in order.
pub uninterp spec fn rope_text(rope: Rope) -> Seq<char>;

/// The characters that end a line: line feed, vertical tab, form feed,
/// carriage return, next line, line separator and paragraph separator.
pub open spec fn is_break(c: char) -> bool {
    c == '\n' || c == '\u{b}' || c == '\u{c}' || c == '\r' || c == '\u{85}' || c == '\u{2028}' || c
        == '\u{2029}'
}

/// Whether a carriage return and a line feed, which are one break, stand at
/// position `i`.
pub open spec fn crlf_at(s: Seq<char>, i: int) -> bool {
    0 <= i && i + 1 < s.len() && s[i] == '\r' && s[i + 1] == '\n'
}

/// Whether a line ends just before position `i`. A carriage return directly
/// followed by a line feed ends no line by itself: the pair is one break.
pub open spec fn ends_line(s: Seq<char>, i: int) -> bool {
    &&& 1 <= i <= s.len()
    &&& is_break(s[i - 1])
    &&& !(s[i - 1] == '\r' && i < s.len() && s[i] == '\n')
}

/// How many lines end at or before position `i`: the number of the line that
/// position `i` is on.
pub open spec fn breaks_before(s: Seq<char>, i: int) -> nat
    decreases i,
{
    if i <= 0 {
        0
    } else {
        breaks_before(s, i - 1) + if ends_line(s, i) {
            1nat
        } else {
            0nat
        }
    }
}

/// The number of lines: what follows the last break is a line too.
pub open spec fn line_total(s: Seq<char>) -> nat {
    breaks_before(s, s.len() as int) + 1
}

/// The first position at or after `i` that is on line `n` or a later one.
pub open spec fn seek_line(s: Seq<char>, n: int, i: int) -> int
    decreases s.len() - i,
{
    if i >= s.len() || breaks_before(s, i) >= n {
        i
    } else {
        seek_line(s, n, i + 1)
    }
}

/// The position of the first character of line `n`; the length of the text
/// when there is no such line.
pub open spec fn line_start(s: Seq<char>, n: int) -> int {
    seek_line(s, n, 0)
}

/// Line `n` with the break that ends it.
pub open spec fn line_with_break(s: Seq<char>, n: int) -> Seq<char> {
    s.subrange(line_start(s, n), line_start(s, n + 1))
}

/// The number of UTF-16 code units that `s` takes.
pub open spec fn utf16_len(s: Seq<char>) -> nat
    decreases s.len(),
{
    if s.len() == 0 {
        0
    } else {
        utf16_len(s.drop_last()) + if s.last() as int >= 0x10000 {
            2nat
        } else {
            1nat
        }
    }
}

/// `Rope::new`: an empty rope.
pub assume_specification[ Rope::new ]() -> (r: Rope)
    ensures
        rope_text(r) == Seq::<char>::empty(),
;

/// `Rope::from_str`: a rope that holds the characters of `text`.
pub assume_specification[ Rope::from_str ](text: &str) -> (r: Rope)
    ensures
        rope_text(r) == text@,
;

/// `Rope::len_chars`: the number of characters.
pub assume_specification[ Rope::len_chars ](rope: &Rope) -> (n: usize)
    ensures
        n == rope_text(*rope).len(),
;

/// `Rope::len_lines`: the number of line breaks and one more.
pub assume_specification[ Rope::len_lines ](rope: &Rope) -> (n: usize)
    ensures
        n == line_total(rope_text(*rope)),
;

/// `Rope::line_to_char`: where a line starts. One past the last line gives the
/// length of the text; any larger number panics.
pub assume_specification[ Rope::line_to_char ](rope: &Rope, line_idx: usize) -> (i: usize)
    requires
        line_idx <= line_total(rope_text(*rope)),
    ensures
        i == line_start(rope_text(*rope), line_idx as int),
;

/// `Rope::char_to_line`: the number of the line that a position is on. A
/// position past the end panics.
pub assume_specification[ Rope::char_to_line ](rope: &Rope, char_idx: usize) -> (n: usize)
    requires
        char_idx <= rope_text(*rope).len(),
    ensures
        n == breaks_before(rope_text(*rope), char_idx as int),
;

/// `Rope::insert`: puts `text` before the character at `char_idx`. A position
/// past the end panics; the length must stay a `usize`.
pub assume_specification[ Rope::insert ](rope: &mut Rope, char_idx: usize, text: &str)
    requires
        char_idx <= rope_text(*old(rope)).len(),
        rope_text(*old(rope)).len() + text@.len() <= usize::MAX,
    ensures
        rope_text(*final(rope)) == rope_text(*old(rope)).take(char_idx as int) + text@ + rope_text(
            *old(rope),
        ).skip(char_idx as int),
;

/// `Rope::remove` on a range: the characters `start..end` leave. A range that
/// is reversed or reaches past the end panics.
#[verifier::external_body]
pub(crate) fn rope_remove(rope: &mut Rope, start: usize, end: usize)
    requires
        start <= end <= rope_text(*old(rope)).len(),
    ensures
        rope_text(*final(rope)) == rope_text(*old(rope)).take(start as int) + rope_text(
            *old(rope),
        ).skip(end as int),
{
    rope.remove(start..end);
}

/// `Rope::slice` on a range, and the slice as a string: the characters
/// `start..end`. A range that is reversed or reaches past the end panics.
#[verifier::external_body]
pub(crate) fn rope_slice(rope: &Rope, start: usize, end: usize) -> (r: String)
    requires
        start <= end <= rope_text(*rope).len(),
    ensures
        r@ == rope_text(*rope).subrange(start as int, end as int),
{
    rope.slice(start..end).to_string()
}

/// `Rope::line`, as a string: one line with the break that ends it. A line
/// that does not exist panics.
#[verifier::external_body]
pub(crate) fn rope_line(rope: &Rope, line: usize) -> (r: String)
    requires
        line < line_total(rope_text(*rope)),
    ensures
        r@ == line_with_break(rope_text(*rope), line as int),
{
    rope.line(line).to_string()
}

/// `Rope`'s `Display`: the whole text as a string.
#[verifier::external_body]
pub(crate) fn rope_string(rope: &Rope) -> (r: String)
    ensures
        r@ == rope_text(*rope),
{
    rope.to_string()
}

/// `RopeSlice::char_to_utf16_cu` on a line: the UTF-16 length of its first
/// `chars` characters. A position past the line's end panics.
#[verifier::external_body]
pub(crate) fn rope_line_utf16(rope: &Rope, line: usize, chars: usize) -> (r: usize)
    requires
        line < line_total(rope_text(*rope)),
        chars <= line_with_break(rope_text(*rope), line as int).len(),
    ensures
        r == utf16_len(line_with_break(rope_text(*rope), line as int).take(chars as int)),
{
    rope.line(line).char_to_utf16_cu(chars)
}

/// `RopeSlice::utf16_cu_to_char` on a line: the character that a UTF-16 code
/// unit belongs to, or the number of characters for the position at the end.
/// A code unit past the line's end panics.
#[verifier::external_body]
pub(crate) fn rope_line_from_utf16(rope: &Rope, line: usize, units: usize) -> (r: usize)
    requires
        line < line_total(rope_text(*rope)),
        units <= utf16_len(line_with_break(rope_text(*rope), line as int)),
    ensures
        r <= line_with_break(rope_text(*rope), line as int).len(),
        utf16_len(line_with_break(rope_text(*rope), line as int).take(r as int)) <= units,
        r < line_with_break(rope_text(*rope), line as int).len() ==> units < utf16_len(
            line_with_break(rope_text(*rope), line as int).take(r + 1),
        ),
{
    rope.line(line).utf16_cu_to_char(units)
}

// ---------------------------------------------------------------------------
// The line structure.

pub proof fn lemma_breaks_monotone(s: Seq<char>, i: int, j: int)
    requires
        0 <= i <= j,
    ensures
        breaks_before(s, i) <= breaks_before(s, j),
        breaks_before(s, j) <= breaks_before(s, i) + (j - i),
    decreases j,
{
    if i < j {
        lemma_breaks_monotone(s, i, j - 1);
    }
}

pub proof fn lemma_seek_line(s: Seq<char>, n: int, i: int)
    requires
        0 <= i <= s.len(),
    ensures
        i <= seek_line(s, n, i) <= s.len(),
        forall|j: int| i <= j < seek_line(s, n, i) ==> breaks_before(s, j) < n,
        seek_line(s, n, i) < s.len() ==> breaks_before(s, seek_line(s, n, i)) >= n,
    decreases s.len() - i,
{
    if i >= s.len() || breaks_before(s, i) >= n {
    } else {
        lemma_seek_line(s, n, i + 1);
        let k = seek_line(s, n, i);
        assert forall|j: int| i <= j < k implies breaks_before(s, j) < n by {
            if j > i {
            }
        }
    }
}

/// Line `n` starts inside the text, exactly `n` lines end before it, and every
/// earlier position is on an earlier line.
pub proof fn lemma_line_start(s: Seq<char>, n: int)
    requires
        0 <= n < line_total(s),
    ensures
        0 <= line_start(s, n) <= s.len(),
        breaks_before(s, line_start(s, n)) == n,
        forall|j: int| 0 <= j < line_start(s, n) ==> breaks_before(s, j) < n,
        n > 0 ==> ends_line(s, line_start(s, n)),
        n == 0 ==> line_start(s, n) == 0,
{
    lemma_seek_line(s, n, 0);
    let k = line_start(s, n);
    if k == s.len() {
        assert(breaks_before(s, k) >= n);
    }
    if k > 0 {
        assert(breaks_before(s, k - 1) < n);
    }
}

/// One past the last line starts at the end of the text.
pub proof fn lemma_line_start_past(s: Seq<char>, n: int)
    requires
        n >= line_total(s),
    ensures
        line_start(s, n) == s.len(),
{
    lemma_seek_line(s, n, 0);
    let k = line_start(s, n);
    if k < s.len() {
        lemma_breaks_monotone(s, k, s.len() as int);
    }
}

/// The lines lie one after the other: each starts where the one before it
/// ends, and every line but the last holds at least its break.
pub proof fn lemma_line_bounds(s: Seq<char>, n: int)
    requires
        0 <= n < line_total(s),
    ensures
        0 <= line_start(s, n) <= line_start(s, n + 1) <= s.len(),
        n + 1 < line_total(s) ==> line_start(s, n) < line_start(s, n + 1) && ends_line(
            s,
            line_start(s, n + 1),
        ),
        n + 1 == line_total(s) ==> line_start(s, n + 1) == s.len(),
{
    lemma_line_start(s, n);
    if n + 1 < line_total(s) {
        lemma_line_start(s, n + 1);
    } else {
        lemma_line_start_past(s, n + 1);
    }
}

/// The positions of line `n` are those from its start up to the start of the
/// next line (up to and with the end of the text for the last line).
pub proof fn lemma_position_on_line(s: Seq<char>, n: int, i: int)
    requires
        0 <= n < line_total(s),
        0 <= i <= s.len(),
    ensures
        breaks_before(s, i) == n <==> line_start(s, n) <= i && (i < line_start(s, n + 1) || (n + 1
            == line_total(s) && i == s.len())),
{
    lemma_line_start(s, n);
    lemma_line_bounds(s, n);
    let a = line_start(s, n);
    let b = line_start(s, n + 1);
    if i >= a {
        lemma_breaks_monotone(s, a, i);
    }
    if n + 1 < line_total(s) {
        lemma_line_start(s, n + 1);
        if i >= b {
            lemma_breaks_monotone(s, b, i);
        }
    } else {
        lemma_breaks_monotone(s, i, s.len() as int);
    }
}

/// The position at which the line of `i` starts is at or before `i`.
pub proof fn lemma_own_line(s: Seq<char>, i: int)
    requires
        0 <= i <= s.len(),
    ensures
        0 <= breaks_before(s, i) < line_total(s),
        0 <= line_start(s, breaks_before(s, i) as int) <= i <= line_start(
            s,
            breaks_before(s, i) as int + 1,
        ),
{
    lemma_breaks_monotone(s, i, s.len() as int);
    let n = breaks_before(s, i) as int;
    lemma_position_on_line(s, n, i);
    lemma_line_bounds(s, n);
}

pub proof fn lemma_utf16_len_monotone(s: Seq<char>, i: int, j: int)
    requires
        0 <= i <= j <= s.len(),
    ensures
        utf16_len(s.take(i)) <= utf16_len(s.take(j)),
        i <= utf16_len(s.take(i)),
        i < j ==> utf16_len(s.take(i)) < utf16_len(s.take(j)),
    decreases j,
{
    if i < j {
        assert(s.take(j).drop_last() =~= s.take(j - 1));
        lemma_utf16_len_monotone(s, i, j - 1);
    } else if i > 0 {
        assert(s.take(i).drop_last() =~= s.take(i - 1));
        lemma_utf16_len_monotone(s, i - 1, i - 1);
    }
}

} // verus!
