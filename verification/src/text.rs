//! Characters and strings: the small string operations that the rest of the
//! crate is written with, each with its meaning over `Seq<char>`.
use vstd::prelude::*;
use vstd::utf8::{decode_utf8, valid_utf8};

verus! {

/// `String::push` appends one character at the end.
pub assume_specification[ String::push ](s: &mut String, c: char)
    ensures
        final(s)@ == old(s)@.push(c),
;

/// `String::pop` removes the last character and returns it, or returns `None`
/// on an empty string.
pub assume_specification[ String::pop ](s: &mut String) -> (r: Option<char>)
    ensures
        match r {
            Some(c) => old(s)@.len() > 0 && c == old(s)@.last() && final(s)@ == old(s)@.drop_last(),
            None => old(s)@.len() == 0 && final(s)@ == old(s)@,
        },
;

/// `String::from_utf8`: the text that the bytes encode, if they are UTF-8.
#[verifier::external_body]
pub(crate) fn utf8_text(bytes: Vec<u8>) -> (r: Option<String>)
    ensures
        match r {
            Some(text) => valid_utf8(bytes@) && text@ == decode_utf8(bytes@),
            None => !valid_utf8(bytes@),
        },
{
    String::from_utf8(bytes).ok()
}

/// The texts of a list of strings.
pub open spec fn texts(v: Seq<String>) -> Seq<Seq<char>> {
    v.map_values(|s: String| s@)
}

/// How many bytes a character takes in UTF-8.
pub open spec fn byte_width(c: char) -> nat {
    if (c as int) < 0x80 {
        1
    } else if (c as int) < 0x800 {
        2
    } else if (c as int) < 0x10000 {
        3
    } else {
        4
    }
}

/// How many bytes a character takes in UTF-8.
pub fn width_in_bytes(c: char) -> (r: usize)
    ensures
        r == byte_width(c),
{
    let n: u32 = c as u32;
    if n < 0x80 {
        1
    } else if n < 0x800 {
        2
    } else if n < 0x10000 {
        3
    } else {
        4
    }
}

/// The characters of `s`, in order.
pub fn chars_of(s: &str) -> (r: Vec<char>)
    ensures
        r@ == s@,
{
    let mut out: Vec<char> = Vec::new();
    for c in it: s.chars()
        invariant
            out@ == s@.take(it.index() as int),
            it.seq() == s@,
    {
        out.push(c);
    }
    proof {
        assert(s@.take(s@.len() as int) =~= s@);
    }
    out
}

/// The string made of `chars[start..end]`.
pub fn string_of(chars: &Vec<char>, start: usize, end: usize) -> (r: String)
    requires
        start <= end <= chars@.len(),
    ensures
        r@ == chars@.subrange(start as int, end as int),
{
    let mut out = String::new();
    let mut i: usize = start;
    while i < end
        invariant
            start <= i <= end <= chars@.len(),
            out@ == chars@.subrange(start as int, i as int),
        decreases end - i,
    {
        out.push(chars[i]);
        i += 1;
        assert(out@ =~= chars@.subrange(start as int, i as int));
    }
    out
}

/// Whether two strings hold the same characters.
pub fn same_text(a: &str, b: &str) -> (r: bool)
    ensures
        r == (a@ == b@),
{
    let x = chars_of(a);
    let y = chars_of(b);
    same_chars(&x, &y)
}

/// Whether two character vectors are equal.
pub fn same_chars(x: &Vec<char>, y: &Vec<char>) -> (r: bool)
    ensures
        r == (x@ == y@),
{
    if x.len() != y.len() {
        return false;
    }
    let mut i: usize = 0;
    while i < x.len()
        invariant
            i <= x@.len() == y@.len(),
            forall|j: int| 0 <= j < i ==> x@[j] == y@[j],
        decreases x@.len() - i,
    {
        if x[i] != y[i] {
            return false;
        }
        i += 1;
    }
    assert(x@ =~= y@);
    true
}

/// `s` without the line-feed and carriage-return characters at its end.
pub open spec fn trim_line_end(s: Seq<char>) -> Seq<char>
    decreases s.len(),
{
    if s.len() > 0 && (s.last() == '\n' || s.last() == '\r') {
        trim_line_end(s.drop_last())
    } else {
        s
    }
}

pub proof fn lemma_trim_line_end_prefix(s: Seq<char>)
    ensures
        trim_line_end(s).len() <= s.len(),
        trim_line_end(s) == s.take(trim_line_end(s).len() as int),
        forall|i: int| trim_line_end(s).len() <= i < s.len() ==> s[i] == '\n' || s[i] == '\r',
    decreases s.len(),
{
    if s.len() > 0 && (s.last() == '\n' || s.last() == '\r') {
        lemma_trim_line_end_prefix(s.drop_last());
        let n = trim_line_end(s).len() as int;
        assert(s.drop_last().take(n) =~= s.take(n));
        assert forall|i: int| n <= i < s.len() implies s[i] == '\n' || s[i] == '\r' by {
            if i < s.len() - 1 {
                assert(s.drop_last()[i] == s[i]);
            }
        }
    } else {
        assert(s.take(s.len() as int) =~= s);
    }
}

/// Drops the line-feed and carriage-return characters at the end of `s`.
pub fn trim_newlines(s: String) -> (r: String)
    ensures
        r@ == trim_line_end(s@),
{
    let mut out = s;
    let ghost whole = out@;
    loop
        invariant
            trim_line_end(out@) == trim_line_end(whole),
        ensures
            out@ == trim_line_end(whole),
        decreases out@.len(),
    {
        let ghost before = out@;
        match out.pop() {
            None => {
                break;
            },
            Some(c) => {
                if c != '\n' && c != '\r' {
                    out.push(c);
                    assert(out@ =~= before);
                    break;
                }
            },
        }
    }
    out
}

/// The characters that `str::trim` takes off: those with the Unicode property
/// `White_Space`.
pub open spec fn is_space(c: char) -> bool {
    let n = c as int;
    ||| 0x9 <= n <= 0xd
    ||| n == 0x20 || n == 0x85 || n == 0xa0 || n == 0x1680
    ||| 0x2000 <= n <= 0x200a
    ||| n == 0x2028 || n == 0x2029 || n == 0x202f || n == 0x205f || n == 0x3000
}

/// Whether `c` is white space.
pub fn space(c: char) -> (r: bool)
    ensures
        r == is_space(c),
{
    let n: u32 = c as u32;
    (0x9 <= n && n <= 0xd) || n == 0x20 || n == 0x85 || n == 0xa0 || n == 0x1680 || (0x2000 <= n
        && n <= 0x200a) || n == 0x2028 || n == 0x2029 || n == 0x202f || n == 0x205f || n == 0x3000
}

/// A text without the white space at its front.
pub open spec fn trim_front(s: Seq<char>) -> Seq<char>
    decreases s.len(),
{
    if s.len() > 0 && is_space(s[0]) {
        trim_front(s.skip(1))
    } else {
        s
    }
}

/// A text without the white space at its end.
pub open spec fn trim_back(s: Seq<char>) -> Seq<char>
    decreases s.len(),
{
    if s.len() > 0 && is_space(s.last()) {
        trim_back(s.drop_last())
    } else {
        s
    }
}

/// A text without the white space around it.
pub fn trim(s: &str) -> (r: String)
    ensures
        r@ == trim_back(trim_front(s@)),
{
    let chars = chars_of(s);
    let mut a: usize = 0;
    let mut b: usize = chars.len();
    assert(chars@.subrange(0, b as int) =~= s@);
    while a < b && space(chars[a])
        invariant
            a <= b == chars@.len(),
            trim_front(s@) == trim_front(chars@.subrange(a as int, b as int)),
        decreases b - a,
    {
        assert(chars@.subrange(a as int, b as int).skip(1) =~= chars@.subrange(a + 1, b as int));
        a += 1;
    }
    let ghost front = chars@.subrange(a as int, b as int);
    assert(trim_front(s@) == front);
    while a < b && space(chars[b - 1])
        invariant
            a <= b <= chars@.len(),
            trim_back(front) == trim_back(chars@.subrange(a as int, b as int)),
        decreases b - a,
    {
        assert(chars@.subrange(a as int, b as int).drop_last() =~= chars@.subrange(
            a as int,
            b - 1,
        ));
        b -= 1;
    }
    string_of(&chars, a, b)
}

/// Writes a number in decimal.
pub open spec fn decimal(n: nat) -> Seq<char>
    decreases n,
{
    if n < 10 {
        seq![digit_char(n)]
    } else {
        decimal(n / 10).push(digit_char(n % 10))
    }
}

/// The decimal digit `d` as a character.
pub open spec fn digit_char(d: nat) -> char {
    (('0' as int) + d) as char
}

fn digit(d: u64) -> (c: char)
    requires
        d < 10,
    ensures
        c == digit_char(d as nat),
{
    (48u8 + d as u8) as char
}

/// `n` in decimal.
pub fn decimal_string(n: u64) -> (r: String)
    ensures
        r@ == decimal(n as nat),
    decreases n,
{
    if n < 10 {
        let mut out = String::new();
        out.push(digit(n));
        assert(out@ =~= decimal(n as nat));
        out
    } else {
        let mut out = decimal_string(n / 10);
        out.push(digit(n % 10));
        out
    }
}

// ---------------------------------------------------------------------------
// Laws.

/// A line loses its line feeds and carriage returns at the end and nothing else:
/// what is left is the front of it, what went is all breaks, and what is left
/// ends in none.
pub proof fn lines_lose_only_their_break(s: Seq<char>)
    ensures
        trim_line_end(s).len() <= s.len(),
        trim_line_end(s) == s.take(trim_line_end(s).len() as int),
        forall|i: int| trim_line_end(s).len() <= i < s.len() ==> s[i] == '\n' || s[i] == '\r',
        trim_line_end(s).len() > 0 ==> trim_line_end(s).last() != '\n' && trim_line_end(s).last()
            != '\r',
    decreases s.len(),
{
    lemma_trim_line_end_prefix(s);
    if s.len() > 0 && (s.last() == '\n' || s.last() == '\r') {
        lines_lose_only_their_break(s.drop_last());
    }
}

/// Of the ASCII characters the space, the tab, the line feed, the carriage
/// return, the vertical tab and the form feed are white space, and no other.
pub proof fn ascii_white_space(c: char)
    requires
        (c as int) < 128,
    ensures
        is_space(c) <==> c == ' ' || c == '\t' || c == '\n' || c == '\r' || c == '\u{b}' || c
            == '\u{c}',
{
}

proof fn lemma_trim_front(s: Seq<char>)
    ensures
        trim_front(s).len() <= s.len(),
        trim_front(s) == s.skip(s.len() - trim_front(s).len()),
        forall|i: int| 0 <= i < s.len() - trim_front(s).len() ==> is_space(#[trigger] s[i]),
        trim_front(s).len() > 0 ==> !is_space(trim_front(s)[0]),
    decreases s.len(),
{
    if s.len() > 0 && is_space(s[0]) {
        let d = s.skip(1);
        lemma_trim_front(d);
        let n = trim_front(s).len() as int;
        assert(d.skip(d.len() - n) =~= s.skip(s.len() - n));
        assert forall|i: int| 0 <= i < s.len() - n implies is_space(#[trigger] s[i]) by {
            if i > 0 {
                assert(d[i - 1] == s[i]);
            }
        }
    } else {
        assert(s.skip(0) =~= s);
    }
}

proof fn lemma_trim_back(s: Seq<char>)
    ensures
        trim_back(s).len() <= s.len(),
        trim_back(s) == s.take(trim_back(s).len() as int),
        forall|i: int| trim_back(s).len() <= i < s.len() ==> is_space(#[trigger] s[i]),
        trim_back(s).len() > 0 ==> !is_space(trim_back(s).last()),
    decreases s.len(),
{
    if s.len() > 0 && is_space(s.last()) {
        let d = s.drop_last();
        lemma_trim_back(d);
        let n = trim_back(s).len() as int;
        assert(d.take(n) =~= s.take(n));
        assert forall|i: int| n <= i < s.len() implies is_space(#[trigger] s[i]) by {
            if i < d.len() {
                assert(d[i] == s[i]);
            }
        }
    } else {
        assert(s.take(s.len() as int) =~= s);
    }
}

/// Trimming keeps one piece of the text, from the first character that is no
/// white space to the last one: what it takes off at both ends is white space,
/// and the piece neither begins nor ends with any.
pub proof fn trimming_takes_white_space_only(s: Seq<char>)
    ensures
        exists|a: int|
            #![trigger s.take(a)]
            {
                let kept = trim_back(trim_front(s));
                &&& 0 <= a <= a + kept.len() <= s.len()
                &&& kept == s.subrange(a, a + kept.len())
                &&& forall|i: int|
                    0 <= i < a || a + kept.len() <= i < s.len() ==> is_space(#[trigger] s[i])
                &&& kept.len() > 0 ==> !is_space(kept[0]) && !is_space(kept.last())
            },
{
    lemma_trim_front(s);
    let f = trim_front(s);
    lemma_trim_back(f);
    let kept = trim_back(f);
    let a = s.len() - f.len();
    assert(s.take(a).len() == a);
    assert(kept =~= s.subrange(a, a + kept.len()));
    assert forall|i: int| 0 <= i < a || a + kept.len() <= i < s.len() implies is_space(
        #[trigger] s[i],
    ) by {
        if i >= a {
            assert(f[i - a] == s[i]);
        }
    }
    if kept.len() > 0 {
        assert(kept[0] == f[0]);
    }
}

/// The number that a row of decimal digits stands for.
pub open spec fn value_of(digits: Seq<char>) -> int
    decreases digits.len(),
{
    if digits.len() == 0 {
        0
    } else {
        10 * value_of(digits.drop_last()) + (digits.last() as int - '0' as int)
    }
}

/// A number in decimal is a row of digits that stands for that number, and has
/// no zero in front unless it is zero.
pub proof fn decimals_are_read_back(n: nat)
    ensures
        value_of(decimal(n)) == n,
        decimal(n).len() > 0,
        forall|i: int| 0 <= i < decimal(n).len() ==> '0' <= #[trigger] decimal(n)[i] <= '9',
        decimal(n)[0] == '0' <==> n == 0,
    decreases n,
{
    if n < 10 {
        assert(decimal(n).drop_last() =~= Seq::empty());
        assert(value_of(decimal(n).drop_last()) == 0);
    } else {
        decimals_are_read_back(n / 10);
        let front = decimal(n / 10);
        assert(decimal(n).drop_last() =~= front);
        assert(decimal(n)[0] == front[0]);
        assert forall|i: int| 0 <= i < decimal(n).len() implies '0' <= #[trigger] decimal(n)[i]
            <= '9' by {
            if i < front.len() {
                assert(decimal(n)[i] == front[i]);
            }
        }
    }
}

/// The width of a character in bytes is how many bytes it is encoded in.
pub proof fn widths_are_those_of_utf8(c: char)
    ensures
        byte_width(c) == vstd::utf8::encode_utf8(seq![c]).len(),
{
    let rest = seq![c].drop_first();
    assert(rest =~= Seq::empty());
    assert(vstd::utf8::encode_utf8(rest).len() == 0);
}

} // verus!
