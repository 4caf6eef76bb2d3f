//! LSP transport: `Content-Length` framing.
use crate::complete::{ascii_digit, begins_with};
use crate::json::{json_bytes, to_bytes};
use crate::text::{
    chars_of, decimal, decimal_string, is_space, space, trim_back, trim_front, utf8_text,
};
use serde_json::Value;
use vstd::prelude::*;
use vstd::utf8::{decode_utf8, encode_utf8, valid_utf8};

verus! {

/// The header of a frame whose body is `n` bytes long, with the blank line that
/// ends it.
pub open spec fn header_text(n: nat) -> Seq<char> {
    "Content-Length: "@ + decimal(n) + "\r\n\r\n"@
}

/// A body in its frame.
pub open spec fn framed(body: Seq<u8>) -> Seq<u8> {
    encode_utf8(header_text(body.len())) + body
}

/// Wrap a JSON body in an LSP `Content-Length` frame.
pub fn frame(body: &[u8]) -> (r: Vec<u8>)
    ensures
        r@ == framed(body@),
{
    let mut header = "Content-Length: ".to_owned();
    header.append(decimal_string(body.len() as u64).as_str());
    header.append("\r\n\r\n");
    let mut out: Vec<u8> = Vec::new();
    let head = header.as_str().as_bytes();
    out.extend_from_slice(head);
    out.extend_from_slice(body);
    assert(out@ =~= framed(body@));
    out
}

/// An outgoing message in its frame, as it is written to a server's input.
pub fn encode(body: &Value) -> (r: Vec<u8>)
    ensures
        r@ == framed(json_bytes(*body)),
{
    let bytes = to_bytes(body);
    frame(bytes.as_slice())
}

/// Whether `needle` stands in `hay` at position `i`.
pub open spec fn occurs_at(hay: Seq<u8>, needle: Seq<u8>, i: int) -> bool {
    0 <= i && i + needle.len() <= hay.len() && hay.subrange(i, i + needle.len()) == needle
}

/// The first position from `i` on where `needle` stands in `hay`.
pub open spec fn first_from(hay: Seq<u8>, needle: Seq<u8>, i: int) -> Option<int>
    decreases hay.len() - i,
{
    if i < 0 || i + needle.len() > hay.len() {
        None
    } else if occurs_at(hay, needle, i) {
        Some(i)
    } else if i >= hay.len() {
        None
    } else {
        first_from(hay, needle, i + 1)
    }
}

fn find_subslice(haystack: &[u8], needle: &[u8]) -> (r: Option<usize>)
    requires
        needle@.len() > 0,
    ensures
        match r {
            Some(i) => first_from(haystack@, needle@, 0) == Some(i as int) && occurs_at(
                haystack@,
                needle@,
                i as int,
            ),
            None => first_from(haystack@, needle@, 0) is None,
        },
{
    let n: usize = needle.len();
    let len: usize = haystack.len();
    if len < n {
        return None;
    }
    let mut i: usize = 0;
    while i <= len - n
        invariant
            n == needle@.len(),
            len == haystack@.len(),
            0 < n <= len,
            i <= len - n + 1,
            first_from(haystack@, needle@, 0) == first_from(haystack@, needle@, i as int),
        decreases len - i,
    {
        if stands_at(haystack, needle, i) {
            return Some(i);
        }
        i += 1;
    }
    None
}

fn stands_at(hay: &[u8], needle: &[u8], i: usize) -> (r: bool)
    requires
        i + needle@.len() <= hay@.len(),
    ensures
        r == occurs_at(hay@, needle@, i as int),
{
    let len: usize = hay.len();
    let mut k: usize = 0;
    while k < needle.len()
        invariant
            k <= needle@.len(),
            i + needle@.len() <= hay@.len() == len,
            forall|j: int| 0 <= j < k ==> hay@[i + j] == #[trigger] needle@[j],
        decreases needle@.len() - k,
    {
        if hay[i + k] != needle[k] {
            assert(hay@.subrange(i as int, i + needle@.len())[k as int] != needle@[k as int]);
            return false;
        }
        k += 1;
    }
    assert(hay@.subrange(i as int, i + needle@.len()) =~= needle@);
    true
}

// ---------------------------------------------------------------------------
// The header.

/// The number that digits stand for.
pub open spec fn digits_value(s: Seq<char>) -> nat
    decreases s.len(),
{
    if s.len() == 0 {
        0
    } else {
        digits_value(s.drop_last()) * 10 + ((s.last() as int) - ('0' as int)) as nat
    }
}

/// A number as it is written in a header: digits, with a plus sign before them
/// or not, that stand for a number the machine can hold.
pub open spec fn number_of(s: Seq<char>) -> Option<nat> {
    let digits = if s.len() > 0 && s[0] == '+' {
        s.skip(1)
    } else {
        s
    };
    if is_number(digits) {
        Some(digits_value(digits))
    } else {
        None
    }
}

/// What follows the name of a `Content-Length` line.
pub open spec fn length_field(line: Seq<char>) -> Option<Seq<char>> {
    if begins_with(line, "Content-Length:"@) {
        Some(line.skip("Content-Length:"@.len() as int))
    } else if begins_with(line, "content-length:"@) {
        Some(line.skip("content-length:"@.len() as int))
    } else {
        None
    }
}

/// Where the line that starts at `i` ends: at the next CRLF, or at the end.
pub open spec fn line_end(s: Seq<char>, i: int) -> int
    decreases s.len() - i,
{
    if i >= s.len() {
        s.len() as int
    } else if i + 1 < s.len() && s[i] == '\r' && s[i + 1] == '\n' {
        i
    } else {
        line_end(s, i + 1)
    }
}

/// The length that the first `Content-Length` line from `i` on gives, if there
/// is one and its value is a number.
pub open spec fn length_from(s: Seq<char>, i: int) -> Option<nat>
    decreases s.len() - i,
{
    let e = line_end(s, i);
    if i < 0 || i > e || e > s.len() {
        None
    } else {
        match length_field(s.subrange(i, e)) {
            Some(value) => number_of(trim_back(trim_front(value))),
            None => if e < s.len() && e + 2 <= s.len() {
                length_from(s, e + 2)
            } else {
                None
            },
        }
    }
}

/// The length that a header gives: nothing if it is not UTF-8.
pub open spec fn header_length(header: Seq<u8>) -> Option<nat> {
    if valid_utf8(header) {
        length_from(decode_utf8(header), 0)
    } else {
        None
    }
}

proof fn lemma_line_end(s: Seq<char>, i: int)
    requires
        0 <= i <= s.len(),
    ensures
        i <= line_end(s, i) <= s.len(),
        line_end(s, i) < s.len() ==> line_end(s, i) + 2 <= s.len(),
    decreases s.len() - i,
{
    if i >= s.len() {
    } else if i + 1 < s.len() && s[i] == '\r' && s[i + 1] == '\n' {
    } else {
        lemma_line_end(s, i + 1);
    }
}

fn find_line_end(s: &Vec<char>, start: usize) -> (r: usize)
    requires
        start <= s@.len(),
    ensures
        r == line_end(s@, start as int),
        start <= r <= s@.len(),
        r < s@.len() ==> r + 2 <= s@.len(),
{
    proof {
        lemma_line_end(s@, start as int);
    }
    let len: usize = s.len();
    let mut i: usize = start;
    while i < len && !(i < len - 1 && s[i] == '\r' && s[i + 1] == '\n')
        invariant
            start <= i <= len == s@.len(),
            line_end(s@, start as int) == line_end(s@, i as int),
        decreases len - i,
    {
        i += 1;
    }
    i
}

fn has_name(s: &Vec<char>, start: usize, end: usize, name: &str) -> (r: bool)
    requires
        start <= end <= s@.len(),
    ensures
        r == begins_with(s@.subrange(start as int, end as int), name@),
{
    let n = chars_of(name);
    let ghost line = s@.subrange(start as int, end as int);
    if n.len() > end - start {
        return false;
    }
    let mut k: usize = 0;
    while k < n.len()
        invariant
            k <= n@.len() <= end - start,
            n@ == name@,
            start <= end <= s@.len(),
            line == s@.subrange(start as int, end as int),
            forall|j: int| 0 <= j < k ==> line[j] == #[trigger] n@[j],
        decreases n@.len() - k,
    {
        if s[start + k] != n[k] {
            assert(line.take(n@.len() as int)[k as int] != n@[k as int]);
            return false;
        }
        k += 1;
    }
    assert(line.take(n@.len() as int) =~= n@);
    true
}

/// The number written in `s[start..end]`, with white space around it or not.
fn parse_number(s: &Vec<char>, start: usize, end: usize) -> (r: Option<usize>)
    requires
        start <= end <= s@.len(),
    ensures
        match r {
            Some(n) => number_of(
                trim_back(trim_front(s@.subrange(start as int, end as int))),
            ) == Some(n as nat),
            None => number_of(
                trim_back(trim_front(s@.subrange(start as int, end as int))),
            ) is None,
        },
{
    let mut a: usize = start;
    let mut b: usize = end;
    let ghost value = s@.subrange(start as int, end as int);
    while a < b && space(s[a])
        invariant
            start <= a <= b == end <= s@.len(),
            trim_front(value) == trim_front(s@.subrange(a as int, b as int)),
        decreases b - a,
    {
        assert(s@.subrange(a as int, b as int).skip(1) =~= s@.subrange(a + 1, b as int));
        a += 1;
    }
    assert(trim_front(value) == s@.subrange(a as int, b as int)) by {
        if a < b {
            assert(s@.subrange(a as int, b as int)[0] == s@[a as int]);
        }
    }
    let ghost front = s@.subrange(a as int, b as int);
    while a < b && space(s[b - 1])
        invariant
            a <= b <= end <= s@.len(),
            trim_back(front) == trim_back(s@.subrange(a as int, b as int)),
        decreases b - a,
    {
        assert(s@.subrange(a as int, b as int).drop_last() =~= s@.subrange(a as int, b - 1));
        b -= 1;
    }
    let ghost all = s@.subrange(a as int, b as int);
    assert(trim_back(front) == all);
    if a < b && s[a] == '+' {
        a += 1;
        assert(all.skip(1) =~= s@.subrange(a as int, b as int));
    }
    parse_digits(s, a, b)
}

/// Whether `s` is digits, and at least one, that stand for a number the machine
/// can hold.
pub open spec fn is_number(s: Seq<char>) -> bool {
    &&& s.len() > 0
    &&& forall|i: int| 0 <= i < s.len() ==> ascii_digit(#[trigger] s[i])
    &&& digits_value(s) <= usize::MAX
}

fn parse_digits(s: &Vec<char>, start: usize, end: usize) -> (r: Option<usize>)
    requires
        start <= end <= s@.len(),
    ensures
        match r {
            Some(n) => is_number(s@.subrange(start as int, end as int)) && n == digits_value(
                s@.subrange(start as int, end as int),
            ),
            None => !is_number(s@.subrange(start as int, end as int)),
        },
{
    let ghost digits = s@.subrange(start as int, end as int);
    if start == end {
        return None;
    }
    let mut a: usize = start;
    let mut n: usize = 0;
    assert(digits.take(0) =~= Seq::empty());
    while a < end
        invariant
            start <= a <= end <= s@.len(),
            digits == s@.subrange(start as int, end as int),
            forall|i: int| 0 <= i < a - start ==> ascii_digit(#[trigger] digits[i]),
            n == digits_value(digits.take(a - start)),
        decreases end - a,
    {
        let c = s[a];
        assert(digits[a - start] == c);
        if !('0' <= c && c <= '9') {
            assert(!ascii_digit(digits[a - start]));
            return None;
        }
        let d: usize = (c as u32 - 48) as usize;
        proof {
            let t = digits.take(a - start + 1);
            assert(t.drop_last() =~= digits.take(a - start));
            assert(t.last() == c);
            lemma_value_grows(digits, a - start + 1);
        }
        match n.checked_mul(10) {
            None => {
                return None;
            },
            Some(m) => match m.checked_add(d) {
                None => {
                    return None;
                },
                Some(v) => {
                    n = v;
                },
            },
        }
        a += 1;
    }
    assert(digits.take(a - start) =~= digits);
    Some(n)
}

/// More digits stand for no smaller number.
proof fn lemma_value_grows(s: Seq<char>, k: int)
    requires
        0 <= k <= s.len(),
    ensures
        digits_value(s.take(k)) <= digits_value(s),
    decreases s.len() - k,
{
    if k < s.len() {
        lemma_value_grows(s, k + 1);
        assert(s.take(k + 1).drop_last() =~= s.take(k));
    } else {
        assert(s.take(k) =~= s);
    }
}

fn parse_content_length(header: &[u8]) -> (r: Option<usize>)
    ensures
        match r {
            Some(n) => header_length(header@) == Some(n as nat),
            None => header_length(header@) is None,
        },
{
    let mut bytes: Vec<u8> = Vec::new();
    bytes.extend_from_slice(header);
    assert(bytes@ =~= header@);
    let text = match utf8_text(bytes) {
        None => {
            return None;
        },
        Some(t) => t,
    };
    let chars = chars_of(text.as_str());
    let mut i: usize = 0;
    proof {
        reveal_strlit("Content-Length:");
        reveal_strlit("content-length:");
    }
    loop
        invariant
            chars@ == decode_utf8(header@),
            valid_utf8(header@),
            i <= chars@.len(),
            header_length(header@) == length_from(chars@, i as int),
            "Content-Length:"@.len() == 15,
            "content-length:"@.len() == 15,
        decreases chars@.len() - i,
    {
        let e: usize = find_line_end(&chars, i);
        let ghost line = chars@.subrange(i as int, e as int);
        if has_name(&chars, i, e, "Content-Length:") || has_name(&chars, i, e, "content-length:") {
            assert(line.skip(15) =~= chars@.subrange(i + 15, e as int));
            return parse_number(&chars, i + 15, e);
        }
        if e >= chars.len() {
            return None;
        }
        i = e + 2;
    }
}

// ---------------------------------------------------------------------------
// The decoder.

/// The blank line that ends a header.
pub open spec fn gap() -> Seq<u8> {
    seq![13u8, 10u8, 13u8, 10u8]
}

/// The first body that buffered bytes hold whole, and the bytes after it.
pub open spec fn next_frame(buf: Seq<u8>) -> Option<(Seq<u8>, Seq<u8>)> {
    match first_from(buf, gap(), 0) {
        None => None,
        Some(i) => match header_length(buf.take(i)) {
            None => None,
            Some(n) => if buf.len() < i + 4 + n {
                None
            } else {
                Some((buf.subrange(i + 4, i + 4 + n), buf.skip(i + 4 + n)))
            },
        },
    }
}

/// Incrementally reassembles `Content-Length`-framed messages from a byte
/// stream that may split frames at arbitrary boundaries.
#[derive(Debug)]
pub struct FrameDecoder {
    buf: Vec<u8>,
}

impl View for FrameDecoder {
    type V = Seq<u8>;

    closed spec fn view(&self) -> Seq<u8> {
        self.buf@
    }
}

impl FrameDecoder {
    pub fn new() -> (r: Self)
        ensures
            r@ == Seq::<u8>::empty(),
    {
        FrameDecoder { buf: Vec::new() }
    }

    /// Append freshly read bytes.
    pub fn push(&mut self, bytes: &[u8])
        ensures
            final(self)@ == old(self)@ + bytes@,
    {
        self.buf.extend_from_slice(bytes);
        assert(self.buf@ =~= old(self)@ + bytes@);
    }

    /// Pop the next complete JSON body, or `None` if one is not yet buffered.
    pub fn next_body(&mut self) -> (r: Option<Vec<u8>>)
        ensures
            match r {
                Some(body) => next_frame(old(self)@) == Some((body@, final(self)@)),
                None => next_frame(old(self)@) is None && final(self)@ == old(self)@,
            },
    {
        let gap_bytes: [u8; 4] = [13, 10, 13, 10];
        assert(gap_bytes@ =~= gap());
        let header_end: usize = match find_subslice(self.buf.as_slice(), &gap_bytes) {
            None => {
                return None;
            },
            Some(i) => i,
        };
        let header = vstd::slice::slice_subrange(self.buf.as_slice(), 0, header_end);
        assert(header@ =~= self.buf@.take(header_end as int));
        let len: usize = match parse_content_length(header) {
            None => {
                return None;
            },
            Some(n) => n,
        };
        let total: usize = self.buf.len();
        assert(header_end + 4 <= total);
        let body_start: usize = header_end + 4;
        if self.buf.len() - body_start < len {
            return None;  // body not fully arrived yet
        }
        let ghost whole = self.buf@;
        let rest = self.buf.split_off(body_start + len);
        let body = self.buf.split_off(body_start);
        assert(body@ =~= whole.subrange(body_start as int, body_start + len));
        assert(rest@ =~= whole.skip(body_start + len));
        self.buf = rest;
        Some(body)
    }
}

// ---------------------------------------------------------------------------
// Laws.

proof fn lemma_decimal(n: nat)
    ensures
        decimal(n).len() > 0,
        forall|i: int| 0 <= i < decimal(n).len() ==> ascii_digit(#[trigger] decimal(n)[i]),
        digits_value(decimal(n)) == n,
    decreases n,
{
    if n < 10 {
        let s = decimal(n);
        assert(s.drop_last() =~= Seq::empty());
        assert(digits_value(s.drop_last()) == 0);
    } else {
        lemma_decimal(n / 10);
        let rest = decimal(n / 10);
        let s = decimal(n);
        assert(s.drop_last() =~= rest);
        assert forall|i: int| 0 <= i < s.len() implies ascii_digit(#[trigger] s[i]) by {
            if i < rest.len() {
                assert(s[i] == rest[i]);
            }
        }
    }
}

/// The header line of a frame, without the blank line after it.
spec fn header_line(n: nat) -> Seq<char> {
    "Content-Length: "@ + decimal(n)
}

proof fn lemma_line_without_crlf(s: Seq<char>, i: int)
    requires
        0 <= i <= s.len(),
        forall|k: int| 0 <= k < s.len() ==> #[trigger] s[k] != '\r',
    ensures
        line_end(s, i) == s.len(),
    decreases s.len() - i,
{
    if i < s.len() {
        assert(s[i] != '\r');
        lemma_line_without_crlf(s, i + 1);
    }
}

proof fn lemma_header_line(n: nat)
    requires
        n <= usize::MAX,
    ensures
        length_from(header_line(n), 0) == Some(n),
        forall|k: int| 0 <= k < header_line(n).len() ==> (#[trigger] header_line(n)[k]) != '\r',
        vstd::utf8::is_ascii_chars(header_line(n)),
{
    reveal_strlit("Content-Length: ");
    reveal_strlit("Content-Length:");
    lemma_decimal(n);
    let line = header_line(n);
    let d = decimal(n);
    assert forall|k: int| 0 <= k < line.len() implies (#[trigger] line[k]) != '\r' && (
    line[k] as int) < 128 by {
        if k >= 16 {
            assert(line[k] == d[k - 16]);
            assert(ascii_digit(d[k - 16]));
        }
    }
    lemma_line_without_crlf(line, 0);
    assert(line.subrange(0, line.len() as int) =~= line);
    assert(line.take(15) =~= "Content-Length:"@);
    let value = line.skip(15);
    assert(value =~= seq![' '] + d);
    assert(value.skip(1) =~= d);
    assert(is_space(value[0]));
    assert(ascii_digit(d[0]));
    assert(trim_front(d) == d);
    assert(ascii_digit(d[d.len() - 1]));
    assert(trim_back(d) == d);
}

/// The first blank line in a frame, with anything after it, is the end of its
/// header; a part of the frame that ends before the blank line has none.
proof fn lemma_gap_in_frame(n: nat, tail: Seq<u8>, i: int)
    requires
        n <= usize::MAX,
        0 <= i <= header_line(n).len(),
    ensures
        ({
            let head = encode_utf8(header_line(n));
            let h = head.len() as int;
            &&& h == header_line(n).len()
            &&& first_from(head + gap() + tail, gap(), i) == Some(h)
        }),
    decreases header_line(n).len() - i,
{
    lemma_header_line(n);
    let line = header_line(n);
    vstd::utf8::is_ascii_chars_encode_utf8(line);
    let head = encode_utf8(line);
    let h = head.len() as int;
    let buf = head + gap() + tail;
    if i < h {
        assert(line[i] as u8 == head[i]);
        assert(line[i] != '\r');
        assert(buf.subrange(i, i + 4)[0] == head[i]);
        assert((line[i] as int) < 128);
        assert(head[i] != 13u8);
        assert(!occurs_at(buf, gap(), i));
        lemma_gap_in_frame(n, tail, i + 1);
    } else {
        assert(buf.subrange(h, h + 4) =~= gap());
    }
}

proof fn lemma_framed(body: Seq<u8>)
    requires
        body.len() <= usize::MAX,
    ensures
        framed(body) == encode_utf8(header_line(body.len())) + gap() + body,
        encode_utf8(header_line(body.len())).len() == header_line(body.len()).len(),
{
    let n = body.len();
    lemma_header_line(n);
    reveal_strlit("\r\n\r\n");
    let line = header_line(n);
    let end = "\r\n\r\n"@;
    vstd::utf8::is_ascii_chars_encode_utf8(line);
    let whole = header_text(n);
    assert(whole =~= line + end);
    assert(vstd::utf8::is_ascii_chars(end));
    vstd::utf8::is_ascii_chars_concat(whole, line, end);
    vstd::utf8::is_ascii_chars_encode_utf8(whole);
    assert forall|k: int| 0 <= k < whole.len() implies encode_utf8(whole)[k] == (encode_utf8(line)
        + gap())[k] by {
        assert(whole[k] as u8 == encode_utf8(whole)[k]);
        if k < line.len() {
            assert(whole[k] == line[k]);
            assert(line[k] as u8 == encode_utf8(line)[k]);
        } else {
            assert(whole[k] == end[k - line.len()]);
        }
    }
    assert(encode_utf8(whole) =~= encode_utf8(line) + gap());
}

/// A framed body comes out of the decoder as it went in, whatever follows it,
/// and what follows it stays.
pub proof fn frame_round_trip(body: Seq<u8>, rest: Seq<u8>)
    requires
        body.len() <= usize::MAX,
    ensures
        next_frame(framed(body) + rest) == Some((body, rest)),
{
    let n = body.len();
    lemma_framed(body);
    lemma_header_line(n);
    let head = encode_utf8(header_line(n));
    let h = head.len() as int;
    let buf = framed(body) + rest;
    lemma_gap_in_frame(n, body + rest, 0);
    assert(buf =~= head + gap() + (body + rest));
    assert(buf.take(h) =~= head);
    vstd::utf8::encode_utf8_valid_utf8(header_line(n));
    vstd::utf8::encode_utf8_decode_utf8(header_line(n));
    assert(buf.subrange(h + 4, h + 4 + n) =~= body);
    assert(buf.skip(h + 4 + n) =~= rest);
}

/// A part of a frame gives no body before the whole of it has arrived, wherever
/// it was split.
pub proof fn frame_in_parts(body: Seq<u8>, k: int)
    requires
        body.len() <= usize::MAX,
        0 <= k < framed(body).len(),
    ensures
        next_frame(framed(body).take(k)) is None,
        next_frame(framed(body).take(k) + framed(body).skip(k)) == Some((body, Seq::<u8>::empty())),
{
    let n = body.len();
    lemma_framed(body);
    lemma_header_line(n);
    let head = encode_utf8(header_line(n));
    let h = head.len() as int;
    let all = framed(body);
    let part = all.take(k);
    assert(part + all.skip(k) =~= all + Seq::<u8>::empty());
    frame_round_trip(body, Seq::empty());
    if k < h + 4 {
        lemma_no_gap(n, body, k, 0);
    } else {
        let tail = body.take(k - h - 4);
        assert(part =~= head + gap() + tail);
        lemma_gap_in_frame(n, tail, 0);
        assert(part.take(h) =~= head);
        vstd::utf8::encode_utf8_valid_utf8(header_line(n));
        vstd::utf8::encode_utf8_decode_utf8(header_line(n));
    }
}

proof fn lemma_no_gap(n: nat, body: Seq<u8>, k: int, i: int)
    requires
        n <= usize::MAX,
        0 <= i,
        0 <= k < header_line(n).len() + 4,
        k <= (encode_utf8(header_line(n)) + gap() + body).len(),
    ensures
        first_from((encode_utf8(header_line(n)) + gap() + body).take(k), gap(), i) is None,
    decreases k - i,
{
    lemma_header_line(n);
    let line = header_line(n);
    vstd::utf8::is_ascii_chars_encode_utf8(line);
    let head = encode_utf8(line);
    let part = (head + gap() + body).take(k);
    if i + 4 <= k {
        assert(i < head.len());
        assert(line[i] as u8 == head[i]);
        assert(line[i] != '\r');
        assert((line[i] as int) < 128);
        assert(part.subrange(i, i + 4)[0] == head[i]);
        assert(!occurs_at(part, gap(), i));
        lemma_no_gap(n, body, k, i + 1);
    }
}

/// Some bodies, each in its frame, one after the other.
pub open spec fn stream(bodies: Seq<Seq<u8>>) -> Seq<u8>
    decreases bodies.len(),
{
    if bodies.len() == 0 {
        Seq::empty()
    } else {
        stream(bodies.drop_last()) + framed(bodies.last())
    }
}

/// A call of a decoder: some bytes are appended, or the next body is asked for.
pub enum DecoderCall {
    Push(Seq<u8>),
    Next,
}

/// All the bytes that some calls append.
pub open spec fn pushed(calls: Seq<DecoderCall>) -> Seq<u8>
    decreases calls.len(),
{
    if calls.len() == 0 {
        Seq::empty()
    } else {
        match calls.last() {
            DecoderCall::Push(bytes) => pushed(calls.drop_last()) + bytes,
            DecoderCall::Next => pushed(calls.drop_last()),
        }
    }
}

/// What a new decoder holds after some calls, and the bodies that it gave.
pub open spec fn decoded(calls: Seq<DecoderCall>) -> (Seq<u8>, Seq<Seq<u8>>)
    decreases calls.len(),
{
    if calls.len() == 0 {
        (Seq::empty(), Seq::empty())
    } else {
        let (buf, bodies) = decoded(calls.drop_last());
        match calls.last() {
            DecoderCall::Push(bytes) => (buf + bytes, bodies),
            DecoderCall::Next => match next_frame(buf) {
                Some((body, rest)) => (rest, bodies.push(body)),
                None => (buf, bodies),
            },
        }
    }
}

/// However a stream of frames is cut into chunks, and whenever the next body is
/// asked for, the bodies come out in order, each once, and no byte is lost: the
/// decoder holds what was appended after the last frame that came out. A body
/// comes out exactly where its frame has arrived; so once the whole stream has
/// been appended and no body is left to come out, all of them have, and nothing
/// is held.
pub proof fn frames_in_any_chunks(bodies: Seq<Seq<u8>>, calls: Seq<DecoderCall>)
    requires
        forall|i: int| 0 <= i < bodies.len() ==> (#[trigger] bodies[i]).len() <= usize::MAX,
        pushed(calls).is_prefix_of(stream(bodies)),
    ensures
        ({
            let (buf, got) = decoded(calls);
            &&& got.is_prefix_of(bodies)
            &&& stream(got) + buf == pushed(calls)
            &&& next_frame(buf) is Some == (got.len() < bodies.len() && stream(
                bodies.take(got.len() + 1int),
            ).len() <= pushed(calls).len())
            &&& next_frame(buf) matches Some((body, _)) ==> body == bodies[got.len() as int]
            &&& pushed(calls) == stream(bodies) && next_frame(buf) is None ==> got == bodies
                && buf.len() == 0
        }),
    decreases calls.len(),
{
    let (buf, got) = decoded(calls);
    let all = pushed(calls);
    if calls.len() > 0 {
        let before = calls.drop_last();
        let (held, some) = decoded(before);
        assert(pushed(before).is_prefix_of(all));
        assert(pushed(before) =~= stream(bodies).take(pushed(before).len() as int));
        frames_in_any_chunks(bodies, before);
        match calls.last() {
            DecoderCall::Push(bytes) => {
                assert(stream(some) + (held + bytes) =~= stream(some) + held + bytes);
            },
            DecoderCall::Next => {
                lemma_next_in_stream(bodies, some.len() as int, held, pushed(before));
            },
        }
    }
    assert(got.is_prefix_of(bodies));
    lemma_next_in_stream(bodies, got.len() as int, buf, all);
    if got.len() == bodies.len() {
        assert(bodies.take(got.len() as int) =~= bodies);
        assert(got =~= bodies);
    } else {
        lemma_stream_prefix(bodies, got.len() + 1int);
    }
}

/// The frames of the first `k` bodies begin the stream of all.
proof fn lemma_stream_prefix(bodies: Seq<Seq<u8>>, k: int)
    requires
        0 <= k <= bodies.len(),
    ensures
        stream(bodies.take(k)).is_prefix_of(stream(bodies)),
        k < bodies.len() ==> stream(bodies.take(k + 1)) == stream(bodies.take(k)) + framed(
            bodies[k],
        ),
    decreases bodies.len() - k,
{
    if k < bodies.len() {
        lemma_stream_prefix(bodies, k + 1);
        let longer = bodies.take(k + 1);
        assert(longer.drop_last() =~= bodies.take(k));
        let a = stream(bodies.take(k));
        let b = stream(longer);
        assert(b.take(a.len() as int) =~= a);
        assert(stream(bodies).take(a.len() as int) =~= b.take(a.len() as int)) by {
            assert(stream(bodies).take(b.len() as int) == b);
        }
    } else {
        assert(bodies.take(k) =~= bodies);
        assert(stream(bodies).take(stream(bodies).len() as int) =~= stream(bodies));
    }
}

/// What comes out of a decoder that gave the first `k` bodies and holds `buf`.
proof fn lemma_next_in_stream(bodies: Seq<Seq<u8>>, k: int, buf: Seq<u8>, all: Seq<u8>)
    requires
        forall|i: int| 0 <= i < bodies.len() ==> (#[trigger] bodies[i]).len() <= usize::MAX,
        0 <= k <= bodies.len(),
        all.is_prefix_of(stream(bodies)),
        stream(bodies.take(k)) + buf == all,
    ensures
        k == bodies.len() ==> buf.len() == 0 && next_frame(buf) is None,
        k < bodies.len() ==> if stream(bodies.take(k + 1)).len() <= all.len() {
            next_frame(buf) matches Some((body, rest)) && body == bodies[k] && stream(
                bodies.take(k + 1),
            ) + rest == all
        } else {
            next_frame(buf) is None
        },
{
    let whole = stream(bodies);
    let a = stream(bodies.take(k));
    assert(whole.take(all.len() as int) == all);
    if k == bodies.len() {
        assert(bodies.take(k) =~= bodies);
        assert(buf =~= framed(Seq::<u8>::empty()).take(0));
        frame_of_nothing();
    } else {
        lemma_stream_prefix(bodies, k + 1);
        lemma_stream_prefix(bodies, k);
        let f = framed(bodies[k]);
        let b = stream(bodies.take(k + 1));
        assert(whole.take(b.len() as int) == b);
        assert(bodies[k].len() <= usize::MAX);
        if b.len() <= all.len() {
            let rest = buf.skip(f.len() as int);
            assert(buf.take(f.len() as int) =~= f) by {
                assert forall|i: int| 0 <= i < f.len() implies buf[i] == f[i] by {
                    assert(all[a.len() + i] == buf[i]);
                    assert(whole.take(all.len() as int)[a.len() + i] == whole[a.len() + i]);
                    assert(whole.take(b.len() as int)[a.len() + i] == whole[a.len() + i]);
                    assert(b[a.len() + i] == f[i]);
                }
            }
            assert(buf =~= f + rest);
            frame_round_trip(bodies[k], rest);
            assert(b + rest =~= all);
        } else {
            let m = buf.len() as int;
            assert(buf =~= f.take(m)) by {
                assert forall|i: int| 0 <= i < m implies buf[i] == f[i] by {
                    assert(all[a.len() + i] == buf[i]);
                    assert(whole.take(all.len() as int)[a.len() + i] == whole[a.len() + i]);
                    assert(whole.take(b.len() as int)[a.len() + i] == whole[a.len() + i]);
                    assert(b[a.len() + i] == f[i]);
                }
            }
            frame_in_parts(bodies[k], m);
        }
    }
}

/// Nothing holds no frame.
proof fn frame_of_nothing()
    ensures
        next_frame(Seq::<u8>::empty()) is None,
        framed(Seq::<u8>::empty()).take(0) == Seq::<u8>::empty(),
{
    lemma_framed(Seq::empty());
    frame_in_parts(Seq::empty(), 0);
    assert(framed(Seq::<u8>::empty()).take(0) =~= Seq::<u8>::empty());
}

/// A frame is a header line that says how many bytes the body has, a blank line
/// and the body.
pub proof fn frames_say_their_length(body: Seq<u8>)
    ensures
        framed(body) == encode_utf8(
            seq![
                'C',
                'o',
                'n',
                't',
                'e',
                'n',
                't',
                '-',
                'L',
                'e',
                'n',
                'g',
                't',
                'h',
                ':',
                ' ',
            ] + decimal(body.len()) + seq!['\r', '\n', '\r', '\n'],
        ) + body,
{
    reveal_strlit("Content-Length: ");
    reveal_strlit("\r\n\r\n");
    assert("Content-Length: "@ =~= seq![
        'C',
        'o',
        'n',
        't',
        'e',
        'n',
        't',
        '-',
        'L',
        'e',
        'n',
        'g',
        't',
        'h',
        ':',
        ' ',
    ]);
    assert("\r\n\r\n"@ =~= seq!['\r', '\n', '\r', '\n']);
}

proof fn lemma_line_end_behind(p: Seq<char>, s: Seq<char>, i: int)
    requires
        0 <= i,
    ensures
        i <= s.len() ==> line_end(p + s, p.len() + i) == p.len() + line_end(s, i),
    decreases s.len() - i,
{
    let all = p + s;
    if i < s.len() {
        assert(all[p.len() + i] == s[i]);
        if i + 1 < s.len() {
            assert(all[p.len() + i + 1] == s[i + 1]);
        }
        lemma_line_end_behind(p, s, i + 1);
    }
}

/// What stands before a line makes no difference to the length that is read from
/// there on.
proof fn lemma_length_behind(p: Seq<char>, s: Seq<char>, i: int)
    requires
        0 <= i <= s.len(),
    ensures
        length_from(p + s, p.len() + i) == length_from(s, i),
    decreases s.len() - i,
{
    lemma_line_end_behind(p, s, i);
    lemma_line_end(s, i);
    let e = line_end(s, i);
    assert((p + s).subrange(p.len() + i, p.len() + e) =~= s.subrange(i, e));
    if length_field(s.subrange(i, e)) is None && e < s.len() {
        lemma_length_behind(p, s, e + 2);
    }
}

proof fn lemma_line_ends_here(a: Seq<char>, more: Seq<char>, i: int)
    requires
        forall|k: int| 0 <= k < a.len() ==> #[trigger] a[k] != '\r',
        0 <= i <= a.len(),
    ensures
        line_end(a + seq!['\r', '\n'] + more, i) == a.len(),
    decreases a.len() - i,
{
    let all = a + seq!['\r', '\n'] + more;
    if i < a.len() {
        assert(all[i] == a[i]);
        lemma_line_ends_here(a, more, i + 1);
    } else {
        assert(all[i] == '\r' && all[i + 1] == '\n');
    }
}

/// A header line that does not give the length is passed over, wherever it
/// stands.
pub proof fn other_header_lines_are_passed_over(line: Seq<char>, more: Seq<char>)
    requires
        forall|k: int| 0 <= k < line.len() ==> #[trigger] line[k] != '\r',
        line.len() == 0 || (line[0] != 'C' && line[0] != 'c') || line.len() < 9 || line[7] != '-'
            || (line[8] != 'L' && line[8] != 'l'),
    ensures
        length_from(line + seq!['\r', '\n'] + more, 0) == length_from(more, 0),
{
    reveal_strlit("Content-Length:");
    reveal_strlit("content-length:");
    let all = line + seq!['\r', '\n'] + more;
    lemma_line_ends_here(line, more, 0);
    assert(all.subrange(0, line.len() as int) =~= line);
    if begins_with(line, "Content-Length:"@) {
        assert(line.take(15)[0] == line[0] && line.take(15)[7] == line[7] && line.take(15)[8]
            == line[8]);
    }
    if begins_with(line, "content-length:"@) {
        assert(line.take(15)[0] == line[0] && line.take(15)[7] == line[7] && line.take(15)[8]
            == line[8]);
    }
    let front = line + seq!['\r', '\n'];
    assert(all =~= front + more);
    lemma_length_behind(front, more, 0);
}

proof fn lemma_trim_blanks(pad: Seq<char>, d: Seq<char>)
    requires
        forall|k: int| 0 <= k < pad.len() ==> #[trigger] pad[k] == ' ',
        d.len() > 0,
        !is_space(d[0]),
        !is_space(d.last()),
    ensures
        trim_back(trim_front(pad + d)) == d,
    decreases pad.len(),
{
    let s = pad + d;
    if pad.len() == 0 {
        assert(s =~= d);
    } else {
        assert(s[0] == pad[0]);
        assert(s.skip(1) =~= pad.skip(1) + d);
        assert forall|k: int| 0 <= k < pad.skip(1).len() implies #[trigger] pad.skip(1)[k]
            == ' ' by {
            assert(pad[k + 1] == ' ');
        }
        lemma_trim_blanks(pad.skip(1), d);
    }
}

/// The length is read from the first line that gives it, with its name in either
/// of two spellings and any number of blanks before the digits, and whatever
/// lines follow.
pub proof fn lengths_are_read_back(n: nat, pad: Seq<char>, small: bool, more: Seq<char>)
    requires
        n <= usize::MAX,
        forall|k: int| 0 <= k < pad.len() ==> #[trigger] pad[k] == ' ',
    ensures
        ({
            let name = if small {
                "content-length:"@
            } else {
                "Content-Length:"@
            };
            let line = name + pad + decimal(n);
            &&& length_from(line, 0) == Some(n)
            &&& length_from(line + seq!['\r', '\n'] + more, 0) == Some(n)
        }),
{
    reveal_strlit("Content-Length:");
    reveal_strlit("content-length:");
    let name = if small {
        "content-length:"@
    } else {
        "Content-Length:"@
    };
    lemma_decimal(n);
    let d = decimal(n);
    let line = name + pad + d;
    assert forall|k: int| 0 <= k < line.len() implies #[trigger] line[k] != '\r' by {
        if k >= 15 + pad.len() {
            assert(line[k] == d[k - 15 - pad.len()]);
            assert(ascii_digit(d[k - 15 - pad.len()]));
        } else if k >= 15 {
            assert(line[k] == pad[k - 15]);
        } else {
            assert(line[k] == name[k]);
        }
    }
    lemma_line_without_crlf(line, 0);
    lemma_line_ends_here(line, more, 0);
    assert(line.subrange(0, line.len() as int) =~= line);
    assert((line + seq!['\r', '\n'] + more).subrange(0, line.len() as int) =~= line);
    assert(line.take(15) =~= name);
    if small {
        assert(line.take(15)[0] == 'c');
        assert("Content-Length:"@[0] == 'C');
    }
    assert(line.skip(15) =~= pad + d);
    assert(ascii_digit(d[0]));
    assert(ascii_digit(d[d.len() - 1]));
    lemma_trim_blanks(pad, d);
}

/// A length is a row of digits that the machine can hold, with a plus sign before
/// it or not; with any other character it is none.
pub proof fn lengths_are_digits(n: nat, s: Seq<char>, k: int)
    requires
        n <= usize::MAX,
        0 <= k < s.len(),
        !('0' <= s[k] <= '9'),
        k > 0 || s[k] != '+',
    ensures
        number_of(decimal(n)) == Some(n),
        number_of(seq!['+'] + decimal(n)) == Some(n),
        number_of(s) is None,
        number_of(Seq::empty()) is None,
{
    lemma_decimal(n);
    let d = decimal(n);
    assert(ascii_digit(d[0]));
    assert((seq!['+'] + d).skip(1) =~= d);
    assert(!ascii_digit(s[k]));
    if s[0] == '+' {
        assert(s.skip(1)[k - 1] == s[k]);
    }
}

} // verus!
