//! JSON-RPC message shapes, `file://` URIs, and the char⇄UTF-16 position
//! conversion at the LSP boundary.
use crate::buffer::{chars_before_unit, clamp_line, line_content, utf16_column, Buffer};
use crate::json::{json_of, no_members, null, number, object, put, string, Json};
use crate::paths::{bytes_of, path_bytes};
use serde_json::Value;
use std::path::PathBuf;
use vstd::prelude::*;

verus! {

/// A JSON-RPC request id. LSP permits a number or a string; we always *issue*
/// numbers, but must accept either when correlating a response.
#[derive(Clone, PartialEq, Eq, Hash, Debug)]
pub enum RequestId {
    Num(i64),
    Str(String),
}

/// A request id, as a value of the specifications.
pub enum Id {
    Num(int),
    Str(Seq<char>),
}

impl View for RequestId {
    type V = Id;

    open spec fn view(&self) -> Id {
        match self {
            RequestId::Num(n) => Id::Num(*n as int),
            RequestId::Str(s) => Id::Str(s@),
        }
    }
}

impl Id {
    /// The id as JSON.
    pub open spec fn json(self) -> Json {
        match self {
            Id::Num(n) => Json::Int(n),
            Id::Str(s) => Json::Str(s),
        }
    }
}

impl From<i64> for RequestId {
    fn from(n: i64) -> (r: Self) {
        RequestId::Num(n)
    }
}

impl vstd::std_specs::convert::FromSpecImpl<i64> for RequestId {
    open spec fn obeys_from_spec() -> bool {
        true
    }

    open spec fn from_spec(n: i64) -> RequestId {
        RequestId::Num(n)
    }
}

impl RequestId {
    /// Whether two ids are the same.
    pub fn same(&self, other: &RequestId) -> (r: bool)
        ensures
            r == (self@ == other@),
    {
        match (self, other) {
            (RequestId::Num(a), RequestId::Num(b)) => *a == *b,
            (RequestId::Str(a), RequestId::Str(b)) => *a == *b,
            _ => false,
        }
    }

    /// The same id once more.
    pub fn copy(&self) -> (r: RequestId)
        ensures
            r@ == self@,
    {
        match self {
            RequestId::Num(n) => RequestId::Num(*n),
            RequestId::Str(s) => RequestId::Str(s.clone()),
        }
    }

    fn value(&self) -> (r: Value)
        ensures
            json_of(r) == self@.json(),
    {
        match self {
            RequestId::Num(n) => number(*n),
            RequestId::Str(s) => string(s.as_str()),
        }
    }
}

/// A monotonic source of request ids, one per server.
#[derive(Debug)]
pub struct IdSource(pub i64);

impl Default for IdSource {
    fn default() -> (r: Self)
        ensures
            r.0 == 0,
    {
        IdSource(0)
    }
}

impl IdSource {
    /// The next id: one more than the last.
    pub fn next(&mut self) -> (r: RequestId)
        requires
            old(self).0 < i64::MAX,
        ensures
            final(self).0 == old(self).0 + 1,
            r == RequestId::Num(final(self).0),
    {
        self.0 += 1;
        RequestId::Num(self.0)
    }
}

/// An incoming message from the server, classified from the raw JSON-RPC.
#[derive(Debug)]
pub enum Message {
    /// A response to a request we issued (`result` xor `error`).
    Response { id: RequestId, result: Option<Value>, error: Option<Value> },
    /// A server-initiated notification (no id).
    Notification { method: String, params: Value },
    /// A server-initiated request (expects a response).
    Request { id: RequestId, method: String, params: Value },
}

/// The members of an incoming JSON-RPC message, of which any may be absent.
#[derive(Debug)]
pub struct Raw {
    pub id: Option<RequestId>,
    pub method: Option<String>,
    pub params: Option<Value>,
    pub result: Option<Value>,
    pub error: Option<Value>,
}

/// The parameters of a message: `null` where there are none.
pub open spec fn params_of(params: Option<Value>) -> Json {
    match params {
        Some(v) => json_of(v),
        None => Json::Null,
    }
}

impl Message {
    /// Classify the members of a decoded JSON body into a [`Message`], or `None`
    /// if it is not a well-formed JSON-RPC message: one with a method and an id
    /// is a request, one with a method alone a notification, one with an id
    /// alone a response.
    pub fn from_json(raw: Raw) -> (r: Option<Message>)
        ensures
            match (raw.method, raw.id, r) {
                (Some(m), Some(i), Some(Message::Request { id, method, params })) => id == i
                    && method == m && json_of(params) == params_of(raw.params),
                (Some(m), None, Some(Message::Notification { method, params })) => method == m
                    && json_of(params) == params_of(raw.params),
                (None, Some(i), Some(Message::Response { id, result, error })) => id == i && result
                    == raw.result && error == raw.error,
                (None, None, None) => true,
                _ => false,
            },
    {
        match (raw.method, raw.id) {
            (Some(method), Some(id)) => Some(
                Message::Request { id, method, params: or_null(raw.params) },
            ),
            (Some(method), None) => Some(
                Message::Notification { method, params: or_null(raw.params) },
            ),
            (None, Some(id)) => Some(
                Message::Response { id, result: raw.result, error: raw.error },
            ),
            (None, None) => None,
        }
    }
}

fn or_null(params: Option<Value>) -> (r: Value)
    ensures
        json_of(r) == params_of(params),
{
    match params {
        Some(v) => v,
        None => null(),
    }
}

/// A request as JSON.
pub open spec fn request_json(id: Id, method: Seq<char>, params: Json) -> Json {
    Json::Object(
        Map::empty().insert("jsonrpc"@, Json::Str("2.0"@)).insert("id"@, id.json()).insert(
            "method"@,
            Json::Str(method),
        ).insert("params"@, params),
    )
}

/// A notification as JSON.
pub open spec fn notification_json(method: Seq<char>, params: Json) -> Json {
    Json::Object(
        Map::empty().insert("jsonrpc"@, Json::Str("2.0"@)).insert(
            "method"@,
            Json::Str(method),
        ).insert("params"@, params),
    )
}

/// A response as JSON.
pub open spec fn response_json(id: Id, result: Json) -> Json {
    Json::Object(
        Map::empty().insert("jsonrpc"@, Json::Str("2.0"@)).insert("id"@, id.json()).insert(
            "result"@,
            result,
        ),
    )
}

/// Serialize an outgoing request body (`jsonrpc`/`id`/`method`/`params`).
pub fn request_body(id: &RequestId, method: &str, params: Value) -> (r: Value)
    ensures
        json_of(r) == request_json(id@, method@, json_of(params)),
{
    let mut members = no_members();
    put(&mut members, "jsonrpc", string("2.0"));
    put(&mut members, "id", id.value());
    put(&mut members, "method", string(method));
    put(&mut members, "params", params);
    object(members)
}

/// Serialize an outgoing notification body (no id).
pub fn notification_body(method: &str, params: Value) -> (r: Value)
    ensures
        json_of(r) == notification_json(method@, json_of(params)),
{
    let mut members = no_members();
    put(&mut members, "jsonrpc", string("2.0"));
    put(&mut members, "method", string(method));
    put(&mut members, "params", params);
    object(members)
}

/// Serialize the answer to a request of the server.
pub fn response_body(id: &RequestId, result: Value) -> (r: Value)
    ensures
        json_of(r) == response_json(id@, json_of(result)),
{
    let mut members = no_members();
    put(&mut members, "jsonrpc", string("2.0"));
    put(&mut members, "id", id.value());
    put(&mut members, "result", result);
    object(members)
}

// ---------------------------------------------------------------------------
// Positions.

/// A position in a document: a line, and a column in UTF-16 code units.
#[derive(Debug, Clone, Copy, PartialEq, Eq, Structural)]
pub struct Position {
    pub line: u32,
    pub character: u32,
}

/// The lower thirty-two bits of a number.
pub open spec fn low32(n: int) -> u32 {
    (n % 0x1_0000_0000) as u32
}

fn truncate32(n: usize) -> (r: u32)
    ensures
        r == low32(n as int),
{
    (n as u64 % 0x1_0000_0000) as u32
}

/// Convert a `(line, char-col)` into an LSP position (UTF-16 column).
pub fn to_lsp_position(buffer: &Buffer, line: usize, col: usize) -> (r: Position)
    ensures
        r.line == low32(line as int),
        r.character == low32(utf16_column(buffer@.text, line as int, col as int) as int),
{
    Position { line: truncate32(line), character: truncate32(buffer.utf16_col(line, col)) }
}

/// Convert an LSP position (UTF-16 column) into a `(line, char-col)`.
pub fn from_lsp_position(buffer: &Buffer, pos: Position) -> (r: (usize, usize))
    ensures
        r.0 == pos.line,
        r.1 == chars_before_unit(
            line_content(buffer@.text, clamp_line(buffer@.text, pos.line as int)),
            pos.character as int,
        ),
{
    let line: usize = pos.line as usize;
    (line, buffer.char_col_from_utf16(line, pos.character as usize))
}

/// A position in the buffer turned into an LSP position and back is the same,
/// its column clamped to the content of its line, as far as both numbers fit
/// into thirty-two bits.
pub proof fn position_round_trip(text: Seq<char>, line: int, col: int)
    requires
        0 <= line < 0x1_0000_0000,
        0 <= col,
        utf16_column(text, line, col) < 0x1_0000_0000,
    ensures
        ({
            let p = Position {
                line: low32(line),
                character: low32(utf16_column(text, line, col) as int),
            };
            let content = line_content(text, clamp_line(text, line));
            &&& p.line == line
            &&& chars_before_unit(content, p.character as int) == if col < content.len() {
                col
            } else {
                content.len() as int
            }
        }),
{
    crate::buffer::utf16_round_trip(text, line, col);
}

// ---------------------------------------------------------------------------
// URIs.

/// Whether a byte stands for itself in the path of a URI: a letter, a digit,
/// one of `-._~`, or the slash between segments.
pub open spec fn is_plain(b: u8) -> bool {
    ||| 0x61 <= b <= 0x7a
    ||| 0x41 <= b <= 0x5a
    ||| 0x30 <= b <= 0x39
    ||| b == 0x2d || b == 0x2e || b == 0x5f || b == 0x7e || b == 0x2f
}

/// The hexadecimal digit of a number below sixteen.
pub open spec fn hex_digit(n: int) -> char {
    if n < 10 {
        (0x30 + n) as char
    } else {
        (0x37 + n) as char
    }
}

/// A byte in the path of a URI: itself, or a percent sign and its two
/// hexadecimal digits.
pub open spec fn escaped(b: u8) -> Seq<char> {
    if is_plain(b) {
        seq![b as char]
    } else {
        seq!['%', hex_digit(b as int / 16), hex_digit(b as int % 16)]
    }
}

/// The bytes in the path of a URI.
pub open spec fn escape(bytes: Seq<u8>) -> Seq<char>
    decreases bytes.len(),
{
    if bytes.len() == 0 {
        Seq::empty()
    } else {
        escape(bytes.drop_last()) + escaped(bytes.last())
    }
}

/// The `file://` URI of a path.
pub open spec fn uri_of(bytes: Seq<u8>) -> Seq<char> {
    "file://"@ + escape(bytes)
}

fn hex(n: u8) -> (r: char)
    requires
        n < 16,
    ensures
        r == hex_digit(n as int),
{
    if n < 10 {
        (0x30 + n) as char
    } else {
        (0x37 + n) as char
    }
}

/// A `file://` URI for a local path — the canonical, percent-encoded encoding.
pub fn path_to_uri(path: &PathBuf) -> (r: String)
    ensures
        r@ == uri_of(path_bytes(*path)),
{
    let bytes = bytes_of(path);
    let mut out = "file://".to_owned();
    let ghost head = out@;
    let mut i: usize = 0;
    assert(bytes@.take(0) =~= Seq::empty());
    assert(out@ =~= head + escape(bytes@.take(0)));
    while i < bytes.len()
        invariant
            i <= bytes@.len(),
            out@ == head + escape(bytes@.take(i as int)),
        decreases bytes@.len() - i,
    {
        let b: u8 = bytes[i];
        let ghost before = out@;
        assert(bytes@.take(i + 1).drop_last() =~= bytes@.take(i as int));
        if (0x61 <= b && b <= 0x7a) || (0x41 <= b && b <= 0x5a) || (0x30 <= b && b <= 0x39) || b
            == 0x2d || b == 0x2e || b == 0x5f || b == 0x7e || b == 0x2f {
            out.push(b as char);
        } else {
            out.push('%');
            out.push(hex(b / 16));
            out.push(hex(b % 16));
        }
        assert(out@ =~= before + escaped(b));
        assert(before + escaped(b) =~= head + escape(bytes@.take(i + 1)));
        i += 1;
    }
    assert(bytes@.take(i as int) =~= bytes@);
    out
}

proof fn lemma_escaped_differ(a: u8, b: u8)
    requires
        escaped(a) == escaped(b),
    ensures
        a == b,
{
    let x = escaped(a);
    let y = escaped(b);
    if is_plain(a) && is_plain(b) {
        assert(x[0] == a as char);
        assert(y[0] == b as char);
    } else if is_plain(a) {
        assert(x.len() == 1);
    } else if is_plain(b) {
        assert(y.len() == 1);
    } else {
        assert(x[1] == y[1]);
        assert(x[2] == y[2]);
    }
}

/// Different paths have different URIs, so that the URI a document is synced
/// under is that of no other document.
pub proof fn uris_differ(a: Seq<u8>, b: Seq<u8>)
    requires
        uri_of(a) == uri_of(b),
    ensures
        a == b,
{
    let head = "file://"@;
    assert(uri_of(a).skip(head.len() as int) =~= escape(a));
    assert(uri_of(b).skip(head.len() as int) =~= escape(b));
    lemma_escape_differ(a, b);
}

proof fn lemma_escape_last(a: Seq<u8>)
    requires
        a.len() > 0,
    ensures
        ({
            let s = escape(a);
            let n = s.len() as int;
            &&& n > 0
            &&& is_plain(a.last()) ==> s == escape(a.drop_last()).push(a.last() as char)
            &&& !is_plain(a.last()) ==> n >= 3 && s[n - 3] == '%' && s.take(n - 3) == escape(
                a.drop_last(),
            )
            &&& is_plain(a.last()) ==> s.take(n - 1) == escape(a.drop_last())
        }),
{
    let s = escape(a);
    let e = escaped(a.last());
    let rest = escape(a.drop_last());
    if is_plain(a.last()) {
        assert(s =~= rest.push(a.last() as char));
        assert(s.take(s.len() - 1) =~= rest);
    } else {
        assert(s.take(s.len() - 3) =~= rest);
        assert(s[s.len() - 3] == e[0]);
    }
}

/// A percent sign in an escaped path is always followed by two digits, so its
/// last two characters are none.
proof fn lemma_escape_tail(a: Seq<u8>, k: int)
    requires
        0 <= k < escape(a).len(),
        escape(a)[k] == '%',
    ensures
        k + 3 <= escape(a).len(),
    decreases a.len(),
{
    if a.len() > 0 {
        let rest = escape(a.drop_last());
        let e = escaped(a.last());
        let s = escape(a);
        if k < rest.len() {
            assert(s[k] == rest[k]);
            lemma_escape_tail(a.drop_last(), k);
        } else {
            assert(s[k] == e[k - rest.len()]);
        }
    }
}

proof fn lemma_escape_differ(a: Seq<u8>, b: Seq<u8>)
    requires
        escape(a) == escape(b),
    ensures
        a == b,
    decreases a.len(),
{
    if a.len() == 0 {
        if b.len() > 0 {
            lemma_escape_last(b);
        }
        assert(a =~= b);
    } else if b.len() == 0 {
        lemma_escape_last(a);
    } else {
        lemma_escape_last(a);
        lemma_escape_last(b);
        let s = escape(a);
        let n = s.len() as int;
        let ra = a.drop_last();
        let rb = b.drop_last();
        if is_plain(a.last()) != is_plain(b.last()) {
            // One reads its last character as itself, the other as a digit
            // after a percent sign.
            if is_plain(a.last()) {
                lemma_escape_then_one(ra, s, n);
            } else {
                lemma_escape_then_one(rb, s, n);
            }
        }
        lemma_escape_differ(ra, rb);
        let ea = escaped(a.last());
        let eb = escaped(b.last());
        assert(ea =~= s.skip(escape(ra).len() as int));
        assert(eb =~= s.skip(escape(rb).len() as int));
        lemma_escaped_differ(a.last(), b.last());
        assert(a =~= ra.push(a.last()));
        assert(b =~= rb.push(b.last()));
        assert(a =~= b);
    }
}

/// Where an escaped path is followed by one more character, the third character
/// from the end is no percent sign.
proof fn lemma_escape_then_one(r: Seq<u8>, s: Seq<char>, n: int)
    requires
        n == s.len(),
        n >= 3,
        escape(r) == s.take(n - 1),
    ensures
        s[n - 3] != '%',
{
    if s[n - 3] == '%' {
        assert(escape(r)[n - 3] == '%');
        lemma_escape_tail(r, n - 3);
    }
}

// ---------------------------------------------------------------------------
// What a server reads.

/// The number that a hexadecimal digit stands for.
pub open spec fn hex_value(c: char) -> int {
    if '0' <= c <= '9' {
        c as int - '0' as int
    } else if 'A' <= c <= 'F' {
        c as int - 'A' as int + 10
    } else {
        -1
    }
}

/// A letter, a digit, a hyphen, a dot, an underscore, a tilde or a slash stands
/// in a URI for itself. Any other byte stands there as a percent sign and two
/// hexadecimal digits, which read as the byte.
pub proof fn escapes_are_read_back(b: u8)
    ensures
        ({
            let c = b as char;
            let e = escaped(b);
            if 'a' <= c <= 'z' || 'A' <= c <= 'Z' || '0' <= c <= '9' || c == '-' || c == '.' || c
                == '_' || c == '~' || c == '/' {
                e == seq![c]
            } else {
                &&& e.len() == 3
                &&& e[0] == '%'
                &&& 0 <= hex_value(e[1]) < 16 && 0 <= hex_value(e[2]) < 16
                &&& 16 * hex_value(e[1]) + hex_value(e[2]) == b
            }
        }),
{
}

/// A URI is the scheme and the bytes of the path, one after the other.
pub proof fn uris_spell_the_path(a: Seq<u8>, b: Seq<u8>, c: u8)
    ensures
        uri_of(a).take(7) == seq!['f', 'i', 'l', 'e', ':', '/', '/'],
        uri_of(a).skip(7) == escape(a),
        escape(a + b) == escape(a) + escape(b),
        escape(seq![c]) == escaped(c),
        escape(Seq::empty()) == Seq::<char>::empty(),
    decreases b.len(),
{
    reveal_strlit("file://");
    let head = "file://"@;
    assert(head =~= seq!['f', 'i', 'l', 'e', ':', '/', '/']);
    assert(uri_of(a).take(7) =~= head);
    assert(uri_of(a).skip(7) =~= escape(a));
    assert(seq![c].drop_last() =~= Seq::empty());
    assert(escape(seq![c].drop_last()) + escaped(c) =~= escaped(c));
    if b.len() == 0 {
        assert(a + b =~= a);
        assert(escape(a) + escape(b) =~= escape(a));
    } else {
        uris_spell_the_path(a, b.drop_last(), c);
        assert((a + b).drop_last() =~= a + b.drop_last());
        assert(escape(a) + escape(b.drop_last()) + escaped(b.last()) =~= escape(a) + escape(b));
    }
}

/// A request has its id, its method and its parameters, and the version of the
/// protocol. A notification has no id, and a response its id and its result.
pub proof fn messages_carry_their_members(id: Id, method: Seq<char>, params: Json)
    ensures
        request_json(id, method, params) matches Json::Object(m) && {
            &&& m.dom() == set!["jsonrpc"@, "id"@, "method"@, "params"@]
            &&& m["jsonrpc"@] == Json::Str(seq!['2', '.', '0'])
            &&& m["id"@] == id.json()
            &&& m["method"@] == Json::Str(method)
            &&& m["params"@] == params
        },
        notification_json(method, params) matches Json::Object(m) && {
            &&& m.dom() == set!["jsonrpc"@, "method"@, "params"@]
            &&& m["jsonrpc"@] == Json::Str(seq!['2', '.', '0'])
            &&& m["method"@] == Json::Str(method)
            &&& m["params"@] == params
        },
        response_json(id, params) matches Json::Object(m) && {
            &&& m.dom() == set!["jsonrpc"@, "id"@, "result"@]
            &&& m["jsonrpc"@] == Json::Str(seq!['2', '.', '0'])
            &&& m["id"@] == id.json()
            &&& m["result"@] == params
        },
        id matches Id::Num(n) ==> id.json() == Json::Int(n),
        id matches Id::Str(s) ==> id.json() == Json::Str(s),
{
    reveal_strlit("jsonrpc");
    reveal_strlit("id");
    reveal_strlit("method");
    reveal_strlit("params");
    reveal_strlit("result");
    reveal_strlit("2.0");
    assert("2.0"@ =~= seq!['2', '.', '0']);
    assert("jsonrpc"@.len() == 7);
    assert("id"@.len() == 2);
    assert("method"@[0] == 'm');
    assert("params"@[0] == 'p');
    assert("result"@[0] == 'r');
    assert("method"@.len() == 6 && "params"@.len() == 6 && "result"@.len() == 6);
    assert(request_json(id, method, params)->Object_0.dom() =~= set![
        "jsonrpc"@,
        "id"@,
        "method"@,
        "params"@,
    ]);
    assert(notification_json(method, params)->Object_0.dom() =~= set![
        "jsonrpc"@,
        "method"@,
        "params"@,
    ]);
    assert(response_json(id, params)->Object_0.dom() =~= set!["jsonrpc"@, "id"@, "result"@]);
}

} // verus!
