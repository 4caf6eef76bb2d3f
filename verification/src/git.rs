//! What the diff view knows of git: how a file differs from `HEAD`, and how the
//! output of the `git` command line is read.
use crate::text::{
    byte_width, string_of, trim, trim_back, trim_front, utf8_text, width_in_bytes,
};
use vstd::prelude::*;
use vstd::utf8::{decode_utf8, valid_utf8};

verus! {

/// How a file differs from `HEAD` in the working tree.
#[derive(Debug, Clone, Copy, PartialEq, Eq, Structural)]
pub enum ChangeKind {
    Modified,
    Added,
    Deleted,
}

impl ChangeKind {
    /// A one-character indicator for the changed-files list.
    pub fn indicator(self) -> (r: char)
        ensures
            r == match self {
                ChangeKind::Modified => 'M',
                ChangeKind::Added => 'A',
                ChangeKind::Deleted => 'D',
            },
    {
        match self {
            ChangeKind::Modified => 'M',
            ChangeKind::Added => 'A',
            ChangeKind::Deleted => 'D',
        }
    }
}

/// One entry in the changed-files list: a repo-relative path and its change
/// kind.
#[derive(Debug, Clone, PartialEq, Eq)]
pub struct ChangedFile {
    pub path: String,
    pub kind: ChangeKind,
}

/// One entry in the changed-files list, as a value of the specifications.
#[verifier::ext_equal]
pub struct Change {
    pub path: Seq<char>,
    pub kind: ChangeKind,
}

impl View for ChangedFile {
    type V = Change;

    open spec fn view(&self) -> Change {
        Change { path: self.path@, kind: self.kind }
    }
}

/// The changed files, as values of the specifications.
pub open spec fn changes(files: Seq<ChangedFile>) -> Seq<Change> {
    files.map_values(|f: ChangedFile| f@)
}

/// The contents of a file: either UTF-8 text, or a flag that the blob is binary
/// / non-UTF-8 and must not be line-diffed.
#[derive(Debug, Clone, PartialEq, Eq)]
pub enum FileContents {
    Text(String),
    Binary,
}

/// Decode raw bytes as UTF-8 text, flagging anything else as binary. A NUL byte
/// is a strong binary signal even within otherwise-decodable bytes.
pub fn decode(bytes: Vec<u8>) -> (r: FileContents)
    ensures
        match r {
            FileContents::Text(text) => {
                &&& !bytes@.contains(0u8)
                &&& valid_utf8(bytes@)
                &&& text@ == decode_utf8(bytes@)
            },
            FileContents::Binary => bytes@.contains(0u8) || !valid_utf8(bytes@),
        },
{
    let mut i: usize = 0;
    while i < bytes.len()
        invariant
            i <= bytes@.len(),
            forall|j: int| 0 <= j < i ==> bytes@[j] != 0,
        decreases bytes@.len() - i,
    {
        if bytes[i] == 0 {
            assert(bytes@.contains(bytes@[i as int]));
            return FileContents::Binary;
        }
        i += 1;
    }
    match utf8_text(bytes) {
        Some(text) => FileContents::Text(text),
        None => FileContents::Binary,
    }
}

/// What `String::from_utf8_lossy` makes of bytes: their text, with every part
/// that is not UTF-8 replaced.
pub uninterp spec fn lossy_text(bytes: Seq<u8>) -> Seq<char>;

/// `String::from_utf8_lossy`: bytes that are UTF-8 give the text they encode.
#[verifier::external_body]
fn lossy(bytes: &[u8]) -> (r: String)
    ensures
        r@ == lossy_text(bytes@),
        valid_utf8(bytes@) ==> r@ == decode_utf8(bytes@),
{
    String::from_utf8_lossy(bytes).to_string()
}

/// The root of the repository in the output of `git rev-parse --show-toplevel`:
/// its text without the white space around it, if anything is left.
pub fn toplevel(stdout: &[u8]) -> (r: Option<String>)
    ensures
        ({
            let path = trim_back(trim_front(lossy_text(stdout@)));
            match r {
                Some(p) => path.len() > 0 && p@ == path,
                None => path.len() == 0,
            }
        }),
        valid_utf8(stdout@) ==> lossy_text(stdout@) == decode_utf8(stdout@),
{
    let path = trim(lossy(stdout).as_str());
    if path.as_str().unicode_len() == 0 {
        None
    } else {
        Some(path)
    }
}

/// Whether `s` takes at least three bytes in UTF-8.
pub open spec fn three_bytes(s: Seq<char>) -> bool {
    ||| s.len() >= 3
    ||| s.len() == 2 && byte_width(s[0]) + byte_width(s[1]) >= 3
    ||| s.len() == 1 && byte_width(s[0]) >= 3
}

/// How many characters the first three bytes of a record are, where both its
/// second and its third byte end a character: the status letters and a space.
pub open spec fn head_chars(s: Seq<char>) -> Option<int> {
    if s.len() >= 3 && byte_width(s[0]) == 1 && byte_width(s[1]) == 1 && byte_width(s[2]) == 1 {
        Some(3)
    } else if s.len() >= 2 && byte_width(s[0]) == 2 && byte_width(s[1]) == 1 {
        Some(2)
    } else {
        None
    }
}

/// The fields of a text that are separated by `sep`: there is always one more
/// than there are separators.
pub open spec fn fields_of(s: Seq<char>, sep: char) -> Seq<Seq<char>>
    decreases s.len(),
{
    if s.len() == 0 {
        seq![Seq::empty()]
    } else {
        let rest = fields_of(s.drop_last(), sep);
        if s.last() == sep {
            rest.push(Seq::empty())
        } else {
            rest.drop_last().push(rest.last().push(s.last()))
        }
    }
}

/// What a record says of its file, from its two status letters: a rename or a
/// copy and a new or untracked file count as added, a deletion in the index or
/// in the worktree as deleted, anything else as modified.
pub open spec fn kind_of(x: char, y: char) -> ChangeKind {
    if x == 'R' || x == 'C' {
        ChangeKind::Added
    } else if x == 'D' || y == 'D' {
        ChangeKind::Deleted
    } else if x == 'A' || x == '?' {
        ChangeKind::Added
    } else {
        ChangeKind::Modified
    }
}

/// The two status letters of a record. A first character of two bytes is no
/// letter that means anything.
pub open spec fn status_of(s: Seq<char>) -> (char, char) {
    if head_chars(s) == Some(3int) {
        (s[0], s[1])
    } else {
        (' ', ' ')
    }
}

/// Whether the record is followed by a field with the path it came from.
pub open spec fn has_origin(s: Seq<char>) -> bool {
    status_of(s).0 == 'R' || status_of(s).0 == 'C'
}

/// What a record says.
pub open spec fn change_of(s: Seq<char>) -> Change {
    Change {
        path: s.skip(head_chars(s)->0),
        kind: kind_of(status_of(s).0, status_of(s).1),
    }
}

/// What the records among the fields from `i` on say: a field of less than
/// three bytes says nothing, and the field after a rename or a copy is skipped.
pub open spec fn changes_from(fields: Seq<Seq<char>>, i: int) -> Seq<Change>
    decreases fields.len() + 2 - i,
{
    if i >= fields.len() {
        Seq::empty()
    } else if !three_bytes(fields[i]) {
        changes_from(fields, i + 1)
    } else if has_origin(fields[i]) {
        seq![change_of(fields[i])] + changes_from(fields, i + 2)
    } else {
        seq![change_of(fields[i])] + changes_from(fields, i + 1)
    }
}

/// Whether every record among the fields from `i` on begins with two status
/// letters and a space.
pub open spec fn records_from(fields: Seq<Seq<char>>, i: int) -> bool
    decreases fields.len() + 2 - i,
{
    i < fields.len() ==> if !three_bytes(fields[i]) {
        records_from(fields, i + 1)
    } else {
        &&& head_chars(fields[i]) is Some
        &&& records_from(
            fields,
            if has_origin(fields[i]) {
                i + 2
            } else {
                i + 1
            },
        )
    }
}

fn is_record(s: &Vec<char>) -> (r: bool)
    ensures
        r == three_bytes(s@),
{
    s.len() >= 3 || (s.len() == 2 && width_in_bytes(s[0]) + width_in_bytes(s[1]) >= 3) || (s.len()
        == 1 && width_in_bytes(s[0])
        >= 3)
}

fn head(s: &Vec<char>) -> (r: Option<usize>)
    ensures
        match r {
            Some(n) => head_chars(s@) == Some(n as int) && n <= s@.len(),
            None => head_chars(s@) is None,
        },
{
    if s.len() >= 3 && width_in_bytes(s[0]) == 1 && width_in_bytes(s[1]) == 1 && width_in_bytes(
        s[2],
    ) == 1 {
        Some(3)
    } else if s.len() >= 2 && width_in_bytes(s[0]) == 2 && width_in_bytes(s[1]) == 1 {
        Some(2)
    } else {
        None
    }
}

spec fn views(v: Seq<Vec<char>>) -> Seq<Seq<char>> {
    v.map_values(|f: Vec<char>| f@)
}

/// Splits a text at every `sep`.
fn split_fields(text: &str, sep: char) -> (r: Vec<Vec<char>>)
    ensures
        views(r@) == fields_of(text@, sep),
{
    let mut done: Vec<Vec<char>> = Vec::new();
    let mut current: Vec<char> = Vec::new();
    let ghost all = text@;
    proof {
        assert(views(done@).push(current@) =~= fields_of(all.take(0), sep));
        assert(all.take(all.len() as int) =~= all);
    }
    for c in it: text.chars()
        invariant
            it.seq() == all,
            views(done@).push(current@) == fields_of(all.take(it.index() as int), sep),
    {
        let ghost i = it.index();
        let ghost rest = views(done@);
        proof {
            assert(all.take(i + 1).drop_last() =~= all.take(i as int));
            assert(rest.push(current@).drop_last() =~= rest);
        }
        if c == sep {
            let ghost field = current@;
            done.push(current);
            current = Vec::new();
            assert(views(done@) =~= rest.push(field));
        } else {
            current.push(c);
        }
    }
    let ghost last = current@;
    let ghost rest = views(done@);
    done.push(current);
    assert(views(done@) =~= rest.push(last));
    done
}

/// Parse the text of `git status --porcelain=v1 -z` into changed-file entries.
///
/// Each record is `XY<space>PATH`, NUL-terminated. For renames/copies the
/// record is followed by a second NUL-separated field (the original path),
/// which is consumed but ignored — the new path is what differs from `HEAD`.
/// `None` if a record does not begin with two status letters and a space.
pub fn parse_records(text: &str) -> (r: Option<Vec<ChangedFile>>)
    ensures
        match r {
            Some(files) => {
                &&& records_from(fields_of(text@, '\0'), 0)
                &&& changes(files@) == changes_from(fields_of(text@, '\0'), 0)
            },
            None => !records_from(fields_of(text@, '\0'), 0),
        },
{
    let fields = split_fields(text, '\0');
    let ghost all = fields_of(text@, '\0');
    let mut files: Vec<ChangedFile> = Vec::new();
    let mut i: usize = 0;
    let count: usize = fields.len();
    assert(changes(files@) =~= Seq::empty());
    assert(changes(files@) + changes_from(all, 0) =~= changes_from(all, 0));
    while i < count
        invariant
            all == fields_of(text@, '\0'),
            count == all.len(),
            views(fields@) == all,
            count == fields@.len(),
            changes(files@) + changes_from(all, i as int) == changes_from(all, 0),
            records_from(all, 0) == records_from(all, i as int),
        decreases count - i,
    {
        assert(fields@[i as int]@ == all[i as int]);
        let entry = &fields[i];
        if !is_record(entry) {
            i += 1;
            continue ;
        }
        match head(entry) {
            None => {
                return None;
            },
            Some(n) => {
                let path = string_of(entry, n, entry.len());
                let (x, y) = if n == 3 {
                    (entry[0], entry[1])
                } else {
                    (' ', ' ')
                };
                let moved = x == 'R' || x == 'C';
                // Prefer the more specific status across the index (X) and
                // worktree (Y) columns; '?' is an untracked (new) file.
                let kind = if moved {
                    ChangeKind::Added
                } else if x == 'D' || y == 'D' {
                    ChangeKind::Deleted
                } else if x == 'A' || x == '?' {
                    ChangeKind::Added
                } else {
                    ChangeKind::Modified
                };
                let ghost before = changes(files@);
                let file = ChangedFile { path, kind };
                assert(file@ =~= change_of(all[i as int]));
                files.push(file);
                assert(changes(files@) =~= before.push(file@));
                let ghost next = if moved {
                    i + 2
                } else {
                    i + 1
                };
                let ghost rest = changes_from(all, next);
                assert(moved == has_origin(all[i as int]));
                assert(records_from(all, i as int) == records_from(all, next));
                assert(before + (seq![file@] + rest) =~= before.push(file@) + rest);
                // Renames/copies carry an extra NUL-separated original-path field.
                if moved && i + 1 < count {
                    i += 2;
                } else {
                    i += 1;
                }
            },
        }
    }
    assert(changes(files@) + Seq::<Change>::empty() =~= changes(files@));
    Some(files)
}

/// Parse the raw output of `git status --porcelain=v1 -z` into changed-file
/// entries; see [`parse_records`].
pub fn parse_porcelain(bytes: &[u8]) -> (r: Vec<ChangedFile>)
    requires
        records_from(fields_of(lossy_text(bytes@), '\0'), 0),
    ensures
        changes(r@) == changes_from(fields_of(lossy_text(bytes@), '\0'), 0),
        valid_utf8(bytes@) ==> lossy_text(bytes@) == decode_utf8(bytes@),
{
    match parse_records(lossy(bytes).as_str()) {
        Some(files) => files,
        None => Vec::new(),
    }
}

/// [`parse_porcelain`] where every record begins with two status letters and a
/// space, `None` where one does not.
pub fn checked_porcelain(bytes: &[u8]) -> (r: Option<Vec<ChangedFile>>)
    ensures
        match r {
            Some(files) => {
                &&& records_from(fields_of(lossy_text(bytes@), '\0'), 0)
                &&& changes(files@) == changes_from(fields_of(lossy_text(bytes@), '\0'), 0)
            },
            None => !records_from(fields_of(lossy_text(bytes@), '\0'), 0),
        },
        valid_utf8(bytes@) ==> lossy_text(bytes@) == decode_utf8(bytes@),
{
    let text = lossy(bytes);
    match parse_records(text.as_str()) {
        Some(_) => Some(parse_porcelain(bytes)),
        None => None,
    }
}

// ---------------------------------------------------------------------------
// Laws.

/// The fields one after the other, each with `sep` behind it.
pub open spec fn terminated(fields: Seq<Seq<char>>, sep: char) -> Seq<char>
    decreases fields.len(),
{
    if fields.len() == 0 {
        Seq::empty()
    } else {
        (terminated(fields.drop_last(), sep) + fields.last()).push(sep)
    }
}

proof fn lemma_fields_of_append(s: Seq<char>, x: Seq<char>, sep: char)
    requires
        !x.contains(sep),
    ensures
        fields_of(s, sep).len() > 0,
        fields_of(s + x, sep) == fields_of(s, sep).drop_last().push(fields_of(s, sep).last() + x),
    decreases s.len() + x.len(),
{
    if x.len() == 0 {
        if s.len() > 0 {
            lemma_fields_of_append(s.drop_last(), Seq::empty(), sep);
        }
        assert(s + x =~= s);
        let f = fields_of(s, sep);
        assert(f.last() + x =~= f.last());
        assert(f.drop_last().push(f.last()) =~= f);
    } else {
        let y = x.drop_last();
        assert(!y.contains(sep)) by {
            if y.contains(sep) {
                let i = choose|i: int| 0 <= i < y.len() && y[i] == sep;
                assert(x[i] == sep);
            }
        }
        lemma_fields_of_append(s, y, sep);
        assert((s + x).drop_last() =~= s + y);
        assert(x.last() != sep) by {
            assert(x.contains(x[x.len() - 1]));
        }
        let f = fields_of(s, sep);
        let g = fields_of(s + y, sep);
        assert(g.drop_last() =~= f.drop_last());
        assert(g.last().push(x.last()) =~= f.last() + x);
    }
}

/// Fields that hold no separator are told apart again, whatever else they hold:
/// a name with spaces or line breaks stays one name.
pub proof fn fields_round_trip(fields: Seq<Seq<char>>, sep: char)
    requires
        forall|i: int| 0 <= i < fields.len() ==> !(#[trigger] fields[i]).contains(sep),
    ensures
        fields_of(terminated(fields, sep), sep) == fields.push(Seq::empty()),
    decreases fields.len(),
{
    if fields.len() == 0 {
        assert(fields_of(Seq::empty(), sep) =~= fields.push(Seq::empty()));
    } else {
        let rest = fields.drop_last();
        assert forall|i: int| 0 <= i < rest.len() implies !(#[trigger] rest[i]).contains(sep) by {
            assert(rest[i] == fields[i]);
        }
        fields_round_trip(rest, sep);
        let t = terminated(rest, sep);
        let x = fields.last();
        assert(!fields[fields.len() - 1].contains(sep));
        lemma_fields_of_append(t, x, sep);
        assert(rest.push(Seq::empty()).drop_last() =~= rest);
        assert(Seq::<char>::empty() + x =~= x);
        assert(rest.push(x) =~= fields);
        assert((t + x).push(sep).drop_last() =~= t + x);
    }
}

/// What comes before a separator and what comes behind it fall apart into fields
/// by themselves.
proof fn lemma_fields_of_parts(a: Seq<char>, b: Seq<char>, sep: char)
    ensures
        fields_of(b, sep).len() > 0,
        fields_of(a.push(sep) + b, sep) == fields_of(a, sep) + fields_of(b, sep),
    decreases b.len(),
{
    let f = fields_of(a, sep);
    if b.len() == 0 {
        assert(a.push(sep) + b =~= a.push(sep));
        assert(a.push(sep).drop_last() =~= a);
        assert(f.push(Seq::empty()) =~= f + fields_of(b, sep));
    } else {
        let c = b.drop_last();
        lemma_fields_of_parts(a, c, sep);
        assert((a.push(sep) + b).drop_last() =~= a.push(sep) + c);
        let g = fields_of(c, sep);
        if b.last() == sep {
            assert((f + g).push(Seq::empty()) =~= f + g.push(Seq::empty()));
        } else {
            assert((f + g).last() == g.last());
            let last = g.last().push(b.last());
            assert((f + g).drop_last().push(last) =~= f + g.drop_last().push(last));
        }
    }
}

/// A text without a separator is one field.
proof fn lemma_one_field(a: Seq<char>, sep: char)
    requires
        !a.contains(sep),
    ensures
        fields_of(a, sep) == seq![a],
{
    lemma_fields_of_append(Seq::empty(), a, sep);
    assert(Seq::<char>::empty() + a =~= a);
    assert(fields_of(Seq::empty(), sep).drop_last().push(
        fields_of(Seq::empty(), sep).last() + a,
    ) =~= seq![a]);
}

/// What the fields behind the first `front.len()` ones say does not depend on
/// those.
proof fn lemma_changes_behind(front: Seq<Seq<char>>, back: Seq<Seq<char>>, i: int)
    requires
        0 <= i,
    ensures
        changes_from(front + back, front.len() + i) == changes_from(back, i),
        records_from(front + back, front.len() + i) == records_from(back, i),
    decreases back.len() + 2 - i,
{
    let all = front + back;
    if i < back.len() {
        assert(all[front.len() + i] == back[i]);
        lemma_changes_behind(front, back, i + 1);
        if i + 2 <= back.len() + 1 {
            lemma_changes_behind(front, back, i + 2);
        }
    }
}

/// A record for one file: two status letters, a space, the path and a NUL.
pub open spec fn status_record(x: char, y: char, path: Seq<char>) -> Seq<char> {
    (seq![x, y, ' '] + path).push('\0')
}

/// Whether a character is one that a status column may hold: an ASCII character
/// other than NUL.
pub open spec fn status_letter(c: char) -> bool {
    0 < c as int && (c as int) < 128
}

/// A status record says one change, of the file whose path it holds, and what
/// follows says what it would say by itself. The file is deleted if either
/// letter is `D`; else it is added if the first letter is `A` or `?`; else, and
/// only then, it is modified: `M ` and ` M` and `MM` alike.
pub proof fn a_record_says_one_change(x: char, y: char, path: Seq<char>, rest: Seq<char>)
    requires
        status_letter(x),
        status_letter(y),
        x != 'R',
        x != 'C',
        !path.contains('\0'),
    ensures
        ({
            let all = fields_of(status_record(x, y, path) + rest, '\0');
            let more = fields_of(rest, '\0');
            &&& records_from(all, 0) == records_from(more, 0)
            &&& changes_from(all, 0).len() == 1 + changes_from(more, 0).len()
            &&& changes_from(all, 0)[0].path == path
            &&& changes_from(all, 0)[0].kind == ChangeKind::Deleted <==> x == 'D' || y == 'D'
            &&& changes_from(all, 0)[0].kind == ChangeKind::Added <==> y != 'D' && (x == 'A' || x
                == '?')
            &&& changes_from(all, 0)[0].kind == ChangeKind::Modified <==> x != 'D' && y != 'D' && x
                != 'A' && x != '?'
            &&& changes_from(all, 0).skip(1) == changes_from(more, 0)
        }),
{
    let head = seq![x, y, ' '] + path;
    lemma_record_field(x, y, path);
    lemma_fields_of_parts(head, rest, '\0');
    let more = fields_of(rest, '\0');
    let all = fields_of(status_record(x, y, path) + rest, '\0');
    assert(all == seq![head] + more);
    lemma_changes_behind(seq![head], more, 0);
    assert(all[0] == head);
    assert(changes_from(all, 0) == seq![change_of(head)] + changes_from(all, 1));
    assert((seq![change_of(head)] + changes_from(more, 0)).skip(1) =~= changes_from(more, 0));
}

proof fn lemma_record_field(x: char, y: char, path: Seq<char>)
    requires
        status_letter(x),
        status_letter(y),
        !path.contains('\0'),
    ensures
        fields_of(seq![x, y, ' '] + path, '\0') == seq![seq![x, y, ' '] + path],
        three_bytes(seq![x, y, ' '] + path),
        head_chars(seq![x, y, ' '] + path) == Some(3int),
        status_of(seq![x, y, ' '] + path) == (x, y),
        (seq![x, y, ' '] + path).skip(3) == path,
{
    let head = seq![x, y, ' '] + path;
    assert(!head.contains('\0')) by {
        if head.contains('\0') {
            let i = choose|i: int| 0 <= i < head.len() && head[i] == '\0';
            if i >= 3 {
                assert(path[i - 3] == '\0');
            }
        }
    }
    lemma_one_field(head, '\0');
    assert(head.skip(3) =~= path);
}

/// The record of a rename or a copy is followed by the path it came from. The two
/// say one change together: the new path counts as added, and the old one is
/// not listed.
pub proof fn a_rename_says_one_change(
    x: char,
    y: char,
    path: Seq<char>,
    origin: Seq<char>,
    rest: Seq<char>,
)
    requires
        x == 'R' || x == 'C',
        status_letter(y),
        !path.contains('\0'),
        !origin.contains('\0'),
    ensures
        ({
            let all = fields_of(status_record(x, y, path) + origin.push('\0') + rest, '\0');
            let more = fields_of(rest, '\0');
            &&& records_from(all, 0) == records_from(more, 0)
            &&& changes_from(all, 0).len() == 1 + changes_from(more, 0).len()
            &&& changes_from(all, 0)[0] == (Change { path, kind: ChangeKind::Added })
            &&& changes_from(all, 0).skip(1) == changes_from(more, 0)
        }),
{
    let head = seq![x, y, ' '] + path;
    lemma_record_field(x, y, path);
    let more = fields_of(rest, '\0');
    let tail = origin.push('\0') + rest;
    lemma_fields_of_parts(origin, rest, '\0');
    lemma_one_field(origin, '\0');
    lemma_fields_of_parts(head, tail, '\0');
    assert(status_record(x, y, path) + origin.push('\0') + rest =~= head.push('\0') + tail);
    let all = fields_of(status_record(x, y, path) + origin.push('\0') + rest, '\0');
    let front = seq![head, origin];
    assert(all =~= front + more);
    lemma_changes_behind(front, more, 0);
    assert(all[0] == head);
    assert(changes_from(all, 0) == seq![change_of(head)] + changes_from(all, 2));
    assert((seq![change_of(head)] + changes_from(more, 0)).skip(1) =~= changes_from(more, 0));
}

/// No records, no changes.
pub proof fn no_records_no_changes()
    ensures
        records_from(fields_of(Seq::empty(), '\0'), 0),
        changes_from(fields_of(Seq::empty(), '\0'), 0) == Seq::<Change>::empty(),
{
    let f = fields_of(Seq::empty(), '\0');
    assert(f == seq![Seq::<char>::empty()]);
    assert(!three_bytes(f[0]));
    assert(changes_from(f, 0) == changes_from(f, 1));
    assert(records_from(f, 0) == records_from(f, 1));
}

/// A field that is too short for a record says nothing.
pub proof fn short_fields_say_nothing(short: Seq<char>, rest: Seq<char>)
    requires
        short.len() <= 2,
        forall|i: int| 0 <= i < short.len() ==> status_letter(#[trigger] short[i]),
    ensures
        ({
            let all = fields_of(short.push('\0') + rest, '\0');
            let more = fields_of(rest, '\0');
            &&& records_from(all, 0) == records_from(more, 0)
            &&& changes_from(all, 0) == changes_from(more, 0)
        }),
{
    assert(!short.contains('\0')) by {
        if short.contains('\0') {
            let i = choose|i: int| 0 <= i < short.len() && short[i] == '\0';
            assert(status_letter(short[i]));
        }
    }
    lemma_one_field(short, '\0');
    lemma_fields_of_parts(short, rest, '\0');
    let more = fields_of(rest, '\0');
    let all = fields_of(short.push('\0') + rest, '\0');
    assert(all == seq![short] + more);
    lemma_changes_behind(seq![short], more, 0);
    assert(all[0] == short);
    assert(!three_bytes(short)) by {
        if short.len() > 0 {
            assert(status_letter(short[0]));
        }
        if short.len() > 1 {
            assert(status_letter(short[1]));
        }
    }
}

} // verus!
