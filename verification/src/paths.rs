//! File paths, as values of `std::path::PathBuf`.
use std::path::PathBuf;
use vstd::prelude::*;

verus! {

/// `std::path::PathBuf`, seen from outside as the bytes that [`path_bytes`]
/// names.
#[verifier::external_type_specification]
#[verifier::external_body]
pub struct ExPathBuf(PathBuf);

/// The bytes of a path.
pub uninterp spec fn path_bytes(path: PathBuf) -> Seq<u8>;

/// The components that `Path::components` splits a path's bytes into.
pub uninterp spec fn path_parts(bytes: Seq<u8>) -> Seq<Seq<u8>>;

/// `PathBuf`'s `==`: two paths are equal when they have the same components.
#[verifier::external_body]
pub(crate) fn same_path(a: &PathBuf, b: &PathBuf) -> (r: bool)
    ensures
        r == (path_parts(path_bytes(*a)) == path_parts(path_bytes(*b))),
{
    a == b
}

/// `Path::components`, counted: how many components a path has.
#[verifier::external_body]
pub(crate) fn component_count(path: &PathBuf) -> (r: usize)
    ensures
        r == path_parts(path_bytes(*path)).len(),
{
    path.components().count()
}

/// `PathBuf`'s `Clone`: the copy holds the same bytes.
pub assume_specification[ <PathBuf as Clone>::clone ](path: &PathBuf) -> (r: PathBuf)
    ensures
        path_bytes(r) == path_bytes(*path),
;

/// `OsStr::as_encoded_bytes` of a path: its bytes.
#[verifier::external_body]
pub(crate) fn bytes_of(path: &PathBuf) -> (r: Vec<u8>)
    ensures
        r@ == path_bytes(*path),
{
    path.as_os_str().as_encoded_bytes().to_vec()
}

/// The final component that `Path::file_name` finds in a path's bytes.
pub uninterp spec fn file_name_bytes(bytes: Seq<u8>) -> Option<Seq<u8>>;

/// The bytes of an optional name.
pub open spec fn bytes_view(name: Option<Vec<u8>>) -> Option<Seq<u8>> {
    match name {
        Some(n) => Some(n@),
        None => None,
    }
}

/// `Path::file_name`: the final component of a path, if it is a name.
#[verifier::external_body]
pub(crate) fn file_name(path: &PathBuf) -> (r: Option<Vec<u8>>)
    ensures
        bytes_view(r) == file_name_bytes(path_bytes(*path)),
{
    let name = path.file_name()?;
    Some(name.as_encoded_bytes().to_vec())
}

/// The text that `Path::display` makes of a path's bytes, with what is not text
/// replaced.
pub uninterp spec fn shown_path(bytes: Seq<u8>) -> Seq<char>;

/// `Path::display`: the path as text to read.
#[verifier::external_body]
pub(crate) fn display(path: &PathBuf) -> (r: String)
    ensures
        r@ == shown_path(path_bytes(*path)),
{
    path.display().to_string()
}

/// The place of the last dot before `end`, or -1.
pub open spec fn last_dot(name: Seq<u8>, end: int) -> int
    decreases end,
{
    if end <= 0 {
        -1
    } else if name[end - 1] == 0x2e {
        end - 1
    } else {
        last_dot(name, end - 1)
    }
}

/// The extension of a file name: what follows its last dot, unless that dot is
/// the first character or there is none.
pub open spec fn extension_in(name: Seq<u8>) -> Option<Seq<u8>> {
    let dot = last_dot(name, name.len() as int);
    if dot <= 0 {
        None
    } else {
        Some(name.skip(dot + 1))
    }
}

/// The extension of a file name.
pub fn extension_of(name: &Vec<u8>) -> (r: Option<Vec<u8>>)
    ensures
        bytes_view(r) == extension_in(name@),
{
    let mut end: usize = name.len();
    while end > 0 && name[end - 1] != 0x2e
        invariant
            end <= name@.len(),
            last_dot(name@, name@.len() as int) == last_dot(name@, end as int),
        decreases end,
    {
        end -= 1;
    }
    if end <= 1 {
        return None;
    }
    let mut out: Vec<u8> = Vec::new();
    let mut i: usize = end;
    while i < name.len()
        invariant
            end <= i <= name@.len(),
            out@ == name@.subrange(end as int, i as int),
        decreases name@.len() - i,
    {
        out.push(name[i]);
        i += 1;
        assert(out@ =~= name@.subrange(end as int, i as int));
    }
    assert(out@ =~= name@.skip(end as int));
    Some(out)
}

// ---------------------------------------------------------------------------
// Laws.

proof fn lemma_last_dot(name: Seq<u8>, end: int, dot: int)
    requires
        0 <= dot < end <= name.len(),
        name[dot] == '.' as u8,
        forall|k: int| dot < k < end ==> #[trigger] name[k] != '.' as u8,
    ensures
        last_dot(name, end) == dot,
    decreases end,
{
    if dot < end - 1 {
        assert(name[end - 1] != '.' as u8);
        lemma_last_dot(name, end - 1, dot);
    }
}

proof fn lemma_no_dot(name: Seq<u8>, end: int)
    requires
        end <= name.len(),
        forall|k: int| 0 <= k < end ==> #[trigger] name[k] != '.' as u8,
    ensures
        last_dot(name, end) == -1,
    decreases end,
{
    if end > 0 {
        assert(name[end - 1] != '.' as u8);
        lemma_no_dot(name, end - 1);
    }
}

/// The extension of a file name is what follows its last dot. A name without a
/// dot has none, nor has one whose only dot comes first.
pub proof fn extensions_follow_the_last_dot(stem: Seq<u8>, ext: Seq<u8>)
    requires
        forall|k: int| 0 <= k < ext.len() ==> #[trigger] ext[k] != '.' as u8,
    ensures
        stem.len() > 0 ==> extension_in(stem.push('.' as u8) + ext) == Some(ext),
        extension_in(seq!['.' as u8] + ext) is None,
        extension_in(ext) is None,
{
    let name = stem.push('.' as u8) + ext;
    assert(name[stem.len() as int] == '.' as u8);
    assert forall|k: int| stem.len() < k < name.len() implies #[trigger] name[k] != '.' as u8 by {
        assert(name[k] == ext[k - stem.len() - 1]);
    }
    lemma_last_dot(name, name.len() as int, stem.len() as int);
    assert(name.skip(stem.len() + 1int) =~= ext);
    let hidden = seq!['.' as u8] + ext;
    assert(hidden[0] == '.' as u8);
    assert forall|k: int| 0 < k < hidden.len() implies #[trigger] hidden[k] != '.' as u8 by {
        assert(hidden[k] == ext[k - 1]);
    }
    lemma_last_dot(hidden, hidden.len() as int, 0);
    lemma_no_dot(ext, ext.len() as int);
}

} // verus!
