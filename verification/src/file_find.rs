//! The fuzzy file-finder's data layer: a snapshot of the workspace's files, and
//! the ranking of that snapshot against a typed query.
//!
//! The match is a *subsequence* test (the query's characters must appear in
//! order anywhere in the path), not a substring — so `mn` finds `main.rs`.
//! Matches are scored so that consecutive runs, filename hits, and word/path
//! boundary starts rank higher. Case folding is ASCII-only.
use crate::order::{
    lemma_insert_ordered, lemma_lex_total, lemma_lex_transitive, lex_less, lexically_less, ordered,
};
use crate::pane::{fold, folded};
use crate::text::chars_of;
use std::path::PathBuf;
use vstd::prelude::*;
use vstd::utf8::encode_utf8;

verus! {

/// Upper bound on files gathered into a snapshot, so the finder stays bounded on
/// huge trees. Beyond this the walk simply stops.
pub const MAX_FILES: usize = 10_000;

/// A score bonus for a query char that lands on a word/path boundary (start of
/// the string, or just after a separator like `/`, `_`, `-`, `.`, or space).
pub const BOUNDARY_BONUS: i64 = 10;

/// A bonus for a query char that immediately follows the previous match (a
/// consecutive run, e.g. typing the literal start of a name).
pub const CONSEC_BONUS: i64 = 5;

/// A bonus for a query char that falls within the file name segment (after the
/// last separator), so filename hits beat directory hits.
pub const FILENAME_BONUS: i64 = 3;

/// Penalty per skipped character between two matches. Set high enough that a
/// tight consecutive run beats a gappy match even when the gappy one collects
/// several boundary bonuses.
pub const GAP_PENALTY: i64 = 3;

/// One file in the snapshot: its absolute path (used to open it) and the
/// root-relative display string (what the user reads and we score against).
#[derive(Debug, Clone, PartialEq, Eq)]
pub struct FileItem {
    pub path: PathBuf,
    pub display: String,
}

/// Takes one entry of the walk into the snapshot: regular files are kept, and
/// a full snapshot stops the walk. Returns whether the walk goes on.
pub fn gather_entry(files: &mut Vec<FileItem>, is_file: bool, path: PathBuf, display: String) -> (r:
    bool)
    ensures
        r == (old(files)@.len() < MAX_FILES),
        final(files)@ == if r && is_file {
            old(files)@.push(FileItem { path, display })
        } else {
            old(files)@
        },
{
    if files.len() >= MAX_FILES {
        return false;
    }
    if is_file {
        files.push(FileItem { path, display });
    }
    true
}

/// Whether an entry at `depth` below the root is a hidden (dot-prefixed) file or
/// directory. Filtering a directory here prunes its whole subtree, so `.git` and
/// friends never get walked. The root itself (depth 0) is never treated as
/// hidden, nor is a name that is not text.
pub fn is_hidden(depth: usize, name: Option<&str>) -> (r: bool)
    ensures
        r == (depth > 0 && (name matches Some(n) && n@.len() > 0 && n@[0] == '.')),
{
    match name {
        Some(n) => depth > 0 && !n.is_empty() && n.get_char(0) == '.',
        None => false,
    }
}

/// Whether `c` separates path segments.
pub open spec fn is_separator(c: char) -> bool {
    c == '/' || c == '\\'
}

/// Whether a word or path segment starts after `c`.
pub open spec fn is_boundary(c: char) -> bool {
    c == '/' || c == '\\' || c == '_' || c == '-' || c == '.' || c == ' '
}

/// Where the file name starts: just after the last separator.
pub open spec fn name_start(c: Seq<char>) -> int
    decreases c.len(),
{
    if c.len() == 0 || is_separator(c.last()) {
        c.len() as int
    } else {
        name_start(c.drop_last())
    }
}

/// Where a greedy leftmost match of the query has got to: how many of its
/// characters were found, where the last one was, and the score so far.
pub struct Progress {
    pub found: int,
    pub last: Option<int>,
    pub score: int,
}

/// What one found character at position `i` is worth.
pub open spec fn worth(c: Seq<char>, i: int, last: Option<int>) -> int {
    let boundary = if i == 0 || is_boundary(c[i - 1]) {
        BOUNDARY_BONUS as int
    } else {
        0
    };
    let name = if i >= name_start(c) {
        FILENAME_BONUS as int
    } else {
        0
    };
    let run = match last {
        Some(p) => if p + 1 == i {
            CONSEC_BONUS as int
        } else {
            -(GAP_PENALTY * (i - p - 1))
        },
        None => 0,
    };
    1 + boundary + name + run
}

/// The greedy leftmost match of `q` in the first `n` characters of `c`: each
/// character of the query is found at the first place where it can be.
pub open spec fn progress(q: Seq<char>, c: Seq<char>, n: int) -> Progress
    decreases n,
{
    if n <= 0 {
        Progress { found: 0, last: None, score: 0 }
    } else {
        let p = progress(q, c, n - 1);
        if p.found < q.len() && folded(c[n - 1]) == folded(q[p.found]) {
            Progress {
                found: p.found + 1,
                last: Some(n - 1),
                score: p.score + worth(c, n - 1, p.last),
            }
        } else {
            p
        }
    }
}

/// The score of a candidate: nothing if the query is not found in it.
pub open spec fn score_of(q: Seq<char>, c: Seq<char>) -> Option<int> {
    let p = progress(q, c, c.len() as int);
    if p.found == q.len() {
        Some(p.score)
    } else {
        None
    }
}

/// Whether the positions `at` show that `q` is a subsequence of `c`, but for
/// the case of ASCII letters: they rise, and each holds the next character.
pub open spec fn embeds(at: Seq<int>, q: Seq<char>, c: Seq<char>) -> bool {
    &&& at.len() == q.len()
    &&& forall|i: int|
        0 <= i < at.len() ==> 0 <= (#[trigger] at[i]) < c.len() && folded(c[at[i]]) == folded(q[i])
    &&& forall|i: int, j: int| 0 <= i < j < at.len() ==> (#[trigger] at[i]) < (#[trigger] at[j])
}

proof fn lemma_progress(q: Seq<char>, c: Seq<char>, n: int)
    requires
        0 <= n <= c.len(),
    ensures
        0 <= progress(q, c, n).found <= n,
        progress(q, c, n).found <= q.len(),
        progress(q, c, n).found == 0 <==> progress(q, c, n).last is None,
        progress(q, c, n).last matches Some(p) ==> 0 <= p < n,
        progress(q, c, n).score <= 19 * progress(q, c, n).found,
        progress(q, c, n).score >= -3 * (match progress(q, c, n).last {
            Some(p) => p,
            None => 0,
        }),
    decreases n,
{
    if n > 0 {
        lemma_progress(q, c, n - 1);
    }
}

fn file_name_start(c: &Vec<char>) -> (r: usize)
    ensures
        r == name_start(c@),
{
    let mut i: usize = c.len();
    assert(c@.take(i as int) =~= c@);
    while i > 0 && !(c[i - 1] == '/' || c[i - 1] == '\\')
        invariant
            i <= c@.len(),
            name_start(c@.take(i as int)) == name_start(c@),
        decreases i,
    {
        assert(c@.take(i as int).drop_last() =~= c@.take(i - 1));
        i -= 1;
    }
    i
}

/// Score `candidate` against `query` as a case-insensitive subsequence, or
/// `None` when `query` is not a subsequence of `candidate`. Higher is a tighter
/// match. An empty query scores zero (so everything "matches", in snapshot
/// order — see [`rank`]). Matching is greedy-leftmost, which always finds a
/// subsequence when one exists.
pub fn fuzzy_score(query: &str, candidate: &str) -> (r: Option<i64>)
    requires
        19 * candidate@.len() <= i64::MAX,
    ensures
        match r {
            Some(score) => score_of(query@, candidate@) == Some(score as int),
            None => score_of(query@, candidate@) is None,
        },
{
    let q = chars_of(query);
    let c = chars_of(candidate);
    let start: usize = file_name_start(&c);
    let mut score: i64 = 0;
    let mut qi: usize = 0;
    let mut prev: Option<usize> = None;
    let mut ci: usize = 0;
    while ci < c.len()
        invariant
            q@ == query@,
            c@ == candidate@,
            start == name_start(c@),
            19 * c@.len() <= i64::MAX,
            ci <= c@.len(),
            qi <= q@.len(),
            progress(q@, c@, ci as int).found == qi,
            progress(q@, c@, ci as int).score == score,
            match prev {
                Some(p) => progress(q@, c@, ci as int).last == Some(p as int),
                None => progress(q@, c@, ci as int).last is None,
            },
        decreases c@.len() - ci,
    {
        proof {
            lemma_progress(q@, c@, ci as int);
            lemma_progress(q@, c@, ci + 1);
        }
        if qi < q.len() && fold(c[ci]) == fold(q[qi]) {
            score += 1;
            let at_boundary = ci == 0 || c[ci - 1] == '/' || c[ci - 1] == '\\' || c[ci - 1] == '_'
                || c[ci - 1] == '-' || c[ci - 1] == '.' || c[ci - 1] == ' ';
            if at_boundary {
                score += BOUNDARY_BONUS;
            }
            if ci >= start {
                score += FILENAME_BONUS;
            }
            match prev {
                Some(p) => {
                    if p + 1 == ci {
                        score += CONSEC_BONUS;
                    } else {
                        score -= GAP_PENALTY * (ci - p - 1) as i64;
                    }
                },
                None => {},
            }
            prev = Some(ci);
            qi += 1;
        }
        ci += 1;
    }
    if qi == q.len() {
        Some(score)
    } else {
        None
    }
}

/// The number of bytes of a text in UTF-8.
pub open spec fn byte_len(s: Seq<char>) -> usize {
    encode_utf8(s).len() as usize
}

/// Whether item `a` ranks before item `b`: a higher score, then a shorter
/// display, then the lexical order, then the order of the snapshot.
pub open spec fn ranks_before(items: Seq<FileItem>, q: Seq<char>, a: int, b: int) -> bool {
    let da = items[a].display@;
    let db = items[b].display@;
    let sa = score_of(q, da)->0;
    let sb = score_of(q, db)->0;
    ||| sa > sb
    ||| sa == sb && byte_len(da) < byte_len(db)
    ||| sa == sb && byte_len(da) == byte_len(db) && lex_less(da, db)
    ||| sa == sb && da == db && a < b
}

proof fn lemma_ranks_before(items: Seq<FileItem>, q: Seq<char>)
    ensures
        forall|a: int, b: int| a != b ==> #[trigger] ranks_before(items, q, a, b) != ranks_before(
            items,
            q,
            b,
            a,
        ),
        forall|a: int, b: int, c: int|
            #![trigger ranks_before(items, q, a, b), ranks_before(items, q, b, c)]
            ranks_before(items, q, a, b) && ranks_before(items, q, b, c) ==> ranks_before(
                items,
                q,
                a,
                c,
            ),
{
    assert forall|a: int, b: int| a != b implies #[trigger] ranks_before(items, q, a, b)
        != ranks_before(items, q, b, a) by {
        lemma_lex_total(items[a].display@, items[b].display@);
        lemma_lex_total(items[b].display@, items[a].display@);
    }
    assert forall|a: int, b: int, c: int|
        #![trigger ranks_before(items, q, a, b), ranks_before(items, q, b, c)]
        ranks_before(items, q, a, b) && ranks_before(items, q, b, c) implies ranks_before(
        items,
        q,
        a,
        c,
    ) by {
        let da = items[a].display@;
        let db = items[b].display@;
        let dc = items[c].display@;
        if lex_less(da, db) && lex_less(db, dc) {
            lemma_lex_transitive(da, db, dc);
        }
    }
}

/// An item that matched, with its score.
struct Scored {
    index: usize,
    score: i64,
}

fn scored_before(items: &[FileItem], a: &Scored, b: &Scored, q: Ghost<Seq<char>>) -> (r: bool)
    requires
        a.index < items@.len(),
        b.index < items@.len(),
        score_of(q@, items@[a.index as int].display@) == Some(a.score as int),
        score_of(q@, items@[b.index as int].display@) == Some(b.score as int),
    ensures
        r == ranks_before(items@, q@, a.index as int, b.index as int),
{
    proof {
        lemma_lex_total(items@[a.index as int].display@, items@[b.index as int].display@);
    }
    if a.score != b.score {
        return a.score > b.score;
    }
    let da = items[a.index].display.as_str();
    let db = items[b.index].display.as_str();
    if da.len() != db.len() {
        return da.len() < db.len();
    }
    let ca = chars_of(da);
    let cb = chars_of(db);
    if lexically_less(&ca, &cb) {
        return true;
    }
    if lexically_less(&cb, &ca) {
        proof {
            lemma_lex_total(cb@, ca@);
        }
        return false;
    }
    proof {
        lemma_lex_total(cb@, ca@);
    }
    a.index < b.index
}

spec fn indices(s: Seq<Scored>) -> Seq<int> {
    s.map_values(|x: Scored| x.index as int)
}

/// Indices into `items` of the entries matching `query`, ordered by score
/// (descending), ties broken by shorter `display` then lexically. An empty
/// query yields every index in snapshot order.
pub fn rank(items: &[FileItem], query: &str) -> (r: Vec<usize>)
    requires
        forall|i: int|
            0 <= i < items@.len() ==> 19 * (#[trigger] items@[i]).display@.len() <= i64::MAX,
    ensures
        query@.len() == 0 ==> r@ == Seq::new(items@.len(), |i: int| i as usize),
        query@.len() > 0 ==> {
            &&& forall|i: int|
                0 <= i < items@.len() ==> (r@.contains(i as usize) <==> score_of(
                    query@,
                    (#[trigger] items@[i]).display@,
                ) is Some)
            &&& forall|k: int| 0 <= k < r@.len() ==> (#[trigger] r@[k]) < items@.len()
            &&& forall|j: int, k: int|
                0 <= j < k < r@.len() ==> ranks_before(
                    items@,
                    query@,
                    (#[trigger] r@[j]) as int,
                    (#[trigger] r@[k]) as int,
                )
        },
{
    let mut order: Vec<usize> = Vec::new();
    let count: usize = items.len();
    if query.is_empty() {
        while order.len() < count
            invariant
                order@.len() <= count,
                forall|k: int| 0 <= k < order@.len() ==> (#[trigger] order@[k]) == k,
            decreases count - order@.len(),
        {
            let next: usize = order.len();
            order.push(next);
        }
        assert(order@ =~= Seq::new(items@.len(), |i: int| i as usize));
        return order;
    }
    let ghost less = |a: int, b: int| ranks_before(items@, query@, a, b);
    let mut scored: Vec<Scored> = Vec::new();
    let mut i: usize = 0;
    while i < count
        invariant
            i <= count == items@.len(),
            forall|k: int|
                0 <= k < items@.len() ==> 19 * (#[trigger] items@[k]).display@.len() <= i64::MAX,
            less == (|a: int, b: int| ranks_before(items@, query@, a, b)),
            ordered(indices(scored@), less),
            forall|k: int|
                0 <= k < scored@.len() ==> (#[trigger] scored@[k]).index < i && score_of(
                    query@,
                    items@[scored@[k].index as int].display@,
                ) == Some(scored@[k].score as int),
            forall|n: int|
                0 <= n < i && score_of(query@, (#[trigger] items@[n]).display@) is Some
                    ==> indices(scored@).contains(n),
        decreases count - i,
    {
        assert(19 * items@[i as int].display@.len() <= i64::MAX);
        match fuzzy_score(query, items[i].display.as_str()) {
            None => {},
            Some(score) => {
                let new = Scored { index: i, score };
                let ghost before = scored@;
                let ghost ids = indices(before);
                let mut k: usize = scored.len();
                while k > 0 && scored_before(items, &new, &scored[k - 1], Ghost(query@))
                    invariant
                        k <= scored@.len(),
                        scored@ == before,
                        ids == indices(before),
                        i < items@.len(),
                        new.index == i,
                        score_of(query@, items@[i as int].display@) == Some(new.score as int),
                        forall|m: int|
                            0 <= m < scored@.len() ==> (#[trigger] scored@[m]).index < i
                                && score_of(
                                query@,
                                items@[scored@[m].index as int].display@,
                            ) == Some(scored@[m].score as int),
                        k < scored@.len() ==> ranks_before(items@, query@, i as int, ids[k as int]),
                    decreases k,
                {
                    k -= 1;
                    assert(ids[k as int] == scored@[k as int].index);
                }
                proof {
                    lemma_ranks_before(items@, query@);
                    if k > 0 {
                        assert(ids[k - 1] == scored@[k - 1].index);
                        assert(less(ids[k - 1], i as int));
                    }
                    lemma_insert_ordered(ids, k as int, i as int, less);
                }
                scored.insert(k, new);
                proof {
                    assert(indices(scored@) =~= ids.insert(k as int, i as int));
                    assert forall|n: int|
                        0 <= n < i + 1 && score_of(query@, (#[trigger] items@[n]).display@) is Some
                        implies indices(scored@).contains(n) by {
                        if n < i {
                            assert(ids.contains(n));
                            let m = choose|m: int| 0 <= m < ids.len() && ids[m] == n;
                            if m < k {
                                assert(indices(scored@)[m] == n);
                            } else {
                                assert(indices(scored@)[m + 1] == n);
                            }
                        } else {
                            assert(indices(scored@)[k as int] == n);
                        }
                    }
                    assert forall|m: int| 0 <= m < scored@.len() implies (
                    #[trigger] scored@[m]).index < i + 1 && score_of(
                        query@,
                        items@[scored@[m].index as int].display@,
                    ) == Some(scored@[m].score as int) by {
                        if m < k {
                            assert(scored@[m] == before[m]);
                        } else if m > k {
                            assert(scored@[m] == before[m - 1]);
                        }
                    }
                }
            },
        }
        i += 1;
    }
    let mut k: usize = 0;
    while k < scored.len()
        invariant
            k <= scored@.len(),
            order@.len() == k,
            forall|m: int| 0 <= m < k ==> (#[trigger] order@[m]) == scored@[m].index,
        decreases scored@.len() - k,
    {
        order.push(scored[k].index);
        k += 1;
    }
    proof {
        let ids = indices(scored@);
        assert forall|n: int| 0 <= n < items@.len() implies (order@.contains(n as usize)
            <==> score_of(query@, (#[trigger] items@[n]).display@) is Some) by {
            if score_of(query@, items@[n].display@) is Some {
                assert(ids.contains(n));
                let m = choose|m: int| 0 <= m < ids.len() && ids[m] == n;
                assert(order@[m] == n as usize);
            }
            if order@.contains(n as usize) {
                let m = choose|m: int| 0 <= m < order@.len() && order@[m] == n as usize;
                assert(scored@[m].index == n);
            }
        }
        assert forall|j: int, m: int| 0 <= j < m < order@.len() implies ranks_before(
            items@,
            query@,
            (#[trigger] order@[j]) as int,
            (#[trigger] order@[m]) as int,
        ) by {
            assert(less(ids[j], ids[m]));
        }
    }
    order
}

// ---------------------------------------------------------------------------
// Laws.

proof fn lemma_found_at_least(at: Seq<int>, q: Seq<char>, c: Seq<char>, n: int, k: int)
    requires
        embeds(at, q, c),
        0 <= n <= c.len(),
        0 <= k <= q.len(),
        k > 0 ==> at[k - 1] < n,
    ensures
        progress(q, c, n).found >= k,
    decreases n,
{
    if n > 0 && k > 0 {
        lemma_progress(q, c, n - 1);
        if at[k - 1] < n - 1 {
            lemma_found_at_least(at, q, c, n - 1, k);
        } else {
            if k > 1 {
                assert(at[k - 2] < at[k - 1]);
            }
            lemma_found_at_least(at, q, c, n - 1, k - 1);
        }
    } else {
        lemma_progress(q, c, n);
        if k > 0 {
            assert(0 <= at[k - 1]);
        }
    }
}

/// Where the greedy match of `q` found its characters among the first `n`.
pub open spec fn found_places(q: Seq<char>, c: Seq<char>, n: int) -> Seq<int>
    decreases n,
{
    if n <= 0 {
        Seq::empty()
    } else {
        let p = progress(q, c, n - 1);
        if p.found < q.len() && folded(c[n - 1]) == folded(q[p.found]) {
            found_places(q, c, n - 1).push(n - 1)
        } else {
            found_places(q, c, n - 1)
        }
    }
}

proof fn lemma_found_places(q: Seq<char>, c: Seq<char>, n: int)
    requires
        0 <= n <= c.len(),
    ensures
        found_places(q, c, n).len() == progress(q, c, n).found,
        embeds(found_places(q, c, n), q.take(progress(q, c, n).found), c),
        forall|i: int|
            0 <= i < found_places(q, c, n).len() ==> (#[trigger] found_places(q, c, n)[i]) < n,
    decreases n,
{
    lemma_progress(q, c, n);
    if n > 0 {
        lemma_progress(q, c, n - 1);
        lemma_found_places(q, c, n - 1);
        let at = found_places(q, c, n - 1);
        let p = progress(q, c, n - 1);
        let to = found_places(q, c, n);
        let f = progress(q, c, n).found;
        assert forall|i: int| 0 <= i < to.len() implies 0 <= (#[trigger] to[i]) < c.len() && folded(
            c[to[i]],
        ) == folded(q.take(f)[i]) by {
            if i < at.len() {
                assert(to[i] == at[i]);
                assert(q.take(p.found)[i] == q[i]);
            }
        }
        assert forall|i: int, j: int| 0 <= i < j < to.len() implies (#[trigger] to[i]) < (
        #[trigger] to[j]) by {
            assert(to[i] == at[i]);
            if j < at.len() {
                assert(to[j] == at[j]);
            }
        }
    }
}

/// A candidate has a score exactly when the query is a subsequence of it:
/// taking each character at the first place it can be never misses one.
pub proof fn greedy_finds_every_subsequence(q: Seq<char>, c: Seq<char>)
    ensures
        score_of(q, c) is Some <==> exists|at: Seq<int>| embeds(at, q, c),
{
    lemma_progress(q, c, c.len() as int);
    if score_of(q, c) is Some {
        lemma_found_places(q, c, c.len() as int);
        assert(q.take(q.len() as int) =~= q);
        assert(embeds(found_places(q, c, c.len() as int), q, c));
    }
    if exists|at: Seq<int>| embeds(at, q, c) {
        let at = choose|at: Seq<int>| embeds(at, q, c);
        if q.len() > 0 {
            assert(at[q.len() - 1] < c.len());
        }
        lemma_found_at_least(at, q, c, c.len() as int, q.len() as int);
    }
}

/// Whether two texts are the same but for the case of ASCII letters.
pub open spec fn same_letters(a: Seq<char>, b: Seq<char>) -> bool {
    &&& a.len() == b.len()
    &&& forall|i: int| 0 <= i < a.len() ==> folded(#[trigger] a[i]) == folded(b[i])
}

/// The case of ASCII letters makes no difference to a score, neither in the
/// query nor in the candidate.
pub proof fn score_ignores_case(q: Seq<char>, r: Seq<char>, c: Seq<char>, d: Seq<char>)
    requires
        same_letters(q, r),
        same_letters(c, d),
    ensures
        score_of(q, c) == score_of(r, d),
{
    lemma_same_name(c, d);
    lemma_progress_ignores_case(q, r, c, d, c.len() as int);
}

/// Characters that are the same but for case bound a word, or separate path
/// segments, alike.
proof fn lemma_same_bounds(a: char, b: char)
    requires
        folded(a) == folded(b),
    ensures
        is_separator(a) == is_separator(b),
        is_boundary(a) == is_boundary(b),
{
}

proof fn lemma_same_name(c: Seq<char>, d: Seq<char>)
    requires
        same_letters(c, d),
    ensures
        name_start(c) == name_start(d),
    decreases c.len(),
{
    if c.len() > 0 {
        assert(folded(c[c.len() - 1]) == folded(d[d.len() - 1]));
        lemma_same_bounds(c.last(), d.last());
        assert forall|i: int| 0 <= i < c.drop_last().len() implies folded(
            #[trigger] c.drop_last()[i],
        ) == folded(d.drop_last()[i]) by {
            assert(folded(c[i]) == folded(d[i]));
        }
        lemma_same_name(c.drop_last(), d.drop_last());
    }
}

proof fn lemma_progress_ignores_case(
    q: Seq<char>,
    r: Seq<char>,
    c: Seq<char>,
    d: Seq<char>,
    n: int,
)
    requires
        same_letters(q, r),
        same_letters(c, d),
        name_start(c) == name_start(d),
        0 <= n <= c.len(),
    ensures
        progress(q, c, n) == progress(r, d, n),
    decreases n,
{
    if n > 0 {
        lemma_progress_ignores_case(q, r, c, d, n - 1);
        lemma_progress(q, c, n - 1);
        assert(folded(c[n - 1]) == folded(d[n - 1]));
        if n > 1 {
            assert(folded(c[n - 2]) == folded(d[n - 2]));
            lemma_same_bounds(c[n - 2], d[n - 2]);
        }
    }
}

/// Of two items that match, one ranks before the other: the order of a ranking
/// leaves nothing open.
pub proof fn ranking_is_total(items: Seq<FileItem>, q: Seq<char>, a: int, b: int)
    requires
        a != b,
    ensures
        ranks_before(items, q, a, b) != ranks_before(items, q, b, a),
{
    lemma_ranks_before(items, q);
}

/// What the characters found at some rising places of a path are worth together:
/// one point each; ten more at the start of the path or behind a separator, an
/// underscore, a hyphen, a dot or a space; three more within the file name; five
/// more right behind the character before, or three less for each character that
/// was skipped since.
pub open spec fn points_for(c: Seq<char>, at: Seq<int>) -> int
    decreases at.len(),
{
    if at.len() == 0 {
        0
    } else {
        let i = at.last();
        let starts = i == 0 || c[i - 1] == '/' || c[i - 1] == '\\' || c[i - 1] == '_' || c[i - 1]
            == '-' || c[i - 1] == '.' || c[i - 1] == ' ';
        let in_name = forall|k: int| i <= k < c.len() ==> c[k] != '/' && c[k] != '\\';
        points_for(c, at.drop_last()) + 1 + (if starts {
            10int
        } else {
            0
        }) + (if in_name {
            3int
        } else {
            0
        }) + if at.len() == 1 {
            0
        } else if at[at.len() - 2] + 1 == i {
            5
        } else {
            -3 * (i - at[at.len() - 2] - 1)
        }
    }
}

/// Whether the places are the first ones at which the query's characters can be
/// found in order: none of them could be found earlier, behind the one before.
pub open spec fn leftmost(at: Seq<int>, q: Seq<char>, c: Seq<char>) -> bool {
    forall|i: int, k: int|
        #![trigger at[i], c[k]]
        0 <= i < at.len() && (if i == 0 {
            0
        } else {
            at[i - 1] + 1
        }) <= k < at[i] ==> !crate::pane::same_letter(c[k], q[i])
}

proof fn lemma_name_start(c: Seq<char>)
    ensures
        0 <= name_start(c) <= c.len(),
        forall|k: int| name_start(c) <= k < c.len() ==> !is_separator(#[trigger] c[k]),
        name_start(c) > 0 ==> is_separator(c[name_start(c) - 1]),
    decreases c.len(),
{
    if c.len() > 0 && !is_separator(c.last()) {
        lemma_name_start(c.drop_last());
        assert forall|k: int| name_start(c) <= k < c.len() implies !is_separator(
            #[trigger] c[k],
        ) by {
            if k < c.len() - 1 {
                assert(c.drop_last()[k] == c[k]);
            }
        }
    }
}

/// The greedy match among the first `n` characters has found as many places as
/// lie before `n`.
#[verifier::spinoff_prover]
proof fn lemma_points(q: Seq<char>, c: Seq<char>, at: Seq<int>, n: int, f: int)
    requires
        embeds(at, q, c),
        leftmost(at, q, c),
        0 <= n <= c.len(),
        0 <= f <= at.len(),
        f > 0 ==> at[f - 1] < n,
        f < at.len() ==> at[f] >= n,
    ensures
        progress(q, c, n).found == f,
        progress(q, c, n).score == points_for(c, at.take(f)),
        progress(q, c, n).last == (if f == 0 {
            None
        } else {
            Some(at[f - 1])
        }),
    decreases n,
{
    if n == 0 {
        if f > 0 {
            assert(0 <= at[f - 1]);
        }
    } else if f > 0 && at[f - 1] == n - 1 {
        let i = n - 1;
        if f > 1 {
            assert(at[f - 2] < at[f - 1]);
        }
        lemma_points(q, c, at, n - 1, f - 1);
        assert(folded(c[at[f - 1]]) == folded(q[f - 1]));
        lemma_name_start(c);
        let here = at.take(f);
        assert(here.drop_last() =~= at.take(f - 1));
        assert(here.last() == i);
        assert((forall|k: int| i <= k < c.len() ==> c[k] != '/' && c[k] != '\\') <==> i
            >= name_start(c)) by {
            if i >= name_start(c) {
                assert forall|k: int| i <= k < c.len() implies c[k] != '/' && c[k] != '\\' by {
                    assert(!is_separator(c[k]));
                }
            } else {
                assert(is_separator(c[name_start(c) - 1]));
            }
        }
    } else {
        lemma_points(q, c, at, n - 1, f);
        if f < q.len() {
            assert(at[f] >= n);
            let low = if f == 0 {
                0
            } else {
                at[f - 1] + 1
            };
            assert(low <= n - 1);
            assert(!crate::pane::same_letter(c[n - 1], q[f]));
            crate::pane::lemma_folded(c[n - 1], q[f]);
        }
    }
}

/// A query that is found scores what its characters are worth at the first places
/// where they can be found, and an empty query scores nothing.
pub proof fn score_adds_up_the_points(q: Seq<char>, c: Seq<char>, at: Seq<int>)
    requires
        embeds(at, q, c),
        leftmost(at, q, c),
    ensures
        score_of(q, c) == Some(points_for(c, at)),
        score_of(Seq::empty(), c) == Some(0int),
{
    if at.len() > 0 {
        assert(0 <= at[at.len() - 1] < c.len());
    }
    lemma_points(q, c, at, c.len() as int, at.len() as int);
    assert(at.take(at.len() as int) =~= at);
    lemma_points(Seq::empty(), c, Seq::empty(), c.len() as int, 0);
    assert(Seq::<int>::empty().take(0) =~= Seq::empty());
}

/// What is found is found whatever the case of its ASCII letters: the characters
/// of a query stand at its places, but for case.
pub proof fn found_letters_are_the_same(at: Seq<int>, q: Seq<char>, c: Seq<char>, i: int)
    requires
        at.len() == q.len(),
        0 <= i < at.len(),
        0 <= at[i] < c.len(),
    ensures
        embeds(at, q, c) ==> crate::pane::same_letter(c[at[i]], q[i]),
        !crate::pane::same_letter(c[at[i]], q[i]) ==> !embeds(at, q, c),
{
    crate::pane::lemma_folded(c[at[i]], q[i]);
}

/// The better score ranks first; of two files with one score the one with the
/// shorter path, in bytes, and of two as long the first in the alphabet.
pub proof fn better_scores_rank_first(items: Seq<FileItem>, q: Seq<char>, a: int, b: int)
    requires
        score_of(q, items[a].display@) is Some,
        score_of(q, items[b].display@) is Some,
        encode_utf8(items[a].display@).len() <= usize::MAX,
        encode_utf8(items[b].display@).len() <= usize::MAX,
    ensures
        ({
            let x = items[a].display@;
            let y = items[b].display@;
            let s = score_of(q, x)->0;
            let r = score_of(q, y)->0;
            let m = encode_utf8(x).len();
            let n = encode_utf8(y).len();
            &&& s > r ==> ranks_before(items, q, a, b) && !ranks_before(items, q, b, a)
            &&& s == r && m < n ==> ranks_before(items, q, a, b) && !ranks_before(items, q, b, a)
            &&& s == r && m == n && lex_less(x, y) ==> ranks_before(items, q, a, b)
                && !ranks_before(items, q, b, a)
            &&& x == y && a < b ==> ranks_before(items, q, a, b) && !ranks_before(items, q, b, a)
        }),
{
    let x = items[a].display@;
    let y = items[b].display@;
    lemma_lex_total(x, y);
    lemma_lex_total(y, x);
}

/// A snapshot holds ten thousand files at most.
pub proof fn snapshots_are_bounded()
    ensures
        MAX_FILES == 10_000,
{
}

} // verus!
