//! Buffer-word autocomplete: suggest identifier-like words already present in
//! the focused buffer that share the prefix at the cursor.
//!
//! No language server and no index — the candidate list is gathered by scanning
//! the buffer's lines on demand. Candidates come only from the focused buffer
//! and are ranked by proximity to the cursor, then frequency.
use crate::buffer::{line_content, Buffer};
use crate::motion::{word_begin, word_end};
use crate::order::{lemma_insert_ordered, lemma_lex_total, lemma_lex_transitive, lex_less};
use crate::order::{lexically_less, ordered};
use crate::rope::{line_start, line_total};
use crate::text::{chars_of, same_chars, string_of, texts};
use vstd::prelude::*;

verus! {

/// Whether `c` is an ASCII letter.
pub open spec fn ascii_letter(c: char) -> bool {
    ('a' <= c && c <= 'z') || ('A' <= c && c <= 'Z')
}

/// Whether `c` is an ASCII digit.
pub open spec fn ascii_digit(c: char) -> bool {
    '0' <= c && c <= '9'
}

/// Whether `c` is part of a word: a letter, a digit or an underscore.
pub open spec fn word_char(c: char) -> bool {
    c == '_' || ascii_letter(c) || ascii_digit(c)
}

/// Whether a word that counts may begin with `c`: a letter or an underscore.
pub open spec fn word_start(c: char) -> bool {
    c == '_' || ascii_letter(c)
}

/// Is `ch` part of an identifier token (`[A-Za-z0-9_]`)? Shared with cursor
/// word-movement so "what counts as a word" stays consistent.
pub fn is_word_char(ch: char) -> (r: bool)
    ensures
        r == word_char(ch),
{
    ch == '_' || ('a' <= ch && ch <= 'z') || ('A' <= ch && ch <= 'Z') || ('0' <= ch && ch <= '9')
}

/// May `ch` start an identifier token (`[A-Za-z_]`)? Digits cannot, so a run
/// like `123abc` is not treated as an identifier.
pub fn is_word_start(ch: char) -> (r: bool)
    ensures
        r == word_start(ch),
{
    ch == '_' || ('a' <= ch && ch <= 'z') || ('A' <= ch && ch <= 'Z')
}

/// Upper bound on candidates gathered and rows the popup shows. Keeps the scan
/// result and the overlay both bounded on large buffers / long lists.
pub const MAX_CANDIDATES: usize = 10;

/// The word that starts at column `i`.
pub open spec fn word_at(content: Seq<char>, i: int) -> Seq<char> {
    content.subrange(i, word_end(content, i))
}

/// Whether the text `s` begins with `prefix`.
pub open spec fn begins_with(s: Seq<char>, prefix: Seq<char>) -> bool {
    prefix.len() <= s.len() && s.take(prefix.len() as int) == prefix
}

/// Whether a word that can complete `prefix` starts at column `i` of a line:
/// the start of an identifier, not the one being typed at `exclude`, that goes
/// on after the prefix.
pub open spec fn completes(
    content: Seq<char>,
    line: int,
    i: int,
    prefix: Seq<char>,
    exclude: (usize, usize),
) -> bool {
    &&& 0 <= i < content.len()
    &&& word_start(content[i])
    &&& i == 0 || !word_char(content[i - 1])
    &&& !(line == exclude.0 && i == exclude.1)
    &&& word_at(content, i) != prefix
    &&& begins_with(word_at(content, i), prefix)
}

/// A word that can complete a prefix, and the line it stands on.
#[verifier::ext_equal]
pub struct Hit {
    pub line: int,
    pub word: Seq<char>,
}

/// The words of one line that start before column `n` and can complete the
/// prefix.
pub open spec fn line_hits(
    content: Seq<char>,
    line: int,
    prefix: Seq<char>,
    exclude: (usize, usize),
    n: int,
) -> Seq<Hit>
    decreases n,
{
    if n <= 0 {
        Seq::empty()
    } else {
        let rest = line_hits(content, line, prefix, exclude, n - 1);
        if completes(content, line, n - 1, prefix, exclude) {
            rest.push(Hit { line, word: word_at(content, n - 1) })
        } else {
            rest
        }
    }
}

/// The words in the first `lines` lines that can complete the prefix.
pub open spec fn hits_in(
    t: Seq<char>,
    prefix: Seq<char>,
    exclude: (usize, usize),
    lines: int,
) -> Seq<Hit>
    decreases lines,
{
    if lines <= 0 {
        Seq::empty()
    } else {
        let content = line_content(t, lines - 1);
        hits_in(t, prefix, exclude, lines - 1) + line_hits(
            content,
            lines - 1,
            prefix,
            exclude,
            content.len() as int,
        )
    }
}

/// Every occurrence of a word that can complete the prefix; none for an empty
/// prefix.
pub open spec fn all_hits(t: Seq<char>, prefix: Seq<char>, exclude: (usize, usize)) -> Seq<Hit> {
    if prefix.len() == 0 {
        Seq::empty()
    } else {
        hits_in(t, prefix, exclude, line_total(t) as int)
    }
}

/// How often a word occurs.
pub open spec fn count_of(hits: Seq<Hit>, word: Seq<char>) -> nat
    decreases hits.len(),
{
    if hits.len() == 0 {
        0
    } else {
        count_of(hits.drop_last(), word) + if hits.last().word == word {
            1nat
        } else {
            0nat
        }
    }
}

/// The distance of two line numbers.
pub open spec fn apart_by(a: int, b: int) -> int {
    if a >= b {
        a - b
    } else {
        b - a
    }
}

/// How near to line `from` a word occurs; the largest number if it does not.
pub open spec fn nearest(hits: Seq<Hit>, from: int, word: Seq<char>) -> int
    decreases hits.len(),
{
    if hits.len() == 0 {
        usize::MAX as int
    } else {
        let rest = nearest(hits.drop_last(), from, word);
        let here = apart_by(hits.last().line, from);
        if hits.last().word == word && here < rest {
            here
        } else {
            rest
        }
    }
}

/// Whether `a` is the better candidate: it occurs nearer, or as near and more
/// often, or as near and as often and comes first in the alphabet.
pub open spec fn better(hits: Seq<Hit>, from: int, a: Seq<char>, b: Seq<char>) -> bool {
    ||| nearest(hits, from, a) < nearest(hits, from, b)
    ||| nearest(hits, from, a) == nearest(hits, from, b) && count_of(hits, a) > count_of(hits, b)
    ||| nearest(hits, from, a) == nearest(hits, from, b) && count_of(hits, a) == count_of(hits, b)
        && lex_less(a, b)
}

/// Whether `r` is the list of candidates: different words that occur, the
/// better ones first, and all of them but for those past the bound, which are
/// worse than every one in the list.
pub open spec fn is_candidates(hits: Seq<Hit>, from: int, r: Seq<Seq<char>>) -> bool {
    &&& r.len() <= MAX_CANDIDATES
    &&& forall|i: int| 0 <= i < r.len() ==> count_of(hits, #[trigger] r[i]) > 0
    &&& forall|i: int, j: int|
        0 <= i < j < r.len() ==> better(hits, from, #[trigger] r[i], #[trigger] r[j])
    &&& forall|w: Seq<char>|
        #[trigger] count_of(hits, w) > 0 && !r.contains(w) ==> r.len() == MAX_CANDIDATES && forall|
            i: int,
        |
            0 <= i < r.len() ==> better(hits, from, #[trigger] r[i], w)
}

/// The identifier prefix before a position and the column where it starts.
pub open spec fn prefix_before(content: Seq<char>, col: int) -> Option<(Seq<char>, int)> {
    let end = if col <= content.len() {
        col
    } else {
        content.len() as int
    };
    let start = word_begin(content, end);
    if start == end || !word_start(content[start]) {
        None
    } else {
        Some((content.subrange(start, end), start))
    }
}

/// The identifier prefix immediately before `cursor` and the `(line, col)` where
/// it starts, or `None` when there is no word char before the cursor or the run
/// is not a valid identifier (it begins with a digit). `col` counts characters.
pub fn prefix_at(buffer: &Buffer, cursor: (usize, usize)) -> (r: Option<(String, (usize, usize))>)
    ensures
        match r {
            Some((prefix, start)) => {
                &&& prefix_before(line_content(buffer@.text, cursor.0 as int), cursor.1 as int)
                    == Some((prefix@, start.1 as int))
                &&& start.0 == cursor.0
                &&& prefix@.len() > 0
            },
            None => prefix_before(
                line_content(buffer@.text, cursor.0 as int),
                cursor.1 as int,
            ) is None,
        },
{
    let (line, col) = cursor;
    let chars = chars_of(buffer.line_text(line).as_str());
    let end: usize = if col <= chars.len() {
        col
    } else {
        chars.len()
    };
    let mut start: usize = end;
    while start > 0 && is_word_char(chars[start - 1])
        invariant
            start <= end <= chars@.len(),
            word_begin(chars@, end as int) == word_begin(chars@, start as int),
        decreases start,
    {
        start -= 1;
    }
    if start == end || !is_word_start(chars[start]) {
        return None;
    }
    Some((string_of(&chars, start, end), (line, start)))
}

/// What is known of one word: where it stands nearest and how often it occurs.
struct Stat {
    word: Vec<char>,
    dist: usize,
    count: usize,
}

spec fn stat_words(stats: Seq<Stat>) -> Seq<Seq<char>> {
    stats.map_values(|s: Stat| s.word@)
}

/// Whether the statistics are those of the hits: one entry for each word.
spec fn is_stats(stats: Seq<Stat>, hits: Seq<Hit>, from: int) -> bool {
    &&& forall|i: int|
        0 <= i < stats.len() ==> {
            &&& (#[trigger] stats[i]).dist == nearest(hits, from, stats[i].word@)
            &&& stats[i].count == count_of(hits, stats[i].word@)
            &&& stats[i].count > 0
        }
    &&& forall|i: int, j: int|
        0 <= i < j < stats.len() ==> (#[trigger] stats[i]).word@ != (#[trigger] stats[j]).word@
    &&& forall|w: Seq<char>| #[trigger] count_of(hits, w) > 0 ==> stat_words(stats).contains(w)
}

proof fn lemma_count_at_most(hits: Seq<Hit>, word: Seq<char>)
    ensures
        count_of(hits, word) <= hits.len(),
    decreases hits.len(),
{
    if hits.len() > 0 {
        lemma_count_at_most(hits.drop_last(), word);
    }
}

proof fn lemma_line_hits_len(
    content: Seq<char>,
    line: int,
    prefix: Seq<char>,
    exclude: (usize, usize),
    n: int,
)
    requires
        0 <= n,
    ensures
        line_hits(content, line, prefix, exclude, n).len() <= n,
    decreases n,
{
    if n > 0 {
        lemma_line_hits_len(content, line, prefix, exclude, n - 1);
    }
}

proof fn lemma_hits_len(t: Seq<char>, prefix: Seq<char>, exclude: (usize, usize), lines: int)
    requires
        0 <= lines <= line_total(t),
    ensures
        hits_in(t, prefix, exclude, lines).len() <= line_start(t, lines) <= t.len(),
    decreases lines,
{
    if lines > 0 {
        lemma_hits_len(t, prefix, exclude, lines - 1);
        let content = line_content(t, lines - 1);
        lemma_line_hits_len(content, lines - 1, prefix, exclude, content.len() as int);
        crate::rope::lemma_line_bounds(t, lines - 1);
        crate::text::lemma_trim_line_end_prefix(crate::rope::line_with_break(t, lines - 1));
    } else {
        crate::rope::lemma_seek_line(t, lines, 0);
    }
}

/// Takes one occurrence of a word into the statistics.
fn note_hit(
    stats: &mut Vec<Stat>,
    word: Vec<char>,
    dist: usize,
    hits: Ghost<Seq<Hit>>,
    from: Ghost<int>,
    hit: Ghost<Hit>,
)
    requires
        is_stats(old(stats)@, hits@, from@),
        hits@.len() < usize::MAX,
        hit@.word == word@,
        dist == apart_by(hit@.line, from@),
    ensures
        is_stats(final(stats)@, hits@.push(hit@), from@),
{
    let ghost more = hits@.push(hit@);
    let ghost before = stats@;
    proof {
        assert(more.drop_last() =~= hits@);
        lemma_count_at_most(hits@, word@);
    }
    let mut i: usize = 0;
    while i < stats.len() && !same_chars(&stats[i].word, &word)
        invariant
            i <= stats@.len(),
            stats@ == before,
            forall|k: int| 0 <= k < i ==> (#[trigger] before[k]).word@ != word@,
        decreases stats@.len() - i,
    {
        i += 1;
    }
    if i < stats.len() {
        let mut entry = stats.remove(i);
        assert(entry.word@ == before[i as int].word@);
        if dist < entry.dist {
            entry.dist = dist;
        }
        entry.count += 1;
        stats.insert(i, entry);
        proof {
            assert(stats@ =~= before.update(i as int, entry));
            assert(stat_words(stats@) =~= stat_words(before));
            assert forall|k: int| 0 <= k < stats@.len() implies {
                &&& (#[trigger] stats@[k]).dist == nearest(more, from@, stats@[k].word@)
                &&& stats@[k].count == count_of(more, stats@[k].word@)
                &&& stats@[k].count > 0
            } by {
                if k != i {
                    assert(stats@[k] == before[k]);
                    assert(before[k].word@ != before[i as int].word@) by {
                        if k < i {
                        } else {
                        }
                    }
                }
            }
            assert forall|a: int, b: int| 0 <= a < b < stats@.len() implies (
            #[trigger] stats@[a]).word@ != (#[trigger] stats@[b]).word@ by {
                assert(stats@[a].word@ == before[a].word@);
                assert(stats@[b].word@ == before[b].word@);
            }
            assert forall|w: Seq<char>| #[trigger] count_of(more, w) > 0 implies stat_words(
                stats@,
            ).contains(w) by {
                if w == word@ {
                    assert(stat_words(stats@)[i as int] == w);
                } else {
                    assert(count_of(hits@, w) > 0);
                }
            }
        }
    } else {
        let entry = Stat { word, dist, count: 1 };
        proof {
            assert(count_of(hits@, entry.word@) == 0) by {
                if count_of(hits@, entry.word@) > 0 {
                    assert(stat_words(before).contains(entry.word@));
                    let k = choose|k: int|
                        0 <= k < stat_words(before).len() && stat_words(before)[k] == entry.word@;
                    assert(before[k].word@ == entry.word@);
                }
            }
            lemma_nearest_of_none(hits@, from@, entry.word@);
        }
        stats.push(entry);
        proof {
            assert(stat_words(stats@) =~= stat_words(before).push(entry.word@));
            assert forall|k: int| 0 <= k < stats@.len() implies {
                &&& (#[trigger] stats@[k]).dist == nearest(more, from@, stats@[k].word@)
                &&& stats@[k].count == count_of(more, stats@[k].word@)
                &&& stats@[k].count > 0
            } by {
                if k < before.len() {
                    assert(stats@[k] == before[k]);
                    assert(before[k].word@ != entry.word@);
                }
            }
            assert forall|a: int, b: int| 0 <= a < b < stats@.len() implies (
            #[trigger] stats@[a]).word@ != (#[trigger] stats@[b]).word@ by {
                assert(stats@[a] == before[a]);
                if b < before.len() {
                    assert(stats@[b] == before[b]);
                } else {
                    assert(before[a].word@ != entry.word@);
                }
            }
            assert forall|w: Seq<char>| #[trigger] count_of(more, w) > 0 implies stat_words(
                stats@,
            ).contains(w) by {
                if w == entry.word@ {
                    assert(stat_words(stats@)[before.len() as int] == w);
                } else {
                    assert(count_of(hits@, w) > 0);
                    let k = choose|k: int|
                        0 <= k < stat_words(before).len() && stat_words(before)[k] == w;
                    assert(stat_words(stats@)[k] == w);
                }
            }
        }
    }
}

proof fn lemma_nearest_of_none(hits: Seq<Hit>, from: int, word: Seq<char>)
    requires
        count_of(hits, word) == 0,
    ensures
        nearest(hits, from, word) == usize::MAX,
    decreases hits.len(),
{
    if hits.len() > 0 {
        lemma_nearest_of_none(hits.drop_last(), from, word);
    }
}

/// The statistics of all the words in the buffer that can complete the prefix.
fn gather_stats(
    buffer: &Buffer,
    prefix: &Vec<char>,
    exclude: (usize, usize),
    from: usize,
) -> (r: Vec<Stat>)
    requires
        buffer.wf(),
    ensures
        is_stats(
            r@,
            hits_in(buffer@.text, prefix@, exclude, line_total(buffer@.text) as int),
            from as int,
        ),
{
    let ghost t = buffer@.text;
    let mut stats: Vec<Stat> = Vec::new();
    let lines: usize = buffer.line_count();
    let mut line: usize = 0;
    while line < lines
        invariant
            t == buffer@.text,
            t.len() <= usize::MAX,
            line <= lines == line_total(t),
            is_stats(stats@, hits_in(t, prefix@, exclude, line as int), from as int),
        decreases lines - line,
    {
        let chars = chars_of(buffer.line_text(line).as_str());
        let ghost base = hits_in(t, prefix@, exclude, line as int);
        let mut i: usize = 0;
        proof {
            lemma_hits_len(t, prefix@, exclude, line as int);
            crate::rope::lemma_line_bounds(t, line as int);
            crate::text::lemma_trim_line_end_prefix(crate::rope::line_with_break(t, line as int));
            assert(base + line_hits(chars@, line as int, prefix@, exclude, 0) =~= base);
        }
        while i < chars.len()
            invariant
                t.len() <= usize::MAX,
                i <= chars@.len(),
                base.len() + chars@.len() <= t.len(),
                is_stats(
                    stats@,
                    base + line_hits(chars@, line as int, prefix@, exclude, i as int),
                    from as int,
                ),
            decreases chars@.len() - i,
        {
            let ghost found = line_hits(chars@, line as int, prefix@, exclude, i as int);
            proof {
                lemma_line_hits_len(chars@, line as int, prefix@, exclude, i as int);
            }
            if is_word_start(chars[i]) && (i == 0 || !is_word_char(chars[i - 1])) && !(line
                == exclude.0 && i == exclude.1) {
                let word = word_from(&chars, i);
                if !same_chars(&word, prefix) && has_prefix(&word, prefix) {
                    let dist: usize = if line >= from {
                        line - from
                    } else {
                        from - line
                    };
                    let ghost hit = Hit { line: line as int, word: word@ };
                    assert(base + found.push(hit) =~= (base + found).push(hit));
                    note_hit(
                        &mut stats,
                        word,
                        dist,
                        Ghost(base + found),
                        Ghost(from as int),
                        Ghost(hit),
                    );
                }
            }
            i += 1;
        }
        line += 1;
    }
    stats
}

fn word_from(chars: &Vec<char>, start: usize) -> (r: Vec<char>)
    requires
        start < chars@.len(),
    ensures
        r@ == word_at(chars@, start as int),
{
    let mut word: Vec<char> = Vec::new();
    let mut j: usize = start;
    while j < chars.len() && is_word_char(chars[j])
        invariant
            start <= j <= chars@.len(),
            word@ == chars@.subrange(start as int, j as int),
            word_end(chars@, start as int) == word_end(chars@, j as int),
        decreases chars@.len() - j,
    {
        word.push(chars[j]);
        j += 1;
        assert(word@ =~= chars@.subrange(start as int, j as int));
    }
    word
}

/// Whether a word begins with a prefix.
pub(crate) fn has_prefix(word: &Vec<char>, prefix: &Vec<char>) -> (r: bool)
    ensures
        r == begins_with(word@, prefix@),
{
    if prefix.len() > word.len() {
        return false;
    }
    let mut i: usize = 0;
    while i < prefix.len()
        invariant
            i <= prefix@.len() <= word@.len(),
            forall|k: int| 0 <= k < i ==> word@[k] == prefix@[k],
        decreases prefix@.len() - i,
    {
        if word[i] != prefix[i] {
            assert(word@.take(prefix@.len() as int)[i as int] != prefix@[i as int]);
            return false;
        }
        i += 1;
    }
    assert(word@.take(prefix@.len() as int) =~= prefix@);
    true
}

proof fn lemma_better(hits: Seq<Hit>, from: int)
    ensures
        forall|a: Seq<char>, b: Seq<char>|
            a != b ==> #[trigger] better(hits, from, a, b) != better(hits, from, b, a),
        forall|a: Seq<char>, b: Seq<char>, c: Seq<char>|
            #![trigger better(hits, from, a, b), better(hits, from, b, c)]
            better(hits, from, a, b) && better(hits, from, b, c) ==> better(hits, from, a, c),
{
    assert forall|a: Seq<char>, b: Seq<char>| a != b implies #[trigger] better(hits, from, a, b)
        != better(hits, from, b, a) by {
        lemma_lex_total(a, b);
    }
    assert forall|a: Seq<char>, b: Seq<char>, c: Seq<char>|
        #![trigger better(hits, from, a, b), better(hits, from, b, c)]
        better(hits, from, a, b) && better(hits, from, b, c) implies better(hits, from, a, c) by {
        if lex_less(a, b) && lex_less(b, c) {
            lemma_lex_transitive(a, b, c);
        }
    }
}

fn stat_before(a: &Stat, b: &Stat, hits: Ghost<Seq<Hit>>, from: Ghost<int>) -> (r: bool)
    requires
        a.dist == nearest(hits@, from@, a.word@),
        b.dist == nearest(hits@, from@, b.word@),
        a.count == count_of(hits@, a.word@),
        b.count == count_of(hits@, b.word@),
    ensures
        r == better(hits@, from@, a.word@, b.word@),
{
    if a.dist != b.dist {
        return a.dist < b.dist;
    }
    if a.count != b.count {
        return a.count > b.count;
    }
    lexically_less(&a.word, &b.word)
}

/// Whether `x` is one of the entries from `k` on.
spec fn among(all: Seq<Stat>, k: int, x: Stat) -> bool {
    exists|m: int| k <= m < all.len() && #[trigger] all[m] == x
}

/// The statistics with the better words first.
fn rank_stats(stats: Vec<Stat>, hits: Ghost<Seq<Hit>>, from: Ghost<int>) -> (r: Vec<Stat>)
    requires
        is_stats(stats@, hits@, from@),
    ensures
        is_stats(r@, hits@, from@),
        ordered(stat_words(r@), |a: Seq<char>, b: Seq<char>| better(hits@, from@, a, b)),
{
    let ghost less = |a: Seq<char>, b: Seq<char>| better(hits@, from@, a, b);
    let ghost all = stats@;
    let mut rest = stats;
    let mut out: Vec<Stat> = Vec::new();
    let ghost mut left = rest@.len();
    while rest.len() > 0
        invariant
            less == (|a: Seq<char>, b: Seq<char>| better(hits@, from@, a, b)),
            is_stats(all, hits@, from@),
            rest@.len() == left,
            left <= all.len(),
            rest@ == all.take(left as int),
            ordered(stat_words(out@), less),
            forall|i: int| 0 <= i < out@.len() ==> among(all, left as int, #[trigger] out@[i]),
            forall|k: int|
                left <= k < all.len() ==> stat_words(out@).contains((#[trigger] all[k]).word@),
        decreases rest@.len(),
    {
        let new = rest.pop().unwrap();
        let ghost before = out@;
        let ghost words = stat_words(before);
        let ghost here = left - 1;
        assert(new == all[here]);
        let mut k: usize = out.len();
        while k > 0 && stat_before(&new, &out[k - 1], hits, from)
            invariant
                k <= out@.len(),
                out@ == before,
                words == stat_words(before),
                new == all[here],
                0 <= here < all.len(),
                is_stats(all, hits@, from@),
                forall|i: int| 0 <= i < before.len() ==> among(all, here + 1, #[trigger] before[i]),
                k < out@.len() ==> better(hits@, from@, new.word@, words[k as int]),
            decreases k,
        {
            k -= 1;
            assert(words[k as int] == out@[k as int].word@);
            proof {
                if k > 0 {
                    assert(among(all, here + 1, before[k - 1]));
                }
            }
        }
        proof {
            lemma_better(hits@, from@);
            if k > 0 {
                assert(among(all, here + 1, before[k - 1]));
                let m = choose|m: int|
                    here + 1 <= m < all.len() && #[trigger] all[m] == before[k - 1];
                assert(all[here].word@ != all[m].word@);
                assert(words[k - 1] == before[k - 1].word@);
                assert(less(words[k - 1], new.word@));
            }
            lemma_insert_ordered(words, k as int, new.word@, less);
        }
        out.insert(k, new);
        proof {
            left = (left - 1) as nat;
            assert(rest@ =~= all.take(left as int));
            assert(stat_words(out@) =~= words.insert(k as int, new.word@));
            assert forall|i: int| 0 <= i < out@.len() implies among(
                all,
                left as int,
                #[trigger] out@[i],
            ) by {
                if i == k {
                    assert(all[here] == out@[i]);
                } else {
                    let old_i = if i < k {
                        i
                    } else {
                        i - 1
                    };
                    assert(out@[i] == before[old_i]);
                    assert(among(all, here + 1, before[old_i]));
                    let m = choose|m: int|
                        here + 1 <= m < all.len() && #[trigger] all[m] == before[old_i];
                    assert(all[m] == out@[i]);
                }
            }
            assert forall|m: int| left <= m < all.len() implies stat_words(out@).contains(
                (#[trigger] all[m]).word@,
            ) by {
                let w = stat_words(out@);
                if m == here {
                    assert(w[k as int] == all[m].word@);
                } else {
                    assert(words.contains(all[m].word@));
                    let i = choose|i: int| 0 <= i < words.len() && words[i] == all[m].word@;
                    if i < k {
                        assert(w[i] == words[i]);
                    } else {
                        assert(w[i + 1] == words[i]);
                    }
                }
            }
        }
    }
    proof {
        let words = stat_words(out@);
        assert forall|i: int| 0 <= i < out@.len() implies {
            &&& (#[trigger] out@[i]).dist == nearest(hits@, from@, out@[i].word@)
            &&& out@[i].count == count_of(hits@, out@[i].word@)
            &&& out@[i].count > 0
        } by {
            assert(among(all, 0, out@[i]));
            let m = choose|m: int| 0 <= m < all.len() && #[trigger] all[m] == out@[i];
            assert(all[m] == out@[i]);
        }
        lemma_better(hits@, from@);
        assert forall|i: int, j: int| 0 <= i < j < out@.len() implies (#[trigger] out@[i]).word@
            != (#[trigger] out@[j]).word@ by {
            assert(less(words[i], words[j]));
            if out@[i].word@ == out@[j].word@ {
                lemma_lex_total(words[i], words[j]);
            }
        }
        assert forall|w: Seq<char>| #[trigger] count_of(hits@, w) > 0 implies words.contains(w) by {
            assert(stat_words(all).contains(w));
            let m = choose|m: int| 0 <= m < stat_words(all).len() && stat_words(all)[m] == w;
            assert(all[m].word@ == w);
        }
    }
    out
}

/// Distinct identifier words in `buffer` that start with `prefix`, excluding the
/// in-progress token at `exclude` and the prefix itself, ranked by nearest line
/// to `cursor_line` then frequency, and bounded to [`MAX_CANDIDATES`].
pub fn candidates(
    buffer: &Buffer,
    prefix: &str,
    exclude: (usize, usize),
    cursor_line: usize,
) -> (r: Vec<String>)
    requires
        buffer.wf(),
    ensures
        is_candidates(
            all_hits(buffer@.text, prefix@, exclude),
            cursor_line as int,
            texts(r@),
        ),
{
    let mut out: Vec<String> = Vec::new();
    let ghost hits = all_hits(buffer@.text, prefix@, exclude);
    let ghost from = cursor_line as int;
    if prefix.is_empty() {
        assert(texts(out@) =~= Seq::empty());
        return out;
    }
    let needle = chars_of(prefix);
    let stats = gather_stats(buffer, &needle, exclude, cursor_line);
    let ranked = rank_stats(stats, Ghost(hits), Ghost(from));
    let ghost words = stat_words(ranked@);
    let mut i: usize = 0;
    while i < ranked.len() && i < MAX_CANDIDATES
        invariant
            i <= ranked@.len(),
            i <= MAX_CANDIDATES,
            words == stat_words(ranked@),
            texts(out@) == words.take(i as int),
        decreases ranked@.len() - i,
    {
        let word = string_of(&ranked[i].word, 0, ranked[i].word.len());
        assert(word@ =~= ranked@[i as int].word@);
        let ghost before = texts(out@);
        out.push(word);
        assert(texts(out@) =~= before.push(word@));
        i += 1;
        assert(texts(out@) =~= words.take(i as int));
    }
    proof {
        let r = texts(out@);
        let less = |a: Seq<char>, b: Seq<char>| better(hits, from, a, b);
        assert(ordered(words, less));
        assert forall|k: int| 0 <= k < r.len() implies count_of(hits, #[trigger] r[k]) > 0 by {
            assert(r[k] == ranked@[k].word@);
        }
        assert forall|j: int, k: int| 0 <= j < k < r.len() implies better(
            hits,
            from,
            #[trigger] r[j],
            #[trigger] r[k],
        ) by {
            assert(less(words[j], words[k]));
        }
        assert forall|w: Seq<char>| #[trigger] count_of(hits, w) > 0 && !r.contains(w) implies r.len()
            == MAX_CANDIDATES && forall|k: int| 0 <= k < r.len() ==> better(
            hits,
            from,
            #[trigger] r[k],
            w,
        ) by {
            let m = choose|m: int| 0 <= m < words.len() && words[m] == w;
            if m < r.len() {
                assert(r[m] == w);
            }
            assert forall|k: int| 0 <= k < r.len() implies better(hits, from, #[trigger] r[k], w) by {
                assert(less(words[k], words[m]));
            }
        }
    }
    out
}

/// An open completion popup: where the word being completed began, the prefix
/// typed so far, the ranked candidate words, and which one is selected.
#[derive(Debug)]
pub struct Completion {
    /// `(line, col)` where the word being completed starts. Accept replaces the
    /// span `[prefix_start, cursor]` with the chosen word.
    pub prefix_start: (usize, usize),
    /// The identifier prefix the candidates were filtered against.
    pub query: String,
    /// Ranked candidate words (proximity, then frequency), bounded.
    pub candidates: Vec<String>,
    /// Index into `candidates` of the highlighted entry.
    pub selected: usize,
}

proof fn lemma_no_candidates(hits: Seq<Hit>, from: int, r: Seq<Seq<char>>)
    requires
        is_candidates(hits, from, r),
    ensures
        r.len() == 0 <==> hits.len() == 0,
{
    if hits.len() > 0 {
        let w = hits.last().word;
        assert(count_of(hits, w) > 0);
    }
    if r.len() > 0 {
        assert(count_of(hits, r[0]) > 0);
    }
}

impl Completion {
    /// The popup shows the candidates for the word before the cursor.
    pub open spec fn shows(self, t: Seq<char>, cursor: (usize, usize)) -> bool {
        let prefix = prefix_before(line_content(t, cursor.0 as int), cursor.1 as int);
        &&& prefix == Some((self.query@, self.prefix_start.1 as int))
        &&& self.prefix_start.0 == cursor.0
        &&& is_candidates(
            all_hits(t, self.query@, self.prefix_start),
            cursor.0 as int,
            texts(self.candidates@),
        )
        &&& self.candidates@.len() > 0
        &&& self.selected == 0
    }

    /// Build a popup for the word immediately before `cursor` in `buffer`, or
    /// `None` when there is no identifier prefix there or nothing else in the
    /// buffer matches it (in which case no popup should open).
    pub fn open(buffer: &Buffer, cursor: (usize, usize)) -> (r: Option<Self>)
        requires
            buffer.wf(),
        ensures
            match (r, prefix_before(
                line_content(buffer@.text, cursor.0 as int),
                cursor.1 as int,
            )) {
                (Some(c), _) => c.shows(buffer@.text, cursor),
                (None, None) => true,
                (None, Some((prefix, col))) => all_hits(
                    buffer@.text,
                    prefix,
                    (cursor.0, col as usize),
                ).len() == 0,
            },
    {
        match prefix_at(buffer, cursor) {
            None => None,
            Some((query, prefix_start)) => {
                let candidates = candidates(buffer, query.as_str(), prefix_start, cursor.0);
                proof {
                    lemma_no_candidates(
                        all_hits(buffer@.text, query@, prefix_start),
                        cursor.0 as int,
                        texts(candidates@),
                    );
                }
                if candidates.len() == 0 {
                    None
                } else {
                    Some(Self { prefix_start, query, candidates, selected: 0 })
                }
            },
        }
    }

    /// Recompute the candidate list after a buffer edit, returning whether the
    /// popup should stay open. Closes (returns `false`) when the cursor has left
    /// the word — moved before `prefix_start`, onto another line, or onto a
    /// non-word boundary — the prefix empties, or nothing matches.
    pub fn requery(&mut self, buffer: &Buffer, cursor: (usize, usize)) -> (r: bool)
        requires
            buffer.wf(),
        ensures
            final(self).prefix_start == old(self).prefix_start,
            if r {
                &&& final(self).shows(buffer@.text, cursor)
                &&& cursor.1 >= old(self).prefix_start.1
            } else {
                &&& *final(self) == *old(self)
                &&& {
                    ||| cursor.0 != old(self).prefix_start.0
                    ||| cursor.1 < old(self).prefix_start.1
                    ||| match prefix_before(
                        line_content(buffer@.text, cursor.0 as int),
                        cursor.1 as int,
                    ) {
                        None => true,
                        Some((prefix, col)) => col != old(self).prefix_start.1 || all_hits(
                            buffer@.text,
                            prefix,
                            old(self).prefix_start,
                        ).len() == 0,
                    }
                }
            },
    {
        if cursor.0 != self.prefix_start.0 || cursor.1 < self.prefix_start.1 {
            return false;
        }
        match prefix_at(buffer, cursor) {
            None => false,
            Some((query, prefix_start)) => {
                if prefix_start.1 != self.prefix_start.1 {
                    return false;
                }
                let candidates = candidates(buffer, query.as_str(), prefix_start, cursor.0);
                proof {
                    lemma_no_candidates(
                        all_hits(buffer@.text, query@, prefix_start),
                        cursor.0 as int,
                        texts(candidates@),
                    );
                }
                if candidates.len() == 0 {
                    return false;
                }
                self.query = query;
                self.candidates = candidates;
                self.selected = 0;
                true
            },
        }
    }

    /// Move the selection to the previous entry, wrapping to the last.
    pub fn move_up(&mut self)
        ensures
            final(self).selected == row_above(
                old(self).selected as int,
                old(self).candidates@.len() as int,
            ),
            final(self).candidates == old(self).candidates,
            final(self).query == old(self).query,
            final(self).prefix_start == old(self).prefix_start,
    {
        if self.candidates.len() == 0 {
            return ;
        }
        let count: usize = self.candidates.len();
        let row: usize = self.selected % count;
        proof {
            lemma_rows(self.selected as int, count as int);
        }
        self.selected = if row == 0 {
            count - 1
        } else {
            row - 1
        };
    }

    /// Move the selection to the next entry, wrapping to the first.
    pub fn move_down(&mut self)
        ensures
            final(self).selected == row_below(
                old(self).selected as int,
                old(self).candidates@.len() as int,
            ),
            final(self).candidates == old(self).candidates,
            final(self).query == old(self).query,
            final(self).prefix_start == old(self).prefix_start,
    {
        if self.candidates.len() == 0 {
            return ;
        }
        let count: usize = self.candidates.len();
        let row: usize = self.selected % count;
        proof {
            lemma_rows(self.selected as int, count as int);
        }
        self.selected = if row == count - 1 {
            0
        } else {
            row + 1
        };
    }

    /// The currently selected candidate word.
    pub fn selected_word(&self) -> (r: Option<&str>)
        ensures
            match r {
                Some(w) => self.selected < self.candidates@.len() && w@
                    == self.candidates@[self.selected as int]@,
                None => self.selected >= self.candidates@.len(),
            },
    {
        if self.selected < self.candidates.len() {
            Some(self.candidates[self.selected].as_str())
        } else {
            None
        }
    }
}

// ---------------------------------------------------------------------------
// Laws.

/// Words are made of ASCII letters, digits and underscores, and one that counts
/// does not begin with a digit.
pub proof fn words_are_identifiers(c: char)
    ensures
        word_char(c) <==> 'a' <= c <= 'z' || 'A' <= c <= 'Z' || '0' <= c <= '9' || c == '_',
        word_start(c) <==> word_char(c) && !('0' <= c <= '9'),
{
}

/// The identifier before a place is the run of word characters that ends there,
/// taken as far back as it goes, if it does not begin with a digit. A place past
/// the end of its line counts as the end.
pub proof fn prefix_is_the_word_before(content: Seq<char>, col: int, s: int)
    requires
        0 <= col,
    ensures
        ({
            let end = if col <= content.len() {
                col
            } else {
                content.len() as int
            };
            let is_prefix = {
                &&& 0 <= s < end
                &&& forall|k: int| s <= k < end ==> word_char(#[trigger] content[k])
                &&& s == 0 || !word_char(content[s - 1])
                &&& !('0' <= content[s] <= '9')
            };
            &&& is_prefix ==> prefix_before(content, col) == Some((content.subrange(s, end), s))
            &&& prefix_before(content, col) matches Some((p, from)) ==> (from == s ==> is_prefix)
        }),
{
    let end = if col <= content.len() {
        col
    } else {
        content.len() as int
    };
    crate::motion::lemma_word_run_left(content, end);
    let b = word_begin(content, end);
    if 0 <= s < end && (forall|k: int| s <= k < end ==> word_char(#[trigger] content[k])) && (s == 0
        || !word_char(content[s - 1])) {
        if b < s {
            assert(word_char(content[s - 1]));
        }
        if s < b {
            assert(!word_char(content[b - 1]));
        }
    }
}

/// Whether `w` stands as a whole word at column `i` of a line: neither what is
/// before it nor what is behind it belongs to the word.
pub open spec fn whole_word(content: Seq<char>, i: int, w: Seq<char>) -> bool {
    &&& 0 <= i
    &&& 0 < w.len()
    &&& i + w.len() <= content.len()
    &&& content.subrange(i, i + w.len()) == w
    &&& forall|k: int| 0 <= k < w.len() ==> word_char(#[trigger] w[k])
    &&& i == 0 || !word_char(content[i - 1])
    &&& i + w.len() == content.len() || !word_char(content[i + w.len()])
}

/// Whether a whole word that goes on after the prefix stands at a place other
/// than the one where the prefix is being typed.
pub open spec fn offers(
    t: Seq<char>,
    prefix: Seq<char>,
    exclude: (usize, usize),
    line: int,
    i: int,
    w: Seq<char>,
) -> bool {
    &&& 0 <= line < line_total(t)
    &&& whole_word(line_content(t, line), i, w)
    &&& !('0' <= w[0] <= '9')
    &&& !(line == exclude.0 && i == exclude.1)
    &&& prefix.len() < w.len()
    &&& forall|k: int| 0 <= k < prefix.len() ==> #[trigger] prefix[k] == w[k]
}

proof fn lemma_completes(
    content: Seq<char>,
    line: int,
    i: int,
    prefix: Seq<char>,
    exclude: (usize, usize),
    w: Seq<char>,
)
    ensures
        completes(content, line, i, prefix, exclude) && word_at(content, i) == w <==> {
            &&& whole_word(content, i, w)
            &&& !('0' <= w[0] <= '9')
            &&& !(line == exclude.0 && i == exclude.1)
            &&& prefix.len() < w.len()
            &&& forall|k: int| 0 <= k < prefix.len() ==> #[trigger] prefix[k] == w[k]
        },
{
    if 0 <= i < content.len() {
        crate::motion::lemma_word_run_right(content, i);
        let e = word_end(content, i);
        if completes(content, line, i, prefix, exclude) && word_at(content, i) == w {
            assert(w.len() == e - i);
            assert(w[0] == content[i]);
            assert forall|k: int| 0 <= k < w.len() implies word_char(#[trigger] w[k]) by {
                assert(w[k] == content[i + k]);
            }
            assert forall|k: int| 0 <= k < prefix.len() implies #[trigger] prefix[k] == w[k] by {
                assert(w.take(prefix.len() as int)[k] == prefix[k]);
            }
            if prefix.len() == w.len() {
                assert(w =~= prefix);
            }
        }
        if whole_word(content, i, w) {
            assert(w[0] == content[i]);
            let end = i + w.len();
            assert(e == end) by {
                if e < end {
                    assert(w[e - i] == content[e]);
                    assert(word_char(w[e - i]));
                }
                if e > end {
                    assert(word_char(content[end]));
                }
            }
            assert(word_at(content, i) =~= w);
            if prefix.len() < w.len() && (forall|k: int|
                0 <= k < prefix.len() ==> #[trigger] prefix[k] == w[k]) {
                assert(w.take(prefix.len() as int) =~= prefix);
            }
        }
    }
}

proof fn lemma_counted_in_line(
    content: Seq<char>,
    line: int,
    prefix: Seq<char>,
    exclude: (usize, usize),
    n: int,
    w: Seq<char>,
)
    ensures
        count_of(line_hits(content, line, prefix, exclude, n), w) > 0 <==> exists|i: int|
            0 <= i < n && #[trigger] completes(content, line, i, prefix, exclude) && word_at(
                content,
                i,
            ) == w,
    decreases n,
{
    if n > 0 {
        lemma_counted_in_line(content, line, prefix, exclude, n - 1, w);
        let rest = line_hits(content, line, prefix, exclude, n - 1);
        let all = line_hits(content, line, prefix, exclude, n);
        if completes(content, line, n - 1, prefix, exclude) {
            assert(all.drop_last() =~= rest);
        }
        if count_of(all, w) > 0 && !(completes(content, line, n - 1, prefix, exclude) && word_at(
            content,
            n - 1,
        ) == w) {
            assert(count_of(rest, w) > 0);
        }
    }
}

proof fn lemma_counted(
    t: Seq<char>,
    prefix: Seq<char>,
    exclude: (usize, usize),
    lines: int,
    w: Seq<char>,
)
    requires
        lines <= line_total(t),
    ensures
        count_of(hits_in(t, prefix, exclude, lines), w) > 0 <==> exists|line: int, i: int|
            line < lines && #[trigger] offers(t, prefix, exclude, line, i, w),
    decreases lines,
{
    if lines > 0 {
        let line = lines - 1;
        let content = line_content(t, line);
        lemma_counted(t, prefix, exclude, line, w);
        let a = hits_in(t, prefix, exclude, line);
        let b = line_hits(content, line, prefix, exclude, content.len() as int);
        lemma_count_of_sum(a, b, w);
        lemma_counted_in_line(content, line, prefix, exclude, content.len() as int, w);
        assert forall|i: int| true implies (#[trigger] completes(content, line, i, prefix, exclude)
            && word_at(content, i) == w) == offers(t, prefix, exclude, line, i, w) by {
            lemma_completes(content, line, i, prefix, exclude, w);
        }
        if count_of(b, w) > 0 {
            let i = choose|i: int|
                0 <= i < content.len() && #[trigger] completes(content, line, i, prefix, exclude)
                    && word_at(content, i) == w;
            assert(offers(t, prefix, exclude, line, i, w));
        }
        if exists|l: int, i: int| l < lines && #[trigger] offers(t, prefix, exclude, l, i, w) {
            let (l, i) = choose|l: int, i: int|
                l < lines && #[trigger] offers(t, prefix, exclude, l, i, w);
            if l == line {
                lemma_completes(content, line, i, prefix, exclude, w);
                assert(completes(content, line, i, prefix, exclude));
            }
        }
    }
}

/// The candidates are words of the buffer that go on after the prefix: every
/// candidate stands somewhere in it as a whole word, not where the prefix is
/// being typed; and every such word is a candidate as long as there are fewer
/// than ten, which is as many as there can be.
pub proof fn candidates_are_words_of_the_buffer(
    t: Seq<char>,
    prefix: Seq<char>,
    exclude: (usize, usize),
    from: int,
    r: Seq<Seq<char>>,
    w: Seq<char>,
)
    requires
        prefix.len() > 0,
        is_candidates(all_hits(t, prefix, exclude), from, r),
    ensures
        r.len() <= 10,
        r.contains(w) ==> exists|line: int, i: int| #[trigger] offers(t, prefix, exclude, line, i, w),
        r.len() < 10 && (exists|line: int, i: int| #[trigger]
            offers(t, prefix, exclude, line, i, w)) ==> r.contains(w),
{
    let hits = all_hits(t, prefix, exclude);
    lemma_counted(t, prefix, exclude, line_total(t) as int, w);
    if r.contains(w) {
        let k = choose|k: int| 0 <= k < r.len() && r[k] == w;
        assert(count_of(hits, r[k]) > 0);
    }
    if exists|line: int, i: int| #[trigger] offers(t, prefix, exclude, line, i, w) {
        let (line, i) = choose|line: int, i: int| #[trigger] offers(t, prefix, exclude, line, i, w);
        assert(line < line_total(t));
        assert(count_of(hits, w) > 0);
    }
}

/// A popup that opens, or is filled anew, offers candidates for the word before
/// the cursor, with the first of them selected.
pub proof fn popups_begin_with_the_first_candidate(
    c: Completion,
    t: Seq<char>,
    cursor: (usize, usize),
)
    requires
        c.shows(t, cursor),
    ensures
        c.candidates@.len() > 0,
        c.selected == 0,
        c.prefix_start.0 == cursor.0,
        c.query@.len() > 0,
        ({
            let content = line_content(t, cursor.0 as int);
            let end = if cursor.1 <= content.len() {
                cursor.1 as int
            } else {
                content.len() as int
            };
            &&& c.prefix_start.1 + c.query@.len() == end
            &&& content.subrange(c.prefix_start.1 as int, end) == c.query@
        }),
{
    let content = line_content(t, cursor.0 as int);
    let end = if cursor.1 <= content.len() {
        cursor.1 as int
    } else {
        content.len() as int
    };
    crate::motion::lemma_word_run_left(content, end);
}

/// Without a prefix nothing is offered.
pub proof fn no_prefix_no_candidates(
    t: Seq<char>,
    exclude: (usize, usize),
    from: int,
    r: Seq<Seq<char>>,
)
    requires
        is_candidates(all_hits(t, Seq::empty(), exclude), from, r),
    ensures
        r.len() == 0,
{
    lemma_no_candidates(all_hits(t, Seq::empty(), exclude), from, r);
}

proof fn lemma_nearest(hits: Seq<Hit>, from: int, w: Seq<char>)
    requires
        forall|k: int|
            0 <= k < hits.len() ==> -(usize::MAX as int) < (#[trigger] hits[k]).line - from
                < usize::MAX,
    ensures
        forall|k: int|
            0 <= k < hits.len() && (#[trigger] hits[k]).word == w ==> nearest(hits, from, w)
                <= hits[k].line - from || nearest(hits, from, w) <= from - hits[k].line,
        count_of(hits, w) > 0 ==> exists|k: int|
            0 <= k < hits.len() && (#[trigger] hits[k]).word == w && (nearest(hits, from, w)
                == hits[k].line - from || nearest(hits, from, w) == from - hits[k].line),
        0 <= nearest(hits, from, w) <= usize::MAX,
    decreases hits.len(),
{
    if hits.len() > 0 {
        let rest = hits.drop_last();
        let n = hits.len() - 1;
        assert forall|k: int| 0 <= k < rest.len() implies -(usize::MAX as int) < (
        #[trigger] rest[k]).line - from < usize::MAX by {
            assert(hits[k] == rest[k]);
        }
        lemma_nearest(rest, from, w);
        assert(hits[n] == hits.last());
        assert forall|k: int| 0 <= k < hits.len() && (#[trigger] hits[k]).word == w implies nearest(
            hits,
            from,
            w,
        ) <= hits[k].line - from || nearest(hits, from, w) <= from - hits[k].line by {
            if k < n {
                assert(rest[k] == hits[k]);
            }
        }
        if count_of(hits, w) > 0 {
            if hits[n].word == w && apart_by(hits[n].line, from) < nearest(rest, from, w) {
            } else if count_of(rest, w) > 0 {
                let k = choose|k: int|
                    0 <= k < rest.len() && (#[trigger] rest[k]).word == w && (nearest(rest, from, w)
                        == rest[k].line - from || nearest(rest, from, w) == from - rest[k].line);
                assert(hits[k] == rest[k]);
            } else {
                lemma_nearest_of_none(rest, from, w);
            }
        }
    }
}

/// How often a word counts is how many of the hits hold it.
proof fn lemma_count_is_filter(hits: Seq<Hit>, w: Seq<char>)
    ensures
        count_of(hits, w) == hits.filter(|h: Hit| h.word == w).len(),
    decreases hits.len(),
{
    reveal(Seq::filter);
    if hits.len() > 0 {
        lemma_count_is_filter(hits.drop_last(), w);
    }
}

/// Of two candidates the one that stands nearer to the cursor's line comes first:
/// for every place of the later word, the earlier one has a place at least as
/// near. Of two that stand as near, the one with more places comes first, and of
/// two with as many, the first in the alphabet.
pub proof fn nearer_words_come_first(
    hits: Seq<Hit>,
    from: int,
    r: Seq<Seq<char>>,
    a: int,
    b: int,
    k: int,
)
    requires
        is_candidates(hits, from, r),
        0 <= a < b < r.len(),
        0 <= k < hits.len(),
        hits[k].word == r[b],
        forall|m: int|
            0 <= m < hits.len() ==> -(usize::MAX as int) < (#[trigger] hits[m]).line - from
                < usize::MAX,
    ensures
        exists|m: int|
            {
                &&& 0 <= m < hits.len()
                &&& (#[trigger] hits[m]).word == r[a]
                &&& hits[m].line - from <= hits[k].line - from || hits[m].line - from <= from
                    - hits[k].line
                &&& from - hits[m].line <= hits[k].line - from || from - hits[m].line <= from
                    - hits[k].line
            },
        (forall|m: int|
            0 <= m < hits.len() && (#[trigger] hits[m]).word == r[a] ==> hits[m].line - from
                >= hits[k].line - from && hits[m].line - from >= from - hits[k].line || from
                - hits[m].line >= hits[k].line - from && from - hits[m].line >= from
                - hits[k].line) ==> {
            let more = hits.filter(|h: Hit| h.word == r[a]).len();
            let less = hits.filter(|h: Hit| h.word == r[b]).len();
            more > less || (more == less && lex_less(r[a], r[b]))
        },
{
    let x = r[a];
    let y = r[b];
    assert(better(hits, from, x, y));
    lemma_nearest(hits, from, x);
    lemma_nearest(hits, from, y);
    lemma_count_is_filter(hits, x);
    lemma_count_is_filter(hits, y);
    assert(count_of(hits, x) > 0);
    let m = choose|m: int|
        0 <= m < hits.len() && (#[trigger] hits[m]).word == x && (nearest(hits, from, x)
            == hits[m].line - from || nearest(hits, from, x) == from - hits[m].line);
    assert(hits[m].word == x);
}

proof fn lemma_line_hits_extend(
    content: Seq<char>,
    line: int,
    prefix: Seq<char>,
    exclude: (usize, usize),
    n: int,
    w: Seq<char>,
)
    requires
        count_of(line_hits(content, line, prefix, exclude, n), w) > 0,
    ensures
        begins_with(w, prefix),
        w != prefix,
    decreases n,
{
    if n > 0 {
        let all = line_hits(content, line, prefix, exclude, n);
        let rest = line_hits(content, line, prefix, exclude, n - 1);
        if completes(content, line, n - 1, prefix, exclude) {
            assert(all.drop_last() =~= rest);
            if word_at(content, n - 1) != w {
                lemma_line_hits_extend(content, line, prefix, exclude, n - 1, w);
            }
        } else {
            lemma_line_hits_extend(content, line, prefix, exclude, n - 1, w);
        }
    }
}

proof fn lemma_count_of_sum(a: Seq<Hit>, b: Seq<Hit>, w: Seq<char>)
    ensures
        count_of(a + b, w) == count_of(a, w) + count_of(b, w),
    decreases b.len(),
{
    if b.len() == 0 {
        assert(a + b =~= a);
    } else {
        assert((a + b).drop_last() =~= a + b.drop_last());
        lemma_count_of_sum(a, b.drop_last(), w);
    }
}

proof fn lemma_hits_extend(
    t: Seq<char>,
    prefix: Seq<char>,
    exclude: (usize, usize),
    lines: int,
    w: Seq<char>,
)
    requires
        count_of(hits_in(t, prefix, exclude, lines), w) > 0,
    ensures
        begins_with(w, prefix),
        w != prefix,
    decreases lines,
{
    if lines > 0 {
        let content = line_content(t, lines - 1);
        let a = hits_in(t, prefix, exclude, lines - 1);
        let b = line_hits(content, lines - 1, prefix, exclude, content.len() as int);
        lemma_count_of_sum(a, b, w);
        if count_of(a, w) > 0 {
            lemma_hits_extend(t, prefix, exclude, lines - 1, w);
        } else {
            lemma_line_hits_extend(
                content,
                lines - 1,
                prefix,
                exclude,
                content.len() as int,
                w,
            );
        }
    }
}

/// Every candidate begins with the prefix and is longer than it, and no
/// candidate is offered twice.
pub proof fn candidates_extend_the_prefix(
    t: Seq<char>,
    prefix: Seq<char>,
    exclude: (usize, usize),
    from: int,
    r: Seq<Seq<char>>,
)
    requires
        is_candidates(all_hits(t, prefix, exclude), from, r),
    ensures
        forall|i: int|
            0 <= i < r.len() ==> begins_with(#[trigger] r[i], prefix) && r[i].len() > prefix.len(),
        forall|i: int, j: int| 0 <= i < j < r.len() ==> #[trigger] r[i] != #[trigger] r[j],
{
    let hits = all_hits(t, prefix, exclude);
    assert forall|i: int| 0 <= i < r.len() implies begins_with(#[trigger] r[i], prefix)
        && r[i].len() > prefix.len() by {
        assert(count_of(hits, r[i]) > 0);
        lemma_hits_extend(t, prefix, exclude, line_total(t) as int, r[i]);
        if r[i].len() == prefix.len() {
            assert(r[i].take(prefix.len() as int) =~= r[i]);
        }
    }
    assert forall|i: int, j: int| 0 <= i < j < r.len() implies #[trigger] r[i] != #[trigger] r[j] by {
        assert(better(hits, from, r[i], r[j]));
        lemma_lex_total(r[i], r[j]);
    }
}

/// The candidates are fixed by the buffer, the prefix and the cursor's line:
/// there is only one such list.
pub proof fn candidates_are_unique(
    hits: Seq<Hit>,
    from: int,
    r: Seq<Seq<char>>,
    s: Seq<Seq<char>>,
)
    requires
        is_candidates(hits, from, r),
        is_candidates(hits, from, s),
    ensures
        r == s,
{
    lemma_better(hits, from);
    let n = if r.len() <= s.len() {
        r.len() as int
    } else {
        s.len() as int
    };
    lemma_same_front(hits, from, r, s, n);
    if r.len() < s.len() {
        assert(!r.contains(s[r.len() as int])) by {
            if r.contains(s[r.len() as int]) {
                let k = choose|k: int| 0 <= k < r.len() && r[k] == s[r.len() as int];
                assert(r[k] == s[k]);
                assert(better(hits, from, s[k], s[r.len() as int]));
                lemma_lex_total(s[k], s[r.len() as int]);
            }
        }
        assert(count_of(hits, s[r.len() as int]) > 0);
    }
    if s.len() < r.len() {
        assert(!s.contains(r[s.len() as int])) by {
            if s.contains(r[s.len() as int]) {
                let k = choose|k: int| 0 <= k < s.len() && s[k] == r[s.len() as int];
                assert(r[k] == s[k]);
                assert(better(hits, from, r[k], r[s.len() as int]));
                lemma_lex_total(r[k], r[s.len() as int]);
            }
        }
        assert(count_of(hits, r[s.len() as int]) > 0);
    }
    assert(r =~= s);
}

proof fn lemma_same_front(
    hits: Seq<Hit>,
    from: int,
    r: Seq<Seq<char>>,
    s: Seq<Seq<char>>,
    n: int,
)
    requires
        is_candidates(hits, from, r),
        is_candidates(hits, from, s),
        0 <= n <= r.len(),
        n <= s.len(),
    ensures
        forall|i: int| 0 <= i < n ==> #[trigger] r[i] == s[i],
    decreases n,
{
    if n > 0 {
        lemma_same_front(hits, from, r, s, n - 1);
        let i = n - 1;
        if r[i] != s[i] {
            lemma_better(hits, from);
            if better(hits, from, r[i], s[i]) {
                lemma_not_worse(hits, from, r, s, i);
            } else {
                lemma_not_worse(hits, from, s, r, i);
            }
        }
    }
}

/// At the first place where two lists of candidates might differ, neither can
/// hold the better word.
proof fn lemma_not_worse(
    hits: Seq<Hit>,
    from: int,
    r: Seq<Seq<char>>,
    s: Seq<Seq<char>>,
    i: int,
)
    requires
        is_candidates(hits, from, r),
        is_candidates(hits, from, s),
        0 <= i < r.len(),
        i < s.len(),
        forall|k: int| 0 <= k < i ==> #[trigger] r[k] == s[k],
        r[i] != s[i],
    ensures
        !better(hits, from, r[i], s[i]),
{
    lemma_better(hits, from);
    if better(hits, from, r[i], s[i]) {
        let w = r[i];
        assert(count_of(hits, w) > 0);
        if s.contains(w) {
            let k = choose|k: int| 0 <= k < s.len() && s[k] == w;
            if k < i {
                assert(r[k] == w);
                assert(better(hits, from, r[k], r[i]));
                lemma_lex_total(w, w);
            } else {
                assert(better(hits, from, s[i], s[k]));
            }
        } else {
            assert(better(hits, from, s[i], w));
        }
    }
}

// ---------------------------------------------------------------------------
// The selection.

/// The row above row `i` of `n` rows; above the first is the last.
pub open spec fn row_above(i: int, n: int) -> int {
    if n == 0 {
        i
    } else {
        (i + n - 1) % n
    }
}

/// The row below row `i` of `n` rows; below the last is the first.
pub open spec fn row_below(i: int, n: int) -> int {
    if n == 0 {
        i
    } else {
        (i + 1) % n
    }
}

/// The rows above and below a row that may lie past the last one.
proof fn lemma_rows(i: int, n: int)
    requires
        0 <= i,
        0 < n,
    ensures
        0 <= i % n < n,
        row_above(i, n) == if i % n == 0 {
            n - 1
        } else {
            i % n - 1
        },
        row_below(i, n) == if i % n == n - 1 {
            0
        } else {
            i % n + 1
        },
{
    let m = i % n;
    vstd::arithmetic::div_mod::lemma_mod_bound(i, n);
    vstd::arithmetic::div_mod::lemma_add_mod_noop(i, 1, n);
    vstd::arithmetic::div_mod::lemma_add_mod_noop(m, 1, n);
    vstd::arithmetic::div_mod::lemma_add_mod_noop(i, n - 1, n);
    vstd::arithmetic::div_mod::lemma_add_mod_noop(m, n - 1, n);
    vstd::arithmetic::div_mod::lemma_mod_twice(i, n);
    crate::pane::lemma_next_wraps(m, n);
    crate::pane::lemma_prev_wraps(m, n);
}

/// Moving the selection up takes back moving it down, and the other way round.
/// It wraps at both ends, and without candidates it stays.
pub proof fn up_and_down_undo_each_other(i: int, n: int)
    requires
        0 <= i,
        n == 0 || i < n,
    ensures
        row_above(row_below(i, n), n) == i,
        row_below(row_above(i, n), n) == i,
        n > 0 ==> row_above(0, n) == n - 1 && row_below(n - 1, n) == 0,
        n == 0 ==> row_above(i, n) == i && row_below(i, n) == i,
{
    if n > 0 {
        crate::pane::next_and_prev_undo_each_other(i, n);
        vstd::arithmetic::div_mod::lemma_small_mod((n - 1) as nat, n as nat);
        vstd::arithmetic::div_mod::lemma_mod_self_0(n);
    }
}

} // verus!
