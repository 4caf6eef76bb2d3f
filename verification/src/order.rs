//! Orders: the lexical order of texts, and lists that are kept in an order.
use vstd::prelude::*;

verus! {

/// Whether `a` comes before `b` in the lexical order by code points.
pub open spec fn lex_less(a: Seq<char>, b: Seq<char>) -> bool
    decreases a.len(),
{
    if b.len() == 0 {
        false
    } else if a.len() == 0 {
        true
    } else {
        a[0] < b[0] || (a[0] == b[0] && lex_less(a.skip(1), b.skip(1)))
    }
}

/// No text comes before itself, and of two different texts one comes first.
pub proof fn lemma_lex_total(a: Seq<char>, b: Seq<char>)
    ensures
        a == b ==> !lex_less(a, b),
        a != b ==> lex_less(a, b) != lex_less(b, a),
    decreases a.len(),
{
    if a.len() > 0 && b.len() > 0 {
        lemma_lex_total(a.skip(1), b.skip(1));
        if a[0] == b[0] && a.skip(1) == b.skip(1) {
            assert(a =~= b) by {
                assert forall|i: int| 0 <= i < a.len() implies a[i] == b[i] by {
                    if i > 0 {
                        assert(a.skip(1)[i - 1] == b.skip(1)[i - 1]);
                    }
                }
                assert(a.skip(1).len() == b.skip(1).len());
            }
        }
    } else if a.len() == 0 && b.len() == 0 {
        assert(a =~= b);
    }
}

pub proof fn lemma_lex_transitive(a: Seq<char>, b: Seq<char>, c: Seq<char>)
    requires
        lex_less(a, b),
        lex_less(b, c),
    ensures
        lex_less(a, c),
    decreases a.len(),
{
    if a.len() > 0 {
        if a[0] == b[0] && b[0] == c[0] {
            lemma_lex_transitive(a.skip(1), b.skip(1), c.skip(1));
        }
    }
}

/// Whether `a` comes before `b` in the lexical order.
pub fn lexically_less(a: &Vec<char>, b: &Vec<char>) -> (r: bool)
    ensures
        r == lex_less(a@, b@),
{
    let mut i: usize = 0;
    assert(a@.skip(0) =~= a@);
    assert(b@.skip(0) =~= b@);
    while i < a.len() && i < b.len()
        invariant
            i <= a@.len(),
            i <= b@.len(),
            lex_less(a@, b@) == lex_less(a@.skip(i as int), b@.skip(i as int)),
        decreases a@.len() - i,
    {
        if a[i] < b[i] {
            return true;
        }
        if a[i] != b[i] {
            return false;
        }
        assert(a@.skip(i as int).skip(1) =~= a@.skip(i + 1));
        assert(b@.skip(i as int).skip(1) =~= b@.skip(i + 1));
        i += 1;
    }
    i < b.len()
}

/// Whether a list is in the order `less`: every item comes before every later
/// one.
pub open spec fn ordered<T>(s: Seq<T>, less: spec_fn(T, T) -> bool) -> bool {
    forall|i: int, j: int|
        0 <= i < j < s.len() ==> less(#[trigger] s[i], #[trigger] s[j])
}

/// An item put where it belongs keeps a list in order.
pub proof fn lemma_insert_ordered<T>(s: Seq<T>, k: int, x: T, less: spec_fn(T, T) -> bool)
    requires
        ordered(s, less),
        0 <= k <= s.len(),
        forall|a: T, b: T, c: T|
            #![trigger less(a, b), less(b, c)]
            less(a, b) && less(b, c) ==> less(a, c),
        k > 0 ==> less(s[k - 1], x),
        k < s.len() ==> less(x, s[k]),
    ensures
        ordered(s.insert(k, x), less),
{
    let m = s.insert(k, x);
    assert forall|i: int, j: int| 0 <= i < j < m.len() implies less(
        #[trigger] m[i],
        #[trigger] m[j],
    ) by {
        if j < k {
            assert(m[i] == s[i] && m[j] == s[j]);
        } else if j == k {
            assert(m[i] == s[i]);
            if i < k - 1 {
                assert(less(s[i], s[k - 1]));
            }
        } else if i < k {
            assert(m[i] == s[i] && m[j] == s[j - 1]);
        } else if i == k {
            assert(m[j] == s[j - 1]);
            if j - 1 > k {
                assert(less(s[k], s[j - 1]));
            }
        } else {
            assert(m[i] == s[i - 1] && m[j] == s[j - 1]);
        }
    }
}

/// The first place where two texts differ decides which comes first; a text that
/// goes on where the other one ends comes behind it.
pub proof fn first_difference_decides(a: Seq<char>, b: Seq<char>, k: int)
    requires
        0 <= k <= a.len(),
        k <= b.len(),
        a.take(k) == b.take(k),
    ensures
        k < a.len() && k < b.len() && a[k] < b[k] ==> lex_less(a, b),
        k < a.len() && k < b.len() && a[k] > b[k] ==> !lex_less(a, b),
        k == a.len() && k < b.len() ==> lex_less(a, b),
        k == b.len() ==> !lex_less(a, b),
    decreases k,
{
    if k > 0 {
        let x = a.skip(1);
        let y = b.skip(1);
        assert(a[0] == a.take(k)[0]);
        assert(b[0] == b.take(k)[0]);
        assert(x.take(k - 1) =~= a.take(k).skip(1));
        assert(y.take(k - 1) =~= b.take(k).skip(1));
        first_difference_decides(x, y, k - 1);
    }
}

} // verus!
