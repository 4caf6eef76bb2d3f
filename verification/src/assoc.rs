//! Association lists: lists of keys and values, no key twice, that stand for a
//! map.
use vstd::prelude::*;

verus! {

/// The map that a list of keys and values stands for; the last value of a key
/// counts.
pub open spec fn map_of<K, V>(s: Seq<(K, V)>) -> Map<K, V>
    decreases s.len(),
{
    if s.len() == 0 {
        Map::empty()
    } else {
        map_of(s.drop_last()).insert(s.last().0, s.last().1)
    }
}

/// Whether no key stands twice in a list.
pub open spec fn keys_differ<K, V>(s: Seq<(K, V)>) -> bool {
    forall|i: int, j: int| 0 <= i < j < s.len() ==> (#[trigger] s[i]).0 != (#[trigger] s[j]).0
}

/// What a list and its map have in common.
pub proof fn lemma_map_of<K, V>(s: Seq<(K, V)>)
    requires
        keys_differ(s),
    ensures
        forall|i: int|
            0 <= i < s.len() ==> map_of(s).contains_key((#[trigger] s[i]).0) && map_of(s)[s[i].0]
                == s[i].1,
        forall|k: K| #[trigger]
            map_of(s).contains_key(k) ==> exists|i: int| 0 <= i < s.len() && (#[trigger] s[i]).0
                == k,
    decreases s.len(),
{
    if s.len() > 0 {
        let rest = s.drop_last();
        assert forall|i: int, j: int| 0 <= i < j < rest.len() implies (#[trigger] rest[i]).0 != (
        #[trigger] rest[j]).0 by {
            assert(rest[i] == s[i] && rest[j] == s[j]);
        }
        lemma_map_of(rest);
        assert forall|i: int| 0 <= i < s.len() implies map_of(s).contains_key((#[trigger] s[i]).0)
            && map_of(s)[s[i].0] == s[i].1 by {
            if i < rest.len() {
                assert(rest[i] == s[i]);
                assert(s[i].0 != s[s.len() - 1].0);
            }
        }
        assert forall|k: K| #[trigger] map_of(s).contains_key(k) implies exists|i: int|
            0 <= i < s.len() && (#[trigger] s[i]).0 == k by {
            if k == s.last().0 {
                assert(s[s.len() - 1].0 == k);
            } else {
                assert(map_of(rest).contains_key(k));
                let i = choose|i: int| 0 <= i < rest.len() && (#[trigger] rest[i]).0 == k;
                assert(s[i].0 == k);
            }
        }
    }
}

/// A key that no entry has is not in the map.
pub proof fn lemma_no_key<K, V>(s: Seq<(K, V)>, k: K)
    requires
        keys_differ(s),
        forall|i: int| 0 <= i < s.len() ==> (#[trigger] s[i]).0 != k,
    ensures
        !map_of(s).contains_key(k),
        map_of(s).remove(k) == map_of(s),
{
    lemma_map_of(s);
    assert(map_of(s).remove(k) =~= map_of(s));
}

/// Without one entry, the map is without its key.
pub proof fn lemma_remove_entry<K, V>(s: Seq<(K, V)>, i: int)
    requires
        keys_differ(s),
        0 <= i < s.len(),
    ensures
        keys_differ(s.remove(i)),
        map_of(s.remove(i)) == map_of(s).remove(s[i].0),
    decreases s.len(),
{
    let r = s.remove(i);
    assert forall|a: int, b: int| 0 <= a < b < r.len() implies (#[trigger] r[a]).0 != (
    #[trigger] r[b]).0 by {
        let c = if a < i {
            a
        } else {
            a + 1
        };
        let d = if b < i {
            b
        } else {
            b + 1
        };
        assert(r[a] == s[c] && r[b] == s[d]);
    }
    if i == s.len() - 1 {
        assert(r =~= s.drop_last());
        let rest = s.drop_last();
        assert forall|j: int| 0 <= j < rest.len() implies (#[trigger] rest[j]).0 != s[i].0 by {
            assert(rest[j] == s[j]);
        }
        lemma_no_key(rest, s[i].0);
        assert(map_of(s).remove(s[i].0) =~= map_of(rest));
    } else {
        let rest = s.drop_last();
        assert forall|a: int, b: int| 0 <= a < b < rest.len() implies (#[trigger] rest[a]).0 != (
        #[trigger] rest[b]).0 by {
            assert(rest[a] == s[a] && rest[b] == s[b]);
        }
        lemma_remove_entry(rest, i);
        assert(r.drop_last() =~= rest.remove(i));
        assert(r.last() == s.last());
        assert(s[i].0 != s[s.len() - 1].0);
        assert(map_of(r) =~= map_of(s).remove(s[i].0));
    }
}

/// With another value for one entry, the map has that value for its key.
pub proof fn lemma_update_entry<K, V>(s: Seq<(K, V)>, i: int, v: V)
    requires
        keys_differ(s),
        0 <= i < s.len(),
    ensures
        keys_differ(s.update(i, (s[i].0, v))),
        map_of(s.update(i, (s[i].0, v))) == map_of(s).insert(s[i].0, v),
    decreases s.len(),
{
    let r = s.update(i, (s[i].0, v));
    assert forall|a: int, b: int| 0 <= a < b < r.len() implies (#[trigger] r[a]).0 != (
    #[trigger] r[b]).0 by {
        assert(r[a].0 == s[a].0 && r[b].0 == s[b].0);
    }
    if i == s.len() - 1 {
        assert(r.drop_last() =~= s.drop_last());
        assert(map_of(r) =~= map_of(s).insert(s[i].0, v));
    } else {
        let rest = s.drop_last();
        assert forall|a: int, b: int| 0 <= a < b < rest.len() implies (#[trigger] rest[a]).0 != (
        #[trigger] rest[b]).0 by {
            assert(rest[a] == s[a] && rest[b] == s[b]);
        }
        lemma_update_entry(rest, i, v);
        assert(r.drop_last() =~= rest.update(i, (rest[i].0, v)));
        assert(r.last() == s.last());
        assert(s[i].0 != s[s.len() - 1].0);
        assert(map_of(r) =~= map_of(s).insert(s[i].0, v));
    }
}

/// With one more entry, whose key is new, the map has one more.
pub proof fn lemma_push_entry<K, V>(s: Seq<(K, V)>, k: K, v: V)
    requires
        keys_differ(s),
        forall|i: int| 0 <= i < s.len() ==> (#[trigger] s[i]).0 != k,
    ensures
        keys_differ(s.push((k, v))),
        map_of(s.push((k, v))) == map_of(s).insert(k, v),
{
    let r = s.push((k, v));
    assert(r.drop_last() =~= s);
    assert forall|a: int, b: int| 0 <= a < b < r.len() implies (#[trigger] r[a]).0 != (
    #[trigger] r[b]).0 by {
        assert(r[a] == s[a]);
        if b < s.len() {
            assert(r[b] == s[b]);
        }
    }
}

/// The entries whose values `keep` picks.
pub open spec fn entries_where<K, V>(s: Seq<(K, V)>, keep: spec_fn(V) -> bool) -> Seq<(K, V)>
    decreases s.len(),
{
    if s.len() == 0 {
        s
    } else if keep(s.last().1) {
        entries_where(s.drop_last(), keep).push(s.last())
    } else {
        entries_where(s.drop_last(), keep)
    }
}

/// The part of a map whose values `keep` picks.
pub open spec fn values_where<K, V>(m: Map<K, V>, keep: spec_fn(V) -> bool) -> Map<K, V> {
    Map::new(|k: K| m.contains_key(k) && keep(m[k]), |k: K| m[k])
}

/// With some of the entries, the map has the values of those.
pub proof fn lemma_keep_entries<K, V>(s: Seq<(K, V)>, keep: spec_fn(V) -> bool)
    requires
        keys_differ(s),
    ensures
        keys_differ(entries_where(s, keep)),
        map_of(entries_where(s, keep)) == values_where(map_of(s), keep),
        forall|i: int|
            0 <= i < entries_where(s, keep).len() ==> s.contains(
                #[trigger] entries_where(s, keep)[i],
            ),
    decreases s.len(),
{
    let kept = entries_where(s, keep);
    if s.len() == 0 {
        assert(map_of(kept) =~= values_where(map_of(s), keep));
    } else {
        let rest = s.drop_last();
        let some = entries_where(rest, keep);
        assert forall|a: int, b: int| 0 <= a < b < rest.len() implies (#[trigger] rest[a]).0 != (
        #[trigger] rest[b]).0 by {
            assert(rest[a] == s[a] && rest[b] == s[b]);
        }
        lemma_keep_entries(rest, keep);
        assert forall|j: int| 0 <= j < some.len() implies s.contains(#[trigger] some[j])
            && some[j].0 != s.last().0 by {
            let c = choose|c: int| 0 <= c < rest.len() && rest[c] == some[j];
            assert(rest.contains(some[j]));
            assert(s[c] == some[j]);
            assert(s[c].0 != s[s.len() - 1].0);
        }
        assert forall|j: int| 0 <= j < rest.len() implies (#[trigger] rest[j]).0 != s.last().0 by {
            assert(s[j].0 != s[s.len() - 1].0);
        }
        lemma_no_key(rest, s.last().0);
        if keep(s.last().1) {
            lemma_push_entry(some, s.last().0, s.last().1);
            assert(some.push((s.last().0, s.last().1)) =~= kept);
            assert(s[s.len() - 1] == s.last());
        }
        assert(map_of(kept) =~= values_where(map_of(s), keep));
    }
}

} // verus!
