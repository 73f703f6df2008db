//! Association sequences with unique keys, and the finite maps they denote.
//!
//! The stores keep their entries in vectors so that traversals have a fixed,
//! restartable order; contracts about merging and lookup are stated over the
//! derived [`Map`] instead, where union and insertion have clean algebra.

use vstd::prelude::*;

verus! {

/// The finite map denoted by a sequence of key-value pairs.
pub open spec fn map_of<K, V>(s: Seq<(K, V)>) -> Map<K, V>
    decreases s.len(),
{
    if s.len() == 0 {
        Map::empty()
    } else {
        map_of(s.drop_last()).insert(s.last().0, s.last().1)
    }
}

/// No key occurs twice in the sequence.
pub open spec fn keys_unique<K, V>(s: Seq<(K, V)>) -> bool {
    forall|i: int, j: int| 0 <= i < j < s.len() ==> (#[trigger] s[i]).0 != (#[trigger] s[j]).0
}

/// A key is in the denoted map exactly when some pair of the sequence holds it,
/// and then the map carries that pair's value (under key uniqueness).
pub proof fn lemma_map_of_contains<K, V>(s: Seq<(K, V)>, k: K)
    ensures
        map_of(s).dom().contains(k) <==> exists|i: int| 0 <= i < s.len() && (#[trigger] s[i]).0 == k,
        keys_unique(s) ==> forall|i: int|
            0 <= i < s.len() && (#[trigger] s[i]).0 == k ==> map_of(s)[k] == s[i].1,
    decreases s.len(),
{
    if s.len() > 0 {
        lemma_map_of_contains(s.drop_last(), k);
        if s.last().0 == k {
            assert(s[s.len() - 1].0 == k);
            if keys_unique(s) {
                assert forall|i: int|
                    0 <= i < s.len() && (#[trigger] s[i]).0 == k implies map_of(s)[k] == s[i].1 by {
                    if i < s.len() - 1 {
                        assert(s[i].0 != s[s.len() - 1].0);
                    }
                }
            }
        } else {
            assert forall|i: int|
                0 <= i < s.len() && (#[trigger] s[i]).0 == k implies i < s.len() - 1 by {}
            assert((exists|i: int| 0 <= i < s.len() && (#[trigger] s[i]).0 == k) <==> (exists|i: int|
                0 <= i < s.drop_last().len() && (#[trigger] s.drop_last()[i]).0 == k)) by {
                if exists|i: int| 0 <= i < s.len() && (#[trigger] s[i]).0 == k {
                    let i = choose|i: int| 0 <= i < s.len() && (#[trigger] s[i]).0 == k;
                    assert(s.drop_last()[i].0 == k);
                }
                if exists|i: int| 0 <= i < s.drop_last().len() && (#[trigger] s.drop_last()[i]).0
                    == k {
                    let i = choose|i: int|
                        0 <= i < s.drop_last().len() && (#[trigger] s.drop_last()[i]).0 == k;
                    assert(s[i].0 == k);
                }
            }
            if keys_unique(s) {
                assert(keys_unique(s.drop_last()));
                assert forall|i: int|
                    0 <= i < s.len() && (#[trigger] s[i]).0 == k implies map_of(s)[k] == s[i].1 by {
                    assert(s.drop_last()[i] == s[i]);
                }
            }
        }
    }
}

/// The last pair holding a key decides that key's value in the denoted map.
pub proof fn lemma_map_of_last<K, V>(s: Seq<(K, V)>, i: int)
    requires
        0 <= i < s.len(),
        forall|j: int| i < j < s.len() ==> (#[trigger] s[j]).0 != s[i].0,
    ensures
        map_of(s).dom().contains(s[i].0),
        map_of(s)[s[i].0] == s[i].1,
    decreases s.len(),
{
    if i < s.len() - 1 {
        lemma_map_of_last(s.drop_last(), i);
    }
}

/// Appending a pair inserts it into the denoted map.
pub proof fn lemma_map_of_push<K, V>(s: Seq<(K, V)>, k: K, v: V)
    ensures
        map_of(s.push((k, v))) == map_of(s).insert(k, v),
{
    assert(s.push((k, v)).drop_last() =~= s);
    assert(s.push((k, v)).last() == (k, v));
}

/// Overwriting the value at a key's entry (under unique keys) inserts into
/// the denoted map and keeps the keys unique.
pub proof fn lemma_map_of_update<K, V>(s: Seq<(K, V)>, i: int, v: V)
    requires
        0 <= i < s.len(),
        keys_unique(s),
    ensures
        map_of(s.update(i, (s[i].0, v))) == map_of(s).insert(s[i].0, v),
        keys_unique(s.update(i, (s[i].0, v))),
    decreases s.len(),
{
    let k = s[i].0;
    let u = s.update(i, (k, v));
    assert(keys_unique(u)) by {
        assert forall|a: int, b: int| 0 <= a < b < u.len() implies (#[trigger] u[a]).0
            != (#[trigger] u[b]).0 by {
            assert(u[a].0 == s[a].0);
            assert(u[b].0 == s[b].0);
        }
    }
    if i == s.len() - 1 {
        assert(u.drop_last() =~= s.drop_last());
        assert(map_of(u) == map_of(s.drop_last()).insert(k, v));
        assert(map_of(s).insert(k, v) =~= map_of(s.drop_last()).insert(k, v));
    } else {
        assert(keys_unique(s.drop_last()));
        lemma_map_of_update(s.drop_last(), i, v);
        assert(u.drop_last() =~= s.drop_last().update(i, (k, v)));
        assert(u.last() == s.last());
        assert(map_of(u) == map_of(s.drop_last()).insert(k, v).insert(s.last().0, s.last().1));
        assert(s.last().0 != k);
        assert(map_of(s.drop_last()).insert(k, v).insert(s.last().0, s.last().1) =~= map_of(
            s.drop_last(),
        ).insert(s.last().0, s.last().1).insert(k, v));
    }
}

/// Taking one more element of a sequence appends that element.
pub proof fn lemma_take_push<K>(s: Seq<K>, n: int)
    requires
        0 <= n < s.len(),
    ensures
        s.take(n + 1) == s.take(n).push(s[n]),
{
    assert(s.take(n + 1) =~= s.take(n).push(s[n]));
}

/// The whole sequence is its own take.
pub proof fn lemma_take_all<K>(s: Seq<K>)
    ensures
        s.take(s.len() as int) == s,
{
    assert(s.take(s.len() as int) =~= s);
}

} // verus!
