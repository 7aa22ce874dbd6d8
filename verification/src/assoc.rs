//! Association lists with distinct keys, viewed as maps. Both halves of the
//! multi-version store keep their state in such lists: an outer list keyed by
//! access path, and per key an inner list keyed by transaction index that is
//! kept sorted so reads can scan it in version order.

use vstd::prelude::*;

verus! {

/// The map an association list stands for; a later pair wins on a repeated
/// key, which never arises while the keys are distinct.
pub open spec fn assoc_map<K, V>(s: Seq<(K, V)>) -> Map<K, V>
    decreases s.len(),
{
    if s.len() == 0 {
        Map::empty()
    } else {
        assoc_map(s.drop_last()).insert(s.last().0, s.last().1)
    }
}

/// No key occurs twice.
pub open spec fn distinct_keys<K, V>(s: Seq<(K, V)>) -> bool {
    forall|i: int, j: int| 0 <= i < j < s.len() ==> (#[trigger] s[i]).0 != (#[trigger] s[j]).0
}

/// Keys strictly increase along the list.
pub open spec fn sorted_keys<V>(s: Seq<(u32, V)>) -> bool {
    forall|i: int, j: int| 0 <= i < j < s.len() ==> (#[trigger] s[i]).0 < (#[trigger] s[j]).0
}

/// A key is in the map exactly when some pair of the list carries it.
pub proof fn lemma_assoc_contains<K, V>(s: Seq<(K, V)>, k: K)
    ensures
        assoc_map(s).contains_key(k) <==> exists|i: int| 0 <= i < s.len() && (#[trigger] s[i]).0
            == k,
    decreases s.len(),
{
    if s.len() > 0 {
        lemma_assoc_contains(s.drop_last(), k);
        if s.last().0 == k {
            assert(s[s.len() - 1].0 == k);
        } else if assoc_map(s).contains_key(k) {
            let i = choose|i: int| 0 <= i < s.drop_last().len() && (#[trigger] s.drop_last()[i]).0
                == k;
            assert(s[i].0 == k);
        } else if exists|i: int| 0 <= i < s.len() && (#[trigger] s[i]).0 == k {
            let i = choose|i: int| 0 <= i < s.len() && (#[trigger] s[i]).0 == k;
            assert(s.drop_last()[i].0 == k);
        }
    }
}

/// With distinct keys, the list entry at any position gives the map's value.
pub proof fn lemma_assoc_get<K, V>(s: Seq<(K, V)>, i: int)
    requires
        distinct_keys(s),
        0 <= i < s.len(),
    ensures
        assoc_map(s).contains_key(s[i].0),
        assoc_map(s)[s[i].0] == s[i].1,
    decreases s.len(),
{
    if i < s.len() - 1 {
        assert(s.drop_last()[i] == s[i]);
        lemma_assoc_get(s.drop_last(), i);
        assert(s[s.len() - 1].0 != s[i].0);
    }
}

/// Replacing the value at one position updates the map at that pair's key.
pub proof fn lemma_assoc_update<K, V>(s: Seq<(K, V)>, i: int, v: V)
    requires
        distinct_keys(s),
        0 <= i < s.len(),
    ensures
        assoc_map(s.update(i, (s[i].0, v))) == assoc_map(s).insert(s[i].0, v),
        distinct_keys(s.update(i, (s[i].0, v))),
    decreases s.len(),
{
    let s2 = s.update(i, (s[i].0, v));
    if i == s.len() - 1 {
        assert(s2.drop_last() =~= s.drop_last());
        assert(assoc_map(s2) =~= assoc_map(s).insert(s[i].0, v));
    } else {
        assert(s.drop_last()[i] == s[i]);
        lemma_assoc_update(s.drop_last(), i, v);
        assert(s2.drop_last() =~= s.drop_last().update(i, (s[i].0, v)));
        assert(s2.last() == s.last());
        assert(s.last().0 != s[i].0);
        assert(assoc_map(s2) =~= assoc_map(s).insert(s[i].0, v));
    }
}

/// Appending a pair with a fresh key inserts it into the map.
pub proof fn lemma_assoc_push<K, V>(s: Seq<(K, V)>, k: K, v: V)
    requires
        distinct_keys(s),
        forall|i: int| 0 <= i < s.len() ==> (#[trigger] s[i]).0 != k,
    ensures
        assoc_map(s.push((k, v))) == assoc_map(s).insert(k, v),
        distinct_keys(s.push((k, v))),
{
    assert(s.push((k, v)).drop_last() =~= s);
}

/// Inserting a pair with a fresh key at any position inserts it into the map.
pub proof fn lemma_assoc_insert_at<K, V>(s: Seq<(K, V)>, q: int, k: K, v: V)
    requires
        distinct_keys(s),
        0 <= q <= s.len(),
        forall|i: int| 0 <= i < s.len() ==> (#[trigger] s[i]).0 != k,
    ensures
        assoc_map(s.insert(q, (k, v))) == assoc_map(s).insert(k, v),
        distinct_keys(s.insert(q, (k, v))),
    decreases s.len(),
{
    let s2 = s.insert(q, (k, v));
    assert forall|i: int, j: int| 0 <= i < j < s2.len() implies (#[trigger] s2[i]).0 != (
    #[trigger] s2[j]).0 by {
        if i < q {
            assert(s2[i] == s[i]);
        } else if i > q {
            assert(s2[i] == s[i - 1]);
        }
        if j < q {
            assert(s2[j] == s[j]);
        } else if j > q {
            assert(s2[j] == s[j - 1]);
        }
    }
    if q == s.len() {
        assert(s2 =~= s.push((k, v)));
        lemma_assoc_push(s, k, v);
    } else {
        assert(s2.drop_last() =~= s.drop_last().insert(q, (k, v)));
        assert(s2.last() == s.last());
        assert(s.drop_last().len() == s.len() - 1);
        assert(forall|i: int|
            0 <= i < s.drop_last().len() ==> (#[trigger] s.drop_last()[i]).0 == s[i].0);
        lemma_assoc_insert_at(s.drop_last(), q, k, v);
        assert(s.last().0 != k);
        assert(assoc_map(s2) =~= assoc_map(s).insert(k, v));
    }
}

/// Removing the pair at one position removes its key from the map.
pub proof fn lemma_assoc_remove<K, V>(s: Seq<(K, V)>, q: int)
    requires
        distinct_keys(s),
        0 <= q < s.len(),
    ensures
        assoc_map(s.remove(q)) == assoc_map(s).remove(s[q].0),
        distinct_keys(s.remove(q)),
    decreases s.len(),
{
    let s2 = s.remove(q);
    assert forall|i: int, j: int| 0 <= i < j < s2.len() implies (#[trigger] s2[i]).0 != (
    #[trigger] s2[j]).0 by {
        if i < q {
            assert(s2[i] == s[i]);
        } else {
            assert(s2[i] == s[i + 1]);
        }
        if j < q {
            assert(s2[j] == s[j]);
        } else {
            assert(s2[j] == s[j + 1]);
        }
    }
    if q == s.len() - 1 {
        assert(s2 =~= s.drop_last());
        lemma_assoc_contains(s.drop_last(), s[q].0);
        assert(forall|i: int|
            0 <= i < s.drop_last().len() ==> (#[trigger] s.drop_last()[i]).0 != s[q].0);
        assert(!assoc_map(s.drop_last()).contains_key(s[q].0));
        assert(assoc_map(s2) =~= assoc_map(s).remove(s[q].0));
    } else {
        assert(s2.drop_last() =~= s.drop_last().remove(q));
        assert(s2.last() == s.last());
        assert(s.drop_last()[q] == s[q]);
        lemma_assoc_remove(s.drop_last(), q);
        assert(s.last().0 != s[q].0);
        assert(assoc_map(s2) =~= assoc_map(s).remove(s[q].0));
    }
}

/// Sorted keys are distinct.
pub proof fn lemma_sorted_distinct<V>(s: Seq<(u32, V)>)
    requires
        sorted_keys(s),
    ensures
        distinct_keys(s),
{
}

} // verus!
