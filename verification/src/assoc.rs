use vstd::prelude::*;

verus! {

/// The map read off an association sequence; a later entry with a given key
/// overrides an earlier one.
pub open spec fn assoc_map<K, V>(s: Seq<(K, V)>) -> Map<K, V>
    decreases s,
{
    if s.len() == 0 {
        Map::empty()
    } else {
        assoc_map(s.drop_last()).insert(s.last().0, s.last().1)
    }
}

/// No two entries of the sequence share a key.
pub open spec fn distinct_keys<K, V>(s: Seq<(K, V)>) -> bool {
    forall|i: int, j: int| 0 <= i < j < s.len() ==> (#[trigger] s[i]).0 != (#[trigger] s[j]).0
}

pub proof fn lemma_distinct_prefix<K, V>(s: Seq<(K, V)>)
    requires
        distinct_keys(s),
        s.len() > 0,
    ensures
        distinct_keys(s.drop_last()),
{
    assert forall|i: int, j: int|
        0 <= i < j < s.drop_last().len() implies (#[trigger] s.drop_last()[i]).0 != (
    #[trigger] s.drop_last()[j]).0 by {
        assert(s[i].0 != s[j].0);
    }
}

/// A key is in the map exactly when some entry carries it.
pub proof fn lemma_assoc_contains<K, V>(s: Seq<(K, V)>, k: K)
    ensures
        assoc_map(s).contains_key(k) <==> exists|i: int|
            0 <= i < s.len() && (#[trigger] s[i]).0 == k,
    decreases s,
{
    if s.len() > 0 {
        lemma_assoc_contains(s.drop_last(), k);
        if s.last().0 == k {
            assert(s[s.len() - 1].0 == k);
        } else {
            if assoc_map(s).contains_key(k) {
                let i = choose|i: int| 0 <= i < s.drop_last().len() && (#[trigger] s.drop_last()[i]).0 == k;
                assert(s[i].0 == k);
            }
            if exists|i: int| 0 <= i < s.len() && (#[trigger] s[i]).0 == k {
                let i = choose|i: int| 0 <= i < s.len() && (#[trigger] s[i]).0 == k;
                assert(s.drop_last()[i].0 == k);
            }
        }
    }
}

/// Under distinct keys, the map sends each entry's key to that entry's value.
pub proof fn lemma_assoc_at<K, V>(s: Seq<(K, V)>, i: int)
    requires
        distinct_keys(s),
        0 <= i < s.len(),
    ensures
        assoc_map(s).contains_key(s[i].0),
        assoc_map(s)[s[i].0] == s[i].1,
    decreases s,
{
    if i < s.len() - 1 {
        lemma_distinct_prefix(s);
        lemma_assoc_at(s.drop_last(), i);
        assert(s[i].0 != s[s.len() - 1].0);
    }
}

/// Under distinct keys, the map has exactly as many keys as the sequence has
/// entries.
pub proof fn lemma_assoc_len<K, V>(s: Seq<(K, V)>)
    requires
        distinct_keys(s),
    ensures
        assoc_map(s).dom().finite(),
        assoc_map(s).dom().len() == s.len(),
    decreases s,
{
    if s.len() > 0 {
        lemma_distinct_prefix(s);
        lemma_assoc_len(s.drop_last());
        lemma_assoc_contains(s.drop_last(), s.last().0);
        assert forall|i: int|
            0 <= i < s.drop_last().len() implies (#[trigger] s.drop_last()[i]).0 != s.last().0 by {
            assert(s[i].0 != s[s.len() - 1].0);
        }
        assert(!assoc_map(s.drop_last()).contains_key(s.last().0));
    }
}

/// Appending an entry with a fresh key inserts it into the map.
pub proof fn lemma_assoc_push_fresh<K, V>(s: Seq<(K, V)>, k: K, v: V)
    requires
        distinct_keys(s),
        forall|j: int| 0 <= j < s.len() ==> (#[trigger] s[j]).0 != k,
    ensures
        distinct_keys(s.push((k, v))),
        assoc_map(s.push((k, v))) == assoc_map(s).insert(k, v),
{
    let t = s.push((k, v));
    assert(t.drop_last() =~= s);
    assert forall|a: int, b: int|
        0 <= a < b < t.len() implies (#[trigger] t[a]).0 != (#[trigger] t[b]).0 by {
        if b < t.len() - 1 {
            assert(s[a].0 != s[b].0);
        } else {
            assert(s[a].0 != k);
        }
    }
}

/// Replacing the entry that carries a key (moving it to the end) updates the
/// map at that key and nothing else.
pub proof fn lemma_assoc_update<K, V>(s: Seq<(K, V)>, i: int, k: K, v: V)
    requires
        distinct_keys(s),
        0 <= i < s.len(),
        s[i].0 == k,
    ensures
        distinct_keys(s.remove(i).push((k, v))),
        assoc_map(s.remove(i).push((k, v))) == assoc_map(s).insert(k, v),
{
    let t = s.remove(i).push((k, v));
    assert forall|a: int, b: int|
        0 <= a < b < t.len() implies (#[trigger] t[a]).0 != (#[trigger] t[b]).0 by {
        if b == t.len() - 1 {
            if a < i {
                assert(s[a].0 != s[i].0);
            } else {
                assert(s[a + 1].0 != s[i].0);
            }
        } else {
            if b < i {
                assert(s[a].0 != s[b].0);
            } else if a < i {
                assert(s[a].0 != s[b + 1].0);
            } else {
                assert(s[a + 1].0 != s[b + 1].0);
            }
        }
    }
    assert forall|k2: K| #[trigger]
        assoc_map(t).contains_key(k2) == assoc_map(s).insert(k, v).contains_key(k2) && (
        assoc_map(t).contains_key(k2) ==> assoc_map(t)[k2] == assoc_map(s).insert(k, v)[k2]) by {
        lemma_assoc_contains(t, k2);
        lemma_assoc_contains(s, k2);
        if k2 == k {
            lemma_assoc_at(t, t.len() - 1);
        } else {
            if exists|j: int| 0 <= j < s.len() && (#[trigger] s[j]).0 == k2 {
                let j = choose|j: int| 0 <= j < s.len() && (#[trigger] s[j]).0 == k2;
                let j2: int = if j < i {
                    j
                } else {
                    j - 1
                };
                assert(t[j2] == s[j]);
                lemma_assoc_at(s, j);
                lemma_assoc_at(t, j2);
            } else {
                if exists|j: int| 0 <= j < t.len() && (#[trigger] t[j]).0 == k2 {
                    let j = choose|j: int| 0 <= j < t.len() && (#[trigger] t[j]).0 == k2;
                    if j < i {
                        assert(s[j].0 == k2);
                    } else if j < t.len() - 1 {
                        assert(s[j + 1].0 == k2);
                    }
                }
            }
        }
    }
    assert(assoc_map(t) =~= assoc_map(s).insert(k, v));
}

/// Dropping the entry that carries a key removes that key from the map and
/// nothing else.
pub proof fn lemma_assoc_remove<K, V>(s: Seq<(K, V)>, i: int)
    requires
        distinct_keys(s),
        0 <= i < s.len(),
    ensures
        distinct_keys(s.remove(i)),
        assoc_map(s.remove(i)) == assoc_map(s).remove(s[i].0),
{
    let k = s[i].0;
    let t = s.remove(i);
    assert forall|a: int, b: int|
        0 <= a < b < t.len() implies (#[trigger] t[a]).0 != (#[trigger] t[b]).0 by {
        if b < i {
            assert(s[a].0 != s[b].0);
        } else if a < i {
            assert(s[a].0 != s[b + 1].0);
        } else {
            assert(s[a + 1].0 != s[b + 1].0);
        }
    }
    assert forall|k2: K| #[trigger]
        assoc_map(t).contains_key(k2) == assoc_map(s).remove(k).contains_key(k2) && (
        assoc_map(t).contains_key(k2) ==> assoc_map(t)[k2] == assoc_map(s).remove(k)[k2]) by {
        lemma_assoc_contains(t, k2);
        lemma_assoc_contains(s, k2);
        if k2 == k {
            if exists|j: int| 0 <= j < t.len() && (#[trigger] t[j]).0 == k2 {
                let j = choose|j: int| 0 <= j < t.len() && (#[trigger] t[j]).0 == k2;
                if j < i {
                    assert(s[j].0 == k2 && s[i].0 == k2);
                } else {
                    assert(s[j + 1].0 == k2 && s[i].0 == k2);
                }
            }
        } else {
            if exists|j: int| 0 <= j < s.len() && (#[trigger] s[j]).0 == k2 {
                let j = choose|j: int| 0 <= j < s.len() && (#[trigger] s[j]).0 == k2;
                let j2: int = if j < i {
                    j
                } else {
                    j - 1
                };
                assert(t[j2] == s[j]);
                lemma_assoc_at(s, j);
                lemma_assoc_at(t, j2);
            } else {
                if exists|j: int| 0 <= j < t.len() && (#[trigger] t[j]).0 == k2 {
                    let j = choose|j: int| 0 <= j < t.len() && (#[trigger] t[j]).0 == k2;
                    if j < i {
                        assert(s[j].0 == k2);
                    } else {
                        assert(s[j + 1].0 == k2);
                    }
                }
            }
        }
    }
    assert(assoc_map(t) =~= assoc_map(s).remove(k));
}

} // verus!
