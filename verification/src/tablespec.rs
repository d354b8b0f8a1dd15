//! The mathematical reading of vector-backed keyed tables: an entry list
//! with pairwise-distinct keys, read as a `Map`.
use vstd::prelude::*;

verus! {

/// The map that an entry list denotes; later entries win on a repeated key.
pub open spec fn kv_map<K, V>(s: Seq<(K, V)>) -> Map<K, V>
    decreases s.len(),
{
    if s.len() == 0 {
        Map::empty()
    } else {
        kv_map(s.drop_last()).insert(s.last().0, s.last().1)
    }
}

/// Whether some entry of `s` carries the key `k`.
pub open spec fn kv_has_key<K, V>(s: Seq<(K, V)>, k: K) -> bool {
    exists|i: int| 0 <= i < s.len() && s[i].0 == k
}

/// Entry keys are pairwise distinct.
pub open spec fn kv_unique<K, V>(s: Seq<(K, V)>) -> bool {
    forall|i: int, j: int| 0 <= i < j < s.len() ==> s[i].0 != s[j].0
}

/// The first position that carries the key `k`, if any.
pub open spec fn kv_find<K, V>(s: Seq<(K, V)>, k: K) -> Option<int>
    decreases s.len(),
{
    if s.len() == 0 {
        None
    } else if s[0].0 == k {
        Some(0)
    } else {
        match kv_find(s.skip(1), k) {
            Some(i) => Some(i + 1),
            None => None,
        }
    }
}

/// One insertion into the entry list: replace in place, or append.
pub open spec fn kv_insert<K, V>(s: Seq<(K, V)>, k: K, v: V) -> Seq<(K, V)> {
    match kv_find(s, k) {
        Some(i) => s.update(i, (k, v)),
        None => s.push((k, v)),
    }
}

/// Left-to-right insertion of every entry of `t` into `s`.
pub open spec fn kv_extend<K, V>(s: Seq<(K, V)>, t: Seq<(K, V)>) -> Seq<(K, V)>
    decreases t.len(),
{
    if t.len() == 0 {
        s
    } else {
        kv_extend(kv_insert(s, t[0].0, t[0].1), t.skip(1))
    }
}

pub proof fn lemma_kv_find_some<K, V>(s: Seq<(K, V)>, k: K)
    ensures
        kv_find(s, k) matches Some(i) ==> 0 <= i < s.len() && s[i].0 == k,
        kv_find(s, k) is None <==> !kv_has_key(s, k),
    decreases s.len(),
{
    if s.len() > 0 && s[0].0 != k {
        lemma_kv_find_some(s.skip(1), k);
        if kv_find(s.skip(1), k) is None {
            assert forall|i: int| 0 <= i < s.len() implies s[i].0 != k by {
                if i > 0 {
                    assert(s.skip(1)[i - 1] == s[i]);
                }
            }
        } else {
            let i = kv_find(s.skip(1), k)->Some_0;
            assert(s.skip(1)[i] == s[i + 1]);
        }
    }
}

/// The first position carrying `k`, found by scanning forward.
pub proof fn lemma_kv_find_first<K, V>(s: Seq<(K, V)>, k: K, i: int)
    requires
        0 <= i < s.len(),
        s[i].0 == k,
        forall|m: int| 0 <= m < i ==> s[m].0 != k,
    ensures
        kv_find(s, k) == Some(i),
    decreases i,
{
    if i > 0 {
        assert(s[0].0 != k);
        assert(s.skip(1)[i - 1].0 == k);
        assert forall|m: int| 0 <= m < i - 1 implies s.skip(1)[m].0 != k by {
            assert(s.skip(1)[m] == s[m + 1]);
        }
        lemma_kv_find_first(s.skip(1), k, i - 1);
    }
}

/// Extending by one more entry on the right is one more insertion.
pub proof fn lemma_kv_extend_push<K, V>(s: Seq<(K, V)>, t: Seq<(K, V)>, e: (K, V))
    ensures
        kv_extend(s, t.push(e)) == kv_insert(kv_extend(s, t), e.0, e.1),
    decreases t.len(),
{
    if t.len() == 0 {
        assert(t.push(e)[0] == e);
        assert(t.push(e).skip(1) =~= Seq::<(K, V)>::empty());
        assert(kv_extend(s, t) == s);
        assert(kv_extend(s, t.push(e)) == kv_extend(
            kv_insert(s, e.0, e.1),
            t.push(e).skip(1),
        ));
        assert(kv_extend(kv_insert(s, e.0, e.1), t.push(e).skip(1)) == kv_insert(s, e.0, e.1));
    } else {
        assert(t.push(e)[0] == t[0]);
        assert(t.push(e).skip(1) =~= t.skip(1).push(e));
        lemma_kv_extend_push(kv_insert(s, t[0].0, t[0].1), t.skip(1), e);
        assert(kv_extend(s, t.push(e)) == kv_extend(
            kv_insert(s, t[0].0, t[0].1),
            t.skip(1).push(e),
        ));
        assert(kv_extend(s, t) == kv_extend(kv_insert(s, t[0].0, t[0].1), t.skip(1)));
    }
}

pub proof fn lemma_kv_map_dom<K, V>(s: Seq<(K, V)>, k: K)
    ensures
        kv_map(s).contains_key(k) <==> kv_has_key(s, k),
    decreases s.len(),
{
    if s.len() > 0 {
        lemma_kv_map_dom(s.drop_last(), k);
        if s.last().0 == k {
            assert(s[s.len() - 1].0 == k);
        } else {
            assert forall|i: int| 0 <= i < s.len() - 1 && s.drop_last()[i].0 == k implies s[i].0
                == k by {}
            assert forall|i: int| 0 <= i < s.len() && s[i].0 == k implies kv_has_key(
                s.drop_last(),
                k,
            ) by {
                assert(i < s.len() - 1);
                assert(s.drop_last()[i].0 == k);
            }
        }
    }
}

/// With distinct keys, the entry at any position gives the map's value.
pub proof fn lemma_kv_map_index<K, V>(s: Seq<(K, V)>, i: int)
    requires
        kv_unique(s),
        0 <= i < s.len(),
    ensures
        kv_map(s).contains_key(s[i].0),
        kv_map(s)[s[i].0] == s[i].1,
    decreases s.len(),
{
    if i == s.len() - 1 {
        assert(kv_map(s) == kv_map(s.drop_last()).insert(s.last().0, s.last().1));
    } else {
        assert(kv_unique(s.drop_last())) by {
            assert forall|a: int, b: int| 0 <= a < b < s.len() - 1 implies s.drop_last()[a].0
                != s.drop_last()[b].0 by {
                assert(s[a].0 != s[b].0);
            }
        }
        assert(s.drop_last()[i] == s[i]);
        lemma_kv_map_index(s.drop_last(), i);
        assert(s[i].0 != s.last().0);
    }
}

pub proof fn lemma_kv_insert_map<K, V>(s: Seq<(K, V)>, k: K, v: V)
    requires
        kv_unique(s),
    ensures
        kv_unique(kv_insert(s, k, v)),
        kv_map(kv_insert(s, k, v)) == kv_map(s).insert(k, v),
        kv_insert(s, k, v).len() == if kv_has_key(s, k) {
            s.len()
        } else {
            s.len() + 1
        },
    decreases s.len(),
{
    lemma_kv_find_some(s, k);
    match kv_find(s, k) {
        None => {
            assert(kv_insert(s, k, v) == s.push((k, v)));
            assert(s.push((k, v)).drop_last() =~= s);
            assert(kv_unique(s.push((k, v)))) by {
                assert forall|a: int, b: int|
                    0 <= a < b < s.len() + 1 implies s.push((k, v))[a].0 != s.push((k, v))[b].0 by {
                    if b < s.len() {
                    } else {
                        assert(s.push((k, v))[b].0 == k);
                        assert(s[a].0 != k);
                    }
                }
            }
        },
        Some(i) => {
            lemma_kv_update_map(s, i, k, v);
        },
    }
}

/// Updating the entry that already carries `k` is a map insertion at `k`.
pub proof fn lemma_kv_update_map<K, V>(s: Seq<(K, V)>, i: int, k: K, v: V)
    requires
        kv_unique(s),
        0 <= i < s.len(),
        s[i].0 == k,
    ensures
        kv_unique(s.update(i, (k, v))),
        kv_map(s.update(i, (k, v))) == kv_map(s).insert(k, v),
    decreases s.len(),
{
    let t = s.update(i, (k, v));
    assert(kv_unique(t)) by {
        assert forall|a: int, b: int| 0 <= a < b < t.len() implies t[a].0 != t[b].0 by {
            assert(t[a].0 == s[a].0);
            assert(t[b].0 == s[b].0);
        }
    }
    if i == s.len() - 1 {
        assert(t.drop_last() =~= s.drop_last());
        assert(kv_map(t) == kv_map(s.drop_last()).insert(k, v));
        assert(kv_map(s) == kv_map(s.drop_last()).insert(k, s.last().1));
        assert(kv_map(s).insert(k, v) =~= kv_map(s.drop_last()).insert(k, v));
    } else {
        assert(kv_unique(s.drop_last())) by {
            assert forall|a: int, b: int| 0 <= a < b < s.len() - 1 implies s.drop_last()[a].0
                != s.drop_last()[b].0 by {
                assert(s[a].0 != s[b].0);
            }
        }
        assert(s.drop_last()[i] == s[i]);
        lemma_kv_update_map(s.drop_last(), i, k, v);
        assert(t.drop_last() =~= s.drop_last().update(i, (k, v)));
        assert(t.last() == s.last());
        assert(kv_map(t) == kv_map(s.drop_last()).insert(k, v).insert(s.last().0, s.last().1));
        assert(s[i].0 != s.last().0);
        assert(kv_map(s.drop_last()).insert(k, v).insert(s.last().0, s.last().1) =~= kv_map(
            s.drop_last(),
        ).insert(s.last().0, s.last().1).insert(k, v));
    }
}

/// Taking the entry at `i` out removes exactly its key from the map.
pub proof fn lemma_kv_remove_map<K, V>(s: Seq<(K, V)>, i: int)
    requires
        kv_unique(s),
        0 <= i < s.len(),
    ensures
        kv_unique(s.remove(i)),
        kv_map(s.remove(i)) == kv_map(s).remove(s[i].0),
    decreases s.len(),
{
    assert(kv_unique(s.remove(i))) by {
        assert forall|a: int, b: int| 0 <= a < b < s.len() - 1 implies s.remove(i)[a].0 != s.remove(
            i,
        )[b].0 by {
            let a0 = if a < i {
                a
            } else {
                a + 1
            };
            let b0 = if b < i {
                b
            } else {
                b + 1
            };
            assert(s.remove(i)[a] == s[a0]);
            assert(s.remove(i)[b] == s[b0]);
        }
    }
    if i == s.len() - 1 {
        assert(s.remove(i) =~= s.drop_last());
        lemma_kv_map_dom(s.drop_last(), s[i].0);
        assert(!kv_has_key(s.drop_last(), s[i].0)) by {
            assert forall|m: int| 0 <= m < s.len() - 1 implies s.drop_last()[m].0 != s[i].0 by {
                assert(s[m].0 != s[i].0);
            }
        }
        assert(kv_map(s.remove(i)) =~= kv_map(s).remove(s[i].0));
    } else {
        assert(kv_unique(s.drop_last())) by {
            assert forall|a: int, b: int| 0 <= a < b < s.len() - 1 implies s.drop_last()[a].0
                != s.drop_last()[b].0 by {
                assert(s[a].0 != s[b].0);
            }
        }
        assert(s.drop_last()[i] == s[i]);
        lemma_kv_remove_map(s.drop_last(), i);
        assert(s.remove(i).drop_last() =~= s.drop_last().remove(i));
        assert(s.remove(i).last() == s.last());
        assert(kv_map(s.remove(i)) == kv_map(s.drop_last().remove(i)).insert(
            s.last().0,
            s.last().1,
        ));
        assert(s[i].0 != s.last().0);
        assert(kv_map(s.remove(i)) =~= kv_map(s).remove(s[i].0));
    }
}

pub proof fn lemma_kv_extend_map<K, V>(s: Seq<(K, V)>, t: Seq<(K, V)>)
    requires
        kv_unique(s),
    ensures
        kv_unique(kv_extend(s, t)),
        kv_map(kv_extend(s, t)) == kv_map(s).union_prefer_right(kv_map(t)),
    decreases t.len(),
{
    if t.len() == 0 {
        assert(kv_map(kv_extend(s, t)) =~= kv_map(s).union_prefer_right(kv_map(t)));
    } else {
        let s1 = kv_insert(s, t[0].0, t[0].1);
        lemma_kv_insert_map(s, t[0].0, t[0].1);
        lemma_kv_extend_map(s1, t.skip(1));
        lemma_kv_map_skip_first(t);
        assert(kv_map(kv_extend(s, t)) == kv_map(s).insert(t[0].0, t[0].1).union_prefer_right(
            kv_map(t.skip(1)),
        ));
        assert(kv_map(s).insert(t[0].0, t[0].1).union_prefer_right(kv_map(t.skip(1))) =~= kv_map(
            s,
        ).union_prefer_right(kv_map(t)));
    }
}

/// An entry list whose entries are those of `s` with every value mapped in
/// place reads as the mapped map.
pub proof fn lemma_kv_map_entrywise<K, V, W>(s: Seq<(K, V)>, t: Seq<(K, W)>, f: spec_fn(V) -> W)
    requires
        t.len() == s.len(),
        forall|i: int| 0 <= i < s.len() ==> #[trigger] t[i] == (s[i].0, f(s[i].1)),
    ensures
        kv_map(t) == kv_map(s).map_values(f),
        kv_unique(s) ==> kv_unique(t),
    decreases s.len(),
{
    if kv_unique(s) {
        assert forall|a: int, b: int| 0 <= a < b < t.len() implies t[a].0 != t[b].0 by {
            assert(t[a].0 == s[a].0);
            assert(t[b].0 == s[b].0);
        }
    }
    if s.len() == 0 {
        assert(kv_map(t) =~= kv_map(s).map_values(f));
    } else {
        assert forall|i: int| 0 <= i < s.len() - 1 implies #[trigger] t.drop_last()[i] == (
            s.drop_last()[i].0,
            f(s.drop_last()[i].1),
        ) by {
            assert(t[i] == (s[i].0, f(s[i].1)));
        }
        lemma_kv_map_entrywise(s.drop_last(), t.drop_last(), f);
        assert(t[s.len() - 1] == (s.last().0, f(s.last().1)));
        assert(kv_map(t) == kv_map(t.drop_last()).insert(t.last().0, t.last().1));
        assert(kv_map(s) == kv_map(s.drop_last()).insert(s.last().0, s.last().1));
        assert(kv_map(t) =~= kv_map(s).map_values(f));
    }
}

/// Reading a nonempty entry list equals inserting its first entry below
/// the reading of the rest.
pub proof fn lemma_kv_map_skip_first<K, V>(t: Seq<(K, V)>)
    requires
        t.len() > 0,
    ensures
        kv_map(t) == Map::empty().insert(t[0].0, t[0].1).union_prefer_right(kv_map(t.skip(1))),
    decreases t.len(),
{
    if t.len() == 1 {
        assert(t.drop_last() =~= Seq::<(K, V)>::empty());
        assert(t.skip(1) =~= Seq::<(K, V)>::empty());
        assert(kv_map(t) =~= Map::empty().insert(t[0].0, t[0].1).union_prefer_right(
            kv_map(t.skip(1)),
        ));
    } else {
        lemma_kv_map_skip_first(t.drop_last());
        assert(t.drop_last()[0] == t[0]);
        assert(t.skip(1).drop_last() =~= t.drop_last().skip(1));
        assert(kv_map(t) == kv_map(t.drop_last()).insert(t.last().0, t.last().1));
        assert(kv_map(t.skip(1)) == kv_map(t.skip(1).drop_last()).insert(t.last().0, t.last().1));
        assert(kv_map(t) =~= Map::empty().insert(t[0].0, t[0].1).union_prefer_right(
            kv_map(t.skip(1)),
        ));
    }
}

} // verus!
