//! The namespace overlay: a unique-value map from atom name to atom index,
//! and a symmetric many-to-many relation between atom indices and class
//! tags. Both are orthogonal to the stacks.
use vstd::prelude::*;

use crate::tablespec::{
    kv_find, kv_has_key, kv_insert, kv_map, kv_unique, lemma_kv_find_first, lemma_kv_find_some,
    lemma_kv_insert_map, lemma_kv_map_dom, lemma_kv_map_index, lemma_kv_remove_map,
};

verus! {

/// What an insertion into the unique-value map did.
#[derive(Debug, Clone, PartialEq)]
pub enum InsertResult<K, V> {
    /// The name was present: its index was replaced, and this was it.
    Updated(V),
    /// The index is already taken by this other name; nothing changed.
    Duplicated(K),
    /// The name was new.
    Created,
}

/// Whether some entry carries the value `v`.
pub open spec fn has_value(s: Seq<(Seq<char>, usize)>, v: usize) -> bool {
    exists|i: int| 0 <= i < s.len() && s[i].1 == v
}

pub open spec fn values_unique(s: Seq<(Seq<char>, usize)>) -> bool {
    forall|i: int, j: int| 0 <= i < j < s.len() ==> s[i].1 != s[j].1
}

/// A mapping from atom-name string to atom index in which both the names
/// and the indices are unique: no index is reachable under two names.
#[derive(Debug, Clone, PartialEq)]
pub struct UniqueValueMap {
    pub entries: Vec<(String, usize)>,
}

impl DeepView for UniqueValueMap {
    type V = Seq<(Seq<char>, usize)>;

    open spec fn deep_view(&self) -> Seq<(Seq<char>, usize)> {
        self.entries.deep_view()
    }
}

impl UniqueValueMap {
    pub open spec fn wf(self) -> bool {
        kv_unique(self.deep_view()) && values_unique(self.deep_view())
    }

    /// The mapping the entries denote.
    pub open spec fn map_view(self) -> Map<Seq<char>, usize> {
        kv_map(self.deep_view())
    }

    pub fn new() -> (r: UniqueValueMap)
        ensures
            r.deep_view() =~= Seq::<(Seq<char>, usize)>::empty(),
            r.wf(),
    {
        UniqueValueMap { entries: Vec::new() }
    }

    pub fn data(&self) -> (r: &Vec<(String, usize)>)
        ensures
            r == self.entries,
    {
        &self.entries
    }

    fn position_of_value(&self, v: usize) -> (r: Option<usize>)
        ensures
            match r {
                Some(j) => j < self.deep_view().len() && self.deep_view()[j as int].1 == v,
                None => !has_value(self.deep_view(), v),
            },
    {
        let ghost s = self.deep_view();
        let n = self.entries.len();
        let mut j: usize = 0;
        loop
            invariant
                0 <= j <= n,
                n == s.len(),
                s == self.deep_view(),
                forall|m: int| 0 <= m < j ==> s[m].1 != v,
            ensures
                if j < n {
                    s[j as int].1 == v
                } else {
                    !has_value(s, v)
                },
            decreases n - j,
        {
            if j == n {
                break ;
            }
            if self.entries[j].1 == v {
                break ;
            }
            j = j + 1;
        }
        if j < n {
            Some(j)
        } else {
            None
        }
    }

    fn position_of_key(&self, k: &String) -> (r: Option<usize>)
        ensures
            match r {
                Some(i) => kv_find(self.deep_view(), k@) == Some(i as int),
                None => kv_find(self.deep_view(), k@) is None,
            },
    {
        let ghost s = self.deep_view();
        let n = self.entries.len();
        let mut i: usize = 0;
        loop
            invariant
                0 <= i <= n,
                n == s.len(),
                s == self.deep_view(),
                forall|m: int| 0 <= m < i ==> s[m].0 != k@,
            ensures
                match kv_find(s, k@) {
                    Some(j) => i < n && j == i && s[i as int].0 == k@,
                    None => i == n,
                },
            decreases n - i,
        {
            if i == n {
                proof {
                    lemma_kv_find_some(s, k@);
                }
                break ;
            }
            if self.entries[i].0 == *k {
                proof {
                    lemma_kv_find_first(s, k@, i as int);
                }
                break ;
            }
            i = i + 1;
        }
        if i < n {
            Some(i)
        } else {
            None
        }
    }

    /// Maps `k` to `v`. If another name already maps to `v`, nothing
    /// changes and that name comes back as `Duplicated`; if `k` was mapped
    /// to some index, it is remapped and the old index comes back as
    /// `Updated`; else the pair is added and `Created` comes back.
    pub fn insert(&mut self, k: String, v: usize) -> (r: InsertResult<String, usize>)
        requires
            old(self).wf(),
        ensures
            final(self).wf(),
            has_value(old(self).deep_view(), v) ==> *final(self) == *old(self) && (r matches
                InsertResult::Duplicated(kk) && (exists|j: int|
                0 <= j < old(self).deep_view().len() && old(self).deep_view()[j].1 == v && kk@
                    == old(self).deep_view()[j].0)),
            !has_value(old(self).deep_view(), v) ==> final(self).deep_view() == kv_insert(
                old(self).deep_view(),
                k@,
                v,
            ) && final(self).map_view() == old(self).map_view().insert(k@, v),
            !has_value(old(self).deep_view(), v) && kv_has_key(old(self).deep_view(), k@) ==> (r
                matches InsertResult::Updated(pv) && pv == old(self).map_view()[k@]),
            !has_value(old(self).deep_view(), v) && !kv_has_key(old(self).deep_view(), k@) ==> r
                is Created,
    {
        let ghost s = self.deep_view();
        match self.position_of_value(v) {
            Some(j) => {
                let kk = self.entries[j].0.clone();
                proof {
                    assert(s[j as int].1 == v);
                }
                InsertResult::Duplicated(kk)
            },
            None => {
                proof {
                    lemma_kv_insert_map(s, k@, v);
                    lemma_kv_find_some(s, k@);
                    lemma_kv_map_dom(s, k@);
                }
                match self.position_of_key(&k) {
                    Some(i) => {
                        proof {
                            lemma_kv_map_index(s, i as int);
                        }
                        let pv = self.entries[i].1;
                        self.entries.set(i, (k, v));
                        proof {
                            assert(self.deep_view() =~= kv_insert(s, k@, v));
                            assert(values_unique(self.deep_view())) by {
                                assert forall|a: int, b: int|
                                    0 <= a < b < self.deep_view().len() implies self.deep_view()[a].1
                                    != self.deep_view()[b].1 by {
                                    if a != i && b != i {
                                        assert(self.deep_view()[a] == s[a]);
                                        assert(self.deep_view()[b] == s[b]);
                                    }
                                }
                            }
                        }
                        InsertResult::Updated(pv)
                    },
                    None => {
                        self.entries.push((k, v));
                        proof {
                            assert(self.deep_view() =~= kv_insert(s, k@, v));
                            assert(values_unique(self.deep_view())) by {
                                assert forall|a: int, b: int|
                                    0 <= a < b < self.deep_view().len() implies self.deep_view()[a].1
                                    != self.deep_view()[b].1 by {
                                    if b < s.len() {
                                        assert(self.deep_view()[a] == s[a]);
                                        assert(self.deep_view()[b] == s[b]);
                                    } else {
                                        assert(self.deep_view()[a] == s[a]);
                                        assert(self.deep_view()[b].1 == v);
                                    }
                                }
                            }
                        }
                        InsertResult::Created
                    },
                }
            },
        }
    }

    /// Takes the name out of the map; hands back the index it mapped to.
    pub fn remove(&mut self, k: &String) -> (r: Option<usize>)
        requires
            old(self).wf(),
        ensures
            final(self).wf(),
            final(self).map_view() == old(self).map_view().remove(k@),
            match r {
                Some(v) => kv_has_key(old(self).deep_view(), k@) && v == old(self).map_view()[k@],
                None => !kv_has_key(old(self).deep_view(), k@) && *final(self) == *old(self),
            },
    {
        let ghost s = self.deep_view();
        proof {
            lemma_kv_find_some(s, k@);
            lemma_kv_map_dom(s, k@);
        }
        match self.position_of_key(k) {
            Some(i) => {
                proof {
                    lemma_kv_map_index(s, i as int);
                    lemma_kv_remove_map(s, i as int);
                }
                let (_, v) = self.entries.remove(i);
                proof {
                    assert(self.deep_view() =~= s.remove(i as int));
                    assert(values_unique(self.deep_view())) by {
                        assert forall|a: int, b: int|
                            0 <= a < b < self.deep_view().len() implies self.deep_view()[a].1
                            != self.deep_view()[b].1 by {
                            let a0 = if a < i {
                                a
                            } else {
                                a + 1
                            };
                            let b0 = if b < i {
                                b
                            } else {
                                b + 1
                            };
                            assert(self.deep_view()[a] == s[a0]);
                            assert(self.deep_view()[b] == s[b0]);
                        }
                    }
                }
                Some(v)
            },
            None => {
                proof {
                    assert(old(self).map_view().remove(k@) =~= old(self).map_view());
                }
                None
            },
        }
    }

    /// The index mapped to the name, if any.
    pub fn get(&self, k: &String) -> (r: Option<usize>)
        requires
            self.wf(),
        ensures
            match r {
                Some(v) => self.map_view().contains_key(k@) && v == self.map_view()[k@],
                None => !self.map_view().contains_key(k@),
            },
    {
        let ghost s = self.deep_view();
        proof {
            lemma_kv_find_some(s, k@);
            lemma_kv_map_dom(s, k@);
        }
        match self.position_of_key(k) {
            Some(i) => {
                proof {
                    lemma_kv_map_index(s, i as int);
                }
                Some(self.entries[i].1)
            },
            None => None,
        }
    }

    /// The name that maps to the index `v`, if any.
    pub fn key_of_value(&self, v: usize) -> (r: Option<String>)
        ensures
            match r {
                Some(name) => exists|j: int|
                    0 <= j < self.deep_view().len() && #[trigger] self.deep_view()[j] == (
                        name@,
                        v,
                    ),
                None => !has_value(self.deep_view(), v),
            },
    {
        match self.position_of_value(v) {
            Some(j) => {
                let name = self.entries[j].0.clone();
                proof {
                    assert(self.deep_view()[j as int] == (name@, v));
                }
                Some(name)
            },
            None => None,
        }
    }

    /// All names, in entry order.
    pub fn keys(&self) -> (r: Vec<String>)
        ensures
            r.deep_view().len() == self.deep_view().len(),
            forall|m: int|
                0 <= m < r.deep_view().len() ==> #[trigger] r.deep_view()[m]
                    == self.deep_view()[m].0,
    {
        let n = self.entries.len();
        let mut out: Vec<String> = Vec::new();
        let mut i: usize = 0;
        while i < n
            invariant
                0 <= i <= n,
                n == self.deep_view().len(),
                out.deep_view().len() == i,
                forall|m: int|
                    0 <= m < i ==> #[trigger] out.deep_view()[m] == self.deep_view()[m].0,
            decreases n - i,
        {
            let ghost prevdv = out.deep_view();
            out.push(self.entries[i].0.clone());
            proof {
                assert(out.deep_view()[i as int] == self.deep_view()[i as int].0);
                assert forall|m: int| 0 <= m < i + 1 implies #[trigger] out.deep_view()[m]
                    == self.deep_view()[m].0 by {
                    if m < i {
                        assert(out.deep_view()[m] == prevdv[m]);
                        assert(prevdv[m] == self.deep_view()[m].0);
                    }
                }
            }
            i = i + 1;
        }
        out
    }

    /// Builds the map from an entry listing; the listing comes back
    /// unchanged where a name or an index repeats.
    pub fn from_map(entries: Vec<(String, usize)>) -> (r: Result<
        UniqueValueMap,
        Vec<(String, usize)>,
    >)
        ensures
            r matches Ok(m) ==> m.wf() && m.deep_view() == entries.deep_view(),
            r is Ok <==> kv_unique(entries.deep_view()) && values_unique(entries.deep_view()),
            r matches Err(e) ==> e == entries,
    {
        let ghost s = entries.deep_view();
        let n = entries.len();
        let mut i: usize = 0;
        let mut ok = true;
        while i < n
            invariant
                0 <= i <= n,
                n == s.len(),
                s == entries.deep_view(),
                ok ==> (forall|a: int, b: int|
                    0 <= a < b < i ==> s[a].0 != s[b].0 && s[a].1 != s[b].1),
                !ok ==> (exists|a: int, b: int|
                    0 <= a < b < n && (s[a].0 == s[b].0 || s[a].1 == s[b].1)),
            decreases n - i,
        {
            let mut j: usize = 0;
            while j < i
                invariant
                    0 <= j <= i <= n,
                    i < n,
                    n == s.len(),
                    s == entries.deep_view(),
                    ok ==> ((forall|a: int, b: int|
                        0 <= a < b < i ==> s[a].0 != s[b].0 && s[a].1 != s[b].1) && (forall|a: int|
                        0 <= a < j ==> s[a].0 != s[i as int].0 && s[a].1 != s[i as int].1)),
                    !ok ==> (exists|a: int, b: int|
                        0 <= a < b < n && (s[a].0 == s[b].0 || s[a].1 == s[b].1)),
                decreases i - j,
            {
                if entries[j].0 == entries[i].0 || entries[j].1 == entries[i].1 {
                    proof {
                        assert(s[j as int].0 == s[i as int].0 || s[j as int].1 == s[i as int].1);
                    }
                    ok = false;
                }
                j = j + 1;
            }
            proof {
                if ok {
                    assert forall|a: int, b: int|
                        0 <= a < b < i + 1 implies s[a].0 != s[b].0 && s[a].1 != s[b].1 by {
                        if b < i {
                        } else {
                            assert(b == i);
                        }
                    }
                }
            }
            i = i + 1;
        }
        if ok {
            proof {
                assert(kv_unique(s));
                assert(values_unique(s));
            }
            Ok(UniqueValueMap { entries })
        } else {
            proof {
                let (a, b) = choose|a: int, b: int|
                    0 <= a < b < n && (s[a].0 == s[b].0 || s[a].1 == s[b].1);
                if kv_unique(s) && values_unique(s) {
                    assert(s[a].0 != s[b].0 && s[a].1 != s[b].1);
                    assert(false);
                }
            }
            Err(entries)
        }
    }
}

/// A symmetric many-to-many relation between atom indices and class tags,
/// held as a listing of pairs without repetition and read as a set.
#[derive(Debug, Clone, PartialEq)]
pub struct NtoN {
    pub entries: Vec<(usize, String)>,
}

impl DeepView for NtoN {
    type V = Seq<(usize, Seq<char>)>;

    open spec fn deep_view(&self) -> Seq<(usize, Seq<char>)> {
        self.entries.deep_view()
    }
}

impl NtoN {
    pub open spec fn wf(self) -> bool {
        self.deep_view().no_duplicates()
    }

    /// The relation the listing denotes.
    pub open spec fn set_view(self) -> Set<(usize, Seq<char>)> {
        self.deep_view().to_set()
    }

    pub fn new() -> (r: NtoN)
        ensures
            r.deep_view() =~= Seq::<(usize, Seq<char>)>::empty(),
            r.wf(),
    {
        NtoN { entries: Vec::new() }
    }

    pub fn data(&self) -> (r: &Vec<(usize, String)>)
        ensures
            r == self.entries,
    {
        &self.entries
    }

    /// Whether the pair is in the relation.
    pub fn contains(&self, left: usize, right: &String) -> (r: bool)
        ensures
            r == self.set_view().contains((left, right@)),
    {
        match self.position(left, right) {
            Some(_) => {
                proof {
                    assert(self.deep_view().contains((left, right@)));
                }
                true
            },
            None => false,
        }
    }

    fn position(&self, left: usize, right: &String) -> (r: Option<usize>)
        ensures
            match r {
                Some(i) => i < self.deep_view().len() && self.deep_view()[i as int] == (
                    left,
                    right@,
                ),
                None => !self.deep_view().contains((left, right@)),
            },
    {
        let ghost s = self.deep_view();
        let n = self.entries.len();
        let mut i: usize = 0;
        loop
            invariant
                0 <= i <= n,
                n == s.len(),
                s == self.deep_view(),
                forall|m: int| 0 <= m < i ==> s[m] != (left, right@),
            ensures
                if i < n {
                    s[i as int] == (left, right@)
                } else {
                    !s.contains((left, right@))
                },
            decreases n - i,
        {
            if i == n {
                break ;
            }
            if self.entries[i].0 == left && self.entries[i].1 == *right {
                proof {
                    assert(s[i as int] == (left, right@));
                }
                break ;
            }
            i = i + 1;
        }
        if i < n {
            Some(i)
        } else {
            None
        }
    }

    /// Adds the pair to the relation; `true` when it was not there yet.
    pub fn insert(&mut self, left: usize, right: String) -> (r: bool)
        requires
            old(self).wf(),
        ensures
            final(self).wf(),
            final(self).set_view() == old(self).set_view().insert((left, right@)),
            r == !old(self).set_view().contains((left, right@)),
            r ==> final(self).deep_view() == old(self).deep_view().push((left, right@)),
            !r ==> *final(self) == *old(self),
    {
        let ghost s = self.deep_view();
        match self.position(left, &right) {
            Some(_) => {
                proof {
                    assert(s.contains((left, right@)));
                    assert(s.to_set().contains((left, right@)));
                    assert(old(self).set_view().insert((left, right@)) =~= old(self).set_view());
                }
                false
            },
            None => {
                self.entries.push((left, right));
                proof {
                    assert(self.deep_view() =~= s.push((left, right@)));
                    assert(self.deep_view().no_duplicates()) by {
                        assert(forall|m: int| 0 <= m < s.len() ==> s[m] == self.deep_view()[m]);
                    }
                    assert(self.set_view() =~= old(self).set_view().insert((left, right@))) by {
                        assert forall|e: (usize, Seq<char>)| #[trigger]
                            self.deep_view().contains(e) implies s.to_set().insert(
                            (left, right@),
                        ).contains(e) by {
                            let m = choose|m: int|
                                0 <= m < self.deep_view().len() && self.deep_view()[m] == e;
                            if m < s.len() {
                                assert(s[m] == e);
                            }
                        }
                        assert forall|e: (usize, Seq<char>)|
                            s.to_set().insert((left, right@)).contains(e) implies #[trigger]
                        self.deep_view().contains(e) by {
                            if e == (left, right@) {
                                assert(self.deep_view()[s.len() as int] == e);
                            } else {
                                let m = choose|m: int| 0 <= m < s.len() && s[m] == e;
                                assert(self.deep_view()[m] == e);
                            }
                        }
                    }
                }
                true
            },
        }
    }

    /// Takes the pair out of the relation; `true` when it was there.
    pub fn remove(&mut self, left: usize, right: &String) -> (r: bool)
        requires
            old(self).wf(),
        ensures
            final(self).wf(),
            final(self).set_view() == old(self).set_view().remove((left, right@)),
            r == old(self).set_view().contains((left, right@)),
            !r ==> *final(self) == *old(self),
    {
        let ghost s = self.deep_view();
        match self.position(left, right) {
            Some(i) => {
                self.entries.remove(i);
                proof {
                    assert(self.deep_view() =~= s.remove(i as int));
                    assert(self.deep_view().no_duplicates()) by {
                        assert forall|a: int, b: int|
                            0 <= a < b < self.deep_view().len() implies self.deep_view()[a]
                            != self.deep_view()[b] by {
                            let a0 = if a < i {
                                a
                            } else {
                                a + 1
                            };
                            let b0 = if b < i {
                                b
                            } else {
                                b + 1
                            };
                            assert(self.deep_view()[a] == s[a0]);
                            assert(self.deep_view()[b] == s[b0]);
                        }
                    }
                    assert(s.to_set().contains((left, right@)));
                    assert(self.set_view() =~= old(self).set_view().remove((left, right@))) by {
                        assert forall|e: (usize, Seq<char>)| #[trigger]
                            self.deep_view().contains(e) implies s.to_set().remove(
                            (left, right@),
                        ).contains(e) by {
                            let m = choose|m: int|
                                0 <= m < self.deep_view().len() && self.deep_view()[m] == e;
                            let m0 = if m < i {
                                m
                            } else {
                                m + 1
                            };
                            assert(s[m0] == e);
                            assert(e != (left, right@)) by {
                                if m0 != i {
                                    assert(s[i as int] == (left, right@));
                                }
                            }
                        }
                        assert forall|e: (usize, Seq<char>)|
                            s.to_set().remove((left, right@)).contains(e) implies #[trigger]
                        self.deep_view().contains(e) by {
                            let m = choose|m: int| 0 <= m < s.len() && s[m] == e;
                            assert(m != i);
                            let m1 = if m < i {
                                m
                            } else {
                                m - 1
                            };
                            assert(self.deep_view()[m1] == e);
                        }
                    }
                }
                true
            },
            None => {
                proof {
                    assert(!s.to_set().contains((left, right@)));
                    assert(old(self).set_view().remove((left, right@)) =~= old(self).set_view());
                }
                false
            },
        }
    }

    /// Drops every pair whose index is `left`.
    pub fn remove_left(&mut self, left: usize)
        requires
            old(self).wf(),
        ensures
            final(self).wf(),
            final(self).set_view() == Set::new(
                |e: (usize, Seq<char>)| old(self).set_view().contains(e) && e.0 != left,
            ),
    {
        let ghost s = self.deep_view();
        let n = self.entries.len();
        let mut kept: Vec<(usize, String)> = Vec::new();
        let mut i: usize = 0;
        while i < n
            invariant
                0 <= i <= n,
                n == s.len(),
                s == self.deep_view(),
                self.wf(),
                kept.deep_view().no_duplicates(),
                forall|e: (usize, Seq<char>)|
                    #[trigger] kept.deep_view().contains(e) <==> (s.take(i as int).contains(e)
                        && e.0 != left),
            decreases n - i,
        {
            let ghost prevdv = kept.deep_view();
            if !(self.entries[i].0 == left) {
                kept.push((self.entries[i].0, self.entries[i].1.clone()));
                proof {
                    assert(kept.deep_view() =~= prevdv.push(s[i as int]));
                    assert(kept.deep_view().no_duplicates()) by {
                        assert(forall|m: int|
                            0 <= m < prevdv.len() ==> kept.deep_view()[m] == prevdv[m]);
                        assert(!prevdv.contains(s[i as int])) by {
                            if prevdv.contains(s[i as int]) {
                                assert(s.take(i as int).contains(s[i as int]));
                                let m = choose|m: int|
                                    0 <= m < i && s.take(i as int)[m] == s[i as int];
                                assert(s[m] == s[i as int]);
                            }
                        }
                    }
                }
            }
            proof {
                assert forall|e: (usize, Seq<char>)| #[trigger]
                    kept.deep_view().contains(e) implies (s.take(i as int + 1).contains(e) && e.0
                    != left) by {
                    let m = choose|m: int|
                        0 <= m < kept.deep_view().len() && kept.deep_view()[m] == e;
                    if m < prevdv.len() {
                        assert(prevdv[m] == e);
                        assert(prevdv.contains(e));
                        let m2 = choose|m2: int| 0 <= m2 < i && s.take(i as int)[m2] == e;
                        assert(s.take(i as int + 1)[m2] == e);
                    } else {
                        assert(e == s[i as int]);
                        assert(s.take(i as int + 1)[i as int] == e);
                    }
                }
                assert forall|e: (usize, Seq<char>)|
                    s.take(i as int + 1).contains(e) && e.0 != left implies #[trigger]
                kept.deep_view().contains(e) by {
                    let m = choose|m: int| 0 <= m < i + 1 && #[trigger] s.take(i as int + 1)[m] == e;
                    if m < i {
                        assert(s.take(i as int)[m] == e);
                        assert(prevdv.contains(e));
                        let m2 = choose|m2: int| 0 <= m2 < prevdv.len() && prevdv[m2] == e;
                        assert(kept.deep_view()[m2] == e);
                    } else {
                        assert(e == s[i as int]);
                        assert(kept.deep_view()[kept.deep_view().len() - 1] == e);
                    }
                }
            }
            i = i + 1;
        }
        self.entries = kept;
        proof {
            assert(s.take(n as int) =~= s);
            assert(self.set_view() =~= Set::new(
                |e: (usize, Seq<char>)| old(self).set_view().contains(e) && e.0 != left,
            ));
        }
    }

    /// Drops every pair whose tag is `right`.
    pub fn remove_right(&mut self, right: &String)
        requires
            old(self).wf(),
        ensures
            final(self).wf(),
            final(self).set_view() == Set::new(
                |e: (usize, Seq<char>)| old(self).set_view().contains(e) && e.1 != right@,
            ),
    {
        let ghost s = self.deep_view();
        let n = self.entries.len();
        let mut kept: Vec<(usize, String)> = Vec::new();
        let mut i: usize = 0;
        while i < n
            invariant
                0 <= i <= n,
                n == s.len(),
                s == self.deep_view(),
                self.wf(),
                kept.deep_view().no_duplicates(),
                forall|e: (usize, Seq<char>)|
                    #[trigger] kept.deep_view().contains(e) <==> (s.take(i as int).contains(e)
                        && e.1 != right@),
            decreases n - i,
        {
            let ghost prevdv = kept.deep_view();
            if !(self.entries[i].1 == *right) {
                kept.push((self.entries[i].0, self.entries[i].1.clone()));
                proof {
                    assert(kept.deep_view() =~= prevdv.push(s[i as int]));
                    assert(kept.deep_view().no_duplicates()) by {
                        assert(forall|m: int|
                            0 <= m < prevdv.len() ==> kept.deep_view()[m] == prevdv[m]);
                        assert(!prevdv.contains(s[i as int])) by {
                            if prevdv.contains(s[i as int]) {
                                assert(s.take(i as int).contains(s[i as int]));
                                let m = choose|m: int|
                                    0 <= m < i && s.take(i as int)[m] == s[i as int];
                                assert(s[m] == s[i as int]);
                            }
                        }
                    }
                }
            }
            proof {
                assert forall|e: (usize, Seq<char>)| #[trigger]
                    kept.deep_view().contains(e) implies (s.take(i as int + 1).contains(e) && e.1
                    != right@) by {
                    let m = choose|m: int|
                        0 <= m < kept.deep_view().len() && kept.deep_view()[m] == e;
                    if m < prevdv.len() {
                        assert(prevdv[m] == e);
                        assert(prevdv.contains(e));
                        let m2 = choose|m2: int| 0 <= m2 < i && s.take(i as int)[m2] == e;
                        assert(s.take(i as int + 1)[m2] == e);
                    } else {
                        assert(e == s[i as int]);
                        assert(s.take(i as int + 1)[i as int] == e);
                    }
                }
                assert forall|e: (usize, Seq<char>)|
                    s.take(i as int + 1).contains(e) && e.1 != right@ implies #[trigger]
                kept.deep_view().contains(e) by {
                    let m = choose|m: int| 0 <= m < i + 1 && #[trigger] s.take(i as int + 1)[m] == e;
                    if m < i {
                        assert(s.take(i as int)[m] == e);
                        assert(prevdv.contains(e));
                        let m2 = choose|m2: int| 0 <= m2 < prevdv.len() && prevdv[m2] == e;
                        assert(kept.deep_view()[m2] == e);
                    } else {
                        assert(e == s[i as int]);
                        assert(kept.deep_view()[kept.deep_view().len() - 1] == e);
                    }
                }
            }
            i = i + 1;
        }
        self.entries = kept;
        proof {
            assert(s.take(n as int) =~= s);
            assert(self.set_view() =~= Set::new(
                |e: (usize, Seq<char>)| old(self).set_view().contains(e) && e.1 != right@,
            ));
        }
    }

    /// The tags paired with the index `left`, in entry order.
    pub fn get_left(&self, left: usize) -> (r: Vec<String>)
        ensures
            forall|t: Seq<char>|
                #[trigger] r.deep_view().contains(t) <==> self.set_view().contains((left, t)),
    {
        let ghost s = self.deep_view();
        let n = self.entries.len();
        let mut out: Vec<String> = Vec::new();
        let mut i: usize = 0;
        while i < n
            invariant
                0 <= i <= n,
                n == s.len(),
                s == self.deep_view(),
                forall|t: Seq<char>|
                    #[trigger] out.deep_view().contains(t) <==> (exists|m: int|
                        0 <= m < i && s[m] == (left, t)),
            decreases n - i,
        {
            let ghost prevdv = out.deep_view();
            if self.entries[i].0 == left {
                out.push(self.entries[i].1.clone());
                proof {
                    assert(out.deep_view() =~= prevdv.push(s[i as int].1));
                    assert(s[i as int] == (left, s[i as int].1));
                }
            }
            proof {
                assert forall|t: Seq<char>| #[trigger]
                    out.deep_view().contains(t) implies (exists|m: int|
                    0 <= m < i + 1 && s[m] == (left, t)) by {
                    let m = choose|m: int|
                        0 <= m < out.deep_view().len() && out.deep_view()[m] == t;
                    if m < prevdv.len() {
                        assert(prevdv[m] == t);
                        assert(prevdv.contains(t));
                    } else {
                        assert(s[i as int] == (left, t));
                    }
                }
                assert forall|t: Seq<char>|
                    (exists|m: int| 0 <= m < i + 1 && s[m] == (left, t)) implies #[trigger]
                out.deep_view().contains(t) by {
                    let m = choose|m: int| 0 <= m < i + 1 && s[m] == (left, t);
                    if m < i {
                        assert(prevdv.contains(t));
                        let m2 = choose|m2: int| 0 <= m2 < prevdv.len() && prevdv[m2] == t;
                        assert(out.deep_view()[m2] == t);
                    } else {
                        assert(out.deep_view()[out.deep_view().len() - 1] == t);
                    }
                }
            }
            i = i + 1;
        }
        proof {
            assert forall|t: Seq<char>| #[trigger]
                out.deep_view().contains(t) implies self.set_view().contains((left, t)) by {
                let m = choose|m: int| 0 <= m < n && s[m] == (left, t);
                assert(s.contains((left, t)));
            }
            assert forall|t: Seq<char>|
                self.set_view().contains((left, t)) implies #[trigger] out.deep_view().contains(
                t,
            ) by {
                let m = choose|m: int| 0 <= m < s.len() && s[m] == (left, t);
            }
        }
        out
    }

    /// The indices paired with the tag `right`, in entry order.
    pub fn get_right(&self, right: &String) -> (r: Vec<usize>)
        ensures
            forall|l: usize| #[trigger] r@.contains(l) <==> self.set_view().contains((l, right@)),
    {
        let ghost s = self.deep_view();
        let n = self.entries.len();
        let mut out: Vec<usize> = Vec::new();
        let mut i: usize = 0;
        while i < n
            invariant
                0 <= i <= n,
                n == s.len(),
                s == self.deep_view(),
                forall|l: usize|
                    #[trigger] out@.contains(l) <==> (exists|m: int|
                        0 <= m < i && s[m] == (l, right@)),
            decreases n - i,
        {
            let ghost prevv = out@;
            if self.entries[i].1 == *right {
                out.push(self.entries[i].0);
                proof {
                    assert(out@ =~= prevv.push(s[i as int].0));
                    assert(s[i as int] == (s[i as int].0, right@));
                }
            }
            proof {
                assert forall|l: usize| #[trigger] out@.contains(l) implies (exists|m: int|
                    0 <= m < i + 1 && s[m] == (l, right@)) by {
                    let m = choose|m: int| 0 <= m < out@.len() && out@[m] == l;
                    if m < prevv.len() {
                        assert(prevv[m] == l);
                        assert(prevv.contains(l));
                    } else {
                        assert(s[i as int] == (l, right@));
                    }
                }
                assert forall|l: usize|
                    (exists|m: int| 0 <= m < i + 1 && s[m] == (l, right@)) implies #[trigger]
                out@.contains(l) by {
                    let m = choose|m: int| 0 <= m < i + 1 && s[m] == (l, right@);
                    if m < i {
                        assert(prevv.contains(l));
                        let m2 = choose|m2: int| 0 <= m2 < prevv.len() && prevv[m2] == l;
                        assert(out@[m2] == l);
                    } else {
                        assert(out@[out@.len() - 1] == l);
                    }
                }
            }
            i = i + 1;
        }
        proof {
            assert forall|l: usize| #[trigger] out@.contains(l) implies self.set_view().contains(
                (l, right@),
            ) by {
                let m = choose|m: int| 0 <= m < n && s[m] == (l, right@);
                assert(s.contains((l, right@)));
            }
            assert forall|l: usize|
                self.set_view().contains((l, right@)) implies #[trigger] out@.contains(l) by {
                let m = choose|m: int| 0 <= m < s.len() && s[m] == (l, right@);
            }
        }
        out
    }

    /// The tags that occur in the relation, each once, in first-occurrence
    /// order.
    pub fn get_rights(&self) -> (r: Vec<String>)
        ensures
            r.deep_view().no_duplicates(),
            forall|t: Seq<char>|
                #[trigger] r.deep_view().contains(t) <==> (exists|l: usize|
                    self.set_view().contains((l, t))),
    {
        let ghost s = self.deep_view();
        let n = self.entries.len();
        let mut out: Vec<String> = Vec::new();
        let mut i: usize = 0;
        while i < n
            invariant
                0 <= i <= n,
                n == s.len(),
                s == self.deep_view(),
                out.deep_view().no_duplicates(),
                forall|t: Seq<char>|
                    #[trigger] out.deep_view().contains(t) <==> (exists|m: int|
                        0 <= m < i && s[m].1 == t),
            decreases n - i,
        {
            let ghost prevdv = out.deep_view();
            let mut seen = false;
            let m = out.len();
            let mut j: usize = 0;
            while j < m
                invariant
                    0 <= j <= m,
                    i < n,
                    n == s.len(),
                    s == self.deep_view(),
                    m == prevdv.len(),
                    m == out@.len(),
                    prevdv == out.deep_view(),
                    seen <==> (exists|m2: int| 0 <= m2 < j && prevdv[m2] == s[i as int].1),
                decreases m - j,
            {
                if out[j] == self.entries[i].1 {
                    proof {
                        assert(prevdv[j as int] == s[i as int].1);
                    }
                    seen = true;
                }
                j = j + 1;
            }
            if !seen {
                out.push(self.entries[i].1.clone());
                proof {
                    assert(out.deep_view() =~= prevdv.push(s[i as int].1));
                    assert(!prevdv.contains(s[i as int].1));
                    assert(out.deep_view().no_duplicates()) by {
                        assert(forall|m2: int|
                            0 <= m2 < prevdv.len() ==> out.deep_view()[m2] == prevdv[m2]);
                    }
                }
            }
            proof {
                assert forall|t: Seq<char>| #[trigger]
                    out.deep_view().contains(t) implies (exists|m2: int|
                    0 <= m2 < i + 1 && s[m2].1 == t) by {
                    let m2 = choose|m2: int|
                        0 <= m2 < out.deep_view().len() && out.deep_view()[m2] == t;
                    if m2 < prevdv.len() {
                        assert(prevdv[m2] == t);
                        assert(prevdv.contains(t));
                    } else {
                        assert(t == s[i as int].1);
                    }
                }
                assert forall|t: Seq<char>|
                    (exists|m2: int| 0 <= m2 < i + 1 && s[m2].1 == t) implies #[trigger]
                out.deep_view().contains(t) by {
                    let m2 = choose|m2: int| 0 <= m2 < i + 1 && s[m2].1 == t;
                    if m2 < i {
                        assert(prevdv.contains(t));
                        let m3 = choose|m3: int| 0 <= m3 < prevdv.len() && prevdv[m3] == t;
                        assert(out.deep_view()[m3] == t);
                    } else {
                        if prevdv.contains(t) {
                            let m3 = choose|m3: int| 0 <= m3 < prevdv.len() && prevdv[m3] == t;
                            assert(out.deep_view()[m3] == t);
                        } else {
                            assert(out.deep_view()[out.deep_view().len() - 1] == t);
                        }
                    }
                }
            }
            i = i + 1;
        }
        proof {
            assert forall|t: Seq<char>| #[trigger]
                out.deep_view().contains(t) implies (exists|l: usize|
                self.set_view().contains((l, t))) by {
                let m = choose|m: int| 0 <= m < n && s[m].1 == t;
                assert(s[m] == (s[m].0, t));
                assert(s.contains((s[m].0, t)));
                assert(self.set_view().contains((s[m].0, t)));
            }
            assert forall|t: Seq<char>|
                (exists|l: usize| self.set_view().contains((l, t))) implies #[trigger]
            out.deep_view().contains(t) by {
                let l = choose|l: usize| self.set_view().contains((l, t));
                let m = choose|m: int| 0 <= m < s.len() && s[m] == (l, t);
                assert(s[m].1 == t);
            }
        }
        out
    }
}

} // verus!
