//! The shared leaf data structure: a sparse atom table with tombstones, an
//! edge table keyed by unordered pairs with optional orders, and a group
//! relation between atom indices and tags.
use vstd::prelude::*;

use crate::numbers::is_json_number;
use crate::pair::Pair;
use crate::tablespec::{
    kv_extend, kv_find, kv_insert, kv_map, kv_unique, lemma_kv_extend_map, lemma_kv_extend_push,
    lemma_kv_find_first, lemma_kv_find_some, lemma_kv_insert_map, lemma_kv_map_dom,
    lemma_kv_map_index,
};

verus! {

impl DeepView for Pair {
    type V = Pair;

    open spec fn deep_view(&self) -> Pair {
        *self
    }
}

/// A position: three coordinates kept as their decimal writings, exactly as
/// they travel in documents. The library moves them; it never computes on
/// them itself.
#[derive(Debug, Clone)]
pub struct Vec3 {
    pub x: String,
    pub y: String,
    pub z: String,
}

pub ghost struct Vec3V {
    pub x: Seq<char>,
    pub y: Seq<char>,
    pub z: Seq<char>,
}

impl DeepView for Vec3 {
    type V = Vec3V;

    open spec fn deep_view(&self) -> Vec3V {
        Vec3V { x: self.x@, y: self.y@, z: self.z@ }
    }
}

pub open spec fn vec3_v_wf(v: Vec3V) -> bool {
    is_json_number(v.x) && is_json_number(v.y) && is_json_number(v.z)
}

impl Vec3 {
    pub open spec fn wf(self) -> bool {
        vec3_v_wf(self.deep_view())
    }

    /// Builds a position after checking that each coordinate is a decimal
    /// number writing; returns `None` otherwise.
    pub fn new(x: String, y: String, z: String) -> (r: Option<Vec3>)
        ensures
            r matches Some(v) ==> v.wf() && v.deep_view() == (Vec3V { x: x@, y: y@, z: z@ }),
            r is None <==> !vec3_v_wf(Vec3V { x: x@, y: y@, z: z@ }),
    {
        if crate::numbers::check_json_number(x.as_str()) && crate::numbers::check_json_number(
            y.as_str(),
        ) && crate::numbers::check_json_number(z.as_str()) {
            Some(Vec3 { x, y, z })
        } else {
            None
        }
    }

    pub fn duplicate(&self) -> (r: Vec3)
        ensures
            r == *self,
    {
        Vec3 { x: self.x.clone(), y: self.y.clone(), z: self.z.clone() }
    }

    pub fn eq_value(&self, other: &Vec3) -> (r: bool)
        ensures
            r == (self.deep_view() == other.deep_view()),
    {
        let r = self.x == other.x && self.y == other.y && self.z == other.z;
        proof {
            if self.x@ == other.x@ && self.y@ == other.y@ && self.z@ == other.z@ {
                assert(self.deep_view() == other.deep_view());
            }
        }
        r
    }
}

/// An atom: an element number and a position. A value type, freely copied.
#[derive(Debug, Clone)]
pub struct Atom {
    pub element: usize,
    pub position: Vec3,
}

pub ghost struct AtomV {
    pub element: usize,
    pub position: Vec3V,
}

impl DeepView for Atom {
    type V = AtomV;

    open spec fn deep_view(&self) -> AtomV {
        AtomV { element: self.element, position: self.position.deep_view() }
    }
}

pub open spec fn atom_v_wf(a: AtomV) -> bool {
    vec3_v_wf(a.position)
}

impl Atom {
    pub open spec fn wf(self) -> bool {
        atom_v_wf(self.deep_view())
    }

    pub fn new(element: usize, position: Vec3) -> (r: Atom)
        ensures
            r.element == element,
            r.position == position,
    {
        Atom { element, position }
    }

    pub fn get_element(&self) -> (r: usize)
        ensures
            r == self.element,
    {
        self.element
    }

    pub fn get_position(&self) -> (r: &Vec3)
        ensures
            r == self.position,
    {
        &self.position
    }

    /// The same atom with another element number.
    pub fn set_element(self, element: usize) -> (r: Atom)
        ensures
            r.element == element,
            r.position == self.position,
    {
        Atom { element, ..self }
    }

    /// The same atom at another position.
    pub fn set_position(self, position: Vec3) -> (r: Atom)
        ensures
            r.element == self.element,
            r.position == position,
    {
        Atom { position, ..self }
    }

    pub fn duplicate(&self) -> (r: Atom)
        ensures
            r == *self,
    {
        Atom { element: self.element, position: self.position.duplicate() }
    }

    pub fn eq_value(&self, other: &Atom) -> (r: bool)
        ensures
            r == (self.deep_view() == other.deep_view()),
    {
        let r = self.element == other.element && self.position.eq_value(&other.position);
        proof {
            if self.element == other.element && self.position.deep_view()
                == other.position.deep_view() {
                assert(self.deep_view() == other.deep_view());
            }
        }
        r
    }
}

fn eq_opt_atom(a: &Option<Atom>, b: &Option<Atom>) -> (r: bool)
    ensures
        r == (a.deep_view() == b.deep_view()),
{
    match (a, b) {
        (None, None) => true,
        (Some(x), Some(y)) => x.eq_value(y),
        _ => false,
    }
}

/// The sparse atom table: a mapping from atom index to an optional atom. An
/// entry holding `None` is a tombstone: the index was explicitly erased by an
/// upper layer, which is distinct from the index being absent.
#[derive(Debug, Clone)]
pub struct AtomTable {
    pub entries: Vec<(usize, Option<Atom>)>,
}

impl DeepView for AtomTable {
    type V = Seq<(usize, Option<AtomV>)>;

    open spec fn deep_view(&self) -> Seq<(usize, Option<AtomV>)> {
        self.entries.deep_view()
    }
}

pub open spec fn atom_entries_wf(s: Seq<(usize, Option<AtomV>)>) -> bool {
    &&& kv_unique(s)
    &&& forall|i: int|
        0 <= i < s.len() ==> (#[trigger] s[i].1 matches Some(a) ==> atom_v_wf(a))
}

impl AtomTable {
    pub open spec fn wf(self) -> bool {
        atom_entries_wf(self.deep_view())
    }

    /// The table read as a map from index to optional atom.
    pub open spec fn map_view(self) -> Map<usize, Option<AtomV>> {
        kv_map(self.deep_view())
    }

    pub fn new() -> (r: AtomTable)
        ensures
            r.deep_view() =~= Seq::<(usize, Option<AtomV>)>::empty(),
            r.wf(),
    {
        AtomTable { entries: Vec::new() }
    }

    pub fn len(&self) -> (r: usize)
        ensures
            r == self.deep_view().len(),
    {
        self.entries.len()
    }

    fn find(&self, k: usize) -> (r: Option<usize>)
        ensures
            match r {
                Some(i) => kv_find(self.deep_view(), k) == Some(i as int),
                None => kv_find(self.deep_view(), k) is None,
            },
    {
        let ghost s = self.deep_view();
        let n = self.entries.len();
        let mut i: usize = 0;
        loop
            invariant
                0 <= i <= n,
                n == s.len(),
                s == self.deep_view(),
                forall|m: int| 0 <= m < i ==> s[m].0 != k,
            ensures
                match kv_find(s, k) {
                    Some(j) => i < n && j == i && s[i as int].0 == k,
                    None => i == n,
                },
            decreases n - i,
        {
            if i == n {
                proof {
                    lemma_kv_find_some(s, k);
                }
                break ;
            }
            if self.entries[i].0 == k {
                proof {
                    lemma_kv_find_first(s, k, i as int);
                }
                break ;
            }
            i = i + 1;
        }
        if i < n {
            Some(i)
        } else {
            None
        }
    }

    /// Looks the index up; distinguishes a tombstone (`Some(None)`) from an
    /// absent index (`None`).
    pub fn get(&self, k: usize) -> (r: Option<&Option<Atom>>)
        requires
            self.wf(),
        ensures
            match r {
                Some(v) => self.map_view().contains_key(k) && v.deep_view() == self.map_view()[k],
                None => !self.map_view().contains_key(k),
            },
    {
        proof {
            lemma_kv_map_dom(self.deep_view(), k);
            lemma_kv_find_some(self.deep_view(), k);
        }
        match self.find(k) {
            Some(i) => {
                proof {
                    lemma_kv_map_index(self.deep_view(), i as int);
                }
                Some(&self.entries[i].1)
            },
            None => None,
        }
    }

    /// Inserts or replaces the entry at index `k`.
    pub fn insert(&mut self, k: usize, v: Option<Atom>)
        requires
            old(self).wf(),
            v matches Some(a) ==> a.wf(),
        ensures
            final(self).wf(),
            final(self).deep_view() == kv_insert(old(self).deep_view(), k, v.deep_view()),
            final(self).map_view() == old(self).map_view().insert(k, v.deep_view()),
    {
        proof {
            lemma_kv_insert_map(self.deep_view(), k, v.deep_view());
            lemma_kv_find_some(self.deep_view(), k);
        }
        match self.find(k) {
            Some(i) => {
                self.entries.set(i, (k, v));
                proof {
                    assert(self.deep_view() =~= kv_insert(
                        old(self).deep_view(),
                        k,
                        v.deep_view(),
                    ));
                }
            },
            None => {
                self.entries.push((k, v));
                proof {
                    assert(self.deep_view() =~= kv_insert(
                        old(self).deep_view(),
                        k,
                        v.deep_view(),
                    ));
                }
            },
        }
    }

    /// Inserts every entry of `other`, later entries overriding earlier ones.
    pub fn extend(&mut self, other: &AtomTable)
        requires
            old(self).wf(),
            other.wf(),
        ensures
            final(self).wf(),
            final(self).deep_view() == kv_extend(old(self).deep_view(), other.deep_view()),
            final(self).map_view() == old(self).map_view().union_prefer_right(other.map_view()),
    {
        let ghost s0 = self.deep_view();
        let ghost t = other.deep_view();
        let n = other.entries.len();
        let mut i: usize = 0;
        while i < n
            invariant
                0 <= i <= n,
                n == t.len(),
                t == other.deep_view(),
                other.wf(),
                self.wf(),
                self.deep_view() == kv_extend(s0, t.take(i as int)),
            decreases n - i,
        {
            let (k, v) = (other.entries[i].0, clone_opt_atom(&other.entries[i].1));
            proof {
                assert(t[i as int].1 matches Some(a) ==> atom_v_wf(a));
                lemma_kv_extend_push(s0, t.take(i as int), t[i as int]);
                assert(t.take(i as int).push(t[i as int]) =~= t.take(i as int + 1));
            }
            self.insert(k, v);
            i = i + 1;
        }
        proof {
            assert(t.take(n as int) =~= t);
            lemma_kv_extend_map(s0, t);
        }
    }

    pub fn duplicate(&self) -> (r: AtomTable)
        ensures
            r.deep_view() == self.deep_view(),
    {
        let n = self.entries.len();
        let mut entries: Vec<(usize, Option<Atom>)> = Vec::new();
        let mut i: usize = 0;
        while i < n
            invariant
                0 <= i <= n,
                n == self.entries.len(),
                entries.deep_view() =~= self.deep_view().take(i as int),
            decreases n - i,
        {
            let ghost before = entries.deep_view();
            proof {
                assert(before.len() == i);
                assert(entries@.len() == i);
            }
            let v = clone_opt_atom(&self.entries[i].1);
            entries.push((self.entries[i].0, v));
            proof {
                assert(entries@.len() == i + 1);
                assert(entries@[i as int] == (self.entries@[i as int].0, v));
                assert(v.deep_view() == self.entries@[i as int].1.deep_view());
                assert(entries.deep_view()[i as int] == self.deep_view()[i as int]);
                assert(forall|m: int| 0 <= m < i ==> entries.deep_view()[m] == before[m]);
                assert(entries.deep_view() =~= self.deep_view().take(i as int + 1));
            }
            i = i + 1;
        }
        proof {
            assert(self.deep_view().take(n as int) =~= self.deep_view());
        }
        AtomTable { entries }
    }

    pub fn eq_value(&self, other: &AtomTable) -> (r: bool)
        ensures
            r == (self.deep_view() == other.deep_view()),
    {
        let n = self.entries.len();
        if n != other.entries.len() {
            proof {
                assert(self.deep_view().len() != other.deep_view().len());
            }
            return false;
        }
        let mut i: usize = 0;
        loop
            invariant
                0 <= i <= n,
                n == self.entries.len(),
                n == other.entries.len(),
                forall|m: int| 0 <= m < i ==> self.deep_view()[m] == other.deep_view()[m],
            ensures
                if i < n {
                    self.deep_view()[i as int] != other.deep_view()[i as int]
                } else {
                    self.deep_view() == other.deep_view()
                },
            decreases n - i,
        {
            if i == n {
                proof {
                    assert(self.deep_view() =~= other.deep_view());
                }
                break ;
            }
            if self.entries[i].0 != other.entries[i].0 {
                break ;
            }
            if !eq_opt_atom(&self.entries[i].1, &other.entries[i].1) {
                break ;
            }
            i = i + 1;
        }
        i == n
    }
}

fn clone_opt_atom(v: &Option<Atom>) -> (r: Option<Atom>)
    ensures
        r == *v,
{
    match v {
        Some(a) => Some(a.duplicate()),
        None => None,
    }
}

fn clone_opt_string(v: &Option<String>) -> (r: Option<String>)
    ensures
        r == *v,
{
    match v {
        Some(s) => Some(s.clone()),
        None => None,
    }
}

fn eq_opt_string(a: &Option<String>, b: &Option<String>) -> (r: bool)
    ensures
        r == (a.deep_view() == b.deep_view()),
{
    match (a, b) {
        (None, None) => true,
        (Some(x), Some(y)) => (*x) == (*y),
        _ => false,
    }
}

/// A bond key is canonical and joins two distinct indices; a stored order,
/// where present, is a decimal number writing.
pub open spec fn bond_key_wf(p: Pair) -> bool {
    p.lo() < p.hi()
}

/// One edge entry: a canonical key over two distinct indices, and a
/// decimal order where one is present.
pub open spec fn bond_entry_wf(e: (Pair, Option<Seq<char>>)) -> bool {
    bond_key_wf(e.0) && (e.1 matches Some(w) ==> is_json_number(w))
}

pub open spec fn bond_entries_wf(s: Seq<(Pair, Option<Seq<char>>)>) -> bool {
    &&& kv_unique(s)
    &&& forall|i: int| 0 <= i < s.len() ==> bond_entry_wf(#[trigger] s[i])
}

/// The edge table: unordered pairs of atom indices mapped to an optional
/// bond order. An entry holding `None` shadows an edge of a lower layer.
#[derive(Debug, Clone)]
pub struct BondGraph {
    pub entries: Vec<(Pair, Option<String>)>,
}

impl DeepView for BondGraph {
    type V = Seq<(Pair, Option<Seq<char>>)>;

    open spec fn deep_view(&self) -> Seq<(Pair, Option<Seq<char>>)> {
        self.entries.deep_view()
    }
}

impl BondGraph {
    pub open spec fn wf(self) -> bool {
        bond_entries_wf(self.deep_view())
    }

    /// The table read as a map from pair key to optional order.
    pub open spec fn map_view(self) -> Map<Pair, Option<Seq<char>>> {
        kv_map(self.deep_view())
    }

    pub fn new() -> (r: BondGraph)
        ensures
            r.deep_view() =~= Seq::<(Pair, Option<Seq<char>>)>::empty(),
            r.wf(),
    {
        BondGraph { entries: Vec::new() }
    }

    pub fn len(&self) -> (r: usize)
        ensures
            r == self.deep_view().len(),
    {
        self.entries.len()
    }

    fn find(&self, k: &Pair) -> (r: Option<usize>)
        ensures
            match r {
                Some(i) => kv_find(self.deep_view(), *k) == Some(i as int),
                None => kv_find(self.deep_view(), *k) is None,
            },
    {
        let ghost s = self.deep_view();
        let n = self.entries.len();
        let mut i: usize = 0;
        loop
            invariant
                0 <= i <= n,
                n == s.len(),
                s == self.deep_view(),
                forall|m: int| 0 <= m < i ==> s[m].0 != *k,
            ensures
                match kv_find(s, *k) {
                    Some(j) => i < n && j == i && s[i as int].0 == *k,
                    None => i == n,
                },
            decreases n - i,
        {
            if i == n {
                proof {
                    lemma_kv_find_some(s, *k);
                }
                break ;
            }
            if self.entries[i].0 == *k {
                proof {
                    lemma_kv_find_first(s, *k, i as int);
                }
                break ;
            }
            i = i + 1;
        }
        if i < n {
            Some(i)
        } else {
            None
        }
    }

    pub fn get(&self, k: &Pair) -> (r: Option<&Option<String>>)
        requires
            self.wf(),
        ensures
            match r {
                Some(v) => self.map_view().contains_key(*k) && v.deep_view() == self.map_view()[*k],
                None => !self.map_view().contains_key(*k),
            },
    {
        proof {
            lemma_kv_map_dom(self.deep_view(), *k);
            lemma_kv_find_some(self.deep_view(), *k);
        }
        match self.find(k) {
            Some(i) => {
                proof {
                    lemma_kv_map_index(self.deep_view(), i as int);
                }
                Some(&self.entries[i].1)
            },
            None => None,
        }
    }

    /// Inserts or replaces the edge at `key`; hands back the order that was
    /// stored there before, if the key was present.
    pub fn insert(&mut self, key: Pair, value: Option<String>) -> (r: Option<Option<String>>)
        requires
            old(self).wf(),
            bond_key_wf(key),
            value matches Some(w) ==> is_json_number(w@),
        ensures
            final(self).wf(),
            final(self).deep_view() == kv_insert(old(self).deep_view(), key, value.deep_view()),
            final(self).map_view() == old(self).map_view().insert(key, value.deep_view()),
            match r {
                Some(prev) => old(self).map_view().contains_key(key) && prev.deep_view() == old(
                    self,
                ).map_view()[key],
                None => !old(self).map_view().contains_key(key),
            },
    {
        proof {
            lemma_kv_insert_map(self.deep_view(), key, value.deep_view());
            lemma_kv_find_some(self.deep_view(), key);
            lemma_kv_map_dom(self.deep_view(), key);
        }
        match self.find(&key) {
            Some(i) => {
                proof {
                    lemma_kv_map_index(self.deep_view(), i as int);
                }
                let prev = clone_opt_string(&self.entries[i].1);
                self.entries.set(i, (key, value));
                proof {
                    assert(self.deep_view() =~= kv_insert(
                        old(self).deep_view(),
                        key,
                        value.deep_view(),
                    ));
                }
                Some(prev)
            },
            None => {
                self.entries.push((key, value));
                proof {
                    assert(self.deep_view() =~= kv_insert(
                        old(self).deep_view(),
                        key,
                        value.deep_view(),
                    ));
                }
                None
            },
        }
    }

    /// Takes the edge at `key` out; hands back the order that was stored.
    pub fn remove(&mut self, key: &Pair) -> (r: Option<Option<String>>)
        requires
            old(self).wf(),
        ensures
            final(self).wf(),
            final(self).map_view() == old(self).map_view().remove(*key),
            match r {
                Some(prev) => old(self).map_view().contains_key(*key) && prev.deep_view() == old(
                    self,
                ).map_view()[*key],
                None => !old(self).map_view().contains_key(*key) && *final(self) == *old(self),
            },
    {
        proof {
            lemma_kv_find_some(self.deep_view(), *key);
            lemma_kv_map_dom(self.deep_view(), *key);
        }
        match self.find(key) {
            Some(i) => {
                proof {
                    lemma_kv_map_index(self.deep_view(), i as int);
                    crate::tablespec::lemma_kv_remove_map(self.deep_view(), i as int);
                }
                let (_, prev) = self.entries.remove(i);
                proof {
                    assert(self.deep_view() =~= old(self).deep_view().remove(i as int));
                }
                Some(prev)
            },
            None => {
                proof {
                    assert(old(self).map_view().remove(*key) =~= old(self).map_view());
                }
                None
            },
        }
    }

    /// Inserts every entry of `other`, later entries overriding earlier ones.
    pub fn extend(&mut self, other: &BondGraph)
        requires
            old(self).wf(),
            other.wf(),
        ensures
            final(self).wf(),
            final(self).deep_view() == kv_extend(old(self).deep_view(), other.deep_view()),
            final(self).map_view() == old(self).map_view().union_prefer_right(other.map_view()),
    {
        let ghost s0 = self.deep_view();
        let ghost t = other.deep_view();
        let n = other.entries.len();
        let mut i: usize = 0;
        while i < n
            invariant
                0 <= i <= n,
                n == t.len(),
                t == other.deep_view(),
                other.wf(),
                self.wf(),
                self.deep_view() == kv_extend(s0, t.take(i as int)),
            decreases n - i,
        {
            let k = other.entries[i].0;
            let v = clone_opt_string(&other.entries[i].1);
            proof {
                assert(bond_key_wf(t[i as int].0));
                assert(t[i as int].1 matches Some(w) ==> is_json_number(w));
                lemma_kv_extend_push(s0, t.take(i as int), t[i as int]);
                assert(t.take(i as int).push(t[i as int]) =~= t.take(i as int + 1));
            }
            self.insert(k, v);
            i = i + 1;
        }
        proof {
            assert(t.take(n as int) =~= t);
            lemma_kv_extend_map(s0, t);
        }
    }

    pub fn clear(&mut self)
        ensures
            final(self).deep_view() =~= Seq::<(Pair, Option<Seq<char>>)>::empty(),
            final(self).wf(),
    {
        self.entries.clear();
    }

    pub fn duplicate(&self) -> (r: BondGraph)
        ensures
            r.deep_view() == self.deep_view(),
    {
        let n = self.entries.len();
        let mut entries: Vec<(Pair, Option<String>)> = Vec::new();
        let mut i: usize = 0;
        while i < n
            invariant
                0 <= i <= n,
                n == self.entries.len(),
                entries.deep_view() =~= self.deep_view().take(i as int),
            decreases n - i,
        {
            proof {
                assert(entries.deep_view().len() == i);
            }
            let v = clone_opt_string(&self.entries[i].1);
            entries.push((self.entries[i].0, v));
            proof {
                assert(entries.deep_view() =~= self.deep_view().take(i as int + 1));
            }
            i = i + 1;
        }
        proof {
            assert(self.deep_view().take(n as int) =~= self.deep_view());
        }
        BondGraph { entries }
    }

    pub fn eq_value(&self, other: &BondGraph) -> (r: bool)
        ensures
            r == (self.deep_view() == other.deep_view()),
    {
        let n = self.entries.len();
        if n != other.entries.len() {
            proof {
                assert(self.deep_view().len() != other.deep_view().len());
            }
            return false;
        }
        let mut i: usize = 0;
        loop
            invariant
                0 <= i <= n,
                n == self.entries.len(),
                n == other.entries.len(),
                forall|m: int| 0 <= m < i ==> self.deep_view()[m] == other.deep_view()[m],
            ensures
                if i < n {
                    self.deep_view()[i as int] != other.deep_view()[i as int]
                } else {
                    self.deep_view() == other.deep_view()
                },
            decreases n - i,
        {
            if i == n {
                proof {
                    assert(self.deep_view() =~= other.deep_view());
                }
                break ;
            }
            if !(self.entries[i].0 == other.entries[i].0) {
                break ;
            }
            if !eq_opt_string(&self.entries[i].1, &other.entries[i].1) {
                break ;
            }
            i = i + 1;
        }
        i == n
    }
}

/// One insertion into a set-like listing: keep the list as it is if the
/// element is already present, else append it.
pub open spec fn gr_insert(s: Seq<(usize, Seq<char>)>, e: (usize, Seq<char>)) -> Seq<
    (usize, Seq<char>),
> {
    if s.contains(e) {
        s
    } else {
        s.push(e)
    }
}

/// Left-to-right insertion of every element of `t` into `s`.
pub open spec fn gr_extend(s: Seq<(usize, Seq<char>)>, t: Seq<(usize, Seq<char>)>) -> Seq<
    (usize, Seq<char>),
>
    decreases t.len(),
{
    if t.len() == 0 {
        s
    } else {
        gr_extend(gr_insert(s, t[0]), t.skip(1))
    }
}

pub proof fn lemma_to_set_push(s: Seq<(usize, Seq<char>)>, e: (usize, Seq<char>))
    ensures
        s.push(e).to_set() == s.to_set().insert(e),
{
    assert(s.push(e).to_set() =~= s.to_set().insert(e)) by {
        assert forall|a: (usize, Seq<char>)| #[trigger]
            s.push(e).contains(a) implies s.to_set().insert(e).contains(a) by {
            let i = choose|i: int| 0 <= i < s.push(e).len() && s.push(e)[i] == a;
            if i < s.len() {
                assert(s[i] == a);
            }
        }
        assert forall|a: (usize, Seq<char>)|
            s.to_set().insert(e).contains(a) implies #[trigger] s.push(e).contains(a) by {
            if a == e {
                assert(s.push(e)[s.len() as int] == a);
            } else {
                let i = choose|i: int| 0 <= i < s.len() && s[i] == a;
                assert(s.push(e)[i] == a);
            }
        }
    }
}

proof fn lemma_to_set_skip_first(t: Seq<(usize, Seq<char>)>)
    requires
        t.len() > 0,
    ensures
        t.to_set() == t.skip(1).to_set().insert(t[0]),
{
    assert(t.to_set() =~= t.skip(1).to_set().insert(t[0])) by {
        assert forall|a: (usize, Seq<char>)| #[trigger]
            t.contains(a) implies t.skip(1).to_set().insert(t[0]).contains(a) by {
            let i = choose|i: int| 0 <= i < t.len() && t[i] == a;
            if i > 0 {
                assert(t.skip(1)[i - 1] == a);
            }
        }
        assert forall|a: (usize, Seq<char>)|
            t.skip(1).to_set().insert(t[0]).contains(a) implies #[trigger] t.contains(a) by {
            if a == t[0] {
                assert(t[0] == a);
            } else {
                let i = choose|i: int| 0 <= i < t.skip(1).len() && t.skip(1)[i] == a;
                assert(t[i + 1] == a);
            }
        }
    }
}

pub proof fn lemma_gr_insert(s: Seq<(usize, Seq<char>)>, e: (usize, Seq<char>))
    requires
        s.no_duplicates(),
    ensures
        gr_insert(s, e).no_duplicates(),
        gr_insert(s, e).to_set() == s.to_set().insert(e),
{
    if s.contains(e) {
        assert(s.to_set().contains(e));
        assert(s.to_set() =~= s.to_set().insert(e));
    } else {
        lemma_to_set_push(s, e);
    }
}

pub proof fn lemma_gr_extend_push(
    s: Seq<(usize, Seq<char>)>,
    t: Seq<(usize, Seq<char>)>,
    e: (usize, Seq<char>),
)
    ensures
        gr_extend(s, t.push(e)) == gr_insert(gr_extend(s, t), e),
    decreases t.len(),
{
    if t.len() == 0 {
        assert(t.push(e)[0] == e);
        assert(t.push(e).skip(1) =~= Seq::<(usize, Seq<char>)>::empty());
        assert(gr_extend(s, t) == s);
        assert(gr_extend(s, t.push(e)) == gr_extend(gr_insert(s, e), t.push(e).skip(1)));
        assert(gr_extend(gr_insert(s, e), t.push(e).skip(1)) == gr_insert(s, e));
    } else {
        assert(t.push(e)[0] == t[0]);
        assert(t.push(e).skip(1) =~= t.skip(1).push(e));
        lemma_gr_extend_push(gr_insert(s, t[0]), t.skip(1), e);
        assert(gr_extend(s, t.push(e)) == gr_extend(gr_insert(s, t[0]), t.skip(1).push(e)));
        assert(gr_extend(s, t) == gr_extend(gr_insert(s, t[0]), t.skip(1)));
    }
}

pub proof fn lemma_gr_extend_set(s: Seq<(usize, Seq<char>)>, t: Seq<(usize, Seq<char>)>)
    requires
        s.no_duplicates(),
    ensures
        gr_extend(s, t).no_duplicates(),
        gr_extend(s, t).to_set() == s.to_set().union(t.to_set()),
    decreases t.len(),
{
    if t.len() == 0 {
        assert(t.to_set() =~= Set::<(usize, Seq<char>)>::empty()) by {
            assert(forall|a: (usize, Seq<char>)| !t.contains(a));
        }
        assert(gr_extend(s, t).to_set() =~= s.to_set().union(t.to_set()));
    } else {
        lemma_gr_insert(s, t[0]);
        lemma_gr_extend_set(gr_insert(s, t[0]), t.skip(1));
        lemma_to_set_skip_first(t);
        assert(gr_extend(s, t) == gr_extend(gr_insert(s, t[0]), t.skip(1)));
        assert(gr_extend(s, t).to_set() =~= s.to_set().union(t.to_set()));
    }
}

/// The group relation of a molecule: a listing of (atom index, tag) pairs
/// without repetition, read as a set.
#[derive(Debug, Clone)]
pub struct GroupTable {
    pub entries: Vec<(usize, String)>,
}

impl DeepView for GroupTable {
    type V = Seq<(usize, Seq<char>)>;

    open spec fn deep_view(&self) -> Seq<(usize, Seq<char>)> {
        self.entries.deep_view()
    }
}

impl GroupTable {
    pub open spec fn wf(self) -> bool {
        self.deep_view().no_duplicates()
    }

    /// The relation the listing denotes.
    pub open spec fn set_view(self) -> Set<(usize, Seq<char>)> {
        self.deep_view().to_set()
    }

    pub fn new() -> (r: GroupTable)
        ensures
            r.deep_view() =~= Seq::<(usize, Seq<char>)>::empty(),
            r.wf(),
    {
        GroupTable { entries: Vec::new() }
    }

    pub fn len(&self) -> (r: usize)
        ensures
            r == self.deep_view().len(),
    {
        self.entries.len()
    }

    pub fn contains(&self, idx: usize, tag: &String) -> (r: bool)
        ensures
            r == self.deep_view().contains((idx, tag@)),
    {
        let ghost s = self.deep_view();
        let n = self.entries.len();
        let mut i: usize = 0;
        loop
            invariant
                0 <= i <= n,
                n == s.len(),
                s == self.deep_view(),
                forall|m: int| 0 <= m < i ==> s[m] != (idx, tag@),
            ensures
                if i < n {
                    s.contains((idx, tag@))
                } else {
                    !s.contains((idx, tag@))
                },
            decreases n - i,
        {
            if i == n {
                break ;
            }
            if self.entries[i].0 == idx && self.entries[i].1 == *tag {
                proof {
                    assert(s[i as int] == (idx, tag@));
                }
                break ;
            }
            i = i + 1;
        }
        i < n
    }

    /// Adds the pair to the relation; already-present pairs are kept once.
    pub fn insert(&mut self, idx: usize, tag: String)
        requires
            old(self).wf(),
        ensures
            final(self).wf(),
            final(self).deep_view() == gr_insert(old(self).deep_view(), (idx, tag@)),
            final(self).set_view() == old(self).set_view().insert((idx, tag@)),
    {
        proof {
            lemma_gr_insert(self.deep_view(), (idx, tag@));
        }
        if !self.contains(idx, &tag) {
            self.entries.push((idx, tag));
            proof {
                assert(self.deep_view() =~= gr_insert(old(self).deep_view(), (idx, tag@)));
            }
        }
    }

    /// Adds every pair of `other` to the relation.
    pub fn extend(&mut self, other: &GroupTable)
        requires
            old(self).wf(),
        ensures
            final(self).wf(),
            final(self).deep_view() == gr_extend(old(self).deep_view(), other.deep_view()),
            final(self).set_view() == old(self).set_view().union(other.set_view()),
    {
        let ghost s0 = self.deep_view();
        let ghost t = other.deep_view();
        let n = other.entries.len();
        let mut i: usize = 0;
        while i < n
            invariant
                0 <= i <= n,
                n == t.len(),
                t == other.deep_view(),
                self.wf(),
                self.deep_view() == gr_extend(s0, t.take(i as int)),
            decreases n - i,
        {
            let idx = other.entries[i].0;
            let tag = other.entries[i].1.clone();
            proof {
                lemma_gr_extend_push(s0, t.take(i as int), t[i as int]);
                assert((idx, tag@) == t[i as int]);
                assert(t.take(i as int).push(t[i as int]) =~= t.take(i as int + 1));
            }
            self.insert(idx, tag);
            i = i + 1;
        }
        proof {
            assert(t.take(n as int) =~= t);
            lemma_gr_extend_set(s0, t);
        }
    }

    pub fn duplicate(&self) -> (r: GroupTable)
        ensures
            r.deep_view() == self.deep_view(),
    {
        let n = self.entries.len();
        let mut entries: Vec<(usize, String)> = Vec::new();
        let mut i: usize = 0;
        while i < n
            invariant
                0 <= i <= n,
                n == self.entries.len(),
                entries.deep_view() =~= self.deep_view().take(i as int),
            decreases n - i,
        {
            proof {
                assert(entries.deep_view().len() == i);
            }
            entries.push((self.entries[i].0, self.entries[i].1.clone()));
            proof {
                assert(entries.deep_view() =~= self.deep_view().take(i as int + 1));
            }
            i = i + 1;
        }
        proof {
            assert(self.deep_view().take(n as int) =~= self.deep_view());
        }
        GroupTable { entries }
    }

    pub fn eq_value(&self, other: &GroupTable) -> (r: bool)
        ensures
            r == (self.deep_view() == other.deep_view()),
    {
        let n = self.entries.len();
        if n != other.entries.len() {
            proof {
                assert(self.deep_view().len() != other.deep_view().len());
            }
            return false;
        }
        let mut i: usize = 0;
        loop
            invariant
                0 <= i <= n,
                n == self.entries.len(),
                n == other.entries.len(),
                forall|m: int| 0 <= m < i ==> self.deep_view()[m] == other.deep_view()[m],
            ensures
                if i < n {
                    self.deep_view()[i as int] != other.deep_view()[i as int]
                } else {
                    self.deep_view() == other.deep_view()
                },
            decreases n - i,
        {
            if i == n {
                proof {
                    assert(self.deep_view() =~= other.deep_view());
                }
                break ;
            }
            if !(self.entries[i].0 == other.entries[i].0 && self.entries[i].1
                == other.entries[i].1) {
                break ;
            }
            i = i + 1;
        }
        i == n
    }
}

/// A molecule: the sparse atom table, the edge table and the group relation.
#[derive(Debug, Clone)]
pub struct Molecule {
    pub atoms: AtomTable,
    pub bonds: BondGraph,
    pub groups: GroupTable,
}

/// The structural reading of a molecule: its three listings, entry by entry.
pub ghost struct MoleculeV {
    pub atoms: Seq<(usize, Option<AtomV>)>,
    pub bonds: Seq<(Pair, Option<Seq<char>>)>,
    pub groups: Seq<(usize, Seq<char>)>,
}

/// The mathematical reading of a molecule: two maps and a relation.
pub ghost struct MoleculeM {
    pub atoms: Map<usize, Option<AtomV>>,
    pub bonds: Map<Pair, Option<Seq<char>>>,
    pub groups: Set<(usize, Seq<char>)>,
}

impl DeepView for Molecule {
    type V = MoleculeV;

    open spec fn deep_view(&self) -> MoleculeV {
        MoleculeV {
            atoms: self.atoms.deep_view(),
            bonds: self.bonds.deep_view(),
            groups: self.groups.deep_view(),
        }
    }
}

pub open spec fn molecule_v_wf(m: MoleculeV) -> bool {
    atom_entries_wf(m.atoms) && bond_entries_wf(m.bonds) && m.groups.no_duplicates()
}

pub open spec fn model_of(m: MoleculeV) -> MoleculeM {
    MoleculeM { atoms: kv_map(m.atoms), bonds: kv_map(m.bonds), groups: m.groups.to_set() }
}

/// The empty molecule, structurally.
pub open spec fn molecule_v_empty() -> MoleculeV {
    MoleculeV {
        atoms: Seq::empty(),
        bonds: Seq::empty(),
        groups: Seq::empty(),
    }
}

/// What merging does to the listings themselves: every entry of the high
/// side inserted left to right.
pub open spec fn merge_v(low: MoleculeV, high: MoleculeV) -> MoleculeV {
    MoleculeV {
        atoms: kv_extend(low.atoms, high.atoms),
        bonds: kv_extend(low.bonds, high.bonds),
        groups: gr_extend(low.groups, high.groups),
    }
}

/// What merging means mathematically: the high side wins where keys
/// collide, and the group relations are united.
pub open spec fn merge_model(low: MoleculeM, high: MoleculeM) -> MoleculeM {
    MoleculeM {
        atoms: low.atoms.union_prefer_right(high.atoms),
        bonds: low.bonds.union_prefer_right(high.bonds),
        groups: low.groups.union(high.groups),
    }
}

impl Molecule {
    pub open spec fn wf(self) -> bool {
        molecule_v_wf(self.deep_view())
    }

    pub open spec fn model(self) -> MoleculeM {
        model_of(self.deep_view())
    }

    pub fn new(atoms: AtomTable, bonds: BondGraph, groups: GroupTable) -> (r: Molecule)
        ensures
            r.atoms == atoms,
            r.bonds == bonds,
            r.groups == groups,
    {
        Molecule { atoms, bonds, groups }
    }

    pub fn empty() -> (r: Molecule)
        ensures
            r.deep_view() == molecule_v_empty(),
            r.wf(),
    {
        let r = Molecule {
            atoms: AtomTable::new(),
            bonds: BondGraph::new(),
            groups: GroupTable::new(),
        };
        proof {
            assert(r.deep_view() == molecule_v_empty());
        }
        r
    }

    /// Extends `low` with `high`: on an atom index or a bond key held by
    /// both, the entry of `high` wins, a tombstone overriding a live atom as
    /// well; everything held by one side alone survives.
    pub fn merge(low: Molecule, high: Molecule) -> (r: Molecule)
        requires
            low.wf(),
            high.wf(),
        ensures
            r.wf(),
            r.deep_view() == merge_v(low.deep_view(), high.deep_view()),
            r.model() == merge_model(low.model(), high.model()),
    {
        let mut m = low;
        m.atoms.extend(&high.atoms);
        m.bonds.extend(&high.bonds);
        m.groups.extend(&high.groups);
        proof {
            assert(m.deep_view() == merge_v(low.deep_view(), high.deep_view()));
        }
        proof {
            assert(m.model() =~= merge_model(low.model(), high.model())) by {
                assert(m.model().atoms =~= merge_model(low.model(), high.model()).atoms);
                assert(m.model().bonds =~= merge_model(low.model(), high.model()).bonds);
                assert(m.model().groups =~= merge_model(low.model(), high.model()).groups);
            }
        }
        m
    }

    pub fn duplicate(&self) -> (r: Molecule)
        ensures
            r.deep_view() == self.deep_view(),
    {
        Molecule {
            atoms: self.atoms.duplicate(),
            bonds: self.bonds.duplicate(),
            groups: self.groups.duplicate(),
        }
    }

    pub fn eq_value(&self, other: &Molecule) -> (r: bool)
        ensures
            r == (self.deep_view() == other.deep_view()),
    {
        let r = self.atoms.eq_value(&other.atoms) && self.bonds.eq_value(&other.bonds)
            && self.groups.eq_value(&other.groups);
        proof {
            if self.atoms.deep_view() == other.atoms.deep_view() && self.bonds.deep_view()
                == other.bonds.deep_view() && self.groups.deep_view() == other.groups.deep_view() {
                assert(self.deep_view() == other.deep_view());
            }
        }
        r
    }
}

impl Default for Molecule {
    /// The empty molecule.
    fn default() -> (r: Molecule)
        ensures
            r.deep_view() == molecule_v_empty(),
            r.wf(),
    {
        Molecule::empty()
    }
}

/// Merge is left-biased only where keys collide: at any atom index, the
/// merged table holds the high molecule's entry where the high molecule has
/// one, and the low molecule's entry otherwise.
pub proof fn lemma_merge_left_bias(low: MoleculeM, high: MoleculeM, i: usize)
    ensures
        merge_model(low, high).atoms.contains_key(i) <==> (low.atoms.contains_key(i)
            || high.atoms.contains_key(i)),
        high.atoms.contains_key(i) ==> merge_model(low, high).atoms[i] == high.atoms[i],
        !high.atoms.contains_key(i) && low.atoms.contains_key(i) ==> merge_model(low, high).atoms[i]
            == low.atoms[i],
{
}

} // verus!
