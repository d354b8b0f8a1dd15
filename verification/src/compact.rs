//! The presentation form of a molecule: tombstones dropped, surviving
//! atoms reindexed densely in their original order, and the edges and
//! groups remapped onto the new indices.
use vstd::prelude::*;

use crate::molecule::{Atom, AtomTable, BondGraph, GroupTable, Molecule};
use crate::numbers::is_json_number;
use crate::pair::Pair;

verus! {

/// The first position of `k` in the listing, or the length.
pub open spec fn seq_find(ix: Seq<usize>, k: usize) -> int
    decreases ix.len(),
{
    if ix.len() == 0 {
        0
    } else if ix[0] == k {
        0
    } else {
        1 + seq_find(ix.skip(1), k)
    }
}

/// The compacted edges: every edge whose order is present and whose two
/// endpoints survive, its endpoints replaced by their dense positions.
pub open spec fn compact_bonds(s: Seq<(Pair, Option<Seq<char>>)>, ix: Seq<usize>) -> Seq<
    (Pair, Seq<char>),
>
    decreases s.len(),
{
    if s.len() == 0 {
        Seq::empty()
    } else {
        let head = if s[0].1 matches Some(w) && ix.contains(s[0].0.lo()) && ix.contains(
            s[0].0.hi(),
        ) {
            seq![
                (
                    Pair::new_spec(
                        seq_find(ix, s[0].0.lo()) as usize,
                        seq_find(ix, s[0].0.hi()) as usize,
                    ),
                    s[0].1->Some_0,
                ),
            ]
        } else {
            Seq::empty()
        };
        head + compact_bonds(s.skip(1), ix)
    }
}

/// The compacted groups: every pair whose atom survives, its index
/// replaced by its dense position.
pub open spec fn compact_groups(s: Seq<(usize, Seq<char>)>, ix: Seq<usize>) -> Seq<
    (usize, Seq<char>),
>
    decreases s.len(),
{
    if s.len() == 0 {
        Seq::empty()
    } else {
        let head = if ix.contains(s[0].0) {
            seq![(seq_find(ix, s[0].0) as usize, s[0].1)]
        } else {
            Seq::empty()
        };
        head + compact_groups(s.skip(1), ix)
    }
}

proof fn lemma_compact_bonds_push(
    s: Seq<(Pair, Option<Seq<char>>)>,
    e: (Pair, Option<Seq<char>>),
    ix: Seq<usize>,
)
    ensures
        compact_bonds(s.push(e), ix) == compact_bonds(s, ix) + (
        if e.1 matches Some(w) && ix.contains(e.0.lo()) && ix.contains(e.0.hi()) {
            seq![
                (
                    Pair::new_spec(
                        seq_find(ix, e.0.lo()) as usize,
                        seq_find(ix, e.0.hi()) as usize,
                    ),
                    e.1->Some_0,
                ),
            ]
        } else {
            Seq::empty()
        }),
    decreases s.len(),
{
    if s.len() == 0 {
        assert(s.push(e)[0] == e);
        assert(s.push(e).skip(1) =~= Seq::<(Pair, Option<Seq<char>>)>::empty());
        assert(compact_bonds(s.push(e).skip(1), ix) =~= Seq::<(Pair, Seq<char>)>::empty());
        assert(compact_bonds(s.push(e), ix) =~= compact_bonds(s, ix) + (
        if e.1 matches Some(w) && ix.contains(e.0.lo()) && ix.contains(e.0.hi()) {
            seq![
                (
                    Pair::new_spec(
                        seq_find(ix, e.0.lo()) as usize,
                        seq_find(ix, e.0.hi()) as usize,
                    ),
                    e.1->Some_0,
                ),
            ]
        } else {
            Seq::empty()
        }));
    } else {
        assert(s.push(e)[0] == s[0]);
        assert(s.push(e).skip(1) =~= s.skip(1).push(e));
        lemma_compact_bonds_push(s.skip(1), e, ix);
        assert(compact_bonds(s.push(e), ix) =~= compact_bonds(s, ix) + (
        if e.1 matches Some(w) && ix.contains(e.0.lo()) && ix.contains(e.0.hi()) {
            seq![
                (
                    Pair::new_spec(
                        seq_find(ix, e.0.lo()) as usize,
                        seq_find(ix, e.0.hi()) as usize,
                    ),
                    e.1->Some_0,
                ),
            ]
        } else {
            Seq::empty()
        }));
    }
}

proof fn lemma_compact_groups_push(s: Seq<(usize, Seq<char>)>, e: (usize, Seq<char>), ix: Seq<usize>)
    ensures
        compact_groups(s.push(e), ix) == compact_groups(s, ix) + (
        if ix.contains(e.0) {
            seq![(seq_find(ix, e.0) as usize, e.1)]
        } else {
            Seq::empty()
        }),
    decreases s.len(),
{
    if s.len() == 0 {
        assert(s.push(e)[0] == e);
        assert(s.push(e).skip(1) =~= Seq::<(usize, Seq<char>)>::empty());
        assert(compact_groups(s.push(e).skip(1), ix) =~= Seq::<(usize, Seq<char>)>::empty());
        assert(compact_groups(s.push(e), ix) =~= compact_groups(s, ix) + (
        if ix.contains(e.0) {
            seq![(seq_find(ix, e.0) as usize, e.1)]
        } else {
            Seq::empty()
        }));
    } else {
        assert(s.push(e)[0] == s[0]);
        assert(s.push(e).skip(1) =~= s.skip(1).push(e));
        lemma_compact_groups_push(s.skip(1), e, ix);
        assert(compact_groups(s.push(e), ix) =~= compact_groups(s, ix) + (
        if ix.contains(e.0) {
            seq![(seq_find(ix, e.0) as usize, e.1)]
        } else {
            Seq::empty()
        }));
    }
}

/// The presentation form: dense atoms in original-index order, remapped
/// edges and groups, and the original index each dense position came from.
pub struct CompactedMolecule {
    pub atoms: Vec<Atom>,
    pub bonds: Vec<(Pair, String)>,
    pub groups: Vec<(usize, String)>,
    pub old_indexes: Vec<usize>,
}

/// Finds the position where `k` keeps the listing strictly increasing.
fn insert_sorted(out: &mut Vec<usize>, k: usize)
    requires
        forall|a: int, b: int| 0 <= a < b < old(out)@.len() ==> old(out)@[a] < old(out)@[b],
        !old(out)@.contains(k),
    ensures
        forall|a: int, b: int| 0 <= a < b < final(out)@.len() ==> final(out)@[a] < final(out)@[b],
        final(out)@.len() == old(out)@.len() + 1,
        forall|x: usize| #[trigger] final(out)@.contains(x) <==> (old(out)@.contains(x) || x == k),
    {
    let n = out.len();
    let mut p: usize = 0;
    loop
        invariant
            0 <= p <= n,
            n == out@.len(),
            *out == *old(out),
            !out@.contains(k),
            forall|m: int| 0 <= m < p ==> out@[m] < k,
        ensures
            *out == *old(out),
            forall|m: int| 0 <= m < p ==> out@[m] < k,
            p < n ==> out@[p as int] > k,
        decreases n - p,
    {
        if p == n {
            break ;
        }
        if out[p] > k {
            break ;
        }
        proof {
            assert(out@ == old(out)@);
            assert(!out@.contains(k));
            if out@[p as int] == k {
                assert(out@.contains(k));
            }
        }
        p = p + 1;
    }
    let ghost prev = out@;
    out.insert(p, k);
    proof {
        assert forall|a: int, b: int| 0 <= a < b < out@.len() implies out@[a] < out@[b] by {
            let a0 = if a < p {
                a
            } else {
                a - 1
            };
            let b0 = if b < p {
                b
            } else {
                b - 1
            };
            if a == p {
                assert(out@[b] == prev[b - 1]);
                assert(prev[b - 1] >= prev[p as int]);
            } else if b == p {
                assert(out@[a] == prev[a]);
            } else {
                assert(out@[a] == prev[a0]);
                assert(out@[b] == prev[b0]);
            }
        }
        assert forall|x: usize| #[trigger] out@.contains(x) implies (prev.contains(x) || x
            == k) by {
            let m = choose|m: int| 0 <= m < out@.len() && out@[m] == x;
            if m < p {
                assert(prev[m] == x);
            } else if m > p {
                assert(prev[m - 1] == x);
            }
        }
        assert forall|x: usize| (prev.contains(x) || x == k) implies #[trigger] out@.contains(
            x,
        ) by {
            if x == k {
                assert(out@[p as int] == x);
            } else {
                let m = choose|m: int| 0 <= m < prev.len() && prev[m] == x;
                if m < p {
                    assert(out@[m] == x);
                } else {
                    assert(out@[m + 1] == x);
                }
            }
        }
    }
}

/// Produces the presentation form of the molecule: tombstones are
/// dropped, the surviving atoms take the dense indices in the order of
/// their original indices, and every edge or group entry whose atoms
/// survive is remapped; edges with an absent order or a vanished endpoint
/// are dropped.
pub fn clean_molecule(input: &Molecule) -> (r: CompactedMolecule)
    requires
        input.wf(),
    ensures
        forall|a: int, b: int|
            0 <= a < b < r.old_indexes@.len() ==> r.old_indexes@[a] < r.old_indexes@[b],
        forall|k: usize|
            #[trigger] r.old_indexes@.contains(k) <==> (input.model().atoms.contains_key(k)
                && input.model().atoms[k] is Some),
        r.atoms@.len() == r.old_indexes@.len(),
        forall|j: int|
            0 <= j < r.atoms@.len() ==> #[trigger] input.model().atoms.contains_key(
                r.old_indexes@[j],
            ),
        forall|j: int|
            0 <= j < r.atoms@.len() ==> (#[trigger] r.atoms.deep_view()[j])
                == input.model().atoms[r.old_indexes@[j]]->Some_0,
        r.bonds.deep_view() == compact_bonds(input.bonds.deep_view(), r.old_indexes@),
        r.groups.deep_view() == compact_groups(input.groups.deep_view(), r.old_indexes@),
{
    let ghost adv = input.atoms.deep_view();
    let n = input.atoms.entries.len();
    let mut old_indexes: Vec<usize> = Vec::new();
    let mut i: usize = 0;
    while i < n
        invariant
            0 <= i <= n,
            n == adv.len(),
            adv == input.atoms.deep_view(),
            input.wf(),
            forall|a: int, b: int|
                0 <= a < b < old_indexes@.len() ==> old_indexes@[a] < old_indexes@[b],
            forall|k: usize|
                #[trigger] old_indexes@.contains(k) <==> (exists|m: int|
                    0 <= m < i && (#[trigger] adv[m]).0 == k && adv[m].1 is Some),
        decreases n - i,
    {
        let live = matches!(&input.atoms.entries[i].1, Some(_));
        if live {
            let k = input.atoms.entries[i].0;
            proof {
                assert(!old_indexes@.contains(k)) by {
                    if old_indexes@.contains(k) {
                        let m = choose|m: int|
                            0 <= m < i && (#[trigger] adv[m]).0 == k && adv[m].1 is Some;
                        assert(crate::tablespec::kv_unique(adv));
                        assert(adv[m].0 == adv[i as int].0);
                    }
                }
            }
            insert_sorted(&mut old_indexes, k);
        }
        proof {
            assert forall|k: usize| #[trigger]
                old_indexes@.contains(k) implies (exists|m: int|
                0 <= m < i + 1 && (#[trigger] adv[m]).0 == k && adv[m].1 is Some) by {
                if live && k == input.atoms.entries@[i as int].0 {
                    assert(adv[i as int].0 == k && adv[i as int].1 is Some);
                } else {
                    assert(exists|m: int|
                        0 <= m < i && (#[trigger] adv[m]).0 == k && adv[m].1 is Some);
                }
            }
            assert forall|k: usize|
                (exists|m: int| 0 <= m < i + 1 && (#[trigger] adv[m]).0 == k && adv[m].1
                    is Some) implies #[trigger] old_indexes@.contains(k) by {
                let m = choose|m: int|
                    0 <= m < i + 1 && (#[trigger] adv[m]).0 == k && adv[m].1 is Some;
                if m < i {
                    assert(exists|m2: int|
                        0 <= m2 < i && (#[trigger] adv[m2]).0 == k && adv[m2].1 is Some);
                }
            }
        }
        i = i + 1;
    }
    proof {
        crate::tablespec::lemma_kv_map_dom(adv, 0usize);
        assert forall|k: usize|
            #[trigger] old_indexes@.contains(k) <==> (input.model().atoms.contains_key(k)
                && input.model().atoms[k] is Some) by {
            crate::tablespec::lemma_kv_map_dom(adv, k);
            if input.model().atoms.contains_key(k) {
                let m = choose|m: int| 0 <= m < adv.len() && adv[m].0 == k;
                crate::tablespec::lemma_kv_map_index(adv, m);
            }
            if old_indexes@.contains(k) {
                let m = choose|m: int|
                    0 <= m < n && (#[trigger] adv[m]).0 == k && adv[m].1 is Some;
                crate::tablespec::lemma_kv_map_index(adv, m);
            }
        }
    }
    let count = old_indexes.len();
    let mut atoms: Vec<Atom> = Vec::new();
    let mut j: usize = 0;
    while j < count
        invariant
            0 <= j <= count,
            count == old_indexes@.len(),
            input.wf(),
            forall|k: usize|
                #[trigger] old_indexes@.contains(k) <==> (input.model().atoms.contains_key(k)
                    && input.model().atoms[k] is Some),
            atoms@.len() == j,
            forall|m: int|
                0 <= m < j ==> #[trigger] input.model().atoms.contains_key(old_indexes@[m]),
            forall|m: int|
                0 <= m < j ==> (#[trigger] atoms.deep_view()[m])
                    == input.model().atoms[old_indexes@[m]]->Some_0,
        decreases count - j,
    {
        let k = old_indexes[j];
        proof {
            assert(old_indexes@.contains(k));
        }
        let got = input.atoms.get(k);
        let ghost prevdv = atoms.deep_view();
        match got {
            Some(Some(a)) => {
                atoms.push(a.duplicate());
                proof {
                    assert(atoms.deep_view()[j as int]
                        == input.model().atoms[old_indexes@[j as int]]->Some_0);
                    assert forall|m: int|
                        0 <= m < j + 1 implies #[trigger] input.model().atoms.contains_key(
                        old_indexes@[m]) by {
                        if m == j {
                            assert(old_indexes@.contains(old_indexes@[m]));
                        }
                    }
                    assert forall|m: int|
                        0 <= m < j + 1 implies (#[trigger] atoms.deep_view()[m])
                        == input.model().atoms[old_indexes@[m]]->Some_0 by {
                        if m < j {
                            assert(atoms.deep_view()[m] == prevdv[m]);
                            assert(prevdv[m] == input.model().atoms[old_indexes@[m]]->Some_0);
                        }
                    }
                }
            },
            _ => {
                proof {
                    assert(false);
                }
            },
        }
        j = j + 1;
    }
    let ghost bdv = input.bonds.deep_view();
    let bn = input.bonds.entries.len();
    let mut bonds: Vec<(Pair, String)> = Vec::new();
    let mut bi: usize = 0;
    while bi < bn
        invariant
            0 <= bi <= bn,
            bn == bdv.len(),
            bdv == input.bonds.deep_view(),
            input.wf(),
            bonds.deep_view() == compact_bonds(bdv.take(bi as int), old_indexes@),
        decreases bn - bi,
    {
        proof {
            lemma_compact_bonds_push(bdv.take(bi as int), bdv[bi as int], old_indexes@);
            assert(bdv.take(bi as int).push(bdv[bi as int]) =~= bdv.take(bi as int + 1));
        }
        let entry_live = match &input.bonds.entries[bi].1 {
            Some(_) => true,
            None => false,
        };
        if entry_live {
            let (lo, hi) = input.bonds.entries[bi].0.components();
            let ghost prevdv = bonds.deep_view();
            let plo = position_of(&old_indexes, lo);
            let phi = position_of(&old_indexes, hi);
            match (plo, phi) {
                (Some(a), Some(b)) => {
                    let w = match &input.bonds.entries[bi].1 {
                        Some(w) => w.clone(),
                        None => String::new(),
                    };
                    bonds.push((Pair::new(a, b), w));
                    proof {
                        assert(forall|m: int|
                            0 <= m < prevdv.len() ==> (#[trigger] bonds.deep_view()[m])
                                == prevdv[m]);
                        assert(bonds.deep_view() =~= compact_bonds(
                            bdv.take(bi as int + 1),
                            old_indexes@,
                        ));
                    }
                },
                _ => {
                    proof {
                        assert(bonds.deep_view() =~= compact_bonds(
                            bdv.take(bi as int + 1),
                            old_indexes@,
                        ));
                    }
                },
            }
        } else {
            proof {
                assert(bonds.deep_view() =~= compact_bonds(bdv.take(bi as int + 1), old_indexes@));
            }
        }
        bi = bi + 1;
    }
    let ghost gdv = input.groups.deep_view();
    let gn = input.groups.entries.len();
    let mut groups: Vec<(usize, String)> = Vec::new();
    let mut gi: usize = 0;
    while gi < gn
        invariant
            0 <= gi <= gn,
            gn == gdv.len(),
            gdv == input.groups.deep_view(),
            input.wf(),
            groups.deep_view() == compact_groups(gdv.take(gi as int), old_indexes@),
        decreases gn - gi,
    {
        proof {
            lemma_compact_groups_push(gdv.take(gi as int), gdv[gi as int], old_indexes@);
            assert(gdv.take(gi as int).push(gdv[gi as int]) =~= gdv.take(gi as int + 1));
        }
        let idx = input.groups.entries[gi].0;
        let ghost prevdv = groups.deep_view();
        match position_of(&old_indexes, idx) {
            Some(pidx) => {
                groups.push((pidx, input.groups.entries[gi].1.clone()));
                proof {
                    assert(forall|m: int|
                        0 <= m < prevdv.len() ==> (#[trigger] groups.deep_view()[m]) == prevdv[m]);
                    assert(groups.deep_view() =~= compact_groups(
                        gdv.take(gi as int + 1),
                        old_indexes@,
                    ));
                }
            },
            None => {
                proof {
                    assert(groups.deep_view() =~= compact_groups(
                        gdv.take(gi as int + 1),
                        old_indexes@,
                    ));
                }
            },
        }
        gi = gi + 1;
    }
    proof {
        assert(bdv.take(bn as int) =~= bdv);
        assert(gdv.take(gn as int) =~= gdv);
    }
    CompactedMolecule { atoms, bonds, groups, old_indexes }
}

impl CompactedMolecule {
    /// A presentation form fit to be spliced back: dense, well-written
    /// orders, edges and groups inside the atom range, edges distinct.
    pub open spec fn wf(self) -> bool {
        &&& forall|j: int|
            0 <= j < self.atoms@.len() ==> crate::molecule::atom_v_wf(
                #[trigger] self.atoms.deep_view()[j],
            )
        &&& forall|i: int|
            0 <= i < self.bonds@.len() ==> {
                let e = #[trigger] self.bonds.deep_view()[i];
                is_json_number(e.1) && e.0.lo() < e.0.hi() && e.0.hi() < self.atoms@.len()
            }
        &&& forall|a: int, b: int|
            0 <= a < b < self.bonds@.len() ==> (#[trigger] self.bonds.deep_view()[a]).0 != (
            #[trigger] self.bonds.deep_view()[b]).0
        &&& forall|i: int|
            0 <= i < self.groups@.len() ==> (#[trigger] self.groups.deep_view()[i]).0
                < self.atoms@.len()
        &&& self.groups.deep_view().no_duplicates()
    }

    /// Splices the dense molecule in above the existing indices: every
    /// atom takes its dense position shifted by `offset`, and the edges
    /// and groups shift with it.
    pub fn unzip(&self, offset: usize) -> (r: Molecule)
        requires
            self.wf(),
            self.atoms@.len() + offset <= usize::MAX,
        ensures
            r.wf(),
            r.atoms.deep_view().len() == self.atoms@.len(),
            forall|j: int|
                0 <= j < self.atoms@.len() ==> (#[trigger] r.atoms.deep_view()[j]) == (
                    (j + offset) as usize,
                    Some(self.atoms.deep_view()[j]),
                ),
            r.bonds.deep_view().len() == self.bonds@.len(),
            forall|i: int|
                0 <= i < self.bonds@.len() ==> (#[trigger] r.bonds.deep_view()[i]) == (
                    Pair::new_spec(
                        (self.bonds.deep_view()[i].0.lo() + offset) as usize,
                        (self.bonds.deep_view()[i].0.hi() + offset) as usize,
                    ),
                    Some(self.bonds.deep_view()[i].1),
                ),
            r.groups.deep_view().len() == self.groups@.len(),
            forall|i: int|
                0 <= i < self.groups@.len() ==> (#[trigger] r.groups.deep_view()[i]) == (
                    (self.groups.deep_view()[i].0 + offset) as usize,
                    self.groups.deep_view()[i].1,
                ),
    {
        let an = self.atoms.len();
        let mut atoms: Vec<(usize, Option<Atom>)> = Vec::new();
        let mut j: usize = 0;
        while j < an
            invariant
                0 <= j <= an,
                an == self.atoms@.len(),
                an + offset <= usize::MAX,
                self.wf(),
                atoms.deep_view().len() == j,
                forall|m: int|
                    0 <= m < j ==> (#[trigger] atoms.deep_view()[m]) == (
                        (m + offset) as usize,
                        Some(self.atoms.deep_view()[m]),
                    ),
            decreases an - j,
        {
            let ghost prev = atoms.deep_view();
            atoms.push((j + offset, Some(self.atoms[j].duplicate())));
            proof {
                assert forall|m: int|
                    0 <= m < j + 1 implies (#[trigger] atoms.deep_view()[m]) == (
                    (m + offset) as usize,
                    Some(self.atoms.deep_view()[m]),
                ) by {
                    if m < j {
                        assert(atoms.deep_view()[m] == prev[m]);
                    }
                }
            }
            j = j + 1;
        }
        let bn = self.bonds.len();
        let mut bonds: Vec<(Pair, Option<String>)> = Vec::new();
        let mut i: usize = 0;
        while i < bn
            invariant
                0 <= i <= bn,
                bn == self.bonds@.len(),
                an == self.atoms@.len(),
                an + offset <= usize::MAX,
                self.wf(),
                bonds.deep_view().len() == i,
                forall|m: int|
                    0 <= m < i ==> (#[trigger] bonds.deep_view()[m]) == (
                        Pair::new_spec(
                            (self.bonds.deep_view()[m].0.lo() + offset) as usize,
                            (self.bonds.deep_view()[m].0.hi() + offset) as usize,
                        ),
                        Some(self.bonds.deep_view()[m].1),
                    ),
            decreases bn - i,
        {
            let ghost prev = bonds.deep_view();
            let (lo, hi) = self.bonds[i].0.components();
            proof {
                assert(self.bonds.deep_view()[i as int].0 == self.bonds@[i as int].0);
                assert(self.bonds.deep_view()[i as int].0.hi() < an);
            }
            let key = Pair::new(lo + offset, hi + offset);
            bonds.push((key, Some(self.bonds[i].1.clone())));
            proof {
                assert forall|m: int|
                    0 <= m < i + 1 implies (#[trigger] bonds.deep_view()[m]) == (
                    Pair::new_spec(
                        (self.bonds.deep_view()[m].0.lo() + offset) as usize,
                        (self.bonds.deep_view()[m].0.hi() + offset) as usize,
                    ),
                    Some(self.bonds.deep_view()[m].1),
                ) by {
                    if m < i {
                        assert(bonds.deep_view()[m] == prev[m]);
                    }
                }
            }
            i = i + 1;
        }
        let gn = self.groups.len();
        let mut groups: Vec<(usize, String)> = Vec::new();
        let mut g: usize = 0;
        while g < gn
            invariant
                0 <= g <= gn,
                gn == self.groups@.len(),
                an == self.atoms@.len(),
                an + offset <= usize::MAX,
                self.wf(),
                groups.deep_view().len() == g,
                forall|m: int|
                    0 <= m < g ==> (#[trigger] groups.deep_view()[m]) == (
                        (self.groups.deep_view()[m].0 + offset) as usize,
                        self.groups.deep_view()[m].1,
                    ),
            decreases gn - g,
        {
            let ghost prev = groups.deep_view();
            proof {
                assert(self.groups.deep_view()[g as int].0 == self.groups@[g as int].0);
                assert(self.groups.deep_view()[g as int].0 < an);
            }
            groups.push((self.groups[g].0 + offset, self.groups[g].1.clone()));
            proof {
                assert forall|m: int|
                    0 <= m < g + 1 implies (#[trigger] groups.deep_view()[m]) == (
                    (self.groups.deep_view()[m].0 + offset) as usize,
                    self.groups.deep_view()[m].1,
                ) by {
                    if m < g {
                        assert(groups.deep_view()[m] == prev[m]);
                    }
                }
            }
            g = g + 1;
        }
        let r = Molecule {
            atoms: AtomTable { entries: atoms },
            bonds: BondGraph { entries: bonds },
            groups: GroupTable { entries: groups },
        };
        proof {
            assert(crate::molecule::atom_entries_wf(r.atoms.deep_view())) by {
                assert forall|a: int, b: int|
                    0 <= a < b < r.atoms.deep_view().len() implies r.atoms.deep_view()[a].0
                    != r.atoms.deep_view()[b].0 by {}
                assert forall|m: int|
                    0 <= m < r.atoms.deep_view().len() implies (#[trigger] r.atoms.deep_view()[m].1
                    matches Some(a2) ==> crate::molecule::atom_v_wf(a2)) by {
                    assert(crate::molecule::atom_v_wf(self.atoms.deep_view()[m]));
                }
            }
            assert(crate::molecule::bond_entries_wf(r.bonds.deep_view())) by {
                assert forall|a: int, b: int|
                    0 <= a < b < r.bonds.deep_view().len() implies r.bonds.deep_view()[a].0
                    != r.bonds.deep_view()[b].0 by {
                    let pa = self.bonds.deep_view()[a].0;
                    let pb = self.bonds.deep_view()[b].0;
                    assert(pa != pb);
                    assert(pa.lo() < pa.hi() && pb.lo() < pb.hi());
                }
                assert forall|m: int|
                    0 <= m < r.bonds.deep_view().len() implies crate::molecule::bond_entry_wf(
                    #[trigger] r.bonds.deep_view()[m]) by {
                    let p = self.bonds.deep_view()[m].0;
                    assert(p.lo() < p.hi());
                }
            }
            assert(r.groups.deep_view().no_duplicates()) by {
                assert forall|a: int, b: int|
                    0 <= a < b < r.groups.deep_view().len() implies r.groups.deep_view()[a]
                    != r.groups.deep_view()[b] by {
                    assert(self.groups.deep_view()[a] != self.groups.deep_view()[b]);
                }
            }
        }
        r
    }
}

/// The position of `k` in the listing, scanned from the front.
fn position_of(ix: &Vec<usize>, k: usize) -> (r: Option<usize>)
    ensures
        match r {
            Some(p) => p == seq_find(ix@, k) && p < ix@.len() && ix@[p as int] == k
                && ix@.contains(k),
            None => !ix@.contains(k),
        },
{
    let n = ix.len();
    let mut p: usize = 0;
    loop
        invariant
            0 <= p <= n,
            n == ix@.len(),
            forall|m: int| 0 <= m < p ==> ix@[m] != k,
        ensures
            forall|m: int| 0 <= m < p ==> ix@[m] != k,
            if p < n {
                ix@[p as int] == k
            } else {
                !ix@.contains(k)
            },
        decreases n - p,
    {
        if p == n {
            break ;
        }
        if ix[p] == k {
            break ;
        }
        p = p + 1;
    }
    if p < n {
        proof {
            lemma_seq_find_first(ix@, k, p as int);
        }
        Some(p)
    } else {
        None
    }
}

/// `seq_find` finds the first position of a listed value.
proof fn lemma_seq_find_first(ix: Seq<usize>, k: usize, p: int)
    requires
        0 <= p < ix.len(),
        ix[p] == k,
        forall|m: int| 0 <= m < p ==> ix[m] != k,
    ensures
        seq_find(ix, k) == p,
    decreases p,
{
    if p > 0 {
        assert(ix[0] != k);
        assert(ix.skip(1)[p - 1] == ix[p]);
        assert forall|m: int| 0 <= m < p - 1 implies ix.skip(1)[m] != k by {
            assert(ix.skip(1)[m] == ix[m + 1]);
        }
        lemma_seq_find_first(ix.skip(1), k, p - 1);
    }
}

} // verus!
