//! The export form of a workspace, the import that rebuilds one, and the
//! outer store from workspace name to workspace.
use vstd::prelude::*;

use crate::error::LMECoreError;
use crate::layer::{layer_v_wf, Layer, LayerV};
use crate::molecule::{atom_entries_wf, bond_entries_wf, Molecule};
use crate::namespace::{NtoN, UniqueValueMap};
use crate::numbers::check_json_number;
use crate::stacktree::{
    forest_count, forest_map, forest_vs, tree_v, StackTree, TreeV,
};
use crate::workspace::Workspace;

verus! {

broadcast use vstd::std_specs::vec::axiom_vec_index_decreases;

/// Decides well-formedness of a molecule.
pub fn check_molecule(m: &Molecule) -> (r: bool)
    ensures
        r == m.wf(),
{
    let ghost adv = m.atoms.deep_view();
    let an = m.atoms.entries.len();
    let mut i: usize = 0;
    while i < an
        invariant
            0 <= i <= an,
            an == adv.len(),
            adv == m.atoms.deep_view(),
            forall|a: int, b: int| 0 <= a < b < i ==> adv[a].0 != adv[b].0,
            forall|a: int|
                0 <= a < i ==> (#[trigger] adv[a].1 matches Some(av)
                    ==> crate::molecule::atom_v_wf(av)),
        decreases an - i,
    {
        let mut j: usize = 0;
        while j < i
            invariant
                0 <= j <= i < an,
                an == adv.len(),
                adv == m.atoms.deep_view(),
                forall|b: int| 0 <= b < j ==> adv[b].0 != adv[i as int].0,
            decreases i - j,
        {
            if m.atoms.entries[j].0 == m.atoms.entries[i].0 {
                proof {
                    assert(adv[j as int].0 == m.atoms.entries@[j as int].0);
                    assert(adv[i as int].0 == m.atoms.entries@[i as int].0);
                    assert(!crate::tablespec::kv_unique(adv));
                }
                return false;
            }
            j = j + 1;
        }
        match &m.atoms.entries[i].1 {
            Some(a) => {
                if !(check_json_number(a.position.x.as_str()) && check_json_number(
                    a.position.y.as_str(),
                ) && check_json_number(a.position.z.as_str())) {
                    proof {
                        assert(adv[i as int].1 == m.atoms.entries@[i as int].1.deep_view());
                        assert(adv[i as int].1 matches Some(av) && !crate::molecule::atom_v_wf(
                            av,
                        ));
                        assert(!atom_entries_wf(adv));
                    }
                    return false;
                }
                proof {
                    assert(adv[i as int].1 == m.atoms.entries@[i as int].1.deep_view());
                    assert(adv[i as int].1 matches Some(av) ==> crate::molecule::atom_v_wf(av));
                }
            },
            None => {
                proof {
                    assert(adv[i as int].1 == m.atoms.entries@[i as int].1.deep_view());
                    assert(adv[i as int].1 is None);
                }
            },
        }
        i = i + 1;
    }
    let ghost bdv = m.bonds.deep_view();
    let bn = m.bonds.entries.len();
    let mut i2: usize = 0;
    while i2 < bn
        invariant
            0 <= i2 <= bn,
            bn == bdv.len(),
            bdv == m.bonds.deep_view(),
            forall|a: int, b: int| 0 <= a < b < i2 ==> bdv[a].0 != bdv[b].0,
            forall|a: int| 0 <= a < i2 ==> crate::molecule::bond_entry_wf(#[trigger] bdv[a]),
        decreases bn - i2,
    {
        let mut j: usize = 0;
        while j < i2
            invariant
                0 <= j <= i2 < bn,
                bn == bdv.len(),
                bdv == m.bonds.deep_view(),
                forall|b: int| 0 <= b < j ==> bdv[b].0 != bdv[i2 as int].0,
            decreases i2 - j,
        {
            if m.bonds.entries[j].0 == m.bonds.entries[i2].0 {
                proof {
                    assert(bdv[j as int].0 == m.bonds.entries@[j as int].0);
                    assert(bdv[i2 as int].0 == m.bonds.entries@[i2 as int].0);
                    assert(!crate::tablespec::kv_unique(bdv));
                }
                return false;
            }
            j = j + 1;
        }
        let (lo, hi) = m.bonds.entries[i2].0.components();
        if !(lo < hi) {
            proof {
                assert(bdv[i2 as int].0 == m.bonds.entries@[i2 as int].0);
                assert(!crate::molecule::bond_key_wf(bdv[i2 as int].0));
                assert(!crate::molecule::bond_entry_wf(bdv[i2 as int]));
                assert(!bond_entries_wf(bdv));
            }
            return false;
        }
        match &m.bonds.entries[i2].1 {
            Some(w) => {
                if !check_json_number(w.as_str()) {
                    proof {
                        assert(bdv[i2 as int].1 == m.bonds.entries@[i2 as int].1.deep_view());
                        assert(bdv[i2 as int].1 matches Some(wv)
                            && !crate::numbers::is_json_number(wv));
                        assert(!crate::molecule::bond_entry_wf(bdv[i2 as int]));
                        assert(!bond_entries_wf(bdv));
                    }
                    return false;
                }
                proof {
                    assert(bdv[i2 as int].0 == m.bonds.entries@[i2 as int].0);
                    assert(bdv[i2 as int].1 == m.bonds.entries@[i2 as int].1.deep_view());
                    assert(crate::molecule::bond_entry_wf(bdv[i2 as int]));
                }
            },
            None => {
                proof {
                    assert(bdv[i2 as int].0 == m.bonds.entries@[i2 as int].0);
                    assert(bdv[i2 as int].1 == m.bonds.entries@[i2 as int].1.deep_view());
                    assert(bdv[i2 as int].1 is None);
                    assert(crate::molecule::bond_entry_wf(bdv[i2 as int]));
                }
            },
        }
        i2 = i2 + 1;
    }
    let ghost gdv = m.groups.deep_view();
    let gn = m.groups.entries.len();
    let mut i3: usize = 0;
    while i3 < gn
        invariant
            0 <= i3 <= gn,
            gn == gdv.len(),
            gdv == m.groups.deep_view(),
            forall|a: int, b: int| 0 <= a < b < i3 ==> gdv[a] != gdv[b],
        decreases gn - i3,
    {
        let mut j: usize = 0;
        while j < i3
            invariant
                0 <= j <= i3 < gn,
                gn == gdv.len(),
                gdv == m.groups.deep_view(),
                forall|b: int| 0 <= b < j ==> gdv[b] != gdv[i3 as int],
            decreases i3 - j,
        {
            if m.groups.entries[j].0 == m.groups.entries[i3].0 && m.groups.entries[j].1
                == m.groups.entries[i3].1 {
                proof {
                    assert(gdv[j as int] == (
                        m.groups.entries@[j as int].0,
                        m.groups.entries@[j as int].1@,
                    ));
                    assert(gdv[i3 as int] == (
                        m.groups.entries@[i3 as int].0,
                        m.groups.entries@[i3 as int].1@,
                    ));
                    assert(gdv[j as int] == gdv[i3 as int]);
                    assert(!gdv.no_duplicates());
                }
                return false;
            }
            j = j + 1;
        }
        i3 = i3 + 1;
    }
    proof {
        assert(atom_entries_wf(adv));
        assert(bond_entries_wf(bdv)) by {
            assert(forall|a: int|
                0 <= a < bdv.len() ==> crate::molecule::bond_entry_wf(#[trigger] bdv[a]));
        }
        assert(gdv.no_duplicates());
    }
    true
}

/// Decides well-formedness of a layer.
pub fn check_layer(l: &Layer) -> (r: bool)
    ensures
        r == layer_v_wf(l.deep_view()),
{
    match l {
        Layer::Fill(m) => check_molecule(m),
        Layer::Transform(c) => {
            if c.len() != 16 {
                proof {
                    assert(c.deep_view().len() == c@.len());
                }
                return false;
            }
            let mut i: usize = 0;
            while i < 16
                invariant
                    0 <= i <= 16,
                    c@.len() == 16,
                    l.deep_view() == LayerV::Transform(c.deep_view()),
                    forall|m: int|
                        0 <= m < i ==> crate::numbers::is_json_number(
                            #[trigger] c.deep_view()[m],
                        ),
                decreases 16 - i,
            {
                if !check_json_number(c[i].as_str()) {
                    proof {
                        assert(c.deep_view()[i as int] == c@[i as int]@);
                        assert(!crate::numbers::is_json_number(c.deep_view()[i as int]));
                        assert(l.deep_view() == LayerV::Transform(c.deep_view()));
                        assert(!layer_v_wf(l.deep_view())) by {
                            if layer_v_wf(l.deep_view()) {
                                assert(layer_v_wf(LayerV::Transform(c.deep_view())));
                                assert(crate::numbers::is_json_number(c.deep_view()[i as int]));
                            }
                        }
                    }
                    return false;
                }
                proof {
                    assert(c.deep_view()[i as int] == c@[i as int]@);
                }
                i = i + 1;
            }
            proof {
                assert(c.deep_view().len() == 16);
            }
            true
        },
        _ => true,
    }
}

/// Every layer of the node and of its children is well formed.
pub open spec fn tree_layers_wf(t: TreeV) -> bool
    decreases t, 1int,
{
    layer_v_wf(t.layer) && forest_layers_wf(t.children)
}

pub open spec fn forest_layers_wf(f: Seq<TreeV>) -> bool
    decreases f, 2int,
{
    f.len() == 0 || (tree_layers_wf(f[0]) && forest_layers_wf(f.skip(1)))
}

/// Decides well-formedness of every layer in the node.
pub fn check_tree(t: &StackTree) -> (r: bool)
    ensures
        r == tree_layers_wf(tree_v(*t)),
    decreases *t, 1int,
{
    if !check_layer(&t.layer) {
        return false;
    }
    check_forest(&t.children)
}

pub fn check_forest(v: &Vec<StackTree>) -> (r: bool)
    ensures
        r == forest_layers_wf(forest_vs(*v)),
    decreases *v, 2int,
{
    let n = v.len();
    proof {
        crate::stacktree::lemma_forest_v_index(*v, 0);
    }
    let mut i: usize = 0;
    while i < n
        invariant
            0 <= i <= n,
            n == v@.len(),
            forall|m: int| 0 <= m < i ==> tree_layers_wf(#[trigger] forest_vs(*v)[m]),
            forest_vs(*v).len() == n,
        decreases n - i,
    {
        proof {
            crate::stacktree::lemma_forest_v_index(*v, 0);
        }
        if !check_tree(&v[i]) {
            proof {
                assert(forest_vs(*v)[i as int] == tree_v(v@[i as int]));
                lemma_forest_layers_wf_not(forest_vs(*v), i as int);
            }
            return false;
        }
        proof {
            assert(forest_vs(*v)[i as int] == tree_v(v@[i as int]));
        }
        i = i + 1;
    }
    proof {
        lemma_forest_layers_wf_all(forest_vs(*v));
    }
    true
}

proof fn lemma_forest_layers_wf_not(f: Seq<TreeV>, i: int)
    requires
        0 <= i < f.len(),
        !tree_layers_wf(f[i]),
    ensures
        !forest_layers_wf(f),
    decreases f.len(),
{
    if i > 0 {
        assert(f.skip(1)[i - 1] == f[i]);
        lemma_forest_layers_wf_not(f.skip(1), i - 1);
    }
}

proof fn lemma_forest_layers_wf_all(f: Seq<TreeV>)
    requires
        forall|m: int| 0 <= m < f.len() ==> tree_layers_wf(#[trigger] f[m]),
    ensures
        forest_layers_wf(f),
    decreases f.len(),
{
    if f.len() > 0 {
        assert(tree_layers_wf(f[0]));
        assert forall|m: int| 0 <= m < f.skip(1).len() implies tree_layers_wf(
            #[trigger] f.skip(1)[m]) by {
            assert(f.skip(1)[m] == f[m + 1]);
        }
        lemma_forest_layers_wf_all(f.skip(1));
    }
}

/// The export form of a workspace: the base by value, the stacks as a
/// forest, and the two namespace listings.
pub struct WorkspaceExport {
    pub base: Molecule,
    pub stacks: Vec<StackTree>,
    pub atom_names: Vec<(String, usize)>,
    pub groups: Vec<(usize, String)>,
}

fn dup_name_entries(v: &Vec<(String, usize)>) -> (r: Vec<(String, usize)>)
    ensures
        r.deep_view() == v.deep_view(),
{
    let n = v.len();
    let mut out: Vec<(String, usize)> = Vec::new();
    let mut i: usize = 0;
    while i < n
        invariant
            0 <= i <= n,
            n == v@.len(),
            out.deep_view().len() == i,
            forall|m: int| 0 <= m < i ==> #[trigger] out.deep_view()[m] == v.deep_view()[m],
        decreases n - i,
    {
        let ghost prev = out.deep_view();
        out.push((v[i].0.clone(), v[i].1));
        proof {
            assert forall|m: int|
                0 <= m < i + 1 implies #[trigger] out.deep_view()[m] == v.deep_view()[m] by {
                if m < i {
                    assert(out.deep_view()[m] == prev[m]);
                }
            }
        }
        i = i + 1;
    }
    proof {
        assert(out.deep_view() =~= v.deep_view());
    }
    out
}

fn dup_group_entries(v: &Vec<(usize, String)>) -> (r: Vec<(usize, String)>)
    ensures
        r.deep_view() == v.deep_view(),
{
    let n = v.len();
    let mut out: Vec<(usize, String)> = Vec::new();
    let mut i: usize = 0;
    while i < n
        invariant
            0 <= i <= n,
            n == v@.len(),
            out.deep_view().len() == i,
            forall|m: int| 0 <= m < i ==> #[trigger] out.deep_view()[m] == v.deep_view()[m],
        decreases n - i,
    {
        let ghost prev = out.deep_view();
        out.push((v[i].0, v[i].1.clone()));
        proof {
            assert forall|m: int|
                0 <= m < i + 1 implies #[trigger] out.deep_view()[m] == v.deep_view()[m] by {
                if m < i {
                    assert(out.deep_view()[m] == prev[m]);
                }
            }
        }
        i = i + 1;
    }
    proof {
        assert(out.deep_view() =~= v.deep_view());
    }
    out
}

impl Workspace {
    /// The export form: the stacks dehydrated into a forest that maps
    /// each index to its stack's layers, and the namespace listings
    /// copied.
    pub fn export(&self) -> (r: WorkspaceExport)
        requires
            self.wf(),
            forall|i: int|
                0 <= i < self.stacks@.len() ==> (#[trigger] self.stacks.deep_view()[i]).len() > 0,
            self.stacks@.len() < usize::MAX,
        ensures
            r.base.deep_view() == self.base.deep_view(),
            forest_map(forest_vs(r.stacks), Seq::empty()) == Map::new(
                |k: usize| (k as int) < self.stacks@.len(),
                |k: usize| self.stacks.deep_view()[k as int],
            ),
            forest_count(forest_vs(r.stacks)) == self.stacks@.len(),
            crate::stacktree::forest_distinct(forest_vs(r.stacks)),
            crate::stacktree::forest_all_live(forest_vs(r.stacks)),
            r.atom_names.deep_view() == self.atom_names.deep_view(),
            r.groups.deep_view() == self.groups.deep_view(),
    {
        WorkspaceExport {
            base: self.base.duplicate(),
            stacks: StackTree::dehydration(&self.stacks),
            atom_names: dup_name_entries(&self.atom_names.entries),
            groups: dup_group_entries(&self.groups.entries),
        }
    }

    /// Rebuilds a workspace from an export. Fails, and builds nothing,
    /// exactly when the base or a layer is malformed, the forest's
    /// indices do not cover the rebuilt positions, a name or an index
    /// repeats in the name listing, or a group pair repeats.
    pub fn from_export(ex: &WorkspaceExport) -> (r: Option<Workspace>)
        ensures
            r is Some <==> {
                &&& ex.base.wf()
                &&& forest_layers_wf(forest_vs(ex.stacks))
                &&& forall|k: usize|
                    #[trigger] forest_map(forest_vs(ex.stacks), Seq::empty()).contains_key(k)
                        <==> (k as int) < forest_count(forest_vs(ex.stacks))
                &&& crate::tablespec::kv_unique(ex.atom_names.deep_view())
                &&& crate::namespace::values_unique(ex.atom_names.deep_view())
            },
            r matches Some(w) ==> {
                &&& w.wf()
                &&& w.base.deep_view() == ex.base.deep_view()
                &&& w.stacks@.len() == forest_count(forest_vs(ex.stacks))
                &&& forall|k: usize|
                    (k as int) < w.stacks@.len() ==> #[trigger] forest_map(
                        forest_vs(ex.stacks),
                        Seq::empty(),
                    ).contains_key(k)
                &&& forall|i: int|
                    0 <= i < w.stacks@.len() ==> (#[trigger] w.stacks.deep_view()[i])
                        == forest_map(forest_vs(ex.stacks), Seq::empty())[i as usize]
                &&& w.atom_names.deep_view() == ex.atom_names.deep_view()
                &&& w.groups.set_view() == ex.groups.deep_view().to_set()
            },
    {
        if !check_molecule(&ex.base) {
            return None;
        }
        if !check_forest(&ex.stacks) {
            return None;
        }
        let stacks = match StackTree::hydration(&ex.stacks) {
            Some(s) => s,
            None => {
                proof {
                    if forall|k: usize|
                        #[trigger] forest_map(forest_vs(ex.stacks), Seq::empty()).contains_key(
                            k,
                        ) <==> (k as int) < forest_count(forest_vs(ex.stacks)) {
                        assert(false);
                    }
                }
                return None;
            },
        };
        let atom_names = match UniqueValueMap::from_map(dup_name_entries(&ex.atom_names)) {
            Ok(m) => m,
            Err(_) => {
                return None;
            },
        };
        proof {
            assert(forall|k: usize|
                #[trigger] forest_map(forest_vs(ex.stacks), Seq::empty()).contains_key(k) <==> (
                k as int) < forest_count(forest_vs(ex.stacks)));
        }
        let mut groups = NtoN::new();
        let gn = ex.groups.len();
        let mut gi: usize = 0;
        while gi < gn
            invariant
                0 <= gi <= gn,
                gn == ex.groups.deep_view().len(),
                groups.wf(),
                groups.set_view() == ex.groups.deep_view().take(gi as int).to_set(),
            decreases gn - gi,
        {
            let ghost prevset = groups.set_view();
            groups.insert(ex.groups[gi].0, ex.groups[gi].1.clone());
            proof {
                assert(ex.groups.deep_view().take(gi as int + 1) =~= ex.groups.deep_view().take(
                    gi as int,
                ).push(ex.groups.deep_view()[gi as int]));
                crate::molecule::lemma_to_set_push(
                    ex.groups.deep_view().take(gi as int),
                    ex.groups.deep_view()[gi as int],
                );
            }
            gi = gi + 1;
        }
        proof {
            assert(ex.groups.deep_view().take(gn as int) =~= ex.groups.deep_view());
        }
        proof {
            assert forall|i: int|
                0 <= i < stacks.deep_view().len() implies crate::stack::stack_v_wf(
                #[trigger] stacks.deep_view()[i]) by {
                let k = i as usize;
                assert(forest_map(forest_vs(ex.stacks), Seq::empty()).contains_key(k));
                assert(stacks.deep_view()[i] == forest_map(forest_vs(ex.stacks), Seq::empty())[k]);
                lemma_forest_map_layers_wf(
                    forest_vs(ex.stacks),
                    Seq::empty(),
                    k,
                    stacks.deep_view()[i],
                );
            }
            assert(crate::stack::stack_v_wf(Seq::<LayerV>::empty())) by {
                assert(forall|i: int|
                    0 <= i < Seq::<LayerV>::empty().len() ==> layer_v_wf(
                        #[trigger] Seq::<LayerV>::empty()[i],
                    ));
            }
        }
        let w = Workspace { base: ex.base.duplicate(), stacks, atom_names, groups };
        proof {
            assert forall|i: int|
                0 <= i < w.stacks.deep_view().len() implies crate::stack::stack_v_wf(
                #[trigger] w.stacks.deep_view()[i]) by {
                assert(w.stacks.deep_view()[i] == w.stacks@[i].deep_view());
            }
            assert forall|i: int|
                0 <= i < w.stacks@.len() implies (#[trigger] w.stacks.deep_view()[i])
                == forest_map(forest_vs(ex.stacks), Seq::empty())[i as usize] by {
                assert(w.stacks.deep_view()[i] == stacks.deep_view()[i]);
            }
        }
        Some(w)
    }
}

/// Every stack a well-formed forest's map assigns is made of well-formed
/// layers, given a well-formed prefix.
proof fn lemma_forest_map_layers_wf(
    f: Seq<TreeV>,
    prefix: Seq<LayerV>,
    k: usize,
    v: Seq<LayerV>,
)
    requires
        forest_layers_wf(f),
        crate::stack::stack_v_wf(prefix),
        forest_map(f, prefix).contains_key(k),
        v == forest_map(f, prefix)[k],
    ensures
        crate::stack::stack_v_wf(v),
    decreases f, 2int,
{
    if f.len() > 0 {
        let rest = forest_map(f.skip(1), prefix);
        if rest.contains_key(k) {
            lemma_forest_map_layers_wf(f.skip(1), prefix, k, v);
        } else {
            lemma_tree_map_layers_wf(f[0], prefix, k, v);
        }
    }
}

proof fn lemma_tree_map_layers_wf(t: TreeV, prefix: Seq<LayerV>, k: usize, v: Seq<LayerV>)
    requires
        tree_layers_wf(t),
        crate::stack::stack_v_wf(prefix),
        crate::stacktree::tree_map(t, prefix).contains_key(k),
        v == crate::stacktree::tree_map(t, prefix)[k],
    ensures
        crate::stack::stack_v_wf(v),
    decreases t, 1int,
{
    let path = prefix.push(t.layer);
    assert(crate::stack::stack_v_wf(path)) by {
        assert forall|i: int| 0 <= i < path.len() implies layer_v_wf(#[trigger] path[i]) by {
            if i < prefix.len() {
                assert(path[i] == prefix[i]);
            } else {
                assert(path[i] == t.layer);
            }
        }
    }
    let fm = forest_map(t.children, path);
    if fm.contains_key(k) {
        lemma_forest_map_layers_wf(t.children, path, k, v);
    } else {
        assert(v == path);
    }
}

/// The outer store: workspaces by name, names unique.
pub struct ServerStore {
    pub entries: Vec<(String, Workspace)>,
}

/// Whether some entry carries the name.
pub open spec fn store_has_name(s: Seq<(Seq<char>, Workspace)>, name: Seq<char>) -> bool {
    exists|i: int| 0 <= i < s.len() && s[i].0 == name
}

impl ServerStore {
    pub open spec fn names(self) -> Seq<Seq<char>> {
        Seq::new(self.entries@.len() as nat, |i: int| self.entries@[i].0@)
    }

    pub open spec fn wf(self) -> bool {
        &&& forall|a: int, b: int|
            0 <= a < b < self.names().len() ==> self.names()[a] != self.names()[b]
        &&& forall|i: int| 0 <= i < self.entries@.len() ==> (#[trigger] self.entries@[i].1).wf()
    }

    pub fn new() -> (r: ServerStore)
        ensures
            r.entries@.len() == 0,
            r.wf(),
    {
        ServerStore { entries: Vec::new() }
    }

    /// The position of the workspace under `name`, if any.
    pub fn lookup(&self, name: &String) -> (r: Option<usize>)
        ensures
            r matches Some(i) ==> i < self.entries@.len() && self.entries@[i as int].0@ == name@,
            r is None <==> !(exists|i: int|
                0 <= i < self.entries@.len() && (#[trigger] self.entries@[i].0@) == name@),
    {
        let n = self.entries.len();
        let mut i: usize = 0;
        loop
            invariant
                0 <= i <= n,
                n == self.entries@.len(),
                forall|m: int| 0 <= m < i ==> (#[trigger] self.entries@[m].0@) != name@,
            ensures
                if i < n {
                    self.entries@[i as int].0@ == name@
                } else {
                    forall|m: int| 0 <= m < n ==> (#[trigger] self.entries@[m].0@) != name@
                },
            decreases n - i,
        {
            if i == n {
                break ;
            }
            if self.entries[i].0 == *name {
                break ;
            }
            i = i + 1;
        }
        if i < n {
            Some(i)
        } else {
            None
        }
    }

    /// Creates a workspace under a fresh name; a taken name is refused
    /// with the conflict error and nothing changes.
    pub fn create_workspace(&mut self, name: String, ws: Workspace) -> (r: Result<
        (),
        LMECoreError,
    >)
        requires
            old(self).wf(),
            ws.wf(),
        ensures
            final(self).wf(),
            r is Err <==> (exists|i: int|
                0 <= i < old(self).entries@.len() && (#[trigger] old(self).entries@[i].0@)
                    == name@),
            r matches Err(e) ==> e == LMECoreError::WorkspaceNameConflict && *final(self) == *old(self),
            r is Ok ==> final(self).entries@.len() == old(self).entries@.len() + 1 && (forall|
                i: int,
            |
                0 <= i < old(self).entries@.len() ==> final(self).entries@[i] == old(self).entries@[i]) && final(self).entries@.last().0@ == name@ && final(self).entries@.last().1 == ws,
    {
        match self.lookup(&name) {
            Some(_) => Err(LMECoreError::WorkspaceNameConflict),
            None => {
                let ghost prev = self.entries@;
                self.entries.push((name, ws));
                proof {
                    assert forall|a: int, b: int|
                        0 <= a < b < self.names().len() implies self.names()[a]
                        != self.names()[b] by {
                        if b < prev.len() {
                            assert(self.entries@[a] == prev[a]);
                            assert(self.entries@[b] == prev[b]);
                            assert(old(self).names()[a] != old(self).names()[b]);
                        } else {
                            assert(self.entries@[a] == prev[a]);
                            assert((#[trigger] old(self).entries@[a].0@) != self.entries@[b].0@);
                        }
                    }
                    assert forall|i: int|
                        0 <= i < self.entries@.len() implies (#[trigger] self.entries@[i].1).wf() by {
                        if i < prev.len() {
                            assert(self.entries@[i] == prev[i]);
                            assert(old(self).entries@[i].1.wf());
                        }
                    }
                }
                Ok(())
            },
        }
    }

    /// Removes the workspace under `name`; an absent name is refused with
    /// the not-found error and nothing changes.
    pub fn remove_workspace(&mut self, name: &String) -> (r: Result<(), LMECoreError>)
        requires
            old(self).wf(),
        ensures
            final(self).wf(),
            r is Err <==> !(exists|i: int|
                0 <= i < old(self).entries@.len() && (#[trigger] old(self).entries@[i].0@)
                    == name@),
            r matches Err(e) ==> e == LMECoreError::WorkspaceNotFound && *final(self) == *old(self),
            r is Ok ==> final(self).entries@.len() == old(self).entries@.len() - 1 && !(exists|
                i: int,
            |
                0 <= i < final(self).entries@.len() && (#[trigger] final(self).entries@[i].0@)
                    == name@),
    {
        match self.lookup(name) {
            None => Err(LMECoreError::WorkspaceNotFound),
            Some(i) => {
                let ghost prev = self.entries@;
                self.entries.remove(i);
                proof {
                    assert forall|a: int, b: int|
                        0 <= a < b < self.names().len() implies self.names()[a]
                        != self.names()[b] by {
                        let a0 = if a < i {
                            a
                        } else {
                            a + 1
                        };
                        let b0 = if b < i {
                            b
                        } else {
                            b + 1
                        };
                        assert(self.entries@[a] == prev[a0]);
                        assert(self.entries@[b] == prev[b0]);
                        assert(old(self).names()[a0] != old(self).names()[b0]);
                    }
                    assert forall|m: int|
                        0 <= m < self.entries@.len() implies (#[trigger] self.entries@[m].1).wf() by {
                        let m0 = if m < i {
                            m
                        } else {
                            m + 1
                        };
                        assert(self.entries@[m] == prev[m0]);
                        assert(old(self).entries@[m0].1.wf());
                    }
                    assert forall|m: int|
                        0 <= m < self.entries@.len() implies (#[trigger] self.entries@[m].0@)
                        != name@ by {
                        let m0 = if m < i {
                            m
                        } else {
                            m + 1
                        };
                        assert(self.entries@[m] == prev[m0]);
                        if m0 != i {
                            assert(old(self).names()[m0] != old(self).names()[i as int]);
                        }
                    }
                }
                Ok(())
            },
        }
    }
}

/// A fresh, empty store.
pub fn create_server_store() -> (r: ServerStore)
    ensures
        r.entries@.len() == 0,
        r.wf(),
{
    ServerStore::new()
}

} // verus!
