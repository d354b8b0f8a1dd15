//! The transformation sum type. Each variant maps a molecule to a molecule;
//! the plugin variant is the one whose work an outside program performs.
use vstd::prelude::*;

use crate::molecule::{
    atom_v_wf, model_of, molecule_v_wf, AtomTable, AtomV, Molecule, MoleculeM, MoleculeV, Vec3,
    Vec3V,
};
use crate::numbers::is_json_number;
use crate::tablespec::{kv_map, lemma_kv_map_entrywise};

verus! {

/// What applying an affine transform, read from its sixteen row-major
/// cells, does to a point's three coordinates. The arithmetic is done by
/// the linear-algebra crate; the result depends on the nineteen decimal
/// writings alone, and is `None` where a result has no finite writing.
pub uninterp spec fn transform_point(
    cells: Seq<Seq<char>>,
    x: Seq<char>,
    y: Seq<char>,
    z: Seq<char>,
) -> Option<(Seq<char>, Seq<char>, Seq<char>)>;

/// Relies on nalgebra's `Transform3 * Point3` for the arithmetic and on
/// serde_json's `Number` to read and write the coordinates: the sixteen
/// cells and three coordinates are read as numbers, the transform is
/// applied, and each resulting coordinate is written back as a number.
/// `Number`'s writing is itself a decimal number writing, and `None` comes
/// back exactly when a cell or coordinate does not read as a number or a
/// result is not finite.
#[verifier::external_body]
fn apply_transform_call(cells: &Vec<String>, p: &Vec3) -> (r: Option<Vec3>)
    requires
        cells@.len() == 16,
    ensures
        (match r {
            Some(v) => Some((v.x@, v.y@, v.z@)),
            None => None,
        }) == transform_point(cells.deep_view(), p.x@, p.y@, p.z@),
        r matches Some(v) ==> v.wf(),
{
    let mut ns = Vec::new();
    for s in cells.iter().chain([&p.x, &p.y, &p.z]) {
        ns.push(s.parse::<serde_json::Number>().ok()?.as_f64()?);
    }
    let t = nalgebra::Transform3::from_matrix_unchecked(nalgebra::Matrix4::from_row_slice(
        &ns[0..16],
    ));
    let q = t * nalgebra::Point3::new(ns[16], ns[17], ns[18]);
    let back = |c| serde_json::Number::from_f64(c).map(|n| n.to_string());
    Some(Vec3 { x: back(q.x)?, y: back(q.y)?, z: back(q.z)? })
}

/// A layer: one transformation of the molecule assembled below it.
#[derive(Debug, Clone)]
pub enum Layer {
    /// Merge the held molecule over the input.
    Fill(Molecule),
    /// Move every live atom by the affine transform held as sixteen
    /// row-major cells of a 4 by 4 matrix.
    Transform(Vec<String>),
    /// Clear the edge table.
    IgnoreBonds,
    /// Rewrite every live atom of the first element to the second.
    ReplaceElement(usize, usize),
    /// Replace every live atom of this element with a tombstone.
    RemoveElement(usize),
    /// Hand the molecule to the named outside program and merge its answer.
    PluginFilter(String, Vec<String>),
}

pub ghost enum LayerV {
    Fill(MoleculeV),
    Transform(Seq<Seq<char>>),
    IgnoreBonds,
    ReplaceElement(usize, usize),
    RemoveElement(usize),
    PluginFilter(Seq<char>, Seq<Seq<char>>),
}

impl DeepView for Layer {
    type V = LayerV;

    open spec fn deep_view(&self) -> LayerV {
        match self {
            Layer::Fill(m) => LayerV::Fill(m.deep_view()),
            Layer::Transform(c) => LayerV::Transform(c.deep_view()),
            Layer::IgnoreBonds => LayerV::IgnoreBonds,
            Layer::ReplaceElement(a, b) => LayerV::ReplaceElement(*a, *b),
            Layer::RemoveElement(z) => LayerV::RemoveElement(*z),
            Layer::PluginFilter(cmd, args) => LayerV::PluginFilter(cmd@, args.deep_view()),
        }
    }
}

pub open spec fn layer_v_wf(l: LayerV) -> bool {
    match l {
        LayerV::Fill(m) => molecule_v_wf(m),
        LayerV::Transform(c) => c.len() == 16 && forall|i: int|
            0 <= i < 16 ==> is_json_number(#[trigger] c[i]),
        _ => true,
    }
}

/// Whether the layer's work is done wholly by the library, with no call to
/// an outside program.
pub open spec fn layer_v_is_pure(l: LayerV) -> bool {
    !(l is PluginFilter)
}

/// The new coordinates of a point, or the old ones where the transform's
/// result has no finite writing.
pub open spec fn transform_pos(cells: Seq<Seq<char>>, p: Vec3V) -> Vec3V {
    match transform_point(cells, p.x, p.y, p.z) {
        Some((x, y, z)) => Vec3V { x, y, z },
        None => p,
    }
}

pub open spec fn transform_opt_atom(cells: Seq<Seq<char>>, o: Option<AtomV>) -> Option<AtomV> {
    match o {
        Some(a) => Some(AtomV { element: a.element, position: transform_pos(cells, a.position) }),
        None => None,
    }
}

pub open spec fn replace_opt_atom(from: usize, to: usize, o: Option<AtomV>) -> Option<AtomV> {
    match o {
        Some(a) => if a.element == from {
            Some(AtomV { element: to, position: a.position })
        } else {
            Some(a)
        },
        None => None,
    }
}

pub open spec fn remove_opt_atom(z: usize, o: Option<AtomV>) -> Option<AtomV> {
    match o {
        Some(a) => if a.element == z {
            None
        } else {
            Some(a)
        },
        None => None,
    }
}

/// What applying one pure layer means on the mathematical reading of a
/// molecule. The plugin variant is left as the identity here: its effect
/// goes through the outside program and is stated where that call is made.
pub open spec fn apply_layer(l: LayerV, m: MoleculeM) -> MoleculeM {
    match l {
        LayerV::Fill(high) => crate::molecule::merge_model(m, model_of(high)),
        LayerV::Transform(cells) => MoleculeM {
            atoms: m.atoms.map_values(|o: Option<AtomV>| transform_opt_atom(cells, o)),
            bonds: m.bonds,
            groups: m.groups,
        },
        LayerV::IgnoreBonds => MoleculeM { atoms: m.atoms, bonds: Map::empty(), groups: m.groups },
        LayerV::ReplaceElement(a, b) => MoleculeM {
            atoms: m.atoms.map_values(|o: Option<AtomV>| replace_opt_atom(a, b, o)),
            bonds: m.bonds,
            groups: m.groups,
        },
        LayerV::RemoveElement(z) => MoleculeM {
            atoms: m.atoms.map_values(|o: Option<AtomV>| remove_opt_atom(z, o)),
            bonds: m.bonds,
            groups: m.groups,
        },
        LayerV::PluginFilter(_, _) => m,
    }
}

fn map_atoms_transform(atoms: &AtomTable, cells: &Vec<String>) -> (r: AtomTable)
    requires
        crate::molecule::atom_entries_wf(atoms.deep_view()),
        cells@.len() == 16,
    ensures
        r.deep_view().len() == atoms.deep_view().len(),
        forall|m: int|
            0 <= m < r.deep_view().len() ==> #[trigger] r.deep_view()[m] == (
                atoms.deep_view()[m].0,
                transform_opt_atom(cells.deep_view(), atoms.deep_view()[m].1),
            ),
        crate::molecule::atom_entries_wf(r.deep_view()),
{
    let ghost s = atoms.deep_view();
    let n = atoms.entries.len();
    let mut entries: Vec<(usize, Option<crate::molecule::Atom>)> = Vec::new();
    let mut i: usize = 0;
    while i < n
        invariant
            0 <= i <= n,
            n == s.len(),
            s == atoms.deep_view(),
            cells@.len() == 16,
            crate::molecule::atom_entries_wf(s),
            entries.deep_view().len() == i,
            forall|m: int|
                0 <= m < i ==> #[trigger] entries.deep_view()[m] == (
                    s[m].0,
                    transform_opt_atom(cells.deep_view(), s[m].1),
                ),
            forall|m: int|
                0 <= m < i ==> (#[trigger] entries.deep_view()[m].1 matches Some(a)
                    ==> atom_v_wf(a)),
        decreases n - i,
    {
        proof {
            assert(s[i as int].1 matches Some(a) ==> atom_v_wf(a));
        }
        let k = atoms.entries[i].0;
        let v: Option<crate::molecule::Atom> = match &atoms.entries[i].1 {
            None => None,
            Some(a) => {
                match apply_transform_call(cells, &a.position) {
                    Some(p) => Some(crate::molecule::Atom { element: a.element, position: p }),
                    None => Some(a.duplicate()),
                }
            },
        };
        let ghost prev = entries.deep_view();
        entries.push((k, v));
        proof {
            assert(v.deep_view() == transform_opt_atom(cells.deep_view(), s[i as int].1));
            assert(v.deep_view() matches Some(av) ==> atom_v_wf(av));
            assert(k == s[i as int].0);
            assert(entries.deep_view().len() == i + 1);
            assert(entries.deep_view()[i as int] == (k, v.deep_view()));
            assert forall|m: int| 0 <= m < i + 1 implies #[trigger] entries.deep_view()[m] == (
                s[m].0,
                transform_opt_atom(cells.deep_view(), s[m].1),
            ) by {
                if m < i {
                    assert(entries.deep_view()[m] == prev[m]);
                    assert(prev[m] == (s[m].0, transform_opt_atom(cells.deep_view(), s[m].1)));
                }
            }
            assert forall|m: int|
                0 <= m < i + 1 implies (#[trigger] entries.deep_view()[m].1 matches Some(a)
                ==> atom_v_wf(a)) by {
                if m < i {
                    assert(entries.deep_view()[m] == prev[m]);
                    assert(prev[m].1 matches Some(a) ==> atom_v_wf(a));
                }
            }
        }
        i = i + 1;
    }
    let r = AtomTable { entries };
    proof {
        lemma_atom_entries_wf_mapped(s, r.deep_view());
    }
    r
}

/// An entry list with the keys of `s` and transformed or untouched live
/// atoms as values is well formed whenever `s` is.
proof fn lemma_atom_entries_wf_mapped(s: Seq<(usize, Option<AtomV>)>, t: Seq<(usize, Option<AtomV>)>)
    requires
        crate::molecule::atom_entries_wf(s),
        t.len() == s.len(),
        forall|m: int| 0 <= m < t.len() ==> #[trigger] t[m].0 == s[m].0,
        forall|m: int|
            0 <= m < t.len() ==> (#[trigger] t[m].1 matches Some(a) ==> atom_v_wf(a)),
    ensures
        crate::molecule::atom_entries_wf(t),
{
    assert forall|a: int, b: int| 0 <= a < b < t.len() implies t[a].0 != t[b].0 by {
        assert(t[a].0 == s[a].0);
        assert(t[b].0 == s[b].0);
    }
}

fn map_atoms_replace(atoms: &AtomTable, from: usize, to: usize) -> (r: AtomTable)
    requires
        crate::molecule::atom_entries_wf(atoms.deep_view()),
    ensures
        r.deep_view().len() == atoms.deep_view().len(),
        forall|m: int|
            0 <= m < r.deep_view().len() ==> #[trigger] r.deep_view()[m] == (
                atoms.deep_view()[m].0,
                replace_opt_atom(from, to, atoms.deep_view()[m].1),
            ),
        crate::molecule::atom_entries_wf(r.deep_view()),
{
    let ghost s = atoms.deep_view();
    let n = atoms.entries.len();
    let mut entries: Vec<(usize, Option<crate::molecule::Atom>)> = Vec::new();
    let mut i: usize = 0;
    while i < n
        invariant
            0 <= i <= n,
            n == s.len(),
            s == atoms.deep_view(),
            crate::molecule::atom_entries_wf(s),
            entries.deep_view().len() == i,
            forall|m: int|
                0 <= m < i ==> #[trigger] entries.deep_view()[m] == (
                    s[m].0,
                    replace_opt_atom(from, to, s[m].1),
                ),
            forall|m: int|
                0 <= m < i ==> (#[trigger] entries.deep_view()[m].1 matches Some(a)
                    ==> atom_v_wf(a)),
        decreases n - i,
    {
        proof {
            assert(s[i as int].1 matches Some(a) ==> atom_v_wf(a));
        }
        let k = atoms.entries[i].0;
        let v: Option<crate::molecule::Atom> = match &atoms.entries[i].1 {
            None => None,
            Some(a) => if a.element == from {
                Some(crate::molecule::Atom { element: to, position: a.position.duplicate() })
            } else {
                Some(a.duplicate())
            },
        };
        let ghost prev = entries.deep_view();
        entries.push((k, v));
        proof {
            assert(v.deep_view() == replace_opt_atom(from, to, s[i as int].1));
            assert(v.deep_view() matches Some(av) ==> atom_v_wf(av));
            assert(k == s[i as int].0);
            assert(entries.deep_view().len() == i + 1);
            assert(entries.deep_view()[i as int] == (k, v.deep_view()));
            assert forall|m: int| 0 <= m < i + 1 implies #[trigger] entries.deep_view()[m] == (
                s[m].0,
                replace_opt_atom(from, to, s[m].1),
            ) by {
                if m < i {
                    assert(entries.deep_view()[m] == prev[m]);
                    assert(prev[m] == (s[m].0, replace_opt_atom(from, to, s[m].1)));
                }
            }
            assert forall|m: int|
                0 <= m < i + 1 implies (#[trigger] entries.deep_view()[m].1 matches Some(a)
                ==> atom_v_wf(a)) by {
                if m < i {
                    assert(entries.deep_view()[m] == prev[m]);
                    assert(prev[m].1 matches Some(a) ==> atom_v_wf(a));
                }
            }
        }
        i = i + 1;
    }
    let r = AtomTable { entries };
    proof {
        lemma_atom_entries_wf_mapped(s, r.deep_view());
    }
    r
}

fn map_atoms_remove(atoms: &AtomTable, z: usize) -> (r: AtomTable)
    requires
        crate::molecule::atom_entries_wf(atoms.deep_view()),
    ensures
        r.deep_view().len() == atoms.deep_view().len(),
        forall|m: int|
            0 <= m < r.deep_view().len() ==> #[trigger] r.deep_view()[m] == (
                atoms.deep_view()[m].0,
                remove_opt_atom(z, atoms.deep_view()[m].1),
            ),
        crate::molecule::atom_entries_wf(r.deep_view()),
{
    let ghost s = atoms.deep_view();
    let n = atoms.entries.len();
    let mut entries: Vec<(usize, Option<crate::molecule::Atom>)> = Vec::new();
    let mut i: usize = 0;
    while i < n
        invariant
            0 <= i <= n,
            n == s.len(),
            s == atoms.deep_view(),
            crate::molecule::atom_entries_wf(s),
            entries.deep_view().len() == i,
            forall|m: int|
                0 <= m < i ==> #[trigger] entries.deep_view()[m] == (
                    s[m].0,
                    remove_opt_atom(z, s[m].1),
                ),
            forall|m: int|
                0 <= m < i ==> (#[trigger] entries.deep_view()[m].1 matches Some(a)
                    ==> atom_v_wf(a)),
        decreases n - i,
    {
        proof {
            assert(s[i as int].1 matches Some(a) ==> atom_v_wf(a));
        }
        let k = atoms.entries[i].0;
        let v: Option<crate::molecule::Atom> = match &atoms.entries[i].1 {
            None => None,
            Some(a) => if a.element == z {
                None
            } else {
                Some(a.duplicate())
            },
        };
        let ghost prev = entries.deep_view();
        entries.push((k, v));
        proof {
            assert(v.deep_view() == remove_opt_atom(z, s[i as int].1));
            assert(v.deep_view() matches Some(av) ==> atom_v_wf(av));
            assert(k == s[i as int].0);
            assert(entries.deep_view().len() == i + 1);
            assert(entries.deep_view()[i as int] == (k, v.deep_view()));
            assert forall|m: int| 0 <= m < i + 1 implies #[trigger] entries.deep_view()[m] == (
                s[m].0,
                remove_opt_atom(z, s[m].1),
            ) by {
                if m < i {
                    assert(entries.deep_view()[m] == prev[m]);
                    assert(prev[m] == (s[m].0, remove_opt_atom(z, s[m].1)));
                }
            }
            assert forall|m: int|
                0 <= m < i + 1 implies (#[trigger] entries.deep_view()[m].1 matches Some(a)
                ==> atom_v_wf(a)) by {
                if m < i {
                    assert(entries.deep_view()[m] == prev[m]);
                    assert(prev[m].1 matches Some(a) ==> atom_v_wf(a));
                }
            }
        }
        i = i + 1;
    }
    let r = AtomTable { entries };
    proof {
        lemma_atom_entries_wf_mapped(s, r.deep_view());
    }
    r
}

pub(crate) fn dup_string_vec(v: &Vec<String>) -> (r: Vec<String>)
    ensures
        r@ =~= v@,
        r.deep_view() == v.deep_view(),
{
    let n = v.len();
    let mut out: Vec<String> = Vec::new();
    let mut i: usize = 0;
    while i < n
        invariant
            0 <= i <= n,
            n == v.len(),
            out@ =~= v@.take(i as int),
        decreases n - i,
    {
        out.push(v[i].clone());
        proof {
            assert(out@ =~= v@.take(i as int + 1));
        }
        i = i + 1;
    }
    proof {
        assert(v@.take(n as int) =~= v@);
    }
    out
}

fn eq_string_vec(a: &Vec<String>, b: &Vec<String>) -> (r: bool)
    ensures
        r == (a.deep_view() == b.deep_view()),
{
    let n = a.len();
    if n != b.len() {
        proof {
            assert(a.deep_view().len() != b.deep_view().len());
        }
        return false;
    }
    let mut i: usize = 0;
    loop
        invariant
            0 <= i <= n,
            n == a.len(),
            n == b.len(),
            forall|m: int| 0 <= m < i ==> a.deep_view()[m] == b.deep_view()[m],
        ensures
            if i < n {
                a.deep_view()[i as int] != b.deep_view()[i as int]
            } else {
                a.deep_view() == b.deep_view()
            },
        decreases n - i,
    {
        if i == n {
            proof {
                assert(a.deep_view() =~= b.deep_view());
            }
            break ;
        }
        if !(a[i] == b[i]) {
            break ;
        }
        i = i + 1;
    }
    i == n
}

impl Layer {
    pub open spec fn wf(self) -> bool {
        layer_v_wf(self.deep_view())
    }

    /// Whether this layer computes without an outside program.
    pub fn is_pure(&self) -> (r: bool)
        ensures
            r == layer_v_is_pure(self.deep_view()),
    {
        !matches!(self, Layer::PluginFilter(_, _))
    }

    /// Applies a pure layer to `low`. The plugin variant's work needs an
    /// outside program and goes through the evaluation steps instead; under
    /// this function's requirement the call always succeeds.
    pub fn filter(&self, low: Molecule) -> (r: Result<
        Molecule,
        crate::error::LMECoreError,
    >)
        requires
            low.wf(),
            self.wf(),
            layer_v_is_pure(self.deep_view()),
        ensures
            r matches Ok(m) && m.wf() && m.model() == apply_layer(self.deep_view(), low.model()),
    {
        match self {
            Layer::Fill(high) => {
                let r = Molecule::merge(low, high.duplicate());
                Ok(r)
            },
            Layer::Transform(cells) => {
                let atoms = map_atoms_transform(&low.atoms, cells);
                proof {
                    lemma_kv_map_entrywise(
                        low.atoms.deep_view(),
                        atoms.deep_view(),
                        |o: Option<AtomV>| transform_opt_atom(cells.deep_view(), o),
                    );
                }
                let r = Molecule { atoms, bonds: low.bonds, groups: low.groups };
                proof {
                    let lm = apply_layer(self.deep_view(), low.model());
                    assert(r.model().atoms =~= lm.atoms);
                    assert(r.model() == lm);
                }
                Ok(r)
            },
            Layer::IgnoreBonds => {
                let mut m = low;
                m.bonds.clear();
                proof {
                    assert(kv_map(m.bonds.deep_view()) =~= Map::<
                        crate::pair::Pair,
                        Option<Seq<char>>,
                    >::empty());
                }
                Ok(m)
            },
            Layer::ReplaceElement(a, b) => {
                let atoms = map_atoms_replace(&low.atoms, *a, *b);
                proof {
                    lemma_kv_map_entrywise(
                        low.atoms.deep_view(),
                        atoms.deep_view(),
                        |o: Option<AtomV>| replace_opt_atom(*a, *b, o),
                    );
                }
                let r = Molecule { atoms, bonds: low.bonds, groups: low.groups };
                proof {
                    let lm = apply_layer(self.deep_view(), low.model());
                    assert(r.model().atoms =~= lm.atoms);
                    assert(r.model() == lm);
                }
                Ok(r)
            },
            Layer::RemoveElement(z) => {
                let atoms = map_atoms_remove(&low.atoms, *z);
                proof {
                    lemma_kv_map_entrywise(
                        low.atoms.deep_view(),
                        atoms.deep_view(),
                        |o: Option<AtomV>| remove_opt_atom(*z, o),
                    );
                }
                let r = Molecule { atoms, bonds: low.bonds, groups: low.groups };
                proof {
                    let lm = apply_layer(self.deep_view(), low.model());
                    assert(r.model().atoms =~= lm.atoms);
                    assert(r.model() == lm);
                }
                Ok(r)
            },
            Layer::PluginFilter(_, _) => {
                proof {
                    assert(false);
                }
                Err(crate::error::LMECoreError::NoSuchStack)
            },
        }
    }

    pub fn duplicate(&self) -> (r: Layer)
        ensures
            r.deep_view() == self.deep_view(),
    {
        match self {
            Layer::Fill(m) => Layer::Fill(m.duplicate()),
            Layer::Transform(c) => Layer::Transform(dup_string_vec(c)),
            Layer::IgnoreBonds => Layer::IgnoreBonds,
            Layer::ReplaceElement(a, b) => Layer::ReplaceElement(*a, *b),
            Layer::RemoveElement(z) => Layer::RemoveElement(*z),
            Layer::PluginFilter(cmd, args) => Layer::PluginFilter(
                cmd.clone(),
                dup_string_vec(args),
            ),
        }
    }

    /// Structural equality of two layers: same variant, same content.
    pub fn eq_value(&self, other: &Layer) -> (r: bool)
        ensures
            r == (self.deep_view() == other.deep_view()),
    {
        match (self, other) {
            (Layer::Fill(a), Layer::Fill(b)) => a.eq_value(b),
            (Layer::Transform(a), Layer::Transform(b)) => eq_string_vec(a, b),
            (Layer::IgnoreBonds, Layer::IgnoreBonds) => true,
            (Layer::ReplaceElement(a1, b1), Layer::ReplaceElement(a2, b2)) => a1 == a2 && b1
                == b2,
            (Layer::RemoveElement(z1), Layer::RemoveElement(z2)) => z1 == z2,
            (Layer::PluginFilter(c1, a1), Layer::PluginFilter(c2, a2)) => (*c1) == (*c2)
                && eq_string_vec(a1, a2),
            _ => false,
        }
    }
}

impl Default for Layer {
    /// The fill of the empty molecule: the identity layer.
    fn default() -> (r: Layer)
        ensures
            r.deep_view() == LayerV::Fill(crate::molecule::molecule_v_empty()),
            r.wf(),
    {
        Layer::Fill(Molecule::empty())
    }
}

/// Filling with the empty molecule changes nothing: it is an identity
/// element of layer composition.
pub proof fn lemma_fill_empty_identity(m: MoleculeM)
    ensures
        apply_layer(LayerV::Fill(crate::molecule::molecule_v_empty()), m) == m,
{
    let e = crate::molecule::molecule_v_empty();
    assert(kv_map(e.atoms) =~= Map::<usize, Option<AtomV>>::empty());
    assert(kv_map(e.bonds) =~= Map::<crate::pair::Pair, Option<Seq<char>>>::empty());
    assert(e.groups.to_set() =~= Set::<(usize, Seq<char>)>::empty()) by {
        assert(forall|x: (usize, Seq<char>)| !e.groups.contains(x));
    }
    assert(apply_layer(LayerV::Fill(e), m).atoms =~= m.atoms);
    assert(apply_layer(LayerV::Fill(e), m).bonds =~= m.bonds);
    assert(apply_layer(LayerV::Fill(e), m).groups =~= m.groups);
}

/// Clearing the edge table twice is the same as clearing it once.
pub proof fn lemma_ignore_bonds_idempotent(m: MoleculeM)
    ensures
        apply_layer(LayerV::IgnoreBonds, apply_layer(LayerV::IgnoreBonds, m)) == apply_layer(
            LayerV::IgnoreBonds,
            m,
        ),
{
}

/// Replacing an element with a tombstone twice is the same as doing it
/// once.
pub proof fn lemma_remove_element_idempotent(m: MoleculeM, z: usize)
    ensures
        apply_layer(LayerV::RemoveElement(z), apply_layer(LayerV::RemoveElement(z), m))
            == apply_layer(LayerV::RemoveElement(z), m),
{
    let once = apply_layer(LayerV::RemoveElement(z), m);
    let twice = apply_layer(LayerV::RemoveElement(z), once);
    assert(twice.atoms =~= once.atoms) by {
        assert forall|k: usize| #[trigger] once.atoms.contains_key(k) implies twice.atoms[k]
            == once.atoms[k] by {
            assert(once.atoms[k] == remove_opt_atom(z, m.atoms[k]));
        }
    }
}

/// Rewriting an element a second time finds nothing left to rewrite: the
/// first rewrite of `from` leaves no atom carrying `from`, so a second
/// rewrite of `from`, to any element, changes nothing.
pub proof fn lemma_replace_element_composition(m: MoleculeM, from: usize, to: usize, to2: usize)
    requires
        from != to,
    ensures
        apply_layer(
            LayerV::ReplaceElement(from, to2),
            apply_layer(LayerV::ReplaceElement(from, to), m),
        ) == apply_layer(LayerV::ReplaceElement(from, to), m),
{
    let once = apply_layer(LayerV::ReplaceElement(from, to), m);
    let twice = apply_layer(LayerV::ReplaceElement(from, to2), once);
    assert(twice.atoms =~= once.atoms) by {
        assert forall|k: usize| #[trigger] once.atoms.contains_key(k) implies twice.atoms[k]
            == once.atoms[k] by {
            assert(once.atoms[k] == replace_opt_atom(from, to, m.atoms[k]));
        }
    }
}

} // verus!
