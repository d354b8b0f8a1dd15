//! A stack: an ordered sequence of shared layer references, read bottom to
//! top over a base molecule.
use vstd::prelude::*;

use std::sync::Arc;

use crate::error::LMECoreError;
use crate::layer::{apply_layer, layer_v_is_pure, layer_v_wf, Layer, LayerV};
use crate::molecule::{
    merge_model, merge_v, model_of, molecule_v_empty, Molecule, MoleculeM, MoleculeV,
};

verus! {

/// A stack of layers. Two stacks may share layer values by reference; a
/// stack never mutates a layer in place.
#[derive(Debug, Clone)]
pub struct Stack {
    pub layers: Vec<Arc<Layer>>,
}

impl DeepView for Stack {
    type V = Seq<LayerV>;

    open spec fn deep_view(&self) -> Seq<LayerV> {
        self.layers.deep_view()
    }
}

pub open spec fn stack_v_wf(layers: Seq<LayerV>) -> bool {
    forall|i: int| 0 <= i < layers.len() ==> layer_v_wf(#[trigger] layers[i])
}

/// Whether every layer of the stack computes without an outside program.
pub open spec fn stack_v_pure(layers: Seq<LayerV>) -> bool {
    forall|i: int| 0 <= i < layers.len() ==> layer_v_is_pure(#[trigger] layers[i])
}

/// Reading a stack of pure layers: fold each layer over the base, bottom
/// to top.
pub open spec fn read_model(layers: Seq<LayerV>, base: MoleculeM) -> MoleculeM
    decreases layers.len(),
{
    if layers.len() == 0 {
        base
    } else {
        apply_layer(layers.last(), read_model(layers.drop_last(), base))
    }
}

/// What `write` does to the layer listing: merge into a topmost fill, or
/// append a fresh fill.
pub open spec fn write_spec(layers: Seq<LayerV>, w: MoleculeV) -> Seq<LayerV> {
    if layers.len() > 0 && (layers.last() matches LayerV::Fill(cur)) {
        layers.drop_last().push(LayerV::Fill(merge_v(layers.last()->Fill_0, w)))
    } else {
        layers.push(LayerV::Fill(w))
    }
}

impl Stack {
    pub open spec fn wf(self) -> bool {
        stack_v_wf(self.deep_view())
    }

    pub fn new(layers: Vec<Arc<Layer>>) -> (r: Stack)
        ensures
            r.layers == layers,
    {
        Stack { layers }
    }

    pub fn get_layers(&self) -> (r: &Vec<Arc<Layer>>)
        ensures
            r == self.layers,
    {
        &self.layers
    }

    /// The stack with its topmost layer removed; the empty stack stays
    /// empty. Shares its layer references with this stack.
    pub fn get_base(&self) -> (r: Stack)
        ensures
            self.deep_view().len() > 0 ==> r.deep_view() == self.deep_view().drop_last(),
            self.deep_view().len() == 0 ==> r.deep_view() == Seq::<LayerV>::empty(),
            r.layers@.len() == if self.layers@.len() > 0 {
                self.layers@.len() - 1
            } else {
                0
            },
            forall|i: int| 0 <= i < r.layers@.len() ==> r.layers@[i] == self.layers@[i],
    {
        let mut layers: Vec<Arc<Layer>> = Vec::new();
        if self.layers.len() == 0 {
            return Stack { layers };
        }
        let n = self.layers.len() - 1;
        let mut i: usize = 0;
        while i < n
            invariant
                0 <= i <= n,
                n == self.layers@.len() - 1,
                layers@.len() == i,
                forall|m: int| 0 <= m < i ==> layers@[m] == self.layers@[m],
            decreases n - i,
        {
            layers.push(self.layers[i].clone());
            i = i + 1;
        }
        let r = Stack { layers };
        proof {
            assert(r.deep_view() =~= self.deep_view().drop_last());
        }
        r
    }

    /// Appends a layer on top.
    pub fn add_layer(&mut self, layer: Arc<Layer>)
        ensures
            final(self).layers@ == old(self).layers@.push(layer),
            final(self).deep_view() == old(self).deep_view().push(layer.deep_view()),
    {
        self.layers.push(layer);
        proof {
            assert(self.deep_view() =~= old(self).deep_view().push(layer.deep_view()));
        }
    }

    /// Writes a molecule patch: merged into the topmost layer where that is
    /// a fill, else appended as a new fill, so consecutive fills collapse
    /// into a single logical edit.
    pub fn write(&mut self, w: Molecule)
        requires
            old(self).wf(),
            w.wf(),
        ensures
            final(self).wf(),
            final(self).deep_view() == write_spec(old(self).deep_view(), w.deep_view()),
    {
        let n = self.layers.len();
        if n > 0 {
            let top = crate::shared::arc_ref(&self.layers[n - 1]);
            let is_fill = matches!(top, Layer::Fill(_));
            if is_fill {
                match top {
                    Layer::Fill(cur) => {
                        proof {
                            assert(layer_v_wf(self.deep_view()[n - 1]));
                        }
                        let merged = Molecule::merge(cur.duplicate(), w);
                        let ghost olddv = self.deep_view();
                        let newtop = Arc::new(Layer::Fill(merged));
                        self.layers.set(n - 1, newtop);
                        proof {
                            assert(self.deep_view() =~= olddv.drop_last().push(
                                LayerV::Fill(merge_v(olddv.last()->Fill_0, w.deep_view())),
                            ));
                            assert forall|i: int|
                                0 <= i < self.deep_view().len() implies layer_v_wf(
                                #[trigger] self.deep_view()[i]) by {
                                if i < self.deep_view().len() - 1 {
                                    assert(self.deep_view()[i] == olddv[i]);
                                }
                            }
                        }
                        return ;
                    },
                    _ => {
                        proof {
                            assert(false);
                        }
                    },
                }
            }
        }
        let ghost olddv = self.deep_view();
        self.layers.push(Arc::new(Layer::Fill(w)));
        proof {
            assert(self.deep_view() =~= olddv.push(LayerV::Fill(w.deep_view())));
            assert forall|i: int| 0 <= i < self.deep_view().len() implies layer_v_wf(
                #[trigger] self.deep_view()[i]) by {
                if i < self.deep_view().len() - 1 {
                    assert(self.deep_view()[i] == olddv[i]);
                }
            }
        }
    }

    /// Reads the stack over `base`: every layer applied in order, bottom to
    /// top. For a stack of pure layers the call always succeeds; a stack
    /// that holds a plugin layer goes through the stepwise evaluation
    /// instead.
    pub fn read(&self, base: Molecule) -> (r: Result<Molecule, LMECoreError>)
        requires
            self.wf(),
            stack_v_pure(self.deep_view()),
            base.wf(),
        ensures
            r matches Ok(m) && m.wf() && m.model() == read_model(
                self.deep_view(),
                base.model(),
            ),
    {
        let ghost layers = self.deep_view();
        let n = self.layers.len();
        let mut acc = base;
        let mut i: usize = 0;
        while i < n
            invariant
                0 <= i <= n,
                n == layers.len(),
                layers == self.deep_view(),
                self.wf(),
                stack_v_pure(layers),
                acc.wf(),
                acc.model() == read_model(layers.take(i as int), base.model()),
            decreases n - i,
        {
            proof {
                assert(layer_v_wf(layers[i as int]));
                assert(layer_v_is_pure(layers[i as int]));
            }
            let step = crate::shared::arc_ref(&self.layers[i]).filter(acc);
            match step {
                Ok(m) => {
                    acc = m;
                },
                Err(e) => {
                    proof {
                        assert(false);
                    }
                    return Err(e);
                },
            }
            proof {
                assert(layers.take(i as int + 1).drop_last() =~= layers.take(i as int));
                assert(layers.take(i as int + 1).last() == layers[i as int]);
            }
            i = i + 1;
        }
        proof {
            assert(layers.take(n as int) =~= layers);
        }
        Ok(acc)
    }

    /// A fresh stack value with the same shared layer references.
    pub fn duplicate(&self) -> (r: Stack)
        ensures
            r.layers@ == self.layers@,
            r.deep_view() == self.deep_view(),
    {
        let n = self.layers.len();
        let mut layers: Vec<Arc<Layer>> = Vec::new();
        let mut i: usize = 0;
        while i < n
            invariant
                0 <= i <= n,
                n == self.layers@.len(),
                layers@.len() == i,
                forall|m: int| 0 <= m < i ==> layers@[m] == self.layers@[m],
            decreases n - i,
        {
            layers.push(self.layers[i].clone());
            i = i + 1;
        }
        let r = Stack { layers };
        proof {
            assert(r.layers@ =~= self.layers@);
        }
        r
    }
}

impl Default for Stack {
    /// The empty stack: the identity over any base.
    fn default() -> (r: Stack)
        ensures
            r.deep_view() == Seq::<LayerV>::empty(),
            r.wf(),
    {
        let r = Stack { layers: Vec::new() };
        proof {
            assert(r.deep_view() =~= Seq::<LayerV>::empty());
        }
        r
    }
}

/// An empty stack reads as its base, and so does a stack holding one fill
/// of the empty molecule.
pub proof fn lemma_stack_identity(b: MoleculeM)
    ensures
        read_model(Seq::<LayerV>::empty(), b) == b,
        read_model(seq![LayerV::Fill(molecule_v_empty())], b) == b,
{
    let one = seq![LayerV::Fill(molecule_v_empty())];
    assert(one.drop_last() =~= Seq::<LayerV>::empty());
    assert(read_model(Seq::<LayerV>::empty(), b) == b);
    assert(one.last() == LayerV::Fill(molecule_v_empty()));
    assert(read_model(one, b) == apply_layer(LayerV::Fill(molecule_v_empty()), b));
    assert(crate::tablespec::kv_map(molecule_v_empty().atoms) =~= Map::<
        usize,
        Option<crate::molecule::AtomV>,
    >::empty());
    assert(crate::tablespec::kv_map(molecule_v_empty().bonds) =~= Map::<
        crate::pair::Pair,
        Option<Seq<char>>,
    >::empty());
    assert(molecule_v_empty().groups.to_set() =~= Set::<(usize, Seq<char>)>::empty()) by {
        assert(forall|e: (usize, Seq<char>)| !molecule_v_empty().groups.contains(e));
    }
    assert(merge_model(b, model_of(molecule_v_empty())).atoms =~= b.atoms);
    assert(merge_model(b, model_of(molecule_v_empty())).bonds =~= b.bonds);
    assert(merge_model(b, model_of(molecule_v_empty())).groups =~= b.groups);
}

/// Layer order matters. Removing every atom of element `z` and then filling
/// atom `i` with an atom of element `z` leaves that atom live; filling
/// first and removing afterwards leaves a tombstone at `i`: the two reads
/// differ at `i` over every base.
pub proof fn lemma_layer_order(b: MoleculeM, z: usize, i: usize, a: crate::molecule::AtomV, fill: MoleculeV)
    requires
        a.element == z,
        fill.atoms == seq![(i, Some(a))],
        fill.bonds == Seq::<(crate::pair::Pair, Option<Seq<char>>)>::empty(),
        fill.groups == Seq::<(usize, Seq<char>)>::empty(),
    ensures
        read_model(seq![LayerV::RemoveElement(z), LayerV::Fill(fill)], b).atoms[i] == Some(a),
        read_model(seq![LayerV::Fill(fill), LayerV::RemoveElement(z)], b).atoms[i]
            == None::<crate::molecule::AtomV>,
        read_model(seq![LayerV::RemoveElement(z), LayerV::Fill(fill)], b).atoms[i] != read_model(
            seq![LayerV::Fill(fill), LayerV::RemoveElement(z)],
            b,
        ).atoms[i],
{
    let rem = LayerV::RemoveElement(z);
    let fil = LayerV::Fill(fill);
    let s1 = seq![rem, fil];
    let s2 = seq![fil, rem];
    assert(crate::tablespec::kv_map(fill.atoms) == crate::tablespec::kv_map(
        fill.atoms.drop_last(),
    ).insert(i, Some(a)));
    assert(crate::tablespec::kv_map(fill.atoms).contains_key(i));
    assert(crate::tablespec::kv_map(fill.atoms)[i] == Some(a));

    assert(s1.drop_last() =~= seq![rem]);
    assert(seq![rem].drop_last() =~= Seq::<LayerV>::empty());
    assert(read_model(Seq::<LayerV>::empty(), b) == b);
    let after_rem = apply_layer(rem, b);
    assert(seq![rem].last() == rem);
    assert(read_model(seq![rem], b) == after_rem);
    assert(s1.last() == fil);
    assert(read_model(s1, b) == apply_layer(fil, after_rem));
    assert(read_model(s1, b).atoms == after_rem.atoms.union_prefer_right(
        crate::tablespec::kv_map(fill.atoms),
    ));
    assert(read_model(s1, b).atoms[i] == Some(a));

    assert(s2.drop_last() =~= seq![fil]);
    assert(seq![fil].drop_last() =~= Seq::<LayerV>::empty());
    let after_fill = apply_layer(fil, b);
    assert(after_fill.atoms[i] == Some(a));
    assert(after_fill.atoms.contains_key(i));
    assert(seq![fil].last() == fil);
    assert(read_model(seq![fil], b) == after_fill);
    assert(s2.last() == rem);
    assert(read_model(s2, b) == apply_layer(rem, after_fill));
    assert(read_model(s2, b).atoms[i] == crate::layer::remove_opt_atom(z, Some(a)));
    assert(read_model(s2, b).atoms[i] == None::<crate::molecule::AtomV>);
}

} // verus!
