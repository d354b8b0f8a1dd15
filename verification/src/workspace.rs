//! The workspace: a base molecule fixed at creation, an indexed vector of
//! stacks with structural sharing, and the namespace overlay.
use vstd::prelude::*;

use std::sync::Arc;

use crate::error::LMECoreError;
use crate::layer::{Layer, LayerV};
use crate::molecule::Molecule;
use crate::namespace::{InsertResult, NtoN, UniqueValueMap};
use crate::shared::arc_ref;
use crate::stack::{stack_v_wf, write_spec, Stack};

verus! {

/// A workspace. The base molecule is immutable after construction; stack
/// slots are replaced wholesale on mutation, never edited in place, so
/// slots and layers may share their values freely.
#[derive(Clone)]
pub struct Workspace {
    pub base: Molecule,
    pub stacks: Vec<Arc<Stack>>,
    pub atom_names: UniqueValueMap,
    pub groups: NtoN,
}

impl Workspace {
    pub open spec fn wf(self) -> bool {
        &&& self.base.wf()
        &&& forall|i: int|
            0 <= i < self.stacks.deep_view().len() ==> stack_v_wf(
                #[trigger] self.stacks.deep_view()[i],
            )
        &&& self.atom_names.wf()
        &&& self.groups.wf()
    }

    pub fn new(base: Molecule) -> (r: Workspace)
        requires
            base.wf(),
        ensures
            r.base == base,
            r.stacks@ =~= Seq::<Arc<Stack>>::empty(),
            r.atom_names.deep_view() =~= Seq::<(Seq<char>, usize)>::empty(),
            r.groups.deep_view() =~= Seq::<(usize, Seq<char>)>::empty(),
            r.wf(),
    {
        let r = Workspace {
            base,
            stacks: Vec::new(),
            atom_names: UniqueValueMap::new(),
            groups: NtoN::new(),
        };
        proof {
            assert(r.stacks.deep_view().len() == 0);
        }
        r
    }

    /// The number of stacks.
    pub fn stacks(&self) -> (r: usize)
        ensures
            r == self.stacks@.len(),
    {
        self.stacks.len()
    }

    /// The shared reference held in slot `idx`.
    pub fn get_stack(&self, idx: usize) -> (r: Result<Arc<Stack>, LMECoreError>)
        ensures
            idx < self.stacks@.len() <==> r is Ok,
            r matches Ok(s) ==> s == self.stacks@[idx as int],
            r matches Err(e) ==> e == LMECoreError::NoSuchStack,
    {
        if idx < self.stacks.len() {
            Ok(self.stacks[idx].clone())
        } else {
            Err(LMECoreError::NoSuchStack)
        }
    }

    /// Appends `copies + 1` slots all holding the same shared stack;
    /// the index of the first new slot comes back.
    pub fn create_stack(&mut self, stack: Arc<Stack>, copies: usize) -> (r: usize)
        requires
            old(self).wf(),
            stack_v_wf(stack.deep_view()),
        ensures
            final(self).wf(),
            r == old(self).stacks@.len(),
            final(self).stacks@.len() == old(self).stacks@.len() + copies + 1,
            forall|i: int|
                0 <= i < old(self).stacks@.len() ==> final(self).stacks@[i] == old(self).stacks@[i],
            forall|i: int|
                old(self).stacks@.len() <= i < final(self).stacks@.len() ==> final(self).stacks@[i] == stack,
            final(self).base == old(self).base,
            final(self).atom_names == old(self).atom_names,
            final(self).groups == old(self).groups,
    {
        let index = self.stacks.len();
        let ghost olds = self.stacks@;
        let mut c: usize = 0;
        loop
            invariant_except_break
                0 <= c <= copies,
                self.stacks@.len() == olds.len() + c,
            invariant
                olds.len() == old(self).stacks@.len(),
                self.stacks@.len() <= olds.len() + copies + 1,
                forall|i: int| 0 <= i < olds.len() ==> self.stacks@[i] == olds[i],
                forall|i: int| olds.len() <= i < self.stacks@.len() ==> self.stacks@[i] == stack,
                self.base == old(self).base,
                self.atom_names == old(self).atom_names,
                self.groups == old(self).groups,
            ensures
                self.stacks@.len() == olds.len() + copies + 1,
            decreases copies - c,
        {
            self.stacks.push(stack.clone());
            if c == copies {
                break ;
            }
            c = c + 1;
        }
        proof {
            assert forall|i: int|
                0 <= i < self.stacks.deep_view().len() implies stack_v_wf(
                #[trigger] self.stacks.deep_view()[i]) by {
                if i < olds.len() {
                    assert(self.stacks@[i] == old(self).stacks@[i]);
                    assert(stack_v_wf(old(self).stacks.deep_view()[i]));
                } else {
                    assert(self.stacks@[i] == stack);
                }
            }
        }
        index
    }

    /// A one-layer stack, created `copies + 1` times over.
    pub fn create_stack_from_layer(&mut self, layer: Arc<Layer>, copies: usize) -> (r: usize)
        requires
            old(self).wf(),
            crate::layer::layer_v_wf(layer.deep_view()),
        ensures
            final(self).wf(),
            r == old(self).stacks@.len(),
            final(self).stacks@.len() == old(self).stacks@.len() + copies + 1,
            forall|i: int|
                0 <= i < old(self).stacks@.len() ==> final(self).stacks@[i] == old(self).stacks@[i],
            forall|i: int|
                old(self).stacks@.len() <= i < final(self).stacks@.len() ==> (#[trigger] final(self).stacks@[i]).layers@ == seq![layer],
            final(self).base == old(self).base,
            final(self).atom_names == old(self).atom_names,
            final(self).groups == old(self).groups,
    {
        let stack = Stack::new(vec![layer]);
        proof {
            assert(stack.layers@ =~= seq![layer]);
            assert forall|i: int| 0 <= i < stack.deep_view().len() implies crate::layer::layer_v_wf(
                #[trigger] stack.deep_view()[i]) by {
                assert(stack.deep_view()[i] == layer.deep_view());
            }
        }
        self.create_stack(Arc::new(stack), copies)
    }

    /// Appends `copies + 1` slots sharing the stack already held at
    /// `stack_idx`: the new slots hold the very same stack reference.
    pub fn clone_stack(&mut self, stack_idx: usize, copies: usize) -> (r: Option<usize>)
        requires
            old(self).wf(),
        ensures
            final(self).wf(),
            r is Some <==> stack_idx < old(self).stacks@.len(),
            r is None ==> *final(self) == *old(self),
            r matches Some(first) ==> {
                &&& first == old(self).stacks@.len()
                &&& final(self).stacks@.len() == old(self).stacks@.len() + copies + 1
                &&& forall|i: int|
                    0 <= i < old(self).stacks@.len() ==> final(self).stacks@[i] == old(self).stacks@[i]
                &&& forall|i: int|
                    old(self).stacks@.len() <= i < final(self).stacks@.len() ==> final(self).stacks@[i] == old(self).stacks@[stack_idx as int]
                &&& final(self).base == old(self).base
                &&& final(self).atom_names == old(self).atom_names
                &&& final(self).groups == old(self).groups
            },
    {
        if stack_idx < self.stacks.len() {
            let stack = self.stacks[stack_idx].clone();
            proof {
                assert(stack_v_wf(old(self).stacks.deep_view()[stack_idx as int]));
            }
            Some(self.create_stack(stack, copies))
        } else {
            None
        }
    }

    /// Appends `copies + 1` slots holding the base of the stack at
    /// `stack_idx`: that stack with its topmost layer removed, sharing the
    /// remaining layer references.
    pub fn clone_base(&mut self, stack_idx: usize, copies: usize) -> (r: Option<usize>)
        requires
            old(self).wf(),
        ensures
            final(self).wf(),
            r is Some <==> stack_idx < old(self).stacks@.len(),
            r is None ==> *final(self) == *old(self),
            r matches Some(first) ==> {
                &&& first == old(self).stacks@.len()
                &&& final(self).stacks@.len() == old(self).stacks@.len() + copies + 1
                &&& forall|i: int|
                    0 <= i < old(self).stacks@.len() ==> final(self).stacks@[i] == old(self).stacks@[i]
                &&& forall|i: int|
                    old(self).stacks@.len() <= i < final(self).stacks@.len()
                        ==> (#[trigger] final(self).stacks.deep_view()[i]) == (
                        if old(self).stacks.deep_view()[stack_idx as int].len() > 0 {
                            old(self).stacks.deep_view()[stack_idx as int].drop_last()
                        } else {
                            Seq::<LayerV>::empty()
                        })
                &&& final(self).base == old(self).base
                &&& final(self).atom_names == old(self).atom_names
                &&& final(self).groups == old(self).groups
            },
    {
        if stack_idx < self.stacks.len() {
            let base = arc_ref(&self.stacks[stack_idx]).get_base();
            proof {
                let full = old(self).stacks.deep_view()[stack_idx as int];
                assert(stack_v_wf(full));
                assert forall|i: int| 0 <= i < base.deep_view().len() implies crate::layer::layer_v_wf(
                    #[trigger] base.deep_view()[i]) by {
                    if full.len() > 0 {
                        assert(base.deep_view()[i] == full.drop_last()[i]);
                        assert(full.drop_last()[i] == full[i]);
                    }
                }
            }
            Some(self.create_stack(Arc::new(base), copies))
        } else {
            None
        }
    }

    /// Removes slot `idx`; later slots move down by one.
    pub fn remove_stack(&mut self, idx: usize)
        requires
            old(self).wf(),
            idx < old(self).stacks@.len(),
        ensures
            final(self).wf(),
            final(self).stacks@ == old(self).stacks@.remove(idx as int),
            final(self).base == old(self).base,
            final(self).atom_names == old(self).atom_names,
            final(self).groups == old(self).groups,
    {
        self.stacks.remove(idx);
        proof {
            assert forall|i: int|
                0 <= i < self.stacks.deep_view().len() implies stack_v_wf(
                #[trigger] self.stacks.deep_view()[i]) by {
                let i0 = if i < idx {
                    i
                } else {
                    i + 1
                };
                assert(self.stacks@[i] == old(self).stacks@[i0]);
                assert(stack_v_wf(old(self).stacks.deep_view()[i0]));
            }
        }
    }

    /// Writes the patch into every stack of `[start_idx, start_idx +
    /// range)`: each of those slots gets a fresh stack equal to the old one
    /// with the patch written, and no other slot changes. When the range
    /// reaches beyond the current stacks, nothing changes at all and
    /// `false` comes back.
    pub fn write_to_stack(&mut self, start_idx: usize, range: usize, data: Molecule) -> (r: bool)
        requires
            old(self).wf(),
            data.wf(),
        ensures
            final(self).wf(),
            r <==> start_idx + range <= old(self).stacks@.len(),
            !r ==> *final(self) == *old(self),
            r ==> {
                &&& final(self).stacks@.len() == old(self).stacks@.len()
                &&& forall|i: int|
                    0 <= i < old(self).stacks@.len() && !(start_idx <= i < start_idx + range)
                        ==> final(self).stacks@[i] == old(self).stacks@[i]
                &&& forall|i: int|
                    start_idx <= i < start_idx + range ==> (#[trigger] final(self).stacks.deep_view()[i]) == write_spec(
                        old(self).stacks.deep_view()[i],
                        data.deep_view(),
                    )
                &&& final(self).base == old(self).base
                &&& final(self).atom_names == old(self).atom_names
                &&& final(self).groups == old(self).groups
            },
    {
        let n = self.stacks.len();
        if start_idx > n || range > n - start_idx {
            return false;
        }
        let stop = start_idx + range;
        let mut i = start_idx;
        while i < stop
            invariant
                start_idx <= i <= stop,
                stop == start_idx + range,
                stop <= self.stacks@.len(),
                self.stacks@.len() == old(self).stacks@.len(),
                data.wf(),
                old(self).wf(),
                forall|m: int|
                    0 <= m < self.stacks@.len() && !(start_idx <= m < i) ==> self.stacks@[m]
                        == old(self).stacks@[m],
                forall|m: int|
                    start_idx <= m < i ==> (#[trigger] self.stacks.deep_view()[m]) == write_spec(
                        old(self).stacks.deep_view()[m],
                        data.deep_view(),
                    ),
                forall|m: int|
                    0 <= m < self.stacks.deep_view().len() ==> stack_v_wf(
                        #[trigger] self.stacks.deep_view()[m],
                    ),
                self.base == old(self).base,
                self.atom_names == old(self).atom_names,
                self.groups == old(self).groups,
            decreases stop - i,
        {
            let mut updated = arc_ref(&self.stacks[i]).duplicate();
            proof {
                assert(stack_v_wf(self.stacks.deep_view()[i as int]));
                assert(updated.deep_view() == old(self).stacks.deep_view()[i as int]);
            }
            updated.write(data.duplicate());
            let ghost prevs = self.stacks@;
            let ghost prevdv = self.stacks.deep_view();
            self.stacks.set(i, Arc::new(updated));
            proof {
                assert(self.stacks.deep_view()[i as int] == updated.deep_view());
                assert(self.stacks.deep_view()[i as int] == write_spec(
                    old(self).stacks.deep_view()[i as int],
                    data.deep_view(),
                ));
                assert forall|m: int|
                    0 <= m < self.stacks@.len() && m != i implies self.stacks@[m] == prevs[m]
                    && (#[trigger] self.stacks.deep_view()[m]) == prevdv[m] by {
                    assert(self.stacks@[m] == prevs[m]);
                }
                assert forall|m: int|
                    start_idx <= m < i + 1 implies (#[trigger] self.stacks.deep_view()[m])
                    == write_spec(old(self).stacks.deep_view()[m], data.deep_view()) by {
                    if m < i {
                        assert(self.stacks.deep_view()[m] == prevdv[m]);
                        assert(prevdv[m] == write_spec(
                            old(self).stacks.deep_view()[m],
                            data.deep_view(),
                        ));
                    }
                }
                assert forall|m: int|
                    0 <= m < self.stacks.deep_view().len() implies stack_v_wf(
                    #[trigger] self.stacks.deep_view()[m]) by {
                    if m == i {
                        assert(stack_v_wf(updated.deep_view()));
                    } else {
                        assert(self.stacks.deep_view()[m] == prevdv[m]);
                        assert(stack_v_wf(prevdv[m]));
                    }
                }
                assert forall|m: int|
                    0 <= m < self.stacks@.len() && !(start_idx <= m < i + 1) implies self.stacks@[m]
                    == old(self).stacks@[m] by {
                    assert(self.stacks@[m] == prevs[m]);
                }
            }
            i = i + 1;
        }
        true
    }

    /// Appends the shared layer on top of every stack of `[start_idx,
    /// start_idx + range)`, each slot getting a fresh stack; `false`, and
    /// no change, when the range reaches beyond the current stacks.
    pub fn add_layer_to_stack(&mut self, start_idx: usize, range: usize, layer: Arc<Layer>) -> (r:
        bool)
        requires
            old(self).wf(),
            crate::layer::layer_v_wf(layer.deep_view()),
        ensures
            final(self).wf(),
            r <==> start_idx + range <= old(self).stacks@.len(),
            !r ==> *final(self) == *old(self),
            r ==> {
                &&& final(self).stacks@.len() == old(self).stacks@.len()
                &&& forall|i: int|
                    0 <= i < old(self).stacks@.len() && !(start_idx <= i < start_idx + range)
                        ==> final(self).stacks@[i] == old(self).stacks@[i]
                &&& forall|i: int|
                    start_idx <= i < start_idx + range ==> (#[trigger] final(self).stacks@[i]).layers@ == old(self).stacks@[i].layers@.push(layer)
                &&& final(self).base == old(self).base
                &&& final(self).atom_names == old(self).atom_names
                &&& final(self).groups == old(self).groups
            },
    {
        let n = self.stacks.len();
        if start_idx > n || range > n - start_idx {
            return false;
        }
        let stop = start_idx + range;
        let mut i = start_idx;
        while i < stop
            invariant
                start_idx <= i <= stop,
                stop == start_idx + range,
                stop <= self.stacks@.len(),
                self.stacks@.len() == old(self).stacks@.len(),
                old(self).wf(),
                crate::layer::layer_v_wf(layer.deep_view()),
                forall|m: int|
                    0 <= m < self.stacks@.len() && !(start_idx <= m < i) ==> self.stacks@[m]
                        == old(self).stacks@[m],
                forall|m: int|
                    start_idx <= m < i ==> (#[trigger] self.stacks@[m]).layers@ == old(self).stacks@[m].layers@.push(layer),
                forall|m: int|
                    0 <= m < self.stacks.deep_view().len() ==> stack_v_wf(
                        #[trigger] self.stacks.deep_view()[m],
                    ),
                self.base == old(self).base,
                self.atom_names == old(self).atom_names,
                self.groups == old(self).groups,
            decreases stop - i,
        {
            let mut updated = arc_ref(&self.stacks[i]).duplicate();
            proof {
                assert(stack_v_wf(self.stacks.deep_view()[i as int]));
                assert(updated.layers@ == old(self).stacks@[i as int].layers@);
            }
            let ghost beforedv = updated.deep_view();
            updated.add_layer(layer.clone());
            let ghost prevs = self.stacks@;
            let ghost prevdv = self.stacks.deep_view();
            self.stacks.set(i, Arc::new(updated));
            proof {
                assert(self.stacks@[i as int].layers@ == old(self).stacks@[i as int].layers@.push(
                    layer,
                ));
                assert forall|m: int|
                    0 <= m < self.stacks@.len() && m != i implies self.stacks@[m] == prevs[m]
                    && (#[trigger] self.stacks.deep_view()[m]) == prevdv[m] by {
                    assert(self.stacks@[m] == prevs[m]);
                }
                assert forall|m: int|
                    0 <= m < self.stacks.deep_view().len() implies stack_v_wf(
                    #[trigger] self.stacks.deep_view()[m]) by {
                    if m == i {
                        assert(self.stacks.deep_view()[m] == updated.deep_view());
                        assert(stack_v_wf(beforedv));
                        assert forall|j: int|
                            0 <= j < updated.deep_view().len() implies crate::layer::layer_v_wf(
                            #[trigger] updated.deep_view()[j]) by {
                            if j < updated.deep_view().len() - 1 {
                                assert(updated.deep_view()[j] == beforedv[j]);
                            } else {
                                assert(updated.deep_view()[j] == layer.deep_view());
                            }
                        }
                    } else {
                        assert(self.stacks.deep_view()[m] == prevdv[m]);
                        assert(stack_v_wf(prevdv[m]));
                    }
                }
                assert forall|m: int|
                    0 <= m < self.stacks@.len() && !(start_idx <= m < i + 1) implies self.stacks@[m]
                    == old(self).stacks@[m] by {
                    assert(self.stacks@[m] == prevs[m]);
                }
            }
            i = i + 1;
        }
        true
    }
}

impl Workspace {
    /// Binds the name to the atom index: refused where another name
    /// already owns the index, replacing where the name was bound.
    pub fn set_id(&mut self, idx: usize, id: String) -> (r: InsertResult<String, usize>)
        requires
            old(self).wf(),
        ensures
            final(self).wf(),
            final(self).base == old(self).base,
            final(self).stacks == old(self).stacks,
            final(self).groups == old(self).groups,
            crate::namespace::has_value(old(self).atom_names.deep_view(), idx) ==> final(self).atom_names == old(self).atom_names,
            crate::namespace::has_value(old(self).atom_names.deep_view(), idx) ==> r is Duplicated,
            !crate::namespace::has_value(old(self).atom_names.deep_view(), idx) ==> final(self).atom_names.map_view() == old(self).atom_names.map_view().insert(id@, idx),
    {
        self.atom_names.insert(id, idx)
    }

    /// Unbinds the name; hands back the index it was bound to.
    pub fn remove_id(&mut self, id: &String) -> (r: Option<usize>)
        requires
            old(self).wf(),
        ensures
            final(self).wf(),
            final(self).base == old(self).base,
            final(self).stacks == old(self).stacks,
            final(self).groups == old(self).groups,
            final(self).atom_names.map_view() == old(self).atom_names.map_view().remove(id@),
            r matches Some(v) ==> old(self).atom_names.map_view().contains_key(id@) && v == old(self).atom_names.map_view()[id@],
            r is None ==> !old(self).atom_names.map_view().contains_key(id@),
    {
        let r = self.atom_names.remove(id);
        proof {
            crate::tablespec::lemma_kv_map_dom(old(self).atom_names.deep_view(), id@);
        }
        r
    }

    /// The index bound to the name, if any.
    pub fn id_to_index(&self, target: &String) -> (r: Option<usize>)
        requires
            self.wf(),
        ensures
            r matches Some(v) ==> self.atom_names.map_view().contains_key(target@) && v
                == self.atom_names.map_view()[target@],
            r is None ==> !self.atom_names.map_view().contains_key(target@),
    {
        self.atom_names.get(target)
    }

    /// The name bound to the index, if any.
    pub fn index_to_id(&self, idx: usize) -> (r: Option<String>)
        ensures
            r matches Some(name) ==> exists|j: int|
                0 <= j < self.atom_names.deep_view().len()
                    && #[trigger] self.atom_names.deep_view()[j] == (name@, idx),
            r is None ==> !crate::namespace::has_value(self.atom_names.deep_view(), idx),
    {
        self.atom_names.key_of_value(idx)
    }

    /// All bound names, in entry order.
    pub fn list_ids(&self) -> (r: Vec<String>)
        ensures
            r.deep_view().len() == self.atom_names.deep_view().len(),
            forall|m: int|
                0 <= m < r.deep_view().len() ==> #[trigger] r.deep_view()[m]
                    == self.atom_names.deep_view()[m].0,
    {
        self.atom_names.keys()
    }

    /// Puts the index into the class; `true` when it was not there yet.
    pub fn set_to_class(&mut self, idx: usize, class: String) -> (r: bool)
        requires
            old(self).wf(),
        ensures
            final(self).wf(),
            final(self).base == old(self).base,
            final(self).stacks == old(self).stacks,
            final(self).atom_names == old(self).atom_names,
            final(self).groups.set_view() == old(self).groups.set_view().insert((idx, class@)),
            r == !old(self).groups.set_view().contains((idx, class@)),
    {
        self.groups.insert(idx, class)
    }

    /// Takes the index out of the class; `true` when it was there.
    pub fn remove_from_class(&mut self, idx: usize, class: &String) -> (r: bool)
        requires
            old(self).wf(),
        ensures
            final(self).wf(),
            final(self).base == old(self).base,
            final(self).stacks == old(self).stacks,
            final(self).atom_names == old(self).atom_names,
            final(self).groups.set_view() == old(self).groups.set_view().remove((idx, class@)),
            r == old(self).groups.set_view().contains((idx, class@)),
    {
        self.groups.remove(idx, class)
    }

    /// Takes the index out of every class.
    pub fn remove_from_all_class(&mut self, idx: usize)
        requires
            old(self).wf(),
        ensures
            final(self).wf(),
            final(self).base == old(self).base,
            final(self).stacks == old(self).stacks,
            final(self).atom_names == old(self).atom_names,
            final(self).groups.set_view() == Set::new(
                |e: (usize, Seq<char>)| old(self).groups.set_view().contains(e) && e.0 != idx,
            ),
    {
        self.groups.remove_left(idx)
    }

    /// Dissolves the class.
    pub fn remove_class(&mut self, class: &String)
        requires
            old(self).wf(),
        ensures
            final(self).wf(),
            final(self).base == old(self).base,
            final(self).stacks == old(self).stacks,
            final(self).atom_names == old(self).atom_names,
            final(self).groups.set_view() == Set::new(
                |e: (usize, Seq<char>)| old(self).groups.set_view().contains(e) && e.1 != class@,
            ),
    {
        self.groups.remove_right(class)
    }

    /// The indices the class holds, in entry order.
    pub fn class_indexes(&self, class: &String) -> (r: Vec<usize>)
        ensures
            forall|l: usize|
                #[trigger] r@.contains(l) <==> self.groups.set_view().contains((l, class@)),
    {
        self.groups.get_right(class)
    }

    /// The classes the index belongs to, in entry order.
    pub fn get_classes(&self, idx: usize) -> (r: Vec<String>)
        ensures
            forall|t: Seq<char>|
                #[trigger] r.deep_view().contains(t) <==> self.groups.set_view().contains(
                    (idx, t),
                ),
    {
        self.groups.get_left(idx)
    }

    /// The classes in use, each once.
    pub fn list_classes(&self) -> (r: Vec<String>)
        ensures
            r.deep_view().no_duplicates(),
            forall|t: Seq<char>|
                #[trigger] r.deep_view().contains(t) <==> (exists|l: usize|
                    self.groups.set_view().contains((l, t))),
    {
        self.groups.get_rights()
    }

    /// Resolves a name against a read molecule: the name must be bound,
    /// and the atom it names must be live in the molecule.
    pub fn id_to_live_index(&self, target: &String, resolved: &Molecule) -> (r: Result<
        usize,
        LMECoreError,
    >)
        requires
            self.wf(),
            resolved.wf(),
        ensures
            !self.atom_names.map_view().contains_key(target@) ==> (r matches Err(e) && e
                == LMECoreError::NoSuchId),
            self.atom_names.map_view().contains_key(target@) && resolved.model().atoms.contains_key(
                self.atom_names.map_view()[target@],
            ) && resolved.model().atoms[self.atom_names.map_view()[target@]] is Some ==> (r
                matches Ok(v) && v == self.atom_names.map_view()[target@]),
            self.atom_names.map_view().contains_key(target@) && !(resolved.model().atoms.contains_key(
                self.atom_names.map_view()[target@],
            ) && resolved.model().atoms[self.atom_names.map_view()[target@]] is Some) ==> (r
                matches Err(e) && e == LMECoreError::NoSuchAtom),
    {
        match self.atom_names.get(target) {
            None => Err(LMECoreError::NoSuchId),
            Some(idx) => match resolved.atoms.get(idx) {
                Some(Some(_)) => Ok(idx),
                _ => Err(LMECoreError::NoSuchAtom),
            },
        }
    }
}

} // verus!
