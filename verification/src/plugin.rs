//! Stepwise stack evaluation around outside programs. Pure layers are
//! folded by the library itself; when a plugin layer is reached, the
//! evaluation stops with the prepared call, the caller runs the program,
//! and evaluation resumes with whatever came back.
use vstd::prelude::*;

use std::sync::Arc;

use crate::codec::{molecule_from_json, molecule_to_json, ser_molecule};
use crate::error::LMECoreError;
use crate::layer::{layer_v_is_pure, layer_v_wf, Layer, LayerV};
use crate::molecule::{merge_model, molecule_v_wf, Molecule, MoleculeM};
use crate::shared::arc_ref;
use crate::stack::{read_model, stack_v_wf};
use crate::workspace::Workspace;

verus! {

/// One prepared call of an outside program: the command and arguments of
/// the plugin layer, and the document of the molecule assembled below it.
pub struct PluginCall {
    pub command: String,
    pub args: Vec<String>,
    pub input: String,
}

/// The state kept while an outside program runs: the molecule assembled
/// below the plugin layer, and the layers above it.
pub struct ReadPending {
    pub acc: Molecule,
    pub rest: Vec<Arc<Layer>>,
}

/// What one evaluation step ends in.
pub enum ReadOutcome {
    Done(Molecule),
    Call(PluginCall, ReadPending),
    Failed(LMECoreError),
}

/// The position of the first plugin layer, or the length when every layer
/// is pure.
pub open spec fn first_impure(layers: Seq<LayerV>) -> int
    decreases layers.len(),
{
    if layers.len() == 0 {
        0
    } else if !layer_v_is_pure(layers[0]) {
        0
    } else {
        1 + first_impure(layers.skip(1))
    }
}

pub proof fn lemma_first_impure_run(layers: Seq<LayerV>, k: int)
    requires
        0 <= k <= layers.len(),
        forall|m: int| 0 <= m < k ==> layer_v_is_pure(#[trigger] layers[m]),
        k < layers.len() ==> !layer_v_is_pure(layers[k]),
    ensures
        first_impure(layers) == k,
    decreases k,
{
    if k > 0 {
        assert(layer_v_is_pure(layers[0]));
        assert forall|m: int| 0 <= m < k - 1 implies layer_v_is_pure(
            #[trigger] layers.skip(1)[m]) by {
            assert(layers.skip(1)[m] == layers[m + 1]);
        }
        if k - 1 < layers.skip(1).len() {
            assert(layers.skip(1)[k - 1] == layers[k]);
        }
        lemma_first_impure_run(layers.skip(1), k - 1);
    } else {
        if layers.len() > 0 {
            assert(!layer_v_is_pure(layers[0]));
        }
    }
}

/// What a step of evaluation over the layers `lv` on the base `base`
/// guarantees of its outcome: every pure stack ends in its fold, and a
/// stack with a plugin layer ends in the prepared call at the first one.
pub open spec fn step_post(lv: Seq<LayerV>, base: MoleculeM, r: ReadOutcome) -> bool {
    let j = first_impure(lv);
    if j == lv.len() {
        r matches ReadOutcome::Done(m) && m.wf() && m.model() == read_model(lv, base)
    } else {
        r matches ReadOutcome::Call(c, pend) && {
            &&& lv[j] matches LayerV::PluginFilter(cmd, args) && c.command@ == cmd
                && c.args.deep_view() == args
            &&& pend.acc.wf()
            &&& pend.acc.model() == read_model(lv.take(j), base)
            &&& c.input@ == ser_molecule(pend.acc.deep_view())
            &&& pend.rest.deep_view() == lv.skip(j + 1)
            &&& stack_v_wf(pend.rest.deep_view())
        }
    }
}

/// Folds the layers from `start` on over `acc` until a plugin layer or
/// the top is reached.
fn advance(layers: &Vec<Arc<Layer>>, start: usize, acc: Molecule) -> (r: ReadOutcome)
    requires
        acc.wf(),
        start <= layers@.len(),
        stack_v_wf(layers.deep_view()),
    ensures
        step_post(layers.deep_view().skip(start as int), acc.model(), r),
{
    let ghost lv = layers.deep_view().skip(start as int);
    let ghost base = acc.model();
    let n = layers.len();
    let mut cur = acc;
    let mut i = start;
    loop
        invariant
            start <= i <= n,
            n == layers@.len(),
            lv == layers.deep_view().skip(start as int),
            base == acc.model(),
            lv.len() == n - start,
            stack_v_wf(layers.deep_view()),
            cur.wf(),
            cur.model() == read_model(lv.take(i - start), base),
            forall|m: int| 0 <= m < i - start ==> layer_v_is_pure(#[trigger] lv[m]),
        decreases n - i,
    {
        if i == n {
            proof {
                lemma_first_impure_run(lv, n - start);
                assert(lv.take(n - start) =~= lv);
            }
            return ReadOutcome::Done(cur);
        }
        let layer = arc_ref(&layers[i]);
        proof {
            assert(layers.deep_view()[i as int] == lv[i - start]);
            assert(layer_v_wf(layers.deep_view()[i as int]));
        }
        if layer.is_pure() {
            let stepped = match layer.filter(cur) {
                Ok(m) => m,
                Err(e) => {
                    proof {
                        assert(false);
                    }
                    return ReadOutcome::Failed(e);
                },
            };
            cur = stepped;
            proof {
                assert(lv.take(i - start + 1).drop_last() =~= lv.take(i - start));
                assert(lv.take(i - start + 1).last() == lv[i - start]);
            }
            i = i + 1;
        } else {
            proof {
                lemma_first_impure_run(lv, i - start);
            }
            match layer {
                Layer::PluginFilter(cmd, args) => {
                    let input = molecule_to_json(&cur);
                    let mut rest: Vec<Arc<Layer>> = Vec::new();
                    let mut k = i + 1;
                    while k < n
                        invariant
                            i + 1 <= k <= n,
                            n == layers@.len(),
                            rest@.len() == k - i - 1,
                            forall|m: int| 0 <= m < k - i - 1 ==> rest@[m] == layers@[i + 1 + m],
                        decreases n - k,
                    {
                        rest.push(layers[k].clone());
                        k = k + 1;
                    }
                    let call = PluginCall {
                        command: cmd.clone(),
                        args: crate::layer::dup_string_vec(args),
                        input,
                    };
                    let pend = ReadPending { acc: cur, rest };
                    proof {
                        assert(pend.rest.deep_view() =~= lv.skip(i - start + 1));
                        assert(stack_v_wf(pend.rest.deep_view())) by {
                            assert forall|m: int|
                                0 <= m < pend.rest.deep_view().len() implies layer_v_wf(
                                #[trigger] pend.rest.deep_view()[m]) by {
                                assert(pend.rest.deep_view()[m] == layers.deep_view()[i + 1 + m]);
                                assert(layer_v_wf(layers.deep_view()[i + 1 + m]));
                            }
                        }
                        assert(lv[i - start] matches LayerV::PluginFilter(c0, a0) && call.command@
                            == c0 && call.args.deep_view() == a0);
                    }
                    return ReadOutcome::Call(call, pend);
                },
                _ => {
                    proof {
                        assert(false);
                    }
                    return ReadOutcome::Failed(LMECoreError::NoSuchStack);
                },
            }
        }
    }
}

/// The plugin failure steps, each with its code.
pub enum PluginFault {
    Spawn,
    Serialize,
    WriteStdin,
    WaitOutput,
    Parse,
    MissingStdin,
}

pub open spec fn fault_code(f: PluginFault) -> int {
    match f {
        PluginFault::Spawn => -1,
        PluginFault::Serialize => -2,
        PluginFault::WriteStdin => -3,
        PluginFault::WaitOutput => -4,
        PluginFault::Parse => -5,
        PluginFault::MissingStdin => -6,
    }
}

/// The error value for a failed plugin step: its code and the diagnostic.
pub fn plugin_failure(f: PluginFault, message: String) -> (r: LMECoreError)
    ensures
        r matches LMECoreError::PluginLayerError(code, msg) && code as int == fault_code(f)
            && msg@ == message@,
{
    let code: isize = match f {
        PluginFault::Spawn => -1,
        PluginFault::Serialize => -2,
        PluginFault::WriteStdin => -3,
        PluginFault::WaitOutput => -4,
        PluginFault::Parse => -5,
        PluginFault::MissingStdin => -6,
    };
    LMECoreError::PluginLayerError(code, message)
}

/// Resumes after the outside program answered: its document is read back,
/// merged over the assembled molecule, and the remaining layers are
/// folded. An unreadable document fails with the parse code; whatever
/// well-formed molecule the document held, the outcome continues from the
/// merge of that molecule over the assembled one.
pub fn resume(pending: ReadPending, output: &str) -> (r: ReadOutcome)
    requires
        pending.acc.wf(),
        stack_v_wf(pending.rest.deep_view()),
    ensures
        (r matches ReadOutcome::Failed(e) ==> e matches LMECoreError::PluginLayerError(code, _)
            && code as int == fault_code(PluginFault::Parse)),
        !(r is Failed) ==> (exists|h: MoleculeM|
            #[trigger] step_post(
                pending.rest.deep_view(),
                merge_model(pending.acc.model(), h),
                r,
            )),
        forall|h0: crate::molecule::MoleculeV|
            (molecule_v_wf(h0) && output@ == #[trigger] crate::codec::ser_molecule(h0)) ==> (!(r
                is Failed) && step_post(
                pending.rest.deep_view(),
                merge_model(pending.acc.model(), crate::molecule::model_of(h0)),
                r,
            )),
{
    match molecule_from_json(output) {
        None => {
            proof {
                assert forall|h0: crate::molecule::MoleculeV|
                    (molecule_v_wf(h0) && output@ == #[trigger] crate::codec::ser_molecule(
                        h0,
                    )) implies false by {}
            }
            let msg = String::from_str("the answer did not hold a molecule document");
            ReadOutcome::Failed(plugin_failure(PluginFault::Parse, msg))
        },
        Some(high) => {
            let ghost h = high.model();
            let ghost accm = pending.acc.model();
            let merged = Molecule::merge(pending.acc, high);
            let r = advance(&pending.rest, 0, merged);
            proof {
                assert(pending.rest.deep_view().skip(0) =~= pending.rest.deep_view());
                assert(merged.model() == merge_model(accm, h));
                assert(step_post(pending.rest.deep_view(), merge_model(accm, h), r));
                assert(!(r is Failed)) by {
                    let j = first_impure(pending.rest.deep_view());
                    if j == pending.rest.deep_view().len() {
                        assert(r is Done);
                    } else {
                        assert(r is Call);
                    }
                }
                assert forall|h0: crate::molecule::MoleculeV|
                    (molecule_v_wf(h0) && output@ == #[trigger] crate::codec::ser_molecule(
                        h0,
                    )) implies step_post(
                    pending.rest.deep_view(),
                    merge_model(pending.acc.model(), crate::molecule::model_of(h0)),
                    r,
                ) by {
                    assert(high.deep_view() == h0);
                    assert(h == crate::molecule::model_of(h0));
                }
            }
            r
        },
    }
}

/// Merging a molecule over itself changes nothing.
pub proof fn lemma_merge_idempotent(m: MoleculeM)
    ensures
        merge_model(m, m) == m,
{
    assert(merge_model(m, m).atoms =~= m.atoms);
    assert(merge_model(m, m).bonds =~= m.bonds);
    assert(merge_model(m, m).groups =~= m.groups);
}

/// An outside program that answers with the very document it was handed
/// adds nothing: `resume` on the call's own input continues exactly from
/// the assembled molecule, so such a plugin layer leaves the read
/// unchanged.
pub proof fn lemma_echo_identity(acc: Molecule, rest: Seq<LayerV>, r: ReadOutcome)
    requires
        step_post(rest, merge_model(acc.model(), crate::molecule::model_of(acc.deep_view())), r),
    ensures
        step_post(rest, acc.model(), r),
{
    lemma_merge_idempotent(acc.model());
    assert(crate::molecule::model_of(acc.deep_view()) == acc.model());
}

impl Workspace {
    /// Begins reading the stack at `index` over a fresh copy of the base:
    /// an index past the stacks fails, a pure stack ends in its molecule,
    /// and a stack with a plugin layer ends in the prepared call.
    pub fn read(&self, index: usize) -> (r: ReadOutcome)
        requires
            self.wf(),
        ensures
            index >= self.stacks@.len() ==> (r matches ReadOutcome::Failed(e) && e
                == LMECoreError::NoSuchStack),
            index < self.stacks@.len() ==> step_post(
                self.stacks.deep_view()[index as int],
                self.base.model(),
                r,
            ),
    {
        if index >= self.stacks.len() {
            return ReadOutcome::Failed(LMECoreError::NoSuchStack);
        }
        let stack = arc_ref(&self.stacks[index]);
        let base = self.base.duplicate();
        proof {
            assert(stack.deep_view() == self.stacks.deep_view()[index as int]);
            assert(stack_v_wf(stack.deep_view()));
            assert(stack.layers.deep_view().skip(0) =~= stack.deep_view());
        }
        advance(&stack.layers, 0, base)
    }
}

} // verus!
