//! The prefix-tree serialization form of a stack collection: dehydration
//! compresses stacks sharing common prefixes into a forest, hydration
//! rebuilds the indexed stack list.
use vstd::prelude::*;

use std::sync::Arc;

use crate::layer::{Layer, LayerV};
use crate::shared::arc_ref;
use crate::stack::Stack;

verus! {

broadcast use vstd::seq::axiom_seq_index_decreases, vstd::seq::axiom_seq_subrange_decreases, vstd::std_specs::vec::axiom_vec_index_decreases;

/// A node of the forest: a layer, the indices of the stacks that end here,
/// and the children carrying the distinct continuations.
#[derive(Debug)]
pub struct StackTree {
    pub layer: Layer,
    pub indexes: Vec<usize>,
    pub children: Vec<StackTree>,
}

pub ghost struct TreeV {
    pub layer: LayerV,
    pub indexes: Seq<usize>,
    pub children: Seq<TreeV>,
}

/// The structural reading of one node.
pub open spec fn tree_v(t: StackTree) -> TreeV
    decreases t, 1int,
{
    TreeV { layer: t.layer.deep_view(), indexes: t.indexes@, children: forest_v(t.children, 0) }
}

/// The structural reading of the nodes of `v` from position `i` on.
pub open spec fn forest_v(v: Vec<StackTree>, i: int) -> Seq<TreeV>
    decreases v, v@.len() - i + 1, 2int,
{
    if i < 0 || i >= v@.len() {
        Seq::empty()
    } else {
        seq![tree_v(v[i])] + forest_v(v, i + 1)
    }
}

/// The structural reading of a whole node vector.
pub open spec fn forest_vs(v: Vec<StackTree>) -> Seq<TreeV> {
    forest_v(v, 0)
}

pub proof fn lemma_forest_v_index(v: Vec<StackTree>, i: int)
    requires
        0 <= i <= v@.len(),
    ensures
        forest_v(v, i).len() == v@.len() - i,
        forall|k: int| 0 <= k < v@.len() - i ==> forest_v(v, i)[k] == tree_v(v@[i + k]),
    decreases v@.len() - i,
{
    if i < v@.len() {
        lemma_forest_v_index(v, i + 1);
        assert forall|k: int| 0 <= k < v@.len() - i implies forest_v(v, i)[k] == tree_v(
            v@[i + k],
        ) by {
            if k > 0 {
                assert(forest_v(v, i)[k] == forest_v(v, i + 1)[k - 1]);
            }
        }
    }
}

/// The map a node denotes: every listed index maps to the path down to the
/// node, and the children's maps lie over it.
pub open spec fn tree_map(t: TreeV, prefix: Seq<LayerV>) -> Map<usize, Seq<LayerV>>
    decreases t, 1int,
{
    let path = prefix.push(t.layer);
    idx_map(t.indexes, path).union_prefer_right(forest_map(t.children, path))
}

/// The union of the maps of a forest's trees; later trees lie over
/// earlier ones.
pub open spec fn forest_map(f: Seq<TreeV>, prefix: Seq<LayerV>) -> Map<usize, Seq<LayerV>>
    decreases f, 2int,
{
    if f.len() == 0 {
        Map::empty()
    } else {
        tree_map(f[0], prefix).union_prefer_right(forest_map(f.skip(1), prefix))
    }
}

pub open spec fn idx_map(ixs: Seq<usize>, path: Seq<LayerV>) -> Map<usize, Seq<LayerV>> {
    Map::new(|k: usize| ixs.contains(k), |k: usize| path)
}

/// How many stack indices the node lists, itself and below.
pub open spec fn tree_count(t: TreeV) -> nat
    decreases t, 1int,
{
    t.indexes.len() + forest_count(t.children)
}

pub open spec fn forest_count(f: Seq<TreeV>) -> nat
    decreases f, 2int,
{
    if f.len() == 0 {
        0
    } else {
        tree_count(f[0]) + forest_count(f.skip(1))
    }
}

/// Every index listed in the node, itself and below, lies under `n`.
pub open spec fn tree_bounded(t: TreeV, n: usize) -> bool
    decreases t, 1int,
{
    (forall|x: usize| t.indexes.contains(x) ==> x < n) && forest_bounded(t.children, n)
}

pub open spec fn forest_bounded(f: Seq<TreeV>, n: usize) -> bool
    decreases f, 2int,
{
    f.len() == 0 || (tree_bounded(f[0], n) && forest_bounded(f.skip(1), n))
}

/// No two children of any node, and no two roots, carry the same layer.
pub open spec fn tree_distinct(t: TreeV) -> bool
    decreases t, 1int,
{
    forest_distinct(t.children)
}

pub open spec fn forest_distinct(f: Seq<TreeV>) -> bool
    decreases f, 2int,
{
    &&& forall|i: int, j: int| 0 <= i < j < f.len() ==> f[i].layer != f[j].layer
    &&& forall|i: int| 0 <= i < f.len() ==> tree_distinct(#[trigger] f[i])
}

/// Every node, at any depth, lists an index itself or in a descendant:
/// the forest holds no node that carries nothing.
pub open spec fn tree_live(t: TreeV) -> bool
    decreases t, 1int,
{
    tree_count(t) > 0 && forest_all_live(t.children)
}

pub open spec fn forest_all_live(f: Seq<TreeV>) -> bool
    decreases f, 2int,
{
    f.len() == 0 || (tree_live(f[0]) && forest_all_live(f.skip(1)))
}

proof fn lemma_forest_live_index(f: Seq<TreeV>, j: int)
    requires
        forest_all_live(f),
        0 <= j < f.len(),
    ensures
        tree_live(f[j]),
    decreases f.len(),
{
    if j > 0 {
        assert(f.skip(1)[j - 1] == f[j]);
        lemma_forest_live_index(f.skip(1), j - 1);
    }
}

proof fn lemma_forest_live_push(f: Seq<TreeV>, t: TreeV)
    requires
        forest_all_live(f),
        tree_live(t),
    ensures
        forest_all_live(f.push(t)),
    decreases f.len(),
{
    if f.len() == 0 {
        assert(f.push(t)[0] == t);
        assert(f.push(t).skip(1) =~= Seq::<TreeV>::empty());
        assert(forest_all_live(f.push(t).skip(1)));
    } else {
        assert(f.push(t)[0] == f[0]);
        assert(f.push(t).skip(1) =~= f.skip(1).push(t));
        lemma_forest_live_push(f.skip(1), t);
        assert(tree_live(f.push(t)[0]));
        assert(forest_all_live(f.push(t).skip(1)));
    }
}

proof fn lemma_forest_live_update(f: Seq<TreeV>, j: int, t2: TreeV)
    requires
        forest_all_live(f),
        tree_live(t2),
        0 <= j < f.len(),
    ensures
        forest_all_live(f.update(j, t2)),
    decreases f.len(),
{
    let g = f.update(j, t2);
    if j == 0 {
        assert(g[0] == t2);
        assert(g.skip(1) =~= f.skip(1));
        assert(forest_all_live(g.skip(1)));
    } else {
        assert(g[0] == f[0]);
        assert(g.skip(1) =~= f.skip(1).update(j - 1, t2));
        assert(f.skip(1)[j - 1] == f[j]);
        lemma_forest_live_update(f.skip(1), j - 1, t2);
        assert(tree_live(g[0]));
        assert(forest_all_live(g.skip(1)));
    }
}

pub proof fn lemma_forest_map_push(f: Seq<TreeV>, t: TreeV, prefix: Seq<LayerV>)
    ensures
        forest_map(f.push(t), prefix) == forest_map(f, prefix).union_prefer_right(
            tree_map(t, prefix),
        ),
        forest_count(f.push(t)) == forest_count(f) + tree_count(t),
    decreases f.len(),
{
    if f.len() == 0 {
        assert(f.push(t)[0] == t);
        assert(f.push(t).skip(1) =~= Seq::<TreeV>::empty());
        assert(forest_map(f.push(t), prefix) == tree_map(t, prefix).union_prefer_right(
            forest_map(f.push(t).skip(1), prefix),
        ));
        assert(forest_map(f.push(t), prefix) =~= forest_map(f, prefix).union_prefer_right(
            tree_map(t, prefix),
        ));
        assert(forest_count(f.push(t)) == tree_count(t) + forest_count(f.push(t).skip(1)));
        assert(forest_count(f.push(t).skip(1)) == 0);
    } else {
        assert(f.push(t)[0] == f[0]);
        assert(f.push(t).skip(1) =~= f.skip(1).push(t));
        lemma_forest_map_push(f.skip(1), t, prefix);
        assert(forest_map(f.push(t), prefix) == tree_map(f[0], prefix).union_prefer_right(
            forest_map(f.skip(1).push(t), prefix),
        ));
        assert(forest_map(f.push(t), prefix) =~= forest_map(f, prefix).union_prefer_right(
            tree_map(t, prefix),
        ));
        assert(forest_count(f.push(t)) == tree_count(f[0]) + forest_count(f.skip(1).push(t)));
        assert(forest_count(f) == tree_count(f[0]) + forest_count(f.skip(1)));
    }
}

/// A bounded forest's map holds no key at or above the bound.
pub proof fn lemma_forest_bounded_dom(f: Seq<TreeV>, n: usize, k: usize, prefix: Seq<LayerV>)
    requires
        forest_bounded(f, n),
        k >= n,
    ensures
        !forest_map(f, prefix).contains_key(k),
    decreases f, 2int,
{
    if f.len() > 0 {
        lemma_tree_bounded_dom(f[0], n, k, prefix);
        lemma_forest_bounded_dom(f.skip(1), n, k, prefix);
    }
}

pub proof fn lemma_tree_bounded_dom(t: TreeV, n: usize, k: usize, prefix: Seq<LayerV>)
    requires
        tree_bounded(t, n),
        k >= n,
    ensures
        !tree_map(t, prefix).contains_key(k),
    decreases t, 1int,
{
    let path = prefix.push(t.layer);
    lemma_forest_bounded_dom(t.children, n, k, path);
    assert(!t.indexes.contains(k));
}

pub proof fn lemma_forest_bounded_grow(f: Seq<TreeV>, n: usize, m: usize)
    requires
        forest_bounded(f, n),
        n <= m,
    ensures
        forest_bounded(f, m),
    decreases f, 2int,
{
    if f.len() > 0 {
        lemma_tree_bounded_grow(f[0], n, m);
        lemma_forest_bounded_grow(f.skip(1), n, m);
    }
}

pub proof fn lemma_tree_bounded_grow(t: TreeV, n: usize, m: usize)
    requires
        tree_bounded(t, n),
        n <= m,
    ensures
        tree_bounded(t, m),
    decreases t, 1int,
{
    lemma_forest_bounded_grow(t.children, n, m);
}

/// Replacing the tree at `j` by one that lists one fresh index more
/// inserts exactly that index into the forest's map.
pub proof fn lemma_forest_map_update(
    f: Seq<TreeV>,
    j: int,
    t2: TreeV,
    k: usize,
    val: Seq<LayerV>,
    prefix: Seq<LayerV>,
    n: usize,
)
    requires
        0 <= j < f.len(),
        forest_bounded(f, n),
        forest_distinct(f),
        k >= n,
        k < usize::MAX,
        tree_map(t2, prefix) == tree_map(f[j], prefix).insert(k, val),
        tree_count(t2) == tree_count(f[j]) + 1,
        tree_bounded(t2, (k + 1) as usize),
        tree_distinct(t2),
        t2.layer == f[j].layer,
    ensures
        forest_map(f.update(j, t2), prefix) == forest_map(f, prefix).insert(k, val),
        forest_count(f.update(j, t2)) == forest_count(f) + 1,
        forest_bounded(f.update(j, t2), (k + 1) as usize),
        forest_distinct(f.update(j, t2)),
    decreases f.len(),
{
    let g = f.update(j, t2);
    assert(forest_distinct(g)) by {
        assert forall|a: int, b: int| 0 <= a < b < g.len() implies g[a].layer != g[b].layer by {
            assert(g[a].layer == f[a].layer);
            assert(g[b].layer == f[b].layer);
        }
        assert forall|a: int| 0 <= a < g.len() implies tree_distinct(#[trigger] g[a]) by {
            if a != j {
                assert(g[a] == f[a]);
            }
        }
    }
    if j == 0 {
        assert(g[0] == t2);
        assert(g.skip(1) =~= f.skip(1));
        lemma_forest_bounded_dom(f.skip(1), n, k, prefix);
        assert(forest_map(g, prefix) == tree_map(t2, prefix).union_prefer_right(
            forest_map(f.skip(1), prefix),
        ));
        assert(forest_map(g, prefix) =~= forest_map(f, prefix).insert(k, val));
        assert(forest_count(g) == tree_count(t2) + forest_count(f.skip(1)));
        assert(forest_bounded(g, (k + 1) as usize)) by {
            lemma_forest_bounded_grow(f.skip(1), n, (k + 1) as usize);
        }
    } else {
        assert(g[0] == f[0]);
        assert(g.skip(1) =~= f.skip(1).update(j - 1, t2));
        assert(f.skip(1)[j - 1] == f[j]);
        lemma_forest_map_update(f.skip(1), j - 1, t2, k, val, prefix, n);
        assert(forest_map(g, prefix) == tree_map(f[0], prefix).union_prefer_right(
            forest_map(f.skip(1), prefix).insert(k, val),
        ));
        assert(forest_map(g, prefix) =~= forest_map(f, prefix).insert(k, val));
        assert(forest_count(g) == tree_count(f[0]) + forest_count(f.skip(1).update(j - 1, t2)));
        assert(forest_bounded(g, (k + 1) as usize)) by {
            lemma_tree_bounded_grow(f[0], n, (k + 1) as usize);
        }
    }
}

/// Builds the linear chain carrying `stack[pos..]`, ending at a node that
/// lists `idx`.
fn chain_of(stack: &Vec<Arc<Layer>>, pos: usize, idx: usize) -> (r: StackTree)
    requires
        pos < stack@.len(),
        idx < usize::MAX,
    ensures
        tree_v(r).layer == stack.deep_view()[pos as int],
        forall|p: Seq<LayerV>| #[trigger] tree_map(tree_v(r), p) == Map::empty().insert(
            idx,
            p + stack.deep_view().skip(pos as int),
        ),
        tree_count(tree_v(r)) == 1,
        tree_bounded(tree_v(r), (idx + 1) as usize),
        tree_distinct(tree_v(r)),
        tree_live(tree_v(r)),
    decreases stack@.len() - pos,
{
    let layer = arc_ref(&stack[pos]).duplicate();
    if pos == stack.len() - 1 {
        let r = StackTree { layer, indexes: vec![idx], children: Vec::new() };
        proof {
            lemma_forest_v_index(r.children, 0);
            assert(tree_v(r).children =~= Seq::<TreeV>::empty());
            assert(tree_v(r).indexes =~= seq![idx]);
            assert forall|p: Seq<LayerV>| #[trigger] tree_map(tree_v(r), p) == Map::empty().insert(
                idx,
                p + stack.deep_view().skip(pos as int),
            ) by {
                let path = p.push(tree_v(r).layer);
                assert(path =~= p + stack.deep_view().skip(pos as int));
                assert(forall|x: usize| seq![idx].contains(x) ==> x == idx);
                assert(seq![idx][0] == idx);
                assert(tree_map(tree_v(r), p) =~= Map::empty().insert(
                    idx,
                    p + stack.deep_view().skip(pos as int),
                ));
            }
            assert forall|x: usize| tree_v(r).indexes.contains(x) implies x < idx + 1 by {
                let m = choose|m: int|
                    0 <= m < tree_v(r).indexes.len() && tree_v(r).indexes[m] == x;
                assert(tree_v(r).indexes[m] == seq![idx][m]);
            }
            assert(forest_bounded(tree_v(r).children, (idx + 1) as usize));
            assert(forest_all_live(tree_v(r).children));
        }
        r
    } else {
        let child = chain_of(stack, pos + 1, idx);
        let mut children: Vec<StackTree> = Vec::new();
        children.push(child);
        let r = StackTree { layer, indexes: Vec::new(), children };
        proof {
            lemma_forest_v_index(r.children, 0);
            assert(tree_v(r).children =~= seq![tree_v(child)]);
            assert(tree_v(r).indexes =~= Seq::<usize>::empty());
            assert forall|p: Seq<LayerV>| #[trigger] tree_map(tree_v(r), p) == Map::empty().insert(
                idx,
                p + stack.deep_view().skip(pos as int),
            ) by {
                let path = p.push(tree_v(r).layer);
                let cs = tree_v(r).children;
                assert(cs[0] == tree_v(child));
                assert(cs.skip(1) =~= Seq::<TreeV>::empty());
                assert(forest_map(cs, path) == tree_map(tree_v(child), path).union_prefer_right(
                    forest_map(cs.skip(1), path),
                ));
                assert(tree_map(tree_v(child), path) == Map::empty().insert(
                    idx,
                    path + stack.deep_view().skip(pos as int + 1),
                ));
                assert(path + stack.deep_view().skip(pos as int + 1) =~= p + stack.deep_view().skip(
                    pos as int,
                ));
                assert(forall|x: usize| !tree_v(r).indexes.contains(x));
                assert(tree_map(tree_v(r), p) =~= Map::empty().insert(
                    idx,
                    p + stack.deep_view().skip(pos as int),
                ));
            }
            assert(tree_count(tree_v(r)) == 0 + (tree_count(tree_v(child)) + forest_count(
                tree_v(r).children.skip(1),
            )));
            assert(tree_v(r).children[0] == tree_v(child));
            assert(tree_v(r).children.skip(1) =~= Seq::<TreeV>::empty());
            assert(forest_bounded(tree_v(r).children.skip(1), (idx + 1) as usize));
            assert(forest_bounded(tree_v(r).children, (idx + 1) as usize));
            assert(forest_distinct(tree_v(r).children)) by {
                assert(forall|a: int|
                    0 <= a < tree_v(r).children.len() ==> tree_v(r).children[a] == tree_v(child));
            }
            assert(forest_all_live(tree_v(r).children)) by {
                assert(tree_v(r).children[0] == tree_v(child));
                assert(tree_live(tree_v(child)));
                assert(forest_all_live(tree_v(r).children.skip(1)));
            }
        }
        r
    }
}

/// Inserts the stack's remaining layers, from `pos` on, into the forest:
/// down an existing chain while the layers match, then a fresh chain.
fn forest_insert(
    forest: &mut Vec<StackTree>,
    stack: &Vec<Arc<Layer>>,
    pos: usize,
    idx: usize,
    prefix: Ghost<Seq<LayerV>>,
)
    requires
        pos < stack@.len(),
        idx < usize::MAX,
        forest_bounded(forest_vs(*old(forest)), idx),
        forest_distinct(forest_vs(*old(forest))),
        forest_all_live(forest_vs(*old(forest))),
    ensures
        forest_map(forest_vs(*final(forest)), prefix@) == forest_map(
            forest_vs(*old(forest)),
            prefix@,
        ).insert(idx, prefix@ + stack.deep_view().skip(pos as int)),
        forest_count(forest_vs(*final(forest))) == forest_count(forest_vs(*old(forest))) + 1,
        forest_bounded(forest_vs(*final(forest)), (idx + 1) as usize),
        forest_distinct(forest_vs(*final(forest))),
        forest_all_live(forest_vs(*final(forest))),
    decreases stack@.len() - pos,
{
    let ghost f0 = forest_vs(*old(forest));
    let n = forest.len();
    proof {
        lemma_forest_v_index(*forest, 0);
    }
    let mut j: usize = 0;
    loop
        invariant
            0 <= j <= n,
            pos < stack@.len(),
            n == forest@.len(),
            *forest == *old(forest),
            f0 == forest_vs(*forest),
            f0.len() == n,
            forall|m: int| 0 <= m < j ==> f0[m].layer != stack.deep_view()[pos as int],
        ensures
            *forest == *old(forest),
            if j < n {
                f0[j as int].layer == stack.deep_view()[pos as int]
            } else {
                forall|m: int| 0 <= m < n ==> f0[m].layer != stack.deep_view()[pos as int]
            },
        decreases n - j,
    {
        if j == n {
            break ;
        }
        proof {
            lemma_forest_v_index(*forest, 0);
        }
        let same = forest[j].layer.eq_value(arc_ref(&stack[pos]));
        proof {
            assert(f0[j as int] == tree_v(forest@[j as int]));
            assert(f0[j as int].layer == forest@[j as int].layer.deep_view());
        }
        if same {
            break ;
        }
        j = j + 1;
    }
    if j < n {
        let mut t = forest.remove(j);
        proof {
            lemma_forest_v_index(*old(forest), 0);
            assert(tree_v(t) == f0[j as int]);
            lemma_forest_bounded_index(f0, idx, j as int);
            assert(tree_distinct(f0[j as int]));
            lemma_forest_live_index(f0, j as int);
        }
        let ghost tv0 = tree_v(t);
        if pos == stack.len() - 1 {
            t.indexes.push(idx);
            proof {
                let t2 = tree_v(t);
                assert(t2.layer == tv0.layer);
                assert(t2.children == tv0.children);
                assert(t2.indexes == tv0.indexes.push(idx));
                let path = prefix@.push(tv0.layer);
                assert(path =~= prefix@ + stack.deep_view().skip(pos as int));
                assert(idx_map(t2.indexes, path) =~= idx_map(tv0.indexes, path).insert(
                    idx,
                    path,
                )) by {
                    assert forall|x: usize| #[trigger]
                        t2.indexes.contains(x) implies tv0.indexes.contains(x) || x == idx by {
                        let m = choose|m: int|
                            0 <= m < t2.indexes.len() && t2.indexes[m] == x;
                        if m < tv0.indexes.len() {
                            assert(tv0.indexes[m] == x);
                        }
                    }
                    assert forall|x: usize|
                        tv0.indexes.contains(x) implies #[trigger] t2.indexes.contains(x) by {
                        let m = choose|m: int|
                            0 <= m < tv0.indexes.len() && tv0.indexes[m] == x;
                        assert(t2.indexes[m] == x);
                    }
                    assert(t2.indexes[t2.indexes.len() - 1] == idx);
                }
                assert(tree_bounded(tv0, idx));
                lemma_forest_bounded_dom(tv0.children, idx, idx, path);
                assert(tree_map(t2, prefix@) =~= tree_map(tv0, prefix@).insert(
                    idx,
                    prefix@ + stack.deep_view().skip(pos as int),
                ));
                assert(tree_count(t2) == tree_count(tv0) + 1);
                assert(tree_bounded(t2, (idx + 1) as usize)) by {
                    lemma_forest_bounded_grow(tv0.children, idx, (idx + 1) as usize);
                    assert forall|x: usize| #[trigger]
                        t2.indexes.contains(x) implies x < idx + 1 by {
                        let m = choose|m: int|
                            0 <= m < t2.indexes.len() && t2.indexes[m] == x;
                        if m < tv0.indexes.len() {
                            assert(tv0.indexes[m] == x);
                            assert(tv0.indexes.contains(x));
                            assert(tree_bounded(tv0, idx));
                        } else {
                            assert(t2.indexes[m] == idx);
                        }
                    }
                }
                assert(tree_live(t2)) by {
                    assert(tree_live(tv0));
                    assert(forest_all_live(t2.children));
                }
            }
        } else {
            proof {
                assert(forest_bounded(tv0.children, idx));
                assert(forest_distinct(tv0.children));
                assert(tree_live(tv0));
                assert(forest_all_live(tv0.children));
            }
            forest_insert(
                &mut t.children,
                stack,
                pos + 1,
                idx,
                Ghost(prefix@.push(stack.deep_view()[pos as int])),
            );
            proof {
                let t2 = tree_v(t);
                assert(t2.layer == tv0.layer);
                assert(t2.indexes == tv0.indexes);
                assert(t2.children == forest_vs(t.children));
                let path = prefix@.push(tv0.layer);
                assert(path == prefix@.push(stack.deep_view()[pos as int]));
                assert(forest_map(t2.children, path) == forest_map(tv0.children, path).insert(
                    idx,
                    path + stack.deep_view().skip(pos as int + 1),
                ));
                assert(path + stack.deep_view().skip(pos as int + 1) =~= prefix@
                    + stack.deep_view().skip(pos as int));
                assert(tree_map(t2, prefix@) =~= tree_map(tv0, prefix@).insert(
                    idx,
                    prefix@ + stack.deep_view().skip(pos as int),
                ));
                assert(tree_count(t2) == tree_count(tv0) + 1);
                assert(tree_bounded(t2, (idx + 1) as usize)) by {
                    assert forall|x: usize| #[trigger]
                        t2.indexes.contains(x) implies x < idx + 1 by {
                        assert(tree_bounded(tv0, idx));
                    }
                }
                assert(tree_live(t2)) by {
                    assert(forest_all_live(t2.children));
                    assert(tree_count(t2) == tree_count(tv0) + 1);
                }
            }
        }
        let ghost t2 = tree_v(t);
        forest.insert(j, t);
        proof {
            lemma_forest_v_index(*forest, 0);
            assert(forest_vs(*forest) =~= f0.update(j as int, t2));
            lemma_forest_map_update(
                f0,
                j as int,
                t2,
                idx,
                prefix@ + stack.deep_view().skip(pos as int),
                prefix@,
                idx,
            );
            lemma_forest_live_update(f0, j as int, t2);
        }
    } else {
        let fresh = chain_of(stack, pos, idx);
        let ghost fv = tree_v(fresh);
        forest.push(fresh);
        proof {
            lemma_forest_v_index(*forest, 0);
            lemma_forest_v_index(*old(forest), 0);
            assert(forest_vs(*forest) =~= f0.push(fv));
            lemma_forest_map_push(f0, fv, prefix@);
            assert(tree_map(fv, prefix@) == Map::empty().insert(
                idx,
                prefix@ + stack.deep_view().skip(pos as int),
            ));
            assert(forest_map(forest_vs(*forest), prefix@) =~= forest_map(f0, prefix@).insert(
                idx,
                prefix@ + stack.deep_view().skip(pos as int),
            ));
            assert(forest_bounded(forest_vs(*forest), (idx + 1) as usize)) by {
                lemma_forest_bounded_grow(f0, idx, (idx + 1) as usize);
                lemma_forest_bounded_push(f0, fv, (idx + 1) as usize);
            }
            lemma_forest_live_push(f0, fv);
            assert(forest_distinct(forest_vs(*forest))) by {
                let g = forest_vs(*forest);
                assert forall|a: int, b: int|
                    0 <= a < b < g.len() implies g[a].layer != g[b].layer by {
                    if b == g.len() - 1 {
                        assert(g[a] == f0[a]);
                        assert(g[b] == fv);
                        assert(fv.layer == stack.deep_view()[pos as int]);
                    } else {
                        assert(g[a] == f0[a]);
                        assert(g[b] == f0[b]);
                    }
                }
                assert forall|a: int| 0 <= a < g.len() implies tree_distinct(#[trigger] g[a]) by {
                    if a < g.len() - 1 {
                        assert(g[a] == f0[a]);
                    } else {
                        assert(g[a] == fv);
                    }
                }
            }
        }
    }
}

/// A pushed bounded tree keeps the forest bounded.
proof fn lemma_forest_bounded_push(f: Seq<TreeV>, t: TreeV, n: usize)
    requires
        forest_bounded(f, n),
        tree_bounded(t, n),
    ensures
        forest_bounded(f.push(t), n),
    decreases f.len(),
{
    if f.len() == 0 {
        assert(f.push(t)[0] == t);
        assert(f.push(t).skip(1) =~= Seq::<TreeV>::empty());
        assert(forest_bounded(f.push(t).skip(1), n));
    } else {
        assert(f.push(t)[0] == f[0]);
        assert(f.push(t).skip(1) =~= f.skip(1).push(t));
        lemma_forest_bounded_push(f.skip(1), t, n);
        assert(tree_bounded(f.push(t)[0], n));
        assert(forest_bounded(f.push(t).skip(1), n));
    }
}

/// Each tree of a bounded forest is bounded.
proof fn lemma_forest_bounded_index(f: Seq<TreeV>, n: usize, j: int)
    requires
        forest_bounded(f, n),
        0 <= j < f.len(),
    ensures
        tree_bounded(f[j], n),
    decreases f.len(),
{
    if j > 0 {
        assert(f.skip(1)[j - 1] == f[j]);
        lemma_forest_bounded_index(f.skip(1), n, j - 1);
    }
}

fn dup_layers(v: &Vec<Arc<Layer>>) -> (r: Vec<Arc<Layer>>)
    ensures
        r@ == v@,
{
    let n = v.len();
    let mut out: Vec<Arc<Layer>> = Vec::new();
    let mut i: usize = 0;
    while i < n
        invariant
            0 <= i <= n,
            n == v@.len(),
            out@.len() == i,
            forall|m: int| 0 <= m < i ==> out@[m] == v@[m],
        decreases n - i,
    {
        out.push(v[i].clone());
        i = i + 1;
    }
    proof {
        assert(out@ =~= v@);
    }
    out
}

/// Emits one `(index, stack)` pair for every index listed in the node or
/// below it; for each key, the pair emitted last carries the stack that
/// the node's map assigns to that key.
fn collect_tree(t: &StackTree, path: &Vec<Arc<Layer>>, out: &mut Vec<(usize, Stack)>)
    ensures
        final(out)@.len() == old(out)@.len() + tree_count(tree_v(*t)),
        forall|m: int| 0 <= m < old(out)@.len() ==> final(out)@[m] == old(out)@[m],
        forall|m: int|
            old(out)@.len() <= m < final(out)@.len() ==> tree_map(
                tree_v(*t),
                path.deep_view(),
            ).contains_key((#[trigger] final(out)@[m]).0),
        forall|k: usize|
            #[trigger] tree_map(tree_v(*t), path.deep_view()).contains_key(k) ==> (exists|m: int|
                {
                    &&& old(out)@.len() <= m < final(out)@.len()
                    &&& (#[trigger] final(out)@[m]).0 == k
                    &&& final(out)@[m].1.deep_view() == tree_map(tree_v(*t), path.deep_view())[k]
                    &&& forall|m2: int|
                        m < m2 < final(out)@.len() ==> (#[trigger] final(out)@[m2]).0 != k
                }),
    decreases *t, 1int,
{
    let ghost tv = tree_v(*t);
    let ghost pd = path.deep_view();
    let ghost base = out@.len();
    let mut new_path = dup_layers(path);
    new_path.push(std::sync::Arc::new(t.layer.duplicate()));
    let ghost p2 = pd.push(tv.layer);
    proof {
        assert(new_path.deep_view() =~= p2);
    }
    let nq = t.indexes.len();
    let mut q: usize = 0;
    while q < nq
        invariant
            0 <= q <= nq,
            nq == tv.indexes.len(),
            tv == tree_v(*t),
            p2 == pd.push(tv.layer),
            new_path.deep_view() == p2,
            out@.len() == base + q,
            forall|m: int| 0 <= m < base ==> out@[m] == old(out)@[m],
            forall|m: int|
                base <= m < out@.len() ==> (#[trigger] out@[m]).0 == tv.indexes[m - base]
                    && out@[m].1.deep_view() == p2,
        decreases nq - q,
    {
        let ghost prevo = out@;
        let st = Stack { layers: dup_layers(&new_path) };
        proof {
            assert(st.deep_view() == p2);
        }
        out.push((t.indexes[q], st));
        proof {
            assert(forall|m: int| 0 <= m < prevo.len() ==> out@[m] == prevo[m]);
            assert(out@[base + q].0 == tv.indexes[q as int]);
        }
        q = q + 1;
    }
    collect_forest(&t.children, &new_path, out);
    proof {
        let fcs = forest_vs(t.children);
        assert(tv.children == fcs);
        let fm = forest_map(fcs, p2);
        let im = idx_map(tv.indexes, p2);
        assert(tree_map(tv, pd) == im.union_prefer_right(fm));
        let mid = base + tv.indexes.len();
        assert(final(out)@.len() == mid + forest_count(fcs));
        assert forall|m: int|
            base <= m < final(out)@.len() implies tree_map(tv, pd).contains_key(
            (#[trigger] final(out)@[m]).0) by {
            if m < mid {
                assert(final(out)@[m] == out@[m]);
                assert(out@[m].0 == tv.indexes[m - base]);
                assert(tv.indexes.contains(tv.indexes[m - base]));
                assert(im.contains_key(out@[m].0));
            } else {
                assert(fm.contains_key(final(out)@[m].0));
            }
        }
        assert forall|k: usize| #[trigger]
            tree_map(tv, pd).contains_key(k) implies (exists|m: int|
            {
                &&& base <= m < final(out)@.len()
                &&& (#[trigger] final(out)@[m]).0 == k
                &&& final(out)@[m].1.deep_view() == tree_map(tv, pd)[k]
                &&& forall|m2: int|
                    m < m2 < final(out)@.len() ==> (#[trigger] final(out)@[m2]).0 != k
            }) by {
            if fm.contains_key(k) {
                let m = choose|m: int|
                    {
                        &&& mid <= m < final(out)@.len()
                        &&& (#[trigger] final(out)@[m]).0 == k
                        &&& final(out)@[m].1.deep_view() == fm[k]
                        &&& forall|m2: int|
                            m < m2 < final(out)@.len() ==> (#[trigger] final(out)@[m2]).0 != k
                    };
                assert(tree_map(tv, pd)[k] == fm[k]);
                assert(base <= m);
            } else {
                assert(im.contains_key(k));
                assert(tv.indexes.contains(k));
                let q0 = choose|q0: int| 0 <= q0 < tv.indexes.len() && tv.indexes[q0] == k;
                let last = choose|last: int|
                    {
                        &&& 0 <= last < tv.indexes.len()
                        &&& tv.indexes[last] == k
                        &&& forall|q2: int| last < q2 < tv.indexes.len() ==> tv.indexes[q2] != k
                    };
                assert(exists|last: int|
                    {
                        &&& 0 <= last < tv.indexes.len()
                        &&& tv.indexes[last] == k
                        &&& forall|q2: int| last < q2 < tv.indexes.len() ==> tv.indexes[q2] != k
                    }) by {
                    lemma_last_occurrence(tv.indexes, k, q0);
                }
                let m = base + last;
                assert(final(out)@[m] == out@[m]);
                assert(final(out)@[m].0 == k);
                assert(final(out)@[m].1.deep_view() == p2);
                assert(tree_map(tv, pd)[k] == p2);
                assert forall|m2: int|
                    m < m2 < final(out)@.len() implies (#[trigger] final(out)@[m2]).0 != k by {
                    if m2 < mid {
                        assert(final(out)@[m2] == out@[m2]);
                        assert(out@[m2].0 == tv.indexes[m2 - base]);
                    } else {
                        assert(fm.contains_key(final(out)@[m2].0));
                        lemma_map_not_key(fm, k, final(out)@[m2].0);
                    }
                }
            }
        }
    }
}

/// A listed value has a last occurrence.
proof fn lemma_last_occurrence(s: Seq<usize>, k: usize, from: int)
    requires
        0 <= from < s.len(),
        s[from] == k,
    ensures
        exists|last: int|
            {
                &&& 0 <= last < s.len()
                &&& s[last] == k
                &&& forall|q2: int| last < q2 < s.len() ==> s[q2] != k
            },
    decreases s.len() - from,
{
    if exists|q2: int| from < q2 < s.len() && s[q2] == k {
        let q2 = choose|q2: int| from < q2 < s.len() && s[q2] == k;
        lemma_last_occurrence(s, k, q2);
    } else {
        assert({
            &&& 0 <= from < s.len()
            &&& s[from] == k
            &&& forall|q2: int| from < q2 < s.len() ==> s[q2] != k
        });
    }
}

proof fn lemma_map_not_key(m: Map<usize, Seq<LayerV>>, k: usize, k2: usize)
    requires
        !m.contains_key(k),
        m.contains_key(k2),
    ensures
        k2 != k,
{
}

/// Emits the pairs of every tree of the vector, left to right.
fn collect_forest(v: &Vec<StackTree>, path: &Vec<Arc<Layer>>, out: &mut Vec<(usize, Stack)>)
    ensures
        final(out)@.len() == old(out)@.len() + forest_count(forest_vs(*v)),
        forall|m: int| 0 <= m < old(out)@.len() ==> final(out)@[m] == old(out)@[m],
        forall|m: int|
            old(out)@.len() <= m < final(out)@.len() ==> forest_map(
                forest_vs(*v),
                path.deep_view(),
            ).contains_key((#[trigger] final(out)@[m]).0),
        forall|k: usize|
            #[trigger] forest_map(forest_vs(*v), path.deep_view()).contains_key(k) ==> (exists|
                m: int,
            |
                {
                    &&& old(out)@.len() <= m < final(out)@.len()
                    &&& (#[trigger] final(out)@[m]).0 == k
                    &&& final(out)@[m].1.deep_view() == forest_map(
                        forest_vs(*v),
                        path.deep_view(),
                    )[k]
                    &&& forall|m2: int|
                        m < m2 < final(out)@.len() ==> (#[trigger] final(out)@[m2]).0 != k
                }),
    decreases *v, 2int,
{
    let ghost pd = path.deep_view();
    let ghost fv = forest_vs(*v);
    let ghost base = out@.len();
    let n = v.len();
    proof {
        lemma_forest_v_index(*v, 0);
    }
    let mut c: usize = 0;
    while c < n
        invariant
            0 <= c <= n,
            n == v@.len(),
            fv == forest_vs(*v),
            fv.len() == n,
            pd == path.deep_view(),
            base <= out@.len(),
            out@.len() == base + forest_count(fv.take(c as int)),
            forall|m: int| 0 <= m < base ==> out@[m] == old(out)@[m],
            forall|m: int|
                base <= m < out@.len() ==> forest_map(fv.take(c as int), pd).contains_key(
                    (#[trigger] out@[m]).0,
                ),
            forall|k: usize|
                #[trigger] forest_map(fv.take(c as int), pd).contains_key(k) ==> (exists|m: int|
                    {
                        &&& base <= m < out@.len()
                        &&& (#[trigger] out@[m]).0 == k
                        &&& out@[m].1.deep_view() == forest_map(fv.take(c as int), pd)[k]
                        &&& forall|m2: int| m < m2 < out@.len() ==> (#[trigger] out@[m2]).0 != k
                    }),
        decreases n - c,
    {
        let ghost mid = out@.len();
        let ghost prevo = out@;
        let ghost mc = forest_map(fv.take(c as int), pd);
        proof {
            lemma_forest_v_index(*v, 0);
            assert(tree_v(v@[c as int]) == fv[c as int]);
        }
        collect_tree(&v[c], path, out);
        proof {
            let tm = tree_map(fv[c as int], pd);
            lemma_forest_map_push(fv.take(c as int), fv[c as int], pd);
            assert(fv.take(c as int).push(fv[c as int]) =~= fv.take(c as int + 1));
            let mc2 = forest_map(fv.take(c as int + 1), pd);
            assert(mc2 == mc.union_prefer_right(tm));
            assert(out@.len() == base + forest_count(fv.take(c as int + 1)));
            assert(forall|m: int| 0 <= m < mid ==> out@[m] == prevo[m]);
            assert forall|m: int|
                base <= m < out@.len() implies mc2.contains_key((#[trigger] out@[m]).0) by {
                if m < mid {
                    assert(out@[m] == prevo[m]);
                    assert(mc.contains_key(prevo[m].0));
                } else {
                    assert(tm.contains_key(out@[m].0));
                }
            }
            assert forall|k: usize| #[trigger] mc2.contains_key(k) implies (exists|m: int|
                {
                    &&& base <= m < out@.len()
                    &&& (#[trigger] out@[m]).0 == k
                    &&& out@[m].1.deep_view() == mc2[k]
                    &&& forall|m2: int| m < m2 < out@.len() ==> (#[trigger] out@[m2]).0 != k
                }) by {
                if tm.contains_key(k) {
                    let m = choose|m: int|
                        {
                            &&& mid <= m < out@.len()
                            &&& (#[trigger] out@[m]).0 == k
                            &&& out@[m].1.deep_view() == tm[k]
                            &&& forall|m2: int| m < m2 < out@.len() ==> (#[trigger] out@[m2]).0
                                != k
                        };
                    assert(mc2[k] == tm[k]);
                    assert(base <= m);
                } else {
                    assert(mc.contains_key(k));
                    let m = choose|m: int|
                        {
                            &&& base <= m < mid
                            &&& (#[trigger] prevo[m]).0 == k
                            &&& prevo[m].1.deep_view() == mc[k]
                            &&& forall|m2: int| m < m2 < mid ==> (#[trigger] prevo[m2]).0 != k
                        };
                    assert(out@[m] == prevo[m]);
                    assert(mc2[k] == mc[k]);
                    assert forall|m2: int|
                        m < m2 < out@.len() implies (#[trigger] out@[m2]).0 != k by {
                        if m2 < mid {
                            assert(out@[m2] == prevo[m2]);
                        } else {
                            assert(tm.contains_key(out@[m2].0));
                            lemma_map_not_key(tm, k, out@[m2].0);
                        }
                    }
                }
            }
        }
        c = c + 1;
    }
    proof {
        assert(fv.take(n as int) =~= fv);
    }
}

impl StackTree {
    /// Compresses the indexed stack list into a forest: every stack's layer
    /// sequence becomes one root-to-node path carrying its index, stacks
    /// with a common prefix sharing the prefix's nodes, and no two
    /// siblings carrying the same layer.
    pub fn dehydration(stacks: &Vec<Arc<Stack>>) -> (r: Vec<StackTree>)
        requires
            forall|i: int| 0 <= i < stacks@.len() ==> (#[trigger] stacks.deep_view()[i]).len() > 0,
            stacks@.len() < usize::MAX,
        ensures
            forest_map(forest_vs(r), Seq::empty()) == Map::new(
                |k: usize| (k as int) < stacks@.len(),
                |k: usize| stacks.deep_view()[k as int],
            ),
            forest_count(forest_vs(r)) == stacks@.len(),
            forest_distinct(forest_vs(r)),
            forest_all_live(forest_vs(r)),
    {
        let n = stacks.len();
        let mut trees: Vec<StackTree> = Vec::new();
        proof {
            lemma_forest_v_index(trees, 0);
            assert(forest_vs(trees) =~= Seq::<TreeV>::empty());
            assert(forest_map(forest_vs(trees), Seq::empty()) =~= Map::new(
                |k: usize| (k as int) < 0,
                |k: usize| stacks.deep_view()[k as int],
            ));
        }
        let mut idx: usize = 0;
        while idx < n
            invariant
                0 <= idx <= n,
                n == stacks@.len(),
                n < usize::MAX,
                forall|i: int|
                    0 <= i < stacks@.len() ==> (#[trigger] stacks.deep_view()[i]).len() > 0,
                forest_map(forest_vs(trees), Seq::empty()) == Map::new(
                    |k: usize| (k as int) < idx,
                    |k: usize| stacks.deep_view()[k as int],
                ),
                forest_count(forest_vs(trees)) == idx,
                forest_bounded(forest_vs(trees), idx),
                forest_distinct(forest_vs(trees)),
                forest_all_live(forest_vs(trees)),
            decreases n - idx,
        {
            let st = arc_ref(&stacks[idx]);
            proof {
                assert(st.layers.deep_view() == stacks.deep_view()[idx as int]);
                assert(st.layers@.len() > 0);
            }
            forest_insert(&mut trees, &st.layers, 0, idx, Ghost(Seq::empty()));
            proof {
                assert(Seq::<LayerV>::empty() + st.layers.deep_view().skip(0)
                    =~= stacks.deep_view()[idx as int]);
                assert(forest_map(forest_vs(trees), Seq::empty()) =~= Map::new(
                    |k: usize| (k as int) < idx + 1,
                    |k: usize| stacks.deep_view()[k as int],
                ));
            }
            idx = idx + 1;
        }
        trees
    }

    /// Rebuilds the indexed stack list from a forest. Succeeds exactly
    /// when the listed indices cover every position of the rebuilt list;
    /// each rebuilt stack carries the layers its index maps to.
    pub fn hydration(trees: &Vec<StackTree>) -> (r: Option<Vec<Arc<Stack>>>)
        ensures
            r matches Some(v) ==> {
                &&& v@.len() == forest_count(forest_vs(*trees))
                &&& forall|k: usize|
                    (k as int) < v@.len() ==> #[trigger] forest_map(
                        forest_vs(*trees),
                        Seq::empty(),
                    ).contains_key(k)
                &&& forall|i: int|
                    0 <= i < v@.len() ==> (#[trigger] v.deep_view()[i]) == forest_map(
                        forest_vs(*trees),
                        Seq::empty(),
                    )[i as usize]
            },
            (forall|k: usize|
                #[trigger] forest_map(forest_vs(*trees), Seq::empty()).contains_key(k) <==> (
                k as int) < forest_count(forest_vs(*trees))) ==> r is Some,
            r is Some ==> (forall|k: usize|
                #[trigger] forest_map(forest_vs(*trees), Seq::empty()).contains_key(k) <==> (
                k as int) < forest_count(forest_vs(*trees))),
    {
        let ghost fv = forest_vs(*trees);
        let ghost fm = forest_map(fv, Seq::empty());
        let empty_path: Vec<Arc<Layer>> = Vec::new();
        proof {
            assert(empty_path.deep_view() =~= Seq::<LayerV>::empty());
        }
        let mut pairs: Vec<(usize, Stack)> = Vec::new();
        collect_forest(trees, &empty_path, &mut pairs);
        let total = pairs.len();
        proof {
            assert(total == forest_count(fv));
        }
        let mut slots: Vec<Option<Arc<Stack>>> = Vec::new();
        let mut i: usize = 0;
        while i < total
            invariant
                0 <= i <= total,
                slots@.len() == i,
                forall|m: int| 0 <= m < i ==> slots@[m] is None,
            decreases total - i,
        {
            slots.push(None);
            i = i + 1;
        }
        let mut cur: usize = 0;
        while cur < total
            invariant
                0 <= cur <= total,
                total == pairs@.len(),
                total == forest_count(fv),
                fm == forest_map(fv, Seq::empty()),
                fv == forest_vs(*trees),
                slots@.len() == total,
                forall|m: int|
                    0 <= m < pairs@.len() ==> fm.contains_key((#[trigger] pairs@[m]).0),
                forall|k: usize|
                    #[trigger] fm.contains_key(k) ==> (exists|m: int|
                        {
                            &&& 0 <= m < pairs@.len()
                            &&& (#[trigger] pairs@[m]).0 == k
                            &&& pairs@[m].1.deep_view() == fm[k]
                            &&& forall|m2: int|
                                m < m2 < pairs@.len() ==> (#[trigger] pairs@[m2]).0 != k
                        }),
                forall|m: int| 0 <= m < cur ==> (#[trigger] pairs@[m]).0 < total,
                forall|s: int|
                    0 <= s < total ==> ((#[trigger] slots@[s]) is Some <==> (exists|m: int|
                        0 <= m < cur && (#[trigger] pairs@[m]).0 == s)),
                forall|s: int|
                    0 <= s < total ==> ((#[trigger] slots@[s]) matches Some(st) ==> (exists|
                        m: int,
                    |
                        {
                            &&& 0 <= m < cur
                            &&& (#[trigger] pairs@[m]).0 == s
                            &&& st.deep_view() == pairs@[m].1.deep_view()
                            &&& forall|m2: int|
                                m < m2 < cur ==> (#[trigger] pairs@[m2]).0 != s
                        })),
            decreases total - cur,
        {
            let k = pairs[cur].0;
            if k >= total {
                proof {
                    assert(fm.contains_key(pairs@[cur as int].0));
                }
                return None;
            }
            let st = Arc::new(pairs[cur].1.duplicate());
            let ghost prevslots = slots@;
            slots.set(k, Some(st));
            proof {
                assert(forall|s: int| 0 <= s < total && s != k ==> slots@[s] == prevslots[s]);
                assert forall|s: int|
                    0 <= s < total implies ((#[trigger] slots@[s]) is Some <==> (exists|m: int|
                    0 <= m < cur + 1 && (#[trigger] pairs@[m]).0 == s)) by {
                    if s == k {
                        assert(pairs@[cur as int].0 == s);
                    } else {
                        assert(slots@[s] == prevslots[s]);
                    }
                }
                assert forall|s: int|
                    0 <= s < total implies ((#[trigger] slots@[s]) matches Some(st2) ==> (exists|
                    m: int,
                |
                    {
                        &&& 0 <= m < cur + 1
                        &&& (#[trigger] pairs@[m]).0 == s
                        &&& st2.deep_view() == pairs@[m].1.deep_view()
                        &&& forall|m2: int| m < m2 < cur + 1 ==> (#[trigger] pairs@[m2]).0 != s
                    })) by {
                    if s == k {
                        assert(slots@[s] matches Some(st2) ==> st2.deep_view()
                            == pairs@[cur as int].1.deep_view());
                    } else {
                        assert(slots@[s] == prevslots[s]);
                        if prevslots[s] is Some {
                            let m = choose|m: int|
                                {
                                    &&& 0 <= m < cur
                                    &&& (#[trigger] pairs@[m]).0 == s
                                    &&& prevslots[s]->Some_0.deep_view()
                                        == pairs@[m].1.deep_view()
                                    &&& forall|m2: int|
                                        m < m2 < cur ==> (#[trigger] pairs@[m2]).0 != s
                                };
                            assert(pairs@[cur as int].0 != s);
                        }
                    }
                }
            }
            cur = cur + 1;
        }
        let mut out: Vec<Arc<Stack>> = Vec::new();
        let mut s: usize = 0;
        while s < total
            invariant
                0 <= s <= total,
                total == pairs@.len(),
                total == forest_count(fv),
                fm == forest_map(fv, Seq::empty()),
                fv == forest_vs(*trees),
                slots@.len() == total,
                out@.len() == s,
                forall|m: int|
                    0 <= m < pairs@.len() ==> fm.contains_key((#[trigger] pairs@[m]).0),
                forall|m: int| 0 <= m < pairs@.len() ==> (#[trigger] pairs@[m]).0 < total,
                forall|k: usize|
                    #[trigger] fm.contains_key(k) ==> (exists|m: int|
                        {
                            &&& 0 <= m < pairs@.len()
                            &&& (#[trigger] pairs@[m]).0 == k
                            &&& pairs@[m].1.deep_view() == fm[k]
                            &&& forall|m2: int|
                                m < m2 < pairs@.len() ==> (#[trigger] pairs@[m2]).0 != k
                        }),
                forall|t: int|
                    0 <= t < total ==> ((#[trigger] slots@[t]) is Some <==> (exists|m: int|
                        0 <= m < pairs@.len() && (#[trigger] pairs@[m]).0 == t)),
                forall|t: int|
                    0 <= t < total ==> ((#[trigger] slots@[t]) matches Some(st) ==> (exists|
                        m: int,
                    |
                        {
                            &&& 0 <= m < pairs@.len()
                            &&& (#[trigger] pairs@[m]).0 == t
                            &&& st.deep_view() == pairs@[m].1.deep_view()
                            &&& forall|m2: int|
                                m < m2 < pairs@.len() ==> (#[trigger] pairs@[m2]).0 != t
                        })),
                forall|t: int| 0 <= t < s ==> #[trigger] fm.contains_key(t as usize),
                forall|t: int|
                    0 <= t < s ==> (#[trigger] out.deep_view()[t]) == fm[t as usize],
            decreases total - s,
        {
            let got = match &slots[s] {
                Some(st) => Some(st.clone()),
                None => None,
            };
            match got {
                Some(st) => {
                    proof {
                        let m = choose|m: int|
                            {
                                &&& 0 <= m < pairs@.len()
                                &&& (#[trigger] pairs@[m]).0 == s
                                &&& st.deep_view() == pairs@[m].1.deep_view()
                                &&& forall|m2: int|
                                    m < m2 < pairs@.len() ==> (#[trigger] pairs@[m2]).0 != s
                            };
                        assert(fm.contains_key(pairs@[m].0));
                        let m3 = choose|m3: int|
                            {
                                &&& 0 <= m3 < pairs@.len()
                                &&& (#[trigger] pairs@[m3]).0 == (s as usize)
                                &&& pairs@[m3].1.deep_view() == fm[s as usize]
                                &&& forall|m2: int|
                                    m3 < m2 < pairs@.len() ==> (#[trigger] pairs@[m2]).0 != (
                                    s as usize)
                            };
                        assert(m == m3) by {
                            if m < m3 {
                                assert(pairs@[m3].0 != s);
                            } else if m3 < m {
                                assert(pairs@[m].0 != s);
                            }
                        }
                        assert(st.deep_view() == fm[s as usize]);
                    }
                    let ghost prevout = out.deep_view();
                    proof {
                        assert(st.deep_view() == fm[s as usize]);
                        assert(fm.contains_key(s as usize));
                    }
                    out.push(st);
                    proof {
                        assert(out.deep_view()[s as int] == fm[s as usize]);
                        assert forall|t: int| 0 <= t < s + 1 implies #[trigger] fm.contains_key(
                            t as usize,
                        ) by {
                            if t < s {
                                assert(fm.contains_key(t as usize));
                            } else {
                                assert(fm.contains_key(s as usize));
                            }
                        }
                        assert forall|t: int|
                            0 <= t < s + 1 implies (#[trigger] out.deep_view()[t]) == fm[t
                            as usize] by {
                            if t < s {
                                assert(out.deep_view()[t] == prevout[t]);
                                assert(prevout[t] == fm[t as usize]);
                            }
                        }
                    }
                },
                None => {
                    proof {
                        if fm.contains_key(s as usize) {
                            let m = choose|m: int|
                                {
                                    &&& 0 <= m < pairs@.len()
                                    &&& (#[trigger] pairs@[m]).0 == (s as usize)
                                    &&& pairs@[m].1.deep_view() == fm[s as usize]
                                    &&& forall|m2: int|
                                        m < m2 < pairs@.len() ==> (#[trigger] pairs@[m2]).0 != (
                                        s as usize)
                                };
                            assert(slots@[s as int] is Some);
                            assert(false);
                        }
                    }
                    return None;
                },
            }
            s = s + 1;
        }
        proof {
            assert forall|k: usize| (k as int) < out@.len() implies #[trigger] forest_map(
                fv,
                Seq::empty(),
            ).contains_key(k) by {
                assert(fm.contains_key((k as int) as usize));
            }
            assert forall|k: usize| #[trigger] forest_map(fv, Seq::empty()).contains_key(
                k,
            ) implies (k as int) < forest_count(fv) by {
                let m = choose|m: int|
                    {
                        &&& 0 <= m < pairs@.len()
                        &&& (#[trigger] pairs@[m]).0 == k
                        &&& pairs@[m].1.deep_view() == fm[k]
                        &&& forall|m2: int|
                            m < m2 < pairs@.len() ==> (#[trigger] pairs@[m2]).0 != k
                    };
                assert(pairs@[m].0 < total);
            }
            assert forall|i: int|
                0 <= i < out@.len() implies (#[trigger] out.deep_view()[i]) == forest_map(
                fv,
                Seq::empty(),
            )[i as usize] by {
                assert(out.deep_view()[i] == fm[i as usize]);
            }
        }
        Some(out)
    }
}

/// Dehydration followed by hydration is the identity on the stack list:
/// the forest that dehydration returns maps each original position to the
/// original stack's layer sequence and lists exactly those positions, so
/// hydration must succeed and, at every position, rebuild a stack whose
/// layer sequence equals the original one.
pub proof fn lemma_round_trip(stacks: Seq<Seq<LayerV>>, f: Seq<TreeV>)
    requires
        forest_map(f, Seq::empty()) == Map::new(
            |k: usize| (k as int) < stacks.len(),
            |k: usize| stacks[k as int],
        ),
        forest_count(f) == stacks.len(),
    ensures
        forall|k: usize|
            #[trigger] forest_map(f, Seq::empty()).contains_key(k) <==> (k as int)
                < forest_count(f),
        forall|k: usize|
            (k as int) < stacks.len() ==> forest_map(f, Seq::empty())[k] == stacks[k as int],
{
}

} // verus!
