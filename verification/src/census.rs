//! What a walk over the whole tree counts: the nodes, the keys and the
//! bytes of the stored nodes.

use crate::model::{hi_of, lo_of, subtree_wf, tree_wf, Bound, Nodes};
use crate::node::NodeId;
use crate::state::State;
use vstd::prelude::*;

verus! {

/// What is counted of a node.
pub enum Measure {
    /// One for the node.
    Nodes,
    /// The number of its keys.
    Keys,
    /// The number of bytes of its stored form.
    Bytes,
}

/// What the node `id` counts for: one, the number of its keys, or the size
/// that `sizes` gives for it.
pub open spec fn weight(v: Nodes, sizes: Map<NodeId, nat>, m: Measure, id: NodeId) -> nat {
    match m {
        Measure::Nodes => 1,
        Measure::Keys => v[id].pack.len(),
        Measure::Bytes => if sizes.contains_key(id) {
            sizes[id]
        } else {
            0
        },
    }
}

/// The sum of the weights of the nodes of the subtree of height `h` under
/// `id`.
pub open spec fn subtree_sum(v: Nodes, sizes: Map<NodeId, nat>, m: Measure, id: NodeId, h: nat) -> nat
    decreases h, 0nat,
{
    if h == 0 {
        0
    } else {
        weight(v, sizes, m, id) + children_sum(
            v,
            sizes,
            m,
            v[id].children,
            (h - 1) as nat,
            v[id].children.len(),
        )
    }
}

/// The sum of the weights of the nodes under the first `n` of the
/// children, each the top of a subtree of height `g`.
pub open spec fn children_sum(
    v: Nodes,
    sizes: Map<NodeId, nat>,
    m: Measure,
    children: Seq<NodeId>,
    g: nat,
    n: nat,
) -> nat
    decreases g, n + 1,
{
    if n == 0 || n > children.len() {
        0
    } else {
        children_sum(v, sizes, m, children, g, (n - 1) as nat) + subtree_sum(
            v,
            sizes,
            m,
            children[n - 1],
            g,
        )
    }
}

/// The sum of the weights of the nodes under the nodes that wait in the
/// queue of a walk over a tree of height `h`; each waits with its depth.
pub open spec fn queue_sum(
    v: Nodes,
    sizes: Map<NodeId, nat>,
    m: Measure,
    queue: Seq<(NodeId, u32)>,
    h: nat,
) -> nat
    decreases queue.len(),
{
    if queue.len() == 0 {
        0
    } else {
        subtree_sum(v, sizes, m, queue[0].0, (h + 1 - queue[0].1) as nat) + queue_sum(
            v,
            sizes,
            m,
            queue.drop_first(),
            h,
        )
    }
}

/// The nodes under `id` have the shape of a tree of height `h`: the leaves
/// are `h` levels down, and every node is there.
pub open spec fn shaped(v: Nodes, id: NodeId, h: nat) -> bool
    decreases h,
{
    &&& h >= 1
    &&& v.contains_key(id)
    &&& if h == 1 {
        v[id].leaf
    } else {
        &&& !v[id].leaf
        &&& v[id].children.len() >= 1
        &&& forall|i: int|
            #![trigger v[id].children[i]]
            0 <= i < v[id].children.len() ==> shaped(v, v[id].children[i], (h - 1) as nat)
    }
}

/// A well-formed subtree has the shape of a tree.
pub proof fn lemma_shaped(v: Nodes, id: NodeId, h: nat, lo: Bound, hi: Bound, t: int, min: int)
    requires
        subtree_wf(v, id, h, lo, hi, t, min),
    ensures
        shaped(v, id, h),
    decreases h,
{
    if h > 1 {
        assert forall|i: int| #![trigger v[id].children[i]] 0 <= i < v[id].children.len() implies shaped(
            v,
            v[id].children[i],
            (h - 1) as nat,
        ) by {
            lemma_shaped(
                v,
                v[id].children[i],
                (h - 1) as nat,
                lo_of(v[id].pack, i, lo),
                hi_of(v[id].pack, i, hi),
                t,
                t - 1,
            );
        }
    }
}

/// A tree of height `h` has at least `h` nodes.
pub proof fn lemma_nodes_at_least(v: Nodes, sizes: Map<NodeId, nat>, id: NodeId, h: nat)
    requires
        shaped(v, id, h),
    ensures
        subtree_sum(v, sizes, Measure::Nodes, id, h) >= h,
    decreases h,
{
    if h > 1 {
        let g = (h - 1) as nat;
        let c = v[id].children;
        lemma_nodes_at_least(v, sizes, c[0], g);
        lemma_children_sum_mono(v, sizes, Measure::Nodes, c, g, 1, c.len());
        assert(children_sum(v, sizes, Measure::Nodes, c, g, 1) == children_sum(
            v,
            sizes,
            Measure::Nodes,
            c,
            g,
            0,
        ) + subtree_sum(v, sizes, Measure::Nodes, c[0], g));
    }
}

/// The sum over more children is not less.
pub proof fn lemma_children_sum_mono(
    v: Nodes,
    sizes: Map<NodeId, nat>,
    m: Measure,
    children: Seq<NodeId>,
    g: nat,
    a: nat,
    b: nat,
)
    requires
        a <= b <= children.len(),
    ensures
        children_sum(v, sizes, m, children, g, a) <= children_sum(v, sizes, m, children, g, b),
    decreases b,
{
    if a < b {
        lemma_children_sum_mono(v, sizes, m, children, g, a, (b - 1) as nat);
    }
}

/// The sum of the weights over the whole tree with the state `st`, of
/// height `h`.
pub open spec fn tree_sum(v: Nodes, sizes: Map<NodeId, nat>, m: Measure, st: State, h: nat) -> nat {
    match st.root {
        Some(root) => subtree_sum(v, sizes, m, root, h),
        None => 0,
    }
}

/// What a walk over the tree with the state `st` counts by the measure `m`.
pub open spec fn index_sum(v: Nodes, sizes: Map<NodeId, nat>, m: Measure, st: State) -> nat {
    tree_sum(v, sizes, m, st, crate::model::index_height(v, st))
}

/// The root of a well-formed tree has the shape of a tree of its height.
pub proof fn lemma_tree_shaped(v: Nodes, st: State, h: nat)
    requires
        tree_wf(v, st, h),
    ensures
        st.root matches Some(root) ==> shaped(v, root, h) && h >= 1,
        st.root is None ==> h == 0,
{
    reveal(tree_wf);
    if st.root is Some {
        lemma_shaped(v, st.root.unwrap(), h, None, None, st.minimum_degree as int, 1);
    }
}

/// A node that joins the queue at its end adds the weights of the nodes
/// under it.
pub proof fn lemma_queue_sum_push(
    v: Nodes,
    sizes: Map<NodeId, nat>,
    m: Measure,
    queue: Seq<(NodeId, u32)>,
    h: nat,
    e: (NodeId, u32),
)
    ensures
        queue_sum(v, sizes, m, queue.push(e), h) == queue_sum(v, sizes, m, queue, h) + subtree_sum(
            v,
            sizes,
            m,
            e.0,
            (h + 1 - e.1) as nat,
        ),
    decreases queue.len(),
{
    if queue.len() == 0 {
        assert(queue.push(e).drop_first() =~= queue);
        assert(queue_sum(v, sizes, m, queue, h) == 0);
    } else {
        assert(queue.push(e).drop_first() =~= queue.drop_first().push(e));
        lemma_queue_sum_push(v, sizes, m, queue.drop_first(), h, e);
    }
}

/// No node under `id`, down `h` levels, is reached twice: the nodes under
/// two children of one node are different nodes, and none of them is that
/// node.
pub open spec fn apart(v: Nodes, id: NodeId, h: nat) -> bool
    decreases h,
{
    h <= 1 || {
        &&& forall|i: int|
            #![trigger v[id].children[i]]
            0 <= i < v[id].children.len() ==> apart(v, v[id].children[i], (h - 1) as nat)
                && !crate::model::in_subtree(v, v[id].children[i], (h - 1) as nat, id)
        &&& forall|i: int, j: int, x: NodeId|
            0 <= i < j < v[id].children.len() && #[trigger] crate::model::in_subtree(
                v,
                v[id].children[i],
                (h - 1) as nat,
                x,
            ) ==> !#[trigger] crate::model::in_subtree(v, v[id].children[j], (h - 1) as nat, x)
    }
}

/// In a well-formed subtree no node is reached twice.
pub proof fn lemma_apart(v: Nodes, id: NodeId, h: nat, lo: Bound, hi: Bound, t: int, min: int)
    requires
        subtree_wf(v, id, h, lo, hi, t, min),
    ensures
        apart(v, id, h),
    decreases h,
{
    if h > 1 {
        assert forall|i: int|
            #![trigger v[id].children[i]]
            0 <= i < v[id].children.len() implies apart(v, v[id].children[i], (h - 1) as nat) by {
            lemma_apart(
                v,
                v[id].children[i],
                (h - 1) as nat,
                lo_of(v[id].pack, i, lo),
                hi_of(v[id].pack, i, hi),
                t,
                t - 1,
            );
        }
    }
}

/// In a B-tree no node is reached twice.
pub proof fn lemma_tree_apart(v: Nodes, st: State, h: nat)
    requires
        tree_wf(v, st, h),
    ensures
        st.root matches Some(root) ==> apart(v, root, h),
{
    reveal(tree_wf);
    if st.root is Some {
        lemma_apart(v, st.root.unwrap(), h, None, None, st.minimum_degree as int, 1);
    }
}

} // verus!
