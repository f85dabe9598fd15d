//! The shape of a tree apart from the order of its keys: how many keys and
//! children each node has, and how deep the leaves lie.

use crate::model::{in_subtree, subtree_wf, tree_wf, Bound, Nodes};
use crate::node::NodeId;
use crate::state::State;
use vstd::prelude::*;

verus! {

/// The nodes under `id` have the shape of a B-tree of height `h` and
/// minimum degree `t`: every leaf is `h` levels down; the keys of every node
/// ascend; the node `id` has at least `min` keys and every other node at
/// least `t - 1`, none more than `2t - 1`; and an internal node has one
/// child more than keys.
pub open spec fn shaped_sub(v: Nodes, id: NodeId, h: nat, t: int, min: int) -> bool
    decreases h,
{
    &&& h >= 1
    &&& v.contains_key(id)
    &&& v[id].pack.wf()
    &&& min <= v[id].pack.len() <= 2 * t - 1
    &&& if h == 1 {
        v[id].leaf && v[id].children.len() == 0
    } else {
        &&& !v[id].leaf
        &&& v[id].children.len() == v[id].pack.len() + 1
        &&& forall|i: int|
            #![trigger v[id].children[i]]
            0 <= i < v[id].children.len() ==> shaped_sub(
                v,
                v[id].children[i],
                (h - 1) as nat,
                t,
                t - 1,
            )
    }
}

/// The nodes `v` make a tree of height `h` with the state `st` that has
/// the shape of a B-tree: without a root there is no node; else the root has
/// a key, the nodes under it have the shape of a B-tree, and there is no
/// node but those.
pub open spec fn index_shaped(v: Nodes, st: State, h: nat) -> bool {
    &&& st.wf()
    &&& match st.root {
        Some(root) => shaped_sub(v, root, h, st.minimum_degree as int, 1) && forall|x: NodeId|
            v.contains_key(x) <==> in_subtree(v, root, h, x),
        None => h == 0 && forall|x: NodeId| !v.contains_key(x),
    }
}

/// The nodes `r` are the nodes `g` but for the keys: each node has as many
/// keys, in ascending order, and the same children.
pub open spec fn skeleton_like(r: Nodes, g: Nodes) -> bool {
    &&& forall|x: NodeId| r.contains_key(x) == g.contains_key(x)
    &&& forall|x: NodeId|
        #![trigger r[x]]
        #![trigger g[x]]
        g.contains_key(x) ==> r[x].leaf == g[x].leaf && r[x].children == g[x].children
            && r[x].pack.len() == g[x].pack.len() && r[x].pack.wf()
}

/// Nodes that are the nodes of a well-formed subtree but for the keys have
/// the shape of a B-tree, and are the same nodes.
pub proof fn lemma_skeleton_sub(
    r: Nodes,
    g: Nodes,
    id: NodeId,
    h: nat,
    lo: Bound,
    hi: Bound,
    t: int,
    min: int,
)
    requires
        subtree_wf(g, id, h, lo, hi, t, min),
        skeleton_like(r, g),
    ensures
        shaped_sub(r, id, h, t, min),
        forall|x: NodeId|
            #![trigger in_subtree(r, id, h, x)]
            in_subtree(r, id, h, x) == in_subtree(g, id, h, x),
    decreases h,
{
    if h > 1 {
        assert(r[id].children == g[id].children);
        assert forall|i: int|
            #![trigger r[id].children[i]]
            0 <= i < r[id].children.len() implies shaped_sub(
            r,
            r[id].children[i],
            (h - 1) as nat,
            t,
            t - 1,
        ) && forall|x: NodeId|
            #![trigger in_subtree(r, r[id].children[i], (h - 1) as nat, x)]
            in_subtree(r, r[id].children[i], (h - 1) as nat, x) == in_subtree(
                g,
                g[id].children[i],
                (h - 1) as nat,
                x,
            ) by {
            let c = g[id].children[i];
            assert(subtree_wf(
                g,
                c,
                (h - 1) as nat,
                crate::model::lo_of(g[id].pack, i, lo),
                crate::model::hi_of(g[id].pack, i, hi),
                t,
                t - 1,
            ));
            lemma_skeleton_sub(
                r,
                g,
                c,
                (h - 1) as nat,
                crate::model::lo_of(g[id].pack, i, lo),
                crate::model::hi_of(g[id].pack, i, hi),
                t,
                t - 1,
            );
        }
        assert forall|x: NodeId| #![trigger in_subtree(r, id, h, x)] in_subtree(r, id, h, x)
            == in_subtree(g, id, h, x) by {
            if in_subtree(r, id, h, x) && x != id {
                let i = choose|i: int|
                    #![trigger r[id].children[i]]
                    0 <= i < r[id].children.len() && in_subtree(
                        r,
                        r[id].children[i],
                        (h - 1) as nat,
                        x,
                    );
                assert(in_subtree(g, g[id].children[i], (h - 1) as nat, x));
            }
            if in_subtree(g, id, h, x) && x != id {
                let i = choose|i: int|
                    #![trigger g[id].children[i]]
                    0 <= i < g[id].children.len() && in_subtree(
                        g,
                        g[id].children[i],
                        (h - 1) as nat,
                        x,
                    );
                assert(in_subtree(r, r[id].children[i], (h - 1) as nat, x));
            }
        }
    }
}

/// Nodes that are the nodes of a B-tree but for the keys make a tree that
/// has the shape of a B-tree.
pub proof fn lemma_skeleton_tree(r: Nodes, g: Nodes, st: State, h: nat)
    requires
        tree_wf(g, st, h),
        skeleton_like(r, g),
    ensures
        index_shaped(r, st, h),
{
    reveal(tree_wf);
    if st.root is Some {
        lemma_skeleton_sub(r, g, st.root.unwrap(), h, None, None, st.minimum_degree as int, 1);
    }
}

proof fn lemma_sub_shaped(v: Nodes, id: NodeId, h: nat, lo: Bound, hi: Bound, t: int, min: int)
    requires
        subtree_wf(v, id, h, lo, hi, t, min),
    ensures
        shaped_sub(v, id, h, t, min),
    decreases h,
{
    if h > 1 {
        assert forall|i: int|
            #![trigger v[id].children[i]]
            0 <= i < v[id].children.len() implies shaped_sub(
            v,
            v[id].children[i],
            (h - 1) as nat,
            t,
            t - 1,
        ) by {
            lemma_sub_shaped(
                v,
                v[id].children[i],
                (h - 1) as nat,
                crate::model::lo_of(v[id].pack, i, lo),
                crate::model::hi_of(v[id].pack, i, hi),
                t,
                t - 1,
            );
        }
    }
}

/// A B-tree has the shape of a B-tree.
pub proof fn lemma_wf_shaped(v: Nodes, st: State, h: nat)
    requires
        tree_wf(v, st, h),
    ensures
        index_shaped(v, st, h),
{
    reveal(tree_wf);
    if st.root is Some {
        lemma_sub_shaped(v, st.root.unwrap(), h, None, None, st.minimum_degree as int, 1);
    }
}

proof fn lemma_in_subtree_wf(
    v: Nodes,
    id: NodeId,
    h: nat,
    lo: Bound,
    hi: Bound,
    t: int,
    min: int,
    x: NodeId,
)
    requires
        subtree_wf(v, id, h, lo, hi, t, min),
        in_subtree(v, id, h, x),
    ensures
        v[x].pack.wf(),
    decreases h,
{
    if x != id {
        let i = choose|i: int|
            #![trigger v[id].children[i]]
            0 <= i < v[id].children.len() && in_subtree(v, v[id].children[i], (h - 1) as nat, x);
        lemma_in_subtree_wf(
            v,
            v[id].children[i],
            (h - 1) as nat,
            crate::model::lo_of(v[id].pack, i, lo),
            crate::model::hi_of(v[id].pack, i, hi),
            t,
            t - 1,
            x,
        );
    }
}

/// The nodes of a B-tree are, but for the keys, the nodes of that B-tree.
pub proof fn lemma_skeleton_self(v: Nodes, st: State, h: nat)
    requires
        tree_wf(v, st, h),
    ensures
        skeleton_like(v, v),
{
    reveal(tree_wf);
    if st.root is Some {
        assert forall|x: NodeId| #![trigger v[x]] v.contains_key(x) implies v[x].pack.wf() by {
            lemma_in_subtree_wf(v, st.root.unwrap(), h, None, None, st.minimum_degree as int, 1, x);
        }
    }
}

} // verus!
