//! The node that a walk down the tree has come to, and what the steps of an
//! insertion at that node do to the whole tree.

use crate::model::{
    above, below, hi_of, in_subtree, lemma_change_min, lemma_frame, lemma_in_subtree_known,
    lemma_path_inside, lemma_path_step, lemma_replace, lo_of, lookup, on_path, subtree_wf, tree_wf,
    Bound, Nodes,
};
use crate::node::{NodeId, NodeModel};
use crate::order::{key_lt, lemma_key_lt_connected};
use crate::pack::{lemma_absent_below, lemma_child_idx_insert, lemma_child_idx_props, Pack};
use crate::state::State;
use crate::steps::{lemma_put, lemma_split, node_put, split_nodes};
use vstd::prelude::*;

verus! {

/// The least number of keys of a node of height `hc` in a tree of height
/// `h`: one for the root, `t - 1` for every other node.
pub open spec fn min_keys(h: nat, hc: nat, t: int) -> int {
    if hc == h {
        1
    } else {
        t - 1
    }
}

/// The walk down the tree for `k` has come to the node `c`, of height `hc`
/// and with the bounds `clo` and `chi`, and has not found `k` above it.
#[verifier::opaque]
pub open spec fn cursor_ok(
    v: Nodes,
    st: State,
    h: nat,
    k: Seq<u8>,
    c: NodeId,
    hc: nat,
    clo: Bound,
    chi: Bound,
) -> bool {
    &&& tree_wf(v, st, h)
    &&& st.root is Some
    &&& hc >= 1
    &&& on_path(v, st.root.unwrap(), h, None, None, k, c, hc, clo, chi)
    &&& subtree_wf(v, c, hc, clo, chi, st.minimum_degree as int, min_keys(h, hc, st.minimum_degree as int))
    &&& above(clo, k)
    &&& below(chi, k)
}

/// A search that comes to a node finds in the whole tree what it finds
/// under that node.
pub proof fn lemma_path_lookup(
    v: Nodes,
    id: NodeId,
    h: nat,
    lo: Bound,
    hi: Bound,
    k: Seq<u8>,
    c: NodeId,
    hc: nat,
    clo: Bound,
    chi: Bound,
)
    requires
        hc >= 1,
        on_path(v, id, h, lo, hi, k, c, hc, clo, chi),
    ensures
        lookup(v, id, h, k) == lookup(v, c, hc, k),
    decreases h,
{
    if h != hc {
        let i = v[id].pack.child_idx(k);
        lemma_path_lookup(
            v,
            v[id].children[i],
            (h - 1) as nat,
            lo_of(v[id].pack, i, lo),
            hi_of(v[id].pack, i, hi),
            k,
            c,
            hc,
            clo,
            chi,
        );
    }
}

/// The walk begins at the root.
pub proof fn lemma_cursor_start(v: Nodes, st: State, h: nat, k: Seq<u8>)
    requires
        tree_wf(v, st, h),
        st.root is Some,
    ensures
        cursor_ok(v, st, h, k, st.root.unwrap(), h, None, None),
{
    reveal(cursor_ok);
    reveal(tree_wf);
}

/// Where the node the walk has come to does not have the key, the walk goes
/// on to its child at the child index of the key.
pub proof fn lemma_cursor_down(
    v: Nodes,
    st: State,
    h: nat,
    k: Seq<u8>,
    c: NodeId,
    hc: nat,
    clo: Bound,
    chi: Bound,
)
    requires
        cursor_ok(v, st, h, k, c, hc, clo, chi),
        hc >= 2,
        !v[c].pack.has(k),
    ensures
        0 <= v[c].pack.child_idx(k) < v[c].children.len(),
        cursor_ok(
            v,
            st,
            h,
            k,
            v[c].children[v[c].pack.child_idx(k)],
            (hc - 1) as nat,
            lo_of(v[c].pack, v[c].pack.child_idx(k), clo),
            hi_of(v[c].pack, v[c].pack.child_idx(k), chi),
        ),
        v[c].children[v[c].pack.child_idx(k)] != c,
        hc <= h,
{
    reveal(cursor_ok);
    reveal(tree_wf);
    let n = v[c];
    let i = n.pack.child_idx(k);
    let root = st.root.unwrap();
    lemma_child_idx_props(n.pack, k);
    lemma_absent_below(n.pack, k);
    lemma_path_step(v, root, h, None, None, k, c, hc, clo, chi);
    assert(in_subtree(v, c, hc, c));
    lemma_path_inside(v, root, h, None, None, k, c, hc, clo, chi, c);
    let d = n.children[i];
    assert(d == v[c].children[i]);
    assert(subtree_wf(
        v,
        d,
        (hc - 1) as nat,
        lo_of(n.pack, i, clo),
        hi_of(n.pack, i, chi),
        st.minimum_degree as int,
        st.minimum_degree - 1,
    ));
    assert(in_subtree(v, d, (hc - 1) as nat, d));
    assert(!in_subtree(v, d, (hc - 1) as nat, c));
    if i > 0 {
        assert(key_lt(n.pack.keys[i - 1], k));
    }
}

/// To exchange the subtree under the node the walk has come to for one
/// that is well formed at the same height and within the same bounds, with
/// nodes of the old subtree or from outside the tree, keeps the tree well
/// formed. `st2` is the state afterwards: as before, with room for the
/// identifiers of the new nodes.
pub proof fn lemma_cursor_replace(
    v: Nodes,
    w: Nodes,
    st: State,
    st2: State,
    h: nat,
    k: Seq<u8>,
    c: NodeId,
    hc: nat,
    clo: Bound,
    chi: Bound,
)
    requires
        cursor_ok(v, st, h, k, c, hc, clo, chi),
        st2.root == st.root,
        st2.minimum_degree == st.minimum_degree,
        st2.next_node_id >= st.next_node_id,
        subtree_wf(w, c, hc, clo, chi, st.minimum_degree as int, min_keys(h, hc, st.minimum_degree as int)),
        forall|x: NodeId|
            #![trigger w.contains_key(x)]
            #![trigger in_subtree(v, c, hc, x)]
            !in_subtree(v, c, hc, x) ==> (w.contains_key(x) <==> (v.contains_key(x) || in_subtree(
                w,
                c,
                hc,
                x,
            ))),
        forall|x: NodeId|
            #![trigger w[x]]
            #![trigger in_subtree(v, c, hc, x)]
            v.contains_key(x) && !in_subtree(v, c, hc, x) ==> w[x] == v[x],
        forall|x: NodeId|
            #![trigger in_subtree(w, c, hc, x)]
            #![trigger in_subtree(v, c, hc, x)]
            in_subtree(v, c, hc, x) ==> (w.contains_key(x) <==> in_subtree(w, c, hc, x)),
        forall|x: NodeId|
            #![trigger in_subtree(w, c, hc, x)]
            in_subtree(w, c, hc, x) ==> (in_subtree(v, c, hc, x) || !v.contains_key(x)) && x
                < st2.next_node_id,
    ensures
        cursor_ok(w, st2, h, k, c, hc, clo, chi),
        forall|q: Seq<u8>|
            #![trigger lookup(w, st.root.unwrap(), h, q)]
            lookup(w, st.root.unwrap(), h, q) == if on_path(
                v,
                st.root.unwrap(),
                h,
                None,
                None,
                q,
                c,
                hc,
                clo,
                chi,
            ) {
                lookup(w, c, hc, q)
            } else {
                lookup(v, st.root.unwrap(), h, q)
            },
        forall|q: Seq<u8>|
            #![trigger lookup(v, st.root.unwrap(), h, q)]
            on_path(v, st.root.unwrap(), h, None, None, q, c, hc, clo, chi) ==> lookup(
                v,
                st.root.unwrap(),
                h,
                q,
            ) == lookup(v, c, hc, q),
{
    reveal(cursor_ok);
    reveal(tree_wf);
    let root = st.root.unwrap();
    let t = st.minimum_degree as int;
    assert(in_subtree(v, c, hc, c));
    lemma_path_inside(v, root, h, None, None, k, c, hc, clo, chi, c);
    assert forall|x: NodeId| in_subtree(v, c, hc, x) implies in_subtree(v, root, h, x) by {
        lemma_path_inside(v, root, h, None, None, k, c, hc, clo, chi, x);
    }
    assert forall|x: NodeId|
        #![trigger w.contains_key(x)]
        #![trigger in_subtree(v, root, h, x)]
        in_subtree(v, root, h, x) && !in_subtree(v, c, hc, x) implies w.contains_key(x) && w[x]
            == v[x] by {
        assert(v.contains_key(x));
    }
    assert forall|x: NodeId| #![trigger in_subtree(w, c, hc, x)] in_subtree(w, c, hc, x) implies in_subtree(
        v,
        c,
        hc,
        x,
    ) || !in_subtree(v, root, h, x) by {
        if in_subtree(v, root, h, x) {
            assert(v.contains_key(x));
        }
    }
    lemma_replace(v, w, root, h, None, None, t, 1, k, c, hc, clo, chi);
    assert forall|x: NodeId| w.contains_key(x) <==> in_subtree(w, root, h, x) by {
        if in_subtree(v, c, hc, x) {
            assert(in_subtree(v, root, h, x));
        }
    }
    assert forall|x: NodeId| w.contains_key(x) implies x < st2.next_node_id by {
        if !in_subtree(w, c, hc, x) {
            assert(v.contains_key(x));
        }
    }
    assert forall|q: Seq<u8>|
        #![trigger lookup(v, root, h, q)]
        on_path(v, root, h, None, None, q, c, hc, clo, chi) implies lookup(v, root, h, q)
            == lookup(v, c, hc, q) by {
        lemma_path_lookup(v, root, h, None, None, q, c, hc, clo, chi);
    }
}

/// To set the payload of the key in the node the walk has come to, where
/// the node has the key or is a leaf with room for it, keeps the tree well
/// formed; a search finds the new payload at the key and what it found before
/// at every other key.
pub proof fn lemma_cursor_put(
    v: Nodes,
    st: State,
    h: nat,
    k: Seq<u8>,
    c: NodeId,
    hc: nat,
    clo: Bound,
    chi: Bound,
    p: u64,
)
    requires
        cursor_ok(v, st, h, k, c, hc, clo, chi),
        v[c].pack.has(k) || (hc == 1 && v[c].pack.len() < 2 * st.minimum_degree - 1),
    ensures
        tree_wf(v.insert(c, node_put(v[c], k, p)), st, h),
        forall|q: Seq<u8>|
            #![trigger lookup(v.insert(c, node_put(v[c], k, p)), st.root.unwrap(), h, q)]
            lookup(v.insert(c, node_put(v[c], k, p)), st.root.unwrap(), h, q) == if q == k {
                Some(p)
            } else {
                lookup(v, st.root.unwrap(), h, q)
            },
{
    reveal(cursor_ok);
    reveal(tree_wf);
    let t = st.minimum_degree as int;
    let w = v.insert(c, node_put(v[c], k, p));
    lemma_put(v, c, hc, clo, chi, t, min_keys(h, hc, t), k, p);
    assert(in_subtree(v, c, hc, c));
    assert forall|x: NodeId| #![trigger in_subtree(w, c, hc, x)] in_subtree(w, c, hc, x) implies (
    in_subtree(v, c, hc, x) || !v.contains_key(x)) && x < st.next_node_id by {
        lemma_in_subtree_known(v, c, hc, clo, chi, t, min_keys(h, hc, t), x);
    }
    assert forall|x: NodeId|
        #![trigger in_subtree(w, c, hc, x)]
        #![trigger in_subtree(v, c, hc, x)]
        in_subtree(v, c, hc, x) implies (w.contains_key(x) <==> in_subtree(w, c, hc, x)) by {
        lemma_in_subtree_known(v, c, hc, clo, chi, t, min_keys(h, hc, t), x);
    }
    lemma_cursor_replace(v, w, st, st, h, k, c, hc, clo, chi);
}

/// To split the full child at `idx` of the node the walk has come to, which
/// is not full, keeps the tree well formed, and a search finds what it found
/// before. The new node gets the next identifier.
pub proof fn lemma_cursor_split(
    v: Nodes,
    st: State,
    h: nat,
    k: Seq<u8>,
    c: NodeId,
    hc: nat,
    clo: Bound,
    chi: Bound,
    idx: int,
)
    requires
        cursor_ok(v, st, h, k, c, hc, clo, chi),
        hc >= 2,
        st.next_node_id < u64::MAX,
        v[c].pack.len() < 2 * st.minimum_degree - 1,
        0 <= idx < v[c].children.len(),
        v[v[c].children[idx]].pack.len() == 2 * st.minimum_degree - 1,
    ensures
        cursor_ok(
            split_nodes(v, v[c], c, idx, st.next_node_id),
            State { next_node_id: (st.next_node_id + 1) as u64, ..st },
            h,
            k,
            c,
            hc,
            clo,
            chi,
        ),
        forall|q: Seq<u8>|
            #![trigger lookup(split_nodes(v, v[c], c, idx, st.next_node_id), st.root.unwrap(), h, q)]
            lookup(split_nodes(v, v[c], c, idx, st.next_node_id), st.root.unwrap(), h, q) == lookup(
                v,
                st.root.unwrap(),
                h,
                q,
            ),
        split_nodes(v, v[c], c, idx, st.next_node_id)[c].pack.keys == v[c].pack.keys.insert(
            idx,
            v[v[c].children[idx]].pack.keys[st.minimum_degree - 1],
        ),
        split_nodes(v, v[c], c, idx, st.next_node_id)[c].pack.len() == v[c].pack.len() + 1,
        split_nodes(v, v[c], c, idx, st.next_node_id)[c].children == v[c].children.insert(
            idx + 1,
            st.next_node_id,
        ),
        !v[c].pack.has(v[v[c].children[idx]].pack.keys[st.minimum_degree - 1]),
        v[c].pack.child_idx(v[v[c].children[idx]].pack.keys[st.minimum_degree - 1]) == idx,
        c != v[c].children[idx],
        split_nodes(v, v[c], c, idx, st.next_node_id)[v[c].children[idx]].pack.len()
            == st.minimum_degree - 1,
        split_nodes(v, v[c], c, idx, st.next_node_id)[st.next_node_id].pack.len()
            == st.minimum_degree - 1,
        v[v[c].children[idx]].pack.median_idx() == st.minimum_degree - 1,
        !v.contains_key(st.next_node_id),
{
    reveal(cursor_ok);
    reveal(tree_wf);
    let t = st.minimum_degree as int;
    let rid = st.next_node_id;
    let p = v[c];
    let w = split_nodes(v, p, c, idx, rid);
    let st2 = State { next_node_id: (st.next_node_id + 1) as u64, ..st };
    let cmin = min_keys(h, hc, t);
    let root = st.root.unwrap();
    assert(v.insert(c, p) =~= v);
    if in_subtree(v, c, hc, rid) {
        lemma_in_subtree_known(v, c, hc, clo, chi, t, cmin, rid);
    }
    lemma_split(v, p, c, hc, clo, chi, t, cmin, idx, rid);
    let cid = p.children[idx];
    assert(in_subtree(v, c, hc, c));
    assert(subtree_wf(v, cid, (hc - 1) as nat, lo_of(p.pack, idx, clo), hi_of(p.pack, idx, chi), t, t - 1));
    assert(in_subtree(v, cid, (hc - 1) as nat, cid));
    assert(in_subtree(v, c, hc, cid));
    assert forall|x: NodeId|
        #![trigger in_subtree(w, c, hc, x)]
        #![trigger in_subtree(v, c, hc, x)]
        in_subtree(v, c, hc, x) implies (w.contains_key(x) <==> in_subtree(w, c, hc, x)) by {
        lemma_in_subtree_known(v, c, hc, clo, chi, t, cmin, x);
    }
    assert forall|x: NodeId| #![trigger in_subtree(w, c, hc, x)] in_subtree(w, c, hc, x) implies (
    in_subtree(v, c, hc, x) || !v.contains_key(x)) && x < st2.next_node_id by {
        if x != rid {
            lemma_in_subtree_known(v, c, hc, clo, chi, t, cmin, x);
        }
    }
    lemma_cursor_replace(v, w, st, st2, h, k, c, hc, clo, chi);
}

/// The root of a tree with one key.
pub open spec fn first_leaf(k: Seq<u8>, p: u64) -> NodeModel {
    NodeModel { leaf: true, pack: Pack::single(k, p), children: Seq::empty() }
}

/// A leaf with one key, under the next identifier, makes an empty tree a
/// tree of height one that has the key and no other.
pub proof fn lemma_first_leaf(v: Nodes, st: State, k: Seq<u8>, p: u64)
    requires
        tree_wf(v, st, 0),
        st.root is None,
        st.next_node_id < u64::MAX,
    ensures
        tree_wf(
            v.insert(st.next_node_id, first_leaf(k, p)),
            State {
                root: Some(st.next_node_id),
                next_node_id: (st.next_node_id + 1) as u64,
                ..st
            },
            1,
        ),
        forall|q: Seq<u8>|
            #![trigger lookup(v.insert(st.next_node_id, first_leaf(k, p)), st.next_node_id, 1, q)]
            lookup(v.insert(st.next_node_id, first_leaf(k, p)), st.next_node_id, 1, q) == if q == k {
                Some(p)
            } else {
                None
            },
{
    reveal(tree_wf);
    let id = st.next_node_id;
    let w = v.insert(id, first_leaf(k, p));
    let pk = Pack::single(k, p);
    assert(pk.keys[0] == k);
    assert forall|q: Seq<u8>| pk.has(q) <==> q == k by {
        if pk.has(q) {
            let i = pk.pos(q);
            assert(0 <= i < pk.keys.len() && pk.keys[i] == q);
        }
    }
    crate::pack::lemma_pos_is(pk, k, 0);
    assert(subtree_wf(w, id, 1, None, None, st.minimum_degree as int, 1));
    assert forall|x: NodeId| w.contains_key(x) <==> in_subtree(w, id, 1, x) by {}
}

/// The root that a tree gets above its full root: a node without keys whose
/// one child is the old root.
pub open spec fn new_root(old_root: NodeId) -> NodeModel {
    NodeModel { leaf: false, pack: Pack::empty(), children: seq![old_root] }
}

/// To put a new root above a full root and split the old root under it
/// keeps the tree well formed, one level higher; a search finds what it
/// found before. The new root gets the next identifier, the new node the
/// one after it.
pub proof fn lemma_tree_grow(v: Nodes, st: State, h: nat)
    requires
        tree_wf(v, st, h),
        st.root is Some,
        v[st.root.unwrap()].pack.len() == 2 * st.minimum_degree - 1,
        st.next_node_id + 1 < u64::MAX,
    ensures
        tree_wf(
            split_nodes(
                v,
                new_root(st.root.unwrap()),
                st.next_node_id,
                0,
                (st.next_node_id + 1) as u64,
            ),
            State {
                root: Some(st.next_node_id),
                next_node_id: (st.next_node_id + 2) as u64,
                ..st
            },
            h + 1,
        ),
        forall|q: Seq<u8>|
            #![trigger lookup(split_nodes(v, new_root(st.root.unwrap()), st.next_node_id, 0, (st.next_node_id + 1) as u64), st.next_node_id, h + 1, q)]
            lookup(
                split_nodes(
                    v,
                    new_root(st.root.unwrap()),
                    st.next_node_id,
                    0,
                    (st.next_node_id + 1) as u64,
                ),
                st.next_node_id,
                h + 1,
                q,
            ) == lookup(v, st.root.unwrap(), h, q),
        split_nodes(
            v,
            new_root(st.root.unwrap()),
            st.next_node_id,
            0,
            (st.next_node_id + 1) as u64,
        )[st.next_node_id].pack.len() == 1,
        st.root.unwrap() != st.next_node_id,
        v[st.root.unwrap()].pack.median_idx() == st.minimum_degree - 1,
        split_nodes(
            v,
            new_root(st.root.unwrap()),
            st.next_node_id,
            0,
            (st.next_node_id + 1) as u64,
        )[st.next_node_id].pack.has(v[st.root.unwrap()].pack.keys[st.minimum_degree - 1]),
{
    reveal(tree_wf);
    let t = st.minimum_degree as int;
    let root0 = st.root.unwrap();
    let rn = st.next_node_id;
    let rid = (st.next_node_id + 1) as u64;
    let p0 = new_root(root0);
    let vp = v.insert(rn, p0);
    let w = split_nodes(v, p0, rn, 0, rid);
    let hp = h + 1;
    assert(in_subtree(v, root0, h, root0));
    assert(root0 != rn);
    lemma_change_min(v, root0, h, None, None, t, 1, t - 1);
    assert forall|x: NodeId| #[trigger] in_subtree(v, root0, h, x) implies vp.contains_key(x)
        && vp[x] == v[x] by {
        assert(v.contains_key(x));
    }
    lemma_frame(v, vp, root0, h, None, None, t, t - 1);
    assert(vp[rn] == p0);
    assert(p0.children[0] == root0);
    assert(p0.pack.wf());
    assert forall|i: int| #![trigger vp[rn].children[i]] 0 <= i < vp[rn].children.len() implies {
        &&& subtree_wf(vp, vp[rn].children[i], h, lo_of(vp[rn].pack, i, None), hi_of(vp[rn].pack, i, None), t, t - 1)
        &&& !in_subtree(vp, vp[rn].children[i], h, rn)
    } by {
        assert(vp[rn].children[i] == root0);
        if in_subtree(vp, root0, h, rn) {
            assert(in_subtree(v, root0, h, rn));
            assert(v.contains_key(rn));
        }
    }
    assert(subtree_wf(vp, rn, hp, None, None, t, 0));
    assert forall|x: NodeId| in_subtree(vp, rn, hp, x) <==> x == rn || in_subtree(v, root0, h, x) by {
        if in_subtree(vp, rn, hp, x) && x != rn {
            let i = choose|i: int|
                #![trigger vp[rn].children[i]]
                0 <= i < vp[rn].children.len() && in_subtree(vp, vp[rn].children[i], h, x);
            assert(vp[rn].children[i] == root0);
        }
        if in_subtree(v, root0, h, x) {
            assert(vp[rn].children[0] == root0);
            assert(in_subtree(vp, root0, h, x));
        }
    }
    if in_subtree(vp, rn, hp, rid) {
        assert(v.contains_key(rid));
    }
    assert(vp[root0] == v[root0]);
    lemma_split(v, p0, rn, hp, None, None, t, 0, 0, rid);
    lemma_change_min(w, rn, hp, None, None, t, 0, 1);
    assert(w[rn].pack.keys[0] == v[root0].pack.keys[t - 1]);
    let st2 = State { root: Some(rn), next_node_id: (st.next_node_id + 2) as u64, ..st };
    assert forall|x: NodeId| w.contains_key(x) <==> in_subtree(w, rn, hp, x) by {
        if in_subtree(v, root0, h, x) {
            assert(v.contains_key(x));
        }
    }
    assert forall|q: Seq<u8>| lookup(w, rn, hp, q) == lookup(v, root0, h, q) by {
        crate::pack::lemma_child_idx_props(p0.pack, q);
        assert(!p0.pack.has(q));
        assert(lookup(vp, rn, hp, q) == lookup(vp, root0, h, q));
    }
}

/// What the place of the walk tells of the node it has come to.
pub proof fn lemma_cursor_facts(
    v: Nodes,
    st: State,
    h: nat,
    k: Seq<u8>,
    c: NodeId,
    hc: nat,
    clo: Bound,
    chi: Bound,
)
    requires
        cursor_ok(v, st, h, k, c, hc, clo, chi),
    ensures
        tree_wf(v, st, h),
        st.wf(),
        st.root is Some,
        1 <= hc <= h <= st.next_node_id,
        v.contains_key(c),
        c < st.next_node_id,
        v[c].leaf <==> hc == 1,
        v[c].pack.wf(),
        v[c].pack.len() <= 2 * st.minimum_degree - 1,
        hc >= 2 ==> v[c].children.len() == v[c].pack.len() + 1,
        hc == 1 ==> v[c].children.len() == 0,
        forall|x: NodeId| v.contains_key(x) ==> x < st.next_node_id,
{
    reveal(cursor_ok);
    reveal(tree_wf);
    assert(in_subtree(v, c, hc, c));
    lemma_path_inside(v, st.root.unwrap(), h, None, None, k, c, hc, clo, chi, c);
}

/// What a well-formed tree tells of its root.
pub proof fn lemma_tree_facts(v: Nodes, st: State, h: nat)
    requires
        tree_wf(v, st, h),
    ensures
        st.wf(),
        h <= st.next_node_id,
        forall|x: NodeId| v.contains_key(x) ==> x < st.next_node_id,
        st.root is None ==> h == 0 && forall|x: NodeId| !v.contains_key(x),
        st.root matches Some(root) ==> h >= 1 && v.contains_key(root) && subtree_wf(
            v,
            root,
            h,
            None,
            None,
            st.minimum_degree as int,
            1,
        ),
{
    reveal(tree_wf);
}

/// A node on the way of the search for `k` from the node `id` is full.
pub open spec fn full_on_path(v: Nodes, id: NodeId, h: nat, k: Seq<u8>, t: int) -> bool
    decreases h,
{
    h >= 1 && v.contains_key(id) && (v[id].pack.len() == 2 * t - 1 || (h > 1 && !v[id].pack.has(k)
        && 0 <= v[id].pack.child_idx(k) < v[id].children.len() && full_on_path(
        v,
        v[id].children[v[id].pack.child_idx(k)],
        (h - 1) as nat,
        k,
        t,
    )))
}

/// The tree has a root, and no node on the way of the search for `k` is
/// full: an insertion of `k` splits no node.
pub open spec fn index_roomy(v: Nodes, st: State, k: Seq<u8>) -> bool {
    st.root matches Some(root) && !full_on_path(
        v,
        root,
        crate::model::index_height(v, st),
        k,
        st.minimum_degree as int,
    )
}

/// After the split of the full child that the walk would go on to, the
/// walk goes on to the half on the side of the median on which the key lies,
/// which is not full; or the key is the median, which the node now has.
pub proof fn lemma_split_next(
    v: Nodes,
    st: State,
    h: nat,
    k: Seq<u8>,
    c: NodeId,
    hc: nat,
    clo: Bound,
    chi: Bound,
)
    requires
        cursor_ok(v, st, h, k, c, hc, clo, chi),
        hc >= 2,
        st.next_node_id < u64::MAX,
        !v[c].pack.has(k),
        v[c].pack.len() < 2 * st.minimum_degree - 1,
        0 <= v[c].pack.child_idx(k) < v[c].children.len(),
        v[v[c].children[v[c].pack.child_idx(k)]].pack.len() == 2 * st.minimum_degree - 1,
    ensures
        ({
            let idx = v[c].pack.child_idx(k);
            let cid = v[c].children[idx];
            let rid = st.next_node_id;
            let w = split_nodes(v, v[c], c, idx, rid);
            let st2 = State { next_node_id: (st.next_node_id + 1) as u64, ..st };
            let mk = v[cid].pack.keys[st.minimum_degree - 1];
            &&& cursor_ok(w, st2, h, k, c, hc, clo, chi)
            &&& forall|q: Seq<u8>|
                #![trigger lookup(w, st.root.unwrap(), h, q)]
                lookup(w, st.root.unwrap(), h, q) == lookup(v, st.root.unwrap(), h, q)
            &&& v[cid].pack.median_idx() == st.minimum_degree - 1
            &&& k == mk ==> w[c].pack.has(k)
            &&& key_lt(k, mk) ==> cursor_ok(
                w,
                st2,
                h,
                k,
                cid,
                (hc - 1) as nat,
                lo_of(w[c].pack, idx, clo),
                hi_of(w[c].pack, idx, chi),
            ) && w[cid].pack.len() < 2 * st.minimum_degree - 1
            &&& key_lt(mk, k) ==> cursor_ok(
                w,
                st2,
                h,
                k,
                rid,
                (hc - 1) as nat,
                lo_of(w[c].pack, idx + 1, clo),
                hi_of(w[c].pack, idx + 1, chi),
            ) && w[rid].pack.len() < 2 * st.minimum_degree - 1
            &&& c != cid
            &&& hc <= h
        }),
{
    let idx = v[c].pack.child_idx(k);
    let cid = v[c].children[idx];
    let rid = st.next_node_id;
    let w = split_nodes(v, v[c], c, idx, rid);
    let st2 = State { next_node_id: (st.next_node_id + 1) as u64, ..st };
    let t = st.minimum_degree as int;
    let mk = v[cid].pack.keys[t - 1];
    let mp = v[cid].pack.payloads[t - 1];
    lemma_cursor_facts(v, st, h, k, c, hc, clo, chi);
    lemma_cursor_split(v, st, h, k, c, hc, clo, chi, idx);
    lemma_child_idx_props(v[c].pack, mk);
    lemma_absent_below(v[c].pack, mk);
    lemma_child_idx_insert(v[c].pack, idx, mk, mp, k);
    lemma_child_idx_props(v[c].pack, k);
    lemma_absent_below(v[c].pack, k);
    v[c].pack.lemma_insert_get(mk, mp, k);
    crate::pack::lemma_insert_between(v[c].pack, idx, mk, mp);
    crate::pack::lemma_pack_has_len(w[c].pack, k);
    assert(w[c].pack.keys[idx] == mk);
    if k != mk {
        assert(!w[c].pack.has(k)) by {
            if w[c].pack.has(k) {
                let i = w[c].pack.pos(k);
                assert(0 <= i < w[c].pack.keys.len() && w[c].pack.keys[i] == k);
                if i < idx {
                    assert(v[c].pack.keys[i] == k);
                } else if i > idx {
                    assert(v[c].pack.keys[i - 1] == k);
                }
                assert(v[c].pack.keys.contains(k));
            }
        }
        assert(w[c].pack.child_idx(k) == v[c].pack.insert(mk, mp).child_idx(k)) by {
            assert(w[c].pack.keys == v[c].pack.insert(mk, mp).keys);
        }
        lemma_cursor_down(w, st2, h, k, c, hc, clo, chi);
        if !key_lt(k, mk) && !key_lt(mk, k) {
            lemma_key_lt_connected(k, mk);
        }
        let i2 = w[c].pack.child_idx(k);
        assert(cursor_ok(
            w,
            st2,
            h,
            k,
            w[c].children[i2],
            (hc - 1) as nat,
            lo_of(w[c].pack, i2, clo),
            hi_of(w[c].pack, i2, chi),
        ));
        if key_lt(k, mk) {
            crate::order::lemma_key_lt_asymmetric(k, mk);
            assert(i2 == idx);
            assert(w[c].children[idx] == cid);
        } else {
            crate::order::lemma_key_lt_asymmetric(mk, k);
            assert(i2 == idx + 1);
            assert(w[c].children[idx + 1] == rid);
        }
    } else {
        crate::order::lemma_key_lt_irreflexive(k);
        assert(w[c].pack.keys[idx] == k);
        assert(w[c].pack.keys.contains(k));
    }
}

} // verus!
