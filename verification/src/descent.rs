//! The walk of a deletion down the tree: what holds at the node it has
//! come to, how each step keeps it up, and which nodes each step leaves.

use crate::cursor::{
    cursor_ok, lemma_cursor_down, lemma_cursor_facts, lemma_cursor_replace, lemma_path_lookup,
    min_keys,
};
use crate::model::{
    above, below, hi_of, in_subtree, lemma_in_subtree_known, lo_of, lookup, subtree_wf, tree_wf,
    Bound, Nodes,
};
use crate::node::{NodeId, NodeModel};
use crate::order::{key_lt, lemma_key_lt_asymmetric, lemma_key_lt_irreflexive};
use crate::pack::{lemma_absent_below, lemma_child_idx_split, Pack};
use crate::rebalance::{in_gap, lemma_gap_lookup, lemma_reseat, lemma_trim, node_merge, node_reseat};
use crate::removal::{
    join_nodes, join_root_nodes, lemma_join, lemma_join_root, lemma_lookup_ends, lemma_rotate_left,
    lemma_rotate_right, lemma_take_is_trim, node_take_first, node_take_last, rotate_left_nodes,
    rotate_right_nodes,
};
use crate::shape::skeleton_like;
use crate::state::State;
use vstd::prelude::*;

verus! {

/// The nodes `y` and `z` of height `h` have the fewest keys that a node may
/// have, and so have the last child of `y` and the first child of `z`, and
/// so on down to the level above the leaves.
pub open spec fn seam(v: Nodes, y: NodeId, z: NodeId, h: nat, t: int) -> bool
    decreases h,
{
    h <= 1 || (v.contains_key(y) && v.contains_key(z) && v[y].pack.len() == t - 1 && v[z].pack.len()
        == t - 1 && v[y].children.len() >= 1 && v[z].children.len() >= 1 && seam(
        v,
        v[y].children.last(),
        v[z].children[0],
        (h - 1) as nat,
        t,
    ))
}

/// The way of a deletion of `k` from the node `c` down is clear: where a
/// node of height three or more has the key, the two children around the key
/// have the fewest keys that a node may have, and so have the children that
/// stand around the key once those two are merged, down to the level above
/// the leaves.
pub open spec fn clear_from(v: Nodes, c: NodeId, hc: nat, k: Seq<u8>, t: int) -> bool
    decreases hc,
{
    hc <= 2 || (v.contains_key(c) && 0 <= v[c].pack.child_idx(k) < v[c].children.len() && if v[c].pack.has(
        k,
    ) {
        v[c].pack.child_idx(k) >= 1 && seam(
            v,
            v[c].children[v[c].pack.child_idx(k) - 1],
            v[c].children[v[c].pack.child_idx(k)],
            (hc - 1) as nat,
            t,
        )
    } else {
        clear_from(v, v[c].children[v[c].pack.child_idx(k)], (hc - 1) as nat, k, t)
    })
}

/// Two nodes that have the fewest keys down their sides have them where
/// the nodes under them have not changed.
pub proof fn lemma_seam_frame(v: Nodes, w: Nodes, y: NodeId, z: NodeId, h: nat, t: int)
    requires
        seam(v, y, z, h, t),
        forall|x: NodeId|
            #![trigger in_subtree(v, y, h, x)]
            #![trigger in_subtree(v, z, h, x)]
            in_subtree(v, y, h, x) || in_subtree(v, z, h, x) ==> w.contains_key(x) && w[x] == v[x],
    ensures
        seam(w, y, z, h, t),
    decreases h,
{
    if h > 1 {
        assert(in_subtree(v, y, h, y));
        assert(in_subtree(v, z, h, z));
        let a = v[y].children.last();
        let b = v[z].children[0];
        let g = (h - 1) as nat;
        assert forall|x: NodeId|
            #![trigger in_subtree(v, a, g, x)]
            #![trigger in_subtree(v, b, g, x)]
            in_subtree(v, a, g, x) || in_subtree(v, b, g, x) implies w.contains_key(x) && w[x]
                == v[x] by {
            if in_subtree(v, a, g, x) {
                assert(in_subtree(v, v[y].children[v[y].children.len() - 1], g, x));
                assert(in_subtree(v, y, h, x));
            } else {
                assert(in_subtree(v, v[z].children[0], g, x));
                assert(in_subtree(v, z, h, x));
            }
        }
        lemma_seam_frame(v, w, a, b, g, t);
    }
}

/// The way of a deletion in a subtree stays clear where the nodes change
/// outside the subtree only.
pub proof fn lemma_clear_frame(v: Nodes, w: Nodes, c: NodeId, hc: nat, k: Seq<u8>, t: int)
    requires
        clear_from(v, c, hc, k, t),
        forall|x: NodeId| #[trigger] in_subtree(v, c, hc, x) ==> w.contains_key(x) && w[x] == v[x],
    ensures
        clear_from(w, c, hc, k, t),
    decreases hc,
{
    if hc > 2 {
        let i = v[c].pack.child_idx(k);
        let g = (hc - 1) as nat;
        assert(in_subtree(v, c, hc, c));
        if v[c].pack.has(k) {
            let y = v[c].children[i - 1];
            let z = v[c].children[i];
            assert forall|x: NodeId|
                #![trigger in_subtree(v, y, g, x)]
                #![trigger in_subtree(v, z, g, x)]
                in_subtree(v, y, g, x) || in_subtree(v, z, g, x) implies w.contains_key(x) && w[x]
                    == v[x] by {
                if in_subtree(v, y, g, x) {
                    assert(in_subtree(v, v[c].children[i - 1], g, x));
                } else {
                    assert(in_subtree(v, v[c].children[i], g, x));
                }
                assert(in_subtree(v, c, hc, x));
            }
            lemma_seam_frame(v, w, y, z, g, t);
        } else {
            let d = v[c].children[i];
            assert forall|x: NodeId| #[trigger] in_subtree(v, d, g, x) implies w.contains_key(x)
                && w[x] == v[x] by {
                assert(in_subtree(v, v[c].children[i], g, x));
                assert(in_subtree(v, c, hc, x));
            }
            lemma_clear_frame(v, w, d, g, k, t);
        }
    }
}

/// The walk of a deletion of `k` has come to the node `c`: the tree is well
/// formed, the search for `k` comes to `c`, the node can spare a key unless
/// it is the root, and, where `cl` says so, the way of the deletion from `c`
/// down is clear.
pub open spec fn del_ok(
    v: Nodes,
    st: State,
    h: nat,
    k: Seq<u8>,
    c: NodeId,
    hc: nat,
    clo: Bound,
    chi: Bound,
    cl: bool,
) -> bool {
    &&& cursor_ok(v, st, h, k, c, hc, clo, chi)
    &&& (hc == h || v[c].pack.len() >= st.minimum_degree)
    &&& cl ==> clear_from(v, c, hc, k, st.minimum_degree as int)
}

/// The walk of a deletion of `k`, which stood at the node `pid` of height
/// `hc`, can go on to the child of that node at the child index of `k`.
pub open spec fn stepped(
    w: Nodes,
    st: State,
    h: nat,
    k: Seq<u8>,
    pid: NodeId,
    hc: nat,
    clo: Bound,
    chi: Bound,
    cl: bool,
) -> bool {
    del_ok(
        w,
        st,
        h,
        k,
        w[pid].children[w[pid].pack.child_idx(k)],
        (hc - 1) as nat,
        lo_of(w[pid].pack, w[pid].pack.child_idx(k), clo),
        hi_of(w[pid].pack, w[pid].pack.child_idx(k), chi),
        cl,
    )
}

/// A search finds under `r2` in `w` what it finds under `r1` in `v`, but
/// perhaps at the key `dk`.
pub open spec fn same_lookups(
    w: Nodes,
    r2: NodeId,
    h2: nat,
    v: Nodes,
    r1: NodeId,
    h1: nat,
    dk: Option<Seq<u8>>,
) -> bool {
    forall|q: Seq<u8>|
        #![trigger lookup(w, r2, h2, q)]
        dk != Some(q) ==> lookup(w, r2, h2, q) == lookup(v, r1, h1, q)
}

/// A search finds under `r2` in `w` nothing at the key `k` and at every
/// other key what it finds under `r1` in `v`.
pub open spec fn lookups_without(
    w: Nodes,
    r2: NodeId,
    h2: nat,
    v: Nodes,
    r1: NodeId,
    h1: nat,
    k: Seq<u8>,
) -> bool {
    forall|q: Seq<u8>|
        #![trigger lookup(w, r2, h2, q)]
        lookup(w, r2, h2, q) == if q == k {
            None
        } else {
            lookup(v, r1, h1, q)
        }
}

/// A walk that has come to a node that does not have the key is, at the
/// child it goes on to, between the keys around that child.
pub proof fn lemma_cursor_gap(
    v: Nodes,
    st: State,
    h: nat,
    k: Seq<u8>,
    c: NodeId,
    hc: nat,
    clo: Bound,
    chi: Bound,
)
    requires
        cursor_ok(v, st, h, k, c, hc, clo, chi),
        hc >= 2,
        !v[c].pack.has(k),
    ensures
        0 <= v[c].pack.child_idx(k) <= v[c].pack.len(),
        v[c].children.len() == v[c].pack.len() + 1,
        v[c].pack.child_idx(k) < v[c].pack.len() ==> in_gap(v[c].pack, v[c].pack.child_idx(k), k)
            && key_lt(k, v[c].pack.keys[v[c].pack.child_idx(k)]),
        v[c].pack.child_idx(k) > 0 ==> in_gap(v[c].pack, v[c].pack.child_idx(k) - 1, k) && key_lt(
            v[c].pack.keys[v[c].pack.child_idx(k) - 1],
            k,
        ),
        subtree_wf(
            v,
            c,
            hc,
            clo,
            chi,
            st.minimum_degree as int,
            min_keys(h, hc, st.minimum_degree as int),
        ),
        st.minimum_degree >= 2,
{
    reveal(cursor_ok);
    reveal(tree_wf);
    let p = v[c].pack;
    let i = p.child_idx(k);
    lemma_child_idx_split(p, k);
    lemma_absent_below(p, k);
    if i > 1 {
        assert(key_lt(p.keys[i - 2], k));
    }
    if i + 1 < p.keys.len() {
        assert(key_lt(k, p.keys[i + 1]));
    }
}

/// Where the node the walk has come to does not have the key, and its
/// child at the child index of the key can spare a key, the walk goes on to
/// that child.
pub proof fn lemma_del_down(
    v: Nodes,
    st: State,
    h: nat,
    k: Seq<u8>,
    c: NodeId,
    hc: nat,
    clo: Bound,
    chi: Bound,
    cl: bool,
)
    requires
        del_ok(v, st, h, k, c, hc, clo, chi, cl),
        hc >= 2,
        !v[c].pack.has(k),
        v[v[c].children[v[c].pack.child_idx(k)]].pack.len() >= st.minimum_degree,
    ensures
        stepped(v, st, h, k, c, hc, clo, chi, cl),
{
    lemma_cursor_down(v, st, h, k, c, hc, clo, chi);
}

/// The subtree under the node the walk has come to is exchanged for one
/// that is well formed within the same bounds, made of nodes of the old one,
/// in which a search finds what it found before except at the key `dk`. The
/// walk goes on to the child of the new node at the child index of the key.
pub proof fn lemma_del_advance(
    v: Nodes,
    w: Nodes,
    st: State,
    h: nat,
    k: Seq<u8>,
    pid: NodeId,
    hc: nat,
    clo: Bound,
    chi: Bound,
    dk: Seq<u8>,
    changed: bool,
    cl: bool,
)
    requires
        del_ok(v, st, h, k, pid, hc, clo, chi, cl),
        hc >= 2,
        subtree_wf(
            w,
            pid,
            hc,
            clo,
            chi,
            st.minimum_degree as int,
            min_keys(h, hc, st.minimum_degree as int),
        ),
        forall|x: NodeId|
            #![trigger in_subtree(w, pid, hc, x)]
            in_subtree(w, pid, hc, x) ==> in_subtree(v, pid, hc, x),
        forall|x: NodeId|
            #![trigger w.contains_key(x)]
            w.contains_key(x) <==> v.contains_key(x) && (in_subtree(v, pid, hc, x) ==> in_subtree(
                w,
                pid,
                hc,
                x,
            )),
        forall|x: NodeId|
            #![trigger w[x]]
            v.contains_key(x) && !in_subtree(v, pid, hc, x) ==> w[x] == v[x],
        forall|q: Seq<u8>|
            #![trigger lookup(w, pid, hc, q)]
            !(changed && q == dk) ==> lookup(w, pid, hc, q) == lookup(v, pid, hc, q),
        !w[pid].pack.has(k),
        0 <= w[pid].pack.child_idx(k) < w[pid].children.len() ==> w[w[pid].children[w[pid].pack.child_idx(
            k,
        )]].pack.len() >= st.minimum_degree && (cl ==> clear_from(
            w,
            w[pid].children[w[pid].pack.child_idx(k)],
            (hc - 1) as nat,
            k,
            st.minimum_degree as int,
        )),
    ensures
        0 <= w[pid].pack.child_idx(k) < w[pid].children.len(),
        del_ok(
            w,
            st,
            h,
            k,
            w[pid].children[w[pid].pack.child_idx(k)],
            (hc - 1) as nat,
            lo_of(w[pid].pack, w[pid].pack.child_idx(k), clo),
            hi_of(w[pid].pack, w[pid].pack.child_idx(k), chi),
            cl,
        ),
        forall|q: Seq<u8>|
            #![trigger lookup(w, st.root.unwrap(), h, q)]
            !(changed && q == dk) ==> lookup(w, st.root.unwrap(), h, q) == lookup(
                v,
                st.root.unwrap(),
                h,
                q,
            ),
        w[pid].children[w[pid].pack.child_idx(k)] != pid,
{
    let t = st.minimum_degree as int;
    lemma_cursor_facts(v, st, h, k, pid, hc, clo, chi);
    assert forall|x: NodeId|
        #![trigger in_subtree(w, pid, hc, x)]
        in_subtree(w, pid, hc, x) implies (in_subtree(v, pid, hc, x) || !v.contains_key(x)) && x
            < st.next_node_id by {
        lemma_in_subtree_known(w, pid, hc, clo, chi, t, min_keys(h, hc, t), x);
    }
    assert forall|x: NodeId|
        #![trigger in_subtree(w, pid, hc, x)]
        #![trigger in_subtree(v, pid, hc, x)]
        in_subtree(v, pid, hc, x) implies (w.contains_key(x) <==> in_subtree(w, pid, hc, x)) by {
        if in_subtree(w, pid, hc, x) {
            lemma_in_subtree_known(w, pid, hc, clo, chi, t, min_keys(h, hc, t), x);
        }
    }
    lemma_cursor_replace(v, w, st, st, h, k, pid, hc, clo, chi);
    lemma_cursor_down(w, st, h, k, pid, hc, clo, chi);
}

/// The root the walk stands at gives way to one of its children, under
/// which there is a well-formed tree made of nodes of the old one, and in
/// which a search finds what it found in the old tree except at the key `dk`.
pub proof fn lemma_del_collapse(
    v: Nodes,
    w: Nodes,
    st: State,
    h: nat,
    k: Seq<u8>,
    pid: NodeId,
    next: NodeId,
    dk: Seq<u8>,
    changed: bool,
    cl: bool,
)
    requires
        del_ok(v, st, h, k, pid, h, None, None, cl),
        h >= 2,
        subtree_wf(w, next, (h - 1) as nat, None, None, st.minimum_degree as int, 1),
        forall|x: NodeId|
            #![trigger w.contains_key(x)]
            w.contains_key(x) <==> in_subtree(w, next, (h - 1) as nat, x),
        forall|x: NodeId|
            #![trigger in_subtree(w, next, (h - 1) as nat, x)]
            in_subtree(w, next, (h - 1) as nat, x) ==> v.contains_key(x),
        forall|q: Seq<u8>|
            #![trigger lookup(w, next, (h - 1) as nat, q)]
            !(changed && q == dk) ==> lookup(w, next, (h - 1) as nat, q) == lookup(v, pid, h, q),
        cl ==> clear_from(w, next, (h - 1) as nat, k, st.minimum_degree as int),
    ensures
        del_ok(
            w,
            State { root: Some(next), ..st },
            (h - 1) as nat,
            k,
            next,
            (h - 1) as nat,
            None,
            None,
            cl,
        ),
        st.root == Some(pid),
        forall|q: Seq<u8>|
            #![trigger lookup(w, next, (h - 1) as nat, q)]
            !(changed && q == dk) ==> lookup(w, next, (h - 1) as nat, q) == lookup(
                v,
                st.root.unwrap(),
                h,
                q,
            ),
{
    reveal(cursor_ok);
    reveal(tree_wf);
}

/// A node `m` holds the keys and children of the node `c` from the index
/// `off` on: a key of `c` has in `m` the children around it that it has in
/// `c`.
proof fn lemma_around(c: NodeModel, m: NodeModel, k: Seq<u8>, off: int)
    requires
        c.pack.wf(),
        m.pack.wf(),
        c.pack.has(k),
        0 <= off,
        c.pack.pos(k) + off < m.pack.keys.len(),
        m.pack.keys[c.pack.pos(k) + off] == k,
        c.pack.pos(k) + 1 < c.children.len(),
        c.pack.pos(k) + off + 1 < m.children.len(),
        m.children[c.pack.pos(k) + off] == c.children[c.pack.pos(k)],
        m.children[c.pack.pos(k) + off + 1] == c.children[c.pack.pos(k) + 1],
    ensures
        m.pack.has(k),
        c.pack.child_idx(k) >= 1,
        m.pack.child_idx(k) == c.pack.child_idx(k) + off,
        m.children[m.pack.child_idx(k) - 1] == c.children[c.pack.child_idx(k) - 1],
        m.children[m.pack.child_idx(k)] == c.children[c.pack.child_idx(k)],
{
    let i = c.pack.pos(k);
    assert(0 <= i < c.pack.keys.len() && c.pack.keys[i] == k);
    crate::pack::lemma_located_found(c.pack, k, i);
    crate::pack::lemma_located_found(m.pack, k, i + off);
}

/// The way of a deletion is clear from a changed node down, given that it
/// was clear from the node that was there before: the two nodes have or
/// have not the key alike, and the children on the way, which have not
/// changed, are the same.
pub proof fn lemma_clear_child(
    v: Nodes,
    w: Nodes,
    cold: NodeId,
    next: NodeId,
    g: nat,
    lo: Bound,
    hi: Bound,
    t: int,
    k: Seq<u8>,
)
    requires
        clear_from(v, cold, g, k, t),
        subtree_wf(v, cold, g, lo, hi, t, t - 1),
        w.contains_key(next),
        w[next].pack.has(k) <==> v[cold].pack.has(k),
        g > 2 ==> 0 <= w[next].pack.child_idx(k) < w[next].children.len(),
        g > 2 ==> w[next].children[w[next].pack.child_idx(k)]
            == v[cold].children[v[cold].pack.child_idx(k)],
        g > 2 && v[cold].pack.has(k) ==> w[next].pack.child_idx(k) >= 1
            && w[next].children[w[next].pack.child_idx(k) - 1]
            == v[cold].children[v[cold].pack.child_idx(k) - 1],
        forall|x: NodeId|
            #![trigger w.contains_key(x)]
            #![trigger in_subtree(v, cold, g, x)]
            in_subtree(v, cold, g, x) && x != cold ==> w.contains_key(x) && w[x] == v[x],
    ensures
        clear_from(w, next, g, k, t),
{
    if g > 2 {
        let i = v[cold].pack.child_idx(k);
        let gg = (g - 1) as nat;
        let d = v[cold].children[i];
        assert(!in_subtree(v, v[cold].children[i], gg, cold));
        if v[cold].pack.has(k) {
            let y = v[cold].children[i - 1];
            assert(!in_subtree(v, v[cold].children[i - 1], gg, cold));
            assert forall|x: NodeId|
                #![trigger in_subtree(v, y, gg, x)]
                #![trigger in_subtree(v, d, gg, x)]
                in_subtree(v, y, gg, x) || in_subtree(v, d, gg, x) implies w.contains_key(x) && w[x]
                    == v[x] by {
                if in_subtree(v, y, gg, x) {
                    assert(in_subtree(v, v[cold].children[i - 1], gg, x));
                } else {
                    assert(in_subtree(v, v[cold].children[i], gg, x));
                }
                assert(in_subtree(v, cold, g, x));
            }
            lemma_seam_frame(v, w, y, d, gg, t);
        } else {
            assert forall|x: NodeId| #[trigger] in_subtree(v, d, gg, x) implies w.contains_key(x)
                && w[x] == v[x] by {
                assert(in_subtree(v, v[cold].children[i], gg, x));
                assert(in_subtree(v, cold, g, x));
            }
            lemma_clear_frame(v, w, d, gg, k, t);
        }
    }
}

/// The child the walk would go on to cannot spare a key, and the child
/// behind it can: after the rotation of a key from that child, the walk goes
/// on to the child it would have gone on to, and a search finds what it
/// found before.
#[verifier::rlimit(60)]
#[verifier::spinoff_prover]
pub proof fn lemma_del_rotate_right(
    v: Nodes,
    st: State,
    h: nat,
    k: Seq<u8>,
    pid: NodeId,
    hc: nat,
    clo: Bound,
    chi: Bound,
    cl: bool,
)
    requires
        del_ok(v, st, h, k, pid, hc, clo, chi, cl),
        hc >= 2,
        !v[pid].pack.has(k),
        v[pid].pack.child_idx(k) + 1 < v[pid].children.len(),
        v[v[pid].children[v[pid].pack.child_idx(k)]].pack.len() == st.minimum_degree - 1,
        v[v[pid].children[v[pid].pack.child_idx(k) + 1]].pack.len() >= st.minimum_degree,
    ensures
        stepped(rotate_right_nodes(v, pid, v[pid].pack.child_idx(k)), st, h, k, pid, hc, clo, chi, cl),
        rotate_right_nodes(v, pid, v[pid].pack.child_idx(k))[pid].children[rotate_right_nodes(
            v,
            pid,
            v[pid].pack.child_idx(k),
        )[pid].pack.child_idx(k)] == v[pid].children[v[pid].pack.child_idx(k)],
        same_lookups(
            rotate_right_nodes(v, pid, v[pid].pack.child_idx(k)),
            st.root.unwrap(),
            h,
            v,
            st.root.unwrap(),
            h,
            None,
        ),
{
    let t = st.minimum_degree as int;
    let i = v[pid].pack.child_idx(k);
    let w = rotate_right_nodes(v, pid, i);
    let c = v[pid].children[i];
    let s = v[pid].children[i + 1];
    let g = (hc - 1) as nat;
    let pm = min_keys(h, hc, t);
    lemma_cursor_gap(v, st, h, k, pid, hc, clo, chi);
    lemma_cursor_facts(v, st, h, k, pid, hc, clo, chi);
    lemma_rotate_right(v, pid, hc, clo, chi, t, pm, i);
    let dk = v[pid].pack.keys[i];
    let ak = v[s].pack.keys[0];
    assert(in_subtree(v, pid, hc, pid));
    assert(subtree_wf(v, c, g, lo_of(v[pid].pack, i, clo), hi_of(v[pid].pack, i, chi), t, t - 1));
    assert(subtree_wf(v, s, g, lo_of(v[pid].pack, i + 1, clo), hi_of(v[pid].pack, i + 1, chi), t, t - 1));
    assert(in_subtree(v, c, g, c) && in_subtree(v, s, g, s));
    assert(in_subtree(v, pid, hc, c) && in_subtree(v, pid, hc, s)) by {
        assert(in_subtree(v, v[pid].children[i], g, c));
        assert(in_subtree(v, v[pid].children[i + 1], g, s));
    }
    assert(!in_subtree(v, v[pid].children[i], g, pid));
    assert(!in_subtree(v, v[pid].children[i + 1], g, c));
    assert(!in_subtree(v, v[pid].children[i], g, s));
    assert forall|x: NodeId| #![trigger w.contains_key(x)] w.contains_key(x) <==> v.contains_key(x)
        && (in_subtree(v, pid, hc, x) ==> in_subtree(w, pid, hc, x)) by {
        lemma_in_subtree_known(v, pid, hc, clo, chi, t, pm, c);
        lemma_in_subtree_known(v, pid, hc, clo, chi, t, pm, s);
    }
    assert(w[pid].pack.child_idx(k) == i && !w[pid].pack.has(k));
    assert(w[pid].children[i] == c);
    // Where the key stands under the child that has taken a key in
    assert(cl ==> clear_from(w, c, g, k, t)) by {
        if cl && g > 2 {
            assert(clear_from(v, c, g, k, t));
            assert(subtree_wf(
                w,
                w[pid].children[i],
                g,
                lo_of(w[pid].pack, i, clo),
                hi_of(w[pid].pack, i, chi),
                t,
                t - 1,
            ));
            lemma_child_idx_split(v[c].pack, k);
            lemma_child_idx_split(w[c].pack, k);
            assert(w[c].pack.has(k) <==> v[c].pack.has(k));
            assert(w[c].children[w[c].pack.child_idx(k)] == v[c].children[v[c].pack.child_idx(k)]);
            assert(w[c].children.len() == w[c].pack.len() + 1);
            if v[c].pack.has(k) {
                let n = v[c].pack.keys.len() as int;
                let pos = v[c].pack.pos(k);
                assert(0 <= pos < n && v[c].pack.keys[pos] == k);
                assert(below(Some(dk), v[c].pack.keys[n - 1]));
                crate::pack::lemma_insert_between(v[c].pack, n, dk, v[pid].pack.payloads[i]);
                assert(w[c].pack.keys[pos] == k);
                lemma_around(v[c], w[c], k, 0);
            }
            assert forall|x: NodeId|
                #![trigger w.contains_key(x)]
                #![trigger in_subtree(v, c, g, x)]
                in_subtree(v, c, g, x) && x != c implies w.contains_key(x) && w[x] == v[x] by {
                lemma_in_subtree_known(v, c, g, lo_of(v[pid].pack, i, clo), hi_of(v[pid].pack, i, chi), t, t - 1, x);
                assert(in_subtree(v, v[pid].children[i], g, x));
                assert(!in_subtree(v, v[pid].children[i + 1], g, x));
            }
            lemma_clear_child(
                v,
                w,
                c,
                c,
                g,
                lo_of(v[pid].pack, i, clo),
                hi_of(v[pid].pack, i, chi),
                t,
                k,
            );
        }
    }
    lemma_del_advance(v, w, st, h, k, pid, hc, clo, chi, dk, false, cl);
}

/// The child the walk would go on to cannot spare a key, and the child
/// before it can: after the rotation of a key from that child, the walk goes
/// on to the child it would have gone on to, and a search finds what it
/// found before.
#[verifier::rlimit(60)]
#[verifier::spinoff_prover]
pub proof fn lemma_del_rotate_left(
    v: Nodes,
    st: State,
    h: nat,
    k: Seq<u8>,
    pid: NodeId,
    hc: nat,
    clo: Bound,
    chi: Bound,
    cl: bool,
)
    requires
        del_ok(v, st, h, k, pid, hc, clo, chi, cl),
        hc >= 2,
        !v[pid].pack.has(k),
        v[pid].pack.child_idx(k) >= 1,
        v[v[pid].children[v[pid].pack.child_idx(k)]].pack.len() == st.minimum_degree - 1,
        v[v[pid].children[v[pid].pack.child_idx(k) - 1]].pack.len() >= st.minimum_degree,
    ensures
        stepped(rotate_left_nodes(v, pid, v[pid].pack.child_idx(k)), st, h, k, pid, hc, clo, chi, cl),
        rotate_left_nodes(v, pid, v[pid].pack.child_idx(k))[pid].children[rotate_left_nodes(
            v,
            pid,
            v[pid].pack.child_idx(k),
        )[pid].pack.child_idx(k)] == v[pid].children[v[pid].pack.child_idx(k)],
        same_lookups(
            rotate_left_nodes(v, pid, v[pid].pack.child_idx(k)),
            st.root.unwrap(),
            h,
            v,
            st.root.unwrap(),
            h,
            None,
        ),
{
    let t = st.minimum_degree as int;
    let i = v[pid].pack.child_idx(k);
    let w = rotate_left_nodes(v, pid, i);
    let c = v[pid].children[i];
    let l = v[pid].children[i - 1];
    let g = (hc - 1) as nat;
    let pm = min_keys(h, hc, t);
    lemma_cursor_gap(v, st, h, k, pid, hc, clo, chi);
    lemma_cursor_facts(v, st, h, k, pid, hc, clo, chi);
    lemma_rotate_left(v, pid, hc, clo, chi, t, pm, i);
    let dk = v[pid].pack.keys[i - 1];
    let ak = v[l].pack.keys.last();
    assert(in_subtree(v, pid, hc, pid));
    assert(subtree_wf(v, c, g, lo_of(v[pid].pack, i, clo), hi_of(v[pid].pack, i, chi), t, t - 1));
    assert(subtree_wf(v, l, g, lo_of(v[pid].pack, i - 1, clo), hi_of(v[pid].pack, i - 1, chi), t, t - 1));
    assert(in_subtree(v, c, g, c) && in_subtree(v, l, g, l));
    assert(in_subtree(v, pid, hc, c) && in_subtree(v, pid, hc, l)) by {
        assert(in_subtree(v, v[pid].children[i], g, c));
        assert(in_subtree(v, v[pid].children[i - 1], g, l));
    }
    assert(!in_subtree(v, v[pid].children[i], g, pid));
    assert(!in_subtree(v, v[pid].children[i], g, l));
    assert(!in_subtree(v, v[pid].children[i - 1], g, c));
    assert forall|x: NodeId| #![trigger w.contains_key(x)] w.contains_key(x) <==> v.contains_key(x)
        && (in_subtree(v, pid, hc, x) ==> in_subtree(w, pid, hc, x)) by {
        lemma_in_subtree_known(v, pid, hc, clo, chi, t, pm, c);
        lemma_in_subtree_known(v, pid, hc, clo, chi, t, pm, l);
    }
    assert(w[pid].pack.child_idx(k) == i && !w[pid].pack.has(k));
    assert(w[pid].children[i] == c);
    assert(cl ==> clear_from(w, c, g, k, t)) by {
        if cl && g > 2 {
            assert(clear_from(v, c, g, k, t));
            assert(subtree_wf(
                w,
                w[pid].children[i],
                g,
                lo_of(w[pid].pack, i, clo),
                hi_of(w[pid].pack, i, chi),
                t,
                t - 1,
            ));
            lemma_child_idx_split(v[c].pack, k);
            lemma_child_idx_split(w[c].pack, k);
            assert(w[c].pack.has(k) <==> v[c].pack.has(k));
            assert(w[c].children[w[c].pack.child_idx(k)] == v[c].children[v[c].pack.child_idx(k)]);
            assert(w[c].children.len() == w[c].pack.len() + 1);
            if v[c].pack.has(k) {
                let pos = v[c].pack.pos(k);
                assert(0 <= pos < v[c].pack.keys.len() && v[c].pack.keys[pos] == k);
                assert(above(Some(dk), v[c].pack.keys[0]));
                crate::pack::lemma_insert_between(v[c].pack, 0, dk, v[pid].pack.payloads[i - 1]);
                assert(w[c].pack.keys[pos + 1] == k);
                lemma_around(v[c], w[c], k, 1);
            }
            assert forall|x: NodeId|
                #![trigger w.contains_key(x)]
                #![trigger in_subtree(v, c, g, x)]
                in_subtree(v, c, g, x) && x != c implies w.contains_key(x) && w[x] == v[x] by {
                lemma_in_subtree_known(v, c, g, lo_of(v[pid].pack, i, clo), hi_of(v[pid].pack, i, chi), t, t - 1, x);
                assert(in_subtree(v, v[pid].children[i], g, x));
                assert(!in_subtree(v, v[pid].children[i - 1], g, x)) by {
                    if in_subtree(v, v[pid].children[i - 1], g, x) {
                        assert(!in_subtree(v, v[pid].children[i], g, x));
                    }
                }
            }
            lemma_clear_child(
                v,
                w,
                c,
                c,
                g,
                lo_of(v[pid].pack, i, clo),
                hi_of(v[pid].pack, i, chi),
                t,
                k,
            );
        }
    }
    lemma_del_advance(v, w, st, h, k, pid, hc, clo, chi, dk, false, cl);
}

/// The two children around the key at `j` of the node `pid` have become
/// one through that key: where the way of the deletion of the key was clear
/// from the node down, it is clear from the merged child down.
proof fn lemma_clear_merged(
    v: Nodes,
    w: Nodes,
    pid: NodeId,
    hc: nat,
    lo: Bound,
    hi: Bound,
    t: int,
    min: int,
    j: int,
    dp: u64,
)
    requires
        subtree_wf(v, pid, hc, lo, hi, t, min),
        hc >= 2,
        0 <= j < v[pid].pack.len(),
        clear_from(v, pid, hc, v[pid].pack.keys[j], t),
        w.contains_key(v[pid].children[j]),
        w[v[pid].children[j]] == node_merge(
            v[v[pid].children[j]],
            v[pid].pack.keys[j],
            dp,
            v[v[pid].children[j + 1]],
        ),
        w[v[pid].children[j]].pack.wf(),
        forall|x: NodeId|
            #![trigger w.contains_key(x)]
            #![trigger in_subtree(v, pid, hc, x)]
            in_subtree(v, pid, hc, x) && x != pid && x != v[pid].children[j] && x
                != v[pid].children[j + 1] ==> w.contains_key(x) && w[x] == v[x],
    ensures
        clear_from(w, v[pid].children[j], (hc - 1) as nat, v[pid].pack.keys[j], t),
{
    let g = (hc - 1) as nat;
    if g > 2 {
        let p = v[pid];
        let k = p.pack.keys[j];
        let a = p.children[j];
        let b = p.children[j + 1];
        let gg = (g - 1) as nat;
        crate::pack::lemma_located_found(p.pack, k, j);
        assert(a == v[pid].children[j] && b == v[pid].children[j + 1]);
        assert(subtree_wf(v, a, g, lo_of(p.pack, j, lo), hi_of(p.pack, j, hi), t, t - 1));
        assert(subtree_wf(v, b, g, lo_of(p.pack, j + 1, lo), hi_of(p.pack, j + 1, hi), t, t - 1));
        assert(seam(v, a, b, g, t));
        let y = v[a].children.last();
        let z = v[b].children[0];
        assert(seam(v, y, z, gg, t));
        // where the key stands in the merged child
        let na = v[a].pack.keys.len() as int;
        if na > 0 {
            assert(below(Some(k), v[a].pack.keys[na - 1]));
        }
        crate::pack::lemma_insert_between(v[a].pack, na, k, dp);
        let m = w[a];
        assert(m.pack.keys[na] == k);
        crate::pack::lemma_located_found(m.pack, k, na);
        assert(m.children[na] == y);
        assert(m.children[na + 1] == z);
        // the nodes under the two children that now stand around the key
        assert(in_subtree(v, a, g, a) && in_subtree(v, b, g, b));
        assert(!in_subtree(v, v[pid].children[j], g, pid));
        assert(!in_subtree(v, v[pid].children[j + 1], g, pid));
        assert(!in_subtree(v, v[a].children[na], gg, a));
        assert(!in_subtree(v, v[b].children[0], gg, b));
        assert forall|x: NodeId|
            #![trigger in_subtree(v, y, gg, x)]
            #![trigger in_subtree(v, z, gg, x)]
            in_subtree(v, y, gg, x) || in_subtree(v, z, gg, x) implies w.contains_key(x) && w[x]
                == v[x] by {
            if in_subtree(v, y, gg, x) {
                assert(in_subtree(v, v[a].children[na], gg, x));
                assert(in_subtree(v, a, g, x));
                assert(in_subtree(v, v[pid].children[j], g, x));
                assert(!in_subtree(v, v[pid].children[j + 1], g, x));
            } else {
                assert(in_subtree(v, v[b].children[0], gg, x));
                assert(in_subtree(v, b, g, x));
                assert(in_subtree(v, v[pid].children[j + 1], g, x));
                if x == a {
                    assert(in_subtree(v, v[pid].children[j], g, x));
                }
            }
            assert(in_subtree(v, pid, hc, x));
        }
        lemma_seam_frame(v, w, y, z, gg, t);
    }
}

/// The children at `j` and `j + 1` of the node the walk has come to, the
/// key to delete being the key between them or a key under one of them,
/// become one through that key, which gets the payload `dp`: the walk goes on
/// to the merged child, and a search finds what it found before at every key
/// but the one that went down.
#[verifier::rlimit(60)]
#[verifier::spinoff_prover]
pub proof fn lemma_del_join(
    v: Nodes,
    st: State,
    h: nat,
    k: Seq<u8>,
    pid: NodeId,
    hc: nat,
    clo: Bound,
    chi: Bound,
    j: int,
    dp: u64,
    cl: bool,
)
    requires
        del_ok(v, st, h, k, pid, hc, clo, chi, cl),
        hc >= 2,
        0 <= j < v[pid].pack.len(),
        v[pid].pack.len() >= 2,
        in_gap(v[pid].pack, j, k),
        k == v[pid].pack.keys[j] || !v[pid].pack.has(k),
        v[v[pid].children[j]].pack.len() + 1 + v[v[pid].children[j + 1]].pack.len() <= 2
            * st.minimum_degree - 1,
        v[v[pid].children[j]].pack.len() + 1 + v[v[pid].children[j + 1]].pack.len()
            >= st.minimum_degree,
    ensures
        stepped(join_nodes(v, pid, j, dp), st, h, k, pid, hc, clo, chi, cl),
        join_nodes(v, pid, j, dp)[pid].children[join_nodes(v, pid, j, dp)[pid].pack.child_idx(k)]
            == v[pid].children[j],
        same_lookups(
            join_nodes(v, pid, j, dp),
            st.root.unwrap(),
            h,
            v,
            st.root.unwrap(),
            h,
            if dp == v[pid].pack.payloads[j] {
                None
            } else {
                Some(v[pid].pack.keys[j])
            },
        ),
        join_nodes(v, pid, j, dp)[v[pid].children[j]].pack.has(v[pid].pack.keys[j]),
        join_nodes(v, pid, j, dp)[pid].pack.len() == v[pid].pack.len() - 1,
{
    let t = st.minimum_degree as int;
    let p = v[pid];
    let w = join_nodes(v, pid, j, dp);
    let a = p.children[j];
    let b = p.children[j + 1];
    let g = (hc - 1) as nat;
    let pm = min_keys(h, hc, t);
    let dk = p.pack.keys[j];
    reveal(cursor_ok);
    lemma_cursor_facts(v, st, h, k, pid, hc, clo, chi);
    lemma_join(v, pid, hc, clo, chi, t, pm, j, dp);
    assert(in_subtree(v, pid, hc, pid));
    assert(a == v[pid].children[j] && b == v[pid].children[j + 1]);
    assert(subtree_wf(v, a, g, lo_of(p.pack, j, clo), hi_of(p.pack, j, chi), t, t - 1));
    assert(subtree_wf(v, b, g, lo_of(p.pack, j + 1, clo), hi_of(p.pack, j + 1, chi), t, t - 1));
    assert(in_subtree(v, a, g, a) && in_subtree(v, b, g, b));
    assert(in_subtree(v, pid, hc, a)) by {
        assert(in_subtree(v, v[pid].children[j], g, a));
    }
    assert(!in_subtree(v, v[pid].children[j], g, pid));
    assert(!in_subtree(v, v[pid].children[j + 1], g, pid));
    assert(!in_subtree(v, v[pid].children[j + 1], g, a));
    assert(!in_subtree(v, v[pid].children[j], g, b));
    assert forall|x: NodeId| #![trigger w.contains_key(x)] w.contains_key(x) <==> v.contains_key(x)
        && (in_subtree(v, pid, hc, x) ==> in_subtree(w, pid, hc, x)) by {
        lemma_in_subtree_known(v, pid, hc, clo, chi, t, pm, a);
        lemma_in_subtree_known(v, pid, hc, clo, chi, t, pm, b);
    }
    assert(w[pid].pack.child_idx(k) == j && !w[pid].pack.has(k));
    assert(w[pid].children[j] == a);
    crate::pack::lemma_pos_is(p.pack, dk, j);
    assert(lookup(v, pid, hc, dk) == Some(p.pack.payloads[j]));
    assert(cl ==> clear_from(w, a, g, k, t)) by {
        if cl && g > 2 && k == dk {
            assert(subtree_wf(
                w,
                w[pid].children[j],
                g,
                lo_of(w[pid].pack, j, clo),
                hi_of(w[pid].pack, j, chi),
                t,
                t - 1,
            ));
            assert forall|x: NodeId|
                #![trigger w.contains_key(x)]
                #![trigger in_subtree(v, pid, hc, x)]
                in_subtree(v, pid, hc, x) && x != pid && x != a && x != b implies w.contains_key(x)
                    && w[x] == v[x] by {
                lemma_in_subtree_known(v, pid, hc, clo, chi, t, pm, x);
            }
            lemma_clear_merged(v, w, pid, hc, clo, chi, t, pm, j, dp);
        } else if cl && g > 2 {
            // the key is not in the node, and stands under one of the two children
            let cold = if key_lt(k, dk) { a } else { b };
            lemma_cursor_gap(v, st, h, k, pid, hc, clo, chi);
            let i = p.pack.child_idx(k);
            crate::rebalance::lemma_gap_lookup(v, pid, hc, clo, chi, t, pm, j, k);
            assert(cold == v[pid].children[i]);
            assert(clear_from(v, cold, g, k, t));
            assert(subtree_wf(
                w,
                w[pid].children[j],
                g,
                lo_of(w[pid].pack, j, clo),
                hi_of(w[pid].pack, j, chi),
                t,
                t - 1,
            ));
            lemma_child_idx_split(v[cold].pack, k);
            lemma_child_idx_split(w[a].pack, k);
            assert(w[a].pack.has(k) <==> v[cold].pack.has(k));
            assert(w[a].children[w[a].pack.child_idx(k)] == v[cold].children[v[cold].pack.child_idx(
                k,
            )]);
            assert(w[a].children.len() == w[a].pack.len() + 1);
            if v[cold].pack.has(k) {
                let na = v[a].pack.keys.len() as int;
                let pos = v[cold].pack.pos(k);
                assert(0 <= pos < v[cold].pack.keys.len() && v[cold].pack.keys[pos] == k);
                if na > 0 {
                    assert(below(Some(dk), v[a].pack.keys[na - 1]));
                }
                crate::pack::lemma_insert_between(v[a].pack, na, dk, dp);
                if cold == a {
                    assert(w[a].pack.keys[pos] == k);
                    lemma_around(v[cold], w[a], k, 0);
                } else {
                    assert(w[a].pack.keys[na + 1 + pos] == k);
                    assert(w[a].children[na + 1 + pos] == v[b].children[pos]);
                    assert(w[a].children[na + 1 + pos + 1] == v[b].children[pos + 1]);
                    lemma_around(v[cold], w[a], k, na + 1);
                }
            }
            assert forall|x: NodeId|
                #![trigger w.contains_key(x)]
                #![trigger in_subtree(v, cold, g, x)]
                in_subtree(v, cold, g, x) && x != cold implies w.contains_key(x) && w[x] == v[x] by {
                lemma_in_subtree_known(v, cold, g, lo_of(p.pack, i, clo), hi_of(p.pack, i, chi), t, t - 1, x);
                assert(in_subtree(v, v[pid].children[i], g, x));
                if cold == a {
                    assert(!in_subtree(v, v[pid].children[j + 1], g, x));
                } else {
                    if in_subtree(v, v[pid].children[j], g, x) {
                        assert(!in_subtree(v, v[pid].children[j + 1], g, x));
                    }
                }
            }
            lemma_clear_child(v, w, cold, a, g, lo_of(p.pack, i, clo), hi_of(p.pack, i, chi), t, k);
        }
    }
    lemma_del_advance(v, w, st, h, k, pid, hc, clo, chi, dk, dp != p.pack.payloads[j], cl);
}

/// The root the walk stands at has one key, the key to delete being that
/// key or a key under one of its two children: the children become one
/// through that key, which gets the payload `dp`, and the merged child
/// becomes the root. A search finds what it found before at every key but
/// the one that went down.
#[verifier::rlimit(60)]
#[verifier::spinoff_prover]
pub proof fn lemma_del_join_root(
    v: Nodes,
    st: State,
    h: nat,
    k: Seq<u8>,
    pid: NodeId,
    dp: u64,
    cl: bool,
)
    requires
        del_ok(v, st, h, k, pid, h, None, None, cl),
        h >= 2,
        v[pid].pack.len() == 1,
        k == v[pid].pack.keys[0] || !v[pid].pack.has(k),
        v[v[pid].children[0]].pack.len() + 1 + v[v[pid].children[1]].pack.len() <= 2
            * st.minimum_degree - 1,
    ensures
        st.root == Some(pid),
        del_ok(
            join_root_nodes(v, pid, dp),
            State { root: Some(v[pid].children[0]), ..st },
            (h - 1) as nat,
            k,
            v[pid].children[0],
            (h - 1) as nat,
            None,
            None,
            cl,
        ),
        same_lookups(
            join_root_nodes(v, pid, dp),
            v[pid].children[0],
            (h - 1) as nat,
            v,
            pid,
            h,
            if dp == v[pid].pack.payloads[0] {
                None
            } else {
                Some(v[pid].pack.keys[0])
            },
        ),
        join_root_nodes(v, pid, dp)[v[pid].children[0]].pack.has(v[pid].pack.keys[0]),
        join_root_nodes(v, pid, dp)[v[pid].children[0]].pack.len() >= 2,
{
    let t = st.minimum_degree as int;
    let p = v[pid];
    let w = join_root_nodes(v, pid, dp);
    let a = p.children[0];
    let b = p.children[1];
    let g = (h - 1) as nat;
    let dk = p.pack.keys[0];
    reveal(cursor_ok);
    reveal(tree_wf);
    lemma_cursor_facts(v, st, h, k, pid, h, None, None);
    assert(st.root == Some(pid));
    lemma_join_root(v, pid, h, t, dp);
    assert(in_subtree(v, pid, h, pid));
    assert(a == v[pid].children[0] && b == v[pid].children[1]);
    assert(subtree_wf(v, a, g, lo_of(p.pack, 0, None), hi_of(p.pack, 0, None), t, t - 1));
    assert(subtree_wf(v, b, g, lo_of(p.pack, 1, None), hi_of(p.pack, 1, None), t, t - 1));
    v[a].pack.lemma_insert_wf(p.pack.keys[0], dp);
    assert(in_subtree(v, a, g, a) && in_subtree(v, b, g, b));
    assert(!in_subtree(v, v[pid].children[0], g, pid));
    assert(!in_subtree(v, v[pid].children[1], g, pid));
    assert(!in_subtree(v, v[pid].children[1], g, a));
    assert(!in_subtree(v, v[pid].children[0], g, b));
    crate::pack::lemma_pos_is(p.pack, dk, 0);
    assert(lookup(v, pid, h, dk) == Some(p.pack.payloads[0]));
    assert forall|x: NodeId| #![trigger w.contains_key(x)] w.contains_key(x) <==> in_subtree(
        w,
        a,
        g,
        x,
    ) by {}
    assert(cl ==> clear_from(w, a, g, k, t)) by {
        if cl && g > 2 && k == dk {
            assert forall|x: NodeId|
                #![trigger w.contains_key(x)]
                #![trigger in_subtree(v, pid, h, x)]
                in_subtree(v, pid, h, x) && x != pid && x != a && x != b implies w.contains_key(x)
                    && w[x] == v[x] by {
                lemma_in_subtree_known(v, pid, h, None, None, t, 1, x);
            }
            lemma_clear_merged(v, w, pid, h, None, None, t, 1, 0, dp);
        } else if cl && g > 2 {
            let cold = if key_lt(k, dk) { a } else { b };
            lemma_child_idx_split(p.pack, k);
            let i = p.pack.child_idx(k);
            if key_lt(k, dk) {
                lemma_key_lt_asymmetric(k, dk);
            } else {
                assert(!key_lt(k, p.pack.keys[0]));
            }
            assert(cold == v[pid].children[i]);
            assert(clear_from(v, cold, g, k, t));
            lemma_child_idx_split(v[cold].pack, k);
            lemma_child_idx_split(w[a].pack, k);
            assert(w[a].pack.has(k) <==> v[cold].pack.has(k));
            assert(w[a].children[w[a].pack.child_idx(k)] == v[cold].children[v[cold].pack.child_idx(
                k,
            )]);
            assert(w[a].children.len() == w[a].pack.len() + 1);
            if v[cold].pack.has(k) {
                let na = v[a].pack.keys.len() as int;
                let pos = v[cold].pack.pos(k);
                assert(0 <= pos < v[cold].pack.keys.len() && v[cold].pack.keys[pos] == k);
                if na > 0 {
                    assert(below(Some(dk), v[a].pack.keys[na - 1]));
                }
                crate::pack::lemma_insert_between(v[a].pack, na, dk, dp);
                if cold == a {
                    assert(w[a].pack.keys[pos] == k);
                    lemma_around(v[cold], w[a], k, 0);
                } else {
                    assert(w[a].pack.keys[na + 1 + pos] == k);
                    assert(w[a].children[na + 1 + pos] == v[b].children[pos]);
                    assert(w[a].children[na + 1 + pos + 1] == v[b].children[pos + 1]);
                    lemma_around(v[cold], w[a], k, na + 1);
                }
            }
            assert forall|x: NodeId|
                #![trigger w.contains_key(x)]
                #![trigger in_subtree(v, cold, g, x)]
                in_subtree(v, cold, g, x) && x != cold implies w.contains_key(x) && w[x] == v[x] by {
                lemma_in_subtree_known(v, cold, g, lo_of(p.pack, i, None), hi_of(p.pack, i, None), t, t - 1, x);
                assert(in_subtree(v, v[pid].children[i], g, x));
                if cold == a {
                    assert(!in_subtree(v, v[pid].children[1], g, x));
                } else {
                    if in_subtree(v, v[pid].children[0], g, x) {
                        assert(!in_subtree(v, v[pid].children[1], g, x));
                    }
                }
            }
            lemma_clear_child(v, w, cold, a, g, lo_of(p.pack, i, None), hi_of(p.pack, i, None), t, k);
        }
    }
    lemma_del_collapse(v, w, st, h, k, pid, a, dk, dp != p.pack.payloads[0], cl);
}

/// The node `n` without the key `k`.
pub open spec fn node_del(n: NodeModel, k: Seq<u8>) -> NodeModel {
    NodeModel { leaf: n.leaf, pack: n.pack.remove(k), children: n.children }
}

/// The walk has come to a leaf that has the key. Without the key the leaf
/// is the leaf of a well-formed tree in which a search finds nothing at the
/// key and what it found before at every other key; or, where the key was
/// the only one of the tree, the tree is empty.
#[verifier::rlimit(60)]
#[verifier::spinoff_prover]
pub proof fn lemma_del_leaf(
    v: Nodes,
    st: State,
    h: nat,
    k: Seq<u8>,
    c: NodeId,
    clo: Bound,
    chi: Bound,
    cl: bool,
)
    requires
        del_ok(v, st, h, k, c, 1, clo, chi, cl),
        v[c].pack.has(k),
    ensures
        v[c].pack.len() >= 1,
        v[c].pack.len() >= 2 ==> tree_wf(v.insert(c, node_del(v[c], k)), st, h),
        v[c].pack.len() >= 2 ==> forall|q: Seq<u8>|
            #![trigger lookup(v.insert(c, node_del(v[c], k)), st.root.unwrap(), h, q)]
            lookup(v.insert(c, node_del(v[c], k)), st.root.unwrap(), h, q) == if q == k {
                None
            } else {
                lookup(v, st.root.unwrap(), h, q)
            },
        v[c].pack.len() == 1 ==> h == 1 && st.root == Some(c) && tree_wf(
            v.remove(c),
            State { root: None, ..st },
            0,
        ) && forall|q: Seq<u8>|
            #![trigger lookup(v, c, 1, q)]
            q != k ==> lookup(v, c, 1, q) is None,
        lookup(v, st.root.unwrap(), h, k) == v[c].pack.get(k),
{
    let t = st.minimum_degree as int;
    let n = v[c];
    let m = node_del(n, k);
    let w = v.insert(c, m);
    let pm = min_keys(h, 1, t);
    reveal(cursor_ok);
    lemma_cursor_facts(v, st, h, k, c, 1, clo, chi);
    lemma_path_lookup(v, st.root.unwrap(), h, None, None, k, c, 1, clo, chi);
    n.pack.lemma_remove_wf(k);
    let i = n.pack.pos(k);
    assert(0 <= i < n.pack.keys.len() && n.pack.keys[i] == k);
    assert forall|q: Seq<u8>| m.pack.get(q) == if q == k {
        None
    } else {
        n.pack.get(q)
    } by {
        n.pack.lemma_remove_get(k, q);
    }
    if n.pack.len() >= 2 {
        assert forall|j: int| 0 <= j < m.pack.keys.len() implies above(clo, #[trigger] m.pack.keys[j])
            && below(chi, m.pack.keys[j]) by {
            let j0 = if j < i { j } else { j + 1 };
            assert(m.pack.keys[j] == n.pack.keys[j0]);
            assert(above(clo, n.pack.keys[j0]) && below(chi, n.pack.keys[j0]));
        }
        assert(subtree_wf(w, c, 1, clo, chi, t, pm));
        assert(in_subtree(v, c, 1, c));
        assert forall|x: NodeId| #![trigger in_subtree(w, c, 1, x)] in_subtree(w, c, 1, x) implies (
        in_subtree(v, c, 1, x) || !v.contains_key(x)) && x < st.next_node_id by {}
        lemma_cursor_replace(v, w, st, st, h, k, c, 1, clo, chi);
        assert forall|q: Seq<u8>|
            #![trigger lookup(w, st.root.unwrap(), h, q)]
            lookup(w, st.root.unwrap(), h, q) == if q == k {
                None
            } else {
                lookup(v, st.root.unwrap(), h, q)
            } by {
            assert(lookup(w, c, 1, q) == m.pack.get(q));
            assert(lookup(v, c, 1, q) == n.pack.get(q));
        }
    } else {
        reveal(tree_wf);
        assert(h == 1);
        let st2 = State { root: None, ..st };
        assert forall|x: NodeId| !v.remove(c).contains_key(x) by {
            if v.contains_key(x) {
                assert(in_subtree(v, c, 1, x));
            }
        }
        assert forall|q: Seq<u8>| #![trigger lookup(v, c, 1, q)] q != k implies lookup(v, c, 1, q) is None by {
            if n.pack.has(q) {
                let j = n.pack.pos(q);
                assert(0 <= j < n.pack.keys.len() && n.pack.keys[j] == q);
            }
        }
    }
}

/// The walk has come to a node just above the leaves that has the key, and
/// the leaf before the key can spare its last key: with that key in place of
/// the key to delete, and the leaf without it, the tree is well formed; a
/// search finds nothing at the key deleted and what it found before at every
/// other key.
#[verifier::rlimit(100)]
#[verifier::spinoff_prover]
pub proof fn lemma_del_swap_left(
    v: Nodes,
    st: State,
    h: nat,
    k: Seq<u8>,
    pid: NodeId,
    clo: Bound,
    chi: Bound,
    cl: bool,
)
    requires
        del_ok(v, st, h, k, pid, 2, clo, chi, cl),
        v[pid].pack.has(k),
        v[v[pid].children[v[pid].pack.pos(k)]].pack.len() >= st.minimum_degree,
    ensures
        ({
            let j = v[pid].pack.pos(k);
            let a = v[pid].children[j];
            let w = v.insert(
                pid,
                node_reseat(v[pid], j, v[a].pack.keys.last(), v[a].pack.payloads.last()),
            ).insert(a, node_del(v[a], v[a].pack.keys.last()));
            &&& tree_wf(w, st, h)
            &&& forall|q: Seq<u8>|
                #![trigger lookup(w, st.root.unwrap(), h, q)]
                lookup(w, st.root.unwrap(), h, q) == if q == k {
                    None
                } else {
                    lookup(v, st.root.unwrap(), h, q)
                }
            &&& a != pid
            &&& v.contains_key(a)
            &&& v[a].leaf
            &&& v[a].pack.len() >= 2
            &&& v[a].pack.has(v[a].pack.keys.last())
            &&& 0 <= j < v[pid].pack.len()
            &&& v[pid].pack.child_idx(k) == j + 1
            &&& lookup(v, st.root.unwrap(), h, k) == v[pid].pack.get(k)
        }),
{
    let t = st.minimum_degree as int;
    let p = v[pid];
    let j = p.pack.pos(k);
    let a = p.children[j];
    let b = p.children[j + 1];
    let na = v[a].pack.keys.len() as int;
    let nk = v[a].pack.keys[na - 1];
    let np = v[a].pack.payloads[na - 1];
    let w = v.insert(pid, node_reseat(p, j, nk, np)).insert(a, node_del(v[a], nk));
    let pm = min_keys(h, 2, t);
    reveal(cursor_ok);
    lemma_cursor_facts(v, st, h, k, pid, 2, clo, chi);
    lemma_path_lookup(v, st.root.unwrap(), h, None, None, k, pid, 2, clo, chi);
    assert(0 <= j < p.pack.keys.len() && p.pack.keys[j] == k);
    crate::pack::lemma_located_found(p.pack, k, j);
    assert(in_subtree(v, pid, 2, pid));
    assert(a == v[pid].children[j] && b == v[pid].children[j + 1]);
    let lo_a = lo_of(p.pack, j, clo);
    let hi_b = hi_of(p.pack, j + 1, chi);
    assert(subtree_wf(v, a, 1, lo_a, Some(k), t, t - 1));
    assert(subtree_wf(v, b, 1, Some(k), hi_b, t, t - 1));
    assert(in_subtree(v, a, 1, a) && in_subtree(v, b, 1, b));
    assert(!in_subtree(v, v[pid].children[j], 1, pid));
    assert(!in_subtree(v, v[pid].children[j + 1], 1, pid));
    assert(!in_subtree(v, v[pid].children[j + 1], 1, a));
    assert(a != pid && b != pid && a != b);
    lemma_take_is_trim(v[a]);
    assert(node_del(v[a], nk) == node_take_last(v[a]));
    crate::pack::lemma_pos_is(v[a].pack, nk, na - 1);
    assert(above(lo_a, nk) && below(Some(k), nk));
    assert(above(clo, k) && below(chi, k));
    if j + 1 < p.pack.keys.len() {
        assert(key_lt(p.pack.keys[j], p.pack.keys[j + 1]));
    }
    if hi_b is Some {
        crate::order::lemma_key_lt_transitive(nk, k, hi_b.unwrap());
    }
    lemma_trim(v, w, a, 1, lo_a, Some(k), t, t - 1, 0, na - 1, t - 1);
    // The leaf behind the key is as it was, and its keys are above the new key
    assert(w[b] == v[b]);
    assert forall|i: int| 0 <= i < v[b].pack.keys.len() implies above(
        Some(nk),
        #[trigger] v[b].pack.keys[i],
    ) by {
        assert(above(Some(k), v[b].pack.keys[i]));
        crate::order::lemma_key_lt_transitive(nk, k, v[b].pack.keys[i]);
    }
    assert(subtree_wf(w, b, 1, Some(nk), hi_b, t, t - 1));
    assert forall|x: NodeId|
        #![trigger w.contains_key(x)]
        #![trigger in_subtree(v, pid, 2, x)]
        in_subtree(v, pid, 2, x) && x != pid && !in_subtree(v, a, 1, x) && !in_subtree(
            v,
            b,
            1,
            x,
        ) implies w.contains_key(x) && w[x] == v[x] by {
        lemma_in_subtree_known(v, pid, 2, clo, chi, t, pm, x);
    }
    lemma_reseat(v, w, pid, 2, clo, chi, t, pm, j, nk, np);
    assert forall|x: NodeId| #![trigger in_subtree(w, pid, 2, x)] in_subtree(w, pid, 2, x)
        == in_subtree(v, pid, 2, x) by {
        if in_subtree(v, a, 1, x) || in_subtree(v, b, 1, x) {
            assert(in_subtree(v, pid, 2, x));
        }
    }
    assert forall|q: Seq<u8>| #![trigger lookup(w, pid, 2, q)] lookup(w, pid, 2, q) == if q == k {
        None
    } else {
        lookup(v, pid, 2, q)
    } by {
        lemma_lookup_ends(v, a, 1, lo_a, Some(k), t, t - 1, q);
        lemma_lookup_ends(v, b, 1, Some(k), hi_b, t, t - 1, q);
        lemma_key_lt_irreflexive(k);
        lemma_key_lt_asymmetric(nk, k);
        if in_gap(p.pack, j, q) {
            lemma_gap_lookup(v, pid, 2, clo, chi, t, pm, j, q);
            assert(key_lt(k, v[b].pack.keys[0])) by {
                assert(above(Some(k), v[b].pack.keys[0]));
            }
            if q == nk {
                assert(lookup(v, pid, 2, q) == Some(np));
            } else if key_lt(q, nk) {
                crate::order::lemma_key_lt_transitive(q, nk, k);
                lemma_key_lt_asymmetric(q, k);
                assert(lookup(w, a, 1, q) == lookup(v, a, 1, q));
                assert(lookup(w, pid, 2, q) == lookup(v, pid, 2, q));
            } else {
                if !key_lt(nk, q) {
                    crate::order::lemma_key_lt_connected(q, nk);
                }
                assert(lookup(w, b, 1, q) == lookup(v, b, 1, q));
                assert(lookup(w, pid, 2, q) == lookup(v, b, 1, q));
                if q == k {
                    assert(lookup(v, b, 1, q) is None);
                } else if key_lt(k, q) {
                    lemma_key_lt_asymmetric(k, q);
                    assert(lookup(v, pid, 2, q) == lookup(v, b, 1, q));
                } else {
                    if !key_lt(q, k) {
                        crate::order::lemma_key_lt_connected(q, k);
                    }
                    // nk < q < k: neither leaf has the key
                    crate::order::lemma_key_lt_transitive(q, k, v[b].pack.keys[0]);
                    assert(lookup(v, b, 1, q) is None);
                    assert(lookup(v, a, 1, q) is None);
                    assert(lookup(v, pid, 2, q) == lookup(v, a, 1, q));
                }
            }
        } else {
            if q == k {
                if j > 0 {
                    assert(key_lt(p.pack.keys[j - 1], p.pack.keys[j]));
                }
            }
        }
    }
    assert forall|x: NodeId| #![trigger in_subtree(w, pid, 2, x)] in_subtree(w, pid, 2, x) implies (
    in_subtree(v, pid, 2, x) || !v.contains_key(x)) && x < st.next_node_id by {
        lemma_in_subtree_known(v, pid, 2, clo, chi, t, pm, x);
    }
    assert forall|x: NodeId|
        #![trigger in_subtree(w, pid, 2, x)]
        #![trigger in_subtree(v, pid, 2, x)]
        in_subtree(v, pid, 2, x) implies (w.contains_key(x) <==> in_subtree(w, pid, 2, x)) by {
        lemma_in_subtree_known(v, pid, 2, clo, chi, t, pm, x);
    }
    lemma_in_subtree_known(v, a, 1, lo_a, Some(k), t, t - 1, a);
    lemma_cursor_replace(v, w, st, st, h, k, pid, 2, clo, chi);
    assert forall|q: Seq<u8>|
        #![trigger lookup(w, st.root.unwrap(), h, q)]
        lookup(w, st.root.unwrap(), h, q) == if q == k {
            None
        } else {
            lookup(v, st.root.unwrap(), h, q)
        } by {
        assert(lookup(w, pid, 2, q) == if q == k {
            None
        } else {
            lookup(v, pid, 2, q)
        });
    }
}

/// The walk has come to a node just above the leaves that has the key, and
/// the leaf behind the key can spare its first key: with that key in place
/// of the key to delete, and the leaf without it, the tree is well formed; a
/// search finds nothing at the key deleted and what it found before at every
/// other key.
#[verifier::rlimit(100)]
#[verifier::spinoff_prover]
pub proof fn lemma_del_swap_right(
    v: Nodes,
    st: State,
    h: nat,
    k: Seq<u8>,
    pid: NodeId,
    clo: Bound,
    chi: Bound,
    cl: bool,
)
    requires
        del_ok(v, st, h, k, pid, 2, clo, chi, cl),
        v[pid].pack.has(k),
        v[v[pid].children[v[pid].pack.pos(k) + 1]].pack.len() >= st.minimum_degree,
    ensures
        ({
            let j = v[pid].pack.pos(k);
            let b = v[pid].children[j + 1];
            let w = v.insert(pid, node_reseat(v[pid], j, v[b].pack.keys[0], v[b].pack.payloads[0])).insert(
                b,
                node_del(v[b], v[b].pack.keys[0]),
            );
            &&& tree_wf(w, st, h)
            &&& forall|q: Seq<u8>|
                #![trigger lookup(w, st.root.unwrap(), h, q)]
                lookup(w, st.root.unwrap(), h, q) == if q == k {
                    None
                } else {
                    lookup(v, st.root.unwrap(), h, q)
                }
            &&& b != pid
            &&& v.contains_key(b)
            &&& v[b].leaf
            &&& v[b].pack.len() >= 2
            &&& v[b].pack.has(v[b].pack.keys[0])
            &&& 0 <= j < v[pid].pack.len()
            &&& v[pid].pack.child_idx(k) == j + 1
            &&& lookup(v, st.root.unwrap(), h, k) == v[pid].pack.get(k)
        }),
{
    let t = st.minimum_degree as int;
    let p = v[pid];
    let j = p.pack.pos(k);
    let a = p.children[j];
    let b = p.children[j + 1];
    let nb = v[b].pack.keys.len() as int;
    let nk = v[b].pack.keys[0];
    let np = v[b].pack.payloads[0];
    let w = v.insert(pid, node_reseat(p, j, nk, np)).insert(b, node_del(v[b], nk));
    let pm = min_keys(h, 2, t);
    reveal(cursor_ok);
    lemma_cursor_facts(v, st, h, k, pid, 2, clo, chi);
    lemma_path_lookup(v, st.root.unwrap(), h, None, None, k, pid, 2, clo, chi);
    assert(0 <= j < p.pack.keys.len() && p.pack.keys[j] == k);
    crate::pack::lemma_located_found(p.pack, k, j);
    assert(in_subtree(v, pid, 2, pid));
    assert(a == v[pid].children[j] && b == v[pid].children[j + 1]);
    let lo_a = lo_of(p.pack, j, clo);
    let hi_b = hi_of(p.pack, j + 1, chi);
    assert(subtree_wf(v, a, 1, lo_a, Some(k), t, t - 1));
    assert(subtree_wf(v, b, 1, Some(k), hi_b, t, t - 1));
    assert(in_subtree(v, a, 1, a) && in_subtree(v, b, 1, b));
    assert(!in_subtree(v, v[pid].children[j], 1, pid));
    assert(!in_subtree(v, v[pid].children[j + 1], 1, pid));
    assert(!in_subtree(v, v[pid].children[j + 1], 1, a));
    assert(a != pid && b != pid && a != b);
    lemma_take_is_trim(v[b]);
    assert(node_del(v[b], nk) == node_take_first(v[b]));
    crate::pack::lemma_pos_is(v[b].pack, nk, 0);
    assert(above(Some(k), nk) && below(hi_b, nk));
    assert(above(clo, k) && below(chi, k));
    if j > 0 {
        assert(key_lt(p.pack.keys[j - 1], p.pack.keys[j]));
    }
    if lo_a is Some {
        crate::order::lemma_key_lt_transitive(lo_a.unwrap(), k, nk);
    }
    lemma_trim(v, w, b, 1, Some(k), hi_b, t, t - 1, 1, nb, t - 1);
    // The leaf before the key is as it was, and its keys are below the new key
    assert(w[a] == v[a]);
    assert forall|i: int| 0 <= i < v[a].pack.keys.len() implies below(
        Some(nk),
        #[trigger] v[a].pack.keys[i],
    ) by {
        assert(below(Some(k), v[a].pack.keys[i]));
        crate::order::lemma_key_lt_transitive(v[a].pack.keys[i], k, nk);
    }
    assert(subtree_wf(w, a, 1, lo_a, Some(nk), t, t - 1));
    assert forall|x: NodeId|
        #![trigger w.contains_key(x)]
        #![trigger in_subtree(v, pid, 2, x)]
        in_subtree(v, pid, 2, x) && x != pid && !in_subtree(v, a, 1, x) && !in_subtree(
            v,
            b,
            1,
            x,
        ) implies w.contains_key(x) && w[x] == v[x] by {
        lemma_in_subtree_known(v, pid, 2, clo, chi, t, pm, x);
    }
    lemma_reseat(v, w, pid, 2, clo, chi, t, pm, j, nk, np);
    assert forall|x: NodeId| #![trigger in_subtree(w, pid, 2, x)] in_subtree(w, pid, 2, x)
        == in_subtree(v, pid, 2, x) by {
        if in_subtree(v, a, 1, x) || in_subtree(v, b, 1, x) {
            assert(in_subtree(v, pid, 2, x));
        }
    }
    assert forall|q: Seq<u8>| #![trigger lookup(w, pid, 2, q)] lookup(w, pid, 2, q) == if q == k {
        None
    } else {
        lookup(v, pid, 2, q)
    } by {
        lemma_lookup_ends(v, a, 1, lo_a, Some(k), t, t - 1, q);
        lemma_lookup_ends(v, b, 1, Some(k), hi_b, t, t - 1, q);
        lemma_key_lt_irreflexive(k);
        lemma_key_lt_asymmetric(k, nk);
        if in_gap(p.pack, j, q) {
            lemma_gap_lookup(v, pid, 2, clo, chi, t, pm, j, q);
            if q == nk {
            } else if key_lt(q, nk) {
                assert(lookup(w, a, 1, q) == lookup(v, a, 1, q));
                if q != k && !key_lt(q, k) {
                    if !key_lt(k, q) {
                        crate::order::lemma_key_lt_connected(q, k);
                    }
                    // k < q < nk: neither leaf has the key
                    crate::order::lemma_key_lt_transitive(v[a].pack.keys.last(), k, q);
                }
                if q == k {
                    assert(key_lt(v[a].pack.keys.last(), q));
                }
            } else {
                if !key_lt(nk, q) {
                    crate::order::lemma_key_lt_connected(q, nk);
                }
                crate::order::lemma_key_lt_transitive(k, nk, q);
                lemma_key_lt_asymmetric(k, q);
                assert(lookup(w, b, 1, q) == lookup(v, b, 1, q));
            }
        } else {
            if q == k {
                if j + 1 < p.pack.keys.len() {
                    assert(key_lt(p.pack.keys[j], p.pack.keys[j + 1]));
                }
            }
        }
    }
    assert forall|x: NodeId| #![trigger in_subtree(w, pid, 2, x)] in_subtree(w, pid, 2, x) implies (
    in_subtree(v, pid, 2, x) || !v.contains_key(x)) && x < st.next_node_id by {
        lemma_in_subtree_known(v, pid, 2, clo, chi, t, pm, x);
    }
    assert forall|x: NodeId|
        #![trigger in_subtree(w, pid, 2, x)]
        #![trigger in_subtree(v, pid, 2, x)]
        in_subtree(v, pid, 2, x) implies (w.contains_key(x) <==> in_subtree(w, pid, 2, x)) by {
        lemma_in_subtree_known(v, pid, 2, clo, chi, t, pm, x);
    }
    lemma_in_subtree_known(v, b, 1, Some(k), hi_b, t, t - 1, b);
    lemma_cursor_replace(v, w, st, st, h, k, pid, 2, clo, chi);
    assert forall|q: Seq<u8>|
        #![trigger lookup(w, st.root.unwrap(), h, q)]
        lookup(w, st.root.unwrap(), h, q) == if q == k {
            None
        } else {
            lookup(v, st.root.unwrap(), h, q)
        } by {
        assert(lookup(w, pid, 2, q) == if q == k {
            None
        } else {
            lookup(v, pid, 2, q)
        });
    }
}

/// Where a walk stands: at the node `id` of height `hc` and with the bounds
/// `lo` and `hi`, in a tree of height `h`.
pub struct Place {
    pub id: NodeId,
    pub h: nat,
    pub hc: nat,
    pub lo: Bound,
    pub hi: Bound,
    /// Whether the way of the deletion is known to be clear.
    pub clear: bool,
}

/// What the walk of a deletion can tell of the children of the internal
/// node it has come to.
pub proof fn lemma_child_facts(v: Nodes, st: State, k: Seq<u8>, at: Place, j: int)
    requires
        del_ok(v, st, at.h, k, at.id, at.hc, at.lo, at.hi, at.clear),
        at.hc >= 2,
        0 <= j < v[at.id].children.len(),
    ensures
        v.contains_key(v[at.id].children[j]),
        v[at.id].children[j] != at.id,
        v[v[at.id].children[j]].leaf <==> at.hc == 2,
        v[v[at.id].children[j]].pack.wf(),
        st.minimum_degree - 1 <= v[v[at.id].children[j]].pack.len() <= 2 * st.minimum_degree - 1,
        !v[v[at.id].children[j]].leaf ==> v[v[at.id].children[j]].children.len()
            == v[v[at.id].children[j]].pack.len() + 1,
        forall|i: int|
            #![trigger v[at.id].children[i]]
            0 <= i < v[at.id].children.len() && i != j ==> v[at.id].children[i]
                != v[at.id].children[j],
        j < v[at.id].pack.len() ==> forall|dp: u64|
            #![trigger v[v[at.id].children[j]].pack.insert(v[at.id].pack.keys[j], dp)]
            v[v[at.id].children[j]].pack.insert(v[at.id].pack.keys[j], dp).precedes(
                v[v[at.id].children[j + 1]].pack,
            ),
        v[at.id].children.len() == v[at.id].pack.len() + 1,
        !v[at.id].leaf,
        v[at.id].pack.wf(),
        st.minimum_degree >= 2,
        v.contains_key(at.id),
{
    reveal(cursor_ok);
    reveal(tree_wf);
    let t = st.minimum_degree as int;
    let p = v[at.id];
    let g = (at.hc - 1) as nat;
    let c = p.children[j];
    assert(c == v[at.id].children[j]);
    assert(subtree_wf(v, c, g, lo_of(p.pack, j, at.lo), hi_of(p.pack, j, at.hi), t, t - 1));
    assert(in_subtree(v, c, g, c));
    assert(!in_subtree(v, c, g, at.id));
    assert forall|i: int| #![trigger v[at.id].children[i]] 0 <= i < v[at.id].children.len() && i
        != j implies v[at.id].children[i] != v[at.id].children[j] by {
        let d = v[at.id].children[i];
        assert(subtree_wf(v, d, g, lo_of(p.pack, i, at.lo), hi_of(p.pack, i, at.hi), t, t - 1));
        assert(in_subtree(v, d, g, d));
        if i < j {
            assert(!in_subtree(v, v[at.id].children[j], g, d));
        } else {
            assert(!in_subtree(v, v[at.id].children[i], g, c));
        }
    }
    if j < p.pack.len() {
        let b = p.children[j + 1];
        let dk = p.pack.keys[j];
        assert(b == v[at.id].children[j + 1]);
        assert(subtree_wf(v, b, g, lo_of(p.pack, j + 1, at.lo), hi_of(p.pack, j + 1, at.hi), t, t - 1));
        let nc = v[c].pack.keys.len() as int;
        if nc > 0 {
            assert(below(Some(dk), v[c].pack.keys[nc - 1]));
        }
        assert(above(Some(dk), v[b].pack.keys[0]));
        assert forall|dp: u64|
            #![trigger v[c].pack.insert(dk, dp)]
            v[c].pack.insert(dk, dp).precedes(v[b].pack) by {
            crate::pack::lemma_insert_between(v[c].pack, nc, dk, dp);
            assert(v[c].pack.insert(dk, dp).keys.last() == dk);
        }
    }
}

/// A key between the bounds of a node on the way of a search is searched
/// for along the same way.
pub proof fn lemma_path_rekey(
    v: Nodes,
    id: NodeId,
    h: nat,
    lo: Bound,
    hi: Bound,
    t: int,
    min: int,
    k: Seq<u8>,
    k2: Seq<u8>,
    c: NodeId,
    hc: nat,
    clo: Bound,
    chi: Bound,
)
    requires
        subtree_wf(v, id, h, lo, hi, t, min),
        crate::model::on_path(v, id, h, lo, hi, k, c, hc, clo, chi),
        above(clo, k2),
        below(chi, k2),
    ensures
        crate::model::on_path(v, id, h, lo, hi, k2, c, hc, clo, chi),
        above(lo, k2),
        below(hi, k2),
    decreases h,
{
    if h != hc {
        let p = v[id].pack;
        let i = p.child_idx(k);
        let d = v[id].children[i];
        assert(subtree_wf(v, d, (h - 1) as nat, lo_of(p, i, lo), hi_of(p, i, hi), t, t - 1));
        lemma_path_rekey(
            v,
            d,
            (h - 1) as nat,
            lo_of(p, i, lo),
            hi_of(p, i, hi),
            t,
            t - 1,
            k,
            k2,
            c,
            hc,
            clo,
            chi,
        );
        lemma_between(p, i, lo, hi, k2);
    }
}

/// A key between the bounds of the child at `i` of a node with the keys of
/// `p`, which lie between `lo` and `hi`, is not among those keys, has the
/// child index `i`, and lies between `lo` and `hi`.
pub proof fn lemma_between(p: Pack, i: int, lo: Bound, hi: Bound, k2: Seq<u8>)
    requires
        p.wf(),
        crate::model::within(p, lo, hi),
        0 <= i <= p.keys.len(),
        above(lo_of(p, i, lo), k2),
        below(hi_of(p, i, hi), k2),
    ensures
        !p.has(k2),
        p.child_idx(k2) == i,
        above(lo, k2),
        below(hi, k2),
{
    assert forall|j: int| 0 <= j < i implies key_lt(#[trigger] p.keys[j], k2) by {
        if j < i - 1 {
            assert(key_lt(p.keys[j], p.keys[i - 1]));
            crate::order::lemma_key_lt_transitive(p.keys[j], p.keys[i - 1], k2);
        }
    }
    crate::pack::lemma_located_absent(p, k2, i);
    if i > 0 {
        assert(above(lo, p.keys[i - 1]));
        if lo is Some {
            crate::order::lemma_key_lt_transitive(lo.unwrap(), p.keys[i - 1], k2);
        }
    }
    if i < p.keys.len() {
        assert(below(hi, p.keys[i]));
        if hi is Some {
            crate::order::lemma_key_lt_transitive(k2, p.keys[i], hi.unwrap());
        }
    }
}

/// The walk of a deletion stands at an internal node that has the key, and
/// the child before the key, or the one behind it, can spare a key: the walk
/// of the deletion of the last key of the one, or of the first key of the
/// other, comes to that child, and the node has not that key.
pub proof fn lemma_hit_down(
    v: Nodes,
    st: State,
    h: nat,
    k: Seq<u8>,
    c: NodeId,
    hc: nat,
    clo: Bound,
    chi: Bound,
    left: bool,
)
    requires
        del_ok(v, st, h, k, c, hc, clo, chi, false),
        hc >= 2,
        v[c].pack.has(k),
        v[v[c].children[v[c].pack.pos(k) + if left {
            0int
        } else {
            1int
        }]].pack.len() >= st.minimum_degree,
    ensures
        ({
            let jj = v[c].pack.pos(k) + if left {
                0int
            } else {
                1int
            };
            let y = v[c].children[jj];
            let k2 = if left {
                v[y].pack.keys.last()
            } else {
                v[y].pack.keys[0]
            };
            &&& del_ok(
                v,
                st,
                h,
                k2,
                y,
                (hc - 1) as nat,
                lo_of(v[c].pack, jj, clo),
                hi_of(v[c].pack, jj, chi),
                false,
            )
            &&& v[y].pack.has(k2)
            &&& !v[c].pack.has(k2)
            &&& y != c
        }),
{
    reveal(cursor_ok);
    reveal(tree_wf);
    let t = st.minimum_degree as int;
    let p = v[c].pack;
    let j = p.pos(k);
    assert(0 <= j < p.keys.len() && p.keys[j] == k);
    let jj = j + if left {
        0int
    } else {
        1int
    };
    let y = v[c].children[jj];
    lemma_cursor_facts(v, st, h, k, c, hc, clo, chi);
    assert(y == v[c].children[jj]);
    assert(subtree_wf(v, y, (hc - 1) as nat, lo_of(p, jj, clo), hi_of(p, jj, chi), t, t - 1));
    assert(!in_subtree(v, v[c].children[jj], (hc - 1) as nat, c));
    assert(in_subtree(v, y, (hc - 1) as nat, y));
    let k2 = if left {
        v[y].pack.keys.last()
    } else {
        v[y].pack.keys[0]
    };
    let idx = if left {
        v[y].pack.keys.len() - 1
    } else {
        0int
    };
    assert(v[y].pack.keys[idx] == k2);
    assert(above(lo_of(p, jj, clo), v[y].pack.keys[idx]) && below(
        hi_of(p, jj, chi),
        v[y].pack.keys[idx],
    ));
    lemma_between(p, jj, clo, chi, k2);
    lemma_path_rekey(v, st.root.unwrap(), h, None, None, t, 1, k, k2, c, hc, clo, chi);
    crate::model::lemma_path_step(v, st.root.unwrap(), h, None, None, k2, c, hc, clo, chi);
}

/// The nodes that the store presents once the node `id`, whose keys and
/// children are `keys2` and `children2` in memory, has been put back: it has
/// gone where it has no key left, and is as it was where `update` is false.
pub open spec fn settled(v2: Nodes, keys2: Pack, children2: Seq<NodeId>, update: bool, id: NodeId) -> Nodes {
    if keys2.len() == 0 {
        v2.remove(id)
    } else if update {
        v2.insert(id, NodeModel { leaf: false, pack: keys2, children: children2 })
    } else {
        v2
    }
}

/// The nodes after the step of a deletion of `k` at the internal node
/// `pid`, which does not have the key, in a tree of minimum degree `t`.
/// Nothing changes where the child at the child index of the key can spare
/// a key. Else that child takes a key from the sibling behind it, if that
/// one can spare a key, or else from the sibling before it; or else it is
/// merged with the sibling behind it, or with the one before it where there
/// is none behind. A merge that takes the last key of the node takes the
/// node away.
pub open spec fn step_nodes(v: Nodes, pid: NodeId, k: Seq<u8>, t: int) -> Nodes {
    let p = v[pid];
    let i = p.pack.child_idx(k);
    if v[p.children[i]].pack.len() >= t {
        v
    } else if i + 1 < p.children.len() && v[p.children[i + 1]].pack.len() >= t {
        rotate_right_nodes(v, pid, i)
    } else if i >= 1 && v[p.children[i - 1]].pack.len() >= t {
        rotate_left_nodes(v, pid, i)
    } else {
        let j = if i + 1 < p.children.len() {
            i
        } else {
            i - 1
        };
        if p.pack.len() >= 2 {
            join_nodes(v, pid, j, p.pack.payloads[j])
        } else {
            join_root_nodes(v, pid, p.pack.payloads[j])
        }
    }
}

/// Whether that step changes anything: it does where the child at the
/// child index of the key cannot spare a key.
pub open spec fn step_changes(v: Nodes, pid: NodeId, k: Seq<u8>, t: int) -> bool {
    v[v[pid].children[v[pid].pack.child_idx(k)]].pack.len() < t
}

/// The node that the deletion goes on with after that step: the child at
/// the child index of the key, or the merged node.
pub open spec fn step_next(v: Nodes, pid: NodeId, k: Seq<u8>, t: int) -> NodeId {
    let p = v[pid];
    let i = p.pack.child_idx(k);
    if v[p.children[i]].pack.len() >= t || i + 1 < p.children.len() || (i >= 1
        && v[p.children[i - 1]].pack.len() >= t) {
        p.children[i]
    } else {
        p.children[i - 1]
    }
}

/// What the step of a deletion at the internal node `pid`, which has the
/// key `k`, needs of the node and of the two children around the key: they
/// are there, three different nodes; the children are of one kind, have
/// keys, and, where they are internal, one child more than keys; and the
/// keys of the first with the key `k` lie below the keys of the second.
pub open spec fn hit_ready(v: Nodes, pid: NodeId, k: Seq<u8>, t: int) -> bool {
    let p = v[pid];
    let j = p.pack.pos(k);
    let y = p.children[j];
    let z = p.children[j + 1];
    &&& t >= 2
    &&& v.contains_key(pid)
    &&& !p.leaf
    &&& p.pack.wf()
    &&& p.pack.has(k)
    &&& p.children.len() == p.pack.len() + 1
    &&& v.contains_key(y)
    &&& v.contains_key(z)
    &&& y != z
    &&& y != pid
    &&& z != pid
    &&& v[y].leaf == v[z].leaf
    &&& v[y].pack.wf()
    &&& v[z].pack.wf()
    &&& 1 <= v[y].pack.len() <= 2 * t - 1
    &&& 1 <= v[z].pack.len() <= 2 * t - 1
    &&& !v[y].leaf ==> v[y].children.len() == v[y].pack.len() + 1 && v[z].children.len()
        == v[z].pack.len() + 1
    &&& v[y].pack.insert(k, 0).precedes(v[z].pack)
}

/// The two children around the key `k` of the node `pid` cannot spare a
/// key: the step of the deletion merges them.
pub open spec fn hit_merges(v: Nodes, pid: NodeId, k: Seq<u8>, t: int) -> bool {
    let p = v[pid];
    let j = p.pack.pos(k);
    v[p.children[j]].pack.len() < t && v[p.children[j + 1]].pack.len() < t
}

/// The nodes after the step of a deletion of `k` at the internal node
/// `pid`, which has the key. The last key of the child before the key takes
/// the place of the key, if that child can spare a key; or else the first
/// key of the child behind it; or else the two children are merged through
/// the key, with the payload 0.
pub open spec fn hit_nodes(v: Nodes, pid: NodeId, k: Seq<u8>, t: int) -> Nodes {
    let p = v[pid];
    let j = p.pack.pos(k);
    let y = v[p.children[j]];
    let z = v[p.children[j + 1]];
    if y.pack.len() >= t {
        v.insert(pid, node_reseat(p, j, y.pack.keys.last(), y.pack.payloads.last()))
    } else if z.pack.len() >= t {
        v.insert(pid, node_reseat(p, j, z.pack.keys[0], z.pack.payloads[0]))
    } else if p.pack.len() >= 2 {
        join_nodes(v, pid, j, 0)
    } else {
        join_root_nodes(v, pid, 0)
    }
}

/// The node that the deletion goes on with after that step.
pub open spec fn hit_next(v: Nodes, pid: NodeId, k: Seq<u8>, t: int) -> NodeId {
    let p = v[pid];
    let j = p.pack.pos(k);
    if v[p.children[j]].pack.len() < t && v[p.children[j + 1]].pack.len() >= t {
        p.children[j + 1]
    } else {
        p.children[j]
    }
}

/// The key that the deletion goes on with after that step: the key that
/// took the place of `k`, or `k` itself after a merge.
pub open spec fn hit_key(v: Nodes, pid: NodeId, k: Seq<u8>, t: int) -> Seq<u8> {
    let p = v[pid];
    let j = p.pack.pos(k);
    let y = v[p.children[j]];
    let z = v[p.children[j + 1]];
    if y.pack.len() >= t {
        y.pack.keys.last()
    } else if z.pack.len() >= t {
        z.pack.keys[0]
    } else {
        k
    }
}

/// The nodes after the deletion of `k` from the node `c` of height `hc`
/// down, in a tree of minimum degree `t`: a leaf loses the key, and goes
/// where that was its last key; from an internal node the deletion goes on
/// as `hit_nodes` or `step_nodes` say.
pub open spec fn del_walk(v: Nodes, c: NodeId, hc: nat, k: Seq<u8>, t: int) -> Nodes
    decreases hc,
{
    if hc <= 1 {
        if !v[c].pack.has(k) {
            v
        } else if v[c].pack.len() == 1 {
            v.remove(c)
        } else {
            v.insert(c, node_del(v[c], k))
        }
    } else if v[c].pack.has(k) {
        del_walk(hit_nodes(v, c, k, t), hit_next(v, c, k, t), (hc - 1) as nat, hit_key(v, c, k, t), t)
    } else {
        del_walk(step_nodes(v, c, k, t), step_next(v, c, k, t), (hc - 1) as nat, k, t)
    }
}

/// The nodes of the tree with the state `st` after the deletion of `k`.
pub open spec fn deleted(v: Nodes, st: State, k: Seq<u8>) -> Nodes {
    match st.root {
        Some(root) => del_walk(
            v,
            root,
            crate::model::index_height(v, st),
            k,
            st.minimum_degree as int,
        ),
        None => v,
    }
}

/// The root of the tree with the state `st` after the deletion of `k`: none
/// where the root was a leaf with that key alone; the node that the
/// deletion goes on with where the first step has taken the root away; else
/// the root that was.
pub open spec fn deleted_root(v: Nodes, st: State, k: Seq<u8>) -> Option<NodeId> {
    match st.root {
        Some(root) => {
            let t = st.minimum_degree as int;
            if crate::model::index_height(v, st) <= 1 {
                if v[root].pack.has(k) && v[root].pack.len() == 1 {
                    None
                } else {
                    Some(root)
                }
            } else if v[root].pack.has(k) {
                if hit_nodes(v, root, k, t).contains_key(root) {
                    Some(root)
                } else {
                    Some(hit_next(v, root, k, t))
                }
            } else {
                if step_nodes(v, root, k, t).contains_key(root) {
                    Some(root)
                } else {
                    Some(step_next(v, root, k, t))
                }
            }
        },
        None => None,
    }
}

/// The height of the tree with the state `st` after the deletion of `k`:
/// one less where the root has given way to a node under it, and nothing
/// where no root is left.
pub open spec fn deleted_height(v: Nodes, st: State, k: Seq<u8>) -> nat {
    match deleted_root(v, st, k) {
        Some(root) => if st.root == Some(root) {
            crate::model::index_height(v, st)
        } else {
            (crate::model::index_height(v, st) - 1) as nat
        },
        None => 0,
    }
}

/// What holds after a step of a deletion at an internal node from which
/// the walk goes on down: `v2` are the nodes in the store, `keys2` and
/// `children2` the keys and children that the node now has, in memory;
/// `update` tells whether they have changed, and `next` is the node to go on
/// with. Where the node has lost its last key it was the root, and `next`
/// takes its place. A search finds what it found before, but perhaps at the
/// key `but`.
pub open spec fn after_step(
    v2: Nodes,
    keys2: Pack,
    children2: Seq<NodeId>,
    next: NodeId,
    update: bool,
    v: Nodes,
    st: State,
    k: Seq<u8>,
    at: Place,
    but: Option<Seq<u8>>,
) -> bool {
    let upper = NodeModel { leaf: false, pack: keys2, children: children2 };
    if keys2.len() == 0 {
        let w = v2.remove(at.id);
        &&& at.hc == at.h
        &&& st.root == Some(at.id)
        &&& del_ok(
            w,
            State { root: Some(next), ..st },
            (at.h - 1) as nat,
            k,
            next,
            (at.h - 1) as nat,
            None,
            None,
            at.clear,
        )
        &&& same_lookups(w, next, (at.h - 1) as nat, v, at.id, at.h, but)
        &&& w[next].pack.len() >= 2
        &&& next != at.id
    } else {
        let w = if update {
            v2.insert(at.id, upper)
        } else {
            v2
        };
        &&& !update ==> v2 == v
        &&& stepped(w, st, at.h, k, at.id, at.hc, at.lo, at.hi, at.clear)
        &&& next == w[at.id].children[w[at.id].pack.child_idx(k)]
        &&& next != at.id
        &&& st.root is Some
        &&& same_lookups(w, st.root.unwrap(), at.h, v, st.root.unwrap(), at.h, but)
    }
}

/// What holds after the step of a deletion at an internal node that has
/// the key: the node to go on with is a leaf that has the key `kd`, and
/// without that key in that leaf the tree is well formed; a search finds
/// nothing at the key to delete and what it found before at every other
/// key. `v2`, `keys2`, `children2` and `next` are as in `after_step`.
pub open spec fn after_swap(
    v2: Nodes,
    keys2: Pack,
    children2: Seq<NodeId>,
    next: NodeId,
    kd: Seq<u8>,
    v: Nodes,
    st: State,
    k: Seq<u8>,
    at: Place,
) -> bool {
    let upper = NodeModel { leaf: false, pack: keys2, children: children2 };
    let w = if keys2.len() == 0 {
        v2.remove(at.id)
    } else {
        v2.insert(at.id, upper)
    };
    let st2 = if keys2.len() == 0 {
        State { root: Some(next), ..st }
    } else {
        st
    };
    let h2 = if keys2.len() == 0 {
        (at.h - 1) as nat
    } else {
        at.h
    };
    &&& keys2.len() == 0 ==> at.hc == at.h && st.root == Some(at.id)
    &&& st.root is Some
    &&& next != at.id
    &&& pending(w, st2, h2, kd, next, v, st.root.unwrap(), at.h, k)
}

/// The node `next` is a leaf with more keys than the key `kd`, which it
/// has; without that key in it the tree is well formed, and a search finds
/// nothing at `k` and at every other key what it finds under `r1` in `v`.
pub open spec fn pending(
    w: Nodes,
    st2: State,
    h2: nat,
    kd: Seq<u8>,
    next: NodeId,
    v: Nodes,
    r1: NodeId,
    h1: nat,
    k: Seq<u8>,
) -> bool {
    &&& w.contains_key(next)
    &&& w[next].leaf
    &&& w[next].children.len() == 0
    &&& w[next].pack.has(kd)
    &&& w[next].pack.len() >= 2
    &&& st2.root is Some
    &&& tree_wf(w.insert(next, node_del(w[next], kd)), st2, h2)
    &&& lookups_without(w.insert(next, node_del(w[next], kd)), st2.root.unwrap(), h2, v, r1, h1, k)
}

/// A walk that stands at a node as high as the tree stands at the root,
/// which has no bounds.
pub proof fn lemma_root_place(
    v: Nodes,
    st: State,
    h: nat,
    k: Seq<u8>,
    c: NodeId,
    hc: nat,
    clo: Bound,
    chi: Bound,
)
    requires
        cursor_ok(v, st, h, k, c, hc, clo, chi),
    ensures
        hc == h ==> st.root == Some(c) && clo is None && chi is None,
        st.root is Some,
{
    reveal(cursor_ok);
}

/// The way of a deletion of `k` is clear: the key is not in the tree, or
/// it stands in a leaf or in a node just above the leaves, or the two
/// children around it have the fewest keys that a node may have, and so have
/// the children that stand around the key once those two are merged, down
/// to the level above the leaves.
pub open spec fn index_clear(v: Nodes, st: State, k: Seq<u8>) -> bool {
    match st.root {
        Some(root) => clear_from(
            v,
            root,
            crate::model::index_height(v, st),
            k,
            st.minimum_degree as int,
        ),
        None => true,
    }
}

proof fn lemma_absent_clear(
    v: Nodes,
    c: NodeId,
    hc: nat,
    lo: Bound,
    hi: Bound,
    t: int,
    min: int,
    k: Seq<u8>,
)
    requires
        subtree_wf(v, c, hc, lo, hi, t, min),
        lookup(v, c, hc, k) is None,
    ensures
        clear_from(v, c, hc, k, t),
    decreases hc,
{
    if hc > 2 {
        let p = v[c].pack;
        let i = p.child_idx(k);
        crate::pack::lemma_child_idx_props(p, k);
        assert(!p.has(k));
        assert(subtree_wf(
            v,
            v[c].children[i],
            (hc - 1) as nat,
            lo_of(p, i, lo),
            hi_of(p, i, hi),
            t,
            t - 1,
        ));
        lemma_absent_clear(
            v,
            v[c].children[i],
            (hc - 1) as nat,
            lo_of(p, i, lo),
            hi_of(p, i, hi),
            t,
            t - 1,
            k,
        );
    }
}

/// The way of a deletion is clear for every key of a tree of two levels
/// or fewer, and in any tree for a key that the tree does not have.
pub proof fn lemma_clear_ways(v: Nodes, st: State, k: Seq<u8>)
    requires
        crate::model::index_wf(v, st),
        crate::model::index_height(v, st) <= 2 || crate::model::index_get(v, st, k) is None,
    ensures
        index_clear(v, st, k),
{
    reveal(tree_wf);
    let h = crate::model::index_height(v, st);
    assert(tree_wf(v, st, h));
    if st.root is Some && h > 2 {
        lemma_absent_clear(v, st.root.unwrap(), h, None, None, st.minimum_degree as int, 1, k);
    }
}

/// A walk that has come to a node that has the key: a search finds in the
/// tree the payload that the node has for the key.
pub proof fn lemma_cursor_hit(
    v: Nodes,
    st: State,
    h: nat,
    k: Seq<u8>,
    c: NodeId,
    hc: nat,
    clo: Bound,
    chi: Bound,
)
    requires
        cursor_ok(v, st, h, k, c, hc, clo, chi),
        v[c].pack.has(k),
    ensures
        lookup(v, st.root.unwrap(), h, k) == v[c].pack.get(k),
{
    reveal(cursor_ok);
    lemma_path_lookup(v, st.root.unwrap(), h, None, None, k, c, hc, clo, chi);
}

/// A walk that has come to a leaf that does not have the key: a search
/// finds nothing in the tree at the key.
pub proof fn lemma_cursor_miss(
    v: Nodes,
    st: State,
    h: nat,
    k: Seq<u8>,
    c: NodeId,
    hc: nat,
    clo: Bound,
    chi: Bound,
)
    requires
        cursor_ok(v, st, h, k, c, hc, clo, chi),
        !v[c].pack.has(k),
        hc == 1,
    ensures
        lookup(v, st.root.unwrap(), h, k) is None,
{
    reveal(cursor_ok);
    lemma_path_lookup(v, st.root.unwrap(), h, None, None, k, c, hc, clo, chi);
}

/// What the walk of a deletion can tell of the internal node it has come
/// to.
pub proof fn lemma_parent_facts(v: Nodes, st: State, k: Seq<u8>, at: Place)
    requires
        del_ok(v, st, at.h, k, at.id, at.hc, at.lo, at.hi, at.clear),
        at.hc >= 2,
    ensures
        v.contains_key(at.id),
        !v[at.id].leaf,
        v[at.id].pack.wf(),
        v[at.id].pack.len() >= 1,
        v[at.id].children.len() == v[at.id].pack.len() + 1,
        v[at.id].pack.has(k) && at.hc >= 3 && at.clear ==> v[at.id].pack.child_idx(k) >= 1
            && v[v[at.id].children[v[at.id].pack.child_idx(k) - 1]].pack.len() == st.minimum_degree
            - 1 && v[v[at.id].children[v[at.id].pack.child_idx(k)]].pack.len()
            == st.minimum_degree - 1,
        st.minimum_degree >= 2,
        st.root is Some,
        at.hc <= at.h,
{
    reveal(cursor_ok);
    reveal(tree_wf);
    lemma_cursor_facts(v, st, at.h, k, at.id, at.hc, at.lo, at.hi);
    if v[at.id].pack.has(k) && at.hc >= 3 && at.clear {
        let i = v[at.id].pack.child_idx(k);
        assert(seam(
            v,
            v[at.id].children[i - 1],
            v[at.id].children[i],
            (at.hc - 1) as nat,
            st.minimum_degree as int,
        ));
    }
}

/// The walk of a deletion goes on below a node that has taken a key of a
/// child in place of the key to delete: the nodes `r` that the store presents
/// are, but for the keys of such nodes, the nodes `g` of a B-tree in which the
/// walk of the deletion of `k` has come to the node `c`, which has that key;
/// and under `c` the two are the same.
pub open spec fn lost_ok(
    g: Nodes,
    r: Nodes,
    st: State,
    h: nat,
    k: Seq<u8>,
    c: NodeId,
    hc: nat,
    clo: Bound,
    chi: Bound,
) -> bool {
    &&& del_ok(g, st, h, k, c, hc, clo, chi, false)
    &&& g[c].pack.has(k)
    &&& skeleton_like(r, g)
    &&& forall|x: NodeId| #[trigger] in_subtree(g, c, hc, x) ==> r[x] == g[x]
}

/// The step of such a walk at an internal node: the node and the children
/// around the key are as the step needs them, and after the step the walk
/// goes on in the same way, one level down.
#[verifier::rlimit(100)]
#[verifier::spinoff_prover]
pub proof fn lemma_lost_step(
    g: Nodes,
    r: Nodes,
    st: State,
    h: nat,
    k: Seq<u8>,
    c: NodeId,
    hc: nat,
    clo: Bound,
    chi: Bound,
) -> (n: (Nodes, Bound, Bound))
    requires
        lost_ok(g, r, st, h, k, c, hc, clo, chi),
        hc >= 2,
        hc < h || !hit_merges(g, c, k, st.minimum_degree as int),
    ensures
        hit_ready(r, c, k, st.minimum_degree as int),
        lost_ok(
            n.0,
            hit_nodes(r, c, k, st.minimum_degree as int),
            st,
            h,
            hit_key(r, c, k, st.minimum_degree as int),
            hit_next(r, c, k, st.minimum_degree as int),
            (hc - 1) as nat,
            n.1,
            n.2,
        ),
        hit_nodes(r, c, k, st.minimum_degree as int).contains_key(c),
        r.contains_key(c),
        hit_next(r, c, k, st.minimum_degree as int) != c,
{
    reveal(cursor_ok);
    let t = st.minimum_degree as int;
    let at = Place { id: c, h, hc, lo: clo, hi: chi, clear: false };
    let p = g[c];
    let j = p.pack.pos(k);
    let g1 = (hc - 1) as nat;
    assert(0 <= j < p.pack.keys.len() && p.pack.keys[j] == k);
    lemma_parent_facts(g, st, k, at);
    lemma_cursor_facts(g, st, h, k, c, hc, clo, chi);
    crate::pack::lemma_located_found(p.pack, k, j);
    lemma_child_facts(g, st, k, at, j);
    lemma_child_facts(g, st, k, at, j + 1);
    let y = p.children[j];
    let z = p.children[j + 1];
    assert(subtree_wf(g, c, hc, clo, chi, t, min_keys(h, hc, t)));
    assert(in_subtree(g, c, hc, c));
    assert(subtree_wf(g, y, g1, lo_of(p.pack, j, clo), hi_of(p.pack, j, chi), t, t - 1));
    assert(subtree_wf(g, z, g1, lo_of(p.pack, j + 1, clo), hi_of(p.pack, j + 1, chi), t, t - 1));
    assert(in_subtree(g, y, g1, y) && in_subtree(g, z, g1, z));
    assert(in_subtree(g, c, hc, y)) by {
        assert(in_subtree(g, g[c].children[j], g1, y));
    }
    assert(in_subtree(g, c, hc, z)) by {
        assert(in_subtree(g, g[c].children[j + 1], g1, z));
    }
    assert(r[c] == g[c] && r[y] == g[y] && r[z] == g[z]);
    assert(g[y].pack.insert(p.pack.keys[j], 0).precedes(g[z].pack));
    assert(hit_ready(r, c, k, t));
    p.pack.lemma_remove_wf(k);
    let r2 = hit_nodes(r, c, k, t);
    if g[y].pack.len() >= t || g[z].pack.len() >= t {
        let left = g[y].pack.len() >= t;
        let jj = if left {
            j
        } else {
            j + 1
        };
        let d = p.children[jj];
        lemma_hit_down(g, st, h, k, c, hc, clo, chi, left);
        let k2 = hit_key(r, c, k, t);
        let pl = if left {
            g[y].pack.payloads.last()
        } else {
            g[z].pack.payloads[0]
        };
        let rest = p.pack.remove(k);
        assert(!rest.has(k2)) by {
            if rest.has(k2) {
                let i = rest.keys.index_of(k2);
                assert(rest.keys[i] == k2);
                let i0 = if i < j {
                    i
                } else {
                    i + 1
                };
                assert(p.pack.keys[i0] == k2);
            }
        }
        rest.lemma_insert_wf(k2, pl);
        assert(r2 == r.insert(c, node_reseat(r[c], j, k2, pl)));
        assert(!in_subtree(g, g[c].children[jj], g1, c));
        assert forall|x: NodeId| #[trigger] in_subtree(g, d, g1, x) implies r2[x] == g[x] by {
            assert(in_subtree(g, g[c].children[jj], g1, x));
            assert(in_subtree(g, c, hc, x));
        }
        (g, lo_of(p.pack, jj, clo), hi_of(p.pack, jj, chi))
    } else {
        assert(p.pack.len() >= 2);
        if j > 0 {
            assert(key_lt(p.pack.keys[j - 1], p.pack.keys[j]));
        }
        if j + 1 < p.pack.keys.len() {
            assert(key_lt(p.pack.keys[j], p.pack.keys[j + 1]));
        }
        lemma_del_join(g, st, h, k, c, hc, clo, chi, j, 0, false);
        lemma_join(g, c, hc, clo, chi, t, min_keys(h, hc, t), j, 0);
        let g2 = join_nodes(g, c, j, 0);
        assert(r2 == join_nodes(r, c, j, 0));
        let i2 = g2[c].pack.child_idx(k);
        let lo2 = lo_of(g2[c].pack, i2, clo);
        let hi2 = hi_of(g2[c].pack, i2, chi);
        assert(g2[c].children[i2] == y);
        lemma_cursor_facts(g2, st, h, k, y, g1, lo2, hi2);
        assert(r2[c] == g2[c] && r2[y] == g2[y]);
        assert(skeleton_like(r2, g2)) by {
            assert forall|x: NodeId| r2.contains_key(x) == g2.contains_key(x) by {}
            assert forall|x: NodeId| #![trigger r2[x]] #![trigger g2[x]] g2.contains_key(x) implies r2[x].leaf
                == g2[x].leaf && r2[x].children == g2[x].children && r2[x].pack.len()
                == g2[x].pack.len() && r2[x].pack.wf() by {
                if x != c && x != y {
                    assert(r2[x] == r[x] && g2[x] == g[x]);
                    assert(g.contains_key(x));
                }
            }
        }
        assert(subtree_wf(g2, c, hc, clo, chi, t, min_keys(h, hc, t)));
        assert(!in_subtree(g2, g2[c].children[j], g1, c));
        assert forall|x: NodeId| #[trigger] in_subtree(g2, y, g1, x) implies r2[x] == g2[x] by {
            assert(in_subtree(g2, g2[c].children[j], g1, x));
            assert(in_subtree(g2, c, hc, x));
            assert(in_subtree(g, c, hc, x) && x != z);
            if x != y {
                assert(r2[x] == r[x] && g2[x] == g[x]);
            }
        }
        (g2, lo2, hi2)
    }
}

/// The end of such a walk at a leaf: without the key in the leaf, the
/// nodes that the store presents have the shape of a B-tree.
pub proof fn lemma_lost_leaf(
    g: Nodes,
    r: Nodes,
    st: State,
    h: nat,
    k: Seq<u8>,
    c: NodeId,
    clo: Bound,
    chi: Bound,
)
    requires
        lost_ok(g, r, st, h, k, c, 1, clo, chi),
        1 < h,
    ensures
        r.contains_key(c),
        r[c] == g[c],
        r[c].leaf,
        r[c].pack.has(k),
        r[c].pack.len() >= 2,
        crate::shape::index_shaped(r.insert(c, node_del(r[c], k)), st, h),
{
    lemma_cursor_facts(g, st, h, k, c, 1, clo, chi);
    lemma_del_leaf(g, st, h, k, c, clo, chi, false);
    assert(in_subtree(g, c, 1, c));
    let g2 = g.insert(c, node_del(g[c], k));
    let r2 = r.insert(c, node_del(r[c], k));
    g[c].pack.lemma_remove_wf(k);
    assert(skeleton_like(r2, g2)) by {
        assert forall|x: NodeId| r2.contains_key(x) == g2.contains_key(x) by {}
        assert forall|x: NodeId| #![trigger r2[x]] #![trigger g2[x]] g2.contains_key(x) implies r2[x].leaf
            == g2[x].leaf && r2[x].children == g2[x].children && r2[x].pack.len()
            == g2[x].pack.len() && r2[x].pack.wf() by {
            if x != c {
                assert(r2[x] == r[x] && g2[x] == g[x]);
                assert(g.contains_key(x));
            }
        }
    }
    crate::shape::lemma_skeleton_tree(r2, g2, st, h);
}

} // verus!
