//! The steps of a deletion at an internal node: what they make of the
//! subtree under that node.

use crate::model::{
    above, below, hi_of, in_subtree, lemma_frame, lemma_in_subtree_known, lo_of, lookup, subtree_wf,
    Bound, Nodes,
};
use crate::node::{NodeId, NodeModel};
use crate::order::{
    key_lt, lemma_key_lt_asymmetric, lemma_key_lt_connected, lemma_key_lt_irreflexive,
    lemma_key_lt_transitive,
};
use crate::pack::{lemma_child_idx_remove, lemma_child_idx_split, lemma_has_at, lemma_pos_is};
use crate::rebalance::{
    in_gap, lemma_gap_lookup, lemma_graft_first, lemma_graft_last, lemma_merge, lemma_reseat,
    lemma_trim, lemma_unseat, node_graft_first, node_graft_last, node_merge, node_reseat, node_trim,
    node_unseat,
};
use vstd::prelude::*;

verus! {

/// The node `s` without its first key and, if it is internal, its first child.
pub open spec fn node_take_first(s: NodeModel) -> NodeModel {
    NodeModel {
        leaf: s.leaf,
        pack: s.pack.remove(s.pack.keys[0]),
        children: if s.leaf {
            s.children
        } else {
            s.children.remove(0)
        },
    }
}

/// The node `s` without its last key and, if it is internal, its last child.
pub open spec fn node_take_last(s: NodeModel) -> NodeModel {
    NodeModel {
        leaf: s.leaf,
        pack: s.pack.remove(s.pack.keys.last()),
        children: if s.leaf {
            s.children
        } else {
            s.children.drop_last()
        },
    }
}

/// To take the first or the last key of a node away, with the child beyond
/// it, is to cut the node down to its other keys.
pub proof fn lemma_take_is_trim(s: NodeModel)
    requires
        s.pack.wf(),
        s.pack.len() >= 1,
        !s.leaf ==> s.children.len() == s.pack.len() + 1,
    ensures
        node_take_first(s) == node_trim(s, 1, s.pack.len() as int),
        node_take_last(s) == node_trim(s, 0, s.pack.len() - 1),
{
    let n = s.pack.keys.len() as int;
    lemma_child_idx_remove(s.pack, 0, s.pack.keys[0]);
    lemma_child_idx_remove(s.pack, n - 1, s.pack.keys[0]);
    assert(s.pack.keys.remove(0) =~= s.pack.keys.subrange(1, n));
    assert(s.pack.payloads.remove(0) =~= s.pack.payloads.subrange(1, n));
    assert(s.pack.keys.remove(n - 1) =~= s.pack.keys.subrange(0, n - 1));
    assert(s.pack.payloads.remove(n - 1) =~= s.pack.payloads.subrange(0, n - 1));
    if !s.leaf {
        assert(s.children.remove(0) =~= s.children.subrange(1, n + 1));
        assert(s.children.drop_last() =~= s.children.subrange(0, n));
    }
}

/// The nodes after the child at `i` of the node `pid` has taken the key
/// above it in, and that key has given way to the first key of the child
/// behind.
pub open spec fn rotate_right_nodes(v: Nodes, pid: NodeId, i: int) -> Nodes {
    let p = v[pid];
    let c = p.children[i];
    let s = p.children[i + 1];
    v.insert(
        c,
        node_graft_last(v[c], p.pack.keys[i], p.pack.payloads[i], v[s].children[0]),
    ).insert(s, node_take_first(v[s])).insert(
        pid,
        node_reseat(p, i, v[s].pack.keys[0], v[s].pack.payloads[0]),
    )
}

/// The nodes after the child at `i` of the node `pid` has taken the key
/// below it in, and that key has given way to the last key of the child
/// before.
pub open spec fn rotate_left_nodes(v: Nodes, pid: NodeId, i: int) -> Nodes {
    let p = v[pid];
    let c = p.children[i];
    let l = p.children[i - 1];
    v.insert(
        c,
        node_graft_first(v[c], p.pack.keys[i - 1], p.pack.payloads[i - 1], v[l].children.last()),
    ).insert(l, node_take_last(v[l])).insert(
        pid,
        node_reseat(p, i - 1, v[l].pack.keys.last(), v[l].pack.payloads.last()),
    )
}

/// A search under a node for a key below its first key goes on under its
/// first child, and for a key above its last key under its last child.
pub proof fn lemma_lookup_ends(
    v: Nodes,
    id: NodeId,
    h: nat,
    lo: Bound,
    hi: Bound,
    t: int,
    min: int,
    q: Seq<u8>,
)
    requires
        subtree_wf(v, id, h, lo, hi, t, min),
        v[id].pack.len() >= 1,
    ensures
        key_lt(q, v[id].pack.keys[0]) ==> !v[id].pack.has(q) && v[id].pack.child_idx(q) == 0
            && lookup(v, id, h, q) == if h == 1 {
            None
        } else {
            lookup(v, v[id].children[0], (h - 1) as nat, q)
        },
        key_lt(v[id].pack.keys.last(), q) ==> !v[id].pack.has(q) && v[id].pack.child_idx(q)
            == v[id].pack.len() && lookup(v, id, h, q) == if h == 1 {
            None
        } else {
            lookup(v, v[id].children.last(), (h - 1) as nat, q)
        },
        lookup(v, id, h, v[id].pack.keys[0]) == Some(v[id].pack.payloads[0]),
        lookup(v, id, h, v[id].pack.keys.last()) == Some(v[id].pack.payloads.last()),
{
    let p = v[id].pack;
    let n = p.keys.len() as int;
    lemma_child_idx_split(p, q);
    lemma_has_at(p, q);
    lemma_pos_is(p, p.keys[0], 0);
    lemma_pos_is(p, p.keys[n - 1], n - 1);
    lemma_key_lt_irreflexive(q);
    let r = p.child_idx(q);
    if key_lt(q, p.keys[0]) {
        lemma_key_lt_asymmetric(q, p.keys[0]);
        if r > 0 {
            assert(!key_lt(q, p.keys[0]));
        }
    }
    if key_lt(p.keys[n - 1], q) {
        lemma_key_lt_asymmetric(p.keys[n - 1], q);
        if r < n {
            assert(key_lt(q, p.keys[r]));
            if r < n - 1 {
                assert(key_lt(p.keys[r], p.keys[n - 1]));
                lemma_key_lt_transitive(q, p.keys[r], p.keys[n - 1]);
            }
        }
    }
}

/// The rotation of a key from the child behind, through the parent, into
/// the child at `i` leaves the subtree under the parent well formed, with
/// the same nodes; a search finds in it what it found before.
#[verifier::rlimit(100)]
#[verifier::spinoff_prover]
pub proof fn lemma_rotate_right(
    v: Nodes,
    pid: NodeId,
    h: nat,
    lo: Bound,
    hi: Bound,
    t: int,
    pmin: int,
    i: int,
)
    requires
        t >= 2,
        h >= 2,
        subtree_wf(v, pid, h, lo, hi, t, pmin),
        0 <= i,
        i + 1 < v[pid].children.len(),
        v[v[pid].children[i]].pack.len() < 2 * t - 1,
        v[v[pid].children[i + 1]].pack.len() >= t,
    ensures
        subtree_wf(rotate_right_nodes(v, pid, i), pid, h, lo, hi, t, pmin),
        forall|x: NodeId|
            #![trigger in_subtree(rotate_right_nodes(v, pid, i), pid, h, x)]
            in_subtree(rotate_right_nodes(v, pid, i), pid, h, x) == in_subtree(v, pid, h, x),
        forall|q: Seq<u8>|
            #![trigger lookup(rotate_right_nodes(v, pid, i), pid, h, q)]
            lookup(rotate_right_nodes(v, pid, i), pid, h, q) == lookup(v, pid, h, q),
        rotate_right_nodes(v, pid, i)[v[pid].children[i]].pack.len()
            == v[v[pid].children[i]].pack.len() + 1,
        forall|q: Seq<u8>|
            #![trigger rotate_right_nodes(v, pid, i)[pid].pack.child_idx(q)]
            #![trigger rotate_right_nodes(v, pid, i)[pid].pack.has(q)]
            in_gap(v[pid].pack, i, q) && key_lt(q, v[pid].pack.keys[i]) ==> !rotate_right_nodes(
                v,
                pid,
                i,
            )[pid].pack.has(q) && rotate_right_nodes(v, pid, i)[pid].pack.child_idx(q) == i,
        rotate_right_nodes(v, pid, i)[pid].children == v[pid].children,
        rotate_right_nodes(v, pid, i)[pid].pack.len() == v[pid].pack.len(),
        rotate_right_nodes(v, pid, i)[pid].pack.keys == v[pid].pack.keys.update(
            i,
            v[v[pid].children[i + 1]].pack.keys[0],
        ),
        forall|q: Seq<u8>|
            #![trigger rotate_right_nodes(v, pid, i)[v[pid].children[i]].pack.has(q)]
            key_lt(q, v[pid].pack.keys[i]) ==> (rotate_right_nodes(
                v,
                pid,
                i,
            )[v[pid].children[i]].pack.has(q) <==> v[v[pid].children[i]].pack.has(q)),
        forall|q: Seq<u8>|
            #![trigger rotate_right_nodes(v, pid, i)[v[pid].children[i]].pack.child_idx(q)]
            key_lt(q, v[pid].pack.keys[i]) && h > 2 ==> rotate_right_nodes(
                v,
                pid,
                i,
            )[v[pid].children[i]].children[rotate_right_nodes(
                v,
                pid,
                i,
            )[v[pid].children[i]].pack.child_idx(q)]
                == v[v[pid].children[i]].children[v[v[pid].children[i]].pack.child_idx(q)],
{
    let p = v[pid];
    let g = (h - 1) as nat;
    let c = p.children[i];
    let s = p.children[i + 1];
    let w = rotate_right_nodes(v, pid, i);
    let dk = p.pack.keys[i];
    let dp = p.pack.payloads[i];
    let ak = v[s].pack.keys[0];
    let ap = v[s].pack.payloads[0];
    let lo_c = lo_of(p.pack, i, lo);
    let hi_s = hi_of(p.pack, i + 1, hi);
    let moved = v[s].children[0];
    assert(c == v[pid].children[i] && s == v[pid].children[i + 1]);
    assert(subtree_wf(v, c, g, lo_c, Some(dk), t, t - 1));
    assert(subtree_wf(v, s, g, Some(dk), hi_s, t, t - 1));
    assert(in_subtree(v, pid, h, pid));
    assert(in_subtree(v, c, g, c));
    assert(in_subtree(v, s, g, s));
    assert(!in_subtree(v, c, g, pid) && !in_subtree(v, s, g, pid));
    assert(!in_subtree(v, s, g, c) && !in_subtree(v, c, g, s));
    assert(c != s && c != pid && s != pid);
    assert(w[pid] == node_reseat(p, i, ak, ap));
    assert(w[s] == node_take_first(v[s]));
    assert(w[c] == node_graft_last(v[c], dk, dp, moved));
    lemma_take_is_trim(v[s]);
    // The keys that move lie in order
    assert(above(Some(dk), ak) && below(hi_s, ak));
    assert(above(lo, dk) && below(hi, dk));
    if i > 0 {
        assert(key_lt(p.pack.keys[i - 1], p.pack.keys[i]));
    }
    assert(above(lo_c, dk));
    if lo_c is Some {
        lemma_key_lt_transitive(lo_c.unwrap(), dk, ak);
    }
    // Every node under the two children keeps its place
    assert forall|x: NodeId|
        #![trigger w.contains_key(x)]
        #![trigger in_subtree(v, c, g, x)]
        in_subtree(v, c, g, x) && x != c implies w.contains_key(x) && w[x] == v[x] by {
        lemma_in_subtree_known(v, c, g, lo_c, Some(dk), t, t - 1, x);
        assert(!in_subtree(v, s, g, x));
    }
    assert forall|x: NodeId|
        #![trigger w.contains_key(x)]
        #![trigger in_subtree(v, s, g, x)]
        in_subtree(v, s, g, x) && x != s implies w.contains_key(x) && w[x] == v[x] by {
        lemma_in_subtree_known(v, s, g, Some(dk), hi_s, t, t - 1, x);
        assert(!in_subtree(v, c, g, x));
    }
    lemma_trim(v, w, s, g, Some(dk), hi_s, t, t - 1, 1, v[s].pack.len() as int, t - 1);
    if g > 1 {
        let gg = (g - 1) as nat;
        assert(moved == v[s].children[0]);
        assert(subtree_wf(v, moved, gg, Some(dk), Some(ak), t, t - 1));
        assert forall|x: NodeId| #[trigger] in_subtree(v, moved, gg, x) implies w.contains_key(x)
            && w[x] == v[x] by {
            assert(in_subtree(v, s, g, x));
            assert(!in_subtree(v, moved, gg, s));
        }
        lemma_frame(v, w, moved, gg, Some(dk), Some(ak), t, t - 1);
        assert forall|x: NodeId| #![trigger in_subtree(w, moved, gg, x)] in_subtree(w, moved, gg, x) implies !in_subtree(
            v,
            c,
            g,
            x,
        ) by {
            assert(in_subtree(v, moved, gg, x));
            assert(in_subtree(v, s, g, x));
        }
    }
    lemma_graft_last(v, w, c, g, lo_c, Some(dk), t, t - 1, dk, dp, moved, Some(ak));
    // The two children under the new parent
    assert forall|x: NodeId|
        #![trigger in_subtree(w, c, g, x)]
        #![trigger in_subtree(w, s, g, x)]
        (in_subtree(w, c, g, x) || in_subtree(w, s, g, x)) implies (in_subtree(v, c, g, x)
            || in_subtree(v, s, g, x)) && !(in_subtree(w, c, g, x) && in_subtree(w, s, g, x)) by {
        if g > 1 && in_subtree(w, moved, (g - 1) as nat, x) {
            assert(in_subtree(v, moved, (g - 1) as nat, x));
            assert(in_subtree(v, v[s].children[0], (g - 1) as nat, x));
            assert(in_subtree(v, s, g, x));
        }
        if in_subtree(w, s, g, x) {
            assert(in_subtree(v, s, g, x));
            assert(!in_subtree(v, c, g, x));
        }
    }
    assert forall|x: NodeId|
        #![trigger w.contains_key(x)]
        #![trigger in_subtree(v, pid, h, x)]
        in_subtree(v, pid, h, x) && x != pid && !in_subtree(v, c, g, x) && !in_subtree(
            v,
            s,
            g,
            x,
        ) implies w.contains_key(x) && w[x] == v[x] by {
        lemma_in_subtree_known(v, pid, h, lo, hi, t, pmin, x);
    }
    lemma_reseat(v, w, pid, h, lo, hi, t, pmin, i, ak, ap);
    assert forall|x: NodeId| #![trigger in_subtree(w, pid, h, x)] in_subtree(w, pid, h, x)
        == in_subtree(v, pid, h, x) by {
        if in_subtree(v, c, g, x) || in_subtree(v, s, g, x) {
            assert(in_subtree(v, pid, h, x));
        }
        if in_subtree(v, s, g, x) && x != s {
            let j = choose|j: int|
                #![trigger v[s].children[j]]
                0 <= j < v[s].children.len() && in_subtree(v, v[s].children[j], (g - 1) as nat, x);
            if j == 0 {
                assert(in_subtree(w, moved, (g - 1) as nat, x));
            }
        }
        if g > 1 && in_subtree(w, moved, (g - 1) as nat, x) {
            assert(in_subtree(v, v[s].children[0], (g - 1) as nat, x));
            assert(in_subtree(v, s, g, x));
        }
    }
    assert forall|q: Seq<u8>| #![trigger lookup(w, pid, h, q)] lookup(w, pid, h, q) == lookup(
        v,
        pid,
        h,
        q,
    ) by {
        lemma_lookup_ends(v, s, g, Some(dk), hi_s, t, t - 1, q);
        lemma_key_lt_irreflexive(dk);
        lemma_key_lt_asymmetric(dk, ak);
        if in_gap(p.pack, i, q) {
            lemma_gap_lookup(v, pid, h, lo, hi, t, pmin, i, q);
            if q == ak {
            } else if key_lt(q, ak) {
                assert(lookup(w, c, g, q) == if q == dk {
                    Some(dp)
                } else if key_lt(q, dk) {
                    lookup(v, c, g, q)
                } else if g == 1 {
                    None
                } else {
                    lookup(w, moved, (g - 1) as nat, q)
                });
                if q != dk && !key_lt(q, dk) {
                    if !key_lt(dk, q) {
                        lemma_key_lt_connected(q, dk);
                    }
                    if g > 1 {
                        assert(lookup(w, moved, (g - 1) as nat, q) == lookup(
                            v,
                            moved,
                            (g - 1) as nat,
                            q,
                        ));
                    }
                } else if key_lt(q, dk) {
                    lemma_key_lt_asymmetric(q, dk);
                }
            } else {
                if !key_lt(ak, q) {
                    lemma_key_lt_connected(q, ak);
                }
                lemma_key_lt_transitive(dk, ak, q);
                lemma_key_lt_asymmetric(dk, q);
                assert(lookup(w, s, g, q) == lookup(v, s, g, q));
            }
        }
    }
    assert forall|q: Seq<u8>|
        #![trigger w[pid].pack.child_idx(q)]
        #![trigger w[pid].pack.has(q)]
        in_gap(p.pack, i, q) && key_lt(q, dk) implies !w[pid].pack.has(q) && w[pid].pack.child_idx(
            q,
        ) == i by {
        lemma_key_lt_transitive(q, dk, ak);
        lemma_key_lt_irreflexive(q);
    }
}

/// The rotation of a key from the child before, through the parent, into
/// the child at `i` leaves the subtree under the parent well formed, with
/// the same nodes; a search finds in it what it found before.
#[verifier::rlimit(100)]
#[verifier::spinoff_prover]
pub proof fn lemma_rotate_left(
    v: Nodes,
    pid: NodeId,
    h: nat,
    lo: Bound,
    hi: Bound,
    t: int,
    pmin: int,
    i: int,
)
    requires
        t >= 2,
        h >= 2,
        subtree_wf(v, pid, h, lo, hi, t, pmin),
        1 <= i < v[pid].children.len(),
        v[v[pid].children[i]].pack.len() < 2 * t - 1,
        v[v[pid].children[i - 1]].pack.len() >= t,
    ensures
        subtree_wf(rotate_left_nodes(v, pid, i), pid, h, lo, hi, t, pmin),
        forall|x: NodeId|
            #![trigger in_subtree(rotate_left_nodes(v, pid, i), pid, h, x)]
            in_subtree(rotate_left_nodes(v, pid, i), pid, h, x) == in_subtree(v, pid, h, x),
        forall|q: Seq<u8>|
            #![trigger lookup(rotate_left_nodes(v, pid, i), pid, h, q)]
            lookup(rotate_left_nodes(v, pid, i), pid, h, q) == lookup(v, pid, h, q),
        rotate_left_nodes(v, pid, i)[v[pid].children[i]].pack.len()
            == v[v[pid].children[i]].pack.len() + 1,
        forall|q: Seq<u8>|
            #![trigger rotate_left_nodes(v, pid, i)[pid].pack.child_idx(q)]
            #![trigger rotate_left_nodes(v, pid, i)[pid].pack.has(q)]
            in_gap(v[pid].pack, i - 1, q) && key_lt(v[pid].pack.keys[i - 1], q)
                ==> !rotate_left_nodes(v, pid, i)[pid].pack.has(q) && rotate_left_nodes(
                v,
                pid,
                i,
            )[pid].pack.child_idx(q) == i,
        rotate_left_nodes(v, pid, i)[pid].children == v[pid].children,
        rotate_left_nodes(v, pid, i)[pid].pack.len() == v[pid].pack.len(),
        rotate_left_nodes(v, pid, i)[pid].pack.keys == v[pid].pack.keys.update(
            i - 1,
            v[v[pid].children[i - 1]].pack.keys.last(),
        ),
        forall|q: Seq<u8>|
            #![trigger rotate_left_nodes(v, pid, i)[v[pid].children[i]].pack.has(q)]
            key_lt(v[pid].pack.keys[i - 1], q) ==> (rotate_left_nodes(
                v,
                pid,
                i,
            )[v[pid].children[i]].pack.has(q) <==> v[v[pid].children[i]].pack.has(q)),
        forall|q: Seq<u8>|
            #![trigger rotate_left_nodes(v, pid, i)[v[pid].children[i]].pack.child_idx(q)]
            key_lt(v[pid].pack.keys[i - 1], q) && h > 2 ==> rotate_left_nodes(
                v,
                pid,
                i,
            )[v[pid].children[i]].children[rotate_left_nodes(
                v,
                pid,
                i,
            )[v[pid].children[i]].pack.child_idx(q)]
                == v[v[pid].children[i]].children[v[v[pid].children[i]].pack.child_idx(q)],
{
    let p = v[pid];
    let g = (h - 1) as nat;
    let c = p.children[i];
    let l = p.children[i - 1];
    let w = rotate_left_nodes(v, pid, i);
    let dk = p.pack.keys[i - 1];
    let dp = p.pack.payloads[i - 1];
    let nl = v[l].pack.keys.len() as int;
    let ak = v[l].pack.keys[nl - 1];
    let ap = v[l].pack.payloads[nl - 1];
    let lo_l = lo_of(p.pack, i - 1, lo);
    let hi_c = hi_of(p.pack, i, hi);
    let moved = v[l].children.last();
    assert(c == v[pid].children[i] && l == v[pid].children[i - 1]);
    assert(subtree_wf(v, l, g, lo_l, Some(dk), t, t - 1));
    assert(subtree_wf(v, c, g, Some(dk), hi_c, t, t - 1));
    assert(in_subtree(v, pid, h, pid));
    assert(in_subtree(v, c, g, c));
    assert(in_subtree(v, l, g, l));
    assert(!in_subtree(v, c, g, pid) && !in_subtree(v, l, g, pid));
    assert(!in_subtree(v, l, g, c) && !in_subtree(v, c, g, l));
    assert(c != l && c != pid && l != pid);
    assert(w[pid] == node_reseat(p, i - 1, ak, ap));
    assert(w[l] == node_take_last(v[l]));
    assert(w[c] == node_graft_first(v[c], dk, dp, moved));
    lemma_take_is_trim(v[l]);
    // The keys that move lie in order
    assert(above(lo_l, ak) && below(Some(dk), ak));
    assert(above(lo, dk) && below(hi, dk));
    if i < p.pack.keys.len() {
        assert(key_lt(p.pack.keys[i - 1], p.pack.keys[i]));
    }
    assert(below(hi_c, dk));
    if hi_c is Some {
        lemma_key_lt_transitive(ak, dk, hi_c.unwrap());
    }
    // Every node under the two children keeps its place
    assert forall|x: NodeId|
        #![trigger w.contains_key(x)]
        #![trigger in_subtree(v, c, g, x)]
        in_subtree(v, c, g, x) && x != c implies w.contains_key(x) && w[x] == v[x] by {
        lemma_in_subtree_known(v, c, g, Some(dk), hi_c, t, t - 1, x);
        assert(!in_subtree(v, l, g, x));
    }
    assert forall|x: NodeId|
        #![trigger w.contains_key(x)]
        #![trigger in_subtree(v, l, g, x)]
        in_subtree(v, l, g, x) && x != l implies w.contains_key(x) && w[x] == v[x] by {
        lemma_in_subtree_known(v, l, g, lo_l, Some(dk), t, t - 1, x);
        assert(!in_subtree(v, c, g, x));
    }
    lemma_trim(v, w, l, g, lo_l, Some(dk), t, t - 1, 0, nl - 1, t - 1);
    if g > 1 {
        let gg = (g - 1) as nat;
        assert(moved == v[l].children[nl]);
        assert(subtree_wf(v, moved, gg, Some(ak), Some(dk), t, t - 1));
        assert forall|x: NodeId| #[trigger] in_subtree(v, moved, gg, x) implies w.contains_key(x)
            && w[x] == v[x] by {
            assert(in_subtree(v, l, g, x));
            assert(!in_subtree(v, moved, gg, l));
        }
        lemma_frame(v, w, moved, gg, Some(ak), Some(dk), t, t - 1);
        assert forall|x: NodeId| #![trigger in_subtree(w, moved, gg, x)] in_subtree(w, moved, gg, x) implies !in_subtree(
            v,
            c,
            g,
            x,
        ) by {
            assert(in_subtree(v, moved, gg, x));
            assert(in_subtree(v, l, g, x));
        }
    }
    lemma_graft_first(v, w, c, g, Some(dk), hi_c, t, t - 1, dk, dp, moved, Some(ak));
    // The two children under the new parent
    assert forall|x: NodeId|
        #![trigger in_subtree(w, l, g, x)]
        #![trigger in_subtree(w, c, g, x)]
        (in_subtree(w, l, g, x) || in_subtree(w, c, g, x)) implies (in_subtree(v, l, g, x)
            || in_subtree(v, c, g, x)) && !(in_subtree(w, l, g, x) && in_subtree(w, c, g, x)) by {
        if g > 1 && in_subtree(w, moved, (g - 1) as nat, x) {
            assert(in_subtree(v, moved, (g - 1) as nat, x));
            assert(in_subtree(v, v[l].children[nl], (g - 1) as nat, x));
            assert(in_subtree(v, l, g, x));
        }
        if in_subtree(w, l, g, x) {
            assert(in_subtree(v, l, g, x));
            assert(!in_subtree(v, c, g, x));
        }
    }
    assert forall|x: NodeId|
        #![trigger w.contains_key(x)]
        #![trigger in_subtree(v, pid, h, x)]
        in_subtree(v, pid, h, x) && x != pid && !in_subtree(v, l, g, x) && !in_subtree(
            v,
            c,
            g,
            x,
        ) implies w.contains_key(x) && w[x] == v[x] by {
        lemma_in_subtree_known(v, pid, h, lo, hi, t, pmin, x);
    }
    lemma_reseat(v, w, pid, h, lo, hi, t, pmin, i - 1, ak, ap);
    assert forall|x: NodeId| #![trigger in_subtree(w, pid, h, x)] in_subtree(w, pid, h, x)
        == in_subtree(v, pid, h, x) by {
        if in_subtree(v, c, g, x) || in_subtree(v, l, g, x) {
            assert(in_subtree(v, pid, h, x));
        }
        if in_subtree(v, l, g, x) && x != l {
            let j = choose|j: int|
                #![trigger v[l].children[j]]
                0 <= j < v[l].children.len() && in_subtree(v, v[l].children[j], (g - 1) as nat, x);
            if j == nl {
                assert(in_subtree(w, moved, (g - 1) as nat, x));
            }
        }
        if g > 1 && in_subtree(w, moved, (g - 1) as nat, x) {
            assert(in_subtree(v, v[l].children[nl], (g - 1) as nat, x));
            assert(in_subtree(v, l, g, x));
        }
    }
    assert forall|q: Seq<u8>| #![trigger lookup(w, pid, h, q)] lookup(w, pid, h, q) == lookup(
        v,
        pid,
        h,
        q,
    ) by {
        lemma_lookup_ends(v, l, g, lo_l, Some(dk), t, t - 1, q);
        lemma_key_lt_irreflexive(dk);
        lemma_key_lt_asymmetric(ak, dk);
        if in_gap(p.pack, i - 1, q) {
            lemma_gap_lookup(v, pid, h, lo, hi, t, pmin, i - 1, q);
            if q == ak {
            } else if key_lt(q, ak) {
                lemma_key_lt_transitive(q, ak, dk);
                lemma_key_lt_asymmetric(q, dk);
                assert(lookup(w, l, g, q) == lookup(v, l, g, q));
            } else {
                if !key_lt(ak, q) {
                    lemma_key_lt_connected(q, ak);
                }
                assert(lookup(w, c, g, q) == if q == dk {
                    Some(dp)
                } else if key_lt(dk, q) {
                    lookup(v, c, g, q)
                } else if g == 1 {
                    None
                } else {
                    lookup(w, moved, (g - 1) as nat, q)
                });
                if q != dk && !key_lt(dk, q) {
                    if !key_lt(q, dk) {
                        lemma_key_lt_connected(q, dk);
                    }
                    if g > 1 {
                        assert(lookup(w, moved, (g - 1) as nat, q) == lookup(
                            v,
                            moved,
                            (g - 1) as nat,
                            q,
                        ));
                    }
                } else if key_lt(dk, q) {
                    lemma_key_lt_asymmetric(dk, q);
                }
            }
        }
    }
    assert forall|q: Seq<u8>|
        #![trigger w[pid].pack.child_idx(q)]
        #![trigger w[pid].pack.has(q)]
        in_gap(p.pack, i - 1, q) && key_lt(dk, q) implies !w[pid].pack.has(q)
            && w[pid].pack.child_idx(q) == i by {
        lemma_key_lt_transitive(ak, dk, q);
        lemma_key_lt_asymmetric(ak, q);
        lemma_key_lt_irreflexive(q);
    }
}

/// The nodes after the children at `j` and `j + 1` of the node `pid` have
/// become one, through the key between them, which gets the payload `dp`.
pub open spec fn join_nodes(v: Nodes, pid: NodeId, j: int, dp: u64) -> Nodes {
    let p = v[pid];
    let a = p.children[j];
    let b = p.children[j + 1];
    v.insert(a, node_merge(v[a], p.pack.keys[j], dp, v[b])).remove(b).insert(pid, node_unseat(p, j))
}

/// The nodes after the two children of the root `pid`, which has one key,
/// have become one, and the root has gone.
pub open spec fn join_root_nodes(v: Nodes, pid: NodeId, dp: u64) -> Nodes {
    let p = v[pid];
    let a = p.children[0];
    let b = p.children[1];
    v.insert(a, node_merge(v[a], p.pack.keys[0], dp, v[b])).remove(b).remove(pid)
}

/// What is common to the two ways of merging: the merged child is a
/// well-formed subtree between the bounds of the two children.
proof fn lemma_join_child(
    v: Nodes,
    w: Nodes,
    pid: NodeId,
    h: nat,
    lo: Bound,
    hi: Bound,
    t: int,
    pmin: int,
    j: int,
    dp: u64,
)
    requires
        t >= 2,
        h >= 2,
        subtree_wf(v, pid, h, lo, hi, t, pmin),
        0 <= j < v[pid].pack.len(),
        v[v[pid].children[j]].pack.len() + 1 + v[v[pid].children[j + 1]].pack.len() <= 2 * t - 1,
        w.contains_key(v[pid].children[j]),
        w[v[pid].children[j]] == node_merge(
            v[v[pid].children[j]],
            v[pid].pack.keys[j],
            dp,
            v[v[pid].children[j + 1]],
        ),
        forall|x: NodeId|
            #![trigger w.contains_key(x)]
            #![trigger w[x]]
            x != pid && x != v[pid].children[j] && x != v[pid].children[j + 1] && v.contains_key(x)
                ==> w.contains_key(x) && w[x] == v[x],
    ensures
        subtree_wf(
            w,
            v[pid].children[j],
            (h - 1) as nat,
            lo_of(v[pid].pack, j, lo),
            hi_of(v[pid].pack, j + 1, hi),
            t,
            t - 1,
        ),
        w[v[pid].children[j]].pack.len() == v[v[pid].children[j]].pack.len() + 1
            + v[v[pid].children[j + 1]].pack.len(),
        w[v[pid].children[j]].pack.has(v[pid].pack.keys[j]),
        forall|x: NodeId|
            #![trigger in_subtree(w, v[pid].children[j], (h - 1) as nat, x)]
            in_subtree(w, v[pid].children[j], (h - 1) as nat, x) <==> in_subtree(
                v,
                v[pid].children[j],
                (h - 1) as nat,
                x,
            ) || (in_subtree(v, v[pid].children[j + 1], (h - 1) as nat, x) && x
                != v[pid].children[j + 1]),
        forall|q: Seq<u8>|
            #![trigger lookup(w, v[pid].children[j], (h - 1) as nat, q)]
            in_gap(v[pid].pack, j, q) ==> lookup(w, v[pid].children[j], (h - 1) as nat, q) == if q
                == v[pid].pack.keys[j] {
                Some(dp)
            } else {
                lookup(v, pid, h, q)
            },
        forall|q: Seq<u8>|
            #![trigger w[v[pid].children[j]].pack.has(q)]
            #![trigger w[v[pid].children[j]].pack.child_idx(q)]
            q != v[pid].pack.keys[j] ==> {
                let o = if key_lt(q, v[pid].pack.keys[j]) {
                    v[v[pid].children[j]]
                } else {
                    v[v[pid].children[j + 1]]
                };
                &&& w[v[pid].children[j]].pack.has(q) <==> o.pack.has(q)
                &&& h > 2 ==> w[v[pid].children[j]].children[w[v[pid].children[j]].pack.child_idx(
                    q,
                )] == o.children[o.pack.child_idx(q)]
            },
        v[pid].children[j] != pid,
        v[pid].children[j + 1] != pid,
        v[pid].children[j] != v[pid].children[j + 1],
        in_subtree(v, pid, h, v[pid].children[j + 1]),
        in_subtree(v, pid, h, v[pid].children[j]),
        !in_subtree(v, v[pid].children[j], (h - 1) as nat, v[pid].children[j + 1]),
        !in_subtree(v, v[pid].children[j], (h - 1) as nat, pid),
        !in_subtree(v, v[pid].children[j + 1], (h - 1) as nat, pid),
{
    let p = v[pid];
    let g = (h - 1) as nat;
    let a = p.children[j];
    let b = p.children[j + 1];
    let dk = p.pack.keys[j];
    let lo_a = lo_of(p.pack, j, lo);
    let hi_b = hi_of(p.pack, j + 1, hi);
    assert(a == v[pid].children[j] && b == v[pid].children[j + 1]);
    assert(subtree_wf(v, a, g, lo_a, Some(dk), t, t - 1));
    assert(subtree_wf(v, b, g, Some(dk), hi_b, t, t - 1));
    assert(in_subtree(v, pid, h, pid));
    assert(in_subtree(v, a, g, a));
    assert(in_subtree(v, b, g, b));
    assert(!in_subtree(v, a, g, pid) && !in_subtree(v, b, g, pid));
    assert(!in_subtree(v, b, g, a) && !in_subtree(v, a, g, b));
    assert(above(lo, dk) && below(hi, dk));
    if j > 0 {
        assert(key_lt(p.pack.keys[j - 1], p.pack.keys[j]));
    }
    if j + 1 < p.pack.keys.len() {
        assert(key_lt(p.pack.keys[j], p.pack.keys[j + 1]));
    }
    assert forall|x: NodeId|
        #![trigger in_subtree(v, a, g, x)]
        #![trigger in_subtree(v, b, g, x)]
        !(in_subtree(v, a, g, x) && in_subtree(v, b, g, x)) by {
        if in_subtree(v, a, g, x) {
            assert(!in_subtree(v, v[pid].children[j + 1], g, x));
        }
    }
    assert forall|x: NodeId|
        #![trigger w.contains_key(x)]
        #![trigger in_subtree(v, a, g, x)]
        #![trigger in_subtree(v, b, g, x)]
        (in_subtree(v, a, g, x) || in_subtree(v, b, g, x)) && x != a && x != b implies w.contains_key(
            x,
        ) && w[x] == v[x] by {
        if in_subtree(v, a, g, x) {
            lemma_in_subtree_known(v, a, g, lo_a, Some(dk), t, t - 1, x);
        } else {
            lemma_in_subtree_known(v, b, g, Some(dk), hi_b, t, t - 1, x);
        }
    }
    lemma_merge(v, w, a, b, g, lo_a, hi_b, t, dk, dp);
    assert forall|q: Seq<u8>|
        #![trigger lookup(w, a, g, q)]
        in_gap(p.pack, j, q) implies lookup(w, a, g, q) == if q == dk {
            Some(dp)
        } else {
            lookup(v, pid, h, q)
        } by {
        lemma_gap_lookup(v, pid, h, lo, hi, t, pmin, j, q);
    }
}

/// To merge the children at `j` and `j + 1` of a node through the key
/// between them leaves the subtree under the node well formed. It has the
/// nodes it had but the child at `j + 1`; a search finds the payload `dp` at
/// the key that went down, and at every other key what it found before.
#[verifier::rlimit(60)]
#[verifier::spinoff_prover]
pub proof fn lemma_join(
    v: Nodes,
    pid: NodeId,
    h: nat,
    lo: Bound,
    hi: Bound,
    t: int,
    pmin: int,
    j: int,
    dp: u64,
)
    requires
        t >= 2,
        h >= 2,
        subtree_wf(v, pid, h, lo, hi, t, pmin),
        0 <= j < v[pid].pack.len(),
        pmin <= v[pid].pack.len() - 1,
        v[v[pid].children[j]].pack.len() + 1 + v[v[pid].children[j + 1]].pack.len() <= 2 * t - 1,
    ensures
        subtree_wf(join_nodes(v, pid, j, dp), pid, h, lo, hi, t, pmin),
        forall|x: NodeId|
            #![trigger in_subtree(join_nodes(v, pid, j, dp), pid, h, x)]
            in_subtree(join_nodes(v, pid, j, dp), pid, h, x) <==> in_subtree(v, pid, h, x) && x
                != v[pid].children[j + 1],
        forall|q: Seq<u8>|
            #![trigger lookup(join_nodes(v, pid, j, dp), pid, h, q)]
            lookup(join_nodes(v, pid, j, dp), pid, h, q) == if q == v[pid].pack.keys[j] {
                Some(dp)
            } else {
                lookup(v, pid, h, q)
            },
        join_nodes(v, pid, j, dp)[v[pid].children[j]].pack.len() == v[v[pid].children[j]].pack.len()
            + 1 + v[v[pid].children[j + 1]].pack.len(),
        join_nodes(v, pid, j, dp)[v[pid].children[j]].pack.has(v[pid].pack.keys[j]),
        join_nodes(v, pid, j, dp)[pid].children[j] == v[pid].children[j],
        join_nodes(v, pid, j, dp)[pid].pack.len() == v[pid].pack.len() - 1,
        forall|q: Seq<u8>|
            #![trigger join_nodes(v, pid, j, dp)[pid].pack.child_idx(q)]
            #![trigger join_nodes(v, pid, j, dp)[pid].pack.has(q)]
            in_gap(v[pid].pack, j, q) ==> !join_nodes(v, pid, j, dp)[pid].pack.has(q) && join_nodes(
                v,
                pid,
                j,
                dp,
            )[pid].pack.child_idx(q) == j,
        forall|q: Seq<u8>|
            #![trigger join_nodes(v, pid, j, dp)[v[pid].children[j]].pack.has(q)]
            #![trigger join_nodes(v, pid, j, dp)[v[pid].children[j]].pack.child_idx(q)]
            q != v[pid].pack.keys[j] ==> {
                let o = if key_lt(q, v[pid].pack.keys[j]) {
                    v[v[pid].children[j]]
                } else {
                    v[v[pid].children[j + 1]]
                };
                &&& join_nodes(v, pid, j, dp)[v[pid].children[j]].pack.has(q) <==> o.pack.has(q)
                &&& h > 2 ==> join_nodes(v, pid, j, dp)[v[pid].children[j]].children[join_nodes(
                    v,
                    pid,
                    j,
                    dp,
                )[v[pid].children[j]].pack.child_idx(q)] == o.children[o.pack.child_idx(q)]
            },
        v[pid].children[j] != pid,
        v[pid].children[j + 1] != pid,
        v[pid].children[j] != v[pid].children[j + 1],
        in_subtree(v, pid, h, v[pid].children[j + 1]),
{
    let p = v[pid];
    let g = (h - 1) as nat;
    let a = p.children[j];
    let b = p.children[j + 1];
    let w = join_nodes(v, pid, j, dp);
    assert(in_subtree(v, pid, h, pid));
    assert(in_subtree(v, p.children[j], g, a));
    assert(in_subtree(v, p.children[j + 1], g, b));
    assert(a == v[pid].children[j] && b == v[pid].children[j + 1]);
    assert(!in_subtree(v, v[pid].children[j], g, pid));
    assert(!in_subtree(v, v[pid].children[j + 1], g, pid));
    assert(!in_subtree(v, v[pid].children[j + 1], g, a));
    assert(a != pid && b != pid && a != b);
    lemma_join_child(v, w, pid, h, lo, hi, t, pmin, j, dp);
    assert forall|x: NodeId|
        #![trigger w.contains_key(x)]
        #![trigger in_subtree(v, pid, h, x)]
        in_subtree(v, pid, h, x) && x != pid && !in_subtree(v, a, g, x) && !in_subtree(
            v,
            b,
            g,
            x,
        ) implies w.contains_key(x) && w[x] == v[x] by {
        lemma_in_subtree_known(v, pid, h, lo, hi, t, pmin, x);
    }
    lemma_unseat(v, w, pid, h, lo, hi, t, pmin, j);
    assert forall|x: NodeId| #![trigger in_subtree(w, pid, h, x)] in_subtree(w, pid, h, x) <==> in_subtree(
        v,
        pid,
        h,
        x,
    ) && x != b by {
        if in_subtree(v, a, g, x) || in_subtree(v, b, g, x) {
            assert(in_subtree(v, pid, h, x));
        }
    }
    assert forall|q: Seq<u8>| #![trigger lookup(w, pid, h, q)] lookup(w, pid, h, q) == if q
        == p.pack.keys[j] {
        Some(dp)
    } else {
        lookup(v, pid, h, q)
    } by {
        if in_gap(p.pack, j, q) {
            assert(lookup(w, a, g, q) == if q == p.pack.keys[j] {
                Some(dp)
            } else {
                lookup(v, pid, h, q)
            });
        } else {
            if q == p.pack.keys[j] {
                if j > 0 {
                    assert(key_lt(p.pack.keys[j - 1], p.pack.keys[j]));
                }
                if j + 1 < p.pack.keys.len() {
                    assert(key_lt(p.pack.keys[j], p.pack.keys[j + 1]));
                }
            }
        }
    }
}

/// To merge the two children of a root with one key, and let the merged
/// child take the place of the root, gives a well-formed tree one level
/// lower. It has the nodes it had but the old root and its second child; a
/// search finds the payload `dp` at the key that went down, and at every
/// other key what it found before.
#[verifier::rlimit(60)]
#[verifier::spinoff_prover]
pub proof fn lemma_join_root(v: Nodes, pid: NodeId, h: nat, t: int, dp: u64)
    requires
        t >= 2,
        h >= 2,
        subtree_wf(v, pid, h, None, None, t, 1),
        v[pid].pack.len() == 1,
        v[v[pid].children[0]].pack.len() + 1 + v[v[pid].children[1]].pack.len() <= 2 * t - 1,
    ensures
        subtree_wf(join_root_nodes(v, pid, dp), v[pid].children[0], (h - 1) as nat, None, None, t, 1),
        forall|x: NodeId|
            #![trigger in_subtree(join_root_nodes(v, pid, dp), v[pid].children[0], (h - 1) as nat, x)]
            in_subtree(join_root_nodes(v, pid, dp), v[pid].children[0], (h - 1) as nat, x)
                <==> in_subtree(v, pid, h, x) && x != v[pid].children[1] && x != pid,
        forall|q: Seq<u8>|
            #![trigger lookup(join_root_nodes(v, pid, dp), v[pid].children[0], (h - 1) as nat, q)]
            lookup(join_root_nodes(v, pid, dp), v[pid].children[0], (h - 1) as nat, q) == if q
                == v[pid].pack.keys[0] {
                Some(dp)
            } else {
                lookup(v, pid, h, q)
            },
        join_root_nodes(v, pid, dp)[v[pid].children[0]].pack.len() == v[v[pid].children[0]].pack.len()
            + 1 + v[v[pid].children[1]].pack.len(),
        join_root_nodes(v, pid, dp)[v[pid].children[0]].pack.has(v[pid].pack.keys[0]),
        forall|q: Seq<u8>|
            #![trigger join_root_nodes(v, pid, dp)[v[pid].children[0]].pack.has(q)]
            #![trigger join_root_nodes(v, pid, dp)[v[pid].children[0]].pack.child_idx(q)]
            q != v[pid].pack.keys[0] ==> {
                let o = if key_lt(q, v[pid].pack.keys[0]) {
                    v[v[pid].children[0]]
                } else {
                    v[v[pid].children[1]]
                };
                &&& join_root_nodes(v, pid, dp)[v[pid].children[0]].pack.has(q) <==> o.pack.has(q)
                &&& h > 2 ==> join_root_nodes(v, pid, dp)[v[pid].children[0]].children[join_root_nodes(
                    v,
                    pid,
                    dp,
                )[v[pid].children[0]].pack.child_idx(q)] == o.children[o.pack.child_idx(q)]
            },
        v[pid].children[0] != pid,
        v[pid].children[1] != pid,
        v[pid].children[0] != v[pid].children[1],
        in_subtree(v, pid, h, v[pid].children[1]),
{
    let p = v[pid];
    let g = (h - 1) as nat;
    let a = p.children[0];
    let b = p.children[1];
    let w = join_root_nodes(v, pid, dp);
    assert(in_subtree(v, pid, h, pid));
    assert(in_subtree(v, p.children[0], g, a));
    assert(in_subtree(v, p.children[1], g, b));
    assert(a == v[pid].children[0] && b == v[pid].children[1]);
    assert(!in_subtree(v, v[pid].children[0], g, pid));
    assert(!in_subtree(v, v[pid].children[1], g, pid));
    assert(!in_subtree(v, v[pid].children[1], g, a));
    assert(a != pid && b != pid && a != b);
    lemma_join_child(v, w, pid, h, None, None, t, 1, 0, dp);
    crate::model::lemma_change_min(w, a, g, None, None, t, t - 1, 1);
    assert forall|x: NodeId|
        #![trigger in_subtree(w, a, g, x)]
        in_subtree(w, a, g, x) <==> in_subtree(v, pid, h, x) && x != b && x != pid by {
        if in_subtree(v, a, g, x) || in_subtree(v, b, g, x) {
            assert(in_subtree(v, pid, h, x));
        }
        if in_subtree(v, pid, h, x) && x != pid {
            let i = choose|i: int|
                #![trigger v[pid].children[i]]
                0 <= i < v[pid].children.len() && in_subtree(v, v[pid].children[i], g, x);
            assert(i == 0 || i == 1);
        }
    }
    assert forall|q: Seq<u8>| in_gap(p.pack, 0, q) by {}
}

} // verus!
