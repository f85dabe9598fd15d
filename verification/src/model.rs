//! The tree as a mathematical object: which nodes, reached from a root
//! through the identifiers of children, make a B-tree, and what it maps each
//! key to.

use crate::node::{NodeId, NodeModel};
use crate::order::key_lt;
use crate::pack::Pack;
use crate::state::State;
use vstd::prelude::*;

verus! {

/// The nodes of an index by identifier.
pub type Nodes = Map<NodeId, NodeModel>;

/// A key that the keys of a subtree stay above or below; `None` where there
/// is no such limit.
pub type Bound = Option<Seq<u8>>;

/// `k` is above the lower bound `lo`.
pub open spec fn above(lo: Bound, k: Seq<u8>) -> bool {
    match lo {
        Some(l) => key_lt(l, k),
        None => true,
    }
}

/// `k` is below the upper bound `hi`.
pub open spec fn below(hi: Bound, k: Seq<u8>) -> bool {
    match hi {
        Some(h) => key_lt(k, h),
        None => true,
    }
}

/// Every key of the pack lies between the two bounds.
pub open spec fn within(p: Pack, lo: Bound, hi: Bound) -> bool {
    forall|i: int| 0 <= i < p.keys.len() ==> above(lo, #[trigger] p.keys[i]) && below(hi, p.keys[i])
}

/// The lower bound of the child at index `i` of a node with the keys of `p`
/// and the lower bound `lo`.
pub open spec fn lo_of(p: Pack, i: int, lo: Bound) -> Bound {
    if i <= 0 {
        lo
    } else {
        Some(p.keys[i - 1])
    }
}

/// The upper bound of the child at index `i` of a node with the keys of `p`
/// and the upper bound `hi`.
pub open spec fn hi_of(p: Pack, i: int, hi: Bound) -> Bound {
    if i >= p.keys.len() {
        hi
    } else {
        Some(p.keys[i])
    }
}

/// The keys of the node ascend, lie between the bounds, and are at least
/// `min` and at most `2t - 1`.
pub open spec fn node_ok(n: NodeModel, lo: Bound, hi: Bound, t: int, min: int) -> bool {
    &&& n.pack.wf()
    &&& min <= n.pack.len() <= 2 * t - 1
    &&& within(n.pack, lo, hi)
}

/// The node `x` belongs to the subtree of height `h` under the node `id`.
pub open spec fn in_subtree(v: Nodes, id: NodeId, h: nat, x: NodeId) -> bool
    decreases h,
{
    h >= 1 && (x == id || (h > 1 && v.contains_key(id) && exists|i: int|
        #![trigger v[id].children[i]]
        0 <= i < v[id].children.len() && in_subtree(v, v[id].children[i], (h - 1) as nat, x)))
}

/// The nodes under `id` make a B-tree of height `h` and minimum degree `t`:
/// every leaf is `h` levels down; the keys of every node ascend and lie
/// between the keys of its parent to its left and to its right, down from the
/// bounds `lo` and `hi`; the node `id` has at least `min` keys and every other
/// node at least `t - 1`, none more than `2t - 1`; an internal node has one
/// child more than keys; and no node is reached twice.
pub open spec fn subtree_wf(
    v: Nodes,
    id: NodeId,
    h: nat,
    lo: Bound,
    hi: Bound,
    t: int,
    min: int,
) -> bool
    decreases h,
{
    &&& h >= 1
    &&& v.contains_key(id)
    &&& node_ok(v[id], lo, hi, t, min)
    &&& if h == 1 {
        v[id].leaf && v[id].children.len() == 0
    } else {
        &&& !v[id].leaf
        &&& v[id].children.len() == v[id].pack.len() + 1
        &&& forall|i: int|
            #![trigger v[id].children[i]]
            0 <= i < v[id].children.len() ==> subtree_wf(
                v,
                v[id].children[i],
                (h - 1) as nat,
                lo_of(v[id].pack, i, lo),
                hi_of(v[id].pack, i, hi),
                t,
                t - 1,
            )
        &&& forall|i: int|
            #![trigger v[id].children[i]]
            0 <= i < v[id].children.len() ==> !in_subtree(v, v[id].children[i], (h - 1) as nat, id)
        &&& forall|i: int, j: int, x: NodeId|
            0 <= i < j < v[id].children.len() && #[trigger] in_subtree(
                v,
                v[id].children[i],
                (h - 1) as nat,
                x,
            ) ==> !#[trigger] in_subtree(v, v[id].children[j], (h - 1) as nat, x)
    }
}

/// The payload that a search for `k` finds in the subtree of height `h` under
/// `id`: that of the first node on the way down that has the key.
pub open spec fn lookup(v: Nodes, id: NodeId, h: nat, k: Seq<u8>) -> Option<u64>
    decreases h,
{
    if h == 0 || !v.contains_key(id) {
        None
    } else if v[id].pack.has(k) {
        v[id].pack.get(k)
    } else if h == 1 {
        None
    } else {
        let i = v[id].pack.child_idx(k);
        if 0 <= i < v[id].children.len() {
            lookup(v, v[id].children[i], (h - 1) as nat, k)
        } else {
            None
        }
    }
}

/// Every node of a well-formed subtree is among the nodes.
pub proof fn lemma_in_subtree_known(
    v: Nodes,
    id: NodeId,
    h: nat,
    lo: Bound,
    hi: Bound,
    t: int,
    min: int,
    x: NodeId,
)
    requires
        subtree_wf(v, id, h, lo, hi, t, min),
        in_subtree(v, id, h, x),
    ensures
        v.contains_key(x),
    decreases h,
{
    if x != id {
        let i = choose|i: int|
            #![trigger v[id].children[i]]
            0 <= i < v[id].children.len() && in_subtree(v, v[id].children[i], (h - 1) as nat, x);
        let c = v[id].children[i];
        lemma_in_subtree_known(
            v,
            c,
            (h - 1) as nat,
            lo_of(v[id].pack, i, lo),
            hi_of(v[id].pack, i, hi),
            t,
            t - 1,
            x,
        );
    }
}

/// A subtree stays what it is where the nodes change outside it only.
pub proof fn lemma_frame(
    v: Nodes,
    w: Nodes,
    id: NodeId,
    h: nat,
    lo: Bound,
    hi: Bound,
    t: int,
    min: int,
)
    requires
        subtree_wf(v, id, h, lo, hi, t, min),
        forall|x: NodeId| #[trigger] in_subtree(v, id, h, x) ==> w.contains_key(x) && w[x] == v[x],
    ensures
        subtree_wf(w, id, h, lo, hi, t, min),
        forall|x: NodeId| #[trigger] in_subtree(w, id, h, x) == in_subtree(v, id, h, x),
        forall|k: Seq<u8>| #[trigger] lookup(w, id, h, k) == lookup(v, id, h, k),
    decreases h,
{
    assert(in_subtree(v, id, h, id));
    let n = v[id];
    assert(w[id] == n);
    if h > 1 {
        let g = (h - 1) as nat;
        assert forall|i: int| 0 <= i < n.children.len() implies {
            &&& subtree_wf(w, #[trigger] n.children[i], g, lo_of(n.pack, i, lo), hi_of(n.pack, i, hi), t, t - 1)
            &&& forall|x: NodeId| #[trigger]
                in_subtree(w, n.children[i], g, x) == in_subtree(v, n.children[i], g, x)
            &&& forall|k: Seq<u8>| #[trigger]
                lookup(w, n.children[i], g, k) == lookup(v, n.children[i], g, k)
        } by {
            let c = n.children[i];
            assert forall|x: NodeId| #[trigger] in_subtree(v, c, g, x) implies w.contains_key(x)
                && w[x] == v[x] by {
                assert(in_subtree(v, id, h, x));
            }
            lemma_frame(v, w, c, g, lo_of(n.pack, i, lo), hi_of(n.pack, i, hi), t, t - 1);
        }
        assert forall|x: NodeId| #[trigger] in_subtree(w, id, h, x) == in_subtree(v, id, h, x) by {
            if in_subtree(v, id, h, x) && x != id {
                let i = choose|i: int|
                    #![trigger n.children[i]]
                    0 <= i < n.children.len() && in_subtree(v, n.children[i], g, x);
                assert(in_subtree(w, n.children[i], g, x));
            }
            if in_subtree(w, id, h, x) && x != id {
                let i = choose|i: int|
                    #![trigger n.children[i]]
                    0 <= i < n.children.len() && in_subtree(w, n.children[i], g, x);
                assert(in_subtree(v, n.children[i], g, x));
            }
        }
        assert forall|k: Seq<u8>| #[trigger] lookup(w, id, h, k) == lookup(v, id, h, k) by {
            let i = n.pack.child_idx(k);
            if !n.pack.has(k) && 0 <= i < n.children.len() {
                assert(lookup(w, n.children[i], g, k) == lookup(v, n.children[i], g, k));
            }
        }
        assert(subtree_wf(w, id, h, lo, hi, t, min));
    }
}

/// A subtree is well formed at one height only.
pub proof fn lemma_height_unique(
    v: Nodes,
    id: NodeId,
    h1: nat,
    lo1: Bound,
    hi1: Bound,
    m1: int,
    h2: nat,
    lo2: Bound,
    hi2: Bound,
    m2: int,
    t: int,
)
    requires
        subtree_wf(v, id, h1, lo1, hi1, t, m1),
        subtree_wf(v, id, h2, lo2, hi2, t, m2),
    ensures
        h1 == h2,
    decreases h1,
{
    if h1 > 1 && h2 > 1 {
        let c = v[id].children[0];
        lemma_height_unique(
            v,
            c,
            (h1 - 1) as nat,
            lo_of(v[id].pack, 0, lo1),
            hi_of(v[id].pack, 0, hi1),
            t - 1,
            (h2 - 1) as nat,
            lo_of(v[id].pack, 0, lo2),
            hi_of(v[id].pack, 0, hi2),
            t - 1,
            t,
        );
    }
}

/// A subtree whose top node has at least `m` keys is well formed with `m` as
/// the least number of keys of its top node.
pub proof fn lemma_change_min(
    v: Nodes,
    id: NodeId,
    h: nat,
    lo: Bound,
    hi: Bound,
    t: int,
    min: int,
    m: int,
)
    requires
        subtree_wf(v, id, h, lo, hi, t, min),
        m <= v[id].pack.len(),
    ensures
        subtree_wf(v, id, h, lo, hi, t, m),
{
}

/// The search for `k` from the node `id`, of height `h` and with the bounds
/// `lo` and `hi`, comes to the node `c`, of height `hc` and with the bounds
/// `clo` and `chi`, and does not find `k` before it.
pub open spec fn on_path(
    v: Nodes,
    id: NodeId,
    h: nat,
    lo: Bound,
    hi: Bound,
    k: Seq<u8>,
    c: NodeId,
    hc: nat,
    clo: Bound,
    chi: Bound,
) -> bool
    decreases h,
{
    if h == hc {
        id == c && lo == clo && hi == chi
    } else if h < hc || h <= 1 {
        false
    } else {
        let i = v[id].pack.child_idx(k);
        &&& v.contains_key(id)
        &&& !v[id].pack.has(k)
        &&& 0 <= i < v[id].children.len()
        &&& on_path(
            v,
            v[id].children[i],
            (h - 1) as nat,
            lo_of(v[id].pack, i, lo),
            hi_of(v[id].pack, i, hi),
            k,
            c,
            hc,
            clo,
            chi,
        )
    }
}

/// A node on the way of a search belongs to the subtree the search began in;
/// so does every node under it.
pub proof fn lemma_path_inside(
    v: Nodes,
    id: NodeId,
    h: nat,
    lo: Bound,
    hi: Bound,
    k: Seq<u8>,
    c: NodeId,
    hc: nat,
    clo: Bound,
    chi: Bound,
    x: NodeId,
)
    requires
        hc >= 1,
        on_path(v, id, h, lo, hi, k, c, hc, clo, chi),
        in_subtree(v, c, hc, x),
    ensures
        in_subtree(v, id, h, x),
        h >= hc,
    decreases h,
{
    if h != hc {
        let i = v[id].pack.child_idx(k);
        lemma_path_inside(
            v,
            v[id].children[i],
            (h - 1) as nat,
            lo_of(v[id].pack, i, lo),
            hi_of(v[id].pack, i, hi),
            k,
            c,
            hc,
            clo,
            chi,
            x,
        );
    }
}

/// The search that has come to the node `c` without finding `k` goes on to
/// the child of `c` at the child index of `k`.
pub proof fn lemma_path_step(
    v: Nodes,
    id: NodeId,
    h: nat,
    lo: Bound,
    hi: Bound,
    k: Seq<u8>,
    c: NodeId,
    hc: nat,
    clo: Bound,
    chi: Bound,
)
    requires
        hc > 1,
        on_path(v, id, h, lo, hi, k, c, hc, clo, chi),
        v.contains_key(c),
        !v[c].pack.has(k),
        0 <= v[c].pack.child_idx(k) < v[c].children.len(),
    ensures
        on_path(
            v,
            id,
            h,
            lo,
            hi,
            k,
            v[c].children[v[c].pack.child_idx(k)],
            (hc - 1) as nat,
            lo_of(v[c].pack, v[c].pack.child_idx(k), clo),
            hi_of(v[c].pack, v[c].pack.child_idx(k), chi),
        ),
    decreases h,
{
    let j = v[c].pack.child_idx(k);
    let d = v[c].children[j];
    let dlo = lo_of(v[c].pack, j, clo);
    let dhi = hi_of(v[c].pack, j, chi);
    if h == hc {
        assert(on_path(v, d, (hc - 1) as nat, dlo, dhi, k, d, (hc - 1) as nat, dlo, dhi));
    } else {
        let i = v[id].pack.child_idx(k);
        lemma_path_step(
            v,
            v[id].children[i],
            (h - 1) as nat,
            lo_of(v[id].pack, i, lo),
            hi_of(v[id].pack, i, hi),
            k,
            c,
            hc,
            clo,
            chi,
        );
    }
}

/// Where the subtree under a node `c` on the way of a search is exchanged
/// for another well-formed subtree of the same height and bounds, made of
/// nodes of the old one and of nodes from outside the tree, the tree around
/// it stays well formed. Its nodes are the old ones outside the old subtree
/// and those of the new subtree, and a search that does not come to `c`
/// finds what it found before.
pub proof fn lemma_replace(
    v: Nodes,
    w: Nodes,
    id: NodeId,
    h: nat,
    lo: Bound,
    hi: Bound,
    t: int,
    min: int,
    k: Seq<u8>,
    c: NodeId,
    hc: nat,
    clo: Bound,
    chi: Bound,
)
    requires
        hc >= 1,
        subtree_wf(v, id, h, lo, hi, t, min),
        on_path(v, id, h, lo, hi, k, c, hc, clo, chi),
        subtree_wf(w, c, hc, clo, chi, t, if h == hc { min } else { t - 1 }),
        forall|x: NodeId|
            #![trigger w.contains_key(x)]
            #![trigger in_subtree(v, id, h, x)]
            in_subtree(v, id, h, x) && !in_subtree(v, c, hc, x) ==> w.contains_key(x) && w[x]
                == v[x],
        forall|x: NodeId|
            #![trigger in_subtree(w, c, hc, x)]
            in_subtree(w, c, hc, x) ==> in_subtree(v, c, hc, x) || !in_subtree(v, id, h, x),
    ensures
        subtree_wf(w, id, h, lo, hi, t, min),
        forall|x: NodeId|
            #![trigger in_subtree(w, id, h, x)]
            in_subtree(w, id, h, x) <==> (in_subtree(v, id, h, x) && !in_subtree(v, c, hc, x))
                || in_subtree(w, c, hc, x),
        forall|q: Seq<u8>|
            #![trigger lookup(w, id, h, q)]
            lookup(w, id, h, q) == if on_path(v, id, h, lo, hi, q, c, hc, clo, chi) {
                lookup(w, c, hc, q)
            } else {
                lookup(v, id, h, q)
            },
        forall|q: Seq<u8>|
            #![trigger on_path(w, id, h, lo, hi, q, c, hc, clo, chi)]
            on_path(w, id, h, lo, hi, q, c, hc, clo, chi) == on_path(
                v,
                id,
                h,
                lo,
                hi,
                q,
                c,
                hc,
                clo,
                chi,
            ),
    decreases h,
{
    if h == hc {
        assert forall|q: Seq<u8>| on_path(w, id, h, lo, hi, q, c, hc, clo, chi) by {}
        assert forall|q: Seq<u8>| on_path(v, id, h, lo, hi, q, c, hc, clo, chi) by {}
    } else {
        let n = v[id];
        let g = (h - 1) as nat;
        let j = n.pack.child_idx(k);
        let cj = n.children[j];
        let jlo = lo_of(n.pack, j, lo);
        let jhi = hi_of(n.pack, j, hi);
        assert(on_path(v, cj, g, jlo, jhi, k, c, hc, clo, chi));
        // The old subtree of `c` lies under the child `cj`
        assert forall|x: NodeId| in_subtree(v, c, hc, x) implies in_subtree(v, cj, g, x) by {
            lemma_path_inside(v, cj, g, jlo, jhi, k, c, hc, clo, chi, x);
        }
        assert(in_subtree(v, c, hc, c));
        assert(in_subtree(v, id, h, id));
        assert(!in_subtree(v, cj, g, id));
        assert(w.contains_key(id) && w[id] == n);
        assert forall|x: NodeId| in_subtree(v, cj, g, x) implies in_subtree(v, id, h, x) by {}
        lemma_replace(v, w, cj, g, jlo, jhi, t, t - 1, k, c, hc, clo, chi);
        // The other children are as they were
        assert forall|i: int| 0 <= i < n.children.len() && i != j implies {
            &&& subtree_wf(w, #[trigger] n.children[i], g, lo_of(n.pack, i, lo), hi_of(n.pack, i, hi), t, t - 1)
            &&& forall|x: NodeId| #[trigger]
                in_subtree(w, n.children[i], g, x) == in_subtree(v, n.children[i], g, x)
            &&& forall|q: Seq<u8>| #[trigger]
                lookup(w, n.children[i], g, q) == lookup(v, n.children[i], g, q)
        } by {
            let ci = n.children[i];
            assert forall|x: NodeId| #[trigger] in_subtree(v, ci, g, x) implies w.contains_key(x)
                && w[x] == v[x] by {
                assert(in_subtree(v, id, h, x));
                if i < j {
                    assert(!in_subtree(v, cj, g, x));
                } else {
                    assert(!in_subtree(v, cj, g, x));
                }
            }
            lemma_frame(v, w, ci, g, lo_of(n.pack, i, lo), hi_of(n.pack, i, hi), t, t - 1);
        }
        // The nodes of the new tree
        assert forall|x: NodeId|
            in_subtree(w, id, h, x) <==> (in_subtree(v, id, h, x) && !in_subtree(v, c, hc, x))
                || in_subtree(w, c, hc, x) by {
            if in_subtree(w, id, h, x) && x != id {
                let i = choose|i: int|
                    #![trigger n.children[i]]
                    0 <= i < n.children.len() && in_subtree(w, n.children[i], g, x);
                if i != j {
                    assert(in_subtree(v, n.children[i], g, x));
                    assert(in_subtree(v, id, h, x));
                    if i < j {
                        assert(!in_subtree(v, cj, g, x));
                    } else {
                        assert(!in_subtree(v, cj, g, x));
                    }
                }
            }
            if in_subtree(v, id, h, x) && !in_subtree(v, c, hc, x) && x != id {
                let i = choose|i: int|
                    #![trigger n.children[i]]
                    0 <= i < n.children.len() && in_subtree(v, n.children[i], g, x);
                assert(in_subtree(w, n.children[i], g, x));
            }
            if in_subtree(w, c, hc, x) {
                assert(in_subtree(w, cj, g, x));
            }
        }
        // No node is reached twice in the new tree
        assert forall|i: int| #![trigger n.children[i]] 0 <= i < n.children.len() implies !in_subtree(
            w,
            n.children[i],
            g,
            id,
        ) by {
            if i == j && in_subtree(w, cj, g, id) {
                assert(!in_subtree(v, cj, g, id));
            }
        }
        assert forall|a: int, b: int, x: NodeId|
            0 <= a < b < n.children.len() && #[trigger] in_subtree(
                w,
                n.children[a],
                g,
                x,
            ) implies !#[trigger] in_subtree(w, n.children[b], g, x) by {
            if in_subtree(w, n.children[b], g, x) {
                if a != j && b != j {
                    assert(in_subtree(v, n.children[a], g, x));
                    assert(in_subtree(v, n.children[b], g, x));
                } else {
                    let o = if a == j { b } else { a };
                    assert(in_subtree(v, n.children[o], g, x));
                    assert(in_subtree(v, id, h, x));
                    if o < j {
                        assert(!in_subtree(v, cj, g, x));
                    } else {
                        assert(!in_subtree(v, cj, g, x));
                    }
                }
            }
        }
        assert(subtree_wf(w, id, h, lo, hi, t, min));
        assert forall|q: Seq<u8>|
            lookup(w, id, h, q) == if on_path(v, id, h, lo, hi, q, c, hc, clo, chi) {
                lookup(w, c, hc, q)
            } else {
                lookup(v, id, h, q)
            } by {
            let i = n.pack.child_idx(q);
            if !n.pack.has(q) && 0 <= i < n.children.len() && i != j {
                assert(lookup(w, n.children[i], g, q) == lookup(v, n.children[i], g, q));
                if on_path(v, n.children[i], g, lo_of(n.pack, i, lo), hi_of(n.pack, i, hi), q, c, hc, clo, chi) {
                    lemma_path_inside(
                        v,
                        n.children[i],
                        g,
                        lo_of(n.pack, i, lo),
                        hi_of(n.pack, i, hi),
                        q,
                        c,
                        hc,
                        clo,
                        chi,
                        c,
                    );
                    if i < j {
                        assert(!in_subtree(v, cj, g, c));
                    } else {
                        assert(!in_subtree(v, cj, g, c));
                    }
                }
            }
        }
        assert forall|q: Seq<u8>|
            on_path(w, id, h, lo, hi, q, c, hc, clo, chi) == on_path(
                v,
                id,
                h,
                lo,
                hi,
                q,
                c,
                hc,
                clo,
                chi,
            ) by {
            let i = n.pack.child_idx(q);
            if !n.pack.has(q) && i == j {
                assert(on_path(w, cj, g, jlo, jhi, q, c, hc, clo, chi) == on_path(
                    v,
                    cj,
                    g,
                    jlo,
                    jhi,
                    q,
                    c,
                    hc,
                    clo,
                    chi,
                ));
            }
            if !n.pack.has(q) && 0 <= i < n.children.len() && i != j {
                let ci = n.children[i];
                let ilo = lo_of(n.pack, i, lo);
                let ihi = hi_of(n.pack, i, hi);
                // The node `c` is under the child `cj`, so no search through
                // another child comes to it
                if on_path(v, ci, g, ilo, ihi, q, c, hc, clo, chi) {
                    lemma_path_inside(v, ci, g, ilo, ihi, q, c, hc, clo, chi, c);
                    if i < j {
                        assert(!in_subtree(v, cj, g, c));
                    } else {
                        assert(!in_subtree(v, cj, g, c));
                    }
                }
                if on_path(w, ci, g, ilo, ihi, q, c, hc, clo, chi) {
                    assert(in_subtree(w, c, hc, c));
                    lemma_path_inside(w, ci, g, ilo, ihi, q, c, hc, clo, chi, c);
                    assert(in_subtree(v, ci, g, c));
                    if i < j {
                        assert(!in_subtree(v, cj, g, c));
                    } else {
                        assert(!in_subtree(v, cj, g, c));
                    }
                }
            }
        }
    }
}

/// The nodes are those of a B-tree of height `h` whose root and minimum
/// degree `st` gives, and no others; an empty tree has no root, no node and
/// the height zero. Every identifier in use is below the next one to be
/// given out, and so is the height.
#[verifier::opaque]
pub open spec fn tree_wf(v: Nodes, st: State, h: nat) -> bool {
    &&& st.wf()
    &&& h <= st.next_node_id
    &&& forall|x: NodeId| v.contains_key(x) ==> x < st.next_node_id
    &&& match st.root {
        Some(root) => {
            &&& subtree_wf(v, root, h, None, None, st.minimum_degree as int, 1)
            &&& forall|x: NodeId| v.contains_key(x) <==> in_subtree(v, root, h, x)
        },
        None => h == 0 && forall|x: NodeId| !v.contains_key(x),
    }
}

/// The nodes are those of a B-tree with the state `st`.
pub open spec fn index_wf(v: Nodes, st: State) -> bool {
    exists|h: nat| tree_wf(v, st, h)
}

/// The height of the tree with the state `st`.
pub open spec fn index_height(v: Nodes, st: State) -> nat {
    choose|h: nat| tree_wf(v, st, h)
}

/// The payload of `k` in the tree with the state `st`, if the tree has the key.
pub open spec fn index_get(v: Nodes, st: State, k: Seq<u8>) -> Option<u64> {
    match st.root {
        Some(root) => lookup(v, root, index_height(v, st), k),
        None => None,
    }
}

/// The mapping from keys to payloads that the tree with the state `st` holds.
pub open spec fn index_view(v: Nodes, st: State) -> Map<Seq<u8>, u64> {
    Map::new(|k: Seq<u8>| index_get(v, st, k) is Some, |k: Seq<u8>| index_get(v, st, k).unwrap())
}

/// A tree has one height only.
pub proof fn lemma_tree_height(v: Nodes, st: State, h: nat)
    requires
        tree_wf(v, st, h),
    ensures
        index_wf(v, st),
        index_height(v, st) == h,
{
    reveal(tree_wf);
    let g = index_height(v, st);
    assert(tree_wf(v, st, g));
    match st.root {
        Some(root) => {
            lemma_height_unique(v, root, h, None, None, 1, g, None, None, 1, st.minimum_degree as int);
        },
        None => {},
    }
}

/// The payload of `k` in the mapping `m`, if it has the key.
pub open spec fn map_get(m: Map<Seq<u8>, u64>, k: Seq<u8>) -> Option<u64> {
    if m.contains_key(k) {
        Some(m[k])
    } else {
        None
    }
}

/// The mapping of a tree answers as a search does.
pub proof fn lemma_view_get(v: Nodes, st: State, k: Seq<u8>)
    ensures
        map_get(index_view(v, st), k) == index_get(v, st, k),
{
}

/// A tree that answers as another does but with `p` at `k` holds the
/// mapping of the other with `k` mapped to `p`.
pub proof fn lemma_view_insert(v: Nodes, st: State, v2: Nodes, st2: State, k: Seq<u8>, p: u64)
    requires
        forall|q: Seq<u8>|
            #![trigger index_get(v2, st2, q)]
            index_get(v2, st2, q) == if q == k {
                Some(p)
            } else {
                index_get(v, st, q)
            },
    ensures
        index_view(v2, st2) == index_view(v, st).insert(k, p),
{
    assert forall|q: Seq<u8>| #![trigger index_view(v2, st2).dom().contains(q)] index_view(v2, st2).dom().contains(q) == index_view(
        v,
        st,
    ).insert(k, p).dom().contains(q) && (index_view(v2, st2).dom().contains(q) ==> index_view(
        v2,
        st2,
    )[q] == index_view(v, st).insert(k, p)[q]) by {
        assert(index_get(v2, st2, q) == if q == k {
            Some(p)
        } else {
            index_get(v, st, q)
        });
    }
    assert(index_view(v2, st2) =~= index_view(v, st).insert(k, p));
}

/// A tree that answers as another does but with nothing at `k` holds the
/// mapping of the other without `k`.
pub proof fn lemma_view_remove(v: Nodes, st: State, v2: Nodes, st2: State, k: Seq<u8>)
    requires
        forall|q: Seq<u8>|
            #![trigger index_get(v2, st2, q)]
            index_get(v2, st2, q) == if q == k {
                None
            } else {
                index_get(v, st, q)
            },
    ensures
        index_view(v2, st2) == index_view(v, st).remove(k),
{
    assert forall|q: Seq<u8>| #![trigger index_view(v2, st2).dom().contains(q)] index_view(v2, st2).dom().contains(q) == index_view(
        v,
        st,
    ).remove(k).dom().contains(q) && (index_view(v2, st2).dom().contains(q) ==> index_view(
        v2,
        st2,
    )[q] == index_view(v, st).remove(k)[q]) by {
        assert(index_get(v2, st2, q) == if q == k {
            None
        } else {
            index_get(v, st, q)
        });
    }
    assert(index_view(v2, st2) =~= index_view(v, st).remove(k));
}

/// A tree without a root and without nodes is a B-tree, and has no key.
pub proof fn lemma_empty_index(v: Nodes, st: State)
    requires
        st.wf(),
        st.root is None,
        forall|x: NodeId| !v.contains_key(x),
    ensures
        index_wf(v, st),
        index_view(v, st) == Map::<Seq<u8>, u64>::empty(),
{
    reveal(tree_wf);
    assert(tree_wf(v, st, 0));
    assert(index_view(v, st) =~= Map::<Seq<u8>, u64>::empty());
}

/// A B-tree that has no key has no root and no node.
pub proof fn lemma_no_key_no_node(v: Nodes, st: State)
    requires
        index_wf(v, st),
        index_view(v, st) == Map::<Seq<u8>, u64>::empty(),
    ensures
        st.root is None,
        forall|x: NodeId| !v.contains_key(x),
{
    reveal(tree_wf);
    let h = index_height(v, st);
    assert(tree_wf(v, st, h));
    if st.root is Some {
        let root = st.root.unwrap();
        let k = v[root].pack.keys[0];
        assert(v[root].pack.keys.contains(k));
        assert(lookup(v, root, h, k) == v[root].pack.get(k));
        assert(index_get(v, st, k) is Some);
        assert(index_view(v, st).contains_key(k));
    }
}

} // verus!
