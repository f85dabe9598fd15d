//! What the single steps of an insertion do to the subtree they work on.

use crate::model::{
    above, below, hi_of, in_subtree, lemma_frame, lemma_in_subtree_known, lo_of, lookup, node_ok,
    subtree_wf, within, Bound, Nodes,
};
use crate::node::{NodeId, NodeModel};
use crate::order::{
    key_lt, lemma_key_lt_asymmetric, lemma_key_lt_irreflexive, lemma_key_lt_transitive,
};
use crate::pack::{
    lemma_child_idx_insert, lemma_child_idx_split, lemma_has_at, lemma_insert_between, lemma_pos_is,
    Pack,
};
use vstd::prelude::*;

verus! {

/// The node `n` with `p` as the payload of `k`.
pub open spec fn node_put(n: NodeModel, k: Seq<u8>, p: u64) -> NodeModel {
    NodeModel { leaf: n.leaf, pack: n.pack.insert(k, p), children: n.children }
}

/// The keys of a pack after an insertion lie between the bounds that the
/// keys before and the new key lie between.
pub proof fn lemma_within_insert(p: Pack, k: Seq<u8>, pl: u64, lo: Bound, hi: Bound)
    requires
        p.wf(),
        within(p, lo, hi),
        above(lo, k),
        below(hi, k),
    ensures
        within(p.insert(k, pl), lo, hi),
{
    let out = p.insert(k, pl);
    if !p.has(k) {
        let i = p.child_idx(k);
        crate::pack::lemma_child_idx_props(p, k);
        assert forall|j: int| 0 <= j < out.keys.len() implies above(lo, #[trigger] out.keys[j])
            && below(hi, out.keys[j]) by {
            if j < i {
                assert(out.keys[j] == p.keys[j]);
            } else if j > i {
                assert(out.keys[j] == p.keys[j - 1]);
            }
        }
    }
}

/// To set the payload of a key in a node that has the key, or in a leaf with
/// room for it, leaves the subtree under the node well formed, with the same
/// nodes; a search finds the new payload at the key and what it found before
/// at every other key.
pub proof fn lemma_put(
    v: Nodes,
    c: NodeId,
    h: nat,
    lo: Bound,
    hi: Bound,
    t: int,
    min: int,
    k: Seq<u8>,
    p: u64,
)
    requires
        subtree_wf(v, c, h, lo, hi, t, min),
        v[c].pack.has(k) || (h == 1 && v[c].pack.len() < 2 * t - 1 && above(lo, k) && below(hi, k)),
    ensures
        subtree_wf(v.insert(c, node_put(v[c], k, p)), c, h, lo, hi, t, min),
        forall|x: NodeId|
            #![trigger in_subtree(v.insert(c, node_put(v[c], k, p)), c, h, x)]
            in_subtree(v.insert(c, node_put(v[c], k, p)), c, h, x) == in_subtree(v, c, h, x),
        forall|q: Seq<u8>|
            #![trigger lookup(v.insert(c, node_put(v[c], k, p)), c, h, q)]
            lookup(v.insert(c, node_put(v[c], k, p)), c, h, q) == if q == k {
                Some(p)
            } else {
                lookup(v, c, h, q)
            },
{
    let n = v[c];
    let m = node_put(n, k, p);
    let w = v.insert(c, m);
    n.pack.lemma_insert_wf(k, p);
    assert forall|q: Seq<u8>| m.pack.get(q) == if q == k {
        Some(p)
    } else {
        n.pack.get(q)
    } by {
        n.pack.lemma_insert_get(k, p, q);
    }
    if n.pack.has(k) {
        assert(m.pack.keys == n.pack.keys);
    } else {
        lemma_within_insert(n.pack, k, p, lo, hi);
    }
    if h > 1 {
        let g = (h - 1) as nat;
        assert forall|i: int| 0 <= i < n.children.len() implies {
            &&& subtree_wf(w, #[trigger] n.children[i], g, lo_of(n.pack, i, lo), hi_of(n.pack, i, hi), t, t - 1)
            &&& forall|x: NodeId| #[trigger]
                in_subtree(w, n.children[i], g, x) == in_subtree(v, n.children[i], g, x)
            &&& forall|q: Seq<u8>| #[trigger]
                lookup(w, n.children[i], g, q) == lookup(v, n.children[i], g, q)
        } by {
            let ci = n.children[i];
            assert forall|x: NodeId| #[trigger] in_subtree(v, ci, g, x) implies w.contains_key(x)
                && w[x] == v[x] by {
                assert(!in_subtree(v, ci, g, c));
                lemma_in_subtree_known(
                    v,
                    ci,
                    g,
                    lo_of(n.pack, i, lo),
                    hi_of(n.pack, i, hi),
                    t,
                    t - 1,
                    x,
                );
            }
            lemma_frame(v, w, ci, g, lo_of(n.pack, i, lo), hi_of(n.pack, i, hi), t, t - 1);
        }
        assert(w[c] == m);
        assert forall|x: NodeId| in_subtree(w, c, h, x) == in_subtree(v, c, h, x) by {
            if in_subtree(v, c, h, x) && x != c {
                let i = choose|i: int|
                    #![trigger v[c].children[i]]
                    0 <= i < v[c].children.len() && in_subtree(v, v[c].children[i], g, x);
                assert(in_subtree(w, n.children[i], g, x));
                assert(w[c].children[i] == n.children[i]);
            }
            if in_subtree(w, c, h, x) && x != c {
                let i = choose|i: int|
                    #![trigger w[c].children[i]]
                    0 <= i < w[c].children.len() && in_subtree(w, w[c].children[i], g, x);
                assert(w[c].children[i] == n.children[i]);
                assert(in_subtree(v, n.children[i], g, x));
            }
        }
        assert forall|i: int| #![trigger m.children[i]] 0 <= i < m.children.len() implies !in_subtree(
            w,
            m.children[i],
            g,
            c,
        ) by {
            assert(!in_subtree(v, n.children[i], g, c));
        }
        assert forall|a: int, b: int, x: NodeId|
            0 <= a < b < m.children.len() && #[trigger] in_subtree(
                w,
                m.children[a],
                g,
                x,
            ) implies !#[trigger] in_subtree(w, m.children[b], g, x) by {
            assert(in_subtree(v, n.children[a], g, x));
            if in_subtree(w, m.children[b], g, x) {
                assert(in_subtree(v, n.children[b], g, x));
            }
        }
        assert forall|i: int| #![trigger m.children[i]] 0 <= i < m.children.len() implies subtree_wf(
            w,
            m.children[i],
            g,
            lo_of(m.pack, i, lo),
            hi_of(m.pack, i, hi),
            t,
            t - 1,
        ) by {
            assert(subtree_wf(w, n.children[i], g, lo_of(n.pack, i, lo), hi_of(n.pack, i, hi), t, t - 1));
        }
        assert(subtree_wf(w, c, h, lo, hi, t, min));
        assert forall|q: Seq<u8>| lookup(w, c, h, q) == if q == k {
            Some(p)
        } else {
            lookup(v, c, h, q)
        } by {
            let i = n.pack.child_idx(q);
            if 0 <= i < n.children.len() {
                assert(lookup(w, n.children[i], g, q) == lookup(v, n.children[i], g, q));
            }
        }
    } else {
        assert(subtree_wf(w, c, h, lo, hi, t, min));
    }
}

/// The left half of a node that is split at its median.
pub open spec fn split_left(n: NodeModel) -> NodeModel {
    NodeModel {
        leaf: n.leaf,
        pack: n.pack.left_half(),
        children: if n.leaf {
            Seq::empty()
        } else {
            n.children.subrange(0, n.pack.median_idx() + 1)
        },
    }
}

/// The right half of a node that is split at its median.
pub open spec fn split_right(n: NodeModel) -> NodeModel {
    NodeModel {
        leaf: n.leaf,
        pack: n.pack.right_half(),
        children: if n.leaf {
            Seq::empty()
        } else {
            n.children.subrange(n.pack.median_idx() + 1, n.children.len() as int)
        },
    }
}

/// The parent of a split node: it takes the median in, and the new node as
/// the child behind the split node, which is its child at `idx`.
pub open spec fn split_parent(p: NodeModel, idx: int, n: NodeModel, rid: NodeId) -> NodeModel {
    NodeModel {
        leaf: p.leaf,
        pack: p.pack.insert(n.pack.keys[n.pack.median_idx()], n.pack.payloads[n.pack.median_idx()]),
        children: if p.leaf {
            p.children
        } else {
            p.children.insert(idx + 1, rid)
        },
    }
}

/// What the two halves of a pack have, and where their keys divide.
pub proof fn lemma_halves_pack(p: Pack, q: Seq<u8>)
    requires
        p.wf(),
        p.len() > 0,
    ensures
        p.left_half().wf(),
        p.right_half().wf(),
        p.left_half().len() == p.median_idx(),
        p.right_half().len() == p.len() - p.median_idx() - 1,
        p.left_half().has(q) <==> p.has(q) && p.pos(q) < p.median_idx(),
        p.left_half().has(q) ==> p.left_half().get(q) == p.get(q),
        p.right_half().has(q) <==> p.has(q) && p.pos(q) > p.median_idx(),
        p.right_half().has(q) ==> p.right_half().get(q) == p.get(q),
        key_lt(q, p.keys[p.median_idx()]) ==> p.child_idx(q) <= p.median_idx()
            && p.left_half().child_idx(q) == p.child_idx(q) && !p.right_half().has(q) && (p.has(q)
            ==> p.pos(q) < p.median_idx()),
        key_lt(p.keys[p.median_idx()], q) ==> p.child_idx(q) > p.median_idx()
            && p.right_half().child_idx(q) == p.child_idx(q) - p.median_idx() - 1
            && !p.left_half().has(q) && (p.has(q) ==> p.pos(q) > p.median_idx()),
{
    let m = p.median_idx();
    let len = p.keys.len() as int;
    let mk = p.keys[m];
    crate::pack::lemma_range(p, 0, m, q);
    crate::pack::lemma_range(p, m + 1, len, q);
    lemma_child_idx_split(p, q);
    lemma_has_at(p, q);
    lemma_key_lt_irreflexive(mk);
    if p.has(q) {
        let i = p.pos(q);
        assert(0 <= i < len && p.keys[i] == q);
        if i < m {
            assert(key_lt(p.keys[i], p.keys[m]));
            lemma_key_lt_asymmetric(q, mk);
        }
        if i > m {
            assert(key_lt(p.keys[m], p.keys[i]));
            lemma_key_lt_asymmetric(mk, q);
        }
    }
    if key_lt(q, mk) {
        lemma_key_lt_asymmetric(q, mk);
        assert(p.child_idx(q) <= m) by {
            if p.child_idx(q) > m {
                assert(!key_lt(q, p.keys[m]));
            }
        }
    }
    if key_lt(mk, q) {
        lemma_key_lt_asymmetric(mk, q);
        assert(p.child_idx(q) > m) by {
            if p.child_idx(q) <= m {
                assert(key_lt(q, p.keys[m]));
            }
        }
    }
}

/// The two halves of a full node are well-formed subtrees, below and above
/// the median; between them they have the nodes of the old subtree and the
/// new node, none twice, and a search finds in the half on its side of the
/// median what it found in the old subtree.
pub proof fn lemma_split_halves(
    v: Nodes,
    w: Nodes,
    cid: NodeId,
    rid: NodeId,
    h: nat,
    lo: Bound,
    hi: Bound,
    t: int,
)
    requires
        t >= 2,
        subtree_wf(v, cid, h, lo, hi, t, t - 1),
        v[cid].pack.len() == 2 * t - 1,
        !in_subtree(v, cid, h, rid),
        w.contains_key(cid),
        w.contains_key(rid),
        w[cid] == split_left(v[cid]),
        w[rid] == split_right(v[cid]),
        forall|x: NodeId|
            #![trigger w.contains_key(x)]
            #![trigger in_subtree(v, cid, h, x)]
            in_subtree(v, cid, h, x) && x != cid ==> w.contains_key(x) && w[x] == v[x],
    ensures
        subtree_wf(w, cid, h, lo, Some(v[cid].pack.keys[t - 1]), t, t - 1),
        subtree_wf(w, rid, h, Some(v[cid].pack.keys[t - 1]), hi, t, t - 1),
        above(lo, v[cid].pack.keys[t - 1]),
        below(hi, v[cid].pack.keys[t - 1]),
        forall|x: NodeId|
            #![trigger in_subtree(w, cid, h, x)]
            #![trigger in_subtree(w, rid, h, x)]
            (in_subtree(w, cid, h, x) || in_subtree(w, rid, h, x)) <==> (in_subtree(v, cid, h, x)
                || x == rid),
        forall|x: NodeId|
            #![trigger in_subtree(w, cid, h, x)]
            #![trigger in_subtree(w, rid, h, x)]
            !(in_subtree(w, cid, h, x) && in_subtree(w, rid, h, x)),
        forall|q: Seq<u8>|
            #![trigger lookup(w, cid, h, q)]
            key_lt(q, v[cid].pack.keys[t - 1]) ==> lookup(w, cid, h, q) == lookup(v, cid, h, q),
        forall|q: Seq<u8>|
            #![trigger lookup(w, rid, h, q)]
            key_lt(v[cid].pack.keys[t - 1], q) ==> lookup(w, rid, h, q) == lookup(v, cid, h, q),
        lookup(v, cid, h, v[cid].pack.keys[t - 1]) == Some(v[cid].pack.payloads[t - 1]),
{
    let n = v[cid];
    let m = n.pack.median_idx();
    assert(m == t - 1);
    let len = n.pack.keys.len() as int;
    let mk = n.pack.keys[m];
    let left = split_left(n);
    let right = split_right(n);
    lemma_pos_is(n.pack, mk, m);
    lemma_key_lt_irreflexive(mk);
    assert(left.pack.keys.len() == m);
    assert(right.pack.keys.len() == len - m - 1);
    lemma_halves_pack(n.pack, mk);
    // The keys of the halves lie between the bounds and the median
    assert forall|i: int| 0 <= i < left.pack.keys.len() implies above(
        lo,
        #[trigger] left.pack.keys[i],
    ) && below(Some(mk), left.pack.keys[i]) by {
        assert(left.pack.keys[i] == n.pack.keys[i]);
        assert(key_lt(n.pack.keys[i], n.pack.keys[m]));
    }
    assert forall|i: int| 0 <= i < right.pack.keys.len() implies above(
        Some(mk),
        #[trigger] right.pack.keys[i],
    ) && below(hi, right.pack.keys[i]) by {
        assert(right.pack.keys[i] == n.pack.keys[i + m + 1]);
        assert(key_lt(n.pack.keys[m], n.pack.keys[i + m + 1]));
    }
    assert(above(lo, n.pack.keys[m]) && below(hi, n.pack.keys[m]));
    assert(node_ok(left, lo, Some(mk), t, t - 1));
    assert(node_ok(right, Some(mk), hi, t, t - 1));
    assert(n.pack.get(mk) == Some(n.pack.payloads[m]));
    if h == 1 {
        assert(subtree_wf(w, cid, h, lo, Some(mk), t, t - 1));
        assert(subtree_wf(w, rid, h, Some(mk), hi, t, t - 1));
    } else {
        let g = (h - 1) as nat;
        // Every subtree under the old node is as it was
        assert forall|j: int| 0 <= j < n.children.len() implies {
            &&& subtree_wf(w, #[trigger] n.children[j], g, lo_of(n.pack, j, lo), hi_of(n.pack, j, hi), t, t - 1)
            &&& forall|x: NodeId| #[trigger]
                in_subtree(w, n.children[j], g, x) == in_subtree(v, n.children[j], g, x)
            &&& forall|q: Seq<u8>| #[trigger]
                lookup(w, n.children[j], g, q) == lookup(v, n.children[j], g, q)
            &&& !in_subtree(v, n.children[j], g, cid)
            &&& !in_subtree(v, n.children[j], g, rid)
        } by {
            let cj = n.children[j];
            assert forall|x: NodeId| #[trigger] in_subtree(v, cj, g, x) implies w.contains_key(x)
                && w[x] == v[x] by {
                assert(!in_subtree(v, cj, g, cid));
                assert(in_subtree(v, cid, h, x));
            }
            lemma_frame(v, w, cj, g, lo_of(n.pack, j, lo), hi_of(n.pack, j, hi), t, t - 1);
            if in_subtree(v, cj, g, rid) {
                assert(in_subtree(v, cid, h, rid));
            }
        }
        assert(left.children.len() == m + 1);
        assert(right.children.len() == len - m);
        assert forall|j: int| #![trigger w[cid].children[j]] 0 <= j < w[cid].children.len() implies {
            &&& subtree_wf(
                w,
                w[cid].children[j],
                g,
                lo_of(w[cid].pack, j, lo),
                hi_of(w[cid].pack, j, Some(mk)),
                t,
                t - 1,
            )
            &&& !in_subtree(w, w[cid].children[j], g, cid)
        } by {
            assert(w[cid].children[j] == n.children[j]);
            if j > 0 {
                assert(left.pack.keys[j - 1] == n.pack.keys[j - 1]);
            }
            if j < m {
                assert(left.pack.keys[j] == n.pack.keys[j]);
            }
        }
        assert forall|j: int| #![trigger w[rid].children[j]] 0 <= j < w[rid].children.len() implies {
            &&& subtree_wf(
                w,
                w[rid].children[j],
                g,
                lo_of(w[rid].pack, j, Some(mk)),
                hi_of(w[rid].pack, j, hi),
                t,
                t - 1,
            )
            &&& !in_subtree(w, w[rid].children[j], g, rid)
        } by {
            assert(w[rid].children[j] == n.children[j + m + 1]);
            if j > 0 {
                assert(right.pack.keys[j - 1] == n.pack.keys[j + m]);
            }
            if j < right.pack.keys.len() {
                assert(right.pack.keys[j] == n.pack.keys[j + m + 1]);
            }
        }
        assert forall|a: int, b: int, x: NodeId|
            0 <= a < b < w[cid].children.len() && #[trigger] in_subtree(
                w,
                w[cid].children[a],
                g,
                x,
            ) implies !#[trigger] in_subtree(w, w[cid].children[b], g, x) by {
            assert(w[cid].children[a] == n.children[a]);
            assert(w[cid].children[b] == n.children[b]);
            assert(in_subtree(v, n.children[a], g, x));
            if in_subtree(w, w[cid].children[b], g, x) {
                assert(in_subtree(v, n.children[b], g, x));
            }
        }
        assert forall|a: int, b: int, x: NodeId|
            0 <= a < b < w[rid].children.len() && #[trigger] in_subtree(
                w,
                w[rid].children[a],
                g,
                x,
            ) implies !#[trigger] in_subtree(w, w[rid].children[b], g, x) by {
            assert(w[rid].children[a] == n.children[a + m + 1]);
            assert(w[rid].children[b] == n.children[b + m + 1]);
            assert(in_subtree(v, n.children[a + m + 1], g, x));
            if in_subtree(w, w[rid].children[b], g, x) {
                assert(in_subtree(v, n.children[b + m + 1], g, x));
            }
        }
        assert(subtree_wf(w, cid, h, lo, Some(mk), t, t - 1));
        assert(subtree_wf(w, rid, h, Some(mk), hi, t, t - 1));
        // The nodes of the halves
        assert forall|x: NodeId|
            (in_subtree(w, cid, h, x) || in_subtree(w, rid, h, x)) <==> (in_subtree(v, cid, h, x)
                || x == rid) by {
            if in_subtree(w, cid, h, x) && x != cid {
                let j = choose|j: int|
                    #![trigger w[cid].children[j]]
                    0 <= j < w[cid].children.len() && in_subtree(w, w[cid].children[j], g, x);
                assert(w[cid].children[j] == n.children[j]);
                assert(in_subtree(v, n.children[j], g, x));
            }
            if in_subtree(w, rid, h, x) && x != rid {
                let j = choose|j: int|
                    #![trigger w[rid].children[j]]
                    0 <= j < w[rid].children.len() && in_subtree(w, w[rid].children[j], g, x);
                assert(w[rid].children[j] == n.children[j + m + 1]);
                assert(in_subtree(v, n.children[j + m + 1], g, x));
            }
            if in_subtree(v, cid, h, x) && x != cid {
                let j = choose|j: int|
                    #![trigger v[cid].children[j]]
                    0 <= j < v[cid].children.len() && in_subtree(v, v[cid].children[j], g, x);
                assert(in_subtree(w, n.children[j], g, x));
                if j <= m {
                    assert(w[cid].children[j] == n.children[j]);
                } else {
                    assert(w[rid].children[j - m - 1] == n.children[j]);
                }
            }
        }
        assert forall|x: NodeId| !(in_subtree(w, cid, h, x) && in_subtree(w, rid, h, x)) by {
            if in_subtree(w, cid, h, x) && in_subtree(w, rid, h, x) {
                if x == cid {
                    let j = choose|j: int|
                        #![trigger w[rid].children[j]]
                        0 <= j < w[rid].children.len() && in_subtree(w, w[rid].children[j], g, x);
                    assert(w[rid].children[j] == n.children[j + m + 1]);
                    assert(in_subtree(v, n.children[j + m + 1], g, x));
                } else if x == rid {
                    let j = choose|j: int|
                        #![trigger w[cid].children[j]]
                        0 <= j < w[cid].children.len() && in_subtree(w, w[cid].children[j], g, x);
                    assert(w[cid].children[j] == n.children[j]);
                    assert(in_subtree(v, n.children[j], g, x));
                } else {
                    let a = choose|j: int|
                        #![trigger w[cid].children[j]]
                        0 <= j < w[cid].children.len() && in_subtree(w, w[cid].children[j], g, x);
                    let b = choose|j: int|
                        #![trigger w[rid].children[j]]
                        0 <= j < w[rid].children.len() && in_subtree(w, w[rid].children[j], g, x);
                    assert(w[cid].children[a] == n.children[a]);
                    assert(w[rid].children[b] == n.children[b + m + 1]);
                    assert(in_subtree(v, n.children[a], g, x));
                    assert(in_subtree(v, n.children[b + m + 1], g, x));
                }
            }
        }
        assert forall|q: Seq<u8>| key_lt(q, mk) implies lookup(w, cid, h, q) == lookup(
            v,
            cid,
            h,
            q,
        ) by {
            let i = n.pack.child_idx(q);
            lemma_halves_pack(n.pack, q);
            lemma_child_idx_split(n.pack, q);
            if !n.pack.has(q) {
                assert(w[cid].children[i] == n.children[i]);
                assert(lookup(w, n.children[i], g, q) == lookup(v, n.children[i], g, q));
            }
        }
        assert forall|q: Seq<u8>| key_lt(mk, q) implies lookup(w, rid, h, q) == lookup(
            v,
            cid,
            h,
            q,
        ) by {
            let i = n.pack.child_idx(q);
            lemma_halves_pack(n.pack, q);
            lemma_child_idx_split(n.pack, q);
            if !n.pack.has(q) {
                assert(w[rid].children[i - m - 1] == n.children[i]);
                assert(lookup(w, n.children[i], g, q) == lookup(v, n.children[i], g, q));
            }
        }
    }
    if h == 1 {
        assert forall|q: Seq<u8>| key_lt(q, mk) implies lookup(w, cid, h, q) == lookup(
            v,
            cid,
            h,
            q,
        ) by {
            lemma_halves_pack(n.pack, q);
        }
        assert forall|q: Seq<u8>| key_lt(mk, q) implies lookup(w, rid, h, q) == lookup(
            v,
            cid,
            h,
            q,
        ) by {
            lemma_halves_pack(n.pack, q);
        }
    }
}

/// The nodes after the split of the child at `idx` of the node `p`, which
/// has the identifier `pid`; `rid` is the identifier of the new node.
pub open spec fn split_nodes(v: Nodes, p: NodeModel, pid: NodeId, idx: int, rid: NodeId) -> Nodes {
    let cid = p.children[idx];
    let n = v.insert(pid, p)[cid];
    v.insert(cid, split_left(n)).insert(rid, split_right(n)).insert(
        pid,
        split_parent(p, idx, n, rid),
    )
}

/// The nodes after the walk of an insertion of `k` with `p` from the node
/// `c` of height `hc` down, in a tree of minimum degree `t` whose next new
/// node gets the identifier `n`. A leaf, and a node that has the key, takes
/// the payload. Else the walk goes on to the child at the child index of the
/// key; a full child is split first, and then the walk goes on to the half on
/// the side of the median on which the key lies, or the payload goes to the
/// median, which now stands in the node.
pub open spec fn put_down(v: Nodes, c: NodeId, hc: nat, n: int, k: Seq<u8>, p: u64, t: int) -> Nodes
    decreases hc,
{
    if hc <= 1 || v[c].pack.has(k) {
        v.insert(c, node_put(v[c], k, p))
    } else {
        let i = v[c].pack.child_idx(k);
        let d = v[c].children[i];
        if v[d].pack.len() == 2 * t - 1 {
            let w = split_nodes(v, v[c], c, i, n as NodeId);
            let median = v[d].pack.keys[v[d].pack.median_idx()];
            if k == median {
                w.insert(c, node_put(w[c], k, p))
            } else if key_lt(k, median) {
                put_down(w, d, (hc - 1) as nat, n + 1, k, p, t)
            } else {
                put_down(w, n as NodeId, (hc - 1) as nat, n + 1, k, p, t)
            }
        } else {
            put_down(v, d, (hc - 1) as nat, n, k, p, t)
        }
    }
}

/// A search finds in the subtree under a node after the split of one of its
/// children what it found before.
#[verifier::rlimit(60)]
#[verifier::spinoff_prover]
pub proof fn lemma_split_lookup(
    v: Nodes,
    p: NodeModel,
    pid: NodeId,
    hp: nat,
    lo: Bound,
    hi: Bound,
    t: int,
    pmin: int,
    idx: int,
    rid: NodeId,
)
    requires
        t >= 2,
        hp >= 2,
        subtree_wf(v.insert(pid, p), pid, hp, lo, hi, t, pmin),
        p.pack.len() < 2 * t - 1,
        0 <= idx < p.children.len(),
        v.insert(pid, p)[p.children[idx]].pack.len() == 2 * t - 1,
        !in_subtree(v.insert(pid, p), pid, hp, rid),
    ensures
        forall|q: Seq<u8>|
            #![trigger lookup(split_nodes(v, p, pid, idx, rid), pid, hp, q)]
            lookup(split_nodes(v, p, pid, idx, rid), pid, hp, q) == lookup(
                v.insert(pid, p),
                pid,
                hp,
                q,
            ),
{
    let vp = v.insert(pid, p);
    let cid = p.children[idx];
    let n = vp[cid];
    let w = split_nodes(v, p, pid, idx, rid);
    let g = (hp - 1) as nat;
    let clo = lo_of(p.pack, idx, lo);
    let chi = hi_of(p.pack, idx, hi);
    let m = n.pack.median_idx();
    assert(m == t - 1);
    let mk = n.pack.keys[m];
    let mp = n.pack.payloads[m];
    let q2 = split_parent(p, idx, n, rid);
    assert(vp[pid] == p);
    assert(in_subtree(vp, pid, hp, pid));
    assert(p.children[idx] == vp[pid].children[idx]);
    assert(subtree_wf(vp, cid, g, clo, chi, t, t - 1));
    assert(in_subtree(vp, cid, g, cid));
    assert(!in_subtree(vp, cid, g, pid));
    assert(in_subtree(vp, pid, hp, cid));
    assert(cid != pid && rid != pid && rid != cid);
    assert(w[pid] == q2 && w[cid] == split_left(n) && w[rid] == split_right(n));
    assert(!in_subtree(vp, cid, g, rid));
    assert forall|x: NodeId|
        #![trigger w.contains_key(x)]
        #![trigger in_subtree(vp, cid, g, x)]
        in_subtree(vp, cid, g, x) && x != cid implies w.contains_key(x) && w[x] == vp[x] by {
        lemma_in_subtree_known(vp, cid, g, clo, chi, t, t - 1, x);
        assert(in_subtree(vp, pid, hp, x));
    }
    lemma_split_halves(vp, w, cid, rid, g, clo, chi, t);
    if idx > 0 {
        assert(above(clo, mk));
    }
    if idx < p.pack.keys.len() {
        assert(below(chi, mk));
    }
    lemma_insert_between(p.pack, idx, mk, mp);
    assert(q2.pack.keys == p.pack.keys.insert(idx, mk));
    assert(q2.children == p.children.insert(idx + 1, rid));
    assert forall|q: Seq<u8>| lookup(w, pid, hp, q) == lookup(vp, pid, hp, q) by {
        p.pack.lemma_insert_get(mk, mp, q);
        lemma_child_idx_insert(p.pack, idx, mk, mp, q);
        lemma_child_idx_split(p.pack, q);
        let r = p.pack.child_idx(q);
        let r2 = w[pid].pack.child_idx(q);
        assert(w[pid].pack == p.pack.insert(mk, mp));
        assert(w[pid].pack.has(q) <==> q == mk || p.pack.has(q));
        if q == mk {
            assert(lookup(vp, cid, g, mk) == Some(mp));
            assert(lookup(vp, pid, hp, q) == Some(mp));
            assert(lookup(w, pid, hp, q) == Some(mp));
        } else if p.pack.has(q) {
            assert(lookup(vp, pid, hp, q) == p.pack.get(q));
            assert(lookup(w, pid, hp, q) == p.pack.get(q));
        } else if !p.pack.has(q) {
            assert(0 <= r2 < w[pid].children.len());
            assert(lookup(w, pid, hp, q) == lookup(w, w[pid].children[r2], g, q));
            assert(lookup(vp, pid, hp, q) == lookup(vp, p.children[r], g, q));
            if r != idx {
                let ci = p.children[r];
                assert(ci == vp[pid].children[r]);
                assert(subtree_wf(vp, ci, g, lo_of(p.pack, r, lo), hi_of(p.pack, r, hi), t, t - 1));
                if r < idx {
                    assert(!in_subtree(vp, ci, g, cid));
                } else {
                    assert(!in_subtree(vp, ci, g, cid));
                }
                assert forall|x: NodeId| #[trigger] in_subtree(vp, ci, g, x) implies w.contains_key(
                    x,
                ) && w[x] == vp[x] by {
                    lemma_in_subtree_known(
                        vp,
                        ci,
                        g,
                        lo_of(p.pack, r, lo),
                        hi_of(p.pack, r, hi),
                        t,
                        t - 1,
                        x,
                    );
                    assert(in_subtree(vp, pid, hp, x));
                    assert(!in_subtree(vp, ci, g, pid));
                    if r < idx {
                        assert(!in_subtree(vp, cid, g, x));
                    } else {
                        assert(!in_subtree(vp, cid, g, x));
                    }
                }
                lemma_frame(vp, w, ci, g, lo_of(p.pack, r, lo), hi_of(p.pack, r, hi), t, t - 1);
                if r < idx {
                    assert(w[pid].children[r] == ci);
                } else {
                    assert(w[pid].children[r + 1] == ci);
                }
            } else if key_lt(q, mk) {
                assert(w[pid].children[idx] == cid);
                assert(lookup(w, cid, g, q) == lookup(vp, cid, g, q));
            } else {
                if !key_lt(mk, q) {
                    crate::order::lemma_key_lt_connected(q, mk);
                }
                assert(w[pid].children[idx + 1] == rid);
                assert(lookup(w, rid, g, q) == lookup(vp, cid, g, q));
            }
        }
    }
}

/// To split a full child of a node that is not full leaves the subtree under
/// that node well formed. It has the nodes it had and the new node, and a
/// search finds in it what it found before.
#[verifier::rlimit(60)]
#[verifier::spinoff_prover]
pub proof fn lemma_split(
    v: Nodes,
    p: NodeModel,
    pid: NodeId,
    hp: nat,
    lo: Bound,
    hi: Bound,
    t: int,
    pmin: int,
    idx: int,
    rid: NodeId,
)
    requires
        t >= 2,
        hp >= 2,
        subtree_wf(v.insert(pid, p), pid, hp, lo, hi, t, pmin),
        p.pack.len() < 2 * t - 1,
        0 <= idx < p.children.len(),
        v.insert(pid, p)[p.children[idx]].pack.len() == 2 * t - 1,
        !in_subtree(v.insert(pid, p), pid, hp, rid),
    ensures
        subtree_wf(split_nodes(v, p, pid, idx, rid), pid, hp, lo, hi, t, pmin),
        forall|x: NodeId|
            #![trigger in_subtree(split_nodes(v, p, pid, idx, rid), pid, hp, x)]
            in_subtree(split_nodes(v, p, pid, idx, rid), pid, hp, x) <==> in_subtree(
                v.insert(pid, p),
                pid,
                hp,
                x,
            ) || x == rid,
        forall|q: Seq<u8>|
            #![trigger lookup(split_nodes(v, p, pid, idx, rid), pid, hp, q)]
            lookup(split_nodes(v, p, pid, idx, rid), pid, hp, q) == lookup(
                v.insert(pid, p),
                pid,
                hp,
                q,
            ),
        split_nodes(v, p, pid, idx, rid)[pid].pack.keys == p.pack.keys.insert(
            idx,
            v.insert(pid, p)[p.children[idx]].pack.keys[t - 1],
        ),
        split_nodes(v, p, pid, idx, rid)[pid].pack.len() == p.pack.len() + 1,
        split_nodes(v, p, pid, idx, rid)[pid].children == p.children.insert(idx + 1, rid),
        !p.pack.has(v.insert(pid, p)[p.children[idx]].pack.keys[t - 1]),
        p.pack.child_idx(v.insert(pid, p)[p.children[idx]].pack.keys[t - 1]) == idx,
        rid != pid,
        rid != p.children[idx],
        pid != p.children[idx],
        split_nodes(v, p, pid, idx, rid)[p.children[idx]].pack.len() == t - 1,
        split_nodes(v, p, pid, idx, rid)[rid].pack.len() == t - 1,
        v.insert(pid, p)[p.children[idx]].pack.median_idx() == t - 1,
{
    let vp = v.insert(pid, p);
    let cid = p.children[idx];
    let n = vp[cid];
    let w = split_nodes(v, p, pid, idx, rid);
    let g = (hp - 1) as nat;
    let clo = lo_of(p.pack, idx, lo);
    let chi = hi_of(p.pack, idx, hi);
    let m = n.pack.median_idx();
    assert(m == t - 1);
    let mk = n.pack.keys[m];
    let mp = n.pack.payloads[m];
    let q2 = split_parent(p, idx, n, rid);
    assert(vp[pid] == p);
    assert(in_subtree(vp, pid, hp, pid));
    assert(p.children[idx] == vp[pid].children[idx]);
    assert(subtree_wf(vp, cid, g, clo, chi, t, t - 1));
    assert(in_subtree(vp, cid, g, cid));
    assert(!in_subtree(vp, cid, g, pid));
    assert(in_subtree(vp, pid, hp, cid));
    assert(cid != pid && rid != pid && rid != cid);
    assert(w[pid] == q2 && w[cid] == split_left(n) && w[rid] == split_right(n));
    assert(!in_subtree(vp, cid, g, rid));
    assert forall|x: NodeId|
        #![trigger w.contains_key(x)]
        #![trigger in_subtree(vp, cid, g, x)]
        in_subtree(vp, cid, g, x) && x != cid implies w.contains_key(x) && w[x] == vp[x] by {
        lemma_in_subtree_known(vp, cid, g, clo, chi, t, t - 1, x);
        assert(in_subtree(vp, pid, hp, x));
    }
    lemma_split_halves(vp, w, cid, rid, g, clo, chi, t);
    // The keys of the parent
    if idx > 0 {
        assert(above(clo, mk));
        assert(above(lo, p.pack.keys[idx - 1]));
        if lo is Some {
            lemma_key_lt_transitive(lo.unwrap(), p.pack.keys[idx - 1], mk);
        }
    }
    if idx < p.pack.keys.len() {
        assert(below(chi, mk));
        assert(below(hi, p.pack.keys[idx]));
        if hi is Some {
            lemma_key_lt_transitive(mk, p.pack.keys[idx], hi.unwrap());
        }
    }
    lemma_insert_between(p.pack, idx, mk, mp);
    lemma_within_insert(p.pack, mk, mp, lo, hi);
    assert(q2.pack.keys == p.pack.keys.insert(idx, mk));
    assert(q2.children == p.children.insert(idx + 1, rid));
    assert(node_ok(q2, lo, hi, t, pmin));
    // The children of the parent other than the split one are as they were
    assert forall|i: int| 0 <= i < p.children.len() && i != idx implies {
        &&& subtree_wf(w, #[trigger] p.children[i], g, lo_of(p.pack, i, lo), hi_of(p.pack, i, hi), t, t - 1)
        &&& forall|x: NodeId| #[trigger]
            in_subtree(w, p.children[i], g, x) == in_subtree(vp, p.children[i], g, x)
        &&& forall|q: Seq<u8>| #[trigger]
            lookup(w, p.children[i], g, q) == lookup(vp, p.children[i], g, q)
        &&& !in_subtree(vp, p.children[i], g, cid)
        &&& !in_subtree(vp, p.children[i], g, rid)
        &&& !in_subtree(vp, p.children[i], g, pid)
    } by {
        let ci = p.children[i];
        assert(ci == vp[pid].children[i]);
        if i < idx {
            assert(!in_subtree(vp, ci, g, cid));
        } else {
            assert(!in_subtree(vp, ci, g, cid));
        }
        assert forall|x: NodeId| #[trigger] in_subtree(vp, ci, g, x) implies w.contains_key(x)
            && w[x] == vp[x] by {
            lemma_in_subtree_known(vp, ci, g, lo_of(p.pack, i, lo), hi_of(p.pack, i, hi), t, t - 1, x);
            assert(in_subtree(vp, pid, hp, x));
            assert(!in_subtree(vp, ci, g, pid));
            if i < idx {
                assert(!in_subtree(vp, cid, g, x));
            } else {
                assert(!in_subtree(vp, cid, g, x));
            }
        }
        if in_subtree(vp, ci, g, rid) {
            assert(in_subtree(vp, pid, hp, rid));
        }
        lemma_frame(vp, w, ci, g, lo_of(p.pack, i, lo), hi_of(p.pack, i, hi), t, t - 1);
    }
    // Every child of the new parent is a well-formed subtree within its bounds
    assert forall|i: int| #![trigger w[pid].children[i]] 0 <= i < w[pid].children.len() implies {
        &&& subtree_wf(
            w,
            w[pid].children[i],
            g,
            lo_of(w[pid].pack, i, lo),
            hi_of(w[pid].pack, i, hi),
            t,
            t - 1,
        )
        &&& !in_subtree(w, w[pid].children[i], g, pid)
    } by {
        if i < idx {
            assert(w[pid].children[i] == p.children[i]);
            assert(q2.pack.keys[i] == p.pack.keys[i]);
            if i > 0 {
                assert(q2.pack.keys[i - 1] == p.pack.keys[i - 1]);
            }
        } else if i == idx {
            assert(w[pid].children[i] == cid);
            assert(q2.pack.keys[idx] == mk);
            if i > 0 {
                assert(q2.pack.keys[i - 1] == p.pack.keys[i - 1]);
            }
            if in_subtree(w, cid, g, pid) {
                assert(in_subtree(vp, cid, g, pid) || pid == rid);
            }
        } else if i == idx + 1 {
            assert(w[pid].children[i] == rid);
            assert(q2.pack.keys[idx] == mk);
            if i < q2.pack.keys.len() {
                assert(q2.pack.keys[i] == p.pack.keys[i - 1]);
            }
            if in_subtree(w, rid, g, pid) {
                assert(in_subtree(vp, cid, g, pid) || pid == rid);
            }
        } else {
            assert(w[pid].children[i] == p.children[i - 1]);
            assert(q2.pack.keys[i - 1] == p.pack.keys[i - 2]);
            if i < q2.pack.keys.len() {
                assert(q2.pack.keys[i] == p.pack.keys[i - 1]);
            }
        }
    }
    // No node is reached twice
    assert forall|a: int, b: int, x: NodeId|
        0 <= a < b < w[pid].children.len() && #[trigger] in_subtree(
            w,
            w[pid].children[a],
            g,
            x,
        ) implies !#[trigger] in_subtree(w, w[pid].children[b], g, x) by {
        if in_subtree(w, w[pid].children[b], g, x) {
            let a0 = if a <= idx { a } else { a - 1 };
            let b0 = if b <= idx { b } else { b - 1 };
            assert(w[pid].children[a] == if a == idx + 1 { rid } else { p.children[a0] });
            assert(w[pid].children[b] == if b == idx + 1 { rid } else { p.children[b0] });
            assert(p.children[a0] == vp[pid].children[a0]);
            assert(p.children[b0] == vp[pid].children[b0]);
            let in_a = if a == idx || a == idx + 1 {
                in_subtree(vp, cid, g, x) || x == rid
            } else {
                in_subtree(vp, p.children[a0], g, x)
            };
            let in_b = if b == idx || b == idx + 1 {
                in_subtree(vp, cid, g, x) || x == rid
            } else {
                in_subtree(vp, p.children[b0], g, x)
            };
            assert(in_a);
            assert(in_b);
            if a == idx && b == idx + 1 {
                assert(false);
            } else if a == idx || a == idx + 1 {
                // `b` is an old child behind the split one
                assert(in_subtree(vp, p.children[b0], g, x));
                assert(!in_subtree(vp, vp[pid].children[idx], g, x));
            } else if b == idx || b == idx + 1 {
                assert(in_subtree(vp, p.children[a0], g, x));
                assert(!in_subtree(vp, vp[pid].children[idx], g, x));
            } else {
                assert(in_subtree(vp, vp[pid].children[a0], g, x));
                assert(!in_subtree(vp, vp[pid].children[b0], g, x));
            }
        }
    }
    assert(subtree_wf(w, pid, hp, lo, hi, t, pmin));
    // The nodes of the new subtree
    assert forall|x: NodeId| in_subtree(w, pid, hp, x) <==> in_subtree(vp, pid, hp, x) || x
        == rid by {
        if in_subtree(w, pid, hp, x) && x != pid {
            let i = choose|i: int|
                #![trigger w[pid].children[i]]
                0 <= i < w[pid].children.len() && in_subtree(w, w[pid].children[i], g, x);
            if i < idx {
                assert(w[pid].children[i] == p.children[i]);
                assert(in_subtree(vp, vp[pid].children[i], g, x));
            } else if i == idx {
                assert(w[pid].children[i] == cid);
                assert(in_subtree(vp, vp[pid].children[idx], g, x) || x == rid);
            } else if i == idx + 1 {
                assert(w[pid].children[i] == rid);
                assert(in_subtree(vp, vp[pid].children[idx], g, x) || x == rid);
            } else {
                assert(w[pid].children[i] == p.children[i - 1]);
                assert(in_subtree(vp, vp[pid].children[i - 1], g, x));
            }
        }
        if x == rid {
            assert(w[pid].children[idx + 1] == rid);
            assert(in_subtree(w, rid, g, rid));
        }
        if in_subtree(vp, pid, hp, x) && x != pid {
            let i = choose|i: int|
                #![trigger vp[pid].children[i]]
                0 <= i < vp[pid].children.len() && in_subtree(vp, vp[pid].children[i], g, x);
            if i < idx {
                assert(w[pid].children[i] == p.children[i]);
                assert(in_subtree(w, p.children[i], g, x));
            } else if i == idx {
                assert(w[pid].children[idx] == cid);
                assert(w[pid].children[idx + 1] == rid);
                assert(in_subtree(w, cid, g, x) || in_subtree(w, rid, g, x));
            } else {
                assert(w[pid].children[i + 1] == p.children[i]);
                assert(in_subtree(w, p.children[i], g, x));
            }
        }
    }
    lemma_split_lookup(v, p, pid, hp, lo, hi, t, pmin, idx, rid);
}

} // verus!
