//! What the steps of a deletion do to the nodes they change: a node that
//! gives a key away or takes one in, and two nodes that become one.

use crate::model::{
    above, below, hi_of, in_subtree, lemma_frame, lo_of, lookup, node_ok, subtree_wf, Bound, Nodes,
};
use crate::node::{NodeId, NodeModel};
use crate::order::{
    key_lt, lemma_key_lt_asymmetric, lemma_key_lt_connected, lemma_key_lt_irreflexive,
    lemma_key_lt_transitive,
};
use crate::pack::{
    lemma_child_idx_insert, lemma_child_idx_remove, lemma_child_idx_split, lemma_concat,
    lemma_has_at, lemma_insert_between, lemma_pos_is, lemma_range, Pack,
};
use vstd::prelude::*;

verus! {

/// The node `y` with the key `dk` and the keys and children of `z` behind
/// its own.
pub open spec fn node_merge(y: NodeModel, dk: Seq<u8>, dp: u64, z: NodeModel) -> NodeModel {
    NodeModel {
        leaf: y.leaf,
        pack: y.pack.insert(dk, dp).concat(z.pack),
        children: y.children + z.children,
    }
}

/// Two neighbouring subtrees, merged through the key between them, make
/// one well-formed subtree. It has the nodes of both but the top node of the
/// second, and a search finds in it what it found in the one or the other.
#[verifier::rlimit(60)]
#[verifier::spinoff_prover]
pub proof fn lemma_merge(
    v: Nodes,
    w: Nodes,
    yid: NodeId,
    zid: NodeId,
    h: nat,
    lo: Bound,
    hi: Bound,
    t: int,
    dk: Seq<u8>,
    dp: u64,
)
    requires
        t >= 2,
        subtree_wf(v, yid, h, lo, Some(dk), t, t - 1),
        subtree_wf(v, zid, h, Some(dk), hi, t, t - 1),
        above(lo, dk),
        below(hi, dk),
        v[yid].pack.len() + 1 + v[zid].pack.len() <= 2 * t - 1,
        forall|x: NodeId|
            #![trigger in_subtree(v, yid, h, x)]
            #![trigger in_subtree(v, zid, h, x)]
            !(in_subtree(v, yid, h, x) && in_subtree(v, zid, h, x)),
        w.contains_key(yid),
        w[yid] == node_merge(v[yid], dk, dp, v[zid]),
        forall|x: NodeId|
            #![trigger w.contains_key(x)]
            #![trigger in_subtree(v, yid, h, x)]
            #![trigger in_subtree(v, zid, h, x)]
            (in_subtree(v, yid, h, x) || in_subtree(v, zid, h, x)) && x != yid && x != zid
                ==> w.contains_key(x) && w[x] == v[x],
    ensures
        subtree_wf(w, yid, h, lo, hi, t, t - 1),
        w[yid].pack.len() == v[yid].pack.len() + 1 + v[zid].pack.len(),
        forall|x: NodeId|
            #![trigger in_subtree(w, yid, h, x)]
            in_subtree(w, yid, h, x) <==> in_subtree(v, yid, h, x) || (in_subtree(v, zid, h, x)
                && x != zid),
        forall|q: Seq<u8>|
            #![trigger lookup(w, yid, h, q)]
            lookup(w, yid, h, q) == if q == dk {
                Some(dp)
            } else if key_lt(q, dk) {
                lookup(v, yid, h, q)
            } else {
                lookup(v, zid, h, q)
            },
        w[yid].pack.has(dk),
        forall|q: Seq<u8>|
            #![trigger w[yid].pack.has(q)]
            #![trigger w[yid].pack.child_idx(q)]
            q != dk ==> {
                let o = if key_lt(q, dk) {
                    v[yid]
                } else {
                    v[zid]
                };
                &&& w[yid].pack.has(q) <==> o.pack.has(q)
                &&& 0 <= o.pack.child_idx(q) <= o.pack.len()
                &&& 0 <= w[yid].pack.child_idx(q) <= w[yid].pack.len()
                &&& h > 1 ==> w[yid].children[w[yid].pack.child_idx(q)] == o.children[o.pack.child_idx(
                    q,
                )]
            },
{
    let y = v[yid];
    let z = v[zid];
    let m = w[yid];
    let ny = y.pack.keys.len() as int;
    let nz = z.pack.keys.len() as int;
    let y1 = y.pack.insert(dk, dp);
    // The keys of the merged node
    if ny > 0 {
        assert(below(Some(dk), y.pack.keys[ny - 1]));
    }
    lemma_insert_between(y.pack, ny, dk, dp);
    assert(y1.keys == y.pack.keys.insert(ny, dk));
    assert(y1.keys.last() == dk);
    if nz > 0 {
        assert(above(Some(dk), z.pack.keys[0]));
    }
    lemma_concat(y1, z.pack, dk);
    assert(m.pack.keys.len() == ny + 1 + nz);
    assert forall|i: int| 0 <= i < m.pack.keys.len() implies above(lo, #[trigger] m.pack.keys[i])
        && below(hi, m.pack.keys[i]) by {
        if i < ny {
            assert(m.pack.keys[i] == y.pack.keys[i]);
            assert(above(lo, y.pack.keys[i]) && below(Some(dk), y.pack.keys[i]));
            if hi is Some {
                lemma_key_lt_transitive(y.pack.keys[i], dk, hi.unwrap());
            }
        } else if i == ny {
            assert(m.pack.keys[i] == dk);
        } else {
            assert(m.pack.keys[i] == z.pack.keys[i - ny - 1]);
            assert(above(Some(dk), z.pack.keys[i - ny - 1]) && below(hi, z.pack.keys[i - ny - 1]));
            if lo is Some {
                lemma_key_lt_transitive(lo.unwrap(), dk, z.pack.keys[i - ny - 1]);
            }
        }
    }
    assert(node_ok(m, lo, hi, t, t - 1));
    y.pack.lemma_insert_get(dk, dp, dk);
    assert(in_subtree(v, yid, h, yid));
    assert(in_subtree(v, zid, h, zid));
    assert(yid != zid);
    assert forall|q: Seq<u8>| #![trigger lookup(w, yid, h, q)] {
        &&& m.pack.has(q) <==> q == dk || y.pack.has(q) || z.pack.has(q)
        &&& y.pack.has(q) ==> key_lt(q, dk) && m.pack.get(q) == y.pack.get(q)
        &&& z.pack.has(q) ==> key_lt(dk, q) && m.pack.get(q) == z.pack.get(q)
        &&& q == dk ==> m.pack.get(q) == Some(dp)
        &&& key_lt(q, dk) ==> m.pack.child_idx(q) == y.pack.child_idx(q) && y.pack.child_idx(q)
            <= ny
        &&& key_lt(dk, q) ==> m.pack.child_idx(q) == ny + 1 + z.pack.child_idx(q)
            && z.pack.child_idx(q) >= 0
    } by {
        lemma_concat(y1, z.pack, q);
        y.pack.lemma_insert_get(dk, dp, q);
        lemma_child_idx_insert(y.pack, ny, dk, dp, q);
        lemma_child_idx_split(y.pack, q);
        lemma_child_idx_split(z.pack, q);
        lemma_key_lt_irreflexive(dk);
        if y.pack.has(q) {
            let i = y.pack.pos(q);
            assert(0 <= i < ny && y.pack.keys[i] == q);
            assert(below(Some(dk), y.pack.keys[i]));
        }
        if z.pack.has(q) {
            let i = z.pack.pos(q);
            assert(0 <= i < nz && z.pack.keys[i] == q);
            assert(above(Some(dk), z.pack.keys[i]));
        }
        if key_lt(q, dk) {
            lemma_key_lt_asymmetric(q, dk);
        }
        if key_lt(dk, q) {
            lemma_key_lt_asymmetric(dk, q);
            if y.pack.child_idx(q) < ny {
                assert(key_lt(q, y.pack.keys[y.pack.child_idx(q)]));
                assert(below(Some(dk), y.pack.keys[y.pack.child_idx(q)]));
                lemma_key_lt_transitive(q, y.pack.keys[y.pack.child_idx(q)], dk);
            }
        }
    }
    assert forall|q: Seq<u8>|
        #![trigger w[yid].pack.has(q)]
        #![trigger w[yid].pack.child_idx(q)]
        q != dk implies {
            let o = if key_lt(q, dk) {
                v[yid]
            } else {
                v[zid]
            };
            &&& w[yid].pack.has(q) <==> o.pack.has(q)
            &&& 0 <= o.pack.child_idx(q) <= o.pack.len()
            &&& 0 <= w[yid].pack.child_idx(q) <= w[yid].pack.len()
            &&& h > 1 ==> w[yid].children[w[yid].pack.child_idx(q)] == o.children[o.pack.child_idx(q)]
        } by {
        assert(lookup(w, yid, h, q) == lookup(w, yid, h, q));
        lemma_child_idx_split(y.pack, q);
        lemma_child_idx_split(z.pack, q);
        if h > 1 {
            assert(m.children.len() == ny + 1 + nz + 1);
        }
        if !key_lt(q, dk) {
            if !key_lt(dk, q) {
                lemma_key_lt_connected(q, dk);
            }
            if y.pack.has(q) {
                lemma_key_lt_asymmetric(q, dk);
            }
            if h > 1 {
                assert(m.children[ny + 1 + z.pack.child_idx(q)] == z.children[z.pack.child_idx(q)]);
            }
        } else {
            if z.pack.has(q) {
                lemma_key_lt_asymmetric(q, dk);
            }
            if h > 1 {
                assert(m.children[y.pack.child_idx(q)] == y.children[y.pack.child_idx(q)]);
            }
        }
    }
    if h == 1 {
        assert(m.children =~= Seq::<u64>::empty());
        assert(subtree_wf(w, yid, h, lo, hi, t, t - 1));
    } else {
        let g = (h - 1) as nat;
        assert(m.children.len() == ny + 1 + nz + 1);
        // Every subtree under the two old nodes is as it was
        assert forall|j: int| 0 <= j < y.children.len() implies {
            &&& subtree_wf(w, #[trigger] y.children[j], g, lo_of(y.pack, j, lo), hi_of(y.pack, j, Some(dk)), t, t - 1)
            &&& forall|x: NodeId| #[trigger]
                in_subtree(w, y.children[j], g, x) == in_subtree(v, y.children[j], g, x)
            &&& forall|q: Seq<u8>| #[trigger]
                lookup(w, y.children[j], g, q) == lookup(v, y.children[j], g, q)
            &&& !in_subtree(v, y.children[j], g, yid)
            &&& !in_subtree(v, y.children[j], g, zid)
        } by {
            let cj = y.children[j];
            assert(cj == v[yid].children[j]);
            assert(!in_subtree(v, cj, g, yid));
            if in_subtree(v, cj, g, zid) {
                assert(in_subtree(v, yid, h, zid));
            }
            assert forall|x: NodeId| #[trigger] in_subtree(v, cj, g, x) implies w.contains_key(x)
                && w[x] == v[x] by {
                assert(in_subtree(v, yid, h, x));
                if x == zid {
                    assert(in_subtree(v, zid, h, x));
                }
            }
            lemma_frame(v, w, cj, g, lo_of(y.pack, j, lo), hi_of(y.pack, j, Some(dk)), t, t - 1);
        }
        assert forall|j: int| 0 <= j < z.children.len() implies {
            &&& subtree_wf(w, #[trigger] z.children[j], g, lo_of(z.pack, j, Some(dk)), hi_of(z.pack, j, hi), t, t - 1)
            &&& forall|x: NodeId| #[trigger]
                in_subtree(w, z.children[j], g, x) == in_subtree(v, z.children[j], g, x)
            &&& forall|q: Seq<u8>| #[trigger]
                lookup(w, z.children[j], g, q) == lookup(v, z.children[j], g, q)
            &&& !in_subtree(v, z.children[j], g, yid)
            &&& !in_subtree(v, z.children[j], g, zid)
        } by {
            let cj = z.children[j];
            assert(cj == v[zid].children[j]);
            assert(!in_subtree(v, cj, g, zid));
            if in_subtree(v, cj, g, yid) {
                assert(in_subtree(v, zid, h, yid));
            }
            assert forall|x: NodeId| #[trigger] in_subtree(v, cj, g, x) implies w.contains_key(x)
                && w[x] == v[x] by {
                assert(in_subtree(v, zid, h, x));
                if x == yid {
                    assert(in_subtree(v, yid, h, x));
                }
            }
            lemma_frame(v, w, cj, g, lo_of(z.pack, j, Some(dk)), hi_of(z.pack, j, hi), t, t - 1);
        }
        assert forall|j: int| #![trigger w[yid].children[j]] 0 <= j < w[yid].children.len() implies {
            &&& subtree_wf(
                w,
                w[yid].children[j],
                g,
                lo_of(w[yid].pack, j, lo),
                hi_of(w[yid].pack, j, hi),
                t,
                t - 1,
            )
            &&& !in_subtree(w, w[yid].children[j], g, yid)
        } by {
            if j <= ny {
                assert(w[yid].children[j] == y.children[j]);
                if j > 0 {
                    assert(m.pack.keys[j - 1] == y.pack.keys[j - 1]);
                }
                if j < ny {
                    assert(m.pack.keys[j] == y.pack.keys[j]);
                } else {
                    assert(m.pack.keys[j] == dk);
                }
            } else {
                let j0 = j - ny - 1;
                assert(w[yid].children[j] == z.children[j0]);
                if j0 > 0 {
                    assert(m.pack.keys[j - 1] == z.pack.keys[j0 - 1]);
                } else {
                    assert(m.pack.keys[j - 1] == dk);
                }
                if j0 < nz {
                    assert(m.pack.keys[j] == z.pack.keys[j0]);
                }
            }
        }
        assert forall|a: int, b: int, x: NodeId|
            0 <= a < b < w[yid].children.len() && #[trigger] in_subtree(
                w,
                w[yid].children[a],
                g,
                x,
            ) implies !#[trigger] in_subtree(w, w[yid].children[b], g, x) by {
            if in_subtree(w, w[yid].children[b], g, x) {
                if b <= ny {
                    assert(w[yid].children[a] == y.children[a]);
                    assert(w[yid].children[b] == y.children[b]);
                    assert(in_subtree(v, v[yid].children[a], g, x));
                    assert(in_subtree(v, v[yid].children[b], g, x));
                } else if a > ny {
                    assert(w[yid].children[a] == z.children[a - ny - 1]);
                    assert(w[yid].children[b] == z.children[b - ny - 1]);
                    assert(in_subtree(v, v[zid].children[a - ny - 1], g, x));
                    assert(in_subtree(v, v[zid].children[b - ny - 1], g, x));
                } else {
                    assert(w[yid].children[a] == y.children[a]);
                    assert(w[yid].children[b] == z.children[b - ny - 1]);
                    assert(in_subtree(v, v[yid].children[a], g, x));
                    assert(in_subtree(v, v[zid].children[b - ny - 1], g, x));
                    assert(in_subtree(v, yid, h, x));
                    assert(in_subtree(v, zid, h, x));
                }
            }
        }
        assert(subtree_wf(w, yid, h, lo, hi, t, t - 1));
        assert forall|x: NodeId|
            #![trigger in_subtree(w, yid, h, x)]
            in_subtree(w, yid, h, x) <==> in_subtree(v, yid, h, x) || (in_subtree(v, zid, h, x)
                && x != zid) by {
            if in_subtree(w, yid, h, x) && x != yid {
                let j = choose|j: int|
                    #![trigger w[yid].children[j]]
                    0 <= j < w[yid].children.len() && in_subtree(w, w[yid].children[j], g, x);
                if j <= ny {
                    assert(w[yid].children[j] == y.children[j]);
                    assert(in_subtree(v, v[yid].children[j], g, x));
                } else {
                    assert(w[yid].children[j] == z.children[j - ny - 1]);
                    assert(in_subtree(v, v[zid].children[j - ny - 1], g, x));
                    assert(!in_subtree(v, z.children[j - ny - 1], g, zid));
                }
            }
            if in_subtree(v, yid, h, x) && x != yid {
                let j = choose|j: int|
                    #![trigger v[yid].children[j]]
                    0 <= j < v[yid].children.len() && in_subtree(v, v[yid].children[j], g, x);
                assert(w[yid].children[j] == y.children[j]);
                assert(in_subtree(w, y.children[j], g, x));
            }
            if in_subtree(v, zid, h, x) && x != zid {
                let j = choose|j: int|
                    #![trigger v[zid].children[j]]
                    0 <= j < v[zid].children.len() && in_subtree(v, v[zid].children[j], g, x);
                assert(w[yid].children[j + ny + 1] == z.children[j]);
                assert(in_subtree(w, z.children[j], g, x));
            }
        }
        assert forall|q: Seq<u8>|
            #![trigger lookup(w, yid, h, q)]
            lookup(w, yid, h, q) == if q == dk {
                Some(dp)
            } else if key_lt(q, dk) {
                lookup(v, yid, h, q)
            } else {
                lookup(v, zid, h, q)
            } by {
            if q != dk {
                if key_lt(q, dk) {
                    let i = y.pack.child_idx(q);
                    lemma_child_idx_split(y.pack, q);
                    assert(!z.pack.has(q)) by {
                        if z.pack.has(q) {
                            lemma_key_lt_asymmetric(q, dk);
                        }
                    }
                    if !y.pack.has(q) {
                        assert(w[yid].children[i] == y.children[i]);
                        assert(lookup(w, y.children[i], g, q) == lookup(v, y.children[i], g, q));
                        assert(lookup(w, yid, h, q) == lookup(w, w[yid].children[i], g, q));
                    }
                } else {
                    if !key_lt(dk, q) {
                        lemma_key_lt_connected(q, dk);
                    }
                    let i = z.pack.child_idx(q);
                    lemma_child_idx_split(z.pack, q);
                    assert(!y.pack.has(q)) by {
                        if y.pack.has(q) {
                            lemma_key_lt_asymmetric(q, dk);
                        }
                    }
                    if !z.pack.has(q) {
                        assert(w[yid].children[ny + 1 + i] == z.children[i]);
                        assert(lookup(w, z.children[i], g, q) == lookup(v, z.children[i], g, q));
                        assert(lookup(w, yid, h, q) == lookup(w, w[yid].children[ny + 1 + i], g, q));
                    }
                }
            }
        }
    }
    if h == 1 {
        assert forall|q: Seq<u8>|
            #![trigger lookup(w, yid, h, q)]
            lookup(w, yid, h, q) == if q == dk {
                Some(dp)
            } else if key_lt(q, dk) {
                lookup(v, yid, h, q)
            } else {
                lookup(v, zid, h, q)
            } by {
            if q != dk && !key_lt(q, dk) && !key_lt(dk, q) {
                lemma_key_lt_connected(q, dk);
            }
            if z.pack.has(q) && key_lt(q, dk) {
                lemma_key_lt_asymmetric(q, dk);
            }
            if y.pack.has(q) && key_lt(dk, q) {
                lemma_key_lt_asymmetric(q, dk);
            }
        }
        assert forall|x: NodeId|
            #![trigger in_subtree(w, yid, h, x)]
            in_subtree(w, yid, h, x) <==> in_subtree(v, yid, h, x) || (in_subtree(v, zid, h, x)
                && x != zid) by {}
    }
}

/// The node `n` cut down to its keys from `a` up to `b` and the children
/// around them.
pub open spec fn node_trim(n: NodeModel, a: int, b: int) -> NodeModel {
    NodeModel {
        leaf: n.leaf,
        pack: n.pack.range(a, b),
        children: if n.leaf {
            n.children
        } else {
            n.children.subrange(a, b + 1)
        },
    }
}

/// A node cut down to a stretch of its keys, with the children around them,
/// is the top of a well-formed subtree between the keys next to the stretch.
/// Its nodes are nodes of the old subtree, and a search for a key between
/// those bounds finds what it found before.
pub proof fn lemma_trim(
    v: Nodes,
    w: Nodes,
    id: NodeId,
    h: nat,
    lo: Bound,
    hi: Bound,
    t: int,
    min: int,
    a: int,
    b: int,
    newmin: int,
)
    requires
        subtree_wf(v, id, h, lo, hi, t, min),
        0 <= a <= b <= v[id].pack.len(),
        newmin <= b - a,
        w.contains_key(id),
        w[id] == node_trim(v[id], a, b),
        forall|x: NodeId|
            #![trigger w.contains_key(x)]
            #![trigger in_subtree(v, id, h, x)]
            in_subtree(v, id, h, x) && x != id ==> w.contains_key(x) && w[x] == v[x],
    ensures
        subtree_wf(w, id, h, lo_of(v[id].pack, a, lo), hi_of(v[id].pack, b, hi), t, newmin),
        w[id].pack.len() == b - a,
        forall|x: NodeId|
            #![trigger in_subtree(w, id, h, x)]
            in_subtree(w, id, h, x) ==> in_subtree(v, id, h, x),
        forall|j: int, x: NodeId|
            #![trigger in_subtree(v, v[id].children[j], (h - 1) as nat, x)]
            h > 1 && 0 <= j < v[id].children.len() && in_subtree(
                v,
                v[id].children[j],
                (h - 1) as nat,
                x,
            ) ==> (in_subtree(w, id, h, x) <==> a <= j <= b),
        forall|q: Seq<u8>|
            #![trigger lookup(w, id, h, q)]
            (a > 0 ==> key_lt(v[id].pack.keys[a - 1], q)) && (b < v[id].pack.len() ==> key_lt(
                q,
                v[id].pack.keys[b],
            )) ==> lookup(w, id, h, q) == lookup(v, id, h, q),
{
    let n = v[id];
    let m = w[id];
    let len = n.pack.keys.len() as int;
    let nlo = lo_of(n.pack, a, lo);
    let nhi = hi_of(n.pack, b, hi);
    lemma_range(n.pack, a, b, n.pack.keys[0]);
    assert forall|i: int| 0 <= i < m.pack.keys.len() implies above(nlo, #[trigger] m.pack.keys[i])
        && below(nhi, m.pack.keys[i]) by {
        assert(m.pack.keys[i] == n.pack.keys[i + a]);
        assert(above(lo, n.pack.keys[i + a]) && below(hi, n.pack.keys[i + a]));
        if a > 0 {
            assert(key_lt(n.pack.keys[a - 1], n.pack.keys[i + a]));
        }
        if b < len {
            assert(key_lt(n.pack.keys[i + a], n.pack.keys[b]));
        }
    }
    assert(node_ok(m, nlo, nhi, t, newmin));
    assert(in_subtree(v, id, h, id));
    // What the stretch has of a key between the new bounds
    assert forall|q: Seq<u8>|
        #![trigger lookup(w, id, h, q)]
        (a > 0 ==> key_lt(n.pack.keys[a - 1], q)) && (b < len ==> key_lt(q, n.pack.keys[b])) implies {
        &&& m.pack.has(q) <==> n.pack.has(q)
        &&& m.pack.has(q) ==> m.pack.get(q) == n.pack.get(q)
        &&& a <= n.pack.child_idx(q) <= b
        &&& m.pack.child_idx(q) == n.pack.child_idx(q) - a
    } by {
        lemma_range(n.pack, a, b, q);
        lemma_child_idx_split(n.pack, q);
        lemma_has_at(n.pack, q);
        let c = n.pack.child_idx(q);
        if c < a {
            assert(key_lt(q, n.pack.keys[c]));
            if c < a - 1 {
                assert(key_lt(n.pack.keys[c], n.pack.keys[a - 1]));
                lemma_key_lt_transitive(q, n.pack.keys[c], n.pack.keys[a - 1]);
            }
            lemma_key_lt_asymmetric(q, n.pack.keys[a - 1]);
        }
        if c > b {
            assert(!key_lt(q, n.pack.keys[b]));
        }
        if n.pack.has(q) {
            let i = n.pack.pos(q);
            assert(0 <= i < len && n.pack.keys[i] == q);
            lemma_key_lt_irreflexive(q);
            if i < a {
                if i < a - 1 {
                    assert(key_lt(n.pack.keys[i], n.pack.keys[a - 1]));
                }
                lemma_key_lt_asymmetric(n.pack.keys[a - 1], q);
            }
            if i >= b {
                if i > b {
                    assert(key_lt(n.pack.keys[b], n.pack.keys[i]));
                }
                lemma_key_lt_asymmetric(q, n.pack.keys[b]);
            }
        }
    }
    if h == 1 {
        assert(subtree_wf(w, id, h, nlo, nhi, t, newmin));
    } else {
        let g = (h - 1) as nat;
        assert(m.children.len() == b - a + 1);
        assert forall|j: int| 0 <= j < n.children.len() implies {
            &&& subtree_wf(w, #[trigger] n.children[j], g, lo_of(n.pack, j, lo), hi_of(n.pack, j, hi), t, t - 1)
            &&& forall|x: NodeId| #[trigger]
                in_subtree(w, n.children[j], g, x) == in_subtree(v, n.children[j], g, x)
            &&& forall|q: Seq<u8>| #[trigger]
                lookup(w, n.children[j], g, q) == lookup(v, n.children[j], g, q)
            &&& !in_subtree(v, n.children[j], g, id)
        } by {
            let cj = n.children[j];
            assert(cj == v[id].children[j]);
            assert(!in_subtree(v, cj, g, id));
            assert forall|x: NodeId| #[trigger] in_subtree(v, cj, g, x) implies w.contains_key(x)
                && w[x] == v[x] by {
                assert(in_subtree(v, id, h, x));
            }
            lemma_frame(v, w, cj, g, lo_of(n.pack, j, lo), hi_of(n.pack, j, hi), t, t - 1);
        }
        assert forall|j: int| #![trigger w[id].children[j]] 0 <= j < w[id].children.len() implies {
            &&& subtree_wf(
                w,
                w[id].children[j],
                g,
                lo_of(w[id].pack, j, nlo),
                hi_of(w[id].pack, j, nhi),
                t,
                t - 1,
            )
            &&& !in_subtree(w, w[id].children[j], g, id)
        } by {
            assert(w[id].children[j] == n.children[j + a]);
            if j > 0 {
                assert(m.pack.keys[j - 1] == n.pack.keys[j + a - 1]);
            }
            if j < b - a {
                assert(m.pack.keys[j] == n.pack.keys[j + a]);
            }
        }
        assert forall|c: int, d: int, x: NodeId|
            0 <= c < d < w[id].children.len() && #[trigger] in_subtree(
                w,
                w[id].children[c],
                g,
                x,
            ) implies !#[trigger] in_subtree(w, w[id].children[d], g, x) by {
            assert(w[id].children[c] == n.children[c + a]);
            assert(w[id].children[d] == n.children[d + a]);
            assert(in_subtree(v, v[id].children[c + a], g, x));
            if in_subtree(w, w[id].children[d], g, x) {
                assert(in_subtree(v, v[id].children[d + a], g, x));
            }
        }
        assert(subtree_wf(w, id, h, nlo, nhi, t, newmin));
        assert forall|x: NodeId| #![trigger in_subtree(w, id, h, x)] in_subtree(w, id, h, x) implies in_subtree(
            v,
            id,
            h,
            x,
        ) by {
            if x != id {
                let j = choose|j: int|
                    #![trigger w[id].children[j]]
                    0 <= j < w[id].children.len() && in_subtree(w, w[id].children[j], g, x);
                assert(w[id].children[j] == n.children[j + a]);
                assert(in_subtree(v, v[id].children[j + a], g, x));
            }
        }
        assert forall|j: int, x: NodeId|
            #![trigger in_subtree(v, v[id].children[j], (h - 1) as nat, x)]
            h > 1 && 0 <= j < v[id].children.len() && in_subtree(
                v,
                v[id].children[j],
                (h - 1) as nat,
                x,
            ) implies (in_subtree(w, id, h, x) <==> a <= j <= b) by {
            assert(x != id);
            if a <= j <= b {
                assert(w[id].children[j - a] == n.children[j]);
                assert(in_subtree(w, n.children[j], g, x));
            }
            if in_subtree(w, id, h, x) {
                let i = choose|i: int|
                    #![trigger w[id].children[i]]
                    0 <= i < w[id].children.len() && in_subtree(w, w[id].children[i], g, x);
                assert(w[id].children[i] == n.children[i + a]);
                assert(in_subtree(v, v[id].children[i + a], g, x));
                if i + a < j {
                    assert(!in_subtree(v, v[id].children[j], g, x));
                }
                if j < i + a {
                    assert(!in_subtree(v, v[id].children[i + a], g, x));
                }
            }
        }
        assert forall|q: Seq<u8>|
            #![trigger lookup(w, id, h, q)]
            (a > 0 ==> key_lt(n.pack.keys[a - 1], q)) && (b < len ==> key_lt(q, n.pack.keys[b]))
                implies lookup(w, id, h, q) == lookup(v, id, h, q) by {
            let i = n.pack.child_idx(q);
            if !n.pack.has(q) {
                assert(w[id].children[i - a] == n.children[i]);
                assert(lookup(w, n.children[i], g, q) == lookup(v, n.children[i], g, q));
                assert(lookup(w, id, h, q) == lookup(w, w[id].children[i - a], g, q));
            }
        }
    }
}

/// The node `c` with the key `dk` behind its keys and, if it is internal,
/// the child `moved` behind its children.
pub open spec fn node_graft_last(c: NodeModel, dk: Seq<u8>, dp: u64, moved: NodeId) -> NodeModel {
    NodeModel {
        leaf: c.leaf,
        pack: c.pack.insert(dk, dp),
        children: if c.leaf {
            c.children
        } else {
            c.children.push(moved)
        },
    }
}

/// A node that takes its bound in as a key behind its keys, and a
/// well-formed subtree as the child beyond it, is the top of a well-formed
/// subtree up to the bound of that child. A search finds the payload of the
/// new key at that key, on the side of the old keys what it found before, and
/// on the other side what it finds under the new child.
#[verifier::rlimit(60)]
#[verifier::spinoff_prover]
pub proof fn lemma_graft_last(
    v: Nodes,
    w: Nodes,
    cid: NodeId,
    h: nat,
    lo: Bound,
    hi: Bound,
    t: int,
    min: int,
    dk: Seq<u8>,
    dp: u64,
    moved: NodeId,
    nb: Bound,
)
    requires
        subtree_wf(v, cid, h, lo, Some(dk), t, min),
        v[cid].pack.len() < 2 * t - 1,
        above(lo, dk),
        below(nb, dk),
        w.contains_key(cid),
        w[cid] == node_graft_last(v[cid], dk, dp, moved),
        forall|x: NodeId|
            #![trigger w.contains_key(x)]
            #![trigger in_subtree(v, cid, h, x)]
            in_subtree(v, cid, h, x) && x != cid ==> w.contains_key(x) && w[x] == v[x],
        h > 1 ==> subtree_wf(w, moved, (h - 1) as nat, Some(dk), nb, t, t - 1),
        forall|x: NodeId|
            #![trigger in_subtree(w, moved, (h - 1) as nat, x)]
            h > 1 && in_subtree(w, moved, (h - 1) as nat, x) ==> !in_subtree(v, cid, h, x),
    ensures
        subtree_wf(w, cid, h, lo, nb, t, min),
        w[cid].pack.len() == v[cid].pack.len() + 1,
        forall|x: NodeId|
            #![trigger in_subtree(w, cid, h, x)]
            in_subtree(w, cid, h, x) <==> in_subtree(v, cid, h, x) || (h > 1 && in_subtree(
                w,
                moved,
                (h - 1) as nat,
                x,
            )),
        forall|q: Seq<u8>|
            #![trigger lookup(w, cid, h, q)]
            lookup(w, cid, h, q) == if q == dk {
                Some(dp)
            } else if key_lt(q, dk) {
                lookup(v, cid, h, q)
            } else if h == 1 {
                None
            } else {
                lookup(w, moved, (h - 1) as nat, q)
            },
        forall|q: Seq<u8>|
            #![trigger w[cid].pack.has(q)]
            key_lt(q, dk) ==> (w[cid].pack.has(q) <==> v[cid].pack.has(q)),
        forall|q: Seq<u8>|
            #![trigger w[cid].pack.child_idx(q)]
            key_lt(q, dk) ==> w[cid].pack.child_idx(q) == v[cid].pack.child_idx(q),
        forall|q: Seq<u8>|
            #![trigger w[cid].pack.child_idx(q)]
            key_lt(q, dk) && h > 1 ==> w[cid].children[w[cid].pack.child_idx(q)]
                == v[cid].children[v[cid].pack.child_idx(q)],
{
    let c = v[cid];
    let m = w[cid];
    let n = c.pack.keys.len() as int;
    let at = n;
    if n > 0 {
        assert(above(lo, c.pack.keys[0]) && below(Some(dk), c.pack.keys[n - 1]));
    }
    lemma_insert_between(c.pack, at, dk, dp);
    assert(m.pack.keys == c.pack.keys.insert(at, dk));
    assert forall|i: int| 0 <= i < m.pack.keys.len() implies above(
        lo,
        #[trigger] m.pack.keys[i],
    ) && below(nb, m.pack.keys[i]) by {
        if i == at {
            assert(m.pack.keys[i] == dk);
        } else {
            let i0 = if i < at { i } else { i - 1 };
            assert(m.pack.keys[i] == c.pack.keys[i0]);
            assert(above(lo, c.pack.keys[i0]) && below(Some(dk), c.pack.keys[i0]));
            if nb is Some {
                lemma_key_lt_transitive(c.pack.keys[i0], dk, nb.unwrap());
            }
        }
    }
    assert(node_ok(m, lo, nb, t, min));
    assert(in_subtree(v, cid, h, cid));
    assert forall|q: Seq<u8>| #![trigger lookup(w, cid, h, q)] {
        &&& m.pack.has(q) <==> q == dk || c.pack.has(q)
        &&& q == dk ==> m.pack.get(q) == Some(dp)
        &&& c.pack.has(q) ==> m.pack.get(q) == c.pack.get(q) && key_lt(q, dk)
        &&& key_lt(q, dk) ==> m.pack.child_idx(q) == c.pack.child_idx(q) + 0 && 0
            <= c.pack.child_idx(q) <= n
        &&& !(key_lt(q, dk)) && q != dk ==> m.pack.child_idx(q) == n + 1
    } by {
        c.pack.lemma_insert_get(dk, dp, q);
        lemma_child_idx_insert(c.pack, at, dk, dp, q);
        lemma_child_idx_split(c.pack, q);
        lemma_key_lt_irreflexive(dk);
        if c.pack.has(q) {
            let i = c.pack.pos(q);
            assert(0 <= i < n && c.pack.keys[i] == q);
            assert(above(lo, c.pack.keys[i]) && below(Some(dk), c.pack.keys[i]));
        }
        if key_lt(q, dk) {
            lemma_key_lt_asymmetric(q, dk);
        }
        if key_lt(dk, q) {
            lemma_key_lt_asymmetric(dk, q);
        }
        if q != dk && !key_lt(q, dk) && !key_lt(dk, q) {
            lemma_key_lt_connected(q, dk);
        }
        let ci = c.pack.child_idx(q);
        if key_lt(dk, q) && ci < n {
            assert(key_lt(q, c.pack.keys[ci]));
            assert(below(Some(dk), c.pack.keys[ci]));
            lemma_key_lt_transitive(q, c.pack.keys[ci], dk);
        }
    }
    assert forall|q: Seq<u8>|
        #![trigger w[cid].pack.has(q)]
        #![trigger w[cid].pack.child_idx(q)]
        key_lt(q, dk) implies (w[cid].pack.has(q) <==> v[cid].pack.has(q)) && 0
            <= v[cid].pack.child_idx(q) <= v[cid].pack.len() && w[cid].pack.child_idx(q)
            == v[cid].pack.child_idx(q) && (h > 1 ==> w[cid].children[w[cid].pack.child_idx(q)]
            == v[cid].children[v[cid].pack.child_idx(q)]) by {
        assert(lookup(w, cid, h, q) == lookup(w, cid, h, q));
        lemma_key_lt_irreflexive(dk);
        lemma_child_idx_split(c.pack, q);
        if h > 1 {
            assert(c.children.len() == n + 1);
            assert(m.children == c.children.push(moved));
            assert(m.children[c.pack.child_idx(q)] == c.children[c.pack.child_idx(q)]);
        }
    }
    if h == 1 {
        assert(subtree_wf(w, cid, h, lo, nb, t, min));
    } else {
        let g = (h - 1) as nat;
        assert(m.children.len() == n + 2);
        assert(in_subtree(w, moved, g, moved));
        assert forall|j: int| 0 <= j < c.children.len() implies {
            &&& subtree_wf(w, #[trigger] c.children[j], g, lo_of(c.pack, j, lo), hi_of(c.pack, j, Some(dk)), t, t - 1)
            &&& forall|x: NodeId| #[trigger]
                in_subtree(w, c.children[j], g, x) == in_subtree(v, c.children[j], g, x)
            &&& forall|q: Seq<u8>| #[trigger]
                lookup(w, c.children[j], g, q) == lookup(v, c.children[j], g, q)
            &&& !in_subtree(v, c.children[j], g, cid)
        } by {
            let cj = c.children[j];
            assert(cj == v[cid].children[j]);
            assert(!in_subtree(v, cj, g, cid));
            assert forall|x: NodeId| #[trigger] in_subtree(v, cj, g, x) implies w.contains_key(x)
                && w[x] == v[x] by {
                assert(in_subtree(v, cid, h, x));
            }
            lemma_frame(v, w, cj, g, lo_of(c.pack, j, lo), hi_of(c.pack, j, Some(dk)), t, t - 1);
        }
        let mi = n + 1;
        assert(w[cid].children[mi] == moved);
        assert forall|j: int| #![trigger w[cid].children[j]] 0 <= j < w[cid].children.len() implies {
            &&& subtree_wf(
                w,
                w[cid].children[j],
                g,
                lo_of(w[cid].pack, j, lo),
                hi_of(w[cid].pack, j, nb),
                t,
                t - 1,
            )
            &&& !in_subtree(w, w[cid].children[j], g, cid)
        } by {
            if j == mi {
                assert(m.pack.keys[at] == dk);
                if in_subtree(w, moved, g, cid) {
                    assert(!in_subtree(v, cid, h, cid));
                }
            } else {
                let j0 = j - 0;
                assert(w[cid].children[j] == c.children[j0]);
                if j0 > 0 {
                    assert(m.pack.keys[j - 1] == c.pack.keys[j0 - 1]);
                }
                if j0 < n {
                    assert(m.pack.keys[j] == c.pack.keys[j0]);
                } else if j < m.pack.keys.len() {
                    assert(m.pack.keys[j] == dk);
                }
                if j0 == 0 && j > 0 {
                    assert(m.pack.keys[j - 1] == dk);
                }
            }
        }
        assert forall|a: int, b: int, x: NodeId|
            0 <= a < b < w[cid].children.len() && #[trigger] in_subtree(
                w,
                w[cid].children[a],
                g,
                x,
            ) implies !#[trigger] in_subtree(w, w[cid].children[b], g, x) by {
            if in_subtree(w, w[cid].children[b], g, x) {
                if a == mi || b == mi {
                    let o = if a == mi { b } else { a };
                    assert(w[cid].children[o] == c.children[o - 0]);
                    assert(in_subtree(v, v[cid].children[o - 0], g, x));
                    assert(in_subtree(v, cid, h, x));
                } else {
                    assert(w[cid].children[a] == c.children[a - 0]);
                    assert(w[cid].children[b] == c.children[b - 0]);
                    assert(in_subtree(v, v[cid].children[a - 0], g, x));
                    assert(in_subtree(v, v[cid].children[b - 0], g, x));
                }
            }
        }
        assert(subtree_wf(w, cid, h, lo, nb, t, min));
        assert forall|x: NodeId|
            #![trigger in_subtree(w, cid, h, x)]
            in_subtree(w, cid, h, x) <==> in_subtree(v, cid, h, x) || (h > 1 && in_subtree(
                w,
                moved,
                (h - 1) as nat,
                x,
            )) by {
            if in_subtree(w, cid, h, x) && x != cid {
                let j = choose|j: int|
                    #![trigger w[cid].children[j]]
                    0 <= j < w[cid].children.len() && in_subtree(w, w[cid].children[j], g, x);
                if j != mi {
                    assert(w[cid].children[j] == c.children[j - 0]);
                    assert(in_subtree(v, v[cid].children[j - 0], g, x));
                }
            }
            if in_subtree(v, cid, h, x) && x != cid {
                let j = choose|j: int|
                    #![trigger v[cid].children[j]]
                    0 <= j < v[cid].children.len() && in_subtree(v, v[cid].children[j], g, x);
                assert(w[cid].children[j + 0] == c.children[j]);
                assert(in_subtree(w, c.children[j], g, x));
            }
            if in_subtree(w, moved, g, x) {
                assert(in_subtree(w, w[cid].children[mi], g, x));
            }
        }
        assert forall|q: Seq<u8>|
            #![trigger lookup(w, cid, h, q)]
            lookup(w, cid, h, q) == if q == dk {
                Some(dp)
            } else if key_lt(q, dk) {
                lookup(v, cid, h, q)
            } else if h == 1 {
                None
            } else {
                lookup(w, moved, (h - 1) as nat, q)
            } by {
            if q != dk {
                if key_lt(q, dk) {
                    let i = c.pack.child_idx(q);
                    if !c.pack.has(q) {
                        assert(w[cid].children[i + 0] == c.children[i]);
                        assert(lookup(w, c.children[i], g, q) == lookup(v, c.children[i], g, q));
                        assert(lookup(w, cid, h, q) == lookup(w, w[cid].children[i + 0], g, q));
                    }
                } else {
                    assert(lookup(w, cid, h, q) == lookup(w, w[cid].children[mi], g, q));
                }
            }
        }
    }
}

/// The node `c` with the key `dk` before its keys and, if it is internal,
/// the child `moved` before its children.
pub open spec fn node_graft_first(c: NodeModel, dk: Seq<u8>, dp: u64, moved: NodeId) -> NodeModel {
    NodeModel {
        leaf: c.leaf,
        pack: c.pack.insert(dk, dp),
        children: if c.leaf {
            c.children
        } else {
            c.children.insert(0, moved)
        },
    }
}

/// A node that takes its bound in as a key before its keys, and a
/// well-formed subtree as the child beyond it, is the top of a well-formed
/// subtree up to the bound of that child. A search finds the payload of the
/// new key at that key, on the side of the old keys what it found before, and
/// on the other side what it finds under the new child.
#[verifier::rlimit(60)]
#[verifier::spinoff_prover]
pub proof fn lemma_graft_first(
    v: Nodes,
    w: Nodes,
    cid: NodeId,
    h: nat,
    lo: Bound,
    hi: Bound,
    t: int,
    min: int,
    dk: Seq<u8>,
    dp: u64,
    moved: NodeId,
    nb: Bound,
)
    requires
        subtree_wf(v, cid, h, Some(dk), hi, t, min),
        v[cid].pack.len() < 2 * t - 1,
        below(hi, dk),
        above(nb, dk),
        w.contains_key(cid),
        w[cid] == node_graft_first(v[cid], dk, dp, moved),
        forall|x: NodeId|
            #![trigger w.contains_key(x)]
            #![trigger in_subtree(v, cid, h, x)]
            in_subtree(v, cid, h, x) && x != cid ==> w.contains_key(x) && w[x] == v[x],
        h > 1 ==> subtree_wf(w, moved, (h - 1) as nat, nb, Some(dk), t, t - 1),
        forall|x: NodeId|
            #![trigger in_subtree(w, moved, (h - 1) as nat, x)]
            h > 1 && in_subtree(w, moved, (h - 1) as nat, x) ==> !in_subtree(v, cid, h, x),
    ensures
        subtree_wf(w, cid, h, nb, hi, t, min),
        w[cid].pack.len() == v[cid].pack.len() + 1,
        forall|x: NodeId|
            #![trigger in_subtree(w, cid, h, x)]
            in_subtree(w, cid, h, x) <==> in_subtree(v, cid, h, x) || (h > 1 && in_subtree(
                w,
                moved,
                (h - 1) as nat,
                x,
            )),
        forall|q: Seq<u8>|
            #![trigger lookup(w, cid, h, q)]
            lookup(w, cid, h, q) == if q == dk {
                Some(dp)
            } else if key_lt(dk, q) {
                lookup(v, cid, h, q)
            } else if h == 1 {
                None
            } else {
                lookup(w, moved, (h - 1) as nat, q)
            },
        forall|q: Seq<u8>|
            #![trigger w[cid].pack.has(q)]
            key_lt(dk, q) ==> (w[cid].pack.has(q) <==> v[cid].pack.has(q)),
        forall|q: Seq<u8>|
            #![trigger w[cid].pack.child_idx(q)]
            key_lt(dk, q) ==> w[cid].pack.child_idx(q) == v[cid].pack.child_idx(q) + 1,
        forall|q: Seq<u8>|
            #![trigger w[cid].pack.child_idx(q)]
            key_lt(dk, q) && h > 1 ==> w[cid].children[w[cid].pack.child_idx(q)]
                == v[cid].children[v[cid].pack.child_idx(q)],
{
    let c = v[cid];
    let m = w[cid];
    let n = c.pack.keys.len() as int;
    let at = 0;
    if n > 0 {
        assert(above(Some(dk), c.pack.keys[0]) && below(hi, c.pack.keys[n - 1]));
    }
    lemma_insert_between(c.pack, at, dk, dp);
    assert(m.pack.keys == c.pack.keys.insert(at, dk));
    assert forall|i: int| 0 <= i < m.pack.keys.len() implies above(
        nb,
        #[trigger] m.pack.keys[i],
    ) && below(hi, m.pack.keys[i]) by {
        if i == at {
            assert(m.pack.keys[i] == dk);
        } else {
            let i0 = if i < at { i } else { i - 1 };
            assert(m.pack.keys[i] == c.pack.keys[i0]);
            assert(above(Some(dk), c.pack.keys[i0]) && below(hi, c.pack.keys[i0]));
            if nb is Some {
                lemma_key_lt_transitive(nb.unwrap(), dk, c.pack.keys[i0]);
            }
        }
    }
    assert(node_ok(m, nb, hi, t, min));
    assert(in_subtree(v, cid, h, cid));
    assert forall|q: Seq<u8>| #![trigger lookup(w, cid, h, q)] {
        &&& m.pack.has(q) <==> q == dk || c.pack.has(q)
        &&& q == dk ==> m.pack.get(q) == Some(dp)
        &&& c.pack.has(q) ==> m.pack.get(q) == c.pack.get(q) && key_lt(dk, q)
        &&& key_lt(dk, q) ==> m.pack.child_idx(q) == c.pack.child_idx(q) + 1 && 0
            <= c.pack.child_idx(q) <= n
        &&& !(key_lt(dk, q)) && q != dk ==> m.pack.child_idx(q) == 0
    } by {
        c.pack.lemma_insert_get(dk, dp, q);
        lemma_child_idx_insert(c.pack, at, dk, dp, q);
        lemma_child_idx_split(c.pack, q);
        lemma_key_lt_irreflexive(dk);
        if c.pack.has(q) {
            let i = c.pack.pos(q);
            assert(0 <= i < n && c.pack.keys[i] == q);
            assert(above(Some(dk), c.pack.keys[i]) && below(hi, c.pack.keys[i]));
        }
        if key_lt(q, dk) {
            lemma_key_lt_asymmetric(q, dk);
        }
        if key_lt(dk, q) {
            lemma_key_lt_asymmetric(dk, q);
        }
        if q != dk && !key_lt(q, dk) && !key_lt(dk, q) {
            lemma_key_lt_connected(q, dk);
        }
        let ci = c.pack.child_idx(q);
        if key_lt(q, dk) && ci > 0 {
            assert(!key_lt(q, c.pack.keys[ci - 1]));
            assert(above(Some(dk), c.pack.keys[ci - 1]));
            if q != c.pack.keys[ci - 1] {
                if !key_lt(c.pack.keys[ci - 1], q) {
                    lemma_key_lt_connected(q, c.pack.keys[ci - 1]);
                }
                lemma_key_lt_transitive(dk, c.pack.keys[ci - 1], q);
            }
        }
    }
    assert forall|q: Seq<u8>|
        #![trigger w[cid].pack.has(q)]
        #![trigger w[cid].pack.child_idx(q)]
        key_lt(dk, q) implies (w[cid].pack.has(q) <==> v[cid].pack.has(q)) && 0
            <= v[cid].pack.child_idx(q) <= v[cid].pack.len() && w[cid].pack.child_idx(q)
            == v[cid].pack.child_idx(q) + 1 && (h > 1 ==> w[cid].children[w[cid].pack.child_idx(q)]
            == v[cid].children[v[cid].pack.child_idx(q)]) by {
        assert(lookup(w, cid, h, q) == lookup(w, cid, h, q));
        lemma_key_lt_irreflexive(dk);
        lemma_child_idx_split(c.pack, q);
        if h > 1 {
            assert(c.children.len() == n + 1);
            assert(m.children == c.children.insert(0, moved));
            assert(m.children[c.pack.child_idx(q) + 1] == c.children[c.pack.child_idx(q)]);
        }
    }
    if h == 1 {
        assert(subtree_wf(w, cid, h, nb, hi, t, min));
    } else {
        let g = (h - 1) as nat;
        assert(m.children.len() == n + 2);
        assert(in_subtree(w, moved, g, moved));
        assert forall|j: int| 0 <= j < c.children.len() implies {
            &&& subtree_wf(w, #[trigger] c.children[j], g, lo_of(c.pack, j, Some(dk)), hi_of(c.pack, j, hi), t, t - 1)
            &&& forall|x: NodeId| #[trigger]
                in_subtree(w, c.children[j], g, x) == in_subtree(v, c.children[j], g, x)
            &&& forall|q: Seq<u8>| #[trigger]
                lookup(w, c.children[j], g, q) == lookup(v, c.children[j], g, q)
            &&& !in_subtree(v, c.children[j], g, cid)
        } by {
            let cj = c.children[j];
            assert(cj == v[cid].children[j]);
            assert(!in_subtree(v, cj, g, cid));
            assert forall|x: NodeId| #[trigger] in_subtree(v, cj, g, x) implies w.contains_key(x)
                && w[x] == v[x] by {
                assert(in_subtree(v, cid, h, x));
            }
            lemma_frame(v, w, cj, g, lo_of(c.pack, j, Some(dk)), hi_of(c.pack, j, hi), t, t - 1);
        }
        let mi = 0;
        assert(w[cid].children[mi] == moved);
        assert forall|j: int| #![trigger w[cid].children[j]] 0 <= j < w[cid].children.len() implies {
            &&& subtree_wf(
                w,
                w[cid].children[j],
                g,
                lo_of(w[cid].pack, j, nb),
                hi_of(w[cid].pack, j, hi),
                t,
                t - 1,
            )
            &&& !in_subtree(w, w[cid].children[j], g, cid)
        } by {
            if j == mi {
                assert(m.pack.keys[at] == dk);
                if in_subtree(w, moved, g, cid) {
                    assert(!in_subtree(v, cid, h, cid));
                }
            } else {
                let j0 = j - 1;
                assert(w[cid].children[j] == c.children[j0]);
                if j0 > 0 {
                    assert(m.pack.keys[j - 1] == c.pack.keys[j0 - 1]);
                }
                if j0 < n {
                    assert(m.pack.keys[j] == c.pack.keys[j0]);
                } else if j < m.pack.keys.len() {
                    assert(m.pack.keys[j] == dk);
                }
                if j0 == 0 && j > 0 {
                    assert(m.pack.keys[j - 1] == dk);
                }
            }
        }
        assert forall|a: int, b: int, x: NodeId|
            0 <= a < b < w[cid].children.len() && #[trigger] in_subtree(
                w,
                w[cid].children[a],
                g,
                x,
            ) implies !#[trigger] in_subtree(w, w[cid].children[b], g, x) by {
            if in_subtree(w, w[cid].children[b], g, x) {
                if a == mi || b == mi {
                    let o = if a == mi { b } else { a };
                    assert(w[cid].children[o] == c.children[o - 1]);
                    assert(in_subtree(v, v[cid].children[o - 1], g, x));
                    assert(in_subtree(v, cid, h, x));
                } else {
                    assert(w[cid].children[a] == c.children[a - 1]);
                    assert(w[cid].children[b] == c.children[b - 1]);
                    assert(in_subtree(v, v[cid].children[a - 1], g, x));
                    assert(in_subtree(v, v[cid].children[b - 1], g, x));
                }
            }
        }
        assert(subtree_wf(w, cid, h, nb, hi, t, min));
        assert forall|x: NodeId|
            #![trigger in_subtree(w, cid, h, x)]
            in_subtree(w, cid, h, x) <==> in_subtree(v, cid, h, x) || (h > 1 && in_subtree(
                w,
                moved,
                (h - 1) as nat,
                x,
            )) by {
            if in_subtree(w, cid, h, x) && x != cid {
                let j = choose|j: int|
                    #![trigger w[cid].children[j]]
                    0 <= j < w[cid].children.len() && in_subtree(w, w[cid].children[j], g, x);
                if j != mi {
                    assert(w[cid].children[j] == c.children[j - 1]);
                    assert(in_subtree(v, v[cid].children[j - 1], g, x));
                }
            }
            if in_subtree(v, cid, h, x) && x != cid {
                let j = choose|j: int|
                    #![trigger v[cid].children[j]]
                    0 <= j < v[cid].children.len() && in_subtree(v, v[cid].children[j], g, x);
                assert(w[cid].children[j + 1] == c.children[j]);
                assert(in_subtree(w, c.children[j], g, x));
            }
            if in_subtree(w, moved, g, x) {
                assert(in_subtree(w, w[cid].children[mi], g, x));
            }
        }
        assert forall|q: Seq<u8>|
            #![trigger lookup(w, cid, h, q)]
            lookup(w, cid, h, q) == if q == dk {
                Some(dp)
            } else if key_lt(dk, q) {
                lookup(v, cid, h, q)
            } else if h == 1 {
                None
            } else {
                lookup(w, moved, (h - 1) as nat, q)
            } by {
            if q != dk {
                if key_lt(dk, q) {
                    let i = c.pack.child_idx(q);
                    if !c.pack.has(q) {
                        assert(w[cid].children[i + 1] == c.children[i]);
                        assert(lookup(w, c.children[i], g, q) == lookup(v, c.children[i], g, q));
                        assert(lookup(w, cid, h, q) == lookup(w, w[cid].children[i + 1], g, q));
                    }
                } else {
                    assert(lookup(w, cid, h, q) == lookup(w, w[cid].children[mi], g, q));
                }
            }
        }
    }
}

/// The key `q` lies between the keys around the key at `i` of the pack.
pub open spec fn in_gap(p: Pack, i: int, q: Seq<u8>) -> bool {
    &&& i > 0 ==> key_lt(p.keys[i - 1], q)
    &&& i + 1 < p.keys.len() ==> key_lt(q, p.keys[i + 1])
}

/// The node `p` with the key `nk` in place of its key at `i`.
pub open spec fn node_reseat(p: NodeModel, i: int, nk: Seq<u8>, np: u64) -> NodeModel {
    NodeModel { leaf: p.leaf, pack: p.pack.remove(p.pack.keys[i]).insert(nk, np), children: p.children }
}

/// The node `p` without its key at `i` and without the child behind that key.
pub open spec fn node_unseat(p: NodeModel, i: int) -> NodeModel {
    NodeModel {
        leaf: p.leaf,
        pack: p.pack.remove(p.pack.keys[i]),
        children: if p.leaf {
            p.children
        } else {
            p.children.remove(i + 1)
        },
    }
}

/// What a search finds under a node for a key between the keys around its
/// key at `i`: the payload of that key, or what it finds under the child
/// before or behind it.
pub proof fn lemma_gap_lookup(
    v: Nodes,
    pid: NodeId,
    h: nat,
    lo: Bound,
    hi: Bound,
    t: int,
    pmin: int,
    i: int,
    q: Seq<u8>,
)
    requires
        h >= 2,
        subtree_wf(v, pid, h, lo, hi, t, pmin),
        0 <= i < v[pid].pack.len(),
        in_gap(v[pid].pack, i, q),
    ensures
        lookup(v, pid, h, q) == if q == v[pid].pack.keys[i] {
            Some(v[pid].pack.payloads[i])
        } else if key_lt(q, v[pid].pack.keys[i]) {
            lookup(v, v[pid].children[i], (h - 1) as nat, q)
        } else {
            lookup(v, v[pid].children[i + 1], (h - 1) as nat, q)
        },
        q != v[pid].pack.keys[i] ==> !v[pid].pack.has(q),
        v[pid].pack.child_idx(q) == if key_lt(q, v[pid].pack.keys[i]) {
            i
        } else {
            i + 1
        },
{
    let p = v[pid].pack;
    lemma_child_idx_split(p, q);
    lemma_has_at(p, q);
    lemma_pos_is(p, p.keys[i], i);
    lemma_key_lt_irreflexive(q);
    let r = p.child_idx(q);
    if key_lt(q, p.keys[i]) {
        lemma_key_lt_asymmetric(q, p.keys[i]);
        if r > i {
            assert(!key_lt(q, p.keys[i]));
        }
        if r < i {
            assert(key_lt(q, p.keys[r]));
            if r < i - 1 {
                assert(key_lt(p.keys[r], p.keys[i - 1]));
                lemma_key_lt_transitive(q, p.keys[r], p.keys[i - 1]);
            }
            lemma_key_lt_asymmetric(q, p.keys[i - 1]);
        }
    } else {
        if r <= i {
            assert(key_lt(q, p.keys[r]));
            if r < i {
                assert(key_lt(p.keys[r], p.keys[i]));
                lemma_key_lt_transitive(q, p.keys[r], p.keys[i]);
            }
        }
        if r > i + 1 {
            assert(!key_lt(q, p.keys[i + 1]));
        }
    }
}

/// A node whose key at `i` is exchanged for a key between the keys around
/// it, above two well-formed subtrees in place of the children around that
/// key, is the top of a well-formed subtree. A search finds the payload of
/// the new key at that key, what it finds under the one or the other new
/// child at a key between the keys around it, and what it found before at
/// every other key.
#[verifier::rlimit(80)]
#[verifier::spinoff_prover]
pub proof fn lemma_reseat(
    v: Nodes,
    w: Nodes,
    pid: NodeId,
    h: nat,
    lo: Bound,
    hi: Bound,
    t: int,
    pmin: int,
    i: int,
    nk: Seq<u8>,
    np: u64,
)
    requires
        h >= 2,
        subtree_wf(v, pid, h, lo, hi, t, pmin),
        0 <= i < v[pid].pack.len(),
        w.contains_key(pid),
        w[pid] == node_reseat(v[pid], i, nk, np),
        above(lo_of(v[pid].pack, i, lo), nk),
        below(hi_of(v[pid].pack, i + 1, hi), nk),
        subtree_wf(
            w,
            v[pid].children[i],
            (h - 1) as nat,
            lo_of(v[pid].pack, i, lo),
            Some(nk),
            t,
            t - 1,
        ),
        subtree_wf(
            w,
            v[pid].children[i + 1],
            (h - 1) as nat,
            Some(nk),
            hi_of(v[pid].pack, i + 1, hi),
            t,
            t - 1,
        ),
        forall|x: NodeId|
            #![trigger in_subtree(w, v[pid].children[i], (h - 1) as nat, x)]
            #![trigger in_subtree(w, v[pid].children[i + 1], (h - 1) as nat, x)]
            (in_subtree(w, v[pid].children[i], (h - 1) as nat, x) || in_subtree(
                w,
                v[pid].children[i + 1],
                (h - 1) as nat,
                x,
            )) ==> (in_subtree(v, v[pid].children[i], (h - 1) as nat, x) || in_subtree(
                v,
                v[pid].children[i + 1],
                (h - 1) as nat,
                x,
            )) && !(in_subtree(w, v[pid].children[i], (h - 1) as nat, x) && in_subtree(
                w,
                v[pid].children[i + 1],
                (h - 1) as nat,
                x,
            )),
        forall|x: NodeId|
            #![trigger w.contains_key(x)]
            #![trigger in_subtree(v, pid, h, x)]
            in_subtree(v, pid, h, x) && x != pid && !in_subtree(
                v,
                v[pid].children[i],
                (h - 1) as nat,
                x,
            ) && !in_subtree(v, v[pid].children[i + 1], (h - 1) as nat, x) ==> w.contains_key(x)
                && w[x] == v[x],
    ensures
        subtree_wf(w, pid, h, lo, hi, t, pmin),
        w[pid].pack.keys == v[pid].pack.keys.update(i, nk),
        w[pid].pack.len() == v[pid].pack.len(),
        forall|x: NodeId|
            #![trigger in_subtree(w, pid, h, x)]
            in_subtree(w, pid, h, x) <==> (in_subtree(v, pid, h, x) && !in_subtree(
                v,
                v[pid].children[i],
                (h - 1) as nat,
                x,
            ) && !in_subtree(v, v[pid].children[i + 1], (h - 1) as nat, x)) || in_subtree(
                w,
                v[pid].children[i],
                (h - 1) as nat,
                x,
            ) || in_subtree(w, v[pid].children[i + 1], (h - 1) as nat, x),
        forall|q: Seq<u8>|
            #![trigger lookup(w, pid, h, q)]
            lookup(w, pid, h, q) == if q == nk {
                Some(np)
            } else if in_gap(v[pid].pack, i, q) {
                if key_lt(q, nk) {
                    lookup(w, v[pid].children[i], (h - 1) as nat, q)
                } else {
                    lookup(w, v[pid].children[i + 1], (h - 1) as nat, q)
                }
            } else {
                lookup(v, pid, h, q)
            },
        forall|q: Seq<u8>|
            #![trigger w[pid].pack.child_idx(q)]
            #![trigger w[pid].pack.has(q)]
            in_gap(v[pid].pack, i, q) && q != nk ==> !w[pid].pack.has(q) && w[pid].pack.child_idx(q)
                == if key_lt(q, nk) {
                i
            } else {
                i + 1
            },
        in_gap(v[pid].pack, i, nk),
{
    let p = v[pid];
    let m = w[pid];
    let g = (h - 1) as nat;
    let a = p.children[i];
    let b = p.children[i + 1];
    let n = p.pack.keys.len() as int;
    let mid = p.pack.remove(p.pack.keys[i]);
    assert(a == v[pid].children[i] && b == v[pid].children[i + 1]);
    lemma_exchange_bounds(p.pack, i, nk, lo, hi);
    crate::pack::lemma_exchange(p.pack, i, nk, np);
    assert(m.pack.keys == p.pack.keys.update(i, nk));
    assert(in_subtree(v, pid, h, pid));
    assert forall|j: int| 0 <= j < m.pack.keys.len() implies above(lo, #[trigger] m.pack.keys[j])
        && below(hi, m.pack.keys[j]) by {
        if j != i {
            assert(m.pack.keys[j] == p.pack.keys[j]);
            assert(above(lo, p.pack.keys[j]) && below(hi, p.pack.keys[j]));
        } else {
            assert(m.pack.keys[j] == nk);
            if i > 0 {
                assert(above(lo, p.pack.keys[i - 1]));
                if lo is Some {
                    lemma_key_lt_transitive(lo.unwrap(), p.pack.keys[i - 1], nk);
                }
            }
            if i + 1 < n {
                assert(below(hi, p.pack.keys[i + 1]));
                if hi is Some {
                    lemma_key_lt_transitive(nk, p.pack.keys[i + 1], hi.unwrap());
                }
            }
        }
    }
    assert(node_ok(m, lo, hi, t, pmin));
    // The children other than the two around the key are as they were
    assert forall|j: int| 0 <= j < p.children.len() && j != i && j != i + 1 implies {
        &&& subtree_wf(w, #[trigger] p.children[j], g, lo_of(p.pack, j, lo), hi_of(p.pack, j, hi), t, t - 1)
        &&& forall|x: NodeId| #[trigger]
            in_subtree(w, p.children[j], g, x) == in_subtree(v, p.children[j], g, x)
        &&& forall|q: Seq<u8>| #[trigger]
            lookup(w, p.children[j], g, q) == lookup(v, p.children[j], g, q)
        &&& !in_subtree(v, p.children[j], g, pid)
    } by {
        let cj = p.children[j];
        assert(cj == v[pid].children[j]);
        assert(!in_subtree(v, cj, g, pid));
        assert forall|x: NodeId| #[trigger] in_subtree(v, cj, g, x) implies w.contains_key(x)
            && w[x] == v[x] by {
            assert(in_subtree(v, pid, h, x));
            if j < i {
                assert(!in_subtree(v, v[pid].children[i], g, x));
                assert(!in_subtree(v, v[pid].children[i + 1], g, x));
            } else {
                assert(!in_subtree(v, v[pid].children[j], g, x) || true);
                if in_subtree(v, v[pid].children[i], g, x) {
                    assert(!in_subtree(v, v[pid].children[j], g, x));
                }
                if in_subtree(v, v[pid].children[i + 1], g, x) {
                    assert(!in_subtree(v, v[pid].children[j], g, x));
                }
            }
        }
        lemma_frame(v, w, cj, g, lo_of(p.pack, j, lo), hi_of(p.pack, j, hi), t, t - 1);
    }
    assert(!in_subtree(v, v[pid].children[i], g, pid));
    assert(!in_subtree(v, v[pid].children[i + 1], g, pid));
    assert forall|j: int| #![trigger w[pid].children[j]] 0 <= j < w[pid].children.len() implies {
        &&& subtree_wf(
            w,
            w[pid].children[j],
            g,
            lo_of(w[pid].pack, j, lo),
            hi_of(w[pid].pack, j, hi),
            t,
            t - 1,
        )
        &&& !in_subtree(w, w[pid].children[j], g, pid)
    } by {
        assert(w[pid].children[j] == p.children[j]);
        if j > 0 && j - 1 != i {
            assert(m.pack.keys[j - 1] == p.pack.keys[j - 1]);
        }
        if j < n && j != i {
            assert(m.pack.keys[j] == p.pack.keys[j]);
        }
        assert(m.pack.keys[i] == nk);
        if j == i || j == i + 1 {
            if in_subtree(w, p.children[j], g, pid) {
                assert(in_subtree(v, a, g, pid) || in_subtree(v, b, g, pid));
            }
        }
    }
    assert forall|c: int, d: int, x: NodeId|
        0 <= c < d < w[pid].children.len() && #[trigger] in_subtree(
            w,
            w[pid].children[c],
            g,
            x,
        ) implies !#[trigger] in_subtree(w, w[pid].children[d], g, x) by {
        if in_subtree(w, w[pid].children[d], g, x) {
            assert(w[pid].children[c] == p.children[c]);
            assert(w[pid].children[d] == p.children[d]);
            let c_new = c == i || c == i + 1;
            let d_new = d == i || d == i + 1;
            if c_new && d_new {
                assert(in_subtree(w, a, g, x) && in_subtree(w, b, g, x));
            } else if c_new {
                assert(in_subtree(v, a, g, x) || in_subtree(v, b, g, x));
                assert(in_subtree(v, v[pid].children[d], g, x));
                assert(!in_subtree(v, v[pid].children[i], g, x));
                assert(!in_subtree(v, v[pid].children[i + 1], g, x));
            } else if d_new {
                assert(in_subtree(v, a, g, x) || in_subtree(v, b, g, x));
                assert(in_subtree(v, v[pid].children[c], g, x));
                assert(!in_subtree(v, v[pid].children[i], g, x));
                assert(!in_subtree(v, v[pid].children[i + 1], g, x));
            } else {
                assert(in_subtree(v, v[pid].children[c], g, x));
                assert(in_subtree(v, v[pid].children[d], g, x));
            }
        }
    }
    assert(subtree_wf(w, pid, h, lo, hi, t, pmin));
    assert forall|x: NodeId|
        #![trigger in_subtree(w, pid, h, x)]
        in_subtree(w, pid, h, x) <==> (in_subtree(v, pid, h, x) && !in_subtree(v, a, g, x)
            && !in_subtree(v, b, g, x)) || in_subtree(w, a, g, x) || in_subtree(w, b, g, x) by {
        if in_subtree(w, pid, h, x) && x != pid {
            let j = choose|j: int|
                #![trigger w[pid].children[j]]
                0 <= j < w[pid].children.len() && in_subtree(w, w[pid].children[j], g, x);
            assert(w[pid].children[j] == p.children[j]);
            if j != i && j != i + 1 {
                assert(in_subtree(v, v[pid].children[j], g, x));
                if j < i {
                    assert(!in_subtree(v, v[pid].children[i], g, x));
                    assert(!in_subtree(v, v[pid].children[i + 1], g, x));
                } else {
                    if in_subtree(v, v[pid].children[i], g, x) {
                        assert(!in_subtree(v, v[pid].children[j], g, x));
                    }
                    if in_subtree(v, v[pid].children[i + 1], g, x) {
                        assert(!in_subtree(v, v[pid].children[j], g, x));
                    }
                }
            }
        }
        if in_subtree(v, pid, h, x) && x != pid && !in_subtree(v, a, g, x) && !in_subtree(
            v,
            b,
            g,
            x,
        ) {
            let j = choose|j: int|
                #![trigger v[pid].children[j]]
                0 <= j < v[pid].children.len() && in_subtree(v, v[pid].children[j], g, x);
            assert(w[pid].children[j] == p.children[j]);
            assert(in_subtree(w, p.children[j], g, x));
        }
        if in_subtree(w, a, g, x) {
            assert(w[pid].children[i] == a);
        }
        if in_subtree(w, b, g, x) {
            assert(w[pid].children[i + 1] == b);
        }
    }
    assert forall|q: Seq<u8>|
        #![trigger w[pid].pack.child_idx(q)]
        #![trigger w[pid].pack.has(q)]
        in_gap(p.pack, i, q) && q != nk implies !w[pid].pack.has(q) && w[pid].pack.child_idx(q)
            == if key_lt(q, nk) {
            i
        } else {
            i + 1
        } by {
        lemma_reseat_pack(p.pack, i, nk, np, q);
        lemma_gap_lookup(v, pid, h, lo, hi, t, pmin, i, q);
    }
    assert forall|q: Seq<u8>|
        #![trigger lookup(w, pid, h, q)]
        lookup(w, pid, h, q) == if q == nk {
            Some(np)
        } else if in_gap(p.pack, i, q) {
            if key_lt(q, nk) {
                lookup(w, a, g, q)
            } else {
                lookup(w, b, g, q)
            }
        } else {
            lookup(v, pid, h, q)
        } by {
        lemma_reseat_pack(p.pack, i, nk, np, q);
        if q != nk {
            if in_gap(p.pack, i, q) {
                lemma_gap_lookup(v, pid, h, lo, hi, t, pmin, i, q);
                if key_lt(q, nk) {
                    assert(w[pid].children[i] == a);
                    assert(lookup(w, pid, h, q) == lookup(w, w[pid].children[i], g, q));
                } else {
                    assert(w[pid].children[i + 1] == b);
                    assert(lookup(w, pid, h, q) == lookup(w, w[pid].children[i + 1], g, q));
                }
            } else {
                let r = p.pack.child_idx(q);
                lemma_child_idx_split(p.pack, q);
                if !p.pack.has(q) {
                    assert(w[pid].children[r] == p.children[r]);
                    assert(lookup(w, p.children[r], g, q) == lookup(v, p.children[r], g, q));
                    assert(lookup(w, pid, h, q) == lookup(w, w[pid].children[r], g, q));
                    assert(lookup(v, pid, h, q) == lookup(v, v[pid].children[r], g, q));
                }
            }
        }
    }
}

/// A key between the bounds of the two children around the key at `i` lies
/// between the keys around that key.
proof fn lemma_exchange_bounds(p: Pack, i: int, nk: Seq<u8>, lo: Bound, hi: Bound)
    requires
        p.wf(),
        0 <= i < p.keys.len(),
        above(lo_of(p, i, lo), nk),
        below(hi_of(p, i + 1, hi), nk),
    ensures
        in_gap(p, i, nk),
        i > 0 ==> key_lt(p.keys[i - 1], nk),
        i + 1 < p.keys.len() ==> key_lt(nk, p.keys[i + 1]),
{
}

/// What a pack has after the exchange of its key at `i`, and where its keys
/// divide.
proof fn lemma_reseat_pack(p: Pack, i: int, nk: Seq<u8>, np: u64, q: Seq<u8>)
    requires
        p.wf(),
        0 <= i < p.keys.len(),
        in_gap(p, i, nk),
    ensures
        p.remove(p.keys[i]).insert(nk, np).get(q) == if q == nk {
            Some(np)
        } else if q == p.keys[i] {
            None
        } else {
            p.get(q)
        },
        in_gap(p, i, q) && q != nk ==> !p.remove(p.keys[i]).insert(nk, np).has(q) && p.remove(
            p.keys[i],
        ).insert(nk, np).child_idx(q) == if key_lt(q, nk) {
            i
        } else {
            i + 1
        },
        !in_gap(p, i, q) ==> q != nk && q != p.keys[i] && p.remove(p.keys[i]).insert(
            nk,
            np,
        ).child_idx(q) == p.child_idx(q) && (p.has(q) || (p.child_idx(q) != i && p.child_idx(q)
            != i + 1)),
{
    let mid = p.remove(p.keys[i]);
    let out = mid.insert(nk, np);
    let n = p.keys.len() as int;
    p.lemma_remove_get(p.keys[i], q);
    p.lemma_remove_wf(p.keys[i]);
    mid.lemma_insert_get(nk, np, q);
    lemma_child_idx_remove(p, i, q);
    if i > 0 {
        assert(mid.keys[i - 1] == p.keys[i - 1]);
    }
    if i < mid.keys.len() {
        assert(mid.keys[i] == p.keys[i + 1]);
    }
    lemma_child_idx_insert(mid, i, nk, np, q);
    lemma_child_idx_split(p, q);
    lemma_has_at(p, q);
    lemma_pos_is(p, p.keys[i], i);
    lemma_key_lt_irreflexive(q);
    let r = p.child_idx(q);
    if in_gap(p, i, q) {
        if r < i {
            assert(key_lt(q, p.keys[r]));
            if r < i - 1 {
                assert(key_lt(p.keys[r], p.keys[i - 1]));
                lemma_key_lt_transitive(q, p.keys[r], p.keys[i - 1]);
            }
            lemma_key_lt_asymmetric(q, p.keys[i - 1]);
        }
        if r > i + 1 {
            assert(!key_lt(q, p.keys[i + 1]));
        }
        if q != nk && !key_lt(q, nk) && !key_lt(nk, q) {
            lemma_key_lt_connected(q, nk);
        }
        if key_lt(q, nk) {
            lemma_key_lt_asymmetric(q, nk);
        }
        if p.has(q) && q != p.keys[i] {
            let j = p.pos(q);
            assert(0 <= j < n && p.keys[j] == q);
            if j < i {
                if j < i - 1 {
                    assert(key_lt(p.keys[j], p.keys[i - 1]));
                }
                lemma_key_lt_asymmetric(q, p.keys[i - 1]);
            } else {
                if j > i + 1 {
                    assert(key_lt(p.keys[i + 1], p.keys[j]));
                }
                lemma_key_lt_asymmetric(p.keys[i + 1], q);
            }
        }
    } else {
        if q == nk || q == p.keys[i] {
            if i > 0 {
                assert(key_lt(p.keys[i - 1], p.keys[i]));
            }
            if i + 1 < n {
                assert(key_lt(p.keys[i], p.keys[i + 1]));
            }
        }
        if i > 0 && !key_lt(p.keys[i - 1], q) {
            // q is not above the key before the gap
            if r >= i {
                assert(!key_lt(q, p.keys[i - 1]));
                lemma_key_lt_connected(q, p.keys[i - 1]);
                lemma_located_found_idx(p, i - 1);
            }
        } else {
            // q is not below the key behind the gap
            assert(!key_lt(q, p.keys[i + 1]));
            if r <= i + 1 {
                assert(key_lt(q, p.keys[r]));
                if r < i + 1 {
                    assert(key_lt(p.keys[r], p.keys[i + 1]));
                    lemma_key_lt_transitive(q, p.keys[r], p.keys[i + 1]);
                }
            }
        }
    }
}

/// The child index of a key of the pack is the index behind it.
proof fn lemma_located_found_idx(p: Pack, i: int)
    requires
        p.wf(),
        0 <= i < p.keys.len(),
    ensures
        p.child_idx(p.keys[i]) == i + 1,
{
    crate::pack::lemma_located_found(p, p.keys[i], i);
}

/// What a pack has after the removal of its key at `i`, and where its keys
/// divide.
proof fn lemma_unseat_pack(p: Pack, i: int, q: Seq<u8>)
    requires
        p.wf(),
        0 <= i < p.keys.len(),
    ensures
        p.remove(p.keys[i]).get(q) == if q == p.keys[i] {
            None
        } else {
            p.get(q)
        },
        in_gap(p, i, q) ==> !p.remove(p.keys[i]).has(q) && p.remove(p.keys[i]).child_idx(q) == i,
        !in_gap(p, i, q) ==> q != p.keys[i] && p.remove(p.keys[i]).child_idx(q) == (if p.child_idx(
            q,
        ) <= i {
            p.child_idx(q)
        } else {
            p.child_idx(q) - 1
        }) && (p.has(q) || (p.child_idx(q) != i && p.child_idx(q) != i + 1)),
{
    let n = p.keys.len() as int;
    p.lemma_remove_get(p.keys[i], q);
    lemma_child_idx_remove(p, i, q);
    lemma_child_idx_split(p, q);
    lemma_has_at(p, q);
    lemma_pos_is(p, p.keys[i], i);
    lemma_key_lt_irreflexive(q);
    let r = p.child_idx(q);
    if in_gap(p, i, q) {
        if r < i {
            assert(key_lt(q, p.keys[r]));
            if r < i - 1 {
                assert(key_lt(p.keys[r], p.keys[i - 1]));
                lemma_key_lt_transitive(q, p.keys[r], p.keys[i - 1]);
            }
            lemma_key_lt_asymmetric(q, p.keys[i - 1]);
        }
        if r > i + 1 {
            assert(!key_lt(q, p.keys[i + 1]));
        }
        if p.has(q) && q != p.keys[i] {
            let j = p.pos(q);
            assert(0 <= j < n && p.keys[j] == q);
            if j < i {
                if j < i - 1 {
                    assert(key_lt(p.keys[j], p.keys[i - 1]));
                }
                lemma_key_lt_asymmetric(q, p.keys[i - 1]);
            } else {
                if j > i + 1 {
                    assert(key_lt(p.keys[i + 1], p.keys[j]));
                }
                lemma_key_lt_asymmetric(p.keys[i + 1], q);
            }
        }
    } else {
        if q == p.keys[i] {
            if i > 0 {
                assert(key_lt(p.keys[i - 1], p.keys[i]));
            }
            if i + 1 < n {
                assert(key_lt(p.keys[i], p.keys[i + 1]));
            }
        }
        if i > 0 && !key_lt(p.keys[i - 1], q) {
            if r >= i {
                assert(!key_lt(q, p.keys[i - 1]));
                lemma_key_lt_connected(q, p.keys[i - 1]);
                lemma_located_found_idx(p, i - 1);
            }
        } else {
            assert(!key_lt(q, p.keys[i + 1]));
            if r <= i + 1 {
                assert(key_lt(q, p.keys[r]));
                if r < i + 1 {
                    assert(key_lt(p.keys[r], p.keys[i + 1]));
                    lemma_key_lt_transitive(q, p.keys[r], p.keys[i + 1]);
                }
            }
        }
    }
}

/// A node that gives up its key at `i`, above one well-formed subtree in
/// place of the two children around that key, is the top of a well-formed
/// subtree. A search finds what it finds under the new child at a key between
/// the keys that were around the key given up, and what it found before at
/// every other key.
#[verifier::rlimit(80)]
#[verifier::spinoff_prover]
pub proof fn lemma_unseat(
    v: Nodes,
    w: Nodes,
    pid: NodeId,
    h: nat,
    lo: Bound,
    hi: Bound,
    t: int,
    pmin: int,
    i: int,
)
    requires
        h >= 2,
        subtree_wf(v, pid, h, lo, hi, t, pmin),
        0 <= i < v[pid].pack.len(),
        pmin <= v[pid].pack.len() - 1,
        w.contains_key(pid),
        w[pid] == node_unseat(v[pid], i),
        subtree_wf(
            w,
            v[pid].children[i],
            (h - 1) as nat,
            lo_of(v[pid].pack, i, lo),
            hi_of(v[pid].pack, i + 1, hi),
            t,
            t - 1,
        ),
        forall|x: NodeId|
            #![trigger in_subtree(w, v[pid].children[i], (h - 1) as nat, x)]
            in_subtree(w, v[pid].children[i], (h - 1) as nat, x) ==> (in_subtree(
                v,
                v[pid].children[i],
                (h - 1) as nat,
                x,
            ) || in_subtree(v, v[pid].children[i + 1], (h - 1) as nat, x)),
        forall|x: NodeId|
            #![trigger w.contains_key(x)]
            #![trigger in_subtree(v, pid, h, x)]
            in_subtree(v, pid, h, x) && x != pid && !in_subtree(
                v,
                v[pid].children[i],
                (h - 1) as nat,
                x,
            ) && !in_subtree(v, v[pid].children[i + 1], (h - 1) as nat, x) ==> w.contains_key(x)
                && w[x] == v[x],
    ensures
        subtree_wf(w, pid, h, lo, hi, t, pmin),
        w[pid].pack.keys == v[pid].pack.keys.remove(i),
        w[pid].pack.len() == v[pid].pack.len() - 1,
        forall|x: NodeId|
            #![trigger in_subtree(w, pid, h, x)]
            in_subtree(w, pid, h, x) <==> (in_subtree(v, pid, h, x) && !in_subtree(
                v,
                v[pid].children[i],
                (h - 1) as nat,
                x,
            ) && !in_subtree(v, v[pid].children[i + 1], (h - 1) as nat, x)) || in_subtree(
                w,
                v[pid].children[i],
                (h - 1) as nat,
                x,
            ),
        forall|q: Seq<u8>|
            #![trigger lookup(w, pid, h, q)]
            lookup(w, pid, h, q) == if in_gap(v[pid].pack, i, q) {
                lookup(w, v[pid].children[i], (h - 1) as nat, q)
            } else {
                lookup(v, pid, h, q)
            },
        forall|q: Seq<u8>|
            #![trigger w[pid].pack.child_idx(q)]
            #![trigger w[pid].pack.has(q)]
            in_gap(v[pid].pack, i, q) ==> !w[pid].pack.has(q) && w[pid].pack.child_idx(q) == i,
        w[pid].children[i] == v[pid].children[i],
{
    let p = v[pid];
    let m = w[pid];
    let g = (h - 1) as nat;
    let a = p.children[i];
    let b = p.children[i + 1];
    let n = p.pack.keys.len() as int;
    assert(a == v[pid].children[i] && b == v[pid].children[i + 1]);
    lemma_child_idx_remove(p.pack, i, p.pack.keys[0]);
    assert(m.pack.keys == p.pack.keys.remove(i));
    assert(m.children == p.children.remove(i + 1));
    assert(in_subtree(v, pid, h, pid));
    assert forall|j: int| 0 <= j < m.pack.keys.len() implies above(lo, #[trigger] m.pack.keys[j])
        && below(hi, m.pack.keys[j]) by {
        let j0 = if j < i { j } else { j + 1 };
        assert(m.pack.keys[j] == p.pack.keys[j0]);
        assert(above(lo, p.pack.keys[j0]) && below(hi, p.pack.keys[j0]));
    }
    assert(node_ok(m, lo, hi, t, pmin));
    assert forall|j: int| 0 <= j < p.children.len() && j != i && j != i + 1 implies {
        &&& subtree_wf(w, #[trigger] p.children[j], g, lo_of(p.pack, j, lo), hi_of(p.pack, j, hi), t, t - 1)
        &&& forall|x: NodeId| #[trigger]
            in_subtree(w, p.children[j], g, x) == in_subtree(v, p.children[j], g, x)
        &&& forall|q: Seq<u8>| #[trigger]
            lookup(w, p.children[j], g, q) == lookup(v, p.children[j], g, q)
        &&& !in_subtree(v, p.children[j], g, pid)
    } by {
        let cj = p.children[j];
        assert(cj == v[pid].children[j]);
        assert(!in_subtree(v, cj, g, pid));
        assert forall|x: NodeId| #[trigger] in_subtree(v, cj, g, x) implies w.contains_key(x)
            && w[x] == v[x] by {
            assert(in_subtree(v, pid, h, x));
            if j < i {
                assert(!in_subtree(v, v[pid].children[i], g, x));
                assert(!in_subtree(v, v[pid].children[i + 1], g, x));
            } else {
                if in_subtree(v, v[pid].children[i], g, x) {
                    assert(!in_subtree(v, v[pid].children[j], g, x));
                }
                if in_subtree(v, v[pid].children[i + 1], g, x) {
                    assert(!in_subtree(v, v[pid].children[j], g, x));
                }
            }
        }
        lemma_frame(v, w, cj, g, lo_of(p.pack, j, lo), hi_of(p.pack, j, hi), t, t - 1);
    }
    assert(!in_subtree(v, v[pid].children[i], g, pid));
    assert(!in_subtree(v, v[pid].children[i + 1], g, pid));
    assert forall|j: int| #![trigger w[pid].children[j]] 0 <= j < w[pid].children.len() implies {
        &&& subtree_wf(
            w,
            w[pid].children[j],
            g,
            lo_of(w[pid].pack, j, lo),
            hi_of(w[pid].pack, j, hi),
            t,
            t - 1,
        )
        &&& !in_subtree(w, w[pid].children[j], g, pid)
    } by {
        let j0 = if j <= i { j } else { j + 1 };
        assert(w[pid].children[j] == p.children[j0]);
        if j > 0 {
            assert(m.pack.keys[j - 1] == p.pack.keys[if j - 1 < i { j - 1 } else { j }]);
        }
        if j < n - 1 {
            assert(m.pack.keys[j] == p.pack.keys[if j < i { j } else { j + 1 }]);
        }
        if j == i {
            if in_subtree(w, a, g, pid) {
                assert(in_subtree(v, a, g, pid) || in_subtree(v, b, g, pid));
            }
        }
    }
    assert forall|c: int, d: int, x: NodeId|
        0 <= c < d < w[pid].children.len() && #[trigger] in_subtree(
            w,
            w[pid].children[c],
            g,
            x,
        ) implies !#[trigger] in_subtree(w, w[pid].children[d], g, x) by {
        if in_subtree(w, w[pid].children[d], g, x) {
            let c0 = if c <= i { c } else { c + 1 };
            let d0 = if d <= i { d } else { d + 1 };
            assert(w[pid].children[c] == p.children[c0]);
            assert(w[pid].children[d] == p.children[d0]);
            if c == i {
                assert(in_subtree(v, a, g, x) || in_subtree(v, b, g, x));
                assert(in_subtree(v, v[pid].children[d0], g, x));
                assert(!in_subtree(v, v[pid].children[i], g, x));
                assert(!in_subtree(v, v[pid].children[i + 1], g, x));
            } else if d == i {
                assert(in_subtree(v, a, g, x) || in_subtree(v, b, g, x));
                assert(in_subtree(v, v[pid].children[c0], g, x));
                assert(!in_subtree(v, v[pid].children[i], g, x));
                assert(!in_subtree(v, v[pid].children[i + 1], g, x));
            } else {
                assert(in_subtree(v, v[pid].children[c0], g, x));
                assert(in_subtree(v, v[pid].children[d0], g, x));
            }
        }
    }
    assert(subtree_wf(w, pid, h, lo, hi, t, pmin));
    assert forall|x: NodeId|
        #![trigger in_subtree(w, pid, h, x)]
        in_subtree(w, pid, h, x) <==> (in_subtree(v, pid, h, x) && !in_subtree(v, a, g, x)
            && !in_subtree(v, b, g, x)) || in_subtree(w, a, g, x) by {
        if in_subtree(w, pid, h, x) && x != pid {
            let j = choose|j: int|
                #![trigger w[pid].children[j]]
                0 <= j < w[pid].children.len() && in_subtree(w, w[pid].children[j], g, x);
            let j0 = if j <= i { j } else { j + 1 };
            assert(w[pid].children[j] == p.children[j0]);
            if j != i {
                assert(in_subtree(v, v[pid].children[j0], g, x));
                if j0 < i {
                    assert(!in_subtree(v, v[pid].children[i], g, x));
                    assert(!in_subtree(v, v[pid].children[i + 1], g, x));
                } else {
                    if in_subtree(v, v[pid].children[i], g, x) {
                        assert(!in_subtree(v, v[pid].children[j0], g, x));
                    }
                    if in_subtree(v, v[pid].children[i + 1], g, x) {
                        assert(!in_subtree(v, v[pid].children[j0], g, x));
                    }
                }
            }
        }
        if in_subtree(v, pid, h, x) && x != pid && !in_subtree(v, a, g, x) && !in_subtree(
            v,
            b,
            g,
            x,
        ) {
            let j = choose|j: int|
                #![trigger v[pid].children[j]]
                0 <= j < v[pid].children.len() && in_subtree(v, v[pid].children[j], g, x);
            let j1 = if j < i { j } else { j - 1 };
            assert(w[pid].children[j1] == p.children[j]);
            assert(in_subtree(w, p.children[j], g, x));
        }
        if in_subtree(w, a, g, x) {
            assert(w[pid].children[i] == a);
        }
    }
    assert forall|q: Seq<u8>|
        #![trigger w[pid].pack.child_idx(q)]
        #![trigger w[pid].pack.has(q)]
        in_gap(p.pack, i, q) implies !w[pid].pack.has(q) && w[pid].pack.child_idx(q) == i by {
        lemma_unseat_pack(p.pack, i, q);
    }
    assert forall|q: Seq<u8>|
        #![trigger lookup(w, pid, h, q)]
        lookup(w, pid, h, q) == if in_gap(p.pack, i, q) {
            lookup(w, a, g, q)
        } else {
            lookup(v, pid, h, q)
        } by {
        lemma_unseat_pack(p.pack, i, q);
        if in_gap(p.pack, i, q) {
            assert(w[pid].children[i] == a);
            assert(lookup(w, pid, h, q) == lookup(w, w[pid].children[i], g, q));
        } else {
            let r = p.pack.child_idx(q);
            lemma_child_idx_split(p.pack, q);
            if !p.pack.has(q) {
                let r1 = if r <= i { r } else { r - 1 };
                assert(w[pid].children[r1] == p.children[r]);
                assert(lookup(w, p.children[r], g, q) == lookup(v, p.children[r], g, q));
                assert(lookup(w, pid, h, q) == lookup(w, w[pid].children[r1], g, q));
                assert(lookup(v, pid, h, q) == lookup(v, v[pid].children[r], g, q));
            }
        }
    }
}

} // verus!
