//! What holds of every B-tree: the shape of its nodes, the depth of its
//! leaves, the order of its keys, the number of its keys, of its nodes and of
//! their records; and what a row of insertions and deletions leaves to find.

use crate::bkeys::BKeys;
use crate::census::{children_sum, index_sum, subtree_sum, Measure};
use crate::model::{
    above, below, hi_of, in_subtree, index_get, index_height, index_view, index_wf,
    lemma_no_key_no_node, lemma_view_get, lo_of, lookup, map_get, subtree_wf, tree_wf, Bound, Nodes,
};
use crate::node::{decode_node, NodeId, NodeModel};
use crate::order::{key_lt, lemma_key_lt_irreflexive, lemma_key_lt_transitive};
use crate::pack::{
    ascending, lemma_absent_below, lemma_child_idx_props, lemma_child_idx_split,
    lemma_concat_ascending, lemma_located_absent,
};
use crate::shape::{index_shaped, shaped_sub};
use crate::state::State;
use crate::store::{only_nodes_changed, persisted, KeyProvider};
use vstd::prelude::*;
use vstd::relations::injective_on;
use vstd::seq_lib::seq_to_set_is_finite;
use vstd::set_lib::{lemma_map_size, lemma_set_disjoint_lens};

verus! {

proof fn lemma_subtree_shape(
    v: Nodes,
    id: NodeId,
    h: nat,
    lo: Bound,
    hi: Bound,
    t: int,
    min: int,
    x: NodeId,
)
    requires
        subtree_wf(v, id, h, lo, hi, t, min),
        in_subtree(v, id, h, x),
    ensures
        v[x].pack.len() <= 2 * t - 1,
        v[x].pack.len() >= if x == id {
            min
        } else {
            t - 1
        },
        !v[x].leaf ==> v[x].children.len() == v[x].pack.len() + 1,
        v[x].leaf ==> v[x].children.len() == 0,
    decreases h,
{
    if x != id {
        let i = choose|i: int|
            #![trigger v[id].children[i]]
            0 <= i < v[id].children.len() && in_subtree(v, v[id].children[i], (h - 1) as nat, x);
        lemma_subtree_shape(
            v,
            v[id].children[i],
            (h - 1) as nat,
            lo_of(v[id].pack, i, lo),
            hi_of(v[id].pack, i, hi),
            t,
            t - 1,
            x,
        );
    }
}

/// Every node of a B-tree has at most `2t - 1` keys and, but for the root,
/// which has at least one, at least `t - 1`; an internal node has one child
/// more than keys, and a leaf has no child.
pub proof fn lemma_shape(v: Nodes, st: State, x: NodeId)
    requires
        index_wf(v, st),
        v.contains_key(x),
    ensures
        v[x].pack.len() <= 2 * st.minimum_degree - 1,
        v[x].pack.len() >= if st.root == Some(x) {
            1
        } else {
            st.minimum_degree - 1
        },
        !v[x].leaf ==> v[x].children.len() == v[x].pack.len() + 1,
        v[x].leaf ==> v[x].children.len() == 0,
{
    reveal(tree_wf);
    let h = index_height(v, st);
    assert(tree_wf(v, st, h));
    let root = st.root.unwrap();
    lemma_subtree_shape(v, root, h, None, None, st.minimum_degree as int, 1, x);
}

/// The node `x` is reached from the node `id` in `d` steps, each from a
/// node to one of its children.
pub open spec fn reaches(v: Nodes, id: NodeId, d: nat, x: NodeId) -> bool
    decreases d,
{
    if d == 0 {
        x == id
    } else {
        v.contains_key(id) && exists|i: int|
            #![trigger v[id].children[i]]
            0 <= i < v[id].children.len() && reaches(v, v[id].children[i], (d - 1) as nat, x)
    }
}

proof fn lemma_subtree_balanced(
    v: Nodes,
    id: NodeId,
    h: nat,
    lo: Bound,
    hi: Bound,
    t: int,
    min: int,
    d: nat,
    x: NodeId,
)
    requires
        subtree_wf(v, id, h, lo, hi, t, min),
        reaches(v, id, d, x),
    ensures
        d < h,
        v.contains_key(x),
        v[x].leaf <==> d + 1 == h,
    decreases d,
{
    if d > 0 {
        let i = choose|i: int|
            #![trigger v[id].children[i]]
            0 <= i < v[id].children.len() && reaches(v, v[id].children[i], (d - 1) as nat, x);
        lemma_subtree_balanced(
            v,
            v[id].children[i],
            (h - 1) as nat,
            lo_of(v[id].pack, i, lo),
            hi_of(v[id].pack, i, hi),
            t,
            t - 1,
            (d - 1) as nat,
            x,
        );
    }
}

/// The leaves of a B-tree all lie at one depth: a node reached from the
/// root in `d` steps is a leaf just where `d + 1` is the height of the tree.
pub proof fn lemma_balanced(v: Nodes, st: State, d: nat, x: NodeId)
    requires
        index_wf(v, st),
        st.root is Some,
        reaches(v, st.root.unwrap(), d, x),
    ensures
        v.contains_key(x),
        v[x].leaf <==> d + 1 == index_height(v, st),
{
    reveal(tree_wf);
    let h = index_height(v, st);
    assert(tree_wf(v, st, h));
    lemma_subtree_balanced(v, st.root.unwrap(), h, None, None, st.minimum_degree as int, 1, d, x);
}

/// The keys of the subtree of height `h` under `id` in the order of a walk
/// that visits, at every node, the first child, the first key, the second
/// child, the second key, and so on.
pub open spec fn inorder(v: Nodes, id: NodeId, h: nat) -> Seq<Seq<u8>>
    decreases h, v[id].children.len() + 2,
{
    if h == 0 {
        Seq::empty()
    } else if h == 1 {
        v[id].pack.keys
    } else {
        inorder_upto(v, id, h, v[id].children.len())
    }
}

/// The keys that the walk has visited at the node `id` when it has been
/// through the first `n` children.
pub open spec fn inorder_upto(v: Nodes, id: NodeId, h: nat, n: nat) -> Seq<Seq<u8>>
    decreases h, n + 1,
{
    if h <= 1 || n == 0 || n > v[id].children.len() {
        Seq::empty()
    } else if n == 1 {
        inorder(v, v[id].children[0], (h - 1) as nat)
    } else {
        inorder_upto(v, id, h, (n - 1) as nat) + seq![v[id].pack.keys[n - 2]] + inorder(
            v,
            v[id].children[n - 1],
            (h - 1) as nat,
        )
    }
}

/// Every key of the sequence lies between the bounds.
pub open spec fn all_within(s: Seq<Seq<u8>>, lo: Bound, hi: Bound) -> bool {
    forall|i: int| 0 <= i < s.len() ==> above(lo, #[trigger] s[i]) && below(hi, s[i])
}

proof fn lemma_inorder(
    v: Nodes,
    sizes: Map<NodeId, nat>,
    id: NodeId,
    h: nat,
    lo: Bound,
    hi: Bound,
    t: int,
    min: int,
)
    requires
        subtree_wf(v, id, h, lo, hi, t, min),
    ensures
        ascending(inorder(v, id, h)),
        all_within(inorder(v, id, h), lo, hi),
        inorder(v, id, h).len() == subtree_sum(v, sizes, Measure::Keys, id, h),
    decreases h, v[id].children.len() + 2,
{
    if h > 1 {
        lemma_inorder_upto(v, sizes, id, h, lo, hi, t, min, v[id].children.len());
    }
}

proof fn lemma_inorder_upto(
    v: Nodes,
    sizes: Map<NodeId, nat>,
    id: NodeId,
    h: nat,
    lo: Bound,
    hi: Bound,
    t: int,
    min: int,
    n: nat,
)
    requires
        subtree_wf(v, id, h, lo, hi, t, min),
        h > 1,
        1 <= n <= v[id].children.len(),
    ensures
        ascending(inorder_upto(v, id, h, n)),
        all_within(inorder_upto(v, id, h, n), lo, hi_of(v[id].pack, n - 1, hi)),
        inorder_upto(v, id, h, n).len() == n - 1 + children_sum(
            v,
            sizes,
            Measure::Keys,
            v[id].children,
            (h - 1) as nat,
            n,
        ),
    decreases h, n + 1,
{
    let p = v[id].pack;
    let g = (h - 1) as nat;
    let c = v[id].children[n - 1];
    let sz = sizes;
    lemma_inorder(v, sizes, c, g, lo_of(p, n - 1, lo), hi_of(p, n - 1, hi), t, t - 1);
    let last = inorder(v, c, g);
    if n == 1 {
        assert(children_sum(v, sz, Measure::Keys, v[id].children, g, 1) == children_sum(
            v,
            sz,
            Measure::Keys,
            v[id].children,
            g,
            0,
        ) + subtree_sum(v, sz, Measure::Keys, c, g));
    } else {
        lemma_inorder_upto(v, sizes, id, h, lo, hi, t, min, (n - 1) as nat);
        let first = inorder_upto(v, id, h, (n - 1) as nat);
        let k = p.keys[n - 2];
        let mid = first + seq![k];
        assert(above(lo, k) && below(hi, k));
        // the keys visited so far are below `k`, and `k` is below the rest
        assert forall|i: int| 0 <= i < first.len() implies key_lt(#[trigger] first[i], k) by {
            assert(below(hi_of(p, n - 2, hi), first[i]));
        }
        assert(ascending(mid)) by {
            if first.len() > 0 {
                assert(key_lt(first[first.len() - 1], k));
            }
            lemma_concat_ascending(first, seq![k]);
        }
        assert(mid.last() == k);
        if last.len() > 0 {
            assert(above(lo_of(p, n - 1, lo), last[0]));
        }
        lemma_concat_ascending(mid, last);
        let out = mid + last;
        assert(out == inorder_upto(v, id, h, n));
        assert forall|i: int| 0 <= i < out.len() implies above(lo, #[trigger] out[i]) && below(
            hi_of(p, n - 1, hi),
            out[i],
        ) by {
            if i < first.len() {
                assert(out[i] == first[i]);
                assert(key_lt(first[i], k));
                if n - 1 < p.keys.len() {
                    assert(key_lt(p.keys[n - 2], p.keys[n - 1]));
                    lemma_key_lt_transitive(first[i], k, p.keys[n - 1]);
                } else if hi is Some {
                    lemma_key_lt_transitive(first[i], k, hi.unwrap());
                }
            } else if i == first.len() {
                assert(out[i] == k);
                if n - 1 < p.keys.len() {
                    assert(key_lt(p.keys[n - 2], p.keys[n - 1]));
                }
            } else {
                assert(out[i] == last[i - first.len() - 1]);
                assert(above(lo_of(p, n - 1, lo), last[i - first.len() - 1]));
                if lo is Some {
                    lemma_key_lt_transitive(lo.unwrap(), k, out[i]);
                }
            }
        }
    }
}

/// The keys of a B-tree, in the order of a walk from left to right, ascend:
/// none comes twice. Their number is the number of keys that a walk over
/// the nodes counts.
pub proof fn lemma_ordered(v: Nodes, st: State, sizes: Map<NodeId, nat>)
    requires
        index_wf(v, st),
        st.root is Some,
    ensures
        ascending(inorder(v, st.root.unwrap(), index_height(v, st))),
        inorder(v, st.root.unwrap(), index_height(v, st)).len() == subtree_sum(
            v,
            sizes,
            Measure::Keys,
            st.root.unwrap(),
            index_height(v, st),
        ),
{
    reveal(tree_wf);
    let h = index_height(v, st);
    assert(tree_wf(v, st, h));
    lemma_inorder(v, sizes, st.root.unwrap(), h, None, None, st.minimum_degree as int, 1);
}

proof fn lemma_inorder_has(
    v: Nodes,
    id: NodeId,
    h: nat,
    lo: Bound,
    hi: Bound,
    t: int,
    min: int,
    q: Seq<u8>,
)
    requires
        subtree_wf(v, id, h, lo, hi, t, min),
        above(lo, q),
        below(hi, q),
    ensures
        inorder(v, id, h).contains(q) <==> lookup(v, id, h, q) is Some,
    decreases h, v[id].children.len() + 2,
{
    if h > 1 {
        let p = v[id].pack;
        let n = v[id].children.len();
        lemma_inorder_upto_has(v, id, h, lo, hi, t, min, n, q);
        lemma_child_idx_props(p, q);
        if p.has(q) {
            let j = p.pos(q);
            assert(0 <= j < p.keys.len() && p.keys[j] == q);
        }
    }
}

proof fn lemma_inorder_upto_has(
    v: Nodes,
    id: NodeId,
    h: nat,
    lo: Bound,
    hi: Bound,
    t: int,
    min: int,
    n: nat,
    q: Seq<u8>,
)
    requires
        subtree_wf(v, id, h, lo, hi, t, min),
        h > 1,
        1 <= n <= v[id].children.len(),
        above(lo, q),
        below(hi, q),
    ensures
        inorder_upto(v, id, h, n).contains(q) <==> ((exists|j: int|
            0 <= j < n - 1 && v[id].pack.keys[j] == q) || (!v[id].pack.has(q) && v[id].pack.child_idx(
            q,
        ) < n && lookup(v, v[id].children[v[id].pack.child_idx(q)], (h - 1) as nat, q) is Some)),
    decreases h, n + 1,
{
    let p = v[id].pack;
    let g = (h - 1) as nat;
    let c = v[id].children[n - 1];
    let clo = lo_of(p, n - 1, lo);
    let chi = hi_of(p, n - 1, hi);
    let last = inorder(v, c, g);
    let sizes = Map::<NodeId, nat>::empty();
    lemma_inorder(v, sizes, c, g, clo, chi, t, t - 1);
    lemma_child_idx_split(p, q);
    lemma_key_lt_irreflexive(q);
    // the child has the key only if the key lies between the child's bounds
    let inside = above(clo, q) && below(chi, q);
    if inside {
        lemma_inorder_has(v, c, g, clo, chi, t, t - 1, q);
        assert(!p.has(q) && p.child_idx(q) == n - 1) by {
            assert forall|j: int| 0 <= j < n - 1 implies key_lt(#[trigger] p.keys[j], q) by {
                if j < n - 2 {
                    assert(key_lt(p.keys[j], p.keys[n - 2]));
                    lemma_key_lt_transitive(p.keys[j], p.keys[n - 2], q);
                }
            }
            lemma_located_absent(p, q, n - 1);
        }
    } else {
        assert(!last.contains(q)) by {
            if last.contains(q) {
                let i = last.index_of(q);
                assert(above(clo, last[i]) && below(chi, last[i]));
            }
        }
        if !p.has(q) && p.child_idx(q) == n - 1 {
            lemma_absent_below(p, q);
            if n >= 2 {
                assert(key_lt(p.keys[n - 2], q));
            }
            assert(false);
        }
    }
    if n == 1 {
        assert(inorder_upto(v, id, h, n) == last);
    } else {
        lemma_inorder_upto_has(v, id, h, lo, hi, t, min, (n - 1) as nat, q);
        let first = inorder_upto(v, id, h, (n - 1) as nat);
        let k = p.keys[n - 2];
        let out = first + seq![k] + last;
        assert(out == inorder_upto(v, id, h, n));
        assert(out.contains(q) <==> first.contains(q) || k == q || last.contains(q)) by {
            if out.contains(q) {
                let i = out.index_of(q);
                if i < first.len() {
                    assert(first[i] == q);
                } else if i > first.len() {
                    assert(last[i - first.len() - 1] == q);
                }
            }
            if first.contains(q) {
                let i = first.index_of(q);
                assert(out[i] == q);
            }
            if k == q {
                assert(out[first.len() as int] == q);
            }
            if last.contains(q) {
                let i = last.index_of(q);
                assert(out[first.len() + 1 + i] == q);
            }
        }
        if k == q {
            assert(p.keys[n - 2] == q);
        }
    }
}

/// A B-tree holds as many keys as a walk over its nodes counts.
pub proof fn lemma_key_count(v: Nodes, st: State, sizes: Map<NodeId, nat>)
    requires
        index_wf(v, st),
    ensures
        index_view(v, st).dom().finite(),
        index_view(v, st).dom().len() == index_sum(v, sizes, Measure::Keys, st),
{
    reveal(tree_wf);
    let h = index_height(v, st);
    assert(tree_wf(v, st, h));
    if st.root is Some {
        let root = st.root.unwrap();
        let keys = inorder(v, root, h);
        lemma_inorder(v, sizes, root, h, None, None, st.minimum_degree as int, 1);
        assert forall|q: Seq<u8>| keys.to_set().contains(q) == index_view(v, st).dom().contains(
            q,
        ) by {
            lemma_inorder_has(v, root, h, None, None, st.minimum_degree as int, 1, q);
        }
        assert(keys.to_set() =~= index_view(v, st).dom());
        assert(keys.no_duplicates()) by {
            assert forall|i: int, j: int|
                0 <= i < keys.len() && 0 <= j < keys.len() && i != j implies keys[i] != keys[j] by {
                lemma_key_lt_irreflexive(keys[i]);
                if i < j {
                    assert(key_lt(keys[i], keys[j]));
                } else {
                    assert(key_lt(keys[j], keys[i]));
                }
            }
        }
        keys.unique_seq_to_set();
        seq_to_set_is_finite(keys);
    } else {
        assert(index_view(v, st).dom() =~= Set::<Seq<u8>>::empty());
    }
}

/// The nodes of the subtree of height `h` under `id`.
pub open spec fn subtree_set(v: Nodes, id: NodeId, h: nat) -> Set<NodeId> {
    Set::new(|x: NodeId| in_subtree(v, id, h, x))
}

/// The node `id` and the nodes under its first `n` children.
pub open spec fn partial_set(v: Nodes, id: NodeId, h: nat, n: nat) -> Set<NodeId> {
    Set::new(
        |x: NodeId|
            x == id || exists|i: int|
                #![trigger v[id].children[i]]
                0 <= i < n && i < v[id].children.len() && in_subtree(
                    v,
                    v[id].children[i],
                    (h - 1) as nat,
                    x,
                ),
    )
}

proof fn lemma_subtree_count(
    v: Nodes,
    sizes: Map<NodeId, nat>,
    id: NodeId,
    h: nat,
    lo: Bound,
    hi: Bound,
    t: int,
    min: int,
)
    requires
        subtree_wf(v, id, h, lo, hi, t, min),
    ensures
        subtree_set(v, id, h).finite(),
        subtree_set(v, id, h).len() == subtree_sum(v, sizes, Measure::Nodes, id, h),
    decreases h, v[id].children.len() + 2,
{
    let sz = sizes;
    if h == 1 {
        assert(subtree_set(v, id, h) =~= Set::<NodeId>::empty().insert(id));
        assert(children_sum(v, sz, Measure::Nodes, v[id].children, 0, 0) == 0);
    } else {
        lemma_partial_count(v, sizes, id, h, lo, hi, t, min, v[id].children.len());
        assert(subtree_set(v, id, h) =~= partial_set(v, id, h, v[id].children.len()));
    }
}

proof fn lemma_partial_count(
    v: Nodes,
    sizes: Map<NodeId, nat>,
    id: NodeId,
    h: nat,
    lo: Bound,
    hi: Bound,
    t: int,
    min: int,
    n: nat,
)
    requires
        subtree_wf(v, id, h, lo, hi, t, min),
        h > 1,
        n <= v[id].children.len(),
    ensures
        partial_set(v, id, h, n).finite(),
        partial_set(v, id, h, n).len() == 1 + children_sum(
            v,
            sizes,
            Measure::Nodes,
            v[id].children,
            (h - 1) as nat,
            n,
        ),
    decreases h, n + 1,
{
    let g = (h - 1) as nat;
    if n == 0 {
        assert(partial_set(v, id, h, 0) =~= Set::<NodeId>::empty().insert(id));
    } else {
        let c = v[id].children[n - 1];
        lemma_partial_count(v, sizes, id, h, lo, hi, t, min, (n - 1) as nat);
        lemma_subtree_count(v, sizes, c, g, lo_of(v[id].pack, n - 1, lo), hi_of(v[id].pack, n - 1, hi), t, t - 1);
        let a = partial_set(v, id, h, (n - 1) as nat);
        let b = subtree_set(v, c, g);
        assert(a.disjoint(b)) by {
            assert forall|x: NodeId| !(a.contains(x) && b.contains(x)) by {
                if a.contains(x) && b.contains(x) {
                    if x == id {
                        assert(!in_subtree(v, v[id].children[n - 1], g, id));
                    } else {
                        let i = choose|i: int|
                            #![trigger v[id].children[i]]
                            0 <= i < n - 1 && i < v[id].children.len() && in_subtree(
                                v,
                                v[id].children[i],
                                g,
                                x,
                            );
                        assert(!in_subtree(v, v[id].children[n - 1], g, x));
                    }
                }
            }
        }
        lemma_set_disjoint_lens(a, b);
        assert(partial_set(v, id, h, n) =~= a + b) by {
            assert forall|x: NodeId| partial_set(v, id, h, n).contains(x) == (a + b).contains(x) by {
                if b.contains(x) {
                    assert(in_subtree(v, v[id].children[n - 1], g, x));
                }
                if partial_set(v, id, h, n).contains(x) && x != id {
                    let i = choose|i: int|
                        #![trigger v[id].children[i]]
                        0 <= i < n && i < v[id].children.len() && in_subtree(
                            v,
                            v[id].children[i],
                            g,
                            x,
                        );
                    if i < n - 1 {
                        assert(a.contains(x));
                    }
                }
                if a.contains(x) && x != id {
                    let i = choose|i: int|
                        #![trigger v[id].children[i]]
                        0 <= i < n - 1 && i < v[id].children.len() && in_subtree(
                            v,
                            v[id].children[i],
                            g,
                            x,
                        );
                    assert(0 <= i < n);
                }
            }
        }
    }
}

/// The nodes of a B-tree are as many as a walk over them counts.
pub proof fn lemma_node_count(v: Nodes, st: State, sizes: Map<NodeId, nat>)
    requires
        index_wf(v, st),
    ensures
        v.dom().finite(),
        v.dom().len() == index_sum(v, sizes, Measure::Nodes, st),
{
    reveal(tree_wf);
    let h = index_height(v, st);
    assert(tree_wf(v, st, h));
    match st.root {
        Some(root) => {
            lemma_subtree_count(v, sizes, root, h, None, None, st.minimum_degree as int, 1);
            assert(v.dom() =~= subtree_set(v, root, h));
        },
        None => {
            assert(v.dom() =~= Set::<NodeId>::empty());
        },
    }
}

/// A change of a mapping from keys to payloads: the key gets a payload, or
/// the key goes.
pub enum Change {
    Put(Seq<u8>, u64),
    Drop(Seq<u8>),
}

/// The mapping that the changes make of the empty mapping, the first of
/// them first.
pub open spec fn replay(changes: Seq<Change>) -> Map<Seq<u8>, u64>
    decreases changes.len(),
{
    if changes.len() == 0 {
        Map::empty()
    } else {
        match changes.last() {
            Change::Put(k, p) => replay(changes.drop_last()).insert(k, p),
            Change::Drop(k) => replay(changes.drop_last()).remove(k),
        }
    }
}

/// What the last of the changes that name `k` leaves at the key: the
/// payload that it put, or nothing where it dropped the key or none of them
/// names the key.
pub open spec fn last_put(changes: Seq<Change>, k: Seq<u8>) -> Option<u64>
    decreases changes.len(),
{
    if changes.len() == 0 {
        None
    } else {
        match changes.last() {
            Change::Put(k2, p) if k2 == k => Some(p),
            Change::Drop(k2) if k2 == k => None,
            _ => last_put(changes.drop_last(), k),
        }
    }
}

proof fn lemma_replay(changes: Seq<Change>, k: Seq<u8>)
    ensures
        map_get(replay(changes), k) == last_put(changes, k),
    decreases changes.len(),
{
    if changes.len() > 0 {
        lemma_replay(changes.drop_last(), k);
    }
}

/// A tree that holds what a row of insertions and deletions makes of the
/// empty tree answers a search for a key with the payload of the last
/// insertion of the key, where no deletion of the key came after it, and
/// with nothing where the key was deleted last or never inserted.
pub proof fn lemma_searchable(v: Nodes, st: State, changes: Seq<Change>, k: Seq<u8>)
    requires
        index_view(v, st) == replay(changes),
    ensures
        index_get(v, st, k) == last_put(changes, k),
{
    lemma_replay(changes, k);
    lemma_view_get(v, st, k);
}

/// A B-tree that holds what a row of insertions and deletions makes of the
/// empty tree, where the last change of every key is a deletion, has no
/// root and no node, and a walk over it counts nothing.
pub proof fn lemma_emptied(v: Nodes, st: State, sizes: Map<NodeId, nat>, changes: Seq<Change>, m: Measure)
    requires
        index_wf(v, st),
        index_view(v, st) == replay(changes),
        forall|k: Seq<u8>| last_put(changes, k) is None,
    ensures
        st.root is None,
        v == Map::<NodeId, NodeModel>::empty(),
        index_height(v, st) == 0,
        index_sum(v, sizes, m, st) == 0,
{
    assert forall|k: Seq<u8>| !index_view(v, st).contains_key(k) by {
        lemma_replay(changes, k);
        assert(last_put(changes, k) is None);
    }
    assert(index_view(v, st) =~= Map::<Seq<u8>, u64>::empty());
    lemma_no_key_no_node(v, st);
    assert(v =~= Map::<NodeId, NodeModel>::empty());
    reveal(tree_wf);
    assert(tree_wf(v, st, index_height(v, st)));
}

/// A second insertion of a key changes the payload of the key and nothing
/// else: the tree has as many keys as before, and as many nodes where its
/// nodes are the same.
pub proof fn lemma_overwrite(
    v: Nodes,
    st: State,
    sizes: Map<NodeId, nat>,
    v2: Nodes,
    st2: State,
    sizes2: Map<NodeId, nat>,
    k: Seq<u8>,
    p: u64,
)
    requires
        index_wf(v, st),
        index_wf(v2, st2),
        index_view(v, st).contains_key(k),
        index_view(v2, st2) == index_view(v, st).insert(k, p),
    ensures
        index_get(v2, st2, k) == Some(p),
        forall|q: Seq<u8>| q != k ==> index_get(v2, st2, q) == index_get(v, st, q),
        index_sum(v2, sizes2, Measure::Keys, st2) == index_sum(v, sizes, Measure::Keys, st),
        v2.dom() == v.dom() ==> index_sum(v2, sizes2, Measure::Nodes, st2) == index_sum(
            v,
            sizes,
            Measure::Nodes,
            st,
        ),
{
    lemma_view_get(v2, st2, k);
    assert forall|q: Seq<u8>| q != k implies index_get(v2, st2, q) == index_get(v, st, q) by {
        lemma_view_get(v2, st2, q);
        lemma_view_get(v, st, q);
    }
    lemma_key_count(v, st, sizes);
    lemma_key_count(v2, st2, sizes2);
    assert(index_view(v, st).insert(k, p).dom() =~= index_view(v, st).dom());
    lemma_node_count(v, st, sizes);
    lemma_node_count(v2, st2, sizes2);
}

/// The keys of the records of `tx` that stand under a key of the provider
/// and hold a node.
pub open spec fn node_records<BK: BKeys>(keys: KeyProvider, tx: Map<Seq<u8>, Seq<u8>>) -> Set<
    Seq<u8>,
> {
    Set::new(
        |key: Seq<u8>|
            tx.contains_key(key) && decode_node::<BK>(tx[key]) is Some && exists|id: NodeId|
                keys.key(id) == key,
    )
}

/// Where the records hold a B-tree, the records of nodes are as many as a
/// walk over the tree counts nodes.
pub proof fn lemma_record_count<BK: BKeys>(
    keys: KeyProvider,
    tx: Map<Seq<u8>, Seq<u8>>,
    st: State,
    sizes: Map<NodeId, nat>,
)
    requires
        index_wf(persisted::<BK>(keys, tx), st),
    ensures
        node_records::<BK>(keys, tx).finite(),
        node_records::<BK>(keys, tx).len() == index_sum(
            persisted::<BK>(keys, tx),
            sizes,
            Measure::Nodes,
            st,
        ),
{
    let v = persisted::<BK>(keys, tx);
    let f = |id: NodeId| keys.key(id);
    lemma_node_count(v, st, sizes);
    assert(injective_on(f, v.dom())) by {
        assert forall|a: NodeId, b: NodeId|
            v.dom().contains(a) && v.dom().contains(b) && #[trigger] f(a) == #[trigger] f(
                b,
            ) implies a == b by {
            keys.lemma_injective(a, b);
        }
    }
    assert(v.dom().map(f) =~= node_records::<BK>(keys, tx)) by {
        assert forall|key: Seq<u8>| node_records::<BK>(keys, tx).contains(key) implies v.dom().map(
            f,
        ).contains(key) by {
            let id = choose|id: NodeId| keys.key(id) == key;
            assert(v.dom().contains(id) && f(id) == key);
        }
    }
    lemma_map_size(v.dom(), node_records::<BK>(keys, tx), f);
}

/// Every record under the key of a node holds a node.
pub open spec fn tidy<BK: BKeys>(keys: KeyProvider, tx: Map<Seq<u8>, Seq<u8>>) -> bool {
    forall|id: NodeId|
        tx.contains_key(#[trigger] keys.key(id)) ==> decode_node::<BK>(tx[keys.key(id)]) is Some
}

/// The keys of the records of `tx` that are keys of the provider.
pub open spec fn range_records(keys: KeyProvider, tx: Map<Seq<u8>, Seq<u8>>) -> Set<Seq<u8>> {
    Set::new(|key: Seq<u8>| tx.contains_key(key) && exists|id: NodeId| keys.key(id) == key)
}

/// Where every record under the key of a node holds a node, that is so
/// after changes of records of nodes.
pub proof fn lemma_tidy_kept<BK: BKeys>(
    keys: KeyProvider,
    a: Map<Seq<u8>, Seq<u8>>,
    b: Map<Seq<u8>, Seq<u8>>,
)
    requires
        tidy::<BK>(keys, a),
        only_nodes_changed::<BK>(keys, a, b),
    ensures
        tidy::<BK>(keys, b),
{
    assert forall|id: NodeId| b.contains_key(#[trigger] keys.key(id)) implies decode_node::<BK>(
        b[keys.key(id)],
    ) is Some by {
        let key = keys.key(id);
        if a.contains_key(key) == b.contains_key(key) && (a.contains_key(key) ==> a[key] == b[key]) {
            assert(a.contains_key(keys.key(id)));
        }
    }
}

/// Where the records hold a B-tree, and every record under the key of a
/// node holds a node, the records under the keys of the provider are as many
/// as a walk over the tree counts nodes.
pub proof fn lemma_range_count<BK: BKeys>(
    keys: KeyProvider,
    tx: Map<Seq<u8>, Seq<u8>>,
    st: State,
    sizes: Map<NodeId, nat>,
)
    requires
        index_wf(persisted::<BK>(keys, tx), st),
        tidy::<BK>(keys, tx),
    ensures
        range_records(keys, tx).finite(),
        range_records(keys, tx).len() == index_sum(
            persisted::<BK>(keys, tx),
            sizes,
            Measure::Nodes,
            st,
        ),
{
    lemma_record_count::<BK>(keys, tx, st, sizes);
    assert forall|key: Seq<u8>| range_records(keys, tx).contains(key) implies node_records::<BK>(
        keys,
        tx,
    ).contains(key) by {
        let id = choose|id: NodeId| keys.key(id) == key;
        assert(tx.contains_key(keys.key(id)));
    }
    assert(range_records(keys, tx) =~= node_records::<BK>(keys, tx));
}

proof fn lemma_shaped_sub_node(v: Nodes, id: NodeId, h: nat, t: int, min: int, x: NodeId)
    requires
        shaped_sub(v, id, h, t, min),
        in_subtree(v, id, h, x),
    ensures
        v.contains_key(x),
        v[x].pack.wf(),
        v[x].pack.len() <= 2 * t - 1,
        x == id ==> v[x].pack.len() >= min,
        x != id ==> v[x].pack.len() >= t - 1,
        v[x].leaf ==> v[x].children.len() == 0,
        !v[x].leaf ==> v[x].children.len() == v[x].pack.len() + 1,
    decreases h,
{
    if x != id {
        let i = choose|i: int|
            #![trigger v[id].children[i]]
            0 <= i < v[id].children.len() && in_subtree(v, v[id].children[i], (h - 1) as nat, x);
        lemma_shaped_sub_node(v, v[id].children[i], (h - 1) as nat, t, t - 1, x);
    }
}

/// Every node of a tree that has the shape of a B-tree has at most
/// `2t - 1` keys and, but for the root, which has at least one, at least
/// `t - 1`; an internal node has one child more than keys, and a leaf has no
/// child.
pub proof fn lemma_shaped_node(v: Nodes, st: State, h: nat, x: NodeId)
    requires
        index_shaped(v, st, h),
        v.contains_key(x),
    ensures
        v[x].pack.wf(),
        v[x].pack.len() <= 2 * st.minimum_degree - 1,
        st.root == Some(x) ==> v[x].pack.len() >= 1,
        st.root != Some(x) ==> v[x].pack.len() >= st.minimum_degree - 1,
        v[x].leaf ==> v[x].children.len() == 0,
        !v[x].leaf ==> v[x].children.len() == v[x].pack.len() + 1,
{
    lemma_shaped_sub_node(v, st.root.unwrap(), h, st.minimum_degree as int, 1, x);
}

proof fn lemma_shaped_sub_level(v: Nodes, id: NodeId, h: nat, t: int, min: int, d: nat, x: NodeId)
    requires
        shaped_sub(v, id, h, t, min),
        reaches(v, id, d, x),
    ensures
        d < h,
        v.contains_key(x),
        v[x].leaf <==> d + 1 == h,
    decreases d,
{
    if d > 0 {
        let i = choose|i: int|
            #![trigger v[id].children[i]]
            0 <= i < v[id].children.len() && reaches(v, v[id].children[i], (d - 1) as nat, x);
        lemma_shaped_sub_level(v, v[id].children[i], (h - 1) as nat, t, t - 1, (d - 1) as nat, x);
    }
}

/// The leaves of a tree that has the shape of a B-tree all lie at one
/// depth: a node reached from the root in `d` steps is a leaf just where
/// `d + 1` is the height of the tree.
pub proof fn lemma_shaped_level(v: Nodes, st: State, h: nat, d: nat, x: NodeId)
    requires
        index_shaped(v, st, h),
        st.root is Some,
        reaches(v, st.root.unwrap(), d, x),
    ensures
        d < h,
        v.contains_key(x),
        v[x].leaf <==> d + 1 == h,
{
    lemma_shaped_sub_level(v, st.root.unwrap(), h, st.minimum_degree as int, 1, d, x);
}

} // verus!
