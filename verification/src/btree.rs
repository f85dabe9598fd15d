//! The tree: search, insertion, deletion and statistics over the node store.

use crate::bkeys::BKeys;
use crate::census::{
    apart, children_sum, index_sum, lemma_nodes_at_least, lemma_queue_sum_push, lemma_tree_apart,
    lemma_tree_shaped,
    queue_sum, shaped, subtree_sum, tree_sum, weight, Measure,
};
use crate::cursor::{
    cursor_ok, first_leaf, full_on_path, index_roomy, lemma_cursor_down, lemma_cursor_facts,
    lemma_cursor_put, lemma_cursor_start, lemma_first_leaf, lemma_split_next, lemma_tree_facts,
    lemma_tree_grow,
};
use crate::descent::{
    after_step, after_swap, del_ok, del_walk, deleted, deleted_height, deleted_root, hit_key,
    hit_merges, hit_next, hit_nodes, hit_ready, index_clear, lemma_child_facts, lemma_cursor_gap,
    lemma_cursor_hit, lemma_cursor_miss, lemma_del_down, lemma_del_join, lemma_del_join_root,
    lemma_del_leaf, lemma_del_rotate_left, lemma_del_rotate_right, lemma_del_swap_left,
    lemma_del_swap_right, lemma_lost_leaf, lemma_lost_step, lemma_parent_facts, lemma_root_place,
    lost_ok, node_del, pending, same_lookups, settled, step_changes, step_next, step_nodes, Place,
};
use crate::err::Error;
use crate::kv::Transaction;
use crate::laws::reaches;
use crate::model::{
    hi_of, in_subtree, index_get, index_height, index_view, index_wf, lemma_tree_height,
    lemma_view_insert, lemma_view_remove, lo_of, lookup, map_get, subtree_wf, tree_wf, Bound,
};
use crate::node::{Node, NodeId, NodeModel, Payload};
use crate::order::{compare_keys, copy_bytes, KeyOrder};
use crate::pack::{lemma_child_idx_props, lemma_pack_has_len, lemma_pos_is};
use crate::rebalance::{node_graft_first, node_graft_last, node_merge, node_reseat, node_unseat};
use crate::removal::{
    join_nodes, join_root_nodes, node_take_first, node_take_last, rotate_left_nodes,
    rotate_right_nodes,
};
use crate::shape::{index_shaped, lemma_skeleton_self, lemma_wf_shaped};
use crate::state::State;
use crate::steps::{node_put, put_down, split_left, split_nodes, split_parent, split_right};
use crate::store::{
    only_nodes_changed, persisted, stored_sizes, BTreeNodeStore, BTreeStoreType, KeyProvider,
    StoredNode,
};
use std::collections::VecDeque;
use std::marker::PhantomData;
use vstd::prelude::*;

verus! {

/// The list names nodes level by level: each entry holds the depth at which
/// its node is reached from the root, counted from one, and no entry comes
/// before one of a smaller depth.
pub open spec fn listed_by_level<BK: BKeys>(
    v: crate::model::Nodes,
    st: State,
    list: Seq<(usize, NodeId, StoredNode<BK>)>,
) -> bool {
    &&& list.len() > 0 ==> st.root is Some
    &&& forall|i: int|
        0 <= i < list.len() ==> (#[trigger] list[i]).0 >= 1 && reaches(
            v,
            st.root.unwrap(),
            (list[i].0 - 1) as nat,
            list[i].1,
        )
    &&& forall|i: int, j: int|
        0 <= i < j < list.len() ==> (#[trigger] list[i]).0 <= (#[trigger] list[j]).0
}

/// A child of a node that is reached in `d` steps is reached in one step
/// more.
pub proof fn lemma_reaches_step(v: crate::model::Nodes, id: NodeId, d: nat, x: NodeId, i: int)
    requires
        reaches(v, id, d, x),
        v.contains_key(x),
        0 <= i < v[x].children.len(),
    ensures
        reaches(v, id, d + 1, v[x].children[i]),
    decreases d,
{
    if d == 0 {
        assert(reaches(v, v[id].children[i], 0, v[x].children[i]));
    } else {
        let j = choose|j: int|
            #![trigger v[id].children[j]]
            0 <= j < v[id].children.len() && reaches(v, v[id].children[j], (d - 1) as nat, x);
        lemma_reaches_step(v, v[id].children[j], (d - 1) as nat, x, i);
    }
}

/// The root of the tree with the state `st` is full.
pub open spec fn root_full(v: crate::model::Nodes, st: State) -> bool {
    st.root matches Some(root) && v[root].pack.len() == 2 * st.minimum_degree - 1
}

/// How an insertion of `k` with `p` changes the state and the height of a
/// tree, and which nodes there are afterwards. An empty tree gets a leaf
/// with the key as its root, under the next identifier. A full root gets a
/// new root above it, under the next identifier, and the tree grows by one
/// level; else the root and the height stay. The nodes that were there are
/// there, and every new node has one of the identifiers from the next one
/// on, of which no more are used than the tree has levels, and two.
pub open spec fn grown(
    v: crate::model::Nodes,
    st: State,
    v2: crate::model::Nodes,
    st2: State,
    k: Seq<u8>,
    p: u64,
) -> bool {
    &&& st2.minimum_degree == st.minimum_degree
    &&& st.next_node_id <= st2.next_node_id <= st.next_node_id + index_height(v, st) + 2
    &&& forall|x: NodeId|
        #![trigger v2.contains_key(x)]
        v2.contains_key(x) <==> v.contains_key(x) || st.next_node_id <= x < st2.next_node_id
    &&& match st.root {
        None => {
            &&& st2.root == Some(st.next_node_id)
            &&& st2.next_node_id == st.next_node_id + 1
            &&& v2 == v.insert(st.next_node_id, first_leaf(k, p))
            &&& index_height(v2, st2) == 1
        },
        Some(root) => if root_full(v, st) {
            &&& st2.root == Some(st.next_node_id)
            &&& st2.next_node_id >= st.next_node_id + 2
            &&& index_height(v2, st2) == index_height(v, st) + 1
        } else {
            &&& st2.root == Some(root)
            &&& index_height(v2, st2) == index_height(v, st)
        },
    }
}

/// The nodes of the tree with the state `st` after an insertion of `k` with
/// `p`: the first leaf of an empty tree; else what the walk from the root
/// down leaves, after a full root has got a new root above it and has been
/// split.
pub open spec fn inserted(v: crate::model::Nodes, st: State, k: Seq<u8>, p: u64) -> crate::model::Nodes {
    let t = st.minimum_degree as int;
    let n = st.next_node_id;
    let h = index_height(v, st);
    match st.root {
        None => v.insert(n, first_leaf(k, p)),
        Some(root) => if root_full(v, st) {
            put_down(
                split_nodes(v, crate::cursor::new_root(root), n, 0, (n + 1) as NodeId),
                n,
                h + 1,
                n + 2,
                k,
                p,
                t,
            )
        } else {
            put_down(v, root, h, n as int, k, p, t)
        },
    }
}

/// An insertion is sure of the identifiers it needs while the next one to
/// be given out is not above this.
pub const MAX_NODE_ID: u64 = 0x7fff_ffff_ffff_fff0;

/// The B-tree over the nodes of a store.
pub struct BTree<BK: BKeys> {
    state: State,
    full_size: u64,
    updated: bool,
    bk: PhantomData<BK>,
}

/// What a walk over the whole tree has counted.
#[derive(Clone, Copy, Debug, PartialEq, Eq, Structural)]
pub struct Statistics {
    pub keys_count: u64,
    pub max_depth: u32,
    pub nodes_count: u32,
    pub total_size: u64,
}

impl Default for Statistics {
    fn default() -> (r: Self)
        ensures
            r == (Statistics { keys_count: 0, max_depth: 0, nodes_count: 0, total_size: 0 }),
    {
        Statistics { keys_count: 0, max_depth: 0, nodes_count: 0, total_size: 0 }
    }
}

/// The two halves that a split has made, and the key between them.
pub struct SplitResult {
    pub left_node_id: NodeId,
    pub right_node_id: NodeId,
    pub median_key: Vec<u8>,
}

/// The next step of a deletion: whether the parent has changed, whether the
/// key still is the one the caller asked for, the key, and the node to go on
/// with.
pub struct NextStep {
    pub node_update: bool,
    pub is_main_key: bool,
    pub key_to_delete: Vec<u8>,
    pub next_node: NodeId,
}

impl<BK: BKeys> BTree<BK> {
    /// The state of the tree.
    pub closed spec fn state(&self) -> State {
        self.state
    }

    /// Whether an operation has changed the tree.
    pub closed spec fn updated(&self) -> bool {
        self.updated
    }

    /// The minimum degree is at least two, and a node is full with
    /// `2 * minimum_degree - 1` keys.
    pub closed spec fn wf(&self) -> bool {
        &&& self.state.wf()
        &&& self.full_size == 2 * self.state.minimum_degree - 1
    }

    /// The store is a `Write` store that agrees with the records `tx`, has
    /// every node back, and presents a B-tree with the state of `self`.
    pub open spec fn ready(&self, store: BTreeNodeStore<BK>, tx: Map<Seq<u8>, Seq<u8>>) -> bool {
        &&& store.consistent(tx)
        &&& store.mode() is Write
        &&& store.checked_out() == Set::<NodeId>::empty()
        &&& index_wf(store.nodes(tx), self.state())
    }

    /// The tree that `state` describes.
    pub fn new(state: State) -> (r: Self)
        requires
            state.wf(),
        ensures
            r.wf(),
            r.state() == state,
            !r.updated(),
    {
        Self {
            full_size: 2 * (state.minimum_degree as u64) - 1,
            state,
            updated: false,
            bk: PhantomData,
        }
    }

    /// The state, for the caller to keep.
    pub fn get_state(&self) -> (r: &State)
        ensures
            *r == self.state(),
    {
        &self.state
    }

    /// Whether an operation has changed the tree since it was made.
    pub fn is_updated(&self) -> (r: bool)
        ensures
            r == self.updated(),
    {
        self.updated
    }

    /// The payload of `searched_key`, if the tree has the key. The store
    /// presents the same nodes afterwards, and has every node back. Where the
    /// store presents a B-tree and has every node back before, only the
    /// transaction can make the search fail.
    pub fn search<T: Transaction>(
        &self,
        tx: &mut T,
        store: &mut BTreeNodeStore<BK>,
        searched_key: &Vec<u8>,
    ) -> (r: Result<Option<Payload>, Error>)
        requires
            self.wf(),
            old(store).wf(),
            old(tx).wf(),
        ensures
            final(store).wf(),
            final(tx).wf(),
            final(tx).reliable() == old(tx).reliable(),
            r is Ok ==> only_nodes_changed::<BK>(old(store).provider(), old(tx)@, final(tx)@),
            final(store).mode() == old(store).mode(),
            final(store).provider() == old(store).provider(),
            self.state().root is None ==> r == Ok::<Option<Payload>, Error>(None) && *final(store)
                == *old(store) && final(tx)@ == old(tx)@,
            old(store).consistent(old(tx)@) && index_wf(old(store).nodes(old(tx)@), self.state())
                ==> {
                &&& r matches Ok(found) ==> found == index_get(
                    old(store).nodes(old(tx)@),
                    self.state(),
                    searched_key@,
                )
                &&& r matches Ok(found) ==> found == map_get(
                    index_view(old(store).nodes(old(tx)@), self.state()),
                    searched_key@,
                )
                &&& r is Ok ==> final(store).consistent(final(tx)@)
                &&& r is Ok ==> final(store).nodes(final(tx)@) == old(store).nodes(old(tx)@)
                &&& r is Ok ==> final(store).checked_out() == old(store).checked_out()
                &&& old(tx).reliable() && old(store).checked_out() == Set::<NodeId>::empty()
                    ==> r is Ok
                &&& old(store).checked_out() == Set::<NodeId>::empty() ==> (r matches Err(e)
                    ==> e is Backend)
            },
    {
        let mut next_node = self.state.root;
        let mut fuel: u64 = self.state.next_node_id;
        let ghost v = store.nodes(tx@);
        let ghost ok = store.consistent(tx@) && index_wf(v, self.state);
        let ghost t = self.state.minimum_degree as int;
        let ghost mut h: nat = index_height(v, self.state);
        let ghost mut lo: Bound = None;
        let ghost mut hi: Bound = None;
        let ghost mut min: int = 1;
        proof {
            if ok {
                lemma_tree_facts(v, self.state, h);
            }
        }
        loop
            invariant
                self.wf(),
                store.wf(),
                tx.wf(),
                tx.reliable() == old(tx).reliable(),
                only_nodes_changed::<BK>(store.provider(), old(tx)@, tx@),
                store.mode() == old(store).mode(),
                store.provider() == old(store).provider(),
                t == self.state.minimum_degree,
                v == old(store).nodes(old(tx)@),
                self.state.root is None ==> next_node is None && *store == *old(store) && tx@ == old(tx)@,
                ok == (old(store).consistent(old(tx)@) && index_wf(v, self.state)),
                ok ==> store.consistent(tx@) && store.nodes(tx@) == v && store.checked_out() == old(store).checked_out(),
                ok ==> match next_node {
                    Some(id) => subtree_wf(v, id, h, lo, hi, t, min) && h <= fuel && lookup(
                        v,
                        id,
                        h,
                        searched_key@,
                    ) == index_get(v, self.state, searched_key@),
                    None => index_get(v, self.state, searched_key@) is None,
                },
            decreases fuel,
        {
            let node_id = match next_node {
                Some(node_id) => node_id,
                None => {
                    return Ok(None);
                },
            };
            if fuel == 0 {
                return Err(Error::CorruptedIndex);
            }
            fuel = fuel - 1;
            let current = store.get_node(tx, node_id)?;
            match current.node.keys().get(searched_key) {
                Some(payload) => {
                    store.set_node(tx, current, false)?;
                    proof {
                        if ok {
                            assert(store.checked_out() =~= old(store).checked_out());
                        }
                    }
                    return Ok(Some(payload));
                },
                None => {},
            }
            next_node = None;
            match &current.node {
                Node::Internal(keys, children) => {
                    let child_idx = keys.get_child_idx(searched_key);
                    proof {
                        lemma_child_idx_props(keys@, searched_key@);
                    }
                    if child_idx >= children.len() {
                        return Err(Error::CorruptedIndex);
                    }
                    next_node = Some(children[child_idx]);
                    proof {
                        if ok {
                            let n = v[node_id];
                            assert(subtree_wf(
                                v,
                                n.children[child_idx as int],
                                (h - 1) as nat,
                                lo_of(n.pack, child_idx as int, lo),
                                hi_of(n.pack, child_idx as int, hi),
                                t,
                                t - 1,
                            ));
                            lo = lo_of(n.pack, child_idx as int, lo);
                            hi = hi_of(n.pack, child_idx as int, hi);
                            min = t - 1;
                            h = (h - 1) as nat;
                        }
                    }
                },
                Node::Leaf(_) => {},
            }
            store.set_node(tx, current, false)?;
            proof {
                if ok {
                    assert(store.checked_out() =~= old(store).checked_out());
                }
            }
        }
    }

    /// Sets the payload of `key`, in place of an earlier one if the tree had
    /// the key. Where the store is a `Write` store that presents a B-tree and
    /// has every node back, the tree afterwards is a B-tree that maps `key`
    /// to `payload` and every other key to what it was mapped to; its nodes
    /// are those that `inserted` gives, and its state and its height are as
    /// `grown` says. With a reliable transaction and identifiers below
    /// `MAX_NODE_ID` left, that is done, and nothing but the transaction or
    /// the want of identifiers makes it fail.
    #[verifier::rlimit(100)]
    #[verifier::spinoff_prover]
    pub fn insert<T: Transaction>(
        &mut self,
        tx: &mut T,
        store: &mut BTreeNodeStore<BK>,
        key: Vec<u8>,
        payload: Payload,
    ) -> (r: Result<(), Error>)
        requires
            old(self).wf(),
            old(store).wf(),
            old(tx).wf(),
        ensures
            final(self).wf(),
            final(self).state().next_node_id >= old(self).state().next_node_id,
            final(store).wf(),
            final(tx).wf(),
            final(tx).reliable() == old(tx).reliable(),
            r is Ok ==> only_nodes_changed::<BK>(old(store).provider(), old(tx)@, final(tx)@),
            final(store).mode() == old(store).mode(),
            final(store).provider() == old(store).provider(),
            final(self).state().minimum_degree == old(self).state().minimum_degree,
            r is Ok ==> final(self).updated(),
            r is Err ==> final(self).updated() == old(self).updated(),
            old(self).ready(*old(store), old(tx)@) ==> {
                &&& r is Ok ==> final(self).ready(*final(store), final(tx)@)
                &&& r is Ok ==> forall|q: Seq<u8>|
                    #![trigger index_get(final(store).nodes(final(tx)@), final(self).state(), q)]
                    index_get(final(store).nodes(final(tx)@), final(self).state(), q) == if q
                        == key@ {
                        Some(payload)
                    } else {
                        index_get(old(store).nodes(old(tx)@), old(self).state(), q)
                    }
                &&& r is Ok ==> index_view(final(store).nodes(final(tx)@), final(self).state())
                    == index_view(old(store).nodes(old(tx)@), old(self).state()).insert(
                    key@,
                    payload,
                )
                &&& old(tx).reliable() && old(self).state().next_node_id <= MAX_NODE_ID ==> r is Ok
                &&& r matches Err(e) ==> e is Backend || (e == Error::Unreachable && old(self).state().next_node_id > MAX_NODE_ID)
                &&& r is Ok && index_roomy(old(store).nodes(old(tx)@), old(self).state(), key@)
                    ==> final(store).nodes(final(tx)@).dom() == old(store).nodes(old(tx)@).dom()
                    && final(self).state() == old(self).state()
                &&& r is Ok ==> grown(
                    old(store).nodes(old(tx)@),
                    old(self).state(),
                    final(store).nodes(final(tx)@),
                    final(self).state(),
                    key@,
                    payload,
                )
                &&& r is Ok ==> final(store).nodes(final(tx)@) == inserted(
                    old(store).nodes(old(tx)@),
                    old(self).state(),
                    key@,
                    payload,
                )
            },
    {
        let ghost v = store.nodes(tx@);
        let ghost st = self.state;
        let ghost hyp = self.ready(*store, tx@);
        let ghost h = index_height(v, st);
        let ghost t = st.minimum_degree as int;
        proof {
            if hyp {
                lemma_tree_facts(v, st, h);
            }
        }
        match self.state.root {
            Some(root_id) => {
                let root = store.get_node(tx, root_id)?;
                if root.node.keys().len() as u64 == self.full_size {
                    let new_root_id = self.new_node_id()?;
                    let mut children: Vec<NodeId> = Vec::new();
                    children.push(root_id);
                    let new_root = store.new_node(new_root_id, Node::Internal(BK::new(), children))?;
                    self.state.root = Some(new_root_id);
                    proof {
                        if hyp {
                            assert(new_root.node@ == crate::cursor::new_root(root_id));
                            assert(in_subtree(v, root_id, h, root_id));
                            if st.next_node_id + 1 < u64::MAX {
                                lemma_tree_grow(v, st, h);
                            }
                        }
                    }
                    let split = self.split_child(tx, store, new_root, 0, root)?;
                    let ghost v1 = store.nodes(tx@);
                    let ghost st1 = self.state;
                    proof {
                        if hyp {
                            assert(store.checked_out() =~= Set::<NodeId>::empty());
                            assert(st1 == (State {
                                root: Some(st.next_node_id),
                                next_node_id: (st.next_node_id + 2) as u64,
                                ..st
                            }));
                            lemma_cursor_start(v1, st1, h + 1, key@);
                        }
                    }
                    match compare_keys(&key, &split.median_key) {
                        KeyOrder::Equal => {
                            proof {
                                if hyp {
                                    lemma_pack_has_len(v1[new_root_id].pack, key@);
                                    lemma_cursor_put(
                                        v1,
                                        st1,
                                        h + 1,
                                        key@,
                                        new_root_id,
                                        h + 1,
                                        None,
                                        None,
                                        payload,
                                    );
                                }
                            }
                            self.overwrite(tx, store, new_root_id, key, payload)?;
                            proof {
                                if hyp {
                                    lemma_tree_height(store.nodes(tx@), self.state, h + 1);
                                    lemma_tree_height(v, st, h);
                                }
                            }
                        },
                        _ => {
                            self.insert_non_full(
                                tx,
                                store,
                                new_root_id,
                                key,
                                payload,
                                Ghost(h + 1),
                            )?;
                            proof {
                                if hyp {
                                    lemma_tree_height(store.nodes(tx@), self.state, h + 1);
                                    lemma_tree_height(v, st, h);
                                }
                            }
                        },
                    }
                } else {
                    store.set_node(tx, root, false)?;
                    proof {
                        if hyp {
                            assert(store.checked_out() =~= Set::<NodeId>::empty());
                        }
                    }
                    self.insert_non_full(tx, store, root_id, key, payload, Ghost(h))?;
                    proof {
                        if hyp {
                            lemma_tree_height(store.nodes(tx@), self.state, h);
                            lemma_tree_height(v, st, h);
                        }
                    }
                }
            },
            None => {
                let new_root_id = self.new_node_id()?;
                let keys = BK::with_key_val(key, payload)?;
                let new_root_node = store.new_node(new_root_id, Node::Leaf(keys))?;
                proof {
                    if hyp {
                        assert(new_root_node.node@ == first_leaf(key@, payload));
                        lemma_first_leaf(v, st, key@, payload);
                    }
                }
                store.set_node(tx, new_root_node, true)?;
                self.state.root = Some(new_root_id);
                proof {
                    if hyp {
                        assert(store.checked_out() =~= Set::<NodeId>::empty());
                        lemma_tree_height(store.nodes(tx@), self.state, 1);
                    }
                }
            },
        }
        self.updated = true;
        proof {
            if hyp {
                lemma_view_insert(v, st, store.nodes(tx@), self.state, key@, payload);
                assert(grown(v, st, store.nodes(tx@), self.state, key@, payload));
            }
        }
        Ok(())
    }

    /// Sets the payload of `key` in the node `node_id`.
    fn overwrite<T: Transaction>(
        &mut self,
        tx: &mut T,
        store: &mut BTreeNodeStore<BK>,
        node_id: NodeId,
        key: Vec<u8>,
        payload: Payload,
    ) -> (r: Result<(), Error>)
        requires
            old(self).wf(),
            old(store).wf(),
            old(tx).wf(),
        ensures
            final(self).wf(),
            *final(self) == *old(self),
            final(store).wf(),
            final(tx).wf(),
            final(tx).reliable() == old(tx).reliable(),
            r is Ok ==> only_nodes_changed::<BK>(old(store).provider(), old(tx)@, final(tx)@),
            final(store).mode() == old(store).mode(),
            final(store).provider() == old(store).provider(),
            old(store).consistent(old(tx)@) && old(store).mode() is Write ==> {
                &&& r is Ok ==> {
                    &&& final(store).consistent(final(tx)@)
                    &&& old(store).nodes(old(tx)@).contains_key(node_id)
                    &&& final(store).nodes(final(tx)@) == old(store).nodes(old(tx)@).insert(
                        node_id,
                        node_put(old(store).nodes(old(tx)@)[node_id], key@, payload),
                    )
                    &&& final(store).checked_out() == old(store).checked_out()
                }
                &&& old(tx).reliable() && old(store).nodes(old(tx)@).contains_key(node_id) && !old(store).checked_out().contains(node_id) ==> r is Ok
                &&& old(store).nodes(old(tx)@).contains_key(node_id) && !old(store).checked_out().contains(node_id) ==> (r matches Err(e) ==> e is Backend)
            },
    {
        let StoredNode { node, id, key: node_key, size } = store.get_node(tx, node_id)?;
        let mut node = node;
        node.keys_mut().insert(key, payload);
        let r = store.set_node(tx, StoredNode { node, id, key: node_key, size }, true);
        proof {
            assert(store.checked_out() =~= old(store).checked_out());
        }
        r
    }

    /// Walks down from the root `node_id`, which is not full, to the place
    /// of `key`, splits every full node on the way, and sets the payload.
    /// `h` is the height of the tree.
    #[verifier::rlimit(100)]
    #[verifier::spinoff_prover]
    fn insert_non_full<T: Transaction>(
        &mut self,
        tx: &mut T,
        store: &mut BTreeNodeStore<BK>,
        node_id: NodeId,
        key: Vec<u8>,
        payload: Payload,
        Ghost(h): Ghost<nat>,
    ) -> (r: Result<(), Error>)
        requires
            old(self).wf(),
            old(store).wf(),
            old(tx).wf(),
        ensures
            final(self).wf(),
            final(self).state().next_node_id >= old(self).state().next_node_id,
            final(store).wf(),
            final(tx).wf(),
            final(tx).reliable() == old(tx).reliable(),
            r is Ok ==> only_nodes_changed::<BK>(old(store).provider(), old(tx)@, final(tx)@),
            final(store).mode() == old(store).mode(),
            final(store).provider() == old(store).provider(),
            final(self).updated() == old(self).updated(),
            final(self).state().minimum_degree == old(self).state().minimum_degree,
            old(store).consistent(old(tx)@) && old(store).mode() is Write && old(store).checked_out() == Set::<NodeId>::empty() && tree_wf(
                old(store).nodes(old(tx)@),
                old(self).state(),
                h,
            ) && old(self).state().root == Some(node_id) && old(store).nodes(
                old(tx)@,
            )[node_id].pack.len() < 2 * old(self).state().minimum_degree - 1 ==> {
                &&& r is Ok ==> {
                    &&& final(store).consistent(final(tx)@)
                    &&& final(store).checked_out() == Set::<NodeId>::empty()
                    &&& tree_wf(final(store).nodes(final(tx)@), final(self).state(), h)
                    &&& final(self).state().root == Some(node_id)
                    &&& forall|q: Seq<u8>|
                        #![trigger lookup(final(store).nodes(final(tx)@), node_id, h, q)]
                        lookup(final(store).nodes(final(tx)@), node_id, h, q) == if q == key@ {
                            Some(payload)
                        } else {
                            lookup(old(store).nodes(old(tx)@), node_id, h, q)
                        }
                    &&& old(self).state().next_node_id <= final(self).state().next_node_id
                    &&& final(self).state().next_node_id + 1 <= old(self).state().next_node_id + h
                    &&& final(store).nodes(final(tx)@) == put_down(
                        old(store).nodes(old(tx)@),
                        node_id,
                        h,
                        old(self).state().next_node_id as int,
                        key@,
                        payload,
                        old(self).state().minimum_degree as int,
                    )
                    &&& forall|x: NodeId|
                        #![trigger final(store).nodes(final(tx)@).contains_key(x)]
                        final(store).nodes(final(tx)@).contains_key(x) <==> old(store).nodes(
                            old(tx)@,
                        ).contains_key(x) || old(self).state().next_node_id <= x < final(self).state().next_node_id
                }
                &&& old(tx).reliable() && old(self).state().next_node_id + h < u64::MAX ==> r is Ok
                &&& r matches Err(e) ==> e is Backend || (e == Error::Unreachable && old(self).state().next_node_id + h >= u64::MAX)
                &&& r is Ok && !full_on_path(
                    old(store).nodes(old(tx)@),
                    node_id,
                    h,
                    key@,
                    old(self).state().minimum_degree as int,
                ) ==> final(store).nodes(final(tx)@).dom() == old(store).nodes(old(tx)@).dom()
                    && final(self).state() == old(self).state()
            },
    {
        let mut next_node_id = node_id;
        let mut fuel: u64 = self.state.next_node_id;
        let ghost v0 = store.nodes(tx@);
        let ghost st0 = self.state;
        let ghost t = st0.minimum_degree as int;
        let ghost hyp = store.consistent(tx@) && store.mode() is Write && store.checked_out()
            == Set::<NodeId>::empty() && tree_wf(v0, st0, h) && st0.root == Some(node_id)
            && v0[node_id].pack.len() < 2 * t - 1;
        let ghost mut hc: nat = h;
        let ghost mut clo: Bound = None;
        let ghost mut chi: Bound = None;
        proof {
            if hyp {
                lemma_tree_facts(v0, st0, h);
                lemma_cursor_start(v0, st0, h, key@);
            }
        }
        loop
            invariant
                self.wf(),
                store.wf(),
                tx.wf(),
                tx.reliable() == old(tx).reliable(),
                only_nodes_changed::<BK>(store.provider(), old(tx)@, tx@),
                store.mode() == old(store).mode(),
                store.provider() == old(store).provider(),
                self.updated == old(self).updated,
                self.state.minimum_degree == st0.minimum_degree,
                self.state.next_node_id >= old(self).state.next_node_id,
                st0 == old(self).state,
                v0 == old(store).nodes(old(tx)@),
                t == st0.minimum_degree,
                hyp == (old(store).consistent(old(tx)@) && old(store).mode() is Write && old(store).checked_out() == Set::<NodeId>::empty() && tree_wf(v0, st0, h) && st0.root
                    == Some(node_id) && v0[node_id].pack.len() < 2 * t - 1),
                hyp ==> {
                    &&& store.consistent(tx@)
                    &&& store.mode() is Write
                    &&& store.checked_out() == Set::<NodeId>::empty()
                    &&& cursor_ok(store.nodes(tx@), self.state, h, key@, next_node_id, hc, clo, chi)
                    &&& store.nodes(tx@)[next_node_id].pack.len() < 2 * t - 1
                    &&& self.state.root == Some(node_id)
                    &&& hc <= fuel
                    &&& hc <= h
                    &&& self.state.next_node_id + hc <= st0.next_node_id + h
                    &&& st0.next_node_id <= self.state.next_node_id
                    &&& put_down(
                        store.nodes(tx@),
                        next_node_id,
                        hc,
                        self.state.next_node_id as int,
                        key@,
                        payload,
                        t,
                    ) == put_down(v0, node_id, h, st0.next_node_id as int, key@, payload, t)
                    &&& forall|x: NodeId|
                        #![trigger store.nodes(tx@).contains_key(x)]
                        store.nodes(tx@).contains_key(x) <==> v0.contains_key(x) || st0.next_node_id
                            <= x < self.state.next_node_id
                    &&& forall|q: Seq<u8>|
                        #![trigger lookup(store.nodes(tx@), node_id, h, q)]
                        lookup(store.nodes(tx@), node_id, h, q) == lookup(v0, node_id, h, q)
                    &&& !full_on_path(v0, node_id, h, key@, t) ==> store.nodes(tx@) == v0
                        && self.state == st0 && !full_on_path(v0, next_node_id, hc, key@, t)
                },
            decreases fuel,
        {
            let ghost v = store.nodes(tx@);
            let ghost st = self.state;
            proof {
                if hyp {
                    lemma_cursor_facts(v, st, h, key@, next_node_id, hc, clo, chi);
                }
            }
            if fuel == 0 {
                return Err(Error::CorruptedIndex);
            }
            fuel = fuel - 1;
            let StoredNode { node, id, key: node_key, size } = store.get_node(tx, next_node_id)?;
            match node {
                Node::Leaf(keys) => {
                    let mut keys = keys;
                    proof {
                        if hyp {
                            lemma_cursor_put(v, st, h, key@, id, hc, clo, chi, payload);
                        }
                    }
                    keys.insert(key, payload);
                    let stored = StoredNode { node: Node::Leaf(keys), id, key: node_key, size };
                    proof {
                        if hyp {
                            assert(stored.node@ == node_put(v[id], key@, payload));
                        }
                    }
                    store.set_node(tx, stored, true)?;
                    proof {
                        if hyp {
                            assert(store.checked_out() =~= Set::<NodeId>::empty());
                            assert(v.insert(id, node_put(v[id], key@, payload)).dom() =~= v.dom());
                        }
                    }
                    return Ok(());
                },
                Node::Internal(keys, children) => {
                    let mut keys = keys;
                    if keys.get(&key).is_some() {
                        proof {
                            if hyp {
                                lemma_cursor_put(v, st, h, key@, id, hc, clo, chi, payload);
                            }
                        }
                        keys.insert(key, payload);
                        let node = Node::Internal(keys, children);
                        proof {
                            if hyp {
                                assert(node@ == node_put(v[id], key@, payload));
                            }
                        }
                        store.set_node(tx, StoredNode { node, id, key: node_key, size }, true)?;
                        proof {
                            if hyp {
                                assert(store.checked_out() =~= Set::<NodeId>::empty());
                                assert(v.insert(id, node_put(v[id], key@, payload)).dom() =~= v.dom());
                            }
                        }
                        return Ok(());
                    }
                    let child_idx = keys.get_child_idx(&key);
                    proof {
                        if hyp {
                            lemma_cursor_down(v, st, h, key@, id, hc, clo, chi);
                            lemma_cursor_facts(
                                v,
                                st,
                                h,
                                key@,
                                v[id].children[child_idx as int],
                                (hc - 1) as nat,
                                lo_of(v[id].pack, child_idx as int, clo),
                                hi_of(v[id].pack, child_idx as int, chi),
                            );
                        }
                    }
                    if child_idx >= children.len() {
                        return Err(Error::CorruptedIndex);
                    }
                    let child = store.get_node(tx, children[child_idx])?;
                    let node = StoredNode {
                        node: Node::Internal(keys, children),
                        id,
                        key: node_key,
                        size,
                    };
                    let ghost cid = child.id;
                    if child.node.keys().len() as u64 == self.full_size {
                        proof {
                            if hyp {
                                if st.next_node_id < u64::MAX {
                                    lemma_split_next(v, st, h, key@, id, hc, clo, chi);
                                }
                                assert(node.node@ == v[id]);
                                assert(full_on_path(v, cid, (hc - 1) as nat, key@, t));
                            }
                        }
                        let split = self.split_child(tx, store, node, child_idx, child)?;
                        let ghost v1 = store.nodes(tx@);
                        let ghost st1 = self.state;
                        proof {
                            if hyp {
                                assert(store.checked_out() =~= Set::<NodeId>::empty());
                            }
                        }
                        match compare_keys(&key, &split.median_key) {
                            KeyOrder::Greater => {
                                next_node_id = split.right_node_id;
                                proof {
                                    if hyp {
                                        clo = lo_of(v1[id].pack, child_idx + 1, clo);
                                        chi = hi_of(v1[id].pack, child_idx + 1, chi);
                                        hc = (hc - 1) as nat;
                                    }
                                }
                            },
                            KeyOrder::Less => {
                                next_node_id = split.left_node_id;
                                proof {
                                    if hyp {
                                        clo = lo_of(v1[id].pack, child_idx as int, clo);
                                        chi = hi_of(v1[id].pack, child_idx as int, chi);
                                        hc = (hc - 1) as nat;
                                    }
                                }
                            },
                            KeyOrder::Equal => {
                                proof {
                                    if hyp {
                                        lemma_cursor_facts(v1, st1, h, key@, id, hc, clo, chi);
                                        lemma_cursor_put(v1, st1, h, key@, id, hc, clo, chi, payload);
                                    }
                                }
                                return self.overwrite(tx, store, id, key, payload);
                            },
                        }
                    } else {
                        let child_id = child.id;
                        store.set_node(tx, node, false)?;
                        store.set_node(tx, child, false)?;
                        next_node_id = child_id;
                        proof {
                            if hyp {
                                assert(store.checked_out() =~= Set::<NodeId>::empty());
                                assert(full_on_path(v, id, hc, key@, t) || !full_on_path(
                                    v,
                                    child_id,
                                    (hc - 1) as nat,
                                    key@,
                                    t,
                                ));
                                clo = lo_of(v[id].pack, child_idx as int, clo);
                                chi = hi_of(v[id].pack, child_idx as int, chi);
                                hc = (hc - 1) as nat;
                            }
                        }
                    }
                },
            }
        }
    }

    /// Splits the node `child_node`, the child at index `idx` of
    /// `parent_node`: the median goes up into the parent, the keys above it
    /// into a new node to the right. The store then presents the nodes that
    /// `split_nodes` describes.
    fn split_child<T: Transaction>(
        &mut self,
        tx: &mut T,
        store: &mut BTreeNodeStore<BK>,
        parent_node: StoredNode<BK>,
        idx: usize,
        child_node: StoredNode<BK>,
    ) -> (r: Result<SplitResult, Error>)
        requires
            old(self).wf(),
            old(store).wf(),
            old(tx).wf(),
            parent_node.node.wf(),
            child_node.node.wf(),
        ensures
            final(self).wf(),
            final(self).state().next_node_id >= old(self).state().next_node_id,
            final(store).wf(),
            final(tx).wf(),
            final(tx).reliable() == old(tx).reliable(),
            r is Ok ==> only_nodes_changed::<BK>(old(store).provider(), old(tx)@, final(tx)@),
            final(store).mode() == old(store).mode(),
            final(store).provider() == old(store).provider(),
            final(self).updated() == old(self).updated(),
            final(self).state().minimum_degree == old(self).state().minimum_degree,
            final(self).state().root == old(self).state().root,
            r is Ok ==> old(self).state().next_node_id < u64::MAX,
            old(store).consistent(old(tx)@) && old(store).mode() is Write && !parent_node.node@.leaf
                && idx < parent_node.node@.children.len() && parent_node.node@.children[idx as int]
                == child_node.id && child_node.id != parent_node.id && old(store).nodes(
                old(tx)@,
            ).contains_key(child_node.id) && old(store).nodes(old(tx)@)[child_node.id]
                == child_node.node@ && child_node.node@.pack.len() > 0 && (child_node.node@.leaf
                || child_node.node@.children.len() > child_node.node@.pack.median_idx()) ==> {
                &&& r matches Ok(s) ==> {
                    &&& final(store).consistent(final(tx)@)
                    &&& final(store).nodes(final(tx)@) == split_nodes(
                        old(store).nodes(old(tx)@),
                        parent_node.node@,
                        parent_node.id,
                        idx as int,
                        old(self).state().next_node_id,
                    )
                    &&& final(self).state() == (State {
                        next_node_id: (old(self).state().next_node_id + 1) as u64,
                        ..old(self).state()
                    })
                    &&& s.left_node_id == child_node.id
                    &&& s.right_node_id == old(self).state().next_node_id
                    &&& s.median_key@ == child_node.node@.pack.keys[child_node.node@.pack.median_idx()]
                    &&& final(store).checked_out() == old(store).checked_out().remove(
                        child_node.id,
                    ).remove(parent_node.id)
                }
                &&& old(tx).reliable() && old(self).state().next_node_id < u64::MAX && !old(store).checked_out().contains(old(self).state().next_node_id) ==> r is Ok
                &&& !old(store).checked_out().contains(old(self).state().next_node_id) ==> (
                r matches Err(e) ==> e is Backend || (e == Error::Unreachable && old(self).state().next_node_id == u64::MAX))
            },
    {
        let ghost v = store.nodes(tx@);
        let ghost p = parent_node.node@;
        let ghost n = child_node.node@;
        let ghost rid = self.state.next_node_id;
        let StoredNode { node: child, id: left_node_id, key: left_key, size: left_size } = child_node;
        let (left_node, right_node, median_key, median_payload) = match child {
            Node::Internal(keys, children) => self.split_internal_node(keys, children)?,
            Node::Leaf(keys) => self.split_leaf_node(keys)?,
        };
        let right_node_id = self.new_node_id()?;
        let StoredNode { node: parent, id: parent_id, key: parent_key, size: parent_size } =
            parent_node;
        let parent = match parent {
            Node::Internal(keys, children) => {
                let mut keys = keys;
                let mut children = children;
                if idx >= children.len() {
                    return Err(Error::CorruptedIndex);
                }
                keys.insert(copy_bytes(&median_key), median_payload);
                children.insert(idx + 1, right_node_id);
                Node::Internal(keys, children)
            },
            Node::Leaf(keys) => {
                let mut keys = keys;
                keys.insert(copy_bytes(&median_key), median_payload);
                Node::Leaf(keys)
            },
        };
        proof {
            if !p.leaf && idx < p.children.len() {
                assert(parent@ == split_parent(p, idx as int, n, rid));
            }
        }
        // Save the split child with the lower half of the keys
        let left = StoredNode { node: left_node, id: left_node_id, key: left_key, size: left_size };
        store.set_node(tx, left, true)?;
        // Save the new child with the upper half of the keys
        let right = store.new_node(right_node_id, right_node)?;
        store.set_node(tx, right, true)?;
        // Save the parent node
        let parent = StoredNode { node: parent, id: parent_id, key: parent_key, size: parent_size };
        store.set_node(tx, parent, true)?;
        proof {
            assert(old(store).checked_out().remove(left_node_id).insert(rid).remove(rid).remove(
                parent_id,
            ) =~= old(store).checked_out().remove(left_node_id).remove(rid).remove(parent_id));
            if !old(store).checked_out().contains(rid) {
                assert(old(store).checked_out().remove(left_node_id).remove(rid).remove(parent_id)
                    =~= old(store).checked_out().remove(left_node_id).remove(parent_id));
            }
            if left_node_id != parent_id && v.contains_key(left_node_id) && v[left_node_id] == n {
                assert(v.insert(parent_id, p)[left_node_id] == n);
            }
        }
        Ok(SplitResult { left_node_id, right_node_id, median_key })
    }

    /// The two halves of an internal node with the given keys and children,
    /// its median key and the payload of that key.
    fn split_internal_node(&mut self, keys: BK, left_children: Vec<NodeId>) -> (r: Result<
        (Node<BK>, Node<BK>, Vec<u8>, Payload),
        Error,
    >)
        requires
            keys.wf(),
        ensures
            *final(self) == *old(self),
            r is Ok <==> keys@.len() > 0 && left_children@.len() > keys@.median_idx(),
            r is Err ==> r == Err::<(Node<BK>, Node<BK>, Vec<u8>, Payload), Error>(
                Error::CorruptedIndex,
            ),
            r matches Ok(s) ==> {
                &&& s.0.wf()
                &&& s.1.wf()
                &&& s.0@ == split_left(
                    NodeModel { leaf: false, pack: keys@, children: left_children@ },
                )
                &&& s.1@ == split_right(
                    NodeModel { leaf: false, pack: keys@, children: left_children@ },
                )
                &&& s.2@ == keys@.keys[keys@.median_idx()]
                &&& s.3 == keys@.payloads[keys@.median_idx()]
            },
    {
        let mut left_children = left_children;
        let r = keys.split_keys()?;
        if r.median_idx >= left_children.len() {
            return Err(Error::CorruptedIndex);
        }
        let right_children = left_children.split_off(r.median_idx + 1);
        let left_node = Node::Internal(r.left, left_children);
        let right_node = Node::Internal(r.right, right_children);
        Ok((left_node, right_node, r.median_key, r.median_payload))
    }

    /// The two halves of a leaf with the given keys, its median key and the
    /// payload of that key.
    fn split_leaf_node(&mut self, keys: BK) -> (r: Result<
        (Node<BK>, Node<BK>, Vec<u8>, Payload),
        Error,
    >)
        requires
            keys.wf(),
        ensures
            *final(self) == *old(self),
            r is Ok <==> keys@.len() > 0,
            r is Err ==> r == Err::<(Node<BK>, Node<BK>, Vec<u8>, Payload), Error>(
                Error::CorruptedIndex,
            ),
            r matches Ok(s) ==> {
                &&& s.0.wf()
                &&& s.1.wf()
                &&& s.0@ == split_left(
                    NodeModel { leaf: true, pack: keys@, children: Seq::empty() },
                )
                &&& s.1@ == split_right(
                    NodeModel { leaf: true, pack: keys@, children: Seq::empty() },
                )
                &&& s.2@ == keys@.keys[keys@.median_idx()]
                &&& s.3 == keys@.payloads[keys@.median_idx()]
            },
    {
        let r = keys.split_keys()?;
        let left_node = Node::Leaf(r.left);
        let right_node = Node::Leaf(r.right);
        Ok((left_node, right_node, r.median_key, r.median_payload))
    }

    /// The identifier for a new node. None is left when the counter has
    /// reached its end; the result is then `Unreachable`.
    fn new_node_id(&mut self) -> (r: Result<NodeId, Error>)
        requires
            old(self).wf(),
        ensures
            final(self).wf(),
            r is Ok <==> old(self).state().next_node_id < u64::MAX,
            r matches Ok(id) ==> id == old(self).state().next_node_id && final(self).state() == (
            State { next_node_id: (id + 1) as u64, ..old(self).state() }) && final(self).updated()
                == old(self).updated(),
            r is Err ==> *final(self) == *old(self) && r == Err::<NodeId, Error>(Error::Unreachable),
    {
        let new_node_id = self.state.next_node_id;
        if new_node_id == u64::MAX {
            return Err(Error::Unreachable);
        }
        self.state.next_node_id = new_node_id + 1;
        Ok(new_node_id)
    }

    /// Takes `key_to_delete` out of the tree and returns the payload it had.
    /// A tree without root is left as it is. Where the store is a `Write`
    /// store that presents a B-tree and has every node back, the result is
    /// the payload that the key had; the nodes afterwards are those that
    /// `deleted` gives, under the root that `deleted_root` gives, and they
    /// have the shape of a B-tree of the height that `deleted_height` gives;
    /// with a reliable transaction that is done, and nothing but the
    /// transaction makes it fail. Where moreover the way of the deletion is
    /// clear (the key is not in the tree, or stands in a leaf or just above the
    /// leaves, or higher up between children that are merged all the way
    /// down), the tree afterwards is a B-tree that has no payload for the key
    /// and maps every other key to what it was mapped to. Else the key stood
    /// high in the tree beside a child with a key to spare, and the last or
    /// first key of that child has taken its place: the keys under that child
    /// on the far side of the new key are then no longer in order with it.
    #[verifier::rlimit(100)]
    #[verifier::spinoff_prover]
    pub fn delete<T: Transaction>(
        &mut self,
        tx: &mut T,
        store: &mut BTreeNodeStore<BK>,
        key_to_delete: Vec<u8>,
    ) -> (r: Result<Option<Payload>, Error>)
        requires
            old(self).wf(),
            old(store).wf(),
            old(tx).wf(),
        ensures
            final(self).wf(),
            final(store).wf(),
            final(tx).wf(),
            final(tx).reliable() == old(tx).reliable(),
            r is Ok ==> only_nodes_changed::<BK>(old(store).provider(), old(tx)@, final(tx)@),
            final(store).mode() == old(store).mode(),
            final(store).provider() == old(store).provider(),
            final(self).state().minimum_degree == old(self).state().minimum_degree,
            final(self).state().next_node_id == old(self).state().next_node_id,
            old(self).updated() ==> final(self).updated(),
            r matches Ok(Some(_)) ==> final(self).updated(),
            old(self).state().root is None ==> r == Ok::<Option<Payload>, Error>(None) && *final(self) == *old(self) && *final(store) == *old(store) && final(tx)@ == old(tx)@,
            old(self).ready(*old(store), old(tx)@) ==> (r matches Ok(found) ==> found == index_get(
                old(store).nodes(old(tx)@),
                old(self).state(),
                key_to_delete@,
            ) && found == map_get(
                index_view(old(store).nodes(old(tx)@), old(self).state()),
                key_to_delete@,
            )),
            old(self).ready(*old(store), old(tx)@) ==> {
                &&& r is Ok ==> {
                    &&& final(store).consistent(final(tx)@)
                    &&& final(store).checked_out() == Set::<NodeId>::empty()
                    &&& index_shaped(
                        final(store).nodes(final(tx)@),
                        final(self).state(),
                        deleted_height(
                            old(store).nodes(old(tx)@),
                            old(self).state(),
                            key_to_delete@,
                        ),
                    )
                    &&& final(store).nodes(final(tx)@) == deleted(
                        old(store).nodes(old(tx)@),
                        old(self).state(),
                        key_to_delete@,
                    )
                    &&& final(self).state().root == deleted_root(
                        old(store).nodes(old(tx)@),
                        old(self).state(),
                        key_to_delete@,
                    )
                }
                &&& old(tx).reliable() ==> r is Ok
                &&& r matches Err(e) ==> e is Backend
            },
            old(self).ready(*old(store), old(tx)@) && index_clear(
                old(store).nodes(old(tx)@),
                old(self).state(),
                key_to_delete@,
            ) ==> {
                &&& r matches Ok(found) ==> {
                    &&& final(self).ready(*final(store), final(tx)@)
                    &&& forall|q: Seq<u8>|
                        #![trigger index_get(final(store).nodes(final(tx)@), final(self).state(), q)]
                        index_get(final(store).nodes(final(tx)@), final(self).state(), q) == if q
                            == key_to_delete@ {
                            None
                        } else {
                            index_get(old(store).nodes(old(tx)@), old(self).state(), q)
                        }
                    &&& index_view(final(store).nodes(final(tx)@), final(self).state())
                        == index_view(old(store).nodes(old(tx)@), old(self).state()).remove(
                        key_to_delete@,
                    )
                    &&& final(store).nodes(final(tx)@) == deleted(
                        old(store).nodes(old(tx)@),
                        old(self).state(),
                        key_to_delete@,
                    )
                    &&& final(self).state().root == deleted_root(
                        old(store).nodes(old(tx)@),
                        old(self).state(),
                        key_to_delete@,
                    )
                    &&& index_height(final(store).nodes(final(tx)@), final(self).state())
                        == deleted_height(
                        old(store).nodes(old(tx)@),
                        old(self).state(),
                        key_to_delete@,
                    )
                }
                &&& old(tx).reliable() ==> r is Ok
                &&& r matches Err(e) ==> e is Backend
            },
    {
        let ghost v0 = store.nodes(tx@);
        let ghost st0 = self.state;
        let ghost k0 = key_to_delete@;
        let ghost hyp = self.ready(*store, tx@);
        let ghost clear = index_clear(v0, st0, k0);
        let ghost h0 = index_height(v0, st0);
        let ghost t = st0.minimum_degree as int;
        proof {
            if hyp {
                lemma_tree_facts(v0, st0, h0);
            }
        }
        let mut deleted_payload: Option<Payload> = None;
        let root_id = match self.state.root {
            Some(root_id) => root_id,
            None => {
                proof {
                    if hyp {
                        lemma_view_remove(v0, st0, store.nodes(tx@), self.state, k0);
                        lemma_wf_shaped(v0, st0, h0);
                    }
                }
                return Ok(None);
            },
        };
        let mut is_main_key = true;
        let mut current_key = key_to_delete;
        let mut node_id = root_id;
        let mut fuel: u64 = self.state.next_node_id;
        let ghost mut pend = false;
        let ghost mut started = false;
        let ghost mut go = hyp;
        let ghost mut g: crate::model::Nodes = v0;
        let ghost mut nxt: (crate::model::Nodes, Bound, Bound) = (v0, None, None);
        let ghost mut hcur: nat = h0;
        let ghost mut hc: nat = h0;
        let ghost mut clo: Bound = None;
        let ghost mut chi: Bound = None;
        proof {
            if hyp {
                lemma_cursor_start(v0, st0, h0, k0);
            }
        }
        loop
            invariant
                self.wf(),
                store.wf(),
                tx.wf(),
                tx.reliable() == old(tx).reliable(),
                only_nodes_changed::<BK>(store.provider(), old(tx)@, tx@),
                store.mode() == old(store).mode(),
                store.provider() == old(store).provider(),
                self.state.minimum_degree == st0.minimum_degree,
                self.state.next_node_id == st0.next_node_id,
                old(self).updated ==> self.updated,
                deleted_payload is Some ==> self.updated,
                st0 == old(self).state,
                k0 == key_to_delete@,
                v0 == old(store).nodes(old(tx)@),
                t == st0.minimum_degree,
                st0.root == Some(root_id),
                h0 == index_height(v0, st0),
                hyp == old(self).ready(*old(store), old(tx)@),
                clear == index_clear(v0, st0, k0),
                go ==> hyp,
                hyp && !go ==> {
                    &&& !clear
                    &&& !is_main_key
                    &&& deleted_payload == lookup(v0, root_id, h0, k0)
                    &&& !pend
                    &&& started
                    &&& store.consistent(tx@)
                    &&& store.mode() is Write
                    &&& store.checked_out() == Set::<NodeId>::empty()
                    &&& self.state.root is Some
                    &&& lost_ok(
                        g,
                        store.nodes(tx@),
                        self.state,
                        hcur,
                        current_key@,
                        node_id,
                        hc,
                        clo,
                        chi,
                    )
                    &&& 1 <= hc < hcur
                    &&& hc <= fuel
                },
                go ==> {
                    &&& store.consistent(tx@)
                    &&& store.mode() is Write
                    &&& store.checked_out() == Set::<NodeId>::empty()
                    &&& self.state.root is Some
                    &&& tree_wf(v0, st0, h0)
                },
                hyp && !started ==> self.state.root == st0.root && node_id == root_id && hc == h0
                    && store.nodes(tx@) == v0 && !pend,
                hyp && started ==> self.state.root == deleted_root(v0, st0, k0) && (pend || hc < hcur
                    || self.state.root != st0.root),
                hyp ==> (self.state.root == st0.root ==> hcur == h0) && (self.state.root != st0.root
                    ==> hcur + 1 == h0 && (pend || hc < hcur || store.nodes(
                    tx@,
                )[node_id].pack.len() >= 2)),
                hyp ==> del_walk(
                    store.nodes(tx@),
                    node_id,
                    if pend {
                        1
                    } else {
                        hc
                    },
                    current_key@,
                    t,
                ) == del_walk(v0, root_id, h0, k0, t),
                go && !pend ==> {
                    &&& del_ok(store.nodes(tx@), self.state, hcur, k0, node_id, hc, clo, chi, clear)
                    &&& current_key@ == k0
                    &&& is_main_key ==> deleted_payload is None
                    &&& !is_main_key ==> deleted_payload == lookup(v0, root_id, h0, k0)
                    &&& same_lookups(
                        store.nodes(tx@),
                        self.state.root.unwrap(),
                        hcur,
                        v0,
                        root_id,
                        h0,
                        if is_main_key {
                            None
                        } else {
                            Some(k0)
                        },
                    )
                    &&& hc <= fuel
                },
                go && pend ==> {
                    &&& pending(
                        store.nodes(tx@),
                        self.state,
                        hcur,
                        current_key@,
                        node_id,
                        v0,
                        root_id,
                        h0,
                        k0,
                    )
                    &&& !is_main_key
                    &&& deleted_payload == lookup(v0, root_id, h0, k0)
                    &&& fuel >= 1
                },
            decreases fuel,
        {
            let ghost v = store.nodes(tx@);
            let ghost st = self.state;
            let ghost k = current_key@;
            let ghost at = Place { id: node_id, h: hcur, hc, lo: clo, hi: chi, clear };
            proof {
                if go && !pend {
                    lemma_cursor_facts(v, st, hcur, k, node_id, hc, clo, chi);
                    lemma_root_place(v, st, hcur, k, node_id, hc, clo, chi);
                }
                if hyp && !go {
                    lemma_cursor_facts(g, st, hcur, k, node_id, hc, clo, chi);
                    if hc >= 2 {
                        nxt = lemma_lost_step(g, v, st, hcur, k, node_id, hc, clo, chi);
                    } else {
                        lemma_lost_leaf(g, v, st, hcur, k, node_id, clo, chi);
                    }
                }
            }
            if fuel == 0 {
                return Err(Error::CorruptedIndex);
            }
            fuel = fuel - 1;
            let StoredNode { node, id, key: node_key, size } = store.get_node(tx, node_id)?;
            match node {
                Node::Leaf(keys) => {
                    let mut keys = keys;
                    // CLRS: 1
                    match keys.get(&current_key) {
                        Some(payload) => {
                            if is_main_key {
                                deleted_payload = Some(payload);
                            }
                            proof {
                                if go && !pend {
                                    lemma_del_leaf(v, st, hcur, k, id, clo, chi, clear);
                                }
                            }
                            keys.remove(&current_key);
                            if keys.len() == 0 {
                                // The node is empty, we can delete it
                                store.remove_node(id)?;
                                // Check if this was the root node
                                if self.state.root == Some(node_id) {
                                    self.state.root = None;
                                }
                                proof {
                                    if go {
                                        assert(store.checked_out() =~= Set::<NodeId>::empty());
                                        lemma_tree_height(store.nodes(tx@), self.state, 0);
                                        lemma_wf_shaped(store.nodes(tx@), self.state, 0);
                                        assert forall|q: Seq<u8>| q != k0 implies lookup(
                                            v0,
                                            root_id,
                                            h0,
                                            q,
                                        ) is None by {
                                            assert(lookup(v, id, 1, q) is None);
                                            assert(lookup(v, st.root.unwrap(), hcur, q) == lookup(
                                                v0,
                                                root_id,
                                                h0,
                                                q,
                                            ));
                                        }
                                        lemma_view_remove(v0, st0, store.nodes(tx@), self.state, k0);
                                    }
                                }
                            } else {
                                let node = Node::Leaf(keys);
                                proof {
                                    if hyp {
                                        assert(node@.children =~= v[id].children);
                                        assert(node@ == node_del(v[id], k));
                                    }
                                }
                                store.set_node(tx, StoredNode { node, id, key: node_key, size }, true)?;
                                proof {
                                    if go {
                                        assert(store.checked_out() =~= Set::<NodeId>::empty());
                                        lemma_tree_height(store.nodes(tx@), self.state, hcur);
                                        lemma_view_remove(v0, st0, store.nodes(tx@), self.state, k0);
                                        lemma_wf_shaped(store.nodes(tx@), self.state, hcur);
                                    }
                                    if hyp && !go {
                                        assert(store.checked_out() =~= Set::<NodeId>::empty());
                                    }
                                }
                            }
                            self.updated = true;
                        },
                        None => {
                            let node = Node::Leaf(keys);
                            store.set_node(tx, StoredNode { node, id, key: node_key, size }, false)?;
                            proof {
                                if go {
                                    assert(store.checked_out() =~= Set::<NodeId>::empty());
                                    lemma_cursor_miss(v, st, hcur, k, id, hc, clo, chi);
                                    lemma_tree_height(store.nodes(tx@), self.state, hcur);
                                    lemma_wf_shaped(store.nodes(tx@), self.state, hcur);
                                    lemma_view_remove(v0, st0, store.nodes(tx@), self.state, k0);
                                }
                            }
                        },
                    }
                    return Ok(deleted_payload);
                },
                Node::Internal(keys, children) => {
                    let mut keys = keys;
                    let mut children = children;
                    match keys.get(&current_key) {
                        Some(payload) => {
                            // CLRS: 2
                            if is_main_key {
                                deleted_payload = Some(payload);
                            }
                            proof {
                                if go && !pend {
                                    lemma_cursor_hit(v, st, hcur, k, id, hc, clo, chi);
                                    assert(deleted_payload == lookup(v0, root_id, h0, k0));
                                    if at.hc >= 3 && clear {
                                        lemma_parent_facts(v, st, k, at);
                                        let j = v[id].pack.pos(k);
                                        assert(0 <= j < v[id].pack.keys.len() && v[id].pack.keys[j]
                                            == k);
                                        crate::pack::lemma_located_found(v[id].pack, k, j);
                                        assert(hit_merges(v, id, k, t));
                                    }
                                    if at.hc >= 3 && !hit_merges(v, id, k, t) {
                                        lemma_skeleton_self(v, st, hcur);
                                        g = v;
                                        nxt = lemma_lost_step(v, v, st, hcur, k, id, hc, clo, chi);
                                        go = false;
                                    }
                                }
                            }
                            let next = self.deleted_from_internal(
                                tx,
                                store,
                                &mut keys,
                                &mut children,
                                current_key,
                                Ghost(at),
                            )?;
                            proof {
                                if hyp && !go {
                                    let v2 = store.nodes(tx@);
                                    let sn = hit_nodes(v, id, k, t);
                                    assert(settled(v2, keys@, children@, true, id) == sn);
                                    if keys@.len() == 0 {
                                        assert(!v2.remove(id).contains_key(id));
                                    }
                                }
                                if go {
                                    let v2 = store.nodes(tx@);
                                    let sn = hit_nodes(v, id, k, t);
                                    assert(settled(v2, keys@, children@, true, id) == sn);
                                    assert(v.contains_key(id));
                                    if keys@.len() == 0 {
                                        assert(!v2.remove(id).contains_key(id));
                                    } else {
                                        assert(v2.insert(id, v[id]).contains_key(id));
                                    }
                                    if v[id].pack.len() >= 2 {
                                        assert(sn.contains_key(id));
                                    }
                                }
                            }
                            if keys.len() == 0 {
                                // Only the root can run empty: the merged child takes its place
                                if self.state.root != Some(id) {
                                    return Err(Error::Unreachable);
                                }
                                store.remove_node(id)?;
                                self.state.root = Some(next.next_node);
                                proof {
                                    if go {
                                        hcur = (hcur - 1) as nat;
                                        if !pend && at.hc >= 3 {
                                            hc = hcur;
                                            clo = None;
                                            chi = None;
                                        }
                                    }
                                }
                            } else {
                                let node = Node::Internal(keys, children);
                                let ghost upper = node@;
                                store.set_node(tx, StoredNode { node, id, key: node_key, size }, true)?;
                                proof {
                                    if go && !pend && at.hc >= 3 {
                                        clo = lo_of(upper.pack, upper.pack.child_idx(k), clo);
                                        chi = hi_of(upper.pack, upper.pack.child_idx(k), chi);
                                        hc = (hc - 1) as nat;
                                    }
                                }
                            }
                            self.updated = true;
                            is_main_key = next.is_main_key;
                            current_key = next.key_to_delete;
                            node_id = next.next_node;
                            proof {
                                if hyp && !go {
                                    assert(store.checked_out() =~= Set::<NodeId>::empty());
                                    g = nxt.0;
                                    clo = nxt.1;
                                    chi = nxt.2;
                                    hc = (hc - 1) as nat;
                                }
                                if go {
                                    assert(store.checked_out() =~= Set::<NodeId>::empty());
                                    if pend || at.hc == 2 {
                                        pend = true;
                                    }
                                }
                                if go {
                                    assert(self.state.root == deleted_root(v0, st0, k0));
                                    assert(self.state.root == st0.root ==> hcur == h0);
                                    assert(self.state.root != st0.root ==> hcur + 1 == h0);
                                    assert(self.state.root != st0.root ==> (pend || hc < hcur
                                        || store.nodes(tx@)[node_id].pack.len() >= 2));
                                    assert(pend || hc < hcur || self.state.root != st0.root);
                                }
                                started = true;
                            }
                        },
                        None => {
                            // CLRS: 3
                            let next = self.deleted_traversal(
                                tx,
                                store,
                                &mut keys,
                                &mut children,
                                current_key,
                                is_main_key,
                                Ghost(at),
                            )?;
                            let ghost v2 = store.nodes(tx@);
                            proof {
                                if go {
                                    let sn = step_nodes(v, id, k, t);
                                    assert(settled(v2, keys@, children@, next.node_update, id) == sn);
                                    assert(v.contains_key(id));
                                    if keys@.len() == 0 {
                                        assert(!v2.remove(id).contains_key(id));
                                    } else {
                                        assert(v2.insert(id, v[id]).contains_key(id));
                                    }
                                    if v[id].pack.len() >= 2 {
                                        assert(sn.contains_key(id));
                                    }
                                }
                            }
                            if keys.len() == 0 {
                                // Only the root can run empty: the merged child takes its place
                                if self.state.root != Some(id) {
                                    return Err(Error::Unreachable);
                                }
                                store.remove_node(id)?;
                                self.state.root = Some(next.next_node);
                                self.updated = true;
                                proof {
                                    if go {
                                        hcur = (hcur - 1) as nat;
                                        hc = hcur;
                                        clo = None;
                                        chi = None;
                                    }
                                }
                            } else if next.node_update {
                                let node = Node::Internal(keys, children);
                                let ghost upper = node@;
                                store.set_node(tx, StoredNode { node, id, key: node_key, size }, true)?;
                                self.updated = true;
                                proof {
                                    if go {
                                        clo = lo_of(upper.pack, upper.pack.child_idx(k), clo);
                                        chi = hi_of(upper.pack, upper.pack.child_idx(k), chi);
                                        hc = (hc - 1) as nat;
                                    }
                                }
                            } else {
                                let node = Node::Internal(keys, children);
                                store.set_node(tx, StoredNode { node, id, key: node_key, size }, false)?;
                                proof {
                                    if go {
                                        clo = lo_of(v[id].pack, v[id].pack.child_idx(k), clo);
                                        chi = hi_of(v[id].pack, v[id].pack.child_idx(k), chi);
                                        hc = (hc - 1) as nat;
                                    }
                                }
                            }
                            is_main_key = next.is_main_key;
                            current_key = next.key_to_delete;
                            node_id = next.next_node;
                            proof {
                                if go {
                                    assert(store.checked_out() =~= Set::<NodeId>::empty());
                                }
                                if go {
                                    assert(self.state.root == deleted_root(v0, st0, k0));
                                    assert(self.state.root == st0.root ==> hcur == h0);
                                    assert(self.state.root != st0.root ==> hcur + 1 == h0);
                                    assert(self.state.root != st0.root ==> (pend || hc < hcur
                                        || store.nodes(tx@)[node_id].pack.len() >= 2));
                                    assert(pend || hc < hcur || self.state.root != st0.root);
                                }
                                started = true;
                            }
                        },
                    }
                },
            }
        }
    }

    /// The key to delete stands in an internal node, whose keys and children
    /// are `keys` and `children`. Replaces the key by its neighbour from the
    /// child to its left or to its right if one of them can spare a key, and
    /// else merges the two children around the key. `at` is the place of the
    /// node in the tree.
    #[verifier::rlimit(100)]
    #[verifier::spinoff_prover]
    fn deleted_from_internal<T: Transaction>(
        &mut self,
        tx: &mut T,
        store: &mut BTreeNodeStore<BK>,
        keys: &mut BK,
        children: &mut Vec<NodeId>,
        key_to_delete: Vec<u8>,
        Ghost(at): Ghost<Place>,
    ) -> (r: Result<NextStep, Error>)
        requires
            old(self).wf(),
            old(store).wf(),
            old(tx).wf(),
            old(keys).wf(),
        ensures
            final(self).wf(),
            *final(self) == *old(self),
            final(store).wf(),
            final(tx).wf(),
            final(keys).wf(),
            final(tx).reliable() == old(tx).reliable(),
            r is Ok ==> only_nodes_changed::<BK>(old(store).provider(), old(tx)@, final(tx)@),
            final(store).mode() == old(store).mode(),
            final(store).provider() == old(store).provider(),
            r matches Ok(n) ==> !n.is_main_key,
            old(store).consistent(old(tx)@) && old(store).mode() is Write && old(store).checked_out() == Set::<NodeId>::empty().insert(at.id) && old(keys)@ == old(store).nodes(old(tx)@)[at.id].pack && old(children)@ == old(store).nodes(old(tx)@)[at.id].children && hit_ready(
                old(store).nodes(old(tx)@),
                at.id,
                key_to_delete@,
                old(self).state().minimum_degree as int,
            ) ==> {
                &&& r matches Ok(n) ==> {
                    &&& final(store).consistent(final(tx)@)
                    &&& final(store).checked_out() == Set::<NodeId>::empty().insert(at.id)
                    &&& settled(
                        final(store).nodes(final(tx)@),
                        final(keys)@,
                        final(children)@,
                        true,
                        at.id,
                    ) == hit_nodes(
                        old(store).nodes(old(tx)@),
                        at.id,
                        key_to_delete@,
                        old(self).state().minimum_degree as int,
                    )
                    &&& n.next_node == hit_next(
                        old(store).nodes(old(tx)@),
                        at.id,
                        key_to_delete@,
                        old(self).state().minimum_degree as int,
                    )
                    &&& n.key_to_delete@ == hit_key(
                        old(store).nodes(old(tx)@),
                        at.id,
                        key_to_delete@,
                        old(self).state().minimum_degree as int,
                    )
                }
                &&& old(tx).reliable() ==> r is Ok
                &&& r matches Err(e) ==> e is Backend
            },
            old(store).consistent(old(tx)@) && old(store).mode() is Write && old(store).checked_out() == Set::<NodeId>::empty().insert(at.id) && del_ok(
                old(store).nodes(old(tx)@),
                old(self).state(),
                at.h,
                key_to_delete@,
                at.id,
                at.hc,
                at.lo,
                at.hi,
                at.clear,
            ) && at.hc >= 2 && old(keys)@ == old(store).nodes(old(tx)@)[at.id].pack && old(children)@ == old(store).nodes(old(tx)@)[at.id].children && old(keys)@.has(key_to_delete@) ==> {
                &&& r matches Ok(n) ==> {
                    &&& final(store).consistent(final(tx)@)
                    &&& final(store).checked_out() == Set::<NodeId>::empty().insert(at.id)
                    &&& !n.is_main_key
                    &&& at.hc == 2 ==> after_swap(
                        final(store).nodes(final(tx)@),
                        final(keys)@,
                        final(children)@,
                        n.next_node,
                        n.key_to_delete@,
                        old(store).nodes(old(tx)@),
                        old(self).state(),
                        key_to_delete@,
                        at,
                    )
                    &&& settled(
                        final(store).nodes(final(tx)@),
                        final(keys)@,
                        final(children)@,
                        true,
                        at.id,
                    ) == hit_nodes(
                        old(store).nodes(old(tx)@),
                        at.id,
                        key_to_delete@,
                        old(self).state().minimum_degree as int,
                    )
                    &&& n.next_node == hit_next(
                        old(store).nodes(old(tx)@),
                        at.id,
                        key_to_delete@,
                        old(self).state().minimum_degree as int,
                    )
                    &&& n.key_to_delete@ == hit_key(
                        old(store).nodes(old(tx)@),
                        at.id,
                        key_to_delete@,
                        old(self).state().minimum_degree as int,
                    )
                    &&& at.hc >= 3 && hit_merges(
                        old(store).nodes(old(tx)@),
                        at.id,
                        key_to_delete@,
                        old(self).state().minimum_degree as int,
                    ) ==> n.key_to_delete@ == key_to_delete@ && after_step(
                        final(store).nodes(final(tx)@),
                        final(keys)@,
                        final(children)@,
                        n.next_node,
                        true,
                        old(store).nodes(old(tx)@),
                        old(self).state(),
                        key_to_delete@,
                        at,
                        Some(key_to_delete@),
                    )
                }
                &&& old(tx).reliable() ==> r is Ok
                &&& r matches Err(e) ==> e is Backend
            },
    {
        let ghost v = store.nodes(tx@);
        let ghost st = self.state;
        let ghost k = key_to_delete@;
        let ghost p = v[at.id];
        let ghost hyp = store.consistent(tx@) && store.mode() is Write && store.checked_out()
            == Set::<NodeId>::empty().insert(at.id) && del_ok(
            v,
            st,
            at.h,
            k,
            at.id,
            at.hc,
            at.lo,
            at.hi,
            at.clear,
        ) && at.hc >= 2 && keys@ == p.pack && children@ == p.children && keys@.has(k);
        let ghost j = p.pack.pos(k);
        let ghost loc = store.consistent(tx@) && store.mode() is Write && store.checked_out()
            == Set::<NodeId>::empty().insert(at.id) && keys@ == p.pack && children@ == p.children
            && hit_ready(v, at.id, k, st.minimum_degree as int);
        let after_idx = keys.get_child_idx(&key_to_delete);
        proof {
            if hyp {
                lemma_parent_facts(v, st, k, at);
                assert(0 <= j < p.pack.keys.len() && p.pack.keys[j] == k);
                crate::pack::lemma_located_found(p.pack, k, j);
                lemma_child_facts(v, st, k, at, j);
                lemma_child_facts(v, st, k, at, j + 1);
                lemma_root_place(v, st, at.h, k, at.id, at.hc, at.lo, at.hi);
                assert(loc);
            }
            if loc {
                assert(0 <= j < p.pack.keys.len() && p.pack.keys[j] == k);
                crate::pack::lemma_located_found(p.pack, k, j);
                p.pack.lemma_remove_wf(k);
            }
        }
        if after_idx == 0 || after_idx >= children.len() {
            return Err(Error::CorruptedIndex);
        }
        let left_idx = after_idx - 1;
        let left_id = children[left_idx];
        let mut left_node = store.get_node(tx, left_id)?;
        if left_node.node.keys().len() as u64 >= self.state.minimum_degree as u64 {
            // CLRS: 2a -> left_node is named `y` in the book
            match left_node.node.keys().get_last_key() {
                Some((key_prim, payload_prim)) => {
                    proof {
                        if hyp && at.hc == 2 {
                            lemma_del_swap_left(v, st, at.h, k, at.id, at.lo, at.hi, at.clear);
                        }
                    }
                    keys.remove(&key_to_delete);
                    keys.insert(copy_bytes(&key_prim), payload_prim);
                    store.set_node(tx, left_node, true)?;
                    proof {
                        if loc {
                            assert(store.nodes(tx@) =~= v);
                            assert(store.checked_out() =~= Set::<NodeId>::empty().insert(at.id));
                            let upper = NodeModel { leaf: false, pack: keys@, children: children@ };
                            assert(upper == node_reseat(p, j, key_prim@, payload_prim));
                            let w = v.insert(at.id, upper);
                            assert(w.insert(left_id, node_del(w[left_id], key_prim@)) =~= v.insert(
                                at.id,
                                upper,
                            ).insert(left_id, node_del(v[left_id], key_prim@)));
                        }
                    }
                    return Ok(
                        NextStep {
                            node_update: true,
                            is_main_key: false,
                            key_to_delete: key_prim,
                            next_node: left_id,
                        },
                    );
                },
                None => {},
            }
        }
        let right_idx = after_idx;
        let right_id = children[right_idx];
        let right_node = store.get_node(tx, right_id)?;
        if right_node.node.keys().len() as u64 >= self.state.minimum_degree as u64 {
            // CLRS: 2b -> right_node is name `z` in the book
            match right_node.node.keys().get_first_key() {
                Some((key_prim, payload_prim)) => {
                    proof {
                        if hyp && at.hc == 2 {
                            lemma_del_swap_right(v, st, at.h, k, at.id, at.lo, at.hi, at.clear);
                        }
                    }
                    keys.remove(&key_to_delete);
                    keys.insert(copy_bytes(&key_prim), payload_prim);
                    store.set_node(tx, left_node, false)?;
                    store.set_node(tx, right_node, true)?;
                    proof {
                        if loc {
                            assert(store.nodes(tx@) =~= v);
                            assert(store.checked_out() =~= Set::<NodeId>::empty().insert(at.id));
                            let upper = NodeModel { leaf: false, pack: keys@, children: children@ };
                            assert(upper == node_reseat(p, j, key_prim@, payload_prim));
                            let w = v.insert(at.id, upper);
                            assert(w.insert(right_id, node_del(w[right_id], key_prim@)) =~= v.insert(
                                at.id,
                                upper,
                            ).insert(right_id, node_del(v[right_id], key_prim@)));
                        }
                    }
                    return Ok(
                        NextStep {
                            node_update: true,
                            is_main_key: false,
                            key_to_delete: key_prim,
                            next_node: right_id,
                        },
                    );
                },
                None => {},
            }
        }
        // CLRS: 2c
        // Merge children
        // The payload is set to 0. The value does not matter, as the key will be deleted after anyway.
        proof {
            if hyp {
                if at.hc == 2 {
                    Self::lemma_merge_swap(v, st, k, at);
                } else {
                    Self::lemma_merge_down(v, st, k, at);
                }
            }
        }
        let StoredNode { node: right, id: _, key: _, size: _ } = right_node;
        left_node.node.append(copy_bytes(&key_to_delete), 0, right)?;
        store.set_node(tx, left_node, true)?;
        store.remove_node(right_id)?;
        keys.remove(&key_to_delete);
        children.remove(right_idx);
        proof {
            if loc {
                assert(store.checked_out() =~= Set::<NodeId>::empty().insert(at.id));
                let upper = NodeModel { leaf: false, pack: keys@, children: children@ };
                assert(upper == node_unseat(p, j));
                if p.pack.len() >= 2 {
                    assert(store.nodes(tx@).insert(at.id, upper) =~= join_nodes(v, at.id, j, 0));
                } else {
                    assert(store.nodes(tx@).remove(at.id) =~= join_root_nodes(v, at.id, 0));
                }
            }
        }
        Ok(
            NextStep {
                node_update: true,
                is_main_key: false,
                key_to_delete,
                next_node: left_id,
            },
        )
    }

    /// After the merge of the two leaves around the key to delete, through
    /// that key, the merged leaf has the key, and without it the tree is
    /// well formed.
    proof fn lemma_merge_swap(v: crate::model::Nodes, st: State, k: Seq<u8>, at: Place)
        requires
            del_ok(v, st, at.h, k, at.id, at.hc, at.lo, at.hi, at.clear),
            at.hc == 2,
            v[at.id].pack.has(k),
            v[v[at.id].children[v[at.id].pack.pos(k)]].pack.len() < st.minimum_degree,
            v[v[at.id].children[v[at.id].pack.pos(k) + 1]].pack.len() < st.minimum_degree,
        ensures
            after_swap(
                v.insert(
                    v[at.id].children[v[at.id].pack.pos(k)],
                    node_merge(
                        v[v[at.id].children[v[at.id].pack.pos(k)]],
                        k,
                        0,
                        v[v[at.id].children[v[at.id].pack.pos(k) + 1]],
                    ),
                ).remove(v[at.id].children[v[at.id].pack.pos(k) + 1]),
                v[at.id].pack.remove(k),
                v[at.id].children.remove(v[at.id].pack.pos(k) + 1),
                v[at.id].children[v[at.id].pack.pos(k)],
                k,
                v,
                st,
                k,
                at,
            ),
    {
        let p = v[at.id];
        let j = p.pack.pos(k);
        assert(0 <= j < p.pack.keys.len() && p.pack.keys[j] == k);
        lemma_parent_facts(v, st, k, at);
        lemma_child_facts(v, st, k, at, j);
        lemma_child_facts(v, st, k, at, j + 1);
        lemma_root_place(v, st, at.h, k, at.id, at.hc, at.lo, at.hi);
        crate::pack::lemma_child_idx_remove(p.pack, j, k);
        if j > 0 {
            assert(crate::order::key_lt(p.pack.keys[j - 1], p.pack.keys[j]));
        }
        if j + 1 < p.pack.keys.len() {
            assert(crate::order::key_lt(p.pack.keys[j], p.pack.keys[j + 1]));
        }
        let a = p.children[j];
        let v2 = v.insert(a, node_merge(v[a], k, 0, v[p.children[j + 1]])).remove(p.children[j + 1]);
        let upper = NodeModel { leaf: false, pack: p.pack.remove(k), children: p.children.remove(j + 1) };
        assert(upper == node_unseat(p, j));
        if p.pack.len() >= 2 {
            lemma_del_join(v, st, at.h, k, at.id, at.hc, at.lo, at.hi, j, 0, at.clear);
            let w = join_nodes(v, at.id, j, 0);
            assert(v2.insert(at.id, upper) == w);
            let i2 = w[at.id].pack.child_idx(k);
            lemma_cursor_facts(
                w,
                st,
                at.h,
                k,
                a,
                1,
                lo_of(w[at.id].pack, i2, at.lo),
                hi_of(w[at.id].pack, i2, at.hi),
            );
            lemma_del_leaf(
                w,
                st,
                at.h,
                k,
                a,
                lo_of(w[at.id].pack, i2, at.lo),
                hi_of(w[at.id].pack, i2, at.hi),
                at.clear,
            );
        } else {
            lemma_del_join_root(v, st, at.h, k, at.id, 0, at.clear);
            let w = join_root_nodes(v, at.id, 0);
            assert(v2.remove(at.id) == w);
            let st2 = State { root: Some(a), ..st };
            lemma_cursor_facts(w, st2, (at.h - 1) as nat, k, a, 1, None, None);
            lemma_del_leaf(w, st2, (at.h - 1) as nat, k, a, None, None, at.clear);
        }
    }

    /// After the merge of the two internal nodes around the key to delete,
    /// through that key, the walk can go on to the merged node, which has the
    /// key: under the node it came from, or, where that was a root with one
    /// key, as the new root.
    proof fn lemma_merge_down(v: crate::model::Nodes, st: State, k: Seq<u8>, at: Place)
        requires
            del_ok(v, st, at.h, k, at.id, at.hc, at.lo, at.hi, at.clear),
            at.hc >= 3,
            v[at.id].pack.has(k),
            v[v[at.id].children[v[at.id].pack.pos(k)]].pack.len() < st.minimum_degree,
            v[v[at.id].children[v[at.id].pack.pos(k) + 1]].pack.len() < st.minimum_degree,
        ensures
            after_step(
                v.insert(
                    v[at.id].children[v[at.id].pack.pos(k)],
                    node_merge(
                        v[v[at.id].children[v[at.id].pack.pos(k)]],
                        k,
                        0,
                        v[v[at.id].children[v[at.id].pack.pos(k) + 1]],
                    ),
                ).remove(v[at.id].children[v[at.id].pack.pos(k) + 1]),
                v[at.id].pack.remove(k),
                v[at.id].children.remove(v[at.id].pack.pos(k) + 1),
                v[at.id].children[v[at.id].pack.pos(k)],
                true,
                v,
                st,
                k,
                at,
                Some(k),
            ),
    {
        let p = v[at.id];
        let j = p.pack.pos(k);
        assert(0 <= j < p.pack.keys.len() && p.pack.keys[j] == k);
        lemma_parent_facts(v, st, k, at);
        crate::pack::lemma_located_found(p.pack, k, j);
        lemma_child_facts(v, st, k, at, j);
        lemma_child_facts(v, st, k, at, j + 1);
        lemma_root_place(v, st, at.h, k, at.id, at.hc, at.lo, at.hi);
        crate::pack::lemma_child_idx_remove(p.pack, j, k);
        if j > 0 {
            assert(crate::order::key_lt(p.pack.keys[j - 1], p.pack.keys[j]));
        }
        if j + 1 < p.pack.keys.len() {
            assert(crate::order::key_lt(p.pack.keys[j], p.pack.keys[j + 1]));
        }
        let a = p.children[j];
        let v2 = v.insert(a, node_merge(v[a], k, 0, v[p.children[j + 1]])).remove(p.children[j + 1]);
        let upper = NodeModel {
            leaf: false,
            pack: p.pack.remove(k),
            children: p.children.remove(j + 1),
        };
        assert(upper == node_unseat(p, j));
        if p.pack.len() >= 2 {
            lemma_del_join(v, st, at.h, k, at.id, at.hc, at.lo, at.hi, j, 0, at.clear);
            assert(v2.insert(at.id, upper) == join_nodes(v, at.id, j, 0));
        } else {
            lemma_del_join_root(v, st, at.h, k, at.id, 0, at.clear);
            assert(v2.remove(at.id) == join_root_nodes(v, at.id, 0));
        }
    }

    /// The key to delete is not in the internal node whose keys and children
    /// are `keys` and `children`. Makes sure that the child to go on with has
    /// a key to spare: it takes one from the sibling to its right or else
    /// from the sibling to its left, or else is merged with the sibling to
    /// its right or else with the one to its left. `at` is the place of the
    /// node in the tree.
    #[verifier::rlimit(100)]
    #[verifier::spinoff_prover]
    fn deleted_traversal<T: Transaction>(
        &mut self,
        tx: &mut T,
        store: &mut BTreeNodeStore<BK>,
        keys: &mut BK,
        children: &mut Vec<NodeId>,
        key_to_delete: Vec<u8>,
        is_main_key: bool,
        Ghost(at): Ghost<Place>,
    ) -> (r: Result<NextStep, Error>)
        requires
            old(self).wf(),
            old(store).wf(),
            old(tx).wf(),
            old(keys).wf(),
        ensures
            final(self).wf(),
            *final(self) == *old(self),
            final(store).wf(),
            final(tx).wf(),
            final(keys).wf(),
            final(tx).reliable() == old(tx).reliable(),
            r is Ok ==> only_nodes_changed::<BK>(old(store).provider(), old(tx)@, final(tx)@),
            final(store).mode() == old(store).mode(),
            final(store).provider() == old(store).provider(),
            r matches Ok(n) ==> n.is_main_key == is_main_key,
            old(store).consistent(old(tx)@) && old(store).mode() is Write && old(store).checked_out() == Set::<NodeId>::empty().insert(at.id) && del_ok(
                old(store).nodes(old(tx)@),
                old(self).state(),
                at.h,
                key_to_delete@,
                at.id,
                at.hc,
                at.lo,
                at.hi,
                at.clear,
            ) && at.hc >= 2 && old(keys)@ == old(store).nodes(old(tx)@)[at.id].pack && old(children)@ == old(store).nodes(old(tx)@)[at.id].children && !old(keys)@.has(key_to_delete@) ==> {
                &&& r matches Ok(n) ==> {
                    &&& final(store).consistent(final(tx)@)
                    &&& final(store).checked_out() == Set::<NodeId>::empty().insert(at.id)
                    &&& n.key_to_delete@ == key_to_delete@
                    &&& n.is_main_key == is_main_key
                    &&& after_step(
                        final(store).nodes(final(tx)@),
                        final(keys)@,
                        final(children)@,
                        n.next_node,
                        n.node_update,
                        old(store).nodes(old(tx)@),
                        old(self).state(),
                        key_to_delete@,
                        at,
                        None,
                    )
                    &&& settled(
                        final(store).nodes(final(tx)@),
                        final(keys)@,
                        final(children)@,
                        n.node_update,
                        at.id,
                    ) == step_nodes(
                        old(store).nodes(old(tx)@),
                        at.id,
                        key_to_delete@,
                        old(self).state().minimum_degree as int,
                    )
                    &&& n.next_node == step_next(
                        old(store).nodes(old(tx)@),
                        at.id,
                        key_to_delete@,
                        old(self).state().minimum_degree as int,
                    )
                    &&& n.node_update == step_changes(
                        old(store).nodes(old(tx)@),
                        at.id,
                        key_to_delete@,
                        old(self).state().minimum_degree as int,
                    )
                }
                &&& old(tx).reliable() ==> r is Ok
                &&& r matches Err(e) ==> e is Backend
            },
    {
        let ghost v = store.nodes(tx@);
        let ghost st = self.state;
        let ghost k = key_to_delete@;
        let ghost p = v[at.id];
        let ghost hyp = store.consistent(tx@) && store.mode() is Write && store.checked_out()
            == Set::<NodeId>::empty().insert(at.id) && del_ok(
            v,
            st,
            at.h,
            k,
            at.id,
            at.hc,
            at.lo,
            at.hi,
            at.clear,
        ) && at.hc >= 2 && keys@ == p.pack && children@ == p.children && !keys@.has(k);
        let ghost t = st.minimum_degree as int;
        // CLRS 3a
        let child_idx = keys.get_child_idx(&key_to_delete);
        proof {
            if hyp {
                lemma_cursor_gap(v, st, at.h, k, at.id, at.hc, at.lo, at.hi);
                lemma_child_facts(v, st, k, at, child_idx as int);
                lemma_root_place(v, st, at.h, k, at.id, at.hc, at.lo, at.hi);
            }
        }
        if child_idx >= children.len() {
            return Err(Error::CorruptedIndex);
        }
        let child_id = children[child_idx];
        let child_stored_node = store.get_node(tx, child_id)?;
        let degree = self.state.minimum_degree as u64;
        if (child_stored_node.node.keys().len() as u64) < degree {
            let has_right = child_idx < children.len() - 1;
            let has_left = child_idx > 0;
            let mut right_sibling: Option<StoredNode<BK>> = None;
            if has_right {
                // right child (successor)
                proof {
                    if hyp {
                        lemma_child_facts(v, st, k, at, child_idx + 1);
                    }
                }
                let right = store.get_node(tx, children[child_idx + 1])?;
                if right.node.keys().len() as u64 >= degree {
                    proof {
                        if hyp {
                            lemma_del_rotate_right(v, st, at.h, k, at.id, at.hc, at.lo, at.hi, at.clear);
                        }
                    }
                    let ghost cid = child_stored_node.id;
                    let ghost sid = right.id;
                    let r = Self::delete_adjust_successor(
                        tx,
                        store,
                        keys,
                        child_idx,
                        key_to_delete,
                        is_main_key,
                        child_stored_node,
                        right,
                    );
                    proof {
                        if hyp && r is Ok {
                            let upper = NodeModel { leaf: false, pack: keys@, children: children@ };
                            assert(upper == node_reseat(p, child_idx as int, v[sid].pack.keys[0], v[sid].pack.payloads[0]));
                            assert(store.nodes(tx@).insert(at.id, upper) == rotate_right_nodes(
                                v,
                                at.id,
                                child_idx as int,
                            ));
                            assert(store.checked_out() =~= Set::<NodeId>::empty().insert(at.id));
                        }
                    }
                    return r;
                }
                right_sibling = Some(right);
            }
            if has_left {
                // left child (predecessor)
                proof {
                    if hyp {
                        lemma_child_facts(v, st, k, at, child_idx - 1);
                    }
                }
                let left = store.get_node(tx, children[child_idx - 1])?;
                if left.node.keys().len() as u64 >= degree {
                    match right_sibling {
                        Some(right) => {
                            store.set_node(tx, right, false)?;
                        },
                        None => {},
                    }
                    proof {
                        if hyp {
                            lemma_del_rotate_left(v, st, at.h, k, at.id, at.hc, at.lo, at.hi, at.clear);
                        }
                    }
                    let ghost lid = left.id;
                    let r = Self::delete_adjust_predecessor(
                        tx,
                        store,
                        keys,
                        child_idx - 1,
                        key_to_delete,
                        is_main_key,
                        child_stored_node,
                        left,
                    );
                    proof {
                        if hyp && r is Ok {
                            let upper = NodeModel { leaf: false, pack: keys@, children: children@ };
                            assert(upper == node_reseat(
                                p,
                                child_idx - 1,
                                v[lid].pack.keys.last(),
                                v[lid].pack.payloads.last(),
                            ));
                            assert(store.nodes(tx@).insert(at.id, upper) == rotate_left_nodes(
                                v,
                                at.id,
                                child_idx as int,
                            ));
                            assert(store.checked_out() =~= Set::<NodeId>::empty().insert(at.id));
                        }
                    }
                    return r;
                }
                match right_sibling {
                    Some(right) => {
                        // CLRS 3b successor
                        store.set_node(tx, left, false)?;
                        proof {
                            if hyp {
                                Self::lemma_merge_step(v, st, k, at, child_idx as int);
                            }
                        }
                        let r = Self::merge_nodes(
                            tx,
                            store,
                            keys,
                            children,
                            child_idx,
                            key_to_delete,
                            is_main_key,
                            child_stored_node,
                            right,
                        );
                        proof {
                            if hyp && r is Ok {
                                let upper = NodeModel { leaf: false, pack: keys@, children: children@ };
                                assert(upper == node_unseat(p, child_idx as int));
                                assert(store.checked_out() =~= Set::<NodeId>::empty().insert(at.id));
                            }
                        }
                        return r;
                    },
                    None => {
                        // CLRS 3b predecessor
                        proof {
                            if hyp {
                                Self::lemma_merge_step(v, st, k, at, child_idx - 1);
                            }
                        }
                        let r = Self::merge_nodes(
                            tx,
                            store,
                            keys,
                            children,
                            child_idx - 1,
                            key_to_delete,
                            is_main_key,
                            left,
                            child_stored_node,
                        );
                        proof {
                            if hyp && r is Ok {
                                let upper = NodeModel { leaf: false, pack: keys@, children: children@ };
                                assert(upper == node_unseat(p, child_idx - 1));
                                assert(store.checked_out() =~= Set::<NodeId>::empty().insert(at.id));
                            }
                        }
                        return r;
                    },
                }
            }
            match right_sibling {
                Some(right) => {
                    // CLRS 3b successor
                    proof {
                        if hyp {
                            Self::lemma_merge_step(v, st, k, at, child_idx as int);
                        }
                    }
                    let r = Self::merge_nodes(
                        tx,
                        store,
                        keys,
                        children,
                        child_idx,
                        key_to_delete,
                        is_main_key,
                        child_stored_node,
                        right,
                    );
                    proof {
                        if hyp && r is Ok {
                            let upper = NodeModel { leaf: false, pack: keys@, children: children@ };
                            assert(upper == node_unseat(p, child_idx as int));
                            assert(store.checked_out() =~= Set::<NodeId>::empty().insert(at.id));
                        }
                    }
                    return r;
                },
                None => {},
            }
        }
        store.set_node(tx, child_stored_node, false)?;
        proof {
            if hyp {
                lemma_del_down(v, st, at.h, k, at.id, at.hc, at.lo, at.hi, at.clear);
                lemma_cursor_down(v, st, at.h, k, at.id, at.hc, at.lo, at.hi);
                assert(store.checked_out() =~= Set::<NodeId>::empty().insert(at.id));
            }
        }
        Ok(NextStep { node_update: false, is_main_key, key_to_delete, next_node: child_id })
    }

    /// After the merge of the children at `j` and `j + 1` of the node the
    /// walk stands at, through its key at `j` with the payload it has, the
    /// walk can go on: to the merged child under the node, or, where the node
    /// was a root with one key, to the merged child as the new root.
    proof fn lemma_merge_step(v: crate::model::Nodes, st: State, k: Seq<u8>, at: Place, j: int)
        requires
            del_ok(v, st, at.h, k, at.id, at.hc, at.lo, at.hi, at.clear),
            at.hc >= 2,
            !v[at.id].pack.has(k),
            j == v[at.id].pack.child_idx(k) || j == v[at.id].pack.child_idx(k) - 1,
            0 <= j < v[at.id].pack.len(),
            v[v[at.id].children[j]].pack.len() < st.minimum_degree,
            v[v[at.id].children[j + 1]].pack.len() < st.minimum_degree,
        ensures
            after_step(
                v.insert(
                    v[at.id].children[j],
                    node_merge(
                        v[v[at.id].children[j]],
                        v[at.id].pack.keys[j],
                        v[at.id].pack.payloads[j],
                        v[v[at.id].children[j + 1]],
                    ),
                ).remove(v[at.id].children[j + 1]),
                v[at.id].pack.remove(v[at.id].pack.keys[j]),
                v[at.id].children.remove(j + 1),
                v[at.id].children[j],
                true,
                v,
                st,
                k,
                at,
                None,
            ),
    {
        let p = v[at.id];
        let dp = p.pack.payloads[j];
        lemma_cursor_gap(v, st, at.h, k, at.id, at.hc, at.lo, at.hi);
        lemma_child_facts(v, st, k, at, j);
        lemma_child_facts(v, st, k, at, j + 1);
        lemma_root_place(v, st, at.h, k, at.id, at.hc, at.lo, at.hi);
        crate::pack::lemma_child_idx_remove(p.pack, j, k);
        let v2 = v.insert(
            p.children[j],
            node_merge(v[p.children[j]], p.pack.keys[j], dp, v[p.children[j + 1]]),
        ).remove(p.children[j + 1]);
        let upper = NodeModel {
            leaf: false,
            pack: p.pack.remove(p.pack.keys[j]),
            children: p.children.remove(j + 1),
        };
        assert(upper == node_unseat(p, j));
        if p.pack.len() >= 2 {
            lemma_del_join(v, st, at.h, k, at.id, at.hc, at.lo, at.hi, j, dp, at.clear);
            assert(v2.insert(at.id, upper) == join_nodes(v, at.id, j, dp));
        } else {
            lemma_del_join_root(v, st, at.h, k, at.id, dp, at.clear);
            assert(v2.remove(at.id) == join_root_nodes(v, at.id, dp));
        }
    }

    /// Gives the child at `child_idx` one more key: the key of the parent
    /// above it comes down to its end, and the first key of the sibling to its
    /// right goes up in its place, with the first child of that sibling
    /// moving over. The two children must be of one kind, and the sibling
    /// must have a key: else the result is `CorruptedIndex`.
    fn delete_adjust_successor<T: Transaction>(
        tx: &mut T,
        store: &mut BTreeNodeStore<BK>,
        keys: &mut BK,
        child_idx: usize,
        key_to_delete: Vec<u8>,
        is_main_key: bool,
        child_stored_node: StoredNode<BK>,
        right_child_stored_node: StoredNode<BK>,
    ) -> (r: Result<NextStep, Error>)
        requires
            old(store).wf(),
            old(tx).wf(),
            old(keys).wf(),
            child_stored_node.node.wf(),
            right_child_stored_node.node.wf(),
        ensures
            final(store).wf(),
            final(tx).wf(),
            final(keys).wf(),
            final(tx).reliable() == old(tx).reliable(),
            r is Ok ==> only_nodes_changed::<BK>(old(store).provider(), old(tx)@, final(tx)@),
            final(store).mode() == old(store).mode(),
            final(store).provider() == old(store).provider(),
            r matches Ok(n) ==> n.is_main_key == is_main_key,
            old(store).consistent(old(tx)@) && old(store).mode() is Write && child_idx < old(keys)@.len() && right_child_stored_node.node@.pack.len() >= 1
                && child_stored_node.node@.leaf == right_child_stored_node.node@.leaf && (
            !right_child_stored_node.node@.leaf ==> right_child_stored_node.node@.children.len()
                >= 1) ==> {
                &&& r matches Ok(n) ==> {
                    &&& final(store).consistent(final(tx)@)
                    &&& final(store).nodes(final(tx)@) == old(store).nodes(old(tx)@).insert(
                        child_stored_node.id,
                        node_graft_last(
                            child_stored_node.node@,
                            old(keys)@.keys[child_idx as int],
                            old(keys)@.payloads[child_idx as int],
                            right_child_stored_node.node@.children[0],
                        ),
                    ).insert(right_child_stored_node.id, node_take_first(right_child_stored_node.node@))
                    &&& final(keys)@ == old(keys)@.remove(old(keys)@.keys[child_idx as int]).insert(
                        right_child_stored_node.node@.pack.keys[0],
                        right_child_stored_node.node@.pack.payloads[0],
                    )
                    &&& n.next_node == child_stored_node.id
                    &&& n.node_update
                    &&& n.is_main_key == is_main_key
                    &&& n.key_to_delete@ == key_to_delete@
                    &&& final(store).checked_out() == old(store).checked_out().remove(
                        child_stored_node.id,
                    ).remove(right_child_stored_node.id)
                }
                &&& old(tx).reliable() ==> r is Ok
                &&& r matches Err(e) ==> e is Backend
            },
    {
        let StoredNode { node: child, id: child_id, key: child_key, size: child_size } =
            child_stored_node;
        let StoredNode { node: right, id: right_id, key: right_key, size: right_size } =
            right_child_stored_node;
        let ghost k0 = keys@;
        proof {
            keys.lemma_wf();
            right.lemma_wf();
        }
        let (ascending_key, ascending_payload) = match right.keys().get_first_key() {
            Some(first) => first,
            None => {
                return Err(Error::CorruptedIndex);
            },
        };
        let descending_key = match keys.get_key(child_idx) {
            Some(key) => key,
            None => {
                return Err(Error::CorruptedIndex);
            },
        };
        proof {
            lemma_pos_is(k0, k0.keys[child_idx as int], child_idx as int);
        }
        let (child, right) = match (child, right) {
            (Node::Internal(child_keys, child_children), Node::Internal(right_keys, right_children)) => {
                let mut child_keys = child_keys;
                let mut child_children = child_children;
                let mut right_keys = right_keys;
                let mut right_children = right_children;
                if right_children.len() == 0 {
                    return Err(Error::CorruptedIndex);
                }
                right_keys.remove(&ascending_key);
                let descending_payload = match keys.remove(&descending_key) {
                    Some(payload) => payload,
                    None => {
                        return Err(Error::CorruptedIndex);
                    },
                };
                child_keys.insert(descending_key, descending_payload);
                keys.insert(ascending_key, ascending_payload);
                let moved = right_children.remove(0);
                child_children.push(moved);
                (Node::Internal(child_keys, child_children), Node::Internal(right_keys, right_children))
            },
            (Node::Leaf(child_keys), Node::Leaf(right_keys)) => {
                let mut child_keys = child_keys;
                let mut right_keys = right_keys;
                right_keys.remove(&ascending_key);
                let descending_payload = match keys.remove(&descending_key) {
                    Some(payload) => payload,
                    None => {
                        return Err(Error::CorruptedIndex);
                    },
                };
                child_keys.insert(descending_key, descending_payload);
                keys.insert(ascending_key, ascending_payload);
                (Node::Leaf(child_keys), Node::Leaf(right_keys))
            },
            _ => {
                return Err(Error::CorruptedIndex);
            },
        };
        let child = StoredNode { node: child, id: child_id, key: child_key, size: child_size };
        store.set_node(tx, child, true)?;
        let right = StoredNode { node: right, id: right_id, key: right_key, size: right_size };
        store.set_node(tx, right, true)?;
        Ok(NextStep { node_update: true, is_main_key, key_to_delete, next_node: child_id })
    }

    /// Gives the child behind the key at `child_idx` one more key: that key
    /// of the parent comes down to its front, and the last key of the sibling
    /// to its left goes up in its place, with the last child of that sibling
    /// moving over. The two children must be of one kind, and the sibling
    /// must have a key: else the result is `CorruptedIndex`.
    fn delete_adjust_predecessor<T: Transaction>(
        tx: &mut T,
        store: &mut BTreeNodeStore<BK>,
        keys: &mut BK,
        child_idx: usize,
        key_to_delete: Vec<u8>,
        is_main_key: bool,
        child_stored_node: StoredNode<BK>,
        left_child_stored_node: StoredNode<BK>,
    ) -> (r: Result<NextStep, Error>)
        requires
            old(store).wf(),
            old(tx).wf(),
            old(keys).wf(),
            child_stored_node.node.wf(),
            left_child_stored_node.node.wf(),
        ensures
            final(store).wf(),
            final(tx).wf(),
            final(keys).wf(),
            final(tx).reliable() == old(tx).reliable(),
            r is Ok ==> only_nodes_changed::<BK>(old(store).provider(), old(tx)@, final(tx)@),
            final(store).mode() == old(store).mode(),
            final(store).provider() == old(store).provider(),
            r matches Ok(n) ==> n.is_main_key == is_main_key,
            old(store).consistent(old(tx)@) && old(store).mode() is Write && child_idx < old(keys)@.len() && left_child_stored_node.node@.pack.len() >= 1
                && child_stored_node.node@.leaf == left_child_stored_node.node@.leaf && (
            !left_child_stored_node.node@.leaf ==> left_child_stored_node.node@.children.len()
                >= 1) ==> {
                &&& r matches Ok(n) ==> {
                    &&& final(store).consistent(final(tx)@)
                    &&& final(store).nodes(final(tx)@) == old(store).nodes(old(tx)@).insert(
                        child_stored_node.id,
                        node_graft_first(
                            child_stored_node.node@,
                            old(keys)@.keys[child_idx as int],
                            old(keys)@.payloads[child_idx as int],
                            left_child_stored_node.node@.children.last(),
                        ),
                    ).insert(left_child_stored_node.id, node_take_last(left_child_stored_node.node@))
                    &&& final(keys)@ == old(keys)@.remove(old(keys)@.keys[child_idx as int]).insert(
                        left_child_stored_node.node@.pack.keys.last(),
                        left_child_stored_node.node@.pack.payloads.last(),
                    )
                    &&& n.next_node == child_stored_node.id
                    &&& n.node_update
                    &&& n.is_main_key == is_main_key
                    &&& n.key_to_delete@ == key_to_delete@
                    &&& final(store).checked_out() == old(store).checked_out().remove(
                        child_stored_node.id,
                    ).remove(left_child_stored_node.id)
                }
                &&& old(tx).reliable() ==> r is Ok
                &&& r matches Err(e) ==> e is Backend
            },
    {
        let StoredNode { node: child, id: child_id, key: child_key, size: child_size } =
            child_stored_node;
        let StoredNode { node: left, id: left_id, key: left_key, size: left_size } =
            left_child_stored_node;
        let ghost k0 = keys@;
        proof {
            keys.lemma_wf();
            left.lemma_wf();
        }
        let (ascending_key, ascending_payload) = match left.keys().get_last_key() {
            Some(last) => last,
            None => {
                return Err(Error::CorruptedIndex);
            },
        };
        let descending_key = match keys.get_key(child_idx) {
            Some(key) => key,
            None => {
                return Err(Error::CorruptedIndex);
            },
        };
        proof {
            lemma_pos_is(k0, k0.keys[child_idx as int], child_idx as int);
        }
        let (child, left) = match (child, left) {
            (Node::Internal(child_keys, child_children), Node::Internal(left_keys, left_children)) => {
                let mut child_keys = child_keys;
                let mut child_children = child_children;
                let mut left_keys = left_keys;
                let mut left_children = left_children;
                left_keys.remove(&ascending_key);
                let descending_payload = match keys.remove(&descending_key) {
                    Some(payload) => payload,
                    None => {
                        return Err(Error::CorruptedIndex);
                    },
                };
                child_keys.insert(descending_key, descending_payload);
                keys.insert(ascending_key, ascending_payload);
                match left_children.pop() {
                    Some(moved) => {
                        child_children.insert(0, moved);
                    },
                    None => {
                        return Err(Error::CorruptedIndex);
                    },
                }
                proof {
                    
                }
                (Node::Internal(child_keys, child_children), Node::Internal(left_keys, left_children))
            },
            (Node::Leaf(child_keys), Node::Leaf(left_keys)) => {
                let mut child_keys = child_keys;
                let mut left_keys = left_keys;
                left_keys.remove(&ascending_key);
                let descending_payload = match keys.remove(&descending_key) {
                    Some(payload) => payload,
                    None => {
                        return Err(Error::CorruptedIndex);
                    },
                };
                child_keys.insert(descending_key, descending_payload);
                keys.insert(ascending_key, ascending_payload);
                (Node::Leaf(child_keys), Node::Leaf(left_keys))
            },
            _ => {
                return Err(Error::CorruptedIndex);
            },
        };
        let child = StoredNode { node: child, id: child_id, key: child_key, size: child_size };
        store.set_node(tx, child, true)?;
        let left = StoredNode { node: left, id: left_id, key: left_key, size: left_size };
        store.set_node(tx, left, true)?;
        Ok(NextStep { node_update: true, is_main_key, key_to_delete, next_node: child_id })
    }

    /// Merges the children at `child_idx` and `child_idx + 1` through the
    /// key of the parent between them; the right one is removed. Where the
    /// parent has no key or no two children at that index, or the two
    /// children are not of one kind, the result is `CorruptedIndex`.
    fn merge_nodes<T: Transaction>(
        tx: &mut T,
        store: &mut BTreeNodeStore<BK>,
        keys: &mut BK,
        children: &mut Vec<NodeId>,
        child_idx: usize,
        key_to_delete: Vec<u8>,
        is_main_key: bool,
        left_child: StoredNode<BK>,
        right_child: StoredNode<BK>,
    ) -> (r: Result<NextStep, Error>)
        requires
            old(store).wf(),
            old(tx).wf(),
            old(keys).wf(),
            left_child.node.wf(),
            right_child.node.wf(),
        ensures
            final(store).wf(),
            final(tx).wf(),
            final(keys).wf(),
            final(tx).reliable() == old(tx).reliable(),
            r is Ok ==> only_nodes_changed::<BK>(old(store).provider(), old(tx)@, final(tx)@),
            final(store).mode() == old(store).mode(),
            final(store).provider() == old(store).provider(),
            r matches Ok(n) ==> n.is_main_key == is_main_key,
            child_idx >= old(keys)@.len() || child_idx + 1 >= old(children)@.len()
                || left_child.node@.leaf != right_child.node@.leaf ==> (r matches Err(e) && e
                == Error::CorruptedIndex),
            old(store).consistent(old(tx)@) && old(store).mode() is Write && child_idx < old(keys)@.len() && child_idx + 1 < old(children)@.len() && left_child.node@.leaf
                == right_child.node@.leaf && left_child.node@.pack.insert(
                old(keys)@.keys[child_idx as int],
                old(keys)@.payloads[child_idx as int],
            ).precedes(right_child.node@.pack) ==> {
                &&& r matches Ok(n) ==> {
                    &&& final(store).consistent(final(tx)@)
                    &&& final(store).nodes(final(tx)@) == old(store).nodes(old(tx)@).insert(
                        left_child.id,
                        node_merge(
                            left_child.node@,
                            old(keys)@.keys[child_idx as int],
                            old(keys)@.payloads[child_idx as int],
                            right_child.node@,
                        ),
                    ).remove(right_child.id)
                    &&& final(keys)@ == old(keys)@.remove(old(keys)@.keys[child_idx as int])
                    &&& final(children)@ == old(children)@.remove(child_idx + 1)
                    &&& n.next_node == left_child.id
                    &&& n.node_update
                    &&& n.is_main_key == is_main_key
                    &&& n.key_to_delete@ == key_to_delete@
                    &&& final(store).checked_out() == old(store).checked_out().remove(
                        left_child.id,
                    ).remove(right_child.id)
                }
                &&& old(tx).reliable() ==> r is Ok
                &&& r matches Err(e) ==> e is Backend
            },
    {
        let ghost k0 = keys@;
        proof {
            keys.lemma_wf();
        }
        let descending_key = match keys.get_key(child_idx) {
            Some(key) => key,
            None => {
                return Err(Error::CorruptedIndex);
            },
        };
        proof {
            lemma_pos_is(k0, k0.keys[child_idx as int], child_idx as int);
        }
        let descending_payload = match keys.remove(&descending_key) {
            Some(payload) => payload,
            None => {
                return Err(Error::CorruptedIndex);
            },
        };
        if children.len() < 2 || child_idx >= children.len() - 1 {
            return Err(Error::CorruptedIndex);
        }
        children.remove(child_idx + 1);
        let mut left_child = left_child;
        let left_id = left_child.id;
        let StoredNode { node: right, id: right_id, key: _, size: _ } = right_child;
        left_child.node.append(descending_key, descending_payload, right)?;
        store.set_node(tx, left_child, true)?;
        store.remove_node(right_id)?;
        Ok(NextStep { node_update: true, is_main_key, key_to_delete, next_node: left_id })
    }

    /// Walks over every node of the tree and counts its keys, its nodes, its
    /// depth and the bytes of its stored nodes. Where the store presents a
    /// B-tree, the counts are those of the whole tree, and the depth is its
    /// height; the bytes are counted by a `Traversal` store, which reads every
    /// node from the transaction. The store presents the same nodes
    /// afterwards.
    #[verifier::rlimit(100)]
    #[verifier::spinoff_prover]
    pub fn statistics<T: Transaction>(&self, tx: &mut T, store: &mut BTreeNodeStore<BK>) -> (r:
        Result<Statistics, Error>)
        requires
            self.wf(),
            old(store).wf(),
            old(tx).wf(),
        ensures
            final(store).wf(),
            final(tx).wf(),
            final(tx).reliable() == old(tx).reliable(),
            r is Ok ==> only_nodes_changed::<BK>(old(store).provider(), old(tx)@, final(tx)@),
            final(store).mode() == old(store).mode(),
            final(store).provider() == old(store).provider(),
            old(store).consistent(old(tx)@) && index_wf(old(store).nodes(old(tx)@), self.state())
                ==> {
                &&& r matches Ok(s) ==> {
                    &&& s.nodes_count == index_sum(
                        old(store).nodes(old(tx)@),
                        stored_sizes(old(store).provider(), old(tx)@),
                        Measure::Nodes,
                        self.state(),
                    )
                    &&& s.keys_count == index_sum(
                        old(store).nodes(old(tx)@),
                        stored_sizes(old(store).provider(), old(tx)@),
                        Measure::Keys,
                        self.state(),
                    )
                    &&& s.max_depth == index_height(old(store).nodes(old(tx)@), self.state())
                    &&& old(store).mode() is Traversal ==> s.total_size == index_sum(
                        old(store).nodes(old(tx)@),
                        stored_sizes(old(store).provider(), old(tx)@),
                        Measure::Bytes,
                        self.state(),
                    )
                    &&& final(store).consistent(final(tx)@)
                    &&& final(store).nodes(final(tx)@) == old(store).nodes(old(tx)@)
                    &&& final(store).checked_out() == old(store).checked_out()
                }
                &&& old(tx).reliable() && old(store).mode() is Traversal && old(store).checked_out() == Set::<NodeId>::empty() && index_sum(
                    old(store).nodes(old(tx)@),
                    stored_sizes(old(store).provider(), old(tx)@),
                    Measure::Nodes,
                    self.state(),
                ) <= u32::MAX && index_sum(
                    old(store).nodes(old(tx)@),
                    stored_sizes(old(store).provider(), old(tx)@),
                    Measure::Keys,
                    self.state(),
                ) <= u64::MAX && index_sum(
                    old(store).nodes(old(tx)@),
                    stored_sizes(old(store).provider(), old(tx)@),
                    Measure::Bytes,
                    self.state(),
                ) <= u64::MAX ==> r is Ok
                &&& old(store).mode() is Traversal && old(store).checked_out() == Set::<
                    NodeId,
                >::empty() ==> (r matches Err(e) ==> e is Backend || (e == Error::CorruptedIndex
                    && (index_sum(
                    old(store).nodes(old(tx)@),
                    stored_sizes(old(store).provider(), old(tx)@),
                    Measure::Nodes,
                    self.state(),
                ) > u32::MAX || index_sum(
                    old(store).nodes(old(tx)@),
                    stored_sizes(old(store).provider(), old(tx)@),
                    Measure::Keys,
                    self.state(),
                ) > u64::MAX || index_sum(
                    old(store).nodes(old(tx)@),
                    stored_sizes(old(store).provider(), old(tx)@),
                    Measure::Bytes,
                    self.state(),
                ) > u64::MAX)))
            },
    {
        let ghost v = store.nodes(tx@);
        let ghost st = self.state;
        let ghost tx0 = tx@;
        let ghost sizes = stored_sizes(store.provider(), tx@);
        let ghost ok = store.consistent(tx@) && index_wf(v, st);
        let ghost h = index_height(v, st);
        let ghost traversal = store.mode() is Traversal;
        let ghost out0 = store.checked_out();
        let ghost total_nodes = tree_sum(v, sizes, Measure::Nodes, st, h);
        let ghost total_keys = tree_sum(v, sizes, Measure::Keys, st, h);
        let ghost total_bytes = tree_sum(v, sizes, Measure::Bytes, st, h);
        let mut stats = Statistics::default();
        let mut node_queue: VecDeque<(NodeId, u32)> = VecDeque::new();
        match self.state.root {
            Some(node_id) => {
                node_queue.push_front((node_id, 1));
            },
            None => {},
        }
        proof {
            if ok {
                lemma_tree_shaped(v, st, h);
                if st.root is Some {
                    let q = node_queue@;
                    let e = Seq::<(NodeId, u32)>::empty();
                    assert(q.drop_first() =~= e);
                    assert(queue_sum(v, sizes, Measure::Nodes, e, h) == 0);
                    assert(queue_sum(v, sizes, Measure::Keys, e, h) == 0);
                    assert(queue_sum(v, sizes, Measure::Bytes, e, h) == 0);
                    assert((h + 1 - q[0].1) as nat == h);
                    assert(queue_sum(v, sizes, Measure::Nodes, q, h) == total_nodes);
                    assert(queue_sum(v, sizes, Measure::Keys, q, h) == total_keys);
                    assert(queue_sum(v, sizes, Measure::Bytes, q, h) == total_bytes);
                    lemma_nodes_at_least(v, sizes, st.root.unwrap(), h);
                }
            }
        }
        loop
            invariant
                self.wf(),
                store.wf(),
                tx.wf(),
                tx.reliable() == old(tx).reliable(),
                only_nodes_changed::<BK>(store.provider(), old(tx)@, tx@),
                store.mode() == old(store).mode(),
                store.provider() == old(store).provider(),
                traversal == (store.mode() is Traversal),
                out0 == old(store).checked_out(),
                v == old(store).nodes(old(tx)@),
                st == self.state,
                h == index_height(v, st),
                tx0 == old(tx)@,
                sizes == stored_sizes(old(store).provider(), tx0),
                ok == (old(store).consistent(old(tx)@) && index_wf(v, st)),
                total_nodes == tree_sum(v, sizes, Measure::Nodes, st, h),
                total_keys == tree_sum(v, sizes, Measure::Keys, st, h),
                total_bytes == tree_sum(v, sizes, Measure::Bytes, st, h),
                ok ==> {
                    &&& store.consistent(tx@)
                    &&& store.nodes(tx@) == v
                    &&& store.checked_out() == out0
                    &&& traversal ==> tx@ == tx0
                    &&& forall|i: int|
                        0 <= i < node_queue@.len() ==> 1 <= (#[trigger] node_queue@[i]).1 <= h
                            && shaped(v, node_queue@[i].0, (h + 1 - node_queue@[i].1) as nat)
                    &&& stats.nodes_count + queue_sum(v, sizes, Measure::Nodes, node_queue@, h)
                        == total_nodes
                    &&& stats.keys_count + queue_sum(v, sizes, Measure::Keys, node_queue@, h)
                        == total_keys
                    &&& traversal ==> stats.total_size + queue_sum(
                        v,
                        sizes,
                        Measure::Bytes,
                        node_queue@,
                        h,
                    ) == total_bytes
                    &&& stats.max_depth <= h
                    &&& stats.max_depth == h || (node_queue@.len() > 0 && node_queue@[0].1
                        == stats.max_depth + 1)
                    &&& h <= total_nodes
                },
            decreases u32::MAX - stats.nodes_count,
        {
            let ghost queue0 = node_queue@;
            let (node_id, depth) = match node_queue.pop_front() {
                Some(front) => front,
                None => {
                    return Ok(stats);
                },
            };
            let ghost rest = node_queue@;
            let ghost g = (h - depth) as nat;
            proof {
                if ok {
                    assert(rest =~= queue0.drop_first());
                    assert(queue0[0] == (node_id, depth));
                    assert forall|i: int| 0 <= i < rest.len() implies 1 <= (#[trigger] rest[i]).1 <= h
                        && shaped(v, rest[i].0, (h + 1 - rest[i].1) as nat) by {
                        assert(rest[i] == queue0[i + 1]);
                    }
                    assert(shaped(v, node_id, (h + 1 - depth) as nat));
                    assert(queue_sum(v, sizes, Measure::Nodes, queue0, h) == subtree_sum(
                        v,
                        sizes,
                        Measure::Nodes,
                        node_id,
                        (h + 1 - depth) as nat,
                    ) + queue_sum(v, sizes, Measure::Nodes, rest, h));
                    assert(queue_sum(v, sizes, Measure::Keys, queue0, h) == subtree_sum(
                        v,
                        sizes,
                        Measure::Keys,
                        node_id,
                        (h + 1 - depth) as nat,
                    ) + queue_sum(v, sizes, Measure::Keys, rest, h));
                    assert(queue_sum(v, sizes, Measure::Bytes, queue0, h) == subtree_sum(
                        v,
                        sizes,
                        Measure::Bytes,
                        node_id,
                        (h + 1 - depth) as nat,
                    ) + queue_sum(v, sizes, Measure::Bytes, rest, h));
                    let n = v[node_id];
                    assert(subtree_sum(v, sizes, Measure::Nodes, node_id, (h + 1 - depth) as nat) == 1
                        + children_sum(v, sizes, Measure::Nodes, n.children, g, n.children.len()));
                    assert(subtree_sum(v, sizes, Measure::Keys, node_id, (h + 1 - depth) as nat)
                        == n.pack.len() + children_sum(
                        v,
                        sizes,
                        Measure::Keys,
                        n.children,
                        g,
                        n.children.len(),
                    ));
                    assert(subtree_sum(v, sizes, Measure::Bytes, node_id, (h + 1 - depth) as nat)
                        == weight(v, sizes, Measure::Bytes, node_id) + children_sum(
                        v,
                        sizes,
                        Measure::Bytes,
                        n.children,
                        g,
                        n.children.len(),
                    ));
                }
            }
            if stats.nodes_count == u32::MAX {
                return Err(Error::CorruptedIndex);
            }
            let stored = store.get_node(tx, node_id)?;
            stats.keys_count = match stats.keys_count.checked_add(stored.node.keys().len() as u64) {
                Some(sum) => sum,
                None => {
                    return Err(Error::CorruptedIndex);
                },
            };
            if depth > stats.max_depth {
                stats.max_depth = depth;
            }
            stats.nodes_count = stats.nodes_count + 1;
            stats.total_size = match stats.total_size.checked_add(stored.size) {
                Some(sum) => sum,
                None => {
                    return Err(Error::CorruptedIndex);
                },
            };
            match &stored.node {
                Node::Internal(_, children) => {
                    if depth == u32::MAX {
                        return Err(Error::CorruptedIndex);
                    }
                    let child_depth = depth + 1;
                    let mut i: usize = 0;
                    while i < children.len()
                        invariant
                            i <= children.len(),
                            child_depth == depth + 1,
                            g == (h - depth) as nat,
                            node_queue@.len() == rest.len() + i,
                            node_queue@.subrange(i as int, node_queue@.len() as int) == rest,
                            forall|j: int|
                                0 <= j < i ==> (#[trigger] node_queue@[j]) == (
                                    children@[i - 1 - j],
                                    child_depth,
                                ),
                            ok ==> depth < h,
                            ok ==> {
                                &&& queue_sum(v, sizes, Measure::Nodes, node_queue@, h)
                                    == children_sum(v, sizes, Measure::Nodes, children@, g, i as nat)
                                    + queue_sum(v, sizes, Measure::Nodes, rest, h)
                                &&& queue_sum(v, sizes, Measure::Keys, node_queue@, h)
                                    == children_sum(v, sizes, Measure::Keys, children@, g, i as nat)
                                    + queue_sum(v, sizes, Measure::Keys, rest, h)
                                &&& queue_sum(v, sizes, Measure::Bytes, node_queue@, h)
                                    == children_sum(v, sizes, Measure::Bytes, children@, g, i as nat)
                                    + queue_sum(v, sizes, Measure::Bytes, rest, h)
                            },
                        decreases children.len() - i,
                    {
                        let ghost before = node_queue@;
                        node_queue.push_front((children[i], child_depth));
                        proof {
                            let q = node_queue@;
                            assert(q.drop_first() =~= before);
                            assert(q.subrange(i + 1, q.len() as int) =~= before.subrange(
                                i as int,
                                before.len() as int,
                            ));
                            assert forall|j: int| 0 <= j < i + 1 implies (#[trigger] q[j]) == (
                                children@[i - j],
                                child_depth,
                            ) by {
                                if j > 0 {
                                    assert(q[j] == before[j - 1]);
                                }
                            }
                            assert((h + 1 - child_depth) as nat == g);
                        }
                        i += 1;
                    }
                    proof {
                        assert(node_queue@.subrange(0, 0) =~= Seq::<(NodeId, u32)>::empty());
                    }
                },
                Node::Leaf(_) => {
                    proof {
                        assert(stored.node@.children.len() == 0);
                    }
                },
            }
            proof {
                if ok {
                    let n = v[node_id];
                    assert(stored.node@ == n);
                    assert(shaped(v, node_id, (h + 1 - depth) as nat));
                    let q = node_queue@;
                    if !n.leaf {
                        assert forall|i: int| 0 <= i < q.len() implies 1 <= (#[trigger] q[i]).1 <= h
                            && shaped(v, q[i].0, (h + 1 - q[i].1) as nat) by {
                            let m = n.children.len() as int;
                            if i < m {
                                assert(q[i] == (n.children[m - 1 - i], (depth + 1) as u32));
                                assert(shaped(v, n.children[m - 1 - i], g));
                            } else {
                                assert(q.subrange(m, q.len() as int)[i - m] == q[i]);
                            }
                        }
                        assert(q[0] == (n.children[n.children.len() - 1], (depth + 1) as u32));
                    } else {
                        assert(q =~= rest);
                    }
                    assert(children_sum(v, sizes, Measure::Nodes, n.children, g, 0) == 0);
                    assert(children_sum(v, sizes, Measure::Keys, n.children, g, 0) == 0);
                    assert(children_sum(v, sizes, Measure::Bytes, n.children, g, 0) == 0);
                    assert(subtree_sum(v, sizes, Measure::Nodes, node_id, (h + 1 - depth) as nat) == 1
                        + children_sum(v, sizes, Measure::Nodes, n.children, g, n.children.len()));
                    assert(subtree_sum(v, sizes, Measure::Keys, node_id, (h + 1 - depth) as nat)
                        == n.pack.len() + children_sum(
                        v,
                        sizes,
                        Measure::Keys,
                        n.children,
                        g,
                        n.children.len(),
                    ));
                    assert(subtree_sum(v, sizes, Measure::Bytes, node_id, (h + 1 - depth) as nat)
                        == weight(v, sizes, Measure::Bytes, node_id) + children_sum(
                        v,
                        sizes,
                        Measure::Bytes,
                        n.children,
                        g,
                        n.children.len(),
                    ));
                }
            }
            store.set_node(tx, stored, false)?;
            proof {
                if ok {
                    assert(store.checked_out() =~= out0);
                }
            }
        }
    }

    /// The nodes of a tree that is stored under the keys of the `Debug`
    /// provider, level by level from the root, each with its depth and its
    /// identifier. Of a B-tree as many nodes are listed as it has, each as it
    /// is stored, the root first; the transaction is left as it is.
    #[verifier::rlimit(100)]
    #[verifier::spinoff_prover]
    pub fn inspect_nodes<T: Transaction>(&self, tx: &mut T) -> (r: Result<
        Vec<(usize, NodeId, StoredNode<BK>)>,
        Error,
    >)
        requires
            self.wf(),
            old(tx).wf(),
        ensures
            final(tx).wf(),
            final(tx).reliable() == old(tx).reliable(),
            final(tx)@ == old(tx)@,
            r matches Ok(list) ==> listed_by_level(
                persisted::<BK>(KeyProvider::Debug, old(tx)@),
                self.state(),
                list@,
            ),
            index_wf(persisted::<BK>(KeyProvider::Debug, old(tx)@), self.state()) ==> {
                &&& r matches Ok(list) ==> {
                    &&& list@.len() == index_sum(
                        persisted::<BK>(KeyProvider::Debug, old(tx)@),
                        Map::empty(),
                        Measure::Nodes,
                        self.state(),
                    )
                    &&& forall|i: int|
                        0 <= i < list@.len() ==> {
                            &&& (#[trigger] list@[i]).2.id == list@[i].1
                            &&& persisted::<BK>(KeyProvider::Debug, old(tx)@).contains_key(
                                list@[i].1,
                            )
                            &&& list@[i].2.node@ == persisted::<BK>(
                                KeyProvider::Debug,
                                old(tx)@,
                            )[list@[i].1]
                            &&& 1 <= list@[i].0 <= index_height(
                                persisted::<BK>(KeyProvider::Debug, old(tx)@),
                                self.state(),
                            )
                        }
                    &&& list@.len() > 0 ==> Some(list@[0].1) == self.state().root && list@[0].0 == 1
                    &&& forall|i: int, j: int|
                        0 <= i < j < list@.len() ==> (#[trigger] list@[i]).1 != (
                        #[trigger] list@[j]).1
                }
                &&& old(tx).reliable() && index_sum(
                    persisted::<BK>(KeyProvider::Debug, old(tx)@),
                    Map::empty(),
                    Measure::Nodes,
                    self.state(),
                ) <= u32::MAX ==> r is Ok
                &&& r matches Err(e) ==> e is Backend || (e == Error::CorruptedIndex && index_sum(
                    persisted::<BK>(KeyProvider::Debug, old(tx)@),
                    Map::empty(),
                    Measure::Nodes,
                    self.state(),
                ) > u32::MAX)
            },
    {
        let mut found: Vec<(usize, NodeId, StoredNode<BK>)> = Vec::new();
        let mut node_queue: VecDeque<(NodeId, u32)> = VecDeque::new();
        match self.state.root {
            Some(node_id) => {
                node_queue.push_front((node_id, 1));
            },
            None => {},
        }
        let mut store: BTreeNodeStore<BK> = BTreeNodeStore::new(
            KeyProvider::Debug,
            BTreeStoreType::Traversal,
            1,
        );
        let ghost v = persisted::<BK>(KeyProvider::Debug, tx@);
        let ghost st = self.state;
        let ghost sizes = Map::<NodeId, nat>::empty();
        let ghost ok = index_wf(v, st);
        let ghost h = index_height(v, st);
        let ghost total = tree_sum(v, sizes, Measure::Nodes, st, h);
        proof {
            store.lemma_traversal(tx@);
            if ok {
                lemma_tree_shaped(v, st, h);
                lemma_tree_apart(v, st, h);
                lemma_tree_facts(v, st, h);
                if st.root is Some {
                    let q = node_queue@;
                    let e = Seq::<(NodeId, u32)>::empty();
                    assert(q.drop_first() =~= e);
                    assert(queue_sum(v, sizes, Measure::Nodes, e, h) == 0);
                    assert((h + 1 - q[0].1) as nat == h);
                    lemma_nodes_at_least(v, sizes, st.root.unwrap(), h);
                }
            }
        }
        loop
            invariant
                self.wf(),
                store.wf(),
                tx.wf(),
                tx.reliable() == old(tx).reliable(),
                only_nodes_changed::<BK>(store.provider(), old(tx)@, tx@),
                tx@ == old(tx)@,
                store.mode() is Traversal,
                store.provider() == KeyProvider::Debug,
                store.consistent(tx@),
                store.nodes(tx@) == v,
                store.checked_out() == Set::<NodeId>::empty(),
                v == persisted::<BK>(KeyProvider::Debug, old(tx)@),
                st == self.state,
                h == index_height(v, st),
                sizes == Map::<NodeId, nat>::empty(),
                ok == index_wf(v, st),
                total == tree_sum(v, sizes, Measure::Nodes, st, h),
                listed_by_level(v, st, found@),
                node_queue@.len() > 0 ==> st.root is Some,
                forall|i: int|
                    0 <= i < node_queue@.len() ==> (#[trigger] node_queue@[i]).1 >= 1 && reaches(
                        v,
                        st.root.unwrap(),
                        (node_queue@[i].1 - 1) as nat,
                        node_queue@[i].0,
                    ) && node_queue@[0].1 <= node_queue@[i].1 <= node_queue@[0].1 + 1,
                forall|i: int, j: int|
                    0 <= i < j < node_queue@.len() ==> (#[trigger] node_queue@[i]).1 <= (
                    #[trigger] node_queue@[j]).1,
                found@.len() > 0 && node_queue@.len() > 0 ==> found@.last().0 <= node_queue@[0].1,
                ok ==> {
                    &&& forall|i: int|
                        0 <= i < node_queue@.len() ==> 1 <= (#[trigger] node_queue@[i]).1 <= h
                            && shaped(v, node_queue@[i].0, (h + 1 - node_queue@[i].1) as nat)
                    &&& found@.len() + queue_sum(v, sizes, Measure::Nodes, node_queue@, h) == total
                    &&& forall|i: int|
                        0 <= i < node_queue@.len() ==> apart(
                            v,
                            (#[trigger] node_queue@[i]).0,
                            (h + 1 - node_queue@[i].1) as nat,
                        )
                    &&& forall|i: int, j: int, x: NodeId|
                        0 <= i < j < node_queue@.len() && #[trigger] in_subtree(
                            v,
                            node_queue@[i].0,
                            (h + 1 - node_queue@[i].1) as nat,
                            x,
                        ) ==> !#[trigger] in_subtree(
                            v,
                            node_queue@[j].0,
                            (h + 1 - node_queue@[j].1) as nat,
                            x,
                        )
                    &&& forall|a: int, i: int|
                        0 <= a < found@.len() && 0 <= i < node_queue@.len() ==> !in_subtree(
                            v,
                            (#[trigger] node_queue@[i]).0,
                            (h + 1 - node_queue@[i].1) as nat,
                            (#[trigger] found@[a]).1,
                        )
                    &&& forall|a: int, b: int|
                        0 <= a < b < found@.len() ==> (#[trigger] found@[a]).1 != (
                        #[trigger] found@[b]).1
                    &&& h <= total
                    &&& forall|i: int|
                        0 <= i < found@.len() ==> {
                            &&& (#[trigger] found@[i]).2.id == found@[i].1
                            &&& v.contains_key(found@[i].1)
                            &&& found@[i].2.node@ == v[found@[i].1]
                            &&& 1 <= found@[i].0 <= h
                        }
                    &&& found@.len() > 0 ==> Some(found@[0].1) == st.root && found@[0].0 == 1
                    &&& found@.len() == 0 && node_queue@.len() > 0 ==> Some(node_queue@[0].0)
                        == st.root && node_queue@[0].1 == 1
                },
            decreases u32::MAX - found@.len(),
        {
            let ghost queue0 = node_queue@;
            let (node_id, depth) = match node_queue.pop_front() {
                Some(front) => front,
                None => {
                    return Ok(found);
                },
            };
            let ghost rest = node_queue@;
            let ghost g = (h - depth) as nat;
            proof {
                if ok {
                    assert(rest =~= queue0.drop_first());
                    assert(queue0[0] == (node_id, depth));
                    assert forall|i: int| 0 <= i < rest.len() implies 1 <= (#[trigger] rest[i]).1 <= h
                        && shaped(v, rest[i].0, (h + 1 - rest[i].1) as nat) by {
                        assert(rest[i] == queue0[i + 1]);
                    }
                    assert(shaped(v, node_id, (h + 1 - depth) as nat));
                    assert(queue_sum(v, sizes, Measure::Nodes, queue0, h) == subtree_sum(
                        v,
                        sizes,
                        Measure::Nodes,
                        node_id,
                        (h + 1 - depth) as nat,
                    ) + queue_sum(v, sizes, Measure::Nodes, rest, h));
                    let n = v[node_id];
                    assert(subtree_sum(v, sizes, Measure::Nodes, node_id, (h + 1 - depth) as nat) == 1
                        + children_sum(v, sizes, Measure::Nodes, n.children, g, n.children.len()));
                }
            }
            if found.len() >= u32::MAX as usize {
                return Err(Error::CorruptedIndex);
            }
            let stored_node = store.get_node(tx, node_id)?;
            match &stored_node.node {
                Node::Internal(_, children) => {
                    if depth == u32::MAX {
                        return Err(Error::CorruptedIndex);
                    }
                    let child_depth = depth + 1;
                    let mut i: usize = 0;
                    while i < children.len()
                        invariant
                            i <= children.len(),
                            child_depth == depth + 1,
                            g == (h - depth) as nat,
                            node_queue@.len() == rest.len() + i,
                            node_queue@.subrange(0, rest.len() as int) == rest,
                            forall|j: int|
                                0 <= j < i ==> (#[trigger] node_queue@[rest.len() + j]) == (
                                    children@[j],
                                    child_depth,
                                ),
                            ok ==> depth < h,
                            ok ==> queue_sum(v, sizes, Measure::Nodes, node_queue@, h) == queue_sum(
                                v,
                                sizes,
                                Measure::Nodes,
                                rest,
                                h,
                            ) + children_sum(v, sizes, Measure::Nodes, children@, g, i as nat),
                        decreases children.len() - i,
                    {
                        let ghost before = node_queue@;
                        node_queue.push_back((children[i], child_depth));
                        proof {
                            let q = node_queue@;
                            lemma_queue_sum_push(
                                v,
                                sizes,
                                Measure::Nodes,
                                before,
                                h,
                                (children@[i as int], child_depth),
                            );
                            assert(q.subrange(0, rest.len() as int) =~= before.subrange(
                                0,
                                rest.len() as int,
                            ));
                            assert forall|j: int| 0 <= j < i + 1 implies (#[trigger] q[rest.len() + j])
                                == (children@[j], child_depth) by {
                                if j < i {
                                    assert(q[rest.len() + j] == before[rest.len() + j]);
                                }
                            }
                            assert((h + 1 - child_depth) as nat == g);
                        }
                        i += 1;
                    }
                    proof {
                        assert(children_sum(v, sizes, Measure::Nodes, children@, g, 0) == 0);
                    }
                },
                Node::Leaf(_) => {
                    proof {
                        assert(stored_node.node@.children.len() == 0);
                        assert(node_queue@.subrange(0, rest.len() as int) =~= rest);
                        assert(children_sum(
                            v,
                            sizes,
                            Measure::Nodes,
                            stored_node.node@.children,
                            g,
                            0,
                        ) == 0);
                    }
                },
            }
            proof {
                let n = v[node_id];
                let q = node_queue@;
                let m = rest.len() as int;
                let root = st.root.unwrap();
                assert(stored_node.node@ == n);
                assert(queue0[0] == (node_id, depth));
                assert(rest =~= queue0.drop_first());
                assert forall|i: int| 0 <= i < q.len() implies (#[trigger] q[i]).1 >= 1 && reaches(
                    v,
                    root,
                    (q[i].1 - 1) as nat,
                    q[i].0,
                ) && depth <= q[i].1 <= depth + 1 by {
                    if i < m {
                        assert(q.subrange(0, m)[i] == q[i]);
                        assert(rest[i] == queue0[i + 1]);
                    } else {
                        assert(q[m + (i - m)] == (n.children[i - m], (depth + 1) as u32));
                        lemma_reaches_step(v, root, (depth - 1) as nat, node_id, i - m);
                    }
                }
                assert forall|i: int, j: int| 0 <= i < j < q.len() implies (#[trigger] q[i]).1 <= (
                #[trigger] q[j]).1 by {
                    if j < m {
                        assert(q.subrange(0, m)[i] == q[i]);
                        assert(q.subrange(0, m)[j] == q[j]);
                        assert(rest[i] == queue0[i + 1]);
                        assert(rest[j] == queue0[j + 1]);
                    } else {
                        assert(q[m + (j - m)] == (n.children[j - m], (depth + 1) as u32));
                        if i < m {
                            assert(q.subrange(0, m)[i] == q[i]);
                            assert(rest[i] == queue0[i + 1]);
                        } else {
                            assert(q[m + (i - m)] == (n.children[i - m], (depth + 1) as u32));
                        }
                    }
                }
                if q.len() > 0 {
                    assert(q[0].1 >= depth);
                }
            }
            proof {
                if ok {
                    let n = v[node_id];
                    assert(stored_node.node@ == n);
                    let q = node_queue@;
                    assert forall|i: int| 0 <= i < q.len() implies 1 <= (#[trigger] q[i]).1 <= h
                        && shaped(v, q[i].0, (h + 1 - q[i].1) as nat) by {
                        let m = rest.len() as int;
                        if i < m {
                            assert(q.subrange(0, m)[i] == q[i]);
                        } else {
                            assert(q[m + (i - m)] == (n.children[i - m], (depth + 1) as u32));
                            assert(shaped(v, n.children[i - m], g));
                        }
                    }
                    if rest.len() > 0 {
                        assert(q.subrange(0, rest.len() as int)[0] == q[0]);
                    }
                    let m = rest.len() as int;
                    let hn = (h + 1 - depth) as nat;
                    assert(in_subtree(v, node_id, hn, node_id));
                    assert(apart(v, node_id, hn));
                    assert forall|i: int| 0 <= i < q.len() implies apart(
                        v,
                        (#[trigger] q[i]).0,
                        (h + 1 - q[i].1) as nat,
                    ) by {
                        if i < m {
                            assert(q.subrange(0, m)[i] == q[i]);
                            assert(rest[i] == queue0[i + 1]);
                        } else {
                            assert(q[m + (i - m)] == (n.children[i - m], (depth + 1) as u32));
                            assert(apart(v, v[node_id].children[i - m], g));
                        }
                    }
                    assert forall|i: int, j: int, x: NodeId|
                        0 <= i < j < q.len() && #[trigger] in_subtree(
                            v,
                            q[i].0,
                            (h + 1 - q[i].1) as nat,
                            x,
                        ) implies !#[trigger] in_subtree(v, q[j].0, (h + 1 - q[j].1) as nat, x) by {
                        if j < m {
                            assert(q.subrange(0, m)[i] == q[i]);
                            assert(q.subrange(0, m)[j] == q[j]);
                            assert(rest[i] == queue0[i + 1]);
                            assert(rest[j] == queue0[j + 1]);
                        } else {
                            assert(q[m + (j - m)] == (n.children[j - m], (depth + 1) as u32));
                            if in_subtree(v, q[j].0, (h + 1 - q[j].1) as nat, x) {
                                assert(in_subtree(v, v[node_id].children[j - m], g, x));
                                assert(in_subtree(v, node_id, hn, x));
                                if i < m {
                                    assert(q.subrange(0, m)[i] == q[i]);
                                    assert(rest[i] == queue0[i + 1]);
                                    assert(in_subtree(v, queue0[0].0, hn, x));
                                } else {
                                    assert(q[m + (i - m)] == (n.children[i - m], (depth + 1) as u32));
                                    assert(in_subtree(v, v[node_id].children[i - m], g, x));
                                }
                            }
                        }
                    }
                    assert forall|a: int, i: int| 0 <= a < found@.len() && 0 <= i < q.len() implies !in_subtree(
                        v,
                        (#[trigger] q[i]).0,
                        (h + 1 - q[i].1) as nat,
                        (#[trigger] found@[a]).1,
                    ) by {
                        if i < m {
                            assert(q.subrange(0, m)[i] == q[i]);
                            assert(rest[i] == queue0[i + 1]);
                        } else {
                            assert(q[m + (i - m)] == (n.children[i - m], (depth + 1) as u32));
                            if in_subtree(v, q[i].0, (h + 1 - q[i].1) as nat, found@[a].1) {
                                assert(in_subtree(v, v[node_id].children[i - m], g, found@[a].1));
                                assert(in_subtree(v, node_id, hn, found@[a].1));
                                assert(in_subtree(v, queue0[0].0, hn, found@[a].1));
                            }
                        }
                    }
                    assert forall|i: int| 0 <= i < q.len() implies !in_subtree(
                        v,
                        (#[trigger] q[i]).0,
                        (h + 1 - q[i].1) as nat,
                        node_id,
                    ) by {
                        if i < m {
                            assert(q.subrange(0, m)[i] == q[i]);
                            assert(rest[i] == queue0[i + 1]);
                            assert(in_subtree(v, queue0[0].0, hn, node_id));
                        } else {
                            assert(q[m + (i - m)] == (n.children[i - m], (depth + 1) as u32));
                            assert(!in_subtree(v, v[node_id].children[i - m], g, node_id));
                        }
                    }
                    assert forall|a: int| 0 <= a < found@.len() implies (#[trigger] found@[a]).1
                        != node_id by {
                        assert(!in_subtree(v, queue0[0].0, hn, found@[a].1));
                    }
                }
            }
            let ghost old_found = found@;
            found.push((depth as usize, node_id, stored_node));
            proof {
                assert forall|i: int| 0 <= i < found@.len() implies (#[trigger] found@[i]).0 >= 1
                    && reaches(v, st.root.unwrap(), (found@[i].0 - 1) as nat, found@[i].1) by {
                    if i < old_found.len() {
                        assert(found@[i] == old_found[i]);
                    }
                }
                assert forall|i: int, j: int| 0 <= i < j < found@.len() implies (
                #[trigger] found@[i]).0 <= (#[trigger] found@[j]).0 by {
                    assert(found@[i] == old_found[i]);
                    if j < old_found.len() {
                        assert(found@[j] == old_found[j]);
                    } else {
                        assert(old_found[i].0 <= old_found.last().0);
                    }
                }
            }
            proof {
                if ok {
                    assert forall|i: int| 0 <= i < found@.len() implies {
                        &&& (#[trigger] found@[i]).2.id == found@[i].1
                        &&& v.contains_key(found@[i].1)
                        &&& found@[i].2.node@ == v[found@[i].1]
                        &&& 1 <= found@[i].0 <= h
                    } by {
                        if i < old_found.len() {
                            assert(found@[i] == old_found[i]);
                        }
                    }
                    if old_found.len() > 0 {
                        assert(found@[0] == old_found[0]);
                    }
                    assert forall|a: int, i: int|
                        0 <= a < found@.len() && 0 <= i < node_queue@.len() implies !in_subtree(
                        v,
                        (#[trigger] node_queue@[i]).0,
                        (h + 1 - node_queue@[i].1) as nat,
                        (#[trigger] found@[a]).1,
                    ) by {
                        if a < old_found.len() {
                            assert(found@[a] == old_found[a]);
                        }
                    }
                    assert forall|a: int, b: int| 0 <= a < b < found@.len() implies (
                    #[trigger] found@[a]).1 != (#[trigger] found@[b]).1 by {
                        assert(found@[a] == old_found[a]);
                        if b < old_found.len() {
                            assert(found@[b] == old_found[b]);
                        }
                    }
                }
            }
        }
    }
}

} // verus!
