use btree_index::bkeys::{BKeys, FstKeys, TrieKeys};
use btree_index::btree::{BTree, Statistics, MAX_NODE_ID};
use btree_index::err::Error;
use btree_index::kv::{MemoryTransaction, Transaction};
use btree_index::node::{Node, NodeId, Payload};
use btree_index::state::State;
use btree_index::store::{BTreeNodeStore, BTreeStoreType, KeyProvider};
use rand::seq::SliceRandom;
use rand::thread_rng;
use std::collections::BTreeMap;

fn k(s: &str) -> Vec<u8> {
    s.as_bytes().to_vec()
}

fn store_of<BK: BKeys>(mode: BTreeStoreType) -> BTreeNodeStore<BK> {
    BTreeNodeStore::new(KeyProvider::Debug, mode, 20)
}

fn stats<BK: BKeys>(t: &BTree<BK>, tx: &mut MemoryTransaction) -> Statistics {
    t.statistics(tx, &mut store_of::<BK>(BTreeStoreType::Traversal)).unwrap()
}

/// Walks over the stored tree and checks what holds of every B-tree: the
/// number of keys and children of each node, the depth of the leaves, and
/// the order of the keys. Returns the keys with their payloads, in order.
fn check_tree<BK: BKeys>(t: &BTree<BK>, tx: &mut MemoryTransaction) -> Vec<(Vec<u8>, Payload)> {
    let state = *t.get_state();
    let degree = state.minimum_degree as usize;
    let nodes = t.inspect_nodes(tx).unwrap();
    let mut by_id: BTreeMap<NodeId, (usize, Node<BK>)> = BTreeMap::new();
    for (depth, id, stored) in nodes {
        assert_eq!(stored.id, id);
        assert!(id < state.next_node_id);
        assert!(by_id.insert(id, (depth, stored.node)).is_none(), "a node is listed twice");
    }
    let Some(root) = state.root else {
        assert!(by_id.is_empty());
        return vec![];
    };
    let max_depth = by_id.values().map(|(depth, _)| *depth).max().unwrap();
    let mut out = vec![];
    walk(&by_id, root, 1, max_depth, degree, true, &mut out);
    for pair in out.windows(2) {
        assert!(pair[0].0 < pair[1].0, "the keys do not ascend");
    }
    out
}

fn walk<BK: BKeys>(
    by_id: &BTreeMap<NodeId, (usize, Node<BK>)>,
    id: NodeId,
    depth: usize,
    max_depth: usize,
    degree: usize,
    is_root: bool,
    out: &mut Vec<(Vec<u8>, Payload)>,
) {
    let (listed_depth, node) = by_id.get(&id).expect("a child is not stored");
    assert_eq!(*listed_depth, depth);
    let keys = node.keys();
    assert!(keys.len() <= 2 * degree - 1);
    if is_root {
        assert!(keys.len() >= 1);
    } else {
        assert!(keys.len() >= degree - 1);
    }
    match node {
        Node::Leaf(keys) => {
            assert_eq!(depth, max_depth, "a leaf is not at the depth of the others");
            for i in 0..keys.len() {
                out.push((keys.get_key(i).unwrap(), keys.get_payload(i).unwrap()));
            }
        }
        Node::Internal(keys, children) => {
            assert_eq!(children.len(), keys.len() + 1);
            for i in 0..children.len() {
                walk(by_id, children[i], depth + 1, max_depth, degree, false, out);
                if i < keys.len() {
                    out.push((keys.get_key(i).unwrap(), keys.get_payload(i).unwrap()));
                }
            }
        }
    }
}

fn run_against_a_map<BK: BKeys>(degree: u32, count: usize, delete: bool) {
    let mut tx = MemoryTransaction::new();
    let mut t: BTree<BK> = BTree::new(State::new(degree));
    let mut expected: BTreeMap<Vec<u8>, Payload> = BTreeMap::new();
    let mut order: Vec<usize> = (0..count).collect();
    order.shuffle(&mut thread_rng());
    for (step, i) in order.iter().enumerate() {
        let key = format!("key{}", i).into_bytes();
        let mut store = store_of::<BK>(BTreeStoreType::Write);
        t.insert(&mut tx, &mut store, key.clone(), *i as Payload).unwrap();
        store.finish(&mut tx).unwrap();
        expected.insert(key, *i as Payload);
        if step % 7 == 0 || step + 1 == count {
            let found = check_tree(&t, &mut tx);
            assert_eq!(found, expected.clone().into_iter().collect::<Vec<_>>());
            let s = stats(&t, &mut tx);
            assert_eq!(s.keys_count as usize, expected.len());
            // one record for each node
            assert_eq!(s.nodes_count as usize, tx.len());
        }
    }
    if !delete {
        return;
    }
    order.shuffle(&mut thread_rng());
    for (step, i) in order.iter().enumerate() {
        let key = format!("key{}", i).into_bytes();
        let mut store = store_of::<BK>(BTreeStoreType::Write);
        assert_eq!(t.delete(&mut tx, &mut store, key.clone()).unwrap(), Some(*i as Payload));
        store.finish(&mut tx).unwrap();
        expected.remove(&key);
        let mut store = store_of::<BK>(BTreeStoreType::Read);
        assert_eq!(t.search(&mut tx, &mut store, &key).unwrap(), None);
        if step % 5 == 0 || step + 1 == count {
            let found = check_tree(&t, &mut tx);
            assert_eq!(found, expected.clone().into_iter().collect::<Vec<_>>());
            assert_eq!(stats(&t, &mut tx).nodes_count as usize, tx.len());
        }
    }
    assert_eq!(t.get_state().root, None);
    assert_eq!(tx.len(), 0);
}

#[test]
fn random_insertions_keep_a_b_tree_trie() {
    run_against_a_map::<TrieKeys>(2, 200, false);
    run_against_a_map::<TrieKeys>(3, 150, false);
}

#[test]
fn random_insertions_keep_a_b_tree_fst() {
    run_against_a_map::<FstKeys>(2, 200, false);
    run_against_a_map::<FstKeys>(5, 300, false);
}

#[test]
fn random_deletions_in_a_low_tree_keep_a_b_tree() {
    // with these degrees the trees stay two levels high
    run_against_a_map::<TrieKeys>(8, 100, true);
    run_against_a_map::<FstKeys>(12, 250, true);
    run_against_a_map::<TrieKeys>(2, 3, true);
    run_against_a_map::<TrieKeys>(100, 150, true);
}

#[test]
fn empty_tree() {
    let mut tx = MemoryTransaction::new();
    let mut t: BTree<TrieKeys> = BTree::new(State::new(2));
    assert!(!t.is_updated());
    assert_eq!(t.get_state().root, None);
    assert_eq!(t.get_state().minimum_degree, 2);
    let mut store = store_of(BTreeStoreType::Write);
    assert_eq!(t.search(&mut tx, &mut store, &k("a")), Ok(None));
    assert_eq!(t.delete(&mut tx, &mut store, k("a")), Ok(None));
    assert!(!t.is_updated());
    assert_eq!(store.finish(&mut tx), Ok(false));
    assert_eq!(
        stats(&t, &mut tx),
        Statistics { keys_count: 0, max_depth: 0, nodes_count: 0, total_size: 0 }
    );
    assert_eq!(Statistics::default().nodes_count, 0);
    assert_eq!(t.inspect_nodes(&mut tx).unwrap().len(), 0);
}

#[test]
fn one_key() {
    let mut tx = MemoryTransaction::new();
    let mut t: BTree<TrieKeys> = BTree::new(State::new(2));
    let mut store = store_of(BTreeStoreType::Write);
    t.insert(&mut tx, &mut store, k("a"), 1).unwrap();
    assert!(t.is_updated());
    assert_eq!(t.get_state().root, Some(0));
    assert_eq!(t.get_state().next_node_id, 1);
    assert_eq!(t.search(&mut tx, &mut store, &k("a")), Ok(Some(1)));
    assert_eq!(t.search(&mut tx, &mut store, &k("b")), Ok(None));
    store.finish(&mut tx).unwrap();
    // the stored leaf: two bytes of the node, the kind of the pack, the
    // number of keys, the length of the key, the key and the payload
    assert_eq!(
        stats(&t, &mut tx),
        Statistics { keys_count: 1, max_depth: 1, nodes_count: 1, total_size: 28 }
    );
    let mut store = store_of(BTreeStoreType::Write);
    assert_eq!(t.delete(&mut tx, &mut store, k("a")), Ok(Some(1)));
    store.finish(&mut tx).unwrap();
    assert_eq!(t.get_state().root, None);
    // an identifier is not given out twice
    assert_eq!(t.get_state().next_node_id, 1);
    assert_eq!(tx.len(), 0);
    let mut store = store_of(BTreeStoreType::Write);
    t.insert(&mut tx, &mut store, k("b"), 2).unwrap();
    assert_eq!(t.get_state().root, Some(1));
}

#[test]
fn a_second_insert_overwrites() {
    let mut tx = MemoryTransaction::new();
    let mut t: BTree<FstKeys> = BTree::new(State::new(3));
    let mut store = store_of(BTreeStoreType::Write);
    for i in 0..40u64 {
        t.insert(&mut tx, &mut store, format!("{:02}", i).into_bytes(), i).unwrap();
    }
    store.finish(&mut tx).unwrap();
    let before = stats(&t, &mut tx);
    assert_eq!(before.keys_count, 40);
    // keys in leaves and keys in internal nodes alike
    for i in 0..40u64 {
        let key = format!("{:02}", i).into_bytes();
        let mut store = store_of(BTreeStoreType::Write);
        t.insert(&mut tx, &mut store, key.clone(), 1000 + i).unwrap();
        assert_eq!(t.search(&mut tx, &mut store, &key), Ok(Some(1000 + i)));
        store.finish(&mut tx).unwrap();
    }
    let after = stats(&t, &mut tx);
    assert_eq!(after.keys_count, 40);
    let found = check_tree(&t, &mut tx);
    assert_eq!(found.len(), 40);
    for (i, (key, payload)) in found.into_iter().enumerate() {
        assert_eq!(key, format!("{:02}", i).into_bytes());
        assert_eq!(payload, 1000 + i as u64);
    }
}

#[test]
fn an_overwrite_that_splits_no_node_keeps_the_nodes() {
    let mut tx = MemoryTransaction::new();
    let mut t: BTree<TrieKeys> = BTree::new(State::new(3));
    let mut store = store_of(BTreeStoreType::Write);
    // seven keys at this degree: a root with one key over two leaves of three
    for key in ["a", "b", "c", "d", "e", "f", "g"] {
        t.insert(&mut tx, &mut store, k(key), 1).unwrap();
    }
    store.finish(&mut tx).unwrap();
    let before = stats(&t, &mut tx);
    assert_eq!((before.max_depth, before.nodes_count), (2, 3));
    let state = *t.get_state();
    let mut store = store_of(BTreeStoreType::Write);
    t.insert(&mut tx, &mut store, k("a"), 2).unwrap();
    t.insert(&mut tx, &mut store, k("c"), 2).unwrap();
    store.finish(&mut tx).unwrap();
    assert_eq!(stats(&t, &mut tx), before);
    assert_eq!(t.get_state().next_node_id, state.next_node_id);
    assert_eq!(t.get_state().root, state.root);
}

#[test]
fn the_median_of_a_split_child_is_overwritten_in_place() {
    let mut tx = MemoryTransaction::new();
    let mut t: BTree<TrieKeys> = BTree::new(State::new(2));
    let mut store = store_of(BTreeStoreType::Write);
    // the root leaf fills up with three keys
    for (key, payload) in [("a", 1), ("b", 2), ("c", 3)] {
        t.insert(&mut tx, &mut store, k(key), payload).unwrap();
    }
    // the root is split on the way to its own median
    t.insert(&mut tx, &mut store, k("b"), 20).unwrap();
    assert_eq!(t.search(&mut tx, &mut store, &k("b")), Ok(Some(20)));
    store.finish(&mut tx).unwrap();
    let s = stats(&t, &mut tx);
    assert_eq!((s.keys_count, s.max_depth, s.nodes_count), (3, 2, 3));
    assert_eq!(check_tree(&t, &mut tx), vec![(k("a"), 1), (k("b"), 20), (k("c"), 3)]);
    // and a full child on the way to its median
    let mut t: BTree<TrieKeys> = BTree::new(State::new(2));
    let mut tx = MemoryTransaction::new();
    let mut store = store_of(BTreeStoreType::Write);
    for (key, payload) in [("a", 1), ("b", 2), ("c", 3), ("d", 4), ("e", 5)] {
        t.insert(&mut tx, &mut store, k(key), payload).unwrap();
    }
    // the leaf to the right now holds c, d and e
    t.insert(&mut tx, &mut store, k("d"), 40).unwrap();
    store.finish(&mut tx).unwrap();
    assert_eq!(
        check_tree(&t, &mut tx),
        vec![(k("a"), 1), (k("b"), 2), (k("c"), 3), (k("d"), 40), (k("e"), 5)]
    );
}

#[test]
fn total_size_is_the_size_of_the_records() {
    let mut tx = MemoryTransaction::new();
    let mut t: BTree<FstKeys> = BTree::new(State::new(5));
    let mut store = store_of(BTreeStoreType::Write);
    for i in 0..100u64 {
        t.insert(&mut tx, &mut store, format!("{}", i).into_bytes(), i * 10).unwrap();
    }
    store.finish(&mut tx).unwrap();
    let s = stats(&t, &mut tx);
    let records = tx.scan(&vec![], &vec![0xff], 1000).unwrap();
    assert_eq!(records.len(), s.nodes_count as usize);
    let bytes: usize = records.iter().map(|(_, val)| val.len()).sum();
    assert_eq!(s.total_size as usize, bytes);
    // each node: version, mark, kind and number of keys; each key: its
    // length, its bytes and its payload; each internal node: the number of
    // its children and their identifiers
    let mut expected = 0;
    for (_, _, stored) in t.inspect_nodes(&mut tx).unwrap() {
        expected += 2 + 1 + 8;
        let keys = stored.node.keys();
        for i in 0..keys.len() {
            expected += 8 + keys.get_key(i).unwrap().len() + 8;
        }
        if let Node::Internal(_, children) = &stored.node {
            expected += 8 + 8 * children.len();
        }
        assert_eq!(stored.size as usize, stored.node.try_to_val().unwrap().len());
    }
    assert_eq!(s.total_size as usize, expected);
    // the same insertions give the same sizes
    let mut tx2 = MemoryTransaction::new();
    let mut t2: BTree<FstKeys> = BTree::new(State::new(5));
    let mut store = store_of(BTreeStoreType::Write);
    for i in 0..100u64 {
        t2.insert(&mut tx2, &mut store, format!("{}", i).into_bytes(), i * 10).unwrap();
    }
    store.finish(&mut tx2).unwrap();
    assert_eq!(stats(&t2, &mut tx2), s);
}

#[test]
fn a_tree_is_found_again_from_its_state() {
    let mut tx = MemoryTransaction::new();
    let mut t: BTree<TrieKeys> = BTree::new(State::new(3));
    let mut store = store_of(BTreeStoreType::Write);
    for i in 0..30u64 {
        t.insert(&mut tx, &mut store, format!("{:02}", i).into_bytes(), i).unwrap();
    }
    store.finish(&mut tx).unwrap();
    let val = t.get_state().try_to_val().unwrap();
    let t2: BTree<TrieKeys> = BTree::new(State::try_from_val(val).unwrap());
    assert!(!t2.is_updated());
    let mut store = store_of(BTreeStoreType::Read);
    for i in 0..30u64 {
        assert_eq!(t2.search(&mut tx, &mut store, &format!("{:02}", i).into_bytes()), Ok(Some(i)));
    }
    assert_eq!(stats(&t2, &mut tx), stats(&t, &mut tx));
}

#[test]
fn a_small_cache_gives_the_same_tree() {
    let mut wide = MemoryTransaction::new();
    let mut narrow = MemoryTransaction::new();
    let mut t1: BTree<TrieKeys> = BTree::new(State::new(2));
    let mut t2: BTree<TrieKeys> = BTree::new(State::new(2));
    let mut s1: BTreeNodeStore<TrieKeys> =
        BTreeNodeStore::new(KeyProvider::Debug, BTreeStoreType::Write, 1000);
    let mut s2: BTreeNodeStore<TrieKeys> =
        BTreeNodeStore::new(KeyProvider::Debug, BTreeStoreType::Write, 1);
    for i in 0..120u64 {
        let key = format!("{:03}", (i * 37) % 120).into_bytes();
        t1.insert(&mut wide, &mut s1, key.clone(), i).unwrap();
        t2.insert(&mut narrow, &mut s2, key.clone(), i).unwrap();
        assert_eq!(t2.search(&mut narrow, &mut s2, &key), Ok(Some(i)));
    }
    for i in 0..60u64 {
        let key = format!("{:03}", (i * 2) % 120).into_bytes();
        let a = t1.delete(&mut wide, &mut s1, key.clone()).unwrap();
        let b = t2.delete(&mut narrow, &mut s2, key).unwrap();
        assert_eq!(a, b);
    }
    s1.finish(&mut wide).unwrap();
    s2.finish(&mut narrow).unwrap();
    assert_eq!(
        wide.scan(&vec![], &vec![0xff], 10000).unwrap(),
        narrow.scan(&vec![], &vec![0xff], 10000).unwrap()
    );
    assert_eq!(t1.get_state().root, t2.get_state().root);
}

#[test]
fn a_read_store_does_not_take_an_insertion() {
    let mut tx = MemoryTransaction::new();
    let mut t: BTree<TrieKeys> = BTree::new(State::new(2));
    let mut store = store_of(BTreeStoreType::Read);
    assert_eq!(t.insert(&mut tx, &mut store, k("a"), 1), Err(Error::CorruptedIndex));
    assert!(!t.is_updated());
    assert_eq!(tx.len(), 0);
}

#[test]
fn a_missing_node_is_reported() {
    let mut tx = MemoryTransaction::new();
    let state = State { minimum_degree: 2, root: Some(3), next_node_id: 4 };
    let mut t: BTree<TrieKeys> = BTree::new(state);
    let mut store = store_of(BTreeStoreType::Write);
    assert_eq!(t.search(&mut tx, &mut store, &k("a")), Err(Error::CorruptedIndex));
    assert_eq!(t.insert(&mut tx, &mut store, k("a"), 1), Err(Error::CorruptedIndex));
    assert_eq!(t.delete(&mut tx, &mut store, k("a")), Err(Error::CorruptedIndex));
    let mut store = store_of(BTreeStoreType::Traversal);
    assert!(matches!(t.statistics(&mut tx, &mut store), Err(Error::CorruptedIndex)));
    assert!(matches!(t.inspect_nodes(&mut tx), Err(Error::CorruptedIndex)));
}

#[test]
fn a_node_that_is_its_own_child_is_reported() {
    let mut tx = MemoryTransaction::new();
    let mut keys = TrieKeys::new();
    keys.insert(k("m"), 1);
    let node = Node::Internal(keys, vec![0, 0]);
    tx.set(KeyProvider::Debug.get_node_key(0), node.try_to_val().unwrap()).unwrap();
    let state = State { minimum_degree: 2, root: Some(0), next_node_id: 1 };
    let mut t: BTree<TrieKeys> = BTree::new(state);
    let mut store = store_of(BTreeStoreType::Write);
    assert_eq!(t.search(&mut tx, &mut store, &k("a")), Err(Error::CorruptedIndex));
    assert_eq!(t.search(&mut tx, &mut store, &k("m")), Ok(Some(1)));
    assert_eq!(t.delete(&mut tx, &mut store, k("a")), Err(Error::CorruptedIndex));
}

#[test]
fn identifiers_run_out() {
    assert_eq!(MAX_NODE_ID, 0x7fff_ffff_ffff_fff0);
    let mut tx = MemoryTransaction::new();
    let state = State { minimum_degree: 2, root: None, next_node_id: u64::MAX };
    let mut t: BTree<TrieKeys> = BTree::new(state);
    let mut store = store_of(BTreeStoreType::Write);
    assert_eq!(t.insert(&mut tx, &mut store, k("a"), 1), Err(Error::Unreachable));
    assert_eq!(t.get_state().next_node_id, u64::MAX);
    assert_eq!(t.get_state().root, None);
    let state = State { minimum_degree: 2, root: None, next_node_id: u64::MAX - 1 };
    let mut t: BTree<TrieKeys> = BTree::new(state);
    assert_eq!(t.insert(&mut tx, &mut store, k("a"), 1), Ok(()));
    assert_eq!(t.get_state().root, Some(u64::MAX - 1));
}

/// A transaction whose store is down.
struct Down;

impl Transaction for Down {
    fn view(&self) -> vstd::map::Map<vstd::seq::Seq<u8>, vstd::seq::Seq<u8>> {
        unreachable!()
    }

    fn wf(&self) -> bool {
        unreachable!()
    }

    fn reliable(&self) -> bool {
        unreachable!()
    }

    fn get(&mut self, _key: &Vec<u8>) -> Result<Option<Vec<u8>>, Error> {
        Err(Error::Backend("down".to_string()))
    }

    fn set(&mut self, _key: Vec<u8>, _val: Vec<u8>) -> Result<(), Error> {
        Err(Error::Backend("down".to_string()))
    }

    fn del(&mut self, _key: Vec<u8>) -> Result<(), Error> {
        Err(Error::Backend("down".to_string()))
    }

    fn scan(
        &mut self,
        _begin: &Vec<u8>,
        _end: &Vec<u8>,
        _limit: u32,
    ) -> Result<Vec<(Vec<u8>, Vec<u8>)>, Error> {
        Err(Error::Backend("down".to_string()))
    }
}

#[test]
fn a_failure_of_the_store_is_passed_on() {
    let mut tx = Down;
    let state = State { minimum_degree: 2, root: Some(0), next_node_id: 1 };
    let mut t: BTree<TrieKeys> = BTree::new(state);
    let mut store = store_of(BTreeStoreType::Write);
    let down = Err(Error::Backend("down".to_string()));
    assert_eq!(t.search(&mut tx, &mut store, &k("a")), down);
    assert_eq!(t.insert(&mut tx, &mut store, k("a"), 1), Err(Error::Backend("down".to_string())));
    assert_eq!(t.delete(&mut tx, &mut store, k("a")), Err(Error::Backend("down".to_string())));
    // an insertion into an empty tree stays in the cache until the store finishes
    let mut t: BTree<TrieKeys> = BTree::new(State::new(2));
    assert_eq!(t.insert(&mut tx, &mut store, k("a"), 1), Ok(()));
    assert_eq!(store.finish(&mut tx), Err(Error::Backend("down".to_string())));
}

#[test]
fn deletion_with_every_kind_of_step() {
    // a tree of degree two, two levels high
    let build = |keys: &[&str]| {
        let mut tx = MemoryTransaction::new();
        let mut t: BTree<TrieKeys> = BTree::new(State::new(2));
        let mut store = store_of(BTreeStoreType::Write);
        for (i, key) in keys.iter().enumerate() {
            t.insert(&mut tx, &mut store, k(key), i as u64).unwrap();
        }
        store.finish(&mut tx).unwrap();
        (tx, t)
    };
    let delete = |tx: &mut MemoryTransaction, t: &mut BTree<TrieKeys>, key: &str| {
        let mut store = store_of(BTreeStoreType::Write);
        let found = t.delete(tx, &mut store, k(key)).unwrap();
        store.finish(tx).unwrap();
        found
    };
    let keys_of = |tx: &mut MemoryTransaction, t: &BTree<TrieKeys>| -> Vec<Vec<u8>> {
        check_tree(t, tx).into_iter().map(|(key, _)| key).collect()
    };
    // root [b] over the leaves [a] and [c, d, e]
    let (mut tx, mut t) = build(&["a", "b", "c", "d", "e"]);
    assert_eq!(stats(&t, &mut tx).nodes_count, 3);
    // the leaf of `a` takes a key from its right sibling
    assert_eq!(delete(&mut tx, &mut t, "a"), Some(0));
    assert_eq!(keys_of(&mut tx, &t), vec![k("b"), k("c"), k("d"), k("e")]);
    assert_eq!(stats(&t, &mut tx).nodes_count, 3);
    // a key of the root is replaced by the first key of the leaf behind it
    assert_eq!(delete(&mut tx, &mut t, "c"), Some(2));
    assert_eq!(keys_of(&mut tx, &t), vec![k("b"), k("d"), k("e")]);
    // the two leaves are merged, and the merged leaf becomes the root
    assert_eq!(delete(&mut tx, &mut t, "d"), Some(3));
    assert_eq!(keys_of(&mut tx, &t), vec![k("b"), k("e")]);
    let s = stats(&t, &mut tx);
    assert_eq!((s.max_depth, s.nodes_count), (1, 1));
    assert_eq!(delete(&mut tx, &mut t, "x"), None);
    assert_eq!(delete(&mut tx, &mut t, "b"), Some(1));
    assert_eq!(delete(&mut tx, &mut t, "e"), Some(4));
    assert_eq!(t.get_state().root, None);
    assert_eq!(tx.len(), 0);
    // root [d] over the leaves [a, b, c] and [e]
    let (mut tx, mut t) = build(&["c", "d", "e", "b", "a"]);
    // the leaf of `e` takes a key from its left sibling
    assert_eq!(delete(&mut tx, &mut t, "e"), Some(2));
    assert_eq!(keys_of(&mut tx, &t), vec![k("a"), k("b"), k("c"), k("d")]);
    // a key of the root is replaced by the last key of the leaf before it
    assert_eq!(delete(&mut tx, &mut t, "c"), Some(0));
    assert_eq!(keys_of(&mut tx, &t), vec![k("a"), k("b"), k("d")]);
    assert_eq!(stats(&t, &mut tx).nodes_count, 3);
    // the key of the root goes down into the merged leaves and is deleted there
    assert_eq!(delete(&mut tx, &mut t, "b"), Some(3));
    assert_eq!(keys_of(&mut tx, &t), vec![k("a"), k("d")]);
    assert_eq!(stats(&t, &mut tx).nodes_count, 1);
}

#[test]
fn deletion_from_the_leaves_of_a_high_tree() {
    let mut tx = MemoryTransaction::new();
    let mut t: BTree<FstKeys> = BTree::new(State::new(2));
    let mut expected: BTreeMap<Vec<u8>, Payload> = BTreeMap::new();
    let mut store = store_of(BTreeStoreType::Write);
    for i in 0..200u64 {
        let key = format!("{:03}", i).into_bytes();
        t.insert(&mut tx, &mut store, key.clone(), i).unwrap();
        expected.insert(key, i);
    }
    store.finish(&mut tx).unwrap();
    assert!(stats(&t, &mut tx).max_depth >= 4);
    // the keys that stand in leaves
    let mut in_leaves = vec![];
    for (_, _, stored) in t.inspect_nodes(&mut tx).unwrap() {
        if let Node::Leaf(keys) = &stored.node {
            in_leaves.push(keys.get_key(0).unwrap());
        }
    }
    for key in in_leaves {
        let mut store = store_of(BTreeStoreType::Write);
        let found = t.delete(&mut tx, &mut store, key.clone()).unwrap();
        store.finish(&mut tx).unwrap();
        // a rotation or a merge on the way may have moved the key; it is
        // deleted wherever it stands when the walk comes to it
        assert_eq!(found, expected.remove(&key));
        if t.get_state().root.is_some() {
            let s = stats(&t, &mut tx);
            assert_eq!(s.keys_count as usize, expected.len());
        }
    }
    let mut store = store_of(BTreeStoreType::Read);
    for (key, payload) in &expected {
        assert_eq!(t.search(&mut tx, &mut store, key), Ok(Some(*payload)));
    }
}

fn leaf(pairs: &[(&str, Payload)]) -> Node<TrieKeys> {
    let mut keys = TrieKeys::new();
    for (key, payload) in pairs {
        keys.insert(k(key), *payload);
    }
    Node::Leaf(keys)
}

fn internal(pairs: &[(&str, Payload)], children: &[NodeId]) -> Node<TrieKeys> {
    let mut keys = TrieKeys::new();
    for (key, payload) in pairs {
        keys.insert(k(key), *payload);
    }
    Node::Internal(keys, children.to_vec())
}

fn tree_of(degree: u32, root: NodeId, nodes: Vec<Node<TrieKeys>>) -> (MemoryTransaction, BTree<TrieKeys>) {
    let mut tx = MemoryTransaction::new();
    let count = nodes.len() as NodeId;
    for (id, node) in nodes.into_iter().enumerate() {
        let key = KeyProvider::Debug.get_node_key(id as NodeId);
        tx.set(key, node.try_to_val().unwrap()).unwrap();
    }
    let state = State { minimum_degree: degree, root: Some(root), next_node_id: count };
    (tx, BTree::new(state))
}

#[test]
fn deletion_of_a_key_high_in_the_tree_between_nodes_that_merge() {
    // three levels of nodes with one key each
    let (mut tx, mut t) = tree_of(
        2,
        6,
        vec![
            leaf(&[("a", 1)]),
            leaf(&[("c", 3)]),
            leaf(&[("e", 5)]),
            leaf(&[("g", 7)]),
            internal(&[("b", 2)], &[0, 1]),
            internal(&[("f", 6)], &[2, 3]),
            internal(&[("d", 4)], &[4, 5]),
        ],
    );
    assert_eq!(check_tree(&t, &mut tx).len(), 7);
    let mut store = store_of(BTreeStoreType::Write);
    assert_eq!(t.delete(&mut tx, &mut store, k("d")), Ok(Some(4)));
    store.finish(&mut tx).unwrap();
    // the two nodes under the root have become the root, and the leaves
    // around the key one leaf
    assert_eq!(t.get_state().root, Some(4));
    assert_eq!(
        check_tree(&t, &mut tx),
        vec![(k("a"), 1), (k("b"), 2), (k("c"), 3), (k("e"), 5), (k("f"), 6), (k("g"), 7)]
    );
    let s = stats(&t, &mut tx);
    assert_eq!((s.keys_count, s.max_depth, s.nodes_count), (6, 2, 4));
    assert_eq!(tx.len(), 4);
    let mut store = store_of(BTreeStoreType::Read);
    assert_eq!(t.search(&mut tx, &mut store, &k("d")), Ok(None));
    for (key, payload) in [("a", 1), ("b", 2), ("c", 3), ("e", 5), ("f", 6), ("g", 7)] {
        assert_eq!(t.search(&mut tx, &mut store, &k(key)), Ok(Some(payload)));
    }
}

#[test]
fn deletion_of_a_key_high_in_the_tree_under_a_root_that_stays() {
    // the root keeps a key; the nodes around the key to delete merge, and
    // the nodes around it one level down merge again
    let (mut tx, mut t) = tree_of(
        2,
        14,
        vec![
            leaf(&[("a", 1)]),
            leaf(&[("c", 3)]),
            leaf(&[("e", 5)]),
            leaf(&[("g", 7)]),
            leaf(&[("i", 9)]),
            leaf(&[("k", 11)]),
            internal(&[("b", 2)], &[0, 1]),
            internal(&[("f", 6)], &[2, 3]),
            internal(&[("j", 10)], &[4, 5]),
            leaf(&[("m", 13)]),
            leaf(&[("o", 15)]),
            internal(&[("n", 14)], &[9, 10]),
            internal(&[("d", 4), ("h", 8)], &[6, 7, 8]),
            internal(&[("p", 16)], &[11, 15]),
            internal(&[("l", 12)], &[12, 13]),
            internal(&[("r", 18)], &[16, 17]),
            leaf(&[("q", 17)]),
            leaf(&[("s", 19)]),
        ],
    );
    let before = check_tree(&t, &mut tx);
    assert_eq!(before.len(), 19);
    let mut store = store_of(BTreeStoreType::Write);
    // `h` stands in a node two levels above the leaves
    assert_eq!(t.delete(&mut tx, &mut store, k("h")), Ok(Some(8)));
    store.finish(&mut tx).unwrap();
    let after = check_tree(&t, &mut tx);
    let expected: Vec<(Vec<u8>, Payload)> =
        before.iter().filter(|(key, _)| *key != k("h")).cloned().collect();
    assert_eq!(after, expected);
    let mut store = store_of(BTreeStoreType::Read);
    assert_eq!(t.search(&mut tx, &mut store, &k("h")), Ok(None));
}

/// As `check_tree`, but for the order of the keys.
fn check_shape<BK: BKeys>(t: &BTree<BK>, tx: &mut MemoryTransaction) -> usize {
    let state = *t.get_state();
    let nodes = t.inspect_nodes(tx).unwrap();
    let mut by_id: BTreeMap<NodeId, (usize, Node<BK>)> = BTreeMap::new();
    let mut last_depth = 1;
    for (depth, id, stored) in nodes {
        assert!(depth >= last_depth, "the nodes are not listed level by level");
        last_depth = depth;
        assert!(by_id.insert(id, (depth, stored.node)).is_none(), "a node is listed twice");
    }
    let Some(root) = state.root else {
        assert!(by_id.is_empty());
        return 0;
    };
    let max_depth = by_id.values().map(|(depth, _)| *depth).max().unwrap();
    let mut out = vec![];
    walk(&by_id, root, 1, max_depth, state.minimum_degree as usize, true, &mut out);
    out.len()
}

#[test]
fn deletion_of_a_key_high_in_the_tree_beside_a_node_with_a_key_to_spare() {
    let (mut tx, mut t) = tree_of(
        2,
        7,
        vec![
            leaf(&[("10", 10)]),
            leaf(&[("30", 30)]),
            leaf(&[("45", 45)]),
            leaf(&[("60", 60)]),
            leaf(&[("80", 80)]),
            internal(&[("20", 20), ("40", 40)], &[0, 1, 2]),
            internal(&[("70", 70)], &[3, 4]),
            internal(&[("50", 50)], &[5, 6]),
        ],
    );
    assert_eq!(check_tree(&t, &mut tx).len(), 9);
    let mut store = store_of(BTreeStoreType::Write);
    // the last key of the node before the key takes its place, and is then
    // deleted from that node, whose last two leaves are merged for it
    assert_eq!(t.delete(&mut tx, &mut store, k("50")), Ok(Some(50)));
    store.finish(&mut tx).unwrap();
    assert_eq!(t.get_state().root, Some(7));
    assert_eq!(check_shape(&t, &mut tx), 8);
    let s = stats(&t, &mut tx);
    assert_eq!((s.keys_count, s.max_depth, s.nodes_count), (8, 3, 7));
    assert_eq!(tx.len(), 7);
    let nodes = t.inspect_nodes(&mut tx).unwrap();
    let keys_of = |id: NodeId| -> Vec<Vec<u8>> {
        let (_, _, stored) = nodes.iter().find(|(_, node, _)| *node == id).unwrap();
        let keys = stored.node.keys();
        (0..keys.len()).map(|i| keys.get_key(i).unwrap()).collect()
    };
    assert_eq!(keys_of(7), vec![k("40")]);
    assert_eq!(keys_of(5), vec![k("20")]);
    assert_eq!(keys_of(1), vec![k("30"), k("45")]);
    assert_eq!(keys_of(6), vec![k("70")]);
}

#[test]
fn a_record_that_is_no_node_is_reported() {
    let mut tx = MemoryTransaction::new();
    tx.set(KeyProvider::Debug.get_node_key(0), vec![9, 9, 9]).unwrap();
    let mut store: BTreeNodeStore<TrieKeys> = store_of(BTreeStoreType::Write);
    assert!(matches!(store.get_node(&mut tx, 0), Err(Error::EncodingFailure)));
    assert!(matches!(store.get_node(&mut tx, 1), Err(Error::CorruptedIndex)));
    let mut down = Down;
    assert!(matches!(store.get_node(&mut down, 1), Err(Error::Backend(_))));
}
