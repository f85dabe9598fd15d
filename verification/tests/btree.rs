use btree_index::bkeys::{BKeys, FstKeys, TrieKeys};
use btree_index::btree::{BTree, Statistics};
use btree_index::kv::{MemoryTransaction, Transaction};
use btree_index::node::{Node, NodeId, Payload};
use btree_index::state::State;
use btree_index::store::{BTreeNodeStore, BTreeStoreType, KeyProvider};
use rand::seq::SliceRandom;
use rand::thread_rng;
use std::collections::HashMap;

type Key = Vec<u8>;

#[test]
fn test_btree_state_serde() {
    let s = State::new(3);
    let val = s.try_to_val().unwrap();
    let s: State = State::try_from_val(val).unwrap();
    assert_eq!(s.minimum_degree, 3);
    assert_eq!(s.root, None);
    assert_eq!(s.next_node_id, 0);
}

#[test]
fn test_node_serde_internal() {
    let mut node = Node::Internal(FstKeys::default(), vec![]);
    node.keys_mut().compile();
    let val = node.try_to_val().unwrap();
    let _: Node<FstKeys> = Node::try_from_val(val).unwrap();
}

#[test]
fn test_node_serde_leaf() {
    let node = Node::Leaf(TrieKeys::default());
    let val = node.try_to_val().unwrap();
    let _: Node<TrieKeys> = Node::try_from_val(val).unwrap();
}

fn write_store<BK: BKeys>() -> BTreeNodeStore<BK> {
    BTreeNodeStore::new(KeyProvider::Debug, BTreeStoreType::Write, 20)
}

fn read_store<BK: BKeys>() -> BTreeNodeStore<BK> {
    BTreeNodeStore::new(KeyProvider::Debug, BTreeStoreType::Read, 20)
}

fn traversal_store<BK: BKeys>() -> BTreeNodeStore<BK> {
    BTreeNodeStore::new(KeyProvider::Debug, BTreeStoreType::Traversal, 0)
}

fn insertions_test<F, BK>(
    tx: &mut MemoryTransaction,
    store: &mut BTreeNodeStore<BK>,
    t: &mut BTree<BK>,
    samples_size: usize,
    sample_provider: F,
) where
    F: Fn(usize) -> (Key, Payload),
    BK: BKeys,
{
    for i in 0..samples_size {
        let (key, payload) = sample_provider(i);
        // Insert the sample
        t.insert(tx, store, key.clone(), payload).unwrap();
        // Check we can find it
        assert_eq!(t.search(tx, store, &key).unwrap(), Some(payload));
    }
}

fn get_key_value(idx: usize) -> (Key, Payload) {
    (format!("{}", idx).into(), (idx * 10) as Payload)
}

fn statistics_of<BK: BKeys>(t: &BTree<BK>, tx: &mut MemoryTransaction) -> Statistics {
    t.statistics(tx, &mut traversal_store::<BK>()).unwrap()
}

#[test]
fn test_btree_fst_small_order_sequential_insertions() {
    let mut s = write_store::<FstKeys>();
    let mut t = BTree::new(State::new(5));
    let mut tx = MemoryTransaction::new();
    insertions_test::<_, FstKeys>(&mut tx, &mut s, &mut t, 100, get_key_value);
    s.finish(&mut tx).unwrap();
    let stats = statistics_of(&t, &mut tx);
    assert_eq!(
        stats,
        Statistics { keys_count: 100, max_depth: 3, nodes_count: 22, total_size: 2232 }
    );
}

#[test]
fn test_btree_trie_small_order_sequential_insertions() {
    let mut s = write_store::<TrieKeys>();
    let mut t = BTree::new(State::new(6));
    let mut tx = MemoryTransaction::new();
    insertions_test::<_, TrieKeys>(&mut tx, &mut s, &mut t, 100, get_key_value);
    s.finish(&mut tx).unwrap();
    let stats = statistics_of(&t, &mut tx);
    assert_eq!(
        stats,
        Statistics { keys_count: 100, max_depth: 3, nodes_count: 18, total_size: 2148 }
    );
}

#[test]
fn test_btree_fst_small_order_random_insertions() {
    let mut s = write_store::<FstKeys>();
    let mut tx = MemoryTransaction::new();
    let mut t = BTree::new(State::new(8));
    let mut samples: Vec<usize> = (0..100).collect();
    let mut rng = thread_rng();
    samples.shuffle(&mut rng);
    insertions_test::<_, FstKeys>(&mut tx, &mut s, &mut t, 100, |i| get_key_value(samples[i]));
    s.finish(&mut tx).unwrap();
    let stats = statistics_of(&t, &mut tx);
    assert_eq!(stats.keys_count, 100);
}

#[test]
fn test_btree_trie_small_order_random_insertions() {
    let mut s = write_store::<TrieKeys>();
    let mut tx = MemoryTransaction::new();
    let mut t = BTree::new(State::new(75));
    let mut samples: Vec<usize> = (0..100).collect();
    let mut rng = thread_rng();
    samples.shuffle(&mut rng);
    insertions_test::<_, TrieKeys>(&mut tx, &mut s, &mut t, 100, |i| get_key_value(samples[i]));
    s.finish(&mut tx).unwrap();
    let stats = statistics_of(&t, &mut tx);
    assert_eq!(stats.keys_count, 100);
}

#[test]
fn test_btree_fst_keys_large_order_sequential_insertions() {
    let mut s = write_store::<FstKeys>();
    let mut tx = MemoryTransaction::new();
    let mut t = BTree::new(State::new(60));
    insertions_test::<_, FstKeys>(&mut tx, &mut s, &mut t, 10000, get_key_value);
    s.finish(&mut tx).unwrap();
    let stats = statistics_of(&t, &mut tx);
    assert_eq!(
        stats,
        Statistics { keys_count: 10000, max_depth: 3, nodes_count: 158, total_size: 201908 }
    );
}

#[test]
fn test_btree_trie_keys_large_order_sequential_insertions() {
    let mut s = write_store::<TrieKeys>();
    let mut tx = MemoryTransaction::new();
    let mut t = BTree::new(State::new(60));
    insertions_test::<_, TrieKeys>(&mut tx, &mut s, &mut t, 10000, get_key_value);
    s.finish(&mut tx).unwrap();
    let stats = statistics_of(&t, &mut tx);
    assert_eq!(
        stats,
        Statistics { keys_count: 10000, max_depth: 3, nodes_count: 158, total_size: 201908 }
    );
}

const REAL_WORLD_TERMS: [&str; 30] = [
    "the", "quick", "brown", "fox", "jumped", "over", "the", "lazy", "dog", "the", "fast", "fox",
    "jumped", "over", "the", "lazy", "dog", "the", "dog", "sat", "there", "and", "did", "nothing",
    "the", "other", "animals", "sat", "there", "watching",
];

fn test_btree_read_world_insertions<BK: BKeys>(default_minimum_degree: u32) -> Statistics {
    let mut s = write_store::<BK>();
    let mut tx = MemoryTransaction::new();
    let mut t = BTree::new(State::new(default_minimum_degree));
    insertions_test::<_, BK>(&mut tx, &mut s, &mut t, REAL_WORLD_TERMS.len(), |i| {
        (REAL_WORLD_TERMS[i].as_bytes().to_vec(), i as Payload)
    });
    s.finish(&mut tx).unwrap();
    statistics_of(&t, &mut tx)
}

#[test]
fn test_btree_fst_keys_read_world_insertions_small_order() {
    let s = test_btree_read_world_insertions::<FstKeys>(4);
    assert_eq!(s, Statistics { keys_count: 17, max_depth: 2, nodes_count: 5, total_size: 445 });
}

#[test]
fn test_btree_fst_keys_read_world_insertions_large_order() {
    let s = test_btree_read_world_insertions::<FstKeys>(100);
    assert_eq!(s, Statistics { keys_count: 17, max_depth: 1, nodes_count: 1, total_size: 361 });
}

#[test]
fn test_btree_trie_keys_read_world_insertions_small_order() {
    let s = test_btree_read_world_insertions::<TrieKeys>(6);
    assert_eq!(s, Statistics { keys_count: 17, max_depth: 2, nodes_count: 3, total_size: 407 });
}

#[test]
fn test_btree_trie_keys_read_world_insertions_large_order() {
    let s = test_btree_read_world_insertions::<TrieKeys>(100);
    assert_eq!(s, Statistics { keys_count: 17, max_depth: 1, nodes_count: 1, total_size: 361 });
}

// The example of the chapter on B-trees in "Introduction to Algorithms"
const CLRS_EXAMPLE: [(&str, Payload); 23] = [
    ("a", 1),
    ("c", 3),
    ("g", 7),
    ("j", 10),
    ("k", 11),
    ("m", 13),
    ("n", 14),
    ("o", 15),
    ("p", 16),
    ("t", 20),
    ("u", 21),
    ("x", 24),
    ("y", 25),
    ("z", 26),
    ("v", 22),
    ("d", 4),
    ("e", 5),
    ("r", 18),
    ("s", 19), // (a) Initial tree
    ("b", 2),  // (b) B inserted
    ("q", 17), // (c) Q inserted
    ("l", 12), // (d) L inserted
    ("f", 6),  // (e) F inserted
];

fn check_keys<BK: BKeys>(keys: &BK, expected_keys: Vec<(&str, i32)>) {
    assert_eq!(keys.len(), expected_keys.len(), "The number of keys does not match");
    for (key, payload) in expected_keys {
        assert_eq!(
            keys.get(&key.as_bytes().to_vec()),
            Some(payload as Payload),
            "The key {} does not match",
            key
        );
    }
}

fn check_is_internal_node<BK: BKeys>(
    node: Node<BK>,
    expected_keys: Vec<(&str, i32)>,
    expected_children: Vec<NodeId>,
) {
    if let Node::Internal(keys, children) = node {
        check_keys(&keys, expected_keys);
        assert_eq!(children, expected_children, "The children are not matching");
    } else {
        panic!("An internal node was expected, we got a leaf node");
    }
}

fn check_is_leaf_node<BK: BKeys>(node: Node<BK>, expected_keys: Vec<(&str, i32)>) {
    if let Node::Leaf(keys) = node {
        check_keys(&keys, expected_keys);
    } else {
        panic!("An internal node was expected, we got a leaf node");
    }
}

fn scan_count(tx: &mut MemoryTransaction) -> usize {
    tx.scan(&vec![], &vec![0xf], 100).unwrap().len()
}

// This checks node splitting. CLRS: Figure 18.7, page 498.
#[test]
fn clrs_insertion_test() {
    let mut s = write_store::<TrieKeys>();
    let mut t = BTree::<TrieKeys>::new(State::new(3));
    let mut tx = MemoryTransaction::new();
    for (key, payload) in CLRS_EXAMPLE {
        t.insert(&mut tx, &mut s, key.into(), payload).unwrap();
    }
    s.finish(&mut tx).unwrap();

    let s = statistics_of(&t, &mut tx);
    assert_eq!(s.keys_count, 23);
    assert_eq!(s.max_depth, 3);
    assert_eq!(s.nodes_count, 10);
    // There should be one record per node
    assert_eq!(10, scan_count(&mut tx));

    let nodes = t.inspect_nodes(&mut tx).unwrap();
    let nodes_count = nodes.len();
    for (count, (depth, node_id, node)) in nodes.into_iter().enumerate() {
        match count {
            0 => {
                assert_eq!(depth, 1);
                assert_eq!(node_id, 7);
                check_is_internal_node(node.node, vec![("p", 16)], vec![1, 8]);
            }
            1 => {
                assert_eq!(depth, 2);
                assert_eq!(node_id, 1);
                check_is_internal_node(
                    node.node,
                    vec![("c", 3), ("g", 7), ("m", 13)],
                    vec![0, 9, 2, 3],
                );
            }
            2 => {
                assert_eq!(depth, 2);
                assert_eq!(node_id, 8);
                check_is_internal_node(node.node, vec![("t", 20), ("x", 24)], vec![4, 6, 5]);
            }
            3 => {
                assert_eq!(depth, 3);
                assert_eq!(node_id, 0);
                check_is_leaf_node(node.node, vec![("a", 1), ("b", 2)]);
            }
            4 => {
                assert_eq!(depth, 3);
                assert_eq!(node_id, 9);
                check_is_leaf_node(node.node, vec![("d", 4), ("e", 5), ("f", 6)]);
            }
            5 => {
                assert_eq!(depth, 3);
                assert_eq!(node_id, 2);
                check_is_leaf_node(node.node, vec![("j", 10), ("k", 11), ("l", 12)]);
            }
            6 => {
                assert_eq!(depth, 3);
                assert_eq!(node_id, 3);
                check_is_leaf_node(node.node, vec![("n", 14), ("o", 15)]);
            }
            7 => {
                assert_eq!(depth, 3);
                assert_eq!(node_id, 4);
                check_is_leaf_node(node.node, vec![("q", 17), ("r", 18), ("s", 19)]);
            }
            8 => {
                assert_eq!(depth, 3);
                assert_eq!(node_id, 6);
                check_is_leaf_node(node.node, vec![("u", 21), ("v", 22)]);
            }
            9 => {
                assert_eq!(depth, 3);
                assert_eq!(node_id, 5);
                check_is_leaf_node(node.node, vec![("y", 25), ("z", 26)]);
            }
            _ => panic!("This node should not exist {}", count),
        }
    }
    assert_eq!(nodes_count, 10);
}

// This checks the possible deletion cases. CLRS, Figure 18.8, pages 500-501
fn test_btree_clrs_deletion_test<BK: BKeys>(mut t: BTree<BK>) {
    let mut tx = MemoryTransaction::new();

    {
        let mut s = write_store::<BK>();
        for (key, payload) in CLRS_EXAMPLE {
            t.insert(&mut tx, &mut s, key.into(), payload).unwrap();
        }
        s.finish(&mut tx).unwrap();
    }

    {
        for (key, payload) in [("f", 6), ("m", 13), ("g", 7), ("d", 4), ("b", 2)] {
            let mut s = write_store::<BK>();
            assert_eq!(t.delete(&mut tx, &mut s, key.into()).unwrap(), Some(payload));
            s.finish(&mut tx).unwrap();
        }
    }

    let s = statistics_of(&t, &mut tx);
    assert_eq!(s.keys_count, 18);
    assert_eq!(s.max_depth, 2);
    assert_eq!(s.nodes_count, 7);
    // There should be one record per node
    assert_eq!(7, scan_count(&mut tx));

    let nodes = t.inspect_nodes(&mut tx).unwrap();
    let nodes_count = nodes.len();
    for (count, (depth, node_id, node)) in nodes.into_iter().enumerate() {
        match count {
            0 => {
                assert_eq!(depth, 1);
                assert_eq!(node_id, 1);
                check_is_internal_node(
                    node.node,
                    vec![("e", 5), ("l", 12), ("p", 16), ("t", 20), ("x", 24)],
                    vec![0, 9, 3, 4, 6, 5],
                );
            }
            1 => {
                assert_eq!(depth, 2);
                assert_eq!(node_id, 0);
                check_is_leaf_node(node.node, vec![("a", 1), ("c", 3)]);
            }
            2 => {
                assert_eq!(depth, 2);
                assert_eq!(node_id, 9);
                check_is_leaf_node(node.node, vec![("j", 10), ("k", 11)]);
            }
            3 => {
                assert_eq!(depth, 2);
                assert_eq!(node_id, 3);
                check_is_leaf_node(node.node, vec![("n", 14), ("o", 15)]);
            }
            4 => {
                assert_eq!(depth, 2);
                assert_eq!(node_id, 4);
                check_is_leaf_node(node.node, vec![("q", 17), ("r", 18), ("s", 19)]);
            }
            5 => {
                assert_eq!(depth, 2);
                assert_eq!(node_id, 6);
                check_is_leaf_node(node.node, vec![("u", 21), ("v", 22)]);
            }
            6 => {
                assert_eq!(depth, 2);
                assert_eq!(node_id, 5);
                check_is_leaf_node(node.node, vec![("y", 25), ("z", 26)]);
            }
            _ => panic!("This node should not exist {}", count),
        }
    }
    assert_eq!(nodes_count, 7);
}

#[test]
fn test_btree_trie_keys_clrs_deletion_test() {
    let t = BTree::<TrieKeys>::new(State::new(3));
    test_btree_clrs_deletion_test(t)
}

#[test]
fn test_btree_fst_keys_clrs_deletion_test() {
    let t = BTree::<FstKeys>::new(State::new(3));
    test_btree_clrs_deletion_test(t)
}

fn test_btree_fill_and_empty<BK: BKeys>(mut t: BTree<BK>) {
    let mut tx = MemoryTransaction::new();

    let mut expected_keys = HashMap::new();

    {
        let mut s = write_store::<BK>();
        for (key, payload) in CLRS_EXAMPLE {
            expected_keys.insert(key.to_string(), payload);
            t.insert(&mut tx, &mut s, key.into(), payload).unwrap();
        }
        s.finish(&mut tx).unwrap();
    }

    for (key, _) in CLRS_EXAMPLE {
        {
            let mut s = write_store::<BK>();
            t.delete(&mut tx, &mut s, key.into()).unwrap();
            s.finish(&mut tx).unwrap();
        }

        // Check that every expected keys are still found in the tree
        expected_keys.remove(key);

        {
            let mut s = read_store::<BK>();
            for (key, payload) in &expected_keys {
                assert_eq!(
                    t.search(&mut tx, &mut s, &key.as_bytes().to_vec()).unwrap(),
                    Some(*payload)
                )
            }
        }
    }

    let s = statistics_of(&t, &mut tx);
    assert_eq!(s.keys_count, 0);
    assert_eq!(s.max_depth, 0);
    assert_eq!(s.nodes_count, 0);
    // There should not be any record in the database
    assert_eq!(0, scan_count(&mut tx));
}

#[test]
fn test_btree_trie_keys_fill_and_empty() {
    let t = BTree::<TrieKeys>::new(State::new(3));
    test_btree_fill_and_empty(t)
}

#[test]
fn test_btree_fst_keys_fill_and_empty() {
    let t = BTree::<FstKeys>::new(State::new(3));
    test_btree_fill_and_empty(t)
}
