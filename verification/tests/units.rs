use btree_index::bkeys::{BKeys, FstKeys, TrieKeys};
use btree_index::err::Error;
use btree_index::kv::{MemoryTransaction, Transaction};
use btree_index::node::Node;
use btree_index::order::{compare_keys, key_less, KeyOrder};
use btree_index::state::State;
use btree_index::store::{BTreeNodeStore, BTreeStoreType, KeyProvider};

fn k(s: &str) -> Vec<u8> {
    s.as_bytes().to_vec()
}

#[test]
fn keys_compare_byte_by_byte() {
    assert_eq!(compare_keys(&vec![], &vec![0]), KeyOrder::Less);
    assert_eq!(compare_keys(&vec![1, 2], &vec![1, 3]), KeyOrder::Less);
    assert_eq!(compare_keys(&vec![1, 2], &vec![1, 2, 0]), KeyOrder::Less);
    assert_eq!(compare_keys(&vec![2], &vec![1, 255]), KeyOrder::Greater);
    assert_eq!(compare_keys(&vec![7, 7], &vec![7, 7]), KeyOrder::Equal);
    assert!(key_less(&k("10"), &k("9")));
    assert!(!key_less(&k("9"), &k("10")));
}

fn pack_of<BK: BKeys>(entries: &[(&str, u64)]) -> BK {
    let mut keys = BK::new();
    for (key, payload) in entries {
        keys.insert(k(key), *payload);
    }
    keys
}

fn check_pack_basics<BK: BKeys>() {
    let mut keys: BK = pack_of(&[("c", 3), ("a", 1), ("e", 5)]);
    assert_eq!(keys.len(), 3);
    assert_eq!(keys.get(&k("a")), Some(1));
    assert_eq!(keys.get(&k("c")), Some(3));
    assert_eq!(keys.get(&k("e")), Some(5));
    assert_eq!(keys.get(&k("b")), None);
    // an insert on a key that is there puts the new payload in its place
    keys.insert(k("c"), 30);
    assert_eq!(keys.len(), 3);
    assert_eq!(keys.get(&k("c")), Some(30));
    // the keys come in byte order
    assert_eq!(keys.get_key(0), Some(k("a")));
    assert_eq!(keys.get_key(1), Some(k("c")));
    assert_eq!(keys.get_key(2), Some(k("e")));
    assert_eq!(keys.get_key(3), None);
    assert_eq!(keys.get_payload(1), Some(30));
    assert_eq!(keys.get_first_key(), Some((k("a"), 1)));
    assert_eq!(keys.get_last_key(), Some((k("e"), 5)));
    // the child index is the smallest index whose key is above the key
    assert_eq!(keys.get_child_idx(&k("")), 0);
    assert_eq!(keys.get_child_idx(&k("a")), 1);
    assert_eq!(keys.get_child_idx(&k("b")), 1);
    assert_eq!(keys.get_child_idx(&k("c")), 2);
    assert_eq!(keys.get_child_idx(&k("d")), 2);
    assert_eq!(keys.get_child_idx(&k("e")), 3);
    assert_eq!(keys.get_child_idx(&k("z")), 3);
    assert_eq!(keys.remove(&k("c")), Some(30));
    assert_eq!(keys.remove(&k("c")), None);
    assert_eq!(keys.len(), 2);
    assert_eq!(keys.get_child_idx(&k("d")), 1);
    let empty = BK::new();
    assert_eq!(empty.len(), 0);
    assert_eq!(empty.get_first_key(), None);
    assert_eq!(empty.get_last_key(), None);
    let one = BK::with_key_val(k("x"), 9).unwrap();
    assert_eq!(one.len(), 1);
    assert_eq!(one.get(&k("x")), Some(9));
}

#[test]
fn trie_keys_basics() {
    check_pack_basics::<TrieKeys>();
}

#[test]
fn fst_keys_basics() {
    check_pack_basics::<FstKeys>();
}

fn check_pack_split<BK: BKeys>() {
    let keys: BK = pack_of(&[("a", 1), ("b", 2), ("c", 3), ("d", 4), ("e", 5)]);
    let r = keys.split_keys().unwrap();
    assert_eq!(r.median_idx, 2);
    assert_eq!(r.median_key, k("c"));
    assert_eq!(r.median_payload, 3);
    assert_eq!(r.left.len(), 2);
    assert_eq!(r.right.len(), 2);
    assert_eq!(r.left.get(&k("b")), Some(2));
    assert_eq!(r.right.get(&k("d")), Some(4));
    assert_eq!(r.left.get(&k("c")), None);
    assert_eq!(r.right.get(&k("c")), None);
    // an even number of keys: the smaller half goes to the left
    let keys: BK = pack_of(&[("a", 1), ("b", 2), ("c", 3), ("d", 4)]);
    let r = keys.split_keys().unwrap();
    assert_eq!(r.median_idx, 1);
    assert_eq!(r.median_key, k("b"));
    assert_eq!(r.left.len(), 1);
    assert_eq!(r.right.len(), 2);
    let keys: BK = pack_of(&[("a", 1)]);
    let r = keys.split_keys().unwrap();
    assert_eq!(r.median_idx, 0);
    assert_eq!(r.left.len(), 0);
    assert_eq!(r.right.len(), 0);
    let keys = BK::new();
    assert!(matches!(keys.split_keys(), Err(Error::CorruptedIndex)));
}

#[test]
fn trie_keys_split() {
    check_pack_split::<TrieKeys>();
}

#[test]
fn fst_keys_split() {
    check_pack_split::<FstKeys>();
}

fn check_pack_append<BK: BKeys>() {
    let mut low: BK = pack_of(&[("a", 1), ("b", 2)]);
    let high: BK = pack_of(&[("c", 3), ("d", 4)]);
    low.append(high);
    assert_eq!(low.len(), 4);
    assert_eq!(low.get_key(2), Some(k("c")));
    assert_eq!(low.get(&k("d")), Some(4));
    // keys that do not come behind the keys that are there are put in at
    // their places, and a key that is there gets the new payload
    let mut high: BK = pack_of(&[("c", 3), ("d", 4)]);
    let low: BK = pack_of(&[("a", 1), ("d", 2)]);
    high.append(low);
    assert_eq!(high.len(), 3);
    assert_eq!(high.get_key(0), Some(k("a")));
    assert_eq!(high.get(&k("a")), Some(1));
    assert_eq!(high.get(&k("c")), Some(3));
    assert_eq!(high.get(&k("d")), Some(2));
    let mut some: BK = pack_of(&[("a", 1)]);
    some.append(BK::new());
    assert_eq!(some.len(), 1);
}

#[test]
fn trie_keys_append() {
    check_pack_append::<TrieKeys>();
}

#[test]
fn fst_keys_append() {
    check_pack_append::<FstKeys>();
}

#[test]
fn fst_keys_need_compiling_before_they_are_written() {
    let mut keys = FstKeys::new();
    assert!(keys.is_compiled());
    keys.insert(k("a"), 1);
    assert!(!keys.is_compiled());
    let node = Node::Leaf(keys);
    assert!(matches!(node.try_to_val(), Err(Error::EncodingFailure)));
    let mut node = node;
    node.keys_mut().compile();
    assert!(node.keys().is_compiled());
    assert!(node.try_to_val().is_ok());
    let mut keys = TrieKeys::new();
    keys.insert(k("a"), 1);
    assert!(keys.is_compiled());
}

#[test]
fn node_append_joins_keys_and_children() {
    let mut left = Node::Internal(pack_of::<TrieKeys>(&[("a", 1)]), vec![10, 11]);
    let right = Node::Internal(pack_of::<TrieKeys>(&[("e", 5)]), vec![12, 13]);
    assert_eq!(left.append(k("c"), 3, right), Ok(()));
    match &left {
        Node::Internal(keys, children) => {
            assert_eq!(keys.len(), 3);
            assert_eq!(keys.get_key(1), Some(k("c")));
            assert_eq!(keys.get(&k("e")), Some(5));
            assert_eq!(children, &vec![10, 11, 12, 13]);
        }
        Node::Leaf(_) => panic!("an internal node was expected"),
    }
    let mut leaf = Node::Leaf(pack_of::<TrieKeys>(&[("a", 1)]));
    assert_eq!(leaf.append(k("b"), 2, Node::Leaf(pack_of::<TrieKeys>(&[("c", 3)]))), Ok(()));
    assert_eq!(leaf.keys().len(), 3);
    assert!(matches!(leaf, Node::Leaf(_)));
    // two nodes of one kind are joined whatever their keys
    let mut leaf = Node::Leaf(pack_of::<TrieKeys>(&[("m", 1)]));
    assert_eq!(leaf.append(k("b"), 2, Node::Leaf(pack_of::<TrieKeys>(&[("a", 3), ("m", 4)]))), Ok(()));
    assert_eq!(leaf.keys().len(), 3);
    assert_eq!(leaf.keys().get_key(0), Some(k("a")));
    assert_eq!(leaf.keys().get(&k("m")), Some(4));
}

#[test]
fn node_append_refuses_a_node_of_the_other_kind() {
    let mut leaf = Node::Leaf(pack_of::<TrieKeys>(&[("a", 1)]));
    let internal = Node::Internal(pack_of::<TrieKeys>(&[("e", 5)]), vec![1, 2]);
    assert_eq!(leaf.append(k("c"), 3, internal), Err(Error::CorruptedIndex));
    assert_eq!(leaf.keys().len(), 1);
    assert_eq!(leaf.keys().get(&k("c")), None);
    let mut internal = Node::Internal(pack_of::<TrieKeys>(&[("a", 1)]), vec![1, 2]);
    let leaf = Node::Leaf(pack_of::<TrieKeys>(&[("e", 5)]));
    assert_eq!(internal.append(k("c"), 3, leaf), Err(Error::CorruptedIndex));
}

fn check_node_round_trip<BK: BKeys>() {
    let mut keys: BK = pack_of(&[("apple", 1), ("pear", u64::MAX), ("", 7)]);
    keys.compile();
    let node = Node::Internal(keys, vec![3, 0, u64::MAX, 9]);
    let val = node.try_to_val().unwrap();
    let back: Node<BK> = Node::try_from_val(val.clone()).unwrap();
    match back {
        Node::Internal(keys, children) => {
            assert_eq!(children, vec![3, 0, u64::MAX, 9]);
            assert_eq!(keys.len(), 3);
            assert_eq!(keys.get_key(0), Some(k("")));
            assert_eq!(keys.get(&k("apple")), Some(1));
            assert_eq!(keys.get(&k("pear")), Some(u64::MAX));
        }
        Node::Leaf(_) => panic!("an internal node was expected"),
    }
    // what is read back is written as it was
    let back: Node<BK> = Node::try_from_val(val.clone()).unwrap();
    assert_eq!(back.try_to_val().unwrap(), val);
    let mut keys: BK = pack_of(&[("k", 5)]);
    keys.compile();
    let leaf = Node::Leaf(keys);
    let val = leaf.try_to_val().unwrap();
    let back: Node<BK> = Node::try_from_val(val).unwrap();
    assert!(matches!(back, Node::Leaf(_)));
    assert_eq!(back.keys().get(&k("k")), Some(5));
}

#[test]
fn node_round_trip_trie() {
    check_node_round_trip::<TrieKeys>();
}

#[test]
fn node_round_trip_fst() {
    check_node_round_trip::<FstKeys>();
}

#[test]
fn stored_node_sizes() {
    // version, leaf mark, kind, number of keys, length of the key, key, payload
    let leaf = Node::Leaf(pack_of::<TrieKeys>(&[("a", 1)]));
    assert_eq!(leaf.try_to_val().unwrap().len(), 2 + 1 + 8 + 8 + 1 + 8);
    // an internal node also stores the number of its children and each child
    let node = Node::Internal(pack_of::<TrieKeys>(&[("ab", 1)]), vec![1, 2]);
    assert_eq!(node.try_to_val().unwrap().len(), 2 + 8 + 2 * 8 + 1 + 8 + 8 + 2 + 8);
    let empty = Node::Leaf(TrieKeys::new());
    assert_eq!(empty.try_to_val().unwrap(), vec![1, 0, 1, 0, 0, 0, 0, 0, 0, 0, 0]);
    let empty = Node::Leaf(FstKeys::new());
    assert_eq!(empty.try_to_val().unwrap(), vec![1, 0, 2, 0, 0, 0, 0, 0, 0, 0, 0]);
}

#[test]
fn node_bytes_that_are_no_node_are_refused() {
    let refused = |val: Vec<u8>| {
        assert!(matches!(Node::<TrieKeys>::try_from_val(val), Err(Error::EncodingFailure)));
    };
    refused(vec![]);
    refused(vec![1]);
    // another version
    refused(vec![2, 0, 1, 0, 0, 0, 0, 0, 0, 0, 0]);
    // neither leaf nor internal node
    refused(vec![1, 2, 1, 0, 0, 0, 0, 0, 0, 0, 0]);
    // a pack of the other kind
    refused(vec![1, 0, 2, 0, 0, 0, 0, 0, 0, 0, 0]);
    // a byte too many
    refused(vec![1, 0, 1, 0, 0, 0, 0, 0, 0, 0, 0, 0]);
    // a key is announced and does not follow
    refused(vec![1, 0, 1, 0, 0, 0, 0, 0, 0, 0, 1]);
    // more children announced than there are bytes
    refused(vec![1, 1, 0, 0, 0, 0, 0, 0, 0, 9, 1, 0, 0, 0, 0, 0, 0, 0, 0]);
    // keys that do not ascend
    let mut val = vec![1, 0, 1, 0, 0, 0, 0, 0, 0, 0, 2];
    for key in [b'b', b'a'] {
        val.extend_from_slice(&[0, 0, 0, 0, 0, 0, 0, 1, key, 0, 0, 0, 0, 0, 0, 0, 5]);
    }
    refused(val.clone());
    // the same keys in order are a node
    let mut val = vec![1, 0, 1, 0, 0, 0, 0, 0, 0, 0, 2];
    for key in [b'a', b'b'] {
        val.extend_from_slice(&[0, 0, 0, 0, 0, 0, 0, 1, key, 0, 0, 0, 0, 0, 0, 0, 5]);
    }
    assert!(Node::<TrieKeys>::try_from_val(val.clone()).is_ok());
    assert!(matches!(Node::<FstKeys>::try_from_val(val), Err(Error::EncodingFailure)));
}

#[test]
fn state_round_trip() {
    let s = State { minimum_degree: 7, root: Some(42), next_node_id: 99 };
    let val = s.try_to_val().unwrap();
    assert_eq!(val.len(), 26);
    let back = State::try_from_val(val).unwrap();
    assert_eq!(back.minimum_degree, 7);
    assert_eq!(back.root, Some(42));
    assert_eq!(back.next_node_id, 99);
    let s = State::new(2);
    assert_eq!(
        s.try_to_val().unwrap(),
        vec![1, 0, 0, 0, 0, 0, 0, 0, 2, 0, 0, 0, 0, 0, 0, 0, 0, 0, 0, 0, 0, 0, 0, 0, 0, 0]
    );
}

#[test]
fn state_bytes_that_are_no_state_are_refused() {
    let good = State::new(3).try_to_val().unwrap();
    assert!(State::try_from_val(good.clone()).is_ok());
    let refused = |val: Vec<u8>| {
        assert!(matches!(State::try_from_val(val), Err(Error::EncodingFailure)));
    };
    refused(vec![]);
    refused(good[..25].to_vec());
    let mut val = good.clone();
    val.push(0);
    refused(val);
    // another version
    let mut val = good.clone();
    val[0] = 9;
    refused(val);
    // a minimum degree below two
    let mut val = good.clone();
    val[8] = 1;
    refused(val);
    // a minimum degree beyond 32 bits
    let mut val = good.clone();
    val[4] = 1;
    refused(val);
    // no root, and yet an identifier of a root
    let mut val = good.clone();
    val[17] = 5;
    refused(val);
    // a mark for the root that is neither
    let mut val = good.clone();
    val[9] = 2;
    refused(val);
}

#[test]
fn key_providers_give_distinct_keys() {
    let debug = KeyProvider::Debug;
    assert_eq!(debug.get_node_key(0), vec![0, 0, 0, 0, 0, 0, 0, 0]);
    assert_eq!(debug.get_node_key(258), vec![0, 0, 0, 0, 0, 0, 1, 2]);
    assert_eq!(debug.get_node_key(u64::MAX), vec![255; 8]);
    let prefixed = KeyProvider::Prefixed(k("ix"));
    assert_eq!(prefixed.get_node_key(258), vec![b'i', b'x', 0, 0, 0, 0, 0, 0, 1, 2]);
    assert_ne!(prefixed.get_node_key(1), prefixed.get_node_key(2));
}

#[test]
fn memory_transaction_records() {
    let mut tx = MemoryTransaction::new();
    assert_eq!(tx.len(), 0);
    assert_eq!(tx.get(&k("a")), Ok(None));
    assert_eq!(tx.set(k("b"), vec![2]), Ok(()));
    assert_eq!(tx.set(k("a"), vec![1]), Ok(()));
    assert_eq!(tx.set(k("c"), vec![3]), Ok(()));
    assert_eq!(tx.get(&k("a")), Ok(Some(vec![1])));
    assert_eq!(tx.get(&k("b")), Ok(Some(vec![2])));
    // a second record under a key takes the place of the first
    assert_eq!(tx.set(k("b"), vec![20, 21]), Ok(()));
    assert_eq!(tx.get(&k("b")), Ok(Some(vec![20, 21])));
    assert_eq!(tx.len(), 3);
    assert_eq!(tx.del(k("a")), Ok(()));
    assert_eq!(tx.del(k("a")), Ok(()));
    assert_eq!(tx.get(&k("a")), Ok(None));
    assert_eq!(tx.len(), 2);
}

#[test]
fn memory_transaction_scan() {
    let mut tx = MemoryTransaction::new();
    for key in ["d", "a", "c", "e", "b"] {
        tx.set(k(key), k(key)).unwrap();
    }
    let keys_of = |list: Vec<(Vec<u8>, Vec<u8>)>| -> Vec<Vec<u8>> {
        list.into_iter().map(|(key, _)| key).collect()
    };
    // from the first bound up to, not including, the second, in order
    assert_eq!(keys_of(tx.scan(&k("b"), &k("e"), 10).unwrap()), vec![k("b"), k("c"), k("d")]);
    assert_eq!(keys_of(tx.scan(&k(""), &k("z"), 10).unwrap()).len(), 5);
    // no more than the limit, and then the first
    assert_eq!(keys_of(tx.scan(&k("b"), &k("e"), 2).unwrap()), vec![k("b"), k("c")]);
    assert_eq!(tx.scan(&k("b"), &k("e"), 0).unwrap().len(), 0);
    assert_eq!(tx.scan(&k("e"), &k("b"), 10).unwrap().len(), 0);
    assert_eq!(tx.scan(&k("bb"), &k("c"), 10).unwrap().len(), 0);
    let list = tx.scan(&k("c"), &k("d"), 10).unwrap();
    assert_eq!(list, vec![(k("c"), k("c"))]);
}

fn leaf(entries: &[(&str, u64)]) -> Node<TrieKeys> {
    Node::Leaf(pack_of::<TrieKeys>(entries))
}

#[test]
fn store_hands_a_node_out_once() {
    let mut tx = MemoryTransaction::new();
    let mut store: BTreeNodeStore<TrieKeys> =
        BTreeNodeStore::new(KeyProvider::Debug, BTreeStoreType::Write, 20);
    let node = store.new_node(1, leaf(&[("a", 1)])).unwrap();
    assert_eq!(node.size, 0);
    assert_eq!(node.id, 1);
    assert_eq!(node.key, KeyProvider::Debug.get_node_key(1));
    // the node is out until it is handed back
    assert!(matches!(store.new_node(1, leaf(&[])), Err(Error::CorruptedIndex)));
    assert!(matches!(store.get_node(&mut tx, 1), Err(Error::CorruptedIndex)));
    store.set_node(&mut tx, node, true).unwrap();
    let node = store.get_node(&mut tx, 1).unwrap();
    assert_eq!(node.node.keys().get(&k("a")), Some(1));
    assert!(matches!(store.get_node(&mut tx, 1), Err(Error::CorruptedIndex)));
    // while a node is out the store does not finish
    assert!(matches!(store.finish(&mut tx), Err(Error::CorruptedIndex)));
    store.set_node(&mut tx, node, false).unwrap();
    assert_eq!(store.finish(&mut tx), Ok(true));
    assert_eq!(store.finish(&mut tx), Ok(false));
}

#[test]
fn store_reports_a_node_that_is_not_there() {
    let mut tx = MemoryTransaction::new();
    for mode in [BTreeStoreType::Write, BTreeStoreType::Read, BTreeStoreType::Traversal] {
        let mut store: BTreeNodeStore<TrieKeys> = BTreeNodeStore::new(KeyProvider::Debug, mode, 20);
        assert!(matches!(store.get_node(&mut tx, 5), Err(Error::CorruptedIndex)));
    }
    // a record that is no node
    tx.set(KeyProvider::Debug.get_node_key(5), vec![9, 9, 9]).unwrap();
    let mut store: BTreeNodeStore<TrieKeys> =
        BTreeNodeStore::new(KeyProvider::Debug, BTreeStoreType::Traversal, 0);
    assert!(matches!(store.get_node(&mut tx, 5), Err(Error::EncodingFailure)));
}

#[test]
fn store_writes_when_it_finishes() {
    let mut tx = MemoryTransaction::new();
    let mut store: BTreeNodeStore<TrieKeys> =
        BTreeNodeStore::new(KeyProvider::Debug, BTreeStoreType::Write, 20);
    let node = store.new_node(1, leaf(&[("a", 1)])).unwrap();
    store.set_node(&mut tx, node, true).unwrap();
    // nothing is written before the store finishes
    assert_eq!(tx.len(), 0);
    assert_eq!(store.finish(&mut tx), Ok(true));
    assert_eq!(tx.len(), 1);
    let bytes = tx.get(&KeyProvider::Debug.get_node_key(1)).unwrap().unwrap();
    assert_eq!(bytes, leaf(&[("a", 1)]).try_to_val().unwrap());
    // a node that is read knows the size of its stored form
    let node = store.get_node(&mut tx, 1).unwrap();
    assert_eq!(node.size, bytes.len() as u64);
    store.set_node(&mut tx, node, false).unwrap();
    // a removed node goes when the store finishes
    let node = store.get_node(&mut tx, 1).unwrap();
    store.remove_node(node.id).unwrap();
    assert!(matches!(store.get_node(&mut tx, 1), Err(Error::CorruptedIndex)));
    assert_eq!(tx.len(), 1);
    assert_eq!(store.finish(&mut tx), Ok(true));
    assert_eq!(tx.len(), 0);
}

#[test]
fn store_writes_a_dirty_node_that_leaves_the_cache() {
    let mut tx = MemoryTransaction::new();
    let mut store: BTreeNodeStore<TrieKeys> =
        BTreeNodeStore::new(KeyProvider::Debug, BTreeStoreType::Write, 2);
    for id in 1..=3u64 {
        let node = store.new_node(id, leaf(&[("a", id)])).unwrap();
        store.set_node(&mut tx, node, true).unwrap();
    }
    // the cache keeps two nodes: the least recently used one has been written
    assert_eq!(tx.len(), 1);
    assert!(tx.get(&KeyProvider::Debug.get_node_key(1)).unwrap().is_some());
    // to use a node makes it the most recently used
    let node = store.get_node(&mut tx, 2).unwrap();
    store.set_node(&mut tx, node, false).unwrap();
    let node = store.new_node(4, leaf(&[("a", 4)])).unwrap();
    store.set_node(&mut tx, node, true).unwrap();
    assert!(tx.get(&KeyProvider::Debug.get_node_key(3)).unwrap().is_some());
    assert!(tx.get(&KeyProvider::Debug.get_node_key(2)).unwrap().is_none());
    // a node that has left the cache is read back as it was
    let node = store.get_node(&mut tx, 1).unwrap();
    assert_eq!(node.node.keys().get(&k("a")), Some(1));
    store.set_node(&mut tx, node, false).unwrap();
    assert_eq!(store.finish(&mut tx), Ok(true));
    assert_eq!(tx.len(), 4);
    for id in 1..=4u64 {
        let bytes = tx.get(&KeyProvider::Debug.get_node_key(id)).unwrap().unwrap();
        assert_eq!(bytes, leaf(&[("a", id)]).try_to_val().unwrap());
    }
}

#[test]
fn read_store_refuses_a_changed_node() {
    let mut tx = MemoryTransaction::new();
    tx.set(KeyProvider::Debug.get_node_key(1), leaf(&[("a", 1)]).try_to_val().unwrap()).unwrap();
    let mut store: BTreeNodeStore<TrieKeys> =
        BTreeNodeStore::new(KeyProvider::Debug, BTreeStoreType::Read, 20);
    let node = store.get_node(&mut tx, 1).unwrap();
    assert!(matches!(store.set_node(&mut tx, node, true), Err(Error::CorruptedIndex)));
    let node = store.get_node(&mut tx, 1).unwrap();
    assert_eq!(store.set_node(&mut tx, node, false), Ok(()));
    assert!(matches!(store.remove_node(1), Err(Error::CorruptedIndex)));
    assert_eq!(store.finish(&mut tx), Ok(false));
    assert_eq!(tx.len(), 1);
}

#[test]
fn traversal_store_drops_every_node() {
    let mut tx = MemoryTransaction::new();
    tx.set(KeyProvider::Debug.get_node_key(1), leaf(&[("a", 1)]).try_to_val().unwrap()).unwrap();
    let mut store: BTreeNodeStore<TrieKeys> =
        BTreeNodeStore::new(KeyProvider::Debug, BTreeStoreType::Traversal, 0);
    let mut node = store.get_node(&mut tx, 1).unwrap();
    // the store does not keep the node: it can be read again at once
    assert!(store.get_node(&mut tx, 1).is_ok());
    node.node.keys_mut().insert(k("b"), 2);
    assert_eq!(store.set_node(&mut tx, node, true), Ok(()));
    assert_eq!(store.finish(&mut tx), Ok(false));
    let node = store.get_node(&mut tx, 1).unwrap();
    assert_eq!(node.node.keys().get(&k("b")), None);
    assert!(matches!(store.remove_node(1), Err(Error::CorruptedIndex)));
}

#[test]
fn store_under_a_prefix() {
    let mut tx = MemoryTransaction::new();
    let mut store: BTreeNodeStore<FstKeys> =
        BTreeNodeStore::new(KeyProvider::Prefixed(k("ix")), BTreeStoreType::Write, 20);
    let mut keys = FstKeys::new();
    keys.insert(k("a"), 1);
    let node = store.new_node(7, Node::Leaf(keys)).unwrap();
    store.set_node(&mut tx, node, true).unwrap();
    // the store compiles the keys before it writes them
    assert_eq!(store.finish(&mut tx), Ok(true));
    let key = KeyProvider::Prefixed(k("ix")).get_node_key(7);
    assert!(tx.get(&key).unwrap().is_some());
    assert_eq!(tx.scan(&k("ix"), &k("iy"), 10).unwrap().len(), 1);
}
