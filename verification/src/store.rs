//! The node store: a cache in front of the transaction that the nodes are
//! kept in. It hands nodes out, takes them back, and writes what has changed.

use crate::bkeys::BKeys;
use crate::codec::{be64, lemma_be64_injective, write_bytes, write_u64};
use crate::err::Error;
use crate::idset::IdSet;
use crate::kv::Transaction;
use crate::node::{decode_node, encode_node, lemma_node_round_trip, Node, NodeId, NodeModel};
use crate::order::copy_bytes;
use vstd::prelude::*;

verus! {

/// Gives each node the key under which it is kept in the store.
pub enum KeyProvider {
    /// The key is the identifier, in eight bytes.
    Debug,
    /// The key is the given prefix followed by the identifier.
    Prefixed(Vec<u8>),
}

impl KeyProvider {
    /// The key of the node `id`.
    pub open spec fn key(&self, id: NodeId) -> Seq<u8> {
        match self {
            KeyProvider::Debug => be64(id),
            KeyProvider::Prefixed(prefix) => prefix@ + be64(id),
        }
    }

    /// Two nodes never share a key.
    pub proof fn lemma_injective(&self, a: NodeId, b: NodeId)
        requires
            self.key(a) == self.key(b),
        ensures
            a == b,
    {
        match self {
            KeyProvider::Debug => {
                lemma_be64_injective(a, b);
            },
            KeyProvider::Prefixed(prefix) => {
                let n = prefix@.len() as int;
                assert(self.key(a).subrange(n, n + 8) =~= be64(a));
                assert(self.key(b).subrange(n, n + 8) =~= be64(b));
                lemma_be64_injective(a, b);
            },
        }
    }

    /// The key under which the node `node_id` is kept.
    pub fn get_node_key(&self, node_id: NodeId) -> (r: Vec<u8>)
        ensures
            r@ == self.key(node_id),
    {
        let mut out: Vec<u8> = Vec::new();
        match self {
            KeyProvider::Debug => {},
            KeyProvider::Prefixed(prefix) => {
                write_bytes(&mut out, prefix);
            },
        }
        write_u64(&mut out, node_id);
        assert(out@ =~= self.key(node_id));
        out
    }

    /// A second provider that gives the same keys.
    pub fn duplicate(&self) -> (r: KeyProvider)
        ensures
            forall|id: NodeId| r.key(id) == self.key(id),
    {
        match self {
            KeyProvider::Debug => KeyProvider::Debug,
            KeyProvider::Prefixed(prefix) => KeyProvider::Prefixed(copy_bytes(prefix)),
        }
    }
}

/// How a store treats the nodes that pass through it.
#[derive(Clone, Copy, Debug, PartialEq, Eq, Structural)]
pub enum BTreeStoreType {
    /// Nodes are cached, and changed nodes are written back.
    Write,
    /// Nodes are cached; to hand back a changed node is an error.
    Read,
    /// Nothing is cached: every node is read from the transaction.
    Traversal,
}

/// A node in memory: its identifier, the key under which it is kept, the size
/// of its stored form when it was read, and the node.
pub struct StoredNode<BK: BKeys> {
    pub node: Node<BK>,
    pub id: NodeId,
    pub key: Vec<u8>,
    pub size: u64,
}

impl<BK: BKeys> StoredNode<BK> {
    /// The node `id`, kept under `key`, from what the transaction gave for
    /// that key. No record gives `CorruptedIndex`; a record that is not the
    /// stored form of a node gives `EncodingFailure`; a failure of the
    /// transaction is handed on as it came. The size is the length of the
    /// record.
    pub fn from_record(id: NodeId, key: Vec<u8>, got: Result<Option<Vec<u8>>, Error>) -> (r: Result<
        StoredNode<BK>,
        Error,
    >)
        ensures
            got matches Err(e) ==> r == Err::<StoredNode<BK>, Error>(e),
            got matches Ok(None) ==> r == Err::<StoredNode<BK>, Error>(Error::CorruptedIndex),
            got matches Ok(Some(val)) ==> match decode_node::<BK>(val@) {
                Some(m) => r matches Ok(s) && s.id == id && s.key == key && s.node.wf() && s.node@
                    == m && s.size == val@.len(),
                None => r == Err::<StoredNode<BK>, Error>(Error::EncodingFailure),
            },
    {
        match got {
            Ok(Some(val)) => {
                let size = val.len() as u64;
                match Node::try_from_val(val) {
                    Ok(node) => Ok(StoredNode { node, id, key, size }),
                    Err(e) => Err(e),
                }
            },
            Ok(None) => Err(Error::CorruptedIndex),
            Err(e) => Err(e),
        }
    }
}

/// A node in the cache, and whether it differs from what is stored.
struct CacheEntry<BK: BKeys> {
    stored: StoredNode<BK>,
    dirty: bool,
}

/// The nodes that can be read back from the records `tx`.
pub open spec fn persisted<BK: BKeys>(keys: KeyProvider, tx: Map<Seq<u8>, Seq<u8>>) -> Map<
    NodeId,
    NodeModel,
> {
    Map::new(
        |id: NodeId| tx.contains_key(keys.key(id)) && decode_node::<BK>(tx[keys.key(id)]) is Some,
        |id: NodeId| decode_node::<BK>(tx[keys.key(id)]).unwrap(),
    )
}

/// From the records `a` to the records `b` nothing has changed but records
/// of nodes: a key whose record has come, gone or changed is the key of a
/// node, and the record that it has in `b`, if any, is the stored form of a
/// node.
pub open spec fn only_nodes_changed<BK: BKeys>(
    keys: KeyProvider,
    a: Map<Seq<u8>, Seq<u8>>,
    b: Map<Seq<u8>, Seq<u8>>,
) -> bool {
    forall|key: Seq<u8>|
        #![trigger a.contains_key(key)]
        #![trigger b.contains_key(key)]
        (a.contains_key(key) == b.contains_key(key) && (a.contains_key(key) ==> a[key] == b[key]))
            || ((exists|id: NodeId| keys.key(id) == key) && (b.contains_key(key) ==> decode_node::<
            BK,
        >(b[key]) is Some))
}

/// From the records `a` to the records `b` no record has come, gone or
/// changed but under the key of one of the nodes `ids`.
pub open spec fn changed_within(
    keys: KeyProvider,
    a: Map<Seq<u8>, Seq<u8>>,
    b: Map<Seq<u8>, Seq<u8>>,
    ids: Set<NodeId>,
) -> bool {
    forall|key: Seq<u8>|
        #![trigger a.contains_key(key)]
        #![trigger b.contains_key(key)]
        (a.contains_key(key) == b.contains_key(key) && (a.contains_key(key) ==> a[key] == b[key]))
            || (exists|id: NodeId| ids.contains(id) && keys.key(id) == key)
}

/// Changes of records of nodes, one after the other, are changes of
/// records of nodes.
pub proof fn lemma_changes_follow<BK: BKeys>(
    keys: KeyProvider,
    a: Map<Seq<u8>, Seq<u8>>,
    b: Map<Seq<u8>, Seq<u8>>,
    c: Map<Seq<u8>, Seq<u8>>,
)
    requires
        only_nodes_changed::<BK>(keys, a, b),
        only_nodes_changed::<BK>(keys, b, c),
    ensures
        only_nodes_changed::<BK>(keys, a, c),
{
    assert forall|key: Seq<u8>|
        #![trigger a.contains_key(key)]
        #![trigger c.contains_key(key)]
        (a.contains_key(key) == c.contains_key(key) && (a.contains_key(key) ==> a[key] == c[key]))
            || ((exists|id: NodeId| keys.key(id) == key) && (c.contains_key(key) ==> decode_node::<
            BK,
        >(c[key]) is Some)) by {
        let x = b.contains_key(key);
    }
}

/// To write the stored form of a node under its key changes the record of
/// a node only.
pub proof fn lemma_set_changes<BK: BKeys>(
    keys: KeyProvider,
    tx: Map<Seq<u8>, Seq<u8>>,
    id: NodeId,
    m: NodeModel,
)
    requires
        m.wf(),
        m.bounded(),
    ensures
        only_nodes_changed::<BK>(keys, tx, tx.insert(keys.key(id), encode_node::<BK>(m))),
{
    lemma_node_round_trip::<BK>(m);
}

/// To delete the record under the key of a node changes the record of a
/// node only.
pub proof fn lemma_del_changes<BK: BKeys>(keys: KeyProvider, tx: Map<Seq<u8>, Seq<u8>>, id: NodeId)
    ensures
        only_nodes_changed::<BK>(keys, tx, tx.remove(keys.key(id))),
{
}

/// The number of bytes of the record of each node in the records `tx`.
pub open spec fn stored_sizes(keys: KeyProvider, tx: Map<Seq<u8>, Seq<u8>>) -> Map<NodeId, nat> {
    Map::new(|id: NodeId| tx.contains_key(keys.key(id)), |id: NodeId| tx[keys.key(id)].len())
}

/// The nodes as a reader of the store finds them: a cached node as it is in
/// the cache; any other node as it is stored, unless it waits for removal.
pub open spec fn overlay(
    cached: Map<NodeId, NodeModel>,
    removed: Set<NodeId>,
    stored: Map<NodeId, NodeModel>,
) -> Map<NodeId, NodeModel> {
    Map::new(
        |id: NodeId| cached.contains_key(id) || (!removed.contains(id) && stored.contains_key(id)),
        |id: NodeId|
            if cached.contains_key(id) {
                cached[id]
            } else {
                stored[id]
            },
    )
}

/// The identifiers of the cached nodes, least recently used first.
spec fn cache_ids<BK: BKeys>(cache: Seq<CacheEntry<BK>>) -> Seq<NodeId> {
    Seq::new(cache.len(), |i: int| cache[i].stored.id)
}

/// The cached nodes by identifier.
spec fn cache_map<BK: BKeys>(cache: Seq<CacheEntry<BK>>) -> Map<NodeId, NodeModel> {
    Map::new(
        |id: NodeId| cache_ids(cache).contains(id),
        |id: NodeId| cache[cache_ids(cache).index_of(id)].stored.node@,
    )
}

/// The identifiers of the cached nodes that differ from what is stored.
spec fn cache_dirty<BK: BKeys>(cache: Seq<CacheEntry<BK>>) -> Set<NodeId> {
    Set::new(
        |id: NodeId|
            cache_ids(cache).contains(id) && cache[cache_ids(cache).index_of(id)].dirty,
    )
}

proof fn lemma_cache_at<BK: BKeys>(cache: Seq<CacheEntry<BK>>, i: int)
    requires
        cache_ids(cache).no_duplicates(),
        0 <= i < cache.len(),
    ensures
        cache_ids(cache).contains(cache[i].stored.id),
        cache_ids(cache).index_of(cache[i].stored.id) == i,
        cache_map(cache).contains_key(cache[i].stored.id),
        cache_map(cache)[cache[i].stored.id] == cache[i].stored.node@,
        cache_dirty(cache).contains(cache[i].stored.id) == cache[i].dirty,
{
    let ids = cache_ids(cache);
    assert(ids[i] == cache[i].stored.id);
    let j = ids.index_of(cache[i].stored.id);
    assert(0 <= j < ids.len() && ids[j] == ids[i]);
}

proof fn lemma_cache_push<BK: BKeys>(cache: Seq<CacheEntry<BK>>, e: CacheEntry<BK>)
    requires
        cache_ids(cache).no_duplicates(),
        !cache_ids(cache).contains(e.stored.id),
    ensures
        cache_ids(cache.push(e)).no_duplicates(),
        cache_ids(cache.push(e)) == cache_ids(cache).push(e.stored.id),
        cache_map(cache.push(e)) == cache_map(cache).insert(e.stored.id, e.stored.node@),
        cache_dirty(cache.push(e)) == if e.dirty {
            cache_dirty(cache).insert(e.stored.id)
        } else {
            cache_dirty(cache)
        },
{
    let out = cache.push(e);
    let ids = cache_ids(cache);
    let ids2 = cache_ids(out);
    assert(ids2 =~= ids.push(e.stored.id));
    assert forall|x: NodeId| ids2.contains(x) <==> x == e.stored.id || ids.contains(x) by {
        if ids.contains(x) {
            assert(ids2[ids.index_of(x)] == x);
        }
        if x == e.stored.id {
            assert(ids2[ids.len() as int] == x);
        }
        if ids2.contains(x) {
            let j = ids2.index_of(x);
            if j < ids.len() {
                assert(ids[j] == x);
            }
        }
    }
    assert forall|i: int| 0 <= i < out.len() implies ids2.index_of(#[trigger] ids2[i]) == i by {
        lemma_cache_at(out, i);
    }
    assert forall|x: NodeId| ids.contains(x) implies ids2.index_of(x) == ids.index_of(x) by {
        let j = ids.index_of(x);
        assert(ids2[j] == x);
    }
    assert(ids2.index_of(e.stored.id) == ids.len()) by {
        assert(ids2[ids.len() as int] == e.stored.id);
    }
    assert(cache_map(out) =~= cache_map(cache).insert(e.stored.id, e.stored.node@));
    if e.dirty {
        assert(cache_dirty(out) =~= cache_dirty(cache).insert(e.stored.id));
    } else {
        assert(cache_dirty(out) =~= cache_dirty(cache));
    }
}

proof fn lemma_cache_remove<BK: BKeys>(cache: Seq<CacheEntry<BK>>, i: int)
    requires
        cache_ids(cache).no_duplicates(),
        0 <= i < cache.len(),
    ensures
        cache_ids(cache.remove(i)).no_duplicates(),
        cache_ids(cache.remove(i)) == cache_ids(cache).remove(i),
        !cache_ids(cache.remove(i)).contains(cache[i].stored.id),
        cache_map(cache.remove(i)) == cache_map(cache).remove(cache[i].stored.id),
        cache_dirty(cache.remove(i)) == cache_dirty(cache).remove(cache[i].stored.id),
{
    let out = cache.remove(i);
    let ids = cache_ids(cache);
    let ids2 = cache_ids(out);
    let id = cache[i].stored.id;
    assert(ids2 =~= ids.remove(i));
    assert forall|a: int, b: int| 0 <= a < b < ids2.len() implies ids2[a] != ids2[b] by {
        let a0 = if a < i { a } else { a + 1 };
        let b0 = if b < i { b } else { b + 1 };
        assert(ids[a0] != ids[b0]);
    }
    lemma_cache_at(cache, i);
    assert forall|x: NodeId| ids2.contains(x) <==> x != id && ids.contains(x) by {
        if ids.contains(x) && x != id {
            let j = ids.index_of(x);
            let j1 = if j < i { j } else { j - 1 };
            assert(ids2[j1] == x);
        }
        if ids2.contains(x) {
            let j = ids2.index_of(x);
            let j0 = if j < i { j } else { j + 1 };
            assert(ids[j0] == x);
        }
    }
    assert forall|x: NodeId| ids2.contains(x) implies out[ids2.index_of(x)] == cache[ids.index_of(
        x,
    )] by {
        let j = ids2.index_of(x);
        let j0 = if j < i { j } else { j + 1 };
        assert(ids[j0] == x);
        lemma_cache_at(cache, j0);
    }
    assert(cache_map(out) =~= cache_map(cache).remove(id));
    assert(cache_dirty(out) =~= cache_dirty(cache).remove(id));
}

/// Writing the stored form of a node under its key changes what can be read
/// back at that node only.
proof fn lemma_persist_set<BK: BKeys>(
    keys: KeyProvider,
    tx: Map<Seq<u8>, Seq<u8>>,
    id: NodeId,
    m: NodeModel,
)
    requires
        m.wf(),
        m.bounded(),
    ensures
        persisted::<BK>(keys, tx.insert(keys.key(id), encode_node::<BK>(m))) == persisted::<BK>(
            keys,
            tx,
        ).insert(id, m),
{
    let tx2 = tx.insert(keys.key(id), encode_node::<BK>(m));
    lemma_node_round_trip::<BK>(m);
    assert forall|x: NodeId| x != id implies keys.key(x) != keys.key(id) by {
        if keys.key(x) == keys.key(id) {
            keys.lemma_injective(x, id);
        }
    }
    assert(persisted::<BK>(keys, tx2) =~= persisted::<BK>(keys, tx).insert(id, m));
}

/// Deleting the record of a node changes what can be read back at that node
/// only.
proof fn lemma_persist_del<BK: BKeys>(keys: KeyProvider, tx: Map<Seq<u8>, Seq<u8>>, id: NodeId)
    ensures
        persisted::<BK>(keys, tx.remove(keys.key(id))) == persisted::<BK>(keys, tx).remove(id),
{
    let tx2 = tx.remove(keys.key(id));
    assert forall|x: NodeId| x != id implies keys.key(x) != keys.key(id) by {
        if keys.key(x) == keys.key(id) {
            keys.lemma_injective(x, id);
        }
    }
    assert(persisted::<BK>(keys, tx2) =~= persisted::<BK>(keys, tx).remove(id));
}

/// A cache of nodes in front of a transaction.
pub struct BTreeNodeStore<BK: BKeys> {
    keys: KeyProvider,
    mode: BTreeStoreType,
    capacity: usize,
    cache: Vec<CacheEntry<BK>>,
    out: IdSet,
    removed: IdSet,
}

impl<BK: BKeys> BTreeNodeStore<BK> {
    /// How the store treats its nodes.
    pub closed spec fn mode(&self) -> BTreeStoreType {
        self.mode
    }

    /// The provider of the keys of the nodes.
    pub closed spec fn provider(&self) -> KeyProvider {
        self.keys
    }

    /// The nodes in the cache.
    pub closed spec fn cached(&self) -> Map<NodeId, NodeModel> {
        cache_map(self.cache@)
    }

    /// The cached nodes that differ from what is stored.
    pub closed spec fn dirty(&self) -> Set<NodeId> {
        cache_dirty(self.cache@)
    }

    /// The number of nodes that the cache can hold.
    pub closed spec fn capacity(&self) -> nat {
        self.capacity as nat
    }

    /// The nodes whose records are to be deleted when the store finishes.
    pub closed spec fn removed(&self) -> Set<NodeId> {
        self.removed@
    }

    /// The nodes that were handed out and have not come back.
    pub closed spec fn checked_out(&self) -> Set<NodeId> {
        self.out@
    }

    /// The nodes that can be read back from the records `tx`.
    pub open spec fn stored(&self, tx: Map<Seq<u8>, Seq<u8>>) -> Map<NodeId, NodeModel> {
        persisted::<BK>(self.provider(), tx)
    }

    /// The nodes of the index as the store presents them over the records `tx`.
    pub open spec fn nodes(&self, tx: Map<Seq<u8>, Seq<u8>>) -> Map<NodeId, NodeModel> {
        overlay(self.cached(), self.removed(), self.stored(tx))
    }

    /// Every cached node that is not dirty is stored in `tx` as it is cached.
    pub open spec fn consistent(&self, tx: Map<Seq<u8>, Seq<u8>>) -> bool {
        forall|id: NodeId| #[trigger]
            self.cached().contains_key(id) && !self.dirty().contains(id) ==> self.stored(
                tx,
            ).contains_key(id) && self.stored(tx)[id] == self.cached()[id]
    }

    /// The value is one that the operations below keep up.
    pub closed spec fn wf(&self) -> bool {
        &&& cache_ids(self.cache@).no_duplicates()
        &&& forall|i: int|
            0 <= i < self.cache@.len() ==> {
                &&& (#[trigger] self.cache@[i]).stored.node.wf()
                &&& self.cache@[i].stored.key@ == self.keys.key(self.cache@[i].stored.id)
                &&& !self.removed@.contains(self.cache@[i].stored.id)
                &&& self.cache@[i].dirty ==> self.mode is Write
            }
        &&& self.out.wf()
        &&& self.removed.wf()
        &&& self.capacity >= 1
        &&& self.cache@.len() <= self.capacity
        &&& !(self.mode is Write) ==> self.removed@ == Set::<NodeId>::empty()
        &&& self.mode is Traversal ==> self.cache@.len() == 0 && self.out@ == Set::<NodeId>::empty()
    }

    /// A store without cached nodes. It keeps up to `capacity` nodes in its
    /// cache, and at least one.
    pub fn new(keys: KeyProvider, store_type: BTreeStoreType, capacity: usize) -> (r: Self)
        ensures
            r.wf(),
            r.mode() == store_type,
            r.provider() == keys,
            r.cached() == Map::<NodeId, NodeModel>::empty(),
            r.dirty() == Set::<NodeId>::empty(),
            r.removed() == Set::<NodeId>::empty(),
            r.checked_out() == Set::<NodeId>::empty(),
            r.capacity() == if capacity == 0 {
                1
            } else {
                capacity as nat
            },
    {
        let r = BTreeNodeStore {
            keys,
            mode: store_type,
            capacity: if capacity == 0 {
                1
            } else {
                capacity
            },
            cache: Vec::new(),
            out: IdSet::new(),
            removed: IdSet::new(),
        };
        assert(r.cached() =~= Map::<NodeId, NodeModel>::empty());
        assert(r.dirty() =~= Set::<NodeId>::empty());
        r
    }

    /// The cache never holds more nodes than its capacity.
    pub proof fn lemma_bounded(&self)
        requires
            self.wf(),
        ensures
            self.cached().dom().finite(),
            self.cached().dom().len() <= self.capacity(),
    {
        let ids = cache_ids(self.cache@);
        assert(self.cached().dom() =~= ids.to_set());
        ids.unique_seq_to_set();
        vstd::seq_lib::seq_to_set_is_finite(ids);
    }

    /// A `Traversal` store presents what is stored, and hands no node out.
    pub proof fn lemma_traversal(&self, tx: Map<Seq<u8>, Seq<u8>>)
        requires
            self.wf(),
            self.mode() is Traversal,
        ensures
            self.consistent(tx),
            self.nodes(tx) == self.stored(tx),
            self.checked_out() == Set::<NodeId>::empty(),
    {
        assert(self.cached() =~= Map::<NodeId, NodeModel>::empty());
        assert(self.nodes(tx) =~= self.stored(tx));
    }

    /// In a store without dirty nodes and without pending removals, what
    /// the store presents is what is stored.
    pub proof fn lemma_flushed(&self, tx: Map<Seq<u8>, Seq<u8>>)
        requires
            self.consistent(tx),
            self.dirty() == Set::<NodeId>::empty(),
            self.removed() == Set::<NodeId>::empty(),
        ensures
            self.nodes(tx) == self.stored(tx),
    {
        assert forall|id: NodeId| self.cached().contains_key(id) implies self.stored(
            tx,
        ).contains_key(id) && self.stored(tx)[id] == self.cached()[id] by {
            assert(!self.dirty().contains(id));
        }
        assert(self.nodes(tx) =~= self.stored(tx));
    }

    fn position(&self, id: NodeId) -> (r: Option<usize>)
        ensures
            r matches Some(i) ==> i < self.cache@.len() && self.cache@[i as int].stored.id == id,
            r is None ==> !cache_ids(self.cache@).contains(id),
            r is Some == self.cached().contains_key(id),
    {
        let mut i: usize = 0;
        while i < self.cache.len()
            invariant
                i <= self.cache.len(),
                forall|j: int| 0 <= j < i ==> cache_ids(self.cache@)[j] != id,
            decreases self.cache.len() - i,
        {
            if self.cache[i].stored.id == id {
                assert(cache_ids(self.cache@)[i as int] == id);
                return Some(i);
            }
            i += 1;
        }
        None
    }

    /// Writes the node of `entry` to the transaction.
    fn write_entry<T: Transaction>(&self, tx: &mut T, entry: &mut CacheEntry<BK>) -> (r: Result<
        (),
        Error,
    >)
        requires
            old(tx).wf(),
            old(entry).stored.node.wf(),
            old(entry).stored.key@ == self.keys.key(old(entry).stored.id),
        ensures
            final(tx).wf(),
            final(tx).reliable() == old(tx).reliable(),
            final(entry).stored.node.wf(),
            final(entry).stored.node@ == old(entry).stored.node@,
            final(entry).stored.id == old(entry).stored.id,
            final(entry).stored.key == old(entry).stored.key,
            old(tx).reliable() ==> r is Ok,
            r is Ok ==> !final(entry).dirty,
            r is Ok ==> persisted::<BK>(self.keys, final(tx)@) == persisted::<BK>(
                self.keys,
                old(tx)@,
            ).insert(old(entry).stored.id, old(entry).stored.node@),
            r is Err ==> final(entry).dirty == old(entry).dirty,
            r matches Err(e) ==> e is Backend,
            r is Ok ==> final(tx)@ == old(tx)@.insert(
                old(entry).stored.key@,
                encode_node::<BK>(old(entry).stored.node@),
            ),
            r is Ok ==> final(entry).stored.size == encode_node::<BK>(old(entry).stored.node@).len(),
            r is Ok ==> only_nodes_changed::<BK>(self.keys, old(tx)@, final(tx)@),
            r is Ok ==> changed_within(
                self.keys,
                old(tx)@,
                final(tx)@,
                Set::<NodeId>::empty().insert(old(entry).stored.id),
            ),
    {
        entry.stored.node.keys_mut().compile();
        let val = match entry.stored.node.try_to_val() {
            Ok(val) => val,
            Err(_) => {
                proof {
                    assert(false);
                }
                return Err(Error::EncodingFailure);
            },
        };
        let size = val.len() as u64;
        let key = copy_bytes(&entry.stored.key);
        proof {
            entry.stored.node.lemma_wf();
            lemma_persist_set::<BK>(
                self.keys,
                tx@,
                entry.stored.id,
                entry.stored.node@,
            );
            lemma_set_changes::<BK>(self.keys, tx@, entry.stored.id, entry.stored.node@);
        }
        match tx.set(key, val) {
            Ok(()) => {
                entry.stored.size = size;
                entry.dirty = false;
                Ok(())
            },
            Err(e) => Err(e),
        }
    }

    /// Takes the least recently used node out of the cache, and writes it to
    /// the transaction first if it is dirty.
    fn evict<T: Transaction>(&mut self, tx: &mut T) -> (r: Result<(), Error>)
        requires
            old(self).wf(),
            old(self).cache@.len() > 0,
            old(tx).wf(),
        ensures
            final(self).wf(),
            final(tx).wf(),
            final(tx).reliable() == old(tx).reliable(),
            r is Ok ==> only_nodes_changed::<BK>(old(self).provider(), old(tx)@, final(tx)@),
            r is Ok ==> changed_within(old(self).provider(), old(tx)@, final(tx)@, old(self).dirty()),
            final(self).mode() == old(self).mode(),
            final(self).provider() == old(self).provider(),
            final(self).capacity() == old(self).capacity(),
            final(self).checked_out() == old(self).checked_out(),
            final(self).removed() == old(self).removed(),
            final(self).capacity == old(self).capacity,
            final(self).cache@.len() == old(self).cache@.len() - 1,
            forall|id: NodeId|
                cache_ids(final(self).cache@).contains(id) ==> cache_ids(old(self).cache@).contains(
                    id,
                ),
            old(tx).reliable() ==> r is Ok,
            r matches Err(e) ==> e is Backend,
            old(self).consistent(old(tx)@) && r is Ok ==> final(self).consistent(final(tx)@)
                && final(self).nodes(final(tx)@) == old(self).nodes(old(tx)@),
    {
        proof {
            lemma_cache_remove(self.cache@, 0);
            lemma_cache_at(self.cache@, 0);
        }
        let mut entry = self.cache.remove(0);
        let ghost id = entry.stored.id;
        let ghost stored0 = self.stored(tx@);
        if entry.dirty {
            match self.write_entry(tx, &mut entry) {
                Ok(()) => {
                    proof {
                        if old(self).consistent(old(tx)@) {
                            assert(self.nodes(tx@) =~= old(self).nodes(old(tx)@));
                        }
                    }
                    Ok(())
                },
                Err(e) => Err(e),
            }
        } else {
            proof {
                if old(self).consistent(old(tx)@) {
                    assert(old(self).cached().contains_key(id) && !old(self).dirty().contains(id));
                    assert(self.nodes(tx@) =~= old(self).nodes(old(tx)@));
                }
            }
            Ok(())
        }
    }

    /// Puts a node that is not cached into the cache, as the most recently
    /// used; where the cache is full, the least recently used node leaves.
    fn take_in<T: Transaction>(&mut self, tx: &mut T, stored: StoredNode<BK>, dirty: bool) -> (r:
        Result<(), Error>)
        requires
            old(self).wf(),
            old(tx).wf(),
            !(old(self).mode is Traversal),
            dirty ==> old(self).mode is Write,
            !old(self).cached().contains_key(stored.id),
            !old(self).removed().contains(stored.id),
            stored.node.wf(),
            stored.key@ == old(self).provider().key(stored.id),
        ensures
            final(self).wf(),
            final(tx).wf(),
            final(tx).reliable() == old(tx).reliable(),
            r is Ok ==> only_nodes_changed::<BK>(old(self).provider(), old(tx)@, final(tx)@),
            r is Ok ==> changed_within(old(self).provider(), old(tx)@, final(tx)@, old(self).dirty()),
            final(self).mode() == old(self).mode(),
            final(self).provider() == old(self).provider(),
            final(self).capacity() == old(self).capacity(),
            final(self).checked_out() == old(self).checked_out(),
            final(self).removed() == old(self).removed(),
            old(tx).reliable() ==> r is Ok,
            r matches Err(e) ==> e is Backend,
            old(self).consistent(old(tx)@) && r is Ok && (dirty || (old(self).stored(
                old(tx)@,
            ).contains_key(stored.id) && old(self).stored(old(tx)@)[stored.id] == stored.node@))
                ==> final(self).consistent(final(tx)@) && final(self).nodes(final(tx)@) == old(self).nodes(old(tx)@).insert(stored.id, stored.node@),
    {
        let ghost id = stored.id;
        let ghost m = stored.node@;
        if self.cache.len() >= self.capacity {
            match self.evict(tx) {
                Ok(()) => {},
                Err(e) => {
                    return Err(e);
                },
            }
        }
        let ghost mid_nodes = self.nodes(tx@);
        let ghost mid_stored = self.stored(tx@);
        let ghost mid_cons = self.consistent(tx@);
        proof {
            assert(!cache_ids(self.cache@).contains(id));
            lemma_cache_push(self.cache@, CacheEntry { stored, dirty });
        }
        let ghost before = self.cache@;
        self.cache.push(CacheEntry { stored, dirty });
        proof {
            assert forall|i: int| 0 <= i < self.cache@.len() implies {
                &&& (#[trigger] self.cache@[i]).stored.node.wf()
                &&& self.cache@[i].stored.key@ == self.keys.key(self.cache@[i].stored.id)
                &&& !self.removed@.contains(self.cache@[i].stored.id)
                &&& self.cache@[i].dirty ==> self.mode is Write
            } by {
                if i < before.len() {
                    assert(self.cache@[i] == before[i]);
                }
            }
            if old(self).consistent(old(tx)@) && (dirty || (old(self).stored(
                old(tx)@,
            ).contains_key(id) && old(self).stored(old(tx)@)[id] == m)) {
                // An eviction writes the evicted node only, under a key of
                // its own, so what is stored at `id` is as it was before.
                assert(mid_cons);
                assert(mid_nodes == old(self).nodes(old(tx)@));
                if !dirty {
                    assert(old(self).nodes(old(tx)@).contains_key(id));
                    assert(mid_nodes[id] == m);
                    assert(mid_stored.contains_key(id) && mid_stored[id] == m);
                }
                assert(self.nodes(tx@) =~= mid_nodes.insert(id, m));
            }
        }
        Ok(())
    }

    /// Reads the node `id` from the transaction.
    fn read_through<T: Transaction>(&self, tx: &mut T, node_id: NodeId) -> (r: Result<
        StoredNode<BK>,
        Error,
    >)
        requires
            old(tx).wf(),
        ensures
            final(tx).wf(),
            final(tx).reliable() == old(tx).reliable(),
            final(tx)@ == old(tx)@,
            r matches Ok(s) ==> {
                &&& s.id == node_id
                &&& s.key@ == self.keys.key(node_id)
                &&& s.node.wf()
                &&& persisted::<BK>(self.keys, old(tx)@).contains_key(node_id)
                &&& persisted::<BK>(self.keys, old(tx)@)[node_id] == s.node@
                &&& old(tx)@.contains_key(self.keys.key(node_id))
                &&& s.size == old(tx)@[self.keys.key(node_id)].len()
            },
            old(tx).reliable() && persisted::<BK>(self.keys, old(tx)@).contains_key(node_id)
                ==> r is Ok,
            r matches Err(e) ==> (e is Backend || e == Error::CorruptedIndex || e
                == Error::EncodingFailure),
            (r matches Err(e) && !(e is Backend)) ==> !persisted::<BK>(
                self.keys,
                old(tx)@,
            ).contains_key(node_id),
            r == Err::<StoredNode<BK>, Error>(Error::CorruptedIndex) ==> !old(tx)@.contains_key(
                self.keys.key(node_id),
            ),
            r == Err::<StoredNode<BK>, Error>(Error::EncodingFailure) ==> old(tx)@.contains_key(
                self.keys.key(node_id),
            ) && decode_node::<BK>(old(tx)@[self.keys.key(node_id)]) is None,
    {
        let key = self.keys.get_node_key(node_id);
        let got = tx.get(&key);
        StoredNode::from_record(node_id, key, got)
    }

    /// Hands out the node `node_id`. A node that is handed out already, one
    /// that waits for removal and one without a record give `CorruptedIndex`;
    /// a record that cannot be read gives `EncodingFailure`. What the store
    /// presents stays as it is.
    pub fn get_node<T: Transaction>(&mut self, tx: &mut T, node_id: NodeId) -> (r: Result<
        StoredNode<BK>,
        Error,
    >)
        requires
            old(self).wf(),
            old(tx).wf(),
        ensures
            final(self).wf(),
            final(tx).wf(),
            final(tx).reliable() == old(tx).reliable(),
            r is Ok ==> only_nodes_changed::<BK>(old(self).provider(), old(tx)@, final(tx)@),
            final(self).mode() == old(self).mode(),
            final(self).provider() == old(self).provider(),
            r matches Ok(s) ==> s.id == node_id && s.node.wf() && s.key@ == old(self).provider().key(node_id),
            r is Ok ==> final(self).checked_out() == (if old(self).mode() is Traversal {
                old(self).checked_out()
            } else {
                old(self).checked_out().insert(node_id)
            }),
            r is Ok ==> !old(self).checked_out().contains(node_id),
            old(self).mode() is Traversal ==> final(tx)@ == old(tx)@,
            r matches Ok(s) ==> (old(self).mode() is Traversal ==> old(tx)@.contains_key(
                old(self).provider().key(node_id),
            ) && s.size == old(tx)@[old(self).provider().key(node_id)].len()),
            old(self).consistent(old(tx)@) ==> {
                &&& r is Ok ==> final(self).consistent(final(tx)@)
                &&& r is Ok ==> final(self).nodes(final(tx)@) == old(self).nodes(old(tx)@)
                &&& r matches Ok(s) ==> old(self).nodes(old(tx)@).contains_key(node_id) && old(self).nodes(old(tx)@)[node_id] == s.node@
                &&& old(tx).reliable() && old(self).nodes(old(tx)@).contains_key(node_id) && !old(self).checked_out().contains(node_id) ==> r is Ok
                &&& (r matches Err(e) && !(e is Backend)) ==> !old(self).nodes(
                    old(tx)@,
                ).contains_key(node_id) || old(self).checked_out().contains(node_id)
            },
            r matches Err(e) ==> (e is Backend || e == Error::CorruptedIndex || e
                == Error::EncodingFailure),
            !(old(self).mode() is Traversal) && old(self).checked_out().contains(node_id) ==> r
                == Err::<StoredNode<BK>, Error>(Error::CorruptedIndex) && *final(self) == *old(self) && final(tx)@ == old(tx)@,
            r == Err::<StoredNode<BK>, Error>(Error::CorruptedIndex) ==> old(self).checked_out().contains(node_id) || old(self).removed().contains(node_id) || !old(tx)@.contains_key(old(self).provider().key(node_id)),
            r == Err::<StoredNode<BK>, Error>(Error::EncodingFailure) ==> old(tx)@.contains_key(
                old(self).provider().key(node_id),
            ) && decode_node::<BK>(old(tx)@[old(self).provider().key(node_id)]) is None,
            final(self).capacity() == old(self).capacity(),
    {
        if self.mode == BTreeStoreType::Traversal {
            proof {
                assert(self.cached() =~= Map::<NodeId, NodeModel>::empty());
                assert(self.nodes(tx@) =~= self.stored(tx@));
            }
            return self.read_through(tx, node_id);
        }
        if self.out.contains(node_id) {
            return Err(Error::CorruptedIndex);
        }
        match self.position(node_id) {
            Some(i) => {
                proof {
                    lemma_cache_at(self.cache@, i as int);
                    lemma_cache_remove(self.cache@, i as int);
                }
                let entry = self.cache.remove(i);
                let copy = StoredNode {
                    node: entry.stored.node.duplicate(),
                    id: node_id,
                    key: copy_bytes(&entry.stored.key),
                    size: entry.stored.size,
                };
                proof {
                    lemma_cache_push(self.cache@, entry);
                }
                let ghost before = self.cache@;
                self.cache.push(entry);
                self.out.insert(node_id);
                proof {
                    assert forall|j: int| 0 <= j < self.cache@.len() implies {
                        &&& (#[trigger] self.cache@[j]).stored.node.wf()
                        &&& self.cache@[j].stored.key@ == self.keys.key(self.cache@[j].stored.id)
                        &&& !self.removed@.contains(self.cache@[j].stored.id)
                        &&& self.cache@[j].dirty ==> self.mode is Write
                    } by {
                        if j < before.len() {
                            let j0 = if j < i { j } else { j + 1 };
                            assert(self.cache@[j] == old(self).cache@[j0]);
                        }
                    }
                    assert(self.cached() =~= old(self).cached());
                    assert(self.dirty() =~= old(self).dirty());
                }
                Ok(copy)
            },
            None => {
                if self.removed.contains(node_id) {
                    return Err(Error::CorruptedIndex);
                }
                let stored = match self.read_through(tx, node_id) {
                    Ok(stored) => stored,
                    Err(e) => {
                        return Err(e);
                    },
                };
                let copy = StoredNode {
                    node: stored.node.duplicate(),
                    id: node_id,
                    key: copy_bytes(&stored.key),
                    size: stored.size,
                };
                let ghost nodes0 = self.nodes(tx@);
                match self.take_in(tx, stored, false) {
                    Ok(()) => {},
                    Err(e) => {
                        return Err(e);
                    },
                }
                self.out.insert(node_id);
                proof {
                    if old(self).consistent(old(tx)@) {
                        assert(nodes0.insert(node_id, copy.node@) =~= nodes0);
                    }
                }
                Ok(copy)
            },
        }
    }

    /// Takes a node back that was handed out. With `updated` the node is
    /// kept as it comes, in place of what the store held of it; without, it
    /// is dropped. A `Read` store answers `updated` with `CorruptedIndex`; a
    /// `Traversal` store drops every node.
    pub fn set_node<T: Transaction>(&mut self, tx: &mut T, node: StoredNode<BK>, updated: bool) -> (r:
        Result<(), Error>)
        requires
            old(self).wf(),
            old(tx).wf(),
            node.node.wf(),
        ensures
            final(self).wf(),
            final(tx).wf(),
            final(tx).reliable() == old(tx).reliable(),
            r is Ok ==> only_nodes_changed::<BK>(old(self).provider(), old(tx)@, final(tx)@),
            r is Ok ==> changed_within(old(self).provider(), old(tx)@, final(tx)@, old(self).dirty()),
            final(self).mode() == old(self).mode(),
            final(self).provider() == old(self).provider(),
            final(self).capacity() == old(self).capacity(),
            final(self).checked_out() == old(self).checked_out().remove(node.id),
            old(self).mode() is Read && updated ==> r == Err::<(), Error>(Error::CorruptedIndex),
            !(old(self).mode() is Write && updated) ==> final(tx)@ == old(tx)@,
            !(old(self).mode() is Read && updated) && old(tx).reliable() ==> r is Ok,
            r matches Err(e) ==> e is Backend || (e == Error::CorruptedIndex && old(self).mode() is Read
                && updated),
            old(self).consistent(old(tx)@) && r is Ok ==> {
                &&& final(self).consistent(final(tx)@)
                &&& final(self).nodes(final(tx)@) == (if old(self).mode() is Write && updated {
                    old(self).nodes(old(tx)@).insert(node.id, node.node@)
                } else {
                    old(self).nodes(old(tx)@)
                })
            },
    {
        match self.mode {
            BTreeStoreType::Traversal => {
                proof {
                    assert(self.checked_out() =~= old(self).checked_out().remove(node.id));
                }
                Ok(())
            },
            BTreeStoreType::Read => {
                self.out.remove(node.id);
                proof {
                    assert(self.cached() == old(self).cached());
                    assert(self.dirty() == old(self).dirty());
                    assert(self.removed() == old(self).removed());
                    assert(self.provider() == old(self).provider());
                }
                if updated {
                    Err(Error::CorruptedIndex)
                } else {
                    Ok(())
                }
            },
            BTreeStoreType::Write => {
                self.out.remove(node.id);
                proof {
                    assert(self.cached() == old(self).cached());
                    assert(self.dirty() == old(self).dirty());
                    assert(self.removed() == old(self).removed());
                    assert(self.provider() == old(self).provider());
                }
                if !updated {
                    return Ok(());
                }
                let ghost cons0 = self.consistent(tx@);
                let id = node.id;
                let key = self.keys.get_node_key(id);
                let stored = StoredNode { node: node.node, id, key, size: node.size };
                let ghost nodes0 = self.nodes(tx@);
                match self.position(id) {
                    Some(i) => {
                        proof {
                            lemma_cache_at(self.cache@, i as int);
                            lemma_cache_remove(self.cache@, i as int);
                        }
                        let ghost before = self.cache@;
                        self.cache.remove(i);
                        proof {
                            assert forall|j: int| 0 <= j < self.cache@.len() implies {
                                &&& (#[trigger] self.cache@[j]).stored.node.wf()
                                &&& self.cache@[j].stored.key@ == self.keys.key(
                                    self.cache@[j].stored.id,
                                )
                                &&& !self.removed@.contains(self.cache@[j].stored.id)
                                &&& self.cache@[j].dirty ==> self.mode is Write
                            } by {
                                let j0 = if j < i { j } else { j + 1 };
                                assert(self.cache@[j] == before[j0]);
                            }
                        }
                    },
                    None => {},
                }
                let ghost cache1 = self.cache@;
                self.removed.remove(id);
                proof {
                    assert forall|j: int| 0 <= j < self.cache@.len() implies !self.removed@.contains(
                        (#[trigger] self.cache@[j]).stored.id,
                    ) by {
                        assert(self.cache@[j] == cache1[j]);
                    }
                }
                let ghost mid = self.nodes(tx@);
                proof {
                    if cons0 {
                        assert forall|x: NodeId| #[trigger]
                            self.cached().contains_key(x) && !self.dirty().contains(
                                x,
                            ) implies self.stored(tx@).contains_key(x) && self.stored(tx@)[x]
                            == self.cached()[x] by {
                            assert(old(self).cached().contains_key(x));
                            assert(!old(self).dirty().contains(x));
                        }
                        assert(self.consistent(tx@));
                    }
                }
                let r = self.take_in(tx, stored, true);
                proof {
                    if cons0 && r is Ok {
                        assert(mid.insert(id, node.node@) =~= nodes0.insert(id, node.node@));
                    }
                }
                r
            },
        }
    }

    /// Makes a node in memory for the identifier `id`. It counts as handed
    /// out, and reaches the store when it is handed back.
    pub fn new_node(&mut self, id: NodeId, node: Node<BK>) -> (r: Result<StoredNode<BK>, Error>)
        requires
            old(self).wf(),
            node.wf(),
        ensures
            final(self).wf(),
            final(self).mode() == old(self).mode(),
            final(self).provider() == old(self).provider(),
            final(self).capacity() == old(self).capacity(),
            final(self).cached() == old(self).cached(),
            final(self).dirty() == old(self).dirty(),
            final(self).removed() == old(self).removed(),
            r is Ok <==> !old(self).checked_out().contains(id),
            r is Err ==> r == Err::<StoredNode<BK>, Error>(Error::CorruptedIndex) && final(self).checked_out() == old(self).checked_out(),
            r matches Ok(s) ==> {
                &&& s.id == id
                &&& s.node == node
                &&& s.size == 0
                &&& s.key@ == old(self).provider().key(id)
                &&& final(self).checked_out() == (if old(self).mode() is Traversal {
                    old(self).checked_out()
                } else {
                    old(self).checked_out().insert(id)
                })
            },
    {
        if self.out.contains(id) {
            return Err(Error::CorruptedIndex);
        }
        if self.mode != BTreeStoreType::Traversal {
            self.out.insert(id);
        }
        Ok(StoredNode { node, id, key: self.keys.get_node_key(id), size: 0 })
    }

    /// Takes the node `node_id` out of the index: it leaves the cache, and
    /// its record is deleted when the store finishes. Only a `Write` store
    /// does so; the others answer `CorruptedIndex`.
    pub fn remove_node(&mut self, node_id: NodeId) -> (r: Result<(), Error>)
        requires
            old(self).wf(),
        ensures
            final(self).wf(),
            final(self).mode() == old(self).mode(),
            final(self).provider() == old(self).provider(),
            final(self).capacity() == old(self).capacity(),
            r is Ok <==> old(self).mode() is Write,
            r is Err ==> r == Err::<(), Error>(Error::CorruptedIndex) && final(self).checked_out()
                == old(self).checked_out() && final(self).cached() == old(self).cached() && final(self).removed() == old(self).removed() && final(self).dirty() == old(self).dirty(),
            r is Ok ==> final(self).checked_out() == old(self).checked_out().remove(node_id),
            forall|tx: Map<Seq<u8>, Seq<u8>>|
                r is Ok && old(self).consistent(tx) ==> #[trigger] final(self).consistent(tx),
            forall|tx: Map<Seq<u8>, Seq<u8>>|
                r is Ok ==> #[trigger] final(self).nodes(tx) == old(self).nodes(tx).remove(node_id),
    {
        if self.mode != BTreeStoreType::Write {
            return Err(Error::CorruptedIndex);
        }
        match self.position(node_id) {
            Some(i) => {
                proof {
                    lemma_cache_at(self.cache@, i as int);
                    lemma_cache_remove(self.cache@, i as int);
                }
                let ghost before = self.cache@;
                self.cache.remove(i);
                proof {
                    assert forall|j: int| 0 <= j < self.cache@.len() implies {
                        &&& (#[trigger] self.cache@[j]).stored.node.wf()
                        &&& self.cache@[j].stored.key@ == self.keys.key(self.cache@[j].stored.id)
                        &&& !self.removed@.contains(self.cache@[j].stored.id)
                        &&& self.cache@[j].dirty ==> self.mode is Write
                    } by {
                        let j0 = if j < i { j } else { j + 1 };
                        assert(self.cache@[j] == before[j0]);
                    }
                }
            },
            None => {},
        }
        let ghost cache1 = self.cache@;
        assert(!cache_ids(cache1).contains(node_id));
        self.out.remove(node_id);
        self.removed.insert(node_id);
        proof {
            assert forall|j: int| 0 <= j < self.cache@.len() implies !self.removed@.contains(
                (#[trigger] self.cache@[j]).stored.id,
            ) by {
                assert(cache_ids(cache1)[j] == cache1[j].stored.id);
            }
            assert forall|tx: Map<Seq<u8>, Seq<u8>>| #[trigger]
                self.nodes(tx) == old(self).nodes(tx).remove(node_id) by {
                assert(self.nodes(tx) =~= old(self).nodes(tx).remove(node_id));
            }
        }
        Ok(())
    }

    /// Writes every dirty node to the transaction, in the order of the
    /// cache, and deletes the records of the removed nodes: afterwards the
    /// record of every node that was dirty is its stored form, the removed
    /// nodes have no record, and every other record is as it was. A node that
    /// is still handed out makes it fail with `CorruptedIndex`. Returns
    /// whether anything was written or deleted. Afterwards the store presents
    /// what is stored.
    pub fn finish<T: Transaction>(&mut self, tx: &mut T) -> (r: Result<bool, Error>)
        requires
            old(self).wf(),
            old(tx).wf(),
        ensures
            final(self).wf(),
            final(tx).wf(),
            final(tx).reliable() == old(tx).reliable(),
            r is Ok ==> only_nodes_changed::<BK>(old(self).provider(), old(tx)@, final(tx)@),
            r is Ok ==> changed_within(
                old(self).provider(),
                old(tx)@,
                final(tx)@,
                old(self).dirty().union(old(self).removed()),
            ),
            r is Ok ==> forall|id: NodeId|
                #![trigger old(self).provider().key(id)]
                old(self).dirty().contains(id) ==> final(tx)@.contains_key(
                    old(self).provider().key(id),
                ) && final(tx)@[old(self).provider().key(id)] == encode_node::<BK>(
                    old(self).cached()[id],
                ),
            r is Ok ==> forall|id: NodeId|
                #![trigger old(self).provider().key(id)]
                old(self).removed().contains(id) ==> !final(tx)@.contains_key(
                    old(self).provider().key(id),
                ),
            final(self).mode() == old(self).mode(),
            final(self).provider() == old(self).provider(),
            final(self).capacity() == old(self).capacity(),
            final(self).checked_out() == old(self).checked_out(),
            old(self).checked_out() != Set::<NodeId>::empty() ==> r == Err::<bool, Error>(
                Error::CorruptedIndex,
            ),
            old(self).checked_out() == Set::<NodeId>::empty() && old(tx).reliable() ==> r is Ok,
            r matches Err(e) ==> e is Backend || (e == Error::CorruptedIndex && old(self).checked_out() != Set::<NodeId>::empty()),
            r matches Ok(changed) ==> {
                &&& changed == (old(self).dirty() != Set::<NodeId>::empty() || old(self).removed()
                    != Set::<NodeId>::empty())
                &&& final(self).dirty() == Set::<NodeId>::empty()
                &&& final(self).removed() == Set::<NodeId>::empty()
            },
            old(self).consistent(old(tx)@) && r is Ok ==> {
                &&& final(self).consistent(final(tx)@)
                &&& final(self).nodes(final(tx)@) == old(self).nodes(old(tx)@)
                &&& final(self).stored(final(tx)@) == old(self).nodes(old(tx)@)
            },
    {
        if !self.out.is_empty() {
            return Err(Error::CorruptedIndex);
        }
        let ghost cons0 = self.consistent(tx@);
        let ghost nodes0 = self.nodes(tx@);
        let ghost dirty0 = self.dirty();
        let mut changed = false;
        let mut i: usize = 0;
        while i < self.cache.len()
            invariant
                self.wf(),
                self.capacity() == old(self).capacity(),
                tx.wf(),
                tx.reliable() == old(tx).reliable(),
                self.mode() == old(self).mode(),
                self.provider() == old(self).provider(),
                self.checked_out() == old(self).checked_out(),
                self.removed() == old(self).removed(),
                i <= self.cache@.len(),
                self.checked_out() == Set::<NodeId>::empty(),
                dirty0 == cache_dirty(old(self).cache@),
                cache_ids(old(self).cache@).no_duplicates(),
                forall|j: int| 0 <= j < i ==> !(#[trigger] self.cache@[j]).dirty,
                !changed ==> self.cache@ == old(self).cache@,
                changed ==> dirty0 != Set::<NodeId>::empty(),
                cons0 ==> self.consistent(tx@) && self.nodes(tx@) == nodes0,
                only_nodes_changed::<BK>(self.provider(), old(tx)@, tx@),
                changed_within(self.provider(), old(tx)@, tx@, dirty0.union(old(self).removed())),
                self.cache@.len() == old(self).cache@.len(),
                forall|j: int| i <= j < self.cache@.len() ==> self.cache@[j] == old(self).cache@[j],
                forall|j: int|
                    0 <= j < i && (#[trigger] old(self).cache@[j]).dirty ==> tx@.contains_key(
                        self.keys.key(old(self).cache@[j].stored.id),
                    ) && tx@[self.keys.key(old(self).cache@[j].stored.id)] == encode_node::<BK>(
                        old(self).cache@[j].stored.node@,
                    ),
            decreases self.cache@.len() - i,
        {
            if self.cache[i].dirty {
                proof {
                    lemma_cache_at(self.cache@, i as int);
                    lemma_cache_remove(self.cache@, i as int);
                    lemma_cache_at(old(self).cache@, i as int);
                    assert(dirty0.contains(self.cache@[i as int].stored.id));
                }
                let ghost before = self.cache@;
                let ghost tx0 = tx@;
                let mut entry = self.cache.remove(i);
                let ghost id = entry.stored.id;
                let ghost cache1 = self.cache@;
                match self.write_entry(tx, &mut entry) {
                    Ok(()) => {},
                    Err(e) => {
                        return Err(e);
                    },
                }
                self.cache.insert(i, entry);
                changed = true;
                proof {
                    lemma_changes_follow::<BK>(self.keys, old(tx)@, tx0, tx@);
                    assert forall|j: int|
                        0 <= j < i && (#[trigger] old(self).cache@[j]).dirty implies tx@.contains_key(
                        self.keys.key(old(self).cache@[j].stored.id),
                    ) && tx@[self.keys.key(old(self).cache@[j].stored.id)] == encode_node::<BK>(
                        old(self).cache@[j].stored.node@,
                    ) by {
                        let idj = old(self).cache@[j].stored.id;
                        assert(cache_ids(old(self).cache@)[j] == idj);
                        assert(cache_ids(old(self).cache@)[i as int] == id);
                        if self.keys.key(idj) == self.keys.key(id) {
                            self.keys.lemma_injective(idj, id);
                        }
                    }
                    let after = self.cache@;
                    assert(after =~= before.update(i as int, entry));
                    assert(cache_ids(after) =~= cache_ids(before));
                    assert forall|j: int| 0 <= j < after.len() implies {
                        &&& (#[trigger] after[j]).stored.node.wf()
                        &&& after[j].stored.key@ == self.keys.key(after[j].stored.id)
                        &&& !self.removed@.contains(after[j].stored.id)
                        &&& after[j].dirty ==> self.mode is Write
                    } by {
                        if j != i {
                            assert(after[j] == before[j]);
                        }
                    }
                    assert forall|x: NodeId| cache_ids(after).contains(x) implies cache_map(
                        after,
                    )[x] == cache_map(before)[x] by {
                        let j = cache_ids(after).index_of(x);
                        if j != i {
                            assert(after[j] == before[j]);
                        }
                    }
                    assert(cache_map(after) =~= cache_map(before));
                    assert forall|x: NodeId| cache_dirty(after).contains(x) == (cache_dirty(
                        before,
                    ).contains(x) && x != id) by {
                        if cache_ids(after).contains(x) {
                            let j = cache_ids(after).index_of(x);
                            lemma_cache_at(before, j);
                            lemma_cache_at(after, j);
                        }
                    }
                    if cons0 {
                        assert(self.nodes(tx@) =~= nodes0);
                    }
                }
            }
            i += 1;
        }
        proof {
            assert forall|x: NodeId| !self.dirty().contains(x) by {
                if cache_ids(self.cache@).contains(x) {
                    let j = cache_ids(self.cache@).index_of(x);
                    assert(!self.cache@[j].dirty);
                }
            }
            assert(self.dirty() =~= Set::<NodeId>::empty());
            if !changed {
                assert(dirty0 =~= Set::<NodeId>::empty());
            }
        }
        let ghost removed0 = self.removed();
        let ghost cached0 = old(self).cached();
        let ghost keys0 = self.keys;
        proof {
            assert forall|id: NodeId|
                #![trigger keys0.key(id)]
                dirty0.contains(id) implies tx@.contains_key(keys0.key(id)) && tx@[keys0.key(id)]
                == encode_node::<BK>(cached0[id]) by {
                let j = cache_ids(old(self).cache@).index_of(id);
                assert(old(self).cache@[j].stored.id == id);
                assert(old(self).cache@[j].dirty);
            }
        }
        let mut deleted = false;
        loop
            invariant
                keys0 == self.keys,
                cached0 == old(self).cached(),
                dirty0 == old(self).dirty(),
                forall|id: NodeId|
                    #![trigger keys0.key(id)]
                    dirty0.contains(id) ==> tx@.contains_key(keys0.key(id)) && tx@[keys0.key(id)]
                        == encode_node::<BK>(cached0[id]),
                forall|id: NodeId|
                    #![trigger keys0.key(id)]
                    removed0.contains(id) && !self.removed().contains(id) ==> !tx@.contains_key(
                        keys0.key(id),
                    ),
                forall|id: NodeId| dirty0.contains(id) ==> !removed0.contains(id),
                self.wf(),
                self.capacity() == old(self).capacity(),
                tx.wf(),
                tx.reliable() == old(tx).reliable(),
                self.mode() == old(self).mode(),
                self.provider() == old(self).provider(),
                self.checked_out() == old(self).checked_out(),
                self.checked_out() == Set::<NodeId>::empty(),
                self.dirty() == Set::<NodeId>::empty(),
                self.removed().subset_of(removed0),
                deleted ==> removed0 != Set::<NodeId>::empty(),
                !deleted ==> self.removed() == removed0,
                cons0 ==> self.consistent(tx@) && self.nodes(tx@) == nodes0,
                only_nodes_changed::<BK>(self.provider(), old(tx)@, tx@),
                changed_within(self.provider(), old(tx)@, tx@, dirty0.union(removed0)),
                removed0 == old(self).removed(),
            ensures
                self.removed() == Set::<NodeId>::empty(),
                forall|id: NodeId|
                    #![trigger keys0.key(id)]
                    dirty0.contains(id) ==> tx@.contains_key(keys0.key(id)) && tx@[keys0.key(id)]
                        == encode_node::<BK>(cached0[id]),
                forall|id: NodeId|
                    #![trigger keys0.key(id)]
                    removed0.contains(id) ==> !tx@.contains_key(keys0.key(id)),
                only_nodes_changed::<BK>(self.provider(), old(tx)@, tx@),
                changed_within(self.provider(), old(tx)@, tx@, dirty0.union(removed0)),
            decreases self.removed.size(),
        {
            let ghost rem = self.removed();
            let ghost tx0 = tx@;
            let ghost cache0 = self.cache@;
            match self.removed.pop() {
                Some(id) => {
                    proof {
                        assert(removed0.contains(id));
                    }
                    let key = self.keys.get_node_key(id);
                    proof {
                        lemma_persist_del::<BK>(self.keys, tx@, id);
                        assert(!self.cached().contains_key(id)) by {
                            if cache_ids(cache0).contains(id) {
                                let j = cache_ids(cache0).index_of(id);
                                assert(cache0[j].stored.id == id);
                            }
                        }
                    }
                    match tx.del(key) {
                        Ok(()) => {},
                        Err(e) => {
                            return Err(e);
                        },
                    }
                    deleted = true;
                    proof {
                        assert forall|x: NodeId| #![trigger keys0.key(x)] x != id implies keys0.key(x)
                            != keys0.key(id) by {
                            if keys0.key(x) == keys0.key(id) {
                                keys0.lemma_injective(x, id);
                            }
                        }
                        lemma_del_changes::<BK>(self.keys, tx0, id);
                        lemma_changes_follow::<BK>(self.keys, old(tx)@, tx0, tx@);
                        assert forall|j: int| 0 <= j < self.cache@.len() implies !self.removed@.contains(
                            (#[trigger] self.cache@[j]).stored.id,
                        ) by {}
                        if cons0 {
                            assert(self.nodes(tx@) =~= nodes0);
                        }
                    }
                },
                None => {
                    break ;
                },
            }
        }
        proof {
            if cons0 {
                self.lemma_flushed(tx@);
            }
        }
        Ok(changed || deleted)
    }
}

} // verus!
