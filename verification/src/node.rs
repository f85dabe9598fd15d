//! The nodes of the tree and their stored form.

use crate::bkeys::BKeys;
use crate::codec::{be64, from_be64, lemma_be64_round_trip, read_u64, write_u64};
use crate::err::Error;
use crate::pack::{lemma_absorb_concat, Pack};
use vstd::prelude::*;

verus! {

/// The identifier of a node.
pub type NodeId = u64;

/// What a key is mapped to.
pub type Payload = u64;

/// The first byte of every stored node.
pub const NODE_VERSION: u8 = 1;

/// The byte that marks a stored leaf.
pub const LEAF_TAG: u8 = 0;

/// The byte that marks a stored internal node.
pub const INTERNAL_TAG: u8 = 1;

/// What a node holds: its keys with their payloads and, if it is internal,
/// the identifiers of its children. A leaf has no children.
pub struct NodeModel {
    pub leaf: bool,
    pub pack: Pack,
    pub children: Seq<u64>,
}

impl NodeModel {
    /// The keys ascend, and a leaf has no children.
    pub open spec fn wf(self) -> bool {
        &&& self.pack.wf()
        &&& self.leaf ==> self.children.len() == 0
    }

    /// The sizes fit a machine word.
    pub open spec fn bounded(self) -> bool {
        &&& self.pack.bounded()
        &&& self.children.len() <= usize::MAX
    }
}

/// The stored form of a list of identifiers: eight bytes each.
pub open spec fn encode_ids(ids: Seq<u64>) -> Seq<u8> {
    Seq::new(8 * ids.len(), |j: int| be64(ids[j / 8])[j % 8])
}

/// The `n` identifiers stored in `b` from `pos` on.
pub open spec fn decode_ids(b: Seq<u8>, pos: int, n: nat) -> Seq<u64> {
    Seq::new(n, |i: int| from_be64(b.subrange(pos + 8 * i, pos + 8 * i + 8)))
}

/// The stored form of a node: the version, a byte that tells leaf from
/// internal node, for an internal node the number of children and their
/// identifiers, and the stored form of the pack.
pub open spec fn encode_node<BK: BKeys>(m: NodeModel) -> Seq<u8> {
    if m.leaf {
        seq![NODE_VERSION, LEAF_TAG] + BK::encoding(m.pack)
    } else {
        seq![NODE_VERSION, INTERNAL_TAG] + be64(m.children.len() as u64) + encode_ids(m.children)
            + BK::encoding(m.pack)
    }
}

/// The node whose stored form `b` is, if it is one.
pub open spec fn decode_node<BK: BKeys>(b: Seq<u8>) -> Option<NodeModel> {
    if b.len() < 2 || b[0] != NODE_VERSION {
        None
    } else if b[1] == LEAF_TAG {
        match BK::decoding(b, 2) {
            Some(pack) => Some(NodeModel { leaf: true, pack, children: Seq::empty() }),
            None => None,
        }
    } else if b[1] == INTERNAL_TAG {
        if b.len() < 10 {
            None
        } else {
            let n = from_be64(b.subrange(2, 10)) as int;
            if 10 + 8 * n > b.len() {
                None
            } else {
                match BK::decoding(b, 10 + 8 * n) {
                    Some(pack) => Some(
                        NodeModel { leaf: false, pack, children: decode_ids(b, 10, n as nat) },
                    ),
                    None => None,
                }
            }
        }
    } else {
        None
    }
}

proof fn lemma_ids_round_trip(ids: Seq<u64>, b: Seq<u8>, pos: int)
    requires
        0 <= pos,
        pos + 8 * ids.len() <= b.len(),
        b.subrange(pos, pos + 8 * ids.len()) == encode_ids(ids),
    ensures
        decode_ids(b, pos, ids.len()) == ids,
{
    let enc = encode_ids(ids);
    assert forall|i: int| 0 <= i < ids.len() implies decode_ids(b, pos, ids.len())[i] == ids[i] by {
        let s = b.subrange(pos + 8 * i, pos + 8 * i + 8);
        assert forall|j: int| 0 <= j < 8 implies s[j] == be64(ids[i])[j] by {
            assert(b[pos + 8 * i + j] == b.subrange(pos, pos + 8 * ids.len())[8 * i + j]);
            assert(enc[8 * i + j] == be64(ids[(8 * i + j) / 8])[(8 * i + j) % 8]);
        }
        assert(s =~= be64(ids[i]));
        lemma_be64_round_trip(ids[i]);
    }
    assert(decode_ids(b, pos, ids.len()) =~= ids);
}

/// Reading the stored form of a node gives the node back, whatever the kind
/// of its pack.
pub proof fn lemma_node_round_trip<BK: BKeys>(m: NodeModel)
    requires
        m.wf(),
        m.bounded(),
    ensures
        decode_node::<BK>(encode_node::<BK>(m)) == Some(m),
{
    let b = encode_node::<BK>(m);
    let tail = BK::encoding(m.pack);
    if m.leaf {
        assert(b.subrange(2, b.len() as int) =~= tail);
        BK::lemma_round_trip(m.pack, b, 2);
        assert(m.children =~= Seq::empty());
    } else {
        let n = m.children.len() as int;
        let ids = encode_ids(m.children);
        lemma_be64_round_trip(n as u64);
        assert(b.subrange(2, 10) =~= be64(n as u64));
        assert(b.subrange(10, 10 + 8 * n) =~= ids);
        assert(b.subrange(10 + 8 * n, b.len() as int) =~= tail);
        lemma_ids_round_trip(m.children, b, 10);
        BK::lemma_round_trip(m.pack, b, 10 + 8 * n);
    }
}

/// What is read from stored bytes is a well-formed node.
pub proof fn lemma_decode_node_wf<BK: BKeys>(b: Seq<u8>)
    requires
        b.len() <= usize::MAX,
    ensures
        decode_node::<BK>(b) matches Some(m) ==> m.wf(),
{
    BK::lemma_decoding_wf(b, 2);
    if b.len() >= 10 {
        BK::lemma_decoding_wf(b, 10 + 8 * (from_be64(b.subrange(2, 10)) as int));
    }
}

/// A node of the tree: a leaf with its keys, or an internal node with its
/// keys and the identifiers of its children.
pub enum Node<BK: BKeys> {
    Internal(BK, Vec<NodeId>),
    Leaf(BK),
}

impl<BK: BKeys> Node<BK> {
    /// What the node holds.
    pub open spec fn view(&self) -> NodeModel {
        match self {
            Node::Internal(keys, children) => NodeModel {
                leaf: false,
                pack: keys@,
                children: children@,
            },
            Node::Leaf(keys) => NodeModel { leaf: true, pack: keys@, children: Seq::empty() },
        }
    }

    /// The pack of the node is valid.
    pub open spec fn wf(&self) -> bool {
        match self {
            Node::Internal(keys, _) => keys.wf(),
            Node::Leaf(keys) => keys.wf(),
        }
    }

    /// Whether the pack of the node can be written out as it is.
    pub open spec fn compiled(&self) -> bool {
        match self {
            Node::Internal(keys, _) => keys.compiled(),
            Node::Leaf(keys) => keys.compiled(),
        }
    }

    /// A valid node holds a well-formed model of bounded size.
    pub proof fn lemma_wf(&self)
        requires
            self.wf(),
        ensures
            self@.wf(),
            self@.bounded(),
    {
        match self {
            Node::Internal(keys, children) => {
                keys.lemma_wf();
                assert(children@.len() == children.len());
            },
            Node::Leaf(keys) => keys.lemma_wf(),
        }
    }

    /// The keys of the node.
    pub fn keys(&self) -> (r: &BK)
        ensures
            r@ == self@.pack,
            r.wf() == self.wf(),
            r.compiled() == self.compiled(),
    {
        match self {
            Node::Internal(keys, _) => keys,
            Node::Leaf(keys) => keys,
        }
    }

    /// The keys of the node, to change them; the children stay.
    pub fn keys_mut(&mut self) -> (r: &mut BK)
        ensures
            *r == match *old(self) {
                Node::Internal(keys, _) => keys,
                Node::Leaf(keys) => keys,
            },
            *final(self) == match *old(self) {
                Node::Internal(_, children) => Node::Internal(*final(r), children),
                Node::Leaf(_) => Node::Leaf(*final(r)),
            },
    {
        match self {
            Node::Internal(keys, _) => keys,
            Node::Leaf(keys) => keys,
        }
    }

    /// Puts `key` with `payload` and then the keys of `node` in, and the
    /// children of `node` behind those of `self`. Both must be leaves or both
    /// internal nodes: else the result is `CorruptedIndex`, and nothing is
    /// changed. Where the keys come in ascending order, the keys of `node`
    /// come behind `key`, and `key` behind the keys of `self`.
    pub fn append(&mut self, key: Vec<u8>, payload: Payload, node: Node<BK>) -> (r: Result<
        (),
        Error,
    >)
        requires
            old(self).wf(),
            node.wf(),
        ensures
            final(self).wf(),
            final(self)@.leaf == old(self)@.leaf,
            r is Ok <==> old(self)@.leaf == node@.leaf,
            r is Ok ==> final(self)@.pack == old(self)@.pack.insert(key@, payload).absorb(
                node@.pack,
            ) && final(self)@.children == old(self)@.children + node@.children,
            r is Ok && old(self)@.pack.insert(key@, payload).precedes(node@.pack)
                ==> final(self)@.pack == old(self)@.pack.insert(key@, payload).concat(node@.pack),
            r is Err ==> r == Err::<(), Error>(Error::CorruptedIndex) && final(self)@ == old(self)@,
    {
        proof {
            old(self).lemma_wf();
            node.lemma_wf();
            old(self)@.pack.lemma_insert_wf(key@, payload);
            if old(self)@.pack.insert(key@, payload).precedes(node@.pack) {
                lemma_absorb_concat(old(self)@.pack.insert(key@, payload), node@.pack);
            }
        }
        match self {
            Node::Internal(keys, children) => {
                match node {
                    Node::Internal(append_keys, mut append_children) => {
                        keys.insert(key, payload);
                        keys.append(append_keys);
                        children.append(&mut append_children);
                        Ok(())
                    },
                    Node::Leaf(_) => Err(Error::CorruptedIndex),
                }
            },
            Node::Leaf(keys) => {
                match node {
                    Node::Leaf(append_keys) => {
                        keys.insert(key, payload);
                        keys.append(append_keys);
                        assert(Seq::<u64>::empty() + Seq::<u64>::empty() =~= Seq::<u64>::empty());
                        Ok(())
                    },
                    Node::Internal(_, _) => Err(Error::CorruptedIndex),
                }
            },
        }
    }

    /// A second node with the same keys and children.
    pub fn duplicate(&self) -> (r: Node<BK>)
        requires
            self.wf(),
        ensures
            r.wf(),
            r@ == self@,
            r.compiled() == self.compiled(),
    {
        match self {
            Node::Internal(keys, children) => {
                let mut copy: Vec<NodeId> = Vec::with_capacity(children.len());
                let mut i: usize = 0;
                while i < children.len()
                    invariant
                        i <= children.len(),
                        copy@ == children@.subrange(0, i as int),
                    decreases children.len() - i,
                {
                    copy.push(children[i]);
                    assert(children@.subrange(0, i as int).push(children@[i as int])
                        =~= children@.subrange(0, i + 1));
                    i += 1;
                }
                assert(children@.subrange(0, children.len() as int) =~= children@);
                Node::Internal(keys.duplicate(), copy)
            },
            Node::Leaf(keys) => Node::Leaf(keys.duplicate()),
        }
    }

    /// The stored form of the node. A node whose pack is not compiled has
    /// none, and gives `EncodingFailure`.
    pub fn try_to_val(&self) -> (r: Result<Vec<u8>, Error>)
        requires
            self.wf(),
        ensures
            r is Ok <==> self.compiled(),
            r matches Ok(val) ==> val@ == encode_node::<BK>(self@),
            r is Err ==> r == Err::<Vec<u8>, Error>(Error::EncodingFailure),
    {
        let mut out: Vec<u8> = Vec::new();
        out.push(NODE_VERSION);
        match self {
            Node::Internal(keys, children) => {
                if !keys.is_compiled() {
                    return Err(Error::EncodingFailure);
                }
                out.push(INTERNAL_TAG);
                write_u64(&mut out, children.len() as u64);
                let ghost head = out@;
                let mut i: usize = 0;
                while i < children.len()
                    invariant
                        i <= children.len(),
                        out@ == head + encode_ids(children@.subrange(0, i as int)),
                    decreases children.len() - i,
                {
                    let ghost cur = out@;
                    write_u64(&mut out, children[i]);
                    proof {
                        let a = children@.subrange(0, i as int);
                        let b = children@.subrange(0, i + 1);
                        assert forall|j: int| 0 <= j < 8 * b.len() implies (encode_ids(a) + be64(
                            children@[i as int],
                        ))[j] == encode_ids(b)[j] by {
                            if j < 8 * a.len() {
                                assert(a[j / 8] == b[j / 8]);
                            } else {
                                assert(j / 8 == i && j % 8 == j - 8 * i);
                            }
                        }
                        assert(encode_ids(a) + be64(children@[i as int]) =~= encode_ids(b));
                        assert(out@ =~= head + encode_ids(b));
                    }
                    i += 1;
                }
                assert(children@.subrange(0, children.len() as int) =~= children@);
                let ghost mid = out@;
                keys.encode(&mut out);
                assert(out@ =~= encode_node::<BK>(self@));
            },
            Node::Leaf(keys) => {
                if !keys.is_compiled() {
                    return Err(Error::EncodingFailure);
                }
                out.push(LEAF_TAG);
                keys.encode(&mut out);
                assert(out@ =~= encode_node::<BK>(self@));
            },
        }
        Ok(out)
    }

    /// The node whose stored form `val` is; `EncodingFailure` where `val` is
    /// the stored form of none.
    pub fn try_from_val(val: Vec<u8>) -> (r: Result<Node<BK>, Error>)
        ensures
            r matches Ok(node) ==> node.wf() && node.compiled() && decode_node::<BK>(val@) == Some(
                node@,
            ),
            r matches Err(e) ==> e == Error::EncodingFailure && decode_node::<BK>(val@) is None,
    {
        let len = val.len();
        if len < 2 || val[0] != NODE_VERSION {
            return Err(Error::EncodingFailure);
        }
        if val[1] == LEAF_TAG {
            match BK::decode(&val, 2) {
                Some(keys) => Ok(Node::Leaf(keys)),
                None => Err(Error::EncodingFailure),
            }
        } else if val[1] == INTERNAL_TAG {
            if len < 10 {
                return Err(Error::EncodingFailure);
            }
            let n = read_u64(&val, 2);
            if n > ((len - 10) / 8) as u64 {
                return Err(Error::EncodingFailure);
            }
            let n: usize = n as usize;
            let mut children: Vec<NodeId> = Vec::with_capacity(n);
            let mut i: usize = 0;
            while i < n
                invariant
                    len == val.len(),
                    10 + 8 * n <= len,
                    i <= n,
                    children@ == decode_ids(val@, 10, i as nat),
                decreases n - i,
            {
                let id = read_u64(&val, 10 + 8 * i);
                children.push(id);
                assert(children@ =~= decode_ids(val@, 10, (i + 1) as nat));
                i += 1;
            }
            match BK::decode(&val, 10 + 8 * n) {
                Some(keys) => Ok(Node::Internal(keys, children)),
                None => Err(Error::EncodingFailure),
            }
        } else {
            Err(Error::EncodingFailure)
        }
    }
}

} // verus!
