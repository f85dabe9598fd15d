//! The small record that is kept beside the nodes of a tree.

use crate::codec::{be64, from_be64, lemma_be64_round_trip, read_u64, write_u64};
use crate::err::Error;
use crate::node::NodeId;
use vstd::prelude::*;

verus! {

/// The first byte of every stored state.
pub const STATE_VERSION: u8 = 1;

/// The number of bytes of a stored state.
pub const STATE_SIZE: usize = 26;

/// What has to be kept of a tree between two operations: its minimum degree,
/// its root if it has any key, and the identifier that the next new node gets.
#[derive(Clone, Copy, Debug)]
pub struct State {
    pub minimum_degree: u32,
    pub root: Option<NodeId>,
    pub next_node_id: NodeId,
}

/// The stored form of a state: the version, the minimum degree, a byte that
/// tells whether there is a root, the root (zero where there is none) and the
/// next identifier.
pub open spec fn encode_state(s: State) -> Seq<u8> {
    seq![STATE_VERSION] + be64(s.minimum_degree as u64) + (match s.root {
        Some(id) => seq![1u8] + be64(id),
        None => seq![0u8] + be64(0),
    }) + be64(s.next_node_id)
}

/// The state whose stored form `b` is, if it is one.
pub open spec fn decode_state(b: Seq<u8>) -> Option<State> {
    if b.len() != STATE_SIZE || b[0] != STATE_VERSION {
        None
    } else {
        let degree = from_be64(b.subrange(1, 9));
        let root = from_be64(b.subrange(10, 18));
        let next = from_be64(b.subrange(18, 26));
        if degree < 2 || degree > u32::MAX {
            None
        } else if b[9] == 1 {
            Some(State { minimum_degree: degree as u32, root: Some(root), next_node_id: next })
        } else if b[9] == 0 && root == 0 {
            Some(State { minimum_degree: degree as u32, root: None, next_node_id: next })
        } else {
            None
        }
    }
}

/// Reading the stored form of a state gives the state back.
pub proof fn lemma_state_round_trip(s: State)
    requires
        s.wf(),
    ensures
        decode_state(encode_state(s)) == Some(s),
{
    let b = encode_state(s);
    let r = match s.root {
        Some(id) => id,
        None => 0,
    };
    lemma_be64_round_trip(s.minimum_degree as u64);
    lemma_be64_round_trip(r);
    lemma_be64_round_trip(s.next_node_id);
    assert(b.subrange(1, 9) =~= be64(s.minimum_degree as u64));
    assert(b.subrange(10, 18) =~= be64(r));
    assert(b.subrange(18, 26) =~= be64(s.next_node_id));
}

impl State {
    /// The minimum degree is at least two.
    pub open spec fn wf(&self) -> bool {
        self.minimum_degree >= 2
    }

    /// The state of an empty tree of the given minimum degree.
    pub fn new(minimum_degree: u32) -> (r: Self)
        requires
            minimum_degree >= 2,
        ensures
            r.wf(),
            r.minimum_degree == minimum_degree,
            r.root is None,
            r.next_node_id == 0,
    {
        Self { minimum_degree, root: None, next_node_id: 0 }
    }

    /// The stored form of the state.
    pub fn try_to_val(&self) -> (r: Result<Vec<u8>, Error>)
        ensures
            r matches Ok(val) && val@ == encode_state(*self),
    {
        let mut out: Vec<u8> = Vec::new();
        out.push(STATE_VERSION);
        write_u64(&mut out, self.minimum_degree as u64);
        match self.root {
            Some(id) => {
                out.push(1);
                write_u64(&mut out, id);
            },
            None => {
                out.push(0);
                write_u64(&mut out, 0);
            },
        }
        write_u64(&mut out, self.next_node_id);
        assert(out@ =~= encode_state(*self));
        Ok(out)
    }

    /// The state whose stored form `val` is; `EncodingFailure` where `val` is
    /// the stored form of none.
    pub fn try_from_val(val: Vec<u8>) -> (r: Result<State, Error>)
        ensures
            r matches Ok(s) ==> s.wf() && decode_state(val@) == Some(s),
            r matches Err(e) ==> e == Error::EncodingFailure && decode_state(val@) is None,
    {
        if val.len() != STATE_SIZE || val[0] != STATE_VERSION {
            return Err(Error::EncodingFailure);
        }
        let degree = read_u64(&val, 1);
        let root = read_u64(&val, 10);
        let next = read_u64(&val, 18);
        if degree < 2 || degree > u32::MAX as u64 {
            return Err(Error::EncodingFailure);
        }
        if val[9] == 1 {
            Ok(State { minimum_degree: degree as u32, root: Some(root), next_node_id: next })
        } else if val[9] == 0 && root == 0 {
            Ok(State { minimum_degree: degree as u32, root: None, next_node_id: next })
        } else {
            Err(Error::EncodingFailure)
        }
    }
}

} // verus!
