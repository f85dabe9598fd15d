//! A small set of node identifiers.

use crate::node::NodeId;
use vstd::prelude::*;

verus! {

/// A set of node identifiers, kept in the order in which they came.
pub struct IdSet {
    items: Vec<NodeId>,
}

impl IdSet {
    /// The identifiers in the set.
    pub closed spec fn view(&self) -> Set<NodeId> {
        self.items@.to_set()
    }

    /// The number of identifiers in the set.
    pub closed spec fn size(&self) -> nat {
        self.items@.len()
    }

    /// No identifier is held twice.
    pub closed spec fn wf(&self) -> bool {
        self.items@.no_duplicates()
    }

    /// The empty set.
    pub fn new() -> (r: IdSet)
        ensures
            r.wf(),
            r@ == Set::<NodeId>::empty(),
    {
        let r = IdSet { items: Vec::new() };
        assert(r@ =~= Set::<NodeId>::empty());
        r
    }

    fn position(&self, id: NodeId) -> (r: Option<usize>)
        ensures
            r matches Some(i) ==> i < self.items@.len() && self.items@[i as int] == id,
            r is None ==> !self.items@.contains(id),
    {
        let mut i: usize = 0;
        while i < self.items.len()
            invariant
                i <= self.items.len(),
                forall|j: int| 0 <= j < i ==> self.items@[j] != id,
            decreases self.items.len() - i,
        {
            if self.items[i] == id {
                return Some(i);
            }
            i += 1;
        }
        None
    }

    /// Whether `id` is in the set.
    pub fn contains(&self, id: NodeId) -> (r: bool)
        ensures
            r == self@.contains(id),
    {
        let r = self.position(id);
        proof {
            if r is Some {
                assert(self.items@.contains(id));
            }
        }
        r.is_some()
    }

    /// Whether the set holds nothing.
    pub fn is_empty(&self) -> (r: bool)
        ensures
            r == (self@ == Set::<NodeId>::empty()),
    {
        proof {
            if self.items@.len() > 0 {
                assert(self.items@.contains(self.items@[0]));
                assert(self@.contains(self.items@[0]));
            } else {
                assert(self@ =~= Set::<NodeId>::empty());
            }
        }
        self.items.len() == 0
    }

    /// Puts `id` into the set.
    pub fn insert(&mut self, id: NodeId)
        requires
            old(self).wf(),
        ensures
            final(self).wf(),
            final(self)@ == old(self)@.insert(id),
    {
        if self.position(id).is_none() {
            self.items.push(id);
            proof {
                assert forall|x: NodeId| self@.contains(x) == old(self)@.insert(id).contains(x) by {
                    if old(self).items@.contains(x) {
                        let j = old(self).items@.index_of(x);
                        assert(self.items@[j] == x);
                    }
                    if self.items@.contains(x) {
                        let j = self.items@.index_of(x);
                        if j < old(self).items@.len() {
                            assert(old(self).items@[j] == x);
                        }
                    } else if x == id {
                        assert(self.items@[self.items@.len() - 1] == id);
                    }
                }
                assert(self@ =~= old(self)@.insert(id));
            }
        } else {
            assert(self.items@.contains(id));
            assert(self@ =~= old(self)@.insert(id));
        }
    }

    /// Takes `id` out of the set.
    pub fn remove(&mut self, id: NodeId)
        requires
            old(self).wf(),
        ensures
            final(self).wf(),
            final(self)@ == old(self)@.remove(id),
            old(self)@.contains(id) ==> final(self).size() + 1 == old(self).size(),
    {
        match self.position(id) {
            Some(i) => {
                self.items.remove(i);
                proof {
                    let before = old(self).items@;
                    let after = self.items@;
                    assert forall|x: NodeId| self@.contains(x) == old(self)@.remove(id).contains(
                        x,
                    ) by {
                        if x != id && before.contains(x) {
                            let j = before.index_of(x);
                            let j1 = if j < i { j } else { j - 1 };
                            assert(after[j1] == x);
                        }
                        if after.contains(x) {
                            let j = after.index_of(x);
                            let j0 = if j < i { j } else { j + 1 };
                            assert(before[j0] == x);
                        }
                    }
                    assert(self@ =~= old(self)@.remove(id));
                }
            },
            None => {
                assert(self@ =~= old(self)@.remove(id));
            },
        }
    }

    /// Takes one identifier out of the set, the last that came in.
    pub fn pop(&mut self) -> (r: Option<NodeId>)
        requires
            old(self).wf(),
        ensures
            final(self).wf(),
            r matches Some(id) ==> old(self)@.contains(id) && final(self)@ == old(self)@.remove(id),
            r is Some ==> final(self).size() < old(self).size(),
            r is None ==> old(self)@ == Set::<NodeId>::empty() && final(self)@ == old(self)@,
    {
        let n = self.items.len();
        if n == 0 {
            assert(self@ =~= Set::<NodeId>::empty());
            return None;
        }
        let id = self.items[n - 1];
        assert(self.items@.contains(id));
        self.remove(id);
        Some(id)
    }
}

} // verus!
