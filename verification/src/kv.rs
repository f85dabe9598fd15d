//! The key-value store that the nodes are kept in: what the index asks of a
//! transaction, and a transaction that keeps its records in memory.

use crate::err::Error;
use crate::order::{
    compare_keys, copy_bytes, key_lt, lemma_key_lt_asymmetric, lemma_key_lt_irreflexive,
    lemma_key_lt_transitive, KeyOrder,
};
use crate::pack::{
    ascending, lemma_insert_ascending, lemma_located_absent, lemma_located_found, lemma_pos_is,
    lemma_remove_ascending, Pack,
};
use crate::run::keys_view;
use vstd::prelude::*;

verus! {

/// The list holds the records of `m` whose keys lie from `begin` up to, not
/// including, `end`, in ascending order of their keys; where they are more
/// than `limit`, it holds the first `limit` of them.
pub open spec fn scanned(
    m: Map<Seq<u8>, Seq<u8>>,
    begin: Seq<u8>,
    end: Seq<u8>,
    limit: u32,
    list: Seq<(Vec<u8>, Vec<u8>)>,
) -> bool {
    &&& list.len() <= limit
    &&& forall|i: int|
        0 <= i < list.len() ==> {
            &&& !key_lt((#[trigger] list[i]).0@, begin)
            &&& key_lt(list[i].0@, end)
            &&& m.contains_key(list[i].0@)
            &&& m[list[i].0@] == list[i].1@
        }
    &&& forall|i: int, j: int|
        0 <= i < j < list.len() ==> key_lt((#[trigger] list[i]).0@, (#[trigger] list[j]).0@)
    &&& forall|k: Seq<u8>|
        #![trigger m.contains_key(k)]
        m.contains_key(k) && !key_lt(k, begin) && key_lt(k, end) ==> (exists|i: int|
            0 <= i < list.len() && (#[trigger] list[i]).0@ == k) || (list.len() == limit && limit
            > 0 && key_lt(list[list.len() - 1].0@, k)) || (limit == 0)
}

/// A transaction on a store of records, each a byte string under a key.
pub trait Transaction {
    /// The records that the transaction sees.
    spec fn view(&self) -> Map<Seq<u8>, Seq<u8>>;

    /// The value is one that the operations below keep up.
    spec fn wf(&self) -> bool;

    /// The store behind the transaction does not fail.
    spec fn reliable(&self) -> bool;

    /// The record under `key`, if there is one.
    fn get(&mut self, key: &Vec<u8>) -> (r: Result<Option<Vec<u8>>, Error>)
        requires
            old(self).wf(),
        ensures
            final(self).wf(),
            final(self).reliable() == old(self).reliable(),
            final(self)@ == old(self)@,
            old(self).reliable() ==> r is Ok,
            r matches Ok(Some(val)) ==> old(self)@.contains_key(key@) && old(self)@[key@] == val@,
            r matches Ok(None) ==> !old(self)@.contains_key(key@),
            r matches Err(e) ==> e is Backend,
    ;

    /// Puts `val` under `key`, in place of an earlier record if there was one.
    fn set(&mut self, key: Vec<u8>, val: Vec<u8>) -> (r: Result<(), Error>)
        requires
            old(self).wf(),
        ensures
            final(self).wf(),
            final(self).reliable() == old(self).reliable(),
            old(self).reliable() ==> r is Ok,
            r is Ok ==> final(self)@ == old(self)@.insert(key@, val@),
            r matches Err(e) ==> e is Backend,
    ;

    /// Removes the record under `key`, if there is one.
    fn del(&mut self, key: Vec<u8>) -> (r: Result<(), Error>)
        requires
            old(self).wf(),
        ensures
            final(self).wf(),
            final(self).reliable() == old(self).reliable(),
            old(self).reliable() ==> r is Ok,
            r is Ok ==> final(self)@ == old(self)@.remove(key@),
            r matches Err(e) ==> e is Backend,
    ;

    /// The records whose keys lie from `begin` up to, not including, `end`,
    /// in ascending order of their keys, and of those the first `limit`.
    fn scan(&mut self, begin: &Vec<u8>, end: &Vec<u8>, limit: u32) -> (r: Result<
        Vec<(Vec<u8>, Vec<u8>)>,
        Error,
    >)
        requires
            old(self).wf(),
        ensures
            final(self).wf(),
            final(self).reliable() == old(self).reliable(),
            final(self)@ == old(self)@,
            old(self).reliable() ==> r is Ok,
            r matches Err(e) ==> e is Backend,
            r matches Ok(list) ==> scanned(old(self)@, begin@, end@, limit, list@),
    ;
}

/// A transaction that keeps its records in memory, in ascending order of
/// their keys. It never fails.
pub struct MemoryTransaction {
    keys: Vec<Vec<u8>>,
    vals: Vec<Vec<u8>>,
}

proof fn lemma_insert_index(keys: Seq<Seq<u8>>, k: Seq<u8>, i: int, q: Seq<u8>)
    requires
        ascending(keys),
        0 <= i <= keys.len(),
        forall|j: int| 0 <= j < i ==> key_lt(#[trigger] keys[j], k),
        i < keys.len() ==> key_lt(k, keys[i]),
    ensures
        ascending(keys.insert(i, k)),
        keys.insert(i, k).contains(q) <==> q == k || keys.contains(q),
        keys.insert(i, k).index_of(k) == i,
        q != k && keys.contains(q) ==> keys.insert(i, k).index_of(q) == (if keys.index_of(q) < i {
            keys.index_of(q)
        } else {
            keys.index_of(q) + 1
        }),
{
    let out = keys.insert(i, k);
    let po = Pack { keys: out, payloads: Seq::empty() };
    lemma_insert_ascending(keys, k, i);
    assert(out[i] == k);
    lemma_pos_is(po, k, i);
    if keys.contains(q) {
        let j = keys.index_of(q);
        assert(0 <= j < keys.len() && keys[j] == q);
        let j1 = if j < i { j } else { j + 1 };
        assert(out[j1] == q);
        lemma_pos_is(po, q, j1);
    }
    if out.contains(q) && q != k {
        let j = out.index_of(q);
        assert(0 <= j < out.len() && out[j] == q);
        let j0 = if j < i { j } else { j - 1 };
        assert(keys[j0] == q);
    }
}

proof fn lemma_remove_index(keys: Seq<Seq<u8>>, i: int, q: Seq<u8>)
    requires
        ascending(keys),
        0 <= i < keys.len(),
    ensures
        ascending(keys.remove(i)),
        keys.remove(i).contains(q) <==> q != keys[i] && keys.contains(q),
        q != keys[i] && keys.contains(q) ==> keys.remove(i).index_of(q) == (if keys.index_of(q)
            < i {
            keys.index_of(q)
        } else {
            keys.index_of(q) - 1
        }),
{
    let out = keys.remove(i);
    let po = Pack { keys: out, payloads: Seq::empty() };
    let pk = Pack { keys, payloads: Seq::empty() };
    lemma_remove_ascending(keys, i);
    lemma_pos_is(pk, keys[i], i);
    if keys.contains(q) && q != keys[i] {
        let j = keys.index_of(q);
        assert(0 <= j < keys.len() && keys[j] == q);
        let j1 = if j < i { j } else { j - 1 };
        assert(out[j1] == q);
        lemma_pos_is(po, q, j1);
    }
    if out.contains(q) {
        let j = out.index_of(q);
        assert(0 <= j < out.len() && out[j] == q);
        let j0 = if j < i { j } else { j + 1 };
        assert(keys[j0] == q);
        lemma_pos_is(pk, q, j0);
    }
}

impl MemoryTransaction {
    /// The keys of the records, in ascending order.
    pub closed spec fn keys(&self) -> Seq<Seq<u8>> {
        keys_view(self.keys@)
    }

    /// The record at each index of `keys`.
    pub closed spec fn vals(&self) -> Seq<Seq<u8>> {
        keys_view(self.vals@)
    }

    /// A transaction on an empty store.
    pub fn new() -> (r: Self)
        ensures
            r.wf(),
            r@ == Map::<Seq<u8>, Seq<u8>>::empty(),
    {
        let r = MemoryTransaction { keys: Vec::new(), vals: Vec::new() };
        assert(r@ =~= Map::<Seq<u8>, Seq<u8>>::empty());
        r
    }

    /// The number of keys below `key`, and whether `key` stands at that index.
    fn locate(&self, key: &Vec<u8>) -> (r: (usize, bool))
        requires
            self.wf(),
        ensures
            r.0 <= self.keys().len(),
            r.1 ==> r.0 < self.keys().len() && self.keys()[r.0 as int] == key@,
            r.1 == self.keys().contains(key@),
            r.1 ==> self.keys().index_of(key@) == r.0,
            forall|j: int| 0 <= j < r.0 ==> key_lt(#[trigger] self.keys()[j], key@),
            forall|j: int| r.0 <= j < self.keys().len() ==> !key_lt(#[trigger] self.keys()[j], key@),
            !r.1 && r.0 < self.keys().len() ==> key_lt(key@, self.keys()[r.0 as int]),
    {
        let ghost p = Pack { keys: self.keys(), payloads: Seq::empty() };
        let mut i: usize = 0;
        while i < self.keys.len()
            invariant
                self.wf(),
                i <= self.keys.len(),
                p == (Pack { keys: self.keys(), payloads: Seq::empty() }),
                forall|j: int| 0 <= j < i ==> key_lt(#[trigger] self.keys()[j], key@),
            decreases self.keys.len() - i,
        {
            match compare_keys(&self.keys[i], key) {
                KeyOrder::Less => {
                    i += 1;
                },
                KeyOrder::Equal => {
                    proof {
                        lemma_located_found(p, key@, i as int);
                        lemma_key_lt_irreflexive(key@);
                        assert forall|j: int| i <= j < self.keys().len() implies !key_lt(
                            #[trigger] self.keys()[j],
                            key@,
                        ) by {
                            if i < j {
                                assert(key_lt(self.keys()[i as int], self.keys()[j]));
                                lemma_key_lt_asymmetric(key@, self.keys()[j]);
                            }
                        }
                    }
                    return (i, true);
                },
                KeyOrder::Greater => {
                    proof {
                        lemma_located_absent(p, key@, i as int);
                        assert forall|j: int| i <= j < self.keys().len() implies !key_lt(
                            #[trigger] self.keys()[j],
                            key@,
                        ) by {
                            if i < j {
                                assert(key_lt(self.keys()[i as int], self.keys()[j]));
                                lemma_key_lt_transitive(key@, self.keys()[i as int], self.keys()[j]);
                            }
                            lemma_key_lt_asymmetric(key@, self.keys()[j]);
                        }
                    }
                    return (i, false);
                },
            }
        }
        proof {
            lemma_located_absent(p, key@, i as int);
        }
        (i, false)
    }

    /// The number of records.
    pub fn len(&self) -> (r: usize)
        requires
            self.wf(),
        ensures
            r == self.keys().len(),
    {
        self.keys.len()
    }

}

impl Transaction for MemoryTransaction {
    closed spec fn view(&self) -> Map<Seq<u8>, Seq<u8>> {
        Map::new(
            |k: Seq<u8>| self.keys().contains(k),
            |k: Seq<u8>| self.vals()[self.keys().index_of(k)],
        )
    }

    closed spec fn wf(&self) -> bool {
        &&& self.keys@.len() == self.vals@.len()
        &&& ascending(self.keys())
    }

    open spec fn reliable(&self) -> bool {
        true
    }

    fn get(&mut self, key: &Vec<u8>) -> (r: Result<Option<Vec<u8>>, Error>) {
        let (i, found) = self.locate(key);
        if found {
            Ok(Some(copy_bytes(&self.vals[i])))
        } else {
            Ok(None)
        }
    }

    fn set(&mut self, key: Vec<u8>, val: Vec<u8>) -> (r: Result<(), Error>) {
        let (i, found) = self.locate(&key);
        let ghost keys0 = self.keys();
        let ghost vals0 = self.vals();
        if found {
            self.vals[i] = val;
            proof {
                assert(vals0.len() == keys0.len());
                assert(self.keys() =~= keys0);
                assert(self.vals() =~= vals0.update(i as int, val@));
                let p = Pack { keys: keys0, payloads: Seq::empty() };
                assert forall|q: Seq<u8>| keys0.contains(q) && q != key@ implies keys0.index_of(q)
                    != i by {
                    let j = keys0.index_of(q);
                    assert(0 <= j < keys0.len() && keys0[j] == q);
                }
                assert(self@ =~= old(self)@.insert(key@, val@));
            }
        } else {
            self.keys.insert(i, key);
            self.vals.insert(i, val);
            proof {
                assert(vals0.len() == keys0.len());
                assert(self.keys() =~= keys0.insert(i as int, key@));
                assert(self.vals() =~= vals0.insert(i as int, val@));
                assert forall|q: Seq<u8>|
                    #![trigger self@.dom().contains(q)]
                    self@.dom().contains(q) == old(self)@.insert(key@, val@).dom().contains(q) && (
                    self@.dom().contains(q) ==> self@[q] == old(self)@.insert(key@, val@)[q]) by {
                    lemma_insert_index(keys0, key@, i as int, q);
                    if q != key@ && keys0.contains(q) {
                        let j = keys0.index_of(q);
                        assert(0 <= j < keys0.len() && keys0[j] == q);
                    }
                }
                lemma_insert_index(keys0, key@, i as int, key@);
                assert(self@ =~= old(self)@.insert(key@, val@));
            }
        }
        Ok(())
    }

    fn del(&mut self, key: Vec<u8>) -> (r: Result<(), Error>) {
        let (i, found) = self.locate(&key);
        let ghost keys0 = self.keys();
        let ghost vals0 = self.vals();
        if found {
            self.keys.remove(i);
            self.vals.remove(i);
            proof {
                assert(vals0.len() == keys0.len());
                assert(self.keys() =~= keys0.remove(i as int));
                assert(self.vals() =~= vals0.remove(i as int));
                assert forall|q: Seq<u8>|
                    #![trigger self@.dom().contains(q)]
                    self@.dom().contains(q) == old(self)@.remove(key@).dom().contains(q) && (
                    self@.dom().contains(q) ==> self@[q] == old(self)@.remove(key@)[q]) by {
                    lemma_remove_index(keys0, i as int, q);
                    if q != key@ && keys0.contains(q) {
                        let j = keys0.index_of(q);
                        assert(0 <= j < keys0.len() && keys0[j] == q);
                    }
                }
                lemma_remove_index(keys0, i as int, key@);
                assert(self@ =~= old(self)@.remove(key@));
            }
        } else {
            assert(self@ =~= old(self)@.remove(key@));
        }
        Ok(())
    }

    fn scan(&mut self, begin: &Vec<u8>, end: &Vec<u8>, limit: u32) -> (r: Result<
        Vec<(Vec<u8>, Vec<u8>)>,
        Error,
    >)
    {
        let (lo, _) = self.locate(begin);
        let (hi, _) = self.locate(end);
        let mut out: Vec<(Vec<u8>, Vec<u8>)> = Vec::new();
        let mut i: usize = lo;
        while i < hi && out.len() < limit as usize
            invariant
                self.wf(),
                lo <= i,
                hi <= self.keys.len(),
                i <= hi || out@.len() == 0,
                out@.len() <= limit,
                out@.len() == i - lo,
                forall|a: int|
                    0 <= a < out@.len() ==> (#[trigger] out@[a]).0@ == self.keys()[lo + a]
                        && out@[a].1@ == self.vals()[lo + a],
            decreases hi - i,
        {
            out.push((copy_bytes(&self.keys[i]), copy_bytes(&self.vals[i])));
            i += 1;
        }
        proof {
            let p = Pack { keys: self.keys(), payloads: Seq::empty() };
            assert forall|a: int| 0 <= a < out@.len() implies {
                &&& !key_lt((#[trigger] out@[a]).0@, begin@)
                &&& key_lt(out@[a].0@, end@)
                &&& self@.contains_key(out@[a].0@)
                &&& self@[out@[a].0@] == out@[a].1@
            } by {
                assert(out@[a].0@ == self.keys()[lo + a]);
                lemma_pos_is(p, self.keys()[lo + a], lo + a);
            }
            assert forall|a: int, b: int| 0 <= a < b < out@.len() implies key_lt(
                (#[trigger] out@[a]).0@,
                (#[trigger] out@[b]).0@,
            ) by {
                assert(key_lt(self.keys()[lo + a], self.keys()[lo + b]));
            }
            assert forall|k: Seq<u8>|
                #![trigger self@.contains_key(k)]
                self@.contains_key(k) && !key_lt(k, begin@) && key_lt(k, end@) implies (exists|
                    a: int,
                |
                    0 <= a < out@.len() && (#[trigger] out@[a]).0@ == k) || (out@.len() == limit
                    && limit > 0 && key_lt(out@[out@.len() - 1].0@, k)) || (limit == 0) by {
                let j = self.keys().index_of(k);
                assert(0 <= j < self.keys().len() && self.keys()[j] == k);
                assert(lo <= j < hi);
                if j < lo + out@.len() {
                    assert(out@[j - lo].0@ == k);
                } else if limit > 0 {
                    assert(out@[out@.len() - 1].0@ == self.keys()[lo + out@.len() - 1]);
                    assert(key_lt(self.keys()[lo + out@.len() - 1], self.keys()[j]));
                }
            }
        }
        Ok(out)
    }
}

} // verus!
