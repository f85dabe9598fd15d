//! Key packs: the ordered key-to-payload containers inside the nodes.

use crate::err::Error;
use crate::pack::Pack;
use crate::run::{decode_run, encode_run, lemma_decode_run_wf, lemma_run_round_trip, KeyRun};
use vstd::prelude::*;

verus! {

/// A pack cut at its median.
pub struct SplitKeys<BK> {
    pub left: BK,
    pub right: BK,
    pub median_idx: usize,
    pub median_key: Vec<u8>,
    pub median_payload: u64,
}

/// An ordered mapping from keys to payloads that a node can hold.
pub trait BKeys: Sized {
    /// The entries, in ascending order of their keys.
    spec fn view(&self) -> Pack;

    /// The value is one that the operations below keep up.
    spec fn wf(&self) -> bool;

    /// The pack is in the state in which it can be written out.
    spec fn compiled(&self) -> bool;

    /// The stored form of a pack of this kind.
    spec fn encoding(p: Pack) -> Seq<u8>;

    /// The pack of this kind that fills `b` from `pos` to its end.
    spec fn decoding(b: Seq<u8>, pos: int) -> Option<Pack>;

    /// A valid value holds a well-formed pack of bounded size.
    proof fn lemma_wf(&self)
        requires
            self.wf(),
        ensures
            self@.wf(),
            self@.bounded(),
    ;

    /// Reading the stored form of a pack gives the pack back.
    proof fn lemma_round_trip(p: Pack, b: Seq<u8>, pos: int)
        requires
            p.wf(),
            p.bounded(),
            0 <= pos <= b.len(),
            b.subrange(pos, b.len() as int) == Self::encoding(p),
        ensures
            Self::decoding(b, pos) == Some(p),
    ;

    /// What is read from stored bytes is a well-formed pack.
    proof fn lemma_decoding_wf(b: Seq<u8>, pos: int)
        requires
            b.len() <= usize::MAX,
        ensures
            Self::decoding(b, pos) matches Some(p) ==> p.wf(),
    ;

    /// The empty pack.
    fn new() -> (r: Self)
        ensures
            r.wf(),
            r.compiled(),
            r@ == Pack::empty(),
    ;

    /// The pack that holds `key` alone.
    fn with_key_val(key: Vec<u8>, payload: u64) -> (r: Result<Self, Error>)
        ensures
            r matches Ok(k) && k.wf() && k@ == Pack::single(key@, payload),
    ;

    fn len(&self) -> (r: usize)
        requires
            self.wf(),
        ensures
            r == self@.len(),
    ;

    fn get(&self, key: &Vec<u8>) -> (r: Option<u64>)
        requires
            self.wf(),
        ensures
            r == self@.get(key@),
    ;

    /// Sets the payload of `key`, in place of an earlier one if there was one.
    fn insert(&mut self, key: Vec<u8>, payload: u64)
        requires
            old(self).wf(),
        ensures
            final(self).wf(),
            final(self)@ == old(self)@.insert(key@, payload),
    ;

    /// Puts every entry of `keys` in, each in place of an earlier payload if
    /// there was one. Where every key of `self` is below every key of
    /// `keys`, that puts the entries of `keys` behind those of `self`.
    fn append(&mut self, keys: Self)
        requires
            old(self).wf(),
            keys.wf(),
        ensures
            final(self).wf(),
            final(self)@ == old(self)@.absorb(keys@),
    ;

    /// Takes `key` out and returns the payload it had.
    fn remove(&mut self, key: &Vec<u8>) -> (r: Option<u64>)
        requires
            old(self).wf(),
        ensures
            final(self).wf(),
            r == old(self)@.get(key@),
            final(self)@ == old(self)@.remove(key@),
    ;

    /// Cuts the pack into the keys below its median, the median, and the keys
    /// above it. An empty pack has no median and gives `CorruptedIndex`.
    fn split_keys(self) -> (r: Result<SplitKeys<Self>, Error>)
        requires
            self.wf(),
        ensures
            r is Ok <==> self@.len() > 0,
            r is Err ==> r == Err::<SplitKeys<Self>, Error>(Error::CorruptedIndex),
            r matches Ok(s) ==> {
                &&& s.left.wf()
                &&& s.right.wf()
                &&& s.left@ == self@.left_half()
                &&& s.right@ == self@.right_half()
                &&& s.median_idx == self@.median_idx()
                &&& s.median_key@ == self@.keys[self@.median_idx()]
                &&& s.median_payload == self@.payloads[self@.median_idx()]
            },
    ;

    /// The key at index `idx`.
    fn get_key(&self, idx: usize) -> (r: Option<Vec<u8>>)
        requires
            self.wf(),
        ensures
            r is Some <==> idx < self@.len(),
            r matches Some(k) ==> k@ == self@.keys[idx as int],
    ;

    /// The payload at index `idx`.
    fn get_payload(&self, idx: usize) -> (r: Option<u64>)
        requires
            self.wf(),
        ensures
            r is Some <==> idx < self@.len(),
            r matches Some(p) ==> p == self@.payloads[idx as int],
    ;

    /// The smallest index whose key is above `searched_key`, or the number of
    /// keys where there is none.
    fn get_child_idx(&self, searched_key: &Vec<u8>) -> (r: usize)
        requires
            self.wf(),
        ensures
            r == self@.child_idx(searched_key@),
    ;

    fn get_first_key(&self) -> (r: Option<(Vec<u8>, u64)>)
        requires
            self.wf(),
        ensures
            r is Some <==> self@.len() > 0,
            r matches Some(e) ==> e.0@ == self@.keys[0] && e.1 == self@.payloads[0],
    ;

    fn get_last_key(&self) -> (r: Option<(Vec<u8>, u64)>)
        requires
            self.wf(),
        ensures
            r is Some <==> self@.len() > 0,
            r matches Some(e) ==> e.0@ == self@.keys.last() && e.1 == self@.payloads.last(),
    ;

    /// Brings the pack into the state in which it can be written out.
    fn compile(&mut self)
        requires
            old(self).wf(),
        ensures
            final(self).wf(),
            final(self).compiled(),
            final(self)@ == old(self)@,
    ;

    fn is_compiled(&self) -> (r: bool)
        requires
            self.wf(),
        ensures
            r == self.compiled(),
    ;

    /// A second pack with the same entries.
    fn duplicate(&self) -> (r: Self)
        requires
            self.wf(),
        ensures
            r.wf(),
            r@ == self@,
            r.compiled() == self.compiled(),
    ;

    /// Appends the stored form of the pack to `out`.
    fn encode(&self, out: &mut Vec<u8>)
        requires
            self.wf(),
            self.compiled(),
        ensures
            final(out)@ == old(out)@ + Self::encoding(self@),
    ;

    /// Reads the pack that fills `bytes` from `pos` to the end.
    fn decode(bytes: &Vec<u8>, pos: usize) -> (r: Option<Self>)
        requires
            pos <= bytes.len(),
        ensures
            r matches Some(k) ==> k.wf() && k.compiled() && Self::decoding(bytes@, pos as int)
                == Some(k@),
            r is None ==> Self::decoding(bytes@, pos as int) is None,
    ;
}

/// The byte that marks a stored `TrieKeys`.
pub const TRIE_KIND: u8 = 1;

/// The byte that marks a stored `FstKeys`.
pub const FST_KIND: u8 = 2;

/// A pack that keeps its keys as one ascending run and can be written out at
/// any time.
pub struct TrieKeys {
    run: KeyRun,
}

impl BKeys for TrieKeys {
    closed spec fn view(&self) -> Pack {
        self.run@
    }

    closed spec fn wf(&self) -> bool {
        self.run.wf()
    }

    open spec fn compiled(&self) -> bool {
        true
    }

    open spec fn encoding(p: Pack) -> Seq<u8> {
        encode_run(TRIE_KIND, p)
    }

    open spec fn decoding(b: Seq<u8>, pos: int) -> Option<Pack> {
        decode_run(TRIE_KIND, b, pos)
    }

    proof fn lemma_wf(&self) {
        self.run.lemma_wf();
    }

    proof fn lemma_round_trip(p: Pack, b: Seq<u8>, pos: int) {
        lemma_run_round_trip(TRIE_KIND, p, b, pos);
    }

    proof fn lemma_decoding_wf(b: Seq<u8>, pos: int) {
        lemma_decode_run_wf(TRIE_KIND, b, pos);
    }

    fn new() -> (r: Self) {
        TrieKeys { run: KeyRun::new() }
    }

    fn with_key_val(key: Vec<u8>, payload: u64) -> (r: Result<Self, Error>) {
        Ok(TrieKeys { run: KeyRun::with_key_val(key, payload) })
    }

    fn len(&self) -> (r: usize) {
        self.run.len()
    }

    fn get(&self, key: &Vec<u8>) -> (r: Option<u64>) {
        self.run.get(key)
    }

    fn insert(&mut self, key: Vec<u8>, payload: u64) {
        self.run.insert(key, payload);
    }

    fn append(&mut self, keys: Self) {
        self.run.append(keys.run);
    }

    fn remove(&mut self, key: &Vec<u8>) -> (r: Option<u64>) {
        self.run.remove(key)
    }

    fn split_keys(self) -> (r: Result<SplitKeys<Self>, Error>) {
        match self.run.split_keys() {
            Some(s) => Ok(
                SplitKeys {
                    left: TrieKeys { run: s.left },
                    right: TrieKeys { run: s.right },
                    median_idx: s.median_idx,
                    median_key: s.median_key,
                    median_payload: s.median_payload,
                },
            ),
            None => Err(Error::CorruptedIndex),
        }
    }

    fn get_key(&self, idx: usize) -> (r: Option<Vec<u8>>) {
        self.run.get_key(idx)
    }

    fn get_payload(&self, idx: usize) -> (r: Option<u64>) {
        self.run.get_payload(idx)
    }

    fn get_child_idx(&self, searched_key: &Vec<u8>) -> (r: usize) {
        self.run.get_child_idx(searched_key)
    }

    fn get_first_key(&self) -> (r: Option<(Vec<u8>, u64)>) {
        self.run.get_first_key()
    }

    fn get_last_key(&self) -> (r: Option<(Vec<u8>, u64)>) {
        self.run.get_last_key()
    }

    fn compile(&mut self) {
    }

    fn is_compiled(&self) -> (r: bool) {
        true
    }

    fn duplicate(&self) -> (r: Self) {
        TrieKeys { run: self.run.duplicate() }
    }

    fn encode(&self, out: &mut Vec<u8>) {
        self.run.encode(TRIE_KIND, out);
    }

    fn decode(bytes: &Vec<u8>, pos: usize) -> (r: Option<Self>) {
        match KeyRun::decode(TRIE_KIND, bytes, pos) {
            Some(run) => Some(TrieKeys { run }),
            None => None,
        }
    }
}

impl Default for TrieKeys {
    fn default() -> (r: Self)
        ensures
            r.wf(),
            r@ == Pack::empty(),
    {
        TrieKeys { run: KeyRun::new() }
    }
}

/// A pack that is written out from a compiled image of its entries. A change
/// to the entries drops the image; `compile` builds it anew.
pub struct FstKeys {
    run: KeyRun,
    image: Option<Vec<u8>>,
}

impl BKeys for FstKeys {
    closed spec fn view(&self) -> Pack {
        self.run@
    }

    closed spec fn wf(&self) -> bool {
        &&& self.run.wf()
        &&& self.image matches Some(bytes) ==> bytes@ == encode_run(FST_KIND, self.run@)
    }

    closed spec fn compiled(&self) -> bool {
        self.image is Some
    }

    open spec fn encoding(p: Pack) -> Seq<u8> {
        encode_run(FST_KIND, p)
    }

    open spec fn decoding(b: Seq<u8>, pos: int) -> Option<Pack> {
        decode_run(FST_KIND, b, pos)
    }

    proof fn lemma_wf(&self) {
        self.run.lemma_wf();
    }

    proof fn lemma_round_trip(p: Pack, b: Seq<u8>, pos: int) {
        lemma_run_round_trip(FST_KIND, p, b, pos);
    }

    proof fn lemma_decoding_wf(b: Seq<u8>, pos: int) {
        lemma_decode_run_wf(FST_KIND, b, pos);
    }

    fn new() -> (r: Self) {
        let mut r = FstKeys { run: KeyRun::new(), image: None };
        r.compile();
        r
    }

    fn with_key_val(key: Vec<u8>, payload: u64) -> (r: Result<Self, Error>) {
        Ok(FstKeys { run: KeyRun::with_key_val(key, payload), image: None })
    }

    fn len(&self) -> (r: usize) {
        self.run.len()
    }

    fn get(&self, key: &Vec<u8>) -> (r: Option<u64>) {
        self.run.get(key)
    }

    fn insert(&mut self, key: Vec<u8>, payload: u64) {
        self.image = None;
        self.run.insert(key, payload);
    }

    fn append(&mut self, keys: Self) {
        self.image = None;
        self.run.append(keys.run);
    }

    fn remove(&mut self, key: &Vec<u8>) -> (r: Option<u64>) {
        self.image = None;
        self.run.remove(key)
    }

    fn split_keys(self) -> (r: Result<SplitKeys<Self>, Error>) {
        match self.run.split_keys() {
            Some(s) => Ok(
                SplitKeys {
                    left: FstKeys { run: s.left, image: None },
                    right: FstKeys { run: s.right, image: None },
                    median_idx: s.median_idx,
                    median_key: s.median_key,
                    median_payload: s.median_payload,
                },
            ),
            None => Err(Error::CorruptedIndex),
        }
    }

    fn get_key(&self, idx: usize) -> (r: Option<Vec<u8>>) {
        self.run.get_key(idx)
    }

    fn get_payload(&self, idx: usize) -> (r: Option<u64>) {
        self.run.get_payload(idx)
    }

    fn get_child_idx(&self, searched_key: &Vec<u8>) -> (r: usize) {
        self.run.get_child_idx(searched_key)
    }

    fn get_first_key(&self) -> (r: Option<(Vec<u8>, u64)>) {
        self.run.get_first_key()
    }

    fn get_last_key(&self) -> (r: Option<(Vec<u8>, u64)>) {
        self.run.get_last_key()
    }

    fn compile(&mut self) {
        if self.image.is_none() {
            let mut bytes: Vec<u8> = Vec::new();
            self.run.encode(FST_KIND, &mut bytes);
            assert(bytes@ =~= encode_run(FST_KIND, self.run@));
            self.image = Some(bytes);
        }
    }

    fn is_compiled(&self) -> (r: bool) {
        self.image.is_some()
    }

    fn duplicate(&self) -> (r: Self) {
        let image = match &self.image {
            Some(bytes) => Some(crate::order::copy_bytes(bytes)),
            None => None,
        };
        FstKeys { run: self.run.duplicate(), image }
    }

    fn encode(&self, out: &mut Vec<u8>) {
        match &self.image {
            Some(bytes) => {
                crate::codec::write_bytes(out, bytes);
            },
            None => {},
        }
    }

    fn decode(bytes: &Vec<u8>, pos: usize) -> (r: Option<Self>) {
        match KeyRun::decode(FST_KIND, bytes, pos) {
            Some(run) => {
                let mut r = FstKeys { run, image: None };
                r.compile();
                Some(r)
            },
            None => None,
        }
    }
}

impl Default for FstKeys {
    fn default() -> (r: Self)
        ensures
            r.wf(),
            r@ == Pack::empty(),
    {
        FstKeys::new()
    }
}

} // verus!
