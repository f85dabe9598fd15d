//! A run of keys in ascending order with their payloads, held in two
//! vectors side by side. Both kinds of key pack keep their entries in one.

use crate::codec::{
    be64, from_be64, lemma_be64_round_trip, read_bytes, read_u64, write_bytes, write_u64,
};
use crate::order::{compare_keys, copy_bytes, key_less, key_lt, KeyOrder};
use crate::pack::{
    ascending, lemma_absorb_concat, lemma_concat_ascending, lemma_insert_ascending,
    lemma_located_absent, lemma_located_found, lemma_push_ascending, lemma_remove_ascending,
    lemma_subrange_ascending, Pack,
};
use vstd::prelude::*;

verus! {

/// The keys of a vector of keys, each as a byte sequence.
pub open spec fn keys_view(keys: Seq<Vec<u8>>) -> Seq<Seq<u8>> {
    Seq::new(keys.len(), |i: int| keys[i]@)
}

/// The bytes of the entries from index `i` on: for each the length of the
/// key, the key, and the payload.
pub open spec fn encode_entries(p: Pack, i: int) -> Seq<u8>
    decreases p.keys.len() - i,
{
    if i < 0 || i >= p.keys.len() {
        Seq::empty()
    } else {
        be64(p.keys[i].len() as u64) + p.keys[i] + be64(p.payloads[i]) + encode_entries(p, i + 1)
    }
}

/// The stored form of a pack: a byte that tells its kind, the number of
/// entries, and the entries.
pub open spec fn encode_run(tag: u8, p: Pack) -> Seq<u8> {
    seq![tag] + be64(p.keys.len() as u64) + encode_entries(p, 0)
}

/// Reads `n` entries from `pos` on and adds them to `acc`; there is a result
/// only where they end with the bytes.
pub open spec fn parse_entries(b: Seq<u8>, pos: int, n: nat, acc: Pack) -> Option<Pack>
    decreases n,
{
    if n == 0 {
        if pos == b.len() {
            Some(acc)
        } else {
            None
        }
    } else if pos < 0 || pos + 8 > b.len() {
        None
    } else {
        let kl = from_be64(b.subrange(pos, pos + 8)) as int;
        if pos + 16 + kl > b.len() {
            None
        } else {
            parse_entries(
                b,
                pos + 16 + kl,
                (n - 1) as nat,
                acc.push(
                    b.subrange(pos + 8, pos + 8 + kl),
                    from_be64(b.subrange(pos + 8 + kl, pos + 16 + kl)),
                ),
            )
        }
    }
}

/// The pack of kind `tag` that is stored in `b` from `pos` to its end, if
/// those bytes are the stored form of one.
pub open spec fn decode_run(tag: u8, b: Seq<u8>, pos: int) -> Option<Pack> {
    if pos < 0 || pos + 9 > b.len() || b[pos] != tag {
        None
    } else {
        match parse_entries(b, pos + 9, from_be64(b.subrange(pos + 1, pos + 9)) as nat, Pack::empty()) {
            Some(p) => if ascending(p.keys) {
                Some(p)
            } else {
                None
            },
            None => None,
        }
    }
}

proof fn lemma_parse_encoded(p: Pack, b: Seq<u8>, pos: int, i: int)
    requires
        p.keys.len() == p.payloads.len(),
        p.bounded(),
        0 <= i <= p.keys.len(),
        0 <= pos <= b.len(),
        b.subrange(pos, b.len() as int) == encode_entries(p, i),
    ensures
        parse_entries(b, pos, (p.keys.len() - i) as nat, p.range(0, i)) == Some(p),
    decreases p.keys.len() - i,
{
    if i == p.keys.len() {
        assert(encode_entries(p, i).len() == 0);
        assert(pos == b.len());
        assert(p.range(0, i).keys =~= p.keys);
        assert(p.range(0, i).payloads =~= p.payloads);
    } else {
        let key = p.keys[i];
        let kl = key.len() as u64;
        let tail = encode_entries(p, i);
        let rest = encode_entries(p, i + 1);
        lemma_be64_round_trip(kl);
        lemma_be64_round_trip(p.payloads[i]);
        assert(tail == be64(kl) + key + be64(p.payloads[i]) + rest);
        assert(tail.len() == 16 + key.len() + rest.len());
        assert(b.len() == pos + tail.len());
        assert(b.subrange(pos, pos + 8) =~= be64(kl)) by {
            assert forall|j: int| 0 <= j < 8 implies b.subrange(pos, pos + 8)[j] == be64(kl)[j] by {
                assert(b[pos + j] == tail[j]);
            }
        }
        assert(b.subrange(pos + 8, pos + 8 + kl) =~= key) by {
            assert forall|j: int| 0 <= j < kl implies b.subrange(pos + 8, pos + 8 + kl)[j]
                == key[j] by {
                assert(b[pos + 8 + j] == tail[8 + j]);
            }
        }
        assert(b.subrange(pos + 8 + kl, pos + 16 + kl) =~= be64(p.payloads[i])) by {
            assert forall|j: int| 0 <= j < 8 implies b.subrange(pos + 8 + kl, pos + 16 + kl)[j]
                == be64(p.payloads[i])[j] by {
                assert(b[pos + 8 + kl + j] == tail[8 + kl + j]);
            }
        }
        assert(b.subrange(pos + 16 + kl, b.len() as int) =~= rest) by {
            assert forall|j: int| 0 <= j < rest.len() implies b.subrange(
                pos + 16 + kl,
                b.len() as int,
            )[j] == rest[j] by {
                assert(b[pos + 16 + kl + j] == tail[16 + kl + j]);
            }
        }
        assert(p.range(0, i).push(key, p.payloads[i]).keys =~= p.range(0, i + 1).keys);
        assert(p.range(0, i).push(key, p.payloads[i]).payloads =~= p.range(0, i + 1).payloads);
        lemma_parse_encoded(p, b, pos + 16 + kl, i + 1);
    }
}

/// Reading the stored form of a pack gives the pack back.
pub proof fn lemma_run_round_trip(tag: u8, p: Pack, b: Seq<u8>, pos: int)
    requires
        p.wf(),
        p.bounded(),
        0 <= pos <= b.len(),
        b.subrange(pos, b.len() as int) == encode_run(tag, p),
    ensures
        decode_run(tag, b, pos) == Some(p),
{
    let n = p.keys.len() as u64;
    let tail = encode_run(tag, p);
    let rest = encode_entries(p, 0);
    lemma_be64_round_trip(n);
    assert(tail.len() == 9 + rest.len());
    assert(b.len() == pos + tail.len());
    assert(b[pos] == tail[0]);
    assert(b.subrange(pos + 1, pos + 9) =~= be64(n)) by {
        assert forall|j: int| 0 <= j < 8 implies b.subrange(pos + 1, pos + 9)[j] == be64(n)[j] by {
            assert(b[pos + 1 + j] == tail[1 + j]);
        }
    }
    assert(b.subrange(pos + 9, b.len() as int) =~= rest) by {
        assert forall|j: int| 0 <= j < rest.len() implies b.subrange(pos + 9, b.len() as int)[j]
            == rest[j] by {
            assert(b[pos + 9 + j] == tail[9 + j]);
        }
    }
    assert(p.range(0, 0).keys =~= Pack::empty().keys);
    assert(p.range(0, 0).payloads =~= Pack::empty().payloads);
    lemma_parse_encoded(p, b, pos + 9, 0);
}

proof fn lemma_parse_shape(b: Seq<u8>, pos: int, n: nat, acc: Pack)
    requires
        acc.keys.len() == acc.payloads.len(),
        forall|i: int| 0 <= i < acc.keys.len() ==> (#[trigger] acc.keys[i]).len() <= usize::MAX,
        b.len() <= usize::MAX,
    ensures
        parse_entries(b, pos, n, acc) matches Some(p) ==> p.keys.len() == p.payloads.len()
            && p.keys.len() == acc.keys.len() + n && forall|i: int|
            0 <= i < p.keys.len() ==> (#[trigger] p.keys[i]).len() <= usize::MAX,
    decreases n,
{
    if n > 0 && 0 <= pos && pos + 8 <= b.len() {
        let kl = from_be64(b.subrange(pos, pos + 8)) as int;
        if pos + 16 + kl <= b.len() {
            let next = acc.push(
                b.subrange(pos + 8, pos + 8 + kl),
                from_be64(b.subrange(pos + 8 + kl, pos + 16 + kl)),
            );
            assert forall|i: int| 0 <= i < next.keys.len() implies (#[trigger] next.keys[i]).len()
                <= usize::MAX by {
                if i < acc.keys.len() {
                    assert(next.keys[i] == acc.keys[i]);
                }
            }
            lemma_parse_shape(b, pos + 16 + kl, (n - 1) as nat, next);
        }
    }
}

/// What is read from stored bytes is a well-formed pack.
pub proof fn lemma_decode_run_wf(tag: u8, b: Seq<u8>, pos: int)
    requires
        b.len() <= usize::MAX,
    ensures
        decode_run(tag, b, pos) matches Some(p) ==> p.wf() && forall|i: int|
            0 <= i < p.keys.len() ==> (#[trigger] p.keys[i]).len() <= usize::MAX,
{
    if 0 <= pos && pos + 9 <= b.len() {
        lemma_parse_shape(
            b,
            pos + 9,
            from_be64(b.subrange(pos + 1, pos + 9)) as nat,
            Pack::empty(),
        );
    }
}

/// Keys in ascending order, each with its payload.
pub struct KeyRun {
    keys: Vec<Vec<u8>>,
    payloads: Vec<u64>,
}

/// A run cut at its median.
pub struct SplitRun {
    pub left: KeyRun,
    pub right: KeyRun,
    pub median_idx: usize,
    pub median_key: Vec<u8>,
    pub median_payload: u64,
}

impl KeyRun {
    /// The pack that the run holds.
    pub closed spec fn view(&self) -> Pack {
        Pack { keys: keys_view(self.keys@), payloads: self.payloads@ }
    }

    /// The keys ascend and each has its payload.
    pub closed spec fn wf(&self) -> bool {
        self@.wf()
    }

    /// A valid run holds a well-formed pack of bounded size.
    pub proof fn lemma_wf(&self)
        requires
            self.wf(),
        ensures
            self@.wf(),
            self@.bounded(),
    {
        assert(self@.keys.len() == self.keys.len());
        assert forall|i: int| 0 <= i < self@.keys.len() implies (#[trigger] self@.keys[i]).len()
            <= usize::MAX by {
            assert(self@.keys[i].len() == self.keys@[i].len());
        }
    }

    /// The run without entries.
    pub fn new() -> (r: KeyRun)
        ensures
            r.wf(),
            r@ == Pack::empty(),
    {
        let r = KeyRun { keys: Vec::new(), payloads: Vec::new() };
        assert(r@.keys =~= Pack::empty().keys);
        r
    }

    /// The run with one entry.
    pub fn with_key_val(key: Vec<u8>, payload: u64) -> (r: KeyRun)
        ensures
            r.wf(),
            r@ == Pack::single(key@, payload),
    {
        let mut keys: Vec<Vec<u8>> = Vec::new();
        keys.push(key);
        let mut payloads: Vec<u64> = Vec::new();
        payloads.push(payload);
        let r = KeyRun { keys, payloads };
        assert(r@.keys =~= Pack::single(key@, payload).keys);
        assert(r@.payloads =~= Pack::single(key@, payload).payloads);
        r
    }

    /// The number of entries.
    pub fn len(&self) -> (r: usize)
        requires
            self.wf(),
        ensures
            r == self@.len(),
    {
        self.keys.len()
    }

    /// The number of keys below `key`, and whether `key` stands at that index.
    fn locate(&self, key: &Vec<u8>) -> (r: (usize, bool))
        requires
            self.wf(),
        ensures
            r.0 <= self@.len(),
            r.1 ==> r.0 < self@.len() && self@.keys[r.0 as int] == key@,
            r.1 == self@.has(key@),
            r.1 ==> self@.pos(key@) == r.0 && self@.child_idx(key@) == r.0 + 1,
            !r.1 ==> self@.child_idx(key@) == r.0,
            forall|j: int| 0 <= j < r.0 ==> key_lt(#[trigger] self@.keys[j], key@),
            !r.1 && r.0 < self@.len() ==> key_lt(key@, self@.keys[r.0 as int]),
    {
        let mut i: usize = 0;
        while i < self.keys.len()
            invariant
                self.wf(),
                i <= self.keys.len(),
                forall|j: int| 0 <= j < i ==> key_lt(#[trigger] self@.keys[j], key@),
            decreases self.keys.len() - i,
        {
            match compare_keys(&self.keys[i], key) {
                KeyOrder::Less => {
                    i += 1;
                },
                KeyOrder::Equal => {
                    proof {
                        lemma_located_found(self@, key@, i as int);
                    }
                    return (i, true);
                },
                KeyOrder::Greater => {
                    proof {
                        lemma_located_absent(self@, key@, i as int);
                    }
                    return (i, false);
                },
            }
        }
        proof {
            lemma_located_absent(self@, key@, i as int);
        }
        (i, false)
    }

    /// The payload of `key`, where the run has it.
    pub fn get(&self, key: &Vec<u8>) -> (r: Option<u64>)
        requires
            self.wf(),
        ensures
            r == self@.get(key@),
    {
        let (i, found) = self.locate(key);
        if found {
            Some(self.payloads[i])
        } else {
            None
        }
    }

    /// Puts `payload` at `key`, in place of an earlier payload if there was one.
    pub fn insert(&mut self, key: Vec<u8>, payload: u64)
        requires
            old(self).wf(),
        ensures
            final(self).wf(),
            final(self)@ == old(self)@.insert(key@, payload),
    {
        let (i, found) = self.locate(&key);
        if found {
            self.payloads[i] = payload;
            assert(self@.keys =~= old(self)@.insert(key@, payload).keys);
        } else {
            proof {
                lemma_insert_ascending(self@.keys, key@, i as int);
            }
            self.keys.insert(i, key);
            self.payloads.insert(i, payload);
            assert(self@.keys =~= old(self)@.insert(key@, payload).keys);
        }
    }

    /// Takes `key` out and returns the payload it had.
    pub fn remove(&mut self, key: &Vec<u8>) -> (r: Option<u64>)
        requires
            old(self).wf(),
        ensures
            final(self).wf(),
            r == old(self)@.get(key@),
            final(self)@ == old(self)@.remove(key@),
    {
        let (i, found) = self.locate(key);
        if found {
            proof {
                lemma_remove_ascending(self@.keys, i as int);
            }
            self.keys.remove(i);
            let payload = self.payloads.remove(i);
            assert(self@.keys =~= old(self)@.remove(key@).keys);
            Some(payload)
        } else {
            None
        }
    }

    /// The key at `idx`, if there is one.
    pub fn get_key(&self, idx: usize) -> (r: Option<Vec<u8>>)
        requires
            self.wf(),
        ensures
            r is Some <==> idx < self@.len(),
            r matches Some(k) ==> k@ == self@.keys[idx as int],
    {
        if idx < self.keys.len() {
            Some(copy_bytes(&self.keys[idx]))
        } else {
            None
        }
    }

    /// The payload at `idx`, if there is one.
    pub fn get_payload(&self, idx: usize) -> (r: Option<u64>)
        requires
            self.wf(),
        ensures
            r is Some <==> idx < self@.len(),
            r matches Some(p) ==> p == self@.payloads[idx as int],
    {
        if idx < self.payloads.len() {
            Some(self.payloads[idx])
        } else {
            None
        }
    }

    /// The smallest index whose key is above `key`, or the number of keys.
    pub fn get_child_idx(&self, key: &Vec<u8>) -> (r: usize)
        requires
            self.wf(),
        ensures
            r == self@.child_idx(key@),
    {
        let (i, found) = self.locate(key);
        if found {
            assert(i < self.keys.len());
            i + 1
        } else {
            i
        }
    }

    /// The first entry, if there is one.
    pub fn get_first_key(&self) -> (r: Option<(Vec<u8>, u64)>)
        requires
            self.wf(),
        ensures
            r is Some <==> self@.len() > 0,
            r matches Some(e) ==> e.0@ == self@.keys[0] && e.1 == self@.payloads[0],
    {
        if self.keys.len() > 0 {
            Some((copy_bytes(&self.keys[0]), self.payloads[0]))
        } else {
            None
        }
    }

    /// The last entry, if there is one.
    pub fn get_last_key(&self) -> (r: Option<(Vec<u8>, u64)>)
        requires
            self.wf(),
        ensures
            r is Some <==> self@.len() > 0,
            r matches Some(e) ==> e.0@ == self@.keys.last() && e.1 == self@.payloads.last(),
    {
        let n = self.keys.len();
        if n > 0 {
            Some((copy_bytes(&self.keys[n - 1]), self.payloads[n - 1]))
        } else {
            None
        }
    }

    /// Cuts the run at its median; there is none in an empty run.
    pub fn split_keys(self) -> (r: Option<SplitRun>)
        requires
            self.wf(),
        ensures
            r is Some <==> self@.len() > 0,
            r matches Some(s) ==> {
                &&& s.left.wf()
                &&& s.right.wf()
                &&& s.left@ == self@.left_half()
                &&& s.right@ == self@.right_half()
                &&& s.median_idx == self@.median_idx()
                &&& s.median_key@ == self@.keys[self@.median_idx()]
                &&& s.median_payload == self@.payloads[self@.median_idx()]
            },
    {
        let n = self.keys.len();
        if n == 0 {
            return None;
        }
        let m = (n - 1) / 2;
        let ghost whole = self@;
        let mut keys = self.keys;
        let mut payloads = self.payloads;
        let right_keys = keys.split_off(m + 1);
        let right_payloads = payloads.split_off(m + 1);
        let median_key = keys.remove(m);
        let median_payload = payloads.remove(m);
        let left = KeyRun { keys, payloads };
        let right = KeyRun { keys: right_keys, payloads: right_payloads };
        proof {
            lemma_subrange_ascending(whole.keys, 0, m as int);
            lemma_subrange_ascending(whole.keys, m + 1, n as int);
            assert(left@.keys =~= whole.left_half().keys);
            assert(left@.payloads =~= whole.left_half().payloads);
            assert(right@.keys =~= whole.right_half().keys);
            assert(right@.payloads =~= whole.right_half().payloads);
        }
        Some(SplitRun { left, right, median_idx: m, median_key, median_payload })
    }

    /// Puts every entry of `other` in, each in place of an earlier payload if
    /// there was one. Where every key of `self` is below every key of
    /// `other`, the entries of `other` come behind those of `self`.
    pub fn append(&mut self, other: KeyRun)
        requires
            old(self).wf(),
            other.wf(),
        ensures
            final(self).wf(),
            final(self)@ == old(self)@.absorb(other@),
    {
        let n = self.keys.len();
        if n == 0 || other.keys.len() == 0 || key_less(&self.keys[n - 1], &other.keys[0]) {
            proof {
                lemma_concat_ascending(self@.keys, other@.keys);
                lemma_absorb_concat(self@, other@);
            }
            let mut o = other;
            self.keys.append(&mut o.keys);
            self.payloads.append(&mut o.payloads);
            assert(self@.keys =~= old(self)@.concat(other@).keys);
            return ;
        }
        let mut i: usize = 0;
        while i < other.keys.len()
            invariant
                self.wf(),
                other.wf(),
                i <= other.keys.len(),
                self@ == old(self)@.absorb_upto(other@, i as int),
            decreases other.keys.len() - i,
        {
            self.insert(copy_bytes(&other.keys[i]), other.payloads[i]);
            i += 1;
        }
    }

    /// A second run with the same entries.
    pub fn duplicate(&self) -> (r: KeyRun)
        requires
            self.wf(),
        ensures
            r.wf(),
            r@ == self@,
    {
        let mut keys: Vec<Vec<u8>> = Vec::with_capacity(self.keys.len());
        let mut payloads: Vec<u64> = Vec::with_capacity(self.keys.len());
        let mut i: usize = 0;
        while i < self.keys.len()
            invariant
                self.wf(),
                i <= self.keys.len(),
                keys@.len() == i,
                payloads@.len() == i,
                forall|j: int| 0 <= j < i ==> (#[trigger] keys@[j])@ == self.keys@[j]@,
                forall|j: int| 0 <= j < i ==> #[trigger] payloads@[j] == self.payloads@[j],
            decreases self.keys.len() - i,
        {
            keys.push(copy_bytes(&self.keys[i]));
            payloads.push(self.payloads[i]);
            i += 1;
        }
        let r = KeyRun { keys, payloads };
        assert(r@.keys =~= self@.keys);
        assert(r@.payloads =~= self@.payloads);
        r
    }

    /// Appends the stored form of the run, as a pack of kind `tag`, to `out`.
    pub fn encode(&self, tag: u8, out: &mut Vec<u8>)
        requires
            self.wf(),
        ensures
            final(out)@ == old(out)@ + encode_run(tag, self@),
    {
        let ghost before = out@;
        out.push(tag);
        write_u64(out, self.keys.len() as u64);
        let ghost head = out@;
        assert(head =~= before + seq![tag] + be64(self@.keys.len() as u64));
        let n = self.keys.len();
        let mut i: usize = 0;
        // The entries are written first to last; what is still to come is
        // `encode_entries(self@, i)`.
        while i < n
            invariant
                self.wf(),
                n == self.keys.len(),
                i <= n,
                out@ + encode_entries(self@, i as int) == head + encode_entries(self@, 0),
            decreases n - i,
        {
            let ghost cur = out@;
            write_u64(out, self.keys[i].len() as u64);
            write_bytes(out, &self.keys[i]);
            write_u64(out, self.payloads[i]);
            proof {
                let e = be64(self@.keys[i as int].len() as u64) + self@.keys[i as int] + be64(
                    self@.payloads[i as int],
                );
                assert(out@ =~= cur + e);
                assert(encode_entries(self@, i as int) == e + encode_entries(self@, i + 1));
                assert(cur + (e + encode_entries(self@, i + 1)) =~= (cur + e) + encode_entries(
                    self@,
                    i + 1,
                ));
            }
            i += 1;
        }
        proof {
            assert(encode_entries(self@, n as int) =~= Seq::<u8>::empty());
            assert(out@ =~= out@ + encode_entries(self@, n as int));
            assert(head + encode_entries(self@, 0) =~= before + encode_run(tag, self@));
        }
    }

    /// Whether the keys ascend.
    fn check_ascending(keys: &Vec<Vec<u8>>) -> (r: bool)
        ensures
            r == ascending(keys_view(keys@)),
    {
        let ghost kv = keys_view(keys@);
        let mut i: usize = 1;
        if keys.len() < 2 {
            return true;
        }
        while i < keys.len()
            invariant
                kv == keys_view(keys@),
                1 <= i <= keys.len(),
                ascending(kv.subrange(0, i as int)),
            decreases keys.len() - i,
        {
            if !key_less(&keys[i - 1], &keys[i]) {
                assert(kv[i - 1] == keys@[i - 1]@ && kv[i as int] == keys@[i as int]@);
                return false;
            }
            proof {
                let pre = kv.subrange(0, i as int);
                assert(pre.last() == kv[i - 1]);
                lemma_push_ascending(pre, kv[i as int]);
                assert(pre.push(kv[i as int]) =~= kv.subrange(0, i + 1));
            }
            i += 1;
        }
        assert(kv.subrange(0, keys.len() as int) =~= kv);
        true
    }

    /// Reads a pack of kind `tag` that fills `bytes` from `pos` to the end.
    pub fn decode(tag: u8, bytes: &Vec<u8>, pos: usize) -> (r: Option<KeyRun>)
        requires
            pos <= bytes.len(),
        ensures
            r matches Some(run) ==> run.wf() && decode_run(tag, bytes@, pos as int) == Some(run@),
            r is None ==> decode_run(tag, bytes@, pos as int) is None,
    {
        let len = bytes.len();
        if len - pos < 9 || bytes[pos] != tag {
            return None;
        }
        let n = read_u64(bytes, pos + 1);
        let mut keys: Vec<Vec<u8>> = Vec::new();
        let mut payloads: Vec<u64> = Vec::new();
        let mut at: usize = pos + 9;
        let mut left: u64 = n;
        let ghost whole = parse_entries(bytes@, pos + 9, n as nat, Pack::empty());
        assert(keys_view(keys@) =~= Pack::empty().keys);
        while left > 0
            invariant
                len == bytes.len(),
                at <= len,
                keys@.len() == payloads@.len(),
                decode_run(tag, bytes@, pos as int) == match whole {
                    Some(p) => if ascending(p.keys) {
                        Some(p)
                    } else {
                        None
                    },
                    None => None,
                },
                whole == parse_entries(
                    bytes@,
                    at as int,
                    left as nat,
                    Pack { keys: keys_view(keys@), payloads: payloads@ },
                ),
            decreases left,
        {
            if len - at < 8 {
                return None;
            }
            let kl = read_u64(bytes, at);
            if kl > (len - at - 8) as u64 {
                return None;
            }
            let kl: usize = kl as usize;
            if len - at - 8 - kl < 8 {
                return None;
            }
            let key = read_bytes(bytes, at + 8, at + 8 + kl);
            let payload = read_u64(bytes, at + 8 + kl);
            let ghost acc = Pack { keys: keys_view(keys@), payloads: payloads@ };
            keys.push(key);
            payloads.push(payload);
            assert(keys_view(keys@) =~= acc.push(key@, payload).keys);
            at = at + 16 + kl;
            left = left - 1;
        }
        if at != len {
            return None;
        }
        if !Self::check_ascending(&keys) {
            return None;
        }
        Some(KeyRun { keys, payloads })
    }
}

} // verus!
