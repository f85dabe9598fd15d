//! The mathematical model of a key pack: keys in ascending byte order, each
//! with its payload.

use crate::order::{
    key_le, key_lt, lemma_key_lt_asymmetric, lemma_key_lt_connected, lemma_key_lt_irreflexive,
    lemma_key_lt_transitive,
};
use vstd::prelude::*;

verus! {

/// Every key is strictly below the keys that follow it.
pub open spec fn ascending(keys: Seq<Seq<u8>>) -> bool {
    forall|i: int, j: int|
        #![trigger keys[i], keys[j]]
        0 <= i < j < keys.len() ==> key_lt(keys[i], keys[j])
}

/// The smallest index from `i` on whose key is strictly above `k`, or the
/// number of keys when there is none.
pub open spec fn first_above(keys: Seq<Seq<u8>>, k: Seq<u8>, i: int) -> int
    decreases keys.len() - i,
{
    if i < 0 || i >= keys.len() {
        keys.len() as int
    } else if key_lt(k, keys[i]) {
        i
    } else {
        first_above(keys, k, i + 1)
    }
}

/// What a key pack holds: `keys[i]` maps to `payloads[i]`.
pub struct Pack {
    pub keys: Seq<Seq<u8>>,
    pub payloads: Seq<u64>,
}

impl Pack {
    /// The pack without keys.
    pub open spec fn empty() -> Pack {
        Pack { keys: Seq::empty(), payloads: Seq::empty() }
    }

    /// The pack with one key.
    pub open spec fn single(k: Seq<u8>, p: u64) -> Pack {
        Pack { keys: seq![k], payloads: seq![p] }
    }

    /// One payload per key, keys ascending.
    pub open spec fn wf(self) -> bool {
        &&& self.keys.len() == self.payloads.len()
        &&& ascending(self.keys)
    }

    /// The number of keys and the length of each key fit a machine word.
    pub open spec fn bounded(self) -> bool {
        &&& self.keys.len() <= usize::MAX
        &&& forall|i: int| 0 <= i < self.keys.len() ==> (#[trigger] self.keys[i]).len() <= usize::MAX
    }

    /// The number of keys.
    pub open spec fn len(self) -> nat {
        self.keys.len()
    }

    /// Whether `k` is one of the keys.
    pub open spec fn has(self, k: Seq<u8>) -> bool {
        self.keys.contains(k)
    }

    /// The index of `k`, where the pack has it.
    pub open spec fn pos(self, k: Seq<u8>) -> int {
        self.keys.index_of(k)
    }

    /// The payload of `k`, where the pack has it.
    pub open spec fn get(self, k: Seq<u8>) -> Option<u64> {
        if self.has(k) {
            Some(self.payloads[self.pos(k)])
        } else {
            None
        }
    }

    /// The smallest `i` with `k < keys[i]`, or the number of keys.
    pub open spec fn child_idx(self, k: Seq<u8>) -> int {
        first_above(self.keys, k, 0)
    }

    /// The pack with `p` at `k`, in place of an earlier payload if there was one.
    pub open spec fn insert(self, k: Seq<u8>, p: u64) -> Pack {
        if self.has(k) {
            Pack { keys: self.keys, payloads: self.payloads.update(self.pos(k), p) }
        } else {
            let i = self.child_idx(k);
            Pack { keys: self.keys.insert(i, k), payloads: self.payloads.insert(i, p) }
        }
    }

    /// The pack without `k`.
    pub open spec fn remove(self, k: Seq<u8>) -> Pack {
        if self.has(k) {
            let i = self.pos(k);
            Pack { keys: self.keys.remove(i), payloads: self.payloads.remove(i) }
        } else {
            self
        }
    }

    /// The pack with one more entry at its end.
    pub open spec fn push(self, k: Seq<u8>, p: u64) -> Pack {
        Pack { keys: self.keys.push(k), payloads: self.payloads.push(p) }
    }

    /// The entries from `from` up to `to`.
    pub open spec fn range(self, from: int, to: int) -> Pack {
        Pack { keys: self.keys.subrange(from, to), payloads: self.payloads.subrange(from, to) }
    }

    /// The entries of `self` followed by those of `other`.
    pub open spec fn concat(self, other: Pack) -> Pack {
        Pack { keys: self.keys + other.keys, payloads: self.payloads + other.payloads }
    }

    /// The pack with the first `n` entries of `other` put in, one after the
    /// other, each in place of an earlier payload if there was one.
    pub open spec fn absorb_upto(self, other: Pack, n: int) -> Pack
        decreases n,
    {
        if n <= 0 {
            self
        } else {
            self.absorb_upto(other, n - 1).insert(other.keys[n - 1], other.payloads[n - 1])
        }
    }

    /// The pack with every entry of `other` put in.
    pub open spec fn absorb(self, other: Pack) -> Pack {
        self.absorb_upto(other, other.keys.len() as int)
    }

    /// Every key of `self` is below every key of `other`.
    pub open spec fn precedes(self, other: Pack) -> bool {
        self.len() == 0 || other.len() == 0 || key_lt(self.keys.last(), other.keys[0])
    }

    /// The index of the median: below it lie `(n - 1) / 2` keys.
    pub open spec fn median_idx(self) -> int {
        (self.len() - 1) / 2
    }

    /// The keys below the median.
    pub open spec fn left_half(self) -> Pack {
        self.range(0, self.median_idx())
    }

    /// The keys above the median.
    pub open spec fn right_half(self) -> Pack {
        self.range(self.median_idx() + 1, self.len() as int)
    }
}

proof fn lemma_first_above_from(keys: Seq<Seq<u8>>, k: Seq<u8>, s: int, r: int)
    requires
        0 <= s <= r <= keys.len(),
        forall|j: int| s <= j < r ==> !key_lt(k, #[trigger] keys[j]),
        r < keys.len() ==> key_lt(k, keys[r]),
    ensures
        first_above(keys, k, s) == r,
    decreases r - s,
{
    if s < r {
        assert(!key_lt(k, keys[s]));
        lemma_first_above_from(keys, k, s + 1, r);
    }
}

proof fn lemma_first_above_props(keys: Seq<Seq<u8>>, k: Seq<u8>, s: int)
    requires
        0 <= s <= keys.len(),
    ensures
        s <= first_above(keys, k, s) <= keys.len(),
        forall|j: int| s <= j < first_above(keys, k, s) ==> !key_lt(k, #[trigger] keys[j]),
        first_above(keys, k, s) < keys.len() ==> key_lt(k, keys[first_above(keys, k, s)]),
    decreases keys.len() - s,
{
    if s < keys.len() && !key_lt(k, keys[s]) {
        lemma_first_above_props(keys, k, s + 1);
    }
}

/// An index with no key above `k` before it and a key above `k` at it is the
/// child index of `k`.
pub proof fn lemma_child_idx_is(p: Pack, k: Seq<u8>, r: int)
    requires
        0 <= r <= p.keys.len(),
        forall|j: int| 0 <= j < r ==> !key_lt(k, #[trigger] p.keys[j]),
        r < p.keys.len() ==> key_lt(k, p.keys[r]),
    ensures
        p.child_idx(k) == r,
{
    lemma_first_above_from(p.keys, k, 0, r);
}

/// The child index of `k` is the smallest index whose key is above `k`.
pub proof fn lemma_child_idx_props(p: Pack, k: Seq<u8>)
    ensures
        0 <= p.child_idx(k) <= p.keys.len(),
        forall|j: int| 0 <= j < p.child_idx(k) ==> !key_lt(k, #[trigger] p.keys[j]),
        p.child_idx(k) < p.keys.len() ==> key_lt(k, p.keys[p.child_idx(k)]),
{
    lemma_first_above_props(p.keys, k, 0);
}

/// In an ascending pack a key stands at one index only.
pub proof fn lemma_pos_is(p: Pack, k: Seq<u8>, i: int)
    requires
        ascending(p.keys),
        0 <= i < p.keys.len(),
        p.keys[i] == k,
    ensures
        p.has(k),
        p.pos(k) == i,
{
    let j = p.pos(k);
    assert(0 <= j < p.keys.len() && p.keys[j] == k);
    lemma_key_lt_irreflexive(k);
    if j < i {
        assert(key_lt(p.keys[j], p.keys[i]));
    }
    if i < j {
        assert(key_lt(p.keys[i], p.keys[j]));
    }
}

/// What follows from finding `k` at index `i`.
pub proof fn lemma_located_found(p: Pack, k: Seq<u8>, i: int)
    requires
        ascending(p.keys),
        0 <= i < p.keys.len(),
        p.keys[i] == k,
    ensures
        p.has(k),
        p.pos(k) == i,
        p.child_idx(k) == i + 1,
{
    lemma_pos_is(p, k, i);
    lemma_key_lt_irreflexive(k);
    assert forall|j: int| 0 <= j < i + 1 implies !key_lt(k, #[trigger] p.keys[j]) by {
        if j < i {
            assert(key_lt(p.keys[j], p.keys[i]));
            lemma_key_lt_asymmetric(p.keys[j], k);
        }
    }
    if i + 1 < p.keys.len() {
        assert(key_lt(p.keys[i], p.keys[i + 1]));
    }
    lemma_child_idx_is(p, k, i + 1);
}

/// What follows from `k` falling between the keys at `i - 1` and `i`.
pub proof fn lemma_located_absent(p: Pack, k: Seq<u8>, i: int)
    requires
        ascending(p.keys),
        0 <= i <= p.keys.len(),
        forall|j: int| 0 <= j < i ==> key_lt(#[trigger] p.keys[j], k),
        i < p.keys.len() ==> key_lt(k, p.keys[i]),
    ensures
        !p.has(k),
        p.child_idx(k) == i,
{
    lemma_key_lt_irreflexive(k);
    assert forall|j: int| 0 <= j < i implies !key_lt(k, #[trigger] p.keys[j]) by {
        lemma_key_lt_asymmetric(p.keys[j], k);
    }
    lemma_child_idx_is(p, k, i);
    if p.has(k) {
        let j = p.pos(k);
        assert(0 <= j < p.keys.len() && p.keys[j] == k);
        if j > i {
            assert(key_lt(p.keys[i], p.keys[j]));
            lemma_key_lt_transitive(k, p.keys[i], p.keys[j]);
        }
    }
}

/// Where `k` is absent, the keys before its child index are below it.
pub proof fn lemma_absent_below(p: Pack, k: Seq<u8>)
    requires
        !p.has(k),
    ensures
        forall|j: int| 0 <= j < p.child_idx(k) ==> key_lt(#[trigger] p.keys[j], k),
{
    lemma_child_idx_props(p, k);
    assert forall|j: int| 0 <= j < p.child_idx(k) implies key_lt(#[trigger] p.keys[j], k) by {
        if !key_lt(p.keys[j], k) {
            assert(!key_lt(k, p.keys[j]));
            lemma_key_lt_connected(p.keys[j], k);
            assert(p.keys.contains(k));
        }
    }
}

/// Putting `k` between the keys below it and the keys above it keeps the order.
pub proof fn lemma_insert_ascending(keys: Seq<Seq<u8>>, k: Seq<u8>, i: int)
    requires
        ascending(keys),
        0 <= i <= keys.len(),
        forall|j: int| 0 <= j < i ==> key_lt(#[trigger] keys[j], k),
        i < keys.len() ==> key_lt(k, keys[i]),
    ensures
        ascending(keys.insert(i, k)),
{
    let out = keys.insert(i, k);
    assert forall|a: int, b: int| #![trigger out[a], out[b]] 0 <= a < b < out.len() implies key_lt(
        out[a],
        out[b],
    ) by {
        if b < i {
            assert(key_lt(keys[a], keys[b]));
        } else if b == i {
            assert(key_lt(keys[a], k));
        } else if a == i {
            if b - 1 > i {
                assert(key_lt(keys[i], keys[b - 1]));
                lemma_key_lt_transitive(k, keys[i], keys[b - 1]);
            }
        } else if a < i {
            assert(key_lt(keys[a], keys[b - 1]));
        } else {
            assert(key_lt(keys[a - 1], keys[b - 1]));
        }
    }
}

/// A stretch of an ascending sequence is ascending.
pub proof fn lemma_subrange_ascending(keys: Seq<Seq<u8>>, from: int, to: int)
    requires
        ascending(keys),
        0 <= from <= to <= keys.len(),
    ensures
        ascending(keys.subrange(from, to)),
{
    let out = keys.subrange(from, to);
    assert forall|a: int, b: int| #![trigger out[a], out[b]] 0 <= a < b < out.len() implies key_lt(
        out[a],
        out[b],
    ) by {
        assert(key_lt(keys[a + from], keys[b + from]));
    }
}

/// An ascending sequence without one of its keys is ascending.
pub proof fn lemma_remove_ascending(keys: Seq<Seq<u8>>, i: int)
    requires
        ascending(keys),
        0 <= i < keys.len(),
    ensures
        ascending(keys.remove(i)),
{
    let out = keys.remove(i);
    assert forall|a: int, b: int| #![trigger out[a], out[b]] 0 <= a < b < out.len() implies key_lt(
        out[a],
        out[b],
    ) by {
        let a0 = if a < i { a } else { a + 1 };
        let b0 = if b < i { b } else { b + 1 };
        assert(key_lt(keys[a0], keys[b0]));
    }
}

/// Every key is at least the first and at most the last.
pub proof fn lemma_ascending_ends(keys: Seq<Seq<u8>>, i: int)
    requires
        ascending(keys),
        0 <= i < keys.len(),
    ensures
        key_le(keys[0], keys[i]),
        key_le(keys[i], keys.last()),
{
    if 0 < i {
        assert(key_lt(keys[0], keys[i]));
    }
    if i < keys.len() - 1 {
        assert(key_lt(keys[i], keys[keys.len() - 1]));
    }
}

/// Two ascending sequences, the first wholly below the second, make one.
pub proof fn lemma_concat_ascending(a: Seq<Seq<u8>>, b: Seq<Seq<u8>>)
    requires
        ascending(a),
        ascending(b),
        a.len() == 0 || b.len() == 0 || key_lt(a.last(), b[0]),
    ensures
        ascending(a + b),
{
    let out = a + b;
    assert forall|i: int, j: int| #![trigger out[i], out[j]] 0 <= i < j < out.len() implies key_lt(
        out[i],
        out[j],
    ) by {
        if j < a.len() {
            assert(key_lt(a[i], a[j]));
        } else if i >= a.len() {
            assert(key_lt(b[i - a.len()], b[j - a.len()]));
        } else {
            lemma_ascending_ends(a, i);
            lemma_ascending_ends(b, j - a.len());
            if a[i] != a.last() {
                lemma_key_lt_transitive(a[i], a.last(), b[0]);
            }
            if b[0] != b[j - a.len()] {
                lemma_key_lt_transitive(a[i], b[0], b[j - a.len()]);
            }
        }
    }
}

/// A sequence whose neighbours are in order is ascending.
pub proof fn lemma_push_ascending(keys: Seq<Seq<u8>>, k: Seq<u8>)
    requires
        ascending(keys),
        keys.len() > 0 ==> key_lt(keys.last(), k),
    ensures
        ascending(keys.push(k)),
{
    assert(keys.push(k) =~= keys + seq![k]);
    lemma_concat_ascending(keys, seq![k]);
}

impl Pack {
    /// Inserting keeps a pack well formed and adds at most one key.
    pub proof fn lemma_insert_wf(self, k: Seq<u8>, p: u64)
        requires
            self.wf(),
        ensures
            self.insert(k, p).wf(),
            self.insert(k, p).len() == if self.has(k) {
                self.len()
            } else {
                self.len() + 1
            },
    {
        if !self.has(k) {
            lemma_child_idx_props(self, k);
            lemma_absent_below(self, k);
            lemma_insert_ascending(self.keys, k, self.child_idx(k));
        } else {
            let i = self.pos(k);
            assert(0 <= i < self.keys.len());
        }
    }

    /// Removing keeps a pack well formed and takes at most one key.
    pub proof fn lemma_remove_wf(self, k: Seq<u8>)
        requires
            self.wf(),
        ensures
            self.remove(k).wf(),
            self.remove(k).len() == if self.has(k) {
                self.len() - 1
            } else {
                self.len() as int
            },
            !self.remove(k).has(k),
    {
        if self.has(k) {
            let i = self.pos(k);
            assert(0 <= i < self.keys.len() && self.keys[i] == k);
            lemma_remove_ascending(self.keys, i);
            let out = self.remove(k);
            if out.has(k) {
                let j = out.pos(k);
                assert(0 <= j < out.keys.len() && out.keys[j] == k);
                let j0 = if j < i { j } else { j + 1 };
                assert(self.keys[j0] == k);
                lemma_pos_is(self, k, j0);
            }
        }
    }

    /// After an insert the pack answers with the new payload at `k` and as
    /// before at every other key.
    pub proof fn lemma_insert_get(self, k: Seq<u8>, p: u64, q: Seq<u8>)
        requires
            self.wf(),
        ensures
            self.insert(k, p).get(q) == if q == k {
                Some(p)
            } else {
                self.get(q)
            },
    {
        self.lemma_insert_wf(k, p);
        let out = self.insert(k, p);
        if self.has(k) {
            let i = self.pos(k);
            assert(0 <= i < self.keys.len() && self.keys[i] == k);
            if q != k && self.has(q) {
                let j = self.pos(q);
                assert(0 <= j < self.keys.len() && self.keys[j] == q);
            }
        } else {
            let i = self.child_idx(k);
            lemma_child_idx_props(self, k);
            assert(out.keys[i] == k);
            lemma_pos_is(out, k, i);
            if q != k {
                if self.has(q) {
                    let j = self.pos(q);
                    assert(0 <= j < self.keys.len() && self.keys[j] == q);
                    let j1 = if j < i { j } else { j + 1 };
                    assert(out.keys[j1] == q);
                    lemma_pos_is(out, q, j1);
                } else if out.has(q) {
                    let j = out.pos(q);
                    assert(0 <= j < out.keys.len() && out.keys[j] == q);
                    let j0 = if j < i { j } else { j - 1 };
                    assert(self.keys[j0] == q);
                    assert(self.keys.contains(q));
                }
            }
        }
    }

    /// After a removal the pack has no payload at `k` and answers as before
    /// at every other key.
    pub proof fn lemma_remove_get(self, k: Seq<u8>, q: Seq<u8>)
        requires
            self.wf(),
        ensures
            self.remove(k).get(q) == if q == k {
                None
            } else {
                self.get(q)
            },
    {
        self.lemma_remove_wf(k);
        let out = self.remove(k);
        if self.has(k) && q != k {
            let i = self.pos(k);
            assert(0 <= i < self.keys.len() && self.keys[i] == k);
            if self.has(q) {
                let j = self.pos(q);
                assert(0 <= j < self.keys.len() && self.keys[j] == q);
                let j1 = if j < i { j } else { j - 1 };
                assert(out.keys[j1] == q);
                lemma_pos_is(out, q, j1);
            } else if out.has(q) {
                let j = out.pos(q);
                assert(0 <= j < out.keys.len() && out.keys[j] == q);
                let j0 = if j < i { j } else { j + 1 };
                assert(self.keys[j0] == q);
                assert(self.keys.contains(q));
            }
        }
    }
}

/// A key that falls between the keys at `i - 1` and `i` is absent, has the
/// child index `i`, and is inserted at `i`.
pub proof fn lemma_insert_between(p: Pack, i: int, k: Seq<u8>, pl: u64)
    requires
        p.wf(),
        0 <= i <= p.keys.len(),
        i > 0 ==> key_lt(p.keys[i - 1], k),
        i < p.keys.len() ==> key_lt(k, p.keys[i]),
    ensures
        !p.has(k),
        p.child_idx(k) == i,
        p.insert(k, pl).keys == p.keys.insert(i, k),
        p.insert(k, pl).payloads == p.payloads.insert(i, pl),
        p.insert(k, pl).wf(),
        forall|j: int| 0 <= j < i ==> key_lt(#[trigger] p.keys[j], k),
        forall|j: int| i <= j < p.keys.len() ==> key_lt(k, #[trigger] p.keys[j]),
{
    assert forall|j: int| 0 <= j < i implies key_lt(#[trigger] p.keys[j], k) by {
        if j < i - 1 {
            assert(key_lt(p.keys[j], p.keys[i - 1]));
            lemma_key_lt_transitive(p.keys[j], p.keys[i - 1], k);
        }
    }
    assert forall|j: int| i <= j < p.keys.len() implies key_lt(k, #[trigger] p.keys[j]) by {
        if i < j {
            assert(key_lt(p.keys[i], p.keys[j]));
            lemma_key_lt_transitive(k, p.keys[i], p.keys[j]);
        }
    }
    lemma_located_absent(p, k, i);
    p.lemma_insert_wf(k, pl);
}

/// The child index of a key is the number of keys that are not above it.
pub proof fn lemma_child_idx_count(p: Pack, q: Seq<u8>, r: int)
    requires
        ascending(p.keys),
        0 <= r <= p.keys.len(),
        forall|j: int| 0 <= j < r ==> !key_lt(q, #[trigger] p.keys[j]),
        forall|j: int| r <= j < p.keys.len() ==> key_lt(q, #[trigger] p.keys[j]),
    ensures
        p.child_idx(q) == r,
{
    lemma_child_idx_is(p, q, r);
}

/// In an ascending pack no key before the child index of `q` is above `q`,
/// and every key from it on is.
pub proof fn lemma_child_idx_split(p: Pack, q: Seq<u8>)
    requires
        ascending(p.keys),
    ensures
        0 <= p.child_idx(q) <= p.keys.len(),
        forall|j: int| 0 <= j < p.child_idx(q) ==> !key_lt(q, #[trigger] p.keys[j]),
        forall|j: int| p.child_idx(q) <= j < p.keys.len() ==> key_lt(q, #[trigger] p.keys[j]),
{
    lemma_child_idx_props(p, q);
    let r = p.child_idx(q);
    assert forall|j: int| r <= j < p.keys.len() implies key_lt(q, #[trigger] p.keys[j]) by {
        if r < j {
            assert(key_lt(p.keys[r], p.keys[j]));
            lemma_key_lt_transitive(q, p.keys[r], p.keys[j]);
        }
    }
}

/// Whether a pack has a key, given the key's child index: the key, if the
/// pack has it, stands just before that index.
pub proof fn lemma_has_at(p: Pack, q: Seq<u8>)
    requires
        ascending(p.keys),
    ensures
        p.has(q) <==> p.child_idx(q) > 0 && p.keys[p.child_idx(q) - 1] == q,
        p.has(q) ==> p.pos(q) == p.child_idx(q) - 1,
{
    lemma_child_idx_split(p, q);
    let r = p.child_idx(q);
    if p.has(q) {
        let i = p.pos(q);
        assert(0 <= i < p.keys.len() && p.keys[i] == q);
        lemma_located_found(p, q, i);
    }
    if r > 0 && p.keys[r - 1] == q {
        lemma_pos_is(p, q, r - 1);
    }
}

/// What a stretch of a pack has, and where its keys divide.
pub proof fn lemma_range(p: Pack, a: int, b: int, q: Seq<u8>)
    requires
        p.wf(),
        0 <= a <= b <= p.keys.len(),
    ensures
        p.range(a, b).wf(),
        p.range(a, b).len() == b - a,
        p.range(a, b).has(q) <==> p.has(q) && a <= p.pos(q) < b,
        p.range(a, b).has(q) ==> p.range(a, b).get(q) == p.get(q),
        p.range(a, b).child_idx(q) == if p.child_idx(q) <= a {
            0
        } else if p.child_idx(q) >= b {
            b - a
        } else {
            p.child_idx(q) - a
        },
{
    let r = p.range(a, b);
    lemma_subrange_ascending(p.keys, a, b);
    lemma_child_idx_split(p, q);
    lemma_has_at(p, q);
    let c = p.child_idx(q);
    let rc = if c <= a {
        0
    } else if c >= b {
        b - a
    } else {
        c - a
    };
    assert forall|j: int| 0 <= j < rc implies !key_lt(q, #[trigger] r.keys[j]) by {
        assert(r.keys[j] == p.keys[j + a]);
    }
    assert forall|j: int| rc <= j < r.keys.len() implies key_lt(q, #[trigger] r.keys[j]) by {
        assert(r.keys[j] == p.keys[j + a]);
    }
    lemma_child_idx_count(r, q, rc);
    lemma_has_at(r, q);
    if rc > 0 {
        assert(r.keys[rc - 1] == p.keys[rc - 1 + a]);
        assert(r.payloads[rc - 1] == p.payloads[rc - 1 + a]);
        if c >= b && c > b {
            // the key of `p` just before `c` lies behind the stretch
            if r.keys[rc - 1] == q {
                lemma_pos_is(p, q, b - 1);
            }
        }
    }
    if p.has(q) && a <= p.pos(q) < b {
        assert(r.keys[p.pos(q) - a] == q);
    }
}

/// Where the keys of a pack divide after the insertion of a key between the
/// keys at `i - 1` and `i`.
pub proof fn lemma_child_idx_insert(p: Pack, i: int, k: Seq<u8>, pl: u64, q: Seq<u8>)
    requires
        p.wf(),
        0 <= i <= p.keys.len(),
        i > 0 ==> key_lt(p.keys[i - 1], k),
        i < p.keys.len() ==> key_lt(k, p.keys[i]),
    ensures
        p.insert(k, pl).child_idx(q) == if p.child_idx(q) < i || (p.child_idx(q) == i && key_lt(
            q,
            k,
        )) {
            p.child_idx(q)
        } else {
            p.child_idx(q) + 1
        },
{
    let out = p.insert(k, pl);
    lemma_insert_between(p, i, k, pl);
    lemma_child_idx_split(p, q);
    let c = p.child_idx(q);
    let oc = if c < i || (c == i && key_lt(q, k)) {
        c
    } else {
        c + 1
    };
    assert forall|j: int| 0 <= j < oc implies !key_lt(q, #[trigger] out.keys[j]) by {
        if j < i {
            assert(out.keys[j] == p.keys[j]);
            if j >= c {
                // c < i: cannot be, since then oc == c
            }
        } else if j == i {
            assert(out.keys[j] == k);
            if c > i {
                assert(!key_lt(q, p.keys[i]));
                if key_lt(q, k) {
                    lemma_key_lt_transitive(q, k, p.keys[i]);
                }
            }
        } else {
            assert(out.keys[j] == p.keys[j - 1]);
        }
    }
    assert forall|j: int| oc <= j < out.keys.len() implies key_lt(q, #[trigger] out.keys[j]) by {
        if j < i {
            assert(out.keys[j] == p.keys[j]);
        } else if j == i {
            assert(out.keys[j] == k);
            if c < i {
                assert(key_lt(q, p.keys[c]));
                assert(key_lt(p.keys[c], k));
                lemma_key_lt_transitive(q, p.keys[c], k);
            }
        } else {
            assert(out.keys[j] == p.keys[j - 1]);
        }
    }
    lemma_child_idx_count(out, q, oc);
}

/// A pack has a key just where one of its indices holds the key.
pub proof fn lemma_pack_has_len(p: Pack, q: Seq<u8>)
    ensures
        p.has(q) <==> exists|i: int| 0 <= i < p.keys.len() && #[trigger] p.keys[i] == q,
{
    if p.has(q) {
        let i = p.pos(q);
        assert(0 <= i < p.keys.len() && p.keys[i] == q);
    }
}

/// What two packs put behind each other have, and where their keys divide.
pub proof fn lemma_concat(a: Pack, b: Pack, q: Seq<u8>)
    requires
        a.wf(),
        b.wf(),
        a.precedes(b),
    ensures
        a.concat(b).wf(),
        a.concat(b).len() == a.len() + b.len(),
        a.concat(b).has(q) <==> a.has(q) || b.has(q),
        a.has(q) ==> a.concat(b).get(q) == a.get(q) && !b.has(q),
        b.has(q) ==> a.concat(b).get(q) == b.get(q) && !a.has(q),
        a.concat(b).child_idx(q) == if a.child_idx(q) < a.len() {
            a.child_idx(q)
        } else {
            a.len() + b.child_idx(q)
        },
{
    let c = a.concat(b);
    let n = a.keys.len() as int;
    lemma_concat_ascending(a.keys, b.keys);
    lemma_child_idx_split(a, q);
    lemma_child_idx_split(b, q);
    lemma_has_at(a, q);
    lemma_has_at(b, q);
    let ca = a.child_idx(q);
    let cb = b.child_idx(q);
    let cc = if ca < n {
        ca
    } else {
        n + cb
    };
    assert forall|j: int| 0 <= j < cc implies !key_lt(q, #[trigger] c.keys[j]) by {
        if j < n {
            assert(c.keys[j] == a.keys[j]);
        } else {
            assert(c.keys[j] == b.keys[j - n]);
        }
    }
    assert forall|j: int| cc <= j < c.keys.len() implies key_lt(q, #[trigger] c.keys[j]) by {
        if j < n {
            assert(c.keys[j] == a.keys[j]);
        } else {
            assert(c.keys[j] == b.keys[j - n]);
            if ca < n {
                // q is below a key of `a`, which is below every key of `b`
                assert(key_lt(q, a.keys[ca]));
                lemma_ascending_ends(a.keys, ca);
                lemma_ascending_ends(b.keys, j - n);
                if a.keys[ca] != a.keys.last() {
                    lemma_key_lt_transitive(q, a.keys[ca], a.keys.last());
                }
                lemma_key_lt_transitive(q, a.keys.last(), b.keys[0]);
                if b.keys[0] != b.keys[j - n] {
                    lemma_key_lt_transitive(q, b.keys[0], b.keys[j - n]);
                }
            }
        }
    }
    lemma_child_idx_count(c, q, cc);
    lemma_has_at(c, q);
    if cc > 0 {
        if cc - 1 < n {
            assert(c.keys[cc - 1] == a.keys[cc - 1]);
            assert(c.payloads[cc - 1] == a.payloads[cc - 1]);
        } else {
            assert(c.keys[cc - 1] == b.keys[cc - 1 - n]);
            assert(c.payloads[cc - 1] == b.payloads[cc - 1 - n]);
        }
    }
    if ca == n && cb == 0 && n > 0 {
        assert(c.keys[n - 1] == a.keys[n - 1]);
    }
    if a.has(q) && b.has(q) {
        lemma_key_lt_irreflexive(q);
        lemma_ascending_ends(a.keys, a.pos(q));
        lemma_ascending_ends(b.keys, b.pos(q));
        assert(key_lt(a.keys.last(), b.keys[0]));
        if q != a.keys.last() {
            lemma_key_lt_transitive(q, a.keys.last(), b.keys[0]);
        }
        if b.keys[0] != q {
            lemma_key_lt_transitive(q, b.keys[0], q);
        }
    }
    if ca < n && b.has(q) {
        // q is below a key of `a`, so below every key of `b`
        assert(key_lt(q, a.keys[ca]));
        lemma_ascending_ends(a.keys, ca);
        lemma_ascending_ends(b.keys, b.pos(q));
        if a.keys[ca] != a.keys.last() {
            lemma_key_lt_transitive(q, a.keys[ca], a.keys.last());
        }
        lemma_key_lt_transitive(q, a.keys.last(), b.keys[0]);
        lemma_key_lt_irreflexive(q);
        if b.keys[0] != q {
            lemma_key_lt_transitive(q, b.keys[0], q);
        }
    }
}

/// Where the keys of a pack divide after the removal of the key at `i`.
pub proof fn lemma_child_idx_remove(p: Pack, i: int, q: Seq<u8>)
    requires
        p.wf(),
        0 <= i < p.keys.len(),
    ensures
        p.remove(p.keys[i]).keys == p.keys.remove(i),
        p.remove(p.keys[i]).payloads == p.payloads.remove(i),
        p.remove(p.keys[i]).wf(),
        p.remove(p.keys[i]).child_idx(q) == if p.child_idx(q) <= i {
            p.child_idx(q)
        } else {
            p.child_idx(q) - 1
        },
{
    let out = p.remove(p.keys[i]);
    lemma_pos_is(p, p.keys[i], i);
    p.lemma_remove_wf(p.keys[i]);
    lemma_child_idx_split(p, q);
    let c = p.child_idx(q);
    let oc = if c <= i {
        c
    } else {
        c - 1
    };
    assert forall|j: int| 0 <= j < oc implies !key_lt(q, #[trigger] out.keys[j]) by {
        if j < i {
            assert(out.keys[j] == p.keys[j]);
        } else {
            assert(out.keys[j] == p.keys[j + 1]);
        }
    }
    assert forall|j: int| oc <= j < out.keys.len() implies key_lt(q, #[trigger] out.keys[j]) by {
        if j < i {
            assert(out.keys[j] == p.keys[j]);
        } else {
            assert(out.keys[j] == p.keys[j + 1]);
        }
    }
    lemma_child_idx_count(out, q, oc);
}

/// To take the key at `i` out and put a key in that falls between the keys
/// around it gives the pack with the new key at `i`.
pub proof fn lemma_exchange(p: Pack, i: int, k: Seq<u8>, pl: u64)
    requires
        p.wf(),
        0 <= i < p.keys.len(),
        i > 0 ==> key_lt(p.keys[i - 1], k),
        i + 1 < p.keys.len() ==> key_lt(k, p.keys[i + 1]),
    ensures
        p.remove(p.keys[i]).insert(k, pl).keys == p.keys.update(i, k),
        p.remove(p.keys[i]).insert(k, pl).payloads == p.payloads.update(i, pl),
        p.remove(p.keys[i]).insert(k, pl).wf(),
        p.remove(p.keys[i]).insert(k, pl).len() == p.len(),
{
    let mid = p.remove(p.keys[i]);
    lemma_child_idx_remove(p, i, k);
    if i > 0 {
        assert(mid.keys[i - 1] == p.keys[i - 1]);
    }
    if i < mid.keys.len() {
        assert(mid.keys[i] == p.keys[i + 1]);
    }
    lemma_insert_between(mid, i, k, pl);
    assert(mid.keys.insert(i, k) =~= p.keys.update(i, k));
    assert(mid.payloads.insert(i, pl) =~= p.payloads.update(i, pl));
}

/// To put in the entries of a pack whose keys are all above those of the
/// first is to put them behind those of the first.
pub proof fn lemma_absorb_upto(p: Pack, q: Pack, n: int)
    requires
        p.wf(),
        q.wf(),
        p.precedes(q),
        0 <= n <= q.keys.len(),
    ensures
        p.absorb_upto(q, n) == p.concat(q.range(0, n)),
        p.absorb_upto(q, n).wf(),
    decreases n,
{
    if n == 0 {
        assert(p.concat(q.range(0, 0)).keys =~= p.keys);
        assert(p.concat(q.range(0, 0)).payloads =~= p.payloads);
    } else {
        lemma_absorb_upto(p, q, n - 1);
        let m = p.concat(q.range(0, n - 1));
        let k = q.keys[n - 1];
        let len = m.keys.len() as int;
        if len > 0 {
            if n - 1 > 0 {
                assert(m.keys[len - 1] == q.keys[n - 2]);
                assert(key_lt(q.keys[n - 2], q.keys[n - 1]));
            } else {
                assert(m.keys[len - 1] == p.keys.last());
                assert(key_lt(p.keys.last(), q.keys[0]));
            }
        }
        lemma_insert_between(m, len, k, q.payloads[n - 1]);
        let out = m.insert(k, q.payloads[n - 1]);
        assert(out.keys =~= p.concat(q.range(0, n)).keys);
        assert(out.payloads =~= p.concat(q.range(0, n)).payloads);
    }
}

/// To put in the entries of a pack whose keys are all above those of the
/// first is to put them behind those of the first.
pub proof fn lemma_absorb_concat(p: Pack, q: Pack)
    requires
        p.wf(),
        q.wf(),
        p.precedes(q),
    ensures
        p.absorb(q) == p.concat(q),
{
    lemma_absorb_upto(p, q, q.keys.len() as int);
    assert(q.range(0, q.keys.len() as int).keys =~= q.keys);
    assert(q.range(0, q.keys.len() as int).payloads =~= q.payloads);
}

} // verus!
