use vstd::prelude::*;

use crate::stats::{empty_stat, Stat};
use std::cmp::Ordering;

verus! {

/// Number of slots: the power of two above twice the number of distinct keys
/// that the workload holds. It is also the most keys a table takes.
pub const MAP_SIZE: usize = 16384;

pub const MASK: usize = 16383;

#[verifier::external_type_specification]
#[verifier::external_body]
pub struct ExFxBuildHasher(rustc_hash::FxBuildHasher);

/// The hash that `FxBuildHasher` gives a byte key.
pub uninterp spec fn fx_hash(key: Seq<u8>) -> u64;

/// Relies on rustc_hash::FxBuildHasher::hash_one on a byte slice: the hasher
/// starts from a fixed state and takes no seed, so on a given target the hash
/// depends on the bytes alone.
#[verifier::external_body]
fn hash_key(hasher: &rustc_hash::FxBuildHasher, key: &[u8]) -> (r: u64)
    ensures
        r == fx_hash(key@),
{
    std::hash::BuildHasher::hash_one(hasher, key)
}

/// Relies on rustc_hash::FxBuildHasher being a unit struct: builds it.
#[verifier::external_body]
fn fx_build_hasher() -> (r: rustc_hash::FxBuildHasher) {
    rustc_hash::FxBuildHasher
}

/// Byte-lexicographic order: a proper prefix comes first.
pub open spec fn bytes_lt(a: Seq<u8>, b: Seq<u8>) -> bool
    decreases a.len(),
{
    if a.len() == 0 {
        b.len() > 0
    } else if b.len() == 0 {
        false
    } else if a[0] != b[0] {
        a[0] < b[0]
    } else {
        bytes_lt(a.drop_first(), b.drop_first())
    }
}

proof fn lemma_bytes_lt_step(a: Seq<u8>, b: Seq<u8>, i: int)
    requires
        0 <= i < a.len(),
        i < b.len(),
        a[i] == b[i],
    ensures
        bytes_lt(a.skip(i), b.skip(i)) == bytes_lt(a.skip(i + 1), b.skip(i + 1)),
{
    assert(a.skip(i).drop_first() =~= a.skip(i + 1));
    assert(b.skip(i).drop_first() =~= b.skip(i + 1));
}

/// Two different keys are ordered one way or the other.
pub proof fn lemma_bytes_lt_total(a: Seq<u8>, b: Seq<u8>)
    ensures
        a != b ==> bytes_lt(a, b) || bytes_lt(b, a),
        !(bytes_lt(a, b) && bytes_lt(b, a)),
    decreases a.len(),
{
    if a.len() > 0 && b.len() > 0 && a[0] == b[0] {
        lemma_bytes_lt_total(a.drop_first(), b.drop_first());
        if a != b {
            assert(a =~= seq![a[0]] + a.drop_first());
            assert(b =~= seq![b[0]] + b.drop_first());
        }
    } else if a.len() == 0 && b.len() == 0 {
        assert(a =~= b);
    }
}

/// Compares two keys byte by byte.
pub fn compare_bytes(a: &[u8], b: &[u8]) -> (r: Ordering)
    ensures
        (r == Ordering::Less) == bytes_lt(a@, b@),
        (r == Ordering::Equal) == (a@ == b@),
        (r == Ordering::Greater) == bytes_lt(b@, a@),
{
    let mut i: usize = 0;
    assert(a@.skip(0) =~= a@);
    assert(b@.skip(0) =~= b@);
    while i < a.len() && i < b.len()
        invariant
            i <= a@.len(),
            i <= b@.len(),
            a@.subrange(0, i as int) == b@.subrange(0, i as int),
            bytes_lt(a@, b@) == bytes_lt(a@.skip(i as int), b@.skip(i as int)),
            bytes_lt(b@, a@) == bytes_lt(b@.skip(i as int), a@.skip(i as int)),
        decreases a@.len() - i,
    {
        if a[i] != b[i] {
            assert(a@.skip(i as int)[0] == a@[i as int]);
            assert(b@.skip(i as int)[0] == b@[i as int]);
            assert(a@[i as int] != b@[i as int] ==> a@ != b@);
            if a[i] < b[i] {
                return Ordering::Less;
            } else {
                return Ordering::Greater;
            }
        }
        proof {
            lemma_bytes_lt_step(a@, b@, i as int);
            lemma_bytes_lt_step(b@, a@, i as int);
            assert(a@.subrange(0, i + 1) =~= a@.subrange(0, i as int).push(a@[i as int]));
            assert(b@.subrange(0, i + 1) =~= b@.subrange(0, i as int).push(b@[i as int]));
        }
        i = i + 1;
    }
    if a.len() == b.len() {
        assert(a@ =~= a@.subrange(0, i as int));
        assert(b@ =~= b@.subrange(0, i as int));
        assert(a@.skip(i as int).len() == 0);
        Ordering::Equal
    } else if a.len() < b.len() {
        assert(a@.skip(i as int).len() == 0);
        assert(a@.len() != b@.len());
        Ordering::Less
    } else {
        assert(b@.skip(i as int).len() == 0);
        assert(a@.len() != b@.len());
        Ordering::Greater
    }
}

/// Whether two keys hold the same bytes.
pub fn bytes_eq(a: &[u8], b: &[u8]) -> (r: bool)
    ensures
        r == (a@ == b@),
{
    if a.len() != b.len() {
        return false;
    }
    let mut i: usize = 0;
    while i < a.len()
        invariant
            i <= a@.len() == b@.len(),
            forall|j: int| 0 <= j < i ==> a@[j] == b@[j],
        decreases a@.len() - i,
    {
        if a[i] != b[i] {
            return false;
        }
        i = i + 1;
    }
    assert(a@ =~= b@);
    true
}

/// An occupied slot: a key, its hash, and the statistics of its readings.
pub struct ContentBucket {
    hash_mem: u64,
    key: Vec<u8>,
    value: Stat,
}

impl ContentBucket {
    /// Compares this entry with the candidate `(hashed_other, key)` in the
    /// order of the table: by hash first, then by key bytes.
    fn het_cmp(&self, hashed_other: u64, key: &[u8]) -> (r: Ordering)
        ensures
            (r == Ordering::Equal) == (self.hash_mem == hashed_other && self.key@ == key@),
    {
        if self.hash_mem < hashed_other {
            Ordering::Less
        } else if self.hash_mem > hashed_other {
            Ordering::Greater
        } else {
            compare_bytes(self.key.as_slice(), key)
        }
    }
}

/// The ideal slot of a hash.
pub open spec fn home(h: u64) -> int {
    (h & (MASK as u64)) as int
}

/// The `d`-th slot on the probe path that starts at slot `h`.
pub open spec fn probe(h: int, d: int) -> int {
    if h + d < MAP_SIZE {
        h + d
    } else {
        h + d - MAP_SIZE
    }
}

/// How many steps the probe path from slot `a` takes to reach slot `b`.
pub open spec fn dist(a: int, b: int) -> int {
    if b >= a {
        b - a
    } else {
        b - a + MAP_SIZE
    }
}

proof fn lemma_home(h: u64)
    ensures
        0 <= home(h) < MAP_SIZE,
{
    assert(h & 16383u64 <= 16383u64) by (bit_vector);
}

/// Number of occupied slots.
spec fn count_some(s: Seq<Option<ContentBucket>>) -> nat
    decreases s.len(),
{
    if s.len() == 0 {
        0
    } else {
        count_some(s.drop_last()) + if s.last() is Some {
            1nat
        } else {
            0nat
        }
    }
}

proof fn lemma_count_update(s: Seq<Option<ContentBucket>>, i: int, x: Option<ContentBucket>)
    requires
        0 <= i < s.len(),
    ensures
        count_some(s.update(i, x)) + (if s[i] is Some { 1int } else { 0int }) == count_some(s)
            + (if x is Some { 1int } else { 0int }),
    decreases s.len(),
{
    if i == s.len() - 1 {
        assert(s.update(i, x).drop_last() =~= s.drop_last());
    } else {
        assert(s.update(i, x).drop_last() =~= s.drop_last().update(i, x));
        lemma_count_update(s.drop_last(), i, x);
    }
}

proof fn lemma_count_bound(s: Seq<Option<ContentBucket>>)
    ensures
        count_some(s) <= s.len(),
        (forall|i: int| 0 <= i < s.len() ==> s[i] is Some) ==> count_some(s) == s.len(),
    decreases s.len(),
{
    if s.len() > 0 {
        lemma_count_bound(s.drop_last());
        if forall|i: int| 0 <= i < s.len() ==> s[i] is Some {
            assert forall|i: int| 0 <= i < s.drop_last().len() implies s.drop_last()[i] is Some by {
                assert(s[i] is Some);
            }
        }
    }
}

/// A fixed-capacity open-addressing map from byte keys to statistics.
pub struct StackMap {
    content: Vec<Option<ContentBucket>>,
    hasher: rustc_hash::FxBuildHasher,
    size: usize,
    model: Ghost<Map<Seq<u8>, Stat>>,
}

impl View for StackMap {
    type V = Map<Seq<u8>, Stat>;

    closed spec fn view(&self) -> Map<Seq<u8>, Stat> {
        self.model@
    }
}

impl StackMap {
    /// Every entry sits under the hash of its key, with statistics in range.
    closed spec fn hashed(s: Seq<Option<ContentBucket>>) -> bool {
        forall|i: int|
            0 <= i < s.len() ==> (#[trigger] s[i] matches Some(e) ==> e.hash_mem == fx_hash(e.key@)
                && e.value.wf())
    }

    closed spec fn distinct(s: Seq<Option<ContentBucket>>) -> bool {
        forall|i: int, j: int|
            0 <= i < s.len() && 0 <= j < s.len() && #[trigger] s[i] is Some && #[trigger] s[j] is Some
                && s[i]->Some_0.key@ == s[j]->Some_0.key@ ==> i == j
    }

    /// Every slot on the probe path from an entry's ideal slot to the entry
    /// is occupied, so that a lookup may stop at the first empty slot.
    closed spec fn no_gap(s: Seq<Option<ContentBucket>>) -> bool {
        forall|i: int, d: int|
            #![trigger s[i], s[probe(home(s[i]->Some_0.hash_mem), d)]]
            0 <= i < s.len() && s[i] is Some && 0 <= d < dist(home(s[i]->Some_0.hash_mem), i)
                ==> s[probe(home(s[i]->Some_0.hash_mem), d)] is Some
    }

    /// The slots hold exactly the entries of `m`.
    closed spec fn holds_map(s: Seq<Option<ContentBucket>>, m: Map<Seq<u8>, Stat>) -> bool {
        &&& forall|i: int|
            0 <= i < s.len() ==> (#[trigger] s[i] matches Some(e) ==> m.contains_key(e.key@)
                && m[e.key@] == e.value)
        &&& forall|k: Seq<u8>|
            #[trigger] m.contains_key(k) ==> exists|i: int|
                0 <= i < s.len() && #[trigger] s[i] is Some && s[i]->Some_0.key@ == k
    }

    pub closed spec fn wf(&self) -> bool {
        &&& self.content@.len() == MAP_SIZE
        &&& Self::hashed(self.content@)
        &&& Self::distinct(self.content@)
        &&& Self::no_gap(self.content@)
        &&& Self::holds_map(self.content@, self.model@)
        &&& self.model@.dom().finite()
        &&& self.size == self.model@.dom().len()
        &&& self.size == count_some(self.content@)
    }

    /// Slot `i` holds an entry.
    pub closed spec fn holds(&self, i: int) -> bool {
        0 <= i < self.content@.len() && self.content@[i] is Some
    }

    /// The key held in slot `i`.
    pub closed spec fn key_at(&self, i: int) -> Seq<u8> {
        self.content@[i]->Some_0.key@
    }

    /// The slot that holds `k`.
    pub closed spec fn slot_of(&self, k: Seq<u8>) -> int {
        choose|i: int| self.holds(i) && self.key_at(i) == k
    }

    pub fn new_with_hasher(hasher: rustc_hash::FxBuildHasher) -> (r: Self)
        ensures
            r.wf(),
            r@ == Map::<Seq<u8>, Stat>::empty(),
    {
        let mut content: Vec<Option<ContentBucket>> = Vec::new();
        let mut i: usize = 0;
        while i < MAP_SIZE
            invariant
                i <= MAP_SIZE,
                content@.len() == i,
                forall|j: int| 0 <= j < i ==> #[trigger] content@[j] is None,
                count_some(content@) == 0,
            decreases MAP_SIZE - i,
        {
            let ghost before = content@;
            content.push(None);
            proof {
                assert(content@.drop_last() =~= before);
            }
            i = i + 1;
        }
        StackMap { content, hasher, size: 0, model: Ghost(Map::empty()) }
    }

    pub fn new() -> (r: Self)
        ensures
            r.wf(),
            r@ == Map::<Seq<u8>, Stat>::empty(),
    {
        Self::new_with_hasher(fx_build_hasher())
    }

    /// Number of keys held.
    pub fn len(&self) -> (r: usize)
        requires
            self.wf(),
        ensures
            r == self@.dom().len(),
            r <= MAP_SIZE,
    {
        proof {
            lemma_count_bound(self.content@);
        }
        self.size
    }

    /// A table holds at most `MAP_SIZE` keys, each with statistics in range.
    pub proof fn lemma_bounds(&self)
        requires
            self.wf(),
        ensures
            self@.dom().finite(),
            self@.dom().len() <= MAP_SIZE,
            forall|k: Seq<u8>| #[trigger] self@.contains_key(k) ==> self@[k].wf(),
    {
        lemma_count_bound(self.content@);
        assert forall|k: Seq<u8>| #[trigger] self@.contains_key(k) implies self@[k].wf() by {
            let i = choose|i: int| 0 <= i < self.content@.len() && #[trigger] self.content@[i] is Some
                && self.content@[i]->Some_0.key@ == k;
            assert(self.content@[i] is Some);
        }
    }

    /// With `k`'s probe path walked for `t` steps without meeting `k`, and
    /// the next slot empty (or the whole table walked), `k` is not held.
    proof fn lemma_not_held(&self, k: Seq<u8>, t: int)
        requires
            self.wf(),
            0 <= t <= MAP_SIZE,
            forall|d: int|
                0 <= d < t ==> #[trigger] self.content@[probe(home(fx_hash(k)), d)] is Some
                    && self.content@[probe(home(fx_hash(k)), d)]->Some_0.key@ != k,
            t < MAP_SIZE ==> self.content@[probe(home(fx_hash(k)), t)] is None,
        ensures
            !self@.contains_key(k),
    {
        let s = self.content@;
        let h = home(fx_hash(k));
        lemma_home(fx_hash(k));
        if self@.contains_key(k) {
            let i = choose|i: int| 0 <= i < s.len() && #[trigger] s[i] is Some && s[i]->Some_0.key@ == k;
            assert(s[i] is Some);
            let d = dist(h, i);
            assert(probe(h, d) == i);
            if d < t {
                assert(s[probe(h, d)] is Some);
            } else if d == t {
                assert(s[probe(h, t)] is Some);
            } else {
                assert(s[probe(home(s[i]->Some_0.hash_mem), t)] is Some);
            }
        }
    }

    /// The slot that holds `key`, found by walking its probe path from its
    /// ideal slot up to the first empty slot.
    pub fn find_slot(&self, key: &[u8]) -> (r: Option<usize>)
        requires
            self.wf(),
        ensures
            r matches Some(i) ==> self.holds(i as int) && self.key_at(i as int) == key@,
            r is None <==> !self@.contains_key(key@),
    {
        let hashed = hash_key(&self.hasher, key);
        proof {
            lemma_home(hashed);
        }
        let h = (hashed & (MASK as u64)) as usize;
        let mut idx = h;
        let mut t: usize = 0;
        while t < MAP_SIZE
            invariant
                self.wf(),
                hashed == fx_hash(key@),
                h == home(hashed),
                h < MAP_SIZE,
                t <= MAP_SIZE,
                idx == probe(h as int, t as int),
                forall|d: int|
                    0 <= d < t ==> #[trigger] self.content@[probe(h as int, d)] is Some
                        && self.content@[probe(h as int, d)]->Some_0.key@ != key@,
            decreases MAP_SIZE - t,
        {
            match &self.content[idx] {
                None => {
                    proof {
                        self.lemma_not_held(key@, t as int);
                    }
                    return None;
                },
                Some(e) => {
                    if e.hash_mem == hashed && bytes_eq(e.key.as_slice(), key) {
                        proof {
                            assert(self.content@[idx as int] is Some);
                            assert(self.holds(idx as int));
                            assert(self.key_at(idx as int) == key@);
                        }
                        return Some(idx);
                    }
                    proof {
                        assert(self.content@[idx as int] is Some);
                    }
                },
            }
            idx = if idx + 1 == MAP_SIZE {
                0
            } else {
                idx + 1
            };
            t = t + 1;
        }
        proof {
            self.lemma_not_held(key@, t as int);
        }
        None
    }

    proof fn lemma_slot_of(&self, i: int)
        requires
            self.wf(),
            self.holds(i),
        ensures
            self.slot_of(self.key_at(i)) == i,
            self@.contains_key(self.key_at(i)),
            self@[self.key_at(i)] == self.content@[i]->Some_0.value,
    {
        let k = self.key_at(i);
        let j = self.slot_of(k);
        assert(self.holds(j) && self.key_at(j) == k);
        assert(self.content@[i] is Some);
        assert(self.content@[j] is Some);
    }

    /// Places `key`, which is not held yet, with statistics `value`.
    ///
    /// Linear probing from the key's ideal slot, keeping entries ordered by
    /// (hash, key) along each run: where the candidate sorts before the
    /// occupant of a slot, the two trade places and the displaced occupant
    /// probes on. The walk ends at the first empty slot. Returns the slot that
    /// then holds `key`.
    pub fn insert(&mut self, key: Vec<u8>, value: Stat) -> (r: usize)
        requires
            old(self).wf(),
            !old(self)@.contains_key(key@),
            old(self)@.dom().len() < MAP_SIZE,
            value.wf(),
        ensures
            final(self).wf(),
            final(self)@ == old(self)@.insert(key@, value),
            final(self).holds(r as int),
            final(self).key_at(r as int) == key@,
            r as int == final(self).slot_of(key@),
    {
        let ghost k0 = key@;
        let ghost s0 = self.content@;
        let ghost m1 = self.model@.insert(k0, value);
        let lookup_key = vstd::slice::slice_to_vec(key.as_slice());
        let hashed = hash_key(&self.hasher, key.as_slice());
        proof {
            lemma_home(hashed);
            lemma_count_bound(s0);
            assert(exists|e: int| 0 <= e < MAP_SIZE && s0[e] is None);
        }
        let ghost e: int = choose|e: int| 0 <= e < MAP_SIZE && s0[e] is None;
        let h = (hashed & (MASK as u64)) as usize;
        let mut cand = ContentBucket { hash_mem: hashed, key, value };
        let mut idx = h;
        let ghost mut t: int = 0;
        while self.content[idx].is_some()
            invariant
                self.size == old(self).size,
                self.model == old(self).model,
                self.content@.len() == MAP_SIZE,
                h < MAP_SIZE,
                h == home(hashed),
                0 <= e < MAP_SIZE,
                self.content@[e] is None,
                0 <= t <= dist(h as int, e),
                idx == probe(h as int, t),
                forall|i: int|
                    0 <= i < MAP_SIZE ==> (#[trigger] self.content@[i] is Some) == (s0[i] is Some),
                count_some(self.content@) == count_some(s0),
                Self::hashed(self.content@),
                cand.hash_mem == fx_hash(cand.key@),
                cand.value.wf(),
                Self::distinct(self.content@),
                forall|i: int|
                    0 <= i < MAP_SIZE && #[trigger] self.content@[i] is Some
                        ==> self.content@[i]->Some_0.key@ != cand.key@,
                forall|i: int|
                    0 <= i < MAP_SIZE && #[trigger] self.content@[i] is Some ==> m1.contains_key(
                        self.content@[i]->Some_0.key@,
                    ) && m1[self.content@[i]->Some_0.key@] == self.content@[i]->Some_0.value,
                m1.contains_key(cand.key@),
                m1[cand.key@] == cand.value,
                forall|k: Seq<u8>|
                    #[trigger] m1.contains_key(k) ==> k == cand.key@ || exists|i: int|
                        0 <= i < MAP_SIZE && #[trigger] self.content@[i] is Some
                            && self.content@[i]->Some_0.key@ == k,
                Self::no_gap(self.content@),
                forall|d: int|
                    0 <= d < dist(home(cand.hash_mem), idx as int)
                        ==> #[trigger] self.content@[probe(home(cand.hash_mem), d)] is Some,
            decreases dist(h as int, e) - t,
        {
            let ghost s = self.content@;
            let ghost c = cand;
            proof {
                lemma_home(cand.hash_mem);
                assert(probe(h as int, dist(h as int, e)) == e);
                assert(s[idx as int] is Some);
                let hc = home(c.hash_mem);
                assert(probe(hc, dist(hc, e)) == e);
                assert(dist(hc, idx as int) < dist(hc, e)) by {
                    if dist(hc, e) < dist(hc, idx as int) {
                        assert(s[probe(hc, dist(hc, e))] is Some);
                    }
                }
                let ho = home(s[idx as int]->Some_0.hash_mem);
                lemma_home(s[idx as int]->Some_0.hash_mem);
                assert(probe(ho, dist(ho, e)) == e);
                assert(dist(ho, idx as int) < dist(ho, e)) by {
                    if dist(ho, e) < dist(ho, idx as int) {
                        assert(s[probe(ho, dist(ho, e))] is Some);
                    }
                }
            }
            let mut taken: Option<ContentBucket> = None;
            std::mem::swap(&mut self.content[idx], &mut taken);
            match taken {
                Some(occ) => {
                    // the candidate's key is not held, so the two never compare equal
                    let displace = match occ.het_cmp(cand.hash_mem, cand.key.as_slice()) {
                        Ordering::Greater => true,
                        _ => false,
                    };
                    if displace {
                        self.content[idx] = Some(cand);
                        cand = occ;
                    } else {
                        self.content[idx] = Some(occ);
                    }
                },
                None => {},
            }
            let ghost s1 = self.content@;
            proof {
                assert(s1 == s.update(idx as int, s1[idx as int]));
                assert(s1[idx as int] is Some);
                lemma_count_update(s, idx as int, s1[idx as int]);
                assert(s1[idx as int] == Some(c) || s1 =~= s);
                assert(s1 =~= s ==> cand == c);
                assert(s1[idx as int] == Some(c) ==> cand == s[idx as int]->Some_0);
                assert forall|a: int, b: int|
                    0 <= a < s1.len() && 0 <= b < s1.len() && #[trigger] s1[a] is Some
                        && #[trigger] s1[b] is Some && s1[a]->Some_0.key@ == s1[b]->Some_0.key@
                    implies a == b by {
                    assert(s[a] is Some && s[b] is Some);
                }
                assert forall|i: int|
                    0 <= i < MAP_SIZE && #[trigger] s1[i] is Some
                    implies s1[i]->Some_0.key@ != cand.key@ by {
                    assert(s[i] is Some);
                }
                assert forall|k: Seq<u8>| #[trigger] m1.contains_key(k) implies k == cand.key@
                    || exists|i: int| 0 <= i < MAP_SIZE && #[trigger] s1[i] is Some
                    && s1[i]->Some_0.key@ == k by {
                    if k != cand.key@ {
                        if k == c.key@ {
                            assert(s1[idx as int] is Some);
                        } else {
                            let i = choose|i: int| 0 <= i < MAP_SIZE && #[trigger] s[i] is Some
                                && s[i]->Some_0.key@ == k;
                            assert(s1[i] is Some);
                        }
                    }
                }
                assert forall|a: int, d: int|
                    #![trigger s1[a], s1[probe(home(s1[a]->Some_0.hash_mem), d)]]
                    0 <= a < s1.len() && s1[a] is Some && 0 <= d < dist(home(s1[a]->Some_0.hash_mem), a)
                    implies s1[probe(home(s1[a]->Some_0.hash_mem), d)] is Some by {
                    assert(s[a] is Some);
                    lemma_home(s1[a]->Some_0.hash_mem);
                    if a == idx {
                        if s1[idx as int] == Some(c) {
                            assert(s[probe(home(c.hash_mem), d)] is Some);
                        } else {
                            assert(s[probe(home(s[a]->Some_0.hash_mem), d)] is Some);
                        }
                    } else {
                        assert(s[probe(home(s[a]->Some_0.hash_mem), d)] is Some);
                    }
                }
            }
            idx = if idx + 1 == MAP_SIZE {
                0
            } else {
                idx + 1
            };
            proof {
                t = t + 1;
                lemma_home(cand.hash_mem);
                let hc = home(cand.hash_mem);
                assert forall|d: int| 0 <= d < dist(hc, idx as int)
                    implies #[trigger] s1[probe(hc, d)] is Some by {
                    if d < dist(hc, idx as int) - 1 {
                        if s1[idx as int - 1 + if idx == 0 { MAP_SIZE as int } else { 0 }] == Some(c) {
                            assert(s[probe(hc, d)] is Some);
                        } else {
                            assert(s[probe(hc, d)] is Some);
                        }
                    }
                }
            }
        }
        let ghost s = self.content@;
        self.content[idx] = Some(cand);
        self.model = Ghost(m1);
        self.size = self.size + 1;
        proof {
            let s1 = self.content@;
            lemma_count_update(s, idx as int, s1[idx as int]);
            assert(m1.dom() =~= old(self).model@.dom().insert(k0));
            assert forall|i: int| 0 <= i < s1.len() implies (#[trigger] s1[i] matches Some(x) ==> x.hash_mem == fx_hash(x.key@) && x.value.wf()) by {
                if i != idx {
                    assert(s[i] == s1[i]);
                }
            }
            assert forall|a: int, b: int|
                0 <= a < s1.len() && 0 <= b < s1.len() && #[trigger] s1[a] is Some
                    && #[trigger] s1[b] is Some && s1[a]->Some_0.key@ == s1[b]->Some_0.key@
                implies a == b by {
                if a != idx && b != idx {
                    assert(s[a] is Some && s[b] is Some);
                } else if a != idx {
                    assert(s[a] is Some);
                } else if b != idx {
                    assert(s[b] is Some);
                }
            }
            assert forall|i: int| 0 <= i < s1.len() implies (#[trigger] s1[i] matches Some(x) ==> m1.contains_key(x.key@) && m1[x.key@] == x.value) by {
                if i != idx {
                    assert(s[i] == s1[i]);
                }
            }
            assert forall|k: Seq<u8>| #[trigger] m1.contains_key(k) implies exists|i: int|
                0 <= i < s1.len() && #[trigger] s1[i] is Some && s1[i]->Some_0.key@ == k by {
                if k == s1[idx as int]->Some_0.key@ {
                    assert(s1[idx as int] is Some);
                } else {
                    let i = choose|i: int| 0 <= i < MAP_SIZE && #[trigger] s[i] is Some
                        && s[i]->Some_0.key@ == k;
                    assert(s1[i] is Some);
                }
            }
            assert forall|a: int, d: int|
                #![trigger s1[a], s1[probe(home(s1[a]->Some_0.hash_mem), d)]]
                0 <= a < s1.len() && s1[a] is Some && 0 <= d < dist(home(s1[a]->Some_0.hash_mem), a)
                implies s1[probe(home(s1[a]->Some_0.hash_mem), d)] is Some by {
                lemma_home(s1[a]->Some_0.hash_mem);
                if a == idx {
                    assert(s[probe(home(s1[a]->Some_0.hash_mem), d)] is Some);
                } else {
                    assert(s[a] is Some);
                    assert(s[probe(home(s[a]->Some_0.hash_mem), d)] is Some);
                }
            }
        }
        match self.find_slot(lookup_key.as_slice()) {
            Some(i) => {
                proof {
                    self.lemma_slot_of(i as int);
                }
                i
            },
            None => 0,
        }
    }

    /// The slot of `key`, which is placed with empty statistics when it is
    /// not held yet; `None` when it is not held and the table is full.
    pub fn upsert(&mut self, key: &[u8]) -> (r: Option<usize>)
        requires
            old(self).wf(),
        ensures
            final(self).wf(),
            r is None <==> !old(self)@.contains_key(key@) && old(self)@.dom().len() == MAP_SIZE,
            r is None ==> *final(self) == *old(self),
            old(self)@.contains_key(key@) ==> *final(self) == *old(self) && r == Some(
                old(self).slot_of(key@) as usize,
            ),
            !old(self)@.contains_key(key@) && r is Some ==> final(self)@ == old(self)@.insert(
                key@,
                empty_stat(),
            ),
            r matches Some(i) ==> final(self).holds(i as int) && final(self).key_at(i as int)
                == key@ && i as int == final(self).slot_of(key@),
    {
        match self.find_slot(key) {
            Some(i) => {
                proof {
                    self.lemma_slot_of(i as int);
                }
                Some(i)
            },
            None => {
                if self.len() == MAP_SIZE {
                    None
                } else {
                    let owned = vstd::slice::slice_to_vec(key);
                    let i = self.insert(owned, Stat::default());
                    Some(i)
                }
            },
        }
    }

    /// The keys held and their statistics, in slot order.
    pub fn iter(&self) -> (r: Vec<(Vec<u8>, Stat)>)
        requires
            self.wf(),
        ensures
            r@.len() == self@.dom().len(),
            forall|p: int|
                0 <= p < r@.len() ==> self@.contains_key(#[trigger] r@[p].0@) && self@[r@[p].0@]
                    == r@[p].1,
            forall|p: int, q: int|
                0 <= p < r@.len() && 0 <= q < r@.len() && p != q ==> #[trigger] r@[p].0@
                    != #[trigger] r@[q].0@,
            forall|k: Seq<u8>|
                #[trigger] self@.contains_key(k) ==> exists|p: int|
                    0 <= p < r@.len() && #[trigger] r@[p].0@ == k,
    {
        let ghost s = self.content@;
        let mut r: Vec<(Vec<u8>, Stat)> = Vec::new();
        let ghost mut src: Seq<int> = Seq::empty();
        let mut j: usize = 0;
        while j < MAP_SIZE
            invariant
                self.wf(),
                s == self.content@,
                j <= MAP_SIZE,
                r@.len() == src.len(),
                r@.len() == count_some(s.subrange(0, j as int)),
                forall|p: int|
                    0 <= p < src.len() ==> 0 <= #[trigger] src[p] < j && s[src[p]] is Some
                        && r@[p].0@ == s[src[p]]->Some_0.key@ && r@[p].1 == s[src[p]]->Some_0.value,
                forall|p: int, q: int| 0 <= p < q < src.len() ==> #[trigger] src[p] < #[trigger] src[q],
                forall|q: int|
                    0 <= q < j && #[trigger] s[q] is Some ==> exists|p: int|
                        0 <= p < src.len() && #[trigger] src[p] == q,
            decreases MAP_SIZE - j,
        {
            proof {
                assert(s.subrange(0, j + 1).drop_last() =~= s.subrange(0, j as int));
            }
            let ghost src0 = src;
            match &self.content[j] {
                Some(e) => {
                    let k = vstd::slice::slice_to_vec(e.key.as_slice());
                    r.push((k, e.value));
                    proof {
                        src = src.push(j as int);
                        assert(src[src.len() - 1] == j);
                    }
                },
                None => {},
            }
            proof {
                assert forall|q: int| 0 <= q < j + 1 && #[trigger] s[q] is Some implies exists|p: int|
                    0 <= p < src.len() && #[trigger] src[p] == q by {
                    if q == j {
                        assert(src[src.len() - 1] == q);
                    } else {
                        let p = choose|p: int| 0 <= p < src0.len() && #[trigger] src0[p] == q;
                        assert(src[p] == q);
                    }
                }
            }
            j = j + 1;
        }
        proof {
            assert(s.subrange(0, MAP_SIZE as int) =~= s);
            assert forall|p: int| 0 <= p < r@.len() implies self@.contains_key(#[trigger] r@[p].0@)
                && self@[r@[p].0@] == r@[p].1 by {
                assert(s[src[p]] is Some);
            }
            assert forall|p: int, q: int|
                0 <= p < r@.len() && 0 <= q < r@.len() && p != q implies #[trigger] r@[p].0@
                != #[trigger] r@[q].0@ by {
                assert(s[src[p]] is Some && s[src[q]] is Some);
                if p < q {
                    assert(src[p] < src[q]);
                } else {
                    assert(src[q] < src[p]);
                }
            }
            assert forall|k: Seq<u8>| #[trigger] self@.contains_key(k) implies exists|p: int|
                0 <= p < r@.len() && #[trigger] r@[p].0@ == k by {
                let q = choose|q: int| 0 <= q < s.len() && #[trigger] s[q] is Some && s[q]->Some_0.key@ == k;
                let p = choose|p: int| 0 <= p < src.len() && #[trigger] src[p] == q;
                assert(r@[p].0@ == k);
            }
        }
        r
    }

    /// The keys held, in slot order.
    pub fn keys(&self) -> (r: Vec<Vec<u8>>)
        requires
            self.wf(),
        ensures
            r@.len() == self@.dom().len(),
            forall|p: int| 0 <= p < r@.len() ==> self@.contains_key(#[trigger] r@[p]@),
            forall|p: int, q: int|
                0 <= p < r@.len() && 0 <= q < r@.len() && p != q ==> #[trigger] r@[p]@
                    != #[trigger] r@[q]@,
            forall|k: Seq<u8>|
                #[trigger] self@.contains_key(k) ==> exists|p: int|
                    0 <= p < r@.len() && #[trigger] r@[p]@ == k,
    {
        let entries = self.iter();
        let mut r: Vec<Vec<u8>> = Vec::new();
        let mut p: usize = 0;
        while p < entries.len()
            invariant
                p <= entries@.len(),
                r@.len() == p,
                forall|q: int| 0 <= q < p ==> #[trigger] r@[q]@ == entries@[q].0@,
            decreases entries@.len() - p,
        {
            r.push(vstd::slice::slice_to_vec(entries[p].0.as_slice()));
            p = p + 1;
        }
        proof {
            assert forall|k: Seq<u8>| #[trigger] self@.contains_key(k) implies exists|q: int|
                0 <= q < r@.len() && #[trigger] r@[q]@ == k by {
                let q = choose|q: int| 0 <= q < entries@.len() && #[trigger] entries@[q].0@ == k;
                assert(r@[q]@ == k);
            }
            assert forall|a: int| 0 <= a < r@.len() implies self@.contains_key(#[trigger] r@[a]@) by {
                assert(r@[a]@ == entries@[a].0@);
            }
            assert forall|a: int, b: int|
                0 <= a < r@.len() && 0 <= b < r@.len() && a != b implies #[trigger] r@[a]@
                != #[trigger] r@[b]@ by {
                assert(r@[a]@ == entries@[a].0@);
                assert(r@[b]@ == entries@[b].0@);
            }
        }
        r
    }

    /// The statistics of `key`, if it is held.
    pub fn get(&self, key: &[u8]) -> (r: Option<Stat>)
        requires
            self.wf(),
        ensures
            r == (if self@.contains_key(key@) {
                Some(self@[key@])
            } else {
                None
            }),
    {
        match self.find_slot(key) {
            Some(i) => {
                proof {
                    self.lemma_slot_of(i as int);
                }
                match &self.content[i] {
                    Some(e) => Some(e.value),
                    None => None,
                }
            },
            None => None,
        }
    }

    /// The statistics held in slot `i`.
    pub fn value_at(&self, i: usize) -> (r: Stat)
        requires
            self.wf(),
            self.holds(i as int),
        ensures
            r == self@[self.key_at(i as int)],
            r.wf(),
    {
        proof {
            self.lemma_slot_of(i as int);
        }
        match &self.content[i] {
            Some(e) => e.value,
            None => Stat { min: 0, max: 0, sum: 0, count: 0 },
        }
    }

    /// Replaces the statistics held in slot `i`.
    pub fn set_value_at(&mut self, i: usize, v: Stat)
        requires
            old(self).wf(),
            old(self).holds(i as int),
            v.wf(),
        ensures
            final(self).wf(),
            final(self)@ == old(self)@.insert(old(self).key_at(i as int), v),
            forall|j: int| final(self).holds(j) == old(self).holds(j),
            forall|j: int| old(self).holds(j) ==> final(self).key_at(j) == old(self).key_at(j),
    {
        let ghost k = self.key_at(i as int);
        let ghost s0 = self.content@;
        let mut slot: Option<ContentBucket> = None;
        std::mem::swap(&mut self.content[i], &mut slot);
        match slot {
            Some(mut e) => {
                e.value = v;
                self.content[i] = Some(e);
            },
            None => {},
        }
        self.model = Ghost(self.model@.insert(k, v));
        proof {
            let s = self.content@;
            assert(s == s0.update(i as int, s[i as int]));
            assert(s[i as int] is Some);
            lemma_count_update(s0, i as int, s[i as int]);
            assert(self.model@.dom() =~= old(self).model@.dom().insert(k)) ;
            assert(old(self).model@.contains_key(k)) by {
                old(self).lemma_slot_of(i as int);
            }
            assert forall|kk: Seq<u8>| #[trigger] self.model@.contains_key(kk) implies exists|j: int|
                0 <= j < s.len() && #[trigger] s[j] is Some && s[j]->Some_0.key@ == kk by {
                let j = choose|j: int| 0 <= j < s0.len() && #[trigger] s0[j] is Some && s0[j]->Some_0.key@ == kk;
                assert(s[j] is Some);
            }
            assert forall|a: int, b: int| 0 <= a < s.len() && 0 <= b < s.len() && #[trigger] s[a] is Some
                && #[trigger] s[b] is Some && s[a]->Some_0.key@ == s[b]->Some_0.key@ implies a == b by {
                assert(s0[a] is Some && s0[b] is Some);
            }
            assert forall|a: int, d: int|
                #![trigger s[a], s[probe(home(s[a]->Some_0.hash_mem), d)]]
                0 <= a < s.len() && s[a] is Some && 0 <= d < dist(home(s[a]->Some_0.hash_mem), a)
                implies s[probe(home(s[a]->Some_0.hash_mem), d)] is Some by {
                assert(s0[a] is Some);
                assert(s0[probe(home(s0[a]->Some_0.hash_mem), d)] is Some);
            }
        }
    }
}

} // verus!
