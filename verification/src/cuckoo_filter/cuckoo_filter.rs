use vstd::prelude::*;
use vstd::multiset::Multiset;
use std::collections::hash_map::RandomState;
use std::hash::{DefaultHasher, Hash, Hasher};
use crate::cuckoo_filter::{empty_buckets, is_pow2, random_state, zeros};
use crate::cuckoo_filter::fingerprints::{bucket_ms, lemma_bucket_update, lemma_table_slot_update, slot_ms, table_ms};

verus! {

broadcast use vstd::multiset::group_multiset_axioms;

/// fastrand's generator `fastrand::Rng`, carried through opaquely.
#[verifier::external_type_specification]
#[verifier::external_body]
pub struct ExFastRng(fastrand::Rng);

/// `fastrand::Rng::new()`: a generator seeded from the thread's generator;
/// nothing is promised of its state.
#[verifier::external_body]
fn rng_new() -> fastrand::Rng {
    fastrand::Rng::new()
}

/// `fastrand::Rng::bool`: a random boolean; nothing is promised of it.
#[verifier::external_body]
fn rng_bool(rng: &mut fastrand::Rng) -> bool {
    rng.bool()
}

/// `fastrand::Rng::usize(..n)`: a random index below `n`, which is all that
/// is promised of it; fastrand panics on an empty range, so `n` is positive.
#[verifier::external_body]
fn rng_below(rng: &mut fastrand::Rng, n: usize) -> (r: usize)
    requires
        n > 0,
    ensures
        r < n,
{
    rng.usize(..n)
}

/// `BuildHasher::build_hasher` of a `RandomState`: a fresh hasher keyed by
/// the state's random keys; nothing is promised of its state.
#[verifier::external_body]
fn build_hasher(s: &RandomState) -> DefaultHasher {
    std::hash::BuildHasher::build_hasher(s)
}

/// `Hash::hash`: feeds `x` to the hasher. What the hasher's state becomes is
/// not stated: it depends on keys drawn at random for each process.
#[verifier::external_body]
fn hash_into<T: Hash>(x: &T, h: &mut DefaultHasher) {
    x.hash(h)
}

/// `Clone::clone` of a `RandomState`: a builder with the same keys, so its
/// hashers hash as the original's do. Nothing is stated of the keys.
#[verifier::external_body]
fn clone_state(s: &RandomState) -> RandomState {
    s.clone()
}

/// A hash of `x` under the keys of `s`.
fn hash_with<T: Hash>(s: &RandomState, x: &T) -> u64 {
    let mut h = build_hasher(s);
    hash_into(x, &mut h);
    h.finish()
}

/// Draws `n` slot indexes below `b`.
fn draw_slots(rng: &mut fastrand::Rng, n: usize, b: usize) -> (v: Vec<usize>)
    requires
        b > 0,
    ensures
        v@.len() == n,
        forall|k: int| 0 <= k < n ==> #[trigger] v@[k] < b,
{
    let mut v: Vec<usize> = Vec::new();
    let mut k: usize = 0;
    while k < n
        invariant
            b > 0,
            k <= n,
            v@.len() == k,
            forall|j: int| 0 <= j < k ==> #[trigger] v@[j] < b,
        decreases n - k,
    {
        let s = rng_below(rng, b);
        v.push(s);
        k = k + 1;
    }
    v
}

/// `f` hashes every fingerprint as `g` does.
pub open spec fn hashes_by<G: Fn(u16) -> u64>(f: G, g: spec_fn(u16) -> u64) -> bool {
    forall|t: u16, r: u64| call_ensures(f, (t,), r) ==> r == g(t)
}

/// The eviction rounds of an insert from round `k` on, over the slots `t`,
/// with `tag` on its way into bucket `idx` and `g` the fingerprints' hash:
/// `tag` takes slot `slots[k]` of `idx`; the fingerprint it pushes out goes
/// to its other bucket, into the first empty slot there, or, with none empty,
/// on into the next round. After the last round the insert fails, and the
/// fingerprint still on its way is lost. Gives the slots and the outcome.
pub open spec fn kick_run(
    t: Seq<Seq<u16>>,
    mask: usize,
    idx: usize,
    tag: u16,
    slots: Seq<usize>,
    k: nat,
    g: spec_fn(u16) -> u64,
) -> (Seq<Seq<u16>>, bool)
    decreases slots.len() - k,
{
    if k >= slots.len() {
        (t, false)
    } else {
        let s = slots[k as int] as int;
        let e = t[idx as int][s];
        let t1 = t.update(idx as int, t[idx as int].update(s, tag));
        let idx2 = alt_of(idx, g(e), mask);
        if t1[idx2 as int].contains(0) {
            (t1.update(idx2 as int, t1[idx2 as int].update(first_slot(t1[idx2 as int], 0), e)), true)
        } else {
            kick_run(t1, mask, idx2, e, slots, k + 1, g)
        }
    }
}

/// A cuckoo filter of `array_size` buckets, each of `B` fingerprint slots;
/// fingerprints keep `F` bits of an item's hash and 0 marks an empty slot.
pub struct CuckooFilter<const B: usize, const F: usize> {
    hasher: RandomState,
    array_size: usize,
    bucket_1: Vec<usize>,
    bucket_2: Vec<usize>,
    mask: usize,
    build: RandomState,
    max_kicks: usize,
    buckets: Vec<[u16; B]>,
}

/// The fingerprint of a hash: its low `F` bits, with 0 turned into 1.
pub open spec fn fingerprint_of(h: u64, f: usize) -> u16 {
    let t = (h & (((1u64 << f) - 1) as u64)) as u16;
    if t == 0 {
        1
    } else {
        t
    }
}

/// The other bucket of a fingerprint in bucket `i1`, whose own hash is `ht`.
pub open spec fn alt_of(i1: usize, ht: u64, mask: usize) -> usize {
    (i1 ^ (ht as usize)) & mask
}

impl<const B: usize, const F: usize> CuckooFilter<B, F> {
    /// The buckets' slots.
    pub closed spec fn table(&self) -> Seq<Seq<u16>> {
        self.buckets@.map_values(|b: [u16; B]| b@)
    }

    /// The number of buckets, minus one (a power of two minus one).
    pub closed spec fn spec_mask(&self) -> usize {
        self.mask
    }

    /// The fingerprints the filter holds.
    pub open spec fn fingerprints(&self) -> Multiset<u16> {
        table_ms(self.table())
    }

    /// The filter's shape: `mask + 1` buckets of `B` slots.
    pub closed spec fn wf(&self) -> bool {
        &&& self.buckets@.len() == self.mask + 1
        &&& self.array_size == self.mask + 1
        &&& is_pow2(self.array_size)
        &&& self.max_kicks == 500
    }

    /// Whether bucket `i` holds fingerprint `tag`.
    pub open spec fn bucket_has(&self, i: int, tag: u16) -> bool {
        self.table()[i].contains(tag)
    }

    /// A filter of `size` empty buckets (`size` must be a power of two)
    /// that gives up an insert after 500 evictions.
    pub fn new(size: usize) -> (f: Self)
        requires
            is_pow2(size),
        ensures
            f.wf(),
            f.spec_mask() == size - 1,
            f.table() == Seq::new(size as nat, |i: int| Seq::new(B as nat, |s: int| 0u16)),
            f.fingerprints() == Multiset::<u16>::empty(),
    {
        let buckets = empty_buckets::<B>(size);
        let f = CuckooFilter {
            hasher: random_state(),
            build: random_state(),
            array_size: size,
            bucket_1: zeros(size),
            bucket_2: zeros(size),
            buckets,
            mask: size - 1,
            max_kicks: 500,
        };
        proof {
            assert forall|i: int| 0 <= i < size implies #[trigger] f.table()[i] == Seq::new(B as nat, |s: int| 0u16) by {
                assert(f.table()[i] =~= Seq::new(B as nat, |s: int| 0u16));
            }
            assert(f.table() =~= Seq::new(size as nat, |i: int| Seq::new(B as nat, |s: int| 0u16)));
            crate::cuckoo_filter::fingerprints::lemma_zero_table(f.table());
        }
        f
    }

    /// A hash of `x` under the filter's keys.
    fn hash_u64<T: Hash>(&self, x: &T) -> u64 {
        hash_with(&self.build, x)
    }

    /// The low `F` bits of `h`, never 0 (0 marks an empty slot).
    fn fingerprint_u16(&self, h: u64) -> (tag: u16)
        requires
            F < 64,
        ensures
            tag == fingerprint_of(h, F),
            tag != 0,
    {
        let fb: usize = F;
        let top: u64 = 1u64 << fb;
        assert(top >= 1) by (bit_vector)
            requires
                fb < 64,
                top == 1u64 << fb;
        let tag = #[verifier::truncate] ((h & (top - 1)) as u16);
        if tag == 0 {
            1
        } else {
            tag
        }
    }

    /// The other bucket of `tag` when it sits in bucket `i1`: `i1` xor the
    /// hash of `tag`, masked.
    fn alt_index(&self, i1: usize, tag: u16) -> (i2: usize)
        requires
            self.wf(),
        ensures
            i2 <= self.spec_mask(),
            exists|ht: u64| i2 == #[trigger] alt_of(i1, ht, self.spec_mask()),
    {
        let h = self.hash_u64(&tag);
        self.other_index(i1, h)
    }

    /// The bucket of a hash.
    fn home_index(&self, h: u64) -> (i: usize)
        requires
            self.wf(),
        ensures
            i == (h as usize) & self.spec_mask(),
            i <= self.spec_mask(),
    {
        let m = self.mask;
        let r = (h as usize) & m;
        assert(r <= m) by (bit_vector)
            requires
                r == (h as usize) & m;
        r
    }

    /// The first slot of bucket `i` that holds `tag`.
    fn find_slot(&self, i: usize, tag: u16) -> (r: Option<usize>)
        requires
            self.wf(),
            i <= self.spec_mask(),
        ensures
            match r {
                Some(s) => s < B && self.table()[i as int][s as int] == tag
                    && forall|k: int| 0 <= k < s ==> self.table()[i as int][k] != tag,
                None => !self.table()[i as int].contains(tag),
            },
    {
        let b = self.buckets[i];
        let mut s: usize = 0;
        while s < B
            invariant
                s <= B,
                b@ == self.table()[i as int],
                b@.len() == B,
                forall|k: int| 0 <= k < s ==> b@[k] != tag,
            decreases B - s,
        {
            if b[s] == tag {
                return Some(s);
            }
            s = s + 1;
        }
        None
    }

    /// Writes `x` into slot `s` of bucket `i`.
    fn set_slot(&mut self, i: usize, s: usize, x: u16)
        requires
            old(self).wf(),
            i <= old(self).spec_mask(),
            s < B,
        ensures
            final(self).wf(),
            final(self).spec_mask() == old(self).spec_mask(),
            final(self).table() == old(self).table().update(i as int, old(self).table()[i as int].update(s as int, x)),
            final(self).fingerprints().add(slot_ms(old(self).table()[i as int][s as int])) == old(self).fingerprints().add(slot_ms(x)),
    {
        let ghost t = self.table();
        let mut b = self.buckets[i];
        b[s] = x;
        self.buckets.set(i, b);
        proof {
            assert(self.table() =~= t.update(i as int, t[i as int].update(s as int, x)));
            lemma_table_slot_update(t, i as int, s as int, x);
        }
    }

    /// Whether the filter holds the item whose hash is `h`, where `ht` is the
    /// hash of its fingerprint: the fingerprint sits in the item's bucket or
    /// in its other bucket.
    pub open spec fn holds(&self, h: u64, ht: u64) -> bool {
        let tag = fingerprint_of(h, F);
        let i1 = (h as usize) & self.spec_mask();
        self.bucket_has(i1 as int, tag) || self.bucket_has(alt_of(i1, ht, self.spec_mask()) as int, tag)
    }

    /// Whether the item with hash `h` finds an empty slot in its bucket or its
    /// other bucket (`ht`: the hash of its fingerprint).
    pub open spec fn has_room(&self, h: u64, ht: u64) -> bool {
        let i1 = (h as usize) & self.spec_mask();
        self.bucket_has(i1 as int, 0) || self.bucket_has(alt_of(i1, ht, self.spec_mask()) as int, 0)
    }

    /// Whether the fingerprint of an item with hash `h` sits in its bucket or
    /// in its other bucket, where `ht` is the hash of the fingerprint.
    pub fn contains_hashed(&self, h: u64, ht: u64) -> (r: bool)
        requires
            self.wf(),
            F < 64,
        ensures
            r == self.holds(h, ht),
    {
        let tag = self.fingerprint_u16(h);
        let i1 = self.home_index(h);
        let i2 = self.other_index(i1, ht);
        self.find_slot(i1, tag).is_some() || self.find_slot(i2, tag).is_some()
    }

    /// The other bucket of bucket `i1` for a fingerprint whose hash is `ht`.
    fn other_index(&self, i1: usize, ht: u64) -> (i2: usize)
        requires
            self.wf(),
        ensures
            i2 == alt_of(i1, ht, self.spec_mask()),
            i2 <= self.spec_mask(),
    {
        let m = self.mask;
        let i2 = (i1 ^ (ht as usize)) & m;
        assert(i2 <= m) by (bit_vector)
            requires
                i2 == (i1 ^ (ht as usize)) & m;
        i2
    }

    /// Whether the filter may hold `item`: its fingerprint sits in one of its
    /// two buckets, for the hashes that the filter's keys give it.
    pub fn contains<T: Hash>(&self, item: &T) -> (r: bool)
        requires
            self.wf(),
            F < 64,
        ensures
            exists|h: u64, ht: u64| r == #[trigger] self.holds(h, ht),
            r ==> exists|t: u16| t != 0 && self.fingerprints().count(t) > 0,
    {
        let h = self.hash_u64(item);
        let tag = self.fingerprint_u16(h);
        let ht = self.hash_u64(&tag);
        let r = self.contains_hashed(h, ht);
        proof {
            if r {
                lemma_holds_counts(self, h, ht);
            }
        }
        r
    }

    /// Removes one copy of the fingerprint of an item with hash `h` from its
    /// bucket, else from its other bucket (`ht`: the fingerprint's hash).
    pub fn delete_hashed(&mut self, h: u64, ht: u64) -> (r: bool)
        requires
            old(self).wf(),
            F < 64,
        ensures
            final(self).wf(),
            remove_outcome(*old(self), *final(self), h, ht, r),
    {
        let tag = self.fingerprint_u16(h);
        let i1 = self.home_index(h);
        let i2 = self.other_index(i1, ht);
        self.delete_at(tag, i1, i2)
    }

    fn delete_at(&mut self, tag: u16, i1: usize, i2: usize) -> (r: bool)
        requires
            old(self).wf(),
            tag != 0,
            i1 <= old(self).spec_mask(),
            i2 <= old(self).spec_mask(),
        ensures
            final(self).wf(),
            final(self).spec_mask() == old(self).spec_mask(),
            r == (old(self).bucket_has(i1 as int, tag) || old(self).bucket_has(i2 as int, tag)),
            r ==> final(self).fingerprints().insert(tag) == old(self).fingerprints(),
            !r ==> final(self).table() == old(self).table(),
    {
        if let Some(s) = self.find_slot(i1, tag) {
            self.set_slot(i1, s, 0);
            return true;
        }
        if let Some(s) = self.find_slot(i2, tag) {
            self.set_slot(i2, s, 0);
            return true;
        }
        false
    }

    /// Removes one copy of `item`'s fingerprint from its bucket or its other
    /// bucket, if either holds it.
    pub fn delete<T: Hash>(&mut self, item: &T) -> (r: bool)
        requires
            old(self).wf(),
            F < 64,
        ensures
            final(self).wf(),
            exists|h: u64, ht: u64| #[trigger] remove_outcome(*old(self), *final(self), h, ht, r),
    {
        let h = self.hash_u64(item);
        let tag = self.fingerprint_u16(h);
        let ht = self.hash_u64(&tag);
        let r = self.delete_hashed(h, ht);
        r
    }

    /// The first empty slot of bucket `i`.
    fn empty_slot(&self, i: usize) -> (r: Option<usize>)
        requires
            self.wf(),
            i <= self.spec_mask(),
        ensures
            match r {
                Some(s) => s < B && self.table()[i as int][s as int] == 0
                    && forall|k: int| 0 <= k < s ==> self.table()[i as int][k] != 0,
                None => !self.table()[i as int].contains(0),
            },
    {
        self.find_slot(i, 0)
    }

    /// The first step of an insert: the fingerprint of the item with hash `h`
    /// goes into the first empty slot of its bucket, else of its other bucket
    /// (`ht`: the fingerprint's hash); with neither empty, nothing changes.
    pub fn place_hashed(&mut self, h: u64, ht: u64) -> (r: bool)
        requires
            old(self).wf(),
            F < 64,
        ensures
            final(self).wf(),
            place_outcome(*old(self), *final(self), h, ht, r),
            r ==> final(self).fingerprints() == old(self).fingerprints().insert(fingerprint_of(h, F)),
            r ==> final(self).holds(h, ht),
    {
        let tag = self.fingerprint_u16(h);
        let i = self.home_index(h);
        let j = self.other_index(i, ht);
        let ghost t = self.table();
        let ghost ms0 = self.fingerprints();
        if let Some(s) = self.empty_slot(i) {
            proof {
                lemma_first_slot(t[i as int], 0, s as int);
            }
            self.set_slot(i, s, tag);
            assert(self.table()[i as int][s as int] == tag);
            assert(self.fingerprints() =~= ms0.insert(tag));
            return true;
        }
        if let Some(s) = self.empty_slot(j) {
            proof {
                lemma_first_slot(t[j as int], 0, s as int);
            }
            self.set_slot(j, s, tag);
            assert(self.table()[j as int][s as int] == tag);
            assert(self.fingerprints() =~= ms0.insert(tag));
            return true;
        }
        false
    }

    /// Adds the fingerprint of the item with hash `h` (`ht`: the hash of the
    /// fingerprint): first into an empty slot of its bucket or its other
    /// bucket; else, starting at its bucket when `start_home` holds and at its
    /// other bucket otherwise, by eviction rounds, round `k` using slot
    /// `slots[k]` and `tag_hash` to hash each evicted fingerprint. It gives up
    /// after 500 rounds, losing the last evicted fingerprint.
    pub fn insert_hashed<G: Fn(u16) -> u64>(
        &mut self,
        h: u64,
        ht: u64,
        start_home: bool,
        slots: &Vec<usize>,
        tag_hash: &G,
    ) -> (r: bool)
        requires
            old(self).wf(),
            F < 64,
            B > 0,
            slots@.len() == 500,
            forall|k: int| 0 <= k < slots@.len() ==> #[trigger] slots@[k] < B,
            forall|t: u16| call_requires(*tag_hash, (t,)),
        ensures
            final(self).wf(),
            exists|u: u16| #[trigger] insert_outcome(*old(self), *final(self), h, ht, u, r),
            old(self).has_room(h, ht) ==> place_outcome(*old(self), *final(self), h, ht, r),
            !old(self).has_room(h, ht) ==> forall|g: spec_fn(u16) -> u64| #[trigger] hashes_by(*tag_hash, g) ==> (final(self).table(), r)
                == kick_run(old(self).table(), old(self).spec_mask(),
                    if start_home { (h as usize) & old(self).spec_mask() } else { alt_of((h as usize) & old(self).spec_mask(), ht, old(self).spec_mask()) },
                    fingerprint_of(h, F), slots@, 0, g),
    {
        let ghost old_f = *self;
        let ghost ms0 = self.fingerprints();
        let mut tag = self.fingerprint_u16(h);
        let ghost tag0 = tag;
        let i = self.home_index(h);
        let j = self.other_index(i, ht);
        if self.place_hashed(h, ht) {
            assert(self.fingerprints().add(slot_ms(0u16)) =~= self.fingerprints());
            assert(insert_outcome(old_f, *self, h, ht, 0u16, true));
            return true;
        }
        let mut idx = if start_home { i } else { j };
        let ghost idx0 = idx;
        let ghost m = self.spec_mask();
        let ghost t0 = self.table();
        let mut k: usize = 0;
        assert(self.fingerprints().add(slot_ms(tag)) =~= ms0.insert(tag0));
        while k < self.max_kicks
            invariant
                self.wf(),
                idx <= self.spec_mask(),
                tag0 != 0,
                tag0 == fingerprint_of(h, F),
                B > 0,
                k <= 500,
                slots@.len() == 500,
                forall|q: int| 0 <= q < slots@.len() ==> #[trigger] slots@[q] < B,
                forall|t: u16| call_requires(*tag_hash, (t,)),
                !old_f.has_room(h, ht),
                ms0 == old_f.fingerprints(),
                old_f == *old(self),
                m == old_f.spec_mask(),
                t0 == old_f.table(),
                idx0 == (if start_home { (h as usize) & m } else { alt_of((h as usize) & m, ht, m) }),
                self.spec_mask() == m,
                self.fingerprints().add(slot_ms(tag)) == ms0.insert(tag0),
                forall|g: spec_fn(u16) -> u64| #[trigger] hashes_by(*tag_hash, g) ==> kick_run(self.table(), m, idx, tag, slots@, k as nat, g)
                    == kick_run(t0, m, idx0, tag0, slots@, 0, g),
            decreases self.max_kicks - k,
        {
            let slot_idx = slots[k];
            let held = tag;
            let ghost before = self.fingerprints();
            let ghost tb = self.table();
            let ghost idx_b = idx;
            tag = self.table_slot(idx, slot_idx);
            self.set_slot(idx, slot_idx, held);
            assert(self.fingerprints().add(slot_ms(tag)) == before.add(slot_ms(held)));
            let he = tag_hash(tag);
            idx = self.other_index(idx, he);
            let ghost t1 = self.table();
            proof {
                assert forall|g: spec_fn(u16) -> u64| #[trigger] hashes_by(*tag_hash, g) implies
                    kick_run(tb, m, idx_b, held, slots@, k as nat, g) == (if t1[idx as int].contains(0) {
                        (t1.update(idx as int, t1[idx as int].update(first_slot(t1[idx as int], 0), tag)), true)
                    } else {
                        kick_run(t1, m, idx, tag, slots@, (k + 1) as nat, g)
                    }) by {
                    assert(he == g(tag));
                }
            }
            if let Some(s) = self.empty_slot(idx) {
                proof {
                    lemma_first_slot(t1[idx as int], 0, s as int);
                }
                self.set_slot(idx, s, tag);
                proof {
                    assert(t1[idx as int].contains(0)) by {
                        assert(t1[idx as int][s as int] == 0);
                    }
                    assert forall|g: spec_fn(u16) -> u64| #[trigger] hashes_by(*tag_hash, g) implies (self.table(), true)
                        == kick_run(t0, m, idx0, tag0, slots@, 0, g) by {
                        assert(kick_run(tb, m, idx_b, held, slots@, k as nat, g) == kick_run(t0, m, idx0, tag0, slots@, 0, g));
                    }
                }
                assert(self.fingerprints().add(slot_ms(0u16)) == ms0.insert(tag0));
                assert(old_f.fingerprints().insert(fingerprint_of(h, F)) == ms0.insert(tag0));
                assert(insert_outcome(old_f, *self, h, ht, 0u16, true));
                return true;
            }
            k = k + 1;
        }
        assert(old_f.fingerprints().insert(fingerprint_of(h, F)) == ms0.insert(tag0));
        assert(insert_outcome(old_f, *self, h, ht, tag, false));
        false
    }

    /// Adds `item`'s fingerprint: into an empty slot of its bucket or its
    /// other bucket, else by evicting fingerprints to their other buckets, up
    /// to 500 times. On success the filter holds one fingerprint more. After
    /// 500 evictions it gives up: the fingerprint is in, and the last evicted
    /// one is lost.
    pub fn insert<T: Hash>(&mut self, item: &T) -> (r: bool)
        requires
            old(self).wf(),
            F < 64,
            B > 0,
        ensures
            final(self).wf(),
            exists|h: u64, ht: u64, u: u16| #[trigger] insert_outcome(*old(self), *final(self), h, ht, u, r),
    {
        let h = self.hash_u64(item);
        let tag = self.fingerprint_u16(h);
        let ht = self.hash_u64(&tag);
        let i = self.home_index(h);
        let j = self.other_index(i, ht);
        let ghost old_f = *self;
        if self.place_hashed(h, ht) {
            assert(self.fingerprints().add(slot_ms(0u16)) =~= self.fingerprints());
            assert(insert_outcome(old_f, *self, h, ht, 0u16, true));
            return true;
        }
        let ghost mid = *self;
        let mut rng = rng_new();
        let start_home = rng_bool(&mut rng);
        let slots = draw_slots(&mut rng, 500, B);
        let st = clone_state(&self.build);
        let tag_hash = |t: u16| -> u64 { hash_with(&st, &t) };
        let r = self.insert_hashed(h, ht, start_home, &slots, &tag_hash);
        proof {
            let u = choose|u: u16| #[trigger] insert_outcome(mid, *self, h, ht, u, r);
            assert(insert_outcome(mid, *self, h, ht, u, r));
            assert(mid.table() == old_f.table());
            assert(mid.fingerprints() == old_f.fingerprints());
            assert(mid.has_room(h, ht) == old_f.has_room(h, ht));
            assert(insert_outcome(old_f, *self, h, ht, u, r));
        }
        r
    }

    fn table_slot(&self, i: usize, s: usize) -> (x: u16)
        requires
            self.wf(),
            i <= self.spec_mask(),
            s < B,
        ensures
            x == self.table()[i as int][s as int],
    {
        self.buckets[i][s]
    }
}

/// The first slot of `b` that holds `x`.
pub open spec fn first_slot(b: Seq<u16>, x: u16) -> int {
    choose|s: int| 0 <= s < b.len() && b[s] == x && forall|k: int| 0 <= k < s ==> b[k] != x
}

proof fn lemma_first_slot(b: Seq<u16>, x: u16, s: int)
    requires
        0 <= s < b.len(),
        b[s] == x,
        forall|k: int| 0 <= k < s ==> b[k] != x,
    ensures
        first_slot(b, x) == s,
{
    let c = first_slot(b, x);
    assert(0 <= c < b.len() && b[c] == x && forall|k: int| 0 <= k < c ==> b[k] != x);
}

/// A bucket holding `x` has a first slot holding it.
proof fn lemma_first_slot_exists(b: Seq<u16>, x: u16, s: int)
    requires
        0 <= s < b.len(),
        b[s] == x,
    ensures
        0 <= first_slot(b, x) < b.len(),
        b[first_slot(b, x)] == x,
        forall|k: int| 0 <= k < first_slot(b, x) ==> b[k] != x,
    decreases s,
{
    if exists|k: int| 0 <= k < s && b[k] == x {
        let k = choose|k: int| 0 <= k < s && b[k] == x;
        lemma_first_slot_exists(b, x, k);
    } else {
        lemma_first_slot(b, x, s);
    }
}

/// What the first step of an insert does to the filter: the fingerprint of
/// the item with hash `h` fills the first empty slot of its bucket, else of
/// its other bucket; with neither empty nothing changes.
pub open spec fn place_outcome<const B: usize, const F: usize>(
    before: CuckooFilter<B, F>,
    after: CuckooFilter<B, F>,
    h: u64,
    ht: u64,
    r: bool,
) -> bool {
    let t = before.table();
    let m = before.spec_mask();
    let i1 = (h as usize) & m;
    let i2 = alt_of(i1, ht, m);
    let i = if t[i1 as int].contains(0) { i1 as int } else { i2 as int };
    &&& after.spec_mask() == m
    &&& r == before.has_room(h, ht)
    &&& r ==> after.table() == t.update(i, t[i].update(first_slot(t[i], 0), fingerprint_of(h, F)))
    &&& !r ==> after.table() == t
}

/// What a delete does to the filter: it reports whether the item with hash
/// `h` was held, and then one copy of its fingerprint is gone; else nothing
/// changes.
pub open spec fn remove_outcome<const B: usize, const F: usize>(
    before: CuckooFilter<B, F>,
    after: CuckooFilter<B, F>,
    h: u64,
    ht: u64,
    r: bool,
) -> bool {
    &&& after.spec_mask() == before.spec_mask()
    &&& r == before.holds(h, ht)
    &&& r ==> after.fingerprints().insert(fingerprint_of(h, F)) == before.fingerprints()
    &&& !r ==> after.table() == before.table()
}

/// What an insert does to the filter's fingerprints: the item's fingerprint
/// comes in and at most one other, `u`, is lost; nothing is lost on success,
/// and an item with room in one of its buckets always gets in and is held.
pub open spec fn insert_outcome<const B: usize, const F: usize>(
    before: CuckooFilter<B, F>,
    after: CuckooFilter<B, F>,
    h: u64,
    ht: u64,
    u: u16,
    r: bool,
) -> bool {
    &&& after.spec_mask() == before.spec_mask()
    &&& after.fingerprints().add(slot_ms(u)) == before.fingerprints().insert(fingerprint_of(h, F))
    &&& r ==> u == 0
    &&& before.has_room(h, ht) ==> r && after.holds(h, ht)
}

/// A filter holds an item only while it holds a copy of the item's
/// fingerprint; so a filter with no fingerprints holds nothing.
pub proof fn lemma_holds_counts<const B: usize, const F: usize>(f: &CuckooFilter<B, F>, h: u64, ht: u64)
    requires
        f.wf(),
        f.holds(h, ht),
    ensures
        f.fingerprints().count(fingerprint_of(h, F)) > 0,
{
    let m = f.spec_mask();
    let i1 = (h as usize) & m;
    let i2 = alt_of(i1, ht, m);
    assert(i1 <= m) by (bit_vector)
        requires
            i1 == (h as usize) & m;
    assert(i2 <= m) by (bit_vector)
        requires
            i2 == (i1 ^ (ht as usize)) & m;
    let tag = fingerprint_of(h, F);
    let t = f.table();
    let i = if f.bucket_has(i1 as int, tag) { i1 as int } else { i2 as int };
    let s = choose|s: int| 0 <= s < t[i].len() && t[i][s] == tag;
    lemma_table_slot_update(t, i, s, 0);
    assert(table_ms(t.update(i, t[i].update(s, 0))).add(slot_ms(tag)).count(tag) > 0);
}

/// A fingerprint's other bucket, taken twice, is the bucket it started in:
/// `alt(alt(i)) == i` for every bucket `i` of the filter.
pub proof fn lemma_alt_back<const B: usize, const F: usize>(f: &CuckooFilter<B, F>, i: usize, ht: u64)
    requires
        f.wf(),
        i <= f.spec_mask(),
    ensures
        alt_of(alt_of(i, ht, f.spec_mask()), ht, f.spec_mask()) == i,
{
    let m = f.spec_mask();
    let n = (m + 1) as usize;
    assert(is_pow2(n));
    let x = ht as usize;
    assert(((((i ^ x) & m) ^ x) & m) == i) by (bit_vector)
        requires
            n > 0,
            n & ((n - 1) as usize) == 0,
            m == n - 1,
            i <= m;
}

/// What goes in comes out: after the first step of an insert puts the
/// item's fingerprint in, a delete of the same item finds it, and the filter
/// holds the fingerprints it held before the insert.
pub proof fn lemma_place_then_delete<const B: usize, const F: usize>(
    a: CuckooFilter<B, F>,
    b: CuckooFilter<B, F>,
    c: CuckooFilter<B, F>,
    h: u64,
    ht: u64,
    r: bool,
)
    requires
        a.wf(),
        place_outcome(a, b, h, ht, true),
        b.fingerprints() == a.fingerprints().insert(fingerprint_of(h, F)),
        b.holds(h, ht),
        remove_outcome(b, c, h, ht, r),
    ensures
        r,
        c.fingerprints() == a.fingerprints(),
{
    let tag = fingerprint_of(h, F);
    assert(c.fingerprints().insert(tag) == a.fingerprints().insert(tag));
    assert forall|x: u16| c.fingerprints().count(x) == a.fingerprints().count(x) by {
        assert(c.fingerprints().insert(tag).count(x) == a.fingerprints().insert(tag).count(x));
    }
    assert(c.fingerprints() =~= a.fingerprints());
}

/// The filter's shape, as callers may rely on it: `mask + 1` buckets, a power
/// of two, each of `B` slots.
pub proof fn lemma_table_shape<const B: usize, const F: usize>(f: &CuckooFilter<B, F>)
    requires
        f.wf(),
    ensures
        f.table().len() == f.spec_mask() + 1,
        f.spec_mask() < usize::MAX,
        is_pow2((f.spec_mask() + 1) as usize),
        forall|i: int| 0 <= i < f.table().len() ==> #[trigger] f.table()[i].len() == B,
{
}

/// Going to the other bucket twice, with the same fingerprint hash, comes
/// back: for `m + 1` a power of two and `i <= m`.
pub proof fn lemma_alt_involution(i: usize, x: u64, m: usize)
    requires
        m < usize::MAX,
        is_pow2((m + 1) as usize),
        i <= m,
    ensures
        alt_of(i, x, m) <= m,
        alt_of(alt_of(i, x, m), x, m) == i,
{
    let n = (m + 1) as usize;
    let y = x as usize;
    assert(((((i ^ y) & m) ^ y) & m) == i && ((i ^ y) & m) <= m) by (bit_vector)
        requires
            n > 0,
            n & ((n - 1) as usize) == 0,
            m == n - 1,
            i <= m;
}

/// A fingerprint other than 0 sits in a bucket exactly when the bucket's
/// multiset counts it.
proof fn lemma_bucket_count(b: Seq<u16>, t: u16)
    requires
        t != 0,
    ensures
        b.contains(t) <==> bucket_ms(b).count(t) > 0,
    decreases b.len(),
{
    if b.len() > 0 {
        lemma_bucket_count(b.drop_last(), t);
        if b.drop_last().contains(t) {
            let j = choose|j: int| 0 <= j < b.drop_last().len() && b.drop_last()[j] == t;
            assert(b[j] == t);
        }
        if b.contains(t) && b.last() != t {
            let j = choose|j: int| 0 <= j < b.len() && b[j] == t;
            assert(b.drop_last()[j] == t);
        }
        if b.last() == t {
            assert(b[b.len() - 1] == t);
        }
    }
}

/// How many copies of `t` the buckets `a` and `b` hold together (one bucket
/// counted once when `a == b`).
pub open spec fn pair_count(tb: Seq<Seq<u16>>, a: int, b: int, t: u16) -> nat {
    if a == b {
        bucket_ms(tb[a]).count(t)
    } else {
        bucket_ms(tb[a]).count(t) + bucket_ms(tb[b]).count(t)
    }
}

/// The copies of `t` in the buckets `a` and `b`, counting the fingerprint on
/// its way into bucket `idx`.
pub open spec fn pair_total(tb: Seq<Seq<u16>>, a: int, b: int, t: u16, idx: int, held: u16) -> nat {
    pair_count(tb, a, b, t) + if held == t && (idx == a || idx == b) { 1nat } else { 0nat }
}

/// Writing `x` into slot `s` of bucket `i` trades that slot's copy of `t`
/// for `x`'s, in the pair count of any two buckets.
proof fn lemma_pair_update(tb: Seq<Seq<u16>>, i: int, s: int, x: u16, a: int, b: int, t: u16)
    requires
        0 <= i < tb.len(),
        0 <= s < tb[i].len(),
        0 <= a < tb.len(),
        0 <= b < tb.len(),
        t != 0,
    ensures
        pair_count(tb.update(i, tb[i].update(s, x)), a, b, t) + (if tb[i][s] == t && (i == a || i == b) { 1nat } else { 0nat })
            == pair_count(tb, a, b, t) + (if x == t && (i == a || i == b) { 1nat } else { 0nat }),
{
    let nb = tb[i].update(s, x);
    lemma_bucket_update(tb[i], s, x);
    assert(bucket_ms(nb).add(slot_ms(tb[i][s])).count(t) == bucket_ms(tb[i]).add(slot_ms(x)).count(t));
    let t2 = tb.update(i, nb);
    assert(t2[i] == nb);
    if a != i {
        assert(t2[a] == tb[a]);
    }
    if b != i {
        assert(t2[b] == tb[b]);
    }
}

/// The slots an insert works on: `m + 1` buckets of `B` slots, `m + 1` a
/// power of two.
pub open spec fn table_shaped(tb: Seq<Seq<u16>>, m: usize, bsize: usize) -> bool {
    &&& m < usize::MAX
    &&& is_pow2((m + 1) as usize)
    &&& tb.len() == m + 1
    &&& forall|i: int| 0 <= i < tb.len() ==> #[trigger] tb[i].len() == bsize
}

/// Eviction rounds move fingerprints only between their two buckets: for a
/// fingerprint `t` whose buckets are `a` and `b == alt(a)`, the copies of `t`
/// there, with the one on its way, never drop while the rounds go on, and a
/// successful end places the one on its way.
proof fn lemma_kick_keeps(
    tb: Seq<Seq<u16>>,
    m: usize,
    bsize: usize,
    idx: usize,
    held: u16,
    slots: Seq<usize>,
    k: nat,
    g: spec_fn(u16) -> u64,
    a: usize,
    t: u16,
)
    requires
        table_shaped(tb, m, bsize),
        idx <= m,
        a <= m,
        t != 0,
        forall|q: int| 0 <= q < slots.len() ==> #[trigger] slots[q] < bsize,
    ensures
        table_shaped(kick_run(tb, m, idx, held, slots, k, g).0, m, bsize),
        kick_run(tb, m, idx, held, slots, k, g).1 ==> pair_count(kick_run(tb, m, idx, held, slots, k, g).0, a as int, alt_of(a, g(t), m) as int, t)
            >= pair_total(tb, a as int, alt_of(a, g(t), m) as int, t, idx as int, held),
    decreases slots.len() - k,
{
    lemma_alt_involution(a, g(t), m);
    let b = alt_of(a, g(t), m);
    if k < slots.len() {
        let s = slots[k as int] as int;
        let e = tb[idx as int][s];
        let t1 = tb.update(idx as int, tb[idx as int].update(s, held));
        let idx2 = alt_of(idx, g(e), m);
        lemma_alt_involution(idx, g(e), m);
        lemma_pair_update(tb, idx as int, s, held, a as int, b as int, t);
        assert(table_shaped(t1, m, bsize)) by {
            assert forall|i: int| 0 <= i < t1.len() implies #[trigger] t1[i].len() == bsize by {
                if i != idx {
                    assert(t1[i] == tb[i]);
                }
            }
        }
        if e == t {
            if idx == a {
                assert(idx2 == b);
            } else if idx == b {
                assert(idx2 == a);
            } else {
                if idx2 == a {
                    assert(alt_of(idx2, g(t), m) == idx);
                }
                if idx2 == b {
                    lemma_alt_involution(idx2, g(t), m);
                    assert(alt_of(b, g(t), m) == a);
                }
            }
        }
        assert(pair_total(t1, a as int, b as int, t, idx2 as int, e) == pair_total(tb, a as int, b as int, t, idx as int, held));
        if t1[idx2 as int].contains(0) {
            let fs = first_slot(t1[idx2 as int], 0);
            let c = choose|q: int| 0 <= q < t1[idx2 as int].len() && t1[idx2 as int][q] == 0;
            lemma_first_slot_exists(t1[idx2 as int], 0, c);
            lemma_pair_update(t1, idx2 as int, fs, e, a as int, b as int, t);
            let t2 = t1.update(idx2 as int, t1[idx2 as int].update(fs, e));
            assert(table_shaped(t2, m, bsize)) by {
                assert forall|i: int| 0 <= i < t2.len() implies #[trigger] t2[i].len() == bsize by {
                    if i != idx2 {
                        assert(t2[i] == t1[i]);
                    }
                }
            }
        } else {
            lemma_kick_keeps(t1, m, bsize, idx2, e, slots, k + 1, g, a, t);
        }
    }
}

/// Whether the filter holds the item of hash `h`, when `g` hashes
/// fingerprints.
pub open spec fn holds_by<const B: usize, const F: usize>(f: CuckooFilter<B, F>, h: u64, g: spec_fn(u16) -> u64) -> bool {
    f.holds(h, g(fingerprint_of(h, F)))
}

proof fn lemma_holds_pair<const B: usize, const F: usize>(f: CuckooFilter<B, F>, h: u64, ht: u64)
    requires
        f.wf(),
    ensures
        ({
            let m = f.spec_mask();
            let i1 = (h as usize) & m;
            &&& i1 <= m
            &&& f.holds(h, ht) <==> pair_count(f.table(), i1 as int, alt_of(i1, ht, m) as int, fingerprint_of(h, F)) > 0
        }),
{
    let m = f.spec_mask();
    let i1 = (h as usize) & m;
    assert(i1 <= m) by (bit_vector)
        requires
            i1 == (h as usize) & m;
    lemma_alt_involution(i1, ht, m);
    let t = fingerprint_of(h, F);
    lemma_bucket_count(f.table()[i1 as int], t);
    lemma_bucket_count(f.table()[alt_of(i1, ht, m) as int], t);
}

/// What goes in stays found: when fingerprints hash as `g` does, an insert
/// that succeeds after evicting fingerprints leaves the item held, and every
/// item held before is held still.
pub proof fn lemma_insert_keeps_items<const B: usize, const F: usize>(
    before: CuckooFilter<B, F>,
    after: CuckooFilter<B, F>,
    h: u64,
    start_home: bool,
    slots: Seq<usize>,
    g: spec_fn(u16) -> u64,
    hy: u64,
)
    requires
        before.wf(),
        after.wf(),
        after.spec_mask() == before.spec_mask(),
        forall|q: int| 0 <= q < slots.len() ==> #[trigger] slots[q] < B,
        (after.table(), true) == kick_run(before.table(), before.spec_mask(),
            if start_home { (h as usize) & before.spec_mask() } else { alt_of((h as usize) & before.spec_mask(), g(fingerprint_of(h, F)), before.spec_mask()) },
            fingerprint_of(h, F), slots, 0, g),
    ensures
        holds_by(after, h, g),
        holds_by(before, hy, g) ==> holds_by(after, hy, g),
{
    let m = before.spec_mask();
    lemma_table_shape(&before);
    let tb = before.table();
    let t = fingerprint_of(h, F);
    let i1 = (h as usize) & m;
    lemma_holds_pair(before, h, g(t));
    lemma_holds_pair(after, h, g(t));
    let start = if start_home { i1 } else { alt_of(i1, g(t), m) };
    lemma_alt_involution(i1, g(t), m);
    lemma_kick_keeps(tb, m, B, start, t, slots, 0, g, i1, t);
    let ty = fingerprint_of(hy, F);
    let iy = (hy as usize) & m;
    lemma_holds_pair(before, hy, g(ty));
    lemma_holds_pair(after, hy, g(ty));
    lemma_kick_keeps(tb, m, B, start, t, slots, 0, g, iy, ty);
}

/// The first step of an insert only fills an empty slot: every item held
/// before is held still.
pub proof fn lemma_place_keeps_items<const B: usize, const F: usize>(
    before: CuckooFilter<B, F>,
    after: CuckooFilter<B, F>,
    h: u64,
    ht: u64,
    hy: u64,
    hty: u64,
)
    requires
        before.wf(),
        after.wf(),
        place_outcome(before, after, h, ht, true),
    ensures
        before.holds(hy, hty) ==> after.holds(hy, hty),
{
    let m = before.spec_mask();
    lemma_table_shape(&before);
    let tb = before.table();
    let i1 = (h as usize) & m;
    assert(i1 <= m) by (bit_vector)
        requires
            i1 == (h as usize) & m;
    lemma_alt_involution(i1, ht, m);
    let i = if tb[i1 as int].contains(0) { i1 as int } else { alt_of(i1, ht, m) as int };
    let fs = first_slot(tb[i], 0);
    assert(tb[i].contains(0));
    let c = choose|q: int| 0 <= q < tb[i].len() && tb[i][q] == 0;
    lemma_first_slot_exists(tb[i], 0, c);
    let ty = fingerprint_of(hy, F);
    let iy = (hy as usize) & m;
    lemma_holds_pair(before, hy, hty);
    lemma_holds_pair(after, hy, hty);
    lemma_alt_involution(iy, hty, m);
    lemma_pair_update(tb, i, fs, fingerprint_of(h, F), iy as int, alt_of(iy, hty, m) as int, ty);
}

/// A filter of one bucket holds at most `B` fingerprints, and an item finds
/// room in it exactly while it holds fewer: so from an empty one-bucket
/// filter the first `B` inserts succeed and the next one fails.
pub proof fn lemma_one_bucket<const B: usize, const F: usize>(f: CuckooFilter<B, F>, h: u64, ht: u64)
    requires
        f.wf(),
        f.spec_mask() == 0,
    ensures
        f.fingerprints().len() <= B,
        f.has_room(h, ht) <==> f.fingerprints().len() < B,
{
    lemma_table_shape(&f);
    let t = f.table();
    assert(t.drop_last() =~= Seq::<Seq<u16>>::empty());
    assert(table_ms(t.drop_last()) =~= Multiset::empty());
    assert(f.fingerprints() =~= bucket_ms(t[0]));
    crate::cuckoo_filter::fingerprints::lemma_bucket_len(t[0]);
    assert(((h as usize) & 0usize) == 0) by (bit_vector);
    assert((((0usize ^ (ht as usize)) & 0usize)) == 0) by (bit_vector);
}

/// An insert into a full one-bucket filter fails, and one into a one-bucket
/// filter with a free slot succeeds.
pub proof fn lemma_one_bucket_insert<const B: usize, const F: usize>(
    before: CuckooFilter<B, F>,
    after: CuckooFilter<B, F>,
    h: u64,
    ht: u64,
    u: u16,
    r: bool,
)
    requires
        before.wf(),
        after.wf(),
        before.spec_mask() == 0,
        insert_outcome(before, after, h, ht, u, r),
    ensures
        r <==> before.fingerprints().len() < B,
        r ==> after.fingerprints().len() == before.fingerprints().len() + 1,
{
    lemma_one_bucket(before, h, ht);
    lemma_one_bucket(after, h, ht);
    if r {
        assert(after.fingerprints().add(slot_ms(0u16)) =~= after.fingerprints());
    }
}

/// A delete finds what an insert left held: when the filter holds the item
/// of hash `h` (fingerprints hashing as `g` does), deleting it succeeds and
/// takes one copy of its fingerprint out.
pub proof fn lemma_delete_finds<const B: usize, const F: usize>(
    before: CuckooFilter<B, F>,
    after: CuckooFilter<B, F>,
    h: u64,
    g: spec_fn(u16) -> u64,
    r: bool,
)
    requires
        holds_by(before, h, g),
        remove_outcome(before, after, h, g(fingerprint_of(h, F)), r),
    ensures
        r,
        after.fingerprints().insert(fingerprint_of(h, F)) == before.fingerprints(),
{
}

} // verus!
