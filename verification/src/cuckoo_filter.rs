pub mod cuckoo_error;
pub mod cuckoo_filter;
pub mod fingerprints;

use vstd::prelude::*;
use std::collections::hash_map::RandomState;

verus! {

/// A power of two: one bit set.
pub open spec fn is_pow2(n: usize) -> bool {
    n > 0 && n & ((n - 1) as usize) == 0
}

/// `RandomState::default()`: a hasher builder with fresh random keys.
#[verifier::external_body]
pub(crate) fn random_state() -> RandomState {
    RandomState::default()
}

/// A zero-filled vector of `n` indexes.
pub(crate) fn zeros(n: usize) -> (v: Vec<usize>)
    ensures
        v@ == Seq::new(n as nat, |i: int| 0usize),
{
    let mut v: Vec<usize> = Vec::new();
    let mut i: usize = 0;
    while i < n
        invariant
            i <= n,
            v@ == Seq::new(i as nat, |j: int| 0usize),
        decreases n - i,
    {
        v.push(0);
        i = i + 1;
        assert(v@ =~= Seq::new(i as nat, |j: int| 0usize));
    }
    v
}

/// `size` empty buckets of `B` slots.
pub(crate) fn empty_buckets<const B: usize>(size: usize) -> (v: Vec<[u16; B]>)
    ensures
        v@.len() == size,
        forall|i: int, s: int| 0 <= i < size && 0 <= s < B ==> #[trigger] v@[i]@[s] == 0,
{
    let mut v: Vec<[u16; B]> = Vec::new();
    let mut i: usize = 0;
    while i < size
        invariant
            i <= size,
            v@.len() == i,
            forall|k: int, s: int| 0 <= k < i && 0 <= s < B ==> #[trigger] v@[k]@[s] == 0,
        decreases size - i,
    {
        let b: [u16; B] = [0u16; B];
        v.push(b);
        i = i + 1;
    }
    v
}

/// The storage of a cuckoo filter without operations: an array size, two
/// index arrays and `size` buckets of `B` fingerprints.
pub struct CuckooFilter<const B: usize> {
    hasher: RandomState,
    array_size: u64,
    bucket_1: Vec<usize>,
    bucket_2: Vec<usize>,
    build: RandomState,
    buckets: Vec<[u16; B]>,
}

impl<const B: usize> CuckooFilter<B> {
    /// The number of buckets.
    pub closed spec fn spec_array_size(&self) -> u64 {
        self.array_size
    }

    /// The two index arrays.
    pub closed spec fn index_arrays(&self) -> (Seq<usize>, Seq<usize>) {
        (self.bucket_1@, self.bucket_2@)
    }

    /// The buckets' slots.
    pub closed spec fn table(&self) -> Seq<Seq<u16>> {
        self.buckets@.map_values(|b: [u16; B]| b@)
    }

    /// A filter of `size` empty buckets; `size` must be a power of two.
    pub fn new(size: usize) -> (f: Self)
        requires
            is_pow2(size),
        ensures
            f.spec_array_size() == size,
            f.index_arrays() == (Seq::new(size as nat, |i: int| 0usize), Seq::new(size as nat, |i: int| 0usize)),
            f.table() == Seq::new(size as nat, |i: int| Seq::new(B as nat, |s: int| 0u16)),
    {
        let buckets = empty_buckets::<B>(size);
        let f = CuckooFilter {
            hasher: random_state(),
            build: random_state(),
            array_size: size as u64,
            bucket_1: zeros(size),
            bucket_2: zeros(size),
            buckets,
        };
        proof {
            assert forall|i: int| 0 <= i < size implies #[trigger] f.table()[i] == Seq::new(B as nat, |s: int| 0u16) by {
                assert(f.table()[i] =~= Seq::new(B as nat, |s: int| 0u16));
            }
            assert(f.table() =~= Seq::new(size as nat, |i: int| Seq::new(B as nat, |s: int| 0u16)));
        }
        f
    }
}

} // verus!
