use vstd::prelude::*;

verus! {

/// The result of comparing two byte strings.
#[derive(Debug, Clone, Copy, PartialEq, Eq)]
pub enum KeyOrder {
    Less,
    Equal,
    Greater,
}

/// Lexicographic comparison of `a` and `b` from position `i` on:
/// -1, 0 or 1 as `a` sorts before, equal to or after `b`.
pub open spec fn lex_order_from(a: Seq<u8>, b: Seq<u8>, i: nat) -> int
    decreases a.len() - i,
{
    if i >= a.len() {
        if i >= b.len() {
            0
        } else {
            -1
        }
    } else if i >= b.len() {
        1
    } else if a[i as int] < b[i as int] {
        -1
    } else if a[i as int] > b[i as int] {
        1
    } else {
        lex_order_from(a, b, i + 1)
    }
}

/// Lexicographic comparison of byte strings, as `<[u8]>::cmp` orders them.
pub open spec fn lex_order(a: Seq<u8>, b: Seq<u8>) -> int {
    lex_order_from(a, b, 0)
}

/// `a` sorts strictly before `b`.
pub open spec fn key_lt(a: Seq<u8>, b: Seq<u8>) -> bool {
    lex_order(a, b) == -1
}

/// `a` sorts before `b` or equals it.
pub open spec fn key_le(a: Seq<u8>, b: Seq<u8>) -> bool {
    lex_order(a, b) != 1
}

/// The contents of a vector of byte vectors.
pub open spec fn seqs(v: Seq<Vec<u8>>) -> Seq<Seq<u8>> {
    v.map_values(|x: Vec<u8>| x@)
}

/// Keys in strictly increasing order.
pub open spec fn sorted(keys: Seq<Seq<u8>>) -> bool {
    forall|i: int, j: int| 0 <= i < j < keys.len() ==> key_lt(#[trigger] keys[i], #[trigger] keys[j])
}

/// How many of `keys` sort before `k` or equal it.
pub open spec fn count_le(keys: Seq<Seq<u8>>, k: Seq<u8>) -> nat
    decreases keys.len(),
{
    if keys.len() == 0 {
        0
    } else {
        count_le(keys.drop_last(), k) + if key_le(keys.last(), k) {
            1nat
        } else {
            0nat
        }
    }
}

pub proof fn lemma_order_range(a: Seq<u8>, b: Seq<u8>, i: nat)
    ensures
        -1 <= lex_order_from(a, b, i) <= 1,
    decreases a.len() - i,
{
    if i < a.len() && i < b.len() && a[i as int] == b[i as int] {
        lemma_order_range(a, b, i + 1);
    }
}

pub proof fn lemma_order_antisym(a: Seq<u8>, b: Seq<u8>, i: nat)
    ensures
        lex_order_from(a, b, i) == -lex_order_from(b, a, i),
    decreases a.len() - i,
{
    if i < a.len() && i < b.len() && a[i as int] == b[i as int] {
        lemma_order_antisym(a, b, i + 1);
    }
}

pub proof fn lemma_order_zero_from(a: Seq<u8>, b: Seq<u8>, i: nat)
    requires
        i <= a.len(),
        i <= b.len(),
    ensures
        lex_order_from(a, b, i) == 0 <==> (a.len() == b.len() && forall|j: int|
            i <= j < a.len() ==> a[j] == b[j]),
    decreases a.len() - i,
{
    if i < a.len() && i < b.len() && a[i as int] == b[i as int] {
        lemma_order_zero_from(a, b, i + 1);
        if a.len() == b.len() && (forall|j: int| i + 1 <= j < a.len() ==> a[j] == b[j]) {
            assert(forall|j: int| i <= j < a.len() ==> a[j] == b[j]);
        }
    }
}

/// Two byte strings compare equal exactly when they are the same.
pub proof fn lemma_order_zero(a: Seq<u8>, b: Seq<u8>)
    ensures
        lex_order(a, b) == 0 <==> a == b,
{
    lemma_order_zero_from(a, b, 0);
    if a.len() == b.len() && (forall|j: int| 0 <= j < a.len() ==> a[j] == b[j]) {
        assert(a =~= b);
    }
}

pub proof fn lemma_order_trans_from(a: Seq<u8>, b: Seq<u8>, c: Seq<u8>, i: nat)
    requires
        lex_order_from(a, b, i) == -1,
        lex_order_from(b, c, i) == -1,
    ensures
        lex_order_from(a, c, i) == -1,
    decreases a.len() - i,
{
    if i < a.len() && i < b.len() && i < c.len() && a[i as int] == b[i as int] && b[i as int]
        == c[i as int] {
        lemma_order_trans_from(a, b, c, i + 1);
    }
}

/// Strict order is transitive.
pub proof fn lemma_lt_trans(a: Seq<u8>, b: Seq<u8>, c: Seq<u8>)
    requires
        key_lt(a, b),
        key_lt(b, c),
    ensures
        key_lt(a, c),
{
    lemma_order_trans_from(a, b, c, 0);
}

/// Any two byte strings are ordered one way or the other, or equal.
pub proof fn lemma_total(a: Seq<u8>, b: Seq<u8>)
    ensures
        key_lt(a, b) || key_lt(b, a) || a == b,
        key_lt(a, b) ==> !key_lt(b, a) && a != b,
        key_le(a, b) <==> (key_lt(a, b) || a == b),
        !key_lt(a, b) <==> key_le(b, a),
{
    lemma_order_range(a, b, 0);
    lemma_order_antisym(a, b, 0);
    lemma_order_zero(a, b);
    lemma_order_zero(b, a);
}

/// Mixed transitivity of `<` and `<=`.
pub proof fn lemma_le_lt_trans(a: Seq<u8>, b: Seq<u8>, c: Seq<u8>)
    ensures
        key_le(a, b) && key_lt(b, c) ==> key_lt(a, c),
        key_lt(a, b) && key_le(b, c) ==> key_lt(a, c),
        key_le(a, b) && key_le(b, c) ==> key_le(a, c),
{
    lemma_total(a, b);
    lemma_total(b, c);
    lemma_total(a, c);
    if key_lt(a, b) && key_lt(b, c) {
        lemma_lt_trans(a, b, c);
    }
}

/// For sorted keys, `count_le` is the boundary between the keys at or below
/// `k` and those above it.
pub proof fn lemma_count_le_boundary(keys: Seq<Seq<u8>>, k: Seq<u8>, i: int)
    requires
        0 <= i <= keys.len(),
        forall|j: int| 0 <= j < i ==> key_le(#[trigger] keys[j], k),
        forall|j: int| i <= j < keys.len() ==> key_lt(k, #[trigger] keys[j]),
    ensures
        count_le(keys, k) == i,
    decreases keys.len(),
{
    if keys.len() > 0 {
        let n = keys.len() - 1;
        let init = keys.drop_last();
        if i == keys.len() {
            assert(key_le(keys[n], k));
            lemma_count_le_boundary(init, k, i - 1);
        } else {
            assert(key_lt(k, keys[n]));
            lemma_total(k, keys[n]);
            lemma_count_le_boundary(init, k, i);
        }
    }
}

/// Compares two byte strings lexicographically.
pub fn compare_keys(a: &[u8], b: &[u8]) -> (r: KeyOrder)
    ensures
        r == KeyOrder::Less <==> key_lt(a@, b@),
        r == KeyOrder::Equal <==> a@ == b@,
        r == KeyOrder::Greater <==> key_lt(b@, a@),
{
    proof {
        lemma_total(a@, b@);
        lemma_order_antisym(a@, b@, 0);
    }
    let mut i: usize = 0;
    while i < a.len() && i < b.len()
        invariant
            i <= a@.len(),
            i <= b@.len(),
            lex_order(a@, b@) == lex_order_from(a@, b@, i as nat),
            lex_order(b@, a@) == -lex_order(a@, b@),
            key_lt(a@, b@) || key_lt(b@, a@) || a@ == b@,
            key_lt(a@, b@) ==> !key_lt(b@, a@) && a@ != b@,
            key_lt(b@, a@) ==> a@ != b@,
        decreases a@.len() - i,
    {
        if a[i] < b[i] {
            return KeyOrder::Less;
        } else if a[i] > b[i] {
            return KeyOrder::Greater;
        }
        i = i + 1;
    }
    if i == a.len() && i == b.len() {
        KeyOrder::Equal
    } else if i == a.len() {
        KeyOrder::Less
    } else {
        KeyOrder::Greater
    }
}

/// Binary search with the results of `<[T]>::binary_search_by`: over sorted
/// keys, `Ok(i)` where `keys[i] == key`, or `Err(i)` where `key` would be
/// inserted. Over unsorted keys the index is in range and an `Ok` still
/// points at an equal key.
pub fn search_keys(keys: &Vec<Vec<u8>>, key: &[u8]) -> (r: Result<usize, usize>)
    ensures
        match r {
            Ok(i) => i < keys@.len() && keys@[i as int]@ == key@,
            Err(i) => i <= keys@.len(),
        },
        sorted(seqs(keys@)) ==> (r matches Err(i) ==> (forall|j: int|
            0 <= j < i ==> key_lt(#[trigger] keys@[j]@, key@)) && (forall|j: int|
            i <= j < keys@.len() ==> key_lt(key@, #[trigger] keys@[j]@))),
{
    let ghost ks = seqs(keys@);
    let mut lo: usize = 0;
    let mut hi: usize = keys.len();
    while lo < hi
        invariant
            lo <= hi <= keys@.len(),
            ks == seqs(keys@),
            sorted(ks) ==> forall|j: int| 0 <= j < lo ==> key_lt(#[trigger] keys@[j]@, key@),
            sorted(ks) ==> forall|j: int| hi <= j < keys@.len() ==> key_lt(key@, #[trigger] keys@[j]@),
        decreases hi - lo,
    {
        let mid = lo + (hi - lo) / 2;
        let c = compare_keys(keys[mid].as_slice(), key);
        match c {
            KeyOrder::Equal => {
                return Ok(mid);
            },
            KeyOrder::Less => {
                assert forall|j: int| sorted(ks) && 0 <= j < mid + 1 implies key_lt(#[trigger] keys@[j]@, key@) by {
                    if j < mid {
                        assert(key_lt(ks[j], ks[mid as int]));
                        lemma_lt_trans(keys@[j]@, keys@[mid as int]@, key@);
                    }
                }
                lo = mid + 1;
            },
            KeyOrder::Greater => {
                assert forall|j: int| sorted(ks) && mid <= j < keys@.len() implies key_lt(key@, #[trigger] keys@[j]@) by {
                    if j > mid {
                        assert(key_lt(ks[mid as int], ks[j]));
                        lemma_lt_trans(key@, keys@[mid as int]@, keys@[j]@);
                    }
                }
                hi = mid;
            },
        }
    }
    Err(lo)
}

} // verus!
