use vstd::prelude::*;
use vstd::multiset::Multiset;

verus! {

broadcast use vstd::multiset::group_multiset_axioms;

/// The fingerprint a slot holds: none for an empty (zero) slot.
pub open spec fn slot_ms(x: u16) -> Multiset<u16> {
    if x == 0 {
        Multiset::empty()
    } else {
        Multiset::singleton(x)
    }
}

/// The fingerprints a bucket holds.
pub open spec fn bucket_ms(b: Seq<u16>) -> Multiset<u16>
    decreases b.len(),
{
    if b.len() == 0 {
        Multiset::empty()
    } else {
        bucket_ms(b.drop_last()).add(slot_ms(b.last()))
    }
}

/// The fingerprints a table of buckets holds.
pub open spec fn table_ms(t: Seq<Seq<u16>>) -> Multiset<u16>
    decreases t.len(),
{
    if t.len() == 0 {
        Multiset::empty()
    } else {
        table_ms(t.drop_last()).add(bucket_ms(t.last()))
    }
}

/// Overwriting one slot trades its fingerprint for the new one.
pub proof fn lemma_bucket_update(b: Seq<u16>, s: int, x: u16)
    requires
        0 <= s < b.len(),
    ensures
        bucket_ms(b.update(s, x)).add(slot_ms(b[s])) =~= bucket_ms(b).add(slot_ms(x)),
    decreases b.len(),
{
    let b2 = b.update(s, x);
    assert(bucket_ms(b2) == bucket_ms(b2.drop_last()).add(slot_ms(b2.last())));
    assert(bucket_ms(b) == bucket_ms(b.drop_last()).add(slot_ms(b.last())));
    if s == b.len() - 1 {
        assert(b2.drop_last() =~= b.drop_last());
    } else {
        lemma_bucket_update(b.drop_last(), s, x);
        assert(b2.drop_last() =~= b.drop_last().update(s, x));
    }
    assert forall|v: u16| #[trigger] bucket_ms(b2).add(slot_ms(b[s])).count(v) == bucket_ms(b).add(slot_ms(x)).count(v) by {
        if s == b.len() - 1 {
        } else {
            assert(bucket_ms(b.drop_last().update(s, x)).add(slot_ms(b[s])).count(v)
                == bucket_ms(b.drop_last()).add(slot_ms(x)).count(v));
        }
    }
    assert(bucket_ms(b2).add(slot_ms(b[s])) =~= bucket_ms(b).add(slot_ms(x)));
}

/// Replacing one bucket trades its fingerprints for the new bucket's.
pub proof fn lemma_table_update(t: Seq<Seq<u16>>, i: int, nb: Seq<u16>)
    requires
        0 <= i < t.len(),
    ensures
        table_ms(t.update(i, nb)).add(bucket_ms(t[i])) =~= table_ms(t).add(bucket_ms(nb)),
    decreases t.len(),
{
    let t2 = t.update(i, nb);
    assert(table_ms(t2) == table_ms(t2.drop_last()).add(bucket_ms(t2.last())));
    assert(table_ms(t) == table_ms(t.drop_last()).add(bucket_ms(t.last())));
    if i == t.len() - 1 {
        assert(t2.drop_last() =~= t.drop_last());
    } else {
        lemma_table_update(t.drop_last(), i, nb);
        assert(t2.drop_last() =~= t.drop_last().update(i, nb));
    }
    assert forall|v: u16| #[trigger] table_ms(t2).add(bucket_ms(t[i])).count(v) == table_ms(t).add(bucket_ms(nb)).count(v) by {
        if i == t.len() - 1 {
        } else {
            assert(table_ms(t.drop_last().update(i, nb)).add(bucket_ms(t[i])).count(v)
                == table_ms(t.drop_last()).add(bucket_ms(nb)).count(v));
        }
    }
    assert(table_ms(t2).add(bucket_ms(t[i])) =~= table_ms(t).add(bucket_ms(nb)));
}

/// Overwriting slot `s` of bucket `i` trades that slot's fingerprint for `x`.
pub proof fn lemma_table_slot_update(t: Seq<Seq<u16>>, i: int, s: int, x: u16)
    requires
        0 <= i < t.len(),
        0 <= s < t[i].len(),
    ensures
        table_ms(t.update(i, t[i].update(s, x))).add(slot_ms(t[i][s])) =~= table_ms(t).add(slot_ms(x)),
{
    let nb = t[i].update(s, x);
    lemma_table_update(t, i, nb);
    lemma_bucket_update(t[i], s, x);
    assert forall|v: u16| #[trigger] table_ms(t.update(i, nb)).add(slot_ms(t[i][s])).count(v) == table_ms(t).add(slot_ms(x)).count(v) by {
        assert(table_ms(t.update(i, nb)).add(bucket_ms(t[i])).count(v) == table_ms(t).add(bucket_ms(nb)).count(v));
        assert(bucket_ms(nb).add(slot_ms(t[i][s])).count(v) == bucket_ms(t[i]).add(slot_ms(x)).count(v));
    }
    assert(table_ms(t.update(i, nb)).add(slot_ms(t[i][s])) =~= table_ms(t).add(slot_ms(x)));
}

/// A bucket holds one fingerprint per slot that is not 0: it has an empty
/// slot exactly when it holds fewer fingerprints than slots.
pub proof fn lemma_bucket_len(b: Seq<u16>)
    ensures
        bucket_ms(b).len() <= b.len(),
        b.contains(0) <==> bucket_ms(b).len() < b.len(),
    decreases b.len(),
{
    if b.len() > 0 {
        lemma_bucket_len(b.drop_last());
        if b.drop_last().contains(0) {
            let j = choose|j: int| 0 <= j < b.drop_last().len() && b.drop_last()[j] == 0;
            assert(b[j] == 0);
        }
        if b.contains(0) && b.last() != 0 {
            let j = choose|j: int| 0 <= j < b.len() && b[j] == 0;
            assert(b.drop_last()[j] == 0);
        }
        if b.last() == 0 {
            assert(b[b.len() - 1] == 0);
        }
    }
}

/// Buckets of empty slots hold no fingerprints.
pub proof fn lemma_zero_table(t: Seq<Seq<u16>>)
    requires
        forall|i: int, s: int| 0 <= i < t.len() && 0 <= s < t[i].len() ==> #[trigger] t[i][s] == 0,
    ensures
        table_ms(t) =~= Multiset::empty(),
    decreases t.len(),
{
    if t.len() > 0 {
        lemma_zero_table(t.drop_last());
        lemma_zero_bucket(t.last());
    }
}

proof fn lemma_zero_bucket(b: Seq<u16>)
    requires
        forall|s: int| 0 <= s < b.len() ==> #[trigger] b[s] == 0,
    ensures
        bucket_ms(b) =~= Multiset::empty(),
    decreases b.len(),
{
    if b.len() > 0 {
        lemma_zero_bucket(b.drop_last());
    }
}

} // verus!
