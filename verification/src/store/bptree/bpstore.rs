use vstd::prelude::*;
use vstd::string::StringSliceAdditionalSpecFns;
use vstd::bytes::{spec_u64_from_le_bytes, spec_u64_to_le_bytes, u64_from_le_bytes, u64_to_le_bytes};
use vstd::slice::slice_subrange;
use crate::store::bptree::wal::Operation;
use crate::models::{expired_at, LinkRecord, Timestamp};

verus! {

/// The tree key of a link: "L:" and the id's bytes.
pub fn ns_link(id: &str) -> (v: Vec<u8>)
    ensures
        v@ == seq![76u8, 58u8] + id.spec_bytes(),
{
    crate::store::bytes_util::prefixed(&[76u8, 58u8], id)
}

/// The tree key of a link's hit counter: "H:" and the id's bytes.
pub fn ns_hit(id: &str) -> (v: Vec<u8>)
    ensures
        v@ == seq![72u8, 58u8] + id.spec_bytes(),
{
    crate::store::bytes_util::prefixed(&[72u8, 58u8], id)
}

/// The hit count stored in a counter value: none or empty is 0, otherwise
/// the little-endian number in its first 8 bytes.
pub open spec fn hits_value(v: Option<Seq<u8>>) -> u64 {
    match v {
        None => 0,
        Some(b) => if b.len() == 0 {
            0
        } else {
            spec_u64_from_le_bytes(b.subrange(0, 8))
        },
    }
}

/// The hit count a counter value holds (see `hits_value`). A non-empty value
/// shorter than 8 bytes holds no count.
pub fn hits_from(v: &Option<Vec<u8>>) -> (n: u64)
    requires
        v matches Some(b) ==> b@.len() == 0 || b@.len() >= 8,
    ensures
        n == hits_value(match v {
            Some(b) => Some(b@),
            None => None,
        }),
{
    match v {
        None => 0,
        Some(b) => {
            if b.len() == 0 {
                0
            } else {
                u64_from_le_bytes(slice_subrange(b.as_slice(), 0, 8))
            }
        },
    }
}

/// The counter value stored after a hit: `cur + 1`, little-endian.
pub fn next_hits(cur: u64) -> (v: Vec<u8>)
    requires
        cur < u64::MAX,
    ensures
        v@ == spec_u64_to_le_bytes((cur + 1) as u64),
        v@.len() == 8,
{
    u64_to_le_bytes(cur + 1)
}

/// The value that replaying a log record stores for its key: the record's
/// value for an insert, the empty value (a tombstone) for a delete.
pub fn replayed_value(op: Operation, val: Vec<u8>) -> (v: Vec<u8>)
    ensures
        v@ == match op {
            Operation::Insert => val@,
            Operation::Delete => Seq::<u8>::empty(),
        },
{
    match op {
        Operation::Insert => val,
        Operation::Delete => Vec::new(),
    }
}

/// The stored bytes of a link, if the tree holds a live one: an empty value
/// is a deleted link.
pub fn live_value(v: Option<Vec<u8>>) -> (r: Option<Vec<u8>>)
    ensures
        r == match v {
            Some(b) => if b@.len() == 0 {
                None
            } else {
                Some(b)
            },
            None => None,
        },
{
    match v {
        Some(b) => {
            if b.len() == 0 {
                None
            } else {
                Some(b)
            }
        },
        None => None,
    }
}

/// A stored link as a read returns it: none once it has expired at `now`.
pub fn unexpired(rec: LinkRecord, now: Timestamp) -> (r: Option<LinkRecord>)
    ensures
        r == if expired_at(rec.expires_at, now) {
            None
        } else {
            Some(rec)
        },
{
    if rec.is_expired(now) {
        None
    } else {
        Some(rec)
    }
}

} // verus!
