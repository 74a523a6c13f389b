use vstd::prelude::*;
use vstd::bytes::{
    lemma_auto_spec_u32_to_from_le_bytes, lemma_auto_spec_u64_to_from_le_bytes, spec_u32_from_le_bytes,
    spec_u32_to_le_bytes, spec_u64_from_le_bytes, spec_u64_to_le_bytes, u32_from_le_bytes, u32_to_le_bytes,
    u64_from_le_bytes, u64_to_le_bytes,
};
use vstd::slice::{slice_subrange, slice_to_vec};

verus! {

/// What a log record does to its key.
#[derive(Debug, Clone, Copy, PartialEq, Eq)]
pub enum Operation {
    Insert,
    Delete,
}

/// The byte that `append` writes for an operation (its declaration index).
pub open spec fn op_code(op: Operation) -> u8 {
    match op {
        Operation::Insert => 0,
        Operation::Delete => 1,
    }
}

/// The operation that `replay` reads from a byte: 1 reads as `Insert`,
/// anything else as `Delete`.
pub open spec fn op_of_code(b: u8) -> Operation {
    if b == 1 {
        Operation::Insert
    } else {
        Operation::Delete
    }
}

/// Bytes in a record header: lsn (8), operation (1), key length (4), value length (4).
pub const RECORD_HEADER_LEN: usize = 17;

/// A log record as replay hands it out.
pub struct Record {
    pub lsn: u64,
    pub op: Operation,
    pub key: Vec<u8>,
    pub value: Vec<u8>,
}

/// The bytes of one record: little-endian lsn, operation byte, key and value
/// lengths cut to 32 bits, then the key and the value.
pub open spec fn record_bytes(lsn: u64, op: Operation, key: Seq<u8>, value: Seq<u8>) -> Seq<u8> {
    spec_u64_to_le_bytes(lsn) + seq![op_code(op)] + spec_u32_to_le_bytes(key.len() as u32)
        + spec_u32_to_le_bytes(value.len() as u32) + key + value
}

/// The records that replay reads from a log: whole records in order,
/// stopping at the first one cut short.
pub open spec fn parse_log(b: Seq<u8>) -> Seq<(u64, Operation, Seq<u8>, Seq<u8>)>
    decreases b.len(),
{
    if b.len() < 17 {
        Seq::empty()
    } else {
        let klen = spec_u32_from_le_bytes(b.subrange(9, 13)) as int;
        let vlen = spec_u32_from_le_bytes(b.subrange(13, 17)) as int;
        if b.len() < 17 + klen + vlen {
            Seq::empty()
        } else {
            seq![(
                spec_u64_from_le_bytes(b.subrange(0, 8)),
                op_of_code(b[8]),
                b.subrange(17, 17 + klen),
                b.subrange(17 + klen, 17 + klen + vlen),
            )] + parse_log(b.subrange(17 + klen + vlen, b.len() as int))
        }
    }
}

/// The view of replayed records.
pub open spec fn records_view(rs: Seq<Record>) -> Seq<(u64, Operation, Seq<u8>, Seq<u8>)> {
    rs.map_values(|r: Record| (r.lsn, r.op, r.key@, r.value@))
}

/// The write-ahead log's sequence numbering.
pub struct Wal {
    /// Next log sequence number.
    pub next_lsn: u64,
}

impl Wal {
    /// A log that numbers its first record 1.
    pub fn open() -> (w: Self)
        ensures
            w.next_lsn == 1,
    {
        Wal { next_lsn: 1 }
    }

    /// Numbers a record for `operation` on `key` and `value`: returns its
    /// lsn and the bytes to append to the log file.
    pub fn append(&mut self, operation: Operation, key: &[u8], value: &[u8]) -> (r: (u64, Vec<u8>))
        requires
            old(self).next_lsn < u64::MAX,
        ensures
            r.0 == old(self).next_lsn,
            final(self).next_lsn == old(self).next_lsn + 1,
            r.1@ == record_bytes(r.0, operation, key@, value@),
    {
        let lsn = self.next_lsn;
        self.next_lsn = self.next_lsn + 1;
        let mut out = u64_to_le_bytes(lsn);
        let code: u8 = match operation {
            Operation::Insert => 0,
            Operation::Delete => 1,
        };
        out.push(code);
        let mut kl = u32_to_le_bytes(key.len() as u32);
        let mut vl = u32_to_le_bytes(value.len() as u32);
        out.append(&mut kl);
        out.append(&mut vl);
        let mut i: usize = 0;
        let ghost pre = out@;
        while i < key.len()
            invariant
                i <= key@.len(),
                out@ == pre + key@.subrange(0, i as int),
            decreases key@.len() - i,
        {
            out.push(key[i]);
            i = i + 1;
            assert(out@ =~= pre + key@.subrange(0, i as int));
        }
        let mut j: usize = 0;
        let ghost pre2 = out@;
        while j < value.len()
            invariant
                j <= value@.len(),
                out@ == pre2 + value@.subrange(0, j as int),
            decreases value@.len() - j,
        {
            out.push(value[j]);
            j = j + 1;
            assert(out@ =~= pre2 + value@.subrange(0, j as int));
        }
        assert(key@.subrange(0, key@.len() as int) =~= key@);
        assert(value@.subrange(0, value@.len() as int) =~= value@);
        assert(out@ =~= record_bytes(lsn, operation, key@, value@));
        (lsn, out)
    }

    /// Reads the records of a log's contents, in order, up to the first one
    /// cut short.
    pub fn replay(&self, log: &[u8]) -> (rs: Vec<Record>)
        ensures
            records_view(rs@) == parse_log(log@),
    {
        let mut out: Vec<Record> = Vec::new();
        let mut pos: usize = 0;
        assert(log@.subrange(0, log@.len() as int) =~= log@);
        assert(records_view(out@) + parse_log(log@) =~= parse_log(log@));
        loop
            invariant
                pos <= log@.len(),
                records_view(out@) + parse_log(log@.subrange(pos as int, log@.len() as int)) == parse_log(log@),
            ensures
                records_view(out@) == parse_log(log@),
            decreases log@.len() - pos,
        {
            let rem = log.len() - pos;
            let ghost b = log@.subrange(pos as int, log@.len() as int);
            if rem < RECORD_HEADER_LEN {
                assert(parse_log(b) == Seq::<(u64, Operation, Seq<u8>, Seq<u8>)>::empty());
                assert(records_view(out@) + parse_log(b) =~= records_view(out@));
                break;
            }
            let lsn = u64_from_le_bytes(slice_subrange(log, pos, pos + 8));
            let op = if log[pos + 8] == 1 { Operation::Insert } else { Operation::Delete };
            let klen = u32_from_le_bytes(slice_subrange(log, pos + 9, pos + 13)) as usize;
            let vlen = u32_from_le_bytes(slice_subrange(log, pos + 13, pos + 17)) as usize;
            proof {
                assert(b.subrange(0, 8) =~= log@.subrange(pos as int, pos + 8));
                assert(b.subrange(9, 13) =~= log@.subrange(pos + 9, pos + 13));
                assert(b.subrange(13, 17) =~= log@.subrange(pos + 13, pos + 17));
                assert(b[8] == log@[pos + 8]);
            }
            let body = rem - RECORD_HEADER_LEN;
            if body < klen {
                assert(parse_log(b) == Seq::<(u64, Operation, Seq<u8>, Seq<u8>)>::empty());
                assert(records_view(out@) + parse_log(b) =~= records_view(out@));
                break;
            }
            if body - klen < vlen {
                assert(parse_log(b) == Seq::<(u64, Operation, Seq<u8>, Seq<u8>)>::empty());
                assert(records_view(out@) + parse_log(b) =~= records_view(out@));
                break;
            }
            let kstart = pos + RECORD_HEADER_LEN;
            let key = slice_to_vec(slice_subrange(log, kstart, kstart + klen));
            let value = slice_to_vec(slice_subrange(log, kstart + klen, kstart + klen + vlen));
            let ghost old_out = records_view(out@);
            out.push(Record { lsn, op, key, value });
            proof {
                let next = kstart + klen + vlen;
                assert(b.subrange(17, 17 + klen) =~= log@.subrange(kstart as int, kstart + klen));
                assert(b.subrange(17 + klen, 17 + klen + vlen) =~= log@.subrange(kstart + klen, next));
                assert(b.subrange(17 + klen + vlen, b.len() as int) =~= log@.subrange(next, log@.len() as int));
                assert(records_view(out@) =~= old_out.push((lsn, op, key@, value@)));
            }
            pos = kstart + klen + vlen;
        }
        out
    }
}

/// Replaying the bytes of an appended record, followed by any further log,
/// reads that record first, with its lsn, key and value, then the rest of the
/// log. The operation reads back as `op_of_code(op_code(op))`.
pub proof fn lemma_replay_append(lsn: u64, op: Operation, key: Seq<u8>, value: Seq<u8>, rest: Seq<u8>)
    requires
        key.len() <= u32::MAX,
        value.len() <= u32::MAX,
    ensures
        parse_log(record_bytes(lsn, op, key, value) + rest)
            == seq![(lsn, op_of_code(op_code(op)), key, value)] + parse_log(rest),
{
    lemma_auto_spec_u32_to_from_le_bytes();
    lemma_auto_spec_u64_to_from_le_bytes();
    let b = record_bytes(lsn, op, key, value) + rest;
    let l8 = spec_u64_to_le_bytes(lsn);
    let k4 = spec_u32_to_le_bytes(key.len() as u32);
    let v4 = spec_u32_to_le_bytes(value.len() as u32);
    assert(b.subrange(0, 8) =~= l8);
    assert(b.subrange(9, 13) =~= k4);
    assert(b.subrange(13, 17) =~= v4);
    assert(b[8] == op_code(op));
    let kl = key.len() as int;
    let vl = value.len() as int;
    assert(b.subrange(17, 17 + kl) =~= key);
    assert(b.subrange(17 + kl, 17 + kl + vl) =~= value);
    assert(b.subrange(17 + kl + vl, b.len() as int) =~= rest);
}

/// A record cut short reads as no record at all.
pub proof fn lemma_replay_cut(lsn: u64, op: Operation, key: Seq<u8>, value: Seq<u8>, n: int)
    requires
        key.len() <= u32::MAX,
        value.len() <= u32::MAX,
        0 <= n < record_bytes(lsn, op, key, value).len(),
    ensures
        parse_log(record_bytes(lsn, op, key, value).subrange(0, n)) == Seq::<(u64, Operation, Seq<u8>, Seq<u8>)>::empty(),
{
    lemma_auto_spec_u32_to_from_le_bytes();
    lemma_auto_spec_u64_to_from_le_bytes();
    let full = record_bytes(lsn, op, key, value);
    let k4 = spec_u32_to_le_bytes(key.len() as u32);
    let v4 = spec_u32_to_le_bytes(value.len() as u32);
    assert(full.subrange(9, 13) =~= k4);
    assert(full.subrange(13, 17) =~= v4);
    assert(full.len() == 17 + key.len() + value.len());
    let b = full.subrange(0, n);
    if n >= 17 {
        assert(b.subrange(9, 13) =~= full.subrange(9, 13));
        assert(b.subrange(13, 17) =~= full.subrange(13, 17));
    }
}

/// The bytes of records appended one after another.
pub open spec fn log_of(recs: Seq<(u64, Operation, Seq<u8>, Seq<u8>)>) -> Seq<u8>
    decreases recs.len(),
{
    if recs.len() == 0 {
        Seq::empty()
    } else {
        record_bytes(recs[0].0, recs[0].1, recs[0].2, recs[0].3) + log_of(recs.drop_first())
    }
}

/// The records as replay reads them back: the operation through its byte.
pub open spec fn as_replayed(recs: Seq<(u64, Operation, Seq<u8>, Seq<u8>)>) -> Seq<(u64, Operation, Seq<u8>, Seq<u8>)> {
    recs.map_values(|r: (u64, Operation, Seq<u8>, Seq<u8>)| (r.0, op_of_code(op_code(r.1)), r.2, r.3))
}

/// A log whose last append was torn off partway replays as exactly the whole
/// records before it (each with its lsn, key and value, and its operation
/// read back through its byte).
pub proof fn lemma_replay_torn(
    recs: Seq<(u64, Operation, Seq<u8>, Seq<u8>)>,
    last: (u64, Operation, Seq<u8>, Seq<u8>),
    n: int,
)
    requires
        forall|i: int| 0 <= i < recs.len() ==> (#[trigger] recs[i]).2.len() <= u32::MAX && recs[i].3.len() <= u32::MAX,
        last.2.len() <= u32::MAX,
        last.3.len() <= u32::MAX,
        0 <= n < record_bytes(last.0, last.1, last.2, last.3).len(),
    ensures
        parse_log(log_of(recs) + record_bytes(last.0, last.1, last.2, last.3).subrange(0, n)) == as_replayed(recs),
    decreases recs.len(),
{
    let cut = record_bytes(last.0, last.1, last.2, last.3).subrange(0, n);
    if recs.len() == 0 {
        assert(log_of(recs) + cut =~= cut);
        lemma_replay_cut(last.0, last.1, last.2, last.3, n);
        assert(as_replayed(recs) =~= Seq::empty());
    } else {
        let r = recs[0];
        let rest = recs.drop_first();
        assert forall|i: int| 0 <= i < rest.len() implies (#[trigger] rest[i]).2.len() <= u32::MAX && rest[i].3.len() <= u32::MAX by {
            assert(rest[i] == recs[i + 1]);
        }
        lemma_replay_torn(rest, last, n);
        assert(log_of(recs) + cut =~= record_bytes(r.0, r.1, r.2, r.3) + (log_of(rest) + cut));
        lemma_replay_append(r.0, r.1, r.2, r.3, log_of(rest) + cut);
        assert(as_replayed(recs) =~= seq![(r.0, op_of_code(op_code(r.1)), r.2, r.3)] + as_replayed(rest));
    }
}

} // verus!
