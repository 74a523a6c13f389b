use shortener::store::bptree::wal::{Operation, Wal};

#[test]
fn append_numbers_records_from_one() {
    let mut w = Wal::open();
    assert_eq!(w.next_lsn, 1);
    let (a, _) = w.append(Operation::Insert, b"k", b"v");
    let (b, _) = w.append(Operation::Delete, b"k", b"");
    assert_eq!((a, b), (1, 2));
    assert_eq!(w.next_lsn, 3);
}

#[test]
fn append_lays_out_a_record() {
    let mut w = Wal::open();
    let (_, bytes) = w.append(Operation::Insert, b"ab", b"xyz");
    assert_eq!(
        bytes,
        vec![1, 0, 0, 0, 0, 0, 0, 0, 0, 2, 0, 0, 0, 3, 0, 0, 0, b'a', b'b', b'x', b'y', b'z']
    );
    let (_, del) = w.append(Operation::Delete, b"ab", b"");
    assert_eq!(del[8], 1);
}

#[test]
fn replay_reads_back_what_was_appended() {
    let mut w = Wal::open();
    let mut log = Vec::new();
    let (_, r1) = w.append(Operation::Insert, b"key1", b"value1");
    let (_, r2) = w.append(Operation::Delete, b"key2", b"");
    log.extend_from_slice(&r1);
    log.extend_from_slice(&r2);
    let rs = w.replay(&log);
    assert_eq!(rs.len(), 2);
    assert_eq!((rs[0].lsn, rs[0].key.as_slice(), rs[0].value.as_slice()), (1, &b"key1"[..], &b"value1"[..]));
    assert_eq!((rs[1].lsn, rs[1].key.as_slice(), rs[1].value.as_slice()), (2, &b"key2"[..], &b""[..]));
    // The operation byte is written as 0 for an insert and 1 for a delete,
    // and read back with 1 as an insert and anything else as a delete.
    assert_eq!(rs[0].op, Operation::Delete);
    assert_eq!(rs[1].op, Operation::Insert);
}

#[test]
fn replay_stops_at_a_cut_record() {
    let mut w = Wal::open();
    let (_, r1) = w.append(Operation::Insert, b"k", b"v");
    let (_, r2) = w.append(Operation::Insert, b"kk", b"vv");
    let mut log = r1.clone();
    log.extend_from_slice(&r2[..r2.len() - 1]);
    let rs = w.replay(&log);
    assert_eq!(rs.len(), 1);
    assert_eq!(rs[0].key, b"k".to_vec());
    assert_eq!(w.replay(&r1[..10]).len(), 0);
    assert_eq!(w.replay(&[]).len(), 0);
}
