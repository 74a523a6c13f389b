use vstd::prelude::*;
use vstd::bytes::{
    lemma_auto_spec_u32_to_from_le_bytes, lemma_auto_spec_u64_to_from_le_bytes, spec_u32_from_le_bytes,
    spec_u32_to_le_bytes, spec_u64_from_le_bytes, spec_u64_to_le_bytes, u32_from_le_bytes, u32_to_le_bytes,
    u64_from_le_bytes, u64_to_le_bytes,
};
use vstd::slice::slice_subrange;
use crate::store::bptree::pager::{PageId, PAGE_SIZE};

verus! {

/// What a page holds, as recorded in byte 8 of its header.
#[derive(Debug, Clone, Copy, PartialEq, Eq)]
pub enum PageKind {
    Meta,
    Internal,
    Leaf,
}

/// The number written for a page kind: 0, 1 or 2.
pub open spec fn kind_code(k: PageKind) -> u8 {
    match k {
        PageKind::Meta => 0,
        PageKind::Internal => 1,
        PageKind::Leaf => 2,
    }
}

/// The kind read back from a code; unknown codes read as `Meta`.
pub open spec fn kind_of_code(b: u8) -> PageKind {
    if b == 1 {
        PageKind::Internal
    } else if b == 2 {
        PageKind::Leaf
    } else {
        PageKind::Meta
    }
}

/// The number that marks a formatted page.
pub const MAGIC: u32 = 0x4250_5445;

/// Where the payload starts: after the magic (0..4), the kind (8), the
/// payload length (12..16) and the log sequence number (16..24).
pub const HEADER_LEN: usize = 24;

/// A page of the data file: its id and its bytes.
pub struct Page {
    pub id: PageId,
    pub buf: [u8; PAGE_SIZE],
}

/// `bytes` written into `buf` at `at`.
pub open spec fn splice(buf: Seq<u8>, at: int, bytes: Seq<u8>) -> Seq<u8> {
    buf.subrange(0, at) + bytes + buf.subrange(at + bytes.len(), buf.len() as int)
}

impl Page {
    /// A zeroed page.
    pub fn new(page_id: PageId) -> (p: Self)
        ensures
            p.id == page_id,
            p.buf@ == Seq::new(PAGE_SIZE as nat, |i: int| 0u8),
    {
        let p = Page { id: page_id, buf: [0u8; PAGE_SIZE] };
        assert(p.buf@ =~= Seq::new(PAGE_SIZE as nat, |i: int| 0u8));
        p
    }

    /// The kind recorded in byte 8.
    pub fn read_kind(&self) -> (k: PageKind)
        ensures
            k == kind_of_code(self.buf@[8]),
    {
        match self.buf[8] {
            1 => PageKind::Internal,
            2 => PageKind::Leaf,
            _ => PageKind::Meta,
        }
    }

    /// Records `k` in byte 8.
    pub fn write_kind(&mut self, k: PageKind)
        ensures
            final(self).id == old(self).id,
            final(self).buf@ == old(self).buf@.update(8, kind_code(k)),
    {
        self.buf[8] = match k {
            PageKind::Meta => 0,
            PageKind::Internal => 1,
            PageKind::Leaf => 2,
        };
    }

    fn write_bytes(&mut self, at: usize, bytes: &[u8])
        requires
            at + bytes@.len() <= PAGE_SIZE,
        ensures
            final(self).id == old(self).id,
            final(self).buf@ == splice(old(self).buf@, at as int, bytes@),
    {
        let ghost b0 = self.buf@;
        let mut i: usize = 0;
        while i < bytes.len()
            invariant
                at + bytes@.len() <= PAGE_SIZE,
                i <= bytes@.len(),
                self.id == old(self).id,
                self.buf@.len() == PAGE_SIZE,
                forall|j: int| 0 <= j < at ==> self.buf@[j] == b0[j],
                forall|j: int| at + bytes@.len() <= j < PAGE_SIZE ==> self.buf@[j] == b0[j],
                forall|j: int| at <= j < at + i ==> self.buf@[j] == bytes@[j - at],
                forall|j: int| at + i <= j < at + bytes@.len() ==> self.buf@[j] == b0[j],
                b0 == old(self).buf@,
            decreases bytes@.len() - i,
        {
            self.buf[at + i] = bytes[i];
            i = i + 1;
        }
        assert(self.buf@ =~= splice(b0, at as int, bytes@));
    }

    /// Writes the magic number into bytes 0..4.
    pub fn set_magic(&mut self)
        ensures
            final(self).id == old(self).id,
            final(self).buf@ == splice(old(self).buf@, 0, spec_u32_to_le_bytes(MAGIC)),
    {
        let b = u32_to_le_bytes(MAGIC);
        self.write_bytes(0, b.as_slice());
    }

    /// Whether bytes 0..4 hold the magic number.
    pub fn ok_magic(&self) -> (b: bool)
        ensures
            b == (spec_u32_from_le_bytes(self.buf@.subrange(0, 4)) == MAGIC),
    {
        u32_from_le_bytes(slice_subrange(self.buf.as_slice(), 0, 4)) == MAGIC
    }

    /// The payload length recorded in bytes 12..16.
    pub fn payload_len(&self) -> (n: usize)
        ensures
            n == spec_u32_from_le_bytes(self.buf@.subrange(12, 16)),
    {
        u32_from_le_bytes(slice_subrange(self.buf.as_slice(), 12, 16)) as usize
    }

    /// Records `n`, cut to 32 bits, as the payload length in bytes 12..16.
    pub fn set_payload_len(&mut self, n: usize)
        ensures
            final(self).id == old(self).id,
            final(self).buf@ == splice(old(self).buf@, 12, spec_u32_to_le_bytes(n as u32)),
    {
        let b = u32_to_le_bytes(n as u32);
        self.write_bytes(12, b.as_slice());
    }

    /// The log sequence number recorded in bytes 16..24.
    pub fn lsn(&self) -> (n: u64)
        ensures
            n == spec_u64_from_le_bytes(self.buf@.subrange(16, 24)),
    {
        u64_from_le_bytes(slice_subrange(self.buf.as_slice(), 16, 24))
    }

    /// Records `n` as the log sequence number in bytes 16..24.
    pub fn set_lsn(&mut self, n: u64)
        ensures
            final(self).id == old(self).id,
            final(self).buf@ == splice(old(self).buf@, 16, spec_u64_to_le_bytes(n)),
    {
        let b = u64_to_le_bytes(n);
        self.write_bytes(16, b.as_slice());
    }

    /// The payload (byte 24 on), to write into.
    pub fn payload_mut(&mut self) -> (r: &mut [u8])
        ensures
            r@ == old(self).buf@.subrange(HEADER_LEN as int, PAGE_SIZE as int),
            final(self).id == old(self).id,
            final(self).buf@ == old(self).buf@.subrange(0, HEADER_LEN as int) + final(r)@,
    {
        let (_, tail) = self.buf.split_at_mut(HEADER_LEN);
        tail
    }

    /// The payload: bytes 24 to the end of the page.
    pub fn payload(&self) -> (s: &[u8])
        ensures
            s@ == self.buf@.subrange(HEADER_LEN as int, PAGE_SIZE as int),
    {
        slice_subrange(self.buf.as_slice(), HEADER_LEN, PAGE_SIZE)
    }
}

/// What the header reads give back of the header writes: a page's kind,
/// payload length, log sequence number and magic read back as written, and
/// each write leaves the other header fields and the payload as they were.
pub proof fn lemma_header_round_trip(buf: Seq<u8>, k: PageKind, len: u32, n: u64)
    requires
        buf.len() == PAGE_SIZE,
    ensures
        kind_of_code(buf.update(8, kind_code(k))[8]) == k,
        spec_u32_from_le_bytes(splice(buf, 12, spec_u32_to_le_bytes(len)).subrange(12, 16)) == len,
        spec_u64_from_le_bytes(splice(buf, 16, spec_u64_to_le_bytes(n)).subrange(16, 24)) == n,
        spec_u32_from_le_bytes(splice(buf, 0, spec_u32_to_le_bytes(MAGIC)).subrange(0, 4)) == MAGIC,
        ({
            let w = buf.update(8, kind_code(k));
            &&& w.subrange(0, 4) == buf.subrange(0, 4)
            &&& w.subrange(12, 16) == buf.subrange(12, 16)
            &&& w.subrange(16, 24) == buf.subrange(16, 24)
            &&& w.subrange(24, PAGE_SIZE as int) == buf.subrange(24, PAGE_SIZE as int)
        }),
        ({
            let w = splice(buf, 12, spec_u32_to_le_bytes(len));
            &&& w.len() == PAGE_SIZE
            &&& w.subrange(0, 4) == buf.subrange(0, 4)
            &&& w[8] == buf[8]
            &&& w.subrange(16, 24) == buf.subrange(16, 24)
            &&& w.subrange(24, PAGE_SIZE as int) == buf.subrange(24, PAGE_SIZE as int)
        }),
        ({
            let w = splice(buf, 16, spec_u64_to_le_bytes(n));
            &&& w.len() == PAGE_SIZE
            &&& w.subrange(0, 4) == buf.subrange(0, 4)
            &&& w[8] == buf[8]
            &&& w.subrange(12, 16) == buf.subrange(12, 16)
            &&& w.subrange(24, PAGE_SIZE as int) == buf.subrange(24, PAGE_SIZE as int)
        }),
        ({
            let w = splice(buf, 0, spec_u32_to_le_bytes(MAGIC));
            &&& w.len() == PAGE_SIZE
            &&& w[8] == buf[8]
            &&& w.subrange(12, 16) == buf.subrange(12, 16)
            &&& w.subrange(16, 24) == buf.subrange(16, 24)
            &&& w.subrange(24, PAGE_SIZE as int) == buf.subrange(24, PAGE_SIZE as int)
        }),
{
    lemma_auto_spec_u32_to_from_le_bytes();
    lemma_auto_spec_u64_to_from_le_bytes();
    let bl = spec_u32_to_le_bytes(len);
    let bn = spec_u64_to_le_bytes(n);
    let bm = spec_u32_to_le_bytes(MAGIC);
    assert(splice(buf, 12, bl).subrange(12, 16) =~= bl);
    assert(splice(buf, 16, bn).subrange(16, 24) =~= bn);
    assert(splice(buf, 0, bm).subrange(0, 4) =~= bm);
    let w = buf.update(8, kind_code(k));
    assert(w.subrange(0, 4) =~= buf.subrange(0, 4));
    assert(w.subrange(12, 16) =~= buf.subrange(12, 16));
    assert(w.subrange(16, 24) =~= buf.subrange(16, 24));
    assert(w.subrange(24, PAGE_SIZE as int) =~= buf.subrange(24, PAGE_SIZE as int));
    let w = splice(buf, 12, bl);
    assert(w.subrange(0, 4) =~= buf.subrange(0, 4));
    assert(w.subrange(16, 24) =~= buf.subrange(16, 24));
    assert(w.subrange(24, PAGE_SIZE as int) =~= buf.subrange(24, PAGE_SIZE as int));
    let w = splice(buf, 16, bn);
    assert(w.subrange(0, 4) =~= buf.subrange(0, 4));
    assert(w.subrange(12, 16) =~= buf.subrange(12, 16));
    assert(w.subrange(24, PAGE_SIZE as int) =~= buf.subrange(24, PAGE_SIZE as int));
    let w = splice(buf, 0, bm);
    assert(w.subrange(12, 16) =~= buf.subrange(12, 16));
    assert(w.subrange(16, 24) =~= buf.subrange(16, 24));
    assert(w.subrange(24, PAGE_SIZE as int) =~= buf.subrange(24, PAGE_SIZE as int));
}

/// A write to a page other than its kind: what `set_magic`, `set_payload_len`
/// (of a 32-bit length), `set_lsn` and a write through `payload_mut` (of a
/// whole new payload) do.
pub enum PageWrite {
    Magic,
    PayloadLen(u32),
    Lsn(u64),
    Payload(Seq<u8>),
}

/// The page bytes after one such write.
pub open spec fn apply_write(buf: Seq<u8>, w: PageWrite) -> Seq<u8> {
    match w {
        PageWrite::Magic => splice(buf, 0, spec_u32_to_le_bytes(MAGIC)),
        PageWrite::PayloadLen(n) => splice(buf, 12, spec_u32_to_le_bytes(n)),
        PageWrite::Lsn(n) => splice(buf, 16, spec_u64_to_le_bytes(n)),
        PageWrite::Payload(p) => buf.subrange(0, HEADER_LEN as int) + p,
    }
}

/// The page bytes after a sequence of such writes.
pub open spec fn apply_writes(buf: Seq<u8>, ws: Seq<PageWrite>) -> Seq<u8>
    decreases ws.len(),
{
    if ws.len() == 0 {
        buf
    } else {
        apply_writes(apply_write(buf, ws[0]), ws.drop_first())
    }
}

/// A page's kind reads back as written, whatever other header fields and
/// payloads are written after it.
pub proof fn lemma_kind_survives(buf: Seq<u8>, k: PageKind, ws: Seq<PageWrite>)
    requires
        buf.len() == PAGE_SIZE,
        forall|i: int| 0 <= i < ws.len() ==> (#[trigger] ws[i] matches PageWrite::Payload(p) ==> p.len() == PAGE_SIZE - HEADER_LEN),
    ensures
        apply_writes(buf.update(8, kind_code(k)), ws).len() == PAGE_SIZE,
        kind_of_code(apply_writes(buf.update(8, kind_code(k)), ws)[8]) == k,
    decreases ws.len(),
{
    let b0 = buf.update(8, kind_code(k));
    if ws.len() > 0 {
        lemma_auto_spec_u32_to_from_le_bytes();
        lemma_auto_spec_u64_to_from_le_bytes();
        let b1 = apply_write(b0, ws[0]);
        assert(b1.len() == PAGE_SIZE);
        assert(b1[8] == kind_code(k));
        assert(b1 =~= b1.update(8, kind_code(k)));
        let rest = ws.drop_first();
        assert forall|i: int| 0 <= i < rest.len() implies (#[trigger] rest[i] matches PageWrite::Payload(p) ==> p.len() == PAGE_SIZE - HEADER_LEN) by {
            assert(rest[i] == ws[i + 1]);
        }
        lemma_kind_survives(b1, k, rest);
    }
}

} // verus!
