use vstd::prelude::*;
use vstd::bytes::{spec_u32_from_le_bytes, spec_u32_to_le_bytes, spec_u64_to_le_bytes};
use crate::store::b_plus_tree::{clone_bytes, leaf_lookup, route, visible};
use crate::store::bptree::page::{kind_code, splice, Page, PageKind, HEADER_LEN, MAGIC};
use crate::store::bptree::pager::{PageId, PAGE_SIZE};
use crate::store::keys::{count_le, key_lt, search_keys, seqs, sorted};
use crate::store::tree_proofs::{lemma_leaf_insert, lemma_leaf_lookup_absent, lemma_leaf_lookup_at, lemma_leaf_split, lemma_leaf_update, upd};

verus! {

/// A leaf node: sorted keys, their values, and the next leaf.
pub struct Leaf {
    pub keys: Vec<Vec<u8>>,
    pub vals: Vec<Vec<u8>>,
    pub next: Option<PageId>,
}

/// An internal node: separators and children.
pub struct Internal {
    pub keys: Vec<Vec<u8>>,
    pub children: Vec<PageId>,
}

/// The tree's metadata page contents.
pub struct Meta {
    pub root: PageId,
    pub order: usize,
}

/// Why a page could not be read or written.
#[derive(Debug, Clone, Copy, PartialEq, Eq)]
pub enum TreeError {
    /// The serialized leaf does not fit in a page payload.
    LeafOverflow,
    /// The serialized internal node does not fit in a page payload.
    InternalOverflow,
    /// The serialized metadata does not fit in a page payload.
    MetaOverflow,
    /// The payload length points past the end of the page.
    BadPayloadLength,
    /// The payload does not decode.
    Decode,
    /// A node could not be serialized.
    Encode,
    /// An internal node without children.
    NoChildren,
}

/// Error of the serializer.
#[verifier::external_type_specification]
#[verifier::external_body]
pub struct ExBincodeErrorKind(bincode::ErrorKind);

/// bincode's fixed-width little-endian form of a `u64` (and of a `usize`,
/// which it writes as a `u64`).
pub open spec fn enc_u64(x: u64) -> Seq<u8> {
    spec_u64_to_le_bytes(x)
}

/// bincode's form of a byte vector: its length as a `u64`, then the bytes.
pub open spec fn enc_bytes(b: Seq<u8>) -> Seq<u8> {
    enc_u64(b.len() as u64) + b
}

/// The forms of byte vectors, one after another.
pub open spec fn enc_items(v: Seq<Seq<u8>>) -> Seq<u8>
    decreases v.len(),
{
    if v.len() == 0 {
        Seq::empty()
    } else {
        enc_items(v.drop_last()) + enc_bytes(v.last())
    }
}

/// bincode's form of a vector of byte vectors: its length, then each.
pub open spec fn enc_byte_seqs(v: Seq<Seq<u8>>) -> Seq<u8> {
    enc_u64(v.len() as u64) + enc_items(v)
}

/// The forms of `u64`s, one after another.
pub open spec fn enc_u64s(v: Seq<u64>) -> Seq<u8>
    decreases v.len(),
{
    if v.len() == 0 {
        Seq::empty()
    } else {
        enc_u64s(v.drop_last()) + enc_u64(v.last())
    }
}

/// bincode's form of an `Option<u64>`: 0, or 1 and the number.
pub open spec fn enc_opt_u64(o: Option<u64>) -> Seq<u8> {
    match o {
        None => seq![0u8],
        Some(x) => seq![1u8] + enc_u64(x),
    }
}

/// The bytes that `bincode::serialize` gives for a leaf's fields: the keys,
/// the values and the next link, one after another.
pub open spec fn leaf_encoding(keys: Seq<Seq<u8>>, vals: Seq<Seq<u8>>, next: Option<u64>) -> Seq<u8> {
    enc_byte_seqs(keys) + enc_byte_seqs(vals) + enc_opt_u64(next)
}

/// What `bincode::deserialize` reads from bytes as a leaf's fields.
pub uninterp spec fn leaf_decoding(bytes: Seq<u8>) -> Option<(Seq<Seq<u8>>, Seq<Seq<u8>>, Option<u64>)>;

/// The bytes that `bincode::serialize` gives for an internal node's
/// fields: the separators, then the children's count and ids.
pub open spec fn internal_encoding(keys: Seq<Seq<u8>>, children: Seq<u64>) -> Seq<u8> {
    enc_byte_seqs(keys) + enc_u64(children.len() as u64) + enc_u64s(children)
}

/// What `bincode::deserialize` reads from bytes as an internal node's fields.
pub uninterp spec fn internal_decoding(bytes: Seq<u8>) -> Option<(Seq<Seq<u8>>, Seq<u64>)>;

/// The bytes that `bincode::serialize` gives for the metadata's fields: the
/// root id and the order, eight bytes each.
pub open spec fn meta_encoding(root: u64, order: usize) -> Seq<u8> {
    enc_u64(root) + enc_u64(order as u64)
}

/// What `bincode::deserialize` reads from bytes as the metadata's fields.
pub uninterp spec fn meta_decoding(bytes: Seq<u8>) -> Option<(u64, usize)>;

pub open spec fn leaf_fields(l: &Leaf) -> (Seq<Seq<u8>>, Seq<Seq<u8>>, Option<u64>) {
    (seqs(l.keys@), seqs(l.vals@), l.next)
}

/// `bincode::serialize` of a leaf's fields (a struct serializes as the tuple
/// of its fields). It succeeds, as serializing byte vectors and integers into
/// a growable buffer with no size limit cannot fail; the bytes are
/// `leaf_encoding` of the fields, and `bincode::deserialize` reads the same
/// fields back from them.
#[verifier::external_body]
fn serialize_leaf(l: &Leaf) -> (r: Result<Vec<u8>, Box<bincode::ErrorKind>>)
    ensures
        r is Ok,
        r matches Ok(b) ==> b@ == leaf_encoding(seqs(l.keys@), seqs(l.vals@), l.next)
            && leaf_decoding(b@) == Some(leaf_fields(l)),
{
    bincode::serialize(&(&l.keys, &l.vals, &l.next))
}

/// `bincode::deserialize` of a leaf's fields: the fields that
/// `leaf_decoding` gives, or an error exactly when it gives none.
#[verifier::external_body]
fn deserialize_leaf(bytes: &[u8]) -> (r: Result<Leaf, Box<bincode::ErrorKind>>)
    ensures
        match r {
            Ok(l) => leaf_decoding(bytes@) == Some(leaf_fields(&l)),
            Err(_) => leaf_decoding(bytes@) is None,
        },
{
    match bincode::deserialize::<(Vec<Vec<u8>>, Vec<Vec<u8>>, Option<u64>)>(bytes) {
        Ok((keys, vals, next)) => Ok(Leaf { keys, vals, next }),
        Err(e) => Err(e),
    }
}

/// `bincode::serialize` of an internal node's fields; it succeeds (nothing in
/// these types can fail to serialize), and the bytes are `internal_encoding`
/// of them and read back as the same fields.
#[verifier::external_body]
fn serialize_internal(n: &Internal) -> (r: Result<Vec<u8>, Box<bincode::ErrorKind>>)
    ensures
        r is Ok,
        r matches Ok(b) ==> b@ == internal_encoding(seqs(n.keys@), n.children@)
            && internal_decoding(b@) == Some((seqs(n.keys@), n.children@)),
{
    bincode::serialize(&(&n.keys, &n.children))
}

/// `bincode::deserialize` of an internal node's fields.
#[verifier::external_body]
fn deserialize_internal(bytes: &[u8]) -> (r: Result<Internal, Box<bincode::ErrorKind>>)
    ensures
        match r {
            Ok(n) => internal_decoding(bytes@) == Some((seqs(n.keys@), n.children@)),
            Err(_) => internal_decoding(bytes@) is None,
        },
{
    match bincode::deserialize::<(Vec<Vec<u8>>, Vec<u64>)>(bytes) {
        Ok((keys, children)) => Ok(Internal { keys, children }),
        Err(e) => Err(e),
    }
}

/// `bincode::serialize` of the metadata's fields; it succeeds, and the bytes
/// are `meta_encoding` of them and read back as the same fields.
#[verifier::external_body]
fn serialize_meta(m: &Meta) -> (r: Result<Vec<u8>, Box<bincode::ErrorKind>>)
    ensures
        r is Ok,
        r matches Ok(b) ==> b@ == meta_encoding(m.root, m.order) && meta_decoding(b@) == Some((m.root, m.order)),
{
    bincode::serialize(&(m.root, m.order))
}

/// `bincode::deserialize` of the metadata's fields.
#[verifier::external_body]
fn deserialize_meta(bytes: &[u8]) -> (r: Result<Meta, Box<bincode::ErrorKind>>)
    ensures
        match r {
            Ok(m) => meta_decoding(bytes@) == Some((m.root, m.order)),
            Err(_) => meta_decoding(bytes@) is None,
        },
{
    match bincode::deserialize::<(u64, usize)>(bytes) {
        Ok((root, order)) => Ok(Meta { root, order }),
        Err(e) => Err(e),
    }
}

/// A page as `write_leaf`, `write_internal` and `save_meta` fill it: the
/// header of `base`, with the magic, the kind byte and the payload length set,
/// and the payload written after the header.
pub open spec fn framed(base: Seq<u8>, kind: Option<PageKind>, payload: Seq<u8>) -> Seq<u8> {
    let b1 = match kind {
        Some(k) => splice(base, 0, spec_u32_to_le_bytes(MAGIC)).update(8, kind_code(k)),
        None => base,
    };
    splice(splice(b1, 12, spec_u32_to_le_bytes(payload.len() as u32)), HEADER_LEN as int, payload)
}

/// The payload that a page's header delimits, if it lies within the page.
pub open spec fn payload_of(buf: Seq<u8>) -> Option<Seq<u8>> {
    let n = spec_u32_from_le_bytes(buf.subrange(12, 16)) as int;
    if HEADER_LEN + n <= buf.len() {
        Some(buf.subrange(HEADER_LEN as int, HEADER_LEN + n))
    } else {
        None
    }
}

/// Copies `src` to the front of `dst`.
fn copy_into(dst: &mut [u8], src: &[u8])
    requires
        src@.len() <= old(dst)@.len(),
    ensures
        final(dst)@ == src@ + old(dst)@.subrange(src@.len() as int, old(dst)@.len() as int),
{
    let ghost d0 = dst@;
    let mut i: usize = 0;
    while i < src.len()
        invariant
            i <= src@.len(),
            src@.len() <= d0.len(),
            dst@.len() == d0.len(),
            forall|j: int| 0 <= j < i ==> dst@[j] == src@[j],
            forall|j: int| i <= j < d0.len() ==> dst@[j] == d0[j],
        decreases src@.len() - i,
    {
        dst[i] = src[i];
        i = i + 1;
    }
    assert(dst@ =~= src@ + d0.subrange(src@.len() as int, d0.len() as int));
}

/// Frames `bytes` into `p`: payload length, then payload.
fn put_payload(p: &mut Page, bytes: &[u8])
    requires
        bytes@.len() <= PAGE_SIZE - HEADER_LEN,
    ensures
        final(p).id == old(p).id,
        final(p).buf@ == splice(splice(old(p).buf@, 12, spec_u32_to_le_bytes(bytes@.len() as u32)), HEADER_LEN as int, bytes@),
{
    p.set_payload_len(bytes.len());
    let ghost b1 = p.buf@;
    let dst = p.payload_mut();
    copy_into(dst, bytes);
    assert(p.buf@ =~= splice(b1, HEADER_LEN as int, bytes@));
}

/// The page that `write_leaf` writes for `leaf` at `id`.
pub fn leaf_page(id: PageId, leaf: &Leaf) -> (r: Result<Page, TreeError>)
    ensures
        match r {
            Ok(p) => {
                &&& p.id == id
                &&& leaf_encoding(seqs(leaf.keys@), seqs(leaf.vals@), leaf.next).len() <= PAGE_SIZE - HEADER_LEN
                &&& p.buf@ == framed(Seq::new(PAGE_SIZE as nat, |i: int| 0u8), Some(PageKind::Leaf), leaf_encoding(seqs(leaf.keys@), seqs(leaf.vals@), leaf.next))
                &&& leaf_decoding(leaf_encoding(seqs(leaf.keys@), seqs(leaf.vals@), leaf.next)) == Some(leaf_fields(leaf))
            },
            Err(e) => e == TreeError::LeafOverflow
                && leaf_encoding(seqs(leaf.keys@), seqs(leaf.vals@), leaf.next).len() > PAGE_SIZE - HEADER_LEN,
        },
{
    let mut p = Page::new(id);
    p.set_magic();
    p.write_kind(PageKind::Leaf);
    let bytes = match serialize_leaf(leaf) {
        Ok(b) => b,
        Err(_) => {
            return Err(TreeError::Encode);
        },
    };
    if bytes.len() > PAGE_SIZE - HEADER_LEN {
        return Err(TreeError::LeafOverflow);
    }
    put_payload(&mut p, bytes.as_slice());
    Ok(p)
}

/// The page that `write_internal` writes for `node` at `id`.
pub fn internal_page(id: PageId, node: &Internal) -> (r: Result<Page, TreeError>)
    ensures
        match r {
            Ok(p) => {
                &&& p.id == id
                &&& internal_encoding(seqs(node.keys@), node.children@).len() <= PAGE_SIZE - HEADER_LEN
                &&& p.buf@ == framed(Seq::new(PAGE_SIZE as nat, |i: int| 0u8), Some(PageKind::Internal), internal_encoding(seqs(node.keys@), node.children@))
                &&& internal_decoding(internal_encoding(seqs(node.keys@), node.children@)) == Some((seqs(node.keys@), node.children@))
            },
            Err(e) => e == TreeError::InternalOverflow
                && internal_encoding(seqs(node.keys@), node.children@).len() > PAGE_SIZE - HEADER_LEN,
        },
{
    let mut p = Page::new(id);
    p.set_magic();
    p.write_kind(PageKind::Internal);
    let bytes = match serialize_internal(node) {
        Ok(b) => b,
        Err(_) => {
            return Err(TreeError::Encode);
        },
    };
    if bytes.len() > PAGE_SIZE - HEADER_LEN {
        return Err(TreeError::InternalOverflow);
    }
    put_payload(&mut p, bytes.as_slice());
    Ok(p)
}

/// The metadata page that `save_meta` writes: the page `base` read from
/// disk, with its payload replaced by the metadata.
pub fn meta_page(base: Page, meta: &Meta) -> (r: Result<Page, TreeError>)
    ensures
        match r {
            Ok(p) => {
                &&& p.id == base.id
                &&& meta_encoding(meta.root, meta.order).len() <= PAGE_SIZE - HEADER_LEN
                &&& p.buf@ == framed(base.buf@, None, meta_encoding(meta.root, meta.order))
                &&& meta_decoding(meta_encoding(meta.root, meta.order)) == Some((meta.root, meta.order))
            },
            Err(e) => e == TreeError::MetaOverflow
                && meta_encoding(meta.root, meta.order).len() > PAGE_SIZE - HEADER_LEN,
        },
{
    let mut p = base;
    let bytes = match serialize_meta(meta) {
        Ok(b) => b,
        Err(_) => {
            return Err(TreeError::Encode);
        },
    };
    if bytes.len() > PAGE_SIZE - HEADER_LEN {
        return Err(TreeError::MetaOverflow);
    }
    put_payload(&mut p, bytes.as_slice());
    Ok(p)
}

/// The payload that a page's header delimits.
fn payload_slice(buf: &[u8; PAGE_SIZE]) -> (r: Result<&[u8], TreeError>)
    ensures
        match r {
            Ok(s) => payload_of(buf@) == Some(s@),
            Err(e) => e == TreeError::BadPayloadLength && payload_of(buf@) is None,
        },
{
    let n = vstd::bytes::u32_from_le_bytes(vstd::slice::slice_subrange(buf.as_slice(), 12, 16)) as usize;
    if n > PAGE_SIZE - HEADER_LEN {
        return Err(TreeError::BadPayloadLength);
    }
    Ok(vstd::slice::slice_subrange(buf.as_slice(), HEADER_LEN, HEADER_LEN + n))
}

/// A page's node, by the kind byte: 1 internal, 2 leaf, anything else none.
pub enum PageNode {
    Internal(Internal),
    Leaf(Leaf),
    Other,
}

/// What reading a node from page bytes `buf` gives: by the kind byte, the
/// node that the payload decodes to, or why there is none.
pub open spec fn node_read(buf: Seq<u8>, r: Result<PageNode, TreeError>) -> bool {
    &&& buf[8] == 1 ==> match r {
        Ok(PageNode::Internal(n)) => payload_of(buf) matches Some(pl) && internal_decoding(pl) == Some((seqs(n.keys@), n.children@)),
        Ok(_) => false,
        Err(e) => (e == TreeError::BadPayloadLength && payload_of(buf) is None)
            || (e == TreeError::Decode && (payload_of(buf) matches Some(pl) && internal_decoding(pl) is None)),
    }
    &&& buf[8] == 2 ==> match r {
        Ok(PageNode::Leaf(l)) => payload_of(buf) matches Some(pl) && leaf_decoding(pl) == Some(leaf_fields(&l)),
        Ok(_) => false,
        Err(e) => (e == TreeError::BadPayloadLength && payload_of(buf) is None)
            || (e == TreeError::Decode && (payload_of(buf) matches Some(pl) && leaf_decoding(pl) is None)),
    }
    &&& buf[8] != 1 && buf[8] != 2 ==> r matches Ok(PageNode::Other)
}

/// Reads the node that a page holds.
pub fn read_node(buf: &[u8; PAGE_SIZE]) -> (r: Result<PageNode, TreeError>)
    ensures
        node_read(buf@, r),
{
    if buf[8] == 1 {
        let pl = match payload_slice(buf) {
            Ok(pl) => pl,
            Err(e) => {
                return Err(e);
            },
        };
        match deserialize_internal(pl) {
            Ok(n) => Ok(PageNode::Internal(n)),
            Err(_) => Err(TreeError::Decode),
        }
    } else if buf[8] == 2 {
        let pl = match payload_slice(buf) {
            Ok(pl) => pl,
            Err(e) => {
                return Err(e);
            },
        };
        match deserialize_leaf(pl) {
            Ok(l) => Ok(PageNode::Leaf(l)),
            Err(_) => Err(TreeError::Decode),
        }
    } else {
        Ok(PageNode::Other)
    }
}

/// Reads the metadata page.
pub fn read_meta(buf: &[u8; PAGE_SIZE]) -> (r: Result<Meta, TreeError>)
    ensures
        match r {
            Ok(m) => payload_of(buf@) matches Some(pl) && meta_decoding(pl) == Some((m.root, m.order)),
            Err(e) => (e == TreeError::BadPayloadLength && payload_of(buf@) is None)
                || (e == TreeError::Decode && (payload_of(buf@) matches Some(pl) && meta_decoding(pl) is None)),
        },
{
    let pl = match payload_slice(buf) {
        Ok(pl) => pl,
        Err(e) => {
            return Err(e);
        },
    };
    match deserialize_meta(pl) {
        Ok(m) => Ok(m),
        Err(_) => Err(TreeError::Decode),
    }
}


/// A leaf with parallel keys and values in increasing key order.
pub open spec fn leaf_ok(l: &Leaf) -> bool {
    l.keys@.len() == l.vals@.len() && sorted(seqs(l.keys@))
}

/// The value a leaf holds for `k`.
pub open spec fn leaf_value(l: &Leaf, k: Seq<u8>) -> Option<Seq<u8>> {
    leaf_lookup(seqs(l.keys@), seqs(l.vals@), k)
}

impl Leaf {
    /// An empty leaf with no successor.
    pub fn empty() -> (l: Self)
        ensures
            l.keys@.len() == 0,
            l.vals@.len() == 0,
            l.next is None,
            leaf_ok(&l),
    {
        Leaf { keys: Vec::new(), vals: Vec::new(), next: None }
    }

    /// Puts `key -> val`: replaces the value when the key is present
    /// (returns true), else inserts the pair at its sorted position.
    /// Over keys out of order it still replaces at a key equal to `key` or
    /// inserts the pair at one place.
    pub fn put(&mut self, key: Vec<u8>, val: Vec<u8>) -> (replaced: bool)
        requires
            old(self).keys@.len() == old(self).vals@.len(),
        ensures
            final(self).keys@.len() == final(self).vals@.len(),
            final(self).next == old(self).next,
            replaced ==> seqs(final(self).keys@) == seqs(old(self).keys@) && exists|i: int| 0 <= i < old(self).keys@.len()
                && seqs(old(self).keys@)[i] == key@ && #[trigger] seqs(final(self).vals@) == seqs(old(self).vals@).update(i, val@),
            !replaced ==> exists|i: int| 0 <= i <= old(self).keys@.len() && #[trigger] seqs(final(self).keys@)
                == seqs(old(self).keys@).insert(i, key@) && seqs(final(self).vals@) == seqs(old(self).vals@).insert(i, val@),
            leaf_ok(old(self)) ==> leaf_ok(final(self)),
            leaf_ok(old(self)) ==> replaced == seqs(old(self).keys@).contains(key@),
            leaf_ok(old(self)) && !replaced ==> seqs(final(self).keys@) == seqs(old(self).keys@).insert(count_le(seqs(old(self).keys@), key@) as int, key@),
            leaf_ok(old(self)) ==> forall|k: Seq<u8>| #[trigger] leaf_value(final(self), k) == upd(leaf_value(old(self), k), k, key@, val@),
    {
        let ghost ks0 = seqs(self.keys@);
        let ghost vs0 = seqs(self.vals@);
        match search_keys(&self.keys, key.as_slice()) {
            Ok(i) => {
                self.vals.set(i, val);
                proof {
                    assert(seqs(self.vals@) =~= vs0.update(i as int, val@));
                    assert(seqs(self.keys@) =~= ks0);
                    assert(ks0[i as int] == key@);
                    if sorted(ks0) {
                        lemma_leaf_update(ks0, vs0, i as int, val@);
                    }
                }
                true
            },
            Err(i) => {
                self.keys.insert(i, key);
                self.vals.insert(i, val);
                proof {
                    assert(seqs(self.keys@) =~= ks0.insert(i as int, key@));
                    assert(seqs(self.vals@) =~= vs0.insert(i as int, val@));
                  if sorted(ks0) {
                    lemma_leaf_insert(ks0, vs0, i as int, key@, val@);
                    assert forall|j: int| 0 <= j < ks0.len() implies ks0[j] != key@ by {
                        crate::store::keys::lemma_total(key@, ks0[j]);
                    }
                    assert forall|j: int| 0 <= j < i implies crate::store::keys::key_le(#[trigger] ks0[j], key@) by {
                        crate::store::keys::lemma_total(ks0[j], key@);
                    }
                    crate::store::keys::lemma_count_le_boundary(ks0, key@, i as int);
                  }
                }
                false
            },
        }
    }

    /// More keys than `order` allows.
    pub fn overfull(&self, order: usize) -> (b: bool)
        ensures
            b == (self.keys@.len() > order),
    {
        self.keys.len() > order
    }

    /// Moves the upper half (from `len / 2` on) to a new leaf that takes over
    /// this leaf's successor, links this leaf to `right_id`, and returns the
    /// first key of the new leaf as the separator.
    pub fn split(&mut self, right_id: PageId) -> (r: (Vec<u8>, Leaf))
        requires
            old(self).keys@.len() == old(self).vals@.len(),
            old(self).keys@.len() >= 1,
        ensures
            ({
                let ks = seqs(old(self).keys@);
                let vs = seqs(old(self).vals@);
                let mid = (ks.len() / 2) as int;
                &&& r.0@ == ks[mid]
                &&& seqs(final(self).keys@) == ks.subrange(0, mid)
                &&& seqs(final(self).vals@) == vs.subrange(0, mid)
                &&& final(self).next == Some(right_id)
                &&& seqs(r.1.keys@) == ks.subrange(mid, ks.len() as int)
                &&& seqs(r.1.vals@) == vs.subrange(mid, vs.len() as int)
                &&& r.1.next == old(self).next
                &&& final(self).keys@.len() == final(self).vals@.len()
                &&& r.1.keys@.len() == r.1.vals@.len()
                &&& leaf_ok(old(self)) ==> leaf_ok(final(self)) && leaf_ok(&r.1)
                &&& leaf_ok(old(self)) ==> forall|k: Seq<u8>| key_lt(k, ks[mid]) ==> #[trigger] leaf_value(final(self), k) == leaf_value(old(self), k)
                &&& leaf_ok(old(self)) ==> forall|k: Seq<u8>| !key_lt(k, ks[mid]) ==> #[trigger] leaf_value(&r.1, k) == leaf_value(old(self), k)
            }),
    {
        let ghost ks = seqs(self.keys@);
        let ghost vs = seqs(self.vals@);
        let mid = self.keys.len() / 2;
        let right_keys = self.keys.split_off(mid);
        let right_vals = self.vals.split_off(mid);
        let sep = clone_bytes(&right_keys[0]);
        let right = Leaf { keys: right_keys, vals: right_vals, next: self.next };
        self.next = Some(right_id);
        proof {
            if sorted(ks) {
                lemma_leaf_split(ks, vs, mid as int);
            }
            assert(seqs(self.keys@) =~= ks.subrange(0, mid as int));
            assert(seqs(self.vals@) =~= vs.subrange(0, mid as int));
            assert(seqs(right.keys@) =~= ks.subrange(mid as int, ks.len() as int));
            assert(seqs(right.vals@) =~= vs.subrange(mid as int, vs.len() as int));
        }
        (sep, right)
    }
}

/// Separators in increasing order.
pub open spec fn internal_ok(n: &Internal) -> bool {
    sorted(seqs(n.keys@))
}

impl Internal {
    /// The root created when the old root splits: one separator between the
    /// old root and its new sibling.
    pub fn new_root(sep: Vec<u8>, left: PageId, right: PageId) -> (n: Self)
        ensures
            seqs(n.keys@) == seq![sep@],
            n.children@ == seq![left, right],
            internal_ok(&n),
    {
        let mut keys: Vec<Vec<u8>> = Vec::new();
        keys.push(sep);
        let mut children: Vec<PageId> = Vec::new();
        children.push(left);
        children.push(right);
        proof {
            assert(seqs(keys@) =~= seq![sep@]);
            assert(children@ =~= seq![left, right]);
        }
        Internal { keys, children }
    }

    /// The child slot that an insert of `key` descends into: past every
    /// separator at or below `key`. None when there is no such child.
    /// Over separators out of order the slot is still one of the node's.
    pub fn child_slot(&self, key: &[u8]) -> (r: Option<usize>)
        ensures
            match r {
                Some(i) => i < self.children@.len() && i <= self.keys@.len()
                    && (internal_ok(self) ==> i == count_le(seqs(self.keys@), key@)),
                None => internal_ok(self) ==> count_le(seqs(self.keys@), key@) >= self.children@.len(),
            },
    {
        let idx = route(&self.keys, key);
        if idx < self.children.len() {
            Some(idx)
        } else {
            None
        }
    }

    /// Takes in a child's split: separator `sep` at `idx` and the new child
    /// right after the child at `idx`.
    pub fn absorb(&mut self, idx: usize, sep: Vec<u8>, right_id: PageId)
        requires
            idx <= old(self).keys@.len(),
            idx < old(self).children@.len(),
        ensures
            seqs(final(self).keys@) == seqs(old(self).keys@).insert(idx as int, sep@),
            final(self).children@ == old(self).children@.insert(idx + 1, right_id),
            final(self).keys@.len() == old(self).keys@.len() + 1,
    {
        let ghost ks = seqs(self.keys@);
        let n = self.children.len();
        assert(idx < n);
        self.keys.insert(idx, sep);
        self.children.insert(idx + 1, right_id);
        assert(seqs(self.keys@) =~= ks.insert(idx as int, sep@));
    }

    /// More separators than `order` allows.
    pub fn overfull(&self, order: usize) -> (b: bool)
        ensures
            b == (self.keys@.len() > order),
    {
        self.keys.len() > order
    }

    /// Splits at `mid = len / 2`: this node keeps separators `..= mid` and
    /// children `..= mid`; the new node takes the separators and children
    /// after `mid`; `keys[mid]` is returned to go up.
    pub fn split(&mut self) -> (r: (Vec<u8>, Internal))
        requires
            old(self).keys@.len() >= 1,
            old(self).children@.len() > old(self).keys@.len() / 2,
        ensures
            ({
                let ks = seqs(old(self).keys@);
                let cs = old(self).children@;
                let mid = (ks.len() / 2) as int;
                &&& r.0@ == ks[mid]
                &&& seqs(final(self).keys@) == ks.subrange(0, mid + 1)
                &&& final(self).children@ == cs.subrange(0, mid + 1)
                &&& seqs(r.1.keys@) == ks.subrange(mid + 1, ks.len() as int)
                &&& r.1.children@ == cs.subrange(mid + 1, cs.len() as int)
            }),
    {
        let ghost ks = seqs(self.keys@);
        let mid = self.keys.len() / 2;
        let sep_up = clone_bytes(&self.keys[mid]);
        let right_keys = self.keys.split_off(mid + 1);
        let right_children = self.children.split_off(mid + 1);
        proof {
            assert(seqs(self.keys@) =~= ks.subrange(0, mid + 1));
            assert(seqs(right_keys@) =~= ks.subrange(mid + 1, ks.len() as int));
        }
        (sep_up, Internal { keys: right_keys, children: right_children })
    }
}

/// One step of a lookup: go down to a child page, or finish with a result.
pub enum GetStep {
    Descend(PageId),
    Done(Option<Vec<u8>>),
}

/// The step that a lookup of `key` takes at a page: at an internal node, the
/// child past every separator at or below `key` (capped at the last child);
/// at a leaf, the stored value, none when absent or empty; at any other page,
/// none.
pub fn get_step(buf: &[u8; PAGE_SIZE], key: &[u8]) -> (r: Result<GetStep, TreeError>)
    ensures
        buf@[8] == 1 ==> match r {
            Ok(GetStep::Descend(c)) => payload_of(buf@) matches Some(pl) && internal_decoding(pl) matches Some((ks, cs))
                && cs.len() > 0,
            Ok(GetStep::Done(_)) => false,
            Err(e) => (e == TreeError::BadPayloadLength && payload_of(buf@) is None)
                || (e == TreeError::Decode && (payload_of(buf@) matches Some(pl) && internal_decoding(pl) is None))
                || (e == TreeError::NoChildren && (payload_of(buf@) matches Some(pl) && internal_decoding(pl) matches Some((ks, cs)) && cs.len() == 0)),
        },
        buf@[8] == 1 ==> (r matches Ok(GetStep::Descend(c)) ==> (payload_of(buf@) matches Some(pl) && internal_decoding(pl) matches Some((ks, cs))
            && (sorted(ks) ==> c == cs[if count_le(ks, key@) < cs.len() { count_le(ks, key@) as int } else { cs.len() - 1 }])
            && cs.contains(c))),
        buf@[8] == 2 ==> match r {
            Ok(GetStep::Done(v)) => payload_of(buf@) matches Some(pl) && leaf_decoding(pl) matches Some((ks, vs, nx))
                && (ks.len() == vs.len() && sorted(ks) ==> match v {
                    Some(x) => visible(leaf_lookup(ks, vs, key@)) == Some(x@),
                    None => visible(leaf_lookup(ks, vs, key@)) is None,
                })
                && (v matches Some(x) ==> exists|i: int| 0 <= i < ks.len() && i < vs.len() && ks[i] == key@ && vs[i] == x@ && x@.len() > 0)
                && (ks.len() == vs.len() && sorted(ks) ==> forall|i: int| 0 <= i < ks.len() && #[trigger] ks[i] == key@ ==>
                    (vs[i].len() > 0 ==> (v matches Some(x) && x@ == vs[i])) && (vs[i].len() == 0 ==> v is None))
                && (ks.len() == vs.len() && sorted(ks) && v is None ==> forall|i: int| 0 <= i < ks.len() && #[trigger] ks[i] == key@ ==> vs[i].len() == 0),
            Ok(GetStep::Descend(_)) => false,
            Err(e) => (e == TreeError::BadPayloadLength && payload_of(buf@) is None)
                || (e == TreeError::Decode && (payload_of(buf@) matches Some(pl) && leaf_decoding(pl) is None))
                || (e == TreeError::NoChildren && (payload_of(buf@) matches Some(pl) && leaf_decoding(pl) matches Some((ks, vs, nx)) && vs.len() < ks.len())),
        },
        buf@[8] != 1 && buf@[8] != 2 ==> r matches Ok(GetStep::Done(None)),
{
    let node = match read_node(buf) {
        Ok(n) => n,
        Err(e) => {
            return Err(e);
        },
    };
    match node {
        PageNode::Internal(node) => {
            let ghost ks = seqs(node.keys@);
            let nk = node.keys.len();
            let idx = match search_keys(&node.keys, key) {
                Ok(i) => i + 1,
                Err(i) => i,
            };
            if node.children.len() == 0 {
                assert(buf@[8] == 1);
                return Err(TreeError::NoChildren);
            }
            let last = node.children.len() - 1;
            let i = if idx >= node.children.len() { last } else { idx };
            proof {
                if sorted(ks) {
                    crate::store::keys::lemma_total(key@, key@);
                    assert(idx == count_le(ks, key@)) by {
                        let ks_n = node.keys@.len();
                        assert forall|j: int| 0 <= j < idx implies crate::store::keys::key_le(#[trigger] ks[j], key@) by {
                            crate::store::keys::lemma_total(ks[j], key@);
                            if j + 1 < idx && idx > 0 && ks[idx - 1] == key@ {
                                assert(key_lt(ks[j], ks[idx - 1]));
                            }
                        }
                        assert forall|j: int| idx <= j < ks.len() implies key_lt(key@, #[trigger] ks[j]) by {
                            if idx > 0 && ks[idx - 1] == key@ {
                                assert(key_lt(ks[idx - 1], ks[j]));
                            }
                        }
                        crate::store::keys::lemma_count_le_boundary(ks, key@, idx as int);
                    }
                }
            }
            let c = node.children[i];
            assert(0 <= i < node.children@.len() && node.children@[i as int] == c);
            assert(sorted(ks) ==> c == node.children@[if count_le(ks, key@) < node.children@.len() { count_le(ks, key@) as int } else { node.children@.len() - 1 }]);
            assert(buf@[8] == 1);
            assert(payload_of(buf@) matches Some(pl) && internal_decoding(pl) == Some((ks, node.children@)));
            assert(node.children@.len() > 0);
            assert(node.children@.contains(c));
            Ok(GetStep::Descend(c))
        },
        PageNode::Leaf(leaf) => {
            let ghost ks = seqs(leaf.keys@);
            let ghost vs = seqs(leaf.vals@);
            match search_keys(&leaf.keys, key) {
                Ok(i) => {
                    if i >= leaf.vals.len() {
                        return Err(TreeError::NoChildren);
                    }
                    let v = clone_bytes(&leaf.vals[i]);
                    proof {
                        assert(ks[i as int] == key@);
                        if ks.len() == vs.len() && sorted(ks) {
                            lemma_leaf_lookup_at(ks, vs, i as int);
                            assert forall|j: int| 0 <= j < ks.len() && #[trigger] ks[j] == key@ implies j == i by {
                                if j < i {
                                    assert(key_lt(ks[j], ks[i as int]));
                                    crate::store::keys::lemma_total(ks[i as int], ks[j]);
                                } else if j > i {
                                    assert(key_lt(ks[i as int], ks[j]));
                                    crate::store::keys::lemma_total(ks[i as int], ks[j]);
                                }
                            }
                        }
                    }
                    if v.len() == 0 {
                        Ok(GetStep::Done(None))
                    } else {
                        Ok(GetStep::Done(Some(v)))
                    }
                },
                Err(i) => {
                    proof {
                        if ks.len() == vs.len() && sorted(ks) {
                            assert forall|j: int| 0 <= j < ks.len() implies ks[j] != key@ by {
                                crate::store::keys::lemma_total(key@, ks[j]);
                            }
                            lemma_leaf_lookup_absent(ks, vs, key@);
                        }
                    }
                    Ok(GetStep::Done(None))
                },
            }
        },
        PageNode::Other => Ok(GetStep::Done(None)),
    }
}

/// The tree's root pointer and order; its pages are read and written by the caller.
pub struct BPlusTree {
    pub meta_id: PageId,
    pub root: PageId,
    pub order: usize,
}

impl BPlusTree {
    /// A new tree over an empty file: the metadata at `meta_id`, an empty
    /// leaf root at `root_id`, and `order` raised to at least 4. Returns the
    /// tree and the root leaf and metadata to write.
    pub fn create(meta_id: PageId, root_id: PageId, order: usize) -> (r: (BPlusTree, Leaf, Meta))
        ensures
            r.0.meta_id == meta_id,
            r.0.root == root_id,
            r.0.order == if order > 4 { order } else { 4 },
            r.1.keys@.len() == 0 && r.1.vals@.len() == 0 && r.1.next is None,
            r.2.root == root_id,
            r.2.order == r.0.order,
    {
        let o = if order > 4 { order } else { 4 };
        (BPlusTree { meta_id, root: root_id, order: o }, Leaf::empty(), Meta { root: root_id, order: o })
    }

    /// A tree over an existing file, from the metadata read at page 0.
    pub fn from_meta(meta: &Meta) -> (t: BPlusTree)
        ensures
            t.meta_id == 0,
            t.root == meta.root,
            t.order == meta.order,
    {
        BPlusTree { meta_id: 0, root: meta.root, order: meta.order }
    }

    /// The metadata that `save_meta` records.
    pub fn meta(&self) -> (m: Meta)
        ensures
            m.root == self.root,
            m.order == self.order,
    {
        Meta { root: self.root, order: self.order }
    }

    /// Grows the tree when the root split: a new root at `new_root` over the
    /// old root and `right_id`, separated by `sep`.
    pub fn grow_root(&mut self, sep: Vec<u8>, right_id: PageId, new_root: PageId) -> (n: Internal)
        ensures
            seqs(n.keys@) == seq![sep@],
            n.children@ == seq![old(self).root, right_id],
            final(self).root == new_root,
            final(self).meta_id == old(self).meta_id,
            final(self).order == old(self).order,
    {
        let n = Internal::new_root(sep, self.root, right_id);
        self.root = new_root;
        n
    }
}

/// The bytes of a leaf page for a leaf with these fields, and what they read
/// back as.
pub open spec fn leaf_page_of(p: Page, id: PageId, ks: Seq<Seq<u8>>, vs: Seq<Seq<u8>>, nx: Option<PageId>) -> bool {
    let enc = leaf_encoding(ks, vs, nx);
    &&& p.id == id
    &&& enc.len() <= PAGE_SIZE - HEADER_LEN
    &&& p.buf@ == framed(Seq::new(PAGE_SIZE as nat, |i: int| 0u8), Some(PageKind::Leaf), enc)
    &&& leaf_decoding(enc) == Some((ks, vs, nx))
}

/// The bytes of an internal page for a node with these fields, and what they
/// read back as.
pub open spec fn internal_page_of(p: Page, id: PageId, ks: Seq<Seq<u8>>, cs: Seq<PageId>) -> bool {
    let enc = internal_encoding(ks, cs);
    &&& p.id == id
    &&& enc.len() <= PAGE_SIZE - HEADER_LEN
    &&& p.buf@ == framed(Seq::new(PAGE_SIZE as nat, |i: int| 0u8), Some(PageKind::Internal), enc)
    &&& internal_decoding(enc) == Some((ks, cs))
}

/// What an insert does at a node page: write the changed node back in place,
/// or split it, once a fresh page is allocated, because it grew past `order`.
pub enum NodeStep<N> {
    Write(N),
    Overfull(N),
}

/// The node inside a step.
pub open spec fn step_node<N>(r: NodeStep<N>) -> N {
    match r {
        NodeStep::Write(n) => n,
        NodeStep::Overfull(n) => n,
    }
}

/// The insert at a leaf page: puts `key -> val` into the leaf read there (a
/// present key has its value replaced, a new one goes in by binary search)
/// and reports the leaf overfull when a new key took it past `order` keys.
pub fn leaf_insert_step(leaf: Leaf, key: Vec<u8>, val: Vec<u8>, order: usize) -> (r: NodeStep<Leaf>)
    requires
        leaf.keys@.len() == leaf.vals@.len(),
    ensures
        ({
            let l = step_node(r);
            let ks = seqs(leaf.keys@);
            let vs = seqs(leaf.vals@);
            &&& l.keys@.len() == l.vals@.len()
            &&& l.next == leaf.next
            &&& (l.keys@.len() == ks.len() ==> seqs(l.keys@) == ks && exists|i: int| 0 <= i < ks.len() && ks[i] == key@
                && #[trigger] seqs(l.vals@) == vs.update(i, val@))
            &&& (l.keys@.len() != ks.len() ==> exists|i: int| 0 <= i <= ks.len() && #[trigger] seqs(l.keys@) == ks.insert(i, key@)
                && seqs(l.vals@) == vs.insert(i, val@))
            &&& leaf_ok(&leaf) ==> leaf_ok(&l) && (l.keys@.len() == ks.len() <==> ks.contains(key@))
            &&& leaf_ok(&leaf) && !ks.contains(key@) ==> seqs(l.keys@) == ks.insert(count_le(ks, key@) as int, key@)
            &&& leaf_ok(&leaf) ==> forall|k: Seq<u8>| #[trigger] leaf_value(&l, k) == upd(leaf_value(&leaf, k), k, key@, val@)
            &&& (r is Overfull <==> l.keys@.len() == ks.len() + 1 && l.keys@.len() > order)
        }),
{
    let mut l = leaf;
    let replaced = l.put(key, val);
    proof {
        if !replaced {
            let i = choose|i: int| 0 <= i <= leaf.keys@.len() && #[trigger] seqs(l.keys@) == seqs(leaf.keys@).insert(i, key@)
                && seqs(l.vals@) == seqs(leaf.vals@).insert(i, val@);
            assert(seqs(l.keys@).len() == seqs(leaf.keys@).len() + 1);
        }
    }
    if !replaced && l.overfull(order) {
        NodeStep::Overfull(l)
    } else {
        NodeStep::Write(l)
    }
}

/// The page of a leaf at `id`, or its overflow (see `leaf_page`).
pub open spec fn leaf_page_result(r: Result<Page, TreeError>, id: PageId, ks: Seq<Seq<u8>>, vs: Seq<Seq<u8>>, nx: Option<PageId>) -> bool {
    match r {
        Ok(p) => leaf_page_of(p, id, ks, vs, nx),
        Err(e) => e == TreeError::LeafOverflow && leaf_encoding(ks, vs, nx).len() > PAGE_SIZE - HEADER_LEN,
    }
}

/// The page of an internal node at `id`, or its overflow (see `internal_page`).
pub open spec fn internal_page_result(r: Result<Page, TreeError>, id: PageId, ks: Seq<Seq<u8>>, cs: Seq<PageId>) -> bool {
    match r {
        Ok(p) => internal_page_of(p, id, ks, cs),
        Err(e) => e == TreeError::InternalOverflow && internal_encoding(ks, cs).len() > PAGE_SIZE - HEADER_LEN,
    }
}

/// Splits an overfull leaf between its own page `node_id` and the fresh
/// page `right_id` (see `Leaf::split`): the separator to hand up and the
/// pages of the left and right halves, to be written in that order.
pub fn leaf_split_step(node_id: PageId, leaf: Leaf, right_id: PageId) -> (r: (Vec<u8>, Result<Page, TreeError>, Result<Page, TreeError>))
    requires
        leaf.keys@.len() == leaf.vals@.len(),
        leaf.keys@.len() >= 1,
    ensures
        ({
            let ks = seqs(leaf.keys@);
            let vs = seqs(leaf.vals@);
            let mid = (ks.len() / 2) as int;
            &&& r.0@ == ks[mid]
            &&& leaf_page_result(r.1, node_id, ks.subrange(0, mid), vs.subrange(0, mid), Some(right_id))
            &&& leaf_page_result(r.2, right_id, ks.subrange(mid, ks.len() as int), vs.subrange(mid, vs.len() as int), leaf.next)
        }),
{
    let mut left = leaf;
    let (sep, right) = left.split(right_id);
    let lp = leaf_page(node_id, &left);
    let rp = leaf_page(right_id, &right);
    (sep, lp, rp)
}

/// The insert at an internal page after the child at `idx` split into a new
/// child `right_id` with separator `sep`: takes both in, and reports the
/// node overfull when it now holds more than `order` separators.
pub fn internal_insert_step(node: Internal, idx: usize, sep: Vec<u8>, right_id: PageId, order: usize) -> (r: NodeStep<Internal>)
    requires
        idx <= node.keys@.len(),
        idx < node.children@.len(),
    ensures
        seqs(step_node(r).keys@) == seqs(node.keys@).insert(idx as int, sep@),
        step_node(r).children@ == node.children@.insert(idx + 1, right_id),
        r is Overfull <==> node.keys@.len() + 1 > order,
{
    let mut n = node;
    n.absorb(idx, sep, right_id);
    if n.overfull(order) {
        NodeStep::Overfull(n)
    } else {
        NodeStep::Write(n)
    }
}

/// Splits an overfull internal node between its own page `node_id` and the
/// fresh page `right_id` (see `Internal::split`): the separator to hand up
/// and the pages of the left and right halves, to be written in that order.
pub fn internal_split_step(node_id: PageId, node: Internal, right_id: PageId) -> (r: (Vec<u8>, Result<Page, TreeError>, Result<Page, TreeError>))
    requires
        node.keys@.len() >= 1,
        node.children@.len() > node.keys@.len() / 2,
    ensures
        ({
            let ks = seqs(node.keys@);
            let cs = node.children@;
            let mid = (ks.len() / 2) as int;
            &&& r.0@ == ks[mid]
            &&& internal_page_result(r.1, node_id, ks.subrange(0, mid + 1), cs.subrange(0, mid + 1))
            &&& internal_page_result(r.2, right_id, ks.subrange(mid + 1, ks.len() as int), cs.subrange(mid + 1, cs.len() as int))
        }),
{
    let mut left = node;
    let (sep, right) = left.split();
    let lp = internal_page(node_id, &left);
    let rp = internal_page(right_id, &right);
    (sep, lp, rp)
}

/// A framed page reads back its payload, and the kind it was framed with.
pub proof fn lemma_framed_read_back(base: Seq<u8>, kind: Option<PageKind>, payload: Seq<u8>)
    requires
        base.len() == PAGE_SIZE,
        payload.len() <= PAGE_SIZE - HEADER_LEN,
    ensures
        framed(base, kind, payload).len() == PAGE_SIZE,
        payload_of(framed(base, kind, payload)) == Some(payload),
        kind matches Some(k) ==> framed(base, kind, payload)[8] == kind_code(k),
        kind is None ==> framed(base, kind, payload)[8] == base[8],
{
    vstd::bytes::lemma_auto_spec_u32_to_from_le_bytes();
    let b1 = match kind {
        Some(k) => splice(base, 0, spec_u32_to_le_bytes(MAGIC)).update(8, kind_code(k)),
        None => base,
    };
    let lb = spec_u32_to_le_bytes(payload.len() as u32);
    let b2 = splice(b1, 12, lb);
    let b3 = splice(b2, HEADER_LEN as int, payload);
    assert(b3.subrange(12, 16) =~= lb);
    assert((payload.len() as u32) as int == payload.len());
    assert(b3.subrange(HEADER_LEN as int, HEADER_LEN + payload.len()) =~= payload);
}

/// What `write_leaf` writes, `read_node` reads back: a leaf page read gives
/// a leaf with the same keys, values and successor.
pub proof fn lemma_leaf_page_read_back(leaf: &Leaf, p: Page, r: Result<PageNode, TreeError>)
    requires
        ({
            let enc = leaf_encoding(seqs(leaf.keys@), seqs(leaf.vals@), leaf.next);
            &&& enc.len() <= PAGE_SIZE - HEADER_LEN
            &&& p.buf@ == framed(Seq::new(PAGE_SIZE as nat, |i: int| 0u8), Some(PageKind::Leaf), enc)
            &&& leaf_decoding(enc) == Some(leaf_fields(leaf))
        }),
        node_read(p.buf@, r),
    ensures
        r matches Ok(PageNode::Leaf(l)) && leaf_fields(&l) == leaf_fields(leaf),
{
    let enc = leaf_encoding(seqs(leaf.keys@), seqs(leaf.vals@), leaf.next);
    lemma_framed_read_back(Seq::new(PAGE_SIZE as nat, |i: int| 0u8), Some(PageKind::Leaf), enc);
}

/// What `write_internal` writes, `read_node` reads back: an internal page
/// read gives a node with the same separators and children.
pub proof fn lemma_internal_page_read_back(node: &Internal, p: Page, r: Result<PageNode, TreeError>)
    requires
        ({
            let enc = internal_encoding(seqs(node.keys@), node.children@);
            &&& enc.len() <= PAGE_SIZE - HEADER_LEN
            &&& p.buf@ == framed(Seq::new(PAGE_SIZE as nat, |i: int| 0u8), Some(PageKind::Internal), enc)
            &&& internal_decoding(enc) == Some((seqs(node.keys@), node.children@))
        }),
        node_read(p.buf@, r),
    ensures
        r matches Ok(PageNode::Internal(n)) && seqs(n.keys@) == seqs(node.keys@) && n.children@ == node.children@,
{
    let enc = internal_encoding(seqs(node.keys@), node.children@);
    lemma_framed_read_back(Seq::new(PAGE_SIZE as nat, |i: int| 0u8), Some(PageKind::Internal), enc);
}

} // verus!
