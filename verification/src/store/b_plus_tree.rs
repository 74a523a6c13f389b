use vstd::prelude::*;
use vstd::string::StringSliceAdditionalSpecFns;
use std::collections::HashMap;
use crate::store::keys::{count_le, key_le, key_lt, search_keys, seqs, sorted};
use crate::store::tree_proofs::{
    children_ok, lemma_count_le_boundary_sorted, lemma_finish_keep, lemma_finish_split, lemma_frame,
    lemma_internal_unfold, lemma_leaf_insert, lemma_leaf_lookup_absent, lemma_leaf_lookup_at,
    lemma_leaf_split, lemma_leaf_update, lemma_put_absorb, lemma_put_keep, lemma_reach_child,
    lemma_route, lemma_wf_reach_in_dom, put_result, upd,
};

verus! {

broadcast use vstd::std_specs::hash::group_hash_axioms;

pub type NodeId = u64;

/// A node of the in-memory B+ tree.
pub enum Node {
    Internal { keys: Vec<Vec<u8>>, children: Vec<NodeId> },
    Leaf { keys: Vec<Vec<u8>>, vals: Vec<Vec<u8>>, next: Option<NodeId> },
}

/// An in-memory B+ tree whose nodes live in a map from node id to node.
pub struct BpTree {
    pub order: usize,
    pub root: NodeId,
    pub next_id: NodeId,
    pub nodes: HashMap<NodeId, Node>,
    /// The number of internal levels above the leaves.
    pub height: Ghost<nat>,
}

/// The value stored with `k` in a leaf, if the leaf holds `k`.
pub open spec fn leaf_lookup(keys: Seq<Seq<u8>>, vals: Seq<Seq<u8>>, k: Seq<u8>) -> Option<Seq<u8>> {
    if exists|i: int| 0 <= i < keys.len() && keys[i] == k {
        Some(vals[choose|i: int| 0 <= i < keys.len() && keys[i] == k])
    } else {
        None
    }
}

/// `k` is at or above the lower bound `lo` (none: unbounded).
pub open spec fn ge_lo(k: Seq<u8>, lo: Option<Seq<u8>>) -> bool {
    match lo {
        None => true,
        Some(l) => key_le(l, k),
    }
}

/// `k` is strictly above the lower bound `lo` (none: unbounded).
pub open spec fn gt_lo(k: Seq<u8>, lo: Option<Seq<u8>>) -> bool {
    match lo {
        None => true,
        Some(l) => key_lt(l, k),
    }
}

/// `k` is strictly below the upper bound `hi` (none: unbounded).
pub open spec fn lt_hi(k: Seq<u8>, hi: Option<Seq<u8>>) -> bool {
    match hi {
        None => true,
        Some(h) => key_lt(k, h),
    }
}

pub open spec fn in_range(k: Seq<u8>, lo: Option<Seq<u8>>, hi: Option<Seq<u8>>) -> bool {
    ge_lo(k, lo) && lt_hi(k, hi)
}

/// Lower bound of the keys under the `i`-th child.
pub open spec fn child_lo(keys: Seq<Seq<u8>>, lo: Option<Seq<u8>>, i: int) -> Option<Seq<u8>> {
    if i == 0 {
        lo
    } else {
        Some(keys[i - 1])
    }
}

/// Upper bound of the keys under the `i`-th child.
pub open spec fn child_hi(keys: Seq<Seq<u8>>, hi: Option<Seq<u8>>, i: int) -> Option<Seq<u8>> {
    if i >= keys.len() {
        hi
    } else {
        Some(keys[i])
    }
}

/// The child that a search for `k` descends into: the number of separators
/// at or below `k`, capped at the last child.
pub open spec fn child_index(keys: Seq<Seq<u8>>, n_children: int, k: Seq<u8>) -> int {
    let c = count_le(keys, k) as int;
    if c < n_children {
        c
    } else {
        n_children - 1
    }
}

/// The value that a search for `k` from node `id`, `h` levels above the
/// leaves, finds.
pub open spec fn lookup(m: Map<NodeId, Node>, id: NodeId, h: nat, k: Seq<u8>) -> Option<Seq<u8>>
    decreases h,
{
    if !m.contains_key(id) {
        None
    } else {
        match m[id] {
            Node::Leaf { keys, vals, .. } => leaf_lookup(seqs(keys@), seqs(vals@), k),
            Node::Internal { keys, children } => {
                if h == 0 || children@.len() == 0 {
                    None
                } else {
                    lookup(
                        m,
                        children@[child_index(seqs(keys@), children@.len() as int, k)],
                        (h - 1) as nat,
                        k,
                    )
                }
            },
        }
    }
}

/// The ids of the nodes under `id` (itself included).
pub open spec fn reach(m: Map<NodeId, Node>, id: NodeId, h: nat) -> Set<NodeId>
    decreases h, 0nat,
{
    if h > 0 && m.contains_key(id) && m[id] is Internal {
        set![id].union(reach_all(m, m[id]->Internal_children@, (h - 1) as nat))
    } else {
        set![id]
    }
}

/// The ids of the nodes under any of `cs`.
pub open spec fn reach_all(m: Map<NodeId, Node>, cs: Seq<NodeId>, h: nat) -> Set<NodeId>
    decreases h, cs.len() + 1,
{
    if cs.len() == 0 {
        Set::empty()
    } else {
        reach_all(m, cs.drop_last(), h).union(reach(m, cs.last(), h))
    }
}

/// Node `id` roots a well-formed subtree of height `h` whose keys lie in
/// `[lo, hi)`: sorted keys, searchable separators, leaves all at the bottom,
/// and children whose subtrees share no node.
pub open spec fn wf_node(m: Map<NodeId, Node>, id: NodeId, h: nat, lo: Option<Seq<u8>>, hi: Option<Seq<u8>>) -> bool
    decreases h,
{
    m.contains_key(id) && match m[id] {
        Node::Leaf { keys, vals, .. } => {
            let ks = seqs(keys@);
            &&& h == 0
            &&& keys@.len() == vals@.len()
            &&& sorted(ks)
            &&& forall|j: int| 0 <= j < ks.len() ==> in_range(#[trigger] ks[j], lo, hi)
        },
        Node::Internal { keys, children } => {
            let ks = seqs(keys@);
            let cs = children@;
            &&& h > 0
            &&& sorted(ks)
            &&& (cs.len() == ks.len() + 1 || (cs.len() == ks.len() && ks.len() > 0 && hi == Some(ks.last())))
            &&& forall|j: int| 0 <= j < ks.len() ==> ge_lo(#[trigger] ks[j], lo)
            &&& forall|j: int| 0 <= j < cs.len() - 1 ==> lt_hi(#[trigger] ks[j], hi)
            &&& forall|i: int| 0 <= i < cs.len() ==> wf_node(m, #[trigger] cs[i], (h - 1) as nat, child_lo(ks, lo, i), child_hi(ks, hi, i))
            &&& forall|i: int, j: int| 0 <= i < cs.len() && 0 <= j < cs.len() && i != j
                ==> reach(m, #[trigger] cs[i], (h - 1) as nat).disjoint(reach(m, #[trigger] cs[j], (h - 1) as nat))
            &&& forall|i: int| 0 <= i < cs.len() ==> !reach(m, #[trigger] cs[i], (h - 1) as nat).contains(id)
        },
    }
}

/// The number of keys a node holds.
pub open spec fn node_len(n: Node) -> nat {
    match n {
        Node::Leaf { keys, .. } => keys@.len(),
        Node::Internal { keys, .. } => keys@.len(),
    }
}

/// No node holds more than `order` keys.
pub open spec fn keys_bounded(m: Map<NodeId, Node>, order: usize) -> bool {
    forall|x: NodeId| #[trigger] m.contains_key(x) ==> node_len(m[x]) <= order
}

/// The map holds at `id` a leaf with these keys, values and next link.
pub open spec fn leaf_is(m: Map<NodeId, Node>, id: NodeId, ks: Seq<Seq<u8>>, vs: Seq<Seq<u8>>, nx: Option<NodeId>) -> bool {
    &&& m.contains_key(id)
    &&& m[id] matches Node::Leaf { keys, vals, next } && seqs(keys@) == ks && seqs(vals@) == vs && next == nx
}

/// What putting `key -> val` into the leaf `(ks, vs, nx)` at `id` leaves in
/// the map `m1`: a present key has its value replaced; a new key goes to its
/// sorted place; a leaf grown past `order` keys keeps its lower half, links to
/// a new leaf at the first free id `n0` holding the upper half and the old
/// link, and hands up the new leaf's first key.
pub open spec fn leaf_put_outcome(
    m1: Map<NodeId, Node>,
    id: NodeId,
    ks: Seq<Seq<u8>>,
    vs: Seq<Seq<u8>>,
    nx: Option<NodeId>,
    key: Seq<u8>,
    val: Seq<u8>,
    order: usize,
    n0: NodeId,
    n1: NodeId,
    res: Option<(Seq<u8>, NodeId)>,
) -> bool {
    if ks.contains(key) {
        &&& res is None
        &&& n1 == n0
        &&& exists|i: int| 0 <= i < ks.len() && ks[i] == key && #[trigger] leaf_is(m1, id, ks, vs.update(i, val), nx)
    } else {
        let i = count_le(ks, key) as int;
        let k2 = ks.insert(i, key);
        let v2 = vs.insert(i, val);
        if k2.len() <= order {
            &&& res is None
            &&& n1 == n0
            &&& leaf_is(m1, id, k2, v2, nx)
        } else {
            let mid = (k2.len() / 2) as int;
            &&& res == Some((k2[mid], n0))
            &&& n1 == n0 + 1
            &&& leaf_is(m1, id, k2.subrange(0, mid), v2.subrange(0, mid), Some(n0))
            &&& leaf_is(m1, n0, k2.subrange(mid, k2.len() as int), v2.subrange(mid, v2.len() as int), nx)
        }
    }
}

impl BpTree {
    /// The tree's nodes by id.
    pub open spec fn node_map(&self) -> Map<NodeId, Node> {
        self.nodes@
    }

    /// Well-formed: the root spans all keys, and every node id is below `next_id`.
    pub open spec fn wf(&self) -> bool {
        &&& self.order >= 4
        &&& wf_node(self.nodes@, self.root, self.height@, None, None)
        &&& forall|x: NodeId| #[trigger] self.nodes@.contains_key(x) ==> x < self.next_id
    }

    /// The value the tree holds for `k`.
    pub open spec fn value_of(&self, k: Seq<u8>) -> Option<Seq<u8>> {
        lookup(self.nodes@, self.root, self.height@, k)
    }
}


/// The index of the child that a search for `key` descends into: past every
/// separator at or below `key`.
pub fn route(keys: &Vec<Vec<u8>>, key: &[u8]) -> (idx: usize)
    ensures
        idx <= keys@.len(),
        sorted(seqs(keys@)) ==> idx == count_le(seqs(keys@), key@),
{
    let ghost ks = seqs(keys@);
    let n = keys.len();
    match search_keys(keys, key) {
        Ok(i) => {
            proof {
              if sorted(ks) {
                assert forall|j: int| 0 <= j < i + 1 implies key_le(#[trigger] ks[j], key@) by {
                    crate::store::keys::lemma_total(ks[j], key@);
                    if j < i {
                        assert(key_lt(ks[j], ks[i as int]));
                    }
                }
                assert forall|j: int| i + 1 <= j < ks.len() implies key_lt(key@, #[trigger] ks[j]) by {
                    assert(key_lt(ks[i as int], ks[j]));
                }
                lemma_count_le_boundary_sorted(ks, key@, i + 1);
              }
            }
            i + 1
        },
        Err(i) => {
            proof {
              if sorted(ks) {
                assert forall|j: int| 0 <= j < i implies key_le(#[trigger] ks[j], key@) by {
                    crate::store::keys::lemma_total(ks[j], key@);
                }
                lemma_count_le_boundary_sorted(ks, key@, i as int);
              }
            }
            i
        },
    }
}

/// A copy of a byte vector.
pub fn clone_bytes(v: &Vec<u8>) -> (r: Vec<u8>)
    ensures
        r@ == v@,
{
    let r = v.clone();
    assert(r@ =~= v@);
    r
}

/// The tree key of a link id: "L:" and the id's bytes.
pub fn ns_link_v1(id: &str) -> (v: Vec<u8>)
    ensures
        v@ == seq![76u8, 58u8] + id.spec_bytes(),
{
    crate::store::bytes_util::prefixed(&[76u8, 58u8], id)
}

/// The tree key of a link id, built into a buffer sized for it: "L:" and the id's bytes.
pub fn ns_link_v2(id: &str) -> (v: Vec<u8>)
    ensures
        v@ == seq![76u8, 58u8] + id.spec_bytes(),
{
    crate::store::bytes_util::prefixed(&[76u8, 58u8], id)
}

/// The separator and new sibling of a put's result, as values.
pub open spec fn split_view(res: Option<(Vec<u8>, NodeId)>) -> Option<(Seq<u8>, NodeId)> {
    match res {
        Some((sep, rid)) => Some((sep@, rid)),
        None => None,
    }
}

/// The value of a get: the stored value, unless it is empty.
pub open spec fn visible(v: Option<Seq<u8>>) -> Option<Seq<u8>> {
    match v {
        Some(x) => if x.len() == 0 {
            None
        } else {
            Some(x)
        },
        None => None,
    }
}

/// A get hides a stored value only when it is empty: every non-empty value
/// comes back as it is, and an absent key gives nothing.
pub proof fn lemma_visible(x: Seq<u8>)
    ensures
        x.len() > 0 ==> visible(Some(x)) == Some(x),
        x.len() == 0 ==> visible(Some(x)) is None,
        visible(None) is None,
{
}

impl BpTree {
    /// An empty tree: one empty leaf as the root; `order` is raised to at least 4.
    pub fn new(order: usize) -> (t: Self)
        ensures
            t.wf(),
            t.order == if order > 4 { order } else { 4 },
            t.root == 0,
            t.next_id == 1,
            t.nodes@.dom() =~= set![0u64],
            t.nodes@[0] matches Node::Leaf { keys, vals, next } && keys@.len() == 0 && vals@.len() == 0 && next is None,
            t.height@ == 0,
            forall|k: Seq<u8>| #[trigger] t.value_of(k) == None::<Seq<u8>>,
    {
        let root: NodeId = 0;
        let mut nodes: HashMap<NodeId, Node> = HashMap::new();
        nodes.insert(root, Node::Leaf { keys: Vec::new(), vals: Vec::new(), next: None });
        let t = BpTree {
            order: if order > 4 { order } else { 4 },
            root,
            next_id: 1,
            nodes,
            height: Ghost(0),
        };
        proof {
            assert(t.nodes@[0] matches Node::Leaf { keys, vals, .. } && keys@.len() == 0 && vals@.len() == 0);
            assert forall|x: NodeId| #[trigger] t.nodes@.contains_key(x) implies x < t.next_id by {}
        }
        t
    }

    /// Looks `key` up: the stored value, or none when it is absent or empty.
    pub fn get(&self, key: &[u8]) -> (r: Option<Vec<u8>>)
        requires
            self.wf(),
        ensures
            match r {
                Some(v) => visible(self.value_of(key@)) == Some(v@),
                None => visible(self.value_of(key@)) is None,
            },
            r matches Some(v) ==> self.value_of(key@) == Some(v@) && v@.len() > 0,
            self.value_of(key@) matches Some(x) ==> (x.len() > 0 ==> (r matches Some(v) && v@ == x)),
            self.value_of(key@) matches Some(x) ==> (x.len() == 0 ==> r is None),
            self.value_of(key@) is None ==> r is None,
    {
        let ghost m = self.nodes@;
        let ghost mut h: nat = self.height@;
        let ghost mut lo: Option<Seq<u8>> = None;
        let ghost mut hi: Option<Seq<u8>> = None;
        let mut current_node_id = self.root;
        loop
            invariant
                m == self.nodes@,
                wf_node(m, current_node_id, h, lo, hi),
                in_range(key@, lo, hi),
                lookup(m, current_node_id, h, key@) == self.value_of(key@),
            decreases h,
        {
            let node = match self.nodes.get(&current_node_id) {
                Some(n) => n,
                None => {
                    return None;
                },
            };
            match node {
                Node::Internal { keys, children } => {
                    let ghost ks = seqs(keys@);
                    proof {
                        lemma_route(ks, children@.len() as int, lo, hi, key@);
                    }
                    let idx = route(keys, key);
                    let i = if idx < children.len() - 1 { idx } else { children.len() - 1 };
                    proof {
                        lo = child_lo(ks, lo, i as int);
                        hi = child_hi(ks, hi, i as int);
                        h = (h - 1) as nat;
                    }
                    current_node_id = children[i];
                },
                Node::Leaf { keys, vals, .. } => {
                    let ghost ks = seqs(keys@);
                    let ghost vs = seqs(vals@);
                    match search_keys(keys, key) {
                        Ok(i) => {
                            proof {
                                assert(ks[i as int] == key@);
                                lemma_leaf_lookup_at(ks, vs, i as int);
                            }
                            let v = clone_bytes(&vals[i]);
                            return if v.len() == 0 { None } else { Some(v) };
                        },
                        Err(i) => {
                            proof {
                                assert forall|j: int| 0 <= j < ks.len() implies ks[j] != key@ by {
                                    crate::store::keys::lemma_total(key@, ks[j]);
                                }
                                lemma_leaf_lookup_absent(ks, vs, key@);
                            }
                            return None;
                        },
                    }
                },
            }
        }
    }

    /// Stores a leaf under a fresh id.
    fn alloc_leaf(&mut self, keys: Vec<Vec<u8>>, vals: Vec<Vec<u8>>, next: Option<NodeId>) -> (id: NodeId)
        requires
            old(self).next_id < u64::MAX,
        ensures
            id == old(self).next_id,
            final(self).next_id == old(self).next_id + 1,
            final(self).nodes@ == old(self).nodes@.insert(id, Node::Leaf { keys, vals, next }),
            final(self).order == old(self).order,
            final(self).root == old(self).root,
            final(self).height == old(self).height,
    {
        let id = self.next_id;
        self.next_id = self.next_id + 1;
        self.nodes.insert(id, Node::Leaf { keys, vals, next });
        id
    }

    /// Stores an internal node under a fresh id.
    fn alloc_internal(&mut self, keys: Vec<Vec<u8>>, children: Vec<NodeId>) -> (id: NodeId)
        requires
            old(self).next_id < u64::MAX,
        ensures
            id == old(self).next_id,
            final(self).next_id == old(self).next_id + 1,
            final(self).nodes@ == old(self).nodes@.insert(id, Node::Internal { keys, children }),
            final(self).order == old(self).order,
            final(self).root == old(self).root,
            final(self).height == old(self).height,
    {
        let id = self.next_id;
        self.next_id = self.next_id + 1;
        self.nodes.insert(id, Node::Internal { keys, children });
        id
    }

    /// Puts `key -> val` into the leaf `(keys, vals, next)` taken out of the
    /// map at `node_id`, stores it back, and splits it when it grows past
    /// `order` keys: the upper half moves to a fresh leaf and its first key
    /// is returned as the separator.
    fn insert_into_leaf(
        &mut self,
        node_id: NodeId,
        keys: Vec<Vec<u8>>,
        vals: Vec<Vec<u8>>,
        next: Option<NodeId>,
        key: Vec<u8>,
        val: Vec<u8>,
        Ghost(lo): Ghost<Option<Seq<u8>>>,
        Ghost(hi): Ghost<Option<Seq<u8>>>,
    ) -> (res: Option<(Vec<u8>, NodeId)>)
        requires
            old(self).order >= 4,
            !old(self).nodes@.contains_key(node_id),
            node_id < old(self).next_id,
            old(self).next_id < u64::MAX,
            forall|x: NodeId| #[trigger] old(self).nodes@.contains_key(x) ==> x < old(self).next_id,
            keys@.len() == vals@.len(),
            sorted(seqs(keys@)),
            forall|j: int| 0 <= j < keys@.len() ==> in_range(#[trigger] seqs(keys@)[j], lo, hi),
            in_range(key@, lo, hi),
        ensures
            final(self).order == old(self).order,
            final(self).root == old(self).root,
            final(self).height == old(self).height,
            forall|x: NodeId| #[trigger] final(self).nodes@.contains_key(x) ==> x < final(self).next_id,
            forall|x: NodeId| x != node_id && x < old(self).next_id ==> (#[trigger] final(self).nodes@.contains_key(x) == old(self).nodes@.contains_key(x) && (old(self).nodes@.contains_key(x) ==> final(self).nodes@[x] == old(self).nodes@[x])),
            match res {
                None => {
                    &&& final(self).next_id == old(self).next_id
                    &&& wf_node(final(self).nodes@, node_id, 0, lo, hi)
                    &&& forall|k: Seq<u8>| in_range(k, lo, hi) ==> #[trigger] lookup(final(self).nodes@, node_id, 0, k)
                        == upd(leaf_lookup(seqs(keys@), seqs(vals@), k), k, key@, val@)
                },
                Some((sep, rid)) => {
                    &&& rid == old(self).next_id
                    &&& final(self).next_id == old(self).next_id + 1
                    &&& gt_lo(sep@, lo)
                    &&& lt_hi(sep@, hi)
                    &&& wf_node(final(self).nodes@, node_id, 0, lo, Some(sep@))
                    &&& wf_node(final(self).nodes@, rid, 0, Some(sep@), hi)
                    &&& forall|k: Seq<u8>| in_range(k, lo, hi) ==> (if key_lt(k, sep@) {
                        lookup(final(self).nodes@, node_id, 0, k)
                    } else {
                        lookup(final(self).nodes@, rid, 0, k)
                    }) == upd(leaf_lookup(seqs(keys@), seqs(vals@), k), k, key@, val@)
                },
            },
            final(self).nodes@.contains_key(node_id),
            leaf_put_outcome(final(self).nodes@, node_id, seqs(keys@), seqs(vals@), next, key@, val@, old(self).order,
                old(self).next_id, final(self).next_id, split_view(res)),
            keys@.len() <= old(self).order && keys_bounded(old(self).nodes@, old(self).order)
                ==> keys_bounded(final(self).nodes@, old(self).order),
    {
        let ghost ks0 = seqs(keys@);
        let ghost vs0 = seqs(vals@);
        let mut keys = keys;
        let mut vals = vals;
        match search_keys(&keys, key.as_slice()) {
            Ok(i) => {
                vals.set(i, val);
                proof {
                    assert(seqs(vals@) =~= vs0.update(i as int, val@));
                    lemma_leaf_update(ks0, vs0, i as int, val@);
                    assert(ks0[i as int] == key@);
                }
                self.nodes.insert(node_id, Node::Leaf { keys, vals, next });
                proof {
                    assert(leaf_is(self.nodes@, node_id, ks0, vs0.update(i as int, val@), next));
                    assert(ks0.contains(key@));
                    if keys@.len() <= self.order && keys_bounded(old(self).nodes@, self.order) {
                        assert forall|x: NodeId| #[trigger] self.nodes@.contains_key(x) implies node_len(self.nodes@[x]) <= self.order by {
                            if x != node_id {
                                assert(old(self).nodes@.contains_key(x));
                            }
                        }
                    }
                }
                return None;
            },
            Err(i) => {
                keys.insert(i, key);
                vals.insert(i, val);
                proof {
                    assert(seqs(keys@) =~= ks0.insert(i as int, key@));
                    assert(seqs(vals@) =~= vs0.insert(i as int, val@));
                    lemma_leaf_insert(ks0, vs0, i as int, key@, val@);
                    assert forall|j: int| 0 <= j < ks0.len() implies ks0[j] != key@ by {
                        crate::store::keys::lemma_total(key@, ks0[j]);
                    }
                    assert forall|j: int| 0 <= j < i implies key_le(#[trigger] ks0[j], key@) by {
                        crate::store::keys::lemma_total(ks0[j], key@);
                    }
                    crate::store::keys::lemma_count_le_boundary(ks0, key@, i as int);
                    assert(!ks0.contains(key@));
                }
            },
        }
        let ghost ins = count_le(ks0, key@) as int;
        let ghost ks1 = seqs(keys@);
        let ghost vs1 = seqs(vals@);
        assert(forall|j: int| 0 <= j < ks1.len() ==> in_range(#[trigger] ks1[j], lo, hi)) by {
            assert forall|j: int| 0 <= j < ks1.len() implies in_range(#[trigger] ks1[j], lo, hi) by {
                if ks1[j] != key@ {
                    assert(exists|t: int| 0 <= t < ks0.len() && ks0[t] == ks1[j]) by {
                        let i = choose|i: int| 0 <= i <= ks0.len() && ks1 == ks0.insert(i, key@);
                        if j < i {
                            assert(ks0[j] == ks1[j]);
                        } else {
                            assert(ks0[j - 1] == ks1[j]);
                        }
                    }
                }
            }
        }
        if keys.len() > self.order {
            let mid = keys.len() / 2;
            let right_keys = keys.split_off(mid);
            let right_vals = vals.split_off(mid);
            let sep = clone_bytes(&right_keys[0]);
            proof {
                lemma_leaf_split(ks1, vs1, mid as int);
                assert(seqs(keys@) =~= ks1.subrange(0, mid as int));
                assert(seqs(vals@) =~= vs1.subrange(0, mid as int));
                assert(seqs(right_keys@) =~= ks1.subrange(mid as int, ks1.len() as int));
                assert(seqs(right_vals@) =~= vs1.subrange(mid as int, vs1.len() as int));
                assert(sep@ == ks1[mid as int]);
                assert(key_lt(ks1[0], ks1[mid as int]));
                crate::store::keys::lemma_le_lt_trans(lo.unwrap_or(ks1[0]), ks1[0], ks1[mid as int]);
            }
            let ghost rks_v = seqs(right_keys@);
            let ghost rvs_v = seqs(right_vals@);
            let right_id = self.alloc_leaf(right_keys, right_vals, next);
            self.nodes.insert(node_id, Node::Leaf { keys, vals, next: Some(right_id) });
            proof {
                assert(leaf_is(self.nodes@, node_id, ks1.subrange(0, mid as int), vs1.subrange(0, mid as int), Some(right_id)));
                assert(leaf_is(self.nodes@, right_id, ks1.subrange(mid as int, ks1.len() as int), vs1.subrange(mid as int, vs1.len() as int), next));
                if ks0.len() <= self.order && keys_bounded(old(self).nodes@, self.order) {
                    assert forall|x: NodeId| #[trigger] self.nodes@.contains_key(x) implies node_len(self.nodes@[x]) <= self.order by {
                        if x != node_id && x != right_id {
                            assert(old(self).nodes@.contains_key(x));
                        }
                    }
                }
            }
            proof {
                let m = self.nodes@;
                let lks = seqs(keys@);
                let rks = seqs(right_keys@);
                assert forall|j: int| 0 <= j < lks.len() implies in_range(#[trigger] lks[j], lo, Some(sep@)) by {
                    assert(lks[j] == ks1[j]);
                    assert(key_lt(ks1[j], ks1[mid as int]));
                }
                assert forall|j: int| 0 <= j < rks.len() implies in_range(#[trigger] rks[j], Some(sep@), hi) by {
                    assert(rks[j] == ks1[j + mid]);
                    crate::store::keys::lemma_total(ks1[mid as int], ks1[j + mid]);
                    if j > 0 {
                        assert(key_lt(ks1[mid as int], ks1[j + mid]));
                    }
                }
                assert(wf_node(m, node_id, 0, lo, Some(sep@)));
                assert(wf_node(m, right_id, 0, Some(sep@), hi));
            }
            return Some((sep, right_id));
        }
        self.nodes.insert(node_id, Node::Leaf { keys, vals, next });
        proof {
            assert(leaf_is(self.nodes@, node_id, ks1, vs1, next));
            if ks0.len() <= self.order && keys_bounded(old(self).nodes@, self.order) {
                assert forall|x: NodeId| #[trigger] self.nodes@.contains_key(x) implies node_len(self.nodes@[x]) <= self.order by {
                    if x != node_id {
                        assert(old(self).nodes@.contains_key(x));
                    }
                }
            }
        }
        None
    }

    /// Puts `key -> val` into the subtree at `node_id` (`h` levels above the
    /// leaves, keys in `[lo, hi)`). Returns `None` when the subtree absorbed
    /// it, or the separator and id of a new right sibling when the node split.
    pub fn insert_rec(
        &mut self,
        node_id: NodeId,
        key: Vec<u8>,
        val: Vec<u8>,
        Ghost(h): Ghost<nat>,
        Ghost(lo): Ghost<Option<Seq<u8>>>,
        Ghost(hi): Ghost<Option<Seq<u8>>>,
    ) -> (res: Option<(Vec<u8>, NodeId)>)
        requires
            old(self).order >= 4,
            wf_node(old(self).nodes@, node_id, h, lo, hi),
            in_range(key@, lo, hi),
            forall|x: NodeId| #[trigger] old(self).nodes@.contains_key(x) ==> x < old(self).next_id,
            old(self).next_id + h + 1 <= u64::MAX,
        ensures
            final(self).order == old(self).order,
            final(self).root == old(self).root,
            final(self).height == old(self).height,
            final(self).next_id <= old(self).next_id + h + 1,
            put_result(old(self).nodes@, final(self).nodes@, node_id, h, lo, hi, key@, val@, old(self).next_id, final(self).next_id, split_view(res)),
            forall|x: NodeId| #[trigger] old(self).nodes@.contains_key(x) ==> final(self).nodes@.contains_key(x),
            keys_bounded(old(self).nodes@, old(self).order) ==> keys_bounded(final(self).nodes@, old(self).order),
            lookup(old(self).nodes@, node_id, h, key@) is Some ==> res is None && final(self).next_id == old(self).next_id,
            res is Some ==> node_len(old(self).nodes@[node_id]) >= old(self).order,
            old(self).nodes@[node_id] matches Node::Leaf { keys, vals, next } ==> leaf_put_outcome(final(self).nodes@, node_id,
                seqs(keys@), seqs(vals@), next, key@, val@, old(self).order, old(self).next_id, final(self).next_id, split_view(res)),
        decreases h, 1nat,
    {
        let ghost m0 = self.nodes@;
        let ghost n0 = self.next_id;
        let node = self.nodes.remove(&node_id);
        match node {
            None => {
                proof {
                    assert(m0.contains_key(node_id));
                }
                None
            },
            Some(Node::Leaf { keys, vals, next }) => {
                let ghost ks = seqs(keys@);
                let ghost vs = seqs(vals@);
                proof {
                    assert(m0[node_id] == Node::Leaf { keys, vals, next });
                    assert(forall|x: NodeId| #[trigger] self.nodes@.contains_key(x) ==> x < self.next_id);
                }
                let r = self.insert_into_leaf(node_id, keys, vals, next, key, val, Ghost(lo), Ghost(hi));
                proof {
                    let m1 = self.nodes@;
                    assert(reach(m0, node_id, h) == set![node_id]);
                    assert(reach(m1, node_id, h) == set![node_id]);
                    assert forall|k: Seq<u8>| #[trigger] lookup(m0, node_id, h, k) == leaf_lookup(ks, vs, k) by {}
                    match split_view(r) {
                        Some((_, rid)) => {
                            assert(reach(m1, rid, h) == set![rid]);
                        },
                        None => {},
                    }
                    assert forall|x: NodeId| #[trigger] m0.contains_key(x) implies m1.contains_key(x) by {
                        if x != node_id {
                            assert(self.nodes@.contains_key(x) || x == node_id);
                        }
                    }
                    if keys_bounded(m0, self.order) {
                        assert(node_len(m0[node_id]) <= self.order);
                        assert(keys_bounded(m0.remove(node_id), self.order)) by {
                            assert forall|x: NodeId| #[trigger] m0.remove(node_id).contains_key(x) implies node_len(m0.remove(node_id)[x]) <= self.order by {
                                assert(m0.contains_key(x));
                            }
                        }
                    }
                    if split_view(r) is Some {
                        crate::store::tree_proofs::lemma_count_le_spec(ks, key@);
                        assert(!ks.contains(key@));
                        assert(ks.insert(count_le(ks, key@) as int, key@).len() == ks.len() + 1);
                        assert(node_len(m0[node_id]) == ks.len());
                    }
                    if lookup(m0, node_id, h, key@) is Some {
                        assert(leaf_lookup(ks, vs, key@) is Some);
                        let i = choose|i: int| 0 <= i < ks.len() && ks[i] == key@;
                        assert(ks.contains(key@));
                    }
                }
                r
            },
            Some(Node::Internal { keys, children }) => {
                proof {
                    assert(m0[node_id] == Node::Internal { keys, children });
                }
                self.insert_into_internal(node_id, keys, children, key, val, Ghost(h), Ghost(lo), Ghost(hi), Ghost(m0))
            },
        }
    }

    /// Puts `key -> val` below the internal node `(keys, children)` taken out
    /// of the map `m0` at `node_id`: into the child whose range holds `key`,
    /// then takes in the child's new sibling, and splits when the node grows
    /// past `order` separators.
    fn insert_into_internal(
        &mut self,
        node_id: NodeId,
        keys: Vec<Vec<u8>>,
        children: Vec<NodeId>,
        key: Vec<u8>,
        val: Vec<u8>,
        Ghost(h): Ghost<nat>,
        Ghost(lo): Ghost<Option<Seq<u8>>>,
        Ghost(hi): Ghost<Option<Seq<u8>>>,
        Ghost(m0): Ghost<Map<NodeId, Node>>,
    ) -> (res: Option<(Vec<u8>, NodeId)>)
        requires
            old(self).order >= 4,
            m0.contains_key(node_id),
            m0[node_id] == (Node::Internal { keys, children }),
            old(self).nodes@ == m0.remove(node_id),
            wf_node(m0, node_id, h, lo, hi),
            in_range(key@, lo, hi),
            forall|x: NodeId| #[trigger] m0.contains_key(x) ==> x < old(self).next_id,
            old(self).next_id + h + 1 <= u64::MAX,
        ensures
            final(self).order == old(self).order,
            final(self).root == old(self).root,
            final(self).height == old(self).height,
            final(self).next_id <= old(self).next_id + h + 1,
            put_result(m0, final(self).nodes@, node_id, h, lo, hi, key@, val@, old(self).next_id, final(self).next_id, split_view(res)),
            forall|x: NodeId| #[trigger] m0.contains_key(x) ==> final(self).nodes@.contains_key(x),
            keys_bounded(m0, old(self).order) ==> keys_bounded(final(self).nodes@, old(self).order),
            lookup(m0, node_id, h, key@) is Some ==> res is None && final(self).next_id == old(self).next_id,
            res is Some ==> node_len(m0[node_id]) >= old(self).order,
        decreases h, 0nat,
    {
        let ghost ks = seqs(keys@);
        let ghost cs = children@;
        let ghost n0 = self.next_id;
        let ghost m0r = self.nodes@;
        proof {
            lemma_internal_unfold(m0, node_id, h, lo, hi);
            lemma_route(ks, cs.len() as int, lo, hi, key@);
        }
        let mut keys = keys;
        let mut children = children;
        let idx = route(&keys, key.as_slice());
        let child = children[idx];
        let ghost clo = child_lo(ks, lo, idx as int);
        let ghost chi = child_hi(ks, hi, idx as int);
        proof {
            lemma_reach_child(m0, node_id, h, idx as int);
            assert forall|x: NodeId| #[trigger] reach(m0, child, (h - 1) as nat).contains(x) implies m0r.contains_key(x) == m0.contains_key(x)
                && (m0.contains_key(x) ==> m0r[x] == m0[x]) by {}
            lemma_frame(m0, m0r, child, (h - 1) as nat);
            assert forall|x: NodeId| #[trigger] m0r.contains_key(x) implies x < n0 by {}
        }
        let r = self.insert_rec(child, key, val, Ghost((h - 1) as nat), Ghost(clo), Ghost(chi));
        let ghost m2 = self.nodes@;
        let ghost n2 = self.next_id;
        proof {
            lemma_wf_reach_in_dom(m0, node_id, h, lo, hi);
        }
        match r {
            None => {
                proof {
                    lemma_put_keep(m0, m2, node_id, h, lo, hi, key@, val@, n0, n2, idx as int);
                }
                self.nodes.insert(node_id, Node::Internal { keys, children });
                proof {
                    lemma_finish_keep(m0, m2, node_id, Node::Internal { keys, children }, h, lo, hi, key@, val@, n0, n2);
                }
                None
            },
            Some((sep, rid)) => {
                let ghost sep_v = sep@;
                let n_children = children.len();
                assert(idx < n_children);
                keys.insert(idx, sep);
                children.insert(idx + 1, rid);
                let ghost ks2 = seqs(keys@);
                let ghost cs2 = children@;
                proof {
                    assert(ks2 =~= ks.insert(idx as int, sep_v));
                    lemma_put_absorb(m0, m2, node_id, h, lo, hi, key@, val@, n0, n2, idx as int, sep_v, rid);
                }
                if keys.len() > self.order {
                    let mid = keys.len() / 2;
                    let sep_up = clone_bytes(&keys[mid]);
                    let right_keys = keys.split_off(mid + 1);
                    let right_children = children.split_off(mid + 1);
                    proof {
                        assert(seqs(keys@) =~= ks2.subrange(0, mid + 1));
                        assert(seqs(right_keys@) =~= ks2.subrange(mid + 1, ks2.len() as int));
                    }
                    let ghost right = Node::Internal { keys: right_keys, children: right_children };
                    let right_id = self.alloc_internal(right_keys, right_children);
                    self.nodes.insert(node_id, Node::Internal { keys, children });
                    proof {
                        lemma_finish_split(
                            m0, m2, node_id, h, lo, hi, key@, val@, n0, n2, ks2, cs2, mid as int,
                            Node::Internal { keys, children }, right,
                        );
                    }
                    Some((sep_up, right_id))
                } else {
                    self.nodes.insert(node_id, Node::Internal { keys, children });
                    proof {
                        lemma_finish_keep(m0, m2, node_id, Node::Internal { keys, children }, h, lo, hi, key@, val@, n0, n2);
                    }
                    None
                }
            },
        }
    }

    /// Inserting at the tree level is not implemented: the tree is left as it is.
    pub fn insert(&mut self, key: Vec<u8>, val: Vec<u8>)
        ensures
            *final(self) == *old(self),
    {
    }
}

} // verus!
