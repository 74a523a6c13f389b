use vstd::prelude::*;
use crate::store::keys::{
    count_le, key_le, key_lt, lemma_le_lt_trans, lemma_lt_trans, lemma_total, seqs, sorted,
};
use crate::store::b_plus_tree::{
    child_hi, child_index, child_lo, ge_lo, gt_lo, in_range, leaf_lookup, lookup, lt_hi, reach, reach_all,
    wf_node, Node, NodeId,
};

verus! {

/// For sorted keys, the first `count_le(keys, k)` keys are at or below `k`
/// and the rest above it.
pub proof fn lemma_count_le_spec(keys: Seq<Seq<u8>>, k: Seq<u8>)
    requires
        sorted(keys),
    ensures
        count_le(keys, k) <= keys.len(),
        forall|j: int| 0 <= j < count_le(keys, k) ==> key_le(#[trigger] keys[j], k),
        forall|j: int| count_le(keys, k) <= j < keys.len() ==> key_lt(k, #[trigger] keys[j]),
    decreases keys.len(),
{
    if keys.len() > 0 {
        let init = keys.drop_last();
        let n = keys.len() - 1;
        assert(sorted(init)) by {
            assert forall|i: int, j: int| 0 <= i < j < init.len() implies key_lt(#[trigger] init[i], #[trigger] init[j]) by {
                assert(init[i] == keys[i] && init[j] == keys[j]);
            }
        }
        lemma_count_le_spec(init, k);
        let c = count_le(init, k);
        lemma_total(keys[n], k);
        if key_le(keys[n], k) {
            if c < init.len() {
                assert(key_lt(k, init[c as int]));
                assert(key_lt(keys[c as int], keys[n]));
                lemma_lt_trans(k, keys[c as int], keys[n]);
                lemma_total(k, keys[n]);
                assert(false);
            }
            assert forall|j: int| 0 <= j < count_le(keys, k) implies key_le(#[trigger] keys[j], k) by {
                if j < n {
                    assert(key_lt(keys[j], keys[n]));
                    lemma_total(keys[j], keys[n]);
                    lemma_le_lt_trans(keys[j], keys[n], k);
                }
            }
        } else {
            assert forall|j: int| 0 <= j < count_le(keys, k) implies key_le(#[trigger] keys[j], k) by {
                assert(init[j] == keys[j]);
            }
            assert forall|j: int| count_le(keys, k) <= j < keys.len() implies key_lt(k, #[trigger] keys[j]) by {
                if j < n {
                    assert(init[j] == keys[j]);
                }
            }
        }
    }
}

/// For sorted keys, a search's insertion boundary `i` (keys below at or
/// under `k`, keys from `i` on above it) is `count_le(keys, k)`.
pub proof fn lemma_count_le_boundary_sorted(keys: Seq<Seq<u8>>, k: Seq<u8>, i: int)
    requires
        sorted(keys),
        0 <= i <= keys.len(),
        forall|j: int| 0 <= j < i ==> key_le(#[trigger] keys[j], k),
        forall|j: int| i <= j < keys.len() ==> key_lt(k, #[trigger] keys[j]),
    ensures
        count_le(keys, k) == i,
{
    crate::store::keys::lemma_count_le_boundary(keys, k, i);
}

/// In a sorted leaf, each key finds its own value.
pub proof fn lemma_leaf_lookup_at(keys: Seq<Seq<u8>>, vals: Seq<Seq<u8>>, i: int)
    requires
        sorted(keys),
        0 <= i < keys.len(),
    ensures
        leaf_lookup(keys, vals, keys[i]) == Some(vals[i]),
{
    let k = keys[i];
    assert forall|j: int| 0 <= j < keys.len() && keys[j] == k implies j == i by {
        if j < i {
            assert(key_lt(keys[j], keys[i]));
            lemma_total(keys[i], keys[j]);
        } else if j > i {
            assert(key_lt(keys[i], keys[j]));
            lemma_total(keys[i], keys[j]);
        }
    }
    assert(0 <= i < keys.len() && keys[i] == k);
}

/// A node is under some of `cs` exactly when it is under one of them.
pub proof fn lemma_reach_all(m: Map<NodeId, Node>, cs: Seq<NodeId>, h: nat)
    ensures
        forall|x: NodeId| #[trigger] reach_all(m, cs, h).contains(x) <==> exists|i: int|
            0 <= i < cs.len() && #[trigger] reach(m, cs[i], h).contains(x),
    decreases cs.len(),
{
    if cs.len() > 0 {
        let init = cs.drop_last();
        lemma_reach_all(m, init, h);
        assert(reach_all(m, cs, h) == reach_all(m, init, h).union(reach(m, cs.last(), h)));
        assert forall|x: NodeId| #[trigger] reach_all(m, cs, h).contains(x) <==> exists|i: int|
            0 <= i < cs.len() && #[trigger] reach(m, cs[i], h).contains(x) by {
            if reach_all(m, cs, h).contains(x) {
                if reach_all(m, init, h).contains(x) {
                    let i = choose|i: int| 0 <= i < init.len() && #[trigger] reach(m, init[i], h).contains(x);
                    assert(cs[i] == init[i]);
                } else {
                    assert(reach(m, cs[cs.len() - 1], h).contains(x));
                }
            }
            if exists|i: int| 0 <= i < cs.len() && #[trigger] reach(m, cs[i], h).contains(x) {
                let i = choose|i: int| 0 <= i < cs.len() && #[trigger] reach(m, cs[i], h).contains(x);
                if i < cs.len() - 1 {
                    assert(init[i] == cs[i]);
                }
            }
        }
    }
}

/// The nodes under an internal node: itself and those under its children.
pub proof fn lemma_reach_internal(m: Map<NodeId, Node>, id: NodeId, h: nat)
    requires
        h > 0,
        m.contains_key(id),
        m[id] is Internal,
    ensures
        forall|x: NodeId| #[trigger] reach(m, id, h).contains(x) <==> (x == id || exists|i: int|
            0 <= i < m[id]->Internal_children@.len()
                && #[trigger] reach(m, m[id]->Internal_children@[i], (h - 1) as nat).contains(x)),
{
    lemma_reach_all(m, m[id]->Internal_children@, (h - 1) as nat);
    assert(reach(m, id, h) == set![id].union(reach_all(m, m[id]->Internal_children@, (h - 1) as nat)));
}

/// The nodes under a child are under its parent, and a node is under itself.
pub proof fn lemma_reach_child(m: Map<NodeId, Node>, id: NodeId, h: nat, i: int)
    requires
        h > 0,
        m.contains_key(id),
        m[id] is Internal,
        0 <= i < m[id]->Internal_children@.len(),
    ensures
        reach(m, id, h).contains(id),
        reach(m, m[id]->Internal_children@[i], (h - 1) as nat).subset_of(reach(m, id, h)),
{
    lemma_reach_internal(m, id, h);
    let cs = m[id]->Internal_children@;
    assert forall|x: NodeId| reach(m, cs[i], (h - 1) as nat).contains(x) implies reach(m, id, h).contains(x) by {
        assert(0 <= i < cs.len() && reach(m, cs[i], (h - 1) as nat).contains(x));
    }
}

/// A key that a leaf does not hold finds nothing there.
pub proof fn lemma_leaf_lookup_absent(keys: Seq<Seq<u8>>, vals: Seq<Seq<u8>>, k: Seq<u8>)
    requires
        forall|j: int| 0 <= j < keys.len() ==> keys[j] != k,
    ensures
        leaf_lookup(keys, vals, k) == None::<Seq<u8>>,
{
}

/// Two node maps that agree on the nodes under `id` give the same subtree.
pub proof fn lemma_frame(m1: Map<NodeId, Node>, m2: Map<NodeId, Node>, id: NodeId, h: nat)
    requires
        forall|x: NodeId| #[trigger] reach(m1, id, h).contains(x) ==> m2.contains_key(x) == m1.contains_key(x)
            && (m1.contains_key(x) ==> m2[x] == m1[x]),
    ensures
        reach(m2, id, h) == reach(m1, id, h),
        forall|k: Seq<u8>| #[trigger] lookup(m2, id, h, k) == lookup(m1, id, h, k),
        forall|lo: Option<Seq<u8>>, hi: Option<Seq<u8>>| #[trigger] wf_node(m2, id, h, lo, hi) == wf_node(m1, id, h, lo, hi),
    decreases h,
{
    if h > 0 && m1.contains_key(id) && m1[id] is Internal {
        lemma_reach_internal(m1, id, h);
    }
    assert(reach(m1, id, h).contains(id));
    if h > 0 && m1.contains_key(id) && m1[id] is Internal {
        let cs = m1[id]->Internal_children@;
        assert forall|i: int| 0 <= i < cs.len() implies
            reach(m2, #[trigger] cs[i], (h - 1) as nat) == reach(m1, cs[i], (h - 1) as nat)
            && (forall|k: Seq<u8>| #[trigger] lookup(m2, cs[i], (h - 1) as nat, k) == lookup(m1, cs[i], (h - 1) as nat, k))
            && (forall|lo: Option<Seq<u8>>, hi: Option<Seq<u8>>| #[trigger] wf_node(m2, cs[i], (h - 1) as nat, lo, hi) == wf_node(m1, cs[i], (h - 1) as nat, lo, hi))
        by {
            lemma_reach_child(m1, id, h, i);
            lemma_frame(m1, m2, cs[i], (h - 1) as nat);
        }
        lemma_reach_internal(m1, id, h);
        lemma_reach_internal(m2, id, h);
        assert(reach(m2, id, h) =~= reach(m1, id, h));
        let ks = seqs(m1[id]->Internal_keys@);
        assert forall|k: Seq<u8>| #[trigger] lookup(m2, id, h, k) == lookup(m1, id, h, k) by {
            if cs.len() > 0 {
                let ci = child_index(ks, cs.len() as int, k);
                if 0 <= ci < cs.len() {
                    assert(lookup(m2, cs[ci], (h - 1) as nat, k) == lookup(m1, cs[ci], (h - 1) as nat, k));
                }
            }
        }
        assert forall|lo: Option<Seq<u8>>, hi: Option<Seq<u8>>| #[trigger] wf_node(m2, id, h, lo, hi) == wf_node(m1, id, h, lo, hi) by {
            assert forall|i: int| 0 <= i < cs.len() implies
                wf_node(m2, #[trigger] cs[i], (h - 1) as nat, child_lo(ks, lo, i), child_hi(ks, hi, i))
                == wf_node(m1, cs[i], (h - 1) as nat, child_lo(ks, lo, i), child_hi(ks, hi, i)) by {}
        }
    } else {
        assert(reach(m2, id, h) =~= reach(m1, id, h));
    }
}

/// Every node under a well-formed node is present in the map.
pub proof fn lemma_wf_reach_in_dom(m: Map<NodeId, Node>, id: NodeId, h: nat, lo: Option<Seq<u8>>, hi: Option<Seq<u8>>)
    requires
        wf_node(m, id, h, lo, hi),
    ensures
        forall|x: NodeId| #[trigger] reach(m, id, h).contains(x) ==> m.contains_key(x),
    decreases h,
{
    if h > 0 && m[id] is Internal {
        lemma_reach_internal(m, id, h);
        let ks = seqs(m[id]->Internal_keys@);
        let cs = m[id]->Internal_children@;
        assert forall|i: int| #![trigger cs[i]] 0 <= i < cs.len() implies (forall|x: NodeId| #[trigger] reach(m, cs[i], (h - 1) as nat).contains(x) ==> m.contains_key(x)) by {
            lemma_wf_reach_in_dom(m, cs[i], (h - 1) as nat, child_lo(ks, lo, i), child_hi(ks, hi, i));
        }
    }
}

/// A key within an internal node's bounds descends into the child whose
/// bounds hold it, and no capping occurs.
pub proof fn lemma_route(keys: Seq<Seq<u8>>, n: int, lo: Option<Seq<u8>>, hi: Option<Seq<u8>>, k: Seq<u8>)
    requires
        sorted(keys),
        n == keys.len() + 1 || (n == keys.len() && keys.len() > 0 && hi == Some(keys.last())),
        in_range(k, lo, hi),
    ensures
        child_index(keys, n, k) == count_le(keys, k),
        0 <= count_le(keys, k) < n,
        in_range(k, child_lo(keys, lo, count_le(keys, k) as int), child_hi(keys, hi, count_le(keys, k) as int)),
{
    lemma_count_le_spec(keys, k);
    let c = count_le(keys, k) as int;
    if n == keys.len() && c == keys.len() {
        assert(key_le(keys[c - 1], k));
        lemma_total(k, keys.last());
    }
}


/// `o` with `key` now holding `val`: the lookup result after a put.
pub open spec fn upd(o: Option<Seq<u8>>, k: Seq<u8>, key: Seq<u8>, val: Seq<u8>) -> Option<Seq<u8>> {
    if k == key {
        Some(val)
    } else {
        o
    }
}

/// Replacing the value of a key already in a sorted leaf.
pub proof fn lemma_leaf_update(ks: Seq<Seq<u8>>, vs: Seq<Seq<u8>>, i: int, val: Seq<u8>)
    requires
        sorted(ks),
        ks.len() == vs.len(),
        0 <= i < ks.len(),
    ensures
        forall|k: Seq<u8>| #[trigger] leaf_lookup(ks, vs.update(i, val), k) == upd(leaf_lookup(ks, vs, k), k, ks[i], val),
{
    let vs2 = vs.update(i, val);
    assert forall|k: Seq<u8>| #[trigger] leaf_lookup(ks, vs2, k) == upd(leaf_lookup(ks, vs, k), k, ks[i], val) by {
        if exists|j: int| 0 <= j < ks.len() && ks[j] == k {
            let j = choose|j: int| 0 <= j < ks.len() && ks[j] == k;
            lemma_leaf_lookup_at(ks, vs, j);
            lemma_leaf_lookup_at(ks, vs2, j);
            if j != i {
                if j < i {
                    assert(key_lt(ks[j], ks[i]));
                } else {
                    assert(key_lt(ks[i], ks[j]));
                }
                lemma_total(ks[i], ks[j]);
            }
        } else {
            lemma_leaf_lookup_absent(ks, vs, k);
            lemma_leaf_lookup_absent(ks, vs2, k);
        }
    }
}

/// Inserting a new key at its sorted position in a leaf.
pub proof fn lemma_leaf_insert(ks: Seq<Seq<u8>>, vs: Seq<Seq<u8>>, i: int, key: Seq<u8>, val: Seq<u8>)
    requires
        sorted(ks),
        ks.len() == vs.len(),
        0 <= i <= ks.len(),
        forall|j: int| 0 <= j < i ==> key_lt(#[trigger] ks[j], key),
        forall|j: int| i <= j < ks.len() ==> key_lt(key, #[trigger] ks[j]),
    ensures
        sorted(ks.insert(i, key)),
        forall|k: Seq<u8>| #[trigger] leaf_lookup(ks.insert(i, key), vs.insert(i, val), k) == upd(leaf_lookup(ks, vs, k), k, key, val),
{
    let ks2 = ks.insert(i, key);
    let vs2 = vs.insert(i, val);
    assert forall|a: int, b: int| 0 <= a < b < ks2.len() implies key_lt(#[trigger] ks2[a], #[trigger] ks2[b]) by {
        if b < i {
        } else if b == i {
        } else if a < i {
            assert(key_lt(ks[a], key));
            assert(key_lt(key, ks[b - 1]));
            lemma_lt_trans(ks[a], key, ks[b - 1]);
        } else if a == i {
        } else {
            assert(key_lt(ks[a - 1], ks[b - 1]));
        }
    }
    assert forall|k: Seq<u8>| #[trigger] leaf_lookup(ks2, vs2, k) == upd(leaf_lookup(ks, vs, k), k, key, val) by {
        if k == key {
            lemma_leaf_lookup_at(ks2, vs2, i);
        } else if exists|j: int| 0 <= j < ks.len() && ks[j] == k {
            let j = choose|j: int| 0 <= j < ks.len() && ks[j] == k;
            lemma_leaf_lookup_at(ks, vs, j);
            if j < i {
                assert(ks2[j] == ks[j] && vs2[j] == vs[j]);
                lemma_leaf_lookup_at(ks2, vs2, j);
            } else {
                assert(ks2[j + 1] == ks[j] && vs2[j + 1] == vs[j]);
                lemma_leaf_lookup_at(ks2, vs2, j + 1);
            }
        } else {
            lemma_leaf_lookup_absent(ks, vs, k);
            assert forall|j: int| 0 <= j < ks2.len() implies ks2[j] != k by {
                if j < i {
                    assert(ks2[j] == ks[j]);
                } else if j > i {
                    assert(ks2[j] == ks[j - 1]);
                }
            }
            lemma_leaf_lookup_absent(ks2, vs2, k);
        }
    }
}

/// Splitting a sorted leaf at `mid`: keys below `ks[mid]` stay left, the rest go right.
pub proof fn lemma_leaf_split(ks: Seq<Seq<u8>>, vs: Seq<Seq<u8>>, mid: int)
    requires
        sorted(ks),
        ks.len() == vs.len(),
        0 <= mid < ks.len(),
    ensures
        sorted(ks.subrange(0, mid)),
        sorted(ks.subrange(mid, ks.len() as int)),
        forall|k: Seq<u8>| key_lt(k, ks[mid]) ==> #[trigger] leaf_lookup(ks.subrange(0, mid), vs.subrange(0, mid), k) == leaf_lookup(ks, vs, k),
        forall|k: Seq<u8>| !key_lt(k, ks[mid]) ==> #[trigger] leaf_lookup(ks.subrange(mid, ks.len() as int), vs.subrange(mid, vs.len() as int), k) == leaf_lookup(ks, vs, k),
{
    let n = ks.len() as int;
    let lk = ks.subrange(0, mid);
    let lv = vs.subrange(0, mid);
    let rk = ks.subrange(mid, n);
    let rv = vs.subrange(mid, n);
    assert forall|a: int, b: int| 0 <= a < b < lk.len() implies key_lt(#[trigger] lk[a], #[trigger] lk[b]) by {
        assert(lk[a] == ks[a] && lk[b] == ks[b]);
    }
    assert forall|a: int, b: int| 0 <= a < b < rk.len() implies key_lt(#[trigger] rk[a], #[trigger] rk[b]) by {
        assert(rk[a] == ks[a + mid] && rk[b] == ks[b + mid]);
    }
    assert forall|k: Seq<u8>| key_lt(k, ks[mid]) implies #[trigger] leaf_lookup(lk, lv, k) == leaf_lookup(ks, vs, k) by {
        if exists|j: int| 0 <= j < ks.len() && ks[j] == k {
            let j = choose|j: int| 0 <= j < ks.len() && ks[j] == k;
            lemma_leaf_lookup_at(ks, vs, j);
            if j >= mid {
                if j > mid {
                    assert(key_lt(ks[mid], ks[j]));
                    lemma_lt_trans(k, ks[mid], ks[j]);
                }
                lemma_total(k, ks[j]);
            }
            assert(lk[j] == ks[j] && lv[j] == vs[j]);
            lemma_leaf_lookup_at(lk, lv, j);
        } else {
            lemma_leaf_lookup_absent(ks, vs, k);
            assert forall|j: int| 0 <= j < lk.len() implies lk[j] != k by {
                assert(lk[j] == ks[j]);
            }
            lemma_leaf_lookup_absent(lk, lv, k);
        }
    }
    assert forall|k: Seq<u8>| !key_lt(k, ks[mid]) implies #[trigger] leaf_lookup(rk, rv, k) == leaf_lookup(ks, vs, k) by {
        if exists|j: int| 0 <= j < ks.len() && ks[j] == k {
            let j = choose|j: int| 0 <= j < ks.len() && ks[j] == k;
            lemma_leaf_lookup_at(ks, vs, j);
            if j < mid {
                assert(key_lt(ks[j], ks[mid]));
                assert(false);
            }
            assert(rk[j - mid] == ks[j] && rv[j - mid] == vs[j]);
            lemma_leaf_lookup_at(rk, rv, j - mid);
        } else {
            lemma_leaf_lookup_absent(ks, vs, k);
            assert forall|j: int| 0 <= j < rk.len() implies rk[j] != k by {
                assert(rk[j] == ks[j + mid]);
            }
            lemma_leaf_lookup_absent(rk, rv, k);
        }
    }
}


/// The conditions that `wf_node` places on an internal node with separators
/// `ks` and children `cs`.
pub open spec fn children_ok(
    m: Map<NodeId, Node>,
    id: NodeId,
    h: nat,
    lo: Option<Seq<u8>>,
    hi: Option<Seq<u8>>,
    ks: Seq<Seq<u8>>,
    cs: Seq<NodeId>,
) -> bool {
    &&& h > 0
    &&& sorted(ks)
    &&& (cs.len() == ks.len() + 1 || (cs.len() == ks.len() && ks.len() > 0 && hi == Some(ks.last())))
    &&& forall|j: int| 0 <= j < ks.len() ==> ge_lo(#[trigger] ks[j], lo)
    &&& forall|j: int| 0 <= j < cs.len() - 1 ==> lt_hi(#[trigger] ks[j], hi)
    &&& forall|i: int| 0 <= i < cs.len() ==> wf_node(m, #[trigger] cs[i], (h - 1) as nat, child_lo(ks, lo, i), child_hi(ks, hi, i))
    &&& forall|i: int, j: int| 0 <= i < cs.len() && 0 <= j < cs.len() && i != j
        ==> reach(m, #[trigger] cs[i], (h - 1) as nat).disjoint(reach(m, #[trigger] cs[j], (h - 1) as nat))
    &&& forall|i: int| 0 <= i < cs.len() ==> !reach(m, #[trigger] cs[i], (h - 1) as nat).contains(id)
}

/// What a search for `k` finds below an internal node with separators `ks`
/// and children `cs`.
pub open spec fn route_lookup(m: Map<NodeId, Node>, ks: Seq<Seq<u8>>, cs: Seq<NodeId>, h: nat, k: Seq<u8>) -> Option<Seq<u8>> {
    lookup(m, cs[child_index(ks, cs.len() as int, k)], (h - 1) as nat, k)
}

/// Unfolds `wf_node`, `lookup` and `reach` at an internal node.
pub proof fn lemma_internal_unfold(m: Map<NodeId, Node>, id: NodeId, h: nat, lo: Option<Seq<u8>>, hi: Option<Seq<u8>>)
    requires
        h > 0,
        m.contains_key(id),
        m[id] is Internal,
    ensures
        wf_node(m, id, h, lo, hi) == children_ok(m, id, h, lo, hi, seqs(m[id]->Internal_keys@), m[id]->Internal_children@),
        m[id]->Internal_children@.len() > 0 ==> forall|k: Seq<u8>| #[trigger] lookup(m, id, h, k)
            == route_lookup(m, seqs(m[id]->Internal_keys@), m[id]->Internal_children@, h, k),
        reach(m, id, h) == set![id].union(reach_all(m, m[id]->Internal_children@, (h - 1) as nat)),
{
}

/// Storing an internal node at `id` over children that satisfy its
/// conditions gives a well-formed node that searches through those children.
pub proof fn lemma_install_internal(
    m: Map<NodeId, Node>,
    id: NodeId,
    node: Node,
    h: nat,
    lo: Option<Seq<u8>>,
    hi: Option<Seq<u8>>,
)
    requires
        node is Internal,
        children_ok(m, id, h, lo, hi, seqs(node->Internal_keys@), node->Internal_children@),
    ensures
        wf_node(m.insert(id, node), id, h, lo, hi),
        forall|k: Seq<u8>| #[trigger] lookup(m.insert(id, node), id, h, k)
            == route_lookup(m, seqs(node->Internal_keys@), node->Internal_children@, h, k),
        reach(m.insert(id, node), id, h) == set![id].union(reach_all(m, node->Internal_children@, (h - 1) as nat)),
{
    let m2 = m.insert(id, node);
    let ks = seqs(node->Internal_keys@);
    let cs = node->Internal_children@;
    assert forall|i: int| 0 <= i < cs.len() implies
        reach(m2, #[trigger] cs[i], (h - 1) as nat) == reach(m, cs[i], (h - 1) as nat)
        && (forall|k: Seq<u8>| #[trigger] lookup(m2, cs[i], (h - 1) as nat, k) == lookup(m, cs[i], (h - 1) as nat, k))
        && (forall|l: Option<Seq<u8>>, u: Option<Seq<u8>>| #[trigger] wf_node(m2, cs[i], (h - 1) as nat, l, u) == wf_node(m, cs[i], (h - 1) as nat, l, u))
    by {
        lemma_frame(m, m2, cs[i], (h - 1) as nat);
    }
    lemma_internal_unfold(m2, id, h, lo, hi);
    lemma_reach_all(m, cs, (h - 1) as nat);
    lemma_reach_all(m2, cs, (h - 1) as nat);
    assert(reach_all(m2, cs, (h - 1) as nat) =~= reach_all(m, cs, (h - 1) as nat));
    assert(children_ok(m2, id, h, lo, hi, ks, cs));
    assert forall|k: Seq<u8>| #[trigger] lookup(m2, id, h, k) == route_lookup(m, ks, cs, h, k) by {
        lemma_count_le_spec(ks, k);
    }
}


/// The relation between the node maps before and after a put of `key -> val`
/// into the subtree at `id`, given the put's result: `None` when the subtree
/// absorbed the key, or a separator and a new right sibling when it split.
/// Ids below `n0` outside the subtree keep their nodes; new nodes get ids in
/// `[n0, n1)`.
pub open spec fn put_result(
    m0: Map<NodeId, Node>,
    m1: Map<NodeId, Node>,
    id: NodeId,
    h: nat,
    lo: Option<Seq<u8>>,
    hi: Option<Seq<u8>>,
    key: Seq<u8>,
    val: Seq<u8>,
    n0: NodeId,
    n1: NodeId,
    res: Option<(Seq<u8>, NodeId)>,
) -> bool {
    &&& n0 <= n1
    &&& forall|x: NodeId| #[trigger] m1.contains_key(x) ==> x < n1
    &&& forall|x: NodeId| x < n0 && !reach(m0, id, h).contains(x) ==> (#[trigger] m1.contains_key(x) == m0.contains_key(x)
        && (m0.contains_key(x) ==> m1[x] == m0[x]))
    &&& forall|x: NodeId| #[trigger] reach(m1, id, h).contains(x) ==> reach(m0, id, h).contains(x) || (n0 <= x < n1)
    &&& match res {
        None => {
            &&& wf_node(m1, id, h, lo, hi)
            &&& forall|k: Seq<u8>| in_range(k, lo, hi) ==> #[trigger] lookup(m1, id, h, k) == upd(lookup(m0, id, h, k), k, key, val)
        },
        Some((sep, rid)) => {
            &&& n0 <= rid < n1
            &&& gt_lo(sep, lo)
            &&& lt_hi(sep, hi)
            &&& wf_node(m1, id, h, lo, Some(sep))
            &&& wf_node(m1, rid, h, Some(sep), hi)
            &&& reach(m1, id, h).disjoint(reach(m1, rid, h))
            &&& forall|x: NodeId| #[trigger] reach(m1, rid, h).contains(x) ==> reach(m0, id, h).contains(x) || (n0 <= x < n1)
            &&& forall|k: Seq<u8>| in_range(k, lo, hi) ==> (if key_lt(k, sep) {
                lookup(m1, id, h, k)
            } else {
                lookup(m1, rid, h, k)
            }) == upd(lookup(m0, id, h, k), k, key, val)
        },
    }
}

/// Inserting a key between its neighbours keeps a sequence sorted.
pub proof fn lemma_sorted_insert(ks: Seq<Seq<u8>>, i: int, x: Seq<u8>)
    requires
        sorted(ks),
        0 <= i <= ks.len(),
        i > 0 ==> key_lt(ks[i - 1], x),
        i < ks.len() ==> key_lt(x, ks[i]),
    ensures
        sorted(ks.insert(i, x)),
{
    let ks2 = ks.insert(i, x);
    assert forall|a: int, b: int| 0 <= a < b < ks2.len() implies key_lt(#[trigger] ks2[a], #[trigger] ks2[b]) by {
        if b < i {
        } else if b == i {
            if a < i - 1 {
                lemma_lt_trans(ks[a], ks[i - 1], x);
            }
        } else if a < i {
            if b - 1 > i {
                assert(key_lt(ks[i], ks[b - 1]));
                lemma_lt_trans(x, ks[i], ks[b - 1]);
            }
            if a < i - 1 {
                lemma_lt_trans(ks[a], ks[i - 1], x);
            }
            lemma_lt_trans(ks[a], x, ks[b - 1]);
        } else if a == i {
            if b - 1 > i {
                lemma_lt_trans(x, ks[i], ks[b - 1]);
            }
        } else {
            assert(key_lt(ks[a - 1], ks[b - 1]));
        }
    }
}

/// After a put into child `idx` of the internal node `id`, the other
/// children keep their subtrees.
pub proof fn lemma_put_siblings(
    m0: Map<NodeId, Node>,
    m2: Map<NodeId, Node>,
    id: NodeId,
    h: nat,
    lo: Option<Seq<u8>>,
    hi: Option<Seq<u8>>,
    n0: NodeId,
    idx: int,
)
    requires
        wf_node(m0, id, h, lo, hi),
        m0[id] is Internal,
        0 <= idx < m0[id]->Internal_children@.len(),
        forall|x: NodeId| #[trigger] m0.contains_key(x) ==> x < n0,
        forall|x: NodeId| x < n0 && x != id && !reach(m0, m0[id]->Internal_children@[idx], (h - 1) as nat).contains(x)
            ==> (#[trigger] m2.contains_key(x) == m0.contains_key(x) && (m0.contains_key(x) ==> m2[x] == m0[x])),
    ensures
        ({
            let ks = seqs(m0[id]->Internal_keys@);
            let cs = m0[id]->Internal_children@;
            forall|i: int| 0 <= i < cs.len() && i != idx ==> {
                &&& reach(m2, #[trigger] cs[i], (h - 1) as nat) == reach(m0, cs[i], (h - 1) as nat)
                &&& (forall|k: Seq<u8>| #[trigger] lookup(m2, cs[i], (h - 1) as nat, k) == lookup(m0, cs[i], (h - 1) as nat, k))
                &&& wf_node(m2, cs[i], (h - 1) as nat, child_lo(ks, lo, i), child_hi(ks, hi, i))
                &&& (forall|x: NodeId| #[trigger] reach(m0, cs[i], (h - 1) as nat).contains(x) ==> x < n0)
            }
        }),
{
    let ks = seqs(m0[id]->Internal_keys@);
    let cs = m0[id]->Internal_children@;
    let c = cs[idx];
    assert forall|i: int| 0 <= i < cs.len() && i != idx implies {
        &&& reach(m2, #[trigger] cs[i], (h - 1) as nat) == reach(m0, cs[i], (h - 1) as nat)
        &&& (forall|k: Seq<u8>| #[trigger] lookup(m2, cs[i], (h - 1) as nat, k) == lookup(m0, cs[i], (h - 1) as nat, k))
        &&& wf_node(m2, cs[i], (h - 1) as nat, child_lo(ks, lo, i), child_hi(ks, hi, i))
        &&& (forall|x: NodeId| #[trigger] reach(m0, cs[i], (h - 1) as nat).contains(x) ==> x < n0)
    } by {
        lemma_wf_reach_in_dom(m0, cs[i], (h - 1) as nat, child_lo(ks, lo, i), child_hi(ks, hi, i));
        assert(reach(m0, cs[i], (h - 1) as nat).disjoint(reach(m0, cs[idx], (h - 1) as nat)));
        assert forall|x: NodeId| #[trigger] reach(m0, cs[i], (h - 1) as nat).contains(x) implies m2.contains_key(x) == m0.contains_key(x)
            && (m0.contains_key(x) ==> m2[x] == m0[x]) by {
            assert(x < n0);
            assert(!reach(m0, c, (h - 1) as nat).contains(x));
        }
        lemma_frame(m0, m2, cs[i], (h - 1) as nat);
    }
}


/// Facts shared by the cases of a put through the internal node `id` into
/// its child `idx`, made with `id` taken out of the map.
pub proof fn lemma_put_setup(
    m0: Map<NodeId, Node>,
    m2: Map<NodeId, Node>,
    id: NodeId,
    h: nat,
    lo: Option<Seq<u8>>,
    hi: Option<Seq<u8>>,
    key: Seq<u8>,
    val: Seq<u8>,
    n0: NodeId,
    n2: NodeId,
    idx: int,
    cres: Option<(Seq<u8>, NodeId)>,
)
    requires
        wf_node(m0, id, h, lo, hi),
        m0[id] is Internal,
        in_range(key, lo, hi),
        idx == count_le(seqs(m0[id]->Internal_keys@), key),
        forall|x: NodeId| #[trigger] m0.contains_key(x) ==> x < n0,
        put_result(
            m0.remove(id),
            m2,
            m0[id]->Internal_children@[idx],
            (h - 1) as nat,
            child_lo(seqs(m0[id]->Internal_keys@), lo, idx),
            child_hi(seqs(m0[id]->Internal_keys@), hi, idx),
            key,
            val,
            n0,
            n2,
            cres,
        ),
    ensures
        ({
            let ks = seqs(m0[id]->Internal_keys@);
            let cs = m0[id]->Internal_children@;
            let c = cs[idx];
            let m0r = m0.remove(id);
            &&& h > 0
            &&& 0 <= idx < cs.len()
            &&& child_index(ks, cs.len() as int, key) == idx
            &&& in_range(key, child_lo(ks, lo, idx), child_hi(ks, hi, idx))
            &&& reach(m0r, c, (h - 1) as nat) == reach(m0, c, (h - 1) as nat)
            &&& (forall|k: Seq<u8>| #[trigger] lookup(m0r, c, (h - 1) as nat, k) == lookup(m0, c, (h - 1) as nat, k))
            &&& reach(m0, c, (h - 1) as nat).subset_of(reach(m0, id, h))
            &&& reach(m0, id, h).contains(id)
            &&& !reach(m0, c, (h - 1) as nat).contains(id)
            &&& (forall|x: NodeId| #[trigger] reach(m0, c, (h - 1) as nat).contains(x) ==> x < n0)
            &&& (forall|x: NodeId| x < n0 && x != id && !reach(m0, c, (h - 1) as nat).contains(x)
                ==> (#[trigger] m2.contains_key(x) == m0.contains_key(x) && (m0.contains_key(x) ==> m2[x] == m0[x])))
            &&& (forall|k: Seq<u8>| in_range(k, lo, hi) ==> #[trigger] lookup(m0, id, h, k) == route_lookup(m0, ks, cs, h, k))
            &&& (forall|x: NodeId| x < n0 && !reach(m0, id, h).contains(x)
                ==> (#[trigger] m2.contains_key(x) == m0.contains_key(x) && (m0.contains_key(x) ==> m2[x] == m0[x])))
            &&& (forall|x: NodeId| #[trigger] reach(m0, id, h).contains(x) ==> x < n0)
        }),
{
    let ks = seqs(m0[id]->Internal_keys@);
    let cs = m0[id]->Internal_children@;
    let c = cs[idx];
    let m0r = m0.remove(id);
    lemma_wf_reach_in_dom(m0, id, h, lo, hi);
    lemma_internal_unfold(m0, id, h, lo, hi);
    lemma_route(ks, cs.len() as int, lo, hi, key);
    lemma_reach_child(m0, id, h, idx);
    lemma_wf_reach_in_dom(m0, c, (h - 1) as nat, child_lo(ks, lo, idx), child_hi(ks, hi, idx));
    assert forall|x: NodeId| #[trigger] reach(m0, c, (h - 1) as nat).contains(x) implies m0r.contains_key(x) == m0.contains_key(x)
        && (m0.contains_key(x) ==> m0r[x] == m0[x]) by {}
    lemma_frame(m0, m0r, c, (h - 1) as nat);
}

/// A put into child `idx` that the child absorbed leaves the node's
/// separators and children valid, with `key` now holding `val`.
pub proof fn lemma_put_keep(
    m0: Map<NodeId, Node>,
    m2: Map<NodeId, Node>,
    id: NodeId,
    h: nat,
    lo: Option<Seq<u8>>,
    hi: Option<Seq<u8>>,
    key: Seq<u8>,
    val: Seq<u8>,
    n0: NodeId,
    n2: NodeId,
    idx: int,
)
    requires
        wf_node(m0, id, h, lo, hi),
        m0[id] is Internal,
        in_range(key, lo, hi),
        idx == count_le(seqs(m0[id]->Internal_keys@), key),
        forall|x: NodeId| #[trigger] m0.contains_key(x) ==> x < n0,
        put_result(
            m0.remove(id),
            m2,
            m0[id]->Internal_children@[idx],
            (h - 1) as nat,
            child_lo(seqs(m0[id]->Internal_keys@), lo, idx),
            child_hi(seqs(m0[id]->Internal_keys@), hi, idx),
            key,
            val,
            n0,
            n2,
            None,
        ),
    ensures
        ({
            let ks = seqs(m0[id]->Internal_keys@);
            let cs = m0[id]->Internal_children@;
            &&& children_ok(m2, id, h, lo, hi, ks, cs)
            &&& forall|k: Seq<u8>| in_range(k, lo, hi) ==> #[trigger] route_lookup(m2, ks, cs, h, k) == upd(lookup(m0, id, h, k), k, key, val)
            &&& forall|x: NodeId| #[trigger] reach_all(m2, cs, (h - 1) as nat).contains(x) ==> reach(m0, id, h).contains(x) || (n0 <= x < n2)
        }),
{
    let ks = seqs(m0[id]->Internal_keys@);
    let cs = m0[id]->Internal_children@;
    let c = cs[idx];
    let m0r = m0.remove(id);
    lemma_put_setup(m0, m2, id, h, lo, hi, key, val, n0, n2, idx, None);
    lemma_put_siblings(m0, m2, id, h, lo, hi, n0, idx);
    lemma_internal_unfold(m0, id, h, lo, hi);
    let hm = (h - 1) as nat;
    assert forall|i: int, j: int| 0 <= i < cs.len() && 0 <= j < cs.len() && i != j
        implies reach(m2, #[trigger] cs[i], hm).disjoint(reach(m2, #[trigger] cs[j], hm)) by {
        assert(reach(m0, cs[i], hm).disjoint(reach(m0, cs[j], hm)));
        if i == idx {
            assert forall|x: NodeId| reach(m2, cs[i], hm).contains(x) implies !reach(m2, cs[j], hm).contains(x) by {
                if reach(m2, cs[j], hm).contains(x) {
                    assert(x < n0);
                }
            }
        } else if j == idx {
            assert forall|x: NodeId| reach(m2, cs[j], hm).contains(x) implies !reach(m2, cs[i], hm).contains(x) by {
                if reach(m2, cs[i], hm).contains(x) {
                    assert(x < n0);
                }
            }
        }
    }
    assert forall|i: int| 0 <= i < cs.len() implies !reach(m2, #[trigger] cs[i], hm).contains(id) by {}
    assert forall|i: int| 0 <= i < cs.len() implies wf_node(m2, #[trigger] cs[i], hm, child_lo(ks, lo, i), child_hi(ks, hi, i)) by {}
    assert(children_ok(m2, id, h, lo, hi, ks, cs));
    assert forall|k: Seq<u8>| in_range(k, lo, hi) implies #[trigger] route_lookup(m2, ks, cs, h, k) == upd(lookup(m0, id, h, k), k, key, val) by {
        lemma_route(ks, cs.len() as int, lo, hi, k);
        let ci = count_le(ks, k) as int;
        if ci != idx {
            assert(k != key);
        }
    }
    lemma_reach_all(m2, cs, hm);
    assert forall|x: NodeId| #[trigger] reach_all(m2, cs, hm).contains(x) implies reach(m0, id, h).contains(x) || (n0 <= x < n2) by {
        let i = choose|i: int| 0 <= i < cs.len() && #[trigger] reach(m2, cs[i], hm).contains(x);
        lemma_reach_child(m0, id, h, i);
    }
}

/// Inserting a separator that falls between its neighbours and within the
/// node's bounds keeps the separators valid.
pub proof fn lemma_absorb_order(
    ks: Seq<Seq<u8>>,
    n: int,
    idx: int,
    sep: Seq<u8>,
    lo: Option<Seq<u8>>,
    hi: Option<Seq<u8>>,
)
    requires
        sorted(ks),
        n == ks.len() + 1 || (n == ks.len() && ks.len() > 0 && hi == Some(ks.last())),
        forall|j: int| 0 <= j < ks.len() ==> ge_lo(#[trigger] ks[j], lo),
        forall|j: int| 0 <= j < n - 1 ==> lt_hi(#[trigger] ks[j], hi),
        0 <= idx < n,
        gt_lo(sep, child_lo(ks, lo, idx)),
        lt_hi(sep, child_hi(ks, hi, idx)),
    ensures
        ({
            let ks2 = ks.insert(idx, sep);
            &&& sorted(ks2)
            &&& (n + 1 == ks2.len() + 1 || (n + 1 == ks2.len() && ks2.len() > 0 && hi == Some(ks2.last())))
            &&& forall|j: int| 0 <= j < ks2.len() ==> ge_lo(#[trigger] ks2[j], lo)
            &&& forall|j: int| 0 <= j < n ==> lt_hi(#[trigger] ks2[j], hi)
        }),
{
    let ks2 = ks.insert(idx, sep);
    if idx > 0 {
        assert(key_lt(ks[idx - 1], sep));
    }
    if idx < ks.len() {
        assert(key_lt(sep, ks[idx]));
    }
    lemma_sorted_insert(ks, idx, sep);
    assert forall|j: int| 0 <= j < ks2.len() implies ge_lo(#[trigger] ks2[j], lo) by {
        if j == idx {
            match lo {
                Some(l) => {
                    if idx == 0 {
                        lemma_total(l, sep);
                    } else {
                        assert(ge_lo(ks[idx - 1], lo));
                        lemma_total(ks[idx - 1], sep);
                        crate::store::keys::lemma_le_lt_trans(l, ks[idx - 1], sep);
                        lemma_total(l, sep);
                    }
                },
                None => {},
            }
        } else if j > idx {
            assert(ks2[j] == ks[j - 1]);
        }
    }
    assert forall|j: int| 0 <= j < n implies lt_hi(#[trigger] ks2[j], hi) by {
        if j == idx {
            match hi {
                Some(u) => {
                    if idx < n - 1 {
                        assert(lt_hi(ks[idx], hi));
                        lemma_lt_trans(sep, ks[idx], u);
                    }
                },
                None => {},
            }
        } else if j > idx {
            assert(ks2[j] == ks[j - 1]);
        }
    }
}

/// Where a search goes after a separator is inserted behind child `idx`:
/// keys that went to an earlier child go there still, later children shift
/// by one, and keys of child `idx` go left or right of the new separator.
pub proof fn lemma_route_after_insert(ks: Seq<Seq<u8>>, idx: int, sep: Seq<u8>, k: Seq<u8>)
    requires
        sorted(ks),
        0 <= idx <= ks.len(),
        idx > 0 ==> key_lt(ks[idx - 1], sep),
        idx < ks.len() ==> key_lt(sep, ks[idx]),
    ensures
        ({
            let ci = count_le(ks, k) as int;
            let ks2 = ks.insert(idx, sep);
            &&& ci < idx ==> count_le(ks2, k) == ci
            &&& ci > idx ==> count_le(ks2, k) == ci + 1
            &&& (ci == idx && key_lt(k, sep)) ==> count_le(ks2, k) == idx
            &&& (ci == idx && !key_lt(k, sep)) ==> count_le(ks2, k) == idx + 1
        }),
{
    let ks2 = ks.insert(idx, sep);
    lemma_sorted_insert(ks, idx, sep);
    lemma_count_le_spec(ks, k);
    let ci = count_le(ks, k) as int;
    if ci < idx {
        assert forall|j: int| 0 <= j < ci implies key_le(#[trigger] ks2[j], k) by {}
        assert forall|j: int| ci <= j < ks2.len() implies key_lt(k, #[trigger] ks2[j]) by {
            if j < idx {
            } else if j == idx {
                assert(key_lt(k, ks[ci]));
                if ci < idx - 1 {
                    assert(key_lt(ks[ci], ks[idx - 1]));
                    lemma_lt_trans(k, ks[ci], ks[idx - 1]);
                }
                lemma_lt_trans(k, ks[idx - 1], sep);
            } else {
                assert(ks2[j] == ks[j - 1]);
            }
        }
        lemma_count_le_boundary_sorted(ks2, k, ci);
    } else if ci > idx {
        assert forall|j: int| 0 <= j < ci + 1 implies key_le(#[trigger] ks2[j], k) by {
            if j < idx {
            } else if j == idx {
                assert(key_le(ks[idx], k));
                lemma_total(sep, ks[idx]);
                crate::store::keys::lemma_le_lt_trans(sep, ks[idx], k);
            } else {
                assert(ks2[j] == ks[j - 1]);
            }
        }
        assert forall|j: int| ci + 1 <= j < ks2.len() implies key_lt(k, #[trigger] ks2[j]) by {
            assert(ks2[j] == ks[j - 1]);
        }
        lemma_count_le_boundary_sorted(ks2, k, ci + 1);
    } else {
        lemma_total(k, sep);
        if key_lt(k, sep) {
            assert forall|j: int| 0 <= j < idx implies key_le(#[trigger] ks2[j], k) by {}
            assert forall|j: int| idx <= j < ks2.len() implies key_lt(k, #[trigger] ks2[j]) by {
                if j > idx {
                    assert(ks2[j] == ks[j - 1]);
                    if j - 1 > idx {
                        assert(key_lt(ks[idx], ks[j - 1]));
                        lemma_lt_trans(sep, ks[idx], ks[j - 1]);
                    }
                    lemma_lt_trans(k, sep, ks[j - 1]);
                }
            }
            lemma_count_le_boundary_sorted(ks2, k, idx);
        } else {
            assert forall|j: int| 0 <= j < idx + 1 implies key_le(#[trigger] ks2[j], k) by {}
            assert forall|j: int| idx + 1 <= j < ks2.len() implies key_lt(k, #[trigger] ks2[j]) by {
                assert(ks2[j] == ks[j - 1]);
            }
            lemma_count_le_boundary_sorted(ks2, k, idx + 1);
        }
    }
}

/// A put into child `idx` that split the child: the new separator and right
/// sibling go in after it, and the node stays valid with `key` holding `val`.
pub proof fn lemma_put_absorb(
    m0: Map<NodeId, Node>,
    m2: Map<NodeId, Node>,
    id: NodeId,
    h: nat,
    lo: Option<Seq<u8>>,
    hi: Option<Seq<u8>>,
    key: Seq<u8>,
    val: Seq<u8>,
    n0: NodeId,
    n2: NodeId,
    idx: int,
    sep: Seq<u8>,
    rid: NodeId,
)
    requires
        wf_node(m0, id, h, lo, hi),
        m0[id] is Internal,
        in_range(key, lo, hi),
        idx == count_le(seqs(m0[id]->Internal_keys@), key),
        forall|x: NodeId| #[trigger] m0.contains_key(x) ==> x < n0,
        put_result(
            m0.remove(id),
            m2,
            m0[id]->Internal_children@[idx],
            (h - 1) as nat,
            child_lo(seqs(m0[id]->Internal_keys@), lo, idx),
            child_hi(seqs(m0[id]->Internal_keys@), hi, idx),
            key,
            val,
            n0,
            n2,
            Some((sep, rid)),
        ),
    ensures
        ({
            let ks = seqs(m0[id]->Internal_keys@).insert(idx, sep);
            let cs = m0[id]->Internal_children@.insert(idx + 1, rid);
            &&& children_ok(m2, id, h, lo, hi, ks, cs)
            &&& forall|k: Seq<u8>| in_range(k, lo, hi) ==> #[trigger] route_lookup(m2, ks, cs, h, k) == upd(lookup(m0, id, h, k), k, key, val)
            &&& forall|x: NodeId| #[trigger] reach_all(m2, cs, (h - 1) as nat).contains(x) ==> reach(m0, id, h).contains(x) || (n0 <= x < n2)
        }),
{
    let ks = seqs(m0[id]->Internal_keys@);
    let cs = m0[id]->Internal_children@;
    let ks2 = ks.insert(idx, sep);
    let cs2 = cs.insert(idx + 1, rid);
    lemma_put_setup(m0, m2, id, h, lo, hi, key, val, n0, n2, idx, Some((sep, rid)));
    lemma_put_siblings(m0, m2, id, h, lo, hi, n0, idx);
    lemma_internal_unfold(m0, id, h, lo, hi);
    lemma_absorb_order(ks, cs.len() as int, idx, sep, lo, hi);
    lemma_absorb_children(m0, m2, id, h, lo, hi, key, val, n0, n2, idx, sep, rid);
    assert(children_ok(m2, id, h, lo, hi, ks2, cs2));
    assert forall|k: Seq<u8>| in_range(k, lo, hi) implies #[trigger] route_lookup(m2, ks2, cs2, h, k) == upd(lookup(m0, id, h, k), k, key, val) by {
        lemma_route(ks, cs.len() as int, lo, hi, k);
        let ci = count_le(ks, k) as int;
        if ci != idx {
            assert(k != key);
        }
        lemma_route_after_insert(ks, idx, sep, k);
        if ci < idx {
            assert(cs2[ci] == cs[ci]);
        } else if ci > idx {
            assert(cs2[ci + 1] == cs[ci]);
        }
    }
    lemma_reach_all(m2, cs2, (h - 1) as nat);
    assert forall|x: NodeId| #[trigger] reach_all(m2, cs2, (h - 1) as nat).contains(x) implies reach(m0, id, h).contains(x) || (n0 <= x < n2) by {
        let i = choose|i: int| 0 <= i < cs2.len() && #[trigger] reach(m2, cs2[i], (h - 1) as nat).contains(x);
        if i < idx {
            assert(cs2[i] == cs[i]);
            lemma_reach_child(m0, id, h, i);
        } else if i > idx + 1 {
            assert(cs2[i] == cs[i - 1]);
            lemma_reach_child(m0, id, h, i - 1);
        }
    }
}

/// The children after a split of child `idx`: each subtree is valid in its
/// bounds and they share no node.
#[verifier::spinoff_prover]
#[verifier::rlimit(40)]
pub proof fn lemma_absorb_children(
    m0: Map<NodeId, Node>,
    m2: Map<NodeId, Node>,
    id: NodeId,
    h: nat,
    lo: Option<Seq<u8>>,
    hi: Option<Seq<u8>>,
    key: Seq<u8>,
    val: Seq<u8>,
    n0: NodeId,
    n2: NodeId,
    idx: int,
    sep: Seq<u8>,
    rid: NodeId,
)
    requires
        wf_node(m0, id, h, lo, hi),
        m0[id] is Internal,
        in_range(key, lo, hi),
        idx == count_le(seqs(m0[id]->Internal_keys@), key),
        forall|x: NodeId| #[trigger] m0.contains_key(x) ==> x < n0,
        put_result(
            m0.remove(id),
            m2,
            m0[id]->Internal_children@[idx],
            (h - 1) as nat,
            child_lo(seqs(m0[id]->Internal_keys@), lo, idx),
            child_hi(seqs(m0[id]->Internal_keys@), hi, idx),
            key,
            val,
            n0,
            n2,
            Some((sep, rid)),
        ),
    ensures
        ({
            let ks2 = seqs(m0[id]->Internal_keys@).insert(idx, sep);
            let cs2 = m0[id]->Internal_children@.insert(idx + 1, rid);
            let hm = (h - 1) as nat;
            &&& forall|j: int| 0 <= j < cs2.len() ==> wf_node(m2, #[trigger] cs2[j], hm, child_lo(ks2, lo, j), child_hi(ks2, hi, j))
            &&& forall|i: int, j: int| 0 <= i < cs2.len() && 0 <= j < cs2.len() && i != j
                ==> reach(m2, #[trigger] cs2[i], hm).disjoint(reach(m2, #[trigger] cs2[j], hm))
            &&& forall|i: int| 0 <= i < cs2.len() ==> !reach(m2, #[trigger] cs2[i], hm).contains(id)
        }),
{
    let ks = seqs(m0[id]->Internal_keys@);
    let cs = m0[id]->Internal_children@;
    let c = cs[idx];
    let hm = (h - 1) as nat;
    let clo = child_lo(ks, lo, idx);
    let chi = child_hi(ks, hi, idx);
    let ks2 = ks.insert(idx, sep);
    let cs2 = cs.insert(idx + 1, rid);
    lemma_put_setup(m0, m2, id, h, lo, hi, key, val, n0, n2, idx, Some((sep, rid)));
    lemma_put_siblings(m0, m2, id, h, lo, hi, n0, idx);
    lemma_internal_unfold(m0, id, h, lo, hi);
    assert forall|j: int| 0 <= j < cs2.len() implies wf_node(m2, #[trigger] cs2[j], hm, child_lo(ks2, lo, j), child_hi(ks2, hi, j)) by {
        if j < idx {
            assert(cs2[j] == cs[j]);
            assert(child_lo(ks2, lo, j) == child_lo(ks, lo, j));
            assert(child_hi(ks2, hi, j) == child_hi(ks, hi, j));
        } else if j == idx {
            assert(cs2[j] == c);
            assert(child_lo(ks2, lo, j) == clo);
        } else if j == idx + 1 {
            assert(cs2[j] == rid);
            assert(child_hi(ks2, hi, j) == chi);
        } else {
            assert(cs2[j] == cs[j - 1]);
            assert(child_lo(ks2, lo, j) == child_lo(ks, lo, j - 1));
            assert(child_hi(ks2, hi, j) == child_hi(ks, hi, j - 1));
        }
    }
    assert forall|i: int, j: int| 0 <= i < cs2.len() && 0 <= j < cs2.len() && i != j
        implies reach(m2, #[trigger] cs2[i], hm).disjoint(reach(m2, #[trigger] cs2[j], hm)) by {
        let oi = if i <= idx { i } else { i - 1 };
        let oj = if j <= idx { j } else { j - 1 };
        if (i == idx || i == idx + 1) && (j == idx || j == idx + 1) {
        } else if i == idx || i == idx + 1 {
            assert(cs2[j] == cs[oj]);
            assert(reach(m0, cs[oj], hm).disjoint(reach(m0, c, hm)));
            assert forall|x: NodeId| reach(m2, cs2[i], hm).contains(x) implies !reach(m2, cs2[j], hm).contains(x) by {
                if reach(m2, cs2[j], hm).contains(x) {
                    assert(x < n0);
                }
            }
        } else if j == idx || j == idx + 1 {
            assert(cs2[i] == cs[oi]);
            assert(reach(m0, cs[oi], hm).disjoint(reach(m0, c, hm)));
            assert forall|x: NodeId| reach(m2, cs2[j], hm).contains(x) implies !reach(m2, cs2[i], hm).contains(x) by {
                if reach(m2, cs2[i], hm).contains(x) {
                    assert(x < n0);
                }
            }
        } else {
            assert(cs2[i] == cs[oi] && cs2[j] == cs[oj]);
            assert(reach(m0, cs[oi], hm).disjoint(reach(m0, cs[oj], hm)));
        }
    }
    assert forall|i: int| 0 <= i < cs2.len() implies !reach(m2, #[trigger] cs2[i], hm).contains(id) by {
        if i < idx {
            assert(cs2[i] == cs[i]);
        } else if i > idx + 1 {
            assert(cs2[i] == cs[i - 1]);
        }
    }
}


/// The left part of an internal split is a valid node bounded by `ks[mid]`.
pub proof fn lemma_split_left(
    m: Map<NodeId, Node>,
    id: NodeId,
    rid: NodeId,
    h: nat,
    lo: Option<Seq<u8>>,
    hi: Option<Seq<u8>>,
    ks: Seq<Seq<u8>>,
    cs: Seq<NodeId>,
    mid: int,
)
    requires
        children_ok(m, id, h, lo, hi, ks, cs),
        ks.len() >= 5,
        mid == ks.len() / 2,
        !reach_all(m, cs, (h - 1) as nat).contains(rid),
    ensures
        ({
            let sep = ks[mid];
            let lks = ks.subrange(0, mid + 1);
            let lcs = cs.subrange(0, mid + 1);
            let rks = ks.subrange(mid + 1, ks.len() as int);
            let rcs = cs.subrange(mid + 1, cs.len() as int);
            let hm = (h - 1) as nat;
            &&& gt_lo(sep, lo)
            &&& lt_hi(sep, hi)
            &&& children_ok(m, id, h, lo, Some(sep), lks, lcs)
        }),
{
    let sep = ks[mid];
    let lks = ks.subrange(0, mid + 1);
    let lcs = cs.subrange(0, mid + 1);
    let rks = ks.subrange(mid + 1, ks.len() as int);
    let rcs = cs.subrange(mid + 1, cs.len() as int);
    let hm = (h - 1) as nat;
    let off = mid + 1;
    assert(key_lt(ks[0], sep));
    match lo {
        Some(l) => {
            assert(ge_lo(ks[0], lo));
            crate::store::keys::lemma_le_lt_trans(l, ks[0], sep);
        },
        None => {},
    }
    assert(lt_hi(ks[mid], hi));
    // left
    assert(sorted(lks)) by {
        assert forall|a: int, b: int| 0 <= a < b < lks.len() implies key_lt(#[trigger] lks[a], #[trigger] lks[b]) by {
            assert(lks[a] == ks[a] && lks[b] == ks[b]);
        }
    }
    assert forall|j: int| 0 <= j < lks.len() implies ge_lo(#[trigger] lks[j], lo) by {
        assert(lks[j] == ks[j]);
    }
    assert forall|j: int| 0 <= j < lcs.len() - 1 implies lt_hi(#[trigger] lks[j], Some(sep)) by {
        assert(lks[j] == ks[j]);
    }
    assert forall|j: int| 0 <= j < lcs.len() implies wf_node(m, #[trigger] lcs[j], hm, child_lo(lks, lo, j), child_hi(lks, Some(sep), j)) by {
        assert(lcs[j] == cs[j]);
        assert(child_lo(lks, lo, j) == child_lo(ks, lo, j));
        assert(child_hi(lks, Some(sep), j) == child_hi(ks, hi, j));
    }
    assert forall|i: int, j: int| 0 <= i < lcs.len() && 0 <= j < lcs.len() && i != j
        implies reach(m, #[trigger] lcs[i], hm).disjoint(reach(m, #[trigger] lcs[j], hm)) by {
        assert(lcs[i] == cs[i] && lcs[j] == cs[j]);
    }
    assert forall|i: int| 0 <= i < lcs.len() implies !reach(m, #[trigger] lcs[i], hm).contains(id) by {
        assert(lcs[i] == cs[i]);
    }
    assert(children_ok(m, id, h, lo, Some(sep), lks, lcs));
}

/// The right part of an internal split is a valid node above `ks[mid]`.
pub proof fn lemma_split_right(
    m: Map<NodeId, Node>,
    id: NodeId,
    rid: NodeId,
    h: nat,
    lo: Option<Seq<u8>>,
    hi: Option<Seq<u8>>,
    ks: Seq<Seq<u8>>,
    cs: Seq<NodeId>,
    mid: int,
)
    requires
        children_ok(m, id, h, lo, hi, ks, cs),
        ks.len() >= 5,
        mid == ks.len() / 2,
        !reach_all(m, cs, (h - 1) as nat).contains(rid),
    ensures
        ({
            let sep = ks[mid];
            let lks = ks.subrange(0, mid + 1);
            let lcs = cs.subrange(0, mid + 1);
            let rks = ks.subrange(mid + 1, ks.len() as int);
            let rcs = cs.subrange(mid + 1, cs.len() as int);
            let hm = (h - 1) as nat;
            children_ok(m, rid, h, Some(sep), hi, rks, rcs)
        }),
{
    let sep = ks[mid];
    let lks = ks.subrange(0, mid + 1);
    let lcs = cs.subrange(0, mid + 1);
    let rks = ks.subrange(mid + 1, ks.len() as int);
    let rcs = cs.subrange(mid + 1, cs.len() as int);
    let hm = (h - 1) as nat;
    let off = mid + 1;
    lemma_reach_all(m, cs, hm);
    assert(sorted(rks)) by {
        assert forall|a: int, b: int| 0 <= a < b < rks.len() implies key_lt(#[trigger] rks[a], #[trigger] rks[b]) by {
            assert(rks[a] == ks[a + off] && rks[b] == ks[b + off]);
        }
    }
    assert forall|j: int| 0 <= j < rks.len() implies ge_lo(#[trigger] rks[j], Some(sep)) by {
        assert(rks[j] == ks[j + off]);
        assert(key_lt(ks[mid], ks[j + off]));
        lemma_total(sep, rks[j]);
    }
    assert forall|j: int| 0 <= j < rcs.len() - 1 implies lt_hi(#[trigger] rks[j], hi) by {
        assert(rks[j] == ks[j + off]);
    }
    assert forall|j: int| 0 <= j < rcs.len() implies wf_node(m, #[trigger] rcs[j], hm, child_lo(rks, Some(sep), j), child_hi(rks, hi, j)) by {
        assert(rcs[j] == cs[j + off]);
        assert(child_lo(rks, Some(sep), j) == child_lo(ks, lo, j + off));
        assert(child_hi(rks, hi, j) == child_hi(ks, hi, j + off));
    }
    assert forall|i: int, j: int| 0 <= i < rcs.len() && 0 <= j < rcs.len() && i != j
        implies reach(m, #[trigger] rcs[i], hm).disjoint(reach(m, #[trigger] rcs[j], hm)) by {
        assert(rcs[i] == cs[i + off] && rcs[j] == cs[j + off]);
    }
    assert forall|i: int| 0 <= i < rcs.len() implies !reach(m, #[trigger] rcs[i], hm).contains(rid) by {
        assert(rcs[i] == cs[i + off]);
    }
    assert(rcs.len() == rks.len() + 1 || (rcs.len() == rks.len() && rks.len() > 0 && hi == Some(rks.last())));
    assert(children_ok(m, rid, h, Some(sep), hi, rks, rcs));
}

/// The two parts of an internal split share no node.
pub proof fn lemma_split_reach(
    m: Map<NodeId, Node>,
    id: NodeId,
    rid: NodeId,
    h: nat,
    lo: Option<Seq<u8>>,
    hi: Option<Seq<u8>>,
    ks: Seq<Seq<u8>>,
    cs: Seq<NodeId>,
    mid: int,
)
    requires
        children_ok(m, id, h, lo, hi, ks, cs),
        ks.len() >= 5,
        mid == ks.len() / 2,
        !reach_all(m, cs, (h - 1) as nat).contains(rid),
    ensures
        ({
            let sep = ks[mid];
            let lks = ks.subrange(0, mid + 1);
            let lcs = cs.subrange(0, mid + 1);
            let rks = ks.subrange(mid + 1, ks.len() as int);
            let rcs = cs.subrange(mid + 1, cs.len() as int);
            let hm = (h - 1) as nat;
            &&& reach_all(m, lcs, hm).disjoint(reach_all(m, rcs, hm))
            &&& !reach_all(m, lcs, hm).contains(id)
            &&& !reach_all(m, rcs, hm).contains(id)
            &&& !reach_all(m, rcs, hm).contains(rid)
            &&& forall|x: NodeId| #[trigger] reach_all(m, lcs, hm).contains(x) ==> reach_all(m, cs, hm).contains(x)
            &&& forall|x: NodeId| #[trigger] reach_all(m, rcs, hm).contains(x) ==> reach_all(m, cs, hm).contains(x)
        }),
{
    let sep = ks[mid];
    let lks = ks.subrange(0, mid + 1);
    let lcs = cs.subrange(0, mid + 1);
    let rks = ks.subrange(mid + 1, ks.len() as int);
    let rcs = cs.subrange(mid + 1, cs.len() as int);
    let hm = (h - 1) as nat;
    let off = mid + 1;
    lemma_reach_all(m, cs, hm);
    lemma_reach_all(m, lcs, hm);
    lemma_reach_all(m, rcs, hm);
    // nodes under each part
    assert forall|x: NodeId| #[trigger] reach_all(m, lcs, hm).contains(x) implies reach_all(m, cs, hm).contains(x) by {
        let i = choose|i: int| 0 <= i < lcs.len() && #[trigger] reach(m, lcs[i], hm).contains(x);
        assert(lcs[i] == cs[i]);
    }
    assert forall|x: NodeId| #[trigger] reach_all(m, rcs, hm).contains(x) implies reach_all(m, cs, hm).contains(x) by {
        let i = choose|i: int| 0 <= i < rcs.len() && #[trigger] reach(m, rcs[i], hm).contains(x);
        assert(rcs[i] == cs[i + off]);
    }
    assert forall|x: NodeId| reach_all(m, lcs, hm).contains(x) implies !reach_all(m, rcs, hm).contains(x) by {
        let i = choose|i: int| 0 <= i < lcs.len() && #[trigger] reach(m, lcs[i], hm).contains(x);
        if reach_all(m, rcs, hm).contains(x) {
            let j = choose|j: int| 0 <= j < rcs.len() && #[trigger] reach(m, rcs[j], hm).contains(x);
            assert(lcs[i] == cs[i] && rcs[j] == cs[j + off]);
            assert(reach(m, cs[i], hm).disjoint(reach(m, cs[j + off], hm)));
        }
    }
    assert forall|x: NodeId| reach_all(m, rcs, hm).contains(x) implies x != id by {
        let j = choose|j: int| 0 <= j < rcs.len() && #[trigger] reach(m, rcs[j], hm).contains(x);
        assert(rcs[j] == cs[j + off]);
    }
    assert forall|x: NodeId| reach_all(m, lcs, hm).contains(x) implies x != id by {
        let j = choose|j: int| 0 <= j < lcs.len() && #[trigger] reach(m, lcs[j], hm).contains(x);
        assert(lcs[j] == cs[j]);
    }
}

/// After an internal split, a search below the separator goes left and the
/// others go right, reaching the child they reached before.
pub proof fn lemma_split_route(
    m: Map<NodeId, Node>,
    id: NodeId,
    rid: NodeId,
    h: nat,
    lo: Option<Seq<u8>>,
    hi: Option<Seq<u8>>,
    ks: Seq<Seq<u8>>,
    cs: Seq<NodeId>,
    mid: int,
)
    requires
        children_ok(m, id, h, lo, hi, ks, cs),
        ks.len() >= 5,
        mid == ks.len() / 2,
        !reach_all(m, cs, (h - 1) as nat).contains(rid),
    ensures
        ({
            let sep = ks[mid];
            let lks = ks.subrange(0, mid + 1);
            let lcs = cs.subrange(0, mid + 1);
            let rks = ks.subrange(mid + 1, ks.len() as int);
            let rcs = cs.subrange(mid + 1, cs.len() as int);
            let hm = (h - 1) as nat;
            forall|k: Seq<u8>| in_range(k, lo, hi) ==> (if key_lt(k, sep) {
                #[trigger] route_lookup(m, lks, lcs, h, k)
            } else {
                route_lookup(m, rks, rcs, h, k)
            }) == route_lookup(m, ks, cs, h, k)
        }),
{
    let sep = ks[mid];
    let lks = ks.subrange(0, mid + 1);
    let lcs = cs.subrange(0, mid + 1);
    let rks = ks.subrange(mid + 1, ks.len() as int);
    let rcs = cs.subrange(mid + 1, cs.len() as int);
    let hm = (h - 1) as nat;
    let off = mid + 1;
    // searches
    assert forall|k: Seq<u8>| in_range(k, lo, hi) implies (if key_lt(k, sep) {
        #[trigger] route_lookup(m, lks, lcs, h, k)
    } else {
        route_lookup(m, rks, rcs, h, k)
    }) == route_lookup(m, ks, cs, h, k) by {
        lemma_route(ks, cs.len() as int, lo, hi, k);
        lemma_count_le_spec(ks, k);
        let ci = count_le(ks, k) as int;
        if key_lt(k, sep) {
            if ci > mid {
                assert(key_le(ks[mid], k));
                lemma_total(k, sep);
            }
            assert forall|j: int| 0 <= j < ci implies key_le(#[trigger] lks[j], k) by {
                assert(lks[j] == ks[j]);
            }
            assert forall|j: int| ci <= j < lks.len() implies key_lt(k, #[trigger] lks[j]) by {
                assert(lks[j] == ks[j]);
            }
            lemma_count_le_boundary_sorted(lks, k, ci);
            assert(lcs[ci] == cs[ci]);
        } else {
            if ci <= mid {
                assert(key_lt(k, ks[mid]));
            }
            assert forall|j: int| 0 <= j < ci - off implies key_le(#[trigger] rks[j], k) by {
                assert(rks[j] == ks[j + off]);
            }
            assert forall|j: int| ci - off <= j < rks.len() implies key_lt(k, #[trigger] rks[j]) by {
                assert(rks[j] == ks[j + off]);
            }
            lemma_count_le_boundary_sorted(rks, k, ci - off);
            assert(rcs[ci - off] == cs[ci]);
        }
    }
}


/// Children that satisfy a node's conditions in one map satisfy them in any
/// map that agrees on the nodes under them, and searches end the same.
pub proof fn lemma_children_ok_frame(
    m: Map<NodeId, Node>,
    m2: Map<NodeId, Node>,
    id: NodeId,
    h: nat,
    lo: Option<Seq<u8>>,
    hi: Option<Seq<u8>>,
    ks: Seq<Seq<u8>>,
    cs: Seq<NodeId>,
)
    requires
        children_ok(m, id, h, lo, hi, ks, cs),
        forall|x: NodeId| #[trigger] reach_all(m, cs, (h - 1) as nat).contains(x) ==> m2.contains_key(x) == m.contains_key(x)
            && (m.contains_key(x) ==> m2[x] == m[x]),
    ensures
        children_ok(m2, id, h, lo, hi, ks, cs),
        reach_all(m2, cs, (h - 1) as nat) == reach_all(m, cs, (h - 1) as nat),
        forall|k: Seq<u8>| in_range(k, lo, hi) ==> #[trigger] route_lookup(m2, ks, cs, h, k) == route_lookup(m, ks, cs, h, k),
{
    let hm = (h - 1) as nat;
    lemma_reach_all(m, cs, hm);
    lemma_reach_all(m2, cs, hm);
    assert forall|i: int| 0 <= i < cs.len() implies
        reach(m2, #[trigger] cs[i], hm) == reach(m, cs[i], hm)
        && (forall|k: Seq<u8>| #[trigger] lookup(m2, cs[i], hm, k) == lookup(m, cs[i], hm, k))
        && (forall|l: Option<Seq<u8>>, u: Option<Seq<u8>>| #[trigger] wf_node(m2, cs[i], hm, l, u) == wf_node(m, cs[i], hm, l, u))
    by {
        assert forall|x: NodeId| #[trigger] reach(m, cs[i], hm).contains(x) implies reach_all(m, cs, hm).contains(x) by {}
        lemma_frame(m, m2, cs[i], hm);
    }
    assert(reach_all(m2, cs, hm) =~= reach_all(m, cs, hm));
    assert(children_ok(m2, id, h, lo, hi, ks, cs));
    assert forall|k: Seq<u8>| in_range(k, lo, hi) implies #[trigger] route_lookup(m2, ks, cs, h, k) == route_lookup(m, ks, cs, h, k) by {
        lemma_route(ks, cs.len() as int, lo, hi, k);
    }
}

/// Storing back a node that absorbed the put completes it.
pub proof fn lemma_finish_keep(
    m0: Map<NodeId, Node>,
    m2: Map<NodeId, Node>,
    id: NodeId,
    node: Node,
    h: nat,
    lo: Option<Seq<u8>>,
    hi: Option<Seq<u8>>,
    key: Seq<u8>,
    val: Seq<u8>,
    n0: NodeId,
    n2: NodeId,
)
    requires
        node is Internal,
        children_ok(m2, id, h, lo, hi, seqs(node->Internal_keys@), node->Internal_children@),
        forall|k: Seq<u8>| in_range(k, lo, hi) ==> #[trigger] route_lookup(m2, seqs(node->Internal_keys@), node->Internal_children@, h, k)
            == upd(lookup(m0, id, h, k), k, key, val),
        forall|x: NodeId| #[trigger] reach_all(m2, node->Internal_children@, (h - 1) as nat).contains(x) ==> reach(m0, id, h).contains(x) || (n0 <= x < n2),
        forall|x: NodeId| x < n0 && !reach(m0, id, h).contains(x) ==> (#[trigger] m2.contains_key(x) == m0.contains_key(x)
            && (m0.contains_key(x) ==> m2[x] == m0[x])),
        reach(m0, id, h).contains(id),
        id < n0,
        n0 <= n2,
        forall|x: NodeId| #[trigger] m2.contains_key(x) ==> x < n2,
    ensures
        put_result(m0, m2.insert(id, node), id, h, lo, hi, key, val, n0, n2, None),
{
    let m3 = m2.insert(id, node);
    lemma_install_internal(m2, id, node, h, lo, hi);
    assert forall|x: NodeId| #[trigger] m3.contains_key(x) implies x < n2 by {}
}

/// Storing back the two halves of a node that split completes the put.
pub proof fn lemma_finish_split(
    m0: Map<NodeId, Node>,
    m2: Map<NodeId, Node>,
    id: NodeId,
    h: nat,
    lo: Option<Seq<u8>>,
    hi: Option<Seq<u8>>,
    key: Seq<u8>,
    val: Seq<u8>,
    n0: NodeId,
    n2: NodeId,
    ks: Seq<Seq<u8>>,
    cs: Seq<NodeId>,
    mid: int,
    left: Node,
    right: Node,
)
    requires
        children_ok(m2, id, h, lo, hi, ks, cs),
        ks.len() >= 5,
        mid == ks.len() / 2,
        left is Internal,
        seqs(left->Internal_keys@) == ks.subrange(0, mid + 1),
        left->Internal_children@ == cs.subrange(0, mid + 1),
        right is Internal,
        seqs(right->Internal_keys@) == ks.subrange(mid + 1, ks.len() as int),
        right->Internal_children@ == cs.subrange(mid + 1, cs.len() as int),
        forall|k: Seq<u8>| in_range(k, lo, hi) ==> #[trigger] route_lookup(m2, ks, cs, h, k) == upd(lookup(m0, id, h, k), k, key, val),
        forall|x: NodeId| #[trigger] reach_all(m2, cs, (h - 1) as nat).contains(x) ==> reach(m0, id, h).contains(x) || (n0 <= x < n2),
        forall|x: NodeId| x < n0 && !reach(m0, id, h).contains(x) ==> (#[trigger] m2.contains_key(x) == m0.contains_key(x)
            && (m0.contains_key(x) ==> m2[x] == m0[x])),
        forall|x: NodeId| #[trigger] reach(m0, id, h).contains(x) ==> x < n0,
        reach(m0, id, h).contains(id),
        n0 <= n2,
        n2 < 0xFFFF_FFFF_FFFF_FFFF,
        forall|x: NodeId| #[trigger] m2.contains_key(x) ==> x < n2,
    ensures
        put_result(m0, m2.insert(n2, right).insert(id, left), id, h, lo, hi, key, val, n0, (n2 + 1) as NodeId, Some((ks[mid], n2))),
{
    let hm = (h - 1) as nat;
    let sep = ks[mid];
    let lks = ks.subrange(0, mid + 1);
    let lcs = cs.subrange(0, mid + 1);
    let rks = ks.subrange(mid + 1, ks.len() as int);
    let rcs = cs.subrange(mid + 1, cs.len() as int);
    let rid = n2;
    let n3 = (n2 + 1) as NodeId;
    assert(!reach_all(m2, cs, hm).contains(rid)) by {
        if reach_all(m2, cs, hm).contains(rid) {
            if reach(m0, id, h).contains(rid) {
                assert(rid < n0);
            }
        }
    }
    lemma_split_left(m2, id, rid, h, lo, hi, ks, cs, mid);
    lemma_split_right(m2, id, rid, h, lo, hi, ks, cs, mid);
    lemma_split_reach(m2, id, rid, h, lo, hi, ks, cs, mid);
    lemma_split_route(m2, id, rid, h, lo, hi, ks, cs, mid);
    let mb = m2.insert(rid, right);
    let m3 = mb.insert(id, left);
    // the right half, stored at `rid`
    lemma_install_internal(m2, rid, right, h, Some(sep), hi);
    // the left half sees the same children once `rid` is stored
    assert forall|x: NodeId| #[trigger] reach_all(m2, lcs, hm).contains(x) implies mb.contains_key(x) == m2.contains_key(x)
        && (m2.contains_key(x) ==> mb[x] == m2[x]) by {}
    lemma_children_ok_frame(m2, mb, id, h, lo, Some(sep), lks, lcs);
    lemma_install_internal(mb, id, left, h, lo, Some(sep));
    // storing the left half leaves the right half alone
    assert forall|x: NodeId| #[trigger] reach(mb, rid, h).contains(x) implies m3.contains_key(x) == mb.contains_key(x)
        && (mb.contains_key(x) ==> m3[x] == mb[x]) by {
        if x == id {
            assert(!reach_all(m2, rcs, hm).contains(id));
        }
    }
    lemma_frame(mb, m3, rid, h);
    assert forall|x: NodeId| #[trigger] m3.contains_key(x) implies x < n3 by {}
    assert forall|x: NodeId| x < n0 && !reach(m0, id, h).contains(x) implies (#[trigger] m3.contains_key(x) == m0.contains_key(x)
        && (m0.contains_key(x) ==> m3[x] == m0[x])) by {}
    assert forall|x: NodeId| #[trigger] reach(m3, id, h).contains(x) implies reach(m0, id, h).contains(x) || (n0 <= x < n3) by {
        if x != id {
            assert(reach_all(mb, lcs, hm).contains(x));
        }
    }
    assert forall|x: NodeId| #[trigger] reach(m3, rid, h).contains(x) implies reach(m0, id, h).contains(x) || (n0 <= x < n3) by {
        if x != rid {
            assert(reach_all(m2, rcs, hm).contains(x));
        }
    }
    assert forall|x: NodeId| reach(m3, id, h).contains(x) implies !reach(m3, rid, h).contains(x) by {
        if x == id {
        } else {
            assert(reach_all(mb, lcs, hm).contains(x));
            if x == rid {
                assert(reach_all(m2, cs, hm).contains(rid));
            }
        }
    }
    assert forall|k: Seq<u8>| in_range(k, lo, hi) implies (if key_lt(k, sep) {
        lookup(m3, id, h, k)
    } else {
        lookup(m3, rid, h, k)
    }) == upd(lookup(m0, id, h, k), k, key, val) by {
        if key_lt(k, sep) {
            assert(in_range(k, lo, Some(sep)));
        } else {
            lemma_total(k, sep);
            assert(in_range(k, Some(sep), hi));
        }
    }
}

/// What a read gives back of a write: once `insert_rec` has put `key ->
/// val` into a whole (unbounded) subtree that absorbed it, a lookup of `key`
/// gives `val` and every other key gives what it gave before.
pub proof fn lemma_lookup_after_put(
    m0: Map<NodeId, Node>,
    m1: Map<NodeId, Node>,
    id: NodeId,
    h: nat,
    key: Seq<u8>,
    val: Seq<u8>,
    n0: NodeId,
    n1: NodeId,
    k: Seq<u8>,
)
    requires
        put_result(m0, m1, id, h, None, None, key, val, n0, n1, None),
    ensures
        lookup(m1, id, h, key) == Some(val),
        k != key ==> lookup(m1, id, h, k) == lookup(m0, id, h, k),
{
    assert(in_range(key, None, None));
    assert(in_range(k, None, None));
}

} // verus!
