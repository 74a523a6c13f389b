use vstd::prelude::*;
use crate::models::LinkRecord;

verus! {

/// The contents of a list of strings.
pub open spec fn key_views(ks: Seq<String>) -> Seq<Seq<char>> {
    ks.map_values(|s: String| s@)
}

/// No key occurs twice.
pub open spec fn distinct(ks: Seq<Seq<char>>) -> bool {
    forall|i: int, j: int| 0 <= i < ks.len() && 0 <= j < ks.len() && i != j ==> ks[i] != ks[j]
}

/// The map that pairs each key with the value at the same position.
pub open spec fn assoc<V>(ks: Seq<Seq<char>>, vs: Seq<V>) -> Map<Seq<char>, V>
    decreases ks.len(),
{
    if ks.len() == 0 {
        Map::empty()
    } else {
        assoc(ks.drop_last(), vs.drop_last()).insert(ks.last(), vs.last())
    }
}

/// What a map holds under `k`, if anything.
pub open spec fn lookup<V>(m: Map<Seq<char>, V>, k: Seq<char>) -> Option<V> {
    if m.dom().contains(k) {
        Some(m[k])
    } else {
        None
    }
}

/// With distinct keys, the map holds exactly the keys of the list, each with
/// the value at its position.
pub proof fn lemma_assoc<V>(ks: Seq<Seq<char>>, vs: Seq<V>)
    requires
        ks.len() == vs.len(),
        distinct(ks),
    ensures
        forall|k: Seq<char>| #[trigger] assoc(ks, vs).dom().contains(k) <==> ks.contains(k),
        forall|j: int| 0 <= j < ks.len() ==> #[trigger] assoc(ks, vs)[ks[j]] == vs[j],
    decreases ks.len(),
{
    if ks.len() > 0 {
        let ks1 = ks.drop_last();
        let vs1 = vs.drop_last();
        assert(distinct(ks1)) by {
            assert forall|a: int, b: int| 0 <= a < ks1.len() && 0 <= b < ks1.len() && a != b implies ks1[a] != ks1[b] by {
                assert(ks1[a] == ks[a] && ks1[b] == ks[b]);
            }
        }
        lemma_assoc(ks1, vs1);
        let m1 = assoc(ks1, vs1);
        assert(assoc(ks, vs) == m1.insert(ks.last(), vs.last()));
        assert forall|k: Seq<char>| #[trigger] assoc(ks, vs).dom().contains(k) <==> ks.contains(k) by {
            if ks.contains(k) {
                let j = choose|j: int| 0 <= j < ks.len() && ks[j] == k;
                if j < ks.len() - 1 {
                    assert(ks1[j] == k);
                }
            }
            if ks1.contains(k) {
                let j = choose|j: int| 0 <= j < ks1.len() && ks1[j] == k;
                assert(ks[j] == k);
            }
            if k == ks.last() {
                assert(ks[ks.len() - 1] == k);
            }
            assert(m1.dom().contains(k) <==> ks1.contains(k));
        }
        assert forall|j: int| 0 <= j < ks.len() implies #[trigger] assoc(ks, vs)[ks[j]] == vs[j] by {
            if j < ks.len() - 1 {
                assert(ks1[j] == ks[j]);
                assert(ks[j] != ks[ks.len() - 1]);
                assert(m1[ks1[j]] == vs1[j]);
            }
        }
    }
}

/// Appending a new key adds it to the map.
proof fn lemma_assoc_push<V>(ks: Seq<Seq<char>>, vs: Seq<V>, k: Seq<char>, v: V)
    ensures
        assoc(ks.push(k), vs.push(v)) == assoc(ks, vs).insert(k, v),
{
    assert(ks.push(k).drop_last() =~= ks);
    assert(vs.push(v).drop_last() =~= vs);
}

/// The position of `id` among the keys, if it is there.
fn find(ks: &Vec<String>, id: &String) -> (r: Option<usize>)
    ensures
        match r {
            Some(i) => i < ks.len() && ks@[i as int]@ == id@,
            None => !key_views(ks@).contains(id@),
        },
{
    let mut i: usize = 0;
    while i < ks.len()
        invariant
            i <= ks.len(),
            forall|j: int| 0 <= j < i ==> ks@[j]@ != id@,
        decreases ks.len() - i,
    {
        if ks[i] == *id {
            return Some(i);
        }
        i = i + 1;
    }
    proof {
        if key_views(ks@).contains(id@) {
            let j = choose|j: int| 0 <= j < key_views(ks@).len() && key_views(ks@)[j] == id@;
            assert(ks@[j]@ == id@);
        }
    }
    None
}

/// Links and their hit counts, kept in memory.
///
/// The ids are strings, and vstd's specification of `HashMap` proves nothing
/// useful for `String` keys (not even the length after one insert), so each
/// table is a vector of ids with no id twice beside a vector of values; the
/// views `links_map` and `hits_map` are the maps that the operations are
/// proved against.
pub struct MemoryStore {
    link_ids: Vec<String>,
    links: Vec<LinkRecord>,
    hit_ids: Vec<String>,
    hits: Vec<u64>,
}

impl MemoryStore {
    /// The store's shape: each id once, each link under its own id.
    pub closed spec fn wf(&self) -> bool {
        &&& self.link_ids@.len() == self.links@.len()
        &&& self.hit_ids@.len() == self.hits@.len()
        &&& distinct(key_views(self.link_ids@))
        &&& distinct(key_views(self.hit_ids@))
        &&& forall|i: int| 0 <= i < self.links@.len() ==> #[trigger] self.links@[i].id@ == self.link_ids@[i]@
    }

    /// The links, by id.
    pub closed spec fn links_map(&self) -> Map<Seq<char>, LinkRecord> {
        assoc(key_views(self.link_ids@), self.links@)
    }

    /// The hit counts, by id.
    pub closed spec fn hits_map(&self) -> Map<Seq<char>, u64> {
        assoc(key_views(self.hit_ids@), self.hits@)
    }

    /// The hit count of `id`: 0 where none was counted.
    pub open spec fn hits_of(&self, id: Seq<char>) -> u64 {
        match lookup(self.hits_map(), id) {
            Some(n) => n,
            None => 0,
        }
    }

    proof fn lemma_wf_maps(&self)
        requires
            self.wf(),
        ensures
            forall|k: Seq<char>| #[trigger] self.links_map().dom().contains(k) <==> key_views(self.link_ids@).contains(k),
            forall|j: int| 0 <= j < self.links@.len() ==> #[trigger] self.links_map()[self.link_ids@[j]@] == self.links@[j],
            forall|k: Seq<char>| #[trigger] self.hits_map().dom().contains(k) <==> key_views(self.hit_ids@).contains(k),
            forall|j: int| 0 <= j < self.hits@.len() ==> #[trigger] self.hits_map()[self.hit_ids@[j]@] == self.hits@[j],
            forall|k: Seq<char>| #[trigger] self.links_map().dom().contains(k) ==> self.links_map()[k].id@ == k,
    {
        lemma_assoc(key_views(self.link_ids@), self.links@);
        lemma_assoc(key_views(self.hit_ids@), self.hits@);
        assert forall|j: int| 0 <= j < self.links@.len() implies #[trigger] self.links_map()[self.link_ids@[j]@] == self.links@[j] by {
            assert(key_views(self.link_ids@)[j] == self.link_ids@[j]@);
        }
        assert forall|j: int| 0 <= j < self.hits@.len() implies #[trigger] self.hits_map()[self.hit_ids@[j]@] == self.hits@[j] by {
            assert(key_views(self.hit_ids@)[j] == self.hit_ids@[j]@);
        }
        assert forall|k: Seq<char>| #[trigger] self.links_map().dom().contains(k) implies self.links_map()[k].id@ == k by {
            let j = choose|j: int| 0 <= j < key_views(self.link_ids@).len() && key_views(self.link_ids@)[j] == k;
            assert(self.links_map()[self.link_ids@[j]@] == self.links@[j]);
        }
    }

    /// An empty store.
    pub fn new() -> (s: MemoryStore)
        ensures
            s.wf(),
            s.links_map() == Map::<Seq<char>, LinkRecord>::empty(),
            s.hits_map() == Map::<Seq<char>, u64>::empty(),
    {
        let s = MemoryStore { link_ids: Vec::new(), links: Vec::new(), hit_ids: Vec::new(), hits: Vec::new() };
        assert(key_views(s.link_ids@) =~= Seq::<Seq<char>>::empty());
        assert(key_views(s.hit_ids@) =~= Seq::<Seq<char>>::empty());
        s
    }

    /// A copy of the link stored under `id`, if any.
    pub fn get(&self, id: &str) -> (r: Option<LinkRecord>)
        requires
            self.wf(),
        ensures
            r == lookup(self.links_map(), id@),
    {
        proof {
            self.lemma_wf_maps();
        }
        let key = id.to_owned();
        match find(&self.link_ids, &key) {
            Some(i) => {
                proof {
                    assert(key_views(self.link_ids@)[i as int] == id@);
                }
                Some(self.links[i].duplicate())
            },
            None => None,
        }
    }

    /// Stores `record` under its id, replacing the link stored there.
    pub fn put(&mut self, record: LinkRecord)
        requires
            old(self).wf(),
        ensures
            final(self).wf(),
            final(self).links_map() == old(self).links_map().insert(record.id@, record),
            final(self).hits_map() == old(self).hits_map(),
    {
        proof {
            self.lemma_wf_maps();
        }
        let ghost ks0 = key_views(self.link_ids@);
        let ghost m0 = self.links_map();
        let ghost rec = record;
        match find(&self.link_ids, &record.id) {
            Some(i) => {
                self.links.set(i, record);
                proof {
                    assert(key_views(self.link_ids@) == ks0);
                    lemma_assoc(ks0, self.links@);
                    assert forall|k: Seq<char>| #[trigger] self.links_map().dom().contains(k) == m0.insert(rec.id@, rec).dom().contains(k) by {
                        assert(ks0[i as int] == rec.id@);
                    }
                    assert forall|k: Seq<char>| self.links_map().dom().contains(k) implies #[trigger] self.links_map()[k] == m0.insert(rec.id@, rec)[k] by {
                        let j = choose|j: int| 0 <= j < ks0.len() && ks0[j] == k;
                        assert(self.links_map()[ks0[j]] == self.links@[j]);
                        assert(m0[ks0[j]] == old(self).links@[j]);
                        if j != i {
                            assert(ks0[j] != ks0[i as int]);
                        }
                    }
                    assert(self.links_map() =~= m0.insert(rec.id@, rec));
                }
            },
            None => {
                let id = record.id.clone();
                self.link_ids.push(id);
                self.links.push(record);
                proof {
                    assert(key_views(self.link_ids@) =~= ks0.push(rec.id@));
                    lemma_assoc_push(ks0, old(self).links@, rec.id@, rec);
                    assert forall|a: int, b: int| 0 <= a < key_views(self.link_ids@).len() && 0 <= b < key_views(self.link_ids@).len() && a != b
                        implies key_views(self.link_ids@)[a] != key_views(self.link_ids@)[b] by {
                        if a < ks0.len() && b < ks0.len() {
                        } else if a < ks0.len() {
                            assert(ks0.contains(ks0[a]));
                        } else {
                            assert(ks0.contains(ks0[b]));
                        }
                    }
                }
            },
        }
    }

    /// Removes the link stored under `id`, if any; its hit count stays.
    pub fn delete(&mut self, id: &str)
        requires
            old(self).wf(),
        ensures
            final(self).wf(),
            final(self).links_map() == old(self).links_map().remove(id@),
            final(self).hits_map() == old(self).hits_map(),
    {
        proof {
            self.lemma_wf_maps();
        }
        let ghost ks0 = key_views(self.link_ids@);
        let ghost m0 = self.links_map();
        let key = id.to_owned();
        match find(&self.link_ids, &key) {
            Some(i) => {
                self.link_ids.remove(i);
                self.links.remove(i);
                proof {
                    assert(ks0[i as int] == id@);
                    let ks1 = key_views(self.link_ids@);
                    assert(ks1 =~= ks0.remove(i as int));
                    assert forall|a: int, b: int| 0 <= a < ks1.len() && 0 <= b < ks1.len() && a != b implies ks1[a] != ks1[b] by {
                        let a0 = if a < i { a } else { a + 1 };
                        let b0 = if b < i { b } else { b + 1 };
                        assert(ks1[a] == ks0[a0] && ks1[b] == ks0[b0]);
                    }
                    assert forall|j: int| 0 <= j < self.links@.len() implies #[trigger] self.links@[j].id@ == self.link_ids@[j]@ by {
                        let j0 = if j < i { j } else { j + 1 };
                        assert(self.links@[j] == old(self).links@[j0]);
                        assert(self.link_ids@[j] == old(self).link_ids@[j0]);
                    }
                    lemma_assoc(ks1, self.links@);
                    assert forall|k: Seq<char>| #[trigger] self.links_map().dom().contains(k) == m0.remove(id@).dom().contains(k) by {
                        if ks1.contains(k) {
                            let j = choose|j: int| 0 <= j < ks1.len() && ks1[j] == k;
                            let j0 = if j < i { j } else { j + 1 };
                            assert(ks0[j0] == k);
                            assert(ks0.contains(k));
                            assert(j0 != i);
                        }
                        if ks0.contains(k) && k != id@ {
                            let j0 = choose|j: int| 0 <= j < ks0.len() && ks0[j] == k;
                            assert(j0 != i);
                            let j = if j0 < i { j0 } else { j0 - 1 };
                            assert(ks1[j] == k);
                        }
                    }
                    assert forall|k: Seq<char>| self.links_map().dom().contains(k) implies #[trigger] self.links_map()[k] == m0.remove(id@)[k] by {
                        let j = choose|j: int| 0 <= j < ks1.len() && ks1[j] == k;
                        let j0 = if j < i { j } else { j + 1 };
                        assert(ks0[j0] == k);
                        assert(self.links_map()[ks1[j]] == self.links@[j]);
                        assert(m0[ks0[j0]] == old(self).links@[j0]);
                    }
                    assert(self.links_map() =~= m0.remove(id@));
                }
            },
            None => {
                assert(m0.remove(id@) =~= m0);
            },
        }
    }

    /// Counts one more visit of `id`: its first visit counts 1.
    pub fn incr_hit(&mut self, id: &str)
        requires
            old(self).wf(),
            old(self).hits_of(id@) < u64::MAX,
        ensures
            final(self).wf(),
            final(self).hits_map() == old(self).hits_map().insert(id@, (old(self).hits_of(id@) + 1) as u64),
            final(self).links_map() == old(self).links_map(),
    {
        proof {
            self.lemma_wf_maps();
        }
        let ghost ks0 = key_views(self.hit_ids@);
        let ghost m0 = self.hits_map();
        let key = id.to_owned();
        match find(&self.hit_ids, &key) {
            Some(i) => {
                proof {
                    assert(ks0[i as int] == id@);
                    assert(m0[self.hit_ids@[i as int]@] == self.hits@[i as int]);
                }
                let n = self.hits[i] + 1;
                self.hits.set(i, n);
                proof {
                    assert(key_views(self.hit_ids@) == ks0);
                    lemma_assoc(ks0, self.hits@);
                    assert(ks0[i as int] == id@);
                    assert forall|k: Seq<char>| #[trigger] self.hits_map().dom().contains(k) == m0.insert(id@, n).dom().contains(k) by {
                    }
                    assert forall|k: Seq<char>| self.hits_map().dom().contains(k) implies #[trigger] self.hits_map()[k] == m0.insert(id@, n)[k] by {
                        let j = choose|j: int| 0 <= j < ks0.len() && ks0[j] == k;
                        assert(self.hits_map()[ks0[j]] == self.hits@[j]);
                        assert(m0[ks0[j]] == old(self).hits@[j]);
                        if j != i {
                            assert(ks0[j] != ks0[i as int]);
                        }
                    }
                    assert(self.hits_map() =~= m0.insert(id@, n));
                }
            },
            None => {
                self.hit_ids.push(key);
                self.hits.push(1);
                proof {
                    assert(key_views(self.hit_ids@) =~= ks0.push(id@));
                    lemma_assoc_push(ks0, old(self).hits@, id@, 1u64);
                    assert forall|a: int, b: int| 0 <= a < key_views(self.hit_ids@).len() && 0 <= b < key_views(self.hit_ids@).len() && a != b
                        implies key_views(self.hit_ids@)[a] != key_views(self.hit_ids@)[b] by {
                        if a < ks0.len() && b < ks0.len() {
                        } else if a < ks0.len() {
                            assert(ks0.contains(ks0[a]));
                        } else {
                            assert(ks0.contains(ks0[b]));
                        }
                    }
                }
            },
        }
    }

    /// The number of visits counted for `id`.
    pub fn get_hits(&self, id: &str) -> (n: u64)
        requires
            self.wf(),
        ensures
            n == self.hits_of(id@),
    {
        proof {
            self.lemma_wf_maps();
        }
        let key = id.to_owned();
        match find(&self.hit_ids, &key) {
            Some(i) => {
                proof {
                    assert(key_views(self.hit_ids@)[i as int] == id@);
                }
                self.hits[i]
            },
            None => 0,
        }
    }
}

/// What a read gives back of a write: after `put(record)`, a `get` of the
/// record's id returns the record, and every other id reads as before.
pub proof fn lemma_get_after_put(before: MemoryStore, after: MemoryStore, record: LinkRecord, id: Seq<char>)
    requires
        after.links_map() == before.links_map().insert(record.id@, record),
    ensures
        lookup(after.links_map(), record.id@) == Some(record),
        id != record.id@ ==> lookup(after.links_map(), id) == lookup(before.links_map(), id),
{
}

/// After `delete(id)`, a `get` of `id` finds nothing, and every other id
/// reads as before.
pub proof fn lemma_get_after_delete(before: MemoryStore, after: MemoryStore, id: Seq<char>, other: Seq<char>)
    requires
        after.links_map() == before.links_map().remove(id),
    ensures
        lookup(after.links_map(), id) == None::<LinkRecord>,
        other != id ==> lookup(after.links_map(), other) == lookup(before.links_map(), other),
{
}

/// Each `incr_hit(id)` raises the count that `get_hits(id)` reports by one,
/// from 0 for an id never counted, and leaves the other counts alone.
pub proof fn lemma_hits_after_incr(before: MemoryStore, after: MemoryStore, id: Seq<char>, other: Seq<char>)
    requires
        before.hits_of(id) < u64::MAX,
        after.hits_map() == before.hits_map().insert(id, (before.hits_of(id) + 1) as u64),
    ensures
        after.hits_of(id) == before.hits_of(id) + 1,
        other != id ==> after.hits_of(other) == before.hits_of(other),
{
}

} // verus!
