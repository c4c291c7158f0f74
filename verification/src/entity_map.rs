//! Listings in id order.
//!
//! `EntityMap` holds snapshots, each under its own id, and `IdSet` holds ids.
//! Both keep their contents in a vector in strictly increasing id order. The
//! world keeps its entities in an `EntityMap`; the store keeps what it holds
//! in the hash map and hash sets of the standard library, and puts it into
//! one of these wherever a result is owed in id order.

use std::collections::{HashMap, HashSet};
use vstd::prelude::*;
use vstd::std_specs::hash::*;
use vstd::std_specs::iter::IteratorSpec;
use crate::snapshot::EntitySnapshot;

verus! {

/// The ids of `s` grow strictly from left to right.
pub open spec fn ids_increasing(s: Seq<EntitySnapshot>) -> bool {
    forall|i: int, j: int| 0 <= i < j < s.len() ==> s[i].id < s[j].id
}

/// Some element of `s` carries `id`.
pub open spec fn has_id(s: Seq<EntitySnapshot>, id: u64) -> bool {
    exists|i: int| 0 <= i < s.len() && s[i].id == id
}

/// An index at which `s` carries `id`, if there is one.
pub open spec fn index_of(s: Seq<EntitySnapshot>, id: u64) -> int {
    choose|i: int| 0 <= i < s.len() && s[i].id == id
}

/// The mapping from id to snapshot that a sequence with distinct ids stands for.
pub open spec fn as_map(s: Seq<EntitySnapshot>) -> Map<u64, EntitySnapshot> {
    Map::new(|id: u64| has_id(s, id), |id: u64| s[index_of(s, id)])
}

/// The values of `s` grow strictly from left to right.
pub open spec fn strictly_increasing(s: Seq<u64>) -> bool {
    forall|i: int, j: int| 0 <= i < j < s.len() ==> s[i] < s[j]
}

/// The set of values that occur in `s`.
pub open spec fn as_set(s: Seq<u64>) -> Set<u64> {
    Set::new(|id: u64| s.contains(id))
}

/// Every element of an id-ordered sequence is what the map holds under its id,
/// and the map holds nothing else.
pub proof fn lemma_as_map(s: Seq<EntitySnapshot>)
    requires
        ids_increasing(s),
    ensures
        forall|i: int|
            0 <= i < s.len() ==> as_map(s).contains_key(#[trigger] s[i].id) && as_map(s)[s[i].id]
                == s[i],
        forall|id: u64| #[trigger]
            as_map(s).contains_key(id) ==> 0 <= index_of(s, id) < s.len() && s[index_of(s, id)].id
                == id,
{
    assert forall|i: int| 0 <= i < s.len() implies as_map(s).contains_key(#[trigger] s[i].id)
        && as_map(s)[s[i].id] == s[i] by {
        let id = s[i].id;
        assert(has_id(s, id));
        let k = index_of(s, id);
        assert(0 <= k < s.len() && s[k].id == id);
        if k < i {
            assert(s[k].id < s[i].id);
        }
        if i < k {
            assert(s[i].id < s[k].id);
        }
    }
}

/// Two id-ordered sequences that stand for the same map are the same sequence.
pub proof fn lemma_listing_unique(a: Seq<EntitySnapshot>, b: Seq<EntitySnapshot>)
    requires
        ids_increasing(a),
        ids_increasing(b),
        as_map(a) == as_map(b),
    ensures
        a == b,
    decreases a.len(),
{
    lemma_as_map(a);
    lemma_as_map(b);
    if a.len() == 0 {
        if b.len() > 0 {
            assert(as_map(b).contains_key(b[0].id));
            assert(has_id(a, b[0].id));
        }
        assert(a =~= b);
    } else {
        let la = a.last();
        assert(as_map(a).contains_key(a[a.len() - 1].id));
        assert(has_id(b, la.id));
        let kb = index_of(b, la.id);
        if kb != b.len() - 1 {
            let lb = b[b.len() - 1];
            assert(as_map(b).contains_key(b[b.len() - 1].id));
            assert(has_id(a, lb.id));
            let ka = index_of(a, lb.id);
            assert(b[kb].id < lb.id);
            assert(a[ka].id <= la.id) by {
                if ka < a.len() - 1 {
                    assert(a[ka].id < a[a.len() - 1].id);
                }
            }
        }
        assert(b.last().id == la.id);
        assert(as_map(b)[b[b.len() - 1].id] == b[b.len() - 1]);
        assert(b.last() == la);
        let a0 = a.drop_last();
        let b0 = b.drop_last();
        lemma_as_map(a0);
        lemma_as_map(b0);
        assert forall|id: u64| as_map(a0).contains_key(id) == as_map(b0).contains_key(id) by {
            if has_id(a0, id) {
                let k = index_of(a0, id);
                assert(a[k].id == id);
                assert(a[k].id < a[a.len() - 1].id);
                assert(as_map(a).contains_key(a[k].id));
                let j = index_of(b, id);
                assert(j != b.len() - 1);
                assert(b0[j].id == id);
            }
            if has_id(b0, id) {
                let k = index_of(b0, id);
                assert(b[k].id == id);
                assert(b[k].id < b[b.len() - 1].id);
                assert(as_map(b).contains_key(b[k].id));
                let j = index_of(a, id);
                assert(j != a.len() - 1);
                assert(a0[j].id == id);
            }
        }
        assert forall|id: u64| as_map(a0).contains_key(id) implies as_map(a0)[id] == as_map(
            b0,
        )[id] by {
            let k = index_of(a0, id);
            let j = index_of(b0, id);
            assert(a[k] == a0[k]);
            assert(b[j] == b0[j]);
            assert(as_map(a)[a[k].id] == a[k]);
            assert(as_map(b)[b[j].id] == b[j]);
        }
        assert(as_map(a0) =~= as_map(b0));
        lemma_listing_unique(a0, b0);
        assert(a =~= a0.push(la));
        assert(b =~= b0.push(la));
    }
}

/// Every entity of the map is held under its own id.
pub open spec fn keyed_by_id(m: Map<u64, EntitySnapshot>) -> bool {
    forall|k: u64| m.contains_key(k) ==> (#[trigger] m[k]).id == k
}

/// The id-ordered listing of a map.
pub open spec fn listing_of(m: Map<u64, EntitySnapshot>) -> Seq<EntitySnapshot> {
    choose|s: Seq<EntitySnapshot>| ids_increasing(s) && as_map(s) == m
}

/// The listing of the map that an id-ordered sequence stands for is that
/// sequence.
pub proof fn lemma_listing_of(s: Seq<EntitySnapshot>)
    requires
        ids_increasing(s),
    ensures
        listing_of(as_map(s)) == s,
{
    let t = listing_of(as_map(s));
    assert(ids_increasing(s) && as_map(s) == as_map(s));
    assert(ids_increasing(t) && as_map(t) == as_map(s));
    lemma_listing_unique(t, s);
}

/// Writing `e` over the element at `i`, which carries the same id, is an insert
/// into the map.
pub proof fn lemma_map_update(s: Seq<EntitySnapshot>, i: int, e: EntitySnapshot)
    requires
        ids_increasing(s),
        0 <= i < s.len(),
        s[i].id == e.id,
    ensures
        ids_increasing(s.update(i, e)),
        as_map(s.update(i, e)) == as_map(s).insert(e.id, e),
{
    let t = s.update(i, e);
    assert(ids_increasing(t)) by {
        assert forall|a: int, b: int| 0 <= a < b < t.len() implies t[a].id < t[b].id by {
            assert(s[a].id < s[b].id);
        }
    }
    lemma_as_map(s);
    lemma_as_map(t);
    assert forall|id: u64| as_map(t).contains_key(id) == as_map(s).insert(e.id, e).contains_key(
        id,
    ) by {
        if has_id(t, id) {
            let k = index_of(t, id);
            assert(s[k].id == id);
        }
        if has_id(s, id) {
            let k = index_of(s, id);
            assert(t[k].id == id);
        }
        if id == e.id {
            assert(t[i].id == id);
        }
    }
    assert forall|id: u64| as_map(t).contains_key(id) implies as_map(t)[id] == as_map(s).insert(
        e.id,
        e,
    )[id] by {
        let k = index_of(t, id);
        assert(as_map(t)[t[k].id] == t[k]);
        if k != i {
            assert(s[k] == t[k]);
            assert(as_map(s)[s[k].id] == s[k]);
            assert(s[k].id != s[i].id) by {
                if k < i {
                    assert(s[k].id < s[i].id);
                } else {
                    assert(s[i].id < s[k].id);
                }
            }
        }
    }
    assert(as_map(t) =~= as_map(s).insert(e.id, e));
}

/// Placing `e` at its ordered position `i` is an insert into the map.
pub proof fn lemma_map_insert(s: Seq<EntitySnapshot>, i: int, e: EntitySnapshot)
    requires
        ids_increasing(s),
        0 <= i <= s.len(),
        forall|k: int| 0 <= k < i ==> s[k].id < e.id,
        forall|k: int| i <= k < s.len() ==> s[k].id > e.id,
    ensures
        ids_increasing(s.insert(i, e)),
        as_map(s.insert(i, e)) == as_map(s).insert(e.id, e),
{
    let t = s.insert(i, e);
    assert(ids_increasing(t)) by {
        assert forall|a: int, b: int| 0 <= a < b < t.len() implies t[a].id < t[b].id by {
            if b < i {
                assert(s[a].id < s[b].id);
            } else if b == i {
            } else if a < i {
                assert(t[b] == s[b - 1]);
                if a < b - 1 {
                    assert(s[a].id < s[b - 1].id);
                }
            } else if a == i {
                assert(t[b] == s[b - 1]);
            } else {
                assert(t[a] == s[a - 1]);
                assert(t[b] == s[b - 1]);
                assert(s[a - 1].id < s[b - 1].id);
            }
        }
    }
    lemma_as_map(s);
    lemma_as_map(t);
    assert forall|id: u64| as_map(t).contains_key(id) == as_map(s).insert(e.id, e).contains_key(
        id,
    ) by {
        if has_id(t, id) {
            let k = index_of(t, id);
            if k < i {
                assert(s[k].id == id);
            } else if k > i {
                assert(s[k - 1].id == id);
            }
        }
        if has_id(s, id) {
            let k = index_of(s, id);
            if k < i {
                assert(t[k].id == id);
            } else {
                assert(t[k + 1].id == id);
            }
        }
        if id == e.id {
            assert(t[i].id == id);
        }
    }
    assert forall|id: u64| as_map(t).contains_key(id) implies as_map(t)[id] == as_map(s).insert(
        e.id,
        e,
    )[id] by {
        let k = index_of(t, id);
        assert(as_map(t)[t[k].id] == t[k]);
        if k < i {
            assert(s[k] == t[k]);
            assert(as_map(s)[s[k].id] == s[k]);
        } else if k > i {
            assert(s[k - 1] == t[k]);
            assert(as_map(s)[s[k - 1].id] == s[k - 1]);
        }
    }
    assert(as_map(t) =~= as_map(s).insert(e.id, e));
}

/// Appending `e`, whose id is above every id of `s`, is an insert into the map.
pub proof fn lemma_map_push(s: Seq<EntitySnapshot>, e: EntitySnapshot)
    requires
        ids_increasing(s),
        forall|k: int| 0 <= k < s.len() ==> s[k].id < e.id,
    ensures
        ids_increasing(s.push(e)),
        as_map(s.push(e)) == as_map(s).insert(e.id, e),
{
    assert(s.push(e) =~= s.insert(s.len() as int, e));
    lemma_map_insert(s, s.len() as int, e);
}

/// The empty listing stands for the empty map, and only it does.
pub proof fn lemma_map_empty(s: Seq<EntitySnapshot>)
    ensures
        s.len() == 0 ==> as_map(s) == Map::<u64, EntitySnapshot>::empty(),
        as_map(s) == Map::<u64, EntitySnapshot>::empty() ==> s.len() == 0,
{
    if s.len() == 0 {
        assert(as_map(s) =~= Map::<u64, EntitySnapshot>::empty());
    } else {
        assert(has_id(s, s[0].id));
        assert(as_map(s).contains_key(s[0].id));
    }
}

/// Taking out the element at `i` removes its id from the map.
pub proof fn lemma_map_remove(s: Seq<EntitySnapshot>, i: int)
    requires
        ids_increasing(s),
        0 <= i < s.len(),
    ensures
        ids_increasing(s.remove(i)),
        as_map(s.remove(i)) == as_map(s).remove(s[i].id),
{
    let t = s.remove(i);
    let gone = s[i].id;
    assert(ids_increasing(t)) by {
        assert forall|a: int, b: int| 0 <= a < b < t.len() implies t[a].id < t[b].id by {
            let sa = if a < i { a } else { a + 1 };
            let sb = if b < i { b } else { b + 1 };
            assert(t[a] == s[sa]);
            assert(t[b] == s[sb]);
            assert(s[sa].id < s[sb].id);
        }
    }
    lemma_as_map(s);
    lemma_as_map(t);
    assert forall|id: u64| as_map(t).contains_key(id) == as_map(s).remove(gone).contains_key(
        id,
    ) by {
        if has_id(t, id) {
            let k = index_of(t, id);
            let sk = if k < i { k } else { k + 1 };
            assert(t[k] == s[sk]);
            assert(s[sk].id == id);
            if sk < i {
                assert(s[sk].id < s[i].id);
            } else {
                assert(s[i].id < s[sk].id);
            }
        }
        if has_id(s, id) && id != gone {
            let k = index_of(s, id);
            if k < i {
                assert(t[k].id == id);
            } else {
                assert(t[k - 1].id == id);
            }
        }
    }
    assert forall|id: u64| as_map(t).contains_key(id) implies as_map(t)[id] == as_map(s).remove(
        gone,
    )[id] by {
        let k = index_of(t, id);
        let sk = if k < i { k } else { k + 1 };
        assert(as_map(t)[t[k].id] == t[k]);
        assert(t[k] == s[sk]);
        assert(as_map(s)[s[sk].id] == s[sk]);
    }
    assert(as_map(t) =~= as_map(s).remove(gone));
}

/// Snapshots in strictly increasing id order, each found again by its id.
pub struct EntityMap {
    items: Vec<EntitySnapshot>,
}

impl View for EntityMap {
    type V = Map<u64, EntitySnapshot>;

    open spec fn view(&self) -> Map<u64, EntitySnapshot> {
        as_map(self.listing())
    }
}

impl EntityMap {
    /// The snapshots in increasing id order.
    pub closed spec fn listing(&self) -> Seq<EntitySnapshot> {
        self.items@
    }

    /// The listing is in strictly increasing id order.
    pub closed spec fn wf(&self) -> bool {
        ids_increasing(self.items@)
    }

    /// What `wf` means for the listing.
    pub proof fn lemma_wf(&self)
        requires
            self.wf(),
        ensures
            ids_increasing(self.listing()),
    {
    }

    /// An empty map.
    pub fn new() -> (m: EntityMap)
        ensures
            m.wf(),
            m.listing() == Seq::<EntitySnapshot>::empty(),
            m@ == Map::<u64, EntitySnapshot>::empty(),
    {
        let m = EntityMap { items: Vec::new() };
        assert(m@ =~= Map::<u64, EntitySnapshot>::empty());
        m
    }

    /// The number of entities.
    pub fn len(&self) -> (n: usize)
        ensures
            n == self.listing().len(),
    {
        self.items.len()
    }

    /// The snapshot at place `i` of the listing.
    pub fn nth(&self, i: usize) -> (e: EntitySnapshot)
        requires
            i < self.listing().len(),
        ensures
            e == self.listing()[i as int],
    {
        self.items[i]
    }

    /// Where `id` stands in the listing, or where it would have to be put.
    fn position(&self, id: u64) -> (r: (usize, bool))
        requires
            self.wf(),
        ensures
            r.0 <= self.listing().len(),
            forall|k: int| 0 <= k < r.0 ==> self.listing()[k].id < id,
            r.1 ==> r.0 < self.listing().len() && self.listing()[r.0 as int].id == id,
            !r.1 ==> forall|k: int| r.0 <= k < self.listing().len() ==> self.listing()[k].id > id,
    {
        let mut lo: usize = 0;
        let mut hi: usize = self.items.len();
        while lo < hi
            invariant
                ids_increasing(self.items@),
                lo <= hi <= self.items.len(),
                forall|k: int| 0 <= k < lo ==> self.items@[k].id < id,
                forall|k: int| hi <= k < self.items.len() ==> self.items@[k].id >= id,
            decreases hi - lo,
        {
            let mid: usize = lo + (hi - lo) / 2;
            if self.items[mid].id < id {
                assert forall|k: int| 0 <= k < mid + 1 implies self.items@[k].id < id by {
                    if k < mid {
                        assert(self.items@[k].id < self.items@[mid as int].id);
                    }
                }
                lo = mid + 1;
            } else {
                assert forall|k: int| mid <= k < self.items.len() implies self.items@[k].id
                    >= id by {
                    if mid < k {
                        assert(self.items@[mid as int].id < self.items@[k].id);
                    }
                }
                hi = mid;
            }
        }
        let found = lo < self.items.len() && self.items[lo].id == id;
        proof {
            if !found {
                assert forall|k: int| lo <= k < self.items.len() implies self.items@[k].id
                    > id by {
                    if lo < k {
                        assert(self.items@[lo as int].id < self.items@[k].id);
                    }
                }
            }
        }
        (lo, found)
    }

    /// Whether an entity with this id is present.
    pub fn contains(&self, id: u64) -> (b: bool)
        requires
            self.wf(),
        ensures
            b == self@.contains_key(id),
    {
        let (i, found) = self.position(id);
        proof {
            lemma_as_map(self.listing());
            if !found && has_id(self.listing(), id) {
                let k = index_of(self.listing(), id);
                assert(self.listing()[k].id == id);
            }
        }
        found
    }

    /// The snapshot held under `id`, if any.
    pub fn get(&self, id: u64) -> (r: Option<EntitySnapshot>)
        requires
            self.wf(),
        ensures
            r == (if self@.contains_key(id) {
                Some(self@[id])
            } else {
                None
            }),
    {
        let (i, found) = self.position(id);
        proof {
            lemma_as_map(self.listing());
            if !found && has_id(self.listing(), id) {
                let k = index_of(self.listing(), id);
                assert(self.listing()[k].id == id);
            }
        }
        if found {
            Some(self.items[i])
        } else {
            None
        }
    }

    /// The entities of a hash map that holds each under its own id, in id
    /// order.
    pub fn in_id_order(m: &HashMap<u64, EntitySnapshot>) -> (out: EntityMap)
        requires
            keyed_by_id(m@),
        ensures
            out.wf(),
            out@ == m@,
            out.listing() == listing_of(m@),
    {
        broadcast use group_hash_axioms;

        let mut out = EntityMap::new();
        for pair in it: m.iter()
            invariant
                out.wf(),
                keyed_by_id(m@),
                it.seq() == spec_hash_map_iter(m).remaining(),
                forall|i: int|
                    0 <= i < it.index() ==> out@.contains_key(*(#[trigger] it.seq()[i]).0),
                forall|j: u64| #[trigger] out@.contains_key(j) ==> m@.contains_key(j) && m@[j] == out@[j],
        {
            let (_, snapshot) = pair;
            proof {
                let s = it.seq();
                let i = it.index();
                assert(m@.contains_key(*s[i].0) && m@[*s[i].0] == *s[i].1);
                assert(pair == s[i]);
            }
            let ghost before = out@;
            out.insert(*snapshot);
            assert forall|j: u64| out@.contains_key(j) implies m@.contains_key(j) && m@[j]
                == out@[j] by {
                if j != snapshot.id {
                    assert(before.contains_key(j));
                }
            }
        }
        proof {
            let s = spec_hash_map_iter(m).remaining();
            assert forall|j: u64| m@.contains_key(j) implies out@.contains_key(j) by {
                assert(s.contains((&j, &m@[j])));
                let i = choose|i: int| 0 <= i < s.len() && s[i] == (&j, &m@[j]);
                assert(*s[i].0 == j);
            }
            assert(out@ =~= m@);
            out.lemma_wf();
            lemma_listing_of(out.listing());
        }
        out
    }

    /// The entities as a hash map, each under its own id.
    pub fn to_hash_map(&self) -> (m: HashMap<u64, EntitySnapshot>)
        requires
            self.wf(),
        ensures
            m@ == self@,
            keyed_by_id(m@),
    {
        broadcast use group_hash_axioms;

        let mut m: HashMap<u64, EntitySnapshot> = HashMap::new();
        let mut i: usize = 0;
        proof {
            lemma_map_empty(self.items@.take(0));
        }
        while i < self.items.len()
            invariant
                i <= self.items@.len(),
                ids_increasing(self.items@),
                m@ == as_map(self.items@.take(i as int)),
                keyed_by_id(m@),
            decreases self.items.len() - i,
        {
            let e = self.items[i];
            proof {
                let head = self.items@.take(i as int);
                assert(self.items@.take(i + 1) =~= head.push(e));
                lemma_map_push(head, e);
            }
            m.insert(e.id, e);
            i += 1;
        }
        proof {
            assert(self.items@.take(i as int) =~= self.items@);
        }
        m
    }

    /// Puts `snapshot` under its own id, replacing what was held there.
    pub fn insert(&mut self, snapshot: EntitySnapshot)
        requires
            old(self).wf(),
        ensures
            final(self).wf(),
            final(self)@ == old(self)@.insert(snapshot.id, snapshot),
    {
        let (i, found) = self.position(snapshot.id);
        proof {
            if found {
                lemma_map_update(self.items@, i as int, snapshot);
            } else {
                lemma_map_insert(self.items@, i as int, snapshot);
            }
        }
        if found {
            self.items[i] = snapshot;
        } else {
            self.items.insert(i, snapshot);
        }
    }

    /// Takes out the entity with this id, if present.
    pub fn remove(&mut self, id: u64)
        requires
            old(self).wf(),
        ensures
            final(self).wf(),
            final(self)@ == old(self)@.remove(id),
    {
        let (i, found) = self.position(id);
        proof {
            lemma_as_map(self.items@);
            if found {
                lemma_map_remove(self.items@, i as int);
            } else {
                if has_id(self.listing(), id) {
                    let k = index_of(self.listing(), id);
                    assert(self.listing()[k].id == id);
                }
                assert(self@ =~= self@.remove(id));
            }
        }
        if found {
            self.items.remove(i);
        }
    }

    /// Writes `snapshot` over the snapshot at place `i`, which carries the
    /// same id.
    pub fn replace_nth(&mut self, i: usize, snapshot: EntitySnapshot)
        requires
            old(self).wf(),
            i < old(self).listing().len(),
            old(self).listing()[i as int].id == snapshot.id,
        ensures
            final(self).wf(),
            final(self).listing() == old(self).listing().update(i as int, snapshot),
            final(self)@ == old(self)@.insert(snapshot.id, snapshot),
    {
        proof {
            lemma_map_update(self.items@, i as int, snapshot);
        }
        self.items[i] = snapshot;
    }

    /// The snapshots in increasing id order, borrowed.
    pub fn as_slice(&self) -> (v: &[EntitySnapshot])
        ensures
            v@ == self.listing(),
    {
        self.items.as_slice()
    }

    /// The snapshots in increasing id order, as a vector.
    pub fn to_vec(&self) -> (v: Vec<EntitySnapshot>)
        ensures
            v@ == self.listing(),
    {
        let mut v: Vec<EntitySnapshot> = Vec::new();
        let mut i: usize = 0;
        while i < self.items.len()
            invariant
                i <= self.items.len(),
                v@ == self.items@.take(i as int),
            decreases self.items.len() - i,
        {
            v.push(self.items[i]);
            assert(self.items@.take(i + 1) =~= self.items@.take(i as int).push(
                self.items@[i as int],
            ));
            i += 1;
        }
        assert(self.items@.take(i as int) =~= self.items@);
        v
    }
}

/// Placing `id` at its ordered position `i` adds it to the set.
pub proof fn lemma_set_insert(s: Seq<u64>, i: int, id: u64)
    requires
        strictly_increasing(s),
        0 <= i <= s.len(),
        forall|k: int| 0 <= k < i ==> s[k] < id,
        forall|k: int| i <= k < s.len() ==> s[k] > id,
    ensures
        strictly_increasing(s.insert(i, id)),
        as_set(s.insert(i, id)) == as_set(s).insert(id),
{
    let t = s.insert(i, id);
    assert(strictly_increasing(t)) by {
        assert forall|a: int, b: int| 0 <= a < b < t.len() implies t[a] < t[b] by {
            let sa = if a < i { a } else { a - 1 };
            let sb = if b < i { b } else { b - 1 };
            if a != i && b != i {
                assert(t[a] == s[sa]);
                assert(t[b] == s[sb]);
                assert(s[sa] < s[sb]);
            } else if a == i {
                assert(t[b] == s[b - 1]);
            }
        }
    }
    assert forall|x: u64| as_set(t).contains(x) == as_set(s).insert(id).contains(x) by {
        if t.contains(x) {
            let k = choose|k: int| 0 <= k < t.len() && t[k] == x;
            if k < i {
                assert(s[k] == x);
            } else if k > i {
                assert(s[k - 1] == x);
            }
        }
        if s.contains(x) {
            let k = choose|k: int| 0 <= k < s.len() && s[k] == x;
            if k < i {
                assert(t[k] == x);
            } else {
                assert(t[k + 1] == x);
            }
        }
        if x == id {
            assert(t[i] == x);
        }
    }
    assert(as_set(t) =~= as_set(s).insert(id));
}

/// Appending `id`, which is above every value of `s`, adds it to the set.
pub proof fn lemma_set_push(s: Seq<u64>, id: u64)
    requires
        strictly_increasing(s),
        forall|k: int| 0 <= k < s.len() ==> s[k] < id,
    ensures
        strictly_increasing(s.push(id)),
        as_set(s.push(id)) == as_set(s).insert(id),
{
    assert(s.push(id) =~= s.insert(s.len() as int, id));
    lemma_set_insert(s, s.len() as int, id);
}

/// The empty listing stands for the empty set, and only it does.
pub proof fn lemma_set_empty(s: Seq<u64>)
    ensures
        s.len() == 0 ==> as_set(s) == Set::<u64>::empty(),
        as_set(s) == Set::<u64>::empty() ==> s.len() == 0,
{
    if s.len() == 0 {
        assert(as_set(s) =~= Set::<u64>::empty());
    } else {
        assert(s.contains(s[0]));
        assert(as_set(s).contains(s[0]));
    }
}

/// Two increasing sequences with the same set of values are the same sequence.
pub proof fn lemma_id_listing_unique(a: Seq<u64>, b: Seq<u64>)
    requires
        strictly_increasing(a),
        strictly_increasing(b),
        as_set(a) == as_set(b),
    ensures
        a == b,
    decreases a.len(),
{
    if a.len() == 0 {
        if b.len() > 0 {
            assert(b.contains(b[0]));
            assert(as_set(b).contains(b[0]));
            assert(as_set(a).contains(b[0]));
        }
        assert(a =~= b);
    } else {
        let la = a.last();
        assert(a.contains(a[a.len() - 1]));
        assert(as_set(a).contains(la));
        assert(as_set(b).contains(la));
        let kb = choose|k: int| 0 <= k < b.len() && b[k] == la;
        let lb = b[b.len() - 1];
        assert(b.contains(b[b.len() - 1]));
        assert(as_set(b).contains(lb));
        assert(as_set(a).contains(lb));
        let ka = choose|k: int| 0 <= k < a.len() && a[k] == lb;
        if kb < b.len() - 1 {
            assert(b[kb] < b[b.len() - 1]);
        }
        if ka < a.len() - 1 {
            assert(a[ka] < a[a.len() - 1]);
        }
        assert(lb == la);
        let a0 = a.drop_last();
        let b0 = b.drop_last();
        assert forall|x: u64| as_set(a0).contains(x) == as_set(b0).contains(x) by {
            if a0.contains(x) {
                let k = choose|k: int| 0 <= k < a0.len() && a0[k] == x;
                assert(a[k] == x);
                assert(a[k] < a[a.len() - 1]);
                assert(a.contains(x));
                assert(as_set(a).contains(x));
                assert(as_set(b).contains(x));
                let j = choose|j: int| 0 <= j < b.len() && b[j] == x;
                assert(b0[j] == x);
            }
            if b0.contains(x) {
                let k = choose|k: int| 0 <= k < b0.len() && b0[k] == x;
                assert(b[k] == x);
                assert(b[k] < b[b.len() - 1]);
                assert(b.contains(x));
                assert(as_set(b).contains(x));
                assert(as_set(a).contains(x));
                let j = choose|j: int| 0 <= j < a.len() && a[j] == x;
                assert(a0[j] == x);
            }
        }
        assert(as_set(a0) =~= as_set(b0));
        lemma_id_listing_unique(a0, b0);
        assert(a =~= a0.push(la));
        assert(b =~= b0.push(la));
    }
}

/// Ids in strictly increasing order.
pub struct IdSet {
    ids: Vec<u64>,
}

impl View for IdSet {
    type V = Set<u64>;

    open spec fn view(&self) -> Set<u64> {
        as_set(self.listing())
    }
}

impl IdSet {
    /// The ids in increasing order.
    pub closed spec fn listing(&self) -> Seq<u64> {
        self.ids@
    }

    /// The listing is in strictly increasing order.
    pub closed spec fn wf(&self) -> bool {
        strictly_increasing(self.ids@)
    }

    /// What `wf` means for the listing.
    pub proof fn lemma_wf(&self)
        requires
            self.wf(),
        ensures
            strictly_increasing(self.listing()),
    {
    }

    /// An empty set.
    pub fn new() -> (s: IdSet)
        ensures
            s.wf(),
            s.listing() == Seq::<u64>::empty(),
            s@ == Set::<u64>::empty(),
    {
        let s = IdSet { ids: Vec::new() };
        assert(s@ =~= Set::<u64>::empty());
        s
    }

    /// Where `id` stands in the listing, or where it would have to be put.
    fn position(&self, id: u64) -> (r: (usize, bool))
        requires
            self.wf(),
        ensures
            r.0 <= self.listing().len(),
            forall|k: int| 0 <= k < r.0 ==> self.listing()[k] < id,
            r.1 ==> r.0 < self.listing().len() && self.listing()[r.0 as int] == id,
            !r.1 ==> forall|k: int| r.0 <= k < self.listing().len() ==> self.listing()[k] > id,
    {
        let mut lo: usize = 0;
        let mut hi: usize = self.ids.len();
        while lo < hi
            invariant
                strictly_increasing(self.ids@),
                lo <= hi <= self.ids.len(),
                forall|k: int| 0 <= k < lo ==> self.ids@[k] < id,
                forall|k: int| hi <= k < self.ids.len() ==> self.ids@[k] >= id,
            decreases hi - lo,
        {
            let mid: usize = lo + (hi - lo) / 2;
            if self.ids[mid] < id {
                assert forall|k: int| 0 <= k < mid + 1 implies self.ids@[k] < id by {
                    if k < mid {
                        assert(self.ids@[k] < self.ids@[mid as int]);
                    }
                }
                lo = mid + 1;
            } else {
                assert forall|k: int| mid <= k < self.ids.len() implies self.ids@[k] >= id by {
                    if mid < k {
                        assert(self.ids@[mid as int] < self.ids@[k]);
                    }
                }
                hi = mid;
            }
        }
        let found = lo < self.ids.len() && self.ids[lo] == id;
        proof {
            if !found {
                assert forall|k: int| lo <= k < self.ids.len() implies self.ids@[k] > id by {
                    if lo < k {
                        assert(self.ids@[lo as int] < self.ids@[k]);
                    }
                }
            }
        }
        (lo, found)
    }

    /// The ids of a hash set, in increasing order.
    pub fn in_order(ids: &HashSet<u64>) -> (out: IdSet)
        ensures
            out.wf(),
            out@ == ids@,
    {
        broadcast use group_hash_axioms;

        let mut out = IdSet::new();
        for id in it: ids.iter()
            invariant
                out.wf(),
                it.seq() == spec_hash_keys_iter(ids).remaining(),
                forall|i: int| 0 <= i < it.index() ==> out@.contains(*(#[trigger] it.seq()[i])),
                forall|j: u64| #[trigger] out@.contains(j) ==> ids@.contains(j),
        {
            proof {
                let s = it.seq();
                let i = it.index();
                assert(id == s[i]);
                assert(s.unref()[i] == *id);
                assert(s.unref().to_set().contains(*id));
            }
            let ghost before = out@;
            out.insert(*id);
            assert forall|j: u64| out@.contains(j) implies ids@.contains(j) by {
                if j != *id {
                    assert(before.contains(j));
                }
            }
        }
        proof {
            let s = spec_hash_keys_iter(ids).remaining();
            assert forall|j: u64| ids@.contains(j) implies out@.contains(j) by {
                assert(s.unref().to_set().contains(j));
                assert(s.unref().contains(j));
                let i = choose|i: int| 0 <= i < s.unref().len() && s.unref()[i] == j;
                assert(*s[i] == j);
            }
            assert(out@ =~= ids@);
        }
        out
    }

    /// Adds `id` to the set.
    pub fn insert(&mut self, id: u64)
        requires
            old(self).wf(),
        ensures
            final(self).wf(),
            final(self)@ == old(self)@.insert(id),
    {
        let (i, found) = self.position(id);
        proof {
            if found {
                assert(self.listing()[i as int] == id);
                assert(self@ =~= self@.insert(id));
            } else {
                lemma_set_insert(self.ids@, i as int, id);
            }
        }
        if !found {
            self.ids.insert(i, id);
        }
    }

    /// The ids in increasing order, as a vector.
    pub fn to_vec(&self) -> (v: Vec<u64>)
        ensures
            v@ == self.listing(),
    {
        let mut v: Vec<u64> = Vec::new();
        let mut i: usize = 0;
        while i < self.ids.len()
            invariant
                i <= self.ids.len(),
                v@ == self.ids@.take(i as int),
            decreases self.ids.len() - i,
        {
            v.push(self.ids[i]);
            assert(self.ids@.take(i + 1) =~= self.ids@.take(i as int).push(self.ids@[i as int]));
            i += 1;
        }
        assert(self.ids@.take(i as int) =~= self.ids@);
        v
    }
}

} // verus!
