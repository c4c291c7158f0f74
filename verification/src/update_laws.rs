//! Laws of the store's updates: what an update leaves behind is decided by
//! the tick and the state it is given, and by nothing else.

use vstd::prelude::*;
use crate::checksum::{differ_in_one_word, lemma_checksum_detects_change};
use crate::entity_map::{ids_increasing, lemma_id_listing_unique, lemma_listing_unique};
use crate::snapshot::EntitySnapshot;
use crate::store::{DiffEntry, WorldStateStore, HISTORY_LIMIT};

verus! {

/// Two entries say the same: the same tick, the same two checksums and the
/// same three lists.
pub open spec fn same_entry(a: DiffEntry, b: DiffEntry) -> bool {
    &&& a.tick == b.tick
    &&& a.base == b.base
    &&& a.checksum == b.checksum
    &&& a.added@ == b.added@
    &&& a.changed@ == b.changed@
    &&& a.removed@ == b.removed@
}

/// Two stores hold the same: tick, checksum, entities, retired checksums and,
/// entry for entry, the same history.
pub open spec fn agree(a: WorldStateStore, b: WorldStateStore) -> bool {
    &&& a.tick() == b.tick()
    &&& a.checksum() == b.checksum()
    &&& a.listing() == b.listing()
    &&& a.retired() == b.retired()
    &&& a.past() == b.past()
    &&& a.seen() == b.seen()
    &&& a.history().len() == b.history().len()
    &&& forall|i: int|
        0 <= i < a.history().len() ==> same_entry(#[trigger] a.history()[i], b.history()[i])
}

/// The stores that a fresh store goes through when it is updated with
/// `states`, one after the other: `stores[0]` is fresh, and each later one
/// follows from the one before it.
pub open spec fn is_run(stores: Seq<WorldStateStore>, states: Seq<Seq<EntitySnapshot>>) -> bool {
    &&& stores.len() == states.len() + 1
    &&& stores[0].fresh()
    &&& forall|i: int|
        0 <= i < states.len() ==> (#[trigger] stores[i + 1]).follows(stores[i], states[i])
}

/// Two updates with the same state at the same tick give the same tick, the
/// same listing and the same checksum, whatever the two stores held before.
pub proof fn lemma_update_is_determined(
    a: WorldStateStore,
    after_a: WorldStateStore,
    b: WorldStateStore,
    after_b: WorldStateStore,
    entities: Seq<EntitySnapshot>,
)
    requires
        a.tick() == b.tick(),
        after_a.follows(a, entities),
        after_b.follows(b, entities),
    ensures
        after_a.tick() == after_b.tick(),
        after_a.listing() == after_b.listing(),
        after_a.checksum() == after_b.checksum(),
{
}

/// Two updates at the same tick, with states that differ in one word of one
/// entity, give different checksums.
pub proof fn lemma_update_detects_change(
    a: WorldStateStore,
    after_a: WorldStateStore,
    b: WorldStateStore,
    after_b: WorldStateStore,
    entities: Seq<EntitySnapshot>,
    i: int,
    e: EntitySnapshot,
)
    requires
        a.tick() == b.tick(),
        ids_increasing(entities),
        0 <= i < entities.len(),
        differ_in_one_word(entities[i], e),
        after_a.follows(a, entities),
        after_b.follows(b, entities.update(i, e)),
    ensures
        after_a.checksum() != after_b.checksum(),
{
    lemma_checksum_detects_change(after_a.tick(), entities, i, e);
}

/// Two stores that agree still agree after an update of each with the same
/// state.
pub proof fn lemma_update_keeps_agreement(
    a: WorldStateStore,
    after_a: WorldStateStore,
    b: WorldStateStore,
    after_b: WorldStateStore,
    entities: Seq<EntitySnapshot>,
)
    requires
        agree(a, b),
        after_a.follows(a, entities),
        after_b.follows(b, entities),
    ensures
        agree(after_a, after_b),
{
    let la = after_a.history().last();
    let lb = after_b.history().last();
    lemma_listing_unique(la.added@, lb.added@);
    lemma_listing_unique(la.changed@, lb.changed@);
    lemma_id_listing_unique(la.removed@, lb.removed@);
    assert(same_entry(la, lb));
    let pa = a.history().push(la);
    let pb = b.history().push(lb);
    assert forall|i: int| 0 <= i < pa.len() implies same_entry(#[trigger] pa[i], pb[i]) by {
        if i < a.history().len() {
            assert(same_entry(a.history()[i], b.history()[i]));
        }
    }
    assert forall|i: int| 0 <= i < after_a.history().len() implies same_entry(
        #[trigger] after_a.history()[i],
        after_b.history()[i],
    ) by {
        if pa.len() > HISTORY_LIMIT {
            let off = pa.len() - HISTORY_LIMIT;
            assert(same_entry(pa[i + off], pb[i + off]));
        } else {
            assert(same_entry(pa[i], pb[i]));
        }
    }
    if a.history().len() == HISTORY_LIMIT {
        assert(same_entry(a.history()[0], b.history()[0]));
    }
}

/// Two fresh stores that are given the same states, one after the other, end
/// up holding the same: the same tick, checksum and entities, and entry for
/// entry the same history.
pub proof fn lemma_same_updates_same_store(
    first: Seq<WorldStateStore>,
    second: Seq<WorldStateStore>,
    states: Seq<Seq<EntitySnapshot>>,
)
    requires
        is_run(first, states),
        is_run(second, states),
    ensures
        agree(first.last(), second.last()),
    decreases states.len(),
{
    if states.len() > 0 {
        let n = states.len() - 1;
        let shorter = states.drop_last();
        let f = first.drop_last();
        let s = second.drop_last();
        assert(is_run(f, shorter)) by {
            assert forall|i: int| 0 <= i < shorter.len() implies (#[trigger] f[i + 1]).follows(
                f[i],
                shorter[i],
            ) by {
                assert(first[i + 1].follows(first[i], states[i]));
            }
        }
        assert(is_run(s, shorter)) by {
            assert forall|i: int| 0 <= i < shorter.len() implies (#[trigger] s[i + 1]).follows(
                s[i],
                shorter[i],
            ) by {
                assert(second[i + 1].follows(second[i], states[i]));
            }
        }
        lemma_same_updates_same_store(f, s, shorter);
        assert(f.last() == first[n]);
        assert(s.last() == second[n]);
        assert(first[n + 1].follows(first[n], states[n]));
        assert(second[n + 1].follows(second[n], states[n]));
        lemma_update_keeps_agreement(first[n], first[n + 1], second[n], second[n + 1], states[n]);
    }
}

} // verus!
