//! What a walk along the diff chain adds up to.
//!
//! A run of states `s0, s1, .., sk` gives a run of entries, one per step, each
//! listing the difference between a state and the next. Folding the entries
//! gives one set of changes. Applied to `s0` it always gives `sk`. It is the
//! very difference between `s0` and `sk` whenever no entity that is there at
//! both ends went and came back in between, or was changed and changed back.

use vstd::prelude::*;
use crate::entity_map::{
    as_map, as_set, ids_increasing, index_of, lemma_as_map, lemma_map_empty, lemma_map_push,
    lemma_set_empty, lemma_set_push, strictly_increasing,
};
use crate::checksum::Checksum;
use crate::snapshot::EntitySnapshot;
use crate::store::{
    absorb_added, absorb_added_list, absorb_changed, absorb_changed_list, absorb_entries,
    absorb_entry, absorb_removed, absorb_removed_list, chain_holds, changes_between, diff_added,
    diff_changed, diff_outcome, diff_removed, empty_tally, first_with_base, has_base,
    is_first_with_base, Changes, DiffEntry, DiffError, DiffModel, Tally, WorldStateStore,
};

verus! {

/// The state that `c` turns `base` into: removed ids go, changed and added
/// entities are written over what was there.
pub open spec fn apply_changes(base: Map<u64, EntitySnapshot>, c: Changes) -> Map<
    u64,
    EntitySnapshot,
> {
    Map::new(
        |id: u64|
            c.added.contains_key(id) || c.changed.contains_key(id) || (base.contains_key(id)
                && !c.removed.contains(id)),
        |id: u64|
            if c.added.contains_key(id) {
                c.added[id]
            } else if c.changed.contains_key(id) {
                c.changed[id]
            } else {
                base[id]
            },
    )
}

/// `t` after a whole list of added entities, given as a map.
pub open spec fn added_after(t: Tally, m: Map<u64, EntitySnapshot>) -> Tally {
    Tally {
        changes: Changes {
            added: Map::new(
                |id: u64| m.contains_key(id) || t.changes.added.contains_key(id),
                |id: u64|
                    if m.contains_key(id) {
                        m[id]
                    } else {
                        t.changes.added[id]
                    },
            ),
            changed: Map::new(
                |id: u64| t.changes.changed.contains_key(id) && !m.contains_key(id),
                |id: u64| t.changes.changed[id],
            ),
            removed: Set::new(|id: u64| t.changes.removed.contains(id) && !m.contains_key(id)),
        },
        returned: Set::new(
            |id: u64|
                t.returned.contains(id) || (m.contains_key(id) && (t.changes.removed.contains(id)
                    || t.changes.changed.contains_key(id))),
        ),
    }
}

/// `t` after a whole list of changed entities, given as a map.
pub open spec fn changed_after(t: Tally, m: Map<u64, EntitySnapshot>) -> Tally {
    Tally {
        changes: Changes {
            added: Map::new(
                |id: u64| t.changes.added.contains_key(id),
                |id: u64|
                    if m.contains_key(id) {
                        m[id]
                    } else {
                        t.changes.added[id]
                    },
            ),
            changed: Map::new(
                |id: u64|
                    t.changes.changed.contains_key(id) || (m.contains_key(id)
                        && !t.changes.added.contains_key(id) && !t.changes.removed.contains(id)),
                |id: u64|
                    if m.contains_key(id) && !t.changes.added.contains_key(id)
                        && !t.changes.removed.contains(id) {
                        m[id]
                    } else {
                        t.changes.changed[id]
                    },
            ),
            removed: t.changes.removed,
        },
        returned: t.returned,
    }
}

/// `t` after a whole list of removed ids, given as a set.
pub open spec fn removed_after(t: Tally, r: Set<u64>) -> Tally {
    Tally {
        changes: Changes {
            added: Map::new(
                |id: u64| t.changes.added.contains_key(id) && !r.contains(id),
                |id: u64| t.changes.added[id],
            ),
            changed: Map::new(
                |id: u64| t.changes.changed.contains_key(id) && !r.contains(id),
                |id: u64| t.changes.changed[id],
            ),
            removed: Set::new(
                |id: u64|
                    t.changes.removed.contains(id) || (r.contains(id) && !(
                    t.changes.added.contains_key(id) && !t.returned.contains(id))),
            ),
        },
        returned: Set::new(|id: u64| t.returned.contains(id) && !r.contains(id)),
    }
}

/// Two tallies with the same members are the same.
proof fn lemma_tally_equal(a: Tally, b: Tally)
    requires
        a.changes.added =~= b.changes.added,
        a.changes.changed =~= b.changes.changed,
        a.changes.removed =~= b.changes.removed,
        a.returned =~= b.returned,
    ensures
        a == b,
{
}

/// Folding an id-ordered list of added entities is `added_after` its map.
pub proof fn lemma_added_list(t: Tally, items: Seq<EntitySnapshot>)
    requires
        ids_increasing(items),
    ensures
        absorb_added_list(t, items) == added_after(t, as_map(items)),
    decreases items.len(),
{
    if items.len() == 0 {
        lemma_map_empty(items);
        lemma_tally_equal(t, added_after(t, as_map(items)));
    } else {
        let head = items.drop_last();
        let e = items.last();
        assert(ids_increasing(head));
        lemma_added_list(t, head);
        assert forall|k: int| 0 <= k < head.len() implies head[k].id < e.id by {
            assert(items[k].id < items[items.len() - 1].id);
        }
        lemma_map_push(head, e);
        lemma_as_map(head);
        assert(!as_map(head).contains_key(e.id)) by {
            if as_map(head).contains_key(e.id) {
                let k = index_of(head, e.id);
                assert(head[k].id < e.id);
            }
        }
        assert(head.push(e) =~= items);
        lemma_tally_equal(
            absorb_added(added_after(t, as_map(head)), e),
            added_after(t, as_map(items)),
        );
    }
}

/// Folding an id-ordered list of changed entities is `changed_after` its map.
pub proof fn lemma_changed_list(t: Tally, items: Seq<EntitySnapshot>)
    requires
        ids_increasing(items),
    ensures
        absorb_changed_list(t, items) == changed_after(t, as_map(items)),
    decreases items.len(),
{
    if items.len() == 0 {
        lemma_map_empty(items);
        lemma_tally_equal(t, changed_after(t, as_map(items)));
    } else {
        let head = items.drop_last();
        let e = items.last();
        assert(ids_increasing(head));
        lemma_changed_list(t, head);
        assert forall|k: int| 0 <= k < head.len() implies head[k].id < e.id by {
            assert(items[k].id < items[items.len() - 1].id);
        }
        lemma_map_push(head, e);
        lemma_as_map(head);
        assert(!as_map(head).contains_key(e.id)) by {
            if as_map(head).contains_key(e.id) {
                let k = index_of(head, e.id);
                assert(head[k].id < e.id);
            }
        }
        assert(head.push(e) =~= items);
        lemma_tally_equal(
            absorb_changed(changed_after(t, as_map(head)), e),
            changed_after(t, as_map(items)),
        );
    }
}

/// Folding an increasing list of removed ids is `removed_after` its set.
pub proof fn lemma_removed_list(t: Tally, ids: Seq<u64>)
    requires
        strictly_increasing(ids),
    ensures
        absorb_removed_list(t, ids) == removed_after(t, as_set(ids)),
    decreases ids.len(),
{
    if ids.len() == 0 {
        lemma_set_empty(ids);
        lemma_tally_equal(t, removed_after(t, as_set(ids)));
    } else {
        let head = ids.drop_last();
        let id = ids.last();
        assert(strictly_increasing(head));
        lemma_removed_list(t, head);
        assert forall|k: int| 0 <= k < head.len() implies head[k] < id by {
            assert(ids[k] < ids[ids.len() - 1]);
        }
        lemma_set_push(head, id);
        assert(!as_set(head).contains(id)) by {
            if head.contains(id) {
                let k = choose|k: int| 0 <= k < head.len() && head[k] == id;
                assert(head[k] < id);
            }
        }
        assert(head.push(id) =~= ids);
        lemma_tally_equal(
            absorb_removed(removed_after(t, as_set(head)), id),
            removed_after(t, as_set(ids)),
        );
    }
}

/// Folding an entry that lists the difference between two states.
pub proof fn lemma_entry_closed_form(
    t: Tally,
    entry: DiffEntry,
    before: Map<u64, EntitySnapshot>,
    after: Map<u64, EntitySnapshot>,
)
    requires
        entry.shows(changes_between(before, after)),
    ensures
        absorb_entry(t, entry) == removed_after(
            changed_after(added_after(t, diff_added(before, after)), diff_changed(before, after)),
            diff_removed(before, after),
        ),
{
    lemma_added_list(t, entry.added@);
    lemma_changed_list(absorb_added_list(t, entry.added@), entry.changed@);
    lemma_removed_list(
        absorb_changed_list(absorb_added_list(t, entry.added@), entry.changed@),
        entry.removed@,
    );
}

/// The entity `id` was absent from some state up to place `upto`.
pub open spec fn was_absent(states: Seq<Map<u64, EntitySnapshot>>, upto: int, id: u64) -> bool {
    exists|i: int| 0 <= i <= upto && !(#[trigger] states[i]).contains_key(id)
}

/// The entity `id` is present before and after step `i` with different content.
pub open spec fn altered_at(states: Seq<Map<u64, EntitySnapshot>>, i: int, id: u64) -> bool {
    states[i].contains_key(id) && states[i + 1].contains_key(id) && states[i][id] != states[i
        + 1][id]
}

/// The entity `id` was altered at some step before place `upto`.
pub open spec fn was_altered(states: Seq<Map<u64, EntitySnapshot>>, upto: int, id: u64) -> bool {
    exists|i: int| 0 <= i < upto && #[trigger] altered_at(states, i, id)
}

/// What the tally folded over the first `upto` steps says about one id.
///
/// - An added id is there now with that content. It is marked as returned
///   exactly when it was there at the start, and then it was away in between.
/// - A changed id was there at the start, is there now with that content, and
///   was altered on the way.
/// - A removed id was there at the start and is gone now.
/// - An id in no list is there now as it was at the start, or was not there
///   at the start and is not there now.
pub open spec fn tracks_id(
    states: Seq<Map<u64, EntitySnapshot>>,
    upto: int,
    t: Tally,
    id: u64,
) -> bool {
    let first = states[0];
    let now = states[upto];
    let c = t.changes;
    &&& c.added.contains_key(id) ==> {
        &&& now.contains_key(id)
        &&& c.added[id] == now[id]
        &&& !c.changed.contains_key(id)
        &&& !c.removed.contains(id)
        &&& t.returned.contains(id) == first.contains_key(id)
        &&& t.returned.contains(id) ==> was_absent(states, upto, id)
    }
    &&& t.returned.contains(id) ==> c.added.contains_key(id)
    &&& c.changed.contains_key(id) ==> {
        &&& now.contains_key(id)
        &&& c.changed[id] == now[id]
        &&& first.contains_key(id)
        &&& !c.removed.contains(id)
        &&& was_altered(states, upto, id)
    }
    &&& c.removed.contains(id) ==> {
        &&& !now.contains_key(id)
        &&& first.contains_key(id)
    }
    &&& !c.added.contains_key(id) && !c.changed.contains_key(id) && !c.removed.contains(id) ==> {
        &&& now.contains_key(id) <==> first.contains_key(id)
        &&& now.contains_key(id) ==> now[id] == first[id]
    }
}

/// What the tally folded over the first `upto` steps says about every id.
pub open spec fn tracks(states: Seq<Map<u64, EntitySnapshot>>, upto: int, t: Tally) -> bool {
    forall|id: u64| #[trigger] tracks_id(states, upto, t, id)
}

/// Each entry lists the difference between a state and the next.
pub open spec fn entries_follow(
    states: Seq<Map<u64, EntitySnapshot>>,
    entries: Seq<DiffEntry>,
) -> bool {
    &&& states.len() == entries.len() + 1
    &&& forall|i: int|
        0 <= i < entries.len() ==> (#[trigger] entries[i]).shows(
            changes_between(states[i], states[i + 1]),
        )
}

/// One more step keeps `tracks`, for one id.
proof fn lemma_tracks_step_id(
    states: Seq<Map<u64, EntitySnapshot>>,
    upto: int,
    t: Tally,
    id: u64,
)
    requires
        0 <= upto < states.len() - 1,
        tracks_id(states, upto, t, id),
    ensures
        tracks_id(
            states,
            upto + 1,
            removed_after(
                changed_after(
                    added_after(t, diff_added(states[upto], states[upto + 1])),
                    diff_changed(states[upto], states[upto + 1]),
                ),
                diff_removed(states[upto], states[upto + 1]),
            ),
            id,
        ),
{
    let before = states[upto];
    let after = states[upto + 1];
    if was_absent(states, upto, id) {
        let i = choose|i: int| 0 <= i <= upto && !(#[trigger] states[i]).contains_key(id);
        assert(0 <= i <= upto + 1 && !states[i].contains_key(id));
    }
    if was_altered(states, upto, id) {
        let i = choose|i: int| 0 <= i < upto && #[trigger] altered_at(states, i, id);
        assert(0 <= i < upto + 1 && altered_at(states, i, id));
    }
    if !before.contains_key(id) {
        assert(0 <= upto <= upto + 1 && !states[upto].contains_key(id));
    }
    if before.contains_key(id) && after.contains_key(id) && before[id] != after[id] {
        assert(0 <= upto < upto + 1 && altered_at(states, upto, id));
    }
}

/// One more step keeps `tracks`.
proof fn lemma_tracks_step(
    states: Seq<Map<u64, EntitySnapshot>>,
    upto: int,
    t: Tally,
    entry: DiffEntry,
)
    requires
        0 <= upto < states.len() - 1,
        tracks(states, upto, t),
        entry.shows(changes_between(states[upto], states[upto + 1])),
    ensures
        tracks(states, upto + 1, absorb_entry(t, entry)),
{
    let next = absorb_entry(t, entry);
    lemma_entry_closed_form(t, entry, states[upto], states[upto + 1]);
    assert forall|id: u64| #[trigger] tracks_id(states, upto + 1, next, id) by {
        assert(tracks_id(states, upto, t, id));
        lemma_tracks_step_id(states, upto, t, id);
    }
}

/// Folding the entries of a run of states keeps `tracks` to the end.
pub proof fn lemma_tracks(states: Seq<Map<u64, EntitySnapshot>>, entries: Seq<DiffEntry>)
    requires
        entries_follow(states, entries),
    ensures
        tracks(states, entries.len() as int, absorb_entries(empty_tally(), entries)),
    decreases entries.len(),
{
    if entries.len() == 0 {
        assert forall|id: u64| #[trigger] tracks_id(states, 0, empty_tally(), id) by {}
    } else {
        let head = entries.drop_last();
        let shorter = states.drop_last();
        assert(entries_follow(shorter, head)) by {
            assert forall|i: int| 0 <= i < head.len() implies (#[trigger] head[i]).shows(
                changes_between(shorter[i], shorter[i + 1]),
            ) by {
                assert(entries[i].shows(changes_between(states[i], states[i + 1])));
            }
        }
        lemma_tracks(shorter, head);
        let t = absorb_entries(empty_tally(), head);
        let upto = head.len() as int;
        assert forall|id: u64| #[trigger] tracks_id(states, upto, t, id) by {
            assert(tracks_id(shorter, upto, t, id));
            if was_absent(shorter, upto, id) {
                let i = choose|i: int| 0 <= i <= upto && !(#[trigger] shorter[i]).contains_key(id);
                assert(0 <= i <= upto && !states[i].contains_key(id));
            }
            if was_altered(shorter, upto, id) {
                let i = choose|i: int| 0 <= i < upto && #[trigger] altered_at(shorter, i, id);
                assert(0 <= i < upto && altered_at(states, i, id));
            }
        }
        assert(entries.last().shows(changes_between(states[upto], states[upto + 1]))) by {
            assert(entries[upto].shows(changes_between(states[upto], states[upto + 1])));
        }
        lemma_tracks_step(states, upto, t, entries.last());
    }
}

/// Applying what a walk along the chain adds up to, to the state the walk
/// started from, gives the state it ended at.
pub proof fn lemma_chain_patches(states: Seq<Map<u64, EntitySnapshot>>, entries: Seq<DiffEntry>)
    requires
        entries_follow(states, entries),
    ensures
        apply_changes(states[0], absorb_entries(empty_tally(), entries).changes)
            == states.last(),
{
    lemma_tracks(states, entries);
    let t = absorb_entries(empty_tally(), entries);
    let patched = apply_changes(states[0], t.changes);
    let last = states.last();
    assert forall|id: u64| patched.contains_key(id) == last.contains_key(id) by {
        assert(tracks_id(states, entries.len() as int, t, id));
    }
    assert forall|id: u64| patched.contains_key(id) implies patched[id] == last[id] by {
        assert(tracks_id(states, entries.len() as int, t, id));
    }
    assert(patched =~= last);
}

/// An entity that is there neither at the start of a walk nor at its end
/// stands in no list, whatever happened to it in between; one that is there
/// at the start and gone at the end stands in `removed`.
pub proof fn lemma_chain_forgets_visitors(
    states: Seq<Map<u64, EntitySnapshot>>,
    entries: Seq<DiffEntry>,
    id: u64,
)
    requires
        entries_follow(states, entries),
        !states.last().contains_key(id),
    ensures
        ({
            let c = absorb_entries(empty_tally(), entries).changes;
            &&& !c.added.contains_key(id)
            &&& !c.changed.contains_key(id)
            &&& c.removed.contains(id) == states[0].contains_key(id)
        }),
{
    lemma_tracks(states, entries);
    assert(tracks_id(states, entries.len() as int, absorb_entries(empty_tally(), entries), id));
}

/// Between the first state and the last, the entity `id`, if it is there at
/// both ends, was there all the time, and if it is the same at both ends, was
/// never altered.
pub open spec fn steady_id(states: Seq<Map<u64, EntitySnapshot>>, id: u64) -> bool {
    let first = states[0];
    let last = states.last();
    first.contains_key(id) && last.contains_key(id) ==> {
        &&& forall|i: int| 0 <= i < states.len() ==> (#[trigger] states[i]).contains_key(id)
        &&& first[id] == last[id] ==> forall|i: int|
            0 <= i < states.len() - 1 ==> !#[trigger] altered_at(states, i, id)
    }
}

/// `steady_id` of every id.
pub open spec fn steady(states: Seq<Map<u64, EntitySnapshot>>) -> bool {
    forall|id: u64| #[trigger] steady_id(states, id)
}

/// In a steady run, what `tracks` says about an id is what the difference
/// between the first state and the last says about it.
proof fn lemma_rediff_id(states: Seq<Map<u64, EntitySnapshot>>, t: Tally, id: u64)
    requires
        states.len() >= 1,
        tracks_id(states, states.len() - 1, t, id),
        steady_id(states, id),
    ensures
        ({
            let c = t.changes;
            let d = changes_between(states[0], states.last());
            &&& c.added.contains_key(id) == d.added.contains_key(id)
            &&& c.changed.contains_key(id) == d.changed.contains_key(id)
            &&& c.removed.contains(id) == d.removed.contains(id)
            &&& c.added.contains_key(id) ==> c.added[id] == d.added[id]
            &&& c.changed.contains_key(id) ==> c.changed[id] == d.changed[id]
        }),
{
    let k = states.len() - 1;
    if was_absent(states, k, id) {
        let i = choose|i: int| 0 <= i <= k && !(#[trigger] states[i]).contains_key(id);
        assert(!states[i].contains_key(id));
    }
    if was_altered(states, k, id) {
        let i = choose|i: int| 0 <= i < k && #[trigger] altered_at(states, i, id);
        assert(altered_at(states, i, id));
    }
}

/// What a walk along the chain adds up to is exactly the difference between
/// the state it started from and the state it ended at, whenever the run of
/// states is steady.
pub proof fn lemma_chain_is_rediff(states: Seq<Map<u64, EntitySnapshot>>, entries: Seq<DiffEntry>)
    requires
        entries_follow(states, entries),
        steady(states),
    ensures
        absorb_entries(empty_tally(), entries).changes == changes_between(
            states[0],
            states.last(),
        ),
{
    lemma_tracks(states, entries);
    let t = absorb_entries(empty_tally(), entries);
    let c = t.changes;
    let d = changes_between(states[0], states.last());
    let k = entries.len() as int;
    assert forall|id: u64| #[trigger] c.added.contains_key(id) == d.added.contains_key(id) by {
        assert(tracks_id(states, k, t, id));
        assert(steady_id(states, id));
        lemma_rediff_id(states, t, id);
    }
    assert forall|id: u64| #[trigger] c.added.contains_key(id) implies c.added[id]
        == d.added[id] by {
        assert(tracks_id(states, k, t, id));
        assert(steady_id(states, id));
        lemma_rediff_id(states, t, id);
    }
    assert forall|id: u64| #[trigger] c.changed.contains_key(id) == d.changed.contains_key(id) by {
        assert(tracks_id(states, k, t, id));
        assert(steady_id(states, id));
        lemma_rediff_id(states, t, id);
    }
    assert forall|id: u64| #[trigger] c.changed.contains_key(id) implies c.changed[id]
        == d.changed[id] by {
        assert(tracks_id(states, k, t, id));
        assert(steady_id(states, id));
        lemma_rediff_id(states, t, id);
    }
    assert forall|id: u64| #[trigger] c.removed.contains(id) == d.removed.contains(id) by {
        assert(tracks_id(states, k, t, id));
        assert(steady_id(states, id));
        lemma_rediff_id(states, t, id);
    }
    assert(c.added =~= d.added);
    assert(c.changed =~= d.changed);
    assert(c.removed =~= d.removed);
}

/// The past states from place `k` on, each as a map.
pub open spec fn states_from(past: Seq<Seq<EntitySnapshot>>, k: int) -> Seq<
    Map<u64, EntitySnapshot>,
> {
    Seq::new((past.len() - k) as nat, |i: int| as_map(past[k + i]))
}

/// The entries from place `k` on follow the past states from place `k` on,
/// which lead from the state that entry `k` starts from to the current one.
proof fn lemma_entries_follow_past(store: &WorldStateStore, k: int)
    requires
        store.wf(),
        0 <= k < store.history().len(),
    ensures
        entries_follow(
            states_from(store.past(), k),
            store.history().subrange(k, store.history().len() as int),
        ),
        states_from(store.past(), k)[0] == as_map(store.past()[k]),
        states_from(store.past(), k).last() == store.entities(),
{
    store.lemma_wf();
    reveal(WorldStateStore::consistent);
    let h = store.history();
    let past = store.past();
    let states = states_from(past, k);
    let entries = h.subrange(k, h.len() as int);
    assert forall|i: int| 0 <= i < entries.len() implies (#[trigger] entries[i]).shows(
        changes_between(states[i], states[i + 1]),
    ) by {
        let entry = h[k + i];
        assert(entries[i] == entry);
        assert(entry.shows(changes_between(as_map(past[k + i]), as_map(past[k + i + 1]))));
    }
}

/// In a history that is one unbroken chain to the current checksum, a
/// request for the checksum that entry `k` is the oldest to start from is
/// answered with what the entries from `k` on add up to.
proof fn lemma_outcome_from(
    history: Seq<DiffEntry>,
    retired: Set<Checksum>,
    tick: u64,
    current: Checksum,
    k: int,
)
    requires
        chain_holds(history, 0),
        0 <= k < history.len(),
        history.last().checksum == current,
        is_first_with_base(history, history[k].base, k),
        history[k].base != current,
    ensures
        diff_outcome(history, retired, tick, current, history[k].base) == Ok::<
            DiffModel,
            DiffError,
        >(
            DiffModel {
                tick,
                base: history[k].base,
                checksum: current,
                changes: absorb_entries(
                    empty_tally(),
                    history.subrange(k, history.len() as int),
                ).changes,
            },
        ),
{
    let since = history[k].base;
    let start = first_with_base(history, since);
    assert(is_first_with_base(history, since, start));
    assert(start == k) by {
        if start < k {
            assert(history[start].base != since);
        }
        if k < start {
            assert(history[k].base != since);
        }
    }
    assert(has_base(history, since));
    assert(chain_holds(history, k)) by {
        assert forall|i: int| k < i < history.len() implies history[i].base == history[i
            - 1].checksum by {
            assert(chain_holds(history, 0));
        }
    }
}

/// The walk that a request for the base of entry `k` takes: it starts at
/// entry `k`, runs to the end, and its entries follow the past states.
proof fn lemma_walk_from(store: &WorldStateStore, k: int)
    requires
        store.wf(),
        0 <= k < store.history().len(),
        is_first_with_base(store.history(), store.history()[k].base, k),
        store.history()[k].base != store.checksum(),
    ensures
        entries_follow(
            states_from(store.past(), k),
            store.history().subrange(k, store.history().len() as int),
        ),
        states_from(store.past(), k)[0] == as_map(store.past()[k]),
        states_from(store.past(), k).last() == store.entities(),
        diff_outcome(
            store.history(),
            store.retired(),
            store.tick(),
            store.checksum(),
            store.history()[k].base,
        ) == Ok::<DiffModel, DiffError>(
            DiffModel {
                tick: store.tick(),
                base: store.history()[k].base,
                checksum: store.checksum(),
                changes: absorb_entries(
                    empty_tally(),
                    store.history().subrange(k, store.history().len() as int),
                ).changes,
            },
        ),
{
    store.lemma_wf();
    lemma_entries_follow_past(store, k);
    lemma_outcome_from(store.history(), store.retired(), store.tick(), store.checksum(), k);
}

/// A diff since the state that entry `k` leads from, applied to that state,
/// gives the current state. An entity that was not in that state and is not
/// in the current one stands in none of its lists.
pub proof fn lemma_diff_since_patches(store: &WorldStateStore, k: int)
    requires
        store.wf(),
        0 <= k < store.history().len(),
        is_first_with_base(store.history(), store.history()[k].base, k),
        store.history()[k].base != store.checksum(),
    ensures
        ({
            let o = diff_outcome(
                store.history(),
                store.retired(),
                store.tick(),
                store.checksum(),
                store.history()[k].base,
            );
            &&& o is Ok
            &&& apply_changes(as_map(store.past()[k]), o->Ok_0.changes) == store.entities()
            &&& forall|id: u64|
                !store.entities().contains_key(id) ==> {
                    &&& !(#[trigger] o->Ok_0.changes.added.contains_key(id))
                    &&& !o->Ok_0.changes.changed.contains_key(id)
                    &&& o->Ok_0.changes.removed.contains(id) == as_map(
                        store.past()[k],
                    ).contains_key(id)
                }
        }),
{
    lemma_walk_from(store, k);
    let states = states_from(store.past(), k);
    let entries = store.history().subrange(k, store.history().len() as int);
    lemma_chain_patches(states, entries);
    let c = absorb_entries(empty_tally(), entries).changes;
    assert forall|id: u64| !store.entities().contains_key(id) implies {
        &&& !(#[trigger] c.added.contains_key(id))
        &&& !c.changed.contains_key(id)
        &&& c.removed.contains(id) == as_map(store.past()[k]).contains_key(id)
    } by {
        lemma_chain_forgets_visitors(states, entries, id);
    }
}

/// A diff since the state that entry `k` leads from is exactly the difference
/// between that state and the current one, whenever the states from there to
/// the present are steady.
pub proof fn lemma_diff_since_is_rediff(store: &WorldStateStore, k: int)
    requires
        store.wf(),
        0 <= k < store.history().len(),
        is_first_with_base(store.history(), store.history()[k].base, k),
        store.history()[k].base != store.checksum(),
        steady(states_from(store.past(), k)),
    ensures
        diff_outcome(
            store.history(),
            store.retired(),
            store.tick(),
            store.checksum(),
            store.history()[k].base,
        ) == Ok::<DiffModel, DiffError>(
            DiffModel {
                tick: store.tick(),
                base: store.history()[k].base,
                checksum: store.checksum(),
                changes: changes_between(as_map(store.past()[k]), store.entities()),
            },
        ),
{
    lemma_walk_from(store, k);
    lemma_chain_is_rediff(
        states_from(store.past(), k),
        store.history().subrange(k, store.history().len() as int),
    );
}

} // verus!
