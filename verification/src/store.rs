//! The world state store: the entities alive after the latest tick, and a
//! bounded history of per-tick diffs linked by checksums.
//!
//! Every history entry names the checksum of the state before its tick
//! (`base`) and after it (`checksum`). A client that knows some earlier
//! checksum asks for everything that happened since; the store walks the
//! chain from the entry whose `base` is that checksum and folds the entries
//! into one diff.

use std::collections::{HashMap, HashSet, VecDeque};
use vstd::prelude::*;
use vstd::std_specs::hash::*;
use crate::checksum::{
    digest_listing, lemma_id_order_is_digest_order, state_checksum, Checksum,
};
use crate::entity_map::{
    as_map, as_set, ids_increasing, index_of, keyed_by_id, lemma_as_map, lemma_map_empty,
    lemma_map_push, lemma_set_empty, lemma_set_push, listing_of, strictly_increasing, EntityMap,
    IdSet,
};
use crate::snapshot::EntitySnapshot;

verus! {

/// How many diff entries the store keeps; the oldest goes first.
pub const HISTORY_LIMIT: usize = 1024;

/// What one tick did to the world.
#[derive(Clone, Debug, PartialEq, Eq)]
pub struct DiffEntry {
    pub tick: u64,
    /// The checksum of the state before this tick.
    pub base: Checksum,
    /// The checksum of the state after this tick.
    pub checksum: Checksum,
    pub added: Vec<EntitySnapshot>,
    pub removed: Vec<u64>,
    pub changed: Vec<EntitySnapshot>,
}

/// Everything that happened between the state with checksum `base` and the
/// state with checksum `checksum`.
#[derive(Clone, Debug, PartialEq, Eq)]
pub struct Diff {
    pub tick: u64,
    pub base: Checksum,
    pub checksum: Checksum,
    pub added: Vec<EntitySnapshot>,
    pub removed: Vec<u64>,
    pub changed: Vec<EntitySnapshot>,
}

/// The whole current state.
#[derive(Clone, Debug, PartialEq, Eq)]
pub struct Snapshot {
    pub tick: u64,
    pub checksum: Checksum,
    pub entities: Vec<EntitySnapshot>,
}

/// Why a diff request was turned down.
#[derive(Clone, Copy, Debug, PartialEq, Eq, Structural)]
pub enum DiffError {
    /// The request named no checksum.
    MissingSince,
    /// The checksum given is not a number.
    ParseError,
    /// The checksum is no state the history knows of.
    UnknownChecksum,
    /// The chain from the checksum to the present is not whole.
    ChecksumTooOld,
}

impl DiffError {
    /// The sentence that tells a client what went wrong.
    pub fn message(&self) -> (text: &'static str)
        ensures
            text@ == (match *self {
                DiffError::MissingSince => "missing since query parameter"@,
                DiffError::ParseError => "invalid checksum format"@,
                DiffError::UnknownChecksum => "unknown checksum"@,
                DiffError::ChecksumTooOld => "requested checksum is too old"@,
            }),
    {
        match self {
            DiffError::MissingSince => "missing since query parameter",
            DiffError::ParseError => "invalid checksum format",
            DiffError::UnknownChecksum => "unknown checksum",
            DiffError::ChecksumTooOld => "requested checksum is too old",
        }
    }
}

/// Added and changed entities and removed ids, as mathematical collections.
pub struct Changes {
    pub added: Map<u64, EntitySnapshot>,
    pub changed: Map<u64, EntitySnapshot>,
    pub removed: Set<u64>,
}

/// No change at all.
pub open spec fn no_changes() -> Changes {
    Changes { added: Map::empty(), changed: Map::empty(), removed: Set::empty() }
}

/// The entities of `new` whose id `old` does not hold.
pub open spec fn diff_added(
    old: Map<u64, EntitySnapshot>,
    new: Map<u64, EntitySnapshot>,
) -> Map<u64, EntitySnapshot> {
    Map::new(|id: u64| new.contains_key(id) && !old.contains_key(id), |id: u64| new[id])
}

/// The entities of `new` that `old` holds with another content.
pub open spec fn diff_changed(
    old: Map<u64, EntitySnapshot>,
    new: Map<u64, EntitySnapshot>,
) -> Map<u64, EntitySnapshot> {
    Map::new(
        |id: u64| new.contains_key(id) && old.contains_key(id) && old[id] != new[id],
        |id: u64| new[id],
    )
}

/// The ids that `old` holds and `new` does not.
pub open spec fn diff_removed(
    old: Map<u64, EntitySnapshot>,
    new: Map<u64, EntitySnapshot>,
) -> Set<u64> {
    Set::new(|id: u64| old.contains_key(id) && !new.contains_key(id))
}

/// The difference between two full states.
pub open spec fn changes_between(
    old: Map<u64, EntitySnapshot>,
    new: Map<u64, EntitySnapshot>,
) -> Changes {
    Changes {
        added: diff_added(old, new),
        changed: diff_changed(old, new),
        removed: diff_removed(old, new),
    }
}

/// Three id-ordered lists say exactly what `c` says.
pub open spec fn lists_show(
    added: Seq<EntitySnapshot>,
    changed: Seq<EntitySnapshot>,
    removed: Seq<u64>,
    c: Changes,
) -> bool {
    &&& ids_increasing(added)
    &&& as_map(added) == c.added
    &&& ids_increasing(changed)
    &&& as_map(changed) == c.changed
    &&& strictly_increasing(removed)
    &&& as_set(removed) == c.removed
}

impl DiffEntry {
    /// The entry's three lists say exactly what `c` says.
    pub open spec fn shows(&self, c: Changes) -> bool {
        lists_show(self.added@, self.changed@, self.removed@, c)
    }
}

impl Diff {
    /// The diff's three lists say exactly what `c` says.
    pub open spec fn shows(&self, c: Changes) -> bool {
        lists_show(self.added@, self.changed@, self.removed@, c)
    }
}

/// The entities of `new` that `old` does not hold, and those that `old` holds
/// with another content, each in id order.
fn list_arrivals(old: &EntityMap, new: &EntityMap) -> (out: (Vec<EntitySnapshot>, Vec<EntitySnapshot>))
    requires
        old.wf(),
        new.wf(),
    ensures
        ids_increasing(out.0@),
        as_map(out.0@) == diff_added(old@, new@),
        ids_increasing(out.1@),
        as_map(out.1@) == diff_changed(old@, new@),
{
    let mut added: Vec<EntitySnapshot> = Vec::new();
    let mut changed: Vec<EntitySnapshot> = Vec::new();
    let n = new.len();
    let mut j: usize = 0;
    proof {
        new.lemma_wf();
        lemma_map_empty(added@);
        lemma_map_empty(new.listing().take(0));
        assert(as_map(added@) =~= diff_added(old@, as_map(new.listing().take(0))));
        assert(as_map(changed@) =~= diff_changed(old@, as_map(new.listing().take(0))));
    }
    while j < n
        invariant
            old.wf(),
            new.wf(),
            n == new.listing().len(),
            j <= n,
            ids_increasing(new.listing()),
            ids_increasing(new.listing().take(j as int)),
            ids_increasing(added@),
            ids_increasing(changed@),
            forall|k: int, m: int|
                0 <= k < added@.len() && j <= m < n ==> added@[k].id < new.listing()[m].id,
            forall|k: int, m: int|
                0 <= k < changed@.len() && j <= m < n ==> changed@[k].id < new.listing()[m].id,
            as_map(added@) == diff_added(old@, as_map(new.listing().take(j as int))),
            as_map(changed@) == diff_changed(old@, as_map(new.listing().take(j as int))),
        decreases n - j,
    {
        let e = new.nth(j);
        let ghost before = new.listing().take(j as int);
        let ghost added_before = added@;
        let ghost changed_before = changed@;
        proof {
            assert(new.listing().take(j + 1) =~= before.push(e));
            assert forall|k: int| 0 <= k < before.len() implies before[k].id < e.id by {
                assert(new.listing()[k].id < new.listing()[j as int].id);
            }
            lemma_map_push(before, e);
            lemma_as_map(before);
            assert(!as_map(before).contains_key(e.id)) by {
                if as_map(before).contains_key(e.id) {
                    let k = index_of(before, e.id);
                    assert(before[k].id < e.id);
                }
            }
        }
        match old.get(e.id) {
            None => {
                proof {
                    lemma_map_push(added_before, e);
                }
                added.push(e);
            },
            Some(existing) => {
                if existing != e {
                    proof {
                        lemma_map_push(changed_before, e);
                    }
                    changed.push(e);
                }
            },
        }
        proof {
            assert(as_map(added@) =~= diff_added(old@, as_map(before.push(e))));
            assert(as_map(changed@) =~= diff_changed(old@, as_map(before.push(e))));
        }
        j += 1;
    }
    proof {
        assert(new.listing().take(j as int) =~= new.listing());
    }
    (added, changed)
}

/// The ids that `old` holds and `new` does not, in increasing order.
fn list_removed(old: &EntityMap, new: &EntityMap) -> (out: Vec<u64>)
    requires
        old.wf(),
        new.wf(),
    ensures
        strictly_increasing(out@),
        as_set(out@) == diff_removed(old@, new@),
{
    let mut out: Vec<u64> = Vec::new();
    let n = old.len();
    let mut j: usize = 0;
    proof {
        old.lemma_wf();
        lemma_set_empty(out@);
        lemma_map_empty(old.listing().take(0));
        assert(as_set(out@) =~= diff_removed(as_map(old.listing().take(0)), new@));
    }
    while j < n
        invariant
            old.wf(),
            new.wf(),
            n == old.listing().len(),
            j <= n,
            ids_increasing(old.listing()),
            ids_increasing(old.listing().take(j as int)),
            strictly_increasing(out@),
            forall|k: int, m: int|
                0 <= k < out@.len() && j <= m < n ==> out@[k] < old.listing()[m].id,
            as_set(out@) == diff_removed(as_map(old.listing().take(j as int)), new@),
        decreases n - j,
    {
        let e = old.nth(j);
        let ghost before = old.listing().take(j as int);
        let ghost prior = out@;
        proof {
            assert(old.listing().take(j + 1) =~= before.push(e));
            assert forall|k: int| 0 <= k < before.len() implies before[k].id < e.id by {
                assert(old.listing()[k].id < old.listing()[j as int].id);
            }
            lemma_map_push(before, e);
        }
        if !new.contains(e.id) {
            proof {
                lemma_set_push(prior, e.id);
            }
            out.push(e.id);
            proof {
                assert(as_set(out@) =~= diff_removed(as_map(before.push(e)), new@));
            }
        } else {
            proof {
                assert(as_set(out@) =~= diff_removed(as_map(before.push(e)), new@));
            }
        }
        j += 1;
    }
    proof {
        assert(old.listing().take(j as int) =~= old.listing());
    }
    out
}

/// The running sum of a walk along the chain: the changes so far, and which
/// of the added ids were there in the state the walk started from.
pub struct Tally {
    pub changes: Changes,
    pub returned: Set<u64>,
}

/// The sum of no entries.
pub open spec fn empty_tally() -> Tally {
    Tally { changes: no_changes(), returned: Set::empty() }
}

/// One more added entity: it overrides any earlier change or removal of its
/// id. An id that was changed or removed before was there at the start of the
/// walk, and is noted as returned.
pub open spec fn absorb_added(t: Tally, e: EntitySnapshot) -> Tally {
    Tally {
        changes: Changes {
            added: t.changes.added.insert(e.id, e),
            changed: t.changes.changed.remove(e.id),
            removed: t.changes.removed.remove(e.id),
        },
        returned: if t.changes.removed.contains(e.id) || t.changes.changed.contains_key(e.id) {
            t.returned.insert(e.id)
        } else {
            t.returned
        },
    }
}

/// One more changed entity: it is merged into `added` where its id is newly
/// added, dropped where its id is already removed, and a change otherwise.
pub open spec fn absorb_changed(t: Tally, e: EntitySnapshot) -> Tally {
    if t.changes.added.contains_key(e.id) {
        Tally {
            changes: Changes {
                added: t.changes.added.insert(e.id, e),
                changed: t.changes.changed,
                removed: t.changes.removed,
            },
            returned: t.returned,
        }
    } else if !t.changes.removed.contains(e.id) {
        Tally {
            changes: Changes {
                added: t.changes.added,
                changed: t.changes.changed.insert(e.id, e),
                removed: t.changes.removed,
            },
            returned: t.returned,
        }
    } else {
        t
    }
}

/// One more removed id: it clears the id from `added` and `changed`. An id
/// that the walk itself had added, and that was not there at its start, came
/// and went and leaves no trace; any other id is noted as removed.
pub open spec fn absorb_removed(t: Tally, id: u64) -> Tally {
    Tally {
        changes: Changes {
            added: t.changes.added.remove(id),
            changed: t.changes.changed.remove(id),
            removed: if t.changes.added.contains_key(id) && !t.returned.contains(id) {
                t.changes.removed
            } else {
                t.changes.removed.insert(id)
            },
        },
        returned: t.returned.remove(id),
    }
}

/// `absorb_added` over a list, left to right.
pub open spec fn absorb_added_list(t: Tally, items: Seq<EntitySnapshot>) -> Tally
    decreases items.len(),
{
    if items.len() == 0 {
        t
    } else {
        absorb_added(absorb_added_list(t, items.drop_last()), items.last())
    }
}

/// `absorb_changed` over a list, left to right.
pub open spec fn absorb_changed_list(t: Tally, items: Seq<EntitySnapshot>) -> Tally
    decreases items.len(),
{
    if items.len() == 0 {
        t
    } else {
        absorb_changed(absorb_changed_list(t, items.drop_last()), items.last())
    }
}

/// `absorb_removed` over a list, left to right.
pub open spec fn absorb_removed_list(t: Tally, ids: Seq<u64>) -> Tally
    decreases ids.len(),
{
    if ids.len() == 0 {
        t
    } else {
        absorb_removed(absorb_removed_list(t, ids.drop_last()), ids.last())
    }
}

/// One more history entry: its added entities, then its changed ones, then
/// its removed ids.
pub open spec fn absorb_entry(t: Tally, entry: DiffEntry) -> Tally {
    absorb_removed_list(
        absorb_changed_list(absorb_added_list(t, entry.added@), entry.changed@),
        entry.removed@,
    )
}

/// `absorb_entry` over a run of entries, oldest first.
pub open spec fn absorb_entries(t: Tally, entries: Seq<DiffEntry>) -> Tally
    decreases entries.len(),
{
    if entries.len() == 0 {
        t
    } else {
        absorb_entry(absorb_entries(t, entries.drop_last()), entries.last())
    }
}

/// The running sum of a chain walk.
struct Accumulator {
    added: HashMap<u64, EntitySnapshot>,
    changed: HashMap<u64, EntitySnapshot>,
    removed: HashSet<u64>,
    returned: HashSet<u64>,
}

impl Accumulator {
    spec fn wf(&self) -> bool {
        keyed_by_id(self.added@) && keyed_by_id(self.changed@)
    }

    spec fn tally(&self) -> Tally {
        Tally {
            changes: Changes { added: self.added@, changed: self.changed@, removed: self.removed@ },
            returned: self.returned@,
        }
    }

    fn new() -> (acc: Accumulator)
        ensures
            acc.wf(),
            acc.tally() == empty_tally(),
    {
        broadcast use group_hash_axioms;

        Accumulator {
            added: HashMap::new(),
            changed: HashMap::new(),
            removed: HashSet::new(),
            returned: HashSet::new(),
        }
    }

    fn absorb_added(&mut self, items: &Vec<EntitySnapshot>)
        requires
            old(self).wf(),
        ensures
            final(self).wf(),
            final(self).tally() == absorb_added_list(old(self).tally(), items@),
    {
        broadcast use group_hash_axioms;

        let mut k: usize = 0;
        while k < items.len()
            invariant
                k <= items.len(),
                self.wf(),
                self.tally() == absorb_added_list(old(self).tally(), items@.take(k as int)),
            decreases items.len() - k,
        {
            let e = items[k];
            proof {
                assert(items@.take(k + 1).drop_last() =~= items@.take(k as int));
            }
            let came_back = self.removed.contains(&e.id) || self.changed.contains_key(&e.id);
            self.removed.remove(&e.id);
            self.changed.remove(&e.id);
            self.added.insert(e.id, e);
            if came_back {
                self.returned.insert(e.id);
            }
            k += 1;
        }
        proof {
            assert(items@.take(k as int) =~= items@);
        }
    }

    fn absorb_changed(&mut self, items: &Vec<EntitySnapshot>)
        requires
            old(self).wf(),
        ensures
            final(self).wf(),
            final(self).tally() == absorb_changed_list(old(self).tally(), items@),
    {
        broadcast use group_hash_axioms;

        let mut k: usize = 0;
        while k < items.len()
            invariant
                k <= items.len(),
                self.wf(),
                self.tally() == absorb_changed_list(old(self).tally(), items@.take(k as int)),
            decreases items.len() - k,
        {
            let e = items[k];
            proof {
                assert(items@.take(k + 1).drop_last() =~= items@.take(k as int));
            }
            if self.added.contains_key(&e.id) {
                self.added.insert(e.id, e);
            } else if !self.removed.contains(&e.id) {
                self.changed.insert(e.id, e);
            }
            k += 1;
        }
        proof {
            assert(items@.take(k as int) =~= items@);
        }
    }

    fn absorb_removed(&mut self, ids: &Vec<u64>)
        requires
            old(self).wf(),
        ensures
            final(self).wf(),
            final(self).tally() == absorb_removed_list(old(self).tally(), ids@),
    {
        broadcast use group_hash_axioms;

        let mut k: usize = 0;
        while k < ids.len()
            invariant
                k <= ids.len(),
                self.wf(),
                self.tally() == absorb_removed_list(old(self).tally(), ids@.take(k as int)),
            decreases ids.len() - k,
        {
            let id = ids[k];
            proof {
                assert(ids@.take(k + 1).drop_last() =~= ids@.take(k as int));
            }
            let came_and_went = self.added.contains_key(&id) && !self.returned.contains(&id);
            self.added.remove(&id);
            self.changed.remove(&id);
            self.returned.remove(&id);
            if !came_and_went {
                self.removed.insert(id);
            }
            k += 1;
        }
        proof {
            assert(ids@.take(k as int) =~= ids@);
        }
    }

    fn absorb_entry(&mut self, entry: &DiffEntry)
        requires
            old(self).wf(),
        ensures
            final(self).wf(),
            final(self).tally() == absorb_entry(old(self).tally(), *entry),
    {
        self.absorb_added(&entry.added);
        self.absorb_changed(&entry.changed);
        self.absorb_removed(&entry.removed);
    }
}

/// Some entry starts from `since`.
pub open spec fn has_base(history: Seq<DiffEntry>, since: Checksum) -> bool {
    exists|i: int| 0 <= i < history.len() && history[i].base == since
}

/// Some entry ends at `since`.
pub open spec fn has_checksum(history: Seq<DiffEntry>, since: Checksum) -> bool {
    exists|i: int| 0 <= i < history.len() && history[i].checksum == since
}

/// `i` is the place of the oldest entry that starts from `since`.
pub open spec fn is_first_with_base(history: Seq<DiffEntry>, since: Checksum, i: int) -> bool {
    &&& 0 <= i < history.len()
    &&& history[i].base == since
    &&& forall|j: int| 0 <= j < i ==> history[j].base != since
}

/// The place of the oldest entry that starts from `since`.
pub open spec fn first_with_base(history: Seq<DiffEntry>, since: Checksum) -> int {
    choose|i: int| is_first_with_base(history, since, i)
}

/// A diff, with its lists as mathematical collections.
pub struct DiffModel {
    pub tick: u64,
    pub base: Checksum,
    pub checksum: Checksum,
    pub changes: Changes,
}

/// What a diff request for `since` is answered with, given the history, the
/// checksums that have left it, the current tick and the current checksum.
///
/// - The current checksum gives an empty diff.
/// - A checksum that no entry starts from is `ChecksumTooOld` if it has left
///   the history or some entry ends at it, and `UnknownChecksum` if not.
/// - Otherwise the walk starts at the oldest entry that starts from `since`
///   and runs to the newest. It is `ChecksumTooOld` if some entry on the way
///   does not start where the one before it ended, or if the walk ends at
///   `since` again. Else the diff is what the entries walked add up to.
pub open spec fn diff_outcome(
    history: Seq<DiffEntry>,
    retired: Set<Checksum>,
    tick: u64,
    current: Checksum,
    since: Checksum,
) -> Result<DiffModel, DiffError> {
    if since == current {
        Ok(DiffModel { tick, base: since, checksum: current, changes: no_changes() })
    } else if !has_base(history, since) {
        if has_checksum(history, since) || retired.contains(since) {
            Err(DiffError::ChecksumTooOld)
        } else {
            Err(DiffError::UnknownChecksum)
        }
    } else {
        let start = first_with_base(history, since);
        if !chain_holds(history, start) || history.last().checksum == since {
            Err(DiffError::ChecksumTooOld)
        } else {
            Ok(
                DiffModel {
                    tick,
                    base: since,
                    checksum: history.last().checksum,
                    changes: absorb_entries(
                        empty_tally(),
                        history.subrange(start, history.len() as int),
                    ).changes,
                },
            )
        }
    }
}

/// The answer `r` is the outcome `o`: the same error, or a diff with the same
/// header whose id-ordered lists say what the outcome's collections say.
pub open spec fn answers(r: Result<Diff, DiffError>, o: Result<DiffModel, DiffError>) -> bool {
    match o {
        Ok(m) => {
            &&& r is Ok
            &&& r->Ok_0.tick == m.tick
            &&& r->Ok_0.base == m.base
            &&& r->Ok_0.checksum == m.checksum
            &&& r->Ok_0.shows(m.changes)
        },
        Err(e) => r == Err::<Diff, DiffError>(e),
    }
}

/// Answers a diff request for `since` from a history, the checksums that
/// have left it, the current tick and the current checksum, whatever the
/// history holds.
pub fn chain_diff(
    history: &VecDeque<DiffEntry>,
    retired: &HashSet<Checksum>,
    tick: u64,
    current: Checksum,
    since: Checksum,
) -> (r: Result<Diff, DiffError>)
    ensures
        answers(r, diff_outcome(history@, retired@, tick, current, since)),
        since == current ==> r is Ok && r->Ok_0.added@.len() == 0 && r->Ok_0.changed@.len() == 0
            && r->Ok_0.removed@.len() == 0,
{
    broadcast use group_hash_axioms;

    if since == current {
        let d = Diff {
            tick,
            base: since,
            checksum: current,
            added: Vec::new(),
            removed: Vec::new(),
            changed: Vec::new(),
        };
        proof {
            lemma_map_empty(d.added@);
            lemma_map_empty(d.changed@);
            lemma_set_empty(d.removed@);
        }
        return Ok(d);
    }
    let n = history.len();
    let mut start: usize = 0;
    while start < n && history[start].base != since
        invariant
            n == history@.len(),
            start <= n,
            forall|j: int| 0 <= j < start ==> history@[j].base != since,
        decreases n - start,
    {
        start += 1;
    }
    if start == n {
        let mut k: usize = 0;
        let mut seen = false;
        while k < n
            invariant
                n == history@.len(),
                k <= n,
                seen == (exists|j: int| 0 <= j < k && history@[j].checksum == since),
            decreases n - k,
        {
            if history[k].checksum == since {
                seen = true;
            }
            k += 1;
        }
        if seen || retired.contains(&since) {
            return Err(DiffError::ChecksumTooOld);
        } else {
            return Err(DiffError::UnknownChecksum);
        }
    }
    proof {
        assert(is_first_with_base(history@, since, start as int));
        let chosen = first_with_base(history@, since);
        assert(is_first_with_base(history@, since, chosen));
        assert(chosen == start);
    }
    let mut acc = Accumulator::new();
    let mut running = since;
    let mut i: usize = start;
    while i < n
        invariant
            n == history@.len(),
            start <= i <= n,
            start < n,
            acc.wf(),
            acc.tally() == absorb_entries(
                empty_tally(),
                history@.subrange(start as int, i as int),
            ),
            running == (if i == start {
                since
            } else {
                history@[i - 1].checksum
            }),
            forall|j: int| start < j < i ==> history@[j].base == history@[j - 1].checksum,
            history@[start as int].base == since,
            first_with_base(history@, since) == start,
            since != current,
        decreases n - i,
    {
        let entry = &history[i];
        if entry.base != running {
            proof {
                assert(!chain_holds(history@, start as int));
            }
            return Err(DiffError::ChecksumTooOld);
        }
        running = entry.checksum;
        proof {
            assert(history@.subrange(start as int, i + 1).drop_last() =~= history@.subrange(
                start as int,
                i as int,
            ));
        }
        acc.absorb_entry(entry);
        i += 1;
    }
    proof {
        assert(chain_holds(history@, start as int));
        assert(running == history@.last().checksum);
    }
    if running == since {
        return Err(DiffError::ChecksumTooOld);
    }
    let added = EntityMap::in_id_order(&acc.added);
    let changed = EntityMap::in_id_order(&acc.changed);
    let removed = IdSet::in_order(&acc.removed);
    proof {
        added.lemma_wf();
        changed.lemma_wf();
        removed.lemma_wf();
    }
    Ok(
        Diff {
            tick,
            base: since,
            checksum: running,
            added: added.to_vec(),
            removed: removed.to_vec(),
            changed: changed.to_vec(),
        },
    )
}

/// Each entry from `start + 1` on begins where the one before it ended.
pub open spec fn chain_holds(history: Seq<DiffEntry>, start: int) -> bool {
    forall|i: int| start < i < history.len() ==> history[i].base == history[i - 1].checksum
}

/// What is left of `history` once only the newest `HISTORY_LIMIT` entries are
/// kept.
pub open spec fn newest(history: Seq<DiffEntry>) -> Seq<DiffEntry> {
    if history.len() > HISTORY_LIMIT {
        history.subrange(history.len() - HISTORY_LIMIT, history.len() as int)
    } else {
        history
    }
}

/// If some entry starts from `since`, there is an oldest such entry.
pub proof fn lemma_first_with_base(history: Seq<DiffEntry>, since: Checksum, any: int)
    requires
        0 <= any < history.len(),
        history[any].base == since,
    ensures
        is_first_with_base(history, since, first_with_base(history, since)),
    decreases any,
{
    if forall|j: int| 0 <= j < any ==> history[j].base != since {
        assert(is_first_with_base(history, since, any));
    } else {
        let j = choose|j: int| 0 <= j < any && history[j].base == since;
        lemma_first_with_base(history, since, j);
    }
}

/// What is left of a run of states once only the newest `HISTORY_LIMIT + 1`
/// are kept: the states that the kept entries lead from and to.
pub open spec fn newest_states(states: Seq<Seq<EntitySnapshot>>) -> Seq<Seq<EntitySnapshot>> {
    if states.len() > HISTORY_LIMIT + 1 {
        states.subrange(states.len() - HISTORY_LIMIT - 1, states.len() as int)
    } else {
        states
    }
}

/// In a history that is one unbroken chain ending at the current checksum, a
/// checksum that some entry ends at is the current one or the start of the
/// next entry.
proof fn lemma_no_loose_end(history: Seq<DiffEntry>, current: Checksum, since: Checksum)
    requires
        chain_holds(history, 0),
        history.len() > 0 ==> history.last().checksum == current,
        since != current,
        has_checksum(history, since),
    ensures
        has_base(history, since),
{
    let i = choose|i: int| 0 <= i < history.len() && history[i].checksum == since;
    assert(i < history.len() - 1);
    assert(history[i + 1].base == history[i + 1 - 1].checksum);
    assert(0 <= i + 1 < history.len() && history[i + 1].base == since);
}

/// What a request is answered with where the history is one unbroken chain
/// that ends at the current checksum: a diff for the current checksum and for
/// one that an entry starts from, `ChecksumTooOld` for a retired one, and
/// `UnknownChecksum` for any other.
pub proof fn lemma_whole_chain_outcome(
    history: Seq<DiffEntry>,
    retired: Set<Checksum>,
    tick: u64,
    current: Checksum,
    since: Checksum,
)
    requires
        chain_holds(history, 0),
        history.len() > 0 ==> history.last().checksum == current,
    ensures
        ({
            let o = diff_outcome(history, retired, tick, current, since);
            &&& o is Ok <==> since == current || has_base(history, since)
            &&& o == Err::<DiffModel, DiffError>(DiffError::ChecksumTooOld) <==> since != current
                && !has_base(history, since) && retired.contains(since)
            &&& o == Err::<DiffModel, DiffError>(DiffError::UnknownChecksum) <==> since != current
                && !has_base(history, since) && !retired.contains(since)
            &&& o is Ok ==> o->Ok_0.checksum == current
        }),
{
    if since != current {
        if has_base(history, since) {
            let any = choose|i: int| 0 <= i < history.len() && history[i].base == since;
            lemma_first_with_base(history, since, any);
            let start = first_with_base(history, since);
            assert forall|i: int| start < i < history.len() implies history[i].base == history[i
                - 1].checksum by {
                assert(chain_holds(history, 0));
            }
            assert(chain_holds(history, start));
        } else if has_checksum(history, since) {
            lemma_no_loose_end(history, current, since);
        }
    }
}

/// Some state before place `upto` of the run had the checksum `c`.
pub open spec fn held_before(seen: Seq<Checksum>, upto: int, c: Checksum) -> bool {
    exists|j: int| 0 <= j < upto && j < seen.len() && #[trigger] seen[j] == c
}

/// The authoritative state and its diff history.
pub struct WorldStateStore {
    tick: u64,
    checksum: Checksum,
    entities: HashMap<u64, EntitySnapshot>,
    history: VecDeque<DiffEntry>,
    retired: HashSet<Checksum>,
    past: Ghost<Seq<Seq<EntitySnapshot>>>,
    seen: Ghost<Seq<Checksum>>,
}

impl WorldStateStore {
    /// The number of the latest tick.
    pub closed spec fn tick(&self) -> u64 {
        self.tick
    }

    /// The checksum of the current state.
    pub closed spec fn checksum(&self) -> Checksum {
        self.checksum
    }

    /// The current entities, in id order.
    pub closed spec fn listing(&self) -> Seq<EntitySnapshot> {
        listing_of(self.entities@)
    }

    /// The current entities, by id.
    pub open spec fn entities(&self) -> Map<u64, EntitySnapshot> {
        as_map(self.listing())
    }

    /// The diff entries that are kept, oldest first.
    pub closed spec fn history(&self) -> Seq<DiffEntry> {
        self.history@
    }

    /// The checksums of the states that no kept entry leads from any more.
    pub closed spec fn retired(&self) -> Set<Checksum> {
        self.retired@
    }

    /// The states that the kept entries lead from and to, oldest first, each
    /// in id order: entry `i` leads from state `i` to state `i + 1`, and the
    /// last state is the current one. Kept for reasoning only.
    pub closed spec fn past(&self) -> Seq<Seq<EntitySnapshot>> {
        self.past@
    }

    /// The checksums of all the states that the store has held, one per tick
    /// from tick 0 on; the last is the current one. Kept for reasoning only.
    pub closed spec fn seen(&self) -> Seq<Checksum> {
        self.seen@
    }

    /// The store is consistent: see `consistent`.
    pub closed spec fn wf(&self) -> bool {
        &&& keyed_by_id(self.entities@)
        &&& as_map(self.listing()) == self.entities@
        &&& self.consistent()
    }

    /// The listing is id-ordered, the checksum is that of the current state,
    /// and the history is within its limit. Every kept entry leads from one
    /// past state to the next: it lists their difference and names their
    /// checksums, and its tick is one more than that of the entry before it.
    /// The retired checksums are those of the states before the oldest kept
    /// entry.
    #[verifier::opaque]
    pub open spec fn consistent(&self) -> bool {
        &&& ids_increasing(self.listing())
        &&& self.checksum() == state_checksum(self.tick(), self.listing())
        &&& self.history().len() <= HISTORY_LIMIT
        &&& self.history().len() <= self.tick()
        &&& self.history().len() == 0 ==> self.tick() == 0 && self.listing().len() == 0
        &&& self.past().len() == self.history().len() + 1
        &&& self.past().last() == self.listing()
        &&& self.seen().len() == self.tick() + 1
        &&& self.seen().last() == self.checksum()
        &&& forall|i: int| 0 <= i < self.past().len() ==> ids_increasing(#[trigger] self.past()[i])
        &&& forall|i: int|
            0 <= i < self.history().len() ==> {
                let entry = #[trigger] self.history()[i];
                &&& entry.tick + (self.history().len() - 1 - i) == self.tick()
                &&& entry.base == self.seen()[entry.tick - 1]
                &&& entry.checksum == self.seen()[entry.tick as int]
                &&& entry.base == state_checksum((entry.tick - 1) as u64, self.past()[i])
                &&& entry.checksum == state_checksum(entry.tick, self.past()[i + 1])
                &&& entry.shows(
                    changes_between(as_map(self.past()[i]), as_map(self.past()[i + 1])),
                )
            }
        &&& forall|c: Checksum| #[trigger]
            self.retired().contains(c) <==> held_before(
                self.seen(),
                self.tick() - self.history().len(),
                c,
            )
    }

    /// A well-formed store is consistent, and its history is one unbroken
    /// chain that ends at the current checksum.
    pub proof fn lemma_wf(&self)
        requires
            self.wf(),
        ensures
            self.consistent(),
            chain_holds(self.history(), 0),
            self.history().len() > 0 ==> self.history().last().checksum == self.checksum(),
    {
        reveal(WorldStateStore::consistent);
        let h = self.history();
        assert forall|i: int| 0 < i < h.len() implies h[i].base == h[i - 1].checksum by {
            let a = h[i];
            let b = h[i - 1];
            assert(a.tick == b.tick + 1);
        }
        if h.len() > 0 {
            let last = h[h.len() - 1];
            assert(last.tick == self.tick());
        }
    }

    /// A checksum was that of some state of a well-formed store exactly when
    /// it is the current one, or some kept entry starts from it, or it is
    /// retired.
    pub proof fn lemma_seen(&self, c: Checksum)
        requires
            self.wf(),
        ensures
            self.seen().contains(c) <==> (c == self.checksum() || has_base(self.history(), c)
                || self.retired().contains(c)),
    {
        reveal(WorldStateStore::consistent);
        let h = self.history();
        let seen = self.seen();
        let kept_from = self.tick() - h.len();
        if seen.contains(c) {
            let j = choose|j: int| 0 <= j < seen.len() && seen[j] == c;
            if j == self.tick() {
            } else if j >= kept_from {
                let i = j - kept_from;
                let entry = h[i];
                assert(entry.tick == j + 1);
                assert(entry.base == c);
            } else {
                assert(held_before(seen, kept_from, c)) by {
                    assert(0 <= j < kept_from && seen[j] == c);
                }
                assert(self.retired().contains(c));
            }
        }
        if c == self.checksum() {
            assert(seen[seen.len() - 1] == c);
        }
        if has_base(h, c) {
            let i = choose|i: int| 0 <= i < h.len() && h[i].base == c;
            let entry = h[i];
            assert(seen[entry.tick - 1] == c);
        }
        if self.retired().contains(c) {
            assert(held_before(seen, kept_from, c));
            let j = choose|j: int| 0 <= j < kept_from && j < seen.len() && #[trigger] seen[j] == c;
            assert(seen[j] == c);
        }
    }

    /// The store is as it is before the first tick: no entities, no history,
    /// tick 0, and the checksum of the empty state.
    pub open spec fn fresh(&self) -> bool {
        &&& self.wf()
        &&& self.tick() == 0
        &&& self.listing() == Seq::<EntitySnapshot>::empty()
        &&& self.history() == Seq::<DiffEntry>::empty()
        &&& self.retired() == Set::<Checksum>::empty()
        &&& self.past() == Seq::<Seq<EntitySnapshot>>::empty().push(Seq::<EntitySnapshot>::empty())
        &&& self.checksum() == state_checksum(0, Seq::<EntitySnapshot>::empty())
        &&& self.seen() == Seq::<Checksum>::empty().push(self.checksum())
    }

    /// The store is what one update with the state `entities`, given in id
    /// order, makes of `before`: the tick is one more, the entities and the
    /// checksum are those of the new state, and the history has one more
    /// entry, from the old checksum to the new one, that lists what was
    /// added, changed and removed. Where the history was full, its oldest
    /// entry has left and the checksum that it started from is retired.
    pub open spec fn follows(&self, before: WorldStateStore, entities: Seq<EntitySnapshot>) -> bool {
        &&& self.wf()
        &&& self.tick() == before.tick() + 1
        &&& self.listing() == entities
        &&& self.checksum() == state_checksum(self.tick(), entities)
        &&& self.history().len() > 0
        &&& self.history().last().tick == self.tick()
        &&& self.history().last().base == before.checksum()
        &&& self.history().last().checksum == self.checksum()
        &&& self.history().last().shows(changes_between(before.entities(), as_map(entities)))
        &&& self.history() == newest(before.history().push(self.history().last()))
        &&& self.past() == newest_states(before.past().push(entities))
        &&& self.seen() == before.seen().push(self.checksum())
        &&& self.retired() == (if before.history().len() == HISTORY_LIMIT {
            before.retired().insert(before.history()[0].base)
        } else {
            before.retired()
        })
    }

    /// The store before the first tick: no entities, no history, tick 0, and
    /// the checksum of the empty state.
    pub fn new() -> (store: WorldStateStore)
        ensures
            store.fresh(),
    {
        broadcast use group_hash_axioms;

        let entities: HashMap<u64, EntitySnapshot> = HashMap::new();
        let listing = EntityMap::in_id_order(&entities);
        let checksum = digest_listing(0, listing.as_slice());
        proof {
            listing.lemma_wf();
            lemma_id_order_is_digest_order(listing.listing());
            if listing.listing().len() > 0 {
                lemma_as_map(listing.listing());
                assert(listing@.contains_key(listing.listing()[0].id));
            }
            assert(listing.listing() =~= Seq::<EntitySnapshot>::empty());
        }
        let store = WorldStateStore {
            tick: 0,
            checksum,
            entities,
            history: VecDeque::new(),
            retired: HashSet::new(),
            past: Ghost(Seq::<Seq<EntitySnapshot>>::empty().push(Seq::<EntitySnapshot>::empty())),
            seen: Ghost(Seq::<Checksum>::empty().push(checksum)),
        };
        proof {
            reveal(WorldStateStore::consistent);
            assert forall|c: Checksum| #[trigger]
                store.retired().contains(c) <==> held_before(store.seen(), 0, c) by {}
        }
        store
    }

    /// The number of the latest tick.
    pub fn current_tick(&self) -> (t: u64)
        ensures
            t == self.tick(),
    {
        self.tick
    }

    /// The checksum of the current state.
    pub fn current_checksum(&self) -> (c: Checksum)
        ensures
            c == self.checksum(),
    {
        self.checksum
    }

    /// How many diff entries are kept.
    pub fn history_len(&self) -> (n: usize)
        ensures
            n == self.history().len(),
    {
        self.history.len()
    }

    /// The `i`-th oldest diff entry that is kept.
    pub fn history_entry(&self, i: usize) -> (entry: &DiffEntry)
        requires
            i < self.history().len(),
        ensures
            *entry == self.history()[i as int],
    {
        &self.history[i]
    }

    /// Takes the full set of entities alive after one more tick.
    ///
    /// The tick advances by one, the entities and the checksum become those of
    /// the new state, and one entry is appended to the history: from the old
    /// checksum to the new one, listing in id order what was added, changed
    /// and removed. Only the newest `HISTORY_LIMIT` entries are kept; the
    /// checksum that the entry that leaves started from is retired.
    pub fn update(&mut self, new_entities: HashMap<u64, EntitySnapshot>)
        requires
            old(self).wf(),
            keyed_by_id(new_entities@),
            old(self).tick() < u64::MAX,
        ensures
            final(self).follows(*old(self), listing_of(new_entities@)),
            final(self).entities() == new_entities@,
    {
        broadcast use group_hash_axioms;

        proof {
            reveal(WorldStateStore::consistent);
        }
        let next_tick = self.tick + 1;
        let base_checksum = self.checksum;
        let previous = EntityMap::in_id_order(&self.entities);
        let arrived = EntityMap::in_id_order(&new_entities);
        let (added, changed) = list_arrivals(&previous, &arrived);
        let removed = list_removed(&previous, &arrived);
        let checksum = digest_listing(next_tick, arrived.as_slice());
        proof {
            arrived.lemma_wf();
            lemma_id_order_is_digest_order(arrived.listing());
        }
        let entry = DiffEntry { tick: next_tick, base: base_checksum, checksum, added, removed, changed };
        let ghost before = self.history@;
        let ghost states_before = self.past@;
        let ghost seen_before = self.seen@;
        let ghost retired_before = self.retired@;
        self.tick = next_tick;
        self.checksum = checksum;
        self.entities = new_entities;
        self.history.push_back(entry);
        self.past = Ghost(states_before.push(arrived.listing()));
        self.seen = Ghost(seen_before.push(checksum));
        let ghost pushed = self.history@;
        let ghost states = self.past@;
        let ghost seen = self.seen@;
        proof {
            assert(pushed == before.push(entry));
            assert forall|i: int| 0 <= i < pushed.len() implies {
                let e = #[trigger] pushed[i];
                &&& e.tick + (pushed.len() - 1 - i) == next_tick
                &&& e.base == seen[e.tick - 1]
                &&& e.checksum == seen[e.tick as int]
                &&& e.base == state_checksum((e.tick - 1) as u64, states[i])
                &&& e.checksum == state_checksum(e.tick, states[i + 1])
                &&& e.shows(changes_between(as_map(states[i]), as_map(states[i + 1])))
            } by {
                if i < before.len() {
                    assert(pushed[i] == before[i]);
                    assert(states[i] == states_before[i]);
                    assert(states[i + 1] == states_before[i + 1]);
                    assert(seen[before[i].tick - 1] == seen_before[before[i].tick - 1]);
                    assert(seen[before[i].tick as int] == seen_before[before[i].tick as int]);
                } else {
                    assert(states[i] == states_before.last());
                    assert(seen[next_tick - 1] == seen_before.last());
                }
            }
        }
        if self.history.len() > HISTORY_LIMIT {
            let gone = self.history.pop_front();
            match gone {
                Some(first) => {
                    self.retired.insert(first.base);
                },
                None => {},
            }
            self.past = Ghost(states.subrange(1, states.len() as int));
        }
        proof {
            let kept = self.history@;
            let kept_states = self.past@;
            let off = pushed.len() - kept.len();
            assert(kept =~= pushed.subrange(off, pushed.len() as int));
            assert(kept_states =~= states.subrange(off, states.len() as int));
            assert(kept.last() == pushed.last());
            assert(kept_states.last() == states.last());
            assert(kept =~= newest(pushed));
            assert(kept_states =~= newest_states(states));
            assert forall|i: int| 0 <= i < kept_states.len() implies ids_increasing(
                #[trigger] kept_states[i],
            ) by {
                assert(kept_states[i] == states[off + i]);
                if off + i < states_before.len() {
                    assert(states[off + i] == states_before[off + i]);
                }
            }
            assert forall|i: int| 0 <= i < kept.len() implies {
                let e = #[trigger] kept[i];
                &&& e.tick + (kept.len() - 1 - i) == next_tick
                &&& e.base == seen[e.tick - 1]
                &&& e.checksum == seen[e.tick as int]
                &&& e.base == state_checksum((e.tick - 1) as u64, kept_states[i])
                &&& e.checksum == state_checksum(e.tick, kept_states[i + 1])
                &&& e.shows(changes_between(as_map(kept_states[i]), as_map(kept_states[i + 1])))
            } by {
                assert(kept[i] == pushed[off + i]);
                assert(kept_states[i] == states[off + i]);
                assert(kept_states[i + 1] == states[off + i + 1]);
            }
            let from_before = (next_tick - 1) - before.len();
            let from_now = next_tick - kept.len();
            assert forall|c: Checksum| #[trigger]
                self.retired().contains(c) <==> held_before(seen, from_now, c) by {
                assert(old(self).retired().contains(c) <==> held_before(
                    seen_before,
                    from_before,
                    c,
                ));
                if held_before(seen_before, from_before, c) {
                    let j = choose|j: int|
                        0 <= j < from_before && j < seen_before.len() && #[trigger] seen_before[j]
                            == c;
                    assert(seen[j] == c);
                    assert(held_before(seen, from_now, c));
                }
                if off == 1 {
                    let first = pushed[0];
                    assert(first.tick - 1 == from_before);
                    assert(seen[from_before] == first.base);
                    assert(held_before(seen, from_now, first.base));
                }
                if held_before(seen, from_now, c) {
                    let j = choose|j: int|
                        0 <= j < from_now && j < seen.len() && #[trigger] seen[j] == c;
                    if j < from_before {
                        assert(seen_before[j] == c);
                        assert(held_before(seen_before, from_before, c));
                    }
                }
            }
        }
    }

    /// Everything that happened since the state with checksum `since`.
    ///
    /// - For the current checksum the diff is empty.
    /// - For a checksum that a kept entry starts from, the diff is what the
    ///   entries from there to the present add up to.
    /// - A checksum that was that of an earlier state of this store, and that
    ///   no kept entry starts from any more, is `ChecksumTooOld`.
    /// - A checksum that never was that of a state of this store is
    ///   `UnknownChecksum`.
    pub fn diff_since(&self, since: Checksum) -> (r: Result<Diff, DiffError>)
        requires
            self.wf(),
        ensures
            answers(
                r,
                diff_outcome(self.history(), self.retired(), self.tick(), self.checksum(), since),
            ),
            since == self.checksum() ==> r is Ok && r->Ok_0.added@.len() == 0
                && r->Ok_0.changed@.len() == 0 && r->Ok_0.removed@.len() == 0,
            r is Ok <==> since == self.checksum() || has_base(self.history(), since),
            r == Err::<Diff, DiffError>(DiffError::ChecksumTooOld) <==> since != self.checksum()
                && !has_base(self.history(), since) && self.seen().contains(since),
            r == Err::<Diff, DiffError>(DiffError::UnknownChecksum) <==> !self.seen().contains(
                since,
            ),
            r is Ok ==> r->Ok_0.tick == self.tick() && r->Ok_0.base == since && r->Ok_0.checksum
                == self.checksum(),
    {
        proof {
            self.lemma_outcome(since);
        }
        chain_diff(&self.history, &self.retired, self.tick, self.checksum, since)
    }

    /// What a request is answered with by a well-formed store: a diff for the
    /// current checksum and for one that a kept entry starts from;
    /// `ChecksumTooOld` for one of an earlier state that no kept entry starts
    /// from; `UnknownChecksum` for one that never was that of a state.
    pub proof fn lemma_outcome(&self, since: Checksum)
        requires
            self.wf(),
        ensures
            ({
                let o = diff_outcome(
                    self.history(),
                    self.retired(),
                    self.tick(),
                    self.checksum(),
                    since,
                );
                &&& o is Ok <==> since == self.checksum() || has_base(self.history(), since)
                &&& o == Err::<DiffModel, DiffError>(DiffError::ChecksumTooOld) <==> since
                    != self.checksum() && !has_base(self.history(), since)
                    && self.seen().contains(since)
                &&& o == Err::<DiffModel, DiffError>(DiffError::UnknownChecksum)
                    <==> !self.seen().contains(since)
                &&& o is Ok ==> o->Ok_0.checksum == self.checksum()
            }),
    {
        self.lemma_wf();
        self.lemma_seen(since);
        lemma_whole_chain_outcome(
            self.history(),
            self.retired(),
            self.tick(),
            self.checksum(),
            since,
        );
    }

    /// The whole current state: tick, checksum, and the entities in id order.
    pub fn snapshot(&self) -> (s: Snapshot)
        requires
            self.wf(),
        ensures
            s.tick == self.tick(),
            s.checksum == self.checksum(),
            s.entities@ == self.listing(),
            ids_increasing(s.entities@),
            as_map(s.entities@) == self.entities(),
    {
        let listing = EntityMap::in_id_order(&self.entities);
        proof {
            listing.lemma_wf();
        }
        Snapshot { tick: self.tick, checksum: self.checksum, entities: listing.to_vec() }
    }
}

impl Default for WorldStateStore {
    fn default() -> (store: WorldStateStore)
        ensures
            store.fresh(),
    {
        WorldStateStore::new()
    }
}

} // verus!
