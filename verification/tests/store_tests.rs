use nexus_core::checksum::checksum_for_state;
use nexus_core::entity_map::{EntityMap, IdSet};
use nexus_core::snapshot::{EntitySnapshot, Vec3};
use nexus_core::store::{chain_diff, DiffEntry, DiffError, WorldStateStore, HISTORY_LIMIT};
use nexus_core::sync::{diff_request, parse_checksum, snapshot_request};
use std::collections::{HashMap, HashSet, VecDeque};

fn v(x: f32, y: f32, z: f32) -> Vec3 {
    Vec3::new(x.to_bits(), y.to_bits(), z.to_bits())
}

fn entity(id: u64, x: f32) -> EntitySnapshot {
    EntitySnapshot { id, pos: v(x, 0.0, 0.0), vel: v(0.0, 0.0, 0.0), size: v(1.0, 1.0, 1.0) }
}

fn map_of(entities: &[EntitySnapshot]) -> HashMap<u64, EntitySnapshot> {
    entities.iter().map(|e| (e.id, *e)).collect()
}

fn listing_of(entities: &[EntitySnapshot]) -> EntityMap {
    let mut map = EntityMap::new();
    for e in entities {
        map.insert(*e);
    }
    map
}

#[test]
fn entity_map_keeps_its_listing_in_id_order() {
    let mut map = listing_of(&[entity(5, 1.0), entity(2, 2.0), entity(9, 3.0)]);
    assert_eq!(map.to_vec(), vec![entity(2, 2.0), entity(5, 1.0), entity(9, 3.0)]);
    assert_eq!(map.len(), 3);
    assert!(map.contains(5));
    assert!(!map.contains(4));
    assert_eq!(map.get(9), Some(entity(9, 3.0)));
    assert_eq!(map.get(1), None);
    map.insert(entity(5, 7.0));
    assert_eq!(map.get(5), Some(entity(5, 7.0)));
    assert_eq!(map.len(), 3);
    map.remove(2);
    map.remove(100);
    assert_eq!(map.to_vec(), vec![entity(5, 7.0), entity(9, 3.0)]);
    assert_eq!(map.nth(1), entity(9, 3.0));
    map.replace_nth(0, entity(5, 8.0));
    assert_eq!(map.as_slice(), &[entity(5, 8.0), entity(9, 3.0)]);
    let scattered = map_of(&[entity(30, 1.0), entity(4, 2.0), entity(17, 3.0), entity(8, 4.0)]);
    assert_eq!(
        EntityMap::in_id_order(&scattered).to_vec(),
        vec![entity(4, 2.0), entity(8, 4.0), entity(17, 3.0), entity(30, 1.0)]
    );
    assert_eq!(EntityMap::in_id_order(&scattered).to_hash_map(), scattered);
}

#[test]
fn id_set_keeps_its_listing_in_order() {
    let mut set = IdSet::new();
    set.insert(7);
    set.insert(3);
    set.insert(7);
    set.insert(11);
    assert_eq!(set.to_vec(), vec![3, 7, 11]);
    let scattered: HashSet<u64> = [40, 7, 19, 2, 33].into_iter().collect();
    assert_eq!(IdSet::in_order(&scattered).to_vec(), vec![2, 7, 19, 33, 40]);
}

#[test]
fn a_new_store_holds_the_empty_state() {
    let store = WorldStateStore::new();
    let other = WorldStateStore::default();
    assert_eq!(other.current_checksum(), store.current_checksum());
    assert_eq!(other.current_tick(), 0);
    assert_eq!(other.history_len(), 0);
    assert!(other.snapshot().entities.is_empty());
    assert_eq!(store.current_tick(), 0);
    assert_eq!(store.current_checksum(), checksum_for_state(0, &[]));
    assert_eq!(store.history_len(), 0);
    let snapshot = store.snapshot();
    assert_eq!(snapshot.tick, 0);
    assert!(snapshot.entities.is_empty());
}

#[test]
fn update_lists_added_changed_and_removed_in_id_order() {
    let mut store = WorldStateStore::new();
    store.update(map_of(&[entity(3, 0.0), entity(1, 0.0), entity(2, 0.0)]));
    let before = store.current_checksum();
    store.update(map_of(&[entity(5, 0.0), entity(4, 0.0), entity(3, 9.0), entity(1, 0.0)]));
    assert_eq!(store.current_tick(), 2);
    assert_eq!(store.history_len(), 2);
    let entry = store.history_entry(1);
    assert_eq!(entry.tick, 2);
    assert_eq!(entry.base, before);
    assert_eq!(entry.checksum, store.current_checksum());
    assert_eq!(entry.added, vec![entity(4, 0.0), entity(5, 0.0)]);
    assert_eq!(entry.changed, vec![entity(3, 9.0)]);
    assert_eq!(entry.removed, vec![2]);
    assert_eq!(
        store.current_checksum(),
        checksum_for_state(2, &[entity(1, 0.0), entity(3, 9.0), entity(4, 0.0), entity(5, 0.0)])
    );
}

#[test]
fn snapshot_lists_the_entities_in_id_order() {
    let mut store = WorldStateStore::new();
    store.update(map_of(&[entity(8, 1.0), entity(2, 2.0)]));
    let snapshot = snapshot_request(&store);
    assert_eq!(snapshot.tick, 1);
    assert_eq!(snapshot.checksum, store.current_checksum());
    assert_eq!(snapshot.entities, vec![entity(2, 2.0), entity(8, 1.0)]);
}

#[test]
fn diff_since_the_current_checksum_is_empty() {
    let mut store = WorldStateStore::new();
    store.update(map_of(&[entity(1, 0.0)]));
    let diff = store.diff_since(store.current_checksum()).unwrap();
    assert_eq!(diff.tick, 1);
    assert_eq!(diff.base, store.current_checksum());
    assert_eq!(diff.checksum, store.current_checksum());
    assert!(diff.added.is_empty());
    assert!(diff.changed.is_empty());
    assert!(diff.removed.is_empty());
}

#[test]
fn diff_since_adds_up_the_entries_on_the_way() {
    let mut store = WorldStateStore::new();
    let start = store.current_checksum();
    store.update(map_of(&[entity(1, 0.0), entity(2, 0.0)]));
    let after_one = store.current_checksum();
    store.update(map_of(&[entity(1, 5.0), entity(2, 0.0), entity(3, 0.0)]));
    store.update(map_of(&[entity(1, 6.0), entity(3, 0.0)]));
    let from_start = store.diff_since(start).unwrap();
    assert_eq!(from_start.tick, 3);
    assert_eq!(from_start.base, start);
    assert_eq!(from_start.checksum, store.current_checksum());
    assert_eq!(from_start.added, vec![entity(1, 6.0), entity(3, 0.0)]);
    assert!(from_start.changed.is_empty());
    assert!(from_start.removed.is_empty());
    let from_one = store.diff_since(after_one).unwrap();
    assert_eq!(from_one.added, vec![entity(3, 0.0)]);
    assert_eq!(from_one.changed, vec![entity(1, 6.0)]);
    assert_eq!(from_one.removed, vec![2]);
}

#[test]
fn spawn_force_despawn_nets_to_a_removal_or_to_nothing() {
    let mut store = WorldStateStore::new();
    let before_spawn = store.current_checksum();
    let a = EntitySnapshot { id: 1, pos: v(0.0, 0.0, 0.0), vel: v(0.0, 0.0, 0.0), size: v(1.0, 1.0, 1.0) };
    store.update(map_of(&[a]));
    let tick_one = store.current_checksum();
    let mut pushed = a;
    pushed.vel = v(0.0, 10.0, 0.0);
    store.update(map_of(&[pushed]));
    store.update(map_of(&[]));
    let diff = store.diff_since(tick_one).unwrap();
    assert!(diff.added.is_empty());
    assert!(diff.changed.is_empty());
    assert_eq!(diff.removed, vec![1]);
    assert_eq!(diff.checksum, store.current_checksum());
    let wider = store.diff_since(before_spawn).unwrap();
    assert_eq!(wider.tick, 3);
    assert_eq!(wider.base, before_spawn);
    assert_eq!(wider.checksum, store.current_checksum());
    assert!(wider.added.is_empty());
    assert!(wider.changed.is_empty());
    assert!(wider.removed.is_empty());
}

#[test]
fn an_entity_that_came_and_went_stands_in_no_list() {
    let mut store = WorldStateStore::new();
    let start = store.current_checksum();
    store.update(map_of(&[entity(7, 0.0)]));
    store.update(map_of(&[]));
    let diff = store.diff_since(start).unwrap();
    assert_eq!(diff.tick, 2);
    assert_eq!(diff.base, start);
    assert_eq!(diff.checksum, store.current_checksum());
    assert!(diff.added.is_empty());
    assert!(diff.changed.is_empty());
    assert!(diff.removed.is_empty());
}

#[test]
fn an_entity_that_came_and_went_twice_stands_in_no_list() {
    let mut store = WorldStateStore::new();
    store.update(map_of(&[entity(2, 0.0)]));
    let start = store.current_checksum();
    store.update(map_of(&[entity(2, 0.0), entity(7, 0.0)]));
    store.update(map_of(&[entity(2, 0.0)]));
    store.update(map_of(&[entity(2, 1.0), entity(7, 3.0)]));
    store.update(map_of(&[entity(2, 1.0), entity(7, 4.0)]));
    store.update(map_of(&[entity(2, 1.0)]));
    let diff = store.diff_since(start).unwrap();
    assert!(diff.added.is_empty());
    assert_eq!(diff.changed, vec![entity(2, 1.0)]);
    assert!(diff.removed.is_empty());
}

#[test]
fn an_entity_that_went_came_back_and_went_again_is_removed() {
    let mut store = WorldStateStore::new();
    store.update(map_of(&[entity(1, 0.0), entity(2, 0.0)]));
    let start = store.current_checksum();
    store.update(map_of(&[entity(2, 0.0)]));
    store.update(map_of(&[entity(1, 5.0), entity(2, 0.0)]));
    let back = store.diff_since(start).unwrap();
    assert_eq!(back.added, vec![entity(1, 5.0)]);
    assert!(back.changed.is_empty());
    assert!(back.removed.is_empty());
    store.update(map_of(&[entity(2, 0.0)]));
    let gone = store.diff_since(start).unwrap();
    assert!(gone.added.is_empty());
    assert!(gone.changed.is_empty());
    assert_eq!(gone.removed, vec![1]);
}

#[test]
fn an_entity_that_changed_went_and_came_back_and_went_is_removed() {
    let mut store = WorldStateStore::new();
    store.update(map_of(&[entity(1, 0.0)]));
    let start = store.current_checksum();
    store.update(map_of(&[entity(1, 1.0)]));
    store.update(map_of(&[]));
    store.update(map_of(&[entity(1, 2.0)]));
    store.update(map_of(&[entity(1, 3.0)]));
    store.update(map_of(&[]));
    let diff = store.diff_since(start).unwrap();
    assert!(diff.added.is_empty());
    assert!(diff.changed.is_empty());
    assert_eq!(diff.removed, vec![1]);
}

#[test]
fn a_later_change_is_merged_into_an_addition() {
    let mut store = WorldStateStore::new();
    let start = store.current_checksum();
    store.update(map_of(&[entity(1, 0.0)]));
    store.update(map_of(&[entity(1, 4.0)]));
    let diff = store.diff_since(start).unwrap();
    assert_eq!(diff.added, vec![entity(1, 4.0)]);
    assert!(diff.changed.is_empty());
    assert!(diff.removed.is_empty());
}

#[test]
fn diff_since_an_unknown_checksum_is_refused() {
    let mut store = WorldStateStore::new();
    store.update(map_of(&[entity(1, 0.0)]));
    assert_eq!(store.diff_since(12345), Err(DiffError::UnknownChecksum));
}

#[test]
fn the_history_keeps_only_the_newest_entries() {
    let mut store = WorldStateStore::new();
    let start = store.current_checksum();
    store.update(map_of(&[entity(1, 0.0)]));
    let after_one = store.current_checksum();
    store.update(map_of(&[entity(1, 1.0)]));
    let after_two = store.current_checksum();
    let mut x = 2.0f32;
    while store.history_len() < HISTORY_LIMIT {
        store.update(map_of(&[entity(1, x)]));
        x += 1.0;
    }
    assert!(store.diff_since(start).is_ok());
    store.update(map_of(&[entity(1, x)]));
    assert_eq!(store.history_len(), HISTORY_LIMIT);
    assert_eq!(store.diff_since(start), Err(DiffError::ChecksumTooOld));
    let diff = store.diff_since(after_one).unwrap();
    assert_eq!(diff.changed, vec![entity(1, x)]);
    store.update(map_of(&[entity(1, x + 1.0)]));
    assert_eq!(store.diff_since(start), Err(DiffError::ChecksumTooOld));
    assert_eq!(store.diff_since(after_one), Err(DiffError::ChecksumTooOld));
    assert!(store.diff_since(after_two).is_ok());
    assert_eq!(store.diff_since(12345), Err(DiffError::UnknownChecksum));
}

#[test]
fn a_checksum_that_left_an_idle_history_is_too_old() {
    let mut store = WorldStateStore::new();
    let initial = store.current_checksum();
    for _ in 0..HISTORY_LIMIT {
        store.update(HashMap::new());
    }
    assert!(store.diff_since(initial).is_ok());
    store.update(HashMap::new());
    assert_eq!(store.current_tick(), 1025);
    assert_eq!(store.history_len(), HISTORY_LIMIT);
    assert_eq!(store.diff_since(initial), Err(DiffError::ChecksumTooOld));
    let text = format!("{}", initial);
    assert_eq!(diff_request(&store, Some(&text)), Err(DiffError::ChecksumTooOld));
    assert_eq!(store.diff_since(initial ^ 1), Err(DiffError::UnknownChecksum));
}

#[test]
fn a_checksum_that_has_left_the_history_is_too_old() {
    let mut history = VecDeque::new();
    history.push_back(entry(4, 13, 14));
    history.push_back(entry(5, 14, 15));
    let mut retired = HashSet::new();
    retired.insert(11);
    retired.insert(12);
    assert_eq!(chain_diff(&history, &retired, 5, 15, 11), Err(DiffError::ChecksumTooOld));
    assert_eq!(chain_diff(&history, &retired, 5, 15, 12), Err(DiffError::ChecksumTooOld));
    assert_eq!(chain_diff(&history, &retired, 5, 15, 10), Err(DiffError::UnknownChecksum));
    assert!(chain_diff(&history, &retired, 5, 15, 13).is_ok());
    assert!(chain_diff(&history, &retired, 5, 15, 15).is_ok());
}

#[test]
fn chain_diff_forgets_what_came_and_went() {
    let mut history = VecDeque::new();
    let mut one = entry(1, 10, 11);
    one.added = vec![entity(7, 0.0)];
    one.removed = vec![4];
    let mut two = entry(2, 11, 12);
    two.added = vec![entity(4, 1.0)];
    two.changed = vec![entity(7, 2.0)];
    let mut three = entry(3, 12, 13);
    three.removed = vec![4, 7];
    history.push_back(one);
    history.push_back(two);
    history.push_back(three);
    let diff = chain_diff(&history, &HashSet::new(), 3, 13, 10).unwrap();
    assert!(diff.added.is_empty());
    assert!(diff.changed.is_empty());
    assert_eq!(diff.removed, vec![4]);
    let later = chain_diff(&history, &HashSet::new(), 3, 13, 11).unwrap();
    assert!(later.added.is_empty());
    assert!(later.changed.is_empty());
    assert_eq!(later.removed, vec![7]);
}

fn entry(tick: u64, base: u64, checksum: u64) -> DiffEntry {
    DiffEntry { tick, base, checksum, added: vec![], removed: vec![], changed: vec![] }
}

#[test]
fn a_broken_chain_is_too_old() {
    let mut history = VecDeque::new();
    history.push_back(entry(1, 10, 11));
    history.push_back(entry(2, 11, 12));
    history.push_back(entry(3, 99, 13));
    assert_eq!(chain_diff(&history, &HashSet::new(), 3, 13, 10), Err(DiffError::ChecksumTooOld));
    assert_eq!(chain_diff(&history, &HashSet::new(), 3, 13, 11), Err(DiffError::ChecksumTooOld));
    assert!(chain_diff(&history, &HashSet::new(), 3, 13, 99).is_ok());
}

#[test]
fn a_checksum_that_only_ends_an_entry_is_too_old() {
    let mut history = VecDeque::new();
    history.push_back(entry(1, 10, 11));
    history.push_back(entry(2, 11, 12));
    assert_eq!(chain_diff(&history, &HashSet::new(), 2, 50, 12), Err(DiffError::ChecksumTooOld));
    assert_eq!(chain_diff(&history, &HashSet::new(), 2, 50, 77), Err(DiffError::UnknownChecksum));
}

#[test]
fn a_walk_that_ends_where_it_began_is_too_old() {
    let mut history = VecDeque::new();
    history.push_back(entry(1, 10, 11));
    history.push_back(entry(2, 11, 10));
    assert_eq!(chain_diff(&history, &HashSet::new(), 2, 50, 10), Err(DiffError::ChecksumTooOld));
}

#[test]
fn chain_diff_follows_the_rules_of_precedence() {
    let mut history = VecDeque::new();
    let mut one = entry(1, 10, 11);
    one.changed = vec![entity(1, 1.0), entity(2, 1.0)];
    one.removed = vec![3];
    let mut two = entry(2, 11, 12);
    two.added = vec![entity(3, 2.0)];
    two.changed = vec![entity(2, 2.0)];
    two.removed = vec![1];
    let mut three = entry(3, 12, 13);
    three.changed = vec![entity(1, 3.0), entity(3, 3.0)];
    history.push_back(one);
    history.push_back(two);
    history.push_back(three);
    let diff = chain_diff(&history, &HashSet::new(), 3, 13, 10).unwrap();
    assert_eq!(diff.tick, 3);
    assert_eq!(diff.base, 10);
    assert_eq!(diff.checksum, 13);
    assert_eq!(diff.added, vec![entity(3, 3.0)]);
    assert_eq!(diff.changed, vec![entity(2, 2.0)]);
    assert_eq!(diff.removed, vec![1]);
}

#[test]
fn parse_checksum_reads_decimal() {
    assert_eq!(parse_checksum("0"), Some(0));
    assert_eq!(parse_checksum("42"), Some(42));
    assert_eq!(parse_checksum("+42"), Some(42));
    assert_eq!(parse_checksum("007"), Some(7));
    assert_eq!(parse_checksum("18446744073709551615"), Some(u64::MAX));
    assert_eq!(parse_checksum("18446744073709551616"), None);
    assert_eq!(parse_checksum("99999999999999999999"), None);
    assert_eq!(parse_checksum(""), None);
    assert_eq!(parse_checksum("+"), None);
    assert_eq!(parse_checksum("-1"), None);
    assert_eq!(parse_checksum("12a"), None);
    assert_eq!(parse_checksum(" 12"), None);
    assert_eq!(parse_checksum("0x10"), None);
    assert_eq!(parse_checksum("１２"), None);
}

#[test]
fn parse_checksum_agrees_with_the_standard_parser() {
    for text in ["0", "1", "+5", "18446744073709551615", "18446744073709551616", "", "+", "++1", "1+", "-0", "3.5", "abc"] {
        assert_eq!(parse_checksum(text), text.parse::<u64>().ok());
    }
}

#[test]
fn diff_request_names_each_refusal() {
    let mut store = WorldStateStore::new();
    let start = store.current_checksum();
    store.update(map_of(&[entity(1, 0.0)]));
    assert_eq!(diff_request(&store, None), Err(DiffError::MissingSince));
    assert_eq!(diff_request(&store, Some("not-a-number")), Err(DiffError::ParseError));
    assert_eq!(diff_request(&store, Some("5")), Err(DiffError::UnknownChecksum));
    let text = format!("{}", start);
    let diff = diff_request(&store, Some(&text)).unwrap();
    assert_eq!(diff.added, vec![entity(1, 0.0)]);
}

#[test]
fn diff_errors_have_their_messages() {
    assert_eq!(DiffError::MissingSince.message(), "missing since query parameter");
    assert_eq!(DiffError::ParseError.message(), "invalid checksum format");
    assert_eq!(DiffError::UnknownChecksum.message(), "unknown checksum");
    assert_eq!(DiffError::ChecksumTooOld.message(), "requested checksum is too old");
}

fn rediff(before: &[EntitySnapshot], after: &[EntitySnapshot]) -> DiffEntry {
    let mut fresh = WorldStateStore::new();
    fresh.update(map_of(before));
    fresh.update(map_of(after));
    fresh.history_entry(1).clone()
}

#[test]
fn diff_since_matches_rediffing_the_snapshots_of_a_steady_run() {
    let states: Vec<Vec<EntitySnapshot>> = vec![
        vec![entity(1, 0.0), entity(2, 0.0), entity(3, 0.0)],
        vec![entity(1, 1.0), entity(2, 0.0), entity(3, 0.0)],
        vec![entity(1, 2.0), entity(2, 0.0), entity(4, 0.0)],
        vec![entity(1, 3.0), entity(2, 0.0), entity(4, 5.0), entity(5, 0.0)],
    ];
    let mut store = WorldStateStore::new();
    let mut checksums = Vec::new();
    for state in &states {
        store.update(map_of(state));
        checksums.push(store.current_checksum());
    }
    for k in 0..states.len() - 1 {
        let diff = store.diff_since(checksums[k]).unwrap();
        let direct = rediff(&states[k], &states[3]);
        assert_eq!(diff.added, direct.added);
        assert_eq!(diff.changed, direct.changed);
        assert_eq!(diff.removed, direct.removed);
    }
}

#[test]
fn a_change_that_is_undone_still_shows_in_the_chain_diff() {
    let mut store = WorldStateStore::new();
    store.update(map_of(&[entity(1, 0.0)]));
    let start = store.current_checksum();
    store.update(map_of(&[entity(1, 1.0)]));
    store.update(map_of(&[entity(1, 0.0)]));
    let diff = store.diff_since(start).unwrap();
    assert_eq!(diff.changed, vec![entity(1, 0.0)]);
    let direct = rediff(&[entity(1, 0.0)], &[entity(1, 0.0)]);
    assert!(direct.changed.is_empty());
}

#[test]
fn an_entity_that_went_and_came_back_shows_as_added() {
    let mut store = WorldStateStore::new();
    store.update(map_of(&[entity(1, 0.0)]));
    let start = store.current_checksum();
    store.update(map_of(&[]));
    store.update(map_of(&[entity(1, 0.0)]));
    let diff = store.diff_since(start).unwrap();
    assert_eq!(diff.added, vec![entity(1, 0.0)]);
    assert!(diff.changed.is_empty());
    assert!(diff.removed.is_empty());
}

#[test]
fn two_stores_given_the_same_states_hold_the_same() {
    let states: Vec<Vec<EntitySnapshot>> = vec![
        vec![entity(1, 0.0), entity(2, 0.0)],
        vec![entity(2, 1.0), entity(3, 0.0)],
        vec![],
        vec![entity(3, 2.0)],
    ];
    let mut first = WorldStateStore::new();
    let mut second = WorldStateStore::default();
    for state in &states {
        first.update(map_of(state));
        let mut backwards = state.clone();
        backwards.reverse();
        second.update(map_of(&backwards));
        assert_eq!(first.current_tick(), second.current_tick());
        assert_eq!(first.current_checksum(), second.current_checksum());
    }
    assert_eq!(first.history_len(), second.history_len());
    for i in 0..first.history_len() {
        assert_eq!(first.history_entry(i), second.history_entry(i));
    }
    assert_eq!(first.snapshot().entities, second.snapshot().entities);
}

#[test]
fn the_same_state_at_the_same_tick_has_the_same_checksum_whatever_came_before() {
    let mut first = WorldStateStore::new();
    let mut second = WorldStateStore::new();
    first.update(map_of(&[entity(1, 0.0)]));
    second.update(map_of(&[entity(5, 9.0), entity(6, 9.0)]));
    assert_ne!(first.current_checksum(), second.current_checksum());
    first.update(map_of(&[entity(1, 1.0), entity(2, 0.0)]));
    second.update(map_of(&[entity(2, 0.0), entity(1, 1.0)]));
    assert_eq!(first.current_checksum(), second.current_checksum());
    assert_eq!(first.snapshot().entities, second.snapshot().entities);
    assert_eq!(first.current_checksum(), checksum_for_state(2, &[entity(1, 1.0), entity(2, 0.0)]));
}

#[test]
fn one_changed_word_changes_the_checksum_of_an_update() {
    let mut first = WorldStateStore::new();
    let mut second = WorldStateStore::new();
    let mut moved = entity(2, 0.0);
    moved.vel = v(0.0, 0.0, 0.5);
    first.update(map_of(&[entity(1, 0.0), entity(2, 0.0)]));
    second.update(map_of(&[entity(1, 0.0), moved]));
    assert_ne!(first.current_checksum(), second.current_checksum());
}
