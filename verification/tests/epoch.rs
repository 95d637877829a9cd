//! Epoch resolution across forks, pruning, and the shared wrapper.

use epoch_changes::epoch_changes::{Epoch, EpochChanges, MapOracle, SharedEpochChanges};

fn epoch(index: u64, start_slot: u64) -> Epoch {
    Epoch { epoch_index: index, start_slot, duration: 100 }
}

// Chain layout: genesis (hash 1) with two forks; block B (hash 2) on fork
// one, block C (hash 3) on fork two diverging before B.
fn two_fork_oracle() -> MapOracle {
    MapOracle { descents: vec![(1, 2), (1, 3)], failures: Vec::new() }
}

fn two_fork_changes(o: &MapOracle) -> EpochChanges {
    let mut e = EpochChanges::new();
    assert!(e.import(1, 0, epoch(0, 0), o).is_ok());
    assert!(e.import(2, 10, epoch(1, 100), o).is_ok());
    assert!(e.import(3, 5, epoch(2, 150), o).is_ok());
    e
}

#[test]
fn resolves_the_applicable_epoch_per_fork_and_slot() {
    let o = two_fork_oracle();
    let e = two_fork_changes(&o);
    // a child of B at slot 120 is governed by the epoch signalled at B
    let at_b = e.epoch_for_child_of(2, 10, 120, &o).unwrap();
    assert_eq!(at_b, Some(epoch(1, 100)));
    // a child of C at slot 120 still runs under the genesis epoch, since
    // the epoch signalled at C only starts at slot 150
    let at_c_early = e.epoch_for_child_of(3, 5, 120, &o).unwrap();
    assert_eq!(at_c_early, Some(epoch(0, 0)));
    // at slot 160 the epoch signalled at C governs
    let at_c_late = e.epoch_for_child_of(3, 5, 160, &o).unwrap();
    assert_eq!(at_c_late, Some(epoch(2, 150)));
}

#[test]
fn no_recorded_transition_resolves_to_none() {
    let o = two_fork_oracle();
    let e = EpochChanges::new();
    assert_eq!(e.epoch_for_child_of(2, 10, 120, &o).unwrap(), None);
}

#[test]
fn raising_the_slot_never_resolves_to_an_earlier_epoch() {
    let o = two_fork_oracle();
    let e = two_fork_changes(&o);
    let mut last_start = 0;
    for slot in [0, 50, 99, 100, 120, 1000] {
        let got = e.epoch_for_child_of(2, 10, slot, &o).unwrap().unwrap();
        assert!(got.start_slot >= last_start);
        last_start = got.start_slot;
    }
}

#[test]
fn pruning_keeps_resolution_for_reachable_descendants() {
    let o = two_fork_oracle();
    let mut e = two_fork_changes(&o);
    let before = e.epoch_for_child_of(2, 10, 120, &o).unwrap();
    let pruned = e.prune_finalized(2, 10, &o).unwrap();
    assert!(pruned);
    // the incompatible fork is gone, the finalized chain resolves as before
    let after = e.epoch_for_child_of(2, 10, 120, &o).unwrap();
    assert_eq!(before, after);
    assert!(!e.inner.contains(3, 5));
    assert!(e.inner.contains(1, 0));
    assert!(e.inner.contains(2, 10));
}

#[test]
fn oracle_error_fails_the_query_without_effect() {
    let o = MapOracle { descents: vec![(1, 2)], failures: vec![(1, 2)] };
    let mut e = EpochChanges::new();
    let ok = MapOracle { descents: vec![(1, 2)], failures: Vec::new() };
    assert!(e.import(1, 0, epoch(0, 0), &ok).is_ok());
    assert!(e.import(2, 10, epoch(1, 100), &ok).is_ok());
    // the failing oracle breaks resolution for a child of block 2
    assert!(e.epoch_for_child_of(2, 10, 120, &o).is_err());
    // nothing changed: the good oracle still resolves
    assert_eq!(e.epoch_for_child_of(2, 10, 120, &ok).unwrap(), Some(epoch(1, 100)));
}

#[test]
fn shared_instance_serializes_use() {
    let o = two_fork_oracle();
    let shared = SharedEpochChanges::new();
    let (mut value, handle) = shared.lock();
    assert!(value.import(1, 0, epoch(0, 0), &o).is_ok());
    SharedEpochChanges::unlock(handle, value);
    let (value, handle) = shared.lock();
    let got = value.epoch_for_child_of(1, 0, 7, &o).unwrap();
    assert_eq!(got, Some(epoch(0, 0)));
    SharedEpochChanges::unlock(handle, value);
}

#[test]
fn shared_instance_from_existing_changes() {
    let o = two_fork_oracle();
    let e = two_fork_changes(&o);
    let shared = SharedEpochChanges::from(e);
    let (value, handle) = shared.lock();
    assert_eq!(value.epoch_for_child_of(2, 10, 120, &o).unwrap(), Some(epoch(1, 100)));
    SharedEpochChanges::unlock(handle, value);
}
