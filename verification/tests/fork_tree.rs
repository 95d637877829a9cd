//! The forest's import, search and pruning behaviour, driven by a fake
//! ancestry oracle.

use epoch_changes::epoch_changes::{Epoch, MapOracle};
use epoch_changes::fork_tree::{Error, ForkTree, OracleError};

fn epoch(index: u64, start_slot: u64) -> Epoch {
    Epoch { epoch_index: index, start_slot, duration: 100 }
}

fn oracle(descents: &[(u64, u64)]) -> MapOracle {
    MapOracle { descents: descents.to_vec(), failures: Vec::new() }
}

#[test]
fn sequential_imports_link_parent_and_child() {
    // importing X then a strict descendant Y must link them, not make two
    // roots
    let o = oracle(&[(1, 2)]);
    let mut t: ForkTree<Epoch> = ForkTree::new();
    assert!(t.import(1, 5, epoch(0, 0), &o).is_ok());
    assert!(t.import(2, 6, epoch(1, 10), &o).is_ok());
    assert_eq!(t.roots.len(), 1);
    assert_eq!(t.roots[0].hash, 1);
    assert_eq!(t.roots[0].children.len(), 1);
    assert_eq!(t.roots[0].children[0].hash, 2);
}

#[test]
fn unrelated_imports_become_roots() {
    let o = oracle(&[]);
    let mut t: ForkTree<Epoch> = ForkTree::new();
    assert!(t.import(1, 5, epoch(0, 0), &o).is_ok());
    assert!(t.import(9, 5, epoch(1, 0), &o).is_ok());
    assert_eq!(t.roots.len(), 2);
}

#[test]
fn late_import_reparents_intermediate_node() {
    // grandparent and grandchild first; the block between them re-homes the
    // grandchild on import
    let o = oracle(&[(1, 2), (1, 3), (2, 3)]);
    let mut t: ForkTree<Epoch> = ForkTree::new();
    assert!(t.import(1, 1, epoch(0, 0), &o).is_ok());
    assert!(t.import(3, 3, epoch(2, 20), &o).is_ok());
    assert!(t.import(2, 2, epoch(1, 10), &o).is_ok());
    assert_eq!(t.roots.len(), 1);
    assert_eq!(t.roots[0].children.len(), 1);
    let mid = &t.roots[0].children[0];
    assert_eq!(mid.hash, 2);
    assert_eq!(mid.children.len(), 1);
    assert_eq!(mid.children[0].hash, 3);
}

#[test]
fn duplicate_import_is_refused() {
    let o = oracle(&[]);
    let mut t: ForkTree<Epoch> = ForkTree::new();
    assert!(t.import(1, 5, epoch(0, 0), &o).is_ok());
    assert_eq!(t.import(1, 5, epoch(0, 0), &o), Err(Error::Duplicate));
    assert!(t.contains(1, 5));
}

#[test]
fn oracle_error_leaves_import_without_effect() {
    let o = MapOracle { descents: vec![(1, 2)], failures: vec![(1, 3)] };
    let mut t: ForkTree<Epoch> = ForkTree::new();
    assert!(t.import(1, 1, epoch(0, 0), &o).is_ok());
    let r = t.import(3, 3, epoch(1, 10), &o);
    assert_eq!(r, Err(Error::Oracle(OracleError { code: 0 })));
    assert!(t.contains(1, 1));
    assert!(!t.contains(3, 3));
    assert_eq!(t.roots.len(), 1);
    assert_eq!(t.roots[0].children.len(), 0);
}

#[test]
fn finalize_prunes_incompatible_forks() {
    // genesis with two competing children; finalizing one drops the other
    let o = oracle(&[(1, 2), (1, 3)]);
    let mut t: ForkTree<Epoch> = ForkTree::new();
    assert!(t.import(1, 1, epoch(0, 0), &o).is_ok());
    assert!(t.import(2, 2, epoch(1, 10), &o).is_ok());
    assert!(t.import(3, 2, epoch(2, 10), &o).is_ok());
    let pruned = t.finalize(2, 2, &o).unwrap();
    assert!(pruned);
    assert!(t.contains(1, 1));
    assert!(t.contains(2, 2));
    assert!(!t.contains(3, 2));
    // the retained ancestor is the single root
    assert_eq!(t.roots.len(), 1);
    assert_eq!(t.roots[0].hash, 1);
}

#[test]
fn finalize_without_changes_reports_nothing_pruned() {
    let o = oracle(&[(1, 2)]);
    let mut t: ForkTree<Epoch> = ForkTree::new();
    assert!(t.import(1, 1, epoch(0, 0), &o).is_ok());
    assert!(t.import(2, 2, epoch(1, 10), &o).is_ok());
    let pruned = t.finalize(2, 2, &o).unwrap();
    assert!(!pruned);
    assert!(t.contains(1, 1) && t.contains(2, 2));
}

#[test]
fn oracle_error_leaves_finalize_without_effect() {
    let o = MapOracle { descents: vec![(1, 2)], failures: vec![(1, 9)] };
    let mut t: ForkTree<Epoch> = ForkTree::new();
    assert!(t.import(1, 1, epoch(0, 0), &o).is_ok());
    assert!(t.import(2, 2, epoch(1, 10), &o).is_ok());
    let r = t.finalize(9, 9, &o);
    assert!(r.is_err());
    assert!(t.contains(1, 1) && t.contains(2, 2));
    assert_eq!(t.roots.len(), 1);
}
