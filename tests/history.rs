use recursive_remote::history::{
    missing_states, materialize_ordered_pack_list, ratchet, valid_path_exists, HistoryError, RatchetError, Reconcile,
    StateGraph, StateNode,
};
use recursive_remote::model::{BlobRef, PackRef, ResourceKey};

fn h(n: u8) -> Vec<u8> {
    vec![n; 32]
}

fn pack(n: u8) -> PackRef {
    PackRef {
        blob_ref: BlobRef { resource_key: ResourceKey::Git(vec![vec![n; 20]]), sha256: vec![n; 32] },
        random_name: vec![n; 20],
    }
}

fn node(n: u8, parents: &[u8]) -> StateNode {
    StateNode { sha256: h(n), parents: Some(parents.iter().map(|p| h(*p)).collect()), pack: Some(pack(n)) }
}

// 1 <- 2 <- 3, and 4 on its own.
fn chain() -> StateGraph {
    let mut g = StateGraph::new();
    assert!(g.add(node(1, &[])));
    assert!(g.add(node(2, &[1])));
    assert!(g.add(node(3, &[2])));
    assert!(g.add(node(4, &[])));
    g
}

#[test]
fn ratchet_advances_to_descendant() {
    let g = chain();
    assert_eq!(ratchet(&g, Some(&h(1)), Some(&h(3))), Ok(Reconcile::Advance));
    assert_eq!(ratchet(&g, Some(&h(3)), Some(&h(3))), Ok(Reconcile::Advance));
}

#[test]
fn ratchet_refuses_unrelated_and_older() {
    let g = chain();
    assert_eq!(ratchet(&g, Some(&h(4)), Some(&h(3))), Err(RatchetError::RatchetError));
    assert_eq!(ratchet(&g, Some(&h(3)), Some(&h(1))), Err(RatchetError::RatchetError));
}

#[test]
fn ratchet_absent_sides() {
    let g = chain();
    assert_eq!(ratchet(&g, None, None), Ok(Reconcile::Empty));
    assert_eq!(ratchet(&g, None, Some(&h(3))), Ok(Reconcile::Adopt));
    assert_eq!(ratchet(&g, Some(&h(3)), None), Ok(Reconcile::Drop));
}

#[test]
fn ratchet_split_brain() {
    // The upstream tip 6 descends from 5, which does not descend from the local tip 2.
    let mut g = chain();
    g.add(node(5, &[1]));
    g.add(node(6, &[5]));
    assert_eq!(ratchet(&g, Some(&h(2)), Some(&h(6))), Err(RatchetError::RatchetError));
    assert!(valid_path_exists(&g, &h(1), &h(6)));
}

#[test]
fn undecodable_states_are_skipped() {
    let mut g = StateGraph::new();
    g.add(node(1, &[]));
    g.add(StateNode { sha256: h(2), parents: None, pack: None });
    g.add(node(3, &[2, 1]));
    assert!(valid_path_exists(&g, &h(1), &h(3)));
    let mut g2 = StateGraph::new();
    g2.add(node(1, &[]));
    g2.add(StateNode { sha256: h(2), parents: None, pack: None });
    g2.add(node(3, &[2]));
    assert!(!valid_path_exists(&g2, &h(1), &h(3)));
}

#[test]
fn cycles_terminate() {
    let mut g = StateGraph::new();
    g.add(node(1, &[2]));
    g.add(node(2, &[1]));
    assert!(!valid_path_exists(&g, &h(9), &h(1)));
    assert!(valid_path_exists(&g, &h(2), &h(1)));
}

#[test]
fn missing_states_lists_unloaded_parents() {
    let mut g = StateGraph::new();
    g.add(node(3, &[2, 7]));
    g.add(node(2, &[1]));
    let mut m = missing_states(&g, &h(3), None);
    m.sort();
    assert_eq!(m, vec![h(1), h(7)]);
}

#[test]
fn duplicate_states_are_not_added() {
    let mut g = chain();
    assert!(!g.add(node(2, &[])));
    assert_eq!(g.nodes.len(), 4);
}

#[test]
fn pack_list_stops_at_basis() {
    let g = chain();
    let all = materialize_ordered_pack_list(&g, &h(3), None).ok().unwrap();
    let names: Vec<u8> = all.iter().map(|p| p.random_name[0]).collect();
    assert_eq!(names, vec![3, 2, 1]);
    let newer = materialize_ordered_pack_list(&g, &h(3), Some(&h(2))).ok().unwrap();
    let names: Vec<u8> = newer.iter().map(|p| p.random_name[0]).collect();
    assert_eq!(names, vec![3]);
}

#[test]
fn pack_list_needs_every_state() {
    let mut g = StateGraph::new();
    g.add(node(3, &[2]));
    assert_eq!(materialize_ordered_pack_list(&g, &h(3), None).err(), Some(HistoryError::Missing));
    g.add(StateNode { sha256: h(2), parents: None, pack: None });
    assert_eq!(materialize_ordered_pack_list(&g, &h(3), None).err(), Some(HistoryError::Undecodable));
}

#[test]
fn missing_states_stop_at_basis() {
    let mut g = StateGraph::new();
    g.add(node(3, &[2]));
    g.add(node(2, &[1]));
    assert_eq!(missing_states(&g, &h(3), Some(&h(2))), Vec::<Vec<u8>>::new());
    assert_eq!(missing_states(&g, &h(3), None), vec![h(1)]);
}

#[test]
fn pack_list_follows_parents_in_stored_order() {
    // 4 merges 2 and 3, which both descend from 1: the last parent is walked first.
    let mut g = StateGraph::new();
    g.add(node(1, &[]));
    g.add(node(2, &[1]));
    g.add(node(3, &[1]));
    g.add(node(4, &[2, 3]));
    let packs = materialize_ordered_pack_list(&g, &h(4), None).ok().unwrap();
    let names: Vec<u8> = packs.iter().map(|p| p.random_name[0]).collect();
    assert_eq!(names, vec![4, 3, 1, 2]);
}
