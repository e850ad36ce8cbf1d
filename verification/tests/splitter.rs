use octofact::game::world::EntityId;
use octofact::sim::splitter::{SplitterMode, SplitterPool};

/// Hands out fresh entity ids, as the world's allocator does.
struct Ids(u64);

impl Ids {
    fn insert(&mut self, _: ()) -> EntityId {
        self.0 += 1;
        EntityId(self.0)
    }
}

fn make_entity() -> (Ids, EntityId) {
    let mut sm = Ids(0);
    let id = sm.insert(());
    (sm, id)
}

#[test]
fn splitter_add_and_lookup() {
    let mut pool = SplitterPool::new();
    let (mut sm, e1) = make_entity();
    let e2 = sm.insert(());

    let idx1 = pool.add(e1);
    let idx2 = pool.add(e2);

    assert_eq!(idx1, 0);
    assert_eq!(idx2, 1);
    assert_eq!(pool.count(), 2);
    assert_eq!(pool.index_of(e1), Some(0));
    assert_eq!(pool.index_of(e2), Some(1));
}

#[test]
fn get_state() {
    let mut pool = SplitterPool::new();
    let (_, e1) = make_entity();
    pool.add(e1);

    let state = pool.get(e1).unwrap();
    assert_eq!(state.entity, e1);
    assert_eq!(state.mode, SplitterMode::Inactive);
    assert!(state.inputs.is_empty());
    assert!(state.outputs.is_empty());
}

#[test]
fn splitter_remove_swap() {
    let mut pool = SplitterPool::new();
    let mut sm = Ids(0);
    let e1 = sm.insert(());
    let e2 = sm.insert(());
    let e3 = sm.insert(());

    pool.add(e1);
    pool.add(e2);
    pool.add(e3);

    // Remove middle element — e3 should swap into index 1
    assert!(pool.remove(e2));
    assert_eq!(pool.count(), 2);
    assert_eq!(pool.index_of(e2), None);
    assert_eq!(pool.index_of(e1), Some(0));
    assert_eq!(pool.index_of(e3), Some(1));
}

#[test]
fn splitter_remove_last_no_swap() {
    let mut pool = SplitterPool::new();
    let (mut sm, e1) = make_entity();
    let e2 = sm.insert(());

    pool.add(e1);
    pool.add(e2);

    assert!(pool.remove(e2));
    assert_eq!(pool.count(), 1);
    assert_eq!(pool.index_of(e1), Some(0));
}

#[test]
fn splitter_remove_nonexistent() {
    let mut pool = SplitterPool::new();
    let (_, e1) = make_entity();
    assert!(!pool.remove(e1));
}

#[test]
fn detect_mode_inactive() {
    let mut pool = SplitterPool::new();
    let (_, e1) = make_entity();
    pool.add(e1);
    pool.detect_mode(e1);
    assert_eq!(pool.get(e1).unwrap().mode, SplitterMode::Inactive);
}

#[test]
fn detect_mode_merger() {
    let mut pool = SplitterPool::new();
    let (mut sm, e1) = make_entity();
    pool.add(e1);

    // Simulate 2 inputs, 1 output using belt entity IDs
    let b1 = sm.insert(());
    let b2 = sm.insert(());
    let b3 = sm.insert(());
    pool.add_input(e1, b1);
    pool.add_input(e1, b2);
    pool.add_output(e1, b3);

    pool.detect_mode(e1);
    assert_eq!(pool.get(e1).unwrap().mode, SplitterMode::Merger);
}

#[test]
fn detect_mode_splitter() {
    let mut pool = SplitterPool::new();
    let (mut sm, e1) = make_entity();
    pool.add(e1);

    let b1 = sm.insert(());
    let b2 = sm.insert(());
    let b3 = sm.insert(());
    pool.add_input(e1, b1);
    pool.add_output(e1, b2);
    pool.add_output(e1, b3);

    pool.detect_mode(e1);
    assert_eq!(pool.get(e1).unwrap().mode, SplitterMode::Splitter);
}

#[test]
fn detect_mode_balancer() {
    let mut pool = SplitterPool::new();
    let (mut sm, e1) = make_entity();
    pool.add(e1);

    let b1 = sm.insert(());
    let b2 = sm.insert(());
    let b3 = sm.insert(());
    let b4 = sm.insert(());
    pool.add_input(e1, b1);
    pool.add_input(e1, b2);
    pool.add_output(e1, b3);
    pool.add_output(e1, b4);

    pool.detect_mode(e1);
    assert_eq!(pool.get(e1).unwrap().mode, SplitterMode::Balancer);
}

#[test]
fn add_input_no_duplicates() {
    let mut pool = SplitterPool::new();
    let (mut sm, e1) = make_entity();
    pool.add(e1);

    let b1 = sm.insert(());
    pool.add_input(e1, b1);
    pool.add_input(e1, b1); // duplicate
    assert_eq!(pool.get(e1).unwrap().inputs.len(), 1);
}

#[test]
fn disconnect_belt_removes_from_both() {
    let mut pool = SplitterPool::new();
    let (mut sm, e1) = make_entity();
    pool.add(e1);

    let b1 = sm.insert(());
    let b2 = sm.insert(());
    pool.add_input(e1, b1);
    pool.add_output(e1, b2);

    pool.disconnect_belt(e1, b1);
    assert!(pool.get(e1).unwrap().inputs.is_empty());
    assert_eq!(pool.get(e1).unwrap().outputs.len(), 1);

    pool.disconnect_belt(e1, b2);
    assert!(pool.get(e1).unwrap().outputs.is_empty());
}

#[test]
fn one_in_one_out_passes_through_as_splitter() {
    let mut pool = SplitterPool::new();
    let s = EntityId(10);
    pool.add(s);
    pool.add_input(s, EntityId(1));
    pool.add_output(s, EntityId(2));
    pool.detect_mode(s);
    assert_eq!(pool.get(s).unwrap().mode, SplitterMode::Splitter);
    // three in, three out: mixed, treated as a splitter
    pool.add_input(s, EntityId(3));
    pool.add_input(s, EntityId(4));
    pool.add_output(s, EntityId(5));
    pool.add_output(s, EntityId(6));
    pool.detect_mode(s);
    assert_eq!(pool.get(s).unwrap().mode, SplitterMode::Splitter);
}

#[test]
fn unknown_splitter_changes_nothing() {
    let mut pool = SplitterPool::new();
    pool.add(EntityId(1));
    pool.add_input(EntityId(2), EntityId(3));
    pool.detect_mode(EntityId(2));
    assert!(pool.get(EntityId(2)).is_none());
    assert!(pool.get(EntityId(1)).unwrap().inputs.is_empty());
}
