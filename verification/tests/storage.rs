use octofact::game::items::ItemId;
use octofact::game::world::EntityId;
use octofact::sim::storage::{StoragePool, STORAGE_SLOTS, STORAGE_STACK_SIZE};

fn make_entity() -> ((), EntityId) {
    ((), EntityId(1))
}

#[test]
fn storage_add_and_lookup() {
    let mut pool = StoragePool::new();
    let (_, e1) = make_entity();
    pool.add(e1);

    let state = pool.get(e1).unwrap();
    assert_eq!(state.entity, e1);
    // All slots should be empty
    for slot in &state.slots {
        assert_eq!(slot.count, 0);
    }
}

#[test]
fn remove_returns_true() {
    let mut pool = StoragePool::new();
    let (_, e1) = make_entity();
    pool.add(e1);
    assert!(pool.remove(e1));
    assert!(pool.get(e1).is_none());
}

#[test]
fn storage_remove_nonexistent() {
    let mut pool = StoragePool::new();
    let (_, e1) = make_entity();
    assert!(!pool.remove(e1));
}

#[test]
fn storage_remove_swap() {
    let mut pool = StoragePool::new();
    let e1 = EntityId(1);
    let e2 = EntityId(2);
    let e3 = EntityId(3);

    pool.add(e1);
    pool.add(e2);
    pool.add(e3);

    // Remove middle — e3 should swap into index 1
    assert!(pool.remove(e2));
    assert!(pool.get(e1).is_some());
    assert!(pool.get(e2).is_none());
    assert!(pool.get(e3).is_some());
}

#[test]
fn slot_constants() {
    assert_eq!(STORAGE_SLOTS, 20);
    assert_eq!(STORAGE_STACK_SIZE, 50);
}

#[test]
fn accept_input_into_empty_slot() {
    let mut pool = StoragePool::new();
    let (_, e1) = make_entity();
    pool.add(e1);

    assert!(pool.accept_input(e1, ItemId::Point, 1));
    let state = pool.get(e1).unwrap();
    assert_eq!(state.slots[0].item, ItemId::Point);
    assert_eq!(state.slots[0].count, 1);
}

#[test]
fn accept_input_stacks_same_item() {
    let mut pool = StoragePool::new();
    let (_, e1) = make_entity();
    pool.add(e1);

    assert!(pool.accept_input(e1, ItemId::Point, 1));
    assert!(pool.accept_input(e1, ItemId::Point, 1));
    let state = pool.get(e1).unwrap();
    assert_eq!(state.slots[0].item, ItemId::Point);
    assert_eq!(state.slots[0].count, 2);
}

#[test]
fn accept_input_mixed_items_separate_slots() {
    let mut pool = StoragePool::new();
    let (_, e1) = make_entity();
    pool.add(e1);

    assert!(pool.accept_input(e1, ItemId::Point, 1));
    assert!(pool.accept_input(e1, ItemId::LineSegment, 1));
    assert!(pool.accept_input(e1, ItemId::NullSet, 1));

    let state = pool.get(e1).unwrap();
    assert_eq!(state.slots[0].item, ItemId::Point);
    assert_eq!(state.slots[0].count, 1);
    assert_eq!(state.slots[1].item, ItemId::LineSegment);
    assert_eq!(state.slots[1].count, 1);
    assert_eq!(state.slots[2].item, ItemId::NullSet);
    assert_eq!(state.slots[2].count, 1);
}

#[test]
fn accept_input_rejects_when_all_slots_full() {
    let mut pool = StoragePool::new();
    let (_, e1) = make_entity();
    pool.add(e1);

    // Fill all slots with Point at max stack size
    {
        let state = pool.get_mut(e1).unwrap();
        for slot in state.slots.iter_mut() {
            slot.item = ItemId::Point;
            slot.count = STORAGE_STACK_SIZE;
        }
    }

    // Now trying to add more Points should fail (all at max stack)
    assert!(!pool.accept_input(e1, ItemId::Point, 1));
    // And a different item should also fail (no empty slots)
    assert!(!pool.accept_input(e1, ItemId::LineSegment, 1));
}

#[test]
fn provide_output_from_nonempty() {
    let mut pool = StoragePool::new();
    let (_, e1) = make_entity();
    pool.add(e1);

    pool.accept_input(e1, ItemId::Point, 3);
    let item = pool.provide_output(e1);
    assert_eq!(item, Some(ItemId::Point));
    assert_eq!(pool.get(e1).unwrap().slots[0].count, 2);
}

#[test]
fn provide_output_returns_none_when_empty() {
    let mut pool = StoragePool::new();
    let (_, e1) = make_entity();
    pool.add(e1);

    assert_eq!(pool.provide_output(e1), None);
}

#[test]
fn provide_output_drains_first_nonempty_slot() {
    let mut pool = StoragePool::new();
    let (_, e1) = make_entity();
    pool.add(e1);

    pool.accept_input(e1, ItemId::Point, 1);
    pool.accept_input(e1, ItemId::LineSegment, 1);

    // Should drain from slot 0 (Point) first
    assert_eq!(pool.provide_output(e1), Some(ItemId::Point));
    // Slot 0 is now empty, next should be slot 1 (LineSegment)
    assert_eq!(pool.provide_output(e1), Some(ItemId::LineSegment));
    // Now both empty
    assert_eq!(pool.provide_output(e1), None);
}

#[test]
fn full_stack_spills_into_next_slot() {
    let mut pool = StoragePool::new();
    let e = EntityId(9);
    pool.add(e);
    assert!(pool.accept_input(e, ItemId::Cube, 48));
    // 48 + 3 > 50: goes to the next empty slot
    assert!(pool.accept_input(e, ItemId::Cube, 3));
    let s = pool.get(e).unwrap();
    assert_eq!(s.slots[0].count, 48);
    assert_eq!(s.slots[1].item, ItemId::Cube);
    assert_eq!(s.slots[1].count, 3);
    // exactly to the limit stacks
    assert!(pool.accept_input(e, ItemId::Cube, 2));
    assert_eq!(pool.get(e).unwrap().slots[0].count, 50);
}

#[test]
fn unknown_storage_accepts_nothing() {
    let mut pool = StoragePool::new();
    assert!(!pool.accept_input(EntityId(4), ItemId::Point, 1));
    assert_eq!(pool.provide_output(EntityId(4)), None);
}
