use octofact::game::inventory::Inventory;
use octofact::game::items::ItemId;

#[test]
fn test_inventory_add_remove() {
    let mut inv = Inventory::new();
    inv.add(ItemId::Point, 10);
    assert_eq!(inv.count(ItemId::Point), 10);
    assert!(inv.remove(ItemId::Point, 5));
    assert_eq!(inv.count(ItemId::Point), 5);
    assert!(inv.remove(ItemId::Point, 5));
    assert_eq!(inv.count(ItemId::Point), 0);
}

#[test]
fn test_inventory_remove_insufficient() {
    let mut inv = Inventory::new();
    inv.add(ItemId::Point, 3);
    assert!(!inv.remove(ItemId::Point, 5));
    assert_eq!(inv.count(ItemId::Point), 3); // unchanged
}

#[test]
fn test_starting_inventory_contents() {
    let inv = Inventory::starting_inventory();
    assert_eq!(inv.count(ItemId::Belt), 1);
    assert_eq!(inv.count(ItemId::Quadrupole), 1);
    assert_eq!(inv.count(ItemId::Point), 0);
}

#[test]
fn test_non_empty_items() {
    let mut inv = Inventory::new();
    inv.add(ItemId::Belt, 5);
    inv.add(ItemId::Point, 10);
    let items = inv.non_empty_items();
    assert_eq!(items.len(), 2);
}

#[test]
fn inventory_test_remove_nonexistent() {
    let mut inv = Inventory::new();
    assert!(!inv.remove(ItemId::Cube, 1));
}

#[test]
fn add_then_remove_restores_count() {
    let mut inv = Inventory::starting_inventory();
    let before = inv.count(ItemId::Belt);
    inv.add(ItemId::Belt, 7);
    assert!(inv.remove(ItemId::Belt, 7));
    assert_eq!(inv.count(ItemId::Belt), before);
}

#[test]
fn non_empty_items_in_catalogue_order() {
    let mut inv = Inventory::new();
    inv.add(ItemId::Belt, 5);
    inv.add(ItemId::Point, 10);
    let items = inv.non_empty_items();
    assert_eq!(items, vec![(ItemId::Point, 10), (ItemId::Belt, 5)]);
}
