use octofact::game::blueprint::{BlueprintEntry, Clipboard};
use octofact::game::inventory::Inventory;
use octofact::game::items::{ItemId, MachineType};
use octofact::game::paste::{paste_order_of, paste_refusal, PasteRefusal};
use octofact::game::world::{Direction, StructureKind, WorldState};

fn entry(x: i32, y: i32, kind: StructureKind) -> BlueprintEntry {
    BlueprintEntry { offset: (x, y), kind, direction: Direction::East, items: Vec::new(), recipe: None }
}

fn clip(entries: Vec<BlueprintEntry>) -> Clipboard {
    Clipboard { entries, width: 8, height: 8, tiling_q: 5 }
}

#[test]
fn paste_places_buildings_before_belts() {
    let c = clip(vec![
        entry(0, 0, StructureKind::Belt),
        entry(1, 0, StructureKind::Machine(MachineType::Composer)),
        entry(5, 0, StructureKind::Belt),
        entry(6, 0, StructureKind::Splitter),
    ]);
    assert_eq!(paste_order_of(&c), vec![1, 3, 0, 2]);
}

#[test]
fn paste_refused_on_collision() {
    let mut world = WorldState::new();
    world.place(&[0], (5, 5), ItemId::Belt, Direction::North).unwrap();
    let c = clip(vec![entry(0, 0, StructureKind::Belt)]);
    let inv = Inventory::new();
    assert_eq!(paste_refusal(&world, &[0], (5, 5), &c, &inv, true), Some(PasteRefusal::Collision));
    assert_eq!(paste_refusal(&world, &[0], (6, 5), &c, &inv, true), None);
}

#[test]
fn paste_refused_when_items_are_short() {
    let world = WorldState::new();
    let c = clip(vec![entry(0, 0, StructureKind::Belt), entry(1, 0, StructureKind::Belt)]);
    let mut inv = Inventory::new();
    inv.add(ItemId::Belt, 1);
    assert_eq!(
        paste_refusal(&world, &[0], (0, 0), &c, &inv, false),
        Some(PasteRefusal::Short { item: ItemId::Belt, missing: 1 })
    );
    assert_eq!(paste_refusal(&world, &[0], (0, 0), &c, &inv, true), None);
    inv.add(ItemId::Belt, 1);
    assert_eq!(paste_refusal(&world, &[0], (0, 0), &c, &inv, false), None);
}
