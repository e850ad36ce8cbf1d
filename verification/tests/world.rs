use octofact::game::items::{ItemId, MachineType};
use octofact::game::world::{Direction, StructureKind, WorldState};

#[test]
fn test_direction_rotate_cw() {
    assert_eq!(Direction::North.rotate_cw(), Direction::East);
    assert_eq!(Direction::East.rotate_cw(), Direction::South);
    assert_eq!(Direction::South.rotate_cw(), Direction::West);
    assert_eq!(Direction::West.rotate_cw(), Direction::North);
}

#[test]
fn test_direction_arrow_char() {
    assert_eq!(Direction::North.arrow_char(), '\u{2191}');
    assert_eq!(Direction::East.arrow_char(), '\u{2192}');
    assert_eq!(Direction::South.arrow_char(), '\u{2193}');
    assert_eq!(Direction::West.arrow_char(), '\u{2190}');
}

#[test]
fn place_then_get() {
    let mut world = WorldState::new();
    let addr = vec![0, 1];
    let e = world.place(&addr, (5, 10), ItemId::Belt, Direction::North).unwrap();
    assert_eq!(world.entity_at(&addr, (5, 10)), Some(e));
    assert_eq!(world.kind(e), Some(StructureKind::Belt));
    assert_eq!(world.direction(e), Some(Direction::North));
    assert!(world.is_origin(e, 5, 10));
    assert_eq!(world.entity_at(&[0, 2], (5, 10)), None);
}

#[test]
fn place_on_occupied_cell_fails() {
    let mut world = WorldState::new();
    let addr = vec![0];
    assert!(world.place(&addr, (0, 0), ItemId::Belt, Direction::North).is_some());
    assert!(world.place(&addr, (0, 0), ItemId::Quadrupole, Direction::East).is_none());
}

#[test]
fn multi_cell_footprint_occupies_all_cells() {
    let mut world = WorldState::new();
    let addr = vec![3];
    let e = world.place(&addr, (0, 0), ItemId::Inverter, Direction::North).unwrap();
    for y in 0..3 {
        for x in 0..3 {
            assert_eq!(world.entity_at(&addr, (x, y)), Some(e));
        }
    }
    assert_eq!(world.entity_at(&addr, (3, 0)), None);
    assert_eq!(world.kind(e), Some(StructureKind::Machine(MachineType::Inverter)));
    assert!(!world.is_origin(e, 1, 1));
    // overlapping placement fails
    assert!(world.place(&addr, (2, 2), ItemId::Belt, Direction::East).is_none());
}

#[test]
fn remove_then_cell_is_free() {
    let mut world = WorldState::new();
    let addr = vec![2];
    world.place(&addr, (1, 1), ItemId::Belt, Direction::South).unwrap();
    let removed = world.remove(&addr, (1, 1));
    assert!(removed.is_some());
    assert_eq!(removed.unwrap().item, ItemId::Belt);
    assert_eq!(world.entity_at(&addr, (1, 1)), None);
}

#[test]
fn world_test_remove_nonexistent() {
    let mut world = WorldState::new();
    assert!(world.remove(&[0], (0, 0)).is_none());
}

#[test]
fn item_without_structure_is_not_placed() {
    let mut world = WorldState::new();
    assert!(world.place(&[0], (0, 0), ItemId::Point, Direction::North).is_none());
    assert_eq!(world.entity_at(&[0], (0, 0)), None);
}

#[test]
fn rotate_entity_in_place() {
    let mut world = WorldState::new();
    let e = world.place(&[0], (4, 4), ItemId::Belt, Direction::West).unwrap();
    assert_eq!(world.rotate_cw(e), Some(Direction::North));
    assert_eq!(world.direction(e), Some(Direction::North));
}

#[test]
fn direction_rotations_compose() {
    for d in [Direction::North, Direction::East, Direction::South, Direction::West] {
        assert_eq!(d.rotate_cw().rotate_cw().rotate_cw().rotate_cw(), d);
        assert_eq!(d.opposite(), d.rotate_cw().rotate_cw());
        assert_eq!(Direction::North.rotate_n_cw(d.rotations_from_north()), d);
    }
}
