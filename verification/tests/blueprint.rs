use octofact::game::blueprint::{
    footprint_touches_vertex, is_vertex_cell, required_items, sanitize_name,
    tile_local_to_virtual, virtual_to_tile_local, BlueprintEntry, BlueprintFile, Clipboard,
};
use octofact::game::blueprint::{validate_blueprint, BlueprintLoadError};
use octofact::game::blueprint::{can_paste, capture_region, capture_strip};
use octofact::game::world::WorldState;
use octofact::sim::machine::MachinePool;
use octofact::sim::storage::StoragePool;
use octofact::game::items::{ItemId, MachineType};
use octofact::game::world::{Direction, StructureKind};

fn make_belt_clipboard(offsets: &[(i32, i32, Direction)], w: i32, h: i32) -> Clipboard {
    Clipboard {
        entries: offsets
            .iter()
            .map(|&(x, y, dir)| BlueprintEntry {
                offset: (x, y),
                kind: StructureKind::Belt,
                direction: dir,
                items: Vec::new(),
                recipe: None,
            })
            .collect(),
        width: w,
        height: h,
        tiling_q: 5,
    }
}

#[test]
fn rotate_cw_single_belt() {
    // Belt at (0,0) in 1x1 bounding box facing East
    let mut clip = make_belt_clipboard(&[(0, 0, Direction::East)], 1, 1);
    clip.rotate_cw();
    assert_eq!(clip.entries[0].offset, (0, 0));
    assert_eq!(clip.entries[0].direction, Direction::South);
    assert_eq!(clip.width, 1);
    assert_eq!(clip.height, 1);
}

#[test]
fn rotate_cw_identity_after_4() {
    // 4 rotations should return to original
    let mut clip = make_belt_clipboard(
        &[(0, 0, Direction::North), (2, 1, Direction::East)],
        3,
        2,
    );
    let original_entries: Vec<_> = clip.entries.iter().map(|e| (e.offset, e.direction)).collect();
    let orig_w = clip.width;
    let orig_h = clip.height;
    for _ in 0..4 {
        clip.rotate_cw();
    }
    assert_eq!(clip.width, orig_w);
    assert_eq!(clip.height, orig_h);
    for (i, entry) in clip.entries.iter().enumerate() {
        assert_eq!(entry.offset, original_entries[i].0, "entry {i} offset");
        assert_eq!(entry.direction, original_entries[i].1, "entry {i} direction");
    }
}

#[test]
fn rotate_cw_line_of_belts() {
    // 3 belts in a horizontal line: (0,0), (1,0), (2,0) in a 3x1 box
    let mut clip = make_belt_clipboard(
        &[
            (0, 0, Direction::East),
            (1, 0, Direction::East),
            (2, 0, Direction::East),
        ],
        3,
        1,
    );
    clip.rotate_cw();
    // After 90° CW, 3x1 → 1x3, belts should be vertical
    assert_eq!(clip.width, 1);
    assert_eq!(clip.height, 3);
    // (0,0) in 3x1 → rotate_cell(0,0,3,1) = (1-1-0, 0) = (0,0)
    assert_eq!(clip.entries[0].offset, (0, 0));
    // (1,0) → rotate_cell(1,0,3,1) = (0,1)
    assert_eq!(clip.entries[1].offset, (0, 1));
    // (2,0) → rotate_cell(2,0,3,1) = (0,2)
    assert_eq!(clip.entries[2].offset, (0, 2));
    // All should now face South (East rotated CW)
    for entry in &clip.entries {
        assert_eq!(entry.direction, Direction::South);
    }
}

#[test]
fn rotate_cw_2x2_machine() {
    // Composer (2x2) at (0,0) in a 2x2 bounding box
    let mut clip = Clipboard {
        entries: vec![BlueprintEntry {
            offset: (0, 0),
            kind: StructureKind::Machine(MachineType::Composer),
            direction: Direction::North,
            items: Vec::new(),
            recipe: None,
        }],
        width: 2,
        height: 2,
        tiling_q: 5,
    };
    clip.rotate_cw();
    // 2x2 in 2x2 box: should stay at (0,0)
    assert_eq!(clip.entries[0].offset, (0, 0));
    assert_eq!(clip.entries[0].direction, Direction::East);
    assert_eq!(clip.width, 2);
    assert_eq!(clip.height, 2);
}

#[test]
fn required_items_tallies_correctly() {
    let clip = Clipboard {
        entries: vec![
            BlueprintEntry {
                offset: (0, 0),
                kind: StructureKind::Belt,
                direction: Direction::North,
                items: Vec::new(),
                recipe: None,
            },
            BlueprintEntry {
                offset: (1, 0),
                kind: StructureKind::Belt,
                direction: Direction::North,
                items: Vec::new(),
                recipe: None,
            },
            BlueprintEntry {
                offset: (0, 1),
                kind: StructureKind::Machine(MachineType::Composer),
                direction: Direction::North,
                items: Vec::new(),
                recipe: Some(0),
            },
        ],
        width: 3,
        height: 3,
        tiling_q: 5,
    };
    let items = required_items(&clip);
    let belt_count = items.iter().find(|&&(id, _)| id == ItemId::Belt).map(|&(_, c)| c).unwrap_or(0);
    let composer_count = items.iter().find(|&&(id, _)| id == ItemId::Composer).map(|&(_, c)| c).unwrap_or(0);
    assert_eq!(belt_count, 2);
    assert_eq!(composer_count, 1);
}

#[test]
fn virtual_to_tile_local_center() {
    // Within the anchor tile
    assert_eq!(virtual_to_tile_local(0), (0, 0));
    assert_eq!(virtual_to_tile_local(10), (0, 10));
    assert_eq!(virtual_to_tile_local(-10), (0, -10));
    assert_eq!(virtual_to_tile_local(31), (0, 31));
    assert_eq!(virtual_to_tile_local(-32), (0, -32));
}

#[test]
fn virtual_to_tile_local_next_tile() {
    // Just past the positive edge: v=32 → tile_delta=1, local=-32
    assert_eq!(virtual_to_tile_local(32), (1, -32));
    assert_eq!(virtual_to_tile_local(33), (1, -31));
    assert_eq!(virtual_to_tile_local(95), (1, 31));
    // Two tiles away
    assert_eq!(virtual_to_tile_local(96), (2, -32));
}

#[test]
fn virtual_to_tile_local_negative_tile() {
    // Past the negative edge: v=-33 → tile_delta=-1, local=31
    assert_eq!(virtual_to_tile_local(-33), (-1, 31));
    assert_eq!(virtual_to_tile_local(-96), (-1, -32));
    assert_eq!(virtual_to_tile_local(-97), (-2, 31));
}

#[test]
fn virtual_roundtrip() {
    for v in -200..=200 {
        let (td, local) = virtual_to_tile_local(v);
        let back = tile_local_to_virtual(td, local);
        assert_eq!(back, v, "roundtrip failed for v={v}");
    }
}

#[test]
fn shared_edge_consistency() {
    // Shared edge: tile k at gx=32 should equal tile k+1 at gx=-32
    // v = tile_local_to_virtual(0, 32) = 32
    // v = tile_local_to_virtual(1, -32) = 64 + (-32) = 32
    let v1 = tile_local_to_virtual(0, 32);
    let v2 = tile_local_to_virtual(1, -32);
    assert_eq!(v1, v2);
}

#[test]
fn is_vertex_cell_corners() {
    assert!(is_vertex_cell(32, 32));
    assert!(is_vertex_cell(-32, 32));
    assert!(is_vertex_cell(32, -32));
    assert!(is_vertex_cell(-32, -32));
}

#[test]
fn is_vertex_cell_non_corners() {
    assert!(!is_vertex_cell(0, 0));
    assert!(!is_vertex_cell(32, 0));
    assert!(!is_vertex_cell(0, 32));
    assert!(!is_vertex_cell(31, 32));
    assert!(!is_vertex_cell(32, 31));
}

#[test]
fn footprint_1x1_at_corner() {
    assert!(footprint_touches_vertex(32, 32, StructureKind::Belt, Direction::North));
    assert!(!footprint_touches_vertex(31, 31, StructureKind::Belt, Direction::North));
}

#[test]
fn footprint_2x2_near_corner() {
    // Composer at (31, 31) occupies (31,31), (32,31), (31,32), (32,32) — touches vertex
    assert!(footprint_touches_vertex(31, 31, StructureKind::Machine(MachineType::Composer), Direction::North));
    // Composer at (30, 30) occupies (30,30)-(31,31) — no vertex
    assert!(!footprint_touches_vertex(30, 30, StructureKind::Machine(MachineType::Composer), Direction::North));
}

#[test]
fn rotate_cw_multi_tile_swaps_axis() {
    // A 2-tile horizontal clipboard (width=65, height=3) should become
    // 2-tile vertical (width=3, height=65) after rotation
    let mut clip = Clipboard {
        entries: vec![
            BlueprintEntry {
                offset: (0, 0),
                kind: StructureKind::Belt,
                direction: Direction::East,
                items: Vec::new(),
                recipe: None,
            },
            BlueprintEntry {
                offset: (64, 0),
                kind: StructureKind::Belt,
                direction: Direction::East,
                items: Vec::new(),
                recipe: None,
            },
        ],
        width: 65,
        height: 3,
        tiling_q: 5,
    };
    clip.rotate_cw();
    // Width and height swap
    assert_eq!(clip.width, 3);
    assert_eq!(clip.height, 65);
    // After rotation, a multi-tile x-strip becomes a multi-tile y-strip
    assert!(clip.height > 64); // confirms y-axis strip
}

fn sample_clipboard() -> Clipboard {
    Clipboard {
        entries: vec![
            BlueprintEntry {
                offset: (0, 0),
                kind: StructureKind::Belt,
                direction: Direction::East,
                items: Vec::new(),
                recipe: None,
            },
            BlueprintEntry {
                offset: (1, 0),
                kind: StructureKind::Machine(MachineType::Composer),
                direction: Direction::South,
                items: Vec::new(),
                recipe: Some(2),
            },
            BlueprintEntry {
                offset: (0, 1),
                kind: StructureKind::Storage,
                direction: Direction::North,
                items: vec![(ItemId::Point, 10), (ItemId::LineSegment, 5)],
                recipe: None,
            },
        ],
        width: 3,
        height: 2,
        tiling_q: 5,
    }
}

#[test]
fn blueprint_to_clipboard_roundtrip() {
    let clip = sample_clipboard();
    let file = BlueprintFile::from_clipboard(&clip, "rt".to_string());
    let restored = file.to_clipboard();
    assert_eq!(restored.width, clip.width);
    assert_eq!(restored.height, clip.height);
    assert_eq!(restored.tiling_q, clip.tiling_q);
    assert_eq!(restored.entries.len(), clip.entries.len());
    for (a, b) in restored.entries.iter().zip(clip.entries.iter()) {
        assert_eq!(a.offset, b.offset);
        assert_eq!(a.kind, b.kind);
        assert_eq!(a.direction, b.direction);
        assert_eq!(a.items, b.items);
        assert_eq!(a.recipe, b.recipe);
    }
}

#[test]
fn sanitize_name_strips_separators() {
    assert_eq!(sanitize_name("my/blueprint"), "myblueprint");
    assert_eq!(sanitize_name("test\\bp"), "testbp");
    assert_eq!(sanitize_name(""), "unnamed");
    assert_eq!(sanitize_name("   "), "unnamed");
    assert_eq!(sanitize_name("  hello  "), "hello");
}

#[test]
fn from_clipboard_at_records_fields() {
    let clip = sample_clipboard();
    let file = BlueprintFile::from_clipboard_at(&clip, "stamped".to_string(), 1234);
    assert_eq!(file.version, octofact::game::blueprint::BLUEPRINT_VERSION);
    assert_eq!(file.timestamp, 1234);
    assert_eq!(file.name, "stamped");
    assert_eq!(file.width, 3);
    assert_eq!(file.height, 2);
    assert_eq!(file.entries.len(), 3);
    assert_eq!(file.entries[2].items, vec![(ItemId::Point, 10), (ItemId::LineSegment, 5)]);
}

#[test]
fn negative_width_survives_file_roundtrip() {
    let mut clip = sample_clipboard();
    clip.width = -3;
    let file = BlueprintFile::from_clipboard_at(&clip, "neg".to_string(), 0);
    assert_eq!(file.width, u32::MAX - 2);
    let back = file.to_clipboard();
    assert_eq!(back.width, -3);
}

#[test]
fn validate_rejects_newer_version_first() {
    let clip = sample_clipboard();
    let mut file = BlueprintFile::from_clipboard_at(&clip, "v".to_string(), 0);
    assert_eq!(validate_blueprint(&file, 5), Ok(()));
    assert_eq!(
        validate_blueprint(&file, 7),
        Err(BlueprintLoadError::TilingMismatch { saved: 5, expected: 7 })
    );
    file.version = 2;
    assert_eq!(
        validate_blueprint(&file, 7),
        Err(BlueprintLoadError::NewerVersion { found: 2 })
    );
}

#[test]
fn required_items_skips_storage_and_counts_machines() {
    let clip = sample_clipboard();
    let items = required_items(&clip);
    assert_eq!(items.len(), 2);
    assert!(items.contains(&(ItemId::Belt, 1)));
    assert!(items.contains(&(ItemId::Composer, 1)));
}

#[test]
fn rotate_cw_3x3_machine_keeps_top_left_origin() {
    let mut clip = Clipboard {
        entries: vec![BlueprintEntry {
            offset: (1, 0),
            kind: StructureKind::Machine(MachineType::Inverter),
            direction: Direction::West,
            items: Vec::new(),
            recipe: Some(3),
        }],
        width: 4,
        height: 5,
        tiling_q: 6,
    };
    clip.rotate_cw();
    // (h - y - fh, x) = (5 - 0 - 3, 1)
    assert_eq!(clip.entries[0].offset, (2, 1));
    assert_eq!(clip.entries[0].direction, Direction::North);
    assert_eq!(clip.entries[0].recipe, Some(3));
    assert_eq!((clip.width, clip.height, clip.tiling_q), (5, 4, 6));
}

#[test]
fn sanitize_name_keeps_first_hundred_characters() {
    let long: String = std::iter::repeat('x').take(150).collect();
    assert_eq!(sanitize_name(&long).chars().count(), 100);
    assert_eq!(sanitize_name("a\0b\u{3000}"), "ab");
    assert_eq!(sanitize_name("/\\"), "unnamed");
}

#[test]
fn tile_coordinates_at_extremes() {
    assert_eq!(virtual_to_tile_local(i32::MAX - 32), (33554431, 31));
    assert_eq!(tile_local_to_virtual(33554431, 31), i32::MAX - 32);
}

#[test]
fn capture_region_single_belt() {
    let mut world = WorldState::new();
    let addr = vec![0u8];
    world.place(&addr, (5, 5), ItemId::Belt, Direction::East).unwrap();

    let pool = StoragePool::new();
    let mpool = MachinePool::new();
    let clip = capture_region(&world, &mpool, &pool, &addr, (5, 5), (5, 5), 5);

    assert_eq!(clip.entries.len(), 1);
    assert_eq!(clip.entries[0].offset, (0, 0));
    assert_eq!(clip.entries[0].kind, StructureKind::Belt);
    assert_eq!(clip.entries[0].direction, Direction::East);
    assert!(clip.entries[0].items.is_empty());
    assert_eq!(clip.entries[0].recipe, None);
    assert_eq!(clip.width, 1);
    assert_eq!(clip.height, 1);
    assert_eq!(clip.tiling_q, 5);
}

#[test]
fn capture_region_relative_offsets() {
    let mut world = WorldState::new();
    let addr = vec![0u8];
    world.place(&addr, (10, 20), ItemId::Belt, Direction::North).unwrap();
    world.place(&addr, (12, 22), ItemId::Quadrupole, Direction::South).unwrap();

    let mpool = MachinePool::new();
    let pool = StoragePool::new();
    let clip = capture_region(&world, &mpool, &pool, &addr, (10, 20), (12, 22), 5);

    assert_eq!(clip.entries.len(), 2);
    // Belt at (10,20) -> offset (0,0)
    let belt = clip.entries.iter().find(|e| e.kind == StructureKind::Belt).unwrap();
    assert_eq!(belt.offset, (0, 0));
    // Quadrupole at (12,22) -> offset (2,2)
    let node = clip.entries.iter().find(|e| e.kind == StructureKind::PowerNode).unwrap();
    assert_eq!(node.offset, (2, 2));
}

#[test]
fn capture_region_multi_cell_dedup() {
    let mut world = WorldState::new();
    let addr = vec![0u8];
    // Composer is 2x2: occupies (5,5), (6,5), (5,6), (6,6)
    world.place(&addr, (5, 5), ItemId::Composer, Direction::North).unwrap();

    let mpool = MachinePool::new();
    let pool = StoragePool::new();
    let clip = capture_region(&world, &mpool, &pool, &addr, (5, 5), (6, 6), 5);

    // Should capture exactly once, at origin offset
    assert_eq!(clip.entries.len(), 1);
    assert_eq!(clip.entries[0].offset, (0, 0));
    assert_eq!(
        clip.entries[0].kind,
        StructureKind::Machine(MachineType::Composer)
    );
}

#[test]
fn capture_region_3x3_dedup() {
    let mut world = WorldState::new();
    let addr = vec![0u8];
    // Inverter is 3x3: occupies 9 cells from (0,0) to (2,2)
    world.place(&addr, (0, 0), ItemId::Inverter, Direction::North).unwrap();

    let mpool = MachinePool::new();
    let pool = StoragePool::new();
    let clip = capture_region(&world, &mpool, &pool, &addr, (0, 0), (2, 2), 5);

    assert_eq!(clip.entries.len(), 1);
    assert_eq!(clip.entries[0].offset, (0, 0));
    assert_eq!(
        clip.entries[0].kind,
        StructureKind::Machine(MachineType::Inverter)
    );
}

#[test]
fn capture_region_empty() {
    let world = WorldState::new();
    let mpool = MachinePool::new();
    let pool = StoragePool::new();
    let clip = capture_region(&world, &mpool, &pool, &[0], (0, 0), (10, 10), 5);

    assert!(clip.entries.is_empty());
    assert_eq!(clip.width, 11);
    assert_eq!(clip.height, 11);
}

#[test]
fn capture_region_swapped_corners() {
    // top_left and bottom_right can be given in any order
    let mut world = WorldState::new();
    let addr = vec![0u8];
    world.place(&addr, (5, 5), ItemId::Belt, Direction::North).unwrap();

    let mpool = MachinePool::new();
    let pool = StoragePool::new();
    // Give bottom_right as "top_left" and vice versa
    let clip = capture_region(&world, &mpool, &pool, &addr, (5, 5), (5, 5), 5);
    assert_eq!(clip.entries.len(), 1);
}

#[test]
fn can_paste_empty_world() {
    let world = WorldState::new();
    let clip = make_belt_clipboard(
        &[(0, 0, Direction::North), (1, 0, Direction::North)],
        2,
        1,
    );
    let checks = can_paste(&world, &[0], (5, 5), &clip);
    assert_eq!(checks.len(), 2);
    assert!(checks.iter().all(|&(_, ok)| ok));
}

#[test]
fn can_paste_detects_collision() {
    let mut world = WorldState::new();
    let addr = vec![0u8];
    world.place(&addr, (5, 5), ItemId::Belt, Direction::North).unwrap();

    let clip = make_belt_clipboard(
        &[(0, 0, Direction::East), (1, 0, Direction::East)],
        2,
        1,
    );
    let checks = can_paste(&world, &addr, (5, 5), &clip);
    // First entry at (5,5) should collide, second at (6,5) should be fine
    assert!(!checks[0].1);
    assert!(checks[1].1);
}

#[test]
fn capture_region_copies_machine_recipe() {
    let mut world = WorldState::new();
    let addr = vec![0u8];
    let entity = world.place(&addr, (0, 0), ItemId::Composer, Direction::North).unwrap();

    let mut mpool = MachinePool::new();
    mpool.add(entity, MachineType::Composer);
    mpool.set_recipe(entity, Some(0));

    let pool = StoragePool::new();
    let clip = capture_region(&world, &mpool, &pool, &addr, (0, 0), (1, 1), 5);

    assert_eq!(clip.entries.len(), 1);
    assert_eq!(clip.entries[0].recipe, Some(0));
}

#[test]
fn capture_region_no_recipe_gives_none() {
    let mut world = WorldState::new();
    let addr = vec![0u8];
    let entity = world.place(&addr, (0, 0), ItemId::Composer, Direction::North).unwrap();

    let mut mpool = MachinePool::new();
    mpool.add(entity, MachineType::Composer);
    // No recipe set

    let pool = StoragePool::new();
    let clip = capture_region(&world, &mpool, &pool, &addr, (0, 0), (1, 1), 5);

    assert_eq!(clip.entries.len(), 1);
    assert_eq!(clip.entries[0].recipe, None);
}

#[test]
fn capture_region_belt_recipe_always_none() {
    let mut world = WorldState::new();
    let addr = vec![0u8];
    world.place(&addr, (0, 0), ItemId::Belt, Direction::East).unwrap();

    let mpool = MachinePool::new();
    let pool = StoragePool::new();
    let clip = capture_region(&world, &mpool, &pool, &addr, (0, 0), (0, 0), 5);

    assert_eq!(clip.entries.len(), 1);
    assert_eq!(clip.entries[0].recipe, None);
}

#[test]
fn capture_region_skips_structure_with_origin_outside() {
    let mut world = WorldState::new();
    let addr = vec![0u8];
    // Composer occupies (4,4)..(5,5); the selection starts inside it.
    world.place(&addr, (4, 4), ItemId::Composer, Direction::North).unwrap();
    world.place(&addr, (7, 5), ItemId::Belt, Direction::West).unwrap();
    let mpool = MachinePool::new();
    let pool = StoragePool::new();
    let clip = capture_region(&world, &mpool, &pool, &addr, (7, 6), (5, 5), 5);
    assert_eq!(clip.entries.len(), 1);
    assert_eq!(clip.entries[0].kind, StructureKind::Belt);
    assert_eq!(clip.entries[0].offset, (2, 0));
    assert_eq!(clip.width, 3);
    assert_eq!(clip.height, 2);
}

#[test]
fn capture_region_on_empty_tile_keeps_given_extent() {
    let world = WorldState::new();
    let mpool = MachinePool::new();
    let pool = StoragePool::new();
    let clip = capture_region(&world, &mpool, &pool, &[1], (4, 4), (2, 3), 5);
    assert!(clip.entries.is_empty());
    assert_eq!(clip.width, -1);
    assert_eq!(clip.height, 0);
}

#[test]
fn capture_strip_spans_two_tiles() {
    let mut world = WorldState::new();
    let a: Vec<u8> = vec![0];
    let b: Vec<u8> = vec![0, 1];
    // Tile a (delta 0): belt at local (30, 0); tile b (delta 1): belt at local (-30, 0),
    // which is virtual x = 64 - 30 = 34.
    world.place(&a, (30, 0), ItemId::Belt, Direction::East).unwrap();
    world.place(&b, (-30, 0), ItemId::Belt, Direction::East).unwrap();
    let mpool = MachinePool::new();
    let pool = StoragePool::new();
    let tiles: Vec<(&[u8], i32)> = vec![(&a, 0), (&b, 1)];
    let clip = capture_strip(&world, &mpool, &pool, &tiles, (28, 0), (36, 0), true, 5);
    assert_eq!(clip.width, 9);
    assert_eq!(clip.height, 1);
    assert_eq!(clip.entries.len(), 2);
    assert_eq!(clip.entries[0].offset, (2, 0));
    assert_eq!(clip.entries[1].offset, (6, 0));
}

#[test]
fn capture_strip_leaves_out_corner_structures() {
    let mut world = WorldState::new();
    let a: Vec<u8> = vec![2];
    world.place(&a, (32, 32), ItemId::Belt, Direction::North).unwrap();
    world.place(&a, (31, 32), ItemId::Belt, Direction::North).unwrap();
    let mpool = MachinePool::new();
    let pool = StoragePool::new();
    let tiles: Vec<(&[u8], i32)> = vec![(&a, 0)];
    let clip = capture_strip(&world, &mpool, &pool, &tiles, (30, 32), (40, 32), true, 5);
    // (32,32) is a tile corner and is skipped; the clip stops at local x = 32.
    assert_eq!(clip.entries.len(), 1);
    assert_eq!(clip.entries[0].offset, (1, 0));
    assert_eq!(clip.width, 11);
}
