use octofact::game::items::{ItemId, MachineType};
use octofact::game::recipes::RecipeIndex;
use octofact::game::world::{Direction, EntityId, WorldState};
use octofact::sim::belt::{
    BeltEnd, BeltItem, BeltNetwork, TransportLine, DEFAULT_BELT_SPEED, FP_SCALE, MIN_ITEM_GAP,
};
use octofact::sim::machine::{MachinePool, DEFAULT_CRAFT_TICKS};
fn place_belt(world: &mut WorldState, net: &mut BeltNetwork, addr: &[u8], gx: i32, gy: i32, dir: Direction) -> EntityId {
    let entity = world.place(addr, (gx, gy), ItemId::Belt, dir).unwrap();
    net.on_belt_placed(entity, addr, gx, gy, dir, world);
    entity
}

/// Helper: get items for an entity with positions relative to the segment.
fn local_items(net: &BeltNetwork, entity: EntityId) -> Vec<(ItemId, u32)> {
    match net.entity_items(entity) {
        Some((items, offset)) => items.iter().map(|i| (i.item, i.pos - offset)).collect(),
        None => vec![],
    }
}

#[test]
fn single_item_moves_toward_output() {
    let mut world = WorldState::new();
    let mut net = BeltNetwork::new();
    let e = place_belt(&mut world, &mut net, &[0], 0, 0, Direction::East);

    net.spawn_item_on_entity(e, ItemId::NullSet);
    let items = local_items(&net, e);
    assert_eq!(items.len(), 1);
    assert_eq!(items[0].1, FP_SCALE / 2);

    net.tick();

    let items = local_items(&net, e);
    assert_eq!(items[0].1, FP_SCALE / 2 - DEFAULT_BELT_SPEED as u32);
}

#[test]
fn item_stops_at_open_end() {
    let mut world = WorldState::new();
    let mut net = BeltNetwork::new();
    let e = place_belt(&mut world, &mut net, &[0], 0, 0, Direction::East);

    net.spawn_item_on_entity(e, ItemId::NullSet);
    for _ in 0..1000 {
        net.tick();
    }

    let items = local_items(&net, e);
    assert_eq!(items.len(), 1);
    assert_eq!(items[0].1, 0);
}

#[test]
fn items_compress_behind_blocked_front() {
    let mut world = WorldState::new();
    let mut net = BeltNetwork::new();
    let e = place_belt(&mut world, &mut net, &[0], 0, 0, Direction::East);

    // Manually insert two items on the line
    let seg = net.segment(e).unwrap();
    let line = net.line_mut(seg.line).unwrap();
    line.items.push(BeltItem { item: ItemId::NullSet, pos: 100 });
    line.items.push(BeltItem { item: ItemId::Point, pos: 200 });

    for _ in 0..1000 {
        net.tick();
    }

    let items = local_items(&net, e);
    assert_eq!(items.len(), 2);
    assert_eq!(items[0].1, 0);
    assert_eq!(items[1].1, MIN_ITEM_GAP);
}

#[test]
fn consecutive_belts_merge_into_one_line() {
    let mut world = WorldState::new();
    let mut net = BeltNetwork::new();
    let addr: &[u8] = &[0];
    let e1 = place_belt(&mut world, &mut net, addr, 0, 0, Direction::East);
    let e2 = place_belt(&mut world, &mut net, addr, 1, 0, Direction::East);

    // Both entities should be on the same transport line.
    let seg1 = net.segment(e1).unwrap();
    let seg2 = net.segment(e2).unwrap();
    assert_eq!(seg1.line, seg2.line);

    // e2 is downstream (output side), e1 is upstream (input side).
    // e2 offset = 0, e1 offset = FP_SCALE.
    assert_eq!(seg2.offset, 0);
    assert_eq!(seg1.offset, FP_SCALE);

    // Merged line length = 2 * FP_SCALE.
    let line = net.line(seg1.line).unwrap();
    assert_eq!(line.length, 2 * FP_SCALE);
    assert_eq!(line.input_end, BeltEnd::Open);
    assert_eq!(line.output_end, BeltEnd::Open);
}

#[test]
fn item_flows_through_merged_line() {
    let mut world = WorldState::new();
    let mut net = BeltNetwork::new();
    let addr: &[u8] = &[0];
    let e1 = place_belt(&mut world, &mut net, addr, 0, 0, Direction::East);
    let e2 = place_belt(&mut world, &mut net, addr, 1, 0, Direction::East);

    // Spawn item on e1 (upstream segment)
    net.spawn_item_on_entity(e1, ItemId::NullSet);

    // Item starts at center of e1's segment
    let items = local_items(&net, e1);
    assert_eq!(items.len(), 1);
    assert_eq!(items[0].1, FP_SCALE / 2);

    // Run enough ticks for item to cross into e2
    for _ in 0..500 {
        net.tick();
    }

    // Item should now be in e2's segment (at output end, pos=0)
    let items1 = local_items(&net, e1);
    let items2 = local_items(&net, e2);
    assert_eq!(items1.len(), 0);
    assert_eq!(items2.len(), 1);
    assert_eq!(items2[0].0, ItemId::NullSet);
}

#[test]
fn fast_forward_advances_correctly() {
    let mut world = WorldState::new();
    let mut net = BeltNetwork::new();
    let e = place_belt(&mut world, &mut net, &[0], 0, 0, Direction::East);

    net.spawn_item_on_entity(e, ItemId::NullSet);
    let start = local_items(&net, e)[0].1;

    net.fast_forward(10);

    let after = local_items(&net, e)[0].1;
    assert_eq!(after, start - 10 * DEFAULT_BELT_SPEED as u32);
}

#[test]
fn placement_order_does_not_matter() {
    // Place downstream belt first, then upstream — should still merge.
    let mut world = WorldState::new();
    let mut net = BeltNetwork::new();
    let addr: &[u8] = &[0];

    let e2 = place_belt(&mut world, &mut net, addr, 1, 0, Direction::East);
    let e1 = place_belt(&mut world, &mut net, addr, 0, 0, Direction::East);

    let seg1 = net.segment(e1).unwrap();
    let seg2 = net.segment(e2).unwrap();
    assert_eq!(seg1.line, seg2.line);

    let line = net.line(seg1.line).unwrap();
    assert_eq!(line.length, 2 * FP_SCALE);
}

#[test]
fn different_directions_do_not_merge() {
    let mut world = WorldState::new();
    let mut net = BeltNetwork::new();
    let addr: &[u8] = &[0];

    let e1 = place_belt(&mut world, &mut net, addr, 0, 0, Direction::East);
    let e2 = place_belt(&mut world, &mut net, addr, 1, 0, Direction::North);

    let seg1 = net.segment(e1).unwrap();
    let seg2 = net.segment(e2).unwrap();
    assert_ne!(seg1.line, seg2.line);
}

#[test]
fn three_belts_merge_into_one_line() {
    let mut world = WorldState::new();
    let mut net = BeltNetwork::new();
    let addr: &[u8] = &[0];

    let e1 = place_belt(&mut world, &mut net, addr, 0, 0, Direction::East);
    let e2 = place_belt(&mut world, &mut net, addr, 1, 0, Direction::East);
    let e3 = place_belt(&mut world, &mut net, addr, 2, 0, Direction::East);

    let seg1 = net.segment(e1).unwrap();
    let seg2 = net.segment(e2).unwrap();
    let seg3 = net.segment(e3).unwrap();
    assert_eq!(seg1.line, seg2.line);
    assert_eq!(seg2.line, seg3.line);

    let line = net.line(seg1.line).unwrap();
    assert_eq!(line.length, 3 * FP_SCALE);

    // e3 is most downstream (output), e1 is most upstream (input).
    assert_eq!(seg3.offset, 0);
    assert_eq!(seg2.offset, FP_SCALE);
    assert_eq!(seg1.offset, 2 * FP_SCALE);
}

#[test]
fn bridge_merges_two_lines() {
    // Place e1 and e3 first (two separate lines), then e2 bridges them.
    let mut world = WorldState::new();
    let mut net = BeltNetwork::new();
    let addr: &[u8] = &[0];

    let e1 = place_belt(&mut world, &mut net, addr, 0, 0, Direction::East);
    let e3 = place_belt(&mut world, &mut net, addr, 2, 0, Direction::East);

    // Before bridge: two separate lines.
    let seg1_before = net.segment(e1).unwrap();
    let seg3_before = net.segment(e3).unwrap();
    assert_ne!(seg1_before.line, seg3_before.line);

    // Place the bridge.
    let e2 = place_belt(&mut world, &mut net, addr, 1, 0, Direction::East);

    // After bridge: all on one line.
    let seg1 = net.segment(e1).unwrap();
    let seg2 = net.segment(e2).unwrap();
    let seg3 = net.segment(e3).unwrap();
    assert_eq!(seg1.line, seg2.line);
    assert_eq!(seg2.line, seg3.line);

    let line = net.line(seg1.line).unwrap();
    assert_eq!(line.length, 3 * FP_SCALE);
}

#[test]
fn perpendicular_belt_side_injects_items() {
    let mut world = WorldState::new();
    let mut net = BeltNetwork::new();
    let addr: &[u8] = &[0];

    // Two belts: e1 East, e2 North — perpendicular, connected via SideInject.
    let e1 = place_belt(&mut world, &mut net, addr, 0, 0, Direction::East);
    let e2 = place_belt(&mut world, &mut net, addr, 1, 0, Direction::North);

    net.spawn_item_on_entity(e1, ItemId::NullSet);

    for _ in 0..500 {
        net.tick();
    }

    // Item should have transferred via SideInject to the North belt.
    let items1 = local_items(&net, e1);
    let items2 = local_items(&net, e2);
    assert_eq!(items1.len(), 0, "Item should have left the East belt");
    assert_eq!(items2.len(), 1, "Item should be on the North belt");
    assert_eq!(items2[0].0, ItemId::NullSet);
}

#[test]
fn cross_tile_link_transfers_items() {
    let mut world = WorldState::new();
    let mut net = BeltNetwork::new();

    // Tile A: belt at (32, 0) East — at the eastern edge
    let e1 = place_belt(&mut world, &mut net, &[0], 32, 0, Direction::East);
    // Tile B: belt at (-32, 0) East — at the western edge
    let e2 = place_belt(&mut world, &mut net, &[0, 0], -32, 0, Direction::East);

    // Link: e1's output → e2's input (cross-tile)
    net.link_output_to_input(e1, e2);

    // Spawn item on e1
    net.spawn_item_on_entity(e1, ItemId::NullSet);

    // Run enough ticks for item to transfer
    for _ in 0..1000 {
        net.tick();
    }

    // Item should have moved from e1 to e2
    let items1 = local_items(&net, e1);
    let items2 = local_items(&net, e2);
    assert_eq!(items1.len(), 0);
    assert_eq!(items2.len(), 1);
    assert_eq!(items2[0].0, ItemId::NullSet);
}

#[test]
fn cross_tile_link_with_merged_lines() {
    let mut world = WorldState::new();
    let mut net = BeltNetwork::new();

    // Tile A: belts at (31, 0) and (32, 0) East — merged line
    let e1 = place_belt(&mut world, &mut net, &[0], 31, 0, Direction::East);
    let e2 = place_belt(&mut world, &mut net, &[0], 32, 0, Direction::East);
    // Tile B: belt at (-32, 0) East
    let e3 = place_belt(&mut world, &mut net, &[0, 0], -32, 0, Direction::East);

    // e1 and e2 are on the same line
    let seg1 = net.segment(e1).unwrap();
    let seg2 = net.segment(e2).unwrap();
    assert_eq!(seg1.line, seg2.line);

    // Link output (e2 is at offset 0) to e3's input
    net.link_output_to_input(e2, e3);

    // Spawn item on e1 (upstream)
    net.spawn_item_on_entity(e1, ItemId::NullSet);

    for _ in 0..2000 {
        net.tick();
    }

    // Item should flow through e1 → e2 → cross-tile → e3
    let items3 = local_items(&net, e3);
    assert_eq!(items3.len(), 1);
    assert_eq!(items3[0].0, ItemId::NullSet);
}

#[test]
fn cross_tile_bidirectional_link() {
    let mut world = WorldState::new();
    let mut net = BeltNetwork::new();

    // Two belts flowing in opposite directions across the same tile boundary
    // Tile A: belt at (32, 0) East, belt at (32, 1) West (separate lines)
    let e1 = place_belt(&mut world, &mut net, &[0], 32, 0, Direction::East);
    let e2 = place_belt(&mut world, &mut net, &[0], -32, 1, Direction::West);

    // Tile B: corresponding belts
    let e3 = place_belt(&mut world, &mut net, &[0, 0], -32, 0, Direction::East);
    let e4 = place_belt(&mut world, &mut net, &[0, 0], 32, 1, Direction::West);

    // Link e1→e3 (East flow) and e4→e2 (West flow)
    net.link_output_to_input(e1, e3);
    net.link_output_to_input(e4, e2);

    net.spawn_item_on_entity(e1, ItemId::NullSet);
    net.spawn_item_on_entity(e4, ItemId::Point);

    for _ in 0..1000 {
        net.tick();
    }

    let items3 = local_items(&net, e3);
    let items2 = local_items(&net, e2);
    assert_eq!(items3.len(), 1);
    assert_eq!(items3[0].0, ItemId::NullSet);
    assert_eq!(items2.len(), 1);
    assert_eq!(items2[0].0, ItemId::Point);
}

// --- Port transfer tests ---


#[test]
fn belt_to_machine_input_transfer() {
    let mut world = WorldState::new();
    let mut net = BeltNetwork::new();
    let mut machines = MachinePool::new();
    let addr: &[u8] = &[0];

    // Belt at (0,0) flowing East, machine at (1,0)
    let belt = place_belt(&mut world, &mut net, addr, 0, 0, Direction::East);
    let machine_entity = world.place(addr, (1, 0), ItemId::Composer, Direction::West).unwrap();
    machines.add(machine_entity, MachineType::Composer);

    // Connect belt output to machine input slot 0
    net.connect_belt_to_machine_input(belt, machine_entity, 0);

    // Spawn item on belt
    net.spawn_item_on_entity(belt, ItemId::Point);

    // Run belt ticks until item reaches output end (pos=0)
    for _ in 0..500 {
        net.tick();
    }
    let items = local_items(&net, belt);
    assert_eq!(items.len(), 1);
    assert_eq!(items[0].1, 0); // stuck at output end

    // Now run port transfers — item should move into machine
    net.tick_port_transfers(&mut machines);
    let items = local_items(&net, belt);
    assert_eq!(items.len(), 0); // item left the belt
    let slots = machines.input_slots(machine_entity).unwrap();
    assert_eq!(slots[0].item, ItemId::Point);
    assert_eq!(slots[0].count, 1);
}

#[test]
fn machine_output_to_belt_transfer() {
    let mut world = WorldState::new();
    let mut net = BeltNetwork::new();
    let mut machines = MachinePool::new();
    let addr: &[u8] = &[0];

    // Machine at (0,0) (Composer is 2x2, occupies 0..1 x 0..1), belt at (2,0) flowing East
    let machine_entity = world.place(addr, (0, 0), ItemId::Composer, Direction::East).unwrap();
    machines.add(machine_entity, MachineType::Composer);
    let belt = place_belt(&mut world, &mut net, addr, 2, 0, Direction::East);

    // Connect machine output slot 0 to belt input
    net.connect_machine_output_to_belt(belt, machine_entity, 0);

    // Put an item in machine output
    let i = machines.index_of(machine_entity).unwrap();
    machines.cold.output_slots[i][0] = octofact::sim::machine::ItemStack {
        item: ItemId::LineSegment,
        count: 1,
    };

    // Run port transfers — item should appear on belt
    net.tick_port_transfers(&mut machines);
    let seg = net.segment(belt).unwrap();
    let line = net.line(seg.line).unwrap();
    assert_eq!(line.items.len(), 1);
    assert_eq!(line.items[0].item, ItemId::LineSegment);
    assert_eq!(line.items[0].pos, line.length); // at input end
}

#[test]
fn full_production_chain_belt_machine_belt() {
    let mut world = WorldState::new();
    let mut net = BeltNetwork::new();
    let mut machines = MachinePool::new();
    let recipes = RecipeIndex::new();
    let addr: &[u8] = &[0];

    // Input belt → machine → output belt
    // Composer is 2x2 at (0,0): occupies (0,0)-(1,1)
    // Belt at (-1,0) East feeds into machine, belt at (2,0) East receives output
    let input_belt = place_belt(&mut world, &mut net, addr, -1, 0, Direction::East);
    let machine_entity = world.place(addr, (0, 0), ItemId::Composer, Direction::East).unwrap();
    machines.add(machine_entity, MachineType::Composer);
    machines.set_recipe(machine_entity, Some(0)); // 2x Point -> LineSegment
    let output_belt = place_belt(&mut world, &mut net, addr, 2, 0, Direction::East);

    // Connect: input belt output → machine input slot 0
    net.connect_belt_to_machine_input(input_belt, machine_entity, 0);
    // Connect: machine output slot 0 → output belt input
    net.connect_machine_output_to_belt(output_belt, machine_entity, 0);

    // Spawn 2 Points on input belt (enough for one craft)
    net.spawn_item_on_entity(input_belt, ItemId::Point);
    // Need a second item — insert at a different position
    {
        let seg = net.segment(input_belt).unwrap();
        let line = net.line_mut(seg.line).unwrap();
        line.items.push(BeltItem { item: ItemId::Point, pos: FP_SCALE });
        line.items.sort_by_key(|i| i.pos);
    }

    // Run the full cycle: belt tick + port transfer + machine tick
    for _ in 0..(500 + DEFAULT_CRAFT_TICKS as u32 + 100) {
        net.tick();
        net.tick_port_transfers(&mut machines);
        machines.tick(&recipes);
    }

    // The machine should have crafted and output a LineSegment onto the output belt
    let output_items: Vec<_> = {
        let seg = net.segment(output_belt).unwrap();
        let line = net.line(seg.line).unwrap();
        line.items.iter().map(|i| i.item).collect()
    };
    assert!(
        output_items.contains(&ItemId::LineSegment),
        "Expected LineSegment on output belt, got: {:?}",
        output_items
    );
}

#[test]
fn connection_only_at_line_endpoint() {
    let mut world = WorldState::new();
    let mut net = BeltNetwork::new();
    let addr: &[u8] = &[0];

    // Three merged belts: (0,0), (1,0), (2,0) East
    let _e1 = place_belt(&mut world, &mut net, addr, 0, 0, Direction::East);
    let e2 = place_belt(&mut world, &mut net, addr, 1, 0, Direction::East);
    let _e3 = place_belt(&mut world, &mut net, addr, 2, 0, Direction::East);

    let machine_entity = world.place(addr, (1, 1), ItemId::Composer, Direction::North).unwrap();

    // Try connecting e2 (middle of line, offset=FP_SCALE) as output endpoint
    // Should NOT connect because e2 is not at offset=0
    net.connect_belt_to_machine_input(e2, machine_entity, 0);
    let seg = net.segment(e2).unwrap();
    let line = net.line(seg.line).unwrap();
    assert_eq!(line.output_end, BeltEnd::Open, "Middle belt should not connect at output end");
}

// --- Side-inject (perpendicular belt) tests ---

#[test]
fn t_junction_east_into_north_creates_side_inject() {
    let mut world = WorldState::new();
    let mut net = BeltNetwork::new();
    let addr: &[u8] = &[0];

    // North belt at (1, 0)
    let north = place_belt(&mut world, &mut net, addr, 1, 0, Direction::North);
    // East belt at (0, 0) — output faces (1, 0) where the North belt is
    let east = place_belt(&mut world, &mut net, addr, 0, 0, Direction::East);

    // East belt should have SideInject output to the North belt
    let east_seg = net.segment(east).unwrap();
    let east_line = net.line(east_seg.line).unwrap();
    assert_eq!(east_line.output_end, BeltEnd::SideInject { entity: north });

    // They should be on separate lines
    let north_seg = net.segment(north).unwrap();
    assert_ne!(east_seg.line, north_seg.line);
}

#[test]
fn t_junction_reverse_order_creates_side_inject() {
    // Place the dead-ending belt first, then the perpendicular belt
    let mut world = WorldState::new();
    let mut net = BeltNetwork::new();
    let addr: &[u8] = &[0];

    // East belt at (0, 0) first — output faces (1, 0), nothing there yet
    let east = place_belt(&mut world, &mut net, addr, 0, 0, Direction::East);
    let east_seg = net.segment(east).unwrap();
    assert_eq!(net.line(east_seg.line).unwrap().output_end, BeltEnd::Open);

    // Now place North belt at (1, 0) — the reverse check should connect
    let north = place_belt(&mut world, &mut net, addr, 1, 0, Direction::North);

    // East belt should now have SideInject
    let east_seg = net.segment(east).unwrap();
    let east_line = net.line(east_seg.line).unwrap();
    assert_eq!(east_line.output_end, BeltEnd::SideInject { entity: north });
}

#[test]
fn t_junction_items_transfer_to_perpendicular_belt() {
    let mut world = WorldState::new();
    let mut net = BeltNetwork::new();
    let addr: &[u8] = &[0];

    // North belt at (1, 0)
    let north = place_belt(&mut world, &mut net, addr, 1, 0, Direction::North);
    // East belt at (0, 0) with SideInject to North belt
    let east = place_belt(&mut world, &mut net, addr, 0, 0, Direction::East);

    // Spawn item on East belt
    net.spawn_item_on_entity(east, ItemId::NullSet);

    // Run ticks until item transfers
    for _ in 0..500 {
        net.tick();
    }

    // Item should have moved to the North belt
    let east_items = local_items(&net, east);
    let north_items = local_items(&net, north);
    assert_eq!(east_items.len(), 0, "Item should have left the East belt");
    assert_eq!(north_items.len(), 1, "Item should be on the North belt");
    assert_eq!(north_items[0].0, ItemId::NullSet);
}

#[test]
fn side_inject_respects_min_gap() {
    let mut world = WorldState::new();
    let mut net = BeltNetwork::new();
    let addr: &[u8] = &[0];

    // North belt at (1, 0), East belt at (0, 0)
    let north = place_belt(&mut world, &mut net, addr, 1, 0, Direction::North);
    let east = place_belt(&mut world, &mut net, addr, 0, 0, Direction::East);

    // Fill the North belt with 4 items (max: FP_SCALE / MIN_ITEM_GAP = 256/64 = 4)
    // They pack at 0, 64, 128, 192 — injection point 128 is exactly occupied.
    let north_seg = net.segment(north).unwrap();
    let line = net.line_mut(north_seg.line).unwrap();
    for i in 0..4u32 {
        line.items.push(BeltItem {
            item: ItemId::Point,
            pos: north_seg.offset + i * MIN_ITEM_GAP,
        });
    }
    line.items.sort_by_key(|i| i.pos);

    // Spawn item on East belt
    net.spawn_item_on_entity(east, ItemId::NullSet);

    // Run just a few ticks (enough for East item to reach pos=0 but
    // not enough for North items to drain away)
    for _ in 0..500 {
        net.tick();
    }

    // Items on the North belt should remain packed since output is Open
    // (items stop at pos=0). Injection at offset 128 is blocked.
    let east_items = local_items(&net, east);
    assert_eq!(east_items.len(), 1, "Item should stay on East belt (blocked)");
    assert_eq!(east_items[0].1, 0, "Item should be stuck at output end");
}

#[test]
fn side_inject_blocks_when_target_full() {
    let mut world = WorldState::new();
    let mut net = BeltNetwork::new();
    let addr: &[u8] = &[0];

    // North belt at (1, 0), East belt at (0, 0)
    let north = place_belt(&mut world, &mut net, addr, 1, 0, Direction::North);
    let east = place_belt(&mut world, &mut net, addr, 0, 0, Direction::East);

    // Fill the North belt with 4 items (max per segment = FP_SCALE / MIN_ITEM_GAP = 4)
    let north_seg = net.segment(north).unwrap();
    let line = net.line_mut(north_seg.line).unwrap();
    for i in 0..4u32 {
        line.items.push(BeltItem {
            item: ItemId::Point,
            pos: north_seg.offset + i * MIN_ITEM_GAP,
        });
    }
    line.items.sort_by_key(|i| i.pos);

    // Spawn item on East belt
    net.spawn_item_on_entity(east, ItemId::NullSet);

    // Run ticks — should not transfer
    for _ in 0..500 {
        net.tick();
    }

    let east_items = local_items(&net, east);
    assert_eq!(east_items.len(), 1, "Item should stay on East belt (target full)");
}

#[test]
fn removing_target_belt_clears_side_inject() {
    let mut world = WorldState::new();
    let mut net = BeltNetwork::new();
    let addr: &[u8] = &[0];

    let north = place_belt(&mut world, &mut net, addr, 1, 0, Direction::North);
    let east = place_belt(&mut world, &mut net, addr, 0, 0, Direction::East);

    // Verify SideInject exists
    let east_seg = net.segment(east).unwrap();
    assert!(matches!(
        net.line(east_seg.line).unwrap().output_end,
        BeltEnd::SideInject { .. }
    ));

    // Remove the North belt (target)
    net.on_belt_removed(north);
    world.remove(addr, (1, 0));

    // SideInject should be cleared
    let east_seg = net.segment(east).unwrap();
    let east_line = net.line(east_seg.line).unwrap();
    assert_eq!(east_line.output_end, BeltEnd::Open);
}

#[test]
fn removing_source_belt_cleans_up() {
    let mut world = WorldState::new();
    let mut net = BeltNetwork::new();
    let addr: &[u8] = &[0];

    let _north = place_belt(&mut world, &mut net, addr, 1, 0, Direction::North);
    let east = place_belt(&mut world, &mut net, addr, 0, 0, Direction::East);

    // Remove the East belt (source of SideInject)
    net.on_belt_removed(east);
    world.remove(addr, (0, 0));

    // No crash, no dangling references. The SideInject was on the removed line.
    // Verify the North belt is still fine
    assert_eq!(net.line_count(), 1);
}

#[test]
fn opposite_direction_does_not_side_inject() {
    let mut world = WorldState::new();
    let mut net = BeltNetwork::new();
    let addr: &[u8] = &[0];

    // West belt at (1, 0) — facing opposite to East
    let _west = place_belt(&mut world, &mut net, addr, 1, 0, Direction::West);
    // East belt at (0, 0) — output faces (1, 0) but West is opposite, not perpendicular
    let east = place_belt(&mut world, &mut net, addr, 0, 0, Direction::East);

    let east_seg = net.segment(east).unwrap();
    let east_line = net.line(east_seg.line).unwrap();
    assert_eq!(east_line.output_end, BeltEnd::Open, "Opposite directions should not side-inject");
}

#[test]
fn same_direction_merges_not_side_injects() {
    let mut world = WorldState::new();
    let mut net = BeltNetwork::new();
    let addr: &[u8] = &[0];

    // East belt at (1, 0) — same direction
    let e2 = place_belt(&mut world, &mut net, addr, 1, 0, Direction::East);
    let e1 = place_belt(&mut world, &mut net, addr, 0, 0, Direction::East);

    // Should merge, not side-inject
    let seg1 = net.segment(e1).unwrap();
    let seg2 = net.segment(e2).unwrap();
    assert_eq!(seg1.line, seg2.line, "Same direction should merge");
}

#[test]
fn south_belt_side_injects_onto_east_belt() {
    // Test a different orientation: South belt feeds onto East belt
    let mut world = WorldState::new();
    let mut net = BeltNetwork::new();
    let addr: &[u8] = &[0];

    // East belt at (0, 1)
    let east = place_belt(&mut world, &mut net, addr, 0, 1, Direction::East);
    // South belt at (0, 0) — output faces (0, 1) where the East belt is
    let south = place_belt(&mut world, &mut net, addr, 0, 0, Direction::South);

    let south_seg = net.segment(south).unwrap();
    let south_line = net.line(south_seg.line).unwrap();
    assert_eq!(south_line.output_end, BeltEnd::SideInject { entity: east });

    // Spawn item and verify transfer
    net.spawn_item_on_entity(south, ItemId::NullSet);
    for _ in 0..500 {
        net.tick();
    }

    let south_items = local_items(&net, south);
    let east_items = local_items(&net, east);
    assert_eq!(south_items.len(), 0);
    assert_eq!(east_items.len(), 1);
}

#[test]
fn output_end_removal_clears_side_inject() {
    let mut world = WorldState::new();
    let mut net = BeltNetwork::new();
    let addr: &[u8] = &[0];

    // North belt at (2, 0)
    let north = place_belt(&mut world, &mut net, addr, 2, 0, Direction::North);
    // Two merged East belts: (0,0) and (1,0)
    let e1 = place_belt(&mut world, &mut net, addr, 0, 0, Direction::East);
    let e2 = place_belt(&mut world, &mut net, addr, 1, 0, Direction::East);

    // e2 is at offset=0 (output end), should have SideInject to North belt
    let e2_seg = net.segment(e2).unwrap();
    assert_eq!(e2_seg.offset, 0);
    let line = net.line(e2_seg.line).unwrap();
    assert_eq!(line.output_end, BeltEnd::SideInject { entity: north });

    // Remove e2 (the output-end belt with SideInject)
    net.on_belt_removed(e2);
    world.remove(addr, (1, 0));

    // e1 is now at offset=0, but SideInject should be cleared
    let e1_seg = net.segment(e1).unwrap();
    assert_eq!(e1_seg.offset, 0);
    let line = net.line(e1_seg.line).unwrap();
    assert_eq!(line.output_end, BeltEnd::Open, "SideInject should be cleared after output-end removal");
}

#[test]
fn can_accept_at_offset_empty_line() {
    let line = TransportLine::new(FP_SCALE);
    assert!(line.can_accept_at_offset(FP_SCALE / 2));
}

#[test]
fn can_accept_at_offset_with_nearby_items() {
    let mut line = TransportLine::new(FP_SCALE);
    // Item at position 128 (center)
    line.items.push(BeltItem { item: ItemId::NullSet, pos: 128 });

    // Too close (gap < MIN_ITEM_GAP)
    assert!(!line.can_accept_at_offset(128 + MIN_ITEM_GAP - 1));
    assert!(!line.can_accept_at_offset(128 - MIN_ITEM_GAP + 1));

    // Exactly at MIN_ITEM_GAP — should accept
    assert!(line.can_accept_at_offset(128 + MIN_ITEM_GAP));
    assert!(line.can_accept_at_offset(128 - MIN_ITEM_GAP));
}

// --- Splitter-belt connection tests ---

fn place_splitter(world: &mut WorldState, pool: &mut octofact::sim::splitter::SplitterPool, addr: &[u8], gx: i32, gy: i32) -> EntityId {
    let entity = world.place(addr, (gx, gy), ItemId::Splitter, Direction::North).unwrap();
    pool.add(entity);
    entity
}

#[test]
fn splitter_belt_output_connects_as_input() {
    // Belt going East at (4,5), splitter at (5,5) → belt feeds into splitter
    let mut world = WorldState::new();
    let mut net = BeltNetwork::new();
    let mut pool = octofact::sim::splitter::SplitterPool::new();

    let splitter = place_splitter(&mut world, &mut pool, &[0], 5, 5);
    let belt = place_belt(&mut world, &mut net, &[0], 4, 5, Direction::East);

    // Belt's output end faces the splitter
    assert!(net.connect_belt_to_splitter(belt, splitter));
    pool.add_input(splitter, belt);
    pool.detect_mode(splitter);

    // Verify belt's output_end is Splitter
    let seg = net.segment(belt).unwrap();
    let line = net.line(seg.line).unwrap();
    assert_eq!(line.output_end, BeltEnd::Splitter { entity: splitter });

    // Splitter should be Inactive (1 input, 0 outputs)
    assert_eq!(pool.get(splitter).unwrap().mode, octofact::sim::splitter::SplitterMode::Inactive);
}

#[test]
fn splitter_belt_input_connects_as_output() {
    // Belt going East at (6,5), splitter at (5,5) → splitter feeds belt
    let mut world = WorldState::new();
    let mut net = BeltNetwork::new();
    let mut pool = octofact::sim::splitter::SplitterPool::new();

    let splitter = place_splitter(&mut world, &mut pool, &[0], 5, 5);
    let belt = place_belt(&mut world, &mut net, &[0], 6, 5, Direction::East);

    // Belt's input end faces the splitter
    assert!(net.connect_splitter_to_belt(belt, splitter));
    pool.add_output(splitter, belt);
    pool.detect_mode(splitter);

    // Verify belt's input_end is Splitter
    let seg = net.segment(belt).unwrap();
    let line = net.line(seg.line).unwrap();
    assert_eq!(line.input_end, BeltEnd::Splitter { entity: splitter });

    // Splitter should be Inactive (0 inputs, 1 output)
    assert_eq!(pool.get(splitter).unwrap().mode, octofact::sim::splitter::SplitterMode::Inactive);
}

#[test]
fn splitter_connects_two_inputs_one_output_merger() {
    let mut world = WorldState::new();
    let mut net = BeltNetwork::new();
    let mut pool = octofact::sim::splitter::SplitterPool::new();

    let splitter = place_splitter(&mut world, &mut pool, &[0], 5, 5);

    // Two belts feeding in from West and South
    let belt_w = place_belt(&mut world, &mut net, &[0], 4, 5, Direction::East);
    let belt_s = place_belt(&mut world, &mut net, &[0], 5, 6, Direction::North);

    // One belt taking out to the East
    let belt_e = place_belt(&mut world, &mut net, &[0], 6, 5, Direction::East);

    assert!(net.connect_belt_to_splitter(belt_w, splitter));
    pool.add_input(splitter, belt_w);
    assert!(net.connect_belt_to_splitter(belt_s, splitter));
    pool.add_input(splitter, belt_s);
    assert!(net.connect_splitter_to_belt(belt_e, splitter));
    pool.add_output(splitter, belt_e);
    pool.detect_mode(splitter);

    assert_eq!(pool.get(splitter).unwrap().inputs.len(), 2);
    assert_eq!(pool.get(splitter).unwrap().outputs.len(), 1);
    assert_eq!(pool.get(splitter).unwrap().mode, octofact::sim::splitter::SplitterMode::Merger);
}

#[test]
fn splitter_connects_one_input_two_outputs_splitter_mode() {
    let mut world = WorldState::new();
    let mut net = BeltNetwork::new();
    let mut pool = octofact::sim::splitter::SplitterPool::new();

    let splitter = place_splitter(&mut world, &mut pool, &[0], 5, 5);

    // One belt feeding in from West
    let belt_in = place_belt(&mut world, &mut net, &[0], 4, 5, Direction::East);
    // Two belts taking out to East and South
    let belt_out1 = place_belt(&mut world, &mut net, &[0], 6, 5, Direction::East);
    let belt_out2 = place_belt(&mut world, &mut net, &[0], 5, 6, Direction::South);

    assert!(net.connect_belt_to_splitter(belt_in, splitter));
    pool.add_input(splitter, belt_in);
    assert!(net.connect_splitter_to_belt(belt_out1, splitter));
    pool.add_output(splitter, belt_out1);
    assert!(net.connect_splitter_to_belt(belt_out2, splitter));
    pool.add_output(splitter, belt_out2);
    pool.detect_mode(splitter);

    assert_eq!(pool.get(splitter).unwrap().mode, octofact::sim::splitter::SplitterMode::Splitter);
}

#[test]
fn splitter_two_in_two_out_balancer() {
    let mut world = WorldState::new();
    let mut net = BeltNetwork::new();
    let mut pool = octofact::sim::splitter::SplitterPool::new();

    let splitter = place_splitter(&mut world, &mut pool, &[0], 5, 5);

    let belt_in1 = place_belt(&mut world, &mut net, &[0], 4, 5, Direction::East);
    let belt_in2 = place_belt(&mut world, &mut net, &[0], 5, 4, Direction::South);
    let belt_out1 = place_belt(&mut world, &mut net, &[0], 6, 5, Direction::East);
    let belt_out2 = place_belt(&mut world, &mut net, &[0], 5, 6, Direction::South);

    assert!(net.connect_belt_to_splitter(belt_in1, splitter));
    pool.add_input(splitter, belt_in1);
    assert!(net.connect_belt_to_splitter(belt_in2, splitter));
    pool.add_input(splitter, belt_in2);
    assert!(net.connect_splitter_to_belt(belt_out1, splitter));
    pool.add_output(splitter, belt_out1);
    assert!(net.connect_splitter_to_belt(belt_out2, splitter));
    pool.add_output(splitter, belt_out2);
    pool.detect_mode(splitter);

    assert_eq!(pool.get(splitter).unwrap().mode, octofact::sim::splitter::SplitterMode::Balancer);
}

#[test]
fn splitter_connect_rejects_non_endpoint_belt() {
    // A merged belt in the middle of a line should NOT connect to a splitter
    let mut world = WorldState::new();
    let mut net = BeltNetwork::new();
    let mut pool = octofact::sim::splitter::SplitterPool::new();

    let splitter = place_splitter(&mut world, &mut pool, &[0], 7, 5);

    // Place 3 belts going East: (4,5) (5,5) (6,5) — they merge into one line
    let _belt1 = place_belt(&mut world, &mut net, &[0], 4, 5, Direction::East);
    let belt2 = place_belt(&mut world, &mut net, &[0], 5, 5, Direction::East);
    let belt3 = place_belt(&mut world, &mut net, &[0], 6, 5, Direction::East);

    // belt3 is at offset 0 (output end) — should connect
    assert!(net.connect_belt_to_splitter(belt3, splitter));
    // belt2 is in the middle — should NOT connect
    assert!(!net.connect_belt_to_splitter(belt2, splitter));
}

#[test]
fn splitter_connect_rejects_non_open_endpoint() {
    // A belt whose output_end is already Belt should not override with Splitter
    let mut world = WorldState::new();
    let mut net = BeltNetwork::new();
    let mut pool = octofact::sim::splitter::SplitterPool::new();

    let splitter = place_splitter(&mut world, &mut pool, &[0], 7, 5);

    // Place 2 belts going East: (5,5) then (6,5) — output is Belt connection
    let _belt1 = place_belt(&mut world, &mut net, &[0], 6, 5, Direction::East);
    let belt2 = place_belt(&mut world, &mut net, &[0], 5, 5, Direction::East);

    // belt2 is NOT at offset 0 (it was merged as upstream), so connect should fail
    // Actually after merge, belt1 is at offset 0 and belt2 is at the input end
    // Let's check: belt1 output_end is Open, belt2's segment is at offset FP_SCALE
    // connect_belt_to_splitter requires offset 0, so belt2 fails
    assert!(!net.connect_belt_to_splitter(belt2, splitter));
}

#[test]
fn disconnect_splitter_ports_clears_belt_ends() {
    let mut world = WorldState::new();
    let mut net = BeltNetwork::new();
    let mut pool = octofact::sim::splitter::SplitterPool::new();

    let splitter = place_splitter(&mut world, &mut pool, &[0], 5, 5);
    let belt_in = place_belt(&mut world, &mut net, &[0], 4, 5, Direction::East);
    let belt_out = place_belt(&mut world, &mut net, &[0], 6, 5, Direction::East);

    assert!(net.connect_belt_to_splitter(belt_in, splitter));
    assert!(net.connect_splitter_to_belt(belt_out, splitter));

    // Both endpoints should be Splitter
    let seg_in = net.segment(belt_in).unwrap();
    assert_eq!(net.line(seg_in.line).unwrap().output_end, BeltEnd::Splitter { entity: splitter });
    let seg_out = net.segment(belt_out).unwrap();
    assert_eq!(net.line(seg_out.line).unwrap().input_end, BeltEnd::Splitter { entity: splitter });

    // Disconnect
    net.disconnect_splitter_ports(splitter);

    let seg_in = net.segment(belt_in).unwrap();
    assert_eq!(net.line(seg_in.line).unwrap().output_end, BeltEnd::Open);
    let seg_out = net.segment(belt_out).unwrap();
    assert_eq!(net.line(seg_out.line).unwrap().input_end, BeltEnd::Open);
}

#[test]
fn removing_output_end_belt_clears_splitter_connection() {
    let mut world = WorldState::new();
    let mut net = BeltNetwork::new();
    let mut pool = octofact::sim::splitter::SplitterPool::new();

    let splitter = place_splitter(&mut world, &mut pool, &[0], 5, 5);

    // Place 2 belts going East: (3,5) then (4,5)
    let belt1 = place_belt(&mut world, &mut net, &[0], 3, 5, Direction::East);
    let belt2 = place_belt(&mut world, &mut net, &[0], 4, 5, Direction::East);
    // They merge: belt2 at offset 0 (output end), belt1 at offset FP_SCALE

    assert!(net.connect_belt_to_splitter(belt2, splitter));
    pool.add_input(splitter, belt2);
    pool.detect_mode(splitter);

    // Remove belt2 (output end) — should clear Splitter connection
    net.on_belt_removed(belt2);

    // belt1 is now the only segment; its line's output_end should be Open
    let seg1 = net.segment(belt1).unwrap();
    assert_eq!(net.line(seg1.line).unwrap().output_end, BeltEnd::Open);
}

#[test]
fn removing_input_end_belt_clears_splitter_connection() {
    let mut world = WorldState::new();
    let mut net = BeltNetwork::new();
    let mut pool = octofact::sim::splitter::SplitterPool::new();

    let splitter = place_splitter(&mut world, &mut pool, &[0], 2, 5);

    // Place 2 belts going East: (4,5) then (3,5) — they merge
    let belt1 = place_belt(&mut world, &mut net, &[0], 4, 5, Direction::East);
    let belt2 = place_belt(&mut world, &mut net, &[0], 3, 5, Direction::East);
    // belt1 at offset 0, belt2 at offset FP_SCALE (input end)

    assert!(net.connect_splitter_to_belt(belt2, splitter));
    pool.add_output(splitter, belt2);
    pool.detect_mode(splitter);

    // Verify input_end is Splitter
    let seg2 = net.segment(belt2).unwrap();
    assert_eq!(net.line(seg2.line).unwrap().input_end, BeltEnd::Splitter { entity: splitter });

    // Remove belt2 (input end) — should clear Splitter connection
    net.on_belt_removed(belt2);

    // belt1 is now the only segment; its line's input_end should be Open
    let seg1 = net.segment(belt1).unwrap();
    assert_eq!(net.line(seg1.line).unwrap().input_end, BeltEnd::Open);
}

#[test]
fn line_splitter_connections_returns_both() {
    let mut world = WorldState::new();
    let mut net = BeltNetwork::new();
    let mut pool = octofact::sim::splitter::SplitterPool::new();

    let splitter_a = place_splitter(&mut world, &mut pool, &[0], 3, 5);
    let splitter_b = place_splitter(&mut world, &mut pool, &[0], 6, 5);

    // Place belt at (4,5) going East, connect to both splitters
    let belt = place_belt(&mut world, &mut net, &[0], 4, 5, Direction::East);

    // Output end faces East toward (5,5) — but splitter_b is at (6,5), not (5,5)
    // So let me adjust: single belt, splitter behind and splitter ahead
    // Actually for a single-segment belt, output=offset 0, input=offset 0 too (same)
    // For a single belt, offset=0 and length=FP_SCALE, so input end is also offset=0
    // Wait, input end is at offset line.length - FP_SCALE = 0. So both ends are the same segment.

    // Let me use connect directly
    assert!(net.connect_belt_to_splitter(belt, splitter_b));
    // For input end, offset must equal length - FP_SCALE = 0, which it does
    assert!(net.connect_splitter_to_belt(belt, splitter_a));

    let (out, inp) = net.line_splitter_connections(belt);
    assert_eq!(out, Some(splitter_b));
    assert_eq!(inp, Some(splitter_a));
}
