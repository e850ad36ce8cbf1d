use octofact::game::inventory::Inventory;
use octofact::game::items::ItemId;
use octofact::game::placement::{
    check_cross_tile_belt_link, cross_tile_mirror, destroy_entity_at, find_same_dir_belt_at, rotate_entity_at,
    try_place_at,
};
use octofact::game::world::{Direction, EntityId, WorldState};
use octofact::sim::belt::{BeltEnd, BeltNetwork};
use octofact::sim::machine::MachinePool;
use octofact::sim::splitter::{SplitterMode, SplitterPool};
use octofact::sim::storage::StoragePool;
use octofact::sim::power::{PowerNetwork, Satisfaction};

struct Game {
    world: WorldState,
    inv: Inventory,
    net: BeltNetwork,
    machines: MachinePool,
    splitters: SplitterPool,
    storages: StoragePool,
    power: PowerNetwork,
}

impl Game {
    fn new() -> Self {
        Game {
            world: WorldState::new(),
            inv: Inventory::new(),
            net: BeltNetwork::new(),
            machines: MachinePool::new(),
            splitters: SplitterPool::new(),
            storages: StoragePool::new(),
            power: PowerNetwork::new(),
        }
    }

    fn place(&mut self, free: bool, xy: (i32, i32), item: ItemId, dir: Direction) -> bool {
        try_place_at(
            &mut self.world,
            &mut self.inv,
            &mut self.net,
            &mut self.machines,
            &mut self.splitters,
            &mut self.storages,
            &mut self.power,
            free,
            &[0],
            xy,
            item,
            dir,
            None,
            None,
        )
    }

    fn destroy(&mut self, xy: (i32, i32)) -> Option<ItemId> {
        destroy_entity_at(
            &mut self.world,
            &mut self.inv,
            &mut self.net,
            &mut self.machines,
            &mut self.splitters,
            &mut self.storages,
            &mut self.power,
            &[0],
            xy,
        )
    }

    fn rotate(&mut self, xy: (i32, i32)) -> bool {
        rotate_entity_at(&mut self.world, &mut self.net, &[0], xy)
    }

    fn at(&self, xy: (i32, i32)) -> EntityId {
        self.world.entity_at(&[0], xy).unwrap()
    }

    fn ends(&self, belt: EntityId) -> (BeltEnd, BeltEnd) {
        let seg = self.net.segment(belt).unwrap();
        let line = self.net.line(seg.line).unwrap();
        (line.output_end, line.input_end)
    }
}

#[test]
fn machine_placed_after_belts_ties_its_ports() {
    let mut g = Game::new();
    // Composer facing North at (0,0): input port on the South side of cell
    // (0,1), output port on the North side of cell (0,0).
    assert!(g.place(true, (0, 2), ItemId::Belt, Direction::North));
    assert!(g.place(true, (0, -1), ItemId::Belt, Direction::North));
    assert!(g.place(true, (0, 0), ItemId::Composer, Direction::North));
    let m = g.at((0, 0));
    let feeding = g.at((0, 2));
    let fed = g.at((0, -1));
    assert_eq!(g.ends(feeding).0, BeltEnd::MachineInput { entity: m, slot: 0 });
    assert_eq!(g.ends(fed).1, BeltEnd::MachineOutput { entity: m, slot: 0 });
    assert_eq!(g.machines.index_of(m), Some(0));
}

#[test]
fn belt_placed_after_machine_ties_to_port() {
    let mut g = Game::new();
    assert!(g.place(true, (0, 0), ItemId::Composer, Direction::North));
    assert!(g.place(true, (0, 2), ItemId::Belt, Direction::North));
    let m = g.at((0, 0));
    assert_eq!(g.ends(g.at((0, 2))).0, BeltEnd::MachineInput { entity: m, slot: 0 });
}

#[test]
fn belt_facing_wrong_way_is_not_tied() {
    let mut g = Game::new();
    assert!(g.place(true, (0, 0), ItemId::Composer, Direction::North));
    // Flows away from the input port: no connection.
    assert!(g.place(true, (0, 2), ItemId::Belt, Direction::South));
    assert_eq!(g.ends(g.at((0, 2))), (BeltEnd::Open, BeltEnd::Open));
}

#[test]
fn placement_pays_from_inventory() {
    let mut g = Game::new();
    assert!(!g.place(false, (3, 3), ItemId::Belt, Direction::East));
    assert_eq!(g.world.entity_at(&[0], (3, 3)), None);
    g.inv.add(ItemId::Belt, 2);
    assert!(g.place(false, (3, 3), ItemId::Belt, Direction::East));
    assert_eq!(g.inv.count(ItemId::Belt), 1);
    // An occupied cell refuses the placement and keeps the item.
    assert!(!g.place(false, (3, 3), ItemId::Belt, Direction::East));
    assert_eq!(g.inv.count(ItemId::Belt), 1);
    // Items that build nothing are refused.
    g.inv.add(ItemId::Point, 1);
    assert!(!g.place(false, (9, 9), ItemId::Point, Direction::East));
    assert_eq!(g.inv.count(ItemId::Point), 1);
}

#[test]
fn belts_around_a_splitter_are_tied() {
    let mut g = Game::new();
    assert!(g.place(true, (5, 5), ItemId::Splitter, Direction::North));
    assert!(g.place(true, (4, 5), ItemId::Belt, Direction::East));
    assert!(g.place(true, (6, 5), ItemId::Belt, Direction::East));
    let s = g.at((5, 5));
    let inb = g.at((4, 5));
    let outb = g.at((6, 5));
    assert_eq!(g.ends(inb).0, BeltEnd::Splitter { entity: s });
    assert_eq!(g.ends(outb).1, BeltEnd::Splitter { entity: s });
    let st = g.splitters.get(s).unwrap();
    assert_eq!(st.inputs, vec![inb]);
    assert_eq!(st.outputs, vec![outb]);
    assert_eq!(st.mode, SplitterMode::Splitter);
}

#[test]
fn splitter_placed_after_belts_ties_them() {
    let mut g = Game::new();
    assert!(g.place(true, (4, 5), ItemId::Belt, Direction::East));
    assert!(g.place(true, (5, 4), ItemId::Belt, Direction::South));
    assert!(g.place(true, (6, 5), ItemId::Belt, Direction::East));
    assert!(g.place(true, (5, 5), ItemId::Splitter, Direction::North));
    let s = g.at((5, 5));
    let st = g.splitters.get(s).unwrap();
    assert_eq!(st.inputs.len(), 2);
    assert_eq!(st.outputs, vec![g.at((6, 5))]);
    assert_eq!(st.mode, SplitterMode::Merger);
}

#[test]
fn destroying_a_belt_releases_its_splitter() {
    let mut g = Game::new();
    assert!(g.place(true, (5, 5), ItemId::Splitter, Direction::North));
    assert!(g.place(true, (4, 5), ItemId::Belt, Direction::East));
    let s = g.at((5, 5));
    let b = g.at((4, 5));
    assert_eq!(g.splitters.get(s).unwrap().inputs, vec![b]);
    assert_eq!(g.destroy((4, 5)), Some(ItemId::Belt));
    assert_eq!(g.world.entity_at(&[0], (4, 5)), None);
    assert!(g.net.segment(b).is_none());
    assert!(g.splitters.get(s).unwrap().inputs.is_empty());
    assert_eq!(g.splitters.get(s).unwrap().mode, SplitterMode::Inactive);
}

#[test]
fn destroying_a_machine_leaves_its_pool() {
    let mut g = Game::new();
    assert!(g.place(true, (0, 0), ItemId::Composer, Direction::North));
    let m = g.at((1, 1));
    assert_eq!(g.destroy((1, 1)), Some(ItemId::Composer));
    assert_eq!(g.machines.index_of(m), None);
    for y in 0..2 {
        for x in 0..2 {
            assert_eq!(g.world.entity_at(&[0], (x, y)), None);
        }
    }
}

#[test]
fn destroying_a_splitter_frees_the_belt_ends() {
    let mut g = Game::new();
    assert!(g.place(true, (4, 5), ItemId::Belt, Direction::East));
    assert!(g.place(true, (6, 5), ItemId::Belt, Direction::East));
    assert!(g.place(true, (5, 5), ItemId::Splitter, Direction::North));
    let s = g.at((5, 5));
    assert_eq!(g.destroy((5, 5)), Some(ItemId::Splitter));
    assert!(g.splitters.get(s).is_none());
    assert_eq!(g.ends(g.at((4, 5))).0, BeltEnd::Open);
    assert_eq!(g.ends(g.at((6, 5))).1, BeltEnd::Open);
}

#[test]
fn destroying_an_empty_cell_does_nothing() {
    let mut g = Game::new();
    assert_eq!(g.destroy((7, 7)), None);
}

#[test]
fn rotating_a_machine_reties_its_ports() {
    let mut g = Game::new();
    assert!(g.place(true, (0, 2), ItemId::Belt, Direction::North));
    assert!(g.place(true, (0, 0), ItemId::Composer, Direction::North));
    let m = g.at((0, 0));
    let b = g.at((0, 2));
    assert_eq!(g.ends(b).0, BeltEnd::MachineInput { entity: m, slot: 0 });
    assert!(g.rotate((1, 1)));
    assert_eq!(g.world.direction(m), Some(Direction::East));
    // The input port no longer faces the belt below the machine.
    assert_eq!(g.ends(b).0, BeltEnd::Open);
    // Three more turns bring it back, tied again.
    assert!(g.rotate((0, 0)));
    assert!(g.rotate((0, 0)));
    assert!(g.rotate((0, 0)));
    assert_eq!(g.world.direction(m), Some(Direction::North));
    assert_eq!(g.ends(b).0, BeltEnd::MachineInput { entity: m, slot: 0 });
}

#[test]
fn belts_and_empty_cells_do_not_rotate() {
    let mut g = Game::new();
    assert!(g.place(true, (3, 3), ItemId::Belt, Direction::East));
    assert!(!g.rotate((3, 3)));
    assert_eq!(g.world.direction(g.at((3, 3))), Some(Direction::East));
    assert!(!g.rotate((8, 8)));
}

fn place_on(g: &mut Game, tile: &[u8], xy: (i32, i32), dir: Direction) -> EntityId {
    assert!(try_place_at(
        &mut g.world,
        &mut g.inv,
        &mut g.net,
        &mut g.machines,
        &mut g.splitters,
        &mut g.storages,
        &mut g.power,
        true,
        tile,
        xy,
        ItemId::Belt,
        dir,
        None,
        None,
    ));
    g.world.entity_at(tile, xy).unwrap()
}

#[test]
fn cross_tile_mirror_values() {
    assert_eq!(cross_tile_mirror((33, 0)), (-31, 0));
    assert_eq!(cross_tile_mirror((-32, 5)), (32, 5));
    assert_eq!(cross_tile_mirror((0, 31)), (0, 31));
    assert_eq!(cross_tile_mirror((40, -40)), (-24, 24));
}

#[test]
fn same_dir_belt_lookup() {
    let mut g = Game::new();
    let b = place_on(&mut g, &[0], (3, 4), Direction::North);
    assert_eq!(find_same_dir_belt_at(&g.world, &[0], (3, 4), Direction::North), Some(b));
    assert_eq!(find_same_dir_belt_at(&g.world, &[0], (3, 4), Direction::East), None);
    assert_eq!(find_same_dir_belt_at(&g.world, &[1], (3, 4), Direction::North), None);
    assert_eq!(find_same_dir_belt_at(&g.world, &[0], (3, 5), Direction::North), None);
}

#[test]
fn cross_tile_belts_link_both_ways() {
    let mut g = Game::new();
    // Tile A: a belt on the eastern edge line, facing East.
    let a = place_on(&mut g, &[0], (32, 0), Direction::East);
    // Tile B, beyond that edge: a belt facing East just inside its western edge.
    let b = place_on(&mut g, &[0, 1], (-31, 0), Direction::East);
    check_cross_tile_belt_link(&g.world, &mut g.net, a, &[0], (32, 0), Direction::East, Some(&[0, 1]), None);
    let la = g.net.segment(a).unwrap().line;
    let lb = g.net.segment(b).unwrap().line;
    assert_eq!(g.net.line(la).unwrap().output_end, BeltEnd::Belt(lb));
    assert_eq!(g.net.line(lb).unwrap().input_end, BeltEnd::Belt(la));
}

#[test]
fn cross_tile_link_needs_the_neighbour_tile() {
    let mut g = Game::new();
    let a = place_on(&mut g, &[0], (32, 0), Direction::East);
    let _b = place_on(&mut g, &[0, 1], (-31, 0), Direction::East);
    check_cross_tile_belt_link(&g.world, &mut g.net, a, &[0], (32, 0), Direction::East, None, None);
    let la = g.net.segment(a).unwrap().line;
    assert_eq!(g.net.line(la).unwrap().output_end, BeltEnd::Open);
    // A belt facing another way across the edge is not linked either.
    let mut h = Game::new();
    let c = place_on(&mut h, &[0], (32, 0), Direction::East);
    let _d = place_on(&mut h, &[0, 1], (-31, 0), Direction::North);
    check_cross_tile_belt_link(&h.world, &mut h.net, c, &[0], (32, 0), Direction::East, Some(&[0, 1]), None);
    let lc = h.net.segment(c).unwrap().line;
    assert_eq!(h.net.line(lc).unwrap().output_end, BeltEnd::Open);
}

#[test]
fn placed_machines_and_generators_join_the_power_network() {
    let mut g = Game::new();
    assert!(g.place(true, (0, 0), ItemId::Composer, Direction::North));
    let m = g.at((0, 0));
    g.power.solve();
    // No producer yet: the machine gets nothing.
    assert_eq!(g.power.satisfaction(m), Some(Satisfaction { supplied: 0, demanded: 1 }));
    assert!(g.place(true, (5, 0), ItemId::Dynamo, Direction::North));
    let d = g.at((5, 0));
    assert_eq!(g.power.node_count(), 2);
    g.power.solve();
    assert_eq!(g.power.satisfaction(m), Some(Satisfaction { supplied: 1, demanded: 1 }));
    // Source machines are exempt.
    assert!(g.place(true, (-10, -10), ItemId::SourceMachine, Direction::North));
    let src = g.at((-10, -10));
    g.power.solve();
    assert_eq!(g.power.satisfaction(src), Some(Satisfaction { supplied: 1, demanded: 1 }));
    // Belts take no part in power.
    assert!(g.place(true, (20, 20), ItemId::Belt, Direction::East));
    assert_eq!(g.power.node_count(), 3);
    // Destroying the generator takes it out of the network.
    assert_eq!(g.destroy((5, 0)), Some(ItemId::Dynamo));
    assert_eq!(g.power.satisfaction(d), None);
    g.power.solve();
    assert_eq!(g.power.satisfaction(m), Some(Satisfaction { supplied: 0, demanded: 1 }));
    assert_eq!(g.destroy((0, 0)), Some(ItemId::Composer));
    assert_eq!(g.power.satisfaction(m), None);
    assert_eq!(g.power.node_count(), 1);
}

#[test]
fn placing_an_edge_belt_links_across_the_edge() {
    let mut g = Game::new();
    // Tile B, beyond the eastern edge of tile A: a belt facing East just inside.
    let b = place_on(&mut g, &[0, 1], (-31, 0), Direction::East);
    // Placing a belt on A's eastern edge line links it to B's belt.
    assert!(try_place_at(
        &mut g.world,
        &mut g.inv,
        &mut g.net,
        &mut g.machines,
        &mut g.splitters,
        &mut g.storages,
        &mut g.power,
        true,
        &[0],
        (32, 0),
        ItemId::Belt,
        Direction::East,
        Some(&[0, 1]),
        None,
    ));
    let a = g.world.entity_at(&[0], (32, 0)).unwrap();
    let la = g.net.segment(a).unwrap().line;
    let lb = g.net.segment(b).unwrap().line;
    assert_eq!(g.net.line(la).unwrap().output_end, BeltEnd::Belt(lb));
    assert_eq!(g.net.line(lb).unwrap().input_end, BeltEnd::Belt(la));
}
