//! Placement rules: what a newly placed belt, machine, splitter or storage
//! building connects to among its neighbours, and placing a structure with
//! all its registrations.

use vstd::prelude::*;
use crate::game::world::{
    Direction, EntityId, StructureKind, WorldState, dir_index, dir_of, grid_offset,
};
use crate::sim::belt::{BeltEnd, BeltNetwork, TransportLineId, FP_SCALE, with_input_end, with_output_end};
use crate::sim::belt::{is_within_tile, within_tile, opposite_of};
use crate::sim::splitter::{SplitterPool, belt_added, mode_detected, splitter_added};
use crate::sim::machine::{MachinePool, machine_added, index_in};
use crate::sim::storage::{StoragePool, storage_added};
use crate::sim::power::{
    PowerNetwork, PowerNodeKind, DYNAMO_RATE, MACHINE_CONSUMPTION, QUADRUPOLE_RATE, full, node_ids, node_is, unpowered,
};
use crate::sim::belt::{
    is_belt_placement, is_belt_removal, end_splitter, out_without_machine, in_without_machine,
    without_splitter, out_without_storage, in_without_storage,
};
use crate::sim::machine::{ItemStack, slot_total, swapped_out};
use crate::sim::splitter::without_belt;
use crate::game::inventory::after_add;
use crate::game::world::{is_removal, lemma_occupant_is_placed};
use crate::game::inventory::{Inventory, after_remove, count_in};
use crate::game::items::ItemId;
use crate::game::world::{in_footprint, is_placement, kind_of_item, placed_footprint};
use crate::game::items::{MachineType, machine_footprint};
use crate::game::world::rotated_footprint;
use crate::sim::inserter::{
    PortKind, RotatedPort, compatible, is_first_match, kind_rotated_ports, port_matches,
    belt_compatible_with_port, rotated_ports, rotated_structure_ports, structure_port_at_cell_on_side,
    lemma_ports_on_edges, lemma_storage_ports_on_edges, machine_ports, rotate_layout,
};

verus! {

// ---------------------------------------------------------------------------
// What one connection does to the belt network
// ---------------------------------------------------------------------------

/// The two networks hold the same segments and lines.
pub open spec fn net_same(after: BeltNetwork, before: BeltNetwork) -> bool {
    &&& forall|e: EntityId| #[trigger] after.segment_of(e) == before.segment_of(e)
    &&& forall|id: TransportLineId| #[trigger] after.line_at(id) == before.line_at(id)
    &&& after.units() == before.units()
}

/// A connection can attach to the output end (`out`) or the input end of
/// `belt`'s line: the belt is at that end, and, with `need_open`, the end is
/// not connected yet.
pub open spec fn link_applies(net: BeltNetwork, belt: EntityId, out: bool, need_open: bool) -> bool {
    &&& net.segment_of(belt) matches Some(seg)
    &&& if out {
        seg.offset == 0
    } else {
        seg.offset + FP_SCALE == net.line_at(seg.line)->0.length
    }
    &&& need_open ==> (if out {
        net.line_at(net.segment_of(belt)->0.line)->0.output_end
    } else {
        net.line_at(net.segment_of(belt)->0.line)->0.input_end
    }) == BeltEnd::Open
}

/// `after` is `before` with the output end (`out`) or input end of `belt`'s
/// line set to `end` where the connection applies, and unchanged elsewhere.
pub open spec fn end_linked(after: BeltNetwork, before: BeltNetwork, belt: EntityId, out: bool, end: BeltEnd, need_open: bool) -> bool {
    if link_applies(before, belt, out, need_open) {
        let seg = before.segment_of(belt)->0;
        let l = before.line_at(seg.line)->0;
        &&& forall|e: EntityId| #[trigger] after.segment_of(e) == before.segment_of(e)
        &&& after.units() == before.units()
        &&& after.line_at(seg.line) == Some(if out { with_output_end(l, end) } else { with_input_end(l, end) })
        &&& forall|id: TransportLineId| id != seg.line ==> #[trigger] after.line_at(id) == before.line_at(id)
    } else {
        net_same(after, before)
    }
}

// ---------------------------------------------------------------------------
// Ports next to a cell
// ---------------------------------------------------------------------------

/// The first port of `ports` on `side` (at `cell` when one is given).
pub open spec fn first_port(ports: Seq<RotatedPort>, side: Direction, cell: Option<(i32, i32)>) -> Option<RotatedPort> {
    if exists|i: int| 0 <= i < ports.len() && #[trigger] port_matches(ports[i], side, cell) {
        let i = choose|i: int| 0 <= i < ports.len() && #[trigger] port_matches(ports[i], side, cell)
            && forall|j: int| 0 <= j < i ==> !#[trigger] port_matches(ports[j], side, cell);
        Some(ports[i])
    } else {
        None
    }
}

proof fn lemma_ids_grew(after_ids: Seq<EntityId>, before_ids: Seq<EntityId>, x: EntityId, new: EntityId)
    requires
        after_ids == before_ids || after_ids == before_ids.push(new),
        index_in(after_ids, x) is Some,
    ensures
        index_in(before_ids, x) is Some || x == new,
{
    if after_ids != before_ids && x != new {
        let i = choose|i: int| 0 <= i < after_ids.len() && after_ids[i] == x;
        assert(i < before_ids.len());
        assert(before_ids[i] == x);
    }
}

proof fn lemma_first_port(ports: Seq<RotatedPort>, side: Direction, cell: Option<(i32, i32)>, r: Option<RotatedPort>)
    requires
        is_first_match(ports, side, cell, r),
    ensures
        r == first_port(ports, side, cell),
{
    match r {
        Some(p) => {
            let i = choose|i: int| 0 <= i < ports.len() && ports[i] == p && #[trigger] port_matches(ports[i], side, cell)
                && forall|j: int| 0 <= j < i ==> !#[trigger] port_matches(ports[j], side, cell);
            let c = choose|c: int| 0 <= c < ports.len() && #[trigger] port_matches(ports[c], side, cell)
                && forall|j: int| 0 <= j < c ==> !#[trigger] port_matches(ports[j], side, cell);
            if c < i {
                assert(!port_matches(ports[c], side, cell));
            } else if i < c {
                assert(!port_matches(ports[i], side, cell));
            }
        },
        None => {},
    }
}

/// The cell next to `xy` in direction `d`.
pub open spec fn step_cell(xy: (i32, i32), d: Direction) -> (i32, i32) {
    ((xy.0 + grid_offset(d).0) as i32, (xy.1 + grid_offset(d).1) as i32)
}

/// A structure of kind `kind` takes part in links of this family: machines,
/// or storage buildings when `storage`.
pub open spec fn in_family(kind: StructureKind, storage: bool) -> bool {
    if storage {
        kind == StructureKind::Storage
    } else {
        kind is Machine
    }
}

/// The port of the machine (or, with `storage`, storage building) next to a
/// belt at `xy` facing `belt_dir`, on the cell in direction `check_dir`, that
/// faces the belt and suits its direction.
pub open spec fn structure_link(
    w: WorldState,
    tile: Seq<u8>,
    xy: (i32, i32),
    belt_dir: Direction,
    check_dir: Direction,
    storage: bool,
) -> Option<(EntityId, RotatedPort)> {
    let adj = step_cell(xy, check_dir);
    match w.occupant(tile, adj) {
        Some(e) => match w.info(e) {
            Some(inf) => if in_family(inf.2, storage) {
                let cx = adj.0 - inf.1.0;
                let cy = adj.1 - inf.1.1;
                if i32::MIN <= cx <= i32::MAX && i32::MIN <= cy <= i32::MAX {
                    match first_port(kind_rotated_ports(inf.2, inf.3), dir_of(dir_index(check_dir) + 2), Some((cx as i32, cy as i32))) {
                        Some(p) => if compatible(p, belt_dir) {
                            Some((e, p))
                        } else {
                            None
                        },
                        None => None,
                    }
                } else {
                    None
                }
            } else {
                None
            },
            None => None,
        },
        None => None,
    }
}

/// The belt-line end a port link sets: a belt feeding an input port gets
/// its output end tied to the structure; a belt fed by an output port gets
/// its input end tied to it.
pub open spec fn port_end(e: EntityId, p: RotatedPort, storage: bool) -> BeltEnd {
    match p.kind {
        PortKind::Input => if storage {
            BeltEnd::StorageInput { entity: e, slot: p.slot }
        } else {
            BeltEnd::MachineInput { entity: e, slot: p.slot }
        },
        PortKind::Output => if storage {
            BeltEnd::StorageOutput { entity: e, slot: p.slot }
        } else {
            BeltEnd::MachineOutput { entity: e, slot: p.slot }
        },
    }
}

/// The effect of linking `belt` to the port found, if any.
pub open spec fn port_step(after: BeltNetwork, before: BeltNetwork, belt: EntityId, link: Option<(EntityId, RotatedPort)>, storage: bool) -> bool {
    match link {
        Some((e, p)) => end_linked(after, before, belt, p.kind == PortKind::Input, port_end(e, p, storage), false),
        None => net_same(after, before),
    }
}

/// `after` is `before` with a belt at `xy` facing `belt_dir` linked to the
/// ports around it, looking North, East, South and West in turn.
pub open spec fn belt_linked_around(
    after: BeltNetwork,
    before: BeltNetwork,
    w: WorldState,
    tile: Seq<u8>,
    belt: EntityId,
    xy: (i32, i32),
    belt_dir: Direction,
    storage: bool,
) -> bool {
    exists|n1: BeltNetwork, n2: BeltNetwork, n3: BeltNetwork|
        #[trigger] port_step(n1, before, belt, structure_link(w, tile, xy, belt_dir, Direction::North, storage), storage)
        && #[trigger] port_step(n2, n1, belt, structure_link(w, tile, xy, belt_dir, Direction::East, storage), storage)
        && #[trigger] port_step(n3, n2, belt, structure_link(w, tile, xy, belt_dir, Direction::South, storage), storage)
        && port_step(after, n3, belt, structure_link(w, tile, xy, belt_dir, Direction::West, storage), storage)
}

/// Find the port link of a belt at `xy` in direction `check_dir`.
fn find_structure_link(
    world: &WorldState,
    tile_addr: &[u8],
    grid_xy: (i32, i32),
    belt_dir: Direction,
    check_dir: Direction,
    storage: bool,
) -> (r: Option<(EntityId, RotatedPort)>)
    requires
        world.wf(),
        i32::MIN < grid_xy.0 < i32::MAX,
        i32::MIN < grid_xy.1 < i32::MAX,
    ensures
        r == structure_link(*world, tile_addr@, grid_xy, belt_dir, check_dir, storage),
{
    let (dx, dy) = check_dir.grid_offset_i32();
    let adj = (grid_xy.0 + dx, grid_xy.1 + dy);
    let adj_entity = match world.entity_at(tile_addr, adj) {
        Some(e) => e,
        None => return None,
    };
    let kind = match world.kind(adj_entity) {
        Some(k) => k,
        None => return None,
    };
    let fits = if storage {
        kind == StructureKind::Storage
    } else {
        match kind {
            StructureKind::Machine(_) => true,
            _ => false,
        }
    };
    if !fits {
        return None;
    }
    let facing = match world.direction(adj_entity) {
        Some(d) => d,
        None => return None,
    };
    let origin = match world.position(adj_entity) {
        Some(p) => p,
        None => return None,
    };
    // Cell offset of `adj` within the structure's footprint.
    let cx = adj.0 as i64 - origin.gx as i64;
    let cy = adj.1 as i64 - origin.gy as i64;
    if cx < i32::MIN as i64 || cx > i32::MAX as i64 || cy < i32::MIN as i64 || cy > i32::MAX as i64 {
        return None;
    }
    let found = structure_port_at_cell_on_side(kind, facing, (cx as i32, cy as i32), check_dir.opposite());
    proof {
        lemma_first_port(kind_rotated_ports(kind, facing), dir_of(dir_index(check_dir) + 2), Some((cx as i32, cy as i32)), found);
    }
    match found {
        Some(port) => if belt_compatible_with_port(&port, belt_dir) {
            Some((adj_entity, port))
        } else {
            None
        },
        None => None,
    }
}

/// Link `belt` to the port found, if any.
fn apply_port_link(belts: &mut BeltNetwork, belt: EntityId, link: Option<(EntityId, RotatedPort)>, storage: bool)
    requires
        old(belts).wf(),
    ensures
        final(belts).wf(),
        port_step(*final(belts), *old(belts), belt, link, storage),
{
    match link {
        Some((e, port)) => match port.kind {
            PortKind::Input => if storage {
                belts.connect_belt_to_storage_input(belt, e, port.slot);
            } else {
                belts.connect_belt_to_machine_input(belt, e, port.slot);
            },
            PortKind::Output => if storage {
                belts.connect_storage_output_to_belt(belt, e, port.slot);
            } else {
                belts.connect_machine_output_to_belt(belt, e, port.slot);
            },
        },
        None => {},
    }
}

fn connect_belt_around(
    world: &WorldState,
    belts: &mut BeltNetwork,
    belt_entity: EntityId,
    tile_addr: &[u8],
    grid_xy: (i32, i32),
    belt_dir: Direction,
    storage: bool,
)
    requires
        world.wf(),
        old(belts).wf(),
        i32::MIN < grid_xy.0 < i32::MAX,
        i32::MIN < grid_xy.1 < i32::MAX,
    ensures
        final(belts).wf(),
        belt_linked_around(*final(belts), *old(belts), *world, tile_addr@, belt_entity, grid_xy, belt_dir, storage),
{
    let ghost n0 = *belts;
    let l1 = find_structure_link(world, tile_addr, grid_xy, belt_dir, Direction::North, storage);
    apply_port_link(belts, belt_entity, l1, storage);
    let ghost n1 = *belts;
    let l2 = find_structure_link(world, tile_addr, grid_xy, belt_dir, Direction::East, storage);
    apply_port_link(belts, belt_entity, l2, storage);
    let ghost n2 = *belts;
    let l3 = find_structure_link(world, tile_addr, grid_xy, belt_dir, Direction::South, storage);
    apply_port_link(belts, belt_entity, l3, storage);
    let ghost n3 = *belts;
    let l4 = find_structure_link(world, tile_addr, grid_xy, belt_dir, Direction::West, storage);
    apply_port_link(belts, belt_entity, l4, storage);
    proof {
        assert(port_step(n1, n0, belt_entity, structure_link(*world, tile_addr@, grid_xy, belt_dir, Direction::North, storage), storage));
        assert(port_step(n2, n1, belt_entity, structure_link(*world, tile_addr@, grid_xy, belt_dir, Direction::East, storage), storage));
        assert(port_step(n3, n2, belt_entity, structure_link(*world, tile_addr@, grid_xy, belt_dir, Direction::South, storage), storage));
    }
}

/// When a belt is placed, check all 4 adjacent cells for machines and
/// connect the belt to a port there that faces it and suits its direction.
pub fn auto_connect_belt_to_machines(
    world: &WorldState,
    belts: &mut BeltNetwork,
    belt_entity: EntityId,
    tile_addr: &[u8],
    grid_xy: (i32, i32),
    belt_dir: Direction,
)
    requires
        world.wf(),
        old(belts).wf(),
        i32::MIN < grid_xy.0 < i32::MAX,
        i32::MIN < grid_xy.1 < i32::MAX,
    ensures
        final(belts).wf(),
        belt_linked_around(*final(belts), *old(belts), *world, tile_addr@, belt_entity, grid_xy, belt_dir, false),
{
    connect_belt_around(world, belts, belt_entity, tile_addr, grid_xy, belt_dir, false);
}

/// When a belt is placed, check all 4 adjacent cells for storage buildings
/// and connect the belt to a port there that faces it and suits its direction.
pub fn auto_connect_belt_to_storage(
    world: &WorldState,
    belts: &mut BeltNetwork,
    belt_entity: EntityId,
    tile_addr: &[u8],
    grid_xy: (i32, i32),
    belt_dir: Direction,
)
    requires
        world.wf(),
        old(belts).wf(),
        i32::MIN < grid_xy.0 < i32::MAX,
        i32::MIN < grid_xy.1 < i32::MAX,
    ensures
        final(belts).wf(),
        belt_linked_around(*final(belts), *old(belts), *world, tile_addr@, belt_entity, grid_xy, belt_dir, true),
{
    connect_belt_around(world, belts, belt_entity, tile_addr, grid_xy, belt_dir, true);
}

// ---------------------------------------------------------------------------
// Belts next to the ports of a newly placed structure
// ---------------------------------------------------------------------------

/// The belt on the cell that port `p` of a structure with origin `xy`
/// faces, if one is there and its direction suits the port.
pub open spec fn port_belt(w: WorldState, tile: Seq<u8>, xy: (i32, i32), p: RotatedPort) -> Option<EntityId> {
    let cell = ((xy.0 + p.cell_offset.0) as i32, (xy.1 + p.cell_offset.1) as i32);
    let adj = step_cell(cell, p.side);
    match w.occupant(tile, adj) {
        Some(b) => match w.info(b) {
            Some(inf) => if inf.2 == StructureKind::Belt && compatible(p, inf.3) {
                Some(b)
            } else {
                None
            },
            None => None,
        },
        None => None,
    }
}

/// The effect of linking the belt at port `p` of structure `e`, if any.
pub open spec fn structure_port_step(
    after: BeltNetwork,
    before: BeltNetwork,
    w: WorldState,
    tile: Seq<u8>,
    e: EntityId,
    xy: (i32, i32),
    p: RotatedPort,
    storage: bool,
) -> bool {
    match port_belt(w, tile, xy, p) {
        Some(b) => end_linked(after, before, b, p.kind == PortKind::Input, port_end(e, p, storage), false),
        None => net_same(after, before),
    }
}

/// `mids` walks from `before` to `after` one port at a time: each network
/// in it is the previous one with the belt at the next port linked.
pub open spec fn link_chain(
    mids: Seq<BeltNetwork>,
    after: BeltNetwork,
    before: BeltNetwork,
    w: WorldState,
    tile: Seq<u8>,
    e: EntityId,
    xy: (i32, i32),
    ports: Seq<RotatedPort>,
    storage: bool,
) -> bool {
    &&& mids.len() == ports.len() + 1
    &&& net_same(mids[0], before)
    &&& net_same(after, mids[ports.len() as int])
    &&& forall|i: int| 0 <= i < ports.len() ==> structure_port_step(mids[i + 1], mids[i], w, tile, e, xy, #[trigger] ports[i], storage)
}

/// `after` is `before` with the belts at the ports `ports` of structure `e`
/// linked to it, port after port.
pub open spec fn ports_linked(
    after: BeltNetwork,
    before: BeltNetwork,
    w: WorldState,
    tile: Seq<u8>,
    e: EntityId,
    xy: (i32, i32),
    ports: Seq<RotatedPort>,
    storage: bool,
) -> bool {
    exists|mids: Seq<BeltNetwork>| #[trigger] link_chain(mids, after, before, w, tile, e, xy, ports, storage)
}

/// Link the belt at one port of structure `e`, if any.
fn link_port_belt(
    world: &WorldState,
    belts: &mut BeltNetwork,
    e: EntityId,
    tile_addr: &[u8],
    grid_xy: (i32, i32),
    port: RotatedPort,
    storage: bool,
)
    requires
        world.wf(),
        old(belts).wf(),
        0 <= port.cell_offset.0 < 3,
        0 <= port.cell_offset.1 < 3,
        i32::MIN + 1 < grid_xy.0,
        grid_xy.0 + 4 <= i32::MAX,
        i32::MIN + 1 < grid_xy.1,
        grid_xy.1 + 4 <= i32::MAX,
    ensures
        final(belts).wf(),
        structure_port_step(*final(belts), *old(belts), *world, tile_addr@, e, grid_xy, port, storage),
{
    let (dx, dy) = port.side.grid_offset_i32();
    let port_cell = (grid_xy.0 + port.cell_offset.0, grid_xy.1 + port.cell_offset.1);
    let adj = (port_cell.0 + dx, port_cell.1 + dy);
    let belt = match world.entity_at(tile_addr, adj) {
        Some(b) => b,
        None => return,
    };
    if world.kind(belt) != Some(StructureKind::Belt) {
        return;
    }
    let belt_dir = match world.direction(belt) {
        Some(d) => d,
        None => return,
    };
    if !belt_compatible_with_port(&port, belt_dir) {
        return;
    }
    match port.kind {
        PortKind::Input => if storage {
            belts.connect_belt_to_storage_input(belt, e, port.slot);
        } else {
            belts.connect_belt_to_machine_input(belt, e, port.slot);
        },
        PortKind::Output => if storage {
            belts.connect_storage_output_to_belt(belt, e, port.slot);
        } else {
            belts.connect_machine_output_to_belt(belt, e, port.slot);
        },
    }
}

fn link_all_ports(
    world: &WorldState,
    belts: &mut BeltNetwork,
    e: EntityId,
    tile_addr: &[u8],
    grid_xy: (i32, i32),
    ports: &Vec<RotatedPort>,
    storage: bool,
)
    requires
        world.wf(),
        old(belts).wf(),
        forall|i: int| 0 <= i < ports@.len() ==> 0 <= (#[trigger] ports@[i]).cell_offset.0 < 3 && 0 <= ports@[i].cell_offset.1 < 3,
        i32::MIN + 1 < grid_xy.0,
        grid_xy.0 + 4 <= i32::MAX,
        i32::MIN + 1 < grid_xy.1,
        grid_xy.1 + 4 <= i32::MAX,
    ensures
        final(belts).wf(),
        ports_linked(*final(belts), *old(belts), *world, tile_addr@, e, grid_xy, ports@, storage),
{
    let mut k: usize = 0;
    let ghost mut mids: Seq<BeltNetwork> = seq![*belts];
    while k < ports.len()
        invariant
            world.wf(),
            belts.wf(),
            k <= ports@.len(),
            forall|i: int| 0 <= i < ports@.len() ==> 0 <= (#[trigger] ports@[i]).cell_offset.0 < 3 && 0 <= ports@[i].cell_offset.1 < 3,
            i32::MIN + 1 < grid_xy.0,
            grid_xy.0 + 4 <= i32::MAX,
            i32::MIN + 1 < grid_xy.1,
            grid_xy.1 + 4 <= i32::MAX,
            mids.len() == k + 1,
            mids[k as int] == *belts,
            net_same(mids[0], *old(belts)),
            forall|i: int| 0 <= i < k ==> structure_port_step(mids[i + 1], mids[i], *world, tile_addr@, e, grid_xy, #[trigger] ports@[i], storage),
        decreases ports@.len() - k,
    {
        let port = ports[k];
        assert(0 <= ports@[k as int].cell_offset.0 < 3);
        link_port_belt(world, belts, e, tile_addr, grid_xy, port, storage);
        proof {
            let m2 = mids.push(*belts);
            assert forall|i: int| 0 <= i < k + 1 implies structure_port_step(m2[i + 1], m2[i], *world, tile_addr@, e, grid_xy, #[trigger] ports@[i], storage) by {
                if i < k {
                    assert(m2[i + 1] == mids[i + 1] && m2[i] == mids[i]);
                }
            }
            mids = m2;
        }
        k = k + 1;
    }
    proof {
        assert(link_chain(mids, *belts, *old(belts), *world, tile_addr@, e, grid_xy, ports@, storage));
    }
}

/// When a machine is placed, check the cell each of its ports faces for a
/// belt whose direction suits the port, and connect it.
pub fn auto_connect_machine_ports(
    world: &WorldState,
    belts: &mut BeltNetwork,
    machine_entity: EntityId,
    tile_addr: &[u8],
    grid_xy: (i32, i32),
    facing: Direction,
    machine_type: MachineType,
)
    requires
        world.wf(),
        old(belts).wf(),
        i32::MIN + 1 < grid_xy.0,
        grid_xy.0 + 4 <= i32::MAX,
        i32::MIN + 1 < grid_xy.1,
        grid_xy.1 + 4 <= i32::MAX,
    ensures
        final(belts).wf(),
        ports_linked(*final(belts), *old(belts), *world, tile_addr@, machine_entity, grid_xy,
            kind_rotated_ports(StructureKind::Machine(machine_type), facing), false),
{
    let ports = rotated_ports(machine_type, facing);
    proof {
        assert forall|i: int| 0 <= i < ports@.len() implies 0 <= (#[trigger] ports@[i]).cell_offset.0 < 3 && 0 <= ports@[i].cell_offset.1 < 3 by {
            lemma_ports_on_edges(machine_type, facing, i, i);
        }
    }
    link_all_ports(world, belts, machine_entity, tile_addr, grid_xy, &ports, false);
}

/// When a storage building is placed, check the cell each of its ports faces
/// for a belt whose direction suits the port, and connect it.
pub fn auto_connect_storage_to_belts(
    world: &WorldState,
    belts: &mut BeltNetwork,
    storage_entity: EntityId,
    tile_addr: &[u8],
    grid_xy: (i32, i32),
    facing: Direction,
)
    requires
        world.wf(),
        old(belts).wf(),
        i32::MIN + 1 < grid_xy.0,
        grid_xy.0 + 4 <= i32::MAX,
        i32::MIN + 1 < grid_xy.1,
        grid_xy.1 + 4 <= i32::MAX,
    ensures
        final(belts).wf(),
        ports_linked(*final(belts), *old(belts), *world, tile_addr@, storage_entity, grid_xy,
            kind_rotated_ports(StructureKind::Storage, facing), true),
{
    let ports = rotated_structure_ports(StructureKind::Storage, facing);
    proof {
        assert forall|i: int| 0 <= i < ports@.len() implies 0 <= (#[trigger] ports@[i]).cell_offset.0 < 3 && 0 <= ports@[i].cell_offset.1 < 3 by {
            lemma_storage_ports_on_edges(facing, i);
        }
    }
    link_all_ports(world, belts, storage_entity, tile_addr, grid_xy, &ports, true);
}

// ---------------------------------------------------------------------------
// Belts across a tile edge
// ---------------------------------------------------------------------------

/// A coordinate past the shared edge (beyond ±31) seen from the
/// neighbouring tile: 64 squares back toward the centre.
pub open spec fn mirror_coord(c: int) -> int {
    if c > 31 {
        c - 64
    } else if c < -31 {
        c + 64
    } else {
        c
    }
}

/// The position `pos` of a cell next to a tile edge, in the coordinates of
/// the tile on the other side of that edge.
pub fn cross_tile_mirror(pos: (i32, i32)) -> (r: (i32, i32))
    ensures
        r.0 == mirror_coord(pos.0 as int),
        r.1 == mirror_coord(pos.1 as int),
{
    let mx = if pos.0 > 31 {
        pos.0 - 64
    } else if pos.0 < -31 {
        pos.0 + 64
    } else {
        pos.0
    };
    let my = if pos.1 > 31 {
        pos.1 - 64
    } else if pos.1 < -31 {
        pos.1 + 64
    } else {
        pos.1
    };
    (mx, my)
}

/// The belt on cell `c` of `tile` if it runs in direction `d`.
pub open spec fn same_dir_belt(w: WorldState, tile: Seq<u8>, c: (i32, i32), d: Direction) -> Option<EntityId> {
    match belt_at(w, tile, c) {
        Some((b, bd)) => if bd == d {
            Some(b)
        } else {
            None
        },
        None => None,
    }
}

/// Find a belt entity at the given tile + grid position with a specific direction.
pub fn find_same_dir_belt_at(world: &WorldState, tile_addr: &[u8], grid_xy: (i32, i32), direction: Direction) -> (r:
    Option<EntityId>)
    requires
        world.wf(),
    ensures
        r == same_dir_belt(*world, tile_addr@, grid_xy, direction),
{
    let entity = match world.entity_at(tile_addr, grid_xy) {
        Some(e) => e,
        None => return None,
    };
    if world.kind(entity) == Some(StructureKind::Belt) && world.direction(entity) == Some(direction) {
        Some(entity)
    } else {
        None
    }
}

/// Whether the neighbour `c` of a belt in direction `d` on `tile` lies
/// across the tile edge: off the tile, or on the shared edge line (±32)
/// with no same-direction belt there on this tile.
pub open spec fn needs_cross_check(w: WorldState, tile: Seq<u8>, c: (i32, i32), d: Direction) -> bool {
    ||| !within_tile(c.0 as int, c.1 as int)
    ||| ((c.0 == 32 || c.0 == -32 || c.1 == 32 || c.1 == -32) && same_dir_belt(w, tile, c, d) is None)
}

/// `after` is `before` with the output end of `source`'s line linked to the
/// input end of `target`'s line, where both are on distinct lines.
pub open spec fn lines_linked(after: BeltNetwork, before: BeltNetwork, source: EntityId, target: EntityId) -> bool {
    &&& forall|e: EntityId| #[trigger] after.segment_of(e) == before.segment_of(e)
    &&& after.units() == before.units()
    &&& if before.segment_of(source) matches Some(s) && before.segment_of(target) matches Some(t) && s.line
        != t.line {
        let s = before.segment_of(source)->0.line;
        let t = before.segment_of(target)->0.line;
        &&& after.line_at(s) == Some(with_output_end(before.line_at(s)->0, BeltEnd::Belt(t)))
        &&& after.line_at(t) == Some(with_input_end(before.line_at(t)->0, BeltEnd::Belt(s)))
        &&& forall|id: TransportLineId| id != s && id != t ==> #[trigger] after.line_at(id) == before.line_at(id)
    } else {
        forall|id: TransportLineId| #[trigger] after.line_at(id) == before.line_at(id)
    }
}

/// The same-direction belt that a belt at `xy` in direction `d` on `tile`
/// meets across the edge on side `toward` of it, in the tile `other` beyond
/// that edge, where that side needs the check.
pub open spec fn cross_partner(
    w: WorldState,
    tile: Seq<u8>,
    xy: (i32, i32),
    d: Direction,
    toward: Direction,
    other: Option<Seq<u8>>,
) -> Option<EntityId> {
    let c = step_cell(xy, toward);
    if needs_cross_check(w, tile, c, d) && other is Some {
        same_dir_belt(w, other->0, (mirror_coord(c.0 as int) as i32, mirror_coord(c.1 as int) as i32), d)
    } else {
        None
    }
}

/// `after` is `before` with the belt `e` at `xy` linked across the tile
/// edges: first its output to the partner ahead (in tile `ahead`), then the
/// partner behind (in tile `behind`) to its input.
pub open spec fn cross_tile_linked(
    after: BeltNetwork,
    before: BeltNetwork,
    w: WorldState,
    e: EntityId,
    tile: Seq<u8>,
    xy: (i32, i32),
    d: Direction,
    ahead: Option<Seq<u8>>,
    behind: Option<Seq<u8>>,
) -> bool {
    exists|mid: BeltNetwork|
        #[trigger] mid.wf() && (match cross_partner(w, tile, xy, d, d, ahead) {
            Some(n) => lines_linked(mid, before, e, n),
            None => net_same(mid, before),
        }) && (match cross_partner(w, tile, xy, d, opposite_of(d), behind) {
            Some(n) => lines_linked(after, mid, n, e),
            None => net_same(after, mid),
        })
}

/// After a belt `entity` is placed at `grid_xy` on `tile_addr` facing
/// `direction`, link it to same-direction belts across the tile edges:
/// its output to the belt ahead and the belt behind to its input. `ahead`
/// and `behind` are the addresses of the tiles beyond the edge that the
/// belt faces and the edge behind it, where the tiling has them.
pub fn check_cross_tile_belt_link(
    world: &WorldState,
    belts: &mut BeltNetwork,
    entity: EntityId,
    tile_addr: &[u8],
    grid_xy: (i32, i32),
    direction: Direction,
    ahead: Option<&[u8]>,
    behind: Option<&[u8]>,
)
    requires
        world.wf(),
        old(belts).wf(),
        i32::MIN < grid_xy.0 < i32::MAX,
        i32::MIN < grid_xy.1 < i32::MAX,
    ensures
        final(belts).wf(),
        cross_tile_linked(*final(belts), *old(belts), *world, entity, tile_addr@, grid_xy, direction,
            match ahead { Some(a) => Some(a@), None => None },
            match behind { Some(b) => Some(b@), None => None }),
{
    let ghost ahead_v: Option<Seq<u8>> = match ahead { Some(a) => Some(a@), None => None };
    let ghost behind_v: Option<Seq<u8>> = match behind { Some(b) => Some(b@), None => None };
    let (dx, dy) = direction.grid_offset_i32();
    let ahead_xy = (grid_xy.0 + dx, grid_xy.1 + dy);
    let behind_xy = (grid_xy.0 - dx, grid_xy.1 - dy);
    proof {
        assert(step_cell(grid_xy, direction) == ahead_xy);
        assert(step_cell(grid_xy, opposite_of(direction)) == behind_xy);
    }
    let check_ahead = !is_within_tile(ahead_xy.0, ahead_xy.1) || ((ahead_xy.0 == 32 || ahead_xy.0 == -32
        || ahead_xy.1 == 32 || ahead_xy.1 == -32) && find_same_dir_belt_at(world, tile_addr, ahead_xy, direction).is_none());
    let check_behind = !is_within_tile(behind_xy.0, behind_xy.1) || ((behind_xy.0 == 32 || behind_xy.0 == -32
        || behind_xy.1 == 32 || behind_xy.1 == -32) && find_same_dir_belt_at(world, tile_addr, behind_xy, direction).is_none());
    let ghost before = *belts;
    // Output connection: this belt's flow exits toward ahead.
    let mut partner_ahead: Option<EntityId> = None;
    if check_ahead {
        if let Some(t) = ahead {
            partner_ahead = find_same_dir_belt_at(world, t, cross_tile_mirror(ahead_xy), direction);
        }
    }
    if let Some(n) = partner_ahead {
        belts.link_output_to_input(entity, n);
    }
    let ghost mid = *belts;
    proof {
        assert(partner_ahead == cross_partner(*world, tile_addr@, grid_xy, direction, direction, ahead_v));
    }
    // Input connection: items would enter this belt from behind.
    let mut partner_behind: Option<EntityId> = None;
    if check_behind {
        if let Some(t) = behind {
            partner_behind = find_same_dir_belt_at(world, t, cross_tile_mirror(behind_xy), direction);
        }
    }
    if let Some(n) = partner_behind {
        belts.link_output_to_input(n, entity);
    }
    proof {
        assert(partner_behind == cross_partner(*world, tile_addr@, grid_xy, direction, opposite_of(direction), behind_v));
        assert(mid.wf());
    }
}

// ---------------------------------------------------------------------------
// Belts and splitters
// ---------------------------------------------------------------------------

/// The splitter on cell `c` of `tile`, if one is there.
pub open spec fn splitter_at(w: WorldState, tile: Seq<u8>, c: (i32, i32)) -> Option<EntityId> {
    match w.occupant(tile, c) {
        Some(s) => if w.info(s) matches Some(inf) && inf.2 == StructureKind::Splitter {
            Some(s)
        } else {
            None
        },
        None => None,
    }
}

/// The belt on cell `c` of `tile` and its direction, if one is there.
pub open spec fn belt_at(w: WorldState, tile: Seq<u8>, c: (i32, i32)) -> Option<(EntityId, Direction)> {
    match w.occupant(tile, c) {
        Some(b) => match w.info(b) {
            Some(inf) => if inf.2 == StructureKind::Belt {
                Some((b, inf.3))
            } else {
                None
            },
            None => None,
        },
        None => None,
    }
}

/// The two pools hold the same splitters.
pub open spec fn pool_same(after: SplitterPool, before: SplitterPool) -> bool {
    after.states() == before.states()
}

/// The effect of tying `belt`'s output end (`out`: the belt feeds splitter
/// `s`) or input end (`s` feeds the belt) to `s`, when the end is free: the
/// splitter then lists the belt among its inputs or outputs.
pub open spec fn splitter_tied(
    after_net: BeltNetwork,
    before_net: BeltNetwork,
    after_pool: SplitterPool,
    before_pool: SplitterPool,
    belt: EntityId,
    s: EntityId,
    out: bool,
) -> bool {
    &&& end_linked(after_net, before_net, belt, out, BeltEnd::Splitter { entity: s }, true)
    &&& if link_applies(before_net, belt, out, true) {
        belt_added(after_pool, before_pool, s, belt, out)
    } else {
        pool_same(after_pool, before_pool)
    }
}

/// One side of a newly placed belt: tie it to the splitter there, if any,
/// and let the splitter detect its mode again.
pub open spec fn belt_splitter_step(
    after_net: BeltNetwork,
    before_net: BeltNetwork,
    after_pool: SplitterPool,
    before_pool: SplitterPool,
    belt: EntityId,
    splitter: Option<EntityId>,
    out: bool,
) -> bool {
    match splitter {
        Some(s) => if link_applies(before_net, belt, out, true) {
            exists|p1: SplitterPool|
                #[trigger] splitter_tied(after_net, before_net, p1, before_pool, belt, s, out)
                && mode_detected(after_pool, p1, s)
        } else {
            net_same(after_net, before_net) && pool_same(after_pool, before_pool)
        },
        None => net_same(after_net, before_net) && pool_same(after_pool, before_pool),
    }
}

fn tie_belt_to_splitter(
    world: &WorldState,
    belts: &mut BeltNetwork,
    splitters: &mut SplitterPool,
    belt_entity: EntityId,
    tile_addr: &[u8],
    cell: (i32, i32),
    out: bool,
)
    requires
        world.wf(),
        old(belts).wf(),
        old(splitters).wf(),
    ensures
        final(belts).wf(),
        final(splitters).wf(),
        final(splitters).ids() == old(splitters).ids(),
        belt_splitter_step(*final(belts), *old(belts), *final(splitters), *old(splitters), belt_entity,
            splitter_at(*world, tile_addr@, cell), out),
{
    let s = match world.entity_at(tile_addr, cell) {
        Some(e) => e,
        None => return,
    };
    if world.kind(s) != Some(StructureKind::Splitter) {
        return;
    }
    let tied = if out {
        belts.connect_belt_to_splitter(belt_entity, s)
    } else {
        belts.connect_splitter_to_belt(belt_entity, s)
    };
    if tied {
        let ghost p0 = *splitters;
        if out {
            splitters.add_input(s, belt_entity);
        } else {
            splitters.add_output(s, belt_entity);
        }
        let ghost p1 = *splitters;
        splitters.detect_mode(s);
        proof {
            assert(splitter_tied(*belts, *old(belts), p1, p0, belt_entity, s, out));
        }
    }
}

/// `after_net` and `after_pool` are the network and splitters after tying a
/// belt at `xy` facing `belt_dir` to the splitter ahead of it, then to the
/// one behind it.
pub open spec fn belt_splitters_linked(
    after_net: BeltNetwork,
    before_net: BeltNetwork,
    after_pool: SplitterPool,
    before_pool: SplitterPool,
    w: WorldState,
    tile: Seq<u8>,
    belt: EntityId,
    xy: (i32, i32),
    belt_dir: Direction,
) -> bool {
    exists|n1: BeltNetwork, p1: SplitterPool|
        #[trigger] belt_splitter_step(n1, before_net, p1, before_pool, belt,
            splitter_at(w, tile, step_cell(xy, belt_dir)), true)
        && belt_splitter_step(after_net, n1, after_pool, p1, belt,
            splitter_at(w, tile, step_cell(xy, dir_of(dir_index(belt_dir) + 2))), false)
}

/// When a belt is placed, check the cell ahead and behind for splitters.
/// A belt pointing toward a splitter feeds into it (an input of the
/// splitter); a belt pointing away from one is fed by it (an output).
pub fn auto_connect_belt_to_splitters(
    world: &WorldState,
    belts: &mut BeltNetwork,
    splitters: &mut SplitterPool,
    belt_entity: EntityId,
    tile_addr: &[u8],
    grid_xy: (i32, i32),
    belt_dir: Direction,
)
    requires
        world.wf(),
        old(belts).wf(),
        old(splitters).wf(),
        i32::MIN < grid_xy.0 < i32::MAX,
        i32::MIN < grid_xy.1 < i32::MAX,
    ensures
        final(belts).wf(),
        final(splitters).wf(),
        final(splitters).ids() == old(splitters).ids(),
        belt_splitters_linked(*final(belts), *old(belts), *final(splitters), *old(splitters), *world, tile_addr@,
            belt_entity, grid_xy, belt_dir),
{
    let (dx, dy) = belt_dir.grid_offset_i32();
    let ahead = (grid_xy.0 + dx, grid_xy.1 + dy);
    let behind = (grid_xy.0 - dx, grid_xy.1 - dy);
    proof {
        assert(behind == step_cell(grid_xy, dir_of(dir_index(belt_dir) + 2)));
    }

    // Ahead: the belt's output faces a splitter, so the belt feeds it.
    tie_belt_to_splitter(world, belts, splitters, belt_entity, tile_addr, ahead, true);
    let ghost n1 = *belts;
    let ghost p1 = *splitters;
    // Behind: a splitter feeds the belt's input.
    tie_belt_to_splitter(world, belts, splitters, belt_entity, tile_addr, behind, false);
    proof {
        assert(belt_splitter_step(n1, *old(belts), p1, *old(splitters), belt_entity,
            splitter_at(*world, tile_addr@, step_cell(grid_xy, belt_dir)), true));
    }
}

/// One side of a newly placed splitter `s`: a belt there flowing toward the
/// splitter feeds it, one flowing away from it is fed by it, when the belt
/// is at the matching end of its line and that end is free.
pub open spec fn splitter_side_step(
    after_net: BeltNetwork,
    before_net: BeltNetwork,
    after_pool: SplitterPool,
    before_pool: SplitterPool,
    s: EntityId,
    belt: Option<(EntityId, Direction)>,
    check_dir: Direction,
) -> bool {
    match belt {
        Some((b, bd)) => if bd == dir_of(dir_index(check_dir) + 2) {
            splitter_tied(after_net, before_net, after_pool, before_pool, b, s, true)
        } else if bd == check_dir {
            splitter_tied(after_net, before_net, after_pool, before_pool, b, s, false)
        } else {
            net_same(after_net, before_net) && pool_same(after_pool, before_pool)
        },
        None => net_same(after_net, before_net) && pool_same(after_pool, before_pool),
    }
}

fn tie_side(
    world: &WorldState,
    belts: &mut BeltNetwork,
    splitters: &mut SplitterPool,
    splitter_entity: EntityId,
    tile_addr: &[u8],
    grid_xy: (i32, i32),
    check_dir: Direction,
)
    requires
        world.wf(),
        old(belts).wf(),
        old(splitters).wf(),
        i32::MIN < grid_xy.0 < i32::MAX,
        i32::MIN < grid_xy.1 < i32::MAX,
    ensures
        final(belts).wf(),
        final(splitters).wf(),
        final(splitters).ids() == old(splitters).ids(),
        splitter_side_step(*final(belts), *old(belts), *final(splitters), *old(splitters), splitter_entity,
            belt_at(*world, tile_addr@, step_cell(grid_xy, check_dir)), check_dir),
{
    let (dx, dy) = check_dir.grid_offset_i32();
    let adj = (grid_xy.0 + dx, grid_xy.1 + dy);
    let b = match world.entity_at(tile_addr, adj) {
        Some(e) => e,
        None => return,
    };
    if world.kind(b) != Some(StructureKind::Belt) {
        return;
    }
    let belt_dir = match world.direction(b) {
        Some(d) => d,
        None => return,
    };
    if belt_dir == check_dir.opposite() {
        // The belt flows toward the splitter: it feeds the splitter.
        if belts.connect_belt_to_splitter(b, splitter_entity) {
            splitters.add_input(splitter_entity, b);
        }
    } else if belt_dir == check_dir {
        // The belt flows away from the splitter: the splitter feeds it.
        if belts.connect_splitter_to_belt(b, splitter_entity) {
            splitters.add_output(splitter_entity, b);
        }
    }
}

/// `after_net` and `after_pool` are the network and splitters after tying
/// splitter `s` at `xy` to the belts on its North, East, South and West
/// sides in turn and detecting its mode.
pub open spec fn splitter_belts_linked(
    after_net: BeltNetwork,
    before_net: BeltNetwork,
    after_pool: SplitterPool,
    before_pool: SplitterPool,
    w: WorldState,
    tile: Seq<u8>,
    s: EntityId,
    xy: (i32, i32),
) -> bool {
    exists|n1: BeltNetwork, n2: BeltNetwork, n3: BeltNetwork, p1: SplitterPool, p2: SplitterPool, p3: SplitterPool, p4: SplitterPool|
        #[trigger] splitter_side_step(n1, before_net, p1, before_pool, s,
            belt_at(w, tile, step_cell(xy, Direction::North)), Direction::North)
        && #[trigger] splitter_side_step(n2, n1, p2, p1, s,
            belt_at(w, tile, step_cell(xy, Direction::East)), Direction::East)
        && #[trigger] splitter_side_step(n3, n2, p3, p2, s,
            belt_at(w, tile, step_cell(xy, Direction::South)), Direction::South)
        && #[trigger] splitter_side_step(after_net, n3, p4, p3, s,
            belt_at(w, tile, step_cell(xy, Direction::West)), Direction::West)
        && mode_detected(after_pool, p4, s)
}

/// When a splitter is placed, scan all 4 adjacent cells for existing belts
/// and connect them based on their direction relative to the splitter, then
/// detect the splitter's mode.
pub fn auto_connect_splitter_to_belts(
    world: &WorldState,
    belts: &mut BeltNetwork,
    splitters: &mut SplitterPool,
    splitter_entity: EntityId,
    tile_addr: &[u8],
    grid_xy: (i32, i32),
)
    requires
        world.wf(),
        old(belts).wf(),
        old(splitters).wf(),
        i32::MIN < grid_xy.0 < i32::MAX,
        i32::MIN < grid_xy.1 < i32::MAX,
    ensures
        final(belts).wf(),
        final(splitters).wf(),
        final(splitters).ids() == old(splitters).ids(),
        splitter_belts_linked(*final(belts), *old(belts), *final(splitters), *old(splitters), *world, tile_addr@,
            splitter_entity, grid_xy),
{
    let ghost n0 = *belts;
    let ghost p0 = *splitters;
    tie_side(world, belts, splitters, splitter_entity, tile_addr, grid_xy, Direction::North);
    let ghost n1 = *belts;
    let ghost p1 = *splitters;
    tie_side(world, belts, splitters, splitter_entity, tile_addr, grid_xy, Direction::East);
    let ghost n2 = *belts;
    let ghost p2 = *splitters;
    tie_side(world, belts, splitters, splitter_entity, tile_addr, grid_xy, Direction::South);
    let ghost n3 = *belts;
    let ghost p3 = *splitters;
    tie_side(world, belts, splitters, splitter_entity, tile_addr, grid_xy, Direction::West);
    let ghost p4 = *splitters;
    splitters.detect_mode(splitter_entity);
    proof {
        assert(splitter_side_step(n1, n0, p1, p0, splitter_entity,
            belt_at(*world, tile_addr@, step_cell(grid_xy, Direction::North)), Direction::North));
        assert(splitter_side_step(n2, n1, p2, p1, splitter_entity,
            belt_at(*world, tile_addr@, step_cell(grid_xy, Direction::East)), Direction::East));
        assert(splitter_side_step(n3, n2, p3, p2, splitter_entity,
            belt_at(*world, tile_addr@, step_cell(grid_xy, Direction::South)), Direction::South));
        assert(splitter_side_step(*belts, n3, p4, p3, splitter_entity,
            belt_at(*world, tile_addr@, step_cell(grid_xy, Direction::West)), Direction::West));
    }
}

// ---------------------------------------------------------------------------
// Placing a structure
// ---------------------------------------------------------------------------

/// Every cell the structure built from `item` would cover is free.
pub open spec fn footprint_free(w: WorldState, tile: Seq<u8>, xy: (i32, i32), item: ItemId, direction: Direction) -> bool {
    forall|c: (i32, i32)| in_footprint(xy, placed_footprint(item, direction), c) ==> w.occupant(tile, c) is None
}

/// Every machine, splitter and storage building the pools know is placed in
/// the world as a structure of that kind.
pub open spec fn pools_placed(w: WorldState, mp: MachinePool, sp: SplitterPool, st: StoragePool) -> bool {
    &&& forall|e: EntityId| #[trigger] mp.index_spec(e) is Some ==> (w.info(e) matches Some(inf) && inf.2 is Machine)
    &&& forall|e: EntityId| #[trigger] sp.index_spec(e) is Some ==> (w.info(e) matches Some(inf) && inf.2 == StructureKind::Splitter)
    &&& forall|e: EntityId| #[trigger] st.index_spec(e) is Some ==> (w.info(e) matches Some(inf) && inf.2 == StructureKind::Storage)
}

/// Whether structures of `kind` take part in power: machines consume it,
/// power nodes and power sources produce it.
pub open spec fn power_node_of(kind: StructureKind) -> Option<(PowerNodeKind, u32, bool)> {
    match kind {
        StructureKind::Machine(mt) => Some((PowerNodeKind::Consumer, MACHINE_CONSUMPTION, mt == MachineType::Source)),
        StructureKind::PowerNode => Some((PowerNodeKind::Producer, QUADRUPOLE_RATE, false)),
        StructureKind::PowerSource => Some((PowerNodeKind::Producer, DYNAMO_RATE, false)),
        _ => None,
    }
}

/// Every node of the power network stands for a placed structure that
/// takes part in power.
pub open spec fn power_placed(w: WorldState, pn: PowerNetwork) -> bool {
    forall|e: EntityId| #[trigger] index_in(node_ids(pn.node_seq()), e) is Some
        ==> (w.info(e) matches Some(inf) && power_node_of(inf.2) is Some)
}

/// The two networks hold the same nodes with the same satisfaction.
pub open spec fn power_same(after: PowerNetwork, before: PowerNetwork) -> bool {
    &&& after.node_seq() == before.node_seq()
    &&& after.sat_seq() == before.sat_seq()
}

/// `after` is `before` with a node for the new structure `e` of `kind` at
/// `xy` on `tile` where the kind takes part in power, and unchanged
/// otherwise.
pub open spec fn power_registered(after: PowerNetwork, before: PowerNetwork, e: EntityId, kind: StructureKind, tile: Seq<u8>, xy: (i32, i32)) -> bool {
    match power_node_of(kind) {
        Some((k, rate, exempt)) => {
            &&& after.node_seq().len() == before.node_seq().len() + 1
            &&& after.node_seq().drop_last() == before.node_seq()
            &&& node_is(after.node_seq().last(), e, k, rate, tile, xy.0 as i16, xy.1 as i16, exempt)
            &&& after.sat_seq() == before.sat_seq().push(if exempt { full() } else { unpowered() })
        },
        None => power_same(after, before),
    }
}

/// What registering the new structure `e` of `kind` does to the network and
/// the pools: a belt joins the network and is tied to the machines,
/// splitters and storage buildings around it; a machine, splitter or storage
/// building joins its pool and is tied to the belts around it.
pub open spec fn registered(
    belts1: BeltNetwork,
    belts0: BeltNetwork,
    mp1: MachinePool,
    mp0: MachinePool,
    sp1: SplitterPool,
    sp0: SplitterPool,
    st1: StoragePool,
    st0: StoragePool,
    w: WorldState,
    tile: Seq<u8>,
    e: EntityId,
    xy: (i32, i32),
    kind: StructureKind,
    dir: Direction,
    ahead: Option<Seq<u8>>,
    behind: Option<Seq<u8>>,
) -> bool {
    match kind {
        StructureKind::Belt => {
            &&& mp1 == mp0
            &&& st1.states() == st0.states()
            &&& exists|n1: BeltNetwork, nx: BeltNetwork, n2: BeltNetwork, n3: BeltNetwork|
                #[trigger] is_belt_placement(n1, belts0, e, tile, xy.0, xy.1, dir, w)
                && #[trigger] cross_tile_linked(nx, n1, w, e, tile, xy, dir, ahead, behind)
                && #[trigger] belt_linked_around(n2, nx, w, tile, e, xy, dir, false)
                && #[trigger] belt_splitters_linked(n3, n2, sp1, sp0, w, tile, e, xy, dir)
                && belt_linked_around(belts1, n3, w, tile, e, xy, dir, true)
        },
        StructureKind::Machine(mt) => {
            &&& machine_added(mp1, mp0, e, mt)
            &&& ports_linked(belts1, belts0, w, tile, e, xy, kind_rotated_ports(kind, dir), false)
            &&& sp1.states() == sp0.states()
            &&& st1.states() == st0.states()
        },
        StructureKind::Splitter => {
            &&& mp1 == mp0
            &&& st1.states() == st0.states()
            &&& exists|p1: SplitterPool| #[trigger] splitter_added(p1, sp0, e) && splitter_belts_linked(belts1, belts0, sp1, p1, w, tile, e, xy)
        },
        StructureKind::Storage => {
            &&& mp1 == mp0
            &&& sp1.states() == sp0.states()
            &&& storage_added(st1, st0, e)
            &&& ports_linked(belts1, belts0, w, tile, e, xy, kind_rotated_ports(kind, dir), true)
        },
        _ => {
            &&& net_same(belts1, belts0)
            &&& mp1 == mp0
            &&& sp1.states() == sp0.states()
            &&& st1.states() == st0.states()
        },
    }
}

/// Place the structure `item` builds at `grid_xy` of tile `address` facing
/// `direction`, paying one `item` from the inventory unless placement is
/// free, and register it: a belt with the network, a machine, splitter or
/// storage building with its pool, each tied to the neighbours it faces; a
/// belt is also linked across the tile edges to the belts of the tiles
/// `ahead` and `behind` it (the addresses of the tiles beyond the edge it
/// faces and the edge behind it, where the tiling has them).
/// Returns false, changing nothing, when the item is not held (and placement
/// is not free) or the world refuses the placement.
#[verifier::rlimit(40)]
pub fn try_place_at(
    world: &mut WorldState,
    inventory: &mut Inventory,
    belts: &mut BeltNetwork,
    machines: &mut MachinePool,
    splitters: &mut SplitterPool,
    storages: &mut StoragePool,
    power: &mut PowerNetwork,
    free_placement: bool,
    address: &[u8],
    grid_xy: (i32, i32),
    item: ItemId,
    direction: Direction,
    ahead: Option<&[u8]>,
    behind: Option<&[u8]>,
) -> (r: bool)
    requires
        old(world).wf(),
        old(belts).wf(),
        old(belts).has_room(),
        old(machines).wf(),
        old(splitters).wf(),
        old(storages).wf(),
        old(machines).count < usize::MAX,
        pools_placed(*old(world), *old(machines), *old(splitters), *old(storages)),
        old(power).wf(),
        old(power).node_seq().len() < u32::MAX,
        power_placed(*old(world), *old(power)),
        i32::MIN + 1 < grid_xy.0,
        grid_xy.0 + 4 <= i32::MAX,
        i32::MIN + 1 < grid_xy.1,
        grid_xy.1 + 4 <= i32::MAX,
    ensures
        final(world).wf(),
        final(belts).wf(),
        final(machines).wf(),
        final(splitters).wf(),
        final(storages).wf(),
        pools_placed(*final(world), *final(machines), *final(splitters), *final(storages)),
        final(power).wf(),
        power_placed(*final(world), *final(power)),
        r == ((free_placement || count_in(old(inventory)@, item) > 0) && kind_of_item(item) is Some
            && old(world).ids_left() && footprint_free(*old(world), address@, grid_xy, item, direction)),
        !r ==> {
            &&& forall|t: Seq<u8>, c: (i32, i32)| final(world).occupant(t, c) == old(world).occupant(t, c)
            &&& forall|e: EntityId| final(world).info(e) == old(world).info(e)
            &&& final(inventory)@ == old(inventory)@
            &&& net_same(*final(belts), *old(belts))
            &&& *final(machines) == *old(machines)
            &&& final(splitters).states() == old(splitters).states()
            &&& final(storages).states() == old(storages).states()
            &&& power_same(*final(power), *old(power))
        },
        r ==> final(inventory)@ == if free_placement { old(inventory)@ } else { after_remove(old(inventory)@, item, 1) },
        r ==> exists|e: EntityId|
            #[trigger] is_placement(*final(world), *old(world), address@, grid_xy, item, direction, e)
            && registered(*final(belts), *old(belts), *final(machines), *old(machines), *final(splitters),
                *old(splitters), *final(storages), *old(storages), *final(world), address@, e, grid_xy,
                kind_of_item(item)->0, direction, (match ahead { Some(a) => Some(a@), None => None }),
                (match behind { Some(b) => Some(b@), None => None }))
            && power_registered(*final(power), *old(power), e, kind_of_item(item)->0, address@, grid_xy),
{
    if !free_placement && inventory.count(item) == 0 {
        return false;
    }
    let entity = match world.place(address, grid_xy, item, direction) {
        Some(e) => e,
        None => return false, // occupied or not placeable
    };
    if !free_placement {
        inventory.remove(item, 1);
    }
    let kind = match StructureKind::from_item(item) {
        Some(k) => k,
        None => {
            proof {
                assert(false);
            }
            return true;
        },
    };
    let ghost w1 = *world;
    let ghost ahead_v: Option<Seq<u8>> = match ahead { Some(a) => Some(a@), None => None };
    let ghost behind_v: Option<Seq<u8>> = match behind { Some(b) => Some(b@), None => None };
    let ghost b0 = *belts;
    let ghost s0 = *splitters;
    proof {
        // The new entity is in no pool: it was not placed before.
        assert(machines.index_spec(entity) is None);
        assert(splitters.index_spec(entity) is None);
        assert(storages.index_spec(entity) is None);
        if index_in(node_ids(power.node_seq()), entity) is Some {
            assert(old(world).info(entity) is Some);
        }
    }
    match kind {
        StructureKind::Belt => {
            belts.on_belt_placed(entity, address, grid_xy.0, grid_xy.1, direction, world);
            let ghost n1 = *belts;
            check_cross_tile_belt_link(world, belts, entity, address, grid_xy, direction, ahead, behind);
            let ghost nx = *belts;
            auto_connect_belt_to_machines(world, belts, entity, address, grid_xy, direction);
            let ghost n2 = *belts;
            auto_connect_belt_to_splitters(world, belts, splitters, entity, address, grid_xy, direction);
            let ghost n3 = *belts;
            auto_connect_belt_to_storage(world, belts, entity, address, grid_xy, direction);
            proof {
                assert(is_belt_placement(n1, b0, entity, address@, grid_xy.0, grid_xy.1, direction, w1));
                assert(cross_tile_linked(nx, n1, w1, entity, address@, grid_xy, direction, ahead_v, behind_v));
                assert(belt_linked_around(n2, nx, w1, address@, entity, grid_xy, direction, false));
                assert(belt_splitters_linked(n3, n2, *splitters, s0, w1, address@, entity, grid_xy, direction));
            }
        },
        StructureKind::Machine(mt) => {
            machines.add(entity, mt);
            auto_connect_machine_ports(world, belts, entity, address, grid_xy, direction, mt);
            // Register the machine as a power consumer.
            let exempt = mt == MachineType::Source;
            power.add(
                entity,
                PowerNodeKind::Consumer,
                MACHINE_CONSUMPTION,
                address,
                grid_xy.0 as i16,
                grid_xy.1 as i16,
                exempt,
            );
        },
        StructureKind::PowerNode => {
            power.add(entity, PowerNodeKind::Producer, QUADRUPOLE_RATE, address, grid_xy.0 as i16, grid_xy.1 as i16, false);
        },
        StructureKind::PowerSource => {
            power.add(entity, PowerNodeKind::Producer, DYNAMO_RATE, address, grid_xy.0 as i16, grid_xy.1 as i16, false);
        },
        StructureKind::Splitter => {
            splitters.add(entity);
            let ghost p1 = *splitters;
            auto_connect_splitter_to_belts(world, belts, splitters, entity, address, grid_xy);
            proof {
                assert(splitter_added(p1, s0, entity));
            }
        },
        StructureKind::Storage => {
            storages.add(entity);
            auto_connect_storage_to_belts(world, belts, entity, address, grid_xy, direction);
        },
        _ => {},
    }
    proof {
        assert(is_placement(*world, *old(world), address@, grid_xy, item, direction, entity));
        assert(machines.cold.entity_id@ == old(machines).cold.entity_id@
            || machines.cold.entity_id@ == old(machines).cold.entity_id@.push(entity));
        assert(splitters.ids() =~= old(splitters).ids() || splitters.ids() =~= old(splitters).ids().push(entity));
        assert(storages.ids() =~= old(storages).ids() || storages.ids() =~= old(storages).ids().push(entity));
        assert forall|e: EntityId| #[trigger] machines.index_spec(e) is Some implies (world.info(e) matches Some(inf) && inf.2 is Machine) by {
            lemma_ids_grew(machines.cold.entity_id@, old(machines).cold.entity_id@, e, entity);
            if old(machines).index_spec(e) is Some {
                assert(old(world).info(e) is Some);
            }
        }
        assert forall|e: EntityId| #[trigger] splitters.index_spec(e) is Some implies (world.info(e) matches Some(inf) && inf.2 == StructureKind::Splitter) by {
            lemma_ids_grew(splitters.ids(), old(splitters).ids(), e, entity);
            if old(splitters).index_spec(e) is Some {
                assert(old(world).info(e) is Some);
            }
        }
        assert forall|e: EntityId| #[trigger] storages.index_spec(e) is Some implies (world.info(e) matches Some(inf) && inf.2 == StructureKind::Storage) by {
            lemma_ids_grew(storages.ids(), old(storages).ids(), e, entity);
            if old(storages).index_spec(e) is Some {
                assert(old(world).info(e) is Some);
            }
        }
        assert forall|e: EntityId| #[trigger] index_in(node_ids(power.node_seq()), e) is Some implies (world.info(e) matches Some(
            inf,
        ) && power_node_of(inf.2) is Some) by {
            let ids = node_ids(power.node_seq());
            let old_ids = node_ids(old(power).node_seq());
            let q = choose|q: int| 0 <= q < ids.len() && ids[q] == e;
            if e != entity {
                if q < old_ids.len() {
                    assert(power.node_seq().drop_last() == old(power).node_seq() || power.node_seq() == old(power).node_seq());
                    assert(ids[q] == old_ids[q]);
                    assert(index_in(old_ids, e) is Some);
                    assert(old(world).info(e) is Some);
                }
            }
        }
    }
    true
}

// ---------------------------------------------------------------------------
// Removing and turning a structure
// ---------------------------------------------------------------------------

/// `after` is `before` with every line end tied to machine `m` freed.
pub open spec fn machine_unlinked(after: BeltNetwork, before: BeltNetwork, m: EntityId) -> bool {
    &&& after.units() == before.units()
    &&& forall|e: EntityId| #[trigger] after.segment_of(e) == before.segment_of(e)
    &&& forall|id: TransportLineId| #[trigger] after.line_at(id) == match before.line_at(id) {
        Some(l) => Some(with_input_end(with_output_end(l, out_without_machine(l.output_end, m)), in_without_machine(l.input_end, m))),
        None => None,
    }
}

/// `after` is `before` with every line end tied to splitter `s` freed.
pub open spec fn splitter_unlinked(after: BeltNetwork, before: BeltNetwork, s: EntityId) -> bool {
    &&& after.units() == before.units()
    &&& forall|e: EntityId| #[trigger] after.segment_of(e) == before.segment_of(e)
    &&& forall|id: TransportLineId| #[trigger] after.line_at(id) == match before.line_at(id) {
        Some(l) => Some(with_input_end(with_output_end(l, without_splitter(l.output_end, s)), without_splitter(l.input_end, s))),
        None => None,
    }
}

/// `after` is `before` with every line end tied to storage building `st` freed.
pub open spec fn storage_unlinked(after: BeltNetwork, before: BeltNetwork, st: EntityId) -> bool {
    &&& after.units() == before.units()
    &&& forall|e: EntityId| #[trigger] after.segment_of(e) == before.segment_of(e)
    &&& forall|id: TransportLineId| #[trigger] after.line_at(id) == match before.line_at(id) {
        Some(l) => Some(with_input_end(with_output_end(l, out_without_storage(l.output_end, st)), in_without_storage(l.input_end, st))),
        None => None,
    }
}

/// `after` is `before` without machine `e`: the last machine takes its place.
pub open spec fn machine_removed(after: MachinePool, before: MachinePool, e: EntityId) -> bool {
    match before.index_spec(e) {
        None => after == before,
        Some(i) => {
            &&& after.count == before.count - 1
            &&& after.index_spec(e) is None
            &&& after.hot.progress@ == swapped_out(before.hot.progress@, i)
            &&& after.hot.recipe_ticks@ == swapped_out(before.hot.recipe_ticks@, i)
            &&& after.hot.recipe_total_ticks@ == swapped_out(before.hot.recipe_total_ticks@, i)
            &&& after.hot.powered@ == swapped_out(before.hot.powered@, i)
            &&& after.hot.state@ == swapped_out(before.hot.state@, i)
            &&& after.cold.entity_id@ == swapped_out(before.cold.entity_id@, i)
            &&& after.cold.machine_type@ == swapped_out(before.cold.machine_type@, i)
            &&& after.cold.recipe@ == swapped_out(before.cold.recipe@, i)
            &&& after.cold.input_slots@ == swapped_out(before.cold.input_slots@, i)
            &&& after.cold.output_slots@ == swapped_out(before.cold.output_slots@, i)
        },
    }
}

/// `after` is `before` without splitter `e`: the last one takes its place.
pub open spec fn splitter_removed(after: SplitterPool, before: SplitterPool, e: EntityId) -> bool {
    match before.index_spec(e) {
        None => after.states() == before.states(),
        Some(i) => after.states() == swapped_out(before.states(), i),
    }
}

/// `after` is `before` without storage building `e`: the last one takes its place.
pub open spec fn storage_removed(after: StoragePool, before: StoragePool, e: EntityId) -> bool {
    match before.index_spec(e) {
        None => after.states() == before.states(),
        Some(i) => after.states() == swapped_out(before.states(), i),
    }
}

/// `after` is `before` with `belt` dropped from splitter `s`'s inputs and
/// outputs; nothing changes when `s` is unknown.
pub open spec fn belt_dropped(after: SplitterPool, before: SplitterPool, s: EntityId, belt: EntityId) -> bool {
    match before.index_spec(s) {
        Some(i) => {
            let st = before.states()[i];
            &&& after.states().len() == before.states().len()
            &&& forall|k: int| 0 <= k < before.states().len() && k != i ==> #[trigger] after.states()[k] == before.states()[k]
            &&& after.states()[i].entity == st.entity
            &&& after.states()[i].mode == st.mode
            &&& after.states()[i].round_robin_idx == st.round_robin_idx
            &&& after.states()[i].inputs@ == without_belt(st.inputs@, belt)
            &&& after.states()[i].outputs@ == without_belt(st.outputs@, belt)
        },
        None => after.states() == before.states(),
    }
}

/// Release `belt` from the splitter at one end of its line, if any, and let
/// that splitter detect its mode again.
pub open spec fn splitter_release(after: SplitterPool, before: SplitterPool, s: Option<EntityId>, belt: EntityId) -> bool {
    match s {
        Some(se) => exists|p: SplitterPool| #[trigger] belt_dropped(p, before, se, belt) && mode_detected(after, p, se),
        None => after.states() == before.states(),
    }
}

/// The splitter tied to the output end (`out`) or input end of `belt`'s line.
pub open spec fn line_splitter(net: BeltNetwork, belt: EntityId, out: bool) -> Option<EntityId> {
    match net.segment_of(belt) {
        Some(seg) => end_splitter(if out {
            net.line_at(seg.line)->0.output_end
        } else {
            net.line_at(seg.line)->0.input_end
        }),
        None => None,
    }
}

/// The inventory after taking back every non-empty stack of `slots`, slot by slot.
pub open spec fn refunded(m: Map<ItemId, u32>, slots: Seq<ItemStack>) -> Map<ItemId, u32>
    decreases slots.len(),
{
    if slots.len() == 0 {
        m
    } else {
        let prev = refunded(m, slots.drop_last());
        if slots.last().count > 0 {
            after_add(prev, slots.last().item, slots.last().count as u32)
        } else {
            prev
        }
    }
}

/// What unregistering structure `e` of `kind` does to the network, the pools
/// and the inventory: a belt is released by the splitters at its line's ends
/// and leaves the network; a machine leaves its pool; a splitter or storage
/// building is freed from every line end and leaves its pool, and a storage
/// building's contents go back to the inventory.
pub open spec fn released(
    belts1: BeltNetwork,
    belts0: BeltNetwork,
    mp1: MachinePool,
    mp0: MachinePool,
    sp1: SplitterPool,
    sp0: SplitterPool,
    st1: StoragePool,
    st0: StoragePool,
    inv1: Map<ItemId, u32>,
    inv0: Map<ItemId, u32>,
    e: EntityId,
    kind: StructureKind,
) -> bool {
    match kind {
        StructureKind::Belt => {
            &&& mp1 == mp0
            &&& st1.states() == st0.states()
            &&& inv1 == inv0
            &&& is_belt_removal(belts1, belts0, e)
            &&& exists|p: SplitterPool|
                #[trigger] splitter_release(p, sp0, line_splitter(belts0, e, true), e)
                && splitter_release(sp1, p, line_splitter(belts0, e, false), e)
        },
        StructureKind::Machine(_) => {
            &&& machine_removed(mp1, mp0, e)
            &&& net_same(belts1, belts0)
            &&& sp1.states() == sp0.states()
            &&& st1.states() == st0.states()
            &&& inv1 == inv0
        },
        StructureKind::Splitter => {
            &&& splitter_unlinked(belts1, belts0, e)
            &&& splitter_removed(sp1, sp0, e)
            &&& mp1 == mp0
            &&& st1.states() == st0.states()
            &&& inv1 == inv0
        },
        StructureKind::Storage => {
            &&& storage_unlinked(belts1, belts0, e)
            &&& storage_removed(st1, st0, e)
            &&& inv1 == match st0.index_spec(e) {
                Some(i) => refunded(inv0, st0.states()[i].slots@),
                None => inv0,
            }
            &&& mp1 == mp0
            &&& sp1.states() == sp0.states()
        },
        _ => {
            &&& net_same(belts1, belts0)
            &&& mp1 == mp0
            &&& sp1.states() == sp0.states()
            &&& st1.states() == st0.states()
            &&& inv1 == inv0
        },
    }
}

proof fn lemma_refund_count(m: Map<ItemId, u32>, slots: Seq<ItemStack>, item: ItemId)
    requires
        forall|i: ItemId| count_in(m, i) + slot_total(slots, i) <= u32::MAX,
    ensures
        count_in(refunded(m, slots), item) == count_in(m, item) + slot_total(slots, item),
    decreases slots.len(),
{
    if slots.len() > 0 {
        let pre = slots.drop_last();
        assert forall|i: ItemId| count_in(m, i) + slot_total(pre, i) <= u32::MAX by {
            assert(slot_total(slots, i) >= slot_total(pre, i));
        }
        lemma_refund_count(m, pre, item);
        let s = slots.last();
        if s.count > 0 {
            lemma_refund_count(m, pre, s.item);
        }
    }
}

/// Give back every non-empty stack of `slots` to the inventory.
fn refund_slots(inventory: &mut Inventory, slots: &[ItemStack; 20])
    requires
        forall|i: ItemId| count_in(old(inventory)@, i) + slot_total(slots@, i) <= u32::MAX,
    ensures
        final(inventory)@ == refunded(old(inventory)@, slots@),
{
    let mut k: usize = 0;
    while k < 20
        invariant
            k <= 20,
            slots@.len() == 20,
            forall|i: ItemId| count_in(old(inventory)@, i) + slot_total(slots@, i) <= u32::MAX,
            inventory@ == refunded(old(inventory)@, slots@.subrange(0, k as int)),
        decreases 20 - k,
    {
        let pre = Ghost(slots@.subrange(0, k as int));
        let next = Ghost(slots@.subrange(0, k as int + 1));
        proof {
            assert(next@.drop_last() =~= pre@);
            lemma_slot_total_prefix(slots@, k as int + 1);
            assert forall|i: ItemId| count_in(old(inventory)@, i) + slot_total(next@, i) <= u32::MAX by {
                lemma_slot_total_prefix_le(slots@, k as int + 1, i);
            }
            assert forall|i: ItemId| count_in(old(inventory)@, i) + slot_total(pre@, i) <= u32::MAX by {
                lemma_slot_total_prefix_le(slots@, k as int, i);
            }
            lemma_refund_count(old(inventory)@, pre@, slots@[k as int].item);
            lemma_slot_total_prefix_le(slots@, k as int + 1, slots@[k as int].item);
        }
        let s = slots[k];
        if s.count > 0 {
            inventory.add(s.item, s.count as u32);
        }
        k = k + 1;
    }
    proof {
        assert(slots@.subrange(0, 20) =~= slots@);
    }
}

proof fn lemma_slot_total_prefix(slots: Seq<ItemStack>, n: int)
    requires
        0 < n <= slots.len(),
    ensures
        slots.subrange(0, n).drop_last() == slots.subrange(0, n - 1),
        slots.subrange(0, n).last() == slots[n - 1],
{
    assert(slots.subrange(0, n).drop_last() =~= slots.subrange(0, n - 1));
}

proof fn lemma_slot_total_prefix_le(slots: Seq<ItemStack>, n: int, item: ItemId)
    requires
        0 <= n <= slots.len(),
    ensures
        slot_total(slots.subrange(0, n), item) <= slot_total(slots, item),
    decreases slots.len() - n,
{
    if n < slots.len() {
        lemma_slot_total_prefix_le(slots, n + 1, item);
        assert(slots.subrange(0, n + 1).drop_last() =~= slots.subrange(0, n));
    } else {
        assert(slots.subrange(0, n) =~= slots);
    }
}

/// The refund of storage building `e`, if the pools know it, fits the inventory.
pub open spec fn refund_fits(inv: Map<ItemId, u32>, st: StoragePool, e: EntityId) -> bool {
    st.index_spec(e) matches Some(i) ==> forall|item: ItemId| count_in(inv, item) + slot_total(st.states()[i].slots@, item) <= u32::MAX
}

/// Remove the structure covering `grid_xy` of tile `tile_address`,
/// unregistering it first: a belt is released by the splitters at its
/// line's ends and leaves the network; a machine leaves its pool; a splitter
/// or storage building is freed from every line end and leaves its pool,
/// and a storage building's contents go back to the inventory. Returns the
/// item the structure was built from; `None`, changing nothing, when the
/// cell is free.
#[verifier::rlimit(40)]
pub fn destroy_entity_at(
    world: &mut WorldState,
    inventory: &mut Inventory,
    belts: &mut BeltNetwork,
    machines: &mut MachinePool,
    splitters: &mut SplitterPool,
    storages: &mut StoragePool,
    power: &mut PowerNetwork,
    tile_address: &[u8],
    grid_xy: (i32, i32),
) -> (r: Option<ItemId>)
    requires
        old(world).wf(),
        old(belts).wf(),
        old(belts).can_add_line(),
        old(machines).wf(),
        old(splitters).wf(),
        old(storages).wf(),
        pools_placed(*old(world), *old(machines), *old(splitters), *old(storages)),
        old(power).wf(),
        power_placed(*old(world), *old(power)),
        old(world).occupant(tile_address@, grid_xy) matches Some(e) ==> refund_fits(old(inventory)@, *old(storages), e),
    ensures
        final(world).wf(),
        final(belts).wf(),
        final(machines).wf(),
        final(splitters).wf(),
        final(storages).wf(),
        pools_placed(*final(world), *final(machines), *final(splitters), *final(storages)),
        final(power).wf(),
        power_placed(*final(world), *final(power)),
        match old(world).occupant(tile_address@, grid_xy) {
            Some(e) => {
                let inf = old(world).info(e)->0;
                &&& old(world).info(e) is Some
                &&& r == Some(inf.4)
                &&& is_removal(*final(world), *old(world), e)
                &&& released(*final(belts), *old(belts), *final(machines), *old(machines), *final(splitters),
                    *old(splitters), *final(storages), *old(storages), final(inventory)@, old(inventory)@, e, inf.2)
                &&& power_released(*final(power), *old(power), e, inf.2)
            },
            None => {
                &&& r is None
                &&& forall|t: Seq<u8>, c: (i32, i32)| final(world).occupant(t, c) == old(world).occupant(t, c)
                &&& forall|e: EntityId| final(world).info(e) == old(world).info(e)
                &&& final(inventory)@ == old(inventory)@
                &&& net_same(*final(belts), *old(belts))
                &&& *final(machines) == *old(machines)
                &&& final(splitters).states() == old(splitters).states()
                &&& final(storages).states() == old(storages).states()
                &&& power_same(*final(power), *old(power))
            },
        },
{
    proof {
        lemma_occupant_is_placed(*world, tile_address@, grid_xy);
    }
    let entity = match world.entity_at(tile_address, grid_xy) {
        Some(e) => e,
        None => return None,
    };
    let kind = match world.kind(entity) {
        Some(k) => k,
        None => return None,
    };
    let ghost b0 = *belts;
    let ghost s0 = *splitters;

    // Unregister from simulation systems
    match kind {
        StructureKind::Belt => {
            let (output_splitter, input_splitter) = belts.line_splitter_connections(entity);
            if let Some(se) = output_splitter {
                splitters.disconnect_belt(se, entity);
                let ghost p = *splitters;
                splitters.detect_mode(se);
                proof {
                    assert(belt_dropped(p, s0, se, entity));
                }
            }
            let ghost s1 = *splitters;
            if let Some(se) = input_splitter {
                splitters.disconnect_belt(se, entity);
                let ghost p = *splitters;
                splitters.detect_mode(se);
                proof {
                    assert(belt_dropped(p, s1, se, entity));
                }
            }
            belts.on_belt_removed(entity);
            proof {
                assert(splitter_release(s1, s0, line_splitter(b0, entity, true), entity));
            }
        },
        StructureKind::Machine(_) => {
            machines.remove(entity);
            power.remove(entity);
        },
        StructureKind::PowerNode | StructureKind::PowerSource => {
            power.remove(entity);
        },
        StructureKind::Splitter => {
            belts.disconnect_splitter_ports(entity);
            splitters.remove(entity);
        },
        StructureKind::Storage => {
            // Return stored items to inventory
            match storages.get(entity) {
                Some(state) => {
                    refund_slots(inventory, &state.slots);
                },
                None => {},
            }
            belts.disconnect_storage_ports(entity);
            storages.remove(entity);
        },
        _ => {},
    }
    let ghost w0 = *world;
    let removed = world.remove(tile_address, grid_xy);
    proof {
        assert(is_removal(*world, w0, entity));
        // Every pool still knows only placed structures of its kind.
        assert forall|e: EntityId| #[trigger] machines.index_spec(e) is Some implies (world.info(e) matches Some(inf) && inf.2 is Machine) by {
            assert(old(machines).index_spec(e) is Some);
            assert(old(world).info(e) matches Some(inf) && inf.2 is Machine);
        }
        assert forall|e: EntityId| #[trigger] splitters.index_spec(e) is Some implies (world.info(e) matches Some(inf) && inf.2 == StructureKind::Splitter) by {
            assert(old(splitters).index_spec(e) is Some);
            assert(old(world).info(e) matches Some(inf) && inf.2 == StructureKind::Splitter);
        }
        assert forall|e: EntityId| #[trigger] storages.index_spec(e) is Some implies (world.info(e) matches Some(inf) && inf.2 == StructureKind::Storage) by {
            assert(old(storages).index_spec(e) is Some);
            assert(old(world).info(e) matches Some(inf) && inf.2 == StructureKind::Storage);
        }
        assert forall|e: EntityId| #[trigger] index_in(node_ids(power.node_seq()), e) is Some implies (world.info(e) matches Some(
            inf,
        ) && power_node_of(inf.2) is Some) by {
            let ids = node_ids(power.node_seq());
            let old_ids = node_ids(old(power).node_seq());
            let q = choose|q: int| 0 <= q < ids.len() && ids[q] == e;
            if power_node_of(kind) is Some && index_in(old_ids, entity) is Some {
                let i = index_in(old_ids, entity)->0;
                let last = old_ids.len() - 1;
                let oq = if q == i { last } else { q };
                assert(ids[q] == old_ids[oq]);
            } else {
                assert(ids[q] == old_ids[q]);
            }
            assert(index_in(old_ids, e) is Some);
            assert(old(world).info(e) is Some);
            if e == entity {
                if power_node_of(kind) is Some {
                    assert(index_in(ids, entity) is None);
                } else {
                    let inf = old(world).info(e)->0;
                    assert(power_node_of(inf.2) is Some);
                }
            }
        }
    }
    match removed {
        Some(s) => Some(s.item),
        None => None,
    }
}

/// `after` is `before` without the node of structure `e` of `kind` where
/// the kind takes part in power (the last node takes its place), and
/// unchanged otherwise.
pub open spec fn power_released(after: PowerNetwork, before: PowerNetwork, e: EntityId, kind: StructureKind) -> bool {
    if power_node_of(kind) is Some {
        match index_in(node_ids(before.node_seq()), e) {
            Some(i) => {
                &&& after.node_seq() == swapped_out(before.node_seq(), i)
                &&& after.sat_seq() == swapped_out(before.sat_seq(), i)
            },
            None => power_same(after, before),
        }
    } else {
        power_same(after, before)
    }
}

/// Origin `o` leaves room for the port cells around a footprint of up to
/// 3 by 3.
pub open spec fn origin_in_range(o: (i32, i32)) -> bool {
    &&& i32::MIN + 1 < o.0
    &&& o.0 + 4 <= i32::MAX
    &&& i32::MIN + 1 < o.1
    &&& o.1 + 4 <= i32::MAX
}

/// Turn the machine, storage building or power source covering `grid_xy`
/// of tile `tile_address` a quarter clockwise. A machine or storage building
/// is freed from every line end first and tied again to the belts its ports
/// face afterwards. Belts, splitters and power nodes are not turned. Returns
/// whether a structure was turned.
pub fn rotate_entity_at(
    world: &mut WorldState,
    belts: &mut BeltNetwork,
    tile_address: &[u8],
    grid_xy: (i32, i32),
) -> (r: bool)
    requires
        old(world).wf(),
        old(belts).wf(),
        old(world).occupant(tile_address@, grid_xy) matches Some(e) ==> (old(world).info(e) matches Some(inf)
            && origin_in_range(inf.1)),
    ensures
        final(world).wf(),
        final(belts).wf(),
        forall|t: Seq<u8>, c: (i32, i32)| final(world).occupant(t, c) == old(world).occupant(t, c),
        final(world).ids_left() == old(world).ids_left(),
        match old(world).occupant(tile_address@, grid_xy) {
            Some(e) => {
                let inf = old(world).info(e)->0;
                let turned = inf.2 is Machine || inf.2 == StructureKind::Storage || inf.2 == StructureKind::PowerSource;
                let d = dir_of(dir_index(inf.3) + 1);
                &&& r == turned
                &&& forall|e2: EntityId| e2 != e ==> final(world).info(e2) == old(world).info(e2)
                &&& final(world).info(e) == if turned { Some((inf.0, inf.1, inf.2, d, inf.4)) } else { Some(inf) }
                &&& match inf.2 {
                    StructureKind::Machine(mt) => exists|n1: BeltNetwork|
                        #[trigger] machine_unlinked(n1, *old(belts), e)
                        && ports_linked(*final(belts), n1, *final(world), tile_address@, e, inf.1,
                            kind_rotated_ports(inf.2, d), false),
                    StructureKind::Storage => exists|n1: BeltNetwork|
                        #[trigger] storage_unlinked(n1, *old(belts), e)
                        && ports_linked(*final(belts), n1, *final(world), tile_address@, e, inf.1,
                            kind_rotated_ports(inf.2, d), true),
                    _ => net_same(*final(belts), *old(belts)),
                }
            },
            None => {
                &&& !r
                &&& forall|e: EntityId| final(world).info(e) == old(world).info(e)
                &&& net_same(*final(belts), *old(belts))
            },
        },
{
    proof {
        lemma_occupant_is_placed(*world, tile_address@, grid_xy);
    }
    let entity = match world.entity_at(tile_address, grid_xy) {
        Some(e) => e,
        None => return false,
    };
    let kind = match world.kind(entity) {
        Some(k) => k,
        None => return false,
    };
    // Only machines, storage and power sources turn: a belt's direction is
    // what it does.
    let machine_type = match kind {
        StructureKind::Machine(mt) => Some(mt),
        StructureKind::Storage | StructureKind::PowerSource => None,
        _ => return false,
    };

    // Disconnect old belt connections for machines and storage
    if machine_type.is_some() {
        belts.disconnect_machine_ports(entity);
    }
    if kind == StructureKind::Storage {
        belts.disconnect_storage_ports(entity);
    }
    let ghost n1 = *belts;

    let new_dir = match world.rotate_cw(entity) {
        Some(d) => d,
        None => return false,
    };

    // Tie the ports again, facing the new way
    if let Some(mt) = machine_type {
        let origin = match world.position(entity) {
            Some(p) => (p.gx, p.gy),
            None => return false,
        };
        auto_connect_machine_ports(world, belts, entity, tile_address, origin, new_dir, mt);
        proof {
            assert(machine_unlinked(n1, *old(belts), entity));
        }
    }
    if kind == StructureKind::Storage {
        let origin = match world.position(entity) {
            Some(p) => (p.gx, p.gy),
            None => return false,
        };
        auto_connect_storage_to_belts(world, belts, entity, tile_address, origin, new_dir);
        proof {
            assert(storage_unlinked(n1, *old(belts), entity));
        }
    }
    true
}

} // verus!
