//! Machine port system: machines and storage have built-in input and output
//! ports on their edges, and belts connect directly to them.

use vstd::prelude::*;
use crate::game::items::{MachineType, machine_footprint};
use crate::game::world::{
    Direction, StructureKind, dir_index, dir_of, kind_footprint, rotated_cell, rotated_footprint,
};

verus! {

/// Whether a port accepts or produces items.
#[derive(Clone, Copy, Debug, PartialEq, Eq, Structural)]
pub enum PortKind {
    Input,
    Output,
}

/// A port definition in canonical orientation (structure facing North).
#[derive(Clone, Copy, Debug, PartialEq, Eq)]
pub struct PortDef {
    /// Which side of the structure cell this port is on.
    pub side: Direction,
    /// Input or output.
    pub kind: PortKind,
    /// Which slot this port maps to (input slots for inputs, output slots for outputs).
    pub slot: usize,
    /// Grid cell offset within the footprint where this port lives; (0, 0) is the origin cell.
    pub cell_offset: (i32, i32),
}

/// The canonical port layout of each machine type.
pub open spec fn machine_ports(mt: MachineType) -> Seq<PortDef> {
    match mt {
        MachineType::Composer => seq![
            PortDef { side: Direction::South, kind: PortKind::Input, slot: 0, cell_offset: (0, 1) },
            PortDef { side: Direction::North, kind: PortKind::Output, slot: 0, cell_offset: (0, 0) },
        ],
        MachineType::Inverter => seq![
            PortDef { side: Direction::South, kind: PortKind::Input, slot: 0, cell_offset: (1, 2) },
            PortDef { side: Direction::North, kind: PortKind::Output, slot: 0, cell_offset: (1, 0) },
        ],
        MachineType::Embedder => seq![
            PortDef { side: Direction::South, kind: PortKind::Input, slot: 0, cell_offset: (1, 2) },
            PortDef { side: Direction::West, kind: PortKind::Input, slot: 1, cell_offset: (0, 1) },
            PortDef { side: Direction::North, kind: PortKind::Output, slot: 0, cell_offset: (1, 0) },
        ],
        MachineType::Quotient => seq![
            PortDef { side: Direction::South, kind: PortKind::Input, slot: 0, cell_offset: (1, 2) },
            PortDef { side: Direction::North, kind: PortKind::Output, slot: 0, cell_offset: (1, 0) },
            PortDef { side: Direction::East, kind: PortKind::Output, slot: 1, cell_offset: (2, 1) },
        ],
        MachineType::Transformer => seq![
            PortDef { side: Direction::South, kind: PortKind::Input, slot: 0, cell_offset: (1, 2) },
            PortDef { side: Direction::West, kind: PortKind::Input, slot: 1, cell_offset: (0, 1) },
            PortDef { side: Direction::North, kind: PortKind::Output, slot: 0, cell_offset: (1, 0) },
        ],
        MachineType::Source => seq![
            PortDef { side: Direction::North, kind: PortKind::Output, slot: 0, cell_offset: (0, 0) },
        ],
    }
}

/// The canonical port layout of a storage building.
pub open spec fn storage_ports() -> Seq<PortDef> {
    seq![
        PortDef { side: Direction::South, kind: PortKind::Input, slot: 0, cell_offset: (0, 1) },
        PortDef { side: Direction::South, kind: PortKind::Input, slot: 1, cell_offset: (1, 1) },
        PortDef { side: Direction::North, kind: PortKind::Output, slot: 0, cell_offset: (0, 0) },
        PortDef { side: Direction::North, kind: PortKind::Output, slot: 1, cell_offset: (1, 0) },
    ]
}

/// The canonical port layout of a structure kind, if it has ports.
pub open spec fn kind_ports(kind: StructureKind) -> Option<Seq<PortDef>> {
    match kind {
        StructureKind::Machine(mt) => Some(machine_ports(mt)),
        StructureKind::Storage => Some(storage_ports()),
        _ => None,
    }
}

/// Get the canonical port layout for a machine type (defined facing North).
pub fn port_layout(machine_type: MachineType) -> (r: &'static [PortDef])
    ensures
        r@ == machine_ports(machine_type),
{
    match machine_type {
        MachineType::Composer => &[
            PortDef { side: Direction::South, kind: PortKind::Input, slot: 0, cell_offset: (0, 1) },
            PortDef { side: Direction::North, kind: PortKind::Output, slot: 0, cell_offset: (0, 0) },
        ],
        MachineType::Inverter => &[
            PortDef { side: Direction::South, kind: PortKind::Input, slot: 0, cell_offset: (1, 2) },
            PortDef { side: Direction::North, kind: PortKind::Output, slot: 0, cell_offset: (1, 0) },
        ],
        MachineType::Embedder => &[
            PortDef { side: Direction::South, kind: PortKind::Input, slot: 0, cell_offset: (1, 2) },
            PortDef { side: Direction::West, kind: PortKind::Input, slot: 1, cell_offset: (0, 1) },
            PortDef { side: Direction::North, kind: PortKind::Output, slot: 0, cell_offset: (1, 0) },
        ],
        MachineType::Quotient => &[
            PortDef { side: Direction::South, kind: PortKind::Input, slot: 0, cell_offset: (1, 2) },
            PortDef { side: Direction::North, kind: PortKind::Output, slot: 0, cell_offset: (1, 0) },
            PortDef { side: Direction::East, kind: PortKind::Output, slot: 1, cell_offset: (2, 1) },
        ],
        MachineType::Transformer => &[
            PortDef { side: Direction::South, kind: PortKind::Input, slot: 0, cell_offset: (1, 2) },
            PortDef { side: Direction::West, kind: PortKind::Input, slot: 1, cell_offset: (0, 1) },
            PortDef { side: Direction::North, kind: PortKind::Output, slot: 0, cell_offset: (1, 0) },
        ],
        MachineType::Source => &[
            PortDef { side: Direction::North, kind: PortKind::Output, slot: 0, cell_offset: (0, 0) },
        ],
    }
}

/// Get the canonical port layout for a storage building (defined facing North).
pub fn storage_port_layout() -> (r: &'static [PortDef])
    ensures
        r@ == storage_ports(),
{
    &[
        PortDef { side: Direction::South, kind: PortKind::Input, slot: 0, cell_offset: (0, 1) },
        PortDef { side: Direction::South, kind: PortKind::Input, slot: 1, cell_offset: (1, 1) },
        PortDef { side: Direction::North, kind: PortKind::Output, slot: 0, cell_offset: (0, 0) },
        PortDef { side: Direction::North, kind: PortKind::Output, slot: 1, cell_offset: (1, 0) },
    ]
}

/// Get the canonical port layout for any structure kind that has ports;
/// `None` for kinds without ports (belts, power nodes, splitters).
pub fn structure_port_layout(kind: StructureKind) -> (r: Option<&'static [PortDef]>)
    ensures
        match (r, kind_ports(kind)) {
            (Some(p), Some(q)) => p@ == q,
            (None, None) => true,
            _ => false,
        },
{
    match kind {
        StructureKind::Machine(mt) => Some(port_layout(mt)),
        StructureKind::Storage => Some(storage_port_layout()),
        _ => None,
    }
}

/// A port with its actual direction after rotation for the structure's facing.
#[derive(Clone, Copy, Debug, PartialEq, Eq)]
pub struct RotatedPort {
    /// Actual side of the structure cell (after rotation).
    pub side: Direction,
    /// Input or output.
    pub kind: PortKind,
    /// Slot index.
    pub slot: usize,
    /// Grid cell offset within the rotated footprint.
    pub cell_offset: (i32, i32),
}

/// A port definition turned with a `(w, h)` footprint to face `facing`.
pub open spec fn rotate_port(def: PortDef, facing: Direction, fp: (i32, i32)) -> RotatedPort {
    let c = rotated_cell(facing, def.cell_offset.0 as int, def.cell_offset.1 as int, fp.0 as int, fp.1 as int);
    RotatedPort {
        side: dir_of(dir_index(def.side) + dir_index(facing)),
        kind: def.kind,
        slot: def.slot,
        cell_offset: (c.0 as i32, c.1 as i32),
    }
}

/// A layout turned to face `facing`.
pub open spec fn rotate_layout(ports: Seq<PortDef>, facing: Direction, fp: (i32, i32)) -> Seq<RotatedPort> {
    Seq::new(ports.len(), |i: int| rotate_port(ports[i], facing, fp))
}

/// Offsets lie in a footprint of at most 3 by 3.
pub open spec fn small_layout(ports: Seq<PortDef>, fp: (i32, i32)) -> bool {
    &&& 1 <= fp.0 <= 3
    &&& 1 <= fp.1 <= 3
    &&& forall|i: int| 0 <= i < ports.len() ==> {
        &&& 0 <= #[trigger] ports[i].cell_offset.0 < fp.0
        &&& 0 <= ports[i].cell_offset.1 < fp.1
    }
}

proof fn lemma_machine_layout_small(mt: MachineType)
    ensures
        small_layout(machine_ports(mt), machine_footprint(mt)),
{
    let p = machine_ports(mt);
    assert forall|i: int| 0 <= i < p.len() implies {
        &&& 0 <= #[trigger] p[i].cell_offset.0 < machine_footprint(mt).0
        &&& 0 <= p[i].cell_offset.1 < machine_footprint(mt).1
    } by {
        if i == 0 {
        } else if i == 1 {
        } else {
        }
    }
}

proof fn lemma_storage_layout_small()
    ensures
        small_layout(storage_ports(), (2, 2)),
{
    let p = storage_ports();
    assert forall|i: int| 0 <= i < p.len() implies {
        &&& 0 <= #[trigger] p[i].cell_offset.0 < 2
        &&& 0 <= p[i].cell_offset.1 < 2
    } by {
        if i == 0 {
        } else if i == 1 {
        } else if i == 2 {
        } else {
        }
    }
}

/// Turn every port of a small layout.
fn rotate_all(ports: &[PortDef], facing: Direction, fp: (i32, i32)) -> (r: Vec<RotatedPort>)
    requires
        small_layout(ports@, fp),
    ensures
        r@ == rotate_layout(ports@, facing, fp),
{
    let n = facing.rotations_from_north();
    let mut out: Vec<RotatedPort> = Vec::new();
    let mut i: usize = 0;
    while i < ports.len()
        invariant
            i <= ports.len(),
            small_layout(ports@, fp),
            n == dir_index(facing),
            out@ =~= rotate_layout(ports@, facing, fp).subrange(0, i as int),
        decreases ports.len() - i,
    {
        let def = ports[i];
        assert(0 <= ports@[i as int].cell_offset.0 < fp.0);
        let cell = facing.rotate_cell(def.cell_offset.0, def.cell_offset.1, fp.0, fp.1);
        out.push(RotatedPort {
            side: def.side.rotate_n_cw(n),
            kind: def.kind,
            slot: def.slot,
            cell_offset: cell,
        });
        i = i + 1;
        assert(out@ =~= rotate_layout(ports@, facing, fp).subrange(0, i as int));
    }
    out
}

/// Get the rotated port layout for a machine at the given facing direction:
/// both sides and cell offsets are turned with the footprint.
pub fn rotated_ports(machine_type: MachineType, facing: Direction) -> (r: Vec<RotatedPort>)
    ensures
        r@ == rotate_layout(machine_ports(machine_type), facing, machine_footprint(machine_type)),
{
    proof {
        lemma_machine_layout_small(machine_type);
    }
    rotate_all(port_layout(machine_type), facing, machine_type.footprint())
}

/// The rotated port layout of a structure kind; empty for kinds without ports.
pub open spec fn kind_rotated_ports(kind: StructureKind, facing: Direction) -> Seq<RotatedPort> {
    match kind_ports(kind) {
        Some(p) => rotate_layout(p, facing, kind_footprint(kind)),
        None => Seq::empty(),
    }
}

/// Get the rotated port layout for any structure kind at the given facing
/// direction; empty for structure types without ports.
pub fn rotated_structure_ports(kind: StructureKind, facing: Direction) -> (r: Vec<RotatedPort>)
    ensures
        r@ == kind_rotated_ports(kind, facing),
{
    let ports = match structure_port_layout(kind) {
        Some(p) => p,
        None => return Vec::new(),
    };
    proof {
        match kind {
            StructureKind::Machine(mt) => lemma_machine_layout_small(mt),
            _ => lemma_storage_layout_small(),
        }
    }
    rotate_all(ports, facing, kind.footprint())
}

/// The first port in `ports` on `side` (and at `cell` when one is given).
pub open spec fn is_first_match(ports: Seq<RotatedPort>, side: Direction, cell: Option<(i32, i32)>, r: Option<RotatedPort>) -> bool {
    match r {
        Some(p) => exists|i: int| 0 <= i < ports.len() && ports[i] == p && #[trigger] port_matches(ports[i], side, cell)
            && forall|j: int| 0 <= j < i ==> !#[trigger] port_matches(ports[j], side, cell),
        None => forall|j: int| 0 <= j < ports.len() ==> !#[trigger] port_matches(ports[j], side, cell),
    }
}

pub open spec fn port_matches(p: RotatedPort, side: Direction, cell: Option<(i32, i32)>) -> bool {
    p.side == side && match cell {
        Some(c) => p.cell_offset == c,
        None => true,
    }
}

fn find_port(ports: Vec<RotatedPort>, side: Direction, cell: Option<(i32, i32)>) -> (r: Option<RotatedPort>)
    ensures
        is_first_match(ports@, side, cell, r),
{
    let mut i: usize = 0;
    while i < ports.len()
        invariant
            i <= ports.len(),
            forall|j: int| 0 <= j < i ==> !#[trigger] port_matches(ports@[j], side, cell),
        decreases ports.len() - i,
    {
        let p = ports[i];
        let hit = p.side == side && match cell {
            Some(c) => p.cell_offset.0 == c.0 && p.cell_offset.1 == c.1,
            None => true,
        };
        if hit {
            assert(port_matches(ports@[i as int], side, cell));
            return Some(p);
        }
        i = i + 1;
    }
    None
}

/// Find a port at a specific cell offset and facing side for any structure kind.
pub fn structure_port_at_cell_on_side(
    kind: StructureKind,
    facing: Direction,
    cell_offset: (i32, i32),
    side: Direction,
) -> (r: Option<RotatedPort>)
    ensures
        is_first_match(kind_rotated_ports(kind, facing), side, Some(cell_offset), r),
{
    find_port(rotated_structure_ports(kind, facing), side, Some(cell_offset))
}

/// Find which port (if any) is on the given side of a machine.
pub fn port_on_side(machine_type: MachineType, facing: Direction, side: Direction) -> (r: Option<
    RotatedPort,
>)
    ensures
        is_first_match(
            rotate_layout(machine_ports(machine_type), facing, machine_footprint(machine_type)),
            side,
            None,
            r,
        ),
{
    find_port(rotated_ports(machine_type, facing), side, None)
}

/// Find which port (if any) lives at a specific cell offset and faces a given side.
pub fn port_at_cell_on_side(
    machine_type: MachineType,
    facing: Direction,
    cell_offset: (i32, i32),
    side: Direction,
) -> (r: Option<RotatedPort>)
    ensures
        is_first_match(
            rotate_layout(machine_ports(machine_type), facing, machine_footprint(machine_type)),
            side,
            Some(cell_offset),
            r,
        ),
{
    find_port(rotated_ports(machine_type, facing), side, Some(cell_offset))
}

/// Whether a belt flowing in `belt_direction`, on the cell next to the port's
/// side, can connect: toward the structure for an input port, away from it
/// for an output port.
pub open spec fn compatible(port: RotatedPort, belt_direction: Direction) -> bool {
    match port.kind {
        PortKind::Input => belt_direction == dir_of(dir_index(port.side) + 2),
        PortKind::Output => belt_direction == port.side,
    }
}

/// Determine whether a belt at an adjacent cell can connect to a port.
pub fn belt_compatible_with_port(port: &RotatedPort, belt_direction: Direction) -> (r: bool)
    ensures
        r == compatible(*port, belt_direction),
{
    match port.kind {
        PortKind::Input => belt_direction == port.side.opposite(),
        PortKind::Output => belt_direction == port.side,
    }
}

/// Ports of every layout sit on the footprint edge matching their side,
/// inside the footprint, before and after turning; no two ports of a
/// machine share a side.
pub proof fn lemma_ports_on_edges(mt: MachineType, facing: Direction, i: int, j: int)
    requires
        0 <= i < machine_ports(mt).len(),
        0 <= j < machine_ports(mt).len(),
    ensures
        ({
            let p = rotate_layout(machine_ports(mt), facing, machine_footprint(mt))[i];
            let fp = rotated_footprint(facing, machine_footprint(mt).0, machine_footprint(mt).1);
            &&& 0 <= p.cell_offset.0 < fp.0
            &&& 0 <= p.cell_offset.1 < fp.1
            &&& p.side == Direction::North ==> p.cell_offset.1 == 0
            &&& p.side == Direction::South ==> p.cell_offset.1 == fp.1 - 1
            &&& p.side == Direction::West ==> p.cell_offset.0 == 0
            &&& p.side == Direction::East ==> p.cell_offset.0 == fp.0 - 1
        }),
        i != j ==> rotate_layout(machine_ports(mt), facing, machine_footprint(mt))[i].side
            != rotate_layout(machine_ports(mt), facing, machine_footprint(mt))[j].side,
{
    let ports = machine_ports(mt);
    assert(ports[i] == machine_ports(mt)[i]);
    match mt {
        MachineType::Composer => {},
        MachineType::Inverter => {},
        MachineType::Embedder => {},
        MachineType::Quotient => {},
        MachineType::Transformer => {},
        MachineType::Source => {},
    }
}

/// Storage ports sit on the footprint edge matching their side, before and after turning.
pub proof fn lemma_storage_ports_on_edges(facing: Direction, i: int)
    requires
        0 <= i < 4,
    ensures
        ({
            let p = rotate_layout(storage_ports(), facing, (2, 2))[i];
            &&& 0 <= p.cell_offset.0 < 2
            &&& 0 <= p.cell_offset.1 < 2
            &&& p.side == Direction::North ==> p.cell_offset.1 == 0
            &&& p.side == Direction::South ==> p.cell_offset.1 == 1
            &&& p.side == Direction::West ==> p.cell_offset.0 == 0
            &&& p.side == Direction::East ==> p.cell_offset.0 == 1
        }),
{
}

} // verus!
