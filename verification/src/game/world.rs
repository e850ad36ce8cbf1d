//! Grid directions, structure kinds and entity identities of the world.

use vstd::prelude::*;
use crate::game::items::{ItemId, MachineType, machine_footprint};

verus! {

/// A facing on the grid. +x is East, +y is South.
#[derive(Clone, Copy, Debug, PartialEq, Eq, Hash, Structural)]
pub enum Direction {
    North,
    East,
    South,
    West,
}

/// Quarter turns clockwise from North.
pub open spec fn dir_index(d: Direction) -> nat {
    match d {
        Direction::North => 0,
        Direction::East => 1,
        Direction::South => 2,
        Direction::West => 3,
    }
}

/// The direction `n` quarter turns clockwise from North.
pub open spec fn dir_of(n: nat) -> Direction {
    if n % 4 == 0 {
        Direction::North
    } else if n % 4 == 1 {
        Direction::East
    } else if n % 4 == 2 {
        Direction::South
    } else {
        Direction::West
    }
}

pub open spec fn arrow_of(d: Direction) -> char {
    match d {
        Direction::North => '\u{2191}',
        Direction::East => '\u{2192}',
        Direction::South => '\u{2193}',
        Direction::West => '\u{2190}',
    }
}

/// Unit grid offset of a direction.
pub open spec fn grid_offset(d: Direction) -> (i32, i32) {
    match d {
        Direction::North => (0i32, -1i32),
        Direction::East => (1, 0),
        Direction::South => (0, 1),
        Direction::West => (-1i32, 0i32),
    }
}

/// Where cell `(x, y)` of a `w` by `h` footprint lands when the footprint
/// is turned from facing North to facing `d`.
pub open spec fn rotated_cell(d: Direction, x: int, y: int, w: int, h: int) -> (int, int) {
    match d {
        Direction::North => (x, y),
        Direction::East => (h - 1 - y, x),
        Direction::South => (w - 1 - x, h - 1 - y),
        Direction::West => (y, w - 1 - x),
    }
}

/// The size of a `w` by `h` footprint turned to face `d`.
pub open spec fn rotated_footprint(d: Direction, w: i32, h: i32) -> (i32, i32) {
    match d {
        Direction::North | Direction::South => (w, h),
        Direction::East | Direction::West => (h, w),
    }
}

/// `rotate_cell` stays within `i32` for these arguments.
pub open spec fn rotate_cell_fits(d: Direction, x: i32, y: i32, w: i32, h: i32) -> bool {
    let r = rotated_cell(d, x as int, y as int, w as int, h as int);
    &&& i32::MIN <= r.0 <= i32::MAX
    &&& i32::MIN <= r.1 <= i32::MAX
    &&& (d == Direction::East || d == Direction::South) ==> h - 1 >= i32::MIN
    &&& (d == Direction::South || d == Direction::West) ==> w - 1 >= i32::MIN
}

impl Direction {
    pub fn rotate_cw(self) -> (r: Self)
        ensures
            r == dir_of(dir_index(self) + 1),
    {
        match self {
            Direction::North => Direction::East,
            Direction::East => Direction::South,
            Direction::South => Direction::West,
            Direction::West => Direction::North,
        }
    }

    pub fn arrow_char(self) -> (r: char)
        ensures
            r == arrow_of(self),
    {
        match self {
            Direction::North => '\u{2191}',
            Direction::East => '\u{2192}',
            Direction::South => '\u{2193}',
            Direction::West => '\u{2190}',
        }
    }

    /// The reverse direction.
    pub fn opposite(self) -> (r: Self)
        ensures
            r == dir_of(dir_index(self) + 2),
    {
        match self {
            Direction::North => Direction::South,
            Direction::East => Direction::West,
            Direction::South => Direction::North,
            Direction::West => Direction::East,
        }
    }

    /// Quarter turns clockwise from North (North 0, East 1, South 2, West 3).
    pub fn rotations_from_north(self) -> (r: u8)
        ensures
            r == dir_index(self),
    {
        match self {
            Direction::North => 0,
            Direction::East => 1,
            Direction::South => 2,
            Direction::West => 3,
        }
    }

    /// Turn `n` quarter turns clockwise.
    pub fn rotate_n_cw(self, n: u8) -> (r: Self)
        ensures
            r == dir_of(dir_index(self) + n as nat),
    {
        let mut d = self;
        let mut k: u8 = 0;
        let turns = n % 4;
        while k < turns
            invariant
                k <= turns,
                turns == n % 4,
                d == dir_of(dir_index(self) + k as nat),
            decreases turns - k,
        {
            d = d.rotate_cw();
            k = k + 1;
        }
        assert((dir_index(self) + n) % 4 == (dir_index(self) + turns) % 4);
        d
    }

    /// Map cell `(x, y)` of a `w` by `h` footprint facing North to its place
    /// in the footprint turned to face this direction.
    pub fn rotate_cell(self, x: i32, y: i32, w: i32, h: i32) -> (r: (i32, i32))
        requires
            rotate_cell_fits(self, x, y, w, h),
        ensures
            (r.0 as int, r.1 as int) == rotated_cell(self, x as int, y as int, w as int, h as int),
    {
        match self {
            Direction::North => (x, y),
            Direction::East => (h - 1 - y, x),
            Direction::South => (w - 1 - x, h - 1 - y),
            Direction::West => (y, w - 1 - x),
        }
    }

    /// Footprint `(w, h)` turned to face this direction.
    pub fn rotate_footprint(self, w: i32, h: i32) -> (r: (i32, i32))
        ensures
            r == rotated_footprint(self, w, h),
    {
        match self {
            Direction::North | Direction::South => (w, h),
            Direction::East | Direction::West => (h, w),
        }
    }

    /// Grid-space unit offset `(dx, dy)`: +x is East, +y is South.
    pub fn grid_offset_i32(self) -> (r: (i32, i32))
        ensures
            r == grid_offset(self),
    {
        match self {
            Direction::North => (0i32, -1i32),
            Direction::East => (1, 0),
            Direction::South => (0, 1),
            Direction::West => (-1i32, 0i32),
        }
    }
}

/// Four clockwise turns bring a direction back; the opposite of the opposite is the direction.
pub proof fn lemma_direction_cycles(d: Direction)
    ensures
        dir_of(dir_index(dir_of(dir_index(dir_of(dir_index(dir_of(dir_index(d) + 1)) + 1)) + 1)) + 1) == d,
        dir_of(dir_index(dir_of(dir_index(d) + 2)) + 2) == d,
        dir_of(dir_index(d)) == d,
        dir_index(d) < 4,
{
}

/// Turning a footprint maps its cells into the turned footprint, and
/// distinct cells to distinct cells.
pub proof fn lemma_rotate_cell_in_footprint(d: Direction, x: int, y: int, x2: int, y2: int, w: i32, h: i32)
    requires
        0 <= x < w,
        0 <= y < h,
        0 <= x2 < w,
        0 <= y2 < h,
    ensures
        0 <= rotated_cell(d, x, y, w as int, h as int).0 < rotated_footprint(d, w, h).0,
        0 <= rotated_cell(d, x, y, w as int, h as int).1 < rotated_footprint(d, w, h).1,
        (x, y) != (x2, y2) ==> rotated_cell(d, x, y, w as int, h as int) != rotated_cell(d, x2, y2, w as int, h as int),
{
}

/// A placed structure's identity. Values come from the world's entity allocator.
#[derive(Clone, Copy, Debug, PartialEq, Eq, Hash, PartialOrd, Ord, Structural)]
pub struct EntityId(pub u64);

/// The kinds of structure that can be placed.
#[derive(Clone, Copy, Debug, PartialEq, Eq, Hash, Structural)]
pub enum StructureKind {
    Belt,
    Machine(MachineType),
    PowerNode,
    PowerSource,
    Splitter,
    Storage,
}

pub open spec fn kind_footprint(k: StructureKind) -> (i32, i32) {
    match k {
        StructureKind::Machine(mt) => machine_footprint(mt),
        StructureKind::Storage => (2, 2),
        _ => (1, 1),
    }
}

/// The structure an item places, if it places one.
pub open spec fn kind_of_item(item: ItemId) -> Option<StructureKind> {
    match item {
        ItemId::Belt => Some(StructureKind::Belt),
        ItemId::Quadrupole => Some(StructureKind::PowerNode),
        ItemId::Dynamo => Some(StructureKind::PowerSource),
        ItemId::Splitter => Some(StructureKind::Splitter),
        ItemId::Composer => Some(StructureKind::Machine(MachineType::Composer)),
        ItemId::Inverter => Some(StructureKind::Machine(MachineType::Inverter)),
        ItemId::Embedder => Some(StructureKind::Machine(MachineType::Embedder)),
        ItemId::Quotient => Some(StructureKind::Machine(MachineType::Quotient)),
        ItemId::Transformer => Some(StructureKind::Machine(MachineType::Transformer)),
        ItemId::SourceMachine => Some(StructureKind::Machine(MachineType::Source)),
        _ => None,
    }
}

/// The item a structure is built from, if the catalogue has one.
pub open spec fn item_of_kind(k: StructureKind) -> Option<ItemId> {
    match k {
        StructureKind::Belt => Some(ItemId::Belt),
        StructureKind::PowerNode => Some(ItemId::Quadrupole),
        StructureKind::PowerSource => Some(ItemId::Dynamo),
        StructureKind::Splitter => Some(ItemId::Splitter),
        StructureKind::Machine(MachineType::Composer) => Some(ItemId::Composer),
        StructureKind::Machine(MachineType::Inverter) => Some(ItemId::Inverter),
        StructureKind::Machine(MachineType::Embedder) => Some(ItemId::Embedder),
        StructureKind::Machine(MachineType::Quotient) => Some(ItemId::Quotient),
        StructureKind::Machine(MachineType::Transformer) => Some(ItemId::Transformer),
        StructureKind::Machine(MachineType::Source) => Some(ItemId::SourceMachine),
        StructureKind::Storage => None,
    }
}

impl StructureKind {
    /// Footprint `(width, height)` facing North.
    pub fn footprint(&self) -> (r: (i32, i32))
        ensures
            r == kind_footprint(*self),
    {
        match self {
            StructureKind::Machine(mt) => mt.footprint(),
            StructureKind::Storage => (2, 2),
            _ => (1, 1),
        }
    }

    /// The structure an item places, if it places one.
    pub fn from_item(item: ItemId) -> (r: Option<StructureKind>)
        ensures
            r == kind_of_item(item),
    {
        match item {
            ItemId::Belt => Some(StructureKind::Belt),
            ItemId::Quadrupole => Some(StructureKind::PowerNode),
            ItemId::Dynamo => Some(StructureKind::PowerSource),
            ItemId::Splitter => Some(StructureKind::Splitter),
            ItemId::Composer => Some(StructureKind::Machine(MachineType::Composer)),
            ItemId::Inverter => Some(StructureKind::Machine(MachineType::Inverter)),
            ItemId::Embedder => Some(StructureKind::Machine(MachineType::Embedder)),
            ItemId::Quotient => Some(StructureKind::Machine(MachineType::Quotient)),
            ItemId::Transformer => Some(StructureKind::Machine(MachineType::Transformer)),
            ItemId::SourceMachine => Some(StructureKind::Machine(MachineType::Source)),
            _ => None,
        }
    }

    /// The item this structure is built from, if the catalogue has one.
    pub fn to_item(&self) -> (r: Option<ItemId>)
        ensures
            r == item_of_kind(*self),
    {
        match self {
            StructureKind::Belt => Some(ItemId::Belt),
            StructureKind::PowerNode => Some(ItemId::Quadrupole),
            StructureKind::PowerSource => Some(ItemId::Dynamo),
            StructureKind::Splitter => Some(ItemId::Splitter),
            StructureKind::Machine(mt) => match mt {
                MachineType::Composer => Some(ItemId::Composer),
                MachineType::Inverter => Some(ItemId::Inverter),
                MachineType::Embedder => Some(ItemId::Embedder),
                MachineType::Quotient => Some(ItemId::Quotient),
                MachineType::Transformer => Some(ItemId::Transformer),
                MachineType::Source => Some(ItemId::SourceMachine),
            },
            StructureKind::Storage => None,
        }
    }
}

/// Placing the item a structure is built from gives that structure back,
/// and the structure an item places is built from that item.
pub proof fn lemma_item_kind_roundtrip(k: StructureKind, i: ItemId)
    ensures
        item_of_kind(k) matches Some(it) ==> kind_of_item(it) == Some(k),
        kind_of_item(i) matches Some(kk) ==> item_of_kind(kk) == Some(i),
{
}


/// Cell `c` lies in the `fp.0` by `fp.1` rectangle whose top-left cell is `origin`.
pub open spec fn in_footprint(origin: (i32, i32), fp: (i32, i32), c: (i32, i32)) -> bool {
    origin.0 <= c.0 < origin.0 + fp.0 && origin.1 <= c.1 < origin.1 + fp.1
}

/// The cells of the `footprint.0` by `footprint.1` rectangle whose top-left
/// cell is `origin`, row by row.
pub fn occupied_cells(origin: (i32, i32), footprint: (i32, i32)) -> (r: Vec<(i32, i32)>)
    requires
        origin.0 + footprint.0 <= i32::MAX,
        origin.1 + footprint.1 <= i32::MAX,
    ensures
        forall|c: (i32, i32)| r@.contains(c) <==> in_footprint(origin, footprint, c),
        r@.no_duplicates(),
{
    let mut out: Vec<(i32, i32)> = Vec::new();
    let mut dy: i32 = 0;
    while dy < footprint.1
        invariant
            origin.0 + footprint.0 <= i32::MAX,
            origin.1 + footprint.1 <= i32::MAX,
            0 <= dy,
            footprint.1 > 0 ==> dy <= footprint.1,
            footprint.1 <= 0 ==> dy == 0,
            forall|c: (i32, i32)| out@.contains(c) <==> (origin.0 <= c.0 < origin.0 + footprint.0 && origin.1 <= c.1 < origin.1 + dy),
            out@.no_duplicates(),
        decreases footprint.1 - dy,
    {
        let mut dx: i32 = 0;
        while dx < footprint.0
            invariant
                origin.0 + footprint.0 <= i32::MAX,
                origin.1 + footprint.1 <= i32::MAX,
                0 <= dy < footprint.1,
                0 <= dx,
                footprint.0 > 0 ==> dx <= footprint.0,
                footprint.0 <= 0 ==> dx == 0,
                forall|c: (i32, i32)| out@.contains(c) <==> ((origin.0 <= c.0 < origin.0 + footprint.0 && origin.1 <= c.1 < origin.1 + dy) || (c.1 == origin.1 + dy && origin.0 <= c.0 < origin.0 + dx)),
                out@.no_duplicates(),
            decreases footprint.0 - dx,
        {
            let c = (origin.0 + dx, origin.1 + dy);
            let ghost prev = out@;
            out.push(c);
            proof {
                assert(out@ == prev.push(c));
                assert forall|q: (i32, i32)| out@.contains(q) <==> (prev.contains(q) || q == c) by {
                    if q == c {
                        assert(out@[prev.len() as int] == c);
                    }
                    if prev.contains(q) {
                        let j = choose|j: int| 0 <= j < prev.len() && prev[j] == q;
                        assert(out@[j] == q);
                    }
                    if out@.contains(q) && q != c {
                        let j = choose|j: int| 0 <= j < out@.len() && out@[j] == q;
                        assert(prev[j] == q);
                    }
                }
                assert forall|i: int, j: int| 0 <= i < j < out@.len() implies out@[i] != out@[j] by {
                    if j == prev.len() {
                        assert(prev.contains(prev[i]));
                    }
                }
                assert forall|q: (i32, i32)| out@.contains(q) <==> ((origin.0 <= q.0 < origin.0 + footprint.0 && origin.1 <= q.1 < origin.1 + dy) || (q.1 == origin.1 + dy && origin.0 <= q.0 < origin.0 + dx + 1)) by {
                    assert(prev.contains(q) <==> ((origin.0 <= q.0 < origin.0 + footprint.0 && origin.1 <= q.1 < origin.1 + dy) || (q.1 == origin.1 + dy && origin.0 <= q.0 < origin.0 + dx)));
                }
            }
            dx = dx + 1;
        }
        assert forall|q: (i32, i32)| out@.contains(q) <==> (origin.0 <= q.0 < origin.0 + footprint.0 && origin.1 <= q.1 < origin.1 + dy + 1) by {
            assert(out@.contains(q) <==> ((origin.0 <= q.0 < origin.0 + footprint.0 && origin.1 <= q.1 < origin.1 + dy) || (q.1 == origin.1 + dy && origin.0 <= q.0 < origin.0 + dx)));
        }
        dy = dy + 1;
    }
    assert forall|q: (i32, i32)| out@.contains(q) <==> in_footprint(origin, footprint, q) by {
        assert(out@.contains(q) <==> (origin.0 <= q.0 < origin.0 + footprint.0 && origin.1 <= q.1 < origin.1 + dy));
    }
    out
}

/// A grid position on a tile.
#[derive(Clone, Copy, Debug, PartialEq, Eq, Structural)]
pub struct GridPos {
    pub gx: i32,
    pub gy: i32,
}

/// A structure as placed: the item it was built from and its facing.
#[derive(Clone, Copy, Debug, PartialEq, Eq, Structural)]
pub struct Structure {
    pub item: ItemId,
    pub direction: Direction,
}

/// The footprint, turned to face `direction`, of the structure `item` builds.
pub open spec fn placed_footprint(item: ItemId, direction: Direction) -> (i32, i32) {
    match kind_of_item(item) {
        Some(k) => rotated_footprint(direction, kind_footprint(k).0, kind_footprint(k).1),
        None => (0, 0),
    }
}

/// One occupied grid cell of a tile.
struct CellEntry {
    tile: Vec<u8>,
    xy: (i32, i32),
    entity: EntityId,
}

/// A placed structure.
struct Placed {
    id: EntityId,
    tile: Vec<u8>,
    origin: (i32, i32),
    kind: StructureKind,
    direction: Direction,
    item: ItemId,
}

/// What the world records of a placed structure: its tile address, origin
/// cell, kind, facing and the item it was built from.
pub type PlacedInfo = (Seq<u8>, (i32, i32), StructureKind, Direction, ItemId);

spec fn cell_is(c: CellEntry, tile: Seq<u8>, xy: (i32, i32)) -> bool {
    c.tile@ == tile && c.xy == xy
}

spec fn keys_unique(cells: Seq<CellEntry>) -> bool {
    forall|i: int, j: int|
        0 <= i < j < cells.len() ==> !(#[trigger] cells[i].tile@ == #[trigger] cells[j].tile@ && cells[i].xy
            == cells[j].xy)
}

spec fn ids_unique(ents: Seq<Placed>) -> bool {
    forall|i: int, j: int| 0 <= i < j < ents.len() ==> #[trigger] ents[i].id != #[trigger] ents[j].id
}

spec fn occupant_of(cells: Seq<CellEntry>, tile: Seq<u8>, xy: (i32, i32)) -> Option<EntityId> {
    if exists|i: int| 0 <= i < cells.len() && #[trigger] cell_is(cells[i], tile, xy) {
        let i = choose|i: int| 0 <= i < cells.len() && #[trigger] cell_is(cells[i], tile, xy);
        Some(cells[i].entity)
    } else {
        None
    }
}

spec fn placed_info(p: Placed) -> PlacedInfo {
    (p.tile@, p.origin, p.kind, p.direction, p.item)
}

spec fn info_of(ents: Seq<Placed>, e: EntityId) -> Option<PlacedInfo> {
    if exists|i: int| 0 <= i < ents.len() && (#[trigger] ents[i]).id == e {
        let i = choose|i: int| 0 <= i < ents.len() && (#[trigger] ents[i]).id == e;
        Some(placed_info(ents[i]))
    } else {
        None
    }
}

proof fn lemma_occupant_at(cells: Seq<CellEntry>, i: int)
    requires
        keys_unique(cells),
        0 <= i < cells.len(),
    ensures
        occupant_of(cells, cells[i].tile@, cells[i].xy) == Some(cells[i].entity),
{
    let tile = cells[i].tile@;
    let xy = cells[i].xy;
    assert(cell_is(cells[i], tile, xy));
    let j = choose|j: int| 0 <= j < cells.len() && #[trigger] cell_is(cells[j], tile, xy);
    if j < i {
        assert(!(cells[j].tile@ == cells[i].tile@ && cells[j].xy == cells[i].xy));
    } else if i < j {
        assert(!(cells[i].tile@ == cells[j].tile@ && cells[i].xy == cells[j].xy));
    }
}

proof fn lemma_occupant_absent(cells: Seq<CellEntry>, tile: Seq<u8>, xy: (i32, i32))
    requires
        forall|i: int| 0 <= i < cells.len() ==> !cell_is(#[trigger] cells[i], tile, xy),
    ensures
        occupant_of(cells, tile, xy) is None,
{
}

proof fn lemma_info_at(ents: Seq<Placed>, i: int)
    requires
        ids_unique(ents),
        0 <= i < ents.len(),
    ensures
        info_of(ents, ents[i].id) == Some(placed_info(ents[i])),
{
    let e = ents[i].id;
    let j = choose|j: int| 0 <= j < ents.len() && (#[trigger] ents[j]).id == e;
    if j < i {
        assert(ents[j].id != ents[i].id);
    } else if i < j {
        assert(ents[i].id != ents[j].id);
    }
}

/// All placed structures and the grid cells they occupy, per tile.
pub struct WorldState {
    cells: Vec<CellEntry>,
    entities: Vec<Placed>,
    next_id: u64,
}

impl WorldState {
    /// The structure occupying cell `xy` of tile `tile`, if any.
    pub closed spec fn occupant(&self, tile: Seq<u8>, xy: (i32, i32)) -> Option<EntityId> {
        occupant_of(self.cells@, tile, xy)
    }

    /// The record of structure `e`, if it is placed.
    pub closed spec fn info(&self, e: EntityId) -> Option<PlacedInfo> {
        info_of(self.entities@, e)
    }

    /// Another structure can still be given a fresh identity.
    pub closed spec fn ids_left(&self) -> bool {
        self.next_id < u64::MAX
    }

    /// Cell keys and entity ids are unique; every occupied cell belongs to a
    /// placed structure on that tile; ids are below the allocator's next id.
    pub closed spec fn wf(&self) -> bool {
        &&& keys_unique(self.cells@)
        &&& ids_unique(self.entities@)
        &&& forall|i: int| 0 <= i < self.entities@.len() ==> (#[trigger] self.entities@[i]).id.0 < self.next_id
        &&& forall|i: int|
            0 <= i < self.cells@.len() ==> ((#[trigger] info_of(self.entities@, self.cells@[i].entity)) matches Some(
                inf,
            ) && inf.0 == self.cells@[i].tile@)
    }

    proof fn lemma_info_absent(&self, e: EntityId)
        requires
            self.wf(),
            e.0 >= self.next_id,
        ensures
            self.info(e) is None,
    {
        if exists|i: int| 0 <= i < self.entities@.len() && (#[trigger] self.entities@[i]).id == e {
            let i = choose|i: int| 0 <= i < self.entities@.len() && (#[trigger] self.entities@[i]).id == e;
            assert(self.entities@[i].id.0 < self.next_id);
        }
    }

    pub fn new() -> (r: Self)
        ensures
            r.wf(),
            forall|t: Seq<u8>, xy: (i32, i32)| r.occupant(t, xy) is None,
            forall|e: EntityId| r.info(e) is None,
            r.ids_left(),
    {
        WorldState { cells: Vec::new(), entities: Vec::new(), next_id: 0 }
    }

    fn find_cell(&self, tile: &[u8], xy: (i32, i32)) -> (r: Option<usize>)
        requires
            self.wf(),
        ensures
            r matches Some(i) ==> i < self.cells@.len() && cell_is(self.cells@[i as int], tile@, xy)
                && self.occupant(tile@, xy) == Some(self.cells@[i as int].entity),
            r is None ==> self.occupant(tile@, xy) is None,
    {
        let mut i: usize = 0;
        while i < self.cells.len()
            invariant
                self.wf(),
                i <= self.cells@.len(),
                forall|j: int| 0 <= j < i ==> !cell_is(#[trigger] self.cells@[j], tile@, xy),
            decreases self.cells@.len() - i,
        {
            if self.cells[i].xy.0 == xy.0 && self.cells[i].xy.1 == xy.1
                && crate::hyperbolic::words::words_equal(self.cells[i].tile.as_slice(), tile) {
                proof {
                    lemma_occupant_at(self.cells@, i as int);
                }
                return Some(i);
            }
            i = i + 1;
        }
        None
    }

    fn find_entity(&self, e: EntityId) -> (r: Option<usize>)
        requires
            self.wf(),
        ensures
            r matches Some(i) ==> i < self.entities@.len() && self.entities@[i as int].id == e
                && self.info(e) == Some(placed_info(self.entities@[i as int])),
            r is None ==> self.info(e) is None,
    {
        let mut i: usize = 0;
        while i < self.entities.len()
            invariant
                self.wf(),
                i <= self.entities@.len(),
                forall|j: int| 0 <= j < i ==> (#[trigger] self.entities@[j]).id != e,
            decreases self.entities@.len() - i,
        {
            if self.entities[i].id == e {
                proof {
                    lemma_info_at(self.entities@, i as int);
                }
                return Some(i);
            }
            i = i + 1;
        }
        None
    }

    /// Whether any cell of the tile is occupied.
    pub fn has_tile(&self, address: &[u8]) -> (r: bool)
        requires
            self.wf(),
        ensures
            r == exists|xy: (i32, i32)| #[trigger] self.occupant(address@, xy) is Some,
    {
        let mut i: usize = 0;
        while i < self.cells.len()
            invariant
                self.wf(),
                i <= self.cells@.len(),
                forall|j: int| 0 <= j < i ==> (#[trigger] self.cells@[j]).tile@ != address@,
            decreases self.cells@.len() - i,
        {
            if crate::hyperbolic::words::words_equal(self.cells[i].tile.as_slice(), address) {
                proof {
                    lemma_occupant_at(self.cells@, i as int);
                    assert(self.occupant(address@, self.cells@[i as int].xy) is Some);
                }
                return true;
            }
            i = i + 1;
        }
        proof {
            assert forall|xy: (i32, i32)| !(#[trigger] self.occupant(address@, xy) is Some) by {
                assert forall|j: int| 0 <= j < self.cells@.len() implies !cell_is(#[trigger] self.cells@[j], address@, xy) by {
                    assert(self.cells@[j].tile@ != address@);
                }
                lemma_occupant_absent(self.cells@, address@, xy);
            }
        }
        false
    }

    /// The structure occupying cell `grid_xy` of the tile, if any.
    pub fn entity_at(&self, address: &[u8], grid_xy: (i32, i32)) -> (r: Option<EntityId>)
        requires
            self.wf(),
        ensures
            r == self.occupant(address@, grid_xy),
    {
        match self.find_cell(address, grid_xy) {
            Some(i) => Some(self.cells[i].entity),
            None => None,
        }
    }

    /// The kind of structure `entity`, if it is placed.
    pub fn kind(&self, entity: EntityId) -> (r: Option<StructureKind>)
        requires
            self.wf(),
        ensures
            r == (match self.info(entity) {
                Some(inf) => Some(inf.2),
                None => None::<StructureKind>,
            }),
    {
        match self.find_entity(entity) {
            Some(i) => Some(self.entities[i].kind),
            None => None,
        }
    }

    /// The facing of structure `entity`, if it is placed.
    pub fn direction(&self, entity: EntityId) -> (r: Option<Direction>)
        requires
            self.wf(),
        ensures
            r == (match self.info(entity) {
                Some(inf) => Some(inf.3),
                None => None::<Direction>,
            }),
    {
        match self.find_entity(entity) {
            Some(i) => Some(self.entities[i].direction),
            None => None,
        }
    }

    /// The origin (top-left) cell of structure `entity`, if it is placed.
    pub fn position(&self, entity: EntityId) -> (r: Option<GridPos>)
        requires
            self.wf(),
        ensures
            r == (match self.info(entity) {
                Some(inf) => {
                    let origin = inf.1;
                    Some((GridPos { gx: origin.0, gy: origin.1 }))
                },
                None => None::<GridPos>,
            }),
    {
        match self.find_entity(entity) {
            Some(i) => {
                let (gx, gy) = self.entities[i].origin;
                Some(GridPos { gx, gy })
            },
            None => None,
        }
    }

    /// Whether `(gx, gy)` is the origin cell of structure `entity`.
    pub fn is_origin(&self, entity: EntityId, gx: i32, gy: i32) -> (r: bool)
        requires
            self.wf(),
        ensures
            r == (match self.info(entity) {
                Some(inf) => inf.1 == (gx, gy),
                None => false,
            }),
    {
        match self.find_entity(entity) {
            Some(i) => self.entities[i].origin.0 == gx && self.entities[i].origin.1 == gy,
            None => false,
        }
    }

    /// Place the structure that `item` builds with its origin at `grid_xy`,
    /// facing `direction`. Fails, changing nothing, when the item builds no
    /// structure, a cell of the footprint is taken, or no identity is left.
    pub fn place(&mut self, address: &[u8], grid_xy: (i32, i32), item: ItemId, direction: Direction) -> (r: Option<EntityId>)
        requires
            old(self).wf(),
            grid_xy.0 + 3 <= i32::MAX,
            grid_xy.1 + 3 <= i32::MAX,
        ensures
            final(self).wf(),
            r is Some <==> (kind_of_item(item) is Some && old(self).ids_left() && forall|c: (i32, i32)|
                in_footprint(grid_xy, placed_footprint(item, direction), c) ==> old(self).occupant(address@, c) is None),
            r is None ==> (forall|t: Seq<u8>, c: (i32, i32)| final(self).occupant(t, c) == old(self).occupant(t, c))
                && (forall|e: EntityId| final(self).info(e) == old(self).info(e))
                && final(self).ids_left() == old(self).ids_left(),
            r matches Some(e) ==> is_placement(*final(self), *old(self), address@, grid_xy, item, direction, e),
    {
        let kind = match StructureKind::from_item(item) {
            Some(k) => k,
            None => return None,
        };
        let (fw, fh) = kind.footprint();
        let fp = direction.rotate_footprint(fw, fh);
        assert(fp == placed_footprint(item, direction));
        let cells = occupied_cells(grid_xy, fp);
        let mut k: usize = 0;
        while k < cells.len()
            invariant
                self.wf(),
                *self == *old(self),
                fp == placed_footprint(item, direction),
                k <= cells@.len(),
                forall|c: (i32, i32)| cells@.contains(c) <==> in_footprint(grid_xy, fp, c),
                forall|q: int| 0 <= q < k ==> self.occupant(address@, #[trigger] cells@[q]) is None,
            decreases cells@.len() - k,
        {
            let found = self.find_cell(address, cells[k]);
            if found.is_some() {
                proof {
                    assert(cells@.contains(cells@[k as int]));
                    assert(in_footprint(grid_xy, fp, cells@[k as int]));
                    assert(self.occupant(address@, cells@[k as int]) is Some);
                }
                return None;
            }
            k = k + 1;
        }
        assert forall|c: (i32, i32)| in_footprint(grid_xy, fp, c) implies old(self).occupant(address@, c) is None by {
            assert(cells@.contains(c));
            let q = choose|q: int| 0 <= q < cells@.len() && cells@[q] == c;
            assert(self.occupant(address@, cells@[q]) is None);
        }
        if self.next_id == u64::MAX {
            return None;
        }
        let e = EntityId(self.next_id);
        proof {
            self.lemma_info_absent(e);
        }
        let ghost old_cells = self.cells@;
        let ghost old_entities = self.entities@;
        let rec = Placed {
            id: e,
            tile: crate::hyperbolic::words::copy_word(address),
            origin: grid_xy,
            kind,
            direction,
            item,
        };
        self.entities.push(rec);
        self.next_id = self.next_id + 1;
        let ghost n_e = old_entities.len() as int;
        let ghost new_entities = self.entities@;
        proof {
            assert(self.entities@ == old_entities.push(self.entities@[n_e]));
            assert(ids_unique(self.entities@)) by {
                assert forall|i: int, j: int| 0 <= i < j < self.entities@.len() implies #[trigger] self.entities@[i].id
                    != #[trigger] self.entities@[j].id by {
                    if j == n_e {
                        assert(old_entities[i].id.0 < old(self).next_id);
                    } else {
                        assert(self.entities@[i] == old_entities[i]);
                        assert(self.entities@[j] == old_entities[j]);
                    }
                }
            }
            lemma_info_at(self.entities@, n_e);
            assert forall|e2: EntityId| e2 != e implies info_of(self.entities@, e2) == info_of(old_entities, e2) by {
                if exists|i: int| 0 <= i < old_entities.len() && (#[trigger] old_entities[i]).id == e2 {
                    let i = choose|i: int| 0 <= i < old_entities.len() && (#[trigger] old_entities[i]).id == e2;
                    lemma_info_at(old_entities, i);
                    assert(self.entities@[i] == old_entities[i]);
                    lemma_info_at(self.entities@, i);
                } else {
                    assert forall|i: int| 0 <= i < self.entities@.len() implies (#[trigger] self.entities@[i]).id != e2 by {
                        if i < n_e {
                            assert(self.entities@[i] == old_entities[i]);
                        }
                    }
                }
            }
        }
        let mut k: usize = 0;
        while k < cells.len()
            invariant
                k <= cells@.len(),
                cells@.no_duplicates(),
                forall|c: (i32, i32)| cells@.contains(c) <==> in_footprint(grid_xy, fp, c),
                forall|c: (i32, i32)| in_footprint(grid_xy, fp, c) ==> occupant_of(old_cells, address@, c) is None,
                keys_unique(old_cells),
                self.entities@ == new_entities,
                new_entities == old_entities.push(new_entities[n_e]),
                new_entities[n_e].id == e,
                self.next_id == old(self).next_id + 1,
                e.0 == old(self).next_id,
                n_e == old_entities.len(),
                self.cells@.len() == old_cells.len() + k,
                forall|q: int| 0 <= q < old_cells.len() ==> #[trigger] self.cells@[q] == old_cells[q],
                forall|q: int| 0 <= q < k ==> #[trigger] cell_is(self.cells@[old_cells.len() + q], address@, cells@[q])
                    && self.cells@[old_cells.len() + q].entity == e,
            decreases cells@.len() - k,
        {
            let ghost prev = self.cells@;
            self.cells.push(CellEntry { tile: crate::hyperbolic::words::copy_word(address), xy: cells[k], entity: e });
            assert(self.cells@ == prev.push(self.cells@[prev.len() as int]));
            assert(cell_is(self.cells@[old_cells.len() + k], address@, cells@[k as int]));
            k = k + 1;
        }
        proof {
            let n0 = old_cells.len() as int;
            assert forall|q: int| 0 <= q < cells@.len() implies cell_is(self.cells@[n0 + q], address@, cells@[q])
                && self.cells@[n0 + q].entity == e by {
                assert(cell_is(self.cells@[old_cells.len() + q], address@, cells@[q]));
            }
            assert(keys_unique(self.cells@)) by {
                assert forall|i: int, j: int| 0 <= i < j < self.cells@.len() implies !(#[trigger] self.cells@[i].tile@
                    == #[trigger] self.cells@[j].tile@ && self.cells@[i].xy == self.cells@[j].xy) by {
                    if j < n0 {
                        assert(self.cells@[i] == old_cells[i] && self.cells@[j] == old_cells[j]);
                    } else if i < n0 {
                        let q = j - n0;
                        assert(cell_is(self.cells@[n0 + q], address@, cells@[q]));
                        assert(self.cells@[i] == old_cells[i]);
                        if self.cells@[i].tile@ == self.cells@[j].tile@ && self.cells@[i].xy == self.cells@[j].xy {
                            lemma_occupant_at(old_cells, i);
                            assert(cells@.contains(cells@[q]));
                        }
                    } else {
                        let qi = i - n0;
                        let qj = j - n0;
                        assert(cell_is(self.cells@[n0 + qi], address@, cells@[qi]));
                        assert(cell_is(self.cells@[n0 + qj], address@, cells@[qj]));
                    }
                }
            }
            assert forall|i: int| 0 <= i < self.cells@.len() implies ((#[trigger] info_of(self.entities@, self.cells@[i].entity)) matches Some(
                inf,
            ) && inf.0 == self.cells@[i].tile@) by {
                if i < n0 {
                    assert(self.cells@[i] == old_cells[i]);
                    let ent = old_cells[i].entity;
                    assert(info_of(old_entities, old_cells[i].entity) is Some);
                    if ent == e {
                        old(self).lemma_info_absent(e);
                    }
                } else {
                    let q = i - n0;
                    assert(cell_is(self.cells@[n0 + q], address@, cells@[q]));
                    assert(self.cells@[n0 + q].entity == e);
                }
            }
            assert forall|i: int| 0 <= i < self.entities@.len() implies (#[trigger] self.entities@[i]).id.0 < self.next_id by {
                if i < n_e {
                    assert(self.entities@[i] == old_entities[i]);
                }
            }
            assert(self.wf());
            assert forall|t: Seq<u8>, c: (i32, i32)| self.occupant(t, c) == if t == address@ && in_footprint(grid_xy, fp, c) {
                Some(e)
            } else {
                old(self).occupant(t, c)
            } by {
                if t == address@ && in_footprint(grid_xy, fp, c) {
                    assert(cells@.contains(c));
                    let q = choose|q: int| 0 <= q < cells@.len() && cells@[q] == c;
                    assert(cell_is(self.cells@[n0 + q], address@, cells@[q]));
                    lemma_occupant_at(self.cells@, n0 + q);
                } else {
                    if exists|i: int| 0 <= i < old_cells.len() && #[trigger] cell_is(old_cells[i], t, c) {
                        let i = choose|i: int| 0 <= i < old_cells.len() && #[trigger] cell_is(old_cells[i], t, c);
                        lemma_occupant_at(old_cells, i);
                        assert(self.cells@[i] == old_cells[i]);
                        lemma_occupant_at(self.cells@, i);
                    } else {
                        assert forall|i: int| 0 <= i < self.cells@.len() implies !cell_is(#[trigger] self.cells@[i], t, c) by {
                            if i < n0 {
                                assert(self.cells@[i] == old_cells[i]);
                            } else {
                                let q = i - n0;
                                assert(cell_is(self.cells@[n0 + q], address@, cells@[q]));
                                if cell_is(self.cells@[i], t, c) {
                                    assert(cells@.contains(c));
                                }
                            }
                        }
                        lemma_occupant_absent(self.cells@, t, c);
                    }
                }
            }
        }
        Some(e)
    }

    /// Remove the structure occupying cell `grid_xy` of the tile, freeing
    /// every cell it occupies. Returns what was built there, or `None` if the
    /// cell is empty.
    pub fn remove(&mut self, address: &[u8], grid_xy: (i32, i32)) -> (r: Option<Structure>)
        requires
            old(self).wf(),
        ensures
            final(self).wf(),
            final(self).ids_left() == old(self).ids_left(),
            old(self).occupant(address@, grid_xy) is None ==> r is None
                && (forall|t: Seq<u8>, c: (i32, i32)| final(self).occupant(t, c) == old(self).occupant(t, c))
                && (forall|e: EntityId| final(self).info(e) == old(self).info(e)),
            old(self).occupant(address@, grid_xy) matches Some(e) ==> {
                &&& old(self).info(e) is Some
                &&& r == Some((Structure { item: old(self).info(e).unwrap().4, direction: old(self).info(e).unwrap().3 }))
                &&& is_removal(*final(self), *old(self), e)
            },
    {
        let idx = match self.find_cell(address, grid_xy) {
            Some(i) => i,
            None => return None,
        };
        let e = self.cells[idx].entity;
        assert(info_of(self.entities@, self.cells@[idx as int].entity) is Some);
        let ei = match self.find_entity(e) {
            Some(i) => i,
            None => return None,
        };
        let ghost old_entities = self.entities@;
        let ghost old_cells = self.cells@;
        let rec = self.entities.remove(ei);
        let result = Structure { item: rec.item, direction: rec.direction };
        proof {
            assert(ids_unique(self.entities@)) by {
                assert forall|i: int, j: int| 0 <= i < j < self.entities@.len() implies #[trigger] self.entities@[i].id
                    != #[trigger] self.entities@[j].id by {
                    let oi = if i < ei { i } else { i + 1 };
                    let oj = if j < ei { j } else { j + 1 };
                    assert(self.entities@[i] == old_entities[oi]);
                    assert(self.entities@[j] == old_entities[oj]);
                }
            }
            assert forall|e2: EntityId| e2 != e implies info_of(self.entities@, e2) == info_of(old_entities, e2) by {
                if exists|i: int| 0 <= i < old_entities.len() && (#[trigger] old_entities[i]).id == e2 {
                    let i = choose|i: int| 0 <= i < old_entities.len() && (#[trigger] old_entities[i]).id == e2;
                    lemma_info_at(old_entities, i);
                    let ni = if i < ei { i } else { i - 1 };
                    assert(i != ei);
                    assert(self.entities@[ni] == old_entities[i]);
                    lemma_info_at(self.entities@, ni);
                } else {
                    assert forall|i: int| 0 <= i < self.entities@.len() implies (#[trigger] self.entities@[i]).id != e2 by {
                        let oi = if i < ei { i } else { i + 1 };
                        assert(self.entities@[i] == old_entities[oi]);
                    }
                }
            }
            assert forall|i: int| 0 <= i < self.entities@.len() implies (#[trigger] self.entities@[i]).id != e by {
                let oi = if i < ei { i } else { i + 1 };
                assert(self.entities@[i] == old_entities[oi]);
                assert(oi != ei);
            }
        }
        let ghost new_entities = self.entities@;
        let mut old_vec: Vec<CellEntry> = Vec::new();
        std::mem::swap(&mut old_vec, &mut self.cells);
        assert(old_vec@ == old_cells);
        let ghost mut idx_map: Seq<int> = Seq::empty();
        let mut k: usize = 0;
        while k < old_vec.len()
            invariant
                old_vec@ == old_cells,
                keys_unique(old_cells),
                k <= old_cells.len(),
                self.entities@ == new_entities,
                self.next_id == old(self).next_id,
                idx_map.len() == self.cells@.len(),
                forall|q: int| 0 <= q < idx_map.len() ==> 0 <= #[trigger] idx_map[q] < k,
                forall|q1: int, q2: int| 0 <= q1 < q2 < idx_map.len() ==> #[trigger] idx_map[q1] < #[trigger] idx_map[q2],
                forall|q: int| 0 <= q < idx_map.len() ==> cell_is(#[trigger] self.cells@[q], old_cells[idx_map[q]].tile@, old_cells[idx_map[q]].xy)
                    && self.cells@[q].entity == old_cells[idx_map[q]].entity && self.cells@[q].entity != e,
                forall|i: int| 0 <= i < k && (#[trigger] old_cells[i]).entity != e ==> exists|q: int| 0 <= q < idx_map.len() && idx_map[q] == i,
            decreases old_cells.len() - k,
        {
            if old_vec[k].entity != e {
                let entry = CellEntry {
                    tile: crate::hyperbolic::words::copy_word(old_vec[k].tile.as_slice()),
                    xy: old_vec[k].xy,
                    entity: old_vec[k].entity,
                };
                let ghost prev = self.cells@;
                self.cells.push(entry);
                proof {
                    assert(self.cells@ == prev.push(self.cells@[prev.len() as int]));
                    let old_map = idx_map;
                    idx_map = idx_map.push(k as int);
                    assert forall|i: int| 0 <= i < k + 1 && (#[trigger] old_cells[i]).entity != e implies exists|q: int|
                        0 <= q < idx_map.len() && idx_map[q] == i by {
                        if i < k {
                            let q = choose|q: int| 0 <= q < old_map.len() && old_map[q] == i;
                            assert(idx_map[q] == i);
                        } else {
                            assert(idx_map[old_map.len() as int] == i);
                        }
                    }
                    assert forall|q: int| 0 <= q < idx_map.len() implies cell_is(#[trigger] self.cells@[q], old_cells[idx_map[q]].tile@, old_cells[idx_map[q]].xy)
                        && self.cells@[q].entity == old_cells[idx_map[q]].entity && self.cells@[q].entity != e by {
                        if q < old_map.len() {
                            assert(self.cells@[q] == prev[q]);
                            assert(idx_map[q] == old_map[q]);
                        }
                    }
                }
            } else {
                proof {
                    assert forall|i: int| 0 <= i < k + 1 && (#[trigger] old_cells[i]).entity != e implies exists|q: int|
                        0 <= q < idx_map.len() && idx_map[q] == i by {
                        if i < k {
                        }
                    }
                }
            }
            k = k + 1;
        }
        proof {
            assert(keys_unique(self.cells@)) by {
                assert forall|i: int, j: int| 0 <= i < j < self.cells@.len() implies !(#[trigger] self.cells@[i].tile@
                    == #[trigger] self.cells@[j].tile@ && self.cells@[i].xy == self.cells@[j].xy) by {
                    assert(cell_is(self.cells@[i], old_cells[idx_map[i]].tile@, old_cells[idx_map[i]].xy));
                    assert(cell_is(self.cells@[j], old_cells[idx_map[j]].tile@, old_cells[idx_map[j]].xy));
                    assert(idx_map[i] < idx_map[j]);
                }
            }
            assert forall|i: int| 0 <= i < self.cells@.len() implies ((#[trigger] info_of(self.entities@, self.cells@[i].entity)) matches Some(
                inf,
            ) && inf.0 == self.cells@[i].tile@) by {
                assert(cell_is(self.cells@[i], old_cells[idx_map[i]].tile@, old_cells[idx_map[i]].xy));
                let oi = idx_map[i];
                assert(info_of(old_entities, old_cells[oi].entity) is Some);
            }
            assert forall|i: int| 0 <= i < self.entities@.len() implies (#[trigger] self.entities@[i]).id.0 < self.next_id by {
                let oi = if i < ei { i } else { i + 1 };
                assert(self.entities@[i] == old_entities[oi]);
            }
            assert(self.wf());
            assert(info_of(self.entities@, e) is None);
            lemma_info_at(old_entities, ei as int);
            assert forall|t: Seq<u8>, c: (i32, i32)| self.occupant(t, c) == if old(self).occupant(t, c) == Some(e) {
                None
            } else {
                old(self).occupant(t, c)
            } by {
                if exists|i: int| 0 <= i < old_cells.len() && #[trigger] cell_is(old_cells[i], t, c) {
                    let i = choose|i: int| 0 <= i < old_cells.len() && #[trigger] cell_is(old_cells[i], t, c);
                    lemma_occupant_at(old_cells, i);
                    if old_cells[i].entity != e {
                        let q = choose|q: int| 0 <= q < idx_map.len() && idx_map[q] == i;
                        assert(cell_is(self.cells@[q], old_cells[idx_map[q]].tile@, old_cells[idx_map[q]].xy));
                        lemma_occupant_at(self.cells@, q);
                    } else {
                        assert forall|q: int| 0 <= q < self.cells@.len() implies !cell_is(#[trigger] self.cells@[q], t, c) by {
                            assert(cell_is(self.cells@[q], old_cells[idx_map[q]].tile@, old_cells[idx_map[q]].xy));
                            let oi = idx_map[q];
                            if cell_is(self.cells@[q], t, c) {
                                if oi < i {
                                    assert(!(old_cells[oi].tile@ == old_cells[i].tile@ && old_cells[oi].xy == old_cells[i].xy));
                                } else if i < oi {
                                    assert(!(old_cells[i].tile@ == old_cells[oi].tile@ && old_cells[i].xy == old_cells[oi].xy));
                                }
                            }
                        }
                        lemma_occupant_absent(self.cells@, t, c);
                    }
                } else {
                    assert forall|q: int| 0 <= q < self.cells@.len() implies !cell_is(#[trigger] self.cells@[q], t, c) by {
                        assert(cell_is(self.cells@[q], old_cells[idx_map[q]].tile@, old_cells[idx_map[q]].xy));
                        let oi = idx_map[q];
                        assert(!cell_is(old_cells[oi], t, c));
                    }
                    lemma_occupant_absent(self.cells@, t, c);
                }
            }
        }
        Some(result)
    }

    /// Turn structure `entity` a quarter clockwise. Footprints are square, so
    /// the occupied cells stay the same. Returns the new facing, or `None` if
    /// the structure is not placed.
    pub fn rotate_cw(&mut self, entity: EntityId) -> (r: Option<Direction>)
        requires
            old(self).wf(),
        ensures
            final(self).wf(),
            final(self).ids_left() == old(self).ids_left(),
            forall|t: Seq<u8>, c: (i32, i32)| final(self).occupant(t, c) == old(self).occupant(t, c),
            forall|e2: EntityId| e2 != entity ==> final(self).info(e2) == old(self).info(e2),
            old(self).info(entity) is None ==> r is None && final(self).info(entity) is None,
            old(self).info(entity) matches Some(inf) ==> {
                let d = dir_of(dir_index(inf.3) + 1);
                &&& r == Some(d)
                &&& final(self).info(entity) == Some((inf.0, inf.1, inf.2, d, inf.4))
            },
    {
        let i = match self.find_entity(entity) {
            Some(i) => i,
            None => return None,
        };
        let ghost old_entities = self.entities@;
        let d = self.entities[i].direction.rotate_cw();
        self.entities[i].direction = d;
        proof {
            assert forall|a: int, b: int| 0 <= a < b < self.entities@.len() implies #[trigger] self.entities@[a].id
                != #[trigger] self.entities@[b].id by {
                assert(self.entities@[a].id == old_entities[a].id);
                assert(self.entities@[b].id == old_entities[b].id);
            }
            assert forall|e2: EntityId| e2 != entity implies info_of(self.entities@, e2) == info_of(old_entities, e2) by {
                if exists|k: int| 0 <= k < old_entities.len() && (#[trigger] old_entities[k]).id == e2 {
                    let k = choose|k: int| 0 <= k < old_entities.len() && (#[trigger] old_entities[k]).id == e2;
                    lemma_info_at(old_entities, k);
                    assert(self.entities@[k] == old_entities[k]);
                    lemma_info_at(self.entities@, k);
                } else {
                    assert forall|k: int| 0 <= k < self.entities@.len() implies (#[trigger] self.entities@[k]).id != e2 by {
                        assert(self.entities@[k].id == old_entities[k].id);
                    }
                }
            }
            lemma_info_at(self.entities@, i as int);
            assert forall|k: int| 0 <= k < self.cells@.len() implies ((#[trigger] info_of(self.entities@, self.cells@[k].entity)) matches Some(
                inf,
            ) && inf.0 == self.cells@[k].tile@) by {
                assert(info_of(old_entities, self.cells@[k].entity) is Some);
            }
            assert forall|k: int| 0 <= k < self.entities@.len() implies (#[trigger] self.entities@[k]).id.0 < self.next_id by {
                assert(self.entities@[k].id == old_entities[k].id);
            }
        }
        Some(d)
    }
}

/// `after` is `before` with structure `e`, built from `item`, placed at
/// `xy` of tile `tile` facing `direction`.
pub open spec fn is_placement(
    after: WorldState,
    before: WorldState,
    tile: Seq<u8>,
    xy: (i32, i32),
    item: ItemId,
    direction: Direction,
    e: EntityId,
) -> bool {
    &&& before.info(e) is None
    &&& after.info(e) == Some((tile, xy, kind_of_item(item)->0, direction, item))
    &&& forall|e2: EntityId| e2 != e ==> after.info(e2) == before.info(e2)
    &&& forall|t: Seq<u8>, c: (i32, i32)| after.occupant(t, c) == if t == tile && in_footprint(
        xy,
        placed_footprint(item, direction),
        c,
    ) {
        Some(e)
    } else {
        before.occupant(t, c)
    }
}

/// `after` is `before` with structure `e` and all its cells gone.
pub open spec fn is_removal(after: WorldState, before: WorldState, e: EntityId) -> bool {
    &&& after.info(e) is None
    &&& forall|e2: EntityId| e2 != e ==> after.info(e2) == before.info(e2)
    &&& forall|t: Seq<u8>, c: (i32, i32)| after.occupant(t, c) == if before.occupant(t, c) == Some(e) {
        None
    } else {
        before.occupant(t, c)
    }
}

/// Removing a structure right after placing it gives back the world as it
/// was: the same occupied cells and the same placed structures.
pub proof fn lemma_place_then_remove(
    w0: WorldState,
    w1: WorldState,
    w2: WorldState,
    tile: Seq<u8>,
    xy: (i32, i32),
    item: ItemId,
    direction: Direction,
    e: EntityId,
)
    requires
        is_placement(w1, w0, tile, xy, item, direction, e),
        is_removal(w2, w1, e),
        w0.wf(),
        forall|c: (i32, i32)| in_footprint(xy, placed_footprint(item, direction), c) ==> w0.occupant(tile, c) is None,
    ensures
        forall|t: Seq<u8>, c: (i32, i32)| w2.occupant(t, c) == w0.occupant(t, c),
        forall|e2: EntityId| w2.info(e2) == w0.info(e2),
{
    assert forall|t: Seq<u8>, c: (i32, i32)| w2.occupant(t, c) == w0.occupant(t, c) by {
        lemma_occupant_is_placed(w0, t, c);
        if t == tile && in_footprint(xy, placed_footprint(item, direction), c) {
            assert(w1.occupant(t, c) == Some(e));
        } else {
            assert(w1.occupant(t, c) == w0.occupant(t, c));
        }
    }
}

/// In a well-formed world every occupied cell belongs to a placed structure.
pub proof fn lemma_occupant_is_placed(w: WorldState, t: Seq<u8>, c: (i32, i32))
    requires
        w.wf(),
    ensures
        w.occupant(t, c) matches Some(e) ==> (w.info(e) matches Some(inf) && inf.0 == t),
{
    if w.occupant(t, c) is Some {
        let i = choose|i: int| 0 <= i < w.cells@.len() && #[trigger] cell_is(w.cells@[i], t, c);
        assert(info_of(w.entities@, w.cells@[i].entity) is Some);
    }
}

} // verus!
