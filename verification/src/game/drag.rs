//! Dragging a run of belts along one grid axis: which free-axis coordinates
//! each cursor move fills, a few cells at a time, and how a run carries on
//! across a tile edge.

use vstd::prelude::*;

verus! {

/// The most cells one cursor move may add to a run.
pub const MAX_DRAG_STEP: i32 = 4;

/// The last grid line of a tile on either side of its centre.
pub const TILE_EDGE: i32 = 32;

/// `x` moved into `[lo, hi]`.
pub open spec fn clamp_int(x: int, lo: int, hi: int) -> int {
    if x < lo {
        lo
    } else if x > hi {
        hi
    } else {
        x
    }
}

/// The coordinates after `from` up to and including `to`, one step at a time.
pub open spec fn run_after(from: int, to: int) -> Seq<int> {
    if to >= from {
        Seq::new((to - from) as nat, |i: int| from + 1 + i)
    } else {
        Seq::new((from - to) as nat, |i: int| from - 1 - i)
    }
}

/// Where the run heads on its tile for a cursor at free coordinate `v`:
/// the cursor itself within the tile, else the edge it went past.
pub open spec fn drag_target(v: int) -> int {
    clamp_int(v, -TILE_EDGE as int, TILE_EDGE as int)
}

/// The coordinates of `cells`, as integers.
pub open spec fn cells_view(cells: Seq<i32>) -> Seq<int> {
    cells.map_values(|c: i32| c as int)
}

/// Fill the cells after `from` up to and including `to`.
fn fill_run(from: i32, to: i32) -> (r: Vec<i32>)
    requires
        from - MAX_DRAG_STEP <= to <= from + MAX_DRAG_STEP,
        i32::MIN + MAX_DRAG_STEP <= from <= i32::MAX - MAX_DRAG_STEP,
    ensures
        cells_view(r@) == run_after(from as int, to as int),
{
    let mut cells: Vec<i32> = Vec::new();
    let step: i32 = if to >= from { 1 } else { -1 };
    let mut current = from;
    while current != to
        invariant
            from - MAX_DRAG_STEP <= to <= from + MAX_DRAG_STEP,
            i32::MIN + MAX_DRAG_STEP <= from <= i32::MAX - MAX_DRAG_STEP,
            step == (if to >= from { 1i32 } else { -1i32 }),
            to >= from ==> from <= current <= to,
            to < from ==> to <= current <= from,
            cells@.len() == (if to >= from { current - from } else { from - current }),
            forall|i: int| 0 <= i < cells@.len() ==> #[trigger] cells@[i] == from + step * (1 + i),
        decreases (if to >= from { to - current } else { current - to }),
    {
        current = current + step;
        cells.push(current);
    }
    assert(cells_view(cells@) =~= run_after(from as int, to as int));
    cells
}

/// One cursor move while dragging a run on its tile, from the last filled
/// coordinate `last_free` toward the cursor at `virtual_free` (which may lie
/// past the tile's edge): the cells to fill, in order, at most
/// `MAX_DRAG_STEP` of them; the new last filled coordinate; and the edge,
/// when the run has just reached the edge the cursor went past.
pub fn drag_run(last_free: i32, virtual_free: i32) -> (r: (Vec<i32>, i32, Option<i32>))
    requires
        -TILE_EDGE <= last_free <= TILE_EDGE,
    ensures
        r.1 == clamp_int(drag_target(virtual_free as int), last_free - MAX_DRAG_STEP, last_free + MAX_DRAG_STEP),
        cells_view(r.0@) == run_after(last_free as int, r.1 as int),
        r.2 == (if (virtual_free > TILE_EDGE || virtual_free < -TILE_EDGE) && r.1 == drag_target(virtual_free as int) {
            Some(drag_target(virtual_free as int) as i32)
        } else {
            None::<i32>
        }),
{
    let target = if virtual_free > TILE_EDGE {
        TILE_EDGE
    } else if virtual_free < -TILE_EDGE {
        -TILE_EDGE
    } else {
        virtual_free
    };
    let to = if target < last_free - MAX_DRAG_STEP {
        last_free - MAX_DRAG_STEP
    } else if target > last_free + MAX_DRAG_STEP {
        last_free + MAX_DRAG_STEP
    } else {
        target
    };
    let cells = fill_run(last_free, to);
    let edge = if (virtual_free > TILE_EDGE || virtual_free < -TILE_EDGE) && to == target {
        Some(target)
    } else {
        None
    };
    (cells, to, edge)
}

/// Carry a run across edge `edge` of its tile onto the neighbouring tile,
/// with the cursor at free coordinate `new_free` there. The two tiles share
/// the edge's grid line, so the run starts one cell inside the new tile and
/// fills toward the cursor, at most `MAX_DRAG_STEP` cells: the cells to fill,
/// in order, and the new last filled coordinate.
pub fn drag_entry(edge: i32, new_free: i32) -> (r: (Vec<i32>, i32))
    requires
        edge == TILE_EDGE || edge == -TILE_EDGE,
    ensures
        ({
            let inward: int = if edge > 0 { 1 } else { -1 };
            let start: int = -edge + inward;
            let end: int = start + (MAX_DRAG_STEP - 1) * inward;
            &&& r.1 == clamp_int(
                new_free as int,
                if start < end { start } else { end },
                if start < end { end } else { start },
            )
            &&& cells_view(r.0@) == run_after(start - inward, r.1 as int)
        }),
{
    let inward: i32 = if edge > 0 { 1 } else { -1 };
    let start = -edge + inward;
    let end = start + (MAX_DRAG_STEP - 1) * inward;
    let lo = if start < end { start } else { end };
    let hi = if start < end { end } else { start };
    let to = if new_free < lo {
        lo
    } else if new_free > hi {
        hi
    } else {
        new_free
    };
    let cells = fill_run(start - inward, to);
    (cells, to)
}

} // verus!
