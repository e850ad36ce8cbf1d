//! Transport lines: items riding belts toward an output end, kept apart by a
//! minimum gap, in fixed-point positions.

use vstd::prelude::*;
use crate::game::items::ItemId;
use crate::sim::machine::MachinePool;
use crate::sim::machine::{ItemStack, pool_items, lemma_row_items_update, lemma_rows_items_row_set};
use crate::sim::machine::{MachineState, index_in};
use crate::game::world::{
    Direction, EntityId, StructureKind, WorldState, dir_index, dir_of, grid_offset,
};

verus! {

/// Fixed-point scale: 1 grid square = 256 units.
pub const FP_SCALE: u32 = 256;

/// Default belt speed in fixed-point units per tick.
/// At 60 UPS: 4/256 × 60 ≈ 0.94 grid squares per second.
pub const DEFAULT_BELT_SPEED: u16 = 4;

/// Minimum gap between adjacent items (fixed-point units).
/// 64 = 1/4 grid square → max 4 items per grid square.
pub const MIN_ITEM_GAP: u32 = 64;

/// Identifies a transport line in the belt network.
#[derive(Clone, Copy, Debug, PartialEq, Eq, Hash, Structural)]
pub struct TransportLineId(pub u64);

/// What's connected at one end of a transport line.
#[derive(Clone, Copy, Debug, PartialEq, Eq, Structural)]
pub enum BeltEnd {
    /// Nothing connected — items stop here.
    Open,
    /// Connected to another transport line.
    Belt(TransportLineId),
    /// Belt output feeds into a machine's input port.
    /// `entity` is the machine's EntityId, `slot` is the input slot index.
    MachineInput { entity: EntityId, slot: usize },
    /// Machine output port feeds into belt input.
    /// `entity` is the machine's EntityId, `slot` is the output slot index.
    MachineOutput { entity: EntityId, slot: usize },
    /// Belt output side-injects onto a perpendicular belt.
    /// Items insert at the target entity's segment center rather than the line's input end.
    SideInject { entity: EntityId },
    /// Belt endpoint connected to a splitter.
    /// When on output_end: belt feeds items into the splitter (splitter input).
    /// When on input_end: splitter feeds items into the belt (splitter output).
    Splitter { entity: EntityId },
    /// Belt output feeds into a storage building's input port.
    StorageInput { entity: EntityId, slot: usize },
    /// Storage output port feeds into belt input.
    StorageOutput { entity: EntityId, slot: usize },
}

/// An item riding on a transport line.
#[derive(Clone, Copy, Debug)]
pub struct BeltItem {
    pub item: ItemId,
    /// Fixed-point distance from the output end.
    /// 0 = at the output, length = at the input.
    pub pos: u32,
}

/// `a - b`, or 0 when `b > a`.
pub open spec fn sat_sub(a: u32, b: u32) -> u32 {
    if b <= a {
        (a - b) as u32
    } else {
        0
    }
}

/// `a + b`, or `u32::MAX` when the sum does not fit.
pub open spec fn sat_add(a: u32, b: u32) -> u32 {
    if a + b <= u32::MAX {
        (a + b) as u32
    } else {
        u32::MAX
    }
}

/// Positions do not decrease from the output end to the input end.
pub open spec fn items_sorted(s: Seq<BeltItem>) -> bool {
    forall|i: int, j: int| 0 <= i <= j < s.len() ==> #[trigger] s[i].pos <= #[trigger] s[j].pos
}

/// Neighbouring items are at least `MIN_ITEM_GAP` apart.
pub open spec fn items_spaced(s: Seq<BeltItem>) -> bool {
    forall|i: int| 1 <= i < s.len() ==> #[trigger] s[i].pos >= s[i - 1].pos + MIN_ITEM_GAP
}

/// How many items sit strictly closer to the output than `offset`: the index at
/// which an item at `offset` goes in a sorted line.
pub open spec fn count_below(s: Seq<BeltItem>, offset: u32) -> nat
    decreases s.len(),
{
    if s.len() == 0 {
        0
    } else {
        count_below(s.drop_last(), offset) + if s.last().pos < offset {
            1nat
        } else {
            0nat
        }
    }
}

/// `k` splits `s` into the items before `offset` and those at or after it.
pub open spec fn is_split(s: Seq<BeltItem>, offset: u32, k: int) -> bool {
    &&& 0 <= k <= s.len()
    &&& forall|i: int| 0 <= i < k ==> (#[trigger] s[i]).pos < offset
    &&& forall|i: int| k <= i < s.len() ==> (#[trigger] s[i]).pos >= offset
}

/// In a sorted line the split at `offset` is at `count_below`.
pub proof fn lemma_split_at_count(s: Seq<BeltItem>, offset: u32)
    requires
        items_sorted(s),
    ensures
        is_split(s, offset, count_below(s, offset) as int),
    decreases s.len(),
{
    if s.len() > 0 {
        let p = s.drop_last();
        assert(items_sorted(p));
        lemma_split_at_count(p, offset);
        let k = count_below(p, offset) as int;
        if s.last().pos < offset {
            assert forall|i: int| 0 <= i < s.len() implies (#[trigger] s[i]).pos < offset by {
                assert(s[i].pos <= s[s.len() - 1].pos);
            }
            assert(k == p.len()) by {
                if k < p.len() {
                    assert(p[k].pos >= offset);
                    assert(s[k].pos <= s[s.len() - 1].pos);
                }
            }
        } else {
            assert forall|i: int| 0 <= i < k implies (#[trigger] s[i]).pos < offset by {
                assert(s[i] == p[i]);
            }
            assert forall|i: int| k <= i < s.len() implies (#[trigger] s[i]).pos >= offset by {
                if i < s.len() - 1 {
                    assert(s[i] == p[i]);
                }
            }
        }
    }
}

/// A split index is unique.
proof fn lemma_split_unique(s: Seq<BeltItem>, offset: u32, k1: int, k2: int)
    requires
        is_split(s, offset, k1),
        is_split(s, offset, k2),
    ensures
        k1 == k2,
{
    if k1 < k2 {
        assert(s[k1].pos >= offset);
    } else if k2 < k1 {
        assert(s[k2].pos >= offset);
    }
}

/// There is room for an item at `offset` when the items on either side of
/// the split are at least `MIN_ITEM_GAP` away.
pub open spec fn gap_ok(s: Seq<BeltItem>, offset: u32, k: int) -> bool {
    &&& (k > 0 ==> sat_sub(offset, s[k - 1].pos) >= MIN_ITEM_GAP)
    &&& (k < s.len() ==> sat_sub(s[k].pos, offset) >= MIN_ITEM_GAP)
}

/// Position of item `i` after one advance step at `speed`: it moves toward
/// the output by `speed`, but not closer than `MIN_ITEM_GAP` behind the
/// already moved item in front of it.
pub open spec fn advanced_pos(s: Seq<BeltItem>, speed: u32, i: nat) -> u32
    decreases i,
{
    let moved = sat_sub(s[i as int].pos, speed);
    let floor = if i == 0 {
        0u32
    } else {
        sat_add(advanced_pos(s, speed, (i - 1) as nat), MIN_ITEM_GAP)
    };
    if moved >= floor {
        moved
    } else {
        floor
    }
}

/// The stable merge of two item lists by position: on equal positions the
/// items of `a` come first. For sorted `a` and `b` it is what a stable sort of
/// `a + b` by position gives.
pub open spec fn merged(a: Seq<BeltItem>, b: Seq<BeltItem>) -> Seq<BeltItem>
    decreases a.len() + b.len(),
{
    if a.len() == 0 {
        b
    } else if b.len() == 0 {
        a
    } else if a[0].pos <= b[0].pos {
        seq![a[0]] + merged(a.drop_first(), b)
    } else {
        seq![b[0]] + merged(a, b.drop_first())
    }
}

/// Merging sorted lists gives a sorted list of their items, none of them
/// below a common lower bound of the inputs.
pub proof fn lemma_merged_sorted(a: Seq<BeltItem>, b: Seq<BeltItem>, lo: u32)
    requires
        items_sorted(a),
        items_sorted(b),
        forall|k: int| 0 <= k < a.len() ==> (#[trigger] a[k]).pos >= lo,
        forall|k: int| 0 <= k < b.len() ==> (#[trigger] b[k]).pos >= lo,
    ensures
        items_sorted(merged(a, b)),
        merged(a, b).len() == a.len() + b.len(),
        forall|k: int| 0 <= k < merged(a, b).len() ==> (#[trigger] merged(a, b)[k]).pos >= lo,
    decreases a.len() + b.len(),
{
    if a.len() == 0 || b.len() == 0 {
    } else if a[0].pos <= b[0].pos {
        let a1 = a.drop_first();
        assert(items_sorted(a1)) by {
            assert forall|i: int, j: int| 0 <= i <= j < a1.len() implies #[trigger] a1[i].pos <= #[trigger] a1[j].pos by {
                assert(a[i + 1].pos <= a[j + 1].pos);
            }
        }
        assert forall|k: int| 0 <= k < a1.len() implies (#[trigger] a1[k]).pos >= a[0].pos by {
            assert(a[0].pos <= a[k + 1].pos);
        }
        assert forall|k: int| 0 <= k < b.len() implies (#[trigger] b[k]).pos >= a[0].pos by {
            assert(b[0].pos <= b[k].pos);
        }
        lemma_merged_sorted(a1, b, a[0].pos);
        lemma_merged_sorted(a1, b, lo);
        let m = merged(a, b);
        let r = merged(a1, b);
        assert(m == seq![a[0]] + r);
        assert forall|i: int, j: int| 0 <= i <= j < m.len() implies #[trigger] m[i].pos <= #[trigger] m[j].pos by {
            if i > 0 {
                assert(m[i] == r[i - 1] && m[j] == r[j - 1]);
            } else if j > 0 {
                assert(m[j] == r[j - 1]);
            }
        }
        assert forall|k: int| 0 <= k < m.len() implies (#[trigger] m[k]).pos >= lo by {
            if k > 0 {
                assert(m[k] == r[k - 1]);
            }
        }
    } else {
        let b1 = b.drop_first();
        assert(items_sorted(b1)) by {
            assert forall|i: int, j: int| 0 <= i <= j < b1.len() implies #[trigger] b1[i].pos <= #[trigger] b1[j].pos by {
                assert(b[i + 1].pos <= b[j + 1].pos);
            }
        }
        assert forall|k: int| 0 <= k < b1.len() implies (#[trigger] b1[k]).pos >= b[0].pos by {
            assert(b[0].pos <= b[k + 1].pos);
        }
        assert forall|k: int| 0 <= k < a.len() implies (#[trigger] a[k]).pos >= b[0].pos by {
            assert(a[0].pos <= a[k].pos);
        }
        lemma_merged_sorted(a, b1, b[0].pos);
        lemma_merged_sorted(a, b1, lo);
        let m = merged(a, b);
        let r = merged(a, b1);
        assert(m == seq![b[0]] + r);
        assert forall|i: int, j: int| 0 <= i <= j < m.len() implies #[trigger] m[i].pos <= #[trigger] m[j].pos by {
            if i > 0 {
                assert(m[i] == r[i - 1] && m[j] == r[j - 1]);
            } else if j > 0 {
                assert(m[j] == r[j - 1]);
            }
        }
        assert forall|k: int| 0 <= k < m.len() implies (#[trigger] m[k]).pos >= lo by {
            if k > 0 {
                assert(m[k] == r[k - 1]);
            }
        }
    }
}

/// Merge two item lists by position, stably.
fn merge_items(a: &Vec<BeltItem>, b: &Vec<BeltItem>) -> (r: Vec<BeltItem>)
    ensures
        r@ == merged(a@, b@),
{
    let mut out: Vec<BeltItem> = Vec::new();
    let mut i: usize = 0;
    let mut j: usize = 0;
    assert(a@.subrange(0, a@.len() as int) =~= a@);
    assert(b@.subrange(0, b@.len() as int) =~= b@);
    assert(out@ + merged(a@, b@) =~= merged(a@, b@));
    while i < a.len() || j < b.len()
        invariant
            i <= a@.len(),
            j <= b@.len(),
            out@ + merged(a@.subrange(i as int, a@.len() as int), b@.subrange(j as int, b@.len() as int)) == merged(a@, b@),
        decreases a@.len() - i + b@.len() - j,
    {
        let ghost ra = a@.subrange(i as int, a@.len() as int);
        let ghost rb = b@.subrange(j as int, b@.len() as int);
        if j >= b.len() || (i < a.len() && a[i].pos <= b[j].pos) {
            proof {
                assert(ra.drop_first() =~= a@.subrange(i as int + 1, a@.len() as int));
                if rb.len() == 0 {
                    assert(merged(ra, rb) == ra);
                    assert(merged(ra.drop_first(), rb) == ra.drop_first());
                    assert(ra =~= seq![ra[0]] + ra.drop_first());
                }
                assert(merged(ra, rb) == seq![a@[i as int]] + merged(ra.drop_first(), rb));
                assert(out@.push(a@[i as int]) + merged(ra.drop_first(), rb) =~= out@ + merged(ra, rb));
            }
            out.push(a[i]);
            i = i + 1;
        } else {
            proof {
                assert(rb.drop_first() =~= b@.subrange(j as int + 1, b@.len() as int));
                if ra.len() == 0 {
                    assert(merged(ra, rb) == rb);
                    assert(merged(ra, rb.drop_first()) == rb.drop_first());
                    assert(rb =~= seq![rb[0]] + rb.drop_first());
                }
                assert(merged(ra, rb) == seq![b@[j as int]] + merged(ra, rb.drop_first()));
                assert(out@.push(b@[j as int]) + merged(ra, rb.drop_first()) =~= out@ + merged(ra, rb));
            }
            out.push(b[j]);
            j = j + 1;
        }
    }
    proof {
        let ra = a@.subrange(i as int, a@.len() as int);
        let rb = b@.subrange(j as int, b@.len() as int);
        assert(ra.len() == 0 && rb.len() == 0);
        assert(out@ + merged(ra, rb) =~= out@);
    }
    out
}

/// A single transport line — possibly spanning multiple consecutive belt segments.
/// Items flow from input_end (pos = length) toward output_end (pos = 0).
pub struct TransportLine {
    /// Items on the line, ordered front (output) to back (input).
    pub items: Vec<BeltItem>,
    /// Movement speed in fixed-point units per tick.
    pub speed: u16,
    /// Total length in fixed-point units.
    pub length: u32,
    /// What feeds items into this line.
    pub input_end: BeltEnd,
    /// Where items exit this line.
    pub output_end: BeltEnd,
}

/// There is room at the input end of a line with these items and length.
pub open spec fn input_has_room(items: Seq<BeltItem>, length: u32) -> bool {
    items.len() == 0 || sat_sub(length, items.last().pos) >= MIN_ITEM_GAP
}

fn find_split(items: &Vec<BeltItem>, offset: u32) -> (k: usize)
    requires
        items_sorted(items@),
    ensures
        k == count_below(items@, offset),
        is_split(items@, offset, k as int),
{
    proof {
        lemma_split_at_count(items@, offset);
    }
    let mut k: usize = 0;
    while k < items.len() && items[k].pos < offset
        invariant
            k <= items@.len(),
            forall|i: int| 0 <= i < k ==> (#[trigger] items@[i]).pos < offset,
        decreases items@.len() - k,
    {
        k = k + 1;
    }
    proof {
        if k < items@.len() {
            assert forall|i: int| k <= i < items@.len() implies (#[trigger] items@[i]).pos >= offset by {
                assert(items@[k as int].pos <= items@[i].pos);
            }
        }
        lemma_split_unique(items@, offset, k as int, count_below(items@, offset) as int);
    }
    k
}

impl TransportLine {
    pub fn new(length: u32) -> (r: Self)
        ensures
            r.items@.len() == 0,
            r.speed == DEFAULT_BELT_SPEED,
            r.length == length,
            r.input_end == BeltEnd::Open,
            r.output_end == BeltEnd::Open,
    {
        TransportLine {
            items: Vec::new(),
            speed: DEFAULT_BELT_SPEED,
            length,
            input_end: BeltEnd::Open,
            output_end: BeltEnd::Open,
        }
    }

    /// Check whether the input end has room for another item.
    pub fn can_accept_at_input(&self) -> (r: bool)
        ensures
            r == input_has_room(self.items@, self.length),
    {
        if self.items.len() == 0 {
            true
        } else {
            let last = self.items[self.items.len() - 1].pos;
            let gap = if last <= self.length { self.length - last } else { 0 };
            gap >= MIN_ITEM_GAP
        }
    }

    /// Insert an item at the input end of this line.
    pub fn insert_at_input(&mut self, item: ItemId)
        ensures
            final(self).items@ == old(self).items@.push(BeltItem { item, pos: old(self).length }),
            final(self).speed == old(self).speed,
            final(self).length == old(self).length,
            final(self).input_end == old(self).input_end,
            final(self).output_end == old(self).output_end,
    {
        let pos = self.length;
        self.items.push(BeltItem { item, pos });
    }

    /// Check whether there is room at a specific offset for a side-injected item.
    /// Requires MIN_ITEM_GAP clearance from nearest items on both sides.
    pub fn can_accept_at_offset(&self, offset: u32) -> (r: bool)
        requires
            items_sorted(self.items@),
        ensures
            r == gap_ok(self.items@, offset, count_below(self.items@, offset) as int),
    {
        let idx = find_split(&self.items, offset);
        // Check gap from item before (closer to output, lower pos)
        if idx > 0 {
            let before = self.items[idx - 1].pos;
            let gap = if before <= offset { offset - before } else { 0 };
            if gap < MIN_ITEM_GAP {
                return false;
            }
        }
        // Check gap from item after (closer to input, higher pos)
        if idx < self.items.len() {
            let after = self.items[idx].pos;
            let gap = if offset <= after { after - offset } else { 0 };
            if gap < MIN_ITEM_GAP {
                return false;
            }
        }
        true
    }

    /// Insert an item at a specific offset, maintaining sorted order.
    pub fn insert_at_offset(&mut self, item: ItemId, offset: u32)
        requires
            items_sorted(old(self).items@),
        ensures
            final(self).items@ == old(self).items@.insert(
                count_below(old(self).items@, offset) as int,
                BeltItem { item, pos: offset },
            ),
            items_sorted(final(self).items@),
            final(self).speed == old(self).speed,
            final(self).length == old(self).length,
            final(self).input_end == old(self).input_end,
            final(self).output_end == old(self).output_end,
    {
        let idx = find_split(&self.items, offset);
        self.items.insert(idx, BeltItem { item, pos: offset });
        proof {
            let s = final(self).items@;
            let o = old(self).items@;
            assert forall|i: int, j: int| 0 <= i <= j < s.len() implies #[trigger] s[i].pos <= #[trigger] s[j].pos by {
                if i < idx && j > idx {
                    assert(o[i].pos < offset);
                    assert(o[j - 1].pos >= offset);
                } else if i < idx && j == idx {
                    assert(o[i].pos < offset);
                } else if i == idx && j > idx {
                    assert(o[j - 1].pos >= offset);
                } else if i > idx {
                    assert(o[i - 1].pos <= o[j - 1].pos);
                } else if j < idx {
                    assert(o[i].pos <= o[j].pos);
                }
            }
        }
    }

    /// Advance all items toward the output by `speed` units.
    /// Items compress against each other (min gap enforced).
    pub fn advance(&mut self)
        ensures
            final(self).items@.len() == old(self).items@.len(),
            forall|i: int|
                0 <= i < old(self).items@.len() ==> (#[trigger] final(self).items@[i]).item == old(
                    self,
                ).items@[i].item && final(self).items@[i].pos == advanced_pos(
                    old(self).items@,
                    old(self).speed as u32,
                    i as nat,
                ),
            final(self).speed == old(self).speed,
            final(self).length == old(self).length,
            final(self).input_end == old(self).input_end,
            final(self).output_end == old(self).output_end,
    {
        let speed = self.speed as u32;
        let n = self.items.len();
        let mut i: usize = 0;
        while i < n
            invariant
                n == self.items@.len(),
                n == old(self).items@.len(),
                i <= n,
                speed == old(self).speed as u32,
                self.speed == old(self).speed,
                self.length == old(self).length,
                self.input_end == old(self).input_end,
                self.output_end == old(self).output_end,
                forall|j: int| 0 <= j < i ==> (#[trigger] self.items@[j]).item == old(self).items@[j].item
                    && self.items@[j].pos == advanced_pos(old(self).items@, speed, j as nat),
                forall|j: int| i <= j < n ==> #[trigger] self.items@[j] == old(self).items@[j],
            decreases n - i,
        {
            let pos = self.items[i].pos;
            let new_pos = if speed <= pos { pos - speed } else { 0 };
            let min = if i == 0 {
                0
            } else {
                let prev = self.items[i - 1].pos;
                if prev <= u32::MAX - MIN_ITEM_GAP { prev + MIN_ITEM_GAP } else { u32::MAX }
            };
            self.items[i].pos = if new_pos >= min { new_pos } else { min };
            i = i + 1;
        }
    }
}

/// After an advance step, every item is at least `MIN_ITEM_GAP` behind the
/// one in front of it (up to the end of the position range), and the order
/// of positions is kept.
pub proof fn lemma_advance_spaces_items(s: Seq<BeltItem>, speed: u32, i: nat)
    requires
        1 <= i < s.len(),
    ensures
        advanced_pos(s, speed, i) >= sat_add(advanced_pos(s, speed, (i - 1) as nat), MIN_ITEM_GAP),
        advanced_pos(s, speed, i) >= advanced_pos(s, speed, (i - 1) as nat),
{
}

/// Advancing never moves an item away from the output when the items were
/// spaced, and a step moves each item by at most `speed`.
pub proof fn lemma_advance_moves_forward(s: Seq<BeltItem>, speed: u32, i: nat)
    requires
        items_spaced(s),
        i < s.len(),
    ensures
        advanced_pos(s, speed, i) <= s[i as int].pos,
        advanced_pos(s, speed, i) >= sat_sub(s[i as int].pos, speed),
    decreases i,
{
    if i > 0 {
        lemma_advance_moves_forward(s, speed, (i - 1) as nat);
        assert(s[i as int].pos >= s[i - 1].pos + MIN_ITEM_GAP);
    }
}


/// Tracks a belt entity's position within a (possibly merged) transport line.
#[derive(Clone, Copy, Debug, PartialEq, Eq, Structural)]
pub struct BeltSegment {
    /// Which transport line this entity belongs to.
    pub line: TransportLineId,
    /// Offset of this segment's output end within the line (fixed-point).
    /// Items in range [offset, offset + FP_SCALE) belong to this segment.
    pub offset: u32,
}

/// The line with identity `id` among `lines`, if it exists.
pub open spec fn line_of(lines: Seq<Option<TransportLine>>, id: TransportLineId) -> Option<TransportLine> {
    if id.0 < lines.len() {
        lines[id.0 as int]
    } else {
        None
    }
}

/// The length of a line slot; an empty slot counts zero.
pub open spec fn slot_len(l: Option<TransportLine>) -> int {
    match l {
        Some(t) => t.length as int,
        None => 0,
    }
}

/// The summed length of all lines.
pub open spec fn total_len(lines: Seq<Option<TransportLine>>) -> int
    decreases lines.len(),
{
    if lines.len() == 0 {
        0
    } else {
        total_len(lines.drop_last()) + slot_len(lines.last())
    }
}

proof fn lemma_total_len_update(lines: Seq<Option<TransportLine>>, i: int, x: Option<TransportLine>)
    requires
        0 <= i < lines.len(),
    ensures
        total_len(lines.update(i, x)) == total_len(lines) - slot_len(lines[i]) + slot_len(x),
    decreases lines.len(),
{
    let u = lines.update(i, x);
    if i == lines.len() - 1 {
        assert(u.drop_last() =~= lines.drop_last());
    } else {
        lemma_total_len_update(lines.drop_last(), i, x);
        assert(u.drop_last() =~= lines.drop_last().update(i, x));
    }
}

proof fn lemma_total_len_push(lines: Seq<Option<TransportLine>>, x: Option<TransportLine>)
    ensures
        total_len(lines.push(x)) == total_len(lines) + slot_len(x),
{
    assert(lines.push(x).drop_last() =~= lines);
}

proof fn lemma_total_len_nonneg(lines: Seq<Option<TransportLine>>)
    ensures
        total_len(lines) >= 0,
    decreases lines.len(),
{
    if lines.len() > 0 {
        lemma_total_len_nonneg(lines.drop_last());
    }
}

proof fn lemma_slot_le_total(lines: Seq<Option<TransportLine>>, i: int)
    requires
        0 <= i < lines.len(),
    ensures
        slot_len(lines[i]) <= total_len(lines),
    decreases lines.len(),
{
    lemma_total_len_nonneg(lines.drop_last());
    if i < lines.len() - 1 {
        lemma_slot_le_total(lines.drop_last(), i);
    }
}

/// The segment of entity `e` in the association list `segs`.
pub open spec fn seg_of(segs: Seq<(EntityId, BeltSegment)>, e: EntityId) -> Option<BeltSegment> {
    if exists|i: int| 0 <= i < segs.len() && (#[trigger] segs[i]).0 == e {
        let i = choose|i: int| 0 <= i < segs.len() && (#[trigger] segs[i]).0 == e;
        Some(segs[i].1)
    } else {
        None
    }
}

pub open spec fn seg_keys_unique(segs: Seq<(EntityId, BeltSegment)>) -> bool {
    forall|i: int, j: int| 0 <= i < j < segs.len() ==> #[trigger] segs[i].0 != #[trigger] segs[j].0
}

proof fn lemma_seg_at(segs: Seq<(EntityId, BeltSegment)>, i: int)
    requires
        seg_keys_unique(segs),
        0 <= i < segs.len(),
    ensures
        seg_of(segs, segs[i].0) == Some(segs[i].1),
{
    let e = segs[i].0;
    let j = choose|j: int| 0 <= j < segs.len() && (#[trigger] segs[j]).0 == e;
    if j < i {
        assert(segs[j].0 != segs[i].0);
    } else if i < j {
        assert(segs[i].0 != segs[j].0);
    }
}

/// Segment `s` lies inside its line, on a whole-square boundary.
pub open spec fn seg_fits(lines: Seq<Option<TransportLine>>, s: BeltSegment) -> bool {
    line_of(lines, s.line) matches Some(l) && s.offset % FP_SCALE == 0 && s.offset + FP_SCALE <= l.length
}

/// Every item position can be moved `bound` further without overflow.
pub open spec fn positions_below(lines: Seq<Option<TransportLine>>, bound: int) -> bool {
    forall|i: int, k: int|
        0 <= i < lines.len() && lines[i] is Some && 0 <= k < lines[i]->0.items@.len() ==> #[trigger] lines[i]->0.items@[k].pos
            + bound <= u32::MAX
}

/// The most a line's length or an item position may be before a belt joins
/// it: two such lines and one more belt still fit a `u32` position.
pub const LINE_CAP: u32 = 0x7fff_ff00;

/// No line is longer than `LINE_CAP`, and no item sits further along.
pub open spec fn lines_capped(lines: Seq<Option<TransportLine>>) -> bool {
    &&& forall|i: int| 0 <= i < lines.len() && (#[trigger] lines[i]) is Some ==> lines[i]->0.length <= LINE_CAP
    &&& positions_below(lines, u32::MAX - LINE_CAP)
}


/// The well-formedness of a belt network's tables.
pub open spec fn network_wf(lines: Seq<Option<TransportLine>>, segs: Seq<(EntityId, BeltSegment)>) -> bool {
    &&& seg_keys_unique(segs)
    &&& forall|i: int| 0 <= i < segs.len() ==> seg_fits(lines, (#[trigger] segs[i]).1)
    &&& forall|i: int, j: int|
        0 <= i < j < segs.len() && (#[trigger] segs[i]).1.line == (#[trigger] segs[j]).1.line ==> segs[i].1.offset
            != segs[j].1.offset
    &&& forall|i: int| 0 <= i < lines.len() ==> ((#[trigger] lines[i]) matches Some(l) ==> items_sorted(l.items@)
        && l.length % FP_SCALE == 0)
}

/// `l` with its output end replaced.
pub open spec fn with_output_end(l: TransportLine, end: BeltEnd) -> TransportLine {
    TransportLine { output_end: end, ..l }
}

/// `l` with its input end replaced.
pub open spec fn with_input_end(l: TransportLine, end: BeltEnd) -> TransportLine {
    TransportLine { input_end: end, ..l }
}

/// Replacing a line by one of the same length whose items lie within it and
/// are sorted keeps the tables well formed.
proof fn lemma_replace_line_wf(
    lines: Seq<Option<TransportLine>>,
    segs: Seq<(EntityId, BeltSegment)>,
    i: int,
    new_line: TransportLine,
)
    requires
        network_wf(lines, segs),
        0 <= i < lines.len(),
        lines[i] matches Some(l) && l.length == new_line.length,
        items_sorted(new_line.items@),
    ensures
        network_wf(lines.update(i, Some(new_line)), segs),
        total_len(lines.update(i, Some(new_line))) == total_len(lines),
        forall|id: TransportLineId| id.0 != i ==> line_of(lines.update(i, Some(new_line)), id) == line_of(lines, id),
{
    let u = lines.update(i, Some(new_line));
    lemma_total_len_update(lines, i, Some(new_line));
    assert forall|k: int| 0 <= k < segs.len() implies seg_fits(u, (#[trigger] segs[k]).1) by {
        assert(seg_fits(lines, segs[k].1));
    }
    assert forall|k: int| 0 <= k < u.len() implies ((#[trigger] u[k]) matches Some(l) ==> items_sorted(l.items@)) by {
        if k != i {
            assert(u[k] == lines[k]);
        }
    }
}

/// The belt simulation network — manages all transport lines.
pub struct BeltNetwork {
    lines: Vec<Option<TransportLine>>,
    segments: Vec<(EntityId, BeltSegment)>,
}

impl BeltNetwork {
    /// The line with identity `id`, if it exists.
    pub closed spec fn line_at(&self, id: TransportLineId) -> Option<TransportLine> {
        line_of(self.lines@, id)
    }

    /// The segment of belt `e`, if it is on a line.
    pub closed spec fn segment_of(&self, e: EntityId) -> Option<BeltSegment> {
        seg_of(self.segments@, e)
    }

    /// The summed length of all lines, in fixed-point units.
    pub closed spec fn units(&self) -> int {
        total_len(self.lines@)
    }

    pub closed spec fn wf(&self) -> bool {
        network_wf(self.lines@, self.segments@)
    }

    pub fn new() -> (r: Self)
        ensures
            r.wf(),
            r.units() == 0,
            forall|id: TransportLineId| r.line_at(id) is None,
            forall|e: EntityId| r.segment_of(e) is None,
    {
        BeltNetwork { lines: Vec::new(), segments: Vec::new() }
    }

    fn seg_index(&self, e: EntityId) -> (r: Option<usize>)
        requires
            seg_keys_unique(self.segments@),
        ensures
            r matches Some(i) ==> i < self.segments@.len() && self.segments@[i as int].0 == e
                && self.segment_of(e) == Some(self.segments@[i as int].1),
            r is None ==> self.segment_of(e) is None,
    {
        let mut i: usize = 0;
        while i < self.segments.len()
            invariant
                seg_keys_unique(self.segments@),
                i <= self.segments@.len(),
                forall|j: int| 0 <= j < i ==> (#[trigger] self.segments@[j]).0 != e,
            decreases self.segments@.len() - i,
        {
            if self.segments[i].0 == e {
                proof {
                    lemma_seg_at(self.segments@, i as int);
                }
                return Some(i);
            }
            i = i + 1;
        }
        None
    }

    /// The segment of belt `entity`, if it is on a line.
    pub fn segment(&self, entity: EntityId) -> (r: Option<BeltSegment>)
        requires
            self.wf(),
        ensures
            r == self.segment_of(entity),
    {
        match self.seg_index(entity) {
            Some(i) => Some(self.segments[i].1),
            None => None,
        }
    }

    fn line_index(&self, id: TransportLineId) -> (r: Option<usize>)
        ensures
            r matches Some(i) ==> i == id.0 && i < self.lines@.len() && self.lines@[i as int] is Some
                && self.line_at(id) == self.lines@[i as int],
            r is None ==> self.line_at(id) is None,
    {
        let n = self.lines.len();
        if id.0 < n as u64 {
            let i = id.0 as usize;
            if self.lines[i].is_some() {
                Some(i)
            } else {
                None
            }
        } else {
            None
        }
    }

    /// The line with identity `id`, if it exists.
    pub fn line(&self, id: TransportLineId) -> (r: Option<&TransportLine>)
        ensures
            r matches Some(l) ==> self.line_at(id) == Some(*l),
            r is None ==> self.line_at(id) is None,
    {
        match self.line_index(id) {
            Some(i) => self.lines[i].as_ref(),
            None => None,
        }
    }

    /// The line with identity `id`, to change in place. The network's
    /// invariant holds afterwards only if the line keeps its length and its
    /// items stay in order and spaced.
    pub fn line_mut(&mut self, id: TransportLineId) -> (r: Option<&mut TransportLine>)
        ensures
            forall|e: EntityId| #[trigger] final(self).segment_of(e) == old(self).segment_of(e),
            match old(self).line_at(id) {
                Some(l) => r is Some && *r->0 == l
                    && final(self).lines_view() == old(self).lines_view().update(id.0 as int, Some(*final(r->0))),
                None => r is None && final(self).lines_view() == old(self).lines_view(),
            },
    {
        match self.line_index(id) {
            Some(i) => match &mut self.lines[i] {
                Some(l) => Some(l),
                None => None,
            },
            None => None,
        }
    }

    /// How many lines exist.
    pub fn line_count(&self) -> (r: usize)
        ensures
            r == count_lines(self.lines_view(), any_line()),
    {
        let mut n: usize = 0;
        let mut k: usize = 0;
        while k < self.lines.len()
            invariant
                k <= self.lines@.len(),
                n == count_lines(self.lines@.subrange(0, k as int), any_line()),
                n <= k,
            decreases self.lines@.len() - k,
        {
            assert(self.lines@.subrange(0, k as int + 1).drop_last() =~= self.lines@.subrange(0, k as int));
            if self.lines[k].is_some() {
                n = n + 1;
            }
            k = k + 1;
        }
        assert(self.lines@.subrange(0, self.lines@.len() as int) =~= self.lines@);
        n
    }

    /// Replace the line in slot `i`, which must hold a line of the same length.
    fn replace_line(&mut self, i: usize, line: TransportLine)
        requires
            old(self).wf(),
            i < old(self).lines@.len(),
            old(self).lines@[i as int] matches Some(l) && l.length == line.length,
            items_sorted(line.items@),
        ensures
            final(self).wf(),
            final(self).lines@ == old(self).lines@.update(i as int, Some(line)),
            final(self).segments@ == old(self).segments@,
            final(self).units() == old(self).units(),
    {
        proof {
            lemma_replace_line_wf(self.lines@, self.segments@, i as int, line);
        }
        self.lines.set(i, Some(line));
    }

    /// Set the output end of the line in slot `i`.
    fn set_output_end(&mut self, i: usize, end: BeltEnd)
        requires
            old(self).wf(),
            i < old(self).lines@.len(),
            old(self).lines@[i as int] is Some,
        ensures
            final(self).wf(),
            final(self).lines@ == old(self).lines@.update(i as int, Some(with_output_end(old(self).lines@[i as int]->0, end))),
            final(self).segments@ == old(self).segments@,
            final(self).units() == old(self).units(),
    {
        let mut line = self.lines[i].take().unwrap();
        proof {
            assert(old(self).lines@[i as int] == Some(line));
        }
        line.output_end = end;
        self.lines.set(i, Some(line));
        proof {
            assert(self.lines@ =~= old(self).lines@.update(i as int, Some(line)));
            lemma_replace_line_wf(old(self).lines@, self.segments@, i as int, line);
        }
    }

    /// Set the input end of the line in slot `i`.
    fn set_input_end(&mut self, i: usize, end: BeltEnd)
        requires
            old(self).wf(),
            i < old(self).lines@.len(),
            old(self).lines@[i as int] is Some,
        ensures
            final(self).wf(),
            final(self).lines@ == old(self).lines@.update(i as int, Some(with_input_end(old(self).lines@[i as int]->0, end))),
            final(self).segments@ == old(self).segments@,
            final(self).units() == old(self).units(),
    {
        let mut line = self.lines[i].take().unwrap();
        proof {
            assert(old(self).lines@[i as int] == Some(line));
        }
        line.input_end = end;
        self.lines.set(i, Some(line));
        proof {
            assert(self.lines@ =~= old(self).lines@.update(i as int, Some(line)));
            lemma_replace_line_wf(old(self).lines@, self.segments@, i as int, line);
        }
    }

    /// The line and segment of belt `entity`, when both exist.
    fn locate(&self, entity: EntityId) -> (r: Option<(usize, BeltSegment)>)
        requires
            self.wf(),
        ensures
            r matches Some((i, seg)) ==> self.segment_of(entity) == Some(seg) && i == seg.line.0
                && i < self.lines@.len() && self.lines@[i as int] is Some && self.line_at(seg.line)
                == self.lines@[i as int],
            r is None ==> self.segment_of(entity) is None,
    {
        let k = match self.seg_index(entity) {
            Some(k) => k,
            None => return None,
        };
        let seg = self.segments[k].1;
        proof {
            assert(seg_fits(self.lines@, self.segments@[k as int].1));
        }
        match self.line_index(seg.line) {
            Some(i) => Some((i, seg)),
            None => None,
        }
    }

    /// Link the output end of `source`'s transport line to the input end of
    /// `target`'s transport line. Used for cross-tile belt connections where
    /// items should transfer across tile boundaries. Nothing changes when
    /// either belt is on no line or both are on the same line.
    pub fn link_output_to_input(&mut self, source: EntityId, target: EntityId)
        requires
            old(self).wf(),
        ensures
            final(self).wf(),
            final(self).units() == old(self).units(),
            forall|e: EntityId| final(self).segment_of(e) == old(self).segment_of(e),
            ({
                let linked = old(self).segment_of(source) matches Some(s) && old(self).segment_of(target) matches Some(t)
                    && s.line != t.line;
                &&& !linked ==> forall|id: TransportLineId| final(self).line_at(id) == old(self).line_at(id)
                &&& linked ==> {
                    let s = old(self).segment_of(source)->0.line;
                    let t = old(self).segment_of(target)->0.line;
                    &&& final(self).line_at(s) == Some(with_output_end(old(self).line_at(s)->0, BeltEnd::Belt(t)))
                    &&& final(self).line_at(t) == Some(with_input_end(old(self).line_at(t)->0, BeltEnd::Belt(s)))
                    &&& forall|id: TransportLineId| id != s && id != t ==> final(self).line_at(id) == old(self).line_at(id)
                }
            }),
    {
        let (si, sseg) = match self.locate(source) {
            Some(x) => x,
            None => return,
        };
        let (ti, tseg) = match self.locate(target) {
            Some(x) => x,
            None => return,
        };
        if si == ti {
            return;
        }
        self.set_output_end(si, BeltEnd::Belt(tseg.line));
        self.set_input_end(ti, BeltEnd::Belt(sseg.line));
        proof {
            assert forall|id: TransportLineId| id != sseg.line && id != tseg.line implies self.line_at(id) == old(self).line_at(id) by {}
        }
    }

    /// Connect a belt's transport line output to a machine input port.
    /// Only succeeds if the belt entity is at the output end of its line.
    pub fn connect_belt_to_machine_input(&mut self, belt_entity: EntityId, machine_entity: EntityId, slot: usize)
        requires
            old(self).wf(),
        ensures
            final(self).wf(),
            final(self).units() == old(self).units(),
            forall|e: EntityId| final(self).segment_of(e) == old(self).segment_of(e),
            !(old(self).segment_of(belt_entity) matches Some(seg) && seg.offset == 0) ==> forall|id: TransportLineId| final(self).line_at(id) == old(self).line_at(id),
            (old(self).segment_of(belt_entity) matches Some(seg) && seg.offset == 0) ==> {
                let seg = old(self).segment_of(belt_entity)->0;
                &&& final(self).line_at(seg.line) == Some(with_output_end(old(self).line_at(seg.line)->0, BeltEnd::MachineInput { entity: machine_entity, slot }))
                &&& forall|id: TransportLineId| id != seg.line ==> final(self).line_at(id) == old(self).line_at(id)
            },
    {
        let (i, seg) = match self.locate(belt_entity) {
            Some(x) => x,
            None => return,
        };
        if seg.offset != 0 {
            return;
        }
        self.set_output_end(i, BeltEnd::MachineInput { entity: machine_entity, slot });

    }

    /// Connect a belt's transport line input to a machine output port.
    /// Only succeeds if the belt entity is at the input end of its line.
    pub fn connect_machine_output_to_belt(&mut self, belt_entity: EntityId, machine_entity: EntityId, slot: usize)
        requires
            old(self).wf(),
        ensures
            final(self).wf(),
            final(self).units() == old(self).units(),
            forall|e: EntityId| final(self).segment_of(e) == old(self).segment_of(e),
            !(old(self).segment_of(belt_entity) matches Some(seg) && seg.offset + FP_SCALE == old(self).line_at(seg.line)->0.length) ==> forall|id: TransportLineId| final(self).line_at(id) == old(self).line_at(id),
            (old(self).segment_of(belt_entity) matches Some(seg) && seg.offset + FP_SCALE == old(self).line_at(seg.line)->0.length) ==> {
                let seg = old(self).segment_of(belt_entity)->0;
                &&& final(self).line_at(seg.line) == Some(with_input_end(old(self).line_at(seg.line)->0, BeltEnd::MachineOutput { entity: machine_entity, slot }))
                &&& forall|id: TransportLineId| id != seg.line ==> final(self).line_at(id) == old(self).line_at(id)
            },
    {
        let (i, seg) = match self.locate(belt_entity) {
            Some(x) => x,
            None => return,
        };
        let line_len = match &self.lines[i] {
            Some(l) => l.length,
            None => return,
        };
        if seg.offset != line_len - FP_SCALE {
            return;
        }
        self.set_input_end(i, BeltEnd::MachineOutput { entity: machine_entity, slot });

    }

    /// Connect a belt's output end to a splitter (belt feeds into splitter).
    /// Only succeeds if the belt entity is at the output end of its line
    /// and the output end is currently Open.
    pub fn connect_belt_to_splitter(&mut self, belt_entity: EntityId, splitter_entity: EntityId) -> (r: bool)
        requires
            old(self).wf(),
        ensures
            final(self).wf(),
            final(self).units() == old(self).units(),
            forall|e: EntityId| final(self).segment_of(e) == old(self).segment_of(e),
            r == (old(self).segment_of(belt_entity) matches Some(seg) && seg.offset == 0 && old(self).line_at(seg.line)->0.output_end == BeltEnd::Open),
            !(old(self).segment_of(belt_entity) matches Some(seg) && seg.offset == 0 && old(self).line_at(seg.line)->0.output_end == BeltEnd::Open) ==> forall|id: TransportLineId| final(self).line_at(id) == old(self).line_at(id),
            (old(self).segment_of(belt_entity) matches Some(seg) && seg.offset == 0 && old(self).line_at(seg.line)->0.output_end == BeltEnd::Open) ==> {
                let seg = old(self).segment_of(belt_entity)->0;
                &&& final(self).line_at(seg.line) == Some(with_output_end(old(self).line_at(seg.line)->0, BeltEnd::Splitter { entity: splitter_entity }))
                &&& forall|id: TransportLineId| id != seg.line ==> final(self).line_at(id) == old(self).line_at(id)
            },
    {
        let (i, seg) = match self.locate(belt_entity) {
            Some(x) => x,
            None => return false,
        };
        if seg.offset != 0 {
            return false;
        }
        let current = match &self.lines[i] {
            Some(l) => l.output_end,
            None => return false,
        };
        if current != BeltEnd::Open {
            return false;
        }
        self.set_output_end(i, BeltEnd::Splitter { entity: splitter_entity });
        true
    }

    /// Connect a splitter's output to a belt's input end (splitter feeds belt).
    /// Only succeeds if the belt entity is at the input end of its line
    /// and the input end is currently Open.
    pub fn connect_splitter_to_belt(&mut self, belt_entity: EntityId, splitter_entity: EntityId) -> (r: bool)
        requires
            old(self).wf(),
        ensures
            final(self).wf(),
            final(self).units() == old(self).units(),
            forall|e: EntityId| final(self).segment_of(e) == old(self).segment_of(e),
            r == (old(self).segment_of(belt_entity) matches Some(seg) && seg.offset + FP_SCALE == old(self).line_at(seg.line)->0.length && old(self).line_at(seg.line)->0.input_end == BeltEnd::Open),
            !(old(self).segment_of(belt_entity) matches Some(seg) && seg.offset + FP_SCALE == old(self).line_at(seg.line)->0.length && old(self).line_at(seg.line)->0.input_end == BeltEnd::Open) ==> forall|id: TransportLineId| final(self).line_at(id) == old(self).line_at(id),
            (old(self).segment_of(belt_entity) matches Some(seg) && seg.offset + FP_SCALE == old(self).line_at(seg.line)->0.length && old(self).line_at(seg.line)->0.input_end == BeltEnd::Open) ==> {
                let seg = old(self).segment_of(belt_entity)->0;
                &&& final(self).line_at(seg.line) == Some(with_input_end(old(self).line_at(seg.line)->0, BeltEnd::Splitter { entity: splitter_entity }))
                &&& forall|id: TransportLineId| id != seg.line ==> final(self).line_at(id) == old(self).line_at(id)
            },
    {
        let (i, seg) = match self.locate(belt_entity) {
            Some(x) => x,
            None => return false,
        };
        let line_len = match &self.lines[i] {
            Some(l) => l.length,
            None => return false,
        };
        if seg.offset != line_len - FP_SCALE {
            return false;
        }
        let current = match &self.lines[i] {
            Some(l) => l.input_end,
            None => return false,
        };
        if current != BeltEnd::Open {
            return false;
        }
        self.set_input_end(i, BeltEnd::Splitter { entity: splitter_entity });
        true
    }

    /// Connect a belt's transport line output to a storage input port.
    /// Only succeeds if the belt entity is at the output end of its line.
    pub fn connect_belt_to_storage_input(&mut self, belt_entity: EntityId, storage_entity: EntityId, slot: usize)
        requires
            old(self).wf(),
        ensures
            final(self).wf(),
            final(self).units() == old(self).units(),
            forall|e: EntityId| final(self).segment_of(e) == old(self).segment_of(e),
            !(old(self).segment_of(belt_entity) matches Some(seg) && seg.offset == 0) ==> forall|id: TransportLineId| final(self).line_at(id) == old(self).line_at(id),
            (old(self).segment_of(belt_entity) matches Some(seg) && seg.offset == 0) ==> {
                let seg = old(self).segment_of(belt_entity)->0;
                &&& final(self).line_at(seg.line) == Some(with_output_end(old(self).line_at(seg.line)->0, BeltEnd::StorageInput { entity: storage_entity, slot }))
                &&& forall|id: TransportLineId| id != seg.line ==> final(self).line_at(id) == old(self).line_at(id)
            },
    {
        let (i, seg) = match self.locate(belt_entity) {
            Some(x) => x,
            None => return,
        };
        if seg.offset != 0 {
            return;
        }
        self.set_output_end(i, BeltEnd::StorageInput { entity: storage_entity, slot });

    }

    /// Connect a storage output port to a belt's transport line input.
    /// Only succeeds if the belt entity is at the input end of its line.
    pub fn connect_storage_output_to_belt(&mut self, belt_entity: EntityId, storage_entity: EntityId, slot: usize)
        requires
            old(self).wf(),
        ensures
            final(self).wf(),
            final(self).units() == old(self).units(),
            forall|e: EntityId| final(self).segment_of(e) == old(self).segment_of(e),
            !(old(self).segment_of(belt_entity) matches Some(seg) && seg.offset + FP_SCALE == old(self).line_at(seg.line)->0.length) ==> forall|id: TransportLineId| final(self).line_at(id) == old(self).line_at(id),
            (old(self).segment_of(belt_entity) matches Some(seg) && seg.offset + FP_SCALE == old(self).line_at(seg.line)->0.length) ==> {
                let seg = old(self).segment_of(belt_entity)->0;
                &&& final(self).line_at(seg.line) == Some(with_input_end(old(self).line_at(seg.line)->0, BeltEnd::StorageOutput { entity: storage_entity, slot }))
                &&& forall|id: TransportLineId| id != seg.line ==> final(self).line_at(id) == old(self).line_at(id)
            },
    {
        let (i, seg) = match self.locate(belt_entity) {
            Some(x) => x,
            None => return,
        };
        let line_len = match &self.lines[i] {
            Some(l) => l.length,
            None => return,
        };
        if seg.offset != line_len - FP_SCALE {
            return;
        }
        self.set_input_end(i, BeltEnd::StorageOutput { entity: storage_entity, slot });

    }

    /// Disconnect all belt connections to/from a machine entity.
    /// Sets any BeltEnd referencing this machine back to Open.
    pub fn disconnect_machine_ports(&mut self, machine_entity: EntityId)
        requires
            old(self).wf(),
        ensures
            final(self).wf(),
            final(self).units() == old(self).units(),
            forall|e: EntityId| final(self).segment_of(e) == old(self).segment_of(e),
            forall|id: TransportLineId| #[trigger] final(self).line_at(id) == match old(self).line_at(id) {
                Some(l) => Some(with_input_end(with_output_end(l, out_without_machine(l.output_end, machine_entity)), in_without_machine(l.input_end, machine_entity))),
                None => None,
            },
    {
        let n = self.lines.len();
        let mut k: usize = 0;
        while k < n
            invariant
                self.wf(),
                n == self.lines@.len(),
                n == old(self).lines@.len(),
                k <= n,
                self.segments@ == old(self).segments@,
                self.units() == old(self).units(),
                forall|q: int| 0 <= q < k ==> #[trigger] self.lines@[q] == match old(self).lines@[q] {
                    Some(l) => Some(with_input_end(with_output_end(l, out_without_machine(l.output_end, machine_entity)), in_without_machine(l.input_end, machine_entity))),
                    None => None,
                },
                forall|q: int| k <= q < n ==> #[trigger] self.lines@[q] == old(self).lines@[q],
            decreases n - k,
        {
            let ends = match &self.lines[k] {
                Some(l) => Some((l.output_end, l.input_end)),
                None => None,
            };
            match ends {
                Some((out_end, in_end)) => {
                    let new_out = match out_end {
                        BeltEnd::MachineInput { entity, .. } if entity == machine_entity => BeltEnd::Open,
                        _ => out_end,
                    };
                    let new_in = match in_end {
                        BeltEnd::MachineOutput { entity, .. } if entity == machine_entity => BeltEnd::Open,
                        _ => in_end,
                    };
                    let ghost before = self.lines@;
                    self.set_output_end(k, new_out);
                    self.set_input_end(k, new_in);
                    proof {
                        assert(self.lines@[k as int] == match old(self).lines@[k as int] {
                            Some(l) => Some(with_input_end(with_output_end(l, out_without_machine(l.output_end, machine_entity)), in_without_machine(l.input_end, machine_entity))),
                            None => None,
                        });
                    }
                },
                None => {},
            }
            k = k + 1;
        }
    }

    /// Disconnect all belt connections to/from a splitter entity.
    /// Sets any BeltEnd::Splitter referencing this splitter back to Open.
    pub fn disconnect_splitter_ports(&mut self, splitter_entity: EntityId)
        requires
            old(self).wf(),
        ensures
            final(self).wf(),
            final(self).units() == old(self).units(),
            forall|e: EntityId| final(self).segment_of(e) == old(self).segment_of(e),
            forall|id: TransportLineId| #[trigger] final(self).line_at(id) == match old(self).line_at(id) {
                Some(l) => Some(with_input_end(with_output_end(l, without_splitter(l.output_end, splitter_entity)), without_splitter(l.input_end, splitter_entity))),
                None => None,
            },
    {
        let n = self.lines.len();
        let mut k: usize = 0;
        while k < n
            invariant
                self.wf(),
                n == self.lines@.len(),
                n == old(self).lines@.len(),
                k <= n,
                self.segments@ == old(self).segments@,
                self.units() == old(self).units(),
                forall|q: int| 0 <= q < k ==> #[trigger] self.lines@[q] == match old(self).lines@[q] {
                    Some(l) => Some(with_input_end(with_output_end(l, without_splitter(l.output_end, splitter_entity)), without_splitter(l.input_end, splitter_entity))),
                    None => None,
                },
                forall|q: int| k <= q < n ==> #[trigger] self.lines@[q] == old(self).lines@[q],
            decreases n - k,
        {
            let ends = match &self.lines[k] {
                Some(l) => Some((l.output_end, l.input_end)),
                None => None,
            };
            match ends {
                Some((out_end, in_end)) => {
                    let new_out = match out_end {
                        BeltEnd::Splitter { entity } if entity == splitter_entity => BeltEnd::Open,
                        _ => out_end,
                    };
                    let new_in = match in_end {
                        BeltEnd::Splitter { entity } if entity == splitter_entity => BeltEnd::Open,
                        _ => in_end,
                    };
                    let ghost before = self.lines@;
                    self.set_output_end(k, new_out);
                    self.set_input_end(k, new_in);
                    proof {
                        assert(self.lines@[k as int] == match old(self).lines@[k as int] {
                            Some(l) => Some(with_input_end(with_output_end(l, without_splitter(l.output_end, splitter_entity)), without_splitter(l.input_end, splitter_entity))),
                            None => None,
                        });
                    }
                },
                None => {},
            }
            k = k + 1;
        }
    }

    /// Disconnect all belt connections to/from a storage entity.
    /// Sets any BeltEnd::StorageInput/StorageOutput referencing this storage back to Open.
    pub fn disconnect_storage_ports(&mut self, storage_entity: EntityId)
        requires
            old(self).wf(),
        ensures
            final(self).wf(),
            final(self).units() == old(self).units(),
            forall|e: EntityId| final(self).segment_of(e) == old(self).segment_of(e),
            forall|id: TransportLineId| #[trigger] final(self).line_at(id) == match old(self).line_at(id) {
                Some(l) => Some(with_input_end(with_output_end(l, out_without_storage(l.output_end, storage_entity)), in_without_storage(l.input_end, storage_entity))),
                None => None,
            },
    {
        let n = self.lines.len();
        let mut k: usize = 0;
        while k < n
            invariant
                self.wf(),
                n == self.lines@.len(),
                n == old(self).lines@.len(),
                k <= n,
                self.segments@ == old(self).segments@,
                self.units() == old(self).units(),
                forall|q: int| 0 <= q < k ==> #[trigger] self.lines@[q] == match old(self).lines@[q] {
                    Some(l) => Some(with_input_end(with_output_end(l, out_without_storage(l.output_end, storage_entity)), in_without_storage(l.input_end, storage_entity))),
                    None => None,
                },
                forall|q: int| k <= q < n ==> #[trigger] self.lines@[q] == old(self).lines@[q],
            decreases n - k,
        {
            let ends = match &self.lines[k] {
                Some(l) => Some((l.output_end, l.input_end)),
                None => None,
            };
            match ends {
                Some((out_end, in_end)) => {
                    let new_out = match out_end {
                        BeltEnd::StorageInput { entity, .. } if entity == storage_entity => BeltEnd::Open,
                        _ => out_end,
                    };
                    let new_in = match in_end {
                        BeltEnd::StorageOutput { entity, .. } if entity == storage_entity => BeltEnd::Open,
                        _ => in_end,
                    };
                    let ghost before = self.lines@;
                    self.set_output_end(k, new_out);
                    self.set_input_end(k, new_in);
                    proof {
                        assert(self.lines@[k as int] == match old(self).lines@[k as int] {
                            Some(l) => Some(with_input_end(with_output_end(l, out_without_storage(l.output_end, storage_entity)), in_without_storage(l.input_end, storage_entity))),
                            None => None,
                        });
                    }
                },
                None => {},
            }
            k = k + 1;
        }
    }
    /// Count how many belt lines are connected to a storage entity as inputs/outputs.
    /// Returns (input_count, output_count).
    pub fn storage_connection_counts(&self, storage_entity: EntityId) -> (r: (usize, usize))
        requires
            self.wf(),
        ensures
            r.0 == count_lines(self.lines_view(), feeds_storage(storage_entity)),
            r.1 == count_lines(self.lines_view(), fed_by_storage(storage_entity)),
    {
        let ghost fi = feeds_storage(storage_entity);
        let ghost fo = fed_by_storage(storage_entity);
        let mut inputs: usize = 0;
        let mut outputs: usize = 0;
        let mut k: usize = 0;
        while k < self.lines.len()
            invariant
                k <= self.lines@.len(),
                fi == feeds_storage(storage_entity),
                fo == fed_by_storage(storage_entity),
                inputs == count_lines(self.lines@.subrange(0, k as int), fi),
                outputs == count_lines(self.lines@.subrange(0, k as int), fo),
                inputs <= k,
                outputs <= k,
            decreases self.lines@.len() - k,
        {
            assert(self.lines@.subrange(0, k as int + 1).drop_last() =~= self.lines@.subrange(0, k as int));
            match &self.lines[k] {
                Some(line) => {
                    match line.output_end {
                        BeltEnd::StorageInput { entity, .. } => {
                            if entity == storage_entity {
                                inputs = inputs + 1;
                            }
                        },
                        _ => {},
                    }
                    match line.input_end {
                        BeltEnd::StorageOutput { entity, .. } => {
                            if entity == storage_entity {
                                outputs = outputs + 1;
                            }
                        },
                        _ => {},
                    }
                },
                None => {},
            }
            k = k + 1;
        }
        assert(self.lines@.subrange(0, self.lines@.len() as int) =~= self.lines@);
        (inputs, outputs)
    }

    /// All line slots, by identity.
    pub closed spec fn lines_view(&self) -> Seq<Option<TransportLine>> {
        self.lines@
    }

    /// Check if a belt entity's line has a front item at pos=0 ready to take.
    pub fn peek_front_item(&self, belt_entity: EntityId) -> (r: Option<ItemId>)
        requires
            self.wf(),
        ensures
            r == match self.segment_of(belt_entity) {
                Some(seg) => front_item(self.line_at(seg.line)->0),
                None => None,
            },
    {
        let (i, _seg) = match self.locate(belt_entity) {
            Some(x) => x,
            None => return None,
        };
        match &self.lines[i] {
            Some(line) => {
                if line.items.len() > 0 && line.items[0].pos == 0 {
                    Some(line.items[0].item)
                } else {
                    None
                }
            },
            None => None,
        }
    }

    /// Take the front item from a belt entity's transport line (pos=0).
    pub fn take_front_item(&mut self, belt_entity: EntityId) -> (r: Option<ItemId>)
        requires
            old(self).wf(),
        ensures
            final(self).wf(),
            final(self).units() == old(self).units(),
            forall|e: EntityId| final(self).segment_of(e) == old(self).segment_of(e),
            r == match old(self).segment_of(belt_entity) {
                Some(seg) => front_item(old(self).line_at(seg.line)->0),
                None => None,
            },
            r is None ==> forall|id: TransportLineId| final(self).line_at(id) == old(self).line_at(id),
            r is Some ==> {
                let id = old(self).segment_of(belt_entity)->0.line;
                let l = old(self).line_at(id)->0;
                &&& final(self).line_at(id) == Some(TransportLine { items: final(self).line_at(id)->0.items, ..l })
                &&& final(self).line_at(id)->0.items@ == l.items@.subrange(1, l.items@.len() as int)
                &&& forall|id2: TransportLineId| id2 != id ==> final(self).line_at(id2) == old(self).line_at(id2)
            },
    {
        let (i, _seg) = match self.locate(belt_entity) {
            Some(x) => x,
            None => return None,
        };
        let ready = match &self.lines[i] {
            Some(line) => line.items.len() > 0 && line.items[0].pos == 0,
            None => false,
        };
        if !ready {
            return None;
        }
        let mut line = self.lines[i].take().unwrap();
        proof {
            assert(old(self).lines@[i as int] == Some(line));
            lemma_sorted_drop_first(line.items@);
        }
        let front = line.items.remove(0);
        proof {
            assert(line.items@ =~= old(self).lines@[i as int]->0.items@.subrange(1, old(self).lines@[i as int]->0.items@.len() as int));
            lemma_replace_line_wf(old(self).lines@, old(self).segments@, i as int, line);
        }
        self.lines.set(i, Some(line));
        assert(self.lines@ =~= old(self).lines@.update(i as int, Some(line)));
        Some(front.item)
    }

    /// Check if a belt entity's line can accept an item at its input end.
    pub fn can_accept_at_entity_input(&self, belt_entity: EntityId) -> (r: bool)
        requires
            self.wf(),
        ensures
            r == match self.segment_of(belt_entity) {
                Some(seg) => input_has_room(self.line_at(seg.line)->0.items@, self.line_at(seg.line)->0.length),
                None => false,
            },
    {
        let (i, _seg) = match self.locate(belt_entity) {
            Some(x) => x,
            None => return false,
        };
        match &self.lines[i] {
            Some(line) => line.can_accept_at_input(),
            None => false,
        }
    }

    /// Push an item to the input end of a belt entity's transport line.
    pub fn push_to_entity_input(&mut self, belt_entity: EntityId, item: ItemId) -> (r: bool)
        requires
            old(self).wf(),
        ensures
            final(self).wf(),
            final(self).units() == old(self).units(),
            forall|e: EntityId| final(self).segment_of(e) == old(self).segment_of(e),
            r == match old(self).segment_of(belt_entity) {
                Some(seg) => input_has_room(old(self).line_at(seg.line)->0.items@, old(self).line_at(seg.line)->0.length),
                None => false,
            },
            !r ==> forall|id: TransportLineId| final(self).line_at(id) == old(self).line_at(id),
            r ==> {
                let id = old(self).segment_of(belt_entity)->0.line;
                let l = old(self).line_at(id)->0;
                &&& final(self).line_at(id) == Some(TransportLine { items: final(self).line_at(id)->0.items, ..l })
                &&& final(self).line_at(id)->0.items@ == l.items@.push(BeltItem { item, pos: l.length })
                &&& forall|id2: TransportLineId| id2 != id ==> final(self).line_at(id2) == old(self).line_at(id2)
            },
    {
        let (i, _seg) = match self.locate(belt_entity) {
            Some(x) => x,
            None => return false,
        };
        let room = match &self.lines[i] {
            Some(line) => line.can_accept_at_input(),
            None => false,
        };
        if !room {
            return false;
        }
        let mut line = self.lines[i].take().unwrap();
        proof {
            assert(old(self).lines@[i as int] == Some(line));
            lemma_sorted_push_max(line.items@, BeltItem { item, pos: line.length });
        }
        line.insert_at_input(item);
        proof {
            lemma_replace_line_wf(old(self).lines@, old(self).segments@, i as int, line);
        }
        self.lines.set(i, Some(line));
        assert(self.lines@ =~= old(self).lines@.update(i as int, Some(line)));
        true
    }

    /// Get splitter connections on the line containing this belt entity.
    /// Returns (output_end_splitter, input_end_splitter).
    pub fn line_splitter_connections(&self, entity: EntityId) -> (r: (Option<EntityId>, Option<EntityId>))
        requires
            self.wf(),
        ensures
            r == match self.segment_of(entity) {
                Some(seg) => (
                    end_splitter(self.line_at(seg.line)->0.output_end),
                    end_splitter(self.line_at(seg.line)->0.input_end),
                ),
                None => (None, None),
            },
    {
        let (i, _seg) = match self.locate(entity) {
            Some(x) => x,
            None => return (None, None),
        };
        match &self.lines[i] {
            Some(line) => {
                let output_splitter = match line.output_end {
                    BeltEnd::Splitter { entity } => Some(entity),
                    _ => None,
                };
                let input_splitter = match line.input_end {
                    BeltEnd::Splitter { entity } => Some(entity),
                    _ => None,
                };
                (output_splitter, input_splitter)
            },
            None => (None, None),
        }
    }

    /// Debug: spawn an item at the center of the belt entity's segment.
    pub fn spawn_item_on_entity(&mut self, entity: EntityId, item: ItemId)
        requires
            old(self).wf(),
        ensures
            final(self).wf(),
            final(self).units() == old(self).units(),
            forall|e: EntityId| final(self).segment_of(e) == old(self).segment_of(e),
            old(self).segment_of(entity) is None ==> forall|id: TransportLineId| final(self).line_at(id) == old(self).line_at(id),
            old(self).segment_of(entity) matches Some(seg) ==> {
                let l = old(self).line_at(seg.line)->0;
                let pos = (seg.offset + FP_SCALE / 2) as u32;
                &&& final(self).line_at(seg.line) == Some(TransportLine { items: final(self).line_at(seg.line)->0.items, ..l })
                &&& final(self).line_at(seg.line)->0.items@ == l.items@.insert(
                    count_below(l.items@, pos) as int,
                    BeltItem { item, pos },
                )
                &&& forall|id2: TransportLineId| id2 != seg.line ==> final(self).line_at(id2) == old(self).line_at(id2)
            },
    {
        let (i, seg) = match self.locate(entity) {
            Some(x) => x,
            None => return,
        };
        let mut line = self.lines[i].take().unwrap();
        proof {
            assert(old(self).lines@[i as int] == Some(line));
            let k = choose|k: int| 0 <= k < old(self).segments@.len() && (#[trigger] old(self).segments@[k]).0 == entity;
            assert(seg_fits(old(self).lines@, old(self).segments@[k].1));
        }
        let pos = seg.offset + FP_SCALE / 2;
        line.insert_at_offset(item, pos);
        proof {
            let o = old(self).lines@[i as int]->0.items@;
            let c = count_below(o, pos) as int;
            lemma_split_at_count(o, pos);
            lemma_replace_line_wf(old(self).lines@, old(self).segments@, i as int, line);
        }
        self.lines.set(i, Some(line));
        assert(self.lines@ =~= old(self).lines@.update(i as int, Some(line)));
    }

    /// Get items on the belt entity's segment, plus the segment offset.
    /// Returns `(items, offset)` where each item's position relative to
    /// this segment is `item.pos - offset` (range 0..FP_SCALE).
    pub fn entity_items(&self, entity: EntityId) -> (r: Option<(Vec<BeltItem>, u32)>)
        requires
            self.wf(),
        ensures
            match self.segment_of(entity) {
                None => r is None,
                Some(seg) => {
                    let items = self.line_at(seg.line)->0.items@;
                    r matches Some((v, off)) && off == seg.offset && v@ == items.subrange(
                        count_below(items, seg.offset) as int,
                        count_below(items, (seg.offset + FP_SCALE) as u32) as int,
                    )
                },
            },
    {
        let (i, seg) = match self.locate(entity) {
            Some(x) => x,
            None => return None,
        };
        proof {
            let k = choose|k: int| 0 <= k < self.segments@.len() && (#[trigger] self.segments@[k]).0 == entity;
            assert(seg_fits(self.lines@, self.segments@[k].1));
        }
        match &self.lines[i] {
            Some(line) => {
                let start = find_split(&line.items, seg.offset);
                let end = find_split(&line.items, seg.offset + FP_SCALE);
                proof {
                    if end < start {
                        assert(line.items@[end as int].pos >= seg.offset + FP_SCALE);
                    }
                }
                let mut out: Vec<BeltItem> = Vec::new();
                let mut k: usize = start;
                while k < end
                    invariant
                        start <= k <= end <= line.items@.len(),
                        out@ == line.items@.subrange(start as int, k as int),
                    decreases end - k,
                {
                    out.push(line.items[k]);
                    k = k + 1;
                }
                Some((out, seg.offset))
            },
            None => None,
        }
    }
    /// Move every segment of line `from` onto line `to`, `shift` further
    /// from the output end.
    fn move_segments(&mut self, from: TransportLineId, to: TransportLineId, shift: u32)
        requires
            forall|k: int|
                0 <= k < old(self).segments@.len() && (#[trigger] old(self).segments@[k]).1.line == from
                    ==> old(self).segments@[k].1.offset + shift <= u32::MAX,
        ensures
            segs_moved(final(self).segments@, old(self).segments@, from, to, shift as int),
            final(self).lines@ == old(self).lines@,
    {
        let n = self.segments.len();
        let mut k: usize = 0;
        while k < n
            invariant
                n == self.segments@.len(),
                n == old(self).segments@.len(),
                k <= n,
                self.lines@ == old(self).lines@,
                forall|q: int|
                    0 <= q < n && (#[trigger] old(self).segments@[q]).1.line == from ==> old(self).segments@[q].1.offset
                        + shift <= u32::MAX,
                forall|q: int|
                    0 <= q < k ==> (#[trigger] self.segments@[q]).0 == old(self).segments@[q].0 && self.segments@[q].1
                        == moved_seg(old(self).segments@[q].1, from, to, shift as int),
                forall|q: int| k <= q < n ==> #[trigger] self.segments@[q] == old(self).segments@[q],
            decreases n - k,
        {
            let (e, seg) = self.segments[k];
            if seg.line == from {
                self.segments.set(k, (e, BeltSegment { line: to, offset: seg.offset + shift }));
            }
            k = k + 1;
        }
    }

    /// Record `seg` as the segment of `e`, replacing any earlier one.
    fn put_segment(&mut self, e: EntityId, seg: BeltSegment)
        requires
            seg_keys_unique(old(self).segments@),
        ensures
            seg_keys_unique(final(self).segments@),
            final(self).lines@ == old(self).lines@,
            seg_of(final(self).segments@, e) == Some(seg),
            forall|e2: EntityId| e2 != e ==> seg_of(final(self).segments@, e2) == seg_of(old(self).segments@, e2),
            forall|k: int| 0 <= k < final(self).segments@.len() ==> (#[trigger] final(self).segments@[k]).0 == e
                || exists|q: int| 0 <= q < old(self).segments@.len() && old(self).segments@[q] == final(self).segments@[k],
    {
        let ghost old_segs = self.segments@;
        match self.seg_index(e) {
            Some(k) => {
                self.segments.set(k, (e, seg));
                proof {
                    assert forall|i: int, j: int| 0 <= i < j < self.segments@.len() implies #[trigger] self.segments@[i].0
                        != #[trigger] self.segments@[j].0 by {
                        assert(self.segments@[i].0 == old_segs[i].0 && self.segments@[j].0 == old_segs[j].0);
                    }
                    lemma_seg_at(self.segments@, k as int);
                    assert forall|e2: EntityId| e2 != e implies seg_of(self.segments@, e2) == seg_of(old_segs, e2) by {
                        if exists|i: int| 0 <= i < old_segs.len() && (#[trigger] old_segs[i]).0 == e2 {
                            let i = choose|i: int| 0 <= i < old_segs.len() && (#[trigger] old_segs[i]).0 == e2;
                            lemma_seg_at(old_segs, i);
                            assert(self.segments@[i] == old_segs[i]);
                            lemma_seg_at(self.segments@, i);
                        } else {
                            assert forall|i: int| 0 <= i < self.segments@.len() implies (#[trigger] self.segments@[i]).0 != e2 by {
                                assert(self.segments@[i].0 == old_segs[i].0);
                            }
                        }
                    }
                    assert forall|q: int| 0 <= q < self.segments@.len() implies (#[trigger] self.segments@[q]).0 == e
                        || exists|r: int| 0 <= r < old_segs.len() && old_segs[r] == self.segments@[q] by {
                        if q != k {
                            assert(old_segs[q] == self.segments@[q]);
                        }
                    }
                }
            },
            None => {
                self.segments.push((e, seg));
                proof {
                    let n = old_segs.len() as int;
                    assert forall|i: int, j: int| 0 <= i < j < self.segments@.len() implies #[trigger] self.segments@[i].0
                        != #[trigger] self.segments@[j].0 by {
                        if j == n {
                            assert(old_segs[i].0 != e) by {
                                if old_segs[i].0 == e {
                                    lemma_seg_at(old_segs, i);
                                }
                            }
                        } else {
                            assert(self.segments@[i] == old_segs[i] && self.segments@[j] == old_segs[j]);
                        }
                    }
                    lemma_seg_at(self.segments@, n);
                    assert forall|e2: EntityId| e2 != e implies seg_of(self.segments@, e2) == seg_of(old_segs, e2) by {
                        if exists|i: int| 0 <= i < old_segs.len() && (#[trigger] old_segs[i]).0 == e2 {
                            let i = choose|i: int| 0 <= i < old_segs.len() && (#[trigger] old_segs[i]).0 == e2;
                            lemma_seg_at(old_segs, i);
                            assert(self.segments@[i] == old_segs[i]);
                            lemma_seg_at(self.segments@, i);
                        } else {
                            assert forall|i: int| 0 <= i < self.segments@.len() implies (#[trigger] self.segments@[i]).0 != e2 by {
                                if i < n {
                                    assert(self.segments@[i] == old_segs[i]);
                                }
                            }
                        }
                    }
                    assert forall|q: int| 0 <= q < self.segments@.len() implies (#[trigger] self.segments@[q]).0 == e
                        || exists|r: int| 0 <= r < old_segs.len() && old_segs[r] == self.segments@[q] by {
                        if q < n {
                            assert(old_segs[q] == self.segments@[q]);
                        }
                    }
                }
            },
        }
    }

    /// Append a new line holding `line`, returning its identity.
    fn push_line(&mut self, line: TransportLine) -> (r: TransportLineId)
        requires
            old(self).lines@.len() < usize::MAX,
        ensures
            r.0 == old(self).lines@.len(),
            final(self).lines@ == old(self).lines@.push(Some(line)),
            final(self).segments@ == old(self).segments@,
    {
        let id = TransportLineId(self.lines.len() as u64);
        self.lines.push(Some(line));
        id
    }

    /// Join belt `entity` to the lines of its neighbour segments `up` and
    /// `down`.
    fn join_segment(&mut self, entity: EntityId, up: Option<BeltSegment>, down: Option<BeltSegment>)
        requires
            old(self).wf(),
            lines_capped(old(self).lines@),
            old(self).lines@.len() < usize::MAX,
            up matches Some(u) ==> seg_fits(old(self).lines@, u),
            down matches Some(d) ==> seg_fits(old(self).lines@, d),
        ensures
            final(self).wf(),
            final(self).units() == old(self).units() + FP_SCALE,
            is_join(*final(self), *old(self), entity, up, down),
    {
        let ghost old_lines = self.lines@;
        let ghost old_segs = self.segments@;
        proof {
            lemma_total_len_nonneg(old_lines);
        }
        match (up, down) {
            (Some(u), None) => {
                let li = u.line.0 as usize;
                let mut line = self.lines[li].take().unwrap();
                let ghost l0 = line;
                proof {
                    assert(old_lines[li as int] == Some(l0));
                    assert forall|q: int| 0 <= q < l0.items@.len() implies #[trigger] l0.items@[q].pos + FP_SCALE <= u32::MAX by {
                        assert(old_lines[li as int]->0.items@[q].pos + (u32::MAX - LINE_CAP) <= u32::MAX);
                    }
                }
                let n = line.items.len();
                let mut k: usize = 0;
                while k < n
                    invariant
                        n == line.items@.len(),
                        n == l0.items@.len(),
                        k <= n,
                        line.length == l0.length,
                        line.speed == l0.speed,
                        line.input_end == l0.input_end,
                        line.output_end == l0.output_end,
                        l0.length + FP_SCALE <= u32::MAX,
                        forall|q: int| 0 <= q < n ==> #[trigger] l0.items@[q].pos + FP_SCALE <= u32::MAX,
                        forall|q: int| 0 <= q < k ==> #[trigger] line.items@[q] == shifted_items(l0.items@, FP_SCALE as int)[q],
                        forall|q: int| k <= q < n ==> #[trigger] line.items@[q] == l0.items@[q],
                    decreases n - k,
                {
                    let p = line.items[k].pos;
                    line.items[k].pos = p + FP_SCALE;
                    k = k + 1;
                }
                line.length = line.length + FP_SCALE;
                let ghost l1 = line;
                proof {
                    assert(line.items@ =~= shifted_items(l0.items@, FP_SCALE as int));
                    lemma_total_len_update(old_lines, li as int, Some(l1));
                }
                self.lines.set(li, Some(line));
                assert(self.lines@ =~= old_lines.update(li as int, Some(l1)));
                self.move_segments(u.line, u.line, FP_SCALE);
                let ghost moved = self.segments@;
                self.put_segment(entity, BeltSegment { line: u.line, offset: 0 });
                proof {
                    let lines = self.lines@;
                    let segs = self.segments@;
                    assert forall|e2: EntityId| e2 != entity implies #[trigger] seg_of(segs, e2) == match seg_of(old_segs, e2) {
                        Some(s) => Some(moved_seg(s, u.line, u.line, FP_SCALE as int)),
                        None => None,
                    } by {
                        lemma_seg_of_moved(moved, old_segs, u.line, u.line, FP_SCALE as int, e2);
                    }
                    assert forall|q: int| 0 <= q < segs.len() implies seg_fits(lines, (#[trigger] segs[q]).1) by {
                        if segs[q].0 != entity {
                            let r = choose|r: int| 0 <= r < moved.len() && moved[r] == segs[q];
                            assert(seg_fits(old_lines, old_segs[r].1));
                        }
                    }
                    assert forall|q1: int, q2: int| 0 <= q1 < q2 < segs.len() && (#[trigger] segs[q1]).1.line == (#[trigger] segs[q2]).1.line
                        implies segs[q1].1.offset != segs[q2].1.offset by {
                        if segs[q1].0 != entity && segs[q2].0 != entity {
                            let r1 = choose|r: int| 0 <= r < moved.len() && moved[r] == segs[q1];
                            let r2 = choose|r: int| 0 <= r < moved.len() && moved[r] == segs[q2];
                            assert(r1 != r2) by {
                                if r1 == r2 {
                                    assert(segs[q1].0 == segs[q2].0);
                                }
                            }
                            if r1 < r2 {
                                assert(old_segs[r1].1.line == old_segs[r2].1.line ==> old_segs[r1].1.offset != old_segs[r2].1.offset);
                            } else {
                                assert(old_segs[r2].1.line == old_segs[r1].1.line ==> old_segs[r2].1.offset != old_segs[r1].1.offset);
                            }
                        } else if segs[q1].0 == entity && segs[q2].0 == entity {
                        } else {
                            let other = if segs[q1].0 == entity { q2 } else { q1 };
                            let r = choose|r: int| 0 <= r < moved.len() && moved[r] == segs[other];
                            assert(seg_fits(old_lines, old_segs[r].1));
                        }
                    }
                    assert forall|q: int| 0 <= q < lines.len() implies ((#[trigger] lines[q]) matches Some(l) ==> items_sorted(l.items@) && l.length % FP_SCALE == 0) by {
                        if q == li {
                            assert forall|a: int, b: int| 0 <= a <= b < l1.items@.len() implies #[trigger] l1.items@[a].pos
                                <= #[trigger] l1.items@[b].pos by {
                                assert(l0.items@[a].pos <= l0.items@[b].pos);
                            }
                        } else {
                            assert(lines[q] == old_lines[q]);
                        }
                    }
                    assert forall|id: TransportLineId| id != u.line implies #[trigger] line_of(lines, id) == line_of(old_lines, id) by {}
                }
            },
            (None, Some(d)) => {
                let li = d.line.0 as usize;
                let mut line = self.lines[li].take().unwrap();
                let ghost l0 = line;
                proof {
                    assert(old_lines[li as int] == Some(l0));
                }
                let new_offset = line.length;
                line.length = line.length + FP_SCALE;
                let ghost l1 = line;
                proof {
                    lemma_total_len_update(old_lines, li as int, Some(l1));
                }
                self.lines.set(li, Some(line));
                assert(self.lines@ =~= old_lines.update(li as int, Some(l1)));
                self.put_segment(entity, BeltSegment { line: d.line, offset: new_offset });
                proof {
                    let lines = self.lines@;
                    let segs = self.segments@;
                    assert forall|q: int| 0 <= q < segs.len() implies seg_fits(lines, (#[trigger] segs[q]).1) by {
                        if segs[q].0 != entity {
                            let r = choose|r: int| 0 <= r < old_segs.len() && old_segs[r] == segs[q];
                            assert(seg_fits(old_lines, old_segs[r].1));
                        }
                    }
                    assert forall|q1: int, q2: int| 0 <= q1 < q2 < segs.len() && (#[trigger] segs[q1]).1.line == (#[trigger] segs[q2]).1.line
                        implies segs[q1].1.offset != segs[q2].1.offset by {
                        if segs[q1].0 != entity && segs[q2].0 != entity {
                            let r1 = choose|r: int| 0 <= r < old_segs.len() && old_segs[r] == segs[q1];
                            let r2 = choose|r: int| 0 <= r < old_segs.len() && old_segs[r] == segs[q2];
                            assert(r1 != r2) by {
                                if r1 == r2 {
                                    assert(segs[q1].0 == segs[q2].0);
                                }
                            }
                            if r1 < r2 {
                                assert(old_segs[r1].1.line == old_segs[r2].1.line ==> old_segs[r1].1.offset != old_segs[r2].1.offset);
                            } else {
                                assert(old_segs[r2].1.line == old_segs[r1].1.line ==> old_segs[r2].1.offset != old_segs[r1].1.offset);
                            }
                        } else if segs[q1].0 == entity && segs[q2].0 == entity {
                        } else {
                            let other = if segs[q1].0 == entity { q2 } else { q1 };
                            let r = choose|r: int| 0 <= r < old_segs.len() && old_segs[r] == segs[other];
                            assert(seg_fits(old_lines, old_segs[r].1));
                        }
                    }
                    assert forall|q: int| 0 <= q < lines.len() implies ((#[trigger] lines[q]) matches Some(l) ==> items_sorted(l.items@) && l.length % FP_SCALE == 0) by {
                        if q != li {
                            assert(lines[q] == old_lines[q]);
                        }
                    }
                    assert forall|id: TransportLineId| id != d.line implies #[trigger] line_of(lines, id) == line_of(old_lines, id) by {}
                }
            },
            (Some(u), Some(d)) => {
                if u.line == d.line {
                    self.join_fresh(entity);
                } else {
                    self.join_bridge(entity, u, d);
                }
            },
            (None, None) => {
                self.join_fresh(entity);
            },
        }
    }

    /// Put belt `entity` on a new line of its own.
    fn join_fresh(&mut self, entity: EntityId)
        requires
            old(self).wf(),
            old(self).lines@.len() < usize::MAX,
        ensures
            final(self).wf(),
            final(self).units() == old(self).units() + FP_SCALE,
            final(self).segment_of(entity) is Some,
            fresh_line_join(*final(self), *old(self), final(self).segment_of(entity)->0),
            forall|e2: EntityId| e2 != entity ==> #[trigger] final(self).segment_of(e2) == old(self).segment_of(e2),
    {
        let ghost old_lines = self.lines@;
        let ghost old_segs = self.segments@;
        let line = TransportLine::new(FP_SCALE);
        let id = self.push_line(line);
        proof {
            lemma_total_len_push(old_lines, Some(line));
        }
        self.put_segment(entity, BeltSegment { line: id, offset: 0 });
        proof {
            let lines = self.lines@;
            let segs = self.segments@;
            assert forall|q: int| 0 <= q < segs.len() implies seg_fits(lines, (#[trigger] segs[q]).1) by {
                if segs[q].0 != entity {
                    let r = choose|r: int| 0 <= r < old_segs.len() && old_segs[r] == segs[q];
                    assert(seg_fits(old_lines, old_segs[r].1));
                }
            }
            assert forall|q1: int, q2: int| 0 <= q1 < q2 < segs.len() && (#[trigger] segs[q1]).1.line == (#[trigger] segs[q2]).1.line
                implies segs[q1].1.offset != segs[q2].1.offset by {
                if segs[q1].0 != entity && segs[q2].0 != entity {
                    let r1 = choose|r: int| 0 <= r < old_segs.len() && old_segs[r] == segs[q1];
                    let r2 = choose|r: int| 0 <= r < old_segs.len() && old_segs[r] == segs[q2];
                    assert(r1 != r2) by {
                        if r1 == r2 {
                            assert(segs[q1].0 == segs[q2].0);
                        }
                    }
                    if r1 < r2 {
                        assert(old_segs[r1].1.line == old_segs[r2].1.line ==> old_segs[r1].1.offset != old_segs[r2].1.offset);
                    } else {
                        assert(old_segs[r2].1.line == old_segs[r1].1.line ==> old_segs[r2].1.offset != old_segs[r1].1.offset);
                    }
                } else if segs[q1].0 == entity && segs[q2].0 == entity {
                } else {
                    let other = if segs[q1].0 == entity { q2 } else { q1 };
                    let r = choose|r: int| 0 <= r < old_segs.len() && old_segs[r] == segs[other];
                    assert(seg_fits(old_lines, old_segs[r].1));
                }
            }
            assert forall|q: int| 0 <= q < lines.len() implies ((#[trigger] lines[q]) matches Some(l) ==> items_sorted(l.items@) && l.length % FP_SCALE == 0) by {
                if q < old_lines.len() {
                    assert(lines[q] == old_lines[q]);
                }
            }
            assert forall|id2: TransportLineId| id2 != id implies #[trigger] line_of(lines, id2) == line_of(old_lines, id2) by {}
        }
    }


    /// Bridge the line of `u` into the line of `d` with belt `entity` between them.
    #[verifier::rlimit(80)]
    #[verifier::spinoff_prover]
    fn join_bridge(&mut self, entity: EntityId, u: BeltSegment, d: BeltSegment)
        requires
            old(self).wf(),
            lines_capped(old(self).lines@),
            seg_fits(old(self).lines@, u),
            seg_fits(old(self).lines@, d),
            u.line != d.line,
        ensures
            final(self).wf(),
            final(self).units() == old(self).units() + FP_SCALE,
            is_join(*final(self), *old(self), entity, Some(u), Some(d)),
    {
        let ghost old_lines = self.lines@;
        let ghost old_segs = self.segments@;
        let nlines = self.lines.len();
        assert(u.line.0 < nlines && d.line.0 < nlines);
        assert(u.line.0 != d.line.0);
        let ui = u.line.0 as usize;
        let di = d.line.0 as usize;
        assert(ui != di && ui == u.line.0 && di == d.line.0);
        let ghost ul = old_lines[ui as int]->0;
        let ghost dl = old_lines[di as int]->0;
        let up_input_end = match &self.lines[ui] {
            Some(l) => l.input_end,
            None => BeltEnd::Open,
        };
        // The line that fed the upstream line now feeds the merged line.
        let ghost mut feeder: Option<TransportLineId> = None;
        match up_input_end {
            BeltEnd::Belt(f) => {
                match self.line_index(f) {
                    Some(fi) => {
                        self.set_output_end(fi, BeltEnd::Belt(d.line));
                        proof {
                            feeder = Some(f);
                        }
                    },
                    None => {},
                }
            },
            _ => {},
        }
        let ghost lines1 = self.lines@;
        proof {
            lemma_total_len_nonneg(lines1);
            lemma_slot_le_total(lines1, ui as int);
            lemma_slot_le_total(lines1, di as int);
            lemma_total_len_update(lines1, ui as int, None);
            lemma_slot_le_total(lines1.update(ui as int, None), di as int);
            assert(lines1.len() == old_lines.len());
            assert(lines1[ui as int] is Some && lines1[di as int] is Some);
        }
        let mut up_line = self.lines[ui].take().unwrap();
        assert(self.lines@ == lines1.update(ui as int, None));
        let mut down_line = self.lines[di].take().unwrap();
        let ghost ul1 = up_line;
        let ghost dl1 = down_line;
        proof {
            assert(lines1[ui as int] == Some(ul1));
            assert(lines1[di as int] == Some(dl1));
            assert(ul1.items@ == ul.items@ && ul1.length == ul.length && ul1.input_end == ul.input_end);
            assert(dl1.items@ == dl.items@ && dl1.length == dl.length);
            lemma_total_len_update(lines1, ui as int, None);
            lemma_total_len_update(lines1.update(ui as int, None), di as int, None);
            assert(total_len(lines1) == total_len(old_lines));
        }
        let down_len = down_line.length;
        let up_shift = down_len + FP_SCALE;
        proof {
            assert forall|q: int| 0 <= q < ul1.items@.len() implies #[trigger] ul1.items@[q].pos + up_shift <= u32::MAX by {
                assert(old_lines[ui as int]->0.items@[q].pos + (u32::MAX - LINE_CAP) <= u32::MAX);
            }
        }
        let n = up_line.items.len();
        let mut shifted: Vec<BeltItem> = Vec::new();
        let mut k: usize = 0;
        while k < n
            invariant
                n == ul1.items@.len(),
                k <= n,
                up_line == ul1,
                forall|q: int| 0 <= q < n ==> #[trigger] ul1.items@[q].pos + up_shift <= u32::MAX,
                shifted@ == shifted_items(ul1.items@, up_shift as int).subrange(0, k as int),
            decreases n - k,
        {
            let it = up_line.items[k];
            shifted.push(BeltItem { item: it.item, pos: it.pos + up_shift });
            proof {
                assert(shifted_items(ul1.items@, up_shift as int).subrange(0, k as int + 1) =~= shifted_items(ul1.items@, up_shift as int).subrange(0, k as int).push(BeltItem { item: it.item, pos: (it.pos + up_shift) as u32 }));
            }
            k = k + 1;
        }
        proof {
            assert(shifted_items(ul1.items@, up_shift as int).subrange(0, n as int) =~= shifted_items(ul1.items@, up_shift as int));
            let b = shifted@;
            assert(items_sorted(b)) by {
                assert forall|x: int, y: int| 0 <= x <= y < b.len() implies #[trigger] b[x].pos <= #[trigger] b[y].pos by {
                    assert(ul1.items@[x].pos <= ul1.items@[y].pos);
                }
            }
            assert forall|x: int| 0 <= x < dl1.items@.len() implies (#[trigger] dl1.items@[x]).pos >= 0u32 by {}
            assert forall|x: int| 0 <= x < b.len() implies (#[trigger] b[x]).pos >= 0u32 by {}
            lemma_merged_sorted(dl1.items@, b, 0);
        }
        down_line.items = merge_items(&down_line.items, &shifted);
        down_line.length = up_shift + up_line.length;
        down_line.input_end = up_line.input_end;
        let ghost dl2 = down_line;
        self.lines.set(di, Some(down_line));
        let ghost lines2 = self.lines@;
        proof {
            assert(lines2 =~= lines1.update(ui as int, None).update(di as int, Some(dl2)));
            lemma_total_len_update(lines1.update(ui as int, None), di as int, Some(dl2));
        }
        self.move_segments(u.line, d.line, up_shift);
        let ghost moved = self.segments@;
        self.put_segment(entity, BeltSegment { line: d.line, offset: down_len });
        proof {
            let lines = self.lines@;
            let segs = self.segments@;
            assert(lines == lines2);
            // Segments.
            assert forall|e2: EntityId| e2 != entity implies #[trigger] seg_of(segs, e2) == match seg_of(old_segs, e2) {
                Some(s) => Some(moved_seg(s, u.line, d.line, up_shift as int)),
                None => None,
            } by {
                lemma_seg_of_moved(moved, old_segs, u.line, d.line, up_shift as int, e2);
            }
            assert forall|q: int| 0 <= q < segs.len() implies seg_fits(lines, (#[trigger] segs[q]).1) by {
                if segs[q].0 != entity {
                    let r = choose|r: int| 0 <= r < moved.len() && moved[r] == segs[q];
                    assert(seg_fits(old_lines, old_segs[r].1));
                    let os = old_segs[r].1;
                    if os.line != u.line && os.line != d.line {
                        assert(lines[os.line.0 as int] == lines1[os.line.0 as int]);
                    }
                }
            }
            assert forall|q1: int, q2: int| 0 <= q1 < q2 < segs.len() && (#[trigger] segs[q1]).1.line == (#[trigger] segs[q2]).1.line
                implies segs[q1].1.offset != segs[q2].1.offset by {
                if segs[q1].0 != entity && segs[q2].0 != entity {
                    let r1 = choose|r: int| 0 <= r < moved.len() && moved[r] == segs[q1];
                    let r2 = choose|r: int| 0 <= r < moved.len() && moved[r] == segs[q2];
                    assert(r1 != r2) by {
                        if r1 == r2 {
                            assert(segs[q1].0 == segs[q2].0);
                        }
                    }
                    assert(seg_fits(old_lines, old_segs[r1].1));
                    assert(seg_fits(old_lines, old_segs[r2].1));
                    if r1 < r2 {
                        assert(old_segs[r1].1.line == old_segs[r2].1.line ==> old_segs[r1].1.offset != old_segs[r2].1.offset);
                    } else {
                        assert(old_segs[r2].1.line == old_segs[r1].1.line ==> old_segs[r2].1.offset != old_segs[r1].1.offset);
                    }
                } else if segs[q1].0 == entity && segs[q2].0 == entity {
                } else {
                    let other = if segs[q1].0 == entity { q2 } else { q1 };
                    let r = choose|r: int| 0 <= r < moved.len() && moved[r] == segs[other];
                    assert(seg_fits(old_lines, old_segs[r].1));
                }
            }
            assert forall|q: int| 0 <= q < lines.len() implies ((#[trigger] lines[q]) matches Some(l) ==> items_sorted(l.items@) && l.length % FP_SCALE == 0) by {
                if q == di {
                } else if q != ui {
                    assert(lines[q] == lines1[q]);
                }
            }
            assert(network_wf(lines, segs));
            // Lines.
            assert forall|id: TransportLineId| id != u.line && id != d.line implies #[trigger] line_of(lines, id) == if feeder
                == Some(id) {
                Some(with_output_end(line_of(old_lines, id)->0, BeltEnd::Belt(d.line)))
            } else {
                line_of(old_lines, id)
            } by {}
        }
    }

    /// Point the output end of the new belt's line at a perpendicular belt
    /// ahead of it, when the belt heads an open line.
    fn inject_forward(&mut self, entity: EntityId, tile: &[u8], gx: i32, gy: i32, direction: Direction, world: &WorldState)
        requires
            old(self).wf(),
            world.wf(),
            i32::MIN < gx < i32::MAX,
            i32::MIN < gy < i32::MAX,
        ensures
            final(self).wf(),
            inject_rel(*final(self), *old(self)),
            forward_target(*old(self), entity, tile@, gx, gy, direction, *world) matches Some((id, t))
                ==> final(self).line_at(id)->0.output_end == (BeltEnd::SideInject { entity: t }),
            forall|id: TransportLineId| #[trigger] final(self).line_at(id) != old(self).line_at(id)
                ==> (old(self).segment_of(entity) matches Some(sg) && id == sg.line),
            forall|id: TransportLineId| #[trigger] final(self).line_at(id) != old(self).line_at(id)
                ==> (forward_target(*old(self), entity, tile@, gx, gy, direction, *world) matches Some((f, t)) && f == id),
    {
        proof {
            assert(inject_rel(*self, *old(self)));
        }
        let (i, seg) = match self.locate(entity) {
            Some(x) => x,
            None => return,
        };
        if seg.offset != 0 {
            return;
        }
        proof {
            assert(old(self).segment_of(entity) == Some(seg));
        }
        let open = match &self.lines[i] {
            Some(l) => l.output_end == BeltEnd::Open,
            None => false,
        };
        let (dx, dy) = direction.grid_offset_i32();
        let ax = gx + dx;
        let ay = gy + dy;
        if !open || !is_within_tile(ax, ay) {
            return;
        }
        match find_any_belt_at(tile, (ax, ay), world) {
            Some((target, target_dir)) => {
                if is_perpendicular(direction, target_dir) {
                    self.set_output_end(i, BeltEnd::SideInject { entity: target });
                    proof {
                        assert forall|id: TransportLineId| id != seg.line implies #[trigger] self.line_at(id) == old(self).line_at(id) by {}
                    }
                }
            },
            None => {},
        }
    }

    /// Point the open output end of the belt next to `(gx, gy)` toward
    /// `adj`, when it aims at this cell perpendicular to `direction`, at the
    /// new belt `entity`.
    fn inject_reverse(
        &mut self,
        entity: EntityId,
        tile: &[u8],
        gx: i32,
        gy: i32,
        direction: Direction,
        adj: Direction,
        world: &WorldState,
    )
        requires
            old(self).wf(),
            world.wf(),
            i32::MIN < gx < i32::MAX,
            i32::MIN < gy < i32::MAX,
        ensures
            final(self).wf(),
            inject_rel(*final(self), *old(self)),
            reverse_target(*old(self), tile@, gx, gy, direction, adj, *world) matches Some(id)
                ==> final(self).line_at(id)->0.output_end == (BeltEnd::SideInject { entity }),
            forall|id: TransportLineId| #[trigger] final(self).line_at(id) == old(self).line_at(id)
                || final(self).line_at(id)->0.output_end == (BeltEnd::SideInject { entity }),
            forall|id: TransportLineId| #[trigger] final(self).line_at(id) != old(self).line_at(id)
                ==> reverse_target(*old(self), tile@, gx, gy, direction, adj, *world) == Some(id),
    {
        proof {
            assert(inject_rel(*self, *old(self)));
        }
        let (adj_dx, adj_dy) = adj.grid_offset_i32();
        let nx = gx + adj_dx;
        let ny = gy + adj_dy;
        if !is_within_tile(nx, ny) {
            return;
        }
        // A belt at (nx, ny) facing the opposite way has its output at (gx, gy).
        let required_dir = adj.opposite();
        if !is_perpendicular(required_dir, direction) {
            return;
        }
        let other = match find_belt_at(tile, (nx, ny), required_dir, world) {
            Some(o) => o,
            None => return,
        };
        let (oi, other_seg) = match self.locate(other) {
            Some(x) => x,
            None => return,
        };
        if other_seg.offset != 0 {
            return;
        }
        let open = match &self.lines[oi] {
            Some(l) => l.output_end == BeltEnd::Open,
            None => false,
        };
        if open {
            self.set_output_end(oi, BeltEnd::SideInject { entity });
            proof {
                assert forall|id: TransportLineId| id != other_seg.line implies #[trigger] self.line_at(id) == old(self).line_at(id) by {}
            }
        }
    }

    /// Room for one more belt: every line is within `LINE_CAP`, so that
    /// joining two lines and a belt fits a `u32` position, and the line table
    /// can grow.
    pub closed spec fn has_room(&self) -> bool {
        &&& lines_capped(self.lines@)
        &&& self.lines@.len() < usize::MAX
    }

    proof fn lemma_reverse_kept(a: BeltNetwork, mid: BeltNetwork, tile: Seq<u8>, gx: i32, gy: i32, direction: Direction, adj: Direction, world: WorldState)
        requires
            inject_rel(a, mid),
        ensures
            reverse_target(mid, tile, gx, gy, direction, adj, world) matches Some(id) ==> (reverse_target(
                a,
                tile,
                gx,
                gy,
                direction,
                adj,
                world,
            ) == Some(id) || a.line_at(id)->0.output_end is SideInject),
    {
    }

    /// Called after a belt entity is placed in the world.
    /// Merges consecutive same-direction segments within a tile into one line,
    /// and links perpendicular neighbours by side injection.
    #[verifier::rlimit(100)]
    #[verifier::spinoff_prover]
    pub fn on_belt_placed(
        &mut self,
        entity: EntityId,
        tile: &[u8],
        gx: i32,
        gy: i32,
        direction: Direction,
        world: &WorldState,
    )
        requires
            old(self).wf(),
            old(self).has_room(),
            world.wf(),
            i32::MIN < gx < i32::MAX,
            i32::MIN < gy < i32::MAX,
        ensures
            final(self).wf(),
            final(self).units() == old(self).units() + FP_SCALE,
            final(self).segment_of(entity) is Some,
            is_belt_placement(*final(self), *old(self), entity, tile@, gx, gy, direction, *world),
    {
        let (dx, dy) = direction.grid_offset_i32();

        // Find upstream (behind) and downstream (ahead) same-direction neighbors
        let behind = (gx - dx, gy - dy);
        let ahead = (gx + dx, gy + dy);

        let upstream_seg = if is_within_tile(behind.0, behind.1) {
            match find_belt_at(tile, behind, direction, world) {
                Some(e) => self.segment(e),
                None => None,
            }
        } else {
            None
        };
        let downstream_seg = if is_within_tile(ahead.0, ahead.1) {
            match find_belt_at(tile, ahead, direction, world) {
                Some(e) => self.segment(e),
                None => None,
            }
        } else {
            None
        };
        proof {
            if upstream_seg is Some {
                let k = choose|k: int| 0 <= k < self.segments@.len() && (#[trigger] self.segments@[k]).0
                    == belt_at(*world, tile@, behind, direction)->0;
                assert(seg_fits(self.lines@, self.segments@[k].1));
            }
            if downstream_seg is Some {
                let k = choose|k: int| 0 <= k < self.segments@.len() && (#[trigger] self.segments@[k]).0
                    == belt_at(*world, tile@, ahead, direction)->0;
                assert(seg_fits(self.lines@, self.segments@[k].1));
            }
        }
        self.join_segment(entity, upstream_seg, downstream_seg);
        let ghost mid = *self;

        // Perpendicular side-inject links.
        self.inject_forward(entity, tile, gx, gy, direction, world);
        let ghost s1 = *self;
        self.inject_reverse(entity, tile, gx, gy, direction, Direction::North, world);
        let ghost s2 = *self;
        self.inject_reverse(entity, tile, gx, gy, direction, Direction::East, world);
        let ghost s3 = *self;
        self.inject_reverse(entity, tile, gx, gy, direction, Direction::South, world);
        let ghost s4 = *self;
        self.inject_reverse(entity, tile, gx, gy, direction, Direction::West, world);
        proof {
            assert(upstream_seg == neighbour_seg(*old(self), *world, tile@, behind_cell(gx, gy, direction), direction));
            assert(downstream_seg == neighbour_seg(*old(self), *world, tile@, step_cell(gx, gy, direction), direction));
            lemma_placement_complete(*old(self), mid, s1, s2, s3, s4, *self, entity, tile@, gx, gy, direction, *world);
        }
    }

    /// The items of each line slot, front to back.
    pub closed spec fn items_view(&self) -> Seq<Seq<BeltItem>> {
        line_items(self.lines@)
    }

    /// The length, speed and ends of each line slot.
    pub closed spec fn meta_view(&self) -> Seq<Option<LineMeta>> {
        line_meta(self.lines@)
    }

    /// The segment of each belt, as a function.
    pub closed spec fn seg_fn(&self) -> spec_fn(EntityId) -> Option<BeltSegment> {
        |e: EntityId| seg_of(self.segments@, e)
    }

    /// The number of items on all lines.
    pub closed spec fn item_count(&self) -> int {
        total_items(self.lines@)
    }

    /// Line slots as they are, up to their items.
    pub closed spec fn same_shape(&self, other: BeltNetwork) -> bool {
        same_lines_but_items(self.lines@, other.lines@)
    }

    /// Take the front item off line slot `si` and put it at the input end of
    /// line slot `ti`.
    fn move_front_to_input(&mut self, si: usize, ti: usize)
        requires
            old(self).wf(),
            si < old(self).lines@.len(),
            ti < old(self).lines@.len(),
            old(self).lines@[si as int] matches Some(l) && l.items@.len() > 0,
            old(self).lines@[ti as int] matches Some(l) && forall|k: int| 0 <= k < l.items@.len() ==> (#[trigger] l.items@[k]).pos <= l.length,
        ensures
            final(self).wf(),
            final(self).units() == old(self).units(),
            final(self).segments@ == old(self).segments@,
            same_lines_but_items(final(self).lines@, old(self).lines@),
            total_items(final(self).lines@) == total_items(old(self).lines@),
            forall|k: int| 0 <= k < old(self).lines@.len() && k != si && k != ti ==> #[trigger] final(self).lines@[k] == old(self).lines@[k],
            final(self).lines@[ti as int] matches Some(l) && forall|k: int| 0 <= k < l.items@.len() ==> (#[trigger] l.items@[k]).pos <= l.length,
            si != ti ==> final(self).lines@[si as int]->0.items@ == old(self).lines@[si as int]->0.items@.subrange(1, old(self).lines@[si as int]->0.items@.len() as int),
            si != ti ==> final(self).lines@[si as int]->0.length == old(self).lines@[si as int]->0.length,
            si != ti ==> final(self).lines@[si as int]->0.items@.len() + 1 == old(self).lines@[si as int]->0.items@.len(),
            si != ti ==> final(self).lines@[ti as int]->0.items@.len() == old(self).lines@[ti as int]->0.items@.len() + 1,
            si == ti ==> final(self).lines@[si as int]->0.items@.len() == old(self).lines@[si as int]->0.items@.len(),
            line_items(final(self).lines@) == moved_to_input(
                line_items(old(self).lines@),
                si as int,
                ti as int,
                old(self).lines@[ti as int]->0.length,
            ),
    {
        let ghost l0 = self.lines@;
        let mut src = self.lines[si].take().unwrap();
        proof {
            assert(l0[si as int] == Some(src));
            lemma_sorted_drop_first(src.items@);
            lemma_total_items_update(l0, si as int, Some(src));
        }
        let front = src.items.remove(0);
        proof {
            assert(src.items@ =~= l0[si as int]->0.items@.subrange(1, l0[si as int]->0.items@.len() as int));
            lemma_replace_line_wf(l0, self.segments@, si as int, src);
            lemma_total_items_update(l0, si as int, Some(src));
            if si == ti {
                assert forall|k: int| 0 <= k < src.items@.len() implies (#[trigger] src.items@[k]).pos <= src.length by {
                    assert(src.items@[k] == l0[si as int]->0.items@[k + 1]);
                }
            }
        }
        self.lines.set(si, Some(src));
        let ghost l1 = self.lines@;
        assert(l1 =~= l0.update(si as int, Some(src)));
        let mut tgt = self.lines[ti].take().unwrap();
        proof {
            assert(l1[ti as int] == Some(tgt));
            lemma_sorted_push_max(tgt.items@, BeltItem { item: front.item, pos: tgt.length });
        }
        tgt.insert_at_input(front.item);
        proof {
            lemma_replace_line_wf(l1, self.segments@, ti as int, tgt);
            lemma_total_items_update(l1, ti as int, Some(tgt));
        }
        self.lines.set(ti, Some(tgt));
        assert(self.lines@ =~= l1.update(ti as int, Some(tgt)));
        proof {
            let o = line_items(l0);
            let a = o.update(si as int, o[si as int].drop_first());
            assert(line_items(l1) =~= a);
            assert(line_items(self.lines@) =~= moved_to_input(o, si as int, ti as int, l0[ti as int]->0.length));
        }
    }

    /// Take the front item off line slot `si` and side-inject it into line
    /// slot `ti` at `offset`.
    fn move_front_to_offset(&mut self, si: usize, ti: usize, offset: u32)
        requires
            old(self).wf(),
            si < old(self).lines@.len(),
            ti < old(self).lines@.len(),
            old(self).lines@[si as int] matches Some(l) && l.items@.len() > 0,
            old(self).lines@[ti as int] is Some,
        ensures
            final(self).wf(),
            final(self).units() == old(self).units(),
            final(self).segments@ == old(self).segments@,
            same_lines_but_items(final(self).lines@, old(self).lines@),
            total_items(final(self).lines@) == total_items(old(self).lines@),
            forall|k: int| 0 <= k < old(self).lines@.len() && k != si && k != ti ==> #[trigger] final(self).lines@[k] == old(self).lines@[k],
            si != ti ==> final(self).lines@[si as int]->0.items@.len() + 1 == old(self).lines@[si as int]->0.items@.len(),
            si != ti ==> final(self).lines@[ti as int]->0.items@.len() == old(self).lines@[ti as int]->0.items@.len() + 1,
            si == ti ==> final(self).lines@[si as int]->0.items@.len() == old(self).lines@[si as int]->0.items@.len(),
            line_items(final(self).lines@) == moved_to_offset(line_items(old(self).lines@), si as int, ti as int, offset),
    {
        let ghost l0 = self.lines@;
        let mut src = self.lines[si].take().unwrap();
        proof {
            assert(l0[si as int] == Some(src));
            lemma_sorted_drop_first(src.items@);
        }
        let front = src.items.remove(0);
        proof {
            assert(src.items@ =~= l0[si as int]->0.items@.subrange(1, l0[si as int]->0.items@.len() as int));
            lemma_replace_line_wf(l0, self.segments@, si as int, src);
            lemma_total_items_update(l0, si as int, Some(src));
        }
        self.lines.set(si, Some(src));
        let ghost l1 = self.lines@;
        assert(l1 =~= l0.update(si as int, Some(src)));
        let mut tgt = self.lines[ti].take().unwrap();
        proof {
            assert(l1[ti as int] == Some(tgt));
            lemma_split_at_count(tgt.items@, offset);
        }
        tgt.insert_at_offset(front.item, offset);
        proof {
            lemma_replace_line_wf(l1, self.segments@, ti as int, tgt);
            lemma_total_items_update(l1, ti as int, Some(tgt));
        }
        self.lines.set(ti, Some(tgt));
        assert(self.lines@ =~= l1.update(ti as int, Some(tgt)));
        proof {
            let o = line_items(l0);
            let a = o.update(si as int, o[si as int].drop_first());
            assert(line_items(l1) =~= a);
            assert(line_items(self.lines@) =~= moved_to_offset(o, si as int, ti as int, offset));
        }
    }

    /// Run one simulation tick for all transport lines: items at an output
    /// end move onto the linked line (at its input end, or side-injected at
    /// the target segment's center) where there is room, then every line
    /// advances. No item is made or lost.
    pub fn tick(&mut self)
        requires
            old(self).wf(),
        ensures
            final(self).wf(),
            final(self).units() == old(self).units(),
            forall|e: EntityId| #[trigger] final(self).segment_of(e) == old(self).segment_of(e),
            final(self).same_shape(*old(self)),
            final(self).item_count() == old(self).item_count(),
            final(self).items_view() == tick_items(old(self).items_view(), old(self).meta_view(), old(self).seg_fn()),
    {
        let ghost its0 = line_items(self.lines@);
        let ghost meta0 = line_meta(self.lines@);
        let ghost sf = self.seg_fn();
        let n = self.lines.len();
        // Phase 1: decide the transfers at output ends from the current state.
        let mut transfers: Vec<(usize, usize)> = Vec::new();
        let mut side_injects: Vec<(usize, usize, u32)> = Vec::new();
        let mut k: usize = 0;
        while k < n
            invariant
                self.wf(),
                n == self.lines@.len(),
                k <= n,
                forall|q: int| 0 <= q < transfers@.len() ==> {
                    let (si, ti) = #[trigger] transfers@[q];
                    &&& si < k && ti < n
                    &&& self.lines@[si as int] matches Some(l) && l.items@.len() > 0
                    &&& self.lines@[ti as int] matches Some(l) && input_has_room(l.items@, l.length)
                },
                forall|q: int| 0 <= q < side_injects@.len() ==> {
                    let (si, ti, off) = #[trigger] side_injects@[q];
                    &&& si < k && ti < n
                    &&& self.lines@[si as int] matches Some(l) && l.items@.len() > 0
                    &&& self.lines@[ti as int] is Some
                },
                forall|q1: int, q2: int| 0 <= q1 < q2 < transfers@.len() ==> #[trigger] transfers@[q1].0 < #[trigger] transfers@[q2].0,
                forall|q1: int, q2: int| 0 <= q1 < q2 < side_injects@.len() ==> #[trigger] side_injects@[q1].0 < #[trigger] side_injects@[q2].0,
                forall|q1: int, q2: int| 0 <= q1 < transfers@.len() && 0 <= q2 < side_injects@.len() ==> #[trigger] transfers@[q1].0 != #[trigger] side_injects@[q2].0,
                *self == *old(self),
                its0 == line_items(self.lines@),
                meta0 == line_meta(self.lines@),
                sf == self.seg_fn(),
                transfers@ == input_plan(its0, meta0, k as int),
                side_injects@ == inject_plan(its0, meta0, sf, k as int),
            decreases n - k,
        {
            let ghost tr0 = transfers@;
            let ghost si0 = side_injects@;
            proof {
                assert(its0[k as int] == match self.lines@[k as int] {
                    Some(t) => t.items@,
                    None => Seq::<BeltItem>::empty(),
                });
                assert(meta0[k as int] == match self.lines@[k as int] {
                    Some(t) => Some((t.length, t.speed, t.input_end, t.output_end)),
                    None => None,
                });
                assert forall|q: int| 0 <= q < n implies #[trigger] its0[q] == match self.lines@[q] {
                    Some(t) => t.items@,
                    None => Seq::<BeltItem>::empty(),
                } && meta0[q] == match self.lines@[q] {
                    Some(t) => Some((t.length, t.speed, t.input_end, t.output_end)),
                    None => None::<LineMeta>,
                } by {}
            }
            let front_ready = match &self.lines[k] {
                Some(l) => l.items.len() > 0 && l.items[0].pos == 0,
                None => false,
            };
            if front_ready {
                let out_end = match &self.lines[k] {
                    Some(l) => l.output_end,
                    None => BeltEnd::Open,
                };
                match out_end {
                    BeltEnd::Belt(target_id) => {
                        match self.line_index(target_id) {
                            Some(ti) => {
                                let room = match &self.lines[ti] {
                                    Some(t) => t.can_accept_at_input(),
                                    None => false,
                                };
                                if room {
                                    transfers.push((k, ti));
                                }
                            },
                            None => {},
                        }
                    },
                    BeltEnd::SideInject { entity: target_entity } => {
                        match self.segment(target_entity) {
                            Some(target_seg) => {
                                proof {
                                    let w = choose|w: int| 0 <= w < self.segments@.len() && (#[trigger] self.segments@[w]).0 == target_entity;
                                    assert(seg_fits(self.lines@, self.segments@[w].1));
                                }
                                let inject_offset = target_seg.offset + FP_SCALE / 2;
                                match self.line_index(target_seg.line) {
                                    Some(tli) => {
                                        let room = match &self.lines[tli] {
                                            Some(t) => t.can_accept_at_offset(inject_offset),
                                            None => false,
                                        };
                                        if room {
                                            side_injects.push((k, tli, inject_offset));
                                        }
                                    },
                                    None => {},
                                }
                            },
                            None => {},
                        }
                    },
                    _ => {},
                }
            }
            proof {
                let pi = planned_input(its0, meta0, k as int);
                let pj = planned_inject(its0, meta0, sf, k as int);
                if pi is Some {
                    assert(pj is None);
                }
                assert(transfers@ =~= match pi {
                    Some(t) => tr0.push((k, t)),
                    None => tr0,
                });
                assert(side_injects@ =~= match pj {
                    Some((t, off)) => si0.push((k, t, off)),
                    None => si0,
                });
            }
            k = k + 1;
        }
        let ghost pre = self.lines@;
        let ghost pre_segs = self.segments@;
        // Apply the transfers onto input ends.
        let mut j: usize = 0;
        while j < transfers.len()
            invariant
                self.wf(),
                n == self.lines@.len(),
                n == pre.len(),
                j <= transfers@.len(),
                self.segments@ == pre_segs,
                self.units() == total_len(pre),
                same_lines_but_items(self.lines@, pre),
                total_items(self.lines@) == total_items(pre),
                forall|q: int| 0 <= q < transfers@.len() ==> {
                    let (si, ti) = #[trigger] transfers@[q];
                    &&& si < n && ti < n
                    &&& pre[si as int] matches Some(l) && l.items@.len() > 0
                    &&& pre[ti as int] matches Some(l) && input_has_room(l.items@, l.length)
                },
                forall|q: int| 0 <= q < side_injects@.len() ==> {
                    let (si, ti, off) = #[trigger] side_injects@[q];
                    &&& si < n && ti < n
                    &&& pre[si as int] matches Some(l) && l.items@.len() > 0
                    &&& pre[ti as int] is Some
                },
                forall|q1: int, q2: int| 0 <= q1 < q2 < transfers@.len() ==> #[trigger] transfers@[q1].0 < #[trigger] transfers@[q2].0,
                forall|q1: int, q2: int| 0 <= q1 < transfers@.len() && 0 <= q2 < side_injects@.len() ==> #[trigger] transfers@[q1].0 != #[trigger] side_injects@[q2].0,
                // Pending sources still hold their front item.
                forall|q: int| j <= q < transfers@.len() ==> (#[trigger] self.lines@[transfers@[q].0 as int])->0.items@.len() >= pre[transfers@[q].0 as int]->0.items@.len(),
                forall|q: int| 0 <= q < side_injects@.len() ==> (#[trigger] self.lines@[side_injects@[q].0 as int])->0.items@.len() >= pre[side_injects@[q].0 as int]->0.items@.len(),
                // Targets of transfers keep every item within the line.
                forall|q: int| 0 <= q < transfers@.len() ==> line_within(self.lines@[(#[trigger] transfers@[q]).1 as int]),
                meta0 == line_meta(pre),
                line_items(self.lines@) == apply_inputs(its0, meta0, transfers@.take(j as int)),
            decreases transfers@.len() - j,
        {
            let (si, ti) = transfers[j];
            proof {
                assert(transfers@.take(j + 1).drop_last() =~= transfers@.take(j as int));
                assert(transfers@.take(j + 1).last() == transfers@[j as int]);
                assert(meta0[ti as int] == match pre[ti as int] {
                    Some(t) => Some((t.length, t.speed, t.input_end, t.output_end)),
                    None => None::<LineMeta>,
                });
                assert(self.lines@[ti as int]->0.length == pre[ti as int]->0.length);
            }
            proof {
                assert(line_within(self.lines@[transfers@[j as int].1 as int]));
            }
            let ghost before = self.lines@;
            self.move_front_to_input(si, ti);
            proof {
                assert forall|q: int| j + 1 <= q < transfers@.len() implies (#[trigger] self.lines@[transfers@[q].0 as int])->0.items@.len()
                    >= pre[transfers@[q].0 as int]->0.items@.len() by {
                    let s2 = transfers@[q].0;
                    assert(transfers@[j as int].0 < s2);
                }
                assert forall|q: int| 0 <= q < side_injects@.len() implies (#[trigger] self.lines@[side_injects@[q].0 as int])->0.items@.len()
                    >= pre[side_injects@[q].0 as int]->0.items@.len() by {
                    assert(transfers@[j as int].0 != side_injects@[q].0);
                }
                assert forall|q: int| 0 <= q < transfers@.len() implies line_within(self.lines@[(#[trigger] transfers@[q]).1 as int]) by {
                    let t2 = transfers@[q].1;
                    if t2 != ti && t2 != si {
                        assert(self.lines@[t2 as int] == before[t2 as int]);
                    } else if t2 == si && si != ti {
                        let bl = before[si as int]->0;
                        let al = self.lines@[si as int]->0;
                        assert(forall|x: int| 0 <= x < bl.items@.len() ==> (#[trigger] bl.items@[x]).pos <= bl.length);
                        assert forall|x: int| 0 <= x < al.items@.len() implies (#[trigger] al.items@[x]).pos <= al.length by {
                            assert(al.items@[x] == bl.items@[x + 1]);
                        }
                    }
                }
            }
            j = j + 1;
        }
        proof {
            assert(transfers@.take(transfers@.len() as int) =~= transfers@);
        }
        let ghost mid_its = apply_inputs(its0, meta0, transfers@);
        // Apply the side injections.
        let mut j: usize = 0;
        while j < side_injects.len()
            invariant
                self.wf(),
                n == self.lines@.len(),
                n == pre.len(),
                j <= side_injects@.len(),
                self.segments@ == pre_segs,
                self.units() == total_len(pre),
                same_lines_but_items(self.lines@, pre),
                total_items(self.lines@) == total_items(pre),
                forall|q: int| 0 <= q < side_injects@.len() ==> {
                    let (si, ti, off) = #[trigger] side_injects@[q];
                    &&& si < n && ti < n
                    &&& pre[si as int] matches Some(l) && l.items@.len() > 0
                    &&& pre[ti as int] is Some
                },
                forall|q1: int, q2: int| 0 <= q1 < q2 < side_injects@.len() ==> #[trigger] side_injects@[q1].0 < #[trigger] side_injects@[q2].0,
                forall|q: int| j <= q < side_injects@.len() ==> (#[trigger] self.lines@[side_injects@[q].0 as int])->0.items@.len() >= pre[side_injects@[q].0 as int]->0.items@.len(),
                meta0 == line_meta(pre),
                line_items(self.lines@) == apply_injects(mid_its, side_injects@.take(j as int)),
            decreases side_injects@.len() - j,
        {
            let (si, ti, offset) = side_injects[j];
            proof {
                assert(side_injects@.take(j + 1).drop_last() =~= side_injects@.take(j as int));
                assert(side_injects@.take(j + 1).last() == side_injects@[j as int]);
            }
            self.move_front_to_offset(si, ti, offset);
            proof {
                assert forall|q: int| j + 1 <= q < side_injects@.len() implies (#[trigger] self.lines@[side_injects@[q].0 as int])->0.items@.len()
                    >= pre[side_injects@[q].0 as int]->0.items@.len() by {
                    assert(side_injects@[j as int].0 < side_injects@[q].0);
                }
            }
            j = j + 1;
        }
        proof {
            assert(side_injects@.take(side_injects@.len() as int) =~= side_injects@);
        }
        let ghost a = apply_injects(mid_its, side_injects@);
        // Phase 2: Advance all items toward output.
        let mut k: usize = 0;
        while k < n
            invariant
                self.wf(),
                n == self.lines@.len(),
                n == pre.len(),
                k <= n,
                meta0 == line_meta(pre),
                line_items(self.lines@).len() == n,
                forall|q: int| 0 <= q < k ==> #[trigger] line_items(self.lines@)[q] == match meta0[q] {
                    Some(m) => advanced_items(a[q], m.1 as u32),
                    None => a[q],
                },
                forall|q: int| k <= q < n ==> #[trigger] line_items(self.lines@)[q] == a[q],
                self.segments@ == pre_segs,
                self.units() == total_len(pre),
                same_lines_but_items(self.lines@, pre),
                total_items(self.lines@) == total_items(pre),
            decreases n - k,
        {
            if self.lines[k].is_some() {
                let ghost l0 = self.lines@;
                let mut line = self.lines[k].take().unwrap();
                proof {
                    assert(l0[k as int] == Some(line));
                }
                line.advance();
                proof {
                    assert forall|i: int| 1 <= i < line.items@.len() implies #[trigger] line.items@[i].pos >= line.items@[i - 1].pos by {
                        lemma_advance_spaces_items(l0[k as int]->0.items@, l0[k as int]->0.speed as u32, i as nat);
                    }
                    lemma_adjacent_sorted(line.items@);
                    lemma_replace_line_wf(l0, self.segments@, k as int, line);
                    lemma_total_items_update(l0, k as int, Some(line));
                }
                self.lines.set(k, Some(line));
                assert(self.lines@ =~= l0.update(k as int, Some(line)));
                proof {
                    assert(line_items(l0)[k as int] == a[k as int]);
                    assert(meta0[k as int] == match pre[k as int] {
                        Some(t) => Some((t.length, t.speed, t.input_end, t.output_end)),
                        None => None::<LineMeta>,
                    });
                    assert(line.items@ =~= advanced_items(l0[k as int]->0.items@, l0[k as int]->0.speed as u32));
                    assert forall|q: int| 0 <= q < n && q != k implies #[trigger] line_items(self.lines@)[q] == line_items(l0)[q] by {}
                    assert(line_items(self.lines@)[k as int] == line.items@);
                }
            } else {
                proof {
                    assert(meta0[k as int] == match pre[k as int] {
                        Some(t) => Some((t.length, t.speed, t.input_end, t.output_end)),
                        None => None::<LineMeta>,
                    });
                    assert(pre[k as int] is None);
                }
            }
            k = k + 1;
        }
        proof {
            assert forall|e: EntityId| #[trigger] self.segment_of(e) == old(self).segment_of(e) by {}
            assert(line_items(self.lines@) =~= tick_items(its0, meta0, sf));
        }
    }

    /// Drop every side injection onto belt `entity`.
    fn clear_side_injects(&mut self, entity: EntityId)
        requires
            old(self).wf(),
        ensures
            final(self).wf(),
            final(self).units() == old(self).units(),
            final(self).segments@ == old(self).segments@,
            final(self).lines@.len() == old(self).lines@.len(),
            forall|id: TransportLineId| #[trigger] final(self).line_at(id) == cleared_line(*old(self), id, entity),
    {
        let n = self.lines.len();
        let mut k: usize = 0;
        while k < n
            invariant
                self.wf(),
                n == self.lines@.len(),
                n == old(self).lines@.len(),
                k <= n,
                self.segments@ == old(self).segments@,
                self.units() == old(self).units(),
                forall|q: int| 0 <= q < k ==> #[trigger] self.lines@[q] == match old(self).lines@[q] {
                    Some(l) => Some(with_output_end(l, without_inject(l.output_end, entity))),
                    None => None,
                },
                forall|q: int| k <= q < n ==> #[trigger] self.lines@[q] == old(self).lines@[q],
            decreases n - k,
        {
            let out_end = match &self.lines[k] {
                Some(l) => Some(l.output_end),
                None => None,
            };
            match out_end {
                Some(end) => {
                    let new_end = match end {
                        BeltEnd::SideInject { entity: target } => if target == entity { BeltEnd::Open } else { end },
                        _ => end,
                    };
                    self.set_output_end(k, new_end);
                },
                None => {},
            }
            k = k + 1;
        }
    }

    /// Take belt `e`'s segment out of the table.
    fn take_segment(&mut self, e: EntityId) -> (r: Option<BeltSegment>)
        requires
            old(self).wf(),
        ensures
            final(self).wf(),
            final(self).units() == old(self).units(),
            final(self).lines@ == old(self).lines@,
            r == old(self).segment_of(e),
            final(self).segment_of(e) is None,
            forall|e2: EntityId| e2 != e ==> #[trigger] final(self).segment_of(e2) == old(self).segment_of(e2),
    {
        let k = match self.seg_index(e) {
            Some(k) => k,
            None => return None,
        };
        let ghost old_segs = self.segments@;
        let (_, seg) = self.segments.remove(k);
        proof {
            let segs = self.segments@;
            let mapk = |q: int| if q < k { q } else { q + 1 };
            assert forall|q: int| 0 <= q < segs.len() implies segs[q] == old_segs[mapk(q)] by {}
            assert(seg_keys_unique(segs)) by {
                assert forall|i: int, j: int| 0 <= i < j < segs.len() implies #[trigger] segs[i].0 != #[trigger] segs[j].0 by {
                    assert(segs[i] == old_segs[mapk(i)] && segs[j] == old_segs[mapk(j)]);
                }
            }
            assert forall|q: int| 0 <= q < segs.len() implies seg_fits(self.lines@, (#[trigger] segs[q]).1) by {
                assert(segs[q] == old_segs[mapk(q)]);
            }
            assert forall|i: int, j: int| 0 <= i < j < segs.len() && (#[trigger] segs[i]).1.line == (#[trigger] segs[j]).1.line
                implies segs[i].1.offset != segs[j].1.offset by {
                assert(segs[i] == old_segs[mapk(i)] && segs[j] == old_segs[mapk(j)]);
            }
            assert forall|i: int| 0 <= i < segs.len() implies (#[trigger] segs[i]).0 != e by {
                assert(segs[i] == old_segs[mapk(i)]);
                assert(old_segs[mapk(i)].0 != old_segs[k as int].0);
            }
            assert forall|e2: EntityId| e2 != e implies #[trigger] seg_of(segs, e2) == seg_of(old_segs, e2) by {
                if exists|i: int| 0 <= i < old_segs.len() && (#[trigger] old_segs[i]).0 == e2 {
                    let i = choose|i: int| 0 <= i < old_segs.len() && (#[trigger] old_segs[i]).0 == e2;
                    lemma_seg_at(old_segs, i);
                    let ni = if i < k { i } else { i - 1 };
                    assert(i != k);
                    assert(segs[ni] == old_segs[i]);
                    lemma_seg_at(segs, ni);
                } else {
                    assert forall|i: int| 0 <= i < segs.len() implies (#[trigger] segs[i]).0 != e2 by {
                        assert(segs[i] == old_segs[mapk(i)]);
                    }
                }
            }
        }
        Some(seg)
    }

    /// Move the segments of line `from` at or beyond `threshold` onto line
    /// `to`, `sub` closer to the output end.
    fn move_segments_down(&mut self, from: TransportLineId, to: TransportLineId, threshold: u32, sub: u32)
        requires
            sub <= threshold,
        ensures
            final(self).lines@ == old(self).lines@,
            final(self).segments@.len() == old(self).segments@.len(),
            forall|k: int|
                0 <= k < old(self).segments@.len() ==> (#[trigger] final(self).segments@[k]).0 == old(
                    self,
                ).segments@[k].0 && final(self).segments@[k].1 == moved_down(old(self).segments@[k].1, from, to, threshold, sub),
    {
        let n = self.segments.len();
        let mut k: usize = 0;
        while k < n
            invariant
                sub <= threshold,
                n == self.segments@.len(),
                n == old(self).segments@.len(),
                k <= n,
                self.lines@ == old(self).lines@,
                forall|q: int|
                    0 <= q < k ==> (#[trigger] self.segments@[q]).0 == old(self).segments@[q].0 && self.segments@[q].1
                        == moved_down(old(self).segments@[q].1, from, to, threshold, sub),
                forall|q: int| k <= q < n ==> #[trigger] self.segments@[q] == old(self).segments@[q],
            decreases n - k,
        {
            let (e, seg) = self.segments[k];
            if seg.line == from && seg.offset >= threshold {
                self.segments.set(k, (e, BeltSegment { line: to, offset: seg.offset - sub }));
            }
            k = k + 1;
        }
    }

    /// Drop the line of detached segment `s`, its only segment, and unlink
    /// the lines it was linked with.
    fn drop_single_line(&mut self, s: BeltSegment)
        requires
            detached(old(self).lines@, old(self).segments@, s),
            old(self).line_at(s.line)->0.length == FP_SCALE,
        ensures
            final(self).wf(),
            final(self).units() == old(self).units() - FP_SCALE,
            final(self).segments@ == old(self).segments@,
            final(self).line_at(s.line) is None,
            ({
                let l = old(self).line_at(s.line)->0;
                forall|id: TransportLineId| id != s.line ==> #[trigger] final(self).line_at(id) == match old(self).line_at(id) {
                    Some(o) => Some(with_input_end(
                        with_output_end(o, if l.input_end == BeltEnd::Belt(id) && o.output_end == BeltEnd::Belt(s.line) {
                            BeltEnd::Open
                        } else {
                            o.output_end
                        }),
                        if l.output_end == BeltEnd::Belt(id) && o.input_end == BeltEnd::Belt(s.line) {
                            BeltEnd::Open
                        } else {
                            o.input_end
                        },
                    )),
                    None => None,
                }
            }),
    {
        let nlines = self.lines.len();
        assert(s.line.0 < nlines);
        let li = s.line.0 as usize;
        let ghost l0 = self.lines@;
        let line = self.lines[li].take().unwrap();
        let input_end = line.input_end;
        let output_end = line.output_end;
        proof {
            assert(l0[li as int] == Some(line));
            lemma_total_len_update(l0, li as int, None);
            assert forall|k: int| 0 <= k < self.segments@.len() implies (#[trigger] self.segments@[k]).1.line != s.line by {
                assert(seg_fits(l0, self.segments@[k].1));
            }
            assert forall|q: int| 0 <= q < self.segments@.len() implies seg_fits(self.lines@, (#[trigger] self.segments@[q]).1) by {
                assert(seg_fits(l0, self.segments@[q].1));
            }
            assert forall|q: int| 0 <= q < self.lines@.len() implies ((#[trigger] self.lines@[q]) matches Some(l) ==> items_sorted(l.items@)
                && l.length % FP_SCALE == 0) by {
                if q != li {
                    assert(self.lines@[q] == l0[q]);
                }
            }
        }
        let ghost l1 = self.lines@;
        match output_end {
            BeltEnd::Belt(other_id) => {
                match self.line_index(other_id) {
                    Some(oi) => {
                        let other_in = match &self.lines[oi] {
                            Some(o) => o.input_end,
                            None => BeltEnd::Open,
                        };
                        if other_in == BeltEnd::Belt(s.line) {
                            self.set_input_end(oi, BeltEnd::Open);
                        }
                    },
                    None => {},
                }
            },
            _ => {},
        }
        let ghost l2 = self.lines@;
        match input_end {
            BeltEnd::Belt(other_id) => {
                match self.line_index(other_id) {
                    Some(oi) => {
                        let other_out = match &self.lines[oi] {
                            Some(o) => o.output_end,
                            None => BeltEnd::Open,
                        };
                        if other_out == BeltEnd::Belt(s.line) {
                            self.set_output_end(oi, BeltEnd::Open);
                        }
                    },
                    None => {},
                }
            },
            _ => {},
        }
        proof {
            let l = line;
            assert forall|id: TransportLineId| id != s.line implies #[trigger] self.line_at(id) == match old(self).line_at(id) {
                Some(o) => Some(with_input_end(
                    with_output_end(o, if l.input_end == BeltEnd::Belt(id) && o.output_end == BeltEnd::Belt(s.line) {
                        BeltEnd::Open
                    } else {
                        o.output_end
                    }),
                    if l.output_end == BeltEnd::Belt(id) && o.input_end == BeltEnd::Belt(s.line) {
                        BeltEnd::Open
                    } else {
                        o.input_end
                    },
                )),
                None => None,
            } by {
                assert(line_of(l1, id) == line_of(l0, id));
            }
        }
    }

    /// Remove detached segment `s`, which heads its line, by shortening the
    /// line at its output end.
    fn drop_output_segment(&mut self, s: BeltSegment)
        requires
            detached(old(self).lines@, old(self).segments@, s),
            s.offset == 0,
            old(self).line_at(s.line)->0.length > FP_SCALE,
        ensures
            final(self).wf(),
            final(self).units() == old(self).units() - FP_SCALE,
            ({
                let l = old(self).line_at(s.line)->0;
                final(self).line_at(s.line) matches Some(a) && a.items@ == items_from(l.items@, FP_SCALE) && a.length
                    == l.length - FP_SCALE && a.speed == l.speed && a.input_end == l.input_end && a.output_end == (
                if l.output_end is SideInject || l.output_end is Splitter {
                    BeltEnd::Open
                } else {
                    l.output_end
                })
            }),
            forall|id: TransportLineId| id != s.line ==> #[trigger] final(self).line_at(id) == old(self).line_at(id),
            forall|e2: EntityId| #[trigger] final(self).segment_of(e2) == match old(self).segment_of(e2) {
                Some(s2) => Some(moved_down(s2, s.line, s.line, FP_SCALE, FP_SCALE)),
                None => None,
            },
    {
        let nlines = self.lines.len();
        assert(s.line.0 < nlines);
        let li = s.line.0 as usize;
        let ghost l0 = self.lines@;
        let ghost old_segs = self.segments@;
        let mut line = self.lines[li].take().unwrap();
        let ghost l = line;
        proof {
            assert(l0[li as int] == Some(line));
        }
        let clear = match line.output_end {
            BeltEnd::SideInject { .. } => true,
            BeltEnd::Splitter { .. } => true,
            _ => false,
        };
        if clear {
            line.output_end = BeltEnd::Open;
        }
        let kept = keep_from(&line.items, FP_SCALE);
        line.items = kept;
        line.length = line.length - FP_SCALE;
        proof {
            lemma_total_len_update(l0, li as int, Some(line));
        }
        self.lines.set(li, Some(line));
        assert(self.lines@ =~= l0.update(li as int, Some(line)));
        self.move_segments_down(s.line, s.line, FP_SCALE, FP_SCALE);
        proof {
            let lines = self.lines@;
            let segs = self.segments@;
            assert forall|k: int| 0 <= k < old_segs.len() && old_segs[k].1.line == s.line implies #[trigger] old_segs[k].1.offset >= FP_SCALE by {
                assert(seg_fits(l0, old_segs[k].1));
            }
            assert forall|e2: EntityId| #[trigger] seg_of(segs, e2) == match seg_of(old_segs, e2) {
                Some(s2) => Some(moved_down(s2, s.line, s.line, FP_SCALE, FP_SCALE)),
                None => None,
            } by {
                lemma_seg_of_moved_down(segs, old_segs, s.line, s.line, FP_SCALE, FP_SCALE, e2);
            }
            assert forall|q: int| 0 <= q < segs.len() implies seg_fits(lines, (#[trigger] segs[q]).1) by {
                assert(seg_fits(l0, old_segs[q].1));
                if old_segs[q].1.line == s.line {
                    assert(old_segs[q].1.offset >= FP_SCALE);
                }
            }
            assert forall|q1: int, q2: int| 0 <= q1 < q2 < segs.len() && (#[trigger] segs[q1]).1.line == (#[trigger] segs[q2]).1.line
                implies segs[q1].1.offset != segs[q2].1.offset by {
                assert(seg_fits(l0, old_segs[q1].1));
                assert(seg_fits(l0, old_segs[q2].1));
                if old_segs[q1].1.line == s.line {
                    assert(old_segs[q1].1.offset >= FP_SCALE);
                }
                if old_segs[q2].1.line == s.line {
                    assert(old_segs[q2].1.offset >= FP_SCALE);
                }
            }
            assert forall|q: int| 0 <= q < lines.len() implies ((#[trigger] lines[q]) matches Some(x) ==> items_sorted(x.items@)
                && x.length % FP_SCALE == 0) by {
                if q != li {
                    assert(lines[q] == l0[q]);
                }
            }
        }
    }

    /// Remove detached segment `s`, which ends its line, by shortening the
    /// line at its input end.
    fn drop_input_segment(&mut self, s: BeltSegment)
        requires
            detached(old(self).lines@, old(self).segments@, s),
            s.offset + FP_SCALE == old(self).line_at(s.line)->0.length,
            old(self).line_at(s.line)->0.length > FP_SCALE,
        ensures
            final(self).wf(),
            final(self).units() == old(self).units() - FP_SCALE,
            ({
                let l = old(self).line_at(s.line)->0;
                final(self).line_at(s.line) matches Some(a) && a.items@ == items_below(l.items@, s.offset) && a.length
                    == l.length - FP_SCALE && a.speed == l.speed && a.output_end == l.output_end && a.input_end == (
                if l.input_end is Splitter {
                    BeltEnd::Open
                } else {
                    l.input_end
                })
            }),
            forall|id: TransportLineId| id != s.line ==> #[trigger] final(self).line_at(id) == old(self).line_at(id),
            final(self).segments@ == old(self).segments@,
    {
        let nlines = self.lines.len();
        assert(s.line.0 < nlines);
        let li = s.line.0 as usize;
        let ghost l0 = self.lines@;
        let mut line = self.lines[li].take().unwrap();
        proof {
            assert(l0[li as int] == Some(line));
        }
        let clear = match line.input_end {
            BeltEnd::Splitter { .. } => true,
            _ => false,
        };
        if clear {
            line.input_end = BeltEnd::Open;
        }
        let kept = keep_below(&line.items, s.offset);
        line.items = kept;
        line.length = line.length - FP_SCALE;
        proof {
            lemma_total_len_update(l0, li as int, Some(line));
        }
        self.lines.set(li, Some(line));
        assert(self.lines@ =~= l0.update(li as int, Some(line)));
        proof {
            let lines = self.lines@;
            let segs = self.segments@;
            assert forall|q: int| 0 <= q < segs.len() implies seg_fits(lines, (#[trigger] segs[q]).1) by {
                assert(seg_fits(l0, segs[q].1));
            }
            assert forall|q: int| 0 <= q < lines.len() implies ((#[trigger] lines[q]) matches Some(x) ==> items_sorted(x.items@)
                && x.length % FP_SCALE == 0) by {
                if q != li {
                    assert(lines[q] == l0[q]);
                }
            }
        }
    }

    /// Remove detached segment `s` from the middle of its line: the output
    /// half stays on the line, the input half becomes a new line.
    #[verifier::rlimit(60)]
    #[verifier::spinoff_prover]
    fn split_line(&mut self, s: BeltSegment) -> (nl: TransportLineId)
        requires
            detached(old(self).lines@, old(self).segments@, s),
            0 < s.offset,
            s.offset + FP_SCALE < old(self).line_at(s.line)->0.length,
            old(self).lines@.len() < usize::MAX,
        ensures
            final(self).wf(),
            final(self).units() == old(self).units() - FP_SCALE,
            old(self).line_at(nl) is None,
            ({
                let l = old(self).line_at(s.line)->0;
                let split = s.offset;
                let rest = (split + FP_SCALE) as u32;
                let feeder = match l.input_end {
                    BeltEnd::Belt(f) => if f != s.line && old(self).line_at(f) is Some && old(self).line_at(f)->0.output_end
                        == BeltEnd::Belt(s.line) {
                        Some(f)
                    } else {
                        None
                    },
                    _ => None,
                };
                &&& final(self).line_at(s.line) matches Some(a) && a.items@ == items_below(l.items@, split) && a.length
                    == split && a.speed == l.speed && a.input_end == BeltEnd::Open && a.output_end == (
                if l.input_end == BeltEnd::Belt(s.line) && l.output_end == BeltEnd::Belt(s.line) {
                    BeltEnd::Belt(nl)
                } else {
                    l.output_end
                })
                &&& final(self).line_at(nl) matches Some(b) && b.items@ == items_from(l.items@, rest) && b.length
                    == l.length - rest && b.speed == DEFAULT_BELT_SPEED && b.input_end == l.input_end
                    && b.output_end == BeltEnd::Open
                &&& forall|e2: EntityId| #[trigger] final(self).segment_of(e2) == match old(self).segment_of(e2) {
                    Some(s2) => Some(moved_down(s2, s.line, nl, rest, rest)),
                    None => None,
                }
                &&& forall|id: TransportLineId| id != s.line && id != nl ==> #[trigger] final(self).line_at(id) == if feeder
                    == Some(id) {
                    Some(with_output_end(old(self).line_at(id)->0, BeltEnd::Belt(nl)))
                } else {
                    old(self).line_at(id)
                }
            }),
    {
        let nlines = self.lines.len();
        assert(s.line.0 < nlines);
        let li = s.line.0 as usize;
        let ghost l0 = self.lines@;
        let ghost old_segs = self.segments@;
        let mut line = self.lines[li].take().unwrap();
        let ghost l = line;
        proof {
            assert(l0[li as int] == Some(line));
            lemma_total_len_update(l0, li as int, None);
        }
        let split_point = s.offset;
        let rest = split_point + FP_SCALE;
        let line_len = line.length;
        let old_input_end = line.input_end;
        let output_items = keep_below(&line.items, split_point);
        let input_items = keep_from(&line.items, rest);
        let input_half_len = line_len - rest;
        line.items = output_items;
        line.length = split_point;
        line.input_end = BeltEnd::Open;
        let ghost out_line = line;
        self.lines.set(li, Some(line));
        let ghost l1 = self.lines@;
        proof {
            assert(l1 =~= l0.update(li as int, Some(out_line)));
            lemma_total_len_update(l0, li as int, Some(out_line));
        }
        let new_line = TransportLine {
            items: input_items,
            speed: DEFAULT_BELT_SPEED,
            length: input_half_len,
            input_end: old_input_end,
            output_end: BeltEnd::Open,
        };
        let ghost in_line = new_line;
        let nl = self.push_line(new_line);
        let ghost l2 = self.lines@;
        proof {
            lemma_total_len_push(l1, Some(in_line));
            assert(line_of(l0, nl) is None);
        }
        // The line that fed the old input end now feeds the new line.
        let ghost mut feeder: Option<TransportLineId> = None;
        match old_input_end {
            BeltEnd::Belt(feeder_id) => {
                match self.line_index(feeder_id) {
                    Some(fi) => {
                        let feeds = match &self.lines[fi] {
                            Some(f) => f.output_end == BeltEnd::Belt(s.line),
                            None => false,
                        };
                        if feeds {
                            let ghost before = self.lines@;
                            let mut f = self.lines[fi].take().unwrap();
                            proof {
                                assert(before[fi as int] == Some(f));
                                lemma_total_len_update(before, fi as int, Some(with_output_end(f, BeltEnd::Belt(nl))));
                            }
                            f.output_end = BeltEnd::Belt(nl);
                            self.lines.set(fi, Some(f));
                            assert(self.lines@ =~= before.update(fi as int, Some(f)));
                            proof {
                                if feeder_id != s.line {
                                    feeder = Some(feeder_id);
                                }
                            }
                        }
                    },
                    None => {},
                }
            },
            _ => {},
        }
        self.move_segments_down(s.line, nl, rest, rest);
        proof {
            let lines = self.lines@;
            let segs = self.segments@;
            assert forall|e2: EntityId| #[trigger] seg_of(segs, e2) == match seg_of(old_segs, e2) {
                Some(s2) => Some(moved_down(s2, s.line, nl, rest, rest)),
                None => None,
            } by {
                lemma_seg_of_moved_down(segs, old_segs, s.line, nl, rest, rest, e2);
            }
            assert forall|k: int| 0 <= k < old_segs.len() && old_segs[k].1.line == s.line && old_segs[k].1.offset < rest
                implies #[trigger] old_segs[k].1.offset + FP_SCALE <= split_point by {
                assert(seg_fits(l0, old_segs[k].1));
            }
            assert forall|q: int| 0 <= q < segs.len() implies seg_fits(lines, (#[trigger] segs[q]).1) by {
                assert(seg_fits(l0, old_segs[q].1));
                let os = old_segs[q].1;
                if os.line == s.line {
                    if os.offset < rest {
                        assert(os.offset + FP_SCALE <= split_point);
                    }
                } else {
                    assert(os.line != nl);
                }
            }
            assert forall|q1: int, q2: int| 0 <= q1 < q2 < segs.len() && (#[trigger] segs[q1]).1.line == (#[trigger] segs[q2]).1.line
                implies segs[q1].1.offset != segs[q2].1.offset by {
                assert(seg_fits(l0, old_segs[q1].1));
                assert(seg_fits(l0, old_segs[q2].1));
                let a = old_segs[q1].1;
                let b = old_segs[q2].1;
                if a.line == s.line && a.offset < rest {
                    assert(a.offset + FP_SCALE <= split_point);
                }
                if b.line == s.line && b.offset < rest {
                    assert(b.offset + FP_SCALE <= split_point);
                }
            }
            assert forall|q: int| 0 <= q < lines.len() implies ((#[trigger] lines[q]) matches Some(x) ==> items_sorted(x.items@)
                && x.length % FP_SCALE == 0) by {
                if q < l0.len() && q != li {
                    assert(lines[q] is Some ==> lines[q]->0.items == l0[q]->0.items && lines[q]->0.length == l0[q]->0.length);
                }
            }
            assert(network_wf(lines, segs));
        }
        nl
    }

    /// Another line can be added to the line table.
    pub closed spec fn can_add_line(&self) -> bool {
        self.lines@.len() < usize::MAX
    }

    /// Remove a belt entity from the network. This handles splitting or
    /// shrinking the transport line as needed. Items on the removed segment
    /// are lost (dropped).
    pub fn on_belt_removed(&mut self, entity: EntityId)
        requires
            old(self).wf(),
            old(self).can_add_line(),
        ensures
            final(self).wf(),
            final(self).units() == old(self).units() - if old(self).segment_of(entity) is Some {
                FP_SCALE as int
            } else {
                0
            },
            is_belt_removal(*final(self), *old(self), entity),
    {
        // Clean up any SideInject links that target this entity.
        self.clear_side_injects(entity);
        let ghost c1 = *self;
        let seg = match self.take_segment(entity) {
            Some(s) => s,
            None => {
                proof {
                    assert forall|e2: EntityId| #[trigger] self.segment_of(e2) == old(self).segment_of(e2) by {
                        if e2 != entity {
                            assert(c1.segment_of(e2) == old(self).segment_of(e2));
                        }
                    }
                    assert forall|id: TransportLineId| #[trigger] self.line_at(id) == cleared_line(*old(self), id, entity) by {
                        assert(self.line_at(id) == c1.line_at(id));
                    }
                }
                return;
            },
        };
        let ghost c2 = *self;
        proof {
            let k = choose|k: int| 0 <= k < c1.segments@.len() && (#[trigger] c1.segments@[k]).0 == entity;
            lemma_seg_at(c1.segments@, k);
            assert(seg_fits(c1.lines@, seg));
            assert forall|q: int| 0 <= q < c2.segments@.len() && (#[trigger] c2.segments@[q]).1.line == seg.line
                implies c2.segments@[q].1.offset != seg.offset by {
                let e2 = c2.segments@[q].0;
                lemma_seg_at(c2.segments@, q);
                assert(e2 != entity);
                assert(c2.segment_of(e2) == c1.segment_of(e2));
                let k2 = choose|k2: int| 0 <= k2 < c1.segments@.len() && (#[trigger] c1.segments@[k2]).0 == e2;
                lemma_seg_at(c1.segments@, k2);
                assert(k2 != k);
            }
            assert(detached(c2.lines@, c2.segments@, seg));
            assert forall|id: TransportLineId| #[trigger] c2.line_at(id) == cleared_line(*old(self), id, entity) by {
                assert(c2.line_at(id) == c1.line_at(id));
            }
            assert(old(self).segment_of(entity) == Some(seg));
        }
        let nlines = self.lines.len();
        assert(seg.line.0 < nlines);
        let li = seg.line.0 as usize;
        let line_len = match &self.lines[li] {
            Some(l) => l.length,
            None => return,
        };
        if line_len == FP_SCALE {
            // Only segment on the line — remove the entire line.
            self.drop_single_line(seg);
            proof {
                assert forall|e2: EntityId| e2 != entity implies #[trigger] self.segment_of(e2) == old(self).segment_of(e2) by {
                    assert(c2.segment_of(e2) == c1.segment_of(e2));
                }
                assert(self.segment_of(entity) is None) by {
                    assert(c2.segment_of(entity) is None);
                }
                let l = cleared_line(*old(self), seg.line, entity)->0;
                assert(l == c2.line_at(seg.line)->0);
                assert(l.length == FP_SCALE);
            }
            assert(is_belt_removal(*self, *old(self), entity));
        } else if seg.offset == 0 {
            // Removing the output-end segment. Shrink the line.
            self.drop_output_segment(seg);
            proof {
                assert forall|e2: EntityId| e2 != entity implies #[trigger] self.segment_of(e2) == match old(self).segment_of(e2) {
                    Some(s2) => Some(moved_down(s2, seg.line, seg.line, FP_SCALE, FP_SCALE)),
                    None => None,
                } by {
                    assert(c2.segment_of(e2) == c1.segment_of(e2));
                }
            }
            assert(is_belt_removal(*self, *old(self), entity));
        } else if seg.offset == line_len - FP_SCALE {
            // Removing the input-end segment. Shrink the line.
            self.drop_input_segment(seg);
            proof {
                assert forall|e2: EntityId| e2 != entity implies #[trigger] self.segment_of(e2) == old(self).segment_of(e2) by {
                    assert(c2.segment_of(e2) == c1.segment_of(e2));
                }
            }
            assert(is_belt_removal(*self, *old(self), entity));
        } else {
            // Middle segment: split into two lines.
            let nl = self.split_line(seg);
            proof {
                assert(old(self).line_at(nl) is None) by {
                    assert(cleared_line(*old(self), nl, entity) == c2.line_at(nl));
                }
                assert forall|e2: EntityId| e2 != entity implies #[trigger] self.segment_of(e2) == match old(self).segment_of(e2) {
                    Some(s2) => Some(moved_down(s2, seg.line, nl, (seg.offset + FP_SCALE) as u32, (seg.offset + FP_SCALE) as u32)),
                    None => None,
                } by {
                    assert(c2.segment_of(e2) == c1.segment_of(e2));
                }
                assert(self.segment_of(entity) is None) by {
                    assert(c2.segment_of(entity) is None);
                }
            }
        }
    }

    /// Advance N ticks (for chunk fast-forward).
    pub fn fast_forward(&mut self, ticks: u32)
        requires
            old(self).wf(),
        ensures
            final(self).wf(),
            final(self).units() == old(self).units(),
            forall|e: EntityId| #[trigger] final(self).segment_of(e) == old(self).segment_of(e),
            final(self).same_shape(*old(self)),
            final(self).item_count() == old(self).item_count(),
            final(self).items_view() == ticks_items(old(self).items_view(), old(self).meta_view(), old(self).seg_fn(), ticks as nat),
    {
        let mut t: u32 = 0;
        while t < ticks
            invariant
                self.wf(),
                t <= ticks,
                self.units() == old(self).units(),
                forall|e: EntityId| #[trigger] self.segment_of(e) == old(self).segment_of(e),
                self.same_shape(*old(self)),
                self.item_count() == old(self).item_count(),
                self.meta_view() == old(self).meta_view(),
                self.seg_fn() == old(self).seg_fn(),
                self.items_view() == ticks_items(old(self).items_view(), old(self).meta_view(), old(self).seg_fn(), t as nat),
            decreases ticks - t,
        {
            let ghost before = *self;
            self.tick();
            proof {
                assert(line_meta(self.lines@) =~= line_meta(before.lines@)) by {
                    assert forall|k: int| 0 <= k < self.lines@.len() implies #[trigger] line_meta(self.lines@)[k] == line_meta(before.lines@)[k] by {
                        let _x = before.lines@[k];
                        let _y = self.lines@[k];
                    }
                }
                assert(self.seg_fn() =~= before.seg_fn()) by {
                    assert forall|e: EntityId| #[trigger] (self.seg_fn())(e) == (before.seg_fn())(e) by {
                        assert(self.segment_of(e) == before.segment_of(e));
                    }
                }
                assert forall|k: int| 0 <= k < old(self).lines@.len() implies match (#[trigger] self.lines@[k], old(self).lines@[k]) {
                    (Some(a), Some(b)) => a.length == b.length && a.speed == b.speed && a.input_end == b.input_end
                        && a.output_end == b.output_end,
                    (None, None) => true,
                    _ => false,
                } by {
                    assert(before.lines@[k] is Some ==> self.lines@[k] is Some);
                    let _x = before.lines@[k];
                }
            }
            t = t + 1;
        }
        proof {
            if ticks == 0 {
                assert forall|k: int| 0 <= k < old(self).lines@.len() implies match (#[trigger] self.lines@[k], old(self).lines@[k]) {
                    (Some(a), Some(b)) => a.length == b.length && a.speed == b.speed && a.input_end == b.input_end
                        && a.output_end == b.output_end,
                    (None, None) => true,
                    _ => false,
                } by {
                    let _x = old(self).lines@[k];
                }
            }
        }
    }

    /// Run port transfers: move items between belt endpoints and machine ports.
    /// Call this each tick after belt advance and machine tick. Front items at
    /// output ends linked to machine input ports go into those slots where the
    /// slot accepts them; machine output slots feed the input ends of lines
    /// linked to them where the line has room.
    pub fn tick_port_transfers(&mut self, machine_pool: &mut MachinePool)
        requires
            old(self).wf(),
            old(machine_pool).wf(),
            forall|i: int, k: int|
                0 <= i < old(machine_pool).count && 0 <= k < 4 ==> #[trigger] old(machine_pool).cold.input_slots@[i]@[k].count
                    + old(self).lines_view().len() <= u16::MAX,
        ensures
            final(self).wf(),
            final(self).units() == old(self).units(),
            forall|e: EntityId| #[trigger] final(self).segment_of(e) == old(self).segment_of(e),
            final(self).same_shape(*old(self)),
            final(machine_pool).wf(),
            final(machine_pool).count == old(machine_pool).count,
            final(machine_pool).cold.entity_id@ == old(machine_pool).cold.entity_id@,
            final(machine_pool).cold.recipe@ == old(machine_pool).cold.recipe@,
            final(machine_pool).cold.machine_type@ == old(machine_pool).cold.machine_type@,
            final(self).item_count() + pool_items(*final(machine_pool)) == old(self).item_count() + pool_items(
                *old(machine_pool),
            ),
            final(machine_pool).hot.progress@ == old(machine_pool).hot.progress@,
            final(machine_pool).hot.recipe_ticks@ == old(machine_pool).hot.recipe_ticks@,
            final(machine_pool).hot.recipe_total_ticks@ == old(machine_pool).hot.recipe_total_ticks@,
            final(machine_pool).hot.powered@ == old(machine_pool).hot.powered@,
            (final(self).items_view(), slot_rows(final(machine_pool).cold.input_slots@), slot_rows(
                final(machine_pool).cold.output_slots@,
            ), final(machine_pool).hot.state@) == port_transfers(
                (old(self).items_view(), slot_rows(old(machine_pool).cold.input_slots@), slot_rows(
                    old(machine_pool).cold.output_slots@,
                ), old(machine_pool).hot.state@),
                old(machine_pool).cold.entity_id@,
                old(self).meta_view(),
            ),
    {
        let ghost ids = machine_pool.cold.entity_id@;
        let ghost meta0 = line_meta(self.lines@);
        let ghost st0: PortState = (line_items(self.lines@), slot_rows(machine_pool.cold.input_slots@), slot_rows(
            machine_pool.cold.output_slots@,
        ), machine_pool.hot.state@);
        let n = self.lines.len();
        // Phase 1: Belt -> Machine (input ports)
        let mut belt_to_machine: Vec<(usize, ItemId, EntityId, usize)> = Vec::new();
        let mut k: usize = 0;
        while k < n
            invariant
                n == self.lines@.len(),
                k <= n,
                belt_to_machine@.len() <= k,
                forall|q: int| 0 <= q < belt_to_machine@.len() ==> (#[trigger] belt_to_machine@[q]).0 < k,
                forall|q1: int, q2: int| 0 <= q1 < q2 < belt_to_machine@.len() ==> #[trigger] belt_to_machine@[q1].0 < #[trigger] belt_to_machine@[q2].0,
                forall|q: int| 0 <= q < belt_to_machine@.len() ==> ((#[trigger] self.lines@[belt_to_machine@[q].0 as int]) matches Some(l) && l.items@.len() > 0),
                *self == *old(self),
                st0.0 == line_items(self.lines@),
                meta0 == line_meta(self.lines@),
                belt_to_machine@ == feed_plan(st0.0, meta0, k as int),
            decreases n - k,
        {
            let ghost p0 = belt_to_machine@;
            proof {
                assert(st0.0[k as int] == match self.lines@[k as int] {
                    Some(t) => t.items@,
                    None => Seq::<BeltItem>::empty(),
                });
                assert(meta0[k as int] == match self.lines@[k as int] {
                    Some(t) => Some((t.length, t.speed, t.input_end, t.output_end)),
                    None => None::<LineMeta>,
                });
            }
            let found = match &self.lines[k] {
                Some(line) => match line.output_end {
                    BeltEnd::MachineInput { entity, slot } => {
                        if line.items.len() > 0 && line.items[0].pos == 0 {
                            Some((line.items[0].item, entity, slot))
                        } else {
                            None
                        }
                    },
                    _ => None,
                },
                None => None,
            };
            match found {
                Some((item, entity, slot)) => {
                    belt_to_machine.push((k, item, entity, slot));
                },
                None => {},
            }
            proof {
                assert(belt_to_machine@ =~= match planned_feed(st0.0, meta0, k as int) {
                    Some((item, e, slot)) => p0.push((k, item, e, slot)),
                    None => p0,
                });
            }
            k = k + 1;
        }
        let ghost pre = self.lines@;
        let ghost pre_pool = *machine_pool;
        let mut j: usize = 0;
        while j < belt_to_machine.len()
            invariant
                self.wf(),
                machine_pool.wf(),
                n == self.lines@.len(),
                n == pre.len(),
                j <= belt_to_machine@.len(),
                belt_to_machine@.len() <= n,
                self.segments@ == old(self).segments@,
                self.units() == old(self).units(),
                same_lines_but_items(self.lines@, old(self).lines@),
                pre == old(self).lines@,
                self.item_count() + pool_items(*machine_pool) == old(self).item_count() + pool_items(*old(machine_pool)),
                machine_pool.count == old(machine_pool).count,
                machine_pool.cold.entity_id@ == old(machine_pool).cold.entity_id@,
                machine_pool.cold.recipe@ == old(machine_pool).cold.recipe@,
                machine_pool.cold.machine_type@ == old(machine_pool).cold.machine_type@,
                forall|i: int, q: int|
                    0 <= i < machine_pool.count && 0 <= q < 4 ==> #[trigger] machine_pool.cold.input_slots@[i]@[q].count
                        + n - j <= u16::MAX,
                forall|q: int| 0 <= q < belt_to_machine@.len() ==> (#[trigger] belt_to_machine@[q]).0 < n,
                forall|q1: int, q2: int| 0 <= q1 < q2 < belt_to_machine@.len() ==> #[trigger] belt_to_machine@[q1].0 < #[trigger] belt_to_machine@[q2].0,
                forall|q: int| j <= q < belt_to_machine@.len() ==> (#[trigger] self.lines@[belt_to_machine@[q].0 as int]) == pre[belt_to_machine@[q].0 as int],
                forall|q: int| 0 <= q < belt_to_machine@.len() ==> ((#[trigger] pre[belt_to_machine@[q].0 as int]) matches Some(l) && l.items@.len() > 0),
                ids == old(machine_pool).cold.entity_id@,
                machine_pool.hot == old(machine_pool).hot,
                machine_pool.cold.output_slots@ == old(machine_pool).cold.output_slots@,
                (line_items(self.lines@), slot_rows(machine_pool.cold.input_slots@), slot_rows(machine_pool.cold.output_slots@),
                    machine_pool.hot.state@) == apply_feeds(st0, ids, belt_to_machine@.take(j as int)),
            decreases belt_to_machine@.len() - j,
        {
            let (li, item, entity, slot) = belt_to_machine[j];
            let ghost pool_before = *machine_pool;
            let ghost items_before = line_items(self.lines@);
            proof {
                assert(belt_to_machine@.take(j + 1).drop_last() =~= belt_to_machine@.take(j as int));
                assert(belt_to_machine@.take(j + 1).last() == belt_to_machine@[j as int]);
            }
            let accepted = machine_pool.insert_input_at_slot(entity, slot, item, 1);
            proof {
                if accepted {
                    let i = pool_before.index_spec(entity)->0;
                    let row = pool_before.cold.input_slots@[i]@;
                    let st = row[slot as int];
                    let x = ItemStack { item, count: if st.count == 0 { 1u16 } else { (st.count + 1) as u16 } };
                    lemma_row_items_update(row, slot as int, x);
                    lemma_rows_items_row_set(machine_pool.cold.input_slots@, pool_before.cold.input_slots@, i, row.update(slot as int, x));
                    assert(pool_items(*machine_pool) == pool_items(pool_before) + 1);
                } else {
                    assert(pool_items(*machine_pool) == pool_items(pool_before));
                }
                if accepted {
                    let i = pool_before.index_spec(entity)->0;
                    let row = pool_before.cold.input_slots@[i]@;
                    let st = row[slot as int];
                    let x = ItemStack { item, count: if st.count == 0 { 1u16 } else { (st.count + 1) as u16 } };
                    assert(slot_rows(machine_pool.cold.input_slots@) =~= slot_rows(pool_before.cold.input_slots@).update(i, row.update(slot as int, x)));
                } else {
                    assert(slot_rows(machine_pool.cold.input_slots@) =~= slot_rows(pool_before.cold.input_slots@));
                }
                assert forall|i: int, q: int|
                    0 <= i < machine_pool.count && 0 <= q < 4 implies #[trigger] machine_pool.cold.input_slots@[i]@[q].count
                        + n - (j + 1) <= u16::MAX by {
                    assert(pool_before.cold.input_slots@[i]@[q].count + n - j <= u16::MAX);
                }
            }
            if accepted {
                let ghost l0 = self.lines@;
                let mut line = self.lines[li].take().unwrap();
                proof {
                    assert(l0[li as int] == Some(line));
                    lemma_sorted_drop_first(line.items@);
                }
                line.items.remove(0);
                proof {
                    assert(line.items@ =~= l0[li as int]->0.items@.subrange(1, l0[li as int]->0.items@.len() as int));
                    lemma_replace_line_wf(l0, self.segments@, li as int, line);
                    lemma_total_items_update(l0, li as int, Some(line));
                }
                self.lines.set(li, Some(line));
                assert(self.lines@ =~= l0.update(li as int, Some(line)));
                proof {
                    assert forall|q: int| j + 1 <= q < belt_to_machine@.len() implies (#[trigger] self.lines@[belt_to_machine@[q].0 as int])
                        == pre[belt_to_machine@[q].0 as int] by {
                        assert(belt_to_machine@[j as int].0 < belt_to_machine@[q].0);
                    }
                    assert(line_items(self.lines@) =~= items_before.update(li as int, items_before[li as int].drop_first()));
                }
            }
            j = j + 1;
        }
        proof {
            assert(belt_to_machine@.take(belt_to_machine@.len() as int) =~= belt_to_machine@);
            assert(line_meta(self.lines@) =~= meta0) by {
                assert forall|q: int| 0 <= q < n implies #[trigger] line_meta(self.lines@)[q] == meta0[q] by {
                    let _x = pre[q];
                    let _y = self.lines@[q];
                }
            }
        }
        let ghost a = apply_feeds(st0, ids, belt_to_machine@);
        // Phase 2: Machine -> Belt (output ports)
        let mut machine_to_belt: Vec<(usize, EntityId, usize)> = Vec::new();
        let mut k: usize = 0;
        while k < n
            invariant
                self.wf(),
                n == self.lines@.len(),
                k <= n,
                self.item_count() + pool_items(*machine_pool) == old(self).item_count() + pool_items(*old(machine_pool)),
                forall|q: int| 0 <= q < machine_to_belt@.len() ==> (#[trigger] machine_to_belt@[q]).0 < k,
                forall|q1: int, q2: int| 0 <= q1 < q2 < machine_to_belt@.len() ==> #[trigger] machine_to_belt@[q1].0 < #[trigger] machine_to_belt@[q2].0,
                forall|q: int| 0 <= q < machine_to_belt@.len() ==> line_within(#[trigger] self.lines@[machine_to_belt@[q].0 as int]),
                meta0 == line_meta(self.lines@),
                a.0 == line_items(self.lines@),
                machine_to_belt@ == draw_plan(a.0, meta0, k as int),
            decreases n - k,
        {
            let ghost p0 = machine_to_belt@;
            proof {
                assert(a.0[k as int] == match self.lines@[k as int] {
                    Some(t) => t.items@,
                    None => Seq::<BeltItem>::empty(),
                });
                assert(meta0[k as int] == match self.lines@[k as int] {
                    Some(t) => Some((t.length, t.speed, t.input_end, t.output_end)),
                    None => None::<LineMeta>,
                });
            }
            let found = match &self.lines[k] {
                Some(line) => match line.input_end {
                    BeltEnd::MachineOutput { entity, slot } => {
                        if line.can_accept_at_input() {
                            Some((entity, slot))
                        } else {
                            None
                        }
                    },
                    _ => None,
                },
                None => None,
            };
            match found {
                Some((entity, slot)) => {
                    proof {
                        let l = self.lines@[k as int]->0;
                        if l.items@.len() > 0 {
                            assert forall|x: int| 0 <= x < l.items@.len() implies (#[trigger] l.items@[x]).pos <= l.length by {
                                assert(l.items@[x].pos <= l.items@[l.items@.len() - 1].pos) by {
                                    assert(items_sorted(l.items@)) by {
                                        assert(network_wf(self.lines@, self.segments@));
                                        assert(self.lines@[k as int] is Some);
                                    }
                                }
                            }
                        }
                    }
                    machine_to_belt.push((k, entity, slot));
                },
                None => {},
            }
            proof {
                assert(machine_to_belt@ =~= match planned_draw(a.0, meta0, k as int) {
                    Some((e, slot)) => p0.push((k, e, slot)),
                    None => p0,
                });
            }
            k = k + 1;
        }
        let ghost mid = self.lines@;
        let mut j: usize = 0;
        while j < machine_to_belt.len()
            invariant
                self.wf(),
                machine_pool.wf(),
                n == self.lines@.len(),
                n == mid.len(),
                j <= machine_to_belt@.len(),
                self.item_count() + pool_items(*machine_pool) == old(self).item_count() + pool_items(*old(machine_pool)),
                self.segments@ == old(self).segments@,
                self.units() == old(self).units(),
                same_lines_but_items(self.lines@, old(self).lines@),
                machine_pool.count == old(machine_pool).count,
                machine_pool.cold.entity_id@ == old(machine_pool).cold.entity_id@,
                machine_pool.cold.recipe@ == old(machine_pool).cold.recipe@,
                machine_pool.cold.machine_type@ == old(machine_pool).cold.machine_type@,
                forall|q: int| 0 <= q < machine_to_belt@.len() ==> (#[trigger] machine_to_belt@[q]).0 < n,
                forall|q1: int, q2: int| 0 <= q1 < q2 < machine_to_belt@.len() ==> #[trigger] machine_to_belt@[q1].0 < #[trigger] machine_to_belt@[q2].0,
                forall|q: int| j <= q < machine_to_belt@.len() ==> (#[trigger] self.lines@[machine_to_belt@[q].0 as int]) == mid[machine_to_belt@[q].0 as int],
                forall|q: int| 0 <= q < machine_to_belt@.len() ==> line_within(#[trigger] mid[machine_to_belt@[q].0 as int]),
                ids == old(machine_pool).cold.entity_id@,
                meta0 == line_meta(mid),
                machine_pool.hot.progress@ == old(machine_pool).hot.progress@,
                machine_pool.hot.recipe_ticks@ == old(machine_pool).hot.recipe_ticks@,
                machine_pool.hot.recipe_total_ticks@ == old(machine_pool).hot.recipe_total_ticks@,
                machine_pool.hot.powered@ == old(machine_pool).hot.powered@,
                (line_items(self.lines@), slot_rows(machine_pool.cold.input_slots@), slot_rows(machine_pool.cold.output_slots@),
                    machine_pool.hot.state@) == apply_draws(a, ids, meta0, machine_to_belt@.take(j as int)),
            decreases machine_to_belt@.len() - j,
        {
            let (li, entity, slot) = machine_to_belt[j];
            let ghost pool_before = *machine_pool;
            let ghost items_before = line_items(self.lines@);
            proof {
                assert(machine_to_belt@.take(j + 1).drop_last() =~= machine_to_belt@.take(j as int));
                assert(machine_to_belt@.take(j + 1).last() == machine_to_belt@[j as int]);
            }
            let taken = machine_pool.take_output_from_slot(entity, slot);
            proof {
                if taken is Some {
                    let i = pool_before.index_spec(entity)->0;
                    let row = pool_before.cold.output_slots@[i]@;
                    let st = row[slot as int];
                    let x = ItemStack { item: st.item, count: (st.count - 1) as u16 };
                    lemma_row_items_update(row, slot as int, x);
                    lemma_rows_items_row_set(machine_pool.cold.output_slots@, pool_before.cold.output_slots@, i, row.update(slot as int, x));
                    assert(pool_items(*machine_pool) + 1 == pool_items(pool_before));
                    assert(slot_rows(machine_pool.cold.output_slots@) =~= slot_rows(pool_before.cold.output_slots@).update(i, row.update(slot as int, x)));
                }
            }
            match taken {
                Some(item) => {
                    let ghost l0 = self.lines@;
                    let mut line = self.lines[li].take().unwrap();
                    proof {
                        assert(l0[li as int] == Some(line));
                        assert(line_within(mid[machine_to_belt@[j as int].0 as int]));
                        lemma_sorted_push_max(line.items@, BeltItem { item, pos: line.length });
                    }
                    line.insert_at_input(item);
                    proof {
                        lemma_replace_line_wf(l0, self.segments@, li as int, line);
                        lemma_total_items_update(l0, li as int, Some(line));
                    }
                    self.lines.set(li, Some(line));
                    assert(self.lines@ =~= l0.update(li as int, Some(line)));
                    proof {
                        assert forall|q: int| j + 1 <= q < machine_to_belt@.len() implies (#[trigger] self.lines@[machine_to_belt@[q].0 as int])
                            == mid[machine_to_belt@[q].0 as int] by {
                            assert(machine_to_belt@[j as int].0 < machine_to_belt@[q].0);
                        }
                        assert(meta0[li as int] == match mid[li as int] {
                            Some(t) => Some((t.length, t.speed, t.input_end, t.output_end)),
                            None => None::<LineMeta>,
                        });
                        assert(l0[li as int]->0.length == mid[li as int]->0.length);
                        assert(line_items(self.lines@) =~= items_before.update(li as int, items_before[li as int].push(
                            BeltItem { item, pos: meta_length(meta0[li as int]) },
                        )));
                    }
                },
                None => {},
            }
            j = j + 1;
        }
        proof {
            assert(machine_to_belt@.take(machine_to_belt@.len() as int) =~= machine_to_belt@);
        }
    }
}


/// The output end after dropping links into machine `m`.
pub open spec fn out_without_machine(end: BeltEnd, m: EntityId) -> BeltEnd {
    match end {
        BeltEnd::MachineInput { entity, .. } => if entity == m { BeltEnd::Open } else { end },
        _ => end,
    }
}

/// The input end after dropping links from machine `m`.
pub open spec fn in_without_machine(end: BeltEnd, m: EntityId) -> BeltEnd {
    match end {
        BeltEnd::MachineOutput { entity, .. } => if entity == m { BeltEnd::Open } else { end },
        _ => end,
    }
}

/// An end after dropping links to splitter `sp`.
pub open spec fn without_splitter(end: BeltEnd, sp: EntityId) -> BeltEnd {
    match end {
        BeltEnd::Splitter { entity } => if entity == sp { BeltEnd::Open } else { end },
        _ => end,
    }
}

/// The output end after dropping links into storage `st`.
pub open spec fn out_without_storage(end: BeltEnd, st: EntityId) -> BeltEnd {
    match end {
        BeltEnd::StorageInput { entity, .. } => if entity == st { BeltEnd::Open } else { end },
        _ => end,
    }
}

/// The input end after dropping links from storage `st`.
pub open spec fn in_without_storage(end: BeltEnd, st: EntityId) -> BeltEnd {
    match end {
        BeltEnd::StorageOutput { entity, .. } => if entity == st { BeltEnd::Open } else { end },
        _ => end,
    }


}



/// How many lines among `lines` satisfy `p`.
pub open spec fn count_lines(lines: Seq<Option<TransportLine>>, p: spec_fn(TransportLine) -> bool) -> nat
    decreases lines.len(),
{
    if lines.len() == 0 {
        0
    } else {
        count_lines(lines.drop_last(), p) + match lines.last() {
            Some(l) => if p(l) { 1nat } else { 0nat },
            None => 0nat,
        }
    }
}

/// Every line.
pub open spec fn any_line() -> spec_fn(TransportLine) -> bool {
    |l: TransportLine| true
}

/// The line feeds storage `st`.
pub open spec fn feeds_storage(st: EntityId) -> spec_fn(TransportLine) -> bool {
    |l: TransportLine| l.output_end matches BeltEnd::StorageInput { entity, .. } && entity == st
}

/// The line is fed by storage `st`.
pub open spec fn fed_by_storage(st: EntityId) -> spec_fn(TransportLine) -> bool {
    |l: TransportLine| l.input_end matches BeltEnd::StorageOutput { entity, .. } && entity == st
}

/// The item at the very output end of a line, if one sits there.
pub open spec fn front_item(l: TransportLine) -> Option<ItemId> {
    if l.items@.len() > 0 && l.items@[0].pos == 0 {
        Some(l.items@[0].item)
    } else {
        None
    }
}

/// The splitter an end is linked to, if any.
pub open spec fn end_splitter(end: BeltEnd) -> Option<EntityId> {
    match end {
        BeltEnd::Splitter { entity } => Some(entity),
        _ => None,
    }
}

proof fn lemma_sorted_drop_first(s: Seq<BeltItem>)
    requires
        items_sorted(s),
        s.len() > 0,
    ensures
        items_sorted(s.subrange(1, s.len() as int)),
{
    let t = s.subrange(1, s.len() as int);
    assert forall|i: int, j: int| 0 <= i <= j < t.len() implies #[trigger] t[i].pos <= #[trigger] t[j].pos by {
        assert(t[i] == s[i + 1] && t[j] == s[j + 1]);
    }
}

proof fn lemma_sorted_push_max(s: Seq<BeltItem>, x: BeltItem)
    requires
        items_sorted(s),
        forall|k: int| 0 <= k < s.len() ==> (#[trigger] s[k]).pos <= x.pos,
    ensures
        items_sorted(s.push(x)),
{
    let t = s.push(x);
    assert forall|i: int, j: int| 0 <= i <= j < t.len() implies #[trigger] t[i].pos <= #[trigger] t[j].pos by {
        if j < s.len() {
            assert(t[i] == s[i] && t[j] == s[j]);
        } else if i < s.len() {
            assert(t[i] == s[i]);
        }
    }
}


/// A grid position lies within a tile's bounds (-32..=32 on each axis).
pub open spec fn within_tile(gx: int, gy: int) -> bool {
    -32 <= gx <= 32 && -32 <= gy <= 32
}

/// Check if a grid position is within a tile's bounds (-32..=32 on each axis).
pub fn is_within_tile(gx: i32, gy: i32) -> (r: bool)
    ensures
        r == within_tile(gx as int, gy as int),
{
    -32 <= gx && gx <= 32 && -32 <= gy && gy <= 32
}

/// The opposite direction.
pub open spec fn opposite_of(d: Direction) -> Direction {
    dir_of(dir_index(d) + 2)
}

/// Two directions are perpendicular if they are neither the same nor opposite.
pub open spec fn perpendicular(a: Direction, b: Direction) -> bool {
    a != b && a != opposite_of(b)
}

/// Two directions are perpendicular if they are neither the same nor opposite.
pub fn is_perpendicular(a: Direction, b: Direction) -> (r: bool)
    ensures
        r == perpendicular(a, b),
{
    a != b && a != b.opposite()
}

/// The belt facing `direction` at cell `xy` of `tile`, if there is one.
pub open spec fn belt_at(world: WorldState, tile: Seq<u8>, xy: (i32, i32), direction: Direction) -> Option<EntityId> {
    match world.occupant(tile, xy) {
        Some(e) => if world.info(e) matches Some(inf) && inf.2 == StructureKind::Belt && inf.3 == direction {
            Some(e)
        } else {
            None
        },
        None => None,
    }
}

/// The belt at cell `xy` of `tile`, whatever its facing, with its facing.
pub open spec fn any_belt_at(world: WorldState, tile: Seq<u8>, xy: (i32, i32)) -> Option<(EntityId, Direction)> {
    match world.occupant(tile, xy) {
        Some(e) => match world.info(e) {
            Some(inf) => if inf.2 == StructureKind::Belt {
                Some((e, inf.3))
            } else {
                None
            },
            None => None,
        },
        None => None,
    }
}

/// Find a belt entity at the given tile+grid position with the given direction.
fn find_belt_at(tile: &[u8], grid_xy: (i32, i32), direction: Direction, world: &WorldState) -> (r: Option<EntityId>)
    requires
        world.wf(),
    ensures
        r == belt_at(*world, tile@, grid_xy, direction),
{
    let entity = match world.entity_at(tile, grid_xy) {
        Some(e) => e,
        None => return None,
    };
    if world.kind(entity) == Some(StructureKind::Belt) && world.direction(entity) == Some(direction) {
        Some(entity)
    } else {
        None
    }
}

/// Find any belt entity at the given tile+grid position, regardless of direction.
fn find_any_belt_at(tile: &[u8], grid_xy: (i32, i32), world: &WorldState) -> (r: Option<(EntityId, Direction)>)
    requires
        world.wf(),
    ensures
        r == any_belt_at(*world, tile@, grid_xy),
{
    let entity = match world.entity_at(tile, grid_xy) {
        Some(e) => e,
        None => return None,
    };
    if world.kind(entity) == Some(StructureKind::Belt) {
        match world.direction(entity) {
            Some(dir) => Some((entity, dir)),
            None => None,
        }
    } else {
        None
    }
}

/// `after` is `before` with the segments of line `from` moved onto line `to`,
/// `shift` further from the output end; other segments stay.
pub open spec fn segs_moved(
    after: Seq<(EntityId, BeltSegment)>,
    before: Seq<(EntityId, BeltSegment)>,
    from: TransportLineId,
    to: TransportLineId,
    shift: int,
) -> bool {
    &&& after.len() == before.len()
    &&& forall|k: int|
        0 <= k < before.len() ==> (#[trigger] after[k]).0 == before[k].0 && after[k].1 == if before[k].1.line
            == from {
            BeltSegment { line: to, offset: (before[k].1.offset + shift) as u32 }
        } else {
            before[k].1
        }
}

/// The segment a segment becomes when the segments of `from` move to `to`.
pub open spec fn moved_seg(s: BeltSegment, from: TransportLineId, to: TransportLineId, shift: int) -> BeltSegment {
    if s.line == from {
        BeltSegment { line: to, offset: (s.offset + shift) as u32 }
    } else {
        s
    }
}

proof fn lemma_seg_of_moved(
    after: Seq<(EntityId, BeltSegment)>,
    before: Seq<(EntityId, BeltSegment)>,
    from: TransportLineId,
    to: TransportLineId,
    shift: int,
    e: EntityId,
)
    requires
        seg_keys_unique(before),
        segs_moved(after, before, from, to, shift),
    ensures
        seg_keys_unique(after),
        seg_of(after, e) == match seg_of(before, e) {
            Some(s) => Some(moved_seg(s, from, to, shift)),
            None => None,
        },
{
    assert forall|i: int, j: int| 0 <= i < j < after.len() implies #[trigger] after[i].0 != #[trigger] after[j].0 by {
        assert(after[i].0 == before[i].0 && after[j].0 == before[j].0);
    }
    if exists|i: int| 0 <= i < before.len() && (#[trigger] before[i]).0 == e {
        let i = choose|i: int| 0 <= i < before.len() && (#[trigger] before[i]).0 == e;
        lemma_seg_at(before, i);
        assert(after[i].0 == e);
        lemma_seg_at(after, i);
    } else {
        assert forall|i: int| 0 <= i < after.len() implies (#[trigger] after[i]).0 != e by {
            assert(after[i].0 == before[i].0);
        }
    }
}


/// Items moved `shift` further from the output end.
pub open spec fn shifted_items(items: Seq<BeltItem>, shift: int) -> Seq<BeltItem> {
    items.map_values(|b: BeltItem| BeltItem { item: b.item, pos: (b.pos + shift) as u32 })
}

/// Line `a` is line `l` grown to `length` with `items`, its input end set to
/// `input_end`; speed and output end unchanged.
pub open spec fn line_grown(a: TransportLine, l: TransportLine, length: int, items: Seq<BeltItem>, input_end: BeltEnd) -> bool {
    &&& a.length == length
    &&& a.items@ == items
    &&& a.speed == l.speed
    &&& a.input_end == input_end
    &&& a.output_end == l.output_end
}

/// Segment `s` heads a new line of one empty square with open ends; all
/// other lines are as before.
pub open spec fn fresh_line_join(after: BeltNetwork, before: BeltNetwork, s: BeltSegment) -> bool {
    &&& s.offset == 0
    &&& before.line_at(s.line) is None
    &&& after.line_at(s.line) is Some
    &&& after.line_at(s.line)->0.length == FP_SCALE
    &&& after.line_at(s.line)->0.items@.len() == 0
    &&& after.line_at(s.line)->0.speed == DEFAULT_BELT_SPEED
    &&& after.line_at(s.line)->0.input_end == BeltEnd::Open
    &&& after.line_at(s.line)->0.output_end == BeltEnd::Open
    &&& forall|id: TransportLineId| id != s.line ==> #[trigger] after.line_at(id) == before.line_at(id)
}

/// `after` is `before` with belt `entity` joined to the line of its
/// same-facing upstream neighbour `up` and downstream neighbour `down`:
/// appended at the output end of `up`'s line, at the input end of `down`'s
/// line, bridging both lines into `down`'s, or on a new line of its own.
pub open spec fn is_join(
    after: BeltNetwork,
    before: BeltNetwork,
    entity: EntityId,
    up: Option<BeltSegment>,
    down: Option<BeltSegment>,
) -> bool {
    match (up, down) {
        (Some(u), None) => {
            let l = before.line_at(u.line)->0;
            &&& after.segment_of(entity) == Some(BeltSegment { line: u.line, offset: 0 })
            &&& forall|e2: EntityId| e2 != entity ==> #[trigger] after.segment_of(e2) == match before.segment_of(e2) {
                Some(s) => Some(moved_seg(s, u.line, u.line, FP_SCALE as int)),
                None => None,
            }
            &&& after.line_at(u.line) matches Some(a) && line_grown(
                a,
                l,
                l.length + FP_SCALE,
                shifted_items(l.items@, FP_SCALE as int),
                l.input_end,
            )
            &&& forall|id: TransportLineId| id != u.line ==> #[trigger] after.line_at(id) == before.line_at(id)
        },
        (None, Some(d)) => {
            let l = before.line_at(d.line)->0;
            &&& after.segment_of(entity) == Some(BeltSegment { line: d.line, offset: l.length })
            &&& forall|e2: EntityId| e2 != entity ==> #[trigger] after.segment_of(e2) == before.segment_of(e2)
            &&& after.line_at(d.line) matches Some(a) && line_grown(a, l, l.length + FP_SCALE, l.items@, l.input_end)
            &&& forall|id: TransportLineId| id != d.line ==> #[trigger] after.line_at(id) == before.line_at(id)
        },
        (Some(u), Some(d)) if u.line != d.line => {
            let dl = before.line_at(d.line)->0;
            let ul = before.line_at(u.line)->0;
            let shift = dl.length + FP_SCALE;
            let feeder = match ul.input_end {
                BeltEnd::Belt(f) => if before.line_at(f) is Some { Some(f) } else { None },
                _ => None,
            };
            let dl2 = if feeder == Some(d.line) { with_output_end(dl, BeltEnd::Belt(d.line)) } else { dl };
            &&& after.segment_of(entity) == Some(BeltSegment { line: d.line, offset: dl.length })
            &&& forall|e2: EntityId| e2 != entity ==> #[trigger] after.segment_of(e2) == match before.segment_of(e2) {
                Some(s) => Some(moved_seg(s, u.line, d.line, shift)),
                None => None,
            }
            &&& after.line_at(d.line) matches Some(a) && line_grown(
                a,
                dl2,
                shift + ul.length,
                merged(dl.items@, shifted_items(ul.items@, shift)),
                ul.input_end,
            )
            &&& after.line_at(u.line) is None
            &&& forall|id: TransportLineId| id != u.line && id != d.line ==> #[trigger] after.line_at(id) == if feeder
                == Some(id) {
                Some(with_output_end(before.line_at(id)->0, BeltEnd::Belt(d.line)))
            } else {
                before.line_at(id)
            }
        },
        _ => {
            &&& after.segment_of(entity) is Some
            &&& fresh_line_join(after, before, after.segment_of(entity)->0)
            &&& forall|e2: EntityId| e2 != entity ==> #[trigger] after.segment_of(e2) == before.segment_of(e2)
        },
    }
}


/// Belt `down` heads a line two squares long with belt `up` right behind it.
pub open spec fn pair_on_one_line(n: BeltNetwork, up: EntityId, down: EntityId) -> bool {
    let sd = n.segment_of(down)->0;
    &&& n.segment_of(down) is Some
    &&& sd.offset == 0
    &&& n.segment_of(up) == Some(BeltSegment { line: sd.line, offset: FP_SCALE })
    &&& n.line_at(sd.line) is Some
    &&& n.line_at(sd.line)->0.length == 2 * FP_SCALE
}

/// Two same-facing belts, `up` feeding `down`, each joined to the line of the
/// other: whichever is placed first, they end on one line two squares long,
/// `down` at its output end and `up` one square behind it.
pub proof fn lemma_belt_pair_any_order(
    n0: BeltNetwork,
    d1: BeltNetwork,
    n1: BeltNetwork,
    u1: BeltNetwork,
    n2: BeltNetwork,
    up: EntityId,
    down: EntityId,
)
    requires
        up != down,
        is_join(d1, n0, down, None, None),
        is_join(n1, d1, up, None, d1.segment_of(down)),
        is_join(u1, n0, up, None, None),
        is_join(n2, u1, down, u1.segment_of(up), None),
    ensures
        pair_on_one_line(n1, up, down),
        pair_on_one_line(n2, up, down),
{
    let sd = d1.segment_of(down)->0;
    assert(n1.segment_of(down) == d1.segment_of(down));
    let su = u1.segment_of(up)->0;
    assert(n2.segment_of(up) == Some(moved_seg(su, su.line, su.line, FP_SCALE as int)));
}

/// `after` differs from `before` only in output ends that went from `Open`
/// to a side injection.
pub open spec fn inject_rel(after: BeltNetwork, before: BeltNetwork) -> bool {
    &&& forall|e: EntityId| #[trigger] after.segment_of(e) == before.segment_of(e)
    &&& after.units() == before.units()
    &&& forall|id: TransportLineId| {
        let a = #[trigger] after.line_at(id);
        let b = before.line_at(id);
        &&& (a is None <==> b is None)
        &&& b matches Some(l) ==> {
            &&& a == Some(with_output_end(l, a->0.output_end))
            &&& (a->0.output_end == l.output_end || (l.output_end == BeltEnd::Open && a->0.output_end is SideInject))
        }
    }
}

proof fn lemma_inject_rel_trans(a: BeltNetwork, b: BeltNetwork, c: BeltNetwork)
    requires
        inject_rel(a, b),
        inject_rel(b, c),
    ensures
        inject_rel(a, c),
{
    assert forall|id: TransportLineId| {
        let x = #[trigger] a.line_at(id);
        let z = c.line_at(id);
        &&& (x is None <==> z is None)
        &&& z matches Some(l) ==> {
            &&& x == Some(with_output_end(l, x->0.output_end))
            &&& (x->0.output_end == l.output_end || (l.output_end == BeltEnd::Open && x->0.output_end is SideInject))
        }
    } by {
        let y = b.line_at(id);
        assert(a.line_at(id) is None <==> y is None);
    }
}

/// The cell one step from `(gx, gy)` toward `d`.
pub open spec fn step_cell(gx: i32, gy: i32, d: Direction) -> (int, int) {
    (gx + grid_offset(d).0, gy + grid_offset(d).1)
}

/// The perpendicular belt ahead that a belt facing `direction` at `(gx, gy)`
/// would side-inject onto, when it sits at the output end of an open line.
pub open spec fn forward_target(
    n: BeltNetwork,
    entity: EntityId,
    tile: Seq<u8>,
    gx: i32,
    gy: i32,
    direction: Direction,
    world: WorldState,
) -> Option<(TransportLineId, EntityId)> {
    let ahead = step_cell(gx, gy, direction);
    match n.segment_of(entity) {
        Some(s) => if s.offset == 0 && n.line_at(s.line) is Some && n.line_at(s.line)->0.output_end == BeltEnd::Open
            && within_tile(ahead.0, ahead.1) {
            match any_belt_at(world, tile, (ahead.0 as i32, ahead.1 as i32)) {
                Some((t, td)) => if perpendicular(direction, td) {
                    Some((s.line, t))
                } else {
                    None
                },
                None => None,
            }
        } else {
            None
        },
        None => None,
    }
}

/// The line of the belt next to `(gx, gy)` in direction `adj` that aims its
/// open output end at `(gx, gy)`, perpendicular to `direction`.
pub open spec fn reverse_target(
    n: BeltNetwork,
    tile: Seq<u8>,
    gx: i32,
    gy: i32,
    direction: Direction,
    adj: Direction,
    world: WorldState,
) -> Option<TransportLineId> {
    let c = step_cell(gx, gy, adj);
    let required = opposite_of(adj);
    if within_tile(c.0, c.1) && perpendicular(required, direction) {
        match belt_at(world, tile, (c.0 as i32, c.1 as i32), required) {
            Some(o) => match n.segment_of(o) {
                Some(os) => if os.offset == 0 && n.line_at(os.line) is Some && n.line_at(os.line)->0.output_end
                    == BeltEnd::Open {
                    Some(os.line)
                } else {
                    None
                },
                None => None,
            },
            None => None,
        }
    } else {
        None
    }
}


/// The cell one step behind `(gx, gy)` for a belt facing `d`.
pub open spec fn behind_cell(gx: i32, gy: i32, d: Direction) -> (int, int) {
    (gx - grid_offset(d).0, gy - grid_offset(d).1)
}

/// The segment of the belt facing `direction` at `cell`, if the cell is in
/// the tile and such a belt is on a line.
pub open spec fn neighbour_seg(
    n: BeltNetwork,
    world: WorldState,
    tile: Seq<u8>,
    cell: (int, int),
    direction: Direction,
) -> Option<BeltSegment> {
    if within_tile(cell.0, cell.1) {
        match belt_at(world, tile, (cell.0 as i32, cell.1 as i32), direction) {
            Some(e) => n.segment_of(e),
            None => None,
        }
    } else {
        None
    }
}

/// The steps of placing a belt, joined at `mid` and then side-injected in
/// turn through `s1` .. `s4` to `fin`, make a belt placement.
#[verifier::rlimit(100)]
#[verifier::spinoff_prover]
proof fn lemma_placement_complete(
    old0: BeltNetwork,
    mid: BeltNetwork,
    s1: BeltNetwork,
    s2: BeltNetwork,
    s3: BeltNetwork,
    s4: BeltNetwork,
    fin: BeltNetwork,
    entity: EntityId,
    tile: Seq<u8>,
    gx: i32,
    gy: i32,
    direction: Direction,
    world: WorldState,
)
    requires
        is_join(
            mid,
            old0,
            entity,
            neighbour_seg(old0, world, tile, behind_cell(gx, gy, direction), direction),
            neighbour_seg(old0, world, tile, step_cell(gx, gy, direction), direction),
        ),
        inject_rel(s1, mid),
        inject_rel(s2, s1),
        inject_rel(s3, s2),
        inject_rel(s4, s3),
        inject_rel(fin, s4),
        forward_target(mid, entity, tile, gx, gy, direction, world) matches Some((id, t))
            ==> s1.line_at(id)->0.output_end == (BeltEnd::SideInject { entity: t }),
        forall|id: TransportLineId| #[trigger] s1.line_at(id) != mid.line_at(id)
            ==> (mid.segment_of(entity) matches Some(sg) && id == sg.line),
        forall|id: TransportLineId| #[trigger] s1.line_at(id) != mid.line_at(id)
            ==> (forward_target(mid, entity, tile, gx, gy, direction, world) matches Some((f, t)) && f == id),
        reverse_target(s1, tile, gx, gy, direction, Direction::North, world) matches Some(id)
            ==> s2.line_at(id)->0.output_end == (BeltEnd::SideInject { entity }),
        reverse_target(s2, tile, gx, gy, direction, Direction::East, world) matches Some(id)
            ==> s3.line_at(id)->0.output_end == (BeltEnd::SideInject { entity }),
        reverse_target(s3, tile, gx, gy, direction, Direction::South, world) matches Some(id)
            ==> s4.line_at(id)->0.output_end == (BeltEnd::SideInject { entity }),
        reverse_target(s4, tile, gx, gy, direction, Direction::West, world) matches Some(id)
            ==> fin.line_at(id)->0.output_end == (BeltEnd::SideInject { entity }),
        forall|id: TransportLineId| #[trigger] s2.line_at(id) == s1.line_at(id)
            || s2.line_at(id)->0.output_end == (BeltEnd::SideInject { entity }),
        forall|id: TransportLineId| #[trigger] s3.line_at(id) == s2.line_at(id)
            || s3.line_at(id)->0.output_end == (BeltEnd::SideInject { entity }),
        forall|id: TransportLineId| #[trigger] s4.line_at(id) == s3.line_at(id)
            || s4.line_at(id)->0.output_end == (BeltEnd::SideInject { entity }),
        forall|id: TransportLineId| #[trigger] fin.line_at(id) == s4.line_at(id)
            || fin.line_at(id)->0.output_end == (BeltEnd::SideInject { entity }),
        forall|id: TransportLineId| #[trigger] s2.line_at(id) != s1.line_at(id)
            ==> reverse_target(s1, tile, gx, gy, direction, Direction::North, world) == Some(id),
        forall|id: TransportLineId| #[trigger] s3.line_at(id) != s2.line_at(id)
            ==> reverse_target(s2, tile, gx, gy, direction, Direction::East, world) == Some(id),
        forall|id: TransportLineId| #[trigger] s4.line_at(id) != s3.line_at(id)
            ==> reverse_target(s3, tile, gx, gy, direction, Direction::South, world) == Some(id),
        forall|id: TransportLineId| #[trigger] fin.line_at(id) != s4.line_at(id)
            ==> reverse_target(s4, tile, gx, gy, direction, Direction::West, world) == Some(id),
    ensures
        is_belt_placement(fin, old0, entity, tile, gx, gy, direction, world),
{
    lemma_only_targets_change(mid, s1, s2, s3, s4, fin, entity, tile, gx, gy, direction, world);
    lemma_inject_rel_trans(s2, s1, mid);
    lemma_inject_rel_trans(s3, s2, mid);
    lemma_inject_rel_trans(s4, s3, mid);
    lemma_inject_rel_trans(fin, s4, mid);
    lemma_inject_rel_trans(fin, s4, s1);
    lemma_inject_rel_trans(s4, s3, s1);
    lemma_inject_rel_trans(s3, s2, s1);
    lemma_inject_rel_trans(fin, s4, s2);
    lemma_inject_rel_trans(s4, s3, s2);
    lemma_inject_rel_trans(fin, s4, s3);
    assert(fin.segment_of(entity) == mid.segment_of(entity));
    BeltNetwork::lemma_reverse_kept(s1, mid, tile, gx, gy, direction, Direction::North, world);
    BeltNetwork::lemma_reverse_kept(s2, mid, tile, gx, gy, direction, Direction::East, world);
    BeltNetwork::lemma_reverse_kept(s3, mid, tile, gx, gy, direction, Direction::South, world);
    BeltNetwork::lemma_reverse_kept(s4, mid, tile, gx, gy, direction, Direction::West, world);
    assert forall|adj: Direction| #[trigger] reverse_target(mid, tile, gx, gy, direction, adj, world) is Some
        implies fin.line_at(reverse_target(mid, tile, gx, gy, direction, adj, world)->0)->0.output_end is SideInject by {
        match adj {
            Direction::North => {},
            Direction::East => {},
            Direction::South => {},
            Direction::West => {},
        }
    }
    let big_l = mid.segment_of(entity)->0.line;
    let side = BeltEnd::SideInject { entity };
    assert forall|adj: Direction|
        #[trigger] reverse_target(mid, tile, gx, gy, direction, adj, world) is Some
            && reverse_target(mid, tile, gx, gy, direction, adj, world)->0 != big_l
        implies fin.line_at(reverse_target(mid, tile, gx, gy, direction, adj, world)->0)->0.output_end == side by {
        let id = reverse_target(mid, tile, gx, gy, direction, adj, world)->0;
        assert(s1.line_at(id) == mid.line_at(id));
        // Each later step leaves the line alone or points it at the new belt.
        if s2.line_at(id) != s1.line_at(id) {
            assert(s2.line_at(id)->0.output_end == side);
        }
        if s3.line_at(id) != s2.line_at(id) {
            assert(s3.line_at(id)->0.output_end == side);
        }
        if s4.line_at(id) != s3.line_at(id) {
            assert(s4.line_at(id)->0.output_end == side);
        }
        if fin.line_at(id) != s4.line_at(id) {
            assert(fin.line_at(id)->0.output_end == side);
        }
        match adj {
            Direction::North => {
                assert(reverse_target(s1, tile, gx, gy, direction, adj, world) == Some(id));
                assert(s2.line_at(id)->0.output_end == side);
            },
            Direction::East => {
                if s2.line_at(id) == mid.line_at(id) {
                    assert(reverse_target(s2, tile, gx, gy, direction, adj, world) == Some(id));
                }
                assert(s3.line_at(id)->0.output_end == side);
            },
            Direction::South => {
                if s3.line_at(id) == mid.line_at(id) {
                    assert(reverse_target(s3, tile, gx, gy, direction, adj, world) == Some(id));
                }
                assert(s4.line_at(id)->0.output_end == side);
            },
            Direction::West => {
                if s4.line_at(id) == mid.line_at(id) {
                    assert(reverse_target(s4, tile, gx, gy, direction, adj, world) == Some(id));
                }
                assert(fin.line_at(id)->0.output_end == side);
            },
        }
    }
}

/// Line `id` is one that placing belt `entity` may point at another belt:
/// the new belt's own line, toward a perpendicular belt ahead, or the line of
/// a perpendicular neighbour whose output end aims at the new belt.
pub open spec fn placement_target(
    mid: BeltNetwork,
    entity: EntityId,
    tile: Seq<u8>,
    gx: i32,
    gy: i32,
    direction: Direction,
    world: WorldState,
    id: TransportLineId,
) -> bool {
    ||| (forward_target(mid, entity, tile, gx, gy, direction, world) matches Some((f, t)) && f == id)
    ||| reverse_target(mid, tile, gx, gy, direction, Direction::North, world) == Some(id)
    ||| reverse_target(mid, tile, gx, gy, direction, Direction::East, world) == Some(id)
    ||| reverse_target(mid, tile, gx, gy, direction, Direction::South, world) == Some(id)
    ||| reverse_target(mid, tile, gx, gy, direction, Direction::West, world) == Some(id)
}

/// Output ends only ever go from open to a side injection, so a neighbour
/// line aiming its open end at a cell did so before as well.
proof fn lemma_reverse_back(a: BeltNetwork, b: BeltNetwork, tile: Seq<u8>, gx: i32, gy: i32, direction: Direction, adj: Direction, world: WorldState, id: TransportLineId)
    requires
        inject_rel(a, b),
        reverse_target(a, tile, gx, gy, direction, adj, world) == Some(id),
    ensures
        reverse_target(b, tile, gx, gy, direction, adj, world) == Some(id),
{
    assert(a.line_at(id) is Some);
    let l = b.line_at(id)->0;
    assert(a.line_at(id) == Some(with_output_end(l, a.line_at(id)->0.output_end)));
}

/// After the side-injection steps from `mid` to `fin`, each of which points
/// only its own target line, only placement targets of `mid` differ.
proof fn lemma_only_targets_change(
    mid: BeltNetwork,
    s1: BeltNetwork,
    s2: BeltNetwork,
    s3: BeltNetwork,
    s4: BeltNetwork,
    fin: BeltNetwork,
    entity: EntityId,
    tile: Seq<u8>,
    gx: i32,
    gy: i32,
    direction: Direction,
    world: WorldState,
)
    requires
        inject_rel(s1, mid),
        inject_rel(s2, s1),
        inject_rel(s3, s2),
        inject_rel(s4, s3),
        forall|id: TransportLineId| #[trigger] s1.line_at(id) != mid.line_at(id)
            ==> (forward_target(mid, entity, tile, gx, gy, direction, world) matches Some((f, t)) && f == id),
        forall|id: TransportLineId| #[trigger] s2.line_at(id) != s1.line_at(id)
            ==> reverse_target(s1, tile, gx, gy, direction, Direction::North, world) == Some(id),
        forall|id: TransportLineId| #[trigger] s3.line_at(id) != s2.line_at(id)
            ==> reverse_target(s2, tile, gx, gy, direction, Direction::East, world) == Some(id),
        forall|id: TransportLineId| #[trigger] s4.line_at(id) != s3.line_at(id)
            ==> reverse_target(s3, tile, gx, gy, direction, Direction::South, world) == Some(id),
        forall|id: TransportLineId| #[trigger] fin.line_at(id) != s4.line_at(id)
            ==> reverse_target(s4, tile, gx, gy, direction, Direction::West, world) == Some(id),
    ensures
        forall|id: TransportLineId| #[trigger] fin.line_at(id) != mid.line_at(id)
            ==> placement_target(mid, entity, tile, gx, gy, direction, world, id),
{
    lemma_inject_rel_trans(s2, s1, mid);
    lemma_inject_rel_trans(s3, s2, mid);
    lemma_inject_rel_trans(s4, s3, mid);
    assert forall|id: TransportLineId| #[trigger] fin.line_at(id) != mid.line_at(id)
        implies placement_target(mid, entity, tile, gx, gy, direction, world, id) by {
        if fin.line_at(id) != s4.line_at(id) {
            lemma_reverse_back(s4, mid, tile, gx, gy, direction, Direction::West, world, id);
        } else if s4.line_at(id) != s3.line_at(id) {
            lemma_reverse_back(s3, mid, tile, gx, gy, direction, Direction::South, world, id);
        } else if s3.line_at(id) != s2.line_at(id) {
            lemma_reverse_back(s2, mid, tile, gx, gy, direction, Direction::East, world, id);
        } else if s2.line_at(id) != s1.line_at(id) {
            lemma_reverse_back(s1, mid, tile, gx, gy, direction, Direction::North, world, id);
        }
    }
}

/// `after` is `before` with the new belt `entity`, facing `direction` at
/// `(gx, gy)`, joined to its same-facing neighbours' lines, and with side
/// injections set up between it and perpendicular neighbours.
pub open spec fn is_belt_placement(
    after: BeltNetwork,
    before: BeltNetwork,
    entity: EntityId,
    tile: Seq<u8>,
    gx: i32,
    gy: i32,
    direction: Direction,
    world: WorldState,
) -> bool {
    let up = neighbour_seg(before, world, tile, behind_cell(gx, gy, direction), direction);
    let down = neighbour_seg(before, world, tile, step_cell(gx, gy, direction), direction);
    exists|mid: BeltNetwork| {
        &&& is_join(mid, before, entity, up, down)
        &&& inject_rel(after, mid)
        &&& forward_target(mid, entity, tile, gx, gy, direction, world) matches Some((id, t))
            ==> after.line_at(id)->0.output_end == (BeltEnd::SideInject { entity: t })
        &&& forall|adj: Direction| #[trigger] reverse_target(mid, tile, gx, gy, direction, adj, world) matches Some(id)
            ==> after.line_at(id)->0.output_end is SideInject
                && (id != mid.segment_of(entity)->0.line ==> after.line_at(id)->0.output_end == (BeltEnd::SideInject { entity }))
        &&& forall|id: TransportLineId| #![trigger after.line_at(id)] after.line_at(id) != mid.line_at(id)
            ==> placement_target(mid, entity, tile, gx, gy, direction, world, id)
    }
}


/// The slot holds a line whose items all lie within it.
pub open spec fn line_within(l: Option<TransportLine>) -> bool {
    l is Some && forall|x: int| 0 <= x < l->0.items@.len() ==> (#[trigger] l->0.items@[x]).pos <= l->0.length
}

/// The number of items in a line slot.
pub open spec fn slot_items(l: Option<TransportLine>) -> int {
    match l {
        Some(t) => t.items@.len() as int,
        None => 0,
    }
}

/// The number of items on all lines.
pub open spec fn total_items(lines: Seq<Option<TransportLine>>) -> int
    decreases lines.len(),
{
    if lines.len() == 0 {
        0
    } else {
        total_items(lines.drop_last()) + slot_items(lines.last())
    }
}

proof fn lemma_total_items_update(lines: Seq<Option<TransportLine>>, i: int, x: Option<TransportLine>)
    requires
        0 <= i < lines.len(),
    ensures
        total_items(lines.update(i, x)) == total_items(lines) - slot_items(lines[i]) + slot_items(x),
    decreases lines.len(),
{
    let u = lines.update(i, x);
    if i == lines.len() - 1 {
        assert(u.drop_last() =~= lines.drop_last());
    } else {
        lemma_total_items_update(lines.drop_last(), i, x);
        assert(u.drop_last() =~= lines.drop_last().update(i, x));
    }
}

/// Line slots `after` hold the same lines as `before` up to their items.
pub open spec fn same_lines_but_items(after: Seq<Option<TransportLine>>, before: Seq<Option<TransportLine>>) -> bool {
    &&& after.len() == before.len()
    &&& forall|k: int|
        0 <= k < before.len() ==> match (#[trigger] after[k], before[k]) {
            (Some(a), Some(b)) => a.length == b.length && a.speed == b.speed && a.input_end == b.input_end
                && a.output_end == b.output_end,
            (None, None) => true,
            _ => false,
        }
}

// ---------------------------------------------------------------------------
// What a tick does to the items
// ---------------------------------------------------------------------------

/// What a line slot holds besides its items: length, speed, input end and
/// output end.
pub type LineMeta = (u32, u16, BeltEnd, BeltEnd);

/// The items of each line slot; an empty slot holds none.
pub open spec fn line_items(ls: Seq<Option<TransportLine>>) -> Seq<Seq<BeltItem>> {
    ls.map_values(|l: Option<TransportLine>| match l {
        Some(t) => t.items@,
        None => Seq::empty(),
    })
}

/// The length, speed and ends of each line slot.
pub open spec fn line_meta(ls: Seq<Option<TransportLine>>) -> Seq<Option<LineMeta>> {
    ls.map_values(|l: Option<TransportLine>| match l {
        Some(t) => Some((t.length, t.speed, t.input_end, t.output_end)),
        None => None,
    })
}

/// The length in `m`, zero for an empty slot.
pub open spec fn meta_length(m: Option<LineMeta>) -> u32 {
    match m {
        Some(x) => x.0,
        None => 0,
    }
}

/// The output end in `m`, open for an empty slot.
pub open spec fn meta_output(m: Option<LineMeta>) -> BeltEnd {
    match m {
        Some(x) => x.3,
        None => BeltEnd::Open,
    }
}

/// The input end in `m`, open for an empty slot.
pub open spec fn meta_input(m: Option<LineMeta>) -> BeltEnd {
    match m {
        Some(x) => x.2,
        None => BeltEnd::Open,
    }
}

/// The items after the front item of slot `si` moves to the input end of
/// slot `ti`, whose length is `len`.
pub open spec fn moved_to_input(its: Seq<Seq<BeltItem>>, si: int, ti: int, len: u32) -> Seq<Seq<BeltItem>> {
    let f = its[si][0];
    let a = its.update(si, its[si].drop_first());
    a.update(ti, a[ti].push(BeltItem { item: f.item, pos: len }))
}

/// The items after the front item of slot `si` is side-injected into slot
/// `ti` at `off`, in position order.
pub open spec fn moved_to_offset(its: Seq<Seq<BeltItem>>, si: int, ti: int, off: u32) -> Seq<Seq<BeltItem>> {
    let f = its[si][0];
    let a = its.update(si, its[si].drop_first());
    a.update(ti, a[ti].insert(count_below(a[ti], off) as int, BeltItem { item: f.item, pos: off }))
}

/// Whether slot `k` has a line whose front item is at its output end.
pub open spec fn front_ready(its: Seq<Seq<BeltItem>>, meta: Seq<Option<LineMeta>>, k: int) -> bool {
    meta[k] is Some && its[k].len() > 0 && its[k][0].pos == 0
}

/// The slot that slot `k` passes its front item to, at the target's input
/// end, at the start of a tick: the linked line where it has room there.
pub open spec fn planned_input(its: Seq<Seq<BeltItem>>, meta: Seq<Option<LineMeta>>, k: int) -> Option<usize> {
    if front_ready(its, meta, k) {
        match meta_output(meta[k]) {
            BeltEnd::Belt(id) => if id.0 < meta.len() && meta[id.0 as int] is Some && input_has_room(
                its[id.0 as int],
                meta_length(meta[id.0 as int]),
            ) {
                Some(id.0 as usize)
            } else {
                None
            },
            _ => None,
        }
    } else {
        None
    }
}

/// The slot and offset that slot `k` side-injects its front item into at
/// the start of a tick: the centre of the target belt's segment, where the
/// items there leave room.
pub open spec fn planned_inject(
    its: Seq<Seq<BeltItem>>,
    meta: Seq<Option<LineMeta>>,
    seg: spec_fn(EntityId) -> Option<BeltSegment>,
    k: int,
) -> Option<(usize, u32)> {
    if front_ready(its, meta, k) {
        match meta_output(meta[k]) {
            BeltEnd::SideInject { entity } => match seg(entity) {
                Some(sg) => {
                    let off = (sg.offset + FP_SCALE / 2) as u32;
                    let t = sg.line.0;
                    if t < meta.len() && meta[t as int] is Some && gap_ok(its[t as int], off, count_below(its[t as int], off) as int) {
                        Some((t as usize, off))
                    } else {
                        None
                    }
                },
                None => None,
            },
            _ => None,
        }
    } else {
        None
    }
}

/// The moves onto input ends that the first `k` slots plan, in slot order.
pub open spec fn input_plan(its: Seq<Seq<BeltItem>>, meta: Seq<Option<LineMeta>>, k: int) -> Seq<(usize, usize)>
    decreases k,
{
    if k <= 0 {
        Seq::empty()
    } else {
        let p = input_plan(its, meta, k - 1);
        match planned_input(its, meta, k - 1) {
            Some(t) => p.push(((k - 1) as usize, t)),
            None => p,
        }
    }
}

/// The side injections that the first `k` slots plan, in slot order.
pub open spec fn inject_plan(
    its: Seq<Seq<BeltItem>>,
    meta: Seq<Option<LineMeta>>,
    seg: spec_fn(EntityId) -> Option<BeltSegment>,
    k: int,
) -> Seq<(usize, usize, u32)>
    decreases k,
{
    if k <= 0 {
        Seq::empty()
    } else {
        let p = inject_plan(its, meta, seg, k - 1);
        match planned_inject(its, meta, seg, k - 1) {
            Some((t, off)) => p.push(((k - 1) as usize, t, off)),
            None => p,
        }
    }
}

/// The items after the moves of `plan`, one after the other.
pub open spec fn apply_inputs(its: Seq<Seq<BeltItem>>, meta: Seq<Option<LineMeta>>, plan: Seq<(usize, usize)>) -> Seq<Seq<BeltItem>>
    decreases plan.len(),
{
    if plan.len() == 0 {
        its
    } else {
        let a = apply_inputs(its, meta, plan.drop_last());
        let (si, ti) = plan.last();
        moved_to_input(a, si as int, ti as int, meta_length(meta[ti as int]))
    }
}

/// The items after the side injections of `plan`, one after the other.
pub open spec fn apply_injects(its: Seq<Seq<BeltItem>>, plan: Seq<(usize, usize, u32)>) -> Seq<Seq<BeltItem>>
    decreases plan.len(),
{
    if plan.len() == 0 {
        its
    } else {
        let a = apply_injects(its, plan.drop_last());
        let (si, ti, off) = plan.last();
        moved_to_offset(a, si as int, ti as int, off)
    }
}

/// The items of a line after one advance step at `speed`.
pub open spec fn advanced_items(s: Seq<BeltItem>, speed: u32) -> Seq<BeltItem> {
    Seq::new(s.len(), |i: int| BeltItem { item: s[i].item, pos: advanced_pos(s, speed, i as nat) })
}

/// The items after one tick: the front items planned from the current
/// state move onto input ends, then the planned side injections happen,
/// then every line advances.
pub open spec fn tick_items(
    its: Seq<Seq<BeltItem>>,
    meta: Seq<Option<LineMeta>>,
    seg: spec_fn(EntityId) -> Option<BeltSegment>,
) -> Seq<Seq<BeltItem>> {
    let n = meta.len() as int;
    let a = apply_injects(apply_inputs(its, meta, input_plan(its, meta, n)), inject_plan(its, meta, seg, n));
    Seq::new(meta.len(), |k: int| match meta[k] {
        Some(m) => advanced_items(a[k], m.1 as u32),
        None => a[k],
    })
}

/// The items after `m` ticks.
pub open spec fn ticks_items(
    its: Seq<Seq<BeltItem>>,
    meta: Seq<Option<LineMeta>>,
    seg: spec_fn(EntityId) -> Option<BeltSegment>,
    m: nat,
) -> Seq<Seq<BeltItem>>
    decreases m,
{
    if m == 0 {
        its
    } else {
        tick_items(ticks_items(its, meta, seg, (m - 1) as nat), meta, seg)
    }
}

// ---------------------------------------------------------------------------
// What port transfers do
// ---------------------------------------------------------------------------

/// The items of each line slot, then each machine's input slots, output
/// slots and state.
pub type PortState = (Seq<Seq<BeltItem>>, Seq<Seq<ItemStack>>, Seq<Seq<ItemStack>>, Seq<MachineState>);

/// Each machine's four slots as a sequence.
pub open spec fn slot_rows(s: Seq<[ItemStack; 4]>) -> Seq<Seq<ItemStack>> {
    s.map_values(|a: [ItemStack; 4]| a@)
}

/// The item, machine and input slot that slot `k` offers its front item to:
/// its front item is at an output end linked to a machine input port.
pub open spec fn planned_feed(its: Seq<Seq<BeltItem>>, meta: Seq<Option<LineMeta>>, k: int) -> Option<(ItemId, EntityId, usize)> {
    if front_ready(its, meta, k) {
        match meta_output(meta[k]) {
            BeltEnd::MachineInput { entity, slot } => Some((its[k][0].item, entity, slot)),
            _ => None,
        }
    } else {
        None
    }
}

/// The offers of the first `k` slots, in slot order.
pub open spec fn feed_plan(its: Seq<Seq<BeltItem>>, meta: Seq<Option<LineMeta>>, k: int) -> Seq<(usize, ItemId, EntityId, usize)>
    decreases k,
{
    if k <= 0 {
        Seq::empty()
    } else {
        let p = feed_plan(its, meta, k - 1);
        match planned_feed(its, meta, k - 1) {
            Some((item, e, slot)) => p.push(((k - 1) as usize, item, e, slot)),
            None => p,
        }
    }
}

/// One offer: where the machine's input slot is empty or holds the same
/// item, the item moves off the line's front into the slot; otherwise
/// nothing changes.
pub open spec fn feed_step(st: PortState, ids: Seq<EntityId>, step: (usize, ItemId, EntityId, usize)) -> PortState {
    let (li, item, e, slot) = step;
    match index_in(ids, e) {
        Some(i) => if slot < 4 && (st.1[i][slot as int].count == 0 || st.1[i][slot as int].item == item) {
            let s = st.1[i][slot as int];
            let row = st.1[i].update(slot as int, ItemStack { item, count: if s.count == 0 { 1u16 } else { (s.count + 1) as u16 } });
            (st.0.update(li as int, st.0[li as int].drop_first()), st.1.update(i, row), st.2, st.3)
        } else {
            st
        },
        None => st,
    }
}

/// The state after the offers of `plan`, one after the other.
pub open spec fn apply_feeds(st: PortState, ids: Seq<EntityId>, plan: Seq<(usize, ItemId, EntityId, usize)>) -> PortState
    decreases plan.len(),
{
    if plan.len() == 0 {
        st
    } else {
        feed_step(apply_feeds(st, ids, plan.drop_last()), ids, plan.last())
    }
}

/// The machine and output slot that feeds slot `k` at its input end, where
/// the line has room there.
pub open spec fn planned_draw(its: Seq<Seq<BeltItem>>, meta: Seq<Option<LineMeta>>, k: int) -> Option<(EntityId, usize)> {
    if meta[k] is Some && input_has_room(its[k], meta_length(meta[k])) {
        match meta_input(meta[k]) {
            BeltEnd::MachineOutput { entity, slot } => Some((entity, slot)),
            _ => None,
        }
    } else {
        None
    }
}

/// The draws of the first `k` slots, in slot order.
pub open spec fn draw_plan(its: Seq<Seq<BeltItem>>, meta: Seq<Option<LineMeta>>, k: int) -> Seq<(usize, EntityId, usize)>
    decreases k,
{
    if k <= 0 {
        Seq::empty()
    } else {
        let p = draw_plan(its, meta, k - 1);
        match planned_draw(its, meta, k - 1) {
            Some((e, slot)) => p.push(((k - 1) as usize, e, slot)),
            None => p,
        }
    }
}

/// One draw: where the machine's output slot holds an item, one of it goes
/// onto the line's input end and a machine blocked on full output goes
/// idle; otherwise nothing changes.
pub open spec fn draw_step(st: PortState, ids: Seq<EntityId>, meta: Seq<Option<LineMeta>>, step: (usize, EntityId, usize)) -> PortState {
    let (li, e, slot) = step;
    match index_in(ids, e) {
        Some(i) => if slot < 4 && st.2[i][slot as int].count > 0 {
            let s = st.2[i][slot as int];
            (
                st.0.update(li as int, st.0[li as int].push(BeltItem { item: s.item, pos: meta_length(meta[li as int]) })),
                st.1,
                st.2.update(i, st.2[i].update(slot as int, ItemStack { item: s.item, count: (s.count - 1) as u16 })),
                if st.3[i] == MachineState::OutputFull {
                    st.3.update(i, MachineState::Idle)
                } else {
                    st.3
                },
            )
        } else {
            st
        },
        None => st,
    }
}

/// The state after the draws of `plan`, one after the other.
pub open spec fn apply_draws(st: PortState, ids: Seq<EntityId>, meta: Seq<Option<LineMeta>>, plan: Seq<(usize, EntityId, usize)>) -> PortState
    decreases plan.len(),
{
    if plan.len() == 0 {
        st
    } else {
        draw_step(apply_draws(st, ids, meta, plan.drop_last()), ids, meta, plan.last())
    }
}

/// The state after port transfers: first the offers planned from the
/// current state, then the draws planned from the state they leave.
pub open spec fn port_transfers(st: PortState, ids: Seq<EntityId>, meta: Seq<Option<LineMeta>>) -> PortState {
    let n = meta.len() as int;
    let a = apply_feeds(st, ids, feed_plan(st.0, meta, n));
    apply_draws(a, ids, meta, draw_plan(a.0, meta, n))
}

/// Neighbouring positions in order make a sorted list.
proof fn lemma_adjacent_sorted(s: Seq<BeltItem>)
    requires
        forall|i: int| 1 <= i < s.len() ==> #[trigger] s[i].pos >= s[i - 1].pos,
    ensures
        items_sorted(s),
    decreases s.len(),
{
    if s.len() > 0 {
        let p = s.drop_last();
        assert forall|i: int| 1 <= i < p.len() implies #[trigger] p[i].pos >= p[i - 1].pos by {
            assert(p[i] == s[i] && p[i - 1] == s[i - 1]);
        }
        lemma_adjacent_sorted(p);
        assert forall|i: int, j: int| 0 <= i <= j < s.len() implies #[trigger] s[i].pos <= #[trigger] s[j].pos by {
            if j < s.len() - 1 {
                assert(p[i] == s[i] && p[j] == s[j]);
            } else if i < j {
                assert(p[i] == s[i]);
                assert(s[j - 1].pos <= s[j].pos);
                if i < j - 1 {
                    assert(p[i].pos <= p[j - 1].pos);
                }
            }
        }
    }
}


/// The items closer to the output than `bound`, in order.
pub open spec fn items_below(items: Seq<BeltItem>, bound: u32) -> Seq<BeltItem> {
    items.filter(|b: BeltItem| b.pos < bound)
}

/// The items at or beyond `bound`, moved `bound` closer to the output, in order.
pub open spec fn items_from(items: Seq<BeltItem>, bound: u32) -> Seq<BeltItem> {
    items.filter(|b: BeltItem| b.pos >= bound).map_values(|b: BeltItem| BeltItem { item: b.item, pos: (b.pos - bound) as u32 })
}

/// Keep the items closer to the output than `bound`.
fn keep_below(items: &Vec<BeltItem>, bound: u32) -> (r: Vec<BeltItem>)
    requires
        items_sorted(items@),
    ensures
        r@ == items_below(items@, bound),
        items_sorted(r@),
{
    broadcast use vstd::seq_lib::group_seq_properties;

    let ghost pred = |b: BeltItem| b.pos < bound;
    let mut out: Vec<BeltItem> = Vec::new();
    let mut i: usize = 0;
    while i < items.len()
        invariant
            pred == (|b: BeltItem| b.pos < bound),
            i <= items@.len(),
            items_sorted(items@),
            out@ == items@.subrange(0, i as int).filter(pred),
            items_sorted(out@),
            forall|x: int, k: int| 0 <= x < out@.len() && i <= k < items@.len() ==> #[trigger] out@[x].pos <= #[trigger] items@[k].pos,
        decreases items@.len() - i,
    {
        proof {
            assert(items@.subrange(0, i as int + 1) =~= items@.subrange(0, i as int).push(items@[i as int]));
            items@.subrange(0, i as int).lemma_filter_push(items@[i as int], pred);
        }
        if items[i].pos < bound {
            let ghost prev = out@;
            out.push(items[i]);
            proof {
                assert forall|x: int, y: int| 0 <= x <= y < out@.len() implies #[trigger] out@[x].pos <= #[trigger] out@[y].pos by {
                    if y == prev.len() && x < y {
                        assert(prev[x].pos <= items@[i as int].pos);
                    }
                }
                assert forall|x: int, k: int| 0 <= x < out@.len() && i + 1 <= k < items@.len() implies #[trigger] out@[x].pos <= #[trigger] items@[k].pos by {
                    if x < prev.len() {
                        assert(prev[x].pos <= items@[k].pos);
                    } else {
                        assert(items@[i as int].pos <= items@[k].pos);
                    }
                }
            }
        }
        i = i + 1;
    }
    assert(items@.subrange(0, items@.len() as int) =~= items@);
    out
}

/// Keep the items at or beyond `bound`, moved `bound` closer to the output.
fn keep_from(items: &Vec<BeltItem>, bound: u32) -> (r: Vec<BeltItem>)
    requires
        items_sorted(items@),
    ensures
        r@ == items_from(items@, bound),
        items_sorted(r@),
{
    broadcast use vstd::seq_lib::group_seq_properties;

    let ghost pred = |b: BeltItem| b.pos >= bound;
    let ghost f = |b: BeltItem| BeltItem { item: b.item, pos: (b.pos - bound) as u32 };
    let mut out: Vec<BeltItem> = Vec::new();
    let mut i: usize = 0;
    while i < items.len()
        invariant
            pred == (|b: BeltItem| b.pos >= bound),
            f == (|b: BeltItem| BeltItem { item: b.item, pos: (b.pos - bound) as u32 }),
            i <= items@.len(),
            items_sorted(items@),
            out@ == items@.subrange(0, i as int).filter(pred).map_values(f),
            items_sorted(out@),
            forall|x: int| 0 <= x < out@.len() ==> (#[trigger] out@[x]).pos + bound <= u32::MAX,
            forall|x: int, k: int| 0 <= x < out@.len() && i <= k < items@.len() ==> #[trigger] out@[x].pos + bound <= #[trigger] items@[k].pos,
        decreases items@.len() - i,
    {
        proof {
            assert(items@.subrange(0, i as int + 1) =~= items@.subrange(0, i as int).push(items@[i as int]));
            items@.subrange(0, i as int).lemma_filter_push(items@[i as int], pred);
        }
        if items[i].pos >= bound {
            let ghost prev = out@;
            let b = items[i];
            out.push(BeltItem { item: b.item, pos: b.pos - bound });
            proof {
                let fl = items@.subrange(0, i as int).filter(pred);
                assert(fl.push(b).map_values(f) =~= fl.map_values(f).push(f(b)));
                assert forall|x: int, y: int| 0 <= x <= y < out@.len() implies #[trigger] out@[x].pos <= #[trigger] out@[y].pos by {
                    if y == prev.len() && x < y {
                        assert(prev[x].pos + bound <= items@[i as int].pos);
                    }
                }
                assert forall|x: int, k: int| 0 <= x < out@.len() && i + 1 <= k < items@.len() implies #[trigger] out@[x].pos + bound <= #[trigger] items@[k].pos by {
                    if x < prev.len() {
                        assert(prev[x].pos + bound <= items@[k].pos);
                    } else {
                        assert(items@[i as int].pos <= items@[k].pos);
                    }
                }
            }
        }
        i = i + 1;
    }
    assert(items@.subrange(0, items@.len() as int) =~= items@);
    out
}

/// An output end after dropping a side injection onto belt `e`.
pub open spec fn without_inject(end: BeltEnd, e: EntityId) -> BeltEnd {
    match end {
        BeltEnd::SideInject { entity } => if entity == e { BeltEnd::Open } else { end },
        _ => end,
    }
}

/// The segment a segment becomes when those of line `from` at or beyond
/// `threshold` move to line `to`, `sub` closer to the output.
pub open spec fn moved_down(s: BeltSegment, from: TransportLineId, to: TransportLineId, threshold: u32, sub: u32) -> BeltSegment {
    if s.line == from && s.offset >= threshold {
        BeltSegment { line: to, offset: (s.offset - sub) as u32 }
    } else {
        s
    }
}


/// Line `id` of `n` with any side injection onto belt `e` dropped from its
/// output end.
pub open spec fn cleared_line(n: BeltNetwork, id: TransportLineId, e: EntityId) -> Option<TransportLine> {
    match n.line_at(id) {
        Some(l) => Some(with_output_end(l, without_inject(l.output_end, e))),
        None => None,
    }
}

/// `after` is `before` with belt `entity` taken off its line: the line is
/// dropped when it was the only segment, shortened at the end the segment
/// held, or split in two around it. Side injections onto the belt are
/// dropped; items on the segment are lost.
pub open spec fn is_belt_removal(after: BeltNetwork, before: BeltNetwork, entity: EntityId) -> bool {
    &&& after.segment_of(entity) is None
    &&& match before.segment_of(entity) {
        None => {
            &&& forall|e2: EntityId| #[trigger] after.segment_of(e2) == before.segment_of(e2)
            &&& forall|id: TransportLineId| #[trigger] after.line_at(id) == cleared_line(before, id, entity)
        },
        Some(s) => {
            let l = cleared_line(before, s.line, entity)->0;
            if l.length == FP_SCALE {
                &&& after.line_at(s.line) is None
                &&& forall|e2: EntityId| e2 != entity ==> #[trigger] after.segment_of(e2) == before.segment_of(e2)
                &&& forall|id: TransportLineId| id != s.line ==> #[trigger] after.line_at(id) == match cleared_line(before, id, entity) {
                    Some(o) => Some(with_input_end(
                        with_output_end(o, if l.input_end == BeltEnd::Belt(id) && o.output_end == BeltEnd::Belt(s.line) {
                            BeltEnd::Open
                        } else {
                            o.output_end
                        }),
                        if l.output_end == BeltEnd::Belt(id) && o.input_end == BeltEnd::Belt(s.line) {
                            BeltEnd::Open
                        } else {
                            o.input_end
                        },
                    )),
                    None => None,
                }
            } else if s.offset == 0 {
                &&& after.line_at(s.line) matches Some(a) && a.items@ == items_from(l.items@, FP_SCALE) && a.length
                    == l.length - FP_SCALE && a.speed == l.speed && a.input_end == l.input_end && a.output_end == (
                if l.output_end is SideInject || l.output_end is Splitter {
                    BeltEnd::Open
                } else {
                    l.output_end
                })
                &&& forall|e2: EntityId| e2 != entity ==> #[trigger] after.segment_of(e2) == match before.segment_of(e2) {
                    Some(s2) => Some(moved_down(s2, s.line, s.line, FP_SCALE, FP_SCALE)),
                    None => None,
                }
                &&& forall|id: TransportLineId| id != s.line ==> #[trigger] after.line_at(id) == cleared_line(before, id, entity)
            } else if s.offset + FP_SCALE == l.length {
                &&& after.line_at(s.line) matches Some(a) && a.items@ == items_below(l.items@, s.offset) && a.length
                    == l.length - FP_SCALE && a.speed == l.speed && a.output_end == l.output_end && a.input_end == (
                if l.input_end is Splitter {
                    BeltEnd::Open
                } else {
                    l.input_end
                })
                &&& forall|e2: EntityId| e2 != entity ==> #[trigger] after.segment_of(e2) == before.segment_of(e2)
                &&& forall|id: TransportLineId| id != s.line ==> #[trigger] after.line_at(id) == cleared_line(before, id, entity)
            } else {
                let split = s.offset;
                let rest = (split + FP_SCALE) as u32;
                exists|nl: TransportLineId| #![trigger before.line_at(nl)] {
                    let feeder = match l.input_end {
                        BeltEnd::Belt(f) => if f != s.line && cleared_line(before, f, entity) is Some && cleared_line(
                            before,
                            f,
                            entity,
                        )->0.output_end == BeltEnd::Belt(s.line) {
                            Some(f)
                        } else {
                            None
                        },
                        _ => None,
                    };
                    &&& before.line_at(nl) is None
                    &&& after.line_at(s.line) matches Some(a) && a.items@ == items_below(l.items@, split) && a.length
                        == split && a.speed == l.speed && a.input_end == BeltEnd::Open && a.output_end == (
                    if l.input_end == BeltEnd::Belt(s.line) && l.output_end == BeltEnd::Belt(s.line) {
                        BeltEnd::Belt(nl)
                    } else {
                        l.output_end
                    })
                    &&& after.line_at(nl) matches Some(b) && b.items@ == items_from(l.items@, rest) && b.length
                        == l.length - rest && b.speed == DEFAULT_BELT_SPEED && b.input_end == l.input_end
                        && b.output_end == BeltEnd::Open
                    &&& forall|e2: EntityId| e2 != entity ==> #[trigger] after.segment_of(e2) == match before.segment_of(e2) {
                        Some(s2) => Some(moved_down(s2, s.line, nl, rest, rest)),
                        None => None,
                    }
                    &&& forall|id: TransportLineId| id != s.line && id != nl ==> #[trigger] after.line_at(id) == if feeder
                        == Some(id) {
                        Some(with_output_end(cleared_line(before, id, entity)->0, BeltEnd::Belt(nl)))
                    } else {
                        cleared_line(before, id, entity)
                    }
                }
            }
        },
    }
}


/// Segment `s` is not in the table of `n`, but it fits its line and no
/// listed segment shares its place.
pub open spec fn detached(lines: Seq<Option<TransportLine>>, segs: Seq<(EntityId, BeltSegment)>, s: BeltSegment) -> bool {
    &&& network_wf(lines, segs)
    &&& seg_fits(lines, s)
    &&& forall|k: int| 0 <= k < segs.len() && (#[trigger] segs[k]).1.line == s.line ==> segs[k].1.offset != s.offset
}


proof fn lemma_seg_of_moved_down(
    after: Seq<(EntityId, BeltSegment)>,
    before: Seq<(EntityId, BeltSegment)>,
    from: TransportLineId,
    to: TransportLineId,
    threshold: u32,
    sub: u32,
    e: EntityId,
)
    requires
        seg_keys_unique(before),
        after.len() == before.len(),
        forall|k: int|
            0 <= k < before.len() ==> (#[trigger] after[k]).0 == before[k].0 && after[k].1 == moved_down(before[k].1, from, to, threshold, sub),
    ensures
        seg_keys_unique(after),
        seg_of(after, e) == match seg_of(before, e) {
            Some(s) => Some(moved_down(s, from, to, threshold, sub)),
            None => None,
        },
{
    assert forall|i: int, j: int| 0 <= i < j < after.len() implies #[trigger] after[i].0 != #[trigger] after[j].0 by {
        assert(after[i].0 == before[i].0 && after[j].0 == before[j].0);
    }
    if exists|i: int| 0 <= i < before.len() && (#[trigger] before[i]).0 == e {
        let i = choose|i: int| 0 <= i < before.len() && (#[trigger] before[i]).0 == e;
        lemma_seg_at(before, i);
        assert(after[i].0 == e);
        lemma_seg_at(after, i);
    } else {
        assert forall|i: int| 0 <= i < after.len() implies (#[trigger] after[i]).0 != e by {
            assert(after[i].0 == before[i].0);
        }
    }
}

} // verus!
