//! Machines: per-machine item slots and the crafting state machine that
//! turns recipe inputs into outputs over a number of ticks.

use vstd::prelude::*;
use crate::game::items::{ItemId, MachineType, Recipe};
use crate::game::recipes::RecipeIndex;
use crate::game::world::EntityId;

verus! {

/// Default crafting duration in ticks (60 UPS = 2 seconds).
pub const DEFAULT_CRAFT_TICKS: u16 = 120;

/// Source machine crafting duration in ticks (60 UPS = 0.5 seconds).
pub const SOURCE_CRAFT_TICKS: u16 = 30;

/// Maximum number of input/output slots per machine.
pub const MAX_SLOTS: usize = 4;

/// An item type + count, used for machine input/output slots.
#[derive(Clone, Copy, Debug)]
pub struct ItemStack {
    pub item: ItemId,
    pub count: u16,
}

impl Default for ItemStack {
    fn default() -> (r: Self)
        ensures
            r.item == ItemId::NullSet,
            r.count == 0,
    {
        ItemStack { item: ItemId::NullSet, count: 0 }
    }
}

/// Machine processing state.
#[derive(Clone, Copy, Debug, PartialEq, Eq, Structural)]
pub enum MachineState {
    /// No recipe set, or recipe complete and waiting for new inputs.
    Idle,
    /// Actively crafting (decrementing recipe_ticks each tick).
    Working,
    /// Craft finished but output slots are full.
    OutputFull,
    /// No inputs available for the selected recipe.
    NoInput,
    /// Insufficient power.
    NoPower,
}

/// Crafting progress of a machine: none, complete, or the fraction
/// `1 - remaining / total` of a craft under way.
#[derive(Clone, Copy, Debug, PartialEq, Eq, Structural)]
pub enum Progress {
    Zero,
    Full,
    Partial { remaining: u16, total: u16 },
}

/// Hot data — touched every simulation tick.
pub struct MachineHotData {
    /// Crafting progress.
    pub progress: Vec<Progress>,
    /// Ticks remaining on current craft. 0 when idle.
    pub recipe_ticks: Vec<u16>,
    /// Total ticks for the active recipe (for computing progress ratio).
    pub recipe_total_ticks: Vec<u16>,
    /// Whether the machine gets power. Set by the power network each tick.
    pub powered: Vec<bool>,
    /// Current state.
    pub state: Vec<MachineState>,
}

/// Cold data — touched on interaction (UI, port delivery, recipe selection).
pub struct MachineColdData {
    /// Which entity in the world this machine corresponds to.
    pub entity_id: Vec<EntityId>,
    /// Machine variant (Composer, Inverter, etc.).
    pub machine_type: Vec<MachineType>,
    /// Selected recipe (index into RecipeIndex::all). None if no recipe set.
    pub recipe: Vec<Option<usize>>,
    /// Input item slots.
    pub input_slots: Vec<[ItemStack; 4]>,
    /// Output item slots.
    pub output_slots: Vec<[ItemStack; 4]>,
}

/// SoA machine pool. Hot and cold vecs are indexed by the same dense index.
pub struct MachinePool {
    pub hot: MachineHotData,
    pub cold: MachineColdData,
    /// Number of active machines.
    pub count: usize,
}

// ---------------------------------------------------------------------------
// Slot arithmetic
// ---------------------------------------------------------------------------

/// How many of `item` the slots hold (slots with a zero count hold none).
pub open spec fn slot_total(slots: Seq<ItemStack>, item: ItemId) -> int
    decreases slots.len(),
{
    if slots.len() == 0 {
        0
    } else {
        slot_total(slots.drop_last(), item) + if slots.last().item == item && slots.last().count > 0 {
            slots.last().count as int
        } else {
            0
        }
    }
}

/// The slots hold every recipe input in the required count.
pub open spec fn inputs_available(slots: Seq<ItemStack>, inputs: Seq<(ItemId, u32)>) -> bool {
    forall|j: int| 0 <= j < inputs.len() ==> slot_total(slots, (#[trigger] inputs[j]).0) >= inputs[j].1
}

/// Take up to `needed` of `item` from the slots, slot `k` onward, first slot first.
pub open spec fn take_from(slots: Seq<ItemStack>, item: ItemId, needed: u32, k: nat) -> Seq<ItemStack>
    decreases slots.len() - k,
{
    if k >= slots.len() {
        slots
    } else if slots[k as int].item == item && slots[k as int].count > 0 {
        let take = if (slots[k as int].count as u32) < needed { slots[k as int].count as u32 } else { needed };
        take_from(
            slots.update(k as int, ItemStack { item, count: (slots[k as int].count - take) as u16 }),
            item,
            (needed - take) as u32,
            k + 1,
        )
    } else {
        take_from(slots, item, needed, k + 1)
    }
}

/// The slots after taking recipe inputs `j` onward, in order.
pub open spec fn consumed(slots: Seq<ItemStack>, inputs: Seq<(ItemId, u32)>, j: nat) -> Seq<ItemStack>
    decreases inputs.len() - j,
{
    if j >= inputs.len() {
        slots
    } else {
        consumed(take_from(slots, inputs[j as int].0, inputs[j as int].1, 0), inputs, j + 1)
    }
}

/// The first slot holding some of `item`, if any.
pub open spec fn first_stack_of(slots: Seq<ItemStack>, item: ItemId) -> Option<int> {
    if exists|k: int| 0 <= k < slots.len() && (#[trigger] slots[k]).item == item && slots[k].count > 0 {
        Some(choose|k: int| 0 <= k < slots.len() && (#[trigger] slots[k]).item == item && slots[k].count > 0
            && forall|q: int| 0 <= q < k ==> !((#[trigger] slots[q]).item == item && slots[q].count > 0))
    } else {
        None
    }
}

/// The first empty slot, if any.
pub open spec fn first_empty(slots: Seq<ItemStack>) -> Option<int> {
    if exists|k: int| 0 <= k < slots.len() && (#[trigger] slots[k]).count == 0 {
        Some(choose|k: int| 0 <= k < slots.len() && (#[trigger] slots[k]).count == 0 && forall|q: int|
            0 <= q < k ==> (#[trigger] slots[q]).count != 0)
    } else {
        None
    }
}

/// The slots after placing `count` of `item`: stacked on the first slot
/// already holding it, else in the first empty slot; `None` if neither exists.
pub open spec fn placed(slots: Seq<ItemStack>, item: ItemId, count: u16) -> Option<Seq<ItemStack>> {
    match first_stack_of(slots, item) {
        Some(k) => Some(slots.update(k, ItemStack { item, count: (slots[k].count + count) as u16 })),
        None => match first_empty(slots) {
            Some(k) => Some(slots.update(k, ItemStack { item, count })),
            None => None,
        },
    }
}

/// Every slot holding `item` has room for `count` more.
pub open spec fn room_for(slots: Seq<ItemStack>, item: ItemId, count: int) -> bool {
    forall|k: int| 0 <= k < slots.len() && (#[trigger] slots[k]).item == item ==> slots[k].count + count <= u16::MAX
}

proof fn lemma_first_stack_of(slots: Seq<ItemStack>, item: ItemId, k: int)
    requires
        0 <= k < slots.len(),
        slots[k].item == item && slots[k].count > 0,
        forall|q: int| 0 <= q < k ==> !((#[trigger] slots[q]).item == item && slots[q].count > 0),
    ensures
        first_stack_of(slots, item) == Some(k),
{
    let c = choose|c: int| 0 <= c < slots.len() && (#[trigger] slots[c]).item == item && slots[c].count > 0
        && forall|q: int| 0 <= q < c ==> !((#[trigger] slots[q]).item == item && slots[q].count > 0);
    if c < k {
        assert(!(slots[c].item == item && slots[c].count > 0));
    } else if k < c {
        assert(!(slots[k].item == item && slots[k].count > 0));
    }
}

pub(crate) proof fn lemma_first_empty(slots: Seq<ItemStack>, k: int)
    requires
        0 <= k < slots.len(),
        slots[k].count == 0,
        forall|q: int| 0 <= q < k ==> (#[trigger] slots[q]).count != 0,
    ensures
        first_empty(slots) == Some(k),
{
    let c = choose|c: int| 0 <= c < slots.len() && (#[trigger] slots[c]).count == 0 && forall|q: int|
        0 <= q < c ==> (#[trigger] slots[q]).count != 0;
    if c < k {
        assert(slots[c].count != 0);
    } else if k < c {
        assert(slots[k].count != 0);
    }
}

/// Check if input slots contain all required recipe ingredients.
fn has_inputs(slots: &[ItemStack; 4], inputs: &Vec<(ItemId, u32)>) -> (r: bool)
    ensures
        r == inputs_available(slots@, inputs@),
{
    let mut j: usize = 0;
    while j < inputs.len()
        invariant
            j <= inputs@.len(),
            forall|q: int| 0 <= q < j ==> slot_total(slots@, (#[trigger] inputs@[q]).0) >= inputs@[q].1,
        decreases inputs@.len() - j,
    {
        let (item, count) = inputs[j];
        let mut have: u32 = 0;
        let mut k: usize = 0;
        while k < 4
            invariant
                k <= 4,
                slots@.len() == 4,
                have == slot_total(slots@.subrange(0, k as int), item),
                have <= k * 65535,
            decreases 4 - k,
        {
            assert(slots@.subrange(0, k as int + 1).drop_last() =~= slots@.subrange(0, k as int));
            if slots[k].item == item && slots[k].count > 0 {
                have = have + slots[k].count as u32;
            }
            k = k + 1;
        }
        assert(slots@.subrange(0, 4) =~= slots@);
        if have < count {
            return false;
        }
        j = j + 1;
    }
    true
}

/// Take up to `needed` of `item` from the slots, first slot first.
fn take_item(slots: &mut [ItemStack; 4], item: ItemId, needed: u32)
    ensures
        final(slots)@ == take_from(old(slots)@, item, needed, 0),
{
    let mut left = needed;
    let mut k: usize = 0;
    while k < 4
        invariant
            k <= 4,
            slots@.len() == 4,
            take_from(old(slots)@, item, needed, 0) == take_from(slots@, item, left, k as nat),
        decreases 4 - k,
    {
        let s = slots[k];
        if s.item == item && s.count > 0 {
            let take: u32 = if (s.count as u32) < left { s.count as u32 } else { left };
            slots[k] = ItemStack { item, count: s.count - take as u16 };
            left = left - take;
        }
        k = k + 1;
    }
}

/// Consume recipe inputs from slots.
fn consume_inputs(slots: &mut [ItemStack; 4], inputs: &Vec<(ItemId, u32)>)
    ensures
        final(slots)@ == consumed(old(slots)@, inputs@, 0),
{
    let mut j: usize = 0;
    while j < inputs.len()
        invariant
            j <= inputs@.len(),
            slots@.len() == 4,
            consumed(old(slots)@, inputs@, 0) == consumed(slots@, inputs@, j as nat),
        decreases inputs@.len() - j,
    {
        let (item, needed) = inputs[j];
        take_item(slots, item, needed);
        j = j + 1;
    }
}

fn find_stack(slots: &[ItemStack; 4], item: ItemId) -> (r: Option<usize>)
    ensures
        match r {
            Some(k) => first_stack_of(slots@, item) == Some(k as int) && k < 4,
            None => first_stack_of(slots@, item) is None,
        },
{
    let mut k: usize = 0;
    while k < 4
        invariant
            k <= 4,
            slots@.len() == 4,
            forall|q: int| 0 <= q < k ==> !((#[trigger] slots@[q]).item == item && slots@[q].count > 0),
        decreases 4 - k,
    {
        if slots[k].item == item && slots[k].count > 0 {
            proof {
                lemma_first_stack_of(slots@, item, k as int);
            }
            return Some(k);
        }
        k = k + 1;
    }
    None
}

fn find_empty(slots: &[ItemStack; 4]) -> (r: Option<usize>)
    ensures
        match r {
            Some(k) => first_empty(slots@) == Some(k as int) && k < 4,
            None => first_empty(slots@) is None,
        },
{
    let mut k: usize = 0;
    while k < 4
        invariant
            k <= 4,
            slots@.len() == 4,
            forall|q: int| 0 <= q < k ==> (#[trigger] slots@[q]).count != 0,
        decreases 4 - k,
    {
        if slots[k].count == 0 {
            proof {
                lemma_first_empty(slots@, k as int);
            }
            return Some(k);
        }
        k = k + 1;
    }
    None
}

/// Try to place output items into output slots. Returns true on success.
#[verifier::rlimit(40)]
#[verifier::spinoff_prover]
fn try_produce_output(slots: &mut [ItemStack; 4], item: ItemId, count: u16) -> (r: bool)
    requires
        room_for(old(slots)@, item, count as int),
    ensures
        r == placed(old(slots)@, item, count) is Some,
        r ==> final(slots)@ == placed(old(slots)@, item, count)->0,
        !r ==> final(slots)@ == old(slots)@,
{
    // Try to stack into existing slot with same item
    match find_stack(slots, item) {
        Some(k) => {
            let c = slots[k].count;
            slots[k] = ItemStack { item, count: c + count };
            return true;
        },
        None => {},
    }
    // Try empty slot
    match find_empty(slots) {
        Some(k) => {
            slots[k] = ItemStack { item, count };
            true
        },
        None => false,
    }
}


// ---------------------------------------------------------------------------
// The pool
// ---------------------------------------------------------------------------

/// The position of `e` among `ids`, if it occurs.
pub open spec fn index_in(ids: Seq<EntityId>, e: EntityId) -> Option<int> {
    if exists|i: int| 0 <= i < ids.len() && ids[i] == e {
        Some(choose|i: int| 0 <= i < ids.len() && ids[i] == e)
    } else {
        None
    }
}

pub open spec fn ids_distinct(ids: Seq<EntityId>) -> bool {
    forall|i: int, j: int| 0 <= i < j < ids.len() ==> ids[i] != ids[j]
}

pub(crate) proof fn lemma_index_in(ids: Seq<EntityId>, i: int)
    requires
        ids_distinct(ids),
        0 <= i < ids.len(),
    ensures
        index_in(ids, ids[i]) == Some(i),
{
    let j = choose|j: int| 0 <= j < ids.len() && ids[j] == ids[i];
    if j < i {
        assert(ids[j] != ids[i]);
    } else if i < j {
        assert(ids[i] != ids[j]);
    }
}

/// `s` with its last element moved into position `i` and the end dropped.
pub open spec fn swapped_out<T>(s: Seq<T>, i: int) -> Seq<T> {
    s.update(i, s.last()).drop_last()
}

/// What a tick does to one machine: the new state, remaining and total
/// ticks, progress, input slots and output slots, given its recipe (inputs,
/// output item, output count).
pub open spec fn machine_step(
    st: MachineState,
    ticks: u16,
    total: u16,
    progress: Progress,
    powered: bool,
    mt: MachineType,
    ins: Seq<ItemStack>,
    outs: Seq<ItemStack>,
    recipe: Option<(Seq<(ItemId, u32)>, ItemId, u32)>,
) -> (MachineState, u16, u16, Progress, Seq<ItemStack>, Seq<ItemStack>) {
    match recipe {
        None => (st, ticks, total, progress, ins, outs),
        Some((inputs, out_item, out_count)) => match st {
            MachineState::Idle | MachineState::NoInput => if inputs_available(ins, inputs) {
                let t = if mt == MachineType::Source { SOURCE_CRAFT_TICKS } else { DEFAULT_CRAFT_TICKS };
                (MachineState::Working, t, t, Progress::Zero, consumed(ins, inputs, 0), outs)
            } else {
                (MachineState::NoInput, ticks, total, progress, ins, outs)
            },
            MachineState::Working => if !powered {
                (MachineState::NoPower, ticks, total, progress, ins, outs)
            } else {
                let t2: u16 = if ticks > 0 { (ticks - 1) as u16 } else { 0 };
                if t2 == 0 {
                    match placed(outs, out_item, out_count as u16) {
                        Some(o2) => (MachineState::Idle, 0, total, Progress::Zero, ins, o2),
                        None => (MachineState::OutputFull, 0, total, Progress::Full, ins, outs),
                    }
                } else {
                    (MachineState::Working, t2, total, Progress::Partial { remaining: t2, total }, ins, outs)
                }
            },
            MachineState::OutputFull => match placed(outs, out_item, out_count as u16) {
                Some(o2) => (MachineState::Idle, ticks, total, Progress::Zero, ins, o2),
                None => (MachineState::OutputFull, ticks, total, progress, ins, outs),
            },
            MachineState::NoPower => if powered {
                (MachineState::Working, ticks, total, progress, ins, outs)
            } else {
                (MachineState::NoPower, ticks, total, progress, ins, outs)
            },
        },
    }
}

/// `after` is `before` with row `i` replaced by one with slots `row`.
pub open spec fn row_set(after: Seq<[ItemStack; 4]>, before: Seq<[ItemStack; 4]>, i: int, row: Seq<ItemStack>) -> bool {
    &&& after.len() == before.len()
    &&& forall|k: int| 0 <= k < before.len() && k != i ==> #[trigger] after[k] == before[k]
    &&& after[i]@ == row
}

/// The number of items held in a row of slots.
pub open spec fn row_items(row: Seq<ItemStack>) -> int
    decreases row.len(),
{
    if row.len() == 0 {
        0
    } else {
        row_items(row.drop_last()) + row.last().count as int
    }
}

/// The number of items held in all the rows.
pub open spec fn rows_items(rows: Seq<[ItemStack; 4]>) -> int
    decreases rows.len(),
{
    if rows.len() == 0 {
        0
    } else {
        rows_items(rows.drop_last()) + row_items(rows.last()@)
    }
}

/// The number of items held in the input and output slots of all machines.
pub open spec fn pool_items(mp: MachinePool) -> int {
    rows_items(mp.cold.input_slots@) + rows_items(mp.cold.output_slots@)
}

pub(crate) proof fn lemma_row_items_update(row: Seq<ItemStack>, k: int, x: ItemStack)
    requires
        0 <= k < row.len(),
    ensures
        row_items(row.update(k, x)) == row_items(row) - row[k].count + x.count,
    decreases row.len(),
{
    let u = row.update(k, x);
    if k == row.len() - 1 {
        assert(u.drop_last() =~= row.drop_last());
    } else {
        assert(u.drop_last() =~= row.drop_last().update(k, x));
        lemma_row_items_update(row.drop_last(), k, x);
    }
}

pub(crate) proof fn lemma_rows_items_row_set(after: Seq<[ItemStack; 4]>, before: Seq<[ItemStack; 4]>, i: int, row: Seq<ItemStack>)
    requires
        0 <= i < before.len(),
        row_set(after, before, i, row),
    ensures
        rows_items(after) == rows_items(before) - row_items(before[i]@) + row_items(row),
    decreases before.len(),
{
    if i == before.len() - 1 {
        assert(after.drop_last() =~= before.drop_last());
    } else {
        let a = after.drop_last();
        let b = before.drop_last();
        assert(row_set(a, b, i, row));
        lemma_rows_items_row_set(a, b, i, row);
    }
}

/// The first slot holding anything, if any.
pub open spec fn first_nonempty(slots: Seq<ItemStack>) -> Option<int> {
    if exists|k: int| 0 <= k < slots.len() && (#[trigger] slots[k]).count > 0 {
        Some(choose|k: int| 0 <= k < slots.len() && (#[trigger] slots[k]).count > 0 && forall|q: int|
            0 <= q < k ==> (#[trigger] slots[q]).count == 0)
    } else {
        None
    }
}

pub(crate) proof fn lemma_first_nonempty(slots: Seq<ItemStack>, k: int)
    requires
        0 <= k < slots.len(),
        slots[k].count > 0,
        forall|q: int| 0 <= q < k ==> (#[trigger] slots[q]).count == 0,
    ensures
        first_nonempty(slots) == Some(k),
{
    let c = choose|c: int| 0 <= c < slots.len() && (#[trigger] slots[c]).count > 0 && forall|q: int|
        0 <= q < c ==> (#[trigger] slots[q]).count == 0;
    if c < k {
        assert(slots[c].count == 0);
    } else if k < c {
        assert(slots[k].count == 0);
    }
}

/// `after` is `before` with machine `entity` of type `machine_type` added at
/// the end: idle, powered, with no recipe and empty slots.
pub open spec fn machine_added(after: MachinePool, before: MachinePool, entity: EntityId, machine_type: MachineType) -> bool {
    let r = before.count as int;
    &&& after.count == before.count + 1
    &&& after.index_spec(entity) == Some(r)
    &&& after.hot.progress@ == before.hot.progress@.push(Progress::Zero)
    &&& after.hot.recipe_ticks@ == before.hot.recipe_ticks@.push(0)
    &&& after.hot.recipe_total_ticks@ == before.hot.recipe_total_ticks@.push(0)
    &&& after.hot.powered@ == before.hot.powered@.push(true)
    &&& after.hot.state@ == before.hot.state@.push(MachineState::Idle)
    &&& after.cold.entity_id@ == before.cold.entity_id@.push(entity)
    &&& after.cold.machine_type@ == before.cold.machine_type@.push(machine_type)
    &&& after.cold.recipe@ == before.cold.recipe@.push(None)
    &&& after.cold.input_slots@.len() == before.cold.input_slots@.len() + 1
    &&& after.cold.output_slots@.len() == before.cold.output_slots@.len() + 1
    &&& forall|k: int| 0 <= k < before.count ==> #[trigger] after.cold.input_slots@[k] == before.cold.input_slots@[k]
        && after.cold.output_slots@[k] == before.cold.output_slots@[k]
    &&& forall|k: int| 0 <= k < 4 ==> (#[trigger] after.cold.input_slots@[r]@[k]).count == 0
        && after.cold.output_slots@[r]@[k].count == 0
}

/// A waiting machine starts a craft only with every ingredient at hand: after
/// a tick, a machine that was idle or waiting for input is working exactly
/// when, for each input `(item, n)` of its recipe, its input slots together
/// held at least `n` of `item`; otherwise it waits for input with its input
/// slots untouched.
pub proof fn lemma_tick_starts_only_with_every_input(
    before: MachinePool,
    after: MachinePool,
    recipes: RecipeIndex,
    i: int,
    inputs: Seq<(ItemId, u32)>,
    out_item: ItemId,
    out_count: u32,
)
    requires
        0 <= i < before.count,
        after.machine_view(i) == machine_step(
            before.hot.state@[i],
            before.hot.recipe_ticks@[i],
            before.hot.recipe_total_ticks@[i],
            before.hot.progress@[i],
            before.hot.powered@[i],
            before.cold.machine_type@[i],
            before.cold.input_slots@[i]@,
            before.cold.output_slots@[i]@,
            before.recipe_of(i, recipes),
        ),
        before.recipe_of(i, recipes) == Some((inputs, out_item, out_count)),
        before.hot.state@[i] == MachineState::Idle || before.hot.state@[i] == MachineState::NoInput,
    ensures
        (after.hot.state@[i] == MachineState::Working) == (forall|j: int| 0 <= j < inputs.len()
            ==> slot_total(before.cold.input_slots@[i]@, #[trigger] inputs[j].0) >= inputs[j].1),
        after.hot.state@[i] != MachineState::Working ==> after.hot.state@[i] == MachineState::NoInput
            && after.cold.input_slots@[i]@ == before.cold.input_slots@[i]@,
{
}

impl MachinePool {
    /// All columns have one entry per machine, and no entity occurs twice.
    pub open spec fn wf(&self) -> bool {
        &&& self.hot.progress@.len() == self.count
        &&& self.hot.recipe_ticks@.len() == self.count
        &&& self.hot.recipe_total_ticks@.len() == self.count
        &&& self.hot.powered@.len() == self.count
        &&& self.hot.state@.len() == self.count
        &&& self.cold.entity_id@.len() == self.count
        &&& self.cold.machine_type@.len() == self.count
        &&& self.cold.recipe@.len() == self.count
        &&& self.cold.input_slots@.len() == self.count
        &&& self.cold.output_slots@.len() == self.count
        &&& ids_distinct(self.cold.entity_id@)
    }

    /// The dense index of `e`, if it is in the pool.
    pub open spec fn index_spec(&self, e: EntityId) -> Option<int> {
        index_in(self.cold.entity_id@, e)
    }

    pub fn new() -> (r: Self)
        ensures
            r.wf(),
            r.count == 0,
    {
        MachinePool {
            hot: MachineHotData {
                progress: Vec::new(),
                recipe_ticks: Vec::new(),
                recipe_total_ticks: Vec::new(),
                powered: Vec::new(),
                state: Vec::new(),
            },
            cold: MachineColdData {
                entity_id: Vec::new(),
                machine_type: Vec::new(),
                recipe: Vec::new(),
                input_slots: Vec::new(),
                output_slots: Vec::new(),
            },
            count: 0,
        }
    }

    /// Register a newly placed machine. Returns the dense index.
    pub fn add(&mut self, entity: EntityId, machine_type: MachineType) -> (r: usize)
        requires
            old(self).wf(),
            old(self).index_spec(entity) is None,
            old(self).count < usize::MAX,
        ensures
            final(self).wf(),
            r == old(self).count,
            machine_added(*final(self), *old(self), entity, machine_type),
    {
        let idx = self.count;

        // Hot data
        self.hot.progress.push(Progress::Zero);
        self.hot.recipe_ticks.push(0);
        self.hot.recipe_total_ticks.push(0);
        self.hot.powered.push(true); // full power until the power network says otherwise
        self.hot.state.push(MachineState::Idle);

        // Cold data
        self.cold.entity_id.push(entity);
        self.cold.machine_type.push(machine_type);
        self.cold.recipe.push(None);
        let empty = [ItemStack::default(), ItemStack::default(), ItemStack::default(), ItemStack::default()];
        self.cold.input_slots.push(empty);
        self.cold.output_slots.push(empty);

        self.count = self.count + 1;
        proof {
            let ids = self.cold.entity_id@;
            assert forall|i: int, j: int| 0 <= i < j < ids.len() implies ids[i] != ids[j] by {
                if j == idx {
                    if ids[i] == entity {
                        assert(old(self).cold.entity_id@[i] == entity);
                    }
                }
            }
            lemma_index_in(ids, idx as int);
        }
        idx
    }

    /// Remove a machine by EntityId. Swap-removes with the last element.
    pub fn remove(&mut self, entity: EntityId) -> (r: bool)
        requires
            old(self).wf(),
        ensures
            final(self).wf(),
            r == old(self).index_spec(entity) is Some,
            forall|x: EntityId| #[trigger] final(self).index_spec(x) is Some ==> old(self).index_spec(x) is Some,
            !r ==> *final(self) == *old(self),
            r ==> {
                let i = old(self).index_spec(entity)->0;
                &&& final(self).count == old(self).count - 1
                &&& final(self).index_spec(entity) is None
                &&& final(self).hot.progress@ == swapped_out(old(self).hot.progress@, i)
                &&& final(self).hot.recipe_ticks@ == swapped_out(old(self).hot.recipe_ticks@, i)
                &&& final(self).hot.recipe_total_ticks@ == swapped_out(old(self).hot.recipe_total_ticks@, i)
                &&& final(self).hot.powered@ == swapped_out(old(self).hot.powered@, i)
                &&& final(self).hot.state@ == swapped_out(old(self).hot.state@, i)
                &&& final(self).cold.entity_id@ == swapped_out(old(self).cold.entity_id@, i)
                &&& final(self).cold.machine_type@ == swapped_out(old(self).cold.machine_type@, i)
                &&& final(self).cold.recipe@ == swapped_out(old(self).cold.recipe@, i)
                &&& final(self).cold.input_slots@ == swapped_out(old(self).cold.input_slots@, i)
                &&& final(self).cold.output_slots@ == swapped_out(old(self).cold.output_slots@, i)
            },
    {
        let idx = match self.index_of(entity) {
            Some(i) => i,
            None => return false,
        };
        self.hot.progress.swap_remove(idx);
        self.hot.recipe_ticks.swap_remove(idx);
        self.hot.recipe_total_ticks.swap_remove(idx);
        self.hot.powered.swap_remove(idx);
        self.hot.state.swap_remove(idx);
        self.cold.entity_id.swap_remove(idx);
        self.cold.machine_type.swap_remove(idx);
        self.cold.recipe.swap_remove(idx);
        self.cold.input_slots.swap_remove(idx);
        self.cold.output_slots.swap_remove(idx);
        self.count = self.count - 1;
        proof {
            let o = old(self).cold.entity_id@;
            let ids = self.cold.entity_id@;
            let last = (o.len() - 1) as int;
            let m = |q: int| if q == idx { last } else { q };
            assert forall|q: int| 0 <= q < ids.len() implies ids[q] == o[m(q)] by {}
            assert forall|i: int, j: int| 0 <= i < j < ids.len() implies ids[i] != ids[j] by {
                assert(ids[i] == o[m(i)] && ids[j] == o[m(j)]);
                assert(m(i) != m(j));
                if m(i) < m(j) {
                    assert(o[m(i)] != o[m(j)]);
                } else {
                    assert(o[m(j)] != o[m(i)]);
                }
            }
            assert forall|q: int| 0 <= q < ids.len() implies ids[q] != entity by {
                assert(ids[q] == o[m(q)]);
                assert(m(q) != idx);
                if m(q) < idx {
                    assert(o[m(q)] != o[idx as int]);
                } else {
                    assert(o[idx as int] != o[m(q)]);
                }
            }
            assert forall|x: EntityId| #[trigger] index_in(ids, x) is Some implies index_in(o, x) is Some by {
                let q = choose|q: int| 0 <= q < ids.len() && ids[q] == x;
                assert(ids[q] == o[m(q)]);
            }
        }
        true
    }

    /// Look up the dense index for an EntityId.
    pub fn index_of(&self, entity: EntityId) -> (r: Option<usize>)
        requires
            self.wf(),
        ensures
            match r {
                Some(i) => self.index_spec(entity) == Some(i as int) && i < self.count,
                None => self.index_spec(entity) is None,
            },
    {
        let mut i: usize = 0;
        while i < self.count
            invariant
                self.wf(),
                i <= self.count,
                forall|j: int| 0 <= j < i ==> self.cold.entity_id@[j] != entity,
            decreases self.count - i,
        {
            if self.cold.entity_id[i] == entity {
                proof {
                    lemma_index_in(self.cold.entity_id@, i as int);
                }
                return Some(i);
            }
            i = i + 1;
        }
        None
    }

    /// Get the MachineState for an entity.
    pub fn state(&self, entity: EntityId) -> (r: Option<MachineState>)
        requires
            self.wf(),
        ensures
            r == match self.index_spec(entity) {
                Some(i) => Some(self.hot.state@[i]),
                None => None,
            },
    {
        match self.index_of(entity) {
            Some(i) => Some(self.hot.state[i]),
            None => None,
        }
    }

    /// Get the machine type for an entity.
    pub fn machine_type(&self, entity: EntityId) -> (r: Option<MachineType>)
        requires
            self.wf(),
        ensures
            r == match self.index_spec(entity) {
                Some(i) => Some(self.cold.machine_type@[i]),
                None => None,
            },
    {
        match self.index_of(entity) {
            Some(i) => Some(self.cold.machine_type[i]),
            None => None,
        }
    }

    /// Get the selected recipe index for an entity.
    pub fn recipe(&self, entity: EntityId) -> (r: Option<Option<usize>>)
        requires
            self.wf(),
        ensures
            r == match self.index_spec(entity) {
                Some(i) => Some(self.cold.recipe@[i]),
                None => None,
            },
    {
        match self.index_of(entity) {
            Some(i) => Some(self.cold.recipe[i]),
            None => None,
        }
    }

    /// Get crafting progress for an entity.
    pub fn progress(&self, entity: EntityId) -> (r: Option<Progress>)
        requires
            self.wf(),
        ensures
            r == match self.index_spec(entity) {
                Some(i) => Some(self.hot.progress@[i]),
                None => None,
            },
    {
        match self.index_of(entity) {
            Some(i) => Some(self.hot.progress[i]),
            None => None,
        }
    }

    /// Get a reference to the input slots for an entity.
    pub fn input_slots(&self, entity: EntityId) -> (r: Option<&[ItemStack; 4]>)
        requires
            self.wf(),
        ensures
            match self.index_spec(entity) {
                Some(i) => r matches Some(s) && *s == self.cold.input_slots@[i],
                None => r is None,
            },
    {
        match self.index_of(entity) {
            Some(i) => Some(&self.cold.input_slots[i]),
            None => None,
        }
    }

    /// Get a reference to the output slots for an entity.
    pub fn output_slots(&self, entity: EntityId) -> (r: Option<&[ItemStack; 4]>)
        requires
            self.wf(),
        ensures
            match self.index_spec(entity) {
                Some(i) => r matches Some(s) && *s == self.cold.output_slots@[i],
                None => r is None,
            },
    {
        match self.index_of(entity) {
            Some(i) => Some(&self.cold.output_slots[i]),
            None => None,
        }
    }

    /// Set the recipe for a machine. Resets crafting progress.
    pub fn set_recipe(&mut self, entity: EntityId, recipe_idx: Option<usize>)
        requires
            old(self).wf(),
        ensures
            final(self).wf(),
            final(self).count == old(self).count,
            final(self).cold.entity_id@ == old(self).cold.entity_id@,
            final(self).cold.machine_type@ == old(self).cold.machine_type@,
            final(self).cold.input_slots@ == old(self).cold.input_slots@,
            final(self).cold.output_slots@ == old(self).cold.output_slots@,
            final(self).hot.powered@ == old(self).hot.powered@,
            match old(self).index_spec(entity) {
                None => *final(self) == *old(self),
                Some(i) => {
                    &&& final(self).cold.recipe@ == old(self).cold.recipe@.update(i, recipe_idx)
                    &&& final(self).hot.progress@ == old(self).hot.progress@.update(i, Progress::Zero)
                    &&& final(self).hot.recipe_ticks@ == old(self).hot.recipe_ticks@.update(i, 0)
                    &&& final(self).hot.recipe_total_ticks@ == old(self).hot.recipe_total_ticks@.update(i, 0)
                    &&& final(self).hot.state@ == old(self).hot.state@.update(i, MachineState::Idle)
                },
            },
    {
        if let Some(i) = self.index_of(entity) {
            self.cold.recipe.set(i, recipe_idx);
            self.hot.progress.set(i, Progress::Zero);
            self.hot.recipe_ticks.set(i, 0);
            self.hot.recipe_total_ticks.set(i, 0);
            self.hot.state.set(i, MachineState::Idle);
        }
    }

    /// Record whether a machine gets power (the power network's verdict).
    pub fn set_powered(&mut self, entity: EntityId, powered: bool)
        requires
            old(self).wf(),
        ensures
            final(self).wf(),
            final(self).count == old(self).count,
            final(self).cold == old(self).cold,
            final(self).hot.progress@ == old(self).hot.progress@,
            final(self).hot.recipe_ticks@ == old(self).hot.recipe_ticks@,
            final(self).hot.recipe_total_ticks@ == old(self).hot.recipe_total_ticks@,
            final(self).hot.state@ == old(self).hot.state@,
            final(self).hot.powered@ == match old(self).index_spec(entity) {
                Some(i) => old(self).hot.powered@.update(i, powered),
                None => old(self).hot.powered@,
            },
    {
        if let Some(i) = self.index_of(entity) {
            self.hot.powered.set(i, powered);
        }
    }

    /// Try to insert an item into a specific input slot. Returns true if accepted.
    /// Used by the port transfer system where each port maps to a specific slot.
    pub fn insert_input_at_slot(&mut self, entity: EntityId, slot: usize, item: ItemId, count: u16) -> (r: bool)
        requires
            old(self).wf(),
            old(self).index_spec(entity) is Some && slot < 4 ==> room_for(
                old(self).cold.input_slots@[old(self).index_spec(entity)->0]@,
                item,
                count as int,
            ),
        ensures
            final(self).wf(),
            final(self).count == old(self).count,
            final(self).hot == old(self).hot,
            final(self).cold.entity_id@ == old(self).cold.entity_id@,
            final(self).cold.machine_type@ == old(self).cold.machine_type@,
            final(self).cold.recipe@ == old(self).cold.recipe@,
            final(self).cold.output_slots@ == old(self).cold.output_slots@,
            match old(self).index_spec(entity) {
                Some(i) if slot < 4 => {
                    let s = old(self).cold.input_slots@[i]@[slot as int];
                    &&& r == (s.count == 0 || s.item == item)
                    &&& r ==> row_set(
                        final(self).cold.input_slots@,
                        old(self).cold.input_slots@,
                        i,
                        old(self).cold.input_slots@[i]@.update(
                            slot as int,
                            ItemStack { item, count: if s.count == 0 { count } else { (s.count + count) as u16 } },
                        ),
                    )
                    &&& !r ==> final(self).cold.input_slots@ == old(self).cold.input_slots@
                },
                _ => !r && final(self).cold.input_slots@ == old(self).cold.input_slots@,
            },
    {
        let i = match self.index_of(entity) {
            Some(i) => i,
            None => return false,
        };
        if slot >= MAX_SLOTS {
            return false;
        }
        let mut slots = self.cold.input_slots[i];
        let s = slots[slot];
        let accepted = if s.count == 0 {
            slots[slot] = ItemStack { item, count };
            true
        } else if s.item == item {
            slots[slot] = ItemStack { item, count: s.count + count };
            true
        } else {
            false // slot occupied by different item
        };
        if accepted {
            self.cold.input_slots.set(i, slots);
            proof {
                assert(slots@ =~= old(self).cold.input_slots@[i as int]@.update(
                    slot as int,
                    ItemStack { item, count: if s.count == 0 { count } else { (s.count + count) as u16 } },
                ));
            }
        }
        accepted
    }

    /// Try to insert an item into a machine's input slots. Returns true if accepted:
    /// stacked onto the first slot holding the item, else into the first empty slot.
    pub fn insert_input(&mut self, entity: EntityId, item: ItemId, count: u16) -> (r: bool)
        requires
            old(self).wf(),
            old(self).index_spec(entity) is Some ==> room_for(
                old(self).cold.input_slots@[old(self).index_spec(entity)->0]@,
                item,
                count as int,
            ),
        ensures
            final(self).wf(),
            final(self).count == old(self).count,
            final(self).hot == old(self).hot,
            final(self).cold.entity_id@ == old(self).cold.entity_id@,
            final(self).cold.machine_type@ == old(self).cold.machine_type@,
            final(self).cold.recipe@ == old(self).cold.recipe@,
            final(self).cold.output_slots@ == old(self).cold.output_slots@,
            match old(self).index_spec(entity) {
                Some(i) => {
                    let p = placed(old(self).cold.input_slots@[i]@, item, count);
                    &&& r == p is Some
                    &&& r ==> row_set(final(self).cold.input_slots@, old(self).cold.input_slots@, i, p->0)
                    &&& !r ==> final(self).cold.input_slots@ == old(self).cold.input_slots@
                },
                None => !r && final(self).cold.input_slots@ == old(self).cold.input_slots@,
            },
    {
        let i = match self.index_of(entity) {
            Some(i) => i,
            None => return false,
        };
        let mut slots = self.cold.input_slots[i];
        let ok = try_produce_output(&mut slots, item, count);
        if ok {
            self.cold.input_slots.set(i, slots);
        }
        ok
    }

    /// Take one item from `slots[slot]` if it holds any.
    fn take_one(&mut self, i: usize, slot: usize) -> (r: Option<ItemId>)
        requires
            old(self).wf(),
            i < old(self).count,
            slot < 4,
        ensures
            final(self).wf(),
            final(self).count == old(self).count,
            final(self).cold.entity_id@ == old(self).cold.entity_id@,
            final(self).cold.machine_type@ == old(self).cold.machine_type@,
            final(self).cold.recipe@ == old(self).cold.recipe@,
            final(self).cold.input_slots@ == old(self).cold.input_slots@,
            final(self).hot.progress@ == old(self).hot.progress@,
            final(self).hot.recipe_ticks@ == old(self).hot.recipe_ticks@,
            final(self).hot.recipe_total_ticks@ == old(self).hot.recipe_total_ticks@,
            final(self).hot.powered@ == old(self).hot.powered@,
            ({
                let s = old(self).cold.output_slots@[i as int]@[slot as int];
                if s.count > 0 {
                    &&& r == Some(s.item)
                    &&& row_set(
                        final(self).cold.output_slots@,
                        old(self).cold.output_slots@,
                        i as int,
                        old(self).cold.output_slots@[i as int]@.update(slot as int, ItemStack { item: s.item, count: (s.count - 1) as u16 }),
                    )
                    &&& final(self).hot.state@ == if old(self).hot.state@[i as int] == MachineState::OutputFull {
                        old(self).hot.state@.update(i as int, MachineState::Idle)
                    } else {
                        old(self).hot.state@
                    }
                } else {
                    r is None && *final(self) == *old(self)
                }
            }),
    {
        let mut slots = self.cold.output_slots[i];
        let s = slots[slot];
        if s.count > 0 {
            let item = s.item;
            slots[slot] = ItemStack { item, count: s.count - 1 };
            self.cold.output_slots.set(i, slots);
            proof {
                assert(slots@ =~= old(self).cold.output_slots@[i as int]@.update(slot as int, ItemStack { item: s.item, count: (s.count - 1) as u16 }));
            }
            if self.hot.state[i] == MachineState::OutputFull {
                self.hot.state.set(i, MachineState::Idle);
            }
            Some(item)
        } else {
            None
        }
    }

    /// Try to take an item from a specific output slot. Returns the item taken, if any.
    /// Used by the port transfer system where each port maps to a specific slot.
    /// A machine blocked on full output wakes up.
    pub fn take_output_from_slot(&mut self, entity: EntityId, slot: usize) -> (r: Option<ItemId>)
        requires
            old(self).wf(),
        ensures
            final(self).wf(),
            final(self).count == old(self).count,
            final(self).cold.entity_id@ == old(self).cold.entity_id@,
            final(self).cold.machine_type@ == old(self).cold.machine_type@,
            final(self).cold.recipe@ == old(self).cold.recipe@,
            final(self).cold.input_slots@ == old(self).cold.input_slots@,
            final(self).hot.powered@ == old(self).hot.powered@,
            final(self).hot.progress@ == old(self).hot.progress@,
            final(self).hot.recipe_ticks@ == old(self).hot.recipe_ticks@,
            final(self).hot.recipe_total_ticks@ == old(self).hot.recipe_total_ticks@,
            match old(self).index_spec(entity) {
                Some(i) if slot < 4 => {
                    let s = old(self).cold.output_slots@[i]@[slot as int];
                    &&& r == if s.count > 0 { Some(s.item) } else { None }
                    &&& s.count > 0 ==> final(self).cold.output_slots@[i]@[slot as int].count == s.count - 1
                    &&& s.count > 0 ==> final(self).hot.state@ == if old(self).hot.state@[i] == MachineState::OutputFull {
                        old(self).hot.state@.update(i, MachineState::Idle)
                    } else {
                        old(self).hot.state@
                    }
                    &&& s.count > 0 ==> row_set(
                        final(self).cold.output_slots@,
                        old(self).cold.output_slots@,
                        i,
                        old(self).cold.output_slots@[i]@.update(slot as int, ItemStack { item: s.item, count: (s.count - 1) as u16 }),
                    )
                    &&& s.count == 0 ==> *final(self) == *old(self)
                },
                _ => r is None && *final(self) == *old(self),
            },
    {
        let i = match self.index_of(entity) {
            Some(i) => i,
            None => return None,
        };
        if slot >= MAX_SLOTS {
            return None;
        }
        self.take_one(i, slot)
    }

    /// Try to take an item from a machine's output slots: one from the first
    /// non-empty slot. A machine blocked on full output wakes up.
    pub fn take_output(&mut self, entity: EntityId) -> (r: Option<ItemId>)
        requires
            old(self).wf(),
        ensures
            final(self).wf(),
            final(self).count == old(self).count,
            final(self).cold.entity_id@ == old(self).cold.entity_id@,
            final(self).cold.machine_type@ == old(self).cold.machine_type@,
            final(self).cold.recipe@ == old(self).cold.recipe@,
            final(self).cold.input_slots@ == old(self).cold.input_slots@,
            final(self).hot.powered@ == old(self).hot.powered@,
            match old(self).index_spec(entity) {
                Some(i) => {
                    let outs = old(self).cold.output_slots@[i]@;
                    match first_nonempty(outs) {
                        Some(k) => {
                            &&& r == Some(outs[k].item)
                            &&& row_set(
                                final(self).cold.output_slots@,
                                old(self).cold.output_slots@,
                                i,
                                outs.update(k, ItemStack { item: outs[k].item, count: (outs[k].count - 1) as u16 }),
                            )
                            &&& final(self).hot.state@[i] == if old(self).hot.state@[i] == MachineState::OutputFull {
                                MachineState::Idle
                            } else {
                                old(self).hot.state@[i]
                            }
                        },
                        None => r is None && *final(self) == *old(self),
                    }
                },
                None => r is None && *final(self) == *old(self),
            },
    {
        let i = match self.index_of(entity) {
            Some(i) => i,
            None => return None,
        };
        let mut k: usize = 0;
        while k < MAX_SLOTS
            invariant
                self.wf(),
                *self == *old(self),
                i < self.count,
                old(self).index_spec(entity) == Some(i as int),
                k <= 4,
                forall|q: int| 0 <= q < k ==> (#[trigger] self.cold.output_slots@[i as int]@[q]).count == 0,
            decreases 4 - k,
        {
            if self.cold.output_slots[i][k].count > 0 {
                proof {
                    lemma_first_nonempty(self.cold.output_slots@[i as int]@, k as int);
                }
                let r = self.take_one(i, k);
                proof {
                    let outs = old(self).cold.output_slots@[i as int]@;
                    assert(first_nonempty(outs) == Some(k as int));
                    assert(r == Some(outs[k as int].item));
                    assert(row_set(
                        self.cold.output_slots@,
                        old(self).cold.output_slots@,
                        i as int,
                        outs.update(k as int, ItemStack { item: outs[k as int].item, count: (outs[k as int].count - 1) as u16 }),
                    ));
                    assert(self.hot.state@[i as int] == if old(self).hot.state@[i as int] == MachineState::OutputFull {
                        MachineState::Idle
                    } else {
                        old(self).hot.state@[i as int]
                    });
                }
                return r;
            }
            k = k + 1;
        }
        proof {
            assert(first_nonempty(self.cold.output_slots@[i as int]@) is None) by {
                if exists|q: int| 0 <= q < self.cold.output_slots@[i as int]@.len() && (#[trigger] self.cold.output_slots@[i as int]@[q]).count > 0 {
                    let q = choose|q: int| 0 <= q < self.cold.output_slots@[i as int]@.len() && (#[trigger] self.cold.output_slots@[i as int]@[q]).count > 0;
                }
            }
        }
        None
    }

    /// The recipe of machine `i`, as plain content, if one is set.
    pub open spec fn recipe_of(&self, i: int, recipes: RecipeIndex) -> Option<(Seq<(ItemId, u32)>, ItemId, u32)> {
        match self.cold.recipe@[i] {
            Some(r) => Some((recipes.recipes()[r as int].inputs@, recipes.recipes()[r as int].output, recipes.recipes()[r as int].output_count)),
            None => None,
        }
    }

    /// Machine `i` as a tuple of its state, ticks, total ticks, progress and
    /// slots.
    pub open spec fn machine_view(&self, i: int) -> (MachineState, u16, u16, Progress, Seq<ItemStack>, Seq<ItemStack>) {
        (
            self.hot.state@[i],
            self.hot.recipe_ticks@[i],
            self.hot.recipe_total_ticks@[i],
            self.hot.progress@[i],
            self.cold.input_slots@[i]@,
            self.cold.output_slots@[i]@,
        )
    }

    /// Every selected recipe exists, and a finished craft always fits the
    /// output slots that already hold its item.
    pub open spec fn tick_safe(&self, recipes: RecipeIndex) -> bool {
        forall|i: int| 0 <= i < self.count ==> match #[trigger] self.cold.recipe@[i] {
            Some(r) => r < recipes.recipes().len() && room_for(
                self.cold.output_slots@[i]@,
                recipes.recipes()[r as int].output,
                (recipes.recipes()[r as int].output_count as u16) as int,
            ),
            None => true,
        }
    }

    /// Advance machine `i` by one tick under `recipe`.
    fn step_machine(&mut self, i: usize, recipe: &Recipe)
        requires
            old(self).wf(),
            i < old(self).count,
            old(self).cold.recipe@[i as int] is Some,
            room_for(old(self).cold.output_slots@[i as int]@, recipe.output, (recipe.output_count as u16) as int),
        ensures
            final(self).wf(),
            final(self).count == old(self).count,
            final(self).cold.entity_id@ == old(self).cold.entity_id@,
            final(self).cold.machine_type@ == old(self).cold.machine_type@,
            final(self).cold.recipe@ == old(self).cold.recipe@,
            final(self).hot.powered@ == old(self).hot.powered@,
            forall|j: int| 0 <= j < old(self).count && j != i ==> #[trigger] final(self).machine_view(j) == old(self).machine_view(j),
            final(self).machine_view(i as int) == machine_step(
                old(self).hot.state@[i as int],
                old(self).hot.recipe_ticks@[i as int],
                old(self).hot.recipe_total_ticks@[i as int],
                old(self).hot.progress@[i as int],
                old(self).hot.powered@[i as int],
                old(self).cold.machine_type@[i as int],
                old(self).cold.input_slots@[i as int]@,
                old(self).cold.output_slots@[i as int]@,
                Some((recipe.inputs@, recipe.output, recipe.output_count)),
            ),
    {
        match self.hot.state[i] {
            MachineState::Idle | MachineState::NoInput => {
                // Try to start crafting if inputs are available
                let mut ins = self.cold.input_slots[i];
                if has_inputs(&ins, &recipe.inputs) {
                    consume_inputs(&mut ins, &recipe.inputs);
                    self.cold.input_slots.set(i, ins);
                    let ticks = if self.cold.machine_type[i] == MachineType::Source {
                        SOURCE_CRAFT_TICKS
                    } else {
                        DEFAULT_CRAFT_TICKS
                    };
                    self.hot.recipe_ticks.set(i, ticks);
                    self.hot.recipe_total_ticks.set(i, ticks);
                    self.hot.progress.set(i, Progress::Zero);
                    self.hot.state.set(i, MachineState::Working);
                } else {
                    self.hot.state.set(i, MachineState::NoInput);
                }
            },
            MachineState::Working => {
                if !self.hot.powered[i] {
                    self.hot.state.set(i, MachineState::NoPower);
                    return;
                }
                let t = self.hot.recipe_ticks[i];
                let t2 = if t > 0 { t - 1 } else { 0 };
                self.hot.recipe_ticks.set(i, t2);
                let total = self.hot.recipe_total_ticks[i];
                self.hot.progress.set(i, Progress::Partial { remaining: t2, total });
                if t2 == 0 {
                    // Craft complete — try to deposit output
                    let mut outs = self.cold.output_slots[i];
                    if try_produce_output(&mut outs, recipe.output, recipe.output_count as u16) {
                        self.cold.output_slots.set(i, outs);
                        self.hot.progress.set(i, Progress::Zero);
                        self.hot.state.set(i, MachineState::Idle);
                    } else {
                        self.hot.progress.set(i, Progress::Full);
                        self.hot.state.set(i, MachineState::OutputFull);
                    }
                }
            },
            MachineState::OutputFull => {
                // Try to deposit the pending output (a port may have drained a slot)
                let mut outs = self.cold.output_slots[i];
                if try_produce_output(&mut outs, recipe.output, recipe.output_count as u16) {
                    self.cold.output_slots.set(i, outs);
                    self.hot.progress.set(i, Progress::Zero);
                    self.hot.state.set(i, MachineState::Idle);
                }
            },
            MachineState::NoPower => {
                // Wake up if power has been restored
                if self.hot.powered[i] {
                    self.hot.state.set(i, MachineState::Working);
                }
            },
        }
    }

    /// Run one simulation tick for all machines.
    ///
    /// State machine per machine:
    ///   Idle / NoInput  -> check inputs -> Working (consume inputs)
    ///   Working         -> decrement ticks -> check output room -> Idle or OutputFull
    ///   OutputFull      -> (woken by take_output setting state to Idle)
    ///   NoPower         -> (woken when power returns)
    pub fn tick(&mut self, recipes: &RecipeIndex)
        requires
            old(self).wf(),
            old(self).tick_safe(*recipes),
        ensures
            final(self).wf(),
            final(self).count == old(self).count,
            final(self).cold.entity_id@ == old(self).cold.entity_id@,
            final(self).cold.machine_type@ == old(self).cold.machine_type@,
            final(self).cold.recipe@ == old(self).cold.recipe@,
            final(self).hot.powered@ == old(self).hot.powered@,
            forall|i: int| 0 <= i < old(self).count ==> #[trigger] final(self).machine_view(i) == machine_step(
                old(self).hot.state@[i],
                old(self).hot.recipe_ticks@[i],
                old(self).hot.recipe_total_ticks@[i],
                old(self).hot.progress@[i],
                old(self).hot.powered@[i],
                old(self).cold.machine_type@[i],
                old(self).cold.input_slots@[i]@,
                old(self).cold.output_slots@[i]@,
                old(self).recipe_of(i, *recipes),
            ),
    {
        let n = self.count;
        let mut i: usize = 0;
        while i < n
            invariant
                self.wf(),
                n == self.count,
                n == old(self).count,
                i <= n,
                old(self).tick_safe(*recipes),
                self.cold.entity_id@ == old(self).cold.entity_id@,
                self.cold.machine_type@ == old(self).cold.machine_type@,
                self.cold.recipe@ == old(self).cold.recipe@,
                self.hot.powered@ == old(self).hot.powered@,
                forall|j: int| 0 <= j < i ==> #[trigger] self.machine_view(j) == machine_step(
                    old(self).hot.state@[j],
                    old(self).hot.recipe_ticks@[j],
                    old(self).hot.recipe_total_ticks@[j],
                    old(self).hot.progress@[j],
                    old(self).hot.powered@[j],
                    old(self).cold.machine_type@[j],
                    old(self).cold.input_slots@[j]@,
                    old(self).cold.output_slots@[j]@,
                    old(self).recipe_of(j, *recipes),
                ),
                forall|j: int| i <= j < n ==> #[trigger] self.machine_view(j) == old(self).machine_view(j),
            decreases n - i,
        {
            match self.cold.recipe[i] {
                Some(recipe_idx) => {
                    proof {
                        assert(old(self).cold.recipe@[i as int] == Some(recipe_idx));
                        assert(self.machine_view(i as int) == old(self).machine_view(i as int));
                    }
                    let recipe = recipes.recipe(recipe_idx);
                    self.step_machine(i, recipe);
                },
                None => {
                    proof {
                        assert(self.machine_view(i as int) == old(self).machine_view(i as int));
                    }
                },
            }
            i = i + 1;
        }
    }
}
} // verus!
