//! What starting a craft does to a machine's input slots: it takes exactly
//! the recipe's inputs.

use vstd::prelude::*;
use crate::game::items::ItemId;
use crate::sim::machine::{
    ItemStack, MachinePool, MachineState, consumed, machine_step, slot_total, take_from,
};

verus! {

/// What slot `s` adds to the total of `item`.
pub open spec fn stack_of(s: ItemStack, item: ItemId) -> int {
    if s.item == item && s.count > 0 {
        s.count as int
    } else {
        0
    }
}

/// How many of `item` the recipe inputs from position `j` on ask for.
pub open spec fn needed_from(inputs: Seq<(ItemId, u32)>, item: ItemId, j: nat) -> int
    decreases inputs.len() - j,
{
    if j >= inputs.len() {
        0
    } else {
        (if inputs[j as int].0 == item {
            inputs[j as int].1 as int
        } else {
            0
        }) + needed_from(inputs, item, j + 1)
    }
}

/// How many of `item` the slots from `k` on hold.
spec fn held_from(slots: Seq<ItemStack>, item: ItemId, k: nat) -> int
    decreases slots.len() - k,
{
    if k >= slots.len() {
        0
    } else {
        stack_of(slots[k as int], item) + held_from(slots, item, k + 1)
    }
}

proof fn lemma_held_nonneg(slots: Seq<ItemStack>, x: ItemId, k: nat)
    ensures
        held_from(slots, x, k) >= 0,
    decreases slots.len() - k,
{
    if k < slots.len() {
        lemma_held_nonneg(slots, x, k + 1);
    }
}

proof fn lemma_total_update(slots: Seq<ItemStack>, k: int, s: ItemStack, x: ItemId)
    requires
        0 <= k < slots.len(),
    ensures
        slot_total(slots.update(k, s), x) == slot_total(slots, x) - stack_of(slots[k], x) + stack_of(s, x),
    decreases slots.len(),
{
    let u = slots.update(k, s);
    if k == slots.len() - 1 {
        assert(u.drop_last() =~= slots.drop_last());
    } else {
        assert(u.drop_last() =~= slots.drop_last().update(k, s));
        lemma_total_update(slots.drop_last(), k, s, x);
    }
}

proof fn lemma_held_update(slots: Seq<ItemStack>, k: int, s: ItemStack, x: ItemId, from: nat)
    requires
        0 <= k < from,
        k < slots.len(),
    ensures
        held_from(slots.update(k, s), x, from) == held_from(slots, x, from),
    decreases slots.len() - from,
{
    let u = slots.update(k, s);
    if from < slots.len() {
        lemma_held_update(slots, k, s, x, from + 1);
        assert(u[from as int] == slots[from as int]);
        assert(held_from(u, x, from) == stack_of(u[from as int], x) + held_from(u, x, from + 1));
        assert(held_from(slots, x, from) == stack_of(slots[from as int], x) + held_from(slots, x, from + 1));
    }
}

proof fn lemma_total_front(a: ItemStack, t: Seq<ItemStack>, x: ItemId)
    ensures
        slot_total(seq![a] + t, x) == stack_of(a, x) + slot_total(t, x),
    decreases t.len(),
{
    let w = seq![a] + t;
    if t.len() > 0 {
        assert(w.drop_last() =~= seq![a] + t.drop_last());
        assert(w.last() == t.last());
        lemma_total_front(a, t.drop_last(), x);
        assert(slot_total(w, x) == slot_total(w.drop_last(), x) + stack_of(w.last(), x));
        assert(slot_total(t, x) == slot_total(t.drop_last(), x) + stack_of(t.last(), x));
    } else {
        assert(w.drop_last() =~= Seq::<ItemStack>::empty());
        assert(w.last() == a);
        assert(slot_total(w, x) == slot_total(w.drop_last(), x) + stack_of(w.last(), x));
    }
}

proof fn lemma_held_is_total(slots: Seq<ItemStack>, x: ItemId, k: nat)
    requires
        k <= slots.len(),
    ensures
        held_from(slots, x, k) == slot_total(slots.subrange(k as int, slots.len() as int), x),
    decreases slots.len() - k,
{
    if k < slots.len() {
        lemma_held_is_total(slots, x, k + 1);
        let t = slots.subrange(k as int + 1, slots.len() as int);
        assert(slots.subrange(k as int, slots.len() as int) =~= seq![slots[k as int]] + t);
        lemma_total_front(slots[k as int], t, x);
    } else {
        assert(slots.subrange(k as int, slots.len() as int) =~= Seq::<ItemStack>::empty());
    }
}

/// Taking up to `needed` of `item` from slot `k` on removes as many as the
/// slots from `k` on hold, up to `needed`, and nothing else.
proof fn lemma_take_from(slots: Seq<ItemStack>, item: ItemId, needed: u32, k: nat, x: ItemId)
    requires
        k <= slots.len(),
    ensures
        slot_total(take_from(slots, item, needed, k), x) == slot_total(slots, x) - if x == item {
            if needed < held_from(slots, item, k) {
                needed as int
            } else {
                held_from(slots, item, k)
            }
        } else {
            0
        },
    decreases slots.len() - k,
{
    if k < slots.len() {
        let s = slots[k as int];
        if s.item == item && s.count > 0 {
            let take = if (s.count as u32) < needed { s.count as u32 } else { needed };
            let s2 = ItemStack { item, count: (s.count - take) as u16 };
            let u = slots.update(k as int, s2);
            lemma_take_from(u, item, (needed - take) as u32, k + 1, x);
            lemma_total_update(slots, k as int, s2, x);
            lemma_held_update(slots, k as int, s2, item, k + 1);
            assert(take_from(slots, item, needed, k) == take_from(u, item, (needed - take) as u32, k + 1));
            assert(held_from(slots, item, k) == s.count + held_from(slots, item, k + 1));
            assert(stack_of(s2, x) == if x == item { s.count - take } else { 0 });
            assert(stack_of(s, x) == if x == item { s.count as int } else { 0 });
            assert(held_from(u, item, k + 1) == held_from(slots, item, k + 1));
            assert(slot_total(u, x) == slot_total(slots, x) - stack_of(s, x) + stack_of(s2, x));
            let h1 = held_from(slots, item, k + 1);
            lemma_held_nonneg(slots, item, k + 1);
            let r = slot_total(take_from(u, item, (needed - take) as u32, k + 1), x);
            if x == item {
                assert(r == slot_total(u, x) - if ((needed - take) as u32) < h1 { (needed - take) as int } else { h1 });
                assert(r == slot_total(slots, x) - if needed < held_from(slots, item, k) { needed as int } else { held_from(slots, item, k) });
            } else {
                assert(r == slot_total(slots, x));
            }
        } else {
            lemma_take_from(slots, item, needed, k + 1, x);
            assert(take_from(slots, item, needed, k) == take_from(slots, item, needed, k + 1));
            assert(held_from(slots, item, k) == held_from(slots, item, k + 1));
        }
    }
}

/// Taking the recipe inputs from position `j` on, each of which the slots
/// hold in full, removes exactly what they ask for.
proof fn lemma_consumed(slots: Seq<ItemStack>, inputs: Seq<(ItemId, u32)>, j: nat, x: ItemId)
    requires
        forall|a: int, b: int| 0 <= a < b < inputs.len() ==> #[trigger] inputs[a].0 != #[trigger] inputs[b].0,
        forall|q: int| j <= q < inputs.len() ==> slot_total(slots, (#[trigger] inputs[q]).0) >= inputs[q].1,
    ensures
        slot_total(consumed(slots, inputs, j), x) == slot_total(slots, x) - needed_from(inputs, x, j),
    decreases inputs.len() - j,
{
    if j < inputs.len() {
        let (item, n) = inputs[j as int];
        let s2 = take_from(slots, item, n, 0);
        lemma_held_is_total(slots, item, 0);
        assert(slots.subrange(0, slots.len() as int) =~= slots);
        assert forall|q: int| j + 1 <= q < inputs.len() implies slot_total(s2, (#[trigger] inputs[q]).0) >= inputs[q].1 by {
            lemma_take_from(slots, item, n, 0, inputs[q].0);
            assert(inputs[j as int].0 != inputs[q].0);
        }
        lemma_take_from(slots, item, n, 0, x);
        lemma_consumed(s2, inputs, j + 1, x);
    }
}

/// Starting a craft takes exactly the recipe's inputs: where a waiting
/// machine with a recipe of distinct input items starts working, its input
/// slots then hold, of every item, what they held before less what the
/// recipe asks for.
pub proof fn lemma_start_takes_recipe_inputs(
    before: MachinePool,
    after: MachinePool,
    recipes: crate::game::recipes::RecipeIndex,
    i: int,
    inputs: Seq<(ItemId, u32)>,
    out_item: ItemId,
    out_count: u32,
    x: ItemId,
)
    requires
        0 <= i < before.count,
        after.machine_view(i) == machine_step(
            before.hot.state@[i],
            before.hot.recipe_ticks@[i],
            before.hot.recipe_total_ticks@[i],
            before.hot.progress@[i],
            before.hot.powered@[i],
            before.cold.machine_type@[i],
            before.cold.input_slots@[i]@,
            before.cold.output_slots@[i]@,
            before.recipe_of(i, recipes),
        ),
        before.recipe_of(i, recipes) == Some((inputs, out_item, out_count)),
        before.hot.state@[i] == MachineState::Idle || before.hot.state@[i] == MachineState::NoInput,
        after.hot.state@[i] == MachineState::Working,
        forall|a: int, b: int| 0 <= a < b < inputs.len() ==> #[trigger] inputs[a].0 != #[trigger] inputs[b].0,
    ensures
        slot_total(after.cold.input_slots@[i]@, x) == slot_total(before.cold.input_slots@[i]@, x) - needed_from(inputs, x, 0),
{
    crate::sim::machine::lemma_tick_starts_only_with_every_input(before, after, recipes, i, inputs, out_item, out_count);
    lemma_consumed(before.cold.input_slots@[i]@, inputs, 0, x);
}

} // verus!
