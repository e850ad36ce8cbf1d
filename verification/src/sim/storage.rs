//! Storage buildings: twenty stacking slots per building, filled from
//! belts and drained onto belts.

use vstd::prelude::*;
use crate::game::items::ItemId;
use crate::game::world::EntityId;
use crate::sim::machine::{
    first_empty, first_nonempty, ids_distinct, index_in, lemma_first_empty, lemma_first_nonempty,
    lemma_index_in, swapped_out, ItemStack,
};

verus! {

/// Maximum number of storage slots per building.
pub const STORAGE_SLOTS: usize = 20;

/// Maximum items per stack in a storage slot.
pub const STORAGE_STACK_SIZE: u16 = 50;

/// Per-storage state.
#[derive(Clone, Copy, Debug)]
pub struct StorageState {
    pub entity: EntityId,
    pub slots: [ItemStack; 20],
}

/// Pool of all placed storage buildings, densely packed.
pub struct StoragePool {
    storages: Vec<StorageState>,
}

/// `count` more of `item` can go on top of slot `s`.
pub open spec fn stackable(s: ItemStack, item: ItemId, count: u16) -> bool {
    s.item == item && s.count > 0 && s.count + count <= STORAGE_STACK_SIZE
}

/// The first slot onto which `count` of `item` stacks, if any.
pub open spec fn first_stackable(slots: Seq<ItemStack>, item: ItemId, count: u16) -> Option<int> {
    if exists|k: int| 0 <= k < slots.len() && stackable(#[trigger] slots[k], item, count) {
        Some(choose|k: int| 0 <= k < slots.len() && stackable(#[trigger] slots[k], item, count)
            && forall|q: int| 0 <= q < k ==> !stackable(#[trigger] slots[q], item, count))
    } else {
        None
    }
}

/// The slots after storing `count` of `item`: on the first stack of it with
/// room, else in the first empty slot; `None` when neither exists.
pub open spec fn stored(slots: Seq<ItemStack>, item: ItemId, count: u16) -> Option<Seq<ItemStack>> {
    match first_stackable(slots, item, count) {
        Some(k) => Some(slots.update(k, ItemStack { item, count: (slots[k].count + count) as u16 })),
        None => match first_empty(slots) {
            Some(k) => Some(slots.update(k, ItemStack { item, count })),
            None => None,
        },
    }
}

/// The item taken from the first non-empty slot and the slots afterwards;
/// `None` when every slot is empty.
pub open spec fn drained(slots: Seq<ItemStack>) -> Option<(ItemId, Seq<ItemStack>)> {
    match first_nonempty(slots) {
        Some(k) => Some((slots[k].item, slots.update(k, ItemStack { item: slots[k].item, count: (slots[k].count - 1) as u16 }))),
        None => None,
    }
}

/// The slots of a freshly placed storage building.
pub open spec fn empty_slots() -> Seq<ItemStack> {
    Seq::new(20, |k: int| ItemStack { item: ItemId::NullSet, count: 0 })
}

/// No slot holds more than a full stack.
pub open spec fn slots_within_stack(slots: Seq<ItemStack>) -> bool {
    forall|k: int| 0 <= k < slots.len() ==> (#[trigger] slots[k]).count <= STORAGE_STACK_SIZE
}

/// A fresh building's slots, and slots after storing at most a full stack or
/// taking an item, stay within a full stack.
pub proof fn lemma_slots_stay_within_stack(slots: Seq<ItemStack>, item: ItemId, count: u16)
    requires
        slots_within_stack(slots),
        count <= STORAGE_STACK_SIZE,
    ensures
        slots_within_stack(empty_slots()),
        stored(slots, item, count) matches Some(after) ==> slots_within_stack(after),
        drained(slots) matches Some((_, after)) ==> slots_within_stack(after),
{
    lemma_stored_within(slots, item, count);
    lemma_drained_within(slots);
}

proof fn lemma_stored_within(slots: Seq<ItemStack>, item: ItemId, count: u16)
    requires
        slots_within_stack(slots),
        count <= STORAGE_STACK_SIZE,
    ensures
        stored(slots, item, count) matches Some(after) ==> slots_within_stack(after),
{
    lemma_stack_scan(slots, item, count, 0);
}

/// Scanning from slot `i` for a slot that takes the stack.
#[verifier::spinoff_prover]
#[verifier::rlimit(40)]
proof fn lemma_stack_scan(slots: Seq<ItemStack>, item: ItemId, count: u16, i: int)
    requires
        slots_within_stack(slots),
        count <= STORAGE_STACK_SIZE,
        0 <= i <= slots.len(),
        forall|q: int| 0 <= q < i ==> !stackable(#[trigger] slots[q], item, count),
    ensures
        stored(slots, item, count) matches Some(after) ==> slots_within_stack(after),
    decreases slots.len() - i,
{
    if i < slots.len() {
        if stackable(slots[i], item, count) {
            lemma_first_stackable(slots, item, count, i);
        } else {
            lemma_stack_scan(slots, item, count, i + 1);
        }
    } else {
        assert(first_stackable(slots, item, count) is None);
        lemma_empty_scan(slots, item, count, 0);
    }
}

/// Scanning from slot `i` for an empty slot, when no slot takes the stack.
proof fn lemma_empty_scan(slots: Seq<ItemStack>, item: ItemId, count: u16, i: int)
    requires
        slots_within_stack(slots),
        count <= STORAGE_STACK_SIZE,
        first_stackable(slots, item, count) is None,
        0 <= i <= slots.len(),
        forall|q: int| 0 <= q < i ==> (#[trigger] slots[q]).count != 0,
    ensures
        stored(slots, item, count) matches Some(after) ==> slots_within_stack(after),
    decreases slots.len() - i,
{
    if i < slots.len() {
        if slots[i].count == 0 {
            lemma_first_empty(slots, i);
        } else {
            lemma_empty_scan(slots, item, count, i + 1);
        }
    } else {
        assert(first_empty(slots) is None);
    }
}

proof fn lemma_drained_within(slots: Seq<ItemStack>)
    requires
        slots_within_stack(slots),
    ensures
        drained(slots) matches Some((_, after)) ==> slots_within_stack(after),
{
    lemma_drain_scan(slots, 0);
}

/// Scanning from slot `i` for a non-empty slot.
proof fn lemma_drain_scan(slots: Seq<ItemStack>, i: int)
    requires
        slots_within_stack(slots),
        0 <= i <= slots.len(),
        forall|q: int| 0 <= q < i ==> (#[trigger] slots[q]).count == 0,
    ensures
        drained(slots) matches Some((_, after)) ==> slots_within_stack(after),
    decreases slots.len() - i,
{
    if i < slots.len() {
        if slots[i].count > 0 {
            lemma_first_nonempty(slots, i);
        } else {
            lemma_drain_scan(slots, i + 1);
        }
    } else {
        assert(first_nonempty(slots) is None);
    }
}

/// How many of `item` the slots hold.
pub open spec fn item_total(slots: Seq<ItemStack>, item: ItemId) -> int
    decreases slots.len(),
{
    if slots.len() == 0 {
        0
    } else {
        item_total(slots.drop_last(), item) + if slots.last().item == item {
            slots.last().count as int
        } else {
            0
        }
    }
}

proof fn lemma_item_total_update(slots: Seq<ItemStack>, k: int, s: ItemStack, item: ItemId)
    requires
        0 <= k < slots.len(),
    ensures
        item_total(slots.update(k, s), item) == item_total(slots, item) - (if slots[k].item == item {
            slots[k].count as int
        } else {
            0
        }) + (if s.item == item {
            s.count as int
        } else {
            0
        }),
    decreases slots.len(),
{
    let u = slots.update(k, s);
    if k == slots.len() - 1 {
        assert(u.drop_last() =~= slots.drop_last());
    } else {
        assert(u.drop_last() =~= slots.drop_last().update(k, s));
        lemma_item_total_update(slots.drop_last(), k, s, item);
    }
}

/// Storing `count` of `item` changes one slot: one that held `item` or was
/// empty now holds `count` more of `item`.
proof fn lemma_stored_one_slot(slots: Seq<ItemStack>, item: ItemId, count: u16, i: int)
    requires
        0 <= i <= slots.len(),
        forall|q: int| 0 <= q < i ==> !stackable(#[trigger] slots[q], item, count),
    ensures
        stored(slots, item, count) matches Some(after) ==> exists|k: int| 0 <= k < slots.len() && (slots[k].count == 0
            || slots[k].item == item) && #[trigger] slots.update(k, ItemStack { item, count: (slots[k].count + count) as u16 })
            == after && slots[k].count + count <= u16::MAX,
    decreases slots.len() - i,
{
    if i < slots.len() {
        if stackable(slots[i], item, count) {
            lemma_first_stackable(slots, item, count, i);
            assert(slots.update(i, ItemStack { item, count: (slots[i].count + count) as u16 }) == stored(slots, item, count)->0);
        } else {
            lemma_stored_one_slot(slots, item, count, i + 1);
        }
    } else {
        assert(first_stackable(slots, item, count) is None);
        lemma_empty_one_slot(slots, item, count, 0);
    }
}

proof fn lemma_empty_one_slot(slots: Seq<ItemStack>, item: ItemId, count: u16, i: int)
    requires
        first_stackable(slots, item, count) is None,
        0 <= i <= slots.len(),
        forall|q: int| 0 <= q < i ==> (#[trigger] slots[q]).count != 0,
    ensures
        stored(slots, item, count) matches Some(after) ==> exists|k: int| 0 <= k < slots.len() && (slots[k].count == 0
            || slots[k].item == item) && #[trigger] slots.update(k, ItemStack { item, count: (slots[k].count + count) as u16 })
            == after && slots[k].count + count <= u16::MAX,
    decreases slots.len() - i,
{
    if i < slots.len() {
        if slots[i].count == 0 {
            lemma_first_empty(slots, i);
            assert(slots.update(i, ItemStack { item, count: (slots[i].count + count) as u16 }) == stored(slots, item, count)->0);
        } else {
            lemma_empty_one_slot(slots, item, count, i + 1);
        }
    } else {
        assert(first_empty(slots) is None);
    }
}

/// Storing `count` of `item` adds `count` to how many of `item` the slots
/// hold and leaves every other item's total alone.
pub proof fn lemma_stored_totals(slots: Seq<ItemStack>, item: ItemId, count: u16, other: ItemId)
    ensures
        stored(slots, item, count) matches Some(after) ==> item_total(after, other) == item_total(slots, other) + if other
            == item {
            count as int
        } else {
            0
        },
{
    lemma_stored_one_slot(slots, item, count, 0);
    if stored(slots, item, count) is Some {
        let after = stored(slots, item, count)->0;
        let k = choose|k: int| 0 <= k < slots.len() && (slots[k].count == 0 || slots[k].item == item)
            && #[trigger] slots.update(k, ItemStack { item, count: (slots[k].count + count) as u16 }) == after
            && slots[k].count + count <= u16::MAX;
        lemma_item_total_update(slots, k, ItemStack { item, count: (slots[k].count + count) as u16 }, other);
    }
}

/// `after` is `before` with storage building `entity` added at the end,
/// every slot empty.
pub open spec fn storage_added(after: StoragePool, before: StoragePool, entity: EntityId) -> bool {
    &&& after.states().len() == before.states().len() + 1
    &&& after.states().drop_last() == before.states()
    &&& after.states().last().entity == entity
    &&& after.states().last().slots@ == empty_slots()
    &&& after.index_spec(entity) == Some(before.states().len() as int)
}

proof fn lemma_first_stackable(slots: Seq<ItemStack>, item: ItemId, count: u16, k: int)
    requires
        0 <= k < slots.len(),
        stackable(slots[k], item, count),
        forall|q: int| 0 <= q < k ==> !stackable(#[trigger] slots[q], item, count),
    ensures
        first_stackable(slots, item, count) == Some(k),
{
    let c = choose|c: int| 0 <= c < slots.len() && stackable(#[trigger] slots[c], item, count)
        && forall|q: int| 0 <= q < c ==> !stackable(#[trigger] slots[q], item, count);
    if c < k {
        assert(!stackable(slots[c], item, count));
    } else if k < c {
        assert(!stackable(slots[k], item, count));
    }
}

/// The slots after storing `count` of `item`, or `false` with the slots unchanged.
fn store_in(slots: &mut [ItemStack; 20], item: ItemId, count: u16) -> (r: bool)
    ensures
        r == stored(old(slots)@, item, count) is Some,
        r ==> final(slots)@ == stored(old(slots)@, item, count)->0,
        !r ==> final(slots)@ == old(slots)@,
{
    // First pass: stack onto an existing slot of the same item.
    let mut k: usize = 0;
    while k < STORAGE_SLOTS
        invariant
            k <= 20,
            slots@ == old(slots)@,
            slots@.len() == 20,
            forall|q: int| 0 <= q < k ==> !stackable(#[trigger] slots@[q], item, count),
        decreases 20 - k,
    {
        let s = slots[k];
        if s.item == item && s.count > 0 && (s.count as u32) + (count as u32) <= STORAGE_STACK_SIZE as u32 {
            proof {
                lemma_first_stackable(slots@, item, count, k as int);
            }
            slots[k] = ItemStack { item, count: s.count + count };
            return true;
        }
        k = k + 1;
    }
    // Second pass: the first empty slot.
    let mut k: usize = 0;
    while k < STORAGE_SLOTS
        invariant
            k <= 20,
            slots@ == old(slots)@,
            slots@.len() == 20,
            first_stackable(slots@, item, count) is None,
            forall|q: int| 0 <= q < k ==> (#[trigger] slots@[q]).count != 0,
        decreases 20 - k,
    {
        if slots[k].count == 0 {
            proof {
                lemma_first_empty(slots@, k as int);
            }
            slots[k] = ItemStack { item, count };
            return true;
        }
        k = k + 1;
    }
    false
}

/// Take one item from the first non-empty slot.
fn drain_from(slots: &mut [ItemStack; 20]) -> (r: Option<ItemId>)
    ensures
        match drained(old(slots)@) {
            Some((item, after)) => r == Some(item) && final(slots)@ == after,
            None => r is None && final(slots)@ == old(slots)@,
        },
{
    let mut k: usize = 0;
    while k < STORAGE_SLOTS
        invariant
            k <= 20,
            slots@ == old(slots)@,
            slots@.len() == 20,
            forall|q: int| 0 <= q < k ==> (#[trigger] slots@[q]).count == 0,
        decreases 20 - k,
    {
        let s = slots[k];
        if s.count > 0 {
            proof {
                lemma_first_nonempty(slots@, k as int);
            }
            slots[k] = ItemStack { item: s.item, count: s.count - 1 };
            return Some(s.item);
        }
        k = k + 1;
    }
    None
}

impl StoragePool {
    /// The buildings, in dense order.
    pub closed spec fn states(&self) -> Seq<StorageState> {
        self.storages@
    }

    /// The entity of each building, in dense order.
    pub open spec fn ids(&self) -> Seq<EntityId> {
        self.states().map_values(|s: StorageState| s.entity)
    }

    /// No entity occurs twice.
    pub open spec fn wf(&self) -> bool {
        ids_distinct(self.ids())
    }

    /// The dense index of `e`, if it is in the pool.
    pub open spec fn index_spec(&self, e: EntityId) -> Option<int> {
        index_in(self.ids(), e)
    }

    /// `after` is this pool with building `i` holding `slots` instead.
    pub open spec fn with_slots(&self, after: &StoragePool, i: int, slots: Seq<ItemStack>) -> bool {
        &&& after.states().len() == self.states().len()
        &&& forall|k: int| 0 <= k < self.states().len() && k != i ==> #[trigger] after.states()[k] == self.states()[k]
        &&& after.states()[i].entity == self.states()[i].entity
        &&& after.states()[i].slots@ == slots
    }

    pub fn new() -> (r: Self)
        ensures
            r.wf(),
            r.states().len() == 0,
    {
        StoragePool { storages: Vec::new() }
    }

    fn find(&self, entity: EntityId) -> (r: Option<usize>)
        requires
            self.wf(),
        ensures
            match r {
                Some(i) => self.index_spec(entity) == Some(i as int) && i < self.states().len(),
                None => self.index_spec(entity) is None,
            },
    {
        let mut i: usize = 0;
        while i < self.storages.len()
            invariant
                self.wf(),
                i <= self.storages@.len(),
                forall|j: int| 0 <= j < i ==> self.ids()[j] != entity,
            decreases self.storages@.len() - i,
        {
            if self.storages[i].entity == entity {
                proof {
                    lemma_index_in(self.ids(), i as int);
                }
                return Some(i);
            }
            i = i + 1;
        }
        proof {
            assert forall|j: int| 0 <= j < self.ids().len() implies self.ids()[j] != entity by {}
        }
        None
    }

    /// Register a newly placed storage building, with every slot empty.
    pub fn add(&mut self, entity: EntityId)
        requires
            old(self).wf(),
            old(self).index_spec(entity) is None,
        ensures
            final(self).wf(),
            storage_added(*final(self), *old(self), entity),
    {
        let ghost n = self.storages@.len();
        let slots = [ItemStack { item: ItemId::NullSet, count: 0 }; 20];
        self.storages.push(StorageState { entity, slots });
        proof {
            assert(slots@ =~= empty_slots());
            let ids = self.ids();
            assert forall|q: int| 0 <= q < n implies #[trigger] ids[q] == old(self).ids()[q] by {}
            assert forall|i: int, j: int| 0 <= i < j < ids.len() implies ids[i] != ids[j] by {
                if j == n {
                    if ids[i] == entity {
                        assert(old(self).ids()[i] == entity);
                    }
                } else {
                    assert(old(self).ids()[i] != old(self).ids()[j]);
                }
            }
            assert(self.storages@.drop_last() =~= old(self).storages@);
            lemma_index_in(ids, n as int);
        }
    }

    /// Remove a storage building by EntityId: the last building moves into its place.
    pub fn remove(&mut self, entity: EntityId) -> (r: bool)
        requires
            old(self).wf(),
        ensures
            final(self).wf(),
            r == old(self).index_spec(entity) is Some,
            !r ==> final(self).states() == old(self).states(),
            r ==> final(self).states() == swapped_out(old(self).states(), old(self).index_spec(entity)->0),
            final(self).index_spec(entity) is None,
            forall|x: EntityId| #[trigger] final(self).index_spec(x) is Some ==> old(self).index_spec(x) is Some,
    {
        let idx = match self.find(entity) {
            Some(i) => i,
            None => return false,
        };
        self.storages.swap_remove(idx);
        proof {
            let o = old(self).ids();
            let ids = self.ids();
            let last = (o.len() - 1) as int;
            assert(self.storages@ =~= swapped_out(old(self).storages@, idx as int));
            let m = |q: int| if q == idx { last } else { q };
            assert forall|q: int| 0 <= q < ids.len() implies ids[q] == o[m(q)] by {}
            assert forall|i: int, j: int| 0 <= i < j < ids.len() implies ids[i] != ids[j] by {
                assert(ids[i] == o[m(i)] && ids[j] == o[m(j)]);
                if m(i) < m(j) {
                    assert(o[m(i)] != o[m(j)]);
                } else {
                    assert(o[m(j)] != o[m(i)]);
                }
            }
            assert forall|q: int| 0 <= q < ids.len() implies ids[q] != entity by {
                assert(ids[q] == o[m(q)]);
                if m(q) < idx {
                    assert(o[m(q)] != o[idx as int]);
                } else {
                    assert(o[idx as int] != o[m(q)]);
                }
            }
            assert forall|x: EntityId| #[trigger] index_in(ids, x) is Some implies index_in(o, x) is Some by {
                let q = choose|q: int| 0 <= q < ids.len() && ids[q] == x;
                assert(ids[q] == o[m(q)]);
            }
        }
        true
    }

    /// The storage state for an entity.
    pub fn get(&self, entity: EntityId) -> (r: Option<&StorageState>)
        requires
            self.wf(),
        ensures
            match self.index_spec(entity) {
                Some(i) => r is Some && *r->0 == self.states()[i],
                None => r is None,
            },
    {
        match self.find(entity) {
            Some(i) => Some(&self.storages[i]),
            None => None,
        }
    }

    /// The storage state for an entity, to change in place.
    pub fn get_mut(&mut self, entity: EntityId) -> (r: Option<&mut StorageState>)
        requires
            old(self).wf(),
        ensures
            match old(self).index_spec(entity) {
                Some(i) => r is Some && *r->0 == old(self).states()[i]
                    && final(self).states() == old(self).states().update(i, *final(r->0)),
                None => r is None && final(self).states() == old(self).states(),
            },
    {
        match self.find(entity) {
            Some(i) => Some(&mut self.storages[i]),
            None => None,
        }
    }

    /// Try to store an item in the building: on the first slot of the same
    /// item with room, else in the first empty slot. Returns false, changing
    /// nothing, when neither exists or the building is unknown.
    pub fn accept_input(&mut self, entity: EntityId, item: ItemId, count: u16) -> (r: bool)
        requires
            old(self).wf(),
        ensures
            final(self).wf(),
            match old(self).index_spec(entity) {
                Some(i) => {
                    let p = stored(old(self).states()[i].slots@, item, count);
                    &&& r == p is Some
                    &&& r ==> old(self).with_slots(final(self), i, p->0)
                    &&& !r ==> final(self).states() == old(self).states()
                },
                None => !r && final(self).states() == old(self).states(),
            },
    {
        let i = match self.find(entity) {
            Some(i) => i,
            None => return false,
        };
        let mut slots = self.storages[i].slots;
        let ok = store_in(&mut slots, item, count);
        if ok {
            let e = self.storages[i].entity;
            self.storages.set(i, StorageState { entity: e, slots });
            proof {
                assert forall|q: int| 0 <= q < self.ids().len() implies #[trigger] self.ids()[q] == old(self).ids()[q] by {}
                assert(self.ids() =~= old(self).ids());
            }
        }
        ok
    }

    /// Take one item from the first non-empty slot of the building.
    pub fn provide_output(&mut self, entity: EntityId) -> (r: Option<ItemId>)
        requires
            old(self).wf(),
        ensures
            final(self).wf(),
            match old(self).index_spec(entity) {
                Some(i) => match drained(old(self).states()[i].slots@) {
                    Some((item, after)) => r == Some(item) && old(self).with_slots(final(self), i, after),
                    None => r is None && final(self).states() == old(self).states(),
                },
                None => r is None && final(self).states() == old(self).states(),
            },
    {
        let i = match self.find(entity) {
            Some(i) => i,
            None => return None,
        };
        let mut slots = self.storages[i].slots;
        let taken = drain_from(&mut slots);
        if taken.is_some() {
            let e = self.storages[i].entity;
            self.storages.set(i, StorageState { entity: e, slots });
            proof {
                assert forall|q: int| 0 <= q < self.ids().len() implies #[trigger] self.ids()[q] == old(self).ids()[q] by {}
                assert(self.ids() =~= old(self).ids());
            }
        }
        taken
    }
}

/// How many items the slots hold in all.
pub open spec fn slot_sum(slots: Seq<ItemStack>) -> int
    decreases slots.len(),
{
    if slots.len() == 0 {
        0
    } else {
        slot_sum(slots.drop_last()) + slots.last().count
    }
}

proof fn lemma_slot_sum_update(slots: Seq<ItemStack>, k: int, s: ItemStack)
    requires
        0 <= k < slots.len(),
    ensures
        slot_sum(slots.update(k, s)) == slot_sum(slots) - slots[k].count + s.count,
    decreases slots.len(),
{
    let u = slots.update(k, s);
    if k == slots.len() - 1 {
        assert(u.drop_last() =~= slots.drop_last());
    } else {
        assert(u.drop_last() =~= slots.drop_last().update(k, s));
        lemma_slot_sum_update(slots.drop_last(), k, s);
    }
}

proof fn lemma_min_stackable(slots: Seq<ItemStack>, item: ItemId, count: u16, k: int)
    requires
        0 <= k < slots.len(),
        stackable(slots[k], item, count),
    ensures
        first_stackable(slots, item, count) matches Some(m) && 0 <= m <= k && stackable(slots[m], item, count),
    decreases k,
{
    if exists|q: int| 0 <= q < k && stackable(#[trigger] slots[q], item, count) {
        let q = choose|q: int| 0 <= q < k && stackable(#[trigger] slots[q], item, count);
        lemma_min_stackable(slots, item, count, q);
    } else {
        lemma_first_stackable(slots, item, count, k);
    }
}

proof fn lemma_min_empty(slots: Seq<ItemStack>, k: int)
    requires
        0 <= k < slots.len(),
        slots[k].count == 0,
    ensures
        first_empty(slots) matches Some(m) && 0 <= m <= k && slots[m].count == 0,
    decreases k,
{
    if exists|q: int| 0 <= q < k && (#[trigger] slots[q]).count == 0 {
        let q = choose|q: int| 0 <= q < k && (#[trigger] slots[q]).count == 0;
        lemma_min_empty(slots, q);
    } else {
        lemma_first_empty(slots, k);
    }
}

proof fn lemma_min_nonempty(slots: Seq<ItemStack>, k: int)
    requires
        0 <= k < slots.len(),
        slots[k].count > 0,
    ensures
        first_nonempty(slots) matches Some(m) && 0 <= m <= k && slots[m].count > 0,
    decreases k,
{
    if exists|q: int| 0 <= q < k && (#[trigger] slots[q]).count > 0 {
        let q = choose|q: int| 0 <= q < k && (#[trigger] slots[q]).count > 0;
        lemma_min_nonempty(slots, q);
    } else {
        lemma_first_nonempty(slots, k);
    }
}

proof fn lemma_store_count(slots: Seq<ItemStack>, item: ItemId, count: u16)
    ensures
        stored(slots, item, count) matches Some(after) ==> slot_sum(after) == slot_sum(slots) + count,
{
    if first_stackable(slots, item, count) is Some {
        let k0 = choose|k: int| 0 <= k < slots.len() && stackable(#[trigger] slots[k], item, count);
        lemma_min_stackable(slots, item, count, k0);
        let k = first_stackable(slots, item, count)->0;
        lemma_slot_sum_update(slots, k, ItemStack { item, count: (slots[k].count + count) as u16 });
    } else if first_empty(slots) is Some {
        let k0 = choose|k: int| 0 <= k < slots.len() && (#[trigger] slots[k]).count == 0;
        lemma_min_empty(slots, k0);
        let k = first_empty(slots)->0;
        lemma_slot_sum_update(slots, k, ItemStack { item, count });
    }
}

proof fn lemma_drain_count(slots: Seq<ItemStack>)
    ensures
        drained(slots) matches Some((_, after)) ==> slot_sum(after) == slot_sum(slots) - 1,
{
    if first_nonempty(slots) is Some {
        let k0 = choose|k: int| 0 <= k < slots.len() && (#[trigger] slots[k]).count > 0;
        lemma_min_nonempty(slots, k0);
        let k = first_nonempty(slots)->0;
        lemma_slot_sum_update(slots, k, ItemStack { item: slots[k].item, count: (slots[k].count - 1) as u16 });
    }
}

/// Storing `count` items adds exactly `count` to what the slots hold, and
/// taking one item out removes exactly one.
pub proof fn lemma_store_and_drain_counts(slots: Seq<ItemStack>, item: ItemId, count: u16)
    ensures
        stored(slots, item, count) matches Some(after) ==> slot_sum(after) == slot_sum(slots) + count,
        drained(slots) matches Some((_, after)) ==> slot_sum(after) == slot_sum(slots) - 1,
{
    lemma_store_count(slots, item, count);
    lemma_drain_count(slots);
}

/// What goes into an empty storage building comes back out: storing a
/// non-zero count of `item` in empty slots, then taking one item, gives `item`.
pub proof fn lemma_store_then_drain(slots: Seq<ItemStack>, item: ItemId, count: u16)
    requires
        slots.len() > 0,
        count > 0,
        forall|k: int| 0 <= k < slots.len() ==> (#[trigger] slots[k]).count == 0,
    ensures
        stored(slots, item, count) is Some,
        drained(stored(slots, item, count)->0) matches Some((got, _)) && got == item,
{
    assert(first_stackable(slots, item, count) is None) by {
        if exists|k: int| 0 <= k < slots.len() && stackable(#[trigger] slots[k], item, count) {
            let k = choose|k: int| 0 <= k < slots.len() && stackable(#[trigger] slots[k], item, count);
            assert(slots[k].count == 0);
        }
    }
    assert forall|q: int| 0 <= q < 0 implies (#[trigger] slots[q]).count != 0 by {}
    lemma_first_empty(slots, 0);
    let after = slots.update(0, ItemStack { item, count });
    assert forall|q: int| 0 <= q < 0 implies (#[trigger] after[q]).count == 0 by {}
    lemma_first_nonempty(after, 0);
}

} // verus!
