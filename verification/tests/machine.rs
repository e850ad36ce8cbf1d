use octofact::game::items::{ItemId, MachineType};
use octofact::game::recipes::RecipeIndex;
use octofact::game::world::EntityId;
use octofact::sim::machine::{
    ItemStack, MachinePool, MachineState, Progress, DEFAULT_CRAFT_TICKS, SOURCE_CRAFT_TICKS,
};

/// Hands out fresh entity ids, as the world's allocator does.
struct Ids(u64);

impl Ids {
    fn insert(&mut self, _: ()) -> EntityId {
        self.0 += 1;
        EntityId(self.0)
    }
}

/// The share of the craft done, as the renderer draws it.
fn fraction(p: Progress) -> f32 {
    match p {
        Progress::Zero => 0.0,
        Progress::Full => 1.0,
        Progress::Partial { remaining, total } => 1.0 - remaining as f32 / total as f32,
    }
}

fn make_entity() -> (Ids, EntityId) {
    let mut sm = Ids(0);
    let id = sm.insert(());
    (sm, id)
}

#[test]
fn machine_add_and_lookup() {
    let mut pool = MachinePool::new();
    let (mut sm, e1) = make_entity();
    let e2 = sm.insert(());

    let idx1 = pool.add(e1, MachineType::Composer);
    let idx2 = pool.add(e2, MachineType::Inverter);

    assert_eq!(idx1, 0);
    assert_eq!(idx2, 1);
    assert_eq!(pool.count, 2);
    assert_eq!(pool.state(e1), Some(MachineState::Idle));
    assert_eq!(pool.machine_type(e2), Some(MachineType::Inverter));
}

#[test]
fn machine_remove_swap() {
    let mut pool = MachinePool::new();
    let mut sm = Ids(0);
    let e1 = sm.insert(());
    let e2 = sm.insert(());
    let e3 = sm.insert(());

    pool.add(e1, MachineType::Composer);
    pool.add(e2, MachineType::Inverter);
    pool.add(e3, MachineType::Embedder);

    // Remove middle element — e3 should swap into index 1
    assert!(pool.remove(e2));
    assert_eq!(pool.count, 2);
    assert_eq!(pool.index_of(e2), None);
    assert_eq!(pool.index_of(e1), Some(0));
    assert_eq!(pool.index_of(e3), Some(1));
    assert_eq!(pool.machine_type(e3), Some(MachineType::Embedder));
}

#[test]
fn machine_remove_last_no_swap() {
    let mut pool = MachinePool::new();
    let (mut sm, e1) = make_entity();
    let e2 = sm.insert(());

    pool.add(e1, MachineType::Composer);
    pool.add(e2, MachineType::Inverter);

    assert!(pool.remove(e2));
    assert_eq!(pool.count, 1);
    assert_eq!(pool.index_of(e1), Some(0));
    assert_eq!(pool.machine_type(e1), Some(MachineType::Composer));
}

#[test]
fn machine_remove_nonexistent() {
    let mut pool = MachinePool::new();
    let (_, e1) = make_entity();
    assert!(!pool.remove(e1));
}

#[test]
fn set_recipe_resets_state() {
    let mut pool = MachinePool::new();
    let (_, e1) = make_entity();
    pool.add(e1, MachineType::Composer);

    // Simulate being in Working state
    let i = pool.index_of(e1).unwrap();
    pool.hot.state[i] = MachineState::Working;
    pool.hot.progress[i] = Progress::Partial { remaining: 60, total: 120 };
    pool.hot.recipe_ticks[i] = 60;

    pool.set_recipe(e1, Some(0));
    assert_eq!(pool.hot.state[i], MachineState::Idle);
    assert_eq!(pool.hot.progress[i], Progress::Zero);
    assert_eq!(pool.hot.recipe_ticks[i], 0);
    assert_eq!(pool.cold.recipe[i], Some(0));
}

#[test]
fn input_output_slots() {
    let mut pool = MachinePool::new();
    let (_, e1) = make_entity();
    pool.add(e1, MachineType::Composer);

    // Insert items into input
    assert!(pool.insert_input(e1, ItemId::Point, 2));
    assert!(pool.insert_input(e1, ItemId::Point, 3)); // stacks
    assert!(pool.insert_input(e1, ItemId::NullSet, 1)); // new slot

    let slots = pool.input_slots(e1).unwrap();
    assert_eq!(slots[0].item, ItemId::Point);
    assert_eq!(slots[0].count, 5);
    assert_eq!(slots[1].item, ItemId::NullSet);
    assert_eq!(slots[1].count, 1);

    // Fill remaining slots
    assert!(pool.insert_input(e1, ItemId::Preimage, 1));
    assert!(pool.insert_input(e1, ItemId::Wavelet, 1));
    // All 4 slots full with different items — should reject new item type
    assert!(!pool.insert_input(e1, ItemId::LineSegment, 1));
    // But can still stack existing items
    assert!(pool.insert_input(e1, ItemId::Point, 1));
}

#[test]
fn take_output() {
    let mut pool = MachinePool::new();
    let (_, e1) = make_entity();
    pool.add(e1, MachineType::Composer);

    // Put items in output slots directly
    let i = pool.index_of(e1).unwrap();
    pool.cold.output_slots[i][0] = ItemStack {
        item: ItemId::LineSegment,
        count: 2,
    };
    pool.hot.state[i] = MachineState::OutputFull;

    // Take one
    assert_eq!(pool.take_output(e1), Some(ItemId::LineSegment));
    assert_eq!(pool.cold.output_slots[i][0].count, 1);
    // Machine should wake from OutputFull
    assert_eq!(pool.hot.state[i], MachineState::Idle);

    // Take another
    assert_eq!(pool.take_output(e1), Some(ItemId::LineSegment));
    assert_eq!(pool.cold.output_slots[i][0].count, 0);

    // Nothing left
    assert_eq!(pool.take_output(e1), None);
}

#[test]
fn insert_input_at_slot_empty() {
    let mut pool = MachinePool::new();
    let (_, e1) = make_entity();
    pool.add(e1, MachineType::Composer);
    assert!(pool.insert_input_at_slot(e1, 0, ItemId::Point, 2));
    let slots = pool.input_slots(e1).unwrap();
    assert_eq!(slots[0].item, ItemId::Point);
    assert_eq!(slots[0].count, 2);
}

#[test]
fn insert_input_at_slot_stacks() {
    let mut pool = MachinePool::new();
    let (_, e1) = make_entity();
    pool.add(e1, MachineType::Composer);
    assert!(pool.insert_input_at_slot(e1, 0, ItemId::Point, 2));
    assert!(pool.insert_input_at_slot(e1, 0, ItemId::Point, 3));
    let slots = pool.input_slots(e1).unwrap();
    assert_eq!(slots[0].count, 5);
}

#[test]
fn insert_input_at_slot_rejects_different_item() {
    let mut pool = MachinePool::new();
    let (_, e1) = make_entity();
    pool.add(e1, MachineType::Composer);
    assert!(pool.insert_input_at_slot(e1, 0, ItemId::Point, 1));
    assert!(!pool.insert_input_at_slot(e1, 0, ItemId::NullSet, 1));
}

#[test]
fn take_output_from_slot() {
    let mut pool = MachinePool::new();
    let (_, e1) = make_entity();
    pool.add(e1, MachineType::Composer);
    let i = pool.index_of(e1).unwrap();
    pool.cold.output_slots[i][0] = ItemStack {
        item: ItemId::LineSegment,
        count: 2,
    };
    pool.hot.state[i] = MachineState::OutputFull;

    assert_eq!(pool.take_output_from_slot(e1, 0), Some(ItemId::LineSegment));
    assert_eq!(pool.cold.output_slots[i][0].count, 1);
    assert_eq!(pool.hot.state[i], MachineState::Idle);

    assert_eq!(pool.take_output_from_slot(e1, 0), Some(ItemId::LineSegment));
    assert_eq!(pool.cold.output_slots[i][0].count, 0);

    assert_eq!(pool.take_output_from_slot(e1, 0), None);
}

#[test]
fn take_output_from_slot_wrong_slot() {
    let mut pool = MachinePool::new();
    let (_, e1) = make_entity();
    pool.add(e1, MachineType::Composer);
    let i = pool.index_of(e1).unwrap();
    pool.cold.output_slots[i][0] = ItemStack {
        item: ItemId::LineSegment,
        count: 1,
    };
    // Slot 1 is empty
    assert_eq!(pool.take_output_from_slot(e1, 1), None);
    // Slot 0 still has the item
    assert_eq!(pool.take_output_from_slot(e1, 0), Some(ItemId::LineSegment));
}

// --- Tick state machine tests ---

fn setup_composer_with_recipe() -> (MachinePool, EntityId, RecipeIndex) {
    let mut pool = MachinePool::new();
    let (_, e1) = make_entity();
    pool.add(e1, MachineType::Composer);
    let recipes = RecipeIndex::new();
    // Recipe 0: Composer, 2x Point -> LineSegment
    pool.set_recipe(e1, Some(0));
    (pool, e1, recipes)
}

#[test]
fn tick_no_recipe_stays_idle() {
    let mut pool = MachinePool::new();
    let (_, e1) = make_entity();
    pool.add(e1, MachineType::Composer);
    let recipes = RecipeIndex::new();
    // No recipe set
    pool.tick(&recipes);
    assert_eq!(pool.state(e1), Some(MachineState::Idle));
}

#[test]
fn tick_no_inputs_transitions_to_noinput() {
    let (mut pool, e1, recipes) = setup_composer_with_recipe();
    // No inputs provided
    pool.tick(&recipes);
    assert_eq!(pool.state(e1), Some(MachineState::NoInput));
}

#[test]
fn tick_with_inputs_starts_working() {
    let (mut pool, e1, recipes) = setup_composer_with_recipe();
    pool.insert_input(e1, ItemId::Point, 2);
    pool.tick(&recipes);
    assert_eq!(pool.state(e1), Some(MachineState::Working));
    // Inputs should be consumed
    let slots = pool.input_slots(e1).unwrap();
    assert_eq!(slots[0].count, 0);
}

#[test]
fn tick_working_decrements_ticks() {
    let (mut pool, e1, recipes) = setup_composer_with_recipe();
    pool.insert_input(e1, ItemId::Point, 2);
    pool.tick(&recipes); // Tick 1: Idle -> Working (recipe_ticks = 120)
    let i = pool.index_of(e1).unwrap();
    assert_eq!(pool.hot.recipe_ticks[i], DEFAULT_CRAFT_TICKS);
    pool.tick(&recipes); // Tick 2: Working, decrement
    assert_eq!(pool.hot.recipe_ticks[i], DEFAULT_CRAFT_TICKS - 1);
    assert!(fraction(pool.hot.progress[i]) > 0.0);
}

#[test]
fn tick_completes_after_full_duration() {
    let (mut pool, e1, recipes) = setup_composer_with_recipe();
    pool.insert_input(e1, ItemId::Point, 2);
    // Tick 1: Idle -> Working. Ticks 2..121: decrement. Tick 121: completes -> Idle.
    // Tick 122: Idle, no inputs -> NoInput.
    for _ in 0..DEFAULT_CRAFT_TICKS + 2 {
        pool.tick(&recipes);
    }
    // Should be NoInput (no more inputs after completing the craft)
    assert_eq!(pool.state(e1), Some(MachineState::NoInput));
    let slots = pool.output_slots(e1).unwrap();
    assert_eq!(slots[0].item, ItemId::LineSegment);
    assert_eq!(slots[0].count, 1);
}

#[test]
fn tick_output_full_blocks() {
    let (mut pool, e1, recipes) = setup_composer_with_recipe();
    let i = pool.index_of(e1).unwrap();
    // Fill all 4 output slots with different items
    for (j, item) in [ItemId::NullSet, ItemId::Preimage, ItemId::Wavelet, ItemId::Identity]
        .iter()
        .enumerate()
    {
        pool.cold.output_slots[i][j] = ItemStack { item: *item, count: 1 };
    }
    pool.insert_input(e1, ItemId::Point, 2);
    // Run until craft would complete
    for _ in 0..=DEFAULT_CRAFT_TICKS {
        pool.tick(&recipes);
    }
    assert_eq!(pool.state(e1), Some(MachineState::OutputFull));
}

#[test]
fn tick_output_full_resolves_when_drained() {
    let (mut pool, e1, recipes) = setup_composer_with_recipe();
    let i = pool.index_of(e1).unwrap();
    // Fill all output slots
    for (j, item) in [ItemId::NullSet, ItemId::Preimage, ItemId::Wavelet, ItemId::Identity]
        .iter()
        .enumerate()
    {
        pool.cold.output_slots[i][j] = ItemStack { item: *item, count: 1 };
    }
    pool.insert_input(e1, ItemId::Point, 2);
    for _ in 0..=DEFAULT_CRAFT_TICKS {
        pool.tick(&recipes);
    }
    assert_eq!(pool.state(e1), Some(MachineState::OutputFull));

    // Drain one output slot
    pool.cold.output_slots[i][0].count = 0;
    pool.tick(&recipes);
    // Should have deposited output and returned to Idle (or NoInput)
    assert!(
        pool.state(e1) == Some(MachineState::Idle)
            || pool.state(e1) == Some(MachineState::NoInput)
    );
    // LineSegment should be in the now-empty slot
    let has_line_segment = pool.cold.output_slots[i]
        .iter()
        .any(|s| s.item == ItemId::LineSegment && s.count > 0);
    assert!(has_line_segment);
}

#[test]
fn tick_no_power_pauses() {
    let (mut pool, e1, recipes) = setup_composer_with_recipe();
    pool.insert_input(e1, ItemId::Point, 2);
    pool.tick(&recipes); // starts working
    assert_eq!(pool.state(e1), Some(MachineState::Working));

    // Cut power
    let i = pool.index_of(e1).unwrap();
    pool.hot.powered[i] = false;
    pool.tick(&recipes);
    assert_eq!(pool.state(e1), Some(MachineState::NoPower));

    // Restore power
    pool.hot.powered[i] = true;
    pool.tick(&recipes);
    assert_eq!(pool.state(e1), Some(MachineState::Working));
}

#[test]
fn tick_continuous_production() {
    let (mut pool, e1, recipes) = setup_composer_with_recipe();
    // Give enough inputs for 3 crafts (6 points)
    pool.insert_input(e1, ItemId::Point, 6);

    // Run for 3 full cycles + some extra
    for _ in 0..(DEFAULT_CRAFT_TICKS as u32 + 1) * 3 + 10 {
        pool.tick(&recipes);
    }
    // Should have produced 3 LineSegments
    let slots = pool.output_slots(e1).unwrap();
    let total: u16 = slots
        .iter()
        .filter(|s| s.item == ItemId::LineSegment)
        .map(|s| s.count)
        .sum();
    assert_eq!(total, 3);
}

#[test]
fn source_machine_produces_without_inputs() {
    let mut pool = MachinePool::new();
    let (_, e1) = make_entity();
    pool.add(e1, MachineType::Source);
    let recipes = RecipeIndex::new();

    // Find the source recipe for NullSet
    let source_recipes = recipes.recipes_for_machine(MachineType::Source);
    let (null_set_idx, _) = source_recipes
        .iter()
        .find(|(_, r)| r.output == ItemId::NullSet)
        .unwrap();
    pool.set_recipe(e1, Some(*null_set_idx));

    // Tick once: should go straight to Working (no inputs needed)
    pool.tick(&recipes);
    assert_eq!(pool.state(e1), Some(MachineState::Working));

    // Run through SOURCE_CRAFT_TICKS + 1 to complete the craft
    for _ in 0..SOURCE_CRAFT_TICKS {
        pool.tick(&recipes);
    }

    // Should have produced a NullSet and immediately started working again
    let slots = pool.output_slots(e1).unwrap();
    let total: u16 = slots
        .iter()
        .filter(|s| s.item == ItemId::NullSet)
        .map(|s| s.count)
        .sum();
    assert_eq!(total, 1);
}

#[test]
fn source_machine_uses_shorter_craft_time() {
    let mut pool = MachinePool::new();
    let (_, e1) = make_entity();
    pool.add(e1, MachineType::Source);
    let recipes = RecipeIndex::new();

    let source_recipes = recipes.recipes_for_machine(MachineType::Source);
    let (idx, _) = source_recipes
        .iter()
        .find(|(_, r)| r.output == ItemId::Point)
        .unwrap();
    pool.set_recipe(e1, Some(*idx));

    pool.tick(&recipes); // Idle -> Working
    let i = pool.index_of(e1).unwrap();
    assert_eq!(pool.hot.recipe_ticks[i], SOURCE_CRAFT_TICKS);
    assert_eq!(pool.hot.recipe_total_ticks[i], SOURCE_CRAFT_TICKS);
}
