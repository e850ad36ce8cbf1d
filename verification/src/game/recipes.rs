//! Recipe lookup by output item and by machine type.

use vstd::prelude::*;
use crate::game::items::{
    ItemId, MachineType, Recipe, all_recipes, recipe_model, spec_all_recipes, ITEM_COUNT,
    MACHINE_TYPE_COUNT, RECIPE_COUNT, item_index, machine_index, spec_all_items,
    lemma_all_items_complete,
};
use crate::game::inventory::{Inventory, count_in};

verus! {

/// A recipe that turns inputs into `item`: one that yields it and is not
/// run by a source machine, which makes items from nothing.
pub open spec fn makes_from_inputs(r: Recipe, item: ItemId) -> bool {
    r.output == item && r.machine != MachineType::Source
}

/// Positions among the first `n` recipes of those that turn inputs into
/// `item`, in order.
pub open spec fn output_indices(all: Seq<Recipe>, item: ItemId, n: nat) -> Seq<usize>
    decreases n,
{
    if n == 0 {
        Seq::empty()
    } else {
        let rest = output_indices(all, item, (n - 1) as nat);
        if makes_from_inputs(all[n - 1], item) {
            rest.push((n - 1) as usize)
        } else {
            rest
        }
    }
}

/// Positions among the first `n` recipes of those made by `machine`, in order.
pub open spec fn machine_indices(all: Seq<Recipe>, machine: MachineType, n: nat) -> Seq<usize>
    decreases n,
{
    if n == 0 {
        Seq::empty()
    } else {
        let rest = machine_indices(all, machine, (n - 1) as nat);
        if all[n - 1].machine == machine {
            rest.push((n - 1) as usize)
        } else {
            rest
        }
    }
}

/// Every recipe input is held in at least the required count.
pub open spec fn craftable(recipe: Recipe, inv: Map<ItemId, u32>) -> bool {
    forall|j: int| 0 <= j < recipe.inputs@.len() ==> count_in(inv, #[trigger] recipe.inputs@[j].0) >= recipe.inputs@[j].1
}

pub struct RecipeIndex {
    pub all: Vec<Recipe>,
    /// Per catalogue item: positions in `all` of the recipes that yield it.
    by_output: Vec<Vec<usize>>,
    /// Per machine type: positions in `all` of the recipes it runs.
    by_machine: Vec<Vec<usize>>,
}

/// The machine kind at declaration position `k`.
pub open spec fn machine_at(k: nat) -> MachineType {
    if k == 0 {
        MachineType::Composer
    } else if k == 1 {
        MachineType::Inverter
    } else if k == 2 {
        MachineType::Embedder
    } else if k == 3 {
        MachineType::Quotient
    } else if k == 4 {
        MachineType::Transformer
    } else {
        MachineType::Source
    }
}

proof fn lemma_machine_at_index(m: MachineType)
    ensures
        machine_at(machine_index(m)) == m,
        machine_index(m) < MACHINE_TYPE_COUNT,
{
}

/// Crafting needs every ingredient: the inventory can craft a recipe exactly
/// when it holds, for each input `(item, n)`, at least `n` of `item`, so one
/// short input, wherever it stands in the recipe, rules the craft out.
pub proof fn lemma_craft_needs_every_input(recipe: Recipe, inv: Map<ItemId, u32>, r: bool, j: int)
    requires
        r == craftable(recipe, inv),
    ensures
        r ==> forall|k: int| 0 <= k < recipe.inputs@.len() ==> count_in(inv, #[trigger] recipe.inputs@[k].0)
            >= recipe.inputs@[k].1,
        0 <= j < recipe.inputs@.len() && count_in(inv, recipe.inputs@[j].0) < recipe.inputs@[j].1 ==> !r,
{
}

impl RecipeIndex {
    /// The recipe list, in catalogue order.
    pub closed spec fn recipes(&self) -> Seq<Recipe> {
        self.all@
    }

    /// The lookup tables agree with `all`.
    pub closed spec fn wf(&self) -> bool {
        &&& self.recipes().len() <= usize::MAX
        &&& self.by_output@.len() == ITEM_COUNT
        &&& self.by_machine@.len() == MACHINE_TYPE_COUNT
        &&& forall|k: int| 0 <= k < ITEM_COUNT ==> (#[trigger] self.by_output@[k])@ == output_indices(
            self.recipes(),
            spec_all_items()[k],
            self.recipes().len(),
        )
        &&& forall|k: int| 0 <= k < MACHINE_TYPE_COUNT ==> (#[trigger] self.by_machine@[k])@
            == machine_indices(self.recipes(), machine_at(k as nat), self.recipes().len())
    }

    /// Index the fixed recipe list.
    pub fn new() -> (r: Self)
        ensures
            r.wf(),
            r.recipes().len() == RECIPE_COUNT,
            forall|j: int| 0 <= j < RECIPE_COUNT ==> recipe_model(#[trigger] r.recipes()[j]) == spec_all_recipes()[j],
    {
        let all = all_recipes();
        let mut by_output: Vec<Vec<usize>> = Vec::new();
        let mut k: usize = 0;
        while k < ITEM_COUNT
            invariant
                k <= ITEM_COUNT,
                by_output@.len() == k,
                forall|q: int| 0 <= q < k ==> (#[trigger] by_output@[q])@ == output_indices(all@, spec_all_items()[q], all@.len()),
            decreases ITEM_COUNT - k,
        {
            let item = ItemId::from_index(k);
            let mut list: Vec<usize> = Vec::new();
            let mut i: usize = 0;
            while i < all.len()
                invariant
                    i <= all.len(),
                    list@ == output_indices(all@, item, i as nat),
                decreases all.len() - i,
            {
                if all[i].output == item && all[i].machine != MachineType::Source {
                    list.push(i);
                }
                i = i + 1;
            }
            by_output.push(list);
            k = k + 1;
        }
        let mut by_machine: Vec<Vec<usize>> = Vec::new();
        let mut m: usize = 0;
        while m < MACHINE_TYPE_COUNT
            invariant
                m <= MACHINE_TYPE_COUNT,
                by_machine@.len() == m,
                forall|q: int| 0 <= q < m ==> (#[trigger] by_machine@[q])@ == machine_indices(all@, machine_at(q as nat), all@.len()),
            decreases MACHINE_TYPE_COUNT - m,
        {
            let machine = MachineType::from_index(m);
            assert(machine == machine_at(m as nat));
            let mut list: Vec<usize> = Vec::new();
            let mut i: usize = 0;
            while i < all.len()
                invariant
                    i <= all.len(),
                    list@ == machine_indices(all@, machine, i as nat),
                decreases all.len() - i,
            {
                if all[i].machine == machine {
                    list.push(i);
                }
                i = i + 1;
            }
            by_machine.push(list);
            m = m + 1;
        }
        RecipeIndex { all, by_output, by_machine }
    }

    fn collect(&self, indices: &Vec<usize>) -> (r: Vec<&Recipe>)
        requires
            forall|j: int| 0 <= j < indices@.len() ==> #[trigger] indices@[j] < self.recipes().len(),
        ensures
            r@.len() == indices@.len(),
            forall|j: int| 0 <= j < indices@.len() ==> *#[trigger] r@[j] == self.recipes()[indices@[j] as int],
    {
        let mut out: Vec<&Recipe> = Vec::new();
        let mut j: usize = 0;
        while j < indices.len()
            invariant
                j <= indices.len(),
                out@.len() == j,
                forall|q: int| 0 <= q < indices@.len() ==> #[trigger] indices@[q] < self.recipes().len(),
                forall|q: int| 0 <= q < j ==> *#[trigger] out@[q] == self.recipes()[indices@[q] as int],
            decreases indices.len() - j,
        {
            out.push(&self.all[indices[j]]);
            j = j + 1;
        }
        out
    }

    /// The recipes that turn inputs into `output`, in list order. Source
    /// machines' recipes, which take no inputs, are not listed.
    pub fn recipes_for(&self, output: ItemId) -> (r: Vec<&Recipe>)
        requires
            self.wf(),
        ensures
            r@.len() == output_indices(self.recipes(), output, self.recipes().len()).len(),
            forall|j: int| 0 <= j < r@.len() ==> *#[trigger] r@[j] == self.recipes()[output_indices(
                self.recipes(),
                output,
                self.recipes().len(),
            )[j] as int],
    {
        proof {
            lemma_all_items_complete(output);
            lemma_output_indices_bounded(self.recipes(), output, self.recipes().len());
        }
        let indices = &self.by_output[output.index()];
        self.collect(indices)
    }

    /// The recipes that `machine` runs, in list order.
    pub fn recipes_using(&self, machine: MachineType) -> (r: Vec<&Recipe>)
        requires
            self.wf(),
        ensures
            r@.len() == machine_indices(self.recipes(), machine, self.recipes().len()).len(),
            forall|j: int| 0 <= j < r@.len() ==> *#[trigger] r@[j] == self.recipes()[machine_indices(
                self.recipes(),
                machine,
                self.recipes().len(),
            )[j] as int],
    {
        proof {
            lemma_machine_at_index(machine);
            lemma_machine_indices_bounded(self.recipes(), machine, self.recipes().len());
        }
        let indices = &self.by_machine[machine.index()];
        self.collect(indices)
    }

    /// Whether the inventory holds every input of the recipe in the required count.
    pub fn can_craft(&self, recipe: &Recipe, inventory: &Inventory) -> (r: bool)
        ensures
            r == craftable(*recipe, inventory@),
    {
        let mut j: usize = 0;
        while j < recipe.inputs.len()
            invariant
                j <= recipe.inputs.len(),
                forall|q: int| 0 <= q < j ==> count_in(inventory@, #[trigger] recipe.inputs@[q].0) >= recipe.inputs@[q].1,
            decreases recipe.inputs.len() - j,
        {
            let (item, count) = recipe.inputs[j];
            if inventory.count(item) < count {
                return false;
            }
            j = j + 1;
        }
        true
    }

    /// The recipe at position `idx` of the list.
    pub fn recipe(&self, idx: usize) -> (r: &Recipe)
        requires
            idx < self.recipes().len(),
        ensures
            *r == self.recipes()[idx as int],
    {
        &self.all[idx]
    }

    /// The recipes that `machine` runs, with their positions in the list, in
    /// list order.
    pub fn recipes_for_machine(&self, machine: MachineType) -> (r: Vec<(usize, &Recipe)>)
        requires
            self.wf(),
        ensures
            r@.len() == machine_indices(self.recipes(), machine, self.recipes().len()).len(),
            forall|j: int| 0 <= j < r@.len() ==> (#[trigger] r@[j]).0 == machine_indices(
                self.recipes(),
                machine,
                self.recipes().len(),
            )[j] && *r@[j].1 == self.recipes()[r@[j].0 as int],
    {
        proof {
            lemma_machine_at_index(machine);
            lemma_machine_indices_bounded(self.recipes(), machine, self.recipes().len());
        }
        let indices = &self.by_machine[machine.index()];
        let mut out: Vec<(usize, &Recipe)> = Vec::new();
        let mut j: usize = 0;
        while j < indices.len()
            invariant
                j <= indices@.len(),
                out@.len() == j,
                indices@ == machine_indices(self.recipes(), machine, self.recipes().len()),
                forall|q: int| 0 <= q < indices@.len() ==> #[trigger] indices@[q] < self.recipes().len(),
                forall|q: int| 0 <= q < j ==> (#[trigger] out@[q]).0 == indices@[q] && *out@[q].1 == self.recipes()[indices@[q] as int],
            decreases indices.len() - j,
        {
            let k = indices[j];
            out.push((k, &self.all[k]));
            j = j + 1;
        }
        out
    }
}

impl Default for RecipeIndex {
    fn default() -> (r: Self)
        ensures
            r.wf(),
            r.recipes().len() == RECIPE_COUNT,
            forall|j: int| 0 <= j < RECIPE_COUNT ==> recipe_model(#[trigger] r.recipes()[j]) == spec_all_recipes()[j],
    {
        Self::new()
    }
}

/// Every listed position is in range, lists ascend, and a position is listed
/// exactly when its recipe yields the item.
pub proof fn lemma_output_indices_bounded(all: Seq<Recipe>, item: ItemId, n: nat)
    requires
        n <= all.len(),
        all.len() <= usize::MAX,
    ensures
        forall|j: int| 0 <= j < output_indices(all, item, n).len() ==> #[trigger] output_indices(all, item, n)[j] < n,
        forall|j: int| 0 <= j < output_indices(all, item, n).len() ==> makes_from_inputs(all[#[trigger] output_indices(all, item, n)[j] as int], item),
        forall|i: int| 0 <= i < n && makes_from_inputs(all[i], item) ==> output_indices(all, item, n).contains(i as usize),
    decreases n,
{
    if n > 0 {
        lemma_output_indices_bounded(all, item, (n - 1) as nat);
        let rest = output_indices(all, item, (n - 1) as nat);
        assert forall|i: int| 0 <= i < n && makes_from_inputs(all[i], item) implies output_indices(all, item, n).contains(i as usize) by {
            if i < n - 1 {
                let j = choose|j: int| 0 <= j < rest.len() && rest[j] == i as usize;
                if makes_from_inputs(all[n - 1], item) {
                    assert(output_indices(all, item, n)[j] == i as usize);
                }
            } else {
                assert(output_indices(all, item, n)[rest.len() as int] == i as usize);
            }
        }
    }
}

/// Every listed position is in range, and a position is listed exactly when
/// its recipe is made by the machine.
pub proof fn lemma_machine_indices_bounded(all: Seq<Recipe>, machine: MachineType, n: nat)
    requires
        n <= all.len(),
        all.len() <= usize::MAX,
    ensures
        forall|j: int| 0 <= j < machine_indices(all, machine, n).len() ==> #[trigger] machine_indices(all, machine, n)[j] < n,
        forall|j: int| 0 <= j < machine_indices(all, machine, n).len() ==> all[#[trigger] machine_indices(all, machine, n)[j] as int].machine == machine,
        forall|i: int| 0 <= i < n && all[i].machine == machine ==> machine_indices(all, machine, n).contains(i as usize),
    decreases n,
{
    if n > 0 {
        lemma_machine_indices_bounded(all, machine, (n - 1) as nat);
        let rest = machine_indices(all, machine, (n - 1) as nat);
        assert forall|i: int| 0 <= i < n && all[i].machine == machine implies machine_indices(all, machine, n).contains(i as usize) by {
            if i < n - 1 {
                let j = choose|j: int| 0 <= j < rest.len() && rest[j] == i as usize;
                if all[n - 1].machine == machine {
                    assert(machine_indices(all, machine, n)[j] == i as usize);
                }
            } else {
                assert(machine_indices(all, machine, n)[rest.len() as int] == i as usize);
            }
        }
    }
}

} // verus!
