use octofact::game::inventory::Inventory;
use octofact::game::items::{all_recipes, ItemId, MachineType};
use octofact::game::recipes::RecipeIndex;

#[test]
fn test_recipe_index_lookup_by_output() {
    let index = RecipeIndex::new();
    let recipes = index.recipes_for(ItemId::LineSegment);
    assert_eq!(recipes.len(), 1);
    assert_eq!(recipes[0].output, ItemId::LineSegment);
}

#[test]
fn test_recipe_index_lookup_by_machine() {
    let index = RecipeIndex::new();
    let composer_recipes = index.recipes_using(MachineType::Composer);
    assert!(composer_recipes.len() > 5, "Composer should have many recipes");
    for r in &composer_recipes {
        assert_eq!(r.machine, MachineType::Composer);
    }
}

#[test]
fn test_can_craft_with_sufficient_resources() {
    let index = RecipeIndex::new();
    let mut inv = Inventory::new();
    inv.add(ItemId::Point, 10);
    let recipes = index.recipes_for(ItemId::LineSegment);
    assert!(index.can_craft(recipes[0], &inv));
}

#[test]
fn test_cannot_craft_with_insufficient_resources() {
    let index = RecipeIndex::new();
    let inv = Inventory::new();
    let recipes = index.recipes_for(ItemId::LineSegment);
    assert!(!index.can_craft(recipes[0], &inv));
}

#[test]
fn test_all_recipes_indexed() {
    let index = RecipeIndex::new();
    assert_eq!(index.all.len(), all_recipes().len());
}

#[test]
fn test_embedder_recipes() {
    let index = RecipeIndex::new();
    let embedder_recipes = index.recipes_using(MachineType::Embedder);
    assert_eq!(embedder_recipes.len(), 3);
}

#[test]
fn recipes_for_machine_gives_indices() {
    let index = RecipeIndex::new();
    let found = index.recipes_for_machine(MachineType::Embedder);
    assert_eq!(found.len(), 3);
    for (i, r) in found {
        assert_eq!(r.machine, MachineType::Embedder);
        assert_eq!(index.recipe(i).output, r.output);
    }
}
