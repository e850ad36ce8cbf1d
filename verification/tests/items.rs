use octofact::game::items::{all_recipes, IconShape, ItemId};

#[test]
fn test_all_items_have_display_names() {
    for item in ItemId::all() {
        assert!(!item.display_name().is_empty(), "{:?} has empty display name", item);
    }
}

#[test]
fn test_all_items_have_categories() {
    for item in ItemId::all() {
        let _ = item.category();
    }
}

#[test]
fn test_all_items_have_descriptions() {
    for item in ItemId::all() {
        assert!(!item.description().is_empty(), "{:?} has empty description", item);
    }
}

#[test]
fn test_all_items_count() {
    assert_eq!(ItemId::all().len(), 28);
}

#[test]
fn test_all_recipes_reference_valid_items() {
    let all_items: std::collections::HashSet<ItemId> = ItemId::all().iter().copied().collect();
    for recipe in all_recipes() {
        for (item, count) in &recipe.inputs {
            assert!(all_items.contains(item), "Recipe for {:?} references unknown input {:?}", recipe.output, item);
            assert!(*count > 0, "Recipe for {:?} has zero count input", recipe.output);
        }
        assert!(all_items.contains(&recipe.output), "Recipe output {:?} is unknown", recipe.output);
        assert!(recipe.output_count > 0);
    }
}

#[test]
fn item_index_roundtrip() {
    for (k, item) in ItemId::all().iter().enumerate() {
        assert_eq!(item.index(), k);
        assert_eq!(ItemId::from_index(k), *item);
    }
}

#[test]
fn icon_shapes_follow_item_families() {
    assert_eq!(ItemId::NullSet.icon_shape(), IconShape::Circle);
    assert_eq!(ItemId::LineSegment.icon_shape(), IconShape::Square);
    assert_eq!(ItemId::ExactSequence.icon_shape(), IconShape::Triangle);
    assert_eq!(ItemId::Cube.icon_shape(), IconShape::Hexagon);
    assert_eq!(ItemId::Belt.icon_shape(), IconShape::Octagon);
    assert_eq!(ItemId::Composer.icon_shape(), IconShape::Diamond);
    assert_eq!(ItemId::SourceMachine.icon_shape(), IconShape::Diamond);
    assert_eq!(ItemId::Quantum.icon_shape(), IconShape::Star);
}
