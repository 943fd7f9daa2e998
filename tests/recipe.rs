use production_clicker::processing::recipe::{
    resolve, super_set_iterator, tag_from_name, Recipe, RecipeComponent, RecipeError,
    RecipePattern, RecipePatternComponent, ResourceSelector, SelectorShape, TagsShape,
};
use production_clicker::processing::recipe_loader::RecipeLoader;
use production_clicker::production::resource::{
    Resource, ResourceManager, ResourceTag, Rgba,
};
use production_clicker::recipe_path;

fn catalog() -> ResourceManager {
    let mut manager = ResourceManager::new();
    for (name, tags) in [
        ("Iron", vec![ResourceTag::Base, ResourceTag::Metal]),
        ("Copper", vec![ResourceTag::Base, ResourceTag::Metal]),
        ("Gold", vec![ResourceTag::Base, ResourceTag::Metal]),
        ("Coal", vec![ResourceTag::Ore]),
        ("Stone", vec![ResourceTag::Ore]),
    ] {
        manager.add_resource(Resource::new(name, "", "", Rgba::white(), Rgba::black(), &tags)).unwrap();
    }
    manager
}

fn tags_selector(names: &[&str]) -> ResourceSelector {
    let names: Vec<String> = names.iter().map(|n| n.to_string()).collect();
    ResourceSelector::from_tag_names(&names).unwrap()
}

#[test]
fn three_by_two_gives_six_recipes() {
    let manager = catalog();
    let pattern = RecipePattern::new(
        vec![RecipePatternComponent::new(tags_selector(&["Metal"]), 2)],
        vec![RecipePatternComponent::new(tags_selector(&["Ore"]), 1)],
        30,
        vec!["Furnace".to_string()],
    );
    let recipes = pattern.into_recipes(&manager).unwrap();
    assert_eq!(recipes.len(), 6);
    let pairs: Vec<(u64, u64)> = recipes
        .iter()
        .map(|r| (r.inputs[0].resource_id, r.outputs[0].resource_id))
        .collect();
    assert_eq!(pairs, vec![(0, 3), (0, 4), (1, 3), (1, 4), (2, 3), (2, 4)]);
    for r in &recipes {
        assert_eq!(r.base_time, 30);
        assert_eq!(r.requirements, vec!["Furnace".to_string()]);
        assert_eq!(r.inputs[0].quantity, 2);
        assert_eq!(r.outputs[0].quantity, 1);
    }
}

#[test]
fn unmatched_filter_gives_no_recipe() {
    let manager = catalog();
    let pattern = RecipePattern::new(
        vec![RecipePatternComponent::new(ResourceSelector::Name("Iron".to_string()), 1)],
        vec![RecipePatternComponent::new(tags_selector(&["Ingot"]), 1)],
        5,
        vec![],
    );
    let recipes = pattern.into_recipes(&manager).unwrap();
    assert!(recipes.is_empty());
}

#[test]
fn unknown_name_is_not_found() {
    let manager = catalog();
    let pattern = RecipePattern::new(
        vec![RecipePatternComponent::new(ResourceSelector::Name("Lead".to_string()), 1)],
        vec![],
        5,
        vec![],
    );
    assert_eq!(pattern.into_recipes(&manager).unwrap_err(), RecipeError::ResourceNotFound);
    assert_eq!(
        resolve(&ResourceSelector::Name("Lead".to_string()), &manager),
        Err(RecipeError::ResourceNotFound)
    );
}

#[test]
fn name_selector_resolves_to_one_id() {
    let manager = catalog();
    assert_eq!(resolve(&ResourceSelector::Name("Gold".to_string()), &manager), Ok(vec![2]));
    assert_eq!(resolve(&tags_selector(&["Base", "Metal"]), &manager), Ok(vec![0, 1, 2]));
    assert_eq!(resolve(&tags_selector(&[]), &manager), Ok(vec![0, 1, 2, 3, 4]));
}

#[test]
fn unknown_tag_is_invalid_selector() {
    let names = vec!["Metal".to_string(), "Plastic".to_string()];
    assert_eq!(ResourceSelector::from_tag_names(&names).unwrap_err(), RecipeError::InvalidSelector);
    assert_eq!(tag_from_name(&"Ingot".to_string()), Some(ResourceTag::Ingot));
    assert_eq!(tag_from_name(&"ingot".to_string()), None);
}

#[test]
fn product_is_lexicographic() {
    let input = vec![vec![1, 2], vec![7], vec![3, 4]];
    assert_eq!(
        super_set_iterator(&input),
        vec![vec![1, 7, 3], vec![1, 7, 4], vec![2, 7, 3], vec![2, 7, 4]]
    );
    assert_eq!(super_set_iterator(&vec![]), vec![Vec::<u64>::new()]);
    assert!(super_set_iterator(&vec![vec![1], vec![]]).is_empty());
}

#[test]
fn pattern_without_slots_gives_one_recipe() {
    let manager = catalog();
    let pattern = RecipePattern::new(vec![], vec![], 1, vec!["Hands".to_string()]);
    let recipes = pattern.into_recipes(&manager).unwrap();
    assert_eq!(recipes.len(), 1);
    assert!(recipes[0].inputs.is_empty());
}

#[test]
fn components_and_recipes_keep_their_values() {
    let c = RecipeComponent::new(4, 9);
    assert_eq!(c.resource_id, 4);
    assert_eq!(c.quantity, 9);
    let r = Recipe::new(vec![c], vec![], 12, vec!["Press".to_string()]);
    assert_eq!(r.inputs, vec![c]);
    assert_eq!(r.base_time, 12);
    let slot = RecipePatternComponent::new(ResourceSelector::Name("Iron".to_string()), 3);
    assert_eq!(slot.quantity(), 3);
    assert!(matches!(slot.pattern(), ResourceSelector::Name(n) if n == "Iron"));
}

#[test]
fn loader_keeps_recipes_under_pattern_names() {
    let manager = catalog();
    let mut loader = RecipeLoader::new("recipes.json");
    assert_eq!(loader.file_path(), "recipes.json");
    let patterns = vec![
        (
            "smelt".to_string(),
            RecipePattern::new(vec![RecipePatternComponent::new(tags_selector(&["Metal"]), 1)], vec![], 3, vec![]),
        ),
        ("idle".to_string(), RecipePattern::new(vec![], vec![], 1, vec![])),
    ];
    loader.add_patterns(&manager, &patterns).unwrap();
    assert_eq!(loader.created_recipes.len(), 2);
    assert_eq!(loader.created_recipes[0].0, "smelt");
    assert_eq!(loader.created_recipes[0].1.len(), 3);
    assert_eq!(loader.created_recipes[1].1.len(), 1);
    let bad = vec![(
        "bad".to_string(),
        RecipePattern::new(vec![RecipePatternComponent::new(ResourceSelector::Name("Lead".to_string()), 1)], vec![], 1, vec![]),
    )];
    assert_eq!(loader.add_patterns(&manager, &bad), Err(RecipeError::ResourceNotFound));
}

#[test]
fn recipe_path_points_at_configuration() {
    assert_eq!(recipe_path(), "configurations/recipes.json");
}

#[test]
fn selector_shapes() {
    let name = ResourceSelector::from_shape(&SelectorShape::Text("Iron".to_string())).unwrap();
    assert!(matches!(name, ResourceSelector::Name(n) if n == "Iron"));
    let all = ResourceSelector::from_shape(&SelectorShape::Object(None)).unwrap();
    assert!(matches!(all, ResourceSelector::Tags(t) if t.is_empty()));
    let list = TagsShape::List(vec![Some("Metal".to_string()), Some("Ore".to_string())]);
    let tags = ResourceSelector::from_shape(&SelectorShape::Object(Some(list))).unwrap();
    assert!(matches!(tags, ResourceSelector::Tags(t) if t == vec![ResourceTag::Metal, ResourceTag::Ore]));
    let not_string = TagsShape::List(vec![Some("Metal".to_string()), None]);
    assert_eq!(
        ResourceSelector::from_shape(&SelectorShape::Object(Some(not_string))).unwrap_err(),
        RecipeError::InvalidSelector
    );
    let unknown = TagsShape::List(vec![Some("Plastic".to_string())]);
    assert_eq!(
        ResourceSelector::from_shape(&SelectorShape::Object(Some(unknown))).unwrap_err(),
        RecipeError::InvalidSelector
    );
    assert_eq!(
        ResourceSelector::from_shape(&SelectorShape::Object(Some(TagsShape::NotAList))).unwrap_err(),
        RecipeError::InvalidSelector
    );
    assert_eq!(ResourceSelector::from_shape(&SelectorShape::Other).unwrap_err(), RecipeError::InvalidSelector);
}

#[test]
fn loader_keeps_patterns_before_a_failure() {
    let manager = catalog();
    let mut loader = RecipeLoader::new("recipes.json");
    let patterns = vec![
        ("idle".to_string(), RecipePattern::new(vec![], vec![], 1, vec![])),
        (
            "bad".to_string(),
            RecipePattern::new(vec![RecipePatternComponent::new(ResourceSelector::Name("Lead".to_string()), 1)], vec![], 1, vec![]),
        ),
        ("later".to_string(), RecipePattern::new(vec![], vec![], 2, vec![])),
    ];
    assert_eq!(loader.add_patterns(&manager, &patterns), Err(RecipeError::ResourceNotFound));
    assert_eq!(loader.created_recipes.len(), 1);
    assert_eq!(loader.created_recipes[0].0, "idle");
}
