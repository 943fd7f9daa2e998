use production_clicker::production::resource::{
    copy_tags, seq_has_all_tags, seq_has_tag, setup_resource_manager, NamePattern, Resource, ResourceError, ResourceManager, ResourceTag,
    Rgba, TransformRule,
};

fn base_metal(name: &str) -> Resource {
    Resource::new(name, "Fe", "", Rgba::white(), Rgba::black(), &[ResourceTag::Metal, ResourceTag::Base])
}

fn ingot_rule() -> TransformRule {
    TransformRule::new(
        &[ResourceTag::Base, ResourceTag::Metal],
        "",
        " Ingot",
        "A pure form of ",
        " in a convenient bar form",
        &[ResourceTag::Metal, ResourceTag::Ingot],
    )
}

#[test]
fn transformations_work() {
    let mut manager = ResourceManager::new();
    setup_resource_manager(&mut manager).unwrap();
    println!("{:?}", manager);
    assert!(
        manager.resource_by_name("Iron").is_some(),
        "Iron wasn't created"
    );
    assert!(manager.resource_by_name("Iron Plate").is_some());
    assert!(manager.resource_by_name("Iron Ingot").is_some());
}

#[test]
fn setup_derives_every_form_of_every_metal() {
    let mut manager = ResourceManager::new();
    setup_resource_manager(&mut manager).unwrap();
    assert_eq!(manager.resources().len(), 15);
    for metal in ["Iron", "Copper", "Gold"] {
        for form in ["Ingot", "Plate", "Ore", "Wire"] {
            let name = format!("{} {}", metal, form);
            assert!(manager.resource_by_name(&name).is_some(), "{} missing", name);
        }
    }
    let ingot = manager.resource_by_name("Gold Ingot").unwrap();
    assert_eq!(ingot.description(), "A pure form of Gold in a convenient bar form");
    assert_eq!(ingot.tags(), &vec![ResourceTag::Metal, ResourceTag::Ingot]);
    assert_eq!(*ingot.fg_color(), Rgba::white());
    assert_eq!(*ingot.bg_color(), Rgba::black());
}

#[test]
fn duplicate_name_is_refused_and_count_unchanged() {
    let mut manager = ResourceManager::new();
    assert_eq!(manager.add_resource(base_metal("Iron")), Ok(0));
    let other = Resource::new("Iron", "another", "icon", Rgba::black(), Rgba::white(), &[ResourceTag::Ore]);
    assert_eq!(manager.add_resource(other), Err(ResourceError::DuplicateResourceName));
    assert_eq!(manager.resources().len(), 1);
    assert_eq!(manager.resource_by_name("Iron").unwrap().description(), "Fe");
}

#[test]
fn inserting_after_rules_closes_catalog() {
    let mut manager = ResourceManager::new();
    manager.add_processed_transformer(ingot_rule()).unwrap();
    let id = manager.add_resource(base_metal("Iron")).unwrap();
    assert_eq!(id, 0);
    let iron = manager.resource_by_name("Iron").unwrap();
    assert_eq!(iron.id(), 0);
    assert_eq!(iron.name(), "Iron");
    assert_eq!(iron.description(), "Fe");
    let ingot = manager.resource_by_name("Iron Ingot").unwrap();
    assert_eq!(ingot.id(), 1);
    assert!(ingot.contains_tag(&ResourceTag::Ingot));
    assert!(!ingot.contains_tag(&ResourceTag::Base));
    assert_eq!(manager.resources().len(), 2);
}

#[test]
fn rule_applies_to_existing_resources() {
    let mut manager = ResourceManager::new();
    manager.add_resource(base_metal("Iron")).unwrap();
    manager.add_resource(base_metal("Copper")).unwrap();
    let stone = Resource::new("Stone", "rock", "", Rgba::white(), Rgba::black(), &[ResourceTag::Base]);
    manager.add_resource(stone).unwrap();
    manager.add_processed_transformer(ingot_rule()).unwrap();
    assert!(manager.resource_by_name("Iron Ingot").is_some());
    assert!(manager.resource_by_name("Copper Ingot").is_some());
    assert!(manager.resource_by_name("Stone Ingot").is_none());
    assert_eq!(manager.resources().len(), 5);
}

#[test]
fn derived_resources_feed_later_rules() {
    let mut manager = ResourceManager::new();
    let plate = TransformRule::new(&[ResourceTag::Ingot], "", " Plate", "", " rolled", &[ResourceTag::Metal]);
    manager.add_processed_transformer(plate).unwrap();
    manager.add_processed_transformer(ingot_rule()).unwrap();
    manager.add_resource(base_metal("Tin")).unwrap();
    let names: Vec<&str> = manager.resources().iter().map(|r| r.name().as_str()).collect();
    assert_eq!(names, vec!["Tin", "Tin Ingot", "Tin Ingot Plate"]);
    assert_eq!(manager.resource_by_name("Tin Ingot Plate").unwrap().description(), "Tin Ingot rolled");
}

#[test]
fn rule_colliding_with_existing_name_is_not_an_error() {
    let mut manager = ResourceManager::new();
    manager.add_resource(Resource::new("Iron Ingot", "made by hand", "", Rgba::white(), Rgba::black(), &[])).unwrap();
    manager.add_processed_transformer(ingot_rule()).unwrap();
    assert_eq!(manager.add_resource(base_metal("Iron")), Ok(1));
    assert_eq!(manager.resources().len(), 2);
    assert_eq!(manager.resource_by_name("Iron Ingot").unwrap().description(), "made by hand");
}

#[test]
fn iron_ingot_scenario() {
    let mut manager = ResourceManager::new();
    manager.add_resource(base_metal("Iron")).unwrap();
    manager.add_processed_transformer(ingot_rule()).unwrap();
    let ingot = manager.resource_by_name("Iron Ingot").unwrap();
    assert!(ingot.contains_all_tags(&[ResourceTag::Metal, ResourceTag::Ingot]));
    let iron = manager.resource_by_name("Iron").unwrap();
    assert_eq!(iron.id(), 0);
    assert_eq!(iron.description(), "Fe");
    assert!(iron.contains_all_tags(&[ResourceTag::Base, ResourceTag::Metal]));
    assert_eq!(iron.base_icon(), "");
}

#[test]
fn tag_queries_are_exact() {
    let mut manager = ResourceManager::new();
    manager.add_resource(Resource::new("Stone", "", "", Rgba::white(), Rgba::black(), &[ResourceTag::Base])).unwrap();
    manager.add_resource(base_metal("Iron")).unwrap();
    manager.add_resource(Resource::new("Coal", "", "", Rgba::white(), Rgba::black(), &[ResourceTag::Ore])).unwrap();
    manager.add_resource(Resource::new("Copper Ore", "", "", Rgba::white(), Rgba::black(), &[ResourceTag::Ore, ResourceTag::Metal])).unwrap();
    let metals: Vec<&str> = manager.resources_with_tags(&[ResourceTag::Metal]).iter().map(|r| r.name().as_str()).collect();
    assert_eq!(metals, vec!["Iron", "Copper Ore"]);
    let single: Vec<u64> = manager.resources_with_tag(&ResourceTag::Metal).iter().map(|r| r.id()).collect();
    assert_eq!(single, vec![1, 3]);
    assert_eq!(manager.resources_with_tags(&[]).len(), 4);
    assert_eq!(manager.ids_with_tags(&[ResourceTag::Ore, ResourceTag::Metal]), vec![3]);
    assert!(manager.ids_with_tags(&[ResourceTag::Ingot]).is_empty());
}

#[test]
fn lookups_by_id_and_name() {
    let mut manager = ResourceManager::new();
    manager.add_resource(base_metal("Iron")).unwrap();
    manager.add_resource(base_metal("Gold")).unwrap();
    assert_eq!(manager.resource_by_id(1).unwrap().name(), "Gold");
    assert!(manager.resource_by_id(2).is_none());
    assert_eq!(manager.resource_id_by_name("Gold"), Some(1));
    assert_eq!(manager.resource_id_by_name("Lead"), None);
    assert!(manager.resource_by_name("Lead").is_none());
}

#[test]
fn regular_expression_selects_by_name() {
    let mut manager = ResourceManager::new();
    setup_resource_manager(&mut manager).unwrap();
    let pattern = NamePattern::new("^Iron ").unwrap();
    let mut names: Vec<&str> = manager.resources_by_regular_expression(&pattern).iter().map(|r| r.0.name().as_str()).collect();
    names.sort();
    assert_eq!(names, vec!["Iron Ingot", "Iron Ore", "Iron Plate", "Iron Wire"]);
    let none = NamePattern::new("^Lead$").unwrap();
    assert!(manager.resources_by_regular_expression(&none).is_empty());
}

#[test]
fn regular_expression_reports_capture_spans() {
    let mut manager = ResourceManager::new();
    manager.add_resource(base_metal("Iron")).unwrap();
    manager.add_resource(base_metal("Iron Ingot")).unwrap();
    manager.add_resource(base_metal("Gold")).unwrap();
    let pattern = NamePattern::new(r"^(Iron)( \w+)?").unwrap();
    let found = manager.resources_by_regular_expression(&pattern);
    assert_eq!(found.len(), 2);
    assert_eq!(found[0].0.name(), "Iron");
    assert_eq!(found[0].1, vec![Some((0, 4)), Some((0, 4)), None]);
    assert_eq!(found[1].0.name(), "Iron Ingot");
    assert_eq!(found[1].1, vec![Some((0, 10)), Some((0, 4)), Some((4, 10))]);
}

#[test]
fn invalid_regular_expression_is_refused() {
    assert!(NamePattern::new("foo(bar").is_none());
}

#[test]
fn tag_helpers() {
    let tags = [ResourceTag::Metal, ResourceTag::Metal, ResourceTag::Ore];
    assert!(seq_has_tag(&tags, ResourceTag::Ore));
    assert!(!seq_has_tag(&tags, ResourceTag::Base));
    assert!(seq_has_all_tags(&tags, &[ResourceTag::Ore, ResourceTag::Metal]));
    assert!(!seq_has_all_tags(&tags, &[ResourceTag::Ore, ResourceTag::Ingot]));
    assert!(seq_has_all_tags(&tags, &[]));
    assert_eq!(copy_tags(&tags), tags.to_vec());
}

#[test]
fn transform_rule_apply() {
    let rule = ingot_rule();
    let iron = base_metal("Iron");
    let out = rule.apply(&iron).unwrap();
    assert_eq!(out.name(), "Iron Ingot");
    assert_eq!(out.id(), 0);
    let stone = Resource::new("Stone", "", "", Rgba::white(), Rgba::black(), &[ResourceTag::Base]);
    assert!(rule.apply(&stone).is_none());
}

#[test]
fn summary_lists_names() {
    let mut manager = ResourceManager::new();
    assert_eq!(manager.summary(), "ResourceManager {}");
    manager.add_resource(base_metal("Iron")).unwrap();
    manager.add_resource(base_metal("Gold")).unwrap();
    assert_eq!(manager.summary(), "ResourceManager {Iron, Gold}");
}

#[test]
fn setup_passes_back_duplicate_name() {
    let mut manager = ResourceManager::new();
    manager.add_resource(base_metal("Iron")).unwrap();
    assert_eq!(setup_resource_manager(&mut manager), Err(ResourceError::DuplicateResourceName));
}

#[test]
fn setup_tags_and_ingot_query() {
    let mut manager = ResourceManager::new();
    setup_resource_manager(&mut manager).unwrap();
    let tags_of = |name: &str| manager.resource_by_name(name).unwrap().tags().clone();
    assert_eq!(tags_of("Iron"), vec![ResourceTag::Metal, ResourceTag::Base]);
    assert_eq!(tags_of("Gold Ore"), vec![ResourceTag::Metal, ResourceTag::Ore]);
    assert_eq!(tags_of("Iron Plate"), vec![ResourceTag::Metal]);
    assert_eq!(tags_of("Gold Wire"), vec![ResourceTag::Metal]);
    let mut ingots: Vec<&str> = manager.resources_with_tags(&[ResourceTag::Ingot]).iter().map(|r| r.name().as_str()).collect();
    ingots.sort();
    assert_eq!(ingots, vec!["Copper Ingot", "Gold Ingot", "Iron Ingot"]);
    assert_eq!(manager.resources_with_tags(&[ResourceTag::Metal]).len(), 15);
}

#[test]
fn tag_query_ignores_insertion_order() {
    let make = |order: &[&str]| {
        let mut manager = ResourceManager::new();
        for name in order {
            let tags: &[ResourceTag] = if name.starts_with('S') { &[ResourceTag::Base] } else { &[ResourceTag::Metal] };
            manager.add_resource(Resource::new(name, "", "", Rgba::white(), Rgba::black(), tags)).unwrap();
        }
        let mut names: Vec<String> = manager.resources_with_tags(&[ResourceTag::Metal]).iter().map(|r| r.name().clone()).collect();
        names.sort();
        names
    };
    assert_eq!(make(&["Iron", "Stone", "Tin"]), make(&["Tin", "Iron", "Stone"]));
    assert_eq!(make(&["Iron", "Stone", "Tin"]), vec!["Iron".to_string(), "Tin".to_string()]);
}
