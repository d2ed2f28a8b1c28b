use model_blueprint::bone::BoneName;
use model_blueprint::bone::BoneTag;
use model_blueprint::bone::BoneTagRegistry;
use model_blueprint::bone::get_registry;

fn test_registry() -> BoneTagRegistry {
    let mut registry = BoneTagRegistry::new();
    registry.register(BoneTag::new("h", &[], None));
    registry.register(BoneTag::new("sp", &[], None));
    registry
}

#[test]
fn parse_two_tags_then_name() {
    let registry = test_registry();
    let parsed = registry.parse("h_sp_arm");
    assert_eq!(parsed.name, "arm");
    assert_eq!(parsed.raw_name, "h_sp_arm");
    let mut tag_names: Vec<&str> = parsed.tags.iter().map(|t| t.name).collect();
    tag_names.sort();
    assert_eq!(tag_names, vec!["h", "sp"]);
}

#[test]
fn parse_repeated_tag_consumes_token() {
    let registry = test_registry();
    let parsed = registry.parse("h_h_arm");
    assert_eq!(parsed.tags.len(), 1);
    assert_eq!(parsed.tags[0].name, "h");
    assert_eq!(parsed.name, "arm");
}

#[test]
fn parse_single_token_unchanged() {
    let registry = test_registry();
    let parsed = registry.parse("arm");
    assert_eq!(parsed.tags.len(), 0);
    assert_eq!(parsed.name, "arm");
    assert_eq!(parsed.raw_name, "arm");
}

#[test]
fn parse_unrecognized_prefix_unchanged() {
    let registry = test_registry();
    let parsed = registry.parse("foo_bar");
    assert_eq!(parsed.tags.len(), 0);
    assert_eq!(parsed.name, "foo_bar");
    assert_eq!(parsed.raw_name, "foo_bar");
}

#[test]
fn parse_fully_recognized_keeps_raw() {
    let registry = test_registry();
    let parsed = registry.parse("h_sp");
    assert_eq!(parsed.tags.len(), 2);
    assert_eq!(parsed.name, "h_sp");
    assert_eq!(parsed.raw_name, "h_sp");
}

#[test]
fn parse_empty_name() {
    let registry = test_registry();
    let parsed = registry.parse("");
    assert_eq!(parsed.tags.len(), 0);
    assert_eq!(parsed.name, "");
}

#[test]
fn register_overwrites_by_name() {
    let mut registry = BoneTagRegistry::new();
    registry.register(BoneTag::new("h", &["one"], None));
    registry.register(BoneTag::new("h", &["two"], None));
    assert_eq!(registry.tags.len(), 1);
    let found = registry.get("h").expect("tag should be registered");
    assert_eq!(found.tags, &["two"]);
}

#[test]
fn get_reports_absence() {
    let registry = test_registry();
    assert!(registry.get("missing").is_none());
}

#[test]
fn builtin_registry_recognizes_all_five() {
    let registry = get_registry();
    assert_eq!(registry.tags.len(), 5);
    for name in ["head", "head_with_children", "hitbox", "seat", "sub_seat"] {
        assert!(registry.get(name).is_some());
    }
    let parsed = registry.parse("seat_base");
    assert_eq!(parsed.name, "base");
    assert_eq!(parsed.tags.len(), 1);
    assert_eq!(parsed.tags[0].name, "seat");
}

#[test]
fn bone_name_identity_excludes_tags() {
    let registry = test_registry();
    let with_tags = registry.parse("h_arm");
    let without = BoneName::new(Vec::new(), String::from("arm"), String::from("h_arm"));
    assert!(with_tags == without);
    let other = BoneName::new(Vec::new(), String::from("arm"), String::from("arm"));
    assert!(with_tags != other);
}
