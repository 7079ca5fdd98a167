use scoped_css::registry::StyleRegistry;

#[test]
fn test_registry_deduplication() {
    let mut registry = StyleRegistry::new();

    registry.register("hash1".to_string(), "css1".to_string());
    registry.register("hash1".to_string(), "css_updated".to_string());

    assert_eq!(registry.len(), 1);
    assert!(registry.get_all_styles().contains("css_updated"));
}

#[test]
fn test_registry_order() {
    let mut registry = StyleRegistry::new();

    registry.register("a".to_string(), "css_a".to_string());
    registry.register("b".to_string(), "css_b".to_string());
    registry.register("c".to_string(), "css_c".to_string());

    let styles = registry.get_all_styles();
    let a_pos = styles.find("css_a").unwrap();
    let b_pos = styles.find("css_b").unwrap();
    let c_pos = styles.find("css_c").unwrap();

    assert!(a_pos < b_pos);
    assert!(b_pos < c_pos);
}

#[test]
fn test_reregister_keeps_first_seen_order() {
    let mut registry = StyleRegistry::new();

    registry.register("a".to_string(), "old_a".to_string());
    registry.register("b".to_string(), "css_b".to_string());
    registry.register("c".to_string(), "css_c".to_string());
    registry.register("a".to_string(), "new_a".to_string());

    assert_eq!(registry.len(), 3);
    let styles = registry.get_all_styles();
    assert_eq!(styles, "new_a\ncss_b\ncss_c\n");
}

#[test]
fn test_registry_contains_and_clear() {
    let mut registry = StyleRegistry::new();
    assert!(registry.is_empty());

    registry.register("tok".to_string(), "body { margin: 0; }".to_string());
    assert!(registry.contains("tok"));
    assert!(!registry.contains("other"));
    assert!(!registry.is_empty());

    registry.clear();
    assert!(registry.is_empty());
    assert_eq!(registry.len(), 0);
    assert_eq!(registry.get_all_styles(), "");
}

#[test]
fn test_inject_styles_aggregates() {
    let mut registry = StyleRegistry::new();
    let style = scoped_css::registry::ScopedStyle::new(
        &mut registry,
        "sc_one".to_string(),
        ".sc_one_x { color: red; }".to_string(),
    );
    assert_eq!(style.scope(), "sc_one");

    let all = scoped_css::registry::inject_styles(&registry);
    assert_eq!(all, ".sc_one_x { color: red; }\n");
}
