use scoped_css::scoper::parse_and_scope;

#[test]
fn test_class_selector_scoping() {
    let css = ".button { color: red; }";
    let scoped = parse_and_scope(css, "sc_abc", false);
    assert!(scoped.scoped.contains(".sc_abc_button"));
}

#[test]
fn test_id_selector_scoping() {
    let css = "#header { color: blue; }";
    let scoped = parse_and_scope(css, "sc_abc", false);
    assert!(scoped.scoped.contains("#sc_abc_header"));
}

#[test]
fn test_element_selector_scoping() {
    let css = "div { margin: 10px; }";
    let scoped = parse_and_scope(css, "sc_abc", false);
    assert!(scoped.scoped.contains("div[data-scope=\"sc_abc\"]"));
}

#[test]
fn test_complex_selector_mixed() {
    let css = "div.container > .item + #special { color: green; }";
    let scoped = parse_and_scope(css, "sc_xyz", false);

    assert!(scoped
        .scoped
        .contains("div[data-scope=\"sc_xyz\"].sc_xyz_container"));
    assert!(scoped.scoped.contains(".sc_xyz_item"));
    assert!(scoped.scoped.contains("#sc_xyz_special"));
}

#[test]
fn test_pseudo_classes() {
    let css = ".button:hover { background: blue; }";
    let scoped = parse_and_scope(css, "sc_abc", false);
    assert!(scoped.scoped.contains(".sc_abc_button:hover"));
}

#[test]
fn test_multiple_selectors() {
    let css = ".btn, .button, #submit { color: red; }";
    let scoped = parse_and_scope(css, "sc_xyz", false);

    assert!(scoped.scoped.contains(".sc_xyz_btn"));
    assert!(scoped.scoped.contains(".sc_xyz_button"));
    assert!(scoped.scoped.contains("#sc_xyz_submit"));
}

#[test]
fn test_no_extra_braces() {
    let css = ".box { color: red; }";
    let scoped = parse_and_scope(css, "sc_test", false);

    let open_count = scoped.scoped.matches('{').count();
    let close_count = scoped.scoped.matches('}').count();

    assert_eq!(open_count, close_count);
}

#[test]
fn test_minify() {
    let css = r#"
            .button {
                color: red;
            }
        "#;

    let scoped = parse_and_scope(css, "sc_test", true);
    assert!(scoped.scoped.len() < css.len());
}

#[test]
fn test_comments_removed() {
    let css = r#"
            /* Comment */
            .button {
                color: red; /* inline */
            }
        "#;

    let scoped = parse_and_scope(css, "sc_test", true);

    assert!(!scoped.scoped.contains("/*"));
    assert!(!scoped.scoped.contains("*/"));
}

#[test]
fn test_attribute_selectors() {
    let css = "input[type=\"text\"] { border: 1px solid; }";
    let scoped = parse_and_scope(css, "sc_test", false);
    assert!(scoped
        .scoped
        .contains("input[data-scope=\"sc_test\"][type=\"text\"]"));
}

#[test]
fn test_descendant_combinator() {
    let css = ".parent .child { color: blue; }";
    let scoped = parse_and_scope(css, "sc_test", false);
    assert!(scoped.scoped.contains(".sc_test_parent .sc_test_child"));
}

#[test]
fn test_element_with_class() {
    let css = "div.container { padding: 20px; }";
    let scoped = parse_and_scope(css, "sc_test", false);
    assert!(scoped
        .scoped
        .contains("div[data-scope=\"sc_test\"].sc_test_container"));
}

#[test]
fn test_element_with_id() {
    let css = "section#main { margin: auto; }";
    let scoped = parse_and_scope(css, "sc_test", false);
    assert!(scoped
        .scoped
        .contains("section[data-scope=\"sc_test\"]#sc_test_main"));
}

#[test]
fn test_multiple_elements() {
    let css = "div, span, p { margin: 0; }";
    let scoped = parse_and_scope(css, "sc_test", false);
    assert!(scoped.scoped.contains("div[data-scope=\"sc_test\"]"));
    assert!(scoped.scoped.contains("span[data-scope=\"sc_test\"]"));
    assert!(scoped.scoped.contains("p[data-scope=\"sc_test\"]"));
}

#[test]
fn test_pseudo_element() {
    let css = ".button::before { content: '→'; }";
    let scoped = parse_and_scope(css, "sc_test", false);
    assert!(scoped.scoped.contains(".sc_test_button::before"));
}

#[test]
fn test_multiple_pseudo_classes() {
    let css = ".link:hover:focus { text-decoration: underline; }";
    let scoped = parse_and_scope(css, "sc_test", false);
    assert!(scoped.scoped.contains(".sc_test_link:hover:focus"));
}

#[test]
fn test_deeply_nested_selector() {
    let css = ".nav > ul > li > a.active { color: blue; }";
    let scoped = parse_and_scope(css, "sc_test", false);
    assert!(scoped.scoped.contains(".sc_test_nav"));
    assert!(scoped.scoped.contains("ul[data-scope=\"sc_test\"]"));
    assert!(scoped.scoped.contains("li[data-scope=\"sc_test\"]"));
    assert!(scoped
        .scoped
        .contains("a[data-scope=\"sc_test\"].sc_test_active"));
}

#[test]
fn test_empty_css() {
    let css = "";
    let scoped = parse_and_scope(css, "sc_test", false);
    assert_eq!(scoped.scoped, "");
}

#[test]
fn test_whitespace_only() {
    let css = "   \n\t   ";
    let scoped = parse_and_scope(css, "sc_test", false);
    assert_eq!(scoped.scoped.trim(), "");
}

#[test]
fn test_class_scoping_exact() {
    let scoped = parse_and_scope(".button { color: red; }", "sc_abc", false);
    assert_eq!(scoped.scoped, ".sc_abc_button { color: red; }\n");
}

#[test]
fn test_class_names_collected() {
    let scoped = parse_and_scope(".button { } .icon, .button:hover { }", "sc_t", false);
    let mut names = scoped.class_names.clone();
    names.sort();
    assert_eq!(names, vec!["button".to_string(), "icon".to_string()]);
}

#[test]
fn test_minify_exact() {
    let scoped = parse_and_scope(".a { x: y; }", "sc", true);
    assert_eq!(scoped.scoped, ".sc_a {x:y;}");
}

#[test]
fn test_unterminated_rule_dropped() {
    let scoped = parse_and_scope(".done { a: b; } .open { c: d;", "sc_t", false);
    assert!(scoped.scoped.contains(".sc_t_done"));
    assert!(!scoped.scoped.contains("open"));
}

#[test]
fn test_unterminated_comment_swallows_rest() {
    let scoped = parse_and_scope(".a { x: y; } /* comment .b { z: w; }", "sc_t", false);
    assert!(scoped.scoped.contains(".sc_t_a"));
    assert!(!scoped.scoped.contains("sc_t_b"));
}

#[test]
fn test_split_rules_public() {
    let rules = scoped_css::splitter::parse_css_rules(".a { x } .b { y }");
    assert_eq!(rules, vec![".a { x }".to_string(), ".b { y }".to_string()]);
}

#[test]
fn test_scope_selector_list_join() {
    let mut names: Vec<String> = Vec::new();
    let joined = scoped_css::selector::scope_selector(".a,.b", "sc", &mut names);
    assert_eq!(joined, ".sc_a, .sc_b");
    assert_eq!(names, vec!["a".to_string(), "b".to_string()]);
}

#[test]
fn test_scope_single_selector_compound() {
    let mut names: Vec<String> = Vec::new();
    let out = scoped_css::selector::scope_single_selector("div.card", "sc_z", &mut names);
    assert_eq!(out, "div[data-scope=\"sc_z\"].sc_z_card");
    assert_eq!(names, vec!["card".to_string()]);
}

#[test]
fn test_scope_rule_direct() {
    let mut names: Vec<String> = Vec::new();
    let out = scoped_css::scoper::scope_rule("  .a  {  color: red;  }  ", "sc", &mut names);
    assert_eq!(out, Some(".sc_a { color: red; }".to_string()));
    let none = scoped_css::scoper::scope_rule("no brace here", "sc", &mut names);
    assert_eq!(none, None);
}

#[test]
fn test_attribute_comma_not_split() {
    let scoped = parse_and_scope("img[alt=\"a,b\"] { border: 0; }", "sc_t", false);
    assert!(scoped
        .scoped
        .contains("img[data-scope=\"sc_t\"][alt=\"a,b\"]"));
}

#[test]
fn test_selector_list_with_attribute_comma() {
    let scoped = parse_and_scope(".x, img[alt=\"a,b\"] { margin: 0; }", "sc_t", false);
    assert_eq!(
        scoped.scoped,
        ".sc_t_x, img[data-scope=\"sc_t\"][alt=\"a,b\"] { margin: 0; }\n"
    );
}

#[test]
fn test_scope_selector_trims_single_branch() {
    let mut names: Vec<String> = Vec::new();
    let out = scoped_css::selector::scope_selector(" .a", "sc", &mut names);
    assert_eq!(out, ".sc_a");
}

#[test]
fn test_diagnostics_clean_input() {
    let w = scoped_css::splitter::parse_css_diagnostics(".a { x: y; } /* fine */");
    assert!(w.is_empty());
}

#[test]
fn test_diagnostics_unterminated_rule() {
    let w = scoped_css::splitter::parse_css_diagnostics(".a { x: y; } .open { c: d;");
    assert_eq!(w, vec!["unterminated trailing content dropped".to_string()]);
}

#[test]
fn test_diagnostics_unterminated_comment() {
    let w = scoped_css::splitter::parse_css_diagnostics(".a { x: y; } /* never closed");
    assert_eq!(w, vec!["unterminated comment".to_string()]);
}

#[test]
fn test_diagnostics_both() {
    let w = scoped_css::splitter::parse_css_diagnostics(".open { /* gone");
    assert_eq!(
        w,
        vec![
            "unterminated comment".to_string(),
            "unterminated trailing content dropped".to_string()
        ]
    );
}

#[test]
fn test_wrap_declarations() {
    let wrapped = scoped_css::scoper::wrap_declarations("sc_k", "color: red;");
    assert_eq!(wrapped, ".sc_k { color: red; }");
}

#[test]
fn test_minify_css_direct() {
    let out = scoped_css::minify::minify_css("a  b\n\nc /* gone */ d,  e");
    assert_eq!(out, "a b c d,e");
}
