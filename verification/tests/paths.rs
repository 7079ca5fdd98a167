use scoped_css::paths::is_likely_file_path;

#[test]
fn test_is_likely_file_path() {
    assert!(is_likely_file_path("button.css"));
    assert!(is_likely_file_path("styles/button.css"));
    assert!(is_likely_file_path("./button.css"));

    assert!(!is_likely_file_path(".button { color: red; }"));
    assert!(!is_likely_file_path("color: red; font-size: 16px;"));
}

#[test]
fn test_is_likely_file_path_backslash() {
    assert!(is_likely_file_path("styles\\button.css"));
    assert!(is_likely_file_path("a\\b"));
    assert!(!is_likely_file_path("plain text"));
    assert!(!is_likely_file_path(""));
    assert!(!is_likely_file_path("css"));
}
