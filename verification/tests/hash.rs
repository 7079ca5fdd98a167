use scoped_css::hash::{encode_base62, generate_hash};

#[test]
fn test_generate_hash() {
    let css1 = ".button { color: red; }";
    let css2 = ".button { color: blue; }";

    let hash1 = generate_hash(css1, None);
    let hash2 = generate_hash(css2, None);

    assert_ne!(hash1, hash2);

    let hash1_again = generate_hash(css1, None);
    assert_eq!(hash1, hash1_again);

    assert!(hash1.starts_with("sc_"));
}

#[test]
fn test_hash_with_file_path() {
    let css = ".button { color: red; }";

    let hash1 = generate_hash(css, Some("components/button.rs"));
    let hash2 = generate_hash(css, Some("components/card.rs"));

    assert_ne!(hash1, hash2);
}

#[test]
fn test_encode_base62() {
    assert_eq!(encode_base62(0), "0");
    assert_eq!(encode_base62(61), "Z");
    assert_eq!(encode_base62(62), "10");

    let encoded = encode_base62(123456789);
    assert!(encoded.chars().all(|c| c.is_alphanumeric()));
}

#[test]
fn test_hash_sensitivity() {
    assert_ne!(generate_hash("a", None), generate_hash("b", None));
    assert_ne!(
        generate_hash(".x { }", Some("path1")),
        generate_hash(".x { }", Some("path2"))
    );
}

#[test]
fn test_encode_base62_digits() {
    assert_eq!(encode_base62(10), "a");
    assert_eq!(encode_base62(35), "z");
    assert_eq!(encode_base62(36), "A");
    assert_eq!(encode_base62(62 * 62), "100");
    assert_eq!(encode_base62(u64::MAX), "lYGhA16ahyf");
}
