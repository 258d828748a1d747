use url_normalizer::error::NormalizeError;
use url_normalizer::normalizer::UrlNormalizer;

#[test]
fn normalize_test() {
    let tainted_url = "https://example.com/main.php?c=1&b=2&a=5";
    let normalizer = UrlNormalizer::new(tainted_url).unwrap();
    assert_eq!("https://example.com/main.php?a=5&b=2&c=1", normalizer.normalize(None).unwrap());
}

#[test]
fn normalize_test_remove_param() {
    let tainted_url = "https://example.com:8080/main.php?c=1&b=2&a=5&utm_source=facebook&utm_medium=social&utm_campaign=seofanpage";
    let normalizer = UrlNormalizer::new(tainted_url).unwrap();
    assert_eq!(
        "https://example.com:8080/main.php?a=5&b=2&c=1",
        normalizer.normalize(Some(&["utm_.*"])).unwrap()
    );
}

#[test]
fn normalize_test_remove_dot() {
    let tainted_url = "https://example.com:8080/./main.php?c=1&b=2&a=5";
    let normalizer = UrlNormalizer::new(tainted_url).unwrap();
    assert_eq!(
        "https://example.com:8080/main.php?a=5&b=2&c=1",
        normalizer.normalize(None).unwrap()
    );
}

#[test]
fn normalize_is_idempotent_on_output() {
    let first = UrlNormalizer::new("https://example.com:8080/a/./b/../c.php?b=2&a=1")
        .unwrap()
        .normalize(None)
        .unwrap();
    let second = UrlNormalizer::new(&first).unwrap().normalize(None).unwrap();
    assert_eq!(first, second);
    assert_eq!("https://example.com:8080/a/c.php?a=1&b=2", first);
}

#[test]
fn query_order_does_not_matter() {
    let one = UrlNormalizer::new("https://example.com/p?z=9&a=1&m=5")
        .unwrap()
        .normalize(None)
        .unwrap();
    let two = UrlNormalizer::new("https://example.com/p?m=5&z=9&a=1")
        .unwrap()
        .normalize(None)
        .unwrap();
    assert_eq!(one, two);
    assert_eq!("https://example.com/p?a=1&m=5&z=9", one);
}

#[test]
fn dot_segments_collapse() {
    let path: Vec<char> = "path/to/../from/./x".chars().collect();
    let out = url_normalizer::path::normalize_path(&path).unwrap();
    assert_eq!("path/from/x", out.iter().collect::<String>());
}

#[test]
fn leading_parent_segments_survive() {
    let path: Vec<char> = "../../x".chars().collect();
    let out = url_normalizer::path::normalize_path(&path).unwrap();
    assert_eq!("../../x", out.iter().collect::<String>());
}

#[test]
fn doubled_slashes_collapse() {
    let path: Vec<char> = "/a//b///c".chars().collect();
    let out = url_normalizer::path::normalize_path(&path).unwrap();
    assert_eq!("/a/b/c", out.iter().collect::<String>());
}

#[test]
fn relative_colon_segment_is_guarded() {
    let path: Vec<char> = "x/../a:b/c".chars().collect();
    let out = url_normalizer::path::normalize_path(&path).unwrap();
    assert_eq!("./a:b/c", out.iter().collect::<String>());
}

#[test]
fn colon_first_segment_is_left_alone() {
    // The guard stays quiet when the colon segment already began the
    // path, so the output never outgrows the input.
    let path: Vec<char> = ":a//b".chars().collect();
    let out = url_normalizer::path::normalize_path(&path).unwrap();
    assert_eq!(":a/b", out.iter().collect::<String>());
}

#[test]
fn port_80_is_omitted() {
    let normalizer = UrlNormalizer::new("https://example.com:80/x.php?a=1").unwrap();
    assert_eq!("https://example.com/x.php?a=1", normalizer.normalize(None).unwrap());
}

#[test]
fn other_ports_are_kept() {
    let normalizer = UrlNormalizer::new("https://example.com:65535/x.php").unwrap();
    assert_eq!("https://example.com:65535/x.php", normalizer.normalize(None).unwrap());
}

#[test]
fn opaque_url_passes_through() {
    let normalizer = UrlNormalizer::new("foo://example.com").unwrap();
    assert_eq!("foo://example.com", normalizer.normalize(Some(&[".*"])).unwrap());
}

#[test]
fn bad_pattern_is_reported() {
    let normalizer = UrlNormalizer::new("https://example.com/x?a=1").unwrap();
    let err = normalizer.normalize(Some(&["ok", "["])).unwrap_err();
    assert_eq!(NormalizeError::RegexParseError("[".to_string()), err);
}

#[test]
fn bad_pattern_is_ignored_without_a_query() {
    // With no query string there is nothing to filter, so the patterns
    // are never compiled and the bad one raises no error.
    let normalizer = UrlNormalizer::new("https://example.com/x").unwrap();
    assert_eq!("https://example.com/x", normalizer.normalize(Some(&["["])).unwrap());
}

#[test]
fn missing_scheme_fails_to_parse() {
    let err = UrlNormalizer::new("example.com/x").unwrap_err();
    assert_eq!(NormalizeError::UrlParseError, err);
}

#[test]
fn surrounding_whitespace_is_trimmed() {
    let normalizer = UrlNormalizer::new("  https://example.com/x.php?a=1 \n").unwrap();
    assert_eq!("https://example.com/x.php?a=1", normalizer.normalize(None).unwrap());
}

#[test]
fn canonical_map_is_sorted_and_decoded() {
    let q: Vec<char> = "b=2&a=%31".chars().collect();
    let m = url_normalizer::query::canonicalize_query(Some(&q), None).unwrap();
    assert_eq!(2, m.len());
    assert_eq!("a", m.key_at(0).iter().collect::<String>());
    assert_eq!("1", m.value_at(0).iter().collect::<String>());
    assert_eq!("b", m.key_at(1).iter().collect::<String>());
    assert_eq!("2", m.value_at(1).iter().collect::<String>());
}

#[test]
fn opaque_output_is_trimmed_input() {
    // The opaque passthrough returns the trimmed text itself, so this
    // fails if trimming were skipped.
    let normalizer = UrlNormalizer::new(" foo://example.com ").unwrap();
    assert_eq!("foo://example.com", normalizer.normalize(None).unwrap());
}

#[test]
fn path_fields_are_percent_encoded() {
    // `+` passes the URL parser untouched but is percent-encoded by the
    // path encoding pass.
    let normalizer = UrlNormalizer::new("https://example.com/a+b/c").unwrap();
    assert_eq!("https://example.com/a%2Bb/c", normalizer.normalize(None).unwrap());
}

#[test]
fn token_shapes_decode() {
    // A bare key, a key with an empty value, and a bare value.
    let normalizer = UrlNormalizer::new("https://example.com/x?b=&a&=c").unwrap();
    assert_eq!("https://example.com/x?=c&a=&b=", normalizer.normalize(None).unwrap());
}

#[test]
fn empty_pair_tokens_are_skipped() {
    let normalizer = UrlNormalizer::new("https://example.com/x?&&b=2&&a=1&").unwrap();
    assert_eq!("https://example.com/x?a=1&b=2", normalizer.normalize(None).unwrap());
}

#[test]
fn percent_decoding_applies_to_keys_and_values() {
    let normalizer = UrlNormalizer::new("https://example.com/x?%61=%31").unwrap();
    assert_eq!("https://example.com/x?a=1", normalizer.normalize(None).unwrap());
}

#[test]
fn duplicate_keys_keep_the_last_value() {
    let normalizer = UrlNormalizer::new("https://example.com/x?a=1&a=2&a=3").unwrap();
    assert_eq!("https://example.com/x?a=3", normalizer.normalize(None).unwrap());
}

#[test]
fn filtered_keys_never_appear() {
    let normalizer = UrlNormalizer::new("https://example.com/x?aa=1&b=2&ca=3").unwrap();
    assert_eq!("https://example.com/x?b=2", normalizer.normalize(Some(&["a"])).unwrap());
}
