use anydoc::uri::{
    canonical_reference, decode_fragment, is_absolute_uri, normalize_content_id,
    normalize_url_path, percent_decode, resolve_resource_reference, resource_lookup_key,
    split_path_suffix, strip_prefix_ignore_ascii_case,
};

#[test]
fn content_ids_are_trimmed_unwrapped_and_lowercased() {
    assert_eq!(normalize_content_id(" <IMAGE@ID> "), "image@id");
    assert_eq!(normalize_content_id("CID:root@id"), "root@id");
    assert_eq!(normalize_content_id("cid:<Root@Id>"), "root@id");
    assert_eq!(normalize_content_id("<>"), "");
}

#[test]
fn content_ids_differing_in_case_share_a_key() {
    assert_eq!(normalize_content_id("<ROOT@ID>"), normalize_content_id("<root@id>"));
}

#[test]
fn canonical_references_normalize_only_cid() {
    assert_eq!(canonical_reference("  CID:<Image@Id> "), "cid:image@id");
    assert_eq!(canonical_reference(" https://Example.test/A.png "), "https://Example.test/A.png");
}

#[test]
fn strip_prefix_ignores_ascii_case() {
    assert_eq!(strip_prefix_ignore_ascii_case("CID:x", "cid:"), Some("x"));
    assert_eq!(strip_prefix_ignore_ascii_case("CID", "cid:"), None);
    assert_eq!(strip_prefix_ignore_ascii_case("CID:x", "mid:"), None);
    assert_eq!(strip_prefix_ignore_ascii_case("é:x", "cid:"), None);
}

#[test]
fn absolute_uris_need_a_scheme() {
    assert!(is_absolute_uri("https://example.test/"));
    assert!(is_absolute_uri("mailto:a@b"));
    assert!(!is_absolute_uri("//cdn.test/a.png"));
    assert!(!is_absolute_uri("images/a.png"));
    assert!(!is_absolute_uri("1http://x"));
    assert!(!is_absolute_uri(":x"));
}

#[test]
fn path_suffix_starts_at_query_or_fragment() {
    assert_eq!(split_path_suffix("a/b.css?x=1#top"), ("a/b.css", "?x=1#top"));
    assert_eq!(split_path_suffix("a#b?c"), ("a", "#b?c"));
    assert_eq!(split_path_suffix("plain"), ("plain", ""));
}

#[test]
fn lookup_key_drops_the_fragment() {
    assert_eq!(resource_lookup_key("https://example.test/a.png#view"), "https://example.test/a.png");
    assert_eq!(resource_lookup_key("a.css?x=1"), "a.css?x=1");
    assert_eq!(resource_lookup_key("#only"), "");
}

#[test]
fn url_paths_are_normalized() {
    assert_eq!(normalize_url_path("/a/./b/../c/"), "/a/c/");
    assert_eq!(normalize_url_path("a//b"), "/a/b");
    assert_eq!(normalize_url_path("/../x"), "/x");
    assert_eq!(normalize_url_path(""), "/");
    assert_eq!(normalize_url_path("/docs/"), "/docs/");
}

#[test]
fn references_resolve_against_the_base() {
    let base = Some("https://example.test/docs/page.html");
    assert_eq!(resolve_resource_reference(base, "styles/site.css"), "https://example.test/docs/styles/site.css");
    assert_eq!(resolve_resource_reference(base, "../img/a.png?x#f"), "https://example.test/img/a.png?x#f");
    assert_eq!(resolve_resource_reference(base, "/root.css"), "https://example.test/root.css");
    assert_eq!(resolve_resource_reference(base, "?q=1"), "https://example.test/docs/page.html?q=1");
    assert_eq!(resolve_resource_reference(base, "//cdn.test/a.png"), "https://cdn.test/a.png");
    assert_eq!(resolve_resource_reference(Some("https://example.test"), "a.png"), "https://example.test/a.png");
}

#[test]
fn cid_and_absolute_references_are_not_resolved() {
    let base = Some("https://example.test/docs/page.html");
    assert_eq!(resolve_resource_reference(base, "CID:<X@Y>"), "cid:x@y");
    assert_eq!(resolve_resource_reference(base, "http://other.test/a.png"), "http://other.test/a.png");
    assert_eq!(resolve_resource_reference(None, "images/a.png"), "images/a.png");
    assert_eq!(resolve_resource_reference(Some("no-scheme-base"), "a.png"), "a.png");
}

#[test]
fn percent_escapes_are_decoded() {
    assert_eq!(percent_decode(b"a%20b%2Fc"), b"a b/c".to_vec());
    assert_eq!(percent_decode(b"100%"), b"100%".to_vec());
    assert_eq!(percent_decode(b"%zz%4"), b"%zz%4".to_vec());
}

#[test]
fn fragments_decode_to_utf8_or_stay_as_written() {
    assert_eq!(decode_fragment("caf%C3%A9"), "café");
    assert_eq!(decode_fragment("sec%201"), "sec 1");
    assert_eq!(decode_fragment("bad%FF"), "bad%FF");
    assert_eq!(decode_fragment("Section-2 ünïcode"), "Section-2 ünïcode");
}

#[test]
fn normalizing_a_normalized_path_changes_nothing() {
    for path in ["/docs/../img/./a.png", "/../..", "a//b/", "", "/x/y/..", "./a/b/../c/"] {
        let once = normalize_url_path(path);
        assert_eq!(normalize_url_path(&once), once);
    }
    assert_eq!(normalize_url_path("/docs/../img/./a.png"), "/img/a.png");
    assert_eq!(normalize_url_path("/../.."), "/");
    assert_eq!(normalize_url_path("/x/y/.."), "/x");
}
