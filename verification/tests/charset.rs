use anydoc::charset::{
    charset_parameter, content_type_charset, decode_html, decode_html_with_charset,
    sniff_meta_charset,
};

#[test]
fn charset_sniff_accepts_meta_and_http_equiv_forms() {
    assert_eq!(
        sniff_meta_charset(b"<meta charset='windows-1252'>").map(|c| c.name()),
        Some("windows-1252")
    );
    assert_eq!(
        sniff_meta_charset(
            b"<meta http-equiv=content-type content='text/html; charset=iso-8859-1'>"
        )
        .map(|c| c.name()),
        Some("windows-1252")
    );
}

#[test]
fn charset_sniff_ignores_non_meta_text_and_attributes() {
    assert_eq!(
        sniff_meta_charset(b"<p data-note='charset=windows-1252'>utf-8</p>").map(|c| c.name()),
        None
    );
    assert_eq!(
        sniff_meta_charset(b"<!-- <meta charset=windows-1252> --><p>utf-8</p>").map(|c| c.name()),
        None
    );
    assert_eq!(
        sniff_meta_charset(b"<script>const x='<meta charset=windows-1252>';</script>")
            .map(|c| c.name()),
        None
    );
}

#[test]
fn sniffed_label_is_mapped_to_its_encoding() {
    assert_eq!(sniff_meta_charset(b"<meta charset=' UTF-8 '>").map(|c| c.name()), Some("UTF-8"));
    assert_eq!(sniff_meta_charset(b"<meta charset='no-such-label'>").map(|c| c.name()), None);
}

fn label_of(s: &str) -> Option<String> {
    content_type_charset(s).map(|label| label.to_string())
}

#[test]
fn content_type_charset_reads_the_parameter() {
    assert_eq!(label_of("text/html; charset=iso-8859-2"), Some("iso-8859-2".to_string()));
    assert_eq!(label_of("text/html; CHARSET = \"utf-8\""), Some("utf-8".to_string()));
    assert_eq!(label_of("text/html"), None);
}

#[test]
fn quoted_semicolon_does_not_fake_a_charset_parameter() {
    assert_eq!(label_of("text/html; title=\"a; charset=koi8-r\""), None);
}

#[test]
fn charset_parameter_needs_the_charset_name_and_a_value() {
    assert_eq!(charset_parameter(" charset = 'koi8-r' "), Some("koi8-r"));
    assert_eq!(charset_parameter("name=koi8-r"), None);
    assert_eq!(charset_parameter("charset=''"), None);
    assert_eq!(charset_parameter("charset"), None);
}

#[test]
fn byte_order_marks_decide_the_encoding() {
    assert_eq!(decode_html(&[0xEF, 0xBB, 0xBF, b'h', b'i']), "hi");
    assert_eq!(decode_html(&[0xFF, 0xFE, b'h', 0, b'i', 0]), "hi");
    assert_eq!(decode_html(&[0xFE, 0xFF, 0, b'h', 0, b'i']), "hi");
    assert_eq!(decode_html_with_charset(&[0xEF, 0xBB, 0xBF, 0xC3, 0xA9], Some("windows-1252")), "é");
}

#[test]
fn declared_charset_wins_over_meta_and_utf8() {
    let bytes = b"<meta charset=utf-8><p>\xA3</p>";
    assert_eq!(decode_html_with_charset(bytes, Some("iso-8859-2")), "<meta charset=utf-8><p>Ł</p>");
}

#[test]
fn unknown_declared_charset_falls_back_to_meta() {
    let bytes = b"<meta charset=windows-1252><p>\xE9</p>";
    assert_eq!(decode_html_with_charset(bytes, Some("no-such-label")), "<meta charset=windows-1252><p>é</p>");
}

#[test]
fn valid_utf8_without_declaration_is_utf8_else_windows_1252() {
    assert_eq!(decode_html("<p>café</p>".as_bytes()), "<p>café</p>");
    assert_eq!(decode_html(b"<p>caf\xE9</p>"), "<p>café</p>");
}

#[test]
fn meta_charset_after_the_first_kib_is_still_honored() {
    let mut bytes = vec![b' '; 2048];
    bytes.extend_from_slice(b"<meta charset=windows-1252><p>caf\xE9</p>");
    assert!(decode_html(&bytes).ends_with("<p>café</p>"));
}

#[test]
fn utf8_declared_page_decodes_as_it_does_standing_alone() {
    let page = "<!doctype html><meta charset=\"utf-8\"><p>Caf\u{e9} \u{141}\u{f3}d\u{17a}</p>".as_bytes();
    assert_eq!(decode_html_with_charset(page, Some("utf-8")), decode_html(page));
    assert_eq!(decode_html_with_charset(page, Some("utf-8")), String::from_utf8(page.to_vec()).unwrap());
}
