use anydoc::error::ConvertError;
use anydoc::html::{Document, HtmlContext};
use anydoc::mhtml::parse;
use anydoc::model::{AssetId, ImageSource, LinkTarget, Node};

fn fixture(source: &str) -> Vec<u8> {
    source.replace('\n', "\r\n").into_bytes()
}

fn accept_all(_text: &str) -> Result<(), ConvertError> {
    Ok(())
}

fn convert(source: &str) -> Result<Document, ConvertError> {
    parse(&fixture(source), accept_all)
}

fn body_text(document: &Document) -> String {
    let mut out = String::new();
    for node in document.body.as_ref().expect("a body") {
        if let Node::Text { text, .. } = node {
            out.push_str(text);
        }
    }
    out
}

fn first_attr(document: &Document, element: &str, name: &str) -> String {
    for node in document.body.as_ref().expect("a body") {
        if let Node::Elem { element: e, .. } = node {
            if e.local == element {
                for a in &e.attrs {
                    if a.local == name {
                        return a.value.clone();
                    }
                }
            }
        }
    }
    panic!("no {element} with {name}")
}

fn image(document: &Document) -> Option<ImageSource> {
    let src = first_attr(document, "img", "src");
    match &document.context {
        HtmlContext::Mhtml(ctx) => ctx.image_source(&src).unwrap(),
        HtmlContext::Standalone(_) => panic!("expected an archive context"),
    }
}

fn malformed_message(result: Result<Document, ConvertError>) -> String {
    match result {
        Err(ConvertError::Malformed(message)) => message,
        _ => panic!("expected a malformed-input error"),
    }
}

#[test]
fn quoted_printable_html_root_converts() {
    let document = convert(
        "MIME-Version: 1.0\nContent-Type: multipart/related; type=\"text/html\"; boundary=\"b\"\n\n--b\nContent-Type: text/html; charset=windows-1252\nContent-Transfer-Encoding: quoted-printable\nContent-Location: https://example.test/page\n\n<!doctype html><p>caf=E9</p>\n--b--\n",
    )
    .unwrap();
    assert_eq!(body_text(&document), "café");
}

#[test]
fn mime_charset_overrides_html_fallback() {
    let document = convert(
        "MIME-Version: 1.0\nContent-Type: multipart/related; type=\"text/html\"; boundary=\"b\"\n\n--b\nContent-Type: text/html; charset=iso-8859-2\nContent-Transfer-Encoding: quoted-printable\nContent-Location: https://example.test/page\n\n<!doctype html><meta charset=3D\"utf-8\"><p>=A3</p>\n--b--\n",
    )
    .unwrap();
    assert_eq!(body_text(&document), "Ł");
}

#[test]
fn start_parameter_selects_the_related_html_root() {
    let document = convert(
        "MIME-Version: 1.0\nContent-Type: multipart/related; type=\"text/html\"; start=\"<root@id>\"; boundary=\"b\"\n\n--b\nContent-Type: text/html\nContent-ID: <other@id>\n\n<p>wrong root</p>\n--b\nContent-Type: text/html\nContent-ID: <root@id>\n\n<p>right root</p>\n--b--\n",
    )
    .unwrap();
    assert_eq!(body_text(&document), "right root");
}

#[test]
fn uppercase_cid_start_parameter_selects_the_related_html_root() {
    let document = convert(
        "MIME-Version: 1.0\nContent-Type: multipart/related; type=\"text/html\"; start=\"CID:root@id\"; boundary=\"b\"\n\n--b\nContent-Type: text/html\nContent-ID: <other@id>\n\n<p>wrong root</p>\n--b\nContent-Type: text/html\nContent-ID: <root@id>\n\n<p>right root</p>\n--b--\n",
    )
    .unwrap();
    assert_eq!(body_text(&document), "right root");
}

#[test]
fn start_parameter_content_id_matching_is_case_insensitive() {
    let document = convert(
        "MIME-Version: 1.0\nContent-Type: multipart/related; type=\"text/html\"; start=\"<ROOT@ID>\"; boundary=\"b\"\n\n--b\nContent-Type: text/html\nContent-ID: <root@id>\n\n<p>right root</p>\n--b--\n",
    )
    .unwrap();
    assert_eq!(body_text(&document), "right root");
}

#[test]
fn related_mhtml_without_html_root_is_malformed() {
    let result = convert(
        "MIME-Version: 1.0\nContent-Type: multipart/related; type=\"text/html\"; boundary=\"b\"\n\n--b\nContent-Type: text/css\n\np { font-weight: bold }\n--b--\n",
    );
    assert_eq!(malformed_message(result), "MHTML contains no HTML root part");
}

#[test]
fn archive_root_must_be_multipart_related() {
    let result = convert(
        "MIME-Version: 1.0\nContent-Type: multipart/alternative; boundary=\"b\"\n\n--b\nContent-Type: text/html\n\n<p>Hello</p>\n--b--\n",
    );
    assert_eq!(malformed_message(result), "MHTML root is not multipart/related");
}

#[test]
fn empty_input_is_not_a_mime_archive() {
    assert_eq!(malformed_message(parse(b"", accept_all)), "MHTML MIME structure could not be parsed");
}

#[test]
fn archive_undecodable_base64_root_is_read_as_written() {
    let document = convert(
        "MIME-Version: 1.0\nContent-Type: multipart/related; type=\"text/html\"; boundary=\"b\"\n\n--b\nContent-Type: text/html\nContent-Transfer-Encoding: base64\n\n!!!!\n--b--\n",
    )
    .unwrap();
    assert_eq!(body_text(&document).trim_end(), "!!!!");
}

#[test]
fn archive_preflight_error_is_the_result() {
    let result = parse(
        &fixture("MIME-Version: 1.0\nContent-Type: multipart/related; type=\"text/html\"; boundary=\"b\"\n\n--b\nContent-Type: text/html\n\n<p>Hello</p>\n--b--\n"),
        |text: &str| {
            assert!(text.contains("<p>Hello</p>"));
            Err(ConvertError::malformed("refused"))
        },
    );
    assert_eq!(malformed_message(result), "refused");
}

#[test]
fn linked_css_is_resolved_from_cid() {
    let document = convert(
        "MIME-Version: 1.0\nContent-Type: multipart/related; type=\"text/html\"; boundary=\"b\"\n\n--b\nContent-Type: text/html\n\n<!doctype html><link rel=\"stylesheet\" href=\"cid:style@id\"><p class=\"hidden\">drop me</p><p class=\"strong\">keep me</p>\n--b\nContent-Type: text/css; charset=utf-8\nContent-ID: <style@id>\n\n.hidden { display: none }\n.strong { font-weight: bold }\n--b--\n",
    )
    .unwrap();
    assert_eq!(document.stylesheets.len(), 1);
    assert!(document.stylesheets[0].contains(".hidden { display: none }"));
    assert!(document.stylesheets[0].contains(".strong { font-weight: bold }"));
}

#[test]
fn linked_css_and_inline_style_preserve_document_order() {
    let document = convert(
        "MIME-Version: 1.0\nContent-Type: multipart/related; type=\"text/html\"; boundary=\"b\"\n\n--b\nContent-Type: text/html\n\n<!doctype html><link rel=\"stylesheet\" href=\"cid:style@id\"><style>.strong { font-weight: normal }</style><p class=\"strong\">keep me</p>\n--b\nContent-Type: text/css; charset=utf-8\nContent-ID: <style@id>\n\n.strong { font-weight: bold }\n--b--\n",
    )
    .unwrap();
    assert_eq!(document.stylesheets.len(), 2);
    assert!(document.stylesheets[0].contains("bold"));
    assert_eq!(document.stylesheets[1], ".strong { font-weight: normal }");
}

#[test]
fn archive_link_without_stylesheet_rel_is_ignored() {
    let document = convert(
        "MIME-Version: 1.0\nContent-Type: multipart/related; type=\"text/html\"; boundary=\"b\"\n\n--b\nContent-Type: text/html\n\n<!doctype html><link rel=\"icon\" href=\"cid:style@id\"><link rel=\"alternate  STYLESHEET\" href=\"cid:style@id\"><p>x</p>\n--b\nContent-Type: text/css\nContent-ID: <style@id>\n\n.a { }\n--b--\n",
    )
    .unwrap();
    assert_eq!(document.stylesheets.len(), 1);
}

#[test]
fn relative_linked_css_resolves_against_root_content_location() {
    let document = convert(
        "MIME-Version: 1.0\nContent-Type: multipart/related; type=\"text/html\"; boundary=\"b\"\n\n--b\nContent-Type: text/html; charset=utf-8\nContent-Location: https://example.test/docs/page.html\n\n<!doctype html><link rel=\"stylesheet\" href=\"styles/site.css\"><p class=\"strong\">keep me</p>\n--b\nContent-Type: text/css; charset=utf-8\nContent-Location: https://example.test/docs/styles/site.css\n\n.strong { font-weight: bold }\n--b--\n",
    )
    .unwrap();
    assert_eq!(document.stylesheets.len(), 1);
}

#[test]
fn relative_css_part_content_location_resolves_against_root() {
    let document = convert(
        "MIME-Version: 1.0\nContent-Type: multipart/related; type=\"text/html\"; boundary=\"b\"\n\n--b\nContent-Type: text/html; charset=utf-8\nContent-Location: https://example.test/docs/page.html\n\n<!doctype html><link rel=\"stylesheet\" href=\"styles/site.css\"><p class=\"strong\">keep me</p>\n--b\nContent-Type: text/css; charset=utf-8\nContent-Location: styles/site.css\n\n.strong { font-weight: bold }\n--b--\n",
    )
    .unwrap();
    assert_eq!(document.stylesheets.len(), 1);
}

#[test]
fn relative_part_content_location_resolves_against_html_base() {
    let document = convert(
        "MIME-Version: 1.0\nContent-Type: multipart/related; type=\"text/html\"; boundary=\"b\"\n\n--b\nContent-Type: text/html; charset=utf-8\nContent-Location: https://example.test/docs/page.html\n\n<!doctype html><base href=\"https://cdn.example.test/assets/\"><link rel=\"stylesheet\" href=\"styles/site.css\"><p class=\"strong\">keep me</p>\n--b\nContent-Type: text/css; charset=utf-8\nContent-Location: styles/site.css\n\n.strong { font-weight: bold }\n--b--\n",
    )
    .unwrap();
    assert_eq!(document.stylesheets.len(), 1);
    match &document.context {
        HtmlContext::Mhtml(ctx) => assert_eq!(ctx.resource_base.as_deref(), Some("https://cdn.example.test/assets/")),
        HtmlContext::Standalone(_) => panic!("expected an archive context"),
    }
}

#[test]
fn html_base_href_resolves_relative_embedded_image() {
    let document = convert(
        "MIME-Version: 1.0\nContent-Type: multipart/related; type=\"text/html\"; boundary=\"b\"\n\n--b\nContent-Type: text/html; charset=utf-8\nContent-Location: https://example.test/docs/page.html\n\n<!doctype html><base href=\"https://cdn.example.test/assets/\"><p><img alt=\"pixel\" src=\"pixel.png\"></p>\n--b\nContent-Type: image/png\nContent-Location: https://cdn.example.test/assets/pixel.png\nContent-Transfer-Encoding: base64\n\nAAECAw==\n--b--\n",
    )
    .unwrap();
    assert!(matches!(image(&document), Some(ImageSource::Asset(AssetId(0)))));
}

#[test]
fn cid_image_becomes_an_embedded_document_asset() {
    let document = convert(
        "MIME-Version: 1.0\nContent-Type: multipart/related; type=\"text/html\"; boundary=\"b\"\n\n--b\nContent-Type: text/html\n\n<!doctype html><p><img alt=\"pixel\" src=\"cid:image@id\"></p>\n--b\nContent-Type: image/png\nContent-ID: <image@id>\nContent-Transfer-Encoding: base64\n\nAAECAw==\n--b--\n",
    )
    .unwrap();
    assert_eq!(document.assets.len(), 1);
    assert_eq!(document.assets[0].media_type, "image/png");
    assert_eq!(document.assets[0].bytes, [0, 1, 2, 3]);
    assert!(document.assets[0].id == AssetId(0));
    assert!(matches!(image(&document), Some(ImageSource::Asset(AssetId(0)))));
    assert_eq!(first_attr(&document, "img", "alt"), "pixel");
}

#[test]
fn uppercase_cid_image_becomes_an_embedded_document_asset() {
    let document = convert(
        "MIME-Version: 1.0\nContent-Type: multipart/related; type=\"text/html\"; boundary=\"b\"\n\n--b\nContent-Type: text/html\n\n<!doctype html><p><img alt=\"pixel\" src=\"CID:image@id\"></p>\n--b\nContent-Type: image/png\nContent-ID: <image@id>\nContent-Transfer-Encoding: base64\n\nAAECAw==\n--b--\n",
    )
    .unwrap();
    assert!(matches!(image(&document), Some(ImageSource::Asset(AssetId(0)))));
}

#[test]
fn cid_identifier_matching_is_case_insensitive() {
    let document = convert(
        "MIME-Version: 1.0\nContent-Type: multipart/related; type=\"text/html\"; boundary=\"b\"\n\n--b\nContent-Type: text/html\n\n<!doctype html><p><img alt=\"pixel\" src=\"cid:IMAGE@ID\"></p>\n--b\nContent-Type: image/png\nContent-ID: <image@id>\nContent-Transfer-Encoding: base64\n\nAAECAw==\n--b--\n",
    )
    .unwrap();
    assert!(matches!(image(&document), Some(ImageSource::Asset(AssetId(0)))));
}

#[test]
fn content_location_image_becomes_an_embedded_document_asset() {
    let document = convert(
        "MIME-Version: 1.0\nContent-Type: multipart/related; type=\"text/html\"; boundary=\"b\"\n\n--b\nContent-Type: text/html\n\n<!doctype html><p><img alt=\"pixel\" src=\"https://example.test/pixel.png\"></p>\n--b\nContent-Type: image/png\nContent-Location: https://example.test/pixel.png\nContent-Transfer-Encoding: base64\n\nAAECAw==\n--b--\n",
    )
    .unwrap();
    assert_eq!(document.assets.len(), 1);
    assert_eq!(document.assets[0].origin_part, "https://example.test/pixel.png");
    assert!(matches!(image(&document), Some(ImageSource::Asset(AssetId(0)))));
}

#[test]
fn relative_image_part_content_location_resolves_against_root() {
    let document = convert(
        "MIME-Version: 1.0\nContent-Type: multipart/related; type=\"text/html\"; boundary=\"b\"\n\n--b\nContent-Type: text/html; charset=utf-8\nContent-Location: https://example.test/docs/page.html\n\n<!doctype html><p><img alt=\"pixel\" src=\"images/pixel.png\"></p>\n--b\nContent-Type: image/png\nContent-Location: images/pixel.png\nContent-Transfer-Encoding: base64\n\nAAECAw==\n--b--\n",
    )
    .unwrap();
    assert!(matches!(image(&document), Some(ImageSource::Asset(AssetId(0)))));
}

#[test]
fn empty_html_base_falls_back_to_root_content_location() {
    let document = convert(
        "MIME-Version: 1.0\nContent-Type: multipart/related; type=\"text/html\"; boundary=\"b\"\n\n--b\nContent-Type: text/html; charset=utf-8\nContent-Location: https://example.test/docs/page.html\n\n<!doctype html><base href=\"\"><p><img alt=\"pixel\" src=\"images/pixel.png\"></p>\n--b\nContent-Type: image/png\nContent-Location: https://example.test/docs/images/pixel.png\nContent-Transfer-Encoding: base64\n\nAAECAw==\n--b--\n",
    )
    .unwrap();
    assert!(matches!(image(&document), Some(ImageSource::Asset(AssetId(0)))));
}

#[test]
fn image_fragment_is_ignored_for_embedded_resource_lookup() {
    let document = convert(
        "MIME-Version: 1.0\nContent-Type: multipart/related; type=\"text/html\"; boundary=\"b\"\n\n--b\nContent-Type: text/html; charset=utf-8\nContent-Location: https://example.test/page.html\n\n<!doctype html><p><img alt=\"pixel\" src=\"https://example.test/pixel.png#view\"></p>\n--b\nContent-Type: image/png\nContent-Location: https://example.test/pixel.png\nContent-Transfer-Encoding: base64\n\nAAECAw==\n--b--\n",
    )
    .unwrap();
    assert!(matches!(image(&document), Some(ImageSource::Asset(AssetId(0)))));
}

#[test]
fn stylesheet_fragment_is_ignored_for_embedded_resource_lookup() {
    let document = convert(
        "MIME-Version: 1.0\nContent-Type: multipart/related; type=\"text/html\"; boundary=\"b\"\n\n--b\nContent-Type: text/html; charset=utf-8\nContent-Location: https://example.test/page.html\n\n<!doctype html><link rel=\"stylesheet\" href=\"https://example.test/site.css#theme\"><p class=\"strong\">keep me</p>\n--b\nContent-Type: text/css; charset=utf-8\nContent-Location: https://example.test/site.css\n\n.strong { font-weight: bold }\n--b--\n",
    )
    .unwrap();
    assert_eq!(document.stylesheets.len(), 1);
}

#[test]
fn mhtml_content_location_fragment_is_ignored_for_resource_lookup() {
    let document = convert(
        "MIME-Version: 1.0\nContent-Type: multipart/related; type=\"text/html\"; boundary=\"b\"\n\n--b\nContent-Type: text/html; charset=utf-8\nContent-Location: https://example.test/page.html\n\n<!doctype html><link rel=\"stylesheet\" href=\"https://example.test/site.css\"><p class=\"strong\">keep me</p>\n--b\nContent-Type: text/css; charset=utf-8\nContent-Location: https://example.test/site.css#saved\n\n.strong { font-weight: bold }\n--b--\n",
    )
    .unwrap();
    assert_eq!(document.stylesheets.len(), 1);
}

#[test]
fn protocol_relative_mhtml_image_without_base_is_external() {
    let document = convert(
        "MIME-Version: 1.0\nContent-Type: multipart/related; type=\"text/html\"; boundary=\"b\"\n\n--b\nContent-Type: text/html; charset=utf-8\n\n<!doctype html><p><img alt=\"pixel\" src=\"//cdn.example.test/image.png\"></p>\n--b--\n",
    )
    .unwrap();
    match image(&document) {
        Some(ImageSource::External(url)) => assert_eq!(url, "//cdn.example.test/image.png"),
        _ => panic!("expected an external image"),
    }
}

#[test]
fn archive_bare_relative_image_does_not_match_content_id() {
    let document = convert(
        "MIME-Version: 1.0\nContent-Type: multipart/related; type=\"text/html\"; boundary=\"b\"\n\n--b\nContent-Type: text/html; charset=utf-8\n\n<!doctype html><p><img alt=\"pixel\" src=\"image@id\"></p>\n--b\nContent-Type: image/png\nContent-ID: <image@id>\nContent-Transfer-Encoding: base64\n\nAAECAw==\n--b--\n",
    )
    .unwrap();
    assert!(image(&document).is_none());
}

#[test]
fn archive_missing_cid_image_is_unavailable() {
    let document = convert(
        "MIME-Version: 1.0\nContent-Type: multipart/related; type=\"text/html\"; boundary=\"b\"\n\n--b\nContent-Type: text/html; charset=utf-8\n\n<!doctype html><p><img alt=\"pixel\" src=\"cid:gone@id\"></p>\n--b--\n",
    )
    .unwrap();
    assert!(matches!(image(&document), Some(ImageSource::Unavailable)));
}

#[test]
fn mhtml_root_enforces_html_depth_limit() {
    let html = format!("<!doctype html>{}deep{}", "<div>".repeat(300), "</div>".repeat(300));
    let result = convert(&format!(
        "MIME-Version: 1.0\nContent-Type: multipart/related; type=\"text/html\"; boundary=\"b\"\n\n--b\nContent-Type: text/html; charset=utf-8\n\n{html}\n--b--\n"
    ));
    match result {
        Err(ConvertError::ResourceLimit { limit, detail }) => {
            assert_eq!(limit, "max_xml_depth");
            assert_eq!(detail, "HTML element nesting depth 257 exceeds 256");
        }
        _ => panic!("expected a depth error"),
    }
}

#[test]
fn archive_links_resolve_to_anchors_urls_and_relative_references() {
    let document = convert(
        "MIME-Version: 1.0\nContent-Type: multipart/related; type=\"text/html\"; boundary=\"b\"\n\n--b\nContent-Type: text/html\n\n<p>x</p>\n--b--\n",
    )
    .unwrap();
    let ctx = match &document.context {
        HtmlContext::Mhtml(ctx) => ctx,
        HtmlContext::Standalone(_) => panic!("expected an archive context"),
    };
    assert!(matches!(ctx.link_target("  #sec%201 "), Some(LinkTarget::Anchor(a)) if a == "sec 1"));
    assert!(matches!(ctx.link_target("https://example.test/"), Some(LinkTarget::External(u)) if u == "https://example.test/"));
    assert!(matches!(ctx.link_target("#"), Some(LinkTarget::Anchor(a)) if a.is_empty()));
    assert!(matches!(ctx.link_target("page2.html"), Some(LinkTarget::Relative(u)) if u == "page2.html"));
    assert!(ctx.link_target("   ").is_none());
    assert_eq!(ctx.anchor_id("Top"), "Top");
}

fn base64(bytes: &[u8]) -> String {
    const TABLE: &[u8; 64] = b"ABCDEFGHIJKLMNOPQRSTUVWXYZabcdefghijklmnopqrstuvwxyz0123456789+/";
    let mut out = String::new();
    for chunk in bytes.chunks(3) {
        let b = [chunk[0], *chunk.get(1).unwrap_or(&0), *chunk.get(2).unwrap_or(&0)];
        let n = ((b[0] as u32) << 16) | ((b[1] as u32) << 8) | b[2] as u32;
        for i in 0..4 {
            if i <= chunk.len() {
                out.push(TABLE[((n >> (18 - 6 * i)) & 63) as usize] as char);
            } else {
                out.push('=');
            }
        }
    }
    out
}

fn tree_outline(document: &Document) -> Vec<String> {
    let mut out = Vec::new();
    for node in document.body.as_ref().expect("a body") {
        match node {
            Node::Elem { depth, element } => out.push(format!("{depth} <{}>", element.local)),
            Node::Text { depth, text } => out.push(format!("{depth} {text:?}")),
        }
    }
    out
}

#[test]
fn resource_free_html_converts_the_same_inside_an_archive() {
    let html = "<!doctype html><html><head><meta charset=\"utf-8\"><style>p { margin: 0 }</style></head><body><h1>Caf\u{e9}</h1><p>One <b>two</b></p></body></html>";
    let standalone = anydoc::html::parse(html.as_bytes(), accept_all).unwrap();
    let archive = parse(
        &fixture(&format!(
            "From: <Saved by Blink>\nSnapshot-Content-Location: https://example.test/page\nMIME-Version: 1.0\nContent-Type: multipart/related; type=\"text/html\"; boundary=\"b\"\n\n--b\nContent-Type: text/html; charset=utf-8\nContent-Transfer-Encoding: base64\nContent-Location: https://example.test/page\n\n{}\n--b--\n",
            base64(html.as_bytes())
        )),
        accept_all,
    )
    .unwrap();
    assert_eq!(tree_outline(&archive), tree_outline(&standalone));
    assert_eq!(archive.stylesheets, standalone.stylesheets);
    assert!(archive.assets.is_empty());
}

fn deeply_nested_mhtml(levels: usize) -> Vec<u8> {
    let mut out = String::from(
        "Snapshot-Content-Location: https://example.test/page\r\nMIME-Version: 1.0\r\nContent-Type: multipart/related; boundary=\"b0\"\r\n\r\n",
    );
    for level in 0..levels {
        out.push_str(&format!(
            "--b{level}\r\nContent-Type: multipart/mixed; boundary=\"b{}\"\r\n\r\n",
            level + 1
        ));
    }
    out.push_str(&format!(
        "--b{levels}\r\nContent-Type: text/html; charset=utf-8\r\n\r\n<p>deep</p>\r\n--b{levels}--\r\n"
    ));
    for level in (0..levels).rev() {
        out.push_str(&format!("--b{level}--\r\n"));
    }
    out.into_bytes()
}

#[test]
fn mhtml_nesting_excessive_multipart_nesting_is_rejected_before_mime_parse() {
    let input = deeply_nested_mhtml(300);
    let error = parse(&input, accept_all).unwrap_err();
    assert!(matches!(error, ConvertError::ResourceLimit { limit: "max_mime_depth", .. }));
}

#[test]
fn mhtml_pr4_red_excessive_multipart_nesting_is_rejected_before_mime_parse() {
    let input = deeply_nested_mhtml(300);
    let error = parse(&input, accept_all).unwrap_err();
    assert!(matches!(error, ConvertError::ResourceLimit { limit: "max_mime_depth", .. }));
}

#[test]
fn non_multipart_boundary_parameter_is_not_mime_nesting() {
    let mut mhtml = String::from(
        "MIME-Version: 1.0\r\nSnapshot-Content-Location: https://example.test/page\r\nContent-Type: multipart/related; boundary=\"outer\"\r\n\r\n--outer\r\nContent-Type: text/plain; boundary=\"fake0\"\r\n\r\n",
    );
    for depth in 0..90 {
        mhtml.push_str(&format!(
            "--fake{depth}\r\nContent-Type: text/plain; boundary=\"fake{}\"\r\n\r\n",
            depth + 1
        ));
    }
    mhtml.push_str(
        "payload\r\n--outer\r\nContent-Type: text/html; charset=utf-8\r\n\r\n<!doctype html><p>ok</p>\r\n--outer--\r\n",
    );
    let document = parse(mhtml.as_bytes(), accept_all).unwrap();
    assert_eq!(body_text(&document).trim_end(), "ok");
}

#[test]
fn non_multipart_boundary_parameter_does_not_count_as_mime_nesting() {
    let mut out = String::from(
        "Snapshot-Content-Location: https://example.test/page\r\nMIME-Version: 1.0\r\nContent-Type: multipart/related; boundary=\"root\"\r\n\r\n--root\r\nContent-Type: text/html; charset=utf-8\r\n\r\n<p>ok</p>\r\n--root\r\nContent-Type: text/plain; boundary=\"fake0\"\r\n\r\n",
    );
    for level in 0..70 {
        out.push_str(&format!(
            "--fake{level}\r\nContent-Type: text/plain; boundary=\"fake{}\"\r\n\r\n",
            level + 1
        ));
    }
    out.push_str("ordinary text\r\n--root--\r\n");
    let document = parse(out.as_bytes(), accept_all).unwrap();
    assert_eq!(body_text(&document).trim_end(), "ok");
}

#[test]
fn html_meta_charset_is_used_when_mime_charset_is_missing() {
    let mhtml = b"MIME-Version: 1.0\r\n\
Content-Type: multipart/related; type=\"text/html\"; boundary=\"b\"\r\n\
\r\n\
--b\r\n\
Content-Type: text/html\r\n\
Content-Transfer-Encoding: quoted-printable\r\n\
\r\n\
<!doctype html><meta http-equiv=3D\"Content-Type\" content=3D\"text/html; charset=3Dwindows-1252\"><p>Contrata=E7=E3o dever=E1</p>\r\n\
--b--\r\n";
    let document = parse(mhtml, accept_all).unwrap();
    assert_eq!(body_text(&document).trim_end(), "Contratação deverá");
}
