use anydoc::dom::{DomKind, DomNode};
use anydoc::error::ConvertError;
use anydoc::html::{
    bump_node_count, document_from_parsed_html, optional_namespace, parse, Document, HtmlContext,
    StandaloneCtx,
};
use anydoc::limits::{MAX_ENTRY_BYTES, MAX_XML_NODES};
use anydoc::model::{ImageSource, Node};

fn accept_all(_text: &str) -> Result<(), ConvertError> {
    Ok(())
}

fn convert(html: &str) -> Result<Document, ConvertError> {
    parse(html.as_bytes(), accept_all)
}

fn body_text(document: &Document) -> String {
    let mut out = String::new();
    for node in document.body.as_ref().expect("a body") {
        if let Node::Text { text, .. } = node {
            out.push_str(text);
        }
    }
    out
}

fn element_depths(document: &Document) -> Vec<(String, usize)> {
    let mut out = Vec::new();
    for node in document.body.as_ref().expect("a body") {
        if let Node::Elem { depth, element } = node {
            out.push((element.local.clone(), *depth));
        }
    }
    out
}

#[test]
fn body_tree_keeps_elements_and_text_with_depths() {
    let document = convert("<!doctype html><p>Hello <b>world</b></p><!-- note -->").unwrap();
    assert_eq!(body_text(&document), "Hello world");
    assert_eq!(
        element_depths(&document),
        vec![("body".to_string(), 1), ("p".to_string(), 2), ("b".to_string(), 3)]
    );
    assert!(document.assets.is_empty());
    assert!(matches!(document.context, HtmlContext::Standalone(_)));
}

#[test]
fn style_blocks_become_stylesheets_in_order() {
    let document = convert("<style>p { color: red }</style><p>x</p><style>b { }</style>").unwrap();
    assert_eq!(document.stylesheets, vec!["p { color: red }".to_string(), "b { }".to_string()]);
}

#[test]
fn frameset_document_converts_without_a_body() {
    let document = convert("<!doctype html><frameset><frame src=\"a.html\"></frameset>").unwrap();
    assert!(document.body.is_none());
    assert!(document.stylesheets.is_empty());
}

#[test]
fn template_body_does_not_capture_document_conversion() {
    let document = convert(
        "<!doctype html><html><head><template><body>template body</body></template></head><body><p>real body</p></body></html>",
    )
    .unwrap();
    assert_eq!(body_text(&document), "real body");
}

#[test]
fn malformed_html_is_repaired_by_the_parser() {
    let document = convert("<p>one<p>two</b>").unwrap();
    assert_eq!(body_text(&document), "onetwo");
    assert_eq!(
        element_depths(&document),
        vec![("body".to_string(), 1), ("p".to_string(), 2), ("p".to_string(), 2)]
    );
}

#[test]
fn attributes_keep_their_namespace_as_an_option() {
    let document = convert("<p id=\"x\"><svg xlink:href=\"#a\"></svg></p>").unwrap();
    let nodes = document.body.as_ref().unwrap();
    match &nodes[1] {
        Node::Elem { element, .. } => {
            assert_eq!(element.local, "p");
            assert!(element.ns.is_some());
            assert_eq!(element.attrs.len(), 1);
            assert!(element.attrs[0].ns.is_none());
            assert_eq!(element.attrs[0].local, "id");
            assert_eq!(element.attrs[0].value, "x");
        }
        Node::Text { .. } => panic!("expected the paragraph"),
    }
    assert_eq!(optional_namespace(""), None);
    assert_eq!(optional_namespace("http://www.w3.org/1999/xhtml"), Some("http://www.w3.org/1999/xhtml".to_string()));
}

#[test]
fn tree_depth_boundary_is_the_element_limit() {
    let mut ok = String::from("<!doctype html><html><body>");
    ok.push_str(&"<div>".repeat(255));
    ok.push_str("x</body></html>");
    assert!(convert(&ok).is_ok());
    let mut too_deep = String::from("<!doctype html><html><body>");
    too_deep.push_str(&"<div>".repeat(256));
    too_deep.push_str("x</body></html>");
    match convert(&too_deep) {
        Err(ConvertError::ResourceLimit { limit, detail }) => {
            assert_eq!(limit, "max_xml_depth");
            assert_eq!(detail, "HTML element nesting depth 257 exceeds 256");
        }
        _ => panic!("expected the tree depth limit"),
    }
}

#[test]
fn preflight_error_stops_the_conversion() {
    let result = parse(b"<p>x</p>", |text: &str| {
        assert_eq!(text, "<p>x</p>");
        Err(ConvertError::malformed("refused"))
    });
    assert!(matches!(result, Err(ConvertError::Malformed(m)) if m == "refused"));
}

#[test]
fn oversized_html_input_is_rejected() {
    let bytes = vec![b' '; MAX_ENTRY_BYTES as usize + 1];
    match parse(&bytes, accept_all) {
        Err(ConvertError::ResourceLimit { limit, detail }) => {
            assert_eq!(limit, "max_entry_bytes");
            assert_eq!(detail, "HTML input is 134217729 bytes; maximum is 134217728");
        }
        _ => panic!("expected the entry limit"),
    }
}

#[test]
fn standalone_images_stay_as_written() {
    let ctx = StandaloneCtx;
    assert!(matches!(ctx.image_source("  images/x.png "), Ok(Some(ImageSource::External(s))) if s == "images/x.png"));
    assert!(matches!(ctx.image_source("//cdn.test/a.png"), Ok(Some(ImageSource::External(s))) if s == "//cdn.test/a.png"));
    assert!(matches!(ctx.image_source("   "), Ok(None)));
}

#[test]
fn parsed_tree_without_body_or_frameset_is_malformed() {
    let nodes = vec![
        DomNode { depth: 0, kind: DomKind::Container },
        DomNode {
            depth: 1,
            kind: DomKind::Element { ns: String::new(), local: "html".to_string(), attrs: Vec::new() },
        },
    ];
    let result = document_from_parsed_html(&nodes, None, HtmlContext::Standalone(StandaloneCtx), Vec::new());
    assert!(matches!(result, Err(ConvertError::Malformed(m)) if m == "HTML parser produced no body element"));
}

#[test]
fn node_counter_reports_the_node_limit() {
    let mut count = MAX_XML_NODES - 1;
    assert!(bump_node_count(&mut count).is_ok());
    assert_eq!(count, MAX_XML_NODES);
    match bump_node_count(&mut count) {
        Err(ConvertError::ResourceLimit { limit, detail }) => {
            assert_eq!(limit, "max_xml_nodes");
            assert_eq!(detail, "HTML tree has more than 2000000 nodes");
        }
        _ => panic!("expected the node limit"),
    }
    let mut saturated = usize::MAX;
    assert!(bump_node_count(&mut saturated).is_err());
    assert_eq!(saturated, usize::MAX);
}
