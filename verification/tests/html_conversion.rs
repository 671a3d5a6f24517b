use anydoc::error::ConvertError;
use anydoc::html::{parse, Document, HtmlContext};
use anydoc::model::{ImageSource, Node};
use anydoc::preflight::{
    check_preflight_limits, preflight_chunk_end, ComplexityModel, TokenEvent, TokenizerSwitch,
};
use html5ever::tendril::StrTendril;
use html5ever::tokenizer::states::{Rawtext, Rcdata, ScriptData};
use html5ever::tokenizer::{
    BufferQueue, EndTag, StartTag, TagToken, Token, TokenSink, TokenSinkResult, Tokenizer,
};
use std::cell::RefCell;

struct ComplexitySink {
    model: RefCell<ComplexityModel>,
}

impl TokenSink for ComplexitySink {
    type Handle = ();

    fn process_token(&self, token: Token, _line_number: u64) -> TokenSinkResult<Self::Handle> {
        let event = match token {
            TagToken(tag) => match tag.kind {
                StartTag => TokenEvent::StartTag { name: tag.name.to_string(), self_closing: tag.self_closing },
                EndTag => TokenEvent::EndTag { name: tag.name.to_string() },
            },
            Token::CharacterTokens(text) => TokenEvent::Characters { empty: text.is_empty() },
            Token::CommentToken(_) => TokenEvent::Comment,
            Token::DoctypeToken(_) => TokenEvent::Doctype,
            Token::NullCharacterToken => TokenEvent::NullCharacter,
            Token::EOFToken => TokenEvent::EndOfFile,
            Token::ParseError(_) => TokenEvent::ParseError,
        };
        match self.model.borrow_mut().process_token(event) {
            TokenizerSwitch::Continue => TokenSinkResult::Continue,
            TokenizerSwitch::Rcdata => TokenSinkResult::RawData(Rcdata),
            TokenizerSwitch::Rawtext => TokenSinkResult::RawData(Rawtext),
            TokenizerSwitch::ScriptData => TokenSinkResult::RawData(ScriptData),
            TokenizerSwitch::Plaintext => TokenSinkResult::Plaintext,
        }
    }
}

/// The tokenizer pass that the library's callers run before the tree is built.
fn preflight(text: &str) -> Result<(), ConvertError> {
    let tokenizer = Tokenizer::new(ComplexitySink { model: RefCell::new(ComplexityModel::new()) }, Default::default());
    let input = BufferQueue::default();
    let mut offset = 0usize;
    while offset < text.len() {
        let end = preflight_chunk_end(text, offset);
        input.push_back(StrTendril::from(&text[offset..end]));
        let _ = tokenizer.feed(&input);
        check_preflight_limits(&tokenizer.sink.model.borrow())?;
        offset = end;
    }
    tokenizer.end();
    let model = tokenizer.sink.model.borrow();
    check_preflight_limits(&model)
}

fn convert(html: &[u8]) -> Result<Document, ConvertError> {
    parse(html, preflight)
}

fn body_text(document: &Document) -> String {
    let mut out = String::new();
    for node in document.body.as_ref().expect("a body") {
        if let Node::Text { text, .. } = node {
            out.push_str(text);
        }
    }
    out
}

fn image(document: &Document) -> Option<ImageSource> {
    let mut src = None;
    for node in document.body.as_ref().expect("a body") {
        if let Node::Elem { element, .. } = node {
            if element.local == "img" {
                for a in &element.attrs {
                    if a.local == "src" {
                        src = Some(a.value.clone());
                    }
                }
            }
        }
    }
    match &document.context {
        HtmlContext::Standalone(ctx) => ctx.image_source(&src.expect("an image")).unwrap(),
        HtmlContext::Mhtml(_) => panic!("expected a standalone context"),
    }
}

fn assert_preflight_depth_limit(error: ConvertError) {
    match error {
        ConvertError::ResourceLimit { limit, detail } => {
            assert_eq!(limit, "max_xml_depth");
            assert!(detail.contains("before DOM construction"), "expected preflight depth rejection, got: {detail}");
        }
        other => panic!("expected max_xml_depth resource limit, got {other:?}"),
    }
}

#[test]
fn unrelated_charset_attribute_does_not_change_decoding() {
    let html = "<!doctype html><p data-note='charset=windows-1252'>café</p>".as_bytes();
    assert_eq!(body_text(&convert(html).unwrap()), "café");
}

#[test]
fn meta_looking_text_in_comment_does_not_change_decoding() {
    let html = "<!doctype html><!-- <meta charset=windows-1252> --><p>café</p>".as_bytes();
    assert_eq!(body_text(&convert(html).unwrap()), "café");
}

#[test]
fn meta_charset_decodes_legacy_html() {
    let mut html = b"<!doctype html><meta charset=windows-1252><p>caf".to_vec();
    html.push(0xE9);
    html.extend_from_slice(b"</p>");
    assert_eq!(body_text(&convert(&html).unwrap()), "caf\u{e9}");
}

#[test]
fn quoted_mime_parameter_semicolon_does_not_fake_charset() {
    let mut html = br#"<!doctype html><meta http-equiv="content-type" content='text/html; note="x;charset=utf-8"; charset=windows-1252'><p>"#.to_vec();
    html.push(0x80);
    html.extend_from_slice(b"</p>");
    assert_eq!(body_text(&convert(&html).unwrap()), "€");
}

#[test]
fn html_node_limit_covers_nodes_outside_body_before_dom_materialization() {
    let mut html = String::from("<!doctype html><html><head>");
    for _ in 0..2_000_001 {
        html.push_str("<!---->");
    }
    html.push_str("</head><body>ok</body></html>");
    let error = convert(html.as_bytes()).unwrap_err();
    assert!(matches!(error, ConvertError::ResourceLimit { limit: "max_xml_nodes", .. }));
}

#[test]
fn optional_li_end_tags_do_not_count_as_nested_depth() {
    let mut html = String::from("<!doctype html><ul>");
    for i in 0..300 {
        html.push_str(&format!("<li>item {i}"));
    }
    html.push_str("</ul>");
    assert!(body_text(&convert(html.as_bytes()).unwrap()).contains("item 299"));
}

#[test]
fn optional_p_end_tags_do_not_count_as_nested_depth() {
    let mut html = String::from("<!doctype html>");
    for i in 0..300 {
        html.push_str(&format!("<p>paragraph {i}"));
    }
    assert!(body_text(&convert(html.as_bytes()).unwrap()).contains("paragraph 299"));
}

#[test]
fn meta_charset_after_first_kib_is_still_honored() {
    let mut html = b"<!doctype html><html><head><style>/*".to_vec();
    html.extend(std::iter::repeat_n(b'x', 2048));
    html.extend_from_slice(b"*/</style><meta charset=iso-8859-2></head><body><p>");
    html.push(0xA3);
    html.extend_from_slice(b"</p></body></html>");
    assert_eq!(body_text(&convert(&html).unwrap()), "Ł");
}

#[test]
fn protocol_relative_image_is_preserved_as_external() {
    let html = br#"<!doctype html><p><img alt="pixel" src="//cdn.example.test/image.png"></p>"#;
    assert!(matches!(image(&convert(html).unwrap()), Some(ImageSource::External(url)) if url == "//cdn.example.test/image.png"));
}

#[test]
fn non_void_self_closing_html_tags_still_count_toward_preflight_depth() {
    let mut html = String::from("<!doctype html>");
    for _ in 0..300 {
        html.push_str("<div/>");
    }
    assert_preflight_depth_limit(convert(html.as_bytes()).unwrap_err());
}

#[test]
fn successive_headings_are_implicitly_closed_before_preflight_depth_counting() {
    let mut html = String::from("<!doctype html>");
    for i in 0..300 {
        html.push_str(&format!("<h1>heading {i}"));
    }
    assert!(body_text(&convert(html.as_bytes()).unwrap()).contains("heading 299"));
}

#[test]
fn alternating_headings_are_implicitly_closed_before_preflight_depth_counting() {
    const HEADINGS: [&str; 6] = ["h1", "h2", "h3", "h4", "h5", "h6"];
    let mut html = String::from("<!doctype html>");
    for i in 0..300 {
        let heading = HEADINGS[i % HEADINGS.len()];
        html.push_str(&format!("<{heading}>heading {i}"));
    }
    assert!(body_text(&convert(html.as_bytes()).unwrap()).contains("heading 299"));
}

#[test]
fn foreign_self_closing_svg_elements_do_not_accumulate_html_depth() {
    let mut html = String::from("<!doctype html><svg>");
    for _ in 0..300 {
        html.push_str("<path/>");
    }
    html.push_str("</svg><p>ok</p>");
    assert!(body_text(&convert(html.as_bytes()).unwrap()).contains("ok"));
}

#[test]
fn html_inside_svg_foreign_object_still_counts_self_closing_non_void_depth() {
    let mut html = String::from("<!doctype html><svg><foreignObject>");
    for _ in 0..300 {
        html.push_str("<div/>");
    }
    html.push_str("</foreignObject></svg>");
    assert_preflight_depth_limit(convert(html.as_bytes()).unwrap_err());
}

#[test]
fn html_repeated_unclosed_anchors_do_not_trigger_depth_limit() {
    let mut html = String::from("<!doctype html>");
    for index in 0..300 {
        html.push_str(&format!("<a href=\"#{index}\">link"));
    }
    let result = convert(html.as_bytes());
    assert!(result.is_ok(), "HTML5 repairs repeated anchors; preflight must not reject them: {result:?}");
}

#[test]
fn review_followup_repeated_unclosed_anchors_do_not_trigger_depth_limit() {
    let mut html = String::from("<!doctype html>");
    for index in 0..300 {
        html.push_str(&format!("<a href=\"#{index}\">link"));
    }
    let result = convert(html.as_bytes());
    assert!(!matches!(result, Err(ConvertError::ResourceLimit { limit: "max_xml_depth", .. })));
}

#[test]
fn repeated_unclosed_anchors_convert_successfully() {
    let mut html = String::from("<!doctype html>");
    for index in 0..300 {
        html.push_str(&format!("<a href=\"#{index}\">link"));
    }
    convert(html.as_bytes()).expect("HTML5 repairs repeated anchors without excessive nesting");
}

#[test]
fn html_intervening_blocks_between_unclosed_anchors_still_hit_preflight_depth_limit() {
    let mut html = String::from("<!doctype html>");
    for index in 0..300 {
        html.push_str(&format!("<a href=\"#{index}\"><div>"));
    }
    assert_preflight_depth_limit(convert(html.as_bytes()).unwrap_err());
}

#[test]
fn cubic_anchor_preflight_red_intervening_blocks_between_unclosed_anchors_still_hit_preflight_depth_limit() {
    let mut html = String::from("<!doctype html>");
    for index in 0..300 {
        html.push_str(&format!("<a href=\"#{index}\"><div>"));
    }
    assert_preflight_depth_limit(convert(html.as_bytes()).unwrap_err());
}

#[test]
fn html_frameset_html_converts_without_body_error() {
    let html = br#"<!doctype html><html><head><title>frames</title></head><frameset cols="*"><frame src="page.html"></frameset></html>"#;
    assert!(convert(html).unwrap().body.is_none());
}

#[test]
fn html_cubic_followup_frameset_html_converts_without_body_error() {
    let html = br#"<!doctype html><html><head><title>frames</title></head><frameset cols="*"><frame src="page.html"></frameset></html>"#;
    assert!(convert(html).unwrap().body.is_none());
}

#[test]
fn html_relative_image_is_preserved_without_fetching() {
    let html = br#"<!doctype html><p><img src="images/pixel.png"></p>"#;
    assert!(matches!(image(&convert(html).unwrap()), Some(ImageSource::External(url)) if url == "images/pixel.png"));
}

#[test]
fn html_cubic_followup_relative_image_is_preserved_without_fetching() {
    let html = br#"<!doctype html><p><img src="images/pixel.png"></p>"#;
    assert!(matches!(image(&convert(html).unwrap()), Some(ImageSource::External(url)) if url == "images/pixel.png"));
}

#[test]
fn paragraph_div_pairs_do_not_accumulate_paragraph_depth() {
    let mut html = String::from("<!doctype html><body>");
    for _ in 0..200 {
        html.push_str("<p>text<div>");
    }
    html.push_str("</body>");
    assert!(convert(html.as_bytes()).is_ok());
}

#[test]
fn deeply_nested_paragraph_div_pairs_are_rejected_before_dom() {
    let mut html = String::from("<!doctype html><body>");
    for _ in 0..300 {
        html.push_str("<p>text<div>");
    }
    html.push_str("</body>");
    let error = convert(html.as_bytes()).unwrap_err();
    assert!(matches!(error, ConvertError::ResourceLimit { limit: "max_xml_depth", .. }));
}

#[test]
fn foreign_content_breakout_does_not_bypass_depth_limit() {
    let mut html = String::from("<!doctype html><body><svg><p>");
    for _ in 0..300 {
        html.push_str("<path/>");
    }
    assert_preflight_depth_limit(convert(html.as_bytes()).unwrap_err());
}

#[test]
fn headings_with_open_inlines_are_rejected_before_dom_construction() {
    let mut html = String::from("<!doctype html><body>");
    for i in 0..300 {
        html.push_str(&format!("<h{}><span>t", (i % 6) + 1));
    }
    html.push_str("</body>");
    assert_preflight_depth_limit(convert(html.as_bytes()).unwrap_err());
}

#[test]
fn optgroup_start_closes_previous_option_and_group() {
    let mut html = String::from("<!doctype html><body><select>");
    for _ in 0..300 {
        html.push_str("<optgroup><option>a");
    }
    html.push_str("</select></body>");
    assert!(convert(html.as_bytes()).is_ok());
}

#[test]
fn row_group_start_closes_previous_row_group() {
    let mut html = String::from("<!doctype html><body><table>");
    for _ in 0..300 {
        html.push_str("<tbody><tr><td>x");
    }
    html.push_str("</table></body>");
    assert!(convert(html.as_bytes()).is_ok());
}

#[test]
fn foreign_content_title_does_not_swallow_nested_markup() {
    let mut html = String::from("<!doctype html><body><svg><title>");
    for _ in 0..300 {
        html.push_str("<div>");
    }
    assert_preflight_depth_limit(convert(html.as_bytes()).unwrap_err());
}

#[test]
fn html_title_still_swallows_markup_as_raw_text() {
    let html = br#"<!doctype html><html><head><title><div>not markup</div></title></head><body><p>ok</p></body></html>"#;
    assert!(body_text(&convert(html).unwrap()).contains("ok"));
}

#[test]
fn foreign_content_script_does_not_swallow_nested_markup() {
    let mut html = String::from("<!doctype html><body><svg><script>");
    for _ in 0..300 {
        html.push_str("<div>");
    }
    html.push_str("</script></svg></body>");
    assert_preflight_depth_limit(convert(html.as_bytes()).unwrap_err());
}

#[test]
fn html_script_still_swallows_markup_as_script_data() {
    let html = br#"<!doctype html><html><head><script>var x = "<div>";</script></head><body><p>ok</p></body></html>"#;
    assert!(body_text(&convert(html).unwrap()).contains("ok"));
}

#[test]
fn foreign_content_option_tags_do_not_get_html_implied_closes() {
    let mut html = String::from("<!doctype html><body><svg>");
    for _ in 0..300 {
        html.push_str("<option>");
    }
    assert_preflight_depth_limit(convert(html.as_bytes()).unwrap_err());
}

#[test]
fn nested_foreign_roots_fully_exit_on_breakout() {
    let mut html = String::from("<!doctype html><body><svg><math><p>");
    for _ in 0..300 {
        html.push_str("<path/>");
    }
    assert_preflight_depth_limit(convert(html.as_bytes()).unwrap_err());
}

#[test]
fn depth_limit_aligns_with_the_post_parse_walk_at_the_boundary() {
    let mut ok = String::from("<!doctype html><html><body>");
    for _ in 0..255 {
        ok.push_str("<div>");
    }
    ok.push_str("x</body></html>");
    assert!(convert(ok.as_bytes()).is_ok());
    let mut too_deep = String::from("<!doctype html><html><body>");
    for _ in 0..256 {
        too_deep.push_str("<div>");
    }
    too_deep.push_str("x</body></html>");
    assert_preflight_depth_limit(convert(too_deep.as_bytes()).unwrap_err());
}

#[test]
fn void_hr_closes_open_paragraph_in_preflight() {
    let mut html = String::from("<!doctype html><body>");
    for _ in 0..300 {
        html.push_str("<p>x<hr>");
    }
    html.push_str("</body>");
    assert!(convert(html.as_bytes()).is_ok());
}

#[test]
fn foreign_void_elements_are_pushed_and_counted() {
    let mut html = String::from("<!doctype html><body><svg>");
    for _ in 0..300 {
        html.push_str("<input>");
    }
    assert_preflight_depth_limit(convert(html.as_bytes()).unwrap_err());
}

#[test]
fn out_of_scope_end_tag_does_not_pop_real_nesting() {
    let mut html = String::from("<!doctype html><body><div><table><td>");
    for _ in 0..200 {
        html.push_str("<span>");
    }
    html.push_str("</div>");
    for _ in 0..100 {
        html.push_str("<span>");
    }
    assert_preflight_depth_limit(convert(html.as_bytes()).unwrap_err());
}

#[test]
fn duplicate_body_tag_does_not_move_the_depth_baseline() {
    let mut html = String::from("<!doctype html><body>");
    for _ in 0..130 {
        html.push_str("<div>");
    }
    html.push_str("<body>");
    for _ in 0..130 {
        html.push_str("<div>");
    }
    assert_preflight_depth_limit(convert(html.as_bytes()).unwrap_err());
}

#[test]
fn paragraph_end_tag_respects_button_scope() {
    let mut html = String::from("<!doctype html><body><p><button>");
    for _ in 0..150 {
        html.push_str("<div>");
    }
    html.push_str("</p>");
    for _ in 0..150 {
        html.push_str("<div>");
    }
    assert_preflight_depth_limit(convert(html.as_bytes()).unwrap_err());
}

#[test]
fn table_end_tag_respects_template_scope() {
    let mut html = String::from("<!doctype html><body><table><template>");
    for _ in 0..100 {
        html.push_str("<span>");
    }
    html.push_str("</table>");
    for _ in 0..160 {
        html.push_str("<span>");
    }
    assert_preflight_depth_limit(convert(html.as_bytes()).unwrap_err());
}
