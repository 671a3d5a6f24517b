use anydoc::error::ConvertError;
use anydoc::preflight::{
    check_preflight_limits, close_implied_before_start, foreign_root_index,
    html5_self_closing_is_honored, in_foreign_content, preflight_chunk_end, ComplexityModel,
    TokenEvent, TokenizerSwitch,
};

fn start(name: &str) -> TokenEvent {
    TokenEvent::StartTag { name: name.to_string(), self_closing: false }
}

fn self_closing(name: &str) -> TokenEvent {
    TokenEvent::StartTag { name: name.to_string(), self_closing: true }
}

fn end(name: &str) -> TokenEvent {
    TokenEvent::EndTag { name: name.to_string() }
}

fn text() -> TokenEvent {
    TokenEvent::Characters { empty: false }
}

fn replay(tokens: Vec<TokenEvent>) -> Result<(), ConvertError> {
    let mut model = ComplexityModel::new();
    for token in tokens {
        model.process_token(token);
    }
    check_preflight_limits(&model)
}

fn document(body: Vec<TokenEvent>) -> Vec<TokenEvent> {
    let mut tokens = vec![TokenEvent::Doctype, start("html"), start("body")];
    tokens.extend(body);
    tokens.push(TokenEvent::EndOfFile);
    tokens
}

fn repeat(n: usize, f: impl Fn() -> Vec<TokenEvent>) -> Vec<TokenEvent> {
    let mut out = Vec::new();
    for _ in 0..n {
        out.extend(f());
    }
    out
}

fn assert_depth_limit(result: Result<(), ConvertError>) {
    match result {
        Err(ConvertError::ResourceLimit { limit, detail }) => {
            assert_eq!(limit, "max_xml_depth");
            assert_eq!(detail, "HTML source nesting depth exceeds 256 before DOM construction");
        }
        _ => panic!("expected the preflight depth limit"),
    }
}

fn open_list(names: &[&str]) -> Vec<String> {
    names.iter().map(|n| n.to_string()).collect()
}

#[test]
fn depth_boundary_matches_the_tree_walk() {
    let mut ok = repeat(255, || vec![start("div")]);
    ok.push(text());
    assert!(replay(document(ok)).is_ok());
    let mut too_deep = repeat(256, || vec![start("div")]);
    too_deep.push(text());
    assert_depth_limit(replay(document(too_deep)));
}

#[test]
fn model_starts_empty_and_counts_nodes() {
    let mut model = ComplexityModel::new();
    assert_eq!(model.node_count(), 0);
    assert!(model.open_elements().is_empty());
    model.process_token(TokenEvent::Doctype);
    model.process_token(TokenEvent::Characters { empty: true });
    model.process_token(text());
    model.process_token(TokenEvent::Comment);
    model.process_token(TokenEvent::ParseError);
    model.process_token(start("p"));
    assert_eq!(model.node_count(), 4);
    assert_eq!(model.open_elements(), &open_list(&["p"])[..]);
    assert!(check_preflight_limits(&model).is_ok());
}

#[test]
fn repeated_unclosed_anchors_stay_shallow() {
    assert!(replay(document(repeat(300, || vec![start("a"), text()]))).is_ok());
}

#[test]
fn intervening_blocks_between_unclosed_anchors_accumulate_depth() {
    assert_depth_limit(replay(document(repeat(300, || vec![start("a"), start("div")]))));
}

#[test]
fn successive_paragraphs_and_headings_close_each_other() {
    assert!(replay(document(repeat(300, || vec![start("p"), text()]))).is_ok());
    assert!(replay(document(repeat(300, || vec![start("h1"), text(), start("h2"), text()]))).is_ok());
    assert!(replay(document(repeat(300, || vec![start("li"), text()]))).is_ok());
}

#[test]
fn xmp_and_list_items_close_an_open_paragraph() {
    assert!(replay(document(repeat(300, || vec![start("p"), text(), start("xmp"), text(), end("xmp")]))).is_ok());
    let mut body = vec![start("ul")];
    body.extend(repeat(300, || vec![start("li"), start("p"), text()]));
    assert!(replay(document(body)).is_ok());
    let mut body = vec![start("dl")];
    body.extend(repeat(300, || vec![start("dt"), start("p"), text(), start("dd"), start("p"), text()]));
    assert!(replay(document(body)).is_ok());
}

#[test]
fn void_hr_closes_an_open_paragraph() {
    assert!(replay(document(repeat(300, || vec![start("p"), text(), start("hr")]))).is_ok());
}

#[test]
fn self_closing_non_void_tags_still_nest() {
    assert_depth_limit(replay(document(repeat(300, || vec![self_closing("div")]))));
}

#[test]
fn self_closing_svg_elements_do_not_nest() {
    let mut body = vec![start("svg")];
    body.extend(repeat(300, || vec![self_closing("g")]));
    assert!(replay(document(body)).is_ok());
}

#[test]
fn foreign_void_names_are_pushed_and_counted() {
    let mut body = vec![start("svg")];
    body.extend(repeat(300, || vec![start("input")]));
    assert_depth_limit(replay(document(body)));
}

#[test]
fn model_out_of_scope_end_tag_keeps_real_nesting() {
    let mut body = vec![start("div"), start("table"), start("td")];
    body.extend(repeat(200, || vec![start("span")]));
    body.push(end("div"));
    body.extend(repeat(100, || vec![start("span")]));
    assert_depth_limit(replay(document(body)));
}

#[test]
fn duplicate_body_tag_does_not_move_the_baseline() {
    let mut body = repeat(130, || vec![start("div")]);
    body.push(start("body"));
    body.extend(repeat(130, || vec![start("div")]));
    assert_depth_limit(replay(document(body)));
}

#[test]
fn model_paragraph_end_tag_respects_button_scope() {
    let mut body = vec![start("p"), start("button")];
    body.extend(repeat(150, || vec![start("div")]));
    body.push(end("p"));
    body.extend(repeat(150, || vec![start("div")]));
    assert_depth_limit(replay(document(body)));
}

#[test]
fn matching_end_tags_close_their_elements() {
    assert!(replay(document(repeat(300, || vec![start("div"), text(), end("div")]))).is_ok());
}

#[test]
fn raw_text_switches_apply_in_html_content_only() {
    let mut model = ComplexityModel::new();
    assert!(model.process_token(start("title")) == TokenizerSwitch::Rcdata);
    assert!(model.process_token(start("style")) == TokenizerSwitch::Rawtext);
    assert!(model.process_token(start("script")) == TokenizerSwitch::ScriptData);
    assert!(model.process_token(start("plaintext")) == TokenizerSwitch::Plaintext);
    assert!(model.process_token(start("p")) == TokenizerSwitch::Continue);
    let mut model = ComplexityModel::new();
    model.process_token(start("svg"));
    assert!(model.process_token(start("script")) == TokenizerSwitch::Continue);
    assert!(model.process_token(start("title")) == TokenizerSwitch::Continue);
    assert!(model.process_token(start("style")) == TokenizerSwitch::Rawtext);
}

#[test]
fn foreign_content_is_found_below_integration_points() {
    assert!(in_foreign_content(&open_list(&["html", "body", "svg", "g"])));
    assert!(!in_foreign_content(&open_list(&["html", "body", "div"])));
    assert!(!in_foreign_content(&open_list(&["html", "body", "svg", "foreignobject"])));
    assert_eq!(foreign_root_index(&open_list(&["html", "body", "svg", "g"])), Some(2));
    assert_eq!(foreign_root_index(&open_list(&["html", "body"])), None);
}

#[test]
fn self_closing_is_honored_for_foreign_elements_only() {
    assert!(html5_self_closing_is_honored(&open_list(&["html", "body", "svg"]), "circle"));
    assert!(!html5_self_closing_is_honored(&open_list(&["html", "body"]), "div"));
}

#[test]
fn start_tags_close_implied_elements() {
    let mut open = open_list(&["html", "body", "p"]);
    close_implied_before_start(&mut open, "div");
    assert_eq!(open, open_list(&["html", "body"]));
    let mut open = open_list(&["html", "body", "a", "b"]);
    close_implied_before_start(&mut open, "a");
    assert_eq!(open, open_list(&["html", "body", "b"]));
    let mut open = open_list(&["html", "body"]);
    assert!(close_implied_before_start(&mut open, "td"));
}

#[test]
fn chunks_end_on_character_boundaries() {
    let text = "é".repeat(40000);
    let end = preflight_chunk_end(&text, 0);
    assert_eq!(end, 65536);
    let text = format!("a{}", "é".repeat(40000));
    let end = preflight_chunk_end(&text, 0);
    assert_eq!(end, 65535);
    assert!(text.is_char_boundary(end));
    assert_eq!(preflight_chunk_end("short", 2), 5);
}
