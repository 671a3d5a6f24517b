use anydoc::preflight::is_end_tag_scope_marker;
use anydoc::tags::{
    is_foreign_content_html_breakout, is_generic_scope_end_tag, is_heading_element,
    is_paragraph_closing_element, is_special_element, is_void_html_element,
};

#[test]
fn void_elements_are_the_html_void_set() {
    for name in ["area", "base", "br", "col", "embed", "frame", "hr", "img", "input", "link", "meta", "param", "source", "track", "wbr"] {
        assert!(is_void_html_element(name), "{name}");
    }
    assert!(!is_void_html_element("div"));
    assert!(!is_void_html_element("IMG"));
}

#[test]
fn headings_are_h1_to_h6() {
    assert!(is_heading_element("h1"));
    assert!(is_heading_element("h6"));
    assert!(!is_heading_element("h7"));
    assert!(!is_heading_element("header"));
}

#[test]
fn block_starts_close_an_open_paragraph() {
    assert!(is_paragraph_closing_element("div"));
    assert!(is_paragraph_closing_element("hr"));
    assert!(is_paragraph_closing_element("table"));
    assert!(is_paragraph_closing_element("p"));
    assert!(is_paragraph_closing_element("search"));
    assert!(is_paragraph_closing_element("xmp"));
    assert!(is_paragraph_closing_element("li"));
    assert!(is_paragraph_closing_element("dd"));
    assert!(is_paragraph_closing_element("dt"));
    assert!(!is_paragraph_closing_element("span"));
    assert!(!is_paragraph_closing_element("a"));
    assert!(!is_paragraph_closing_element("td"));
    assert!(!is_paragraph_closing_element("img"));
}

#[test]
fn special_elements_and_breakouts() {
    assert!(is_special_element("div"));
    assert!(is_special_element("td"));
    assert!(!is_special_element("span"));
    assert!(is_foreign_content_html_breakout("div"));
    assert!(is_foreign_content_html_breakout("p"));
    assert!(!is_foreign_content_html_breakout("circle"));
    assert!(is_generic_scope_end_tag("div"));
    assert!(!is_generic_scope_end_tag("span"));
}

#[test]
fn end_tag_scope_markers_depend_on_the_end_tag() {
    assert!(is_end_tag_scope_marker("td", "table"));
    assert!(!is_end_tag_scope_marker("td", "div"));
    assert!(is_end_tag_scope_marker("li", "ul"));
    assert!(is_end_tag_scope_marker("p", "button"));
    assert!(!is_end_tag_scope_marker("p", "ul"));
    assert!(is_end_tag_scope_marker("rt", "ruby"));
    assert!(is_end_tag_scope_marker("div", "td"));
    assert!(!is_end_tag_scope_marker("div", "span"));
    assert!(is_end_tag_scope_marker("em", "div"));
    assert!(!is_end_tag_scope_marker("em", "span"));
}
