//! Tag-name categories of the HTML tree-construction rules that the
//! preflight models. Each category is a spec predicate over the name
//! and an executable test proved equal to it.
use vstd::prelude::*;
use crate::text::str_eq;

verus! {

/// One of the default scope markers (with the MathML text and SVG HTML integration points) that stop scope searches for end tags.
pub open spec fn generic_scope_marker(c: Seq<char>) -> bool {
    ||| c == "applet"@
    ||| c == "caption"@
    ||| c == "html"@
    ||| c == "table"@
    ||| c == "td"@
    ||| c == "th"@
    ||| c == "marquee"@
    ||| c == "object"@
    ||| c == "select"@
    ||| c == "template"@
    ||| c == "mi"@
    ||| c == "mo"@
    ||| c == "mn"@
    ||| c == "ms"@
    ||| c == "mtext"@
    ||| c == "foreignobject"@
    ||| c == "desc"@
    ||| c == "title"@
}

/// One of the default scope markers (with the MathML text and SVG HTML integration points) that stop scope searches for end tags.
pub fn is_generic_scope_marker(c: &str) -> (r: bool)
    ensures
        r == generic_scope_marker(c@),
{
    str_eq(c, "applet")
        || str_eq(c, "caption")
        || str_eq(c, "html")
        || str_eq(c, "table")
        || str_eq(c, "td")
        || str_eq(c, "th")
        || str_eq(c, "marquee")
        || str_eq(c, "object")
        || str_eq(c, "select")
        || str_eq(c, "template")
        || str_eq(c, "mi")
        || str_eq(c, "mo")
        || str_eq(c, "mn")
        || str_eq(c, "ms")
        || str_eq(c, "mtext")
        || str_eq(c, "foreignobject")
        || str_eq(c, "desc")
        || str_eq(c, "title")
}

/// End tags whose rule is "pop to the matching element when it is in generic scope, otherwise ignore": the div family plus button, form, the headings, and template.
pub open spec fn generic_scope_end_tag(c: Seq<char>) -> bool {
    ||| c == "address"@
    ||| c == "article"@
    ||| c == "aside"@
    ||| c == "blockquote"@
    ||| c == "button"@
    ||| c == "center"@
    ||| c == "details"@
    ||| c == "dialog"@
    ||| c == "dir"@
    ||| c == "div"@
    ||| c == "dl"@
    ||| c == "fieldset"@
    ||| c == "figcaption"@
    ||| c == "figure"@
    ||| c == "footer"@
    ||| c == "form"@
    ||| c == "h1"@
    ||| c == "h2"@
    ||| c == "h3"@
    ||| c == "h4"@
    ||| c == "h5"@
    ||| c == "h6"@
    ||| c == "header"@
    ||| c == "hgroup"@
    ||| c == "listing"@
    ||| c == "main"@
    ||| c == "menu"@
    ||| c == "nav"@
    ||| c == "ol"@
    ||| c == "pre"@
    ||| c == "section"@
    ||| c == "summary"@
    ||| c == "template"@
    ||| c == "ul"@
}

/// End tags whose rule is "pop to the matching element when it is in generic scope, otherwise ignore": the div family plus button, form, the headings, and template.
pub fn is_generic_scope_end_tag(c: &str) -> (r: bool)
    ensures
        r == generic_scope_end_tag(c@),
{
    str_eq(c, "address")
        || str_eq(c, "article")
        || str_eq(c, "aside")
        || str_eq(c, "blockquote")
        || str_eq(c, "button")
        || str_eq(c, "center")
        || str_eq(c, "details")
        || str_eq(c, "dialog")
        || str_eq(c, "dir")
        || str_eq(c, "div")
        || str_eq(c, "dl")
        || str_eq(c, "fieldset")
        || str_eq(c, "figcaption")
        || str_eq(c, "figure")
        || str_eq(c, "footer")
        || str_eq(c, "form")
        || str_eq(c, "h1")
        || str_eq(c, "h2")
        || str_eq(c, "h3")
        || str_eq(c, "h4")
        || str_eq(c, "h5")
        || str_eq(c, "h6")
        || str_eq(c, "header")
        || str_eq(c, "hgroup")
        || str_eq(c, "listing")
        || str_eq(c, "main")
        || str_eq(c, "menu")
        || str_eq(c, "nav")
        || str_eq(c, "ol")
        || str_eq(c, "pre")
        || str_eq(c, "section")
        || str_eq(c, "summary")
        || str_eq(c, "template")
        || str_eq(c, "ul")
}

/// The HTML special element category: names that stop the any-other-end-tag walk and, minus address/div/p, the list-item implied-close walk.
pub open spec fn special_element(c: Seq<char>) -> bool {
    ||| c == "address"@
    ||| c == "applet"@
    ||| c == "area"@
    ||| c == "article"@
    ||| c == "aside"@
    ||| c == "base"@
    ||| c == "basefont"@
    ||| c == "bgsound"@
    ||| c == "blockquote"@
    ||| c == "body"@
    ||| c == "br"@
    ||| c == "button"@
    ||| c == "caption"@
    ||| c == "center"@
    ||| c == "col"@
    ||| c == "colgroup"@
    ||| c == "dd"@
    ||| c == "details"@
    ||| c == "dir"@
    ||| c == "div"@
    ||| c == "dl"@
    ||| c == "dt"@
    ||| c == "embed"@
    ||| c == "fieldset"@
    ||| c == "figcaption"@
    ||| c == "figure"@
    ||| c == "footer"@
    ||| c == "form"@
    ||| c == "frame"@
    ||| c == "frameset"@
    ||| c == "h1"@
    ||| c == "h2"@
    ||| c == "h3"@
    ||| c == "h4"@
    ||| c == "h5"@
    ||| c == "h6"@
    ||| c == "head"@
    ||| c == "header"@
    ||| c == "hgroup"@
    ||| c == "hr"@
    ||| c == "html"@
    ||| c == "iframe"@
    ||| c == "img"@
    ||| c == "input"@
    ||| c == "isindex"@
    ||| c == "li"@
    ||| c == "link"@
    ||| c == "listing"@
    ||| c == "main"@
    ||| c == "marquee"@
    ||| c == "menu"@
    ||| c == "meta"@
    ||| c == "nav"@
    ||| c == "noembed"@
    ||| c == "noframes"@
    ||| c == "noscript"@
    ||| c == "object"@
    ||| c == "ol"@
    ||| c == "p"@
    ||| c == "param"@
    ||| c == "plaintext"@
    ||| c == "pre"@
    ||| c == "script"@
    ||| c == "section"@
    ||| c == "select"@
    ||| c == "source"@
    ||| c == "style"@
    ||| c == "summary"@
    ||| c == "table"@
    ||| c == "tbody"@
    ||| c == "td"@
    ||| c == "template"@
    ||| c == "textarea"@
    ||| c == "tfoot"@
    ||| c == "th"@
    ||| c == "thead"@
    ||| c == "title"@
    ||| c == "tr"@
    ||| c == "track"@
    ||| c == "ul"@
    ||| c == "wbr"@
    ||| c == "xmp"@
}

/// The HTML special element category: names that stop the any-other-end-tag walk and, minus address/div/p, the list-item implied-close walk.
pub fn is_special_element(c: &str) -> (r: bool)
    ensures
        r == special_element(c@),
{
    str_eq(c, "address")
        || str_eq(c, "applet")
        || str_eq(c, "area")
        || str_eq(c, "article")
        || str_eq(c, "aside")
        || str_eq(c, "base")
        || str_eq(c, "basefont")
        || str_eq(c, "bgsound")
        || str_eq(c, "blockquote")
        || str_eq(c, "body")
        || str_eq(c, "br")
        || str_eq(c, "button")
        || str_eq(c, "caption")
        || str_eq(c, "center")
        || str_eq(c, "col")
        || str_eq(c, "colgroup")
        || str_eq(c, "dd")
        || str_eq(c, "details")
        || str_eq(c, "dir")
        || str_eq(c, "div")
        || str_eq(c, "dl")
        || str_eq(c, "dt")
        || str_eq(c, "embed")
        || str_eq(c, "fieldset")
        || str_eq(c, "figcaption")
        || str_eq(c, "figure")
        || str_eq(c, "footer")
        || str_eq(c, "form")
        || str_eq(c, "frame")
        || str_eq(c, "frameset")
        || str_eq(c, "h1")
        || str_eq(c, "h2")
        || str_eq(c, "h3")
        || str_eq(c, "h4")
        || str_eq(c, "h5")
        || str_eq(c, "h6")
        || str_eq(c, "head")
        || str_eq(c, "header")
        || str_eq(c, "hgroup")
        || str_eq(c, "hr")
        || str_eq(c, "html")
        || str_eq(c, "iframe")
        || str_eq(c, "img")
        || str_eq(c, "input")
        || str_eq(c, "isindex")
        || str_eq(c, "li")
        || str_eq(c, "link")
        || str_eq(c, "listing")
        || str_eq(c, "main")
        || str_eq(c, "marquee")
        || str_eq(c, "menu")
        || str_eq(c, "meta")
        || str_eq(c, "nav")
        || str_eq(c, "noembed")
        || str_eq(c, "noframes")
        || str_eq(c, "noscript")
        || str_eq(c, "object")
        || str_eq(c, "ol")
        || str_eq(c, "p")
        || str_eq(c, "param")
        || str_eq(c, "plaintext")
        || str_eq(c, "pre")
        || str_eq(c, "script")
        || str_eq(c, "section")
        || str_eq(c, "select")
        || str_eq(c, "source")
        || str_eq(c, "style")
        || str_eq(c, "summary")
        || str_eq(c, "table")
        || str_eq(c, "tbody")
        || str_eq(c, "td")
        || str_eq(c, "template")
        || str_eq(c, "textarea")
        || str_eq(c, "tfoot")
        || str_eq(c, "th")
        || str_eq(c, "thead")
        || str_eq(c, "title")
        || str_eq(c, "tr")
        || str_eq(c, "track")
        || str_eq(c, "ul")
        || str_eq(c, "wbr")
        || str_eq(c, "xmp")
}

/// The heading elements h1 to h6.
pub open spec fn heading_element(c: Seq<char>) -> bool {
    ||| c == "h1"@
    ||| c == "h2"@
    ||| c == "h3"@
    ||| c == "h4"@
    ||| c == "h5"@
    ||| c == "h6"@
}

/// The heading elements h1 to h6.
pub fn is_heading_element(c: &str) -> (r: bool)
    ensures
        r == heading_element(c@),
{
    str_eq(c, "h1")
        || str_eq(c, "h2")
        || str_eq(c, "h3")
        || str_eq(c, "h4")
        || str_eq(c, "h5")
        || str_eq(c, "h6")
}

/// Start tags for which the tree builder closes a `p` element in button scope (in body, standards mode): the block-level elements, the headings, `hr`, `li`, `dd`, `dt` and `xmp`.
pub open spec fn paragraph_closing_element(c: Seq<char>) -> bool {
    ||| c == "address"@
    ||| c == "article"@
    ||| c == "aside"@
    ||| c == "blockquote"@
    ||| c == "center"@
    ||| c == "dd"@
    ||| c == "details"@
    ||| c == "dialog"@
    ||| c == "dir"@
    ||| c == "div"@
    ||| c == "dl"@
    ||| c == "dt"@
    ||| c == "fieldset"@
    ||| c == "figcaption"@
    ||| c == "figure"@
    ||| c == "footer"@
    ||| c == "form"@
    ||| c == "h1"@
    ||| c == "h2"@
    ||| c == "h3"@
    ||| c == "h4"@
    ||| c == "h5"@
    ||| c == "h6"@
    ||| c == "header"@
    ||| c == "hgroup"@
    ||| c == "hr"@
    ||| c == "li"@
    ||| c == "listing"@
    ||| c == "main"@
    ||| c == "menu"@
    ||| c == "nav"@
    ||| c == "ol"@
    ||| c == "p"@
    ||| c == "plaintext"@
    ||| c == "pre"@
    ||| c == "search"@
    ||| c == "section"@
    ||| c == "summary"@
    ||| c == "table"@
    ||| c == "ul"@
    ||| c == "xmp"@
}

/// Start tags for which the tree builder closes a `p` element in button scope (in body, standards mode): the block-level elements, the headings, `hr`, `li`, `dd`, `dt` and `xmp`.
pub fn is_paragraph_closing_element(c: &str) -> (r: bool)
    ensures
        r == paragraph_closing_element(c@),
{
    str_eq(c, "address")
        || str_eq(c, "article")
        || str_eq(c, "aside")
        || str_eq(c, "blockquote")
        || str_eq(c, "center")
        || str_eq(c, "dd")
        || str_eq(c, "details")
        || str_eq(c, "dialog")
        || str_eq(c, "dir")
        || str_eq(c, "div")
        || str_eq(c, "dl")
        || str_eq(c, "dt")
        || str_eq(c, "fieldset")
        || str_eq(c, "figcaption")
        || str_eq(c, "figure")
        || str_eq(c, "footer")
        || str_eq(c, "form")
        || str_eq(c, "h1")
        || str_eq(c, "h2")
        || str_eq(c, "h3")
        || str_eq(c, "h4")
        || str_eq(c, "h5")
        || str_eq(c, "h6")
        || str_eq(c, "header")
        || str_eq(c, "hgroup")
        || str_eq(c, "hr")
        || str_eq(c, "li")
        || str_eq(c, "listing")
        || str_eq(c, "main")
        || str_eq(c, "menu")
        || str_eq(c, "nav")
        || str_eq(c, "ol")
        || str_eq(c, "p")
        || str_eq(c, "plaintext")
        || str_eq(c, "pre")
        || str_eq(c, "search")
        || str_eq(c, "section")
        || str_eq(c, "summary")
        || str_eq(c, "table")
        || str_eq(c, "ul")
        || str_eq(c, "xmp")
}

/// Start tags that make the parser leave SVG/MathML foreign content.
pub open spec fn foreign_content_html_breakout(c: Seq<char>) -> bool {
    ||| c == "b"@
    ||| c == "big"@
    ||| c == "blockquote"@
    ||| c == "body"@
    ||| c == "br"@
    ||| c == "center"@
    ||| c == "code"@
    ||| c == "dd"@
    ||| c == "div"@
    ||| c == "dl"@
    ||| c == "dt"@
    ||| c == "em"@
    ||| c == "embed"@
    ||| c == "font"@
    ||| c == "h1"@
    ||| c == "h2"@
    ||| c == "h3"@
    ||| c == "h4"@
    ||| c == "h5"@
    ||| c == "h6"@
    ||| c == "head"@
    ||| c == "hr"@
    ||| c == "i"@
    ||| c == "img"@
    ||| c == "li"@
    ||| c == "listing"@
    ||| c == "menu"@
    ||| c == "meta"@
    ||| c == "nobr"@
    ||| c == "ol"@
    ||| c == "p"@
    ||| c == "pre"@
    ||| c == "ruby"@
    ||| c == "s"@
    ||| c == "small"@
    ||| c == "span"@
    ||| c == "strike"@
    ||| c == "strong"@
    ||| c == "sub"@
    ||| c == "sup"@
    ||| c == "table"@
    ||| c == "tt"@
    ||| c == "u"@
    ||| c == "ul"@
    ||| c == "var"@
}

/// Start tags that make the parser leave SVG/MathML foreign content.
pub fn is_foreign_content_html_breakout(c: &str) -> (r: bool)
    ensures
        r == foreign_content_html_breakout(c@),
{
    str_eq(c, "b")
        || str_eq(c, "big")
        || str_eq(c, "blockquote")
        || str_eq(c, "body")
        || str_eq(c, "br")
        || str_eq(c, "center")
        || str_eq(c, "code")
        || str_eq(c, "dd")
        || str_eq(c, "div")
        || str_eq(c, "dl")
        || str_eq(c, "dt")
        || str_eq(c, "em")
        || str_eq(c, "embed")
        || str_eq(c, "font")
        || str_eq(c, "h1")
        || str_eq(c, "h2")
        || str_eq(c, "h3")
        || str_eq(c, "h4")
        || str_eq(c, "h5")
        || str_eq(c, "h6")
        || str_eq(c, "head")
        || str_eq(c, "hr")
        || str_eq(c, "i")
        || str_eq(c, "img")
        || str_eq(c, "li")
        || str_eq(c, "listing")
        || str_eq(c, "menu")
        || str_eq(c, "meta")
        || str_eq(c, "nobr")
        || str_eq(c, "ol")
        || str_eq(c, "p")
        || str_eq(c, "pre")
        || str_eq(c, "ruby")
        || str_eq(c, "s")
        || str_eq(c, "small")
        || str_eq(c, "span")
        || str_eq(c, "strike")
        || str_eq(c, "strong")
        || str_eq(c, "sub")
        || str_eq(c, "sup")
        || str_eq(c, "table")
        || str_eq(c, "tt")
        || str_eq(c, "u")
        || str_eq(c, "ul")
        || str_eq(c, "var")
}

/// Elements that never stay on the open-element stack in HTML content: the void elements plus frame.
pub open spec fn void_html_element(c: Seq<char>) -> bool {
    ||| c == "area"@
    ||| c == "base"@
    ||| c == "br"@
    ||| c == "col"@
    ||| c == "embed"@
    ||| c == "frame"@
    ||| c == "hr"@
    ||| c == "img"@
    ||| c == "input"@
    ||| c == "link"@
    ||| c == "meta"@
    ||| c == "param"@
    ||| c == "source"@
    ||| c == "track"@
    ||| c == "wbr"@
}

/// Elements that never stay on the open-element stack in HTML content: the void elements plus frame.
pub fn is_void_html_element(c: &str) -> (r: bool)
    ensures
        r == void_html_element(c@),
{
    str_eq(c, "area")
        || str_eq(c, "base")
        || str_eq(c, "br")
        || str_eq(c, "col")
        || str_eq(c, "embed")
        || str_eq(c, "frame")
        || str_eq(c, "hr")
        || str_eq(c, "img")
        || str_eq(c, "input")
        || str_eq(c, "link")
        || str_eq(c, "meta")
        || str_eq(c, "param")
        || str_eq(c, "source")
        || str_eq(c, "track")
        || str_eq(c, "wbr")
}

/// Elements that restore HTML semantics inside SVG or MathML content.
pub open spec fn integration_point(c: Seq<char>) -> bool {
    ||| c == "foreignobject"@
    ||| c == "desc"@
    ||| c == "title"@
    ||| c == "mi"@
    ||| c == "mo"@
    ||| c == "mn"@
    ||| c == "ms"@
    ||| c == "mtext"@
    ||| c == "annotation-xml"@
}

/// Elements that restore HTML semantics inside SVG or MathML content.
pub fn is_integration_point(c: &str) -> (r: bool)
    ensures
        r == integration_point(c@),
{
    str_eq(c, "foreignobject")
        || str_eq(c, "desc")
        || str_eq(c, "title")
        || str_eq(c, "mi")
        || str_eq(c, "mo")
        || str_eq(c, "mn")
        || str_eq(c, "ms")
        || str_eq(c, "mtext")
        || str_eq(c, "annotation-xml")
}

/// The roots of foreign content.
pub open spec fn foreign_root(c: Seq<char>) -> bool {
    ||| c == "svg"@
    ||| c == "math"@
}

/// The roots of foreign content.
pub fn is_foreign_root(c: &str) -> (r: bool)
    ensures
        r == foreign_root(c@),
{
    str_eq(c, "svg")
        || str_eq(c, "math")
}

/// End tags resolved in table scope.
pub open spec fn table_family_end_tag(c: Seq<char>) -> bool {
    ||| c == "table"@
    ||| c == "thead"@
    ||| c == "tbody"@
    ||| c == "tfoot"@
    ||| c == "tr"@
    ||| c == "td"@
    ||| c == "th"@
    ||| c == "caption"@
    ||| c == "colgroup"@
}

/// End tags resolved in table scope.
pub fn is_table_family_end_tag(c: &str) -> (r: bool)
    ensures
        r == table_family_end_tag(c@),
{
    str_eq(c, "table")
        || str_eq(c, "thead")
        || str_eq(c, "tbody")
        || str_eq(c, "tfoot")
        || str_eq(c, "tr")
        || str_eq(c, "td")
        || str_eq(c, "th")
        || str_eq(c, "caption")
        || str_eq(c, "colgroup")
}

/// Table-part start tags that are ignored outside a table.
pub open spec fn table_family_start_tag(c: Seq<char>) -> bool {
    ||| c == "caption"@
    ||| c == "col"@
    ||| c == "colgroup"@
    ||| c == "tbody"@
    ||| c == "td"@
    ||| c == "tfoot"@
    ||| c == "th"@
    ||| c == "thead"@
    ||| c == "tr"@
}

/// Table-part start tags that are ignored outside a table.
pub fn is_table_family_start_tag(c: &str) -> (r: bool)
    ensures
        r == table_family_start_tag(c@),
{
    str_eq(c, "caption")
        || str_eq(c, "col")
        || str_eq(c, "colgroup")
        || str_eq(c, "tbody")
        || str_eq(c, "td")
        || str_eq(c, "tfoot")
        || str_eq(c, "th")
        || str_eq(c, "thead")
        || str_eq(c, "tr")
}

/// End tags resolved in ruby scope.
pub open spec fn ruby_end_tag(c: Seq<char>) -> bool {
    ||| c == "rt"@
    ||| c == "rp"@
    ||| c == "rb"@
    ||| c == "rtc"@
}

/// End tags resolved in ruby scope.
pub fn is_ruby_end_tag(c: &str) -> (r: bool)
    ensures
        r == ruby_end_tag(c@),
{
    str_eq(c, "rt")
        || str_eq(c, "rp")
        || str_eq(c, "rb")
        || str_eq(c, "rtc")
}

/// Start tags that switch the tokenizer to RCDATA in HTML content.
pub open spec fn rcdata_element(c: Seq<char>) -> bool {
    ||| c == "title"@
    ||| c == "textarea"@
}

/// Start tags that switch the tokenizer to RCDATA in HTML content.
pub fn is_rcdata_element(c: &str) -> (r: bool)
    ensures
        r == rcdata_element(c@),
{
    str_eq(c, "title")
        || str_eq(c, "textarea")
}

/// Start tags that switch the tokenizer to RAWTEXT in HTML content.
pub open spec fn rawtext_element(c: Seq<char>) -> bool {
    ||| c == "style"@
    ||| c == "xmp"@
    ||| c == "iframe"@
    ||| c == "noembed"@
    ||| c == "noframes"@
}

/// Start tags that switch the tokenizer to RAWTEXT in HTML content.
pub fn is_rawtext_element(c: &str) -> (r: bool)
    ensures
        r == rawtext_element(c@),
{
    str_eq(c, "style")
        || str_eq(c, "xmp")
        || str_eq(c, "iframe")
        || str_eq(c, "noembed")
        || str_eq(c, "noframes")
}

} // verus!
