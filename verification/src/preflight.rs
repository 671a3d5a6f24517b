//! A pre-parse complexity model of HTML tree construction.
//!
//! Before a document is turned into a DOM, its token stream is replayed
//! against a modeled stack of open element names that follows the HTML
//! tree-construction rules closely enough to bound the node count and the
//! nesting depth that the real parse will produce. The model is a pure
//! state machine: `ComplexityModel::process_token` takes one token and
//! returns the tokenizer state switch that the parser would request.
use vstd::prelude::*;
use crate::error::{ConvertError, is_limit_error};
use crate::limits::{MAX_XML_DEPTH, MAX_XML_NODES};
use crate::tags::{
    foreign_content_html_breakout, foreign_root, generic_scope_end_tag, generic_scope_marker,
    heading_element, integration_point, is_foreign_content_html_breakout, is_foreign_root,
    is_generic_scope_end_tag, is_generic_scope_marker, is_heading_element, is_integration_point,
    is_paragraph_closing_element, is_rawtext_element, is_rcdata_element, is_ruby_end_tag,
    is_special_element, is_table_family_end_tag, is_table_family_start_tag,
    is_void_html_element, paragraph_closing_element, rawtext_element, rcdata_element,
    ruby_end_tag, special_element, table_family_end_tag, table_family_start_tag,
    void_html_element,
};
use crate::text::{str_eq, string_of, chars_of, decimal, message_with_number};
use vstd::utf8::is_char_boundary;
use vstd::string::StringSliceAdditionalSpecFns;

verus! {

broadcast use vstd::seq_lib::group_seq_properties;

/// The names of a stack of open elements.
pub open spec fn names(v: Seq<String>) -> Seq<Seq<char>> {
    v.map_values(|s: String| s@)
}

/// The stack cut at `p`: what `Vec::truncate(p)` leaves.
pub open spec fn cut(s: Seq<Seq<char>>, p: Option<int>) -> Seq<Seq<char>> {
    match p {
        Some(i) => s.subrange(0, i),
        None => s,
    }
}

/// The walks from the innermost open element outwards that the rules perform.
#[derive(Clone, Copy, PartialEq, Eq, Structural)]
pub enum Walk {
    /// The innermost `a`.
    Anchor,
    /// An `li` in list-item scope.
    ListItem,
    /// A `dd` or `dt` in list-item scope.
    DefinitionItem,
    /// A `p` in button scope.
    Paragraph,
    /// The innermost `tr`.
    TableRow,
    /// The innermost `td` or `th`.
    TableCell,
    /// The innermost `tbody`, `thead` or `tfoot`.
    RowGroup,
    /// The target of an end tag, within the end tag's scope.
    EndTag,
    /// The innermost element with exactly the given name.
    Named,
}

/// The elements a walk looks for.
pub open spec fn walk_target(w: Walk, name: Seq<char>, c: Seq<char>) -> bool {
    match w {
        Walk::Anchor => c == "a"@,
        Walk::ListItem => c == "li"@,
        Walk::DefinitionItem => c == "dd"@ || c == "dt"@,
        Walk::Paragraph => c == "p"@,
        Walk::TableRow => c == "tr"@,
        Walk::TableCell => c == "td"@ || c == "th"@,
        Walk::RowGroup => c == "tbody"@ || c == "thead"@ || c == "tfoot"@,
        Walk::EndTag => c == name,
        Walk::Named => c == name,
    }
}

/// Scope markers that stop the search for an end tag's target element.
pub open spec fn end_tag_scope_marker(end_tag: Seq<char>, c: Seq<char>) -> bool {
    if table_family_end_tag(end_tag) {
        c == "html"@ || c == "table"@ || c == "template"@
    } else if end_tag == "li"@ {
        generic_scope_marker(c) || c == "ol"@ || c == "ul"@
    } else if end_tag == "p"@ || end_tag == "dd"@ || end_tag == "dt"@ {
        generic_scope_marker(c) || c == "button"@
    } else if ruby_end_tag(end_tag) {
        generic_scope_marker(c) || c == "ruby"@ || c == "rtc"@
    } else if generic_scope_end_tag(end_tag) {
        generic_scope_marker(c)
    } else {
        special_element(c)
    }
}

/// The elements that end a walk without a match.
pub open spec fn walk_stop(w: Walk, name: Seq<char>, c: Seq<char>) -> bool {
    match w {
        Walk::ListItem | Walk::DefinitionItem => special_element(c) && !(c == "address"@ || c
            == "div"@ || c == "p"@),
        Walk::Paragraph => c == "button"@ || generic_scope_marker(c),
        Walk::EndTag => end_tag_scope_marker(name, c),
        _ => false,
    }
}

/// The position a walk finds, scanning from the innermost element down to
/// position `lo`: the first target met before any stopping element.
pub open spec fn scope_find(s: Seq<Seq<char>>, lo: int, w: Walk, name: Seq<char>) -> Option<int>
    decreases s.len(),
{
    if s.len() == 0 || s.len() <= lo {
        None
    } else if walk_target(w, name, s.last()) {
        Some(s.len() - 1)
    } else if walk_stop(w, name, s.last()) {
        None
    } else {
        scope_find(s.drop_last(), lo, w, name)
    }
}

/// The stack contains an element named `name`.
pub open spec fn has_open(s: Seq<Seq<char>>, name: Seq<char>) -> bool {
    scope_find(s, 0, Walk::Named, name) is Some
}

/// The innermost relevant ancestor puts the parser in foreign content: an
/// svg/math root with no integration point above it.
pub open spec fn in_foreign(s: Seq<Seq<char>>) -> bool
    decreases s.len(),
{
    if s.len() == 0 {
        false
    } else if integration_point(s.last()) {
        false
    } else if foreign_root(s.last()) {
        true
    } else {
        in_foreign(s.drop_last())
    }
}

/// The outermost svg/math root reachable from the innermost element without
/// crossing an integration point.
pub open spec fn foreign_root_of(s: Seq<Seq<char>>) -> Option<int>
    decreases s.len(),
{
    if s.len() == 0 {
        None
    } else if integration_point(s.last()) {
        None
    } else {
        match foreign_root_of(s.drop_last()) {
            Some(j) => Some(j),
            None => if foreign_root(s.last()) {
                Some(s.len() - 1)
            } else {
                None
            },
        }
    }
}

/// A self-closing start tag really closes: svg and math always, other
/// non-breakout names inside foreign content.
pub open spec fn self_closing_honored(s: Seq<Seq<char>>, name: Seq<char>) -> bool {
    name == "svg"@ || name == "math"@ || (in_foreign(s) && !foreign_content_html_breakout(name))
}

/// The `option`/`optgroup` start-tag rule.
pub open spec fn close_options(s: Seq<Seq<char>>, n: Seq<char>) -> Seq<Seq<char>> {
    let s1 = if s.len() > 0 && s.last() == "option"@ {
        s.drop_last()
    } else {
        s
    };
    if n == "optgroup"@ && has_open(s1, "select"@) && s1.len() > 0 && s1.last() == "optgroup"@ {
        s1.drop_last()
    } else {
        s1
    }
}

/// The walk that a table-part start tag clears the stack with.
pub open spec fn table_part_walk(n: Seq<char>) -> Option<Walk> {
    if n == "tr"@ {
        Some(Walk::TableRow)
    } else if n == "td"@ || n == "th"@ {
        Some(Walk::TableCell)
    } else if n == "tbody"@ || n == "thead"@ || n == "tfoot"@ {
        Some(Walk::RowGroup)
    } else {
        None
    }
}

/// The rules every start tag runs first: a new `a` closes the innermost
/// open `a`; a block start closes a current `p`; a heading closes a
/// current heading.
pub open spec fn implied_prefix(s: Seq<Seq<char>>, n: Seq<char>) -> Seq<Seq<char>> {
    let s1 = if n == "a"@ {
        match scope_find(s, 0, Walk::Anchor, n) {
            Some(p) => s.remove(p),
            None => s,
        }
    } else {
        s
    };
    let s2 = if paragraph_closing_element(n) && s1.len() > 0 && s1.last() == "p"@ {
        s1.drop_last()
    } else {
        s1
    };
    if heading_element(n) && s2.len() > 0 && heading_element(s2.last()) {
        s2.drop_last()
    } else {
        s2
    }
}

/// The rules specific to the start tag, after `implied_prefix`.
pub open spec fn implied_rest(s3: Seq<Seq<char>>, n: Seq<char>) -> (Seq<Seq<char>>, bool) {
    if n == "option"@ || n == "optgroup"@ {
        (close_options(s3, n), false)
    } else if n == "rt"@ || n == "rp"@ {
        if s3.len() > 0 && (s3.last() == "rt"@ || s3.last() == "rp"@) {
            (s3.drop_last(), false)
        } else {
            (s3, false)
        }
    } else if table_family_start_tag(n) {
        if !has_open(s3, "table"@) {
            (s3, true)
        } else {
            match table_part_walk(n) {
                Some(w) => (cut(s3, scope_find(s3, 0, w, n)), false),
                None => (s3, false),
            }
        }
    } else if n == "li"@ {
        (cut(s3, scope_find(s3, 0, Walk::ListItem, n)), false)
    } else if n == "dd"@ || n == "dt"@ {
        (cut(s3, scope_find(s3, 0, Walk::DefinitionItem, n)), false)
    } else if n == "p"@ {
        (cut(s3, scope_find(s3, 0, Walk::Paragraph, n)), false)
    } else {
        (s3, false)
    }
}

/// The implied-end-tag rules of a start tag applied to the modeled stack;
/// the flag says that the parser ignores the start tag outright.
pub open spec fn close_implied(s: Seq<Seq<char>>, n: Seq<char>) -> (Seq<Seq<char>>, bool) {
    implied_rest(implied_prefix(s, n), n)
}

/// Depth of the innermost element, counted the way the post-parse walk
/// counts it: the body element is depth 1, and a missing body or html
/// wrapper is implied.
pub open spec fn modeled_depth(s: Seq<Seq<char>>) -> int {
    match scope_find(s, 0, Walk::Named, "body"@) {
        Some(i) => s.len() - i,
        None => match scope_find(s, 0, Walk::Named, "html"@) {
            Some(i) => s.len() - i,
            None => s.len() + 1int,
        },
    }
}

/// A start tag that opens an element: duplicate html/body wrappers and
/// ignored table parts leave the stack alone; the flag says that the new
/// element lies deeper than `MAX_XML_DEPTH`.
pub open spec fn push_open(s: Seq<Seq<char>>, n: Seq<char>) -> (Seq<Seq<char>>, bool) {
    if (n == "html"@ || n == "body"@) && !in_foreign(s) && has_open(s, n) {
        (s, false)
    } else {
        let (s1, ignored) = if !in_foreign(s) {
            close_implied(s, n)
        } else {
            (s, false)
        };
        if ignored {
            (s1, false)
        } else {
            let s2 = s1.push(n);
            (s2, modeled_depth(s2) > MAX_XML_DEPTH)
        }
    }
}

/// An end tag applied to the modeled stack.
pub open spec fn close_open(s: Seq<Seq<char>>, n: Seq<char>) -> Seq<Seq<char>> {
    let root = if in_foreign(s) {
        foreign_root_of(s)
    } else {
        None
    };
    if n == "body"@ || n == "html"@ {
        match root {
            Some(r) => cut(s, scope_find(s, r, Walk::Named, n)),
            None => s,
        }
    } else if n == "option"@ || n == "optgroup"@ {
        match root {
            Some(r) => cut(s, scope_find(s, r, Walk::Named, n)),
            None => {
                let s1 = if n == "optgroup"@ && s.len() > 0 && s.last() == "option"@ {
                    s.drop_last()
                } else {
                    s
                };
                if s1.len() > 0 && s1.last() == n {
                    s1.drop_last()
                } else {
                    s1
                }
            },
        }
    } else {
        cut(s, scope_find(s, 0, Walk::EndTag, n))
    }
}

/// An HTML breakout tag leaves foreign content through the outermost root.
pub open spec fn breakout(s: Seq<Seq<char>>) -> Seq<Seq<char>> {
    cut(s, foreign_root_of(s))
}

/// One token of the tokenizer, reduced to what the model reads.
pub enum TokenEvent {
    StartTag { name: String, self_closing: bool },
    EndTag { name: String },
    /// A run of characters; `empty` tells whether it holds none.
    Characters { empty: bool },
    Comment,
    Doctype,
    NullCharacter,
    EndOfFile,
    ParseError,
}

/// The tokenizer state switch requested after a token.
#[derive(Clone, Copy, PartialEq, Eq, Structural)]
pub enum TokenizerSwitch {
    Continue,
    Rcdata,
    Rawtext,
    ScriptData,
    Plaintext,
}

/// The abstract state of the model.
pub struct ComplexityView {
    pub node_count: nat,
    pub open: Seq<Seq<char>>,
    pub node_limit_exceeded: bool,
    pub depth_limit_exceeded: bool,
}

/// The model's state after one more node.
pub open spec fn bumped(v: ComplexityView) -> ComplexityView {
    let count = if v.node_count + 1 > usize::MAX {
        usize::MAX as nat
    } else {
        v.node_count + 1
    };
    ComplexityView {
        node_count: count,
        node_limit_exceeded: v.node_limit_exceeded || count > MAX_XML_NODES,
        ..v
    }
}

/// The tokenizer switch requested by a start tag.
pub open spec fn start_tag_switch(name: Seq<char>, foreign: bool) -> TokenizerSwitch {
    if foreign {
        TokenizerSwitch::Continue
    } else if rcdata_element(name) {
        TokenizerSwitch::Rcdata
    } else if rawtext_element(name) {
        TokenizerSwitch::Rawtext
    } else if name == "script"@ {
        TokenizerSwitch::ScriptData
    } else if name == "plaintext"@ {
        TokenizerSwitch::Plaintext
    } else {
        TokenizerSwitch::Continue
    }
}

/// The model's response to a start tag: the new state and the switch.
pub open spec fn start_tag_step(v: ComplexityView, name: Seq<char>, self_closing: bool) -> (
    ComplexityView,
    TokenizerSwitch,
) {
    let v1 = bumped(v);
    let s1 = if foreign_content_html_breakout(name) {
        breakout(v1.open)
    } else {
        v1.open
    };
    let honor = self_closing && self_closing_honored(s1, name);
    let foreign = in_foreign(s1);
    let v2 = if void_html_element(name) && !foreign {
        ComplexityView { open: close_implied(s1, name).0, ..v1 }
    } else if !honor {
        let (s2, too_deep) = push_open(s1, name);
        ComplexityView {
            open: s2,
            depth_limit_exceeded: v1.depth_limit_exceeded || too_deep,
            ..v1
        }
    } else {
        ComplexityView { open: s1, ..v1 }
    };
    (v2, start_tag_switch(name, foreign))
}

/// The model's response to one token.
pub open spec fn token_step(v: ComplexityView, t: TokenEvent) -> (ComplexityView, TokenizerSwitch) {
    match t {
        TokenEvent::StartTag { name, self_closing } => start_tag_step(v, name@, self_closing),
        TokenEvent::EndTag { name } => (
            ComplexityView { open: close_open(v.open, name@), ..v },
            TokenizerSwitch::Continue,
        ),
        TokenEvent::Characters { empty } => (
            if empty {
                v
            } else {
                bumped(v)
            },
            TokenizerSwitch::Continue,
        ),
        TokenEvent::Comment | TokenEvent::Doctype | TokenEvent::NullCharacter => (
            bumped(v),
            TokenizerSwitch::Continue,
        ),
        TokenEvent::EndOfFile | TokenEvent::ParseError => (v, TokenizerSwitch::Continue),
    }
}

/// The complexity model: a node counter, the modeled stack of open element
/// names, and the two limit flags.
pub struct ComplexityModel {
    node_count: usize,
    open_elements: Vec<String>,
    node_limit_exceeded: bool,
    depth_limit_exceeded: bool,
}

impl View for ComplexityModel {
    type V = ComplexityView;

    closed spec fn view(&self) -> ComplexityView {
        ComplexityView {
            node_count: self.node_count as nat,
            open: names(self.open_elements@),
            node_limit_exceeded: self.node_limit_exceeded,
            depth_limit_exceeded: self.depth_limit_exceeded,
        }
    }
}

/// Whether `check_preflight_limits` accepts the state, and which limit it reports.
pub open spec fn preflight_verdict(v: ComplexityView) -> Option<Seq<char>> {
    if v.node_limit_exceeded {
        Some("max_xml_nodes"@)
    } else if v.depth_limit_exceeded {
        Some("max_xml_depth"@)
    } else {
        None
    }
}

/// The position a walk finds in the open-element stack.
pub fn scope_find_exec(open: &Vec<String>, lo: usize, w: Walk, name: &str) -> (r: Option<usize>)
    ensures
        match r {
            Some(i) => scope_find(names(open@), lo as int, w, name@) == Some(i as int),
            None => scope_find(names(open@), lo as int, w, name@) is None,
        },
{
    let ghost s = names(open@);
    let mut i: usize = open.len();
    assert(s.subrange(0, i as int) =~= s);
    while i > lo
        invariant
            s == names(open@),
            i <= open@.len(),
            scope_find(s, lo as int, w, name@) == scope_find(s.subrange(0, i as int), lo as int, w, name@),
        decreases i,
    {
        let c = open[i - 1].as_str();
        let ghost t = s.subrange(0, i as int);
        assert(t.last() == c@);
        assert(t.drop_last() =~= s.subrange(0, i - 1));
        if walk_target_exec(w, name, c) {
            return Some(i - 1);
        }
        if walk_stop_exec(w, name, c) {
            return None;
        }
        i = i - 1;
    }
    None
}

/// `walk_target`, executable.
pub fn walk_target_exec(w: Walk, name: &str, c: &str) -> (r: bool)
    ensures
        r == walk_target(w, name@, c@),
{
    match w {
        Walk::Anchor => str_eq(c, "a"),
        Walk::ListItem => str_eq(c, "li"),
        Walk::DefinitionItem => str_eq(c, "dd") || str_eq(c, "dt"),
        Walk::Paragraph => str_eq(c, "p"),
        Walk::TableRow => str_eq(c, "tr"),
        Walk::TableCell => str_eq(c, "td") || str_eq(c, "th"),
        Walk::RowGroup => str_eq(c, "tbody") || str_eq(c, "thead") || str_eq(c, "tfoot"),
        Walk::EndTag => str_eq(c, name),
        Walk::Named => str_eq(c, name),
    }
}

/// Scope markers that stop the search for an end tag's target element.
pub fn is_end_tag_scope_marker(end_tag: &str, candidate: &str) -> (r: bool)
    ensures
        r == end_tag_scope_marker(end_tag@, candidate@),
{
    if is_table_family_end_tag(end_tag) {
        str_eq(candidate, "html") || str_eq(candidate, "table") || str_eq(candidate, "template")
    } else if str_eq(end_tag, "li") {
        is_generic_scope_marker(candidate) || str_eq(candidate, "ol") || str_eq(candidate, "ul")
    } else if str_eq(end_tag, "p") || str_eq(end_tag, "dd") || str_eq(end_tag, "dt") {
        is_generic_scope_marker(candidate) || str_eq(candidate, "button")
    } else if is_ruby_end_tag(end_tag) {
        is_generic_scope_marker(candidate) || str_eq(candidate, "ruby") || str_eq(candidate, "rtc")
    } else if is_generic_scope_end_tag(end_tag) {
        is_generic_scope_marker(candidate)
    } else {
        is_special_element(candidate)
    }
}

/// `walk_stop`, executable.
pub fn walk_stop_exec(w: Walk, name: &str, c: &str) -> (r: bool)
    ensures
        r == walk_stop(w, name@, c@),
{
    match w {
        Walk::ListItem | Walk::DefinitionItem => is_special_element(c) && !(str_eq(c, "address")
            || str_eq(c, "div") || str_eq(c, "p")),
        Walk::Paragraph => str_eq(c, "button") || is_generic_scope_marker(c),
        Walk::EndTag => is_end_tag_scope_marker(name, c),
        _ => false,
    }
}


/// The innermost open element is named `lit`.
fn last_is(open: &Vec<String>, lit: &str) -> (r: bool)
    ensures
        r == (open@.len() > 0 && names(open@).last() == lit@),
{
    if open.len() == 0 {
        false
    } else {
        str_eq(open[open.len() - 1].as_str(), lit)
    }
}

/// Pops the innermost open element.
fn pop_last(open: &mut Vec<String>)
    requires
        old(open)@.len() > 0,
    ensures
        names(final(open)@) == names(old(open)@).drop_last(),
{
    let _ = open.pop();
    assert(names(open@) =~= names(old(open)@).drop_last());
}

/// Truncates the stack at the position a walk found.
fn cut_at(open: &mut Vec<String>, p: Option<usize>)
    requires
        p matches Some(i) ==> i <= old(open)@.len(),
    ensures
        names(final(open)@) == cut(
            names(old(open)@),
            match p {
                Some(i) => Some(i as int),
                None => None,
            },
        ),
{
    if let Some(i) = p {
        open.truncate(i);
        assert(names(open@) =~= names(old(open)@).subrange(0, i as int));
    }
}

/// Lemma: a found position lies inside the stack and above `lo`.
proof fn lemma_scope_find_bounds(s: Seq<Seq<char>>, lo: int, w: Walk, name: Seq<char>)
    ensures
        scope_find(s, lo, w, name) matches Some(i) ==> lo <= i < s.len(),
    decreases s.len(),
{
    if s.len() > 0 && s.len() > lo && !walk_target(w, name, s.last()) && !walk_stop(w, name, s.last()) {
        lemma_scope_find_bounds(s.drop_last(), lo, w, name);
    }
}

/// Lemma: a foreign root lies inside the stack.
proof fn lemma_foreign_root_bounds(s: Seq<Seq<char>>)
    ensures
        foreign_root_of(s) matches Some(i) ==> 0 <= i < s.len(),
    decreases s.len(),
{
    if s.len() > 0 {
        lemma_foreign_root_bounds(s.drop_last());
    }
}

/// True when the innermost relevant ancestor puts the parser in foreign
/// content: an svg/math root with no integration point above it.
pub fn in_foreign_content(open: &Vec<String>) -> (r: bool)
    ensures
        r == in_foreign(names(open@)),
{
    let ghost s = names(open@);
    let mut i: usize = open.len();
    assert(s.subrange(0, i as int) =~= s);
    while i > 0
        invariant
            s == names(open@),
            i <= open@.len(),
            in_foreign(s) == in_foreign(s.subrange(0, i as int)),
        decreases i,
    {
        let c = open[i - 1].as_str();
        let ghost t = s.subrange(0, i as int);
        assert(t.last() == c@);
        assert(t.drop_last() =~= s.subrange(0, i - 1));
        if is_integration_point(c) {
            return false;
        }
        if is_foreign_root(c) {
            return true;
        }
        i = i - 1;
    }
    false
}

/// Index of the outermost svg/math root reachable from the innermost open
/// element without crossing an integration point.
pub fn foreign_root_index(open: &Vec<String>) -> (r: Option<usize>)
    ensures
        match r {
            Some(i) => foreign_root_of(names(open@)) == Some(i as int),
            None => foreign_root_of(names(open@)) is None,
        },
{
    let ghost s = names(open@);
    let mut outermost: Option<usize> = None;
    let mut i: usize = open.len();
    assert(s.subrange(0, i as int) =~= s);
    while i > 0
        invariant
            s == names(open@),
            i <= open@.len(),
            // Scanning from the end: the answer for the whole stack is the
            // answer for the unscanned prefix, or the outermost root met so far.
            forall|k: int| #![trigger s[k]] i <= k < s.len() ==> !integration_point(s[k]),
            match outermost {
                Some(j) => i <= j < s.len() && foreign_root(s[j as int]) && (forall|k: int|
                    #![trigger s[k]] i <= k < j ==> !foreign_root(s[k])),
                None => forall|k: int| #![trigger s[k]] i <= k < s.len() ==> !foreign_root(s[k]),
            },
            foreign_root_of(s) == match foreign_root_of(s.subrange(0, i as int)) {
                Some(j) => Some(j),
                None => match outermost {
                    Some(j) => Some(j as int),
                    None => None,
                },
            },
        decreases i,
    {
        let c = open[i - 1].as_str();
        let ghost t = s.subrange(0, i as int);
        assert(t.last() == c@);
        assert(t.drop_last() =~= s.subrange(0, i - 1));
        if is_integration_point(c) {
            return outermost;
        }
        if is_foreign_root(c) {
            outermost = Some(i - 1);
        }
        i = i - 1;
    }
    outermost
}

/// A self-closing start tag is honored.
pub fn html5_self_closing_is_honored(open: &Vec<String>, name: &str) -> (r: bool)
    ensures
        r == self_closing_honored(names(open@), name@),
{
    if str_eq(name, "svg") || str_eq(name, "math") {
        return true;
    }
    in_foreign_content(open) && !is_foreign_content_html_breakout(name)
}

/// The rules every start tag runs first (`implied_prefix`).
fn close_implied_prefix(open: &mut Vec<String>, name: &str)
    ensures
        names(final(open)@) == implied_prefix(names(old(open)@), name@),
{
    let ghost s = names(open@);
    if str_eq(name, "a") {
        let p = scope_find_exec(open, 0, Walk::Anchor, name);
        proof { lemma_scope_find_bounds(s, 0, Walk::Anchor, name@); }
        if let Some(i) = p {
            let _ = open.remove(i);
            assert(names(open@) =~= s.remove(i as int));
        }
    }
    if is_paragraph_closing_element(name) && last_is(open, "p") {
        pop_last(open);
    }
    if is_heading_element(name) && open.len() > 0 && is_heading_element(
        open[open.len() - 1].as_str(),
    ) {
        pop_last(open);
    }
}

/// The `option`/`optgroup` start-tag rule.
fn close_implied_options(open: &mut Vec<String>, name: &str)
    ensures
        names(final(open)@) == close_options(names(old(open)@), name@),
{
    if last_is(open, "option") {
        pop_last(open);
    }
    if str_eq(name, "optgroup") && scope_find_exec(open, 0, Walk::Named, "select").is_some()
        && last_is(open, "optgroup") {
        pop_last(open);
    }
}

/// The table-part start-tag rule; true when the tag is ignored.
fn close_implied_table_part(open: &mut Vec<String>, name: &str) -> (ignored: bool)
    requires
        table_family_start_tag(name@),
        !(name@ == "option"@ || name@ == "optgroup"@ || name@ == "rt"@ || name@ == "rp"@),
    ensures
        (names(final(open)@), ignored) == implied_rest(names(old(open)@), name@),
{
    let ghost s3 = names(open@);
    if scope_find_exec(open, 0, Walk::Named, "table").is_none() {
        return true;
    }
    let walk = if str_eq(name, "tr") {
        Some(Walk::TableRow)
    } else if str_eq(name, "td") || str_eq(name, "th") {
        Some(Walk::TableCell)
    } else if str_eq(name, "tbody") || str_eq(name, "thead") || str_eq(name, "tfoot") {
        Some(Walk::RowGroup)
    } else {
        None
    };
    if let Some(w) = walk {
        let p = scope_find_exec(open, 0, w, name);
        proof { lemma_scope_find_bounds(s3, 0, w, name@); }
        cut_at(open, p);
    }
    false
}

/// Apply the implied-end-tag rules of a start tag to the modeled stack.
/// Returns true when the parser would ignore the token outright
/// (table-part start tags outside a table), in which case the caller must
/// not push the element either.
pub fn close_implied_before_start(open: &mut Vec<String>, name: &str) -> (ignored: bool)
    ensures
        (names(final(open)@), ignored) == close_implied(names(old(open)@), name@),
{
    close_implied_prefix(open, name);
    let ghost s3 = names(open@);
    if str_eq(name, "option") || str_eq(name, "optgroup") {
        close_implied_options(open, name);
        return false;
    }
    if str_eq(name, "rt") || str_eq(name, "rp") {
        if last_is(open, "rt") || last_is(open, "rp") {
            pop_last(open);
        }
        return false;
    }
    if is_table_family_start_tag(name) {
        return close_implied_table_part(open, name);
    }
    if str_eq(name, "li") || str_eq(name, "dd") || str_eq(name, "dt") {
        let w = if str_eq(name, "li") {
            Walk::ListItem
        } else {
            Walk::DefinitionItem
        };
        let p = scope_find_exec(open, 0, w, name);
        proof { lemma_scope_find_bounds(s3, 0, w, name@); }
        cut_at(open, p);
        return false;
    }
    if str_eq(name, "p") {
        let p = scope_find_exec(open, 0, Walk::Paragraph, name);
        proof { lemma_scope_find_bounds(s3, 0, Walk::Paragraph, name@); }
        cut_at(open, p);
    }
    false
}

/// Pop through the outermost svg/math root when an HTML breakout tag
/// arrives, mirroring the parser's foreign-content exit.
fn truncate_at_foreign_root(open: &mut Vec<String>)
    ensures
        names(final(open)@) == breakout(names(old(open)@)),
{
    let p = foreign_root_index(open);
    proof { lemma_foreign_root_bounds(names(open@)); }
    cut_at(open, p);
}

/// Push the element a start tag opens and report whether it lies deeper
/// than `MAX_XML_DEPTH`.
fn push_open_element(open: &mut Vec<String>, name: &str) -> (too_deep: bool)
    ensures
        (names(final(open)@), too_deep) == push_open(names(old(open)@), name@),
{
    let ghost s = names(open@);
    if (str_eq(name, "html") || str_eq(name, "body")) && !in_foreign_content(open)
        && scope_find_exec(open, 0, Walk::Named, name).is_some() {
        return false;
    }
    if !in_foreign_content(open) && close_implied_before_start(open, name) {
        return false;
    }
    let ghost s1 = names(open@);
    let chars = chars_of(name);
    open.push(string_of(chars.as_slice()));
    let ghost s2 = names(open@);
    assert(s2 =~= s1.push(name@));
    let wrapper = match scope_find_exec(open, 0, Walk::Named, "body") {
        Some(i) => Some(i),
        None => scope_find_exec(open, 0, Walk::Named, "html"),
    };
    proof {
        lemma_scope_find_bounds(s2, 0, Walk::Named, "body"@);
        lemma_scope_find_bounds(s2, 0, Walk::Named, "html"@);
    }
    let depth: usize = match wrapper {
        Some(i) => open.len() - i,
        None => if open.len() < usize::MAX {
            open.len() + 1
        } else {
            usize::MAX
        },
    };
    depth > MAX_XML_DEPTH
}

/// Apply an end tag to the modeled stack.
fn close_open_element(open: &mut Vec<String>, name: &str)
    ensures
        names(final(open)@) == close_open(names(old(open)@), name@),
{
    let ghost s = names(open@);
    proof { lemma_foreign_root_bounds(s); }
    let foreign_root = if in_foreign_content(open) {
        foreign_root_index(open)
    } else {
        None
    };
    if str_eq(name, "body") || str_eq(name, "html") {
        if let Some(root) = foreign_root {
            let p = scope_find_exec(open, root, Walk::Named, name);
            proof { lemma_scope_find_bounds(s, root as int, Walk::Named, name@); }
            cut_at(open, p);
        }
        return ;
    }
    if str_eq(name, "option") || str_eq(name, "optgroup") {
        if let Some(root) = foreign_root {
            let p = scope_find_exec(open, root, Walk::Named, name);
            proof { lemma_scope_find_bounds(s, root as int, Walk::Named, name@); }
            cut_at(open, p);
            return ;
        }
        if str_eq(name, "optgroup") && last_is(open, "option") {
            pop_last(open);
        }
        if last_is(open, name) {
            pop_last(open);
        }
        return ;
    }
    let p = scope_find_exec(open, 0, Walk::EndTag, name);
    proof { lemma_scope_find_bounds(s, 0, Walk::EndTag, name@); }
    cut_at(open, p);
}


impl ComplexityModel {
    /// The initial state: no node seen, nothing open, no limit exceeded.
    pub fn new() -> (m: ComplexityModel)
        ensures
            m@ == (ComplexityView {
                node_count: 0,
                open: Seq::empty(),
                node_limit_exceeded: false,
                depth_limit_exceeded: false,
            }),
    {
        let m = ComplexityModel {
            node_count: 0,
            open_elements: Vec::new(),
            node_limit_exceeded: false,
            depth_limit_exceeded: false,
        };
        assert(names(m.open_elements@) =~= Seq::<Seq<char>>::empty());
        m
    }

    /// The modeled stack of open element names, innermost last.
    pub fn open_elements(&self) -> (r: &Vec<String>)
        ensures
            names(r@) == self@.open,
    {
        &self.open_elements
    }

    /// The number of nodes counted so far.
    pub fn node_count(&self) -> (r: usize)
        ensures
            r == self@.node_count,
    {
        self.node_count
    }

    /// Count one more node.
    pub fn bump_node(&mut self)
        ensures
            final(self)@ == bumped(old(self)@),
    {
        let count = self.node_count.saturating_add(1);
        self.node_count = count;
        if count > MAX_XML_NODES {
            self.node_limit_exceeded = true;
        }
    }

    /// Run the implied-end-tag rules of a void start tag (HTML content only).
    pub fn close_implied(&mut self, name: &str)
        ensures
            final(self)@ == (ComplexityView {
                open: if in_foreign(old(self)@.open) {
                    old(self)@.open
                } else {
                    close_implied(old(self)@.open, name@).0
                },
                ..old(self)@
            }),
    {
        if !in_foreign_content(&self.open_elements) {
            let _ignore = close_implied_before_start(&mut self.open_elements, name);
        }
    }

    /// Open the element of a start tag, recording a depth overflow.
    pub fn push_element(&mut self, name: &str)
        ensures
            final(self)@ == (ComplexityView {
                open: push_open(old(self)@.open, name@).0,
                depth_limit_exceeded: old(self)@.depth_limit_exceeded || push_open(
                    old(self)@.open,
                    name@,
                ).1,
                ..old(self)@
            }),
    {
        if push_open_element(&mut self.open_elements, name) {
            self.depth_limit_exceeded = true;
        }
    }

    /// Apply an end tag.
    pub fn close_element(&mut self, name: &str)
        ensures
            final(self)@ == (ComplexityView { open: close_open(old(self)@.open, name@), ..old(self)@ }),
    {
        close_open_element(&mut self.open_elements, name);
    }

    /// Pop through the outermost svg/math root when an HTML breakout tag
    /// arrives. An integration point above the root leaves the stack alone.
    pub fn pop_foreign_breakout(&mut self)
        ensures
            final(self)@ == (ComplexityView { open: breakout(old(self)@.open), ..old(self)@ }),
    {
        truncate_at_foreign_root(&mut self.open_elements);
    }

    /// Replay one token; returns the tokenizer state the parser switches to.
    pub fn process_token(&mut self, token: TokenEvent) -> (switch: TokenizerSwitch)
        ensures
            (final(self)@, switch) == token_step(old(self)@, token),
    {
        match token {
            TokenEvent::StartTag { name, self_closing } => self.start_tag(name.as_str(), self_closing),
            TokenEvent::EndTag { name } => {
                self.close_element(name.as_str());
                TokenizerSwitch::Continue
            },
            TokenEvent::Characters { empty } => {
                if !empty {
                    self.bump_node();
                }
                TokenizerSwitch::Continue
            },
            TokenEvent::Comment | TokenEvent::Doctype | TokenEvent::NullCharacter => {
                self.bump_node();
                TokenizerSwitch::Continue
            },
            TokenEvent::EndOfFile | TokenEvent::ParseError => TokenizerSwitch::Continue,
        }
    }

    /// Replay a start tag.
    fn start_tag(&mut self, name: &str, self_closing: bool) -> (switch: TokenizerSwitch)
        ensures
            (final(self)@, switch) == start_tag_step(old(self)@, name@, self_closing),
    {
        self.bump_node();
        if is_foreign_content_html_breakout(name) {
            self.pop_foreign_breakout();
        }
        let honor_self_closing = self_closing && html5_self_closing_is_honored(
            &self.open_elements,
            name,
        );
        let foreign = in_foreign_content(&self.open_elements);
        if is_void_html_element(name) && !foreign {
            self.close_implied(name);
        } else if !honor_self_closing {
            self.push_element(name);
        }
        if foreign {
            TokenizerSwitch::Continue
        } else if is_rcdata_element(name) {
            TokenizerSwitch::Rcdata
        } else if is_rawtext_element(name) {
            TokenizerSwitch::Rawtext
        } else if str_eq(name, "script") {
            TokenizerSwitch::ScriptData
        } else if str_eq(name, "plaintext") {
            TokenizerSwitch::Plaintext
        } else {
            TokenizerSwitch::Continue
        }
    }
}


/// The detail of a token-stream node-limit error.
pub open spec fn node_limit_detail() -> Seq<char> {
    "HTML token stream has more than "@ + decimal(MAX_XML_NODES as nat) + " nodes"@
}

/// The detail of a pre-parse depth-limit error.
pub open spec fn depth_limit_detail() -> Seq<char> {
    "HTML source nesting depth exceeds "@ + decimal(MAX_XML_DEPTH as nat)
        + " before DOM construction"@
}

/// Report the first limit that the replayed tokens exceeded, the node
/// limit before the depth limit.
pub fn check_preflight_limits(model: &ComplexityModel) -> (r: Result<(), ConvertError>)
    ensures
        match preflight_verdict(model@) {
            None => r is Ok,
            Some(limit) => r matches Err(e) && is_limit_error(e, limit) && (e matches ConvertError::ResourceLimit { detail, .. } && detail@ == if model@.node_limit_exceeded {
                node_limit_detail()
            } else {
                depth_limit_detail()
            }),
        },
{
    if model.node_limit_exceeded {
        return Err(
            ConvertError::ResourceLimit {
                limit: "max_xml_nodes",
                detail: message_with_number(
                    "HTML token stream has more than ",
                    MAX_XML_NODES as u128,
                    " nodes",
                ),
            },
        );
    }
    if model.depth_limit_exceeded {
        return Err(
            ConvertError::ResourceLimit {
                limit: "max_xml_depth",
                detail: message_with_number(
                    "HTML source nesting depth exceeds ",
                    MAX_XML_DEPTH as u128,
                    " before DOM construction",
                ),
            },
        );
    }
    Ok(())
}

/// The size of the pieces in which text is fed to the tokenizer.
pub const PREFLIGHT_CHUNK_BYTES: usize = 65536;

/// The end of the next piece of `text` fed to the tokenizer from `offset`:
/// the last character boundary at most `PREFLIGHT_CHUNK_BYTES` further on.
pub fn preflight_chunk_end(text: &str, offset: usize) -> (end: usize)
    requires
        offset < text.spec_bytes().len(),
    ensures
        offset <= end <= text.spec_bytes().len(),
        end <= offset + PREFLIGHT_CHUNK_BYTES,
        end > offset ==> is_char_boundary(text.spec_bytes(), end as int),
        forall|k: int|
            end < k <= offset + PREFLIGHT_CHUNK_BYTES && k <= text.spec_bytes().len()
                ==> !is_char_boundary(text.spec_bytes(), k),
{
    let len = text.as_bytes().len();
    let mut end = if len - offset > PREFLIGHT_CHUNK_BYTES {
        offset + PREFLIGHT_CHUNK_BYTES
    } else {
        len
    };
    let top = end;
    while end > offset && !text.is_char_boundary(end)
        invariant
            offset <= end <= top,
            top <= len,
            len == text.spec_bytes().len(),
            top <= offset + PREFLIGHT_CHUNK_BYTES,
            top == offset + PREFLIGHT_CHUNK_BYTES || top == len,
            forall|k: int| end < k <= top ==> !is_char_boundary(text.spec_bytes(), k),
        decreases end,
    {
        end = end - 1;
    }
    end
}


/// `a` is a prefix of `b`.
pub open spec fn is_prefix_of(a: Seq<Seq<char>>, b: Seq<Seq<char>>) -> bool {
    a.len() <= b.len() && a == b.subrange(0, a.len() as int)
}

proof fn lemma_cut_scope_prefix(s: Seq<Seq<char>>, lo: int, w: Walk, name: Seq<char>)
    requires
        0 <= lo,
    ensures
        is_prefix_of(cut(s, scope_find(s, lo, w, name)), s),
{
    lemma_scope_find_bounds(s, lo, w, name);
    assert(s.subrange(0, s.len() as int) =~= s);
    if let Some(i) = scope_find(s, lo, w, name) {
        assert(s.subrange(0, i).subrange(0, i) =~= s.subrange(0, i));
    }
}

/// An end tag only ever closes elements: the modeled stack after it is a
/// prefix of the stack before it.
pub proof fn law_end_tag_only_closes(s: Seq<Seq<char>>, name: Seq<char>)
    ensures
        is_prefix_of(close_open(s, name), s),
{
    lemma_foreign_root_bounds(s);
    assert(s.subrange(0, s.len() as int) =~= s);
    if s.len() > 0 {
        assert(s.drop_last() =~= s.subrange(0, s.len() - 1));
        let s1 = s.drop_last();
        if s1.len() > 0 {
            assert(s1.drop_last() =~= s.subrange(0, s.len() - 2));
        }
    }
    let root = if in_foreign(s) {
        foreign_root_of(s)
    } else {
        None
    };
    lemma_cut_scope_prefix(s, 0, Walk::EndTag, name);
    if let Some(r) = root {
        lemma_cut_scope_prefix(s, r, Walk::Named, name);
    }
}

/// Leaving foreign content only closes elements.
pub proof fn law_breakout_only_closes(s: Seq<Seq<char>>)
    ensures
        is_prefix_of(breakout(s), s),
{
    lemma_foreign_root_bounds(s);
    assert(s.subrange(0, s.len() as int) =~= s);
    if let Some(i) = foreign_root_of(s) {
        assert(s.subrange(0, i).subrange(0, i) =~= s.subrange(0, i));
    }
}

/// The implied-end-tag rules never open anything: the stack does not grow.
pub proof fn law_implied_rules_never_grow(s: Seq<Seq<char>>, name: Seq<char>)
    ensures
        close_implied(s, name).0.len() <= s.len(),
{
    lemma_scope_find_bounds(s, 0, Walk::Anchor, name);
    let s3 = implied_prefix(s, name);
    lemma_scope_find_bounds(s3, 0, Walk::ListItem, name);
    lemma_scope_find_bounds(s3, 0, Walk::DefinitionItem, name);
    lemma_scope_find_bounds(s3, 0, Walk::Paragraph, name);
    lemma_scope_find_bounds(s3, 0, Walk::TableRow, name);
    lemma_scope_find_bounds(s3, 0, Walk::TableCell, name);
    lemma_scope_find_bounds(s3, 0, Walk::RowGroup, name);
}

/// Lemma: a prefix of a prefix is a prefix.
proof fn lemma_prefix_trans(a: Seq<Seq<char>>, b: Seq<Seq<char>>, c: Seq<Seq<char>>)
    requires
        is_prefix_of(a, b),
        is_prefix_of(b, c),
    ensures
        is_prefix_of(a, c),
{
    assert(c.subrange(0, b.len() as int).subrange(0, a.len() as int) =~= c.subrange(0, a.len() as int));
}

/// Lemma: dropping the last element leaves a prefix.
proof fn lemma_drop_last_prefix(s: Seq<Seq<char>>)
    requires
        s.len() > 0,
    ensures
        is_prefix_of(s.drop_last(), s),
{
    assert(s.drop_last() =~= s.subrange(0, s.len() - 1));
}

/// Lemma: a sequence is a prefix of itself.
proof fn lemma_prefix_refl(s: Seq<Seq<char>>)
    ensures
        is_prefix_of(s, s),
{
    assert(s.subrange(0, s.len() as int) =~= s);
}

/// Law: for every start tag but `a`, the implied-end-tag rules only close
/// elements: the modeled stack after them is a prefix of the stack before
/// them. (An `a` start tag instead removes the innermost open `a` in its
/// scope, wherever it stands.)
pub proof fn law_implied_rules_only_close(s: Seq<Seq<char>>, name: Seq<char>)
    requires
        name != "a"@,
    ensures
        is_prefix_of(close_implied(s, name).0, s),
{
    lemma_prefix_refl(s);
    let s1 = s;
    let s2 = if paragraph_closing_element(name) && s1.len() > 0 && s1.last() == "p"@ {
        lemma_drop_last_prefix(s1);
        s1.drop_last()
    } else {
        s1
    };
    lemma_prefix_refl(s2);
    let s3 = implied_prefix(s, name);
    if heading_element(name) && s2.len() > 0 && heading_element(s2.last()) {
        lemma_drop_last_prefix(s2);
    }
    assert(is_prefix_of(s2, s));
    assert(is_prefix_of(s3, s2));
    lemma_prefix_trans(s3, s2, s);
    let r = implied_rest(s3, name).0;
    lemma_prefix_refl(s3);
    if name == "option"@ || name == "optgroup"@ {
        let o1 = if s3.len() > 0 && s3.last() == "option"@ {
            lemma_drop_last_prefix(s3);
            s3.drop_last()
        } else {
            s3
        };
        lemma_prefix_refl(o1);
        if name == "optgroup"@ && has_open(o1, "select"@) && o1.len() > 0 && o1.last() == "optgroup"@ {
            lemma_drop_last_prefix(o1);
        }
        lemma_prefix_trans(r, o1, s3);
    } else if name == "rt"@ || name == "rp"@ {
        if s3.len() > 0 && (s3.last() == "rt"@ || s3.last() == "rp"@) {
            lemma_drop_last_prefix(s3);
        }
    } else if table_family_start_tag(name) {
        if has_open(s3, "table"@) {
            match table_part_walk(name) {
                Some(w) => lemma_cut_scope_prefix(s3, 0, w, name),
                None => {},
            }
        }
    } else if name == "li"@ {
        lemma_cut_scope_prefix(s3, 0, Walk::ListItem, name);
    } else if name == "dd"@ || name == "dt"@ {
        lemma_cut_scope_prefix(s3, 0, Walk::DefinitionItem, name);
    } else if name == "p"@ {
        lemma_cut_scope_prefix(s3, 0, Walk::Paragraph, name);
    }
    lemma_prefix_trans(r, s3, s);
}

/// A start tag opens at most one element.
pub proof fn law_start_tag_opens_at_most_one(s: Seq<Seq<char>>, name: Seq<char>)
    ensures
        push_open(s, name).0.len() <= s.len() + 1,
{
    law_implied_rules_never_grow(s, name);
}

/// Replaying a token never clears a limit flag and never lowers the node
/// count: once the preflight has seen too much, it stays rejected.
pub proof fn law_limits_stay_exceeded(v: ComplexityView, t: TokenEvent)
    requires
        v.node_count <= usize::MAX,
    ensures
        token_step(v, t).0.node_count >= v.node_count,
        v.node_limit_exceeded ==> token_step(v, t).0.node_limit_exceeded,
        v.depth_limit_exceeded ==> token_step(v, t).0.depth_limit_exceeded,
{
}

/// Lemma: `option` is neither an `a`, a wrapper, a block that closes a
/// paragraph nor a heading, and differs from `optgroup`.
proof fn lemma_option_name()
    ensures
        "option"@ != "a"@,
        "option"@ != "html"@,
        "option"@ != "body"@,
        "option"@ != "optgroup"@,
        !paragraph_closing_element("option"@),
        !heading_element("option"@),
{
    reveal_strlit("option");
    assert("option"@.len() == 6 && "option"@[0] == 'o' && "option"@[1] == 'p');
    reveal_strlit("a");
    assert("a"@.len() == 1);
    reveal_strlit("html");
    assert("html"@.len() == 4);
    reveal_strlit("body");
    assert("body"@.len() == 4);
    reveal_strlit("optgroup");
    assert("optgroup"@.len() == 8);
    reveal_strlit("address");
    assert("address"@.len() == 7);
    reveal_strlit("article");
    assert("article"@.len() == 7);
    reveal_strlit("aside");
    assert("aside"@.len() == 5);
    reveal_strlit("blockquote");
    assert("blockquote"@.len() == 10);
    reveal_strlit("center");
    assert("center"@[0] == 'c');
    reveal_strlit("dd");
    assert("dd"@.len() == 2);
    reveal_strlit("details");
    assert("details"@.len() == 7);
    reveal_strlit("dialog");
    assert("dialog"@[0] == 'd');
    reveal_strlit("dir");
    assert("dir"@.len() == 3);
    reveal_strlit("div");
    assert("div"@.len() == 3);
    reveal_strlit("dl");
    assert("dl"@.len() == 2);
    reveal_strlit("dt");
    assert("dt"@.len() == 2);
    reveal_strlit("fieldset");
    assert("fieldset"@.len() == 8);
    reveal_strlit("figcaption");
    assert("figcaption"@.len() == 10);
    reveal_strlit("figure");
    assert("figure"@[0] == 'f');
    reveal_strlit("footer");
    assert("footer"@[0] == 'f');
    reveal_strlit("form");
    assert("form"@.len() == 4);
    reveal_strlit("h1");
    assert("h1"@.len() == 2);
    reveal_strlit("h2");
    assert("h2"@.len() == 2);
    reveal_strlit("h3");
    assert("h3"@.len() == 2);
    reveal_strlit("h4");
    assert("h4"@.len() == 2);
    reveal_strlit("h5");
    assert("h5"@.len() == 2);
    reveal_strlit("h6");
    assert("h6"@.len() == 2);
    reveal_strlit("header");
    assert("header"@[0] == 'h');
    reveal_strlit("hgroup");
    assert("hgroup"@[0] == 'h');
    reveal_strlit("hr");
    assert("hr"@.len() == 2);
    reveal_strlit("li");
    assert("li"@.len() == 2);
    reveal_strlit("listing");
    assert("listing"@.len() == 7);
    reveal_strlit("main");
    assert("main"@.len() == 4);
    reveal_strlit("menu");
    assert("menu"@.len() == 4);
    reveal_strlit("nav");
    assert("nav"@.len() == 3);
    reveal_strlit("ol");
    assert("ol"@.len() == 2);
    reveal_strlit("p");
    assert("p"@.len() == 1);
    reveal_strlit("plaintext");
    assert("plaintext"@.len() == 9);
    reveal_strlit("pre");
    assert("pre"@.len() == 3);
    reveal_strlit("search");
    assert("search"@[0] == 's');
    reveal_strlit("section");
    assert("section"@.len() == 7);
    reveal_strlit("summary");
    assert("summary"@.len() == 7);
    reveal_strlit("table");
    assert("table"@.len() == 5);
    reveal_strlit("ul");
    assert("ul"@.len() == 2);
    reveal_strlit("xmp");
    assert("xmp"@.len() == 3);
}

/// Law: an `option` start tag closes a current `option`. With the old
/// option on top of the modeled stack, the implied-end-tag rules drop it
/// and ignore nothing; outside foreign content the new option then takes
/// its place, so a run of `<option>` start tags whose end tags are omitted
/// never nests: the stack keeps its length.
pub proof fn law_option_closes_current_option(s: Seq<Seq<char>>)
    requires
        s.len() > 0,
        s.last() == "option"@,
    ensures
        close_implied(s, "option"@) == (s.drop_last(), false),
        !in_foreign(s) ==> push_open(s, "option"@).0 == s.drop_last().push("option"@),
        !in_foreign(s) ==> push_open(s, "option"@).0.len() == s.len(),
{
    lemma_option_name();
    assert(implied_prefix(s, "option"@) == s);
}

} // verus!
