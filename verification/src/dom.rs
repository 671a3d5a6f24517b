//! The parsed HTML document as plain values: its nodes in document order
//! (preorder), each with its depth below the document root. The parse
//! itself is `scraper`'s (html5ever tree construction); everything the
//! library reads from the tree is computed here over that node list.
use vstd::prelude::*;
use crate::text::{str_eq, cat};

verus! {

broadcast use vstd::seq_lib::group_seq_properties;

/// An attribute of a parsed element (the parser gives a prefix only to
/// attributes in a namespace, so the namespace decides plain lookups).
pub struct DomAttr {
    pub ns: String,
    pub local: String,
    pub value: String,
}

/// What a node of the parsed document is.
pub enum DomKind {
    Element { ns: String, local: String, attrs: Vec<DomAttr> },
    Text(String),
    /// A comment, doctype or processing instruction.
    Other,
    /// The document root or a template's contents fragment.
    Container,
}

/// A node of the parsed document and its depth below the document root.
pub struct DomNode {
    pub depth: usize,
    pub kind: DomKind,
}

/// An attribute, as plain values.
pub struct DomAttrView {
    pub ns: Seq<char>,
    pub local: Seq<char>,
    pub value: Seq<char>,
}

/// A node kind, as plain values.
pub enum DomKindView {
    Element { ns: Seq<char>, local: Seq<char>, attrs: Seq<DomAttrView> },
    Text(Seq<char>),
    Other,
    Container,
}

/// A node, as plain values.
pub struct DomNodeView {
    pub depth: nat,
    pub kind: DomKindView,
}

/// The view of an attribute.
pub open spec fn attr_view(a: DomAttr) -> DomAttrView {
    DomAttrView {
        ns: a.ns@,
        local: a.local@,
        value: a.value@,
    }
}

/// The view of a node.
pub open spec fn node_view(n: DomNode) -> DomNodeView {
    DomNodeView {
        depth: n.depth as nat,
        kind: match n.kind {
            DomKind::Element { ns, local, attrs } => DomKindView::Element {
                ns: ns@,
                local: local@,
                attrs: attrs@.map_values(|a: DomAttr| attr_view(a)),
            },
            DomKind::Text(t) => DomKindView::Text(t@),
            DomKind::Other => DomKindView::Other,
            DomKind::Container => DomKindView::Container,
        },
    }
}

/// The view of a node list.
pub open spec fn dom_view(nodes: Seq<DomNode>) -> Seq<DomNodeView> {
    nodes.map_values(|n: DomNode| node_view(n))
}

/// The nodes of the document that `scraper::Html::parse_document` builds
/// from the text, in document order with their depths.
pub uninterp spec fn html_document(text: Seq<char>) -> Seq<DomNodeView>;

/// `scraper::Html::parse_document` (html5ever tree construction), the
/// resulting tree listed in document order with each node's depth (its
/// number of ancestors). The document and fragment roots both become
/// containers; doctypes, comments and processing instructions all become
/// `Other`, which is all the library reads of them.
#[verifier::external_body]
pub(crate) fn parse_html_document(text: &str) -> (r: Vec<DomNode>)
    ensures
        dom_view(r@) == html_document(text@),
{
    scraper::Html::parse_document(text).tree.root().descendants().map(|node| DomNode {
        depth: node.ancestors().count(),
        kind: match node.value() {
            scraper::Node::Element(e) => DomKind::Element {
                ns: e.name.ns.to_string(),
                local: e.name.local.to_string(),
                attrs: e.attrs.iter().map(|(n, v)| DomAttr { ns: n.ns.to_string(), local: n.local.to_string(), value: v.to_string() }).collect(),
            },
            scraper::Node::Text(t) => DomKind::Text(t.to_string()),
            scraper::Node::Document | scraper::Node::Fragment => DomKind::Container,
            _ => DomKind::Other,
        },
    }).collect()
}

/// The first position from `j` on whose depth is at most `d`.
pub open spec fn scan_end(v: Seq<DomNodeView>, d: nat, j: int) -> int
    decreases v.len() - j,
{
    if j < 0 || j >= v.len() {
        v.len() as int
    } else if v[j].depth <= d {
        j
    } else {
        scan_end(v, d, j + 1)
    }
}

/// Lemma: the scan stops between `j` and the end, past deeper nodes only.
pub proof fn lemma_scan_end(v: Seq<DomNodeView>, d: nat, j: int)
    requires
        0 <= j <= v.len(),
    ensures
        j <= scan_end(v, d, j) <= v.len(),
        forall|k: int| j <= k < scan_end(v, d, j) ==> #[trigger] v[k].depth > d,
        scan_end(v, d, j) < v.len() ==> v[scan_end(v, d, j)].depth <= d,
    decreases v.len() - j,
{
    if j < v.len() && v[j].depth > d {
        lemma_scan_end(v, d, j + 1);
    }
}

/// The end of the subtree of node `i`: the nodes `i..subtree_end` are it.
pub open spec fn subtree_end(v: Seq<DomNodeView>, i: int) -> int {
    if 0 <= i < v.len() {
        scan_end(v, v[i].depth, i + 1)
    } else {
        i
    }
}

/// The node is an element named `name`.
pub open spec fn is_element_named(n: DomNodeView, name: Seq<char>) -> bool {
    n.kind matches DomKindView::Element { local, .. } && local == name
}

/// The root element: the first element right below the document root.
pub open spec fn root_element_from(v: Seq<DomNodeView>, j: int) -> Option<int>
    decreases v.len() - j,
{
    if j < 0 || j >= v.len() {
        None
    } else if v[j].depth == 1 && v[j].kind is Element {
        Some(j)
    } else {
        root_element_from(v, j + 1)
    }
}

/// The first element named `name` among positions `j..end`.
pub open spec fn first_named_from(v: Seq<DomNodeView>, name: Seq<char>, j: int, end: int) -> Option<int>
    decreases end - j,
{
    if j < 0 || j >= end || j >= v.len() {
        None
    } else if is_element_named(v[j], name) {
        Some(j)
    } else {
        first_named_from(v, name, j + 1, end)
    }
}

/// The first element named `name` in the root element's subtree (the root
/// element included), in document order.
pub open spec fn find_named(v: Seq<DomNodeView>, name: Seq<char>) -> Option<int> {
    match root_element_from(v, 0) {
        Some(r) => first_named_from(v, name, r, subtree_end(v, r)),
        None => None,
    }
}

/// The text of the nodes `j..end`, concatenated.
pub open spec fn text_from(v: Seq<DomNodeView>, j: int, end: int) -> Seq<char>
    decreases end - j,
{
    if j < 0 || j >= end || j >= v.len() {
        seq![]
    } else {
        let t = match v[j].kind {
            DomKindView::Text(t) => t,
            _ => seq![],
        };
        t + text_from(v, j + 1, end)
    }
}

/// The text of an element: its descendant text nodes, concatenated.
pub open spec fn text_of(v: Seq<DomNodeView>, i: int) -> Seq<char> {
    text_from(v, i + 1, subtree_end(v, i))
}

/// The value of the plain (no namespace) attribute `name`.
pub open spec fn attr_from(attrs: Seq<DomAttrView>, name: Seq<char>, k: int) -> Option<Seq<char>>
    decreases attrs.len() - k,
{
    if k < 0 || k >= attrs.len() {
        None
    } else if attrs[k].ns.len() == 0 && attrs[k].local == name {
        Some(attrs[k].value)
    } else {
        attr_from(attrs, name, k + 1)
    }
}

/// The value of the plain attribute `name` of an element node.
pub open spec fn attr_of(n: DomNodeView, name: Seq<char>) -> Option<Seq<char>> {
    match n.kind {
        DomKindView::Element { attrs, .. } => attr_from(attrs, name, 0),
        _ => None,
    }
}


/// The end of the subtree of node `i` (`subtree_end`).
pub fn subtree_end_exec(nodes: &[DomNode], i: usize) -> (r: usize)
    requires
        i < nodes@.len(),
    ensures
        r as int == subtree_end(dom_view(nodes@), i as int),
        i < r <= nodes@.len(),
{
    let ghost v = dom_view(nodes@);
    let d = nodes[i].depth;
    let mut j = i + 1;
    proof { lemma_scan_end(v, d as nat, j as int); }
    while j < nodes.len() && nodes[j].depth > d
        invariant
            v == dom_view(nodes@),
            i < j <= nodes@.len(),
            d == v[i as int].depth,
            scan_end(v, d as nat, j as int) == subtree_end(v, i as int),
        decreases nodes@.len() - j,
    {
        j = j + 1;
    }
    j
}

/// The node is an element named `name`.
pub fn is_element_named_exec(node: &DomNode, name: &str) -> (r: bool)
    ensures
        r == is_element_named(node_view(*node), name@),
{
    match &node.kind {
        DomKind::Element { local, .. } => str_eq(local.as_str(), name),
        _ => false,
    }
}

/// The index of the root element.
pub fn root_element_index(nodes: &[DomNode]) -> (r: Option<usize>)
    ensures
        match r {
            Some(i) => root_element_from(dom_view(nodes@), 0) == Some(i as int) && i < nodes@.len(),
            None => root_element_from(dom_view(nodes@), 0) is None,
        },
{
    let ghost v = dom_view(nodes@);
    let mut j: usize = 0;
    while j < nodes.len()
        invariant
            v == dom_view(nodes@),
            j <= nodes@.len(),
            root_element_from(v, 0) == root_element_from(v, j as int),
        decreases nodes@.len() - j,
    {
        if nodes[j].depth == 1 && (match &nodes[j].kind {
            DomKind::Element { .. } => true,
            _ => false,
        }) {
            return Some(j);
        }
        j = j + 1;
    }
    None
}

/// The first element named `name` among positions `j..end`.
pub fn first_named_in(nodes: &[DomNode], name: &str, j: usize, end: usize) -> (r: Option<usize>)
    requires
        end <= nodes@.len(),
    ensures
        match r {
            Some(k) => first_named_from(dom_view(nodes@), name@, j as int, end as int) == Some(k as int)
                && j <= k < end,
            None => first_named_from(dom_view(nodes@), name@, j as int, end as int) is None,
        },
{
    let ghost v = dom_view(nodes@);
    let mut k = j;
    while k < end
        invariant
            v == dom_view(nodes@),
            j <= k,
            end <= nodes@.len(),
            first_named_from(v, name@, j as int, end as int) == first_named_from(v, name@, k as int, end as int),
        decreases end - k,
    {
        if is_element_named_exec(&nodes[k], name) {
            return Some(k);
        }
        k = k + 1;
    }
    None
}

/// The first element named `name` in the root element's subtree (`find_named`).
pub fn find_named_element(nodes: &[DomNode], name: &str) -> (r: Option<usize>)
    ensures
        match r {
            Some(k) => find_named(dom_view(nodes@), name@) == Some(k as int) && k < nodes@.len(),
            None => find_named(dom_view(nodes@), name@) is None,
        },
{
    match root_element_index(nodes) {
        None => None,
        Some(r) => {
            let end = subtree_end_exec(nodes, r);
            first_named_in(nodes, name, r, end)
        },
    }
}

/// The text of the nodes `j..end`, concatenated (`text_from`).
pub fn text_in(nodes: &[DomNode], j: usize, end: usize) -> (r: String)
    requires
        j <= end <= nodes@.len(),
    ensures
        r@ == text_from(dom_view(nodes@), j as int, end as int),
{
    let ghost v = dom_view(nodes@);
    let mut out = String::new();
    let mut k = j;
    while k < end
        invariant
            v == dom_view(nodes@),
            j <= k <= end <= nodes@.len(),
            text_from(v, j as int, end as int) == out@ + text_from(v, k as int, end as int),
        decreases end - k,
    {
        match &nodes[k].kind {
            DomKind::Text(t) => {
                out = cat(out, t.as_str());
            },
            _ => {},
        }
        k = k + 1;
    }
    out
}

/// The text of element `i`: its descendant text nodes (`text_of`).
pub fn element_text(nodes: &[DomNode], i: usize) -> (r: String)
    requires
        i < nodes@.len(),
    ensures
        r@ == text_of(dom_view(nodes@), i as int),
{
    let end = subtree_end_exec(nodes, i);
    text_in(nodes, i + 1, end)
}

/// The value of the plain attribute `name` of a node (`attr_of`).
pub fn attr<'a>(node: &'a DomNode, name: &str) -> (r: Option<&'a String>)
    ensures
        match r {
            Some(s) => attr_of(node_view(*node), name@) == Some(s@),
            None => attr_of(node_view(*node), name@) is None,
        },
{
    match &node.kind {
        DomKind::Element { attrs, .. } => {
            let ghost av = attrs@.map_values(|a: DomAttr| attr_view(a));
            let mut k: usize = 0;
            while k < attrs.len()
                invariant
                    k <= attrs@.len(),
                    av == attrs@.map_values(|a: DomAttr| attr_view(a)),
                    attr_from(av, name@, 0) == attr_from(av, name@, k as int),
                    attr_of(node_view(*node), name@) == attr_from(av, name@, 0),
                decreases attrs@.len() - k,
            {
                let a = &attrs[k];
                assert(av[k as int] == attr_view(attrs@[k as int]));
                if a.ns.as_str().is_empty() && str_eq(a.local.as_str(), name) {
                    return Some(&a.value);
                }
                k = k + 1;
            }
            None
        },
        _ => None,
    }
}

} // verus!
