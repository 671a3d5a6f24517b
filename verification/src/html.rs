//! Standalone HTML: a browser-grade HTML5 parse adapted into the
//! document tree, with node and depth limits enforced both before the parse
//! (through the preflight model) and while adapting.
use vstd::prelude::*;
use crate::dom::{
    DomAttr, DomAttrView, DomKind, DomKindView, DomNode, DomNodeView, attr_view as dom_attr_view,
    dom_view, lemma_scan_end, node_view, scan_end, subtree_end, subtree_end_exec,
};
use crate::error::{ConvertError, is_limit_error};
use crate::limits::{MAX_XML_DEPTH, MAX_XML_NODES};
use crate::model::{
    Asset, Attr, AttrView, Element, ImageSource, Node, NodeView, attr_view, node_depth, tree_view,
    tree_node_view,
};
use crate::dom::{
    find_named, find_named_element, is_element_named, is_element_named_exec, parse_html_document,
    html_document, root_element_from, root_element_index, text_of, element_text,
};
use crate::error::is_malformed;
use crate::charset::{decode_html, decoded_html};
use crate::limits::MAX_ENTRY_BYTES;
use crate::text::{size_detail, size_detail_string, trim, CharClass, trim_indices};
use crate::mime::push_range;
use crate::mhtml::MhtmlCtx;
use crate::text::{decimal, message_with_number, message_with_two_numbers, chars_of, string_of};

verus! {

broadcast use vstd::seq_lib::group_seq_properties;

/// A namespace as an optional value: `None` for the empty namespace.
pub open spec fn optional_ns(ns: Seq<char>) -> Option<Seq<char>> {
    if ns.len() == 0 {
        None
    } else {
        Some(ns)
    }
}

/// A namespace as an optional value (`optional_ns`).
pub fn optional_namespace(namespace: &str) -> (r: Option<String>)
    ensures
        match r {
            Some(s) => optional_ns(namespace@) == Some(s@),
            None => optional_ns(namespace@) is None,
        },
{
    if namespace.is_empty() {
        None
    } else {
        Some(namespace.to_owned())
    }
}

/// An attribute of the parse as an attribute of the document tree.
pub open spec fn adapted_attr(a: DomAttrView) -> AttrView {
    AttrView { ns: optional_ns(a.ns), local: a.local, value: a.value }
}

/// A depth as the tree stores it (saturating at `usize::MAX`).
pub open spec fn saturated_depth(rel: int) -> nat {
    if rel > usize::MAX {
        usize::MAX as nat
    } else {
        rel as nat
    }
}

/// Why adapting a parsed tree failed.
pub enum AdaptFailure {
    /// An element lies at this depth, deeper than `MAX_XML_DEPTH`.
    Depth(nat),
    /// The tree has more than `MAX_XML_NODES` nodes.
    Nodes,
}

/// Adapting the nodes `j..end` of the subtree of body node `b`, `count`
/// nodes counted and `out` produced so far. Elements and text runs are kept
/// with their depth below the body (the body has depth 1); comments,
/// doctypes and processing instructions only count; document and fragment
/// roots are skipped together with their subtrees. An element deeper than
/// `MAX_XML_DEPTH`, or a node beyond `MAX_XML_NODES`, fails, whichever
/// comes first in document order.
pub open spec fn adapt_walk(v: Seq<DomNodeView>, b: int, j: int, end: int, count: nat, out: Seq<NodeView>) -> Result<(Seq<NodeView>, nat), AdaptFailure>
    decreases end - j,
{
    if j < 0 || j >= end || j >= v.len() || b < 0 || b >= v.len() {
        Ok((out, count))
    } else {
        let n = v[j];
        let rel = n.depth - v[b].depth + 1;
        proof {
            lemma_scan_end(v, n.depth, j + 1);
        }
        match n.kind {
            DomKindView::Container => {
                let next = scan_end(v, n.depth, j + 1);
                if next >= end {
                    Ok((out, count))
                } else {
                    adapt_walk(v, b, next, end, count, out)
                }
            },
            DomKindView::Element { ns, local, attrs } => if rel > MAX_XML_DEPTH {
                Err(AdaptFailure::Depth(rel as nat))
            } else if count + 1 > MAX_XML_NODES {
                Err(AdaptFailure::Nodes)
            } else {
                adapt_walk(v, b, j + 1, end, count + 1, out.push(NodeView::Elem {
                    depth: rel as nat,
                    ns: optional_ns(ns),
                    local,
                    attrs: attrs.map_values(|a: DomAttrView| adapted_attr(a)),
                }))
            },
            DomKindView::Text(t) => if count + 1 > MAX_XML_NODES {
                Err(AdaptFailure::Nodes)
            } else {
                adapt_walk(v, b, j + 1, end, count + 1, out.push(NodeView::Text { depth: saturated_depth(rel), text: t }))
            },
            DomKindView::Other => if count + 1 > MAX_XML_NODES {
                Err(AdaptFailure::Nodes)
            } else {
                adapt_walk(v, b, j + 1, end, count + 1, out)
            },
        }
    }
}

/// The document tree adapted from the subtree of body node `b`.
pub open spec fn adapted(v: Seq<DomNodeView>, b: int) -> Result<Seq<NodeView>, AdaptFailure> {
    match adapt_walk(v, b, b, subtree_end(v, b), 0, seq![]) {
        Ok((out, _)) => Ok(out),
        Err(f) => Err(f),
    }
}

/// The error reports the adapt failure.
pub open spec fn reports_adapt_failure(e: ConvertError, f: AdaptFailure) -> bool {
    match f {
        AdaptFailure::Depth(d) => is_limit_error(e, "max_xml_depth"@) && (e matches ConvertError::ResourceLimit { detail, .. } && detail@ == "HTML element nesting depth "@ + decimal(d) + " exceeds "@ + decimal(MAX_XML_DEPTH as nat)),
        AdaptFailure::Nodes => is_limit_error(e, "max_xml_nodes"@) && (e matches ConvertError::ResourceLimit { detail, .. } && detail@ == "HTML tree has more than "@ + decimal(MAX_XML_NODES as nat) + " nodes"@),
    }
}

/// The node-limit error of the document tree.
fn tree_node_limit_error() -> (e: ConvertError)
    ensures
        reports_adapt_failure(e, AdaptFailure::Nodes),
{
    ConvertError::ResourceLimit {
        limit: "max_xml_nodes",
        detail: message_with_number("HTML tree has more than ", MAX_XML_NODES as u128, " nodes"),
    }
}

/// Count one more node of the document tree.
pub fn bump_node_count(node_count: &mut usize) -> (r: Result<(), ConvertError>)
    ensures
        *final(node_count) == if *old(node_count) == usize::MAX {
            usize::MAX
        } else {
            (*old(node_count) + 1) as usize
        },
        *final(node_count) > MAX_XML_NODES ==> (r matches Err(e) && reports_adapt_failure(e, AdaptFailure::Nodes)),
        *final(node_count) <= MAX_XML_NODES ==> r is Ok,
{
    *node_count = node_count.saturating_add(1);
    if *node_count > MAX_XML_NODES {
        return Err(tree_node_limit_error());
    }
    Ok(())
}

/// The attributes of a parsed element as attributes of the document tree.
fn adapt_attrs(attrs: &Vec<DomAttr>) -> (r: Vec<Attr>)
    ensures
        r@.map_values(|a: Attr| attr_view(a)) == attrs@.map_values(|a: DomAttr| dom_attr_view(a)).map_values(
            |a: DomAttrView| adapted_attr(a),
        ),
{
    let mut out: Vec<Attr> = Vec::new();
    let mut k: usize = 0;
    while k < attrs.len()
        invariant
            k <= attrs@.len(),
            out@.len() == k,
            out@.map_values(|a: Attr| attr_view(a)) == attrs@.subrange(0, k as int).map_values(
                |a: DomAttr| dom_attr_view(a),
            ).map_values(|a: DomAttrView| adapted_attr(a)),
        decreases attrs@.len() - k,
    {
        let a = &attrs[k];
        let converted = Attr {
            ns: optional_namespace(a.ns.as_str()),
            local: string_of(chars_of(a.local.as_str()).as_slice()),
            value: string_of(chars_of(a.value.as_str()).as_slice()),
        };
        let ghost before = out@;
        assert(attr_view(converted) == adapted_attr(dom_attr_view(attrs@[k as int])));
        out.push(converted);
        assert(attrs@.subrange(0, k + 1) =~= attrs@.subrange(0, k as int).push(attrs@[k as int]));
        assert(out@ =~= before.push(out@[k as int]));
        let ghost lhs = out@.map_values(|a: Attr| attr_view(a));
        let ghost rhs = attrs@.subrange(0, k + 1).map_values(|a: DomAttr| dom_attr_view(a)).map_values(
            |a: DomAttrView| adapted_attr(a),
        );
        let ghost prev = attrs@.subrange(0, k as int).map_values(|a: DomAttr| dom_attr_view(a)).map_values(
            |a: DomAttrView| adapted_attr(a),
        );
        assert forall|i: int| 0 <= i < k + 1 implies lhs[i] == rhs[i] by {
            if i < k {
                assert(before.map_values(|a: Attr| attr_view(a))[i] == prev[i]);
                assert(out@[i] == before[i]);
            }
        }
        assert(out@.map_values(|a: Attr| attr_view(a)) =~= attrs@.subrange(0, k + 1).map_values(
            |a: DomAttr| dom_attr_view(a),
        ).map_values(|a: DomAttrView| adapted_attr(a)));
        k = k + 1;
    }
    assert(attrs@.subrange(0, k as int) =~= attrs@);
    out
}


/// The depth-limit error of the document tree.
fn tree_depth_limit_error(depth: u128) -> (e: ConvertError)
    ensures
        reports_adapt_failure(e, AdaptFailure::Depth(depth as nat)),
{
    proof {
        reveal_strlit("");
    }
    let detail = message_with_two_numbers(
        "HTML element nesting depth ",
        depth,
        " exceeds ",
        MAX_XML_DEPTH as u128,
        "",
    );
    assert(detail@ =~= "HTML element nesting depth "@ + decimal(depth as nat) + " exceeds "@ + decimal(
        MAX_XML_DEPTH as nat,
    ));
    ConvertError::ResourceLimit { limit: "max_xml_depth", detail }
}

/// Adapt the subtree of body node `body` into the document tree (`adapted`).
pub fn adapt_element(nodes: &[DomNode], body: usize) -> (r: Result<Vec<Node>, ConvertError>)
    requires
        body < nodes@.len(),
    ensures
        match adapted(dom_view(nodes@), body as int) {
            Ok(out) => r matches Ok(t) && tree_view(t@) == out,
            Err(f) => r matches Err(e) && reports_adapt_failure(e, f),
        },
{
    let ghost v = dom_view(nodes@);
    let end = subtree_end_exec(nodes, body);
    let db = nodes[body].depth;
    proof {
        lemma_scan_end(v, db as nat, body + 1);
    }
    let ghost whole = adapt_walk(v, body as int, body as int, end as int, 0, seq![]);
    let mut out: Vec<Node> = Vec::new();
    let mut count: usize = 0;
    let mut j = body;
    assert(tree_view(out@) =~= Seq::<NodeView>::empty());
    while j < end
        invariant
            v == dom_view(nodes@),
            body <= j <= end <= nodes@.len(),
            end == subtree_end(v, body as int),
            db == v[body as int].depth,
            forall|k: int| body < k < end ==> #[trigger] v[k].depth > db,
            count <= MAX_XML_NODES,
            whole == adapt_walk(v, body as int, j as int, end as int, count as nat, tree_view(out@)),
            whole == adapt_walk(v, body as int, body as int, end as int, 0, seq![]),
        decreases end - j,
    {
        assert(v[j as int] == node_view(nodes@[j as int]));
        let depth = nodes[j].depth;
        assert(j == body || depth > db);
        let diff: usize = depth - db;
        match &nodes[j].kind {
            DomKind::Container => {
                proof {
                    lemma_scan_end(v, depth as nat, j + 1);
                }
                let mut k = j + 1;
                while k < nodes.len() && nodes[k].depth > depth
                    invariant
                        v == dom_view(nodes@),
                        j < k <= nodes@.len(),
                        depth == v[j as int].depth,
                        scan_end(v, depth as nat, k as int) == scan_end(v, depth as nat, j + 1),
                    decreases nodes@.len() - k,
                {
                    k = k + 1;
                }
                if k >= end {
                    return Ok(out);
                }
                j = k;
            },
            DomKind::Element { ns, local, attrs } => {
                if diff >= MAX_XML_DEPTH {
                    return Err(tree_depth_limit_error(diff as u128 + 1));
                }
                if count >= MAX_XML_NODES {
                    return Err(tree_node_limit_error());
                }
                count = count + 1;
                let element = Element {
                    ns: optional_namespace(ns.as_str()),
                    local: string_of(chars_of(local.as_str()).as_slice()),
                    attrs: adapt_attrs(attrs),
                };
                let node = Node::Elem { depth: diff + 1, element };
                let ghost before = tree_view(out@);
                assert(tree_node_view(node) == NodeView::Elem {
                    depth: (diff + 1) as nat,
                    ns: optional_ns(ns@),
                    local: local@,
                    attrs: attrs@.map_values(|a: DomAttr| dom_attr_view(a)).map_values(
                        |a: DomAttrView| adapted_attr(a),
                    ),
                });
                out.push(node);
                assert(tree_view(out@) =~= before.push(tree_node_view(node)));
                j = j + 1;
            },
            DomKind::Text(t) => {
                if count >= MAX_XML_NODES {
                    return Err(tree_node_limit_error());
                }
                count = count + 1;
                let node = Node::Text { depth: diff.saturating_add(1), text: string_of(chars_of(t.as_str()).as_slice()) };
                let ghost before = tree_view(out@);
                out.push(node);
                assert(tree_view(out@) =~= before.push(tree_node_view(node)));
                j = j + 1;
            },
            DomKind::Other => {
                if count >= MAX_XML_NODES {
                    return Err(tree_node_limit_error());
                }
                count = count + 1;
                j = j + 1;
            },
        }
    }
    Ok(out)
}


/// The resolution context of a standalone HTML file.
#[derive(Debug)]
pub struct StandaloneCtx;

impl StandaloneCtx {
    /// An image source: the trimmed `src` as an external reference, none if empty.
    pub fn image_source(&self, src: &str) -> (r: Result<Option<ImageSource>, ConvertError>)
        ensures
            trim(src@).len() == 0 ==> r matches Ok(None),
            trim(src@).len() > 0 ==> (r matches Ok(Some(ImageSource::External(s))) && s@ == trim(src@)),
    {
        let c = chars_of(src);
        let n = c.len();
        assert(c@.subrange(0, n as int) =~= c@);
        let (a, b) = trim_indices(c.as_slice(), 0, n, CharClass::Whitespace);
        if a == b {
            return Ok(None);
        }
        let mut t: Vec<char> = Vec::new();
        push_range(&mut t, c.as_slice(), a, b);
        Ok(Some(ImageSource::External(string_of(t.as_slice()))))
    }
}

/// How a document's images and links are resolved.
#[derive(Debug)]
pub enum HtmlContext {
    /// A standalone HTML file: references stay as written.
    Standalone(StandaloneCtx),
    /// An MHTML archive: references resolve against the archive's parts.
    Mhtml(MhtmlCtx),
}

/// A document: its embedded assets, its stylesheets in order, its body
/// tree (none for a frameset document), and how its references resolve.
#[derive(Debug)]
pub struct Document {
    pub assets: Vec<Asset>,
    pub stylesheets: Vec<String>,
    pub body: Option<Vec<Node>>,
    pub context: HtmlContext,
}

/// The view of a list of strings.
pub open spec fn strings_view(v: Seq<String>) -> Seq<Seq<char>> {
    v.map_values(|s: String| s@)
}

/// The texts of the `style` elements among positions `j..end`, in order.
pub open spec fn style_texts_from(v: Seq<DomNodeView>, j: int, end: int) -> Seq<Seq<char>>
    decreases end - j,
{
    if j < 0 || j >= end || j >= v.len() {
        seq![]
    } else if is_element_named(v[j], "style"@) {
        seq![text_of(v, j)] + style_texts_from(v, j + 1, end)
    } else {
        style_texts_from(v, j + 1, end)
    }
}

/// The texts of the `style` elements of a parsed document, in document order.
pub open spec fn style_texts(v: Seq<DomNodeView>) -> Seq<Seq<char>> {
    match root_element_from(v, 0) {
        Some(r) => style_texts_from(v, r, subtree_end(v, r)),
        None => seq![],
    }
}

/// The texts of the `style` elements of a parsed document (`style_texts`).
pub fn collect_style_texts(nodes: &[DomNode]) -> (r: Vec<String>)
    ensures
        strings_view(r@) == style_texts(dom_view(nodes@)),
{
    let ghost v = dom_view(nodes@);
    let mut out: Vec<String> = Vec::new();
    let root = match root_element_index(nodes) {
        None => {
            assert(strings_view(out@) =~= Seq::<Seq<char>>::empty());
            return out;
        },
        Some(r) => r,
    };
    let end = subtree_end_exec(nodes, root);
    let mut j = root;
    assert(strings_view(out@) =~= Seq::<Seq<char>>::empty());
    while j < end
        invariant
            v == dom_view(nodes@),
            root <= j <= end <= nodes@.len(),
            style_texts(v) == strings_view(out@) + style_texts_from(v, j as int, end as int),
        decreases end - j,
    {
        assert(v[j as int] == node_view(nodes@[j as int]));
        if is_element_named_exec(&nodes[j], "style") {
            let t = element_text(nodes, j);
            let ghost before = strings_view(out@);
            out.push(t);
            assert(strings_view(out@) =~= before.push(t@));
        }
        j = j + 1;
    }
    out
}

/// What `document_from_parsed_html` makes of a parsed document.
pub open spec fn document_outcome(
    v: Seq<DomNodeView>,
    ordered: Option<Seq<Seq<char>>>,
    context: HtmlContext,
    assets: Seq<Asset>,
    r: Result<Document, ConvertError>,
) -> bool {
    let css = match ordered {
        Some(list) => list,
        None => style_texts(v),
    };
    match find_named(v, "body"@) {
        Some(b) => match adapted(v, b) {
            Ok(tree) => r matches Ok(d) && d.body matches Some(t) && tree_view(t@) == tree
                && strings_view(d.stylesheets@) == css && d.assets@ == assets && d.context == context,
            Err(f) => r matches Err(e) && reports_adapt_failure(e, f),
        },
        None => if find_named(v, "frameset"@) is Some {
            r matches Ok(d) && d.body is None && d.stylesheets@.len() == 0 && d.assets@ == assets
                && d.context == context
        } else {
            r matches Err(e) && e matches ConvertError::Malformed(m) && m@
                == "HTML parser produced no body element"@
        },
    }
}

/// Build the document from a parsed HTML tree: the given stylesheets (or
/// the document's own `style` elements), and the adapted body.
pub fn document_from_parsed_html(
    nodes: &[DomNode],
    ordered_stylesheets: Option<Vec<String>>,
    context: HtmlContext,
    assets: Vec<Asset>,
) -> (r: Result<Document, ConvertError>)
    ensures
        document_outcome(
            dom_view(nodes@),
            match ordered_stylesheets {
                Some(l) => Some(strings_view(l@)),
                None => None,
            },
            context,
            assets@,
            r,
        ),
{
    let css = match ordered_stylesheets {
        Some(list) => list,
        None => collect_style_texts(nodes),
    };
    let body = match find_named_element(nodes, "body") {
        Some(b) => b,
        None => {
            if find_named_element(nodes, "frameset").is_some() {
                return Ok(Document { assets, stylesheets: Vec::new(), body: None, context });
            }
            return Err(ConvertError::malformed("HTML parser produced no body element"));
        },
    };
    let tree = match adapt_element(nodes, body) {
        Ok(t) => t,
        Err(e) => return Err(e),
    };
    Ok(Document { assets, stylesheets: css, body: Some(tree), context })
}


/// What converting decoded HTML text gives, once the preflight has answered.
pub open spec fn text_outcome(
    text: Seq<char>,
    pre: Result<(), ConvertError>,
    ordered: Option<Seq<Seq<char>>>,
    context: HtmlContext,
    assets: Seq<Asset>,
    r: Result<Document, ConvertError>,
) -> bool {
    match pre {
        Err(e) => r == Err::<Document, ConvertError>(e),
        Ok(_) => document_outcome(html_document(text), ordered, context, assets, r),
    }
}

/// Convert decoded HTML text: the preflight first (its error, if any, is
/// the result), then the parse and the document.
pub fn parse_text_with_context<P: Fn(&str) -> Result<(), ConvertError>>(
    text: &str,
    ordered_stylesheets: Option<Vec<String>>,
    context: HtmlContext,
    assets: Vec<Asset>,
    preflight: &P,
) -> (r: Result<Document, ConvertError>)
    requires
        forall|t: &str| preflight.requires((t,)),
    ensures
        exists|pre: Result<(), ConvertError>|
            preflight.ensures((text,), pre) && text_outcome(
                text@,
                pre,
                match ordered_stylesheets {
                    Some(l) => Some(strings_view(l@)),
                    None => None,
                },
                context,
                assets@,
                r,
            ),
{
    let pre = preflight(text);
    match pre {
        Err(e) => {
            let r = Err(e);
            assert(text_outcome(text@, pre, match ordered_stylesheets {
                Some(l) => Some(strings_view(l@)),
                None => None,
            }, context, assets@, r));
            r
        },
        Ok(()) => {
            let nodes = parse_html_document(text);
            let r = document_from_parsed_html(nodes.as_slice(), ordered_stylesheets, context, assets);
            r
        },
    }
}

/// Parse a standalone HTML document: at most `MAX_ENTRY_BYTES` bytes,
/// decoded (`decoded_html`), checked by `preflight` before the DOM is
/// built, then turned into a document with the standalone context.
pub fn parse<P: Fn(&str) -> Result<(), ConvertError>>(bytes: &[u8], preflight: P) -> (r: Result<Document, ConvertError>)
    requires
        forall|t: &str| preflight.requires((t,)),
    ensures
        bytes@.len() > MAX_ENTRY_BYTES ==> (r matches Err(e) && is_limit_error(e, "max_entry_bytes"@) && (
        e matches ConvertError::ResourceLimit { detail, .. } && detail@ == size_detail(
            "HTML input"@,
            bytes@.len(),
            MAX_ENTRY_BYTES as nat,
        ))),
        bytes@.len() <= MAX_ENTRY_BYTES ==> exists|t: &str, pre: Result<(), ConvertError>|
            t@ == decoded_html(bytes@, None) && preflight.ensures((t,), pre) && text_outcome(
                t@,
                pre,
                None,
                HtmlContext::Standalone(StandaloneCtx),
                Seq::empty(),
                r,
            ),
{
    if bytes.len() as u64 > MAX_ENTRY_BYTES {
        return Err(
            ConvertError::ResourceLimit {
                limit: "max_entry_bytes",
                detail: size_detail_string("HTML input", bytes.len() as u128, MAX_ENTRY_BYTES as u128),
            },
        );
    }
    let text = decode_html(bytes);
    let assets: Vec<Asset> = Vec::new();
    assert(assets@ =~= Seq::<Asset>::empty());
    let r = parse_text_with_context(text.as_str(), None, HtmlContext::Standalone(StandaloneCtx), assets, &preflight);
    r
}

/// The tree holds at most `MAX_XML_NODES` nodes and no element deeper
/// than `MAX_XML_DEPTH`.
pub open spec fn tree_within_limits(t: Seq<NodeView>) -> bool {
    &&& t.len() <= MAX_XML_NODES
    &&& forall|k: int| 0 <= k < t.len() ==> ((#[trigger] t[k]) matches NodeView::Elem { depth, .. } ==> depth
        <= MAX_XML_DEPTH)
}

/// Lemma: the walk keeps its output within the limits.
proof fn lemma_adapt_walk_within_limits(v: Seq<DomNodeView>, b: int, j: int, end: int, count: nat, out: Seq<NodeView>)
    requires
        out.len() <= count <= MAX_XML_NODES,
        tree_within_limits(out),
        0 <= b < v.len() ==> forall|k: int| j <= k < end && 0 <= k < v.len() ==> (#[trigger] v[k]).depth >= v[b].depth,
    ensures
        adapt_walk(v, b, j, end, count, out) matches Ok((o, c)) ==> o.len() <= c <= MAX_XML_NODES
            && tree_within_limits(o),
    decreases end - j,
{
    if !(j < 0 || j >= end || j >= v.len() || b < 0 || b >= v.len()) {
        let n = v[j];
        let rel = n.depth - v[b].depth + 1;
        lemma_scan_end(v, n.depth, j + 1);
        match n.kind {
            DomKindView::Container => {
                let next = scan_end(v, n.depth, j + 1);
                if next < end {
                    lemma_adapt_walk_within_limits(v, b, next, end, count, out);
                }
            },
            DomKindView::Element { ns, local, attrs } => {
                if rel <= MAX_XML_DEPTH && count + 1 <= MAX_XML_NODES {
                    let e = NodeView::Elem {
                        depth: rel as nat,
                        ns: optional_ns(ns),
                        local,
                        attrs: attrs.map_values(|a: DomAttrView| adapted_attr(a)),
                    };
                    let o2 = out.push(e);
                    assert forall|k: int| 0 <= k < o2.len() implies ((#[trigger] o2[k]) matches NodeView::Elem { depth, .. }
                        ==> depth <= MAX_XML_DEPTH) by {
                        if k < out.len() {
                            assert(o2[k] == out[k]);
                        }
                    }
                    lemma_adapt_walk_within_limits(v, b, j + 1, end, count + 1, o2);
                }
            },
            DomKindView::Text(t) => {
                if count + 1 <= MAX_XML_NODES {
                    let o2 = out.push(NodeView::Text { depth: saturated_depth(rel), text: t });
                    assert forall|k: int| 0 <= k < o2.len() implies ((#[trigger] o2[k]) matches NodeView::Elem { depth, .. }
                        ==> depth <= MAX_XML_DEPTH) by {
                        if k < out.len() {
                            assert(o2[k] == out[k]);
                        } else {
                            assert(o2[k] is Text);
                        }
                    }
                    lemma_adapt_walk_within_limits(v, b, j + 1, end, count + 1, o2);
                }
            },
            DomKindView::Other => {
                if count + 1 <= MAX_XML_NODES {
                    lemma_adapt_walk_within_limits(v, b, j + 1, end, count + 1, out);
                }
            },
        }
    }
}

/// Law: a document tree that adapting produces stays within the limits:
/// at most `MAX_XML_NODES` nodes, no element deeper than `MAX_XML_DEPTH`.
pub proof fn law_adapted_tree_within_limits(v: Seq<DomNodeView>, b: int)
    ensures
        adapted(v, b) matches Ok(t) ==> tree_within_limits(t),
{
    if 0 <= b < v.len() {
        lemma_scan_end(v, v[b].depth, b + 1);
    }
    lemma_adapt_walk_within_limits(v, b, b, subtree_end(v, b), 0, seq![]);
}

/// Lemma: the walk only appends to what it has produced so far.
proof fn lemma_adapt_walk_extends(v: Seq<DomNodeView>, b: int, j: int, end: int, count: nat, out: Seq<NodeView>)
    ensures
        adapt_walk(v, b, j, end, count, out) matches Ok((o, _)) ==> out.len() <= o.len()
            && forall|k: int| 0 <= k < out.len() ==> #[trigger] o[k] == out[k],
    decreases end - j,
{
    if !(j < 0 || j >= end || j >= v.len() || b < 0 || b >= v.len()) {
        let n = v[j];
        let rel = n.depth - v[b].depth + 1;
        lemma_scan_end(v, n.depth, j + 1);
        match n.kind {
            DomKindView::Container => {
                let next = scan_end(v, n.depth, j + 1);
                if next < end {
                    lemma_adapt_walk_extends(v, b, next, end, count, out);
                }
            },
            DomKindView::Element { ns, local, attrs } => {
                if rel <= MAX_XML_DEPTH && count + 1 <= MAX_XML_NODES {
                    let o2 = out.push(NodeView::Elem {
                        depth: rel as nat,
                        ns: optional_ns(ns),
                        local,
                        attrs: attrs.map_values(|a: DomAttrView| adapted_attr(a)),
                    });
                    lemma_adapt_walk_extends(v, b, j + 1, end, count + 1, o2);
                    if let Ok((o, _)) = adapt_walk(v, b, j, end, count, out) {
                        assert forall|k: int| 0 <= k < out.len() implies #[trigger] o[k] == out[k] by {
                            assert(o[k] == o2[k]);
                        }
                    }
                }
            },
            DomKindView::Text(t) => {
                if count + 1 <= MAX_XML_NODES {
                    let o2 = out.push(NodeView::Text { depth: saturated_depth(rel), text: t });
                    lemma_adapt_walk_extends(v, b, j + 1, end, count + 1, o2);
                    if let Ok((o, _)) = adapt_walk(v, b, j, end, count, out) {
                        assert forall|k: int| 0 <= k < out.len() implies #[trigger] o[k] == out[k] by {
                            assert(o[k] == o2[k]);
                        }
                    }
                }
            },
            DomKindView::Other => {
                if count + 1 <= MAX_XML_NODES {
                    lemma_adapt_walk_extends(v, b, j + 1, end, count + 1, out);
                }
            },
        }
    }
}

/// Lemma: the node produced for position `j` has depth
/// `v[j].depth - v[b].depth + 1` (saturating), whatever its kind.
proof fn lemma_adapted_node_depth(v: Seq<DomNodeView>, b: int, j: int, end: int, count: nat, out: Seq<NodeView>)
    requires
        0 <= b < v.len(),
        0 <= j < end,
        j < v.len(),
        v[j].depth >= v[b].depth,
        v[j].kind is Element || v[j].kind is Text,
    ensures
        adapt_walk(v, b, j, end, count, out) matches Ok((o, _)) ==> out.len() < o.len()
            && node_depth(o[out.len() as int]) == saturated_depth(v[j].depth - v[b].depth + 1),
{
    let n = v[j];
    let rel = n.depth - v[b].depth + 1;
    lemma_scan_end(v, n.depth, j + 1);
    match n.kind {
        DomKindView::Element { ns, local, attrs } => {
            if rel <= MAX_XML_DEPTH && count + 1 <= MAX_XML_NODES {
                let o2 = out.push(NodeView::Elem {
                    depth: rel as nat,
                    ns: optional_ns(ns),
                    local,
                    attrs: attrs.map_values(|a: DomAttrView| adapted_attr(a)),
                });
                lemma_adapt_walk_extends(v, b, j + 1, end, count + 1, o2);
                if let Ok((o, _)) = adapt_walk(v, b, j, end, count, out) {
                    assert(o[out.len() as int] == o2[out.len() as int]);
                }
            }
        },
        DomKindView::Text(t) => {
            if count + 1 <= MAX_XML_NODES {
                let o2 = out.push(NodeView::Text { depth: saturated_depth(rel), text: t });
                lemma_adapt_walk_extends(v, b, j + 1, end, count + 1, o2);
                if let Ok((o, _)) = adapt_walk(v, b, j, end, count, out) {
                    assert(o[out.len() as int] == o2[out.len() as int]);
                }
            }
        },
        _ => {},
    }
}

/// Law: adapting keeps every element and text run exactly as deep below the
/// body as the parsed document has it, whatever its kind. The node produced
/// for position `j` of the body's subtree has depth
/// `v[j].depth - v[b].depth + 1` (saturating at `usize::MAX`), text runs and
/// elements alike; so the first child of an element, be it an element or a
/// text run, lies exactly one level below that element.
pub proof fn law_adapted_depth_follows_dom(
    v: Seq<DomNodeView>,
    b: int,
    j: int,
    end: int,
    count: nat,
    out: Seq<NodeView>,
)
    requires
        0 <= b < v.len(),
        0 <= j < end,
        j < v.len(),
        v[j].depth >= v[b].depth,
        v[j].kind is Element || v[j].kind is Text,
    ensures
        adapt_walk(v, b, j, end, count, out) matches Ok((o, _)) ==> out.len() < o.len()
            && node_depth(o[out.len() as int]) == saturated_depth(v[j].depth - v[b].depth + 1),
        v[j].kind is Element && j + 1 < end && j + 1 < v.len() && v[j + 1].depth == v[j].depth + 1
            && (v[j + 1].kind is Element || v[j + 1].kind is Text) ==> (adapt_walk(v, b, j, end, count, out) matches Ok((o, _))
            ==> out.len() + 1 < o.len() && node_depth(o[out.len() + 1int]) == node_depth(o[out.len() as int]) + 1),
{
    lemma_adapted_node_depth(v, b, j, end, count, out);
    let n = v[j];
    let rel = n.depth - v[b].depth + 1;
    lemma_scan_end(v, n.depth, j + 1);
    if let DomKindView::Element { ns, local, attrs } = n.kind {
        if rel <= MAX_XML_DEPTH && count + 1 <= MAX_XML_NODES && j + 1 < end && j + 1 < v.len()
            && v[j + 1].depth == v[j].depth + 1 && (v[j + 1].kind is Element || v[j + 1].kind is Text) {
            let o2 = out.push(NodeView::Elem {
                depth: rel as nat,
                ns: optional_ns(ns),
                local,
                attrs: attrs.map_values(|a: DomAttrView| adapted_attr(a)),
            });
            lemma_adapted_node_depth(v, b, j + 1, end, count + 1, o2);
            lemma_adapt_walk_extends(v, b, j + 1, end, count + 1, o2);
            if let Ok((o, _)) = adapt_walk(v, b, j, end, count, out) {
                assert(o[out.len() as int] == o2[out.len() as int]);
            }
        }
    }
}

} // verus!
