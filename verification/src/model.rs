//! The document model the frontends produce.
use vstd::prelude::*;

verus! {

/// The index of an asset in `Document::assets`.
#[derive(Clone, Copy, PartialEq, Eq, Structural, Debug)]
pub struct AssetId(pub usize);

/// A binary resource embedded in the document.
#[derive(Debug)]
pub struct Asset {
    pub id: AssetId,
    pub media_type: String,
    pub origin_part: String,
    pub bytes: Vec<u8>,
}

/// Where an image's data comes from.
#[derive(Debug)]
pub enum ImageSource {
    /// An embedded asset of the document.
    Asset(AssetId),
    /// A URL outside the document, not fetched.
    External(String),
    /// A reference to an embedded resource that is not there.
    Unavailable,
}

/// Where a link points.
#[derive(Debug)]
pub enum LinkTarget {
    /// An anchor inside the document.
    Anchor(String),
    /// An absolute URL.
    External(String),
    /// A relative reference.
    Relative(String),
}

/// An attribute of an element of the document tree.
#[derive(Debug)]
pub struct Attr {
    pub ns: Option<String>,
    pub local: String,
    pub value: String,
}

/// An element of the document tree, without its children.
#[derive(Debug)]
pub struct Element {
    pub ns: Option<String>,
    pub local: String,
    pub attrs: Vec<Attr>,
}

/// A node of the document tree. A tree is kept as its nodes in document
/// order, each with its depth (the root element has depth 1): the children
/// of an element are the nodes one level deeper that follow it up to the
/// next node at its own depth or above.
#[derive(Debug)]
pub enum Node {
    Elem { depth: usize, element: Element },
    Text { depth: usize, text: String },
}


/// A link target, as plain values.
pub enum LinkTargetView {
    Anchor(Seq<char>),
    External(Seq<char>),
    Relative(Seq<char>),
}

/// The view of a link target.
pub open spec fn link_target_view(t: LinkTarget) -> LinkTargetView {
    match t {
        LinkTarget::Anchor(a) => LinkTargetView::Anchor(a@),
        LinkTarget::External(u) => LinkTargetView::External(u@),
        LinkTarget::Relative(u) => LinkTargetView::Relative(u@),
    }
}

/// An asset, as plain values.
pub struct AssetView {
    pub id: AssetId,
    pub media_type: Seq<char>,
    pub origin_part: Seq<char>,
    pub bytes: Seq<u8>,
}

/// The view of an asset.
pub open spec fn asset_view(a: Asset) -> AssetView {
    AssetView { id: a.id, media_type: a.media_type@, origin_part: a.origin_part@, bytes: a.bytes@ }
}

/// The view of a list of assets.
pub open spec fn assets_view(s: Seq<Asset>) -> Seq<AssetView> {
    s.map_values(|a: Asset| asset_view(a))
}

/// An attribute, as plain values.
pub struct AttrView {
    pub ns: Option<Seq<char>>,
    pub local: Seq<char>,
    pub value: Seq<char>,
}

/// A tree node, as plain values.
pub enum NodeView {
    Elem { depth: nat, ns: Option<Seq<char>>, local: Seq<char>, attrs: Seq<AttrView> },
    Text { depth: nat, text: Seq<char> },
}

/// The view of an optional string.
pub open spec fn opt_view(s: Option<String>) -> Option<Seq<char>> {
    match s {
        Some(x) => Some(x@),
        None => None,
    }
}

/// The view of an attribute.
pub open spec fn attr_view(a: Attr) -> AttrView {
    AttrView { ns: opt_view(a.ns), local: a.local@, value: a.value@ }
}

/// The view of a tree node.
pub open spec fn tree_node_view(n: Node) -> NodeView {
    match n {
        Node::Elem { depth, element } => NodeView::Elem {
            depth: depth as nat,
            ns: opt_view(element.ns),
            local: element.local@,
            attrs: element.attrs@.map_values(|a: Attr| attr_view(a)),
        },
        Node::Text { depth, text } => NodeView::Text { depth: depth as nat, text: text@ },
    }
}

/// The view of a tree.
pub open spec fn tree_view(nodes: Seq<Node>) -> Seq<NodeView> {
    nodes.map_values(|n: Node| tree_node_view(n))
}

/// The depth of a tree node.
pub open spec fn node_depth(n: NodeView) -> nat {
    match n {
        NodeView::Elem { depth, .. } => depth,
        NodeView::Text { depth, .. } => depth,
    }
}

} // verus!
