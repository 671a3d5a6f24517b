//! Resource limits shared by the frontends.
use vstd::prelude::*;

verus! {

/// Largest single decoded entry (an HTML input, a MIME part, a stylesheet).
pub const MAX_ENTRY_BYTES: u64 = 134217728;

/// Largest raw container accepted as a whole.
pub const MAX_TOTAL_BYTES: u64 = 536870912;

/// Largest total size of the embedded assets retained by one document.
pub const MAX_ASSET_TOTAL_BYTES: usize = 268435456;

/// Largest number of nodes (elements, text runs, comments) of one tree.
pub const MAX_XML_NODES: usize = 2000000;

/// Deepest element nesting accepted; the body element counts as depth 1.
pub const MAX_XML_DEPTH: usize = 256;

/// Deepest nesting of multipart MIME bodies.
pub const MAX_MIME_DEPTH: usize = 64;

} // verus!
