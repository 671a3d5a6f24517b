//! MHTML/MHT: a MIME `multipart/related` archive whose root part is an
//! HTML document and whose other parts are the stylesheets and images it
//! references.
use vstd::prelude::*;
use mail_parser::MimeHeaders;
use crate::error::{ConvertError, is_limit_error};
use crate::limits::{MAX_ENTRY_BYTES, MAX_ASSET_TOTAL_BYTES, MAX_TOTAL_BYTES};
use crate::mime::{push_range, starts_with_range};
use crate::model::{AssetId, ImageSource, LinkTarget};
use crate::text::{
    CharClass, chars_of, starts_with, string_of, trim, trim_indices, str_eq, cat, decimal,
    is_ascii_ws_byte, size_detail, size_detail_string, message_with_two_numbers,
};
use crate::uri::{absolute_uri, absolute_uri_chars, lookup_key, resolve_chars, resolved};
use crate::uri::{canonical, law_resolution_keeps_cid_and_absolute};
use crate::uri::{content_id_key, normalize_content_id, opt_view};
use crate::charset::{decode_html_with_charset, decoded_html, sniffed_charset, utf8_label};
use crate::text::{in_class, class_pred, trim_start_by, trim_end_by};
use vstd::utf8::{encode_utf8, valid_utf8};
use crate::dom::{DomNodeView, html_document, parse_html_document};
use crate::html::{
    Document, HtmlContext, StandaloneCtx, document_from_parsed_html, document_outcome, strings_view,
};
use crate::error::error_view;
use crate::dom::{find_named, root_element_from, subtree_end};
use crate::model::{AssetView, tree_view};
use crate::html::{style_texts, text_outcome};
use crate::resources::{is_image, lemma_image_scan_without_images, lemma_sheets_without_links};
use crate::mime::{allocation_preflight, preflight_base64_decoder_allocations, reports_failure};
use crate::model::{Asset, LinkTargetView, assets_view, link_target_view};
use crate::uri::{decode_fragment, fragment_decoded};
use crate::resources::{
    build_resource_index, collect_image_assets, collect_stylesheets_in_order, html_resource_base,
    image_scan, index_below, is_media_type, part_is_media_type, reports_image_failure,
    resource_base, resource_index, stylesheets_in_order,
};

verus! {

broadcast use vstd::seq_lib::group_seq_properties;

/// The first entry of an association list with the given key.
pub open spec fn assoc_lookup<T>(list: Seq<(Seq<char>, T)>, key: Seq<char>) -> Option<T>
    decreases list.len(),
{
    if list.len() == 0 {
        None
    } else if list[0].0 == key {
        Some(list[0].1)
    } else {
        assoc_lookup(list.drop_first(), key)
    }
}

/// The view of an association list keyed by strings.
pub open spec fn assoc_view<T>(list: Seq<(String, T)>) -> Seq<(Seq<char>, T)> {
    list.map_values(|e: (String, T)| (e.0@, e.1))
}

/// The first entry of an association list with the given key (`assoc_lookup`).
pub fn lookup<T: Copy>(list: &Vec<(String, T)>, key: &str) -> (r: Option<T>)
    ensures
        r == assoc_lookup(assoc_view(list@), key@),
{
    let ghost l = assoc_view(list@);
    let mut i: usize = 0;
    assert(l.subrange(0, l.len() as int) =~= l);
    while i < list.len()
        invariant
            i <= list@.len(),
            l == assoc_view(list@),
            assoc_lookup(l, key@) == assoc_lookup(l.subrange(i as int, l.len() as int), key@),
        decreases list@.len() - i,
    {
        let ghost rest = l.subrange(i as int, l.len() as int);
        assert(rest.drop_first() =~= l.subrange(i + 1, l.len() as int));
        assert(rest[0] == (list@[i as int].0@, list@[i as int].1));
        if str_eq(list[i].0.as_str(), key) {
            return Some(list[i].1);
        }
        i = i + 1;
    }
    None
}

/// The resolution context of an MHTML archive: the embedded images by
/// lookup key, and the base that references resolve against.
#[derive(Debug)]
pub struct MhtmlCtx {
    pub image_assets: Vec<(String, AssetId)>,
    pub resource_base: Option<String>,
}

/// The view of an optional string.
pub open spec fn opt_str_view(s: Option<String>) -> Option<Seq<char>> {
    match s {
        Some(x) => Some(x@),
        None => None,
    }
}

/// Where an image reference leads inside an archive.
pub open spec fn image_outcome(image_assets: Seq<(Seq<char>, AssetId)>, base: Option<Seq<char>>, src: Seq<char>) -> Option<ImageSourceView> {
    let s = trim(src);
    if s.len() == 0 {
        None
    } else {
        let reference = resolved(base, s);
        match assoc_lookup(image_assets, lookup_key(reference)) {
            Some(id) => Some(ImageSourceView::Asset(id)),
            None => if starts_with(reference, "cid:"@) {
                Some(ImageSourceView::Unavailable)
            } else if absolute_uri(reference) || starts_with(reference, "//"@) {
                Some(ImageSourceView::External(reference))
            } else {
                None
            },
        }
    }
}

/// An image source, as plain values.
pub enum ImageSourceView {
    Asset(AssetId),
    External(Seq<char>),
    Unavailable,
}

/// The view of an image source.
pub open spec fn image_source_view(s: ImageSource) -> ImageSourceView {
    match s {
        ImageSource::Asset(id) => ImageSourceView::Asset(id),
        ImageSource::External(u) => ImageSourceView::External(u@),
        ImageSource::Unavailable => ImageSourceView::Unavailable,
    }
}

/// Where a link in an archive leads: nothing for an empty `href`; an
/// anchor for a fragment (decoded, `fragment_decoded`); an external target
/// for an absolute URI; else a relative reference, all trimmed.
pub open spec fn link_outcome(href: Seq<char>) -> Option<LinkTargetView> {
    let h = trim(href);
    if h.len() == 0 {
        None
    } else if h[0] == '#' {
        Some(LinkTargetView::Anchor(fragment_decoded(h.drop_first())))
    } else if absolute_uri(h) {
        Some(LinkTargetView::External(h))
    } else {
        Some(LinkTargetView::Relative(h))
    }
}

impl MhtmlCtx {
    /// Where a link leads (`link_outcome`).
    pub fn link_target(&self, href: &str) -> (r: Option<LinkTarget>)
        ensures
            match r {
                Some(t) => link_outcome(href@) == Some(link_target_view(t)),
                None => link_outcome(href@) is None,
            },
    {
        let c = chars_of(href);
        let n = c.len();
        assert(c@.subrange(0, n as int) =~= c@);
        let (a, b) = trim_indices(c.as_slice(), 0, n, CharClass::Whitespace);
        if a == b {
            return None;
        }
        let mut t: Vec<char> = Vec::new();
        push_range(&mut t, c.as_slice(), a, b);
        if t[0] == '#' {
            let mut rest: Vec<char> = Vec::new();
            push_range(&mut rest, t.as_slice(), 1, t.len());
            assert(rest@ =~= t@.drop_first());
            let fragment = string_of(rest.as_slice());
            return Some(LinkTarget::Anchor(decode_fragment(fragment.as_str())));
        }
        if absolute_uri_chars(t.as_slice()) {
            Some(LinkTarget::External(string_of(t.as_slice())))
        } else {
            Some(LinkTarget::Relative(string_of(t.as_slice())))
        }
    }

    /// Where an image reference leads (`image_outcome`): an embedded asset,
    /// an unavailable embedded resource, an absolute or protocol-relative
    /// external URL, or nothing for an unresolvable relative reference.
    pub fn image_source(&self, src: &str) -> (r: Result<Option<ImageSource>, ConvertError>)
        ensures
            r matches Ok(o) && match o {
                Some(s) => image_outcome(assoc_view(self.image_assets@), opt_str_view(self.resource_base), src@)
                    == Some(image_source_view(s)),
                None => image_outcome(assoc_view(self.image_assets@), opt_str_view(self.resource_base), src@) is None,
            },
    {
        let c = chars_of(src);
        let n = c.len();
        assert(c@.subrange(0, n as int) =~= c@);
        let (a, b) = trim_indices(c.as_slice(), 0, n, CharClass::Whitespace);
        if a == b {
            return Ok(None);
        }
        let mut t: Vec<char> = Vec::new();
        push_range(&mut t, c.as_slice(), a, b);
        let reference = match &self.resource_base {
            Some(base) => {
                let bc = chars_of(base.as_str());
                resolve_chars(Some(bc.as_slice()), t.as_slice())
            },
            None => resolve_chars(None, t.as_slice()),
        };
        let rn = reference.len();
        assert(reference@.subrange(0, rn as int) =~= reference@);
        let reference_string = string_of(reference.as_slice());
        let key = crate::uri::resource_lookup_key(reference_string.as_str());
        if let Some(asset_id) = lookup(&self.image_assets, key) {
            return Ok(Some(ImageSource::Asset(asset_id)));
        }
        if starts_with_range(reference.as_slice(), 0, rn, "cid:") {
            return Ok(Some(ImageSource::Unavailable));
        }
        if absolute_uri_chars(reference.as_slice()) || starts_with_range(reference.as_slice(), 0, rn, "//") {
            return Ok(Some(ImageSource::External(reference_string)));
        }
        Ok(None)
    }

    /// The anchor identifier of a raw `id`: the text itself.
    pub fn anchor_id(&self, raw: &str) -> (r: String)
        ensures
            r@ == raw@,
    {
        raw.to_owned()
    }
}


/// A `Content-Type` header value: media type, subtype and parameters.
pub struct ContentType {
    pub ctype: String,
    pub subtype: Option<String>,
    pub attributes: Vec<(String, String)>,
}

/// A `Content-Type` header value, as plain values.
pub struct ContentTypeView {
    pub ctype: Seq<char>,
    pub subtype: Option<Seq<char>>,
    pub attributes: Seq<(Seq<char>, Seq<char>)>,
}

/// A part's transfer encoding.
#[derive(Clone, Copy, PartialEq, Eq, Structural)]
pub enum TransferEncoding {
    Identity,
    QuotedPrintable,
    Base64,
}

/// A MIME part: its headers of interest, the byte range of its encoded body
/// in the raw message, and its decoded contents.
pub struct MimePart {
    pub content_type: Option<ContentType>,
    pub content_id: Option<String>,
    pub content_location: Option<String>,
    pub encoding: TransferEncoding,
    pub offset_body: u32,
    pub offset_end: u32,
    /// The decoded body (`MessagePart::contents`).
    pub contents: Vec<u8>,
    /// The decoded body as text, when it is text (`MessagePart::text_contents`).
    pub text_contents: Option<String>,
}

/// A MIME part, as plain values.
pub struct MimePartView {
    pub content_type: Option<ContentTypeView>,
    pub content_id: Option<Seq<char>>,
    pub content_location: Option<Seq<char>>,
    pub encoding: TransferEncoding,
    pub offset_body: nat,
    pub offset_end: nat,
    pub contents: Seq<u8>,
    pub text_contents: Option<Seq<char>>,
}

/// The view of a content type.
pub open spec fn content_type_view(c: ContentType) -> ContentTypeView {
    ContentTypeView {
        ctype: c.ctype@,
        subtype: opt_str_view(c.subtype),
        attributes: c.attributes@.map_values(|a: (String, String)| (a.0@, a.1@)),
    }
}

/// The view of an optional content type.
pub open spec fn opt_content_type_view(c: Option<ContentType>) -> Option<ContentTypeView> {
    match c {
        Some(x) => Some(content_type_view(x)),
        None => None,
    }
}

/// The view of a part.
pub open spec fn part_view(p: MimePart) -> MimePartView {
    MimePartView {
        content_type: opt_content_type_view(p.content_type),
        content_id: opt_str_view(p.content_id),
        content_location: opt_str_view(p.content_location),
        encoding: p.encoding,
        offset_body: p.offset_body as nat,
        offset_end: p.offset_end as nat,
        contents: p.contents@,
        text_contents: opt_str_view(p.text_contents),
    }
}

/// The view of a list of parts.
pub open spec fn parts_view(parts: Seq<MimePart>) -> Seq<MimePartView> {
    parts.map_values(|p: MimePart| part_view(p))
}

/// The parts (the root part first) that `MessageParser::parse`, with MIME
/// headers enabled, finds in a raw message; none when it finds no message.
pub uninterp spec fn mime_parts(raw: Seq<u8>) -> Option<Seq<MimePartView>>;

/// What `base64_decode` makes of the bytes.
pub uninterp spec fn base64_decoded(bytes: Seq<u8>) -> Option<Seq<u8>>;

/// What `quoted_printable_decode` makes of the bytes.
pub uninterp spec fn quoted_printable_decoded(bytes: Seq<u8>) -> Option<Seq<u8>>;

/// `mail_parser::Message`, used only as an opaque handle.
#[verifier::external_type_specification]
#[verifier::external_body]
pub struct ExMessage<'x>(mail_parser::Message<'x>);

/// A parsed MIME message together with the raw bytes it was parsed from.
pub struct MimeArchive<'a> {
    raw: &'a [u8],
    message: mail_parser::Message<'a>,
}

impl<'a> View for MimeArchive<'a> {
    type V = Seq<u8>;

    closed spec fn view(&self) -> Seq<u8> {
        self.raw@
    }
}

impl<'a> MimeArchive<'a> {
    /// The parts of the archive (`mime_parts`).
    pub open spec fn parts(&self) -> Seq<MimePartView> {
        mime_parts(self@)->0
    }

    /// `MessageParser::new().with_mime_headers().parse`.
    #[verifier::external_body]
    pub(crate) fn parse(raw: &'a [u8]) -> (r: Option<MimeArchive<'a>>)
        ensures
            match r {
                Some(a) => a@ == raw@ && (mime_parts(raw@) matches Some(parts) && parts.len() > 0),
                None => mime_parts(raw@) is None,
            },
    {
        let message = mail_parser::MessageParser::new().with_mime_headers().parse(raw)?;
        Some(MimeArchive { raw, message })
    }

    /// The number of parts (`Message::parts`).
    #[verifier::external_body]
    pub(crate) fn part_count(&self) -> (r: usize)
        requires
            mime_parts(self@) is Some,
        ensures
            r == self.parts().len(),
    {
        self.message.parts.len()
    }

    /// `MimeHeaders::content_type` of part `i`.
    #[verifier::external_body]
    pub(crate) fn part_content_type(&self, i: usize) -> (r: Option<ContentType>)
        requires
            mime_parts(self@) is Some,
            i < self.parts().len(),
        ensures
            opt_content_type_view(r) == self.parts()[i as int].content_type,
    {
        self.message.parts[i].content_type().map(|c| ContentType {
            ctype: c.ctype().to_owned(),
            subtype: c.subtype().map(str::to_owned),
            attributes: c.attributes().unwrap_or_default().iter().map(|a| (a.name.to_string(), a.value.to_string())).collect(),
        })
    }

    /// `MimeHeaders::content_id` of part `i`.
    #[verifier::external_body]
    pub(crate) fn part_content_id(&self, i: usize) -> (r: Option<String>)
        requires
            mime_parts(self@) is Some,
            i < self.parts().len(),
        ensures
            opt_str_view(r) == self.parts()[i as int].content_id,
    {
        self.message.parts[i].content_id().map(str::to_owned)
    }

    /// `MimeHeaders::content_location` of part `i`.
    #[verifier::external_body]
    pub(crate) fn part_content_location(&self, i: usize) -> (r: Option<String>)
        requires
            mime_parts(self@) is Some,
            i < self.parts().len(),
        ensures
            opt_str_view(r) == self.parts()[i as int].content_location,
    {
        self.message.parts[i].content_location().map(str::to_owned)
    }

    /// The transfer encoding of part `i` (`MessagePart::encoding`).
    #[verifier::external_body]
    pub(crate) fn part_encoding(&self, i: usize) -> (r: TransferEncoding)
        requires
            mime_parts(self@) is Some,
            i < self.parts().len(),
        ensures
            r == self.parts()[i as int].encoding,
    {
        match self.message.parts[i].encoding {
            mail_parser::Encoding::None => TransferEncoding::Identity,
            mail_parser::Encoding::QuotedPrintable => TransferEncoding::QuotedPrintable,
            mail_parser::Encoding::Base64 => TransferEncoding::Base64,
        }
    }

    /// The body byte range of part `i` (`offset_body`, `offset_end`).
    #[verifier::external_body]
    pub(crate) fn part_body_range(&self, i: usize) -> (r: (u32, u32))
        requires
            mime_parts(self@) is Some,
            i < self.parts().len(),
        ensures
            r.0 == self.parts()[i as int].offset_body,
            r.1 == self.parts()[i as int].offset_end,
    {
        (self.message.parts[i].offset_body, self.message.parts[i].offset_end)
    }

    /// `MessagePart::contents` of part `i`.
    #[verifier::external_body]
    pub(crate) fn part_contents(&self, i: usize) -> (r: Vec<u8>)
        requires
            mime_parts(self@) is Some,
            i < self.parts().len(),
        ensures
            r@ == self.parts()[i as int].contents,
    {
        self.message.parts[i].contents().to_vec()
    }

    /// `MessagePart::text_contents` of part `i`.
    #[verifier::external_body]
    pub(crate) fn part_text_contents(&self, i: usize) -> (r: Option<String>)
        requires
            mime_parts(self@) is Some,
            i < self.parts().len(),
        ensures
            opt_str_view(r) == self.parts()[i as int].text_contents,
    {
        self.message.parts[i].text_contents().map(str::to_owned)
    }
}

/// `base64_decode`: the base64 body decoded, none when it is invalid.
#[verifier::external_body]
fn base64_decode(bytes: &[u8]) -> (r: Option<Vec<u8>>)
    ensures
        match r {
            Some(v) => base64_decoded(bytes@) == Some(v@),
            None => base64_decoded(bytes@) is None,
        },
{
    mail_parser::decoders::base64::base64_decode(bytes)
}

/// `quoted_printable_decode`: the quoted-printable body decoded, none when
/// it is invalid.
#[verifier::external_body]
fn quoted_printable_decode(bytes: &[u8]) -> (r: Option<Vec<u8>>)
    ensures
        match r {
            Some(v) => quoted_printable_decoded(bytes@) == Some(v@),
            None => quoted_printable_decoded(bytes@) is None,
        },
{
    mail_parser::decoders::quoted_printable::quoted_printable_decode(bytes)
}


/// All parts of a parsed archive, as plain values.
pub fn load_parts(archive: &MimeArchive) -> (r: Vec<MimePart>)
    requires
        mime_parts(archive@) is Some,
    ensures
        parts_view(r@) == archive.parts(),
{
    let n = archive.part_count();
    let mut parts: Vec<MimePart> = Vec::new();
    let mut i: usize = 0;
    while i < n
        invariant
            mime_parts(archive@) is Some,
            n == archive.parts().len(),
            i <= n,
            parts_view(parts@) == archive.parts().subrange(0, i as int),
        decreases n - i,
    {
        let (offset_body, offset_end) = archive.part_body_range(i);
        let part = MimePart {
            content_type: archive.part_content_type(i),
            content_id: archive.part_content_id(i),
            content_location: archive.part_content_location(i),
            encoding: archive.part_encoding(i),
            offset_body,
            offset_end,
            contents: archive.part_contents(i),
            text_contents: archive.part_text_contents(i),
        };
        assert(part_view(part) == archive.parts()[i as int]);
        let ghost before = parts_view(parts@);
        parts.push(part);
        assert(parts_view(parts@) =~= before.push(part_view(part)));
        assert(archive.parts().subrange(0, i + 1) =~= archive.parts().subrange(0, i as int).push(archive.parts()[i as int]));
        i = i + 1;
    }
    assert(archive.parts().subrange(0, n as int) =~= archive.parts());
    parts
}


/// Keeps the bytes that are not ASCII whitespace.
pub open spec fn not_ascii_ws_byte() -> spec_fn(u8) -> bool {
    |b: u8| !is_ascii_ws_byte(b)
}

/// The most bytes a base64 body can decode to: three per four symbols,
/// whitespace not counted, rounding up (saturating as `u64` does).
pub open spec fn base64_upper_bound(raw: Seq<u8>) -> nat {
    let symbols = raw.filter(not_ascii_ws_byte()).len();
    let padded = if symbols + 3 > u64::MAX {
        u64::MAX as nat
    } else {
        symbols + 3
    };
    (padded / 4) * 3
}

/// The most bytes a base64 body can decode to (`base64_upper_bound`).
pub fn base64_decoded_upper_bound(raw: &[u8]) -> (r: u64)
    ensures
        r == base64_upper_bound(raw@),
{
    let mut symbols: u64 = 0;
    let mut i: usize = 0;
    while i < raw.len()
        invariant
            i <= raw@.len(),
            symbols == raw@.subrange(0, i as int).filter(not_ascii_ws_byte()).len(),
            symbols <= i,
        decreases raw@.len() - i,
    {
        let b = raw[i];
        let ghost t = raw@.subrange(0, i + 1);
        assert(t.drop_last() =~= raw@.subrange(0, i as int));
        reveal_with_fuel(Seq::filter, 1);
        if !(b == 32u8 || b == 9u8 || b == 10u8 || b == 12u8 || b == 13u8) {
            symbols = symbols + 1;
        }
        i = i + 1;
    }
    assert(raw@.subrange(0, i as int) =~= raw@);
    let padded = symbols.saturating_add(3);
    (padded / 4) * 3
}

/// Why decoding a part's body failed.
pub enum PartFailure {
    /// The part's byte range does not lie in the message.
    Range,
    /// A body of `size` bytes, described by `kind`, exceeds `MAX_ENTRY_BYTES`.
    Size { kind: Seq<char>, size: nat },
    /// The quoted-printable body is invalid.
    QuotedPrintable,
    /// A base64 body can decode to `bound` bytes, over `MAX_ENTRY_BYTES`.
    Bound { bound: nat },
    /// The base64 body is invalid.
    Base64,
}

/// A part's body decoded from its transfer encoding, each stage checked
/// against `MAX_ENTRY_BYTES`.
pub open spec fn transfer_decoded(raw: Seq<u8>, part: MimePartView) -> Result<Seq<u8>, PartFailure> {
    let ob = part.offset_body as int;
    let oe = part.offset_end as int;
    if !(ob <= oe && oe <= raw.len()) {
        Err(PartFailure::Range)
    } else {
        let body = raw.subrange(ob, oe);
        let decoded = match part.encoding {
            TransferEncoding::Identity => if body.len() > MAX_ENTRY_BYTES {
                Err(PartFailure::Size { kind: "body"@, size: body.len() })
            } else {
                Ok(body)
            },
            TransferEncoding::QuotedPrintable => if body.len() > MAX_ENTRY_BYTES {
                Err(PartFailure::Size { kind: "quoted-printable encoded body"@, size: body.len() })
            } else {
                match quoted_printable_decoded(body) {
                    Some(d) => Ok(d),
                    None => Err(PartFailure::QuotedPrintable),
                }
            },
            TransferEncoding::Base64 => if base64_upper_bound(body) > MAX_ENTRY_BYTES {
                Err(PartFailure::Bound { bound: base64_upper_bound(body) })
            } else {
                match base64_decoded(body) {
                    Some(d) => Ok(d),
                    None => Err(PartFailure::Base64),
                }
            },
        };
        match decoded {
            Err(f) => Err(f),
            Ok(d) => if d.len() > MAX_ENTRY_BYTES {
                Err(PartFailure::Size { kind: "decoded body"@, size: d.len() })
            } else {
                Ok(d)
            },
        }
    }
}

/// The error is the malformed-input error with the message.
pub open spec fn is_malformed_with(e: ConvertError, message: Seq<char>) -> bool {
    e matches ConvertError::Malformed(m) && m@ == message
}

/// The error reports the part failure, for the part called `label`.
pub open spec fn reports_part_failure(e: ConvertError, label: Seq<char>, f: PartFailure) -> bool {
    match f {
        PartFailure::Range => is_malformed_with(e, "MHTML "@ + label + " byte range is invalid"@),
        PartFailure::Size { kind, size } => is_limit_error(e, "max_entry_bytes"@) && (e matches ConvertError::ResourceLimit { detail, .. } && detail@ == size_detail("MHTML "@ + label + " "@ + kind, size, MAX_ENTRY_BYTES as nat)),
        PartFailure::QuotedPrintable => is_malformed_with(e, "MHTML "@ + label + " quoted-printable body is invalid"@),
        PartFailure::Bound { bound } => is_limit_error(e, "max_entry_bytes"@) && (e matches ConvertError::ResourceLimit { detail, .. } && detail@ == "MHTML "@ + label + " base64 body can decode to at most "@ + decimal(bound) + " bytes; maximum is "@ + decimal(MAX_ENTRY_BYTES as nat)),
        PartFailure::Base64 => is_malformed_with(e, "MHTML "@ + label + " base64 body is invalid"@),
    }
}

/// "MHTML `label``tail`" as a malformed-input error.
fn malformed_part(label: &str, tail: &str) -> (e: ConvertError)
    ensures
        is_malformed_with(e, "MHTML "@ + label@ + tail@),
{
    let m = cat(cat(String::from_str("MHTML "), label), tail);
    ConvertError::Malformed(m)
}

/// Reject a part body of `size` bytes over `MAX_ENTRY_BYTES`.
pub fn enforce_part_size(size: usize, label: &str, kind: &str) -> (r: Result<(), ConvertError>)
    ensures
        size > MAX_ENTRY_BYTES ==> (r matches Err(e) && reports_part_failure(
            e,
            label@,
            PartFailure::Size { kind: kind@, size: size as nat },
        )),
        size <= MAX_ENTRY_BYTES ==> r is Ok,
{
    if size as u64 > MAX_ENTRY_BYTES {
        let subject = cat(cat(cat(String::from_str("MHTML "), label), " "), kind);
        return Err(
            ConvertError::ResourceLimit {
                limit: "max_entry_bytes",
                detail: size_detail_string(subject.as_str(), size as u128, MAX_ENTRY_BYTES as u128),
            },
        );
    }
    Ok(())
}

/// Decode a part's body from its transfer encoding (`transfer_decoded`).
pub fn transfer_decoded_part_bytes(raw: &[u8], part: &MimePart, label: &str) -> (r: Result<Vec<u8>, ConvertError>)
    ensures
        match transfer_decoded(raw@, part_view(*part)) {
            Ok(d) => r matches Ok(v) && v@ == d,
            Err(f) => r matches Err(e) && reports_part_failure(e, label@, f),
        },
{
    let ob = part.offset_body as usize;
    let oe = part.offset_end as usize;
    if !(ob <= oe && oe <= raw.len()) {
        return Err(malformed_part(label, " byte range is invalid"));
    }
    let body = vstd::slice::slice_subrange(raw, ob, oe);
    let decoded = match part.encoding {
        TransferEncoding::Identity => {
            match enforce_part_size(body.len(), label, "body") {
                Err(e) => return Err(e),
                Ok(()) => {},
            }
            vstd::slice::slice_to_vec(body)
        },
        TransferEncoding::QuotedPrintable => {
            match enforce_part_size(body.len(), label, "quoted-printable encoded body") {
                Err(e) => return Err(e),
                Ok(()) => {},
            }
            match quoted_printable_decode(body) {
                Some(d) => d,
                None => return Err(malformed_part(label, " quoted-printable body is invalid")),
            }
        },
        TransferEncoding::Base64 => {
            let upper_bound = base64_decoded_upper_bound(body);
            if upper_bound > MAX_ENTRY_BYTES {
                let subject = cat(cat(String::from_str("MHTML "), label), " base64 body can decode to at most ");
                let detail = message_with_two_numbers(
                    subject.as_str(),
                    upper_bound as u128,
                    " bytes; maximum is ",
                    MAX_ENTRY_BYTES as u128,
                    "",
                );
                proof {
                    reveal_strlit("");
                    assert(detail@ =~= "MHTML "@ + label@ + " base64 body can decode to at most "@
                        + decimal(upper_bound as nat) + " bytes; maximum is "@ + decimal(MAX_ENTRY_BYTES as nat));
                }
                return Err(ConvertError::ResourceLimit { limit: "max_entry_bytes", detail: detail });
            }
            match base64_decode(body) {
                Some(d) => d,
                None => return Err(malformed_part(label, " base64 body is invalid")),
            }
        },
    };
    match enforce_part_size(decoded.len(), label, "decoded body") {
        Err(e) => return Err(e),
        Ok(()) => {},
    }
    Ok(decoded)
}

/// The value of the content type's first parameter called `name`
/// (`ContentType::attribute`).
pub open spec fn attribute(ct: Option<ContentTypeView>, name: Seq<char>) -> Option<Seq<char>> {
    match ct {
        Some(c) => assoc_lookup(c.attributes, name),
        None => None,
    }
}

/// The value of the content type's first parameter called `name` (`attribute`).
pub fn attribute_of<'a>(ct: &'a ContentType, name: &str) -> (r: Option<&'a String>)
    ensures
        match r {
            Some(v) => attribute(Some(content_type_view(*ct)), name@) == Some(v@),
            None => attribute(Some(content_type_view(*ct)), name@) is None,
        },
{
    let ghost l = content_type_view(*ct).attributes;
    let mut i: usize = 0;
    assert(l.subrange(0, l.len() as int) =~= l);
    while i < ct.attributes.len()
        invariant
            i <= ct.attributes@.len(),
            l == content_type_view(*ct).attributes,
            l.len() == ct.attributes@.len(),
            assoc_lookup(l, name@) == assoc_lookup(l.subrange(i as int, l.len() as int), name@),
        decreases ct.attributes@.len() - i,
    {
        let ghost rest = l.subrange(i as int, l.len() as int);
        assert(rest.drop_first() =~= l.subrange(i + 1, l.len() as int));
        assert(rest[0] == (ct.attributes@[i as int].0@, ct.attributes@[i as int].1@));
        if str_eq(ct.attributes[i].0.as_str(), name) {
            return Some(&ct.attributes[i].1);
        }
        i = i + 1;
    }
    None
}

/// The Content-ID that the root's `start` parameter names, normalized.
pub open spec fn start_id(root: MimePartView) -> Option<Seq<char>> {
    match attribute(root.content_type, "start"@) {
        Some(s) => Some(content_id_key(s)),
        None => None,
    }
}

/// The part can be the HTML root: it is `text/html`, and when a start
/// Content-ID is given, its own normalized Content-ID is that one.
pub open spec fn is_html_root(p: MimePartView, start: Option<Seq<char>>) -> bool {
    &&& is_media_type(p, "text"@, "html"@)
    &&& match start {
        Some(s) => p.content_id matches Some(c) && content_id_key(c) == s,
        None => true,
    }
}

/// The first part from `j` on that can be the HTML root.
pub open spec fn html_root_from(parts: Seq<MimePartView>, start: Option<Seq<char>>, j: int) -> Option<int>
    decreases parts.len() - j,
{
    if j < 0 || j >= parts.len() {
        None
    } else if is_html_root(parts[j], start) {
        Some(j)
    } else {
        html_root_from(parts, start, j + 1)
    }
}

/// The first part that can be the HTML root (`html_root_from`).
fn find_html_root(parts: &Vec<MimePart>, start: &Option<String>) -> (r: Option<usize>)
    ensures
        match r {
            Some(h) => html_root_from(parts_view(parts@), opt_str_view(*start), 0) == Some(h as int) && h < parts@.len(),
            None => html_root_from(parts_view(parts@), opt_str_view(*start), 0) is None,
        },
{
    let ghost pv = parts_view(parts@);
    let mut j: usize = 0;
    while j < parts.len()
        invariant
            j <= parts@.len(),
            pv == parts_view(parts@),
            html_root_from(pv, opt_str_view(*start), 0) == html_root_from(pv, opt_str_view(*start), j as int),
        decreases parts@.len() - j,
    {
        let p = &parts[j];
        assert(pv[j as int] == part_view(*p));
        if part_is_media_type(p, "text", "html") {
            let matches_start = match start {
                None => true,
                Some(s) => match &p.content_id {
                    Some(c) => {
                        let id = normalize_content_id(c.as_str());
                        str_eq(id.as_str(), s.as_str())
                    },
                    None => false,
                },
            };
            if matches_start {
                return Some(j);
            }
        }
        j = j + 1;
    }
    None
}

/// Why an archive has no HTML text to convert.
pub enum ArchiveFailure {
    /// The root part is not `multipart/related`.
    NotRelated,
    /// No part can be the HTML root.
    NoHtmlRoot,
    /// The HTML root's body could not be decoded.
    Part(PartFailure),
}

/// The error reports the archive failure.
pub open spec fn reports_archive_failure(e: ConvertError, f: ArchiveFailure) -> bool {
    match f {
        ArchiveFailure::NotRelated => is_malformed_with(e, "MHTML root is not multipart/related"@),
        ArchiveFailure::NoHtmlRoot => is_malformed_with(e, "MHTML contains no HTML root part"@),
        ArchiveFailure::Part(pf) => reports_part_failure(e, "HTML root"@, pf),
    }
}

/// The HTML root part of an archive and its text: the body decoded from
/// its transfer encoding, then from its charset (`decoded_html`, the
/// part's `charset` parameter as the declared one).
pub open spec fn html_root_text(raw: Seq<u8>, parts: Seq<MimePartView>) -> Result<(int, Seq<char>), ArchiveFailure> {
    if !is_media_type(parts[0], "multipart"@, "related"@) {
        Err(ArchiveFailure::NotRelated)
    } else {
        match html_root_from(parts, start_id(parts[0]), 0) {
            None => Err(ArchiveFailure::NoHtmlRoot),
            Some(h) => match transfer_decoded(raw, parts[h]) {
                Err(f) => Err(ArchiveFailure::Part(f)),
                Ok(d) => Ok((h, decoded_html(d, attribute(parts[h].content_type, "charset"@)))),
            },
        }
    }
}

/// What the document of a parsed HTML root is: the base from the document
/// and the root's location, the stylesheets in order, the images, then the
/// document (`document_outcome`) with the archive's resolution context.
pub open spec fn assembled(
    v: Seq<DomNodeView>,
    parts: Seq<MimePartView>,
    root_location: Option<Seq<char>>,
    r: Result<Document, ConvertError>,
) -> bool {
    let base = resource_base(v, root_location);
    let index = resource_index(parts, base, parts.len() as int);
    match stylesheets_in_order(v, parts, index, base) {
        Err(size) => r matches Err(e) && is_limit_error(e, "max_entry_bytes"@) && (e matches ConvertError::ResourceLimit { detail, .. }
            && detail@ == size_detail("MHTML stylesheet"@, size, MAX_ENTRY_BYTES as nat)),
        Ok(css) => match image_scan(parts, base, parts.len() as int) {
            Err(f) => r matches Err(e) && reports_image_failure(e, f),
            Ok(scan) => exists|ctx: MhtmlCtx, assets: Seq<Asset>|
                assoc_view(ctx.image_assets@) == scan.keys && opt_str_view(ctx.resource_base) == base
                    && assets_view(assets) == scan.assets
                    && document_outcome(v, Some(css), HtmlContext::Mhtml(ctx), assets, r),
        },
    }
}

/// Convert an archive from its parsed parts: find the HTML root, decode
/// it (`html_root_text`), run `preflight` on its text (its error, if any,
/// is the result), then parse it and assemble the document (`assembled`).
pub fn document_from_parts<P: Fn(&str) -> Result<(), ConvertError>>(
    raw: &[u8],
    parts: &Vec<MimePart>,
    preflight: &P,
) -> (r: Result<Document, ConvertError>)
    requires
        parts@.len() > 0,
        forall|t: &str| preflight.requires((t,)),
    ensures
        match html_root_text(raw@, parts_view(parts@)) {
            Err(f) => r matches Err(e) && reports_archive_failure(e, f),
            Ok((h, text)) => exists|t: &str, pre: Result<(), ConvertError>|
                t@ == text && preflight.ensures((t,), pre) && match pre {
                    Err(e) => r == Err::<Document, ConvertError>(e),
                    Ok(_) => assembled(html_document(text), parts_view(parts@), parts_view(parts@)[h].content_location, r),
                },
        },
{
    let ghost pv = parts_view(parts@);
    let root = &parts[0];
    assert(pv[0] == part_view(*root));
    if !part_is_media_type(root, "multipart", "related") {
        return Err(ConvertError::malformed("MHTML root is not multipart/related"));
    }
    let start: Option<String> = match &root.content_type {
        Some(ct) => match attribute_of(ct, "start") {
            Some(s) => Some(normalize_content_id(s.as_str())),
            None => None,
        },
        None => None,
    };
    assert(opt_str_view(start) == start_id(pv[0]));
    let h = match find_html_root(parts, &start) {
        Some(h) => h,
        None => return Err(ConvertError::malformed("MHTML contains no HTML root part")),
    };
    let html_part = &parts[h];
    assert(pv[h as int] == part_view(*html_part));
    let html_bytes = match transfer_decoded_part_bytes(raw, html_part, "HTML root") {
        Ok(b) => b,
        Err(e) => return Err(e),
    };
    let charset: Option<&str> = match &html_part.content_type {
        Some(ct) => match attribute_of(ct, "charset") {
            Some(c) => Some(c.as_str()),
            None => None,
        },
        None => None,
    };
    let html = decode_html_with_charset(html_bytes.as_slice(), charset);
    let pre = preflight(html.as_str());
    match pre {
        Err(e) => {
            return Err(e);
        },
        Ok(()) => {},
    }
    let nodes = parse_html_document(html.as_str());
    let root_location: Option<&str> = match &html_part.content_location {
        Some(l) => Some(l.as_str()),
        None => None,
    };
    let resource_base = html_resource_base(nodes.as_slice(), root_location);
    let base_ref: Option<&str> = match &resource_base {
        Some(b) => Some(b.as_str()),
        None => None,
    };
    assert(opt_view(base_ref) == opt_str_view(resource_base));
    let index = build_resource_index(parts, base_ref);
    let stylesheets = match collect_stylesheets_in_order(nodes.as_slice(), parts, &index, base_ref) {
        Ok(s) => s,
        Err(e) => return Err(e),
    };
    let (assets, image_assets) = match collect_image_assets(parts, base_ref) {
        Ok(x) => x,
        Err(e) => return Err(e),
    };
    let ctx = MhtmlCtx { image_assets, resource_base };
    document_from_parsed_html(nodes.as_slice(), Some(stylesheets), HtmlContext::Mhtml(ctx), assets)
}

/// Parse an MHTML archive: at most `MAX_TOTAL_BYTES` bytes; the decoder
/// allocation preflight (`allocation_preflight`) before any MIME parsing;
/// the MIME parse (`mime_parts`); then the document from its parts
/// (`document_from_parts`).
pub fn parse<P: Fn(&str) -> Result<(), ConvertError>>(bytes: &[u8], preflight: P) -> (r: Result<Document, ConvertError>)
    requires
        forall|t: &str| preflight.requires((t,)),
    ensures
        bytes@.len() > MAX_TOTAL_BYTES ==> (r matches Err(e) && is_limit_error(e, "max_total_bytes"@) && (
        e matches ConvertError::ResourceLimit { detail, .. } && detail@ == size_detail(
            "MHTML input"@,
            bytes@.len(),
            MAX_TOTAL_BYTES as nat,
        ))),
        bytes@.len() <= MAX_TOTAL_BYTES ==> match allocation_preflight(bytes@, MAX_ENTRY_BYTES as nat) {
            Some(f) => r matches Err(e) && reports_failure(e, f),
            None => match mime_parts(bytes@) {
                None => r matches Err(e) && is_malformed_with(e, "MHTML MIME structure could not be parsed"@),
                Some(parts) => match html_root_text(bytes@, parts) {
                    Err(f) => r matches Err(e) && reports_archive_failure(e, f),
                    Ok((h, text)) => exists|t: &str, pre: Result<(), ConvertError>|
                        t@ == text && preflight.ensures((t,), pre) && match pre {
                            Err(e) => r == Err::<Document, ConvertError>(e),
                            Ok(_) => assembled(html_document(text), parts, parts[h].content_location, r),
                        },
                },
            },
        },
{
    if bytes.len() as u64 > MAX_TOTAL_BYTES {
        return Err(
            ConvertError::ResourceLimit {
                limit: "max_total_bytes",
                detail: size_detail_string("MHTML input", bytes.len() as u128, MAX_TOTAL_BYTES as u128),
            },
        );
    }
    match preflight_base64_decoder_allocations(bytes) {
        Err(e) => return Err(e),
        Ok(()) => {},
    }
    let archive = match MimeArchive::parse(bytes) {
        Some(a) => a,
        None => return Err(ConvertError::malformed("MHTML MIME structure could not be parsed")),
    };
    let parts = load_parts(&archive);
    document_from_parts(bytes, &parts, &preflight)
}

/// Law: a part body that decodes is at most `MAX_ENTRY_BYTES` bytes long,
/// whatever its transfer encoding.
pub proof fn law_decoded_part_within_entry_limit(raw: Seq<u8>, part: MimePartView)
    ensures
        transfer_decoded(raw, part) matches Ok(d) ==> d.len() <= MAX_ENTRY_BYTES,
{
}

/// The documents have the same body tree (or both none).
pub open spec fn same_body(a: Document, b: Document) -> bool {
    match (a.body, b.body) {
        (Some(x), Some(y)) => tree_view(x@) == tree_view(y@),
        (None, None) => true,
        _ => false,
    }
}

/// Law: a resource-free HTML document converts the same inside an archive
/// as on its own. When the parsed document has no `link` element and no
/// part of the archive is an image, the archive's document has the same
/// body tree and stylesheets as the standalone one and no assets, and the
/// two fail alike.
pub proof fn law_resource_free_archive_matches_standalone(
    v: Seq<DomNodeView>,
    parts: Seq<MimePartView>,
    root_location: Option<Seq<char>>,
    standalone: Result<Document, ConvertError>,
    archive: Result<Document, ConvertError>,
)
    requires
        find_named(v, "link"@) is None,
        forall|i: int| 0 <= i < parts.len() ==> !is_image(#[trigger] parts[i]),
        document_outcome(v, None, HtmlContext::Standalone(StandaloneCtx), Seq::empty(), standalone),
        assembled(v, parts, root_location, archive),
    ensures
        standalone is Ok <==> archive is Ok,
        standalone matches Ok(d1) ==> (archive matches Ok(d2) && same_body(d1, d2) && strings_view(
            d1.stylesheets@,
        ) == strings_view(d2.stylesheets@) && d2.assets@.len() == 0),
        standalone matches Err(e1) ==> (archive matches Err(e2) && error_view(e1) == error_view(e2)),
{
    let base = resource_base(v, root_location);
    let index = resource_index(parts, base, parts.len() as int);
    match root_element_from(v, 0) {
        Some(r) => {
            lemma_sheets_without_links(v, parts, index, base, r, subtree_end(v, r));
        },
        None => {},
    }
    lemma_image_scan_without_images(parts, base, parts.len() as int);
    let (ctx, assets) = choose|ctx: MhtmlCtx, assets: Seq<Asset>|
        assoc_view(ctx.image_assets@) == Seq::<(Seq<char>, AssetId)>::empty() && opt_str_view(ctx.resource_base) == base
            && assets_view(assets) == Seq::<AssetView>::empty()
            && document_outcome(v, Some(style_texts(v)), HtmlContext::Mhtml(ctx), assets, archive);
    assert(assets.len() == assets_view(assets).len());
}

/// Lemma: the declared label `utf-8` names UTF-8.
proof fn lemma_utf8_label()
    ensures
        encode_utf8(trim("utf-8"@)) == utf8_label(),
{
    reveal_strlit("utf-8");
    let l = "utf-8"@;
    assert(!in_class(CharClass::Whitespace, l[0]));
    assert(trim_start_by(l, class_pred(CharClass::Whitespace)) == l);
    assert(!in_class(CharClass::Whitespace, l.last()));
    assert(trim_end_by(l, class_pred(CharClass::Whitespace)) == l);
    assert(trim(l) == l);
    assert(vstd::utf8::is_ascii_chars(l));
    vstd::utf8::is_ascii_chars_encode_utf8(l);
    assert(encode_utf8(l) =~= utf8_label());
}

/// Law: an archive root declared `charset=utf-8` decodes to the same text
/// as its bytes do standing alone, when they are valid UTF-8 and declare
/// no other encoding in a `<meta>` element.
pub proof fn law_utf8_root_decodes_as_standalone(h: Seq<u8>)
    requires
        valid_utf8(h),
        sniffed_charset(h) is None || sniffed_charset(h) == Some("UTF-8"@),
    ensures
        decoded_html(h, Some("utf-8"@)) == decoded_html(h, None),
{
    lemma_utf8_label();
}

/// Law: the HTML root of an archive, when it is declared `charset=utf-8`
/// and its body decodes from its transfer encoding to valid UTF-8 bytes
/// `h` without another `<meta>` encoding, has the text that `h` has as a
/// standalone page (`decoded_html(h, None)`, what `html::parse` parses).
pub proof fn law_utf8_root_text_matches_standalone(raw: Seq<u8>, parts: Seq<MimePartView>, k: int, h: Seq<u8>)
    requires
        parts.len() > 0,
        is_media_type(parts[0], "multipart"@, "related"@),
        html_root_from(parts, start_id(parts[0]), 0) == Some(k),
        attribute(parts[k].content_type, "charset"@) == Some("utf-8"@),
        transfer_decoded(raw, parts[k]) == Ok::<Seq<u8>, PartFailure>(h),
        valid_utf8(h),
        sniffed_charset(h) is None || sniffed_charset(h) == Some("UTF-8"@),
    ensures
        html_root_text(raw, parts) == Ok::<(int, Seq<char>), ArchiveFailure>((k, decoded_html(h, None))),
{
    law_utf8_root_decodes_as_standalone(h);
}

/// Law: wrapping a resource-free UTF-8 page in an archive converts it the
/// same. The archive's HTML root is declared `charset=utf-8` and decodes
/// to the page's bytes `h` (valid UTF-8, no other `<meta>` encoding), the
/// parsed page has no `link` element and no part is an image. When the
/// preflight answers the same on the same text, the archive's document has
/// the standalone document's body tree and stylesheets and no assets, and
/// the two fail alike.
pub proof fn law_resource_free_page_converts_the_same_in_an_archive(
    raw: Seq<u8>,
    parts: Seq<MimePartView>,
    k: int,
    h: Seq<u8>,
    pre: Result<(), ConvertError>,
    standalone: Result<Document, ConvertError>,
    archive: Result<Document, ConvertError>,
)
    requires
        parts.len() > 0,
        is_media_type(parts[0], "multipart"@, "related"@),
        html_root_from(parts, start_id(parts[0]), 0) == Some(k),
        attribute(parts[k].content_type, "charset"@) == Some("utf-8"@),
        transfer_decoded(raw, parts[k]) == Ok::<Seq<u8>, PartFailure>(h),
        valid_utf8(h),
        sniffed_charset(h) is None || sniffed_charset(h) == Some("UTF-8"@),
        find_named(html_document(decoded_html(h, None)), "link"@) is None,
        forall|i: int| 0 <= i < parts.len() ==> !is_image(#[trigger] parts[i]),
        text_outcome(decoded_html(h, None), pre, None, HtmlContext::Standalone(StandaloneCtx), Seq::empty(), standalone),
        match pre {
            Err(e) => archive == Err::<Document, ConvertError>(e),
            Ok(_) => assembled(html_document(decoded_html(h, None)), parts, parts[k].content_location, archive),
        },
    ensures
        html_root_text(raw, parts) == Ok::<(int, Seq<char>), ArchiveFailure>((k, decoded_html(h, None))),
        standalone is Ok <==> archive is Ok,
        standalone matches Ok(d1) ==> (archive matches Ok(d2) && same_body(d1, d2) && strings_view(
            d1.stylesheets@,
        ) == strings_view(d2.stylesheets@) && d2.assets@.len() == 0),
        standalone matches Err(e1) ==> (archive matches Err(e2) && error_view(e1) == error_view(e2)),
{
    law_utf8_root_text_matches_standalone(raw, parts, k, h);
    if pre is Ok {
        law_resource_free_archive_matches_standalone(
            html_document(decoded_html(h, None)),
            parts,
            parts[k].content_location,
            standalone,
            archive,
        );
    }
}

/// Law: where an image reference leads, case by case. With `r` the trimmed
/// reference resolved against the base: nothing for a blank reference; the
/// embedded asset whose key matches `r` (fragment left out); failing that,
/// an unavailable resource for a `cid:` reference, an external image for an
/// absolute or protocol-relative `r`, and nothing for anything else. In
/// particular an absolute URL that no part embeds stays an external image,
/// in canonical form, whatever the base.
pub proof fn law_image_outcome_cases(keys: Seq<(Seq<char>, AssetId)>, base: Option<Seq<char>>, src: Seq<char>)
    ensures
        trim(src).len() == 0 ==> image_outcome(keys, base, src) is None,
        trim(src).len() > 0 ==> {
            let r = resolved(base, trim(src));
            match assoc_lookup(keys, lookup_key(r)) {
                Some(id) => image_outcome(keys, base, src) == Some(ImageSourceView::Asset(id)),
                None => {
                    &&& starts_with(r, "cid:"@) ==> image_outcome(keys, base, src) == Some(ImageSourceView::Unavailable)
                    &&& !starts_with(r, "cid:"@) && (absolute_uri(r) || starts_with(r, "//"@)) ==> image_outcome(keys, base, src)
                        == Some(ImageSourceView::External(r))
                    &&& !starts_with(r, "cid:"@) && !absolute_uri(r) && !starts_with(r, "//"@) ==> image_outcome(keys, base, src)
                        is None
                },
            }
        },
        ({
            let c = canonical(trim(src));
            trim(src).len() > 0 && absolute_uri(c) && !starts_with(c, "cid:"@) && assoc_lookup(keys, lookup_key(c)) is None
                ==> image_outcome(keys, base, src) == Some(ImageSourceView::External(c))
        }),
{
    law_resolution_keeps_cid_and_absolute(base, trim(src));
}

} // verus!
