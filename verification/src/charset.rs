//! Character encodings: choosing the encoding of an HTML document (byte
//! order mark, declared charset, `<meta>` declaration, UTF-8, the
//! windows-1252 fallback) and decoding it with `encoding_rs`.
use vstd::prelude::*;
use vstd::utf8::{valid_utf8, decode_utf8, encode_utf8};
use crate::dom::{
    DomNode, DomNodeView, attr, attr_of, dom_view, html_document, is_element_named,
    is_element_named_exec, node_view, parse_html_document, root_element_from, root_element_index,
    subtree_end, subtree_end_exec,
};
use crate::mime::{lossy_text, utf8_lossy_string};
use crate::text::{chars_of, string_of};
use crate::mime::push_range;
use crate::text::{
    CharClass, eq_ignore_case, eq_ignore_case_range, first_index_in, first_index_of,
    lemma_first_index_of, trim, trim_quotes, trim_indices,
};

verus! {

broadcast use vstd::seq_lib::group_seq_properties;

/// The view of an optional string.
pub open spec fn opt_string_view(s: Option<String>) -> Option<Seq<char>> {
    match s {
        Some(x) => Some(x@),
        None => None,
    }
}

/// `encoding_rs::Encoding`, used only as an opaque handle.
#[verifier::external_type_specification]
#[verifier::external_body]
pub struct ExEncoding(encoding_rs::Encoding);

/// The name of the encoding that `Encoding::for_label` finds for a label.
pub uninterp spec fn label_encoding(label: Seq<u8>) -> Option<Seq<char>>;

/// What `Encoding::decode` makes of the bytes, for the encoding of that name.
pub uninterp spec fn decoded_text(encoding_name: Seq<char>, bytes: Seq<u8>) -> Seq<char>;

/// The bytes of the label `utf-8`.
pub open spec fn utf8_label() -> Seq<u8> {
    seq![0x75u8, 0x74u8, 0x66u8, 0x2Du8, 0x38u8]
}

/// The name of the encoding a label names: `UTF-8` for the label `utf-8`,
/// as the WHATWG label table that `Encoding::for_label` follows gives it;
/// `label_encoding` for the others.
pub open spec fn label_charset(label: Seq<u8>) -> Option<Seq<char>> {
    if label == utf8_label() {
        Some("UTF-8"@)
    } else {
        label_encoding(label)
    }
}

/// The UTF-8 byte order mark.
pub open spec fn utf8_bom() -> Seq<u8> {
    seq![0xEFu8, 0xBBu8, 0xBFu8]
}

/// The text that decoding with the named encoding gives: valid UTF-8
/// without a byte order mark, decoded as UTF-8, is read as it is;
/// otherwise `decoded_text`.
pub open spec fn decoded_with(encoding_name: Seq<char>, bytes: Seq<u8>) -> Seq<char> {
    if encoding_name == "UTF-8"@ && valid_utf8(bytes) && !has_prefix(bytes, utf8_bom()) {
        decode_utf8(bytes)
    } else {
        decoded_text(encoding_name, bytes)
    }
}

/// A character encoding together with its name. Only the constructors
/// below make one, so the name is always the encoding's own.
pub struct Charset {
    encoding: &'static encoding_rs::Encoding,
    name: &'static str,
}

impl View for Charset {
    type V = Seq<char>;

    closed spec fn view(&self) -> Seq<char> {
        self.name@
    }
}

impl Charset {
    /// `Encoding::for_label`: the encoding a WHATWG label names, after
    /// ASCII-lowercasing and trimming the label; the label `utf-8` names
    /// UTF-8, as the label table shows. What other labels name is left to
    /// the name `label_encoding`.
    #[verifier::external_body]
    pub(crate) fn for_label(label: &[u8]) -> (r: Option<Charset>)
        ensures
            match r {
                Some(c) => label_encoding(label@) == Some(c@),
                None => label_encoding(label@) is None,
            },
            label@ == utf8_label() ==> r is Some && r->0@ == "UTF-8"@,
    {
        encoding_rs::Encoding::for_label(label).map(|e| Charset { encoding: e, name: e.name() })
    }

    /// `encoding_rs::UTF_16LE`.
    #[verifier::external_body]
    pub(crate) fn utf_16le() -> (r: Charset)
        ensures
            r@ == "UTF-16LE"@,
    {
        Charset { encoding: encoding_rs::UTF_16LE, name: encoding_rs::UTF_16LE.name() }
    }

    /// `encoding_rs::UTF_16BE`.
    #[verifier::external_body]
    pub(crate) fn utf_16be() -> (r: Charset)
        ensures
            r@ == "UTF-16BE"@,
    {
        Charset { encoding: encoding_rs::UTF_16BE, name: encoding_rs::UTF_16BE.name() }
    }

    /// `encoding_rs::WINDOWS_1252`.
    #[verifier::external_body]
    pub(crate) fn windows_1252() -> (r: Charset)
        ensures
            r@ == "windows-1252"@,
    {
        Charset { encoding: encoding_rs::WINDOWS_1252, name: encoding_rs::WINDOWS_1252.name() }
    }

    /// `Encoding::decode`: the complete input decoded (with BOM sniffing),
    /// malformed sequences replaced by U+FFFD. Valid UTF-8 decoded as UTF-8
    /// (no UTF-8 BOM; valid UTF-8 cannot start with a UTF-16 BOM) comes back
    /// as it is: the decoder borrows it unchanged. What other input gives is
    /// left to the name `decoded_text`.
    #[verifier::external_body]
    pub(crate) fn decode(&self, bytes: &[u8]) -> (r: String)
        ensures
            r@ == decoded_text(self@, bytes@),
            self@ == "UTF-8"@ && valid_utf8(bytes@) && !has_prefix(bytes@, utf8_bom()) ==> r@ == decode_utf8(bytes@),
    {
        self.encoding.decode(bytes).0.into_owned()
    }

    /// The encoding's name.
    pub fn name(&self) -> (r: &'static str)
        ensures
            r@ == self@,
    {
        self.name
    }
}

/// `std::str::from_utf8`: the bytes as text when they are valid UTF-8.
#[verifier::external_body]
pub(crate) fn utf8_text(bytes: &[u8]) -> (r: Option<String>)
    ensures
        match r {
            Some(s) => valid_utf8(bytes@) && s@ == decode_utf8(bytes@),
            None => !valid_utf8(bytes@),
        },
{
    std::str::from_utf8(bytes).ok().map(str::to_owned)
}

/// The label of a `charset=` parameter, when `parameter` is one.
pub open spec fn charset_param(p: Seq<char>) -> Option<Seq<char>> {
    match first_index_of(p, '=', 0) {
        None => None,
        Some(k) => if !eq_ignore_case(trim(p.subrange(0, k)), "charset"@) {
            None
        } else {
            let label = trim(trim_quotes(trim(p.subrange(k + 1, p.len() as int))));
            if label.len() == 0 {
                None
            } else {
                Some(label)
            }
        },
    }
}

/// The `charset` parameter of `content[start..]`, scanning from `i` with the
/// given open quote: parameters end at semicolons outside quotes.
pub open spec fn charset_scan(c: Seq<char>, i: int, start: int, quote: Option<char>) -> Option<Seq<char>>
    decreases c.len() - i,
{
    if i < 0 || i >= c.len() {
        if 0 <= start <= c.len() {
            charset_param(c.subrange(start, c.len() as int))
        } else {
            None
        }
    } else {
        let ch = c[i];
        match quote {
            Some(a) => if ch == a {
                charset_scan(c, i + 1, start, None)
            } else {
                charset_scan(c, i + 1, start, quote)
            },
            None => if ch == '\'' || ch == '"' {
                charset_scan(c, i + 1, start, Some(ch))
            } else if ch == ';' {
                match if 0 <= start <= i {
                    charset_param(c.subrange(start, i))
                } else {
                    None
                } {
                    Some(l) => Some(l),
                    None => charset_scan(c, i + 1, i + 1, None),
                }
            } else {
                charset_scan(c, i + 1, start, None)
            },
        }
    }
}

/// The charset label of a `Content-Type` value such as
/// `text/html; charset=iso-8859-1`.
pub open spec fn content_charset(c: Seq<char>) -> Option<Seq<char>> {
    charset_scan(c, 0, 0, None)
}

/// `charset_param` on `s[lo..hi]`: the bounds of the label.
pub fn charset_parameter_range(s: &[char], lo: usize, hi: usize) -> (r: Option<(usize, usize)>)
    requires
        lo <= hi <= s@.len(),
    ensures
        match r {
            Some((a, b)) => lo <= a <= b <= hi && charset_param(s@.subrange(lo as int, hi as int)) == Some(
                s@.subrange(a as int, b as int),
            ),
            None => charset_param(s@.subrange(lo as int, hi as int)) is None,
        },
{
    let ghost p = s@.subrange(lo as int, hi as int);
    let k = match first_index_in(s, lo, hi, '=') {
        None => return None,
        Some(k) => k,
    };
    proof { lemma_first_index_of(p, '=', 0); }
    assert(p.subrange(0, k - lo) =~= s@.subrange(lo as int, k as int));
    assert(p.subrange(k - lo + 1, p.len() as int) =~= s@.subrange(k + 1, hi as int));
    let (na, nb) = trim_indices(s, lo, k, CharClass::Whitespace);
    if !eq_ignore_case_range(s, na, nb, "charset") {
        return None;
    }
    let (a1, b1) = trim_indices(s, k + 1, hi, CharClass::Whitespace);
    let (a2, b2) = trim_indices(s, a1, b1, CharClass::Quote);
    let (a3, b3) = trim_indices(s, a2, b2, CharClass::Whitespace);
    if a3 == b3 {
        return None;
    }
    Some((a3, b3))
}

/// The bounds of the charset label of a `Content-Type` value (`content_charset`).
pub fn content_type_charset_range(c: &[char]) -> (r: Option<(usize, usize)>)
    ensures
        match r {
            Some((a, b)) => a <= b <= c@.len() && content_charset(c@) == Some(c@.subrange(a as int, b as int)),
            None => content_charset(c@) is None,
        },
{
    let mut start: usize = 0;
    let mut quote: Option<char> = None;
    let mut i: usize = 0;
    while i < c.len()
        invariant
            start <= i <= c@.len(),
            content_charset(c@) == charset_scan(c@, i as int, start as int, quote),
        decreases c@.len() - i,
    {
        let ch = c[i];
        match quote {
            Some(active) => {
                if ch == active {
                    quote = None;
                }
            },
            None => {
                if ch == '\'' || ch == '"' {
                    quote = Some(ch);
                } else if ch == ';' {
                    if let Some(label) = charset_parameter_range(c, start, i) {
                        return Some(label);
                    }
                    start = i + 1;
                }
            },
        }
        i = i + 1;
    }
    charset_parameter_range(c, start, c.len())
}


/// The encoding a `<meta>` element declares: its `charset` attribute, or the
/// charset parameter of `content` when `http-equiv` is `content-type`.
pub open spec fn meta_declared(n: DomNodeView) -> Option<Seq<char>> {
    let from_charset = match attr_of(n, "charset"@) {
        Some(l) => label_charset(encode_utf8(trim(l))),
        None => None,
    };
    if from_charset is Some {
        from_charset
    } else {
        let is_content_type = match attr_of(n, "http-equiv"@) {
            Some(h) => eq_ignore_case(trim(h), "content-type"@),
            None => false,
        };
        if is_content_type {
            match attr_of(n, "content"@) {
                Some(c) => match content_charset(c) {
                    Some(l) => label_charset(encode_utf8(l)),
                    None => None,
                },
                None => None,
            }
        } else {
            None
        }
    }
}

/// The first encoding declared by a `<meta>` element among positions `j..end`.
pub open spec fn sniff_from(v: Seq<DomNodeView>, j: int, end: int) -> Option<Seq<char>>
    decreases end - j,
{
    if j < 0 || j >= end || j >= v.len() {
        None
    } else if is_element_named(v[j], "meta"@) && meta_declared(v[j]) is Some {
        meta_declared(v[j])
    } else {
        sniff_from(v, j + 1, end)
    }
}

/// The first encoding declared by a `<meta>` element of a parsed document.
pub open spec fn sniffed_in(v: Seq<DomNodeView>) -> Option<Seq<char>> {
    match root_element_from(v, 0) {
        Some(r) => sniff_from(v, r, subtree_end(v, r)),
        None => None,
    }
}

/// How many leading bytes are parsed for a `<meta>` charset declaration.
pub const SNIFF_BYTES: usize = 65536;

/// The encoding declared by a `<meta>` element in the first `SNIFF_BYTES`
/// bytes (read as lossy UTF-8 and parsed as HTML).
pub open spec fn sniffed_charset(bytes: Seq<u8>) -> Option<Seq<char>> {
    let prefix = if bytes.len() > SNIFF_BYTES {
        bytes.subrange(0, SNIFF_BYTES as int)
    } else {
        bytes
    };
    sniffed_in(html_document(lossy_text(prefix)))
}

/// The encoding a label names, after trimming it (`label_encoding`).
fn charset_for_trimmed_label(label: &str) -> (r: Option<Charset>)
    ensures
        match r {
            Some(c) => label_charset(encode_utf8(trim(label@))) == Some(c@),
            None => label_charset(encode_utf8(trim(label@))) is None,
        },
{
    let c = chars_of(label);
    let n = c.len();
    assert(c@.subrange(0, n as int) =~= c@);
    let (a, b) = trim_indices(c.as_slice(), 0, n, CharClass::Whitespace);
    let mut t: Vec<char> = Vec::new();
    push_range(&mut t, c.as_slice(), a, b);
    let ts = string_of(t.as_slice());
    Charset::for_label(ts.as_str().as_bytes())
}

/// The label of a `charset=` parameter, when `parameter` is one (`charset_param`).
pub fn charset_parameter<'a>(parameter: &'a str) -> (r: Option<&'a str>)
    ensures
        match r {
            Some(label) => charset_param(parameter@) == Some(label@),
            None => charset_param(parameter@) is None,
        },
{
    let c = chars_of(parameter);
    let n = c.len();
    assert(c@.subrange(0, n as int) =~= c@);
    match charset_parameter_range(c.as_slice(), 0, n) {
        Some((a, b)) => Some(parameter.substring_char(a, b)),
        None => None,
    }
}

/// The charset label of a `Content-Type` value (`content_charset`).
pub fn content_type_charset<'a>(content: &'a str) -> (r: Option<&'a str>)
    ensures
        match r {
            Some(label) => content_charset(content@) == Some(label@),
            None => content_charset(content@) is None,
        },
{
    let c = chars_of(content);
    match content_type_charset_range(c.as_slice()) {
        Some((a, b)) => Some(content.substring_char(a, b)),
        None => None,
    }
}

/// The encoding a `<meta>` element declares (`meta_declared`).
fn meta_charset(node: &DomNode) -> (r: Option<Charset>)
    ensures
        match r {
            Some(c) => meta_declared(node_view(*node)) == Some(c@),
            None => meta_declared(node_view(*node)) is None,
        },
{
    if let Some(label) = attr(node, "charset") {
        if let Some(encoding) = charset_for_trimmed_label(label.as_str()) {
            return Some(encoding);
        }
    }
    let is_content_type = match attr(node, "http-equiv") {
        Some(value) => {
            let c = chars_of(value.as_str());
            let n = c.len();
            assert(c@.subrange(0, n as int) =~= c@);
            let (a, b) = trim_indices(c.as_slice(), 0, n, CharClass::Whitespace);
            eq_ignore_case_range(c.as_slice(), a, b, "content-type")
        },
        None => false,
    };
    if is_content_type {
        if let Some(content) = attr(node, "content") {
            let c = chars_of(content.as_str());
            if let Some((a, b)) = content_type_charset_range(c.as_slice()) {
                let mut t: Vec<char> = Vec::new();
                push_range(&mut t, c.as_slice(), a, b);
                let ts = string_of(t.as_slice());
                return Charset::for_label(ts.as_str().as_bytes());
            }
        }
    }
    None
}

/// The encoding declared by a `<meta>` element in the leading bytes of an
/// HTML document (`sniffed_charset`).
pub fn sniff_meta_charset(bytes: &[u8]) -> (r: Option<Charset>)
    ensures
        match r {
            Some(c) => sniffed_charset(bytes@) == Some(c@),
            None => sniffed_charset(bytes@) is None,
        },
{
    let n = if bytes.len() > SNIFF_BYTES {
        SNIFF_BYTES
    } else {
        bytes.len()
    };
    let prefix = vstd::slice::slice_subrange(bytes, 0, n);
    assert(bytes@.len() <= SNIFF_BYTES ==> prefix@ =~= bytes@);
    let text = utf8_lossy_string(prefix);
    let nodes = parse_html_document(text.as_str());
    let ghost v = dom_view(nodes@);
    let root = match root_element_index(nodes.as_slice()) {
        None => return None,
        Some(r) => r,
    };
    let end = subtree_end_exec(nodes.as_slice(), root);
    let mut j = root;
    while j < end
        invariant
            v == dom_view(nodes@),
            root <= j <= end <= nodes@.len(),
            sniffed_in(v) == sniff_from(v, j as int, end as int),
            sniffed_charset(bytes@) == sniffed_in(v),
        decreases end - j,
    {
        assert(v[j as int] == node_view(nodes@[j as int]));
        if is_element_named_exec(&nodes[j], "meta") {
            if let Some(encoding) = meta_charset(&nodes[j]) {
                return Some(encoding);
            }
        }
        j = j + 1;
    }
    None
}


/// `bytes` starts with `prefix`.
pub open spec fn has_prefix(bytes: Seq<u8>, prefix: Seq<u8>) -> bool {
    prefix.len() <= bytes.len() && bytes.subrange(0, prefix.len() as int) == prefix
}

/// The text of an HTML document, as `decode_html_with_charset` decodes it:
/// a byte order mark decides first (UTF-8 read lossily, UTF-16LE,
/// UTF-16BE, the mark removed); then a declared charset label that names an
/// encoding; then a `<meta>` declaration; then UTF-8 when the bytes are
/// valid UTF-8; windows-1252 otherwise.
pub open spec fn decoded_html(bytes: Seq<u8>, declared: Option<Seq<char>>) -> Seq<char> {
    if has_prefix(bytes, seq![0xEFu8, 0xBBu8, 0xBFu8]) {
        lossy_text(bytes.subrange(3, bytes.len() as int))
    } else if has_prefix(bytes, seq![0xFFu8, 0xFEu8]) {
        decoded_with("UTF-16LE"@, bytes.subrange(2, bytes.len() as int))
    } else if has_prefix(bytes, seq![0xFEu8, 0xFFu8]) {
        decoded_with("UTF-16BE"@, bytes.subrange(2, bytes.len() as int))
    } else {
        let from_declared = match declared {
            Some(l) => label_charset(encode_utf8(trim(l))),
            None => None,
        };
        match from_declared {
            Some(n) => decoded_with(n, bytes),
            None => match sniffed_charset(bytes) {
                Some(n) => decoded_with(n, bytes),
                None => if valid_utf8(bytes) {
                    decode_utf8(bytes)
                } else {
                    decoded_with("windows-1252"@, bytes)
                },
            },
        }
    }
}

/// Decode an HTML document with an optional declared charset (`decoded_html`).
pub fn decode_html_with_charset(bytes: &[u8], declared_charset: Option<&str>) -> (r: String)
    ensures
        r@ == decoded_html(
            bytes@,
            match declared_charset {
                Some(l) => Some(l@),
                None => None,
            },
        ),
{
    let n = bytes.len();
    if n >= 3 && bytes[0] == 0xEFu8 && bytes[1] == 0xBBu8 && bytes[2] == 0xBFu8 {
        assert(bytes@.subrange(0, 3) =~= seq![0xEFu8, 0xBBu8, 0xBFu8]);
        return utf8_lossy_string(vstd::slice::slice_subrange(bytes, 3, n));
    }
    assert(!has_prefix(bytes@, seq![0xEFu8, 0xBBu8, 0xBFu8])) by {
        if has_prefix(bytes@, seq![0xEFu8, 0xBBu8, 0xBFu8]) {
            assert(bytes@.subrange(0, 3)[0] == bytes@[0]);
            assert(bytes@.subrange(0, 3)[1] == bytes@[1]);
            assert(bytes@.subrange(0, 3)[2] == bytes@[2]);
        }
    }
    if n >= 2 && bytes[0] == 0xFFu8 && bytes[1] == 0xFEu8 {
        assert(bytes@.subrange(0, 2) =~= seq![0xFFu8, 0xFEu8]);
        return Charset::utf_16le().decode(vstd::slice::slice_subrange(bytes, 2, n));
    }
    assert(!has_prefix(bytes@, seq![0xFFu8, 0xFEu8])) by {
        if has_prefix(bytes@, seq![0xFFu8, 0xFEu8]) {
            assert(bytes@.subrange(0, 2)[0] == bytes@[0]);
            assert(bytes@.subrange(0, 2)[1] == bytes@[1]);
        }
    }
    if n >= 2 && bytes[0] == 0xFEu8 && bytes[1] == 0xFFu8 {
        assert(bytes@.subrange(0, 2) =~= seq![0xFEu8, 0xFFu8]);
        return Charset::utf_16be().decode(vstd::slice::slice_subrange(bytes, 2, n));
    }
    assert(!has_prefix(bytes@, seq![0xFEu8, 0xFFu8])) by {
        if has_prefix(bytes@, seq![0xFEu8, 0xFFu8]) {
            assert(bytes@.subrange(0, 2)[0] == bytes@[0]);
            assert(bytes@.subrange(0, 2)[1] == bytes@[1]);
        }
    }
    if let Some(label) = declared_charset {
        if let Some(encoding) = charset_for_trimmed_label(label) {
            return encoding.decode(bytes);
        }
    }
    if let Some(encoding) = sniff_meta_charset(bytes) {
        return encoding.decode(bytes);
    }
    match utf8_text(bytes) {
        Some(text) => text,
        None => Charset::windows_1252().decode(bytes),
    }
}

/// Decode a standalone HTML document (no declared charset).
pub fn decode_html(bytes: &[u8]) -> (r: String)
    ensures
        r@ == decoded_html(bytes@, None),
{
    decode_html_with_charset(bytes, None)
}

/// Law: the `http-equiv` value of a `<meta>` element is compared ignoring
/// ASCII case and surrounding whitespace. Two meta elements whose `charset`
/// and `content` attributes agree, and whose `http-equiv` values are equal
/// up to ASCII case after trimming (`Content-Type` and `content-type`, say),
/// declare the same encoding. And an element without a recognised `charset`
/// attribute whose `http-equiv` is any casing of `content-type` declares the
/// encoding named by the charset label of its `content`.
pub proof fn law_meta_http_equiv_ignores_case(n1: DomNodeView, n2: DomNodeView, h1: Seq<char>, h2: Seq<char>)
    requires
        attr_of(n1, "charset"@) == attr_of(n2, "charset"@),
        attr_of(n1, "content"@) == attr_of(n2, "content"@),
        attr_of(n1, "http-equiv"@) == Some(h1),
        attr_of(n2, "http-equiv"@) == Some(h2),
        eq_ignore_case(trim(h1), trim(h2)),
    ensures
        meta_declared(n1) == meta_declared(n2),
        eq_ignore_case(trim(h1), "content-type"@) && (match attr_of(n1, "charset"@) {
            Some(l) => label_charset(encode_utf8(trim(l))) is None,
            None => true,
        }) ==> match attr_of(n1, "content"@) {
            Some(c) => match content_charset(c) {
                Some(l) => meta_declared(n1) == label_charset(encode_utf8(l)),
                None => meta_declared(n1) is None,
            },
            None => meta_declared(n1) is None,
        },
{
}

} // verus!
