//! Byte-level MIME scanning: header blocks, folded header lines, MHTML
//! detection, and the base64 allocation preflight that runs before the
//! MIME parser sees the input.
use vstd::prelude::*;
use mail_parser::MimeHeaders;
use crate::error::{ConvertError, is_limit_error};
use crate::limits::{MAX_ENTRY_BYTES, MAX_MIME_DEPTH};
use vstd::utf8::encode_utf8;
use crate::text::{
    string_of,
    CharClass, chars_of, eq_ignore_case, eq_ignore_case_range, in_class_exec, is_ascii_ws,
    lower, lower_chars, starts_with, trim, trim_end_cr, trim_end_index, trim_indices, decimal,
    message_with_two_numbers, first_index_of, lemma_first_index_of, first_index_in,
};

verus! {

broadcast use vstd::seq_lib::group_seq_properties;

/// How many bytes of a container are scanned for its top-level headers.
pub const HEADER_SCAN_LIMIT: usize = 65536;

/// `needle` occurs in `hay` at position `i`.
pub open spec fn occurs_at<A>(hay: Seq<A>, needle: Seq<A>, i: int) -> bool {
    0 <= i && i + needle.len() <= hay.len() && hay.subrange(i, i + needle.len()) == needle
}

/// The first position at or after `i` where `needle` occurs.
pub open spec fn first_occurrence_from<A>(hay: Seq<A>, needle: Seq<A>, i: int) -> Option<int>
    decreases hay.len() - i,
{
    if i < 0 || i >= hay.len() || i + needle.len() > hay.len() {
        None
    } else if occurs_at(hay, needle, i) {
        Some(i)
    } else {
        first_occurrence_from(hay, needle, i + 1)
    }
}

/// The first position of a non-empty `needle` in `hay` (`windows().position`).
pub open spec fn find_seq<A>(hay: Seq<A>, needle: Seq<A>) -> Option<int> {
    if needle.len() == 0 {
        None
    } else {
        first_occurrence_from(hay, needle, 0)
    }
}

/// Lemma: a found position is a real, first occurrence.
pub proof fn lemma_first_occurrence<A>(hay: Seq<A>, needle: Seq<A>, i: int)
    requires
        0 <= i,
        needle.len() > 0,
    ensures
        first_occurrence_from(hay, needle, i) matches Some(j) ==> i <= j && occurs_at(hay, needle, j)
            && j + needle.len() <= hay.len(),
        forall|j: int| #![trigger occurs_at(hay, needle, j)]
            i <= j && occurs_at(hay, needle, j) ==> first_occurrence_from(hay, needle, i) is Some,
    decreases hay.len() - i,
{
    if i < hay.len() && i + needle.len() <= hay.len() && !occurs_at(hay, needle, i) {
        lemma_first_occurrence(hay, needle, i + 1);
    }
}

/// The first position of `needle` in `haystack[lo..hi]`, relative to `lo`.
pub fn find_bytes_in(haystack: &[u8], lo: usize, hi: usize, needle: &[u8]) -> (r: Option<usize>)
    requires
        lo <= hi <= haystack@.len(),
    ensures
        match r {
            Some(i) => find_seq(haystack@.subrange(lo as int, hi as int), needle@) == Some(i as int),
            None => find_seq(haystack@.subrange(lo as int, hi as int), needle@) is None,
        },
{
    let ghost h = haystack@.subrange(lo as int, hi as int);
    let n = needle.len();
    if n == 0 || n > hi - lo {
        return None;
    }
    let mut i: usize = 0;
    while i <= (hi - lo) - n
        invariant
            lo <= hi <= haystack@.len(),
            h == haystack@.subrange(lo as int, hi as int),
            n == needle@.len(),
            0 < n <= h.len(),
            i + n <= h.len() + 1,
            find_seq(h, needle@) == first_occurrence_from(h, needle@, i as int),
        decreases h.len() - i,
    {
        let mut k: usize = 0;
        let mut same = true;
        while k < n
            invariant
                lo <= hi <= haystack@.len(),
                h == haystack@.subrange(lo as int, hi as int),
                n == needle@.len(),
                i + n <= h.len(),
                k <= n,
                same == (forall|m: int| 0 <= m < k ==> h[i + m] == needle@[m]),
            decreases n - k,
        {
            if haystack[lo + i + k] != needle[k] {
                same = false;
            }
            k = k + 1;
        }
        if same {
            assert(h.subrange(i as int, i + n) =~= needle@);
            return Some(i);
        } else {
            assert(!occurs_at(h, needle@, i as int)) by {
                if h.subrange(i as int, i + n) == needle@ {
                    assert(forall|m: int| 0 <= m < n ==> #[trigger] h.subrange(i as int, i + n)[m] == h[i + m]);
                }
            }
        }
        i = i + 1;
    }
    None
}

/// `find_bytes`: the first position of a non-empty `needle` in `haystack`.
pub fn find_bytes(haystack: &[u8], needle: &[u8]) -> (r: Option<usize>)
    ensures
        match r {
            Some(i) => find_seq(haystack@, needle@) == Some(i as int),
            None => find_seq(haystack@, needle@) is None,
        },
{
    assert(haystack@.subrange(0, haystack@.len() as int) =~= haystack@);
    find_bytes_in(haystack, 0, haystack.len(), needle)
}

/// The blank line that ends a header block in CRLF form.
pub open spec fn crlf_blank() -> Seq<u8> {
    seq![13u8, 10u8, 13u8, 10u8]
}

/// The blank line that ends a header block in LF form.
pub open spec fn lf_blank() -> Seq<u8> {
    seq![10u8, 10u8]
}

/// Where the headers of `bytes[start..end]` end and the body starts: the
/// earliest blank line, CRLF form winning a tie.
pub open spec fn header_body_start(bytes: Seq<u8>, start: int, end: int) -> Option<(int, int)> {
    if !(0 <= start <= end <= bytes.len()) {
        None
    } else {
        let slice = bytes.subrange(start, end);
        match (find_seq(slice, crlf_blank()), find_seq(slice, lf_blank())) {
            (Some(a), Some(b)) => if a <= b {
                Some((start + a, start + a + 4))
            } else {
                Some((start + b, start + b + 2))
            },
            (Some(a), None) => Some((start + a, start + a + 4)),
            (None, Some(b)) => Some((start + b, start + b + 2)),
            (None, None) => None,
        }
    }
}

/// Lemma: a header/body split lies inside the scanned range.
pub proof fn lemma_header_body_start_bounds(bytes: Seq<u8>, start: int, end: int)
    ensures
        header_body_start(bytes, start, end) matches Some((h, b)) ==> start <= h < b <= end,
{
    if 0 <= start <= end <= bytes.len() {
        let slice = bytes.subrange(start, end);
        lemma_first_occurrence(slice, crlf_blank(), 0);
        lemma_first_occurrence(slice, lf_blank(), 0);
    }
}

/// The CRLF blank line.
fn crlf_blank_exec() -> (r: [u8; 4])
    ensures
        r@ == crlf_blank(),
{
    let r: [u8; 4] = [13u8, 10u8, 13u8, 10u8];
    assert(r@ =~= crlf_blank());
    r
}

/// The LF blank line.
fn lf_blank_exec() -> (r: [u8; 2])
    ensures
        r@ == lf_blank(),
{
    let r: [u8; 2] = [10u8, 10u8];
    assert(r@ =~= lf_blank());
    r
}

/// Where the headers of `bytes[start..end]` end and the body starts.
pub fn mime_header_body_start(bytes: &[u8], start: usize, end: usize) -> (r: Option<(usize, usize)>)
    ensures
        match r {
            Some((h, b)) => header_body_start(bytes@, start as int, end as int) == Some(
                (h as int, b as int),
            ),
            None => header_body_start(bytes@, start as int, end as int) is None,
        },
{
    if !(start <= end && end <= bytes.len()) {
        return None;
    }
    let crlf_marker = crlf_blank_exec();
    let lf_marker = lf_blank_exec();
    let crlf = find_bytes_in(bytes, start, end, crlf_marker.as_slice());
    let lf = find_bytes_in(bytes, start, end, lf_marker.as_slice());
    proof {
        lemma_header_body_start_bounds(bytes@, start as int, end as int);
        let slice = bytes@.subrange(start as int, end as int);
        lemma_first_occurrence(slice, crlf_blank(), 0);
        lemma_first_occurrence(slice, lf_blank(), 0);
    }
    match (crlf, lf) {
        (Some(a), Some(b)) => if a <= b {
            Some((start + a, start + a + 4))
        } else {
            Some((start + b, start + b + 2))
        },
        (Some(a), None) => Some((start + a, start + a + 4)),
        (None, Some(b)) => Some((start + b, start + b + 2)),
        (None, None) => None,
    }
}

/// The top-level header block of a container: its first
/// `HEADER_SCAN_LIMIT` bytes, up to the first blank line.
pub open spec fn header_block(bytes: Seq<u8>) -> Seq<u8> {
    let scanned = if bytes.len() > HEADER_SCAN_LIMIT {
        bytes.subrange(0, HEADER_SCAN_LIMIT as int)
    } else {
        bytes
    };
    let end = match (find_seq(scanned, crlf_blank()), find_seq(scanned, lf_blank())) {
        (Some(a), Some(b)) => if a <= b {
            a
        } else {
            b
        },
        (Some(a), None) => a,
        (None, Some(b)) => b,
        (None, None) => scanned.len() as int,
    };
    scanned.subrange(0, end)
}

/// The top-level header block of a container.
pub fn mime_header_block(bytes: &[u8]) -> (r: &[u8])
    ensures
        r@ == header_block(bytes@),
{
    let limit = if bytes.len() > HEADER_SCAN_LIMIT {
        HEADER_SCAN_LIMIT
    } else {
        bytes.len()
    };
    let ghost scanned = bytes@.subrange(0, limit as int);
    assert(bytes.len() <= HEADER_SCAN_LIMIT ==> scanned =~= bytes@);
    let crlf_marker = crlf_blank_exec();
    let lf_marker = lf_blank_exec();
    let crlf = find_bytes_in(bytes, 0, limit, crlf_marker.as_slice());
    let lf = find_bytes_in(bytes, 0, limit, lf_marker.as_slice());
    proof {
        lemma_first_occurrence(scanned, crlf_blank(), 0);
        lemma_first_occurrence(scanned, lf_blank(), 0);
    }
    let end = match (crlf, lf) {
        (Some(a), Some(b)) => if a <= b {
            a
        } else {
            b
        },
        (Some(a), None) => a,
        (None, Some(b)) => b,
        (None, None) => limit,
    };
    let r = vstd::slice::slice_subrange(bytes, 0, end);
    assert(r@ =~= scanned.subrange(0, end as int));
    r
}


/// What `String::from_utf8_lossy` makes of the bytes.
pub uninterp spec fn utf8_lossy(bytes: Seq<u8>) -> Seq<char>;

/// Bytes read as text: valid UTF-8 decoded, anything else as
/// `String::from_utf8_lossy` reads it.
pub open spec fn lossy_text(bytes: Seq<u8>) -> Seq<char> {
    if vstd::utf8::valid_utf8(bytes) {
        vstd::utf8::decode_utf8(bytes)
    } else {
        utf8_lossy(bytes)
    }
}

/// `String::from_utf8_lossy`: the bytes as text, each invalid sequence
/// replaced by U+FFFD; valid UTF-8 is read as it is, as std documents.
/// What the replacement gives on invalid input is left to the name.
#[verifier::external_body]
pub(crate) fn utf8_lossy_string(bytes: &[u8]) -> (r: String)
    ensures
        r@ == utf8_lossy(bytes@),
        vstd::utf8::valid_utf8(bytes@) ==> r@ == vstd::utf8::decode_utf8(bytes@),
{
    String::from_utf8_lossy(bytes).into_owned()
}

/// The index of the first line feed at or after `p`, or the length.
pub open spec fn next_newline(s: Seq<char>, p: int) -> int
    decreases s.len() - p,
{
    if p < 0 || p >= s.len() {
        s.len() as int
    } else if s[p] == '\n' {
        p
    } else {
        next_newline(s, p + 1)
    }
}

/// Lemma: the next line feed lies between `p` and the end.
pub proof fn lemma_next_newline(s: Seq<char>, p: int)
    requires
        0 <= p <= s.len(),
    ensures
        p <= next_newline(s, p) <= s.len(),
        next_newline(s, p) < s.len() ==> s[next_newline(s, p)] == '\n',
        forall|k: int| p <= k < next_newline(s, p) ==> s[k] != '\n',
    decreases s.len() - p,
{
    if p < s.len() && s[p] != '\n' {
        lemma_next_newline(s, p + 1);
    }
}

/// The lines of `s` from position `p`: the pieces between line feeds,
/// the last one possibly empty (`str::split('\n')`).
pub open spec fn lines_from(s: Seq<char>, p: int) -> Seq<Seq<char>>
    decreases s.len() - p,
{
    if p < 0 || p > s.len() {
        seq![]
    } else {
        let q = next_newline(s, p);
        proof {
            lemma_next_newline(s, p);
        }
        if q >= s.len() {
            seq![s.subrange(p, s.len() as int)]
        } else {
            seq![s.subrange(p, q)] + lines_from(s, q + 1)
        }
    }
}

/// The lines of `s` (`str::split('\n')`). On the text of an unfolded
/// header block this is also what `str::lines` gives, up to an empty last
/// line: no line there ends in a carriage return.
pub open spec fn split_lines(s: Seq<char>) -> Seq<Seq<char>> {
    lines_from(s, 0)
}

/// One raw header line appended to the unfolded text: a line that starts
/// with a space or tab continues the previous one.
pub open spec fn unfold_line(out: Seq<char>, raw: Seq<char>) -> Seq<char> {
    let line = trim_end_cr(raw);
    if line.len() > 0 && (line[0] == ' ' || line[0] == '\t') {
        out.push(' ') + trim(line)
    } else if out.len() > 0 {
        out.push('\n') + line
    } else {
        line
    }
}

/// The lines unfolded in order.
pub open spec fn unfold_lines(ls: Seq<Seq<char>>) -> Seq<char>
    decreases ls.len(),
{
    if ls.len() == 0 {
        seq![]
    } else {
        unfold_line(unfold_lines(ls.drop_last()), ls.last())
    }
}

/// Header text with folded continuation lines joined to their field.
pub open spec fn unfold(text: Seq<char>) -> Seq<char> {
    unfold_lines(split_lines(text))
}

/// Appends `s[lo..hi]` to `out`.
pub fn push_range(out: &mut Vec<char>, s: &[char], lo: usize, hi: usize)
    requires
        lo <= hi <= s@.len(),
    ensures
        final(out)@ == old(out)@ + s@.subrange(lo as int, hi as int),
{
    let mut i = lo;
    while i < hi
        invariant
            lo <= i <= hi <= s@.len(),
            out@ == old(out)@ + s@.subrange(lo as int, i as int),
        decreases hi - i,
    {
        out.push(s[i]);
        assert(s@.subrange(lo as int, i + 1) =~= s@.subrange(lo as int, i as int).push(s@[i as int]));
        i = i + 1;
    }
}

/// The index of the next line feed at or after `p`.
pub fn next_newline_exec(s: &[char], p: usize) -> (q: usize)
    requires
        p <= s@.len(),
    ensures
        q == next_newline(s@, p as int),
{
    let mut q = p;
    proof { lemma_next_newline(s@, p as int); }
    while q < s.len() && s[q] != '\n'
        invariant
            p <= q <= s@.len(),
            next_newline(s@, q as int) == next_newline(s@, p as int),
        decreases s@.len() - q,
    {
        q = q + 1;
    }
    q
}

/// Lemma: the lines from `p` are the line at `p` followed by the lines after it.
proof fn lemma_lines_step(s: Seq<char>, p: int)
    requires
        0 <= p <= s.len(),
    ensures
        next_newline(s, p) >= s.len() ==> lines_from(s, p) == seq![s.subrange(p, s.len() as int)],
        next_newline(s, p) < s.len() ==> lines_from(s, p) == seq![s.subrange(p, next_newline(s, p))]
            + lines_from(s, next_newline(s, p) + 1),
{
    lemma_next_newline(s, p);
}

/// Appends one unfolded line, the raw line being `s[p..q]`.
fn unfold_line_exec(out: &mut Vec<char>, s: &[char], p: usize, q: usize)
    requires
        p <= q <= s@.len(),
    ensures
        final(out)@ == unfold_line(old(out)@, s@.subrange(p as int, q as int)),
{
    let e = trim_end_index(s, p, q, CharClass::CarriageReturn);
    let ghost line = s@.subrange(p as int, e as int);
    if e > p && (s[p] == ' ' || s[p] == '\t') {
        assert(line[0] == s@[p as int]);
        out.push(' ');
        let (a, b) = trim_indices(s, p, e, CharClass::Whitespace);
        push_range(out, s, a, b);
    } else {
        if out.len() > 0 {
            out.push('\n');
        }
        push_range(out, s, p, e);
    }
}

/// `unfold_headers`: header bytes as text with folded continuation lines
/// joined to their field.
pub fn unfold_header_chars(text: &[char]) -> (r: Vec<char>)
    ensures
        r@ == unfold(text@),
{
    let mut out: Vec<char> = Vec::new();
    let mut p: usize = 0;
    let ghost mut seen: Seq<Seq<char>> = seq![];
    loop
        invariant
            p <= text@.len(),
            split_lines(text@) == seen + lines_from(text@, p as int),
            out@ == unfold_lines(seen),
        decreases text@.len() - p,
    {
        let q = next_newline_exec(text, p);
        proof {
            lemma_lines_step(text@, p as int);
            lemma_next_newline(text@, p as int);
        }
        let ghost line = text@.subrange(p as int, q as int);
        unfold_line_exec(&mut out, text, p, q);
        proof {
            assert((seen.push(line)).drop_last() =~= seen);
            seen = seen.push(line);
        }
        if q >= text.len() {
            assert(split_lines(text@) =~= seen);
            return out;
        }
        assert(split_lines(text@) =~= seen + lines_from(text@, q + 1));
        p = q + 1;
    }
}

/// The characters of the unfolded header bytes (`unfold`).
fn unfolded_header_chars(bytes: &[u8]) -> (r: Vec<char>)
    ensures
        r@ == unfold(lossy_text(bytes@)),
{
    let text = utf8_lossy_string(bytes);
    let chars = chars_of(text.as_str());
    unfold_header_chars(chars.as_slice())
}

/// Header bytes read as text (lossily) with folded lines joined (`unfold`).
pub fn unfold_headers(bytes: &[u8]) -> (r: String)
    ensures
        r@ == unfold(lossy_text(bytes@)),
{
    let chars = unfolded_header_chars(bytes);
    string_of(chars.as_slice())
}


/// Keeps the characters that are not ASCII whitespace.
pub open spec fn not_ascii_ws() -> spec_fn(char) -> bool {
    |c: char| !is_ascii_ws(c)
}

/// The index of the first line in `ls` from `i` on that starts with `prefix`.
pub open spec fn first_line_with_prefix(ls: Seq<Seq<char>>, prefix: Seq<char>, i: int) -> Option<int>
    decreases ls.len() - i,
{
    if i < 0 || i >= ls.len() {
        None
    } else if starts_with(ls[i], prefix) {
        Some(i)
    } else {
        first_line_with_prefix(ls, prefix, i + 1)
    }
}

/// Lemma: the line found starts with the prefix.
pub proof fn lemma_first_line_with_prefix(ls: Seq<Seq<char>>, prefix: Seq<char>, i: int)
    ensures
        first_line_with_prefix(ls, prefix, i) matches Some(j) ==> i <= j < ls.len() && starts_with(ls[j], prefix),
    decreases ls.len() - i,
{
    if 0 <= i < ls.len() && !starts_with(ls[i], prefix) {
        lemma_first_line_with_prefix(ls, prefix, i + 1);
    }
}

/// The media type of a `Content-Type` value names `multipart/related`.
pub open spec fn is_related_media_type(value: Seq<char>) -> bool {
    let compact = value.filter(not_ascii_ws());
    compact == "multipart/related"@ || starts_with(compact, "multipart/related;"@)
}

/// The byte-level MHTML signature: the top-level header block (unfolded,
/// ASCII-lowercased) has a `snapshot-content-location:` line, and its first
/// `content-type:` line names `multipart/related`.
pub open spec fn mhtml_signature(bytes: Seq<u8>) -> bool {
    let ls = split_lines(lower(unfold(lossy_text(header_block(bytes)))));
    let snapshot = exists|i: int| 0 <= i < ls.len() && #[trigger] starts_with(ls[i], "snapshot-content-location:"@);
    match first_line_with_prefix(ls, "content-type:"@, 0) {
        None => false,
        Some(i) => is_related_media_type(ls[i].skip("content-type:"@.len() as int)) && snapshot,
    }
}

/// `s[lo..hi]` starts with `prefix`.
pub fn starts_with_range(s: &[char], lo: usize, hi: usize, prefix: &str) -> (r: bool)
    requires
        lo <= hi <= s@.len(),
    ensures
        r == starts_with(s@.subrange(lo as int, hi as int), prefix@),
{
    let pc = chars_of(prefix);
    if pc.len() > hi - lo {
        return false;
    }
    let mut i: usize = 0;
    while i < pc.len()
        invariant
            pc@ == prefix@,
            pc@.len() <= hi - lo,
            lo <= hi <= s@.len(),
            i <= pc@.len(),
            forall|j: int| 0 <= j < i ==> s@[lo + j] == pc@[j],
        decreases pc@.len() - i,
    {
        if s[lo + i] != pc[i] {
            assert(s@.subrange(lo as int, hi as int).subrange(0, pc@.len() as int)[i as int] != pc@[i as int]);
            return false;
        }
        i = i + 1;
    }
    assert(s@.subrange(lo as int, hi as int).subrange(0, pc@.len() as int) =~= pc@);
    true
}

/// `s[lo..hi]` is exactly `t`.
pub fn equals_range(s: &[char], lo: usize, hi: usize, t: &str) -> (r: bool)
    requires
        lo <= hi <= s@.len(),
    ensures
        r == (s@.subrange(lo as int, hi as int) == t@),
{
    let tc = chars_of(t);
    if tc.len() != hi - lo {
        return false;
    }
    let r = starts_with_range(s, lo, hi, t);
    assert(s@.subrange(lo as int, hi as int).subrange(0, tc@.len() as int) =~= s@.subrange(lo as int, hi as int));
    r
}

/// The characters of `s[lo..hi]` that are not ASCII whitespace.
pub fn strip_ascii_whitespace(s: &[char], lo: usize, hi: usize) -> (r: Vec<char>)
    requires
        lo <= hi <= s@.len(),
    ensures
        r@ == s@.subrange(lo as int, hi as int).filter(not_ascii_ws()),
{
    let mut out: Vec<char> = Vec::new();
    let mut i = lo;
    while i < hi
        invariant
            lo <= i <= hi <= s@.len(),
            out@ == s@.subrange(lo as int, i as int).filter(not_ascii_ws()),
        decreases hi - i,
    {
        let c = s[i];
        let ghost t = s@.subrange(lo as int, i + 1);
        assert(t.drop_last() =~= s@.subrange(lo as int, i as int));
        reveal_with_fuel(Seq::filter, 1);
        if !(c == ' ' || c == '\t' || c == '\n' || c == '\x0C' || c == '\r') {
            out.push(c);
        }
        i = i + 1;
    }
    out
}

/// Some line of `text` starts with `prefix`.
pub fn any_line_starts_with(text: &[char], prefix: &str) -> (r: bool)
    ensures
        r == exists|i: int| 0 <= i < split_lines(text@).len() && #[trigger] starts_with(split_lines(text@)[i], prefix@),
{
    let ghost ls = split_lines(text@);
    let mut p: usize = 0;
    let ghost mut seen: Seq<Seq<char>> = seq![];
    loop
        invariant
            p <= text@.len(),
            ls == split_lines(text@),
            ls == seen + lines_from(text@, p as int),
            forall|i: int| 0 <= i < seen.len() ==> !#[trigger] starts_with(seen[i], prefix@),
        decreases text@.len() - p,
    {
        let q = next_newline_exec(text, p);
        proof {
            lemma_lines_step(text@, p as int);
            lemma_next_newline(text@, p as int);
        }
        let ghost line = text@.subrange(p as int, q as int);
        assert(ls[seen.len() as int] == line);
        if starts_with_range(text, p, q, prefix) {
            return true;
        }
        proof {
            let old_seen = seen;
            seen = seen.push(line);
            assert forall|i: int| 0 <= i < seen.len() implies !#[trigger] starts_with(seen[i], prefix@) by {
                if i < old_seen.len() {
                    assert(seen[i] == old_seen[i]);
                }
            }
        }
        if q >= text.len() {
            assert(ls =~= seen);
            return false;
        }
        assert(ls =~= seen + lines_from(text@, q + 1));
        p = q + 1;
    }
}

/// The bounds of the first line of `text` that starts with `prefix`.
pub fn first_line_starting_with(text: &[char], prefix: &str) -> (r: Option<(usize, usize)>)
    ensures
        match r {
            None => first_line_with_prefix(split_lines(text@), prefix@, 0) is None,
            Some((a, b)) => a <= b <= text@.len() && exists|i: int| #![auto] first_line_with_prefix(split_lines(text@), prefix@, 0) == Some(i) && 0 <= i < split_lines(text@).len() && split_lines(text@)[i] == text@.subrange(a as int, b as int),
        },
{
    let ghost ls = split_lines(text@);
    let mut p: usize = 0;
    let ghost mut seen: Seq<Seq<char>> = seq![];
    loop
        invariant
            p <= text@.len(),
            ls == split_lines(text@),
            ls == seen + lines_from(text@, p as int),
            first_line_with_prefix(ls, prefix@, 0) == first_line_with_prefix(ls, prefix@, seen.len() as int),
        decreases text@.len() - p,
    {
        let q = next_newline_exec(text, p);
        proof {
            lemma_lines_step(text@, p as int);
            lemma_next_newline(text@, p as int);
        }
        let ghost line = text@.subrange(p as int, q as int);
        assert(ls[seen.len() as int] == line);
        if starts_with_range(text, p, q, prefix) {
            return Some((p, q));
        }
        proof {
            seen = seen.push(line);
        }
        if q >= text.len() {
            assert(ls =~= seen);
            return None;
        }
        assert(ls =~= seen + lines_from(text@, q + 1));
        p = q + 1;
    }
}

/// Whether the bytes start like an MHTML snapshot: a top-level
/// `multipart/related` header block carrying `Snapshot-Content-Location`.
pub fn looks_like_mhtml(bytes: &[u8]) -> (r: bool)
    ensures
        r == mhtml_signature(bytes@),
{
    let header = mime_header_block(bytes);
    let unfolded = unfolded_header_chars(header);
    let text = lower_chars(unfolded.as_slice());
    let snapshot = any_line_starts_with(text.as_slice(), "snapshot-content-location:");
    let found = first_line_starting_with(text.as_slice(), "content-type:");
    proof {
        reveal_strlit("content-type:");
        lemma_first_line_with_prefix(split_lines(text@), "content-type:"@, 0);
    }
    match found {
        None => false,
        Some((a, b)) => {
            let ghost line = text@.subrange(a as int, b as int);
            assert(starts_with(line, "content-type:"@));
            assert(line.skip(13) =~= text@.subrange(a + 13, b as int));
            let compact = strip_ascii_whitespace(text.as_slice(), a + 13, b);
            let n = compact.len();
            assert(compact@.subrange(0, n as int) =~= compact@);
            (equals_range(compact.as_slice(), 0, n, "multipart/related") || starts_with_range(
                compact.as_slice(),
                0,
                n,
                "multipart/related;",
            )) && snapshot
        },
    }
}


/// A header line declares `Content-Transfer-Encoding: base64`.
pub open spec fn declares_base64(line: Seq<char>) -> bool {
    match first_index_of(line, ':', 0) {
        None => false,
        Some(k) => eq_ignore_case(line.subrange(0, k), "content-transfer-encoding"@) && eq_ignore_case(
            trim(line.subrange(k + 1, line.len() as int)),
            "base64"@,
        ),
    }
}

/// Some line of the unfolded header bytes declares a base64 transfer encoding.
pub open spec fn uses_base64(headers: Seq<u8>) -> bool {
    let ls = split_lines(unfold(lossy_text(headers)));
    exists|i: int| 0 <= i < ls.len() && #[trigger] declares_base64(ls[i])
}

/// `declares_base64` on the line `s[lo..hi]`.
fn declares_base64_range(s: &[char], lo: usize, hi: usize) -> (r: bool)
    requires
        lo <= hi <= s@.len(),
    ensures
        r == declares_base64(s@.subrange(lo as int, hi as int)),
{
    let ghost line = s@.subrange(lo as int, hi as int);
    match first_index_in(s, lo, hi, ':') {
        None => false,
        Some(k) => {
            proof { lemma_first_index_of(line, ':', 0); }
            assert(line.subrange(0, k - lo) =~= s@.subrange(lo as int, k as int));
            assert(line.subrange(k - lo + 1, line.len() as int) =~= s@.subrange(k + 1, hi as int));
            let (a, b) = trim_indices(s, k + 1, hi, CharClass::Whitespace);
            eq_ignore_case_range(s, lo, k, "content-transfer-encoding") && eq_ignore_case_range(s, a, b, "base64")
        },
    }
}

/// Whether a header block declares `Content-Transfer-Encoding: base64`.
pub fn headers_use_base64(headers: &[u8]) -> (r: bool)
    ensures
        r == uses_base64(headers@),
{
    let unfolded = unfolded_header_chars(headers);
    let text = unfolded.as_slice();
    let ghost ls = split_lines(text@);
    let mut p: usize = 0;
    let ghost mut seen: Seq<Seq<char>> = seq![];
    loop
        invariant
            p <= text@.len(),
            ls == split_lines(text@),
            ls == seen + lines_from(text@, p as int),
            forall|i: int| 0 <= i < seen.len() ==> !#[trigger] declares_base64(seen[i]),
            text@ == unfold(lossy_text(headers@)),
        decreases text@.len() - p,
    {
        let q = next_newline_exec(text, p);
        proof {
            lemma_lines_step(text@, p as int);
            lemma_next_newline(text@, p as int);
        }
        let ghost line = text@.subrange(p as int, q as int);
        assert(ls[seen.len() as int] == line);
        if declares_base64_range(text, p, q) {
            return true;
        }
        proof {
            let old_seen = seen;
            seen = seen.push(line);
            assert forall|i: int| 0 <= i < seen.len() implies !#[trigger] declares_base64(seen[i]) by {
                if i < old_seen.len() {
                    assert(seen[i] == old_seen[i]);
                }
            }
        }
        if q >= text.len() {
            assert(ls =~= seen);
            return false;
        }
        assert(ls =~= seen + lines_from(text@, q + 1));
        p = q + 1;
    }
}

/// Where the headers of a part start after its boundary marker: past the
/// rest of the marker line (carriage returns, spaces, tabs and one line feed).
pub open spec fn skip_boundary(bytes: Seq<u8>, offset: int, end: int) -> int
    decreases end - offset,
{
    if offset < 0 || offset >= end || offset >= bytes.len() {
        offset
    } else if bytes[offset] == 13u8 || bytes[offset] == 32u8 || bytes[offset] == 9u8 {
        skip_boundary(bytes, offset + 1, end)
    } else if bytes[offset] == 10u8 {
        offset + 1
    } else {
        offset
    }
}

/// Lemma: skipping the marker line stays within `offset..=end`.
pub proof fn lemma_skip_boundary(bytes: Seq<u8>, offset: int, end: int)
    requires
        0 <= offset <= end <= bytes.len(),
    ensures
        offset <= skip_boundary(bytes, offset, end) <= end,
    decreases end - offset,
{
    if offset < end && (bytes[offset] == 13u8 || bytes[offset] == 32u8 || bytes[offset] == 9u8) {
        lemma_skip_boundary(bytes, offset + 1, end);
    }
}

/// Skip the rest of a boundary marker line.
pub fn skip_boundary_line(bytes: &[u8], offset: usize, end: usize) -> (r: usize)
    requires
        offset <= end <= bytes@.len(),
    ensures
        r == skip_boundary(bytes@, offset as int, end as int),
{
    let mut i = offset;
    while i < end
        invariant
            offset <= i <= end <= bytes@.len(),
            skip_boundary(bytes@, i as int, end as int) == skip_boundary(bytes@, offset as int, end as int),
        decreases end - i,
    {
        let b = bytes[i];
        if b == 13u8 || b == 32u8 || b == 9u8 {
            i = i + 1;
        } else if b == 10u8 {
            return i + 1;
        } else {
            return i;
        }
    }
    i
}


/// What `mail_parser` reads from a header block: the `Content-Type` media
/// type and its `boundary` parameter, when the block parses and has one.
pub uninterp spec fn header_content_type(headers: Seq<u8>) -> Option<(Seq<char>, Option<Seq<char>>)>;

/// The view of a parsed media type and boundary.
pub open spec fn content_type_view(r: Option<(String, Option<String>)>) -> Option<(Seq<char>, Option<Seq<char>>)> {
    match r {
        None => None,
        Some((t, b)) => Some((t@, match b {
            Some(x) => Some(x@),
            None => None,
        })),
    }
}

/// `MessageParser::parse_headers` (with MIME headers) on a header block,
/// then the media type and `boundary` parameter of its `Content-Type`.
#[verifier::external_body]
fn parse_header_content_type(headers: &[u8]) -> (r: Option<(String, Option<String>)>)
    ensures
        content_type_view(r) == header_content_type(headers@),
{
    let message = mail_parser::MessageParser::new().with_mime_headers().parse_headers(headers)?;
    let content_type = message.content_type()?;
    Some((content_type.ctype().to_owned(), content_type.attribute("boundary").map(str::to_owned)))
}

/// The boundary of the nested parts a header block opens: only multipart
/// media types nest, whatever parameters other types carry.
pub open spec fn boundary_of(headers: Seq<u8>) -> Option<Seq<u8>> {
    match header_content_type(headers) {
        Some((ctype, Some(b))) => if eq_ignore_case(ctype, "multipart"@) {
            Some(encode_utf8(b))
        } else {
            None
        },
        _ => None,
    }
}

/// The boundary of the nested parts a header block opens.
pub fn mime_boundary_from_headers(headers: &[u8]) -> (r: Option<Vec<u8>>)
    ensures
        match r {
            Some(b) => boundary_of(headers@) == Some(b@),
            None => boundary_of(headers@) is None,
        },
{
    match parse_header_content_type(headers) {
        Some((ctype, Some(boundary))) => {
            let c = chars_of(ctype.as_str());
            let n = c.len();
            assert(c@.subrange(0, n as int) =~= c@);
            if eq_ignore_case_range(c.as_slice(), 0, n, "multipart") {
                Some(vstd::slice::slice_to_vec(boundary.as_str().as_bytes()))
            } else {
                None
            }
        },
        _ => None,
    }
}

/// What the MIME parser may reserve for a base64 body before it finds the
/// closing boundary: three quarters of the remaining input.
pub open spec fn base64_reserve(remaining: nat) -> nat {
    (remaining / 4) * 3
}

/// Why the allocation preflight rejected an input.
pub enum PreflightFailure {
    /// A base64 decoder could reserve `reserve` bytes; at most `max` are allowed.
    Reserve { reserve: nat, max: nat },
    /// Multipart bodies nest `depth` deep.
    MimeDepth { depth: nat },
}

/// The error reports the failure.
pub open spec fn reports_failure(e: ConvertError, f: PreflightFailure) -> bool {
    match f {
        PreflightFailure::Reserve { reserve, max } => is_limit_error(e, "max_entry_bytes"@) && (e matches ConvertError::ResourceLimit { detail, .. } && detail@ == "MHTML base64 decoder may reserve "@ + decimal(reserve) + " bytes before locating the MIME boundary; maximum is "@ + decimal(max)),
        PreflightFailure::MimeDepth { depth } => is_limit_error(e, "max_mime_depth"@) && (e matches ConvertError::ResourceLimit { detail, .. } && detail@ == "MHTML MIME nesting depth "@ + decimal(depth) + " exceeds maximum of "@ + decimal(MAX_MIME_DEPTH as nat)),
    }
}

/// Reject a base64 body whose decoder could reserve more than `max_entry_bytes`.
pub fn enforce_base64_parser_reserve(remaining: usize, max_entry_bytes: u64) -> (r: Result<(), ConvertError>)
    ensures
        base64_reserve(remaining as nat) > max_entry_bytes ==> (r matches Err(e) && reports_failure(
            e,
            PreflightFailure::Reserve { reserve: base64_reserve(remaining as nat), max: max_entry_bytes as nat },
        )),
        base64_reserve(remaining as nat) <= max_entry_bytes ==> r is Ok,
{
    let quarter: u64 = remaining as u64 / 4;
    assert(quarter * 3 <= u64::MAX) by (nonlinear_arith)
        requires quarter <= u64::MAX / 4;
    let reserve = quarter * 3;
    if reserve > max_entry_bytes {
        proof {
            reveal_strlit("");
        }
        let detail = message_with_two_numbers(
            "MHTML base64 decoder may reserve ",
            reserve as u128,
            " bytes before locating the MIME boundary; maximum is ",
            max_entry_bytes as u128,
            "",
        );
        assert(detail@ =~= "MHTML base64 decoder may reserve "@ + decimal(reserve as nat)
            + " bytes before locating the MIME boundary; maximum is "@ + decimal(max_entry_bytes as nat));
        return Err(
            ConvertError::ResourceLimit {
                limit: "max_entry_bytes",
                detail,
            },
        );
    }
    Ok(())
}

/// The boundary marker line start: two dashes and the boundary.
pub open spec fn marker_of(boundary: Seq<u8>) -> Seq<u8> {
    seq![45u8, 45u8] + boundary
}

/// The closing dashes after a marker.
pub open spec fn dashes() -> Seq<u8> {
    seq![45u8, 45u8]
}

/// The nesting depth one level down (saturating, as `usize` does).
pub open spec fn deeper(depth: nat) -> nat {
    if depth + 1 > usize::MAX {
        usize::MAX as nat
    } else {
        depth + 1
    }
}

/// The base64 allocation preflight over the parts of a multipart body in
/// `bytes[offset..end]` delimited by `boundary`, `depth` levels down:
/// every part whose headers declare base64 must leave a remaining input
/// whose reserve stays within `max`, and multipart parts are scanned the
/// same way one level deeper, at most `MAX_MIME_DEPTH` levels.
pub open spec fn preflight_multipart(bytes: Seq<u8>, offset: int, end: int, boundary: Seq<u8>, max: nat, depth: nat) -> Option<PreflightFailure>
    decreases end - offset,
{
    if !(0 <= offset && end <= bytes.len()) || offset >= end {
        None
    } else {
        let marker = marker_of(boundary);
        proof {
            lemma_first_occurrence(bytes.subrange(offset, end), marker, 0);
        }
        match find_seq(bytes.subrange(offset, end), marker) {
            None => None,
            Some(mo) => {
                let me = offset + mo + marker.len();
                if me + 2 <= bytes.len() && bytes.subrange(me, me + 2) == dashes() {
                    None
                } else {
                    let hs = skip_boundary(bytes, me, end);
                    proof {
                        lemma_skip_boundary(bytes, me, end);
                        lemma_header_body_start_bounds(bytes, hs, end);
                    }
                    match header_body_start(bytes, hs, end) {
                        None => None,
                        Some((_h, bs)) => {
                            let headers = bytes.subrange(hs, bs);
                            let reserve = base64_reserve((bytes.len() - bs) as nat);
                            if uses_base64(headers) && reserve > max {
                                Some(PreflightFailure::Reserve { reserve, max })
                            } else {
                                proof {
                                    lemma_first_occurrence(bytes.subrange(bs, end), marker, 0);
                                }
                                let np = match find_seq(bytes.subrange(bs, end), marker) {
                                    Some(n) => bs + n,
                                    None => end,
                                };
                                match boundary_of(headers) {
                                    Some(nb) => if deeper(depth) > MAX_MIME_DEPTH {
                                        Some(PreflightFailure::MimeDepth { depth: deeper(depth) })
                                    } else {
                                        match preflight_multipart(bytes, bs, np, nb, max, deeper(depth)) {
                                            Some(f) => Some(f),
                                            None => preflight_multipart(bytes, np, end, boundary, max, depth),
                                        }
                                    },
                                    None => preflight_multipart(bytes, np, end, boundary, max, depth),
                                }
                            }
                        },
                    }
                }
            },
        }
    }
}


/// The detail of a MIME nesting-depth error.
fn mime_depth_error(depth: usize) -> (e: ConvertError)
    ensures
        reports_failure(e, PreflightFailure::MimeDepth { depth: depth as nat }),
{
    proof {
        reveal_strlit("");
    }
    let detail = message_with_two_numbers(
        "MHTML MIME nesting depth ",
        depth as u128,
        " exceeds maximum of ",
        MAX_MIME_DEPTH as u128,
        "",
    );
    assert(detail@ =~= "MHTML MIME nesting depth "@ + decimal(depth as nat) + " exceeds maximum of "@
        + decimal(MAX_MIME_DEPTH as nat));
    ConvertError::ResourceLimit { limit: "max_mime_depth", detail }
}

/// The boundary marker `--boundary`.
fn boundary_marker(boundary: &[u8]) -> (m: Vec<u8>)
    ensures
        m@ == marker_of(boundary@),
{
    let mut marker: Vec<u8> = Vec::new();
    marker.push(45u8);
    marker.push(45u8);
    let mut i: usize = 0;
    while i < boundary.len()
        invariant
            i <= boundary@.len(),
            marker@ == seq![45u8, 45u8] + boundary@.subrange(0, i as int),
        decreases boundary@.len() - i,
    {
        marker.push(boundary[i]);
        assert(boundary@.subrange(0, i + 1) =~= boundary@.subrange(0, i as int).push(boundary@[i as int]));
        i = i + 1;
    }
    assert(boundary@.subrange(0, i as int) =~= boundary@);
    marker
}

/// Scan the parts of a multipart body in `bytes[offset..end]` delimited by
/// `boundary` for base64 bodies whose decoder could over-allocate, and for
/// excessive nesting (`preflight_multipart`).
pub fn preflight_multipart_base64(
    bytes: &[u8],
    offset: usize,
    end: usize,
    boundary: &[u8],
    max_entry_bytes: u64,
    depth: usize,
) -> (r: Result<(), ConvertError>)
    requires
        end <= bytes@.len(),
    ensures
        match preflight_multipart(bytes@, offset as int, end as int, boundary@, max_entry_bytes as nat, depth as nat) {
            None => r is Ok,
            Some(f) => r matches Err(e) && reports_failure(e, f),
        },
    decreases end - offset,
{
    let marker = boundary_marker(boundary);
    let ghost spec_result = preflight_multipart(bytes@, offset as int, end as int, boundary@, max_entry_bytes as nat, depth as nat);
    let mut offset_now = offset;
    while offset_now < end
        invariant
            offset <= offset_now,
            end <= bytes@.len(),
            marker@ == marker_of(boundary@),
            spec_result == preflight_multipart(bytes@, offset_now as int, end as int, boundary@, max_entry_bytes as nat, depth as nat),
            spec_result == preflight_multipart(bytes@, offset as int, end as int, boundary@, max_entry_bytes as nat, depth as nat),
        decreases end - offset_now,
    {
        let ghost here = offset_now;
        proof {
            lemma_first_occurrence(bytes@.subrange(offset_now as int, end as int), marker@, 0);
        }
        let mo = match find_bytes_in(bytes, offset_now, end, marker.as_slice()) {
            None => {
                assert(preflight_multipart(bytes@, offset_now as int, end as int, boundary@, max_entry_bytes as nat, depth as nat) is None);
                return Ok(());
            },
            Some(x) => x,
        };
        let me = offset_now + mo + marker.len();
        if bytes.len() >= 2 && me <= bytes.len() - 2 && bytes[me] == 45u8 && bytes[me + 1] == 45u8 {
            assert(bytes@.subrange(me as int, me + 2) =~= dashes());
            return Ok(());
        }
        assert(!(me + 2 <= bytes@.len() && bytes@.subrange(me as int, me + 2) == dashes())) by {
            if me + 2 <= bytes@.len() && bytes@.subrange(me as int, me + 2) == dashes() {
                assert(bytes@.subrange(me as int, me + 2)[0] == bytes@[me as int]);
                assert(bytes@.subrange(me as int, me + 2)[1] == bytes@[me + 1]);
            }
        }
        let hs = skip_boundary_line(bytes, me, end);
        proof {
            lemma_skip_boundary(bytes@, me as int, end as int);
            lemma_header_body_start_bounds(bytes@, hs as int, end as int);
        }
        let bs = match mime_header_body_start(bytes, hs, end) {
            None => return Ok(()),
            Some((_h, b)) => b,
        };
        let headers = vstd::slice::slice_subrange(bytes, hs, bs);
        if headers_use_base64(headers) {
            match enforce_base64_parser_reserve(bytes.len() - bs, max_entry_bytes) {
                Err(e) => return Err(e),
                Ok(()) => {},
            }
        }
        proof {
            lemma_first_occurrence(bytes@.subrange(bs as int, end as int), marker@, 0);
        }
        let next_parent = match find_bytes_in(bytes, bs, end, marker.as_slice()) {
            Some(n) => bs + n,
            None => end,
        };
        match mime_boundary_from_headers(headers) {
            Some(nested_boundary) => {
                let nested_depth = depth.saturating_add(1);
                if nested_depth > MAX_MIME_DEPTH {
                    return Err(mime_depth_error(nested_depth));
                }
                match preflight_multipart_base64(
                    bytes,
                    bs,
                    next_parent,
                    nested_boundary.as_slice(),
                    max_entry_bytes,
                    nested_depth,
                ) {
                    Err(e) => return Err(e),
                    Ok(()) => {},
                }
            },
            None => {},
        }
        offset_now = next_parent;
    }
    Ok(())
}


/// The base64 allocation preflight of a whole container: the top-level
/// headers, then the parts of a top-level multipart body (`preflight_multipart`).
pub open spec fn allocation_preflight(bytes: Seq<u8>, max: nat) -> Option<PreflightFailure> {
    match header_body_start(bytes, 0, bytes.len() as int) {
        None => None,
        Some((_h, bs)) => {
            let headers = bytes.subrange(0, bs);
            let reserve = base64_reserve((bytes.len() - bs) as nat);
            if uses_base64(headers) && reserve > max {
                Some(PreflightFailure::Reserve { reserve, max })
            } else {
                match boundary_of(headers) {
                    None => None,
                    Some(b) => preflight_multipart(bytes, bs, bytes.len() as int, b, max, 1),
                }
            }
        },
    }
}

/// Reject, before any MIME parsing, input on which the parser's base64
/// decoder could reserve more than `max_entry_bytes` bytes, or whose
/// multipart bodies nest deeper than `MAX_MIME_DEPTH`.
pub fn preflight_base64_decoder_allocations_with_limit(bytes: &[u8], max_entry_bytes: u64) -> (r: Result<(), ConvertError>)
    ensures
        match allocation_preflight(bytes@, max_entry_bytes as nat) {
            None => r is Ok,
            Some(f) => r matches Err(e) && reports_failure(e, f),
        },
{
    proof {
        lemma_header_body_start_bounds(bytes@, 0, bytes@.len() as int);
    }
    let body_start = match mime_header_body_start(bytes, 0, bytes.len()) {
        None => return Ok(()),
        Some((_h, b)) => b,
    };
    let headers = vstd::slice::slice_subrange(bytes, 0, body_start);
    if headers_use_base64(headers) {
        match enforce_base64_parser_reserve(bytes.len() - body_start, max_entry_bytes) {
            Err(e) => return Err(e),
            Ok(()) => {},
        }
    }
    match mime_boundary_from_headers(headers) {
        None => Ok(()),
        Some(boundary) => preflight_multipart_base64(
            bytes,
            body_start,
            bytes.len(),
            boundary.as_slice(),
            max_entry_bytes,
            1,
        ),
    }
}

/// The allocation preflight with the entry limit `MAX_ENTRY_BYTES`.
pub fn preflight_base64_decoder_allocations(bytes: &[u8]) -> (r: Result<(), ConvertError>)
    ensures
        match allocation_preflight(bytes@, MAX_ENTRY_BYTES as nat) {
            None => r is Ok,
            Some(f) => r matches Err(e) && reports_failure(e, f),
        },
{
    preflight_base64_decoder_allocations_with_limit(bytes, MAX_ENTRY_BYTES)
}

} // verus!
