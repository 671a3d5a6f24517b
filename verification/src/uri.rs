//! Resource references inside an MHTML archive: Content-ID normalization,
//! absolute-URI detection, reference resolution against a base, and path
//! normalization.
use vstd::prelude::*;
use vstd::utf8::{decode_utf8, encode_utf8, valid_utf8};
use crate::charset::utf8_text;
use crate::mime::{starts_with_range, find_seq, first_occurrence_from, lemma_first_occurrence, occurs_at, push_range};
use crate::text::{
    class_pred, in_class, lower_char, trim_class, trim_start_by, trim_end_by,
    CharClass, chars_of, eq_ignore_case, eq_ignore_case_range, first_index_in, first_index_of,
    lemma_first_index_of, lower, lower_chars, starts_with, string_of, trim, trim_angles,
    trim_indices,
};

verus! {

broadcast use vstd::seq_lib::group_seq_properties;

/// `value` with an ASCII `prefix` removed, compared ignoring ASCII case.
pub open spec fn strip_prefix_ci(value: Seq<char>, prefix: Seq<char>) -> Option<Seq<char>> {
    if prefix.len() <= value.len() && eq_ignore_case(value.subrange(0, prefix.len() as int), prefix) {
        Some(value.subrange(prefix.len() as int, value.len() as int))
    } else {
        None
    }
}

/// The key a Content-ID is matched by: trimmed, without a `cid:` prefix
/// (any case) or angle brackets, ASCII-lowercased.
pub open spec fn content_id_key(value: Seq<char>) -> Seq<char> {
    let v = trim(value);
    let v2 = match strip_prefix_ci(v, "cid:"@) {
        Some(r) => r,
        None => v,
    };
    lower(trim_angles(v2))
}

/// A reference in canonical form: trimmed, and a `cid:` reference with its
/// identifier normalized.
pub open spec fn canonical(value: Seq<char>) -> Seq<char> {
    let v = trim(value);
    match strip_prefix_ci(v, "cid:"@) {
        Some(r) => "cid:"@ + content_id_key(r),
        None => v,
    }
}

/// An ASCII letter.
pub open spec fn is_alpha(c: char) -> bool {
    ('a' <= c && c <= 'z') || ('A' <= c && c <= 'Z')
}

/// A character allowed after the first one of a URI scheme.
pub open spec fn is_scheme_char(c: char) -> bool {
    is_alpha(c) || ('0' <= c && c <= '9') || c == '+' || c == '-' || c == '.'
}

/// The reference starts with a URI scheme and a colon (RFC 3986).
pub open spec fn absolute_uri(s: Seq<char>) -> bool {
    match first_index_of(s, ':', 0) {
        Some(k) => k > 0 && is_alpha(s[0]) && forall|i: int| 1 <= i < k ==> #[trigger] is_scheme_char(
            s[i],
        ),
        None => false,
    }
}

/// Where the query or fragment of a reference starts (its length if none).
pub open spec fn suffix_start(s: Seq<char>) -> int {
    match (first_index_of(s, '?', 0), first_index_of(s, '#', 0)) {
        (Some(a), Some(b)) => if a <= b {
            a
        } else {
            b
        },
        (Some(a), None) => a,
        (None, Some(b)) => b,
        (None, None) => s.len() as int,
    }
}

/// The part of a reference that names a resource: everything before `#`.
pub open spec fn lookup_key(r: Seq<char>) -> Seq<char> {
    match first_index_of(r, '#', 0) {
        Some(k) => r.subrange(0, k),
        None => r,
    }
}

/// The index of the last `c` in `s`.
pub open spec fn last_index_of(s: Seq<char>, c: char) -> Option<int>
    decreases s.len(),
{
    if s.len() == 0 {
        None
    } else if s.last() == c {
        Some(s.len() - 1)
    } else {
        last_index_of(s.drop_last(), c)
    }
}

/// One path segment applied to the stack of kept segments: empty and `.`
/// segments vanish, `..` drops the last kept one.
pub open spec fn segment_step(stack: Seq<Seq<char>>, seg: Seq<char>) -> Seq<Seq<char>> {
    if seg.len() == 0 || seg == "."@ {
        stack
    } else if seg == ".."@ {
        if stack.len() > 0 {
            stack.drop_last()
        } else {
            stack
        }
    } else {
        stack.push(seg)
    }
}

/// The segments kept after applying all of `segs`.
pub open spec fn kept_segments(segs: Seq<Seq<char>>) -> Seq<Seq<char>>
    decreases segs.len(),
{
    if segs.len() == 0 {
        seq![]
    } else {
        segment_step(kept_segments(segs.drop_last()), segs.last())
    }
}

/// The index of the next `sep` at or after `p`, or the length.
pub open spec fn next_sep(s: Seq<char>, sep: char, p: int) -> int
    decreases s.len() - p,
{
    if p < 0 || p >= s.len() {
        s.len() as int
    } else if s[p] == sep {
        p
    } else {
        next_sep(s, sep, p + 1)
    }
}

/// Lemma: the next separator lies between `p` and the end.
pub proof fn lemma_next_sep(s: Seq<char>, sep: char, p: int)
    requires
        0 <= p <= s.len(),
    ensures
        p <= next_sep(s, sep, p) <= s.len(),
        next_sep(s, sep, p) < s.len() ==> s[next_sep(s, sep, p)] == sep,
        forall|k: int| p <= k < next_sep(s, sep, p) ==> s[k] != sep,
    decreases s.len() - p,
{
    if p < s.len() && s[p] != sep {
        lemma_next_sep(s, sep, p + 1);
    }
}

/// The pieces of `s` between separators, from position `p` (`str::split`).
pub open spec fn pieces_from(s: Seq<char>, sep: char, p: int) -> Seq<Seq<char>>
    decreases s.len() - p,
{
    if p < 0 || p > s.len() {
        seq![]
    } else {
        let q = next_sep(s, sep, p);
        proof {
            lemma_next_sep(s, sep, p);
        }
        if q >= s.len() {
            seq![s.subrange(p, s.len() as int)]
        } else {
            seq![s.subrange(p, q)] + pieces_from(s, sep, q + 1)
        }
    }
}

/// The segments joined with `/`.
pub open spec fn join_slash(segs: Seq<Seq<char>>) -> Seq<char>
    decreases segs.len(),
{
    if segs.len() == 0 {
        seq![]
    } else if segs.len() == 1 {
        segs[0]
    } else {
        join_slash(segs.drop_last()) + "/"@ + segs.last()
    }
}

/// A URL path with empty, `.` and `..` segments resolved, absolute, and
/// keeping a trailing slash.
pub open spec fn normalized_path(path: Seq<char>) -> Seq<char> {
    let n = "/"@ + join_slash(kept_segments(pieces_from(path, '/', 0)));
    if path.len() > 0 && path.last() == '/' && !(n.len() > 0 && n.last() == '/') {
        n.push('/')
    } else {
        n
    }
}

/// A reference resolved against an optional base reference.
pub open spec fn resolved(base: Option<Seq<char>>, value: Seq<char>) -> Seq<char> {
    let v = canonical(value);
    if v.len() == 0 || starts_with(v, "cid:"@) || absolute_uri(v) {
        v
    } else {
        match base {
            None => v,
            Some(b) => if starts_with(v, "//"@) {
                match first_index_of(b, ':', 0) {
                    Some(k) => b.subrange(0, k) + ":"@ + v,
                    None => v,
                }
            } else {
                match find_seq(b, "://"@) {
                    None => v,
                    Some(k) => {
                        let scheme = b.subrange(0, k);
                        let rest = b.subrange(k + 3, b.len() as int);
                        let ae = match first_index_of(rest, '/', 0) {
                            Some(i) => i,
                            None => rest.len() as int,
                        };
                        let authority = rest.subrange(0, ae);
                        let bws = if ae < rest.len() {
                            rest.subrange(ae, rest.len() as int)
                        } else {
                            "/"@
                        };
                        let base_path = bws.subrange(0, suffix_start(bws));
                        let rp = v.subrange(0, suffix_start(v));
                        let suffix = v.subrange(suffix_start(v), v.len() as int);
                        if rp.len() == 0 {
                            scheme + "://"@ + authority + base_path + suffix
                        } else {
                            let joined = if starts_with(rp, "/"@) {
                                rp
                            } else {
                                let de = match last_index_of(base_path, '/') {
                                    Some(i) => i + 1,
                                    None => 0,
                                };
                                base_path.subrange(0, de) + rp
                            };
                            scheme + "://"@ + authority + normalized_path(joined) + suffix
                        }
                    },
                }
            },
        }
    }
}


/// Appends the characters of a literal.
pub fn push_str(out: &mut Vec<char>, lit: &str)
    ensures
        final(out)@ == old(out)@ + lit@,
{
    let c = chars_of(lit);
    let n = c.len();
    push_range(out, c.as_slice(), 0, n);
    assert(c@.subrange(0, n as int) =~= c@);
}

/// The rest of `v[lo..hi]` after an ASCII `prefix`, compared ignoring ASCII
/// case: the index where the rest starts.
pub fn strip_prefix_ci_range(v: &[char], lo: usize, hi: usize, prefix: &str) -> (r: Option<usize>)
    requires
        lo <= hi <= v@.len(),
    ensures
        match r {
            Some(i) => lo <= i <= hi && strip_prefix_ci(v@.subrange(lo as int, hi as int), prefix@) == Some(
                v@.subrange(i as int, hi as int),
            ),
            None => strip_prefix_ci(v@.subrange(lo as int, hi as int), prefix@) is None,
        },
{
    let pc = chars_of(prefix);
    let n = pc.len();
    if n <= hi - lo {
        assert(v@.subrange(lo as int, hi as int).subrange(0, n as int) =~= v@.subrange(lo as int, lo + n));
        if eq_ignore_case_range(v, lo, lo + n, prefix) {
            assert(v@.subrange(lo as int, hi as int).subrange(n as int, (hi - lo) as int) =~= v@.subrange(lo + n, hi as int));
            return Some(lo + n);
        }
    }
    None
}

/// `normalize_content_id` on `v[lo..hi]`.
fn content_id_key_range(v: &[char], lo: usize, hi: usize) -> (r: Vec<char>)
    requires
        lo <= hi <= v@.len(),
    ensures
        r@ == content_id_key(v@.subrange(lo as int, hi as int)),
{
    let (a, b) = trim_indices(v, lo, hi, CharClass::Whitespace);
    let c = match strip_prefix_ci_range(v, a, b, "cid:") {
        Some(i) => i,
        None => a,
    };
    assert(c == a ==> v@.subrange(c as int, b as int) == v@.subrange(a as int, b as int));
    let (x, y) = trim_indices(v, c, b, CharClass::Angle);
    let mut piece: Vec<char> = Vec::new();
    push_range(&mut piece, v, x, y);
    assert(piece@ =~= v@.subrange(x as int, y as int));
    lower_chars(piece.as_slice())
}

/// Normalize a Content-ID for matching (`content_id_key`).
pub fn normalize_content_id(value: &str) -> (r: String)
    ensures
        r@ == content_id_key(value@),
{
    let v = chars_of(value);
    let n = v.len();
    assert(v@.subrange(0, n as int) =~= v@);
    let k = content_id_key_range(v.as_slice(), 0, n);
    string_of(k.as_slice())
}

/// `canonical` on a character sequence.
fn canonical_chars(v: &[char]) -> (r: Vec<char>)
    ensures
        r@ == canonical(v@),
{
    let n = v.len();
    assert(v@.subrange(0, n as int) =~= v@);
    let (a, b) = trim_indices(v, 0, n, CharClass::Whitespace);
    let mut out: Vec<char> = Vec::new();
    match strip_prefix_ci_range(v, a, b, "cid:") {
        Some(i) => {
            push_str(&mut out, "cid:");
            let k = content_id_key_range(v, i, b);
            let kn = k.len();
            push_range(&mut out, k.as_slice(), 0, kn);
            assert(k@.subrange(0, kn as int) =~= k@);
        },
        None => {
            push_range(&mut out, v, a, b);
        },
    }
    out
}

/// The canonical form of a reference (`canonical`).
pub fn canonical_reference(value: &str) -> (r: String)
    ensures
        r@ == canonical(value@),
{
    let v = chars_of(value);
    let c = canonical_chars(v.as_slice());
    string_of(c.as_slice())
}

/// Whether a reference starts with a URI scheme (`absolute_uri`).
pub fn absolute_uri_chars(s: &[char]) -> (r: bool)
    ensures
        r == absolute_uri(s@),
{
    let n = s.len();
    assert(s@.subrange(0, n as int) =~= s@);
    match first_index_in(s, 0, n, ':') {
        None => false,
        Some(k) => {
            proof { lemma_first_index_of(s@, ':', 0); }
            if k == 0 {
                return false;
            }
            let c0 = s[0];
            if !(('a' <= c0 && c0 <= 'z') || ('A' <= c0 && c0 <= 'Z')) {
                return false;
            }
            let mut i: usize = 1;
            while i < k
                invariant
                    1 <= i <= k < s@.len(),
                    first_index_of(s@, ':', 0) == Some(k as int),
                    is_alpha(s@[0]),
                    forall|j: int| 1 <= j < i ==> #[trigger] is_scheme_char(s@[j]),
                decreases k - i,
            {
                let c = s[i];
                if !(('a' <= c && c <= 'z') || ('A' <= c && c <= 'Z') || ('0' <= c && c <= '9')
                    || c == '+' || c == '-' || c == '.') {
                    assert(!is_scheme_char(s@[i as int]));
                    return false;
                }
                i = i + 1;
            }
            true
        },
    }
}

/// Where the query or fragment of `s[lo..hi]` starts, as an index of `s`.
pub fn path_suffix_start(s: &[char], lo: usize, hi: usize) -> (r: usize)
    requires
        lo <= hi <= s@.len(),
    ensures
        lo <= r <= hi,
        r - lo == suffix_start(s@.subrange(lo as int, hi as int)),
{
    let ghost t = s@.subrange(lo as int, hi as int);
    proof {
        lemma_first_index_of(t, '?', 0);
        lemma_first_index_of(t, '#', 0);
    }
    match (first_index_in(s, lo, hi, '?'), first_index_in(s, lo, hi, '#')) {
        (Some(a), Some(b)) => if a <= b {
            a
        } else {
            b
        },
        (Some(a), None) => a,
        (None, Some(b)) => b,
        (None, None) => hi,
    }
}

/// The part of a reference that names a resource (`lookup_key`).
pub fn resource_lookup_key<'a>(reference: &'a str) -> (r: &'a str)
    ensures
        r@ == lookup_key(reference@),
{
    let v = chars_of(reference);
    let n = v.len();
    assert(v@.subrange(0, n as int) =~= v@);
    proof { lemma_first_index_of(v@, '#', 0); }
    let end = match first_index_in(v.as_slice(), 0, n, '#') {
        Some(k) => k,
        None => n,
    };
    reference.substring_char(0, end)
}


/// The segments of `path` named by ranges.
pub open spec fn range_view(path: Seq<char>, ranges: Seq<(usize, usize)>) -> Seq<Seq<char>> {
    ranges.map_values(|r: (usize, usize)| path.subrange(r.0 as int, r.1 as int))
}

/// Lemma: the pieces from `p` are the piece at `p` and the pieces after it.
proof fn lemma_pieces_step(s: Seq<char>, sep: char, p: int)
    requires
        0 <= p <= s.len(),
    ensures
        next_sep(s, sep, p) >= s.len() ==> pieces_from(s, sep, p) == seq![s.subrange(p, s.len() as int)],
        next_sep(s, sep, p) < s.len() ==> pieces_from(s, sep, p) == seq![s.subrange(p, next_sep(s, sep, p))]
            + pieces_from(s, sep, next_sep(s, sep, p) + 1),
{
    lemma_next_sep(s, sep, p);
}

/// The index of the next `sep` at or after `p`.
fn next_sep_exec(s: &[char], sep: char, p: usize) -> (q: usize)
    requires
        p <= s@.len(),
    ensures
        q == next_sep(s@, sep, p as int),
{
    let mut q = p;
    proof { lemma_next_sep(s@, sep, p as int); }
    while q < s.len() && s[q] != sep
        invariant
            p <= q <= s@.len(),
            next_sep(s@, sep, q as int) == next_sep(s@, sep, p as int),
        decreases s@.len() - q,
    {
        q = q + 1;
    }
    q
}

/// Lemma: joining one more segment.
proof fn lemma_join_step(segs: Seq<Seq<char>>, i: int)
    requires
        0 <= i < segs.len(),
    ensures
        join_slash(segs.subrange(0, i + 1)) == if i == 0 {
            segs[0]
        } else {
            join_slash(segs.subrange(0, i)) + "/"@ + segs[i]
        },
{
    assert(segs.subrange(0, i + 1).drop_last() =~= segs.subrange(0, i));
}

/// The kept segments of `path`, as ranges of it.
fn kept_segment_ranges(path: &[char]) -> (r: Vec<(usize, usize)>)
    ensures
        range_view(path@, r@) == kept_segments(pieces_from(path@, '/', 0)),
        forall|k: int| 0 <= k < r@.len() ==> (#[trigger] r@[k]).0 <= r@[k].1 <= path@.len(),
{
    let mut stack: Vec<(usize, usize)> = Vec::new();
    let mut p: usize = 0;
    let ghost all = pieces_from(path@, '/', 0);
    let ghost mut seen: Seq<Seq<char>> = seq![];
    loop
        invariant
            p <= path@.len(),
            all == pieces_from(path@, '/', 0),
            all == seen + pieces_from(path@, '/', p as int),
            range_view(path@, stack@) == kept_segments(seen),
            forall|k: int| 0 <= k < stack@.len() ==> (#[trigger] stack@[k]).0 <= stack@[k].1 <= path@.len(),
        decreases path@.len() - p,
    {
        let q = next_sep_exec(path, '/', p);
        proof {
            lemma_pieces_step(path@, '/', p as int);
            lemma_next_sep(path@, '/', p as int);
        }
        let ghost seg = path@.subrange(p as int, q as int);
        let ghost before = range_view(path@, stack@);
        let n = q - p;
        if n == 0 || (n == 1 && path[p] == '.') {
            proof {
                reveal_strlit(".");
                if n == 1 {
                    assert(seg =~= "."@);
                }
            }
        } else if n == 2 && path[p] == '.' && path[p + 1] == '.' {
            proof {
                reveal_strlit("..");
                reveal_strlit(".");
                assert(seg =~= ".."@);
            }
            if stack.len() > 0 {
                let _ = stack.pop();
                assert(range_view(path@, stack@) =~= before.drop_last());
            }
        } else {
            proof {
                reveal_strlit("..");
                reveal_strlit(".");
                if n == 1 {
                    assert(seg[0] == path@[p as int]);
                }
                if n == 2 {
                    assert(seg[0] == path@[p as int]);
                    assert(seg[1] == path@[p + 1]);
                }
                assert(seg.len() == n);
            }
            stack.push((p, q));
            assert(range_view(path@, stack@) =~= before.push(seg));
        }
        proof {
            assert(seen.push(seg).drop_last() =~= seen);
            seen = seen.push(seg);
        }
        if q >= path.len() {
            assert(all =~= seen);
            return stack;
        }
        assert(all =~= seen + pieces_from(path@, '/', q + 1));
        p = q + 1;
    }
}

/// `normalized_path` on a character sequence.
fn normalize_path_chars(path: &[char]) -> (r: Vec<char>)
    ensures
        r@ == normalized_path(path@),
{
    let ranges = kept_segment_ranges(path);
    let ghost segs = range_view(path@, ranges@);
    let mut out: Vec<char> = Vec::new();
    out.push('/');
    proof { reveal_strlit("/"); }
    let mut i: usize = 0;
    assert(segs.subrange(0, 0) =~= Seq::<Seq<char>>::empty());
    while i < ranges.len()
        invariant
            i <= ranges@.len(),
            segs == range_view(path@, ranges@),
            forall|k: int| 0 <= k < ranges@.len() ==> (#[trigger] ranges@[k]).0 <= ranges@[k].1 <= path@.len(),
            out@ == "/"@ + join_slash(segs.subrange(0, i as int)),
            "/"@ == seq!['/'],
        decreases ranges@.len() - i,
    {
        proof { lemma_join_step(segs, i as int); }
        if i > 0 {
            out.push('/');
        }
        let (a, b) = ranges[i];
        push_range(&mut out, path, a, b);
        assert(segs[i as int] == path@.subrange(a as int, b as int));
        i = i + 1;
    }
    assert(segs.subrange(0, i as int) =~= segs);
    if path.len() > 0 && path[path.len() - 1] == '/' && !(out.len() > 0 && out[out.len() - 1] == '/') {
        out.push('/');
    }
    out
}

/// A URL path with empty, `.` and `..` segments resolved (`normalized_path`).
pub fn normalize_url_path(path: &str) -> (r: String)
    ensures
        r@ == normalized_path(path@),
{
    let v = chars_of(path);
    let n = normalize_path_chars(v.as_slice());
    string_of(n.as_slice())
}


/// The first position of `"://"` in `s[lo..hi]`, relative to `lo`.
fn find_scheme_separator(s: &[char], lo: usize, hi: usize) -> (r: Option<usize>)
    requires
        lo <= hi <= s@.len(),
    ensures
        match r {
            Some(i) => find_seq(s@.subrange(lo as int, hi as int), "://"@) == Some(i as int),
            None => find_seq(s@.subrange(lo as int, hi as int), "://"@) is None,
        },
{
    proof { reveal_strlit("://"); }
    let ghost h = s@.subrange(lo as int, hi as int);
    let ghost pat = "://"@;
    assert(pat =~= seq![':', '/', '/']);
    if hi - lo < 3 {
        return None;
    }
    let mut i: usize = 0;
    while i <= (hi - lo) - 3
        invariant
            lo <= hi <= s@.len(),
            hi - lo >= 3,
            h == s@.subrange(lo as int, hi as int),
            pat == "://"@,
            pat =~= seq![':', '/', '/'],
            find_seq(h, pat) == first_occurrence_from(h, pat, i as int),
        decreases h.len() - i,
    {
        if s[lo + i] == ':' && s[lo + i + 1] == '/' && s[lo + i + 2] == '/' {
            assert(h.subrange(i as int, i + 3) =~= pat);
            return Some(i);
        }
        assert(!occurs_at(h, pat, i as int)) by {
            if h.subrange(i as int, i + 3) == pat {
                assert(h.subrange(i as int, i + 3)[0] == h[i as int]);
                assert(h.subrange(i as int, i + 3)[1] == h[i + 1]);
                assert(h.subrange(i as int, i + 3)[2] == h[i + 2]);
            }
        }
        i = i + 1;
    }
    None
}

/// Lemma: the last index found holds `c` and lies inside.
proof fn lemma_last_index_of(s: Seq<char>, c: char)
    ensures
        last_index_of(s, c) matches Some(i) ==> 0 <= i < s.len() && s[i] == c,
    decreases s.len(),
{
    if s.len() > 0 && s.last() != c {
        lemma_last_index_of(s.drop_last(), c);
    }
}

/// The index of the last `c` in `s[lo..hi]`, relative to `lo`.
fn last_index_in(s: &[char], lo: usize, hi: usize, c: char) -> (r: Option<usize>)
    requires
        lo <= hi <= s@.len(),
    ensures
        match r {
            Some(i) => last_index_of(s@.subrange(lo as int, hi as int), c) == Some(i as int),
            None => last_index_of(s@.subrange(lo as int, hi as int), c) is None,
        },
{
    let mut j = hi;
    while j > lo
        invariant
            lo <= j <= hi <= s@.len(),
            last_index_of(s@.subrange(lo as int, hi as int), c) == last_index_of(s@.subrange(lo as int, j as int), c),
        decreases j,
    {
        let ghost t = s@.subrange(lo as int, j as int);
        assert(t.drop_last() =~= s@.subrange(lo as int, j - 1));
        if s[j - 1] == c {
            return Some(j - 1 - lo);
        }
        j = j - 1;
    }
    None
}

/// `resolved` for a reference `v` already in canonical form that needs a
/// base with a scheme and authority.
fn resolve_against_authority(b: &[char], k: usize, v: &[char]) -> (r: Vec<char>)
    requires
        find_seq(b@, "://"@) == Some(k as int),
        !starts_with(v@, "//"@),
    ensures
        r@ == ({
            let scheme = b@.subrange(0, k as int);
            let rest = b@.subrange(k + 3, b@.len() as int);
            let ae = match first_index_of(rest, '/', 0) {
                Some(i) => i,
                None => rest.len() as int,
            };
            let authority = rest.subrange(0, ae);
            let bws = if ae < rest.len() {
                rest.subrange(ae, rest.len() as int)
            } else {
                "/"@
            };
            let base_path = bws.subrange(0, suffix_start(bws));
            let rp = v@.subrange(0, suffix_start(v@));
            let suffix = v@.subrange(suffix_start(v@), v@.len() as int);
            if rp.len() == 0 {
                scheme + "://"@ + authority + base_path + suffix
            } else {
                let joined = if starts_with(rp, "/"@) {
                    rp
                } else {
                    let de = match last_index_of(base_path, '/') {
                        Some(i) => i + 1,
                        None => 0,
                    };
                    base_path.subrange(0, de) + rp
                };
                scheme + "://"@ + authority + normalized_path(joined) + suffix
            }
        }),
{
    proof {
        lemma_first_occurrence(b@, "://"@, 0);
        reveal_strlit("://");
        reveal_strlit("/");
    }
    let bn = b.len();
    let rest_start = k + 3;
    let ghost rest = b@.subrange(rest_start as int, bn as int);
    proof { lemma_first_index_of(rest, '/', 0); }
    let ae = match first_index_in(b, rest_start, bn, '/') {
        Some(i) => i,
        None => bn,
    };
    // The base path with its suffix: the rest after the authority, or "/".
    let mut bws: Vec<char> = Vec::new();
    if ae < bn {
        push_range(&mut bws, b, ae, bn);
    } else {
        bws.push('/');
    }
    let ghost bws_spec = if ae - rest_start < rest.len() {
        rest.subrange(ae - rest_start, rest.len() as int)
    } else {
        "/"@
    };
    assert(bws@ =~= bws_spec);
    let bwn = bws.len();
    assert(bws@.subrange(0, bwn as int) =~= bws@);
    let bp_end = path_suffix_start(bws.as_slice(), 0, bwn);
    let vn = v.len();
    assert(v@.subrange(0, vn as int) =~= v@);
    let rp_end = path_suffix_start(v, 0, vn);
    let mut out: Vec<char> = Vec::new();
    push_range(&mut out, b, 0, k);
    push_str(&mut out, "://");
    push_range(&mut out, b, rest_start, ae);
    assert(b@.subrange(rest_start as int, ae as int) =~= rest.subrange(0, ae - rest_start));
    if rp_end == 0 {
        push_range(&mut out, bws.as_slice(), 0, bp_end);
        push_range(&mut out, v, rp_end, vn);
        return out;
    }
    let mut joined: Vec<char> = Vec::new();
    if v[0] == '/' {
        push_range(&mut joined, v, 0, rp_end);
        assert(starts_with(v@.subrange(0, rp_end as int), "/"@)) by {
            assert(v@.subrange(0, rp_end as int).subrange(0, 1) =~= "/"@);
        }
    } else {
        assert(!starts_with(v@.subrange(0, rp_end as int), "/"@)) by {
            if starts_with(v@.subrange(0, rp_end as int), "/"@) {
                assert(v@.subrange(0, rp_end as int).subrange(0, 1)[0] == v@[0]);
            }
        }
        let ghost base_path = bws@.subrange(0, bp_end as int);
        proof { lemma_last_index_of(base_path, '/'); }
        let de = match last_index_in(bws.as_slice(), 0, bp_end, '/') {
            Some(i) => i + 1,
            None => 0,
        };
        push_range(&mut joined, bws.as_slice(), 0, de);
        assert(bws@.subrange(0, de as int) =~= base_path.subrange(0, de as int));
        push_range(&mut joined, v, 0, rp_end);
    }
    let normalized = normalize_path_chars(joined.as_slice());
    let nn = normalized.len();
    push_range(&mut out, normalized.as_slice(), 0, nn);
    assert(normalized@.subrange(0, nn as int) =~= normalized@);
    push_range(&mut out, v, rp_end, vn);
    out
}


/// The view of an optional string slice.
pub open spec fn opt_view(s: Option<&str>) -> Option<Seq<char>> {
    match s {
        Some(x) => Some(x@),
        None => None,
    }
}

/// `resolved` on character sequences.
pub fn resolve_chars(base: Option<&[char]>, value: &[char]) -> (r: Vec<char>)
    ensures
        r@ == resolved(
            match base {
                Some(b) => Some(b@),
                None => None,
            },
            value@,
        ),
{
    let v = canonical_chars(value);
    let vn = v.len();
    assert(v@.subrange(0, vn as int) =~= v@);
    if vn == 0 || starts_with_range(v.as_slice(), 0, vn, "cid:") || absolute_uri_chars(v.as_slice()) {
        return v;
    }
    let b = match base {
        None => return v,
        Some(b) => b,
    };
    let bn = b.len();
    assert(b@.subrange(0, bn as int) =~= b@);
    if starts_with_range(v.as_slice(), 0, vn, "//") {
        proof { lemma_first_index_of(b@, ':', 0); }
        return match first_index_in(b, 0, bn, ':') {
            Some(k) => {
                let mut out: Vec<char> = Vec::new();
                push_range(&mut out, b, 0, k);
                push_str(&mut out, ":");
                push_range(&mut out, v.as_slice(), 0, vn);
                out
            },
            None => v,
        };
    }
    match find_scheme_separator(b, 0, bn) {
        None => v,
        Some(k) => resolve_against_authority(b, k, v.as_slice()),
    }
}

/// Resolve a resource reference against an optional base (`resolved`).
pub fn resolve_resource_reference(base: Option<&str>, value: &str) -> (r: String)
    ensures
        r@ == resolved(opt_view(base), value@),
{
    let vc = chars_of(value);
    let r = match base {
        Some(b) => {
            let bc = chars_of(b);
            resolve_chars(Some(bc.as_slice()), vc.as_slice())
        },
        None => resolve_chars(None, vc.as_slice()),
    };
    string_of(r.as_slice())
}

/// The value of an ASCII hex digit.
pub open spec fn hex_value(b: u8) -> Option<u8> {
    if 48 <= b && b <= 57 {
        Some((b - 48) as u8)
    } else if 97 <= b && b <= 102 {
        Some((b - 87) as u8)
    } else if 65 <= b && b <= 70 {
        Some((b - 55) as u8)
    } else {
        None
    }
}

/// The bytes with each `%` followed by two hex digits replaced by the byte
/// the digits name; other bytes, a lone `%` among them, stay.
pub open spec fn percent_decoded(b: Seq<u8>) -> Seq<u8>
    decreases b.len(),
{
    if b.len() == 0 {
        seq![]
    } else if b[0] == 37 && b.len() >= 3 && hex_value(b[1]) is Some && hex_value(b[2]) is Some {
        seq![(hex_value(b[1])->0 * 16 + hex_value(b[2])->0) as u8] + percent_decoded(b.subrange(3, b.len() as int))
    } else {
        seq![b[0]] + percent_decoded(b.drop_first())
    }
}

/// A URL fragment as an anchor name: its UTF-8 bytes percent-decoded, read
/// as UTF-8 when they are valid UTF-8, else the fragment as written.
pub open spec fn fragment_decoded(f: Seq<char>) -> Seq<char> {
    let d = percent_decoded(encode_utf8(f));
    if valid_utf8(d) {
        decode_utf8(d)
    } else {
        f
    }
}

/// The value of an ASCII hex digit (`hex_value`).
fn hex_value_exec(b: u8) -> (r: Option<u8>)
    ensures
        r == hex_value(b),
{
    if 48 <= b && b <= 57 {
        Some(b - 48)
    } else if 97 <= b && b <= 102 {
        Some(b - 87)
    } else if 65 <= b && b <= 70 {
        Some(b - 55)
    } else {
        None
    }
}

/// The bytes percent-decoded (`percent_decoded`).
pub fn percent_decode(b: &[u8]) -> (r: Vec<u8>)
    ensures
        r@ == percent_decoded(b@),
{
    let mut out: Vec<u8> = Vec::new();
    let mut i: usize = 0;
    assert(b@.subrange(0, b@.len() as int) =~= b@);
    while i < b.len()
        invariant
            i <= b@.len(),
            percent_decoded(b@) == out@ + percent_decoded(b@.subrange(i as int, b@.len() as int)),
        decreases b@.len() - i,
    {
        let ghost rest = b@.subrange(i as int, b@.len() as int);
        let ghost before = out@;
        if b[i] == 37u8 && b.len() - i > 2 {
            let h1 = hex_value_exec(b[i + 1]);
            let h2 = hex_value_exec(b[i + 2]);
            if let (Some(x), Some(y)) = (h1, h2) {
                assert(x < 16 && y < 16);
                let v: u8 = x * 16 + y;
                out.push(v);
                assert(rest.subrange(3, rest.len() as int) =~= b@.subrange(i + 3, b@.len() as int));
                assert(before + (seq![v] + percent_decoded(rest.subrange(3, rest.len() as int))) =~= out@
                    + percent_decoded(b@.subrange(i + 3, b@.len() as int)));
                i = i + 3;
                continue;
            }
        }
        out.push(b[i]);
        assert(rest.drop_first() =~= b@.subrange(i + 1, b@.len() as int));
        assert(before + (seq![b[i as int]] + percent_decoded(rest.drop_first())) =~= out@
            + percent_decoded(b@.subrange(i + 1, b@.len() as int)));
        i = i + 1;
    }
    assert(b@.subrange(i as int, b@.len() as int) =~= Seq::<u8>::empty());
    assert(out@ + Seq::<u8>::empty() =~= out@);
    out
}

/// A URL fragment as an anchor name (`fragment_decoded`).
pub fn decode_fragment(fragment: &str) -> (r: String)
    ensures
        r@ == fragment_decoded(fragment@),
{
    let d = percent_decode(fragment.as_bytes());
    match utf8_text(d.as_slice()) {
        Some(s) => s,
        None => fragment.to_owned(),
    }
}

/// Lemma: whitespace and angle brackets are the same characters whatever
/// the ASCII case of the text.
proof fn lemma_class_ignores_case(k: CharClass, a: char, b: char)
    requires
        k == CharClass::Whitespace || k == CharClass::Angle,
        lower_char(a) == lower_char(b),
    ensures
        in_class(k, a) == in_class(k, b),
{
}

/// Lemma: trimming the start commutes with ASCII case folding.
proof fn lemma_trim_start_ignores_case(a: Seq<char>, b: Seq<char>, k: CharClass)
    requires
        k == CharClass::Whitespace || k == CharClass::Angle,
        lower(a) == lower(b),
    ensures
        lower(trim_start_by(a, class_pred(k))) == lower(trim_start_by(b, class_pred(k))),
    decreases a.len(),
{
    assert(a.len() == lower(a).len() && b.len() == lower(b).len());
    if a.len() > 0 {
        assert(lower(a)[0] == lower_char(a[0]) && lower(b)[0] == lower_char(b[0]));
        lemma_class_ignores_case(k, a[0], b[0]);
        assert(lower(a.drop_first()) =~= lower(a).drop_first());
        assert(lower(b.drop_first()) =~= lower(b).drop_first());
        lemma_trim_start_ignores_case(a.drop_first(), b.drop_first(), k);
    }
}

/// Lemma: trimming the end commutes with ASCII case folding.
proof fn lemma_trim_end_ignores_case(a: Seq<char>, b: Seq<char>, k: CharClass)
    requires
        k == CharClass::Whitespace || k == CharClass::Angle,
        lower(a) == lower(b),
    ensures
        lower(trim_end_by(a, class_pred(k))) == lower(trim_end_by(b, class_pred(k))),
    decreases a.len(),
{
    assert(a.len() == lower(a).len() && b.len() == lower(b).len());
    if a.len() > 0 {
        assert(lower(a)[a.len() - 1] == lower_char(a.last()) && lower(b)[b.len() - 1] == lower_char(b.last()));
        lemma_class_ignores_case(k, a.last(), b.last());
        assert(lower(a.drop_last()) =~= lower(a).drop_last());
        assert(lower(b.drop_last()) =~= lower(b).drop_last());
        lemma_trim_end_ignores_case(a.drop_last(), b.drop_last(), k);
    }
}

/// Lemma: trimming a class commutes with ASCII case folding.
proof fn lemma_trim_class_ignores_case(a: Seq<char>, b: Seq<char>, k: CharClass)
    requires
        k == CharClass::Whitespace || k == CharClass::Angle,
        lower(a) == lower(b),
    ensures
        lower(trim_class(a, k)) == lower(trim_class(b, k)),
{
    lemma_trim_start_ignores_case(a, b, k);
    lemma_trim_end_ignores_case(trim_start_by(a, class_pred(k)), trim_start_by(b, class_pred(k)), k);
}

/// Law: Content-IDs match ignoring ASCII case: two values that differ
/// only in the case of their ASCII letters have the same key.
pub proof fn law_content_id_ignores_case(a: Seq<char>, b: Seq<char>)
    requires
        lower(a) == lower(b),
    ensures
        content_id_key(a) == content_id_key(b),
{
    let ta = trim(a);
    let tb = trim(b);
    lemma_trim_class_ignores_case(a, b, CharClass::Whitespace);
    assert(ta.len() == lower(ta).len() && tb.len() == lower(tb).len());
    let p = "cid:"@;
    if p.len() <= ta.len() {
        assert(lower(ta.subrange(0, p.len() as int)) =~= lower(ta).subrange(0, p.len() as int));
        assert(lower(tb.subrange(0, p.len() as int)) =~= lower(tb).subrange(0, p.len() as int));
        assert(lower(ta.subrange(p.len() as int, ta.len() as int)) =~= lower(ta).subrange(p.len() as int, ta.len() as int));
        assert(lower(tb.subrange(p.len() as int, tb.len() as int)) =~= lower(tb).subrange(p.len() as int, tb.len() as int));
    }
    let va = match strip_prefix_ci(ta, p) {
        Some(r) => r,
        None => ta,
    };
    let vb = match strip_prefix_ci(tb, p) {
        Some(r) => r,
        None => tb,
    };
    assert(lower(va) == lower(vb));
    lemma_trim_class_ignores_case(va, vb, CharClass::Angle);
}

/// Law: a reference's fragment plays no part in finding the resource: the
/// lookup key of `r#f` is `r`, for a reference `r` without `#`.
pub proof fn law_lookup_key_ignores_fragment(r: Seq<char>, f: Seq<char>)
    requires
        !r.contains('#'),
    ensures
        lookup_key(r + seq!['#'] + f) == r,
{
    let s = r + seq!['#'] + f;
    assert(s.subrange(0, r.len() as int) =~= r);
    assert(s[r.len() as int] == '#');
    lemma_first_index_from(s, r, 0);
}

/// Lemma: scanning from `i` inside `r` finds the `#` right after `r`.
proof fn lemma_first_index_from(s: Seq<char>, r: Seq<char>, i: int)
    requires
        !r.contains('#'),
        r.len() < s.len(),
        s.subrange(0, r.len() as int) == r,
        s[r.len() as int] == '#',
        0 <= i <= r.len(),
    ensures
        first_index_of(s, '#', i) == Some(r.len() as int),
    decreases r.len() - i,
{
    if i < r.len() {
        assert(s[i] == r[i]);
        lemma_first_index_from(s, r, i + 1);
    }
}

/// Law: `cid:` references and absolute URIs are taken as they are (in
/// canonical form), whatever the base; so is any reference when there is
/// no base.
pub proof fn law_resolution_keeps_cid_and_absolute(base: Option<Seq<char>>, value: Seq<char>)
    ensures
        (starts_with(canonical(value), "cid:"@) || absolute_uri(canonical(value))) ==> resolved(base, value)
            == canonical(value),
        resolved(None, value) == canonical(value),
{
}

/// Law: a resolved path always starts with `/`.
pub proof fn law_normalized_path_is_absolute(path: Seq<char>)
    ensures
        normalized_path(path).len() > 0,
        normalized_path(path)[0] == '/',
{
    reveal_strlit("/");
    let n = "/"@ + join_slash(kept_segments(pieces_from(path, '/', 0)));
    assert(n[0] == '/');
    assert(n.push('/')[0] == '/');
}

/// `value` without the ASCII `prefix`, compared ignoring ASCII case
/// (`strip_prefix_ci`).
pub fn strip_prefix_ignore_ascii_case<'a>(value: &'a str, prefix: &str) -> (r: Option<&'a str>)
    ensures
        match r {
            Some(rest) => strip_prefix_ci(value@, prefix@) == Some(rest@),
            None => strip_prefix_ci(value@, prefix@) is None,
        },
{
    let v = chars_of(value);
    let n = v.len();
    assert(v@.subrange(0, n as int) =~= v@);
    match strip_prefix_ci_range(v.as_slice(), 0, n, prefix) {
        Some(i) => Some(value.substring_char(i, n)),
        None => None,
    }
}

/// The reference starts with a URI scheme and a colon (`absolute_uri`).
pub fn is_absolute_uri(value: &str) -> (r: bool)
    ensures
        r == absolute_uri(value@),
{
    let v = chars_of(value);
    absolute_uri_chars(v.as_slice())
}

/// A reference split where its query or fragment begins (`suffix_start`).
pub fn split_path_suffix<'a>(value: &'a str) -> (r: (&'a str, &'a str))
    ensures
        r.0@ == value@.subrange(0, suffix_start(value@)),
        r.1@ == value@.subrange(suffix_start(value@), value@.len() as int),
{
    let v = chars_of(value);
    let n = v.len();
    assert(v@.subrange(0, n as int) =~= v@);
    let k = path_suffix_start(v.as_slice(), 0, n);
    (value.substring_char(0, k), value.substring_char(k, n))
}

/// Lemma: bytes without `%` are their own percent-decoding.
proof fn lemma_percent_decoded_plain(b: Seq<u8>)
    requires
        forall|i: int| 0 <= i < b.len() ==> b[i] != 37,
    ensures
        percent_decoded(b) == b,
    decreases b.len(),
{
    if b.len() > 0 {
        lemma_percent_decoded_plain(b.drop_first());
        assert(seq![b[0]] + b.drop_first() =~= b);
    }
}

/// Lemma: no byte of a UTF-8 encoded scalar other than `%` is `%`.
proof fn lemma_encode_scalar_no_percent(v: u32)
    requires
        vstd::utf8::is_scalar(v),
        v != 37,
    ensures
        forall|i: int| 0 <= i < vstd::utf8::encode_scalar(v).len() ==> vstd::utf8::encode_scalar(v)[i] != 37,
{
    if v <= 0x7F {
        assert((v & 0x7F) as u8 != 37u8) by (bit_vector)
            requires
                v <= 0x7F,
                v != 37,
        ;
    }
    assert((0xC0u8 | ((v >> 6u32) & 0x1Fu32) as u8) != 37u8) by (bit_vector);
    assert((0xE0u8 | ((v >> 12u32) & 0x0Fu32) as u8) != 37u8) by (bit_vector);
    assert((0xF0u8 | ((v >> 18u32) & 0x7u32) as u8) != 37u8) by (bit_vector);
    assert((0x80u8 | (v & 0x3Fu32) as u8) != 37u8) by (bit_vector);
    assert((0x80u8 | ((v >> 6u32) & 0x3Fu32) as u8) != 37u8) by (bit_vector);
    assert((0x80u8 | ((v >> 12u32) & 0x3Fu32) as u8) != 37u8) by (bit_vector);
}

/// Lemma: the UTF-8 encoding of text without `%` holds no `%` byte.
proof fn lemma_encode_utf8_no_percent(f: Seq<char>)
    requires
        !f.contains('%'),
    ensures
        forall|i: int| 0 <= i < encode_utf8(f).len() ==> encode_utf8(f)[i] != 37,
    decreases f.len(),
{
    if f.len() > 0 {
        let c = f[0];
        vstd::utf8::char_is_scalar(c);
        assert(c != '%');
        vstd::utf8::char_u32_cast(c, c as u32);
        vstd::utf8::char_u32_cast('%', '%' as u32);
        assert('%' as u32 == 37);
        assert(c as u32 != 37);
        lemma_encode_scalar_no_percent(c as u32);
        assert(!f.drop_first().contains('%')) by {
            if f.drop_first().contains('%') {
                let k = choose|k: int| 0 <= k < f.drop_first().len() && f.drop_first()[k] == '%';
                assert(f[k + 1] == '%');
            }
        }
        lemma_encode_utf8_no_percent(f.drop_first());
        let head = vstd::utf8::encode_scalar(c as u32);
        let tail = encode_utf8(f.drop_first());
        assert(encode_utf8(f) == head + tail);
        assert forall|i: int| 0 <= i < encode_utf8(f).len() implies encode_utf8(f)[i] != 37 by {
            if i < head.len() {
                assert(encode_utf8(f)[i] == head[i]);
            } else {
                assert(encode_utf8(f)[i] == tail[i - head.len()]);
            }
        }
    }
}

/// Law: a fragment without percent escapes names the anchor as written.
pub proof fn law_plain_fragment_is_kept(f: Seq<char>)
    requires
        !f.contains('%'),
    ensures
        fragment_decoded(f) == f,
{
    let b = encode_utf8(f);
    lemma_encode_utf8_no_percent(f);
    lemma_percent_decoded_plain(b);
    vstd::utf8::encode_utf8_valid_utf8(f);
    vstd::utf8::encode_utf8_decode_utf8(f);
}

/// The segment stays as it is in a normalized path: not empty, neither
/// `.` nor `..`, and without `/`.
pub open spec fn plain_segment(seg: Seq<char>) -> bool {
    seg.len() > 0 && seg != "."@ && seg != ".."@ && !seg.contains('/')
}

/// The text ends with `/`.
pub open spec fn ends_with_slash(s: Seq<char>) -> bool {
    s.len() > 0 && s.last() == '/'
}

/// Lemma: before the separator that follows `x`, scanning `x + sep + y`
/// finds what scanning `x` finds.
proof fn lemma_next_sep_prefix(x: Seq<char>, y: Seq<char>, sep: char, p: int)
    requires
        0 <= p <= x.len(),
    ensures
        next_sep(x + seq![sep] + y, sep, p) == next_sep(x, sep, p),
    decreases x.len() - p,
{
    let s = x + seq![sep] + y;
    if p < x.len() {
        assert(s[p] == x[p]);
        if x[p] != sep {
            lemma_next_sep_prefix(x, y, sep, p + 1);
        }
    } else {
        assert(s[p] == sep);
    }
}

/// Lemma: scanning the tail `t` of `z + t` is scanning `t`, shifted.
proof fn lemma_next_sep_shift(z: Seq<char>, t: Seq<char>, sep: char, k: int)
    requires
        0 <= k <= t.len(),
    ensures
        next_sep(z + t, sep, z.len() + k) == z.len() + next_sep(t, sep, k),
    decreases t.len() - k,
{
    if k < t.len() {
        assert((z + t)[z.len() + k] == t[k]);
        if t[k] != sep {
            lemma_next_sep_shift(z, t, sep, k + 1);
        }
    }
}

/// Lemma: the pieces of the tail `t` of `z + t` are the pieces of `t`.
proof fn lemma_pieces_shift(z: Seq<char>, t: Seq<char>, sep: char, k: int)
    requires
        0 <= k <= t.len(),
    ensures
        pieces_from(z + t, sep, z.len() + k) == pieces_from(t, sep, k),
    decreases t.len() - k,
{
    let s = z + t;
    lemma_next_sep_shift(z, t, sep, k);
    lemma_pieces_step(s, sep, z.len() + k);
    lemma_pieces_step(t, sep, k);
    lemma_next_sep(t, sep, k);
    let q = next_sep(t, sep, k);
    if q < t.len() {
        assert(s.subrange(z.len() + k, z.len() + q) =~= t.subrange(k, q));
        lemma_pieces_shift(z, t, sep, q + 1);
    } else {
        assert(s.subrange(z.len() + k, s.len() as int) =~= t.subrange(k, t.len() as int));
    }
}

/// Lemma: splitting at a separator splits the pieces: the pieces of
/// `x + sep + y` are those of `x` followed by those of `y`.
proof fn lemma_pieces_concat(x: Seq<char>, y: Seq<char>, sep: char, p: int)
    requires
        0 <= p <= x.len(),
    ensures
        pieces_from(x + seq![sep] + y, sep, p) == pieces_from(x, sep, p) + pieces_from(y, sep, 0),
    decreases x.len() - p,
{
    let s = x + seq![sep] + y;
    lemma_next_sep_prefix(x, y, sep, p);
    lemma_next_sep(x, sep, p);
    lemma_pieces_step(s, sep, p);
    lemma_pieces_step(x, sep, p);
    let q = next_sep(x, sep, p);
    if q < x.len() {
        assert(s.subrange(p, q) =~= x.subrange(p, q));
        lemma_pieces_concat(x, y, sep, q + 1);
        assert(seq![x.subrange(p, q)] + pieces_from(x, sep, q + 1) + pieces_from(y, sep, 0) =~= seq![
            x.subrange(p, q),
        ] + (pieces_from(x, sep, q + 1) + pieces_from(y, sep, 0)));
    } else {
        assert(s.subrange(p, q) =~= x.subrange(p, x.len() as int));
        lemma_pieces_shift(x + seq![sep], y, sep, 0);
    }
}

/// Lemma: text without the separator is a single piece.
proof fn lemma_pieces_plain(x: Seq<char>, sep: char)
    requires
        !x.contains(sep),
    ensures
        pieces_from(x, sep, 0) == seq![x],
{
    lemma_next_sep(x, sep, 0);
    if next_sep(x, sep, 0) < x.len() {
        assert(x[next_sep(x, sep, 0)] == sep);
    }
    assert(x.subrange(0, x.len() as int) =~= x);
}

/// Lemma: segments without `/` joined by `/` split back into themselves.
proof fn lemma_pieces_join(segs: Seq<Seq<char>>)
    requires
        segs.len() >= 1,
        forall|i: int| 0 <= i < segs.len() ==> !(#[trigger] segs[i]).contains('/'),
    ensures
        pieces_from(join_slash(segs), '/', 0) == segs,
    decreases segs.len(),
{
    reveal_strlit("/");
    if segs.len() == 1 {
        lemma_pieces_plain(segs[0], '/');
        assert(segs =~= seq![segs[0]]);
    } else {
        let d = segs.drop_last();
        lemma_pieces_join(d);
        assert("/"@ =~= seq!['/']);
        lemma_pieces_plain(segs.last(), '/');
        lemma_pieces_concat(join_slash(d), segs.last(), '/', 0);
        assert(d + seq![segs.last()] =~= segs);
    }
}

/// Lemma: no piece holds the separator.
proof fn lemma_pieces_no_sep(s: Seq<char>, sep: char, p: int)
    requires
        0 <= p <= s.len(),
    ensures
        forall|i: int| 0 <= i < pieces_from(s, sep, p).len() ==> !(#[trigger] pieces_from(s, sep, p)[i]).contains(sep),
    decreases s.len() - p,
{
    lemma_pieces_step(s, sep, p);
    lemma_next_sep(s, sep, p);
    let q = next_sep(s, sep, p);
    let first = if q < s.len() {
        s.subrange(p, q)
    } else {
        s.subrange(p, s.len() as int)
    };
    assert(!first.contains(sep)) by {
        if first.contains(sep) {
            let k = choose|k: int| 0 <= k < first.len() && first[k] == sep;
            assert(s[p + k] == sep);
        }
    }
    if q < s.len() {
        lemma_pieces_no_sep(s, sep, q + 1);
        let ps = pieces_from(s, sep, p);
        assert forall|i: int| 0 <= i < ps.len() implies !(#[trigger] ps[i]).contains(sep) by {
            if i > 0 {
                assert(ps[i] == pieces_from(s, sep, q + 1)[i - 1]);
            }
        }
    }
}

/// Lemma: the kept segments of segments without `/` are plain.
proof fn lemma_kept_plain(segs: Seq<Seq<char>>)
    requires
        forall|i: int| 0 <= i < segs.len() ==> !(#[trigger] segs[i]).contains('/'),
    ensures
        forall|i: int| 0 <= i < kept_segments(segs).len() ==> plain_segment(#[trigger] kept_segments(segs)[i]),
    decreases segs.len(),
{
    if segs.len() > 0 {
        let d = segs.drop_last();
        assert forall|i: int| 0 <= i < d.len() implies !(#[trigger] d[i]).contains('/') by {
            assert(d[i] == segs[i]);
        }
        lemma_kept_plain(d);
        assert(!segs.last().contains('/')) by {
            assert(segs.last() == segs[segs.len() - 1]);
        }
        let st = kept_segments(d);
        let r = kept_segments(segs);
        assert forall|i: int| 0 <= i < r.len() implies plain_segment(#[trigger] r[i]) by {
            if i < st.len() {
                assert(r[i] == st[i]);
            }
        }
    }
}

/// Lemma: after a leading empty segment, plain segments are all kept, and
/// a trailing empty segment changes nothing.
proof fn lemma_kept_after_empty(k: Seq<Seq<char>>)
    requires
        forall|i: int| 0 <= i < k.len() ==> plain_segment(#[trigger] k[i]),
    ensures
        kept_segments(seq![Seq::<char>::empty()] + k) == k,
        kept_segments(seq![Seq::<char>::empty()] + k + seq![Seq::<char>::empty()]) == k,
    decreases k.len(),
{
    let e = Seq::<char>::empty();
    let x = seq![e] + k;
    if k.len() == 0 {
        assert(x =~= seq![e]);
        assert(x.drop_last() =~= Seq::<Seq<char>>::empty());
        assert(x.last() == e);
        assert(kept_segments(Seq::<Seq<char>>::empty()) =~= Seq::<Seq<char>>::empty());
        assert(kept_segments(x) == segment_step(kept_segments(x.drop_last()), x.last()));
    } else {
        let d = k.drop_last();
        assert forall|i: int| 0 <= i < d.len() implies plain_segment(#[trigger] d[i]) by {
            assert(d[i] == k[i]);
        }
        lemma_kept_after_empty(d);
        assert(x.drop_last() =~= seq![e] + d);
        assert(x.last() == k.last());
        assert(plain_segment(k[k.len() - 1]));
        assert(kept_segments(x) == segment_step(kept_segments(x.drop_last()), x.last()));
        assert(d.push(k.last()) =~= k);
    }
    let y = x + seq![e];
    assert(y.drop_last() =~= x);
    assert(y.last() == e);
    assert(kept_segments(y) == segment_step(kept_segments(y.drop_last()), y.last()));
}

/// Lemma: plain segments joined by `/` do not end with `/`.
proof fn lemma_join_plain_end(k: Seq<Seq<char>>)
    requires
        k.len() > 0,
        forall|i: int| 0 <= i < k.len() ==> plain_segment(#[trigger] k[i]),
    ensures
        join_slash(k).len() > 0,
        join_slash(k).last() == k.last().last(),
        !ends_with_slash(k.last()) && !ends_with_slash(join_slash(k)),
{
    let l = k.last();
    assert(plain_segment(k[k.len() - 1]));
    assert(l.last() != '/') by {
        if l.last() == '/' {
            assert(l[l.len() - 1] == '/');
        }
    }
}

/// Law: a normalized path is made of plain segments: it splits at `/`
/// into an empty piece, the kept segments (none empty, `.` or `..`), and
/// an empty piece when it ends with `/`; it ends with `/` exactly when the
/// input does or no segment is left; and normalizing it again changes
/// nothing.
pub proof fn law_normalized_path_shape(path: Seq<char>)
    ensures
        forall|i: int| 0 <= i < kept_segments(pieces_from(path, '/', 0)).len() ==> plain_segment(
            #[trigger] kept_segments(pieces_from(path, '/', 0))[i],
        ),
        pieces_from(normalized_path(path), '/', 0) == seq![Seq::<char>::empty()] + kept_segments(
            pieces_from(path, '/', 0),
        ) + if ends_with_slash(normalized_path(path)) {
            seq![Seq::<char>::empty()]
        } else {
            Seq::<Seq<char>>::empty()
        },
        ends_with_slash(normalized_path(path)) <==> (ends_with_slash(path) || kept_segments(
            pieces_from(path, '/', 0),
        ).len() == 0),
        normalized_path(normalized_path(path)) == normalized_path(path),
{
    reveal_strlit("/");
    let e = Seq::<char>::empty();
    let k = kept_segments(pieces_from(path, '/', 0));
    lemma_pieces_no_sep(path, '/', 0);
    lemma_kept_plain(pieces_from(path, '/', 0));
    lemma_kept_after_empty(k);
    let base = "/"@ + join_slash(k);
    let n = normalized_path(path);
    assert("/"@ =~= seq!['/']);
    assert(base =~= e + seq!['/'] + join_slash(k));
    lemma_pieces_concat(e, join_slash(k), '/', 0);
    lemma_pieces_plain(e, '/');
    if k.len() == 0 {
        assert(join_slash(k) == e);
        assert(base =~= seq!['/']);
        assert(pieces_from(base, '/', 0) =~= seq![e] + k + seq![e]);
        assert(n == base);
    } else {
        lemma_join_plain_end(k);
        assert(!ends_with_slash(base));
        lemma_pieces_join(k);
        assert(pieces_from(base, '/', 0) =~= seq![e] + k);
        if ends_with_slash(path) {
            let k2 = k.push(e);
            assert forall|i: int| 0 <= i < k2.len() implies !(#[trigger] k2[i]).contains('/') by {
                if i < k.len() {
                    assert(k2[i] == k[i]);
                }
            }
            assert(k2.drop_last() =~= k);
            assert(join_slash(k2) == join_slash(k) + "/"@ + e);
            lemma_pieces_join(k2);
            assert(n =~= e + seq!['/'] + join_slash(k2));
            lemma_pieces_concat(e, join_slash(k2), '/', 0);
            assert(pieces_from(n, '/', 0) =~= seq![e] + k + seq![e]);
        } else {
            assert(n == base);
            assert(seq![e] + k + Seq::<Seq<char>>::empty() =~= seq![e] + k);
        }
    }
    assert(kept_segments(pieces_from(n, '/', 0)) == k);
}

} // verus!
