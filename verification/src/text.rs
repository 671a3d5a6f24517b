//! Character and string helpers shared by the parsers, each with its
//! contract over `Seq<char>` and `Seq<u8>`.
use vstd::prelude::*;
use vstd::utf8::*;

verus! {

broadcast use vstd::seq_lib::group_seq_properties;

/// `char::is_ascii_whitespace`: space, tab, line feed, form feed, carriage return.
pub open spec fn is_ascii_ws(c: char) -> bool {
    c == ' ' || c == '\t' || c == '\n' || c == '\x0C' || c == '\r'
}

/// `u8::is_ascii_whitespace`.
pub open spec fn is_ascii_ws_byte(b: u8) -> bool {
    b == 32u8 || b == 9u8 || b == 10u8 || b == 12u8 || b == 13u8
}

/// `char::is_whitespace`: the Unicode `White_Space` property.
pub open spec fn is_ws(c: char) -> bool {
    ||| ('\t' <= c && c <= '\r')
    ||| c == ' '
    ||| c == '\u{85}'
    ||| c == '\u{A0}'
    ||| c == '\u{1680}'
    ||| ('\u{2000}' <= c && c <= '\u{200A}')
    ||| c == '\u{2028}'
    ||| c == '\u{2029}'
    ||| c == '\u{202F}'
    ||| c == '\u{205F}'
    ||| c == '\u{3000}'
}

/// `char::to_ascii_lowercase`.
pub open spec fn lower_char(c: char) -> char {
    if 'A' <= c && c <= 'Z' {
        ((c as u32) + 32) as char
    } else {
        c
    }
}

/// `str::to_ascii_lowercase`.
pub open spec fn lower(s: Seq<char>) -> Seq<char> {
    s.map_values(|c: char| lower_char(c))
}

/// `str::eq_ignore_ascii_case`.
pub open spec fn eq_ignore_case(a: Seq<char>, b: Seq<char>) -> bool {
    lower(a) == lower(b)
}

/// `s` with the leading characters that satisfy `p` removed.
pub open spec fn trim_start_by(s: Seq<char>, p: spec_fn(char) -> bool) -> Seq<char>
    decreases s.len(),
{
    if s.len() > 0 && p(s[0]) {
        trim_start_by(s.drop_first(), p)
    } else {
        s
    }
}

/// `s` with the trailing characters that satisfy `p` removed.
pub open spec fn trim_end_by(s: Seq<char>, p: spec_fn(char) -> bool) -> Seq<char>
    decreases s.len(),
{
    if s.len() > 0 && p(s.last()) {
        trim_end_by(s.drop_last(), p)
    } else {
        s
    }
}

/// The character classes that the parsers trim.
#[derive(Clone, Copy, PartialEq, Eq, Structural)]
pub enum CharClass {
    /// `char::is_whitespace`.
    Whitespace,
    /// A carriage return.
    CarriageReturn,
    /// A single or double quote.
    Quote,
    /// An angle bracket.
    Angle,
}

/// Membership in a character class.
pub open spec fn in_class(k: CharClass, c: char) -> bool {
    match k {
        CharClass::Whitespace => is_ws(c),
        CharClass::CarriageReturn => c == '\r',
        CharClass::Quote => c == '\'' || c == '"',
        CharClass::Angle => c == '<' || c == '>',
    }
}

/// A character class as a predicate.
pub open spec fn class_pred(k: CharClass) -> spec_fn(char) -> bool {
    |c: char| in_class(k, c)
}

/// `s` trimmed of the class at both ends (`str::trim_matches`).
pub open spec fn trim_class(s: Seq<char>, k: CharClass) -> Seq<char> {
    trim_end_by(trim_start_by(s, class_pred(k)), class_pred(k))
}

/// `str::trim`.
pub open spec fn trim(s: Seq<char>) -> Seq<char> {
    trim_class(s, CharClass::Whitespace)
}

/// `str::trim_end_matches('\r')`.
pub open spec fn trim_end_cr(s: Seq<char>) -> Seq<char> {
    trim_end_by(s, class_pred(CharClass::CarriageReturn))
}

/// `str::trim_matches` with the quote characters `'` and `"`.
pub open spec fn trim_quotes(s: Seq<char>) -> Seq<char> {
    trim_class(s, CharClass::Quote)
}

/// `str::trim_matches` with the angle brackets `<` and `>`.
pub open spec fn trim_angles(s: Seq<char>) -> Seq<char> {
    trim_class(s, CharClass::Angle)
}

/// `s` starts with `prefix`.
pub open spec fn starts_with(s: Seq<char>, prefix: Seq<char>) -> bool {
    prefix.len() <= s.len() && s.subrange(0, prefix.len() as int) == prefix
}

/// `s` ends with `suffix`.
pub open spec fn ends_with(s: Seq<char>, suffix: Seq<char>) -> bool {
    suffix.len() <= s.len() && s.subrange(s.len() - suffix.len(), s.len() as int) == suffix
}

/// The characters of a string slice.
pub(crate) fn chars_of(s: &str) -> (r: Vec<char>)
    ensures
        r@ == s@,
{
    broadcast use vstd::string::axiom_spec_iter;
    let mut out: Vec<char> = Vec::new();
    for c in it: s.chars()
        invariant
            it.seq() == s@,
            out@ == it.seq().take(it.index() as int),
    {
        assert(it.seq().take(it.index() + 1) =~= out@.push(c));
        out.push(c);
    }
    out
}

/// The string made of the given characters.
#[verifier::external_body]
pub(crate) fn string_of(chars: &[char]) -> (r: String)
    ensures
        r@ == chars@,
{
    chars.iter().collect()
}

/// Two string slices hold the same characters (compared through their UTF-8 bytes).
pub fn str_eq(a: &str, b: &str) -> (r: bool)
    ensures
        r == (a@ == b@),
{
    let x = a.as_bytes();
    let y = b.as_bytes();
    proof {
        encode_utf8_decode_utf8(a@);
        encode_utf8_decode_utf8(b@);
    }
    if x.len() != y.len() {
        return false;
    }
    let mut i: usize = 0;
    while i < x.len()
        invariant
            x@.len() == y@.len(),
            x@ == encode_utf8(a@),
            y@ == encode_utf8(b@),
            i <= x@.len(),
            forall|j: int| 0 <= j < i ==> x@[j] == y@[j],
        decreases x@.len() - i,
    {
        if x[i] != y[i] {
            return false;
        }
        i = i + 1;
    }
    assert(x@ =~= y@);
    true
}

/// `char::to_ascii_lowercase`.
pub fn lower_char_exec(c: char) -> (r: char)
    ensures
        r == lower_char(c),
{
    if c >= 'A' && c <= 'Z' {
        let b: u8 = (c as u8) + 32;
        b as char
    } else {
        c
    }
}


/// The decimal digit `d` (for `d < 10`).
pub open spec fn digit_char(d: int) -> char {
    ((d + 48) as u8) as char
}

/// The decimal representation of `n`, as `u64`'s `Display` writes it.
pub open spec fn decimal(n: nat) -> Seq<char>
    decreases n,
{
    if n < 10 {
        seq![digit_char(n as int)]
    } else {
        decimal(n / 10).push(digit_char((n % 10) as int))
    }
}

/// The decimal digits of `n`.
pub fn decimal_chars(n: u128) -> (r: Vec<char>)
    ensures
        r@ == decimal(n as nat),
    decreases n,
{
    let d: u8 = (n % 10) as u8;
    let c = (d + 48) as char;
    if n < 10 {
        let mut v: Vec<char> = Vec::new();
        v.push(c);
        assert(v@ =~= seq![digit_char(n as int)]);
        v
    } else {
        let mut v = decimal_chars(n / 10);
        v.push(c);
        v
    }
}

/// `n.to_string()`.
pub fn decimal_string(n: u128) -> (r: String)
    ensures
        r@ == decimal(n as nat),
{
    let v = decimal_chars(n);
    string_of(v.as_slice())
}

/// `a` followed by `b`.
pub fn cat(a: String, b: &str) -> (r: String)
    ensures
        r@ == a@ + b@,
{
    a.concat(b)
}

/// The detail of a size-limit error: "`subject` is `size` bytes; maximum is `max`".
pub open spec fn size_detail(subject: Seq<char>, size: nat, max: nat) -> Seq<char> {
    subject + " is "@ + decimal(size) + " bytes; maximum is "@ + decimal(max)
}

/// Builds `size_detail`.
pub fn size_detail_string(subject: &str, size: u128, max: u128) -> (r: String)
    ensures
        r@ == size_detail(subject@, size as nat, max as nat),
{
    let s = String::from_str(subject);
    let s = cat(s, " is ");
    let s = cat(s, decimal_string(size).as_str());
    let s = cat(s, " bytes; maximum is ");
    cat(s, decimal_string(max).as_str())
}

/// "`a``n``b`": a message with one number in it.
pub fn message_with_number(a: &str, n: u128, b: &str) -> (r: String)
    ensures
        r@ == a@ + decimal(n as nat) + b@,
{
    let s = String::from_str(a);
    let s = cat(s, decimal_string(n).as_str());
    cat(s, b)
}


/// Membership in a character class, executable.
pub fn in_class_exec(k: CharClass, c: char) -> (r: bool)
    ensures
        r == in_class(k, c),
{
    match k {
        CharClass::Whitespace => {
            ('\t' <= c && c <= '\r') || c == ' ' || c == '\u{85}' || c == '\u{A0}' || c == '\u{1680}'
                || ('\u{2000}' <= c && c <= '\u{200A}') || c == '\u{2028}' || c == '\u{2029}'
                || c == '\u{202F}' || c == '\u{205F}' || c == '\u{3000}'
        },
        CharClass::CarriageReturn => c == '\r',
        CharClass::Quote => c == '\'' || c == '"',
        CharClass::Angle => c == '<' || c == '>',
    }
}

/// Start of `s[lo..hi]` after trimming the class from its front.
pub fn trim_start_index(s: &[char], lo: usize, hi: usize, k: CharClass) -> (r: usize)
    requires
        lo <= hi <= s@.len(),
    ensures
        lo <= r <= hi,
        s@.subrange(r as int, hi as int) == trim_start_by(s@.subrange(lo as int, hi as int), class_pred(k)),
{
    let mut i = lo;
    while i < hi && in_class_exec(k, s[i])
        invariant
            lo <= i <= hi <= s@.len(),
            trim_start_by(s@.subrange(lo as int, hi as int), class_pred(k)) == trim_start_by(
                s@.subrange(i as int, hi as int),
                class_pred(k),
            ),
        decreases hi - i,
    {
        assert(s@.subrange(i as int, hi as int).drop_first() =~= s@.subrange(i + 1, hi as int));
        i = i + 1;
    }
    assert(i < hi ==> s@.subrange(i as int, hi as int)[0] == s@[i as int]);
    i
}

/// End of `s[lo..hi]` after trimming the class from its back.
pub fn trim_end_index(s: &[char], lo: usize, hi: usize, k: CharClass) -> (r: usize)
    requires
        lo <= hi <= s@.len(),
    ensures
        lo <= r <= hi,
        s@.subrange(lo as int, r as int) == trim_end_by(s@.subrange(lo as int, hi as int), class_pred(k)),
{
    let mut j = hi;
    while j > lo && in_class_exec(k, s[j - 1])
        invariant
            lo <= j <= hi <= s@.len(),
            trim_end_by(s@.subrange(lo as int, hi as int), class_pred(k)) == trim_end_by(
                s@.subrange(lo as int, j as int),
                class_pred(k),
            ),
        decreases j,
    {
        assert(s@.subrange(lo as int, j as int).drop_last() =~= s@.subrange(lo as int, j - 1));
        j = j - 1;
    }
    assert(j > lo ==> s@.subrange(lo as int, j as int).last() == s@[j - 1]);
    j
}

/// Bounds of `s[lo..hi]` trimmed of the class at both ends.
pub fn trim_indices(s: &[char], lo: usize, hi: usize, k: CharClass) -> (r: (usize, usize))
    requires
        lo <= hi <= s@.len(),
    ensures
        lo <= r.0 <= r.1 <= hi,
        s@.subrange(r.0 as int, r.1 as int) == trim_class(s@.subrange(lo as int, hi as int), k),
{
    let a = trim_start_index(s, lo, hi, k);
    let b = trim_end_index(s, a, hi, k);
    (a, b)
}

/// `c.to_ascii_lowercase()` for every character.
pub fn lower_chars(s: &[char]) -> (r: Vec<char>)
    ensures
        r@ == lower(s@),
{
    let mut out: Vec<char> = Vec::new();
    let mut i: usize = 0;
    while i < s.len()
        invariant
            i <= s@.len(),
            out@ == lower(s@.subrange(0, i as int)),
        decreases s@.len() - i,
    {
        let c = lower_char_exec(s[i]);
        out.push(c);
        assert(lower(s@.subrange(0, i + 1)) =~= lower(s@.subrange(0, i as int)).push(c));
        i = i + 1;
    }
    assert(s@.subrange(0, s@.len() as int) =~= s@);
    out
}

/// `s[lo..hi]` equals `t` ignoring ASCII case.
pub fn eq_ignore_case_range(s: &[char], lo: usize, hi: usize, t: &str) -> (r: bool)
    requires
        lo <= hi <= s@.len(),
    ensures
        r == eq_ignore_case(s@.subrange(lo as int, hi as int), t@),
{
    let tc = chars_of(t);
    if hi - lo != tc.len() {
        proof {
            assert(lower(s@.subrange(lo as int, hi as int)).len() != lower(t@).len());
        }
        return false;
    }
    let mut i: usize = 0;
    while i < tc.len()
        invariant
            hi - lo == tc@.len(),
            lo <= hi <= s@.len(),
            tc@ == t@,
            i <= tc@.len(),
            forall|j: int| 0 <= j < i ==> lower_char(s@[lo + j]) == lower_char(tc@[j]),
        decreases tc@.len() - i,
    {
        if lower_char_exec(s[lo + i]) != lower_char_exec(tc[i]) {
            proof {
                assert(lower(s@.subrange(lo as int, hi as int))[i as int] != lower(t@)[i as int]);
            }
            return false;
        }
        i = i + 1;
    }
    assert(lower(s@.subrange(lo as int, hi as int)) =~= lower(t@));
    true
}


/// "`a``n``b``m``c`": a message with two numbers in it.
pub fn message_with_two_numbers(a: &str, n: u128, b: &str, m: u128, c: &str) -> (r: String)
    ensures
        r@ == a@ + decimal(n as nat) + b@ + decimal(m as nat) + c@,
{
    let s = message_with_number(a, n, b);
    let s = cat(s, decimal_string(m).as_str());
    cat(s, c)
}

/// The index of the first `c` in `s` at or after `i`.
pub open spec fn first_index_of(s: Seq<char>, c: char, i: int) -> Option<int>
    decreases s.len() - i,
{
    if i < 0 || i >= s.len() {
        None
    } else if s[i] == c {
        Some(i)
    } else {
        first_index_of(s, c, i + 1)
    }
}

/// Lemma: a found index holds `c` and lies at or after `i`.
pub proof fn lemma_first_index_of(s: Seq<char>, c: char, i: int)
    ensures
        first_index_of(s, c, i) matches Some(j) ==> i <= j < s.len() && s[j] == c,
    decreases s.len() - i,
{
    if 0 <= i < s.len() && s[i] != c {
        lemma_first_index_of(s, c, i + 1);
    }
}

/// The first index of `c` in `s[lo..hi]`, as an index of `s`.
pub fn first_index_in(s: &[char], lo: usize, hi: usize, c: char) -> (r: Option<usize>)
    requires
        lo <= hi <= s@.len(),
    ensures
        match r {
            Some(j) => first_index_of(s@.subrange(lo as int, hi as int), c, 0) == Some(j - lo) && lo <= j < hi,
            None => first_index_of(s@.subrange(lo as int, hi as int), c, 0) is None,
        },
{
    let ghost t = s@.subrange(lo as int, hi as int);
    let mut i = lo;
    while i < hi
        invariant
            lo <= i <= hi <= s@.len(),
            t == s@.subrange(lo as int, hi as int),
            first_index_of(t, c, 0) == first_index_of(t, c, i - lo),
        decreases hi - i,
    {
        if s[i] == c {
            return Some(i);
        }
        i = i + 1;
    }
    None
}

} // verus!
