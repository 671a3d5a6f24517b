//! The resources of an MHTML archive: the keys each part is found by, the
//! index of parts by key, the stylesheets in document order and the
//! embedded images.
use vstd::prelude::*;
use vstd::utf8::encode_utf8;
use crate::dom::{
    DomNode, DomNodeView, attr, attr_of, find_named, find_named_element, first_named_from, dom_view, element_text, is_element_named,
    is_element_named_exec, node_view, root_element_from, root_element_index, subtree_end,
    subtree_end_exec, text_of,
};
use crate::error::{ConvertError, is_limit_error};
use crate::html::{strings_view, style_texts_from};
use crate::limits::{MAX_ASSET_TOTAL_BYTES, MAX_ENTRY_BYTES};
use crate::model::{Asset, AssetId, AssetView, asset_view, assets_view};
use crate::mhtml::{
    ContentType, MimePart, MimePartView, assoc_lookup, content_type_view, assoc_view, lookup, opt_str_view, part_view, parts_view,
};
use crate::text::{
    cat, chars_of, decimal, eq_ignore_case, eq_ignore_case_range, is_ascii_ws, message_with_number,
    message_with_two_numbers, size_detail, size_detail_string, str_eq, first_index_of, starts_with,
};
use crate::mime::{find_seq, lemma_first_occurrence};
use crate::uri::{
    absolute_uri, canonical, canonical_reference, is_scheme_char, content_id_key, lookup_key, normalize_content_id, opt_view, resolve_resource_reference,
    resolved, resource_lookup_key,
};

verus! {

broadcast use vstd::seq_lib::group_seq_properties;

/// Lemma: looking a key up after a push finds the old entry if there was
/// one, else the pushed entry if its key matches.
pub proof fn lemma_assoc_push<T>(l: Seq<(Seq<char>, T)>, e: (Seq<char>, T), key: Seq<char>)
    ensures
        assoc_lookup(l.push(e), key) == match assoc_lookup(l, key) {
            Some(x) => Some(x),
            None => if e.0 == key {
                Some(e.1)
            } else {
                None
            },
        },
    decreases l.len(),
{
    if l.len() > 0 {
        assert(l.push(e).drop_first() =~= l.drop_first().push(e));
        lemma_assoc_push(l.drop_first(), e, key);
    } else {
        assert(l.push(e).drop_first() =~= l);
    }
}

/// Lemma: a key that is not found is the key of no entry.
pub proof fn lemma_assoc_none<T>(l: Seq<(Seq<char>, T)>, key: Seq<char>)
    requires
        assoc_lookup(l, key) is None,
    ensures
        forall|i: int| 0 <= i < l.len() ==> (#[trigger] l[i]).0 != key,
    decreases l.len(),
{
    if l.len() > 0 {
        lemma_assoc_none(l.drop_first(), key);
        assert forall|i: int| 0 <= i < l.len() implies (#[trigger] l[i]).0 != key by {
            if i > 0 {
                assert(l[i] == l.drop_first()[i - 1]);
            }
        }
    }
}

/// Lemma: a value that is found is the value of some entry.
pub proof fn lemma_assoc_some<T>(l: Seq<(Seq<char>, T)>, key: Seq<char>)
    requires
        assoc_lookup(l, key) is Some,
    ensures
        exists|i: int| 0 <= i < l.len() && (#[trigger] l[i]) == (key, assoc_lookup(l, key)->0),
    decreases l.len(),
{
    if l[0].0 != key {
        lemma_assoc_some(l.drop_first(), key);
        let i = choose|i: int| 0 <= i < l.drop_first().len() && (#[trigger] l.drop_first()[i]) == (key, assoc_lookup(l, key)->0);
        assert(l[i + 1] == l.drop_first()[i]);
    } else {
        assert(l[0] == (key, assoc_lookup(l, key)->0));
    }
}

/// The keys of the list are pairwise distinct.
pub open spec fn distinct_keys<T>(l: Seq<(Seq<char>, T)>) -> bool {
    forall|i: int, j: int| 0 <= i < j < l.len() ==> (#[trigger] l[i]).0 != (#[trigger] l[j]).0
}

/// The list with each of `keys` that it lacks added, in order, with value
/// `v`: the first value given for a key stays.
pub open spec fn insert_first<T>(l: Seq<(Seq<char>, T)>, keys: Seq<Seq<char>>, v: T) -> Seq<(Seq<char>, T)>
    decreases keys.len(),
{
    if keys.len() == 0 {
        l
    } else {
        let l2 = insert_first(l, keys.drop_last(), v);
        if assoc_lookup(l2, keys.last()) is None {
            l2.push((keys.last(), v))
        } else {
            l2
        }
    }
}

/// Lemma: after `insert_first`, a key maps to its old value if it had one,
/// else to `v` if it is one of `keys`; distinct keys stay distinct.
pub proof fn lemma_insert_first<T>(l: Seq<(Seq<char>, T)>, keys: Seq<Seq<char>>, v: T, key: Seq<char>)
    ensures
        assoc_lookup(insert_first(l, keys, v), key) == match assoc_lookup(l, key) {
            Some(x) => Some(x),
            None => if keys.contains(key) {
                Some(v)
            } else {
                None
            },
        },
        distinct_keys(l) ==> distinct_keys(insert_first(l, keys, v)),
    decreases keys.len(),
{
    if keys.len() > 0 {
        let l2 = insert_first(l, keys.drop_last(), v);
        lemma_insert_first(l, keys.drop_last(), v, key);
        lemma_assoc_push(l2, (keys.last(), v), key);
        assert(keys.contains(key) <==> (keys.drop_last().contains(key) || keys.last() == key)) by {
            if keys.contains(key) {
                let i = choose|i: int| 0 <= i < keys.len() && keys[i] == key;
                if i < keys.len() - 1 {
                    assert(keys.drop_last()[i] == key);
                }
            }
            if keys.drop_last().contains(key) {
                let i = choose|i: int| 0 <= i < keys.drop_last().len() && keys.drop_last()[i] == key;
                assert(keys[i] == key);
            }
            if keys.last() == key {
                assert(keys[keys.len() - 1] == key);
            }
        }
        if distinct_keys(l) && assoc_lookup(l2, keys.last()) is None {
            lemma_assoc_none(l2, keys.last());
            let l3 = l2.push((keys.last(), v));
            assert forall|i: int, j: int| 0 <= i < j < l3.len() implies (#[trigger] l3[i]).0 != (#[trigger] l3[j]).0 by {
                if j == l3.len() - 1 {
                    assert(l3[i] == l2[i]);
                } else {
                    assert(l3[i] == l2[i] && l3[j] == l2[j]);
                }
            }
        }
    }
}

/// Lemma: `insert_first` keeps the list as a prefix and adds only entries
/// with value `v`.
pub proof fn lemma_insert_first_extends<T>(l: Seq<(Seq<char>, T)>, keys: Seq<Seq<char>>, v: T)
    ensures
        l.len() <= insert_first(l, keys, v).len(),
        insert_first(l, keys, v).subrange(0, l.len() as int) == l,
        forall|k: int| l.len() <= k < insert_first(l, keys, v).len() ==> (#[trigger] insert_first(l, keys, v)[k]).1 == v,
    decreases keys.len(),
{
    if keys.len() > 0 {
        lemma_insert_first_extends(l, keys.drop_last(), v);
        let l2 = insert_first(l, keys.drop_last(), v);
        if assoc_lookup(l2, keys.last()) is None {
            let l3 = l2.push((keys.last(), v));
            assert(l3.subrange(0, l.len() as int) =~= l2.subrange(0, l.len() as int));
            assert forall|k: int| l.len() <= k < l3.len() implies (#[trigger] l3[k]).1 == v by {
                if k < l2.len() {
                    assert(l3[k] == l2[k]);
                }
            }
        }
    }
}

/// Adds each of `keys` that the list lacks, with value `v` (`insert_first`).
pub fn insert_keys<T: Copy>(list: &mut Vec<(String, T)>, keys: &Vec<String>, v: T)
    ensures
        assoc_view(final(list)@) == insert_first(assoc_view(old(list)@), strings_view(keys@), v),
{
    let ghost start = assoc_view(list@);
    let ghost ks = strings_view(keys@);
    let mut k: usize = 0;
    assert(ks.subrange(0, 0) =~= Seq::<Seq<char>>::empty());
    while k < keys.len()
        invariant
            k <= keys@.len(),
            ks == strings_view(keys@),
            assoc_view(list@) == insert_first(start, ks.subrange(0, k as int), v),
        decreases keys@.len() - k,
    {
        let ghost before = list@;
        assert(ks.subrange(0, k + 1).drop_last() =~= ks.subrange(0, k as int));
        assert(ks.subrange(0, k + 1).last() == keys@[k as int]@);
        if lookup(list, keys[k].as_str()).is_none() {
            list.push((keys[k].clone(), v));
            assert(assoc_view(list@) =~= assoc_view(before).push((keys@[k as int]@, v)));
        }
        k = k + 1;
    }
    assert(ks.subrange(0, keys@.len() as int) =~= ks);
}

/// The list holds a string with the same characters as `s`.
pub fn contains_str(list: &Vec<String>, s: &str) -> (r: bool)
    ensures
        r == strings_view(list@).contains(s@),
{
    let ghost l = strings_view(list@);
    let mut i: usize = 0;
    while i < list.len()
        invariant
            i <= list@.len(),
            l == strings_view(list@),
            forall|j: int| 0 <= j < i ==> l[j] != s@,
        decreases list@.len() - i,
    {
        if str_eq(list[i].as_str(), s) {
            assert(l[i as int] == s@);
            return true;
        }
        i = i + 1;
    }
    false
}

/// The keys a part is found by: `cid:` and its normalized Content-ID, when
/// that is not empty; then its Content-Location resolved against the base,
/// without fragment, when that is not empty and not a key already.
pub open spec fn part_keys(part: MimePartView, base: Option<Seq<char>>) -> Seq<Seq<char>> {
    let cid = match part.content_id {
        Some(c) => if content_id_key(c).len() > 0 {
            seq!["cid:"@ + content_id_key(c)]
        } else {
            seq![]
        },
        None => seq![],
    };
    match part.content_location {
        Some(l) => {
            let key = lookup_key(resolved(base, l));
            if key.len() > 0 && !cid.contains(key) {
                cid.push(key)
            } else {
                cid
            }
        },
        None => cid,
    }
}

/// The keys a part is found by (`part_keys`).
pub fn resource_keys(part: &MimePart, resource_base: Option<&str>) -> (r: Vec<String>)
    ensures
        strings_view(r@) == part_keys(part_view(*part), opt_view(resource_base)),
{
    let mut keys: Vec<String> = Vec::new();
    let ghost p = part_view(*part);
    match &part.content_id {
        Some(c) => {
            let id = normalize_content_id(c.as_str());
            if !id.as_str().is_empty() {
                keys.push(cat(String::from_str("cid:"), id.as_str()));
                proof {
                    reveal_strlit("cid:");
                }
                assert(strings_view(keys@) =~= seq!["cid:"@ + content_id_key(c@)]);
            } else {
                assert(strings_view(keys@) =~= Seq::<Seq<char>>::empty());
            }
        },
        None => {
            assert(strings_view(keys@) =~= Seq::<Seq<char>>::empty());
        },
    }
    match &part.content_location {
        Some(l) => {
            let loc = resolve_resource_reference(resource_base, l.as_str());
            let key = resource_lookup_key(loc.as_str());
            if !key.is_empty() && !contains_str(&keys, key) {
                let ghost before = strings_view(keys@);
                keys.push(key.to_owned());
                assert(strings_view(keys@) =~= before.push(lookup_key(resolved(opt_view(resource_base), l@))));
            }
        },
        None => {},
    }
    keys
}

/// The index of parts `0..n` by key: each key of each part, the first part
/// found by a key keeping it.
pub open spec fn resource_index(parts: Seq<MimePartView>, base: Option<Seq<char>>, n: int) -> Seq<(Seq<char>, usize)>
    decreases n,
{
    if n <= 0 {
        seq![]
    } else {
        insert_first(resource_index(parts, base, n - 1), part_keys(parts[n - 1], base), (n - 1) as usize)
    }
}

/// The index of the parts by key (`resource_index`).
pub fn build_resource_index(parts: &Vec<MimePart>, resource_base: Option<&str>) -> (r: Vec<(String, usize)>)
    ensures
        assoc_view(r@) == resource_index(parts_view(parts@), opt_view(resource_base), parts@.len() as int),
        forall|k: int| 0 <= k < r@.len() ==> (#[trigger] r@[k]).1 < parts@.len(),
{
    let ghost pv = parts_view(parts@);
    let mut index: Vec<(String, usize)> = Vec::new();
    let mut i: usize = 0;
    assert(assoc_view(index@) =~= Seq::<(Seq<char>, usize)>::empty());
    while i < parts.len()
        invariant
            i <= parts@.len(),
            pv == parts_view(parts@),
            assoc_view(index@) == resource_index(pv, opt_view(resource_base), i as int),
            forall|k: int| 0 <= k < index@.len() ==> (#[trigger] index@[k]).1 < i,
        decreases parts@.len() - i,
    {
        let keys = resource_keys(&parts[i], resource_base);
        assert(pv[i as int] == part_view(parts@[i as int]));
        let ghost before = index@;
        insert_keys(&mut index, &keys, i);
        proof {
            let l = assoc_view(before);
            lemma_insert_first_extends(l, strings_view(keys@), i);
            assert forall|k: int| 0 <= k < index@.len() implies (#[trigger] index@[k]).1 < i + 1 by {
                assert(assoc_view(index@)[k].1 == index@[k].1);
                if k < l.len() {
                    assert(assoc_view(index@).subrange(0, l.len() as int)[k] == l[k]);
                    assert(before[k].1 == l[k].1);
                }
            }
        }
        i = i + 1;
    }
    index
}

/// `s` equals `t` ignoring ASCII case.
pub fn eq_ignore_case_str(s: &str, t: &str) -> (r: bool)
    ensures
        r == eq_ignore_case(s@, t@),
{
    let c = chars_of(s);
    let n = c.len();
    assert(c@.subrange(0, n as int) =~= c@);
    eq_ignore_case_range(c.as_slice(), 0, n, t)
}

/// The part's media type is `t`/`st`, ignoring ASCII case.
pub open spec fn is_media_type(p: MimePartView, t: Seq<char>, st: Seq<char>) -> bool {
    &&& p.content_type matches Some(ct)
    &&& eq_ignore_case(ct.ctype, t)
    &&& ct.subtype matches Some(sub)
    &&& eq_ignore_case(sub, st)
}

/// The part's media type is `t`/`st`, ignoring ASCII case (`is_media_type`).
pub fn part_is_media_type(p: &MimePart, t: &str, st: &str) -> (r: bool)
    ensures
        r == is_media_type(part_view(*p), t@, st@),
{
    match &p.content_type {
        None => false,
        Some(ct) => {
            if !eq_ignore_case_str(ct.ctype.as_str(), t) {
                return false;
            }
            match &ct.subtype {
                None => false,
                Some(sub) => eq_ignore_case_str(sub.as_str(), st),
            }
        },
    }
}

/// The end of the run of non-whitespace characters from `p` on.
pub open spec fn word_end(s: Seq<char>, p: int) -> int
    decreases s.len() - p,
{
    if p < 0 || p >= s.len() || is_ascii_ws(s[p]) {
        p
    } else {
        word_end(s, p + 1)
    }
}

/// Lemma: a run of non-whitespace characters ends at whitespace or at the end.
pub proof fn lemma_word_end(s: Seq<char>, p: int)
    requires
        0 <= p <= s.len(),
    ensures
        p <= word_end(s, p) <= s.len(),
        forall|k: int| p <= k < word_end(s, p) ==> !is_ascii_ws(#[trigger] s[k]),
        word_end(s, p) < s.len() ==> is_ascii_ws(s[word_end(s, p)]),
    decreases s.len() - p,
{
    if p < s.len() && !is_ascii_ws(s[p]) {
        lemma_word_end(s, p + 1);
    }
}

/// One of the ASCII-whitespace-separated words of `s` from `p` on equals `w`
/// ignoring ASCII case.
pub open spec fn has_word_ci(s: Seq<char>, w: Seq<char>, p: int) -> bool
    decreases s.len() - p,
{
    if p < 0 || p >= s.len() {
        false
    } else if is_ascii_ws(s[p]) {
        has_word_ci(s, w, p + 1)
    } else {
        let e = word_end(s, p + 1);
        proof {
            lemma_word_end(s, p + 1);
        }
        eq_ignore_case(s.subrange(p, e), w) || has_word_ci(s, w, e)
    }
}

/// `u8::is_ascii_whitespace`, on a character.
pub fn is_ascii_ws_char(c: char) -> (r: bool)
    ensures
        r == is_ascii_ws(c),
{
    c == ' ' || c == '\t' || c == '\n' || c == '\x0C' || c == '\r'
}

/// One of the ASCII-whitespace-separated words of `s` equals `w` ignoring
/// ASCII case (`has_word_ci`).
pub fn has_word_ignore_case(s: &str, w: &str) -> (r: bool)
    ensures
        r == has_word_ci(s@, w@, 0),
{
    let c = chars_of(s);
    let n = c.len();
    let mut p: usize = 0;
    while p < n
        invariant
            c@ == s@,
            n == c@.len(),
            p <= n,
            has_word_ci(s@, w@, 0) == has_word_ci(s@, w@, p as int),
        decreases n - p,
    {
        if is_ascii_ws_char(c[p]) {
            p = p + 1;
        } else {
            let mut e = p + 1;
            proof {
                lemma_word_end(s@, e as int);
            }
            while e < n && !is_ascii_ws_char(c[e])
                invariant
                    c@ == s@,
                    n == c@.len(),
                    p < e <= n,
                    word_end(s@, (p + 1) as int) == word_end(s@, e as int),
                decreases n - e,
            {
                e = e + 1;
            }
            if eq_ignore_case_range(c.as_slice(), p, e, w) {
                return true;
            }
            p = e;
        }
    }
    false
}

/// What a `link` element contributes as a stylesheet: for a `rel` with the
/// word `stylesheet` and an `href`, the text of the `text/css` part that the
/// resolved reference leads to, if there is one.
pub open spec fn link_stylesheet(
    n: DomNodeView,
    parts: Seq<MimePartView>,
    index: Seq<(Seq<char>, usize)>,
    base: Option<Seq<char>>,
) -> Option<Seq<char>> {
    let rel = match attr_of(n, "rel"@) {
        Some(r) => r,
        None => seq![],
    };
    if !has_word_ci(rel, "stylesheet"@, 0) {
        None
    } else {
        match attr_of(n, "href"@) {
            None => None,
            Some(href) => match assoc_lookup(index, lookup_key(resolved(base, href))) {
                None => None,
                Some(i) => if is_media_type(parts[i as int], "text"@, "css"@) {
                    parts[i as int].text_contents
                } else {
                    None
                },
            },
        }
    }
}

/// The values of the index lie below `n`.
pub open spec fn index_below(index: Seq<(String, usize)>, n: nat) -> bool {
    forall|k: int| 0 <= k < index.len() ==> (#[trigger] index[k]).1 < n
}

/// What a `link` element contributes as a stylesheet (`link_stylesheet`).
pub fn link_stylesheet_text(
    node: &DomNode,
    parts: &Vec<MimePart>,
    index: &Vec<(String, usize)>,
    resource_base: Option<&str>,
) -> (r: Option<String>)
    requires
        index_below(index@, parts@.len()),
    ensures
        opt_str_view(r) == link_stylesheet(node_view(*node), parts_view(parts@), assoc_view(index@), opt_view(resource_base)),
{
    let has_sheet = match attr(node, "rel") {
        Some(rel) => has_word_ignore_case(rel.as_str(), "stylesheet"),
        None => {
            assert(!has_word_ci(Seq::<char>::empty(), "stylesheet"@, 0));
            false
        },
    };
    if !has_sheet {
        return None;
    }
    let href = match attr(node, "href") {
        Some(h) => h,
        None => return None,
    };
    let reference = resolve_resource_reference(resource_base, href.as_str());
    let key = resource_lookup_key(reference.as_str());
    let i = match lookup(index, key) {
        Some(i) => i,
        None => return None,
    };
    proof {
        lemma_assoc_some(assoc_view(index@), key@);
        let k = choose|k: int| 0 <= k < assoc_view(index@).len() && (#[trigger] assoc_view(index@)[k]) == (key@, i);
        assert(index@[k].1 == i);
    }
    let part = &parts[i];
    assert(parts_view(parts@)[i as int] == part_view(*part));
    if !part_is_media_type(part, "text", "css") {
        return None;
    }
    match &part.text_contents {
        Some(css) => Some(css.clone()),
        None => None,
    }
}

/// The stylesheets of positions `j..end` in document order: each `style`
/// element's text and each linked `text/css` part; or the size in bytes of
/// the first linked stylesheet over `MAX_ENTRY_BYTES`.
pub open spec fn sheets_from(
    v: Seq<DomNodeView>,
    parts: Seq<MimePartView>,
    index: Seq<(Seq<char>, usize)>,
    base: Option<Seq<char>>,
    j: int,
    end: int,
) -> Result<Seq<Seq<char>>, nat>
    decreases end - j,
{
    if j < 0 || j >= end || j >= v.len() {
        Ok(seq![])
    } else {
        let rest = sheets_from(v, parts, index, base, j + 1, end);
        if is_element_named(v[j], "style"@) {
            prepend(text_of(v, j), rest)
        } else if is_element_named(v[j], "link"@) {
            match link_stylesheet(v[j], parts, index, base) {
                Some(css) => if encode_utf8(css).len() > MAX_ENTRY_BYTES {
                    Err(encode_utf8(css).len())
                } else {
                    prepend(css, rest)
                },
                None => rest,
            }
        } else {
            rest
        }
    }
}

/// `x` in front of the list, or the error unchanged.
pub open spec fn prepend(x: Seq<char>, r: Result<Seq<Seq<char>>, nat>) -> Result<Seq<Seq<char>>, nat> {
    match r {
        Ok(l) => Ok(seq![x] + l),
        Err(e) => Err(e),
    }
}

/// The list `l` in front of the list, or the error unchanged.
pub open spec fn prefixed(l: Seq<Seq<char>>, r: Result<Seq<Seq<char>>, nat>) -> Result<Seq<Seq<char>>, nat> {
    match r {
        Ok(rest) => Ok(l + rest),
        Err(e) => Err(e),
    }
}

/// The stylesheets of a parsed document in document order (`sheets_from`
/// over the root element's subtree).
pub open spec fn stylesheets_in_order(
    v: Seq<DomNodeView>,
    parts: Seq<MimePartView>,
    index: Seq<(Seq<char>, usize)>,
    base: Option<Seq<char>>,
) -> Result<Seq<Seq<char>>, nat> {
    match root_element_from(v, 0) {
        Some(r) => sheets_from(v, parts, index, base, r, subtree_end(v, r)),
        None => Ok(seq![]),
    }
}

/// The stylesheets of a parsed document in document order
/// (`stylesheets_in_order`); a linked stylesheet over `MAX_ENTRY_BYTES`
/// bytes is an error.
pub fn collect_stylesheets_in_order(
    nodes: &[DomNode],
    parts: &Vec<MimePart>,
    resource_index: &Vec<(String, usize)>,
    resource_base: Option<&str>,
) -> (r: Result<Vec<String>, ConvertError>)
    requires
        index_below(resource_index@, parts@.len()),
    ensures
        match stylesheets_in_order(dom_view(nodes@), parts_view(parts@), assoc_view(resource_index@), opt_view(resource_base)) {
            Ok(list) => r matches Ok(v) && strings_view(v@) == list,
            Err(size) => r matches Err(e) && is_limit_error(e, "max_entry_bytes"@) && (e matches ConvertError::ResourceLimit { detail, .. }
                && detail@ == size_detail("MHTML stylesheet"@, size, MAX_ENTRY_BYTES as nat)),
        },
{
    let ghost v = dom_view(nodes@);
    let ghost pv = parts_view(parts@);
    let ghost iv = assoc_view(resource_index@);
    let ghost bv = opt_view(resource_base);
    let mut out: Vec<String> = Vec::new();
    let root = match root_element_index(nodes) {
        None => {
            assert(strings_view(out@) =~= Seq::<Seq<char>>::empty());
            return Ok(out);
        },
        Some(r) => r,
    };
    let end = subtree_end_exec(nodes, root);
    let mut j = root;
    assert(strings_view(out@) + Seq::<Seq<char>>::empty() =~= Seq::<Seq<char>>::empty());
    assert(prefixed(strings_view(out@), sheets_from(v, pv, iv, bv, j as int, end as int)) =~= sheets_from(v, pv, iv, bv, j as int, end as int)) by {
        match sheets_from(v, pv, iv, bv, j as int, end as int) {
            Ok(rest) => {
                assert(strings_view(out@) + rest =~= rest);
            },
            Err(_) => {},
        }
    }
    while j < end
        invariant
            v == dom_view(nodes@),
            pv == parts_view(parts@),
            iv == assoc_view(resource_index@),
            bv == opt_view(resource_base),
            index_below(resource_index@, parts@.len()),
            root <= j <= end <= nodes@.len(),
            stylesheets_in_order(v, pv, iv, bv) == prefixed(strings_view(out@), sheets_from(v, pv, iv, bv, j as int, end as int)),
        decreases end - j,
    {
        let ghost before = strings_view(out@);
        let ghost rest = sheets_from(v, pv, iv, bv, j + 1, end as int);
        assert(v[j as int] == node_view(nodes@[j as int]));
        assert(sheets_from(v, pv, iv, bv, j as int, end as int) == if is_element_named(v[j as int], "style"@) {
            prepend(text_of(v, j as int), rest)
        } else if is_element_named(v[j as int], "link"@) {
            match link_stylesheet(v[j as int], pv, iv, bv) {
                Some(css) => if encode_utf8(css).len() > MAX_ENTRY_BYTES {
                    Err(encode_utf8(css).len())
                } else {
                    prepend(css, rest)
                },
                None => rest,
            }
        } else {
            rest
        });
        if is_element_named_exec(&nodes[j], "style") {
            let t = element_text(nodes, j);
            out.push(t);
            assert(strings_view(out@) =~= before.push(t@));
            proof {
                match rest {
                    Ok(l) => {
                        assert(before + (seq![t@] + l) =~= strings_view(out@) + l);
                    },
                    Err(_) => {},
                }
            }
        } else if is_element_named_exec(&nodes[j], "link") {
            match link_stylesheet_text(&nodes[j], parts, resource_index, resource_base) {
                Some(css) => {
                    let size = css.as_str().as_bytes().len();
                    assert(size == encode_utf8(css@).len());
                    if size as u64 > MAX_ENTRY_BYTES {
                        return Err(
                            ConvertError::ResourceLimit {
                                limit: "max_entry_bytes",
                                detail: size_detail_string("MHTML stylesheet", size as u128, MAX_ENTRY_BYTES as u128),
                            },
                        );
                    }
                    out.push(css);
                    assert(strings_view(out@) =~= before.push(css@));
                    proof {
                        match rest {
                            Ok(l) => {
                                assert(before + (seq![css@] + l) =~= strings_view(out@) + l);
                            },
                            Err(_) => {},
                        }
                    }
                },
                None => {},
            }
        }
        j = j + 1;
    }
    proof {
        match sheets_from(v, pv, iv, bv, j as int, end as int) {
            Ok(l) => {
                assert(strings_view(out@) + l =~= strings_view(out@));
            },
            Err(_) => {},
        }
    }
    Ok(out)
}

/// The part is an image: its media type is `image`, ignoring ASCII case.
pub open spec fn is_image(p: MimePartView) -> bool {
    p.content_type matches Some(ct) && eq_ignore_case(ct.ctype, "image"@)
}

/// The asset made of image part `i`, given the id `id`: its media type (the
/// subtype `octet-stream` when none is given), where it came from (its
/// Content-Location, else its Content-ID, else `mhtml-part-i`) and its
/// decoded bytes.
pub open spec fn image_asset(p: MimePartView, i: int, id: nat) -> AssetView {
    let ct = p.content_type->0;
    AssetView {
        id: AssetId(id as usize),
        media_type: ct.ctype + "/"@ + match ct.subtype {
            Some(sub) => sub,
            None => "octet-stream"@,
        },
        origin_part: match p.content_location {
            Some(l) => l,
            None => match p.content_id {
                Some(c) => c,
                None => "mhtml-part-"@ + decimal(i as nat),
            },
        },
        bytes: p.contents,
    }
}

/// The images gathered from some parts: the assets, the keys that lead to
/// them, and the bytes they hold in all.
pub struct ImageScan {
    pub assets: Seq<AssetView>,
    pub keys: Seq<(Seq<char>, AssetId)>,
    pub total: nat,
}

/// Why gathering the images failed.
pub enum ImageFailure {
    /// An image part of `size` bytes exceeds `MAX_ENTRY_BYTES`.
    Entry { size: nat },
    /// The images hold `total` bytes, over `MAX_ASSET_TOTAL_BYTES`.
    Total { total: nat },
}

/// The images of the parts `0..n`, in part order, each checked against
/// `MAX_ENTRY_BYTES` and their running total against
/// `MAX_ASSET_TOTAL_BYTES`; a key leads to the first image found by it.
pub open spec fn image_scan(parts: Seq<MimePartView>, base: Option<Seq<char>>, n: int) -> Result<ImageScan, ImageFailure>
    decreases n,
{
    if n <= 0 {
        Ok(ImageScan { assets: seq![], keys: seq![], total: 0 })
    } else {
        match image_scan(parts, base, n - 1) {
            Err(f) => Err(f),
            Ok(s) => {
                let p = parts[n - 1];
                if !is_image(p) {
                    Ok(s)
                } else if p.contents.len() > MAX_ENTRY_BYTES {
                    Err(ImageFailure::Entry { size: p.contents.len() })
                } else if s.total + p.contents.len() > MAX_ASSET_TOTAL_BYTES {
                    Err(ImageFailure::Total { total: s.total + p.contents.len() })
                } else {
                    let a = image_asset(p, n - 1, s.assets.len());
                    Ok(
                        ImageScan {
                            assets: s.assets.push(a),
                            keys: insert_first(s.keys, part_keys(p, base), a.id),
                            total: s.total + p.contents.len(),
                        },
                    )
                }
            },
        }
    }
}

/// Lemma: once the scan fails, it fails the same way on more parts.
pub proof fn lemma_image_scan_fails(parts: Seq<MimePartView>, base: Option<Seq<char>>, n: int, m: int)
    requires
        n <= m,
        image_scan(parts, base, n) is Err,
    ensures
        image_scan(parts, base, m) == image_scan(parts, base, n),
    decreases m - n,
{
    if n < m {
        lemma_image_scan_fails(parts, base, n, m - 1);
    }
}

/// The error reports the image failure.
pub open spec fn reports_image_failure(e: ConvertError, f: ImageFailure) -> bool {
    match f {
        ImageFailure::Entry { size } => is_limit_error(e, "max_entry_bytes"@) && (e matches ConvertError::ResourceLimit { detail, .. }
            && detail@ == size_detail("MHTML image part"@, size, MAX_ENTRY_BYTES as nat)),
        ImageFailure::Total { total } => is_limit_error(e, "max_asset_total_bytes"@) && (e matches ConvertError::ResourceLimit { detail, .. }
            && detail@ == "MHTML embedded images retain "@ + decimal(total) + " bytes; maximum is "@ + decimal(MAX_ASSET_TOTAL_BYTES as nat)),
    }
}

/// The asset made of image part `i` (`image_asset`).
fn make_image_asset(p: &MimePart, ct: &ContentType, i: usize, id: usize) -> (r: Asset)
    requires
        part_view(*p).content_type == Some(content_type_view(*ct)),
    ensures
        asset_view(r) == image_asset(part_view(*p), i as int, id as nat),
{
    let subtype = match &ct.subtype {
        Some(sub) => sub.as_str(),
        None => "octet-stream",
    };
    let media_type = cat(cat(String::from_str(ct.ctype.as_str()), "/"), subtype);
    let origin_part = match &p.content_location {
        Some(l) => String::from_str(l.as_str()),
        None => match &p.content_id {
            Some(c) => String::from_str(c.as_str()),
            None => {
                let s = message_with_number("mhtml-part-", i as u128, "");
                proof {
                    reveal_strlit("");
                }
                assert(s@ =~= "mhtml-part-"@ + decimal(i as nat));
                s
            },
        },
    };
    Asset { id: AssetId(id), media_type, origin_part, bytes: vstd::slice::slice_to_vec(p.contents.as_slice()) }
}

/// The embedded images of the parts (`image_scan`): the assets in part
/// order and the keys that lead to them.
pub fn collect_image_assets(parts: &Vec<MimePart>, resource_base: Option<&str>) -> (r: Result<(Vec<Asset>, Vec<(String, AssetId)>), ConvertError>)
    ensures
        match image_scan(parts_view(parts@), opt_view(resource_base), parts@.len() as int) {
            Ok(s) => r matches Ok((assets, keys)) && assets_view(assets@) == s.assets && assoc_view(keys@) == s.keys,
            Err(f) => r matches Err(e) && reports_image_failure(e, f),
        },
{
    let ghost pv = parts_view(parts@);
    let ghost bv = opt_view(resource_base);
    let mut assets: Vec<Asset> = Vec::new();
    let mut keys: Vec<(String, AssetId)> = Vec::new();
    let mut total: u64 = 0;
    let mut i: usize = 0;
    assert(assets_view(assets@) =~= Seq::<AssetView>::empty());
    assert(assoc_view(keys@) =~= Seq::<(Seq<char>, AssetId)>::empty());
    while i < parts.len()
        invariant
            i <= parts@.len(),
            pv == parts_view(parts@),
            bv == opt_view(resource_base),
            image_scan(pv, bv, i as int) matches Ok(s) && assets_view(assets@) == s.assets
                && assoc_view(keys@) == s.keys && total == s.total,
            total <= MAX_ASSET_TOTAL_BYTES,
        decreases parts@.len() - i,
    {
        let p = &parts[i];
        assert(pv[i as int] == part_view(*p));
        let ct = match &p.content_type {
            Some(ct) => ct,
            None => {
                i = i + 1;
                continue;
            },
        };
        if eq_ignore_case_str(ct.ctype.as_str(), "image") {
            let size = p.contents.len();
            if size as u64 > MAX_ENTRY_BYTES {
                proof {
                    lemma_image_scan_fails(pv, bv, i + 1, parts@.len() as int);
                }
                return Err(
                    ConvertError::ResourceLimit {
                        limit: "max_entry_bytes",
                        detail: size_detail_string("MHTML image part", size as u128, MAX_ENTRY_BYTES as u128),
                    },
                );
            }
            total = total + size as u64;
            if total > MAX_ASSET_TOTAL_BYTES as u64 {
                proof {
                    lemma_image_scan_fails(pv, bv, i + 1, parts@.len() as int);
                    reveal_strlit("");
                }
                let detail = message_with_two_numbers(
                    "MHTML embedded images retain ",
                    total as u128,
                    " bytes; maximum is ",
                    MAX_ASSET_TOTAL_BYTES as u128,
                    "",
                );
                assert(detail@ =~= "MHTML embedded images retain "@ + decimal(total as nat) + " bytes; maximum is "@
                    + decimal(MAX_ASSET_TOTAL_BYTES as nat));
                return Err(ConvertError::ResourceLimit { limit: "max_asset_total_bytes", detail });
            }
            let id = AssetId(assets.len());
            let asset = make_image_asset(p, ct, i, assets.len());
            let ghost before = assets_view(assets@);
            assets.push(asset);
            assert(assets_view(assets@) =~= before.push(asset_view(asset)));
            let part_keys_exec = resource_keys(p, resource_base);
            insert_keys(&mut keys, &part_keys_exec, id);
        }
        i = i + 1;
    }
    Ok((assets, keys))
}

/// The bytes the assets hold in all.
pub open spec fn bytes_total(assets: Seq<AssetView>) -> nat
    decreases assets.len(),
{
    if assets.len() == 0 {
        0
    } else {
        bytes_total(assets.drop_last()) + assets.last().bytes.len()
    }
}

/// Law: the images an archive retains stay within the limits: each holds
/// at most `MAX_ENTRY_BYTES` bytes, together at most
/// `MAX_ASSET_TOTAL_BYTES`; each asset's id is its position; each key is
/// held once and leads to one of the assets.
pub proof fn law_images_within_limits(parts: Seq<MimePartView>, base: Option<Seq<char>>, n: int)
    requires
        0 <= n <= parts.len(),
        n <= usize::MAX,
    ensures
        image_scan(parts, base, n) matches Ok(s) ==> {
            &&& s.total == bytes_total(s.assets)
            &&& s.total <= MAX_ASSET_TOTAL_BYTES
            &&& s.assets.len() <= n
            &&& forall|k: int| 0 <= k < s.assets.len() ==> (#[trigger] s.assets[k]).bytes.len() <= MAX_ENTRY_BYTES
                && s.assets[k].id == AssetId(k as usize)
            &&& distinct_keys(s.keys)
            &&& forall|k: int| 0 <= k < s.keys.len() ==> (#[trigger] s.keys[k]).1.0 < s.assets.len()
        },
    decreases n,
{
    if n > 0 {
        law_images_within_limits(parts, base, n - 1);
        if let Ok(s) = image_scan(parts, base, n - 1) {
            let p = parts[n - 1];
            if is_image(p) && p.contents.len() <= MAX_ENTRY_BYTES && s.total + p.contents.len() <= MAX_ASSET_TOTAL_BYTES {
                let a = image_asset(p, n - 1, s.assets.len());
                let assets = s.assets.push(a);
                let keys = insert_first(s.keys, part_keys(p, base), a.id);
                assert(assets.drop_last() =~= s.assets);
                assert forall|k: int| 0 <= k < assets.len() implies (#[trigger] assets[k]).bytes.len() <= MAX_ENTRY_BYTES
                    && assets[k].id == AssetId(k as usize) by {
                    if k < s.assets.len() {
                        assert(assets[k] == s.assets[k]);
                    }
                }
                lemma_insert_first_extends(s.keys, part_keys(p, base), a.id);
                assert forall|k: int| 0 <= k < keys.len() implies (#[trigger] keys[k]).1.0 < assets.len() by {
                    if k < s.keys.len() {
                        assert(keys.subrange(0, s.keys.len() as int)[k] == s.keys[k]);
                    }
                }
                lemma_insert_first(s.keys, part_keys(p, base), a.id, seq![]);
            }
        }
    }
}

/// The base that the archive's references resolve against: the `href` of
/// the document's first `base` element resolved against the root part's
/// location, when there is one and it is not empty; else the root part's
/// location, canonical.
pub open spec fn resource_base(v: Seq<DomNodeView>, root_location: Option<Seq<char>>) -> Option<Seq<char>> {
    let from_base = match find_named(v, "base"@) {
        Some(b) => match attr_of(v[b], "href"@) {
            Some(h) => if resolved(root_location, h).len() > 0 {
                Some(resolved(root_location, h))
            } else {
                None
            },
            None => None,
        },
        None => None,
    };
    match from_base {
        Some(r) => Some(r),
        None => match root_location {
            Some(l) => Some(canonical(l)),
            None => None,
        },
    }
}

/// The base that the archive's references resolve against (`resource_base`).
pub fn html_resource_base(nodes: &[DomNode], root_location: Option<&str>) -> (r: Option<String>)
    ensures
        opt_str_view(r) == resource_base(dom_view(nodes@), opt_view(root_location)),
{
    if let Some(b) = find_named_element(nodes, "base") {
        assert(dom_view(nodes@)[b as int] == node_view(nodes@[b as int]));
        if let Some(href) = attr(&nodes[b], "href") {
            let base = resolve_resource_reference(root_location, href.as_str());
            if !base.as_str().is_empty() {
                return Some(base);
            }
        }
    }
    match root_location {
        Some(l) => Some(canonical_reference(l)),
        None => None,
    }
}

/// The number of image parts among the parts `0..n`.
pub open spec fn images_before(parts: Seq<MimePartView>, n: int) -> nat
    decreases n,
{
    if n <= 0 {
        0
    } else if is_image(parts[n - 1]) {
        images_before(parts, n - 1) + 1
    } else {
        images_before(parts, n - 1)
    }
}

/// The first image part among the parts `0..n` that is found by `key`.
pub open spec fn image_key_owner(parts: Seq<MimePartView>, base: Option<Seq<char>>, key: Seq<char>, n: int) -> Option<int>
    decreases n,
{
    if n <= 0 {
        None
    } else {
        match image_key_owner(parts, base, key, n - 1) {
            Some(j) => Some(j),
            None => if is_image(parts[n - 1]) && part_keys(parts[n - 1], base).contains(key) {
                Some(n - 1)
            } else {
                None
            },
        }
    }
}

/// Law: among the embedded images, a key leads to the asset of the first
/// image part found by that key; an image part's asset id counts the image
/// parts before it.
pub proof fn law_image_keys_first_wins(parts: Seq<MimePartView>, base: Option<Seq<char>>, n: int, key: Seq<char>)
    requires
        0 <= n <= parts.len(),
        n <= usize::MAX,
    ensures
        image_scan(parts, base, n) matches Ok(s) ==> {
            &&& s.assets.len() == images_before(parts, n)
            &&& assoc_lookup(s.keys, key) == match image_key_owner(parts, base, key, n) {
                Some(j) => Some(AssetId(images_before(parts, j) as usize)),
                None => None,
            }
        },
    decreases n,
{
    if n > 0 {
        law_image_keys_first_wins(parts, base, n - 1, key);
        law_images_within_limits(parts, base, n - 1);
        if let Ok(s) = image_scan(parts, base, n - 1) {
            let p = parts[n - 1];
            if is_image(p) && p.contents.len() <= MAX_ENTRY_BYTES && s.total + p.contents.len() <= MAX_ASSET_TOTAL_BYTES {
                let a = image_asset(p, n - 1, s.assets.len());
                lemma_insert_first(s.keys, part_keys(p, base), a.id, key);
            }
        }
    }
}

/// Lemma: no `link` element among positions `j..end` leaves only the
/// `style` texts as stylesheets.
pub proof fn lemma_sheets_without_links(
    v: Seq<DomNodeView>,
    parts: Seq<MimePartView>,
    index: Seq<(Seq<char>, usize)>,
    base: Option<Seq<char>>,
    j: int,
    end: int,
)
    requires
        first_named_from(v, "link"@, j, end) is None,
    ensures
        sheets_from(v, parts, index, base, j, end) == Ok::<Seq<Seq<char>>, nat>(style_texts_from(v, j, end)),
    decreases end - j,
{
    if !(j < 0 || j >= end || j >= v.len()) {
        lemma_sheets_without_links(v, parts, index, base, j + 1, end);
    }
}

/// Lemma: parts without images give no assets and no keys.
pub proof fn lemma_image_scan_without_images(parts: Seq<MimePartView>, base: Option<Seq<char>>, n: int)
    requires
        n <= parts.len(),
        forall|i: int| 0 <= i < parts.len() ==> !is_image(#[trigger] parts[i]),
    ensures
        image_scan(parts, base, n) == Ok::<ImageScan, ImageFailure>(ImageScan { assets: seq![], keys: seq![], total: 0 }),
    decreases n,
{
    if n > 0 {
        lemma_image_scan_without_images(parts, base, n - 1);
        assert(!is_image(parts[n - 1]));
    }
}

/// The first of the parts `0..n` that is found by `key`.
pub open spec fn key_owner(parts: Seq<MimePartView>, base: Option<Seq<char>>, key: Seq<char>, n: int) -> Option<int>
    decreases n,
{
    if n <= 0 {
        None
    } else {
        match key_owner(parts, base, key, n - 1) {
            Some(j) => Some(j),
            None => if part_keys(parts[n - 1], base).contains(key) {
                Some(n - 1)
            } else {
                None
            },
        }
    }
}

/// Law: the resource index leads each key to the first part found by that
/// key (later parts with the same key do not replace it), and holds each
/// key once.
pub proof fn law_resource_index_first_wins(parts: Seq<MimePartView>, base: Option<Seq<char>>, n: int, key: Seq<char>)
    requires
        0 <= n <= parts.len(),
        n <= usize::MAX,
    ensures
        match assoc_lookup(resource_index(parts, base, n), key) {
            Some(i) => key_owner(parts, base, key, n) == Some(i as int),
            None => key_owner(parts, base, key, n) is None,
        },
        distinct_keys(resource_index(parts, base, n)),
    decreases n,
{
    if n > 0 {
        law_resource_index_first_wins(parts, base, n - 1, key);
        lemma_insert_first(resource_index(parts, base, n - 1), part_keys(parts[n - 1], base), (n - 1) as usize, key);
    }
}

/// Lemma: two sequences that agree below `m`, where `s[q] == c` for some
/// `i <= q < m`, have the same first `c` from `i` on.
proof fn lemma_first_index_in_common_prefix(s: Seq<char>, t: Seq<char>, c: char, i: int, q: int, m: int)
    requires
        0 <= i <= q < m,
        m <= s.len(),
        m <= t.len(),
        s[q] == c,
        forall|p: int| 0 <= p < m ==> s[p] == t[p],
    ensures
        first_index_of(s, c, i) == first_index_of(t, c, i),
        first_index_of(s, c, i) matches Some(j) && i <= j <= q,
    decreases q - i,
{
    if s[i] != c {
        lemma_first_index_in_common_prefix(s, t, c, i + 1, q, m);
    }
}

/// Law: a `<base href>` is resolved against the root part's location.
/// When the document's first `base` element has an `href` that resolves to
/// a non-empty reference, that resolved reference is the base. When the
/// href is a relative reference (not empty, not `cid:`, not absolute, not
/// protocol-relative) and the root location holds `://`, the base starts
/// with the root location's `scheme://`; so a relative href against an
/// absolute root location gives an absolute base.
pub proof fn law_base_href_resolves_against_root(
    v: Seq<DomNodeView>,
    root_location: Option<Seq<char>>,
    b: int,
    h: Seq<char>,
)
    requires
        find_named(v, "base"@) == Some(b),
        attr_of(v[b], "href"@) == Some(h),
    ensures
        resolved(root_location, h).len() > 0 ==> resource_base(v, root_location) == Some(resolved(root_location, h)),
        match root_location {
            Some(l) => {
                let c = canonical(h);
                find_seq(l, "://"@) is Some && c.len() > 0 && !starts_with(c, "cid:"@) && !absolute_uri(c)
                    && !starts_with(c, "//"@) ==> {
                    let k = find_seq(l, "://"@)->0;
                    &&& resource_base(v, root_location) == Some(resolved(root_location, h))
                    &&& starts_with(resolved(root_location, h), l.subrange(0, k + 3))
                    &&& absolute_uri(l) ==> absolute_uri(resolved(root_location, h))
                }
            },
            None => true,
        },
{
    let c = canonical(h);
    if let Some(l) = root_location {
        if find_seq(l, "://"@) is Some && c.len() > 0 && !starts_with(c, "cid:"@) && !absolute_uri(c)
            && !starts_with(c, "//"@) {
            reveal_strlit("://");
            let k = find_seq(l, "://"@)->0;
            lemma_first_occurrence(l, "://"@, 0);
            let r = resolved(root_location, h);
            let scheme = l.subrange(0, k);
            assert(l.subrange(k, k + 3) == "://"@);
            assert(l.subrange(0, k + 3) =~= scheme + "://"@);
            assert(r.len() >= k + 3);
            assert(r.subrange(0, k + 3) =~= scheme + "://"@);
            assert(starts_with(r, l.subrange(0, k + 3)));
            if absolute_uri(l) {
                assert(l[k] == l.subrange(k, k + 3)[0]);
                assert("://"@[0] == ':');
                assert forall|p: int| 0 <= p < k + 3 implies l[p] == r[p] by {
                    assert(l.subrange(0, k + 3)[p] == r.subrange(0, k + 3)[p]);
                }
                lemma_first_index_in_common_prefix(l, r, ':', 0, k, k + 3);
                let k2 = first_index_of(l, ':', 0)->0;
                assert forall|i: int| 1 <= i < k2 implies #[trigger] is_scheme_char(r[i]) by {
                    assert(l[i] == r[i]);
                    assert(is_scheme_char(l[i]));
                }
                assert(l[0] == r[0]);
            }
        }
    }
}

} // verus!
