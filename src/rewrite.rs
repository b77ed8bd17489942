//! Rewriting of the references inside markup and style sheets so that they
//! follow renamed resources.
use vstd::prelude::*;
use crate::encrypt::{dir_name_of, FileCategory};
use crate::mapping::PathMap;
use crate::paths::{resolve_book_path, resolved_path};
use crate::text::percent_decoded_bytes;
use vstd::utf8::{decode_utf8, encode_utf8, pop_first_scalar, valid_utf8};
use crate::text::{
    chars_of, find_char, find_from, first_index_of, has_prefix, lemma_first_index_of, occurs_at,
    percent_decoded, percent_encoding_decode, push_all, string_of, sub_chars,
};

verus! {

/// White space as `char::is_whitespace` defines it (Unicode `White_Space`).
pub open spec fn is_ws(c: char) -> bool {
    let u = c as u32;
    u == 32 || (9 <= u <= 13) || u == 0x85 || u == 0xa0 || u == 0x1680 || (0x2000 <= u <= 0x200a)
        || u == 0x2028 || u == 0x2029 || u == 0x202f || u == 0x205f || u == 0x3000
}

/// A quote character: `"` or `'`.
pub open spec fn is_quote(c: char) -> bool {
    c == '"' || c == '\''
}

/// The first index from `i` on whose character does not satisfy `f`.
pub open spec fn skip_start(s: Seq<char>, f: spec_fn(char) -> bool, i: int) -> int
    decreases s.len() - i,
{
    if 0 <= i < s.len() && f(s[i]) {
        skip_start(s, f, i + 1)
    } else {
        i
    }
}

/// The end left after dropping, from `j` down to `lo`, characters satisfying `f`.
pub open spec fn skip_end(s: Seq<char>, f: spec_fn(char) -> bool, lo: int, j: int) -> int
    decreases j - lo,
{
    if lo < j && j <= s.len() && f(s[j - 1]) {
        skip_end(s, f, lo, j - 1)
    } else {
        j
    }
}

/// `s` without leading and trailing characters that satisfy `f`.
pub open spec fn trimmed_by(s: Seq<char>, f: spec_fn(char) -> bool) -> Seq<char> {
    let a = skip_start(s, f, 0);
    s.subrange(a, skip_end(s, f, a, s.len() as int))
}

/// `s` without leading and trailing white space.
pub open spec fn trimmed(s: Seq<char>) -> Seq<char> {
    trimmed_by(s, |c: char| is_ws(c))
}

/// `s` without leading and trailing characters for which `quotes` decides
/// (quotes) or not (white space).
pub(crate) fn trim_chars(s: &[char], quotes: bool) -> (r: Vec<char>)
    ensures
        quotes ==> r@ == trimmed_by(s@, |c: char| is_quote(c)),
        !quotes ==> r@ == trimmed(s@),
{
    let ghost f = if quotes {
        |c: char| is_quote(c)
    } else {
        |c: char| is_ws(c)
    };
    let mut a: usize = 0;
    while a < s.len() && strip_this(s[a], quotes)
        invariant
            a <= s@.len(),
            skip_start(s@, f, 0) == skip_start(s@, f, a as int),
            f == (if quotes {
                |c: char| is_quote(c)
            } else {
                |c: char| is_ws(c)
            }),
        decreases s@.len() - a,
    {
        a += 1;
    }
    let mut b: usize = s.len();
    while b > a && strip_this(s[b - 1], quotes)
        invariant
            a <= b <= s@.len(),
            skip_end(s@, f, a as int, s@.len() as int) == skip_end(s@, f, a as int, b as int),
            f == (if quotes {
                |c: char| is_quote(c)
            } else {
                |c: char| is_ws(c)
            }),
        decreases b,
    {
        b -= 1;
    }
    sub_chars(s, a, b)
}

/// Whether `c` is stripped: a quote when `quotes`, else white space.
pub(crate) fn strip_this(c: char, quotes: bool) -> (r: bool)
    ensures
        r == (if quotes {
            is_quote(c)
        } else {
            is_ws(c)
        }),
{
    if quotes {
        c == '"' || c == '\''
    } else {
        let u = c as u32;
        u == 32 || (9 <= u && u <= 13) || u == 0x85 || u == 0xa0 || u == 0x1680 || (0x2000 <= u
            && u <= 0x200a) || u == 0x2028 || u == 0x2029 || u == 0x202f || u == 0x205f || u
            == 0x3000
    }
}


/// The first position from `from` on where `p` occurs in `s`, or -1.
pub open spec fn first_occurrence(s: Seq<char>, p: Seq<char>, from: int) -> int
    decreases s.len() + 1 - from,
{
    if from < 0 || from > s.len() {
        -1
    } else if occurs_at(s, p, from) {
        from
    } else {
        first_occurrence(s, p, from + 1)
    }
}

proof fn lemma_first_occurrence_found(s: Seq<char>, p: Seq<char>, from: int, i: int)
    requires
        0 <= from <= i,
        occurs_at(s, p, i),
        forall|j: int| from <= j < i ==> !occurs_at(s, p, j),
    ensures
        first_occurrence(s, p, from) == i,
    decreases i - from,
{
    if from < i {
        lemma_first_occurrence_found(s, p, from + 1, i);
    }
}

proof fn lemma_first_occurrence_absent(s: Seq<char>, p: Seq<char>, from: int)
    requires
        0 <= from,
        forall|j: int| from <= j ==> !occurs_at(s, p, j),
    ensures
        first_occurrence(s, p, from) == -1,
    decreases s.len() + 1 - from,
{
    if from <= s.len() {
        lemma_first_occurrence_absent(s, p, from + 1);
    }
}

/// First position from `from` on where `p` occurs, as `first_occurrence` has it.
pub(crate) fn find_first(s: &[char], p: &[char], from: usize) -> (r: Option<usize>)
    ensures
        match r {
            Some(i) => i == first_occurrence(s@, p@, from as int) && from <= i && occurs_at(
                s@,
                p@,
                i as int,
            ),
            None => first_occurrence(s@, p@, from as int) == -1,
        },
{
    let r = find_from(s, p, from);
    proof {
        match r {
            Some(i) => lemma_first_occurrence_found(s@, p@, from as int, i as int),
            None => lemma_first_occurrence_absent(s@, p@, from as int),
        }
    }
    r
}

/// Whether a reference points outside the archive.
pub open spec fn is_external(t: Seq<char>) -> bool {
    "http://"@.is_prefix_of(t) || "https://"@.is_prefix_of(t) || "data:"@.is_prefix_of(t)
        || "mailto:"@.is_prefix_of(t)
}

/// The path part of a reference: decoded, trimmed, up to its first `#`.
pub open spec fn reference_target(href: Seq<char>) -> Seq<char> {
    let t = trimmed(percent_decoded(href));
    let h = first_index_of(t, '#');
    if h < 0 {
        t
    } else {
        t.subrange(0, h)
    }
}

/// The new form of reference `href` found in the file at `base_path`, or
/// `None` when it is to stay as it is.
pub open spec fn rewritten_href(
    href: Seq<char>,
    base_path: Seq<char>,
    m: Map<Seq<char>, (Seq<char>, FileCategory)>,
) -> Option<Seq<char>> {
    let t = trimmed(percent_decoded(href));
    let h = first_index_of(t, '#');
    let hb = reference_target(href);
    let frag = if h < 0 {
        Seq::empty()
    } else {
        t.subrange(h, t.len() as int)
    };
    let bp = resolved_path(hb, base_path);
    if t.len() == 0 || is_external(t) || hb.len() == 0 || !m.contains_key(bp) {
        None
    } else {
        Some(seq!['.', '.', '/'] + dir_name_of(m[bp].1) + seq!['/'] + m[bp].0 + frag)
    }
}

/// Try to rewrite a single href to the renamed resource's path.
pub fn try_rewrite_href(href: &str, base_path: &str, path_map: &PathMap) -> (r: Option<String>)
    ensures
        opt_chars(r) == rewritten_href(href@, base_path@, path_map@),
{
    let decoded = percent_encoding_decode(href);
    let t = trim_chars(chars_of(decoded.as_str()).as_slice(), false);
    if t.len() == 0 || has_prefix(t.as_slice(), chars_of("http://").as_slice()) || has_prefix(
        t.as_slice(),
        chars_of("https://").as_slice(),
    ) || has_prefix(t.as_slice(), chars_of("data:").as_slice()) || has_prefix(
        t.as_slice(),
        chars_of("mailto:").as_slice(),
    ) {
        return None;
    }
    proof {
        lemma_first_index_of(t@, '#');
    }
    let (hb, frag) = match find_char(t.as_slice(), '#') {
        Some(h) => (sub_chars(t.as_slice(), 0, h), sub_chars(t.as_slice(), h, t.len())),
        None => (sub_chars(t.as_slice(), 0, t.len()), Vec::new()),
    };
    assert(first_index_of(t@, '#') < 0 ==> hb@ =~= t@);
    if hb.len() == 0 {
        return None;
    }
    let hb_s = string_of(hb.as_slice());
    let bp = resolve_book_path(hb_s.as_str(), base_path);
    match path_map.get(&bp) {
        None => None,
        Some(entry) => {
            let mut out: Vec<char> = vec!['.', '.', '/'];
            push_all(&mut out, chars_of(entry.1.dir_name()).as_slice());
            out.push('/');
            push_all(&mut out, chars_of(entry.0.as_str()).as_slice());
            push_all(&mut out, frag.as_slice());
            let ghost m = path_map@;
            assert(out@ =~= seq!['.', '.', '/'] + dir_name_of(m[bp@].1) + seq!['/'] + m[bp@].0
                + frag@);
            Some(string_of(out.as_slice()))
        },
    }
}

/// The view of an optional string.
pub open spec fn opt_chars(o: Option<String>) -> Option<Seq<char>> {
    match o {
        Some(s) => Some(s@),
        None => None,
    }
}


/// A reference value after rewriting: its new form, or itself.
pub open spec fn value_after(
    v: Seq<char>,
    base_path: Seq<char>,
    m: Map<Seq<char>, (Seq<char>, FileCategory)>,
) -> Seq<char> {
    match rewritten_href(v, base_path, m) {
        Some(x) => x,
        None => v,
    }
}

/// `t` from `pos` on, with the value of every `pat` (an attribute name
/// followed by `="`) up to the next `"` rewritten.
pub open spec fn attr_rewritten(
    t: Seq<char>,
    pat: Seq<char>,
    base_path: Seq<char>,
    m: Map<Seq<char>, (Seq<char>, FileCategory)>,
    pos: int,
) -> Seq<char>
    decreases t.len() - pos,
{
    if pos < 0 || pos >= t.len() || pat.len() == 0 {
        Seq::empty()
    } else {
        let st = first_occurrence(t, pat, pos);
        if st < pos || st + pat.len() > t.len() {
            t.subrange(pos, t.len() as int)
        } else {
            let vs = st + pat.len();
            let e = first_occurrence(t, seq!['"'], vs);
            if e < vs || e > t.len() {
                t.subrange(pos, vs) + attr_rewritten(t, pat, base_path, m, vs)
            } else {
                t.subrange(pos, vs) + value_after(t.subrange(vs, e), base_path, m) + attr_rewritten(
                    t,
                    pat,
                    base_path,
                    m,
                    e,
                )
            }
        }
    }
}

/// `url(`.
pub open spec fn url_open() -> Seq<char> {
    seq!['u', 'r', 'l', '(']
}

/// `t` from `pos` on, with the reference of every `url(...)` rewritten; the
/// reference is taken without surrounding white space and quotes, and an
/// argument that is not rewritten stays exactly as it was.
pub open spec fn url_rewritten(
    t: Seq<char>,
    base_path: Seq<char>,
    m: Map<Seq<char>, (Seq<char>, FileCategory)>,
    pos: int,
) -> Seq<char>
    decreases t.len() - pos,
{
    if pos < 0 || pos >= t.len() {
        Seq::empty()
    } else {
        let us = first_occurrence(t, url_open(), pos);
        if us < pos || us + 4 > t.len() {
            t.subrange(pos, t.len() as int)
        } else {
            let vs = us + 4;
            let pe = first_occurrence(t, seq![')'], vs);
            if pe < vs || pe >= t.len() {
                t.subrange(pos, vs) + url_rewritten(t, base_path, m, vs)
            } else {
                let raw = trimmed(t.subrange(vs, pe));
                let url = trimmed_by(raw, |c: char| is_quote(c));
                t.subrange(pos, us) + url_open() + (match rewritten_href(url, base_path, m) {
                    Some(x) => x,
                    None => t.subrange(vs, pe),
                }) + seq![')'] + url_rewritten(t, base_path, m, pe + 1)
            }
        }
    }
}

/// Rewrite the values of `attr_name="..."` attributes in markup.
fn rewrite_attr_references(text: &str, attr_name: &str, base_path: &str, path_map: &PathMap) -> (r:
    String)
    ensures
        r@ == attr_rewritten(text@, attr_name@ + seq!['=', '"'], base_path@, path_map@, 0),
{
    let t = chars_of(text);
    let mut pat = chars_of(attr_name);
    pat.push('=');
    pat.push('"');
    assert(pat@ =~= attr_name@ + seq!['=', '"']);
    let quote = vec!['"'];
    let ghost full = attr_rewritten(t@, pat@, base_path@, path_map@, 0);
    let mut out: Vec<char> = Vec::new();
    let mut pos: usize = 0;
    while pos < t.len()
        invariant
            pos <= t@.len(),
            pat@.len() >= 2,
            quote@ == seq!['"'],
            out@ + attr_rewritten(t@, pat@, base_path@, path_map@, pos as int) == full,
        decreases t@.len() - pos,
    {
        let ghost rest = attr_rewritten(t@, pat@, base_path@, path_map@, pos as int);
        match find_first(t.as_slice(), pat.as_slice(), pos) {
            None => {
                push_all(&mut out, sub_chars(t.as_slice(), pos, t.len()).as_slice());
                assert(rest == t@.subrange(pos as int, t@.len() as int));
                pos = t.len();
                assert(out@ + attr_rewritten(t@, pat@, base_path@, path_map@, pos as int) =~= full);
            },
            Some(start) => {
                let vs = start + pat.len();
                match find_first(t.as_slice(), quote.as_slice(), vs) {
                    None => {
                        push_all(&mut out, sub_chars(t.as_slice(), pos, vs).as_slice());
                        assert(out@ + attr_rewritten(t@, pat@, base_path@, path_map@, vs as int)
                            =~= full);
                        pos = vs;
                    },
                    Some(e) => {
                        push_all(&mut out, sub_chars(t.as_slice(), pos, vs).as_slice());
                        let value = sub_chars(t.as_slice(), vs, e);
                        let vstr = string_of(value.as_slice());
                        match try_rewrite_href(vstr.as_str(), base_path, path_map) {
                            Some(n) => push_all(&mut out, chars_of(n.as_str()).as_slice()),
                            None => push_all(&mut out, value.as_slice()),
                        }
                        assert(out@ + attr_rewritten(t@, pat@, base_path@, path_map@, e as int)
                            =~= full);
                        pos = e;
                    },
                }
            },
        }
    }
    assert(attr_rewritten(t@, pat@, base_path@, path_map@, pos as int) == Seq::<char>::empty());
    assert(out@ =~= full);
    string_of(out.as_slice())
}

/// Rewrite `url(...)` references in style sheets and inline styles.
fn rewrite_url_references(text: &str, base_path: &str, path_map: &PathMap) -> (r: String)
    ensures
        r@ == url_rewritten(text@, base_path@, path_map@, 0),
{
    let t = chars_of(text);
    let open = vec!['u', 'r', 'l', '('];
    let close = vec![')'];
    let ghost full = url_rewritten(t@, base_path@, path_map@, 0);
    let mut out: Vec<char> = Vec::new();
    let mut pos: usize = 0;
    while pos < t.len()
        invariant
            pos <= t@.len(),
            open@ == url_open(),
            close@ == seq![')'],
            out@ + url_rewritten(t@, base_path@, path_map@, pos as int) == full,
        decreases t@.len() - pos,
    {
        let ghost rest = url_rewritten(t@, base_path@, path_map@, pos as int);
        match find_first(t.as_slice(), open.as_slice(), pos) {
            None => {
                push_all(&mut out, sub_chars(t.as_slice(), pos, t.len()).as_slice());
                assert(rest == t@.subrange(pos as int, t@.len() as int));
                pos = t.len();
                assert(out@ + url_rewritten(t@, base_path@, path_map@, pos as int) =~= full);
            },
            Some(us) => {
                let vs = us + 4;
                match find_first(t.as_slice(), close.as_slice(), vs) {
                    None => {
                        push_all(&mut out, sub_chars(t.as_slice(), pos, vs).as_slice());
                        assert(out@ + url_rewritten(t@, base_path@, path_map@, vs as int) =~= full);
                        pos = vs;
                    },
                    Some(pe) => {
                        push_all(&mut out, sub_chars(t.as_slice(), pos, us).as_slice());
                        push_all(&mut out, open.as_slice());
                        let arg = sub_chars(t.as_slice(), vs, pe);
                        let raw = trim_chars(arg.as_slice(), false);
                        let url = trim_chars(raw.as_slice(), true);
                        let ustr = string_of(url.as_slice());
                        match try_rewrite_href(ustr.as_str(), base_path, path_map) {
                            Some(n) => push_all(&mut out, chars_of(n.as_str()).as_slice()),
                            None => push_all(&mut out, arg.as_slice()),
                        }
                        out.push(')');
                        assert(out@ + url_rewritten(t@, base_path@, path_map@, pe + 1) =~= full);
                        pos = pe + 1;
                    },
                }
            },
        }
    }
    assert(url_rewritten(t@, base_path@, path_map@, pos as int) == Seq::<char>::empty());
    assert(out@ =~= full);
    string_of(out.as_slice())
}


/// The `attr="` pattern of an attribute name.
pub open spec fn attr_pattern(name: Seq<char>) -> Seq<char> {
    name + seq!['=', '"']
}

/// Markup after rewriting `href`, `src`, `xlink:href` and `poster` values,
/// then `url(...)` references.
pub open spec fn xhtml_rewritten(
    t: Seq<char>,
    base_path: Seq<char>,
    m: Map<Seq<char>, (Seq<char>, FileCategory)>,
) -> Seq<char> {
    let a = attr_rewritten(t, attr_pattern("href"@), base_path, m, 0);
    let b = attr_rewritten(a, attr_pattern("src"@), base_path, m, 0);
    let c = attr_rewritten(b, attr_pattern("xlink:href"@), base_path, m, 0);
    let d = attr_rewritten(c, attr_pattern("poster"@), base_path, m, 0);
    url_rewritten(d, base_path, m, 0)
}

/// Rewrite href/src/xlink:href/poster references and `url(...)` in XHTML.
pub fn rewrite_xhtml(text: &str, xhtml_book_path: &str, path_map: &PathMap) -> (r: String)
    ensures
        r@ == xhtml_rewritten(text@, xhtml_book_path@, path_map@),
{
    let a = rewrite_attr_references(text, "href", xhtml_book_path, path_map);
    let b = rewrite_attr_references(a.as_str(), "src", xhtml_book_path, path_map);
    let c = rewrite_attr_references(b.as_str(), "xlink:href", xhtml_book_path, path_map);
    let d = rewrite_attr_references(c.as_str(), "poster", xhtml_book_path, path_map);
    rewrite_url_references(d.as_str(), xhtml_book_path, path_map)
}

/// Rewrite `url(...)` references in CSS.
pub fn rewrite_css(css: &str, css_book_path: &str, path_map: &PathMap) -> (r: String)
    ensures
        r@ == url_rewritten(css@, css_book_path@, path_map@, 0),
{
    rewrite_url_references(css, css_book_path, path_map)
}

/// A reference stays as it is when, decoded and trimmed, it is empty or an
/// absolute external reference (`http://`, `https://`, `data:`, `mailto:`),
/// or when the path it resolves to is not in the mapping.
pub proof fn lemma_untouched_references(
    href: Seq<char>,
    base_path: Seq<char>,
    m: Map<Seq<char>, (Seq<char>, FileCategory)>,
)
    ensures
        is_external(trimmed(percent_decoded(href))) ==> value_after(href, base_path, m) == href,
        !m.contains_key(resolved_path(reference_target(href), base_path)) ==> value_after(
            href,
            base_path,
            m,
        ) == href,
{
}


/// ASCII characters other than `%`: percent-decoding leaves them as they are.
pub open spec fn is_plain_ascii(c: char) -> bool {
    (c as u32) < 128 && c != '%'
}

proof fn lemma_encode_concat(a: Seq<char>, b: Seq<char>)
    ensures
        encode_utf8(a + b) == encode_utf8(a) + encode_utf8(b),
    decreases a.len(),
{
    if a.len() == 0 {
        assert(a + b =~= b);
        assert(encode_utf8(a) + encode_utf8(b) =~= encode_utf8(b));
    } else {
        assert((a + b).drop_first() =~= a.drop_first() + b);
        assert((a + b)[0] == a[0]);
        lemma_encode_concat(a.drop_first(), b);
        assert(encode_utf8(a + b) =~= encode_utf8(a) + encode_utf8(b));
    }
}

proof fn lemma_plain_step(c: char, r: Seq<char>)
    requires
        is_plain_ascii(c),
    ensures
        percent_decoded_bytes(encode_utf8(seq![c] + r)) == seq![(c as u32) as u8]
            + percent_decoded_bytes(encode_utf8(r)),
        valid_utf8(percent_decoded_bytes(encode_utf8(seq![c] + r))) ==> valid_utf8(
            percent_decoded_bytes(encode_utf8(r)),
        ) && decode_utf8(percent_decoded_bytes(encode_utf8(seq![c] + r))) == seq![c]
            + decode_utf8(percent_decoded_bytes(encode_utf8(r))),
{
    let v = c as u32;
    let b = v as u8;
    assert((v & 0x7F) == v) by (bit_vector)
        requires
            v < 128,
    ;
    assert(b < 128 && b != 37);
    lemma_encode_concat(seq![c], r);
    assert(seq![c].drop_first() =~= Seq::<char>::empty());
    assert(seq![c][0] == c);
    assert(vstd::utf8::has_width_1_encoding(v));
    assert(vstd::utf8::encode_scalar(v) =~= seq![b]);
    assert(encode_utf8(seq![c]) =~= vstd::utf8::encode_scalar(v) + encode_utf8(Seq::<char>::empty()));
    assert(encode_utf8(seq![c]) =~= seq![b]);
    let x = percent_decoded_bytes(encode_utf8(r));
    let e = seq![b] + encode_utf8(r);
    assert(e[0] == b);
    assert(e.subrange(1, e.len() as int) =~= encode_utf8(r));
    let d = seq![b] + x;
    if valid_utf8(d) {
        assert(pop_first_scalar(d) =~= x);
        assert((b & 0x7F) == b) by (bit_vector)
            requires
                b < 128,
        ;
        assert(((b & 0x7F) as u32) == v);
        vstd::utf8::char_u32_cast(c, v);
        assert(decode_utf8(d) =~= seq![c] + decode_utf8(x));
    }
}

proof fn lemma_plain_prefix(p: Seq<char>, r: Seq<char>)
    requires
        forall|i: int| 0 <= i < p.len() ==> is_plain_ascii(#[trigger] p[i]),
    ensures
        valid_utf8(percent_decoded_bytes(encode_utf8(p + r))) ==> decode_utf8(
            percent_decoded_bytes(encode_utf8(p + r)),
        ) == p + decode_utf8(percent_decoded_bytes(encode_utf8(r))),
    decreases p.len(),
{
    if p.len() == 0 {
        assert(p + r =~= r);
    } else {
        let q = p.drop_first();
        assert(p + r =~= seq![p[0]] + (q + r));
        lemma_plain_step(p[0], q + r);
        lemma_plain_prefix(q, r);
        assert(p =~= seq![p[0]] + q);
    }
}

proof fn lemma_prefix_survives_decoding(p: Seq<char>, s: Seq<char>)
    requires
        p.is_prefix_of(s),
        forall|i: int| 0 <= i < p.len() ==> is_plain_ascii(#[trigger] p[i]),
    ensures
        p.is_prefix_of(percent_decoded(s)),
{
    let r = s.subrange(p.len() as int, s.len() as int);
    assert(s =~= p + r);
    lemma_plain_prefix(p, r);
    if valid_utf8(percent_decoded_bytes(encode_utf8(s))) {
        assert(percent_decoded(s) == p + decode_utf8(percent_decoded_bytes(encode_utf8(r))));
        assert((p + decode_utf8(percent_decoded_bytes(encode_utf8(r)))).subrange(0, p.len() as int)
            =~= p);
    }
}

proof fn lemma_skip_end_bound(s: Seq<char>, f: spec_fn(char) -> bool, k: int, j: int)
    requires
        0 < k <= j <= s.len(),
        !f(s[k - 1]),
    ensures
        k <= skip_end(s, f, 0, j) <= j,
    decreases j,
{
    if 0 < j && f(s[j - 1]) {
        lemma_skip_end_bound(s, f, k, j - 1);
    }
}

proof fn lemma_prefix_survives_trimming(p: Seq<char>, s: Seq<char>)
    requires
        p.is_prefix_of(s),
        p.len() > 0,
        !is_ws(p[0]),
        !is_ws(p.last()),
    ensures
        p.is_prefix_of(trimmed(s)),
{
    let f = |c: char| is_ws(c);
    assert(s[0] == p[0]);
    assert(skip_start(s, f, 0) == 0);
    assert(s[p.len() - 1] == p.last());
    lemma_skip_end_bound(s, f, p.len() as int, s.len() as int);
    let e = skip_end(s, f, 0, s.len() as int);
    assert(trimmed(s) == s.subrange(0, e));
    assert(trimmed(s).subrange(0, p.len() as int) =~= p);
}

/// A reference whose raw value starts with `http://`, `https://`, `data:` or
/// `mailto:` stays as it is: decoding and trimming keep that start.
pub proof fn lemma_external_reference_untouched(
    href: Seq<char>,
    base_path: Seq<char>,
    m: Map<Seq<char>, (Seq<char>, FileCategory)>,
)
    requires
        is_external(href),
    ensures
        value_after(href, base_path, m) == href,
{
    reveal_strlit("http://");
    reveal_strlit("https://");
    reveal_strlit("data:");
    reveal_strlit("mailto:");
    let t = trimmed(percent_decoded(href));
    let ps = seq!["http://"@, "https://"@, "data:"@, "mailto:"@];
    assert forall|k: int| 0 <= k < 4 && ps[k].is_prefix_of(href) implies ps[k].is_prefix_of(t) by {
        let p = ps[k];
        assert(forall|i: int| 0 <= i < p.len() ==> is_plain_ascii(#[trigger] p[i]));
        lemma_prefix_survives_decoding(p, href);
        lemma_prefix_survives_trimming(p, percent_decoded(href));
    }
    assert(ps[0] == "http://"@ && ps[1] == "https://"@ && ps[2] == "data:"@ && ps[3] == "mailto:"@);
    assert(is_external(t));
}


proof fn lemma_first_occurrence_props(s: Seq<char>, p: Seq<char>, from: int)
    ensures
        first_occurrence(s, p, from) >= 0 ==> from <= first_occurrence(s, p, from) && occurs_at(
            s,
            p,
            first_occurrence(s, p, from),
        ),
        first_occurrence(s, p, from) >= -1,
    decreases s.len() + 1 - from,
{
    if 0 <= from <= s.len() && !occurs_at(s, p, from) {
        lemma_first_occurrence_props(s, p, from + 1);
    }
}

/// Every `pat` value of `t` from `pos` on is left as it is by rewriting.
pub open spec fn attr_refs_kept(
    t: Seq<char>,
    pat: Seq<char>,
    base_path: Seq<char>,
    m: Map<Seq<char>, (Seq<char>, FileCategory)>,
    pos: int,
) -> bool
    decreases t.len() - pos,
{
    if pos < 0 || pos >= t.len() || pat.len() == 0 {
        true
    } else {
        let st = first_occurrence(t, pat, pos);
        if st < pos || st + pat.len() > t.len() {
            true
        } else {
            let vs = st + pat.len();
            let e = first_occurrence(t, seq!['"'], vs);
            if e < vs || e > t.len() {
                attr_refs_kept(t, pat, base_path, m, vs)
            } else {
                rewritten_href(t.subrange(vs, e), base_path, m) is None && attr_refs_kept(
                    t,
                    pat,
                    base_path,
                    m,
                    e,
                )
            }
        }
    }
}

/// Every `url(...)` argument of `t` from `pos` on is left as it is by
/// rewriting.
pub open spec fn url_refs_kept(
    t: Seq<char>,
    base_path: Seq<char>,
    m: Map<Seq<char>, (Seq<char>, FileCategory)>,
    pos: int,
) -> bool
    decreases t.len() - pos,
{
    if pos < 0 || pos >= t.len() {
        true
    } else {
        let us = first_occurrence(t, url_open(), pos);
        if us < pos || us + 4 > t.len() {
            true
        } else {
            let vs = us + 4;
            let pe = first_occurrence(t, seq![')'], vs);
            if pe < vs || pe >= t.len() {
                url_refs_kept(t, base_path, m, vs)
            } else {
                rewritten_href(
                    trimmed_by(trimmed(t.subrange(vs, pe)), |c: char| is_quote(c)),
                    base_path,
                    m,
                ) is None && url_refs_kept(t, base_path, m, pe + 1)
            }
        }
    }
}

proof fn lemma_attr_untouched(
    t: Seq<char>,
    pat: Seq<char>,
    base_path: Seq<char>,
    m: Map<Seq<char>, (Seq<char>, FileCategory)>,
    pos: int,
)
    requires
        0 <= pos <= t.len(),
        pat.len() > 0,
        attr_refs_kept(t, pat, base_path, m, pos),
    ensures
        attr_rewritten(t, pat, base_path, m, pos) == t.subrange(pos, t.len() as int),
    decreases t.len() - pos,
{
    if pos < t.len() {
        let st = first_occurrence(t, pat, pos);
        lemma_first_occurrence_props(t, pat, pos);
        if st >= pos && st + pat.len() <= t.len() {
            let vs = st + pat.len();
            let e = first_occurrence(t, seq!['"'], vs);
            lemma_first_occurrence_props(t, seq!['"'], vs);
            if e < vs || e > t.len() {
                lemma_attr_untouched(t, pat, base_path, m, vs);
                assert(t.subrange(pos, vs) + t.subrange(vs, t.len() as int) =~= t.subrange(
                    pos,
                    t.len() as int,
                ));
            } else {
                lemma_attr_untouched(t, pat, base_path, m, e);
                assert(value_after(t.subrange(vs, e), base_path, m) == t.subrange(vs, e));
                assert(t.subrange(pos, vs) + t.subrange(vs, e) + t.subrange(e, t.len() as int)
                    =~= t.subrange(pos, t.len() as int));
            }
        }
    } else {
        assert(t.subrange(pos, t.len() as int) =~= Seq::<char>::empty());
    }
}

proof fn lemma_url_untouched(
    t: Seq<char>,
    base_path: Seq<char>,
    m: Map<Seq<char>, (Seq<char>, FileCategory)>,
    pos: int,
)
    requires
        0 <= pos <= t.len(),
        url_refs_kept(t, base_path, m, pos),
    ensures
        url_rewritten(t, base_path, m, pos) == t.subrange(pos, t.len() as int),
    decreases t.len() - pos,
{
    if pos < t.len() {
        let us = first_occurrence(t, url_open(), pos);
        lemma_first_occurrence_props(t, url_open(), pos);
        if us >= pos && us + 4 <= t.len() {
            let vs = us + 4;
            let pe = first_occurrence(t, seq![')'], vs);
            lemma_first_occurrence_props(t, seq![')'], vs);
            if pe < vs || pe >= t.len() {
                lemma_url_untouched(t, base_path, m, vs);
                assert(t.subrange(pos, vs) + t.subrange(vs, t.len() as int) =~= t.subrange(
                    pos,
                    t.len() as int,
                ));
            } else {
                lemma_url_untouched(t, base_path, m, pe + 1);
                assert(t.subrange(us, vs) == url_open());
                assert(t.subrange(pe, pe + 1) =~= seq![')']);
                assert(t.subrange(pos, us) + url_open() + t.subrange(vs, pe) + seq![')']
                    + t.subrange(pe + 1, t.len() as int) =~= t.subrange(pos, t.len() as int));
            }
        }
    } else {
        assert(t.subrange(pos, t.len() as int) =~= Seq::<char>::empty());
    }
}

proof fn lemma_empty_keeps_attrs(t: Seq<char>, pat: Seq<char>, base_path: Seq<char>, pos: int)
    ensures
        attr_refs_kept(t, pat, base_path, Map::empty(), pos),
    decreases t.len() - pos,
{
    if 0 <= pos < t.len() && pat.len() > 0 {
        let st = first_occurrence(t, pat, pos);
        lemma_first_occurrence_props(t, pat, pos);
        if st >= pos && st + pat.len() <= t.len() {
            let vs = st + pat.len();
            let e = first_occurrence(t, seq!['"'], vs);
            lemma_first_occurrence_props(t, seq!['"'], vs);
            if e < vs || e > t.len() {
                lemma_empty_keeps_attrs(t, pat, base_path, vs);
            } else {
                lemma_empty_keeps_attrs(t, pat, base_path, e);
            }
        }
    }
}

proof fn lemma_empty_keeps_urls(t: Seq<char>, base_path: Seq<char>, pos: int)
    ensures
        url_refs_kept(t, base_path, Map::empty(), pos),
    decreases t.len() - pos,
{
    if 0 <= pos < t.len() {
        let us = first_occurrence(t, url_open(), pos);
        lemma_first_occurrence_props(t, url_open(), pos);
        if us >= pos && us + 4 <= t.len() {
            let vs = us + 4;
            let pe = first_occurrence(t, seq![')'], vs);
            lemma_first_occurrence_props(t, seq![')'], vs);
            if pe < vs || pe >= t.len() {
                lemma_empty_keeps_urls(t, base_path, vs);
            } else {
                lemma_empty_keeps_urls(t, base_path, pe + 1);
            }
        }
    }
}

/// Where rewriting leaves every reference as it is (each is empty,
/// external, or resolves to a path the mapping does not hold), the style
/// sheet and the markup come back unchanged.
pub proof fn lemma_kept_references_keep_text(
    t: Seq<char>,
    base_path: Seq<char>,
    m: Map<Seq<char>, (Seq<char>, FileCategory)>,
)
    ensures
        url_refs_kept(t, base_path, m, 0) ==> url_rewritten(t, base_path, m, 0) == t,
        attr_refs_kept(t, attr_pattern("href"@), base_path, m, 0) && attr_refs_kept(
            t,
            attr_pattern("src"@),
            base_path,
            m,
            0,
        ) && attr_refs_kept(t, attr_pattern("xlink:href"@), base_path, m, 0) && attr_refs_kept(
            t,
            attr_pattern("poster"@),
            base_path,
            m,
            0,
        ) && url_refs_kept(t, base_path, m, 0) ==> xhtml_rewritten(t, base_path, m) == t,
{
    assert(t.subrange(0, t.len() as int) =~= t);
    if url_refs_kept(t, base_path, m, 0) {
        lemma_url_untouched(t, base_path, m, 0);
    }
    if attr_refs_kept(t, attr_pattern("href"@), base_path, m, 0) && attr_refs_kept(
        t,
        attr_pattern("src"@),
        base_path,
        m,
        0,
    ) && attr_refs_kept(t, attr_pattern("xlink:href"@), base_path, m, 0) && attr_refs_kept(
        t,
        attr_pattern("poster"@),
        base_path,
        m,
        0,
    ) && url_refs_kept(t, base_path, m, 0) {
        lemma_attr_untouched(t, attr_pattern("href"@), base_path, m, 0);
        lemma_attr_untouched(t, attr_pattern("src"@), base_path, m, 0);
        lemma_attr_untouched(t, attr_pattern("xlink:href"@), base_path, m, 0);
        lemma_attr_untouched(t, attr_pattern("poster"@), base_path, m, 0);
        lemma_url_untouched(t, base_path, m, 0);
    }
}

/// With an empty mapping, rewriting changes nothing: every reference is
/// left exactly as it is, in markup and in style sheets.
pub proof fn lemma_empty_mapping_keeps_text(t: Seq<char>, base_path: Seq<char>)
    ensures
        xhtml_rewritten(t, base_path, Map::empty()) == t,
        url_rewritten(t, base_path, Map::empty(), 0) == t,
{
    lemma_empty_keeps_attrs(t, attr_pattern("href"@), base_path, 0);
    lemma_empty_keeps_attrs(t, attr_pattern("src"@), base_path, 0);
    lemma_empty_keeps_attrs(t, attr_pattern("xlink:href"@), base_path, 0);
    lemma_empty_keeps_attrs(t, attr_pattern("poster"@), base_path, 0);
    lemma_empty_keeps_urls(t, base_path, 0);
    lemma_kept_references_keep_text(t, base_path, Map::empty());
}

} // verus!
