//! A tolerant reader for package documents that are not well-formed XML. It
//! looks for tags textually and does not check nesting.
use vstd::prelude::*;
use crate::error::EpubError;
use crate::parser::{
    manifest_with, spine_models, ItemModel, Manifest, MetaModel, OpfParts,
    SpineItem, EpubMetadata,
};
use crate::rewrite::{find_first, first_occurrence, is_quote, is_ws, skip_start, strip_this, trim_chars, trimmed};
use crate::text::{chars_of, percent_decoded, percent_encoding_decode, push_all, same_chars, string_of, sub_chars};
use crate::text::{ascii_lower, ascii_lowered};
use crate::xml_utils::ci_occurs_at;

verus! {

/// ASCII letters, digits and `_`.
pub open spec fn is_word_char(c: char) -> bool {
    ('a' <= c <= 'z') || ('A' <= c <= 'Z') || ('0' <= c <= '9') || c == '_'
}

/// Characters of an attribute name: word characters, `:`, `.` and `-`.
pub open spec fn is_name_char(c: char) -> bool {
    is_word_char(c) || c == ':' || c == '.' || c == '-'
}

fn word_char(c: char) -> (r: bool)
    ensures
        r == is_word_char(c),
{
    ('a' <= c && c <= 'z') || ('A' <= c && c <= 'Z') || ('0' <= c && c <= '9') || c == '_'
}

fn name_char(c: char) -> (r: bool)
    ensures
        r == is_name_char(c),
{
    word_char(c) || c == ':' || c == '.' || c == '-'
}

/// The first position from `from` on where the lower-case word `w` occurs,
/// ignoring ASCII case, or -1.
pub open spec fn ci_first(t: Seq<char>, w: Seq<char>, from: int) -> int
    decreases t.len() + 1 - from,
{
    if from < 0 || from > t.len() {
        -1
    } else if ci_occurs_at(t, w, from) {
        from
    } else {
        ci_first(t, w, from + 1)
    }
}

fn ci_find(t: &[char], w: &[char], from: usize) -> (r: Option<usize>)
    ensures
        match r {
            Some(i) => i == ci_first(t@, w@, from as int) && ci_occurs_at(t@, w@, i as int) && from
                <= i,
            None => ci_first(t@, w@, from as int) == -1,
        },
{
    if from > t.len() {
        return None;
    }
    let mut i = from;
    while i <= t.len()
        invariant
            from <= i <= t@.len() + 1,
            ci_first(t@, w@, from as int) == ci_first(t@, w@, i as int),
        decreases t@.len() + 1 - i,
    {
        if crate::xml_utils::ci_matches(t, i, w) {
            return Some(i);
        }
        if i == t.len() {
            assert(ci_first(t@, w@, i + 1) == -1);
            return None;
        }
        i += 1;
    }
    None
}

/// Whether `<` + `name` (ASCII case ignored) opens a tag at `i`: it is not
/// followed by a word character.
pub open spec fn opens_at(t: Seq<char>, lt_name: Seq<char>, i: int) -> bool {
    ci_occurs_at(t, lt_name, i) && (i + lt_name.len() == t.len() || !is_word_char(
        t[i + lt_name.len()],
    ))
}

/// The first position from `from` on where `lt_name` opens a tag, or -1.
pub open spec fn next_open(t: Seq<char>, lt_name: Seq<char>, from: int) -> int
    decreases t.len() + 1 - from,
{
    if from < 0 || from > t.len() {
        -1
    } else if opens_at(t, lt_name, from) {
        from
    } else {
        next_open(t, lt_name, from + 1)
    }
}

fn find_open(t: &[char], lt_name: &[char], from: usize) -> (r: Option<usize>)
    ensures
        match r {
            Some(i) => i == next_open(t@, lt_name@, from as int) && opens_at(t@, lt_name@, i as int)
                && from <= i,
            None => next_open(t@, lt_name@, from as int) == -1,
        },
{
    let n = t.len();
    let mut p = from;
    loop
        invariant
            from <= p,
            n == t@.len(),
            next_open(t@, lt_name@, from as int) == next_open(t@, lt_name@, p as int),
        decreases t@.len() + 1 - p,
    {
        match ci_find(t, lt_name, p) {
            None => {
                proof {
                    lemma_no_open(t@, lt_name@, p as int);
                }
                return None;
            },
            Some(i) => {
                proof {
                    lemma_open_skip(t@, lt_name@, p as int, i as int);
                }
                assert(i + lt_name@.len() <= n);
                let end = i + lt_name.len();
                if end == n || !word_char(t[end]) {
                    return Some(i);
                }
                p = i + 1;
            },
        }
    }
}

proof fn lemma_no_open(t: Seq<char>, w: Seq<char>, p: int)
    requires
        ci_first(t, w, p) == -1,
        p >= 0,
    ensures
        next_open(t, w, p) == -1,
    decreases t.len() + 1 - p,
{
    if p <= t.len() {
        lemma_no_open(t, w, p + 1);
    }
}

proof fn lemma_open_skip(t: Seq<char>, w: Seq<char>, p: int, i: int)
    requires
        0 <= p <= i,
        ci_first(t, w, p) == i,
    ensures
        next_open(t, w, p) == next_open(t, w, i),
    decreases i - p,
{
    if p < i {
        lemma_open_skip(t, w, p + 1, i);
    }
}


/// The text between the first `lt_name` tag (up to its `>`) and the next
/// `close` after it, ignoring ASCII case.
pub open spec fn element_body(t: Seq<char>, lt_name: Seq<char>, close: Seq<char>) -> Option<
    Seq<char>,
> {
    let i = next_open(t, lt_name, 0);
    let g = first_occurrence(t, seq!['>'], i + lt_name.len());
    let c = ci_first(t, close, g + 1);
    if i >= 0 && g >= 0 && c >= 0 {
        Some(t.subrange(g + 1, c))
    } else {
        None
    }
}

fn find_element_body(t: &[char], lt_name: &[char], close: &[char]) -> (r: Option<Vec<char>>)
    ensures
        match r {
            Some(b) => element_body(t@, lt_name@, close@) == Some(b@),
            None => element_body(t@, lt_name@, close@) is None,
        },
{
    let n = t.len();
    let gt = vec!['>'];
    assert(gt@ =~= seq!['>']);
    let i = match find_open(t, lt_name, 0) {
        Some(i) => i,
        None => return None,
    };
    assert(i + lt_name@.len() <= n);
    let g = match find_first(t, gt.as_slice(), i + lt_name.len()) {
        Some(g) => g,
        None => return None,
    };
    assert(g < n);
    let c = match ci_find(t, close, g + 1) {
        Some(c) => c,
        None => return None,
    };
    Some(sub_chars(t, g + 1, c))
}

/// What follows `lt_name` up to the `>` (or `/>`) of each tag it opens, from
/// `from` on.
pub open spec fn tag_contents(t: Seq<char>, lt_name: Seq<char>, from: int) -> Seq<Seq<char>>
    decreases t.len() + 1 - from,
{
    let i = next_open(t, lt_name, from);
    let s = i + lt_name.len();
    let g = first_occurrence(t, seq!['>'], s);
    if from < 0 || from > t.len() || i < from || g < s || g >= t.len() {
        Seq::empty()
    } else {
        let cap = if g > s && t[g - 1] == '/' {
            t.subrange(s, g - 1)
        } else {
            t.subrange(s, g)
        };
        seq![cap] + tag_contents(t, lt_name, g + 1)
    }
}

fn collect_tag_contents(t: &[char], lt_name: &[char]) -> (r: Vec<Vec<char>>)
    ensures
        crate::paths::seg_views(r@) == tag_contents(t@, lt_name@, 0),
{
    let n = t.len();
    let gt = vec!['>'];
    assert(gt@ =~= seq!['>']);
    let mut out: Vec<Vec<char>> = Vec::new();
    let mut from: usize = 0;
    loop
        invariant
            from <= n + 1,
            n == t@.len(),
            gt@ == seq!['>'],
            crate::paths::seg_views(out@) + tag_contents(t@, lt_name@, from as int) == tag_contents(
                t@,
                lt_name@,
                0,
            ),
        ensures
            crate::paths::seg_views(out@) == tag_contents(t@, lt_name@, 0),
        decreases n + 1 - from,
    {
        if from > n {
            assert(tag_contents(t@, lt_name@, from as int) =~= Seq::<Seq<char>>::empty());
            assert(crate::paths::seg_views(out@) =~= tag_contents(t@, lt_name@, 0));
            break;
        }
        let i = match find_open(t, lt_name, from) {
            Some(i) => i,
            None => {
                assert(tag_contents(t@, lt_name@, from as int) =~= Seq::<Seq<char>>::empty());
                assert(crate::paths::seg_views(out@) =~= tag_contents(t@, lt_name@, 0));
                break;
            },
        };
        assert(i + lt_name@.len() <= n);
        let st = i + lt_name.len();
        let g = match find_first(t, gt.as_slice(), st) {
            Some(g) => g,
            None => {
                assert(tag_contents(t@, lt_name@, from as int) =~= Seq::<Seq<char>>::empty());
                assert(crate::paths::seg_views(out@) =~= tag_contents(t@, lt_name@, 0));
                break;
            },
        };
        assert(g < n);
        let cap = if g > st && t[g - 1] == '/' {
            sub_chars(t, st, g - 1)
        } else {
            sub_chars(t, st, g)
        };
        let ghost before = out@;
        out.push(cap);
        assert(crate::paths::seg_views(out@) =~= crate::paths::seg_views(before).push(cap@));
        assert(crate::paths::seg_views(out@) + tag_contents(t@, lt_name@, g + 1) =~= crate::paths::seg_views(before) + tag_contents(t@, lt_name@, from as int));
        from = g + 1;
    }
    out
}

/// An attribute `name = "value"` (or single-quoted) starting at `p`: where it
/// ends, its name and its value.
pub open spec fn attr_at(s: Seq<char>, p: int) -> Option<(int, Seq<char>, Seq<char>)> {
    let ne = skip_start(s, |c: char| is_name_char(c), p);
    let a = skip_start(s, |c: char| is_ws(c), ne);
    let b = skip_start(s, |c: char| is_ws(c), a + 1);
    let e = first_occurrence(s, seq![s[b]], b + 1);
    if 0 <= p < s.len() && is_name_char(s[p]) && a < s.len() && s[a] == '=' && b < s.len()
        && is_quote(s[b]) && e > b {
        Some((e + 1, s.subrange(p, ne), s.subrange(b + 1, e)))
    } else {
        None
    }
}

/// The attributes found from `p` on, in order.
pub open spec fn attrs_from(s: Seq<char>, p: int) -> Seq<(Seq<char>, Seq<char>)>
    decreases s.len() - p,
{
    if p < 0 || p >= s.len() {
        Seq::empty()
    } else {
        match attr_at(s, p) {
            Some((end, name, value)) => if p < end <= s.len() {
                seq![(name, value)] + attrs_from(s, end)
            } else {
                Seq::empty()
            },
            None => attrs_from(s, p + 1),
        }
    }
}

fn skip_name(s: &[char], from: usize) -> (r: usize)
    requires
        from <= s@.len(),
    ensures
        r == skip_start(s@, |c: char| is_name_char(c), from as int),
        from <= r <= s@.len(),
{
    let mut i = from;
    while i < s.len() && name_char(s[i])
        invariant
            from <= i <= s@.len(),
            skip_start(s@, |c: char| is_name_char(c), from as int) == skip_start(
                s@,
                |c: char| is_name_char(c),
                i as int,
            ),
        decreases s@.len() - i,
    {
        i += 1;
    }
    i
}

fn skip_space(s: &[char], from: usize) -> (r: usize)
    requires
        from <= s@.len(),
    ensures
        r == skip_start(s@, |c: char| is_ws(c), from as int),
        from <= r <= s@.len(),
{
    let mut i = from;
    while i < s.len() && strip_this(s[i], false)
        invariant
            from <= i <= s@.len(),
            skip_start(s@, |c: char| is_ws(c), from as int) == skip_start(
                s@,
                |c: char| is_ws(c),
                i as int,
            ),
        decreases s@.len() - i,
    {
        i += 1;
    }
    i
}

fn attr_at_exec(s: &[char], p: usize) -> (r: Option<(usize, Vec<char>, Vec<char>)>)
    requires
        p < s@.len(),
    ensures
        match r {
            Some((end, name, value)) => attr_at(s@, p as int) == Some(
                (end as int, name@, value@),
            ),
            None => attr_at(s@, p as int) is None,
        },
{
    let n = s.len();
    if !name_char(s[p]) {
        return None;
    }
    let ne = skip_name(s, p);
    let a = skip_space(s, ne);
    if a >= n || s[a] != '=' {
        return None;
    }
    let b = skip_space(s, a + 1);
    if b >= n || !(s[b] == '"' || s[b] == '\'') {
        return None;
    }
    let q = vec![s[b]];
    assert(q@ =~= seq![s@[b as int]]);
    match find_first(s, q.as_slice(), b + 1) {
        Some(e) => {
            assert(e < n);
            Some((e + 1, sub_chars(s, p, ne), sub_chars(s, b + 1, e)))
        },
        None => None,
    }
}

/// A list of attributes as plain values.
pub open spec fn pair_views(v: Seq<(String, String)>) -> Seq<(Seq<char>, Seq<char>)> {
    v.map_values(|e: (String, String)| (e.0@, e.1@))
}

/// Parse `name="value"` attributes from a tag's text.
fn parse_tag_attrs(text: &[char]) -> (r: Vec<(String, String)>)
    ensures
        pair_views(r@) == attrs_from(text@, 0),
{
    let n = text.len();
    let mut out: Vec<(String, String)> = Vec::new();
    let mut p: usize = 0;
    while p < n
        invariant
            p <= n,
            n == text@.len(),
            pair_views(out@) + attrs_from(text@, p as int) == attrs_from(text@, 0),
        decreases n - p,
    {
        match attr_at_exec(text, p) {
            Some((end, name, value)) => {
                if end <= p || end > n {
                    assert(attrs_from(text@, p as int) =~= Seq::<(Seq<char>, Seq<char>)>::empty());
                    assert(pair_views(out@) + attrs_from(text@, n as int) =~= attrs_from(text@, 0));
                    p = n;
                } else {
                    let ghost before = out@;
                    let pair = (string_of(name.as_slice()), string_of(value.as_slice()));
                    out.push(pair);
                    assert(pair_views(out@) =~= pair_views(before).push((name@, value@)));
                    assert(pair_views(out@) + attrs_from(text@, end as int) =~= pair_views(before)
                        + attrs_from(text@, p as int));
                    p = end;
                }
            },
            None => {
                p += 1;
            },
        }
    }
    assert(pair_views(out@) + attrs_from(text@, p as int) =~= pair_views(out@));
    out
}

/// The value of the last attribute named exactly `key`.
pub open spec fn lookup(attrs: Seq<(Seq<char>, Seq<char>)>, key: Seq<char>) -> Option<Seq<char>>
    decreases attrs.len(),
{
    if attrs.len() == 0 {
        None
    } else if attrs.last().0 == key {
        Some(attrs.last().1)
    } else {
        lookup(attrs.drop_last(), key)
    }
}

fn lookup_exec(attrs: &Vec<(String, String)>, key: &String) -> (r: Option<String>)
    ensures
        crate::parser::opt_view(r) == lookup(pair_views(attrs@), key@),
{
    let ghost s = pair_views(attrs@);
    let mut i = attrs.len();
    assert(s.subrange(0, i as int) =~= s);
    while i > 0
        invariant
            i <= s.len(),
            s == pair_views(attrs@),
            lookup(s, key@) == lookup(s.subrange(0, i as int), key@),
        decreases i,
    {
        assert(s.subrange(0, i as int).drop_last() =~= s.subrange(0, i - 1));
        if attrs[i - 1].0 == *key {
            return Some(attrs[i - 1].1.clone());
        }
        i -= 1;
    }
    None
}


/// The first position from `from` on where `w1` or `w2` occurs, ignoring
/// ASCII case, or -1.
pub open spec fn either_first(t: Seq<char>, w1: Seq<char>, w2: Seq<char>, from: int) -> int
    decreases t.len() + 1 - from,
{
    if from < 0 || from > t.len() {
        -1
    } else if ci_occurs_at(t, w1, from) || ci_occurs_at(t, w2, from) {
        from
    } else {
        either_first(t, w1, w2, from + 1)
    }
}

fn find_either(t: &[char], w1: &[char], w2: &[char], from: usize) -> (r: Option<usize>)
    ensures
        match r {
            Some(i) => i == either_first(t@, w1@, w2@, from as int) && from <= i <= t@.len(),
            None => either_first(t@, w1@, w2@, from as int) == -1,
        },
{
    if from > t.len() {
        return None;
    }
    let mut i = from;
    while i <= t.len()
        invariant
            from <= i <= t@.len() + 1,
            either_first(t@, w1@, w2@, from as int) == either_first(t@, w1@, w2@, i as int),
        decreases t@.len() + 1 - i,
    {
        if crate::xml_utils::ci_matches(t, i, w1) || crate::xml_utils::ci_matches(t, i, w2) {
            return Some(i);
        }
        if i == t.len() {
            assert(either_first(t@, w1@, w2@, i + 1) == -1);
            return None;
        }
        i += 1;
    }
    None
}

/// The trimmed, non-empty text of the first `<name ...>...</name>` element,
/// with or without a `dc:` prefix, ignoring ASCII case (`name` in lower case).
pub open spec fn simple_tag(t: Seq<char>, name: Seq<char>) -> Option<Seq<char>> {
    let i = either_first(t, seq!['<'] + name, seq!['<', 'd', 'c', ':'] + name, 0);
    let g = first_occurrence(t, seq!['>'], i + 1);
    let j = either_first(
        t,
        seq!['<', '/'] + name + seq!['>'],
        seq!['<', '/', 'd', 'c', ':'] + name + seq!['>'],
        g + 1,
    );
    let text = trimmed(t.subrange(g + 1, j));
    if i >= 0 && g >= 0 && j >= 0 && text.len() > 0 {
        Some(text)
    } else {
        None
    }
}

/// Extract the text of a simple metadata element like `<dc:title>...</dc:title>`.
fn extract_simple_tag(t: &[char], local_name: &str) -> (r: Option<String>)
    ensures
        crate::parser::opt_view(r) == simple_tag(t@, local_name@),
{
    let n = t.len();
    let name = chars_of(local_name);
    let mut o1 = vec!['<'];
    push_all(&mut o1, name.as_slice());
    let mut o2 = vec!['<', 'd', 'c', ':'];
    push_all(&mut o2, name.as_slice());
    let mut c1 = vec!['<', '/'];
    push_all(&mut c1, name.as_slice());
    c1.push('>');
    let mut c2 = vec!['<', '/', 'd', 'c', ':'];
    push_all(&mut c2, name.as_slice());
    c2.push('>');
    let gt = vec!['>'];
    assert(gt@ =~= seq!['>']);
    assert(o1@ =~= seq!['<'] + name@);
    assert(o2@ =~= seq!['<', 'd', 'c', ':'] + name@);
    assert(c1@ =~= seq!['<', '/'] + name@ + seq!['>']);
    assert(c2@ =~= seq!['<', '/', 'd', 'c', ':'] + name@ + seq!['>']);
    let i = match find_either(t, o1.as_slice(), o2.as_slice(), 0) {
        Some(i) => i,
        None => return None,
    };
    if i >= n {
        assert(first_occurrence(t@, seq!['>'], i + 1) == -1);
        return None;
    }
    let g = match find_first(t, gt.as_slice(), i + 1) {
        Some(g) => g,
        None => return None,
    };
    assert(g < n);
    let j = match find_either(t, c1.as_slice(), c2.as_slice(), g + 1) {
        Some(j) => j,
        None => return None,
    };
    let text = trim_chars(sub_chars(t, g + 1, j).as_slice(), false);
    if text.len() == 0 {
        return None;
    }
    Some(string_of(text.as_slice()))
}

/// The value of the last attribute whose name is `key` ignoring ASCII case.
pub open spec fn ci_lookup(attrs: Seq<(Seq<char>, Seq<char>)>, key: Seq<char>) -> Option<Seq<char>>
    decreases attrs.len(),
{
    if attrs.len() == 0 {
        None
    } else if ascii_lowered(attrs.last().0) == key {
        Some(attrs.last().1)
    } else {
        ci_lookup(attrs.drop_last(), key)
    }
}

/// The package version: the non-empty `version` attribute of the first
/// `<package` tag, else `2.0`.
pub open spec fn package_version(t: Seq<char>) -> Seq<char> {
    let w = "<package"@;
    let i = ci_first(t, w, 0);
    let g = first_occurrence(t, seq!['>'], i + w.len());
    let end = if g >= 0 {
        g
    } else {
        t.len() as int
    };
    let v = ci_lookup(attrs_from(t.subrange(i + w.len(), end), 0), "version"@);
    if i >= 0 && v is Some && v->0.len() > 0 {
        v->0
    } else {
        "2.0"@
    }
}

fn lower_ascii_chars(s: &String) -> (r: Vec<char>)
    ensures
        r@ == ascii_lowered(s@),
{
    let c = chars_of(s.as_str());
    let mut out: Vec<char> = Vec::new();
    let mut i: usize = 0;
    while i < c.len()
        invariant
            i <= c@.len(),
            c@ == s@,
            out@ == ascii_lowered(c@.subrange(0, i as int)),
        decreases c@.len() - i,
    {
        let ch = c[i];
        let l = if 'A' <= ch && ch <= 'Z' {
            ((ch as u8) + 32) as char
        } else {
            ch
        };
        out.push(l);
        i += 1;
        assert(out@ =~= ascii_lowered(c@.subrange(0, i as int)));
    }
    assert(c@.subrange(0, i as int) =~= c@);
    out
}

fn ci_lookup_exec(attrs: &Vec<(String, String)>, key: &[char]) -> (r: Option<String>)
    ensures
        crate::parser::opt_view(r) == ci_lookup(pair_views(attrs@), key@),
{
    let ghost s = pair_views(attrs@);
    let mut i = attrs.len();
    assert(s.subrange(0, i as int) =~= s);
    while i > 0
        invariant
            i <= s.len(),
            s == pair_views(attrs@),
            ci_lookup(s, key@) == ci_lookup(s.subrange(0, i as int), key@),
        decreases i,
    {
        assert(s.subrange(0, i as int).drop_last() =~= s.subrange(0, i - 1));
        let l = lower_ascii_chars(&attrs[i - 1].0);
        if same_chars(l.as_slice(), key) {
            return Some(attrs[i - 1].1.clone());
        }
        i -= 1;
    }
    None
}

fn find_version(t: &[char]) -> (r: String)
    ensures
        r@ == package_version(t@),
{
    let n = t.len();
    let w = chars_of("<package");
    let gt = vec!['>'];
    assert(gt@ =~= seq!['>']);
    let key = chars_of("version");
    match ci_find(t, w.as_slice(), 0) {
        None => "2.0".to_owned(),
        Some(i) => {
            assert(i + w@.len() <= n);
            let st = i + w.len();
            let end = match find_first(t, gt.as_slice(), st) {
                Some(g) => g,
                None => n,
            };
            let attrs = parse_tag_attrs(sub_chars(t, st, end).as_slice());
            match ci_lookup_exec(&attrs, key.as_slice()) {
                Some(v) => {
                    if v.as_str().is_empty() {
                        "2.0".to_owned()
                    } else {
                        v
                    }
                },
                None => "2.0".to_owned(),
            }
        },
    }
}


/// The manifest item an `<item>` tag's attributes declare: `id` and `href`
/// are required, the href is percent-decoded, a missing media type is empty.
pub open spec fn fallback_item(attrs: Seq<(Seq<char>, Seq<char>)>) -> Option<ItemModel> {
    match (lookup(attrs, "id"@), lookup(attrs, "href"@)) {
        (Some(id), Some(href)) => Some(
            ItemModel {
                id,
                href: percent_decoded(href),
                media_type: match lookup(attrs, "media-type"@) {
                    Some(m) => m,
                    None => Seq::empty(),
                },
                properties: lookup(attrs, "properties"@),
            },
        ),
        _ => None,
    }
}

/// The manifest built from the texts of `<item>` tags, in order.
pub open spec fn fallback_manifest(bodies: Seq<Seq<char>>) -> Seq<ItemModel>
    decreases bodies.len(),
{
    if bodies.len() == 0 {
        Seq::empty()
    } else {
        let prev = fallback_manifest(bodies.drop_last());
        match fallback_item(attrs_from(bodies.last(), 0)) {
            Some(item) => manifest_with(prev, item),
            None => prev,
        }
    }
}

/// The spine built from the texts of `<itemref>` tags, in order: `idref` is
/// required, `linear` optional.
pub open spec fn fallback_spine(bodies: Seq<Seq<char>>) -> Seq<(Seq<char>, Option<Seq<char>>)>
    decreases bodies.len(),
{
    if bodies.len() == 0 {
        Seq::empty()
    } else {
        let prev = fallback_spine(bodies.drop_last());
        let attrs = attrs_from(bodies.last(), 0);
        match lookup(attrs, "idref"@) {
            Some(idref) => prev.push((idref, lookup(attrs, "linear"@))),
            None => prev,
        }
    }
}

/// The tag texts of `tag` inside the first `section` element.
pub open spec fn section_tags(t: Seq<char>, section: Seq<char>, close: Seq<char>, tag: Seq<char>) -> Seq<
    Seq<char>,
> {
    match element_body(t, section, close) {
        Some(b) => tag_contents(b, tag, 0),
        None => Seq::empty(),
    }
}

/// The metadata the tolerant reader finds.
pub open spec fn fallback_meta(t: Seq<char>) -> MetaModel {
    MetaModel {
        fields: seq![
            simple_tag(t, "title"@),
            simple_tag(t, "creator"@),
            simple_tag(t, "language"@),
            simple_tag(t, "identifier"@),
            simple_tag(t, "publisher"@),
            simple_tag(t, "date"@),
        ],
        version: package_version(t),
    }
}

fn section_contents(t: &[char], section: &str, close: &str, tag: &str) -> (r: Vec<Vec<char>>)
    ensures
        crate::paths::seg_views(r@) == section_tags(t@, section@, close@, tag@),
{
    let s = chars_of(section);
    let c = chars_of(close);
    let g = chars_of(tag);
    match find_element_body(t, s.as_slice(), c.as_slice()) {
        Some(b) => collect_tag_contents(b.as_slice(), g.as_slice()),
        None => {
            let r: Vec<Vec<char>> = Vec::new();
            assert(crate::paths::seg_views(r@) =~= Seq::<Seq<char>>::empty());
            r
        },
    }
}

/// Fallback: extract metadata, manifest and spine from package-document text
/// that strict XML parsing refused, by looking for tags textually.
pub fn fallback_parse_opf(opf_text: &str) -> (r: Result<OpfParts, EpubError>)
    ensures
        r is Ok,
        r->Ok_0.0@ == fallback_meta(opf_text@),
        r->Ok_0.1@ == fallback_manifest(
            section_tags(opf_text@, "<manifest"@, "</manifest>"@, "<item"@),
        ),
        r->Ok_0.1.wf(),
        spine_models(r->Ok_0.2@) == fallback_spine(
            section_tags(opf_text@, "<spine"@, "</spine>"@, "<itemref"@),
        ),
{
    let t = chars_of(opf_text);
    let metadata = EpubMetadata {
        title: extract_simple_tag(t.as_slice(), "title"),
        creator: extract_simple_tag(t.as_slice(), "creator"),
        language: extract_simple_tag(t.as_slice(), "language"),
        identifier: extract_simple_tag(t.as_slice(), "identifier"),
        publisher: extract_simple_tag(t.as_slice(), "publisher"),
        date: extract_simple_tag(t.as_slice(), "date"),
        version: find_version(t.as_slice()),
    };
    assert(metadata@.fields =~= fallback_meta(opf_text@).fields);
    let items = section_contents(t.as_slice(), "<manifest", "</manifest>", "<item");
    let ghost ib = crate::paths::seg_views(items@);
    let mut manifest = Manifest::new();
    let k_id = "id".to_owned();
    let k_href = "href".to_owned();
    let k_mt = "media-type".to_owned();
    let k_props = "properties".to_owned();
    let mut i: usize = 0;
    while i < items.len()
        invariant
            i <= items@.len(),
            ib == crate::paths::seg_views(items@),
            manifest.wf(),
            manifest@ == fallback_manifest(ib.subrange(0, i as int)),
            k_id@ == "id"@,
            k_href@ == "href"@,
            k_mt@ == "media-type"@,
            k_props@ == "properties"@,
        decreases items@.len() - i,
    {
        assert(ib.subrange(0, i + 1).drop_last() =~= ib.subrange(0, i as int));
        let attrs = parse_tag_attrs(items[i].as_slice());
        let id = lookup_exec(&attrs, &k_id);
        let href = lookup_exec(&attrs, &k_href);
        if id.is_some() && href.is_some() {
            let mt = match lookup_exec(&attrs, &k_mt) {
                Some(m) => m,
                None => String::new(),
            };
            let item = crate::parser::ManifestItem {
                id: id.unwrap(),
                href: percent_encoding_decode(href.unwrap().as_str()),
                media_type: mt,
                properties: lookup_exec(&attrs, &k_props),
            };
            manifest.insert(item);
        }
        i += 1;
    }
    assert(ib.subrange(0, i as int) =~= ib);
    let refs = section_contents(t.as_slice(), "<spine", "</spine>", "<itemref");
    let ghost rb = crate::paths::seg_views(refs@);
    let mut spine: Vec<SpineItem> = Vec::new();
    let k_idref = "idref".to_owned();
    let k_linear = "linear".to_owned();
    let mut j: usize = 0;
    while j < refs.len()
        invariant
            j <= refs@.len(),
            rb == crate::paths::seg_views(refs@),
            spine_models(spine@) == fallback_spine(rb.subrange(0, j as int)),
            k_idref@ == "idref"@,
            k_linear@ == "linear"@,
        decreases refs@.len() - j,
    {
        assert(rb.subrange(0, j + 1).drop_last() =~= rb.subrange(0, j as int));
        let attrs = parse_tag_attrs(refs[j].as_slice());
        match lookup_exec(&attrs, &k_idref) {
            Some(idref) => {
                let ghost before = spine@;
                let si = SpineItem { idref, linear: lookup_exec(&attrs, &k_linear) };
                spine.push(si);
                assert(spine_models(spine@) =~= spine_models(before).push(
                    crate::parser::spine_model(si),
                ));
            },
            None => {},
        }
        j += 1;
    }
    assert(rb.subrange(0, j as int) =~= rb);
    Ok((metadata, manifest, spine))
}

} // verus!
