//! Recovery of XML text from real-world files: encoding detection, removal of
//! control characters, and repair of bare angle brackets in attribute values.
use vstd::prelude::*;
use vstd::utf8::{decode_utf8, encode_utf8, valid_utf8};
use crate::rewrite::{find_first, first_occurrence, is_quote, is_ws, strip_this};
use crate::archive::{member_of, zip_member};
use crate::error::EpubError;
use crate::xml::{quick_xml_validates, well_formed};
use crate::rewrite::skip_start;
use crate::text::{ascii_lower, chars_of, has_prefix, has_suffix, lower_chars, lowered, push_all, string_of, sub_chars, utf8_string};

verus! {

/// The text encodings tried after UTF-8.
#[derive(Debug, Clone, Copy, PartialEq, Eq)]
pub enum TextEncoding {
    Utf16Le,
    Utf16Be,
    Gb18030,
    Windows1252,
}

/// What `encoding_rs` makes of `data` in encoding `encoding`: the text, and
/// whether malformed sequences were replaced.
pub uninterp spec fn decoded_with(encoding: TextEncoding, data: Seq<u8>) -> (Seq<char>, bool);

/// Relies on `encoding_rs::Encoding::decode`: the decoded text and whether
/// malformed input was met, which depend on the encoding and the bytes alone.
#[verifier::external_body]
fn decode_in(encoding: TextEncoding, data: &[u8]) -> (r: (String, bool))
    ensures
        (r.0@, r.1) == decoded_with(encoding, data@),
{
    let enc = match encoding {
        TextEncoding::Utf16Le => encoding_rs::UTF_16LE,
        TextEncoding::Utf16Be => encoding_rs::UTF_16BE,
        TextEncoding::Gb18030 => encoding_rs::GB18030,
        TextEncoding::Windows1252 => encoding_rs::WINDOWS_1252,
    };
    let (text, _, had_errors) = enc.decode(data);
    (text.into_owned(), had_errors)
}

/// Control characters that XML does not allow: U+0000-U+0008, U+000B, U+000C,
/// U+000E-U+001F.
pub open spec fn is_xml_illegal(c: char) -> bool {
    let u = c as u32;
    u <= 8 || u == 11 || u == 12 || (14 <= u <= 31)
}

/// `s` without the control characters that XML does not allow.
pub open spec fn without_controls(s: Seq<char>) -> Seq<char> {
    s.filter(|c: char| !is_xml_illegal(c))
}

/// Remove XML-illegal control characters.
fn strip_control_chars(s: &str) -> (r: String)
    ensures
        r@ == without_controls(s@),
{
    let c = crate::text::chars_of(s);
    let mut out: Vec<char> = Vec::new();
    let ghost f = |c: char| !is_xml_illegal(c);
    let mut i: usize = 0;
    while i < c.len()
        invariant
            i <= c@.len(),
            c@ == s@,
            f == (|c: char| !is_xml_illegal(c)),
            out@ == c@.subrange(0, i as int).filter(f),
        decreases c@.len() - i,
    {
        let ch = c[i];
        let ghost pre = c@.subrange(0, i as int);
        assert(c@.subrange(0, i + 1) =~= pre.push(ch));
        proof {
            pre.lemma_filter_push(ch, f);
        }
        if !control_char(ch) {
            out.push(ch);
        }
        i += 1;
    }
    assert(c@.subrange(0, i as int) =~= c@);
    string_of(out.as_slice())
}

fn control_char(c: char) -> (r: bool)
    ensures
        r == is_xml_illegal(c),
{
    let u = c as u32;
    u <= 8 || u == 11 || u == 12 || (14 <= u && u <= 31)
}

/// Whether `data` begins with `p`.
pub open spec fn starts_with_bytes(data: Seq<u8>, p: Seq<u8>) -> bool {
    p.is_prefix_of(data)
}

/// The UTF-8 byte-order mark.
pub open spec fn bom_utf8() -> Seq<u8> {
    seq![0xEFu8, 0xBBu8, 0xBFu8]
}

/// The text of `data`, before control characters are removed: after a
/// UTF-8 mark, UTF-8; after a UTF-16 mark, UTF-16 of that order; else
/// UTF-8, then GB18030, then Windows-1252, the first that decodes cleanly.
pub open spec fn decoded_text(data: Seq<u8>) -> Seq<char> {
    let rest = data.subrange(3, data.len() as int);
    let le = decoded_with(TextEncoding::Utf16Le, data);
    let be = decoded_with(TextEncoding::Utf16Be, data);
    let gb = decoded_with(TextEncoding::Gb18030, data);
    if starts_with_bytes(data, bom_utf8()) && valid_utf8(rest) {
        decode_utf8(rest)
    } else if !starts_with_bytes(data, bom_utf8()) && starts_with_bytes(data, seq![0xFFu8, 0xFEu8])
        && !le.1 {
        le.0
    } else if !starts_with_bytes(data, bom_utf8()) && !starts_with_bytes(data, seq![0xFFu8, 0xFEu8])
        && starts_with_bytes(data, seq![0xFEu8, 0xFFu8]) && !be.1 {
        be.0
    } else if valid_utf8(data) {
        decode_utf8(data)
    } else if !gb.1 {
        gb.0
    } else {
        decoded_with(TextEncoding::Windows1252, data).0
    }
}

/// The XML text of a file's bytes.
pub open spec fn xml_text_of(data: Seq<u8>) -> Seq<char> {
    without_controls(decoded_text(data))
}

pub(crate) fn copy_bytes(data: &[u8], from: usize) -> (r: Vec<u8>)
    requires
        from <= data@.len(),
    ensures
        r@ == data@.subrange(from as int, data@.len() as int),
{
    let mut r: Vec<u8> = Vec::new();
    let mut i = from;
    while i < data.len()
        invariant
            from <= i <= data@.len(),
            r@ == data@.subrange(from as int, i as int),
        decreases data@.len() - i,
    {
        r.push(data[i]);
        i += 1;
        assert(r@ =~= data@.subrange(from as int, i as int));
    }
    r
}

/// Decode raw bytes to a string: byte-order mark first, then UTF-8, GB18030
/// and Windows-1252 in turn (the last never fails); XML-illegal control
/// characters are removed.
pub fn decode_xml_bytes(data: &[u8]) -> (r: String)
    ensures
        r@ == xml_text_of(data@),
{
    let n = data.len();
    let bom8 = n >= 3 && data[0] == 0xEF && data[1] == 0xBB && data[2] == 0xBF;
    let le = n >= 2 && data[0] == 0xFF && data[1] == 0xFE;
    let be = n >= 2 && data[0] == 0xFE && data[1] == 0xFF;
    assert(bom8 == starts_with_bytes(data@, bom_utf8()));
    assert(le == starts_with_bytes(data@, seq![0xFFu8, 0xFEu8]));
    assert(be == starts_with_bytes(data@, seq![0xFEu8, 0xFFu8]));
    let first: Option<String> = if bom8 {
        utf8_string(copy_bytes(data, 3))
    } else if le {
        let (t, bad) = decode_in(TextEncoding::Utf16Le, data);
        if bad {
            None
        } else {
            Some(t)
        }
    } else if be {
        let (t, bad) = decode_in(TextEncoding::Utf16Be, data);
        if bad {
            None
        } else {
            Some(t)
        }
    } else {
        None
    };
    if let Some(s) = first {
        return strip_control_chars(s.as_str());
    }
    if let Some(s) = utf8_string(copy_bytes(data, 0)) {
        assert(data@.subrange(0, n as int) =~= data@);
        return strip_control_chars(s.as_str());
    }
    assert(data@.subrange(0, n as int) =~= data@);
    let (gb, bad) = decode_in(TextEncoding::Gb18030, data);
    if !bad {
        return strip_control_chars(gb.as_str());
    }
    let (latin, _) = decode_in(TextEncoding::Windows1252, data);
    strip_control_chars(latin.as_str())
}


/// Whether `s` holds no control character that XML does not allow.
pub open spec fn free_of_controls(s: Seq<char>) -> bool {
    forall|i: int| 0 <= i < s.len() ==> !is_xml_illegal(#[trigger] s[i])
}

proof fn lemma_without_controls_keeps(s: Seq<char>)
    requires
        free_of_controls(s),
    ensures
        without_controls(s) == s,
    decreases s.len(),
{
    let f = |c: char| !is_xml_illegal(c);
    if s.len() == 0 {
        assert(s.filter(f) =~= s);
    } else {
        let p = s.drop_last();
        assert(free_of_controls(p)) by {
            assert forall|i: int| 0 <= i < p.len() implies !is_xml_illegal(#[trigger] p[i]) by {
                assert(p[i] == s[i]);
            }
        }
        lemma_without_controls_keeps(p);
        p.lemma_filter_push(s.last(), f);
        assert(p.push(s.last()) =~= s);
    }
}

/// Decoding laws: after a UTF-8 byte-order mark the text is read as UTF-8
/// without the mark; no XML-illegal control character (such as U+0001) is
/// ever left; bytes without a byte-order mark that are not UTF-8 but decode
/// cleanly as GB18030 are read as GB18030, without loss; text free of those
/// control characters comes back exactly.
pub proof fn lemma_decoding(s: Seq<char>, data: Seq<u8>)
    ensures
        xml_text_of(bom_utf8() + encode_utf8(s)) == without_controls(s),
        forall|i: int|
            0 <= i < xml_text_of(data).len() ==> !is_xml_illegal(#[trigger] xml_text_of(data)[i]),
        !valid_utf8(data) && !starts_with_bytes(data, bom_utf8()) && !starts_with_bytes(
            data,
            seq![0xFFu8, 0xFEu8],
        ) && !starts_with_bytes(data, seq![0xFEu8, 0xFFu8]) && !decoded_with(
            TextEncoding::Gb18030,
            data,
        ).1 ==> xml_text_of(data) == without_controls(decoded_with(TextEncoding::Gb18030, data).0),
        free_of_controls(s) ==> xml_text_of(bom_utf8() + encode_utf8(s)) == s,
        !valid_utf8(data) && !starts_with_bytes(data, bom_utf8()) && !starts_with_bytes(
            data,
            seq![0xFFu8, 0xFEu8],
        ) && !starts_with_bytes(data, seq![0xFEu8, 0xFFu8]) && !decoded_with(
            TextEncoding::Gb18030,
            data,
        ).1 && free_of_controls(decoded_with(TextEncoding::Gb18030, data).0) ==> xml_text_of(data)
            == decoded_with(TextEncoding::Gb18030, data).0,
{
    if free_of_controls(s) {
        lemma_without_controls_keeps(s);
    }
    if free_of_controls(decoded_with(TextEncoding::Gb18030, data).0) {
        lemma_without_controls_keeps(decoded_with(TextEncoding::Gb18030, data).0);
    }
    let b = bom_utf8() + encode_utf8(s);
    assert(b.subrange(3, b.len() as int) =~= encode_utf8(s));
    assert(bom_utf8().is_prefix_of(b)) by {
        assert(b.subrange(0, 3) =~= bom_utf8());
    }
    vstd::utf8::encode_utf8_valid_utf8(s);
    vstd::utf8::encode_utf8_decode_utf8(s);
    let f = |c: char| !is_xml_illegal(c);
    assert forall|i: int| 0 <= i < xml_text_of(data).len() implies !is_xml_illegal(
        #[trigger] xml_text_of(data)[i],
    ) by {
        decoded_text(data).lemma_filter_pred(f, i);
    }
}


/// The escaped form of one character of an attribute value.
pub open spec fn escape_char(c: char) -> Seq<char> {
    if c == '<' {
        seq!['&', 'l', 't', ';']
    } else if c == '>' {
        seq!['&', 'g', 't', ';']
    } else {
        seq![c]
    }
}

/// An attribute value with `<` written `&lt;` and `>` written `&gt;`.
pub open spec fn escaped_value(v: Seq<char>) -> Seq<char>
    decreases v.len(),
{
    if v.len() == 0 {
        v
    } else {
        escaped_value(v.drop_last()) + escape_char(v.last())
    }
}

/// Escape bare `<` and `>` inside an attribute value.
fn sanitize_attr_value(value: &[char]) -> (r: Vec<char>)
    ensures
        r@ == escaped_value(value@),
{
    let mut out: Vec<char> = Vec::new();
    let mut i: usize = 0;
    while i < value.len()
        invariant
            i <= value@.len(),
            out@ == escaped_value(value@.subrange(0, i as int)),
        decreases value@.len() - i,
    {
        let c = value[i];
        assert(value@.subrange(0, i + 1).drop_last() =~= value@.subrange(0, i as int));
        if c == '<' {
            push_all(&mut out, vec!['&', 'l', 't', ';'].as_slice());
        } else if c == '>' {
            push_all(&mut out, vec!['&', 'g', 't', ';'].as_slice());
        } else {
            out.push(c);
        }
        i += 1;
        assert(out@ =~= escaped_value(value@.subrange(0, i as int)));
    }
    assert(value@.subrange(0, i as int) =~= value@);
    out
}

/// The scanner state after character `c` in state `st` (outside any tag: 0;
/// inside a tag: 1; after an `=` inside a tag: 2), when `c` opens no quoted
/// value.
pub open spec fn next_state(st: int, c: char) -> int {
    if st == 0 {
        if c == '<' {
            1
        } else {
            0
        }
    } else if c == '>' {
        0
    } else if c == '=' {
        2
    } else if st == 2 && is_ws(c) {
        2
    } else {
        1
    }
}

/// `s` from `i` on, read in state `st`, with `<` and `>` escaped inside
/// every quoted attribute value of a tag.
pub open spec fn sanitized_from(s: Seq<char>, st: int, i: int) -> Seq<char>
    decreases s.len() - i,
{
    if i < 0 || i >= s.len() {
        Seq::empty()
    } else {
        let c = s[i];
        let e = first_occurrence(s, seq![c], i + 1);
        if st == 2 && is_quote(c) && i < e < s.len() {
            seq![c] + escaped_value(s.subrange(i + 1, e)) + seq![c] + sanitized_from(s, 1, e + 1)
        } else {
            seq![c] + sanitized_from(s, next_state(st, c), i + 1)
        }
    }
}

/// Escape bare `<` and `>` inside the attribute values of every tag, leaving
/// the element structure as it is.
pub fn sanitize_xml_attr_text(xml_text: &str) -> (r: String)
    ensures
        r@ == sanitized_from(xml_text@, 0, 0),
{
    let s = chars_of(xml_text);
    let ghost full = sanitized_from(s@, 0, 0);
    let mut out: Vec<char> = Vec::new();
    let mut st: u8 = 0;
    let mut i: usize = 0;
    while i < s.len()
        invariant
            i <= s@.len(),
            st <= 2,
            out@ + sanitized_from(s@, st as int, i as int) == full,
        decreases s@.len() - i,
    {
        let c = s[i];
        let ghost rest = sanitized_from(s@, st as int, i as int);
        let ghost e_spec = first_occurrence(s@, seq![c], i + 1);
        let ghost quoted = st == 2 && is_quote(c) && i < e_spec < s@.len();
        assert(quoted ==> rest == seq![c] + escaped_value(s@.subrange(i + 1, e_spec)) + seq![c]
            + sanitized_from(s@, 1, e_spec + 1));
        assert(!quoted ==> rest == seq![c] + sanitized_from(s@, next_state(st as int, c), i + 1));
        let mut handled = false;
        if st == 2 && (c == '"' || c == '\'') {
            let q = vec![c];
            assert(q@ =~= seq![c]);
            match find_first(s.as_slice(), q.as_slice(), i + 1) {
                Some(e) => {
                    if e < s.len() {
                        out.push(c);
                        push_all(&mut out, sanitize_attr_value(sub_chars(s.as_slice(), i + 1, e).as_slice()).as_slice());
                        out.push(c);
                        assert(out@ + sanitized_from(s@, 1, e + 1) =~= full);
                        st = 1;
                        i = e + 1;
                        handled = true;
                    }
                },
                None => {},
            }
        }
        assert(!handled ==> !quoted);
        if !handled {
            let next: u8 = if st == 0 {
                if c == '<' {
                    1
                } else {
                    0
                }
            } else if c == '>' {
                0
            } else if c == '=' {
                2
            } else if st == 2 && strip_this(c, false) {
                2
            } else {
                1
            };
            assert(next as int == next_state(st as int, c));
            out.push(c);
            assert(out@ + sanitized_from(s@, next as int, i + 1) =~= full);
            st = next;
            i += 1;
        }
    }
    assert(out@ =~= full);
    string_of(out.as_slice())
}


fn ascii_lower_char(c: char) -> (r: char)
    ensures
        r == ascii_lower(c),
{
    if 'A' <= c && c <= 'Z' {
        ((c as u8) + 32) as char
    } else {
        c
    }
}

/// Whether the lower-case word `w` occurs at `i` in `t`, ignoring ASCII case.
pub open spec fn ci_occurs_at(t: Seq<char>, w: Seq<char>, i: int) -> bool {
    0 <= i && i + w.len() <= t.len() && forall|k: int| 0 <= k < w.len() ==> ascii_lower(t[i + k]) == w[k]
}

pub(crate) fn ci_matches(t: &[char], i: usize, w: &[char]) -> (r: bool)
    ensures
        r == ci_occurs_at(t@, w@, i as int),
{
    if i > t.len() || w.len() > t.len() - i {
        return false;
    }
    let mut k: usize = 0;
    while k < w.len()
        invariant
            i + w@.len() <= t@.len(),
            t@.len() <= usize::MAX,
            k <= w@.len(),
            forall|j: int| 0 <= j < k ==> ascii_lower(t@[i + j]) == w@[j],
        decreases w@.len() - k,
    {
        if ascii_lower_char(t[i + k]) != w[k] {
            return false;
        }
        k += 1;
    }
    true
}

/// The first position from `from` on that holds a quote, or -1.
pub open spec fn first_quote(t: Seq<char>, from: int) -> int
    decreases t.len() - from,
{
    if from < 0 || from >= t.len() {
        -1
    } else if is_quote(t[from]) {
        from
    } else {
        first_quote(t, from + 1)
    }
}

fn find_quote(t: &[char], from: usize) -> (r: Option<usize>)
    ensures
        match r {
            Some(e) => e == first_quote(t@, from as int) && from <= e < t@.len(),
            None => first_quote(t@, from as int) == -1,
        },
{
    let mut i = from;
    while i < t.len()
        invariant
            from <= i,
            first_quote(t@, from as int) == first_quote(t@, i as int),
        decreases t@.len() - i,
    {
        if t[i] == '"' || t[i] == '\'' {
            return Some(i);
        }
        i += 1;
    }
    None
}

/// A `<CipherReference URI="...">` reference at `i` (ASCII case ignored):
/// where it ends, and its non-empty URI.
pub open spec fn cipher_match(t: Seq<char>, i: int) -> Option<(int, Seq<char>)> {
    let a = i + "<cipherreference"@.len();
    let b = skip_start(t, |c: char| is_ws(c), a);
    let c = skip_start(t, |c: char| is_ws(c), b + "uri"@.len());
    let d = skip_start(t, |c: char| is_ws(c), c + 1);
    let e = first_quote(t, d + 1);
    if ci_occurs_at(t, "<cipherreference"@, i) && b > a && ci_occurs_at(t, "uri"@, b) && c
        < t.len() && t[c] == '=' && d < t.len() && is_quote(t[d]) && e > d + 1 {
        Some((e + 1, t.subrange(d + 1, e)))
    } else {
        None
    }
}

fn skip_ws(t: &[char], from: usize) -> (r: usize)
    requires
        from <= t@.len(),
    ensures
        r == skip_start(t@, |c: char| is_ws(c), from as int),
        from <= r <= t@.len(),
{
    let mut i = from;
    while i < t.len() && strip_this(t[i], false)
        invariant
            from <= i <= t@.len(),
            skip_start(t@, |c: char| is_ws(c), from as int) == skip_start(
                t@,
                |c: char| is_ws(c),
                i as int,
            ),
        decreases t@.len() - i,
    {
        i += 1;
    }
    i
}

fn cipher_match_at(t: &[char], i: usize, w1: &Vec<char>, w2: &Vec<char>) -> (r: Option<(usize, Vec<char>)>)
    requires
        w1@ == "<cipherreference"@,
        w2@ == "uri"@,
    ensures
        match r {
            Some((end, u)) => cipher_match(t@, i as int) == Some((end as int, u@)),
            None => cipher_match(t@, i as int) is None,
        },
{
    let n = t.len();
    if !ci_matches(t, i, w1.as_slice()) {
        return None;
    }
    let a = i + w1.len();
    let b = skip_ws(t, a);
    if b == a || !ci_matches(t, b, w2.as_slice()) {
        return None;
    }
    assert(b + w2@.len() <= n);
    let c = skip_ws(t, b + w2.len());
    if c >= t.len() || t[c] != '=' {
        return None;
    }
    let d = skip_ws(t, c + 1);
    if d >= t.len() || !(t[d] == '"' || t[d] == '\'') {
        return None;
    }
    match find_quote(t, d + 1) {
        Some(e) => {
            if e > d + 1 {
                Some((e + 1, sub_chars(t, d + 1, e)))
            } else {
                None
            }
        },
        None => None,
    }
}

/// The URIs of every cipher reference from `pos` on, in order.
pub open spec fn uris_from(t: Seq<char>, pos: int) -> Seq<Seq<char>>
    decreases t.len() - pos,
{
    if pos < 0 || pos >= t.len() {
        Seq::empty()
    } else {
        match cipher_match(t, pos) {
            Some((end, u)) => if pos < end <= t.len() {
                seq![u] + uris_from(t, end)
            } else {
                Seq::empty()
            },
            None => uris_from(t, pos + 1),
        }
    }
}

/// The views of a list of strings.
pub open spec fn string_views(v: Seq<String>) -> Seq<Seq<char>> {
    v.map_values(|s: String| s@)
}

/// Extract every `CipherReference` URI of an encryption descriptor.
pub fn cipher_uris(xml: &str) -> (r: Vec<String>)
    ensures
        string_views(r@) == uris_from(xml@, 0),
{
    let t = chars_of(xml);
    let w1 = chars_of("<cipherreference");
    let w2 = chars_of("uri");
    let mut out: Vec<String> = Vec::new();
    let mut pos: usize = 0;
    while pos < t.len()
        invariant
            pos <= t@.len(),
            w1@ == "<cipherreference"@,
            w2@ == "uri"@,
            string_views(out@) + uris_from(t@, pos as int) == uris_from(t@, 0),
        decreases t@.len() - pos,
    {
        match cipher_match_at(t.as_slice(), pos, &w1, &w2) {
            Some((end, u)) => {
                if end <= pos || end > t.len() {
                    assert(uris_from(t@, pos as int) =~= Seq::<Seq<char>>::empty());
                    assert(string_views(out@) + uris_from(t@, t@.len() as int) =~= uris_from(t@, 0));
                    pos = t.len();
                    continue;
                }
                let ghost before = out@;
                out.push(string_of(u.as_slice()));
                assert(string_views(out@) =~= string_views(before).push(u@));
                assert(string_views(out@) + uris_from(t@, end as int) =~= string_views(before)
                    + uris_from(t@, pos as int));
                pos = end;
            },
            None => {
                pos += 1;
            },
        }
    }
    assert(string_views(out@) + uris_from(t@, pos as int) =~= string_views(out@));
    out
}

/// What the protection descriptor says.
#[derive(Debug, Clone)]
pub struct EncryptionInfo {
    /// Whether the descriptor lists protected resources.
    pub has_encryption: bool,
    /// Whether markup or style resources are protected, which blocks processing.
    pub encrypted_text_or_css: bool,
    /// The number of protected resource URIs.
    pub encrypted_count: usize,
    /// The first ten protected URIs.
    pub sample_uris: Vec<String>,
}

impl Default for EncryptionInfo {
    fn default() -> (r: Self)
        ensures
            !r.has_encryption && !r.encrypted_text_or_css && r.encrypted_count == 0
                && r.sample_uris@.len() == 0,
    {
        EncryptionInfo {
            has_encryption: false,
            encrypted_text_or_css: false,
            encrypted_count: 0,
            sample_uris: Vec::new(),
        }
    }
}

/// Whether a protected URI names markup or style content: under `Text/` or
/// `Styles/`, or ending in `.xhtml`, `.html` or `.css` (any case).
pub open spec fn blocks_processing(u: Seq<char>) -> bool {
    let l = lowered(u);
    "text/"@.is_prefix_of(l) || "styles/"@.is_prefix_of(l) || ".xhtml"@.is_suffix_of(l)
        || ".html"@.is_suffix_of(l) || ".css"@.is_suffix_of(l)
}

fn blocks(u: &String) -> (r: bool)
    ensures
        r == blocks_processing(u@),
{
    let l = lower_chars(chars_of(u.as_str()).as_slice());
    has_prefix(l.as_slice(), chars_of("text/").as_slice()) || has_prefix(
        l.as_slice(),
        chars_of("styles/").as_slice(),
    ) || has_suffix(l.as_slice(), chars_of(".xhtml").as_slice()) || has_suffix(
        l.as_slice(),
        chars_of(".html").as_slice(),
    ) || has_suffix(l.as_slice(), chars_of(".css").as_slice())
}

/// `r` reports the descriptor text `text`: whether it lists protected URIs,
/// how many, the first ten, and whether any is markup or style content.
pub open spec fn describes(r: EncryptionInfo, text: Seq<char>) -> bool {
    let u = uris_from(text, 0);
    &&& r.has_encryption == (u.len() > 0)
    &&& r.encrypted_count == u.len()
    &&& string_views(r.sample_uris@) == u.take(
        if u.len() < 10 {
            u.len() as int
        } else {
            10
        },
    )
    &&& r.encrypted_text_or_css == exists|i: int| 0 <= i < u.len() && blocks_processing(#[trigger] u[i])
}

/// `r` reports no protection at all.
pub open spec fn unprotected(r: EncryptionInfo) -> bool {
    !r.has_encryption && !r.encrypted_text_or_css && r.encrypted_count == 0 && r.sample_uris@.len()
        == 0
}

/// What the protection descriptor of the archive `data` says; no descriptor
/// means no protection.
pub open spec fn encryption_of(r: EncryptionInfo, data: Seq<u8>) -> bool {
    match member_of(data, "META-INF/encryption.xml"@) {
        Some(b) => describes(r, xml_text_of(b)),
        None => unprotected(r),
    }
}

/// What an encryption descriptor says: whether it lists protected URIs, how
/// many, the first ten, and whether any of them is markup or style content.
pub fn encryption_info_from_xml(xml: &str) -> (r: EncryptionInfo)
    ensures
        describes(r, xml@),
{
    let uris = cipher_uris(xml);
    let ghost u = uris_from(xml@, 0);
    let mut any = false;
    let mut sample: Vec<String> = Vec::new();
    let mut i: usize = 0;
    while i < uris.len()
        invariant
            i <= uris@.len(),
            string_views(uris@) == u,
            any == exists|j: int| 0 <= j < i && blocks_processing(#[trigger] u[j]),
            string_views(sample@) == u.take(if i < 10 { i as int } else { 10 }),
        decreases uris@.len() - i,
    {
        assert(u[i as int] == uris@[i as int]@);
        let b = blocks(&uris[i]);
        if b {
            any = true;
        }
        assert(any == exists|j: int| 0 <= j < i + 1 && blocks_processing(#[trigger] u[j])) by {
            if b {
                assert(blocks_processing(u[i as int]));
            }
        }
        if i < 10 {
            let ghost before = sample@;
            let copy = uris[i].clone();
            sample.push(copy);
            assert(string_views(sample@) =~= string_views(before).push(u[i as int]));
            assert(u.take(i + 1) =~= u.take(i as int).push(u[i as int]));
        }
        i += 1;
    }
    EncryptionInfo {
        has_encryption: uris.len() > 0,
        encrypted_text_or_css: any,
        encrypted_count: uris.len(),
        sample_uris: sample,
    }
}

/// Check `META-INF/encryption.xml` in the archive for protected resources;
/// an archive without it is not protected.
pub fn detect_encryption(zip_data: &[u8]) -> (r: EncryptionInfo)
    ensures
        encryption_of(r, zip_data@),
{
    match zip_member(zip_data, "META-INF/encryption.xml") {
        Ok(bytes) => {
            let text = decode_xml_bytes(bytes.as_slice());
            encryption_info_from_xml(text.as_str())
        },
        Err(_) => EncryptionInfo::default(),
    }
}


/// Check the document with the strict reader; where it is refused, escape
/// bare `<` and `>` in attribute values and check once more. Gives the text
/// that passed, or an XML error when both checks fail.
pub fn parse_xml_safe(xml_text: &str) -> (r: Result<String, EpubError>)
    ensures
        well_formed(xml_text@) ==> r is Ok && r->Ok_0@ == xml_text@,
        !well_formed(xml_text@) && well_formed(sanitized_from(xml_text@, 0, 0)) ==> r is Ok
            && r->Ok_0@ == sanitized_from(xml_text@, 0, 0),
        r is Err <==> !well_formed(xml_text@) && !well_formed(sanitized_from(xml_text@, 0, 0)),
        r is Err ==> r->Err_0 is Xml,
{
    if quick_xml_validates(xml_text) {
        return Ok(xml_text.to_owned());
    }
    let sanitized = sanitize_xml_attr_text(xml_text);
    if quick_xml_validates(sanitized.as_str()) {
        return Ok(sanitized);
    }
    Err(EpubError::Xml("XML still malformed after attribute sanitisation".to_owned()))
}

} // verus!
