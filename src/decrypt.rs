//! Readable file names reconstructed from manifest ids.
use vstd::prelude::*;
use vstd::utf8::encode_utf8;
use crate::encrypt::{
    basename, chars_after_last, chars_before_last, md5_digest, md5_of, slim_applies,
    slim_marker_applies, stem_of,
};
use crate::text::{
    all_ascii, ascii_lowered, chars_of, has_suffix, hex_chars, hex_of, last_index_of, lemma_last_index_of, lower_chars,
    lowered, push_all, rfind_char, string_of, sub_chars,
};

verus! {

/// `~slim`, when `slim` holds; else nothing.
pub open spec fn slim_tag(slim: bool) -> Seq<char> {
    if slim {
        seq!['~', 's', 'l', 'i', 'm']
    } else {
        Seq::empty()
    }
}

/// Whether `s` ends in `slim`, of any case.
pub open spec fn has_slim_marker(s: Seq<char>) -> bool {
    seq!['s', 'l', 'i', 'm'].is_suffix_of(lowered(s))
}

/// `s` without its slim marker: `~slim`, `-slim`, `_slim` or `slim`, of any
/// case, tried in that order.
pub open spec fn slim_stripped(s: Seq<char>) -> Seq<char> {
    let l = lowered(s);
    if seq!['~', 's', 'l', 'i', 'm'].is_suffix_of(l) && s.len() >= 5 {
        s.subrange(0, s.len() - 5)
    } else if seq!['-', 's', 'l', 'i', 'm'].is_suffix_of(l) && s.len() >= 5 {
        s.subrange(0, s.len() - 5)
    } else if seq!['_', 's', 'l', 'i', 'm'].is_suffix_of(l) && s.len() >= 5 {
        s.subrange(0, s.len() - 5)
    } else if seq!['s', 'l', 'i', 'm'].is_suffix_of(l) && s.len() >= 4 {
        s.subrange(0, s.len() - 4)
    } else {
        s
    }
}

/// Whether `s` ends in `slim`, of any case.
pub(crate) fn ends_in_slim(s: &[char]) -> (r: bool)
    ensures
        r == has_slim_marker(s@),
{
    let l = lower_chars(s);
    has_suffix(l.as_slice(), vec!['s', 'l', 'i', 'm'].as_slice())
}

/// Strips one slim marker (`~slim`, `-slim`, `_slim` or `slim`, any case).
pub fn strip_slim_suffix(s: &str) -> (r: String)
    ensures
        r@ == slim_stripped(s@),
{
    let c = chars_of(s);
    let l = lower_chars(c.as_slice());
    let n = c.len();
    let keep = if n >= 5 && has_suffix(l.as_slice(), vec!['~', 's', 'l', 'i', 'm'].as_slice()) {
        n - 5
    } else if n >= 5 && has_suffix(l.as_slice(), vec!['-', 's', 'l', 'i', 'm'].as_slice()) {
        n - 5
    } else if n >= 5 && has_suffix(l.as_slice(), vec!['_', 's', 'l', 'i', 'm'].as_slice()) {
        n - 5
    } else if n >= 4 && has_suffix(l.as_slice(), vec!['s', 'l', 'i', 'm'].as_slice()) {
        n - 4
    } else {
        n
    };
    let r = sub_chars(c.as_slice(), 0, keep);
    assert(keep == n ==> r@ =~= s@);
    string_of(r.as_slice())
}


/// Characters that may not stand in a file name.
pub open spec fn is_invalid_filename_char(c: char) -> bool {
    c == '\\' || c == '/' || c == ':' || c == '*' || c == '?' || c == '"' || c == '<' || c == '>'
        || c == '|'
}

/// Whether `s` holds a character that may not stand in a file name.
pub open spec fn has_invalid_char(s: Seq<char>) -> bool {
    exists|i: int| 0 <= i < s.len() && is_invalid_filename_char(#[trigger] s[i])
}

/// Whether `s` holds a character that may not stand in a file name.
pub fn has_invalid_chars(s: &str) -> (r: bool)
    ensures
        r == has_invalid_char(s@),
{
    let c = chars_of(s);
    invalid_in(c.as_slice())
}

fn invalid_in(c: &[char]) -> (r: bool)
    ensures
        r == has_invalid_char(c@),
{
    let mut i: usize = 0;
    while i < c.len()
        invariant
            i <= c@.len(),
            forall|j: int| 0 <= j < i ==> !is_invalid_filename_char(c@[j]),
        decreases c@.len() - i,
    {
        let ch = c[i];
        if ch == '\\' || ch == '/' || ch == ':' || ch == '*' || ch == '?' || ch == '"' || ch == '<'
            || ch == '>' || ch == '|' {
            assert(is_invalid_filename_char(c@[i as int]));
            return true;
        }
        i += 1;
    }
    false
}

/// The extension of a path, with its dot; empty without a dot.
pub open spec fn dot_extension(path: Seq<char>) -> Seq<char> {
    if last_index_of(path, '.') < 0 {
        Seq::empty()
    } else {
        path.subrange(last_index_of(path, '.'), path.len() as int)
    }
}

/// The extension of a path, with its dot.
pub(crate) fn get_ext(path: &[char]) -> (r: Vec<char>)
    ensures
        r@ == dot_extension(path@),
{
    proof {
        lemma_last_index_of(path@, '.');
    }
    match rfind_char(path, '.') {
        Some(i) => sub_chars(path, i, path.len()),
        None => Vec::new(),
    }
}

/// The file name of a path, without its extension.
fn basename_without_ext(path: &[char]) -> (r: Vec<char>)
    ensures
        r@ == stem_of(basename(path@)),
{
    let base = chars_after_last(path, '/');
    chars_before_last(base.as_slice(), '.')
}

/// The lower-case hexadecimal MD5 digest of a name.
pub open spec fn hashed_name(base: Seq<char>) -> Seq<char> {
    hex_of(md5_of(encode_utf8(base)))
}

/// The readable file name reconstructed from a manifest id and its href.
pub open spec fn decrypted_filename(id: Seq<char>, href: Seq<char>) -> Seq<char> {
    let ext = lowered(dot_extension(href));
    let slim = if last_index_of(id, '.') >= 0 {
        slim_applies(id, href)
    } else {
        has_slim_marker(id)
    };
    let stripped = if slim {
        slim_stripped(stem_of(id))
    } else {
        stem_of(id)
    };
    let base = if has_invalid_char(stripped) {
        hashed_name(stripped)
    } else {
        stripped
    };
    base + slim_tag(slim) + ext
}

/// Rebuilds a readable file name from the manifest id: the id without its
/// extension (slim marker normalised to `~slim`, hashed where it holds
/// characters a file name cannot) and the href's lower-cased extension.
pub fn build_decrypted_filename(id: &str, href: &str) -> (r: String)
    ensures
        r@ == decrypted_filename(id@, href@),
        !has_slim_marker(stem_of(id@)) && !has_slim_marker(stem_of(basename(href@)))
            && !has_invalid_char(stem_of(id@)) && all_ascii(dot_extension(href@)) ==> r@ == stem_of(
            id@,
        ) + ascii_lowered(dot_extension(href@)),
{
    let idc = chars_of(id);
    let hc = chars_of(href);
    let ext = lower_chars(get_ext(hc.as_slice()).as_slice());
    proof {
        if !has_slim_marker(stem_of(id@)) && !has_slim_marker(stem_of(basename(href@)))
            && !has_invalid_char(stem_of(id@)) {
            lemma_reveal_from_id(id@, href@);
        }
    }
    proof {
        lemma_last_index_of(idc@, '.');
    }
    let slim = match rfind_char(idc.as_slice(), '.') {
        Some(_) => slim_marker_applies(idc.as_slice(), hc.as_slice()),
        None => ends_in_slim(idc.as_slice()),
    };
    let id_stem = chars_before_last(idc.as_slice(), '.');
    let stripped = if slim {
        chars_of(strip_slim_suffix(string_of(id_stem.as_slice()).as_str()).as_str())
    } else {
        id_stem
    };
    let base = if invalid_in(stripped.as_slice()) {
        let name = string_of(stripped.as_slice());
        let digest = md5_digest(name.as_str().as_bytes());
        hex_chars(&digest)
    } else {
        stripped
    };
    let mut out = base;
    if slim {
        push_all(&mut out, vec!['~', 's', 'l', 'i', 'm'].as_slice());
    }
    push_all(&mut out, ext.as_slice());
    assert(out@ =~= decrypted_filename(id@, href@));
    string_of(out.as_slice())
}


/// Revealing rebuilds a name from the manifest id, never from an obfuscated
/// name. Where neither the id's name part nor the file name carries a slim
/// marker and the name part holds no character a file name cannot, the
/// revealed name is the id's name part with the href's lower-cased
/// extension; so where the id's own extension is that extension, it is the
/// id itself.
pub proof fn lemma_reveal_from_id(id: Seq<char>, href: Seq<char>)
    requires
        !has_slim_marker(stem_of(id)),
        !has_slim_marker(stem_of(basename(href))),
        !has_invalid_char(stem_of(id)),
    ensures
        decrypted_filename(id, href) == stem_of(id) + lowered(dot_extension(href)),
        last_index_of(id, '.') >= 0 && dot_extension(id) == lowered(dot_extension(href))
            ==> decrypted_filename(id, href) == id,
{
    lemma_last_index_of(id, '.');
    if last_index_of(id, '.') < 0 {
        assert(stem_of(id) == id);
    }
    if last_index_of(id, '.') >= 0 {
        assert(stem_of(id) + dot_extension(id) =~= id);
    }
}

} // verus!
