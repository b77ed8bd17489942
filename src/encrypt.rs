//! Obfuscated file names: categories, the hashed name body, path resolution
//! and reference rewriting.
use vstd::prelude::*;
use vstd::utf8::encode_utf8;
use md5::{Digest, Md5};
use crate::decrypt::{has_slim_marker, slim_stripped, slim_tag, strip_slim_suffix};
use crate::parser::ManifestItem;
use crate::text::{
    after_last, before_last, chars_of, has_prefix, has_suffix, last_index_of, lemma_last_index_of,
    lower_chars, lowered, push_all, rfind_char, same_chars, string_of, sub_chars,
};

verus! {

/// The kind of a resource, which decides its directory.
#[derive(Debug, Clone, Copy, PartialEq, Eq, Hash, Structural)]
pub enum FileCategory {
    Text,
    Css,
    Image,
    Font,
    Audio,
    Video,
    Other,
}

/// The directory that holds resources of category `c`.
pub open spec fn dir_name_of(c: FileCategory) -> Seq<char> {
    match c {
        FileCategory::Text => "Text"@,
        FileCategory::Css => "Styles"@,
        FileCategory::Image => "Images"@,
        FileCategory::Font => "Fonts"@,
        FileCategory::Audio => "Audio"@,
        FileCategory::Video => "Video"@,
        FileCategory::Other => "Misc"@,
    }
}

impl FileCategory {
    /// Sub-directory name for this category.
    pub fn dir_name(self) -> (r: &'static str)
        ensures
            r@ == dir_name_of(self),
    {
        match self {
            FileCategory::Text => "Text",
            FileCategory::Css => "Styles",
            FileCategory::Image => "Images",
            FileCategory::Font => "Fonts",
            FileCategory::Audio => "Audio",
            FileCategory::Video => "Video",
            FileCategory::Other => "Misc",
        }
    }
}

/// The category of a resource with media type `media_type` and path `href`.
pub open spec fn category_of(media_type: Seq<char>, href: Seq<char>) -> FileCategory {
    let h = lowered(href);
    if media_type == "application/xhtml+xml"@ {
        FileCategory::Text
    } else if media_type == "text/css"@ {
        FileCategory::Css
    } else if "image/"@.is_prefix_of(media_type) {
        FileCategory::Image
    } else if "font/"@.is_prefix_of(media_type) || ".ttf"@.is_suffix_of(h) || ".otf"@.is_suffix_of(
        h,
    ) || ".woff"@.is_suffix_of(h) {
        FileCategory::Font
    } else if "audio/"@.is_prefix_of(media_type) {
        FileCategory::Audio
    } else if "video/"@.is_prefix_of(media_type) {
        FileCategory::Video
    } else {
        FileCategory::Other
    }
}

/// Classifies a manifest item by its media type and, for fonts, its extension.
pub fn classify_item(item: &ManifestItem) -> (r: FileCategory)
    ensures
        r == category_of(item.media_type@, item.href@),
{
    let mt = chars_of(item.media_type.as_str());
    let href_chars = chars_of(item.href.as_str());
    let h = lower_chars(href_chars.as_slice());
    if same_chars(mt.as_slice(), chars_of("application/xhtml+xml").as_slice()) {
        FileCategory::Text
    } else if same_chars(mt.as_slice(), chars_of("text/css").as_slice()) {
        FileCategory::Css
    } else if has_prefix(mt.as_slice(), chars_of("image/").as_slice()) {
        FileCategory::Image
    } else if has_prefix(mt.as_slice(), chars_of("font/").as_slice()) || has_suffix(
        h.as_slice(),
        chars_of(".ttf").as_slice(),
    ) || has_suffix(h.as_slice(), chars_of(".otf").as_slice()) || has_suffix(
        h.as_slice(),
        chars_of(".woff").as_slice(),
    ) {
        FileCategory::Font
    } else if has_prefix(mt.as_slice(), chars_of("audio/").as_slice()) {
        FileCategory::Audio
    } else if has_prefix(mt.as_slice(), chars_of("video/").as_slice()) {
        FileCategory::Video
    } else {
        FileCategory::Other
    }
}

/// The MD5 digest of a byte string, as computed by the `md-5` crate.
pub uninterp spec fn md5_of(data: Seq<u8>) -> Seq<u8>;

/// Relies on `md5::Md5::digest` (RustCrypto's `md-5`): the 16-byte MD5 digest
/// of the input, which depends on the input alone.
#[verifier::external_body]
pub(crate) fn md5_digest(data: &[u8]) -> (r: [u8; 16])
    ensures
        r@ == md5_of(data@),
{
    Md5::digest(data).into()
}

/// The glyph for bit `k` (most significant first) of byte `b`.
pub open spec fn bit_glyph(b: u8, k: int) -> char {
    if (b >> ((7 - k) as u8)) & 1u8 == 1u8 {
        '*'
    } else {
        ':'
    }
}

/// Each bit of `d`, most significant first, as `*` (one) or `:` (zero).
pub open spec fn glyphs_of(d: Seq<u8>) -> Seq<char> {
    Seq::new(8 * d.len(), |i: int| bit_glyph(d[i / 8], i % 8))
}

/// The 128-glyph obfuscated body for `id`.
pub open spec fn obfuscated_body(id: Seq<char>) -> Seq<char> {
    glyphs_of(md5_of(encode_utf8(id)))
}

/// MD5 of the id, written as 128 glyphs: `*` for a one bit, `:` for a zero bit.
pub fn generate_encrypted_name(id: &str) -> (r: String)
    ensures
        r@ == obfuscated_body(id@),
        r@.len() == 128,
        forall|i: int| 0 <= i < r@.len() ==> r@[i] == '*' || r@[i] == ':',
{
    let digest = md5_digest(id.as_bytes());
    let ghost g = glyphs_of(digest@);
    assert(digest@.len() == 16);
    let mut out: Vec<char> = Vec::new();
    let mut i: usize = 0;
    while i < 128
        invariant
            i <= 128,
            g == glyphs_of(digest@),
            digest@.len() == 16,
            out@ == g.subrange(0, i as int),
        decreases 128 - i,
    {
        let byte = digest[i / 8];
        let shift = (7 - i % 8) as u8;
        let c = if (byte >> shift) & 1u8 == 1u8 {
            '*'
        } else {
            ':'
        };
        assert(c == g[i as int]);
        out.push(c);
        i += 1;
        assert(out@ =~= g.subrange(0, i as int));
    }
    assert(out@ =~= g);
    string_of(out.as_slice())
}

/// The name of a file: what follows the last `/` of its path.
pub open spec fn basename(path: Seq<char>) -> Seq<char> {
    after_last(path, '/')
}

/// A file name without its extension.
pub open spec fn stem_of(name: Seq<char>) -> Seq<char> {
    before_last(name, '.')
}

/// The lower-cased text after the last `.` of `href`; empty without a `.`.
pub open spec fn href_extension(href: Seq<char>) -> Seq<char> {
    if last_index_of(href, '.') < 0 {
        Seq::empty()
    } else {
        lowered(after_last(href, '.'))
    }
}

/// Whether the slim marker applies to an item: its id without extension or
/// its file name without extension ends in `slim`, of any case.
pub open spec fn slim_applies(id: Seq<char>, href: Seq<char>) -> bool {
    has_slim_marker(stem_of(basename(href))) || has_slim_marker(stem_of(id))
}

/// The obfuscated file name of a manifest item.
pub open spec fn encrypted_filename(id: Seq<char>, href: Seq<char>) -> Seq<char> {
    let slim = slim_applies(id, href);
    let hash_input = if slim {
        slim_stripped(stem_of(id))
    } else {
        stem_of(id)
    };
    seq!['_'] + obfuscated_body(hash_input) + slim_tag(slim) + seq!['.'] + href_extension(href)
}

/// `s` without what follows its last `c` (nor the `c`).
pub(crate) fn chars_before_last(s: &[char], c: char) -> (r: Vec<char>)
    ensures
        r@ == before_last(s@, c),
{
    proof {
        lemma_last_index_of(s@, c);
    }
    match rfind_char(s, c) {
        Some(i) => sub_chars(s, 0, i),
        None => sub_chars(s, 0, s.len()),
    }
}

/// What follows the last `c` of `s`.
pub(crate) fn chars_after_last(s: &[char], c: char) -> (r: Vec<char>)
    ensures
        r@ == after_last(s@, c),
{
    proof {
        lemma_last_index_of(s@, c);
    }
    let n = s.len();
    match rfind_char(s, c) {
        Some(i) => sub_chars(s, i + 1, n),
        None => sub_chars(s, 0, s.len()),
    }
}

/// Whether the slim marker applies to an item with this id and href.
pub(crate) fn slim_marker_applies(id: &[char], href: &[char]) -> (r: bool)
    ensures
        r == slim_applies(id@, href@),
{
    let base = chars_after_last(href, '/');
    let file_stem = chars_before_last(base.as_slice(), '.');
    let id_stem = chars_before_last(id, '.');
    crate::decrypt::ends_in_slim(file_stem.as_slice()) || crate::decrypt::ends_in_slim(
        id_stem.as_slice(),
    )
}

/// Build the obfuscated file name for a manifest item:
/// `_` + hashed body + optional `~slim` + `.` + the href's extension.
pub fn build_encrypted_filename(id: &str, href: &str) -> (r: String)
    ensures
        r@ == encrypted_filename(id@, href@),
{
    let idc = chars_of(id);
    let hc = chars_of(href);
    let id_stem = chars_before_last(idc.as_slice(), '.');
    let slim = slim_marker_applies(idc.as_slice(), hc.as_slice());
    let hash_input = if slim {
        strip_slim_suffix(string_of(id_stem.as_slice()).as_str())
    } else {
        string_of(id_stem.as_slice())
    };
    let body = generate_encrypted_name(hash_input.as_str());
    proof {
        lemma_last_index_of(hc@, '.');
    }
    let ext = match rfind_char(hc.as_slice(), '.') {
        Some(_) => lower_chars(chars_after_last(hc.as_slice(), '.').as_slice()),
        None => Vec::new(),
    };
    let mut out: Vec<char> = vec!['_'];
    push_all(&mut out, chars_of(body.as_str()).as_slice());
    if slim {
        push_all(&mut out, vec!['~', 's', 'l', 'i', 'm'].as_slice());
    }
    out.push('.');
    push_all(&mut out, ext.as_slice());
    assert(out@ =~= encrypted_filename(id@, href@));
    string_of(out.as_slice())
}

} // verus!
