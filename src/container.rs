//! Opening an EPUB container: the bootstrap file, the package document, and
//! the protection descriptor.
use vstd::prelude::*;
use vstd::utf8::{decode_utf8, valid_utf8};
use crate::archive::{member_of, zip_member, ArchiveError};
use crate::error::EpubError;
use crate::fallback::{fallback_manifest, fallback_meta, fallback_parse_opf, fallback_spine, section_tags};
use crate::parser::{extract_opf_path, opf_path_from, parse_opf, parts_from_events, spine_models, EpubMetadata, Manifest, OpfParts, SpineItem};
use crate::text::{before_last, chars_of, push_all, string_of, utf8_string};
use crate::encrypt::chars_before_last;
use crate::xml::{well_formed, xml_events};
use crate::xml_utils::{
    decode_xml_bytes, detect_encryption, encryption_of, parse_xml_safe, sanitized_from, xml_text_of,
    EncryptionInfo,
};

verus! {

/// A parsed EPUB: the archive bytes (kept for repacking), and what its
/// package document says.
#[derive(Debug, Clone)]
pub struct ParsedEpub {
    /// The archive bytes.
    pub zip_data: Vec<u8>,
    pub metadata: EpubMetadata,
    pub manifest: Manifest,
    pub spine: Vec<SpineItem>,
    /// Archive path of the package document.
    pub opf_path: String,
    /// Its directory (empty at the archive root).
    pub opf_dir: String,
    /// Its text, as decoded.
    pub raw_opf: String,
    /// What the protection descriptor says.
    pub encryption: EncryptionInfo,
    /// Whether the package document needed the tolerant reader.
    pub opf_fallback_used: bool,
}

/// The directory part of a path: what precedes its last `/`; empty without one.
pub open spec fn dir_of(path: Seq<char>) -> Seq<char> {
    if crate::text::last_index_of(path, '/') < 0 {
        Seq::empty()
    } else {
        before_last(path, '/')
    }
}

fn missing(name: &str) -> (r: EpubError)
    ensures
        r is Structure,
{
    let mut m = chars_of("Missing file: ");
    push_all(&mut m, chars_of(name).as_slice());
    EpubError::Structure(string_of(m.as_slice()))
}

/// Reads a member for parsing, as decoded XML text: a missing member is a
/// structure error.
fn read_member_text(data: &[u8], name: &str) -> (r: Result<String, EpubError>)
    ensures
        match member_of(data@, name@) {
            Some(b) => r is Ok && r->Ok_0@ == xml_text_of(b),
            None => r is Err,
        },
        r is Err ==> r->Err_0 is Zip || r->Err_0 is Structure || r->Err_0 is Io,
{
    match zip_member(data, name) {
        Ok(bytes) => Ok(decode_xml_bytes(bytes.as_slice())),
        Err(ArchiveError::NotZip(m)) => Err(EpubError::Zip(m)),
        Err(ArchiveError::Missing(_)) => Err(missing(name)),
        Err(ArchiveError::Unreadable(m)) => Err(EpubError::Io(m)),
    }
}

/// The text the strict reader accepts: the document itself, else its
/// repaired form, else none.
pub open spec fn repaired(raw: Seq<char>) -> Option<Seq<char>> {
    if well_formed(raw) {
        Some(raw)
    } else if well_formed(sanitized_from(raw, 0, 0)) {
        Some(sanitized_from(raw, 0, 0))
    } else {
        None
    }
}

/// Whether the tolerant reader is needed: no accepted text, or its events
/// (text trimmed) end in an error.
pub open spec fn needs_fallback(raw: Seq<char>) -> bool {
    match repaired(raw) {
        Some(t) => !(xml_events(t, true).last() is Eof),
        None => true,
    }
}

/// What the package document holds: from the strict reader where the text
/// (repaired if needed) is well-formed, else from the tolerant reader.
pub open spec fn package_from(raw: Seq<char>, parts: OpfParts, fallback_used: bool) -> bool {
    &&& fallback_used == needs_fallback(raw)
    &&& if fallback_used {
        &&& parts.0@ == fallback_meta(raw)
        &&& parts.1@ == fallback_manifest(section_tags(raw, "<manifest"@, "</manifest>"@, "<item"@))
        &&& spine_models(parts.2@) == fallback_spine(
            section_tags(raw, "<spine"@, "</spine>"@, "<itemref"@),
        )
        &&& parts.1.wf()
    } else {
        parts_from_events(parts, xml_events(repaired(raw)->0, true).drop_last())
    }
}

/// Parses a package document: strictly first (after attribute repair if
/// needed), with the tolerant reader where that fails.
pub fn parse_package(raw_opf: &str) -> (r: (OpfParts, bool))
    ensures
        package_from(raw_opf@, r.0, r.1),
{
    match parse_xml_safe(raw_opf) {
        Ok(text) => match parse_opf(text.as_str()) {
            Ok(parts) => {
                return (parts, false);
            },
            Err(_) => {},
        },
        Err(_) => {},
    }
    let parts = fallback_parse_opf(raw_opf).unwrap();
    (parts, true)
}

/// The bytes of the member `name` of `data`, assumed present.
pub open spec fn member(data: Seq<u8>, name: Seq<char>) -> Seq<u8> {
    member_of(data, name)->0
}

/// The package path that `container.xml` of `data` names, if any.
pub open spec fn package_path(data: Seq<u8>) -> Result<Seq<char>, bool> {
    opf_path_from(
        xml_events(xml_text_of(member(data, "META-INF/container.xml"@)), false),
        0,
    )
}

/// Whether `data` can be opened: `container.xml` is there and names a
/// package document that is there too.
pub open spec fn opens(data: Seq<u8>) -> bool {
    &&& member_of(data, "META-INF/container.xml"@) is Some
    &&& package_path(data) is Ok
    &&& member_of(data, package_path(data)->Ok_0) is Some
}

/// Parse an EPUB from raw bytes: locate the package document through
/// `META-INF/container.xml`, parse it, and read the protection descriptor.
pub fn parse_epub_bytes(data: Vec<u8>) -> (r: Result<ParsedEpub, EpubError>)
    ensures
        r is Ok <==> opens(data@),
        match r {
            Ok(p) => {
                &&& p.zip_data@ == data@
                &&& p.opf_path@ == package_path(data@)->Ok_0
                &&& p.opf_dir@ == dir_of(p.opf_path@)
                &&& p.raw_opf@ == xml_text_of(member(data@, p.opf_path@))
                &&& package_from(
                    p.raw_opf@,
                    (p.metadata, p.manifest, p.spine),
                    p.opf_fallback_used,
                )
                &&& encryption_of(p.encryption, data@)
            },
            Err(e) => e is Zip || e is Structure || e is Io || e is Xml,
        },
{
    let container_xml = match read_member_text(data.as_slice(), "META-INF/container.xml") {
        Ok(t) => t,
        Err(e) => return Err(e),
    };
    let opf_path = match extract_opf_path(container_xml.as_str()) {
        Ok(p) => p,
        Err(e) => return Err(e),
    };
    let pc = chars_of(opf_path.as_str());
    proof {
        crate::text::lemma_last_index_of(pc@, '/');
    }
    let opf_dir = match crate::text::rfind_char(pc.as_slice(), '/') {
        Some(_) => string_of(chars_before_last(pc.as_slice(), '/').as_slice()),
        None => String::new(),
    };
    let raw_opf = match read_member_text(data.as_slice(), opf_path.as_str()) {
        Ok(t) => t,
        Err(e) => return Err(e),
    };
    let ((metadata, manifest, spine), opf_fallback_used) = parse_package(raw_opf.as_str());
    let encryption = detect_encryption(data.as_slice());
    Ok(
        ParsedEpub {
            zip_data: data,
            metadata,
            manifest,
            spine,
            opf_path,
            opf_dir,
            raw_opf,
            encryption,
            opf_fallback_used,
        },
    )
}

impl ParsedEpub {
    /// Read a member of the archive by its path.
    pub fn read_zip_file(&self, path: &str) -> (r: Result<Vec<u8>, EpubError>)
        ensures
            match member_of(self.zip_data@, path@) {
                Some(b) => r is Ok && r->Ok_0@ == b,
                None => r is Err && r->Err_0 is Zip,
            },
    {
        match zip_member(self.zip_data.as_slice(), path) {
            Ok(bytes) => Ok(bytes),
            Err(ArchiveError::NotZip(m)) => Err(EpubError::Zip(m)),
            Err(ArchiveError::Missing(m)) => Err(EpubError::Zip(m)),
            Err(ArchiveError::Unreadable(m)) => Err(EpubError::Zip(m)),
        }
    }

    /// Read a text member of the archive; it must be valid UTF-8.
    pub fn read_zip_text(&self, path: &str) -> (r: Result<String, EpubError>)
        ensures
            match member_of(self.zip_data@, path@) {
                Some(b) => if valid_utf8(b) {
                    r is Ok && r->Ok_0@ == decode_utf8(b)
                } else {
                    r is Err && r->Err_0 is Structure
                },
                None => r is Err && r->Err_0 is Zip,
            },
    {
        let bytes = match self.read_zip_file(path) {
            Ok(b) => b,
            Err(e) => return Err(e),
        };
        match utf8_string(bytes) {
            Some(s) => Ok(s),
            None => {
                let mut m = chars_of("Invalid UTF-8 in ");
                push_all(&mut m, chars_of(path).as_slice());
                Err(EpubError::Structure(string_of(m.as_slice())))
            },
        }
    }
}

} // verus!
