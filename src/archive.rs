//! Access to ZIP archives through the `zip` crate.
use vstd::prelude::*;
use std::io::{Cursor, Read, Write};
use zip::write::SimpleFileOptions;
use zip::{CompressionMethod, ZipArchive, ZipWriter};

verus! {

/// An archive being written in memory. Verus refuses a declaration of
/// `zip::ZipWriter` (its `Write + Seek` bound), so the writer is held here.
#[verifier::external_body]
pub struct ZipSink {
    inner: ZipWriter<Cursor<Vec<u8>>>,
}

/// Why a member of an archive could not be read.
#[derive(Debug, Clone)]
pub enum ArchiveError {
    /// The bytes are not a readable ZIP archive.
    NotZip(String),
    /// The archive has no member of that name.
    Missing(String),
    /// The member could not be decompressed.
    Unreadable(String),
}

/// The decompressed bytes of member `name` of the ZIP archive `data`, as the
/// `zip` crate reads them; `None` where they cannot be had.
pub uninterp spec fn member_of(data: Seq<u8>, name: Seq<char>) -> Option<Seq<u8>>;

/// Relies on `zip::ZipArchive::new`, `ZipArchive::by_name` and
/// `Read::read_to_end`: the decompressed bytes of member `name`, or why they
/// could not be had; either depends on the archive bytes and the name alone.
#[verifier::external_body]
pub(crate) fn zip_member(data: &[u8], name: &str) -> (r: Result<Vec<u8>, ArchiveError>)
    ensures
        match r {
            Ok(b) => member_of(data@, name@) == Some(b@),
            Err(_) => member_of(data@, name@) is None,
        },
{
    let mut archive = ZipArchive::new(Cursor::new(data)).map_err(
        |e| ArchiveError::NotZip(e.to_string()),
    )?;
    let mut file = archive.by_name(name).map_err(|e| ArchiveError::Missing(e.to_string()))?;
    let mut buf = Vec::new();
    file.read_to_end(&mut buf).map_err(|e| ArchiveError::Unreadable(e.to_string()))?;
    Ok(buf)
}

/// The entries handed to a ZIP writer so far: name, contents, and whether
/// they are stored without compression.
pub uninterp spec fn zip_entries(w: ZipSink) -> Seq<(Seq<char>, Seq<u8>, bool)>;

/// Relies on `zip::ZipWriter::new`: a writer with no entries, writing to memory.
#[verifier::external_body]
pub(crate) fn zip_writer() -> (r: ZipSink)
    ensures
        zip_entries(r) == Seq::<(Seq<char>, Seq<u8>, bool)>::empty(),
{
    ZipSink { inner: ZipWriter::new(Cursor::new(Vec::new())) }
}

/// Whether an entry named `name` is among `entries`.
pub open spec fn has_entry(entries: Seq<(Seq<char>, Seq<u8>, bool)>, name: Seq<char>) -> bool {
    exists|j: int| 0 <= j < entries.len() && entries[j].0 == name
}

/// Relies on `zip::ZipWriter::start_file` and `Write::write_all`: on success
/// the archive gains an entry `name` holding `data`, stored when `stored`
/// holds, else deflated. A name already used is refused. A new name is taken
/// when no entry so far (this one included) holds more than `0xFF00_0000`
/// bytes, which keeps every compressed size within `u32::MAX`. The name must
/// be under 65536 bytes: a longer one makes `start_file` panic. On failure
/// the writer is dropped.
#[verifier::external_body]
pub(crate) fn zip_add(w: ZipSink, name: &str, data: &[u8], stored: bool) -> (r: Result<
    ZipSink,
    String,
>)
    requires
        vstd::utf8::encode_utf8(name@).len() < 65536,
    ensures
        r is Ok ==> zip_entries(r->Ok_0) == zip_entries(w).push((name@, data@, stored)),
        has_entry(zip_entries(w), name@) ==> r is Err,
        !has_entry(zip_entries(w), name@) && data@.len() <= 0xFF00_0000 && (forall|j: int|
            0 <= j < zip_entries(w).len() ==> (#[trigger] zip_entries(w)[j]).1.len()
                <= 0xFF00_0000) ==> r is Ok,
{
    let mut w = w;
    let method = if stored { CompressionMethod::Stored } else { CompressionMethod::Deflated };
    let options = SimpleFileOptions::default().compression_method(method);
    w.inner.start_file(name, options).map_err(|e| e.to_string())?;
    w.inner.write_all(data).map_err(|e| e.to_string())?;
    Ok(w)
}

/// The bytes of a ZIP archive holding `entries` in order, as the `zip` crate
/// writes them with default options (fixed timestamps).
pub uninterp spec fn zip_bytes(entries: Seq<(Seq<char>, Seq<u8>, bool)>) -> Seq<u8>;

/// Relies on `zip::ZipWriter::finish`: on success, the bytes of the finished
/// archive, which depend on the entries written alone (a failed entry drops
/// the writer, so none is ever half written).
#[verifier::external_body]
pub(crate) fn zip_finish(w: ZipSink) -> (r: Result<Vec<u8>, String>)
    ensures
        r is Ok ==> r->Ok_0@ == zip_bytes(zip_entries(w)),
{
    w.inner.finish().map(|c| c.into_inner()).map_err(|e| e.to_string())
}

} // verus!
