//! Packing resources into an EPUB archive: the `mimetype` member comes first
//! and is stored uncompressed.
use vstd::prelude::*;
use crate::archive::{has_entry, zip_add, zip_bytes, zip_entries, zip_finish, zip_writer, ZipSink};
use crate::error::EpubError;
use crate::parser::bytes_of;
use crate::text::{chars_of, same_chars};

verus! {

/// Options for writing an EPUB archive.
#[derive(Debug, Clone)]
pub struct WriteOptions {
    /// Compression level for deflate (0-9).
    pub compression_level: Option<i64>,
}

impl Default for WriteOptions {
    fn default() -> (r: Self)
        ensures
            r.compression_level == Some(6i64),
    {
        WriteOptions { compression_level: Some(6) }
    }
}

/// A file to be put in the archive.
#[derive(Debug, Clone)]
pub struct EpubEntry {
    /// Path inside the archive (e.g. `OEBPS/Text/ch1.xhtml`).
    pub path: String,
    /// File content.
    pub data: Vec<u8>,
}

/// An archive entry as plain values: name, contents, stored uncompressed.
pub type PlannedEntry = (Seq<char>, Seq<u8>, bool);

/// The entries written for `entries`: the `mimetype` marker first, stored,
/// then every entry not named `mimetype`, in order, deflated.
pub open spec fn entry_plan(entries: Seq<EpubEntry>) -> Seq<PlannedEntry>
    decreases entries.len(),
{
    if entries.len() == 0 {
        seq![("mimetype"@, bytes_of("application/epub+zip"@), true)]
    } else {
        let prev = entry_plan(entries.drop_last());
        let e = entries.last();
        if e.path@ == "mimetype"@ {
            prev
        } else {
            prev.push((e.path@, e.data@, false))
        }
    }
}

/// Whatever the entries, the plan starts with the `mimetype` marker, stored
/// and holding exactly `application/epub+zip`, and no later entry is named
/// `mimetype` or stored.
pub proof fn lemma_mimetype_first(entries: Seq<EpubEntry>)
    ensures
        entry_plan(entries).len() >= 1,
        entry_plan(entries)[0] == ("mimetype"@, bytes_of("application/epub+zip"@), true),
        forall|i: int|
            1 <= i < entry_plan(entries).len() ==> (#[trigger] entry_plan(entries)[i]).0
                != "mimetype"@ && !entry_plan(entries)[i].2,
    decreases entries.len(),
{
    if entries.len() > 0 {
        lemma_mimetype_first(entries.drop_last());
    }
}

/// Whether the archive writer takes every planned entry: the names are
/// pairwise distinct, each under 65536 bytes, and no content exceeds
/// `0xFF00_0000` bytes.
pub open spec fn writable(plan: Seq<PlannedEntry>) -> bool {
    &&& forall|a: int, b: int| 0 <= a < b < plan.len() ==> plan[a].0 != plan[b].0
    &&& forall|a: int|
        #![trigger plan[a]]
        0 <= a < plan.len() ==> vstd::utf8::encode_utf8(plan[a].0).len() < 65536 && plan[a].1.len()
            <= 0xFF00_0000
}

/// The plan is the `mimetype` marker followed by the caller's entries not
/// named `mimetype`, in their order, each deflated.
pub proof fn lemma_plan_order(entries: Seq<EpubEntry>)
    ensures
        entry_plan(entries) == seq![("mimetype"@, bytes_of("application/epub+zip"@), true)]
            + entries.filter(|e: EpubEntry| e.path@ != "mimetype"@).map_values(
            |e: EpubEntry| (e.path@, e.data@, false),
        ),
    decreases entries.len(),
{
    let f = |e: EpubEntry| e.path@ != "mimetype"@;
    let g = |e: EpubEntry| (e.path@, e.data@, false);
    if entries.len() == 0 {
        assert(entries.filter(f) =~= Seq::<EpubEntry>::empty());
        assert(entries.filter(f).map_values(g) =~= Seq::<PlannedEntry>::empty());
    } else {
        let p = entries.drop_last();
        lemma_plan_order(p);
        p.lemma_filter_push(entries.last(), f);
        assert(p.push(entries.last()) =~= entries);
        if f(entries.last()) {
            assert(entries.filter(f).map_values(g) =~= p.filter(f).map_values(g).push(
                g(entries.last()),
            ));
        }
        assert(entry_plan(entries) =~= seq![("mimetype"@, bytes_of("application/epub+zip"@), true)]
            + entries.filter(f).map_values(g));
    }
}

/// Build an EPUB archive in memory: `mimetype` first and stored, then the
/// other entries deflated; a `mimetype` entry of the caller is not repeated.
pub fn build_epub_bytes(entries: &[EpubEntry], opts: &WriteOptions) -> (r: Result<Vec<u8>, EpubError>)
    ensures
        r is Ok ==> r->Ok_0@ == zip_bytes(entry_plan(entries@)),
        r is Err ==> r->Err_0 is Zip,
{
    match write_entries(entries) {
        Ok(sink) => match zip_finish(sink) {
            Ok(bytes) => Ok(bytes),
            Err(msg) => Err(EpubError::Zip(msg)),
        },
        Err(msg) => Err(EpubError::Zip(msg)),
    }
}

/// Hands the planned entries, in order, to a new archive writer.
pub fn write_entries(entries: &[EpubEntry]) -> (r: Result<ZipSink, String>)
    ensures
        writable(entry_plan(entries@)) ==> r is Ok,
        r is Ok ==> zip_entries(r->Ok_0) == entry_plan(entries@),
{
    let ghost plan = entry_plan(entries@);
    proof {
        lemma_plan_prefix(entries@, entries@.len() as int);
    }
    let sink = zip_writer();
    proof {
        lemma_mimetype_first(entries@);
        assert(!has_entry(zip_entries(sink), "mimetype"@));
        assert(entries@.subrange(0, 0) =~= Seq::<EpubEntry>::empty());
        if writable(plan) {
            assert(vstd::utf8::encode_utf8(plan[0].0).len() < 65536 && plan[0].1.len()
                <= 0xFF00_0000);
        }
    }
    let marker = "mimetype";
    if marker.as_bytes().len() >= 65536 {
        return Err("file name too long: mimetype".to_owned());
    }
    let mut sink = match zip_add(sink, marker, "application/epub+zip".as_bytes(), true) {
        Ok(s) => s,
        Err(m) => return Err(m),
    };
    assert(zip_entries(sink) == entry_plan(entries@.subrange(0, 0)));
    let mut i: usize = 0;
    while i < entries.len()
        invariant
            i <= entries@.len(),
            plan == entry_plan(entries@),
            zip_entries(sink) == entry_plan(entries@.subrange(0, i as int)),
            zip_entries(sink).len() <= plan.len(),
            forall|k: int| 0 <= k < zip_entries(sink).len() ==> zip_entries(sink)[k] == plan[k],
        decreases entries@.len() - i,
    {
        let e = &entries[i];
        assert(entries@.subrange(0, i + 1).drop_last() =~= entries@.subrange(0, i as int));
        let is_marker = same_chars(
            chars_of(e.path.as_str()).as_slice(),
            chars_of("mimetype").as_slice(),
        );
        if !is_marker {
            proof {
                lemma_plan_prefix(entries@, i + 1);
                let k = zip_entries(sink).len() as int;
                assert(entry_plan(entries@.subrange(0, i + 1)) == zip_entries(sink).push(
                    (e.path@, e.data@, false),
                ));
                assert(entry_plan(entries@.subrange(0, i + 1)).len() == k + 1);
                assert(k < plan.len());
                assert(entry_plan(entries@.subrange(0, i + 1))[k] == plan[k]);
                if writable(plan) {
                    assert(plan[k] == (e.path@, e.data@, false));
                    lemma_writable_at(plan, k);
                    assert forall|j: int| 0 <= j < k implies zip_entries(sink)[j].0 != e.path@ by {
                        assert(plan[j].0 != plan[k].0);
                    }
                    assert forall|j: int| 0 <= j < k implies (#[trigger] zip_entries(sink)[j]).1.len()
                        <= 0xFF00_0000 by {
                        assert(zip_entries(sink)[j] == plan[j]);
                        lemma_writable_at(plan, j);
                    }
                }
            }
            if e.path.as_str().as_bytes().len() >= 65536 {
                return Err("file name too long".to_owned());
            }
            sink = match zip_add(sink, e.path.as_str(), e.data.as_slice(), false) {
                Ok(s) => s,
                Err(m) => return Err(m),
            };
        }
        i += 1;
        proof {
            lemma_plan_prefix(entries@, i as int);
        }
    }
    assert(entries@.subrange(0, i as int) =~= entries@);
    Ok(sink)
}

proof fn lemma_writable_at(plan: Seq<PlannedEntry>, a: int)
    requires
        writable(plan),
        0 <= a < plan.len(),
    ensures
        vstd::utf8::encode_utf8(plan[a].0).len() < 65536,
        plan[a].1.len() <= 0xFF00_0000,
{
    let e = plan[a];
}

/// The plan of a prefix of the entries is a prefix of the whole plan.
proof fn lemma_plan_prefix(entries: Seq<EpubEntry>, n: int)
    requires
        0 <= n <= entries.len(),
    ensures
        entry_plan(entries.subrange(0, n)).len() <= entry_plan(entries).len(),
        forall|k: int|
            0 <= k < entry_plan(entries.subrange(0, n)).len() ==> entry_plan(entries.subrange(0, n))[k]
                == #[trigger] entry_plan(entries)[k],
    decreases entries.len() - n,
{
    if n < entries.len() {
        assert(entries.subrange(0, n + 1).drop_last() =~= entries.subrange(0, n));
        lemma_plan_prefix(entries, n + 1);
    } else {
        assert(entries.subrange(0, n) =~= entries);
    }
}

} // verus!
