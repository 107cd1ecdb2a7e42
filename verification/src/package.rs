//! Reading raw entries from an EPUB zip and writing a fresh, valid EPUB zip.
//!
//! The single most important EPUB packaging rule is honored here: the first
//! entry in the archive MUST be `mimetype`, it MUST be stored (no compression),
//! and it MUST contain exactly `application/epub+zip`.

use std::io::Cursor;
use std::io::Read;
use std::io::Write;

use vstd::prelude::*;
use vstd::string::StringSliceAdditionalSpecFns;
use zip::result::ZipError;
use zip::write::SimpleFileOptions;
use zip::{CompressionMethod, ZipArchive, ZipWriter};

use crate::chars::{chars_of, chars_eq, decode_utf8_lossy, str_eq, string_of, utf8_lossy};
use crate::error::EpubError;
use crate::model::{first_match, lemma_first_match};

verus! {

#[verifier::external_type_specification]
#[verifier::external_body]
#[verifier::reject_recursive_types(R)]
pub struct ExZipArchive<R>(ZipArchive<R>);

/// An archive under construction in memory. Verus cannot be told of
/// `ZipWriter`'s `Write + Seek` bound, so the writer is held here, opaque.
#[verifier::external_body]
pub struct EpubZipWriter {
    inner: ZipWriter<Cursor<Vec<u8>>>,
}

#[verifier::external_type_specification]
#[verifier::external_body]
pub struct ExZipError(ZipError);

/// The exact mimetype string an EPUB must carry.
pub const EPUB_MIMETYPE: &'static str = "application/epub+zip";

/// The archive name of the mimetype entry.
pub const MIMETYPE_ENTRY: &'static str = "mimetype";

/// Unix permissions given to every written entry.
const ENTRY_PERMISSIONS: u32 = 0o644;

// ---------------------------------------------------------------------------
// What the zip crate reports
// ---------------------------------------------------------------------------

/// One entry of an archive as the zip crate reads it: its name, whether it is
/// stored uncompressed, and its contents (nothing when they cannot be read);
/// nothing at all when the entry itself cannot be opened.
pub type ZipEntryView = Option<(Seq<char>, bool, Option<Seq<u8>>)>;

/// The entries the zip crate reads from `bytes`, in archive order; nothing
/// when the bytes are not a readable archive.
pub uninterp spec fn zip_listing(bytes: Seq<u8>) -> Option<Seq<Option<(Seq<char>, bool, Option<Seq<u8>>)>>>;

/// The entries of an opened archive.
pub uninterp spec fn zip_archive_entries(a: ZipArchive<Cursor<Vec<u8>>>) -> Seq<
    Option<(Seq<char>, bool, Option<Seq<u8>>)>,
>;

/// The entries written so far into an archive under construction: name,
/// whether stored uncompressed, and contents.
pub uninterp spec fn zip_written(w: EpubZipWriter) -> Seq<(Seq<char>, bool, Seq<u8>)>;

/// Whether an entry of the archive under construction is open for writing.
pub uninterp spec fn zip_entry_open(w: EpubZipWriter) -> bool;

/// The data of one entry that is certain to stay below the 4 GiB that a 32-bit
/// zip entry records for its sizes, deflated or not (deflate at worst about
/// doubles tiny blocks and falls back to stored blocks otherwise): under 1 GiB.
pub open spec fn data_within_zip32(d: Seq<u8>) -> bool {
    d.len() < 0x4000_0000
}

/// Every entry's data stays within the 32-bit zip sizes; the offsets of a large
/// archive get the 64-bit records on their own.
pub open spec fn within_zip32(l: Seq<(Seq<char>, bool, Seq<u8>)>) -> bool {
    forall|i: int| 0 <= i < l.len() ==> data_within_zip32(#[trigger] l[i].2)
}

/// A zip entry name's UTF-8 encoding fits the 16-bit length field of a header.
pub open spec fn name_fits(n: Seq<char>) -> bool {
    vstd::utf8::encode_utf8(n).len() <= 0xFFFF
}

/// No two entries share a name.
pub open spec fn distinct_names(l: Seq<(Seq<char>, bool, Seq<u8>)>) -> bool {
    forall|i: int, j: int| 0 <= i < j < l.len() ==> #[trigger] l[i].0 != #[trigger] l[j].0
}

/// Is `name` the name of one of the entries?
pub open spec fn name_taken(l: Seq<(Seq<char>, bool, Seq<u8>)>, name: Seq<char>) -> bool {
    exists|k: int| 0 <= k < l.len() && #[trigger] l[k].0 == name
}

/// How a written entry reads back.
pub open spec fn read_back(e: (Seq<char>, bool, Seq<u8>)) -> Option<(Seq<char>, bool, Option<Seq<u8>>)> {
    Some((e.0, e.1, Some(e.2)))
}

/// Opens an archive (`ZipArchive::new`): it succeeds exactly when the bytes are
/// a readable archive, and then holds the entries [`zip_listing`] names.
#[verifier::external_body]
fn zip_open(bytes: Vec<u8>) -> (r: Result<ZipArchive<Cursor<Vec<u8>>>, ZipError>)
    ensures
        r is Ok <==> zip_listing(bytes@) is Some,
        r matches Ok(a) ==> zip_archive_entries(a) == zip_listing(bytes@).unwrap(),
{
    ZipArchive::new(Cursor::new(bytes))
}

/// Number of entries (`ZipArchive::len`).
#[verifier::external_body]
fn zip_len(a: &ZipArchive<Cursor<Vec<u8>>>) -> (r: usize)
    ensures
        r == zip_archive_entries(*a).len(),
{
    a.len()
}

/// Name and stored-ness of entry `i` (`ZipArchive::by_index`, `ZipFile::name`,
/// `ZipFile::compression`); fails exactly when the entry cannot be opened.
#[verifier::external_body]
fn zip_entry_header(a: &mut ZipArchive<Cursor<Vec<u8>>>, i: usize) -> (r: Result<(String, bool), ZipError>)
    requires
        i < zip_archive_entries(*old(a)).len(),
    ensures
        zip_archive_entries(*final(a)) == zip_archive_entries(*old(a)),
        r is Ok <==> zip_archive_entries(*old(a))[i as int] is Some,
        r matches Ok((n, st)) ==> zip_archive_entries(*old(a))[i as int] matches Some((en, est, _))
            && n@ == en && st == est,
{
    let f = a.by_index(i)?;
    let stored = match f.compression() {
        CompressionMethod::Stored => true,
        _ => false,
    };
    Ok((f.name().to_string(), stored))
}

/// Contents of entry `i` (`ZipArchive::by_index`, `Read::read_to_end`);
/// nothing when they cannot be read.
#[verifier::external_body]
fn zip_entry_data(a: &mut ZipArchive<Cursor<Vec<u8>>>, i: usize) -> (r: Option<Vec<u8>>)
    requires
        i < zip_archive_entries(*old(a)).len(),
        zip_archive_entries(*old(a))[i as int] is Some,
    ensures
        zip_archive_entries(*final(a)) == zip_archive_entries(*old(a)),
        r matches Some(d) ==> zip_archive_entries(*old(a))[i as int] matches Some((_, _, Some(
            ed,
        ))) && d@ == ed,
        r is None ==> zip_archive_entries(*old(a))[i as int] matches Some((_, _, None)),
{
    let mut f = a.by_index(i).ok()?;
    let mut v: Vec<u8> = Vec::new();
    f.read_to_end(&mut v).ok()?;
    Some(v)
}

/// A new, empty archive in memory (`ZipWriter::new`).
#[verifier::external_body]
fn zip_writer_new() -> (w: EpubZipWriter)
    ensures
        zip_written(w) == Seq::<(Seq<char>, bool, Seq<u8>)>::empty(),
{
    EpubZipWriter { inner: ZipWriter::new(Cursor::new(Vec::new())) }
}

/// Starts a new entry, stored or deflated, with the given permissions
/// (`ZipWriter::start_file`). On success the archive holds one more, empty,
/// entry, open for writing. It finishes the entry written before, which fails
/// when that entry outgrows the 32-bit sizes, and it refuses a name already in
/// the archive; short of those, writing into memory does not fail. A name whose
/// UTF-8 encoding exceeds 65535 bytes makes the crate panic when it writes the
/// header, so such names are not admitted.
#[verifier::external_body]
fn zip_start_file(w: &mut EpubZipWriter, name: &str, stored: bool, perm: u32) -> (r: Result<(), ZipError>)
    requires
        name_fits(name@),
    ensures
        r is Ok ==> zip_written(*final(w)) == zip_written(*old(w)).push(
            (name@, stored, Seq::<u8>::empty()),
        ),
        r is Ok ==> zip_entry_open(*final(w)),
        name_taken(zip_written(*old(w)), name@) ==> r is Err,
        !name_taken(zip_written(*old(w)), name@) && within_zip32(
            zip_written(*old(w)).push((name@, stored, Seq::<u8>::empty())),
        ) ==> r is Ok,
{
    let method = match stored {
        true => CompressionMethod::Stored,
        false => CompressionMethod::Deflated,
    };
    w.inner.start_file(name, SimpleFileOptions::default().compression_method(method).unix_permissions(perm))
}

/// Appends bytes to the open entry (`Write::write_all`); it is called only
/// while an entry is open. It fails when the entry's data outgrows the 32-bit
/// sizes; short of that, writing into memory does not fail.
#[verifier::external_body]
fn zip_write_all(w: &mut EpubZipWriter, data: &[u8]) -> (r: bool)
    requires
        zip_written(*old(w)).len() > 0,
        zip_entry_open(*old(w)),
    ensures
        r ==> zip_written(*final(w)) == zip_written(*old(w)).update(
            zip_written(*old(w)).len() - 1,
            (
                zip_written(*old(w)).last().0,
                zip_written(*old(w)).last().1,
                zip_written(*old(w)).last().2 + data@,
            ),
        ),
        r ==> zip_entry_open(*final(w)),
        within_zip32(
            zip_written(*old(w)).update(
                zip_written(*old(w)).len() - 1,
                (
                    zip_written(*old(w)).last().0,
                    zip_written(*old(w)).last().1,
                    zip_written(*old(w)).last().2 + data@,
                ),
            ),
        ) ==> r,
{
    w.inner.write_all(data).is_ok()
}

/// Finishes the archive and returns its bytes (`ZipWriter::finish`). Reading
/// those bytes back gives the written entries, in order. When every entry's
/// data is within the 32-bit sizes, finishing an archive in memory does not
/// fail (an archive past 4 GiB gets the 64-bit end records on its own).
#[verifier::external_body]
fn zip_finish(w: EpubZipWriter) -> (r: Result<Vec<u8>, ZipError>)
    ensures
        r matches Ok(bytes) ==> zip_listing(bytes@) == Some(zip_written(w).map_values(
            |e: (Seq<char>, bool, Seq<u8>)| read_back(e),
        )),
        within_zip32(zip_written(w)) ==> r is Ok,
{
    w.inner.finish().map(|c| c.into_inner())
}

// ---------------------------------------------------------------------------
// Specification
// ---------------------------------------------------------------------------

/// A zip entry name denotes a directory when it ends with `/` or `\`.
pub open spec fn is_dir_name(n: Seq<char>) -> bool {
    n.len() > 0 && (n.last() == '/' || n.last() == '\\')
}

/// The file entries of an archive listing, in order: directories are skipped,
/// and any entry that cannot be opened, or file whose contents cannot be
/// read, makes the whole read fail.
pub open spec fn collect_entries(l: Seq<Option<(Seq<char>, bool, Option<Seq<u8>>)>>) -> Result<
    Seq<(Seq<char>, Seq<u8>)>,
    EpubError,
>
    decreases l.len(),
{
    if l.len() == 0 {
        Ok(Seq::empty())
    } else {
        match collect_entries(l.drop_last()) {
            Err(e) => Err(e),
            Ok(prev) => match l.last() {
                None => Err(EpubError::ZipEntry),
                Some((n, _, d)) => if is_dir_name(n) {
                    Ok(prev)
                } else {
                    match d {
                        Some(d) => Ok(prev.push((n, d))),
                        None => Err(EpubError::ZipEntry),
                    }
                },
            },
        }
    }
}

/// What reading an EPUB's bytes gives: every file entry with its contents.
pub open spec fn read_spec(bytes: Seq<u8>) -> Result<Seq<(Seq<char>, Seq<u8>)>, EpubError> {
    match zip_listing(bytes) {
        None => Err(EpubError::NotAZip),
        Some(l) => collect_entries(l),
    }
}

/// The views of `(path, bytes)` entries.
pub open spec fn entries_view(v: Seq<(String, Vec<u8>)>) -> Seq<(Seq<char>, Seq<u8>)> {
    v.map_values(|e: (String, Vec<u8>)| (e.0@, e.1@))
}

/// The entries an EPUB is written with: a stored `mimetype` holding exactly
/// `application/epub+zip` first, then every given entry except any `mimetype`,
/// deflated, in order.
pub open spec fn epub_layout(entries: Seq<(Seq<char>, Seq<u8>)>) -> Seq<(Seq<char>, bool, Seq<u8>)> {
    seq![(MIMETYPE_ENTRY@, true, EPUB_MIMETYPE.spec_bytes())] + deflated_entries(entries)
}

/// The given entries except `mimetype`, marked deflated.
pub open spec fn deflated_entries(entries: Seq<(Seq<char>, Seq<u8>)>) -> Seq<(Seq<char>, bool, Seq<u8>)>
    decreases entries.len(),
{
    if entries.len() == 0 {
        Seq::empty()
    } else {
        let prev = deflated_entries(entries.drop_last());
        if entries.last().0 == MIMETYPE_ENTRY@ {
            prev
        } else {
            prev.push((entries.last().0, false, entries.last().1))
        }
    }
}

/// The name and stored-ness of an archive's first entry.
pub open spec fn first_entry_spec(bytes: Seq<u8>) -> Result<(Seq<char>, bool), EpubError> {
    match zip_listing(bytes) {
        None => Err(EpubError::NotAZip),
        Some(l) => if l.len() == 0 {
            Err(EpubError::ZipEntry)
        } else {
            match l[0] {
                Some((n, st, _)) => Ok((n, st)),
                None => Err(EpubError::ZipEntry),
            }
        },
    }
}

// ---------------------------------------------------------------------------
// Laws
// ---------------------------------------------------------------------------

/// Every EPUB this library writes starts with the `mimetype` entry, stored
/// uncompressed.
pub proof fn lemma_written_epub_starts_with_stored_mimetype(entries: Seq<(Seq<char>, Seq<u8>)>, bytes: Seq<u8>)
    requires
        zip_listing(bytes) == Some(epub_layout(entries).map_values(
            |e: (Seq<char>, bool, Seq<u8>)| read_back(e),
        )),
    ensures
        first_entry_spec(bytes) == Ok::<(Seq<char>, bool), EpubError>((MIMETYPE_ENTRY@, true)),
{
}

proof fn lemma_deflated_has_no_mimetype(entries: Seq<(Seq<char>, Seq<u8>)>)
    ensures
        forall|i: int|
            0 <= i < deflated_entries(entries).len() ==> (#[trigger] deflated_entries(entries)[i]).0
                != MIMETYPE_ENTRY@,
    decreases entries.len(),
{
    if entries.len() > 0 {
        lemma_deflated_has_no_mimetype(entries.drop_last());
        let prev = deflated_entries(entries.drop_last());
        let d = deflated_entries(entries);
        assert forall|i: int| 0 <= i < d.len() implies (#[trigger] d[i]).0 != MIMETYPE_ENTRY@ by {
            if i < prev.len() {
                assert(d[i] == prev[i]);
            }
        }
    }
}

/// A written EPUB holds the `mimetype` entry exactly once, as its first entry,
/// whatever the given entries held: a provided one is never duplicated.
pub proof fn lemma_written_epub_has_single_mimetype(entries: Seq<(Seq<char>, Seq<u8>)>, bytes: Seq<u8>)
    requires
        zip_listing(bytes) == Some(epub_layout(entries).map_values(
            |e: (Seq<char>, bool, Seq<u8>)| read_back(e),
        )),
    ensures
        ({
            let l = zip_listing(bytes)->Some_0;
            &&& l.len() >= 1
            &&& l[0] matches Some(e) && e.0 == MIMETYPE_ENTRY@
            &&& forall|i: int|
                1 <= i < l.len() ==> ((#[trigger] l[i]) matches Some(e) && e.0 != MIMETYPE_ENTRY@)
        }),
{
    lemma_deflated_has_no_mimetype(entries);
    let l = zip_listing(bytes)->Some_0;
    let lay = epub_layout(entries);
    assert forall|i: int| 1 <= i < l.len() implies ((#[trigger] l[i]) matches Some(e) && e.0
        != MIMETYPE_ENTRY@) by {
        assert(lay[i] == deflated_entries(entries)[i - 1]);
    }
}

/// Reading back a written EPUB gives the mimetype entry followed by every
/// given file entry except `mimetype` (directory names are skipped by readers).
pub proof fn lemma_written_epub_reads_back(entries: Seq<(Seq<char>, Seq<u8>)>, bytes: Seq<u8>)
    requires
        zip_listing(bytes) == Some(epub_layout(entries).map_values(
            |e: (Seq<char>, bool, Seq<u8>)| read_back(e),
        )),
        forall|i: int| 0 <= i < entries.len() ==> !is_dir_name(#[trigger] entries[i].0),
    ensures
        read_spec(bytes) == Ok::<Seq<(Seq<char>, Seq<u8>)>, EpubError>(
            seq![(MIMETYPE_ENTRY@, EPUB_MIMETYPE.spec_bytes())] + deflated_entries(entries).map_values(
                |e: (Seq<char>, bool, Seq<u8>)| (e.0, e.2),
            ),
        ),
{
    reveal_strlit("mimetype");
    assert(!is_dir_name(MIMETYPE_ENTRY@));
    let l = epub_layout(entries).map_values(|e: (Seq<char>, bool, Seq<u8>)| read_back(e));
    lemma_layout_no_dirs(entries);
    lemma_collect_read_back(epub_layout(entries));
    assert(epub_layout(entries).map_values(|e: (Seq<char>, bool, Seq<u8>)| (e.0, e.2))
        =~= seq![(MIMETYPE_ENTRY@, EPUB_MIMETYPE.spec_bytes())] + deflated_entries(
        entries,
    ).map_values(|e: (Seq<char>, bool, Seq<u8>)| (e.0, e.2)));
}

/// Reading an archive yields files only: directory entries are skipped.
pub proof fn lemma_read_entries_are_files(bytes: Seq<u8>)
    ensures
        read_spec(bytes) matches Ok(es) ==> forall|i: int|
            0 <= i < es.len() ==> !is_dir_name(#[trigger] es[i].0),
{
    if let Some(l) = zip_listing(bytes) {
        lemma_collect_files(l);
    }
}

proof fn lemma_collect_files(l: Seq<Option<(Seq<char>, bool, Option<Seq<u8>>)>>)
    ensures
        collect_entries(l) matches Ok(es) ==> forall|i: int|
            0 <= i < es.len() ==> !is_dir_name(#[trigger] es[i].0),
    decreases l.len(),
{
    if l.len() > 0 {
        lemma_collect_files(l.drop_last());
        if let Ok(es) = collect_entries(l) {
            if let Ok(prev) = collect_entries(l.drop_last()) {
                assert forall|i: int| 0 <= i < es.len() implies !is_dir_name(#[trigger] es[i].0) by {
                    if i < prev.len() {
                        assert(es[i] == prev[i]);
                    }
                }
            }
        }
    }
}

proof fn lemma_layout_no_dirs(entries: Seq<(Seq<char>, Seq<u8>)>)
    requires
        forall|i: int| 0 <= i < entries.len() ==> !is_dir_name(#[trigger] entries[i].0),
        !is_dir_name(MIMETYPE_ENTRY@),
    ensures
        forall|i: int|
            0 <= i < epub_layout(entries).len() ==> !is_dir_name(
                #[trigger] epub_layout(entries)[i].0,
            ),
{
    lemma_deflated_no_dirs(entries);
    let d = deflated_entries(entries);
    assert forall|i: int| 0 <= i < epub_layout(entries).len() implies !is_dir_name(
        #[trigger] epub_layout(entries)[i].0,
    ) by {
        if i > 0 {
            assert(epub_layout(entries)[i] == d[i - 1]);
        }
    }
}

proof fn lemma_deflated_no_dirs(entries: Seq<(Seq<char>, Seq<u8>)>)
    requires
        forall|i: int| 0 <= i < entries.len() ==> !is_dir_name(#[trigger] entries[i].0),
    ensures
        forall|i: int|
            0 <= i < deflated_entries(entries).len() ==> !is_dir_name(
                #[trigger] deflated_entries(entries)[i].0,
            ),
    decreases entries.len(),
{
    if entries.len() > 0 {
        let p = entries.drop_last();
        assert forall|i: int| 0 <= i < p.len() implies !is_dir_name(#[trigger] p[i].0) by {
            assert(p[i] == entries[i]);
        }
        lemma_deflated_no_dirs(p);
        assert(!is_dir_name(entries[entries.len() - 1].0));
        let prev = deflated_entries(p);
        let r = deflated_entries(entries);
        assert forall|i: int| 0 <= i < r.len() implies !is_dir_name(#[trigger] r[i].0) by {
            if i < prev.len() {
                assert(r[i] == prev[i]);
            }
        }
    }
}

proof fn lemma_collect_read_back(w: Seq<(Seq<char>, bool, Seq<u8>)>)
    requires
        forall|i: int| 0 <= i < w.len() ==> !is_dir_name(#[trigger] w[i].0),
    ensures
        collect_entries(w.map_values(|e: (Seq<char>, bool, Seq<u8>)| read_back(e))) == Ok::<
            Seq<(Seq<char>, Seq<u8>)>,
            EpubError,
        >(w.map_values(|e: (Seq<char>, bool, Seq<u8>)| (e.0, e.2))),
    decreases w.len(),
{
    let l = w.map_values(|e: (Seq<char>, bool, Seq<u8>)| read_back(e));
    if w.len() > 0 {
        let p = w.drop_last();
        assert forall|i: int| 0 <= i < p.len() implies !is_dir_name(#[trigger] p[i].0) by {
            assert(p[i] == w[i]);
        }
        lemma_collect_read_back(p);
        assert(l.drop_last() =~= p.map_values(|e: (Seq<char>, bool, Seq<u8>)| read_back(e)));
        assert(!is_dir_name(w[w.len() - 1].0));
        assert(w.map_values(|e: (Seq<char>, bool, Seq<u8>)| (e.0, e.2)) =~= p.map_values(
            |e: (Seq<char>, bool, Seq<u8>)| (e.0, e.2),
        ).push((w.last().0, w.last().2)));
    } else {
        assert(w.map_values(|e: (Seq<char>, bool, Seq<u8>)| (e.0, e.2)) =~= Seq::<
            (Seq<char>, Seq<u8>),
        >::empty());
    }
}

// ---------------------------------------------------------------------------
// Executable code
// ---------------------------------------------------------------------------

/// All entries read out of an EPUB zip, preserving their archive paths.
pub struct RawEpub {
    /// Ordered list of (path, bytes) for every entry except directories.
    pub entries: Vec<(String, Vec<u8>)>,
}

/// Predicate: the entry has the given path.
pub open spec fn path_is(path: Seq<char>) -> spec_fn((Seq<char>, Seq<u8>)) -> bool {
    |e: (Seq<char>, Seq<u8>)| e.0 == path
}

/// The bytes of the first entry with the given path.
pub open spec fn lookup(entries: Seq<(Seq<char>, Seq<u8>)>, path: Seq<char>) -> Option<Seq<u8>> {
    let k = first_match(entries, path_is(path));
    if k >= 0 {
        Some(entries[k].1)
    } else {
        None
    }
}

/// Is the name that of a directory entry?
fn name_is_dir(n: &String) -> (r: bool)
    ensures
        r == is_dir_name(n@),
{
    let v = chars_of(n.as_str());
    v.len() > 0 && (v[v.len() - 1] == '/' || v[v.len() - 1] == '\\')
}

impl RawEpub {
    /// Read every file entry from a zip archive into memory.
    pub fn read(bytes: Vec<u8>) -> (r: Result<RawEpub, EpubError>)
        ensures
            match r {
                Ok(raw) => read_spec(bytes@) == Ok::<Seq<(Seq<char>, Seq<u8>)>, EpubError>(
                    entries_view(raw.entries@),
                ),
                Err(e) => read_spec(bytes@) == Err::<Seq<(Seq<char>, Seq<u8>)>, EpubError>(e),
            },
    {
        let ghost b = bytes@;
        let mut archive = match zip_open(bytes) {
            Ok(a) => a,
            Err(_) => return Err(EpubError::NotAZip),
        };
        let ghost l = zip_archive_entries(archive);
        let n = zip_len(&archive);
        let mut entries: Vec<(String, Vec<u8>)> = Vec::new();
        let mut i: usize = 0;
        assert(l.take(0) =~= Seq::<Option<(Seq<char>, bool, Option<Seq<u8>>)>>::empty());
        assert(entries_view(entries@) =~= Seq::<(Seq<char>, Seq<u8>)>::empty());
        while i < n
            invariant
                i <= n == l.len(),
                b == bytes@,
                zip_listing(b) == Some(l),
                zip_archive_entries(archive) == l,
                collect_entries(l.take(i as int)) == Ok::<Seq<(Seq<char>, Seq<u8>)>, EpubError>(
                    entries_view(entries@),
                ),
            decreases n - i,
        {
            assert(l.take(i + 1).drop_last() =~= l.take(i as int));
            assert(l.take(i + 1).last() == l[i as int]);
            let (name, _) = match zip_entry_header(&mut archive, i) {
                Ok(h) => h,
                Err(_) => {
                    proof {
                        assert(collect_entries(l.take(i + 1)) == Err::<
                            Seq<(Seq<char>, Seq<u8>)>,
                            EpubError,
                        >(EpubError::ZipEntry));
                        lemma_collect_err_prefix(l, i as int + 1);
                    }
                    return Err(EpubError::ZipEntry);
                },
            };
            if !name_is_dir(&name) {
                let data = match zip_entry_data(&mut archive, i) {
                    Some(d) => d,
                    None => {
                        proof {
                            lemma_collect_err_prefix(l, i as int + 1);
                        }
                        return Err(EpubError::ZipEntry);
                    },
                };
                let ghost e0 = entries@;
                entries.push((name, data));
                assert(entries_view(entries@) =~= entries_view(e0).push((name@, data@)));
            }
            i = i + 1;
        }
        assert(l.take(n as int) =~= l);
        Ok(RawEpub { entries })
    }

    /// Fetch the bytes of a specific archive entry.
    /// Does every entry name fit a zip header, so that the entries can be
    /// written again?
    pub fn names_fit(&self) -> (r: bool)
        ensures
            r == names_fit(entries_view(self.entries@)),
    {
        let ghost ev = entries_view(self.entries@);
        let mut i: usize = 0;
        while i < self.entries.len()
            invariant
                i <= self.entries@.len(),
                ev == entries_view(self.entries@),
                forall|k: int| 0 <= k < i ==> name_fits(#[trigger] ev[k].0),
            decreases self.entries@.len() - i,
        {
            assert(ev[i as int].0 == self.entries@[i as int].0@);
            if self.entries[i].0.as_str().as_bytes().len() > 0xFFFF {
                assert(!name_fits(ev[i as int].0));
                return false;
            }
            i = i + 1;
        }
        true
    }

    pub fn get(&self, path: &str) -> (r: Option<&[u8]>)
        ensures
            match r {
                Some(b) => lookup(entries_view(self.entries@), path@) == Some(b@),
                None => lookup(entries_view(self.entries@), path@) is None,
            },
    {
        match self.index_of(path) {
            Some(i) => Some(self.entries[i].1.as_slice()),
            None => None,
        }
    }

    fn index_of(&self, path: &str) -> (r: Option<usize>)
        ensures
            r matches Some(i) ==> first_match(entries_view(self.entries@), path_is(path@)) == i
                && i < self.entries@.len(),
            r is None ==> first_match(entries_view(self.entries@), path_is(path@)) == -1,
    {
        let ghost p = path_is(path@);
        let ghost ev = entries_view(self.entries@);
        let pv = chars_of(path);
        let mut i: usize = 0;
        while i < self.entries.len()
            invariant
                i <= self.entries@.len(),
                pv@ == path@,
                p == path_is(path@),
                ev == entries_view(self.entries@),
                forall|j: int| 0 <= j < i ==> !p(#[trigger] ev[j]),
            decreases self.entries@.len() - i,
        {
            let nv = chars_of(self.entries[i].0.as_str());
            assert(ev[i as int].0 == self.entries@[i as int].0@);
            if chars_eq(nv.as_slice(), pv.as_slice()) {
                proof {
                    lemma_first_match(ev, p, i as int);
                }
                return Some(i);
            }
            i = i + 1;
        }
        proof {
            lemma_first_match(ev, p, i as int);
        }
        None
    }

    /// Fetch an entry decoded as UTF-8 (lossy), for XML/text documents.
    pub fn get_str(&self, path: &str) -> (r: Option<String>)
        ensures
            match r {
                Some(s) => lookup(entries_view(self.entries@), path@) matches Some(b) && s@ == utf8_lossy(b),
                None => lookup(entries_view(self.entries@), path@) is None,
            },
    {
        match self.get(path) {
            Some(b) => Some(decode_utf8_lossy(b)),
            None => None,
        }
    }

    /// Replace (or add) an entry's bytes, keeping overall order stable.
    pub fn set(&mut self, path: &str, bytes: Vec<u8>)
        ensures
            ({
                let k = first_match(entries_view(old(self).entries@), path_is(path@));
                &&& k >= 0 ==> entries_view(final(self).entries@) == entries_view(
                    old(self).entries@,
                ).update(k, (path@, bytes@))
                &&& k < 0 ==> entries_view(final(self).entries@) == entries_view(
                    old(self).entries@,
                ).push((path@, bytes@))
            }),
    {
        let ghost before = self.entries@;
        match self.index_of(path) {
            Some(i) => {
                let name = string_of(chars_of(path).as_slice());
                self.entries.set(i, (name, bytes));
                assert(entries_view(self.entries@) =~= entries_view(before).update(
                    i as int,
                    (path@, bytes@),
                ));
            },
            None => {
                let name = string_of(chars_of(path).as_slice());
                self.entries.push((name, bytes));
                assert(entries_view(self.entries@) =~= entries_view(before).push((path@, bytes@)));
            },
        }
    }
}

proof fn lemma_collect_err_prefix(l: Seq<Option<(Seq<char>, bool, Option<Seq<u8>>)>>, k: int)
    requires
        0 < k <= l.len(),
        collect_entries(l.take(k)) is Err,
    ensures
        collect_entries(l) == collect_entries(l.take(k)),
    decreases l.len() - k,
{
    if k < l.len() {
        assert(l.take(k + 1).drop_last() =~= l.take(k));
        lemma_collect_err_prefix(l, k + 1);
    } else {
        assert(l.take(k) =~= l);
    }
}

/// A UTF-8 encoding takes at most four bytes per character.
pub proof fn lemma_encode_utf8_len(s: Seq<char>)
    ensures
        vstd::utf8::encode_utf8(s).len() <= 4 * s.len(),
    decreases s.len(),
{
    if s.len() > 0 {
        lemma_encode_utf8_len(s.drop_first());
    }
}

proof fn lemma_deflated_prefix(s: Seq<(Seq<char>, Seq<u8>)>, i: int)
    requires
        0 <= i <= s.len(),
    ensures
        deflated_entries(s.take(i)).len() <= deflated_entries(s).len(),
        deflated_entries(s.take(i)) == deflated_entries(s).take(
            deflated_entries(s.take(i)).len() as int,
        ),
    decreases s.len(),
{
    if i == s.len() {
        assert(s.take(i) =~= s);
        assert(deflated_entries(s).take(deflated_entries(s).len() as int) =~= deflated_entries(s));
    } else {
        lemma_deflated_prefix(s.drop_last(), i);
        assert(s.drop_last().take(i) =~= s.take(i));
        let p = deflated_entries(s.take(i));
        let d1 = deflated_entries(s.drop_last());
        let d = deflated_entries(s);
        assert(d.take(p.len() as int) =~= d1.take(p.len() as int));
    }
}

/// The layout of the first `i` entries is the start of the layout of all.
proof fn lemma_layout_prefix(s: Seq<(Seq<char>, Seq<u8>)>, i: int)
    requires
        0 <= i <= s.len(),
    ensures
        epub_layout(s.take(i)).len() <= epub_layout(s).len(),
        epub_layout(s.take(i)) == epub_layout(s).take(epub_layout(s.take(i)).len() as int),
{
    lemma_deflated_prefix(s, i);
    let m = epub_layout(s.take(i)).len() as int;
    assert(epub_layout(s).take(m) =~= seq![(MIMETYPE_ENTRY@, true, EPUB_MIMETYPE.spec_bytes())]
        + deflated_entries(s).take(m - 1));
}

proof fn lemma_deflated_without_mimetype(entries: Seq<(Seq<char>, Seq<u8>)>)
    requires
        forall|i: int| 0 <= i < entries.len() ==> (#[trigger] entries[i]).0 != MIMETYPE_ENTRY@,
    ensures
        deflated_entries(entries) == entries.map_values(
            |e: (Seq<char>, Seq<u8>)| (e.0, false, e.1),
        ),
    decreases entries.len(),
{
    if entries.len() > 0 {
        lemma_deflated_without_mimetype(entries.drop_last());
        assert(entries.map_values(|e: (Seq<char>, Seq<u8>)| (e.0, false, e.1)) =~= entries.drop_last().map_values(
            |e: (Seq<char>, Seq<u8>)| (e.0, false, e.1),
        ).push((entries.last().0, false, entries.last().1)));
    }
}

/// Entries with pairwise distinct names, none of them `mimetype`, are written
/// with pairwise distinct names.
pub proof fn lemma_layout_distinct(entries: Seq<(Seq<char>, Seq<u8>)>)
    requires
        forall|i: int| 0 <= i < entries.len() ==> (#[trigger] entries[i]).0 != MIMETYPE_ENTRY@,
        forall|i: int, j: int|
            0 <= i < j < entries.len() ==> (#[trigger] entries[i]).0 != (#[trigger] entries[j]).0,
    ensures
        distinct_names(epub_layout(entries)),
{
    lemma_deflated_without_mimetype(entries);
    let l = epub_layout(entries);
    assert forall|i: int, j: int| 0 <= i < j < l.len() implies #[trigger] l[i].0 != #[trigger] l[j].0 by {
        if i == 0 {
            assert(l[j].0 == entries[j - 1].0);
        } else {
            assert(l[i].0 == entries[i - 1].0);
            assert(l[j].0 == entries[j - 1].0);
        }
    }
}

proof fn lemma_deflated_within(entries: Seq<(Seq<char>, Seq<u8>)>)
    requires
        forall|i: int| 0 <= i < entries.len() ==> data_within_zip32(#[trigger] entries[i].1),
    ensures
        within_zip32(deflated_entries(entries)),
    decreases entries.len(),
{
    if entries.len() > 0 {
        let p = entries.drop_last();
        assert forall|i: int| 0 <= i < p.len() implies data_within_zip32(#[trigger] p[i].1) by {
            assert(p[i] == entries[i]);
        }
        lemma_deflated_within(p);
        assert(data_within_zip32(entries[entries.len() - 1].1));
        let d = deflated_entries(entries);
        let dp = deflated_entries(p);
        assert forall|i: int| 0 <= i < d.len() implies data_within_zip32(#[trigger] d[i].2) by {
            if i < dp.len() {
                assert(d[i] == dp[i]);
            }
        }
    }
}

/// Entries whose data each stay within the 32-bit zip sizes are written within
/// them.
pub proof fn lemma_layout_within(entries: Seq<(Seq<char>, Seq<u8>)>)
    requires
        forall|i: int| 0 <= i < entries.len() ==> data_within_zip32(#[trigger] entries[i].1),
    ensures
        within_zip32(epub_layout(entries)),
{
    reveal_strlit("application/epub+zip");
    lemma_encode_utf8_len(EPUB_MIMETYPE@);
    lemma_deflated_within(entries);
    let l = epub_layout(entries);
    let d = deflated_entries(entries);
    assert forall|i: int| 0 <= i < l.len() implies data_within_zip32(#[trigger] l[i].2) by {
        if i > 0 {
            assert(l[i] == d[i - 1]);
        }
    }
}

/// Every entry name of `entries` fits a zip header.
pub open spec fn names_fit(entries: Seq<(Seq<char>, Seq<u8>)>) -> bool {
    forall|i: int| 0 <= i < entries.len() ==> name_fits(#[trigger] entries[i].0)
}

/// Convenience: serialize an EPUB to an in-memory byte buffer, the `mimetype`
/// entry first and stored, every other entry deflated. It succeeds when the
/// names are distinct and the entries stay within the 32-bit zip sizes.
pub fn write_epub_to_vec(entries: &Vec<(String, Vec<u8>)>) -> (r: Result<Vec<u8>, EpubError>)
    requires
        names_fit(entries_view(entries@)),
    ensures
        r matches Ok(bytes) ==> zip_listing(bytes@) == Some(epub_layout(entries_view(entries@)).map_values(
            |e: (Seq<char>, bool, Seq<u8>)| read_back(e),
        )),
        r matches Err(e) ==> e == EpubError::ZipWrite,
        r is Ok ==> distinct_names(epub_layout(entries_view(entries@))),
        distinct_names(epub_layout(entries_view(entries@))) && within_zip32(
            epub_layout(entries_view(entries@)),
        ) ==> r is Ok,
{
    let ghost ev = entries_view(entries@);
    let ghost lay = epub_layout(ev);
    let ghost good = distinct_names(lay) && within_zip32(lay);
    let mut zip = zip_writer_new();
    proof {
        reveal_strlit("mimetype");
        lemma_encode_utf8_len(MIMETYPE_ENTRY@);
        lemma_layout_prefix(ev, 0);
        assert(ev.take(0) =~= Seq::<(Seq<char>, Seq<u8>)>::empty());
        assert(lay.take(1) =~= seq![(MIMETYPE_ENTRY@, true, EPUB_MIMETYPE.spec_bytes())]);
        lemma_encode_utf8_len(EPUB_MIMETYPE@);
        reveal_strlit("application/epub+zip");
        assert(lay[0] == (MIMETYPE_ENTRY@, true, EPUB_MIMETYPE.spec_bytes()));
        assert(Seq::<(Seq<char>, bool, Seq<u8>)>::empty().push(
            (MIMETYPE_ENTRY@, true, Seq::<u8>::empty()),
        ) =~= seq![(MIMETYPE_ENTRY@, true, Seq::<u8>::empty())]);
    }
    // 1. mimetype FIRST, STORED, no extra field.
    if zip_start_file(&mut zip, MIMETYPE_ENTRY, true, ENTRY_PERMISSIONS).is_err() {
        return Err(EpubError::ZipWrite);
    }
    proof {
        assert(zip_written(zip).update(
            0,
            (zip_written(zip).last().0, zip_written(zip).last().1, zip_written(zip).last().2
                + EPUB_MIMETYPE.spec_bytes()),
        ) =~= lay.take(1));
    }
    if !zip_write_all(&mut zip, EPUB_MIMETYPE.as_bytes()) {
        return Err(EpubError::ZipWrite);
    }
    assert(zip_written(zip) =~= seq![(MIMETYPE_ENTRY@, true, EPUB_MIMETYPE.spec_bytes())]);
    // 2. Everything else, deflated.
    let mut i: usize = 0;
    assert(ev.take(0) =~= Seq::<(Seq<char>, Seq<u8>)>::empty());
    assert(zip_written(zip) =~= epub_layout(ev.take(0)));
    while i < entries.len()
        invariant
            i <= entries@.len(),
            ev == entries_view(entries@),
            lay == epub_layout(ev),
            good == (distinct_names(lay) && within_zip32(lay)),
            names_fit(ev),
            zip_written(zip) == epub_layout(ev.take(i as int)),
            distinct_names(zip_written(zip)),
            zip_entry_open(zip),
        decreases entries@.len() - i,
    {
        let (path, bytes) = &entries[i];
        assert(ev.take(i + 1).drop_last() =~= ev.take(i as int));
        assert(ev.take(i + 1).last() == (path@, bytes@));
        assert(ev[i as int] == (path@, bytes@));
        if str_eq(path.as_str(), MIMETYPE_ENTRY) {
            // never duplicate the mimetype
        } else {
            let ghost before = zip_written(zip);
            let ghost after = epub_layout(ev.take(i + 1));
            proof {
                assert(after =~= before.push((path@, false, bytes@)));
                if good {
                    lemma_layout_prefix(ev, i + 1);
                    let m = after.len() as int;
                    assert(after == lay.take(m));
                    assert forall|k: int| 0 <= k < m implies data_within_zip32(
                        #[trigger] after[k].2,
                    ) by {
                        assert(after[k] == lay[k]);
                    }
                    assert forall|k: int| 0 <= k < before.len() implies #[trigger] before[k].0
                        != path@ by {
                        assert(before[k] == after[k]);
                        assert(after[k] == lay[k]);
                        assert(after[m - 1] == lay[m - 1]);
                        assert(after[m - 1].0 == path@);
                        assert(k < m - 1);
                        assert(lay[k].0 != lay[m - 1].0);
                    }
                    assert(before.push((path@, false, Seq::<u8>::empty())).drop_last() =~= before);
                    assert(after.drop_last() =~= before);
                }
            }
            if zip_start_file(&mut zip, path.as_str(), false, ENTRY_PERMISSIONS).is_err() {
                return Err(EpubError::ZipWrite);
            }
            proof {
                assert(zip_written(zip).update(
                    zip_written(zip).len() - 1,
                    (zip_written(zip).last().0, zip_written(zip).last().1, zip_written(zip).last().2
                        + bytes@),
                ) =~= after);
                if good {
                    lemma_layout_prefix(ev, i + 1);
                    let m = after.len() as int;
                    assert forall|k: int| 0 <= k < m implies data_within_zip32(
                        #[trigger] after[k].2,
                    ) by {
                        assert(after[k] == lay[k]);
                    }
                }
            }
            if !zip_write_all(&mut zip, bytes.as_slice()) {
                return Err(EpubError::ZipWrite);
            }
            assert(zip_written(zip) =~= epub_layout(ev.take(i + 1)));
            assert forall|a: int, b: int|
                0 <= a < b < zip_written(zip).len() implies #[trigger] zip_written(zip)[a].0
                != #[trigger] zip_written(zip)[b].0 by {
                if b == before.len() {
                    assert(zip_written(zip)[a] == before[a]);
                    if before[a].0 == path@ {
                        assert(name_taken(before, path@));
                    }
                } else {
                    assert(zip_written(zip)[a] == before[a]);
                    assert(zip_written(zip)[b] == before[b]);
                }
            }
        }
        i = i + 1;
    }
    assert(ev.take(entries@.len() as int) =~= ev);
    match zip_finish(zip) {
        Ok(b) => Ok(b),
        Err(_) => Err(EpubError::ZipWrite),
    }
}

/// Report, for a serialized EPUB byte buffer, the name of the first entry and
/// whether it is stored (uncompressed).
pub fn first_entry_info(epub_bytes: &[u8]) -> (r: Result<(String, bool), EpubError>)
    ensures
        match r {
            Ok((n, st)) => first_entry_spec(epub_bytes@) == Ok::<(Seq<char>, bool), EpubError>(
                (n@, st),
            ),
            Err(e) => first_entry_spec(epub_bytes@) == Err::<(Seq<char>, bool), EpubError>(e),
        },
{
    let copy = crate::chars::bytes_to_vec(epub_bytes);
    let mut archive = match zip_open(copy) {
        Ok(a) => a,
        Err(_) => return Err(EpubError::NotAZip),
    };
    if zip_len(&archive) == 0 {
        return Err(EpubError::ZipEntry);
    }
    match zip_entry_header(&mut archive, 0) {
        Ok(h) => Ok(h),
        Err(_) => Err(EpubError::ZipEntry),
    }
}

} // verus!
