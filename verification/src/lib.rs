//! `epub-tools` library core.
//!
//! Opens an EPUB (a zip), reads `META-INF/container.xml` to locate the OPF
//! package document, parses its Dublin Core metadata / manifest / spine, extracts
//! readable text from the spine documents, reads the TOC (EPUB 3 nav or EPUB 2
//! NCX), and repackages an edited EPUB while honoring the mimetype-first-and-
//! stored OCF rule.

use vstd::prelude::*;
use vstd::string::StringSliceAdditionalSpecFns;

pub mod chars;
pub mod container;
pub mod edit;
pub mod error;
pub mod fixture;
pub mod model;
pub mod nav;
pub mod opf;
pub mod package;
pub mod text;
pub mod util;
pub mod xml;

pub use edit::MetadataEdit;
pub use error::EpubError;
pub use model::{ManifestItem, Metadata, Package, SpineItem, TocEntry};

use crate::chars::{
    ascii_lower_seq, bytes_to_vec, chars_ascii_lower, chars_eq_str, chars_of, decode_utf8_lossy,
    extend_str, string_of, trim, trim_chars, utf8_lossy,
};
use crate::container::{container_outcome, parse_container, CONTAINER_PATH};
use crate::edit::{apply_edit_spec, apply_metadata_edit};
use crate::model::{
    cover_item_of, find_item, nav_token, ncx_item_of, property_is, spine_items_of, toc_view,
    TocEntryView,
};
use crate::nav::{nav_entries, ncx_entries, parse_nav_xhtml, parse_ncx, prefers_toc};
use crate::opf::{opf_outcome, parse_opf};
use crate::package::{
    deflated_entries, distinct_names, entries_view, epub_layout, names_fit, within_zip32, first_entry_spec, is_dir_name, lookup, read_back,
    read_spec, write_epub_to_vec, zip_listing, RawEpub, EPUB_MIMETYPE, MIMETYPE_ENTRY,
};
use crate::text::{text_of_events, xhtml_to_text};
use crate::util::{last_index_of, resolve_href_raw, resolve_spec};
use crate::xml::{stream_events, xml_event_stream};

verus! {

// ---------------------------------------------------------------------------
// Cover images
// ---------------------------------------------------------------------------

/// An EPUB's cover image: where it lives in the archive, its media type, and
/// its raw bytes.
#[derive(Debug, Clone)]
pub struct Cover {
    /// Full archive path of the cover resource.
    pub resolved_path: String,
    /// The manifest media type, e.g. `image/jpeg`.
    pub media_type: String,
    /// The raw image bytes.
    pub bytes: Vec<u8>,
}

/// Why no cover image could be extracted.
#[derive(Debug, Clone, PartialEq, Eq)]
pub enum CoverError {
    /// The book declares no cover at all.
    NotDeclared,
    /// A cover is declared but the declaration leads to no image resource
    /// (a `<meta name="cover">` naming no manifest item, or a guide reference
    /// to a wrapper page). Holds the declared id or href.
    Unresolvable(String),
    /// The declared cover resource is absent from the archive. Holds its path.
    Missing(String),
}

/// The file extension a media type is known by.
pub open spec fn known_extension(mt: Seq<char>) -> Option<Seq<char>> {
    if mt == "image/jpeg"@ || mt == "image/jpg"@ {
        Some("jpg"@)
    } else if mt == "image/png"@ {
        Some("png"@)
    } else if mt == "image/gif"@ {
        Some("gif"@)
    } else if mt == "image/svg+xml"@ {
        Some("svg"@)
    } else if mt == "image/webp"@ {
        Some("webp"@)
    } else if mt == "image/tiff"@ {
        Some("tiff"@)
    } else if mt == "image/bmp"@ {
        Some("bmp"@)
    } else {
        None
    }
}

/// The last `/`-separated segment of a path.
pub open spec fn last_segment(p: Seq<char>) -> Seq<char> {
    p.skip(last_index_of(p, '/') + 1)
}

/// The part of a file name after its last `.`, if it has one.
pub open spec fn name_extension(name: Seq<char>) -> Option<Seq<char>> {
    let i = last_index_of(name, '.');
    if i >= 0 {
        Some(name.skip(i + 1))
    } else {
        None
    }
}

/// The extension for saving a cover: from the (trimmed, lowercased) media type
/// when it is a known image type, else the lowercased extension of the file
/// name when it is non-empty and at most five bytes long, else `img`.
pub open spec fn extension_spec(media_type: Seq<char>, path: Seq<char>) -> Seq<char> {
    match known_extension(ascii_lower_seq(trim(media_type))) {
        Some(e) => e,
        None => match name_extension(last_segment(path)) {
            Some(e) if e.len() > 0 && vstd::utf8::encode_utf8(e).len() <= 5 => ascii_lower_seq(e),
            _ => "img"@,
        },
    }
}

impl Cover {
    /// A sensible lowercase file extension (no dot) for saving the cover,
    /// derived from the media type and falling back to the archive path's own
    /// extension, or `"img"` if nothing better is known.
    pub fn extension(&self) -> (r: String)
        ensures
            r@ == extension_spec(self.media_type@, self.resolved_path@),
    {
        let mt = chars_of(self.media_type.as_str());
        let t = trim_chars(mt.as_slice());
        let l = chars_ascii_lower(t.as_slice());
        if chars_eq_str(l.as_slice(), "image/jpeg") || chars_eq_str(l.as_slice(), "image/jpg") {
            return "jpg".to_owned();
        }
        if chars_eq_str(l.as_slice(), "image/png") {
            return "png".to_owned();
        }
        if chars_eq_str(l.as_slice(), "image/gif") {
            return "gif".to_owned();
        }
        if chars_eq_str(l.as_slice(), "image/svg+xml") {
            return "svg".to_owned();
        }
        if chars_eq_str(l.as_slice(), "image/webp") {
            return "webp".to_owned();
        }
        if chars_eq_str(l.as_slice(), "image/tiff") {
            return "tiff".to_owned();
        }
        if chars_eq_str(l.as_slice(), "image/bmp") {
            return "bmp".to_owned();
        }
        // Fall back to the extension of the resource's own filename, lowercased.
        let p = chars_of(self.resolved_path.as_str());
        let slash = last_index(p.as_slice(), '/');
        let name = tail_from(p.as_slice(), slash);
        let dot = last_index(name.as_slice(), '.');
        if dot == 0 {
            return "img".to_owned();
        }
        let ext = tail_from(name.as_slice(), dot);
        let ext_s = string_of(ext.as_slice());
        let n = ext_s.as_str().as_bytes().len();
        if ext.len() == 0 || n > 5 {
            return "img".to_owned();
        }
        let lower = chars_ascii_lower(ext.as_slice());
        string_of(lower.as_slice())
    }
}

/// One more than the index of the last `c` in `s` (0 when absent).
fn last_index(s: &[char], c: char) -> (r: usize)
    ensures
        r as int == last_index_of(s@, c) + 1,
        r <= s@.len(),
{
    let mut i: usize = s.len();
    while i > 0 && s[i - 1] != c
        invariant
            i <= s@.len(),
            forall|j: int| i <= j < s@.len() ==> s@[j] != c,
        decreases i,
    {
        i = i - 1;
    }
    proof {
        crate::util::lemma_last_index_of_pub(s@, c, i - 1);
    }
    i
}

/// `s[from..]` as an owned vector.
fn tail_from(s: &[char], from: usize) -> (r: Vec<char>)
    requires
        from <= s@.len(),
    ensures
        r@ == s@.skip(from as int),
{
    let mut out: Vec<char> = Vec::new();
    let mut k: usize = from;
    while k < s.len()
        invariant
            from <= k <= s@.len(),
            out@ == s@.subrange(from as int, k as int),
        decreases s@.len() - k,
    {
        out.push(s[k]);
        assert(s@.subrange(from as int, k + 1) =~= s@.subrange(from as int, k as int).push(
            s@[k as int],
        ));
        k = k + 1;
    }
    assert(s@.subrange(from as int, s@.len() as int) =~= s@.skip(from as int));
    out
}

// ---------------------------------------------------------------------------
// Specification of a loaded book
// ---------------------------------------------------------------------------

/// Errors of opening a book, with the missing OPF path as a view.
pub enum OpenErrorView {
    Plain(EpubError),
    MissingOpf(Seq<char>),
}

/// The view of an opening error.
pub open spec fn open_error_view(e: EpubError) -> OpenErrorView {
    match e {
        EpubError::MissingOpf(p) => OpenErrorView::MissingOpf(p@),
        _ => OpenErrorView::Plain(e),
    }
}

/// What opening an EPUB's bytes yields: its file entries and its package.
pub open spec fn open_spec(bytes: Seq<u8>) -> Result<
    (Seq<(Seq<char>, Seq<u8>)>, model::PackageView),
    OpenErrorView,
> {
    match read_spec(bytes) {
        Err(e) => Err(open_error_view(e)),
        Ok(entries) => match lookup(entries, CONTAINER_PATH@) {
            None => Err(OpenErrorView::Plain(EpubError::MissingContainer)),
            Some(cb) => match container_outcome(
                stream_events(xml_event_stream(utf8_lossy(cb), true, true)),
            ) {
                Err(e) => Err(open_error_view(e)),
                Ok(opf_path) => match lookup(entries, opf_path) {
                    None => Err(OpenErrorView::MissingOpf(opf_path)),
                    Some(ob) => match opf_outcome(
                        stream_events(xml_event_stream(utf8_lossy(ob), false, true)),
                        opf_path,
                    ) {
                        Err(e) => Err(open_error_view(e)),
                        Ok(pkg) => Ok((entries, pkg)),
                    },
                },
            },
        },
    }
}

/// The plain text of a stored XHTML document.
pub open spec fn doc_text(bytes: Seq<u8>) -> Seq<char> {
    text_of_events(stream_events(xml_event_stream(utf8_lossy(bytes), false, false)))
}

/// The text of the document at `path`, if the archive holds it.
pub open spec fn chapter_text_spec(entries: Seq<(Seq<char>, Seq<u8>)>, path: Seq<char>) -> Option<
    Seq<char>,
> {
    match lookup(entries, path) {
        Some(b) => Some(doc_text(b)),
        None => None,
    }
}

/// The non-empty texts of the given documents, in order.
pub open spec fn text_parts(entries: Seq<(Seq<char>, Seq<u8>)>, items: Seq<ManifestItem>) -> Seq<
    Seq<char>,
>
    decreases items.len(),
{
    if items.len() == 0 {
        Seq::empty()
    } else {
        let prev = text_parts(entries, items.drop_last());
        match chapter_text_spec(entries, items.last().resolved_path@) {
            Some(t) => if t.len() > 0 {
                prev.push(t)
            } else {
                prev
            },
            None => prev,
        }
    }
}

/// The text that `chapter_text` gives for a document: its text, or nothing
/// when the archive lacks it.
pub open spec fn chapter_text_or_empty(entries: Seq<(Seq<char>, Seq<u8>)>, item: ManifestItem) -> Seq<
    char,
> {
    match chapter_text_spec(entries, item.resolved_path@) {
        Some(t) => t,
        None => Seq::empty(),
    }
}

/// The full text is made of the chapter texts, in reading order, with the
/// empty ones left out: `full_text` joins exactly these by blank lines.
pub proof fn lemma_full_text_parts_are_chapter_texts(
    entries: Seq<(Seq<char>, Seq<u8>)>,
    items: Seq<ManifestItem>,
)
    ensures
        text_parts(entries, items) == items.map_values(
            |it: ManifestItem| chapter_text_or_empty(entries, it),
        ).filter(|t: Seq<char>| t.len() > 0),
    decreases items.len(),
{
    reveal(Seq::filter);
    let f = |it: ManifestItem| chapter_text_or_empty(entries, it);
    if items.len() > 0 {
        lemma_full_text_parts_are_chapter_texts(entries, items.drop_last());
        assert(items.map_values(f).drop_last() =~= items.drop_last().map_values(f));
    } else {
        assert(items.map_values(f) =~= Seq::<Seq<char>>::empty());
    }
}

/// Parts joined by a separator.
pub open spec fn join_with(parts: Seq<Seq<char>>, sep: Seq<char>) -> Seq<char>
    decreases parts.len(),
{
    if parts.len() == 0 {
        Seq::empty()
    } else if parts.len() == 1 {
        parts[0]
    } else {
        join_with(parts.drop_last(), sep) + sep + parts.last()
    }
}

/// The table of contents: the EPUB 3 nav document's when it has entries, else
/// the EPUB 2 NCX's, else none.
pub open spec fn toc_spec(pkg: Package, entries: Seq<(Seq<char>, Seq<u8>)>) -> Seq<TocEntryView> {
    let from_nav = match find_item(pkg.manifest@, property_is(nav_token())) {
        Some(nav) => match lookup(entries, nav.resolved_path@) {
            Some(b) => nav_entries(
                stream_events(xml_event_stream(utf8_lossy(b), false, false)),
                prefers_toc(utf8_lossy(b)),
            ),
            None => Seq::empty(),
        },
        None => Seq::empty(),
    };
    if from_nav.len() > 0 {
        from_nav
    } else {
        match ncx_item_of(pkg) {
            Some(ncx) => match lookup(entries, ncx.resolved_path@) {
                Some(b) => ncx_entries(stream_events(xml_event_stream(utf8_lossy(b), false, false))),
                None => Seq::empty(),
            },
            None => Seq::empty(),
        }
    }
}

/// The view of a cover result: path, media type and bytes, or the error.
pub enum CoverView {
    Found(Seq<char>, Seq<char>, Seq<u8>),
    NotDeclared,
    Unresolvable(Seq<char>),
    Missing(Seq<char>),
}

/// The view of a cover lookup's result.
pub open spec fn cover_result_view(r: Result<Cover, CoverError>) -> CoverView {
    match r {
        Ok(c) => CoverView::Found(c.resolved_path@, c.media_type@, c.bytes@),
        Err(CoverError::NotDeclared) => CoverView::NotDeclared,
        Err(CoverError::Unresolvable(s)) => CoverView::Unresolvable(s@),
        Err(CoverError::Missing(s)) => CoverView::Missing(s@),
    }
}

/// The cover image: the declared item's resource, looked up first under its
/// percent-decoded path and then under its literal path; a `<meta name="cover">`
/// naming no item, or a guide-only cover reference, cannot be resolved.
pub open spec fn cover_spec(pkg: Package, entries: Seq<(Seq<char>, Seq<u8>)>) -> CoverView {
    match cover_item_of(pkg) {
        Some(item) => match lookup(entries, item.resolved_path@) {
            Some(b) => CoverView::Found(item.resolved_path@, item.media_type@, b),
            None => {
                let rawp = resolve_spec(pkg.opf_path@, item.href@, false);
                match lookup(entries, rawp) {
                    Some(b) => CoverView::Found(rawp, item.media_type@, b),
                    None => CoverView::Missing(item.resolved_path@),
                }
            },
        },
        None => match pkg.cover_id {
            Some(id) => CoverView::Unresolvable(id@),
            None => match pkg.guide_cover_href {
                Some(h) => CoverView::Unresolvable(h@),
                None => CoverView::NotDeclared,
            },
        },
    }
}

/// Entries with the contents of every entry at `path` replaced.
pub open spec fn replace_entry(entries: Seq<(Seq<char>, Seq<u8>)>, path: Seq<char>, bytes: Seq<u8>) -> Seq<
    (Seq<char>, Seq<u8>),
> {
    entries.map_values(
        |e: (Seq<char>, Seq<u8>)|
            if e.0 == path {
                (e.0, bytes)
            } else {
                e
            },
    )
}

/// The entries a metadata edit writes: the archive's entries with the OPF
/// replaced by its edited text.
pub open spec fn edited_entries(
    entries: Seq<(Seq<char>, Seq<u8>)>,
    opf_path: Seq<char>,
    edit: MetadataEdit,
) -> Result<Seq<(Seq<char>, Seq<u8>)>, EpubError> {
    match lookup(entries, opf_path) {
        None => Err(EpubError::OpfDisappeared),
        Some(ob) => match apply_edit_spec(utf8_lossy(ob), edit) {
            Err(e) => Err(e),
            Ok(new_opf) => Ok(replace_entry(entries, opf_path, vstd::utf8::encode_utf8(new_opf))),
        },
    }
}

/// What a metadata edit writes reads back as the canonical `mimetype` entry
/// followed by every other entry of the book, in order, with the OPF's
/// contents replaced by its edited text.
pub proof fn lemma_edited_book_reads_back(
    book: Seq<u8>,
    opf_path: Seq<char>,
    edit: MetadataEdit,
    bytes: Seq<u8>,
)
    requires
        read_spec(book) is Ok,
        edited_entries(read_spec(book)->Ok_0, opf_path, edit) is Ok,
        zip_listing(bytes) == Some(
            epub_layout(edited_entries(read_spec(book)->Ok_0, opf_path, edit)->Ok_0).map_values(
                |e: (Seq<char>, bool, Seq<u8>)| read_back(e),
            ),
        ),
    ensures
        read_spec(bytes) == Ok::<Seq<(Seq<char>, Seq<u8>)>, EpubError>(
            seq![(MIMETYPE_ENTRY@, EPUB_MIMETYPE.spec_bytes())] + deflated_entries(
                edited_entries(read_spec(book)->Ok_0, opf_path, edit)->Ok_0,
            ).map_values(|e: (Seq<char>, bool, Seq<u8>)| (e.0, e.2)),
        ),
{
    let entries = read_spec(book)->Ok_0;
    let out = edited_entries(entries, opf_path, edit)->Ok_0;
    package::lemma_read_entries_are_files(book);
    assert forall|i: int| 0 <= i < out.len() implies !is_dir_name(#[trigger] out[i].0) by {
        assert(out[i].0 == entries[i].0);
    }
    package::lemma_written_epub_reads_back(out, bytes);
}

// ---------------------------------------------------------------------------
// The metadata report
// ---------------------------------------------------------------------------

/// A field's value, or `(none)` when absent.
pub open spec fn or_none(o: Option<Seq<char>>) -> Seq<char> {
    match o {
        Some(s) => s,
        None => "(none)"@,
    }
}

/// The values joined by `, `, or `(none)` when there are none.
pub open spec fn list_or_none(v: Seq<Seq<char>>) -> Seq<char> {
    if v.len() == 0 {
        "(none)"@
    } else {
        join_with(v, ", "@)
    }
}

/// The metadata report: one labelled line per Dublin Core field, absent
/// fields shown as `(none)`, repeated fields joined by `, `, and the
/// description only when there is one.
pub open spec fn info_report_spec(md: model::MetadataView) -> Seq<char> {
    "Title:      "@ + or_none(md.title) + "\n"@ + "Author(s):  "@ + list_or_none(md.creators)
        + "\n"@ + "Language:   "@ + list_or_none(md.languages) + "\n"@ + "Identifier: "@
        + or_none(md.identifier) + "\n"@ + "Publisher:  "@ + or_none(md.publisher) + "\n"@
        + "Date:       "@ + or_none(md.date) + "\n"@ + match md.description {
        Some(d) => "Description: "@ + d + "\n"@,
        None => Seq::empty(),
    }
}

fn push_or_none(out: &mut Vec<char>, o: &Option<String>)
    ensures
        final(out)@ == old(out)@ + or_none(model::opt_str(*o)),
{
    match o {
        Some(s) => extend_str(out, s.as_str()),
        None => extend_str(out, "(none)"),
    }
}

fn push_list_or_none(out: &mut Vec<char>, v: &Vec<String>)
    ensures
        final(out)@ == old(out)@ + list_or_none(model::strings_view(v@)),
{
    let ghost before = out@;
    let ghost all = model::strings_view(v@);
    if v.len() == 0 {
        extend_str(out, "(none)");
        return;
    }
    let mut i: usize = 0;
    assert(all.take(0) =~= Seq::<Seq<char>>::empty());
    assert(out@ =~= before + join_with(all.take(0), ", "@));
    while i < v.len()
        invariant
            i <= v@.len(),
            all == model::strings_view(v@),
            out@ == before + join_with(all.take(i as int), ", "@),
        decreases v@.len() - i,
    {
        let ghost prev = out@;
        assert(all.take(i + 1).drop_last() =~= all.take(i as int));
        assert(all.take(i + 1).last() == v@[i as int]@);
        if i > 0 {
            extend_str(out, ", ");
        }
        extend_str(out, v[i].as_str());
        proof {
            if i == 0 {
                assert(all.take(1) =~= seq![v@[0]@]);
                assert(out@ =~= before + v@[0]@);
            } else {
                assert(out@ =~= before + (join_with(all.take(i as int), ", "@) + ", "@
                    + v@[i as int]@));
            }
        }
        i = i + 1;
    }
    assert(all.take(v@.len() as int) =~= all);
}

/// The metadata report shown by the `info` command.
pub fn info_report(md: &Metadata) -> (r: String)
    ensures
        r@ == info_report_spec(md@),
{
    let mut out: Vec<char> = Vec::new();
    extend_str(&mut out, "Title:      ");
    push_or_none(&mut out, &md.title);
    extend_str(&mut out, "\n");
    extend_str(&mut out, "Author(s):  ");
    push_list_or_none(&mut out, &md.creators);
    extend_str(&mut out, "\n");
    extend_str(&mut out, "Language:   ");
    push_list_or_none(&mut out, &md.languages);
    extend_str(&mut out, "\n");
    extend_str(&mut out, "Identifier: ");
    push_or_none(&mut out, &md.identifier);
    extend_str(&mut out, "\n");
    extend_str(&mut out, "Publisher:  ");
    push_or_none(&mut out, &md.publisher);
    extend_str(&mut out, "\n");
    extend_str(&mut out, "Date:       ");
    push_or_none(&mut out, &md.date);
    extend_str(&mut out, "\n");
    if let Some(d) = &md.description {
        extend_str(&mut out, "Description: ");
        extend_str(&mut out, d.as_str());
        extend_str(&mut out, "\n");
    }
    assert(out@ =~= info_report_spec(md@));
    string_of(out.as_slice())
}

// ---------------------------------------------------------------------------
// The loaded book
// ---------------------------------------------------------------------------

/// A loaded EPUB: the raw zip entries plus the parsed package document.
pub struct Epub {
    pub raw: RawEpub,
    pub package: Package,
}

impl Epub {
    /// The file entries of the book.
    pub open spec fn entries(&self) -> Seq<(Seq<char>, Seq<u8>)> {
        entries_view(self.raw.entries@)
    }

    /// Open and parse an EPUB from raw bytes already in memory.
    pub fn from_bytes(bytes: Vec<u8>) -> (r: Result<Epub, EpubError>)
        ensures
            match r {
                Ok(e) => open_spec(bytes@) == Ok::<_, OpenErrorView>((e.entries(), e.package@)),
                Err(e) => open_spec(bytes@) == Err::<(Seq<(Seq<char>, Seq<u8>)>, model::PackageView), _>(open_error_view(e)),
            },
    {
        let raw = match RawEpub::read(bytes) {
            Ok(raw) => raw,
            Err(e) => return Err(e),
        };
        let container_xml = match raw.get_str(CONTAINER_PATH) {
            Some(s) => s,
            None => return Err(EpubError::MissingContainer),
        };
        let opf_path = match parse_container(container_xml.as_str()) {
            Ok(p) => p,
            Err(e) => return Err(e),
        };
        let opf_xml = match raw.get_str(opf_path.as_str()) {
            Some(s) => s,
            None => return Err(EpubError::MissingOpf(opf_path)),
        };
        match parse_opf(opf_xml.as_str(), opf_path.as_str()) {
            Ok(package) => Ok(Epub { raw, package }),
            Err(e) => Err(e),
        }
    }

    /// The parsed package document.
    pub fn package(&self) -> (r: &Package)
        ensures
            *r == self.package,
    {
        &self.package
    }

    /// The book's Dublin Core metadata.
    pub fn metadata(&self) -> (r: &Metadata)
        ensures
            *r == self.package.metadata,
    {
        &self.package.metadata
    }

    /// Manifest items in spine reading order.
    pub fn spine_items(&self) -> (r: Vec<&ManifestItem>)
        ensures
            r@.len() == spine_items_of(self.package.manifest@, self.package.spine@).len(),
            forall|i: int|
                0 <= i < r@.len() ==> *r@[i] == spine_items_of(
                    self.package.manifest@,
                    self.package.spine@,
                )[i],
    {
        self.package.spine_items()
    }

    /// Raw bytes of an archive entry by its full path.
    pub fn entry_bytes(&self, path: &str) -> (r: Option<&[u8]>)
        ensures
            match r {
                Some(b) => lookup(self.entries(), path@) == Some(b@),
                None => lookup(self.entries(), path@) is None,
            },
    {
        self.raw.get(path)
    }

    fn chapter_text_for(&self, item: &ManifestItem) -> (r: Option<String>)
        ensures
            opt_string(r) == chapter_text_spec(self.entries(), item.resolved_path@),
    {
        let bytes = self.raw.get(item.resolved_path.as_str())?;
        let xml = decode_utf8_lossy(bytes);
        Some(xhtml_to_text(xml.as_str()))
    }

    /// Extract plain text of every spine document, in reading order, joined by
    /// blank lines.
    pub fn full_text(&self) -> (r: String)
        ensures
            r@ == join_with(
                text_parts(self.entries(), spine_items_of(self.package.manifest@, self.package.spine@)),
                "\n\n"@,
            ),
    {
        let items = self.spine_items();
        let ghost all = spine_items_of(self.package.manifest@, self.package.spine@);
        let mut out: Vec<char> = Vec::new();
        let mut count: usize = 0;
        let mut i: usize = 0;
        assert(all.take(0) =~= Seq::<ManifestItem>::empty());
        while i < items.len()
            invariant
                i <= items@.len() == all.len(),
                forall|k: int| 0 <= k < items@.len() ==> *items@[k] == all[k],
                all == spine_items_of(self.package.manifest@, self.package.spine@),
                count == text_parts(self.entries(), all.take(i as int)).len(),
                count <= i,
                out@ == join_with(text_parts(self.entries(), all.take(i as int)), "\n\n"@),
            decreases items@.len() - i,
        {
            assert(all.take(i + 1).drop_last() =~= all.take(i as int));
            assert(all.take(i + 1).last() == all[i as int]);
            let ghost prev = text_parts(self.entries(), all.take(i as int));
            let ghost next = text_parts(self.entries(), all.take(i + 1));
            assert(next == match chapter_text_spec(self.entries(), all[i as int].resolved_path@) {
                Some(t) => if t.len() > 0 {
                    prev.push(t)
                } else {
                    prev
                },
                None => prev,
            });
            if let Some(t) = self.chapter_text_for(items[i]) {
                if !t.as_str().is_empty() {
                    let ghost before = out@;
                    if count > 0 {
                        extend_str(&mut out, "\n\n");
                    } else {
                        assert(Seq::<char>::empty() + t@ =~= t@);
                    }
                    extend_str(&mut out, t.as_str());
                    count = count + 1;
                    assert(prev.push(t@).drop_last() =~= prev);
                    assert(next == prev.push(t@));
                    proof {
                        if prev.len() == 0 {
                            assert(out@ =~= t@);
                        } else {
                            assert(out@ =~= before + "\n\n"@ + t@);
                        }
                    }
                }
            }
            i = i + 1;
        }
        assert(all.take(items@.len() as int) =~= all);
        string_of(out.as_slice())
    }

    /// Number of chapters addressable by `--chapter`: the spine documents that
    /// name a manifest item.
    pub fn chapter_count(&self) -> (r: usize)
        ensures
            r == spine_items_of(self.package.manifest@, self.package.spine@).len(),
    {
        self.spine_items().len()
    }

    /// Extract plain text of a single spine document by 1-based index.
    pub fn chapter_text(&self, one_based: usize) -> (r: Result<String, EpubError>)
        ensures
            ({
                let items = spine_items_of(self.package.manifest@, self.package.spine@);
                if 1 <= one_based <= items.len() {
                    r matches Ok(t) && t@ == match chapter_text_spec(
                        self.entries(),
                        items[one_based - 1].resolved_path@,
                    ) {
                        Some(t) => t,
                        None => Seq::empty(),
                    }
                } else {
                    r == Err::<String, EpubError>(
                        EpubError::ChapterOutOfRange(one_based, items.len() as usize),
                    )
                }
            }),
    {
        let items = self.spine_items();
        if one_based == 0 || one_based > items.len() {
            return Err(EpubError::ChapterOutOfRange(one_based, items.len()));
        }
        match self.chapter_text_for(items[one_based - 1]) {
            Some(t) => Ok(t),
            None => Ok(String::new()),
        }
    }

    /// Read the table of contents, preferring the EPUB 3 nav document and
    /// falling back to the EPUB 2 NCX. Returns an empty vector if neither exists.
    pub fn toc(&self) -> (r: Vec<TocEntry>)
        ensures
            toc_view(r@) == toc_spec(self.package, self.entries()),
    {
        if let Some(nav) = self.package.nav_item() {
            if let Some(bytes) = self.raw.get(nav.resolved_path.as_str()) {
                let xml = decode_utf8_lossy(bytes);
                let entries = parse_nav_xhtml(xml.as_str());
                if entries.len() > 0 {
                    return entries;
                }
            }
        }
        if let Some(ncx) = self.package.ncx_item() {
            if let Some(bytes) = self.raw.get(ncx.resolved_path.as_str()) {
                let xml = decode_utf8_lossy(bytes);
                return parse_ncx(xml.as_str());
            }
        }
        let v: Vec<TocEntry> = Vec::new();
        assert(toc_view(v@) =~= Seq::<TocEntryView>::empty());
        v
    }

    /// The cover image, or why there is none. Prefers the EPUB 3
    /// `properties="cover-image"` manifest item, falling back to the EPUB 2
    /// `<meta name="cover">` convention. A resource whose percent-decoded path
    /// is absent is looked up again under its literal path.
    pub fn cover_image(&self) -> (r: Result<Cover, CoverError>)
        ensures
            cover_result_view(r) == cover_spec(self.package, self.entries()),
    {
        if let Some(item) = self.package.cover_item() {
            if let Some(bytes) = self.raw.get(item.resolved_path.as_str()) {
                return Ok(
                    Cover {
                        resolved_path: item.resolved_path.clone(),
                        media_type: item.media_type.clone(),
                        bytes: bytes_to_vec(bytes),
                    },
                );
            }
            let rawp = resolve_href_raw(self.package.opf_path.as_str(), item.href.as_str());
            if let Some(bytes) = self.raw.get(rawp.as_str()) {
                return Ok(
                    Cover {
                        resolved_path: rawp,
                        media_type: item.media_type.clone(),
                        bytes: bytes_to_vec(bytes),
                    },
                );
            }
            return Err(CoverError::Missing(item.resolved_path.clone()));
        }
        if let Some(id) = &self.package.cover_id {
            return Err(CoverError::Unresolvable(id.clone()));
        }
        if let Some(h) = &self.package.guide_cover_href {
            return Err(CoverError::Unresolvable(h.clone()));
        }
        Err(CoverError::NotDeclared)
    }

    /// The cover image, if the book declares one and the resource is present in
    /// the archive.
    pub fn cover(&self) -> (r: Option<Cover>)
        ensures
            match r {
                Some(c) => cover_spec(self.package, self.entries()) == CoverView::Found(
                    c.resolved_path@,
                    c.media_type@,
                    c.bytes@,
                ),
                None => !(cover_spec(self.package, self.entries()) is Found),
            },
    {
        match self.cover_image() {
            Ok(c) => Some(c),
            Err(_) => None,
        }
    }

    /// Apply metadata edits to the OPF and serialize a fresh, valid EPUB: the
    /// mimetype entry is written first and stored; all other entries (including
    /// the edited OPF) are deflated.
    pub fn serialize_with_metadata(&self, edit: &MetadataEdit) -> (r: Result<Vec<u8>, EpubError>)
        requires
            names_fit(self.entries()),
        ensures
            match edited_entries(self.entries(), self.package.opf_path@, *edit) {
                Err(e) => r == Err::<Vec<u8>, EpubError>(e),
                Ok(entries) => match r {
                    Ok(bytes) => zip_listing(bytes@) == Some(epub_layout(entries).map_values(
                        |e: (Seq<char>, bool, Seq<u8>)| read_back(e),
                    )) && first_entry_spec(bytes@) == Ok::<(Seq<char>, bool), EpubError>(
                        (MIMETYPE_ENTRY@, true),
                    ) && distinct_names(epub_layout(entries)),
                    Err(e) => e == EpubError::ZipWrite,
                },
            },
            edited_entries(self.entries(), self.package.opf_path@, *edit) matches Ok(es)
                && distinct_names(epub_layout(es)) && within_zip32(epub_layout(es)) ==> r is Ok,
    {
        let opf_xml = match self.raw.get_str(self.package.opf_path.as_str()) {
            Some(s) => s,
            None => return Err(EpubError::OpfDisappeared),
        };
        let new_opf = apply_metadata_edit(opf_xml.as_str(), edit)?;
        let new_bytes = bytes_to_vec(new_opf.as_str().as_bytes());
        let opf_path = &self.package.opf_path;
        // Copy the entries, swapping in the edited OPF, then write with the
        // packaging rules enforced (mimetype first & stored).
        let ghost ev = self.entries();
        let ghost target = replace_entry(ev, opf_path@, new_bytes@);
        let mut entries: Vec<(String, Vec<u8>)> = Vec::new();
        let mut i: usize = 0;
        while i < self.raw.entries.len()
            invariant
                i <= self.raw.entries@.len(),
                ev == self.entries(),
                target == replace_entry(ev, opf_path@, new_bytes@),
                entries_view(entries@) == target.take(i as int),
            decreases self.raw.entries@.len() - i,
        {
            let (p, b) = &self.raw.entries[i];
            let same = crate::chars::str_eq(p.as_str(), opf_path.as_str());
            let bytes = if same {
                bytes_to_vec(new_bytes.as_slice())
            } else {
                bytes_to_vec(b.as_slice())
            };
            let ghost before = entries_view(entries@);
            entries.push((p.clone(), bytes));
            assert(ev[i as int] == (p@, b@));
            assert(entries_view(entries@) =~= before.push((p@, bytes@)));
            assert(target.take(i + 1) =~= target.take(i as int).push(target[i as int]));
            i = i + 1;
        }
        assert(target.take(self.raw.entries@.len() as int) =~= target);
        assert forall|k: int| 0 <= k < target.len() implies package::name_fits(
            #[trigger] target[k].0,
        ) by {
            assert(target[k].0 == ev[k].0);
        }
        let r = write_epub_to_vec(&entries);
        proof {
            if r is Ok {
                package::lemma_written_epub_starts_with_stored_mimetype(target, r->Ok_0@);
            }
        }
        r
    }
}

/// The view of an optional string.
pub open spec fn opt_string(o: Option<String>) -> Option<Seq<char>> {
    match o {
        Some(s) => Some(s@),
        None => None,
    }
}

} // verus!
