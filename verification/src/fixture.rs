//! Build a minimal, valid EPUB entirely in memory for tests and demos.
//!
//! The generated book has: a stored `mimetype`, `META-INF/container.xml`,
//! `OEBPS/content.opf` (title / creators / language / identifier / publisher /
//! date, a manifest of the chapters + a nav doc, and a spine listing the
//! chapters in order), an EPUB 3 `OEBPS/nav.xhtml`, the XHTML chapters, and an
//! optional cover image.

use vstd::prelude::*;
use vstd::string::StringSliceAdditionalSpecFns;

use crate::chars::{bytes_to_vec, chars_of, extend_chars, extend_str, string_of};
use crate::error::EpubError;
use crate::package::{
    data_within_zip32, distinct_names, entries_view, epub_layout, lemma_encode_utf8_len,
    lemma_layout_distinct, lemma_layout_within, name_fits, names_fit, MIMETYPE_ENTRY,
    read_back, within_zip32, write_epub_to_vec, zip_listing,
};

verus! {

/// A cover image to embed: archive file name (under `OEBPS/`), media type and bytes.
#[derive(Debug, Clone)]
pub struct CoverImage {
    pub filename: String,
    pub media_type: String,
    pub bytes: Vec<u8>,
}

/// Knobs for the generated fixture so tests can assert on specific values.
#[derive(Debug, Clone)]
pub struct FixtureSpec {
    pub title: String,
    pub authors: Vec<String>,
    pub language: String,
    pub identifier: String,
    pub publisher: String,
    pub date: String,
    /// (chapter title, body paragraphs) for each of the chapters.
    pub chapters: Vec<(String, Vec<String>)>,
    /// Optional cover image. When present it is added to the manifest with
    /// `properties="cover-image"` and referenced by an EPUB 2
    /// `<meta name="cover" .../>` for good measure.
    pub cover: Option<CoverImage>,
}

/// A minimal but valid 1×1 transparent PNG, used as the sample cover image.
pub const SAMPLE_COVER_PNG: [u8; 67] = [
    0x89, 0x50, 0x4E, 0x47, 0x0D, 0x0A, 0x1A, 0x0A, 0x00, 0x00, 0x00, 0x0D, 0x49, 0x48, 0x44, 0x52,
    0x00, 0x00, 0x00, 0x01, 0x00, 0x00, 0x00, 0x01, 0x08, 0x06, 0x00, 0x00, 0x00, 0x1F, 0x15, 0xC4,
    0x89, 0x00, 0x00, 0x00, 0x0D, 0x49, 0x44, 0x41, 0x54, 0x78, 0x9C, 0x62, 0x00, 0x01, 0x00, 0x00,
    0x05, 0x00, 0x01, 0x0D, 0x0A, 0x2D, 0xB4, 0x00, 0x00, 0x00, 0x00, 0x49, 0x45, 0x4E, 0x44, 0xAE,
    0x42, 0x60, 0x82,
];

// ---------------------------------------------------------------------------
// Document fragments
// ---------------------------------------------------------------------------

/// `META-INF/container.xml`, pointing at `OEBPS/content.opf`.
pub const CONTAINER_XML: &'static str = "<?xml version=\"1.0\" encoding=\"utf-8\"?>\n<container version=\"1.0\" xmlns=\"urn:oasis:names:tc:opendocument:xmlns:container\">\n  <rootfiles>\n    <rootfile full-path=\"OEBPS/content.opf\" media-type=\"application/oebps-package+xml\"/>\n  </rootfiles>\n</container>\n";

pub const CHAPTER_HEAD: &'static str = "<?xml version=\"1.0\" encoding=\"utf-8\"?>\n<!DOCTYPE html>\n<html xmlns=\"http://www.w3.org/1999/xhtml\">\n  <head><title>";
pub const CHAPTER_MID: &'static str = "</title></head>\n  <body>\n    <h1>";
pub const CHAPTER_H1_END: &'static str = "</h1>\n";
pub const CHAPTER_TAIL: &'static str = "  </body>\n</html>\n";
pub const PARA_OPEN: &'static str = "    <p>";
pub const PARA_CLOSE: &'static str = "</p>\n";
pub const NAV_HEAD: &'static str = "<?xml version=\"1.0\" encoding=\"utf-8\"?>\n<!DOCTYPE html>\n<html xmlns=\"http://www.w3.org/1999/xhtml\" xmlns:epub=\"http://www.idpf.org/2007/ops\">\n  <head><title>Table of Contents</title></head>\n  <body>\n    <nav epub:type=\"toc\" id=\"toc\">\n      <h1>Contents</h1>\n      <ol>\n";
pub const NAV_TAIL: &'static str = "      </ol>\n    </nav>\n  </body>\n</html>\n";
pub const NAV_ITEM_OPEN: &'static str = "        <li><a href=\"chapter";
pub const NAV_ITEM_MID: &'static str = ".xhtml\">";
pub const NAV_ITEM_CLOSE: &'static str = "</a></li>\n";
pub const COVER_ITEM_OPEN: &'static str = "    <item id=\"cover-image\" href=\"";
pub const COVER_ITEM_MID: &'static str = "\" media-type=\"";
pub const COVER_ITEM_CLOSE: &'static str = "\" properties=\"cover-image\"/>\n";
pub const COVER_META: &'static str = "    <meta name=\"cover\" content=\"cover-image\"/>\n";
pub const CREATOR_OPEN: &'static str = "    <dc:creator>";
pub const CREATOR_CLOSE: &'static str = "</dc:creator>\n";
pub const MANIFEST_ITEM_OPEN: &'static str = "    <item id=\"ch";
pub const MANIFEST_ITEM_MID: &'static str = "\" href=\"chapter";
pub const MANIFEST_ITEM_CLOSE: &'static str = ".xhtml\" media-type=\"application/xhtml+xml\"/>\n";
pub const SPINE_ITEM_OPEN: &'static str = "    <itemref idref=\"ch";
pub const SPINE_ITEM_CLOSE: &'static str = "\"/>\n";
pub const OPF_HEAD: &'static str = "<?xml version=\"1.0\" encoding=\"utf-8\"?>\n<package xmlns=\"http://www.idpf.org/2007/opf\" version=\"3.0\" unique-identifier=\"bookid\">\n  <metadata xmlns:dc=\"http://purl.org/dc/elements/1.1/\" xmlns:opf=\"http://www.idpf.org/2007/opf\">\n    <dc:title>";
pub const OPF_TITLE_END: &'static str = "</dc:title>\n";
pub const OPF_LANGUAGE_OPEN: &'static str = "    <dc:language>";
pub const OPF_LANGUAGE_CLOSE: &'static str = "</dc:language>\n    <dc:identifier id=\"bookid\">";
pub const OPF_IDENTIFIER_CLOSE: &'static str = "</dc:identifier>\n    <dc:publisher>";
pub const OPF_PUBLISHER_CLOSE: &'static str = "</dc:publisher>\n    <dc:date>";
pub const OPF_DATE_CLOSE: &'static str = "</dc:date>\n";
pub const OPF_MANIFEST_OPEN: &'static str = "  </metadata>\n  <manifest>\n    <item id=\"nav\" href=\"nav.xhtml\" media-type=\"application/xhtml+xml\" properties=\"nav\"/>\n";
pub const OPF_SPINE_OPEN: &'static str = "  </manifest>\n  <spine>\n";
pub const OPF_TAIL: &'static str = "  </spine>\n</package>\n";
pub const CHAPTER_PATH_OPEN: &'static str = "OEBPS/chapter";
pub const CHAPTER_PATH_CLOSE: &'static str = ".xhtml";
pub const OEBPS_DIR: &'static str = "OEBPS/";
pub const CONTAINER_ENTRY: &'static str = "META-INF/container.xml";
pub const NAV_ENTRY: &'static str = "OEBPS/nav.xhtml";
pub const OPF_ENTRY: &'static str = "OEBPS/content.opf";

// ---------------------------------------------------------------------------
// Specification
// ---------------------------------------------------------------------------

/// Escaping of one character for XML text and attribute values.
pub open spec fn xml_escape_char(c: char) -> Seq<char> {
    if c == '&' {
        "&amp;"@
    } else if c == '<' {
        "&lt;"@
    } else if c == '>' {
        "&gt;"@
    } else if c == '"' {
        "&quot;"@
    } else if c == '\'' {
        "&apos;"@
    } else {
        seq![c]
    }
}

/// XML escaping of `&`, `<`, `>`, `"` and `'`.
pub open spec fn xml_escape_spec(s: Seq<char>) -> Seq<char>
    decreases s.len(),
{
    if s.len() == 0 {
        s
    } else {
        xml_escape_spec(s.drop_last()) + xml_escape_char(s.last())
    }
}

/// Decimal digits of a number.
pub open spec fn decimal(n: nat) -> Seq<char>
    decreases n,
{
    if n < 10 {
        seq![('0' as u32 + n) as char]
    } else {
        decimal(n / 10).push(('0' as u32 + n % 10) as char)
    }
}

/// The paragraphs of a chapter body.
pub open spec fn paras_spec(paras: Seq<String>) -> Seq<char>
    decreases paras.len(),
{
    if paras.len() == 0 {
        Seq::empty()
    } else {
        paras_spec(paras.drop_last()) + PARA_OPEN@ + xml_escape_spec(paras.last()@) + PARA_CLOSE@
    }
}

/// The XHTML document of one chapter.
pub open spec fn chapter_spec(title: Seq<char>, paras: Seq<String>) -> Seq<char> {
    CHAPTER_HEAD@ + xml_escape_spec(title) + CHAPTER_MID@ + xml_escape_spec(title)
        + CHAPTER_H1_END@ + paras_spec(paras) + CHAPTER_TAIL@
}

/// A repeated fragment built from each chapter and its 1-based number.
pub open spec fn per_chapter(chapters: Seq<(String, Vec<String>)>, f: spec_fn(nat, Seq<char>) -> Seq<char>) -> Seq<char>
    decreases chapters.len(),
{
    if chapters.len() == 0 {
        Seq::empty()
    } else {
        per_chapter(chapters.drop_last(), f) + f(chapters.len(), chapters.last().0@)
    }
}

/// Navigation list item for chapter `n`.
pub open spec fn nav_item_spec() -> spec_fn(nat, Seq<char>) -> Seq<char> {
    |n: nat, title: Seq<char>|
        NAV_ITEM_OPEN@ + decimal(n) + NAV_ITEM_MID@ + xml_escape_spec(title) + NAV_ITEM_CLOSE@
}

/// Manifest item for chapter `n`.
pub open spec fn manifest_item_line() -> spec_fn(nat, Seq<char>) -> Seq<char> {
    |n: nat, title: Seq<char>|
        MANIFEST_ITEM_OPEN@ + decimal(n) + MANIFEST_ITEM_MID@ + decimal(n) + MANIFEST_ITEM_CLOSE@
}

/// Spine itemref for chapter `n`.
pub open spec fn spine_item_line() -> spec_fn(nat, Seq<char>) -> Seq<char> {
    |n: nat, title: Seq<char>| SPINE_ITEM_OPEN@ + decimal(n) + SPINE_ITEM_CLOSE@
}

/// The navigation document.
pub open spec fn nav_doc_spec(chapters: Seq<(String, Vec<String>)>) -> Seq<char> {
    NAV_HEAD@ + per_chapter(chapters, nav_item_spec()) + NAV_TAIL@
}

/// The `dc:creator` lines.
pub open spec fn creators_spec(authors: Seq<String>) -> Seq<char>
    decreases authors.len(),
{
    if authors.len() == 0 {
        Seq::empty()
    } else {
        creators_spec(authors.drop_last()) + CREATOR_OPEN@ + xml_escape_spec(authors.last()@)
            + CREATOR_CLOSE@
    }
}

/// The cover's manifest line.
pub open spec fn cover_manifest_spec(cover: Option<CoverImage>) -> Seq<char> {
    match cover {
        Some(c) => COVER_ITEM_OPEN@ + xml_escape_spec(c.filename@) + COVER_ITEM_MID@
            + xml_escape_spec(c.media_type@) + COVER_ITEM_CLOSE@,
        None => Seq::empty(),
    }
}

/// The cover's `<meta>` line.
pub open spec fn cover_meta_spec(cover: Option<CoverImage>) -> Seq<char> {
    match cover {
        Some(c) => COVER_META@,
        None => Seq::empty(),
    }
}

/// The OPF package document.
pub open spec fn opf_doc_spec(spec: FixtureSpec) -> Seq<char> {
    OPF_HEAD@ + xml_escape_spec(spec.title@) + OPF_TITLE_END@ + creators_spec(spec.authors@)
        + OPF_LANGUAGE_OPEN@ + xml_escape_spec(spec.language@) + OPF_LANGUAGE_CLOSE@
        + xml_escape_spec(spec.identifier@) + OPF_IDENTIFIER_CLOSE@ + xml_escape_spec(
        spec.publisher@,
    ) + OPF_PUBLISHER_CLOSE@ + xml_escape_spec(spec.date@) + OPF_DATE_CLOSE@ + cover_meta_spec(
        spec.cover,
    ) + OPF_MANIFEST_OPEN@ + cover_manifest_spec(spec.cover) + per_chapter(
        spec.chapters@,
        manifest_item_line(),
    ) + OPF_SPINE_OPEN@ + per_chapter(spec.chapters@, spine_item_line()) + OPF_TAIL@
}

/// The chapter entries: `OEBPS/chapterN.xhtml` with the chapter document.
pub open spec fn chapter_entries(chapters: Seq<(String, Vec<String>)>) -> Seq<(Seq<char>, Seq<u8>)>
    decreases chapters.len(),
{
    if chapters.len() == 0 {
        Seq::empty()
    } else {
        chapter_entries(chapters.drop_last()).push(
            (
                CHAPTER_PATH_OPEN@ + decimal(chapters.len()) + CHAPTER_PATH_CLOSE@,
                vstd::utf8::encode_utf8(chapter_spec(chapters.last().0@, chapters.last().1@)),
            ),
        )
    }
}

/// The archive entries of the fixture, in the order they are written (the
/// mimetype entry is added on writing).
pub open spec fn fixture_entries(spec: FixtureSpec) -> Seq<(Seq<char>, Seq<u8>)> {
    seq![(CONTAINER_ENTRY@, CONTAINER_XML.spec_bytes())] + chapter_entries(spec.chapters@) + seq![
        (NAV_ENTRY@, vstd::utf8::encode_utf8(nav_doc_spec(spec.chapters@))),
    ] + match spec.cover {
        Some(c) => seq![(OEBPS_DIR@ + c.filename@, c.bytes@)],
        None => Seq::empty(),
    } + seq![(OPF_ENTRY@, vstd::utf8::encode_utf8(opf_doc_spec(spec)))]
}

/// The cover image, if any, has a file name that fits a zip header once placed
/// under `OEBPS/`.
pub open spec fn cover_name_fits(spec: FixtureSpec) -> bool {
    match spec.cover {
        Some(c) => name_fits(OEBPS_DIR@ + c.filename@),
        None => true,
    }
}

/// Ten to the power `k`.
pub open spec fn pow10(k: nat) -> nat
    decreases k,
{
    if k == 0 {
        1
    } else {
        10 * pow10((k - 1) as nat)
    }
}

/// A number below `10^k` has at most `k` decimal digits.
proof fn lemma_decimal_len(n: nat, k: nat)
    requires
        k >= 1,
        n < pow10(k),
    ensures
        decimal(n).len() <= k,
    decreases n,
{
    if n >= 10 {
        if k == 1 {
            assert(pow10(1) == 10) by {
                reveal_with_fuel(pow10, 2);
            }
        } else {
            let p = pow10((k - 1) as nat);
            assert(n / 10 < p) by (nonlinear_arith)
                requires
                    n < 10 * p,
            ;
            lemma_decimal_len(n / 10, (k - 1) as nat);
        }
    }
}

/// The name of chapter `n`'s entry fits a zip header.
proof fn lemma_chapter_name_fits(n: nat)
    requires
        n <= usize::MAX,
    ensures
        name_fits(CHAPTER_PATH_OPEN@ + decimal(n) + CHAPTER_PATH_CLOSE@),
{
    reveal_strlit("OEBPS/chapter");
    reveal_strlit(".xhtml");
    assert(pow10(20) == 100000000000000000000) by {
        reveal_with_fuel(pow10, 21);
    }
    lemma_decimal_len(n, 20);
    lemma_encode_utf8_len(CHAPTER_PATH_OPEN@ + decimal(n) + CHAPTER_PATH_CLOSE@);
}

proof fn lemma_chapter_entry_names(chapters: Seq<(String, Vec<String>)>)
    ensures
        chapter_entries(chapters).len() == chapters.len(),
        forall|k: int|
            0 <= k < chapters.len() ==> (#[trigger] chapter_entries(chapters)[k]).0
                == CHAPTER_PATH_OPEN@ + decimal((k + 1) as nat) + CHAPTER_PATH_CLOSE@,
    decreases chapters.len(),
{
    if chapters.len() > 0 {
        lemma_chapter_entry_names(chapters.drop_last());
        let p = chapter_entries(chapters.drop_last());
        assert forall|k: int| 0 <= k < chapters.len() implies (#[trigger] chapter_entries(
            chapters,
        )[k]).0 == CHAPTER_PATH_OPEN@ + decimal((k + 1) as nat) + CHAPTER_PATH_CLOSE@ by {
            if k < chapters.len() - 1 {
                assert(chapter_entries(chapters)[k] == p[k]);
            }
        }
    }
}

/// Every entry name of the fixture fits a zip header.
proof fn lemma_fixture_names_fit(spec: FixtureSpec)
    requires
        cover_name_fits(spec),
        spec.chapters@.len() <= usize::MAX,
    ensures
        names_fit(fixture_entries(spec)),
{
    reveal_strlit("META-INF/container.xml");
    reveal_strlit("OEBPS/nav.xhtml");
    reveal_strlit("OEBPS/content.opf");
    lemma_encode_utf8_len(CONTAINER_ENTRY@);
    lemma_encode_utf8_len(NAV_ENTRY@);
    lemma_encode_utf8_len(OPF_ENTRY@);
    let chs = spec.chapters@;
    lemma_chapter_entry_names(chs);
    let f = fixture_entries(spec);
    let ce = chapter_entries(chs);
    assert forall|i: int| 0 <= i < f.len() implies name_fits(#[trigger] f[i].0) by {
        if 1 <= i < 1 + ce.len() {
            assert(f[i] == ce[i - 1]);
            lemma_chapter_name_fits(i as nat);
        } else if i == 1 + ce.len() {
            assert(f[i].0 == NAV_ENTRY@);
        } else if i == f.len() - 1 {
            assert(f[i].0 == OPF_ENTRY@);
        } else if i == 0 {
            assert(f[i].0 == CONTAINER_ENTRY@);
        } else {
            assert(spec.cover is Some);
            assert(f[i].0 == OEBPS_DIR@ + spec.cover->0.filename@);
        }
    }
}

/// Every fragment of the generated documents is at most 400 characters long.
proof fn lemma_fragment_lengths()
    ensures
        CONTAINER_XML@.len() <= 400,
        CHAPTER_HEAD@.len() <= 400,
        CHAPTER_MID@.len() <= 400,
        CHAPTER_H1_END@.len() <= 400,
        CHAPTER_TAIL@.len() <= 400,
        PARA_OPEN@.len() <= 400,
        PARA_CLOSE@.len() <= 400,
        NAV_HEAD@.len() <= 400,
        NAV_TAIL@.len() <= 400,
        NAV_ITEM_OPEN@.len() <= 400,
        NAV_ITEM_MID@.len() <= 400,
        NAV_ITEM_CLOSE@.len() <= 400,
        COVER_ITEM_OPEN@.len() <= 400,
        COVER_ITEM_MID@.len() <= 400,
        COVER_ITEM_CLOSE@.len() <= 400,
        COVER_META@.len() <= 400,
        CREATOR_OPEN@.len() <= 400,
        CREATOR_CLOSE@.len() <= 400,
        MANIFEST_ITEM_OPEN@.len() <= 400,
        MANIFEST_ITEM_MID@.len() <= 400,
        MANIFEST_ITEM_CLOSE@.len() <= 400,
        SPINE_ITEM_OPEN@.len() <= 400,
        SPINE_ITEM_CLOSE@.len() <= 400,
        OPF_HEAD@.len() <= 400,
        OPF_TITLE_END@.len() <= 400,
        OPF_LANGUAGE_OPEN@.len() <= 400,
        OPF_LANGUAGE_CLOSE@.len() <= 400,
        OPF_IDENTIFIER_CLOSE@.len() <= 400,
        OPF_PUBLISHER_CLOSE@.len() <= 400,
        OPF_DATE_CLOSE@.len() <= 400,
        OPF_MANIFEST_OPEN@.len() <= 400,
        OPF_SPINE_OPEN@.len() <= 400,
        OPF_TAIL@.len() <= 400,
        CHAPTER_PATH_OPEN@.len() <= 400,
        CHAPTER_PATH_CLOSE@.len() <= 400,
        OEBPS_DIR@.len() <= 400,
        CONTAINER_ENTRY@.len() <= 400,
        NAV_ENTRY@.len() <= 400,
        OPF_ENTRY@.len() <= 400,
{
    reveal_strlit("<?xml version=\"1.0\" encoding=\"utf-8\"?>\n<container version=\"1.0\" xmlns=\"urn:oasis:names:tc:opendocument:xmlns:container\">\n  <rootfiles>\n    <rootfile full-path=\"OEBPS/content.opf\" media-type=\"application/oebps-package+xml\"/>\n  </rootfiles>\n</container>\n");
    reveal_strlit("<?xml version=\"1.0\" encoding=\"utf-8\"?>\n<!DOCTYPE html>\n<html xmlns=\"http://www.w3.org/1999/xhtml\">\n  <head><title>");
    reveal_strlit("</title></head>\n  <body>\n    <h1>");
    reveal_strlit("</h1>\n");
    reveal_strlit("  </body>\n</html>\n");
    reveal_strlit("    <p>");
    reveal_strlit("</p>\n");
    reveal_strlit("<?xml version=\"1.0\" encoding=\"utf-8\"?>\n<!DOCTYPE html>\n<html xmlns=\"http://www.w3.org/1999/xhtml\" xmlns:epub=\"http://www.idpf.org/2007/ops\">\n  <head><title>Table of Contents</title></head>\n  <body>\n    <nav epub:type=\"toc\" id=\"toc\">\n      <h1>Contents</h1>\n      <ol>\n");
    reveal_strlit("      </ol>\n    </nav>\n  </body>\n</html>\n");
    reveal_strlit("        <li><a href=\"chapter");
    reveal_strlit(".xhtml\">");
    reveal_strlit("</a></li>\n");
    reveal_strlit("    <item id=\"cover-image\" href=\"");
    reveal_strlit("\" media-type=\"");
    reveal_strlit("\" properties=\"cover-image\"/>\n");
    reveal_strlit("    <meta name=\"cover\" content=\"cover-image\"/>\n");
    reveal_strlit("    <dc:creator>");
    reveal_strlit("</dc:creator>\n");
    reveal_strlit("    <item id=\"ch");
    reveal_strlit("\" href=\"chapter");
    reveal_strlit(".xhtml\" media-type=\"application/xhtml+xml\"/>\n");
    reveal_strlit("    <itemref idref=\"ch");
    reveal_strlit("\"/>\n");
    reveal_strlit("<?xml version=\"1.0\" encoding=\"utf-8\"?>\n<package xmlns=\"http://www.idpf.org/2007/opf\" version=\"3.0\" unique-identifier=\"bookid\">\n  <metadata xmlns:dc=\"http://purl.org/dc/elements/1.1/\" xmlns:opf=\"http://www.idpf.org/2007/opf\">\n    <dc:title>");
    reveal_strlit("</dc:title>\n");
    reveal_strlit("    <dc:language>");
    reveal_strlit("</dc:language>\n    <dc:identifier id=\"bookid\">");
    reveal_strlit("</dc:identifier>\n    <dc:publisher>");
    reveal_strlit("</dc:publisher>\n    <dc:date>");
    reveal_strlit("</dc:date>\n");
    reveal_strlit("  </metadata>\n  <manifest>\n    <item id=\"nav\" href=\"nav.xhtml\" media-type=\"application/xhtml+xml\" properties=\"nav\"/>\n");
    reveal_strlit("  </manifest>\n  <spine>\n");
    reveal_strlit("  </spine>\n</package>\n");
    reveal_strlit("OEBPS/chapter");
    reveal_strlit(".xhtml");
    reveal_strlit("OEBPS/");
    reveal_strlit("META-INF/container.xml");
    reveal_strlit("OEBPS/nav.xhtml");
    reveal_strlit("OEBPS/content.opf");
}

proof fn lemma_escape_len(s: Seq<char>)
    ensures
        xml_escape_spec(s).len() <= 6 * s.len(),
    decreases s.len(),
{
    reveal_strlit("&amp;");
    reveal_strlit("&lt;");
    reveal_strlit("&gt;");
    reveal_strlit("&quot;");
    reveal_strlit("&apos;");
    if s.len() > 0 {
        lemma_escape_len(s.drop_last());
    }
}

proof fn lemma_paras_len(paras: Seq<String>)
    requires
        forall|i: int| 0 <= i < paras.len() ==> (#[trigger] paras[i])@.len() <= 100,
    ensures
        paras_spec(paras).len() <= 2000 * paras.len(),
    decreases paras.len(),
{
    if paras.len() > 0 {
        lemma_fragment_lengths();
        lemma_paras_len(paras.drop_last());
        lemma_escape_len(paras.last()@);
    }
}

proof fn lemma_creators_len(authors: Seq<String>)
    requires
        forall|i: int| 0 <= i < authors.len() ==> (#[trigger] authors[i])@.len() <= 100,
    ensures
        creators_spec(authors).len() <= 2000 * authors.len(),
    decreases authors.len(),
{
    if authors.len() > 0 {
        lemma_fragment_lengths();
        lemma_creators_len(authors.drop_last());
        lemma_escape_len(authors.last()@);
    }
}

proof fn lemma_per_chapter_len(chapters: Seq<(String, Vec<String>)>, f: spec_fn(nat, Seq<char>) -> Seq<char>)
    requires
        forall|k: int|
            0 <= k < chapters.len() ==> #[trigger] f((k + 1) as nat, chapters[k].0@).len() <= 2000,
    ensures
        per_chapter(chapters, f).len() <= 2000 * chapters.len(),
    decreases chapters.len(),
{
    if chapters.len() > 0 {
        let c = chapters.drop_last();
        assert forall|k: int| 0 <= k < c.len() implies #[trigger] f((k + 1) as nat, c[k].0@).len()
            <= 2000 by {
            assert(c[k] == chapters[k]);
        }
        lemma_per_chapter_len(c, f);
        let k = chapters.len() - 1;
        assert(f((k + 1) as nat, chapters[k].0@).len() <= 2000);
        assert((k + 1) as nat == chapters.len());
        assert(chapters.last() == chapters[k]);
    }
}

/// The sample book is written without trouble: its entry names are distinct
/// and it is far from the 32-bit zip sizes.
proof fn lemma_sample_fits(spec: FixtureSpec)
    requires
        is_sample_spec(spec),
    ensures
        distinct_names(epub_layout(fixture_entries(spec))),
        within_zip32(epub_layout(fixture_entries(spec))),
{
    lemma_fragment_lengths();
    reveal_strlit("The Sample Book");
    reveal_strlit("Ada Lovelace");
    reveal_strlit("Charles Babbage");
    reveal_strlit("en");
    reveal_strlit("urn:uuid:11111111-2222-3333-4444-555555555555");
    reveal_strlit("Analytical Press");
    reveal_strlit("2026-06-21");
    reveal_strlit("Chapter One");
    reveal_strlit("It was the best of times.");
    reveal_strlit("It was the worst of times.");
    reveal_strlit("Chapter Two");
    reveal_strlit("Call me Ishmael.");
    reveal_strlit("cover.png");
    reveal_strlit("image/png");
    reveal_strlit("mimetype");
    reveal_strlit("META-INF/container.xml");
    reveal_strlit("OEBPS/nav.xhtml");
    reveal_strlit("OEBPS/content.opf");
    reveal_strlit("OEBPS/chapter");
    reveal_strlit(".xhtml");
    reveal_strlit("OEBPS/");
    let chs = spec.chapters@;
    let c = spec.cover->0;
    // Sizes of the documents.
    lemma_paras_len(chs[0].1@);
    lemma_paras_len(chs[1].1@);
    lemma_escape_len(chs[0].0@);
    lemma_escape_len(chs[1].0@);
    lemma_creators_len(spec.authors@);
    lemma_escape_len(spec.title@);
    lemma_escape_len(spec.language@);
    lemma_escape_len(spec.identifier@);
    lemma_escape_len(spec.publisher@);
    lemma_escape_len(spec.date@);
    lemma_escape_len(c.filename@);
    lemma_escape_len(c.media_type@);
    assert(decimal(1) == seq!['1']);
    assert(decimal(2) == seq!['2']);
    assert forall|k: int| 0 <= k < chs.len() implies #[trigger] nav_item_spec()(
        (k + 1) as nat,
        chs[k].0@,
    ).len() <= 2000 by {
        lemma_escape_len(chs[k].0@);
    }
    assert forall|k: int| 0 <= k < chs.len() implies #[trigger] manifest_item_line()(
        (k + 1) as nat,
        chs[k].0@,
    ).len() <= 2000 by {}
    assert forall|k: int| 0 <= k < chs.len() implies #[trigger] spine_item_line()(
        (k + 1) as nat,
        chs[k].0@,
    ).len() <= 2000 by {}
    lemma_per_chapter_len(chs, nav_item_spec());
    lemma_per_chapter_len(chs, manifest_item_line());
    lemma_per_chapter_len(chs, spine_item_line());
    let ch1 = chapter_spec(chs[0].0@, chs[0].1@);
    let ch2 = chapter_spec(chs[1].0@, chs[1].1@);
    let nav = nav_doc_spec(chs);
    let opf = opf_doc_spec(spec);
    lemma_encode_utf8_len(ch1);
    lemma_encode_utf8_len(ch2);
    lemma_encode_utf8_len(nav);
    lemma_encode_utf8_len(opf);
    lemma_encode_utf8_len(CONTAINER_XML@);
    // The entries.
    lemma_chapter_entry_names(chs);
    assert(chs.drop_last().drop_last() =~= Seq::<(String, Vec<String>)>::empty());
    assert(chs.drop_last().last() == chs[0]);
    let ce = chapter_entries(chs);
    let c1 = chs.drop_last();
    assert(chapter_entries(c1.drop_last()) =~= Seq::<(Seq<char>, Seq<u8>)>::empty());
    assert(chapter_entries(c1) == chapter_entries(c1.drop_last()).push(
        (CHAPTER_PATH_OPEN@ + decimal(1) + CHAPTER_PATH_CLOSE@, vstd::utf8::encode_utf8(ch1)),
    ));
    assert(ce == chapter_entries(c1).push(
        (CHAPTER_PATH_OPEN@ + decimal(2) + CHAPTER_PATH_CLOSE@, vstd::utf8::encode_utf8(ch2)),
    ));
    assert(ce =~= seq![
        (CHAPTER_PATH_OPEN@ + decimal(1) + CHAPTER_PATH_CLOSE@, vstd::utf8::encode_utf8(ch1)),
        (CHAPTER_PATH_OPEN@ + decimal(2) + CHAPTER_PATH_CLOSE@, vstd::utf8::encode_utf8(ch2)),
    ]);
    let a = seq![(CONTAINER_ENTRY@, CONTAINER_XML.spec_bytes())];
    let n = seq![(NAV_ENTRY@, vstd::utf8::encode_utf8(nav))];
    let cv = seq![(OEBPS_DIR@ + c.filename@, c.bytes@)];
    let o = seq![(OPF_ENTRY@, vstd::utf8::encode_utf8(opf))];
    let f = fixture_entries(spec);
    assert(f =~= a + ce + n + cv + o);
    let n1 = CHAPTER_PATH_OPEN@ + decimal(1) + CHAPTER_PATH_CLOSE@;
    let n2 = CHAPTER_PATH_OPEN@ + decimal(2) + CHAPTER_PATH_CLOSE@;
    let nc = OEBPS_DIR@ + c.filename@;
    lemma_encode_utf8_len(n1);
    lemma_encode_utf8_len(n2);
    lemma_encode_utf8_len(nc);
    lemma_encode_utf8_len(CONTAINER_ENTRY@);
    lemma_encode_utf8_len(NAV_ENTRY@);
    lemma_encode_utf8_len(OPF_ENTRY@);
    // Sizes.
    assert forall|i: int| 0 <= i < f.len() implies data_within_zip32(#[trigger] f[i].1) by {
        if i == 1 {
            assert(f[i] == ce[0]);
        } else if i == 2 {
            assert(f[i] == ce[1]);
        }
    }
    lemma_layout_within(f);
    // Names.
    assert(n1[13] == '1' && n2[13] == '2');
    assert(nc[6] == 'c' && NAV_ENTRY@[6] == 'n');
    assert forall|i: int| 0 <= i < f.len() implies (#[trigger] f[i]).0 != MIMETYPE_ENTRY@ by {
        if i == 1 {
            assert(f[i].0 == n1);
        } else if i == 2 {
            assert(f[i].0 == n2);
        }
    }
    assert forall|i: int, j: int| 0 <= i < j < f.len() implies (#[trigger] f[i]).0 != (
    #[trigger] f[j]).0 by {
        assert(f[1].0 == n1);
        assert(f[2].0 == n2);
        assert(f[4].0 == nc);
        if f[i].0 == f[j].0 {
            if i == 1 && j == 2 {
                assert(f[i].0[13] != f[j].0[13]);
            } else if i == 3 && j == 4 {
                assert(f[i].0[6] != f[j].0[6]);
            }
        }
    }
    lemma_layout_distinct(f);
}

// ---------------------------------------------------------------------------
// Executable code
// ---------------------------------------------------------------------------

/// The sample book's settings: its title, authors, language, identifier,
/// publisher, date, two chapters and the sample PNG cover.
pub open spec fn is_sample_spec(r: FixtureSpec) -> bool {
    &&& r.title@ == "The Sample Book"@
    &&& r.authors@.len() == 2
    &&& r.authors@[0]@ == "Ada Lovelace"@
    &&& r.authors@[1]@ == "Charles Babbage"@
    &&& r.language@ == "en"@
    &&& r.identifier@ == "urn:uuid:11111111-2222-3333-4444-555555555555"@
    &&& r.publisher@ == "Analytical Press"@
    &&& r.date@ == "2026-06-21"@
    &&& r.chapters@.len() == 2
    &&& r.chapters@[0].0@ == "Chapter One"@
    &&& r.chapters@[0].1@.len() == 2
    &&& r.chapters@[0].1@[0]@ == "It was the best of times."@
    &&& r.chapters@[0].1@[1]@ == "It was the worst of times."@
    &&& r.chapters@[1].0@ == "Chapter Two"@
    &&& r.chapters@[1].1@.len() == 1
    &&& r.chapters@[1].1@[0]@ == "Call me Ishmael."@
    &&& r.cover matches Some(c) && c.filename@ == "cover.png"@ && c.media_type@ == "image/png"@
        && c.bytes@ == SAMPLE_COVER_PNG@
}

impl Default for FixtureSpec {
    fn default() -> (r: FixtureSpec)
        ensures
            is_sample_spec(r),
    {
        let mut ch1_paras: Vec<String> = Vec::new();
        ch1_paras.push("It was the best of times.".to_owned());
        ch1_paras.push("It was the worst of times.".to_owned());
        let mut ch2_paras: Vec<String> = Vec::new();
        ch2_paras.push("Call me Ishmael.".to_owned());
        let mut chapters: Vec<(String, Vec<String>)> = Vec::new();
        chapters.push(("Chapter One".to_owned(), ch1_paras));
        chapters.push(("Chapter Two".to_owned(), ch2_paras));
        let mut authors: Vec<String> = Vec::new();
        authors.push("Ada Lovelace".to_owned());
        authors.push("Charles Babbage".to_owned());
        let png = SAMPLE_COVER_PNG;
        FixtureSpec {
            title: "The Sample Book".to_owned(),
            authors,
            language: "en".to_owned(),
            identifier: "urn:uuid:11111111-2222-3333-4444-555555555555".to_owned(),
            publisher: "Analytical Press".to_owned(),
            date: "2026-06-21".to_owned(),
            chapters,
            cover: Some(
                CoverImage {
                    filename: "cover.png".to_owned(),
                    media_type: "image/png".to_owned(),
                    bytes: bytes_to_vec(&png),
                },
            ),
        }
    }
}

/// Appends `s`, XML-escaped.
fn push_escaped(out: &mut Vec<char>, s: &str)
    ensures
        final(out)@ == old(out)@ + xml_escape_spec(s@),
{
    let sv = chars_of(s);
    let mut i: usize = 0;
    while i < sv.len()
        invariant
            i <= sv@.len(),
            sv@ == s@,
            out@ == old(out)@ + xml_escape_spec(sv@.take(i as int)),
        decreases sv@.len() - i,
    {
        let ch = sv[i];
        assert(sv@.take(i + 1).drop_last() =~= sv@.take(i as int));
        let ghost before = out@;
        if ch == '&' {
            extend_str(out, "&amp;");
        } else if ch == '<' {
            extend_str(out, "&lt;");
        } else if ch == '>' {
            extend_str(out, "&gt;");
        } else if ch == '"' {
            extend_str(out, "&quot;");
        } else if ch == '\'' {
            extend_str(out, "&apos;");
        } else {
            out.push(ch);
            assert(out@ =~= before + seq![ch]);
        }
        assert(out@ =~= old(out)@ + xml_escape_spec(sv@.take(i + 1)));
        i = i + 1;
    }
    assert(sv@.take(sv@.len() as int) =~= sv@);
}

/// Appends the decimal digits of `n`.
fn push_decimal(out: &mut Vec<char>, n: usize)
    ensures
        final(out)@ == old(out)@ + decimal(n as nat),
    decreases n,
{
    if n >= 10 {
        push_decimal(out, n / 10);
    }
    let d = (n % 10) as u32;
    let c: char = if d == 0 {
        '0'
    } else if d == 1 {
        '1'
    } else if d == 2 {
        '2'
    } else if d == 3 {
        '3'
    } else if d == 4 {
        '4'
    } else if d == 5 {
        '5'
    } else if d == 6 {
        '6'
    } else if d == 7 {
        '7'
    } else if d == 8 {
        '8'
    } else {
        '9'
    };
    assert(c == ('0' as u32 + (n % 10) as nat) as char);
    out.push(c);
    if n >= 10 {
        assert(out@ =~= old(out)@ + decimal(n as nat));
    } else {
        assert(out@ =~= old(out)@ + decimal(n as nat));
    }
}

/// The encoded bytes of a character sequence.
fn encode(v: &[char]) -> (r: Vec<u8>)
    ensures
        r@ == vstd::utf8::encode_utf8(v@),
{
    let s = string_of(v);
    bytes_to_vec(s.as_str().as_bytes())
}

fn chapter_doc(title: &String, paras: &Vec<String>) -> (r: Vec<char>)
    ensures
        r@ == chapter_spec(title@, paras@),
{
    let mut out: Vec<char> = Vec::new();
    extend_str(&mut out, CHAPTER_HEAD);
    push_escaped(&mut out, title.as_str());
    extend_str(&mut out, CHAPTER_MID);
    push_escaped(&mut out, title.as_str());
    extend_str(&mut out, CHAPTER_H1_END);
    let ghost head = out@;
    let mut i: usize = 0;
    while i < paras.len()
        invariant
            i <= paras@.len(),
            out@ == head + paras_spec(paras@.take(i as int)),
        decreases paras@.len() - i,
    {
        assert(paras@.take(i + 1).drop_last() =~= paras@.take(i as int));
        extend_str(&mut out, PARA_OPEN);
        push_escaped(&mut out, paras[i].as_str());
        extend_str(&mut out, PARA_CLOSE);
        assert(out@ =~= head + paras_spec(paras@.take(i + 1)));
        i = i + 1;
    }
    assert(paras@.take(paras@.len() as int) =~= paras@);
    extend_str(&mut out, CHAPTER_TAIL);
    assert(out@ =~= chapter_spec(title@, paras@));
    out
}

/// Appends the per-chapter lines of one kind (0: nav item, 1: manifest item,
/// 2: spine itemref).
fn push_per_chapter(out: &mut Vec<char>, chapters: &Vec<(String, Vec<String>)>, kind: u8)
    requires
        kind < 3,
    ensures
        final(out)@ == old(out)@ + per_chapter(
            chapters@,
            if kind == 0 {
                nav_item_spec()
            } else if kind == 1 {
                manifest_item_line()
            } else {
                spine_item_line()
            },
        ),
{
    let ghost f = if kind == 0 {
        nav_item_spec()
    } else if kind == 1 {
        manifest_item_line()
    } else {
        spine_item_line()
    };
    let mut i: usize = 0;
    while i < chapters.len()
        invariant
            i <= chapters@.len(),
            kind < 3,
            f == if kind == 0 {
                nav_item_spec()
            } else if kind == 1 {
                manifest_item_line()
            } else {
                spine_item_line()
            },
            out@ == old(out)@ + per_chapter(chapters@.take(i as int), f),
        decreases chapters@.len() - i,
    {
        let ghost before = out@;
        assert(chapters@.take(i + 1).drop_last() =~= chapters@.take(i as int));
        assert(chapters@.take(i + 1).last() == chapters@[i as int]);
        let n = i + 1;
        if kind == 0 {
            extend_str(out, NAV_ITEM_OPEN);
            push_decimal(out, n);
            extend_str(out, NAV_ITEM_MID);
            push_escaped(out, chapters[i].0.as_str());
            extend_str(out, NAV_ITEM_CLOSE);
        } else if kind == 1 {
            extend_str(out, MANIFEST_ITEM_OPEN);
            push_decimal(out, n);
            extend_str(out, MANIFEST_ITEM_MID);
            push_decimal(out, n);
            extend_str(out, MANIFEST_ITEM_CLOSE);
        } else {
            extend_str(out, SPINE_ITEM_OPEN);
            push_decimal(out, n);
            extend_str(out, SPINE_ITEM_CLOSE);
        }
        assert(out@ =~= before + f(n as nat, chapters@[i as int].0@));
        assert(out@ =~= old(out)@ + per_chapter(chapters@.take(i + 1), f));
        i = i + 1;
    }
    assert(chapters@.take(chapters@.len() as int) =~= chapters@);
}

fn creators_lines(out: &mut Vec<char>, authors: &Vec<String>)
    ensures
        final(out)@ == old(out)@ + creators_spec(authors@),
{
    let mut i: usize = 0;
    while i < authors.len()
        invariant
            i <= authors@.len(),
            out@ == old(out)@ + creators_spec(authors@.take(i as int)),
        decreases authors@.len() - i,
    {
        assert(authors@.take(i + 1).drop_last() =~= authors@.take(i as int));
        extend_str(out, CREATOR_OPEN);
        push_escaped(out, authors[i].as_str());
        extend_str(out, CREATOR_CLOSE);
        assert(out@ =~= old(out)@ + creators_spec(authors@.take(i + 1)));
        i = i + 1;
    }
    assert(authors@.take(authors@.len() as int) =~= authors@);
}

fn opf_doc(spec: &FixtureSpec) -> (r: Vec<char>)
    ensures
        r@ == opf_doc_spec(*spec),
{
    let mut out: Vec<char> = Vec::new();
    extend_str(&mut out, OPF_HEAD);
    push_escaped(&mut out, spec.title.as_str());
    extend_str(&mut out, OPF_TITLE_END);
    creators_lines(&mut out, &spec.authors);
    extend_str(&mut out, OPF_LANGUAGE_OPEN);
    push_escaped(&mut out, spec.language.as_str());
    extend_str(&mut out, OPF_LANGUAGE_CLOSE);
    push_escaped(&mut out, spec.identifier.as_str());
    extend_str(&mut out, OPF_IDENTIFIER_CLOSE);
    push_escaped(&mut out, spec.publisher.as_str());
    extend_str(&mut out, OPF_PUBLISHER_CLOSE);
    push_escaped(&mut out, spec.date.as_str());
    extend_str(&mut out, OPF_DATE_CLOSE);
    match &spec.cover {
        Some(_) => extend_str(&mut out, COVER_META),
        None => {},
    }
    assert(out@ =~= OPF_HEAD@ + xml_escape_spec(spec.title@) + OPF_TITLE_END@ + creators_spec(
        spec.authors@,
    ) + OPF_LANGUAGE_OPEN@ + xml_escape_spec(spec.language@) + OPF_LANGUAGE_CLOSE@
        + xml_escape_spec(spec.identifier@) + OPF_IDENTIFIER_CLOSE@ + xml_escape_spec(
        spec.publisher@,
    ) + OPF_PUBLISHER_CLOSE@ + xml_escape_spec(spec.date@) + OPF_DATE_CLOSE@ + cover_meta_spec(
        spec.cover,
    ));
    extend_str(&mut out, OPF_MANIFEST_OPEN);
    match &spec.cover {
        Some(c) => {
            extend_str(&mut out, COVER_ITEM_OPEN);
            push_escaped(&mut out, c.filename.as_str());
            extend_str(&mut out, COVER_ITEM_MID);
            push_escaped(&mut out, c.media_type.as_str());
            extend_str(&mut out, COVER_ITEM_CLOSE);
        },
        None => {},
    }
    push_per_chapter(&mut out, &spec.chapters, 1);
    extend_str(&mut out, OPF_SPINE_OPEN);
    push_per_chapter(&mut out, &spec.chapters, 2);
    extend_str(&mut out, OPF_TAIL);
    assert(out@ =~= opf_doc_spec(*spec));
    out
}

/// Build the fixture EPUB and return its raw bytes.
pub fn build_epub_bytes(spec: &FixtureSpec) -> (r: Result<Vec<u8>, EpubError>)
    requires
        cover_name_fits(*spec),
    ensures
        r matches Ok(bytes) ==> zip_listing(bytes@) == Some(epub_layout(fixture_entries(*spec)).map_values(
            |e: (Seq<char>, bool, Seq<u8>)| read_back(e),
        )),
        r matches Err(e) ==> e == EpubError::ZipWrite,
        distinct_names(epub_layout(fixture_entries(*spec))) && within_zip32(
            epub_layout(fixture_entries(*spec)),
        ) ==> r is Ok,
{
    let mut entries: Vec<(String, Vec<u8>)> = Vec::new();
    // container.xml -> points at OEBPS/content.opf
    entries.push((string_of(chars_of(CONTAINER_ENTRY).as_slice()), bytes_to_vec(CONTAINER_XML.as_bytes())));
    assert(entries_view(entries@) =~= seq![(CONTAINER_ENTRY@, CONTAINER_XML.spec_bytes())]);
    // The chapter XHTML files.
    let mut i: usize = 0;
    let ghost base = entries_view(entries@);
    while i < spec.chapters.len()
        invariant
            i <= spec.chapters@.len(),
            base == seq![(CONTAINER_ENTRY@, CONTAINER_XML.spec_bytes())],
            entries_view(entries@) == base + chapter_entries(spec.chapters@.take(i as int)),
        decreases spec.chapters@.len() - i,
    {
        let ghost before = entries_view(entries@);
        assert(spec.chapters@.take(i + 1).drop_last() =~= spec.chapters@.take(i as int));
        let (ch_title, paras) = &spec.chapters[i];
        let doc = chapter_doc(ch_title, paras);
        let mut name: Vec<char> = Vec::new();
        extend_str(&mut name, CHAPTER_PATH_OPEN);
        push_decimal(&mut name, i + 1);
        extend_str(&mut name, CHAPTER_PATH_CLOSE);
        let bytes = encode(doc.as_slice());
        let name_s = string_of(name.as_slice());
        entries.push((name_s, bytes));
        assert(entries_view(entries@) =~= before.push((name@, bytes@)));
        assert(entries_view(entries@) =~= base + chapter_entries(spec.chapters@.take(i + 1)));
        i = i + 1;
    }
    assert(spec.chapters@.take(spec.chapters@.len() as int) =~= spec.chapters@);
    // EPUB 3 navigation document with a toc nav listing the chapters.
    let mut nav: Vec<char> = Vec::new();
    extend_str(&mut nav, NAV_HEAD);
    push_per_chapter(&mut nav, &spec.chapters, 0);
    extend_str(&mut nav, NAV_TAIL);
    let ghost before_nav = entries_view(entries@);
    entries.push((string_of(chars_of(NAV_ENTRY).as_slice()), encode(nav.as_slice())));
    assert(entries_view(entries@) =~= before_nav.push(
        (NAV_ENTRY@, vstd::utf8::encode_utf8(nav_doc_spec(spec.chapters@))),
    ));
    // Optional cover image: raw bytes entry.
    let ghost before_cover = entries_view(entries@);
    match &spec.cover {
        Some(c) => {
            let mut name: Vec<char> = Vec::new();
            extend_str(&mut name, OEBPS_DIR);
            extend_str(&mut name, c.filename.as_str());
            entries.push((string_of(name.as_slice()), c.bytes.clone()));
            assert(entries_view(entries@) =~= before_cover.push((OEBPS_DIR@ + c.filename@, c.bytes@)));
        },
        None => {},
    }
    // OPF package document.
    let opf = opf_doc(spec);
    let ghost before_opf = entries_view(entries@);
    entries.push((string_of(chars_of(OPF_ENTRY).as_slice()), encode(opf.as_slice())));
    assert(entries_view(entries@) =~= before_opf.push(
        (OPF_ENTRY@, vstd::utf8::encode_utf8(opf_doc_spec(*spec))),
    ));
    assert(entries_view(entries@) =~= fixture_entries(*spec));
    let nchap = spec.chapters.len();
    proof {
        assert(nchap == spec.chapters@.len());
        lemma_fixture_names_fit(*spec);
    }
    write_epub_to_vec(&entries)
}

/// Build the default fixture EPUB bytes.
pub fn build_default_epub_bytes() -> (r: Result<Vec<u8>, EpubError>)
    ensures
        r is Ok,
        r matches Ok(bytes) ==> exists|spec: FixtureSpec|
            is_sample_spec(spec) && zip_listing(bytes@) == Some(
                epub_layout(fixture_entries(spec)).map_values(
                    |e: (Seq<char>, bool, Seq<u8>)| read_back(e),
                ),
            ),
{
    let spec = FixtureSpec::default();
    proof {
        reveal_strlit("OEBPS/");
        reveal_strlit("cover.png");
        lemma_encode_utf8_len(OEBPS_DIR@ + spec.cover->0.filename@);
        lemma_sample_fits(spec);
    }
    build_epub_bytes(&spec)
}

} // verus!
