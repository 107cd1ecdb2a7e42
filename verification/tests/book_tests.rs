//! Opening books, their failure modes, covers and tables of contents.

use epub_tools::fixture::{build_default_epub_bytes, build_epub_bytes, FixtureSpec};
use epub_tools::package::{first_entry_info, write_epub_to_vec, RawEpub};
use epub_tools::{Cover, CoverError, Epub, EpubError, MetadataEdit};

const CONTAINER: &str = r#"<?xml version="1.0"?>
<container version="1.0" xmlns="urn:oasis:names:tc:opendocument:xmlns:container">
  <rootfiles><rootfile full-path="OEBPS/content.opf" media-type="application/oebps-package+xml"/></rootfiles>
</container>"#;

fn book(opf: &str, extra: &[(&str, &[u8])]) -> Vec<u8> {
    let mut entries = vec![
        ("META-INF/container.xml".to_string(), CONTAINER.as_bytes().to_vec()),
        ("OEBPS/content.opf".to_string(), opf.as_bytes().to_vec()),
    ];
    for (p, b) in extra {
        entries.push((p.to_string(), b.to_vec()));
    }
    write_epub_to_vec(&entries).unwrap()
}

#[test]
fn cover_missing_resource_names_its_path() {
    let opf = r#"<package version="3.0">
  <metadata xmlns:dc="http://purl.org/dc/elements/1.1/"><dc:title>T</dc:title></metadata>
  <manifest>
    <item id="cover" href="missing.png" media-type="image/png" properties="cover-image"/>
  </manifest>
  <spine/>
</package>"#;
    let epub = Epub::from_bytes(book(opf, &[])).unwrap();
    assert_eq!(
        epub.cover_image().err(),
        Some(CoverError::Missing("OEBPS/missing.png".to_string()))
    );
    assert!(epub.cover().is_none());
}

#[test]
fn cover_guide_reference_is_unresolvable() {
    let opf = r#"<package version="2.0">
  <metadata xmlns:dc="http://purl.org/dc/elements/1.1/"><dc:title>T</dc:title></metadata>
  <manifest>
    <item id="cover-page" href="cover.xhtml" media-type="application/xhtml+xml"/>
  </manifest>
  <spine><itemref idref="cover-page"/></spine>
  <guide>
    <reference type="cover" title="Cover" href="cover.xhtml"/>
  </guide>
</package>"#;
    let html: &[u8] = b"<html><body>NOT-AN-IMAGE</body></html>";
    let epub = Epub::from_bytes(book(opf, &[("OEBPS/cover.xhtml", html)])).unwrap();
    assert_eq!(
        epub.cover_image().err(),
        Some(CoverError::Unresolvable("cover.xhtml".to_string()))
    );
}

#[test]
fn cover_dangling_meta_is_unresolvable() {
    let opf = r#"<package version="2.0">
  <metadata xmlns:dc="http://purl.org/dc/elements/1.1/">
    <dc:title>T</dc:title>
    <meta name="cover" content="no-such-id"/>
  </metadata>
  <manifest><item id="c1" href="c1.xhtml" media-type="application/xhtml+xml"/></manifest>
  <spine><itemref idref="c1"/></spine>
</package>"#;
    let epub = Epub::from_bytes(book(opf, &[("OEBPS/c1.xhtml", b"<html><body>hi</body></html>")]))
        .unwrap();
    assert_eq!(
        epub.cover_image().err(),
        Some(CoverError::Unresolvable("no-such-id".to_string()))
    );
}

#[test]
fn cover_not_declared() {
    let spec = FixtureSpec {
        cover: None,
        ..Default::default()
    };
    let epub = Epub::from_bytes(build_epub_bytes(&spec).unwrap()).unwrap();
    assert_eq!(epub.cover_image().err(), Some(CoverError::NotDeclared));
}

#[test]
fn opening_failures_are_told_apart() {
    assert_eq!(Epub::from_bytes(b"junk".to_vec()).err(), Some(EpubError::NotAZip));

    let no_container =
        write_epub_to_vec(&vec![("OEBPS/content.opf".to_string(), b"<package/>".to_vec())])
            .unwrap();
    assert_eq!(Epub::from_bytes(no_container).err(), Some(EpubError::MissingContainer));

    let bad_container = write_epub_to_vec(&vec![(
        "META-INF/container.xml".to_string(),
        b"<container><rootfiles></container>".to_vec(),
    )])
    .unwrap();
    assert_eq!(Epub::from_bytes(bad_container).err(), Some(EpubError::MalformedContainer));

    let empty_container = write_epub_to_vec(&vec![(
        "META-INF/container.xml".to_string(),
        b"<container/>".to_vec(),
    )])
    .unwrap();
    assert_eq!(Epub::from_bytes(empty_container).err(), Some(EpubError::NoRootfile));

    let no_opf = write_epub_to_vec(&vec![(
        "META-INF/container.xml".to_string(),
        CONTAINER.as_bytes().to_vec(),
    )])
    .unwrap();
    assert_eq!(
        Epub::from_bytes(no_opf).err(),
        Some(EpubError::MissingOpf("OEBPS/content.opf".to_string()))
    );

    let bad_opf = book("<package><metadata></package>", &[]);
    assert_eq!(Epub::from_bytes(bad_opf).err(), Some(EpubError::MalformedOpf));
}

#[test]
fn chapter_out_of_range_reports_bounds() {
    let epub = Epub::from_bytes(build_default_epub_bytes().unwrap()).unwrap();
    assert_eq!(epub.chapter_text(0), Err(EpubError::ChapterOutOfRange(0, 2)));
    assert_eq!(epub.chapter_text(3), Err(EpubError::ChapterOutOfRange(3, 2)));
    assert_eq!(epub.chapter_text(2).unwrap(), "Chapter Two\nCall me Ishmael.");
}

#[test]
fn full_text_joins_chapters_with_blank_lines() {
    let epub = Epub::from_bytes(build_default_epub_bytes().unwrap()).unwrap();
    assert_eq!(
        epub.full_text(),
        "Chapter One\nIt was the best of times.\nIt was the worst of times.\n\nChapter Two\nCall me Ishmael."
    );
}

#[test]
fn missing_and_empty_spine_documents_are_skipped_in_full_text() {
    let opf = r#"<package>
  <metadata/>
  <manifest>
    <item id="a" href="a.xhtml" media-type="application/xhtml+xml"/>
    <item id="gone" href="gone.xhtml" media-type="application/xhtml+xml"/>
    <item id="e" href="e.xhtml" media-type="application/xhtml+xml"/>
    <item id="b" href="b.xhtml" media-type="application/xhtml+xml"/>
  </manifest>
  <spine><itemref idref="a"/><itemref idref="gone"/><itemref idref="e"/><itemref idref="unknown"/><itemref idref="b"/></spine>
</package>"#;
    let epub = Epub::from_bytes(book(
        opf,
        &[
            ("OEBPS/a.xhtml", b"<p>A</p>"),
            ("OEBPS/e.xhtml", b"<p> </p>"),
            ("OEBPS/b.xhtml", b"<p>B</p>"),
        ],
    ))
    .unwrap();
    assert_eq!(epub.full_text(), "A\n\nB");
    assert_eq!(epub.chapter_count(), 4);
    assert_eq!(epub.spine_items().len(), 4);
    // A spine document absent from the archive reads as empty text.
    assert_eq!(epub.chapter_text(2).unwrap(), "");
}

#[test]
fn toc_falls_back_to_ncx() {
    let opf = r#"<package>
  <metadata/>
  <manifest><item id="toc" href="toc.ncx" media-type="application/x-dtbncx+xml"/></manifest>
  <spine toc="toc"/>
</package>"#;
    let ncx: &[u8] = b"<ncx><navMap><navPoint><navLabel><text>Only</text></navLabel><content src=\"o.xhtml\"/></navPoint></navMap></ncx>";
    let epub = Epub::from_bytes(book(opf, &[("OEBPS/toc.ncx", ncx)])).unwrap();
    let toc = epub.toc();
    assert_eq!(toc.len(), 1);
    assert_eq!(toc[0].label, "Only");
    assert_eq!(toc[0].href, "o.xhtml");
    assert_eq!(toc[0].depth, 0);
}

#[test]
fn toc_is_empty_without_nav_or_ncx() {
    let epub = Epub::from_bytes(book("<package><metadata/><manifest/><spine/></package>", &[]))
        .unwrap();
    assert!(epub.toc().is_empty());
}

#[test]
fn entry_bytes_reads_raw_entries() {
    let epub = Epub::from_bytes(build_default_epub_bytes().unwrap()).unwrap();
    assert_eq!(epub.entry_bytes("mimetype").unwrap(), b"application/epub+zip");
    assert!(epub.entry_bytes("OEBPS/none").is_none());
    assert_eq!(epub.package().opf_path, "OEBPS/content.opf");
}

#[test]
fn extension_rules() {
    let c = |mt: &str, p: &str| Cover {
        resolved_path: p.to_string(),
        media_type: mt.to_string(),
        bytes: Vec::new(),
    };
    assert_eq!(c(" IMAGE/JPEG ", "x").extension(), "jpg");
    assert_eq!(c("image/jpg", "x").extension(), "jpg");
    assert_eq!(c("image/svg+xml", "x").extension(), "svg");
    assert_eq!(c("image/webp", "x").extension(), "webp");
    assert_eq!(c("image/tiff", "x").extension(), "tiff");
    assert_eq!(c("image/bmp", "x").extension(), "bmp");
    assert_eq!(c("image/gif", "x").extension(), "gif");
    assert_eq!(c("x/y", "a.b/cover").extension(), "img");
    assert_eq!(c("x/y", "cover.").extension(), "img");
    assert_eq!(c("x/y", "cover.TOOLONG").extension(), "img");
    assert_eq!(c("x/y", "dir/COVER.Jpeg").extension(), "jpeg");
    assert_eq!(c("x/y", "c.é").extension(), "é");
}

#[test]
fn metadata_edit_errors() {
    let mut epub = Epub::from_bytes(build_default_epub_bytes().unwrap()).unwrap();
    let edit = MetadataEdit {
        title: Some("T".to_string()),
        ..Default::default()
    };
    let no_meta = Epub::from_bytes(book("<package><manifest/><spine/></package>", &[])).unwrap();
    assert_eq!(no_meta.serialize_with_metadata(&edit), Err(EpubError::NoMetadata));
    epub.package.opf_path = "elsewhere.opf".to_string();
    assert_eq!(epub.serialize_with_metadata(&edit), Err(EpubError::OpfDisappeared));
}

#[test]
fn serialized_edit_keeps_every_other_entry() {
    let epub = Epub::from_bytes(build_default_epub_bytes().unwrap()).unwrap();
    let edit = MetadataEdit {
        language: Some("fr".to_string()),
        ..Default::default()
    };
    let bytes = epub.serialize_with_metadata(&edit).unwrap();
    assert_eq!(first_entry_info(&bytes).unwrap(), ("mimetype".to_string(), true));
    let before = &epub.raw;
    let after = RawEpub::read(bytes).unwrap();
    assert_eq!(before.entries.len(), after.entries.len());
    for ((p1, b1), (p2, b2)) in before.entries.iter().zip(after.entries.iter()) {
        assert_eq!(p1, p2);
        if p1 != "OEBPS/content.opf" {
            assert_eq!(b1, b2);
        }
    }
    let reopened = Epub::from_bytes(epub.serialize_with_metadata(&edit).unwrap()).unwrap();
    assert_eq!(reopened.metadata().languages, vec!["fr"]);
    assert_eq!(reopened.metadata().title.as_deref(), Some("The Sample Book"));
}

#[test]
fn info_report_of_the_sample_book() {
    let epub = Epub::from_bytes(build_default_epub_bytes().unwrap()).unwrap();
    assert_eq!(
        epub_tools::info_report(epub.metadata()),
        "Title:      The Sample Book\n\
         Author(s):  Ada Lovelace, Charles Babbage\n\
         Language:   en\n\
         Identifier: urn:uuid:11111111-2222-3333-4444-555555555555\n\
         Publisher:  Analytical Press\n\
         Date:       2026-06-21\n"
    );
}

#[test]
fn info_report_marks_absent_fields_and_shows_description() {
    let md = epub_tools::Metadata {
        title: None,
        creators: vec![],
        languages: vec!["en".to_string(), "fr".to_string()],
        identifier: None,
        publisher: None,
        date: None,
        description: Some("About.".to_string()),
        rights: None,
    };
    assert_eq!(
        epub_tools::info_report(&md),
        "Title:      (none)\nAuthor(s):  (none)\nLanguage:   en, fr\nIdentifier: (none)\nPublisher:  (none)\nDate:       (none)\nDescription: About.\n"
    );
}
