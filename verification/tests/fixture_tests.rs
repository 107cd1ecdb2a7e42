//! The generated sample EPUB.

use epub_tools::fixture::{build_default_epub_bytes, build_epub_bytes, CoverImage, FixtureSpec};
use epub_tools::package::{first_entry_info, RawEpub};
use epub_tools::Epub;

#[test]
fn fixture_is_parseable() {
    let bytes = build_default_epub_bytes().unwrap();
    let epub = Epub::from_bytes(bytes).unwrap();
    assert_eq!(epub.metadata().title.as_deref(), Some("The Sample Book"));
    assert_eq!(epub.metadata().creators.len(), 2);
    assert_eq!(epub.chapter_count(), 2);
}

#[test]
fn fixture_escapes_markup_in_its_values() {
    let spec = FixtureSpec {
        title: "Q & \"A\" <x> 'y'".to_string(),
        chapters: vec![("One & Two".to_string(), vec!["a < b".to_string()])],
        cover: None,
        ..Default::default()
    };
    let bytes = build_epub_bytes(&spec).unwrap();
    let raw = RawEpub::read(bytes.clone()).unwrap();
    let opf = raw.get_str("OEBPS/content.opf").unwrap();
    assert!(opf.contains("<dc:title>Q &amp; &quot;A&quot; &lt;x&gt; &apos;y&apos;</dc:title>"));
    let epub = Epub::from_bytes(bytes).unwrap();
    assert_eq!(epub.metadata().title.as_deref(), Some("Q & \"A\" <x> 'y'"));
    assert_eq!(epub.full_text(), "One & Two\na < b");
    assert_eq!(epub.toc()[0].label, "One & Two");
}

#[test]
fn fixture_layout_and_cover_declaration() {
    let spec = FixtureSpec {
        cover: Some(CoverImage {
            filename: "c.gif".to_string(),
            media_type: "image/gif".to_string(),
            bytes: vec![1, 2, 3],
        }),
        ..Default::default()
    };
    let bytes = build_epub_bytes(&spec).unwrap();
    assert_eq!(first_entry_info(&bytes).unwrap(), ("mimetype".to_string(), true));
    let raw = RawEpub::read(bytes).unwrap();
    let names: Vec<&str> = raw.entries.iter().map(|(p, _)| p.as_str()).collect();
    assert_eq!(
        names,
        vec![
            "mimetype",
            "META-INF/container.xml",
            "OEBPS/chapter1.xhtml",
            "OEBPS/chapter2.xhtml",
            "OEBPS/nav.xhtml",
            "OEBPS/c.gif",
            "OEBPS/content.opf",
        ]
    );
    let opf = raw.get_str("OEBPS/content.opf").unwrap();
    assert!(opf.contains(r#"<meta name="cover" content="cover-image"/>"#));
    assert!(opf.contains(
        r#"<item id="cover-image" href="c.gif" media-type="image/gif" properties="cover-image"/>"#
    ));
}
