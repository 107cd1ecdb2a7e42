//! Parsing the OPF package document.

use epub_tools::opf::parse_opf;
use epub_tools::EpubError;

const EPUB2_OPF: &str = r#"<?xml version="1.0"?>
<package xmlns="http://www.idpf.org/2007/opf" version="2.0" unique-identifier="bookid">
  <metadata xmlns:dc="http://purl.org/dc/elements/1.1/">
    <dc:title>Legacy Book</dc:title>
    <meta name="cover" content="cover-img"/>
  </metadata>
  <manifest>
    <item id="cover-img" href="images/cover.jpg" media-type="image/jpeg"/>
    <item id="ch1" href="ch1.xhtml" media-type="application/xhtml+xml"/>
  </manifest>
  <spine>
    <itemref idref="ch1"/>
  </spine>
</package>
"#;

#[test]
fn cover_item_falls_back_to_meta_name_cover() {
    let pkg = parse_opf(EPUB2_OPF, "OEBPS/content.opf").unwrap();
    assert_eq!(pkg.cover_id.as_deref(), Some("cover-img"));
    let cover = pkg.cover_item().expect("cover resolved via meta");
    assert_eq!(cover.id, "cover-img");
    assert_eq!(cover.resolved_path, "OEBPS/images/cover.jpg");
    assert_eq!(cover.media_type, "image/jpeg");
}

#[test]
fn cover_item_prefers_properties_over_meta() {
    let opf = r#"<package xmlns="http://www.idpf.org/2007/opf" version="3.0">
  <metadata><meta name="cover" content="old"/></metadata>
  <manifest>
    <item id="old" href="old.png" media-type="image/png"/>
    <item id="c" href="cover.png" media-type="image/png" properties="cover-image"/>
  </manifest>
  <spine/>
</package>"#;
    let pkg = parse_opf(opf, "content.opf").unwrap();
    assert_eq!(pkg.cover_item().unwrap().id, "c");
}

#[test]
fn no_cover_declared_yields_none() {
    let opf = r#"<package xmlns="http://www.idpf.org/2007/opf" version="3.0">
  <metadata><dc:title xmlns:dc="http://purl.org/dc/elements/1.1/">X</dc:title></metadata>
  <manifest><item id="ch1" href="ch1.xhtml" media-type="application/xhtml+xml"/></manifest>
  <spine><itemref idref="ch1"/></spine>
</package>"#;
    let pkg = parse_opf(opf, "content.opf").unwrap();
    assert!(pkg.cover_item().is_none());
}

#[test]
fn dublin_core_fields_are_trimmed_and_first_wins() {
    let opf = r#"<package>
  <metadata xmlns:dc="http://purl.org/dc/elements/1.1/">
    <dc:title>  First  </dc:title>
    <dc:title>Second</dc:title>
    <dc:creator>A</dc:creator>
    <dc:creator>   </dc:creator>
    <dc:creator>B</dc:creator>
    <dc:language>en</dc:language>
    <dc:language>fr</dc:language>
    <dc:rights>CC &amp; co</dc:rights>
    <dc:description><![CDATA[<b>bold</b>]]></dc:description>
  </metadata>
  <manifest/>
  <spine/>
</package>"#;
    let pkg = parse_opf(opf, "content.opf").unwrap();
    let md = &pkg.metadata;
    assert_eq!(md.title.as_deref(), Some("First"));
    assert_eq!(md.creators, vec!["A", "B"]);
    assert_eq!(md.languages, vec!["en", "fr"]);
    assert_eq!(md.first_creator(), Some("A"));
    assert_eq!(md.first_language(), Some("en"));
    assert_eq!(md.rights.as_deref(), Some("CC & co"));
    assert_eq!(md.description.as_deref(), Some("<b>bold</b>"));
    assert_eq!(md.publisher, None);
}

#[test]
fn manifest_and_spine_attributes() {
    let opf = r#"<package>
  <metadata/>
  <manifest>
    <item id="a" href="text/a%20b.xhtml" media-type="application/xhtml+xml" properties="nav scripted"/>
    <item id="noref"/>
    <item href="no-id.xhtml"/>
    <item id="ncx" href="toc.ncx" media-type="application/x-dtbncx+xml"/>
  </manifest>
  <spine toc="ncx">
    <itemref idref="a"/>
    <itemref idref="ncx" linear="no"/>
    <itemref idref="a" linear="YES"/>
    <itemref idref="a" linear=""/>
    <itemref/>
  </spine>
</package>"#;
    let pkg = parse_opf(opf, "OEBPS/content.opf").unwrap();
    assert_eq!(pkg.manifest.len(), 2);
    assert_eq!(pkg.manifest[0].resolved_path, "OEBPS/text/a b.xhtml");
    assert!(pkg.manifest[0].is_nav());
    assert!(!pkg.manifest[0].is_cover_image());
    assert_eq!(pkg.spine.len(), 4);
    assert!(pkg.spine[0].linear);
    assert!(!pkg.spine[1].linear);
    assert!(pkg.spine[2].linear);
    assert!(pkg.spine[3].linear);
    assert_eq!(pkg.spine_toc.as_deref(), Some("ncx"));
    assert_eq!(pkg.ncx_item().unwrap().id, "ncx");
    assert_eq!(pkg.nav_item().unwrap().id, "a");
    assert_eq!(pkg.manifest_item("ncx").unwrap().href, "toc.ncx");
    assert!(pkg.manifest_item("zzz").is_none());
    assert_eq!(pkg.opf_path, "OEBPS/content.opf");
    let spine: Vec<&str> = pkg.spine_items().iter().map(|i| i.id.as_str()).collect();
    assert_eq!(spine, vec!["a", "ncx", "a", "a"]);
}

#[test]
fn malformed_opf_is_an_error() {
    let opf = "<package><metadata></package>";
    assert_eq!(parse_opf(opf, "content.opf").err(), Some(EpubError::MalformedOpf));
}
