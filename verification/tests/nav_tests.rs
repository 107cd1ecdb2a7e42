//! Tables of contents from EPUB 3 nav documents and EPUB 2 NCX files.

use epub_tools::nav::{parse_nav_xhtml, parse_ncx};

#[test]
fn parses_epub3_nav() {
    let xml = r#"<html xmlns:epub="http://www.idpf.org/2007/ops">
          <body>
            <nav epub:type="toc">
              <ol>
                <li><a href="ch1.xhtml">Chapter One</a></li>
                <li><a href="ch2.xhtml">Chapter Two</a>
                  <ol><li><a href="ch2.xhtml#s1">Section</a></li></ol>
                </li>
              </ol>
            </nav>
          </body>
        </html>"#;
    let toc = parse_nav_xhtml(xml);
    assert_eq!(toc.len(), 3);
    assert_eq!(toc[0].label, "Chapter One");
    assert_eq!(toc[0].href, "ch1.xhtml");
    assert_eq!(toc[0].depth, 0);
    assert_eq!(toc[1].label, "Chapter Two");
    assert_eq!(toc[2].label, "Section");
    assert_eq!(toc[2].depth, 1);
}

#[test]
fn parses_ncx() {
    let xml = r#"<ncx><navMap>
            <navPoint id="n1" playOrder="1">
              <navLabel><text>Intro</text></navLabel>
              <content src="ch1.xhtml"/>
            </navPoint>
            <navPoint id="n2" playOrder="2">
              <navLabel><text>Body</text></navLabel>
              <content src="ch2.xhtml"/>
            </navPoint>
          </navMap></ncx>"#;
    let toc = parse_ncx(xml);
    assert_eq!(toc.len(), 2);
    assert_eq!(toc[0].label, "Intro");
    assert_eq!(toc[0].href, "ch1.xhtml");
    assert_eq!(toc[1].label, "Body");
    assert_eq!(toc[1].href, "ch2.xhtml");
}

#[test]
fn parses_nested_ncx_depth() {
    let xml = r#"<ncx><navMap>
            <navPoint><navLabel><text>Part</text></navLabel><content src="p.xhtml"/>
              <navPoint><navLabel><text>Chapter</text></navLabel><content src="c.xhtml"/></navPoint>
            </navPoint>
          </navMap></ncx>"#;
    let toc = parse_ncx(xml);
    assert_eq!(toc.len(), 2);
    assert_eq!(toc[0].label, "Part");
    assert_eq!(toc[0].depth, 0);
    assert_eq!(toc[1].label, "Chapter");
    assert_eq!(toc[1].depth, 1);
}

#[test]
fn nav_label_whitespace_is_collapsed() {
    let xml = r#"<html><body><nav epub:type="toc"><ol>
        <li><a href="a.xhtml">  A
             long   <b>title</b> </a></li>
        </ol></nav></body></html>"#;
    let toc = parse_nav_xhtml(xml);
    assert_eq!(toc.len(), 1);
    assert_eq!(toc[0].label, "A long title");
}

#[test]
fn toc_nav_is_preferred_over_other_navs() {
    let xml = r#"<html><body>
        <nav epub:type="landmarks"><ol><li><a href="l.xhtml">Landmark</a></li></ol></nav>
        <nav epub:type="toc"><ol><li><a href="t.xhtml">Toc</a></li></ol></nav>
        </body></html>"#;
    let toc = parse_nav_xhtml(xml);
    assert_eq!(toc.len(), 1);
    assert_eq!(toc[0].label, "Toc");
    assert_eq!(toc[0].href, "t.xhtml");
}

#[test]
fn empty_documents_give_empty_tocs() {
    assert!(parse_nav_xhtml("<html><body/></html>").is_empty());
    assert!(parse_ncx("<ncx><navMap/></ncx>").is_empty());
}
