//! The logic that runs on events and attribute lists already read.

use epub_tools::container::container_from_events;
use epub_tools::edit::metadata_bounds_from_events;
use epub_tools::nav::{nav_from_events, ncx_from_events};
use epub_tools::opf::opf_from_events;
use epub_tools::text::text_from_events;
use epub_tools::xml::{raw_attr_value, XmlEvent};
use epub_tools::EpubError;

fn s(x: &str) -> String {
    x.to_string()
}

#[test]
fn metadata_bounds_on_given_events() {
    let doc = "<package><metadata>x</metadata></package>";
    let events = vec![
        XmlEvent::Start(s("package"), s("")),
        XmlEvent::Start(s("metadata"), s("")),
        XmlEvent::Text(s("x")),
        XmlEvent::End(s("metadata")),
        XmlEvent::End(s("package")),
        XmlEvent::Eof,
    ];
    let offsets = vec![9, 19, 20, 31, 41, 41];
    assert_eq!(metadata_bounds_from_events(doc, &events, &offsets), Ok((19, 20)));
    let without = vec![XmlEvent::Start(s("package"), s("")), XmlEvent::Eof];
    assert_eq!(
        metadata_bounds_from_events(doc, &without, &vec![9, 9]),
        Err(EpubError::NoMetadata)
    );
    let broken = vec![XmlEvent::Start(s("metadata"), s("")), XmlEvent::Malformed];
    assert_eq!(
        metadata_bounds_from_events(doc, &broken, &vec![19, 19]),
        Err(EpubError::MetadataScan)
    );
}

#[test]
fn raw_attribute_lookup_takes_the_first_well_formed_match() {
    let attrs = vec![None, Some((s("a"), s("1"))), Some((s("b"), s("&amp;"))), Some((s("a"), s("2")))];
    assert_eq!(raw_attr_value(&attrs, "a"), Some(s("1")));
    assert_eq!(raw_attr_value(&attrs, "b"), Some(s("&amp;")));
    assert_eq!(raw_attr_value(&attrs, "c"), None);
}

#[test]
fn container_on_given_events() {
    let events = vec![
        XmlEvent::Empty(s("rootfile"), s(r#" full-path="a.opf""#)),
        XmlEvent::Empty(
            s("rootfile"),
            s(r#" full-path="b.opf" media-type="application/oebps-package+xml""#),
        ),
        XmlEvent::Eof,
    ];
    assert_eq!(container_from_events(&events), Ok(s("b.opf")));
    assert_eq!(
        container_from_events(&vec![XmlEvent::Malformed]),
        Err(EpubError::MalformedContainer)
    );
}

#[test]
fn text_on_given_events() {
    let events = vec![
        XmlEvent::Start(s("p"), s("")),
        XmlEvent::Text(s("a &amp;  b")),
        XmlEvent::End(s("p")),
        XmlEvent::CData(s("c")),
        XmlEvent::Malformed,
        XmlEvent::Text(s("never")),
    ];
    assert_eq!(text_from_events(&events), "a & b\nc");
}

#[test]
fn tocs_on_given_events() {
    let nav = vec![
        XmlEvent::Start(s("nav"), s(r#" epub:type="toc""#)),
        XmlEvent::Start(s("ol"), s("")),
        XmlEvent::Start(s("a"), s(r#" href="x.xhtml""#)),
        XmlEvent::Text(s(" X ")),
        XmlEvent::End(s("a")),
        XmlEvent::End(s("ol")),
        XmlEvent::End(s("nav")),
        XmlEvent::Eof,
    ];
    let toc = nav_from_events(&nav, true);
    assert_eq!(toc.len(), 1);
    assert_eq!((toc[0].label.as_str(), toc[0].href.as_str(), toc[0].depth), ("X", "x.xhtml", 0));

    let ncx = vec![
        XmlEvent::Start(s("navMap"), s("")),
        XmlEvent::Start(s("navPoint"), s("")),
        XmlEvent::Start(s("text"), s("")),
        XmlEvent::Text(s("N")),
        XmlEvent::End(s("text")),
        XmlEvent::Empty(s("content"), s(r#" src="n.xhtml""#)),
        XmlEvent::End(s("navPoint")),
        XmlEvent::End(s("navMap")),
        XmlEvent::Eof,
    ];
    let toc = ncx_from_events(&ncx);
    assert_eq!(toc.len(), 1);
    assert_eq!((toc[0].label.as_str(), toc[0].href.as_str(), toc[0].depth), ("N", "n.xhtml", 0));
}

#[test]
fn package_on_given_events() {
    let events = vec![
        XmlEvent::Start(s("metadata"), s("")),
        XmlEvent::Start(s("dc:title"), s("")),
        XmlEvent::Text(s(" T ")),
        XmlEvent::End(s("dc:title")),
        XmlEvent::End(s("metadata")),
        XmlEvent::Empty(s("item"), s(r#" id="i" href="i.xhtml""#)),
        XmlEvent::Empty(s("spine"), s(r#" toc="i""#)),
        XmlEvent::Empty(s("itemref"), s(r#" idref="i" linear="no""#)),
        XmlEvent::Eof,
    ];
    let pkg = opf_from_events(&events, "O/p.opf").unwrap();
    assert_eq!(pkg.metadata.title.as_deref(), Some("T"));
    assert_eq!(pkg.manifest[0].resolved_path, "O/i.xhtml");
    assert_eq!(pkg.manifest[0].media_type, "");
    assert_eq!(pkg.spine_toc.as_deref(), Some("i"));
    assert!(!pkg.spine[0].linear);
    assert_eq!(
        opf_from_events(&vec![XmlEvent::Malformed], "p.opf").err(),
        Some(EpubError::MalformedOpf)
    );
}
