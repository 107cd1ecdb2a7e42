//! Locating the OPF package document from `META-INF/container.xml`.

use epub_tools::container::parse_container;
use epub_tools::EpubError;

#[test]
fn finds_opf_path() {
    let xml = r#"<?xml version="1.0"?>
        <container version="1.0" xmlns="urn:oasis:names:tc:opendocument:xmlns:container">
          <rootfiles>
            <rootfile full-path="OEBPS/content.opf" media-type="application/oebps-package+xml"/>
          </rootfiles>
        </container>"#;
    assert_eq!(parse_container(xml).unwrap(), "OEBPS/content.opf");
}

#[test]
fn prefers_oebps_media_type() {
    let xml = r#"<container>
          <rootfiles>
            <rootfile full-path="other.xml" media-type="application/something"/>
            <rootfile full-path="content.opf" media-type="application/oebps-package+xml"/>
          </rootfiles>
        </container>"#;
    assert_eq!(parse_container(xml).unwrap(), "content.opf");
}

#[test]
fn falls_back_to_first_rootfile() {
    let xml = r#"<container><rootfiles>
            <rootfile full-path="weird.opf"/>
          </rootfiles></container>"#;
    assert_eq!(parse_container(xml).unwrap(), "weird.opf");
}

#[test]
fn no_rootfile_is_an_error() {
    let xml = r#"<container><rootfiles></rootfiles></container>"#;
    assert_eq!(parse_container(xml), Err(EpubError::NoRootfile));
}

#[test]
fn rootfile_without_full_path_is_ignored() {
    let xml = r#"<container><rootfiles>
            <rootfile media-type="application/oebps-package+xml"/>
            <rootfile full-path="second.opf"/>
          </rootfiles></container>"#;
    assert_eq!(parse_container(xml).unwrap(), "second.opf");
}

#[test]
fn malformed_container_is_an_error() {
    let xml = r#"<container><rootfiles></container>"#;
    assert_eq!(parse_container(xml), Err(EpubError::MalformedContainer));
}

#[test]
fn prefixed_rootfile_and_escaped_path_are_read() {
    let xml = r#"<c:container xmlns:c="urn:x"><c:rootfiles>
            <c:rootfile full-path="A&amp;B/content.opf"/>
          </c:rootfiles></c:container>"#;
    assert_eq!(parse_container(xml).unwrap(), "A&B/content.opf");
}
