//! In-place rewriting of Dublin Core metadata.

use epub_tools::edit::apply_metadata_edit;
use epub_tools::{EpubError, MetadataEdit};

const OPF: &str = r#"<?xml version="1.0" encoding="utf-8"?>
<package xmlns="http://www.idpf.org/2007/opf" version="3.0" unique-identifier="bookid">
  <metadata xmlns:dc="http://purl.org/dc/elements/1.1/">
    <dc:title>Original Title</dc:title>
    <dc:creator>Original Author</dc:creator>
    <dc:language>en</dc:language>
    <dc:identifier id="bookid">urn:uuid:1234</dc:identifier>
  </metadata>
  <manifest>
    <item id="c1" href="c1.xhtml" media-type="application/xhtml+xml"/>
  </manifest>
  <spine>
    <itemref idref="c1"/>
  </spine>
</package>"#;

#[test]
fn replaces_existing_title() {
    let edit = MetadataEdit {
        title: Some("Brand New Title".to_string()),
        ..Default::default()
    };
    let out = apply_metadata_edit(OPF, &edit).unwrap();
    assert!(out.contains("<dc:title>Brand New Title</dc:title>"));
    assert!(!out.contains("Original Title"));
    // The rest of the document is preserved.
    assert!(out.contains(r#"<item id="c1" href="c1.xhtml""#));
    assert!(out.contains("<dc:creator>Original Author</dc:creator>"));
}

#[test]
fn replaces_existing_author() {
    let edit = MetadataEdit {
        author: Some("New Author".to_string()),
        ..Default::default()
    };
    let out = apply_metadata_edit(OPF, &edit).unwrap();
    assert!(out.contains("<dc:creator>New Author</dc:creator>"));
    assert!(!out.contains("Original Author"));
}

#[test]
fn inserts_missing_publisher() {
    let edit = MetadataEdit {
        publisher: Some("Acme Press".to_string()),
        ..Default::default()
    };
    let out = apply_metadata_edit(OPF, &edit).unwrap();
    assert!(out.contains("<dc:publisher>Acme Press</dc:publisher>"));
    // Inserted before </metadata>.
    let pub_idx = out.find("Acme Press").unwrap();
    let meta_close = out.find("</metadata>").unwrap();
    assert!(pub_idx < meta_close);
}

#[test]
fn escapes_special_chars() {
    let edit = MetadataEdit {
        title: Some("Tom & Jerry <Best>".to_string()),
        ..Default::default()
    };
    let out = apply_metadata_edit(OPF, &edit).unwrap();
    assert!(out.contains("Tom &amp; Jerry &lt;Best&gt;"));
}

#[test]
fn multiple_edits_at_once() {
    let edit = MetadataEdit {
        title: Some("T2".to_string()),
        author: Some("A2".to_string()),
        language: Some("fr".to_string()),
        publisher: Some("P2".to_string()),
    };
    let out = apply_metadata_edit(OPF, &edit).unwrap();
    assert!(out.contains("<dc:title>T2</dc:title>"));
    assert!(out.contains("<dc:creator>A2</dc:creator>"));
    assert!(out.contains("<dc:language>fr</dc:language>"));
    assert!(out.contains("<dc:publisher>P2</dc:publisher>"));
}

#[test]
fn replacing_a_title_changes_only_its_text() {
    let edit = MetadataEdit {
        title: Some("X".to_string()),
        ..Default::default()
    };
    let out = apply_metadata_edit(OPF, &edit).unwrap();
    assert_eq!(out, OPF.replace("Original Title", "X"));
}

#[test]
fn inserted_element_goes_right_before_metadata_close() {
    let edit = MetadataEdit {
        publisher: Some("P".to_string()),
        ..Default::default()
    };
    let out = apply_metadata_edit(OPF, &edit).unwrap();
    let expected = OPF.replace(
        "</metadata>",
        "  <dc:publisher>P</dc:publisher>\n</metadata>",
    );
    assert_eq!(out, expected);
}

#[test]
fn empty_edit_leaves_document_unchanged() {
    let edit = MetadataEdit::default();
    assert!(edit.is_empty());
    assert_eq!(apply_metadata_edit(OPF, &edit).unwrap(), OPF);
}

#[test]
fn is_empty_is_false_with_any_field() {
    let edit = MetadataEdit {
        language: Some("de".to_string()),
        ..Default::default()
    };
    assert!(!edit.is_empty());
}

#[test]
fn quotes_and_apostrophes_are_kept_verbatim() {
    let edit = MetadataEdit {
        title: Some("\"It's\"".to_string()),
        ..Default::default()
    };
    let out = apply_metadata_edit(OPF, &edit).unwrap();
    assert!(out.contains("<dc:title>\"It's\"</dc:title>"));
}

#[test]
fn missing_metadata_block_is_an_error() {
    let edit = MetadataEdit {
        title: Some("T".to_string()),
        ..Default::default()
    };
    let opf = "<package><manifest/></package>";
    assert_eq!(apply_metadata_edit(opf, &edit), Err(EpubError::NoMetadata));
}
