//! Reading and writing the zip container.

use std::io::Cursor;

use epub_tools::package::{first_entry_info, write_epub_to_vec, RawEpub, EPUB_MIMETYPE};
use epub_tools::EpubError;
use zip::{CompressionMethod, ZipArchive};

#[test]
fn mimetype_is_first_and_stored() {
    let entries = vec![
        (
            "META-INF/container.xml".to_string(),
            b"<container/>".to_vec(),
        ),
        ("OEBPS/content.opf".to_string(), b"<package/>".to_vec()),
    ];
    let bytes = write_epub_to_vec(&entries).unwrap();
    let (name, stored) = first_entry_info(&bytes).unwrap();
    assert_eq!(name, "mimetype");
    assert!(stored, "mimetype entry must be stored (uncompressed)");
}

#[test]
fn provided_mimetype_is_not_duplicated() {
    let entries = vec![
        ("mimetype".to_string(), b"application/epub+zip".to_vec()),
        ("OEBPS/content.opf".to_string(), b"<package/>".to_vec()),
    ];
    let bytes = write_epub_to_vec(&entries).unwrap();
    let mut archive = ZipArchive::new(Cursor::new(bytes)).unwrap();
    let mut count = 0;
    for i in 0..archive.len() {
        if archive.by_index(i).unwrap().name() == "mimetype" {
            count += 1;
        }
    }
    assert_eq!(count, 1, "mimetype must appear exactly once");
}

#[test]
fn roundtrip_reads_back_entries() {
    let entries = vec![
        (
            "META-INF/container.xml".to_string(),
            b"<container/>".to_vec(),
        ),
        ("OEBPS/ch1.xhtml".to_string(), b"<html>hi</html>".to_vec()),
    ];
    let bytes = write_epub_to_vec(&entries).unwrap();
    let raw = RawEpub::read(bytes).unwrap();
    assert_eq!(raw.get_str("OEBPS/ch1.xhtml").unwrap(), "<html>hi</html>");
    // mimetype is present too.
    assert_eq!(raw.get_str("mimetype").unwrap(), "application/epub+zip");
}

#[test]
fn written_entries_read_back_in_order_and_others_are_deflated() {
    let entries = vec![
        ("b.txt".to_string(), b"second".to_vec()),
        ("mimetype".to_string(), b"something else".to_vec()),
        ("a/c.txt".to_string(), Vec::new()),
    ];
    let bytes = write_epub_to_vec(&entries).unwrap();
    let raw = RawEpub::read(bytes.clone()).unwrap();
    let names: Vec<&str> = raw.entries.iter().map(|(p, _)| p.as_str()).collect();
    assert_eq!(names, vec!["mimetype", "b.txt", "a/c.txt"]);
    assert_eq!(raw.get("mimetype").unwrap(), EPUB_MIMETYPE.as_bytes());
    assert_eq!(raw.get("b.txt").unwrap(), b"second");
    assert_eq!(raw.get("a/c.txt").unwrap(), b"");
    assert!(raw.get("missing").is_none());
    assert!(raw.get_str("missing").is_none());

    let mut archive = ZipArchive::new(Cursor::new(bytes)).unwrap();
    assert_eq!(archive.by_index(0).unwrap().compression(), CompressionMethod::Stored);
    for i in 1..archive.len() {
        assert_eq!(archive.by_index(i).unwrap().compression(), CompressionMethod::Deflated);
    }
}

#[test]
fn set_replaces_or_appends() {
    let mut raw = RawEpub::read(write_epub_to_vec(&vec![("x".to_string(), b"1".to_vec())]).unwrap())
        .unwrap();
    raw.set("x", b"2".to_vec());
    raw.set("y", b"3".to_vec());
    assert_eq!(raw.entries.len(), 3);
    assert_eq!(raw.get("x").unwrap(), b"2");
    assert_eq!(raw.get("y").unwrap(), b"3");
    assert_eq!(raw.entries[2].0, "y");
}

#[test]
fn get_str_decodes_lossily() {
    let raw = RawEpub::read(
        write_epub_to_vec(&vec![("bad".to_string(), vec![b'a', 0xFF, b'b'])]).unwrap(),
    )
    .unwrap();
    assert_eq!(raw.get_str("bad").unwrap(), "a\u{FFFD}b");
}

#[test]
fn non_zip_bytes_are_rejected() {
    assert_eq!(RawEpub::read(b"not a zip".to_vec()).err(), Some(EpubError::NotAZip));
    assert_eq!(first_entry_info(b"not a zip"), Err(EpubError::NotAZip));
}

#[test]
fn duplicate_entry_names_cannot_be_written() {
    let entries = vec![
        ("a.txt".to_string(), b"1".to_vec()),
        ("a.txt".to_string(), b"2".to_vec()),
    ];
    assert_eq!(write_epub_to_vec(&entries), Err(EpubError::ZipWrite));
}

#[test]
fn entry_names_fit_a_zip_header() {
    let raw = RawEpub::read(write_epub_to_vec(&vec![("a".to_string(), vec![])]).unwrap()).unwrap();
    assert!(raw.names_fit());
    let mut long = raw;
    long.set(&"x".repeat(70000), vec![]);
    assert!(!long.names_fit());
}
