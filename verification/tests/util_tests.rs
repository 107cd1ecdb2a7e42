//! Path resolution inside the archive.

use epub_tools::util::{parent_dir, resolve_href, resolve_href_raw};

#[test]
fn resolves_sibling() {
    assert_eq!(
        resolve_href("OEBPS/content.opf", "ch1.xhtml"),
        "OEBPS/ch1.xhtml"
    );
}

#[test]
fn resolves_parent() {
    assert_eq!(
        resolve_href("OEBPS/text/content.opf", "../images/cover.png"),
        "OEBPS/images/cover.png"
    );
}

#[test]
fn resolves_root_opf() {
    assert_eq!(resolve_href("content.opf", "nav.xhtml"), "nav.xhtml");
}

#[test]
fn strips_fragment() {
    assert_eq!(
        resolve_href("OEBPS/content.opf", "ch1.xhtml#sec2"),
        "OEBPS/ch1.xhtml"
    );
}

#[test]
fn handles_dot_segments() {
    assert_eq!(
        resolve_href("OEBPS/content.opf", "./sub/./a.xhtml"),
        "OEBPS/sub/a.xhtml"
    );
}

#[test]
fn decodes_percent_encoding() {
    assert_eq!(
        resolve_href("OEBPS/content.opf", "cover%20art.jpg"),
        "OEBPS/cover art.jpg"
    );
    // A stray, malformed percent escape is left untouched.
    assert_eq!(
        resolve_href("OEBPS/content.opf", "50%off.png"),
        "OEBPS/50%off.png"
    );
}

#[test]
fn raw_resolution_does_not_decode() {
    assert_eq!(
        resolve_href_raw("OEBPS/content.opf", "cover%20art.png"),
        "OEBPS/cover%20art.png"
    );
    assert_eq!(
        resolve_href_raw("OEBPS/text/x.opf", "../img/c%20a.png#f"),
        "OEBPS/img/c%20a.png"
    );
}

#[test]
fn parent_dir_works() {
    assert_eq!(parent_dir("OEBPS/content.opf"), "OEBPS");
    assert_eq!(parent_dir("content.opf"), "");
}

#[test]
fn strips_query_and_collapses_slashes() {
    assert_eq!(
        resolve_href("OEBPS//text/content.opf", "a.xhtml?x=1"),
        "OEBPS/text/a.xhtml"
    );
}

#[test]
fn parent_segments_never_climb_above_root() {
    assert_eq!(
        resolve_href("content.opf", "../../x/../y.xhtml"),
        "y.xhtml"
    );
}

#[test]
fn resolved_path_is_normalized_on_examples() {
    for (base, href) in [
        ("OEBPS/content.opf", "./a/../b//c.xhtml#f"),
        ("a/b/c/d.opf", "../../../../e.xhtml"),
        ("x.opf", "./././"),
    ] {
        let r = resolve_href(base, href);
        assert!(!r.starts_with('/') && !r.ends_with('/'));
        for seg in r.split('/').filter(|s| !r.is_empty() || !s.is_empty()) {
            assert!(!seg.is_empty() && seg != "." && seg != "..", "bad segment in {r:?}");
        }
    }
}

#[test]
fn raw_resolution_is_idempotent_on_example() {
    let once = resolve_href_raw("OEBPS/text/x.opf", "../img/./c%20a.png");
    assert_eq!(resolve_href_raw("content.opf", &once), once);
}

#[test]
fn percent_decoding_of_multibyte_sequences() {
    assert_eq!(
        resolve_href("content.opf", "caf%C3%A9.xhtml"),
        "café.xhtml"
    );
    // Lowercase hex digits decode too.
    assert_eq!(resolve_href("content.opf", "a%2fb"), "a/b");
}

#[test]
fn documented_resolution_examples() {
    assert_eq!(resolve_href("OEBPS/content.opf", "chap1.xhtml"), "OEBPS/chap1.xhtml");
    assert_eq!(resolve_href("OEBPS/content.opf", "../images/x.png"), "images/x.png");
    assert_eq!(resolve_href("content.opf", "text/c.xhtml"), "text/c.xhtml");
    assert_eq!(resolve_href("OEBPS/content.opf", "cover%20art.jpg"), "OEBPS/cover art.jpg");
    assert_eq!(
        resolve_href_raw("OEBPS/content.opf", "cover%20art.png"),
        "OEBPS/cover%20art.png"
    );
}

#[test]
fn absolute_hrefs_start_at_the_archive_root() {
    assert_eq!(resolve_href("OEBPS/text/content.opf", "/images/a.png"), "images/a.png");
    assert_eq!(resolve_href_raw("OEBPS/content.opf", "/a%20b.png"), "a%20b.png");
}

#[test]
fn invalid_utf8_after_decoding_is_replaced() {
    assert_eq!(resolve_href("content.opf", "a%FFb"), "a\u{FFFD}b");
}

#[test]
fn absolute_href_with_invalid_escape_still_ignores_the_base() {
    assert_eq!(resolve_href("OEBPS/text/c.opf", "/a%FFb.png"), "a\u{FFFD}b.png");
    assert_eq!(resolve_href("", "/a%FFb.png"), "a\u{FFFD}b.png");
}
