//! Plain-text extraction from XHTML content documents.

use epub_tools::text::xhtml_to_text;

#[test]
fn strips_tags() {
    let html = "<p>Hello <b>world</b></p>";
    assert_eq!(xhtml_to_text(html), "Hello world");
}

#[test]
fn decodes_entities() {
    let html = "<p>Tom &amp; Jerry &lt;3</p>";
    assert_eq!(xhtml_to_text(html), "Tom & Jerry <3");
}

#[test]
fn drops_script_and_style() {
    let html =
        "<html><head><style>p{color:red}</style></head><body><script>alert(1)</script><p>Keep</p></body></html>";
    assert_eq!(xhtml_to_text(html), "Keep");
}

#[test]
fn block_elements_break_lines() {
    let html = "<p>First</p><p>Second</p>";
    assert_eq!(xhtml_to_text(html), "First\nSecond");
}

#[test]
fn collapses_whitespace() {
    let html = "<p>a    b\n\t c</p>";
    assert_eq!(xhtml_to_text(html), "a b c");
}

#[test]
fn output_is_trimmed_and_has_no_triple_newlines() {
    let html = "  <div>\n\n <p>  x </p><br/><br/><br/><hr/><p>y</p>  </div>  \n";
    let t = xhtml_to_text(html);
    assert_eq!(t, "x\ny");
    assert!(!t.contains("\n\n\n"));
    assert_eq!(t.trim(), t);
}

#[test]
fn cdata_is_kept_and_malformed_markup_stops_early() {
    assert_eq!(xhtml_to_text("<p><![CDATA[a < b]]></p>"), "a < b");
    assert_eq!(xhtml_to_text("<p>kept</p><!x>lost"), "kept");
}

#[test]
fn unknown_entities_drop_the_text_run() {
    assert_eq!(xhtml_to_text("<p>one</p><p>&bogus; two</p>"), "one");
}

#[test]
fn nested_skipped_elements_are_counted() {
    let html = "<head><title>T</title><style>s</style></head><p>body</p>";
    assert_eq!(xhtml_to_text(html), "body");
}

#[test]
fn empty_document_gives_empty_text() {
    assert_eq!(xhtml_to_text(""), "");
    assert_eq!(xhtml_to_text("<p>   </p>"), "");
}
