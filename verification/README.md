# epub-tools

Inspect, extract and edit EPUB files: read the Dublin Core metadata, the
manifest and the spine, extract plain text, read the table of contents, pull
out the cover image, and rewrite metadata into a fresh, valid EPUB whose
`mimetype` entry comes first and is stored uncompressed.

The library under `src/` is verified with Verus; `app/` is the command-line
front end (argument parsing and file I/O).

## Layout

- `src/xml.rs` — documents read into plain events through `quick-xml`.
- `src/package.rs` — zip entries read and written through `zip`.
- `src/container.rs`, `src/opf.rs` — locating and parsing the package document.
- `src/text.rs`, `src/nav.rs` — plain text and tables of contents.
- `src/edit.rs` — in-place rewriting of `dc:*` metadata.
- `src/util.rs` — resolution of hrefs to archive paths.
- `src/fixture.rs` — a generated sample book.
- `src/lib.rs` — the `Epub` type tying it together.

What the outside crates compute is named by uninterpreted spec functions
(`xml_event_stream`, `zip_listing`, …); the contracts of the library are stated
over those names, and every function that consumes an outside result also
exists in a form that takes the result as an argument.
