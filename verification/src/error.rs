//! The errors of the library.

use vstd::prelude::*;

verus! {

/// Why an EPUB could not be read, queried or rewritten.
#[derive(Debug, Clone, PartialEq, Eq)]
pub enum EpubError {
    /// The bytes are not a readable zip archive.
    NotAZip,
    /// An entry of the zip archive could not be read.
    ZipEntry,
    /// `META-INF/container.xml` is absent: not a valid EPUB.
    MissingContainer,
    /// `META-INF/container.xml` is not well-formed XML.
    MalformedContainer,
    /// `META-INF/container.xml` names no rootfile with a `full-path`.
    NoRootfile,
    /// The OPF package document named by the container is absent.
    MissingOpf(String),
    /// The OPF package document is not well-formed XML.
    MalformedOpf,
    /// A chapter index outside `1..=count` was requested.
    ChapterOutOfRange(usize, usize),
    /// The OPF package document disappeared from the archive.
    OpfDisappeared,
    /// The OPF has no `<metadata>` element.
    NoMetadata,
    /// The OPF could not be scanned for its `<metadata>` element.
    MetadataScan,
    /// Writing the zip archive failed.
    ZipWrite,
}

} // verus!
