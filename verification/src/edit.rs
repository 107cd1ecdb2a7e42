//! In-place editing of OPF Dublin Core metadata (`dc:title`, `dc:creator`, …).
//!
//! The strategy is a token-level rewrite of the OPF text as given rather than a
//! full re-serialization: the inner text of the first matching `dc:*` element
//! is replaced, or a fresh element is inserted just before `</metadata>` when
//! the field is absent. The rest of the package document is preserved verbatim.

use vstd::prelude::*;
use vstd::string::{StrSliceExecFns, StringSliceAdditionalSpecFns};

use crate::chars::{chars_of, extend_chars, extend_str, string_of};
use crate::error::EpubError;
use crate::xml::{
    events_view, local_name, local_name_of, read_xml, stream_events, xml_event_stream, XmlEvent,
    XmlEventView,
};

verus! {

/// The set of Dublin Core fields this tool can rewrite.
#[derive(Debug, Default, Clone)]
pub struct MetadataEdit {
    pub title: Option<String>,
    pub author: Option<String>,
    pub language: Option<String>,
    pub publisher: Option<String>,
}

impl MetadataEdit {
    /// True when no field is to be changed.
    pub fn is_empty(&self) -> (r: bool)
        ensures
            r == (self.title is None && self.author is None && self.language is None
                && self.publisher is None),
    {
        self.title.is_none() && self.author.is_none() && self.language.is_none()
            && self.publisher.is_none()
    }
}

// ---------------------------------------------------------------------------
// Specification
// ---------------------------------------------------------------------------

/// The first index in `lo..hi` satisfying `p`, or `hi`.
pub open spec fn first_index(lo: int, hi: int, p: spec_fn(int) -> bool) -> int
    decreases hi - lo,
{
    if lo >= hi {
        hi
    } else if p(lo) {
        lo
    } else {
        first_index(lo + 1, hi, p)
    }
}

proof fn lemma_first_index(lo: int, hi: int, p: spec_fn(int) -> bool, i: int)
    requires
        lo <= i <= hi,
        forall|j: int| lo <= j < i ==> !#[trigger] p(j),
        i < hi ==> p(i),
    ensures
        first_index(lo, hi, p) == i,
    decreases i - lo,
{
    if lo < i {
        lemma_first_index(lo + 1, hi, p, i);
    }
}

/// Characters that end a tag name in an opening tag.
pub open spec fn is_name_delim(c: char) -> bool {
    c == ' ' || c == '\t' || c == '\n' || c == '\r' || c == '>' || c == '/'
}

/// Characters that end a tag name in a closing tag.
pub open spec fn is_close_name_delim(c: char) -> bool {
    c == ' ' || c == '\t' || c == '\n' || c == '\r' || c == '>'
}

/// End of the tag name starting at `from` in an opening tag.
pub open spec fn name_end(s: Seq<char>, from: int) -> int {
    first_index(from, s.len() as int, |k: int| is_name_delim(s[k]))
}

/// End of the tag name starting at `from` in a closing tag.
pub open spec fn close_name_end(s: Seq<char>, from: int) -> int {
    first_index(from, s.len() as int, |k: int| is_close_name_delim(s[k]))
}

/// An opening tag `<[ns:]local` starts at `j`: a `<` not followed by `/`, `!`
/// or `?`, whose name has the given local part.
pub open spec fn open_tag_at(s: Seq<char>, local: Seq<char>) -> spec_fn(int) -> bool {
    |j: int|
        s[j] == '<' && !(j + 1 < s.len() && (s[j + 1] == '/' || s[j + 1] == '!' || s[j + 1]
            == '?')) && local_name(s.subrange(j + 1, name_end(s, j + 1))) == local
}

/// A closing tag `</[ns:]local` starts at `j`.
pub open spec fn close_tag_at(s: Seq<char>, local: Seq<char>) -> spec_fn(int) -> bool {
    |j: int|
        j + 1 < s.len() && s[j] == '<' && s[j + 1] == '/' && local_name(
            s.subrange(j + 2, close_name_end(s, j + 2)),
        ) == local
}

/// Within `region`, the inner-text span `[start, end)` of the first
/// `<[ns:]local ...>...</[ns:]local>` element; nothing when that first element
/// is self-closing, unterminated or never closed.
pub open spec fn dc_text_span(region: Seq<char>, local: Seq<char>) -> Option<(int, int)> {
    let n = region.len() as int;
    let lt = first_index(0, n, open_tag_at(region, local));
    if lt == n {
        None
    } else {
        let p = name_end(region, lt + 1);
        let gt = first_index(p, n, |k: int| region[k] == '>');
        if gt == n || region[gt - 1] == '/' {
            None
        } else {
            let te = first_index(gt + 1, n, close_tag_at(region, local));
            if te == n {
                None
            } else {
                Some((gt + 1, te))
            }
        }
    }
}

/// XML escaping of one character.
pub open spec fn escape_char(c: char) -> Seq<char> {
    if c == '&' {
        "&amp;"@
    } else if c == '<' {
        "&lt;"@
    } else if c == '>' {
        "&gt;"@
    } else {
        seq![c]
    }
}

/// Minimal XML text escaping: `&`, `<` and `>` become entity references.
pub open spec fn escape_spec(s: Seq<char>) -> Seq<char>
    decreases s.len(),
{
    if s.len() == 0 {
        s
    } else {
        escape_spec(s.drop_last()) + escape_char(s.last())
    }
}

/// Where the metadata scan stopped.
pub enum MetaScan {
    /// A `<metadata>` start tag ending at byte offset `.0` and its end tag
    /// ending at byte offset `.1`.
    Found(int, int),
    NotFound,
    Failed,
}

/// Scans events paired with the byte offset after each for the last
/// `<metadata>` start tag before the first `</metadata>` end tag.
pub open spec fn meta_scan(evs: Seq<(XmlEventView, int)>, start: Option<int>) -> MetaScan
    decreases evs.len(),
{
    if evs.len() == 0 {
        MetaScan::NotFound
    } else {
        let (e, p) = evs[0];
        match e {
            XmlEventView::Eof => MetaScan::NotFound,
            XmlEventView::Malformed => MetaScan::Failed,
            XmlEventView::Start(n, _) => if local_name(n) == "metadata"@ {
                meta_scan(evs.drop_first(), Some(p))
            } else {
                meta_scan(evs.drop_first(), start)
            },
            XmlEventView::End(n) => if local_name(n) == "metadata"@ && start is Some {
                MetaScan::Found(start.unwrap(), p)
            } else {
                meta_scan(evs.drop_first(), start)
            },
            _ => meta_scan(evs.drop_first(), start),
        }
    }
}

/// The character position at byte offset `p` of the UTF-8 encoding of `doc`,
/// when that offset is a character boundary.
pub open spec fn byte_to_char(doc: Seq<char>, p: int) -> Option<int> {
    let b = vstd::utf8::encode_utf8(doc);
    if 0 <= p <= b.len() && vstd::utf8::is_char_boundary(b, p) {
        Some(vstd::utf8::decode_utf8(b.take(p)).len() as int)
    } else {
        None
    }
}

/// Index of the last `<` in `s` before position `upto`, or `upto`.
pub open spec fn last_lt_before(s: Seq<char>, upto: int) -> int {
    let k = crate::util::last_index_of(s.take(upto), '<');
    if k < 0 {
        upto
    } else {
        k
    }
}

/// The `[start, end)` character span of the `<metadata>` block's contents:
/// from just after its start tag to the `<` of its end tag.
pub open spec fn metadata_bounds_spec(doc: Seq<char>, evs: Seq<(XmlEventView, int)>) -> Result<
    (int, int),
    EpubError,
> {
    match meta_scan(evs, None) {
        MetaScan::Found(s, after) => match (byte_to_char(doc, s), byte_to_char(doc, after)) {
            (Some(sc), Some(ac)) => {
                let end = last_lt_before(doc, ac);
                if sc <= end {
                    Ok((sc, end))
                } else {
                    Err(EpubError::MetadataScan)
                }
            },
            _ => Err(EpubError::MetadataScan),
        },
        MetaScan::NotFound => Err(EpubError::NoMetadata),
        MetaScan::Failed => Err(EpubError::MetadataScan),
    }
}

/// The element inserted for an absent field: `  <dc:LOCAL>value</dc:LOCAL>\n`.
pub open spec fn dc_element(local: Seq<char>, value: Seq<char>) -> Seq<char> {
    "  <dc:"@ + local + ">"@ + escape_spec(value) + "</dc:"@ + local + ">\n"@
}

/// Replace the text of the first `dc:<local>` element of the metadata block,
/// or insert a new element before `</metadata>`.
pub open spec fn set_or_insert_spec(doc: Seq<char>, local: Seq<char>, value: Seq<char>) -> Result<
    Seq<char>,
    EpubError,
> {
    match metadata_bounds_spec(doc, xml_event_stream(doc, false, true)) {
        Ok((ms, me)) => match dc_text_span(doc.subrange(ms, me), local) {
            Some((ts, te)) => Ok(doc.take(ms + ts) + escape_spec(value) + doc.skip(ms + te)),
            None => Ok(doc.take(me) + dc_element(local, value) + doc.skip(me)),
        },
        Err(e) => Err(e),
    }
}

/// One optional edit step.
pub open spec fn edit_step(doc: Result<Seq<char>, EpubError>, local: Seq<char>, value: Option<String>) -> Result<
    Seq<char>,
    EpubError,
> {
    match doc {
        Ok(d) => match value {
            Some(v) => set_or_insert_spec(d, local, v@),
            None => Ok(d),
        },
        Err(e) => Err(e),
    }
}

/// The document after all requested edits: title, then creator, language and
/// publisher.
pub open spec fn apply_edit_spec(doc: Seq<char>, edit: MetadataEdit) -> Result<
    Seq<char>,
    EpubError,
> {
    edit_step(
        edit_step(
            edit_step(edit_step(Ok(doc), "title"@, edit.title), "creator"@, edit.author),
            "language"@,
            edit.language,
        ),
        "publisher"@,
        edit.publisher,
    )
}

// ---------------------------------------------------------------------------
// Laws
// ---------------------------------------------------------------------------

/// Escaped text never contains markup delimiters: an inserted value cannot
/// open or close a tag.
pub proof fn lemma_escape_has_no_markup(s: Seq<char>)
    ensures
        !escape_spec(s).contains('<'),
        !escape_spec(s).contains('>'),
    decreases s.len(),
{
    reveal_strlit("&amp;");
    reveal_strlit("&lt;");
    reveal_strlit("&gt;");
    if s.len() > 0 {
        lemma_escape_has_no_markup(s.drop_last());
        let a = escape_spec(s.drop_last());
        let b = escape_char(s.last());
        assert(!b.contains('<') && !b.contains('>')) by {
            if b.contains('<') {
                let j = choose|j: int| 0 <= j < b.len() && b[j] == '<';
            }
            if b.contains('>') {
                let j = choose|j: int| 0 <= j < b.len() && b[j] == '>';
            }
        }
        assert forall|j: int| 0 <= j < (a + b).len() implies (a + b)[j] != '<' && (a + b)[j]
            != '>' by {
            if j < a.len() {
                assert((a + b)[j] == a[j]);
            } else {
                assert((a + b)[j] == b[j - a.len()]);
            }
        }
    }
}

/// Text without `&`, `<` or `>` is left unchanged by escaping.
pub proof fn lemma_escape_plain(s: Seq<char>)
    requires
        !s.contains('&'),
        !s.contains('<'),
        !s.contains('>'),
    ensures
        escape_spec(s) == s,
    decreases s.len(),
{
    if s.len() > 0 {
        let p = s.drop_last();
        assert(!p.contains('&') && !p.contains('<') && !p.contains('>')) by {
            if p.contains('&') {
                let j = choose|j: int| 0 <= j < p.len() && p[j] == '&';
                assert(s[j] == '&');
            }
            if p.contains('<') {
                let j = choose|j: int| 0 <= j < p.len() && p[j] == '<';
                assert(s[j] == '<');
            }
            if p.contains('>') {
                let j = choose|j: int| 0 <= j < p.len() && p[j] == '>';
                assert(s[j] == '>');
            }
        }
        lemma_escape_plain(p);
        assert(s[s.len() - 1] == s.last());
        assert(p + seq![s.last()] =~= s);
    }
}

/// Setting one field is a local rewrite: the escaped value replaces the text of
/// the field's first element, or a new element is inserted just before the
/// `</metadata>` end tag, and the document before and after is kept verbatim.
pub proof fn lemma_set_or_insert_is_local(doc: Seq<char>, local: Seq<char>, value: Seq<char>)
    requires
        metadata_bounds_spec(doc, xml_event_stream(doc, false, true)) is Ok,
    ensures
        ({
            let (ms, me) = metadata_bounds_spec(doc, xml_event_stream(doc, false, true))->Ok_0;
            let out = set_or_insert_spec(doc, local, value)->Ok_0;
            match dc_text_span(doc.subrange(ms, me), local) {
                Some((ts, te)) => {
                    &&& out.take(ms + ts) == doc.take(ms + ts)
                    &&& out.subrange(ms + ts, ms + ts + escape_spec(value).len()) == escape_spec(
                        value,
                    )
                    &&& out.skip(out.len() - (doc.len() - (ms + te))) == doc.skip(ms + te)
                    &&& out.len() == doc.len() - (te - ts) + escape_spec(value).len()
                },
                None => {
                    &&& out.take(me) == doc.take(me)
                    &&& out.subrange(me, me + dc_element(local, value).len()) == dc_element(
                        local,
                        value,
                    )
                    &&& out.skip(out.len() - (doc.len() - me)) == doc.skip(me)
                    &&& out.len() == doc.len() + dc_element(local, value).len()
                },
            }
        }),
{
    let (ms, me) = metadata_bounds_spec(doc, xml_event_stream(doc, false, true))->Ok_0;
    let out = set_or_insert_spec(doc, local, value)->Ok_0;
    lemma_bounds_in_range(doc, xml_event_stream(doc, false, true));
    match dc_text_span(doc.subrange(ms, me), local) {
        Some((ts, te)) => {
            lemma_span_in_range(doc.subrange(ms, me), local);
            let a = doc.take(ms + ts);
            let b = escape_spec(value);
            let c = doc.skip(ms + te);
            assert((a + b + c).take(ms + ts) =~= a);
            assert((a + b + c).subrange(ms + ts, ms + ts + b.len()) =~= b);
            assert((a + b + c).skip((a + b + c).len() - c.len()) =~= c);
        },
        None => {
            let a = doc.take(me);
            let b = dc_element(local, value);
            let c = doc.skip(me);
            assert((a + b + c).take(me) =~= a);
            assert((a + b + c).subrange(me, me + b.len()) =~= b);
            assert((a + b + c).skip((a + b + c).len() - c.len()) =~= c);
        },
    }
}

proof fn lemma_bounds_in_range(doc: Seq<char>, evs: Seq<(XmlEventView, int)>)
    ensures
        metadata_bounds_spec(doc, evs) matches Ok((s, e)) ==> 0 <= s <= e <= doc.len(),
{
    if let MetaScan::Found(s, after) = meta_scan(evs, None) {
        if let (Some(sc), Some(ac)) = (byte_to_char(doc, s), byte_to_char(doc, after)) {
            lemma_byte_to_char_range(doc, s);
            lemma_byte_to_char_range(doc, after);
            lemma_last_lt_range(doc, ac);
        }
    }
}

proof fn lemma_byte_to_char_range(doc: Seq<char>, p: int)
    ensures
        byte_to_char(doc, p) matches Some(c) ==> 0 <= c <= doc.len(),
{
    let b = vstd::utf8::encode_utf8(doc);
    if 0 <= p <= b.len() && vstd::utf8::is_char_boundary(b, p) {
        vstd::utf8::encode_utf8_valid_utf8(doc);
        vstd::utf8::encode_utf8_decode_utf8(doc);
        vstd::utf8::decode_utf8_split(b, p);
        assert(b.take(p) =~= b.subrange(0, p));
    }
}

proof fn lemma_last_lt_range(doc: Seq<char>, ac: int)
    requires
        0 <= ac <= doc.len(),
    ensures
        0 <= last_lt_before(doc, ac) <= ac,
{
    lemma_last_index_range(doc.take(ac), '<');
}

proof fn lemma_last_index_range(s: Seq<char>, c: char)
    ensures
        -1 <= crate::util::last_index_of(s, c) < s.len(),
    decreases s.len(),
{
    if s.len() > 0 {
        lemma_last_index_range(s.drop_last(), c);
    }
}

proof fn lemma_first_index_range(lo: int, hi: int, p: spec_fn(int) -> bool)
    requires
        lo <= hi,
    ensures
        lo <= first_index(lo, hi, p) <= hi,
    decreases hi - lo,
{
    if lo < hi {
        lemma_first_index_range(lo + 1, hi, p);
    }
}

proof fn lemma_span_in_range(region: Seq<char>, local: Seq<char>)
    ensures
        dc_text_span(region, local) matches Some((s, e)) ==> 0 <= s <= e <= region.len(),
{
    let n = region.len() as int;
    let lt = first_index(0, n, open_tag_at(region, local));
    lemma_first_index_range(0, n, open_tag_at(region, local));
    if lt < n {
        let p = name_end(region, lt + 1);
        lemma_first_index_range(lt + 1, n, |k: int| is_name_delim(region[k]));
        let gt = first_index(p, n, |k: int| region[k] == '>');
        lemma_first_index_range(p, n, |k: int| region[k] == '>');
        if gt < n {
            lemma_first_index_range(gt + 1, n, close_tag_at(region, local));
        }
    }
}

// ---------------------------------------------------------------------------
// Executable code
// ---------------------------------------------------------------------------

/// Apply the requested edits to the OPF XML, returning the new document text.
///
/// For each requested field: if a corresponding `dc:` element exists, its text
/// content is replaced; otherwise a new element is inserted before `</metadata>`.
pub fn apply_metadata_edit(opf_xml: &str, edit: &MetadataEdit) -> (r: Result<String, EpubError>)
    ensures
        crate::container::string_result_view(r) == apply_edit_spec(opf_xml@, *edit),
{
    let mut xml = string_of(chars_of(opf_xml).as_slice());
    if let Some(title) = &edit.title {
        xml = set_or_insert(xml.as_str(), "title", title.as_str())?;
    }
    if let Some(author) = &edit.author {
        xml = set_or_insert(xml.as_str(), "creator", author.as_str())?;
    }
    if let Some(lang) = &edit.language {
        xml = set_or_insert(xml.as_str(), "language", lang.as_str())?;
    }
    if let Some(pubr) = &edit.publisher {
        xml = set_or_insert(xml.as_str(), "publisher", pubr.as_str())?;
    }
    Ok(xml)
}

/// Replace the text of the first `dc:<local>` element, or insert a new one.
fn set_or_insert(xml: &str, local: &str, value: &str) -> (r: Result<String, EpubError>)
    ensures
        crate::container::string_result_view(r) == set_or_insert_spec(xml@, local@, value@),
{
    let (meta_start, meta_end) = metadata_bounds(xml)?;
    let doc = chars_of(xml);
    proof {
        lemma_bounds_in_range(xml@, xml_event_stream(xml@, false, true));
    }
    let region = slice_chars(doc.as_slice(), meta_start, meta_end);
    let lv = chars_of(local);
    let escaped = escape_text(value);
    let mut result: Vec<char> = Vec::new();
    match find_dc_text_span(region.as_slice(), lv.as_slice()) {
        Some((text_start, text_end)) => {
            proof {
                lemma_span_in_range(region@, local@);
            }
            // Offsets are relative to the metadata region; shift into the full doc.
            let head = slice_chars(doc.as_slice(), 0, meta_start + text_start);
            let tail = slice_chars(doc.as_slice(), meta_start + text_end, doc.len());
            extend_chars(&mut result, head.as_slice());
            extend_chars(&mut result, escaped.as_slice());
            extend_chars(&mut result, tail.as_slice());
            assert(head@ =~= xml@.take(meta_start + text_start));
            assert(tail@ =~= xml@.skip(meta_start + text_end));
        },
        None => {
            let head = slice_chars(doc.as_slice(), 0, meta_end);
            let tail = slice_chars(doc.as_slice(), meta_end, doc.len());
            extend_chars(&mut result, head.as_slice());
            extend_str(&mut result, "  <dc:");
            extend_str(&mut result, local);
            extend_str(&mut result, ">");
            extend_chars(&mut result, escaped.as_slice());
            extend_str(&mut result, "</dc:");
            extend_str(&mut result, local);
            extend_str(&mut result, ">\n");
            extend_chars(&mut result, tail.as_slice());
            assert(head@ =~= xml@.take(meta_end as int));
            assert(tail@ =~= xml@.skip(meta_end as int));
            assert(result@ =~= xml@.take(meta_end as int) + dc_element(local@, value@) + xml@.skip(
                meta_end as int,
            ));
        },
    }
    Ok(string_of(result.as_slice()))
}

/// `s[from..to]` as an owned vector.
fn slice_chars(s: &[char], from: usize, to: usize) -> (r: Vec<char>)
    requires
        from <= to <= s@.len(),
    ensures
        r@ == s@.subrange(from as int, to as int),
{
    let mut out: Vec<char> = Vec::new();
    let mut k: usize = from;
    while k < to
        invariant
            from <= k <= to <= s@.len(),
            out@ == s@.subrange(from as int, k as int),
        decreases to - k,
    {
        out.push(s[k]);
        assert(s@.subrange(from as int, k + 1) =~= s@.subrange(from as int, k as int).push(
            s@[k as int],
        ));
        k = k + 1;
    }
    out
}

/// The character position at a byte offset of the document.
fn byte_to_char_offset(doc: &str, pos: u64) -> (r: Option<usize>)
    ensures
        match r {
            Some(c) => byte_to_char(doc@, pos as int) == Some(c as int),
            None => byte_to_char(doc@, pos as int) is None,
        },
{
    let n = doc.as_bytes().len();
    proof {
        vstd::utf8::encode_utf8_valid_utf8(doc@);
    }
    if pos > n as u64 {
        return None;
    }
    let p = pos as usize;
    if !doc.is_char_boundary(p) {
        return None;
    }
    let (a, _) = doc.split_at(p);
    proof {
        vstd::utf8::encode_utf8_decode_utf8(a@);
        assert(a.spec_bytes() =~= vstd::utf8::encode_utf8(doc@).take(p as int));
    }
    Some(a.unicode_len())
}

/// Find the `[start, end)` character range of the `<metadata>...</metadata>`
/// block, where `start` is just after the open tag's `>` and `end` is the index
/// of the closing `</metadata>`'s `<`. Tolerates an optional namespace prefix.
fn metadata_bounds(xml: &str) -> (r: Result<(usize, usize), EpubError>)
    ensures
        match r {
            Ok((s, e)) => metadata_bounds_spec(xml@, xml_event_stream(xml@, false, true)) == Ok::<
                (int, int),
                EpubError,
            >((s as int, e as int)),
            Err(e) => metadata_bounds_spec(xml@, xml_event_stream(xml@, false, true)) == Err::<
                (int, int),
                EpubError,
            >(e),
        },
{
    let ghost all = xml_event_stream(xml@, false, true);
    let (events, offsets) = read_xml(xml, false, true);
    assert(all.len() == events@.len()) by {
        assert(stream_events(all).len() == all.len());
        assert(events_view(events@).len() == events@.len());
    }
    assert forall|j: int| 0 <= j < all.len() implies #[trigger] all[j] == located_events(
        events@,
        offsets@,
    )[j] by {
        assert(events_view(events@)[j] == stream_events(all)[j]);
    }
    assert(all =~= located_events(events@, offsets@));
    metadata_bounds_from_events(xml, &events, &offsets)
}

/// The events of a document paired with the byte offset after each.
pub open spec fn located_events(events: Seq<XmlEvent>, offsets: Seq<u64>) -> Seq<(XmlEventView, int)> {
    Seq::new(events.len(), |i: int| (events[i]@, offsets[i] as int))
}

/// The `[start, end)` character range of the `<metadata>` block of `xml`,
/// given its events and the byte offset after each.
pub fn metadata_bounds_from_events(xml: &str, events: &Vec<XmlEvent>, offsets: &Vec<u64>) -> (r: Result<
    (usize, usize),
    EpubError,
>)
    requires
        events@.len() == offsets@.len(),
    ensures
        match r {
            Ok((s, e)) => metadata_bounds_spec(xml@, located_events(events@, offsets@)) == Ok::<
                (int, int),
                EpubError,
            >((s as int, e as int)),
            Err(e) => metadata_bounds_spec(xml@, located_events(events@, offsets@)) == Err::<
                (int, int),
                EpubError,
            >(e),
        },
{
    let ghost all = located_events(events@, offsets@);
    let mut start: Option<u64> = None;
    let mut i: usize = 0;
    let mut found: Option<(u64, u64)> = None;
    assert(all.skip(0) =~= all);
    while i < events.len() && found.is_none()
        invariant
            i <= events@.len(),
            all == located_events(events@, offsets@),
            events@.len() == offsets@.len(),
            found is None ==> meta_scan(all, None) == meta_scan(
                all.skip(i as int),
                match start {
                    Some(s) => Some(s as int),
                    None => None,
                },
            ),
            found matches Some((s, a)) ==> meta_scan(all, None) == MetaScan::Found(
                s as int,
                a as int,
            ),
        decreases events@.len() - i,
    {
        let ghost rest = all.skip(i as int);
        let ghost st = match start {
            Some(s) => Some(s as int),
            None => None,
        };
        assert(rest[0] == all[i as int]);
        assert(rest.drop_first() =~= all.skip(i + 1));
        assert(events@[i as int]@ == rest[0].0);
        let pos = offsets[i];
        assert(pos == rest[0].1);
        match &events[i] {
            XmlEvent::Eof => {
                assert(meta_scan(rest, st) == MetaScan::NotFound);
                return Err(EpubError::NoMetadata);
            },
            XmlEvent::Malformed => {
                assert(meta_scan(rest, st) == MetaScan::Failed);
                return Err(EpubError::MetadataScan);
            },
            XmlEvent::Start(name, _) => {
                let nv = chars_of(name.as_str());
                let l = local_name_of(nv.as_slice());
                if crate::chars::chars_eq_str(l.as_slice(), "metadata") {
                    start = Some(pos);
                }
            },
            XmlEvent::End(name) => {
                let nv = chars_of(name.as_str());
                let l = local_name_of(nv.as_slice());
                if crate::chars::chars_eq_str(l.as_slice(), "metadata") {
                    if let Some(s) = start {
                        found = Some((s, pos));
                    }
                }
            },
            _ => {},
        }
        i = i + 1;
    }
    match found {
        None => {
            assert(all.skip(i as int) =~= Seq::<(XmlEventView, int)>::empty());
            Err(EpubError::NoMetadata)
        },
        Some((s, after)) => {
            let sc = byte_to_char_offset(xml, s);
            let ac = byte_to_char_offset(xml, after);
            match (sc, ac) {
                (Some(sc), Some(ac)) => {
                    let doc = chars_of(xml);
                    proof {
                        lemma_byte_to_char_range(xml@, after as int);
                    }
                    // Recover the '<' position of the close tag by scanning back.
                    let end = last_lt(doc.as_slice(), ac);
                    if sc <= end {
                        Ok((sc, end))
                    } else {
                        Err(EpubError::MetadataScan)
                    }
                },
                _ => Err(EpubError::MetadataScan),
            }
        },
    }
}

/// Index of the last `<` before `upto`, or `upto`.
fn last_lt(s: &[char], upto: usize) -> (r: usize)
    requires
        upto <= s@.len(),
    ensures
        r == last_lt_before(s@, upto as int),
{
    let mut i: usize = upto;
    while i > 0 && s[i - 1] != '<'
        invariant
            i <= upto <= s@.len(),
            forall|j: int| i <= j < upto ==> s@[j] != '<',
        decreases i,
    {
        i = i - 1;
    }
    proof {
        let t = s@.take(upto as int);
        assert forall|j: int| i <= j < t.len() implies t[j] != '<' by {
            assert(t[j] == s@[j]);
        }
        if i > 0 {
            assert(t[i - 1] == '<');
        }
        crate::util::lemma_last_index_of_pub(t, '<', i - 1);
    }
    if i == 0 {
        upto
    } else {
        i - 1
    }
}

/// Within the metadata region text, find the inner-text span of the first
/// `<[ns:]LOCAL ...>...</[ns:]LOCAL>` element. Returns `(text_start, text_end)`
/// offsets relative to `region`. Self-closing matches return `None`.
fn find_dc_text_span(region: &[char], local: &[char]) -> (r: Option<(usize, usize)>)
    ensures
        match r {
            Some((s, e)) => dc_text_span(region@, local@) == Some((s as int, e as int)),
            None => dc_text_span(region@, local@) is None,
        },
{
    let n = region.len();
    let ghost open = open_tag_at(region@, local@);
    let mut lt: usize = 0;
    // Scan each '<' in turn for the first opening tag with the wanted local name.
    while lt < n && !open_tag_exec(region, local, lt)
        invariant
            lt <= n == region@.len(),
            open == open_tag_at(region@, local@),
            forall|j: int| 0 <= j < lt ==> !#[trigger] open(j),
        decreases n - lt,
    {
        lt = lt + 1;
    }
    proof {
        lemma_first_index(0, n as int, open, lt as int);
    }
    if lt == n {
        return None;
    }
    let p = name_end_exec(region, lt + 1);
    let ghost is_gt = |k: int| region@[k] == '>';
    let mut gt: usize = p;
    while gt < n && region[gt] != '>'
        invariant
            p <= gt <= n == region@.len(),
            is_gt == (|k: int| region@[k] == '>'),
            forall|j: int| p <= j < gt ==> !#[trigger] is_gt(j),
        decreases n - gt,
    {
        gt = gt + 1;
    }
    proof {
        lemma_first_index(p as int, n as int, is_gt, gt as int);
    }
    if gt == n {
        return None;
    }
    // Self-closing? Then there's no text content.
    if region[gt - 1] == '/' {
        return None;
    }
    let text_start = gt + 1;
    let ghost close = close_tag_at(region@, local@);
    let mut te: usize = text_start;
    while te < n && !close_tag_exec(region, local, te)
        invariant
            text_start <= te <= n == region@.len(),
            close == close_tag_at(region@, local@),
            forall|j: int| text_start <= j < te ==> !#[trigger] close(j),
        decreases n - te,
    {
        te = te + 1;
    }
    proof {
        lemma_first_index(text_start as int, n as int, close, te as int);
    }
    if te == n {
        None
    } else {
        Some((text_start, te))
    }
}

/// End of the tag name starting at `from` (opening tags).
fn name_end_exec(s: &[char], from: usize) -> (r: usize)
    requires
        from <= s@.len(),
    ensures
        r == name_end(s@, from as int),
        from <= r <= s@.len(),
{
    let ghost d = |k: int| is_name_delim(s@[k]);
    let mut p = from;
    while p < s.len() && !(s[p] == ' ' || s[p] == '\t' || s[p] == '\n' || s[p] == '\r' || s[p]
        == '>' || s[p] == '/')
        invariant
            from <= p <= s@.len(),
            d == (|k: int| is_name_delim(s@[k])),
            forall|j: int| from <= j < p ==> !#[trigger] d(j),
        decreases s@.len() - p,
    {
        p = p + 1;
    }
    proof {
        lemma_first_index(from as int, s@.len() as int, d, p as int);
    }
    p
}

/// End of the tag name starting at `from` (closing tags).
fn close_name_end_exec(s: &[char], from: usize) -> (r: usize)
    requires
        from <= s@.len(),
    ensures
        r == close_name_end(s@, from as int),
        from <= r <= s@.len(),
{
    let ghost d = |k: int| is_close_name_delim(s@[k]);
    let mut p = from;
    while p < s.len() && !(s[p] == ' ' || s[p] == '\t' || s[p] == '\n' || s[p] == '\r' || s[p]
        == '>')
        invariant
            from <= p <= s@.len(),
            d == (|k: int| is_close_name_delim(s@[k])),
            forall|j: int| from <= j < p ==> !#[trigger] d(j),
        decreases s@.len() - p,
    {
        p = p + 1;
    }
    proof {
        lemma_first_index(from as int, s@.len() as int, d, p as int);
    }
    p
}

fn open_tag_exec(s: &[char], local: &[char], j: usize) -> (r: bool)
    requires
        j < s@.len(),
    ensures
        r == open_tag_at(s@, local@)(j as int),
{
    if s[j] != '<' {
        return false;
    }
    if j + 1 < s.len() && (s[j + 1] == '/' || s[j + 1] == '!' || s[j + 1] == '?') {
        return false;
    }
    let e = name_end_exec(s, j + 1);
    let name = slice_chars(s, j + 1, e);
    let l = local_name_of(name.as_slice());
    crate::chars::chars_eq(l.as_slice(), local)
}

fn close_tag_exec(s: &[char], local: &[char], j: usize) -> (r: bool)
    requires
        j < s@.len(),
    ensures
        r == close_tag_at(s@, local@)(j as int),
{
    if !(s.len() - j > 1 && s[j] == '<' && s[j + 1] == '/') {
        return false;
    }
    let e = close_name_end_exec(s, j + 2);
    let name = slice_chars(s, j + 2, e);
    let l = local_name_of(name.as_slice());
    crate::chars::chars_eq(l.as_slice(), local)
}

/// Minimal XML text escaping for inserted/replaced values.
fn escape_text(s: &str) -> (r: Vec<char>)
    ensures
        r@ == escape_spec(s@),
{
    let sv = chars_of(s);
    let mut out: Vec<char> = Vec::new();
    let mut i: usize = 0;
    while i < sv.len()
        invariant
            i <= sv@.len(),
            sv@ == s@,
            out@ == escape_spec(sv@.take(i as int)),
        decreases sv@.len() - i,
    {
        let ch = sv[i];
        assert(sv@.take(i + 1).drop_last() =~= sv@.take(i as int));
        if ch == '&' {
            extend_str(&mut out, "&amp;");
        } else if ch == '<' {
            extend_str(&mut out, "&lt;");
        } else if ch == '>' {
            extend_str(&mut out, "&gt;");
        } else {
            out.push(ch);
            assert(out@ =~= escape_spec(sv@.take(i as int)) + seq![ch]);
        }
        i = i + 1;
    }
    assert(sv@.take(sv@.len() as int) =~= sv@);
    out
}

} // verus!

verus! {

// ---------------------------------------------------------------------------
// Tag names
// ---------------------------------------------------------------------------

/// A tag name ends at whitespace, `>` or `/`: the name scan never runs past a
/// space, tab, line break, `>` or `/`.
pub proof fn lemma_name_end_stops_at_delimiters(s: Seq<char>, from: int, k: int)
    requires
        0 <= from <= k < s.len(),
        s[k] == ' ' || s[k] == '\t' || s[k] == '\n' || s[k] == '\r' || s[k] == '>' || s[k] == '/',
    ensures
        from <= name_end(s, from) <= k,
{
    lemma_first_index_le(from, s.len() as int, |j: int| is_name_delim(s[j]), k);
}

proof fn lemma_first_index_le(lo: int, hi: int, p: spec_fn(int) -> bool, k: int)
    requires
        lo <= k < hi,
        p(k),
    ensures
        lo <= first_index(lo, hi, p) <= k,
    decreases k - lo,
{
    if lo < k && !p(lo) {
        lemma_first_index_le(lo + 1, hi, p, k);
    }
}

/// Characters that may not occur in a tag name.
pub open spec fn name_safe(q: Seq<char>) -> bool {
    forall|i: int|
        0 <= i < q.len() ==> !(#[trigger] q[i] == ' ' || q[i] == '\t' || q[i] == '\n' || q[i]
            == '\r' || q[i] == '>' || q[i] == '/' || q[i] == '<')
}

/// An element written `<q attrs>x</q>` with a non-empty name `q` whose local
/// part is `local`: its text `x` is found, whatever attributes follow the name
/// after whitespace, as long as the text holds no `<` and no tag comes before
/// the element.
pub proof fn lemma_element_text_found(
    pre: Seq<char>,
    q: Seq<char>,
    local: Seq<char>,
    attrs: Seq<char>,
    x: Seq<char>,
    post: Seq<char>,
)
    requires
        !pre.contains('<'),
        q.len() > 0,
        name_safe(q),
        q[0] != '!' && q[0] != '?',
        local_name(q) == local,
        attrs.len() == 0 || attrs[0] == ' ' || attrs[0] == '\t' || attrs[0] == '\n' || attrs[0]
            == '\r',
        !attrs.contains('>'),
        attrs.len() == 0 || attrs.last() != '/',
        !x.contains('<'),
    ensures
        ({
            let region = pre + seq!['<'] + q + attrs + seq!['>'] + x + seq!['<', '/'] + q + seq!['>']
                + post;
            let start: int = pre.len() + 1 + q.len() as int + attrs.len() as int + 1;
            dc_text_span(region, local) == Some((start, start + x.len() as int))
        }),
{
    let region = pre + seq!['<'] + q + attrs + seq!['>'] + x + seq!['<', '/'] + q + seq!['>']
        + post;
    let n = region.len() as int;
    let p0 = pre.len() as int;
    let ql = q.len() as int;
    let al = attrs.len() as int;
    let xl = x.len() as int;
    let gt = p0 + 1 + ql + al;
    let cl = gt + 1 + xl;
    assert(n == cl + 2 + ql + 1 + post.len());
    assert forall|i: int| 0 <= i < p0 implies region[i] == pre[i] by {}
    assert(region[p0] == '<');
    assert forall|i: int| 0 <= i < ql implies region[p0 + 1 + i] == q[i] by {}
    assert forall|i: int| 0 <= i < al implies region[p0 + 1 + ql + i] == attrs[i] by {}
    assert(region[gt] == '>');
    assert forall|i: int| 0 <= i < xl implies region[gt + 1 + i] == x[i] by {}
    assert(region[cl] == '<' && region[cl + 1] == '/');
    assert forall|i: int| 0 <= i < ql implies region[cl + 2 + i] == q[i] by {}
    assert(region[cl + 2 + ql] == '>');
    // The opening tag at the end of `pre`.
    let pn = |j: int| is_name_delim(region[j]);
    assert forall|j: int| p0 + 1 <= j < p0 + 1 + ql implies !#[trigger] pn(j) by {
        assert(region[j] == q[j - p0 - 1]);
    }
    assert(pn(p0 + 1 + ql)) by {
        if al > 0 {
            assert(region[p0 + 1 + ql] == attrs[0]);
        }
    }
    lemma_first_index(p0 + 1, n, pn, p0 + 1 + ql);
    assert(name_end(region, p0 + 1) == p0 + 1 + ql);
    assert(region.subrange(p0 + 1, p0 + 1 + ql) =~= q);
    assert(region[p0 + 1] == q[0]);
    let po = open_tag_at(region, local);
    assert(po(p0));
    assert forall|j: int| 0 <= j < p0 implies !#[trigger] po(j) by {
        assert(region[j] == pre[j]);
        assert(pre.contains(pre[j]));
    }
    lemma_first_index(0, n, po, p0);
    // The `>` closing the opening tag.
    let pg = |k: int| region[k] == '>';
    assert forall|k: int| p0 + 1 + ql <= k < gt implies !#[trigger] pg(k) by {
        assert(region[k] == attrs[k - p0 - 1 - ql]);
        assert(attrs.contains(attrs[k - p0 - 1 - ql]));
    }
    lemma_first_index(p0 + 1 + ql, n, pg, gt);
    assert(region[gt - 1] != '/') by {
        if al > 0 {
            assert(region[gt - 1] == attrs[al - 1]);
        } else {
            assert(region[gt - 1] == q[ql - 1]);
        }
    }
    // The closing tag.
    let pc = close_tag_at(region, local);
    assert forall|j: int| gt + 1 <= j < cl implies !#[trigger] pc(j) by {
        assert(region[j] == x[j - gt - 1]);
        assert(x.contains(x[j - gt - 1]));
    }
    let pd = |k: int| is_close_name_delim(region[k]);
    assert forall|k: int| cl + 2 <= k < cl + 2 + ql implies !#[trigger] pd(k) by {
        assert(region[k] == q[k - cl - 2]);
    }
    lemma_first_index(cl + 2, n, pd, cl + 2 + ql);
    assert(region.subrange(cl + 2, cl + 2 + ql) =~= q);
    assert(pc(cl));
    lemma_first_index(gt + 1, n, pc, cl);
}

/// Setting a field whose element is already in the metadata block, written
/// with attributes or without, replaces that element's text by the escaped
/// value and changes nothing else: no second element is added.
pub proof fn lemma_existing_element_text_replaced(
    doc: Seq<char>,
    value: Seq<char>,
    pre: Seq<char>,
    q: Seq<char>,
    local: Seq<char>,
    attrs: Seq<char>,
    x: Seq<char>,
    post: Seq<char>,
)
    requires
        metadata_bounds_spec(doc, xml_event_stream(doc, false, true)) is Ok,
        ({
            let (ms, me) = metadata_bounds_spec(doc, xml_event_stream(doc, false, true))->Ok_0;
            doc.subrange(ms, me) == pre + seq!['<'] + q + attrs + seq!['>'] + x + seq!['<', '/']
                + q + seq!['>'] + post
        }),
        !pre.contains('<'),
        q.len() > 0,
        name_safe(q),
        q[0] != '!' && q[0] != '?',
        local_name(q) == local,
        attrs.len() == 0 || attrs[0] == ' ' || attrs[0] == '\t' || attrs[0] == '\n' || attrs[0]
            == '\r',
        !attrs.contains('>'),
        attrs.len() == 0 || attrs.last() != '/',
        !x.contains('<'),
    ensures
        ({
            let (ms, me) = metadata_bounds_spec(doc, xml_event_stream(doc, false, true))->Ok_0;
            let start: int = ms + pre.len() + 1 + q.len() as int + attrs.len() as int + 1;
            set_or_insert_spec(doc, local, value) == Ok::<Seq<char>, EpubError>(
                doc.take(start) + escape_spec(value) + doc.skip(start + x.len() as int),
            )
        }),
{
    lemma_element_text_found(pre, q, local, attrs, x, post);
}

} // verus!
