//! The XML token stream the parsers work on, read with `quick_xml`.
//!
//! A document is read into a sequence of [`XmlEvent`]s made of plain values.
//! What `quick_xml` yields for a given document and configuration is named by
//! [`xml_event_stream`]; everything the parsers do with those events is
//! verified against that name.

use std::io::Cursor;

use quick_xml::events::attributes::Attributes;
use quick_xml::events::Event::{CData, Empty, End, Eof, Start, Text};
use quick_xml::Reader;
use vstd::prelude::*;

use crate::chars::{chars_eq_str, chars_of};
use crate::model::{first_match, lemma_first_match};

verus! {

#[verifier::external_type_specification]
#[verifier::external_body]
#[verifier::reject_recursive_types(T)]
pub struct ExCursor<T>(Cursor<T>);

#[verifier::external_type_specification]
#[verifier::external_body]
#[verifier::reject_recursive_types(R)]
pub struct ExReader<R>(Reader<R>);

/// One XML event, reduced to the plain values the parsers read.
#[derive(Debug, Clone)]
pub enum XmlEvent {
    /// A start tag: its qualified name and the raw text of its attributes.
    Start(String, String),
    /// A self-closing tag: its qualified name and the raw text of its attributes.
    Empty(String, String),
    /// An end tag: its qualified name.
    End(String),
    /// Character data, still escaped.
    Text(String),
    /// The contents of a `<![CDATA[...]]>` section.
    CData(String),
    /// The end of the document.
    Eof,
    /// The reader reported an error.
    Malformed,
    /// A comment, declaration, processing instruction or doctype.
    Other,
}

/// The mathematical view of an [`XmlEvent`].
pub enum XmlEventView {
    Start(Seq<char>, Seq<char>),
    Empty(Seq<char>, Seq<char>),
    End(Seq<char>),
    Text(Seq<char>),
    CData(Seq<char>),
    Eof,
    Malformed,
    Other,
}

impl View for XmlEvent {
    type V = XmlEventView;

    open spec fn view(&self) -> XmlEventView {
        match self {
            XmlEvent::Start(n, a) => XmlEventView::Start(n@, a@),
            XmlEvent::Empty(n, a) => XmlEventView::Empty(n@, a@),
            XmlEvent::End(n) => XmlEventView::End(n@),
            XmlEvent::Text(t) => XmlEventView::Text(t@),
            XmlEvent::CData(t) => XmlEventView::CData(t@),
            XmlEvent::Eof => XmlEventView::Eof,
            XmlEvent::Malformed => XmlEventView::Malformed,
            XmlEvent::Other => XmlEventView::Other,
        }
    }
}

/// The events of a document end at the first end-of-document or error.
pub open spec fn is_terminal(e: XmlEventView) -> bool {
    e is Eof || e is Malformed
}

/// What `quick_xml` reports for `doc` read with the given `trim_text` and
/// `check_end_names` settings: each event paired with the reader's byte offset
/// just after it, up to and including the first end-of-document or error.
pub uninterp spec fn xml_event_stream(doc: Seq<char>, trim_text: bool, check_end_names: bool) -> Seq<
    (XmlEventView, int),
>;

/// The events a reader has still to report.
pub uninterp spec fn xml_reader_pending(r: Reader<Cursor<Vec<u8>>>) -> Seq<(XmlEventView, int)>;

/// What `quick_xml`'s attribute iterator yields over the raw attribute text of a
/// tag: each attribute's key and raw value, or nothing for a malformed one.
pub uninterp spec fn xml_attribute_list(raw: Seq<char>) -> Seq<Option<(Seq<char>, Seq<char>)>>;

/// What `quick_xml::escape::unescape` makes of a string: the text with its
/// entity and character references replaced, or nothing when one is invalid.
pub uninterp spec fn xml_unescaped(raw: Seq<char>) -> Option<Seq<char>>;

/// Opens a reader over `doc` (`Reader::from_reader`, `Config::trim_text`,
/// `Config::check_end_names`). What it will report is named by
/// [`xml_event_stream`]; the reader always ends with an end-of-document or an
/// error.
#[verifier::external_body]
fn open_xml_reader(doc: &str, trim_text: bool, check_end_names: bool) -> (r: Reader<
    Cursor<Vec<u8>>,
>)
    ensures
        xml_reader_pending(r) == xml_event_stream(doc@, trim_text, check_end_names),
        xml_reader_pending(r).len() > 0,
        is_terminal(xml_reader_pending(r).last().0),
        forall|i: int|
            0 <= i < xml_reader_pending(r).len() - 1 ==> !is_terminal(
                #[trigger] xml_reader_pending(r)[i].0,
            ),
{
    let mut r = Reader::from_reader(Cursor::new(doc.as_bytes().to_vec()));
    r.config_mut().trim_text(trim_text);
    r.config_mut().check_end_names = check_end_names;
    r
}

/// Reads the next event and the byte offset after it (`Reader::read_event_into`,
/// `Reader::buffer_position`): the first pending event.
#[verifier::external_body]
fn read_xml_event(r: &mut Reader<Cursor<Vec<u8>>>) -> (ev: (XmlEvent, u64))
    requires
        xml_reader_pending(*old(r)).len() > 0,
    ensures
        (ev.0@, ev.1 as int) == xml_reader_pending(*old(r))[0],
        xml_reader_pending(*final(r)) == xml_reader_pending(*old(r)).drop_first(),
{
    let s = |b| String::from_utf8_lossy(b).into_owned();
    let ev = match r.read_event_into(&mut vec![]) {
        Ok(Start(e)) => XmlEvent::Start(s(e.name().0), s(e.attributes_raw())),
        Ok(Empty(e)) => XmlEvent::Empty(s(e.name().0), s(e.attributes_raw())),
        Ok(End(e)) => XmlEvent::End(s(e.name().0)),
        Ok(Text(e)) => XmlEvent::Text(s(&e)),
        Ok(CData(e)) => XmlEvent::CData(s(&e)),
        Ok(Eof) => XmlEvent::Eof,
        Ok(_) => XmlEvent::Other,
        Err(_) => XmlEvent::Malformed,
    };
    (ev, r.buffer_position())
}

/// The attributes in the raw attribute text of a tag (`Attributes::new` and its
/// iterator): key and raw value of each, `None` for a malformed one.
#[verifier::external_body]
fn attribute_list(raw: &str) -> (r: Vec<Option<(String, String)>>)
    ensures
        r@.map_values(|a: Option<(String, String)>| opt_pair_view(a)) == xml_attribute_list(
            raw@,
        ),
{
    let s = |b: &[u8]| String::from_utf8_lossy(b).into_owned();
    Attributes::new(raw, 0).map(|a| a.ok().map(|a| (s(a.key.as_ref()), s(&a.value)))).collect()
}

/// Replaces entity and character references (`quick_xml::escape::unescape`).
/// Text without any `&` comes back unchanged.
#[verifier::external_body]
pub(crate) fn unescape(raw: &str) -> (r: Option<String>)
    ensures
        opt_view(r) == xml_unescaped(raw@),
        !raw@.contains('&') ==> opt_view(r) == Some(raw@),
{
    quick_xml::escape::unescape(raw).ok().map(|c| c.into_owned())
}

// ---------------------------------------------------------------------------
// Views and helpers
// ---------------------------------------------------------------------------

/// The view of an optional string.
pub open spec fn opt_view(o: Option<String>) -> Option<Seq<char>> {
    match o {
        Some(s) => Some(s@),
        None => None,
    }
}

/// The view of an optional pair of strings.
pub open spec fn opt_pair_view(o: Option<(String, String)>) -> Option<(Seq<char>, Seq<char>)> {
    match o {
        Some((a, b)) => Some((a@, b@)),
        None => None,
    }
}

/// The events of a stream, without their offsets.
pub open spec fn stream_events(s: Seq<(XmlEventView, int)>) -> Seq<XmlEventView> {
    s.map_values(|p: (XmlEventView, int)| p.0)
}

/// The view of a sequence of events.
pub open spec fn events_view(v: Seq<XmlEvent>) -> Seq<XmlEventView> {
    v.map_values(|e: XmlEvent| e@)
}

/// `text` unescaped, or empty when unescaping fails
/// (`unescape().unwrap_or_default()`).
pub open spec fn unescape_or_empty(text: Seq<char>) -> Seq<char> {
    match xml_unescaped(text) {
        Some(u) => u,
        None => Seq::empty(),
    }
}

/// A qualified name without its namespace prefix: everything after the last `:`.
pub open spec fn local_name(name: Seq<char>) -> Seq<char>
    decreases name.len(),
{
    if name.len() == 0 {
        name
    } else if name.last() == ':' {
        Seq::empty()
    } else {
        local_name(name.drop_last()).push(name.last())
    }
}

/// The raw value of the first well-formed attribute with the given key.
pub open spec fn attr_raw(attrs: Seq<Option<(Seq<char>, Seq<char>)>>, key: Seq<char>) -> Option<
    Seq<char>,
> {
    let k = first_match(attrs, key_is(key));
    if k >= 0 {
        Some(attrs[k].unwrap().1)
    } else {
        None
    }
}

/// Predicate: a well-formed attribute with the given key.
pub open spec fn key_is(key: Seq<char>) -> spec_fn(Option<(Seq<char>, Seq<char>)>) -> bool {
    |a: Option<(Seq<char>, Seq<char>)>| a is Some && a.unwrap().0 == key
}

/// The unescaped value of attribute `key` in the raw attribute text of a tag,
/// as `attributes().flatten().find(..).map(|a| a.unescape_value().unwrap_or_default())`.
pub open spec fn attr_value_of(raw: Seq<char>, key: Seq<char>) -> Option<Seq<char>> {
    match attr_raw(xml_attribute_list(raw), key) {
        Some(v) => Some(unescape_or_empty(v)),
        None => None,
    }
}

/// Predicate form of [`is_terminal`].
pub open spec fn terminal_pred() -> spec_fn(XmlEventView) -> bool {
    |e: XmlEventView| is_terminal(e)
}

/// Index of the first end-of-document or error event, or the length when
/// there is none: a reading loop stops there.
pub open spec fn terminal_index(evs: Seq<XmlEventView>) -> int {
    let k = first_match(evs, terminal_pred());
    if k >= 0 {
        k
    } else {
        evs.len() as int
    }
}

/// The events a reading loop processes: those before the first terminal one.
pub open spec fn body_events(evs: Seq<XmlEventView>) -> Seq<XmlEventView> {
    evs.take(terminal_index(evs))
}

/// Does reading stop on an error?
pub open spec fn stops_on_error(evs: Seq<XmlEventView>) -> bool {
    terminal_index(evs) < evs.len() && evs[terminal_index(evs)] is Malformed
}

/// The name and raw attributes of a start or self-closing tag.
pub open spec fn tag_of(e: XmlEventView) -> Option<(Seq<char>, Seq<char>)> {
    match e {
        XmlEventView::Start(n, a) => Some((n, a)),
        XmlEventView::Empty(n, a) => Some((n, a)),
        _ => None,
    }
}

/// Loop bookkeeping for event consumers: at position `i` with no terminal event
/// before it, either `i` is the terminal index or reading continues.
pub proof fn lemma_terminal_index(evs: Seq<XmlEventView>, i: int)
    requires
        0 <= i <= evs.len(),
        forall|j: int| 0 <= j < i ==> !is_terminal(#[trigger] evs[j]),
        i == evs.len() || is_terminal(evs[i]),
    ensures
        terminal_index(evs) == i,
{
    lemma_first_match(evs, terminal_pred(), i);
}

/// No terminal event before `i` puts the terminal index at or after `i`.
pub proof fn lemma_terminal_index_at_least(evs: Seq<XmlEventView>, i: int)
    requires
        0 <= i <= evs.len(),
        forall|j: int| 0 <= j < i ==> !is_terminal(#[trigger] evs[j]),
    ensures
        terminal_index(evs) >= i,
        body_events(evs).len() == terminal_index(evs),
        forall|j: int| 0 <= j < terminal_index(evs) ==> #[trigger] body_events(evs)[j] == evs[j],
{
    crate::model::lemma_first_match_bounds(evs, terminal_pred());
    let k = first_match(evs, terminal_pred());
    if k >= 0 && k < i {
        assert(is_terminal(evs[k]));
    }
}

/// Is the event an end-of-document or error?
pub fn event_is_terminal(e: &XmlEvent) -> (r: bool)
    ensures
        r == is_terminal(e@),
{
    match e {
        XmlEvent::Eof => true,
        XmlEvent::Malformed => true,
        _ => false,
    }
}

/// Reads a whole document into events and the byte offset after each.
pub fn read_xml(doc: &str, trim_text: bool, check_end_names: bool) -> (r: (
    Vec<XmlEvent>,
    Vec<u64>,
))
    ensures
        r.0@.len() == r.1@.len(),
        events_view(r.0@) == stream_events(xml_event_stream(doc@, trim_text, check_end_names)),
        forall|i: int|
            0 <= i < r.1@.len() ==> r.1@[i] == #[trigger] xml_event_stream(
                doc@,
                trim_text,
                check_end_names,
            )[i].1,
{
    let ghost all = xml_event_stream(doc@, trim_text, check_end_names);
    let mut reader = open_xml_reader(doc, trim_text, check_end_names);
    let mut events: Vec<XmlEvent> = Vec::new();
    let mut offsets: Vec<u64> = Vec::new();
    loop
        invariant
            all == xml_event_stream(doc@, trim_text, check_end_names),
            all.len() > 0,
            is_terminal(all.last().0),
            forall|i: int| 0 <= i < all.len() - 1 ==> !is_terminal(#[trigger] all[i].0),
            events@.len() == offsets@.len(),
            events@.len() < all.len(),
            xml_reader_pending(reader) == all.skip(events@.len() as int),
            events_view(events@) == stream_events(all.take(events@.len() as int)),
            forall|i: int| 0 <= i < offsets@.len() ==> offsets@[i] == #[trigger] all[i].1,
        decreases xml_reader_pending(reader).len(),
    {
        let ghost k = events@.len() as int;
        let (ev, pos) = read_xml_event(&mut reader);
        let terminal = match ev {
            XmlEvent::Eof => true,
            XmlEvent::Malformed => true,
            _ => false,
        };
        assert(all.skip(k)[0] == all[k]);
        events.push(ev);
        offsets.push(pos);
        assert(all.skip(k).drop_first() =~= all.skip(k + 1));
        assert(stream_events(all.take(k + 1)) =~= stream_events(all.take(k)).push(all[k].0));
        assert(events_view(events@) =~= events_view(events@.drop_last()).push(ev@));
        if terminal {
            assert(k == all.len() - 1);
            assert(all.take(k + 1) =~= all);
            return (events, offsets);
        }
    }
}

/// The events of a whole document.
pub fn xml_events(doc: &str, trim_text: bool, check_end_names: bool) -> (r: Vec<XmlEvent>)
    ensures
        events_view(r@) == stream_events(xml_event_stream(doc@, trim_text, check_end_names)),
{
    let (ev, _) = read_xml(doc, trim_text, check_end_names);
    ev
}

/// A qualified name without its namespace prefix.
pub fn local_name_of(name: &[char]) -> (r: Vec<char>)
    ensures
        r@ == local_name(name@),
{
    let mut i: usize = name.len();
    assert(name@.take(name@.len() as int) =~= name@);
    assert(name@.skip(name@.len() as int) =~= Seq::<char>::empty());
    assert(local_name(name@) + Seq::<char>::empty() =~= local_name(name@));
    while i > 0 && name[i - 1] != ':'
        invariant
            i <= name@.len(),
            forall|j: int| i <= j < name@.len() ==> name@[j] != ':',
            local_name(name@) == local_name(name@.take(i as int)) + name@.skip(i as int),
        decreases i,
    {
        let ghost t = name@.take(i as int);
        assert(t.drop_last() =~= name@.take(i - 1));
        assert(name@.skip(i - 1) =~= seq![t.last()] + name@.skip(i as int));
        assert(local_name(t) == local_name(t.drop_last()).push(t.last()));
        assert(local_name(t.drop_last()).push(t.last()) + name@.skip(i as int) =~= local_name(
            t.drop_last(),
        ) + name@.skip(i - 1));
        i = i - 1;
    }
    let mut out: Vec<char> = Vec::new();
    let mut k: usize = i;
    while k < name.len()
        invariant
            i <= k <= name@.len(),
            out@ == name@.subrange(i as int, k as int),
        decreases name@.len() - k,
    {
        out.push(name[k]);
        assert(name@.subrange(i as int, k + 1) =~= name@.subrange(i as int, k as int).push(
            name@[k as int],
        ));
        k = k + 1;
    }
    proof {
        let t = name@.take(i as int);
        if i > 0 {
            assert(t.last() == ':');
            assert(local_name(t) =~= Seq::<char>::empty());
        } else {
            assert(local_name(t) =~= Seq::<char>::empty());
        }
        assert(name@.skip(i as int) =~= name@.subrange(i as int, name@.len() as int));
        assert(Seq::<char>::empty() + name@.skip(i as int) =~= name@.skip(i as int));
    }
    out
}

/// Does the local part of the qualified name equal `lit`?
pub fn local_is(name: &String, lit: &str) -> (r: bool)
    ensures
        r == (local_name(name@) == lit@),
{
    let v = chars_of(name.as_str());
    let l = local_name_of(v.as_slice());
    chars_eq_str(l.as_slice(), lit)
}

/// Unescapes text, yielding an empty string when unescaping fails.
pub fn unescape_or_default(raw: &str) -> (r: String)
    ensures
        r@ == unescape_or_empty(raw@),
{
    match unescape(raw) {
        Some(u) => u,
        None => String::new(),
    }
}

/// The unescaped value of attribute `key` in the raw attribute text of a tag.
pub fn attr_value(attrs_raw: &str, key: &str) -> (r: Option<String>)
    ensures
        opt_view(r) == attr_value_of(attrs_raw@, key@),
{
    let attrs = attribute_list(attrs_raw);
    match raw_attr_value(&attrs, key) {
        Some(v) => Some(unescape_or_default(v.as_str())),
        None => None,
    }
}

/// The raw value of the first well-formed attribute with the given key, in a
/// tag's attribute list.
pub fn raw_attr_value(attrs: &Vec<Option<(String, String)>>, key: &str) -> (r: Option<String>)
    ensures
        opt_view(r) == attr_raw(
            attrs@.map_values(|a: Option<(String, String)>| opt_pair_view(a)),
            key@,
        ),
{
    let ghost all = attrs@.map_values(|a: Option<(String, String)>| opt_pair_view(a));
    let ghost p = key_is(key@);
    let mut i: usize = 0;
    while i < attrs.len()
        invariant
            i <= attrs@.len(),
            p == key_is(key@),
            all == attrs@.map_values(|a: Option<(String, String)>| opt_pair_view(a)),
            forall|j: int| 0 <= j < i ==> !p(#[trigger] all[j]),
        decreases attrs@.len() - i,
    {
        assert(all[i as int] == opt_pair_view(attrs@[i as int]));
        match &attrs[i] {
            Some((k, v)) => {
                if string_eq(k, key) {
                    proof {
                        lemma_first_match(all, p, i as int);
                    }
                    return Some(v.clone());
                }
            },
            None => {},
        }
        i = i + 1;
    }
    proof {
        lemma_first_match(all, p, i as int);
    }
    None
}

fn string_eq(a: &String, b: &str) -> (r: bool)
    ensures
        r == (a@ == b@),
{
    let v = chars_of(a.as_str());
    chars_eq_str(v.as_slice(), b)
}

} // verus!
