//! Parser for the OPF package document: Dublin Core metadata, manifest, spine.

use vstd::prelude::*;

use crate::chars::{chars_ascii_lower, chars_eq_str, chars_of, string_eq_str, string_of, trim, trim_chars, ascii_lower_seq};
use crate::error::EpubError;
use crate::model::{
    first_match, lemma_first_match, manifest_view, spine_view, strings_view, ManifestItem,
    ManifestItemView, Metadata, MetadataView, Package, PackageView, SpineItem, SpineItemView,
};
use crate::util::{resolve_href, resolve_spec};
use crate::xml::{
    attr_value, attr_value_of, body_events, event_is_terminal, events_view,
    lemma_terminal_index, local_is, local_name, local_name_of, opt_view, stops_on_error,
    stream_events, tag_of, unescape_or_default, unescape_or_empty, xml_event_stream, xml_events,
    XmlEvent, XmlEventView,
};

verus! {

/// Which `<metadata>` Dublin Core element we are currently inside, so character
/// data lands in the right field.
#[derive(Clone, Copy, PartialEq, Eq, Structural)]
pub enum DcField {
    NoField,
    Title,
    Creator,
    Language,
    Identifier,
    Publisher,
    Date,
    Description,
    Rights,
}

/// The Dublin Core field named by an element's local name.
pub open spec fn dc_field_spec(local: Seq<char>) -> DcField {
    if local == "title"@ {
        DcField::Title
    } else if local == "creator"@ {
        DcField::Creator
    } else if local == "language"@ {
        DcField::Language
    } else if local == "identifier"@ {
        DcField::Identifier
    } else if local == "publisher"@ {
        DcField::Publisher
    } else if local == "date"@ {
        DcField::Date
    } else if local == "description"@ {
        DcField::Description
    } else if local == "rights"@ {
        DcField::Rights
    } else {
        DcField::NoField
    }
}

fn dc_field(local: &[char]) -> (r: DcField)
    ensures
        r == dc_field_spec(local@),
{
    if chars_eq_str(local, "title") {
        DcField::Title
    } else if chars_eq_str(local, "creator") {
        DcField::Creator
    } else if chars_eq_str(local, "language") {
        DcField::Language
    } else if chars_eq_str(local, "identifier") {
        DcField::Identifier
    } else if chars_eq_str(local, "publisher") {
        DcField::Publisher
    } else if chars_eq_str(local, "date") {
        DcField::Date
    } else if chars_eq_str(local, "description") {
        DcField::Description
    } else if chars_eq_str(local, "rights") {
        DcField::Rights
    } else {
        DcField::NoField
    }
}

/// A single-valued field keeps its first value.
pub open spec fn first_value(old: Option<Seq<char>>, value: Seq<char>) -> Option<Seq<char>> {
    if old is Some {
        old
    } else {
        Some(value)
    }
}

/// Records the text of a closed Dublin Core element: repeated fields
/// (creator, language) accumulate, the others keep their first value.
pub open spec fn commit_dc_spec(md: MetadataView, field: DcField, value: Seq<char>) -> MetadataView {
    match field {
        DcField::Title => MetadataView { title: first_value(md.title, value), ..md },
        DcField::Creator => MetadataView { creators: md.creators.push(value), ..md },
        DcField::Language => MetadataView { languages: md.languages.push(value), ..md },
        DcField::Identifier => MetadataView { identifier: first_value(md.identifier, value), ..md },
        DcField::Publisher => MetadataView { publisher: first_value(md.publisher, value), ..md },
        DcField::Date => MetadataView { date: first_value(md.date, value), ..md },
        DcField::Description => MetadataView {
            description: first_value(md.description, value),
            ..md
        },
        DcField::Rights => MetadataView { rights: first_value(md.rights, value), ..md },
        DcField::NoField => md,
    }
}

/// The manifest item described by an `<item>` tag's attributes: it needs an
/// `id` and an `href`; the href is resolved against the OPF's own path.
pub open spec fn manifest_item_spec(attrs: Seq<char>, opf_path: Seq<char>) -> Option<
    ManifestItemView,
> {
    match (attr_value_of(attrs, "id"@), attr_value_of(attrs, "href"@)) {
        (Some(id), Some(href)) => Some(
            ManifestItemView {
                id,
                href,
                media_type: match attr_value_of(attrs, "media-type"@) {
                    Some(m) => m,
                    None => Seq::empty(),
                },
                resolved_path: resolve_spec(opf_path, href, true),
                properties: attr_value_of(attrs, "properties"@),
            },
        ),
        _ => None,
    }
}

/// The spine item described by an `<itemref>` tag's attributes: it needs an
/// `idref`; it is linear unless `linear` says otherwise (only `yes`, in any
/// case, or an empty value count as linear when the attribute is present).
pub open spec fn spine_item_spec(attrs: Seq<char>) -> Option<SpineItemView> {
    match attr_value_of(attrs, "idref"@) {
        Some(idref) => Some(
            SpineItemView {
                idref,
                linear: match attr_value_of(attrs, "linear"@) {
                    Some(v) => ascii_lower_seq(v) == "yes"@ || v.len() == 0,
                    None => true,
                },
            },
        ),
        None => None,
    }
}

/// State of the OPF scan.
pub struct OpfState {
    pub in_metadata: bool,
    pub current: DcField,
    pub buf: Seq<char>,
    pub metadata: MetadataView,
    pub manifest: Seq<ManifestItemView>,
    pub spine: Seq<SpineItemView>,
}

/// One event of the OPF scan.
pub open spec fn opf_step(st: OpfState, e: XmlEventView, opf_path: Seq<char>) -> OpfState {
    match e {
        XmlEventView::Start(n, _) => {
            let l = local_name(n);
            if l == "metadata"@ {
                OpfState { in_metadata: true, ..st }
            } else if st.in_metadata && dc_field_spec(l) != DcField::NoField {
                OpfState { current: dc_field_spec(l), buf: Seq::empty(), ..st }
            } else {
                st
            }
        },
        XmlEventView::Empty(n, attrs) => {
            let l = local_name(n);
            if l == "item"@ {
                match manifest_item_spec(attrs, opf_path) {
                    Some(m) => OpfState { manifest: st.manifest.push(m), ..st },
                    None => st,
                }
            } else if l == "itemref"@ {
                match spine_item_spec(attrs) {
                    Some(s) => OpfState { spine: st.spine.push(s), ..st },
                    None => st,
                }
            } else {
                st
            }
        },
        XmlEventView::Text(t) => if st.in_metadata && st.current != DcField::NoField {
            OpfState { buf: st.buf + unescape_or_empty(t), ..st }
        } else {
            st
        },
        XmlEventView::CData(t) => if st.in_metadata && st.current != DcField::NoField {
            OpfState { buf: st.buf + t, ..st }
        } else {
            st
        },
        XmlEventView::End(n) => {
            let l = local_name(n);
            if l == "metadata"@ {
                OpfState { in_metadata: false, current: DcField::NoField, ..st }
            } else if l == "spine"@ {
                st
            } else if st.in_metadata && st.current != DcField::NoField {
                let value = trim(st.buf);
                OpfState {
                    metadata: if value.len() > 0 {
                        commit_dc_spec(st.metadata, st.current, value)
                    } else {
                        st.metadata
                    },
                    current: DcField::NoField,
                    buf: Seq::empty(),
                    ..st
                }
            } else {
                st
            }
        },
        _ => st,
    }
}

/// Metadata with every field absent.
pub open spec fn empty_metadata() -> MetadataView {
    MetadataView {
        title: None,
        creators: Seq::empty(),
        languages: Seq::empty(),
        identifier: None,
        publisher: None,
        date: None,
        description: None,
        rights: None,
    }
}

/// The OPF scan over a run of events.
pub open spec fn opf_run(evs: Seq<XmlEventView>, opf_path: Seq<char>) -> OpfState
    decreases evs.len(),
{
    if evs.len() == 0 {
        OpfState {
            in_metadata: false,
            current: DcField::NoField,
            buf: Seq::empty(),
            metadata: empty_metadata(),
            manifest: Seq::empty(),
            spine: Seq::empty(),
        }
    } else {
        opf_step(opf_run(evs.drop_last(), opf_path), evs.last(), opf_path)
    }
}

/// Predicate: a `<spine>` tag.
pub open spec fn spine_tag() -> spec_fn(XmlEventView) -> bool {
    |e: XmlEventView| tag_of(e) is Some && local_name(tag_of(e).unwrap().0) == "spine"@
}

/// Predicate: a `<meta name="cover" content="…">` tag.
pub open spec fn cover_meta_tag() -> spec_fn(XmlEventView) -> bool {
    |e: XmlEventView|
        tag_of(e) is Some && local_name(tag_of(e).unwrap().0) == "meta"@ && attr_value_of(
            tag_of(e).unwrap().1,
            "name"@,
        ) == Some("cover"@) && attr_value_of(tag_of(e).unwrap().1, "content"@) is Some
}

/// Predicate: a guide `<reference type="cover" href="…">` tag.
pub open spec fn guide_cover_tag() -> spec_fn(XmlEventView) -> bool {
    |e: XmlEventView|
        tag_of(e) is Some && local_name(tag_of(e).unwrap().0) == "reference"@ && attr_value_of(
            tag_of(e).unwrap().1,
            "type"@,
        ) == Some("cover"@) && attr_value_of(tag_of(e).unwrap().1, "href"@) is Some
}

/// The `toc` attribute of the first `<spine>` tag.
pub open spec fn spine_toc_of(evs: Seq<XmlEventView>) -> Option<Seq<char>> {
    let b = body_events(evs);
    let k = first_match(b, spine_tag());
    if k >= 0 {
        attr_value_of(tag_of(b[k]).unwrap().1, "toc"@)
    } else {
        None
    }
}

/// The `content` of the first `<meta name="cover" content="…">`.
pub open spec fn cover_meta_of(evs: Seq<XmlEventView>) -> Option<Seq<char>> {
    let b = body_events(evs);
    let k = first_match(b, cover_meta_tag());
    if k >= 0 {
        attr_value_of(tag_of(b[k]).unwrap().1, "content"@)
    } else {
        None
    }
}

/// The `href` of the first guide reference of type `cover`.
pub open spec fn guide_cover_of(evs: Seq<XmlEventView>) -> Option<Seq<char>> {
    let b = body_events(evs);
    let k = first_match(b, guide_cover_tag());
    if k >= 0 {
        attr_value_of(tag_of(b[k]).unwrap().1, "href"@)
    } else {
        None
    }
}

/// The package described by an OPF document's events.
pub open spec fn opf_outcome(evs: Seq<XmlEventView>, opf_path: Seq<char>) -> Result<
    PackageView,
    EpubError,
> {
    if stops_on_error(evs) {
        Err(EpubError::MalformedOpf)
    } else {
        let st = opf_run(body_events(evs), opf_path);
        Ok(
            PackageView {
                metadata: st.metadata,
                manifest: st.manifest,
                spine: st.spine,
                spine_toc: spine_toc_of(evs),
                cover_id: cover_meta_of(evs),
                guide_cover_href: guide_cover_of(evs),
                opf_path,
            },
        )
    }
}

/// The view of a package result.
pub open spec fn package_result_view(r: Result<Package, EpubError>) -> Result<
    PackageView,
    EpubError,
> {
    match r {
        Ok(p) => Ok(p@),
        Err(e) => Err(e),
    }
}

/// Parse the OPF document text. `opf_path` is the OPF's full archive path, used
/// both to record on the `Package` and to resolve manifest hrefs.
pub fn parse_opf(xml: &str, opf_path: &str) -> (r: Result<Package, EpubError>)
    ensures
        package_result_view(r) == opf_outcome(
            stream_events(xml_event_stream(xml@, false, true)),
            opf_path@,
        ),
{
    let events = xml_events(xml, false, true);
    opf_from_events(&events, opf_path)
}

fn commit_dc(md: &mut Metadata, field: DcField, value: String)
    ensures
        final(md)@ == commit_dc_spec(old(md)@, field, value@),
{
    match field {
        DcField::Title => {
            if md.title.is_none() {
                md.title = Some(value);
            }
        },
        DcField::Creator => {
            md.creators.push(value);
            assert(strings_view(md.creators@) =~= strings_view(old(md).creators@).push(value@));
        },
        DcField::Language => {
            md.languages.push(value);
            assert(strings_view(md.languages@) =~= strings_view(old(md).languages@).push(value@));
        },
        DcField::Identifier => {
            if md.identifier.is_none() {
                md.identifier = Some(value);
            }
        },
        DcField::Publisher => {
            if md.publisher.is_none() {
                md.publisher = Some(value);
            }
        },
        DcField::Date => {
            if md.date.is_none() {
                md.date = Some(value);
            }
        },
        DcField::Description => {
            if md.description.is_none() {
                md.description = Some(value);
            }
        },
        DcField::Rights => {
            if md.rights.is_none() {
                md.rights = Some(value);
            }
        },
        DcField::NoField => {},
    }
}

fn parse_manifest_item(attrs: &str, opf_path: &str) -> (r: Option<ManifestItem>)
    ensures
        match r {
            Some(m) => manifest_item_spec(attrs@, opf_path@) == Some(m@),
            None => manifest_item_spec(attrs@, opf_path@) is None,
        },
{
    let id = match attr_value(attrs, "id") {
        Some(v) => v,
        None => return None,
    };
    let href = match attr_value(attrs, "href") {
        Some(v) => v,
        None => return None,
    };
    let media_type = match attr_value(attrs, "media-type") {
        Some(v) => v,
        None => String::new(),
    };
    let properties = attr_value(attrs, "properties");
    let resolved_path = resolve_href(opf_path, href.as_str());
    Some(ManifestItem { id, href, media_type, resolved_path, properties })
}

fn parse_spine_item(attrs: &str) -> (r: Option<SpineItem>)
    ensures
        match r {
            Some(s) => spine_item_spec(attrs@) == Some(s@),
            None => spine_item_spec(attrs@) is None,
        },
{
    let idref = match attr_value(attrs, "idref") {
        Some(v) => v,
        None => return None,
    };
    let linear = match attr_value(attrs, "linear") {
        Some(v) => {
            let vv = chars_of(v.as_str());
            let lower = chars_ascii_lower(vv.as_slice());
            chars_eq_str(lower.as_slice(), "yes") || vv.len() == 0
        },
        None => true,
    };
    Some(SpineItem { idref, linear })
}

/// The OPF scan's state held in executable variables.
struct OpfVars {
    pkg: Package,
    in_metadata: bool,
    current: DcField,
    buf: Vec<char>,
}

impl OpfVars {
    spec fn matches(&self, st: OpfState) -> bool {
        &&& st.in_metadata == self.in_metadata
        &&& st.current == self.current
        &&& st.buf == self.buf@
        &&& st.metadata == self.pkg.metadata@
        &&& st.manifest == manifest_view(self.pkg.manifest@)
        &&& st.spine == spine_view(self.pkg.spine@)
    }

    fn step(&mut self, e: &XmlEvent, opf_path: &str, Ghost(st): Ghost<OpfState>)
        requires
            old(self).matches(st),
        ensures
            final(self).matches(opf_step(st, e@, opf_path@)),
            final(self).pkg.opf_path == old(self).pkg.opf_path,
    {
        match e {
            XmlEvent::Start(name, _) => {
                let nv = chars_of(name.as_str());
                let local = local_name_of(nv.as_slice());
                if chars_eq_str(local.as_slice(), "metadata") {
                    self.in_metadata = true;
                } else if self.in_metadata {
                    let f = dc_field(local.as_slice());
                    if f != DcField::NoField {
                        self.current = f;
                        self.buf = Vec::new();
                    }
                }
            },
            XmlEvent::Empty(name, attrs) => {
                if local_is(name, "item") {
                    if let Some(item) = parse_manifest_item(attrs.as_str(), opf_path) {
                        let ghost m0 = self.pkg.manifest@;
                        self.pkg.manifest.push(item);
                        assert(manifest_view(self.pkg.manifest@) =~= manifest_view(m0).push(
                            item@,
                        ));
                    }
                } else if local_is(name, "itemref") {
                    if let Some(sp) = parse_spine_item(attrs.as_str()) {
                        let ghost s0 = self.pkg.spine@;
                        self.pkg.spine.push(sp);
                        assert(spine_view(self.pkg.spine@) =~= spine_view(s0).push(sp@));
                    }
                }
            },
            XmlEvent::Text(t) => {
                if self.in_metadata && self.current != DcField::NoField {
                    let decoded = unescape_or_default(t.as_str());
                    crate::chars::extend_str(&mut self.buf, decoded.as_str());
                }
            },
            XmlEvent::CData(t) => {
                if self.in_metadata && self.current != DcField::NoField {
                    crate::chars::extend_str(&mut self.buf, t.as_str());
                }
            },
            XmlEvent::End(name) => {
                let nv = chars_of(name.as_str());
                let local = local_name_of(nv.as_slice());
                if chars_eq_str(local.as_slice(), "metadata") {
                    self.in_metadata = false;
                    self.current = DcField::NoField;
                } else if chars_eq_str(local.as_slice(), "spine") {
                } else if self.in_metadata && self.current != DcField::NoField {
                    // Closing a DC element: commit the accumulated text.
                    let value = trim_chars(self.buf.as_slice());
                    if value.len() > 0 {
                        let v = string_of(value.as_slice());
                        commit_dc(&mut self.pkg.metadata, self.current, v);
                    }
                    self.current = DcField::NoField;
                    self.buf = Vec::new();
                }
            },
            _ => {},
        }
    }
}

/// The first event satisfying `p` among those before the first terminal one:
/// the value of attribute `key` on it.
fn first_tag_attr(events: &Vec<XmlEvent>, which: u8, key: &str) -> (r: Option<String>)
    requires
        which < 3,
    ensures
        ({
            let evs = events_view(events@);
            let b = body_events(evs);
            let p = if which == 0 {
                spine_tag()
            } else if which == 1 {
                cover_meta_tag()
            } else {
                guide_cover_tag()
            };
            let k = first_match(b, p);
            opt_view(r) == if k >= 0 {
                attr_value_of(tag_of(b[k]).unwrap().1, key@)
            } else {
                None
            }
        }),
{
    let ghost evs = events_view(events@);
    let ghost p = if which == 0 {
        spine_tag()
    } else if which == 1 {
        cover_meta_tag()
    } else {
        guide_cover_tag()
    };
    let mut i: usize = 0;
    while i < events.len() && !event_is_terminal(&events[i])
        invariant
            i <= events@.len(),
            evs == events_view(events@),
            which < 3,
            p == if which == 0 {
                spine_tag()
            } else if which == 1 {
                cover_meta_tag()
            } else {
                guide_cover_tag()
            },
            forall|j: int| 0 <= j < i ==> !crate::xml::is_terminal(#[trigger] evs[j]),
            forall|j: int| 0 <= j < i ==> !p(#[trigger] evs[j]),
        decreases events@.len() - i,
    {
        let e = &events[i];
        assert(evs[i as int] == e@);
        let (name, attrs) = match e {
            XmlEvent::Start(n, a) => (n, a),
            XmlEvent::Empty(n, a) => (n, a),
            _ => {
                i = i + 1;
                continue;
            },
        };
        let hit = if which == 0 {
            local_is(name, "spine")
        } else if which == 1 {
            local_is(name, "meta") && match attr_value(attrs.as_str(), "name") {
                Some(v) => string_eq_str(&v, "cover"),
                None => false,
            } && attr_value(attrs.as_str(), "content").is_some()
        } else {
            local_is(name, "reference") && match attr_value(attrs.as_str(), "type") {
                Some(v) => string_eq_str(&v, "cover"),
                None => false,
            } && attr_value(attrs.as_str(), "href").is_some()
        };
        if hit {
            proof {
                crate::xml::lemma_terminal_index_at_least(evs, i + 1);
                let b = body_events(evs);
                assert forall|j: int| 0 <= j < i implies !p(#[trigger] b[j]) by {
                    assert(b[j] == evs[j]);
                }
                lemma_first_match(b, p, i as int);
            }
            return attr_value(attrs.as_str(), key);
        }
        i = i + 1;
    }
    proof {
        lemma_terminal_index(evs, i as int);
        let b = body_events(evs);
        assert forall|j: int| 0 <= j < b.len() implies !p(#[trigger] b[j]) by {
            assert(b[j] == evs[j]);
        }
        lemma_first_match(b, p, b.len() as int);
    }
    None
}

/// The package described by an OPF document, given its events.
pub fn opf_from_events(events: &Vec<XmlEvent>, opf_path: &str) -> (r: Result<Package, EpubError>)
    ensures
        package_result_view(r) == opf_outcome(events_view(events@), opf_path@),
{
    let ghost evs = events_view(events@);
    let mut v = OpfVars {
        pkg: Package::new(string_of(chars_of(opf_path).as_slice())),
        in_metadata: false,
        current: DcField::NoField,
        buf: Vec::new(),
    };
    let mut i: usize = 0;
    assert(evs.take(0) =~= Seq::<XmlEventView>::empty());
    assert(manifest_view(v.pkg.manifest@) =~= Seq::<ManifestItemView>::empty());
    assert(spine_view(v.pkg.spine@) =~= Seq::<SpineItemView>::empty());
    assert(strings_view(v.pkg.metadata.creators@) =~= Seq::<Seq<char>>::empty());
    assert(strings_view(v.pkg.metadata.languages@) =~= Seq::<Seq<char>>::empty());
    assert(v.pkg.metadata@ =~= empty_metadata());
    while i < events.len() && !event_is_terminal(&events[i])
        invariant
            i <= events@.len(),
            evs == events_view(events@),
            forall|j: int| 0 <= j < i ==> !crate::xml::is_terminal(#[trigger] evs[j]),
            v.matches(opf_run(evs.take(i as int), opf_path@)),
            v.pkg.opf_path@ == opf_path@,
        decreases events@.len() - i,
    {
        let ghost st = opf_run(evs.take(i as int), opf_path@);
        assert(evs.take(i + 1).drop_last() =~= evs.take(i as int));
        assert(evs[i as int] == events@[i as int]@);
        v.step(&events[i], opf_path, Ghost(st));
        i = i + 1;
    }
    proof {
        lemma_terminal_index(evs, i as int);
    }
    if i < events.len() {
        if let XmlEvent::Malformed = &events[i] {
            return Err(EpubError::MalformedOpf);
        }
    }
    // The spine's `toc` attribute, the EPUB 2 `<meta name="cover">` reference and
    // the guide's cover reference come from dedicated passes over the same events.
    v.pkg.spine_toc = first_tag_attr(events, 0, "toc");
    v.pkg.cover_id = first_tag_attr(events, 1, "content");
    v.pkg.guide_cover_href = first_tag_attr(events, 2, "href");
    Ok(v.pkg)
}

} // verus!

verus! {

// ---------------------------------------------------------------------------
// Single-valued fields keep their first value
// ---------------------------------------------------------------------------

/// `later` keeps what `earlier` recorded: every single-valued field that
/// `earlier` holds is unchanged, and the creators and languages of `earlier`
/// begin the lists of `later`.
pub open spec fn keeps_recorded(earlier: MetadataView, later: MetadataView) -> bool {
    &&& (earlier.title is Some ==> later.title == earlier.title)
    &&& (earlier.identifier is Some ==> later.identifier == earlier.identifier)
    &&& (earlier.publisher is Some ==> later.publisher == earlier.publisher)
    &&& (earlier.date is Some ==> later.date == earlier.date)
    &&& (earlier.description is Some ==> later.description == earlier.description)
    &&& (earlier.rights is Some ==> later.rights == earlier.rights)
    &&& earlier.creators.len() <= later.creators.len()
    &&& (forall|i: int|
        0 <= i < earlier.creators.len() ==> later.creators[i] == #[trigger] earlier.creators[i])
    &&& earlier.languages.len() <= later.languages.len()
    &&& (forall|i: int|
        0 <= i < earlier.languages.len() ==> later.languages[i] == #[trigger] earlier.languages[i])
}

proof fn lemma_keeps_recorded_trans(a: MetadataView, b: MetadataView, c: MetadataView)
    requires
        keeps_recorded(a, b),
        keeps_recorded(b, c),
    ensures
        keeps_recorded(a, c),
{
    assert forall|i: int| 0 <= i < a.creators.len() implies c.creators[i]
        == #[trigger] a.creators[i] by {
        assert(c.creators[i] == b.creators[i]);
    }
    assert forall|i: int| 0 <= i < a.languages.len() implies c.languages[i]
        == #[trigger] a.languages[i] by {
        assert(c.languages[i] == b.languages[i]);
    }
}

proof fn lemma_opf_step_keeps(st: OpfState, e: XmlEventView, opf_path: Seq<char>)
    ensures
        keeps_recorded(st.metadata, opf_step(st, e, opf_path).metadata),
{
    let md = st.metadata;
    let md2 = opf_step(st, e, opf_path).metadata;
    assert forall|i: int| 0 <= i < md.creators.len() implies md2.creators[i]
        == #[trigger] md.creators[i] by {}
    assert forall|i: int| 0 <= i < md.languages.len() implies md2.languages[i]
        == #[trigger] md.languages[i] by {}
}

/// Once the OPF scan has recorded a title, identifier, publisher, date,
/// description or rights value, no later event replaces it; creators and
/// languages only ever grow at the end. So of several elements of a
/// single-valued field, the first with non-empty text wins.
pub proof fn lemma_recorded_metadata_is_kept(
    evs: Seq<XmlEventView>,
    k: int,
    opf_path: Seq<char>,
)
    requires
        0 <= k <= evs.len(),
    ensures
        keeps_recorded(opf_run(evs.take(k), opf_path).metadata, opf_run(evs, opf_path).metadata),
    decreases evs.len(),
{
    let md = opf_run(evs, opf_path).metadata;
    if k == evs.len() {
        assert(evs.take(k) =~= evs);
        assert forall|i: int| 0 <= i < md.creators.len() implies md.creators[i]
            == #[trigger] md.creators[i] by {}
    } else {
        let d = evs.drop_last();
        assert(d.take(k) =~= evs.take(k));
        lemma_recorded_metadata_is_kept(d, k, opf_path);
        lemma_opf_step_keeps(opf_run(d, opf_path), evs.last(), opf_path);
        lemma_keeps_recorded_trans(
            opf_run(evs.take(k), opf_path).metadata,
            opf_run(d, opf_path).metadata,
            md,
        );
    }
}

/// The names of the single-valued Dublin Core elements.
pub open spec fn is_single_valued(l: Seq<char>) -> bool {
    l == "title"@ || l == "identifier"@ || l == "publisher"@ || l == "date"@ || l
        == "description"@ || l == "rights"@
}

/// The value recorded for the single-valued element named `l`.
pub open spec fn single_value(md: MetadataView, l: Seq<char>) -> Option<Seq<char>> {
    if l == "title"@ {
        md.title
    } else if l == "identifier"@ {
        md.identifier
    } else if l == "publisher"@ {
        md.publisher
    } else if l == "date"@ {
        md.date
    } else if l == "description"@ {
        md.description
    } else if l == "rights"@ {
        md.rights
    } else {
        None
    }
}

proof fn lemma_single_value_kept(a: MetadataView, b: MetadataView, l: Seq<char>)
    requires
        keeps_recorded(a, b),
        single_value(a, l) is Some,
    ensures
        single_value(b, l) == single_value(a, l),
{
}

/// Inside `<metadata>`, an element `<dc:l>text</dc:l>` of a single-valued
/// field with no value yet records its trimmed text.
pub proof fn lemma_dc_element_fills_field(
    pre: Seq<XmlEventView>,
    n: Seq<char>,
    attrs: Seq<char>,
    t: Seq<char>,
    opf_path: Seq<char>,
)
    requires
        opf_run(pre, opf_path).in_metadata,
        is_single_valued(local_name(n)),
        single_value(opf_run(pre, opf_path).metadata, local_name(n)) is None,
        trim(unescape_or_empty(t)).len() > 0,
    ensures
        single_value(
            opf_run(
                pre + seq![XmlEventView::Start(n, attrs), XmlEventView::Text(t), XmlEventView::End(n)],
                opf_path,
            ).metadata,
            local_name(n),
        ) == Some(trim(unescape_or_empty(t))),
{
    let l = local_name(n);
    reveal_strlit("title");
    reveal_strlit("identifier");
    reveal_strlit("publisher");
    reveal_strlit("date");
    reveal_strlit("description");
    reveal_strlit("rights");
    reveal_strlit("metadata");
    reveal_strlit("spine");
    reveal_strlit("creator");
    reveal_strlit("language");
    assert("metadata"@.len() == 8 && "spine"@.len() == 5 && "title"@.len() == 5);
    assert("creator"@.len() == 7 && "language"@.len() == 8 && "identifier"@.len() == 10);
    assert("publisher"@.len() == 9 && "date"@.len() == 4 && "description"@.len() == 11);
    assert("rights"@.len() == 6);
    if l == "title"@ {
        assert(l[0] == 't' && "spine"@[0] == 's');
    }
    assert(l != "metadata"@ && l != "spine"@);
    assert(dc_field_spec(l) != DcField::NoField);
    let evs = pre + seq![XmlEventView::Start(n, attrs), XmlEventView::Text(t), XmlEventView::End(n)];
    assert(evs.drop_last().drop_last().drop_last() =~= pre);
    assert(evs.drop_last().drop_last().last() == XmlEventView::Start(n, attrs));
    assert(evs.drop_last().last() == XmlEventView::Text(t));
    assert(evs.last() == XmlEventView::End(n));
    let s1 = opf_run(evs.drop_last().drop_last(), opf_path);
    assert(s1.current == dc_field_spec(l) && s1.buf == Seq::<char>::empty() && s1.in_metadata);
    let s2 = opf_run(evs.drop_last(), opf_path);
    assert(s2.buf =~= unescape_or_empty(t));
    assert(s2.metadata == opf_run(pre, opf_path).metadata);
    assert(s2.in_metadata && s2.current == dc_field_spec(l));
    let v = trim(unescape_or_empty(t));
    let s3 = opf_run(evs, opf_path);
    assert(s3 == opf_step(s2, XmlEventView::End(n), opf_path));
    assert(s3.metadata == commit_dc_spec(s2.metadata, dc_field_spec(l), v));
    if l == "title"@ {
        assert(dc_field_spec(l) == DcField::Title);
    } else if l == "identifier"@ {
        assert(dc_field_spec(l) == DcField::Identifier);
    } else if l == "publisher"@ {
        assert(dc_field_spec(l) == DcField::Publisher);
    } else if l == "date"@ {
        assert(dc_field_spec(l) == DcField::Date);
    } else if l == "description"@ {
        assert(dc_field_spec(l) == DcField::Description);
    } else {
        assert(dc_field_spec(l) == DcField::Rights);
    }
}

/// Of the single-valued Dublin Core elements of one name, the first with
/// non-empty text gives the package's value, whatever follows it (another
/// element of the same name included).
pub proof fn lemma_first_dc_value_wins(
    evs: Seq<XmlEventView>,
    pre: Seq<XmlEventView>,
    n: Seq<char>,
    attrs: Seq<char>,
    t: Seq<char>,
    rest: Seq<XmlEventView>,
    opf_path: Seq<char>,
)
    requires
        !stops_on_error(evs),
        body_events(evs) == pre + seq![
            XmlEventView::Start(n, attrs),
            XmlEventView::Text(t),
            XmlEventView::End(n),
        ] + rest,
        opf_run(pre, opf_path).in_metadata,
        is_single_valued(local_name(n)),
        single_value(opf_run(pre, opf_path).metadata, local_name(n)) is None,
        trim(unescape_or_empty(t)).len() > 0,
    ensures
        opf_outcome(evs, opf_path) is Ok,
        single_value(opf_outcome(evs, opf_path)->Ok_0.metadata, local_name(n)) == Some(
            trim(unescape_or_empty(t)),
        ),
{
    let el = seq![XmlEventView::Start(n, attrs), XmlEventView::Text(t), XmlEventView::End(n)];
    let b = body_events(evs);
    lemma_dc_element_fills_field(pre, n, attrs, t, opf_path);
    let k: int = pre.len() as int + 3;
    assert(b.take(k) =~= pre + el);
    lemma_recorded_metadata_is_kept(b, k, opf_path);
    lemma_single_value_kept(
        opf_run(b.take(k), opf_path).metadata,
        opf_run(b, opf_path).metadata,
        local_name(n),
    );
}

/// Inside `<metadata>`, each `<dc:creator>` or `<dc:language>` element with
/// non-empty text adds its trimmed text at the end of the creators or
/// languages, after those already read.
pub proof fn lemma_dc_element_appends(
    pre: Seq<XmlEventView>,
    n: Seq<char>,
    attrs: Seq<char>,
    t: Seq<char>,
    opf_path: Seq<char>,
)
    requires
        opf_run(pre, opf_path).in_metadata,
        local_name(n) == "creator"@ || local_name(n) == "language"@,
        trim(unescape_or_empty(t)).len() > 0,
    ensures
        ({
            let before = opf_run(pre, opf_path).metadata;
            let after = opf_run(
                pre + seq![XmlEventView::Start(n, attrs), XmlEventView::Text(t), XmlEventView::End(n)],
                opf_path,
            ).metadata;
            let v = trim(unescape_or_empty(t));
            if local_name(n) == "creator"@ {
                after.creators == before.creators.push(v) && after.languages == before.languages
            } else {
                after.languages == before.languages.push(v) && after.creators == before.creators
            }
        }),
{
    let l = local_name(n);
    reveal_strlit("title");
    reveal_strlit("metadata");
    reveal_strlit("spine");
    reveal_strlit("creator");
    reveal_strlit("language");
    assert("metadata"@.len() == 8 && "spine"@.len() == 5 && "title"@.len() == 5);
    assert("creator"@.len() == 7 && "language"@.len() == 8);
    if l == "language"@ {
        assert(l[0] == 'l' && "metadata"@[0] == 'm');
    }
    assert(l != "metadata"@ && l != "spine"@);
    assert(dc_field_spec(l) != DcField::NoField);
    let evs = pre + seq![XmlEventView::Start(n, attrs), XmlEventView::Text(t), XmlEventView::End(n)];
    assert(evs.drop_last().drop_last().drop_last() =~= pre);
    assert(evs.drop_last().drop_last().last() == XmlEventView::Start(n, attrs));
    assert(evs.drop_last().last() == XmlEventView::Text(t));
    assert(evs.last() == XmlEventView::End(n));
    let s1 = opf_run(evs.drop_last().drop_last(), opf_path);
    assert(s1.current == dc_field_spec(l) && s1.buf == Seq::<char>::empty() && s1.in_metadata);
    let s2 = opf_run(evs.drop_last(), opf_path);
    assert(s2.buf =~= unescape_or_empty(t));
    assert(s2.metadata == opf_run(pre, opf_path).metadata);
    let v = trim(unescape_or_empty(t));
    let s3 = opf_run(evs, opf_path);
    assert(s3 == opf_step(s2, XmlEventView::End(n), opf_path));
    assert(s3.metadata == commit_dc_spec(s2.metadata, dc_field_spec(l), v));
}

/// A `<metadata>` start tag.
pub open spec fn opens_metadata(e: XmlEventView) -> bool {
    match e {
        XmlEventView::Start(n, _) => local_name(n) == "metadata"@,
        _ => false,
    }
}

/// Only the `<metadata>` block is read for Dublin Core values: outside it,
/// until another `<metadata>` starts, no event changes the metadata, whatever
/// elements (`dc:title` and the others included) it holds.
pub proof fn lemma_outside_metadata_ignored(
    a: Seq<XmlEventView>,
    b: Seq<XmlEventView>,
    opf_path: Seq<char>,
)
    requires
        !opf_run(a, opf_path).in_metadata,
        forall|i: int| 0 <= i < b.len() ==> !opens_metadata(#[trigger] b[i]),
    ensures
        opf_run(a + b, opf_path).metadata == opf_run(a, opf_path).metadata,
        !opf_run(a + b, opf_path).in_metadata,
    decreases b.len(),
{
    if b.len() == 0 {
        assert(a + b =~= a);
    } else {
        let d = b.drop_last();
        assert forall|i: int| 0 <= i < d.len() implies !opens_metadata(#[trigger] d[i]) by {
            assert(d[i] == b[i]);
        }
        lemma_outside_metadata_ignored(a, d, opf_path);
        assert((a + b).drop_last() =~= a + d);
        assert((a + b).last() == b[b.len() - 1]);
        assert(!opens_metadata(b[b.len() - 1]));
    }
}

} // verus!
