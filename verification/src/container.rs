//! Parser for `META-INF/container.xml`, which points at the OPF package document.

use vstd::prelude::*;

use crate::error::EpubError;
use crate::xml::{
    attr_value, attr_value_of, body_events, event_is_terminal, events_view, lemma_terminal_index,
    local_is, local_name, opt_view, stops_on_error, stream_events, tag_of, xml_event_stream,
    xml_events, XmlEvent, XmlEventView,
};

verus! {

/// Path inside an EPUB at which the container file always lives.
pub const CONTAINER_PATH: &'static str = "META-INF/container.xml";

/// What the container scan has found so far: the first rootfile's path and the
/// first rootfile with the OPF media type.
pub struct RootfileScan {
    pub first: Option<Seq<char>>,
    pub opf: Option<Seq<char>>,
}

/// One event of the container scan.
pub open spec fn container_step(st: RootfileScan, e: XmlEventView) -> RootfileScan {
    match tag_of(e) {
        Some((name, attrs)) => if local_name(name) == "rootfile"@ {
            match attr_value_of(attrs, "full-path"@) {
                Some(fp) => RootfileScan {
                    first: if st.first is Some {
                        st.first
                    } else {
                        Some(fp)
                    },
                    opf: if attr_value_of(attrs, "media-type"@) == Some(
                        "application/oebps-package+xml"@,
                    ) && st.opf is None {
                        Some(fp)
                    } else {
                        st.opf
                    },
                },
                None => st,
            }
        } else {
            st
        },
        None => st,
    }
}

/// The container scan over a run of events.
pub open spec fn container_scan(evs: Seq<XmlEventView>) -> RootfileScan
    decreases evs.len(),
{
    if evs.len() == 0 {
        RootfileScan { first: None, opf: None }
    } else {
        container_step(container_scan(evs.drop_last()), evs.last())
    }
}

/// The OPF path named by a container document's events: the first rootfile
/// with the OPF media type, else the first rootfile.
pub open spec fn container_outcome(evs: Seq<XmlEventView>) -> Result<Seq<char>, EpubError> {
    if stops_on_error(evs) {
        Err(EpubError::MalformedContainer)
    } else {
        let st = container_scan(body_events(evs));
        match st.opf {
            Some(p) => Ok(p),
            None => match st.first {
                Some(p) => Ok(p),
                None => Err(EpubError::NoRootfile),
            },
        }
    }
}

/// The view of a string result.
pub open spec fn string_result_view(r: Result<String, EpubError>) -> Result<Seq<char>, EpubError> {
    match r {
        Ok(s) => Ok(s@),
        Err(e) => Err(e),
    }
}

/// Parse `container.xml` and return the `full-path` of the first rootfile whose
/// media-type is the OPF package type (falling back to the first rootfile).
pub fn parse_container(xml: &str) -> (r: Result<String, EpubError>)
    ensures
        string_result_view(r) == container_outcome(
            stream_events(xml_event_stream(xml@, true, true)),
        ),
{
    let events = xml_events(xml, true, true);
    container_from_events(&events)
}

/// The OPF path named by a container document, given its events.
pub fn container_from_events(events: &Vec<XmlEvent>) -> (r: Result<String, EpubError>)
    ensures
        string_result_view(r) == container_outcome(events_view(events@)),
{
    let ghost evs = events_view(events@);
    let mut first: Option<String> = None;
    let mut opf: Option<String> = None;
    let mut i: usize = 0;
    while i < events.len() && !event_is_terminal(&events[i])
        invariant
            i <= events@.len(),
            evs == events_view(events@),
            forall|j: int| 0 <= j < i ==> !crate::xml::is_terminal(#[trigger] evs[j]),
            ({
                let st = container_scan(evs.take(i as int));
                opt_view(first) == st.first && opt_view(opf) == st.opf
            }),
        decreases events@.len() - i,
    {
        let e = &events[i];
        assert(evs.take(i + 1).drop_last() =~= evs.take(i as int));
        assert(evs[i as int] == e@);
        match e {
            XmlEvent::Start(name, attrs) => {
                scan_rootfile(name, attrs, &mut first, &mut opf);
            },
            XmlEvent::Empty(name, attrs) => {
                scan_rootfile(name, attrs, &mut first, &mut opf);
            },
            _ => {},
        }
        i = i + 1;
    }
    proof {
        lemma_terminal_index(evs, i as int);
    }
    let malformed = i < events.len() && match &events[i] {
        XmlEvent::Malformed => true,
        _ => false,
    };
    if malformed {
        return Err(EpubError::MalformedContainer);
    }
    match opf {
        Some(p) => Ok(p),
        None => match first {
            Some(p) => Ok(p),
            None => Err(EpubError::NoRootfile),
        },
    }
}

fn scan_rootfile(
    name: &String,
    attrs: &String,
    first: &mut Option<String>,
    opf: &mut Option<String>,
)
    ensures
        ({
            let st = container_step(
                RootfileScan { first: opt_view(*old(first)), opf: opt_view(*old(opf)) },
                XmlEventView::Start(name@, attrs@),
            );
            opt_view(*final(first)) == st.first && opt_view(*final(opf)) == st.opf
        }),
{
    if !local_is(name, "rootfile") {
        return ;
    }
    let full_path = attr_value(attrs.as_str(), "full-path");
    let media_type = attr_value(attrs.as_str(), "media-type");
    if let Some(fp) = full_path {
        if first.is_none() {
            *first = Some(fp.clone());
        }
        let is_opf = match &media_type {
            Some(m) => crate::chars::string_eq_str(m, "application/oebps-package+xml"),
            None => false,
        };
        if is_opf && opf.is_none() {
            *opf = Some(fp);
        }
    }
}

} // verus!

verus! {

// ---------------------------------------------------------------------------
// Which rootfile is chosen
// ---------------------------------------------------------------------------

/// A `<rootfile>` tag with a `full-path`.
pub open spec fn is_rootfile(e: XmlEventView) -> bool {
    tag_of(e) is Some && local_name(tag_of(e).unwrap().0) == "rootfile"@ && attr_value_of(
        tag_of(e).unwrap().1,
        "full-path"@,
    ) is Some
}

/// A `<rootfile>` tag with a `full-path` and the OPF media type.
pub open spec fn is_opf_rootfile(e: XmlEventView) -> bool {
    is_rootfile(e) && attr_value_of(tag_of(e).unwrap().1, "media-type"@) == Some(
        "application/oebps-package+xml"@,
    )
}

/// The `full-path` of a rootfile tag.
pub open spec fn full_path_of(e: XmlEventView) -> Seq<char> {
    attr_value_of(tag_of(e).unwrap().1, "full-path"@).unwrap()
}

proof fn lemma_scan_without_rootfiles(evs: Seq<XmlEventView>)
    ensures
        (forall|i: int| 0 <= i < evs.len() ==> !is_opf_rootfile(#[trigger] evs[i]))
            ==> container_scan(evs).opf is None,
        (forall|i: int| 0 <= i < evs.len() ==> !is_rootfile(#[trigger] evs[i]))
            ==> container_scan(evs).first is None,
    decreases evs.len(),
{
    if evs.len() > 0 {
        let d = evs.drop_last();
        lemma_scan_without_rootfiles(d);
        assert forall|i: int| 0 <= i < d.len() implies d[i] == evs[i] by {}
        assert(evs.last() == evs[evs.len() - 1]);
    }
}

proof fn lemma_scan_keeps_found(a: Seq<XmlEventView>, b: Seq<XmlEventView>)
    ensures
        container_scan(a).opf is Some ==> container_scan(a + b).opf == container_scan(a).opf,
        container_scan(a).first is Some ==> container_scan(a + b).first == container_scan(a).first,
    decreases b.len(),
{
    if b.len() == 0 {
        assert(a + b =~= a);
    } else {
        lemma_scan_keeps_found(a, b.drop_last());
        assert((a + b).drop_last() =~= a + b.drop_last());
    }
}

proof fn lemma_scan_finds(pre: Seq<XmlEventView>, e: XmlEventView, rest: Seq<XmlEventView>)
    requires
        is_rootfile(e),
    ensures
        container_scan(pre).first is None ==> container_scan(pre.push(e) + rest).first == Some(
            full_path_of(e),
        ),
        container_scan(pre).opf is None && is_opf_rootfile(e) ==> container_scan(
            pre.push(e) + rest,
        ).opf == Some(full_path_of(e)),
{
    assert(pre.push(e).drop_last() =~= pre);
    assert(pre.push(e).last() == e);
    lemma_scan_keeps_found(pre.push(e), rest);
}

/// The first rootfile with the OPF media type names the package document,
/// whatever rootfiles come before or after it.
pub proof fn lemma_first_opf_rootfile_chosen(
    evs: Seq<XmlEventView>,
    pre: Seq<XmlEventView>,
    e: XmlEventView,
    rest: Seq<XmlEventView>,
)
    requires
        !stops_on_error(evs),
        body_events(evs) == pre.push(e) + rest,
        is_opf_rootfile(e),
        forall|i: int| 0 <= i < pre.len() ==> !is_opf_rootfile(#[trigger] pre[i]),
    ensures
        container_outcome(evs) == Ok::<Seq<char>, EpubError>(full_path_of(e)),
{
    lemma_scan_without_rootfiles(pre);
    lemma_scan_finds(pre, e, rest);
}

/// Without a rootfile of the OPF media type, the first rootfile with a
/// `full-path` names the package document.
pub proof fn lemma_first_rootfile_fallback(
    evs: Seq<XmlEventView>,
    pre: Seq<XmlEventView>,
    e: XmlEventView,
    rest: Seq<XmlEventView>,
)
    requires
        !stops_on_error(evs),
        body_events(evs) == pre.push(e) + rest,
        is_rootfile(e),
        forall|i: int| 0 <= i < pre.len() ==> !is_rootfile(#[trigger] pre[i]),
        forall|i: int|
            0 <= i < body_events(evs).len() ==> !is_opf_rootfile(#[trigger] body_events(evs)[i]),
    ensures
        container_outcome(evs) == Ok::<Seq<char>, EpubError>(full_path_of(e)),
{
    lemma_scan_without_rootfiles(pre);
    lemma_scan_without_rootfiles(body_events(evs));
    lemma_scan_finds(pre, e, rest);
}

} // verus!
