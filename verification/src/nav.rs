//! Parsers for the two EPUB table-of-contents formats:
//! - EPUB 3 navigation document (XHTML `<nav epub:type="toc">` with nested `<ol>`)
//! - EPUB 2 NCX (`<navMap>` of `<navPoint>`)

use vstd::prelude::*;

use crate::chars::{chars_of, string_of};
use crate::model::{contains_token, has_token, toc_view, TocEntry, TocEntryView};
use crate::text::{push_text_spec, strip_trailing_spaces};
use crate::xml::{
    attr_value, attr_value_of, body_events, event_is_terminal, events_view,
    lemma_terminal_index, local_is, local_name, opt_view, stream_events, unescape_or_default,
    unescape_or_empty, xml_event_stream, xml_events, XmlEvent, XmlEventView,
};

verus! {

// ---------------------------------------------------------------------------
// Shared helpers
// ---------------------------------------------------------------------------

/// Whitespace runs become single spaces and surrounding whitespace vanishes
/// (`split_whitespace().collect::<Vec<_>>().join(" ")`).
pub open spec fn collapse_ws_spec(s: Seq<char>) -> Seq<char> {
    strip_trailing_spaces(push_text_spec(Seq::empty(), s))
}

/// Does attribute `key` of a tag hold the whitespace-separated token `needle`?
pub open spec fn attr_has_token(attrs: Seq<char>, key: Seq<char>, needle: Seq<char>) -> bool {
    match attr_value_of(attrs, key) {
        Some(v) => has_token(v, needle),
        None => false,
    }
}

fn collapse_ws(s: &Vec<char>) -> (r: String)
    ensures
        r@ == collapse_ws_spec(s@),
{
    let mut out: Vec<char> = Vec::new();
    let st = string_of(s.as_slice());
    crate::text::push_text(&mut out, st.as_str());
    while out.len() > 0 && out[out.len() - 1] == ' '
        invariant
            strip_trailing_spaces(out@) == collapse_ws_spec(s@),
        decreases out@.len(),
    {
        out.pop();
    }
    string_of(out.as_slice())
}

fn attr_contains(attrs: &String, key: &str, needle: &str) -> (r: bool)
    ensures
        r == attr_has_token(attrs@, key@, needle@),
{
    match attr_value(attrs.as_str(), key) {
        Some(v) => {
            let vv = chars_of(v.as_str());
            contains_token(vv.as_slice(), needle)
        },
        None => false,
    }
}

fn opt_string_or_empty(o: Option<String>) -> (r: String)
    ensures
        r@ == match opt_view(o) {
            Some(v) => v,
            None => Seq::empty(),
        },
{
    match o {
        Some(s) => s,
        None => String::new(),
    }
}

// ---------------------------------------------------------------------------
// EPUB 3 navigation document
// ---------------------------------------------------------------------------

/// State of the navigation-document scan.
pub struct NavState {
    pub in_target_nav: bool,
    pub saw_target_nav: bool,
    pub ol_depth: nat,
    pub href: Option<Seq<char>>,
    pub label: Seq<char>,
    pub in_anchor: bool,
    pub entries: Seq<TocEntryView>,
}

/// Does a `<nav>` start tag declare the table of contents?
pub open spec fn nav_is_toc(attrs: Seq<char>) -> bool {
    attr_has_token(attrs, "epub:type"@, "toc"@) || attr_has_token(attrs, "type"@, "toc"@)
        || attr_has_token(attrs, "role"@, "doc-toc"@)
}

/// One event of the navigation-document scan. With `prefer_toc`, only a nav
/// declared as the table of contents is read; otherwise the first nav is read
/// when none is so declared.
pub open spec fn nav_step(st: NavState, e: XmlEventView, prefer_toc: bool) -> NavState {
    match e {
        XmlEventView::Start(n, attrs) => {
            let l = local_name(n);
            if l == "nav"@ {
                if nav_is_toc(attrs) {
                    NavState { in_target_nav: true, saw_target_nav: true, ..st }
                } else if !prefer_toc && !st.saw_target_nav {
                    NavState { in_target_nav: true, ..st }
                } else {
                    st
                }
            } else if l == "ol"@ && st.in_target_nav {
                NavState { ol_depth: st.ol_depth + 1, ..st }
            } else if l == "a"@ && st.in_target_nav {
                NavState {
                    in_anchor: true,
                    label: Seq::empty(),
                    href: attr_value_of(attrs, "href"@),
                    ..st
                }
            } else if l == "span"@ && st.in_target_nav {
                NavState { in_anchor: true, label: Seq::empty(), ..st }
            } else {
                st
            }
        },
        XmlEventView::Text(t) => if st.in_anchor {
            NavState { label: st.label + unescape_or_empty(t), ..st }
        } else {
            st
        },
        XmlEventView::End(n) => {
            let l = local_name(n);
            if (l == "a"@ || l == "span"@) && st.in_anchor {
                let label = collapse_ws_spec(st.label);
                NavState {
                    entries: if label.len() > 0 {
                        st.entries.push(
                            TocEntryView {
                                label,
                                href: match st.href {
                                    Some(h) => h,
                                    None => Seq::empty(),
                                },
                                depth: if st.ol_depth > 0 {
                                    (st.ol_depth - 1) as nat
                                } else {
                                    0
                                },
                            },
                        )
                    } else {
                        st.entries
                    },
                    in_anchor: false,
                    href: None,
                    ..st
                }
            } else if l == "ol"@ && st.in_target_nav {
                NavState {
                    ol_depth: if st.ol_depth > 0 {
                        (st.ol_depth - 1) as nat
                    } else {
                        0
                    },
                    ..st
                }
            } else if l == "nav"@ && st.in_target_nav {
                NavState { in_target_nav: false, ..st }
            } else {
                st
            }
        },
        _ => st,
    }
}

/// The navigation-document scan over a run of events.
pub open spec fn nav_run(evs: Seq<XmlEventView>, prefer_toc: bool) -> NavState
    decreases evs.len(),
{
    if evs.len() == 0 {
        NavState {
            in_target_nav: false,
            saw_target_nav: false,
            ol_depth: 0,
            href: None,
            label: Seq::empty(),
            in_anchor: false,
            entries: Seq::empty(),
        }
    } else {
        nav_step(nav_run(evs.drop_last(), prefer_toc), evs.last(), prefer_toc)
    }
}

/// The table of contents of a navigation document's events.
pub open spec fn nav_entries(evs: Seq<XmlEventView>, prefer_toc: bool) -> Seq<TocEntryView> {
    nav_run(body_events(evs), prefer_toc).entries
}

/// Does `s` contain `p` as a contiguous substring?
pub open spec fn contains_substring(s: Seq<char>, p: Seq<char>) -> bool {
    exists|i: int| crate::chars::matches_at(s, i, p)
}

/// Does the document mention both `epub:type` and `toc`? Then only a nav
/// declared as the table of contents is read.
pub open spec fn prefers_toc(doc: Seq<char>) -> bool {
    contains_substring(doc, "epub:type"@) && contains_substring(doc, "toc"@)
}

fn has_substring(s: &[char], p: &str) -> (r: bool)
    ensures
        r == contains_substring(s@, p@),
{
    let pv = chars_of(p);
    let mut i: usize = 0;
    while i <= s.len()
        invariant
            i <= s@.len() + 1,
            pv@ == p@,
            forall|j: int| 0 <= j < i ==> !crate::chars::matches_at(s@, j, p@),
        decreases s@.len() + 1 - i,
    {
        if crate::chars::chars_match_at(s, i, pv.as_slice()) {
            return true;
        }
        if i == s.len() {
            assert forall|j: int| !crate::chars::matches_at(s@, j, p@) by {
                if !(0 <= j <= s@.len()) {
                }
            }
            return false;
        }
        i = i + 1;
    }
    false
}

/// Parse an EPUB 3 navigation document and return the entries of the `toc` nav.
///
/// Looks for `<nav ... epub:type="toc">` (or, failing that, the first `<nav>`),
/// then walks its nested `<ol>/<li>/<a>` structure. `<a href>` supplies the
/// link, the anchor text supplies the label, and `<ol>` nesting supplies depth.
pub fn parse_nav_xhtml(xml: &str) -> (r: Vec<TocEntry>)
    ensures
        toc_view(r@) == nav_entries(
            stream_events(xml_event_stream(xml@, false, false)),
            prefers_toc(xml@),
        ),
{
    let doc = chars_of(xml);
    let prefer_toc = has_substring(doc.as_slice(), "epub:type") && has_substring(
        doc.as_slice(),
        "toc",
    );
    let events = xml_events(xml, false, false);
    nav_from_events(&events, prefer_toc)
}

/// The table of contents of a navigation document, given its events.
pub fn nav_from_events(events: &Vec<XmlEvent>, prefer_toc: bool) -> (r: Vec<TocEntry>)
    ensures
        toc_view(r@) == nav_entries(events_view(events@), prefer_toc),
{
    let ghost evs = events_view(events@);
    let mut entries: Vec<TocEntry> = Vec::new();
    let mut in_target_nav = false;
    let mut saw_target_nav = false;
    let mut ol_depth: usize = 0;
    let mut current_href: Option<String> = None;
    let mut label_buf: Vec<char> = Vec::new();
    let mut in_anchor = false;
    let mut i: usize = 0;
    assert(evs.take(0) =~= Seq::<XmlEventView>::empty());
    assert(toc_view(entries@) =~= Seq::<TocEntryView>::empty());
    while i < events.len() && !event_is_terminal(&events[i])
        invariant
            i <= events@.len(),
            evs == events_view(events@),
            forall|j: int| 0 <= j < i ==> !crate::xml::is_terminal(#[trigger] evs[j]),
            ol_depth <= i,
            nav_run(evs.take(i as int), prefer_toc) == (NavState {
                in_target_nav,
                saw_target_nav,
                ol_depth: ol_depth as nat,
                href: opt_view(current_href),
                label: label_buf@,
                in_anchor,
                entries: toc_view(entries@),
            }),
        decreases events@.len() - i,
    {
        let e = &events[i];
        assert(evs.take(i + 1).drop_last() =~= evs.take(i as int));
        assert(evs[i as int] == e@);
        let ghost entries0 = entries@;
        match e {
            XmlEvent::Start(name, attrs) => {
                if local_is(name, "nav") {
                    let is_toc = attr_contains(attrs, "epub:type", "toc") || attr_contains(
                        attrs,
                        "type",
                        "toc",
                    ) || attr_contains(attrs, "role", "doc-toc");
                    if is_toc {
                        in_target_nav = true;
                        saw_target_nav = true;
                    } else if !prefer_toc && !saw_target_nav {
                        // Fall back to first nav only when no toc nav exists.
                        in_target_nav = true;
                    }
                } else if local_is(name, "ol") && in_target_nav {
                    ol_depth = ol_depth + 1;
                } else if local_is(name, "a") && in_target_nav {
                    in_anchor = true;
                    label_buf = Vec::new();
                    current_href = attr_value(attrs.as_str(), "href");
                } else if local_is(name, "span") && in_target_nav {
                    // Some nav files use <span> for unlinked headings.
                    in_anchor = true;
                    label_buf = Vec::new();
                }
            },
            XmlEvent::Text(t) => {
                if in_anchor {
                    let decoded = unescape_or_default(t.as_str());
                    crate::chars::extend_str(&mut label_buf, decoded.as_str());
                }
            },
            XmlEvent::End(name) => {
                let is_a = local_is(name, "a");
                let is_span = local_is(name, "span");
                if (is_a || is_span) && in_anchor {
                    let label = collapse_ws(&label_buf);
                    let href = opt_string_or_empty(current_href);
                    current_href = None;
                    if !label.as_str().is_empty() {
                        let depth = if ol_depth > 0 {
                            ol_depth - 1
                        } else {
                            0
                        };
                        entries.push(TocEntry { label, href, depth });
                        assert(toc_view(entries@) =~= toc_view(entries0).push(
                            entries@.last()@,
                        ));
                    }
                    in_anchor = false;
                } else if local_is(name, "ol") && in_target_nav {
                    if ol_depth > 0 {
                        ol_depth = ol_depth - 1;
                    }
                } else if local_is(name, "nav") && in_target_nav {
                    in_target_nav = false;
                }
            },
            _ => {},
        }
        i = i + 1;
    }
    proof {
        lemma_terminal_index(evs, i as int);
    }
    entries
}

// ---------------------------------------------------------------------------
// EPUB 2 NCX
// ---------------------------------------------------------------------------

/// State of the NCX scan.
pub struct NcxState {
    pub in_nav_map: bool,
    /// `navPoint` nesting depth; -1 outside any navPoint.
    pub depth: int,
    pub in_text: bool,
    pub text: Seq<char>,
    pub label: Option<Seq<char>>,
    pub href: Option<Seq<char>>,
    pub pending_depth: nat,
    pub have_pending: bool,
    pub entries: Seq<TocEntryView>,
}

/// Emits the pending navPoint, if it has a non-empty label.
pub open spec fn ncx_flush(st: NcxState) -> NcxState {
    if st.have_pending {
        NcxState {
            entries: match st.label {
                Some(l) => if l.len() > 0 {
                    st.entries.push(
                        TocEntryView {
                            label: l,
                            href: match st.href {
                                Some(h) => h,
                                None => Seq::empty(),
                            },
                            depth: st.pending_depth,
                        },
                    )
                } else {
                    st.entries
                },
                None => st.entries,
            },
            label: None,
            have_pending: false,
            href: None,
            ..st
        }
    } else {
        st
    }
}

/// One event of the NCX scan.
pub open spec fn ncx_step(st: NcxState, e: XmlEventView) -> NcxState {
    match e {
        XmlEventView::Start(n, _) => {
            let l = local_name(n);
            if l == "navMap"@ {
                NcxState { in_nav_map: true, ..st }
            } else if l == "navPoint"@ && st.in_nav_map {
                let f = ncx_flush(st);
                NcxState {
                    depth: f.depth + 1,
                    pending_depth: if f.depth + 1 > 0 {
                        (f.depth + 1) as nat
                    } else {
                        0
                    },
                    have_pending: true,
                    label: None,
                    href: None,
                    ..f
                }
            } else if l == "text"@ && st.in_nav_map {
                NcxState { in_text: true, text: Seq::empty(), ..st }
            } else {
                st
            }
        },
        XmlEventView::Empty(n, attrs) => if local_name(n) == "content"@ && st.in_nav_map
            && st.have_pending {
            NcxState { href: attr_value_of(attrs, "src"@), ..st }
        } else {
            st
        },
        XmlEventView::Text(t) => if st.in_text {
            NcxState { text: st.text + unescape_or_empty(t), ..st }
        } else {
            st
        },
        XmlEventView::End(n) => {
            let l = local_name(n);
            if l == "text"@ && st.in_text {
                NcxState {
                    label: if st.have_pending && st.label is None {
                        Some(collapse_ws_spec(st.text))
                    } else {
                        st.label
                    },
                    in_text: false,
                    ..st
                }
            } else if l == "navPoint"@ && st.in_nav_map {
                let f = ncx_flush(st);
                NcxState { depth: f.depth - 1, ..f }
            } else if l == "navMap"@ {
                NcxState { in_nav_map: false, ..st }
            } else {
                st
            }
        },
        _ => st,
    }
}

/// The NCX scan over a run of events.
pub open spec fn ncx_run(evs: Seq<XmlEventView>) -> NcxState
    decreases evs.len(),
{
    if evs.len() == 0 {
        NcxState {
            in_nav_map: false,
            depth: -1,
            in_text: false,
            text: Seq::empty(),
            label: None,
            href: None,
            pending_depth: 0,
            have_pending: false,
            entries: Seq::empty(),
        }
    } else {
        ncx_step(ncx_run(evs.drop_last()), evs.last())
    }
}

/// The table of contents of an NCX document's events.
pub open spec fn ncx_entries(evs: Seq<XmlEventView>) -> Seq<TocEntryView> {
    ncx_run(body_events(evs)).entries
}

/// Parse an EPUB 2 NCX document's `<navMap>` into TOC entries.
///
/// Each `<navPoint>` contributes one entry: its `<navLabel><text>` is the label
/// and its `<content src>` is the href. `<navPoint>` nesting gives depth.
pub fn parse_ncx(xml: &str) -> (r: Vec<TocEntry>)
    ensures
        toc_view(r@) == ncx_entries(stream_events(xml_event_stream(xml@, false, false))),
{
    let events = xml_events(xml, false, false);
    ncx_from_events(&events)
}

/// The NCX state held in executable variables.
struct NcxVars {
    entries: Vec<TocEntry>,
    label: Option<String>,
    href: Option<String>,
    pending_depth: usize,
    have_pending: bool,
}

impl NcxVars {
    spec fn matches(&self, st: NcxState) -> bool {
        &&& toc_view(self.entries@) == st.entries
        &&& opt_view(self.label) == st.label
        &&& opt_view(self.href) == st.href
        &&& self.pending_depth == st.pending_depth
        &&& self.have_pending == st.have_pending
    }

    /// Emit the pending navPoint as an entry, if it has a non-empty label.
    fn flush_pending(&mut self, Ghost(st): Ghost<NcxState>)
        requires
            old(self).matches(st),
        ensures
            final(self).matches(ncx_flush(st)),
    {
        if self.have_pending {
            let ghost entries0 = self.entries@;
            let label = self.label.take();
            if let Some(l) = label {
                if !l.as_str().is_empty() {
                    let href = opt_string_or_empty(self.href.take());
                    self.entries.push(TocEntry { label: l, href, depth: self.pending_depth });
                    assert(toc_view(self.entries@) =~= toc_view(entries0).push(
                        self.entries@.last()@,
                    ));
                }
            }
            self.have_pending = false;
            self.href = None;
        }
    }
}

/// The table of contents of an NCX document, given its events.
pub fn ncx_from_events(events: &Vec<XmlEvent>) -> (r: Vec<TocEntry>)
    ensures
        toc_view(r@) == ncx_entries(events_view(events@)),
{
    let ghost evs = events_view(events@);
    let mut v = NcxVars {
        entries: Vec::new(),
        label: None,
        href: None,
        pending_depth: 0,
        have_pending: false,
    };
    let mut in_nav_map = false;
    let mut depth: i128 = -1;
    let mut in_text = false;
    let mut text_buf: Vec<char> = Vec::new();
    let mut i: usize = 0;
    assert(evs.take(0) =~= Seq::<XmlEventView>::empty());
    assert(toc_view(v.entries@) =~= Seq::<TocEntryView>::empty());
    while i < events.len() && !event_is_terminal(&events[i])
        invariant
            i <= events@.len(),
            evs == events_view(events@),
            forall|j: int| 0 <= j < i ==> !crate::xml::is_terminal(#[trigger] evs[j]),
            -1 - i <= depth <= i,
            ({
                let st = ncx_run(evs.take(i as int));
                &&& v.matches(st)
                &&& st.in_nav_map == in_nav_map
                &&& st.depth == depth
                &&& st.in_text == in_text
                &&& st.text == text_buf@
            }),
        decreases events@.len() - i,
    {
        let e = &events[i];
        let ghost st = ncx_run(evs.take(i as int));
        assert(evs.take(i + 1).drop_last() =~= evs.take(i as int));
        assert(evs[i as int] == e@);
        match e {
            XmlEvent::Start(name, _) => {
                if local_is(name, "navMap") {
                    in_nav_map = true;
                } else if local_is(name, "navPoint") && in_nav_map {
                    // Flush any previous pending navPoint before descending.
                    v.flush_pending(Ghost(st));
                    depth = depth + 1;
                    v.pending_depth = if depth > 0 {
                        depth as usize
                    } else {
                        0
                    };
                    v.have_pending = true;
                    v.label = None;
                    v.href = None;
                } else if local_is(name, "text") && in_nav_map {
                    in_text = true;
                    text_buf = Vec::new();
                }
            },
            XmlEvent::Empty(name, attrs) => {
                if local_is(name, "content") && in_nav_map && v.have_pending {
                    v.href = attr_value(attrs.as_str(), "src");
                }
            },
            XmlEvent::Text(t) => {
                if in_text {
                    let decoded = unescape_or_default(t.as_str());
                    crate::chars::extend_str(&mut text_buf, decoded.as_str());
                }
            },
            XmlEvent::End(name) => {
                if local_is(name, "text") && in_text {
                    if v.have_pending && v.label.is_none() {
                        v.label = Some(collapse_ws(&text_buf));
                    }
                    in_text = false;
                } else if local_is(name, "navPoint") && in_nav_map {
                    v.flush_pending(Ghost(st));
                    depth = depth - 1;
                } else if local_is(name, "navMap") {
                    in_nav_map = false;
                }
            },
            _ => {},
        }
        i = i + 1;
    }
    proof {
        lemma_terminal_index(evs, i as int);
    }
    v.entries
}

} // verus!

verus! {

// ---------------------------------------------------------------------------
// Only the table-of-contents nav is read
// ---------------------------------------------------------------------------

/// A `<nav>` start tag that declares the table of contents.
pub open spec fn is_toc_nav_start(e: XmlEventView) -> bool {
    match e {
        XmlEventView::Start(n, attrs) => local_name(n) == "nav"@ && nav_is_toc(attrs),
        _ => false,
    }
}

/// The table-of-contents nav has been read and closed, with no link open.
pub open spec fn toc_nav_done(st: NavState) -> bool {
    st.saw_target_nav && !st.in_target_nav && !st.in_anchor
}

proof fn lemma_nav_after_toc(a: Seq<XmlEventView>, b: Seq<XmlEventView>, prefer_toc: bool)
    requires
        nav_run(a, prefer_toc).saw_target_nav || prefer_toc,
        !nav_run(a, prefer_toc).in_target_nav,
        !nav_run(a, prefer_toc).in_anchor,
        forall|i: int| 0 <= i < b.len() ==> !is_toc_nav_start(#[trigger] b[i]),
    ensures
        nav_run(a + b, prefer_toc) == nav_run(a, prefer_toc),
    decreases b.len(),
{
    if b.len() == 0 {
        assert(a + b =~= a);
    } else {
        let d = b.drop_last();
        assert forall|i: int| 0 <= i < d.len() implies !is_toc_nav_start(#[trigger] d[i]) by {
            assert(d[i] == b[i]);
        }
        lemma_nav_after_toc(a, d, prefer_toc);
        assert((a + b).drop_last() =~= a + d);
        assert((a + b).last() == b[b.len() - 1]);
        assert(!is_toc_nav_start(b[b.len() - 1]));
        lemma_nav_literals();
    }
}

/// Closing the table-of-contents nav ends the table of contents: once the
/// `</nav>` of the toc nav has been read (with no link left open), nothing that
/// follows adds an entry, as long as no second toc nav starts; links in later
/// navs (landmarks, page lists) are not read.
pub proof fn lemma_toc_nav_close_ends_entries(
    a: Seq<XmlEventView>,
    n: Seq<char>,
    b: Seq<XmlEventView>,
    prefer_toc: bool,
)
    requires
        local_name(n) == "nav"@,
        nav_run(a, prefer_toc).in_target_nav,
        nav_run(a, prefer_toc).saw_target_nav,
        !nav_run(a, prefer_toc).in_anchor,
        forall|i: int| 0 <= i < b.len() ==> !is_toc_nav_start(#[trigger] b[i]),
    ensures
        nav_run(a.push(XmlEventView::End(n)) + b, prefer_toc).entries == nav_run(
            a,
            prefer_toc,
        ).entries,
{
    let a1 = a.push(XmlEventView::End(n));
    assert(a1.drop_last() =~= a);
    lemma_nav_literals();
    assert(toc_nav_done(nav_run(a1, prefer_toc)));
    lemma_nav_after_toc(a1, b, prefer_toc);
}

/// Where the document declares a table-of-contents nav, the navs that are
/// not it (landmarks, page lists) are never read: outside the toc nav, and
/// with no link open, events up to the next toc nav start add no entry.
pub proof fn lemma_non_toc_navs_skipped(a: Seq<XmlEventView>, b: Seq<XmlEventView>)
    requires
        !nav_run(a, true).in_target_nav,
        !nav_run(a, true).in_anchor,
        forall|i: int| 0 <= i < b.len() ==> !is_toc_nav_start(#[trigger] b[i]),
    ensures
        nav_run(a + b, true).entries == nav_run(a, true).entries,
{
    lemma_nav_after_toc(a, b, true);
}

/// A document whose toc nav is followed by more markup (other navs and their
/// links included, but no second toc nav) has the same table of contents as
/// the document that stops at the toc nav's `</nav>`.
pub proof fn lemma_later_navs_not_read(
    evs1: Seq<XmlEventView>,
    evs2: Seq<XmlEventView>,
    a: Seq<XmlEventView>,
    n: Seq<char>,
    b: Seq<XmlEventView>,
    prefer_toc: bool,
)
    requires
        body_events(evs1) == a.push(XmlEventView::End(n)),
        body_events(evs2) == a.push(XmlEventView::End(n)) + b,
        local_name(n) == "nav"@,
        nav_run(a, prefer_toc).in_target_nav,
        nav_run(a, prefer_toc).saw_target_nav,
        !nav_run(a, prefer_toc).in_anchor,
        forall|i: int| 0 <= i < b.len() ==> !is_toc_nav_start(#[trigger] b[i]),
    ensures
        nav_entries(evs2, prefer_toc) == nav_entries(evs1, prefer_toc),
{
    lemma_toc_nav_close_ends_entries(a, n, b, prefer_toc);
    lemma_toc_nav_close_ends_entries(a, n, Seq::empty(), prefer_toc);
    assert(a.push(XmlEventView::End(n)) + Seq::<XmlEventView>::empty() =~= a.push(
        XmlEventView::End(n),
    ));
}

} // verus!

verus! {

// ---------------------------------------------------------------------------
// List nesting gives depth
// ---------------------------------------------------------------------------

/// An `<ol>` start tag.
pub open spec fn opens_list(e: XmlEventView) -> bool {
    match e {
        XmlEventView::Start(n, _) => local_name(n) == "ol"@,
        _ => false,
    }
}

proof fn lemma_nav_literals()
    ensures
        "nav"@.len() == 3,
        "ol"@.len() == 2,
        "a"@.len() == 1,
        "span"@.len() == 4,
{
    reveal_strlit("nav");
    reveal_strlit("ol");
    reveal_strlit("a");
    reveal_strlit("span");
}

proof fn lemma_nav_opens(a: Seq<XmlEventView>, opens: Seq<XmlEventView>, prefer_toc: bool)
    requires
        nav_run(a, prefer_toc).in_target_nav,
        !nav_run(a, prefer_toc).in_anchor,
        forall|i: int| 0 <= i < opens.len() ==> opens_list(#[trigger] opens[i]),
    ensures
        nav_run(a + opens, prefer_toc) == (NavState {
            ol_depth: nav_run(a, prefer_toc).ol_depth + opens.len(),
            ..nav_run(a, prefer_toc)
        }),
    decreases opens.len(),
{
    lemma_nav_literals();
    if opens.len() == 0 {
        assert(a + opens =~= a);
    } else {
        let d = opens.drop_last();
        assert forall|i: int| 0 <= i < d.len() implies opens_list(#[trigger] d[i]) by {
            assert(d[i] == opens[i]);
        }
        lemma_nav_opens(a, d, prefer_toc);
        assert((a + opens).drop_last() =~= a + d);
        assert((a + opens).last() == opens[opens.len() - 1]);
        assert(opens_list(opens[opens.len() - 1]));
    }
}

/// A link inside `k` nested lists of the table-of-contents nav (or, where the
/// document does not declare one, of the first nav) is an entry of depth
/// `k - 1`: the outermost list is depth zero, each list inside it one deeper.
pub proof fn lemma_link_depth_is_list_nesting(
    evs: Seq<XmlEventView>,
    nav: Seq<char>,
    t: Seq<char>,
    opens: Seq<XmlEventView>,
    an: Seq<char>,
    h: Seq<char>,
    l: Seq<char>,
    an2: Seq<char>,
    prefer_toc: bool,
)
    requires
        local_name(nav) == "nav"@,
        nav_is_toc(t) || !prefer_toc,
        opens.len() >= 1,
        forall|i: int| 0 <= i < opens.len() ==> opens_list(#[trigger] opens[i]),
        local_name(an) == "a"@,
        local_name(an2) == "a"@,
        collapse_ws_spec(unescape_or_empty(l)).len() > 0,
        body_events(evs) == seq![XmlEventView::Start(nav, t)] + opens + seq![
            XmlEventView::Start(an, h),
            XmlEventView::Text(l),
            XmlEventView::End(an2),
        ],
    ensures
        nav_entries(evs, prefer_toc) == seq![
            TocEntryView {
                label: collapse_ws_spec(unescape_or_empty(l)),
                href: match attr_value_of(h, "href"@) {
                    Some(v) => v,
                    None => Seq::empty(),
                },
                depth: (opens.len() - 1) as nat,
            },
        ],
{
    lemma_nav_literals();
    let a0 = seq![XmlEventView::Start(nav, t)];
    assert(a0.drop_last() =~= Seq::<XmlEventView>::empty());
    assert(a0.last() == XmlEventView::Start(nav, t));
    let st0 = nav_run(a0, prefer_toc);
    assert(nav_run(a0.drop_last(), prefer_toc) == nav_run(Seq::<XmlEventView>::empty(), prefer_toc));
    assert(st0 == nav_step(nav_run(Seq::<XmlEventView>::empty(), prefer_toc), XmlEventView::Start(nav, t), prefer_toc));
    assert(st0.in_target_nav && !st0.in_anchor && st0.ol_depth == 0 && st0.entries
        == Seq::<TocEntryView>::empty());
    lemma_nav_opens(a0, opens, prefer_toc);
    let a1 = a0 + opens;
    let b = body_events(evs);
    assert(b.drop_last().drop_last().drop_last() =~= a1);
    assert(b.drop_last().drop_last().last() == XmlEventView::Start(an, h));
    assert(b.drop_last().last() == XmlEventView::Text(l));
    assert(b.last() == XmlEventView::End(an2));
    let s2 = nav_run(b.drop_last().drop_last(), prefer_toc);
    assert(s2.in_anchor && s2.label == Seq::<char>::empty());
    let s3 = nav_run(b.drop_last(), prefer_toc);
    assert(s3.label =~= unescape_or_empty(l));
    assert(nav_run(b, prefer_toc).entries =~= seq![
        TocEntryView {
            label: collapse_ws_spec(unescape_or_empty(l)),
            href: match attr_value_of(h, "href"@) {
                Some(v) => v,
                None => Seq::empty(),
            },
            depth: (opens.len() - 1) as nat,
        },
    ]);
}

} // verus!

verus! {

// ---------------------------------------------------------------------------
// Sibling navPoints share depth zero
// ---------------------------------------------------------------------------

/// A `<navMap>` start tag.
pub open spec fn opens_nav_map(e: XmlEventView) -> bool {
    match e {
        XmlEventView::Start(n, _) => local_name(n) == "navMap"@,
        _ => false,
    }
}

/// A `<navPoint>` start tag.
pub open spec fn opens_nav_point(e: XmlEventView) -> bool {
    match e {
        XmlEventView::Start(n, _) => local_name(n) == "navPoint"@,
        _ => false,
    }
}

/// A `</navPoint>` end tag.
pub open spec fn closes_nav_point(e: XmlEventView) -> bool {
    match e {
        XmlEventView::End(n) => local_name(n) == "navPoint"@,
        _ => false,
    }
}

/// A `</navMap>` end tag.
pub open spec fn closes_nav_map(e: XmlEventView) -> bool {
    match e {
        XmlEventView::End(n) => local_name(n) == "navMap"@,
        _ => false,
    }
}

/// A navPoint with no navPoint inside it: `<navPoint>`, then events that open
/// or close no navPoint or navMap, then `</navPoint>`.
pub open spec fn leaf_nav_point(b: Seq<XmlEventView>) -> bool {
    &&& b.len() >= 2
    &&& opens_nav_point(b[0])
    &&& closes_nav_point(b[b.len() - 1])
    &&& forall|i: int|
        1 <= i < b.len() - 1 ==> !opens_nav_point(#[trigger] b[i]) && !closes_nav_point(b[i])
            && !opens_nav_map(b[i]) && !closes_nav_map(b[i])
}

/// The events of several blocks, one after another.
pub open spec fn concat_blocks(bs: Seq<Seq<XmlEventView>>) -> Seq<XmlEventView>
    decreases bs.len(),
{
    if bs.len() == 0 {
        Seq::empty()
    } else {
        concat_blocks(bs.drop_last()) + bs.last()
    }
}

/// Every entry sits at depth zero.
pub open spec fn all_top_level(es: Seq<TocEntryView>) -> bool {
    forall|i: int| 0 <= i < es.len() ==> (#[trigger] es[i]).depth == 0
}

/// `new` keeps the entries of `old` and adds only entries of depth `d`.
pub open spec fn adds_at_depth(old: Seq<TocEntryView>, new: Seq<TocEntryView>, d: int) -> bool {
    &&& old.len() <= new.len()
    &&& forall|i: int| 0 <= i < old.len() ==> new[i] == #[trigger] old[i]
    &&& forall|i: int| old.len() <= i < new.len() ==> (#[trigger] new[i]).depth == d
}

/// `new` keeps the entries of `old` and adds a navPoint's entries: its own,
/// first, at depth `d`, then those of its children at depth `d + 1`.
pub open spec fn adds_parent_then_children(
    old: Seq<TocEntryView>,
    new: Seq<TocEntryView>,
    d: int,
) -> bool {
    &&& old.len() <= new.len()
    &&& forall|i: int| 0 <= i < old.len() ==> new[i] == #[trigger] old[i]
    &&& forall|i: int|
        old.len() <= i < new.len() ==> (#[trigger] new[i]).depth == d + 1 || (i == old.len()
            && new[i].depth == d)
}

/// Between navPoints at nesting level `d` (`d` navPoints open).
spec fn between_points(st: NcxState, d: int) -> bool {
    st.in_nav_map && st.depth == d - 1 && !st.have_pending
}

/// Inside the head of a navPoint at nesting level `d`.
spec fn inside_point(st: NcxState, d: int) -> bool {
    st.in_nav_map && st.depth == d && st.pending_depth == d && st.have_pending
}

proof fn lemma_ncx_literals()
    ensures
        "navMap"@.len() == 6,
        "navPoint"@.len() == 8,
        "text"@.len() == 4,
        "content"@.len() == 7,
{
    reveal_strlit("navMap");
    reveal_strlit("navPoint");
    reveal_strlit("text");
    reveal_strlit("content");
}

proof fn lemma_ncx_before_map(b: Seq<XmlEventView>)
    requires
        forall|i: int| 0 <= i < b.len() ==> !opens_nav_map(#[trigger] b[i]),
    ensures
        ncx_run(b) == ncx_run(Seq::empty()),
    decreases b.len(),
{
    if b.len() > 0 {
        let d = b.drop_last();
        assert forall|i: int| 0 <= i < d.len() implies !opens_nav_map(#[trigger] d[i]) by {
            assert(d[i] == b[i]);
        }
        lemma_ncx_before_map(d);
        assert(!opens_nav_map(b[b.len() - 1]));
        lemma_ncx_literals();
    }
}

proof fn lemma_ncx_inside(a: Seq<XmlEventView>, b: Seq<XmlEventView>, lv: int)
    requires
        inside_point(ncx_run(a), lv),
        forall|i: int|
            0 <= i < b.len() ==> !opens_nav_point(#[trigger] b[i]) && !closes_nav_point(b[i])
                && !opens_nav_map(b[i]) && !closes_nav_map(b[i]),
    ensures
        inside_point(ncx_run(a + b), lv),
        ncx_run(a + b).entries == ncx_run(a).entries,
    decreases b.len(),
{
    if b.len() == 0 {
        assert(a + b =~= a);
    } else {
        let d = b.drop_last();
        assert forall|i: int| 0 <= i < d.len() implies !opens_nav_point(#[trigger] d[i])
            && !closes_nav_point(d[i]) && !opens_nav_map(d[i]) && !closes_nav_map(d[i]) by {
            assert(d[i] == b[i]);
        }
        lemma_ncx_inside(a, d, lv);
        assert((a + b).drop_last() =~= a + d);
        let e = b[b.len() - 1];
        assert((a + b).last() == e);
        assert(!opens_nav_point(e) && !closes_nav_point(e) && !opens_nav_map(e)
            && !closes_nav_map(e));
        lemma_ncx_literals();
    }
}

/// A navPoint start tag at level `lv`: a pending entry of the enclosing
/// navPoint, if any, is emitted at `lv - 1`.
proof fn lemma_ncx_open(a: Seq<XmlEventView>, e: XmlEventView, lv: int)
    requires
        lv >= 0,
        ncx_run(a).in_nav_map,
        ncx_run(a).depth == lv - 1,
        ncx_run(a).have_pending ==> ncx_run(a).pending_depth == lv - 1,
        opens_nav_point(e),
    ensures
        inside_point(ncx_run(a.push(e)), lv),
        adds_parent_then_children(ncx_run(a).entries, ncx_run(a.push(e)).entries, lv - 1),
        ncx_run(a.push(e)).entries.len() <= ncx_run(a).entries.len() + 1,
        !ncx_run(a).have_pending ==> ncx_run(a.push(e)).entries == ncx_run(a).entries,
{
    lemma_ncx_literals();
    assert(a.push(e).drop_last() =~= a);
    assert(a.push(e).last() == e);
}

/// A navPoint end tag closing a navPoint at level `lv`.
proof fn lemma_ncx_close(a: Seq<XmlEventView>, e: XmlEventView, lv: int)
    requires
        lv >= 0,
        ncx_run(a).in_nav_map,
        ncx_run(a).depth == lv,
        ncx_run(a).have_pending ==> ncx_run(a).pending_depth == lv,
        closes_nav_point(e),
    ensures
        between_points(ncx_run(a.push(e)), lv),
        adds_at_depth(ncx_run(a).entries, ncx_run(a.push(e)).entries, lv),
        ncx_run(a.push(e)).entries.len() <= ncx_run(a).entries.len() + 1,
        !ncx_run(a).have_pending ==> ncx_run(a.push(e)).entries == ncx_run(a).entries,
{
    lemma_ncx_literals();
    assert(a.push(e).drop_last() =~= a);
    assert(a.push(e).last() == e);
}

proof fn lemma_adds_at_depth_trans(x: Seq<TocEntryView>, y: Seq<TocEntryView>, z: Seq<TocEntryView>, d: int)
    requires
        adds_at_depth(x, y, d),
        adds_at_depth(y, z, d),
    ensures
        adds_at_depth(x, z, d),
{
    assert forall|i: int| 0 <= i < x.len() implies z[i] == #[trigger] x[i] by {
        assert(z[i] == y[i]);
    }
    assert forall|i: int| x.len() <= i < z.len() implies (#[trigger] z[i]).depth == d by {
        if i < y.len() {
            assert(z[i] == y[i]);
        }
    }
}

proof fn lemma_parent_then_children_trans(
    x: Seq<TocEntryView>,
    y: Seq<TocEntryView>,
    z: Seq<TocEntryView>,
    d: int,
)
    requires
        adds_parent_then_children(x, y, d),
        adds_at_depth(y, z, d + 1),
    ensures
        adds_parent_then_children(x, z, d),
{
    assert forall|i: int| 0 <= i < x.len() implies z[i] == #[trigger] x[i] by {
        assert(z[i] == y[i]);
    }
    assert forall|i: int| x.len() <= i < z.len() implies (#[trigger] z[i]).depth == d + 1 || (i
        == x.len() && z[i].depth == d) by {
        if i < y.len() {
            assert(z[i] == y[i]);
        }
    }
}

/// A leaf navPoint at level `lv`, read after the head of its parent (whose
/// entry is then emitted at `lv - 1`) or between navPoints.
proof fn lemma_ncx_leaf(a: Seq<XmlEventView>, b: Seq<XmlEventView>, lv: int)
    requires
        lv >= 0,
        ncx_run(a).in_nav_map,
        ncx_run(a).depth == lv - 1,
        ncx_run(a).have_pending ==> ncx_run(a).pending_depth == lv - 1,
        leaf_nav_point(b),
    ensures
        between_points(ncx_run(a + b), lv),
        adds_parent_then_children(ncx_run(a).entries, ncx_run(a + b).entries, lv - 1),
        !ncx_run(a).have_pending ==> adds_at_depth(ncx_run(a).entries, ncx_run(a + b).entries, lv),
{
    let a1 = a.push(b[0]);
    lemma_ncx_open(a, b[0], lv);
    let inner = b.subrange(1, b.len() - 1);
    assert forall|i: int| 0 <= i < inner.len() implies !opens_nav_point(#[trigger] inner[i])
        && !closes_nav_point(inner[i]) && !opens_nav_map(inner[i]) && !closes_nav_map(
        inner[i],
    ) by {
        assert(inner[i] == b[i + 1]);
    }
    lemma_ncx_inside(a1, inner, lv);
    lemma_ncx_close(a1 + inner, b[b.len() - 1], lv);
    assert((a1 + inner).push(b[b.len() - 1]) =~= a + b);
    lemma_parent_then_children_trans(
        ncx_run(a).entries,
        ncx_run(a1 + inner).entries,
        ncx_run(a + b).entries,
        lv - 1,
    );
}

proof fn lemma_ncx_leaves(a: Seq<XmlEventView>, bs: Seq<Seq<XmlEventView>>, lv: int)
    requires
        lv >= 0,
        ncx_run(a).in_nav_map,
        ncx_run(a).depth == lv - 1,
        ncx_run(a).have_pending ==> ncx_run(a).pending_depth == lv - 1,
        forall|j: int| 0 <= j < bs.len() ==> leaf_nav_point(#[trigger] bs[j]),
    ensures
        bs.len() > 0 ==> between_points(ncx_run(a + concat_blocks(bs)), lv),
        bs.len() == 0 ==> ncx_run(a + concat_blocks(bs)) == ncx_run(a),
        adds_parent_then_children(ncx_run(a).entries, ncx_run(a + concat_blocks(bs)).entries, lv - 1),
        !ncx_run(a).have_pending ==> adds_at_depth(
            ncx_run(a).entries,
            ncx_run(a + concat_blocks(bs)).entries,
            lv,
        ),
    decreases bs.len(),
{
    let e0 = ncx_run(a).entries;
    if bs.len() == 0 {
        assert(a + concat_blocks(bs) =~= a);
        assert(adds_at_depth(e0, e0, lv));
        assert(adds_parent_then_children(e0, e0, lv - 1));
    } else {
        let d = bs.drop_last();
        assert forall|j: int| 0 <= j < d.len() implies leaf_nav_point(#[trigger] d[j]) by {
            assert(d[j] == bs[j]);
        }
        lemma_ncx_leaves(a, d, lv);
        assert(leaf_nav_point(bs[bs.len() - 1]));
        let c = a + concat_blocks(d);
        lemma_ncx_leaf(c, bs.last(), lv);
        assert(a + concat_blocks(bs) =~= c + bs.last());
        let e1 = ncx_run(c).entries;
        let e2 = ncx_run(a + concat_blocks(bs)).entries;
        if d.len() == 0 {
            assert(e1 == e0);
        } else {
            assert(adds_at_depth(e1, e2, lv));
            lemma_parent_then_children_trans(e0, e1, e2, lv - 1);
            if !ncx_run(a).have_pending {
                lemma_adds_at_depth_trans(e0, e1, e2, lv);
            }
        }
    }
}

proof fn lemma_ncx_after(a: Seq<XmlEventView>, b: Seq<XmlEventView>)
    requires
        forall|i: int|
            0 <= i < b.len() ==> !opens_nav_point(#[trigger] b[i]) && !closes_nav_point(b[i])
                && !opens_nav_map(b[i]),
    ensures
        ncx_run(a + b).entries == ncx_run(a).entries,
    decreases b.len(),
{
    if b.len() == 0 {
        assert(a + b =~= a);
    } else {
        let d = b.drop_last();
        assert forall|i: int| 0 <= i < d.len() implies !opens_nav_point(#[trigger] d[i])
            && !closes_nav_point(d[i]) && !opens_nav_map(d[i]) by {
            assert(d[i] == b[i]);
        }
        lemma_ncx_after(a, d);
        assert((a + b).drop_last() =~= a + d);
        let e = b[b.len() - 1];
        assert((a + b).last() == e);
        assert(!opens_nav_point(e) && !closes_nav_point(e) && !opens_nav_map(e));
        lemma_ncx_literals();
    }
}

/// Leaf navPoints read where `k` navPoints are open (the scan's depth is
/// `k - 1`) each give at most one entry, of depth `k`, and leave the nesting
/// as it was: siblings share one depth.
pub proof fn lemma_leaf_nav_points_at_level(a: Seq<XmlEventView>, points: Seq<Seq<XmlEventView>>)
    requires
        ncx_run(a).in_nav_map,
        !ncx_run(a).have_pending,
        ncx_run(a).depth >= -1,
        forall|j: int| 0 <= j < points.len() ==> leaf_nav_point(#[trigger] points[j]),
    ensures
        ncx_run(a + concat_blocks(points)).in_nav_map,
        !ncx_run(a + concat_blocks(points)).have_pending,
        ncx_run(a + concat_blocks(points)).depth == ncx_run(a).depth,
        adds_at_depth(
            ncx_run(a).entries,
            ncx_run(a + concat_blocks(points)).entries,
            ncx_run(a).depth + 1,
        ),
{
    lemma_ncx_leaves(a, points, ncx_run(a).depth + 1);
}

/// The children of a navPoint sit one level below it: a navPoint opened where
/// `k` navPoints are open, whose children are leaf navPoints, gives its own
/// entry (if its label is not empty) at depth `k`, then its children's
/// entries at depth `k + 1`; after its end tag the nesting is as before.
pub proof fn lemma_children_one_level_deeper(
    a: Seq<XmlEventView>,
    open: XmlEventView,
    head: Seq<XmlEventView>,
    children: Seq<Seq<XmlEventView>>,
    close: XmlEventView,
)
    requires
        ncx_run(a).in_nav_map,
        !ncx_run(a).have_pending,
        ncx_run(a).depth >= -1,
        opens_nav_point(open),
        forall|i: int|
            0 <= i < head.len() ==> !opens_nav_point(#[trigger] head[i]) && !closes_nav_point(
                head[i],
            ) && !opens_nav_map(head[i]) && !closes_nav_map(head[i]),
        forall|j: int| 0 <= j < children.len() ==> leaf_nav_point(#[trigger] children[j]),
        closes_nav_point(close),
    ensures
        ({
            let after = ncx_run(a + seq![open] + head + concat_blocks(children) + seq![close]);
            &&& after.in_nav_map
            &&& !after.have_pending
            &&& after.depth == ncx_run(a).depth
            &&& adds_parent_then_children(ncx_run(a).entries, after.entries, ncx_run(a).depth + 1)
        }),
{
    let lv = ncx_run(a).depth + 1;
    let a1 = a.push(open);
    lemma_ncx_open(a, open, lv);
    lemma_ncx_inside(a1, head, lv);
    let a2 = a1 + head;
    lemma_ncx_leaves(a2, children, lv + 1);
    let a3 = a2 + concat_blocks(children);
    lemma_ncx_close(a3, close, lv);
    assert(a + seq![open] + head + concat_blocks(children) + seq![close] =~= a3.push(close));
    let e0 = ncx_run(a).entries;
    let e3 = ncx_run(a3).entries;
    let e4 = ncx_run(a3.push(close)).entries;
    assert(ncx_run(a2).entries == e0);
    if children.len() == 0 {
        assert(e3 == e0);
        assert forall|i: int| e0.len() <= i < e4.len() implies (#[trigger] e4[i]).depth == lv + 1
            || (i == e0.len() && e4[i].depth == lv) by {}
    } else {
        assert(e4 == e3);
    }
}

/// A navPoint's depth is its nesting level: when the navMap holds only
/// top-level navPoints, none nested in another, every entry of the table of
/// contents has depth zero, however many siblings there are.
pub proof fn lemma_sibling_nav_points_at_depth_zero(
    evs: Seq<XmlEventView>,
    pre: Seq<XmlEventView>,
    m: Seq<char>,
    attrs: Seq<char>,
    points: Seq<Seq<XmlEventView>>,
    post: Seq<XmlEventView>,
)
    requires
        body_events(evs) == pre + seq![XmlEventView::Start(m, attrs)] + concat_blocks(points)
            + post,
        local_name(m) == "navMap"@,
        forall|i: int| 0 <= i < pre.len() ==> !opens_nav_map(#[trigger] pre[i]),
        forall|j: int| 0 <= j < points.len() ==> leaf_nav_point(#[trigger] points[j]),
        forall|i: int|
            0 <= i < post.len() ==> !opens_nav_point(#[trigger] post[i]) && !closes_nav_point(
                post[i],
            ) && !opens_nav_map(post[i]),
    ensures
        all_top_level(ncx_entries(evs)),
{
    lemma_ncx_literals();
    lemma_ncx_before_map(pre);
    let a = pre.push(XmlEventView::Start(m, attrs));
    assert(a.drop_last() =~= pre);
    assert(between_points(ncx_run(a), 0));
    lemma_ncx_leaves(a, points, 0);
    let c = a + concat_blocks(points);
    lemma_ncx_after(c, post);
    assert(body_events(evs) =~= c + post);
    assert(ncx_run(a).entries == Seq::<TocEntryView>::empty());
}

} // verus!
