//! Convert XHTML content documents into readable plain text.

use vstd::prelude::*;

use crate::chars::{char_is_ws, chars_eq_str, chars_of, is_ws, string_of, trim, trim_chars};
use crate::xml::{
    body_events, event_is_terminal, events_view, lemma_terminal_index, local_name,
    local_name_of, stream_events, unescape_or_default, unescape_or_empty, xml_event_stream,
    xml_events, XmlEvent, XmlEventView,
};

verus! {

// ---------------------------------------------------------------------------
// Specification
// ---------------------------------------------------------------------------

/// Block-level / line-breaking elements: a newline is emitted around them.
pub open spec fn is_block_name(n: Seq<char>) -> bool {
    ||| n == "p"@
    ||| n == "div"@
    ||| n == "br"@
    ||| n == "li"@
    ||| n == "tr"@
    ||| n == "h1"@
    ||| n == "h2"@
    ||| n == "h3"@
    ||| n == "h4"@
    ||| n == "h5"@
    ||| n == "h6"@
    ||| n == "section"@
    ||| n == "article"@
    ||| n == "header"@
    ||| n == "footer"@
    ||| n == "blockquote"@
    ||| n == "figcaption"@
    ||| n == "table"@
    ||| n == "ul"@
    ||| n == "ol"@
    ||| n == "hr"@
    ||| n == "pre"@
}

/// Elements whose textual content is discarded entirely.
pub open spec fn is_skipped_name(n: Seq<char>) -> bool {
    ||| n == "script"@
    ||| n == "style"@
    ||| n == "head"@
    ||| n == "title"@
}

/// Does the output end in a position where whitespace is already implied?
pub open spec fn at_word_gap(out: Seq<char>) -> bool {
    out.len() == 0 || out.last() == '\n' || out.last() == ' '
}

/// Appends text, turning each run of whitespace into one space, and dropping
/// whitespace where the output is empty or already ends in a space or newline.
pub open spec fn push_text_spec(out: Seq<char>, s: Seq<char>) -> Seq<char>
    decreases s.len(),
{
    if s.len() == 0 {
        out
    } else if is_ws(s[0]) {
        if at_word_gap(out) {
            push_text_spec(out, s.drop_first())
        } else {
            push_text_spec(out.push(' '), s.drop_first())
        }
    } else {
        push_text_spec(out.push(s[0]), s.drop_first())
    }
}

/// `out` without its trailing spaces.
pub open spec fn strip_trailing_spaces(out: Seq<char>) -> Seq<char>
    decreases out.len(),
{
    if out.len() > 0 && out.last() == ' ' {
        strip_trailing_spaces(out.drop_last())
    } else {
        out
    }
}

/// Records a line break: trailing spaces are dropped, and a newline is added
/// unless the output is empty or already ends with one.
pub open spec fn push_break_spec(out: Seq<char>) -> Seq<char> {
    let t = strip_trailing_spaces(out);
    if t.len() > 0 && t.last() != '\n' {
        t.push('\n')
    } else {
        t
    }
}

/// Drops every newline that follows two newlines, so that runs of three or
/// more newlines become exactly two.
pub open spec fn cap_newlines(s: Seq<char>) -> Seq<char>
    decreases s.len(),
{
    if s.len() == 0 {
        s
    } else {
        let p = cap_newlines(s.drop_last());
        let i = s.len() - 1;
        if s[i] == '\n' && i >= 2 && s[i - 1] == '\n' && s[i - 2] == '\n' {
            p
        } else {
            p.push(s[i])
        }
    }
}

/// The final clean-up: newline runs capped at two, surrounding whitespace trimmed.
pub open spec fn normalize_spec(s: Seq<char>) -> Seq<char> {
    trim(cap_newlines(s))
}

/// No three newlines in a row: at most one blank line between paragraphs.
pub open spec fn no_blank_run(s: Seq<char>) -> bool {
    forall|i: int|
        0 <= i && i + 2 < s.len() ==> !(#[trigger] s[i] == '\n' && s[i + 1] == '\n' && s[i + 2]
            == '\n')
}

/// Does `s` end with a newline?
pub open spec fn ends_nl(s: Seq<char>) -> bool {
    s.len() >= 1 && s[s.len() - 1] == '\n'
}

/// Does `s` end with two newlines?
pub open spec fn ends_nl2(s: Seq<char>) -> bool {
    s.len() >= 2 && s[s.len() - 1] == '\n' && s[s.len() - 2] == '\n'
}

proof fn lemma_cap_newlines(s: Seq<char>)
    ensures
        no_blank_run(cap_newlines(s)),
        ends_nl(cap_newlines(s)) == ends_nl(s),
        ends_nl2(cap_newlines(s)) == ends_nl2(s),
    decreases s.len(),
{
    if s.len() > 0 {
        let s1 = s.drop_last();
        lemma_cap_newlines(s1);
        let p = cap_newlines(s1);
        let i = s.len() - 1;
        if i >= 1 {
            assert(s1[i - 1] == s[i - 1]);
        }
        if i >= 2 {
            assert(s1[i - 2] == s[i - 2]);
        }
        if !(s[i] == '\n' && i >= 2 && s[i - 1] == '\n' && s[i - 2] == '\n') {
            let q = p.push(s[i]);
            assert forall|j: int| 0 <= j && j + 2 < q.len() implies !(#[trigger] q[j] == '\n' && q[j
                + 1] == '\n' && q[j + 2] == '\n') by {
                if j + 2 < p.len() {
                    assert(q[j] == p[j] && q[j + 1] == p[j + 1] && q[j + 2] == p[j + 2]);
                } else {
                    assert(j + 2 == p.len());
                    if s[i] == '\n' {
                        assert(!ends_nl2(s1));
                        assert(!ends_nl2(p));
                    }
                }
            }
        }
    }
}

/// What the extractor hands back is tidy: it neither begins nor ends with
/// whitespace, and blank lines never come two in a row.
pub proof fn lemma_text_is_tidy(evs: Seq<XmlEventView>)
    ensures
        ({
            let t = text_of_events(evs);
            &&& t.len() > 0 ==> !is_ws(t[0]) && !is_ws(t[t.len() - 1])
            &&& no_blank_run(t)
        }),
{
    let c = cap_newlines(text_run(body_events(evs)).out);
    lemma_cap_newlines(text_run(body_events(evs)).out);
    let (a, b) = crate::chars::lemma_trim_bounds(c);
    let t = text_of_events(evs);
    assert(t == c.subrange(a, b));
    assert forall|j: int| 0 <= j && j + 2 < t.len() implies !(#[trigger] t[j] == '\n' && t[j + 1]
        == '\n' && t[j + 2] == '\n') by {
        assert(t[j] == c[a + j] && t[j + 1] == c[a + j + 1] && t[j + 2] == c[a + j + 2]);
    }
}

/// The extractor's state: text so far and depth inside skipped elements.
pub struct TextState {
    pub out: Seq<char>,
    pub skip_depth: nat,
}

/// One event of text extraction.
pub open spec fn text_step(st: TextState, e: XmlEventView) -> TextState {
    match e {
        XmlEventView::Start(n, _) => if is_skipped_name(local_name(n)) {
            TextState { out: st.out, skip_depth: st.skip_depth + 1 }
        } else if is_block_name(local_name(n)) {
            TextState { out: push_break_spec(st.out), skip_depth: st.skip_depth }
        } else {
            st
        },
        XmlEventView::Empty(n, _) => if is_block_name(local_name(n)) {
            TextState { out: push_break_spec(st.out), skip_depth: st.skip_depth }
        } else {
            st
        },
        XmlEventView::End(n) => if is_skipped_name(local_name(n)) {
            TextState {
                out: st.out,
                skip_depth: if st.skip_depth > 0 {
                    (st.skip_depth - 1) as nat
                } else {
                    0
                },
            }
        } else if is_block_name(local_name(n)) {
            TextState { out: push_break_spec(st.out), skip_depth: st.skip_depth }
        } else {
            st
        },
        XmlEventView::Text(t) => if st.skip_depth == 0 {
            TextState { out: push_text_spec(st.out, unescape_or_empty(t)), skip_depth: 0 }
        } else {
            st
        },
        XmlEventView::CData(t) => if st.skip_depth == 0 {
            TextState { out: push_text_spec(st.out, t), skip_depth: 0 }
        } else {
            st
        },
        _ => st,
    }
}

/// Text extraction over a run of events.
pub open spec fn text_run(evs: Seq<XmlEventView>) -> TextState
    decreases evs.len(),
{
    if evs.len() == 0 {
        TextState { out: Seq::empty(), skip_depth: 0 }
    } else {
        text_step(text_run(evs.drop_last()), evs.last())
    }
}

/// The plain text of a document, given its events. Reading stops at the end
/// of the document or at the first error; what was gathered until then is kept.
pub open spec fn text_of_events(evs: Seq<XmlEventView>) -> Seq<char> {
    normalize_spec(text_run(body_events(evs)).out)
}

// ---------------------------------------------------------------------------
// Executable code
// ---------------------------------------------------------------------------

/// Is `n` the local name of a block-level element?
fn is_block(n: &[char]) -> (r: bool)
    ensures
        r == is_block_name(n@),
{
    chars_eq_str(n, "p") || chars_eq_str(n, "div") || chars_eq_str(n, "br") || chars_eq_str(
        n,
        "li",
    ) || chars_eq_str(n, "tr") || chars_eq_str(n, "h1") || chars_eq_str(n, "h2")
        || chars_eq_str(n, "h3") || chars_eq_str(n, "h4") || chars_eq_str(n, "h5")
        || chars_eq_str(n, "h6") || chars_eq_str(n, "section") || chars_eq_str(n, "article")
        || chars_eq_str(n, "header") || chars_eq_str(n, "footer") || chars_eq_str(
        n,
        "blockquote",
    ) || chars_eq_str(n, "figcaption") || chars_eq_str(n, "table") || chars_eq_str(n, "ul")
        || chars_eq_str(n, "ol") || chars_eq_str(n, "hr") || chars_eq_str(n, "pre")
}

/// Is `n` the local name of an element whose content is discarded?
fn is_skipped(n: &[char]) -> (r: bool)
    ensures
        r == is_skipped_name(n@),
{
    chars_eq_str(n, "script") || chars_eq_str(n, "style") || chars_eq_str(n, "head")
        || chars_eq_str(n, "title")
}

/// Append text, collapsing internal runs of whitespace to single spaces.
pub(crate) fn push_text(out: &mut Vec<char>, s: &str)
    ensures
        final(out)@ == push_text_spec(old(out)@, s@),
{
    let sv = chars_of(s);
    let mut i: usize = 0;
    assert(sv@.skip(0) =~= sv@);
    while i < sv.len()
        invariant
            i <= sv@.len(),
            sv@ == s@,
            push_text_spec(old(out)@, s@) == push_text_spec(out@, sv@.skip(i as int)),
        decreases sv@.len() - i,
    {
        let c = sv[i];
        let ghost rest = sv@.skip(i as int);
        assert(rest.drop_first() =~= sv@.skip(i + 1));
        assert(rest[0] == c);
        let last_ws = out.len() == 0 || out[out.len() - 1] == '\n' || out[out.len() - 1] == ' ';
        if char_is_ws(c) {
            if !last_ws {
                out.push(' ');
            }
        } else {
            out.push(c);
        }
        i = i + 1;
    }
    assert(sv@.skip(sv@.len() as int) =~= Seq::<char>::empty());
}

/// Record a line break, avoiding more than one trailing newline at a time.
fn push_break(out: &mut Vec<char>)
    ensures
        final(out)@ == push_break_spec(old(out)@),
{
    // Trim a trailing space before the break.
    while out.len() > 0 && out[out.len() - 1] == ' '
        invariant
            strip_trailing_spaces(out@) == strip_trailing_spaces(old(out)@),
        decreases out@.len(),
    {
        out.pop();
    }
    if out.len() > 0 && out[out.len() - 1] != '\n' {
        out.push('\n');
    }
}

/// Trim leading/trailing whitespace and collapse 3+ newlines into 2.
fn normalize(s: &[char]) -> (r: Vec<char>)
    ensures
        r@ == normalize_spec(s@),
{
    let mut result: Vec<char> = Vec::new();
    let mut i: usize = 0;
    while i < s.len()
        invariant
            i <= s@.len(),
            result@ == cap_newlines(s@.take(i as int)),
        decreases s@.len() - i,
    {
        let ghost t = s@.take(i + 1);
        assert(t.drop_last() =~= s@.take(i as int));
        let keep = !(s[i] == '\n' && i >= 2 && s[i - 1] == '\n' && s[i - 2] == '\n');
        if keep {
            result.push(s[i]);
        }
        i = i + 1;
    }
    assert(s@.take(s@.len() as int) =~= s@);
    trim_chars(result.as_slice())
}

/// Extract plain text from an XHTML (or HTML) document.
///
/// Tags are removed, entities are decoded, `<script>`/`<style>`/`<head>` content
/// is dropped, and block elements introduce line breaks. Runs of blank lines are
/// collapsed and surrounding whitespace trimmed. Malformed markup ends the
/// extraction early rather than failing it.
pub fn xhtml_to_text(xml: &str) -> (r: String)
    ensures
        r@ == text_of_events(stream_events(xml_event_stream(xml@, false, false))),
{
    let events = xml_events(xml, false, false);
    text_from_events(&events)
}

/// The plain text of an XHTML document, given its events.
pub fn text_from_events(events: &Vec<XmlEvent>) -> (r: String)
    ensures
        r@ == text_of_events(events_view(events@)),
{
    let ghost evs = events_view(events@);
    let mut out: Vec<char> = Vec::new();
    let mut skip_depth: usize = 0;
    let mut i: usize = 0;
    while i < events.len() && !event_is_terminal(&events[i])
        invariant
            i <= events@.len(),
            evs == events_view(events@),
            forall|j: int| 0 <= j < i ==> !crate::xml::is_terminal(#[trigger] evs[j]),
            skip_depth <= i,
            text_run(evs.take(i as int)) == (TextState { out: out@, skip_depth: skip_depth as nat }),
        decreases events@.len() - i,
    {
        let e = &events[i];
        assert(evs.take(i + 1).drop_last() =~= evs.take(i as int));
        assert(evs[i as int] == e@);
        match e {
            XmlEvent::Start(name, _) => {
                let nv = chars_of(name.as_str());
                let local = local_name_of(nv.as_slice());
                if is_skipped(local.as_slice()) {
                    skip_depth = skip_depth + 1;
                } else if is_block(local.as_slice()) {
                    push_break(&mut out);
                }
            },
            XmlEvent::Empty(name, _) => {
                let nv = chars_of(name.as_str());
                let local = local_name_of(nv.as_slice());
                if is_block(local.as_slice()) {
                    push_break(&mut out);
                }
            },
            XmlEvent::End(name) => {
                let nv = chars_of(name.as_str());
                let local = local_name_of(nv.as_slice());
                if is_skipped(local.as_slice()) {
                    if skip_depth > 0 {
                        skip_depth = skip_depth - 1;
                    }
                } else if is_block(local.as_slice()) {
                    push_break(&mut out);
                }
            },
            XmlEvent::Text(t) => {
                if skip_depth == 0 {
                    let decoded = unescape_or_default(t.as_str());
                    push_text(&mut out, decoded.as_str());
                }
            },
            XmlEvent::CData(t) => {
                if skip_depth == 0 {
                    push_text(&mut out, t.as_str());
                }
            },
            _ => {},
        }
        i = i + 1;
    }
    proof {
        lemma_terminal_index(evs, i as int);
    }
    let n = normalize(out.as_slice());
    string_of(n.as_slice())
}

} // verus!

verus! {

// ---------------------------------------------------------------------------
// Line breaks between words
// ---------------------------------------------------------------------------

/// The elements that break a line of text: paragraphs, divisions, line breaks,
/// list items, table rows, headings, sectioning elements, block quotes,
/// figure captions, tables, lists, rules and preformatted blocks.
pub open spec fn breaks_line(n: Seq<char>) -> bool {
    n == "p"@ || n == "div"@ || n == "br"@ || n == "li"@ || n == "tr"@ || n == "h1"@ || n == "h2"@
        || n == "h3"@ || n == "h4"@ || n == "h5"@ || n == "h6"@ || n == "section"@ || n
        == "article"@ || n == "header"@ || n == "footer"@ || n == "blockquote"@ || n
        == "figcaption"@ || n == "table"@ || n == "ul"@ || n == "ol"@ || n == "hr"@ || n == "pre"@
}

/// A word: non-empty text without whitespace.
pub open spec fn is_word(w: Seq<char>) -> bool {
    w.len() > 0 && forall|i: int| 0 <= i < w.len() ==> !is_ws(#[trigger] w[i])
}

proof fn lemma_push_word(out: Seq<char>, w: Seq<char>)
    requires
        forall|i: int| 0 <= i < w.len() ==> !is_ws(#[trigger] w[i]),
    ensures
        push_text_spec(out, w) == out + w,
    decreases w.len(),
{
    if w.len() == 0 {
        assert(out + w =~= out);
    } else {
        let t = w.drop_first();
        assert forall|i: int| 0 <= i < t.len() implies !is_ws(#[trigger] t[i]) by {
            assert(t[i] == w[i + 1]);
        }
        lemma_push_word(out.push(w[0]), t);
        assert(out.push(w[0]) + t =~= out + w);
    }
}

proof fn lemma_cap_identity(s: Seq<char>)
    requires
        no_blank_run(s),
    ensures
        cap_newlines(s) == s,
    decreases s.len(),
{
    if s.len() > 0 {
        let p = s.drop_last();
        assert forall|i: int| 0 <= i && i + 2 < p.len() implies !(#[trigger] p[i] == '\n' && p[i
            + 1] == '\n' && p[i + 2] == '\n') by {
            assert(p[i] == s[i] && p[i + 1] == s[i + 1] && p[i + 2] == s[i + 2]);
        }
        lemma_cap_identity(p);
        let i = s.len() - 1;
        if i >= 2 {
            assert(!(s[i - 2] == '\n' && s[i - 1] == '\n' && s[i] == '\n'));
        }
        assert(p.push(s[i]) =~= s);
    }
}

/// A start, self-closing or end tag of a line-breaking element.
pub open spec fn line_breaking_tag(e: XmlEventView) -> bool {
    match e {
        XmlEventView::Start(n, _) => breaks_line(local_name(n)),
        XmlEventView::Empty(n, _) => breaks_line(local_name(n)),
        XmlEventView::End(n) => breaks_line(local_name(n)),
        _ => false,
    }
}

proof fn lemma_breaking_not_skipped(n: Seq<char>)
    requires
        breaks_line(n),
    ensures
        !is_skipped_name(n),
{
    reveal_strlit("script");
    reveal_strlit("style");
    reveal_strlit("head");
    reveal_strlit("title");
    reveal_strlit("header");
    reveal_strlit("footer");
    reveal_strlit("table");
    reveal_strlit("p");
    reveal_strlit("div");
    reveal_strlit("br");
    reveal_strlit("li");
    reveal_strlit("tr");
    reveal_strlit("h1");
    reveal_strlit("h2");
    reveal_strlit("h3");
    reveal_strlit("h4");
    reveal_strlit("h5");
    reveal_strlit("h6");
    reveal_strlit("section");
    reveal_strlit("article");
    reveal_strlit("blockquote");
    reveal_strlit("figcaption");
    reveal_strlit("ul");
    reveal_strlit("ol");
    reveal_strlit("hr");
    reveal_strlit("pre");
    if n.len() == 6 {
        assert(n[0] != 's');
    }
    if n.len() == 5 {
        assert(n[0] == 't' && n[1] == 'a');
        assert("title"@[1] == 'i' && "style"@[0] == 's');
    }
}

proof fn lemma_breaking_tag_breaks(e: XmlEventView)
    requires
        line_breaking_tag(e),
    ensures
        forall|st: TextState| #[trigger] text_step(st, e) == (TextState { out: push_break_spec(st.out), ..st }),
{
    match e {
        XmlEventView::Start(n, _) => {
            lemma_breaking_not_skipped(local_name(n));
            assert(is_block_name(local_name(n)));
        },
        XmlEventView::Empty(n, _) => {
            assert(is_block_name(local_name(n)));
        },
        XmlEventView::End(n) => {
            lemma_breaking_not_skipped(local_name(n));
            assert(is_block_name(local_name(n)));
        },
        _ => {},
    }
}

proof fn lemma_breaking_tags(x: Seq<XmlEventView>, tags: Seq<XmlEventView>)
    requires
        text_run(x).skip_depth == 0,
        text_run(x).out.len() > 0,
        !is_ws(text_run(x).out.last()),
        tags.len() > 0,
        forall|i: int| 0 <= i < tags.len() ==> line_breaking_tag(#[trigger] tags[i]),
    ensures
        text_run(x + tags) == (TextState { out: text_run(x).out.push('\n'), skip_depth: 0 }),
    decreases tags.len(),
{
    let o = text_run(x).out;
    let e = tags[tags.len() - 1];
    assert(line_breaking_tag(e));
    lemma_breaking_tag_breaks(e);
    assert((x + tags).drop_last() =~= x + tags.drop_last());
    assert((x + tags).last() == e);
    if tags.len() == 1 {
        assert(x + tags.drop_last() =~= x);
        assert(strip_trailing_spaces(o) == o);
    } else {
        let d = tags.drop_last();
        assert forall|i: int| 0 <= i < d.len() implies line_breaking_tag(#[trigger] d[i]) by {
            assert(d[i] == tags[i]);
        }
        lemma_breaking_tags(x, d);
        assert(strip_trailing_spaces(o.push('\n')) == o.push('\n'));
    }
}

/// Two words separated by tags of line-breaking elements, opening,
/// self-closing (`<br/>`) or closing, one or several, come out on two lines:
/// `a<br/>b` and `a</p><p>b` both give `a`, one newline, `b`.
pub proof fn lemma_line_break_between_words(
    a: Seq<char>,
    b: Seq<char>,
    tags: Seq<XmlEventView>,
)
    requires
        tags.len() > 0,
        forall|i: int| 0 <= i < tags.len() ==> line_breaking_tag(#[trigger] tags[i]),
        is_word(unescape_or_empty(a)),
        is_word(unescape_or_empty(b)),
    ensures
        text_of_events(
            seq![XmlEventView::Text(a)] + tags + seq![XmlEventView::Text(b), XmlEventView::Eof],
        ) == unescape_or_empty(a) + seq!['\n'] + unescape_or_empty(b),
{
    let ua = unescape_or_empty(a);
    let ub = unescape_or_empty(b);
    let evs = seq![XmlEventView::Text(a)] + tags + seq![XmlEventView::Text(b), XmlEventView::Eof];
    let x1 = seq![XmlEventView::Text(a)];
    let body = x1 + tags + seq![XmlEventView::Text(b)];
    assert forall|i: int| 0 <= i < body.len() implies !crate::xml::is_terminal(#[trigger] body[i]) by {
        if 1 <= i < 1 + tags.len() {
            assert(body[i] == tags[i - 1]);
            assert(line_breaking_tag(tags[i - 1]));
        }
    }
    assert(evs =~= body.push(XmlEventView::Eof));
    assert forall|i: int| 0 <= i < body.len() implies !crate::xml::is_terminal(#[trigger] evs[i]) by {
        assert(evs[i] == body[i]);
    }
    lemma_terminal_index(evs, body.len() as int);
    assert(body_events(evs) =~= body);
    let s0 = TextState { out: Seq::empty(), skip_depth: 0 };
    lemma_push_word(Seq::empty(), ua);
    assert(Seq::<char>::empty() + ua =~= ua);
    assert(x1.drop_last() =~= Seq::<XmlEventView>::empty());
    assert(x1.last() == XmlEventView::Text(a));
    assert(text_run(x1.drop_last()) == s0);
    let s1 = text_run(x1);
    assert(s1 == text_step(s0, XmlEventView::Text(a)));
    assert(s1.out == ua);
    assert(!is_ws(ua[ua.len() - 1]));
    lemma_breaking_tags(x1, tags);
    assert(body.drop_last() =~= x1 + tags);
    assert(body.last() == XmlEventView::Text(b));
    lemma_push_word(ua.push('\n'), ub);
    let out = text_run(body).out;
    assert(out == ua.push('\n') + ub);
    assert(ua.push('\n') + ub =~= ua + seq!['\n'] + ub);
    let s = ua + seq!['\n'] + ub;
    assert forall|i: int| 0 <= i && i + 2 < s.len() implies !(#[trigger] s[i] == '\n' && s[i + 1]
        == '\n' && s[i + 2] == '\n') by {
        if i < ua.len() {
            assert(s[i] == ua[i]);
        } else {
            assert(s[i + 1] == ub[i + 1 - ua.len() - 1]);
        }
    }
    lemma_cap_identity(s);
    assert(s[0] == ua[0]);
    assert(s.last() == ub.last());
    assert(!is_ws(ub[ub.len() - 1]));
    assert(crate::chars::trim_start(s) == s);
    assert(crate::chars::trim_end(s) == s);
}

/// The elements whose text is dropped: scripts, style sheets, the document
/// head and its title.
pub open spec fn drops_content(n: Seq<char>) -> bool {
    n == "script"@ || n == "style"@ || n == "head"@ || n == "title"@
}

/// The text inside a script, style, head or title element is dropped: a word
/// before it and a word after it are all that remains, run together as in the
/// markup.
pub proof fn lemma_dropped_element_text(
    a: Seq<char>,
    b: Seq<char>,
    x: Seq<char>,
    n: Seq<char>,
    attrs: Seq<char>,
    m: Seq<char>,
)
    requires
        drops_content(local_name(n)),
        drops_content(local_name(m)),
        is_word(unescape_or_empty(a)),
        is_word(unescape_or_empty(b)),
    ensures
        text_of_events(
            seq![
                XmlEventView::Text(a),
                XmlEventView::Start(n, attrs),
                XmlEventView::Text(x),
                XmlEventView::End(m),
                XmlEventView::Text(b),
                XmlEventView::Eof,
            ],
        ) == unescape_or_empty(a) + unescape_or_empty(b),
{
    let ua = unescape_or_empty(a);
    let ub = unescape_or_empty(b);
    let evs = seq![
        XmlEventView::Text(a),
        XmlEventView::Start(n, attrs),
        XmlEventView::Text(x),
        XmlEventView::End(m),
        XmlEventView::Text(b),
        XmlEventView::Eof,
    ];
    lemma_terminal_index(evs, 5);
    let body = body_events(evs);
    let b1 = seq![XmlEventView::Text(a)];
    let b2 = b1.push(XmlEventView::Start(n, attrs));
    let b3 = b2.push(XmlEventView::Text(x));
    let b4 = b3.push(XmlEventView::End(m));
    assert(body =~= b4.push(XmlEventView::Text(b)));
    assert(b1.drop_last() =~= Seq::<XmlEventView>::empty());
    lemma_push_word(Seq::empty(), ua);
    assert(Seq::<char>::empty() + ua =~= ua);
    let s0 = TextState { out: Seq::empty(), skip_depth: 0 };
    assert(text_run(b1.drop_last()) == s0);
    assert(b1.last() == XmlEventView::Text(a));
    assert(text_run(b1) == text_step(s0, XmlEventView::Text(a)));
    assert(text_run(b1).out == ua && text_run(b1).skip_depth == 0);
    assert(b2.drop_last() =~= b1);
    assert(text_run(b2).out == ua && text_run(b2).skip_depth == 1);
    assert(b3.drop_last() =~= b2);
    assert(text_run(b3) == text_run(b2));
    assert(b4.drop_last() =~= b3);
    assert(text_run(b4).out == ua && text_run(b4).skip_depth == 0);
    assert(body.drop_last() =~= b4);
    lemma_push_word(ua, ub);
    let s = ua + ub;
    assert(text_run(body).out == s);
    assert forall|i: int| 0 <= i && i + 2 < s.len() implies !(#[trigger] s[i] == '\n' && s[i + 1]
        == '\n' && s[i + 2] == '\n') by {
        if i < ua.len() {
            assert(s[i] == ua[i]);
            assert(!is_ws(ua[i]));
        } else {
            assert(s[i] == ub[i - ua.len()]);
            assert(!is_ws(ub[i - ua.len()]));
        }
    }
    lemma_cap_identity(s);
    assert(s[0] == ua[0]);
    assert(s.last() == ub.last());
    assert(!is_ws(ub[ub.len() - 1]));
    assert(crate::chars::trim_start(s) == s);
    assert(crate::chars::trim_end(s) == s);
}

} // verus!
