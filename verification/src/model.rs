//! Core data structures describing the contents of an EPUB package document.

use vstd::prelude::*;

use crate::chars::{chars_eq, chars_match_at, chars_of, char_is_ws, is_ws, matches_at, string_eq_str};

verus! {

// ---------------------------------------------------------------------------
// Generic search over sequences
// ---------------------------------------------------------------------------

/// Index of the first element satisfying `p`, or -1.
pub open spec fn first_match<T>(s: Seq<T>, p: spec_fn(T) -> bool) -> int
    decreases s.len(),
{
    if s.len() == 0 {
        -1
    } else {
        let k = first_match(s.drop_last(), p);
        if k >= 0 {
            k
        } else if p(s.last()) {
            s.len() - 1
        } else {
            -1
        }
    }
}

/// Characterizes [`first_match`] by the first index at which `p` holds.
pub proof fn lemma_first_match<T>(s: Seq<T>, p: spec_fn(T) -> bool, i: int)
    requires
        0 <= i <= s.len(),
        forall|j: int| 0 <= j < i ==> !p(#[trigger] s[j]),
        i < s.len() ==> p(s[i]),
    ensures
        first_match(s, p) == (if i == s.len() {
            -1
        } else {
            i
        }),
    decreases s.len(),
{
    if s.len() > 0 {
        if i == s.len() {
            lemma_first_match(s.drop_last(), p, i - 1);
        } else {
            lemma_first_match(s.drop_last(), p, i);
        }
    }
}

/// A first match lies in range and satisfies the predicate.
pub proof fn lemma_first_match_bounds<T>(s: Seq<T>, p: spec_fn(T) -> bool)
    ensures
        -1 <= first_match(s, p) < s.len(),
        first_match(s, p) >= 0 ==> p(s[first_match(s, p)]),
        first_match(s, p) == -1 ==> forall|j: int| 0 <= j < s.len() ==> !p(#[trigger] s[j]),
    decreases s.len(),
{
    if s.len() > 0 {
        lemma_first_match_bounds(s.drop_last(), p);
        let k = first_match(s.drop_last(), p);
        if k == -1 && !p(s.last()) {
            assert forall|j: int| 0 <= j < s.len() implies !p(#[trigger] s[j]) by {
                if j < s.len() - 1 {
                    assert(s[j] == s.drop_last()[j]);
                }
            }
        }
    }
}

// ---------------------------------------------------------------------------
// Whitespace-separated tokens
// ---------------------------------------------------------------------------

/// Does `t` occur in `s` as a whole whitespace-delimited token, that is, is it
/// one of the items of `str::split_whitespace`? (`t` is non-empty and free of
/// whitespace for every use in this crate.)
pub open spec fn has_token(s: Seq<char>, t: Seq<char>) -> bool {
    exists|i: int| token_at(s, i, t)
}

/// `t` occurs at position `i` of `s`, bounded by whitespace or the ends of `s`.
pub open spec fn token_at(s: Seq<char>, i: int, t: Seq<char>) -> bool {
    &&& matches_at(s, i, t)
    &&& (i == 0 || is_ws(s[i - 1]))
    &&& (i + t.len() == s.len() || is_ws(s[i + t.len()]))
}

fn token_at_exec(s: &[char], i: usize, tv: &[char]) -> (r: bool)
    requires
        i <= s@.len(),
    ensures
        r == token_at(s@, i as int, tv@),
{
    if chars_match_at(s, i, tv) {
        let left = i == 0 || char_is_ws(s[i - 1]);
        let end = i + tv.len();
        let right = end == s.len() || char_is_ws(s[end]);
        left && right
    } else {
        false
    }
}

/// Executable form of [`has_token`].
pub fn contains_token(s: &[char], t: &str) -> (r: bool)
    ensures
        r == has_token(s@, t@),
{
    let tv = chars_of(t);
    let mut i: usize = 0;
    while i < s.len()
        invariant
            i <= s@.len(),
            tv@ == t@,
            forall|j: int| 0 <= j < i ==> !token_at(s@, j, t@),
        decreases s@.len() - i,
    {
        if token_at_exec(s, i, tv.as_slice()) {
            return true;
        }
        i = i + 1;
    }
    if token_at_exec(s, i, tv.as_slice()) {
        return true;
    }
    assert forall|j: int| !token_at(s@, j, t@) by {
        if !(0 <= j <= s@.len()) {
            assert(!matches_at(s@, j, t@));
        }
    }
    false
}

// ---------------------------------------------------------------------------
// Data model
// ---------------------------------------------------------------------------

/// Dublin Core metadata pulled from the OPF `<metadata>` element.
///
/// All fields are optional except the vectors, which may be empty. EPUB allows
/// repeated `dc:creator` / `dc:language` etc., so those are kept as `Vec`.
#[derive(Debug, Clone, Default)]
pub struct Metadata {
    pub title: Option<String>,
    pub creators: Vec<String>,
    pub languages: Vec<String>,
    pub identifier: Option<String>,
    pub publisher: Option<String>,
    pub date: Option<String>,
    pub description: Option<String>,
    pub rights: Option<String>,
}

impl Metadata {
    /// Metadata with every field absent.
    pub fn empty() -> (r: Metadata)
        ensures
            r.title is None,
            r.creators@.len() == 0,
            r.languages@.len() == 0,
            r.identifier is None,
            r.publisher is None,
            r.date is None,
            r.description is None,
            r.rights is None,
    {
        Metadata {
            title: None,
            creators: Vec::new(),
            languages: Vec::new(),
            identifier: None,
            publisher: None,
            date: None,
            description: None,
            rights: None,
        }
    }

    /// First creator, if any. Convenience for single-author display.
    pub fn first_creator(&self) -> (r: Option<&str>)
        ensures
            self.creators@.len() == 0 ==> r is None,
            self.creators@.len() > 0 ==> (r matches Some(c) && c@ == self.creators@[0]@),
    {
        if self.creators.len() == 0 {
            None
        } else {
            Some(self.creators[0].as_str())
        }
    }

    /// First language code, if any.
    pub fn first_language(&self) -> (r: Option<&str>)
        ensures
            self.languages@.len() == 0 ==> r is None,
            self.languages@.len() > 0 ==> (r matches Some(c) && c@ == self.languages@[0]@),
    {
        if self.languages.len() == 0 {
            None
        } else {
            Some(self.languages[0].as_str())
        }
    }
}

/// A single `<item>` from the OPF `<manifest>`.
///
/// `href` is stored exactly as written in the OPF (relative to the OPF's own
/// directory). `resolved_path` is the full zip-archive path of the resource.
#[derive(Debug, Clone)]
pub struct ManifestItem {
    pub id: String,
    pub href: String,
    pub media_type: String,
    /// Full path of the resource inside the zip archive.
    pub resolved_path: String,
    /// Value of the `properties` attribute (e.g. "nav", "cover-image"), if present.
    pub properties: Option<String>,
}

/// Does the item's `properties` attribute list the given token?
pub open spec fn has_property(m: ManifestItem, token: Seq<char>) -> bool {
    match m.properties {
        Some(p) => has_token(p@, token),
        None => false,
    }
}

/// The property token of the EPUB 3 navigation document.
pub open spec fn nav_token() -> Seq<char> {
    seq!['n', 'a', 'v']
}

/// The property token of the EPUB 3 cover image.
pub open spec fn cover_image_token() -> Seq<char> {
    seq!['c', 'o', 'v', 'e', 'r', '-', 'i', 'm', 'a', 'g', 'e']
}

impl ManifestItem {
    fn has_property_token(&self, token: &str) -> (r: bool)
        ensures
            r == has_property(*self, token@),
    {
        match &self.properties {
            Some(p) => {
                let pv = chars_of(p.as_str());
                contains_token(pv.as_slice(), token)
            },
            None => false,
        }
    }

    /// True if this manifest item is the EPUB 3 navigation document.
    pub fn is_nav(&self) -> (r: bool)
        ensures
            r == has_property(*self, nav_token()),
    {
        proof {
            reveal_strlit("nav");
            assert("nav"@ =~= nav_token());
        }
        self.has_property_token("nav")
    }

    /// True if this manifest item is the EPUB 3 cover image
    /// (`properties="cover-image"`).
    pub fn is_cover_image(&self) -> (r: bool)
        ensures
            r == has_property(*self, cover_image_token()),
    {
        proof {
            reveal_strlit("cover-image");
            assert("cover-image"@ =~= cover_image_token());
        }
        self.has_property_token("cover-image")
    }
}

/// A single `<itemref>` from the OPF `<spine>`, in reading order.
#[derive(Debug, Clone)]
pub struct SpineItem {
    /// The `idref` pointing at a manifest item id.
    pub idref: String,
    /// `false` when `linear="no"`; defaults to `true`.
    pub linear: bool,
}

/// The fully parsed OPF package document.
#[derive(Debug, Clone, Default)]
pub struct Package {
    pub metadata: Metadata,
    pub manifest: Vec<ManifestItem>,
    pub spine: Vec<SpineItem>,
    /// The `toc` attribute of the spine: an idref to the NCX manifest item (EPUB 2).
    pub spine_toc: Option<String>,
    /// The EPUB 2 cover id from `<meta name="cover" content="ID"/>`, if present.
    pub cover_id: Option<String>,
    /// The href of an EPUB 2 `<guide><reference type="cover" href="…"/>`, if present.
    pub guide_cover_href: Option<String>,
    /// Full archive path of the OPF document itself.
    pub opf_path: String,
}

/// Predicate: the manifest item has the given id.
pub open spec fn id_is(id: Seq<char>) -> spec_fn(ManifestItem) -> bool {
    |m: ManifestItem| m.id@ == id
}

/// Predicate: the manifest item has the given property token.
pub open spec fn property_is(token: Seq<char>) -> spec_fn(ManifestItem) -> bool {
    |m: ManifestItem| has_property(m, token)
}

/// Predicate: the manifest item has the given media type.
pub open spec fn media_type_is(mt: Seq<char>) -> spec_fn(ManifestItem) -> bool {
    |m: ManifestItem| m.media_type@ == mt
}

/// The media type of an EPUB 2 NCX document.
pub open spec fn ncx_media_type() -> Seq<char> {
    seq![
        'a', 'p', 'p', 'l', 'i', 'c', 'a', 't', 'i', 'o', 'n', '/', 'x', '-', 'd', 't', 'b', 'n',
        'c', 'x', '+', 'x', 'm', 'l'
    ]
}

/// `r` refers to exactly the item `o` (or both are absent).
pub open spec fn same_item(r: Option<&ManifestItem>, o: Option<ManifestItem>) -> bool {
    match (r, o) {
        (Some(a), Some(b)) => *a == b,
        (None, None) => true,
        _ => false,
    }
}

/// The first manifest item satisfying `p`, if any.
pub open spec fn find_item(items: Seq<ManifestItem>, p: spec_fn(ManifestItem) -> bool) -> Option<
    ManifestItem,
> {
    let k = first_match(items, p);
    if k >= 0 {
        Some(items[k])
    } else {
        None
    }
}

/// Manifest items in spine order, skipping spine entries with no matching item.
pub open spec fn spine_items_of(manifest: Seq<ManifestItem>, spine: Seq<SpineItem>) -> Seq<
    ManifestItem,
>
    decreases spine.len(),
{
    if spine.len() == 0 {
        Seq::empty()
    } else {
        let prev = spine_items_of(manifest, spine.drop_last());
        match find_item(manifest, id_is(spine.last().idref@)) {
            Some(m) => prev.push(m),
            None => prev,
        }
    }
}

/// The NCX document: the spine `toc` idref if it names a manifest item, else
/// the first item with the NCX media type.
pub open spec fn ncx_item_of(pkg: Package) -> Option<ManifestItem> {
    match pkg.spine_toc {
        Some(t) if find_item(pkg.manifest@, id_is(t@)) is Some => find_item(
            pkg.manifest@,
            id_is(t@),
        ),
        _ => find_item(pkg.manifest@, media_type_is(ncx_media_type())),
    }
}

/// The cover image item: the `cover-image` property first, then the item named
/// by `<meta name="cover">`.
pub open spec fn cover_item_of(pkg: Package) -> Option<ManifestItem> {
    match find_item(pkg.manifest@, property_is(cover_image_token())) {
        Some(m) => Some(m),
        None => match pkg.cover_id {
            Some(id) => find_item(pkg.manifest@, id_is(id@)),
            None => None,
        },
    }
}

impl Package {
    /// An empty package for the OPF at `opf_path`.
    pub fn new(opf_path: String) -> (r: Package)
        ensures
            r.opf_path@ == opf_path@,
            r.manifest@.len() == 0,
            r.spine@.len() == 0,
            r.spine_toc is None,
            r.cover_id is None,
            r.guide_cover_href is None,
            r.metadata.title is None,
            r.metadata.creators@.len() == 0,
            r.metadata.languages@.len() == 0,
            r.metadata.identifier is None,
            r.metadata.publisher is None,
            r.metadata.date is None,
            r.metadata.description is None,
            r.metadata.rights is None,
    {
        Package {
            metadata: Metadata::empty(),
            manifest: Vec::new(),
            spine: Vec::new(),
            spine_toc: None,
            cover_id: None,
            guide_cover_href: None,
            opf_path,
        }
    }

    fn index_of_id(&self, id: &str) -> (r: Option<usize>)
        ensures
            r matches Some(i) ==> first_match(self.manifest@, id_is(id@)) == i && i
                < self.manifest@.len(),
            r is None ==> first_match(self.manifest@, id_is(id@)) == -1,
    {
        let ghost p = id_is(id@);
        let idv = chars_of(id);
        let mut i: usize = 0;
        while i < self.manifest.len()
            invariant
                i <= self.manifest@.len(),
                idv@ == id@,
                p == id_is(id@),
                forall|j: int| 0 <= j < i ==> !p(#[trigger] self.manifest@[j]),
            decreases self.manifest@.len() - i,
        {
            let mv = chars_of(self.manifest[i].id.as_str());
            if chars_eq(mv.as_slice(), idv.as_slice()) {
                proof {
                    lemma_first_match(self.manifest@, p, i as int);
                }
                return Some(i);
            }
            i = i + 1;
        }
        proof {
            lemma_first_match(self.manifest@, p, i as int);
        }
        None
    }

    /// Look up a manifest item by its id.
    pub fn manifest_item(&self, id: &str) -> (r: Option<&ManifestItem>)
        ensures
            same_item(r, find_item(self.manifest@, id_is(id@))),
    {
        match self.index_of_id(id) {
            Some(i) => Some(&self.manifest[i]),
            None => None,
        }
    }

    /// Manifest items in spine reading order (skips spine entries whose idref
    /// has no matching manifest item).
    pub fn spine_items(&self) -> (r: Vec<&ManifestItem>)
        ensures
            r@.len() == spine_items_of(self.manifest@, self.spine@).len(),
            forall|i: int|
                0 <= i < r@.len() ==> *r@[i] == spine_items_of(self.manifest@, self.spine@)[i],
    {
        let mut out: Vec<&ManifestItem> = Vec::new();
        let mut i: usize = 0;
        while i < self.spine.len()
            invariant
                i <= self.spine@.len(),
                out@.len() == spine_items_of(self.manifest@, self.spine@.take(i as int)).len(),
                forall|k: int|
                    0 <= k < out@.len() ==> *out@[k] == spine_items_of(
                        self.manifest@,
                        self.spine@.take(i as int),
                    )[k],
            decreases self.spine@.len() - i,
        {
            let ghost pre = self.spine@.take(i as int);
            assert(self.spine@.take(i + 1).drop_last() =~= pre);
            match self.manifest_item(self.spine[i].idref.as_str()) {
                Some(m) => {
                    out.push(m);
                },
                None => {},
            }
            i = i + 1;
        }
        assert(self.spine@.take(self.spine@.len() as int) =~= self.spine@);
        out
    }

    fn find_by_property(&self, nav: bool) -> (r: Option<&ManifestItem>)
        ensures
            same_item(r, find_item(
                self.manifest@,
                property_is(
                    if nav {
                        nav_token()
                    } else {
                        cover_image_token()
                    },
                ),
            )),
    {
        let ghost p = property_is(
            if nav {
                nav_token()
            } else {
                cover_image_token()
            },
        );
        let mut i: usize = 0;
        while i < self.manifest.len()
            invariant
                i <= self.manifest@.len(),
                p == property_is(
                    if nav {
                        nav_token()
                    } else {
                        cover_image_token()
                    },
                ),
                forall|j: int| 0 <= j < i ==> !p(#[trigger] self.manifest@[j]),
            decreases self.manifest@.len() - i,
        {
            let hit = if nav {
                self.manifest[i].is_nav()
            } else {
                self.manifest[i].is_cover_image()
            };
            if hit {
                proof {
                    lemma_first_match(self.manifest@, p, i as int);
                }
                return Some(&self.manifest[i]);
            }
            i = i + 1;
        }
        proof {
            lemma_first_match(self.manifest@, p, i as int);
        }
        None
    }

    /// The EPUB 3 navigation document, if one is declared via `properties="nav"`.
    pub fn nav_item(&self) -> (r: Option<&ManifestItem>)
        ensures
            same_item(r, find_item(self.manifest@, property_is(nav_token()))),
    {
        self.find_by_property(true)
    }

    /// The EPUB 2 NCX document, resolved from the spine `toc` attribute, falling
    /// back to any manifest item with the NCX media type.
    pub fn ncx_item(&self) -> (r: Option<&ManifestItem>)
        ensures
            same_item(r, ncx_item_of(*self)),
    {
        if let Some(toc) = &self.spine_toc {
            if let Some(item) = self.manifest_item(toc.as_str()) {
                return Some(item);
            }
        }
        proof {
            reveal_strlit("application/x-dtbncx+xml");
            assert("application/x-dtbncx+xml"@ =~= ncx_media_type());
            assert(ncx_item_of(*self) == find_item(self.manifest@, media_type_is(ncx_media_type())));
        }
        let ghost p = media_type_is(ncx_media_type());
        let mut i: usize = 0;
        while i < self.manifest.len()
            invariant
                i <= self.manifest@.len(),
                p == media_type_is(ncx_media_type()),
                "application/x-dtbncx+xml"@ == ncx_media_type(),
                ncx_item_of(*self) == find_item(self.manifest@, media_type_is(ncx_media_type())),
                forall|j: int| 0 <= j < i ==> !p(#[trigger] self.manifest@[j]),
            decreases self.manifest@.len() - i,
        {
            if string_eq_str(&self.manifest[i].media_type, "application/x-dtbncx+xml") {
                proof {
                    lemma_first_match(self.manifest@, p, i as int);
                }
                return Some(&self.manifest[i]);
            }
            i = i + 1;
        }
        proof {
            lemma_first_match(self.manifest@, p, i as int);
        }
        None
    }

    /// The cover image manifest item, if the book declares one.
    ///
    /// Prefers the EPUB 3 convention (`properties="cover-image"`), then falls
    /// back to the EPUB 2 convention (`<meta name="cover" content="ID"/>`
    /// pointing at a manifest item).
    pub fn cover_item(&self) -> (r: Option<&ManifestItem>)
        ensures
            same_item(r, cover_item_of(*self)),
    {
        if let Some(item) = self.find_by_property(false) {
            return Some(item);
        }
        if let Some(id) = &self.cover_id {
            return self.manifest_item(id.as_str());
        }
        None
    }
}

// ---------------------------------------------------------------------------
// Views
// ---------------------------------------------------------------------------

/// The view of an optional string.
pub open spec fn opt_str(o: Option<String>) -> Option<Seq<char>> {
    match o {
        Some(s) => Some(s@),
        None => None,
    }
}

/// The mathematical view of [`Metadata`].
pub struct MetadataView {
    pub title: Option<Seq<char>>,
    pub creators: Seq<Seq<char>>,
    pub languages: Seq<Seq<char>>,
    pub identifier: Option<Seq<char>>,
    pub publisher: Option<Seq<char>>,
    pub date: Option<Seq<char>>,
    pub description: Option<Seq<char>>,
    pub rights: Option<Seq<char>>,
}

/// The views of a list of strings.
pub open spec fn strings_view(v: Seq<String>) -> Seq<Seq<char>> {
    v.map_values(|s: String| s@)
}

impl View for Metadata {
    type V = MetadataView;

    open spec fn view(&self) -> MetadataView {
        MetadataView {
            title: opt_str(self.title),
            creators: strings_view(self.creators@),
            languages: strings_view(self.languages@),
            identifier: opt_str(self.identifier),
            publisher: opt_str(self.publisher),
            date: opt_str(self.date),
            description: opt_str(self.description),
            rights: opt_str(self.rights),
        }
    }
}

/// The mathematical view of a [`ManifestItem`].
pub struct ManifestItemView {
    pub id: Seq<char>,
    pub href: Seq<char>,
    pub media_type: Seq<char>,
    pub resolved_path: Seq<char>,
    pub properties: Option<Seq<char>>,
}

impl View for ManifestItem {
    type V = ManifestItemView;

    open spec fn view(&self) -> ManifestItemView {
        ManifestItemView {
            id: self.id@,
            href: self.href@,
            media_type: self.media_type@,
            resolved_path: self.resolved_path@,
            properties: opt_str(self.properties),
        }
    }
}

/// The mathematical view of a [`SpineItem`].
pub struct SpineItemView {
    pub idref: Seq<char>,
    pub linear: bool,
}

impl View for SpineItem {
    type V = SpineItemView;

    open spec fn view(&self) -> SpineItemView {
        SpineItemView { idref: self.idref@, linear: self.linear }
    }
}

/// The mathematical view of a [`Package`].
pub struct PackageView {
    pub metadata: MetadataView,
    pub manifest: Seq<ManifestItemView>,
    pub spine: Seq<SpineItemView>,
    pub spine_toc: Option<Seq<char>>,
    pub cover_id: Option<Seq<char>>,
    pub guide_cover_href: Option<Seq<char>>,
    pub opf_path: Seq<char>,
}

/// The views of manifest items.
pub open spec fn manifest_view(v: Seq<ManifestItem>) -> Seq<ManifestItemView> {
    v.map_values(|m: ManifestItem| m@)
}

/// The views of spine items.
pub open spec fn spine_view(v: Seq<SpineItem>) -> Seq<SpineItemView> {
    v.map_values(|m: SpineItem| m@)
}

impl View for Package {
    type V = PackageView;

    open spec fn view(&self) -> PackageView {
        PackageView {
            metadata: self.metadata@,
            manifest: manifest_view(self.manifest@),
            spine: spine_view(self.spine@),
            spine_toc: opt_str(self.spine_toc),
            cover_id: opt_str(self.cover_id),
            guide_cover_href: opt_str(self.guide_cover_href),
            opf_path: self.opf_path@,
        }
    }
}

/// A single entry in a table of contents.
#[derive(Debug, Clone)]
pub struct TocEntry {
    pub label: String,
    pub href: String,
    /// Nesting depth (0 = top level).
    pub depth: usize,
}

/// The mathematical view of a [`TocEntry`].
pub struct TocEntryView {
    pub label: Seq<char>,
    pub href: Seq<char>,
    pub depth: nat,
}

impl View for TocEntry {
    type V = TocEntryView;

    open spec fn view(&self) -> TocEntryView {
        TocEntryView { label: self.label@, href: self.href@, depth: self.depth as nat }
    }
}

/// The view of a list of table-of-contents entries.
pub open spec fn toc_view(v: Seq<TocEntry>) -> Seq<TocEntryView> {
    v.map_values(|e: TocEntry| e@)
}

} // verus!

verus! {

// ---------------------------------------------------------------------------
// Reading order
// ---------------------------------------------------------------------------

/// The reading order is read spine entry by spine entry: the items of two
/// runs of spine entries, one after the other, are the items of the first
/// run followed by those of the second.
pub proof fn lemma_spine_items_concat(
    manifest: Seq<ManifestItem>,
    s1: Seq<SpineItem>,
    s2: Seq<SpineItem>,
)
    ensures
        spine_items_of(manifest, s1 + s2) == spine_items_of(manifest, s1) + spine_items_of(
            manifest,
            s2,
        ),
    decreases s2.len(),
{
    if s2.len() == 0 {
        assert(s1 + s2 =~= s1);
        assert(spine_items_of(manifest, s1) + spine_items_of(manifest, s2) =~= spine_items_of(
            manifest,
            s1,
        ));
    } else {
        lemma_spine_items_concat(manifest, s1, s2.drop_last());
        assert((s1 + s2).drop_last() =~= s1 + s2.drop_last());
        assert((s1 + s2).last() == s2.last());
        let a = spine_items_of(manifest, s1);
        let b = spine_items_of(manifest, s2.drop_last());
        match find_item(manifest, id_is(s2.last().idref@)) {
            Some(m) => {
                assert((a + b).push(m) =~= a + b.push(m));
            },
            None => {},
        }
    }
}

/// A spine entry gives the first manifest item with its `idref` as id, and
/// nothing when no item has that id.
pub proof fn lemma_spine_entry_item(manifest: Seq<ManifestItem>, s: SpineItem)
    ensures
        ({
            let r = spine_items_of(manifest, seq![s]);
            &&& r.len() <= 1
            &&& r.len() == 1 <==> exists|k: int|
                0 <= k < manifest.len() && (#[trigger] manifest[k]).id@ == s.idref@
            &&& r.len() == 1 ==> exists|k: int|
                0 <= k < manifest.len() && r[0] == #[trigger] manifest[k] && manifest[k].id@
                    == s.idref@ && forall|j: int| 0 <= j < k ==> (#[trigger] manifest[j]).id@
                    != s.idref@
        }),
{
    assert(seq![s].drop_last() =~= Seq::<SpineItem>::empty());
    assert(seq![s].last() == s);
    lemma_first_match_bounds(manifest, id_is(s.idref@));
    let k = first_match(manifest, id_is(s.idref@));
    let r = spine_items_of(manifest, seq![s]);
    assert(spine_items_of(manifest, seq![s].drop_last()) == Seq::<ManifestItem>::empty());
    if k >= 0 {
        assert(find_item(manifest, id_is(s.idref@)) == Some(manifest[k]));
        assert(r =~= seq![manifest[k]]);
        assert(manifest[k].id@ == s.idref@);
        assert forall|j: int| 0 <= j < k implies (#[trigger] manifest[j]).id@ != s.idref@ by {
            if manifest[j].id@ == s.idref@ {
                assert(id_is(s.idref@)(manifest[j]));
                lemma_first_match_le(manifest, id_is(s.idref@), j);
            }
        }
        assert(r[0] == manifest[k]);
    } else {
        assert(find_item(manifest, id_is(s.idref@)) is None);
        assert(r.len() == 0);
        assert forall|k2: int| 0 <= k2 < manifest.len() implies (#[trigger] manifest[k2]).id@
            != s.idref@ by {
            assert(!id_is(s.idref@)(manifest[k2]));
        }
    }
}

proof fn lemma_first_match_le<T>(s: Seq<T>, p: spec_fn(T) -> bool, j: int)
    requires
        0 <= j < s.len(),
        p(s[j]),
    ensures
        0 <= first_match(s, p) <= j,
    decreases s.len(),
{
    if j < s.len() - 1 {
        assert(s.drop_last()[j] == s[j]);
        lemma_first_match_le(s.drop_last(), p, j);
    } else {
        lemma_first_match_bounds(s.drop_last(), p);
    }
}

} // verus!
