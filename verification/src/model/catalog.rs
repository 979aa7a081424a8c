//! The content catalog: every file of every component version, addressable
//! by coordinates, with computed output paths and site URLs. Walking the
//! content directories is the application's job; it hands each file to
//! [`ContentCatalog::insert`].

use vstd::prelude::*;

use crate::model::resource::{family_coordinate, family_publishable, Family, RefView, ResourceRef, opt_view};
use crate::model::versions::{law_version_order_antisymmetric, law_version_order_transitive, opt_str, version_before, version_rank};
use crate::text::{chars_eq, chars_of, copy_chars, ends_with_chars, has_prefix, join_chars, join_seq, owned, push_str, slice_vec, starts_with_chars, string_of, views, lemma_views_push, has_char, str_eq};

verus! {

/// The full coordinates of one cataloged file.
#[derive(Clone, Debug, Eq, Hash, PartialEq)]
pub struct Coords {
    /// Component name.
    pub component: String,
    /// Component version (`None` = versionless).
    pub version: Option<String>,
    /// Module name (`ROOT` for the root module).
    pub module: String,
    /// Resource family.
    pub family: Family,
    /// Family-relative source path, `/`-separated, with its extension.
    pub path: String,
}

/// The text of a file's coordinates.
pub struct CoordsView {
    pub component: Seq<char>,
    pub version: Option<Seq<char>>,
    pub module: Seq<char>,
    pub family: Family,
    pub path: Seq<char>,
}

impl View for Coords {
    type V = CoordsView;

    open spec fn view(&self) -> CoordsView {
        CoordsView {
            component: self.component@,
            version: opt_view(self.version),
            module: self.module@,
            family: self.family,
            path: self.path@,
        }
    }
}

/// Copies an optional string.
pub fn copy_opt(o: &Option<String>) -> (r: Option<String>)
    ensures
        opt_view(r) == opt_view(*o),
{
    match o {
        Some(s) => Some(owned(s.as_str())),
        None => None,
    }
}

/// Borrows an optional string as an optional slice.
pub fn opt_as_str(o: &Option<String>) -> (r: Option<&str>)
    ensures
        opt_str(r) == opt_view(*o),
{
    match o {
        Some(s) => Some(s.as_str()),
        None => None,
    }
}

/// Whether two optional strings hold the same text.
pub fn opt_eq(a: &Option<String>, b: &Option<String>) -> (r: bool)
    ensures
        r == (opt_view(*a) == opt_view(*b)),
{
    match (a, b) {
        (Some(x), Some(y)) => {
            let r = *x == *y;
            r
        },
        (None, None) => true,
        _ => false,
    }
}

/// The text `Coords`' `Display` prints: `version@component:module:family$path`
/// (`~` for a versionless coordinate).
pub open spec fn coords_text(c: CoordsView) -> Seq<char> {
    (match c.version {
        Some(v) => v,
        None => "~"@,
    }) + "@"@ + c.component + ":"@ + c.module + ":"@ + family_coordinate(c.family) + "$"@ + c.path
}

impl Coords {
    /// A copy of the coordinates.
    pub fn copy(&self) -> (r: Coords)
        ensures
            r@ == self@,
    {
        Coords {
            component: owned(self.component.as_str()),
            version: copy_opt(&self.version),
            module: owned(self.module.as_str()),
            family: self.family,
            path: owned(self.path.as_str()),
        }
    }

    /// Whether two coordinates are the same.
    pub fn same(&self, other: &Coords) -> (r: bool)
        ensures
            r == (self@ == other@),
    {
        self.component == other.component && opt_eq(&self.version, &other.version) && self.module
            == other.module && self.family == other.family && self.path == other.path
    }

    /// The coordinates as text: `version@component:module:family$path`.
    pub fn to_string(&self) -> (r: String)
        ensures
            r@ == coords_text(self@),
    {
        let mut out = String::new();
        match &self.version {
            Some(v) => push_str(&mut out, v.as_str()),
            None => push_str(&mut out, "~"),
        }
        push_str(&mut out, "@");
        push_str(&mut out, self.component.as_str());
        push_str(&mut out, ":");
        push_str(&mut out, self.module.as_str());
        push_str(&mut out, ":");
        push_str(&mut out, self.family.coordinate());
        push_str(&mut out, "$");
        push_str(&mut out, self.path.as_str());
        out
    }
}

/// One cataloged file.
#[derive(Clone, Debug)]
pub struct VirtualFile {
    /// The file's coordinates.
    pub coords: Coords,
    /// Filesystem path of the source.
    pub src_path: String,
    /// Site-root-relative output path/URL (no leading slash), for
    /// publishable families; `None` otherwise.
    pub url: Option<String>,
}

/// A YAML scalar written as an attribute value in a descriptor or
/// playbook.
#[derive(Clone, Debug)]
pub enum AttributeScalar {
    /// `~` or `null`.
    Null,
    /// `true` or `false`.
    Bool(bool),
    /// A string.
    Text(String),
    /// A number, as YAML prints it.
    Number(String),
    /// A sequence or mapping, which no attribute takes.
    Other,
}

/// The seed an attribute value gives: unset for `null` and `false`, the
/// empty value for `true`, the text of a string or number.
pub open spec fn attribute_seed_of(v: AttributeScalar) -> Option<Seq<char>> {
    match v {
        AttributeScalar::Null => None,
        AttributeScalar::Bool(b) => if b { Some(Seq::empty()) } else { None },
        AttributeScalar::Text(t) => Some(t@),
        AttributeScalar::Number(n) => Some(n@),
        AttributeScalar::Other => None,
    }
}

/// Stringifies an attribute value for seeding into the parser: `None`
/// (unset) for `null` and `false`, `""` for `true`.
pub fn attribute_value_string(value: &AttributeScalar) -> (r: Option<String>)
    ensures
        opt_view(r) == attribute_seed_of(*value),
{
    match value {
        AttributeScalar::Null => None,
        AttributeScalar::Bool(b) => if *b { Some(String::new()) } else { None },
        AttributeScalar::Text(t) => Some(owned(t.as_str())),
        AttributeScalar::Number(n) => Some(owned(n.as_str())),
        AttributeScalar::Other => None,
    }
}

/// Whether a descriptor's `prerelease` value marks the version a
/// prerelease: anything but absent, `null` or `false` does.
pub fn marks_prerelease(value: &Option<AttributeScalar>) -> (b: bool)
    ensures
        b == !(value is None || value == Some(AttributeScalar::Null) || value == Some(AttributeScalar::Bool(false))),
{
    match value {
        None => false,
        Some(AttributeScalar::Null) => false,
        Some(AttributeScalar::Bool(b)) => *b,
        Some(_) => true,
    }
}

/// The `asciidoc` block of a descriptor or playbook: attribute seeds,
/// `(name, Some(value))` to set and `(name, None)` to unset, in name order.
#[derive(Clone, Debug, Default)]
pub struct AsciiDocConfig {
    pub attributes: Vec<(String, Option<String>)>,
}

impl AsciiDocConfig {
    /// The attribute seeds this block contributes.
    pub fn attribute_seeds(&self) -> (r: Vec<(String, Option<String>)>)
        ensures
            r@.len() == self.attributes@.len(),
            forall|i: int| 0 <= i < r@.len() ==> r@[i].0@ == self.attributes@[i].0@ && opt_view(
                r@[i].1,
            ) == opt_view(#[trigger] self.attributes@[i].1),
    {
        let mut r: Vec<(String, Option<String>)> = Vec::new();
        let mut i: usize = 0;
        while i < self.attributes.len()
            invariant
                i <= self.attributes.len(),
                r@.len() == i,
                forall|k: int| 0 <= k < i ==> r@[k].0@ == self.attributes@[k].0@ && opt_view(
                    r@[k].1,
                ) == opt_view(#[trigger] self.attributes@[k].1),
            decreases self.attributes.len() - i,
        {
            let (name, value) = &self.attributes[i];
            r.push((owned(name.as_str()), copy_opt(value)));
            i += 1;
        }
        r
    }
}

/// A component version descriptor (`antora.yml`), as read by the
/// application.
#[derive(Clone, Debug)]
pub struct ComponentDescriptor {
    /// The component name coordinate.
    pub name: String,
    /// The version (`None` = versionless).
    pub version: Option<String>,
    /// Display/sort title. Falls back to `name` when absent.
    pub title: Option<String>,
    /// Presentation-only version label.
    pub display_version: Option<String>,
    /// Whether the descriptor marks the version prerelease (`prerelease:`
    /// set to anything but `false`/`null`).
    pub prerelease: bool,
    /// Ordered navigation file paths, relative to the source root.
    pub nav: Vec<String>,
    /// The start page resource ID.
    pub start_page: Option<String>,
    /// Component-scoped AsciiDoc configuration.
    pub asciidoc: AsciiDocConfig,
}

impl ComponentDescriptor {
    /// The display title (explicit `title`, else the component name).
    pub fn title(&self) -> (r: &str)
        ensures
            r@ == match self.title {
                Some(t) => t@,
                None => self.name@,
            },
    {
        match &self.title {
            Some(t) => t.as_str(),
            None => self.name.as_str(),
        }
    }

    /// The start page resource ID (explicit, else `ROOT:index.adoc`).
    pub fn start_page(&self) -> (r: &str)
        ensures
            r@ == match self.start_page {
                Some(t) => t@,
                None => "ROOT:index.adoc"@,
            },
    {
        match &self.start_page {
            Some(t) => t.as_str(),
            None => "ROOT:index.adoc",
        }
    }
}

/// One component version registered in the catalog.
#[derive(Clone, Debug)]
pub struct Component {
    /// The descriptor.
    pub desc: ComponentDescriptor,
    /// The content source root (the directory holding `antora.yml`).
    pub root: String,
}

impl Component {
    /// Site-wide attribute seeds contributed by this component's
    /// descriptor.
    pub fn attribute_seeds(&self) -> (r: Vec<(String, Option<String>)>)
        ensures
            r@.len() == self.desc.asciidoc.attributes@.len(),
            forall|i: int| 0 <= i < r@.len() ==> r@[i].0@ == self.desc.asciidoc.attributes@[i].0@
                && opt_view(r@[i].1) == opt_view(#[trigger] self.desc.asciidoc.attributes@[i].1),
    {
        self.desc.asciidoc.attribute_seeds()
    }

    /// Whether this component version is marked prerelease.
    pub fn is_prerelease(&self) -> (b: bool)
        ensures
            b == self.desc.prerelease,
    {
        self.desc.prerelease
    }
}

/// Errors from building the catalog.
#[derive(Debug)]
pub enum CatalogError {
    /// The source root has no `antora.yml`.
    MissingDescriptor(String),
    /// The descriptor failed to load.
    Descriptor(String),
    /// A directory walk failed.
    Io { path: String, message: String },
    /// Two files claimed the same resource coordinates.
    DuplicateResource(String),
}

impl CatalogError {
    /// The error's message.
    pub fn to_string(&self) -> (r: String)
        ensures
            r@ == match self {
                CatalogError::MissingDescriptor(p) => "content source "@ + p@ + " has no antora.yml"@,
                CatalogError::Descriptor(m) => m@,
                CatalogError::Io { path, message } => "cannot read "@ + path@ + ": "@ + message@,
                CatalogError::DuplicateResource(c) => "duplicate resource "@ + c@,
            },
    {
        let mut out = String::new();
        match self {
            CatalogError::MissingDescriptor(p) => {
                push_str(&mut out, "content source ");
                push_str(&mut out, p.as_str());
                push_str(&mut out, " has no antora.yml");
            },
            CatalogError::Descriptor(m) => push_str(&mut out, m.as_str()),
            CatalogError::Io { path, message } => {
                push_str(&mut out, "cannot read ");
                push_str(&mut out, path.as_str());
                push_str(&mut out, ": ");
                push_str(&mut out, message.as_str());
            },
            CatalogError::DuplicateResource(c) => {
                push_str(&mut out, "duplicate resource ");
                push_str(&mut out, c.as_str());
            },
        }
        out
    }
}

/// The URL segments of publishable coordinates: component (dropped for
/// `ROOT`), version (when versioned), module (dropped for `ROOT`), then the
/// page path with `.adoc` turned into `.html`, or the `_images` /
/// `_attachments` family segment and the path.
pub open spec fn url_segments(c: CoordsView) -> Seq<Seq<char>> {
    url_head(c) + url_tail(c)
}

/// The component, version, and module segments of a URL.
pub open spec fn url_head(c: CoordsView) -> Seq<Seq<char>> {
    let comp = if c.component == "ROOT"@ { Seq::empty() } else { seq![c.component] };
    let ver = match c.version {
        Some(v) => seq![v],
        None => Seq::empty(),
    };
    let module = if c.module == "ROOT"@ { Seq::empty() } else { seq![c.module] };
    comp + ver + module
}

/// The family-dependent final segments of a URL.
pub open spec fn url_tail(c: CoordsView) -> Seq<Seq<char>> {
    match c.family {
        Family::Page => seq![
            if c.path.len() >= ".adoc"@.len() && c.path.skip(c.path.len() - ".adoc"@.len()) == ".adoc"@ {
                c.path.take(c.path.len() - ".adoc"@.len()) + ".html"@
            } else {
                c.path
            },
        ],
        Family::Image => seq!["_images"@, c.path],
        _ => seq!["_attachments"@, c.path],
    }
}

/// The site URL of coordinates: `None` for unpublished families.
pub open spec fn url_of(c: CoordsView) -> Option<Seq<char>> {
    if family_publishable(c.family) {
        Some(join_seq(url_segments(c), "/"@))
    } else {
        None
    }
}

/// The site-root-relative URL for publishable coordinates, per Antora's
/// rules.
pub fn url_for(coords: &Coords) -> (r: Option<String>)
    ensures
        opt_view(r) == url_of(coords@),
{
    if !coords.family.is_publishable() {
        return None;
    }
    let mut segments: Vec<Vec<char>> = Vec::new();
    let ghost c = coords@;
    let root = chars_of("ROOT");
    let comp = chars_of(coords.component.as_str());
    if !chars_eq(comp.as_slice(), root.as_slice()) {
        proof { lemma_views_push(segments@, comp); }
        segments.push(comp);
    }
    match &coords.version {
        Some(v) => {
            let vc = chars_of(v.as_str());
            proof { lemma_views_push(segments@, vc); }
            segments.push(vc);
        },
        None => {},
    }
    let module = chars_of(coords.module.as_str());
    if !chars_eq(module.as_slice(), root.as_slice()) {
        proof { lemma_views_push(segments@, module); }
        segments.push(module);
    }
    let ghost head = views(segments@);
    assert(head =~= url_head(c));
    let path = chars_of(coords.path.as_str());
    match coords.family {
        Family::Page => {
            let adoc = chars_of(".adoc");
            let html = chars_of(".html");
            let seg = if ends_with_chars(path.as_slice(), adoc.as_slice()) {
                let mut stem = slice_vec(path.as_slice(), 0, path.len() - adoc.len());
                stem.extend_from_slice(html.as_slice());
                assert(path@.subrange(0, path@.len() - adoc@.len()) == path@.take(path@.len() - adoc@.len()));
                stem
            } else {
                path
            };
            assert(seg@ == url_tail(c)[0]);
            proof { lemma_views_push(segments@, seg); }
            segments.push(seg);
            assert(views(segments@) =~= head + url_tail(c));
        },
        Family::Image => {
            let fam = chars_of("_images");
            proof { lemma_views_push(segments@, fam); }
            segments.push(fam);
            proof { lemma_views_push(segments@, path); }
            segments.push(path);
            assert(views(segments@) =~= head + url_tail(c));
        },
        _ => {
            let fam = chars_of("_attachments");
            proof { lemma_views_push(segments@, fam); }
            segments.push(fam);
            proof { lemma_views_push(segments@, path); }
            segments.push(path);
            assert(views(segments@) =~= head + url_tail(c));
        },
    }
    let slash = chars_of("/");
    let joined = join_chars(&segments, slash.as_slice());
    Some(string_of(joined.as_slice()))
}

} // verus!

verus! {

/// The content catalog.
#[derive(Debug, Default)]
pub struct ContentCatalog {
    components: Vec<Component>,
    files: Vec<VirtualFile>,
}

/// The display rank of two components' versions.
pub open spec fn comp_rank(a: Component, b: Component) -> int {
    version_rank(opt_view(a.desc.version), opt_view(b.desc.version))
}

/// Whether `idx` lists the components named `name`, each once, in display
/// order (ties in scan order).
pub open spec fn sorted_versions(comps: Seq<Component>, name: Seq<char>, idx: Seq<usize>) -> bool {
    &&& forall|i: int| 0 <= i < idx.len() ==> idx[i] < comps.len() && comps[idx[i] as int].desc.name@ == name
    &&& forall|k: int| 0 <= k < comps.len() && comps[k].desc.name@ == name ==> idx.contains(k as usize)
    &&& forall|i: int, j: int| 0 <= i < j < idx.len() ==> idx[i] != idx[j]
    &&& forall|i: int, j: int|
        0 <= i < j < idx.len() ==> comp_rank(comps[idx[i] as int], comps[idx[j] as int]) < 0 || (comp_rank(
            comps[idx[i] as int],
            comps[idx[j] as int],
        ) == 0 && idx[i] < idx[j])
}

/// The component an index sequence lists, in order.
pub open spec fn pick(comps: Seq<Component>, idx: Seq<usize>) -> Seq<Component> {
    Seq::new(idx.len(), |i: int| comps[idx[i] as int])
}

/// The index of the first component that is not prerelease, or `-1`.
pub open spec fn first_release(vs: Seq<Component>) -> int
    decreases vs.len(),
{
    if vs.len() == 0 {
        -1
    } else if !vs[0].desc.prerelease {
        0
    } else if first_release(vs.drop_first()) < 0 {
        -1
    } else {
        first_release(vs.drop_first()) + 1
    }
}

/// The position of the latest version: the first non-prerelease, else
/// the first.
pub open spec fn latest_pos(vs: Seq<Component>) -> int {
    if first_release(vs) >= 0 { first_release(vs) } else { 0 }
}

/// The coordinates a reference names from `from`: omitted coordinates
/// default from the referencing file (a component without a version means
/// that component's latest version, given as `latest`), the family from
/// `default_family`, and a `./` path is relative to the referencing
/// file's directory.
pub open spec fn resolved_coords(
    r: RefView,
    from: CoordsView,
    default_family: Family,
    latest: Option<Seq<char>>,
) -> CoordsView {
    let component = match r.component {
        Some(c) => c,
        None => from.component,
    };
    let version = match r.version {
        Some(v) => Some(v),
        None => if r.component is Some { latest } else { from.version },
    };
    let module = match r.module {
        Some(m) => m,
        None => from.module,
    };
    let family = match r.family {
        Some(f) => f,
        None => default_family,
    };
    let path = if has_prefix(r.path, "./"@) {
        let rest = r.path.skip("./"@.len() as int);
        let slash = last_slash(from.path);
        if slash >= 0 {
            from.path.take(slash) + seq!['/'] + rest
        } else {
            rest
        }
    } else {
        r.path
    };
    CoordsView { component, version, module, family, path }
}

/// The component a reference names from `from`.
pub open spec fn ref_component(r: RefView, from: CoordsView) -> Seq<char> {
    match r.component {
        Some(c) => c,
        None => from.component,
    }
}

/// The last index of `/`, or `-1`.
pub open spec fn last_slash(s: Seq<char>) -> int
    decreases s.len(),
{
    if s.len() == 0 {
        -1
    } else if s.last() == '/' {
        s.len() - 1
    } else {
        last_slash(s.drop_last())
    }
}

fn last_slash_exec(s: &[char]) -> (r: Option<usize>)
    ensures
        match r {
            Some(i) => i as int == last_slash(s@) && i < s.len(),
            None => last_slash(s@) == -1,
        },
{
    let mut i = s.len();
    assert(s@.take(s.len() as int) == s@);
    while i > 0
        invariant
            i <= s.len(),
            last_slash(s@) == last_slash(s@.take(i as int)),
        decreases i,
    {
        assert(s@.take(i as int).drop_last() == s@.take(i - 1));
        if s[i - 1] == '/' {
            return Some(i - 1);
        }
        i -= 1;
    }
    None
}

impl ContentCatalog {
    /// The registered component versions, in scan order.
    pub closed spec fn component_seq(&self) -> Seq<Component> {
        self.components@
    }

    /// The cataloged files, in insertion order.
    pub closed spec fn file_seq(&self) -> Seq<VirtualFile> {
        self.files@
    }

    /// Creates an empty catalog.
    pub fn new() -> (r: Self)
        ensures
            r.component_seq().len() == 0,
            r.file_seq().len() == 0,
    {
        ContentCatalog { components: Vec::new(), files: Vec::new() }
    }

    /// Adds one file at `coords`, computing its URL; fails when the
    /// coordinates are already taken.
    pub fn insert(&mut self, coords: Coords, src_path: String) -> (r: Result<(), CatalogError>)
        ensures
            r is Err <==> exists|i: int|
                0 <= i < old(self).file_seq().len() && old(self).file_seq()[i].coords@ == coords@,
            r is Err ==> (r matches Err(CatalogError::DuplicateResource(t)) && t@ == coords_text(coords@))
                && final(self).file_seq() == old(self).file_seq(),
            r is Ok ==> final(self).file_seq().len() == old(self).file_seq().len() + 1
                && final(self).file_seq().drop_last() == old(self).file_seq()
                && final(self).file_seq().last().coords@ == coords@
                && final(self).file_seq().last().src_path@ == src_path@
                && opt_view(final(self).file_seq().last().url) == url_of(coords@),
            final(self).component_seq() == old(self).component_seq(),
    {
        let mut i: usize = 0;
        while i < self.files.len()
            invariant
                i <= self.files.len(),
                forall|k: int| 0 <= k < i ==> self.files@[k].coords@ != coords@,
            decreases self.files.len() - i,
        {
            if self.files[i].coords.same(&coords) {
                return Err(CatalogError::DuplicateResource(coords.to_string()));
            }
            i += 1;
        }
        let url = url_for(&coords);
        self.files.push(VirtualFile { coords, src_path, url });
        Ok(())
    }

    /// Registers a scanned component version, returning its
    /// `(name, version)` key.
    pub fn add_component(&mut self, component: Component) -> (r: (String, Option<String>))
        ensures
            final(self).component_seq() == old(self).component_seq().push(component),
            final(self).file_seq() == old(self).file_seq(),
            r.0@ == component.desc.name@,
            opt_view(r.1) == opt_view(component.desc.version),
    {
        let key = (owned(component.desc.name.as_str()), copy_opt(&component.desc.version));
        self.components.push(component);
        key
    }

    /// The registered component versions, in scan order.
    pub fn components(&self) -> (r: &[Component])
        ensures
            r@ == self.component_seq(),
    {
        self.components.as_slice()
    }

    /// All cataloged files.
    pub fn files(&self) -> (r: &[VirtualFile])
        ensures
            r@ == self.file_seq(),
    {
        self.files.as_slice()
    }

    /// All files of one family, in catalog order.
    pub fn files_of(&self, family: Family) -> (r: Vec<&VirtualFile>)
        ensures
            r@.map_values(|f: &VirtualFile| *f) == self.file_seq().filter(|f: VirtualFile| f.coords.family == family),
    {
        let mut r: Vec<&VirtualFile> = Vec::new();
        let mut i: usize = 0;
        while i < self.files.len()
            invariant
                i <= self.files.len(),
                r@.map_values(|f: &VirtualFile| *f) == self.files@.take(i as int).filter(|f: VirtualFile| f.coords.family == family),
            decreases self.files.len() - i,
        {
            let ghost before = r@.map_values(|f: &VirtualFile| *f);
            assert(self.files@.take(i + 1).drop_last() == self.files@.take(i as int));
            reveal_with_fuel(Seq::filter, 1);
            if self.files[i].coords.family == family {
                r.push(&self.files[i]);
                assert(r@.map_values(|f: &VirtualFile| *f) =~= before.push(self.files@[i as int]));
            }
            i += 1;
        }
        assert(self.files@.take(self.files.len() as int) == self.files@);
        r
    }

    /// Looks a file up by exact coordinates.
    pub fn get(&self, coords: &Coords) -> (r: Option<&VirtualFile>)
        ensures
            match r {
                Some(f) => exists|i: int|
                    0 <= i < self.file_seq().len() && self.file_seq()[i] == *f && forall|k: int|
                        0 <= k < i ==> self.file_seq()[k].coords@ != coords@,
                None => true,
            },
            r matches Some(f) ==> f.coords@ == coords@,
            r is None <==> forall|i: int|
                0 <= i < self.file_seq().len() ==> self.file_seq()[i].coords@ != coords@,
    {
        let mut i: usize = 0;
        while i < self.files.len()
            invariant
                i <= self.files.len(),
                forall|k: int| 0 <= k < i ==> self.files@[k].coords@ != coords@,
            decreases self.files.len() - i,
        {
            if self.files[i].coords.same(coords) {
                return Some(&self.files[i]);
            }
            i += 1;
        }
        None
    }

    /// The indices of one component's versions, in display order.
    fn version_indices(&self, name: &str) -> (r: Vec<usize>)
        ensures
            sorted_versions(self.components@, name@, r@),
    {
        let mut r: Vec<usize> = Vec::new();
        let mut i: usize = 0;
        while i < self.components.len()
            invariant
                i <= self.components.len(),
                forall|k: int| 0 <= k < r@.len() ==> r@[k] < i,
                forall|k: int| 0 <= k < r@.len() ==> r@[k] < self.components@.len() && self.components@[r@[k] as int].desc.name@ == name@,
                forall|k: int| 0 <= k < i && self.components@[k].desc.name@ == name@ ==> r@.contains(k as usize),
                r@.len() <= i,
                forall|a: int, b: int| 0 <= a < b < r@.len() ==> r@[a] != r@[b],
                forall|a: int, b: int|
                    0 <= a < b < r@.len() ==> comp_rank(self.components@[r@[a] as int], self.components@[r@[b] as int]) < 0
                        || (comp_rank(self.components@[r@[a] as int], self.components@[r@[b] as int]) == 0 && r@[a] < r@[b]),
            decreases self.components.len() - i,
        {
            if str_eq(self.components[i].desc.name.as_str(), name) {
                let ghost comps = self.components@;
                let ghost x = comps[i as int];
                let ghost old_r = r@;
                // Find the insertion point: after every version ranking no
                // later than this one.
                let mut k = r.len();
                while k > 0 && version_before(
                    opt_as_str(&self.components[i].desc.version),
                    opt_as_str(&self.components[r[k - 1]].desc.version),
                )
                    invariant
                        k <= r.len(),
                        i < self.components.len(),
                        comps == self.components@,
                        x == comps[i as int],
                        forall|m: int| 0 <= m < r@.len() ==> r@[m] < i,
                        forall|m: int| k <= m < r@.len() ==> comp_rank(x, comps[r@[m] as int]) < 0,
                    decreases k,
                {
                    k -= 1;
                }
                proof {
                    if k > 0 {
                        law_version_order_antisymmetric(opt_view(x.desc.version), opt_view(comps[r@[k - 1] as int].desc.version));
                        assert(comp_rank(comps[r@[k - 1] as int], x) <= 0);
                        assert forall|a: int| 0 <= a < k implies comp_rank(comps[r@[a] as int], x) <= 0 by {
                            if a < k - 1 {
                                assert(comp_rank(self.components@[r@[a] as int], self.components@[r@[k - 1] as int]) <= 0);
                                law_version_order_transitive(
                                    opt_view(comps[r@[a] as int].desc.version),
                                    opt_view(comps[r@[k - 1] as int].desc.version),
                                    opt_view(x.desc.version),
                                );
                            }
                        }
                    }
                }
                r.insert(k, i);
                proof {
                    assert(r@ == old_r.insert(k as int, i));
                    assert forall|m: int| 0 <= m < old_r.len() implies r@.contains(#[trigger] old_r[m]) by {
                        if m < k {
                            assert(r@[m] == old_r[m]);
                        } else {
                            assert(r@[m + 1] == old_r[m]);
                        }
                    }
                    assert(r@[k as int] == i);
                }
            }
            i += 1;
        }
        r
    }

    /// The versions of one component, highest (per the display order)
    /// first; versions that rank equal keep their scan order.
    pub fn versions_of(&self, name: &str) -> (r: Vec<&Component>)
        ensures
            exists|idx: Seq<usize>|
                #[trigger] sorted_versions(self.component_seq(), name@, idx) && r@.map_values(|c: &Component| *c)
                    == pick(self.component_seq(), idx),
    {
        let idx = self.version_indices(name);
        let mut r: Vec<&Component> = Vec::new();
        let mut i: usize = 0;
        while i < idx.len()
            invariant
                i <= idx.len(),
                sorted_versions(self.components@, name@, idx@),
                r@.map_values(|c: &Component| *c) == pick(self.components@, idx@.take(i as int)),
            decreases idx.len() - i,
        {
            let ghost before = r@.map_values(|c: &Component| *c);
            let c = &self.components[idx[i]];
            r.push(c);
            assert(r@.map_values(|c: &Component| *c) =~= before.push(*c));
            i += 1;
            assert(pick(self.components@, idx@.take(i as int)) =~= pick(self.components@, idx@.take(i - 1)).push(*c));
        }
        assert(idx@.take(idx.len() as int) == idx@);
        assert(sorted_versions(self.component_seq(), name@, idx@) && r@.map_values(|c: &Component| *c) == pick(self.component_seq(), idx@));
        r
    }

    /// The latest version of a component: the first non-prerelease in
    /// display order, else the first prerelease; `None` for an unknown
    /// component.
    pub fn latest_of(&self, name: &str) -> (r: Option<&Component>)
        ensures
            exists|idx: Seq<usize>|
                #[trigger] sorted_versions(self.component_seq(), name@, idx) && (idx.len() == 0 ==> r is None) && (
                idx.len() > 0 ==> (r matches Some(c) && *c == pick(self.component_seq(), idx)[latest_pos(
                    pick(self.component_seq(), idx),
                )])),
            latest_post(self.component_seq(), name@, match r {
                Some(c) => Some(*c),
                None => None,
            }),
    {
        let idx = self.version_indices(name);
        let r = self.latest_among(&idx);
        assert(sorted_versions(self.component_seq(), name@, idx@));
        assert(latest_post(self.component_seq(), name@, match r {
            Some(c) => Some(*c),
            None => None,
        }));
        r
    }

    /// The latest of the listed component versions.
    fn latest_among(&self, idx: &Vec<usize>) -> (r: Option<&Component>)
        requires
            forall|i: int| 0 <= i < idx@.len() ==> idx@[i] < self.components@.len(),
        ensures
            idx@.len() == 0 ==> r is None,
            idx@.len() > 0 ==> (r matches Some(c) && *c == pick(self.components@, idx@)[latest_pos(
                pick(self.components@, idx@),
            )]),
    {
        let ghost vs = pick(self.components@, idx@);
        if idx.len() == 0 {
            return None;
        }
        let mut i: usize = 0;
        assert(vs.skip(0) == vs);
        while i < idx.len()
            invariant
                i <= idx.len(),
                idx.len() > 0,
                vs == pick(self.components@, idx@),
                forall|i: int| 0 <= i < idx@.len() ==> idx@[i] < self.components@.len(),
                first_release(vs) == if first_release(vs.skip(i as int)) < 0 {
                    -1
                } else {
                    first_release(vs.skip(i as int)) + i
                },
            decreases idx.len() - i,
        {
            assert(vs.skip(i as int).drop_first() == vs.skip(i + 1));
            assert(vs.skip(i as int)[0] == vs[i as int]);
            if !self.components[idx[i]].desc.prerelease {
                assert(latest_pos(vs) == i);
                return Some(&self.components[idx[i]]);
            }
            i += 1;
        }
        assert(latest_pos(vs) == 0);
        Some(&self.components[idx[0]])
    }

    /// Every version of the resource at `coords`: each of the component's
    /// versions, highest first, paired with that version's file at the same
    /// coordinates when it exists.
    pub fn versions_of_resource(&self, coords: &Coords) -> (r: Vec<(&Component, Option<&VirtualFile>)>)
        ensures
            exists|idx: Seq<usize>|
                #[trigger] sorted_versions(self.component_seq(), coords.component@, idx) && r@.len() == idx.len()
                    && forall|i: int|
                    0 <= i < idx.len() ==> {
                        let comp = self.component_seq()[idx[i] as int];
                        let want = CoordsView { version: opt_view(comp.desc.version), ..coords@ };
                        &&& *(#[trigger] r@[i]).0 == comp
                        &&& (r@[i].1 is None <==> forall|k: int|
                            0 <= k < self.file_seq().len() ==> self.file_seq()[k].coords@ != want)
                        &&& (r@[i].1 matches Some(f) ==> f.coords@ == want)
                    },
    {
        let idx = self.version_indices(coords.component.as_str());
        let mut r: Vec<(&Component, Option<&VirtualFile>)> = Vec::new();
        let mut i: usize = 0;
        while i < idx.len()
            invariant
                i <= idx.len(),
                sorted_versions(self.components@, coords.component@, idx@),
                r@.len() == i,
                forall|j: int|
                    0 <= j < i ==> {
                        let comp = self.components@[idx@[j] as int];
                        let want = CoordsView { version: opt_view(comp.desc.version), ..coords@ };
                        &&& *(#[trigger] r@[j]).0 == comp
                        &&& (r@[j].1 is None <==> forall|k: int|
                            0 <= k < self.files@.len() ==> self.files@[k].coords@ != want)
                        &&& (r@[j].1 matches Some(f) ==> f.coords@ == want)
                    },
            decreases idx.len() - i,
        {
            let component = &self.components[idx[i]];
            let mut candidate = coords.copy();
            candidate.version = copy_opt(&component.desc.version);
            let file = self.get(&candidate);
            r.push((component, file));
            i += 1;
        }
        assert(sorted_versions(self.component_seq(), coords.component@, idx@));
        r
    }

    /// Resolves a resource reference against the catalog, defaulting the
    /// omitted coordinates from `from` (the referencing file) and the
    /// family from `default_family`. A component-qualified reference
    /// without a version names that component's latest version; a path
    /// starting with `./` resolves relative to the referencing file's
    /// directory.
    pub fn resolve(&self, reference: &ResourceRef, from: &Coords, default_family: Family) -> (r: Option<&VirtualFile>)
        ensures
            exists|idx: Seq<usize>|
                #[trigger] sorted_versions(self.component_seq(), ref_component(reference@, from@), idx) && {
                    let needs_latest = reference.version is None && reference.component is Some;
                    let latest = if idx.len() > 0 {
                        opt_view(pick(self.component_seq(), idx)[latest_pos(pick(self.component_seq(), idx))].desc.version)
                    } else {
                        None
                    };
                    let want = resolved_coords(reference@, from@, default_family, latest);
                    if needs_latest && idx.len() == 0 {
                        r is None
                    } else {
                        &&& (r is None <==> forall|k: int|
                            0 <= k < self.file_seq().len() ==> self.file_seq()[k].coords@ != want)
                        &&& (r matches Some(f) ==> f.coords@ == want)
                    }
                },
            resolve_post(self.component_seq(), self.file_seq(), reference@, from@, default_family, match r {
                Some(f) => Some(*f),
                None => None,
            }),
    {
        let family = match reference.family {
            Some(f) => f,
            None => default_family,
        };
        let component = match &reference.component {
            Some(c) => owned(c.as_str()),
            None => owned(from.component.as_str()),
        };
        let idx = self.version_indices(component.as_str());
        let ghost comps = self.components@;
        let ghost latest = if idx@.len() > 0 {
            opt_view(pick(comps, idx@)[latest_pos(pick(comps, idx@))].desc.version)
        } else {
            None
        };
        let version = match &reference.version {
            Some(v) => Some(owned(v.as_str())),
            None => if reference.component.is_some() {
                match self.latest_among(&idx) {
                    Some(c) => copy_opt(&c.desc.version),
                    None => {
                        assert(component@ == ref_component(reference@, from@));
                        assert(sorted_versions(self.component_seq(), ref_component(reference@, from@), idx@));
                        assert(resolve_post(self.component_seq(), self.file_seq(), reference@, from@, default_family, None));
                        return None;
                    },
                }
            } else {
                copy_opt(&from.version)
            },
        };
        let module = match &reference.module {
            Some(m) => owned(m.as_str()),
            None => owned(from.module.as_str()),
        };
        let rp = chars_of(reference.path.as_str());
        let dot = chars_of("./");
        let path = if starts_with_chars(rp.as_slice(), dot.as_slice()) {
            let rest = slice_vec(rp.as_slice(), dot.len(), rp.len());
            let fp = chars_of(from.path.as_str());
            match last_slash_exec(fp.as_slice()) {
                Some(slash) => {
                    let mut p = slice_vec(fp.as_slice(), 0, slash);
                    p.push('/');
                    p.extend_from_slice(rest.as_slice());
                    string_of(p.as_slice())
                },
                None => string_of(rest.as_slice()),
            }
        } else {
            owned(reference.path.as_str())
        };
        let want = Coords { component, version, module, family, path };
        assert(want.component@ == ref_component(reference@, from@));
        let ghost spec_want = resolved_coords(reference@, from@, default_family, latest);
        assert(want.component@ == spec_want.component);
        assert(opt_view(want.version) == spec_want.version);
        assert(want.module@ == spec_want.module);
        assert(want.family == spec_want.family);
        assert(want.path@ == spec_want.path);
        assert(want@ == spec_want);
        assert(sorted_versions(self.component_seq(), ref_component(reference@, from@), idx@));
        let r = self.get(&want);
        assert(resolve_post(self.component_seq(), self.file_seq(), reference@, from@, default_family, match r {
            Some(f) => Some(*f),
            None => None,
        }));
        r
    }
}

/// The file name of a family-relative path: what follows its last `/`.
pub open spec fn base_name(rel: Seq<char>) -> Seq<char>
    decreases rel.len(),
{
    if rel.len() == 0 || rel.last() == '/' {
        Seq::empty()
    } else {
        base_name(rel.drop_last()).push(rel.last())
    }
}

/// Whether a scanned file joins the catalog: dotfiles never do, and
/// files without an extension only in partials and examples.
pub open spec fn catalogs_spec(rel: Seq<char>, family: Family) -> bool {
    let base = base_name(rel);
    !(base.len() > 0 && base[0] == '.') && (base.contains('.') || family == Family::Partial || family
        == Family::Example)
}

/// Whether a file found under a family directory (at `rel` within it)
/// joins the catalog.
pub fn catalogs_file(rel: &str, family: Family) -> (b: bool)
    ensures
        b == catalogs_spec(rel@, family),
{
    let r = chars_of(rel);
    let mut start: usize = r.len();
    assert(r@.take(r.len() as int) == r@);
    assert(base_name(r@) =~= base_name(r@.take(start as int)) + r@.subrange(start as int, r.len() as int));
    while start > 0 && r[start - 1] != '/'
        invariant
            start <= r.len(),
            base_name(r@) == base_name(r@.take(start as int)) + r@.subrange(start as int, r.len() as int),
        decreases start,
    {
        let ghost t = r@.take(start as int);
        assert(t.drop_last() == r@.take(start - 1));
        assert(r@.subrange(start - 1, r.len() as int) == seq![t.last()] + r@.subrange(start as int, r.len() as int));
        start -= 1;
    }
    assert(base_name(r@.take(start as int)) == Seq::<char>::empty());
    let base = slice_vec(r.as_slice(), start, r.len());
    assert(base@ =~= base_name(r@));
    if base.len() > 0 && base[0] == '.' {
        return false;
    }
    crate::text::has_char(base.as_slice(), '.') || family == Family::Partial || family == Family::Example
}

/// The path components of a relative `/`-separated path, as
/// `Path::components` reads them: empty pieces (repeated separators)
/// and `.` pieces past the first are dropped.
pub open spec fn kept_pieces(pieces: Seq<Seq<char>>) -> Seq<Seq<char>>
    decreases pieces.len(),
{
    if pieces.len() == 0 {
        Seq::empty()
    } else {
        let p = pieces.last();
        let i = pieces.len() - 1;
        if p.len() == 0 || (p == seq!['.'] && i > 0) {
            kept_pieces(pieces.drop_last())
        } else {
            kept_pieces(pieces.drop_last()).push(p)
        }
    }
}

/// The module of a navigation file, from its standard location
/// `modules/<module>/…`; `ROOT` anywhere else.
pub open spec fn nav_module_of(nav_rel: Seq<char>) -> Seq<char> {
    let comps = kept_pieces(crate::text::split_seq(nav_rel, '/'));
    if nav_rel.len() > 0 && nav_rel[0] == '/' {
        "ROOT"@
    } else if comps.len() >= 2 && comps[0] == "modules"@ {
        comps[1]
    } else {
        "ROOT"@
    }
}

/// The module a navigation file belongs to.
pub fn nav_module(nav_rel: &str) -> (r: String)
    ensures
        r@ == nav_module_of(nav_rel@),
{
    let s = chars_of(nav_rel);
    if s.len() > 0 && s[0] == '/' {
        return owned("ROOT");
    }
    let pieces = crate::text::split_chars(s.as_slice(), '/');
    let ghost pv = crate::text::views(pieces@);
    let mut kept: Vec<Vec<char>> = Vec::new();
    let mut i: usize = 0;
    while i < pieces.len()
        invariant
            i <= pieces@.len(),
            pv == crate::text::views(pieces@),
            crate::text::views(kept@) == kept_pieces(pv.take(i as int)),
        decreases pieces.len() - i,
    {
        assert(pv.take(i + 1).drop_last() == pv.take(i as int));
        assert(pv.take(i + 1).last() == pieces@[i as int]@);
        let p = &pieces[i];
        let dot = p.len() == 1 && p[0] == '.';
        if p.len() == 0 || (dot && i > 0) {
            assert(p@.len() == 1 && p@[0] == '.' ==> p@ =~= seq!['.']);
        } else {
            assert(p@ == seq!['.'] ==> dot);
            let ghost before = crate::text::views(kept@);
            kept.push(crate::text::copy_chars(p.as_slice()));
            assert(crate::text::views(kept@) =~= before.push(pv[i as int]));
        }
        i += 1;
    }
    assert(pv.take(pieces@.len() as int) == pv);
    let modules = chars_of("modules");
    if kept.len() >= 2 && crate::text::chars_eq(kept[0].as_slice(), modules.as_slice()) {
        string_of(kept[1].as_slice())
    } else {
        owned("ROOT")
    }
}

} // verus!

verus! {

/// The latest version of a component is its first release in display
/// order: when any version of the component is not a prerelease, the one
/// `latest_of` returns is not, and every version shown before it is a
/// prerelease; only when all are prereleases is it the first shown.
pub proof fn law_latest_is_first_release(comps: Seq<Component>, name: Seq<char>, idx: Seq<usize>, c: Component)
    requires
        comps.len() <= usize::MAX,
        sorted_versions(comps, name, idx),
        idx.len() > 0,
        c == pick(comps, idx)[latest_pos(pick(comps, idx))],
    ensures
        c.desc.name@ == name,
        (exists|k: int| 0 <= k < comps.len() && comps[k].desc.name@ == name && !#[trigger] comps[k].desc.prerelease) ==> {
            &&& !c.desc.prerelease
            &&& exists|p: int|
                0 <= p < idx.len() && comps[idx[p] as int] == c && forall|q: int| 0 <= q < p ==> (#[trigger] comps[idx[q] as int]).desc.prerelease
        },
        (forall|k: int| 0 <= k < comps.len() && comps[k].desc.name@ == name ==> #[trigger] comps[k].desc.prerelease) ==> c
            == comps[idx[0] as int],
{
    let vs = pick(comps, idx);
    lemma_first_release(vs);
    let p = latest_pos(vs);
    assert(0 <= p < vs.len());
    assert(c == comps[idx[p] as int]);
    if exists|k: int| 0 <= k < comps.len() && comps[k].desc.name@ == name && !#[trigger] comps[k].desc.prerelease {
        let k = choose|k: int| 0 <= k < comps.len() && comps[k].desc.name@ == name && !#[trigger] comps[k].desc.prerelease;
        assert(idx.contains(k as usize));
        let w = choose|w: int| 0 <= w < idx.len() && idx[w] == k as usize;
        assert(vs[w] == comps[idx[w] as int]);
        assert(idx[w] as int == k);
        assert(!vs[w].desc.prerelease);
        assert(first_release(vs) >= 0);
        assert forall|q: int| 0 <= q < p implies (#[trigger] comps[idx[q] as int]).desc.prerelease by {
            assert(vs[q] == comps[idx[q] as int]);
        }
    } else {
        if first_release(vs) >= 0 {
            let f = first_release(vs);
            assert(!vs[f].desc.prerelease);
            assert(comps[idx[f] as int].desc.name@ == name);
        }
    }
}

/// `first_release` finds the first non-prerelease, or reports there is
/// none.
proof fn lemma_first_release(vs: Seq<Component>)
    ensures
        -1 <= first_release(vs) < vs.len(),
        first_release(vs) >= 0 ==> !vs[first_release(vs)].desc.prerelease,
        first_release(vs) >= 0 ==> forall|q: int| 0 <= q < first_release(vs) ==> #[trigger] vs[q].desc.prerelease,
        first_release(vs) < 0 ==> forall|q: int| 0 <= q < vs.len() ==> #[trigger] vs[q].desc.prerelease,
    decreases vs.len(),
{
    if vs.len() > 0 {
        let rest = vs.drop_first();
        lemma_first_release(rest);
        if vs[0].desc.prerelease {
            if first_release(rest) >= 0 {
                assert forall|q: int| 0 <= q < first_release(vs) implies #[trigger] vs[q].desc.prerelease by {
                    if q > 0 {
                        assert(vs[q] == rest[q - 1]);
                    }
                }
                assert(vs[first_release(vs)] == rest[first_release(rest)]);
            } else {
                assert forall|q: int| 0 <= q < vs.len() implies #[trigger] vs[q].desc.prerelease by {
                    if q > 0 {
                        assert(vs[q] == rest[q - 1]);
                    }
                }
            }
        }
    }
}


/// What `resolve` returns: the file at the coordinates the reference names
/// from `from`, if the catalog holds one.
pub open spec fn resolve_post(
    comps: Seq<Component>,
    files: Seq<VirtualFile>,
    reference: RefView,
    from: CoordsView,
    default_family: Family,
    r: Option<VirtualFile>,
) -> bool {
    exists|idx: Seq<usize>|
        #[trigger] sorted_versions(comps, ref_component(reference, from), idx) && {
            let needs_latest = reference.version is None && reference.component is Some;
            let latest = if idx.len() > 0 {
                opt_view(pick(comps, idx)[latest_pos(pick(comps, idx))].desc.version)
            } else {
                None
            };
            let want = resolved_coords(reference, from, default_family, latest);
            if needs_latest && idx.len() == 0 {
                r is None
            } else {
                &&& (r is None <==> forall|k: int| 0 <= k < files.len() ==> files[k].coords@ != want)
                &&& (r matches Some(f) ==> f.coords@ == want)
            }
        }
}

/// What `latest_of` returns.
pub open spec fn latest_post(comps: Seq<Component>, name: Seq<char>, r: Option<Component>) -> bool {
    exists|idx: Seq<usize>|
        #[trigger] sorted_versions(comps, name, idx) && (idx.len() == 0 ==> r is None) && (idx.len() > 0 ==> (r
            matches Some(c) && c == pick(comps, idx)[latest_pos(pick(comps, idx))]))
}

/// Whether component `x` is shown before component `y`.
pub open spec fn shown_before(comps: Seq<Component>, x: usize, y: usize) -> bool {
    comp_rank(comps[x as int], comps[y as int]) < 0 || (comp_rank(comps[x as int], comps[y as int]) == 0 && x < y)
}

/// Two components are never each shown before the other.
proof fn lemma_shown_before_asym(comps: Seq<Component>, x: usize, y: usize)
    ensures
        !(shown_before(comps, x, y) && shown_before(comps, y, x)),
{
    crate::model::versions::law_version_order_antisymmetric(
        opt_view(comps[x as int].desc.version),
        opt_view(comps[y as int].desc.version),
    );
}

/// Two distinct lists of the same indices, each in display order, are the
/// same list.
proof fn lemma_sorted_unique(comps: Seq<Component>, a: Seq<usize>, b: Seq<usize>)
    requires
        forall|x: usize| a.contains(x) <==> b.contains(x),
        forall|i: int, j: int| 0 <= i < j < a.len() ==> a[i] != a[j],
        forall|i: int, j: int| 0 <= i < j < b.len() ==> b[i] != b[j],
        forall|i: int, j: int| 0 <= i < j < a.len() ==> shown_before(comps, #[trigger] a[i], #[trigger] a[j]),
        forall|i: int, j: int| 0 <= i < j < b.len() ==> shown_before(comps, #[trigger] b[i], #[trigger] b[j]),
    ensures
        a == b,
    decreases a.len(),
{
    if a.len() == 0 {
        if b.len() > 0 {
            assert(b.contains(b[0]));
        }
        assert(b =~= a);
    } else {
        assert(a.contains(a[0]));
        assert(b.len() > 0);
        let p = choose|p: int| 0 <= p < b.len() && b[p] == a[0];
        assert(b.contains(b[0]));
        let q = choose|q: int| 0 <= q < a.len() && a[q] == b[0];
        if p > 0 {
            assert(shown_before(comps, b[0], b[p]));
            assert(q != 0);
            assert(shown_before(comps, a[0], a[q]));
            lemma_shown_before_asym(comps, a[0], b[0]);
            assert(false);
        }
        let a1 = a.drop_first();
        let b1 = b.drop_first();
        assert forall|x: usize| a1.contains(x) <==> b1.contains(x) by {
            if a1.contains(x) {
                let i = choose|i: int| 0 <= i < a1.len() && a1[i] == x;
                assert(a[i + 1] == x);
                assert(x != a[0]);
                assert(a.contains(x));
                let j = choose|j: int| 0 <= j < b.len() && b[j] == x;
                assert(j != 0);
                assert(b1[j - 1] == x);
            }
            if b1.contains(x) {
                let i = choose|i: int| 0 <= i < b1.len() && b1[i] == x;
                assert(b[i + 1] == x);
                assert(x != b[0]);
                assert(b.contains(x));
                let j = choose|j: int| 0 <= j < a.len() && a[j] == x;
                assert(j != 0);
                assert(a1[j - 1] == x);
            }
        }
        assert forall|i: int, j: int| 0 <= i < j < a1.len() implies shown_before(comps, #[trigger] a1[i], #[trigger] a1[j]) by {
            assert(a1[i] == a[i + 1] && a1[j] == a[j + 1]);
        }
        assert forall|i: int, j: int| 0 <= i < j < b1.len() implies shown_before(comps, #[trigger] b1[i], #[trigger] b1[j]) by {
            assert(b1[i] == b[i + 1] && b1[j] == b[j + 1]);
        }
        lemma_sorted_unique(comps, a1, b1);
        assert(b[0] == a[0]);
        assert(a.len() == b.len());
        assert forall|i: int| 0 <= i < a.len() implies a[i] == b[i] by {
            if i > 0 {
                assert(a[i] == a1[i - 1]);
                assert(b[i] == b1[i - 1]);
            }
        }
        assert(a =~= b);
    }
}

/// The display-ordered list of a component's versions is unique.
proof fn lemma_sorted_versions_unique(comps: Seq<Component>, name: Seq<char>, a: Seq<usize>, b: Seq<usize>)
    requires
        comps.len() <= usize::MAX,
        sorted_versions(comps, name, a),
        sorted_versions(comps, name, b),
    ensures
        a == b,
{
    assert forall|x: usize| a.contains(x) <==> b.contains(x) by {
        if a.contains(x) {
            let i = choose|i: int| 0 <= i < a.len() && a[i] == x;
            assert(comps[x as int].desc.name@ == name);
            assert(b.contains((x as int) as usize));
        }
        if b.contains(x) {
            let i = choose|i: int| 0 <= i < b.len() && b[i] == x;
            assert(comps[x as int].desc.name@ == name);
            assert(a.contains((x as int) as usize));
        }
    }
    assert forall|i: int, j: int| 0 <= i < j < a.len() implies shown_before(comps, #[trigger] a[i], #[trigger] a[j]) by {}
    assert forall|i: int, j: int| 0 <= i < j < b.len() implies shown_before(comps, #[trigger] b[i], #[trigger] b[j]) by {}
    lemma_sorted_unique(comps, a, b);
}

/// A reference that names a component but no version resolves to that
/// component's latest version, whatever the version of the referencing
/// file: the file `resolve` finds is in the version `latest_of` returns
/// for the component.
pub proof fn law_unversioned_reference_names_latest(
    comps: Seq<Component>,
    files: Seq<VirtualFile>,
    reference: RefView,
    from: CoordsView,
    default_family: Family,
    r: Option<VirtualFile>,
    latest: Option<Component>,
)
    requires
        comps.len() <= usize::MAX,
        resolve_post(comps, files, reference, from, default_family, r),
        reference.version is None,
        reference.component is Some,
        latest_post(comps, reference.component->0, latest),
    ensures
        r matches Some(f) ==> (latest matches Some(c) && f.coords@.version == opt_view(c.desc.version)
            && f.coords@.component == reference.component->0),
{
    let name = reference.component->0;
    let i1 = choose|idx: Seq<usize>|
        #[trigger] sorted_versions(comps, ref_component(reference, from), idx) && {
            let needs_latest = reference.version is None && reference.component is Some;
            let latest = if idx.len() > 0 {
                opt_view(pick(comps, idx)[latest_pos(pick(comps, idx))].desc.version)
            } else {
                None
            };
            let want = resolved_coords(reference, from, default_family, latest);
            if needs_latest && idx.len() == 0 {
                r is None
            } else {
                &&& (r is None <==> forall|k: int| 0 <= k < files.len() ==> files[k].coords@ != want)
                &&& (r matches Some(f) ==> f.coords@ == want)
            }
        };
    let i2 = choose|idx: Seq<usize>|
        #[trigger] sorted_versions(comps, name, idx) && (idx.len() == 0 ==> latest is None) && (idx.len() > 0 ==> (latest
            matches Some(c) && c == pick(comps, idx)[latest_pos(pick(comps, idx))]));
    assert(ref_component(reference, from) == name);
    lemma_sorted_versions_unique(comps, name, i1, i2);
}


/// The file a reference resolves to lies where the reference points: in
/// the component, version and module it names, each defaulting to the
/// referencing file's (a named component without a version meaning that
/// component's latest, see `law_unversioned_reference_names_latest`), in
/// the family it names or the default one, at the path it gives (a `./`
/// path within the referencing file's directory).
pub proof fn law_resolved_coordinates(
    comps: Seq<Component>,
    files: Seq<VirtualFile>,
    reference: RefView,
    from: CoordsView,
    default_family: Family,
    f: VirtualFile,
)
    requires
        resolve_post(comps, files, reference, from, default_family, Some(f)),
    ensures
        f.coords@.component == (match reference.component {
            Some(c) => c,
            None => from.component,
        }),
        reference.version matches Some(v) ==> f.coords@.version == Some(v),
        reference.version is None && reference.component is None ==> f.coords@.version == from.version,
        f.coords@.module == (match reference.module {
            Some(m) => m,
            None => from.module,
        }),
        f.coords@.family == (match reference.family {
            Some(x) => x,
            None => default_family,
        }),
        !has_prefix(reference.path, "./"@) ==> f.coords@.path == reference.path,
        exists|k: int| 0 <= k < files.len() && files[k].coords@ == f.coords@,
{
    let idx = choose|idx: Seq<usize>|
        #[trigger] sorted_versions(comps, ref_component(reference, from), idx) && {
            let needs_latest = reference.version is None && reference.component is Some;
            let latest = if idx.len() > 0 {
                opt_view(pick(comps, idx)[latest_pos(pick(comps, idx))].desc.version)
            } else {
                None
            };
            let want = resolved_coords(reference, from, default_family, latest);
            if needs_latest && idx.len() == 0 {
                Some(f) is None
            } else {
                &&& (Some(f) is None <==> forall|k: int| 0 <= k < files.len() ==> files[k].coords@ != want)
                &&& (Some(f) matches Some(g) ==> g.coords@ == want)
            }
        };
}

} // verus!
