//! Resource families, resource-ID references, and URL helpers.

use vstd::prelude::*;

use crate::text::{
    chars_eq, chars_of, contains_chars, first_index, has_char, has_prefix, index_of, is_infix,
    join_chars, join_seq, lemma_split_nonempty, slice_vec, split_chars, split_seq, starts_with_chars,
    string_of, views, copy_chars, lemma_views_push,
};

verus! {

/// The family (kind) of a resource within a module, mirroring Antora's
/// family directories.
#[derive(Clone, Copy, Debug, PartialEq, Eq, Hash, Structural)]
pub enum Family {
    /// `pages/`: AsciiDoc sources published as site pages.
    Page,
    /// `partials/`: includable AsciiDoc fragments (not published).
    Partial,
    /// `images/`: published under the module's `_images/` segment.
    Image,
    /// `attachments/`: published under the module's `_attachments/`
    /// segment.
    Attachment,
    /// `examples/`: includable code samples (not published).
    Example,
    /// Navigation files registered in `antora.yml` (internal family).
    Nav,
}

/// The family's source directory name, if it has one.
pub open spec fn family_dir(f: Family) -> Option<Seq<char>> {
    match f {
        Family::Page => Some("pages"@),
        Family::Partial => Some("partials"@),
        Family::Image => Some("images"@),
        Family::Attachment => Some("attachments"@),
        Family::Example => Some("examples"@),
        Family::Nav => None,
    }
}

/// The family coordinate used in resource IDs.
pub open spec fn family_coordinate(f: Family) -> Seq<char> {
    match f {
        Family::Page => "page"@,
        Family::Partial => "partial"@,
        Family::Image => "image"@,
        Family::Attachment => "attachment"@,
        Family::Example => "example"@,
        Family::Nav => "nav"@,
    }
}

/// The family a resource-ID coordinate names (`nav` is internal and never
/// named).
pub open spec fn family_of_coordinate(s: Seq<char>) -> Option<Family> {
    if s == "page"@ {
        Some(Family::Page)
    } else if s == "partial"@ {
        Some(Family::Partial)
    } else if s == "image"@ {
        Some(Family::Image)
    } else if s == "attachment"@ {
        Some(Family::Attachment)
    } else if s == "example"@ {
        Some(Family::Example)
    } else {
        None
    }
}

/// Whether files of the family are published to the site.
pub open spec fn family_publishable(f: Family) -> bool {
    f == Family::Page || f == Family::Image || f == Family::Attachment
}

impl Family {
    /// The family's source directory name inside a module. `Nav` files
    /// live at the module base, so they have none.
    pub fn dir_name(self) -> (r: Option<&'static str>)
        ensures
            r matches Some(d) ==> family_dir(self) == Some(d@),
            r is None <==> family_dir(self) is None,
    {
        match self {
            Family::Page => Some("pages"),
            Family::Partial => Some("partials"),
            Family::Image => Some("images"),
            Family::Attachment => Some("attachments"),
            Family::Example => Some("examples"),
            Family::Nav => None,
        }
    }

    /// The family coordinate used in resource IDs (`partial$`, `image$`, …).
    pub fn coordinate(self) -> (r: &'static str)
        ensures
            r@ == family_coordinate(self),
    {
        match self {
            Family::Page => "page",
            Family::Partial => "partial",
            Family::Image => "image",
            Family::Attachment => "attachment",
            Family::Example => "example",
            Family::Nav => "nav",
        }
    }

    /// The family named by a resource-ID coordinate.
    pub fn from_coordinate(s: &[char]) -> (r: Option<Family>)
        ensures
            r == family_of_coordinate(s@),
    {
        let page = chars_of("page");
        let partial = chars_of("partial");
        let image = chars_of("image");
        let attachment = chars_of("attachment");
        let example = chars_of("example");
        if chars_eq(s, page.as_slice()) {
            Some(Family::Page)
        } else if chars_eq(s, partial.as_slice()) {
            Some(Family::Partial)
        } else if chars_eq(s, image.as_slice()) {
            Some(Family::Image)
        } else if chars_eq(s, attachment.as_slice()) {
            Some(Family::Attachment)
        } else if chars_eq(s, example.as_slice()) {
            Some(Family::Example)
        } else {
            None
        }
    }

    /// Whether files of this family are published to the site.
    pub fn is_publishable(self) -> (b: bool)
        ensures
            b == family_publishable(self),
    {
        match self {
            Family::Page | Family::Image | Family::Attachment => true,
            _ => false,
        }
    }
}

/// A parsed resource-ID reference, before resolution against a catalog.
///
/// Mirrors Antora's resource-ID coordinate syntax
/// `version@component:module:family$path`, where every coordinate except the
/// path may be omitted and omitted coordinates default from the referencing
/// page's own coordinates at resolution time.
#[derive(Clone, Debug, Default, Eq, PartialEq)]
pub struct ResourceRef {
    /// Explicit version coordinate (`3.2@…`), if given.
    pub version: Option<String>,
    /// Explicit component coordinate, if given.
    pub component: Option<String>,
    /// Explicit module coordinate, if given. An empty module in a
    /// component-qualified reference (`component::page.adoc`) means `ROOT`.
    pub module: Option<String>,
    /// Explicit family coordinate (`partial$…`), if given.
    pub family: Option<Family>,
    /// The family-relative path, possibly starting with `./`.
    pub path: String,
}

/// The text of a reference, coordinate by coordinate.
pub struct RefView {
    pub version: Option<Seq<char>>,
    pub component: Option<Seq<char>>,
    pub module: Option<Seq<char>>,
    pub family: Option<Family>,
    pub path: Seq<char>,
}

/// The text of an optional string.
pub open spec fn opt_view(o: Option<String>) -> Option<Seq<char>> {
    match o {
        Some(s) => Some(s@),
        None => None,
    }
}

impl View for ResourceRef {
    type V = RefView;

    open spec fn view(&self) -> RefView {
        RefView {
            version: opt_view(self.version),
            component: opt_view(self.component),
            module: opt_view(self.module),
            family: self.family,
            path: self.path@,
        }
    }
}

/// Whether a target can be a resource ID at all (not empty, not a URL).
pub open spec fn is_ref_target(t: Seq<char>) -> bool {
    t.len() > 0 && !is_infix("://"@, t) && !has_prefix(t, "mailto:"@)
}

/// The version coordinate and the rest: an `@` counts only before any
/// colon.
pub open spec fn split_version(t: Seq<char>) -> (Option<Seq<char>>, Seq<char>) {
    let at = first_index(t, '@');
    if at < 0 || t.take(at).contains(':') {
        (None, t)
    } else if at == 0 {
        (None, t.skip(1))
    } else {
        (Some(t.take(at)), t.skip(at + 1))
    }
}

/// `rest.splitn(3, ':')`.
pub open spec fn colon_parts(rest: Seq<char>) -> Seq<Seq<char>> {
    let c1 = first_index(rest, ':');
    if c1 < 0 {
        seq![rest]
    } else {
        let tail = rest.skip(c1 + 1);
        let c2 = first_index(tail, ':');
        if c2 < 0 {
            seq![rest.take(c1), tail]
        } else {
            seq![rest.take(c1), tail.take(c2), tail.skip(c2 + 1)]
        }
    }
}

/// The component, module, and path part of the text after the version:
/// no colon is a bare path, one colon `module:path`, two colons
/// `component:module:path` (an empty module there meaning `ROOT`).
pub open spec fn split_coords(rest: Seq<char>) -> (Option<Seq<char>>, Option<Seq<char>>, Seq<char>) {
    let parts = colon_parts(rest);
    if parts.len() == 3 {
        (Some(parts[0]), Some(if parts[1].len() == 0 { "ROOT"@ } else { parts[1] }), parts[2])
    } else if parts.len() == 2 {
        (None, Some(parts[0]), parts[1])
    } else {
        (None, None, parts[0])
    }
}

/// What `ResourceRef::parse` returns for a target.
pub open spec fn parse_ref(t: Seq<char>) -> Option<RefView> {
    if !is_ref_target(t) {
        None
    } else {
        let (version, rest) = split_version(t);
        let (component, module, path_part) = split_coords(rest);
        if module == Some(Seq::<char>::empty()) {
            None
        } else {
            let d = first_index(path_part, '$');
            if d < 0 {
                Some(RefView { version, component, module, family: None, path: path_part })
            } else {
                match family_of_coordinate(path_part.take(d)) {
                    None => None,
                    Some(f) => Some(
                        RefView { version, component, module, family: Some(f), path: path_part.skip(d + 1) },
                    ),
                }
            }
        }
    }
}

/// The text of an optional character vector.
pub open spec fn optv(o: Option<Vec<char>>) -> Option<Seq<char>> {
    match o {
        Some(v) => Some(v@),
        None => None,
    }
}

fn version_part(t: &Vec<char>) -> (r: (Option<Vec<char>>, Vec<char>))
    ensures
        split_version(t@) == (optv(r.0), r.1@),
{
    match index_of(t.as_slice(), '@') {
        Some(at) => {
            let v = slice_vec(t.as_slice(), 0, at);
            if !has_char(v.as_slice(), ':') {
                let rest = slice_vec(t.as_slice(), at + 1, t.len());
                if at > 0 {
                    (Some(v), rest)
                } else {
                    (None, rest)
                }
            } else {
                (None, slice_vec(t.as_slice(), 0, t.len()))
            }
        },
        None => (None, slice_vec(t.as_slice(), 0, t.len())),
    }
}

fn coords_part(rest: &Vec<char>) -> (r: (Option<Vec<char>>, Option<Vec<char>>, Vec<char>))
    ensures
        split_coords(rest@) == (optv(r.0), optv(r.1), r.2@),
{
    match index_of(rest.as_slice(), ':') {
        None => (None, None, slice_vec(rest.as_slice(), 0, rest.len())),
        Some(c1) => {
            let first = slice_vec(rest.as_slice(), 0, c1);
            let tail = slice_vec(rest.as_slice(), c1 + 1, rest.len());
            match index_of(tail.as_slice(), ':') {
                None => (None, Some(first), tail),
                Some(c2) => {
                    let m = slice_vec(tail.as_slice(), 0, c2);
                    let p = slice_vec(tail.as_slice(), c2 + 1, tail.len());
                    if m.len() == 0 {
                        (Some(first), Some(chars_of("ROOT")), p)
                    } else {
                        (Some(first), Some(m), p)
                    }
                },
            }
        },
    }
}

fn opt_string(o: Option<Vec<char>>) -> (r: Option<String>)
    ensures
        opt_view(r) == match o {
            Some(v) => Some(v@),
            None => None::<Seq<char>>,
        },
{
    match o {
        Some(v) => Some(string_of(v.as_slice())),
        None => None,
    }
}

impl ResourceRef {
    /// Parses a resource-ID reference.
    ///
    /// Returns `None` for targets that are not resource IDs at all (an
    /// empty target, or a URL with a scheme), for an empty lone module
    /// coordinate, and for an unknown family coordinate.
    pub fn parse(target: &str) -> (r: Option<Self>)
        ensures
            match r {
                Some(rr) => parse_ref(target@) == Some(rr@),
                None => parse_ref(target@) is None,
            },
    {
        let t = chars_of(target);
        let scheme = chars_of("://");
        let mailto = chars_of("mailto:");
        if t.len() == 0 || contains_chars(t.as_slice(), scheme.as_slice()) || starts_with_chars(
            t.as_slice(),
            mailto.as_slice(),
        ) {
            return None;
        }
        // The version coordinate ends with `@` and precedes everything else.
        let (version, rest) = version_part(&t);
        // Component and module are colon-delimited prefixes.
        let (component, module, path_part) = coords_part(&rest);
        // A lone module coordinate that is empty (`:path`) is not valid.
        match &module {
            Some(m) => {
                if m.len() == 0 {
                    assert(m@ =~= Seq::<char>::empty());
                    return None;
                }
            },
            None => {},
        }
        let version = opt_string(version);
        let component = opt_string(component);
        let module = opt_string(module);
        // The family coordinate is a `family$` prefix on the path part.
        match index_of(path_part.as_slice(), '$') {
            None => Some(
                ResourceRef { version, component, module, family: None, path: string_of(path_part.as_slice()) },
            ),
            Some(d) => {
                let f = slice_vec(path_part.as_slice(), 0, d);
                match Family::from_coordinate(f.as_slice()) {
                    None => None,
                    Some(family) => {
                        let p = slice_vec(path_part.as_slice(), d + 1, path_part.len());
                        Some(
                            ResourceRef {
                                version,
                                component,
                                module,
                                family: Some(family),
                                path: string_of(p.as_slice()),
                            },
                        )
                    },
                }
            },
        }
    }
}

/// The length of the longest common prefix of two piece sequences.
pub open spec fn common_len(a: Seq<Seq<char>>, b: Seq<Seq<char>>) -> nat
    decreases a.len(),
{
    if a.len() == 0 || b.len() == 0 || a[0] != b[0] {
        0
    } else {
        1 + common_len(a.drop_first(), b.drop_first())
    }
}

proof fn lemma_common_len_step(a: Seq<Seq<char>>, b: Seq<Seq<char>>, k: int)
    requires
        0 <= k < a.len(),
        k < b.len(),
        a[k] == b[k],
    ensures
        common_len(a.skip(k), b.skip(k)) == 1 + common_len(a.skip(k + 1), b.skip(k + 1)),
{
    assert(a.skip(k).drop_first() == a.skip(k + 1));
    assert(b.skip(k).drop_first() == b.skip(k + 1));
}

/// What `relative_url(from, to)` returns.
pub open spec fn relative_url_spec(from: Seq<char>, to: Seq<char>) -> Seq<char> {
    let from_dir = split_seq(from, '/').drop_last();
    let to_parts = split_seq(to, '/');
    let common = common_len(from_dir, to_parts);
    let out = Seq::new((from_dir.len() - common) as nat, |i: int| ".."@) + to_parts.skip(common as int);
    if out.len() == 0 {
        to_parts.last()
    } else {
        join_seq(out, seq!['/'])
    }
}

/// Computes the relative URL from one site-root-relative URL to another.
///
/// Both inputs are site-root-relative paths without a leading slash. The
/// result is suitable for an `href` in the page published at `from`.
pub fn relative_url(from: &str, to: &str) -> (r: String)
    ensures
        r@ == relative_url_spec(from@, to@),
{
    let f = chars_of(from);
    let t = chars_of(to);
    let mut from_dir = split_chars(f.as_slice(), '/');
    proof {
        lemma_split_nonempty(f@, '/');
        lemma_split_nonempty(t@, '/');
    }
    from_dir.pop();
    assert(views(from_dir@) =~= split_seq(f@, '/').drop_last());
    let to_parts = split_chars(t.as_slice(), '/');
    let ghost fd = views(from_dir@);
    let ghost tp = views(to_parts@);
    let mut common: usize = 0;
    assert(fd.skip(0) == fd && tp.skip(0) == tp);
    while common < from_dir.len() && common < to_parts.len() && chars_eq(
        from_dir[common].as_slice(),
        to_parts[common].as_slice(),
    )
        invariant
            fd == views(from_dir@),
            tp == views(to_parts@),
            common <= from_dir.len(),
            common <= to_parts.len(),
            common_len(fd, tp) == common + common_len(fd.skip(common as int), tp.skip(common as int)),
        decreases from_dir.len() - common,
    {
        proof {
            lemma_common_len_step(fd, tp, common as int);
        }
        common += 1;
    }
    assert(common_len(fd.skip(common as int), tp.skip(common as int)) == 0);
    let dotdot = chars_of("..");
    let mut out: Vec<Vec<char>> = Vec::new();
    let mut i: usize = 0;
    while i < from_dir.len() - common
        invariant
            common <= from_dir.len(),
            i <= from_dir.len() - common,
            dotdot@ == ".."@,
            views(out@) == Seq::new(i as nat, |j: int| ".."@),
        decreases from_dir.len() - common - i,
    {
        let piece = copy_chars(dotdot.as_slice());
        proof {
            lemma_views_push(out@, piece);
        }
        out.push(piece);
        i += 1;
        assert(views(out@) =~= Seq::new(i as nat, |j: int| ".."@));
    }
    let ghost dots = views(out@);
    let mut k = common;
    while k < to_parts.len()
        invariant
            common <= k <= to_parts.len(),
            tp == views(to_parts@),
            views(out@) == dots + tp.subrange(common as int, k as int),
        decreases to_parts.len() - k,
    {
        let piece = copy_chars(to_parts[k].as_slice());
        proof {
            lemma_views_push(out@, piece);
            assert(tp.subrange(common as int, k + 1) == tp.subrange(common as int, k as int).push(tp[k as int]));
        }
        out.push(piece);
        k += 1;
        assert(views(out@) =~= dots + tp.subrange(common as int, k as int));
    }
    assert(tp.subrange(common as int, tp.len() as int) == tp.skip(common as int));
    if out.len() == 0 {
        let last = to_parts.len() - 1;
        string_of(to_parts[last].as_slice())
    } else {
        let slash = vec!['/'];
        assert(slash@ == seq!['/']);
        let joined = join_chars(&out, slash.as_slice());
        string_of(joined.as_slice())
    }
}

} // verus!

verus! {

/// The directory a relative link written in a page leads to, segment by
/// segment: `..` goes up one directory (staying at the root), any other
/// segment goes into it.
pub open spec fn follow(dir: Seq<Seq<char>>, segs: Seq<Seq<char>>) -> Seq<Seq<char>>
    decreases segs.len(),
{
    if segs.len() == 0 {
        dir
    } else if segs[0] == ".."@ {
        follow(if dir.len() > 0 { dir.drop_last() } else { dir }, segs.drop_first())
    } else {
        follow(dir.push(segs[0]), segs.drop_first())
    }
}

/// The site path a link `href` written in the page published at `from`
/// leads to, as a browser resolves it.
pub open spec fn resolve_link(from: Seq<char>, href: Seq<char>) -> Seq<char> {
    crate::text::join_seq(follow(crate::text::split_seq(from, '/').drop_last(), crate::text::split_seq(href, '/')), seq!['/'])
}

proof fn lemma_follow_concat(dir: Seq<Seq<char>>, a: Seq<Seq<char>>, b: Seq<Seq<char>>)
    ensures
        follow(dir, a + b) == follow(follow(dir, a), b),
    decreases a.len(),
{
    if a.len() == 0 {
        assert(a + b =~= b);
    } else {
        assert((a + b)[0] == a[0]);
        assert((a + b).drop_first() =~= a.drop_first() + b);
        let next = if a[0] == ".."@ {
            if dir.len() > 0 { dir.drop_last() } else { dir }
        } else {
            dir.push(a[0])
        };
        lemma_follow_concat(next, a.drop_first(), b);
    }
}

proof fn lemma_follow_up(dir: Seq<Seq<char>>, k: nat)
    requires
        k <= dir.len(),
    ensures
        follow(dir, Seq::new(k, |i: int| ".."@)) == dir.take(dir.len() - k),
    decreases k,
{
    let ups = Seq::new(k, |i: int| ".."@);
    if k == 0 {
        assert(dir.take(dir.len() as int) =~= dir);
    } else {
        assert(ups[0] == ".."@);
        assert(ups.drop_first() =~= Seq::new((k - 1) as nat, |i: int| ".."@));
        lemma_follow_up(dir.drop_last(), (k - 1) as nat);
        assert(dir.drop_last().take(dir.drop_last().len() - (k - 1)) =~= dir.take(dir.len() - k));
    }
}

proof fn lemma_follow_down(dir: Seq<Seq<char>>, segs: Seq<Seq<char>>)
    requires
        forall|i: int| 0 <= i < segs.len() ==> segs[i] != ".."@,
    ensures
        follow(dir, segs) == dir + segs,
    decreases segs.len(),
{
    if segs.len() == 0 {
        assert(dir + segs =~= dir);
    } else {
        assert(segs[0] != ".."@);
        assert forall|i: int| 0 <= i < segs.drop_first().len() implies segs.drop_first()[i] != ".."@ by {
            assert(segs.drop_first()[i] == segs[i + 1]);
        }
        lemma_follow_down(dir.push(segs[0]), segs.drop_first());
        assert(dir.push(segs[0]) + segs.drop_first() =~= dir + segs);
    }
}

proof fn lemma_common_prefix(a: Seq<Seq<char>>, b: Seq<Seq<char>>)
    ensures
        common_len(a, b) <= a.len(),
        common_len(a, b) <= b.len(),
        a.take(common_len(a, b) as int) == b.take(common_len(a, b) as int),
        common_len(a, b) < a.len() && common_len(a, b) < b.len() ==> a[common_len(a, b) as int] != b[common_len(a, b) as int],
    decreases a.len(),
{
    if !(a.len() == 0 || b.len() == 0 || a[0] != b[0]) {
        lemma_common_prefix(a.drop_first(), b.drop_first());
        let c = common_len(a.drop_first(), b.drop_first()) as int;
        assert(a.take(c + 1) =~= seq![a[0]] + a.drop_first().take(c));
        assert(b.take(c + 1) =~= seq![b[0]] + b.drop_first().take(c));
        if c < a.drop_first().len() && c < b.drop_first().len() {
            assert(a[c + 1] == a.drop_first()[c]);
            assert(b[c + 1] == b.drop_first()[c]);
        }
    } else {
        assert(a.take(0) =~= b.take(0));
    }
}

/// No piece of a split holds the separator.
proof fn lemma_split_pieces(s: Seq<char>, sep: char)
    ensures
        forall|i: int| 0 <= i < crate::text::split_seq(s, sep).len() ==> !(#[trigger] crate::text::split_seq(s, sep)[i]).contains(sep),
    decreases s.len(),
{
    if s.len() > 0 {
        lemma_split_pieces(s.drop_last(), sep);
        crate::text::lemma_split_nonempty(s.drop_last(), sep);
        let init = crate::text::split_seq(s.drop_last(), sep);
        if s.last() != sep {
            let last = init.last().push(s.last());
            assert(!init.last().contains(sep));
            assert(!last.contains(sep)) by {
                if last.contains(sep) {
                    let j = choose|j: int| 0 <= j < last.len() && last[j] == sep;
                    if j < init.last().len() {
                        assert(last[j] == init.last()[j]);
                    }
                }
            }
        } else {
            assert(!Seq::<char>::empty().contains(sep));
        }
    }
}

/// Splitting text free of the separator gives it back whole.
proof fn lemma_split_single(x: Seq<char>, sep: char)
    requires
        !x.contains(sep),
    ensures
        crate::text::split_seq(x, sep) == seq![x],
    decreases x.len(),
{
    if x.len() > 0 {
        assert(!x.drop_last().contains(sep)) by {
            if x.drop_last().contains(sep) {
                let j = choose|j: int| 0 <= j < x.drop_last().len() && x.drop_last()[j] == sep;
                assert(x[j] == sep);
            }
        }
        lemma_split_single(x.drop_last(), sep);
        assert(x[x.len() - 1] != sep);
        assert(x.drop_last().push(x.last()) =~= x);
        assert(crate::text::split_seq(x, sep) =~= seq![x]);
    } else {
        assert(x =~= Seq::<char>::empty());
        assert(crate::text::split_seq(x, sep) =~= seq![x]);
    }
}

/// Appending separator-free text extends the last piece.
proof fn lemma_split_append(w: Seq<char>, y: Seq<char>, sep: char)
    requires
        !y.contains(sep),
    ensures
        crate::text::split_seq(w + y, sep) == crate::text::split_seq(w, sep).update(
            crate::text::split_seq(w, sep).len() - 1,
            crate::text::split_seq(w, sep).last() + y,
        ),
    decreases y.len(),
{
    crate::text::lemma_split_nonempty(w, sep);
    let sw = crate::text::split_seq(w, sep);
    if y.len() == 0 {
        assert(w + y =~= w);
        assert(sw.last() + y =~= sw.last());
        assert(sw.update(sw.len() - 1, sw.last()) =~= sw);
    } else {
        let y0 = y.drop_last();
        assert(!y0.contains(sep)) by {
            if y0.contains(sep) {
                let j = choose|j: int| 0 <= j < y0.len() && y0[j] == sep;
                assert(y[j] == sep);
            }
        }
        lemma_split_append(w, y0, sep);
        assert((w + y).drop_last() =~= w + y0);
        assert((w + y).last() == y.last());
        assert(y[y.len() - 1] != sep);
        assert((sw.last() + y0).push(y.last()) =~= sw.last() + y);
        assert(crate::text::split_seq(w + y, sep) =~= sw.update(sw.len() - 1, sw.last() + y));
    }
}

/// Joining separator-free pieces and splitting again gives the pieces.
proof fn lemma_split_join(p: Seq<Seq<char>>, sep: char)
    requires
        p.len() >= 1,
        forall|i: int| 0 <= i < p.len() ==> !(#[trigger] p[i]).contains(sep),
    ensures
        crate::text::split_seq(crate::text::join_seq(p, seq![sep]), sep) == p,
    decreases p.len(),
{
    if p.len() == 1 {
        lemma_split_single(p[0], sep);
        assert(seq![p[0]] =~= p);
    } else {
        let q = p.drop_last();
        assert forall|i: int| 0 <= i < q.len() implies !(#[trigger] q[i]).contains(sep) by {
            assert(q[i] == p[i]);
        }
        lemma_split_join(q, sep);
        let z = crate::text::join_seq(q, seq![sep]);
        let w = z + seq![sep];
        assert(crate::text::join_seq(p, seq![sep]) == w + p.last());
        assert(w.drop_last() =~= z);
        assert(crate::text::split_seq(w, sep) == q.push(Seq::<char>::empty()));
        assert(!p[p.len() - 1].contains(sep));
        lemma_split_append(w, p.last(), sep);
        assert(Seq::<char>::empty() + p.last() =~= p.last());
        assert(q.push(Seq::<char>::empty()).update(q.len() as int, p.last()) =~= p);
    }
}

/// A relative link leads where it should: followed from the directory of
/// the page at `from`, the result of `relative_url(from, to)` reaches
/// `to`. It climbs exactly out of the directories `from` does not share
/// with `to`, then descends into `to`. (The site's paths name no `..`
/// segment; a `to` that is one of `from`'s own directories is linked by
/// its last segment.)
pub proof fn law_relative_url_resolves(from: Seq<char>, to: Seq<char>)
    requires
        forall|i: int| 0 <= i < crate::text::split_seq(to, '/').len() ==> #[trigger] crate::text::split_seq(to, '/')[i] != ".."@,
        !(crate::text::split_seq(to, '/').len() <= crate::text::split_seq(from, '/').len() - 1 && crate::text::split_seq(
            to,
            '/',
        ) == crate::text::split_seq(from, '/').drop_last().take(crate::text::split_seq(to, '/').len() as int)),
    ensures
        resolve_link(from, relative_url_spec(from, to)) == to,
{
    let from_dir = crate::text::split_seq(from, '/').drop_last();
    let to_parts = crate::text::split_seq(to, '/');
    crate::text::lemma_split_nonempty(from, '/');
    crate::text::lemma_split_nonempty(to, '/');
    lemma_common_prefix(from_dir, to_parts);
    let common = common_len(from_dir, to_parts);
    let ups = Seq::new((from_dir.len() - common) as nat, |i: int| ".."@);
    let down = to_parts.skip(common as int);
    let out = ups + down;
    assert(common < to_parts.len()) by {
        if common == to_parts.len() {
            assert(to_parts.take(common as int) =~= to_parts);
        }
    }
    assert(out.len() > 0);
    assert(relative_url_spec(from, to) == crate::text::join_seq(out, seq!['/']));
    lemma_split_pieces(to, '/');
    assert forall|i: int| 0 <= i < out.len() implies !(#[trigger] out[i]).contains('/') by {
        if i < ups.len() {
            reveal_strlit("..");
            assert(out[i] == ".."@);
        } else {
            assert(out[i] == to_parts[i - ups.len() + common]);
        }
    }
    lemma_split_join(out, '/');
    lemma_follow_concat(from_dir, ups, down);
    lemma_follow_up(from_dir, (from_dir.len() - common) as nat);
    assert(from_dir.take(from_dir.len() - (from_dir.len() - common)) == from_dir.take(common as int));
    assert forall|i: int| 0 <= i < down.len() implies down[i] != ".."@ by {
        assert(down[i] == to_parts[i + common]);
    }
    lemma_follow_down(from_dir.take(common as int), down);
    assert(to_parts.take(common as int) + down =~= to_parts);
    crate::text::lemma_join_split(to, '/');
}

} // verus!
