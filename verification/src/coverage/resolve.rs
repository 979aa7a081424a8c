//! Resolution: claims and sidecar entries become block states.
//!
//! Every measured page's blocks start from the structural default; sidecar
//! entries and claims target blocks by page path plus excerpt (or section
//! anchor), and the precedence rules turn the two into one state per
//! block. Anything that fails to resolve is a diagnostic with provenance,
//! never a silent skip.

use vstd::prelude::*;

use crate::coverage::model::{claim_label, BlockCoverage, BlockState, Claim, ClaimTarget, MeasuredPage, PageCoverage, PageRecord, SpecBlock, StructuralKind, block_states, tallies, Tracking};
use crate::coverage::sidecar::{Sidecar, SidecarEntry, SidecarKind, kind_state};
use crate::model::catalog::{Coords, CoordsView, copy_opt, opt_as_str};
use crate::model::playbook::{trim_dot_slash, trim_dot_slash_exec};
use crate::model::resource::{ResourceRef, opt_view, parse_ref};
use crate::model::versions::{compare_chars, lemma_lex_sign_antisym, lemma_lex_sign_trans, lemma_lex_sign_zero, lex_sign, opt_str};
use crate::text::{chars_eq, chars_of, contains_chars, debug_quote, ends_with_chars, is_infix, norm_ws, normalize_chars, owned, push_chars, push_str, slice_vec, str_eq, string_of, views, join_seq, dec};

verus! {

/// What kind of problem a diagnostic reports.
#[derive(Clone, Copy, Debug, PartialEq, Eq, Structural)]
pub enum DiagnosticKind {
    /// A claim or sidecar path matches no measured page in its scope.
    UnknownPage,
    /// A path matches more than one page in its scope.
    AmbiguousPage,
    /// A `#anchor` names no section of any measured version.
    NoSection,
    /// An excerpt matches no block of any measured version.
    NoMatch,
    /// An excerpt matches several blocks within one version's page.
    Ambiguous,
    /// A claim targets a block the sidecar calls non-normative or out of
    /// scope.
    Contradiction,
    /// A block is targeted by more than one sidecar list.
    SidecarConflict,
    /// A claim resolves to a `planned` block: the entry is stale.
    StalePlanned,
    /// The structural heuristic disagrees with a sidecar entry or claim.
    HeuristicDisagreement,
    /// A block nobody has classified.
    Unclassified,
}

/// Whether diagnostics of a kind are hard errors rather than lint
/// findings.
pub open spec fn kind_is_error(k: DiagnosticKind) -> bool {
    match k {
        DiagnosticKind::UnknownPage | DiagnosticKind::AmbiguousPage | DiagnosticKind::NoSection
        | DiagnosticKind::NoMatch | DiagnosticKind::Ambiguous | DiagnosticKind::Contradiction
        | DiagnosticKind::SidecarConflict => true,
        _ => false,
    }
}

impl DiagnosticKind {
    /// Whether diagnostics of this kind are hard errors (as opposed to
    /// lint findings).
    pub fn is_error(self) -> (b: bool)
        ensures
            b == kind_is_error(self),
    {
        match self {
            DiagnosticKind::UnknownPage | DiagnosticKind::AmbiguousPage | DiagnosticKind::NoSection
            | DiagnosticKind::NoMatch | DiagnosticKind::Ambiguous | DiagnosticKind::Contradiction
            | DiagnosticKind::SidecarConflict => true,
            _ => false,
        }
    }
}

/// One resolution problem, with provenance.
#[derive(Clone, Debug, PartialEq)]
pub struct Diagnostic {
    /// The kind of problem.
    pub kind: DiagnosticKind,
    /// Where it was found: `file:line` of a claim, or a sidecar file, or
    /// a page.
    pub at: String,
    /// What is wrong.
    pub message: String,
}

impl Diagnostic {
    /// The diagnostic as one line: `{at}: {message}`.
    pub fn to_string(&self) -> (r: String)
        ensures
            r@ == self.at@ + ": "@ + self.message@,
    {
        let mut out = owned(self.at.as_str());
        push_str(&mut out, ": ");
        push_str(&mut out, self.message.as_str());
        out
    }
}

// ---------------------------------------------------------------------
// Page targeting
// ---------------------------------------------------------------------

/// `s` without any leading `c`.
pub open spec fn trim_leading(s: Seq<char>, c: char) -> Seq<char>
    decreases s.len(),
{
    if s.len() > 0 && s[0] == c {
        trim_leading(s.drop_first(), c)
    } else {
        s
    }
}

/// A claim path as compared: without leading `./` and `/`.
pub open spec fn claim_path_key(p: Seq<char>) -> Seq<char> {
    trim_leading(trim_dot_slash(p), '/')
}

/// Whether a claim path names a repository path: equal, or a suffix on a
/// `/` boundary.
pub open spec fn path_names(repo: Seq<char>, claim: Seq<char>) -> bool {
    let cp = claim_path_key(claim);
    repo == cp || (cp.len() < repo.len() && repo.skip(repo.len() - cp.len()) == cp
        && repo[repo.len() - cp.len() - 1] == '/')
}

/// Strips every leading `c`.
pub fn trim_leading_chars(s: &[char], c: char) -> (r: Vec<char>)
    ensures
        r@ == trim_leading(s@, c),
{
    let mut i: usize = 0;
    assert(s@.skip(0) == s@);
    while i < s.len() && s[i] == c
        invariant
            i <= s.len(),
            trim_leading(s@, c) == trim_leading(s@.skip(i as int), c),
        decreases s.len() - i,
    {
        assert(s@.skip(i as int).drop_first() == s@.skip(i + 1));
        i += 1;
    }
    slice_vec(s, i, s.len())
}

/// Whether a claim path names a repository path: equal, or a suffix on a
/// `/` boundary.
pub fn path_matches(repo_path: &str, claim_path: &str) -> (b: bool)
    ensures
        b == path_names(repo_path@, claim_path@),
{
    let c = chars_of(claim_path);
    let c1 = trim_dot_slash_exec(c.as_slice());
    let cp = trim_leading_chars(c1.as_slice(), '/');
    let repo = chars_of(repo_path);
    if chars_eq(repo.as_slice(), cp.as_slice()) {
        return true;
    }
    if cp.len() < repo.len() && ends_with_chars(repo.as_slice(), cp.as_slice()) {
        repo[repo.len() - cp.len() - 1] == '/'
    } else {
        false
    }
}

/// A page's identity across versions: `component:module:path`.
pub open spec fn page_identity(c: CoordsView) -> Seq<char> {
    c.component + ":"@ + c.module + ":"@ + c.path
}

/// Whether a path-form target from `scope` names page `p`.
pub open spec fn path_target(p: MeasuredPage, scope: usize, path: Seq<char>) -> bool {
    p.scope == scope && path_names(p.repo_path@, path)
}

/// Whether a path-form target names more than one distinct page in its
/// scope.
pub open spec fn path_ambiguous(pages: Seq<MeasuredPage>, scope: usize, path: Seq<char>) -> bool {
    exists|a: int, b: int|
        0 <= a < pages.len() && 0 <= b < pages.len() && #[trigger] path_target(pages[a], scope, path)
            && #[trigger] path_target(pages[b], scope, path) && page_identity(pages[a].coords@)
            != page_identity(pages[b].coords@)
}

/// Whether a path-form target resolves to page `i`: it names the page and
/// no other distinct page.
pub open spec fn path_resolves(pages: Seq<MeasuredPage>, scope: usize, path: Seq<char>, i: int) -> bool {
    0 <= i < pages.len() && !path_ambiguous(pages, scope, path) && path_target(pages[i], scope, path)
}

/// Whether the resource ID `id` names page `p` (any version when the ID
/// names none).
pub open spec fn id_target(p: MeasuredPage, id: Seq<char>) -> bool {
    match parse_ref(id) {
        Some(r) => match r.component {
            Some(c) => p.coords@.component == c && p.coords@.module == (match r.module {
                Some(m) => m,
                None => "ROOT"@,
            }) && p.coords@.path == r.path && (match r.version {
                Some(v) => p.coords@.version == Some(v),
                None => true,
            }),
            None => false,
        },
        None => false,
    }
}

/// Whether `r` lists, in increasing order, exactly the indices below `n`
/// that satisfy `p`.
pub open spec fn lists_exactly(r: Seq<usize>, n: int, p: spec_fn(int) -> bool) -> bool {
    &&& forall|a: int, b: int| 0 <= a < b < r.len() ==> r[a] < r[b]
    &&& forall|a: int| 0 <= a < r.len() ==> #[trigger] r[a] < n && p(r[a] as int)
    &&& forall|j: int| 0 <= j < n && #[trigger] p(j) ==> lists_index(r, j)
}

/// Whether `j` occurs in `r`.
pub open spec fn lists_index(r: Seq<usize>, j: int) -> bool {
    exists|w: int| 0 <= w < r.len() && r[w] as int == j
}

/// Pushing the next index that satisfies `p` keeps the list exact.
proof fn lemma_lists_push(r: Seq<usize>, n: int, p: spec_fn(int) -> bool, j: usize)
    requires
        lists_exactly(r, n, p),
        n == j,
        p(j as int),
    ensures
        lists_exactly(r.push(j), j + 1, p),
{
    let r2 = r.push(j);
    assert forall|a: int| 0 <= a < r2.len() implies #[trigger] r2[a] < j + 1 && p(r2[a] as int) by {
        if a < r.len() {
            assert(r2[a] == r[a]);
            assert(p(r[a] as int));
        }
    }
    assert forall|k: int| 0 <= k < j + 1 && #[trigger] p(k) implies lists_index(r2, k) by {
        if k < n {
            assert(lists_index(r, k));
            let w = choose|w: int| 0 <= w < r.len() && r[w] as int == k;
            assert(r2[w] == r[w]);
        } else {
            assert(r2[r.len() as int] == j);
        }
    }
}

/// An index that fails `p` keeps the list exact one step further.
proof fn lemma_lists_skip(r: Seq<usize>, n: int, p: spec_fn(int) -> bool)
    requires
        lists_exactly(r, n, p),
        !p(n),
    ensures
        lists_exactly(r, n + 1, p),
{
    assert forall|k: int| 0 <= k < n + 1 && #[trigger] p(k) implies lists_index(r, k) by {
        assert(k != n);
    }
}

/// A listed index is in the list.
proof fn lemma_lists_member(r: Seq<usize>, n: int, p: spec_fn(int) -> bool, k: int)
    requires
        lists_exactly(r, n, p),
        0 <= k < n,
        p(k),
    ensures
        lists_index(r, k),
{
}

/// The list of one predicate is the list of an equivalent one.
proof fn lemma_lists_equiv(r: Seq<usize>, n: int, p: spec_fn(int) -> bool, q: spec_fn(int) -> bool)
    requires
        lists_exactly(r, n, p),
        forall|k: int| 0 <= k < n ==> #[trigger] p(k) == q(k),
    ensures
        lists_exactly(r, n, q),
{
    assert forall|a: int| 0 <= a < r.len() implies #[trigger] r[a] < n && q(r[a] as int) by {
        assert(p(r[a] as int));
    }
    assert forall|k: int| 0 <= k < n && #[trigger] q(k) implies lists_index(r, k) by {
        assert(p(k));
    }
}

// ---------------------------------------------------------------------
// Block targeting within one page
// ---------------------------------------------------------------------

/// Whether block `b` lies in the section `anchor` names (every block
/// does when there is no anchor).
pub open spec fn in_section(b: SpecBlock, anchor: Option<Seq<char>>) -> bool {
    match anchor {
        None => true,
        Some(a) => exists|k: int| 0 <= k < b.sections@.len() && #[trigger] b.sections@[k]@ == a,
    }
}

/// Whether the page has the section `anchor` names (trivially, without
/// one).
pub open spec fn names_section(p: MeasuredPage, anchor: Option<Seq<char>>) -> bool {
    match anchor {
        None => true,
        Some(a) => exists|k: int| 0 <= k < p.section_ids@.len() && #[trigger] p.section_ids@[k]@ == a,
    }
}

/// Whether block `j` is a candidate of a target: in the anchor's section,
/// and, with an excerpt, containing the excerpt (both
/// whitespace-normalized; an empty excerpt matches nothing).
pub open spec fn selects(p: MeasuredPage, anchor: Option<Seq<char>>, excerpt: Option<Seq<char>>, j: int) -> bool {
    0 <= j < p.blocks@.len() && in_section(p.blocks@[j], anchor) && match excerpt {
        None => true,
        Some(x) => norm_ws(x).len() > 0 && is_infix(norm_ws(x), norm_ws(p.blocks@[j].text@)),
    }
}

/// Whether exactly one block is a candidate of the target.
pub open spec fn selects_one(p: MeasuredPage, anchor: Option<Seq<char>>, excerpt: Option<Seq<char>>) -> bool {
    exists|k: int| #[trigger] selects(p, anchor, excerpt, k) && forall|m: int| #[trigger] selects(p, anchor, excerpt, m) ==> m == k
}

/// Whether a target (anchor plus optional excerpt) resolves to block `j`
/// of page `p`: the anchor names a section of the page, and the block is
/// a candidate: any block of the section without an excerpt, else the
/// one block the excerpt matches.
pub open spec fn targets_block(p: MeasuredPage, anchor: Option<Seq<char>>, excerpt: Option<Seq<char>>, j: int) -> bool {
    names_section(p, anchor) && selects(p, anchor, excerpt, j) && (excerpt is None || selects_one(
        p,
        anchor,
        excerpt,
    ))
}

/// Whether a target resolves on page `p`: its anchor names a section of
/// the page, and an excerpt matches exactly one block there.
pub open spec fn target_resolves(p: MeasuredPage, anchor: Option<Seq<char>>, excerpt: Option<Seq<char>>) -> bool {
    names_section(p, anchor) && (excerpt is None || selects_one(p, anchor, excerpt))
}

/// Whether a target's excerpt matches more than one block of the section
/// its anchor names on page `p`.
pub open spec fn target_ambiguous(p: MeasuredPage, anchor: Option<Seq<char>>, excerpt: Option<Seq<char>>) -> bool {
    names_section(p, anchor) && excerpt is Some && exists|k1: int, k2: int|
        k1 != k2 && #[trigger] selects(p, anchor, excerpt, k1) && #[trigger] selects(p, anchor, excerpt, k2)
}

/// Whether `norm` holds the whitespace-normalized text of each block of
/// `p`.
pub open spec fn normalized_page(p: MeasuredPage, norm: Seq<Vec<char>>) -> bool {
    norm.len() == p.blocks@.len() && forall|j: int| 0 <= j < norm.len() ==> (#[trigger] norm[j])@ == norm_ws(p.blocks@[j].text@)
}

/// How a target resolved against one page version.
enum TargetHit {
    /// The blocks the target names.
    Blocks(Vec<usize>),
    /// The anchor names no section of the page.
    NoSection,
    /// The excerpt matches no block (within the anchor's section).
    NoMatch,
    /// The excerpt matches several blocks.
    Ambiguous(Vec<usize>),
}

fn in_section_exec(b: &SpecBlock, anchor: Option<&str>) -> (r: bool)
    ensures
        r == in_section(*b, opt_str(anchor)),
{
    match anchor {
        None => true,
        Some(a) => {
            let mut k: usize = 0;
            while k < b.sections.len()
                invariant
                    anchor == Some(a),
                    k <= b.sections.len(),
                    forall|m: int| 0 <= m < k ==> b.sections@[m]@ != a@,
                decreases b.sections.len() - k,
            {
                if str_eq(b.sections[k].as_str(), a) {
                    assert(b.sections@[k as int]@ == a@);
                    return true;
                }
                k += 1;
            }
            false
        },
    }
}

fn names_section_exec(p: &MeasuredPage, anchor: Option<&str>) -> (r: bool)
    ensures
        r == names_section(*p, opt_str(anchor)),
{
    match anchor {
        None => true,
        Some(a) => {
            let mut k: usize = 0;
            while k < p.section_ids.len()
                invariant
                    anchor == Some(a),
                    k <= p.section_ids.len(),
                    forall|m: int| 0 <= m < k ==> p.section_ids@[m]@ != a@,
                decreases p.section_ids.len() - k,
            {
                if str_eq(p.section_ids[k].as_str(), a) {
                    assert(p.section_ids@[k as int]@ == a@);
                    return true;
                }
                k += 1;
            }
            false
        },
    }
}

/// Resolves a target against one page: the anchor scopes the candidate
/// blocks (or selects them all when there is no excerpt), and the
/// excerpt must match exactly one of them.
fn resolve_target(page: &MeasuredPage, normalized: &Vec<Vec<char>>, anchor: Option<&str>, excerpt: Option<&str>) -> (r: TargetHit)
    requires
        normalized_page(*page, normalized@),
    ensures
        (r is NoSection) == !names_section(*page, opt_str(anchor)),
        r matches TargetHit::Blocks(v) ==> lists_exactly(
            v@,
            page.blocks@.len() as int,
            |j: int| targets_block(*page, opt_str(anchor), opt_str(excerpt), j),
        ),
        r matches TargetHit::Ambiguous(v) ==> excerpt is Some && v@.len() > 1,
        r matches TargetHit::Ambiguous(v) ==> forall|j: int| 0 <= j < v@.len() ==> page.blocks@.len() > #[trigger] v@[j],
        r is NoMatch ==> excerpt is Some,
        !(r is Blocks) ==> forall|j: int| !#[trigger] targets_block(*page, opt_str(anchor), opt_str(excerpt), j),
        (r is Blocks) == target_resolves(*page, opt_str(anchor), opt_str(excerpt)),
        (r is Ambiguous) == target_ambiguous(*page, opt_str(anchor), opt_str(excerpt)),
{
    let ghost a = opt_str(anchor);
    let ghost x = opt_str(excerpt);
    if !names_section_exec(page, anchor) {
        return TargetHit::NoSection;
    }
    assert(names_section(*page, a));
    let n = page.blocks.len();
    let needle: Vec<char> = match excerpt {
        Some(e) => {
            let ec = chars_of(e);
            normalize_chars(ec.as_slice())
        },
        None => Vec::new(),
    };
    let mut hits: Vec<usize> = Vec::new();
    let mut j: usize = 0;
    while j < n
        invariant
            n == page.blocks@.len(),
            j <= n,
            normalized_page(*page, normalized@),
            a == opt_str(anchor),
            x == opt_str(excerpt),
            excerpt is Some ==> needle@ == norm_ws(x->0),
            lists_exactly(hits@, j as int, |k: int| selects(*page, a, x, k)),
            names_section(*page, a),
        decreases n - j,
    {
        let candidate = in_section_exec(&page.blocks[j], anchor);
        let chosen = candidate && match excerpt {
            None => true,
            Some(_) => needle.len() > 0 && contains_chars(normalized[j].as_slice(), needle.as_slice()),
        };
        assert(chosen == selects(*page, a, x, j as int));
        proof {
            if chosen {
                lemma_lists_push(hits@, j as int, |k: int| selects(*page, a, x, k), j);
            } else {
                lemma_lists_skip(hits@, j as int, |k: int| selects(*page, a, x, k));
            }
        }
        if chosen {
            hits.push(j);
        }
        j += 1;
    }
    let ghost sel = |k: int| selects(*page, a, x, k);
    let ghost tb = |k: int| targets_block(*page, a, x, k);
    assert(lists_exactly(hits@, n as int, sel));
    assert forall|k: int| #[trigger] selects(*page, a, x, k) implies 0 <= k < n by {}
    match excerpt {
        None => {
            assert forall|k: int| #[trigger] sel(k) == tb(k) by {}
            proof {
                lemma_lists_equiv(hits@, n as int, sel, tb);
            }
            TargetHit::Blocks(hits)
        },
        Some(_) => {
            if hits.len() == 0 {
                assert forall|k: int| !#[trigger] selects(*page, a, x, k) by {
                    if selects(*page, a, x, k) {
                        assert(sel(k));
                        lemma_lists_member(hits@, n as int, sel, k);
                    }
                }
                assert(!selects_one(*page, a, x));
                assert(!target_ambiguous(*page, a, x));
                TargetHit::NoMatch
            } else if hits.len() == 1 {
                let ghost only = hits@[0] as int;
                assert(sel(only));
                assert forall|m: int| #[trigger] selects(*page, a, x, m) implies m == only by {
                    assert(sel(m));
                    lemma_lists_member(hits@, n as int, sel, m);
                }
                assert(selects_one(*page, a, x));
                assert(!target_ambiguous(*page, a, x)) by {
                    if target_ambiguous(*page, a, x) {
                        let (k1, k2) = choose|k1: int, k2: int|
                            k1 != k2 && #[trigger] selects(*page, a, x, k1) && #[trigger] selects(*page, a, x, k2);
                    }
                }
                assert forall|k: int| #[trigger] sel(k) == tb(k) by {}
                proof {
                    lemma_lists_equiv(hits@, n as int, sel, tb);
                }
                TargetHit::Blocks(hits)
            } else {
                assert(hits@[0] < hits@[1]);
                assert(sel(hits@[0] as int));
                assert(sel(hits@[1] as int));
                assert(!selects_one(*page, a, x)) by {
                    if selects_one(*page, a, x) {
                        let k = choose|k: int| #[trigger] selects(*page, a, x, k) && forall|m: int| #[trigger] selects(*page, a, x, m) ==> m == k;
                        assert(selects(*page, a, x, hits@[0] as int));
                        assert(selects(*page, a, x, hits@[1] as int));
                    }
                }
                assert forall|j: int| 0 <= j < hits@.len() implies page.blocks@.len() > #[trigger] hits@[j] by {
                    assert(sel(hits@[j] as int));
                }
                assert(selects(*page, a, x, hits@[0] as int) && selects(*page, a, x, hits@[1] as int));
                assert(target_ambiguous(*page, a, x));
                TargetHit::Ambiguous(hits)
            }
        },
    }
}

// ---------------------------------------------------------------------
// The pages a target names
// ---------------------------------------------------------------------

fn identity_of(c: &Coords) -> (r: Vec<char>)
    ensures
        r@ == page_identity(c@),
{
    let mut out = chars_of(c.component.as_str());
    out.push(':');
    let m = chars_of(c.module.as_str());
    let mut k: usize = 0;
    let ghost o0 = out@;
    while k < m.len()
        invariant
            k <= m.len(),
            out@ == o0 + m@.take(k as int),
        decreases m.len() - k,
    {
        out.push(m[k]);
        k += 1;
        assert(m@.take(k as int) == m@.take(k - 1).push(m@[k - 1]));
    }
    assert(m@.take(m.len() as int) == m@);
    out.push(':');
    let p = chars_of(c.path.as_str());
    let ghost o1 = out@;
    let mut k: usize = 0;
    while k < p.len()
        invariant
            k <= p.len(),
            out@ == o1 + p@.take(k as int),
        decreases p.len() - k,
    {
        out.push(p[k]);
        k += 1;
        assert(p@.take(k as int) == p@.take(k - 1).push(p@[k - 1]));
    }
    assert(p@.take(p.len() as int) == p@);
    proof {
        reveal_strlit(":");
        assert(":"@ == seq![':']);
        assert(o0 == c.component@ + ":"@);
        assert(o1 == o0 + c.module@ + ":"@);
    }
    assert(out@ =~= page_identity(c@));
    out
}

/// Whether identities stand in strictly increasing code-point order (so
/// none is repeated).
pub open spec fn ids_sorted(s: Seq<Seq<char>>) -> bool {
    forall|a: int, b: int| 0 <= a < b < s.len() ==> lex_sign(#[trigger] s[a], #[trigger] s[b]) < 0
}

/// Inserting into a sorted run at a place between smaller and larger
/// identities keeps it sorted.
proof fn lemma_insert_sorted(s: Seq<Seq<char>>, k: int, x: Seq<char>)
    requires
        ids_sorted(s),
        0 <= k <= s.len(),
        forall|m: int| 0 <= m < k ==> lex_sign(#[trigger] s[m], x) < 0,
        k < s.len() ==> lex_sign(x, s[k]) < 0,
    ensures
        ids_sorted(s.insert(k, x)),
{
    let t = s.insert(k, x);
    assert forall|a: int, b: int| 0 <= a < b < t.len() implies lex_sign(#[trigger] t[a], #[trigger] t[b]) < 0 by {
        if b < k {
            assert(t[a] == s[a] && t[b] == s[b]);
        } else if b == k {
            assert(t[a] == s[a] && t[b] == x);
        } else if a == k {
            assert(t[b] == s[b - 1]);
            if b - 1 > k {
                assert(lex_sign(s[k], s[b - 1]) < 0);
                lemma_lex_sign_trans(x, s[k], s[b - 1]);
                if lex_sign(x, s[b - 1]) == 0 {
                    lemma_lex_sign_zero(x, s[b - 1]);
                    lemma_lex_sign_antisym(s[k], s[b - 1]);
                }
            }
        } else if a < k {
            assert(t[a] == s[a] && t[b] == s[b - 1]);
        } else {
            assert(t[a] == s[a - 1] && t[b] == s[b - 1]);
        }
    }
}

/// Inserts `id` into a list of identities, before the first one that
/// sorts after it, unless an equal one comes first: the list afterwards
/// holds exactly the identities before and `id`, and a sorted list stays
/// sorted.
fn insert_identity(ids: &mut Vec<Vec<char>>, id: Vec<char>)
    ensures
        forall|x: Seq<char>| views(final(ids)@).contains(x) <==> (views(old(ids)@).contains(x) || x == id@),
        ids_sorted(views(old(ids)@)) ==> ids_sorted(views(final(ids)@)),
{
    let ghost s = views(ids@);
    let mut k: usize = 0;
    while k < ids.len() && compare_chars(ids[k].as_slice(), id.as_slice()) < 0
        invariant
            k <= ids.len(),
            views(ids@) == s,
            forall|m: int| 0 <= m < k ==> lex_sign(#[trigger] s[m], id@) < 0,
        decreases ids.len() - k,
    {
        proof {
            assert(s[k as int] == ids@[k as int]@);
        }
        k += 1;
    }
    if k < ids.len() {
        let c = compare_chars(ids[k].as_slice(), id.as_slice());
        proof {
            assert(s[k as int] == ids@[k as int]@);
        }
        if c == 0 {
            proof {
                lemma_lex_sign_zero(s[k as int], id@);
                assert(s.contains(id@));
            }
            return;
        }
    }
    let ghost old_ids = ids@;
    ids.insert(k, id);
    proof {
        assert(views(ids@) =~= s.insert(k as int, id@));
        let t = s.insert(k as int, id@);
        assert forall|x: Seq<char>| t.contains(x) <==> (s.contains(x) || x == id@) by {
            if t.contains(x) {
                let j = choose|j: int| 0 <= j < t.len() && t[j] == x;
                if j < k {
                    assert(s[j] == x);
                } else if j > k {
                    assert(s[j - 1] == x);
                }
            }
            if s.contains(x) {
                let j = choose|j: int| 0 <= j < s.len() && s[j] == x;
                if j < k {
                    assert(t[j] == x);
                } else {
                    assert(t[j + 1] == x);
                }
            }
            if x == id@ {
                assert(t[k as int] == x);
            }
        }
        if ids_sorted(s) {
            if (k as int) < s.len() {
                lemma_lex_sign_antisym(s[k as int], id@);
            }
            lemma_insert_sorted(s, k as int, id@);
        }
    }
}

/// The pages a path-form target names within `scope`: `Err` names the
/// distinct pages, sorted, when more than one matches.
fn pages_for_path(pages: &[MeasuredPage], scope: usize, path: &str) -> (r: Result<Vec<usize>, Vec<Vec<char>>>)
    ensures
        (r is Ok) == !path_ambiguous(pages@, scope, path@),
        r matches Ok(v) ==> lists_exactly(v@, pages@.len() as int, |i: int| path_target(pages@[i], scope, path@)),
{
    let ghost pt = |i: int| path_target(pages@[i], scope, path@);
    let mut hits: Vec<usize> = Vec::new();
    let mut ids: Vec<Vec<char>> = Vec::new();
    let mut first: Option<Vec<char>> = None;
    let mut amb = false;
    let mut i: usize = 0;
    while i < pages.len()
        invariant
            i <= pages.len(),
            pt == (|i: int| path_target(pages@[i], scope, path@)),
            lists_exactly(hits@, i as int, pt),
            first is None ==> forall|a: int| 0 <= a < i ==> !#[trigger] path_target(pages@[a], scope, path@),
            first matches Some(f) ==> exists|a: int| 0 <= a < i && #[trigger] path_target(pages@[a], scope, path@) && page_identity(pages@[a].coords@) == f@,
            !amb ==> (first matches Some(f) ==> forall|a: int| 0 <= a < i && #[trigger] path_target(pages@[a], scope, path@) ==> page_identity(pages@[a].coords@) == f@),
            amb ==> path_ambiguous(pages@, scope, path@),
        decreases pages.len() - i,
    {
        let hit = pages[i].scope == scope && path_matches(pages[i].repo_path.as_str(), path);
        assert(hit == pt(i as int));
        proof {
            if hit {
                lemma_lists_push(hits@, i as int, pt, i);
            } else {
                lemma_lists_skip(hits@, i as int, pt);
            }
        }
        if hit {
            hits.push(i);
            let id = identity_of(&pages[i].coords);
            match &first {
                None => {
                    first = Some(copy_chars_vec(&id));
                },
                Some(f) => {
                    if !chars_eq(f.as_slice(), id.as_slice()) {
                        proof {
                            let w = choose|a: int| 0 <= a < i && #[trigger] path_target(pages@[a], scope, path@) && page_identity(pages@[a].coords@) == f@;
                            assert(path_target(pages@[i as int], scope, path@));
                        }
                        amb = true;
                    }
                },
            }
            insert_identity(&mut ids, id);
        }
        i += 1;
    }
    if amb {
        Err(ids)
    } else {
        assert(!path_ambiguous(pages@, scope, path@)) by {
            if path_ambiguous(pages@, scope, path@) {
                let (a, b) = choose|a: int, b: int|
                    0 <= a < pages@.len() && 0 <= b < pages@.len() && #[trigger] path_target(pages@[a], scope, path@)
                        && #[trigger] path_target(pages@[b], scope, path@) && page_identity(pages@[a].coords@)
                        != page_identity(pages@[b].coords@);
                assert(first is Some);
            }
        }
        Ok(hits)
    }
}

fn copy_chars_vec(v: &Vec<char>) -> (r: Vec<char>)
    ensures
        r@ == v@,
{
    slice_vec(v.as_slice(), 0, v.len())
}

/// The pages a resource-ID target names, across every scope: every
/// measured version of that page (or the one version named).
fn pages_for_resource_id(pages: &[MeasuredPage], id: &str) -> (r: Vec<usize>)
    ensures
        lists_exactly(r@, pages@.len() as int, |i: int| id_target(pages@[i], id@)),
{
    let ghost it = |i: int| id_target(pages@[i], id@);
    let mut out: Vec<usize> = Vec::new();
    let reference = match ResourceRef::parse(id) {
        Some(r) => r,
        None => {
            assert forall|k: int| 0 <= k < pages@.len() && #[trigger] it(k) implies lists_index(out@, k) by {}
            return out;
        },
    };
    let component = match &reference.component {
        Some(c) => c,
        None => {
            assert forall|k: int| 0 <= k < pages@.len() && #[trigger] it(k) implies lists_index(out@, k) by {}
            return out;
        },
    };
    let module: &str = match &reference.module {
        Some(m) => m.as_str(),
        None => "ROOT",
    };
    proof {
        reveal_strlit("ROOT");
    }
    let mut i: usize = 0;
    while i < pages.len()
        invariant
            i <= pages.len(),
            it == (|i: int| id_target(pages@[i], id@)),
            parse_ref(id@) == Some(reference@),
            reference@.component == Some(component@),
            module@ == (match reference@.module {
                Some(m) => m,
                None => "ROOT"@,
            }),
            lists_exactly(out@, i as int, it),
        decreases pages.len() - i,
    {
        let c = &pages[i].coords;
        let version_ok = match &reference.version {
            Some(v) => match &c.version {
                Some(w) => *w == *v,
                None => false,
            },
            None => true,
        };
        let hit = c.component == *component && str_eq(c.module.as_str(), module) && c.path == reference.path
            && version_ok;
        assert(hit == it(i as int));
        proof {
            if hit {
                lemma_lists_push(out@, i as int, it, i);
            } else {
                lemma_lists_skip(out@, i as int, it);
            }
        }
        if hit {
            out.push(i);
        }
        i += 1;
    }
    out
}

// ---------------------------------------------------------------------
// What resolution decides, block by block
// ---------------------------------------------------------------------

/// Whether claim `c` names page `i`.
pub open spec fn claim_targets_page(pages: Seq<MeasuredPage>, c: Claim, i: int) -> bool {
    match c.target {
        ClaimTarget::Path(p) => path_resolves(pages, c.site.scope, p@, i),
        ClaimTarget::ResourceId(id) => 0 <= i < pages.len() && id_target(pages[i], id@),
    }
}

/// Whether claim `c` resolves to block `j` of page `i`.
pub open spec fn claim_hits(pages: Seq<MeasuredPage>, c: Claim, i: int, j: int) -> bool {
    claim_targets_page(pages, c, i) && targets_block(pages[i], opt_view(c.anchor), opt_view(c.excerpt), j)
}

/// Whether sidecar `s` classifies page `i`.
pub open spec fn sidecar_targets_page(pages: Seq<MeasuredPage>, s: Sidecar, i: int) -> bool {
    path_resolves(pages, s.scope, s.spec_path@, i)
}

/// Whether entry `e` of sidecar `s` resolves to block `j` of page `i`.
pub open spec fn pair_hits(pages: Seq<MeasuredPage>, sidecars: Seq<Sidecar>, s: int, e: int, i: int, j: int) -> bool {
    0 <= s < sidecars.len() && 0 <= e < sidecars[s].entries@.len() && sidecar_targets_page(pages, sidecars[s], i)
        && targets_block(
        pages[i],
        opt_view(sidecars[s].entries@[e].section),
        opt_view(sidecars[s].entries@[e].excerpt),
        j,
    )
}

/// File order of sidecar entries: by sidecar, then by entry.
pub open spec fn lex_before(s1: int, e1: int, s2: int, e2: int) -> bool {
    s1 < s2 || (s1 == s2 && e1 < e2)
}

/// Whether entry `e` of sidecar `s` is the first entry, in file order,
/// that resolves to block `j` of page `i`: the one that classifies it.
pub open spec fn first_entry(pages: Seq<MeasuredPage>, sidecars: Seq<Sidecar>, i: int, j: int, s: int, e: int) -> bool {
    pair_hits(pages, sidecars, s, e, i, j) && forall|s2: int, e2: int|
        lex_before(s2, e2, s, e) ==> !#[trigger] pair_hits(pages, sidecars, s2, e2, i, j)
}

/// The sidecar entry that classifies block `j` of page `i`, if any.
pub open spec fn classifying_entry(pages: Seq<MeasuredPage>, sidecars: Seq<Sidecar>, i: int, j: int) -> Option<SidecarEntry> {
    if exists|s: int, e: int| #[trigger] first_entry(pages, sidecars, i, j, s, e) {
        let (s, e) = choose|s: int, e: int| #[trigger] first_entry(pages, sidecars, i, j, s, e);
        Some(sidecars[s].entries@[e])
    } else {
        None
    }
}

/// Whether some sidecar classifying page `i` marks it reviewed.
pub open spec fn reviewed_page(pages: Seq<MeasuredPage>, sidecars: Seq<Sidecar>, i: int) -> bool {
    exists|s: int| 0 <= s < sidecars.len() && #[trigger] sidecars[s].reviewed && sidecar_targets_page(pages, sidecars[s], i)
}

/// Whether block `j` of page `i` is excluded from whole-section claims:
/// its sidecar entry makes it non-normative or out of scope, or, with no
/// entry, the structural heuristic reads it as non-normative.
pub open spec fn excluded(pages: Seq<MeasuredPage>, sidecars: Seq<Sidecar>, i: int, j: int) -> bool {
    match classifying_entry(pages, sidecars, i, j) {
        Some(en) => en.kind == SidecarKind::NonNormative || en.kind == SidecarKind::OutOfScope,
        None => pages[i].blocks@[j].kind == StructuralKind::NonNormative,
    }
}

/// Whether claim `c` counts for block `j` of page `i`: it resolves to the
/// block, and it is not a whole-section claim on an excluded block.
pub open spec fn counts_claim(
    pages: Seq<MeasuredPage>,
    sidecars: Seq<Sidecar>,
    claims: Seq<Claim>,
    i: int,
    j: int,
    c: int,
) -> bool {
    0 <= c < claims.len() && claim_hits(pages, claims[c], i, j) && !(claims[c].excerpt is None && excluded(
        pages,
        sidecars,
        i,
        j,
    ))
}

/// The state block `j` of page `i` resolves to: `verified` when a claim
/// counts for it; else its sidecar entry's state; else the structural
/// default (`non-normative`, or prose: `uncovered` on a reviewed page and
/// `unclassified` otherwise).
pub open spec fn resolved_state(
    pages: Seq<MeasuredPage>,
    sidecars: Seq<Sidecar>,
    claims: Seq<Claim>,
    i: int,
    j: int,
) -> BlockState {
    if exists|c: int| #[trigger] counts_claim(pages, sidecars, claims, i, j, c) {
        BlockState::Verified
    } else {
        match classifying_entry(pages, sidecars, i, j) {
            Some(en) => kind_state(en.kind),
            None => if pages[i].blocks@[j].kind == StructuralKind::NonNormative {
                BlockState::NonNormative
            } else if reviewed_page(pages, sidecars, i) {
                BlockState::Uncovered
            } else {
                BlockState::Unclassified
            },
        }
    }
}

/// The text of an optional tracking reference.
pub open spec fn tracking_view(t: Option<Tracking>) -> Option<(Seq<char>, Seq<char>)> {
    match t {
        Some(tr) => Some((tr.raw@, tr.url@)),
        None => None,
    }
}

/// Whether `b` is what resolution makes of block `j` of page `i`.
pub open spec fn block_resolved(
    pages: Seq<MeasuredPage>,
    sidecars: Seq<Sidecar>,
    claims: Seq<Claim>,
    i: int,
    j: int,
    b: BlockCoverage,
) -> bool {
    let block = pages[i].blocks@[j];
    let entry = classifying_entry(pages, sidecars, i, j);
    &&& b.state == resolved_state(pages, sidecars, claims, i, j)
    &&& lists_exactly(b.claims@, claims.len() as int, |c: int| counts_claim(pages, sidecars, claims, i, j, c))
    &&& b.context@ == block.context@
    &&& b.page_lines == block.page_lines
    &&& opt_view(b.reason) == (if b.state == BlockState::OutOfScope {
        opt_view(entry->0.reason)
    } else {
        None
    })
    &&& tracking_view(b.tracking) == (if b.state == BlockState::Planned {
        tracking_view(entry->0.tracking)
    } else {
        None
    })
}

/// Two first entries of one block are the same entry.
proof fn lemma_first_entry_unique(pages: Seq<MeasuredPage>, sidecars: Seq<Sidecar>, i: int, j: int, s: int, e: int, s2: int, e2: int)
    requires
        first_entry(pages, sidecars, i, j, s, e),
        first_entry(pages, sidecars, i, j, s2, e2),
    ensures
        s == s2 && e == e2,
{
    if lex_before(s, e, s2, e2) {
        assert(!pair_hits(pages, sidecars, s, e, i, j));
    } else if lex_before(s2, e2, s, e) {
        assert(!pair_hits(pages, sidecars, s2, e2, i, j));
    }
}

/// The classifying entry is the first entry that resolves to the block.
proof fn lemma_classifying_entry(pages: Seq<MeasuredPage>, sidecars: Seq<Sidecar>, i: int, j: int, s: int, e: int)
    requires
        first_entry(pages, sidecars, i, j, s, e),
    ensures
        classifying_entry(pages, sidecars, i, j) == Some(sidecars[s].entries@[e]),
{
    assert(first_entry(pages, sidecars, i, j, s, e));
    let (s1, e1) = choose|s1: int, e1: int| #[trigger] first_entry(pages, sidecars, i, j, s1, e1);
    lemma_first_entry_unique(pages, sidecars, i, j, s, e, s1, e1);
}

/// Without any entry resolving to the block, none classifies it.
proof fn lemma_no_classifying_entry(pages: Seq<MeasuredPage>, sidecars: Seq<Sidecar>, i: int, j: int)
    requires
        forall|s: int, e: int| !#[trigger] pair_hits(pages, sidecars, s, e, i, j),
    ensures
        classifying_entry(pages, sidecars, i, j) is None,
{
    if exists|s: int, e: int| #[trigger] first_entry(pages, sidecars, i, j, s, e) {
        let (s1, e1) = choose|s1: int, e1: int| #[trigger] first_entry(pages, sidecars, i, j, s1, e1);
        assert(pair_hits(pages, sidecars, s1, e1, i, j));
    }
}

/// What a slot records once every entry before `(s, e)` in file order has
/// been applied: the first of them resolving to the block, or nothing
/// when none does.
pub open spec fn slot_ok(
    pages: Seq<MeasuredPage>,
    sidecars: Seq<Sidecar>,
    slot: Option<(usize, usize)>,
    i: int,
    j: int,
    s: int,
    e: int,
) -> bool {
    match slot {
        None => forall|s2: int, e2: int| lex_before(s2, e2, s, e) ==> !#[trigger] pair_hits(pages, sidecars, s2, e2, i, j),
        Some((s0, e0)) => lex_before(s0 as int, e0 as int, s, e) && first_entry(pages, sidecars, i, j, s0 as int, e0 as int),
    }
}

/// Whether every slot is right for entries before `(s, e)`.
pub open spec fn slots_upto(
    pages: Seq<MeasuredPage>,
    sidecars: Seq<Sidecar>,
    slots: Seq<Vec<Option<(usize, usize)>>>,
    s: int,
    e: int,
) -> bool {
    &&& slots.len() == pages.len()
    &&& forall|i: int| 0 <= i < pages.len() ==> (#[trigger] slots[i])@.len() == pages[i].blocks@.len()
    &&& forall|i: int, j: int|
        0 <= i < pages.len() && 0 <= j < pages[i].blocks@.len() ==> slot_ok(pages, sidecars, #[trigger] slots[i]@[j], i, j, s, e)
}

/// The slot of a block entry `(s, e)` does not resolve to stays right
/// one entry further.
proof fn lemma_slot_skip(
    pages: Seq<MeasuredPage>,
    sidecars: Seq<Sidecar>,
    slot: Option<(usize, usize)>,
    i: int,
    j: int,
    s: int,
    e: int,
)
    requires
        slot_ok(pages, sidecars, slot, i, j, s, e),
        !pair_hits(pages, sidecars, s, e, i, j),
    ensures
        slot_ok(pages, sidecars, slot, i, j, s, e + 1),
{
    if slot is None {
        assert forall|s2: int, e2: int| lex_before(s2, e2, s, e + 1) implies !#[trigger] pair_hits(pages, sidecars, s2, e2, i, j) by {
            if !lex_before(s2, e2, s, e) {
                assert(s2 == s && e2 == e);
            }
        }
    }
}

/// Past the last entry of sidecar `s`, the slots are right up to the
/// next sidecar.
proof fn lemma_slots_next_sidecar(
    pages: Seq<MeasuredPage>,
    sidecars: Seq<Sidecar>,
    slots: Seq<Vec<Option<(usize, usize)>>>,
    s: int,
)
    requires
        0 <= s < sidecars.len(),
        slots_upto(pages, sidecars, slots, s, sidecars[s].entries@.len() as int),
    ensures
        slots_upto(pages, sidecars, slots, s + 1, 0),
{
    let n = sidecars[s].entries@.len() as int;
    assert forall|i: int, j: int| 0 <= i < pages.len() && 0 <= j < pages[i].blocks@.len() implies slot_ok(
        pages,
        sidecars,
        #[trigger] slots[i]@[j],
        i,
        j,
        s + 1,
        0,
    ) by {
        assert(slot_ok(pages, sidecars, slots[i]@[j], i, j, s, n));
        if slots[i]@[j] is None {
            assert forall|s2: int, e2: int| lex_before(s2, e2, s + 1, 0) implies !#[trigger] pair_hits(
                pages,
                sidecars,
                s2,
                e2,
                i,
                j,
            ) by {
                if !lex_before(s2, e2, s, n) {
                    if s2 == s + 1 {
                        assert(e2 < 0);
                    } else {
                        assert(s2 == s && e2 >= n);
                    }
                }
            }
        }
    }
}

/// The number of bytes UTF-8 encodes a character in.
pub open spec fn utf8_width(c: char) -> nat {
    if (c as u32) < 0x80 {
        1
    } else if (c as u32) < 0x800 {
        2
    } else if (c as u32) < 0x10000 {
        3
    } else {
        4
    }
}

/// The UTF-8 length of a character.
fn utf8_len(c: char) -> (n: usize)
    ensures
        n == utf8_width(c),
        1 <= n <= 4,
{
    let v = c as u32;
    if v < 0x80 {
        1
    } else if v < 0x800 {
        2
    } else if v < 0x10000 {
        3
    } else {
        4
    }
}

/// The first few words of a block, for messages: at most sixty
/// characters, cut at a space past the middle when there is one, and
/// marked with `…` when cut.
fn short_excerpt(normalized: &[char]) -> (r: String)
    ensures
        normalized@.len() <= 60 ==> r@ == normalized@,
{
    if normalized.len() <= 60 {
        return string_of(normalized);
    }
    let cut = slice_vec(normalized, 0, 60);
    let mut space: Option<usize> = None;
    let mut k: usize = 0;
    while k < cut.len()
        invariant
            k <= cut.len(),
            cut.len() == 60,
            space matches Some(p) ==> p < k,
        decreases cut.len() - k,
    {
        if cut[k] == ' ' {
            space = Some(k);
        }
        k += 1;
    }
    let mut out = match space {
        Some(p) => {
            let mut bytes: usize = 0;
            let mut m: usize = 0;
            while m < p
                invariant
                    m <= p,
                    p < cut.len(),
                    cut.len() == 60,
                    bytes <= 4 * m,
                decreases p - m,
            {
                bytes = bytes + utf8_len(cut[m]);
                m += 1;
            }
            if bytes > 30 {
                let head = slice_vec(cut.as_slice(), 0, p);
                string_of(head.as_slice())
            } else {
                string_of(cut.as_slice())
            }
        },
        None => string_of(cut.as_slice()),
    };
    push_str(&mut out, "\u{2026}");
    out
}

/// Appends the decimal digits of `n`.
fn push_number(out: &mut String, n: usize)
    ensures
        final(out)@ == old(out)@ + dec(n as nat),
{
    let mut digits: Vec<char> = Vec::new();
    crate::text::push_dec(&mut digits, n as u64);
    push_chars(out, digits.as_slice());
}

/// The conflict errors entry `e` of sidecar `s` raises on page `t`: one per
/// block, in block order, that an earlier entry of another list
/// classifies.
pub open spec fn entry_conflicts(pages: Seq<MeasuredPage>, sidecars: Seq<Sidecar>, s: int, e: int, t: int) -> spec_fn(int) -> Seq<Mark> {
    |j: int| if conflict_at(pages, sidecars, s, e, t, j) {
        seq![(DiagnosticKind::SidecarConflict, sidecars[s].file@)]
    } else {
        Seq::empty()
    }
}

/// The errors entry `e` of sidecar `s` raises on each version of its
/// page: its conflicts where it resolves, an ambiguity error where its
/// excerpt matches several blocks.
pub open spec fn entry_page_marks(pages: Seq<MeasuredPage>, sidecars: Seq<Sidecar>, s: int, e: int) -> spec_fn(int) -> Seq<Mark> {
    |t: int| if !sidecar_targets_page(pages, sidecars[s], t) {
        Seq::empty()
    } else if target_resolves(pages[t], opt_view(sidecars[s].entries@[e].section), opt_view(sidecars[s].entries@[e].excerpt)) {
        marks_upto(entry_conflicts(pages, sidecars, s, e, t), pages[t].blocks@.len() as int)
    } else if target_ambiguous(pages[t], opt_view(sidecars[s].entries@[e].section), opt_view(sidecars[s].entries@[e].excerpt)) {
        seq![(DiagnosticKind::Ambiguous, sidecars[s].file@)]
    } else {
        Seq::empty()
    }
}

/// The hard errors entry `e` of sidecar `s` raises, in order, by kind and
/// location: those on each version of its page, then, when it neither
/// resolves nor is ambiguous on any version, one saying whether the
/// section or the excerpt is missing.
pub open spec fn entry_marks(pages: Seq<MeasuredPage>, sidecars: Seq<Sidecar>, s: int, e: int) -> Seq<Mark> {
    let sc = sidecars[s];
    let en = sc.entries@[e];
    marks_upto(entry_page_marks(pages, sidecars, s, e), pages.len() as int) + if exists|i: int|
        #[trigger] sidecar_targets_page(pages, sc, i) && (target_resolves(pages[i], opt_view(en.section), opt_view(en.excerpt))
            || target_ambiguous(pages[i], opt_view(en.section), opt_view(en.excerpt))) {
        Seq::empty()
    } else if forall|i: int| #[trigger] sidecar_targets_page(pages, sc, i) ==> !names_section(pages[i], opt_view(en.section)) {
        seq![(DiagnosticKind::NoSection, sc.file@)]
    } else {
        seq![(DiagnosticKind::NoMatch, sc.file@)]
    }
}

/// The hard errors of the first `n` entries of sidecar `s`.
pub open spec fn entries_marks(pages: Seq<MeasuredPage>, sidecars: Seq<Sidecar>, s: int, n: int) -> Seq<Mark>
    decreases n,
{
    if n <= 0 {
        Seq::empty()
    } else {
        entries_marks(pages, sidecars, s, n - 1) + entry_marks(pages, sidecars, s, n - 1)
    }
}

/// The hard errors sidecar `s` raises: a spec path naming several pages,
/// or none; else its entries' errors in entry order.
pub open spec fn sidecar_marks(pages: Seq<MeasuredPage>, sidecars: Seq<Sidecar>, s: int) -> Seq<Mark> {
    let sc = sidecars[s];
    if path_ambiguous(pages, sc.scope, sc.spec_path@) {
        seq![(DiagnosticKind::AmbiguousPage, sc.file@)]
    } else if !(exists|i: int| #[trigger] sidecar_targets_page(pages, sc, i)) {
        seq![(DiagnosticKind::UnknownPage, sc.file@)]
    } else {
        entries_marks(pages, sidecars, s, sc.entries@.len() as int)
    }
}

/// The hard errors of the first `n` sidecars, in order.
pub open spec fn sidecars_marks(pages: Seq<MeasuredPage>, sidecars: Seq<Sidecar>, n: int) -> Seq<Mark>
    decreases n,
{
    if n <= 0 {
        Seq::empty()
    } else {
        sidecars_marks(pages, sidecars, n - 1) + sidecar_marks(pages, sidecars, n - 1)
    }
}

/// Records entry `(s, e)` on the blocks `bs` of page `t` it resolves to;
/// a block a different list already targets is a conflict.
fn apply_entry_row(
    row: &mut Vec<Option<(usize, usize)>>,
    pages: &[MeasuredPage],
    sidecars: &[Sidecar],
    normalized: &Vec<Vec<char>>,
    s: usize,
    e: usize,
    t: usize,
    bs: &Vec<usize>,
    errors: &mut Vec<Diagnostic>,
)
    requires
        t < pages@.len(),
        s < sidecars@.len(),
        e < sidecars@[s as int].entries@.len(),
        normalized_page(pages@[t as int], normalized@),
        old(row)@.len() == pages@[t as int].blocks@.len(),
        lists_exactly(bs@, pages@[t as int].blocks@.len() as int, |j: int| pair_hits(pages@, sidecars@, s as int, e as int, t as int, j)),
        forall|j: int| 0 <= j < old(row)@.len() ==> slot_ok(pages@, sidecars@, #[trigger] old(row)@[j], t as int, j, s as int, e as int),
        forall|k: int| 0 <= k < old(errors)@.len() ==> kind_is_error(#[trigger] old(errors)@[k].kind),
    ensures
        final(row)@.len() == old(row)@.len(),
        forall|j: int| 0 <= j < final(row)@.len() ==> slot_ok(pages@, sidecars@, #[trigger] final(row)@[j], t as int, j, s as int, e as int + 1),
        forall|k: int| 0 <= k < final(errors)@.len() ==> kind_is_error(#[trigger] final(errors)@[k].kind),
        final(errors)@.len() >= old(errors)@.len(),
        final(errors)@.len() > old(errors)@.len() ==> sidecar_conflict(pages@, sidecars@),
        forall|j: int| #[trigger] conflict_at(pages@, sidecars@, s as int, e as int, t as int, j) ==> final(errors)@.len() > old(errors)@.len(),
        diag_marks(final(errors)@) == diag_marks(old(errors)@) + marks_upto(
            entry_conflicts(pages@, sidecars@, s as int, e as int, t as int),
            pages@[t as int].blocks@.len() as int,
        ),
{
    let ghost e0 = errors@.len();
    let ghost m0 = diag_marks(errors@);
    let ghost cg = entry_conflicts(pages@, sidecars@, s as int, e as int, t as int);
    let ghost ph = |j: int| pair_hits(pages@, sidecars@, s as int, e as int, t as int, j);
    let ghost n = row@.len();
    let mut m: usize = 0;
    while m < bs.len()
        invariant
            m <= bs.len(),
            row@.len() == n,
            n == pages@[t as int].blocks@.len(),
            t < pages@.len(),
            s < sidecars@.len(),
            e < sidecars@[s as int].entries@.len(),
            normalized_page(pages@[t as int], normalized@),
            ph == (|j: int| pair_hits(pages@, sidecars@, s as int, e as int, t as int, j)),
            lists_exactly(bs@, n as int, ph),
            forall|j: int| 0 <= j < n ==> if lists_index(bs@.take(m as int), j) {
                slot_ok(pages@, sidecars@, #[trigger] row@[j], t as int, j, s as int, e as int + 1)
            } else {
                slot_ok(pages@, sidecars@, row@[j], t as int, j, s as int, e as int)
            },
            forall|k: int| 0 <= k < errors@.len() ==> kind_is_error(#[trigger] errors@[k].kind),
            errors@.len() >= e0,
            errors@.len() > e0 ==> sidecar_conflict(pages@, sidecars@),
            forall|w: int| 0 <= w < m && #[trigger] conflict_at(pages@, sidecars@, s as int, e as int, t as int, bs@[w] as int) ==> errors@.len() > e0,
            cg == entry_conflicts(pages@, sidecars@, s as int, e as int, t as int),
            diag_marks(errors@) == m0 + marks_along(bs@.take(m as int), cg),
        decreases bs.len() - m,
    {
        let b = bs[m];
        assert(ph(b as int));
        assert(b < row.len());
        assert(!lists_index(bs@.take(m as int), b as int)) by {
            let t0 = bs@.take(m as int);
            if lists_index(t0, b as int) {
                let w = choose|w: int| 0 <= w < t0.len() && t0[w] as int == b as int;
                assert(bs@[w] < bs@[m as int]);
            }
        }
        let ghost old_row = row@;
        let ghost e_before = errors@.len();
        let ghost mb = diag_marks(errors@);
        match row[b] {
            None => {
                row[b] = Some((s, e));
                assert(first_entry(pages@, sidecars@, t as int, b as int, s as int, e as int));
                assert(!conflict_at(pages@, sidecars@, s as int, e as int, t as int, b as int)) by {
                    if conflict_at(pages@, sidecars@, s as int, e as int, t as int, b as int) {
                        let (s1, e1) = choose|s1: int, e1: int| #[trigger] first_entry(pages@, sidecars@, t as int, b as int, s1, e1) && lex_before(s1, e1, s as int, e as int)
                            && sidecars@[s1].entries@[e1].kind != sidecars@[s as int].entries@[e as int].kind;
                        assert(pair_hits(pages@, sidecars@, s1, e1, t as int, b as int));
                    }
                }
            },
            Some((s0, e0)) => {
                assert(conflict_at(pages@, sidecars@, s as int, e as int, t as int, b as int) ==> sidecars@[s0 as int].entries@[e0 as int].kind
                    != sidecars@[s as int].entries@[e as int].kind) by {
                    if conflict_at(pages@, sidecars@, s as int, e as int, t as int, b as int) {
                        let (s1, e1) = choose|s1: int, e1: int| #[trigger] first_entry(pages@, sidecars@, t as int, b as int, s1, e1) && lex_before(s1, e1, s as int, e as int)
                            && sidecars@[s1].entries@[e1].kind != sidecars@[s as int].entries@[e as int].kind;
                        lemma_first_entry_unique(pages@, sidecars@, t as int, b as int, s0 as int, e0 as int, s1, e1);
                    }
                }
                if sidecars[s0].entries[e0].kind != sidecars[s].entries[e].kind {
                    proof {
                        assert(slot_ok(pages@, sidecars@, old_row[b as int], t as int, b as int, s as int, e as int));
                        assert(pair_hits(pages@, sidecars@, s as int, e as int, t as int, b as int));
                        assert(first_entry(pages@, sidecars@, t as int, b as int, s0 as int, e0 as int));
                        assert(sidecar_conflict(pages@, sidecars@));
                    }
                    let mut message = sidecars[s0].entries[e0].display();
                    push_str(&mut message, " and ");
                    let d = sidecars[s].entries[e].display();
                    push_str(&mut message, d.as_str());
                    push_str(&mut message, " both target ");
                    push_str(&mut message, pages[t].url.as_str());
                    push_str(&mut message, " block ");
                    push_number(&mut message, b + 1);
                    push_str(&mut message, " (");
                    let ex = short_excerpt(normalized[b].as_slice());
                    let q = debug_quote(ex.as_str());
                    push_str(&mut message, q.as_str());
                    push_str(&mut message, ")");
                    let diag = Diagnostic { kind: DiagnosticKind::SidecarConflict, at: owned(sidecars[s].file.as_str()), message };
                    let ghost pre = errors@;
                    errors.push(diag);
                    proof {
                        lemma_marks_push(pre, diag);
                        assert(conflict_at(pages@, sidecars@, s as int, e as int, t as int, b as int));
                    }
                }
            },
        }
        proof {
            lemma_marks_along_take(bs@, m as int, cg);
            if errors@.len() > e_before {
                assert(cg(b as int) == seq![(DiagnosticKind::SidecarConflict, sidecars@[s as int].file@)]);
            } else {
                assert(cg(b as int) == Seq::<Mark>::empty());
            }
            assert(diag_marks(errors@) =~= m0 + marks_along(bs@.take(m + 1), cg));
        }
        assert(forall|w: int| 0 <= w < m + 1 && #[trigger] conflict_at(pages@, sidecars@, s as int, e as int, t as int, bs@[w] as int) ==> errors@.len() > e0);
        assert forall|j: int| 0 <= j < n implies if lists_index(bs@.take(m + 1), j) {
            slot_ok(pages@, sidecars@, #[trigger] row@[j], t as int, j, s as int, e as int + 1)
        } else {
            slot_ok(pages@, sidecars@, row@[j], t as int, j, s as int, e as int)
        } by {
            if j == b as int {
                assert(bs@.take(m + 1)[m as int] == b);
                assert(lists_index(bs@.take(m + 1), j));
            } else {
                assert(row@[j] == old_row[j]);
                let t1 = bs@.take(m + 1);
                let t0 = bs@.take(m as int);
                if lists_index(t1, j) {
                    let w = choose|w: int| 0 <= w < t1.len() && t1[w] as int == j;
                    assert(w != m);
                    assert(t0[w] == bs@[w]);
                    assert(lists_index(t0, j));
                } else {
                    if lists_index(t0, j) {
                        let w = choose|w: int| 0 <= w < t0.len() && t0[w] as int == j;
                        assert(t1[w] == bs@[w]);
                    }
                }
            }
        }
        m += 1;
    }
    proof {
        assert(bs@.take(bs@.len() as int) == bs@);
        lemma_marks_along(bs@, n as int, ph, cg);
    }
    assert forall|j: int| #[trigger] conflict_at(pages@, sidecars@, s as int, e as int, t as int, j) implies errors@.len() > e0 by {
        assert(ph(j));
        lemma_lists_member(bs@, n as int, ph, j);
        let w = choose|w: int| 0 <= w < bs@.len() && bs@[w] as int == j;
        assert(conflict_at(pages@, sidecars@, s as int, e as int, t as int, bs@[w] as int));
    }
    assert forall|j: int| 0 <= j < row@.len() implies slot_ok(pages@, sidecars@, #[trigger] row@[j], t as int, j, s as int, e as int + 1) by {
        assert(bs@.take(bs@.len() as int) == bs@);
        if !lists_index(bs@, j) {
            if ph(j) {
                lemma_lists_member(bs@, n as int, ph, j);
            }
            lemma_slot_skip(pages@, sidecars@, row@[j], t as int, j, s as int, e as int);
        }
    }
}

/// The diagnostic for a target whose excerpt matches several blocks of
/// one page version.
fn ambiguous_diag(at: &str, target: &str, page: &MeasuredPage, normalized: &Vec<Vec<char>>, blocks: &Vec<usize>) -> (d: Diagnostic)
    requires
        forall|k: int| 0 <= k < blocks@.len() ==> normalized@.len() > #[trigger] blocks@[k],
    ensures
        d.kind == DiagnosticKind::Ambiguous,
        d.at@ == at@,
{
    let mut message = debug_quote(target);
    push_str(&mut message, " matches ");
    push_number(&mut message, blocks.len());
    push_str(&mut message, " blocks of ");
    push_str(&mut message, page.url.as_str());
    push_str(&mut message, ": ");
    let mut k: usize = 0;
    while k < blocks.len()
        invariant
            k <= blocks@.len(),
            forall|m: int| 0 <= m < blocks@.len() ==> normalized@.len() > #[trigger] blocks@[m],
        decreases blocks.len() - k,
    {
        if k > 0 {
            push_str(&mut message, "; ");
        }
        let b = blocks[k];
        assert(b < normalized.len());
        push_str(&mut message, "block ");
        push_number(&mut message, b + 1);
        push_str(&mut message, " ");
        let ex = short_excerpt(normalized[b].as_slice());
        let q = debug_quote(ex.as_str());
        push_str(&mut message, q.as_str());
        k += 1;
    }
    push_str(&mut message, " \u{2014} quote a longer excerpt or add a #anchor");
    Diagnostic { kind: DiagnosticKind::Ambiguous, at: owned(at), message }
}

/// The diagnostic for a target that matched in no version: no section
/// when the anchor named a section of none of them, else no match.
fn unmatched_diag(at: &str, target: &str, anchor: Option<&str>, no_section: bool, versions: usize, url: &str) -> (d: Diagnostic)
    ensures
        d.kind == (if no_section { DiagnosticKind::NoSection } else { DiagnosticKind::NoMatch }),
        d.at@ == at@,
{
    let mut message = debug_quote(target);
    if no_section {
        push_str(&mut message, ": no section ");
        let a = match anchor {
            Some(a) => a,
            None => "",
        };
        let q = debug_quote(a);
        push_str(&mut message, q.as_str());
        push_str(&mut message, " in any of the ");
        push_number(&mut message, versions);
        push_str(&mut message, " measured version(s) of ");
        push_str(&mut message, url);
        Diagnostic { kind: DiagnosticKind::NoSection, at: owned(at), message }
    } else {
        push_str(&mut message, ": excerpt matches no block in any of the ");
        push_number(&mut message, versions);
        push_str(&mut message, " measured version(s) of ");
        push_str(&mut message, url);
        push_str(&mut message, " (the spec text may have changed)");
        Diagnostic { kind: DiagnosticKind::NoMatch, at: owned(at), message }
    }
}

/// Whether `norm` holds every page's normalized block texts.
pub open spec fn normalized_pages(pages: Seq<MeasuredPage>, norm: Seq<Vec<Vec<char>>>) -> bool {
    norm.len() == pages.len() && forall|i: int| 0 <= i < pages.len() ==> normalized_page(pages[i], (#[trigger] norm[i])@)
}

/// Whether every diagnostic of a list is a hard error.
pub open spec fn all_errors(ds: Seq<Diagnostic>) -> bool {
    forall|k: int| 0 <= k < ds.len() ==> kind_is_error(#[trigger] ds[k].kind)
}

/// Whether every diagnostic of a list is a lint finding.
pub open spec fn all_lint(ds: Seq<Diagnostic>) -> bool {
    forall|k: int| 0 <= k < ds.len() ==> !kind_is_error(#[trigger] ds[k].kind)
}

/// Whether entry `e` of sidecar `s` resolves to block `j` of page `i`,
/// which an earlier entry of another list already classifies.
pub open spec fn conflict_at(pages: Seq<MeasuredPage>, sidecars: Seq<Sidecar>, s: int, e: int, i: int, j: int) -> bool {
    pair_hits(pages, sidecars, s, e, i, j) && exists|s0: int, e0: int|
        #[trigger] first_entry(pages, sidecars, i, j, s0, e0) && lex_before(s0, e0, s, e)
            && sidecars[s0].entries@[e0].kind != sidecars[s].entries@[e].kind
}

/// Whether a later sidecar entry of another list targets a block an
/// earlier entry already classifies.
pub open spec fn sidecar_conflict(pages: Seq<MeasuredPage>, sidecars: Seq<Sidecar>) -> bool {
    exists|s: int, e: int, i: int, j: int, s0: int, e0: int|
        #[trigger] pair_hits(pages, sidecars, s, e, i, j) && #[trigger] first_entry(pages, sidecars, i, j, s0, e0)
            && lex_before(s0, e0, s, e) && sidecars[s0].entries@[e0].kind != sidecars[s].entries@[e].kind
}

/// Whether a sidecar entry's excerpt is ambiguous on no version of its
/// sidecar's page.
pub open spec fn entry_clean(pages: Seq<MeasuredPage>, sc: Sidecar, en: SidecarEntry) -> bool {
    forall|i: int| #[trigger] sidecar_targets_page(pages, sc, i) ==> !target_ambiguous(pages[i], opt_view(en.section), opt_view(en.excerpt))
}

/// Whether a sidecar resolves cleanly: it resolves, and no entry's excerpt
/// is ambiguous on any version of its page.
pub open spec fn sidecar_clean(pages: Seq<MeasuredPage>, sc: Sidecar) -> bool {
    &&& sidecar_resolves(pages, sc)
    &&& forall|e: int| 0 <= e < sc.entries@.len() ==> entry_clean(pages, sc, #[trigger] sc.entries@[e])
}

/// Whether a claim resolves cleanly: it resolves on some version, and its
/// excerpt is ambiguous on no version of the page it names.
pub open spec fn claim_clean(pages: Seq<MeasuredPage>, c: Claim) -> bool {
    &&& claim_resolves(pages, c)
    &&& forall|i: int| #[trigger] claim_targets_page(pages, c, i) ==> !target_ambiguous(pages[i], opt_view(c.anchor), opt_view(c.excerpt))
}

/// Whether the coverage maps hold a hard error: a sidecar that does not
/// resolve cleanly, or two lists on one block.
pub open spec fn sidecars_faulty(pages: Seq<MeasuredPage>, sidecars: Seq<Sidecar>) -> bool {
    (exists|s: int| 0 <= s < sidecars.len() && !sidecar_clean(pages, #[trigger] sidecars[s])) || sidecar_conflict(pages, sidecars)
}

/// Whether some claim does not resolve cleanly.
pub open spec fn claims_faulty(pages: Seq<MeasuredPage>, claims: Seq<Claim>) -> bool {
    exists|c: int| 0 <= c < claims.len() && !claim_clean(pages, #[trigger] claims[c])
}

/// Whether some block is claimed while its coverage map excludes it.
pub open spec fn contradicted(pages: Seq<MeasuredPage>, sidecars: Seq<Sidecar>, claims: Seq<Claim>) -> bool {
    exists|i: int, j: int| 0 <= i < pages.len() && 0 <= j < pages[i].blocks@.len() && #[trigger] contradiction(pages, sidecars, claims, i, j)
}

/// Applies entry `(s, e)` to every version of the page its sidecar
/// classifies.
fn apply_entry(
    pages: &[MeasuredPage],
    sidecars: &[Sidecar],
    normalized: &Vec<Vec<Vec<char>>>,
    s: usize,
    e: usize,
    targets: &Vec<usize>,
    slots: &mut Vec<Vec<Option<(usize, usize)>>>,
    errors: &mut Vec<Diagnostic>,
)
    requires
        s < sidecars@.len(),
        e < sidecars@[s as int].entries@.len(),
        normalized_pages(pages@, normalized@),
        targets@.len() > 0,
        lists_exactly(targets@, pages@.len() as int, |i: int| sidecar_targets_page(pages@, sidecars@[s as int], i)),
        slots_upto(pages@, sidecars@, old(slots)@, s as int, e as int),
        all_errors(old(errors)@),
    ensures
        slots_upto(pages@, sidecars@, final(slots)@, s as int, e as int + 1),
        all_errors(final(errors)@),
        final(errors)@.len() >= old(errors)@.len(),
        final(errors)@.len() == old(errors)@.len() ==> entry_resolves(pages@, sidecars@[s as int], sidecars@[s as int].entries@[e as int]),
        final(errors)@.len() == old(errors)@.len() ==> entry_clean(pages@, sidecars@[s as int], sidecars@[s as int].entries@[e as int]),
        final(errors)@.len() > old(errors)@.len() ==> sidecars_faulty(pages@, sidecars@),
        forall|i: int, j: int| #[trigger] conflict_at(pages@, sidecars@, s as int, e as int, i, j) ==> final(errors)@.len() > old(errors)@.len(),
        diag_marks(final(errors)@) == diag_marks(old(errors)@) + entry_marks(pages@, sidecars@, s as int, e as int),
{
    let ghost e1 = errors@.len();
    let ghost m1 = diag_marks(errors@);
    let ghost pg = entry_page_marks(pages@, sidecars@, s as int, e as int);
    let ghost st = |i: int| sidecar_targets_page(pages@, sidecars@[s as int], i);
    let entry = &sidecars[s].entries[e];
    let section = opt_as_str(&entry.section);
    let excerpt = opt_as_str(&entry.excerpt);
    let mut matched_any = false;
    let mut no_section_everywhere = true;
    let mut k: usize = 0;
    while k < targets.len()
        invariant
            k <= targets@.len(),
            s < sidecars@.len(),
            e < sidecars@[s as int].entries@.len(),
            entry == sidecars@[s as int].entries@[e as int],
            opt_str(section) == opt_view(entry.section),
            opt_str(excerpt) == opt_view(entry.excerpt),
            normalized_pages(pages@, normalized@),
            st == (|i: int| sidecar_targets_page(pages@, sidecars@[s as int], i)),
            lists_exactly(targets@, pages@.len() as int, st),
            slots@.len() == pages@.len(),
            forall|i: int| 0 <= i < pages@.len() ==> (#[trigger] slots@[i])@.len() == pages@[i].blocks@.len(),
            forall|i: int, j: int|
                0 <= i < pages@.len() && 0 <= j < pages@[i].blocks@.len() ==> if lists_index(targets@.take(k as int), i) {
                    slot_ok(pages@, sidecars@, #[trigger] slots@[i]@[j], i, j, s as int, e as int + 1)
                } else {
                    slot_ok(pages@, sidecars@, slots@[i]@[j], i, j, s as int, e as int)
                },
            all_errors(errors@),
            errors@.len() >= e1,
            matched_any ==> (errors@.len() > e1 || entry_resolves(pages@, sidecars@[s as int], *entry)),
            errors@.len() > e1 ==> sidecars_faulty(pages@, sidecars@),
            !matched_any ==> forall|m: int| 0 <= m < k ==> !target_resolves(
                pages@[#[trigger] targets@[m] as int],
                opt_view(entry.section),
                opt_view(entry.excerpt),
            ),
            forall|m: int| 0 <= m < k && target_ambiguous(
                pages@[#[trigger] targets@[m] as int],
                opt_view(entry.section),
                opt_view(entry.excerpt),
            ) ==> errors@.len() > e1,
            forall|m: int, j: int| 0 <= m < k && #[trigger] conflict_at(pages@, sidecars@, s as int, e as int, targets@[m] as int, j) ==> errors@.len() > e1,
            pg == entry_page_marks(pages@, sidecars@, s as int, e as int),
            diag_marks(errors@) == m1 + marks_along(targets@.take(k as int), pg),
            !matched_any ==> forall|m: int| 0 <= m < k ==> !target_ambiguous(
                pages@[#[trigger] targets@[m] as int],
                opt_view(entry.section),
                opt_view(entry.excerpt),
            ),
            matched_any ==> exists|m: int| 0 <= m < k && (target_resolves(
                pages@[#[trigger] targets@[m] as int],
                opt_view(entry.section),
                opt_view(entry.excerpt),
            ) || target_ambiguous(pages@[targets@[m] as int], opt_view(entry.section), opt_view(entry.excerpt))),
            no_section_everywhere == forall|m: int| 0 <= m < k ==> !names_section(
                pages@[#[trigger] targets@[m] as int],
                opt_view(entry.section),
            ),
        decreases targets.len() - k,
    {
        let t = targets[k];
        assert(st(t as int));
        assert(!lists_index(targets@.take(k as int), t as int)) by {
            let t0 = targets@.take(k as int);
            if lists_index(t0, t as int) {
                let w = choose|w: int| 0 <= w < t0.len() && t0[w] as int == t as int;
                assert(targets@[w] < targets@[k as int]);
            }
        }
        let ghost before = slots@;
        let ghost tb = |j: int| targets_block(pages@[t as int], opt_str(section), opt_str(excerpt), j);
        let ghost ph = |j: int| pair_hits(pages@, sidecars@, s as int, e as int, t as int, j);
        assert forall|j: int| #[trigger] tb(j) == ph(j) by {}
        let ghost mk = diag_marks(errors@);
        let hit = resolve_target(&pages[t], &normalized[t], section, excerpt);
        let ghost applied = hit is Blocks;
        let ghost amb = hit is Ambiguous;
        assert(!applied ==> forall|j: int| !#[trigger] ph(j));
        assert(!applied ==> forall|j: int| !#[trigger] conflict_at(pages@, sidecars@, s as int, e as int, t as int, j)) by {
            if !applied {
                assert forall|j: int| !#[trigger] conflict_at(pages@, sidecars@, s as int, e as int, t as int, j) by {
                    assert(!ph(j));
                }
            }
        }
        match hit {
            TargetHit::Blocks(bs) => {
                matched_any = true;
                no_section_everywhere = false;
                assert(sidecar_targets_page(pages@, sidecars@[s as int], t as int));
                assert(entry_resolves(pages@, sidecars@[s as int], *entry));
                proof {
                    lemma_lists_equiv(bs@, pages@[t as int].blocks@.len() as int, tb, ph);
                }
                apply_entry_row(&mut slots[t], pages, sidecars, &normalized[t], s, e, t, &bs, errors);
            },
            TargetHit::NoSection => {},
            TargetHit::NoMatch => {
                no_section_everywhere = false;
            },
            TargetHit::Ambiguous(bs) => {
                matched_any = true;
                no_section_everywhere = false;
                let d = entry.display();
                let diag = ambiguous_diag(sidecars[s].file.as_str(), d.as_str(), &pages[t], &normalized[t], &bs);
                let ghost pre = errors@;
                errors.push(diag);
                proof {
                    lemma_marks_push(pre, diag);
                    let sc = sidecars@[s as int];
                    assert(sidecar_targets_page(pages@, sc, t as int));
                    assert(sc.entries@[e as int] == *entry);
                    assert(target_ambiguous(pages@[t as int], opt_view(sc.entries@[e as int].section), opt_view(sc.entries@[e as int].excerpt)));
                    assert(!sidecar_clean(pages@, sc));
                    assert(sidecars_faulty(pages@, sidecars@));
                }
            },
        }
        proof {
            lemma_marks_along_take(targets@, k as int, pg);
            assert(st(t as int));
            if applied {
                assert(pg(t as int) == marks_upto(entry_conflicts(pages@, sidecars@, s as int, e as int, t as int), pages@[t as int].blocks@.len() as int));
            } else if amb {
                assert(pg(t as int) == seq![(DiagnosticKind::Ambiguous, sidecars@[s as int].file@)]);
            } else {
                assert(pg(t as int) == Seq::<Mark>::empty());
            }
            assert(diag_marks(errors@) =~= m1 + marks_along(targets@.take(k + 1), pg));
        }
        assert forall|i: int, j: int|
            0 <= i < pages@.len() && 0 <= j < pages@[i].blocks@.len() implies if lists_index(targets@.take(k + 1), i) {
                slot_ok(pages@, sidecars@, #[trigger] slots@[i]@[j], i, j, s as int, e as int + 1)
            } else {
                slot_ok(pages@, sidecars@, slots@[i]@[j], i, j, s as int, e as int)
            } by {
            let t1 = targets@.take(k + 1);
            let t0 = targets@.take(k as int);
            if i == t as int {
                assert(t1[k as int] == t);
                assert(lists_index(t1, i));
                if !applied {
                    assert(slots@[i] == before[i]);
                    assert(!ph(j));
                    lemma_slot_skip(pages@, sidecars@, slots@[i]@[j], i, j, s as int, e as int);
                }
            } else {
                assert(slots@[i] == before[i]);
                if lists_index(t1, i) {
                    let w = choose|w: int| 0 <= w < t1.len() && t1[w] as int == i;
                    assert(w != k);
                    assert(t0[w] == targets@[w]);
                    assert(lists_index(t0, i));
                } else if lists_index(t0, i) {
                    let w = choose|w: int| 0 <= w < t0.len() && t0[w] as int == i;
                    assert(t1[w] == targets@[w]);
                }
            }
        }
        k += 1;
    }
    assert forall|i: int, j: int|
        0 <= i < pages@.len() && 0 <= j < pages@[i].blocks@.len() implies slot_ok(pages@, sidecars@, #[trigger] slots@[i]@[j], i, j, s as int, e as int + 1) by {
        assert(targets@.take(targets@.len() as int) == targets@);
        if !lists_index(targets@, i) {
            if st(i) {
                lemma_lists_member(targets@, pages@.len() as int, st, i);
            }
            lemma_slot_skip(pages@, sidecars@, slots@[i]@[j], i, j, s as int, e as int);
        }
    }
    assert forall|i: int, j: int| #[trigger] conflict_at(pages@, sidecars@, s as int, e as int, i, j) implies errors@.len() > e1 by {
        assert(st(i));
        lemma_lists_member(targets@, pages@.len() as int, st, i);
        let w = choose|w: int| 0 <= w < targets@.len() && targets@[w] as int == i;
        assert(conflict_at(pages@, sidecars@, s as int, e as int, targets@[w] as int, j));
    }
    assert(errors@.len() == e1 ==> entry_clean(pages@, sidecars@[s as int], *entry)) by {
        if errors@.len() == e1 {
            assert forall|i: int| #[trigger] sidecar_targets_page(pages@, sidecars@[s as int], i) implies !target_ambiguous(
                pages@[i],
                opt_view(entry.section),
                opt_view(entry.excerpt),
            ) by {
                assert(st(i));
                lemma_lists_member(targets@, pages@.len() as int, st, i);
                let w = choose|w: int| 0 <= w < targets@.len() && targets@[w] as int == i;
            }
        }
    }
    proof {
        assert(targets@.take(targets@.len() as int) == targets@);
        lemma_marks_along(targets@, pages@.len() as int, st, pg);
        let sc = sidecars@[s as int];
        assert(sc.entries@[e as int] == *entry);
        assert(st(targets@[0] as int));
        assert(matched_any == exists|i: int|
            #[trigger] sidecar_targets_page(pages@, sc, i) && (target_resolves(pages@[i], opt_view(entry.section), opt_view(entry.excerpt))
                || target_ambiguous(pages@[i], opt_view(entry.section), opt_view(entry.excerpt)))) by {
            if matched_any {
                let m = choose|m: int| 0 <= m < targets@.len() && (target_resolves(
                    pages@[#[trigger] targets@[m] as int],
                    opt_view(entry.section),
                    opt_view(entry.excerpt),
                ) || target_ambiguous(pages@[targets@[m] as int], opt_view(entry.section), opt_view(entry.excerpt)));
                assert(st(targets@[m] as int));
            } else {
                assert forall|i: int| #[trigger] sidecar_targets_page(pages@, sc, i) implies !(target_resolves(pages@[i], opt_view(entry.section), opt_view(entry.excerpt))
                    || target_ambiguous(pages@[i], opt_view(entry.section), opt_view(entry.excerpt))) by {
                    assert(st(i));
                    lemma_lists_member(targets@, pages@.len() as int, st, i);
                    let w = choose|w: int| 0 <= w < targets@.len() && targets@[w] as int == i;
                }
            }
        }
        assert(no_section_everywhere == forall|i: int| #[trigger] sidecar_targets_page(pages@, sc, i) ==> !names_section(pages@[i], opt_view(entry.section))) by {
            if no_section_everywhere {
                assert forall|i: int| #[trigger] sidecar_targets_page(pages@, sc, i) implies !names_section(pages@[i], opt_view(entry.section)) by {
                    assert(st(i));
                    lemma_lists_member(targets@, pages@.len() as int, st, i);
                    let w = choose|w: int| 0 <= w < targets@.len() && targets@[w] as int == i;
                }
            } else {
                let m = choose|m: int| 0 <= m < targets@.len() && !!names_section(
                    pages@[#[trigger] targets@[m] as int],
                    opt_view(entry.section),
                );
                assert(st(targets@[m] as int));
            }
        }
    }
    if !matched_any {
        proof {
            let sc = sidecars@[s as int];
            assert(!entry_resolves(pages@, sc, *entry)) by {
                if entry_resolves(pages@, sc, *entry) {
                    let i = choose|i: int| #[trigger] sidecar_targets_page(pages@, sc, i) && target_resolves(pages@[i], opt_view(entry.section), opt_view(entry.excerpt));
                    assert(st(i));
                    lemma_lists_member(targets@, pages@.len() as int, st, i);
                    let w = choose|w: int| 0 <= w < targets@.len() && targets@[w] as int == i;
                }
            }
            assert(sc.entries@[e as int] == *entry);
            assert(!sidecar_resolves(pages@, sc));
            assert(sidecars_faulty(pages@, sidecars@));
        }
        let d = entry.display();
        let t0 = targets[0];
        let diag = unmatched_diag(
            sidecars[s].file.as_str(),
            d.as_str(),
            section,
            no_section_everywhere,
            targets.len(),
            pages[t0].url.as_str(),
        );
        let ghost pre = errors@;
        errors.push(diag);
        proof {
            lemma_marks_push(pre, diag);
        }
    }
    assert(diag_marks(errors@) =~= m1 + entry_marks(pages@, sidecars@, s as int, e as int));
}

/// A sidecar none of whose entries resolves anywhere leaves the slots
/// right up to the next sidecar.
proof fn lemma_slots_silent_sidecar(
    pages: Seq<MeasuredPage>,
    sidecars: Seq<Sidecar>,
    slots: Seq<Vec<Option<(usize, usize)>>>,
    s: int,
)
    requires
        0 <= s < sidecars.len(),
        slots_upto(pages, sidecars, slots, s, 0),
        forall|i: int| !sidecar_targets_page(pages, sidecars[s], i),
    ensures
        slots_upto(pages, sidecars, slots, s + 1, 0),
{
    assert forall|i: int, j: int| 0 <= i < pages.len() && 0 <= j < pages[i].blocks@.len() implies slot_ok(
        pages,
        sidecars,
        #[trigger] slots[i]@[j],
        i,
        j,
        s + 1,
        0,
    ) by {
        assert(slot_ok(pages, sidecars, slots[i]@[j], i, j, s, 0));
        if slots[i]@[j] is None {
            assert forall|s2: int, e2: int| lex_before(s2, e2, s + 1, 0) implies !#[trigger] pair_hits(
                pages,
                sidecars,
                s2,
                e2,
                i,
                j,
            ) by {
                if !lex_before(s2, e2, s, 0) {
                    assert(s2 == s || e2 < 0);
                }
            }
        }
    }
}

/// Whether a sidecar before `s` marks page `i` reviewed.
pub open spec fn reviewed_upto(pages: Seq<MeasuredPage>, sidecars: Seq<Sidecar>, i: int, s: int) -> bool {
    exists|s2: int| 0 <= s2 < s && #[trigger] sidecars[s2].reviewed && sidecar_targets_page(pages, sidecars[s2], i)
}

/// Appends identities joined with `, `.
fn push_identities(out: &mut String, ids: &Vec<Vec<char>>)
    ensures
        final(out)@ == old(out)@ + join_seq(views(ids@), ", "@),
{
    let ghost start = out@;
    let mut k: usize = 0;
    while k < ids.len()
        invariant
            k <= ids.len(),
            out@ == start + join_seq(views(ids@).take(k as int), ", "@),
        decreases ids.len() - k,
    {
        let ghost pre = views(ids@).take(k as int);
        assert(views(ids@).take(k + 1).drop_last() == pre);
        assert(views(ids@).take(k + 1).last() == ids@[k as int]@);
        if k > 0 {
            push_str(out, ", ");
        }
        push_chars(out, ids[k].as_slice());
        k += 1;
    }
    assert(views(ids@).take(ids.len() as int) == views(ids@));
}

/// Applies every sidecar, in order: the first entry resolving to a
/// block classifies it, and `reviewed = true` marks the pages a sidecar
/// classifies.
fn apply_sidecars(
    pages: &[MeasuredPage],
    sidecars: &[Sidecar],
    normalized: &Vec<Vec<Vec<char>>>,
    slots: &mut Vec<Vec<Option<(usize, usize)>>>,
    reviewed: &mut Vec<bool>,
    errors: &mut Vec<Diagnostic>,
)
    requires
        normalized_pages(pages@, normalized@),
        slots_upto(pages@, sidecars@, old(slots)@, 0, 0),
        old(reviewed)@.len() == pages@.len(),
        forall|i: int| 0 <= i < pages@.len() ==> !#[trigger] old(reviewed)@[i],
        all_errors(old(errors)@),
    ensures
        slots_upto(pages@, sidecars@, final(slots)@, sidecars@.len() as int, 0),
        final(reviewed)@.len() == pages@.len(),
        forall|i: int| 0 <= i < pages@.len() ==> #[trigger] final(reviewed)@[i] == reviewed_page(pages@, sidecars@, i),
        all_errors(final(errors)@),
        final(errors)@.len() >= old(errors)@.len(),
        final(errors)@.len() == old(errors)@.len() ==> forall|s: int| 0 <= s < sidecars@.len() ==> sidecar_clean(pages@, #[trigger] sidecars@[s]),
        final(errors)@.len() > old(errors)@.len() ==> sidecars_faulty(pages@, sidecars@),
        sidecar_conflict(pages@, sidecars@) ==> final(errors)@.len() > old(errors)@.len(),
        diag_marks(final(errors)@) == diag_marks(old(errors)@) + sidecars_marks(pages@, sidecars@, sidecars@.len() as int),
{
    let ghost e0 = errors@.len();
    let ghost m0 = diag_marks(errors@);
    let mut s: usize = 0;
    while s < sidecars.len()
        invariant
            s <= sidecars@.len(),
            normalized_pages(pages@, normalized@),
            slots_upto(pages@, sidecars@, slots@, s as int, 0),
            reviewed@.len() == pages@.len(),
            forall|i: int| 0 <= i < pages@.len() ==> #[trigger] reviewed@[i] == reviewed_upto(pages@, sidecars@, i, s as int),
            all_errors(errors@),
            errors@.len() >= e0,
            errors@.len() == e0 ==> forall|s2: int| 0 <= s2 < s ==> sidecar_clean(pages@, #[trigger] sidecars@[s2]),
            errors@.len() > e0 ==> sidecars_faulty(pages@, sidecars@),
            forall|s2: int, e2: int, i: int, j: int| 0 <= s2 < s && #[trigger] conflict_at(pages@, sidecars@, s2, e2, i, j) ==> errors@.len() > e0,
            diag_marks(errors@) == m0 + sidecars_marks(pages@, sidecars@, s as int),
        decreases sidecars.len() - s,
    {
        let ghost e1 = errors@.len();
        let ghost m1 = diag_marks(errors@);
        let sc = &sidecars[s];
        let ghost st = |i: int| sidecar_targets_page(pages@, sidecars@[s as int], i);
        let ghost old_reviewed = reviewed@;
        match pages_for_path(pages, sc.scope, sc.spec_path.as_str()) {
            Err(ids) => {
                let mut message = owned("spec path ");
                let q = debug_quote(sc.spec_path.as_str());
                push_str(&mut message, q.as_str());
                push_str(&mut message, " matches several pages: ");
                push_identities(&mut message, &ids);
                let d = Diagnostic { kind: DiagnosticKind::AmbiguousPage, at: owned(sc.file.as_str()), message };
                let ghost pre = errors@;
                errors.push(d);
                proof {
                    lemma_marks_push(pre, d);
                    assert(diag_marks(errors@) == m1 + sidecar_marks(pages@, sidecars@, s as int));
                }
                assert forall|i: int| !sidecar_targets_page(pages@, sidecars@[s as int], i) by {}
                assert(!sidecar_clean(pages@, sidecars@[s as int]));
                assert(sidecars_faulty(pages@, sidecars@));
                proof {
                    lemma_slots_silent_sidecar(pages@, sidecars@, slots@, s as int);
                }
            },
            Ok(targets) => {
                proof {
                    let pt = |i: int| path_target(pages@[i], sc.scope, sc.spec_path@);
                    assert forall|k: int| 0 <= k < pages@.len() implies #[trigger] pt(k) == st(k) by {}
                    lemma_lists_equiv(targets@, pages@.len() as int, pt, st);
                }
                if targets.len() == 0 {
                    let mut message = owned("spec path ");
                    let q = debug_quote(sc.spec_path.as_str());
                    push_str(&mut message, q.as_str());
                    push_str(&mut message, " matches no measured page");
                    let d = Diagnostic { kind: DiagnosticKind::UnknownPage, at: owned(sc.file.as_str()), message };
                    let ghost pre = errors@;
                    errors.push(d);
                    proof {
                        lemma_marks_push(pre, d);
                    }
                    assert forall|i: int| !sidecar_targets_page(pages@, sidecars@[s as int], i) by {
                        if st(i) && 0 <= i < pages@.len() {
                            lemma_lists_member(targets@, pages@.len() as int, st, i);
                        }
                    }
                    assert(!sidecar_clean(pages@, sidecars@[s as int]));
                    assert(sidecars_faulty(pages@, sidecars@));
                    assert(diag_marks(errors@) == m1 + sidecar_marks(pages@, sidecars@, s as int));
                    proof {
                        lemma_slots_silent_sidecar(pages@, sidecars@, slots@, s as int);
                    }
                } else {
                    if sc.reviewed {
                        let mut k: usize = 0;
                        while k < targets.len()
                            invariant
                                k <= targets@.len(),
                                reviewed@.len() == pages@.len(),
                                lists_exactly(targets@, pages@.len() as int, st),
                                forall|i: int| 0 <= i < pages@.len() ==> #[trigger] reviewed@[i] == (old_reviewed[i] || lists_index(targets@.take(k as int), i)),
                            decreases targets.len() - k,
                        {
                            let t = targets[k];
                            reviewed.set(t, true);
                            assert forall|i: int| 0 <= i < pages@.len() implies #[trigger] reviewed@[i] == (old_reviewed[i] || lists_index(targets@.take(k + 1), i)) by {
                                let t1 = targets@.take(k + 1);
                                let t0 = targets@.take(k as int);
                                if i == t as int {
                                    assert(t1[k as int] == t);
                                } else if lists_index(t1, i) {
                                    let w = choose|w: int| 0 <= w < t1.len() && t1[w] as int == i;
                                    assert(t0[w] == targets@[w]);
                                } else if lists_index(t0, i) {
                                    let w = choose|w: int| 0 <= w < t0.len() && t0[w] as int == i;
                                    assert(t1[w] == targets@[w]);
                                }
                            }
                            k += 1;
                        }
                        assert(targets@.take(targets@.len() as int) == targets@);
                    }
                    let mut e: usize = 0;
                    while e < sc.entries.len()
                        invariant
                            e <= sc.entries@.len(),
                            sc == sidecars@[s as int],
                            s < sidecars@.len(),
                            normalized_pages(pages@, normalized@),
                            targets@.len() > 0,
                            lists_exactly(targets@, pages@.len() as int, |i: int| sidecar_targets_page(pages@, sidecars@[s as int], i)),
                            slots_upto(pages@, sidecars@, slots@, s as int, e as int),
                            all_errors(errors@),
                            errors@.len() >= e1,
                            errors@.len() == e1 ==> forall|e2: int| 0 <= e2 < e ==> entry_resolves(pages@, *sc, #[trigger] sc.entries@[e2]),
                            errors@.len() == e1 ==> forall|e2: int| 0 <= e2 < e ==> entry_clean(pages@, *sc, #[trigger] sc.entries@[e2]),
                            e1 >= e0,
                            errors@.len() > e0 ==> sidecars_faulty(pages@, sidecars@),
                            forall|s2: int, e2: int, i: int, j: int| 0 <= s2 < s && #[trigger] conflict_at(pages@, sidecars@, s2, e2, i, j) ==> errors@.len() > e0,
                            forall|e2: int, i: int, j: int| 0 <= e2 < e && #[trigger] conflict_at(pages@, sidecars@, s as int, e2, i, j) ==> errors@.len() > e0,
                            diag_marks(errors@) == m1 + entries_marks(pages@, sidecars@, s as int, e as int),
                        decreases sc.entries.len() - e,
                    {
                        let ghost e2 = errors@.len();
                        apply_entry(pages, sidecars, normalized, s, e, &targets, slots, errors);
                        assert(entries_marks(pages@, sidecars@, s as int, e + 1) == entries_marks(pages@, sidecars@, s as int, e as int) + entry_marks(
                            pages@,
                            sidecars@,
                            s as int,
                            e as int,
                        ));
                        assert(diag_marks(errors@) =~= m1 + entries_marks(pages@, sidecars@, s as int, e + 1));
                        assert(errors@.len() == e1 ==> forall|e3: int| 0 <= e3 < e + 1 ==> entry_resolves(pages@, *sc, #[trigger] sc.entries@[e3])) by {
                            if errors@.len() == e1 {
                                assert(e2 == e1);
                            }
                        }
                        assert(errors@.len() == e1 ==> forall|e3: int| 0 <= e3 < e + 1 ==> entry_clean(pages@, *sc, #[trigger] sc.entries@[e3])) by {
                            if errors@.len() == e1 {
                                assert(e2 == e1);
                            }
                        }
                        e += 1;
                    }
                    assert(st(targets@[0] as int));
                    assert(diag_marks(errors@) == m1 + sidecar_marks(pages@, sidecars@, s as int));
                    assert forall|e2: int, i: int, j: int| #[trigger] conflict_at(pages@, sidecars@, s as int, e2, i, j) implies errors@.len() > e0 by {
                        assert(pair_hits(pages@, sidecars@, s as int, e2, i, j));
                    }
                    assert(errors@.len() == e1 ==> sidecar_clean(pages@, *sc)) by {
                        if errors@.len() == e1 {
                            let t0 = targets@[0];
                            assert(st(t0 as int));
                            assert(sidecar_targets_page(pages@, *sc, t0 as int));
                        }
                    }
                    proof {
                        lemma_slots_next_sidecar(pages@, sidecars@, slots@, s as int);
                    }
                }
                assert forall|i: int| 0 <= i < pages@.len() implies #[trigger] reviewed@[i] == reviewed_upto(pages@, sidecars@, i, s + 1) by {
                    if reviewed_upto(pages@, sidecars@, i, s + 1) && !reviewed_upto(pages@, sidecars@, i, s as int) {
                        let s2 = choose|s2: int| 0 <= s2 < s + 1 && #[trigger] sidecars@[s2].reviewed && sidecar_targets_page(pages@, sidecars@[s2], i);
                        assert(s2 == s);
                        if targets@.len() > 0 {
                            assert(st(i));
                            lemma_lists_member(targets@, pages@.len() as int, st, i);
                            assert(targets@.take(targets@.len() as int) == targets@);
                        }
                    }
                    if reviewed_upto(pages@, sidecars@, i, s as int) {
                        let s2 = choose|s2: int| 0 <= s2 < s && #[trigger] sidecars@[s2].reviewed && sidecar_targets_page(pages@, sidecars@[s2], i);
                        assert(reviewed_upto(pages@, sidecars@, i, s + 1));
                    }
                    if reviewed@[i] && !old_reviewed[i] {
                        assert(sc.reviewed);
                        assert(lists_index(targets@, i));
                        let w = choose|w: int| 0 <= w < targets@.len() && targets@[w] as int == i;
                        assert(st(targets@[w] as int));
                        assert(reviewed_upto(pages@, sidecars@, i, s + 1));
                    }
                }
            },
        }
        assert forall|i: int| 0 <= i < pages@.len() implies #[trigger] reviewed@[i] == reviewed_upto(pages@, sidecars@, i, s + 1) by {
            if reviewed_upto(pages@, sidecars@, i, s + 1) && !reviewed_upto(pages@, sidecars@, i, s as int) {
                let s2 = choose|s2: int| 0 <= s2 < s + 1 && #[trigger] sidecars@[s2].reviewed && sidecar_targets_page(pages@, sidecars@[s2], i);
                assert(s2 == s);
            }
            if reviewed_upto(pages@, sidecars@, i, s as int) {
                let s2 = choose|s2: int| 0 <= s2 < s && #[trigger] sidecars@[s2].reviewed && sidecar_targets_page(pages@, sidecars@[s2], i);
                assert(reviewed_upto(pages@, sidecars@, i, s + 1));
            }
        }
        assert(sidecars_marks(pages@, sidecars@, s + 1) == sidecars_marks(pages@, sidecars@, s as int) + sidecar_marks(pages@, sidecars@, s as int));
        assert(diag_marks(errors@) =~= m0 + sidecars_marks(pages@, sidecars@, s + 1));
        assert(errors@.len() == e0 ==> forall|s2: int| 0 <= s2 < s + 1 ==> sidecar_clean(pages@, #[trigger] sidecars@[s2])) by {
            if errors@.len() == e0 {
                assert(e1 == e0);
            }
        }
        s += 1;
    }
    assert(sidecar_conflict(pages@, sidecars@) ==> errors@.len() > e0) by {
        if sidecar_conflict(pages@, sidecars@) {
            let (s1, e1, i1, j1, s0, e0w) = choose|s1: int, e1: int, i1: int, j1: int, s0: int, e0w: int|
                #[trigger] pair_hits(pages@, sidecars@, s1, e1, i1, j1) && #[trigger] first_entry(pages@, sidecars@, i1, j1, s0, e0w)
                    && lex_before(s0, e0w, s1, e1) && sidecars@[s0].entries@[e0w].kind != sidecars@[s1].entries@[e1].kind;
            assert(conflict_at(pages@, sidecars@, s1, e1, i1, j1));
        }
    }
}

/// The claims that resolve to block `j` of page `i`, as a predicate on
/// claim indices.
pub open spec fn claim_pred(pages: Seq<MeasuredPage>, claims: Seq<Claim>, i: int, j: int) -> spec_fn(int) -> bool {
    |c: int| 0 <= c < claims.len() && claim_hits(pages, claims[c], i, j)
}

/// Whether `hits` lists, for every block, the claims before `c` that
/// resolve to it.
pub open spec fn hits_upto(pages: Seq<MeasuredPage>, claims: Seq<Claim>, hits: Seq<Vec<Vec<usize>>>, c: int) -> bool {
    &&& hits.len() == pages.len()
    &&& forall|i: int| 0 <= i < pages.len() ==> (#[trigger] hits[i])@.len() == pages[i].blocks@.len()
    &&& forall|i: int, j: int|
        0 <= i < pages.len() && 0 <= j < pages[i].blocks@.len() ==> lists_exactly(
            (#[trigger] hits[i]@[j])@,
            c,
            claim_pred(pages, claims, i, j),
        )
}

/// Records claim `c` on the blocks `bs` of page `t` it resolves to.
fn apply_claim_row(row: &mut Vec<Vec<usize>>, pages: &[MeasuredPage], claims: &Vec<Claim>, c: usize, t: usize, bs: &Vec<usize>)
    requires
        t < pages@.len(),
        c < claims@.len(),
        old(row)@.len() == pages@[t as int].blocks@.len(),
        lists_exactly(bs@, pages@[t as int].blocks@.len() as int, |j: int| claim_hits(pages@, claims@[c as int], t as int, j)),
        forall|j: int| 0 <= j < old(row)@.len() ==> lists_exactly((#[trigger] old(row)@[j])@, c as int, claim_pred(pages@, claims@, t as int, j)),
    ensures
        final(row)@.len() == old(row)@.len(),
        forall|j: int| 0 <= j < final(row)@.len() ==> lists_exactly((#[trigger] final(row)@[j])@, c + 1, claim_pred(pages@, claims@, t as int, j)),
{
    let ghost ch = |j: int| claim_hits(pages@, claims@[c as int], t as int, j);
    let ghost n = row@.len();
    let mut m: usize = 0;
    while m < bs.len()
        invariant
            m <= bs.len(),
            row@.len() == n,
            n == pages@[t as int].blocks@.len(),
            t < pages@.len(),
            c < claims@.len(),
            ch == (|j: int| claim_hits(pages@, claims@[c as int], t as int, j)),
            lists_exactly(bs@, n as int, ch),
            forall|j: int| 0 <= j < n ==> if lists_index(bs@.take(m as int), j) {
                lists_exactly((#[trigger] row@[j])@, c + 1, claim_pred(pages@, claims@, t as int, j))
            } else {
                lists_exactly(row@[j]@, c as int, claim_pred(pages@, claims@, t as int, j))
            },
        decreases bs.len() - m,
    {
        let b = bs[m];
        assert(ch(b as int));
        let t0 = Ghost(bs@.take(m as int));
        assert(!lists_index(t0@, b as int)) by {
            if lists_index(t0@, b as int) {
                let w = choose|w: int| 0 <= w < t0@.len() && t0@[w] as int == b as int;
                assert(bs@[w] < bs@[m as int]);
            }
        }
        let ghost old_row = row@;
        proof {
            assert(claim_pred(pages@, claims@, t as int, b as int)(c as int));
            lemma_lists_push(row@[b as int]@, c as int, claim_pred(pages@, claims@, t as int, b as int), c);
        }
        row[b].push(c);
        assert forall|j: int| 0 <= j < n implies if lists_index(bs@.take(m + 1), j) {
            lists_exactly((#[trigger] row@[j])@, c + 1, claim_pred(pages@, claims@, t as int, j))
        } else {
            lists_exactly(row@[j]@, c as int, claim_pred(pages@, claims@, t as int, j))
        } by {
            let t1 = bs@.take(m + 1);
            let t0 = bs@.take(m as int);
            if j == b as int {
                assert(t1[m as int] == b);
                assert(lists_index(t1, j));
            } else {
                assert(row@[j] == old_row[j]);
                if lists_index(t1, j) {
                    let w = choose|w: int| 0 <= w < t1.len() && t1[w] as int == j;
                    assert(w != m);
                    assert(t0[w] == bs@[w]);
                    assert(lists_index(t0, j));
                } else if lists_index(t0, j) {
                    let w = choose|w: int| 0 <= w < t0.len() && t0[w] as int == j;
                    assert(t1[w] == bs@[w]);
                }
            }
        }
        m += 1;
    }
    assert forall|j: int| 0 <= j < row@.len() implies lists_exactly((#[trigger] row@[j])@, c + 1, claim_pred(pages@, claims@, t as int, j)) by {
        assert(bs@.take(bs@.len() as int) == bs@);
        if !lists_index(bs@, j) {
            if ch(j) {
                lemma_lists_member(bs@, n as int, ch, j);
            }
            assert(!claim_pred(pages@, claims@, t as int, j)(c as int));
            lemma_lists_skip(row@[j]@, c as int, claim_pred(pages@, claims@, t as int, j));
        }
    }
}

/// A claim that names no page leaves every list right one claim further.
proof fn lemma_hits_silent_claim(pages: Seq<MeasuredPage>, claims: Seq<Claim>, hits: Seq<Vec<Vec<usize>>>, c: int)
    requires
        0 <= c < claims.len(),
        hits_upto(pages, claims, hits, c),
        forall|i: int| !#[trigger] claim_targets_page(pages, claims[c], i),
    ensures
        hits_upto(pages, claims, hits, c + 1),
{
    assert forall|i: int, j: int| 0 <= i < pages.len() && 0 <= j < pages[i].blocks@.len() implies lists_exactly(
        (#[trigger] hits[i]@[j])@,
        c + 1,
        claim_pred(pages, claims, i, j),
    ) by {
        assert(!claim_targets_page(pages, claims[c], i));
        assert(!claim_pred(pages, claims, i, j)(c));
        lemma_lists_skip(hits[i]@[j]@, c, claim_pred(pages, claims, i, j));
    }
}

/// Whether a claim resolves somewhere: it names a page, and on some
/// version of it its target resolves.
pub open spec fn claim_resolves(pages: Seq<MeasuredPage>, c: Claim) -> bool {
    exists|i: int| #[trigger] claim_targets_page(pages, c, i) && target_resolves(pages[i], opt_view(c.anchor), opt_view(c.excerpt))
}

/// Whether a sidecar entry resolves on some version of its page.
pub open spec fn entry_resolves(pages: Seq<MeasuredPage>, s: Sidecar, e: SidecarEntry) -> bool {
    exists|i: int| #[trigger] sidecar_targets_page(pages, s, i) && target_resolves(pages[i], opt_view(e.section), opt_view(e.excerpt))
}

/// Whether a sidecar resolves: it classifies a page, and each of its
/// entries resolves on some version of it.
pub open spec fn sidecar_resolves(pages: Seq<MeasuredPage>, s: Sidecar) -> bool {
    (exists|i: int| #[trigger] sidecar_targets_page(pages, s, i)) && forall|e: int| 0 <= e < s.entries@.len() ==> entry_resolves(pages, s, #[trigger] s.entries@[e])
}

/// A diagnostic's kind and location.
pub type Mark = (DiagnosticKind, Seq<char>);

/// The kinds and locations of a list of diagnostics, in order.
pub open spec fn diag_marks(ds: Seq<Diagnostic>) -> Seq<Mark> {
    ds.map_values(|d: Diagnostic| (d.kind, d.at@))
}

/// The marks `g` gives the indices below `n`, in increasing order.
pub open spec fn marks_upto(g: spec_fn(int) -> Seq<Mark>, n: int) -> Seq<Mark>
    decreases n,
{
    if n <= 0 {
        Seq::empty()
    } else {
        marks_upto(g, n - 1) + g(n - 1)
    }
}

/// The marks `g` gives the indices of a list, in its order.
pub open spec fn marks_along(r: Seq<usize>, g: spec_fn(int) -> Seq<Mark>) -> Seq<Mark>
    decreases r.len(),
{
    if r.len() == 0 {
        Seq::empty()
    } else {
        marks_along(r.drop_last(), g) + g(r.last() as int)
    }
}

/// Indices that get no marks leave the marks as they are.
proof fn lemma_marks_flat(g: spec_fn(int) -> Seq<Mark>, a: int, b: int)
    requires
        0 <= a <= b,
        forall|x: int| a <= x < b ==> #[trigger] g(x) == Seq::<Mark>::empty(),
    ensures
        marks_upto(g, b) == marks_upto(g, a),
    decreases b - a,
{
    if a < b {
        lemma_marks_flat(g, a, b - 1);
        assert(marks_upto(g, b) =~= marks_upto(g, b - 1) + g(b - 1));
        assert(g(b - 1) == Seq::<Mark>::empty());
        assert(marks_upto(g, b) =~= marks_upto(g, b - 1));
    }
}

/// Along an exact list of the indices that may get marks, the marks are
/// those of all indices in order.
proof fn lemma_marks_along(r: Seq<usize>, n: int, p: spec_fn(int) -> bool, g: spec_fn(int) -> Seq<Mark>)
    requires
        0 <= n,
        lists_exactly(r, n, p),
        forall|x: int| 0 <= x < n && !p(x) ==> #[trigger] g(x) == Seq::<Mark>::empty(),
    ensures
        marks_along(r, g) == marks_upto(g, n),
    decreases r.len(),
{
    if r.len() == 0 {
        assert forall|x: int| 0 <= x < n implies #[trigger] g(x) == Seq::<Mark>::empty() by {
            if p(x) {
                assert(lists_index(r, x));
            }
        }
        lemma_marks_flat(g, 0, n);
    } else {
        let last = r.last() as int;
        let r0 = r.drop_last();
        assert(p(r[r.len() - 1] as int));
        assert forall|x: int| last < x < n implies #[trigger] g(x) == Seq::<Mark>::empty() by {
            if p(x) {
                assert(lists_index(r, x));
                let w = choose|w: int| 0 <= w < r.len() && r[w] as int == x;
                if w < r.len() - 1 {
                    assert(r[w] < r[r.len() - 1]);
                }
            }
        }
        assert(lists_exactly(r0, last, p)) by {
            assert forall|a: int| 0 <= a < r0.len() implies #[trigger] r0[a] < last && p(r0[a] as int) by {
                assert(r0[a] == r[a]);
                assert(r[a] < r[r.len() - 1]);
            }
            assert forall|j: int| 0 <= j < last && #[trigger] p(j) implies lists_index(r0, j) by {
                assert(lists_index(r, j));
                let w = choose|w: int| 0 <= w < r.len() && r[w] as int == j;
                if w == r.len() - 1 {
                    assert(false);
                }
                assert(r0[w] == r[w]);
            }
        }
        lemma_marks_along(r0, last, p, g);
        lemma_marks_flat(g, last + 1, n);
        assert(marks_upto(g, last + 1) == marks_upto(g, last) + g(last));
    }
}

/// Extending a prefix of a list by its next index appends that index's
/// marks.
proof fn lemma_marks_along_take(r: Seq<usize>, k: int, g: spec_fn(int) -> Seq<Mark>)
    requires
        0 <= k < r.len(),
    ensures
        marks_along(r.take(k + 1), g) == marks_along(r.take(k), g) + g(r[k] as int),
{
    assert(r.take(k + 1).drop_last() =~= r.take(k));
}

/// The location of claim `c`'s diagnostics: its file and line.
pub open spec fn claim_at(c: Claim) -> Seq<char> {
    c.site.file@ + ":"@ + dec(c.site.line as nat)
}

/// The ambiguity errors of claim `c`: one on each version of its page
/// where its excerpt matches several blocks.
pub open spec fn claim_ambiguity(pages: Seq<MeasuredPage>, c: Claim) -> spec_fn(int) -> Seq<Mark> {
    |i: int| if claim_targets_page(pages, c, i) && target_ambiguous(pages[i], opt_view(c.anchor), opt_view(c.excerpt)) {
        seq![(DiagnosticKind::Ambiguous, claim_at(c))]
    } else {
        Seq::empty()
    }
}

/// The hard errors claim `c` raises, in order, by kind and location: a
/// path naming several pages, or none; else an ambiguity error per
/// version, and, when the target neither resolves nor is ambiguous on any
/// version, one error saying whether the section or the excerpt is
/// missing.
pub open spec fn claim_marks(pages: Seq<MeasuredPage>, c: Claim) -> Seq<Mark> {
    let at = claim_at(c);
    if c.target matches ClaimTarget::Path(p) && path_ambiguous(pages, c.site.scope, p@) {
        seq![(DiagnosticKind::AmbiguousPage, at)]
    } else if !(exists|i: int| #[trigger] claim_targets_page(pages, c, i)) {
        seq![(DiagnosticKind::UnknownPage, at)]
    } else {
        marks_upto(claim_ambiguity(pages, c), pages.len() as int) + if exists|i: int|
            #[trigger] claim_targets_page(pages, c, i) && (target_resolves(pages[i], opt_view(c.anchor), opt_view(c.excerpt))
                || target_ambiguous(pages[i], opt_view(c.anchor), opt_view(c.excerpt))) {
            Seq::empty()
        } else if forall|i: int| #[trigger] claim_targets_page(pages, c, i) ==> !names_section(pages[i], opt_view(c.anchor)) {
            seq![(DiagnosticKind::NoSection, at)]
        } else {
            seq![(DiagnosticKind::NoMatch, at)]
        }
    }
}

/// The hard errors of the first `n` claims, in order.
pub open spec fn claims_marks(pages: Seq<MeasuredPage>, claims: Seq<Claim>, n: int) -> Seq<Mark>
    decreases n,
{
    if n <= 0 {
        Seq::empty()
    } else {
        claims_marks(pages, claims, n - 1) + claim_marks(pages, claims[n - 1])
    }
}

/// The marks of a list grown by one diagnostic.
proof fn lemma_marks_push(ds: Seq<Diagnostic>, d: Diagnostic)
    ensures
        diag_marks(ds.push(d)) == diag_marks(ds) + seq![(d.kind, d.at@)],
{
    assert(diag_marks(ds.push(d)) =~= diag_marks(ds) + seq![(d.kind, d.at@)]);
}

/// Resolves every claim, in order, to the blocks it names; a claim that
/// names no page, several pages, no section or no block is an error.
#[verifier::rlimit(50)]
fn apply_claims(
    pages: &[MeasuredPage],
    claims: &Vec<Claim>,
    normalized: &Vec<Vec<Vec<char>>>,
    hits: &mut Vec<Vec<Vec<usize>>>,
    errors: &mut Vec<Diagnostic>,
)
    requires
        normalized_pages(pages@, normalized@),
        hits_upto(pages@, claims@, old(hits)@, 0),
        all_errors(old(errors)@),
    ensures
        hits_upto(pages@, claims@, final(hits)@, claims@.len() as int),
        all_errors(final(errors)@),
        final(errors)@.len() >= old(errors)@.len(),
        final(errors)@.len() == old(errors)@.len() ==> forall|c: int| 0 <= c < claims@.len() ==> claim_clean(pages@, #[trigger] claims@[c]),
        final(errors)@.len() > old(errors)@.len() ==> claims_faulty(pages@, claims@),
        diag_marks(final(errors)@) == diag_marks(old(errors)@) + claims_marks(pages@, claims@, claims@.len() as int),
{
    let ghost e0 = errors@.len();
    let ghost m0 = diag_marks(errors@);
    let mut c: usize = 0;
    while c < claims.len()
        invariant
            c <= claims@.len(),
            normalized_pages(pages@, normalized@),
            hits_upto(pages@, claims@, hits@, c as int),
            all_errors(errors@),
            errors@.len() >= e0,
            errors@.len() == e0 ==> forall|c2: int| 0 <= c2 < c ==> claim_clean(pages@, #[trigger] claims@[c2]),
            errors@.len() > e0 ==> claims_faulty(pages@, claims@),
            diag_marks(errors@) == m0 + claims_marks(pages@, claims@, c as int),
        decreases claims.len() - c,
    {
        let ghost e1 = errors@.len();
        let ghost m1 = diag_marks(errors@);
        let claim = &claims[c];
        let ghost ct = |i: int| claim_targets_page(pages@, claims@[c as int], i);
        let ghost g = claim_ambiguity(pages@, claims@[c as int]);
        let mut at = owned(claim.site.file.as_str());
        push_str(&mut at, ":");
        push_number(&mut at, claim.site.line as usize);
        assert(at@ == claim_at(claims@[c as int]));
        let found: Option<Vec<usize>> = match &claim.target {
            ClaimTarget::Path(path) => match pages_for_path(pages, claim.site.scope, path.as_str()) {
                Ok(v) => {
                    proof {
                        let pt = |i: int| path_target(pages@[i], claim.site.scope, path@);
                        assert forall|k: int| 0 <= k < pages@.len() implies #[trigger] pt(k) == ct(k) by {}
                        lemma_lists_equiv(v@, pages@.len() as int, pt, ct);
                    }
                    Some(v)
                },
                Err(ids) => {
                    let mut message = owned("path ");
                    let q = debug_quote(path.as_str());
                    push_str(&mut message, q.as_str());
                    push_str(&mut message, " matches several pages: ");
                    push_identities(&mut message, &ids);
                    let d = Diagnostic { kind: DiagnosticKind::AmbiguousPage, at: owned(at.as_str()), message };
                    let ghost pre = errors@;
                    errors.push(d);
                    proof {
                        lemma_marks_push(pre, d);
                    }
                    assert(path_ambiguous(pages@, claim.site.scope, path@));
                    assert(claim_marks(pages@, claims@[c as int]) == seq![(DiagnosticKind::AmbiguousPage, claim_at(claims@[c as int]))]);
                    assert(diag_marks(errors@) == m1 + claim_marks(pages@, claims@[c as int]));
                    assert forall|i: int| !#[trigger] claim_targets_page(pages@, claims@[c as int], i) by {}
                    assert(!claim_clean(pages@, claims@[c as int]));
                    assert(claims_faulty(pages@, claims@));
                    proof {
                        lemma_hits_silent_claim(pages@, claims@, hits@, c as int);
                    }
                    None
                },
            },
            ClaimTarget::ResourceId(id) => {
                let v = pages_for_resource_id(pages, id.as_str());
                proof {
                    let it = |i: int| id_target(pages@[i], id@);
                    assert forall|k: int| 0 <= k < pages@.len() implies #[trigger] it(k) == ct(k) by {}
                    lemma_lists_equiv(v@, pages@.len() as int, it, ct);
                }
                Some(v)
            },
        };
        match found {
            None => {},
            Some(targets) => {
                if targets.len() == 0 {
                    let d = claim.target_display();
                    let mut message = debug_quote(d.as_str());
                    push_str(&mut message, " matches no measured page");
                    let d = Diagnostic { kind: DiagnosticKind::UnknownPage, at: owned(at.as_str()), message };
                    let ghost pre = errors@;
                    errors.push(d);
                    proof {
                        lemma_marks_push(pre, d);
                    }
                    assert forall|i: int| !#[trigger] claim_targets_page(pages@, claims@[c as int], i) by {
                        if ct(i) && 0 <= i < pages@.len() {
                            lemma_lists_member(targets@, pages@.len() as int, ct, i);
                        }
                        if 0 <= i < pages@.len() {
                            assert(!ct(i));
                        }
                    }
                    assert(!claim_clean(pages@, claims@[c as int]));
                    assert(claims_faulty(pages@, claims@));
                    assert(claim_marks(pages@, claims@[c as int]) == seq![(DiagnosticKind::UnknownPage, claim_at(claims@[c as int]))]);
                    assert(diag_marks(errors@) == m1 + claim_marks(pages@, claims@[c as int]));
                    proof {
                        lemma_hits_silent_claim(pages@, claims@, hits@, c as int);
                    }
                } else {
                    let anchor = opt_as_str(&claim.anchor);
                    let excerpt = opt_as_str(&claim.excerpt);
                    let mut matched_any = false;
                    let mut no_section_everywhere = true;
                    let mut k: usize = 0;
                    while k < targets.len()
                        invariant
                            k <= targets@.len(),
                            c < claims@.len(),
                            claim == claims@[c as int],
                            opt_str(anchor) == opt_view(claim.anchor),
                            opt_str(excerpt) == opt_view(claim.excerpt),
                            normalized_pages(pages@, normalized@),
                            ct == (|i: int| claim_targets_page(pages@, claims@[c as int], i)),
                            lists_exactly(targets@, pages@.len() as int, ct),
                            hits@.len() == pages@.len(),
                            forall|i: int| 0 <= i < pages@.len() ==> (#[trigger] hits@[i])@.len() == pages@[i].blocks@.len(),
                            forall|i: int, j: int|
                                0 <= i < pages@.len() && 0 <= j < pages@[i].blocks@.len() ==> if lists_index(targets@.take(k as int), i) {
                                    lists_exactly((#[trigger] hits@[i]@[j])@, c + 1, claim_pred(pages@, claims@, i, j))
                                } else {
                                    lists_exactly(hits@[i]@[j]@, c as int, claim_pred(pages@, claims@, i, j))
                                },
                            all_errors(errors@),
                            errors@.len() >= e1,
                            matched_any ==> (errors@.len() > e1 || claim_resolves(pages@, claims@[c as int])),
                            e1 >= e0,
                            errors@.len() > e0 ==> claims_faulty(pages@, claims@),
                            !matched_any ==> forall|m: int| 0 <= m < k ==> !target_resolves(
                                pages@[#[trigger] targets@[m] as int],
                                opt_view(claim.anchor),
                                opt_view(claim.excerpt),
                            ),
                            forall|m: int| 0 <= m < k && target_ambiguous(
                                pages@[#[trigger] targets@[m] as int],
                                opt_view(claim.anchor),
                                opt_view(claim.excerpt),
                            ) ==> errors@.len() > e1,
                            g == claim_ambiguity(pages@, claims@[c as int]),
                            at@ == claim_at(claims@[c as int]),
                            diag_marks(errors@) == m1 + marks_along(targets@.take(k as int), g),
                            !matched_any ==> forall|m: int| 0 <= m < k ==> !target_ambiguous(
                                pages@[#[trigger] targets@[m] as int],
                                opt_view(claim.anchor),
                                opt_view(claim.excerpt),
                            ),
                            matched_any ==> exists|m: int| 0 <= m < k && (target_resolves(
                                pages@[#[trigger] targets@[m] as int],
                                opt_view(claim.anchor),
                                opt_view(claim.excerpt),
                            ) || target_ambiguous(pages@[targets@[m] as int], opt_view(claim.anchor), opt_view(claim.excerpt))),
                            no_section_everywhere == forall|m: int| 0 <= m < k ==> !names_section(
                                pages@[#[trigger] targets@[m] as int],
                                opt_view(claim.anchor),
                            ),
                        decreases targets.len() - k,
                    {
                        let t = targets[k];
                        assert(ct(t as int));
                        assert(!lists_index(targets@.take(k as int), t as int)) by {
                            let t0 = targets@.take(k as int);
                            if lists_index(t0, t as int) {
                                let w = choose|w: int| 0 <= w < t0.len() && t0[w] as int == t as int;
                                assert(targets@[w] < targets@[k as int]);
                            }
                        }
                        let ghost prev = hits@;
                        let ghost tb = |j: int| targets_block(pages@[t as int], opt_str(anchor), opt_str(excerpt), j);
                        let ghost chj = |j: int| claim_hits(pages@, claims@[c as int], t as int, j);
                        assert forall|j: int| #[trigger] tb(j) == chj(j) by {}
                        let ghost mk = diag_marks(errors@);
                        let hit = resolve_target(&pages[t], &normalized[t], anchor, excerpt);
                        let ghost applied = hit is Blocks;
                        let ghost amb = hit is Ambiguous;
                        assert(!applied ==> forall|j: int| !#[trigger] chj(j));
                        match hit {
                            TargetHit::Blocks(bs) => {
                                matched_any = true;
                                no_section_everywhere = false;
                                assert(claim_targets_page(pages@, claims@[c as int], t as int));
                                assert(claim_resolves(pages@, claims@[c as int]));
                                proof {
                                    lemma_lists_equiv(bs@, pages@[t as int].blocks@.len() as int, tb, chj);
                                }
                                apply_claim_row(&mut hits[t], pages, claims, c, t, &bs);
                            },
                            TargetHit::NoSection => {},
                            TargetHit::NoMatch => {
                                no_section_everywhere = false;
                            },
                            TargetHit::Ambiguous(bs) => {
                                matched_any = true;
                                no_section_everywhere = false;
                                let d = claim.target_display();
                                let diag = ambiguous_diag(at.as_str(), d.as_str(), &pages[t], &normalized[t], &bs);
                                let ghost pre = errors@;
                                errors.push(diag);
                                proof {
                                    lemma_marks_push(pre, diag);
                                    let cl = claims@[c as int];
                                    assert(claim_targets_page(pages@, cl, t as int));
                                    assert(target_ambiguous(pages@[t as int], opt_view(cl.anchor), opt_view(cl.excerpt)));
                                    assert(!claim_clean(pages@, cl));
                                    assert(claims_faulty(pages@, claims@));
                                }
                            },
                        }
                        proof {
                            lemma_marks_along_take(targets@, k as int, g);
                            if amb {
                                assert(g(t as int) == seq![(DiagnosticKind::Ambiguous, claim_at(claims@[c as int]))]);
                                assert(errors@.last().at@ == claim_at(claims@[c as int]));
                                assert(errors@.last().kind == DiagnosticKind::Ambiguous);
                                assert(errors@.drop_last() == errors@.drop_last());
                                assert(diag_marks(errors@) =~= mk + g(t as int));
                            } else {
                                assert(g(t as int) == Seq::<Mark>::empty());
                                assert(diag_marks(errors@) =~= mk + g(t as int));
                            }
                            assert(diag_marks(errors@) =~= m1 + marks_along(targets@.take(k + 1), g));
                        }
                        assert forall|i: int, j: int|
                            0 <= i < pages@.len() && 0 <= j < pages@[i].blocks@.len() implies if lists_index(targets@.take(k + 1), i) {
                                lists_exactly((#[trigger] hits@[i]@[j])@, c + 1, claim_pred(pages@, claims@, i, j))
                            } else {
                                lists_exactly(hits@[i]@[j]@, c as int, claim_pred(pages@, claims@, i, j))
                            } by {
                            let t1 = targets@.take(k + 1);
                            let t0 = targets@.take(k as int);
                            if i == t as int {
                                assert(t1[k as int] == t);
                                assert(lists_index(t1, i));
                                if !applied {
                                    assert(hits@[i] == prev[i]);
                                    assert(!chj(j));
                                    assert(!claim_pred(pages@, claims@, i, j)(c as int));
                                    lemma_lists_skip(hits@[i]@[j]@, c as int, claim_pred(pages@, claims@, i, j));
                                }
                            } else {
                                assert(hits@[i] == prev[i]);
                                if lists_index(t1, i) {
                                    let w = choose|w: int| 0 <= w < t1.len() && t1[w] as int == i;
                                    assert(w != k);
                                    assert(t0[w] == targets@[w]);
                                    assert(lists_index(t0, i));
                                } else if lists_index(t0, i) {
                                    let w = choose|w: int| 0 <= w < t0.len() && t0[w] as int == i;
                                    assert(t1[w] == targets@[w]);
                                }
                            }
                        }
                        k += 1;
                    }
                    assert(targets@.take(targets@.len() as int) == targets@);
                    assert(errors@.len() == e1 ==> forall|i: int| #[trigger] claim_targets_page(pages@, claims@[c as int], i) ==> !target_ambiguous(
                        pages@[i],
                        opt_view(claims@[c as int].anchor),
                        opt_view(claims@[c as int].excerpt),
                    )) by {
                        if errors@.len() == e1 {
                            assert forall|i: int| #[trigger] claim_targets_page(pages@, claims@[c as int], i) implies !target_ambiguous(
                                pages@[i],
                                opt_view(claims@[c as int].anchor),
                                opt_view(claims@[c as int].excerpt),
                            ) by {
                                assert(ct(i));
                                lemma_lists_member(targets@, pages@.len() as int, ct, i);
                                let w = choose|w: int| 0 <= w < targets@.len() && targets@[w] as int == i;
                            }
                        }
                    }
                    assert forall|i: int, j: int|
                        0 <= i < pages@.len() && 0 <= j < pages@[i].blocks@.len() implies lists_exactly(
                        (#[trigger] hits@[i]@[j])@,
                        c + 1,
                        claim_pred(pages@, claims@, i, j),
                    ) by {
                        if !lists_index(targets@, i) {
                            if ct(i) {
                                lemma_lists_member(targets@, pages@.len() as int, ct, i);
                            }
                            assert(!claim_pred(pages@, claims@, i, j)(c as int));
                            lemma_lists_skip(hits@[i]@[j]@, c as int, claim_pred(pages@, claims@, i, j));
                        }
                    }
                    proof {
                        lemma_marks_along(targets@, pages@.len() as int, ct, g);
                        let cl = claims@[c as int];
                        assert(ct(targets@[0] as int));
                        assert(matched_any == exists|i: int|
                            #[trigger] claim_targets_page(pages@, cl, i) && (target_resolves(pages@[i], opt_view(cl.anchor), opt_view(cl.excerpt))
                                || target_ambiguous(pages@[i], opt_view(cl.anchor), opt_view(cl.excerpt)))) by {
                            if matched_any {
                                let m = choose|m: int| 0 <= m < targets@.len() && (target_resolves(
                                    pages@[#[trigger] targets@[m] as int],
                                    opt_view(claim.anchor),
                                    opt_view(claim.excerpt),
                                ) || target_ambiguous(pages@[targets@[m] as int], opt_view(claim.anchor), opt_view(claim.excerpt)));
                                assert(ct(targets@[m] as int));
                            } else {
                                assert forall|i: int| #[trigger] claim_targets_page(pages@, cl, i) implies !(target_resolves(pages@[i], opt_view(cl.anchor), opt_view(cl.excerpt))
                                    || target_ambiguous(pages@[i], opt_view(cl.anchor), opt_view(cl.excerpt))) by {
                                    assert(ct(i));
                                    lemma_lists_member(targets@, pages@.len() as int, ct, i);
                                    let w = choose|w: int| 0 <= w < targets@.len() && targets@[w] as int == i;
                                }
                            }
                        }
                        assert(no_section_everywhere == forall|i: int| #[trigger] claim_targets_page(pages@, cl, i) ==> !names_section(pages@[i], opt_view(cl.anchor))) by {
                            if no_section_everywhere {
                                assert forall|i: int| #[trigger] claim_targets_page(pages@, cl, i) implies !names_section(pages@[i], opt_view(cl.anchor)) by {
                                    assert(ct(i));
                                    lemma_lists_member(targets@, pages@.len() as int, ct, i);
                                    let w = choose|w: int| 0 <= w < targets@.len() && targets@[w] as int == i;
                                }
                            } else {
                                let m = choose|m: int| 0 <= m < targets@.len() && !!names_section(
                                    pages@[#[trigger] targets@[m] as int],
                                    opt_view(claim.anchor),
                                );
                                assert(ct(targets@[m] as int));
                            }
                        }
                    }
                    let ghost mid = diag_marks(errors@);
                    if !matched_any {
                        proof {
                            let cl = claims@[c as int];
                            assert(!claim_resolves(pages@, cl)) by {
                                if claim_resolves(pages@, cl) {
                                    let i = choose|i: int| #[trigger] claim_targets_page(pages@, cl, i) && target_resolves(pages@[i], opt_view(cl.anchor), opt_view(cl.excerpt));
                                    assert(ct(i));
                                    lemma_lists_member(targets@, pages@.len() as int, ct, i);
                                    let w = choose|w: int| 0 <= w < targets@.len() && targets@[w] as int == i;
                                }
                            }
                            assert(!claim_clean(pages@, cl));
                            assert(claims_faulty(pages@, claims@));
                        }
                        let d = claim.target_display();
                        let t0 = targets[0];
                        let diag = unmatched_diag(
                            at.as_str(),
                            d.as_str(),
                            anchor,
                            no_section_everywhere,
                            targets.len(),
                            pages[t0].url.as_str(),
                        );
                        let ghost pre = errors@;
                        errors.push(diag);
                        proof {
                            lemma_marks_push(pre, diag);
                        }
                    }
                    assert(diag_marks(errors@) =~= m1 + claim_marks(pages@, claims@[c as int]));
                }
            },
        }
        assert(diag_marks(errors@) == m1 + claim_marks(pages@, claims@[c as int]));
        assert(claims_marks(pages@, claims@, c + 1) == claims_marks(pages@, claims@, c as int) + claim_marks(pages@, claims@[c as int]));
        assert(diag_marks(errors@) =~= m0 + claims_marks(pages@, claims@, c + 1));
        assert(errors@.len() > e1 || claim_clean(pages@, claims@[c as int]));
        assert(errors@.len() == e0 ==> forall|c2: int| 0 <= c2 < c + 1 ==> claim_clean(pages@, #[trigger] claims@[c2])) by {
            if errors@.len() == e0 {
                assert(e1 == e0);
            }
        }
        c += 1;
    }
}

/// Between consecutive entries of an exact list, no index satisfies the
/// predicate.
proof fn lemma_lists_gap(r: Seq<usize>, n: int, p: spec_fn(int) -> bool, m: int, k: int)
    requires
        lists_exactly(r, n, p),
        0 <= m <= r.len(),
        m > 0 ==> r[m - 1] < k,
        m == 0 ==> 0 <= k,
        m < r.len() ==> k < r[m],
        m == r.len() ==> k < n,
    ensures
        !p(k),
{
    if p(k) {
        assert(lists_index(r, k));
        let w = choose|w: int| 0 <= w < r.len() && r[w] as int == k;
        if w < m {
            if w < m - 1 {
                assert(r[w] < r[m - 1]);
            }
        } else {
            if w > m {
                assert(r[m] < r[w]);
            }
        }
    }
}

/// Whether claim `c` counts for block `j` of page `i`, as a predicate.
pub open spec fn counts_pred(pages: Seq<MeasuredPage>, sidecars: Seq<Sidecar>, claims: Seq<Claim>, i: int, j: int) -> spec_fn(int) -> bool {
    |c: int| counts_claim(pages, sidecars, claims, i, j, c)
}

/// The claims of a block that count: every claim resolving to it but
/// whole-section claims on an excluded block.
fn counted_claims(claims: &Vec<Claim>, hits: &Vec<usize>, exclude: bool, Ghost(pred): Ghost<spec_fn(int) -> bool>, Ghost(keep): Ghost<spec_fn(int) -> bool>) -> (r: Vec<usize>)
    requires
        lists_exactly(hits@, claims@.len() as int, pred),
        forall|c: int| 0 <= c < claims@.len() ==> #[trigger] keep(c) == (pred(c) && !(claims@[c].excerpt is None && exclude)),
    ensures
        lists_exactly(r@, claims@.len() as int, keep),
{
    let mut out: Vec<usize> = Vec::new();
    let mut m: usize = 0;
    proof {
        assert forall|k: int| 0 <= k < (if hits@.len() > 0 { hits@[0] as int } else { claims@.len() as int }) && #[trigger] keep(k) implies lists_index(out@, k) by {
            lemma_lists_gap(hits@, claims@.len() as int, pred, 0, k);
        }
    }
    while m < hits.len()
        invariant
            m <= hits@.len(),
            lists_exactly(hits@, claims@.len() as int, pred),
            forall|c: int| 0 <= c < claims@.len() ==> #[trigger] keep(c) == (pred(c) && !(claims@[c].excerpt is None && exclude)),
            lists_exactly(out@, if m < hits@.len() { hits@[m as int] as int } else { claims@.len() as int }, keep),
        decreases hits.len() - m,
    {
        let c = hits[m];
        assert(pred(c as int));
        assert(c < claims.len());
        let ghost lim: int = if m + 1 < hits.len() { hits@[m + 1] as int } else { claims@.len() as int };
        if !(claims[c].excerpt.is_none() && exclude) {
            proof {
                lemma_lists_push(out@, c as int, keep, c);
            }
            out.push(c);
        } else {
            proof {
                lemma_lists_skip(out@, c as int, keep);
            }
        }
        proof {
            if m + 1 < hits.len() {
                assert(hits@[m as int] < hits@[m + 1]);
            }
            assert forall|k: int| 0 <= k < lim && #[trigger] keep(k) implies lists_index(out@, k) by {
                if k > c {
                    lemma_lists_gap(hits@, claims@.len() as int, pred, m + 1, k);
                }
            }
            assert forall|a: int| 0 <= a < out@.len() implies #[trigger] out@[a] < lim && keep(out@[a] as int) by {}
        }
        m += 1;
    }
    out
}

/// A copy of a tracking reference.
fn copy_tracking(t: &Option<Tracking>) -> (r: Option<Tracking>)
    ensures
        tracking_view(r) == tracking_view(*t),
{
    match t {
        Some(tr) => Some(Tracking { raw: owned(tr.raw.as_str()), url: owned(tr.url.as_str()) }),
        None => None,
    }
}

/// `file:line` of a claim.
fn claim_site(claim: &Claim) -> (r: String)
    ensures
        r@ == claim.site.file@ + ":"@ + dec(claim.site.line as nat),
{
    let mut at = owned(claim.site.file.as_str());
    push_str(&mut at, ":");
    push_number(&mut at, claim.site.line as usize);
    at
}

/// The labels of the claims at the given indexes, in order.
pub open spec fn labels_at(claims: Seq<Claim>, indexes: Seq<usize>) -> Seq<Seq<char>> {
    Seq::new(indexes.len(), |k: int| claim_label(claims[indexes[k] as int]))
}

/// The labels of the given claims, joined with `, `.
fn claim_labels(claims: &Vec<Claim>, indexes: &Vec<usize>) -> (r: String)
    requires
        forall|k: int| 0 <= k < indexes@.len() ==> #[trigger] indexes@[k] < claims@.len(),
    ensures
        r@ == join_seq(labels_at(claims@, indexes@), ", "@),
{
    let mut out = String::new();
    let mut k: usize = 0;
    while k < indexes.len()
        invariant
            k <= indexes@.len(),
            forall|m: int| 0 <= m < indexes@.len() ==> #[trigger] indexes@[m] < claims@.len(),
            out@ == join_seq(labels_at(claims@, indexes@).take(k as int), ", "@),
        decreases indexes.len() - k,
    {
        let ghost pre = labels_at(claims@, indexes@).take(k as int);
        assert(labels_at(claims@, indexes@).take(k + 1).drop_last() == pre);
        if k > 0 {
            push_str(&mut out, ", ");
        }
        let l = claims[indexes[k]].label();
        push_str(&mut out, l.as_str());
        k += 1;
    }
    assert(labels_at(claims@, indexes@).take(indexes.len() as int) == labels_at(claims@, indexes@));
    out
}

/// Whether a claim counts for block `j` of page `i` while the sidecar
/// entry classifying it makes it non-normative or out of scope.
pub open spec fn contradiction(pages: Seq<MeasuredPage>, sidecars: Seq<Sidecar>, claims: Seq<Claim>, i: int, j: int) -> bool {
    (exists|c: int| #[trigger] counts_claim(pages, sidecars, claims, i, j, c)) && match classifying_entry(pages, sidecars, i, j) {
        Some(en) => en.kind == SidecarKind::NonNormative || en.kind == SidecarKind::OutOfScope,
        None => false,
    }
}

/// The kinds of a list of diagnostics, in order.
pub open spec fn diag_kinds(ds: Seq<Diagnostic>) -> Seq<DiagnosticKind> {
    ds.map_values(|d: Diagnostic| d.kind)
}

/// How often kind `k` occurs in `ks`.
pub open spec fn count_kind(ks: Seq<DiagnosticKind>, k: DiagnosticKind) -> nat
    decreases ks.len(),
{
    if ks.len() == 0 {
        0
    } else {
        count_kind(ks.drop_last(), k) + if ks.last() == k { 1nat } else { 0nat }
    }
}

/// The review finding a counted claim raises on block `j` of page `i`: a
/// stale `planned` entry, or, with no entry, a block the heuristic reads
/// as non-normative.
pub open spec fn claimed_lint(pages: Seq<MeasuredPage>, sidecars: Seq<Sidecar>, claims: Seq<Claim>, i: int, j: int) -> Seq<DiagnosticKind> {
    if !(exists|c: int| #[trigger] counts_claim(pages, sidecars, claims, i, j, c)) {
        Seq::empty()
    } else {
        match classifying_entry(pages, sidecars, i, j) {
            Some(en) => if en.kind == SidecarKind::Planned {
                seq![DiagnosticKind::StalePlanned]
            } else {
                Seq::empty()
            },
            None => if pages[i].blocks@[j].kind == StructuralKind::NonNormative {
                seq![DiagnosticKind::HeuristicDisagreement]
            } else {
                Seq::empty()
            },
        }
    }
}

/// The finding for an unclassified block.
pub open spec fn unclassified_lint(pages: Seq<MeasuredPage>, sidecars: Seq<Sidecar>, claims: Seq<Claim>, i: int, j: int) -> Seq<DiagnosticKind> {
    if resolved_state(pages, sidecars, claims, i, j) == BlockState::Unclassified {
        seq![DiagnosticKind::Unclassified]
    } else {
        Seq::empty()
    }
}

/// The finding for a `non-normative` entry on a block the heuristic reads
/// as prose.
pub open spec fn entry_lint(pages: Seq<MeasuredPage>, sidecars: Seq<Sidecar>, i: int, j: int) -> Seq<DiagnosticKind> {
    match classifying_entry(pages, sidecars, i, j) {
        Some(en) => if en.kind == SidecarKind::NonNormative && pages[i].blocks@[j].kind == StructuralKind::Prose {
            seq![DiagnosticKind::HeuristicDisagreement]
        } else {
            Seq::empty()
        },
        None => Seq::empty(),
    }
}

/// The kinds of the review findings block `j` of page `i` raises, in order.
pub open spec fn block_lint(pages: Seq<MeasuredPage>, sidecars: Seq<Sidecar>, claims: Seq<Claim>, i: int, j: int) -> Seq<DiagnosticKind> {
    claimed_lint(pages, sidecars, claims, i, j) + unclassified_lint(pages, sidecars, claims, i, j) + entry_lint(pages, sidecars, i, j)
}

/// The kinds of the findings of the first `n` blocks of page `i`.
pub open spec fn page_lint(pages: Seq<MeasuredPage>, sidecars: Seq<Sidecar>, claims: Seq<Claim>, i: int, n: int) -> Seq<DiagnosticKind>
    decreases n,
{
    if n <= 0 {
        Seq::empty()
    } else {
        page_lint(pages, sidecars, claims, i, n - 1) + block_lint(pages, sidecars, claims, i, n - 1)
    }
}

/// The kinds of the findings of the first `m` pages, page by page and
/// block by block.
pub open spec fn pages_lint(pages: Seq<MeasuredPage>, sidecars: Seq<Sidecar>, claims: Seq<Claim>, m: int) -> Seq<DiagnosticKind>
    decreases m,
{
    if m <= 0 {
        Seq::empty()
    } else {
        pages_lint(pages, sidecars, claims, m - 1) + page_lint(pages, sidecars, claims, m - 1, pages[m - 1].blocks@.len() as int)
    }
}

/// How many of the blocks are unclassified.
pub open spec fn unclassified_in(bs: Seq<BlockCoverage>) -> nat
    decreases bs.len(),
{
    if bs.len() == 0 {
        0
    } else {
        unclassified_in(bs.drop_last()) + if bs.last().state == BlockState::Unclassified { 1nat } else { 0nat }
    }
}

/// How many blocks of the pages are unclassified.
pub open spec fn unclassified_blocks(recs: Seq<PageRecord>) -> nat
    decreases recs.len(),
{
    if recs.len() == 0 {
        0
    } else {
        unclassified_blocks(recs.drop_last()) + unclassified_in(recs.last().coverage.blocks@)
    }
}

/// Counting a kind distributes over concatenation.
proof fn lemma_count_add(a: Seq<DiagnosticKind>, b: Seq<DiagnosticKind>, k: DiagnosticKind)
    ensures
        count_kind(a + b, k) == count_kind(a, k) + count_kind(b, k),
    decreases b.len(),
{
    if b.len() > 0 {
        assert((a + b).drop_last() =~= a + b.drop_last());
        lemma_count_add(a, b.drop_last(), k);
    } else {
        assert(a + b =~= a);
    }
}

/// The kinds of a list grown by one diagnostic.
proof fn lemma_kinds_push(ds: Seq<Diagnostic>, d: Diagnostic)
    ensures
        diag_kinds(ds.push(d)) == diag_kinds(ds) + seq![d.kind],
{
    assert(diag_kinds(ds.push(d)) =~= diag_kinds(ds) + seq![d.kind]);
}

/// A block's findings hold one unclassified finding exactly when the
/// block is unclassified.
proof fn lemma_block_lint_count(pages: Seq<MeasuredPage>, sidecars: Seq<Sidecar>, claims: Seq<Claim>, i: int, j: int)
    ensures
        count_kind(block_lint(pages, sidecars, claims, i, j), DiagnosticKind::Unclassified) == if resolved_state(
            pages,
            sidecars,
            claims,
            i,
            j,
        ) == BlockState::Unclassified {
            1nat
        } else {
            0nat
        },
{
    let a = claimed_lint(pages, sidecars, claims, i, j);
    let b = unclassified_lint(pages, sidecars, claims, i, j);
    let c = entry_lint(pages, sidecars, i, j);
    let u = DiagnosticKind::Unclassified;
    lemma_count_add(a + b, c, u);
    lemma_count_add(a, b, u);
    lemma_count_short(a, u);
    lemma_count_short(b, u);
    lemma_count_short(c, u);
}

/// The count of a kind in a list of at most one kind.
proof fn lemma_count_short(a: Seq<DiagnosticKind>, u: DiagnosticKind)
    requires
        a.len() <= 1,
    ensures
        count_kind(a, u) == if a.len() == 1 && a[0] == u { 1nat } else { 0nat },
{
    if a.len() == 1 {
        assert(a.drop_last().len() == 0);
        assert(count_kind(a.drop_last(), u) == 0);
    }
}

/// The contradiction error a counted claim raises on block `j` of page `i`.
pub open spec fn claim_contradiction(pages: Seq<MeasuredPage>, sidecars: Seq<Sidecar>, claims: Seq<Claim>, i: int, j: int) -> spec_fn(int) -> Seq<Mark> {
    |c: int| if counts_claim(pages, sidecars, claims, i, j, c) {
        seq![(DiagnosticKind::Contradiction, claim_at(claims[c]))]
    } else {
        Seq::empty()
    }
}

/// The hard errors block `j` of page `i` raises: on a contradicted block,
/// one per counted claim, in claim order, at the claim.
pub open spec fn block_marks(pages: Seq<MeasuredPage>, sidecars: Seq<Sidecar>, claims: Seq<Claim>, i: int, j: int) -> Seq<Mark> {
    if contradiction(pages, sidecars, claims, i, j) {
        marks_upto(claim_contradiction(pages, sidecars, claims, i, j), claims.len() as int)
    } else {
        Seq::empty()
    }
}

/// The contradiction errors of the first `n` blocks of page `i`.
pub open spec fn page_marks(pages: Seq<MeasuredPage>, sidecars: Seq<Sidecar>, claims: Seq<Claim>, i: int, n: int) -> Seq<Mark>
    decreases n,
{
    if n <= 0 {
        Seq::empty()
    } else {
        page_marks(pages, sidecars, claims, i, n - 1) + block_marks(pages, sidecars, claims, i, n - 1)
    }
}

/// The contradiction errors of the first `m` pages, page by page and block
/// by block.
pub open spec fn pages_marks(pages: Seq<MeasuredPage>, sidecars: Seq<Sidecar>, claims: Seq<Claim>, m: int) -> Seq<Mark>
    decreases m,
{
    if m <= 0 {
        Seq::empty()
    } else {
        pages_marks(pages, sidecars, claims, m - 1) + page_marks(pages, sidecars, claims, m - 1, pages[m - 1].blocks@.len() as int)
    }
}

/// The hard errors resolution raises, by kind and location: the coverage
/// maps' in sidecar order, then the claims' in claim order, then the
/// contradictions block by block.
pub open spec fn error_marks(pages: Seq<MeasuredPage>, sidecars: Seq<Sidecar>, claims: Seq<Claim>) -> Seq<Mark> {
    sidecars_marks(pages, sidecars, sidecars.len() as int) + claims_marks(pages, claims, claims.len() as int) + pages_marks(
        pages,
        sidecars,
        claims,
        pages.len() as int,
    )
}

/// Resolves block `j` of page `i` by the precedence rules, recording the
/// diagnostics it raises.
fn resolve_block(
    pages: &[MeasuredPage],
    sidecars: &[Sidecar],
    claims: &Vec<Claim>,
    norm: &Vec<Vec<char>>,
    i: usize,
    j: usize,
    slot: Option<(usize, usize)>,
    hits: &Vec<usize>,
    reviewed: bool,
    errors: &mut Vec<Diagnostic>,
    lint: &mut Vec<Diagnostic>,
) -> (b: BlockCoverage)
    requires
        i < pages@.len(),
        j < pages@[i as int].blocks@.len(),
        normalized_page(pages@[i as int], norm@),
        slot_ok(pages@, sidecars@, slot, i as int, j as int, sidecars@.len() as int, 0),
        lists_exactly(hits@, claims@.len() as int, claim_pred(pages@, claims@, i as int, j as int)),
        reviewed == reviewed_page(pages@, sidecars@, i as int),
        all_errors(old(errors)@),
        all_lint(old(lint)@),
    ensures
        block_resolved(pages@, sidecars@, claims@, i as int, j as int, b),
        all_errors(final(errors)@),
        all_lint(final(lint)@),
        final(errors)@.len() >= old(errors)@.len(),
        contradiction(pages@, sidecars@, claims@, i as int, j as int) ==> final(errors)@.len() > old(errors)@.len(),
        final(errors)@.len() > old(errors)@.len() ==> contradiction(pages@, sidecars@, claims@, i as int, j as int),
        diag_marks(final(errors)@) == diag_marks(old(errors)@) + block_marks(pages@, sidecars@, claims@, i as int, j as int),
        diag_kinds(final(lint)@) == diag_kinds(old(lint)@) + block_lint(pages@, sidecars@, claims@, i as int, j as int),
{
    let ghost e0 = errors@.len();
    let ghost l0 = lint@;
    let ghost m0 = diag_marks(errors@);
    let ghost gc = claim_contradiction(pages@, sidecars@, claims@, i as int, j as int);
    let page = &pages[i];
    let block = &page.blocks[j];
    let ghost entry_spec = classifying_entry(pages@, sidecars@, i as int, j as int);
    let entry: Option<(&Sidecar, &SidecarEntry)> = match slot {
        Some((s0, e0)) => {
            proof {
                lemma_classifying_entry(pages@, sidecars@, i as int, j as int, s0 as int, e0 as int);
            }
            Some((&sidecars[s0], &sidecars[s0].entries[e0]))
        },
        None => {
            proof {
                assert forall|s2: int, e2: int| !#[trigger] pair_hits(pages@, sidecars@, s2, e2, i as int, j as int) by {
                    if pair_hits(pages@, sidecars@, s2, e2, i as int, j as int) {
                        assert(lex_before(s2, e2, sidecars@.len() as int, 0));
                    }
                }
                lemma_no_classifying_entry(pages@, sidecars@, i as int, j as int);
            }
            None
        },
    };
    assert(entry_spec == match entry {
        Some((_, e)) => Some(*e),
        None => None::<SidecarEntry>,
    });
    let exclude = match entry {
        Some((_, e)) => e.kind == SidecarKind::NonNormative || e.kind == SidecarKind::OutOfScope,
        None => block.kind == StructuralKind::NonNormative,
    };
    assert(exclude == excluded(pages@, sidecars@, i as int, j as int));
    let ghost pred = claim_pred(pages@, claims@, i as int, j as int);
    let ghost keep = counts_pred(pages@, sidecars@, claims@, i as int, j as int);
    let claim_indexes = counted_claims(claims, hits, exclude, Ghost(pred), Ghost(keep));
    let mut location = owned(page.url.as_str());
    push_str(&mut location, " block ");
    assert(j < page.blocks.len());
    push_number(&mut location, j + 1);
    let excerpt = short_excerpt(norm[j].as_slice());
    let quoted = debug_quote(excerpt.as_str());
    let ghost verified = exists|c: int| #[trigger] counts_claim(pages@, sidecars@, claims@, i as int, j as int, c);
    let state = if claim_indexes.len() == 0 {
        assert(!verified) by {
            if verified {
                let c = choose|c: int| #[trigger] counts_claim(pages@, sidecars@, claims@, i as int, j as int, c);
                assert(keep(c));
                lemma_lists_member(claim_indexes@, claims@.len() as int, keep, c);
            }
        }
        assert(claimed_lint(pages@, sidecars@, claims@, i as int, j as int) =~= Seq::<DiagnosticKind>::empty());
        assert(diag_kinds(lint@) =~= diag_kinds(l0) + claimed_lint(pages@, sidecars@, claims@, i as int, j as int));
        match entry {
            Some((_, e)) => e.kind.state(),
            None => {
                if block.kind == StructuralKind::NonNormative {
                    BlockState::NonNormative
                } else if reviewed {
                    BlockState::Uncovered
                } else {
                    BlockState::Unclassified
                }
            },
        }
    } else {
        assert(verified) by {
            assert(keep(claim_indexes@[0] as int));
        }
        assert(forall|k: int| 0 <= k < claim_indexes@.len() ==> #[trigger] claim_indexes@[k] < claims@.len());
        match entry {
            Some((sidecar, e)) => {
                if e.kind == SidecarKind::NonNormative || e.kind == SidecarKind::OutOfScope {
                    assert(contradiction(pages@, sidecars@, claims@, i as int, j as int));
                    assert(claimed_lint(pages@, sidecars@, claims@, i as int, j as int) =~= Seq::<DiagnosticKind>::empty());
                    assert(diag_kinds(lint@) =~= diag_kinds(l0) + claimed_lint(pages@, sidecars@, claims@, i as int, j as int));
                    let mut k: usize = 0;
                    while k < claim_indexes.len()
                        invariant
                            k <= claim_indexes@.len(),
                            forall|m: int| 0 <= m < claim_indexes@.len() ==> #[trigger] claim_indexes@[m] < claims@.len(),
                            all_errors(errors@),
                            errors@.len() == e0 + k,
                            lists_exactly(claim_indexes@, claims@.len() as int, keep),
                            keep == counts_pred(pages@, sidecars@, claims@, i as int, j as int),
                            gc == claim_contradiction(pages@, sidecars@, claims@, i as int, j as int),
                            diag_marks(errors@) == m0 + marks_along(claim_indexes@.take(k as int), gc),
                        decreases claim_indexes.len() - k,
                    {
                        let ghost pre = errors@;
                        let c = claim_indexes[k];
                        let d = claims[c].target_display();
                        let mut message = owned("claim ");
                        let q = debug_quote(d.as_str());
                        push_str(&mut message, q.as_str());
                        push_str(&mut message, " verifies a block ");
                        push_str(&mut message, sidecar.file.as_str());
                        push_str(&mut message, " marks ");
                        push_str(&mut message, e.kind.list_name());
                        push_str(&mut message, ": ");
                        let ed = e.display();
                        push_str(&mut message, ed.as_str());
                        push_str(&mut message, " (");
                        push_str(&mut message, location.as_str());
                        push_str(&mut message, ": ");
                        push_str(&mut message, quoted.as_str());
                        push_str(&mut message, ")");
                        let diag = Diagnostic { kind: DiagnosticKind::Contradiction, at: claim_site(&claims[c]), message };
                        errors.push(diag);
                        proof {
                            lemma_marks_push(pre, diag);
                            lemma_marks_along_take(claim_indexes@, k as int, gc);
                            assert(keep(c as int));
                            assert(gc(c as int) == seq![(DiagnosticKind::Contradiction, claim_at(claims@[c as int]))]);
                            assert(diag_marks(errors@) =~= m0 + marks_along(claim_indexes@.take(k + 1), gc));
                        }
                        k += 1;
                    }
                    proof {
                        assert(claim_indexes@.take(claim_indexes@.len() as int) == claim_indexes@);
                        lemma_marks_along(claim_indexes@, claims@.len() as int, keep, gc);
                    }
                } else {
                    let mut message = e.display();
                    push_str(&mut message, " is verified by ");
                    let labels = claim_labels(claims, &claim_indexes);
                    push_str(&mut message, labels.as_str());
                    push_str(&mut message, "; remove the stale planned entry (");
                    push_str(&mut message, location.as_str());
                    push_str(&mut message, ": ");
                    push_str(&mut message, quoted.as_str());
                    push_str(&mut message, ")");
                    let d = Diagnostic { kind: DiagnosticKind::StalePlanned, at: owned(sidecar.file.as_str()), message };
                    lint.push(d);
                    proof {
                        lemma_kinds_push(l0, d);
                        assert(e.kind == SidecarKind::Planned);
                        assert(claimed_lint(pages@, sidecars@, claims@, i as int, j as int) == seq![DiagnosticKind::StalePlanned]);
                    }
                }
            },
            None => {
                if block.kind == StructuralKind::NonNormative {
                    let mut message = owned("claim verifies a ");
                    push_str(&mut message, block.context.as_str());
                    push_str(&mut message, " block the heuristic reads as non-normative (");
                    push_str(&mut message, location.as_str());
                    push_str(&mut message, ": ");
                    push_str(&mut message, quoted.as_str());
                    push_str(&mut message, ")");
                    let first = claim_indexes[0];
                    let d = Diagnostic { kind: DiagnosticKind::HeuristicDisagreement, at: claim_site(&claims[first]), message };
                    lint.push(d);
                    proof {
                        lemma_kinds_push(l0, d);
                        assert(claimed_lint(pages@, sidecars@, claims@, i as int, j as int) == seq![DiagnosticKind::HeuristicDisagreement]);
                    }
                } else {
                    assert(claimed_lint(pages@, sidecars@, claims@, i as int, j as int) =~= Seq::<DiagnosticKind>::empty());
                    assert(diag_kinds(lint@) =~= diag_kinds(l0) + claimed_lint(pages@, sidecars@, claims@, i as int, j as int));
                }
            },
        }
        BlockState::Verified
    };
    assert(state == resolved_state(pages@, sidecars@, claims@, i as int, j as int));
    let ghost ka = claimed_lint(pages@, sidecars@, claims@, i as int, j as int);
    let ghost kb = unclassified_lint(pages@, sidecars@, claims@, i as int, j as int);
    let ghost kc = entry_lint(pages@, sidecars@, i as int, j as int);
    assert(diag_kinds(lint@) == diag_kinds(l0) + ka);
    let ghost l1 = lint@;
    if state == BlockState::Unclassified {
        let mut message = owned("unclassified ");
        push_str(&mut message, block.context.as_str());
        push_str(&mut message, " ");
        push_str(&mut message, quoted.as_str());
        let d = Diagnostic { kind: DiagnosticKind::Unclassified, at: owned(location.as_str()), message };
        lint.push(d);
        proof {
            lemma_kinds_push(l1, d);
        }
    }
    assert(diag_kinds(lint@) =~= diag_kinds(l0) + ka + kb);
    let ghost l2 = lint@;
    if let Some((sidecar, e)) = entry {
        if e.kind == SidecarKind::NonNormative && block.kind == StructuralKind::Prose {
            let mut message = e.display();
            push_str(&mut message, " marks a ");
            push_str(&mut message, block.context.as_str());
            push_str(
                &mut message,
                " block the heuristic reads as normative prose \u{2014} non-normative, or out of scope? (",
            );
            push_str(&mut message, location.as_str());
            push_str(&mut message, ": ");
            push_str(&mut message, quoted.as_str());
            push_str(&mut message, ")");
            let d = Diagnostic { kind: DiagnosticKind::HeuristicDisagreement, at: owned(sidecar.file.as_str()), message };
            lint.push(d);
            proof {
                lemma_kinds_push(l2, d);
            }
        }
    }
    assert(diag_kinds(lint@) =~= diag_kinds(l0) + block_lint(pages@, sidecars@, claims@, i as int, j as int));
    let (reason, tracking) = match (state, entry) {
        (BlockState::OutOfScope, Some((_, e))) => (copy_opt(&e.reason), None),
        (BlockState::Planned, Some((_, e))) => (None, copy_tracking(&e.tracking)),
        _ => (None, None),
    };
    BlockCoverage {
        state,
        context: owned(block.context.as_str()),
        page_lines: block.page_lines,
        reason,
        tracking,
        claims: claim_indexes,
    }
}

/// The coverage database: every measured page's resolved coverage, the
/// claims they reference, and the diagnostics resolution produced.
/// Ephemeral: recomputed by every scan, never committed.
#[derive(Clone, Debug, Default)]
pub struct CoverageDatabase {
    /// Every measured page, in catalog order.
    pub pages: Vec<PageRecord>,
    /// Every scanned claim; block records index into this list.
    pub claims: Vec<Claim>,
    /// Hard errors: unresolved or ambiguous targets, contradictions.
    pub errors: Vec<Diagnostic>,
    /// Review findings.
    pub lint: Vec<Diagnostic>,
}

/// Whether `rec` is what resolution makes of page `i`.
pub open spec fn page_resolved(
    pages: Seq<MeasuredPage>,
    sidecars: Seq<Sidecar>,
    claims: Seq<Claim>,
    i: int,
    rec: PageRecord,
) -> bool {
    &&& rec.coords@ == pages[i].coords@
    &&& rec.url@ == pages[i].url@
    &&& rec.repo_path@ == pages[i].repo_path@
    &&& rec.coverage.blocks@.len() == pages[i].blocks@.len()
    &&& forall|j: int| 0 <= j < pages[i].blocks@.len() ==> block_resolved(pages, sidecars, claims, i, j, #[trigger] rec.coverage.blocks@[j])
    &&& tallies(rec.coverage.counts, block_states(rec.coverage.blocks@))
}

/// Resolves claims and sidecars against the measured pages into a
/// coverage database.
pub fn resolve(pages: &[MeasuredPage], claims: Vec<Claim>, sidecars: &[Sidecar]) -> (db: CoverageDatabase)
    ensures
        db.claims@ == claims@,
        db.pages@.len() == pages@.len(),
        forall|i: int| 0 <= i < pages@.len() ==> page_resolved(pages@, sidecars@, claims@, i, #[trigger] db.pages@[i]),
        all_errors(db.errors@),
        all_lint(db.lint@),
        db.errors@.len() == 0 ==> forall|c: int| 0 <= c < claims@.len() ==> claim_resolves(pages@, #[trigger] claims@[c]),
        db.errors@.len() == 0 ==> forall|s: int| 0 <= s < sidecars@.len() ==> sidecar_resolves(pages@, #[trigger] sidecars@[s]),
        db.errors@.len() == 0 ==> forall|i: int, j: int|
            0 <= i < pages@.len() && 0 <= j < pages@[i].blocks@.len() ==> !#[trigger] contradiction(pages@, sidecars@, claims@, i, j),
        db.errors@.len() == 0 <==> !claims_faulty(pages@, claims@) && !sidecars_faulty(pages@, sidecars@) && !contradicted(pages@, sidecars@, claims@),
        diag_kinds(db.lint@) == pages_lint(pages@, sidecars@, claims@, pages@.len() as int),
        count_kind(diag_kinds(db.lint@), DiagnosticKind::Unclassified) == unclassified_blocks(db.pages@),
        diag_marks(db.errors@) == error_marks(pages@, sidecars@, claims@),
{
    let n = pages.len();
    let mut normalized: Vec<Vec<Vec<char>>> = Vec::new();
    let mut slots: Vec<Vec<Option<(usize, usize)>>> = Vec::new();
    let mut hits: Vec<Vec<Vec<usize>>> = Vec::new();
    let mut reviewed: Vec<bool> = Vec::new();
    let mut i: usize = 0;
    while i < n
        invariant
            n == pages@.len(),
            i <= n,
            normalized@.len() == i,
            slots@.len() == i,
            hits@.len() == i,
            reviewed@.len() == i,
            forall|a: int| 0 <= a < i ==> normalized_page(pages@[a], (#[trigger] normalized@[a])@),
            forall|a: int| 0 <= a < i ==> (#[trigger] slots@[a])@.len() == pages@[a].blocks@.len(),
            forall|a: int, j: int| 0 <= a < i && 0 <= j < pages@[a].blocks@.len() ==> (#[trigger] slots@[a]@[j]) is None,
            forall|a: int| 0 <= a < i ==> (#[trigger] hits@[a])@.len() == pages@[a].blocks@.len(),
            forall|a: int, j: int| 0 <= a < i && 0 <= j < pages@[a].blocks@.len() ==> (#[trigger] hits@[a]@[j])@.len() == 0,
            forall|a: int| 0 <= a < i ==> !#[trigger] reviewed@[a],
        decreases n - i,
    {
        let page = &pages[i];
        let mut norm_row: Vec<Vec<char>> = Vec::new();
        let mut slot_row: Vec<Option<(usize, usize)>> = Vec::new();
        let mut hit_row: Vec<Vec<usize>> = Vec::new();
        let mut j: usize = 0;
        while j < page.blocks.len()
            invariant
                j <= page.blocks@.len(),
                norm_row@.len() == j,
                slot_row@.len() == j,
                hit_row@.len() == j,
                forall|b: int| 0 <= b < j ==> (#[trigger] norm_row@[b])@ == norm_ws(page.blocks@[b].text@),
                forall|b: int| 0 <= b < j ==> (#[trigger] slot_row@[b]) is None,
                forall|b: int| 0 <= b < j ==> (#[trigger] hit_row@[b])@.len() == 0,
            decreases page.blocks.len() - j,
        {
            let t = chars_of(page.blocks[j].text.as_str());
            norm_row.push(normalize_chars(t.as_slice()));
            slot_row.push(None);
            hit_row.push(Vec::new());
            j += 1;
        }
        normalized.push(norm_row);
        slots.push(slot_row);
        hits.push(hit_row);
        reviewed.push(false);
        i += 1;
    }
    let mut errors: Vec<Diagnostic> = Vec::new();
    let mut lint: Vec<Diagnostic> = Vec::new();
    assert(slots_upto(pages@, sidecars@, slots@, 0, 0));
    apply_sidecars(pages, sidecars, &normalized, &mut slots, &mut reviewed, &mut errors);
    assert(hits_upto(pages@, claims@, hits@, 0));
    let ghost e_side = errors@.len();
    let ghost side = diag_marks(errors@);
    apply_claims(pages, &claims, &normalized, &mut hits, &mut errors);
    let ghost e_claims = errors@.len();
    assert(e_claims == 0 ==> e_side == 0);
    let ghost faulty = claims_faulty(pages@, claims@) || sidecars_faulty(pages@, sidecars@) || contradicted(pages@, sidecars@, claims@);
    assert(errors@.len() > 0 ==> faulty);
    assert(diag_kinds(lint@) =~= pages_lint(pages@, sidecars@, claims@, 0));
    assert(diag_marks(errors@) =~= side + claims_marks(pages@, claims@, claims@.len() as int) + pages_marks(pages@, sidecars@, claims@, 0));

    let mut records: Vec<PageRecord> = Vec::new();
    let mut i: usize = 0;
    while i < n
        invariant
            n == pages@.len(),
            i <= n,
            records@.len() == i,
            normalized_pages(pages@, normalized@),
            slots_upto(pages@, sidecars@, slots@, sidecars@.len() as int, 0),
            hits_upto(pages@, claims@, hits@, claims@.len() as int),
            reviewed@.len() == n,
            forall|a: int| 0 <= a < n ==> #[trigger] reviewed@[a] == reviewed_page(pages@, sidecars@, a),
            forall|a: int| 0 <= a < i ==> page_resolved(pages@, sidecars@, claims@, a, #[trigger] records@[a]),
            all_errors(errors@),
            all_lint(lint@),
            errors@.len() >= e_claims,
            errors@.len() == 0 ==> forall|a: int, b: int|
                0 <= a < i && 0 <= b < pages@[a].blocks@.len() ==> !#[trigger] contradiction(pages@, sidecars@, claims@, a, b),
            faulty == (claims_faulty(pages@, claims@) || sidecars_faulty(pages@, sidecars@) || contradicted(pages@, sidecars@, claims@)),
            errors@.len() > 0 ==> faulty,
            diag_kinds(lint@) == pages_lint(pages@, sidecars@, claims@, i as int),
            count_kind(diag_kinds(lint@), DiagnosticKind::Unclassified) == unclassified_blocks(records@),
            diag_marks(errors@) == side + claims_marks(pages@, claims@, claims@.len() as int) + pages_marks(pages@, sidecars@, claims@, i as int),
        decreases n - i,
    {
        let ghost e_page = errors@.len();
        let page = &pages[i];
        let mut blocks: Vec<BlockCoverage> = Vec::new();
        let mut j: usize = 0;
        while j < page.blocks.len()
            invariant
                n == pages@.len(),
                i < n,
                page == pages@[i as int],
                j <= page.blocks@.len(),
                blocks@.len() == j,
                normalized_pages(pages@, normalized@),
                slots_upto(pages@, sidecars@, slots@, sidecars@.len() as int, 0),
                hits_upto(pages@, claims@, hits@, claims@.len() as int),
                reviewed@.len() == n,
                forall|a: int| 0 <= a < n ==> #[trigger] reviewed@[a] == reviewed_page(pages@, sidecars@, a),
                forall|b: int| 0 <= b < j ==> block_resolved(pages@, sidecars@, claims@, i as int, b, #[trigger] blocks@[b]),
                all_errors(errors@),
                all_lint(lint@),
                errors@.len() >= e_page,
                errors@.len() == 0 ==> forall|b: int| 0 <= b < j ==> !#[trigger] contradiction(pages@, sidecars@, claims@, i as int, b),
                faulty == (claims_faulty(pages@, claims@) || sidecars_faulty(pages@, sidecars@) || contradicted(pages@, sidecars@, claims@)),
                errors@.len() > 0 ==> faulty,
                diag_kinds(lint@) == pages_lint(pages@, sidecars@, claims@, i as int) + page_lint(pages@, sidecars@, claims@, i as int, j as int),
                diag_marks(errors@) == side + claims_marks(pages@, claims@, claims@.len() as int) + pages_marks(pages@, sidecars@, claims@, i as int)
                    + page_marks(pages@, sidecars@, claims@, i as int, j as int),
                count_kind(diag_kinds(lint@), DiagnosticKind::Unclassified) == unclassified_blocks(records@) + unclassified_in(blocks@),
            decreases page.blocks.len() - j,
        {
            let ghost e_block = errors@.len();
            let ghost lk = diag_kinds(lint@);
            let ghost mk = diag_marks(errors@);
            let ghost bl0 = blocks@;
            assert(normalized_page(pages@[i as int], normalized@[i as int]@));
            assert(slot_ok(pages@, sidecars@, slots@[i as int]@[j as int], i as int, j as int, sidecars@.len() as int, 0));
            assert(lists_exactly(hits@[i as int]@[j as int]@, claims@.len() as int, claim_pred(pages@, claims@, i as int, j as int)));
            let b = resolve_block(
                pages,
                sidecars,
                &claims,
                &normalized[i],
                i,
                j,
                slots[i][j],
                &hits[i][j],
                reviewed[i],
                &mut errors,
                &mut lint,
            );
            blocks.push(b);
            proof {
                let bl = block_lint(pages@, sidecars@, claims@, i as int, j as int);
                let u = DiagnosticKind::Unclassified;
                assert(page_lint(pages@, sidecars@, claims@, i as int, j + 1) == page_lint(pages@, sidecars@, claims@, i as int, j as int) + bl);
                assert(diag_kinds(lint@) =~= pages_lint(pages@, sidecars@, claims@, i as int) + page_lint(pages@, sidecars@, claims@, i as int, j + 1));
                lemma_count_add(lk, bl, u);
                assert(page_marks(pages@, sidecars@, claims@, i as int, j + 1) == page_marks(pages@, sidecars@, claims@, i as int, j as int) + block_marks(pages@, sidecars@, claims@, i as int, j as int));
                assert(diag_marks(errors@) =~= side + claims_marks(pages@, claims@, claims@.len() as int) + pages_marks(pages@, sidecars@, claims@, i as int)
                    + page_marks(pages@, sidecars@, claims@, i as int, j + 1));
                lemma_block_lint_count(pages@, sidecars@, claims@, i as int, j as int);
                assert(blocks@.drop_last() =~= bl0);
                assert(blocks@.last() == b);
                if errors@.len() > e_block {
                    assert(contradiction(pages@, sidecars@, claims@, i as int, j as int));
                    assert(contradicted(pages@, sidecars@, claims@));
                }
            }
            assert(errors@.len() == 0 ==> forall|b2: int| 0 <= b2 < j + 1 ==> !#[trigger] contradiction(pages@, sidecars@, claims@, i as int, b2)) by {
                if errors@.len() == 0 {
                    assert(e_block == 0);
                }
            }
            j += 1;
        }
        let ghost rec0 = records@;
        let ghost bfinal = blocks@;
        let coverage = PageCoverage::from_blocks(blocks);
        records.push(PageRecord {
            coords: page.coords.copy(),
            url: owned(page.url.as_str()),
            repo_path: owned(page.repo_path.as_str()),
            coverage,
        });
        proof {
            assert(records@.drop_last() =~= rec0);
            assert(records@.last().coverage.blocks@ == bfinal);
            assert(pages_lint(pages@, sidecars@, claims@, i + 1) == pages_lint(pages@, sidecars@, claims@, i as int) + page_lint(
                pages@,
                sidecars@,
                claims@,
                i as int,
                pages@[i as int].blocks@.len() as int,
            ));
            assert(pages_marks(pages@, sidecars@, claims@, i + 1) == pages_marks(pages@, sidecars@, claims@, i as int) + page_marks(
                pages@,
                sidecars@,
                claims@,
                i as int,
                pages@[i as int].blocks@.len() as int,
            ));
            assert(diag_marks(errors@) =~= side + claims_marks(pages@, claims@, claims@.len() as int) + pages_marks(pages@, sidecars@, claims@, i + 1));
        }
        assert(errors@.len() == 0 ==> forall|a: int, b: int|
            0 <= a < i + 1 && 0 <= b < pages@[a].blocks@.len() ==> !#[trigger] contradiction(pages@, sidecars@, claims@, a, b)) by {
            if errors@.len() == 0 {
                assert(e_page == 0);
            }
        }
        i += 1;
    }
    assert(errors@.len() == 0 ==> !claims_faulty(pages@, claims@) && !sidecars_faulty(pages@, sidecars@) && !contradicted(pages@, sidecars@, claims@)) by {
        if errors@.len() == 0 {
            assert(e_claims == 0 && e_side == 0);
            if contradicted(pages@, sidecars@, claims@) {
                let (a, b) = choose|a: int, b: int| 0 <= a < pages@.len() && 0 <= b < pages@[a].blocks@.len() && #[trigger] contradiction(pages@, sidecars@, claims@, a, b);
            }
            if claims_faulty(pages@, claims@) {
                let c = choose|c: int| 0 <= c < claims@.len() && !claim_clean(pages@, #[trigger] claims@[c]);
            }
            if exists|s: int| 0 <= s < sidecars@.len() && !sidecar_clean(pages@, #[trigger] sidecars@[s]) {
                let s = choose|s: int| 0 <= s < sidecars@.len() && !sidecar_clean(pages@, #[trigger] sidecars@[s]);
            }
        }
    }
    assert(side =~= sidecars_marks(pages@, sidecars@, sidecars@.len() as int));
    CoverageDatabase { pages: records, claims, errors, lint }
}

} // verus!
