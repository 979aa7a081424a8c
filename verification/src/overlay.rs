//! The client overlay's payload for one page: the block-pairing selector,
//! the blocks' exact anchors, and per-block arrays for the overlays the
//! page carries (coverage states with their claims, diff changes, edit
//! targets). The application serializes it to JSON for the page.

use vstd::prelude::*;
use crate::coverage::model::{state_token, BlockCoverage, Claim};
use crate::coverage::resolve::CoverageDatabase;
use crate::model::resource::opt_view;
use crate::render::{overlay_table, selector_text, client_selector, PageBlockChange, RenderedPage};
use crate::site::{claim_url, claim_url_at, claim_url_at_spec, claim_url_spec, diff_changed};
use crate::text::{dec, owned, push_str, str_eq};
use crate::theme::highlight::{highlight_rust_lines, highlighted, rust_classed_html, string_views};
use crate::model::catalog::copy_opt;

verus! {

/// One claim as the overlay's detail panel shows it.
#[derive(Clone, Debug)]
pub struct OverlayClaim {
    /// The claim's label (`crate::test_fn`, or `file:line`).
    pub label: String,
    /// `file:line` of the claim.
    pub location: String,
    /// The claim's line.
    pub line: u32,
    /// The click-through URL, when one applies.
    pub url: Option<String>,
    /// The local file and line to open, in serve mode.
    pub edit: Option<(String, u32)>,
    /// The index of the claim's test function in the payload's test table,
    /// when its source is known.
    pub test: Option<usize>,
}

/// One test function that claims sit in, shown once however many of them
/// it holds.
#[derive(Clone, Debug)]
pub struct OverlayTest {
    /// The test's file.
    pub file: String,
    /// The function's first line.
    pub line: u32,
    /// The function's name.
    pub name: Option<String>,
    /// The function's source, highlighted, one HTML fragment per line.
    pub html: Vec<String>,
    /// The click-through URL of the function's first line.
    pub url: Option<String>,
    /// The local file and line to open, in serve mode.
    pub edit: Option<(String, u32)>,
}

/// One block's coverage entry.
#[derive(Clone, Debug)]
pub struct OverlayCoverage {
    /// The state's token.
    pub state: String,
    /// The recorded reason of an out-of-scope block.
    pub reason: Option<String>,
    /// The tracking reference and URL of a planned block.
    pub tracking: Option<(String, String)>,
    /// The claims resolving to the block, when a database is at hand and
    /// any does.
    pub claims: Option<Vec<OverlayClaim>>,
}

/// One block's diff mark.
#[derive(Clone, Debug)]
pub enum OverlayDiff {
    /// Identical in the base.
    Unchanged,
    /// Not present in the base.
    Added,
    /// Edited, with its word-level diff markup.
    Edited(String),
}

/// The combined overlay payload of one page.
#[derive(Clone, Debug)]
pub struct OverlayPayload {
    /// The block-pairing CSS selector.
    pub selector: String,
    /// Each overlay block's preprocessed start line.
    pub lines: Vec<u32>,
    /// Per-block coverage entries, when the page has coverage.
    pub coverage: Option<Vec<OverlayCoverage>>,
    /// Per-block diff marks, when the page changed against its base.
    pub diff: Option<Vec<OverlayDiff>>,
    /// Per-block edit targets, in serve mode when any block has one.
    pub edit: Option<Vec<Option<(String, usize)>>>,
    /// The test functions the coverage entries' claims sit in.
    pub tests: Vec<OverlayTest>,
}

/// The test function a claim sits in, by file and first line, when its
/// source is known.
pub open spec fn test_key(c: Claim) -> Option<(Seq<char>, u32)> {
    match (c.site.fn_line, c.site.fn_source) {
        (Some(l), Some(_)) => Some((c.site.file@, l)),
        _ => None,
    }
}

/// The claims a block's coverage entry shows: those it lists that exist.
pub open spec fn block_shown(b: BlockCoverage, claims: Seq<Claim>) -> Seq<Claim> {
    let v = indexes_below(b.claims@, claims.len() as int);
    Seq::new(v.len(), |m: int| claims[v[m] as int])
}

/// The claims the coverage entries of the first `k` blocks show, in order.
pub open spec fn shown_claims(blocks: Seq<BlockCoverage>, claims: Seq<Claim>, k: int) -> Seq<Claim>
    decreases k,
{
    if k <= 0 {
        Seq::empty()
    } else {
        shown_claims(blocks, claims, k - 1) + block_shown(blocks[k - 1], claims)
    }
}

/// Whether some claim of `f` sits in test function `key`.
pub open spec fn has_key(f: Seq<Claim>, key: Option<(Seq<char>, u32)>) -> bool {
    exists|k: int| 0 <= k < f.len() && test_key(#[trigger] f[k]) == key
}

/// The first claim of each test function among `cs`, in order of first
/// appearance.
pub open spec fn test_firsts(cs: Seq<Claim>) -> Seq<Claim>
    decreases cs.len(),
{
    if cs.len() == 0 {
        Seq::empty()
    } else {
        let f = test_firsts(cs.drop_last());
        if test_key(cs.last()) is Some && !has_key(f, test_key(cs.last())) {
            f.push(cs.last())
        } else {
            f
        }
    }
}

/// What the test table shows of the test function claim `c` sits in.
pub open spec fn test_entry_is(t: OverlayTest, c: Claim, template: Option<Seq<char>>, edit: bool) -> bool {
    let l = c.site.fn_line->0;
    let src = c.site.fn_source->0@;
    &&& t.file@ == c.site.file@
    &&& t.line == l
    &&& opt_view(t.name) == opt_view(c.site.test_fn)
    &&& string_views(t.html@) == highlighted(src, rust_classed_html(src))
    &&& opt_view(t.url) == claim_url_at_spec(c, l, template)
    &&& match t.edit {
        Some((path, line)) => edit && c.site.local_path is Some && path@ == c.site.local_path->0@ && line == l,
        None => !(edit && c.site.local_path is Some),
    }
}

/// Whether a test table shows the test functions of `firsts`, in order.
pub open spec fn tests_are(ts: Seq<OverlayTest>, firsts: Seq<Claim>, template: Option<Seq<char>>, edit: bool) -> bool {
    ts.len() == firsts.len() && forall|k: int| 0 <= k < ts.len() ==> test_entry_is(#[trigger] ts[k], firsts[k], template, edit)
}

/// Whether a claim entry's test index points at its test function in a
/// table of first claims: none without a known source, else the entry of
/// the same function.
pub open spec fn test_index_is(t: Option<usize>, c: Claim, firsts: Seq<Claim>) -> bool {
    match test_key(c) {
        None => t is None,
        Some(key) => match t {
            Some(i) => i < firsts.len() && test_key(firsts[i as int]) == Some(key),
            None => !has_key(firsts, Some(key)),
        },
    }
}

/// Every first claim has a known source.
proof fn lemma_firsts_keyed(cs: Seq<Claim>)
    ensures
        forall|k: int| 0 <= k < test_firsts(cs).len() ==> (test_key(#[trigger] test_firsts(cs)[k]) is Some),
    decreases cs.len(),
{
    if cs.len() > 0 {
        lemma_firsts_keyed(cs.drop_last());
    }
}

/// Adding a claim to the shown ones adds its test function when it is
/// new.
proof fn lemma_firsts_push(cs: Seq<Claim>, c: Claim)
    ensures
        test_firsts(cs.push(c)) == if test_key(c) is Some && !has_key(test_firsts(cs), test_key(c)) {
            test_firsts(cs).push(c)
        } else {
            test_firsts(cs)
        },
{
    assert(cs.push(c).drop_last() =~= cs);
}

/// The indexes of `idx` below `n`, in order.
pub open spec fn indexes_below(idx: Seq<usize>, n: int) -> Seq<usize>
    decreases idx.len(),
{
    if idx.len() == 0 {
        Seq::empty()
    } else if (idx.last() as int) < n {
        indexes_below(idx.drop_last(), n).push(idx.last())
    } else {
        indexes_below(idx.drop_last(), n)
    }
}

/// What the panel shows of a claim.
pub open spec fn claim_entry_is(e: OverlayClaim, c: Claim, template: Option<Seq<char>>, edit: bool) -> bool {
    &&& e.label@ == crate::coverage::model::claim_label(c)
    &&& e.location@ == c.site.file@ + ":"@ + dec(c.site.line as nat)
    &&& e.line == c.site.line
    &&& opt_view(e.url) == claim_url_spec(c, template)
    &&& match e.edit {
        Some((path, line)) => edit && c.site.local_path is Some && path@ == c.site.local_path->0@ && line == c.site.line,
        None => !(edit && c.site.local_path is Some),
    }
}

/// What the coverage entry of a block holds: its state token, reason and
/// tracking, and (with a database) the entries of the claims it lists
/// that exist, when there are any.
pub open spec fn coverage_entry_is(
    e: OverlayCoverage,
    b: BlockCoverage,
    claims: Option<Seq<Claim>>,
    template: Option<Seq<char>>,
    edit: bool,
    firsts: Seq<Claim>,
) -> bool {
    &&& e.state@ == state_token(b.state)
    &&& opt_view(e.reason) == opt_view(b.reason)
    &&& match (e.tracking, b.tracking) {
        (Some((raw, url)), Some(t)) => raw@ == t.raw@ && url@ == t.url@,
        (None, None) => true,
        _ => false,
    }
    &&& match claims {
        None => e.claims is None,
        Some(cl) => {
            let valid = indexes_below(b.claims@, cl.len() as int);
            if valid.len() == 0 {
                e.claims is None
            } else {
                e.claims matches Some(v) && v@.len() == valid.len() && forall|k: int|
                    0 <= k < valid.len() ==> claim_entry_is(#[trigger] v@[k], cl[valid[k] as int], template, edit)
                        && test_index_is(v@[k].test, cl[valid[k] as int], firsts)
            }
        },
    }
}

/// A page block change as an overlay mark.
pub open spec fn diff_mark_is(m: OverlayDiff, c: PageBlockChange) -> bool {
    match (m, c) {
        (OverlayDiff::Unchanged, PageBlockChange::Unchanged) => true,
        (OverlayDiff::Added, PageBlockChange::Added) => true,
        (OverlayDiff::Edited(a), PageBlockChange::Edited { diff_html }) => a@ == diff_html@,
        _ => false,
    }
}

/// Whether any block has an edit target.
pub open spec fn any_target(v: Seq<Option<(String, usize)>>) -> bool {
    exists|i: int| 0 <= i < v.len() && #[trigger] v[i] is Some
}

/// The first claim of each test function a page's coverage entries show.
pub open spec fn page_tests(page: RenderedPage, claims: Option<Seq<Claim>>) -> Seq<Claim> {
    match (page.coverage, claims) {
        (Some(cov), Some(cl)) => test_firsts(shown_claims(cov.blocks@, cl, cov.blocks@.len() as int)),
        _ => Seq::empty(),
    }
}

/// The payload a page gets: `None` when it carries no overlay at all;
/// else the selector and line anchors, the coverage entries when the
/// page has coverage, the diff marks when it changed against its base,
/// and (when editing) the block sources when any block has one.
pub open spec fn payload_is(
    r: Option<OverlayPayload>,
    page: RenderedPage,
    claims: Option<Seq<Claim>>,
    template: Option<Seq<char>>,
    edit: bool,
) -> bool {
    let has_cov = page.coverage is Some;
    let has_diff = page.diff is Some && diff_changed(page.diff->0);
    let has_edit = edit && any_target(page.block_sources@);
    if !has_cov && !has_diff && !has_edit {
        r is None
    } else {
        r matches Some(p) && {
            &&& p.selector@ == selector_text(overlay_table())
            &&& p.lines@ == page.block_lines@
            &&& match page.coverage {
                Some(cov) => p.coverage matches Some(v) && v@.len() == cov.blocks@.len() && forall|k: int|
                    0 <= k < v@.len() ==> coverage_entry_is(#[trigger] v@[k], cov.blocks@[k], claims, template, edit, page_tests(page, claims)),
                None => p.coverage is None,
            }
            &&& tests_are(p.tests@, page_tests(page, claims), template, edit)
            &&& if has_diff {
                p.diff matches Some(v) && v@.len() == page.diff->0.blocks@.len() && forall|k: int|
                    0 <= k < v@.len() ==> diff_mark_is(#[trigger] v@[k], page.diff->0.blocks@[k])
            } else {
                p.diff is None
            }
            &&& if has_edit {
                p.edit matches Some(v) && v@.len() == page.block_sources@.len() && forall|k: int|
                    0 <= k < v@.len() ==> match (#[trigger] v@[k], page.block_sources@[k]) {
                        (Some((f, l)), Some((g, m))) => f@ == g@ && l == m,
                        (None, None) => true,
                        _ => false,
                    }
            } else {
                p.edit is None
            }
        }
    }
}

fn claim_entry(c: &Claim, template: Option<&str>, edit: bool, test: Option<usize>) -> (r: OverlayClaim)
    ensures
        claim_entry_is(r, *c, match template {
            Some(t) => Some(t@),
            None => None,
        }, edit),
        r.test == test,
{
    let mut location = owned(c.site.file.as_str());
    push_str(&mut location, ":");
    let digits = crate::text::dec_string(c.site.line as u64);
    push_str(&mut location, digits.as_str());
    let e = match (&c.site.local_path, edit) {
        (Some(path), true) => Some((path.clone(), c.site.line)),
        _ => None,
    };
    OverlayClaim { label: c.label(), location, line: c.site.line, url: claim_url(c, template), edit: e, test }
}

/// The test table entry of the test function claim `c` sits in.
fn test_entry(c: &Claim, template: Option<&str>, edit: bool) -> (t: OverlayTest)
    requires
        test_key(*c) is Some,
    ensures
        test_entry_is(t, *c, match template {
            Some(x) => Some(x@),
            None => None,
        }, edit),
{
    let l = match c.site.fn_line {
        Some(l) => l,
        None => 0,
    };
    let src = match &c.site.fn_source {
        Some(x) => x.as_str(),
        None => "",
    };
    let e = match (&c.site.local_path, edit) {
        (Some(path), true) => Some((owned(path.as_str()), l)),
        _ => None,
    };
    OverlayTest {
        file: owned(c.site.file.as_str()),
        line: l,
        name: copy_opt(&c.site.test_fn),
        html: highlight_rust_lines(src),
        url: claim_url_at(c, l, template),
        edit: e,
    }
}

/// The index of claim `c`'s test function in the test table.
fn find_test(tests: &Vec<OverlayTest>, c: &Claim, Ghost(fin): Ghost<Seq<Claim>>, Ghost(tv): Ghost<Option<Seq<char>>>, edit: bool) -> (r: Option<usize>)
    requires
        tests_are(tests@, fin, tv, edit),
        forall|k: int| 0 <= k < fin.len() ==> (test_key(#[trigger] fin[k]) is Some),
    ensures
        test_index_is(r, *c, fin),
{
    match (c.site.fn_line, &c.site.fn_source) {
        (Some(l), Some(_)) => {
            let mut i: usize = 0;
            while i < tests.len()
                invariant
                    i <= tests@.len(),
                    tests_are(tests@, fin, tv, edit),
                    forall|k: int| 0 <= k < fin.len() ==> (test_key(#[trigger] fin[k]) is Some),
                    test_key(*c) == Some((c.site.file@, l)),
                    forall|k: int| 0 <= k < i ==> test_key(#[trigger] fin[k]) != Some((c.site.file@, l)),
                decreases tests.len() - i,
            {
                assert(test_entry_is(tests@[i as int], fin[i as int], tv, edit));
                assert(test_key(fin[i as int]) is Some);
                if tests[i].line == l && str_eq(tests[i].file.as_str(), c.site.file.as_str()) {
                    return Some(i);
                }
                i += 1;
            }
            None
        },
        _ => None,
    }
}

/// The test table of a page's coverage entries: each test function their
/// claims sit in, once, in order of first appearance.
fn build_tests(blocks: &Vec<BlockCoverage>, db: &CoverageDatabase, template: Option<&str>, edit: bool) -> (r: Vec<OverlayTest>)
    ensures
        tests_are(r@, test_firsts(shown_claims(blocks@, db.claims@, blocks@.len() as int)), match template {
            Some(x) => Some(x@),
            None => None,
        }, edit),
{
    let ghost tv = match template {
        Some(x) => Some(x@),
        None => None,
    };
    let ghost n = db.claims@.len() as int;
    let mut tests: Vec<OverlayTest> = Vec::new();
    let mut k: usize = 0;
    while k < blocks.len()
        invariant
            k <= blocks@.len(),
            n == db.claims@.len(),
            tv == (match template {
                Some(x) => Some(x@),
                None => None::<Seq<char>>,
            }),
            tests_are(tests@, test_firsts(shown_claims(blocks@, db.claims@, k as int)), tv, edit),
        decreases blocks.len() - k,
    {
        let b = &blocks[k];
        let ghost base = shown_claims(blocks@, db.claims@, k as int);
        let ghost mut cur = base;
        let mut j: usize = 0;
        while j < b.claims.len()
            invariant
                j <= b.claims@.len(),
                n == db.claims@.len(),
                b == blocks@[k as int],
                cur == base + Seq::new(indexes_below(b.claims@.take(j as int), n).len(), |m: int| db.claims@[indexes_below(b.claims@.take(j as int), n)[m] as int]),
                tests_are(tests@, test_firsts(cur), tv, edit),
                tv == (match template {
                    Some(x) => Some(x@),
                    None => None::<Seq<char>>,
                }),
            decreases b.claims.len() - j,
        {
            let ghost before = indexes_below(b.claims@.take(j as int), n);
            assert(b.claims@.take(j + 1).drop_last() == b.claims@.take(j as int));
            let index = b.claims[j];
            if index < db.claims.len() {
                let c = &db.claims[index];
                assert(indexes_below(b.claims@.take(j + 1), n) == before.push(index));
                proof {
                    lemma_firsts_push(cur, *c);
                }
                let ghost f0 = test_firsts(cur);
                match (c.site.fn_line, &c.site.fn_source) {
                    (Some(_), Some(_)) => {
                        proof {
                            lemma_firsts_keyed(cur);
                        }
                        let found = find_test(&tests, c, Ghost(f0), Ghost(tv), edit);
                        if found.is_none() {
                            let t = test_entry(c, template, edit);
                            let ghost old_tests = tests@;
                            tests.push(t);
                            assert(tests_are(tests@, f0.push(*c), tv, edit)) by {
                                assert forall|q: int| 0 <= q < tests@.len() implies test_entry_is(#[trigger] tests@[q], f0.push(*c)[q], tv, edit) by {
                                    if q < f0.len() {
                                        assert(f0.push(*c)[q] == f0[q]);
                                        assert(tests@[q] == old_tests[q]);
                                    } else {
                                        assert(tests@[q] == t);
                                    }
                                }
                            }
                        }
                    },
                    _ => {},
                }
                proof {
                    cur = cur.push(*c);
                }
                assert(cur =~= base + Seq::new(indexes_below(b.claims@.take(j + 1), n).len(), |m: int| db.claims@[indexes_below(b.claims@.take(j + 1), n)[m] as int]));
            } else {
                assert(indexes_below(b.claims@.take(j + 1), n) == before);
            }
            j += 1;
        }
        assert(b.claims@.take(b.claims@.len() as int) == b.claims@);
        assert(shown_claims(blocks@, db.claims@, k + 1) == base + block_shown(blocks@[k as int], db.claims@));
        assert(cur =~= shown_claims(blocks@, db.claims@, k + 1));
        k += 1;
    }
    tests
}

fn coverage_entry(
    b: &BlockCoverage,
    database: Option<&CoverageDatabase>,
    template: Option<&str>,
    edit: bool,
    tests: &Vec<OverlayTest>,
    Ghost(fin): Ghost<Seq<Claim>>,
) -> (r: OverlayCoverage)
    requires
        tests_are(tests@, fin, match template {
            Some(t) => Some(t@),
            None => None,
        }, edit),
        forall|k: int| 0 <= k < fin.len() ==> (test_key(#[trigger] fin[k]) is Some),
    ensures
        coverage_entry_is(r, *b, match database {
            Some(db) => Some(db.claims@),
            None => None,
        }, match template {
            Some(t) => Some(t@),
            None => None,
        }, edit, fin),
{
    let tracking = match &b.tracking {
        Some(t) => Some((t.raw.clone(), t.url.clone())),
        None => None,
    };
    let claims = match database {
        None => None,
        Some(db) => {
            let ghost n = db.claims@.len() as int;
            let mut v: Vec<OverlayClaim> = Vec::new();
            let ghost tv = match template {
                Some(t) => Some(t@),
                None => None,
            };
            let mut k: usize = 0;
            while k < b.claims.len()
                invariant
                    k <= b.claims@.len(),
                    n == db.claims@.len(),
                    tv == (match template {
                        Some(t) => Some(t@),
                        None => None::<Seq<char>>,
                    }),
                    v@.len() == indexes_below(b.claims@.take(k as int), n).len(),
                    forall|m: int| 0 <= m < v@.len() ==> claim_entry_is(#[trigger] v@[m], db.claims@[indexes_below(b.claims@.take(k as int), n)[m] as int], tv, edit)
                        && test_index_is(v@[m].test, db.claims@[indexes_below(b.claims@.take(k as int), n)[m] as int], fin),
                    tests_are(tests@, fin, tv, edit),
                    forall|q: int| 0 <= q < fin.len() ==> (test_key(#[trigger] fin[q]) is Some),
                decreases b.claims.len() - k,
            {
                let ghost before = indexes_below(b.claims@.take(k as int), n);
                assert(b.claims@.take(k + 1).drop_last() == b.claims@.take(k as int));
                let index = b.claims[k];
                if index < db.claims.len() {
                    let ghost vb = v@;
                    let test = find_test(tests, &db.claims[index], Ghost(fin), Ghost(tv), edit);
                    let entry = claim_entry(&db.claims[index], template, edit, test);
                    v.push(entry);
                    assert(indexes_below(b.claims@.take(k + 1), n) == before.push(index));
                    assert forall|m: int| 0 <= m < v@.len() implies claim_entry_is(#[trigger] v@[m], db.claims@[indexes_below(b.claims@.take(k + 1), n)[m] as int], tv, edit)
                        && test_index_is(v@[m].test, db.claims@[indexes_below(b.claims@.take(k + 1), n)[m] as int], fin) by {
                        if m < vb.len() {
                            assert(v@[m] == vb[m]);
                        }
                    }
                }
                k += 1;
            }
            assert(b.claims@.take(b.claims@.len() as int) == b.claims@);
            if v.len() == 0 {
                None
            } else {
                Some(v)
            }
        },
    };
    OverlayCoverage { state: owned(b.state.token()), reason: b.reason.clone(), tracking, claims }
}

/// Builds a page's overlay payload: the block-pairing selector plus
/// per-block arrays for the overlays the page carries. `None` when it
/// carries none.
#[verifier::rlimit(40)]
pub fn overlay_payload(
    page: &RenderedPage,
    database: Option<&CoverageDatabase>,
    link_template: Option<&str>,
    edit: bool,
) -> (r: Option<OverlayPayload>)
    ensures
        payload_is(r, *page, match database {
            Some(db) => Some(db.claims@),
            None => None,
        }, match link_template {
            Some(t) => Some(t@),
            None => None,
        }, edit),
{
    let ghost claims_v = match database {
        Some(db) => Some(db.claims@),
        None => None,
    };
    let ghost tv = match link_template {
        Some(t) => Some(t@),
        None => None,
    };
    let ghost fin = page_tests(*page, claims_v);
    let tests: Vec<OverlayTest> = match (&page.coverage, database) {
        (Some(cov), Some(db)) => build_tests(&cov.blocks, db, link_template, edit),
        _ => Vec::new(),
    };
    proof {
        if page.coverage is Some && database is Some {
            let cov = page.coverage->0;
            let db = database->0;
            lemma_firsts_keyed(shown_claims(cov.blocks@, db.claims@, cov.blocks@.len() as int));
        }
    }
    let coverage = match &page.coverage {
        None => None,
        Some(cov) => {
            let mut v: Vec<OverlayCoverage> = Vec::new();
            let mut k: usize = 0;
            while k < cov.blocks.len()
                invariant
                    k <= cov.blocks@.len(),
                    v@.len() == k,
                    tests_are(tests@, fin, tv, edit),
                    forall|q: int| 0 <= q < fin.len() ==> (test_key(#[trigger] fin[q]) is Some),
                    claims_v == (match database {
                        Some(db) => Some(db.claims@),
                        None => None,
                    }),
                    tv == (match link_template {
                        Some(t) => Some(t@),
                        None => None::<Seq<char>>,
                    }),
                    forall|m: int| 0 <= m < k ==> coverage_entry_is(#[trigger] v@[m], cov.blocks@[m], claims_v, tv, edit, fin),
                decreases cov.blocks.len() - k,
            {
                let e = coverage_entry(&cov.blocks[k], database, link_template, edit, &tests, Ghost(fin));
                v.push(e);
                k += 1;
            }
            Some(v)
        },
    };
    let diff = match &page.diff {
        Some(d) => {
            if d.is_changed() {
                let mut v: Vec<OverlayDiff> = Vec::new();
                let mut k: usize = 0;
                while k < d.blocks.len()
                    invariant
                        k <= d.blocks@.len(),
                        v@.len() == k,
                        forall|m: int| 0 <= m < k ==> diff_mark_is(#[trigger] v@[m], d.blocks@[m]),
                    decreases d.blocks.len() - k,
                {
                    let mark = match &d.blocks[k] {
                        PageBlockChange::Unchanged => OverlayDiff::Unchanged,
                        PageBlockChange::Added => OverlayDiff::Added,
                        PageBlockChange::Edited { diff_html } => OverlayDiff::Edited(diff_html.clone()),
                    };
                    v.push(mark);
                    k += 1;
                }
                Some(v)
            } else {
                None
            }
        },
        None => None,
    };
    let edit_targets = if edit {
        let mut v: Vec<Option<(String, usize)>> = Vec::new();
        let mut any = false;
        let mut k: usize = 0;
        while k < page.block_sources.len()
            invariant
                k <= page.block_sources@.len(),
                v@.len() == k,
                any == exists|m: int| 0 <= m < k && #[trigger] page.block_sources@[m] is Some,
                forall|m: int| 0 <= m < k ==> match (#[trigger] v@[m], page.block_sources@[m]) {
                    (Some((f, l)), Some((g, n))) => f@ == g@ && l == n,
                    (None, None) => true,
                    _ => false,
                },
            decreases page.block_sources.len() - k,
        {
            let t = match &page.block_sources[k] {
                Some((file, line)) => {
                    any = true;
                    Some((file.clone(), *line))
                },
                None => None,
            };
            v.push(t);
            k += 1;
        }
        if any {
            Some(v)
        } else {
            None
        }
    } else {
        None
    };
    if coverage.is_none() && diff.is_none() && edit_targets.is_none() {
        return None;
    }
    let mut lines: Vec<u32> = Vec::new();
    let mut k: usize = 0;
    while k < page.block_lines.len()
        invariant
            k <= page.block_lines@.len(),
            lines@ == page.block_lines@.take(k as int),
        decreases page.block_lines.len() - k,
    {
        lines.push(page.block_lines[k]);
        k += 1;
        assert(lines@ =~= page.block_lines@.take(k as int));
    }
    assert(page.block_lines@.take(page.block_lines@.len() as int) == page.block_lines@);
    Some(OverlayPayload { selector: client_selector(), lines, coverage, diff, edit: edit_targets, tests })
}

} // verus!
