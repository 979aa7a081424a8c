//! The site-wide coverage dashboard: per component version a subtotal row
//! and one row per measured page, least verified first, and the total of
//! all measured pages.

use vstd::prelude::*;

use crate::coverage::model::{count_of, percent_of, BlockState, StateCounts};
use crate::model::catalog::{opt_eq, Component, ComponentDescriptor, ContentCatalog};
use crate::model::resource::{opt_view, relative_url, relative_url_spec};
use crate::render::RenderedPage;
use crate::site::{cells_fit, dashboard_cells, dashboard_cells_text, dashboard_url};
use crate::text::{chars_of, owned, push_str, str_eq};
use crate::theme::{escaped, push_escaped};

verus! {

/// Whether `a` sorts strictly before `b`, character by character (the
/// order of `str`, since UTF-8 keeps code point order).
pub open spec fn text_before(a: Seq<char>, b: Seq<char>) -> bool
    decreases a.len(),
{
    if a.len() == 0 {
        b.len() > 0
    } else if b.len() == 0 {
        false
    } else if a[0] != b[0] {
        (a[0] as int) < (b[0] as int)
    } else {
        text_before(a.drop_first(), b.drop_first())
    }
}

/// Whether the text `a` sorts strictly before the text `b`.
fn str_before(a: &str, b: &str) -> (r: bool)
    ensures
        r == text_before(a@, b@),
{
    let x = chars_of(a);
    let y = chars_of(b);
    let mut i: usize = 0;
    proof {
        assert(x@.skip(0) == x@);
        assert(y@.skip(0) == y@);
    }
    while i < x.len() && i < y.len() && x[i] == y[i]
        invariant
            i <= x.len(),
            i <= y.len(),
            text_before(x@, y@) == text_before(x@.skip(i as int), y@.skip(i as int)),
        decreases x.len() - i,
    {
        proof {
            assert(x@.skip(i as int).drop_first() == x@.skip(i + 1));
            assert(y@.skip(i as int).drop_first() == y@.skip(i + 1));
        }
        i += 1;
    }
    if i == x.len() {
        i < y.len()
    } else if i == y.len() {
        false
    } else {
        x[i] < y[i]
    }
}

/// The counts of a measured page (zero for a page without coverage).
pub open spec fn page_counts(p: RenderedPage) -> StateCounts {
    match p.coverage {
        Some(c) => c.counts,
        None => StateCounts { verified: 0, planned: 0, uncovered: 0, unclassified: 0, out_of_scope: 0, non_normative: 0 },
    }
}

/// Whether page `a` may stand before page `b` on the dashboard: a lower
/// headline percentage first, and on a tie the URL that sorts first.
pub open spec fn stands_before(a: RenderedPage, b: RenderedPage) -> bool {
    let (pa, pb) = (percent_of(page_counts(a)), percent_of(page_counts(b)));
    pa < pb || (pa == pb && !text_before(b.url@, a.url@))
}

/// `x` inserted into the ordered run `s` after every page it does not
/// stand before (so pages with equal keys keep their order).
pub open spec fn insert_page<'a>(s: Seq<&'a RenderedPage>, x: &'a RenderedPage) -> Seq<&'a RenderedPage>
    decreases s.len(),
{
    if s.len() == 0 {
        seq![x]
    } else if stands_before(*s.last(), *x) {
        s.push(x)
    } else {
        insert_page(s.drop_last(), x).push(s.last())
    }
}

/// The pages in dashboard order: least verified first, then by URL, equal
/// keys in their given order.
pub open spec fn sort_pages<'a>(s: Seq<&'a RenderedPage>) -> Seq<&'a RenderedPage>
    decreases s.len(),
{
    if s.len() == 0 {
        Seq::empty()
    } else {
        insert_page(sort_pages(s.drop_last()), s.last())
    }
}

/// Whether a page has coverage whose headline arithmetic fits.
pub open spec fn measured(p: RenderedPage) -> bool {
    &&& p.coverage is Some
    &&& crate::coverage::model::counts_fit(page_counts(p))
}

/// The headline percentage of a measured page.
fn page_percent(p: &RenderedPage) -> (r: u32)
    requires
        measured(*p),
    ensures
        r == percent_of(page_counts(*p)),
{
    match &p.coverage {
        Some(c) => c.counts.percent_verified(),
        None => 0,
    }
}

/// Whether page `a` may stand before page `b`.
fn stands_before_exec(a: &RenderedPage, b: &RenderedPage) -> (r: bool)
    requires
        measured(*a),
        measured(*b),
    ensures
        r == stands_before(*a, *b),
{
    let pa = page_percent(a);
    let pb = page_percent(b);
    pa < pb || (pa == pb && !str_before(b.url.as_str(), a.url.as_str()))
}

/// Inserts `x` into the ordered run `v`.
fn insert_page_exec<'a>(v: &mut Vec<&'a RenderedPage>, x: &'a RenderedPage)
    requires
        measured(*x),
        forall|k: int| 0 <= k < old(v)@.len() ==> measured(*#[trigger] old(v)@[k]),
    ensures
        final(v)@ == insert_page(old(v)@, x),
{
    let ghost s = v@;
    let mut j: usize = v.len();
    proof {
        assert(s.take(s.len() as int) == s);
        assert(s.skip(s.len() as int) == Seq::<&RenderedPage>::empty());
    }
    while j > 0 && !stands_before_exec(v[j - 1], x)
        invariant
            v@ == s,
            j <= s.len(),
            measured(*x),
            forall|k: int| 0 <= k < s.len() ==> measured(*#[trigger] s[k]),
            insert_page(s, x) == insert_page(s.take(j as int), x) + s.skip(j as int),
        decreases j,
    {
        proof {
            let t = s.take(j as int);
            assert(t.drop_last() == s.take(j - 1));
            assert(t.last() == s[j - 1]);
            assert(insert_page(t, x) == insert_page(s.take(j - 1), x).push(s[j - 1]));
            assert(insert_page(s.take(j - 1), x).push(s[j - 1]) + s.skip(j as int)
                == insert_page(s.take(j - 1), x) + s.skip(j - 1));
        }
        j -= 1;
    }
    proof {
        if j == 0 {
            assert(s.take(0) == Seq::<&RenderedPage>::empty());
            assert(insert_page(s.take(0), x) == seq![x]);
            assert(seq![x] + s.skip(0) == s.insert(0, x));
        } else {
            let t = s.take(j as int);
            assert(t.last() == s[j - 1]);
            assert(insert_page(t, x) == t.push(x));
            assert(t.push(x) + s.skip(j as int) == s.insert(j as int, x));
        }
    }
    v.insert(j, x);
}

/// The pages in dashboard order.
fn sort_pages_exec<'a>(pages: &Vec<&'a RenderedPage>) -> (r: Vec<&'a RenderedPage>)
    requires
        forall|k: int| 0 <= k < pages@.len() ==> measured(*#[trigger] pages@[k]),
    ensures
        r@ == sort_pages(pages@),
{
    let mut out: Vec<&'a RenderedPage> = Vec::new();
    let mut i: usize = 0;
    while i < pages.len()
        invariant
            i <= pages.len(),
            forall|k: int| 0 <= k < pages@.len() ==> measured(*#[trigger] pages@[k]),
            out@ == sort_pages(pages@.take(i as int)),
            forall|k: int| 0 <= k < out@.len() ==> measured(*#[trigger] out@[k]),
        decreases pages.len() - i,
    {
        proof {
            let t = pages@.take(i + 1);
            assert(t.drop_last() == pages@.take(i as int));
            assert(t.last() == pages@[i as int]);
        }
        insert_page_exec(&mut out, pages[i]);
        proof {
            lemma_insert_keeps(sort_pages(pages@.take(i as int)), pages@[i as int]);
        }
        i += 1;
    }
    proof {
        assert(pages@.take(pages@.len() as int) == pages@);
    }
    out
}

/// Inserting a measured page into a run of measured pages gives a run of
/// measured pages.
proof fn lemma_insert_keeps<'a>(s: Seq<&'a RenderedPage>, x: &'a RenderedPage)
    requires
        measured(*x),
        forall|k: int| 0 <= k < s.len() ==> measured(*#[trigger] s[k]),
    ensures
        forall|k: int| 0 <= k < insert_page(s, x).len() ==> measured(*#[trigger] insert_page(s, x)[k]),
        insert_page(s, x).len() == s.len() + 1,
    decreases s.len(),
{
    if s.len() > 0 && !stands_before(*s.last(), *x) {
        let front = s.drop_last();
        assert forall|k: int| 0 <= k < front.len() implies measured(*#[trigger] front[k]) by {
            assert(front[k] == s[k]);
        }
        lemma_insert_keeps(front, x);
        let r = insert_page(s, x);
        assert forall|k: int| 0 <= k < r.len() implies measured(*#[trigger] r[k]) by {
            if k < r.len() - 1 {
                assert(r[k] == insert_page(front, x)[k]);
            } else {
                assert(r[k] == s[s.len() - 1]);
            }
        }
    }
}

// ---------------------------------------------------------------------
// Grouping and sums
// ---------------------------------------------------------------------

/// Whether a page belongs to a component version.
pub open spec fn in_component(p: RenderedPage, c: Component) -> bool {
    p.coords.component@ == c.desc.name@ && opt_view(p.coords.version) == opt_view(c.desc.version)
}

/// The pages of one component version, in their given order.
pub open spec fn pages_of<'a>(covered: Seq<&'a RenderedPage>, c: Component) -> Seq<&'a RenderedPage>
    decreases covered.len(),
{
    if covered.len() == 0 {
        Seq::empty()
    } else if in_component(*covered.last(), c) {
        pages_of(covered.drop_last(), c).push(covered.last())
    } else {
        pages_of(covered.drop_last(), c)
    }
}

/// The sum of one state's count over pages.
pub open spec fn sum_state(ps: Seq<&RenderedPage>, s: BlockState) -> int
    decreases ps.len(),
{
    if ps.len() == 0 {
        0
    } else {
        sum_state(ps.drop_last(), s) + count_of(page_counts(*ps.last()), s)
    }
}

/// The counts of several pages summed, state by state.
pub open spec fn sum_of(ps: Seq<&RenderedPage>) -> StateCounts {
    StateCounts {
        verified: sum_state(ps, BlockState::Verified) as usize,
        planned: sum_state(ps, BlockState::Planned) as usize,
        uncovered: sum_state(ps, BlockState::Uncovered) as usize,
        unclassified: sum_state(ps, BlockState::Unclassified) as usize,
        out_of_scope: sum_state(ps, BlockState::OutOfScope) as usize,
        non_normative: sum_state(ps, BlockState::NonNormative) as usize,
    }
}

/// The sum of one state's count over the pages of every component
/// version.
pub open spec fn total_state(comps: Seq<Component>, covered: Seq<&RenderedPage>, s: BlockState) -> int
    decreases comps.len(),
{
    if comps.len() == 0 {
        0
    } else {
        total_state(comps.drop_last(), covered, s) + sum_state(pages_of(covered, comps.last()), s)
    }
}

/// The counts of every component version's pages summed.
pub open spec fn total_of(comps: Seq<Component>, covered: Seq<&RenderedPage>) -> StateCounts {
    StateCounts {
        verified: total_state(comps, covered, BlockState::Verified) as usize,
        planned: total_state(comps, covered, BlockState::Planned) as usize,
        uncovered: total_state(comps, covered, BlockState::Uncovered) as usize,
        unclassified: total_state(comps, covered, BlockState::Unclassified) as usize,
        out_of_scope: total_state(comps, covered, BlockState::OutOfScope) as usize,
        non_normative: total_state(comps, covered, BlockState::NonNormative) as usize,
    }
}

/// Whether every page is measured and every row's arithmetic fits.
#[verifier::opaque]
pub open spec fn dashboard_fits(comps: Seq<Component>, covered: Seq<&RenderedPage>) -> bool {
    &&& forall|i: int| 0 <= i < covered.len() ==> measured(*#[trigger] covered[i]) && cells_fit(page_counts(*covered[i]))
    &&& forall|s: BlockState| #[trigger] total_state(comps, covered, s) <= usize::MAX
    &&& cells_fit(total_of(comps, covered))
}

/// A prefix of pages sums to no more than all of them.
proof fn lemma_sum_prefix(ps: Seq<&RenderedPage>, i: int, s: BlockState)
    requires
        0 <= i <= ps.len(),
    ensures
        0 <= sum_state(ps.take(i), s) <= sum_state(ps, s),
    decreases ps.len(),
{
    if i == ps.len() {
        assert(ps.take(i) == ps);
        lemma_sum_nonneg(ps, s);
    } else {
        assert(ps.drop_last().take(i) == ps.take(i));
        lemma_sum_prefix(ps.drop_last(), i, s);
    }
}

/// Sums are never negative.
proof fn lemma_sum_nonneg(ps: Seq<&RenderedPage>, s: BlockState)
    ensures
        0 <= sum_state(ps, s),
    decreases ps.len(),
{
    if ps.len() > 0 {
        lemma_sum_nonneg(ps.drop_last(), s);
    }
}

/// A prefix of component versions sums to no more than all of them, and
/// each one's pages sum to no more than the total.
proof fn lemma_total_bounds(comps: Seq<Component>, covered: Seq<&RenderedPage>, k: int, s: BlockState)
    requires
        0 <= k <= comps.len(),
    ensures
        0 <= total_state(comps.take(k), covered, s) <= total_state(comps, covered, s),
        k < comps.len() ==> sum_state(pages_of(covered, comps[k]), s) <= total_state(comps, covered, s)
            - total_state(comps.take(k), covered, s),
    decreases comps.len(),
{
    if k == comps.len() {
        assert(comps.take(k) == comps);
        lemma_total_nonneg(comps, covered, s);
    } else {
        let front = comps.drop_last();
        assert(front.take(k) == comps.take(k));
        lemma_total_bounds(front, covered, k, s);
        lemma_sum_nonneg(pages_of(covered, comps.last()), s);
        if k == comps.len() - 1 {
            assert(front == comps.take(k));
        } else {
            assert(front[k] == comps[k]);
        }
    }
}

/// Totals are never negative.
proof fn lemma_total_nonneg(comps: Seq<Component>, covered: Seq<&RenderedPage>, s: BlockState)
    ensures
        0 <= total_state(comps, covered, s),
    decreases comps.len(),
{
    if comps.len() > 0 {
        lemma_total_nonneg(comps.drop_last(), covered, s);
        lemma_sum_nonneg(pages_of(covered, comps.last()), s);
    }
}

/// A row whose every count is at most that of a fitting row fits too.
proof fn lemma_cells_fit_below(a: StateCounts, b: StateCounts)
    requires
        cells_fit(b),
        forall|s: BlockState| #[trigger] count_of(a, s) <= count_of(b, s),
    ensures
        cells_fit(a),
{
    assert(count_of(a, BlockState::Verified) <= count_of(b, BlockState::Verified));
    assert(count_of(a, BlockState::Planned) <= count_of(b, BlockState::Planned));
    assert(count_of(a, BlockState::Uncovered) <= count_of(b, BlockState::Uncovered));
    assert(count_of(a, BlockState::Unclassified) <= count_of(b, BlockState::Unclassified));
}

/// The pages of one component version.
fn component_pages<'a>(covered: &[&'a RenderedPage], c: &Component) -> (r: Vec<&'a RenderedPage>)
    ensures
        r@ == pages_of(covered@, *c),
{
    let mut out: Vec<&'a RenderedPage> = Vec::new();
    let mut i: usize = 0;
    while i < covered.len()
        invariant
            i <= covered.len(),
            out@ == pages_of(covered@.take(i as int), *c),
        decreases covered.len() - i,
    {
        let p = covered[i];
        proof {
            let t = covered@.take(i + 1);
            assert(t.drop_last() == covered@.take(i as int));
            assert(t.last() == covered@[i as int]);
        }
        if str_eq(p.coords.component.as_str(), c.desc.name.as_str()) && opt_eq(&p.coords.version, &c.desc.version) {
            out.push(p);
        }
        i += 1;
    }
    proof {
        assert(covered@.take(covered@.len() as int) == covered@);
    }
    out
}

/// The counts of several pages summed.
fn sum_pages(ps: &Vec<&RenderedPage>) -> (r: StateCounts)
    requires
        forall|s: BlockState| #[trigger] sum_state(ps@, s) <= usize::MAX,
    ensures
        r == sum_of(ps@),
        forall|s: BlockState| #[trigger] count_of(r, s) == sum_state(ps@, s),
{
    let mut acc = StateCounts { verified: 0, planned: 0, uncovered: 0, unclassified: 0, out_of_scope: 0, non_normative: 0 };
    let mut i: usize = 0;
    while i < ps.len()
        invariant
            i <= ps.len(),
            forall|s: BlockState| #[trigger] sum_state(ps@, s) <= usize::MAX,
            forall|s: BlockState| #[trigger] count_of(acc, s) == sum_state(ps@.take(i as int), s),
        decreases ps.len() - i,
    {
        let t = Ghost(ps@.take(i + 1));
        proof {
            assert(t@.drop_last() == ps@.take(i as int));
            assert(t@.last() == ps@[i as int]);
            assert forall|s: BlockState| #[trigger] count_of(acc, s) + count_of(page_counts(*ps@[i as int]), s) <= usize::MAX by {
                lemma_sum_prefix(ps@, i + 1, s);
                assert(sum_state(t@, s) == sum_state(ps@.take(i as int), s) + count_of(page_counts(*ps@[i as int]), s));
            }
        }
        let page = ps[i];
        let counts = match &page.coverage {
            Some(c) => c.counts,
            None => StateCounts { verified: 0, planned: 0, uncovered: 0, unclassified: 0, out_of_scope: 0, non_normative: 0 },
        };
        acc.add_counts(&counts);
        i += 1;
    }
    proof {
        assert(ps@.take(ps@.len() as int) == ps@);
        assert(count_of(acc, BlockState::Verified) == sum_state(ps@, BlockState::Verified));
        assert(count_of(acc, BlockState::Planned) == sum_state(ps@, BlockState::Planned));
        assert(count_of(acc, BlockState::Uncovered) == sum_state(ps@, BlockState::Uncovered));
        assert(count_of(acc, BlockState::Unclassified) == sum_state(ps@, BlockState::Unclassified));
        assert(count_of(acc, BlockState::OutOfScope) == sum_state(ps@, BlockState::OutOfScope));
        assert(count_of(acc, BlockState::NonNormative) == sum_state(ps@, BlockState::NonNormative));
    }
    acc
}

// ---------------------------------------------------------------------
// Rows
// ---------------------------------------------------------------------

/// A component version's label: its title and shown version.
pub open spec fn component_label(d: ComponentDescriptor) -> Seq<char> {
    let title = match d.title {
        Some(t) => t@,
        None => d.name@,
    };
    title + match d.display_version {
        Some(v) => " "@ + v@,
        None => match d.version {
            Some(v) => " "@ + v@,
            None => Seq::empty(),
        },
    }
}

/// One page's row: its linked title and URL, then its cells.
pub open spec fn page_row(p: RenderedPage) -> Seq<char> {
    let label = match p.title_text {
        Some(t) => t@,
        None => p.url@,
    };
    "<tr><td><a href=\""@ + escaped(relative_url_spec(dashboard_url(), p.url@)) + "\">"@ + escaped(label)
        + "</a> <span class=\"page-url\">"@ + escaped(p.url@) + "</span></td>"@ + dashboard_cells_text(
        page_counts(p),
    ) + "</tr>\n"@
}

/// The rows of several pages, in order.
pub open spec fn page_rows(ps: Seq<&RenderedPage>) -> Seq<char>
    decreases ps.len(),
{
    if ps.len() == 0 {
        Seq::empty()
    } else {
        page_rows(ps.drop_last()) + page_row(*ps.last())
    }
}

/// One component version's rows: its subtotal row, then its pages in
/// dashboard order; nothing when none of its pages is measured.
pub open spec fn component_rows(c: Component, covered: Seq<&RenderedPage>) -> Seq<char> {
    let ps = pages_of(covered, c);
    if ps.len() == 0 {
        Seq::empty()
    } else {
        "<tr class=\"component\"><td>"@ + escaped(component_label(c.desc)) + "</td>"@ + dashboard_cells_text(
            sum_of(ps),
        ) + "</tr>\n"@ + page_rows(sort_pages(ps))
    }
}

/// The rows of every component version, in catalog order.
pub open spec fn components_rows(comps: Seq<Component>, covered: Seq<&RenderedPage>) -> Seq<char>
    decreases comps.len(),
{
    if comps.len() == 0 {
        Seq::empty()
    } else {
        components_rows(comps.drop_last(), covered) + component_rows(comps.last(), covered)
    }
}

/// The head of the dashboard: the legend and the table header.
pub open spec fn dashboard_head() -> Seq<char> {
    "<div class=\"coverage-dashboard\">\n<p>Each block of a measured page is <span class=\"cov-verified\">verified</span> (a test claims it), <span class=\"cov-planned\">planned</span> (a tracked gap), <span class=\"cov-uncovered\">uncovered</span> (normative, unclaimed), or <span class=\"cov-unclassified\">unclassified</span> (nobody has decided yet — the review queue). Out-of-scope and non-normative blocks leave the denominator; out-of-scope counts stay visible beside every bar.</p>\n<p class=\"cov-legend\"><span class=\"verified\">verified</span><span class=\"planned\">planned</span><span class=\"uncovered\">uncovered</span><span class=\"unclassified\">unclassified</span></p>\n<table>\n<thead><tr><th>Page</th><th>Coverage</th><th>Verified</th><th>Planned</th><th>Uncovered</th><th>Unclassified</th><th>Out of scope</th><th>Non-normative</th></tr></thead>\n<tbody>\n"@
}

/// The dashboard page body.
pub open spec fn dashboard_text(comps: Seq<Component>, covered: Seq<&RenderedPage>) -> Seq<char> {
    dashboard_head() + components_rows(comps, covered) + "</tbody>\n<tfoot><tr><td>All measured pages</td>"@
        + dashboard_cells_text(total_of(comps, covered)) + "</tr></tfoot>\n</table>\n</div>\n"@
}

/// A component version's label.
fn component_label_exec(d: &ComponentDescriptor) -> (r: String)
    ensures
        r@ == component_label(*d),
{
    let mut out = owned(d.title());
    let shown = match &d.display_version {
        Some(v) => Some(v),
        None => d.version.as_ref(),
    };
    match shown {
        Some(v) => {
            push_str(&mut out, " ");
            push_str(&mut out, v.as_str());
        },
        None => {},
    }
    out
}

#[verifier::spinoff_prover]
#[verifier::rlimit(40)]
fn push_page_row(out: &mut String, page: &RenderedPage)
    requires
        cells_fit(page_counts(*page)),
    ensures
        final(out)@ == old(out)@ + page_row(*page),
{
    push_str(out, "<tr><td><a href=\"");
    let href = relative_url("coverage.html", page.url.as_str());
    let hc = chars_of(href.as_str());
    push_escaped(out, hc.as_slice());
    push_str(out, "\">");
    let label = match &page.title_text {
        Some(t) => chars_of(t.as_str()),
        None => chars_of(page.url.as_str()),
    };
    push_escaped(out, label.as_slice());
    push_str(out, "</a> <span class=\"page-url\">");
    let uc = chars_of(page.url.as_str());
    push_escaped(out, uc.as_slice());
    push_str(out, "</span></td>");
    let counts = match &page.coverage {
        Some(c) => c.counts,
        None => StateCounts { verified: 0, planned: 0, uncovered: 0, unclassified: 0, out_of_scope: 0, non_normative: 0 },
    };
    let cells = dashboard_cells(&counts);
    push_str(out, cells.as_str());
    push_str(out, "</tr>\n");
}

/// Appends the rows of several pages.
fn push_page_rows(out: &mut String, ps: &Vec<&RenderedPage>)
    requires
        forall|k: int| 0 <= k < ps@.len() ==> cells_fit(page_counts(*#[trigger] ps@[k])),
    ensures
        final(out)@ == old(out)@ + page_rows(ps@),
{
    let ghost start = out@;
    let mut i: usize = 0;
    while i < ps.len()
        invariant
            i <= ps.len(),
            forall|k: int| 0 <= k < ps@.len() ==> cells_fit(page_counts(*#[trigger] ps@[k])),
            out@ == start + page_rows(ps@.take(i as int)),
        decreases ps.len() - i,
    {
        proof {
            let t = ps@.take(i + 1);
            assert(t.drop_last() == ps@.take(i as int));
            assert(t.last() == ps@[i as int]);
        }
        push_page_row(out, ps[i]);
        i += 1;
    }
    proof {
        assert(ps@.take(ps@.len() as int) == ps@);
    }
}

/// A page ready for its row: measured, and its row's arithmetic fits.
pub open spec fn row_ready(p: RenderedPage) -> bool {
    measured(p) && cells_fit(page_counts(p))
}

/// Inserting keeps every page ready.
proof fn lemma_insert_ready<'a>(s: Seq<&'a RenderedPage>, x: &'a RenderedPage)
    requires
        row_ready(*x),
        forall|k: int| 0 <= k < s.len() ==> row_ready(*#[trigger] s[k]),
    ensures
        forall|k: int| 0 <= k < insert_page(s, x).len() ==> row_ready(*#[trigger] insert_page(s, x)[k]),
    decreases s.len(),
{
    if s.len() > 0 && !stands_before(*s.last(), *x) {
        let front = s.drop_last();
        assert forall|k: int| 0 <= k < front.len() implies row_ready(*#[trigger] front[k]) by {
            assert(front[k] == s[k]);
        }
        lemma_insert_ready(front, x);
        let r = insert_page(s, x);
        assert forall|k: int| 0 <= k < r.len() implies row_ready(*#[trigger] r[k]) by {
            if k < r.len() - 1 {
                assert(r[k] == insert_page(front, x)[k]);
            } else {
                assert(r[k] == s[s.len() - 1]);
            }
        }
    } else if s.len() > 0 {
        let r = insert_page(s, x);
        assert forall|k: int| 0 <= k < r.len() implies row_ready(*#[trigger] r[k]) by {
            if k < s.len() {
                assert(r[k] == s[k]);
            }
        }
    }
}

/// Sorting keeps every page ready.
proof fn lemma_sort_ready(s: Seq<&RenderedPage>)
    requires
        forall|k: int| 0 <= k < s.len() ==> row_ready(*#[trigger] s[k]),
    ensures
        forall|k: int| 0 <= k < sort_pages(s).len() ==> row_ready(*#[trigger] sort_pages(s)[k]),
    decreases s.len(),
{
    if s.len() > 0 {
        let front = s.drop_last();
        assert forall|k: int| 0 <= k < front.len() implies row_ready(*#[trigger] front[k]) by {
            assert(front[k] == s[k]);
        }
        lemma_sort_ready(front);
        lemma_insert_ready(sort_pages(front), s.last());
    }
}

/// The pages of a component version are among the given pages.
proof fn lemma_pages_of_ready(covered: Seq<&RenderedPage>, c: Component)
    requires
        forall|k: int| 0 <= k < covered.len() ==> row_ready(*#[trigger] covered[k]),
    ensures
        forall|k: int| 0 <= k < pages_of(covered, c).len() ==> row_ready(*#[trigger] pages_of(covered, c)[k]),
    decreases covered.len(),
{
    if covered.len() > 0 {
        let front = covered.drop_last();
        assert forall|k: int| 0 <= k < front.len() implies row_ready(*#[trigger] front[k]) by {
            assert(front[k] == covered[k]);
        }
        lemma_pages_of_ready(front, c);
        let r = pages_of(covered, c);
        let f = pages_of(front, c);
        assert forall|k: int| 0 <= k < r.len() implies row_ready(*#[trigger] r[k]) by {
            if k < f.len() {
                assert(r[k] == f[k]);
            } else {
                assert(r[k] == covered[covered.len() - 1]);
            }
        }
    }
}

/// Two tallies with the same count for every state are the same.
proof fn lemma_counts_eq(a: StateCounts, b: StateCounts)
    requires
        forall|s: BlockState| #[trigger] count_of(a, s) == count_of(b, s),
    ensures
        a == b,
{
    assert(count_of(a, BlockState::Verified) == count_of(b, BlockState::Verified));
    assert(count_of(a, BlockState::Planned) == count_of(b, BlockState::Planned));
    assert(count_of(a, BlockState::Uncovered) == count_of(b, BlockState::Uncovered));
    assert(count_of(a, BlockState::Unclassified) == count_of(b, BlockState::Unclassified));
    assert(count_of(a, BlockState::OutOfScope) == count_of(b, BlockState::OutOfScope));
    assert(count_of(a, BlockState::NonNormative) == count_of(b, BlockState::NonNormative));
}

/// The total's counts are the sums, when they fit.
proof fn lemma_total_of_counts(comps: Seq<Component>, covered: Seq<&RenderedPage>)
    requires
        forall|s: BlockState| #[trigger] total_state(comps, covered, s) <= usize::MAX,
    ensures
        forall|s: BlockState| #[trigger] count_of(total_of(comps, covered), s) == total_state(comps, covered, s),
{
    assert forall|s: BlockState| #[trigger] count_of(total_of(comps, covered), s) == total_state(comps, covered, s) by {
        lemma_total_nonneg(comps, covered, s);
        assert(total_state(comps, covered, s) <= usize::MAX);
    }
}

/// Appends one component version's subtotal row and page rows.
#[verifier::spinoff_prover]
fn push_component_rows(out: &mut String, c: &Component, pages: &Vec<&RenderedPage>, subtotal: &StateCounts)
    requires
        pages@.len() > 0,
        *subtotal == sum_of(pages@),
        cells_fit(*subtotal),
        forall|k: int| 0 <= k < pages@.len() ==> row_ready(*#[trigger] pages@[k]),
    ensures
        final(out)@ == old(out)@ + "<tr class=\"component\"><td>"@ + escaped(component_label(c.desc)) + "</td>"@
            + dashboard_cells_text(sum_of(pages@)) + "</tr>\n"@ + page_rows(sort_pages(pages@)),
{
    push_str(out, "<tr class=\"component\"><td>");
    let label = component_label_exec(&c.desc);
    let lc = chars_of(label.as_str());
    push_escaped(out, lc.as_slice());
    push_str(out, "</td>");
    let cells = dashboard_cells(subtotal);
    push_str(out, cells.as_str());
    push_str(out, "</tr>\n");
    proof {
        assert forall|k: int| 0 <= k < pages@.len() implies measured(*#[trigger] pages@[k]) by {
            assert(row_ready(*pages@[k]));
        }
    }
    let sorted = sort_pages_exec(pages);
    proof {
        lemma_sort_ready(pages@);
        assert forall|k: int| 0 <= k < sorted@.len() implies cells_fit(page_counts(*#[trigger] sorted@[k])) by {
            assert(row_ready(*sorted@[k]));
        }
    }
    push_page_rows(out, &sorted);
}

/// Appends one component version's rows and adds its pages to the total.
#[verifier::spinoff_prover]
#[verifier::rlimit(30)]
fn push_component(out: &mut String, total: &mut StateCounts, covered: &[&RenderedPage], c: &Component)
    requires
        forall|i: int| 0 <= i < covered@.len() ==> row_ready(*#[trigger] covered@[i]),
        forall|s: BlockState| #[trigger] count_of(*old(total), s) + sum_state(pages_of(covered@, *c), s) <= usize::MAX,
        cells_fit(sum_of(pages_of(covered@, *c))),
    ensures
        final(out)@ == old(out)@ + component_rows(*c, covered@),
        forall|s: BlockState| #[trigger] count_of(*final(total), s) == count_of(*old(total), s) + sum_state(pages_of(covered@, *c), s),
{
    let pages = component_pages(covered, c);
    proof {
        lemma_pages_of_ready(covered@, *c);
        assert forall|s: BlockState| #[trigger] sum_state(pages@, s) <= usize::MAX by {
            lemma_sum_nonneg(pages@, s);
            assert(count_of(*old(total), s) + sum_state(pages_of(covered@, *c), s) <= usize::MAX);
        }
    }
    if pages.len() > 0 {
        let subtotal = sum_pages(&pages);
        total.add_counts(&subtotal);
        push_component_rows(out, c, &pages, &subtotal);
    } else {
        proof {
            assert forall|s: BlockState| #[trigger] sum_state(pages@, s) == 0 by {}
        }
    }
}

/// One more component version adds its rows and its pages' counts.
proof fn lemma_step_after(cs: Seq<Component>, covered: Seq<&RenderedPage>, k: int)
    requires
        0 <= k < cs.len(),
    ensures
        components_rows(cs.take(k + 1), covered) == components_rows(cs.take(k), covered) + component_rows(cs[k], covered),
        forall|s: BlockState| #[trigger] total_state(cs.take(k + 1), covered, s)
            == total_state(cs.take(k), covered, s) + sum_state(pages_of(covered, cs[k]), s),
{
    let t = cs.take(k + 1);
    assert(t.drop_last() == cs.take(k));
    assert(t.last() == cs[k]);
}

/// What one more component version needs to fit.
proof fn lemma_step_bounds(cs: Seq<Component>, covered: Seq<&RenderedPage>, k: int, total: StateCounts)
    requires
        0 <= k < cs.len(),
        dashboard_fits(cs, covered),
        forall|s: BlockState| #[trigger] count_of(total, s) == total_state(cs.take(k), covered, s),
    ensures
        forall|s: BlockState| #[trigger] count_of(total, s) + sum_state(pages_of(covered, cs[k]), s) <= usize::MAX,
        cells_fit(sum_of(pages_of(covered, cs[k]))),
{
    reveal(dashboard_fits);
    let ps = pages_of(covered, cs[k]);
    lemma_total_of_counts(cs, covered);
    assert forall|s: BlockState| #[trigger] count_of(total, s) + sum_state(ps, s) <= usize::MAX by {
        lemma_total_bounds(cs, covered, k, s);
        assert(total_state(cs, covered, s) <= usize::MAX);
    }
    assert forall|s: BlockState| #[trigger] count_of(sum_of(ps), s) <= count_of(total_of(cs, covered), s) by {
        lemma_total_bounds(cs, covered, k, s);
        lemma_sum_nonneg(ps, s);
        assert(total_state(cs, covered, s) <= usize::MAX);
    }
    lemma_cells_fit_below(sum_of(ps), total_of(cs, covered));
}

/// The site-wide coverage dashboard page body: per component version in
/// catalog order, a subtotal row and one row per measured page (least
/// verified first, then by URL), and the total of all measured pages.
/// Out-of-scope counts stand beside every bar; unclassified counts are
/// called out as the review queue.
#[verifier::spinoff_prover]
#[verifier::rlimit(30)]
pub fn coverage_dashboard(covered: &[&RenderedPage], catalog: &ContentCatalog) -> (r: String)
    requires
        dashboard_fits(catalog.component_seq(), covered@),
    ensures
        r@ == dashboard_text(catalog.component_seq(), covered@),
{
    let comps = catalog.components();
    let ghost cs = comps@;
    let mut out = owned("<div class=\"coverage-dashboard\">\n<p>Each block of a measured page is <span class=\"cov-verified\">verified</span> (a test claims it), <span class=\"cov-planned\">planned</span> (a tracked gap), <span class=\"cov-uncovered\">uncovered</span> (normative, unclaimed), or <span class=\"cov-unclassified\">unclassified</span> (nobody has decided yet — the review queue). Out-of-scope and non-normative blocks leave the denominator; out-of-scope counts stay visible beside every bar.</p>\n<p class=\"cov-legend\"><span class=\"verified\">verified</span><span class=\"planned\">planned</span><span class=\"uncovered\">uncovered</span><span class=\"unclassified\">unclassified</span></p>\n<table>\n<thead><tr><th>Page</th><th>Coverage</th><th>Verified</th><th>Planned</th><th>Uncovered</th><th>Unclassified</th><th>Out of scope</th><th>Non-normative</th></tr></thead>\n<tbody>\n");
    let mut total = StateCounts { verified: 0, planned: 0, uncovered: 0, unclassified: 0, out_of_scope: 0, non_normative: 0 };
    proof {
        reveal(dashboard_fits);
        assert(cs.take(0) == Seq::<Component>::empty());
        assert forall|k: int| 0 <= k < covered@.len() implies row_ready(*#[trigger] covered@[k]) by {
            assert(measured(*covered@[k]) && cells_fit(page_counts(*covered@[k])));
        }
    }
    let mut k: usize = 0;
    while k < comps.len()
        invariant
            k <= comps@.len(),
            comps@ == cs,
            cs == catalog.component_seq(),
            dashboard_fits(cs, covered@),
            forall|i: int| 0 <= i < covered@.len() ==> row_ready(*#[trigger] covered@[i]),
            out@ == dashboard_head() + components_rows(cs.take(k as int), covered@),
            forall|s: BlockState| #[trigger] count_of(total, s) == total_state(cs.take(k as int), covered@, s),
        decreases comps@.len() - k,
    {
        proof {
            lemma_step_bounds(cs, covered@, k as int, total);
        }
        push_component(&mut out, &mut total, covered, &comps[k]);
        proof {
            lemma_step_after(cs, covered@, k as int);
        }
        k += 1;
    }
    proof {
        assert(cs.take(cs.len() as int) == cs);
        reveal(dashboard_fits);
        lemma_total_of_counts(cs, covered@);
        lemma_counts_eq(total, total_of(cs, covered@));
    }
    push_str(&mut out, "</tbody>\n<tfoot><tr><td>All measured pages</td>");
    let cells = dashboard_cells(&total);
    push_str(&mut out, cells.as_str());
    push_str(&mut out, "</tr></tfoot>\n</table>\n</div>\n");
    out
}

// ---------------------------------------------------------------------
// The dashboard order
// ---------------------------------------------------------------------

/// Text order is asymmetric.
proof fn lemma_text_asym(a: Seq<char>, b: Seq<char>)
    ensures
        !(text_before(a, b) && text_before(b, a)),
    decreases a.len(),
{
    if a.len() > 0 && b.len() > 0 && a[0] == b[0] {
        lemma_text_asym(a.drop_first(), b.drop_first());
    }
}

/// Two texts are equal or one sorts before the other.
proof fn lemma_text_total(a: Seq<char>, b: Seq<char>)
    ensures
        a == b || text_before(a, b) || text_before(b, a),
    decreases a.len(),
{
    if a.len() > 0 && b.len() > 0 && a[0] == b[0] {
        lemma_text_total(a.drop_first(), b.drop_first());
        if a.drop_first() == b.drop_first() {
            assert(a == seq![a[0]] + a.drop_first());
            assert(b == seq![b[0]] + b.drop_first());
        }
    } else if a.len() > 0 && b.len() > 0 {
    } else if a.len() == 0 && b.len() == 0 {
        assert(a == b);
    }
}

/// Text order is transitive.
proof fn lemma_text_trans(a: Seq<char>, b: Seq<char>, c: Seq<char>)
    requires
        text_before(a, b),
        text_before(b, c),
    ensures
        text_before(a, c),
    decreases a.len(),
{
    if a.len() > 0 && a[0] == b[0] && b[0] == c[0] {
        lemma_text_trans(a.drop_first(), b.drop_first(), c.drop_first());
    }
}

/// Of two pages, one may stand before the other.
proof fn lemma_stands_total(a: RenderedPage, b: RenderedPage)
    ensures
        stands_before(a, b) || stands_before(b, a),
{
    lemma_text_asym(a.url@, b.url@);
}

/// Standing before is transitive.
proof fn lemma_stands_trans(a: RenderedPage, b: RenderedPage, c: RenderedPage)
    requires
        stands_before(a, b),
        stands_before(b, c),
    ensures
        stands_before(a, c),
{
    if percent_of(page_counts(a)) == percent_of(page_counts(c)) {
        if text_before(c.url@, a.url@) {
            lemma_text_total(b.url@, a.url@);
            lemma_text_total(c.url@, b.url@);
            if c.url@ != b.url@ {
                if b.url@ == a.url@ {
                } else {
                    lemma_text_trans(c.url@, a.url@, b.url@);
                }
            }
        }
    }
}

/// Whether a run of pages stands in dashboard order.
pub open spec fn ordered(s: Seq<&RenderedPage>) -> bool {
    forall|i: int, j: int| 0 <= i < j < s.len() ==> stands_before(*#[trigger] s[i], *#[trigger] s[j])
}

/// Inserting adds exactly the inserted page.
proof fn lemma_insert_multiset<'a>(s: Seq<&'a RenderedPage>, x: &'a RenderedPage)
    ensures
        insert_page(s, x).to_multiset() =~= s.to_multiset().insert(x),
    decreases s.len(),
{
    broadcast use vstd::seq_lib::to_multiset_build;
    if s.len() > 0 && !stands_before(*s.last(), *x) {
        let front = s.drop_last();
        let last = s.last();
        lemma_insert_multiset(front, x);
        assert(s == front.push(last));
        let f = insert_page(front, x);
        assert(insert_page(s, x) == f.push(last));
        assert(f.push(last).to_multiset() =~= f.to_multiset().insert(last));
        assert(front.push(last).to_multiset() =~= front.to_multiset().insert(last));
        assert(insert_page(s, x).to_multiset() =~= s.to_multiset().insert(x));
    } else if s.len() == 0 {
        assert(seq![x] == Seq::<&RenderedPage>::empty().push(x));
        assert(Seq::<&RenderedPage>::empty().push(x).to_multiset() =~= Seq::<&RenderedPage>::empty().to_multiset().insert(x));
        assert(insert_page(s, x) == seq![x]);
        assert(s == Seq::<&RenderedPage>::empty());
    } else {
        assert(insert_page(s, x) == s.push(x));
        assert(s.push(x).to_multiset() =~= s.to_multiset().insert(x));
    }
}

/// Inserting into an ordered run keeps it ordered.
proof fn lemma_insert_ordered<'a>(s: Seq<&'a RenderedPage>, x: &'a RenderedPage)
    requires
        ordered(s),
    ensures
        ordered(insert_page(s, x)),
    decreases s.len(),
{
    broadcast use vstd::seq_lib::to_multiset_contains;
    if s.len() == 0 {
    } else if stands_before(*s.last(), *x) {
        let r = s.push(x);
        assert forall|i: int, j: int| 0 <= i < j < r.len() implies stands_before(*#[trigger] r[i], *#[trigger] r[j]) by {
            if j == r.len() - 1 && i < s.len() - 1 {
                lemma_stands_trans(*s[i], *s.last(), *x);
            }
        }
    } else {
        let front = s.drop_last();
        let last = s.last();
        assert forall|i: int, j: int| 0 <= i < j < front.len() implies stands_before(*#[trigger] front[i], *#[trigger] front[j]) by {
            assert(front[i] == s[i] && front[j] == s[j]);
        }
        lemma_insert_ordered(front, x);
        lemma_insert_multiset(front, x);
        let f = insert_page(front, x);
        let r = f.push(last);
        lemma_stands_total(*last, *x);
        assert forall|i: int| 0 <= i < f.len() implies stands_before(*#[trigger] f[i], *last) by {
            let y = f[i];
            assert(f.contains(y));
            assert(f.to_multiset().count(y) > 0);
            if y != x {
                assert(front.to_multiset().count(y) > 0);
                assert(front.contains(y));
                let k = choose|k: int| 0 <= k < front.len() && front[k] == y;
                assert(s[k] == y);
                assert(stands_before(*s[k], *s[s.len() - 1]));
            }
        }
        assert forall|i: int, j: int| 0 <= i < j < r.len() implies stands_before(*#[trigger] r[i], *#[trigger] r[j]) by {
            if j == r.len() - 1 {
                assert(r[i] == f[i]);
            } else {
                assert(r[i] == f[i] && r[j] == f[j]);
            }
        }
    }
}

/// The dashboard lists a component version's pages least verified first,
/// pages with equal percentages by URL: the order is a rearrangement of
/// the pages, and each page may stand before every page after it.
pub proof fn law_dashboard_order(s: Seq<&RenderedPage>)
    ensures
        ordered(sort_pages(s)),
        sort_pages(s).to_multiset() =~= s.to_multiset(),
    decreases s.len(),
{
    broadcast use vstd::seq_lib::to_multiset_build;
    if s.len() > 0 {
        let front = s.drop_last();
        law_dashboard_order(front);
        lemma_insert_ordered(sort_pages(front), s.last());
        lemma_insert_multiset(sort_pages(front), s.last());
        assert(s == front.push(s.last()));
        assert(front.push(s.last()).to_multiset() =~= front.to_multiset().insert(s.last()));
        assert(sort_pages(s) == insert_page(sort_pages(front), s.last()));
    } else {
        assert(sort_pages(s) == s);
    }
}

} // verus!

