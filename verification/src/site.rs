//! Site-level pages and links: claim click-through URLs, repository path
//! joining, the per-page badge views, the coverage dashboard's rows and
//! the what-changed index.

use vstd::prelude::*;
use crate::coverage::model::{counts_fit, denominator_of, percent_of, Claim, PageCoverage, StateCounts};
use crate::model::resource::{relative_url, relative_url_spec};
use crate::render::{PageDiff, RenderedPage};
use crate::text::{chars_of, dec, occurs_at, owned, push_str, string_of};
use crate::theme::{escaped, level_of, push_escaped, CoverageView, DiffView};

verus! {

/// The site-root-relative URL of the coverage dashboard page.
pub open spec fn dashboard_url() -> Seq<char> {
    "coverage.html"@
}

/// The site-root-relative URL of the what-changed index page.
pub open spec fn changes_url() -> Seq<char> {
    "whats-changed.html"@
}

// ---------------------------------------------------------------------
// Repository paths and links
// ---------------------------------------------------------------------

/// `s` without leading `/`s.
pub open spec fn trim_lead_slash(s: Seq<char>) -> Seq<char>
    decreases s.len(),
{
    if s.len() > 0 && s[0] == '/' {
        trim_lead_slash(s.drop_first())
    } else {
        s
    }
}

/// `s` without trailing `/`s.
pub open spec fn trim_trail_slash(s: Seq<char>) -> Seq<char>
    decreases s.len(),
{
    if s.len() > 0 && s.last() == '/' {
        trim_trail_slash(s.drop_last())
    } else {
        s
    }
}

/// A repository path under a prefix: the prefix without surrounding
/// slashes, `/`, and the relative path; the relative path alone under an
/// empty prefix.
pub open spec fn joined_repo_path(prefix: Seq<char>, rel: Seq<char>) -> Seq<char> {
    let p = trim_trail_slash(trim_lead_slash(prefix));
    if p.len() == 0 {
        rel
    } else {
        p + "/"@ + rel
    }
}

/// Characters without leading and trailing slashes.
pub fn trim_slashes(s: &[char]) -> (r: Vec<char>)
    ensures
        r@ == trim_trail_slash(trim_lead_slash(s@)),
{
    let mut a: usize = 0;
    assert(s@.skip(0) == s@);
    while a < s.len() && s[a] == '/'
        invariant
            a <= s.len(),
            trim_lead_slash(s@) == trim_lead_slash(s@.skip(a as int)),
        decreases s.len() - a,
    {
        assert(s@.skip(a as int).drop_first() == s@.skip(a + 1));
        a += 1;
    }
    let mut b: usize = s.len();
    let ghost lead = s@.skip(a as int);
    assert(s@.subrange(a as int, b as int) == lead);
    while b > a && s[b - 1] == '/'
        invariant
            a <= b <= s.len(),
            lead == s@.skip(a as int),
            trim_trail_slash(lead) == trim_trail_slash(s@.subrange(a as int, b as int)),
        decreases b,
    {
        assert(s@.subrange(a as int, b as int).drop_last() == s@.subrange(a as int, b - 1));
        b -= 1;
    }
    crate::text::slice_vec(s, a, b)
}

/// Joins a repository prefix and a path relative to it.
pub fn join_repo_path(prefix: &str, rel: &str) -> (r: String)
    ensures
        r@ == joined_repo_path(prefix@, rel@),
{
    let p = chars_of(prefix);
    let t = trim_slashes(p.as_slice());
    if t.len() == 0 {
        owned(rel)
    } else {
        let mut out = string_of(t.as_slice());
        push_str(&mut out, "/");
        push_str(&mut out, rel);
        out
    }
}

/// `s` without a prefix `p`, when it starts with it.
pub open spec fn strip_prefix(s: Seq<char>, p: Seq<char>) -> Option<Seq<char>> {
    if p.len() <= s.len() && s.take(p.len() as int) == p {
        Some(s.skip(p.len() as int))
    } else {
        None
    }
}

/// `s` with every trailing repetition of `p` removed.
pub open spec fn trim_end_all(s: Seq<char>, p: Seq<char>) -> Seq<char>
    decreases s.len(),
{
    if p.len() > 0 && p.len() <= s.len() && s.skip(s.len() - p.len()) == p {
        trim_end_all(s.take(s.len() - p.len()), p)
    } else {
        s
    }
}

/// The number of `/` in a text.
pub open spec fn slash_count(s: Seq<char>) -> nat
    decreases s.len(),
{
    if s.len() == 0 {
        0
    } else {
        slash_count(s.drop_last()) + if s.last() == '/' { 1nat } else { 0nat }
    }
}

/// The `owner/name` slug of a GitHub repository URL (HTTPS or SSH): the
/// URL after its GitHub prefix, trailing slashes and `.git` removed, when
/// that is exactly two segments.
pub open spec fn slug_of(repo: Seq<char>) -> Option<Seq<char>> {
    let rest = match strip_prefix(repo, "https://github.com/"@) {
        Some(r) => Some(r),
        None => match strip_prefix(repo, "http://github.com/"@) {
            Some(r) => Some(r),
            None => match strip_prefix(repo, "git@github.com:"@) {
                Some(r) => Some(r),
                None => strip_prefix(repo, "ssh://git@github.com/"@),
            },
        },
    };
    match rest {
        None => None,
        Some(r) => {
            let slug = trim_end_all(trim_end_all(r, "/"@), ".git"@);
            if slash_count(slug) == 1 {
                Some(slug)
            } else {
                None
            }
        },
    }
}

fn strip_prefix_exec(s: &[char], p: &str) -> (r: Option<Vec<char>>)
    ensures
        match r {
            Some(v) => strip_prefix(s@, p@) == Some(v@),
            None => strip_prefix(s@, p@) is None,
        },
{
    let pc = chars_of(p);
    if crate::text::starts_with_chars(s, pc.as_slice()) {
        Some(crate::text::slice_vec(s, pc.len(), s.len()))
    } else {
        None
    }
}

fn trim_end_all_exec(s: &[char], p: &str) -> (r: Vec<char>)
    ensures
        r@ == trim_end_all(s@, p@),
{
    let pc = chars_of(p);
    let mut end: usize = s.len();
    assert(s@.take(end as int) == s@);
    while pc.len() > 0 && pc.len() <= end && crate::text::matches_at(s, pc.as_slice(), end - pc.len())
        invariant
            end <= s.len(),
            pc@ == p@,
            trim_end_all(s@, p@) == trim_end_all(s@.take(end as int), p@),
        decreases end,
    {
        assert(s@.take(end as int).skip(end - pc@.len()) =~= s@.subrange(end - pc@.len(), end as int));
        assert(s@.take(end as int).take(end - pc@.len()) == s@.take(end - pc@.len()));
        end = end - pc.len();
    }
    if pc.len() > 0 && pc.len() <= end {
        assert(s@.take(end as int).skip(end - pc@.len()) =~= s@.subrange(end - pc@.len(), end as int));
    }
    assert(!(pc@.len() > 0 && pc@.len() <= end && s@.take(end as int).skip(end - pc@.len()) == pc@));
    crate::text::slice_vec(s, 0, end)
}

fn count_slashes(s: &[char]) -> (n: usize)
    ensures
        n == slash_count(s@),
{
    let mut n: usize = 0;
    let mut i: usize = 0;
    while i < s.len()
        invariant
            i <= s.len(),
            n <= i,
            n == slash_count(s@.take(i as int)),
        decreases s.len() - i,
    {
        assert(s@.take(i + 1).drop_last() == s@.take(i as int));
        if s[i] == '/' {
            n += 1;
        }
        i += 1;
    }
    assert(s@.take(s.len() as int) == s@);
    n
}

/// The `owner/name` slug of a GitHub repository URL (HTTPS or SSH).
pub fn github_slug(repo: &str) -> (r: Option<String>)
    ensures
        match r {
            Some(s) => slug_of(repo@) == Some(s@),
            None => slug_of(repo@) is None,
        },
{
    let rc = chars_of(repo);
    let rest = match strip_prefix_exec(rc.as_slice(), "https://github.com/") {
        Some(r) => Some(r),
        None => match strip_prefix_exec(rc.as_slice(), "http://github.com/") {
            Some(r) => Some(r),
            None => match strip_prefix_exec(rc.as_slice(), "git@github.com:") {
                Some(r) => Some(r),
                None => strip_prefix_exec(rc.as_slice(), "ssh://git@github.com/"),
            },
        },
    };
    match rest {
        None => None,
        Some(r) => {
            let a = trim_end_all_exec(r.as_slice(), "/");
            let slug = trim_end_all_exec(a.as_slice(), ".git");
            if count_slashes(slug.as_slice()) == 1 {
                Some(string_of(slug.as_slice()))
            } else {
                None
            }
        },
    }
}

/// Every non-overlapping occurrence of `from`, left to right, replaced by
/// `to`, as `str::replace` does.
pub open spec fn replaced(s: Seq<char>, from: Seq<char>, to: Seq<char>) -> Seq<char>
    decreases s.len(),
{
    if from.len() == 0 || s.len() == 0 {
        s
    } else if from.len() <= s.len() && s.take(from.len() as int) == from {
        to + replaced(s.skip(from.len() as int), from, to)
    } else {
        seq![s[0]] + replaced(s.skip(1), from, to)
    }
}

proof fn lemma_replaced_step(s: Seq<char>, from: Seq<char>, to: Seq<char>, i: int)
    requires
        0 <= i < s.len(),
        from.len() > 0,
    ensures
        occurs_at(s, from, i) ==> replaced(s.skip(i), from, to) == to + replaced(s.skip(i + from.len()), from, to),
        !occurs_at(s, from, i) ==> replaced(s.skip(i), from, to) == seq![s[i]] + replaced(s.skip(i + 1), from, to),
{
    let rest = s.skip(i);
    if occurs_at(s, from, i) {
        assert(rest.take(from.len() as int) == s.subrange(i, i + from.len()));
        assert(rest.skip(from.len() as int) == s.skip(i + from.len()));
    } else {
        if from.len() <= rest.len() {
            assert(rest.take(from.len() as int) == s.subrange(i, i + from.len()));
        }
        assert(rest.skip(1) == s.skip(i + 1));
    }
}

fn push_all(out: &mut Vec<char>, t: &[char])
    ensures
        final(out)@ == old(out)@ + t@,
{
    let ghost o0 = out@;
    let mut k: usize = 0;
    while k < t.len()
        invariant
            k <= t.len(),
            out@ == o0 + t@.take(k as int),
        decreases t.len() - k,
    {
        out.push(t[k]);
        assert(t@.take(k + 1) == t@.take(k as int).push(t@[k as int]));
        k += 1;
    }
    assert(t@.take(t.len() as int) == t@);
}

/// Replaces every occurrence of a non-empty pattern.
pub fn replace_all(s: &str, from: &str, to: &str) -> (r: String)
    requires
        from@.len() > 0,
    ensures
        r@ == replaced(s@, from@, to@),
{
    let sc = chars_of(s);
    let fc = chars_of(from);
    let tc = chars_of(to);
    let mut out: Vec<char> = Vec::new();
    let mut i: usize = 0;
    assert(sc@.skip(0) == sc@);
    while i < sc.len()
        invariant
            i <= sc.len(),
            fc@ == from@,
            tc@ == to@,
            fc@.len() > 0,
            sc@ == s@,
            replaced(s@, from@, to@) == out@ + replaced(sc@.skip(i as int), from@, to@),
        decreases sc.len() - i,
    {
        proof {
            lemma_replaced_step(sc@, fc@, tc@, i as int);
        }
        let ghost o0 = out@;
        if crate::text::matches_at(sc.as_slice(), fc.as_slice(), i) {
            push_all(&mut out, tc.as_slice());
            let ghost r2 = replaced(sc@.skip(i + fc@.len()), from@, to@);
            assert(o0 + (tc@ + r2) =~= out@ + r2);
            i = i + fc.len();
        } else {
            out.push(sc[i]);
            let ghost r2 = replaced(sc@.skip(i + 1), from@, to@);
            assert(o0 + (seq![sc@[i as int]] + r2) =~= out@ + r2);
            i += 1;
        }
    }
    assert(sc@.skip(i as int).len() == 0);
    string_of(out.as_slice())
}

/// The click-through URL of a claim: the link template with `{repo}`
/// (the GitHub slug, else the repository), `{repo_url}`, `{rev}`,
/// `{path}` and `{line}` substituted in that order, else the GitHub blob
/// URL when the claim's repository is on GitHub; `None` without a
/// repository and revision, or when neither applies.
pub open spec fn claim_url_spec(claim: Claim, template: Option<Seq<char>>) -> Option<Seq<char>> {
    claim_url_at_spec(claim, claim.site.line, template)
}

/// The click-through URL of line `at` of a claim's file, at the claim's
/// repository and revision.
pub open spec fn claim_url_at_spec(claim: Claim, at: u32, template: Option<Seq<char>>) -> Option<Seq<char>> {
    match (claim.site.repo, claim.site.rev) {
        (Some(repo), Some(rev)) => {
            let slug = slug_of(repo@);
            let line = dec(at as nat);
            match template {
                Some(t) => Some(
                    replaced(
                        replaced(
                            replaced(
                                replaced(
                                    replaced(
                                        t,
                                        "{repo}"@,
                                        match slug {
                                            Some(s) => s,
                                            None => repo@,
                                        },
                                    ),
                                    "{repo_url}"@,
                                    repo@,
                                ),
                                "{rev}"@,
                                rev@,
                            ),
                            "{path}"@,
                            claim.site.file@,
                        ),
                        "{line}"@,
                        line,
                    ),
                ),
                None => match slug {
                    Some(s) => Some(
                        "https://github.com/"@ + s + "/blob/"@ + rev@ + "/"@ + claim.site.file@ + "#L"@ + line,
                    ),
                    None => None,
                },
            }
        },
        _ => None,
    }
}

/// The click-through URL of a claim.
pub fn claim_url(claim: &Claim, template: Option<&str>) -> (r: Option<String>)
    ensures
        match r {
            Some(u) => claim_url_spec(*claim, match template {
                Some(t) => Some(t@),
                None => None,
            }) == Some(u@),
            None => claim_url_spec(*claim, match template {
                Some(t) => Some(t@),
                None => None,
            }) is None,
        },
{
    claim_url_at(claim, claim.site.line, template)
}

/// The click-through URL of line `at` of a claim's file.
pub fn claim_url_at(claim: &Claim, at: u32, template: Option<&str>) -> (r: Option<String>)
    ensures
        match r {
            Some(u) => claim_url_at_spec(*claim, at, match template {
                Some(t) => Some(t@),
                None => None,
            }) == Some(u@),
            None => claim_url_at_spec(*claim, at, match template {
                Some(t) => Some(t@),
                None => None,
            }) is None,
        },
{
    let repo = match &claim.site.repo {
        Some(r) => r.as_str(),
        None => return None,
    };
    let rev = match &claim.site.rev {
        Some(r) => r.as_str(),
        None => return None,
    };
    let slug = github_slug(repo);
    let line = crate::text::dec_string(at as u64);
    match template {
        Some(t) => {
            proof {
                reveal_strlit("{repo}");
                reveal_strlit("{repo_url}");
                reveal_strlit("{rev}");
                reveal_strlit("{path}");
                reveal_strlit("{line}");
            }
            let who = match &slug {
                Some(s) => s.as_str(),
                None => repo,
            };
            let a = replace_all(t, "{repo}", who);
            let b = replace_all(a.as_str(), "{repo_url}", repo);
            let c = replace_all(b.as_str(), "{rev}", rev);
            let d = replace_all(c.as_str(), "{path}", claim.site.file.as_str());
            let e = replace_all(d.as_str(), "{line}", line.as_str());
            Some(e)
        },
        None => match slug {
            Some(s) => {
                let mut out = owned("https://github.com/");
                push_str(&mut out, s.as_str());
                push_str(&mut out, "/blob/");
                push_str(&mut out, rev);
                push_str(&mut out, "/");
                push_str(&mut out, claim.site.file.as_str());
                push_str(&mut out, "#L");
                push_str(&mut out, line.as_str());
                Some(out)
            },
            None => None,
        },
    }
}

// ---------------------------------------------------------------------
// Badge views
// ---------------------------------------------------------------------

/// One page's coverage presentation (the rollup numbers for the badge).
pub fn coverage_view(coverage: &PageCoverage) -> (r: CoverageView)
    requires
        counts_fit(coverage.counts),
    ensures
        r.percent == percent_of(coverage.counts),
        r.verified == coverage.counts.verified,
        r.planned == coverage.counts.planned,
        r.uncovered == coverage.counts.uncovered,
        r.unclassified == coverage.counts.unclassified,
        r.out_of_scope == coverage.counts.out_of_scope,
        r.non_normative == coverage.counts.non_normative,
        r.dashboard_url@ == dashboard_url(),
{
    CoverageView {
        percent: coverage.counts.percent_verified(),
        verified: coverage.counts.verified,
        planned: coverage.counts.planned,
        uncovered: coverage.counts.uncovered,
        unclassified: coverage.counts.unclassified,
        out_of_scope: coverage.counts.out_of_scope,
        non_normative: coverage.counts.non_normative,
        dashboard_url: owned("coverage.html"),
    }
}

/// Whether a page diff records any change.
pub open spec fn diff_changed(d: PageDiff) -> bool {
    d.new_page || d.added + d.removed + d.edited > 0
}

/// One page's diff presentation, when the page changed against its base.
pub fn diff_view(page: &RenderedPage) -> (r: Option<DiffView>)
    ensures
        match page.diff {
            Some(d) => if diff_changed(d) {
                r matches Some(v) && v.base_label@ == d.base_label@ && v.new_page == d.new_page && v.added == d.added
                    && v.removed == d.removed && v.edited == d.edited && v.changes_url@ == changes_url()
            } else {
                r is None
            },
            None => r is None,
        },
{
    match &page.diff {
        Some(d) => {
            if d.is_changed() {
                Some(
                    DiffView {
                        base_label: d.base_label.clone(),
                        new_page: d.new_page,
                        added: d.added,
                        removed: d.removed,
                        edited: d.edited,
                        changes_url: owned("whats-changed.html"),
                    },
                )
            } else {
                None
            }
        },
        None => None,
    }
}

// ---------------------------------------------------------------------
// Dashboard cells
// ---------------------------------------------------------------------

/// The bar width of one count: its share of the denominator in whole
/// percent, `0` for an empty denominator.
pub open spec fn width_text(n: usize, d: int) -> Seq<char> {
    if d == 0 {
        "0"@
    } else {
        dec(((n * 100) / d) as nat)
    }
}

/// The dashboard cells of one row: the stacked bar with the percentage,
/// then the four counts of the bar, out-of-scope and non-normative.
pub open spec fn dashboard_cells_text(c: StateCounts) -> Seq<char> {
    let d = denominator_of(c);
    let percent = percent_of(c);
    "<td class=\"state\"><span class=\"cov-"@ + level_of(percent as u32) + "\">"@ + dec(percent as nat)
        + "%</span> <span class=\"cov-bar\" title=\""@ + dec(c.verified as nat) + " verified, "@ + dec(
        c.planned as nat,
    ) + " planned, "@ + dec(c.uncovered as nat) + " uncovered, "@ + dec(c.unclassified as nat)
        + " unclassified of "@ + dec(d as nat) + "\"><span class=\"verified\" style=\"width:"@ + width_text(
        c.verified,
        d,
    ) + "%\"></span><span class=\"planned\" style=\"width:"@ + width_text(c.planned, d)
        + "%\"></span><span class=\"uncovered\" style=\"width:"@ + width_text(c.uncovered, d)
        + "%\"></span><span class=\"unclassified\" style=\"width:"@ + width_text(c.unclassified, d)
        + "%\"></span></span></td><td class=\"num\">"@ + dec(c.verified as nat) + "</td><td class=\"num\">"@
        + dec(c.planned as nat) + "</td><td class=\"num\">"@ + dec(c.uncovered as nat)
        + "</td><td class=\"num\">"@ + (if c.unclassified > 0 {
        "<span class=\"review-queue\">"@ + dec(c.unclassified as nat) + "</span>"@
    } else {
        "0"@
    }) + "</td><td class=\"num\">"@ + dec(c.out_of_scope as nat) + "</td><td class=\"num\">"@ + dec(
        c.non_normative as nat,
    ) + "</td>"@
}

/// Whether every count of a row and its bar arithmetic fit in `usize`.
pub open spec fn cells_fit(c: StateCounts) -> bool {
    &&& counts_fit(c)
    &&& c.planned * 100 <= usize::MAX
    &&& c.uncovered * 100 <= usize::MAX
    &&& c.unclassified * 100 <= usize::MAX
}

fn push_width(out: &mut String, n: usize, d: usize)
    requires
        n * 100 <= usize::MAX,
    ensures
        final(out)@ == old(out)@ + width_text(n, d as int),
{
    if d == 0 {
        push_str(out, "0");
    } else {
        let w = n * 100 / d;
        let s = crate::text::dec_string(w as u64);
        push_str(out, s.as_str());
    }
}

fn push_count(out: &mut String, n: usize)
    ensures
        final(out)@ == old(out)@ + dec(n as nat),
{
    let s = crate::text::dec_string(n as u64);
    push_str(out, s.as_str());
}

/// The dashboard cells of one row: the stacked bar with the percentage,
/// then the five counts plus non-normative.
pub fn dashboard_cells(counts: &StateCounts) -> (r: String)
    requires
        cells_fit(*counts),
    ensures
        r@ == dashboard_cells_text(*counts),
{
    let d = counts.denominator();
    let percent = counts.percent_verified();
    let mut out = owned("<td class=\"state\"><span class=\"cov-");
    push_str(&mut out, crate::theme::coverage_level(percent));
    push_str(&mut out, "\">");
    push_count(&mut out, percent as usize);
    push_str(&mut out, "%</span> <span class=\"cov-bar\" title=\"");
    push_count(&mut out, counts.verified);
    push_str(&mut out, " verified, ");
    push_count(&mut out, counts.planned);
    push_str(&mut out, " planned, ");
    push_count(&mut out, counts.uncovered);
    push_str(&mut out, " uncovered, ");
    push_count(&mut out, counts.unclassified);
    push_str(&mut out, " unclassified of ");
    push_count(&mut out, d);
    push_str(&mut out, "\"><span class=\"verified\" style=\"width:");
    push_width(&mut out, counts.verified, d);
    push_str(&mut out, "%\"></span><span class=\"planned\" style=\"width:");
    push_width(&mut out, counts.planned, d);
    push_str(&mut out, "%\"></span><span class=\"uncovered\" style=\"width:");
    push_width(&mut out, counts.uncovered, d);
    push_str(&mut out, "%\"></span><span class=\"unclassified\" style=\"width:");
    push_width(&mut out, counts.unclassified, d);
    push_str(&mut out, "%\"></span></span></td><td class=\"num\">");
    push_count(&mut out, counts.verified);
    push_str(&mut out, "</td><td class=\"num\">");
    push_count(&mut out, counts.planned);
    push_str(&mut out, "</td><td class=\"num\">");
    push_count(&mut out, counts.uncovered);
    push_str(&mut out, "</td><td class=\"num\">");
    if counts.unclassified > 0 {
        push_str(&mut out, "<span class=\"review-queue\">");
        push_count(&mut out, counts.unclassified);
        push_str(&mut out, "</span>");
    } else {
        push_str(&mut out, "0");
    }
    push_str(&mut out, "</td><td class=\"num\">");
    push_count(&mut out, counts.out_of_scope);
    push_str(&mut out, "</td><td class=\"num\">");
    push_count(&mut out, counts.non_normative);
    push_str(&mut out, "</td>");
    out
}

// ---------------------------------------------------------------------
// The what-changed index
// ---------------------------------------------------------------------

/// The head of the what-changed index.
pub open spec fn changes_head() -> Seq<char> {
    "<div class=\"changes-index\">\n<p>Pages that differ from their comparison base (the previous component version, or the base ref in PR-preview mode).</p>\n<table>\n<thead><tr><th>Page</th><th>Compared to</th><th>Added</th><th>Edited</th><th>Removed</th></tr></thead>\n<tbody>\n"@
}

/// One changed page's row: linked title and URL, base, and the counts
/// (or `new page`).
pub open spec fn change_row(page: RenderedPage, d: PageDiff) -> Seq<char> {
    let label = match page.title_text {
        Some(t) => t@,
        None => page.url@,
    };
    let counts = if d.new_page {
        "<td colspan=\"3\"><span class=\"new-page\">new page</span></td>"@
    } else {
        "<td class=\"num\">"@ + dec(d.added as nat) + "</td><td class=\"num\">"@ + dec(d.edited as nat)
            + "</td><td class=\"num\">"@ + dec(d.removed as nat) + "</td>"@
    };
    "<tr><td><a href=\""@ + escaped(relative_url_spec(changes_url(), page.url@)) + "\">"@ + escaped(label)
        + "</a> <span class=\"page-url\">"@ + escaped(page.url@) + "</span></td><td>"@ + escaped(d.base_label@)
        + "</td>"@ + counts + "</tr>\n"@
}

/// The rows of the changed pages, in order.
pub open spec fn change_rows(pages: Seq<&RenderedPage>) -> Seq<char>
    decreases pages.len(),
{
    if pages.len() == 0 {
        Seq::empty()
    } else {
        change_rows(pages.drop_last()) + match pages.last().diff {
            Some(d) => change_row(*pages.last(), d),
            None => Seq::empty(),
        }
    }
}

#[verifier::spinoff_prover]
#[verifier::rlimit(40)]
fn push_change_row(out: &mut String, page: &RenderedPage, d: &PageDiff)
    ensures
        final(out)@ == old(out)@ + change_row(*page, *d),
{
    push_str(out, "<tr><td><a href=\"");
    let href = relative_url("whats-changed.html", page.url.as_str());
    let hc = chars_of(href.as_str());
    push_escaped(out, hc.as_slice());
    push_str(out, "\">");
    let label = match &page.title_text {
        Some(t) => chars_of(t.as_str()),
        None => chars_of(page.url.as_str()),
    };
    push_escaped(out, label.as_slice());
    push_str(out, "</a> <span class=\"page-url\">");
    let uc = chars_of(page.url.as_str());
    push_escaped(out, uc.as_slice());
    push_str(out, "</span></td><td>");
    let bc = chars_of(d.base_label.as_str());
    push_escaped(out, bc.as_slice());
    push_str(out, "</td>");
    if d.new_page {
        push_str(out, "<td colspan=\"3\"><span class=\"new-page\">new page</span></td>");
    } else {
        push_str(out, "<td class=\"num\">");
        push_count(out, d.added);
        push_str(out, "</td><td class=\"num\">");
        push_count(out, d.edited);
        push_str(out, "</td><td class=\"num\">");
        push_count(out, d.removed);
        push_str(out, "</td>");
    }
    push_str(out, "</tr>\n");
}

/// The what-changed index page body: every changed page with its base and
/// change counts.
pub fn changes_index(changed: &[&RenderedPage]) -> (r: String)
    requires
        forall|i: int| 0 <= i < changed@.len() ==> (#[trigger] changed@[i]).diff is Some,
    ensures
        r@ == changes_head() + change_rows(changed@) + "</tbody>\n</table>\n</div>\n"@,
{
    let mut out = owned(
        "<div class=\"changes-index\">\n<p>Pages that differ from their comparison base (the previous component version, or the base ref in PR-preview mode).</p>\n<table>\n<thead><tr><th>Page</th><th>Compared to</th><th>Added</th><th>Edited</th><th>Removed</th></tr></thead>\n<tbody>\n",
    );
    let mut k: usize = 0;
    while k < changed.len()
        invariant
            k <= changed.len(),
            forall|i: int| 0 <= i < changed@.len() ==> (#[trigger] changed@[i]).diff is Some,
            out@ == changes_head() + change_rows(changed@.take(k as int)),
        decreases changed.len() - k,
    {
        assert(changed@.take(k + 1).drop_last() == changed@.take(k as int));
        let page = changed[k];
        assert(changed@[k as int].diff is Some);
        match &page.diff {
            Some(d) => {
                push_change_row(&mut out, page, d);
            },
            None => {},
        }
        k += 1;
    }
    assert(changed@.take(changed@.len() as int) == changed@);
    push_str(&mut out, "</tbody>\n</table>\n</div>\n");
    out
}

} // verus!
