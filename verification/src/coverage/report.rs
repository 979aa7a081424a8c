//! Rollup reports: the table, the lint report, and the Codecov projection.

use vstd::prelude::*;

use crate::coverage::model::{BlockState, PageRecord, StateCounts, count_of, counts_fit, percent_of};
use crate::coverage::resolve::{CoverageDatabase, Diagnostic, DiagnosticKind};
use crate::coverage::rollup::{group_key_view, group_pages, grouped_pages, groups_match, law_groups_partition_pages, pages_by_component, total_count};
use crate::text::{dec, owned, push_chars, push_str};

verus! {

/// The token of a diagnostic kind, for reports.
pub open spec fn kind_token(k: DiagnosticKind) -> Seq<char> {
    match k {
        DiagnosticKind::UnknownPage => "unknown-page"@,
        DiagnosticKind::AmbiguousPage => "ambiguous-page"@,
        DiagnosticKind::NoSection => "no-section"@,
        DiagnosticKind::NoMatch => "no-match"@,
        DiagnosticKind::Ambiguous => "ambiguous"@,
        DiagnosticKind::Contradiction => "contradiction"@,
        DiagnosticKind::SidecarConflict => "sidecar-conflict"@,
        DiagnosticKind::StalePlanned => "stale-planned"@,
        DiagnosticKind::HeuristicDisagreement => "heuristic-disagreement"@,
        DiagnosticKind::Unclassified => "unclassified"@,
    }
}

impl DiagnosticKind {
    /// The kind's token for reports (`no-match`, `unclassified`, …).
    pub fn token(self) -> (r: &'static str)
        ensures
            r@ == kind_token(self),
    {
        match self {
            DiagnosticKind::UnknownPage => "unknown-page",
            DiagnosticKind::AmbiguousPage => "ambiguous-page",
            DiagnosticKind::NoSection => "no-section",
            DiagnosticKind::NoMatch => "no-match",
            DiagnosticKind::Ambiguous => "ambiguous",
            DiagnosticKind::Contradiction => "contradiction",
            DiagnosticKind::SidecarConflict => "sidecar-conflict",
            DiagnosticKind::StalePlanned => "stale-planned",
            DiagnosticKind::HeuristicDisagreement => "heuristic-disagreement",
            DiagnosticKind::Unclassified => "unclassified",
        }
    }
}

// ---------------------------------------------------------------------
// The lint report
// ---------------------------------------------------------------------

/// A diagnostic as one report line's text: `{at}: {message}`.
pub open spec fn diag_text(d: Diagnostic) -> Seq<char> {
    d.at@ + ": "@ + d.message@
}

/// The lines listing errors: `  error[{token}]: {at}: {message}`.
pub open spec fn error_lines(ds: Seq<Diagnostic>) -> Seq<char>
    decreases ds.len(),
{
    if ds.len() == 0 {
        Seq::empty()
    } else {
        error_lines(ds.drop_last()) + "  error["@ + kind_token(ds.last().kind) + "]: "@ + diag_text(ds.last()) + "\n"@
    }
}

/// The findings of one kind, in order.
pub open spec fn findings_of(ds: Seq<Diagnostic>, token: Seq<char>) -> Seq<Diagnostic>
    decreases ds.len(),
{
    if ds.len() == 0 {
        Seq::empty()
    } else if kind_token(ds.last().kind) == token {
        findings_of(ds.drop_last(), token).push(ds.last())
    } else {
        findings_of(ds.drop_last(), token)
    }
}

/// The lines listing findings: `  {at}: {message}`.
pub open spec fn finding_lines(ds: Seq<Diagnostic>) -> Seq<char>
    decreases ds.len(),
{
    if ds.len() == 0 {
        Seq::empty()
    } else {
        finding_lines(ds.drop_last()) + "  "@ + diag_text(ds.last()) + "\n"@
    }
}

/// Every kind's token, in the order of the tokens as text: the order in
/// which the report groups findings.
pub open spec fn sorted_tokens() -> Seq<Seq<char>> {
    seq![
        "ambiguous"@,
        "ambiguous-page"@,
        "contradiction"@,
        "heuristic-disagreement"@,
        "no-match"@,
        "no-section"@,
        "sidecar-conflict"@,
        "stale-planned"@,
        "unclassified"@,
        "unknown-page"@,
    ]
}

/// The sections of the given kinds, in order.
pub open spec fn lint_sections(ds: Seq<Diagnostic>, tokens: Seq<Seq<char>>) -> Seq<char>
    decreases tokens.len(),
{
    if tokens.len() == 0 {
        Seq::empty()
    } else {
        lint_sections(ds, tokens.drop_last()) + lint_section(ds, tokens.last())
    }
}

/// The section of one lint kind: a count line and its findings, empty
/// when there are none.
pub open spec fn lint_section(ds: Seq<Diagnostic>, token: Seq<char>) -> Seq<char> {
    let f = findings_of(ds, token);
    if f.len() == 0 {
        Seq::empty()
    } else {
        dec(f.len()) + " "@ + token + " finding(s):\n"@ + finding_lines(f)
    }
}

/// The lint report: every hard error, then every review finding grouped
/// by kind (kinds in the order of their tokens).
pub open spec fn lint_report(errors: Seq<Diagnostic>, lint: Seq<Diagnostic>) -> Seq<char> {
    (if errors.len() == 0 {
        Seq::empty()
    } else {
        dec(errors.len()) + " error(s):\n"@ + error_lines(errors)
    }) + lint_sections(lint, sorted_tokens())
}

/// Appends `{at}: {message}`.
fn push_diag(out: &mut String, d: &Diagnostic)
    ensures
        final(out)@ == old(out)@ + diag_text(*d),
{
    push_str(out, d.at.as_str());
    push_str(out, ": ");
    push_str(out, d.message.as_str());
}

fn push_count(out: &mut String, n: usize)
    ensures
        final(out)@ == old(out)@ + dec(n as nat),
{
    let mut digits: Vec<char> = Vec::new();
    crate::text::push_dec(&mut digits, n as u64);
    push_chars(out, digits.as_slice());
}

/// Appends one lint kind's section.
fn push_lint_section(out: &mut String, lint: &Vec<Diagnostic>, token: &str)
    ensures
        final(out)@ == old(out)@ + lint_section(lint@, token@),
{
    let mut found: Vec<&Diagnostic> = Vec::new();
    let mut i: usize = 0;
    while i < lint.len()
        invariant
            i <= lint@.len(),
            found@.len() == findings_of(lint@.take(i as int), token@).len(),
            forall|k: int| 0 <= k < found@.len() ==> *(#[trigger] found@[k]) == findings_of(lint@.take(i as int), token@)[k],
        decreases lint.len() - i,
    {
        assert(lint@.take(i + 1).drop_last() == lint@.take(i as int));
        assert(lint@.take(i + 1).last() == lint@[i as int]);
        if crate::text::str_eq(lint[i].kind.token(), token) {
            found.push(&lint[i]);
        }
        i += 1;
    }
    assert(lint@.take(lint@.len() as int) == lint@);
    let ghost f = findings_of(lint@, token@);
    if found.len() == 0 {
        return;
    }
    push_count(out, found.len());
    push_str(out, " ");
    push_str(out, token);
    push_str(out, " finding(s):\n");
    let ghost head = out@;
    let mut k: usize = 0;
    while k < found.len()
        invariant
            k <= found@.len(),
            found@.len() == f.len(),
            forall|m: int| 0 <= m < found@.len() ==> *(#[trigger] found@[m]) == f[m],
            out@ == head + finding_lines(f.take(k as int)),
        decreases found.len() - k,
    {
        assert(f.take(k + 1).drop_last() == f.take(k as int));
        push_str(out, "  ");
        push_diag(out, found[k]);
        push_str(out, "\n");
        k += 1;
    }
    assert(f.take(f.len() as int) == f);
}

/// The lint report: every hard error, then every review finding, grouped
/// by kind. Empty when there is nothing to report.
pub fn lint(db: &CoverageDatabase) -> (out: String)
    ensures
        out@ == lint_report(db.errors@, db.lint@),
{
    let mut out = String::new();
    if db.errors.len() > 0 {
        push_count(&mut out, db.errors.len());
        push_str(&mut out, " error(s):\n");
        let ghost head = out@;
        let mut i: usize = 0;
        while i < db.errors.len()
            invariant
                i <= db.errors@.len(),
                out@ == head + error_lines(db.errors@.take(i as int)),
            decreases db.errors.len() - i,
        {
            assert(db.errors@.take(i + 1).drop_last() == db.errors@.take(i as int));
            push_str(&mut out, "  error[");
            push_str(&mut out, db.errors[i].kind.token());
            push_str(&mut out, "]: ");
            push_diag(&mut out, &db.errors[i]);
            push_str(&mut out, "\n");
            i += 1;
        }
        assert(db.errors@.take(db.errors@.len() as int) == db.errors@);
    }
    let ghost head = out@;
    let tokens: [&str; 10] = [
        "ambiguous",
        "ambiguous-page",
        "contradiction",
        "heuristic-disagreement",
        "no-match",
        "no-section",
        "sidecar-conflict",
        "stale-planned",
        "unclassified",
        "unknown-page",
    ];
    let ghost tv = Seq::new(10, |i: int| tokens@[i]@);
    assert(tv =~= sorted_tokens());
    let mut t: usize = 0;
    while t < 10
        invariant
            t <= 10,
            tokens@.len() == 10,
            tv == Seq::new(10, |i: int| tokens@[i]@),
            out@ == head + lint_sections(db.lint@, tv.take(t as int)),
        decreases 10 - t,
    {
        assert(tv.take(t + 1).drop_last() == tv.take(t as int));
        push_lint_section(&mut out, &db.lint, tokens[t]);
        t += 1;
    }
    assert(tv.take(10) == tv);
    out
}

// ---------------------------------------------------------------------
// The rollup table
// ---------------------------------------------------------------------

/// The counts of several pages summed, state by state.
pub open spec fn sum_counts(pages: Seq<PageRecord>) -> StateCounts {
    StateCounts {
        verified: total_count(pages, BlockState::Verified) as usize,
        planned: total_count(pages, BlockState::Planned) as usize,
        uncovered: total_count(pages, BlockState::Uncovered) as usize,
        unclassified: total_count(pages, BlockState::Unclassified) as usize,
        out_of_scope: total_count(pages, BlockState::OutOfScope) as usize,
        non_normative: total_count(pages, BlockState::NonNormative) as usize,
    }
}

/// A table row of counts: the label, the four denominator counts, the
/// percentage, and the two counts beside it.
pub open spec fn counts_row(label: Seq<char>, c: StateCounts) -> Seq<Seq<char>> {
    seq![
        label,
        dec(c.verified as nat),
        dec(c.planned as nat),
        dec(c.uncovered as nat),
        dec(c.unclassified as nat),
        dec(percent_of(c) as nat) + "%"@,
        dec(c.out_of_scope as nat),
        dec(c.non_normative as nat),
    ]
}

/// A row with only a label.
pub open spec fn label_row(label: Seq<char>) -> Seq<Seq<char>> {
    seq![label, Seq::empty(), Seq::empty(), Seq::empty(), Seq::empty(), Seq::empty(), Seq::empty(), Seq::empty()]
}

/// A group's label: `component` or `component version`.
pub open spec fn group_label(key: (Seq<char>, Seq<char>)) -> Seq<char> {
    if key.1.len() == 0 {
        key.0
    } else {
        key.0 + " "@ + key.1
    }
}

/// The rows of one group: its label, a row per page, and a subtotal when
/// it holds several pages.
pub open spec fn group_rows(key: (Seq<char>, Seq<char>), pages: Seq<PageRecord>) -> Seq<Seq<Seq<char>>> {
    seq![label_row("["@ + group_label(key) + "]"@)] + Seq::new(
        pages.len(),
        |i: int| counts_row("  "@ + pages[i].url@, pages[i].coverage.counts),
    ) + if pages.len() > 1 {
        seq![counts_row("  = "@ + group_label(key), sum_counts(pages))]
    } else {
        Seq::empty()
    }
}

/// The rows of several groups, in order.
pub open spec fn groups_rows(pages: Seq<PageRecord>, keys: Seq<(Seq<char>, Seq<char>)>) -> Seq<Seq<Seq<char>>>
    decreases keys.len(),
{
    if keys.len() == 0 {
        Seq::empty()
    } else {
        groups_rows(pages, keys.drop_last()) + group_rows(keys.last(), group_pages(pages, keys.last()))
    }
}

/// How many of the groups hold more than one page: each gets a subtotal
/// row.
pub open spec fn subtotals(pages: Seq<PageRecord>, keys: Seq<(Seq<char>, Seq<char>)>) -> nat
    decreases keys.len(),
{
    if keys.len() == 0 {
        0
    } else {
        subtotals(pages, keys.drop_last()) + if group_pages(pages, keys.last()).len() > 1 { 1nat } else { 0nat }
    }
}

/// The groups' rows: a label row, the pages' rows and any subtotal, group
/// by group.
proof fn lemma_groups_rows_len(pages: Seq<PageRecord>, keys: Seq<(Seq<char>, Seq<char>)>)
    ensures
        groups_rows(pages, keys).len() == keys.len() + grouped_pages(pages, keys) + subtotals(pages, keys),
    decreases keys.len(),
{
    if keys.len() > 0 {
        lemma_groups_rows_len(pages, keys.drop_last());
    }
}

/// The table holds a header; per component version a label row, one row
/// per page and, for more than one page, a subtotal; and a site total
/// when there is more than one version. Every page gets exactly one row.
pub proof fn law_table_rows(pages: Seq<PageRecord>, groups: Seq<((String, String), Vec<&PageRecord>)>)
    requires
        groups_match(pages, groups),
    ensures
        table_rows(pages, keys_of(groups)).len() == 1 + groups.len() + pages.len() + subtotals(pages, keys_of(groups)) + if groups.len()
            > 1 {
            1nat
        } else {
            0nat
        },
{
    law_groups_partition_pages(pages, groups);
    assert(keys_of(groups) =~= Seq::new(groups.len(), |k: int| group_key_view(groups[k].0)));
    lemma_groups_rows_len(pages, keys_of(groups));
}

/// The table's header row.
pub open spec fn table_header() -> Seq<Seq<char>> {
    seq![
        "PAGE"@,
        "VERIFIED"@,
        "PLANNED"@,
        "UNCOVERED"@,
        "UNCLASSIFIED"@,
        "COVERAGE"@,
        "OUT-OF-SCOPE"@,
        "NON-NORMATIVE"@,
    ]
}

/// Every row of the table, header first: the groups' rows (groups in
/// key order) and, with several groups, the site total.
pub open spec fn table_rows(pages: Seq<PageRecord>, keys: Seq<(Seq<char>, Seq<char>)>) -> Seq<Seq<Seq<char>>> {
    seq![table_header()] + groups_rows(pages, keys) + if keys.len() > 1 {
        seq![counts_row("= all pages"@, sum_counts(pages))]
    } else {
        Seq::empty()
    }
}

/// The width of column `c`: its longest cell.
pub open spec fn column_width(rows: Seq<Seq<Seq<char>>>, c: int) -> nat
    decreases rows.len(),
{
    if rows.len() == 0 {
        0
    } else {
        let w = column_width(rows.drop_last(), c);
        let l = rows.last()[c].len();
        if l > w {
            l
        } else {
            w
        }
    }
}

/// `n` spaces.
pub open spec fn spaces(n: int) -> Seq<char> {
    Seq::new(if n > 0 { n as nat } else { 0 }, |i: int| ' ')
}

/// One cell, padded to its column: the first left-aligned, the others
/// right-aligned, each after the first preceded by two spaces.
pub open spec fn render_cell(cell: Seq<char>, c: int, w: nat) -> Seq<char> {
    if c == 0 {
        cell + spaces(w - cell.len())
    } else {
        "  "@ + spaces(w - cell.len()) + cell
    }
}

/// The first `k` cells of a row, rendered.
pub open spec fn render_cells(row: Seq<Seq<char>>, rows: Seq<Seq<Seq<char>>>, k: int) -> Seq<char>
    decreases k,
{
    if k <= 0 {
        Seq::empty()
    } else {
        render_cells(row, rows, k - 1) + render_cell(row[k - 1], k - 1, column_width(rows, k - 1))
    }
}

/// The first `k` rows, rendered, each ending in a newline.
pub open spec fn render_rows(rows: Seq<Seq<Seq<char>>>, k: int) -> Seq<char>
    decreases k,
{
    if k <= 0 {
        Seq::empty()
    } else {
        render_rows(rows, k - 1) + render_cells(rows[k - 1], rows, 8) + "\n"@
    }
}

/// Whether the site's counts leave room for every sum and percentage the
/// table computes.
pub open spec fn table_fits(pages: Seq<PageRecord>) -> bool {
    forall|s: BlockState| #[trigger] total_count(pages, s) * 400 <= usize::MAX
}

/// The text of a table's rows.
pub open spec fn rows_view(rows: Seq<Vec<String>>) -> Seq<Seq<Seq<char>>> {
    Seq::new(rows.len(), |i: int| Seq::new(rows[i]@.len(), |c: int| rows[i]@[c]@))
}

/// A group's pages sum to no more than all pages do.
proof fn lemma_group_total(pages: Seq<PageRecord>, key: (Seq<char>, Seq<char>), s: BlockState)
    ensures
        0 <= total_count(group_pages(pages, key), s) <= total_count(pages, s),
    decreases pages.len(),
{
    if pages.len() > 0 {
        lemma_group_total(pages.drop_last(), key, s);
        let g = group_pages(pages.drop_last(), key);
        if crate::coverage::rollup::group_key(pages.last()) == key {
            assert(group_pages(pages, key).drop_last() =~= g);
        }
        assert(count_of(pages.last().coverage.counts, s) >= 0);
    }
}

/// Sums are never negative.
proof fn lemma_total_nonneg(pages: Seq<PageRecord>, s: BlockState)
    ensures
        total_count(pages, s) >= 0,
    decreases pages.len(),
{
    if pages.len() > 0 {
        lemma_total_nonneg(pages.drop_last(), s);
        assert(count_of(pages.last().coverage.counts, s) >= 0);
    }
}

/// One page counts no more than the pages it is among.
proof fn lemma_page_total(pages: Seq<PageRecord>, m: int, s: BlockState)
    requires
        0 <= m < pages.len(),
    ensures
        0 <= count_of(pages[m].coverage.counts, s) <= total_count(pages, s),
    decreases pages.len(),
{
    lemma_total_nonneg(pages.drop_last(), s);
    if m < pages.len() - 1 {
        lemma_page_total(pages.drop_last(), m, s);
        assert(pages.drop_last()[m] == pages[m]);
    }
    assert(count_of(pages.last().coverage.counts, s) >= 0);
    assert(count_of(pages[m].coverage.counts, s) >= 0);
}

/// Appends `n` spaces.
fn push_spaces(out: &mut String, n: usize)
    ensures
        final(out)@ == old(out)@ + spaces(n as int),
{
    let ghost o = out@;
    proof {
        reveal_strlit(" ");
    }
    let mut k: usize = 0;
    while k < n
        invariant
            k <= n,
            out@ == o + spaces(k as int),
        decreases n - k,
    {
        let ghost before = out@;
        push_str(out, " ");
        k += 1;
        proof {
            reveal_strlit(" ");
        }
        assert(" "@ =~= seq![' ']);
        assert(spaces(k as int) =~= spaces(k - 1).push(' '));
        assert(out@ =~= o + spaces(k as int));
    }
}

/// The decimal text of a count.
fn count_string(n: usize) -> (r: String)
    ensures
        r@ == dec(n as nat),
{
    crate::text::dec_string(n as u64)
}

/// A row of counts.
fn counts_row_exec(label: String, c: &StateCounts) -> (r: Vec<String>)
    requires
        counts_fit(*c),
    ensures
        r@.len() == 8,
        Seq::new(r@.len(), |k: int| r@[k]@) == counts_row(label@, *c),
{
    let mut pct = count_string(c.percent_verified() as usize);
    push_str(&mut pct, "%");
    let mut r: Vec<String> = Vec::new();
    r.push(label);
    r.push(count_string(c.verified));
    r.push(count_string(c.planned));
    r.push(count_string(c.uncovered));
    r.push(count_string(c.unclassified));
    r.push(pct);
    r.push(count_string(c.out_of_scope));
    r.push(count_string(c.non_normative));
    assert(Seq::new(r@.len(), |k: int| r@[k]@) =~= counts_row(label@, *c));
    r
}

/// A row with only a label.
fn label_row_exec(label: String) -> (r: Vec<String>)
    ensures
        r@.len() == 8,
        Seq::new(r@.len(), |k: int| r@[k]@) == label_row(label@),
{
    let mut r: Vec<String> = Vec::new();
    r.push(label);
    let mut k: usize = 0;
    while k < 7
        invariant
            k <= 7,
            r@.len() == k + 1,
            r@[0]@ == label@,
            forall|m: int| 1 <= m < r@.len() ==> (#[trigger] r@[m])@ == Seq::<char>::empty(),
        decreases 7 - k,
    {
        r.push(String::new());
        k += 1;
    }
    assert(Seq::new(r@.len(), |k: int| r@[k]@) =~= label_row(label@));
    r
}

/// The width of every column.
fn column_widths(rows: &Vec<Vec<String>>) -> (w: Vec<usize>)
    requires
        forall|i: int| 0 <= i < rows@.len() ==> (#[trigger] rows@[i])@.len() == 8,
    ensures
        w@.len() == 8,
        forall|c: int| 0 <= c < 8 ==> (#[trigger] w@[c]) as nat == column_width(rows_view(rows@), c),
{
    let ghost rv = rows_view(rows@);
    let mut w: Vec<usize> = Vec::new();
    let mut c: usize = 0;
    while c < 8
        invariant
            c <= 8,
            w@.len() == c,
            rv == rows_view(rows@),
            forall|i: int| 0 <= i < rows@.len() ==> (#[trigger] rows@[i])@.len() == 8,
            forall|m: int| 0 <= m < c ==> (#[trigger] w@[m]) as nat == column_width(rv, m),
        decreases 8 - c,
    {
        let mut best: usize = 0;
        let mut i: usize = 0;
        while i < rows.len()
            invariant
                i <= rows@.len(),
                c < 8,
                rv == rows_view(rows@),
                forall|k: int| 0 <= k < rows@.len() ==> (#[trigger] rows@[k])@.len() == 8,
                best as nat == column_width(rv.take(i as int), c as int),
            decreases rows.len() - i,
        {
            assert(rv.take(i + 1).drop_last() == rv.take(i as int));
            assert(rv.take(i + 1).last() == rv[i as int]);
            let cells = chars_of_cell(&rows[i][c]);
            if cells > best {
                best = cells;
            }
            i += 1;
        }
        assert(rv.take(rows@.len() as int) == rv);
        w.push(best);
        c += 1;
    }
    w
}

/// The number of characters of a cell.
fn chars_of_cell(s: &String) -> (n: usize)
    ensures
        n == s@.len(),
{
    crate::text::chars_of(s.as_str()).len()
}

/// Renders the table's rows with padded columns.
fn render_table(rows: &Vec<Vec<String>>) -> (out: String)
    requires
        forall|i: int| 0 <= i < rows@.len() ==> (#[trigger] rows@[i])@.len() == 8,
    ensures
        out@ == render_rows(rows_view(rows@), rows@.len() as int),
{
    let ghost rv = rows_view(rows@);
    let widths = column_widths(rows);
    let mut out = String::new();
    let mut i: usize = 0;
    while i < rows.len()
        invariant
            i <= rows@.len(),
            rv == rows_view(rows@),
            widths@.len() == 8,
            forall|c: int| 0 <= c < 8 ==> (#[trigger] widths@[c]) as nat == column_width(rv, c),
            forall|k: int| 0 <= k < rows@.len() ==> (#[trigger] rows@[k])@.len() == 8,
            out@ == render_rows(rv, i as int),
        decreases rows.len() - i,
    {
        let ghost line_start = out@;
        let mut c: usize = 0;
        while c < 8
            invariant
                c <= 8,
                i < rows@.len(),
                rv == rows_view(rows@),
                widths@.len() == 8,
                forall|m: int| 0 <= m < 8 ==> (#[trigger] widths@[m]) as nat == column_width(rv, m),
                forall|k: int| 0 <= k < rows@.len() ==> (#[trigger] rows@[k])@.len() == 8,
                out@ == line_start + render_cells(rv[i as int], rv, c as int),
            decreases 8 - c,
        {
            let cell = &rows[i][c];
            let n = chars_of_cell(cell);
            let w = widths[c];
            let pad: usize = if w > n { w - n } else { 0 };
            assert(rv[i as int][c as int] == cell@);
            if c == 0 {
                push_str(&mut out, cell.as_str());
                push_spaces(&mut out, pad);
            } else {
                push_str(&mut out, "  ");
                push_spaces(&mut out, pad);
                push_str(&mut out, cell.as_str());
            }
            assert(spaces(pad as int) == spaces(w - cell@.len()));
            c += 1;
        }
        push_str(&mut out, "\n");
        i += 1;
    }
    out
}

/// The keys of a grouping.
pub open spec fn keys_of(gs: Seq<((String, String), Vec<&PageRecord>)>) -> Seq<(Seq<char>, Seq<char>)> {
    Seq::new(gs.len(), |k: int| group_key_view(gs[k].0))
}

/// The table's header row.
fn header_row() -> (r: Vec<String>)
    ensures
        r@.len() == 8,
        Seq::new(r@.len(), |k: int| r@[k]@) == table_header(),
{
    let mut r: Vec<String> = Vec::new();
    r.push(owned("PAGE"));
    r.push(owned("VERIFIED"));
    r.push(owned("PLANNED"));
    r.push(owned("UNCOVERED"));
    r.push(owned("UNCLASSIFIED"));
    r.push(owned("COVERAGE"));
    r.push(owned("OUT-OF-SCOPE"));
    r.push(owned("NON-NORMATIVE"));
    assert(Seq::new(r@.len(), |k: int| r@[k]@) =~= table_header());
    r
}

/// Counts that agree state by state are the same counts.
proof fn lemma_counts_eq(a: StateCounts, b: StateCounts)
    requires
        forall|s: BlockState| #[trigger] count_of(a, s) == count_of(b, s),
    ensures
        a == b,
{
    assert(count_of(a, BlockState::Verified) == count_of(b, BlockState::Verified));
    assert(count_of(a, BlockState::Planned) == count_of(b, BlockState::Planned));
    assert(count_of(a, BlockState::Uncovered) == count_of(b, BlockState::Uncovered));
    assert(count_of(a, BlockState::Unclassified) == count_of(b, BlockState::Unclassified));
    assert(count_of(a, BlockState::OutOfScope) == count_of(b, BlockState::OutOfScope));
    assert(count_of(a, BlockState::NonNormative) == count_of(b, BlockState::NonNormative));
}

/// Counts within the table's limits fit every computation on them.
proof fn lemma_counts_fit(pages: Seq<PageRecord>, c: StateCounts)
    requires
        table_fits(pages),
        forall|s: BlockState| #[trigger] count_of(c, s) <= total_count(pages, s),
    ensures
        counts_fit(c),
{
    assert(count_of(c, BlockState::Verified) <= total_count(pages, BlockState::Verified));
    assert(count_of(c, BlockState::Planned) <= total_count(pages, BlockState::Planned));
    assert(count_of(c, BlockState::Uncovered) <= total_count(pages, BlockState::Uncovered));
    assert(count_of(c, BlockState::Unclassified) <= total_count(pages, BlockState::Unclassified));
}

/// Appends the rows of one group.
fn push_group_rows(rows: &mut Vec<Vec<String>>, key: &(String, String), group: &Vec<&PageRecord>, Ghost(pages): Ghost<Seq<PageRecord>>)
    requires
        table_fits(pages),
        group@.map_values(|r: &PageRecord| *r) == group_pages(pages, group_key_view(*key)),
        forall|i: int| 0 <= i < old(rows)@.len() ==> (#[trigger] old(rows)@[i])@.len() == 8,
    ensures
        rows_view(final(rows)@) == rows_view(old(rows)@) + group_rows(group_key_view(*key), group_pages(pages, group_key_view(*key))),
        forall|i: int| 0 <= i < final(rows)@.len() ==> (#[trigger] final(rows)@[i])@.len() == 8,
{
    let ghost gk = group_key_view(*key);
    let ghost gp = group_pages(pages, gk);
    let ghost start = rows_view(rows@);
    let mut label = owned(key.0.as_str());
    if chars_of_cell(&key.1) > 0 {
        push_str(&mut label, " ");
        push_str(&mut label, key.1.as_str());
    }
    assert(label@ == group_label(gk));
    let mut head = owned("[");
    push_str(&mut head, label.as_str());
    push_str(&mut head, "]");
    rows.push(label_row_exec(head));
    assert(rows_view(rows@) =~= start + seq![label_row("["@ + group_label(gk) + "]"@)]);
    let ghost mid = rows_view(rows@);
    let mut sub = StateCounts { verified: 0, planned: 0, uncovered: 0, unclassified: 0, out_of_scope: 0, non_normative: 0 };
    let mut m: usize = 0;
    while m < group.len()
        invariant
            m <= group@.len(),
            table_fits(pages),
            gp == group_pages(pages, gk),
            group@.map_values(|r: &PageRecord| *r) == gp,
            forall|i: int| 0 <= i < rows@.len() ==> (#[trigger] rows@[i])@.len() == 8,
            rows_view(rows@) == mid + Seq::new(m as nat, |i: int| counts_row("  "@ + gp[i].url@, gp[i].coverage.counts)),
            forall|s: BlockState| #[trigger] count_of(sub, s) == total_count(gp.take(m as int), s),
        decreases group.len() - m,
    {
        let page = group[m];
        assert(*page == gp[m as int]);
        proof {
            assert(gp.take(m + 1).drop_last() == gp.take(m as int));
            assert forall|s: BlockState| #[trigger] count_of(page.coverage.counts, s) <= total_count(pages, s) by {
                lemma_page_total(gp, m as int, s);
                lemma_group_total(pages, gk, s);
            }
            lemma_counts_fit(pages, page.coverage.counts);
            assert forall|s: BlockState| count_of(sub, s) + count_of(page.coverage.counts, s) <= usize::MAX by {
                crate::coverage::rollup::lemma_total_count_prefix(gp, m + 1, s);
                lemma_group_total(pages, gk, s);
            }
        }
        sub.add_counts(&page.coverage.counts);
        let mut l = owned("  ");
        push_str(&mut l, page.url.as_str());
        let ghost before = rows_view(rows@);
        rows.push(counts_row_exec(l, &page.coverage.counts));
        assert(rows_view(rows@) =~= before.push(counts_row("  "@ + gp[m as int].url@, gp[m as int].coverage.counts)));
        m += 1;
        assert(rows_view(rows@) =~= mid + Seq::new(m as nat, |i: int| counts_row("  "@ + gp[i].url@, gp[i].coverage.counts)));
    }
    assert(gp.take(group@.len() as int) == gp);
    if group.len() > 1 {
        proof {
            assert forall|s: BlockState| #[trigger] count_of(sub, s) <= total_count(pages, s) by {
                lemma_group_total(pages, gk, s);
            }
            lemma_counts_fit(pages, sub);
            assert forall|s: BlockState| #[trigger] count_of(sub, s) == count_of(sum_counts(gp), s) by {
                lemma_group_total(pages, gk, s);
                lemma_total_nonneg(gp, s);
            }
            lemma_counts_eq(sub, sum_counts(gp));
        }
        let mut l = owned("  = ");
        push_str(&mut l, label.as_str());
        let ghost before = rows_view(rows@);
        rows.push(counts_row_exec(l, &sub));
        assert(rows_view(rows@) =~= before.push(counts_row("  = "@ + group_label(gk), sum_counts(gp))));
    }
    assert(rows_view(rows@) =~= start + group_rows(gk, gp));
}

/// The plain-text rollup table: one row per page grouped by component
/// version, a subtotal per component, and the site total. Out-of-scope
/// counts sit beside the percentage, never inside it.
pub fn table(db: &CoverageDatabase) -> (out: String)
    requires
        table_fits(db.pages@),
    ensures
        exists|gs: Seq<((String, String), Vec<&PageRecord>)>|
            groups_match(db.pages@, gs) && out@ == render_rows(
                table_rows(db.pages@, keys_of(gs)),
                table_rows(db.pages@, keys_of(gs)).len() as int,
            ),
{
    let ghost pages = db.pages@;
    let groups = pages_by_component(db);
    proof {
        assert forall|s: BlockState| #[trigger] total_count(db.pages@, s) <= usize::MAX by {}
    }
    let (_, total) = db.rollups();
    let ghost keys = keys_of(groups@);
    let mut rows: Vec<Vec<String>> = Vec::new();
    rows.push(header_row());
    assert(rows_view(rows@) =~= seq![table_header()]);
    let mut k: usize = 0;
    while k < groups.len()
        invariant
            k <= groups@.len(),
            pages == db.pages@,
            table_fits(pages),
            groups_match(pages, groups@),
            keys == keys_of(groups@),
            forall|i: int| 0 <= i < rows@.len() ==> (#[trigger] rows@[i])@.len() == 8,
            rows_view(rows@) == seq![table_header()] + groups_rows(pages, keys.take(k as int)),
        decreases groups.len() - k,
    {
        let g = &groups[k];
        assert(g.1@.map_values(|r: &PageRecord| *r) == group_pages(pages, group_key_view(g.0)));
        push_group_rows(&mut rows, &g.0, &g.1, Ghost(pages));
        assert(keys.take(k + 1).drop_last() == keys.take(k as int));
        assert(keys.take(k + 1).last() == group_key_view(g.0));
        k += 1;
    }
    assert(keys.take(groups@.len() as int) == keys);
    if groups.len() > 1 {
        proof {
            assert forall|s: BlockState| #[trigger] count_of(total, s) <= total_count(pages, s) by {}
            lemma_counts_fit(pages, total);
            assert forall|s: BlockState| #[trigger] count_of(total, s) == count_of(sum_counts(pages), s) by {
                lemma_total_nonneg(pages, s);
            }
            lemma_counts_eq(total, sum_counts(pages));
        }
        let ghost before = rows_view(rows@);
        rows.push(counts_row_exec(owned("= all pages"), &total));
        assert(rows_view(rows@) =~= before.push(counts_row("= all pages"@, sum_counts(pages))));
    }
    assert(rows_view(rows@) =~= table_rows(pages, keys));
    render_table(&rows)
}

} // verus!
