use bokfell::coverage::codecov::codecov_projection;
use bokfell::coverage::model::{BlockCoverage, BlockState, PageCoverage, PageRecord};
use bokfell::coverage::report::{lint, table};
use bokfell::coverage::resolve::{CoverageDatabase, Diagnostic, DiagnosticKind};
use bokfell::model::catalog::Coords;
use bokfell::model::resource::Family;

fn record(version: Option<&str>, states: &[(BlockState, Option<(u32, u32)>)]) -> PageRecord {
    PageRecord {
        coords: Coords {
            component: "c".into(),
            version: version.map(str::to_string),
            module: "ROOT".into(),
            family: Family::Page,
            path: "p.adoc".into(),
        },
        url: "c/p.html".into(),
        repo_path: "docs/modules/ROOT/pages/p.adoc".into(),
        coverage: PageCoverage::from_blocks(
            states
                .iter()
                .map(|(state, page_lines)| BlockCoverage {
                    state: *state,
                    context: "paragraph".into(),
                    page_lines: *page_lines,
                    reason: None,
                    tracking: None,
                    claims: Vec::new(),
                })
                .collect(),
        ),
    }
}

fn line_value(table: &[(u32, u8)], line: u32) -> Option<u8> {
    table.iter().find(|(l, _)| *l == line).map(|(_, hit)| *hit)
}

#[test]
fn codecov_projection_follows_the_rfc_rule() {
    let db = CoverageDatabase {
        pages: vec![record(
            None,
            &[
                (BlockState::Verified, Some((3, 2))),
                (BlockState::Planned, Some((6, 1))),
                (BlockState::Uncovered, Some((8, 1))),
                (BlockState::Unclassified, Some((10, 1))),
                (BlockState::OutOfScope, Some((12, 1))),
                (BlockState::NonNormative, Some((14, 3))),
                (BlockState::Verified, None),
            ],
        )],
        ..Default::default()
    };
    let files = codecov_projection(&db);
    assert_eq!(files.len(), 1);
    assert_eq!(files[0].0, "docs/modules/ROOT/pages/p.adoc");
    let lines = &files[0].1;
    assert_eq!(line_value(lines, 3), Some(1));
    assert_eq!(line_value(lines, 4), Some(1));
    assert_eq!(line_value(lines, 6), Some(0));
    assert_eq!(line_value(lines, 8), Some(0));
    assert_eq!(line_value(lines, 10), Some(0));
    assert_eq!(line_value(lines, 12), None);
    assert_eq!(line_value(lines, 14), None);
    assert_eq!(line_value(lines, 5), None);
    assert_eq!(lines.len(), 5);
}

#[test]
fn codecov_merges_versions_verified_wins() {
    let db = CoverageDatabase {
        pages: vec![
            record(Some("1"), &[(BlockState::Uncovered, Some((1, 1)))]),
            record(Some("2"), &[(BlockState::Verified, Some((1, 1)))]),
        ],
        ..Default::default()
    };
    let files = codecov_projection(&db);
    assert_eq!(files.len(), 1);
    assert_eq!(line_value(&files[0].1, 1), Some(1));
}

#[test]
fn codecov_zero_count_spans_one_line_and_empty_pages_keep_their_file() {
    let db = CoverageDatabase {
        pages: vec![
            record(Some("1"), &[(BlockState::Planned, Some((7, 0)))]),
            record(Some("2"), &[(BlockState::OutOfScope, Some((7, 4)))]),
        ],
        ..Default::default()
    };
    let files = codecov_projection(&db);
    assert_eq!(files.len(), 1);
    assert_eq!(files[0].1, vec![(7, 0)]);

    let mut other = record(None, &[]);
    other.repo_path = "docs/other.adoc".into();
    let db = CoverageDatabase { pages: vec![other], ..Default::default() };
    let files = codecov_projection(&db);
    assert_eq!(files, vec![("docs/other.adoc".to_string(), Vec::new())]);
}

#[test]
fn table_lists_pages_and_totals() {
    let db = CoverageDatabase {
        pages: vec![
            record(
                Some("1"),
                &[
                    (BlockState::Verified, None),
                    (BlockState::Uncovered, None),
                    (BlockState::OutOfScope, None),
                ],
            ),
            record(Some("2"), &[(BlockState::Verified, None)]),
        ],
        ..Default::default()
    };
    let text = table(&db);
    assert!(text.starts_with("PAGE"), "{text}");
    assert!(text.contains("[c 1]"));
    assert!(text.contains("50%"));
    assert!(text.contains("= all pages"));
    let total_line = text.lines().last().unwrap();
    assert!(total_line.contains("66%"), "{total_line}");

    // Several pages of one component version get a subtotal row.
    let mut second = record(Some("1"), &[(BlockState::Verified, None)]);
    second.url = "c/q.html".into();
    let db = CoverageDatabase {
        pages: vec![record(Some("1"), &[(BlockState::Uncovered, None)]), second],
        ..Default::default()
    };
    let text = table(&db);
    assert!(text.contains("  = c 1 "), "{text}");
    assert!(!text.contains("= all pages"), "{text}");
}

#[test]
fn lint_lists_errors_then_findings_by_kind() {
    assert!(lint(&CoverageDatabase::default()).is_empty());

    let diagnostic = |kind, at: &str, message: &str| Diagnostic {
        kind,
        at: at.into(),
        message: message.into(),
    };
    let db = CoverageDatabase {
        errors: vec![diagnostic(DiagnosticKind::NoMatch, "t.rs:3", "excerpt not found")],
        lint: vec![
            diagnostic(DiagnosticKind::Unclassified, "p.adoc:9", "review me"),
            diagnostic(DiagnosticKind::StalePlanned, "m.toml", "verified now"),
            diagnostic(DiagnosticKind::Unclassified, "p.adoc:12", "and me"),
        ],
        ..Default::default()
    };
    let text = lint(&db);
    let lines: Vec<&str> = text.lines().collect();
    assert_eq!(lines[0], "1 error(s):");
    assert_eq!(lines[1], "  error[no-match]: t.rs:3: excerpt not found");
    assert_eq!(lines[2], "1 stale-planned finding(s):");
    assert_eq!(lines[3], "  m.toml: verified now");
    assert_eq!(lines[4], "2 unclassified finding(s):");
    assert_eq!(lines[5], "  p.adoc:9: review me");
    assert_eq!(lines[6], "  p.adoc:12: and me");

    let tokens: Vec<&str> = [
        DiagnosticKind::UnknownPage,
        DiagnosticKind::AmbiguousPage,
        DiagnosticKind::NoSection,
        DiagnosticKind::NoMatch,
        DiagnosticKind::Ambiguous,
        DiagnosticKind::Contradiction,
        DiagnosticKind::SidecarConflict,
        DiagnosticKind::StalePlanned,
        DiagnosticKind::HeuristicDisagreement,
        DiagnosticKind::Unclassified,
    ]
    .iter()
    .map(|k| k.token())
    .collect();
    assert_eq!(
        tokens,
        [
            "unknown-page",
            "ambiguous-page",
            "no-section",
            "no-match",
            "ambiguous",
            "contradiction",
            "sidecar-conflict",
            "stale-planned",
            "heuristic-disagreement",
            "unclassified"
        ]
    );
}

#[test]
fn every_page_gets_one_table_row() {
    // Two versions, one with two pages: header, two label rows, three page
    // rows, one subtotal and the site total.
    let mut second = record(Some("1"), &[(BlockState::Verified, None)]);
    second.url = "c/q.html".into();
    let db = CoverageDatabase {
        pages: vec![record(Some("1"), &[(BlockState::Uncovered, None)]), second, record(Some("2"), &[(BlockState::Verified, None)])],
        ..Default::default()
    };
    let text = table(&db);
    assert_eq!(text.lines().count(), 1 + 2 + 3 + 1 + 1, "{text}");
    // One version with one page: header, label row, page row.
    let db = CoverageDatabase { pages: vec![record(Some("2"), &[(BlockState::Verified, None)])], ..Default::default() };
    assert_eq!(table(&db).lines().count(), 3);
}
