use bokfell::coverage::model::{BlockCoverage, BlockState, Claim, ClaimSite, ClaimTarget, PageCoverage, StateCounts, Tracking};
use bokfell::coverage::resolve::CoverageDatabase;
use bokfell::model::catalog::Coords;
use bokfell::model::resource::Family;
use bokfell::overlay::{overlay_payload, OverlayDiff};
use bokfell::render::{client_selector, PageBlockChange, PageDiff, RenderedPage};

fn page() -> RenderedPage {
    RenderedPage {
        coords: Coords {
            component: "c".into(),
            version: None,
            module: "ROOT".into(),
            family: Family::Page,
            path: "p.adoc".into(),
        },
        url: "c/p.html".into(),
        title_html: None,
        title_text: Some("P".into()),
        contents: String::new(),
        warnings: Vec::new(),
        coverage: None,
        diff: None,
        block_sources: vec![None, Some(("/src/p.adoc".into(), 4))],
        block_lines: vec![1, 4],
    }
}

fn block(state: BlockState, claims: Vec<usize>) -> BlockCoverage {
    BlockCoverage {
        state,
        context: "paragraph".into(),
        page_lines: None,
        reason: None,
        tracking: if state == BlockState::Planned {
            Some(Tracking { raw: "o/r#1".into(), url: "https://github.com/o/r/issues/1".into() })
        } else {
            None
        },
        claims,
    }
}

#[test]
fn pages_without_overlays_get_no_payload() {
    assert!(overlay_payload(&page(), None, None, false).is_none());
    let with_edit = overlay_payload(&page(), None, None, true).unwrap();
    assert_eq!(with_edit.edit.unwrap()[1], Some(("/src/p.adoc".to_string(), 4)));
    assert_eq!(with_edit.selector, client_selector());
    assert_eq!(with_edit.lines, vec![1, 4]);
}

#[test]
fn coverage_entries_carry_states_and_existing_claims() {
    let mut p = page();
    p.coverage = Some(PageCoverage {
        blocks: vec![block(BlockState::Verified, vec![0, 7]), block(BlockState::Planned, vec![])],
        counts: StateCounts::default(),
    });
    let claim = Claim {
        target: ClaimTarget::Path("p.adoc".into()),
        anchor: None,
        excerpt: Some("x".into()),
        site: ClaimSite {
            file: "t.rs".into(),
            local_path: Some("/w/t.rs".into()),
            line: 9,
            test_fn: Some("t".into()),
            fn_line: None,
            fn_source: None,
            krate: Some("k".into()),
            repo: Some("https://github.com/o/r".into()),
            rev: Some("abc".into()),
            scope: 0,
        },
    };
    let db = CoverageDatabase { pages: vec![], claims: vec![claim], errors: vec![], lint: vec![] };
    let payload = overlay_payload(&p, Some(&db), None, true).unwrap();
    let cov = payload.coverage.unwrap();
    assert_eq!(cov[0].state, "verified");
    let claims = cov[0].claims.as_ref().unwrap();
    assert_eq!(claims.len(), 1);
    assert_eq!(claims[0].label, "k::t");
    assert_eq!(claims[0].location, "t.rs:9");
    assert_eq!(claims[0].url.as_deref(), Some("https://github.com/o/r/blob/abc/t.rs#L9"));
    assert_eq!(claims[0].edit, Some(("/w/t.rs".to_string(), 9)));
    assert_eq!(cov[1].state, "planned");
    assert!(cov[1].claims.is_none());
    assert_eq!(cov[1].tracking.as_ref().unwrap().1, "https://github.com/o/r/issues/1");
}

#[test]
fn diff_marks_only_for_changed_pages() {
    let mut p = page();
    p.diff = Some(PageDiff {
        base_label: "1.0".into(),
        new_page: false,
        added: 0,
        removed: 0,
        edited: 0,
        blocks: vec![PageBlockChange::Unchanged, PageBlockChange::Unchanged],
    });
    assert!(overlay_payload(&p, None, None, false).is_none());
    p.diff = Some(PageDiff {
        base_label: "1.0".into(),
        new_page: false,
        added: 1,
        removed: 0,
        edited: 1,
        blocks: vec![PageBlockChange::Added, PageBlockChange::Edited { diff_html: "<ins>x</ins>".into() }],
    });
    let d = overlay_payload(&p, None, None, false).unwrap().diff.unwrap();
    assert!(matches!(d[0], OverlayDiff::Added));
    assert!(matches!(&d[1], OverlayDiff::Edited(h) if h == "<ins>x</ins>"));
}

fn claim_in(file: &str, line: u32, test_fn: &str, fn_line: u32, source: &str) -> Claim {
    Claim {
        target: ClaimTarget::Path("p.adoc".into()),
        anchor: None,
        excerpt: Some("x".into()),
        site: ClaimSite {
            file: file.into(),
            local_path: None,
            line,
            test_fn: Some(test_fn.into()),
            fn_line: Some(fn_line),
            fn_source: Some(source.into()),
            krate: None,
            repo: Some("https://github.com/o/r".into()),
            rev: Some("abc".into()),
            scope: 0,
        },
    }
}

#[test]
fn each_test_function_is_tabled_once() {
    let mut p = page();
    p.coverage = Some(PageCoverage {
        blocks: vec![block(BlockState::Verified, vec![0, 1]), block(BlockState::Verified, vec![2, 1])],
        counts: StateCounts::default(),
    });
    let source = "#[test]\nfn a() {\n    verifies!(\"p.adoc\", \"x\");\n}";
    let claims = vec![
        claim_in("t.rs", 3, "a", 1, source),
        claim_in("t.rs", 4, "a", 1, source),
        claim_in("u.rs", 8, "b", 6, "fn b() {}"),
    ];
    let db = CoverageDatabase { pages: vec![], claims, errors: vec![], lint: vec![] };
    let payload = overlay_payload(&p, Some(&db), None, false).unwrap();
    assert_eq!(payload.tests.len(), 2);
    assert_eq!(payload.tests[0].file, "t.rs");
    assert_eq!(payload.tests[0].line, 1);
    assert_eq!(payload.tests[0].name.as_deref(), Some("a"));
    assert_eq!(payload.tests[0].html.len(), 4);
    assert_eq!(payload.tests[0].url.as_deref(), Some("https://github.com/o/r/blob/abc/t.rs#L1"));
    assert_eq!(payload.tests[1].file, "u.rs");
    assert_eq!(payload.tests[1].line, 6);
    let cov = payload.coverage.unwrap();
    let first = cov[0].claims.as_ref().unwrap();
    assert_eq!(first[0].test, Some(0));
    assert_eq!(first[1].test, Some(0));
    let second = cov[1].claims.as_ref().unwrap();
    assert_eq!(second[0].test, Some(1));
    assert_eq!(second[1].test, Some(0));
}
