use bokfell::coverage::model::{BlockState, Claim, ClaimSite, ClaimTarget, MeasuredPage, SpecBlock, StructuralKind};
use bokfell::coverage::resolve::{path_matches, resolve, CoverageDatabase, DiagnosticKind};
use bokfell::coverage::sidecar::Sidecar;
use bokfell::model::catalog::Coords;
use bokfell::model::resource::Family;

fn block(text: &str, kind: StructuralKind, sections: &[&str], line: u32) -> SpecBlock {
    SpecBlock {
        context: if kind == StructuralKind::Prose {
            "paragraph".into()
        } else {
            "listing".into()
        },
        text: text.to_string(),
        start_line: line,
        line_count: 2,
        page_lines: Some((line, 2)),
        sections: sections.iter().map(|s| s.to_string()).collect(),
        kind,
    }
}

fn page(version: Option<&str>, scope: usize, blocks: Vec<SpecBlock>) -> MeasuredPage {
    MeasuredPage {
        coords: Coords {
            component: "spec".into(),
            version: version.map(str::to_string),
            module: "lists".into(),
            family: Family::Page,
            path: "ordered.adoc".into(),
        },
        url: match version {
            Some(v) => format!("spec/{v}/lists/ordered.html"),
            None => "spec/lists/ordered.html".into(),
        },
        repo_path: "docs/modules/lists/pages/ordered.adoc".into(),
        scope,
        section_ids: blocks
            .iter()
            .flat_map(|b| b.sections.clone())
            .collect::<std::collections::BTreeSet<_>>()
            .into_iter()
            .collect(),
        blocks,
    }
}

fn sample_page(version: Option<&str>) -> MeasuredPage {
    page(
        version,
        0,
        vec![
            block("Intro prose about lists.", StructuralKind::Prose, &[], 3),
            block(
                "To nest an ordered list, add a marker character for each level\nof nesting.",
                StructuralKind::Prose,
                &["_nesting"],
                7,
            ),
            block(
                "....\n. one\n.. two\n....",
                StructuralKind::NonNormative,
                &["_nesting"],
                10,
            ),
            block(
                "Asciidoctor also supports the DocBook converter emits things.",
                StructuralKind::Prose,
                &["_notes"],
                15,
            ),
            block(
                "Footnotes may be defined once and reused.",
                StructuralKind::Prose,
                &["_notes"],
                18,
            ),
        ],
    )
}

fn claim(target: &str, excerpt: Option<&str>, line: u32) -> Claim {
    let (page, anchor) = match target.split_once('#') {
        Some((p, a)) => (p.to_string(), Some(a.to_string())),
        None => (target.to_string(), None),
    };
    Claim {
        target: if page.contains(':') {
            ClaimTarget::ResourceId(page)
        } else {
            ClaimTarget::Path(page)
        },
        anchor,
        excerpt: excerpt.map(str::to_string),
        site: ClaimSite {
            file: "parser/src/tests/lists.rs".into(),
            local_path: None,
            line,
            test_fn: Some("t".into()),
            fn_line: None,
            fn_source: None,
            krate: Some("parser".into()),
            repo: None,
            rev: None,
            scope: 0,
        },
    }
}

fn sidecar(text: &str) -> Sidecar {
    Sidecar::parse(
        text,
        "spec-map/docs/modules/lists/pages/ordered.adoc.toml",
        "docs/modules/lists/pages/ordered.adoc",
        0,
    )
    .unwrap()
}

fn states(db: &CoverageDatabase, page: usize) -> Vec<BlockState> {
    db.pages[page]
        .coverage
        .blocks
        .iter()
        .map(|b| b.state)
        .collect()
}

#[test]
fn structural_defaults_without_a_sidecar() {
    let db = resolve(&[sample_page(None)], Vec::new(), &[]);
    assert!(db.errors.is_empty(), "{:?}", db.errors);
    assert_eq!(
        states(&db, 0),
        vec![
            BlockState::Unclassified,
            BlockState::Unclassified,
            BlockState::NonNormative,
            BlockState::Unclassified,
            BlockState::Unclassified,
        ]
    );
    assert_eq!(db.pages[0].coverage.percent_verified(), 0);
    assert_eq!(
        db.lint
            .iter()
            .filter(|d| d.kind == DiagnosticKind::Unclassified)
            .count(),
        4
    );
}

#[test]
fn reviewed_sidecar_and_claims_resolve_to_states() {
    let sidecar = sidecar(
        r#"
reviewed = true
[[non-normative]]
excerpt = "Intro prose"
[[out-of-scope]]
excerpt = "the DocBook converter emits"
reason = "HTML5 only"
[[planned]]
excerpt = "Footnotes may be defined once"
tracking = "o/r#1"
"#,
    );
    let claims = vec![claim(
        "lists/pages/ordered.adoc",
        Some("add a marker character for each level of nesting"),
        12,
    )];
    let db = resolve(&[sample_page(None)], claims, &[sidecar]);
    assert!(db.errors.is_empty(), "{:?}", db.errors);
    assert_eq!(
        states(&db, 0),
        vec![
            BlockState::NonNormative,
            BlockState::Verified,
            BlockState::NonNormative,
            BlockState::OutOfScope,
            BlockState::Planned,
        ]
    );
    let blocks = &db.pages[0].coverage.blocks;
    assert_eq!(blocks[1].claims, vec![0]);
    assert_eq!(blocks[3].reason.as_deref(), Some("HTML5 only"));
    assert_eq!(
        blocks[4].tracking.as_ref().unwrap().url,
        "https://github.com/o/r/issues/1"
    );

    // verified / (verified + planned + uncovered + unclassified) = 1/2.
    assert_eq!(db.pages[0].coverage.counts.denominator(), 2);
    assert_eq!(db.pages[0].coverage.percent_verified(), 50);

    // The non-normative entry on prose is a heuristic disagreement.
    assert!(db
        .lint
        .iter()
        .any(|d| d.kind == DiagnosticKind::HeuristicDisagreement));
}

#[test]
fn whole_section_claims_skip_excluded_blocks() {
    let claims = vec![claim(
        "docs/modules/lists/pages/ordered.adoc#_nesting",
        None,
        1,
    )];
    let db = resolve(&[sample_page(None)], claims, &[]);
    assert!(db.errors.is_empty(), "{:?}", db.errors);
    let states = states(&db, 0);
    assert_eq!(states[1], BlockState::Verified);
    assert_eq!(states[2], BlockState::NonNormative);
    assert!(db.pages[0].coverage.blocks[2].claims.is_empty());
}

#[test]
fn contradictions_stale_planned_and_conflicts() {
    let sidecar = sidecar(
        r#"
[[non-normative]]
excerpt = "Intro prose"
[[planned]]
excerpt = "Footnotes may be defined once"
tracking = "o/r#1"
"#,
    );
    let claims = vec![
        claim("ordered.adoc", Some("Intro prose"), 5),
        claim("ordered.adoc", Some("Footnotes may be defined"), 9),
    ];
    let db = resolve(&[sample_page(None)], claims, &[sidecar]);
    assert_eq!(db.errors.len(), 1, "{:?}", db.errors);
    assert_eq!(db.errors[0].kind, DiagnosticKind::Contradiction);
    assert_eq!(db.errors[0].at, "parser/src/tests/lists.rs:5");
    assert!(db.errors[0].message.contains("ordered.adoc.toml"));

    // The planned block is verified now and the entry flagged stale.
    assert_eq!(states(&db, 0)[4], BlockState::Verified);
    assert!(db
        .lint
        .iter()
        .any(|d| d.kind == DiagnosticKind::StalePlanned));

    let conflicting = Sidecar::parse(
        "[[non-normative]]\nsection = \"_notes\"\n[[planned]]\nexcerpt = \"Footnotes\"\ntracking = \"o/r#2\"\n",
        "spec-map/ordered.adoc.toml",
        "ordered.adoc",
        0,
    )
    .unwrap();
    let db = resolve(&[sample_page(None)], Vec::new(), &[conflicting]);
    assert!(
        db.errors
            .iter()
            .any(|d| d.kind == DiagnosticKind::SidecarConflict),
        "{:?}",
        db.errors
    );
}

#[test]
fn unresolved_and_ambiguous_targets_are_errors() {
    let claims = vec![
        claim("nowhere.adoc", Some("x"), 1),
        claim("ordered.adoc", Some("text that drifted"), 2),
        claim("ordered.adoc#_missing", Some("Intro"), 3),
        // "of nesting" matches two blocks? No — make one that does:
        claim("ordered.adoc", Some("a"), 4),
    ];
    let db = resolve(&[sample_page(None)], claims, &[]);
    let kinds: Vec<DiagnosticKind> = db.errors.iter().map(|d| d.kind).collect();
    assert_eq!(
        kinds,
        vec![
            DiagnosticKind::UnknownPage,
            DiagnosticKind::NoMatch,
            DiagnosticKind::NoSection,
            DiagnosticKind::Ambiguous,
        ],
        "{:?}",
        db.errors
    );
    assert_eq!(db.errors[1].at, "parser/src/tests/lists.rs:2");
    assert!(db.errors[3].message.contains("longer excerpt"));
}

#[test]
fn claims_resolve_per_version_and_drift_is_not_an_error() {
    let mut old = sample_page(Some("1.0"));
    old.blocks[1].text = "Old wording of the nesting rule.".into();
    let new = sample_page(Some("2.0"));
    let claims = vec![
        claim("ordered.adoc", Some("add a marker character"), 1),
        claim("ordered.adoc", Some("Intro prose"), 2),
    ];
    let db = resolve(&[old, new], claims, &[]);
    assert!(db.errors.is_empty(), "{:?}", db.errors);
    assert_eq!(states(&db, 0)[1], BlockState::Unclassified);
    assert_eq!(states(&db, 1)[1], BlockState::Verified);
    assert_eq!(states(&db, 0)[0], BlockState::Verified);
    assert_eq!(states(&db, 1)[0], BlockState::Verified);
}

#[test]
fn scopes_and_resource_ids() {
    let mut other = sample_page(None);
    other.scope = 1;
    other.coords.component = "other".into();
    other.url = "other/lists/ordered.html".into();
    let pages = [sample_page(None), other];

    // A path claim from scope 0 never reaches scope 1's identical
    // path; a resource ID does.
    let mut cross = claim("other:lists:ordered.adoc", Some("Intro prose"), 2);
    cross.site.scope = 0;
    let claims = vec![claim("ordered.adoc", Some("Intro prose"), 1), cross];
    let db = resolve(&pages, claims, &[]);
    assert!(db.errors.is_empty(), "{:?}", db.errors);
    assert_eq!(db.pages[0].coverage.blocks[0].claims, vec![0]);
    assert_eq!(db.pages[1].coverage.blocks[0].claims, vec![1]);

    // Two distinct pages under one scope matching one suffix is
    // ambiguous.
    let mut twin = sample_page(None);
    twin.coords.module = "other".into();
    twin.repo_path = "docs/modules/other/pages/ordered.adoc".into();
    let db = resolve(
        &[sample_page(None), twin],
        vec![claim("pages/ordered.adoc", Some("Intro prose"), 1)],
        &[],
    );
    assert_eq!(db.errors[0].kind, DiagnosticKind::AmbiguousPage);
}

#[test]
fn path_suffix_matching_respects_boundaries() {
    assert!(path_matches(
        "docs/modules/ROOT/pages/x.adoc",
        "pages/x.adoc"
    ));
    assert!(path_matches(
        "docs/modules/ROOT/pages/x.adoc",
        "docs/modules/ROOT/pages/x.adoc"
    ));
    assert!(path_matches(
        "docs/modules/ROOT/pages/x.adoc",
        "./docs/modules/ROOT/pages/x.adoc"
    ));
    assert!(!path_matches("docs/modules/ROOT/pages/x.adoc", "s/x.adoc"));
    assert!(!path_matches("docs/modules/ROOT/pages/x.adoc", "y.adoc"));
}


#[test]
fn rollups_sum_pages_per_component_version() {
    let db = resolve(
        &[sample_page(Some("1.0")), sample_page(Some("2.0"))],
        vec![claim("ordered.adoc", Some("Intro prose"), 1)],
        &[],
    );
    let (components, total) = db.rollups();
    assert_eq!(components.len(), 2);
    assert_eq!(total.verified, 2);
    assert_eq!(total.unclassified, 6);
    assert_eq!(total.non_normative, 2);
    assert_eq!(total.percent_verified(), 25);
    assert_eq!(
        db.page(&db.pages[1].coords).unwrap().coverage,
        db.pages[1].coverage
    );
}

#[test]
fn every_block_gets_exactly_one_state_and_counts_cover_the_page() {
    let db = resolve(&[sample_page(None)], Vec::new(), &[]);
    let c = db.pages[0].coverage.counts;
    let total = c.verified + c.planned + c.uncovered + c.unclassified + c.non_normative + c.out_of_scope;
    assert_eq!(total, db.pages[0].coverage.blocks.len());
}

#[test]
fn diagnostics_print_location_then_message() {
    let db = resolve(&[sample_page(None)], vec![claim("nowhere.adoc", Some("x"), 7)], &[]);
    assert_eq!(db.errors.len(), 1);
    let s = db.errors[0].to_string();
    assert!(s.starts_with("parser/src/tests/lists.rs:7: "), "{s}");
    assert!(DiagnosticKind::UnknownPage.is_error());
    assert!(!DiagnosticKind::Unclassified.is_error());
}

#[test]
fn verified_blocks_are_exactly_the_claimed_ones() {
    let claims = vec![
        claim("ordered.adoc", Some("Intro prose"), 1),
        claim("ordered.adoc", Some("Intro prose about"), 2),
    ];
    let db = resolve(&[sample_page(None)], claims, &[]);
    for b in &db.pages[0].coverage.blocks {
        assert_eq!(b.state == BlockState::Verified, !b.claims.is_empty());
    }
    assert_eq!(db.pages[0].coverage.blocks[0].claims, vec![0, 1]);
}

#[test]
fn coverage_map_errors_come_in_entry_order_at_the_map() {
    let map = Sidecar::parse(
        "[[non-normative]]\nsection = \"_notes\"\n[[planned]]\nexcerpt = \"Footnotes\"\ntracking = \"o/r#2\"\n[[out-of-scope]]\nexcerpt = \"words found in no block\"\nreason = \"x\"\n",
        "spec-map/ordered.adoc.toml",
        "ordered.adoc",
        0,
    )
    .unwrap();
    let claims = vec![claim("ordered.adoc", Some("text that drifted"), 2)];
    let db = resolve(&[sample_page(None)], claims, &[map]);
    let marks: Vec<(DiagnosticKind, String)> = db.errors.iter().map(|d| (d.kind, d.at.clone())).collect();
    assert_eq!(
        marks,
        vec![
            // Entries apply list by list: out-of-scope before planned.
            (DiagnosticKind::NoMatch, "spec-map/ordered.adoc.toml".to_string()),
            (DiagnosticKind::SidecarConflict, "spec-map/ordered.adoc.toml".to_string()),
            (DiagnosticKind::NoMatch, "parser/src/tests/lists.rs:2".to_string()),
        ]
    );
}

#[test]
fn one_unclassified_finding_per_unclassified_block() {
    let map = sidecar("[[non-normative]]\nexcerpt = \"Intro prose\"\n");
    let claims = vec![claim("ordered.adoc", Some("add a marker character"), 1)];
    let db = resolve(&[sample_page(None), sample_page(Some("2.0"))], claims, &[map]);
    assert!(db.errors.is_empty(), "{:?}", db.errors);
    let unclassified_blocks = db
        .pages
        .iter()
        .flat_map(|p| p.coverage.blocks.iter())
        .filter(|b| b.state == BlockState::Unclassified)
        .count();
    let findings = db.lint.iter().filter(|d| d.kind == DiagnosticKind::Unclassified).count();
    assert_eq!(unclassified_blocks, 4);
    assert_eq!(findings, unclassified_blocks);
    // The excerpt marks prose non-normative: the heuristic disagrees, once
    // per version.
    let kinds: Vec<DiagnosticKind> = db.lint.iter().map(|d| d.kind).collect();
    assert_eq!(
        kinds,
        vec![
            DiagnosticKind::HeuristicDisagreement,
            DiagnosticKind::Unclassified,
            DiagnosticKind::Unclassified,
            DiagnosticKind::HeuristicDisagreement,
            DiagnosticKind::Unclassified,
            DiagnosticKind::Unclassified,
        ]
    );
}
