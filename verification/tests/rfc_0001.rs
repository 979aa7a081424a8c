use bokfell::coverage::model::{
    BlockState, Claim, ClaimSite, ClaimTarget, MeasuredPage, SpecBlock, StateCounts, StructuralKind,
};
use bokfell::coverage::report::{lint, table};
use bokfell::coverage::resolve::{resolve, CoverageDatabase, DiagnosticKind};
use bokfell::coverage::sidecar::Sidecar;
use bokfell::model::catalog::Coords;
use bokfell::model::resource::Family;
use bokfell::text::{excerpt_matches, normalize_whitespace};

fn block(text: &str, kind: StructuralKind, sections: &[&str], line: u32) -> SpecBlock {
    SpecBlock {
        context: match kind {
            StructuralKind::Prose => "paragraph".to_string(),
            StructuralKind::NonNormative => "listing".to_string(),
        },
        text: text.to_string(),
        start_line: line,
        line_count: 2,
        page_lines: Some((line, 2)),
        sections: sections.iter().map(|s| s.to_string()).collect(),
        kind,
    }
}

fn page(version: Option<&str>, blocks: Vec<SpecBlock>) -> MeasuredPage {
    let mut section_ids: Vec<String> = blocks.iter().flat_map(|b| b.sections.clone()).collect();
    section_ids.sort();
    section_ids.dedup();
    MeasuredPage {
        coords: Coords {
            component: "spec".into(),
            version: version.map(str::to_string),
            module: "ROOT".into(),
            family: Family::Page,
            path: "rules.adoc".into(),
        },
        url: match version {
            Some(v) => format!("spec/{v}/rules.html"),
            None => "spec/rules.html".into(),
        },
        repo_path: "docs/modules/ROOT/pages/rules.adoc".into(),
        scope: 0,
        blocks,
        section_ids,
    }
}

/// A page with two sections: a normative rule, a listing, and a note.
fn rules_page(version: Option<&str>) -> MeasuredPage {
    page(
        version,
        vec![
            block("An introduction.", StructuralKind::Prose, &[], 3),
            block(
                "A widget MUST be frobbed before use.",
                StructuralKind::Prose,
                &["_rules"],
                7,
            ),
            block(
                "----\nfrob(widget)\n----",
                StructuralKind::NonNormative,
                &["_rules"],
                10,
            ),
            block(
                "Frobbing twice is harmless.",
                StructuralKind::Prose,
                &["_rules"],
                14,
            ),
            block(
                "Legacy widgets emit DocBook.",
                StructuralKind::Prose,
                &["_notes"],
                18,
            ),
        ],
    )
}

fn claim(file: &str, line: u32, target: &str, excerpt: Option<&str>) -> Claim {
    let (path, anchor) = match target.split_once('#') {
        Some((p, a)) => (p.to_string(), Some(a.to_string())),
        None => (target.to_string(), None),
    };
    Claim {
        target: if path.contains(':') {
            ClaimTarget::ResourceId(path)
        } else {
            ClaimTarget::Path(path)
        },
        anchor,
        excerpt: excerpt.map(str::to_string),
        site: ClaimSite {
            file: file.to_string(),
            local_path: None,
            line,
            test_fn: Some("a_test".into()),
            fn_line: None,
            fn_source: None,
            krate: Some("widgets".into()),
            repo: None,
            rev: None,
            scope: 0,
        },
    }
}

fn sidecar(text: &str) -> Sidecar {
    Sidecar::parse(
        text,
        "spec-map/docs/modules/ROOT/pages/rules.adoc.toml",
        "rules.adoc",
        0,
    )
    .unwrap()
}

fn states(db: &CoverageDatabase, page: usize) -> Vec<BlockState> {
    db.pages[page]
        .coverage
        .blocks
        .iter()
        .map(|b| b.state)
        .collect()
}

#[test]
fn claims_and_classification_are_separate_facts() {
    // Two claims from unrelated files, in no particular order, and a
    // sidecar that knows nothing about either: each fact stands alone.
    let claims = vec![
        claim(
            "crates/b/tests/late.rs",
            90,
            "pages/rules.adoc",
            Some("harmless"),
        ),
        claim(
            "crates/a/src/tests/early.rs",
            4,
            "rules.adoc",
            Some("MUST be frobbed"),
        ),
    ];
    let map = sidecar("reviewed = true\n[[non-normative]]\nexcerpt = \"An introduction.\"\n");
    let db = resolve(&[rules_page(None)], claims, &[map]);
    assert!(db.errors.is_empty(), "{:?}", db.errors);
    assert_eq!(
        states(&db, 0),
        [
            BlockState::NonNormative,
            BlockState::Verified,
            BlockState::NonNormative,
            BlockState::Verified,
            BlockState::Uncovered,
        ]
    );

    // Block granularity: the claim covers the whole paragraph it quotes.
    assert_eq!(db.pages[0].coverage.blocks[1].claims, [1]);
    assert_eq!(db.pages[0].coverage.blocks[3].claims, [0]);
}

#[test]
fn the_denominator_comes_from_the_spec_itself() {
    // No test mentions this page at all: every normative block is still
    // counted (uncovered once reviewed, unclassified before), with zero
    // test-side boilerplate.
    let db = resolve(
        &[rules_page(None)],
        Vec::new(),
        &[sidecar("reviewed = true\n")],
    );
    assert_eq!(db.pages[0].coverage.counts.uncovered, 4);
    assert_eq!(db.pages[0].coverage.counts.denominator(), 4);
    assert_eq!(db.pages[0].coverage.percent_verified(), 0);

    let db = resolve(&[rules_page(None)], Vec::new(), &[]);
    assert_eq!(db.pages[0].coverage.counts.unclassified, 4);
    assert_eq!(db.pages[0].coverage.counts.denominator(), 4);
}

#[test]
fn every_block_resolves_to_exactly_one_state() {
    // The six states, each block exactly one of them.
    let map = sidecar(
        "[[out-of-scope]]\nexcerpt = \"DocBook\"\nreason = \"HTML5 only\"\n\
         [[planned]]\nexcerpt = \"harmless\"\ntracking = \"o/r#1\"\n",
    );
    let db = resolve(
        &[rules_page(None)],
        vec![claim("t.rs", 1, "rules.adoc", Some("MUST be frobbed"))],
        &[map],
    );
    assert!(db.errors.is_empty(), "{:?}", db.errors);
    let resolved = states(&db, 0);
    assert_eq!(
        resolved,
        [
            BlockState::Unclassified,
            BlockState::Verified,
            BlockState::NonNormative,
            BlockState::Planned,
            BlockState::OutOfScope,
        ]
    );
    assert_eq!(
        db.pages[0].coverage.blocks.len(),
        rules_page(None).blocks.len()
    );

    // Which states count in the denominator, per the table.
    for state in BlockState::all() {
        let expected = !matches!(state, BlockState::OutOfScope | BlockState::NonNormative);
        assert_eq!(state.in_denominator(), expected, "{state:?}");
    }
    assert_eq!(db.pages[0].coverage.counts.denominator(), 3);
}

#[test]
fn out_of_scope_and_planned_semantics() {
    let map = sidecar(
        "reviewed = true\n\
         [[out-of-scope]]\nexcerpt = \"DocBook\"\nreason = \"HTML5 only\"\n\
         [[planned]]\nexcerpt = \"harmless\"\ntracking = \"o/r#1\"\n",
    );
    let db = resolve(
        &[rules_page(None)],
        vec![claim("t.rs", 1, "rules.adoc", Some("MUST be frobbed"))],
        &[map],
    );
    let counts = db.pages[0].coverage.counts;

    // Out of scope leaves the denominator but its count stays reported.
    assert_eq!(counts.out_of_scope, 1);
    assert_eq!(counts.denominator(), 3);
    assert!(table(&db).contains("OUT-OF-SCOPE"));

    // Planned stays in the denominator: 1 verified of (1 + 1 planned +
    // 1 uncovered) — the headline does not improve until it ships.
    assert_eq!(counts.planned, 1);
    assert_eq!(counts.percent_verified(), 33);
    let planned = &db.pages[0].coverage.blocks[3];
    assert_eq!(
        planned.tracking.as_ref().unwrap().url,
        "https://github.com/o/r/issues/1"
    );
    let out = &db.pages[0].coverage.blocks[4];
    assert_eq!(out.reason.as_deref(), Some("HTML5 only"));

    // Unclassified blocks are lint findings on unreviewed pages.
    let db = resolve(&[rules_page(None)], Vec::new(), &[]);
    let unclassified: Vec<_> = db
        .lint
        .iter()
        .filter(|d| d.kind == DiagnosticKind::Unclassified)
        .collect();
    assert_eq!(unclassified.len(), 4);
    assert!(lint(&db).contains("unclassified finding(s)"));
}

#[test]
fn conflict_precedence_is_deterministic() {
    // Claim on planned → verified plus a stale-planned lint finding.
    let map = sidecar("[[planned]]\nexcerpt = \"harmless\"\ntracking = \"o/r#1\"\n");
    let db = resolve(
        &[rules_page(None)],
        vec![claim("t.rs", 3, "rules.adoc", Some("Frobbing twice"))],
        &[map],
    );
    assert!(db.errors.is_empty(), "{:?}", db.errors);
    assert_eq!(states(&db, 0)[3], BlockState::Verified);
    let stale = db
        .lint
        .iter()
        .find(|d| d.kind == DiagnosticKind::StalePlanned)
        .expect("stale planned finding");
    assert_eq!(stale.at, "spec-map/docs/modules/ROOT/pages/rules.adoc.toml");

    // Claim on non-normative / out-of-scope → hard error naming both
    // the claim site and the sidecar entry.
    for entry in [
        "[[non-normative]]\nexcerpt = \"DocBook\"\n",
        "[[out-of-scope]]\nexcerpt = \"DocBook\"\nreason = \"HTML5 only\"\n",
    ] {
        let db = resolve(
            &[rules_page(None)],
            vec![claim("t.rs", 8, "rules.adoc", Some("DocBook"))],
            &[sidecar(entry)],
        );
        assert_eq!(db.errors.len(), 1, "{:?}", db.errors);
        let error = &db.errors[0];
        assert_eq!(error.kind, DiagnosticKind::Contradiction);
        assert!(error.kind.is_error());
        assert_eq!(error.at, "t.rs:8");
        assert!(error.message.contains("rules.adoc.toml"), "{error:?}");
        assert!(error.message.contains("excerpt = \"DocBook\""), "{error:?}");
    }

    // Two lists on one block → hard error.
    let map = sidecar(
        "[[non-normative]]\nsection = \"_notes\"\n\
         [[planned]]\nexcerpt = \"DocBook\"\ntracking = \"o/r#2\"\n",
    );
    let db = resolve(&[rules_page(None)], Vec::new(), &[map]);
    assert_eq!(db.errors[0].kind, DiagnosticKind::SidecarConflict);
    assert!(db.errors[0]
        .message
        .contains("[[non-normative]] section = \"_notes\""));
    assert!(db.errors[0]
        .message
        .contains("[[planned]] excerpt = \"DocBook\""));

    // The same outcome whichever order the inputs arrive in.
    let map = sidecar("[[planned]]\nexcerpt = \"harmless\"\ntracking = \"o/r#1\"\n");
    let claims = vec![
        claim("t.rs", 3, "rules.adoc", Some("Frobbing twice")),
        claim("t.rs", 1, "rules.adoc", Some("MUST be frobbed")),
    ];
    let forward = resolve(
        &[rules_page(None)],
        claims.clone(),
        std::slice::from_ref(&map),
    );
    let reversed = resolve(
        &[rules_page(None)],
        claims.into_iter().rev().collect(),
        &[map],
    );
    assert_eq!(states(&forward, 0), states(&reversed, 0));
}

#[test]
fn the_headline_metric() {
    // percent verified = verified / (verified + planned + uncovered +
    // unclassified); out-of-scope and non-normative are outside it.
    let mut counts = StateCounts::default();
    for (state, n) in [
        (BlockState::Verified, 3),
        (BlockState::Planned, 1),
        (BlockState::Uncovered, 1),
        (BlockState::Unclassified, 1),
        (BlockState::OutOfScope, 10),
        (BlockState::NonNormative, 10),
    ] {
        for _ in 0..n {
            counts.add(state);
        }
    }
    assert_eq!(counts.denominator(), 6);
    assert_eq!(counts.percent_verified(), 50);
    assert_eq!(
        StateCounts::default().percent_verified(),
        100
    );
}

#[test]
fn claim_resolution_is_scoped_exact_and_per_version() {
    // Scoping: an identical path in another scan entry's repository
    // never collides; a resource ID reaches it.
    let mut foreign = rules_page(None);
    foreign.scope = 1;
    foreign.coords.component = "other".into();
    let claims = vec![
        claim("t.rs", 1, "rules.adoc", Some("MUST be frobbed")),
        claim("t.rs", 2, "other::rules.adoc", Some("MUST be frobbed")),
    ];
    let db = resolve(&[rules_page(None), foreign], claims, &[]);
    assert!(db.errors.is_empty(), "{:?}", db.errors);
    assert_eq!(db.pages[0].coverage.blocks[1].claims, [0]);
    assert_eq!(db.pages[1].coverage.blocks[1].claims, [1]);

    // Per version: the excerpt decides; drift in one version is not an
    // error, and a claim matching no version is.
    let mut old = rules_page(Some("1.0"));
    old.blocks[1].text = "A widget SHOULD be frobbed before use.".into();
    let new = rules_page(Some("2.0"));
    let claims = vec![
        claim("t.rs", 1, "rules.adoc", Some("MUST be frobbed")),
        claim("t.rs", 2, "rules.adoc", Some("wording that exists nowhere")),
        claim("t.rs", 3, "nowhere.adoc", Some("MUST be frobbed")),
    ];
    let db = resolve(&[old, new], claims, &[]);
    assert_eq!(
        db.pages[0].coverage.blocks[1].state,
        BlockState::Unclassified
    );
    assert_eq!(db.pages[1].coverage.blocks[1].state, BlockState::Verified);
    let kinds: Vec<DiagnosticKind> = db.errors.iter().map(|d| d.kind).collect();
    assert_eq!(
        kinds,
        [DiagnosticKind::NoMatch, DiagnosticKind::UnknownPage]
    );
    assert_eq!(db.errors[0].at, "t.rs:2");

    // Exact after normalization: whitespace is forgiven, words are not.
    assert!(excerpt_matches(
        "A widget MUST\n  be frobbed",
        "widget MUST be"
    ));
    assert!(!excerpt_matches(
        "A widget MUST be frobbed",
        "widget must be"
    ));

    // Ambiguity within one version's page is a hard error, and a
    // #anchor scope disambiguates.
    let mut twins = rules_page(None);
    twins.blocks[0].text = "Frobbing is described in the rules.".into();
    let db = resolve(
        &[twins.clone()],
        vec![claim("t.rs", 5, "rules.adoc", Some("Frobbing"))],
        &[],
    );
    assert_eq!(db.errors[0].kind, DiagnosticKind::Ambiguous);
    assert!(db.errors[0].message.contains("#anchor"));
    let db = resolve(
        &[twins],
        vec![claim("t.rs", 5, "rules.adoc#_rules", Some("Frobbing"))],
        &[],
    );
    assert!(db.errors.is_empty(), "{:?}", db.errors);

    // Set union: any number of tests may claim one block, from any file
    // in any order, and the block is verified exactly once.
    let claims = vec![
        claim("b/tests/z.rs", 1, "rules.adoc", Some("MUST be frobbed")),
        claim("a/src/tests/a.rs", 9, "rules.adoc", Some("A widget MUST")),
        claim("a/src/tests/a.rs", 2, "rules.adoc#_rules", None),
    ];
    let db = resolve(&[rules_page(None)], claims, &[]);
    assert!(db.errors.is_empty(), "{:?}", db.errors);
    assert_eq!(db.pages[0].coverage.blocks[1].claims, [0, 1, 2]);
    assert_eq!(db.pages[0].coverage.counts.verified, 2);
}

#[test]
fn excerpts_normalize_whitespace_only() {
    assert_eq!(
        normalize_whitespace("  keep *markup*\n\tintact  "),
        "keep *markup* intact"
    );
    assert!(excerpt_matches(
        "see xref:a.adoc[A] for `code`",
        "xref:a.adoc[A] for `code`"
    ));
    assert!(!excerpt_matches("see xref:a.adoc[A]", "see A"));
}
