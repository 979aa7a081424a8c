use bokfell::coverage::claims::{
    claim_file, claims_from_events, entry_use, manifest_package_name, parse_invocation, scan_events, EntryUse, ScanError,
    SourceEvent,
};
use bokfell::coverage::model::{ClaimSite, ClaimTarget};

fn lits(v: &[&str]) -> Option<Vec<String>> {
    Some(v.iter().map(|s| s.to_string()).collect())
}

#[test]
fn the_three_claim_forms_parse() {
    let (t, a, e) = parse_invocation(lits(&["ref/docs/modules/lists/pages/ordered.adoc", "To nest"])).unwrap();
    assert_eq!(t, ClaimTarget::Path("ref/docs/modules/lists/pages/ordered.adoc".into()));
    assert_eq!(a, None);
    assert_eq!(e.as_deref(), Some("To nest"));
    let (_, a, e) = parse_invocation(lits(&["docs/x.adoc#_intro", "scoped excerpt"])).unwrap();
    assert_eq!(a.as_deref(), Some("_intro"));
    assert_eq!(e.as_deref(), Some("scoped excerpt"));
    let (t, a, e) = parse_invocation(lits(&["./docs/x.adoc#_whole"])).unwrap();
    assert_eq!(t, ClaimTarget::Path("docs/x.adoc".into()));
    assert_eq!(a.as_deref(), Some("_whole"));
    assert_eq!(e, None);
    let (t, _, _) = parse_invocation(lits(&["component:module:page.adoc", "cross repo"])).unwrap();
    assert_eq!(t, ClaimTarget::ResourceId("component:module:page.adoc".into()));
}

#[test]
fn malformed_invocations_say_what_is_wrong() {
    let bad = |args: Option<Vec<String>>| parse_invocation(args).unwrap_err();
    assert!(bad(lits(&[])).contains("expected a page path"));
    assert!(bad(lits(&["p.adoc"])).contains("#anchor"));
    assert!(bad(None).contains("string literal"));
    assert!(bad(lits(&["p.adoc", "a", "b"])).contains("at most two"));
    assert!(bad(lits(&["p.adoc#", "a"])).contains("empty #anchor"));
    assert!(bad(lits(&["p.adoc", "  "])).contains("empty excerpt"));
    assert!(bad(lits(&["#a", "x"])).contains("empty page path"));
    let err = ScanError::Invocation { file: "html5/src/tests/lists.rs".into(), line: 3, message: "x".into() };
    assert!(err.to_string().starts_with("html5/src/tests/lists.rs:3:"));
    let err = ScanError::Parse { file: "html5/src/tests/lists.rs".into(), message: "m".into() };
    assert!(err.to_string().starts_with("html5/src/tests/lists.rs: cannot parse"));
}

#[test]
fn manifests_name_their_package() {
    assert_eq!(
        manifest_package_name("[package]\nname = \"x\"\n").as_deref(),
        Some("x")
    );
    assert_eq!(manifest_package_name("[workspace]\nmembers = []\n"), None);
    assert_eq!(manifest_package_name("not toml ["), None);
}

#[test]
fn scanned_files_and_entries() {
    assert_eq!(claim_file("mycrate/src/tests", "a.rs"), "mycrate/src/tests/a.rs");
    assert_eq!(claim_file("", "a.rs"), "a.rs");
    assert_eq!(claim_file("/x/", "a.rs"), "x/a.rs");
    assert_eq!(entry_use(".git", true, None), EntryUse::Skip);
    assert_eq!(entry_use("target", true, None), EntryUse::Skip);
    assert_eq!(entry_use("src", true, None), EntryUse::Descend);
    assert_eq!(entry_use("a.rs", false, Some("rs")), EntryUse::Scan);
    assert_eq!(entry_use("notes.txt", false, Some("txt")), EntryUse::Skip);
}

fn scan_site() -> ClaimSite {
    ClaimSite {
        file: "html5/src/tests/lists.rs".to_string(),
        local_path: None,
        line: 0,
        test_fn: None,
        fn_line: None,
        fn_source: None,
        krate: Some("asciidoc-html5".to_string()),
        repo: None,
        rev: None,
        scope: 0,
    }
}

fn start(name: &str, first: u32, last: u32) -> SourceEvent {
    SourceEvent::FnStart { name: name.to_string(), start: first, end: last }
}

fn mac(name: &str, line: u32, args: Option<Vec<String>>) -> SourceEvent {
    SourceEvent::Macro { name: name.to_string(), line, literals: args }
}

#[test]
fn claims_carry_their_innermost_enclosing_function() {
    let text = "\nmacro_rules! verifies { ($($t:tt)*) => {}; }\n\nmod nested {\n    #[test]\n    fn nested_ordered_markers() {\n        verifies!(\n            \"ref/asciidoc-lang/docs/modules/lists/pages/ordered.adoc\",\n            \"To nest an ordered list\"\n        );\n        let _ = 1;\n        if true {\n            crate::verifies!(\"docs/modules/ROOT/pages/x.adoc#_intro\", \"scoped excerpt\");\n        }\n    }\n}\n\nstruct S;\nimpl S {\n    fn method() {\n        verifies!(\"docs/modules/ROOT/pages/x.adoc#_whole\");\n    }\n}\n\nverifies!(\"component:module:page.adoc\", \"cross repo\");\n";
    let events = vec![
        mac("macro_rules", 2, None),
        start("nested_ordered_markers", 5, 15),
        mac("verifies", 7, lits(&["ref/asciidoc-lang/docs/modules/lists/pages/ordered.adoc", "To nest an ordered list"])),
        mac("verifies", 13, lits(&["docs/modules/ROOT/pages/x.adoc#_intro", "scoped excerpt"])),
        SourceEvent::FnEnd,
        start("method", 20, 22),
        mac("println", 20, lits(&["not a claim"])),
        mac("verifies", 21, lits(&["docs/modules/ROOT/pages/x.adoc#_whole"])),
        SourceEvent::FnEnd,
        mac("verifies", 25, lits(&["component:module:page.adoc", "cross repo"])),
    ];
    let claims = claims_from_events(text, &events, &scan_site()).unwrap();
    assert_eq!(claims.len(), 4);
    assert_eq!(claims[0].target, ClaimTarget::Path("ref/asciidoc-lang/docs/modules/lists/pages/ordered.adoc".into()));
    assert_eq!(claims[0].site.line, 7);
    assert_eq!(claims[0].site.test_fn.as_deref(), Some("nested_ordered_markers"));
    assert_eq!(claims[0].site.krate.as_deref(), Some("asciidoc-html5"));
    assert_eq!(claims[0].site.file, "html5/src/tests/lists.rs");
    assert_eq!(claims[1].anchor.as_deref(), Some("_intro"));
    assert_eq!(claims[1].excerpt.as_deref(), Some("scoped excerpt"));
    assert_eq!(claims[2].site.test_fn.as_deref(), Some("method"));
    assert_eq!(claims[2].excerpt, None);
    assert_eq!(claims[3].target, ClaimTarget::ResourceId("component:module:page.adoc".into()));
    assert_eq!(claims[3].site.test_fn, None);
    assert_eq!(claims[3].site.line, 25);
    // The enclosing function is captured whole (attribute to closing
    // brace) with the module's indentation stripped.
    assert_eq!(claims[0].site.fn_line, Some(5));
    let source = claims[0].site.fn_source.as_deref().unwrap();
    assert!(source.starts_with("#[test]\nfn nested_ordered_markers() {"), "{source}");
    assert!(source.ends_with("    }\n}"), "{source}");
    assert!(source.contains("\n    verifies!(\n"), "{source}");
    assert_eq!(claims[1].site.fn_source, claims[0].site.fn_source);
    assert_eq!(claims[2].site.fn_line, Some(20));
    assert_eq!(claims[2].site.fn_source.as_deref(), Some("fn method() {\n    verifies!(\"docs/modules/ROOT/pages/x.adoc#_whole\");\n}"));
    assert_eq!(claims[3].site.fn_source, None);
    assert_eq!(claims[3].site.fn_line, None);
}

#[test]
fn the_first_malformed_invocation_fails_the_file() {
    let events = vec![
        start("t", 1, 4),
        mac("verifies", 1, lits(&["p.adoc", "fine"])),
        mac("verifies", 3, None),
        mac("verifies", 4, lits(&[])),
        SourceEvent::FnEnd,
    ];
    let err = claims_from_events("fn t() {\n\n  verifies!(\"p.adoc\", 1);\n}", &events, &scan_site()).unwrap_err();
    match &err {
        ScanError::Invocation { line, message, .. } => {
            assert_eq!(*line, 3);
            assert!(message.contains("string literal"));
        },
        other => panic!("{other:?}"),
    }
    assert!(err.to_string().starts_with("html5/src/tests/lists.rs:3:"), "{}", err.to_string());
}

#[test]
fn parse_failures_name_the_scanned_file() {
    let err = scan_events("fn t( {", Err("expected `)`".to_string()), &scan_site()).unwrap_err();
    assert!(err.to_string().starts_with("html5/src/tests/lists.rs: cannot parse"), "{}", err.to_string());
    let text = "fn t() {\r\n\tverifies!(\"p.adoc\", \"x\");\r\n}\r\n";
    let ok = scan_events(text, Ok(vec![start("t", 1, 3), mac("verifies", 2, lits(&["p.adoc", "x"])), SourceEvent::FnEnd]), &scan_site()).unwrap();
    assert_eq!(ok.len(), 1);
    assert_eq!(ok[0].site.test_fn.as_deref(), Some("t"));
    assert_eq!(ok[0].site.fn_source.as_deref(), Some("fn t() {\n\tverifies!(\"p.adoc\", \"x\");\n}"));
}
