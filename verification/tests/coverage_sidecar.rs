use bokfell::coverage::model::Tracking;
use bokfell::coverage::sidecar::{Sidecar, SidecarError, SidecarKind};

const SAMPLE: &str = r#"
reviewed = true

[[non-normative]]
section = "_a_note_on_terminology"

[[non-normative]]
excerpt = "Asciidoctor also supports"

[[out-of-scope]]
excerpt = "the DocBook converter emits"
reason = "asciidoc-html5 targets HTML5 only; no DocBook backend planned"

[[planned]]
excerpt = "Footnotes may be defined once and reused"
tracking = "asciidoc-rs/asciidoc-html5#341"
"#;

#[test]
fn parses_the_rfc_example() {
    let sidecar = Sidecar::parse(SAMPLE, "spec-map/x.adoc.toml", "x.adoc", 0).unwrap();
    assert!(sidecar.reviewed);
    assert_eq!(sidecar.entries.len(), 4);
    assert_eq!(sidecar.entries[0].kind, SidecarKind::NonNormative);
    assert_eq!(
        sidecar.entries[0].section.as_deref(),
        Some("_a_note_on_terminology")
    );
    assert_eq!(sidecar.entries[2].kind, SidecarKind::OutOfScope);
    assert!(sidecar.entries[2].reason.is_some());
    let planned = &sidecar.entries[3];
    assert_eq!(planned.kind, SidecarKind::Planned);
    assert_eq!(
        planned.tracking.as_ref().unwrap().url,
        "https://github.com/asciidoc-rs/asciidoc-html5/issues/341"
    );
}

#[test]
fn requires_reason_and_tracking() {
    let missing_reason = "[[out-of-scope]]\nexcerpt = \"x\"\n";
    let err = Sidecar::parse(missing_reason, "f.toml", "x.adoc", 0).unwrap_err();
    assert!(err.to_string().contains("`reason` is required"), "{:?}", err);

    let missing_tracking = "[[planned]]\nexcerpt = \"x\"\n";
    let err = Sidecar::parse(missing_tracking, "f.toml", "x.adoc", 0).unwrap_err();
    assert!(err.to_string().contains("`tracking` is required"), "{:?}", err);

    let no_target = "[[non-normative]]\nreason = \"x\"\n";
    let err = Sidecar::parse(no_target, "f.toml", "x.adoc", 0).unwrap_err();
    assert!(
        err.to_string().contains("needs `section` or `excerpt`"),
        "{:?}", err
    );

    let unknown_key = "[[non-normative]]\nexcerpt = \"x\"\nbogus = 1\n";
    assert!(Sidecar::parse(unknown_key, "f.toml", "x.adoc", 0).is_err());
}

#[test]
fn tracking_references_template_to_github() {
    assert_eq!(
        Tracking::parse("asciidoc-rs/bokfell#12").url,
        "https://github.com/asciidoc-rs/bokfell/issues/12"
    );
    assert_eq!(
        Tracking::parse("https://example.org/t/1").url,
        "https://example.org/t/1"
    );
    assert_eq!(Tracking::parse("JIRA-42").url, "JIRA-42");
}

#[test]
fn a_shorthand_without_an_issue_number_is_kept_as_written() {
    let t = Tracking::parse("o/r#");
    assert_eq!(t.raw, "o/r#");
    assert_eq!(t.url, "o/r#");
    assert_eq!(Tracking::parse(" o/r#7 ").url, "https://github.com/o/r/issues/7");
}


#[test]
fn invalid_toml_names_the_file() {
    let err = Sidecar::parse("[[non-normative\n", "spec-map/bad.toml", "x.adoc", 0).unwrap_err();
    match &err {
        SidecarError::Invalid { file, .. } => assert_eq!(file, "spec-map/bad.toml"),
        other => panic!("unexpected {:?}", other),
    }
    assert!(err.to_string().starts_with("spec-map/bad.toml: "), "{:?}", err);
}

#[test]
fn entry_display_quotes_its_targets() {
    let s = Sidecar::parse("[[non-normative]]\nsection = \"_a\"\nexcerpt = \"b\"\n", "f.toml", "x.adoc", 3).unwrap();
    assert_eq!(s.scope, 3);
    assert!(!s.reviewed);
    assert_eq!(s.entries[0].display(), "[[non-normative]] section = \"_a\" excerpt = \"b\"");
    assert_eq!(SidecarKind::OutOfScope.list_name(), "out-of-scope");
}
