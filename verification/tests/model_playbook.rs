use bokfell::model::playbook::{path_glob_match, ScanConfig, SourceConfig};

#[test]
fn path_globs() {
    assert!(path_glob_match("docs/**", "docs/modules/ROOT/pages/x.adoc"));
    assert!(path_glob_match(
        "docs/**/pages/*.adoc",
        "docs/modules/ROOT/pages/x.adoc"
    ));
    assert!(path_glob_match(
        "**/x.adoc",
        "docs/modules/ROOT/pages/x.adoc"
    ));
    assert!(path_glob_match("**/x.adoc", "x.adoc"));
    assert!(!path_glob_match(
        "docs/*/x.adoc",
        "docs/modules/ROOT/x.adoc"
    ));
    assert!(path_glob_match("docs/*/x.adoc", "docs/modules/x.adoc"));
    assert!(!path_glob_match("docs/**", "other/x.adoc"));
    assert!(path_glob_match(
        "docs/modules/rfcs/pages/x.adoc",
        "docs/modules/rfcs/pages/x.adoc"
    ));
}

fn scan(repo: Option<&str>, path: Option<&str>, pages: &[&str]) -> ScanConfig {
    ScanConfig {
        repo: repo.map(str::to_string),
        path: path.map(str::to_string),
        reference: None,
        tests: Vec::new(),
        spec_map: None,
        pages: pages.iter().map(|s| s.to_string()).collect(),
    }
}

#[test]
fn scan_entries_need_exactly_one_root_and_filter_pages() {
    assert!(scan(Some("x"), Some("y"), &[]).validate().is_err());
    assert!(scan(None, None, &[]).validate().is_err());
    assert!(scan(Some("x"), None, &[]).validate().is_ok());
    let git = scan(Some("https://example.org/r"), None, &[]);
    assert!(git.measures("anything/at/all.adoc"));
    let local = scan(None, Some("."), &["docs/modules/rfcs/**"]);
    assert!(local.measures("docs/modules/rfcs/pages/0001.adoc"));
    assert!(!local.measures("docs/modules/ROOT/pages/index.adoc"));
}

#[test]
fn sources_need_path_or_url() {
    let mut s = SourceConfig {
        path: Some("docs".into()),
        url: None,
        branches: Vec::new(),
        tags: Vec::new(),
        start_path: String::new(),
        version_from_ref: false,
        coverage: Vec::new(),
        coverage_prefix: None,
    };
    assert!(!s.is_git());
    assert!(s.validate().is_ok());
    s.url = Some("https://example.org/r".into());
    assert!(s.validate().is_err());
    s.path = None;
    assert!(s.is_git());
    assert!(s.validate().is_ok());
}
