use bokfell::coverage::model::{Claim, ClaimSite, ClaimTarget, StateCounts};
use bokfell::site::{claim_url, dashboard_cells, github_slug, join_repo_path, replace_all};

fn claim(repo: Option<&str>, rev: Option<&str>) -> Claim {
    Claim {
        target: ClaimTarget::Path("p.adoc".into()),
        anchor: None,
        excerpt: Some("x".into()),
        site: ClaimSite {
            file: "html5/src/tests/lists.rs".into(),
            local_path: None,
            line: 42,
            test_fn: None,
            fn_line: None,
            fn_source: None,
            krate: None,
            repo: repo.map(str::to_string),
            rev: rev.map(str::to_string),
            scope: 0,
        },
    }
}

#[test]
fn github_repos_link_without_configuration() {
    let c = claim(
        Some("https://github.com/asciidoc-rs/asciidoc-html5"),
        Some("abc"),
    );
    assert_eq!(
        claim_url(&c, None).as_deref(),
        Some("https://github.com/asciidoc-rs/asciidoc-html5/blob/abc/html5/src/tests/lists.rs#L42")
    );
    let ssh = claim(
        Some("git@github.com:asciidoc-rs/asciidoc-html5.git"),
        Some("abc"),
    );
    assert!(claim_url(&ssh, None)
        .unwrap()
        .contains("/asciidoc-rs/asciidoc-html5/blob/"));

    assert_eq!(
        claim_url(&claim(Some("https://gitlab.com/o/r"), Some("abc")), None),
        None
    );
    assert_eq!(
        claim_url(&claim(Some("https://github.com/o/r"), None), None),
        None
    );
}

#[test]
fn link_template_substitutes_every_token() {
    let c = claim(Some("https://gitlab.com/o/r"), Some("abc"));
    assert_eq!(
        claim_url(&c, Some("{repo_url}/-/blob/{rev}/{path}#L{line} ({repo})")).as_deref(),
        Some("https://gitlab.com/o/r/-/blob/abc/html5/src/tests/lists.rs#L42 (https://gitlab.com/o/r)")
    );
}

#[test]
fn repo_paths_join_cleanly() {
    assert_eq!(join_repo_path("", "modules/x.adoc"), "modules/x.adoc");
    assert_eq!(
        join_repo_path("docs/", "modules/x.adoc"),
        "docs/modules/x.adoc"
    );
    assert_eq!(join_repo_path("//docs//", "x.adoc"), "docs/x.adoc");
    assert_eq!(join_repo_path("/", "x.adoc"), "x.adoc");
}

#[test]
fn slugs_need_exactly_owner_and_name() {
    assert_eq!(github_slug("https://github.com/o/r.git/").as_deref(), Some("o/r"));
    assert_eq!(github_slug("ssh://git@github.com/o/r").as_deref(), Some("o/r"));
    assert_eq!(github_slug("https://github.com/o"), None);
    assert_eq!(github_slug("https://github.com/o/r/tree/x"), None);
    assert_eq!(replace_all("a{x}b{x}", "{x}", "yy"), "ayybyy");
    assert_eq!(replace_all("aaa", "aa", "b"), "ba");
}

#[test]
fn dashboard_cells_show_bar_widths_and_review_queue() {
    let counts = StateCounts { verified: 1, planned: 1, uncovered: 1, unclassified: 1, out_of_scope: 2, non_normative: 3 };
    let cells = dashboard_cells(&counts);
    assert!(cells.starts_with("<td class=\"state\"><span class=\"cov-low\">25%</span> "));
    assert!(cells.contains("title=\"1 verified, 1 planned, 1 uncovered, 1 unclassified of 4\""));
    assert!(cells.contains("<span class=\"verified\" style=\"width:25%\"></span>"));
    assert!(cells.contains("<td class=\"num\"><span class=\"review-queue\">1</span></td>"));
    assert!(cells.ends_with("<td class=\"num\">2</td><td class=\"num\">3</td>"));
    let empty = dashboard_cells(&StateCounts::default());
    assert!(empty.contains("cov-high\">100%"));
    assert!(empty.contains("width:0%"));
}
