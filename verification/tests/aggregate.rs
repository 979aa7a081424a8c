use bokfell::aggregate::{
    branch_probe, cache_key, collected_root, excluded_by_negation, export_dir_name, fnv1a64, glob_match,
    matches_patterns, no_matching_ref, retry_as_tag, sanitize, select_refs, tag_probe, wants_head,
    AggregateError, GitSource,
};

#[test]
fn glob_and_negation_matching() {
    assert!(glob_match("v*", "v1.2.3"));
    assert!(glob_match("*", "anything"));
    assert!(glob_match("release/*", "release/2.0"));
    assert!(!glob_match("v*", "main"));

    let patterns = |v: &[&str]| v.iter().map(|s| s.to_string()).collect::<Vec<_>>();
    assert!(matches_patterns("v1.2", &patterns(&["v*"])));
    assert!(!matches_patterns("v1.2", &patterns(&["v*", "!v1.*"])));
    assert!(matches_patterns("v2.0", &patterns(&["v*", "!v1.*"])));
    assert!(!matches_patterns("main", &patterns(&["v*"])));
}

#[test]
fn negation_applies_to_head_resolution() {
    let patterns: Vec<String> = vec!["HEAD".to_string(), "!main".to_string()];
    assert!(excluded_by_negation("main", &patterns));
    assert!(!excluded_by_negation("develop", &patterns));
}

#[test]
fn export_keys_distinguish_lossy_start_paths() {
    assert_ne!(fnv1a64(b"docs/a"), fnv1a64(b"docs_a"));
    assert_eq!(sanitize("docs/a"), sanitize("docs_a"));
}

#[test]
fn cache_keys_are_stable_and_distinct() {
    let a = cache_key("https://github.com/asciidoc-rs/asciidoc-html5");
    let b = cache_key("https://github.com/asciidoc-rs/asciidoc-parser");
    assert_ne!(a, b);
    assert_eq!(
        a,
        cache_key("https://github.com/asciidoc-rs/asciidoc-html5")
    );
    assert!(a.starts_with("asciidoc-html5-"));
}

#[test]
fn fnv1a64_matches_the_reference_vectors() {
    assert_eq!(fnv1a64(b""), 0xcbf2_9ce4_8422_2325);
    assert_eq!(fnv1a64(b"a"), 0xaf63_dc4c_8601_ec8c);
    assert_eq!(fnv1a64(b"foobar"), 0x8594_4171_f739_67e8);
}

#[test]
fn cache_and_export_names_are_hex_suffixed() {
    let k = cache_key("git@host:team/repo.git");
    assert_eq!(k, format!("repo.git-{:016x}", fnv1a64(b"git@host:team/repo.git")));
    assert_eq!(export_dir_name(""), format!("_root-{:08x}", fnv1a64(b"") as u32));
    assert_eq!(export_dir_name("docs/a b"), format!("docs_a_b-{:08x}", fnv1a64(b"docs/a b") as u32));
    assert_eq!(sanitize(""), "_root");
}

fn source(branches: &[&str], tags: &[&str]) -> GitSource {
    GitSource {
        url: "https://example.org/r.git".into(),
        branches: branches.iter().map(|s| s.to_string()).collect(),
        tags: tags.iter().map(|s| s.to_string()).collect(),
        start_path: "docs".into(),
        version_from_ref: true,
    }
}

fn r(full: &str, id: Option<&str>) -> (String, Option<String>) {
    (full.to_string(), id.map(str::to_string))
}

#[test]
fn selection_deduplicates_branches_and_keeps_tags_distinct() {
    let src = source(&["HEAD", "rel*"], &["v*", "!v0*"]);
    assert!(wants_head(&src));
    let got = select_refs(
        &src,
        Some(("main".into(), Ok("c0".into()))),
        &[r("refs/remotes/origin/release", Some("c1")), r("refs/remotes/origin/HEAD", Some("c9"))],
        &[r("refs/heads/release", Some("c2")), r("refs/heads/relx", None), r("refs/heads/main", Some("c3"))],
        &[r("refs/tags/v1.0", Some("c4")), r("refs/tags/v0.9", Some("c5")), r("refs/tags/release", Some("c6"))],
    )
    .unwrap();
    let got: Vec<(&str, &str)> = got.iter().map(|(a, b)| (a.as_str(), b.as_str())).collect();
    assert_eq!(got, vec![("main", "c0"), ("release", "c1"), ("v1.0", "c4")]);
}

#[test]
fn excluded_head_is_skipped_and_unpeelable_head_fails() {
    let src = source(&["HEAD", "!main"], &[]);
    let got = select_refs(&src, Some(("main".into(), Err("boom".into()))), &[], &[], &[]).unwrap();
    assert!(got.is_empty());
    let src = source(&[], &[]);
    assert!(wants_head(&src));
    let err = select_refs(&src, Some(("dev".into(), Err("boom".into()))), &[], &[], &[]).unwrap_err();
    assert_eq!(err, "boom");
    assert!(!wants_head(&source(&["main"], &[])));
}

#[test]
fn named_refs_probe_branches_then_tags() {
    let src = source(&["x"], &["y"]);
    let b = branch_probe(&src, "v1");
    assert_eq!(b.branches, vec!["v1".to_string()]);
    assert!(b.tags.is_empty());
    let t = tag_probe(&src, "v1");
    assert!(t.branches.is_empty());
    assert_eq!(t.tags, vec!["v1".to_string()]);
    let e = no_matching_ref(&src);
    assert!(retry_as_tag::<()>(&Err(e.clone())));
    assert!(!retry_as_tag::<()>(&Ok(())));
    assert_eq!(
        e.to_string(),
        "no ref of https://example.org/r.git matches branches [\"x\"] / tags [\"y\"]"
    );
    let root = collected_root(&src, "asciidoc-html5-v0.2.1", "/tmp/x".into());
    assert_eq!(root.version_override.as_deref(), Some("0.2.1"));
    assert_eq!(root.refname, "asciidoc-html5-v0.2.1");
}

#[test]
fn error_messages() {
    let e = AggregateError::StartPathMissing { url: "u".into(), refname: "main".into(), start_path: "docs".into() };
    assert_eq!(e.to_string(), "start path \"docs\" not found in u ref main");
    let e = AggregateError::Repo { url: "u".into(), message: "m".into() };
    assert_eq!(e.to_string(), "cannot open or clone u: m");
}
