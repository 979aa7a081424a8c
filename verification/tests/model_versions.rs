use bokfell::model::versions::{version_before, version_from_refname, version_order};

fn sorted(mut versions: Vec<Option<&str>>) -> Vec<Option<&str>> {
    versions.sort_by(|a, b| version_order(*a, *b));
    versions
}

#[test]
fn versionless_sorts_first() {
    assert_eq!(
        sorted(vec![Some("1.0"), None, Some("2.0")]),
        vec![None, Some("2.0"), Some("1.0")]
    );
}

#[test]
fn named_before_semver_reverse_alphabetical() {
    assert_eq!(
        sorted(vec![Some("1.0"), Some("edge"), Some("dev")]),
        vec![Some("edge"), Some("dev"), Some("1.0")]
    );
}

#[test]
fn semver_descending_with_v_prefix_and_prerelease() {
    assert_eq!(
        sorted(vec![
            Some("1.9.0"),
            Some("v1.10.0"),
            Some("1.10.0-rc.1"),
            Some("2.0"),
        ]),
        vec![
            Some("2.0"),
            Some("v1.10.0"),
            Some("1.10.0-rc.1"),
            Some("1.9.0"),
        ]
    );
}

#[test]
fn refname_version_extraction() {
    assert_eq!(version_from_refname("asciidoc-html5-v0.2.1"), "0.2.1");
    assert_eq!(version_from_refname("v1.4"), "1.4");
    assert_eq!(version_from_refname("main"), "main");
    assert_eq!(version_from_refname("dev"), "dev");
    assert_eq!(version_from_refname("v2.0.0-rc.3"), "2.0.0-rc.3");
    assert_eq!(version_from_refname("release/2.0"), "release-2.0");
}

#[test]
fn version_order_is_antisymmetric_on_examples() {
    let vs = [None, Some("2.0"), Some("1.10.0"), Some("1.10.0-rc.1"), Some("edge"), Some("dev")];
    for a in vs {
        for b in vs {
            assert_eq!(version_order(a, b), version_order(b, a).reverse());
            assert_eq!(version_before(a, b), version_order(a, b) == std::cmp::Ordering::Less);
        }
    }
}
