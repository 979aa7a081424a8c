use bokfell::model::resource::{relative_url, Family, ResourceRef};

#[test]
fn parses_bare_path() {
    let r = ResourceRef::parse("page.adoc").unwrap();
    assert_eq!(
        r,
        ResourceRef {
            path: "page.adoc".to_string(),
            ..Default::default()
        }
    );
}

#[test]
fn parses_module_and_path() {
    let r = ResourceRef::parse("api:options.adoc").unwrap();
    assert_eq!(r.module.as_deref(), Some("api"));
    assert_eq!(r.path, "options.adoc");
    assert_eq!(r.component, None);
}

#[test]
fn parses_component_module_path() {
    let r = ResourceRef::parse("html5:api:options.adoc").unwrap();
    assert_eq!(r.component.as_deref(), Some("html5"));
    assert_eq!(r.module.as_deref(), Some("api"));
    assert_eq!(r.path, "options.adoc");
}

#[test]
fn empty_module_in_component_ref_means_root() {
    let r = ResourceRef::parse("html5::index.adoc").unwrap();
    assert_eq!(r.component.as_deref(), Some("html5"));
    assert_eq!(r.module.as_deref(), Some("ROOT"));
    assert_eq!(r.path, "index.adoc");
}

#[test]
fn parses_version_and_family() {
    let r = ResourceRef::parse("3.2@html5:api:partial$snip.adoc").unwrap();
    assert_eq!(r.version.as_deref(), Some("3.2"));
    assert_eq!(r.family, Some(Family::Partial));
    assert_eq!(r.path, "snip.adoc");
}

#[test]
fn parses_family_only() {
    let r = ResourceRef::parse("partial$header.adoc").unwrap();
    assert_eq!(r.family, Some(Family::Partial));
    assert_eq!(r.path, "header.adoc");
    assert_eq!(r.module, None);
}

#[test]
fn rejects_urls_and_unknown_families() {
    assert_eq!(ResourceRef::parse("https://example.org"), None);
    assert_eq!(ResourceRef::parse("bogus$file.adoc"), None);
    assert_eq!(ResourceRef::parse(""), None);
}

#[test]
fn relative_urls() {
    assert_eq!(
        relative_url("html5/index.html", "html5/api/options.html"),
        "api/options.html"
    );
    assert_eq!(
        relative_url("html5/api/options.html", "html5/index.html"),
        "../index.html"
    );
    assert_eq!(
        relative_url("html5/api/options.html", "html5/api/index.html"),
        "index.html"
    );
    assert_eq!(relative_url("index.html", "index.html"), "index.html");
    assert_eq!(
        relative_url("html5/cli/io.html", "html5/_images/pipe.png"),
        "../_images/pipe.png"
    );
}

#[test]
fn family_coordinates_round_trip() {
    for f in [Family::Page, Family::Partial, Family::Example, Family::Image, Family::Attachment] {
        let c: Vec<char> = f.coordinate().chars().collect();
        assert_eq!(Family::from_coordinate(&c), Some(f));
    }
    assert_eq!(Family::Page.dir_name(), Some("pages"));
    assert!(Family::Page.is_publishable());
    assert!(!Family::Partial.is_publishable());
}
