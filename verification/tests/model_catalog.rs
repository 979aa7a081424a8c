use bokfell::model::catalog::{attribute_value_string, catalogs_file, marks_prerelease, nav_module, url_for, AttributeScalar, Coords};
use bokfell::model::resource::Family;

fn coords(component: &str, module: &str, family: Family, path: &str) -> Coords {
    Coords {
        component: component.to_string(),
        version: None,
        module: module.to_string(),
        family,
        path: path.to_string(),
    }
}

#[test]
fn url_rules() {
    assert_eq!(
        url_for(&coords("html5", "ROOT", Family::Page, "index.adoc")),
        Some("html5/index.html".to_string())
    );
    assert_eq!(
        url_for(&coords("html5", "api", Family::Page, "options.adoc")),
        Some("html5/api/options.html".to_string())
    );
    assert_eq!(
        url_for(&coords("ROOT", "ROOT", Family::Page, "index.adoc")),
        Some("index.html".to_string())
    );
    assert_eq!(
        url_for(&coords("html5", "cli", Family::Image, "pipe.png")),
        Some("html5/cli/_images/pipe.png".to_string())
    );
    assert_eq!(url_for(&coords("html5", "ROOT", Family::Partial, "hdr.adoc")), None);

    let mut versioned = coords("html5", "ROOT", Family::Page, "index.adoc");
    versioned.version = Some("1.4".to_string());
    assert_eq!(url_for(&versioned), Some("html5/1.4/index.html".to_string()));
}

#[test]
fn dotfiles_and_extensionless_files_stay_out_of_the_catalog() {
    assert!(catalogs_file("index.adoc", Family::Page));
    assert!(catalogs_file("sub/dir/page.adoc", Family::Page));
    assert!(!catalogs_file(".hidden.adoc", Family::Page));
    assert!(!catalogs_file("sub/.DS_Store", Family::Image));
    assert!(!catalogs_file("README", Family::Page));
    assert!(catalogs_file("snippet", Family::Partial));
    assert!(catalogs_file("sub/Makefile", Family::Example));
}

#[test]
fn nav_files_name_their_module() {
    assert_eq!(nav_module("modules/api/nav.adoc"), "api");
    assert_eq!(nav_module("./modules/ROOT/nav.adoc"), "ROOT");
    assert_eq!(nav_module("nav.adoc"), "ROOT");
    assert_eq!(nav_module("/abs/modules/x/nav.adoc"), "ROOT");
    assert_eq!(nav_module("modules//cli/nav.adoc"), "cli");
}

#[test]
fn attribute_value_conventions() {
    assert_eq!(attribute_value_string(&AttributeScalar::Null), None);
    assert_eq!(attribute_value_string(&AttributeScalar::Bool(false)), None);
    assert_eq!(attribute_value_string(&AttributeScalar::Bool(true)).as_deref(), Some(""));
    assert_eq!(attribute_value_string(&AttributeScalar::Text("x".into())).as_deref(), Some("x"));
    assert_eq!(attribute_value_string(&AttributeScalar::Number("1.5".into())).as_deref(), Some("1.5"));
    assert_eq!(attribute_value_string(&AttributeScalar::Other), None);
}

#[test]
fn prerelease_is_anything_but_absent_null_or_false() {
    assert!(!marks_prerelease(&None));
    assert!(!marks_prerelease(&Some(AttributeScalar::Null)));
    assert!(!marks_prerelease(&Some(AttributeScalar::Bool(false))));
    assert!(marks_prerelease(&Some(AttributeScalar::Bool(true))));
    assert!(marks_prerelease(&Some(AttributeScalar::Text("-beta".into()))));
}
