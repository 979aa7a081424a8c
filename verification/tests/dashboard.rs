use bokfell::coverage::model::{BlockCoverage, BlockState, PageCoverage};
use bokfell::dashboard::coverage_dashboard;
use bokfell::model::catalog::{AsciiDocConfig, Component, ComponentDescriptor, ContentCatalog, Coords};
use bokfell::model::resource::Family;
use bokfell::render::RenderedPage;

fn descriptor(name: &str, version: Option<&str>, title: Option<&str>, display: Option<&str>) -> ComponentDescriptor {
    ComponentDescriptor {
        name: name.to_string(),
        version: version.map(str::to_string),
        title: title.map(str::to_string),
        display_version: display.map(str::to_string),
        prerelease: false,
        nav: Vec::new(),
        start_page: None,
        asciidoc: AsciiDocConfig::default(),
    }
}

fn catalog(descs: Vec<ComponentDescriptor>) -> ContentCatalog {
    let mut catalog = ContentCatalog::new();
    for desc in descs {
        catalog.add_component(Component { desc, root: "/src".to_string() });
    }
    catalog
}

fn page(component: &str, version: Option<&str>, url: &str, title: Option<&str>, states: &[BlockState]) -> RenderedPage {
    RenderedPage {
        coords: Coords {
            component: component.to_string(),
            version: version.map(str::to_string),
            module: "ROOT".to_string(),
            family: Family::Page,
            path: "p.adoc".to_string(),
        },
        url: url.to_string(),
        title_html: None,
        title_text: title.map(str::to_string),
        contents: String::new(),
        warnings: Vec::new(),
        coverage: Some(PageCoverage::from_blocks(
            states
                .iter()
                .map(|state| BlockCoverage {
                    state: *state,
                    context: "paragraph".to_string(),
                    page_lines: None,
                    reason: None,
                    tracking: None,
                    claims: Vec::new(),
                })
                .collect(),
        )),
        diff: None,
        block_sources: Vec::new(),
        block_lines: Vec::new(),
    }
}

use BlockState::{NonNormative, OutOfScope, Uncovered, Unclassified, Verified};

#[test]
fn dashboard_groups_by_component_least_verified_first() {
    let catalog = catalog(vec![
        descriptor("spec", Some("2.0"), Some("The Spec"), Some("Two")),
        descriptor("spec", Some("1.0"), None, None),
        descriptor("empty", None, None, None),
    ]);
    let pages = vec![
        page("spec", Some("2.0"), "spec/2.0/b.html", Some("B & co"), &[Verified, Verified]),
        page("spec", Some("2.0"), "spec/2.0/a.html", None, &[Verified, Uncovered]),
        page("spec", Some("1.0"), "spec/1.0/c.html", Some("C"), &[Unclassified, OutOfScope]),
        page("spec", Some("2.0"), "spec/2.0/z.html", Some("Z"), &[Uncovered, Verified, NonNormative]),
    ];
    let covered: Vec<&RenderedPage> = pages.iter().collect();
    let html = coverage_dashboard(&covered, &catalog);

    assert!(html.starts_with("<div class=\"coverage-dashboard\">\n<p>Each block"));
    assert!(html.ends_with("</tr></tfoot>\n</table>\n</div>\n"));

    // Component rows in catalog order, labelled with title and shown
    // version; a component without measured pages gets no row.
    let two = html.find("<tr class=\"component\"><td>The Spec Two</td>").expect("2.0 row");
    let one = html.find("<tr class=\"component\"><td>spec 1.0</td>").expect("1.0 row");
    assert!(two < one);
    assert!(!html.contains("<td>empty"));

    // Within a component: 50% pages first, ties by URL, then 100%.
    let a = html.find("<span class=\"page-url\">spec/2.0/a.html</span>").unwrap();
    let z = html.find("<span class=\"page-url\">spec/2.0/z.html</span>").unwrap();
    let b = html.find("<span class=\"page-url\">spec/2.0/b.html</span>").unwrap();
    assert!(two < a && a < z && z < b && b < one);

    // Page links are relative to the dashboard; labels are escaped.
    assert!(html.contains("<tr><td><a href=\"spec/2.0/b.html\">B &amp; co</a>"));
    assert!(html.contains("<a href=\"spec/2.0/a.html\">spec/2.0/a.html</a>"));

    // The 2.0 subtotal: 4 verified of 6; the total adds 1.0's
    // unclassified block and out-of-scope block beside the bar.
    assert!(html.contains("<td class=\"state\"><span class=\"cov-mid\">66%</span>"));
    let total = &html[html.find("<tfoot>").unwrap()..];
    assert!(total.contains("<td>All measured pages</td><td class=\"state\"><span class=\"cov-mid\">57%</span>"), "{total}");
    assert!(total.contains("<td class=\"num\"><span class=\"review-queue\">1</span></td><td class=\"num\">1</td><td class=\"num\">1</td>"));
}

#[test]
fn dashboard_of_one_page() {
    let catalog = catalog(vec![descriptor("root", None, None, None)]);
    let pages = vec![page("root", None, "index.html", Some("Home"), &[Uncovered])];
    let covered: Vec<&RenderedPage> = pages.iter().collect();
    let html = coverage_dashboard(&covered, &catalog);
    assert!(html.contains("<tr class=\"component\"><td>root</td><td class=\"state\"><span class=\"cov-low\">0%</span>"));
    assert!(html.contains("<tr><td><a href=\"index.html\">Home</a> <span class=\"page-url\">index.html</span></td>"));
}
