use bokfell::model::nav::{NavItem, NavTree};
use bokfell::theme::highlight::{highlight_from, highlight_rust_lines, keep_tag, plain_lines, split_lines};
use bokfell::theme::{coverage_level, escape_html, nav_html, redirect_page, versions_html, VersionLink};

fn item(text: &str, url: Option<&str>, children: Vec<NavItem>) -> NavItem {
    NavItem {
        html: String::new(),
        text: text.to_string(),
        url: url.map(str::to_string),
        children,
    }
}

#[test]
fn coverage_levels_band_correctly() {
    assert_eq!(coverage_level(100), "high");
    assert_eq!(coverage_level(90), "high");
    assert_eq!(coverage_level(89), "mid");
    assert_eq!(coverage_level(50), "mid");
    assert_eq!(coverage_level(49), "low");
    assert_eq!(coverage_level(0), "low");
}

#[test]
fn redirect_page_escapes_target() {
    let page = redirect_page("html5/index.html");
    assert!(page.contains("url=html5/index.html"));
    let page = redirect_page("a\"b&c");
    assert!(page.contains("href=\"a&quot;b&amp;c\""));
}

#[test]
fn escapes_the_four_html_specials() {
    assert_eq!(escape_html("a<b>&\"c'"), "a&lt;b&gt;&amp;&quot;c'");
    assert_eq!(escape_html(""), "");
}

#[test]
fn nav_links_are_relative_and_mark_the_current_page() {
    let nav = NavTree {
        items: vec![
            item("Start", Some("html5/index.html"), Vec::new()),
            item(
                "API",
                None,
                vec![item("Options", Some("html5/api/options.html"), Vec::new())],
            ),
            item("Ext", Some("https://example.org/x"), Vec::new()),
        ],
    };
    let html = nav_html(&nav, "html5/api/options.html");
    assert!(html.contains("<a href=\"../index.html\">Start</a>"));
    assert!(html.contains("<a href=\"options.html\" class=\"current\">Options</a>"));
    assert!(html.contains("<span class=\"nav-heading\">API</span>"));
    assert!(html.contains("<a href=\"https://example.org/x\">Ext</a>"));
    assert_eq!(html.matches("<ul>").count(), 2);
    assert_eq!(nav_html(&NavTree::default(), "x.html"), "");
}

#[test]
fn version_selector_needs_two_versions() {
    let one = [VersionLink { label: "2.0".into(), url: Some("c/2.0/p.html".into()), current: true }];
    assert_eq!(versions_html(&one, "c/2.0/p.html"), "");
    let two = [
        VersionLink { label: "2.0".into(), url: Some("c/2.0/p.html".into()), current: true },
        VersionLink { label: "1.0".into(), url: Some("c/1.0/p.html".into()), current: false },
        VersionLink { label: "0.9".into(), url: None, current: false },
    ];
    let html = versions_html(&two, "c/2.0/p.html");
    assert_eq!(
        html,
        "<nav class=\"page-versions\" aria-label=\"Versions\">\
         <span class=\"current\">2.0</span>\
         <a href=\"../1.0/p.html\">1.0</a>\
         <span class=\"missing\" title=\"This page does not exist in this version\">0.9</span></nav>"
    );
}

#[test]
fn split_reopens_spans_and_keeps_text() {
    let lines = split_lines(
        "<span class=\"meta rust\"><span class=\"string rust\">x\ny</span>\nz</span>",
    );
    assert_eq!(
        lines,
        [
            "<span class=\"string\">x</span>",
            "<span class=\"string\">y</span>",
            "z"
        ]
    );
    assert_eq!(split_lines("only\n"), ["only"]);
    assert_eq!(split_lines(""), Vec::<String>::new());
}

#[test]
fn kept_tags_drop_the_language_and_unstyled_scopes() {
    let t = |s: &str| keep_tag(&s.chars().collect::<Vec<char>>()).map(|v| v.into_iter().collect::<String>());
    assert_eq!(t("<span class=\"keyword control rust\">").as_deref(), Some("<span class=\"keyword control\">"));
    assert_eq!(t("<span class=\"meta function rust\">"), None);
    assert_eq!(t("<span>"), None);
}

#[test]
fn plain_lines_escape_and_follow_line_endings() {
    assert_eq!(plain_lines("a<b\r\nc\n"), ["a&lt;b", "c"]);
    assert_eq!(plain_lines(""), Vec::<String>::new());
    // A fallback when the generator output does not cover the source.
    assert_eq!(highlight_from("x\ny", Some("one".to_string())), ["x", "y"]);
    assert_eq!(highlight_from("x", None), ["x"]);
}

#[test]
fn highlights_rust_per_line_with_balanced_spans() {
    let lines = highlight_rust_lines(
        "#[test]\nfn t() {\n    verifies!(\"p.adoc\", r#\"multi\nline\"#);\n    let n = 42; // <c>\n}",
    );
    assert_eq!(lines.len(), 6, "{lines:#?}");
    assert!(
        lines[0].contains("class=\"variable annotation\">test<"),
        "{}",
        lines[0]
    );
    assert!(
        lines[1].contains("storage type function\">fn<"),
        "{}",
        lines[1]
    );
    assert!(
        lines[2].contains("support macro\">verifies!<"),
        "{}",
        lines[2]
    );
    assert!(lines[4].contains("constant numeric integer decimal\">42<"));
    assert!(!lines[1].contains("meta function"), "{}", lines[1]);
    assert!(!lines[2].contains("punctuation"), "{}", lines[2]);
    assert!(lines[4].contains("&lt;c&gt;"), "{}", lines[4]);
    for line in &lines {
        assert_eq!(
            line.matches("<span").count(),
            line.matches("</span>").count(),
            "{line}"
        );
        assert!(!line.contains('\n'));
    }
    assert!(
        lines[3].contains("string quoted double raw\""),
        "{}",
        lines[3]
    );
}
