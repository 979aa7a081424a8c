use bokfell::serve::{content_type_for, inject_reload_client, reload_client, site_key};

#[test]
fn keys_default_to_index_pages() {
    assert_eq!(site_key(""), "index.html");
    assert_eq!(site_key("/_/style.css"), "_/style.css");
    assert_eq!(site_key("docs/"), "docs/index.html");
    assert_eq!(site_key("//a.html"), "a.html");
}

#[test]
fn content_types_follow_the_extension() {
    assert_eq!(content_type_for("_/style.css"), "text/css; charset=utf-8");
    assert_eq!(content_type_for("a/b.jpeg"), "image/jpeg");
    assert_eq!(content_type_for("page.adoc"), "text/plain; charset=utf-8");
    assert_eq!(content_type_for("noext"), "application/octet-stream");
    assert_eq!(content_type_for("a.tar.woff2"), "font/woff2");
}

#[test]
fn reload_client_goes_before_the_last_body_close() {
    let out = inject_reload_client("<html><body>Hi</body></html>");
    assert!(out.contains("__bokfell/reload"));
    assert!(out.ends_with("</body></html>"));
    assert_eq!(out, format!("<html><body>Hi{}</body></html>", reload_client()));
    let bare = inject_reload_client("text");
    assert_eq!(bare, format!("text{}", reload_client()));
}
