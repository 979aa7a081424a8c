use bokfell::search::{html_to_text, page_entries, SearchEntry};

#[test]
fn strips_tags_and_collapses_whitespace() {
    let text = html_to_text(
        "<div class=\"paragraph\">\n<p>One   two\nthree.</p>\n</div>\n\
         <pre>let x = 1;</pre>",
    );
    assert_eq!(text, "One two three. let x = 1;");
}

#[test]
fn drops_script_and_style_content() {
    let text = html_to_text(
        "<p>Before.</p><script>var hidden = true;</script>\
         <style>.x{color:red}</style><p>After.</p>",
    );
    assert_eq!(text, "Before. After.");
}

#[test]
fn script_content_with_comparisons_never_swallows_following_text() {
    // A `<` inside script code is not a tag; the text after the
    // script must survive.
    let text =
        html_to_text("<p>Before.</p><script>if (a < b) run(x > y);</script><p>After.</p>");
    assert_eq!(text, "Before. After.");

    // Case-insensitive closer, attributes on the opener.
    let text =
        html_to_text("<p>A.</p><SCRIPT type=\"text/javascript\">1 < 2</SCRIPT><p>B.</p>");
    assert_eq!(text, "A. B.");

    // An unterminated script swallows the rest (browser behavior),
    // never emitting code as searchable text.
    let text = html_to_text("<p>A.</p><script>1 < 2");
    assert_eq!(text, "A.");

    // A closer-shaped prefix inside the code (or a bogus element
    // name) never terminates the raw text early.
    let text = html_to_text("<p>A.</p><script>var s = \"</scriptx>\";</script><p>B.</p>");
    assert_eq!(text, "A. B.");
    let text = html_to_text("<p>A.</p><script>x</script\t>\n<p>B.</p>");
    assert_eq!(text, "A. B.");
}

#[test]
fn decodes_the_basic_entities() {
    let text = html_to_text("<p>a &lt;b&gt; &amp; &quot;c&quot;</p>");
    assert_eq!(text, "a <b> & \"c\"");
}

#[test]
fn decodes_numeric_references() {
    let text = html_to_text("<p>Asciidoctor&#8217;s em&#x2014;dash &bogus; ok</p>");
    assert_eq!(text, "Asciidoctor\u{2019}s em\u{2014}dash &bogus; ok");
}

#[test]
fn splits_a_page_into_lead_and_anchored_section_entries() {
    let entries = page_entries(
        "Widths",
        "html5/widths.html",
        "<div class=\"paragraph\"><p>Preamble text.</p></div>\
         <div class=\"sect1\"><h2 id=\"_first\">First</h2>\
         <div class=\"sectionbody\"><p>Alpha.</p></div></div>\
         <div class=\"sect1\"><h2 id=\"_second\">Second</h2>\
         <div class=\"sectionbody\"><p>Beta.</p></div></div>",
    );
    let got: Vec<(&str, &str, &str, Option<&str>)> = entries
        .iter()
        .map(|e| {
            (
                e.title.as_str(),
                e.url.as_str(),
                e.text.as_str(),
                e.page.as_deref(),
            )
        })
        .collect();
    assert_eq!(
        got,
        vec![
            ("Widths", "html5/widths.html", "Preamble text.", None),
            (
                "First",
                "html5/widths.html#_first",
                "Alpha.",
                Some("Widths")
            ),
            (
                "Second",
                "html5/widths.html#_second",
                "Beta.",
                Some("Widths")
            ),
        ]
    );
}

#[test]
fn subsection_heading_ends_its_parent_slice() {
    // The split is linear: an h3 closes the h2's entry, so no text
    // appears in two entries.
    let entries = page_entries(
        "P",
        "p.html",
        "<h2 id=\"_outer\">Outer</h2><p>Outer text.</p>\
         <h3 id=\"_inner\">Inner</h3><p>Inner text.</p>",
    );
    assert_eq!(entries.len(), 3);
    assert_eq!(entries[1].text, "Outer text.");
    assert_eq!(entries[2].url, "p.html#_inner");
    assert_eq!(entries[2].text, "Inner text.");
}

#[test]
fn heading_markup_is_stripped_from_the_entry_title() {
    let entries = page_entries(
        "P",
        "p.html",
        "<h2 id=\"_code\">Using <code>adoc &amp; co</code></h2><p>Body.</p>",
    );
    assert_eq!(entries[1].title, "Using adoc & co");
}

#[test]
fn heading_without_an_id_merges_into_the_enclosing_entry() {
    let entries = page_entries(
        "P",
        "p.html",
        "<p>Lead.</p><h2 class=\"x\">Unanchored</h2><p>More lead.</p>\
         <h2 id=\"_real\">Real</h2><p>Body.</p>",
    );
    assert_eq!(entries.len(), 2);
    assert_eq!(entries[0].text, "Lead. Unanchored More lead.");
    assert_eq!(entries[1].title, "Real");
}

#[test]
fn data_id_attribute_is_not_an_anchor() {
    let entries = page_entries("P", "p.html", "<h2 data-id=\"_x\">No anchor</h2><p>A.</p>");
    assert_eq!(entries.len(), 1);
    assert_eq!(entries[0].text, "No anchor A.");
}

#[test]
fn heading_inside_script_code_never_splits() {
    let entries = page_entries(
        "P",
        "p.html",
        "<p>A.</p><script>render('<h2 id=\"_fake\">');</script>\
         <h2 id=\"_real\">Real</h2><p>B.</p>",
    );
    assert_eq!(entries.len(), 2);
    assert_eq!(entries[0].text, "A.");
    assert_eq!(entries[1].url, "p.html#_real");
    assert_eq!(entries[1].text, "B.");
}


#[test]
fn from_html_extracts_text_and_leaves_page_empty() {
    let e = SearchEntry::from_html("T", "a/b.html", "<p>x &lt;y&gt;</p>");
    assert_eq!(e.title, "T");
    assert_eq!(e.url, "a/b.html");
    assert_eq!(e.text, "x <y>");
    assert_eq!(e.page, None);
}

#[test]
fn empty_page_has_one_empty_lead_entry() {
    let entries = page_entries("P", "p.html", "");
    assert_eq!(entries.len(), 1);
    assert_eq!(entries[0].text, "");
    assert_eq!(html_to_text("   "), "");
}

#[test]
fn the_lead_entry_comes_first_and_alone() {
    let entries = page_entries("P", "p.html", "<h2 id=\"_a\">A</h2><p>x</p><h3 id=\"_b\">B</h3>");
    assert_eq!(entries[0].page, None);
    assert_eq!(entries[0].url, "p.html");
    assert!(entries[1..].iter().all(|e| e.page.as_deref() == Some("P")));
}
