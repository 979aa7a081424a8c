//! Page chrome: the HTML fragments the layout template embeds (navigation,
//! version selector, coverage band, redirect page) and the per-line
//! splitting of highlighted test sources.

use vstd::prelude::*;
use crate::model::nav::{NavItem, NavTree};
use crate::model::resource::{relative_url, relative_url_spec};
use crate::text::{chars_of, contains_chars, is_infix, owned, push_str};

pub mod highlight;

verus! {

/// The badge color band for a coverage percentage.
pub open spec fn level_of(percent: u32) -> Seq<char> {
    if percent >= 90 {
        "high"@
    } else if percent >= 50 {
        "mid"@
    } else {
        "low"@
    }
}

/// The badge color band for a coverage percentage
/// (`high` ≥ 90, `mid` ≥ 50, `low` below).
pub fn coverage_level(percent: u32) -> (r: &'static str)
    ensures
        r@ == level_of(percent),
{
    if percent >= 90 {
        "high"
    } else if percent >= 50 {
        "mid"
    } else {
        "low"
    }
}

/// The HTML escape of one character.
pub open spec fn escape_char(c: char) -> Seq<char> {
    if c == '&' {
        "&amp;"@
    } else if c == '<' {
        "&lt;"@
    } else if c == '>' {
        "&gt;"@
    } else if c == '"' {
        "&quot;"@
    } else {
        seq![c]
    }
}

/// Text with `&`, `<`, `>` and `"` escaped, character by character.
pub open spec fn escaped(s: Seq<char>) -> Seq<char>
    decreases s.len(),
{
    if s.len() == 0 {
        Seq::empty()
    } else {
        escaped(s.drop_last()) + escape_char(s.last())
    }
}

/// Appends the HTML escape of `text` to `out`.
pub fn push_escaped(out: &mut String, text: &[char])
    ensures
        final(out)@ == old(out)@ + escaped(text@),
{
    let ghost start = out@;
    let mut i: usize = 0;
    while i < text.len()
        invariant
            i <= text.len(),
            out@ == start + escaped(text@.take(i as int)),
        decreases text.len() - i,
    {
        let c = text[i];
        if c == '&' {
            push_str(out, "&amp;");
        } else if c == '<' {
            push_str(out, "&lt;");
        } else if c == '>' {
            push_str(out, "&gt;");
        } else if c == '"' {
            push_str(out, "&quot;");
        } else {
            crate::text::push_char(out, c);
        }
        assert(text@.take(i + 1).drop_last() == text@.take(i as int));
        i += 1;
    }
    assert(text@.take(text.len() as int) == text@);
}

/// Escaped text embeds safely in element content and double-quoted
/// attributes: it holds no `<`, `>` or `"`, whatever the input.
pub proof fn law_escaped_holds_no_markup(s: Seq<char>)
    ensures
        forall|i: int| 0 <= i < escaped(s).len() ==> #[trigger] escaped(s)[i] != '<' && escaped(s)[i] != '>'
            && escaped(s)[i] != '"',
    decreases s.len(),
{
    reveal_strlit("&amp;");
    reveal_strlit("&lt;");
    reveal_strlit("&gt;");
    reveal_strlit("&quot;");
    if s.len() > 0 {
        law_escaped_holds_no_markup(s.drop_last());
        let a = escaped(s.drop_last());
        let b = escape_char(s.last());
        assert forall|i: int| 0 <= i < escaped(s).len() implies #[trigger] escaped(s)[i] != '<' && escaped(s)[i] != '>'
            && escaped(s)[i] != '"' by {
            if i < a.len() {
                assert(escaped(s)[i] == a[i]);
            } else {
                assert(escaped(s)[i] == b[i - a.len()]);
            }
        }
    }
}

/// Escapes `&`, `<`, `>`, and `"` for embedding text in HTML (element
/// content or a double-quoted attribute).
pub fn escape_html(text: &str) -> (r: String)
    ensures
        r@ == escaped(text@),
{
    let cs = chars_of(text);
    let mut out = String::new();
    push_escaped(&mut out, cs.as_slice());
    out
}

/// One entry of the page-version selector.
#[derive(Clone, Debug)]
pub struct VersionLink {
    /// Display label (the display version, version, or `default`).
    pub label: String,
    /// Site-root-relative URL of this page in that version, when the page
    /// exists there.
    pub url: Option<String>,
    /// Whether this entry is the version being viewed.
    pub current: bool,
}

/// The selector markup of one version entry.
pub open spec fn version_entry(link: VersionLink, page_url: Seq<char>) -> Seq<char> {
    match link.url {
        Some(url) => if !link.current {
            "<a href=\""@ + escaped(relative_url_spec(page_url, url@)) + "\">"@ + escaped(link.label@) + "</a>"@
        } else {
            "<span class=\"current\">"@ + escaped(link.label@) + "</span>"@
        },
        None => "<span class=\"missing\" title=\"This page does not exist in this version\">"@
            + escaped(link.label@) + "</span>"@,
    }
}

/// The selector markup of a run of version entries.
pub open spec fn version_entries(links: Seq<VersionLink>, page_url: Seq<char>) -> Seq<char>
    decreases links.len(),
{
    if links.len() == 0 {
        Seq::empty()
    } else {
        version_entries(links.drop_last(), page_url) + version_entry(links.last(), page_url)
    }
}

/// The page-version selector: empty for fewer than two versions.
pub open spec fn versions_markup(links: Seq<VersionLink>, page_url: Seq<char>) -> Seq<char> {
    if links.len() < 2 {
        Seq::empty()
    } else {
        "<nav class=\"page-versions\" aria-label=\"Versions\">"@ + version_entries(links, page_url) + "</nav>"@
    }
}

/// Renders the page-version selector: nothing for a single version, else
/// one link (or unlinked label) per version, current marked.
pub fn versions_html(versions: &[VersionLink], page_url: &str) -> (r: String)
    ensures
        r@ == versions_markup(versions@, page_url@),
{
    if versions.len() < 2 {
        return String::new();
    }
    let mut out = owned("<nav class=\"page-versions\" aria-label=\"Versions\">");
    let ghost start = out@;
    let mut i: usize = 0;
    while i < versions.len()
        invariant
            i <= versions.len(),
            out@ == start + version_entries(versions@.take(i as int), page_url@),
        decreases versions.len() - i,
    {
        let link = &versions[i];
        let label = chars_of(link.label.as_str());
        match &link.url {
            Some(url) => {
                if !link.current {
                    push_str(&mut out, "<a href=\"");
                    let rel = relative_url(page_url, url.as_str());
                    let rc = chars_of(rel.as_str());
                    push_escaped(&mut out, rc.as_slice());
                    push_str(&mut out, "\">");
                    push_escaped(&mut out, label.as_slice());
                    push_str(&mut out, "</a>");
                } else {
                    push_str(&mut out, "<span class=\"current\">");
                    push_escaped(&mut out, label.as_slice());
                    push_str(&mut out, "</span>");
                }
            },
            None => {
                push_str(&mut out, "<span class=\"missing\" title=\"This page does not exist in this version\">");
                push_escaped(&mut out, label.as_slice());
                push_str(&mut out, "</span>");
            },
        }
        assert(versions@.take(i + 1).drop_last() == versions@.take(i as int));
        i += 1;
    }
    assert(versions@.take(versions.len() as int) == versions@);
    push_str(&mut out, "</nav>");
    out
}

/// The link markup of one navigation entry.
pub open spec fn nav_link(item: NavItem, page_url: Seq<char>) -> Seq<char> {
    match item.url {
        Some(url) => if is_infix("://"@, url@) {
            "<a href=\""@ + escaped(url@) + "\">"@ + escaped(item.text@) + "</a>"@
        } else {
            "<a href=\""@ + escaped(relative_url_spec(page_url, url@)) + "\""@
                + (if url@ == page_url { " class=\"current\""@ } else { Seq::empty() })
                + ">"@ + escaped(item.text@) + "</a>"@
        },
        None => "<span class=\"nav-heading\">"@ + escaped(item.text@) + "</span>"@,
    }
}

/// The list items of a run of navigation entries, children nested as
/// their own lists.
pub open spec fn nav_entries(items: Seq<NavItem>, page_url: Seq<char>) -> Seq<char>
    decreases items,
{
    if items.len() == 0 {
        Seq::empty()
    } else {
        let first = items[0];
        proof {
            assert(decreases_to!(items => items[0]));
            assert(decreases_to!(items[0] => items[0].children));
            assert(decreases_to!(items => items.drop_first()));
        }
        "<li>"@ + nav_link(first, page_url) + (if first.children@.len() > 0 {
            "\n"@ + "<ul>\n"@ + nav_entries(first.children@, page_url) + "</ul>\n"@
        } else {
            Seq::empty()
        }) + "</li>\n"@ + nav_entries(items.drop_first(), page_url)
    }
}

/// A navigation list: `<ul>`, one `<li>` per entry, `</ul>`.
pub open spec fn nav_list(items: Seq<NavItem>, page_url: Seq<char>) -> Seq<char> {
    "<ul>\n"@ + nav_entries(items, page_url) + "</ul>\n"@
}

fn push_nav_link(out: &mut String, item: &NavItem, page_url: &str)
    ensures
        final(out)@ == old(out)@ + nav_link(*item, page_url@),
{
    let text = chars_of(item.text.as_str());
    match &item.url {
        Some(url) => {
            let uc = chars_of(url.as_str());
            let scheme = chars_of("://");
            if contains_chars(uc.as_slice(), scheme.as_slice()) {
                push_str(out, "<a href=\"");
                push_escaped(out, uc.as_slice());
                push_str(out, "\">");
                push_escaped(out, text.as_slice());
                push_str(out, "</a>");
            } else {
                push_str(out, "<a href=\"");
                let rel = relative_url(page_url, url.as_str());
                let rc = chars_of(rel.as_str());
                push_escaped(out, rc.as_slice());
                push_str(out, "\"");
                if crate::text::str_eq(url.as_str(), page_url) {
                    push_str(out, " class=\"current\"");
                }
                push_str(out, ">");
                push_escaped(out, text.as_slice());
                push_str(out, "</a>");
            }
        },
        None => {
            push_str(out, "<span class=\"nav-heading\">");
            push_escaped(out, text.as_slice());
            push_str(out, "</span>");
        },
    }
}

/// Renders a run of navigation entries as one nested `<ul>` list with
/// URLs relativized to the current page.
pub fn render_items(items: &[NavItem], page_url: &str, out: &mut String)
    ensures
        final(out)@ == old(out)@ + nav_list(items@, page_url@),
    decreases items@,
{
    push_str(out, "<ul>\n");
    let ghost start = out@;
    let mut i: usize = 0;
    assert(items@.skip(0) == items@);
    while i < items.len()
        invariant
            i <= items.len(),
            start + nav_entries(items@, page_url@) == out@ + nav_entries(items@.skip(i as int), page_url@),
        decreases items.len() - i,
    {
        let item = &items[i];
        let ghost before = out@;
        assert(items@.skip(i as int).drop_first() == items@.skip(i + 1));
        assert(items@.skip(i as int)[0] == *item);
        push_str(out, "<li>");
        push_nav_link(out, item, page_url);
        if item.children.len() > 0 {
            push_str(out, "\n");
            assert(decreases_to!(items@ => items@[i as int]));
            render_items(item.children.as_slice(), page_url, out);
        }
        push_str(out, "</li>\n");
        i += 1;
        assert(before + nav_entries(items@.skip(i - 1), page_url@) =~= out@ + nav_entries(items@.skip(i as int), page_url@));
    }
    assert(items@.skip(i as int) == Seq::<NavItem>::empty());
    push_str(out, "</ul>\n");
}

/// Renders a navigation tree as nested `<ul>` lists with URLs relativized
/// to the current page; an empty tree renders nothing.
pub fn nav_html(tree: &NavTree, page_url: &str) -> (r: String)
    ensures
        r@ == (if tree.items@.len() == 0 { Seq::empty() } else { nav_list(tree.items@, page_url@) }),
{
    let mut out = String::new();
    if tree.items.len() > 0 {
        render_items(tree.items.as_slice(), page_url, &mut out);
    }
    out
}

/// The redirect document for a target.
pub open spec fn redirect_markup(target: Seq<char>) -> Seq<char> {
    let e = escaped(target);
    "<!DOCTYPE html>\n<html lang=\"en\">\n<head>\n<meta charset=\"utf-8\">\n<link rel=\"canonical\" href=\""@
        + e + "\">\n<meta http-equiv=\"refresh\" content=\"0; url="@ + e
        + "\">\n<title>Redirect</title>\n</head>\n<body><a href=\""@ + e
        + "\">Redirecting…</a></body>\n</html>\n"@
}

/// A minimal redirect page (used for the site root → start page hop).
pub fn redirect_page(target_href: &str) -> (r: String)
    ensures
        r@ == redirect_markup(target_href@),
{
    let t = chars_of(target_href);
    let mut out = owned("<!DOCTYPE html>\n<html lang=\"en\">\n<head>\n<meta charset=\"utf-8\">\n<link rel=\"canonical\" href=\"");
    push_escaped(&mut out, t.as_slice());
    push_str(&mut out, "\">\n<meta http-equiv=\"refresh\" content=\"0; url=");
    push_escaped(&mut out, t.as_slice());
    push_str(&mut out, "\">\n<title>Redirect</title>\n</head>\n<body><a href=\"");
    push_escaped(&mut out, t.as_slice());
    push_str(&mut out, "\">Redirecting…</a></body>\n</html>\n");
    out
}

/// The change summary of one page relative to its diff base.
#[derive(Clone, Debug)]
pub struct DiffView {
    /// What the page is compared against (a version label or base ref).
    pub base_label: String,
    /// The page does not exist in the base at all.
    pub new_page: bool,
    /// Count of added blocks.
    pub added: usize,
    /// Count of removed blocks.
    pub removed: usize,
    /// Count of edited blocks.
    pub edited: usize,
    /// Site-root-relative URL of the site's what-changed index.
    pub changes_url: String,
}

/// The spec-coverage presentation of one page.
#[derive(Clone, Debug)]
pub struct CoverageView {
    /// Percentage of the page's measured blocks that are verified (0–100).
    pub percent: u32,
    /// Count of verified blocks.
    pub verified: usize,
    /// Count of planned blocks.
    pub planned: usize,
    /// Count of normative-but-uncovered blocks.
    pub uncovered: usize,
    /// Count of unclassified blocks.
    pub unclassified: usize,
    /// Count of out-of-scope blocks.
    pub out_of_scope: usize,
    /// Count of non-normative blocks.
    pub non_normative: usize,
    /// Site-root-relative URL of the coverage dashboard page.
    pub dashboard_url: String,
}

} // verus!
