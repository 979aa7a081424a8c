//! The development server's request rules: which site file a URL path
//! names, the content type it is served with, and the reload client
//! injected into HTML documents. Watching, rebuilding and the HTTP and
//! WebSocket plumbing are the application's.

use vstd::prelude::*;
use crate::text::{chars_of, owned, push_chars, push_str, slice_vec, string_of};

verus! {

/// The reload client injected into served HTML pages: reload on message,
/// and poll for the server after a disconnect (a restart or laptop
/// suspend), reloading once it is back.
pub open spec fn reload_client_text() -> Seq<char> {
    "<script>(function(){var proto=location.protocol===\"https:\"?\"wss\":\"ws\";var sock=new WebSocket(proto+\"://\"+location.host+\"/__bokfell/reload\");sock.onmessage=function(){location.reload();};sock.onclose=function(){setTimeout(function retry(){fetch(location.href,{cache:\"no-store\"}).then(function(){location.reload();}).catch(function(){setTimeout(retry,1000);});},1000);};})();</script>"@
}

/// The reload client script.
pub fn reload_client() -> (r: &'static str)
    ensures
        r@ == reload_client_text(),
{
    "<script>(function(){var proto=location.protocol===\"https:\"?\"wss\":\"ws\";var sock=new WebSocket(proto+\"://\"+location.host+\"/__bokfell/reload\");sock.onmessage=function(){location.reload();};sock.onclose=function(){setTimeout(function retry(){fetch(location.href,{cache:\"no-store\"}).then(function(){location.reload();}).catch(function(){setTimeout(retry,1000);});},1000);};})();</script>"
}

/// `s` without leading `/`s.
pub open spec fn without_leading_slashes(s: Seq<char>) -> Seq<char>
    decreases s.len(),
{
    if s.len() > 0 && s[0] == '/' {
        without_leading_slashes(s.drop_first())
    } else {
        s
    }
}

/// The site file a request path names: the path without leading
/// slashes, with `index.html` appended to an empty or directory path.
pub open spec fn site_key_text(path: Seq<char>) -> Seq<char> {
    let key = without_leading_slashes(path);
    if key.len() == 0 || key.last() == '/' {
        key + "index.html"@
    } else {
        key
    }
}

/// The site file a request path names.
pub fn site_key(path: &str) -> (r: String)
    ensures
        r@ == site_key_text(path@),
{
    let p = chars_of(path);
    let mut a: usize = 0;
    assert(p@.skip(0) == p@);
    while a < p.len() && p[a] == '/'
        invariant
            a <= p.len(),
            without_leading_slashes(p@) == without_leading_slashes(p@.skip(a as int)),
        decreases p.len() - a,
    {
        assert(p@.skip(a as int).drop_first() == p@.skip(a + 1));
        a += 1;
    }
    let key = slice_vec(p.as_slice(), a, p.len());
    assert(key@ == p@.skip(a as int));
    let mut out = string_of(key.as_slice());
    if key.len() == 0 || key[key.len() - 1] == '/' {
        push_str(&mut out, "index.html");
    }
    out
}

/// The text after the last `.` of a path (all of it without one).
pub open spec fn extension_of(path: Seq<char>) -> Seq<char>
    decreases path.len(),
{
    if path.len() == 0 || path.last() == '.' {
        Seq::empty()
    } else {
        extension_of(path.drop_last()).push(path.last())
    }
}

/// The content type a site file is served with, by extension.
pub open spec fn content_type_text(path: Seq<char>) -> Seq<char> {
    let e = extension_of(path);
    if e == "css"@ {
        "text/css; charset=utf-8"@
    } else if e == "js"@ {
        "text/javascript; charset=utf-8"@
    } else if e == "json"@ {
        "application/json"@
    } else if e == "svg"@ {
        "image/svg+xml"@
    } else if e == "png"@ {
        "image/png"@
    } else if e == "jpg"@ || e == "jpeg"@ {
        "image/jpeg"@
    } else if e == "gif"@ {
        "image/gif"@
    } else if e == "webp"@ {
        "image/webp"@
    } else if e == "ico"@ {
        "image/x-icon"@
    } else if e == "woff"@ {
        "font/woff"@
    } else if e == "woff2"@ {
        "font/woff2"@
    } else if e == "pdf"@ {
        "application/pdf"@
    } else if e == "txt"@ || e == "adoc"@ {
        "text/plain; charset=utf-8"@
    } else {
        "application/octet-stream"@
    }
}

/// The content type a site file is served with.
pub fn content_type_for(path: &str) -> (r: &'static str)
    ensures
        r@ == content_type_text(path@),
{
    let p = chars_of(path);
    let mut start: usize = p.len();
    assert(p@.take(p.len() as int) == p@);
    assert(extension_of(p@) =~= extension_of(p@.take(start as int)) + p@.subrange(start as int, p.len() as int));
    while start > 0 && p[start - 1] != '.'
        invariant
            start <= p.len(),
            extension_of(p@) == extension_of(p@.take(start as int)) + p@.subrange(start as int, p.len() as int),
        decreases start,
    {
        let ghost t = p@.take(start as int);
        assert(t.drop_last() == p@.take(start - 1));
        assert(p@.subrange(start - 1, p.len() as int) == seq![t.last()] + p@.subrange(start as int, p.len() as int));
        start -= 1;
    }
    assert(extension_of(p@.take(start as int)) == Seq::<char>::empty());
    let ext = slice_vec(p.as_slice(), start, p.len());
    let e = string_of(ext.as_slice());
    let e = e.as_str();
    if crate::text::str_eq(e, "css") {
        "text/css; charset=utf-8"
    } else if crate::text::str_eq(e, "js") {
        "text/javascript; charset=utf-8"
    } else if crate::text::str_eq(e, "json") {
        "application/json"
    } else if crate::text::str_eq(e, "svg") {
        "image/svg+xml"
    } else if crate::text::str_eq(e, "png") {
        "image/png"
    } else if crate::text::str_eq(e, "jpg") || crate::text::str_eq(e, "jpeg") {
        "image/jpeg"
    } else if crate::text::str_eq(e, "gif") {
        "image/gif"
    } else if crate::text::str_eq(e, "webp") {
        "image/webp"
    } else if crate::text::str_eq(e, "ico") {
        "image/x-icon"
    } else if crate::text::str_eq(e, "woff") {
        "font/woff"
    } else if crate::text::str_eq(e, "woff2") {
        "font/woff2"
    } else if crate::text::str_eq(e, "pdf") {
        "application/pdf"
    } else if crate::text::str_eq(e, "txt") || crate::text::str_eq(e, "adoc") {
        "text/plain; charset=utf-8"
    } else {
        "application/octet-stream"
    }
}

/// The last index at which `needle` occurs in `hay`, or `-1`.
pub open spec fn last_occurrence(hay: Seq<char>, needle: Seq<char>, i: int) -> int
    decreases i + 1,
{
    if i < 0 {
        -1
    } else if crate::text::occurs_at(hay, needle, i) {
        i
    } else {
        last_occurrence(hay, needle, i - 1)
    }
}

/// An HTML document with the reload client inserted before its last
/// `</body>`, or appended when it has none.
pub open spec fn injected(html: Seq<char>) -> Seq<char> {
    let pos = last_occurrence(html, "</body>"@, html.len() as int);
    if pos < 0 {
        html + reload_client_text()
    } else {
        html.take(pos) + reload_client_text() + html.skip(pos)
    }
}

/// Injection only inserts: the served document is the original with the
/// reload client inserted at one place, and taking it out again gives the
/// original back.
pub proof fn law_injection_only_inserts(html: Seq<char>)
    ensures
        exists|pos: int| 0 <= pos <= html.len() && #[trigger] injected(html) == html.take(pos) + reload_client_text() + html.skip(pos),
{
    let pos = last_occurrence(html, "</body>"@, html.len() as int);
    lemma_last_occurrence_range(html, "</body>"@, html.len() as int);
    if pos < 0 {
        assert(html.take(html.len() as int) == html);
        assert(html.skip(html.len() as int) == Seq::<char>::empty());
        assert(injected(html) == html.take(html.len() as int) + reload_client_text() + html.skip(html.len() as int));
    } else {
        assert(injected(html) == html.take(pos) + reload_client_text() + html.skip(pos));
    }
}

proof fn lemma_last_occurrence_range(hay: Seq<char>, needle: Seq<char>, i: int)
    ensures
        last_occurrence(hay, needle, i) < 0 || (0 <= last_occurrence(hay, needle, i) <= i && crate::text::occurs_at(
            hay,
            needle,
            last_occurrence(hay, needle, i),
        )),
    decreases i + 1,
{
    if i >= 0 && !crate::text::occurs_at(hay, needle, i) {
        lemma_last_occurrence_range(hay, needle, i - 1);
    }
}

/// Every request path names a file: the key is never empty and never a
/// directory.
pub proof fn law_keys_name_files(path: Seq<char>)
    ensures
        site_key_text(path).len() > 0,
        site_key_text(path).last() != '/',
{
    reveal_strlit("index.html");
    let key = without_leading_slashes(path);
    if key.len() == 0 || key.last() == '/' {
        assert((key + "index.html"@).last() == 'l');
    }
}

/// Inserts the reload client into an HTML document.
pub fn inject_reload_client(html: &str) -> (r: String)
    ensures
        r@ == injected(html@),
{
    let h = chars_of(html);
    let closer = chars_of("</body>");
    let mut i: usize = h.len();
    let mut found: Option<usize> = None;
    loop
        invariant_except_break
            i <= h.len(),
            found is None,
            closer@ == "</body>"@,
            last_occurrence(h@, closer@, h.len() as int) == last_occurrence(h@, closer@, i as int),
        ensures
            match found {
                Some(p) => last_occurrence(h@, closer@, h.len() as int) == p && p <= h.len(),
                None => last_occurrence(h@, closer@, h.len() as int) == -1,
            },
        decreases i,
    {
        if crate::text::matches_at(h.as_slice(), closer.as_slice(), i) {
            found = Some(i);
            break;
        }
        if i == 0 {
            assert(last_occurrence(h@, closer@, -1) == -1);
            break;
        }
        i -= 1;
    }
    let client = reload_client();
    match found {
        None => {
            let mut out = owned(html);
            push_str(&mut out, client);
            out
        },
        Some(p) => {
            let before = slice_vec(h.as_slice(), 0, p);
            let after = slice_vec(h.as_slice(), p, h.len());
            let mut out = string_of(before.as_slice());
            push_str(&mut out, client);
            push_chars(&mut out, after.as_slice());
            out
        },
    }
}

} // verus!
