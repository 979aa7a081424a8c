//! Build-time syntax highlighting for the test sources the coverage
//! overlay inlines: class-based HTML split per source line, each line a
//! self-contained fragment.

use vstd::prelude::*;
use crate::search::{lemma_next_char, next_char, next_char_exec};
use crate::text::{
    chars_eq, chars_of, ends_with_chars, join_chars, join_seq, lemma_split_nonempty, matches_at,
    occurs_at, slice_vec, split_chars, split_seq, starts_with_chars, string_of, views,
};
use super::{escaped, push_escaped};

verus! {

/// The scope families the stylesheet's token palette styles.
pub open spec fn is_styled(t: Seq<char>) -> bool {
    ||| t == "comment"@
    ||| t == "keyword"@
    ||| t == "storage"@
    ||| t == "string"@
    ||| t == "constant"@
    ||| t == "entity"@
    ||| t == "support"@
    ||| t == "variable"@
}

fn styled(t: &[char]) -> (b: bool)
    ensures
        b == is_styled(t@),
{
    let names = [
        "comment", "keyword", "storage", "string", "constant", "entity", "support", "variable",
    ];
    let mut k: usize = 0;
    while k < 8
        invariant
            k <= 8,
            names@ == seq!["comment", "keyword", "storage", "string", "constant", "entity", "support", "variable"],
            forall|j: int| 0 <= j < k ==> t@ != (#[trigger] names@[j])@,
        decreases 8 - k,
    {
        let c = chars_of(names[k]);
        if chars_eq(t, c.as_slice()) {
            return true;
        }
        k += 1;
    }
    assert(!(t@ == names@[0]@) && !(t@ == names@[1]@) && !(t@ == names@[2]@) && !(t@ == names@[3]@));
    assert(!(t@ == names@[4]@) && !(t@ == names@[5]@) && !(t@ == names@[6]@) && !(t@ == names@[7]@));
    false
}

/// The class list of a generated opening tag `<span class="…">`.
pub open spec fn tag_classes(tag: Seq<char>) -> Option<Seq<char>> {
    let pre = "<span class=\""@;
    let suf = "\">"@;
    if tag.len() >= pre.len() + suf.len() && tag.take(pre.len() as int) == pre && tag.skip(
        tag.len() - suf.len(),
    ) == suf {
        Some(tag.subrange(pre.len() as int, tag.len() - suf.len()))
    } else {
        None
    }
}

/// The opening tag kept for the palette: `None` for a span the
/// stylesheet never styles, else the tag with the language suffix
/// (`rust`) dropped from its class list.
pub open spec fn kept_tag(tag: Seq<char>) -> Option<Seq<char>> {
    match tag_classes(tag) {
        None => None,
        Some(classes) => {
            let tokens = split_seq(classes, ' ');
            let tokens = if tokens.len() > 0 && tokens.last() == "rust"@ {
                tokens.drop_last()
            } else {
                tokens
            };
            if tokens.len() == 0 || !is_styled(tokens[0]) {
                None
            } else {
                Some("<span class=\""@ + join_seq(tokens, " "@) + "\">"@)
            }
        },
    }
}

/// Rewrites one of the generator's opening tags for the palette.
pub fn keep_tag(tag: &[char]) -> (r: Option<Vec<char>>)
    ensures
        match r {
            Some(t) => kept_tag(tag@) == Some(t@),
            None => kept_tag(tag@) is None,
        },
{
    let pre = chars_of("<span class=\"");
    let suf = chars_of("\">");
    proof {
        reveal_strlit("<span class=\"");
        reveal_strlit("\">");
    }
    if tag.len() < pre.len() + suf.len() || !starts_with_chars(tag, pre.as_slice()) || !ends_with_chars(
        tag,
        suf.as_slice(),
    ) {
        return None;
    }
    let classes = slice_vec(tag, pre.len(), tag.len() - suf.len());
    let mut tokens = split_chars(classes.as_slice(), ' ');
    proof {
        lemma_split_nonempty(classes@, ' ');
    }
    let rust = chars_of("rust");
    let last = tokens.len() - 1;
    if chars_eq(tokens[last].as_slice(), rust.as_slice()) {
        tokens.pop();
        assert(views(tokens@) =~= split_seq(classes@, ' ').drop_last());
    }
    if tokens.len() == 0 || !styled(tokens[0].as_slice()) {
        return None;
    }
    let joined = join_chars(&tokens, chars_of(" ").as_slice());
    let mut out = pre;
    let mut i: usize = 0;
    let ghost start = out@;
    while i < joined.len()
        invariant
            i <= joined.len(),
            out@ == start + joined@.take(i as int),
        decreases joined.len() - i,
    {
        out.push(joined[i]);
        assert(joined@.take(i + 1) == joined@.take(i as int).push(joined@[i as int]));
        i += 1;
    }
    assert(joined@.take(joined.len() as int) == joined@);
    out.push('"');
    out.push('>');
    assert(out@ == "<span class=\""@ + join_seq(views(tokens@), " "@) + "\">"@);
    Some(out)
}

/// The closing tag.
pub open spec fn span_close() -> Seq<char> {
    seq!['<', '/', 's', 'p', 'a', 'n', '>']
}

/// The start of an opening tag.
pub open spec fn span_open() -> Seq<char> {
    seq!['<', 's', 'p', 'a', 'n']
}

/// The closing tags of every kept span of an open-span stack.
pub open spec fn closes(open: Seq<Option<Seq<char>>>) -> Seq<char>
    decreases open.len(),
{
    if open.len() == 0 {
        Seq::empty()
    } else {
        closes(open.drop_last()) + (if open.last() is Some { "</span>"@ } else { Seq::empty() })
    }
}

/// The opening tags of every kept span of an open-span stack, outermost
/// first.
pub open spec fn reopens(open: Seq<Option<Seq<char>>>) -> Seq<char>
    decreases open.len(),
{
    if open.len() == 0 {
        Seq::empty()
    } else {
        reopens(open.drop_last()) + (match open.last() {
            Some(t) => t,
            None => Seq::empty(),
        })
    }
}

/// The end of a text run starting at `i`: the next `<` or newline, or
/// the end.
pub open spec fn text_end(s: Seq<char>, i: int) -> int
    decreases s.len() - i,
{
    if i < 0 || i >= s.len() {
        s.len() as int
    } else if s[i] == '<' || s[i] == '\n' {
        i
    } else {
        text_end(s, i + 1)
    }
}

pub proof fn lemma_text_end(s: Seq<char>, i: int)
    requires
        0 <= i <= s.len(),
    ensures
        i <= text_end(s, i) <= s.len(),
    decreases s.len() - i,
{
    if i < s.len() && !(s[i] == '<' || s[i] == '\n') {
        lemma_text_end(s, i + 1);
    }
}

/// The opened-span views of an exec stack.
pub open spec fn opt_views(v: Seq<Option<Vec<char>>>) -> Seq<Option<Seq<char>>> {
    Seq::new(
        v.len(),
        |i: int|
            match v[i] {
                Some(t) => Some(t@),
                None => None,
            },
    )
}

/// The splitter's state after reading `s` from `i` on: finished lines,
/// the line under construction, and the stack of open spans (each kept,
/// as its rewritten tag, or dropped).
pub open spec fn split_from(
    s: Seq<char>,
    i: int,
    lines: Seq<Seq<char>>,
    cur: Seq<char>,
    open: Seq<Option<Seq<char>>>,
) -> (Seq<Seq<char>>, Seq<char>, Seq<Option<Seq<char>>>)
    decreases s.len() - i,
{
    if i < 0 || i >= s.len() {
        (lines, cur, open)
    } else if occurs_at(s, span_close(), i) {
        let kept = open.len() > 0 && open.last() is Some;
        split_from(
            s,
            i + 7,
            lines,
            if kept { cur + "</span>"@ } else { cur },
            if open.len() > 0 { open.drop_last() } else { open },
        )
    } else if occurs_at(s, span_open(), i) {
        proof {
            lemma_next_char(s, '>', i);
        }
        let j = next_char(s, '>', i);
        let end = if j == -1 { s.len() as int } else { j + 1 };
        let kept = kept_tag(s.subrange(i, end));
        split_from(
            s,
            end,
            lines,
            match kept {
                Some(t) => cur + t,
                None => cur,
            },
            open.push(kept),
        )
    } else if s[i] == '\n' {
        split_from(s, i + 1, lines.push(cur + closes(open)), reopens(open), open)
    } else {
        proof {
            lemma_text_end(s, i);
        }
        let e = text_end(s, i);
        let nx = if e > i { e } else { i + 1 };
        split_from(s, nx, lines, cur + s.subrange(i, nx), open)
    }
}

/// Whether a fragment holds nothing but tags from `i` on.
pub open spec fn only_tags_from(s: Seq<char>, i: int) -> bool
    decreases s.len() - i,
{
    if i < 0 || i >= s.len() {
        true
    } else if s[i] != '<' {
        false
    } else {
        proof {
            lemma_next_char(s, '>', i);
        }
        let j = next_char(s, '>', i);
        if j == -1 {
            false
        } else {
            only_tags_from(s, j + 1)
        }
    }
}

/// The per-line fragments of highlighted HTML: every kept span open at a
/// newline is closed there and re-opened at the start of the next line;
/// unstyled spans are unwrapped; a last line holding no text is dropped.
pub open spec fn split_lines_spec(html: Seq<char>) -> Seq<Seq<char>> {
    let st = split_from(html, 0, Seq::empty(), Seq::empty(), Seq::empty());
    if !only_tags_from(st.1, 0) {
        st.0.push(st.1 + closes(st.2))
    } else {
        st.0
    }
}

/// Whether a fragment holds nothing but tags (no text at all).
pub fn only_tags(fragment: &[char]) -> (b: bool)
    ensures
        b == only_tags_from(fragment@, 0),
{
    let mut i: usize = 0;
    while i < fragment.len()
        invariant
            i <= fragment.len(),
            only_tags_from(fragment@, 0) == only_tags_from(fragment@, i as int),
        decreases fragment.len() - i,
    {
        if fragment[i] != '<' {
            return false;
        }
        proof {
            lemma_next_char(fragment@, '>', i as int);
        }
        match next_char_exec(fragment, '>', i) {
            None => {
                return false;
            },
            Some(j) => {
                i = j + 1;
            },
        }
    }
    true
}

fn push_closes(out: &mut Vec<char>, open: &Vec<Option<Vec<char>>>)
    ensures
        final(out)@ == old(out)@ + closes(opt_views(open@)),
{
    let ghost start = out@;
    let mut k: usize = 0;
    while k < open.len()
        invariant
            k <= open.len(),
            out@ == start + closes(opt_views(open@.take(k as int))),
        decreases open.len() - k,
    {
        assert(opt_views(open@.take(k + 1)).drop_last() =~= opt_views(open@.take(k as int)));
        if open[k].is_some() {
            out.push('<');
            out.push('/');
            out.push('s');
            out.push('p');
            out.push('a');
            out.push('n');
            out.push('>');
            proof {
                reveal_strlit("</span>");
            }
        }
        k += 1;
    }
    assert(open@.take(open.len() as int) == open@);
}

fn push_reopens(out: &mut Vec<char>, open: &Vec<Option<Vec<char>>>)
    ensures
        final(out)@ == old(out)@ + reopens(opt_views(open@)),
{
    let ghost start = out@;
    let mut k: usize = 0;
    while k < open.len()
        invariant
            k <= open.len(),
            out@ == start + reopens(opt_views(open@.take(k as int))),
        decreases open.len() - k,
    {
        assert(opt_views(open@.take(k + 1)).drop_last() =~= opt_views(open@.take(k as int)));
        match &open[k] {
            Some(t) => {
                let ghost before = out@;
                let mut m: usize = 0;
                while m < t.len()
                    invariant
                        m <= t.len(),
                        out@ == before + t@.take(m as int),
                    decreases t.len() - m,
                {
                    out.push(t[m]);
                    assert(t@.take(m + 1) == t@.take(m as int).push(t@[m as int]));
                    m += 1;
                }
                assert(t@.take(t.len() as int) == t@);
            },
            None => {},
        }
        k += 1;
    }
    assert(open@.take(open.len() as int) == open@);
}

fn push_run(out: &mut Vec<char>, s: &[char], from: usize, to: usize)
    requires
        from <= to <= s.len(),
    ensures
        final(out)@ == old(out)@ + s@.subrange(from as int, to as int),
{
    let ghost start = out@;
    let mut k: usize = from;
    while k < to
        invariant
            from <= k <= to <= s.len(),
            out@ == start + s@.subrange(from as int, k as int),
        decreases to - k,
    {
        out.push(s[k]);
        assert(s@.subrange(from as int, k + 1) == s@.subrange(from as int, k as int).push(s@[k as int]));
        k += 1;
    }
}

/// The strings of a list of lines.
pub open spec fn string_views(v: Seq<String>) -> Seq<Seq<char>> {
    Seq::new(v.len(), |i: int| v[i]@)
}

fn strings_of(v: &Vec<Vec<char>>) -> (r: Vec<String>)
    ensures
        string_views(r@) == views(v@),
{
    let mut r: Vec<String> = Vec::new();
    let mut k: usize = 0;
    while k < v.len()
        invariant
            k <= v.len(),
            string_views(r@) == views(v@.take(k as int)),
        decreases v.len() - k,
    {
        let ghost prev = string_views(r@);
        r.push(string_of(v[k].as_slice()));
        assert(string_views(r@) =~= prev.push(v@[k as int]@));
        assert(views(v@.take(k + 1)) =~= views(v@.take(k as int)).push(v@[k as int]@));
        k += 1;
    }
    assert(v@.take(v.len() as int) == v@);
    r
}

/// Splits highlighted HTML at newlines into self-contained fragments:
/// every kept span open at a newline is closed there and re-opened
/// (same class) at the start of the next line; unstyled spans are
/// unwrapped.
#[verifier::rlimit(30)]
pub fn split_lines(html: &str) -> (r: Vec<String>)
    ensures
        string_views(r@) == split_lines_spec(html@),
{
    let s = chars_of(html);
    let close = chars_of("</span>");
    let opn = chars_of("<span");
    proof {
        reveal_strlit("</span>");
        reveal_strlit("<span");
        assert(close@ =~= span_close());
        assert(opn@ =~= span_open());
    }
    let n = s.len();
    let mut lines: Vec<Vec<char>> = Vec::new();
    let mut current: Vec<char> = Vec::new();
    let mut open: Vec<Option<Vec<char>>> = Vec::new();
    let mut pos: usize = 0;
    let ghost goal = split_from(s@, 0, Seq::empty(), Seq::empty(), Seq::empty());
    assert(views(lines@) =~= Seq::<Seq<char>>::empty());
    assert(opt_views(open@) =~= Seq::<Option<Seq<char>>>::empty());
    while pos < n
        invariant
            pos <= n,
            n == s@.len(),
            close@ == span_close(),
            opn@ == span_open(),
            goal == split_from(s@, pos as int, views(lines@), current@, opt_views(open@)),
        decreases n - pos,
    {
        let ghost l0 = views(lines@);
        let ghost c0 = current@;
        let ghost o0 = opt_views(open@);
        if matches_at(s.as_slice(), close.as_slice(), pos) {
            let popped = open.pop();
            let kept = match popped {
                Some(Some(_)) => true,
                _ => false,
            };
            if kept {
                current.push('<');
                current.push('/');
                current.push('s');
                current.push('p');
                current.push('a');
                current.push('n');
                current.push('>');
                proof {
                    reveal_strlit("</span>");
                }
            }
            assert(opt_views(open@) =~= (if o0.len() > 0 { o0.drop_last() } else { o0 }));
            assert(current@ =~= (if o0.len() > 0 && o0.last() is Some { c0 + "</span>"@ } else { c0 }));
            pos = pos + 7;
        } else if matches_at(s.as_slice(), opn.as_slice(), pos) {
            proof {
                lemma_next_char(s@, '>', pos as int);
            }
            let end = match next_char_exec(s.as_slice(), '>', pos) {
                Some(j) => j + 1,
                None => n,
            };
            let tag = slice_vec(s.as_slice(), pos, end);
            let kept = keep_tag(tag.as_slice());
            match &kept {
                Some(t) => {
                    push_run(&mut current, t.as_slice(), 0, t.len());
                    assert(t@.subrange(0, t@.len() as int) == t@);
                },
                None => {},
            }
            open.push(kept);
            assert(opt_views(open@) =~= o0.push(kept_tag(s@.subrange(pos as int, end as int))));
            pos = end;
        } else if s[pos] == '\n' {
            let mut line = current;
            push_closes(&mut line, &open);
            lines.push(line);
            let mut next: Vec<char> = Vec::new();
            push_reopens(&mut next, &open);
            current = next;
            assert(views(lines@) =~= l0.push(c0 + closes(o0)));
            pos = pos + 1;
        } else {
            let mut e: usize = pos;
            while e < n && s[e] != '<' && s[e] != '\n'
                invariant
                    pos <= e <= n,
                    n == s@.len(),
                    text_end(s@, pos as int) == text_end(s@, e as int),
                decreases n - e,
            {
                e += 1;
            }
            let nx = if e > pos { e } else { pos + 1 };
            push_run(&mut current, s.as_slice(), pos, nx);
            pos = nx;
        }
    }
    if !only_tags(current.as_slice()) {
        push_closes(&mut current, &open);
        lines.push(current);
    }
    strings_of(&lines)
}

/// A line without the `\r` of a `\r\n` ending.
pub open spec fn cr_stripped(l: Seq<char>) -> Seq<char> {
    if l.len() > 0 && l.last() == '\r' {
        l.drop_last()
    } else {
        l
    }
}

/// The lines `str::lines` yields: split at `\n`, a `\r` before a `\n`
/// dropped, no line after a final line ending, none for empty text.
pub open spec fn source_lines(s: Seq<char>) -> Seq<Seq<char>> {
    if s.len() == 0 {
        Seq::empty()
    } else {
        let parts = split_seq(s, '\n');
        let ended = Seq::new((parts.len() - 1) as nat, |i: int| cr_stripped(parts[i]));
        if parts.last().len() == 0 {
            ended
        } else {
            ended.push(parts.last())
        }
    }
}

fn source_lines_exec(s: &[char]) -> (r: Vec<Vec<char>>)
    ensures
        views(r@) == source_lines(s@),
{
    let mut r: Vec<Vec<char>> = Vec::new();
    if s.len() == 0 {
        assert(views(r@) =~= Seq::<Seq<char>>::empty());
        return r;
    }
    let parts = split_chars(s, '\n');
    proof {
        lemma_split_nonempty(s@, '\n');
    }
    let ghost ps = views(parts@);
    let last = parts.len() - 1;
    let mut k: usize = 0;
    while k < last
        invariant
            k <= last,
            last == parts.len() - 1,
            ps == views(parts@),
            views(r@) == Seq::new(k as nat, |i: int| cr_stripped(ps[i])),
        decreases last - k,
    {
        let p = &parts[k];
        assert(p@ == ps[k as int]);
        let ghost prev = views(r@);
        let piece = if p.len() > 0 && p[p.len() - 1] == '\r' {
            let q = slice_vec(p.as_slice(), 0, p.len() - 1);
            assert(q@ =~= p@.drop_last());
            q
        } else {
            let q = slice_vec(p.as_slice(), 0, p.len());
            assert(q@ =~= p@);
            q
        };
        assert(piece@ == cr_stripped(ps[k as int]));
        r.push(piece);
        assert(views(r@) =~= prev.push(cr_stripped(ps[k as int])));
        k += 1;
        assert(views(r@) =~= Seq::new(k as nat, |i: int| cr_stripped(ps[i])));
    }
    assert(ps == split_seq(s@, '\n'));
    assert(ps.last() == parts@[last as int]@);
    let ghost prev = views(r@);
    if parts[last].len() > 0 {
        let q = slice_vec(parts[last].as_slice(), 0, parts[last].len());
        assert(q@ =~= ps.last());
        r.push(q);
        assert(views(r@) =~= prev.push(ps.last()));
    }
    assert(views(r@) =~= source_lines(s@));
    r
}

/// The escaped plain-text lines of a source.
pub open spec fn plain(source: Seq<char>) -> Seq<Seq<char>> {
    Seq::new(source_lines(source).len(), |i: int| escaped(source_lines(source)[i]))
}

/// Escaped plain text, one fragment per source line.
pub fn plain_lines(source: &str) -> (r: Vec<String>)
    ensures
        string_views(r@) == plain(source@),
{
    let cs = chars_of(source);
    let lines = source_lines_exec(cs.as_slice());
    let mut r: Vec<String> = Vec::new();
    let mut k: usize = 0;
    while k < lines.len()
        invariant
            k <= lines.len(),
            views(lines@) == source_lines(source@),
            string_views(r@) == Seq::new(k as nat, |i: int| escaped(source_lines(source@)[i])),
        decreases lines.len() - k,
    {
        let mut out = String::new();
        push_escaped(&mut out, lines[k].as_slice());
        let ghost prev = string_views(r@);
        r.push(out);
        assert(lines@[k as int]@ == source_lines(source@)[k as int]);
        assert(string_views(r@) =~= prev.push(escaped(source_lines(source@)[k as int])));
        k += 1;
        assert(string_views(r@) =~= Seq::new(k as nat, |i: int| escaped(source_lines(source@)[i])));
    }
    r
}

/// The fragments for a source given the generator's HTML: the split
/// HTML when the generator succeeded and the split covers exactly the
/// source's lines, else escaped plain text.
pub open spec fn highlighted(source: Seq<char>, html: Option<Seq<char>>) -> Seq<Seq<char>> {
    match html {
        None => plain(source),
        Some(h) => if split_lines_spec(h).len() == source_lines(source).len() {
            split_lines_spec(h)
        } else {
            plain(source)
        },
    }
}

/// Chooses between the generator's split output and the plain fallback.
pub fn highlight_from(source: &str, html: Option<String>) -> (r: Vec<String>)
    ensures
        string_views(r@) == highlighted(
            source@,
            match html {
                Some(h) => Some(h@),
                None => None,
            },
        ),
{
    match html {
        None => plain_lines(source),
        Some(h) => {
            let lines = split_lines(h.as_str());
            let cs = chars_of(source);
            let expected = source_lines_exec(cs.as_slice());
            if lines.len() == expected.len() {
                lines
            } else {
                plain_lines(source)
            }
        },
    }
}

/// What syntect's class-based HTML generator emits for Rust source.
pub uninterp spec fn rust_classed_html(source: Seq<char>) -> Option<Seq<char>>;

/// Runs syntect's `ClassedHTMLGenerator` (spaced class style, the
/// default syntax set's Rust grammar) over the source line by line and
/// returns its finalized HTML; `None` when the grammar is missing or a
/// line fails to parse. The result is named, not described.
#[verifier::external_body]
fn classed_rust_html(source: &str) -> (r: Option<String>)
    ensures
        rust_classed_html(source@) == match r {
            Some(h) => Some(h@),
            None => None,
        },
{
    let syntaxes = syntect::parsing::SyntaxSet::load_defaults_newlines();
    let syntax = syntaxes.find_syntax_by_extension("rs")?;
    let style = syntect::html::ClassStyle::Spaced;
    let mut generator = syntect::html::ClassedHTMLGenerator::new_with_class_style(syntax, &syntaxes, style);
    for line in syntect::util::LinesWithEndings::from(source) {
        generator.parse_html_for_line_which_includes_newline(line).ok()?;
    }
    Some(generator.finalize())
}

/// Highlights Rust source as one HTML fragment per line (no trailing
/// newlines), each fragment self-contained; falls back to escaped plain
/// text if highlighting fails or the split loses track of the lines.
pub fn highlight_rust_lines(source: &str) -> (r: Vec<String>)
    ensures
        string_views(r@) == highlighted(source@, rust_classed_html(source@)),
{
    let html = classed_rust_html(source);
    highlight_from(source, html)
}

} // verus!
