//! The claim grammar and the provenance of claims found in test roots:
//! what a `verifies!` invocation's string literals claim, the source of
//! an enclosing test function, repository-relative file names, which
//! files a scan reads, and the crate a manifest names. Walking
//! directories and parsing Rust sources is the application's work.

use vstd::prelude::*;
use crate::coverage::model::{Claim, ClaimSite, ClaimTarget};
use crate::model::catalog::copy_opt;
use crate::model::resource::opt_view;
use crate::coverage::sidecar::{field, parse_toml, toml_document, TomlValue};
use crate::model::playbook::{trim_dot_slash, trim_dot_slash_exec};
use crate::text::{chars_of, first_index, index_of, is_whitespace, is_ws, join_seq, owned, push_str, slice_vec, split_chars, split_seq, str_eq, string_of, trim_ws, views};

verus! {

/// Errors from scanning a test root.
#[derive(Clone, Debug)]
pub enum ScanError {
    /// A directory or file could not be read.
    Io {
        /// The path being read.
        path: String,
        /// The underlying error, stringified.
        message: String,
    },
    /// A Rust file failed to parse.
    Parse {
        /// The file.
        file: String,
        /// The parser's message.
        message: String,
    },
    /// A `verifies!` invocation does not follow the claim grammar.
    Invocation {
        /// The file.
        file: String,
        /// The invocation's line.
        line: u32,
        /// What was wrong.
        message: String,
    },
}

/// The message a scan error displays.
pub open spec fn scan_error_text(e: ScanError) -> Seq<char> {
    match e {
        ScanError::Io { path, message } => "cannot read "@ + path@ + ": "@ + message@,
        ScanError::Parse { file, message } => file@ + ": cannot parse: "@ + message@,
        ScanError::Invocation { file, line, message } => file@ + ":"@ + crate::text::dec(line as nat)
            + ": invalid verifies! invocation: "@ + message@,
    }
}

impl ScanError {
    /// The error as a message.
    pub fn to_string(&self) -> (r: String)
        ensures
            r@ == scan_error_text(*self),
    {
        match self {
            ScanError::Io { path, message } => {
                let mut out = owned("cannot read ");
                push_str(&mut out, path.as_str());
                push_str(&mut out, ": ");
                push_str(&mut out, message.as_str());
                out
            },
            ScanError::Parse { file, message } => {
                let mut out = owned(file.as_str());
                push_str(&mut out, ": cannot parse: ");
                push_str(&mut out, message.as_str());
                out
            },
            ScanError::Invocation { file, line, message } => {
                let mut out = owned(file.as_str());
                push_str(&mut out, ":");
                let d = crate::text::dec_string(*line as u64);
                push_str(&mut out, d.as_str());
                push_str(&mut out, ": invalid verifies! invocation: ");
                push_str(&mut out, message.as_str());
                out
            },
        }
    }
}

/// One test root to scan.
#[derive(Clone, Debug)]
pub struct TestRoot {
    /// The directory holding the `.rs` files.
    pub dir: String,
    /// The directory's path within its repository (`/`-separated; empty
    /// for the repository root).
    pub repo_prefix: String,
    /// Whether the directory is a local source (a worktree), so claims
    /// may carry the file's absolute path for the editor.
    pub local: bool,
    /// The repository the root came from, for provenance.
    pub repo: Option<String>,
    /// The revision the root was read at, for provenance.
    pub rev: Option<String>,
    /// The `coverage.scan` entry index the root belongs to.
    pub scope: usize,
    /// The crate name to record when no `Cargo.toml` is found at or above
    /// a file within the root.
    pub krate: Option<String>,
}

/// A claim's target, anchor and excerpt.
pub struct InvocationView {
    pub target: ClaimTarget,
    pub anchor: Option<Seq<char>>,
    pub excerpt: Option<Seq<char>>,
}

/// What an invocation's string literals claim, or why they claim
/// nothing: one or two literals; the first a page path with an optional
/// `#anchor` (split at the first `#`), neither part empty; a claim
/// without an excerpt must name an anchor; an excerpt must hold more
/// than whitespace. A path with a `:` is a resource ID; any other path
/// loses its leading `./`.
pub open spec fn invocation_of(args: Option<Seq<Seq<char>>>) -> Result<(Seq<char>, bool, Option<Seq<char>>, Option<Seq<char>>), Seq<char>> {
    match args {
        None => Err("expected one or two string literals"@),
        Some(a) => if a.len() == 0 {
            Err("expected a page path"@)
        } else if a.len() > 2 {
            Err("expected at most two string literals"@)
        } else {
            let first = a[0];
            let excerpt = if a.len() == 2 { Some(a[1]) } else { None };
            let h = first_index(first, '#');
            let page = if h < 0 { first } else { first.take(h) };
            let anchor = if h < 0 { None } else { Some(first.skip(h + 1)) };
            if page.len() == 0 {
                Err("empty page path"@)
            } else if anchor matches Some(x) && x.len() == 0 {
                Err("empty #anchor"@)
            } else if excerpt is None && anchor is None {
                Err("a claim without an excerpt must name a #anchor section"@)
            } else if excerpt matches Some(e) && trim_ws(e).len() == 0 {
                Err("empty excerpt"@)
            } else if first_index(page, ':') >= 0 {
                Ok((page, true, anchor, excerpt))
            } else {
                Ok((trim_dot_slash(page), false, anchor, excerpt))
            }
        },
    }
}

/// The text of a claim target, and whether it is a resource ID.
pub open spec fn target_view(t: ClaimTarget) -> (Seq<char>, bool) {
    match t {
        ClaimTarget::Path(p) => (p@, false),
        ClaimTarget::ResourceId(r) => (r@, true),
    }
}

/// The string literals of an invocation as text.
pub open spec fn literal_views(args: Option<Vec<String>>) -> Option<Seq<Seq<char>>> {
    match args {
        Some(v) => Some(Seq::new(v@.len(), |i: int| v@[i]@)),
        None => None,
    }
}

/// Parses the three claim forms: `("<path>", "<excerpt>")`,
/// `("<path>#<anchor>", "<excerpt>")`, and `("<path>#<anchor>")`, given
/// the invocation's string literals (`None` when its body is not a list
/// of string literals).
pub fn parse_invocation(args: Option<Vec<String>>) -> (r: Result<(ClaimTarget, Option<String>, Option<String>), String>)
    ensures
        match r {
            Ok((t, anchor, excerpt)) => invocation_of(literal_views(args)) == Ok::<
                (Seq<char>, bool, Option<Seq<char>>, Option<Seq<char>>),
                Seq<char>,
            >((target_view(t).0, target_view(t).1, crate::model::resource::opt_view(anchor), crate::model::resource::opt_view(excerpt))),
            Err(e) => invocation_of(literal_views(args)) == Err::<
                (Seq<char>, bool, Option<Seq<char>>, Option<Seq<char>>),
                Seq<char>,
            >(e@),
        },
{
    let ghost views = literal_views(args);
    let a = match args {
        None => return Err(owned("expected one or two string literals")),
        Some(a) => a,
    };
    assert(views == Some(Seq::new(a@.len(), |i: int| a@[i]@)));
    if a.len() == 0 {
        return Err(owned("expected a page path"));
    }
    if a.len() > 2 {
        return Err(owned("expected at most two string literals"));
    }
    let first = chars_of(a[0].as_str());
    let excerpt: Option<String> = if a.len() == 2 {
        Some(a[1].clone())
    } else {
        None
    };
    proof {
        crate::text::lemma_first_index(first@, '#');
    }
    let (page, anchor) = match index_of(first.as_slice(), '#') {
        None => (crate::text::copy_chars(first.as_slice()), None),
        Some(h) => (slice_vec(first.as_slice(), 0, h), Some(slice_vec(first.as_slice(), h + 1, first.len()))),
    };
    if page.len() == 0 {
        return Err(owned("empty page path"));
    }
    match &anchor {
        Some(x) => {
            if x.len() == 0 {
                return Err(owned("empty #anchor"));
            }
        },
        None => {},
    }
    if excerpt.is_none() && anchor.is_none() {
        return Err(owned("a claim without an excerpt must name a #anchor section"));
    }
    match &excerpt {
        Some(e) => {
            let ec = chars_of(e.as_str());
            let t = crate::text::trim_chars(ec.as_slice());
            if t.len() == 0 {
                return Err(owned("empty excerpt"));
            }
        },
        None => {},
    }
    let anchor_text = match &anchor {
        Some(x) => Some(string_of(x.as_slice())),
        None => None,
    };
    if crate::text::has_char(page.as_slice(), ':') {
        proof {
            crate::text::lemma_first_index(page@, ':');
        }
        Ok((ClaimTarget::ResourceId(string_of(page.as_slice())), anchor_text, excerpt))
    } else {
        proof {
            crate::text::lemma_first_index(page@, ':');
        }
        let p = trim_dot_slash_exec(page.as_slice());
        Ok((ClaimTarget::Path(string_of(p.as_slice())), anchor_text, excerpt))
    }
}

/// A scanned file's name within its repository: the root's prefix
/// without surrounding slashes, `/`, and the file's path within the root;
/// the path alone when the root is the repository's.
pub open spec fn claim_file_text(repo_prefix: Seq<char>, rel: Seq<char>) -> Seq<char> {
    if repo_prefix.len() == 0 {
        rel
    } else {
        crate::site::trim_trail_slash(crate::site::trim_lead_slash(repo_prefix)) + "/"@ + rel
    }
}

/// A scanned file's name within its repository.
pub fn claim_file(repo_prefix: &str, rel: &str) -> (r: String)
    ensures
        r@ == claim_file_text(repo_prefix@, rel@),
{
    let pc = chars_of(repo_prefix);
    if pc.len() == 0 {
        return owned(rel);
    }
    let core = crate::site::trim_slashes(pc.as_slice());
    let mut out = string_of(core.as_slice());
    push_str(&mut out, "/");
    push_str(&mut out, rel);
    out
}

/// Which entries of a test root a scan reads: hidden entries are skipped,
/// directories other than `target` are descended into, and files ending
/// in `.rs` are read.
#[derive(Clone, Copy, Debug, PartialEq, Eq, Structural)]
pub enum EntryUse {
    /// Not read.
    Skip,
    /// A directory to walk.
    Descend,
    /// A Rust file to scan.
    Scan,
}

/// What a scan does with one directory entry.
pub open spec fn entry_use_of(name: Seq<char>, is_dir: bool, extension: Option<Seq<char>>) -> EntryUse {
    if name.len() > 0 && name[0] == '.' {
        EntryUse::Skip
    } else if is_dir {
        if name == "target"@ {
            EntryUse::Skip
        } else {
            EntryUse::Descend
        }
    } else if extension == Some("rs"@) {
        EntryUse::Scan
    } else {
        EntryUse::Skip
    }
}

/// What a scan does with one directory entry, given its name, whether it
/// is a directory, and its extension.
pub fn entry_use(name: &str, is_dir: bool, extension: Option<&str>) -> (r: EntryUse)
    ensures
        r == entry_use_of(name@, is_dir, match extension {
            Some(e) => Some(e@),
            None => None,
        }),
{
    let n = chars_of(name);
    if n.len() > 0 && n[0] == '.' {
        EntryUse::Skip
    } else if is_dir {
        if crate::text::str_eq(name, "target") {
            EntryUse::Skip
        } else {
            EntryUse::Descend
        }
    } else {
        match extension {
            Some(e) => if crate::text::str_eq(e, "rs") {
                EntryUse::Scan
            } else {
                EntryUse::Skip
            },
            None => EntryUse::Skip,
        }
    }
}

/// The `[package] name` of a `Cargo.toml`, as its parsed document holds
/// it.
pub open spec fn package_name_in(doc: Result<TomlValue, Seq<char>>) -> Option<Seq<char>> {
    match doc {
        Ok(TomlValue::Table(t)) => match field(t@, "package"@) {
            Some(TomlValue::Table(p)) => match field(p@, "name"@) {
                Some(TomlValue::String(n)) => Some(n@),
                _ => None,
            },
            _ => None,
        },
        _ => None,
    }
}

/// The `[package] name` of a `Cargo.toml`'s text, if it declares one.
pub fn manifest_package_name(text: &str) -> (r: Option<String>)
    ensures
        match r {
            Some(n) => package_name_in(toml_document(text@)) == Some(n@),
            None => package_name_in(toml_document(text@)) is None,
        },
{
    match parse_toml(text) {
        Ok(TomlValue::Table(t)) => match crate::coverage::sidecar::field_of(&t, "package") {
            Some(TomlValue::Table(p)) => match crate::coverage::sidecar::field_of(p, "name") {
                Some(TomlValue::String(n)) => Some(n.clone()),
                _ => None,
            },
            _ => None,
        },
        _ => None,
    }
}


/// A line without the `\r` of a `\r\n` ending.
pub open spec fn strip_cr(l: Seq<char>) -> Seq<char> {
    if l.len() > 0 && l.last() == '\r' {
        l.drop_last()
    } else {
        l
    }
}

/// The lines of a text, as `str::lines` gives them: split at `\n`, a
/// `\r` before the `\n` dropped, and no empty line after a final `\n`.
pub open spec fn source_lines(t: Seq<char>) -> Seq<Seq<char>> {
    let p = split_seq(t, '\n');
    let body = Seq::new((p.len() - 1) as nat, |k: int| strip_cr(p[k]));
    if p.last().len() == 0 {
        body
    } else {
        body.push(p.last())
    }
}

/// How many whitespace characters a line starts with.
pub open spec fn lead_ws(l: Seq<char>) -> nat
    decreases l.len(),
{
    if l.len() > 0 && is_ws(l[0]) {
        1 + lead_ws(l.drop_first())
    } else {
        0
    }
}

/// The least indentation of the lines holding more than whitespace, if
/// any does.
pub open spec fn least_indent(b: Seq<Seq<char>>) -> Option<nat>
    decreases b.len(),
{
    if b.len() == 0 {
        None
    } else {
        let r = least_indent(b.drop_last());
        let l = b.last();
        if lead_ws(l) == l.len() {
            r
        } else {
            match r {
                None => Some(lead_ws(l)),
                Some(m) => Some(if lead_ws(l) < m { lead_ws(l) } else { m }),
            }
        }
    }
}

/// A line without `n` characters of indentation; a shorter line is blank
/// and loses its whitespace.
pub open spec fn dedent(l: Seq<char>, n: nat) -> Seq<char> {
    if l.len() >= n {
        l.skip(n as int)
    } else {
        l.skip(lead_ws(l) as int)
    }
}

/// The source of lines `start..=end` (1-based, clamped to the text) with
/// the indentation every non-blank line shares removed, joined by `\n`.
pub open spec fn fn_text(lines: Seq<Seq<char>>, start: u32, end: u32) -> Seq<char> {
    let s0: int = if start >= 1 { start - 1 } else { 0 };
    let e0: int = if end <= lines.len() { end as int } else { lines.len() as int };
    let block = lines.subrange(if s0 <= e0 { s0 } else { e0 }, e0);
    let n = match least_indent(block) {
        Some(m) => m,
        None => 0,
    };
    join_seq(Seq::new(block.len(), |k: int| dedent(block[k], n)), "\n"@)
}

/// Splits a text into its lines.
fn lines_of(text: &str) -> (r: Vec<Vec<char>>)
    ensures
        views(r@) == source_lines(text@),
{
    let chars = chars_of(text);
    let pieces = split_chars(chars.as_slice(), '\n');
    proof {
        crate::text::lemma_split_nonempty(text@, '\n');
    }
    let ghost p = split_seq(text@, '\n');
    let n = pieces.len();
    let mut out: Vec<Vec<char>> = Vec::new();
    let mut k: usize = 0;
    while k + 1 < n
        invariant
            n == pieces@.len(),
            n >= 1,
            views(pieces@) == p,
            k + 1 <= n,
            views(out@) == Seq::new(k as nat, |m: int| strip_cr(p[m])),
        decreases n - k,
    {
        let piece = &pieces[k];
        let line = if piece.len() > 0 && piece[piece.len() - 1] == '\r' {
            slice_vec(piece.as_slice(), 0, piece.len() - 1)
        } else {
            crate::text::copy_chars(piece.as_slice())
        };
        assert(piece@ == p[k as int]);
        assert(line@ == strip_cr(p[k as int]));
        let ghost before = out@;
        out.push(line);
        proof {
            crate::text::lemma_views_push(before, line);
        }
        assert(views(out@) =~= Seq::new((k + 1) as nat, |m: int| strip_cr(p[m])));
        k += 1;
    }
    let last = &pieces[n - 1];
    assert(last@ == p.last());
    if last.len() > 0 {
        let ghost before = out@;
        let c = crate::text::copy_chars(last.as_slice());
        out.push(c);
        proof {
            crate::text::lemma_views_push(before, c);
        }
    }
    out
}

/// Counts a line's leading whitespace.
fn lead_ws_exec(l: &[char]) -> (n: usize)
    ensures
        n == lead_ws(l@),
        n <= l@.len(),
{
    let mut i: usize = 0;
    assert(l@.skip(0) =~= l@);
    while i < l.len() && is_whitespace(l[i])
        invariant
            i <= l@.len(),
            lead_ws(l@) == i + lead_ws(l@.skip(i as int)),
        decreases l.len() - i,
    {
        assert(l@.skip(i as int).drop_first() == l@.skip(i + 1));
        i += 1;
    }
    assert(lead_ws(l@.skip(i as int)) == 0);
    i
}

/// The source text of lines `start..=end` of `lines`, dedented.
fn fn_text_exec(lines: &Vec<Vec<char>>, start: u32, end: u32) -> (r: String)
    ensures
        r@ == fn_text(views(lines@), start, end),
{
    let s0: usize = if start >= 1 { (start - 1) as usize } else { 0 };
    let e0: usize = if (end as usize) <= lines.len() { end as usize } else { lines.len() };
    let lo: usize = if s0 <= e0 { s0 } else { e0 };
    let ghost block = views(lines@).subrange(lo as int, e0 as int);
    let mut indent: Option<usize> = None;
    let mut k: usize = lo;
    while k < e0
        invariant
            lo <= k <= e0 <= lines@.len(),
            block == views(lines@).subrange(lo as int, e0 as int),
            (indent is None) == (least_indent(block.take(k - lo)) is None),
            indent matches Some(x) ==> least_indent(block.take(k - lo)) == Some(x as nat),
        decreases e0 - k,
    {
        assert(block.take(k - lo + 1).drop_last() =~= block.take(k - lo));
        assert(block.take(k - lo + 1).last() == lines@[k as int]@);
        let w = lead_ws_exec(lines[k].as_slice());
        assert(lines@[k as int]@ == block[k - lo]);
        if w < lines[k].len() {
            indent = match indent {
                None => Some(w),
                Some(m) => Some(if w < m { w } else { m }),
            };
        }
        k += 1;
    }
    assert(block.take(e0 - lo) =~= block);
    let n: usize = match indent {
        Some(m) => m,
        None => 0,
    };
    let mut pieces: Vec<Vec<char>> = Vec::new();
    let mut k: usize = lo;
    while k < e0
        invariant
            lo <= k <= e0 <= lines@.len(),
            block == views(lines@).subrange(lo as int, e0 as int),
            views(pieces@) == Seq::new((k - lo) as nat, |m: int| dedent(block[m], n as nat)),
        decreases e0 - k,
    {
        let l = &lines[k];
        assert(l@ == block[k - lo]);
        let piece = if l.len() >= n {
            slice_vec(l.as_slice(), n, l.len())
        } else {
            let w = lead_ws_exec(l.as_slice());
            slice_vec(l.as_slice(), w, l.len())
        };
        assert(piece@ =~= dedent(block[k - lo], n as nat));
        let ghost before = pieces@;
        pieces.push(piece);
        proof {
            crate::text::lemma_views_push(before, piece);
        }
        assert(views(pieces@) =~= Seq::new((k + 1 - lo) as nat, |m: int| dedent(block[m], n as nat)));
        k += 1;
    }
    let joined = crate::text::join_chars(&pieces, &['\n']);
    proof {
        reveal_strlit("\n");
        assert(['\n']@ =~= "\n"@);
    }
    assert(views(pieces@) =~= Seq::new(block.len(), |m: int| dedent(block[m], n as nat)));
    string_of(joined.as_slice())
}

/// One step of a walk over a parsed Rust source, in source order: a
/// function item (free, or in an `impl`) opens or closes, or a macro is
/// invoked.
#[derive(Clone, Debug)]
pub enum SourceEvent {
    /// A function item opens.
    FnStart {
        /// The function's name.
        name: String,
        /// The 1-based line the item starts at: its first attribute's, or
        /// its signature's.
        start: u32,
        /// The 1-based line of its body's closing brace.
        end: u32,
    },
    /// The innermost open function item closes.
    FnEnd,
    /// A macro invocation.
    Macro {
        /// The last segment of the macro's path.
        name: String,
        /// The 1-based line of the macro's path.
        line: u32,
        /// The invocation's arguments when they are a comma-separated list
        /// of string literals, as the literals' values.
        literals: Option<Vec<String>>,
    },
}

/// An open function: its name and the lines it spans.
pub type OpenFn = (Seq<char>, u32, u32);

/// A `verifies!` invocation met by a walk: its line, the innermost
/// enclosing function, and its string literals.
pub type FoundMacro = (u32, Option<OpenFn>, Option<Seq<Seq<char>>>);

/// The open functions and the `verifies!` invocations after the first
/// `n` events of a walk.
pub open spec fn walk_events(events: Seq<SourceEvent>, n: nat) -> (Seq<OpenFn>, Seq<FoundMacro>)
    decreases n,
{
    if n == 0 || n > events.len() {
        (Seq::empty(), Seq::empty())
    } else {
        let (stack, found) = walk_events(events, (n - 1) as nat);
        match events[n - 1] {
            SourceEvent::FnStart { name, start, end } => (stack.push((name@, start, end)), found),
            SourceEvent::FnEnd => (if stack.len() > 0 { stack.drop_last() } else { stack }, found),
            SourceEvent::Macro { name, line, literals } => if name@ == "verifies"@ {
                (stack, found.push((line, if stack.len() > 0 { Some(stack.last()) } else { None }, literal_views(literals))))
            } else {
                (stack, found)
            },
        }
    }
}

/// The `verifies!` invocations of a whole walk.
pub open spec fn found_macros(events: Seq<SourceEvent>) -> Seq<FoundMacro> {
    walk_events(events, events.len()).1
}

/// Whether `c` is the claim `site`'s file makes with invocation `f`: the
/// invocation's target, anchor and excerpt, at its line, in its function,
/// with the rest of `site`'s provenance.
pub open spec fn claim_found(c: Claim, lines: Seq<Seq<char>>, site: ClaimSite, f: FoundMacro) -> bool {
    let inv = invocation_of(f.2)->Ok_0;
    &&& target_view(c.target) == (inv.0, inv.1)
    &&& opt_view(c.anchor) == inv.2
    &&& opt_view(c.excerpt) == inv.3
    &&& c.site.line == f.0
    &&& opt_view(c.site.test_fn) == (match f.1 {
        Some(o) => Some(o.0),
        None => None,
    })
    &&& c.site.fn_line == (match f.1 {
        Some(o) => Some(o.1),
        None => None,
    })
    &&& opt_view(c.site.fn_source) == (match f.1 {
        Some(o) => Some(fn_text(lines, o.1, o.2)),
        None => None,
    })
    &&& c.site.file@ == site.file@
    &&& opt_view(c.site.local_path) == opt_view(site.local_path)
    &&& opt_view(c.site.krate) == opt_view(site.krate)
    &&& opt_view(c.site.repo) == opt_view(site.repo)
    &&& opt_view(c.site.rev) == opt_view(site.rev)
    &&& c.site.scope == site.scope
}

/// Whether every invocation before the `k`-th follows the claim grammar.
pub open spec fn valid_upto(found: Seq<FoundMacro>, k: int) -> bool {
    forall|m: int| 0 <= m < k ==> (invocation_of(#[trigger] found[m].2) is Ok)
}

/// The views of a stack of open functions.
pub open spec fn open_views(v: Seq<(String, u32, u32)>) -> Seq<OpenFn> {
    Seq::new(v.len(), |i: int| (v[i].0@, v[i].1, v[i].2))
}

/// The invocations a walk has met stay met as it goes on.
proof fn lemma_walk_prefix(events: Seq<SourceEvent>, n: nat, n2: nat)
    requires
        n <= n2 <= events.len(),
    ensures
        walk_events(events, n).1.len() <= walk_events(events, n2).1.len(),
        forall|m: int| 0 <= m < walk_events(events, n).1.len() ==> #[trigger] walk_events(events, n2).1[m] == walk_events(events, n).1[m],
    decreases n2,
{
    if n < n2 {
        lemma_walk_prefix(events, n, (n2 - 1) as nat);
    }
}

/// Whether `r` is what scanning a walk's events makes of a text's lines:
/// the claims of its `verifies!` invocations when all follow the claim
/// grammar, else the error of the first that does not.
pub open spec fn scanned(lines: Seq<Seq<char>>, events: Seq<SourceEvent>, site: ClaimSite, r: Result<Vec<Claim>, ScanError>) -> bool {
    match r {
        Ok(cs) => {
            &&& valid_upto(found_macros(events), found_macros(events).len() as int)
            &&& cs@.len() == found_macros(events).len()
            &&& forall|m: int| 0 <= m < cs@.len() ==> claim_found(#[trigger] cs@[m], lines, site, found_macros(events)[m])
        },
        Err(e) => exists|m: int|
            0 <= m < found_macros(events).len() && valid_upto(found_macros(events), m) && #[trigger] invocation_of(
                found_macros(events)[m].2,
            ) is Err && (e matches ScanError::Invocation { file, line, message } && file@ == site.file@ && line
                == found_macros(events)[m].0 && message@ == invocation_of(found_macros(events)[m].2)->Err_0),
    }
}

/// The claims of a walked source: one per `verifies!` invocation, in
/// source order, each in its innermost enclosing function, with that
/// function's first line and dedented source; the first invocation that
/// does not follow the claim grammar fails the file.
pub fn claims_from_events(text: &str, events: &[SourceEvent], site: &ClaimSite) -> (r: Result<Vec<Claim>, ScanError>)
    ensures
        scanned(source_lines(text@), events@, *site, r),
{
    let lines = lines_of(text);
    let ghost lv = source_lines(text@);
    let mut stack: Vec<(String, u32, u32)> = Vec::new();
    let mut claims: Vec<Claim> = Vec::new();
    let mut k: usize = 0;
    while k < events.len()
        invariant
            k <= events@.len(),
            views(lines@) == lv,
            open_views(stack@) == walk_events(events@, k as nat).0,
            claims@.len() == walk_events(events@, k as nat).1.len(),
            valid_upto(walk_events(events@, k as nat).1, claims@.len() as int),
            forall|m: int| 0 <= m < claims@.len() ==> claim_found(#[trigger] claims@[m], lv, *site, walk_events(events@, k as nat).1[m]),
        decreases events.len() - k,
    {
        let ghost before = walk_events(events@, k as nat);
        let ghost stack0 = stack@;
        let ghost claims0 = claims@;
        assert(walk_events(events@, (k + 1) as nat) == {
            let (st, fo) = before;
            match events@[k as int] {
                SourceEvent::FnStart { name, start, end } => (st.push((name@, start, end)), fo),
                SourceEvent::FnEnd => (if st.len() > 0 { st.drop_last() } else { st }, fo),
                SourceEvent::Macro { name, line, literals } => if name@ == "verifies"@ {
                    (st, fo.push((line, if st.len() > 0 { Some(st.last()) } else { None }, literal_views(literals))))
                } else {
                    (st, fo)
                },
            }
        });
        match &events[k] {
            SourceEvent::FnStart { name, start, end } => {
                stack.push((owned(name.as_str()), *start, *end));
                assert(open_views(stack@) =~= before.0.push((name@, *start, *end)));
            },
            SourceEvent::FnEnd => {
                if stack.len() > 0 {
                    stack.pop();
                    assert(open_views(stack@) =~= before.0.drop_last());
                }
            },
            SourceEvent::Macro { name, line, literals } => {
                if str_eq(name.as_str(), "verifies") {
                    proof {
                        reveal_strlit("verifies");
                    }
                    let ghost f: FoundMacro = (*line, if before.0.len() > 0 { Some(before.0.last()) } else { None }, literal_views(*literals));
                    let args = literals.clone();
                    assert(literal_views(args) == literal_views(*literals));
                    let parsed = parse_invocation(args);
                    match parsed {
                        Err(message) => {
                            proof {
                                lemma_walk_prefix(events@, (k + 1) as nat, events@.len() as nat);
                                let m = claims0.len() as int;
                                assert(walk_events(events@, (k + 1) as nat).1[m] == f);
                                assert(found_macros(events@)[m] == f);
                                assert(invocation_of(found_macros(events@)[m].2) is Err);
                                assert forall|m2: int| 0 <= m2 < m implies (invocation_of(#[trigger] found_macros(events@)[m2].2) is Ok) by {
                                    assert(found_macros(events@)[m2] == walk_events(events@, (k + 1) as nat).1[m2]);
                                    assert(walk_events(events@, (k + 1) as nat).1[m2] == before.1[m2]);
                                }
                            }
                            return Err(ScanError::Invocation { file: owned(site.file.as_str()), line: *line, message });
                        },
                        Ok((target, anchor, excerpt)) => {
                            let (test_fn, fn_line, fn_source) = if stack.len() > 0 {
                                let top = &stack[stack.len() - 1];
                                (Some(owned(top.0.as_str())), Some(top.1), Some(fn_text_exec(&lines, top.1, top.2)))
                            } else {
                                (None, None, None)
                            };
                            let csite = ClaimSite {
                                file: owned(site.file.as_str()),
                                local_path: copy_opt(&site.local_path),
                                line: *line,
                                test_fn,
                                fn_line,
                                fn_source,
                                krate: copy_opt(&site.krate),
                                repo: copy_opt(&site.repo),
                                rev: copy_opt(&site.rev),
                                scope: site.scope,
                            };
                            claims.push(Claim { target, anchor, excerpt, site: csite });
                        },
                    }
                } else {
                    proof {
                        reveal_strlit("verifies");
                    }
                }
            },
        }
        k += 1;
    }
    Ok(claims)
}

/// The claims of a Rust source, given how parsing and walking it went: a
/// parse failure names the file, and a parsed source yields the claims of
/// its walk.
pub fn scan_events(text: &str, parsed: Result<Vec<SourceEvent>, String>, site: &ClaimSite) -> (r: Result<Vec<Claim>, ScanError>)
    ensures
        parsed matches Err(m) ==> (r matches Err(ScanError::Parse { file, message }) && file@ == site.file@ && message@ == m@),
        parsed matches Ok(events) ==> scanned(source_lines(text@), events@, *site, r),
{
    match parsed {
        Err(message) => Err(ScanError::Parse { file: owned(site.file.as_str()), message }),
        Ok(events) => claims_from_events(text, events.as_slice(), site),
    }
}

} // verus!
