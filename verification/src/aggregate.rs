//! Content aggregation rules: which git refs of a content source become
//! content roots, how refs are matched against branch/tag patterns, and
//! the stable names of the cache directories the repositories and ref
//! exports live in. Opening, cloning and exporting repositories is the
//! application's work; it hands the refs it listed to `select_refs`.

use vstd::prelude::*;
use crate::model::resource::opt_view;
use crate::model::versions::{refname_version, version_from_refname};
use crate::text::{chars_of, debug_quote, debug_quoted, owned, push_chars, push_str, str_eq, string_of};

verus! {

// ---------------------------------------------------------------------
// Errors and configuration
// ---------------------------------------------------------------------

/// Errors from aggregating git content sources.
#[derive(Clone, Debug)]
pub enum AggregateError {
    /// A repository could not be opened or cloned.
    Repo {
        /// The source URL.
        url: String,
        /// The underlying error, stringified.
        message: String,
    },
    /// Ref enumeration failed.
    Refs {
        /// The source URL.
        url: String,
        /// The underlying error, stringified.
        message: String,
    },
    /// No ref matched the source's branch/tag patterns.
    NoMatchingRef {
        /// The source URL.
        url: String,
        /// The configured branch patterns.
        branches: Vec<String>,
        /// The configured tag patterns.
        tags: Vec<String>,
    },
    /// The start path does not exist in a matched ref.
    StartPathMissing {
        /// The source URL.
        url: String,
        /// The matched ref.
        refname: String,
        /// The missing start path.
        start_path: String,
    },
    /// Exporting a tree to the cache failed.
    Export {
        /// The source URL.
        url: String,
        /// The matched ref.
        refname: String,
        /// The underlying error, stringified.
        message: String,
    },
}

/// The `Debug` text of a list of strings: `["a", "b"]`.
pub open spec fn debug_items(v: Seq<String>) -> Seq<char>
    decreases v.len(),
{
    if v.len() == 0 {
        Seq::empty()
    } else if v.len() == 1 {
        debug_quoted(v[0]@)
    } else {
        debug_items(v.drop_last()) + ", "@ + debug_quoted(v.last()@)
    }
}

/// The `Debug` text of a list of strings.
pub open spec fn debug_list(v: Seq<String>) -> Seq<char> {
    "["@ + debug_items(v) + "]"@
}

fn push_debug_list(out: &mut String, v: &Vec<String>)
    ensures
        final(out)@ == old(out)@ + debug_list(v@),
{
    let ghost start = out@;
    push_str(out, "[");
    let mut k: usize = 0;
    while k < v.len()
        invariant
            k <= v.len(),
            out@ == start + "["@ + debug_items(v@.take(k as int)),
        decreases v.len() - k,
    {
        if k > 0 {
            push_str(out, ", ");
        }
        let q = debug_quote(v[k].as_str());
        push_str(out, q.as_str());
        assert(v@.take(k + 1).drop_last() == v@.take(k as int));
        k += 1;
    }
    assert(v@.take(v.len() as int) == v@);
    push_str(out, "]");
}

/// The message an aggregation error displays.
pub open spec fn aggregate_error_text(e: AggregateError) -> Seq<char> {
    match e {
        AggregateError::Repo { url, message } => "cannot open or clone "@ + url@ + ": "@ + message@,
        AggregateError::Refs { url, message } => "cannot enumerate refs of "@ + url@ + ": "@ + message@,
        AggregateError::NoMatchingRef { url, branches, tags } => "no ref of "@ + url@ + " matches branches "@
            + debug_list(branches@) + " / tags "@ + debug_list(tags@),
        AggregateError::StartPathMissing { url, refname, start_path } => "start path "@ + debug_quoted(
            start_path@,
        ) + " not found in "@ + url@ + " ref "@ + refname@,
        AggregateError::Export { url, refname, message } => "cannot export "@ + url@ + " ref "@ + refname@
            + ": "@ + message@,
    }
}

impl AggregateError {
    /// The error as a message.
    pub fn to_string(&self) -> (r: String)
        ensures
            r@ == aggregate_error_text(*self),
    {
        match self {
            AggregateError::Repo { url, message } => {
                let mut out = owned("cannot open or clone ");
                push_str(&mut out, url.as_str());
                push_str(&mut out, ": ");
                push_str(&mut out, message.as_str());
                out
            },
            AggregateError::Refs { url, message } => {
                let mut out = owned("cannot enumerate refs of ");
                push_str(&mut out, url.as_str());
                push_str(&mut out, ": ");
                push_str(&mut out, message.as_str());
                out
            },
            AggregateError::NoMatchingRef { url, branches, tags } => {
                let mut out = owned("no ref of ");
                push_str(&mut out, url.as_str());
                push_str(&mut out, " matches branches ");
                push_debug_list(&mut out, branches);
                push_str(&mut out, " / tags ");
                push_debug_list(&mut out, tags);
                out
            },
            AggregateError::StartPathMissing { url, refname, start_path } => {
                let mut out = owned("start path ");
                let q = debug_quote(start_path.as_str());
                push_str(&mut out, q.as_str());
                push_str(&mut out, " not found in ");
                push_str(&mut out, url.as_str());
                push_str(&mut out, " ref ");
                push_str(&mut out, refname.as_str());
                out
            },
            AggregateError::Export { url, refname, message } => {
                let mut out = owned("cannot export ");
                push_str(&mut out, url.as_str());
                push_str(&mut out, " ref ");
                push_str(&mut out, refname.as_str());
                push_str(&mut out, ": ");
                push_str(&mut out, message.as_str());
                out
            },
        }
    }
}

/// One git content source, as configured in the playbook.
#[derive(Clone, Debug)]
pub struct GitSource {
    /// Repository URL (remote) or filesystem path (a local clone or
    /// worktree, opened in place).
    pub url: String,
    /// Branch name patterns (`*` glob, `!` negation). `HEAD` matches the
    /// repository's current branch. Defaults to `[HEAD]` when both this
    /// and `tags` are empty.
    pub branches: Vec<String>,
    /// Tag name patterns (`*` glob, `!` negation).
    pub tags: Vec<String>,
    /// Path of the content root within the repository. Empty = root.
    pub start_path: String,
    /// Derive each matched ref's component version from the ref name.
    pub version_from_ref: bool,
}

/// One content root produced by aggregation, ready for the catalog.
#[derive(Clone, Debug)]
pub struct CollectedRoot {
    /// The directory to scan (an export cache dir, or a local worktree
    /// subdirectory).
    pub path: String,
    /// Version override, when `version_from_ref` is set.
    pub version_override: Option<String>,
    /// The ref this root came from (for messages).
    pub refname: String,
}

// ---------------------------------------------------------------------
// Ref patterns
// ---------------------------------------------------------------------

/// Whether `n[j..]` matches `p[i..]`, where `*` matches any run of
/// characters and every other character itself.
pub open spec fn glob_at(p: Seq<char>, i: int, n: Seq<char>, j: int) -> bool
    decreases p.len() - i, n.len() - j,
{
    if i < 0 || j < 0 || i >= p.len() {
        j >= n.len()
    } else if p[i] == '*' {
        glob_at(p, i + 1, n, j) || (j < n.len() && glob_at(p, i, n, j + 1))
    } else {
        j < n.len() && p[i] == n[j] && glob_at(p, i + 1, n, j + 1)
    }
}

/// Whether a whole name matches a `*` glob.
pub open spec fn globs(pattern: Seq<char>, name: Seq<char>) -> bool {
    glob_at(pattern, 0, name, 0)
}

fn glob_rec(p: &[char], i: usize, n: &[char], j: usize) -> (b: bool)
    requires
        i <= p.len(),
        j <= n.len(),
    ensures
        b == glob_at(p@, i as int, n@, j as int),
    decreases p.len() - i, n.len() - j,
{
    if i >= p.len() {
        j >= n.len()
    } else if p[i] == '*' {
        glob_rec(p, i + 1, n, j) || (j < n.len() && glob_rec(p, i, n, j + 1))
    } else {
        j < n.len() && p[i] == n[j] && glob_rec(p, i + 1, n, j + 1)
    }
}

/// Minimal `*` glob matching (no character classes).
pub fn glob_match(pattern: &str, name: &str) -> (b: bool)
    ensures
        b == globs(pattern@, name@),
{
    let p = chars_of(pattern);
    let n = chars_of(name);
    glob_rec(p.as_slice(), 0, n.as_slice(), 0)
}

/// A `!`-prefixed (negative) pattern.
pub open spec fn is_negated(p: Seq<char>) -> bool {
    p.len() > 0 && p[0] == '!'
}

/// Whether a negative pattern matches the name.
pub open spec fn negation_hit(p: Seq<char>, name: Seq<char>) -> bool {
    is_negated(p) && globs(p.skip(1), name)
}

/// Whether a positive pattern (other than the literal `HEAD`) matches the
/// name.
pub open spec fn positive_hit(p: Seq<char>, name: Seq<char>) -> bool {
    !is_negated(p) && p != "HEAD"@ && globs(p, name)
}

/// Whether any negative pattern excludes the name.
pub open spec fn excluded_by(patterns: Seq<String>, name: Seq<char>) -> bool {
    exists|k: int| 0 <= k < patterns.len() && #[trigger] negation_hit(patterns[k]@, name)
}

/// Whether some positive pattern includes the name.
pub open spec fn included_by(patterns: Seq<String>, name: Seq<char>) -> bool {
    exists|k: int| 0 <= k < patterns.len() && #[trigger] positive_hit(patterns[k]@, name)
}

/// A ref short-name matches a pattern list when a positive pattern
/// matches it and no negative one does.
pub open spec fn patterns_match(patterns: Seq<String>, name: Seq<char>) -> bool {
    included_by(patterns, name) && !excluded_by(patterns, name)
}

fn negation_hits(pattern: &str, name: &str) -> (b: bool)
    ensures
        b == negation_hit(pattern@, name@),
{
    let p = chars_of(pattern);
    let n = chars_of(name);
    if p.len() > 0 && p[0] == '!' {
        proof {
            lemma_glob_skip(p@, n@);
        }
        glob_rec(p.as_slice(), 1, n.as_slice(), 0)
    } else {
        false
    }
}

/// Matching from index 1 is matching the pattern with its first
/// character dropped.
proof fn lemma_glob_shift(p: Seq<char>, i: int, n: Seq<char>, j: int)
    requires
        1 <= i <= p.len(),
        0 <= j <= n.len(),
    ensures
        glob_at(p, i, n, j) == glob_at(p.skip(1), i - 1, n, j),
    decreases p.len() - i, n.len() - j,
{
    if i < p.len() {
        if p[i] == '*' {
            lemma_glob_shift(p, i + 1, n, j);
            if j < n.len() {
                lemma_glob_shift(p, i, n, j + 1);
            }
        } else if j < n.len() {
            lemma_glob_shift(p, i + 1, n, j + 1);
        }
    }
}

proof fn lemma_glob_skip(p: Seq<char>, n: Seq<char>)
    requires
        p.len() >= 1,
    ensures
        glob_at(p, 1, n, 0) == globs(p.skip(1), n),
{
    lemma_glob_shift(p, 1, n, 0);
}

/// Whether any negative (`!`-prefixed) pattern matches the name.
pub fn excluded_by_negation(name: &str, patterns: &[String]) -> (b: bool)
    ensures
        b == excluded_by(patterns@, name@),
{
    let mut k: usize = 0;
    while k < patterns.len()
        invariant
            k <= patterns.len(),
            forall|j: int| 0 <= j < k ==> !(#[trigger] negation_hit(patterns@[j]@, name@)),
        decreases patterns.len() - k,
    {
        if negation_hits(patterns[k].as_str(), name) {
            return true;
        }
        k += 1;
    }
    false
}

/// Matches a ref short-name against glob patterns (`*` wildcards), where a
/// leading `!` negates: the name must match at least one positive pattern
/// and no negative one. The literal pattern `HEAD` is left to the caller.
pub fn matches_patterns(name: &str, patterns: &[String]) -> (b: bool)
    ensures
        b == patterns_match(patterns@, name@),
{
    let mut matched = false;
    let mut k: usize = 0;
    while k < patterns.len()
        invariant
            k <= patterns.len(),
            forall|j: int| 0 <= j < k ==> !(#[trigger] negation_hit(patterns@[j]@, name@)),
            matched == exists|j: int| 0 <= j < k && #[trigger] positive_hit(patterns@[j]@, name@),
        decreases patterns.len() - k,
    {
        let pattern = patterns[k].as_str();
        if negation_hits(pattern, name) {
            return false;
        }
        let p = chars_of(pattern);
        let negated = p.len() > 0 && p[0] == '!';
        if !negated && !str_eq(pattern, "HEAD") && glob_match(pattern, name) {
            matched = true;
        }
        assert(positive_hit(patterns@[k as int]@, name@) == (!negated && !(pattern@ == "HEAD"@) && globs(
            pattern@,
            name@,
        )));
        k += 1;
    }
    matched
}

/// A negative pattern always wins: a name it excludes never matches,
/// whatever positive patterns also match it and in whichever order the
/// patterns are listed.
pub proof fn law_negation_wins(patterns: Seq<String>, name: Seq<char>)
    requires
        excluded_by(patterns, name),
    ensures
        !patterns_match(patterns, name),
{
}

/// A `*` alone matches every name.
pub proof fn law_star_matches_everything(name: Seq<char>)
    ensures
        globs(seq!['*'], name),
    decreases name.len(),
{
    lemma_star_tail(name, 0);
}

proof fn lemma_star_tail(name: Seq<char>, j: int)
    requires
        0 <= j <= name.len(),
    ensures
        glob_at(seq!['*'], 0, name, j),
    decreases name.len() - j,
{
    if j < name.len() {
        lemma_star_tail(name, j + 1);
    }
    assert(glob_at(seq!['*'], 1, name, name.len() as int));
}

// ---------------------------------------------------------------------
// Stable cache names
// ---------------------------------------------------------------------

/// One FNV-1a step.
pub open spec fn fnv_step(h: u64, b: u8) -> u64 {
    (h ^ (b as u64)).wrapping_mul(0x0000_0100_0000_01b3u64)
}

/// FNV-1a folded over bytes from a running hash.
pub open spec fn fnv_fold(h: u64, bytes: Seq<u8>) -> u64
    decreases bytes.len(),
{
    if bytes.len() == 0 {
        h
    } else {
        fnv_fold(fnv_step(h, bytes[0]), bytes.drop_first())
    }
}

/// FNV-1a, 64-bit, from the standard offset basis.
pub open spec fn fnv1a(bytes: Seq<u8>) -> u64 {
    fnv_fold(0xcbf2_9ce4_8422_2325u64, bytes)
}

/// FNV-1a, 64-bit: a tiny hash with a *stable* definition, safe to bake
/// into on-disk cache paths.
pub fn fnv1a64(bytes: &[u8]) -> (r: u64)
    ensures
        r == fnv1a(bytes@),
{
    let mut hash: u64 = 0xcbf2_9ce4_8422_2325;
    let mut i: usize = 0;
    assert(bytes@.skip(0) == bytes@);
    while i < bytes.len()
        invariant
            i <= bytes.len(),
            fnv_fold(hash, bytes@.skip(i as int)) == fnv1a(bytes@),
        decreases bytes.len() - i,
    {
        assert(bytes@.skip(i as int).drop_first() == bytes@.skip(i + 1));
        hash = (hash ^ (bytes[i] as u64)).wrapping_mul(0x0000_0100_0000_01b3);
        i += 1;
    }
    assert(bytes@.skip(i as int).len() == 0);
    hash
}

/// ASCII letters, digits, `-`, `_` and `.`: the characters kept in cache
/// directory names.
pub open spec fn is_safe(c: char) -> bool {
    ('a' <= c && c <= 'z') || ('A' <= c && c <= 'Z') || ('0' <= c && c <= '9') || c == '-' || c == '_'
        || c == '.'
}

fn safe(c: char) -> (b: bool)
    ensures
        b == is_safe(c),
{
    ('a' <= c && c <= 'z') || ('A' <= c && c <= 'Z') || ('0' <= c && c <= '9') || c == '-' || c == '_'
        || c == '.'
}

/// A start path as a directory name: `_root` when empty, else every
/// unsafe character replaced by `_`.
pub open spec fn sanitized(path: Seq<char>) -> Seq<char> {
    if path.len() == 0 {
        "_root"@
    } else {
        Seq::new(path.len(), |i: int| if is_safe(path[i]) { path[i] } else { '_' })
    }
}

/// A sanitized start path is one directory name: it holds only safe
/// characters, so never a path separator.
pub proof fn law_sanitized_is_one_name(path: Seq<char>)
    ensures
        forall|i: int| 0 <= i < sanitized(path).len() ==> is_safe(#[trigger] sanitized(path)[i]),
{
    reveal_strlit("_root");
}

/// A readable directory name for a start path.
pub fn sanitize(path: &str) -> (r: String)
    ensures
        r@ == sanitized(path@),
{
    let p = chars_of(path);
    if p.len() == 0 {
        return owned("_root");
    }
    let mut out: Vec<char> = Vec::new();
    let mut i: usize = 0;
    while i < p.len()
        invariant
            i <= p.len(),
            out@ == Seq::new(i as nat, |k: int| if is_safe(p@[k]) { p@[k] } else { '_' }),
        decreases p.len() - i,
    {
        let c = p[i];
        out.push(if safe(c) { c } else { '_' });
        i += 1;
        assert(out@ =~= Seq::new(i as nat, |k: int| if is_safe(p@[k]) { p@[k] } else { '_' }));
    }
    string_of(out.as_slice())
}

/// The lowercase hexadecimal digit of `d` (`d < 16`).
pub open spec fn hex_digit(d: nat) -> char {
    if d < 10 {
        (48 + d) as char
    } else {
        (87 + d) as char
    }
}

/// The last `w` hexadecimal digits of `n`, zero-padded.
pub open spec fn hex_fixed(n: nat, w: nat) -> Seq<char>
    decreases w,
{
    if w == 0 {
        Seq::empty()
    } else {
        hex_fixed(n / 16, (w - 1) as nat).push(hex_digit(n % 16))
    }
}

fn hex_digit_char(d: u64) -> (c: char)
    requires
        d < 16,
    ensures
        c == hex_digit(d as nat),
{
    if d == 0 { '0' } else if d == 1 { '1' } else if d == 2 { '2' } else if d == 3 { '3' }
    else if d == 4 { '4' } else if d == 5 { '5' } else if d == 6 { '6' } else if d == 7 { '7' }
    else if d == 8 { '8' } else if d == 9 { '9' } else if d == 10 { 'a' } else if d == 11 { 'b' }
    else if d == 12 { 'c' } else if d == 13 { 'd' } else if d == 14 { 'e' } else { 'f' }
}

fn push_hex(out: &mut Vec<char>, n: u64, w: usize)
    ensures
        final(out)@ == old(out)@ + hex_fixed(n as nat, w as nat),
    decreases w,
{
    if w > 0 {
        push_hex(out, n / 16, w - 1);
        out.push(hex_digit_char(n % 16));
    }
}

/// The characters after the last `/` or `:` of a URL (all of it when
/// there is none).
pub open spec fn url_tail(s: Seq<char>) -> Seq<char>
    decreases s.len(),
{
    if s.len() == 0 {
        s
    } else if s.last() == '/' || s.last() == ':' {
        Seq::empty()
    } else {
        url_tail(s.drop_last()).push(s.last())
    }
}

/// The safe characters of a text, in order.
pub open spec fn safe_only(s: Seq<char>) -> Seq<char>
    decreases s.len(),
{
    if s.len() == 0 {
        s
    } else if is_safe(s.last()) {
        safe_only(s.drop_last()).push(s.last())
    } else {
        safe_only(s.drop_last())
    }
}

/// The cache directory name of a repository URL: its last path segment's
/// safe characters, `-`, and the URL's FNV-1a hash in 16 hex digits.
pub open spec fn cache_key_text(url: Seq<char>) -> Seq<char> {
    safe_only(url_tail(url)) + "-"@ + hex_fixed(fnv1a(vstd::utf8::encode_utf8(url)) as nat, 16)
}

/// A stable, readable cache directory name for a repository URL.
pub fn cache_key(url: &str) -> (r: String)
    ensures
        r@ == cache_key_text(url@),
{
    let u = chars_of(url);
    // The tail starts after the last separator.
    let mut start: usize = u.len();
    assert(u@.take(u.len() as int) == u@);
    assert(url_tail(u@) =~= url_tail(u@.take(start as int)) + u@.subrange(start as int, u.len() as int));
    while start > 0 && u[start - 1] != '/' && u[start - 1] != ':'
        invariant
            start <= u.len(),
            url_tail(u@) == url_tail(u@.take(start as int)) + u@.subrange(start as int, u.len() as int),
        decreases start,
    {
        let ghost t = u@.take(start as int);
        assert(t.drop_last() == u@.take(start - 1));
        assert(u@.subrange(start - 1, u.len() as int) == seq![t.last()] + u@.subrange(start as int, u.len() as int));
        start -= 1;
    }
    assert(url_tail(u@.take(start as int)) == Seq::<char>::empty());
    let mut tail: Vec<char> = Vec::new();
    let mut i: usize = start;
    while i < u.len()
        invariant
            start <= i <= u.len(),
            tail@ == safe_only(u@.subrange(start as int, i as int)),
        decreases u.len() - i,
    {
        assert(u@.subrange(start as int, i + 1).drop_last() == u@.subrange(start as int, i as int));
        if safe(u[i]) {
            tail.push(u[i]);
        }
        i += 1;
    }
    assert(u@.subrange(start as int, u.len() as int) == url_tail(u@));
    let h = fnv1a64(url.as_bytes());
    tail.push('-');
    push_hex(&mut tail, h, 16);
    proof {
        reveal_strlit("-");
    }
    string_of(tail.as_slice())
}

/// The name of the export directory for a start path: the sanitized
/// path, `-`, and the low 32 bits of the path's FNV-1a hash in 8 hex
/// digits (the readable part alone is lossy: `docs/a` and `docs_a`).
pub open spec fn export_dir_text(start_path: Seq<char>) -> Seq<char> {
    sanitized(start_path) + "-"@ + hex_fixed(fnv1a(vstd::utf8::encode_utf8(start_path)) as nat % 0x1_0000_0000, 8)
}

/// The export directory name for a start path.
pub fn export_dir_name(start_path: &str) -> (r: String)
    ensures
        r@ == export_dir_text(start_path@),
{
    let h = fnv1a64(start_path.as_bytes());
    let low = h % 0x1_0000_0000;
    let mut out = sanitize(start_path);
    let mut suffix: Vec<char> = Vec::new();
    suffix.push('-');
    push_hex(&mut suffix, low, 8);
    proof {
        reveal_strlit("-");
    }
    push_chars(&mut out, suffix.as_slice());
    out
}

// ---------------------------------------------------------------------
// Selecting refs
// ---------------------------------------------------------------------

/// Whether the source asks for the repository's current branch: an
/// explicit `HEAD` pattern, or no patterns at all.
pub open spec fn wants_head_spec(source: GitSource) -> bool {
    (source.branches@.len() == 0 && source.tags@.len() == 0) || exists|k: int|
        0 <= k < source.branches@.len() && #[trigger] source.branches@[k]@ == "HEAD"@
}

/// Whether the source asks for the repository's current branch.
pub fn wants_head(source: &GitSource) -> (b: bool)
    ensures
        b == wants_head_spec(*source),
{
    if source.branches.len() == 0 && source.tags.len() == 0 {
        return true;
    }
    let mut k: usize = 0;
    while k < source.branches.len()
        invariant
            k <= source.branches.len(),
            forall|j: int| 0 <= j < k ==> !(#[trigger] source.branches@[j]@ == "HEAD"@),
        decreases source.branches.len() - k,
    {
        if str_eq(source.branches[k].as_str(), "HEAD") {
            return true;
        }
        k += 1;
    }
    false
}

/// `s` with every leading repetition of `p` removed, as
/// `trim_start_matches` does.
pub open spec fn trim_all(s: Seq<char>, p: Seq<char>) -> Seq<char>
    decreases s.len(),
{
    if p.len() > 0 && p.len() <= s.len() && s.take(p.len() as int) == p {
        trim_all(s.skip(p.len() as int), p)
    } else {
        s
    }
}

fn trim_all_exec(s: &[char], p: &[char]) -> (r: Vec<char>)
    ensures
        r@ == trim_all(s@, p@),
{
    let mut at: usize = 0;
    assert(s@.skip(0) == s@);
    while p.len() > 0 && at <= s.len() && p.len() <= s.len() - at && crate::text::matches_at(s, p, at)
        invariant
            at <= s.len(),
            trim_all(s@, p@) == trim_all(s@.skip(at as int), p@),
        decreases s.len() - at,
    {
        assert(s@.skip(at as int).take(p@.len() as int) == s@.subrange(at as int, at + p@.len()));
        assert(s@.skip(at as int).skip(p@.len() as int) == s@.skip(at + p@.len()));
        at = at + p.len();
    }
    if p.len() > 0 && p.len() <= s.len() - at {
        assert(s@.skip(at as int).take(p@.len() as int) == s@.subrange(at as int, at + p@.len()));
    }
    crate::text::slice_vec(s, at, s.len())
}

/// A listed reference: full name, and the commit it peels to (`None`
/// when it does not peel to a commit).
pub open spec fn listed(v: Seq<(String, Option<String>)>) -> Seq<(Seq<char>, Option<Seq<char>>)> {
    Seq::new(v.len(), |i: int| (v[i].0@, opt_view(v[i].1)))
}

/// Matched refs as `(short name, commit)` texts.
pub open spec fn pairs(v: Seq<(String, String)>) -> Seq<(Seq<char>, Seq<char>)> {
    Seq::new(v.len(), |i: int| (v[i].0@, v[i].1@))
}

/// The texts of a list of strings.
pub open spec fn texts(v: Seq<String>) -> Seq<Seq<char>> {
    Seq::new(v.len(), |i: int| v[i]@)
}

/// Walks listed refs under one prefix: a ref is taken when its short
/// name (the prefix trimmed) matches the patterns, is not `HEAD` (for
/// branches), was not taken before, and peels to a commit.
pub open spec fn take_refs(
    patterns: Seq<String>,
    prefix: Seq<char>,
    branches: bool,
    refs: Seq<(Seq<char>, Option<Seq<char>>)>,
    matched: Seq<(Seq<char>, Seq<char>)>,
    seen: Seq<Seq<char>>,
) -> (Seq<(Seq<char>, Seq<char>)>, Seq<Seq<char>>)
    decreases refs.len(),
{
    if refs.len() == 0 {
        (matched, seen)
    } else {
        let short = trim_all(refs[0].0, prefix);
        if (branches && short == "HEAD"@) || !patterns_match(patterns, short) || seen.contains(short) {
            take_refs(patterns, prefix, branches, refs.drop_first(), matched, seen)
        } else {
            match refs[0].1 {
                Some(id) => take_refs(
                    patterns,
                    prefix,
                    branches,
                    refs.drop_first(),
                    matched.push((short, id)),
                    seen.push(short),
                ),
                None => take_refs(patterns, prefix, branches, refs.drop_first(), matched, seen),
            }
        }
    }
}

/// Where ref selection starts: the current branch alone when the
/// source wants it, it is not excluded, and it peels to a commit; nothing
/// when it is not wanted or excluded; a failure when it does not peel.
pub open spec fn head_start(
    source: GitSource,
    head: Option<(Seq<char>, Result<Seq<char>, Seq<char>>)>,
) -> Result<(Seq<(Seq<char>, Seq<char>)>, Seq<Seq<char>>), Seq<char>> {
    if wants_head_spec(source) {
        match head {
            Some((name, peeled)) => if !excluded_by(source.branches@, name) {
                match peeled {
                    Ok(id) => Ok((seq![(name, id)], seq![name])),
                    Err(e) => Err(e),
                }
            } else {
                Ok((Seq::empty(), Seq::empty()))
            },
            None => Ok((Seq::empty(), Seq::empty())),
        }
    } else {
        Ok((Seq::empty(), Seq::empty()))
    }
}

/// The refs a source selects: its current branch (when asked for and not
/// excluded), then matching remote-tracking branches, then matching local
/// branches not seen yet, then matching tags. A current branch that does
/// not peel to a commit fails the selection.
pub open spec fn selected_refs(
    source: GitSource,
    head: Option<(Seq<char>, Result<Seq<char>, Seq<char>>)>,
    remote: Seq<(Seq<char>, Option<Seq<char>>)>,
    local: Seq<(Seq<char>, Option<Seq<char>>)>,
    tags: Seq<(Seq<char>, Option<Seq<char>>)>,
) -> Result<Seq<(Seq<char>, Seq<char>)>, Seq<char>> {
    let start = head_start(source, head);
    match start {
        Err(e) => Err(e),
        Ok((m0, s0)) => {
            let (m1, s1) = take_refs(source.branches@, "refs/remotes/origin/"@, true, remote, m0, s0);
            let (m2, s2) = take_refs(source.branches@, "refs/heads/"@, true, local, m1, s1);
            let (m3, s3) = take_refs(source.tags@, "refs/tags/"@, false, tags, m2, Seq::empty());
            Ok(m3)
        },
    }
}

fn contains_text(seen: &Vec<String>, name: &str) -> (b: bool)
    ensures
        b == texts(seen@).contains(name@),
{
    let mut k: usize = 0;
    while k < seen.len()
        invariant
            k <= seen.len(),
            forall|j: int| 0 <= j < k ==> seen@[j]@ != name@,
        decreases seen.len() - k,
    {
        if str_eq(seen[k].as_str(), name) {
            assert(texts(seen@)[k as int] == name@);
            return true;
        }
        k += 1;
    }
    false
}

fn take_refs_exec(
    patterns: &[String],
    prefix: &str,
    branches: bool,
    refs: &[(String, Option<String>)],
    matched: &mut Vec<(String, String)>,
    seen: &mut Vec<String>,
)
    ensures
        (pairs(final(matched)@), texts(final(seen)@)) == take_refs(
            patterns@,
            prefix@,
            branches,
            listed(refs@),
            pairs(old(matched)@),
            texts(old(seen)@),
        ),
{
    let ghost goal = take_refs(patterns@, prefix@, branches, listed(refs@), pairs(matched@), texts(seen@));
    let pc = chars_of(prefix);
    let mut i: usize = 0;
    assert(listed(refs@).skip(0) == listed(refs@));
    while i < refs.len()
        invariant
            i <= refs.len(),
            pc@ == prefix@,
            goal == take_refs(patterns@, prefix@, branches, listed(refs@).skip(i as int), pairs(matched@), texts(seen@)),
        decreases refs.len() - i,
    {
        let ghost rest = listed(refs@).skip(i as int);
        assert(rest.drop_first() == listed(refs@).skip(i + 1));
        assert(rest[0] == (refs@[i as int].0@, opt_view(refs@[i as int].1)));
        let full = chars_of(refs[i].0.as_str());
        let short_chars = trim_all_exec(full.as_slice(), pc.as_slice());
        let short = string_of(short_chars.as_slice());
        let skip = (branches && str_eq(short.as_str(), "HEAD")) || !matches_patterns(short.as_str(), patterns)
            || contains_text(seen, short.as_str());
        if !skip {
            match &refs[i].1 {
                Some(id) => {
                    let ghost pm = pairs(matched@);
                    let ghost ps = texts(seen@);
                    matched.push((short.clone(), id.clone()));
                    seen.push(short.clone());
                    assert(pairs(matched@) =~= pm.push((short@, id@)));
                    assert(texts(seen@) =~= ps.push(short@));
                },
                None => {},
            }
        }
        i += 1;
    }
    assert(listed(refs@).skip(i as int).len() == 0);
}

/// The view of a resolved current branch: its short name and the commit
/// it peels to (or why peeling failed).
pub open spec fn head_view(head: Option<(String, Result<String, String>)>) -> Option<
    (Seq<char>, Result<Seq<char>, Seq<char>>),
> {
    match head {
        Some((name, Ok(id))) => Some((name@, Ok(id@))),
        Some((name, Err(e))) => Some((name@, Err(e@))),
        None => None,
    }
}

/// Selects the refs a source aggregates, as `(short name, commit id)`,
/// from what the repository lists: `head` is its current branch (when
/// the source wants it) with the result of peeling it to a commit;
/// `remote`, `local` and `tags` are the references under
/// `refs/remotes/origin/`, `refs/heads/` and `refs/tags/` in listing
/// order, each with the commit it peels to. Refs are deduplicated by
/// short name: a remote-tracking branch wins over a local one of the
/// same name, while a tag and a branch are distinct versions.
pub fn select_refs(
    source: &GitSource,
    head: Option<(String, Result<String, String>)>,
    remote: &[(String, Option<String>)],
    local: &[(String, Option<String>)],
    tags: &[(String, Option<String>)],
) -> (r: Result<Vec<(String, String)>, String>)
    ensures
        match r {
            Ok(v) => selected_refs(*source, head_view(head), listed(remote@), listed(local@), listed(tags@))
                == Ok::<Seq<(Seq<char>, Seq<char>)>, Seq<char>>(pairs(v@)),
            Err(e) => selected_refs(*source, head_view(head), listed(remote@), listed(local@), listed(tags@))
                == Err::<Seq<(Seq<char>, Seq<char>)>, Seq<char>>(e@),
        },
{
    let mut matched: Vec<(String, String)> = Vec::new();
    let mut seen: Vec<String> = Vec::new();
    let ghost hv = head_view(head);
    assert(pairs(matched@) =~= Seq::<(Seq<char>, Seq<char>)>::empty());
    assert(texts(seen@) =~= Seq::<Seq<char>>::empty());
    if wants_head(source) {
        match head {
            Some((name, peeled)) => {
                if !excluded_by_negation(name.as_str(), source.branches.as_slice()) {
                    match peeled {
                        Ok(id) => {
                            let ghost nv = name@;
                            let ghost iv = id@;
                            let copy = name.clone();
                            seen.push(copy);
                            matched.push((name, id));
                            assert(texts(seen@) =~= seq![nv]);
                            assert(pairs(matched@) =~= seq![(nv, iv)]);
                        },
                        Err(e) => {
                            return Err(e);
                        },
                    }
                }
            },
            None => {},
        }
    }
    assert(head_start(*source, hv) == Ok::<(Seq<(Seq<char>, Seq<char>)>, Seq<Seq<char>>), Seq<char>>((pairs(matched@), texts(seen@))));
    take_refs_exec(source.branches.as_slice(), "refs/remotes/origin/", true, remote, &mut matched, &mut seen);
    take_refs_exec(source.branches.as_slice(), "refs/heads/", true, local, &mut matched, &mut seen);
    let mut seen_tags: Vec<String> = Vec::new();
    assert(texts(seen_tags@) =~= Seq::<Seq<char>>::empty());
    take_refs_exec(source.tags.as_slice(), "refs/tags/", false, tags, &mut matched, &mut seen_tags);
    Ok(matched)
}

/// The source probed for one named ref as a branch: the ref as its only
/// branch pattern, no tag patterns.
pub fn branch_probe(source: &GitSource, refname: &str) -> (r: GitSource)
    ensures
        r.url@ == source.url@,
        r.start_path@ == source.start_path@,
        r.version_from_ref == source.version_from_ref,
        texts(r.branches@) == seq![refname@],
        r.tags@.len() == 0,
{
    let mut branches: Vec<String> = Vec::new();
    branches.push(owned(refname));
    let r = GitSource {
        url: source.url.clone(),
        branches,
        tags: Vec::new(),
        start_path: source.start_path.clone(),
        version_from_ref: source.version_from_ref,
    };
    assert(texts(r.branches@) =~= seq![refname@]);
    r
}

/// The source probed for one named ref as a tag: the ref as its only tag
/// pattern, no branch patterns.
pub fn tag_probe(source: &GitSource, refname: &str) -> (r: GitSource)
    ensures
        r.url@ == source.url@,
        r.start_path@ == source.start_path@,
        r.version_from_ref == source.version_from_ref,
        r.branches@.len() == 0,
        texts(r.tags@) == seq![refname@],
{
    let mut tags: Vec<String> = Vec::new();
    tags.push(owned(refname));
    let r = GitSource {
        url: source.url.clone(),
        branches: Vec::new(),
        tags,
        start_path: source.start_path.clone(),
        version_from_ref: source.version_from_ref,
    };
    assert(texts(r.tags@) =~= seq![refname@]);
    r
}

/// Whether a branch probe's outcome sends the lookup on to the tags: only
/// when no ref matched. A named ref is collected as a branch when one
/// exists, else as a tag — never both.
pub fn retry_as_tag<T>(outcome: &Result<T, AggregateError>) -> (b: bool)
    ensures
        b == (outcome matches Err(AggregateError::NoMatchingRef { .. })),
{
    match outcome {
        Err(AggregateError::NoMatchingRef { .. }) => true,
        _ => false,
    }
}

/// The error for a source no ref of which matched.
pub fn no_matching_ref(source: &GitSource) -> (r: AggregateError)
    ensures
        r matches AggregateError::NoMatchingRef { url, branches, tags } && url@ == source.url@ && texts(branches@)
            == texts(source.branches@) && texts(tags@) == texts(source.tags@),
{
    let r = AggregateError::NoMatchingRef {
        url: source.url.clone(),
        branches: clone_all(&source.branches),
        tags: clone_all(&source.tags),
    };
    r
}

fn clone_all(v: &Vec<String>) -> (r: Vec<String>)
    ensures
        texts(r@) == texts(v@),
{
    let mut r: Vec<String> = Vec::new();
    let mut k: usize = 0;
    while k < v.len()
        invariant
            k <= v.len(),
            texts(r@) == texts(v@.take(k as int)),
        decreases v.len() - k,
    {
        let ghost prev = texts(r@);
        let c = v[k].clone();
        r.push(c);
        assert(texts(r@) =~= prev.push(v@[k as int]@));
        assert(texts(v@.take(k + 1)) =~= texts(v@.take(k as int)).push(v@[k as int]@));
        k += 1;
    }
    assert(v@.take(v.len() as int) == v@);
    r
}

/// The content root of one matched ref exported to `path`: with
/// `version_from_ref`, the ref name's version overrides the descriptor's.
pub fn collected_root(source: &GitSource, refname: &str, path: String) -> (r: CollectedRoot)
    ensures
        r.path@ == path@,
        r.refname@ == refname@,
        opt_view(r.version_override) == (if source.version_from_ref {
            Some(refname_version(refname@))
        } else {
            None
        }),
{
    let version_override = if source.version_from_ref {
        Some(version_from_refname(refname))
    } else {
        None
    };
    CollectedRoot { path, version_override, refname: owned(refname) }
}

} // verus!
