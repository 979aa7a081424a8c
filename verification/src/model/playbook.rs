//! The playbook's configuration blocks and the checks and path rules the
//! pipeline applies to them. Reading the YAML file is the application's
//! job; paths are kept as `/`-separated text.

use vstd::prelude::*;

use crate::text::{chars_of, owned, string_of, slice_vec};

verus! {

/// The `site` block.
#[derive(Clone, Debug)]
pub struct SiteConfig {
    /// The site title, shown in page chrome.
    pub title: String,
    /// The site's start page, as a fully qualified page resource ID.
    pub start_page: Option<String>,
}

/// The `content` block.
#[derive(Clone, Debug)]
pub struct ContentConfig {
    /// The ordered content sources.
    pub sources: Vec<SourceConfig>,
}

/// One content source: either a plain local directory (`path`) or a git
/// repository (`url` plus ref patterns). Exactly one of `path`/`url` must
/// be set.
#[derive(Clone, Debug)]
pub struct SourceConfig {
    /// Path to a content source root, relative to the playbook's directory.
    pub path: Option<String>,
    /// Git repository URL, or filesystem path of a local clone/worktree.
    pub url: Option<String>,
    /// Branch name patterns (`*` glob, `!` negation, `HEAD` = current
    /// branch).
    pub branches: Vec<String>,
    /// Tag name patterns (`*` glob, `!` negation).
    pub tags: Vec<String>,
    /// Path of the content root within the repository (empty = root).
    pub start_path: String,
    /// Derive each matched ref's component version from the ref name.
    pub version_from_ref: bool,
    /// Spec-coverage JSON files describing this source's content.
    pub coverage: Vec<String>,
    /// The path prefix the coverage files' keys start with.
    pub coverage_prefix: Option<String>,
}

/// The `output` block.
#[derive(Clone, Debug, Default)]
pub struct OutputConfig {
    /// The output directory, relative to the playbook's directory.
    pub dir: Option<String>,
}

/// The `runtime` block.
#[derive(Clone, Debug, Default)]
pub struct RuntimeConfig {
    /// Cache directory for cloned repositories and ref exports.
    pub cache_dir: Option<String>,
    /// Refresh already-cached remote repositories on every build.
    pub fetch: bool,
}

/// The `coverage` block: the test roots and coverage maps to scan.
#[derive(Clone, Debug, Default)]
pub struct CoverageConfig {
    /// The repositories to scan for `verifies!` claims and sidecars.
    pub scan: Vec<ScanConfig>,
    /// The click-through URL template for claims.
    pub link_template: Option<String>,
    /// Where the coverage database is written.
    pub database: Option<String>,
}

/// One `coverage.scan` entry. Exactly one of `repo`/`path` must be set.
#[derive(Clone, Debug)]
pub struct ScanConfig {
    /// Git repository URL, or filesystem path of a local clone.
    pub repo: Option<String>,
    /// A local directory, read as is.
    pub path: Option<String>,
    /// The ref to read test roots and the spec map at (git `repo` only).
    pub reference: Option<String>,
    /// Test roots to scan for `verifies!` invocations.
    pub tests: Vec<String>,
    /// The coverage-map root.
    pub spec_map: Option<String>,
    /// Globs limiting the measured pages of this repository.
    pub pages: Vec<String>,
}

/// Removes every leading `./`, as `trim_start_matches("./")` does.
pub open spec fn trim_dot_slash(s: Seq<char>) -> Seq<char>
    decreases s.len(),
{
    if s.len() >= 2 && s[0] == '.' && s[1] == '/' {
        trim_dot_slash(s.skip(2))
    } else {
        s
    }
}

/// Glob matching where `*` stays within a `/`-segment and `**` crosses
/// segments (`**/` matches zero or more whole segments).
pub open spec fn path_glob(p: Seq<char>, n: Seq<char>) -> bool
    decreases p.len(), 0nat, 0nat,
{
    if p.len() == 0 {
        n.len() == 0
    } else if p.len() >= 3 && p[0] == '*' && p[1] == '*' && p[2] == '/' {
        path_glob(p.skip(3), n) || deep_slash_tail(p.skip(3), n)
    } else if p.len() >= 2 && p[0] == '*' && p[1] == '*' {
        deep_tail(p.skip(2), n)
    } else if p[0] == '*' {
        segment_tail(p.skip(1), n)
    } else {
        n.len() > 0 && n[0] == p[0] && path_glob(p.skip(1), n.skip(1))
    }
}

/// Whether some `/` of `ns` is followed by a remainder that `q` matches.
pub open spec fn deep_slash_tail(q: Seq<char>, ns: Seq<char>) -> bool
    decreases q.len(), 1nat, ns.len(),
{
    ns.len() > 0 && ((ns[0] == '/' && path_glob(q, ns.drop_first())) || deep_slash_tail(q, ns.drop_first()))
}

/// Whether some suffix of `ns` matches `q`.
pub open spec fn deep_tail(q: Seq<char>, ns: Seq<char>) -> bool
    decreases q.len(), 1nat, ns.len(),
{
    path_glob(q, ns) || (ns.len() > 0 && deep_tail(q, ns.drop_first()))
}

/// Whether some suffix of `ns` after a slash-free prefix matches `q`.
pub open spec fn segment_tail(q: Seq<char>, ns: Seq<char>) -> bool
    decreases q.len(), 1nat, ns.len(),
{
    path_glob(q, ns) || (ns.len() > 0 && ns[0] != '/' && segment_tail(q, ns.drop_first()))
}

/// Strips every leading `./`.
pub fn trim_dot_slash_exec(s: &[char]) -> (r: Vec<char>)
    ensures
        r@ == trim_dot_slash(s@),
{
    let mut i: usize = 0;
    assert(s@.skip(0) == s@);
    while s.len() - i > 1 && s[i] == '.' && s[i + 1] == '/'
        invariant
            i <= s.len(),
            trim_dot_slash(s@) == trim_dot_slash(s@.skip(i as int)),
        decreases s.len() - i,
    {
        assert(s@.skip(i as int).skip(2) == s@.skip(i + 2));
        i += 2;
    }
    let r = slice_vec(s, i, s.len());
    r
}

fn glob_deep_slash(p: &[char], qi: usize, n: &[char], ni: usize) -> (b: bool)
    requires
        qi <= p.len(),
        ni <= n.len(),
    ensures
        b == deep_slash_tail(p@.skip(qi as int), n@.skip(ni as int)),
    decreases p.len() - qi, 2nat,
{
    let ghost q = p@.skip(qi as int);
    let mut i = ni;
    while i < n.len()
        invariant
            ni <= i <= n.len(),
            qi <= p.len(),
            q == p@.skip(qi as int),
            deep_slash_tail(q, n@.skip(ni as int)) == deep_slash_tail(q, n@.skip(i as int)),
        decreases n.len() - i,
    {
        assert(n@.skip(i as int).drop_first() == n@.skip(i + 1));
        if n[i] == '/' {
            if glob_from(p, qi, n, i + 1) {
                return true;
            }
        }
        i += 1;
    }
    false
}

fn glob_deep(p: &[char], qi: usize, n: &[char], ni: usize) -> (b: bool)
    requires
        qi <= p.len(),
        ni <= n.len(),
    ensures
        b == deep_tail(p@.skip(qi as int), n@.skip(ni as int)),
    decreases p.len() - qi, 2nat,
{
    let ghost q = p@.skip(qi as int);
    let mut i = ni;
    while i < n.len()
        invariant
            ni <= i <= n.len(),
            qi <= p.len(),
            q == p@.skip(qi as int),
            deep_tail(q, n@.skip(ni as int)) == deep_tail(q, n@.skip(i as int)),
        decreases n.len() - i,
    {
        assert(n@.skip(i as int).drop_first() == n@.skip(i + 1));
        if glob_from(p, qi, n, i) {
            return true;
        }
        i += 1;
    }
    glob_from(p, qi, n, i)
}

fn glob_segment(p: &[char], qi: usize, n: &[char], ni: usize) -> (b: bool)
    requires
        qi <= p.len(),
        ni <= n.len(),
    ensures
        b == segment_tail(p@.skip(qi as int), n@.skip(ni as int)),
    decreases p.len() - qi, 2nat,
{
    let ghost q = p@.skip(qi as int);
    let mut i = ni;
    while i < n.len()
        invariant
            ni <= i <= n.len(),
            qi <= p.len(),
            q == p@.skip(qi as int),
            segment_tail(q, n@.skip(ni as int)) == segment_tail(q, n@.skip(i as int)),
        decreases n.len() - i,
    {
        assert(n@.skip(i as int).drop_first() == n@.skip(i + 1));
        if glob_from(p, qi, n, i) {
            return true;
        }
        if n[i] == '/' {
            return false;
        }
        i += 1;
    }
    glob_from(p, qi, n, i)
}

fn glob_from(p: &[char], pi: usize, n: &[char], ni: usize) -> (b: bool)
    requires
        pi <= p.len(),
        ni <= n.len(),
    ensures
        b == path_glob(p@.skip(pi as int), n@.skip(ni as int)),
    decreases p.len() - pi, 1nat,
{
    let ghost ps = p@.skip(pi as int);
    let ghost ns = n@.skip(ni as int);
    if pi == p.len() {
        return ni == n.len();
    }
    if p.len() - pi > 2 && p[pi] == '*' && p[pi + 1] == '*' && p[pi + 2] == '/' {
        assert(ps.skip(3) == p@.skip(pi + 3));
        return glob_from(p, pi + 3, n, ni) || glob_deep_slash(p, pi + 3, n, ni);
    }
    if p.len() - pi > 1 && p[pi] == '*' && p[pi + 1] == '*' {
        assert(ps.skip(2) == p@.skip(pi + 2));
        return glob_deep(p, pi + 2, n, ni);
    }
    if p[pi] == '*' {
        assert(ps.skip(1) == p@.skip(pi + 1));
        return glob_segment(p, pi + 1, n, ni);
    }
    assert(ps.skip(1) == p@.skip(pi + 1));
    if ni < n.len() {
        assert(ns.skip(1) == n@.skip(ni + 1));
    }
    ni < n.len() && n[ni] == p[pi] && glob_from(p, pi + 1, n, ni + 1)
}

/// Matches a `/`-separated path against a glob where `*` matches within
/// one segment and `**` matches across segments; leading `./` on either
/// side is ignored.
pub fn path_glob_match(pattern: &str, path: &str) -> (b: bool)
    ensures
        b == path_glob(trim_dot_slash(pattern@), trim_dot_slash(path@)),
{
    let p = chars_of(pattern);
    let n = chars_of(path);
    let p = trim_dot_slash_exec(p.as_slice());
    let n = trim_dot_slash_exec(n.as_slice());
    assert(p@.skip(0) == p@ && n@.skip(0) == n@);
    glob_from(p.as_slice(), 0, n.as_slice(), 0)
}

/// Whether a `pages` filter measures a repository path.
pub open spec fn measures_path(pages: Seq<String>, repo_path: Seq<char>) -> bool {
    pages.len() == 0 || exists|i: int|
        0 <= i < pages.len() && #[trigger] path_glob(trim_dot_slash(pages[i]@), trim_dot_slash(repo_path))
}

impl ScanConfig {
    /// Validates that exactly one of `repo`/`path` is set.
    pub fn validate(&self) -> (r: Result<(), String>)
        ensures
            r is Ok <==> (self.repo is Some != self.path is Some),
            r matches Err(m) ==> m@ == (if self.repo is Some {
                "a coverage.scan entry cannot set both `repo` and `path`"@
            } else {
                "a coverage.scan entry needs `repo` or `path`"@
            }),
    {
        match (&self.repo, &self.path) {
            (Some(_), Some(_)) => Err(owned("a coverage.scan entry cannot set both `repo` and `path`")),
            (None, None) => Err(owned("a coverage.scan entry needs `repo` or `path`")),
            _ => Ok(()),
        }
    }

    /// Whether `repo_path` is measured under this entry's `pages` filter.
    pub fn measures(&self, repo_path: &str) -> (b: bool)
        ensures
            b == measures_path(self.pages@, repo_path@),
    {
        if self.pages.len() == 0 {
            return true;
        }
        let mut i: usize = 0;
        while i < self.pages.len()
            invariant
                i <= self.pages.len(),
                forall|k: int|
                    0 <= k < i ==> !#[trigger] path_glob(trim_dot_slash(self.pages@[k]@), trim_dot_slash(repo_path@)),
            decreases self.pages.len() - i,
        {
            if path_glob_match(self.pages[i].as_str(), repo_path) {
                return true;
            }
            i += 1;
        }
        false
    }
}

/// `s` without any leading or trailing `c`.
pub open spec fn trim_char(s: Seq<char>, c: char) -> Seq<char>
    decreases s.len(),
{
    if s.len() > 0 && s[0] == c {
        trim_char(s.drop_first(), c)
    } else if s.len() > 0 && s.last() == c {
        trim_char(s.drop_last(), c)
    } else {
        s
    }
}

/// `s` with every `\` turned into `/`.
pub open spec fn backslash_to_slash(s: Seq<char>) -> Seq<char> {
    Seq::new(s.len(), |i: int| if s[i] == '\\' { '/' } else { s[i] })
}

/// What `effective_coverage_prefix` returns for a source.
pub open spec fn coverage_prefix_of(src: SourceConfig) -> Seq<char> {
    match src.coverage_prefix {
        Some(p) => trim_char(p@, '/'),
        None => if src.url is Some {
            trim_char(src.start_path@, '/')
        } else {
            match src.path {
                Some(p) => trim_dot_slash(trim_char(backslash_to_slash(p@), '/')),
                None => Seq::empty(),
            }
        },
    }
}

/// Removes leading and trailing `c`.
pub fn trim_char_exec(s: &[char], c: char) -> (r: Vec<char>)
    ensures
        r@ == trim_char(s@, c),
{
    let mut lo: usize = 0;
    let mut hi: usize = s.len();
    assert(s@.subrange(0, s@.len() as int) == s@);
    while lo < hi && s[lo] == c
        invariant
            lo <= hi <= s.len(),
            hi == s.len(),
            trim_char(s@, c) == trim_char(s@.subrange(lo as int, hi as int), c),
        decreases hi - lo,
    {
        assert(s@.subrange(lo as int, hi as int).drop_first() == s@.subrange(lo + 1, hi as int));
        lo += 1;
    }
    while lo < hi && s[hi - 1] == c
        invariant
            lo <= hi <= s.len(),
            lo < hi ==> s@[lo as int] != c,
            trim_char(s@, c) == trim_char(s@.subrange(lo as int, hi as int), c),
        decreases hi - lo,
    {
        assert(s@.subrange(lo as int, hi as int).drop_last() == s@.subrange(lo as int, hi - 1));
        hi -= 1;
    }
    slice_vec(s, lo, hi)
}

impl SourceConfig {
    /// Whether this source is a git source (`url`) rather than a plain
    /// directory (`path`).
    pub fn is_git(&self) -> (b: bool)
        ensures
            b == self.url is Some,
    {
        self.url.is_some()
    }

    /// The effective coverage-key prefix: the explicit `coverage_prefix`,
    /// else the start path of a git source, else the directory path, with
    /// `/` trimmed from both ends (and `\` read as `/`, `./` dropped for
    /// directory paths).
    pub fn effective_coverage_prefix(&self) -> (r: String)
        ensures
            r@ == coverage_prefix_of(*self),
    {
        match &self.coverage_prefix {
            Some(prefix) => {
                let p = chars_of(prefix.as_str());
                let t = trim_char_exec(p.as_slice(), '/');
                return string_of(t.as_slice());
            },
            None => {},
        }
        if self.url.is_some() {
            let p = chars_of(self.start_path.as_str());
            let t = trim_char_exec(p.as_slice(), '/');
            return string_of(t.as_slice());
        }
        match &self.path {
            Some(path) => {
                let p = chars_of(path.as_str());
                let mut q: Vec<char> = Vec::new();
                let mut i: usize = 0;
                while i < p.len()
                    invariant
                        i <= p.len(),
                        q@ == backslash_to_slash(p@.take(i as int)),
                    decreases p.len() - i,
                {
                    q.push(if p[i] == '\\' { '/' } else { p[i] });
                    i += 1;
                    assert(q@ =~= backslash_to_slash(p@.take(i as int)));
                }
                assert(p@.take(p.len() as int) == p@);
                let t = trim_char_exec(q.as_slice(), '/');
                let u = trim_dot_slash_exec(t.as_slice());
                string_of(u.as_slice())
            },
            None => String::new(),
        }
    }

    /// Validates that exactly one of `path`/`url` is set.
    pub fn validate(&self) -> (r: Result<(), String>)
        ensures
            r is Ok <==> (self.path is Some != self.url is Some),
            r matches Err(m) ==> m@ == (if self.path is Some {
                "a content source cannot set both `path` and `url`"@
            } else {
                "a content source needs `path` or `url`"@
            }),
    {
        match (&self.path, &self.url) {
            (Some(_), Some(_)) => Err(owned("a content source cannot set both `path` and `url`")),
            (None, None) => Err(owned("a content source needs `path` or `url`")),
            _ => Ok(()),
        }
    }
}

} // verus!
