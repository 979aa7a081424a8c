//! The interim per-line coverage input, kept for pre-computed data.
//!
//! The `sdd` tools emit Codecov-style per-line JSON keyed by source path:
//!
//! ```json
//! { "coverage": { "docs/modules/ROOT/pages/x.adoc": { "9": 1, "12": 0 } } }
//! ```
//!
//! Semantics per non-blank source line: `1`, verified by a test; `0`,
//! normative but uncovered; absent, non-normative prose (or blank). The
//! reader addresses that data by page coordinates and projects it onto the
//! block model ([`PageCoverage::from_legacy_lines`]).

use std::collections::BTreeMap;

use vstd::prelude::*;

use crate::coverage::model::{BlockCoverage, BlockState, PageCoverage, SpecBlock, block_states, tallies};
use crate::model::catalog::{Coords, opt_as_str};
use crate::model::playbook::{backslash_to_slash, trim_dot_slash, trim_dot_slash_exec};
use crate::model::resource::{family_dir, opt_view};
use crate::model::versions::opt_str;
use crate::text::{
    chars_of, debug_quote, debug_quoted, dec, owned, parse_decimal, parse_uint, push_chars, push_str, str_eq,
    string_of,
};

verus! {

broadcast use vstd::std_specs::btree::group_btree_axioms;

/// Errors from loading per-line coverage data.
#[derive(Clone, Debug, PartialEq)]
pub enum CoverageError {
    /// A coverage file could not be read.
    Io {
        /// The coverage file.
        path: String,
        /// What the operating system reported.
        message: String,
    },
    /// A coverage file is not valid coverage JSON.
    Invalid {
        /// The coverage file.
        path: String,
        /// What was wrong.
        message: String,
    },
}

/// The text a coverage error displays.
pub open spec fn coverage_error_text(e: CoverageError) -> Seq<char> {
    match e {
        CoverageError::Io { path, message } => "cannot read "@ + path@ + ": "@ + message@,
        CoverageError::Invalid { path, message } => "invalid coverage JSON in "@ + path@ + ": "@ + message@,
    }
}

impl CoverageError {
    /// The error as a message.
    pub fn to_string(&self) -> (r: String)
        ensures
            r@ == coverage_error_text(*self),
    {
        match self {
            CoverageError::Io { path, message } => {
                let mut out = owned("cannot read ");
                push_str(&mut out, path.as_str());
                push_str(&mut out, ": ");
                push_str(&mut out, message.as_str());
                out
            },
            CoverageError::Invalid { path, message } => {
                let mut out = owned("invalid coverage JSON in ");
                push_str(&mut out, path.as_str());
                push_str(&mut out, ": ");
                push_str(&mut out, message.as_str());
                out
            },
        }
    }
}

/// The status of one covered line.
#[derive(Clone, Copy, Debug, PartialEq, Eq, Structural)]
pub enum LineStatus {
    /// Normative and verified by a test.
    Verified,
    /// Normative but not yet verified.
    Uncovered,
}

/// Per-line coverage of one source file (line numbers are 1-based).
pub type LineCoverage = BTreeMap<u32, LineStatus>;

/// A JSON value as plain data.
#[derive(Debug)]
pub enum JsonValue {
    /// `null`.
    Null,
    /// A boolean.
    Bool(bool),
    /// A number, as the non-negative integer it is (`None` when it is
    /// negative or has a fraction).
    Number(Option<u64>),
    /// A string.
    String(String),
    /// An array.
    Array(Vec<JsonValue>),
    /// An object, its members in key order.
    Object(Vec<(String, JsonValue)>),
}

/// The value `serde_json` parses a text into, or the message of its parse
/// error.
pub uninterp spec fn json_document(text: Seq<char>) -> Result<JsonValue, Seq<char>>;

#[verifier::external_type_specification]
#[verifier::external_body]
pub struct ExJsonValue(serde_json::Value);

/// Converts a `serde_json::Value` to plain data, variant by variant.
#[verifier::external_body]
fn json_plain(v: serde_json::Value) -> JsonValue {
    match v {
        serde_json::Value::Null => JsonValue::Null,
        serde_json::Value::Bool(b) => JsonValue::Bool(b),
        serde_json::Value::Number(n) => JsonValue::Number(n.as_u64()),
        serde_json::Value::String(s) => JsonValue::String(s),
        serde_json::Value::Array(a) => JsonValue::Array(a.into_iter().map(json_plain).collect()),
        serde_json::Value::Object(o) => JsonValue::Object(o.into_iter().map(|(k, v)| (k, json_plain(v))).collect()),
    }
}

/// Parses JSON text with `serde_json::from_str` into a
/// `serde_json::Value` and hands it back as plain data ([`json_plain`]
/// converts each value); a parse error is handed back as its message.
/// Claimed: the result is [`json_document`] of the text.
#[verifier::external_body]
fn parse_json(text: &str) -> (r: Result<JsonValue, String>)
    ensures
        match r {
            Ok(v) => json_document(text@) == Ok::<JsonValue, Seq<char>>(v),
            Err(e) => json_document(text@) == Err::<JsonValue, Seq<char>>(e@),
        },
{
    match serde_json::from_str::<serde_json::Value>(text) {
        Ok(v) => Ok(json_plain(v)),
        Err(e) => Err(e.to_string()),
    }
}

/// The text of a parse result.
pub open spec fn doc_view_json(doc: Result<JsonValue, String>) -> Result<JsonValue, Seq<char>> {
    match doc {
        Ok(v) => Ok(v),
        Err(e) => Err(e@),
    }
}

/// The value of the first member of an object with the given key.
pub open spec fn member(o: Seq<(String, JsonValue)>, key: Seq<char>) -> Option<JsonValue>
    decreases o.len(),
{
    if o.len() == 0 {
        None
    } else if o[0].0@ == key {
        Some(o[0].1)
    } else {
        member(o.drop_first(), key)
    }
}

/// The line status a JSON value records: `0` uncovered, `1` verified,
/// anything else none.
pub open spec fn status_of(v: JsonValue) -> Option<LineStatus> {
    match v {
        JsonValue::Number(Some(n)) => if n == 0 {
            Some(LineStatus::Uncovered)
        } else if n == 1 {
            Some(LineStatus::Verified)
        } else {
            None
        },
        _ => None,
    }
}

/// Records a line's status, a `Verified` line keeping its status.
pub open spec fn merge_line(m: Map<u32, LineStatus>, line: u32, st: LineStatus) -> Map<u32, LineStatus> {
    if m.contains_key(line) && m[line] == LineStatus::Verified {
        m
    } else {
        m.insert(line, st)
    }
}

/// Merges a file's line map into `m`, member by member, stopping at the
/// first bad member with its message.
pub open spec fn fold_lines(file: Seq<char>, m: Map<u32, LineStatus>, lines: Seq<(String, JsonValue)>) -> (Map<u32, LineStatus>, Option<Seq<char>>)
    decreases lines.len(),
{
    if lines.len() == 0 {
        (m, None)
    } else {
        match parse_uint(lines[0].0@, u32::MAX as nat) {
            None => (m, Some(file + ": bad line number "@ + debug_quoted(lines[0].0@))),
            Some(n) => match status_of(lines[0].1) {
                None => (m, Some(file + ": bad status for line "@ + dec(n))),
                Some(st) => fold_lines(file, merge_line(m, n as u32, st), lines.drop_first()),
            },
        }
    }
}

/// The key a producing tool's path is stored under: without leading
/// `./`, with `\` turned into `/`.
pub open spec fn path_key(p: Seq<char>) -> Seq<char> {
    backslash_to_slash(trim_dot_slash(p))
}

/// The index of the file entry with the given key, or `-1`.
pub open spec fn file_index(fs: Seq<(Seq<char>, Map<u32, LineStatus>)>, key: Seq<char>) -> int
    decreases fs.len(),
{
    if fs.len() == 0 {
        -1
    } else if fs.last().0 == key {
        fs.len() - 1
    } else {
        file_index(fs.drop_last(), key)
    }
}

/// The index `file_index` finds holds the key; without one, no entry does.
proof fn lemma_file_index(fs: Seq<(Seq<char>, Map<u32, LineStatus>)>, key: Seq<char>)
    ensures
        -1 <= file_index(fs, key) < fs.len(),
        file_index(fs, key) >= 0 ==> fs[file_index(fs, key)].0 == key,
        file_index(fs, key) < 0 ==> forall|i: int| 0 <= i < fs.len() ==> (#[trigger] fs[i]).0 != key,
    decreases fs.len(),
{
    if fs.len() > 0 && fs.last().0 != key {
        lemma_file_index(fs.drop_last(), key);
        assert forall|i: int| 0 <= i < fs.len() - 1 implies fs[i] == fs.drop_last()[i] by {}
    }
}

/// The line map stored under a key (empty when there is none).
pub open spec fn lines_under(fs: Seq<(Seq<char>, Map<u32, LineStatus>)>, key: Seq<char>) -> Map<u32, LineStatus> {
    if file_index(fs, key) >= 0 {
        fs[file_index(fs, key)].1
    } else {
        Map::empty()
    }
}

/// Stores a line map under a key, in place or appended.
pub open spec fn store(fs: Seq<(Seq<char>, Map<u32, LineStatus>)>, key: Seq<char>, m: Map<u32, LineStatus>) -> Seq<(Seq<char>, Map<u32, LineStatus>)> {
    if file_index(fs, key) >= 0 {
        fs.update(file_index(fs, key), (key, m))
    } else {
        fs.push((key, m))
    }
}

/// Merges a `coverage` object into the files, member by member, stopping
/// at the first bad member with its message.
pub open spec fn fold_files(fs: Seq<(Seq<char>, Map<u32, LineStatus>)>, cov: Seq<(String, JsonValue)>) -> (Seq<(Seq<char>, Map<u32, LineStatus>)>, Option<Seq<char>>)
    decreases cov.len(),
{
    if cov.len() == 0 {
        (fs, None)
    } else {
        match cov[0].1 {
            JsonValue::Object(ls) => {
                let key = path_key(cov[0].0@);
                let (m, err) = fold_lines(cov[0].0@, lines_under(fs, key), ls@);
                let fs1 = store(fs, key, m);
                if err is Some {
                    (fs1, err)
                } else {
                    fold_files(fs1, cov.drop_first())
                }
            },
            _ => (fs, Some(cov[0].0@ + ": expected a line map"@)),
        }
    }
}

/// What loading a parsed document does: the files afterwards, and the
/// error, if any.
pub open spec fn load_doc(fs: Seq<(Seq<char>, Map<u32, LineStatus>)>, doc: Result<JsonValue, Seq<char>>) -> (Seq<(Seq<char>, Map<u32, LineStatus>)>, Option<Seq<char>>) {
    match doc {
        Err(e) => (fs, Some(e)),
        Ok(JsonValue::Object(top)) => match member(top@, "coverage"@) {
            Some(JsonValue::Object(cov)) => fold_files(fs, cov@),
            _ => (fs, Some("missing top-level \"coverage\" object"@)),
        },
        Ok(_) => (fs, Some("missing top-level \"coverage\" object"@)),
    }
}

/// `s` without any trailing `c`.
pub open spec fn trim_trailing(s: Seq<char>, c: char) -> Seq<char>
    decreases s.len(),
{
    if s.len() > 0 && s.last() == c {
        trim_trailing(s.drop_last(), c)
    } else {
        s
    }
}

fn trim_trailing_chars(s: &[char], c: char) -> (r: Vec<char>)
    ensures
        r@ == trim_trailing(s@, c),
{
    let mut hi: usize = s.len();
    assert(s@.take(s@.len() as int) == s@);
    while hi > 0 && s[hi - 1] == c
        invariant
            hi <= s.len(),
            trim_trailing(s@, c) == trim_trailing(s@.take(hi as int), c),
        decreases hi,
    {
        assert(s@.take(hi as int).drop_last() == s@.take(hi - 1));
        hi -= 1;
    }
    crate::text::slice_vec(s, 0, hi)
}

/// The key a page's line coverage is stored under: the prefix (without
/// trailing `/`), then `modules/{module}/{family dir}/{path}`.
pub open spec fn page_key(prefix: Seq<char>, module: Seq<char>, dir: Seq<char>, path: Seq<char>) -> Seq<char> {
    (if prefix.len() == 0 {
        Seq::empty()
    } else {
        trim_trailing(prefix, '/') + "/"@
    }) + "modules/"@ + module + "/"@ + dir + "/"@ + path
}

/// Site-wide per-line coverage data, keyed by the source paths the
/// producing tool used (repository-root-relative, e.g.
/// `docs/modules/ROOT/pages/x.adoc`).
#[derive(Debug, Default)]
pub struct CoverageData {
    files: Vec<(String, LineCoverage)>,
}

impl View for CoverageData {
    type V = Seq<(Seq<char>, Map<u32, LineStatus>)>;

    closed spec fn view(&self) -> Seq<(Seq<char>, Map<u32, LineStatus>)> {
        Seq::new(self.files@.len(), |i: int| (self.files@[i].0@, self.files@[i].1@))
    }
}

fn member_of<'a>(o: &'a Vec<(String, JsonValue)>, key: &str) -> (r: Option<&'a JsonValue>)
    ensures
        match r {
            Some(v) => member(o@, key@) == Some(*v),
            None => member(o@, key@) is None,
        },
{
    let mut i: usize = 0;
    assert(o@.skip(0) == o@);
    while i < o.len()
        invariant
            i <= o@.len(),
            member(o@, key@) == member(o@.skip(i as int), key@),
        decreases o.len() - i,
    {
        assert(o@.skip(i as int)[0] == o@[i as int]);
        if str_eq(o[i].0.as_str(), key) {
            return Some(&o[i].1);
        }
        assert(o@.skip(i as int).drop_first() == o@.skip(i + 1));
        i += 1;
    }
    None
}

/// The key a producing tool's path is stored under.
fn path_key_exec(p: &str) -> (r: String)
    ensures
        r@ == path_key(p@),
{
    let c = chars_of(p);
    let t = trim_dot_slash_exec(c.as_slice());
    let mut out: Vec<char> = Vec::new();
    let mut i: usize = 0;
    while i < t.len()
        invariant
            i <= t@.len(),
            out@ == backslash_to_slash(t@).take(i as int),
        decreases t.len() - i,
    {
        out.push(if t[i] == '\\' { '/' } else { t[i] });
        i += 1;
        assert(out@ =~= backslash_to_slash(t@).take(i as int));
    }
    assert(backslash_to_slash(t@).take(t@.len() as int) =~= backslash_to_slash(t@));
    string_of(out.as_slice())
}

/// The line status a JSON value records.
fn status_exec(v: &JsonValue) -> (r: Option<LineStatus>)
    ensures
        r == status_of(*v),
{
    match v {
        JsonValue::Number(Some(n)) => {
            if *n == 0 {
                Some(LineStatus::Uncovered)
            } else if *n == 1 {
                Some(LineStatus::Verified)
            } else {
                None
            }
        },
        _ => None,
    }
}

impl CoverageData {
    /// Creates empty coverage data.
    pub fn new() -> (r: Self)
        ensures
            r@ == Seq::<(Seq<char>, Map<u32, LineStatus>)>::empty(),
    {
        let r = CoverageData { files: Vec::new() };
        assert(r@ =~= Seq::<(Seq<char>, Map<u32, LineStatus>)>::empty());
        r
    }

    /// Whether no coverage was loaded at all.
    pub fn is_empty(&self) -> (b: bool)
        ensures
            b == (self@.len() == 0),
    {
        self.files.len() == 0
    }

    /// The index of the last file entry with the given key.
    fn find(&self, key: &String) -> (r: Option<usize>)
        ensures
            match r {
                Some(i) => i < self@.len() && file_index(self@, key@) == i,
                None => file_index(self@, key@) == -1,
            },
    {
        let mut i: usize = self.files.len();
        assert(self@.take(self@.len() as int) == self@);
        while i > 0
            invariant
                i <= self@.len(),
                file_index(self@, key@) == file_index(self@.take(i as int), key@),
            decreases i,
        {
            assert(self@.take(i as int).last() == self@[i - 1]);
            assert(self@.take(i as int).drop_last() == self@.take(i - 1));
            if self.files[i - 1].0 == *key {
                return Some(i - 1);
            }
            i -= 1;
        }
        None
    }

    /// Loads coverage JSON from a string, merging into the data already
    /// held (on overlap, a `Verified` line wins over `Uncovered`). An
    /// error stops the load where it occurs.
    pub fn load_str(&mut self, text: &str) -> (r: Result<(), String>)
        ensures
            final(self)@ == load_doc(old(self)@, json_document(text@)).0,
            match r {
                Ok(_) => load_doc(old(self)@, json_document(text@)).1 is None,
                Err(m) => load_doc(old(self)@, json_document(text@)).1 == Some(m@),
            },
    {
        let doc = parse_json(text);
        self.load_value(doc)
    }

    /// Merges a parsed coverage document into the data already held, as
    /// `load_str` does with the document its text parses to.
    pub fn load_value(&mut self, doc: Result<JsonValue, String>) -> (r: Result<(), String>)
        ensures
            final(self)@ == load_doc(old(self)@, doc_view_json(doc)).0,
            match r {
                Ok(_) => load_doc(old(self)@, doc_view_json(doc)).1 is None,
                Err(m) => load_doc(old(self)@, doc_view_json(doc)).1 == Some(m@),
            },
    {
        let top = match &doc {
            Err(e) => {
                return Err(owned(e.as_str()));
            },
            Ok(JsonValue::Object(t)) => t,
            Ok(_) => {
                return Err(owned("missing top-level \"coverage\" object"));
            },
        };
        let cov = match member_of(top, "coverage") {
            Some(JsonValue::Object(c)) => c,
            _ => {
                return Err(owned("missing top-level \"coverage\" object"));
            },
        };
        let ghost goal = fold_files(self@, cov@);
        assert(goal == load_doc(old(self)@, doc_view_json(doc)));
        let mut i: usize = 0;
        assert(cov@.skip(0) == cov@);
        while i < cov.len()
            invariant
                i <= cov@.len(),
                goal == fold_files(self@, cov@.skip(i as int)),
                goal == load_doc(old(self)@, doc_view_json(doc)),
            decreases cov.len() - i,
        {
            assert(cov@.skip(i as int)[0] == cov@[i as int]);
            assert(cov@.skip(i as int).drop_first() == cov@.skip(i + 1));
            let file = cov[i].0.as_str();
            let lines = match &cov[i].1 {
                JsonValue::Object(ls) => ls,
                _ => {
                    let mut m = owned(file);
                    push_str(&mut m, ": expected a line map");
                    return Err(m);
                },
            };
            let key = path_key_exec(file);
            let ghost fs = self@;
            let idx = match self.find(&key) {
                Some(k) => k,
                None => {
                    self.files.push((owned(key.as_str()), BTreeMap::new()));
                    assert(self@ =~= fs.push((key@, Map::<u32, LineStatus>::empty())));
                    self.files.len() - 1
                },
            };
            let ghost m0 = lines_under(fs, key@);
            proof {
                lemma_file_index(fs, key@);
            }
            assert(self@ =~= store(fs, key@, m0));
            let ghost inner = fold_lines(file@, m0, lines@);
            assert(goal == (if inner.1 is Some {
                (store(fs, key@, inner.0), inner.1)
            } else {
                fold_files(store(fs, key@, inner.0), cov@.skip(i + 1))
            }));
            let mut j: usize = 0;
            assert(lines@.skip(0) == lines@);
            while j < lines.len()
                invariant
                    goal == (if inner.1 is Some {
                        (store(fs, key@, inner.0), inner.1)
                    } else {
                        fold_files(store(fs, key@, inner.0), cov@.skip(i + 1))
                    }),
                    goal == load_doc(old(self)@, doc_view_json(doc)),
                    j <= lines@.len(),
                    idx < self@.len(),
                    self@ == store(fs, key@, self@[idx as int].1),
                    file_index(fs, key@) >= 0 ==> idx == file_index(fs, key@),
                    file_index(fs, key@) < 0 ==> idx == fs.len(),
                    self@[idx as int].0 == key@,
                    inner == fold_lines(file@, self@[idx as int].1, lines@.skip(j as int)),
                decreases lines.len() - j,
            {
                assert(lines@.skip(j as int)[0] == lines@[j as int]);
                assert(lines@.skip(j as int).drop_first() == lines@.skip(j + 1));
                let kc = chars_of(lines[j].0.as_str());
                let line = match parse_decimal(kc.as_slice(), 0xFFFF_FFFF) {
                    Some(n) => n as u32,
                    None => {
                        let mut m = owned(file);
                        push_str(&mut m, ": bad line number ");
                        let q = debug_quote(lines[j].0.as_str());
                        push_str(&mut m, q.as_str());
                        return Err(m);
                    },
                };
                let status = match status_exec(&lines[j].1) {
                    Some(st) => st,
                    None => {
                        let mut m = owned(file);
                        push_str(&mut m, ": bad status for line ");
                        let mut digits: Vec<char> = Vec::new();
                        crate::text::push_dec(&mut digits, line as u64);
                        push_chars(&mut m, digits.as_slice());
                        return Err(m);
                    },
                };
                let ghost before = self@;
                let keep = match self.files[idx].1.get(&line) {
                    Some(LineStatus::Verified) => true,
                    _ => false,
                };
                if !keep {
                    self.files[idx].1.insert(line, status);
                }
                assert(self@ =~= before.update(idx as int, (key@, merge_line(before[idx as int].1, line, status))));
                proof {
                    lemma_file_index(fs, key@);
                    let y = self@[idx as int].1;
                    if file_index(fs, key@) >= 0 {
                        assert(before =~= fs.update(idx as int, (key@, before[idx as int].1)));
                        assert(self@ =~= fs.update(idx as int, (key@, y)));
                    } else {
                        assert(before =~= fs.push((key@, before[idx as int].1)));
                        assert(self@ =~= fs.push((key@, y)));
                    }
                }
                j += 1;
            }
            assert(lines@.skip(j as int).len() == 0);
            assert(inner.0 == self@[idx as int].1);
            i += 1;
        }
        assert(cov@.skip(i as int).len() == 0);
        Ok(())
    }

    /// The line coverage recorded for a page, addressed by its coordinates
    /// plus the `prefix` the producing tool's paths start with (typically
    /// the content source's start path, e.g. `docs`).
    pub fn page_lines(&self, prefix: &str, coords: &Coords) -> (r: Option<&LineCoverage>)
        ensures
            match family_dir(coords.family) {
                None => r is None,
                Some(dir) => {
                    let key = page_key(prefix@, coords@.module, dir, coords@.path);
                    match r {
                        Some(l) => file_index(self@, key) >= 0 && self@[file_index(self@, key)].1 == l@,
                        None => file_index(self@, key) < 0,
                    }
                },
            },
    {
        let dir = match coords.family.dir_name() {
            Some(d) => d,
            None => {
                return None;
            },
        };
        let mut key = String::new();
        let pc = chars_of(prefix);
        if pc.len() > 0 {
            let t = trim_trailing_chars(pc.as_slice(), '/');
            push_chars(&mut key, t.as_slice());
            push_str(&mut key, "/");
        }
        push_str(&mut key, "modules/");
        push_str(&mut key, coords.module.as_str());
        push_str(&mut key, "/");
        push_str(&mut key, dir);
        push_str(&mut key, "/");
        push_str(&mut key, coords.path.as_str());
        assert(key@ =~= page_key(prefix@, coords@.module, family_dir(coords.family)->0, coords@.path));
        match self.find(&key) {
            Some(i) => Some(&self.files[i].1),
            None => None,
        }
    }
}

/// One content source's per-line coverage, scoped to the component
/// versions that source contributed to the catalog: pages of other
/// components (or other versions of the same component) never read it.
#[derive(Debug, Default)]
pub struct CoverageScope {
    /// The source's merged coverage data.
    pub data: CoverageData,
    /// The path prefix the source's coverage keys start with.
    pub prefix: String,
    /// The `(component name, version)` keys this coverage applies to.
    pub components: Vec<(String, Option<String>)>,
}

impl CoverageScope {
    /// Whether this scope covers the given component version.
    pub fn applies_to(&self, component: &str, version: Option<&str>) -> (b: bool)
        ensures
            b == exists|k: int|
                0 <= k < self.components@.len() && (#[trigger] self.components@[k]).0@ == component@ && opt_view(
                    self.components@[k].1,
                ) == opt_str(version),
    {
        let mut k: usize = 0;
        while k < self.components.len()
            invariant
                k <= self.components@.len(),
                forall|m: int| 0 <= m < k ==> !((#[trigger] self.components@[m]).0@ == component@ && opt_view(self.components@[m].1) == opt_str(version)),
            decreases self.components.len() - k,
        {
            let v = opt_as_str(&self.components[k].1);
            let same_version = match (v, version) {
                (Some(a), Some(b)) => str_eq(a, b),
                (None, None) => true,
                _ => false,
            };
            if str_eq(self.components[k].0.as_str(), component) && same_version {
                return true;
            }
            k += 1;
        }
        false
    }
}

/// Whether some line of `[start, end]` has the given status.
pub open spec fn span_has(m: Map<u32, LineStatus>, start: int, end: int, st: LineStatus) -> bool {
    exists|l: u32| start <= l <= end && #[trigger] m.contains_key(l) && m[l] == st
}

/// The last line of a block's span: `start + max(count, 1) - 1`.
pub open spec fn span_end(start: u32, count: u32) -> int {
    start + (if count > 1 { count as int } else { 1 }) - 1
}

/// Whether a block's span ends within `u32`.
pub open spec fn span_fits(page_lines: Option<(u32, u32)>) -> bool {
    match page_lines {
        Some((s, c)) => span_end(s, c) <= u32::MAX,
        None => true,
    }
}

/// The state per-line data gives a block: any uncovered line makes it
/// `uncovered`, else any verified line `verified`, else (no coverage, or
/// no lines on the page itself) `non-normative`.
pub open spec fn legacy_state(m: Map<u32, LineStatus>, page_lines: Option<(u32, u32)>) -> BlockState {
    match page_lines {
        None => BlockState::NonNormative,
        Some((start, count)) => if span_has(m, start as int, span_end(start, count), LineStatus::Uncovered) {
            BlockState::Uncovered
        } else if span_has(m, start as int, span_end(start, count), LineStatus::Verified) {
            BlockState::Verified
        } else {
            BlockState::NonNormative
        },
    }
}

fn legacy_block_state(lines: &LineCoverage, page_lines: Option<(u32, u32)>) -> (r: BlockState)
    requires
        span_fits(page_lines),
    ensures
        r == legacy_state(lines@, page_lines),
{
    match page_lines {
        None => BlockState::NonNormative,
        Some((start, count)) => {
            let span: u32 = if count > 1 { count } else { 1 };
            let end: u64 = start as u64 + span as u64 - 1;
            let mut saw_verified = false;
            let mut saw_uncovered = false;
            let mut l: u64 = start as u64;
            while l <= end
                invariant
                    start <= l <= end + 1,
                    end == span_end(start, count),
                    end <= u32::MAX,
                    saw_verified == span_has(lines@, start as int, l - 1, LineStatus::Verified),
                    saw_uncovered == span_has(lines@, start as int, l - 1, LineStatus::Uncovered),
                decreases end + 1 - l,
            {
                let line = l as u32;
                match lines.get(&line) {
                    Some(LineStatus::Verified) => {
                        saw_verified = true;
                    },
                    Some(LineStatus::Uncovered) => {
                        saw_uncovered = true;
                    },
                    None => {},
                }
                assert(saw_verified == span_has(lines@, start as int, l as int, LineStatus::Verified)) by {
                    if span_has(lines@, start as int, l as int, LineStatus::Verified) && !span_has(lines@, start as int, l - 1, LineStatus::Verified) {
                        let w = choose|w: u32| start <= w <= l && #[trigger] lines@.contains_key(w) && lines@[w] == LineStatus::Verified;
                        assert(w == line);
                    }
                }
                assert(saw_uncovered == span_has(lines@, start as int, l as int, LineStatus::Uncovered)) by {
                    if span_has(lines@, start as int, l as int, LineStatus::Uncovered) && !span_has(lines@, start as int, l - 1, LineStatus::Uncovered) {
                        let w = choose|w: u32| start <= w <= l && #[trigger] lines@.contains_key(w) && lines@[w] == LineStatus::Uncovered;
                        assert(w == line);
                    }
                }
                l += 1;
            }
            if saw_uncovered {
                BlockState::Uncovered
            } else if saw_verified {
                BlockState::Verified
            } else {
                BlockState::NonNormative
            }
        },
    }
}

impl PageCoverage {
    /// Projects per-line data onto a page's blocks: a block whose page
    /// lines are all verified is `verified`, one with any uncovered line
    /// is `uncovered`, and one whose lines carry no coverage at all is
    /// `non-normative`. (The interim format cannot express the other
    /// states.)
    pub fn from_legacy_lines(lines: &LineCoverage, blocks: &[SpecBlock]) -> (r: PageCoverage)
        requires
            forall|j: int| 0 <= j < blocks@.len() ==> span_fits((#[trigger] blocks@[j]).page_lines),
        ensures
            r.blocks@.len() == blocks@.len(),
            forall|j: int| 0 <= j < blocks@.len() ==> {
                let b = #[trigger] r.blocks@[j];
                &&& b.state == legacy_state(lines@, blocks@[j].page_lines)
                &&& b.context@ == blocks@[j].context@
                &&& b.page_lines == blocks@[j].page_lines
                &&& b.reason is None
                &&& b.tracking is None
                &&& b.claims@.len() == 0
            },
            tallies(r.counts, block_states(r.blocks@)),
    {
        let mut resolved: Vec<BlockCoverage> = Vec::new();
        let mut j: usize = 0;
        while j < blocks.len()
            invariant
                j <= blocks@.len(),
                resolved@.len() == j,
                forall|m: int| 0 <= m < blocks@.len() ==> span_fits((#[trigger] blocks@[m]).page_lines),
                forall|m: int| 0 <= m < j ==> {
                    let b = #[trigger] resolved@[m];
                    &&& b.state == legacy_state(lines@, blocks@[m].page_lines)
                    &&& b.context@ == blocks@[m].context@
                    &&& b.page_lines == blocks@[m].page_lines
                    &&& b.reason is None
                    &&& b.tracking is None
                    &&& b.claims@.len() == 0
                },
            decreases blocks.len() - j,
        {
            let block = &blocks[j];
            let state = legacy_block_state(lines, block.page_lines);
            resolved.push(BlockCoverage {
                state,
                context: owned(block.context.as_str()),
                page_lines: block.page_lines,
                reason: None,
                tracking: None,
                claims: Vec::new(),
            });
            j += 1;
        }
        PageCoverage::from_blocks(resolved)
    }
}

/// Whether a line is recorded `Verified` in a line map.
pub open spec fn verified_in(m: Map<u32, LineStatus>, line: u32) -> bool {
    m.contains_key(line) && m[line] == LineStatus::Verified
}

/// The index a key is found at depends only on the keys.
proof fn lemma_file_index_keys(fs: Seq<(Seq<char>, Map<u32, LineStatus>)>, gs: Seq<(Seq<char>, Map<u32, LineStatus>)>, key: Seq<char>)
    requires
        fs.len() == gs.len(),
        forall|i: int| 0 <= i < fs.len() ==> (#[trigger] fs[i]).0 == gs[i].0,
    ensures
        file_index(fs, key) == file_index(gs, key),
    decreases fs.len(),
{
    if fs.len() > 0 {
        assert(fs.last().0 == gs.last().0);
        assert forall|i: int| 0 <= i < fs.len() - 1 implies (#[trigger] fs.drop_last()[i]).0 == gs.drop_last()[i].0 by {
            assert(fs[i].0 == gs[i].0);
        }
        lemma_file_index_keys(fs.drop_last(), gs.drop_last(), key);
    }
}

/// Storing a map under one key leaves every other key's map alone.
proof fn lemma_store(fs: Seq<(Seq<char>, Map<u32, LineStatus>)>, k: Seq<char>, m: Map<u32, LineStatus>, key: Seq<char>)
    ensures
        lines_under(store(fs, k, m), key) == if key == k { m } else { lines_under(fs, key) },
{
    lemma_file_index(fs, k);
    let gs = store(fs, k, m);
    if file_index(fs, k) >= 0 {
        assert forall|i: int| 0 <= i < fs.len() implies (#[trigger] fs[i]).0 == gs[i].0 by {}
        lemma_file_index_keys(fs, gs, key);
        lemma_file_index(fs, key);
    } else {
        if key != k {
            assert(gs.drop_last() == fs);
        }
        lemma_file_index(gs, key);
    }
}

/// Merging a file's lines never demotes a `Verified` line.
proof fn lemma_fold_lines_keeps(file: Seq<char>, m: Map<u32, LineStatus>, lines: Seq<(String, JsonValue)>, line: u32)
    requires
        verified_in(m, line),
    ensures
        verified_in(fold_lines(file, m, lines).0, line),
    decreases lines.len(),
{
    if lines.len() > 0 {
        match parse_uint(lines[0].0@, u32::MAX as nat) {
            None => {},
            Some(n) => match status_of(lines[0].1) {
                None => {},
                Some(st) => {
                    lemma_fold_lines_keeps(file, merge_line(m, n as u32, st), lines.drop_first(), line);
                },
            },
        }
    }
}

/// Merging a `coverage` object never demotes a `Verified` line.
proof fn lemma_fold_files_keeps(fs: Seq<(Seq<char>, Map<u32, LineStatus>)>, cov: Seq<(String, JsonValue)>, key: Seq<char>, line: u32)
    requires
        verified_in(lines_under(fs, key), line),
    ensures
        verified_in(lines_under(fold_files(fs, cov).0, key), line),
    decreases cov.len(),
{
    if cov.len() > 0 {
        match cov[0].1 {
            JsonValue::Object(ls) => {
                let k = path_key(cov[0].0@);
                let (m, err) = fold_lines(cov[0].0@, lines_under(fs, k), ls@);
                lemma_store(fs, k, m, key);
                if key == k {
                    lemma_fold_lines_keeps(cov[0].0@, lines_under(fs, k), ls@, line);
                }
                if err is None {
                    lemma_fold_files_keeps(store(fs, k, m), cov.drop_first(), key, line);
                }
            },
            _ => {},
        }
    }
}

/// Loading more coverage data never demotes a line recorded `Verified`:
/// where sources overlap, a verified line wins, whatever order they load
/// in, and even a load that stops at an error keeps it.
pub proof fn law_verified_lines_stay_verified(
    fs: Seq<(Seq<char>, Map<u32, LineStatus>)>,
    doc: Result<JsonValue, Seq<char>>,
    key: Seq<char>,
    line: u32,
)
    requires
        verified_in(lines_under(fs, key), line),
    ensures
        verified_in(lines_under(load_doc(fs, doc).0, key), line),
{
    match doc {
        Ok(JsonValue::Object(top)) => match member(top@, "coverage"@) {
            Some(JsonValue::Object(cov)) => lemma_fold_files_keeps(fs, cov@, key, line),
            _ => {},
        },
        _ => {},
    }
}

} // verus!
