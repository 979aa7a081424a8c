//! The coverage map: per-page classification sidecars.
//!
//! A sidecar is a TOML file in the implementation repository, one per
//! measured spec page, laid out under one root mirroring the spec path
//! (`spec-map/<path-as-claims-write-it>.toml`). It records what is
//! non-normative, what is deliberately out of scope, and what is planned,
//! targeting blocks by the same excerpt grammar claims use.

use vstd::prelude::*;

use crate::coverage::model::{BlockState, Tracking, tracking_url};
use crate::model::resource::opt_view;
use crate::model::versions::opt_str;
use crate::text::{chars_of, debug_quote, debug_quoted, dec, owned, push_str, str_eq, string_of, trim_chars, trim_ws};

verus! {

/// Errors from reading coverage-map sidecars.
#[derive(Clone, Debug, PartialEq)]
pub enum SidecarError {
    /// A sidecar (or the spec-map directory) could not be read.
    Io {
        /// The path being read.
        path: String,
        /// What the operating system reported.
        message: String,
    },
    /// A sidecar is not valid TOML or violates the schema.
    Invalid {
        /// The sidecar file.
        file: String,
        /// What was wrong.
        message: String,
    },
}

/// The text a sidecar error displays.
pub open spec fn sidecar_error_text(e: SidecarError) -> Seq<char> {
    match e {
        SidecarError::Io { path, message } => "cannot read "@ + path@ + ": "@ + message@,
        SidecarError::Invalid { file, message } => file@ + ": "@ + message@,
    }
}

impl SidecarError {
    /// The error as a message: `cannot read {path}: {message}` or
    /// `{file}: {message}`.
    pub fn to_string(&self) -> (r: String)
        ensures
            r@ == sidecar_error_text(*self),
    {
        match self {
            SidecarError::Io { path, message } => {
                let mut out = owned("cannot read ");
                push_str(&mut out, path.as_str());
                push_str(&mut out, ": ");
                push_str(&mut out, message.as_str());
                out
            },
            SidecarError::Invalid { file, message } => {
                let mut out = owned(file.as_str());
                push_str(&mut out, ": ");
                push_str(&mut out, message.as_str());
                out
            },
        }
    }
}

/// Which sidecar list an entry belongs to.
#[derive(Clone, Copy, Debug, PartialEq, Eq, Structural)]
pub enum SidecarKind {
    /// `[[non-normative]]`
    NonNormative,
    /// `[[out-of-scope]]`
    OutOfScope,
    /// `[[planned]]`
    Planned,
}

/// The TOML table name of a list.
pub open spec fn list_name_of(k: SidecarKind) -> Seq<char> {
    match k {
        SidecarKind::NonNormative => "non-normative"@,
        SidecarKind::OutOfScope => "out-of-scope"@,
        SidecarKind::Planned => "planned"@,
    }
}

/// The block state an entry of a list assigns.
pub open spec fn kind_state(k: SidecarKind) -> BlockState {
    match k {
        SidecarKind::NonNormative => BlockState::NonNormative,
        SidecarKind::OutOfScope => BlockState::OutOfScope,
        SidecarKind::Planned => BlockState::Planned,
    }
}

impl SidecarKind {
    /// The list's TOML table name.
    pub fn list_name(self) -> (r: &'static str)
        ensures
            r@ == list_name_of(self),
    {
        match self {
            SidecarKind::NonNormative => "non-normative",
            SidecarKind::OutOfScope => "out-of-scope",
            SidecarKind::Planned => "planned",
        }
    }

    /// The block state an entry of this list assigns.
    pub fn state(self) -> (r: BlockState)
        ensures
            r == kind_state(self),
    {
        match self {
            SidecarKind::NonNormative => BlockState::NonNormative,
            SidecarKind::OutOfScope => BlockState::OutOfScope,
            SidecarKind::Planned => BlockState::Planned,
        }
    }
}

/// One sidecar entry.
#[derive(Clone, Debug, PartialEq)]
pub struct SidecarEntry {
    /// The list the entry is in.
    pub kind: SidecarKind,
    /// The section anchor: the whole section when `excerpt` is `None`,
    /// else the scope the excerpt resolves within.
    pub section: Option<String>,
    /// The block excerpt.
    pub excerpt: Option<String>,
    /// The reason: required on `out-of-scope`; optional on
    /// `non-normative`.
    pub reason: Option<String>,
    /// The tracking link (required on `planned`).
    pub tracking: Option<Tracking>,
}

/// The entry as written: `[[list]] section = "…" excerpt = "…"`.
pub open spec fn entry_display(e: SidecarEntry) -> Seq<char> {
    "[["@ + list_name_of(e.kind) + "]]"@ + (match e.section {
        Some(s) => " section = "@ + debug_quoted(s@),
        None => Seq::empty(),
    }) + (match e.excerpt {
        Some(x) => " excerpt = "@ + debug_quoted(x@),
        None => Seq::empty(),
    })
}

impl SidecarEntry {
    /// The entry as written: `[[list]] section = …` / `excerpt = …`.
    pub fn display(&self) -> (r: String)
        ensures
            r@ == entry_display(*self),
    {
        let mut out = owned("[[");
        push_str(&mut out, self.kind.list_name());
        push_str(&mut out, "]]");
        if let Some(section) = &self.section {
            push_str(&mut out, " section = ");
            let q = debug_quote(section.as_str());
            push_str(&mut out, q.as_str());
        }
        if let Some(excerpt) = &self.excerpt {
            push_str(&mut out, " excerpt = ");
            let q = debug_quote(excerpt.as_str());
            push_str(&mut out, q.as_str());
        }
        out
    }
}

/// One page's coverage map.
#[derive(Clone, Debug, PartialEq)]
pub struct Sidecar {
    /// The sidecar file, for messages.
    pub file: String,
    /// The spec page path the sidecar classifies, resolved like a claim
    /// path.
    pub spec_path: String,
    /// The `coverage.scan` entry index the sidecar belongs to.
    pub scope: usize,
    /// Whether a human reviewed the page: prose no entry touches is
    /// normative (`uncovered` until claimed) rather than `unclassified`.
    pub reviewed: bool,
    /// The entries, in file order.
    pub entries: Vec<SidecarEntry>,
}

// ---------------------------------------------------------------------
// Reading a sidecar from TOML
// ---------------------------------------------------------------------

/// A TOML value as plain data.
#[derive(Debug)]
pub enum TomlValue {
    /// A string.
    String(String),
    /// An integer.
    Integer(i64),
    /// A boolean.
    Boolean(bool),
    /// An array.
    Array(Vec<TomlValue>),
    /// A table, its entries in key order.
    Table(Vec<(String, TomlValue)>),
    /// A float or a date-time, neither of which a sidecar holds.
    Other,
}

/// The document the `toml` crate parses a text into (its top-level table),
/// or the message of its parse error.
pub uninterp spec fn toml_document(text: Seq<char>) -> Result<TomlValue, Seq<char>>;

#[verifier::external_type_specification]
#[verifier::external_body]
pub struct ExTomlValue(toml::Value);

/// Converts a `toml::Value` to plain data, variant by variant.
#[verifier::external_body]
fn toml_plain(v: toml::Value) -> TomlValue {
    match v {
        toml::Value::String(s) => TomlValue::String(s),
        toml::Value::Integer(i) => TomlValue::Integer(i),
        toml::Value::Boolean(b) => TomlValue::Boolean(b),
        toml::Value::Array(a) => TomlValue::Array(a.into_iter().map(toml_plain).collect()),
        toml::Value::Table(t) => TomlValue::Table(t.into_iter().map(|(k, v)| (k, toml_plain(v))).collect()),
        toml::Value::Float(_) => TomlValue::Other,
        toml::Value::Datetime(_) => TomlValue::Other,
    }
}

/// Parses a TOML document with `toml::from_str` into a `toml::Table`
/// and hands it back as plain data ([`toml_plain`] converts each value);
/// a parse error is handed back as its message. Claimed: the result is
/// [`toml_document`] of the text.
#[verifier::external_body]
pub(crate) fn parse_toml(text: &str) -> (r: Result<TomlValue, String>)
    ensures
        match r {
            Ok(v) => toml_document(text@) == Ok::<TomlValue, Seq<char>>(v),
            Err(e) => toml_document(text@) == Err::<TomlValue, Seq<char>>(e@),
        },
{
    match toml::from_str::<toml::Table>(text) {
        Ok(t) => Ok(toml_plain(toml::Value::Table(t))),
        Err(e) => Err(e.to_string()),
    }
}

/// The value of the first entry of a table with the given key.
pub open spec fn field(t: Seq<(String, TomlValue)>, key: Seq<char>) -> Option<TomlValue>
    decreases t.len(),
{
    if t.len() == 0 {
        None
    } else if t[0].0@ == key {
        Some(t[0].1)
    } else {
        field(t.drop_first(), key)
    }
}

/// The string an entry field holds, if any.
pub open spec fn text_field(t: Seq<(String, TomlValue)>, key: Seq<char>) -> Option<Seq<char>> {
    match field(t, key) {
        Some(TomlValue::String(s)) => Some(s@),
        _ => None,
    }
}

/// Whether a key names a field of an entry.
pub open spec fn is_entry_key(k: Seq<char>) -> bool {
    k == "section"@ || k == "excerpt"@ || k == "reason"@ || k == "tracking"@
}

/// What is wrong with one field of an entry, if anything.
pub open spec fn entry_field_error(f: (String, TomlValue)) -> Option<Seq<char>> {
    if !is_entry_key(f.0@) {
        Some("unknown field `"@ + f.0@ + "`, expected one of `section`, `excerpt`, `reason`, `tracking`"@)
    } else if !(f.1 is String) {
        Some("invalid type for `"@ + f.0@ + "`: expected a string"@)
    } else {
        None
    }
}

/// The first problem among an entry table's fields.
pub open spec fn entry_table_error(t: Seq<(String, TomlValue)>) -> Option<Seq<char>>
    decreases t.len(),
{
    if t.len() == 0 {
        None
    } else if entry_field_error(t[0]) is Some {
        entry_field_error(t[0])
    } else {
        entry_table_error(t.drop_first())
    }
}

/// The first problem among a list's items.
pub open spec fn list_error(key: Seq<char>, items: Seq<TomlValue>) -> Option<Seq<char>>
    decreases items.len(),
{
    if items.len() == 0 {
        None
    } else {
        match items[0] {
            TomlValue::Table(t) => if entry_table_error(t@) is Some {
                entry_table_error(t@)
            } else {
                list_error(key, items.drop_first())
            },
            _ => Some("invalid type for `"@ + key + "`: expected an array of tables"@),
        }
    }
}

/// Whether a key names one of the three lists.
pub open spec fn is_list_key(k: Seq<char>) -> bool {
    k == "non-normative"@ || k == "out-of-scope"@ || k == "planned"@
}

/// What is wrong with one top-level entry of a sidecar, if anything.
pub open spec fn top_field_error(f: (String, TomlValue)) -> Option<Seq<char>> {
    if f.0@ == "reviewed"@ {
        if f.1 is Boolean {
            None
        } else {
            Some("invalid type for `reviewed`: expected a boolean"@)
        }
    } else if is_list_key(f.0@) {
        match f.1 {
            TomlValue::Array(items) => list_error(f.0@, items@),
            _ => Some("invalid type for `"@ + f.0@ + "`: expected an array of tables"@),
        }
    } else {
        Some("unknown field `"@ + f.0@ + "`, expected one of `reviewed`, `non-normative`, `out-of-scope`, `planned`"@)
    }
}

/// The first schema problem of a sidecar's top-level table.
pub open spec fn schema_error(t: Seq<(String, TomlValue)>) -> Option<Seq<char>>
    decreases t.len(),
{
    if t.len() == 0 {
        None
    } else if top_field_error(t[0]) is Some {
        top_field_error(t[0])
    } else {
        schema_error(t.drop_first())
    }
}

/// The entry tables of one list (empty when the list is absent).
pub open spec fn list_tables(t: Seq<(String, TomlValue)>, k: SidecarKind) -> Seq<Seq<(String, TomlValue)>> {
    match field(t, list_name_of(k)) {
        Some(TomlValue::Array(items)) => items@.map_values(|v: TomlValue| match v {
            TomlValue::Table(f) => f@,
            _ => Seq::empty(),
        }),
        _ => Seq::empty(),
    }
}

/// Whether the optional text is absent or blank.
pub open spec fn blank(o: Option<Seq<char>>) -> bool {
    match o {
        Some(x) => trim_ws(x).len() == 0,
        None => true,
    }
}

/// What is wrong with one entry of a list, if anything.
pub open spec fn entry_problem(k: SidecarKind, f: Seq<(String, TomlValue)>) -> Option<Seq<char>> {
    if text_field(f, "section"@) is None && text_field(f, "excerpt"@) is None {
        Some("needs `section` or `excerpt`"@)
    } else if text_field(f, "excerpt"@) is Some && blank(text_field(f, "excerpt"@)) {
        Some("`excerpt` is empty"@)
    } else if k == SidecarKind::OutOfScope && blank(text_field(f, "reason"@)) {
        Some("`reason` is required on out-of-scope"@)
    } else if k == SidecarKind::Planned && blank(text_field(f, "tracking"@)) {
        Some("`tracking` is required on planned"@)
    } else {
        None
    }
}

/// The message for entry `n` (0-based) of a list: `[[list]] entry N: …`.
pub open spec fn entry_message(k: SidecarKind, n: int, problem: Seq<char>) -> Seq<char> {
    "[["@ + list_name_of(k) + "]] entry "@ + dec((n + 1) as nat) + ": "@ + problem
}

/// The first problem among the entries of one list, from entry `from` on.
pub open spec fn list_problem(k: SidecarKind, items: Seq<Seq<(String, TomlValue)>>, from: int) -> Option<Seq<char>>
    decreases items.len() - from,
{
    if from < 0 || from >= items.len() {
        None
    } else if entry_problem(k, items[from]) is Some {
        Some(entry_message(k, from, entry_problem(k, items[from])->0))
    } else {
        list_problem(k, items, from + 1)
    }
}

/// The first problem of a well-formed sidecar's entries, list by list.
pub open spec fn entries_problem(t: Seq<(String, TomlValue)>) -> Option<Seq<char>> {
    let a = list_problem(SidecarKind::NonNormative, list_tables(t, SidecarKind::NonNormative), 0);
    let b = list_problem(SidecarKind::OutOfScope, list_tables(t, SidecarKind::OutOfScope), 0);
    let c = list_problem(SidecarKind::Planned, list_tables(t, SidecarKind::Planned), 0);
    if a is Some {
        a
    } else if b is Some {
        b
    } else {
        c
    }
}

/// Why a parsed document is not a valid sidecar, if it is not.
pub open spec fn sidecar_problem(doc: Result<TomlValue, Seq<char>>) -> Option<Seq<char>> {
    match doc {
        Err(e) => Some(e),
        Ok(TomlValue::Table(t)) => if schema_error(t@) is Some {
            schema_error(t@)
        } else {
            entries_problem(t@)
        },
        Ok(_) => Some("expected a table"@),
    }
}

/// The top-level table of a parsed document.
pub open spec fn doc_table(doc: Result<TomlValue, Seq<char>>) -> Seq<(String, TomlValue)> {
    match doc {
        Ok(TomlValue::Table(t)) => t@,
        _ => Seq::empty(),
    }
}

/// Whether `e` is the entry an entry table of list `k` describes.
pub open spec fn entry_from(e: SidecarEntry, k: SidecarKind, f: Seq<(String, TomlValue)>) -> bool {
    &&& e.kind == k
    &&& opt_view(e.section) == (match text_field(f, "section"@) {
        Some(s) => Some(crate::coverage::resolve::trim_leading(s, '#')),
        None => None,
    })
    &&& opt_view(e.excerpt) == text_field(f, "excerpt"@)
    &&& opt_view(e.reason) == text_field(f, "reason"@)
    &&& (match (e.tracking, text_field(f, "tracking"@)) {
        (Some(tr), Some(raw)) => tr.raw@ == trim_ws(raw) && tr.url@ == tracking_url(raw),
        (None, None) => true,
        _ => false,
    })
}

/// The entry tables of all three lists, in order, each with its list.
pub open spec fn all_tables(t: Seq<(String, TomlValue)>) -> Seq<(SidecarKind, Seq<(String, TomlValue)>)> {
    list_tables(t, SidecarKind::NonNormative).map_values(|f: Seq<(String, TomlValue)>| (SidecarKind::NonNormative, f))
        + list_tables(t, SidecarKind::OutOfScope).map_values(|f: Seq<(String, TomlValue)>| (SidecarKind::OutOfScope, f))
        + list_tables(t, SidecarKind::Planned).map_values(|f: Seq<(String, TomlValue)>| (SidecarKind::Planned, f))
}

/// Whether `reviewed = true` stands in a table.
pub open spec fn reviewed_flag(t: Seq<(String, TomlValue)>) -> bool {
    field(t, "reviewed"@) == Some(TomlValue::Boolean(true))
}

/// The text of a parse result.
pub open spec fn doc_view(doc: Result<TomlValue, String>) -> Result<TomlValue, Seq<char>> {
    match doc {
        Ok(v) => Ok(v),
        Err(e) => Err(e@),
    }
}

/// Whether a sidecar is the one a valid document describes.
pub open spec fn sidecar_from(sc: Sidecar, t: Seq<(String, TomlValue)>, file: Seq<char>, spec_path: Seq<char>, scope: usize) -> bool {
    &&& sc.file@ == file
    &&& sc.spec_path@ == spec_path
    &&& sc.scope == scope
    &&& sc.reviewed == reviewed_flag(t)
    &&& sc.entries@.len() == all_tables(t).len()
    &&& forall|k: int| 0 <= k < sc.entries@.len() ==> entry_from(#[trigger] sc.entries@[k], all_tables(t)[k].0, all_tables(t)[k].1)
}

pub(crate) fn field_of<'a>(t: &'a Vec<(String, TomlValue)>, key: &str) -> (r: Option<&'a TomlValue>)
    ensures
        match r {
            Some(v) => field(t@, key@) == Some(*v),
            None => field(t@, key@) is None,
        },
{
    let mut i: usize = 0;
    assert(t@.skip(0) == t@);
    while i < t.len()
        invariant
            i <= t@.len(),
            field(t@, key@) == field(t@.skip(i as int), key@),
        decreases t.len() - i,
    {
        assert(t@.skip(i as int)[0] == t@[i as int]);
        if str_eq(t[i].0.as_str(), key) {
            return Some(&t[i].1);
        }
        assert(t@.skip(i as int).drop_first() == t@.skip(i + 1));
        i += 1;
    }
    None
}

pub(crate) fn text_field_of<'a>(t: &'a Vec<(String, TomlValue)>, key: &str) -> (r: Option<&'a String>)
    ensures
        match r {
            Some(v) => text_field(t@, key@) == Some(v@),
            None => text_field(t@, key@) is None,
        },
{
    match field_of(t, key) {
        Some(TomlValue::String(s)) => Some(s),
        _ => None,
    }
}

fn is_entry_key_exec(k: &str) -> (b: bool)
    ensures
        b == is_entry_key(k@),
{
    str_eq(k, "section") || str_eq(k, "excerpt") || str_eq(k, "reason") || str_eq(k, "tracking")
}

fn is_list_key_exec(k: &str) -> (b: bool)
    ensures
        b == is_list_key(k@),
{
    str_eq(k, "non-normative") || str_eq(k, "out-of-scope") || str_eq(k, "planned")
}

fn entry_table_check(t: &Vec<(String, TomlValue)>) -> (r: Option<String>)
    ensures
        opt_view(r) == entry_table_error(t@),
{
    let mut i: usize = 0;
    assert(t@.skip(0) == t@);
    while i < t.len()
        invariant
            i <= t@.len(),
            entry_table_error(t@) == entry_table_error(t@.skip(i as int)),
        decreases t.len() - i,
    {
        assert(t@.skip(i as int)[0] == t@[i as int]);
        let k = t[i].0.as_str();
        if !is_entry_key_exec(k) {
            let mut m = owned("unknown field `");
            push_str(&mut m, k);
            push_str(&mut m, "`, expected one of `section`, `excerpt`, `reason`, `tracking`");
            return Some(m);
        }
        match &t[i].1 {
            TomlValue::String(_) => {},
            _ => {
                let mut m = owned("invalid type for `");
                push_str(&mut m, k);
                push_str(&mut m, "`: expected a string");
                return Some(m);
            },
        }
        assert(t@.skip(i as int).drop_first() == t@.skip(i + 1));
        i += 1;
    }
    None
}

fn list_check(key: &str, items: &Vec<TomlValue>) -> (r: Option<String>)
    ensures
        opt_view(r) == list_error(key@, items@),
{
    let mut i: usize = 0;
    assert(items@.skip(0) == items@);
    while i < items.len()
        invariant
            i <= items@.len(),
            list_error(key@, items@) == list_error(key@, items@.skip(i as int)),
        decreases items.len() - i,
    {
        assert(items@.skip(i as int)[0] == items@[i as int]);
        match &items[i] {
            TomlValue::Table(t) => {
                let e = entry_table_check(t);
                if e.is_some() {
                    return e;
                }
            },
            _ => {
                let mut m = owned("invalid type for `");
                push_str(&mut m, key);
                push_str(&mut m, "`: expected an array of tables");
                return Some(m);
            },
        }
        assert(items@.skip(i as int).drop_first() == items@.skip(i + 1));
        i += 1;
    }
    None
}

fn schema_check(t: &Vec<(String, TomlValue)>) -> (r: Option<String>)
    ensures
        opt_view(r) == schema_error(t@),
{
    let mut i: usize = 0;
    assert(t@.skip(0) == t@);
    while i < t.len()
        invariant
            i <= t@.len(),
            schema_error(t@) == schema_error(t@.skip(i as int)),
        decreases t.len() - i,
    {
        assert(t@.skip(i as int)[0] == t@[i as int]);
        let k = t[i].0.as_str();
        if str_eq(k, "reviewed") {
            match &t[i].1 {
                TomlValue::Boolean(_) => {},
                _ => {
                    return Some(owned("invalid type for `reviewed`: expected a boolean"));
                },
            }
        } else if is_list_key_exec(k) {
            match &t[i].1 {
                TomlValue::Array(items) => {
                    let e = list_check(k, items);
                    if e.is_some() {
                        return e;
                    }
                },
                _ => {
                    let mut m = owned("invalid type for `");
                    push_str(&mut m, k);
                    push_str(&mut m, "`: expected an array of tables");
                    return Some(m);
                },
            }
        } else {
            let mut m = owned("unknown field `");
            push_str(&mut m, k);
            push_str(&mut m, "`, expected one of `reviewed`, `non-normative`, `out-of-scope`, `planned`");
            return Some(m);
        }
        assert(t@.skip(i as int).drop_first() == t@.skip(i + 1));
        i += 1;
    }
    None
}

fn is_blank(o: Option<&String>) -> (b: bool)
    ensures
        b == blank(match o {
            Some(x) => Some(x@),
            None => None,
        }),
{
    match o {
        Some(x) => {
            let c = chars_of(x.as_str());
            trim_chars(c.as_slice()).len() == 0
        },
        None => true,
    }
}

fn entry_problem_exec(k: SidecarKind, f: &Vec<(String, TomlValue)>) -> (r: Option<&'static str>)
    ensures
        opt_str(r) == entry_problem(k, f@),
{
    let section = text_field_of(f, "section");
    let excerpt = text_field_of(f, "excerpt");
    if section.is_none() && excerpt.is_none() {
        Some("needs `section` or `excerpt`")
    } else if excerpt.is_some() && is_blank(excerpt) {
        Some("`excerpt` is empty")
    } else if k == SidecarKind::OutOfScope && is_blank(text_field_of(f, "reason")) {
        Some("`reason` is required on out-of-scope")
    } else if k == SidecarKind::Planned && is_blank(text_field_of(f, "tracking")) {
        Some("`tracking` is required on planned")
    } else {
        None
    }
}

/// The entry an entry table of list `k` describes.
fn entry_of(k: SidecarKind, f: &Vec<(String, TomlValue)>) -> (e: SidecarEntry)
    ensures
        entry_from(e, k, f@),
{
    let section = match text_field_of(f, "section") {
        Some(s) => {
            let c = chars_of(s.as_str());
            let t = crate::coverage::resolve::trim_leading_chars(c.as_slice(), '#');
            Some(string_of(t.as_slice()))
        },
        None => None,
    };
    let excerpt = match text_field_of(f, "excerpt") {
        Some(x) => Some(owned(x.as_str())),
        None => None,
    };
    let reason = match text_field_of(f, "reason") {
        Some(x) => Some(owned(x.as_str())),
        None => None,
    };
    let tracking = match text_field_of(f, "tracking") {
        Some(x) => Some(Tracking::parse(x.as_str())),
        None => None,
    };
    SidecarEntry { kind: k, section, excerpt, reason, tracking }
}

/// The entry tables of a list value whose items are all tables.
fn tables_of(v: Option<&TomlValue>) -> (r: Vec<&Vec<(String, TomlValue)>>)
    requires
        match v {
            Some(TomlValue::Array(items)) => forall|i: int| 0 <= i < items@.len() ==> #[trigger] items@[i] is Table,
            _ => true,
        },
    ensures
        r@.len() == (match v {
            Some(TomlValue::Array(items)) => items@.len() as int,
            _ => 0,
        }),
        forall|i: int| 0 <= i < r@.len() ==> (#[trigger] r@[i])@ == (match v {
            Some(TomlValue::Array(items)) => match items@[i] {
                TomlValue::Table(f) => f@,
                _ => Seq::empty(),
            },
            _ => Seq::empty(),
        }),
{
    let mut out: Vec<&Vec<(String, TomlValue)>> = Vec::new();
    match v {
        Some(TomlValue::Array(items)) => {
            let mut i: usize = 0;
            while i < items.len()
                invariant
                    i <= items@.len(),
                    forall|m: int| 0 <= m < items@.len() ==> #[trigger] items@[m] is Table,
                    out@.len() == i,
                    forall|m: int| 0 <= m < i ==> (#[trigger] out@[m])@ == (match items@[m] {
                        TomlValue::Table(f) => f@,
                        _ => Seq::empty(),
                    }),
                decreases items.len() - i,
            {
                match &items[i] {
                    TomlValue::Table(f) => out.push(f),
                    _ => {
                        assert(items@[i as int] is Table);
                    },
                }
                i += 1;
            }
        },
        _ => {},
    }
    out
}

/// Without a list error every item of the list is a table.
proof fn lemma_list_error_none(key: Seq<char>, items: Seq<TomlValue>)
    requires
        list_error(key, items) is None,
    ensures
        forall|i: int| 0 <= i < items.len() ==> #[trigger] items[i] is Table,
    decreases items.len(),
{
    if items.len() > 0 {
        lemma_list_error_none(key, items.drop_first());
        assert forall|i: int| 0 <= i < items.len() implies #[trigger] items[i] is Table by {
            if i > 0 {
                assert(items[i] == items.drop_first()[i - 1]);
            }
        }
    }
}

/// In a table without schema errors, a list present is an array of
/// tables.
proof fn lemma_schema_list(t: Seq<(String, TomlValue)>, key: Seq<char>)
    requires
        schema_error(t) is None,
        is_list_key(key),
    ensures
        match field(t, key) {
            Some(TomlValue::Array(items)) => forall|i: int| 0 <= i < items@.len() ==> #[trigger] items@[i] is Table,
            Some(_) => false,
            None => true,
        },
    decreases t.len(),
{
    if t.len() > 0 {
        if t[0].0@ == key {
            reveal_strlit("reviewed");
            reveal_strlit("non-normative");
            reveal_strlit("out-of-scope");
            reveal_strlit("planned");
            assert(key != "reviewed"@) by {
                if key == "reviewed"@ {
                    assert(key.len() == "reviewed"@.len());
                }
            }
            match t[0].1 {
                TomlValue::Array(items) => {
                    lemma_list_error_none(key, items@);
                },
                _ => {},
            }
        } else {
            lemma_schema_list(t.drop_first(), key);
        }
    }
}

/// The views of a list of entry tables.
pub open spec fn table_views(v: Seq<&Vec<(String, TomlValue)>>) -> Seq<Seq<(String, TomlValue)>> {
    Seq::new(v.len(), |i: int| v[i]@)
}

/// The first problem among a list's entries, as a message.
fn check_list(k: SidecarKind, tables: &Vec<&Vec<(String, TomlValue)>>) -> (r: Option<String>)
    ensures
        opt_view(r) == list_problem(k, table_views(tables@), 0),
{
    let ghost tv = table_views(tables@);
    let mut i: usize = 0;
    while i < tables.len()
        invariant
            i <= tables@.len(),
            tv == table_views(tables@),
            list_problem(k, tv, 0) == list_problem(k, tv, i as int),
        decreases tables.len() - i,
    {
        match entry_problem_exec(k, tables[i]) {
            Some(problem) => {
                let mut m = owned("[[");
                push_str(&mut m, k.list_name());
                push_str(&mut m, "]] entry ");
                let mut digits: Vec<char> = Vec::new();
                crate::text::push_dec(&mut digits, i as u64 + 1);
                crate::text::push_chars(&mut m, digits.as_slice());
                push_str(&mut m, ": ");
                push_str(&mut m, problem);
                assert(tv[i as int] == tables@[i as int]@);
                assert(((i + 1) as nat) == (i as u64 + 1) as nat);
                return Some(m);
            },
            None => {
                assert(tv[i as int] == tables@[i as int]@);
            },
        }
        i += 1;
    }
    None
}

/// Appends the entries a list's tables describe.
fn push_entries(entries: &mut Vec<SidecarEntry>, k: SidecarKind, tables: &Vec<&Vec<(String, TomlValue)>>)
    ensures
        final(entries)@.len() == old(entries)@.len() + tables@.len(),
        forall|j: int| 0 <= j < old(entries)@.len() ==> #[trigger] final(entries)@[j] == old(entries)@[j],
        forall|j: int| 0 <= j < tables@.len() ==> entry_from(#[trigger] final(entries)@[old(entries)@.len() + j], k, tables@[j]@),
{
    let ghost e0 = entries@;
    let mut i: usize = 0;
    while i < tables.len()
        invariant
            i <= tables@.len(),
            entries@.len() == e0.len() + i,
            forall|j: int| 0 <= j < e0.len() ==> #[trigger] entries@[j] == e0[j],
            forall|j: int| 0 <= j < i ==> entry_from(#[trigger] entries@[e0.len() + j], k, tables@[j]@),
        decreases tables.len() - i,
    {
        let e = entry_of(k, tables[i]);
        entries.push(e);
        i += 1;
    }
}

impl Sidecar {
    /// Reads a sidecar from a parsed TOML document: the schema is checked
    /// first (unknown keys and wrong types are errors), then every entry
    /// list by list (`section` or `excerpt` needed, no blank excerpt,
    /// `reason` on out-of-scope, `tracking` on planned).
    pub fn from_toml(doc: Result<TomlValue, String>, file: &str, spec_path: &str, scope: usize) -> (r: Result<Sidecar, SidecarError>)
        ensures
            match r {
                Ok(sc) => sidecar_problem(doc_view(doc)) is None && sidecar_from(sc, doc_table(doc_view(doc)), file@, spec_path@, scope),
                Err(SidecarError::Invalid { file: f, message }) => f@ == file@ && sidecar_problem(doc_view(doc)) == Some(message@),
                Err(SidecarError::Io { .. }) => false,
            },
    {
        let t = match &doc {
            Err(e) => {
                return Err(SidecarError::Invalid { file: owned(file), message: owned(e.as_str()) });
            },
            Ok(TomlValue::Table(t)) => t,
            Ok(_) => {
                return Err(SidecarError::Invalid { file: owned(file), message: owned("expected a table") });
            },
        };
        match schema_check(t) {
            Some(m) => {
                return Err(SidecarError::Invalid { file: owned(file), message: m });
            },
            None => {},
        }
        proof {
            reveal_strlit("non-normative");
            reveal_strlit("out-of-scope");
            reveal_strlit("planned");
            lemma_schema_list(t@, "non-normative"@);
            lemma_schema_list(t@, "out-of-scope"@);
            lemma_schema_list(t@, "planned"@);
        }
        let nn = tables_of(field_of(t, "non-normative"));
        let oos = tables_of(field_of(t, "out-of-scope"));
        let pl = tables_of(field_of(t, "planned"));
        assert(table_views(nn@) =~= list_tables(t@, SidecarKind::NonNormative));
        assert(table_views(oos@) =~= list_tables(t@, SidecarKind::OutOfScope));
        assert(table_views(pl@) =~= list_tables(t@, SidecarKind::Planned));
        match check_list(SidecarKind::NonNormative, &nn) {
            Some(m) => {
                return Err(SidecarError::Invalid { file: owned(file), message: m });
            },
            None => {},
        }
        match check_list(SidecarKind::OutOfScope, &oos) {
            Some(m) => {
                return Err(SidecarError::Invalid { file: owned(file), message: m });
            },
            None => {},
        }
        match check_list(SidecarKind::Planned, &pl) {
            Some(m) => {
                return Err(SidecarError::Invalid { file: owned(file), message: m });
            },
            None => {},
        }
        let mut entries: Vec<SidecarEntry> = Vec::new();
        push_entries(&mut entries, SidecarKind::NonNormative, &nn);
        let ghost e1 = entries@;
        push_entries(&mut entries, SidecarKind::OutOfScope, &oos);
        let ghost e2 = entries@;
        push_entries(&mut entries, SidecarKind::Planned, &pl);
        let reviewed = match field_of(t, "reviewed") {
            Some(TomlValue::Boolean(b)) => *b,
            _ => false,
        };
        let ghost all = all_tables(t@);
        let ghost n1 = nn@.len();
        let ghost n2 = oos@.len();
        assert forall|k: int| 0 <= k < entries@.len() implies entry_from(#[trigger] entries@[k], all[k].0, all[k].1) by {
            if k < n1 {
                assert(all[k] == (SidecarKind::NonNormative, list_tables(t@, SidecarKind::NonNormative)[k]));
                assert(table_views(nn@)[k] == nn@[k]@);
                assert(entries@[k] == e2[k]);
                assert(e2[k] == e1[k]);
                assert(entry_from(e1[0 + k], SidecarKind::NonNormative, nn@[k]@));
            } else if k < n1 + n2 {
                assert(all[k] == (SidecarKind::OutOfScope, list_tables(t@, SidecarKind::OutOfScope)[k - n1]));
                assert(table_views(oos@)[k - n1] == oos@[k - n1]@);
                assert(entries@[k] == e2[k]);
                assert(entry_from(e2[n1 + (k - n1)], SidecarKind::OutOfScope, oos@[k - n1]@));
            } else {
                assert(all[k] == (SidecarKind::Planned, list_tables(t@, SidecarKind::Planned)[k - n1 - n2]));
                assert(table_views(pl@)[k - n1 - n2] == pl@[k - n1 - n2]@);
                assert(entries@[k] == entries@[(n1 + n2) + (k - n1 - n2)]);
            }
        }
        Ok(Sidecar { file: owned(file), spec_path: owned(spec_path), scope, reviewed, entries })
    }

    /// Parses one sidecar's TOML text: the document [`toml_document`]
    /// names, read by [`Sidecar::from_toml`].
    pub fn parse(text: &str, file: &str, spec_path: &str, scope: usize) -> (r: Result<Self, SidecarError>)
        ensures
            match r {
                Ok(sc) => sidecar_problem(toml_document(text@)) is None && sidecar_from(sc, doc_table(toml_document(text@)), file@, spec_path@, scope),
                Err(SidecarError::Invalid { file: f, message }) => f@ == file@ && sidecar_problem(toml_document(text@)) == Some(message@),
                Err(SidecarError::Io { .. }) => false,
            },
    {
        let doc = parse_toml(text);
        assert(doc_view(doc) == toml_document(text@));
        Self::from_toml(doc, file, spec_path, scope)
    }
}

} // verus!
