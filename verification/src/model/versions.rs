//! Component version ordering, following Antora's documented rules.
//!
//! Within one component, versions sort: versionless first, then named
//! versions (strings that don't parse as semver) in reverse alphabetical
//! order, then semantic versions in descending order (an optional leading
//! `v` is ignored).

use vstd::prelude::*;

use crate::text::{chars_of, is_alnum, is_digit, parse_decimal, parse_uint, slice_vec, split_chars, split_seq, string_of, views, lemma_split_nonempty, has_char};

verus! {

/// Lexicographic comparison of two texts by code point: negative, zero,
/// or positive (the order of `str::cmp`, since UTF-8 preserves code point
/// order).
pub open spec fn lex_sign(a: Seq<char>, b: Seq<char>) -> int
    decreases a.len(),
{
    if a.len() == 0 && b.len() == 0 {
        0
    } else if a.len() == 0 {
        -1
    } else if b.len() == 0 {
        1
    } else if (a[0] as u32) < (b[0] as u32) {
        -1
    } else if (a[0] as u32) > (b[0] as u32) {
        1
    } else {
        lex_sign(a.drop_first(), b.drop_first())
    }
}

/// Swapping the operands of `lex_sign` flips its sign.
pub proof fn lemma_lex_sign_antisym(a: Seq<char>, b: Seq<char>)
    ensures
        lex_sign(a, b) == -lex_sign(b, a),
        -1 <= lex_sign(a, b) <= 1,
    decreases a.len(),
{
    if a.len() > 0 && b.len() > 0 && (a[0] as u32) == (b[0] as u32) {
        lemma_lex_sign_antisym(a.drop_first(), b.drop_first());
    }
}

/// Compares two character slices by code point.
pub fn compare_chars(a: &[char], b: &[char]) -> (r: i8)
    ensures
        r as int == lex_sign(a@, b@),
{
    let mut i: usize = 0;
    assert(a@.skip(0) == a@ && b@.skip(0) == b@);
    while i < a.len() && i < b.len() && (a[i] as u32) == (b[i] as u32)
        invariant
            i <= a.len(),
            i <= b.len(),
            lex_sign(a@, b@) == lex_sign(a@.skip(i as int), b@.skip(i as int)),
        decreases a.len() - i,
    {
        assert(a@.skip(i as int).drop_first() == a@.skip(i + 1));
        assert(b@.skip(i as int).drop_first() == b@.skip(i + 1));
        i += 1;
    }
    if i == a.len() && i == b.len() {
        0
    } else if i == a.len() {
        -1
    } else if i == b.len() {
        1
    } else if (a[i] as u32) < (b[i] as u32) {
        -1
    } else {
        1
    }
}

/// A parsed `major.minor.patch` prefix plus any remainder.
pub struct SemverKey {
    pub parts: (u64, u64, u64),
    /// `true` for a bare release, which outranks any suffixed version with
    /// the same numbers.
    pub release: bool,
    pub suffix: Vec<char>,
}

/// The ghost form of a semver key.
pub struct SemverSpec {
    pub parts: (nat, nat, nat),
    pub release: bool,
    pub suffix: Seq<char>,
}

/// The first index holding `-` or `+`, or `-1`.
pub open spec fn first_suffix_mark(s: Seq<char>) -> int
    decreases s.len(),
{
    if s.len() == 0 {
        -1
    } else if s[0] == '-' || s[0] == '+' {
        0
    } else if first_suffix_mark(s.drop_first()) < 0 {
        -1
    } else {
        first_suffix_mark(s.drop_first()) + 1
    }
}

/// The number of piece `i`, or zero past the end.
pub open spec fn piece_num(nums: Seq<Option<nat>>, i: int) -> nat {
    if i < nums.len() {
        match nums[i] {
            Some(n) => n,
            None => 0,
        }
    } else {
        0
    }
}

/// The version without an optional leading `v`.
pub open spec fn semver_trimmed(version: Seq<char>) -> Seq<char> {
    if version.len() > 0 && version[0] == 'v' { version.drop_first() } else { version }
}

/// The dotted-number part: before the first `-` or `+`.
pub open spec fn semver_numbers(version: Seq<char>) -> Seq<char> {
    let t = semver_trimmed(version);
    if first_suffix_mark(t) < 0 { t } else { t.take(first_suffix_mark(t)) }
}

/// The suffix: from the first `-` or `+` on.
pub open spec fn semver_suffix(version: Seq<char>) -> Seq<char> {
    let t = semver_trimmed(version);
    if first_suffix_mark(t) < 0 { Seq::empty() } else { t.skip(first_suffix_mark(t)) }
}

/// The parse of each dotted piece as a `u64`.
pub open spec fn semver_nums(version: Seq<char>) -> Seq<Option<nat>> {
    let pieces = split_seq(semver_numbers(version), '.');
    Seq::new(pieces.len(), |i: int| parse_uint(pieces[i], 0xffff_ffff_ffff_ffff))
}

/// What `parse_semver` makes of a version: up to three dot-separated
/// `u64` numbers (missing ones zero) before the first `-` or `+`, after an
/// optional leading `v`.
pub open spec fn semver_of(version: Seq<char>) -> Option<SemverSpec> {
    let nums = semver_nums(version);
    if nums.len() > 3 || exists|i: int| 0 <= i < nums.len() && #[trigger] nums[i] is None {
        None
    } else {
        Some(
            SemverSpec {
                parts: (piece_num(nums, 0), piece_num(nums, 1), piece_num(nums, 2)),
                release: semver_suffix(version).len() == 0,
                suffix: semver_suffix(version),
            },
        )
    }
}

/// The order of semver keys: numbers, then release, then suffix.
pub open spec fn key_sign(a: SemverSpec, b: SemverSpec) -> int {
    if a.parts.0 != b.parts.0 {
        if a.parts.0 < b.parts.0 { -1 } else { 1 }
    } else if a.parts.1 != b.parts.1 {
        if a.parts.1 < b.parts.1 { -1 } else { 1 }
    } else if a.parts.2 != b.parts.2 {
        if a.parts.2 < b.parts.2 { -1 } else { 1 }
    } else if a.release != b.release {
        if !a.release { -1 } else { 1 }
    } else {
        lex_sign(a.suffix, b.suffix)
    }
}

/// The display order of two version coordinates (highest first): negative
/// when `a` comes first. `None` is the versionless coordinate.
pub open spec fn version_rank(a: Option<Seq<char>>, b: Option<Seq<char>>) -> int {
    match (a, b) {
        (None, None) => 0,
        (None, Some(_)) => -1,
        (Some(_), None) => 1,
        (Some(x), Some(y)) => match (semver_of(x), semver_of(y)) {
            (None, Some(_)) => -1,
            (Some(_), None) => 1,
            (None, None) => lex_sign(y, x),
            (Some(sx), Some(sy)) => key_sign(sy, sx),
        },
    }
}

/// The text of an optional string slice.
pub open spec fn opt_str(o: Option<&str>) -> Option<Seq<char>> {
    match o {
        Some(s) => Some(s@),
        None => None,
    }
}

impl SemverKey {
    pub open spec fn key(&self) -> SemverSpec {
        SemverSpec {
            parts: (self.parts.0 as nat, self.parts.1 as nat, self.parts.2 as nat),
            release: self.release,
            suffix: self.suffix@,
        }
    }
}

fn suffix_mark(s: &[char]) -> (r: Option<usize>)
    ensures
        match r {
            Some(i) => i as int == first_suffix_mark(s@) && i < s.len(),
            None => first_suffix_mark(s@) < 0,
        },
{
    let mut i: usize = 0;
    assert(s@.skip(0) == s@);
    while i < s.len()
        invariant
            i <= s.len(),
            first_suffix_mark(s@) == if first_suffix_mark(s@.skip(i as int)) < 0 {
                -1
            } else {
                first_suffix_mark(s@.skip(i as int)) + i
            },
        decreases s.len() - i,
    {
        assert(s@.skip(i as int).drop_first() == s@.skip(i + 1));
        if s[i] == '-' || s[i] == '+' {
            return Some(i);
        }
        i += 1;
    }
    None
}

fn parse_semver(version: &[char]) -> (r: Option<SemverKey>)
    ensures
        match r {
            Some(k) => semver_of(version@) == Some(k.key()),
            None => semver_of(version@) is None,
        },
{
    let trimmed = if version.len() > 0 && version[0] == 'v' {
        slice_vec(version, 1, version.len())
    } else {
        slice_vec(version, 0, version.len())
    };
    assert(version@.subrange(0, version@.len() as int) == version@);
    let (numbers, suffix) = match suffix_mark(trimmed.as_slice()) {
        Some(at) => (slice_vec(trimmed.as_slice(), 0, at), slice_vec(trimmed.as_slice(), at, trimmed.len())),
        None => (slice_vec(trimmed.as_slice(), 0, trimmed.len()), Vec::new()),
    };
    assert(trimmed@.subrange(0, trimmed@.len() as int) == trimmed@);
    let ghost tr = if version@.len() > 0 && version@[0] == 'v' { version@.drop_first() } else { version@ };
    assert(trimmed@ == tr);
    let ghost at = first_suffix_mark(tr);
    assert(numbers@ == (if at < 0 { tr } else { tr.take(at) }));
    assert(suffix@ == (if at < 0 { Seq::<char>::empty() } else { tr.skip(at) }));
    let pieces = split_chars(numbers.as_slice(), '.');
    let ghost ps = split_seq(numbers@, '.');
    let ghost nums = Seq::new(ps.len(), |i: int| parse_uint(ps[i], 0xffff_ffff_ffff_ffff));
    proof {
        lemma_split_nonempty(numbers@, '.');
    }
    if pieces.len() > 3 {
        return None;
    }
    assert forall|j: int| 0 <= j < nums.len() && nums[j] is None implies semver_of(version@) is None by {
        assert(semver_nums(version@) == nums);
        assert(semver_nums(version@)[j] is None);
    }
    let mut parts: [u64; 3] = [0, 0, 0];
    let mut seen: usize = 0;
    while seen < pieces.len()
        invariant
            pieces.len() <= 3,
            seen <= pieces.len(),
            views(pieces@) == ps,
            ps.len() == nums.len(),
            nums == Seq::new(ps.len(), |i: int| parse_uint(ps[i], 0xffff_ffff_ffff_ffff)),
            forall|j: int| 0 <= j < seen ==> nums[j] == Some(parts@[j] as nat),
            forall|j: int| seen <= j < 3 ==> parts@[j] == 0,
            forall|j: int| 0 <= j < nums.len() && nums[j] is None ==> semver_of(version@) is None,
        decreases pieces.len() - seen,
    {
        match parse_decimal(pieces[seen].as_slice(), 0xffff_ffff_ffff_ffff) {
            Some(n) => {
                parts[seen] = n;
            },
            None => {
                assert(nums[seen as int] is None);
                return None;
            },
        }
        seen += 1;
    }
    let key = SemverKey {
        parts: (parts[0], parts[1], parts[2]),
        release: suffix.len() == 0,
        suffix,
    };
    proof {
        assert(semver_nums(version@) == nums);
        assert(semver_suffix(version@) == suffix@);
        assert(piece_num(nums, 0) == parts@[0]);
        assert(piece_num(nums, 1) == parts@[1]);
        assert(piece_num(nums, 2) == parts@[2]);
    }
    Some(key)
}

fn compare_keys(a: &SemverKey, b: &SemverKey) -> (r: i8)
    ensures
        r as int == key_sign(a.key(), b.key()),
{
    if a.parts.0 != b.parts.0 {
        if a.parts.0 < b.parts.0 { -1 } else { 1 }
    } else if a.parts.1 != b.parts.1 {
        if a.parts.1 < b.parts.1 { -1 } else { 1 }
    } else if a.parts.2 != b.parts.2 {
        if a.parts.2 < b.parts.2 { -1 } else { 1 }
    } else if a.release != b.release {
        if !a.release { -1 } else { 1 }
    } else {
        compare_chars(a.suffix.as_slice(), b.suffix.as_slice())
    }
}

fn version_sign(a: Option<&str>, b: Option<&str>) -> (r: i8)
    ensures
        r as int == version_rank(opt_str(a), opt_str(b)),
{
    match (a, b) {
        (None, None) => 0,
        (None, Some(_)) => -1,
        (Some(_), None) => 1,
        (Some(x), Some(y)) => {
            let xc = chars_of(x);
            let yc = chars_of(y);
            match (parse_semver(xc.as_slice()), parse_semver(yc.as_slice())) {
                (None, Some(_)) => -1,
                (Some(_), None) => 1,
                (None, None) => compare_chars(yc.as_slice(), xc.as_slice()),
                (Some(sx), Some(sy)) => compare_keys(&sy, &sx),
            }
        },
    }
}

/// Whether version `a` comes strictly before version `b` in display order.
pub fn version_before(a: Option<&str>, b: Option<&str>) -> (r: bool)
    ensures
        r == (version_rank(opt_str(a), opt_str(b)) < 0),
{
    version_sign(a, b) < 0
}

/// Compares two version coordinates in display order (highest first).
///
/// `None` is the versionless coordinate and sorts before everything.
pub fn version_order(a: Option<&str>, b: Option<&str>) -> (r: std::cmp::Ordering)
    ensures
        (r == std::cmp::Ordering::Less) == (version_rank(opt_str(a), opt_str(b)) < 0),
        (r == std::cmp::Ordering::Equal) == (version_rank(opt_str(a), opt_str(b)) == 0),
        (r == std::cmp::Ordering::Greater) == (version_rank(opt_str(a), opt_str(b)) > 0),
{
    let s = version_sign(a, b);
    if s < 0 {
        std::cmp::Ordering::Less
    } else if s == 0 {
        std::cmp::Ordering::Equal
    } else {
        std::cmp::Ordering::Greater
    }
}

/// Swapping two versions reverses their order: the display order is
/// antisymmetric, so sorting by it is well defined.
pub proof fn law_version_order_antisymmetric(a: Option<Seq<char>>, b: Option<Seq<char>>)
    ensures
        version_rank(a, b) == -version_rank(b, a),
{
    match (a, b) {
        (Some(x), Some(y)) => {
            lemma_lex_sign_antisym(x, y);
            match (semver_of(x), semver_of(y)) {
                (Some(sx), Some(sy)) => {
                    lemma_lex_sign_antisym(sx.suffix, sy.suffix);
                },
                _ => {},
            }
        },
        _ => {},
    }
}

/// Whether a text looks like a version after a `v`: a leading digit, a
/// dot somewhere, and only letters, digits, `.`, `-`, `+`.
pub open spec fn looks_semver(c: Seq<char>) -> bool {
    c.len() > 0 && is_digit(c[0]) && c.contains('.') && forall|i: int|
        0 <= i < c.len() ==> (is_alnum(#[trigger] c[i]) || c[i] == '.' || c[i] == '-' || c[i] == '+')
}

/// The last index of `c` in `s`, or `-1`.
pub open spec fn last_index(s: Seq<char>, c: char) -> int
    decreases s.len(),
{
    if s.len() == 0 {
        -1
    } else if s.last() == c {
        s.len() - 1
    } else {
        last_index(s.drop_last(), c)
    }
}

/// `s` with every `/` replaced by `-`.
pub open spec fn slash_to_dash(s: Seq<char>) -> Seq<char> {
    Seq::new(s.len(), |i: int| if s[i] == '/' { '-' } else { s[i] })
}

/// What `version_from_refname` returns.
pub open spec fn refname_version(refname: Seq<char>) -> Seq<char> {
    let at = last_index(refname, 'v');
    if at >= 0 && looks_semver(refname.skip(at + 1)) {
        refname.skip(at + 1)
    } else {
        slash_to_dash(refname)
    }
}

fn last_index_of(s: &[char], c: char) -> (r: Option<usize>)
    ensures
        match r {
            Some(i) => i as int == last_index(s@, c) && i < s.len(),
            None => last_index(s@, c) == -1,
        },
{
    let mut i = s.len();
    assert(s@.take(s.len() as int) == s@);
    while i > 0
        invariant
            i <= s.len(),
            last_index(s@, c) == last_index(s@.take(i as int), c),
        decreases i,
    {
        assert(s@.take(i as int).drop_last() == s@.take(i - 1));
        if s[i - 1] == c {
            return Some(i - 1);
        }
        i -= 1;
    }
    None
}

fn looks_semver_exec(c: &[char]) -> (b: bool)
    ensures
        b == looks_semver(c@),
{
    if c.len() == 0 || !('0' <= c[0] && c[0] <= '9') || !has_char(c, '.') {
        return false;
    }
    let mut i: usize = 0;
    while i < c.len()
        invariant
            i <= c.len(),
            forall|j: int|
                0 <= j < i ==> (is_alnum(#[trigger] c@[j]) || c@[j] == '.' || c@[j] == '-' || c@[j] == '+'),
        decreases c.len() - i,
    {
        let x = c[i];
        if !(('0' <= x && x <= '9') || ('a' <= x && x <= 'z') || ('A' <= x && x <= 'Z') || x == '.' || x
            == '-' || x == '+') {
            return false;
        }
        i += 1;
    }
    true
}

/// Derives a version coordinate from a git ref name: a trailing version
/// run introduced by the last `v` is extracted (`asciidoc-html5-v0.2.1`
/// → `0.2.1`); any other ref name is used as-is, with `/` turned into `-`.
pub fn version_from_refname(refname: &str) -> (r: String)
    ensures
        r@ == refname_version(refname@),
{
    let s = chars_of(refname);
    match last_index_of(s.as_slice(), 'v') {
        Some(at) => {
            let candidate = slice_vec(s.as_slice(), at + 1, s.len());
            if looks_semver_exec(candidate.as_slice()) {
                return string_of(candidate.as_slice());
            }
        },
        None => {},
    }
    let mut out: Vec<char> = Vec::new();
    let mut i: usize = 0;
    while i < s.len()
        invariant
            i <= s.len(),
            out@ == slash_to_dash(s@.take(i as int)),
        decreases s.len() - i,
    {
        out.push(if s[i] == '/' { '-' } else { s[i] });
        i += 1;
        assert(out@ =~= slash_to_dash(s@.take(i as int)));
    }
    assert(s@.take(s.len() as int) == s@);
    string_of(out.as_slice())
}

} // verus!

verus! {

/// Characters with the same code point are the same character.
proof fn lemma_char_code_point(x: char, y: char)
    requires
        (x as u32) == (y as u32),
    ensures
        x == y,
{
    assert((x as int) == (y as int));
}

/// `lex_sign` is zero only for equal texts.
pub proof fn lemma_lex_sign_zero(a: Seq<char>, b: Seq<char>)
    requires
        lex_sign(a, b) == 0,
    ensures
        a == b,
    decreases a.len(),
{
    if a.len() > 0 && b.len() > 0 {
        assert((a[0] as u32) == (b[0] as u32));
        lemma_char_code_point(a[0], b[0]);
        lemma_lex_sign_zero(a.drop_first(), b.drop_first());
        assert(a == seq![a[0]] + a.drop_first());
        assert(b == seq![b[0]] + b.drop_first());
    } else {
        assert(a.len() == 0 && b.len() == 0);
        assert(a =~= b);
    }
}

/// `lex_sign` is transitive.
pub proof fn lemma_lex_sign_trans(a: Seq<char>, b: Seq<char>, c: Seq<char>)
    requires
        lex_sign(a, b) <= 0,
        lex_sign(b, c) <= 0,
    ensures
        lex_sign(a, c) <= 0,
    decreases a.len(),
{
    lemma_lex_sign_antisym(a, b);
    lemma_lex_sign_antisym(b, c);
    lemma_lex_sign_antisym(a, c);
    if a.len() > 0 && b.len() > 0 && c.len() > 0 {
        if (a[0] as u32) == (b[0] as u32) && (b[0] as u32) == (c[0] as u32) {
            lemma_lex_sign_trans(a.drop_first(), b.drop_first(), c.drop_first());
        }
    }
}

/// Equal texts compare equal.
pub proof fn lemma_lex_sign_refl(a: Seq<char>)
    ensures
        lex_sign(a, a) == 0,
    decreases a.len(),
{
    if a.len() > 0 {
        lemma_lex_sign_refl(a.drop_first());
    }
}

/// The version display order is transitive: with antisymmetry, sorting
/// by it yields one consistent order.
pub proof fn law_version_order_transitive(a: Option<Seq<char>>, b: Option<Seq<char>>, c: Option<Seq<char>>)
    requires
        version_rank(a, b) <= 0,
        version_rank(b, c) <= 0,
    ensures
        version_rank(a, c) <= 0,
{
    law_version_order_antisymmetric(a, b);
    law_version_order_antisymmetric(b, c);
    law_version_order_antisymmetric(a, c);
    match (a, b, c) {
        (Some(x), Some(y), Some(z)) => {
            match (semver_of(x), semver_of(y), semver_of(z)) {
                (None, None, None) => {
                    lemma_lex_sign_trans(z, y, x);
                },
                (Some(sx), Some(sy), Some(sz)) => {
                    if sx.parts == sy.parts && sy.parts == sz.parts && sx.release == sy.release
                        && sy.release == sz.release {
                        lemma_lex_sign_trans(sz.suffix, sy.suffix, sx.suffix);
                    }
                },
                _ => {},
            }
        },
        _ => {},
    }
}

/// Every version ranks equal to itself.
pub proof fn law_version_order_reflexive(a: Option<Seq<char>>)
    ensures
        version_rank(a, a) == 0,
{
    match a {
        Some(x) => {
            lemma_lex_sign_refl(x);
            match semver_of(x) {
                Some(sx) => lemma_lex_sign_refl(sx.suffix),
                None => {},
            }
        },
        None => {},
    }
}

} // verus!

verus! {

/// Number `k` (major, minor, patch) of a version triple.
pub open spec fn triple_at(t: (nat, nat, nat), k: int) -> nat {
    if k == 0 {
        t.0
    } else if k == 1 {
        t.1
    } else {
        t.2
    }
}

/// Whether triple `x` is higher than `y`: at the first number where they
/// differ, `x`'s is larger.
pub open spec fn triple_higher(x: (nat, nat, nat), y: (nat, nat, nat)) -> bool {
    exists|k: int| 0 <= k < 3 && triple_at(x, k) > triple_at(y, k) && forall|j: int| 0 <= j < k ==> triple_at(x, j) == #[trigger] triple_at(y, j)
}

/// Semantic versions are shown highest first, every number counting: of
/// two semantic versions whose `major.minor.patch` differ, the one with the
/// higher numbers comes first in display order.
pub proof fn law_semver_descending(a: Seq<char>, b: Seq<char>)
    requires
        semver_of(a) is Some,
        semver_of(b) is Some,
        semver_of(a)->0.parts != semver_of(b)->0.parts,
    ensures
        (version_rank(Some(a), Some(b)) < 0) == triple_higher(semver_of(a)->0.parts, semver_of(b)->0.parts),
        (version_rank(Some(a), Some(b)) > 0) == triple_higher(semver_of(b)->0.parts, semver_of(a)->0.parts),
{
    let x = semver_of(a)->0.parts;
    let y = semver_of(b)->0.parts;
    assert(triple_at(x, 0) == x.0 && triple_at(x, 1) == x.1 && triple_at(x, 2) == x.2);
    assert(triple_at(y, 0) == y.0 && triple_at(y, 1) == y.1 && triple_at(y, 2) == y.2);
    if x.0 != y.0 {
        assert(forall|j: int| 0 <= j < 0 ==> triple_at(x, j) == #[trigger] triple_at(y, j));
        if x.0 > y.0 {
            assert(triple_higher(x, y));
            assert(!triple_higher(y, x));
        } else {
            assert(triple_higher(y, x));
            assert(!triple_higher(x, y));
        }
    } else if x.1 != y.1 {
        assert(forall|j: int| 0 <= j < 1 ==> triple_at(x, j) == #[trigger] triple_at(y, j));
        if x.1 > y.1 {
            assert(triple_higher(x, y));
            assert(!triple_higher(y, x)) by {
                if triple_higher(y, x) {
                    let k = choose|k: int| 0 <= k < 3 && triple_at(y, k) > triple_at(x, k) && forall|j: int| 0 <= j < k ==> triple_at(y, j) == #[trigger] triple_at(x, j);
                    assert(triple_at(y, 1) == triple_at(x, 1) || k <= 1);
                }
            }
        } else {
            assert(triple_higher(y, x));
            assert(!triple_higher(x, y)) by {
                if triple_higher(x, y) {
                    let k = choose|k: int| 0 <= k < 3 && triple_at(x, k) > triple_at(y, k) && forall|j: int| 0 <= j < k ==> triple_at(x, j) == #[trigger] triple_at(y, j);
                    assert(triple_at(x, 1) == triple_at(y, 1) || k <= 1);
                }
            }
        }
    } else {
        assert(x.2 != y.2);
        assert(forall|j: int| 0 <= j < 2 ==> triple_at(x, j) == #[trigger] triple_at(y, j));
        if x.2 > y.2 {
            assert(triple_higher(x, y));
            assert(!triple_higher(y, x)) by {
                if triple_higher(y, x) {
                    let k = choose|k: int| 0 <= k < 3 && triple_at(y, k) > triple_at(x, k) && forall|j: int| 0 <= j < k ==> triple_at(y, j) == #[trigger] triple_at(x, j);
                    assert(k == 2 ==> triple_at(y, 2) > triple_at(x, 2));
                }
            }
        } else {
            assert(triple_higher(y, x));
            assert(!triple_higher(x, y)) by {
                if triple_higher(x, y) {
                    let k = choose|k: int| 0 <= k < 3 && triple_at(x, k) > triple_at(y, k) && forall|j: int| 0 <= j < k ==> triple_at(x, j) == #[trigger] triple_at(y, j);
                    assert(k == 2 ==> triple_at(x, 2) > triple_at(y, 2));
                }
            }
        }
    }
}

} // verus!

verus! {

/// The display order's classes: the versionless coordinate first, then
/// named versions (not semantic) in reverse alphabetical order, then
/// semantic versions; of two semantic versions with the same numbers, the
/// bare release before one with a suffix.
pub proof fn law_version_classes(a: Seq<char>, b: Seq<char>)
    ensures
        version_rank(None, Some(b)) < 0,
        semver_of(a) is None && semver_of(b) is Some ==> version_rank(Some(a), Some(b)) < 0,
        semver_of(a) is None && semver_of(b) is None ==> ((version_rank(Some(a), Some(b)) < 0) == (lex_sign(a, b) > 0)),
        semver_of(a) is Some && semver_of(b) is Some && semver_of(a)->0.parts == semver_of(b)->0.parts && semver_of(a)->0.release
            && !semver_of(b)->0.release ==> version_rank(Some(a), Some(b)) < 0,
{
    lemma_lex_sign_antisym(a, b);
}

} // verus!
