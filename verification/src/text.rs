//! Character-level text primitives shared by every module.

use vstd::prelude::*;

verus! {

broadcast use vstd::string::group_string_axioms;

/// Unicode `White_Space`, the set `char::is_whitespace` tests.
pub open spec fn is_ws(c: char) -> bool {
    let n = c as u32;
    (0x09 <= n && n <= 0x0D) || n == 0x20 || n == 0x85 || n == 0xA0 || n == 0x1680
        || (0x2000 <= n && n <= 0x200A) || n == 0x2028 || n == 0x2029 || n == 0x202F
        || n == 0x205F || n == 0x3000
}

/// Whether `c` is Unicode whitespace.
pub fn is_whitespace(c: char) -> (b: bool)
    ensures
        b == is_ws(c),
{
    let n = c as u32;
    (0x09 <= n && n <= 0x0D) || n == 0x20 || n == 0x85 || n == 0xA0 || n == 0x1680
        || (0x2000 <= n && n <= 0x200A) || n == 0x2028 || n == 0x2029 || n == 0x202F
        || n == 0x205F || n == 0x3000
}

/// The characters of a string slice, in order.
pub fn chars_of(s: &str) -> (v: Vec<char>)
    ensures
        v@ == s@,
{
    let mut v: Vec<char> = Vec::new();
    for c in it: s.chars()
        invariant
            v@ == it.seq().take(it.index() as int),
    {
        v.push(c);
    }
    v
}

/// `String::push`: appends one character. Claimed: the text afterwards is
/// the text before with `c` at its end.
#[verifier::external_body]
pub(crate) fn push_char(s: &mut String, c: char)
    ensures
        final(s)@ == old(s)@.push(c),
{
    s.push(c);
}

/// A `String` holding exactly the given characters.
pub fn string_of(v: &[char]) -> (s: String)
    ensures
        s@ == v@,
{
    let mut s = String::new();
    let mut i: usize = 0;
    while i < v.len()
        invariant
            i <= v.len(),
            s@ == v@.take(i as int),
        decreases v.len() - i,
    {
        push_char(&mut s, v[i]);
        i += 1;
        assert(v@.take(i as int) == v@.take((i - 1) as int).push(v@[i - 1]));
    }
    assert(v@.take(v.len() as int) == v@);
    s
}

/// Appends a string slice to a `String`.
pub fn push_str(s: &mut String, t: &str)
    ensures
        final(s)@ == old(s)@ + t@,
{
    s.append(t);
}

/// Appends characters to a `String`.
pub fn push_chars(s: &mut String, t: &[char])
    ensures
        final(s)@ == old(s)@ + t@,
{
    let ghost s0 = s@;
    let mut i: usize = 0;
    while i < t.len()
        invariant
            i <= t.len(),
            s@ == s0 + t@.take(i as int),
        decreases t.len() - i,
    {
        push_char(s, t[i]);
        i += 1;
        assert(t@.take(i as int) == t@.take((i - 1) as int).push(t@[i - 1]));
    }
    assert(t@.take(t.len() as int) == t@);
}

/// Collapsing whitespace, read left to right: every non-whitespace
/// character is kept, and one space separates it from earlier output when
/// whitespace came between (`gap`).
pub open spec fn ws_fold(s: Seq<char>, out: Seq<char>, gap: bool) -> Seq<char>
    decreases s.len(),
{
    if s.len() == 0 {
        out
    } else if is_ws(s[0]) {
        ws_fold(s.drop_first(), out, true)
    } else {
        let out2 = if gap && out.len() > 0 { out.push(' ') } else { out };
        ws_fold(s.drop_first(), out2.push(s[0]), false)
    }
}

/// `s` with every whitespace run collapsed to one space and the ends
/// trimmed.
pub open spec fn norm_ws(s: Seq<char>) -> Seq<char> {
    ws_fold(s, Seq::empty(), false)
}

/// Text whose only whitespace is single spaces between non-whitespace
/// characters.
pub open spec fn tidy(c: Seq<char>) -> bool {
    forall|i: int|
        0 <= i < c.len() && #[trigger] is_ws(c[i]) ==> c[i] == ' ' && 0 < i && i + 1 < c.len() && !is_ws(c[i - 1])
            && !is_ws(c[i + 1])
}

/// Collapsing keeps tidy output tidy.
proof fn lemma_fold_tidy_out(s: Seq<char>, out: Seq<char>, gap: bool)
    requires
        tidy(out),
        out.len() == 0 || !is_ws(out.last()),
    ensures
        tidy(ws_fold(s, out, gap)),
        ws_fold(s, out, gap).len() == 0 || !is_ws(ws_fold(s, out, gap).last()),
    decreases s.len(),
{
    if s.len() > 0 {
        if is_ws(s[0]) {
            lemma_fold_tidy_out(s.drop_first(), out, true);
        } else {
            let out2 = if gap && out.len() > 0 { out.push(' ') } else { out };
            let out3 = out2.push(s[0]);
            assert forall|i: int| 0 <= i < out3.len() && #[trigger] is_ws(out3[i]) implies out3[i] == ' ' && 0 < i && i + 1
                < out3.len() && !is_ws(out3[i - 1]) && !is_ws(out3[i + 1]) by {
                if i < out.len() {
                    assert(out3[i] == out[i]);
                    assert(out3[i - 1] == out[i - 1]);
                    assert(out3[i + 1] == out[i + 1]);
                }
            }
            lemma_fold_tidy_out(s.drop_first(), out3, false);
        }
    }
}

/// Collapsing tidy text from a point where no gap is pending copies it.
proof fn lemma_fold_copies_tidy(c: Seq<char>, k: int, out: Seq<char>)
    requires
        tidy(c),
        0 <= k <= c.len(),
        k < c.len() && is_ws(c[k]) ==> out.len() > 0,
    ensures
        ws_fold(c.skip(k), out, false) == out + c.skip(k),
    decreases c.len() - k,
{
    if k < c.len() {
        let t = c.skip(k);
        if !is_ws(c[k]) {
            assert(t.drop_first() == c.skip(k + 1));
            assert(t[0] == c[k]);
            assert(ws_fold(t, out, false) == ws_fold(c.skip(k + 1), out.push(c[k]), false));
            lemma_fold_copies_tidy(c, k + 1, out.push(c[k]));
            assert(out.push(c[k]) + c.skip(k + 1) =~= out + t);
        } else {
            assert(t.drop_first() == c.skip(k + 1));
            assert(c.skip(k + 1).drop_first() == c.skip(k + 2));
            assert(c.skip(k + 1)[0] == c[k + 1]);
            assert(t[0] == c[k]);
            assert(ws_fold(t, out, false) == ws_fold(c.skip(k + 1), out, true));
            assert(ws_fold(c.skip(k + 1), out, true) == ws_fold(c.skip(k + 2), out.push(' ').push(c[k + 1]), false));
            lemma_fold_copies_tidy(c, k + 2, out.push(' ').push(c[k + 1]));
            assert(out.push(' ').push(c[k + 1]) + c.skip(k + 2) =~= out + t);
        }
    } else {
        assert(c.skip(k) =~= Seq::<char>::empty());
    }
}

/// Normalizing twice is normalizing once: normalized text is a fixed
/// point, so matching normalized excerpts against normalized blocks is
/// stable.
pub proof fn law_normalize_idempotent(s: Seq<char>)
    ensures
        norm_ws(norm_ws(s)) == norm_ws(s),
{
    let c = norm_ws(s);
    lemma_fold_tidy_out(s, Seq::empty(), false);
    lemma_fold_copies_tidy(c, 0, Seq::empty());
    assert(c.skip(0) == c);
    assert(Seq::<char>::empty() + c == c);
}

/// Appends `s` to `out` the way [`ws_fold`] reads it.
pub fn collapse_into(out: &mut Vec<char>, s: &[char], gap0: bool)
    ensures
        final(out)@ == ws_fold(s@, old(out)@, gap0),
{
    let mut gap = gap0;
    let mut i: usize = 0;
    assert(s@.skip(0) == s@);
    while i < s.len()
        invariant
            i <= s.len(),
            ws_fold(s@, old(out)@, gap0) == ws_fold(s@.skip(i as int), out@, gap),
        decreases s.len() - i,
    {
        assert(s@.skip(i as int).drop_first() == s@.skip(i + 1));
        let c = s[i];
        if is_whitespace(c) {
            gap = true;
        } else {
            if gap && out.len() > 0 {
                out.push(' ');
            }
            out.push(c);
            gap = false;
        }
        i += 1;
    }
    assert(s@.skip(i as int).len() == 0);
}

/// Collapses every run of whitespace to one space and trims the ends.
pub fn normalize_chars(s: &[char]) -> (r: Vec<char>)
    ensures
        r@ == norm_ws(s@),
{
    let mut out: Vec<char> = Vec::new();
    collapse_into(&mut out, s, false);
    out
}

/// Whether `needle` occurs in `hay` at index `i`.
pub open spec fn occurs_at(hay: Seq<char>, needle: Seq<char>, i: int) -> bool {
    0 <= i && i + needle.len() <= hay.len() && hay.subrange(i, i + needle.len()) == needle
}

/// Whether `needle` is a contiguous part of `hay`.
pub open spec fn is_infix(needle: Seq<char>, hay: Seq<char>) -> bool {
    exists|i: int| occurs_at(hay, needle, i)
}

/// Whether `needle` occurs in `hay` at `i`, compared character by character.
pub fn matches_at(hay: &[char], needle: &[char], i: usize) -> (b: bool)
    ensures
        b == occurs_at(hay@, needle@, i as int),
{
    if i > hay.len() || needle.len() > hay.len() - i {
        return false;
    }
    let mut k: usize = 0;
    while k < needle.len()
        invariant
            i + needle.len() <= hay.len(),
            k <= needle.len(),
            forall|j: int| 0 <= j < k ==> hay@[i + j] == needle@[j],
        decreases needle.len() - k,
    {
        if hay[i + k] != needle[k] {
            assert(hay@.subrange(i as int, i + needle.len())[k as int] != needle@[k as int]);
            return false;
        }
        k += 1;
    }
    assert(hay@.subrange(i as int, i + needle.len()) =~= needle@);
    true
}

/// The first occurrence of `needle` in `hay` at or after `from`.
pub fn find_from(hay: &[char], needle: &[char], from: usize) -> (r: Option<usize>)
    ensures
        match r {
            Some(i) => from <= i && occurs_at(hay@, needle@, i as int) && forall|j: int|
                from <= j < i ==> !occurs_at(hay@, needle@, j),
            None => forall|j: int| from <= j ==> !occurs_at(hay@, needle@, j),
        },
{
    if from > hay.len() {
        return None;
    }
    let mut i = from;
    while i < hay.len()
        invariant
            from <= i <= hay.len(),
            forall|j: int| from <= j < i ==> !occurs_at(hay@, needle@, j),
        decreases hay.len() - i,
    {
        if matches_at(hay, needle, i) {
            return Some(i);
        }
        i += 1;
    }
    if matches_at(hay, needle, i) {
        return Some(i);
    }
    None
}

/// Whether `needle` occurs anywhere in `hay`.
pub fn contains_chars(hay: &[char], needle: &[char]) -> (b: bool)
    ensures
        b == is_infix(needle@, hay@),
{
    match find_from(hay, needle, 0) {
        Some(i) => true,
        None => {
            assert forall|j: int| !occurs_at(hay@, needle@, j) by {
                if j < 0 {
                }
            }
            false
        },
    }
}

/// The first index of `c` in `s` at or after `from`.
pub fn find_char(s: &[char], c: char, from: usize) -> (r: Option<usize>)
    ensures
        match r {
            Some(i) => from <= i < s.len() && s@[i as int] == c && forall|j: int|
                from <= j < i ==> s@[j] != c,
            None => forall|j: int| from <= j < s.len() ==> s@[j] != c,
        },
{
    let mut i = from;
    while i < s.len()
        invariant
            from <= i,
            forall|j: int| from <= j < i && j < s.len() ==> s@[j] != c,
        decreases s.len() - i,
    {
        if s[i] == c {
            return Some(i);
        }
        i += 1;
    }
    None
}

/// Whether `c` occurs in `s`.
pub fn has_char(s: &[char], c: char) -> (b: bool)
    ensures
        b == s@.contains(c),
{
    match find_char(s, c, 0) {
        Some(i) => {
            assert(s@[i as int] == c);
            true
        },
        None => false,
    }
}

/// The characters of `s[from..to]`.
pub fn slice_vec(s: &[char], from: usize, to: usize) -> (r: Vec<char>)
    requires
        from <= to <= s.len(),
    ensures
        r@ == s@.subrange(from as int, to as int),
{
    let mut r: Vec<char> = Vec::new();
    let mut i = from;
    while i < to
        invariant
            from <= i <= to <= s.len(),
            r@ == s@.subrange(from as int, i as int),
        decreases to - i,
    {
        r.push(s[i]);
        i += 1;
        assert(s@.subrange(from as int, i as int) == s@.subrange(from as int, i - 1).push(s@[i - 1]));
    }
    r
}

/// A copy of a character slice.
pub fn copy_chars(s: &[char]) -> (r: Vec<char>)
    ensures
        r@ == s@,
{
    let r = slice_vec(s, 0, s.len());
    assert(s@.subrange(0, s@.len() as int) == s@);
    r
}

/// Whether two character slices are equal.
pub fn chars_eq(a: &[char], b: &[char]) -> (r: bool)
    ensures
        r == (a@ == b@),
{
    if a.len() != b.len() {
        return false;
    }
    let r = matches_at(a, b, 0);
    proof {
        assert(a@.subrange(0, b@.len() as int) == a@);
    }
    r
}

/// Whether two string slices hold the same text.
pub fn str_eq(a: &str, b: &str) -> (r: bool)
    ensures
        r == (a@ == b@),
{
    let va = chars_of(a);
    let vb = chars_of(b);
    chars_eq(va.as_slice(), vb.as_slice())
}

/// Whether `prefix` begins `s`.
pub fn starts_with_chars(s: &[char], prefix: &[char]) -> (b: bool)
    ensures
        b == (prefix@.len() <= s@.len() && s@.take(prefix@.len() as int) == prefix@),
{
    matches_at(s, prefix, 0)
}

/// Whether `suffix` ends `s`.
pub fn ends_with_chars(s: &[char], suffix: &[char]) -> (b: bool)
    ensures
        b == (suffix@.len() <= s@.len() && s@.skip(s@.len() - suffix@.len()) == suffix@),
{
    if suffix.len() > s.len() {
        return false;
    }
    let b = matches_at(s, suffix, s.len() - suffix.len());
    proof {
        assert(s@.subrange(s@.len() - suffix@.len(), s@.len() as int) == s@.skip(s@.len() - suffix@.len()));
    }
    b
}

/// The decimal digit character of `d` (`d < 10`).
pub open spec fn digit(d: nat) -> char {
    (48 + d) as char
}

/// The decimal representation of `n`, as `to_string` prints it.
pub open spec fn dec(n: nat) -> Seq<char>
    decreases n,
{
    if n < 10 {
        seq![digit(n)]
    } else {
        dec(n / 10).push(digit(n % 10))
    }
}

fn digit_char(d: u64) -> (c: char)
    requires
        d < 10,
    ensures
        c == digit(d as nat),
{
    if d == 0 { '0' } else if d == 1 { '1' } else if d == 2 { '2' } else if d == 3 { '3' }
    else if d == 4 { '4' } else if d == 5 { '5' } else if d == 6 { '6' } else if d == 7 { '7' }
    else if d == 8 { '8' } else { '9' }
}

/// Appends the decimal representation of `n`.
pub fn push_dec(out: &mut Vec<char>, n: u64)
    ensures
        final(out)@ == old(out)@ + dec(n as nat),
    decreases n,
{
    if n < 10 {
        out.push(digit_char(n));
    } else {
        push_dec(out, n / 10);
        out.push(digit_char(n % 10));
    }
}

/// The decimal representation of `n`.
pub fn dec_string(n: u64) -> (s: String)
    ensures
        s@ == dec(n as nat),
{
    let mut v: Vec<char> = Vec::new();
    push_dec(&mut v, n);
    string_of(v.as_slice())
}

/// What `format!("{:?}", s)` prints for a string: the text in double
/// quotes with Rust's escapes applied.
pub uninterp spec fn debug_quoted(s: Seq<char>) -> Seq<char>;

/// Quotes a string as Rust's `Debug` formatting of `str` does.
#[verifier::external_body]
pub fn debug_quote(s: &str) -> (r: String)
    ensures
        r@ == debug_quoted(s@),
{
    format!("{s:?}")
}

} // verus!

verus! {

/// The first index of `c` in `s`, or `-1`.
pub open spec fn first_index(s: Seq<char>, c: char) -> int
    decreases s.len(),
{
    if s.len() == 0 {
        -1
    } else if s[0] == c {
        0
    } else if first_index(s.drop_first(), c) < 0 {
        -1
    } else {
        first_index(s.drop_first(), c) + 1
    }
}

/// `first_index` is the least index holding `c`.
pub proof fn lemma_first_index(s: Seq<char>, c: char)
    ensures
        first_index(s, c) == -1 <==> !s.contains(c),
        first_index(s, c) >= 0 ==> first_index(s, c) < s.len() && s[first_index(s, c)] == c
            && forall|j: int| 0 <= j < first_index(s, c) ==> s[j] != c,
    decreases s.len(),
{
    if s.len() > 0 {
        lemma_first_index(s.drop_first(), c);
        if s[0] != c {
            if first_index(s.drop_first(), c) >= 0 {
                assert forall|j: int| 0 <= j < first_index(s, c) implies s[j] != c by {
                    if j > 0 {
                        assert(s[j] == s.drop_first()[j - 1]);
                    }
                }
            } else {
                if s.contains(c) {
                    let k = choose|k: int| 0 <= k < s.len() && s[k] == c;
                    assert(s.drop_first()[k - 1] == c);
                }
            }
        }
    }
}

/// The first index of `c` in `s`.
pub fn index_of(s: &[char], c: char) -> (r: Option<usize>)
    ensures
        match r {
            Some(i) => i as int == first_index(s@, c),
            None => first_index(s@, c) == -1,
        },
        match r {
            Some(i) => i < s.len() && s@[i as int] == c,
            None => !s@.contains(c),
        },
{
    proof {
        lemma_first_index(s@, c);
    }
    let r = find_char(s, c, 0);
    match r {
        Some(i) => {
            let ghost f = first_index(s@, c);
            assert(f >= 0) by {
                assert(s@.contains(c));
            }
            assert(!(f < i) && !(i < f));
        },
        None => {
            proof {
                if s@.contains(c) {
                    let k = choose|k: int| 0 <= k < s.len() && s@[k] == c;
                    assert(false);
                }
            }
        },
    }
    r
}

/// Splitting on a separator, as `str::split` does: `"a/b"` is
/// `["a", "b"]` and the empty text is one empty piece.
pub open spec fn split_seq(s: Seq<char>, sep: char) -> Seq<Seq<char>>
    decreases s.len(),
{
    if s.len() == 0 {
        seq![Seq::empty()]
    } else {
        let init = split_seq(s.drop_last(), sep);
        if s.last() == sep {
            init.push(Seq::empty())
        } else {
            init.update(init.len() - 1, init.last().push(s.last()))
        }
    }
}

/// Joining pieces with a separator, as `[..].join(sep)` does.
pub open spec fn join_seq(pieces: Seq<Seq<char>>, sep: Seq<char>) -> Seq<char>
    decreases pieces.len(),
{
    if pieces.len() == 0 {
        Seq::empty()
    } else if pieces.len() == 1 {
        pieces[0]
    } else {
        join_seq(pieces.drop_last(), sep) + sep + pieces.last()
    }
}

pub proof fn lemma_split_nonempty(s: Seq<char>, sep: char)
    ensures
        split_seq(s, sep).len() >= 1,
    decreases s.len(),
{
    if s.len() > 0 {
        lemma_split_nonempty(s.drop_last(), sep);
    }
}

/// Splitting and joining back with the same separator gives the text
/// back.
pub proof fn lemma_join_split(s: Seq<char>, sep: char)
    ensures
        join_seq(split_seq(s, sep), seq![sep]) == s,
    decreases s.len(),
{
    if s.len() > 0 {
        let init = split_seq(s.drop_last(), sep);
        lemma_split_nonempty(s.drop_last(), sep);
        lemma_join_split(s.drop_last(), sep);
        if s.last() == sep {
            assert(split_seq(s, sep).drop_last() == init);
            assert(s == s.drop_last() + seq![sep] + Seq::<char>::empty());
        } else {
            let upd = init.update(init.len() - 1, init.last().push(s.last()));
            if init.len() == 1 {
                assert(s.drop_last() == init[0]);
                assert(s == init[0].push(s.last()));
            } else {
                assert(upd.drop_last() == init.drop_last());
                assert(join_seq(init, seq![sep]) == join_seq(init.drop_last(), seq![sep]) + seq![sep] + init.last());
                assert(s == s.drop_last().push(s.last()));
                assert(join_seq(upd, seq![sep]) == join_seq(init.drop_last(), seq![sep]) + seq![sep] + init.last().push(s.last()));
            }
        }
    }
}

/// The character sequences held by a vector of character vectors.
pub open spec fn views(v: Seq<Vec<char>>) -> Seq<Seq<char>> {
    Seq::new(v.len(), |i: int| v[i]@)
}

/// Pushing a vector pushes its characters onto the views.
pub proof fn lemma_views_push(v: Seq<Vec<char>>, x: Vec<char>)
    ensures
        views(v.push(x)) == views(v).push(x@),
{
    assert(views(v.push(x)) =~= views(v).push(x@));
}

/// Splits characters on a separator.
pub fn split_chars(s: &[char], sep: char) -> (r: Vec<Vec<char>>)
    ensures
        views(r@) == split_seq(s@, sep),
{
    let mut r: Vec<Vec<char>> = Vec::new();
    r.push(Vec::new());
    let mut i: usize = 0;
    assert(views(r@) =~= split_seq(s@.take(0), sep));
    while i < s.len()
        invariant
            i <= s.len(),
            views(r@) == split_seq(s@.take(i as int), sep),
            r.len() >= 1,
        decreases s.len() - i,
    {
        let c = s[i];
        let ghost pre = s@.take(i as int);
        assert(s@.take(i + 1).drop_last() == pre);
        if c == sep {
            r.push(Vec::new());
            assert(views(r@) =~= split_seq(pre, sep).push(Seq::empty()));
        } else {
            let last = r.len() - 1;
            let mut piece = r.pop().unwrap();
            piece.push(c);
            r.push(piece);
            assert(views(r@) =~= split_seq(pre, sep).update(last as int, split_seq(pre, sep).last().push(c)));
        }
        i += 1;
    }
    assert(s@.take(s.len() as int) == s@);
    r
}

/// Joins pieces with a separator.
pub fn join_chars(pieces: &Vec<Vec<char>>, sep: &[char]) -> (r: Vec<char>)
    ensures
        r@ == join_seq(views(pieces@), sep@),
{
    let mut r: Vec<char> = Vec::new();
    let mut i: usize = 0;
    while i < pieces.len()
        invariant
            i <= pieces.len(),
            r@ == join_seq(views(pieces@).take(i as int), sep@),
        decreases pieces.len() - i,
    {
        let ghost pre = views(pieces@).take(i as int);
        assert(views(pieces@).take(i + 1).drop_last() == pre);
        if i > 0 {
            r.extend_from_slice(sep);
        }
        r.extend_from_slice(pieces[i].as_slice());
        i += 1;
        assert(views(pieces@).take(i as int).last() == pieces[i - 1]@);
    }
    assert(views(pieces@).take(pieces.len() as int) == views(pieces@));
    r
}

} // verus!

verus! {

/// Whether `p` begins `s`.
pub open spec fn has_prefix(s: Seq<char>, p: Seq<char>) -> bool {
    p.len() <= s.len() && s.take(p.len() as int) == p
}

/// An owned copy of a string slice.
pub fn owned(s: &str) -> (r: String)
    ensures
        r@ == s@,
{
    let v = chars_of(s);
    string_of(v.as_slice())
}

/// ASCII lowercase of one character, as `char::to_ascii_lowercase`.
pub open spec fn lower(c: char) -> char {
    if 'A' <= c && c <= 'Z' { ((c as u32) + 32) as char } else { c }
}

/// ASCII lowercase of a text, as `str::to_ascii_lowercase`.
pub open spec fn lower_seq(s: Seq<char>) -> Seq<char> {
    Seq::new(s.len(), |i: int| lower(s[i]))
}

/// Lowercases one ASCII letter.
pub fn to_lower(c: char) -> (r: char)
    ensures
        r == lower(c),
{
    if 'A' <= c && c <= 'Z' {
        let n = (c as u32) + 32;
        assert(n < 0xD800);
        match char_from_u32(n) {
            Some(l) => {
                l
            },
            None => c,
        }
    } else {
        c
    }
}

/// `char::from_u32`: `Some` exactly for the Unicode scalar values, holding
/// the character with that code point.
#[verifier::external_body]
pub fn char_from_u32(n: u32) -> (r: Option<char>)
    ensures
        r is Some <==> (n < 0xD800 || (0xE000 <= n && n <= 0x10FFFF)),
        r matches Some(c) ==> c as u32 == n && c == n as char,
{
    char::from_u32(n)
}

/// ASCII digits `0`–`9`.
pub open spec fn is_digit(c: char) -> bool {
    '0' <= c && c <= '9'
}

/// ASCII letters and digits.
pub open spec fn is_alnum(c: char) -> bool {
    is_digit(c) || ('a' <= c && c <= 'z') || ('A' <= c && c <= 'Z')
}

} // verus!

verus! {

/// The value of a run of decimal digits.
pub open spec fn digits_val(s: Seq<char>) -> nat
    decreases s.len(),
{
    if s.len() == 0 {
        0
    } else {
        digits_val(s.drop_last()) * 10 + ((s.last() as nat) - 48) as nat
    }
}

/// Whether every character is an ASCII digit.
pub open spec fn all_digits(s: Seq<char>) -> bool {
    forall|i: int| 0 <= i < s.len() ==> is_digit(#[trigger] s[i])
}

/// `str::parse::<u64>` as the standard library documents it: an optional
/// `+`, then one or more ASCII digits, whose value fits.
pub open spec fn parse_uint(s: Seq<char>, max: nat) -> Option<nat> {
    let d = if s.len() > 0 && s[0] == '+' { s.drop_first() } else { s };
    if d.len() > 0 && all_digits(d) && digits_val(d) <= max {
        Some(digits_val(d))
    } else {
        None
    }
}

proof fn lemma_digits_grow(s: Seq<char>, i: int)
    requires
        0 <= i <= s.len(),
        all_digits(s),
    ensures
        digits_val(s.take(i)) <= digits_val(s),
    decreases s.len(),
{
    if i < s.len() {
        assert(all_digits(s.drop_last())) by {
            assert forall|k: int| 0 <= k < s.drop_last().len() implies is_digit(#[trigger] s.drop_last()[k]) by {
                assert(s.drop_last()[k] == s[k]);
            }
        }
        lemma_digits_grow(s.drop_last(), i);
        assert(s.drop_last().take(i) == s.take(i));
    } else {
        assert(s.take(i) == s);
    }
}

/// Parses an unsigned decimal number no greater than `max`.
pub fn parse_decimal(s: &[char], max: u64) -> (r: Option<u64>)
    ensures
        match r {
            Some(n) => parse_uint(s@, max as nat) == Some(n as nat),
            None => parse_uint(s@, max as nat) is None,
        },
{
    let start: usize = if s.len() > 0 && s[0] == '+' { 1 } else { 0 };
    let d = slice_vec(s, start, s.len());
    assert(d@ == (if s@.len() > 0 && s@[0] == '+' { s@.drop_first() } else { s@ }));
    if d.len() == 0 {
        return None;
    }
    let mut value: u64 = 0;
    let mut i: usize = 0;
    while i < d.len()
        invariant
            i <= d.len(),
            d@ == (if s@.len() > 0 && s@[0] == '+' { s@.drop_first() } else { s@ }),
            d.len() > 0,
            all_digits(d@.take(i as int)),
            value as nat == digits_val(d@.take(i as int)),
            value <= max,
        decreases d.len() - i,
    {
        let c = d[i];
        assert(d@.take(i + 1).drop_last() == d@.take(i as int));
        if !('0' <= c && c <= '9') {
            assert(!is_digit(d@[i as int]));
            assert(!all_digits(d@));
            return None;
        }
        let digit = (c as u32 - 48) as u64;
        assert(d@.take(i + 1).last() == c);
        if digit > max || value > (max - digit) / 10 {
            proof {
                assert(value * 10 + digit > max) by (nonlinear_arith)
                    requires digit > max || value > (max - digit) / 10, digit <= 9;
                assert(digits_val(d@.take(i + 1)) == value * 10 + digit);
                if all_digits(d@) {
                    lemma_digits_grow(d@, i + 1);
                }
            }
            return None;
        }
        proof {
            assert(value * 10 + digit <= max) by (nonlinear_arith)
                requires value <= (max - digit) / 10, digit <= max;
        }
        value = value * 10 + digit;
        i += 1;
        assert(all_digits(d@.take(i as int))) by {
            assert forall|k: int| 0 <= k < i implies is_digit(#[trigger] d@.take(i as int)[k]) by {
                if k < i - 1 {
                    assert(d@.take(i as int)[k] == d@.take(i - 1)[k]);
                }
            }
        }
    }
    assert(d@.take(d.len() as int) == d@);
    Some(value)
}

} // verus!

verus! {

/// `s` without leading and trailing whitespace, as `str::trim`.
pub open spec fn trim_ws(s: Seq<char>) -> Seq<char>
    decreases s.len(),
{
    if s.len() > 0 && is_ws(s[0]) {
        trim_ws(s.drop_first())
    } else if s.len() > 0 && is_ws(s.last()) {
        trim_ws(s.drop_last())
    } else {
        s
    }
}

/// Trims whitespace from both ends.
pub fn trim_chars(s: &[char]) -> (r: Vec<char>)
    ensures
        r@ == trim_ws(s@),
{
    let mut lo: usize = 0;
    let mut hi: usize = s.len();
    assert(s@.subrange(0, s@.len() as int) == s@);
    while lo < hi && is_whitespace(s[lo])
        invariant
            lo <= hi <= s.len(),
            hi == s.len(),
            trim_ws(s@) == trim_ws(s@.subrange(lo as int, hi as int)),
        decreases hi - lo,
    {
        assert(s@.subrange(lo as int, hi as int).drop_first() == s@.subrange(lo + 1, hi as int));
        lo += 1;
    }
    while lo < hi && is_whitespace(s[hi - 1])
        invariant
            lo <= hi <= s.len(),
            lo < hi ==> !is_ws(s@[lo as int]),
            trim_ws(s@) == trim_ws(s@.subrange(lo as int, hi as int)),
        decreases hi - lo,
    {
        assert(s@.subrange(lo as int, hi as int).drop_last() == s@.subrange(lo as int, hi - 1));
        hi -= 1;
    }
    slice_vec(s, lo, hi)
}

/// Collapses every run of whitespace to one space and trims the ends:
/// `normalize_whitespace(s)@ == norm_ws(s@)`.
pub fn normalize_whitespace(text: &str) -> (r: String)
    ensures
        r@ == norm_ws(text@),
{
    let c = chars_of(text);
    let n = normalize_chars(c.as_slice());
    string_of(n.as_slice())
}

/// Whether an excerpt occurs in a block's text, both whitespace-
/// normalized; an empty excerpt never does.
pub open spec fn excerpt_hit(block_text: Seq<char>, excerpt: Seq<char>) -> bool {
    norm_ws(excerpt).len() > 0 && is_infix(norm_ws(excerpt), norm_ws(block_text))
}

/// Excerpt matching forgives whitespace and nothing else: normalizing the
/// block or the excerpt first never changes whether it matches.
pub proof fn law_excerpt_matching_forgives_whitespace(block_text: Seq<char>, excerpt: Seq<char>)
    ensures
        excerpt_hit(block_text, excerpt) == excerpt_hit(norm_ws(block_text), norm_ws(excerpt)),
{
    law_normalize_idempotent(block_text);
    law_normalize_idempotent(excerpt);
}

/// Whether `excerpt` (any contiguous part of one block) occurs in
/// `block_text`, both whitespace-normalized. An empty excerpt never
/// matches.
pub fn excerpt_matches(block_text: &str, excerpt: &str) -> (b: bool)
    ensures
        b == excerpt_hit(block_text@, excerpt@),
{
    let e = chars_of(excerpt);
    let ne = normalize_chars(e.as_slice());
    if ne.len() == 0 {
        return false;
    }
    let bt = chars_of(block_text);
    let nb = normalize_chars(bt.as_slice());
    contains_chars(nb.as_slice(), ne.as_slice())
}

} // verus!
