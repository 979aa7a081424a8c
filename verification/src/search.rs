//! Static search-index generation: entries with a title, URL, and
//! extracted body text, section by section.
//!
//! Entries are section-level: each page yields a lead entry (the page
//! title and any text before its first section) plus one entry per
//! anchored section heading, whose URL carries the `#fragment`, so a
//! result lands the reader on the matching section, not just the page.

use vstd::prelude::*;

use crate::text::{char_from_u32, chars_of, is_whitespace, is_ws, lower, norm_ws, normalize_chars, parse_decimal, parse_uint, push_chars, push_str, slice_vec, string_of, to_lower, trim_chars, trim_ws};

verus! {

// ---------------------------------------------------------------------
// Character search
// ---------------------------------------------------------------------

/// The first index at or after `p` holding `c`, or `-1`.
pub open spec fn next_char(s: Seq<char>, c: char, p: int) -> int
    decreases s.len() - p,
{
    if p < 0 || p >= s.len() {
        -1
    } else if s[p] == c {
        p
    } else {
        next_char(s, c, p + 1)
    }
}

/// Where `next_char` lands.
pub proof fn lemma_next_char(s: Seq<char>, c: char, p: int)
    requires
        0 <= p,
    ensures
        next_char(s, c, p) == -1 ==> forall|j: int| p <= j < s.len() ==> s[j] != c,
        next_char(s, c, p) != -1 ==> p <= next_char(s, c, p) < s.len() && s[next_char(s, c, p)] == c && forall|j: int|
            p <= j < next_char(s, c, p) ==> s[j] != c,
    decreases s.len() - p,
{
    if p < s.len() && s[p] != c {
        lemma_next_char(s, c, p + 1);
    }
}

/// The first index at or after `p` holding `c`.
pub(crate) fn next_char_exec(s: &[char], c: char, p: usize) -> (r: Option<usize>)
    ensures
        match r {
            Some(i) => i as int == next_char(s@, c, p as int) && i < s@.len(),
            None => next_char(s@, c, p as int) == -1,
        },
{
    proof {
        lemma_next_char(s@, c, p as int);
    }
    match crate::text::find_char(s, c, p) {
        Some(i) => {
            assert(i as int == next_char(s@, c, p as int)) by {
                let n = next_char(s@, c, p as int);
                if n == -1 {
                } else if n < i {
                } else if n > i {
                }
            }
            Some(i)
        },
        None => {
            assert(next_char(s@, c, p as int) == -1) by {
                let n = next_char(s@, c, p as int);
                if n != -1 {
                    assert(s@[n] == c);
                }
            }
            None
        },
    }
}

// ---------------------------------------------------------------------
// Entities
// ---------------------------------------------------------------------

/// The UTF-8 length of a character.
pub open spec fn utf8_len(c: char) -> nat {
    if (c as u32) < 0x80 {
        1
    } else if (c as u32) < 0x800 {
        2
    } else if (c as u32) < 0x10000 {
        3
    } else {
        4
    }
}

/// The UTF-8 length of a text.
pub open spec fn utf8_size(s: Seq<char>) -> nat
    decreases s.len(),
{
    if s.len() == 0 {
        0
    } else {
        utf8_size(s.drop_last()) + utf8_len(s.last())
    }
}

fn utf8_len_exec(c: char) -> (n: usize)
    ensures
        n == utf8_len(c),
{
    let v = c as u32;
    if v < 0x80 {
        1
    } else if v < 0x800 {
        2
    } else if v < 0x10000 {
        3
    } else {
        4
    }
}

proof fn lemma_utf8_size_grow(s: Seq<char>, i: int)
    requires
        0 <= i <= s.len(),
    ensures
        utf8_size(s.take(i)) <= utf8_size(s),
    decreases s.len(),
{
    if i < s.len() {
        lemma_utf8_size_grow(s.drop_last(), i);
        assert(s.drop_last().take(i) == s.take(i));
    } else {
        assert(s.take(i) == s);
    }
}

/// Whether the UTF-8 length of `s[from..to]` exceeds `limit`.
fn utf8_size_exceeds(s: &[char], from: usize, to: usize, limit: usize) -> (b: bool)
    requires
        from <= to <= s@.len(),
        limit <= 1000,
    ensures
        b == (utf8_size(s@.subrange(from as int, to as int)) > limit),
{
    let ghost whole = s@.subrange(from as int, to as int);
    let mut n: usize = 0;
    let mut i: usize = from;
    while i < to
        invariant
            from <= i <= to,
            to <= s@.len(),
            limit <= 1000,
            whole == s@.subrange(from as int, to as int),
            n == utf8_size(s@.subrange(from as int, i as int)),
            n <= limit,
        decreases to - i,
    {
        assert(s@.subrange(from as int, i + 1).drop_last() == s@.subrange(from as int, i as int));
        n = n + utf8_len_exec(s[i]);
        i += 1;
        if n > limit {
            proof {
                assert(whole.take(i - from) == s@.subrange(from as int, i as int));
                lemma_utf8_size_grow(whole, i - from);
            }
            return true;
        }
    }
    false
}

/// The value of a hexadecimal digit, or `-1`.
pub open spec fn hex_digit(c: char) -> int {
    if '0' <= c && c <= '9' {
        c as int - '0' as int
    } else if 'a' <= c && c <= 'f' {
        c as int - 'a' as int + 10
    } else if 'A' <= c && c <= 'F' {
        c as int - 'A' as int + 10
    } else {
        -1
    }
}

/// The value of a text of hexadecimal digits.
pub open spec fn hex_value(s: Seq<char>) -> nat
    decreases s.len(),
{
    if s.len() == 0 {
        0
    } else {
        (hex_value(s.drop_last()) * 16 + hex_digit(s.last())) as nat
    }
}

/// Whether every character is a hexadecimal digit.
pub open spec fn all_hex(s: Seq<char>) -> bool {
    forall|i: int| 0 <= i < s.len() ==> hex_digit(#[trigger] s[i]) >= 0
}

/// `u32::from_str_radix(s, 16)`: an optional `+`, then hexadecimal
/// digits whose value fits `u32`.
pub open spec fn parse_hex(s: Seq<char>) -> Option<nat> {
    let d = if s.len() > 0 && s[0] == '+' { s.drop_first() } else { s };
    if d.len() > 0 && all_hex(d) && hex_value(d) <= u32::MAX {
        Some(hex_value(d))
    } else {
        None
    }
}

proof fn lemma_hex_grow(s: Seq<char>, i: int)
    requires
        0 <= i <= s.len(),
        all_hex(s),
    ensures
        hex_value(s.take(i)) <= hex_value(s),
    decreases s.len(),
{
    if i < s.len() {
        assert(all_hex(s.drop_last())) by {
            assert forall|k: int| 0 <= k < s.drop_last().len() implies hex_digit(#[trigger] s.drop_last()[k]) >= 0 by {
                assert(s.drop_last()[k] == s[k]);
            }
        }
        lemma_hex_grow(s.drop_last(), i);
        assert(s.drop_last().take(i) == s.take(i));
        assert(hex_digit(s.last()) >= 0);
    } else {
        assert(s.take(i) == s);
    }
}

fn hex_digit_exec(c: char) -> (r: Option<u32>)
    ensures
        match r {
            Some(v) => v as int == hex_digit(c) && hex_digit(c) >= 0,
            None => hex_digit(c) < 0,
        },
{
    if '0' <= c && c <= '9' {
        Some(c as u32 - '0' as u32)
    } else if 'a' <= c && c <= 'f' {
        Some(c as u32 - 'a' as u32 + 10)
    } else if 'A' <= c && c <= 'F' {
        Some(c as u32 - 'A' as u32 + 10)
    } else {
        None
    }
}

/// Parses a hexadecimal number as `u32::from_str_radix(s, 16)` does.
fn parse_hex_exec(s: &[char]) -> (r: Option<u32>)
    ensures
        match r {
            Some(n) => parse_hex(s@) == Some(n as nat),
            None => parse_hex(s@) is None,
        },
{
    let start: usize = if s.len() > 0 && s[0] == '+' { 1 } else { 0 };
    let d = slice_vec(s, start, s.len());
    assert(d@ == (if s@.len() > 0 && s@[0] == '+' { s@.drop_first() } else { s@ }));
    if d.len() == 0 {
        return None;
    }
    let mut value: u32 = 0;
    let mut i: usize = 0;
    while i < d.len()
        invariant
            i <= d@.len(),
            parse_hex(s@) == (if d@.len() > 0 && all_hex(d@) && hex_value(d@) <= u32::MAX {
                Some(hex_value(d@))
            } else {
                None::<nat>
            }),
            all_hex(d@.take(i as int)),
            value as nat == hex_value(d@.take(i as int)),
        decreases d.len() - i,
    {
        assert(d@.take(i + 1).drop_last() == d@.take(i as int));
        assert(d@.take(i + 1).last() == d@[i as int]);
        match hex_digit_exec(d[i]) {
            None => {
                assert(!all_hex(d@)) by {
                    assert(hex_digit(d@[i as int]) < 0);
                }
                return None;
            },
            Some(v) => {
                if value > (0xFFFF_FFFFu32 - v) / 16 {
                    assert(hex_value(d@.take(i + 1)) > u32::MAX) by (nonlinear_arith)
                        requires
                            hex_value(d@.take(i + 1)) == value * 16 + v,
                            value > (0xFFFF_FFFFu32 - v) / 16,
                            v < 16,
                    ;
                    proof {
                        if all_hex(d@) {
                            lemma_hex_grow(d@, i + 1);
                        }
                    }
                    return None;
                }
                assert(value * 16 + v <= u32::MAX) by (nonlinear_arith)
                    requires
                        value <= (0xFFFF_FFFFu32 - v) / 16,
                        v < 16,
                ;
                value = value * 16 + v;
                assert(all_hex(d@.take(i + 1))) by {
                    assert forall|k: int| 0 <= k < i + 1 implies hex_digit(#[trigger] d@.take(i + 1)[k]) >= 0 by {
                        if k < i {
                            assert(d@.take(i + 1)[k] == d@.take(i as int)[k]);
                        }
                    }
                }
            },
        }
        i += 1;
    }
    assert(d@.take(d@.len() as int) == d@);
    Some(value)
}

/// The character a scalar value is, when it is one.
pub open spec fn scalar(n: nat) -> Option<char> {
    if n < 0xD800 || (0xE000 <= n && n <= 0x10FFFF) {
        Some(n as char)
    } else {
        None
    }
}

/// The character an entity name (the text between `&` and `;`) stands
/// for: the five XML escapes and numeric references.
pub open spec fn entity_char(name: Seq<char>) -> Option<char> {
    if name == "lt"@ {
        Some('<')
    } else if name == "gt"@ {
        Some('>')
    } else if name == "quot"@ {
        Some('"')
    } else if name == "apos"@ {
        Some('\'')
    } else if name == "amp"@ {
        Some('&')
    } else if name.len() > 0 && name[0] == '#' {
        let num = name.drop_first();
        let v = if num.len() > 0 && (num[0] == 'x' || num[0] == 'X') {
            parse_hex(num.drop_first())
        } else {
            parse_uint(num, u32::MAX as nat)
        };
        match v {
            Some(n) => scalar(n),
            None => None,
        }
    } else {
        None
    }
}

fn entity_char_exec(name: &[char]) -> (r: Option<char>)
    ensures
        r == entity_char(name@),
{
    proof {
        reveal_strlit("lt");
        reveal_strlit("gt");
        reveal_strlit("quot");
        reveal_strlit("apos");
        reveal_strlit("amp");
    }
    let n = name.len();
    if n == 2 && name[0] == 'l' && name[1] == 't' {
        assert(name@ =~= "lt"@);
        return Some('<');
    }
    if n == 2 && name[0] == 'g' && name[1] == 't' {
        assert(name@ =~= "gt"@);
        return Some('>');
    }
    if n == 4 && name[0] == 'q' && name[1] == 'u' && name[2] == 'o' && name[3] == 't' {
        assert(name@ =~= "quot"@);
        return Some('"');
    }
    if n == 4 && name[0] == 'a' && name[1] == 'p' && name[2] == 'o' && name[3] == 's' {
        assert(name@ =~= "apos"@);
        return Some('\'');
    }
    if n == 3 && name[0] == 'a' && name[1] == 'm' && name[2] == 'p' {
        assert(name@ =~= "amp"@);
        return Some('&');
    }
    assert(name@ != "lt"@ && name@ != "gt"@ && name@ != "quot"@ && name@ != "apos"@ && name@ != "amp"@) by {
        if name@ == "lt"@ {
            assert(name@.len() == 2 && name@[0] == 'l' && name@[1] == 't');
        }
        if name@ == "gt"@ {
            assert(name@.len() == 2 && name@[0] == 'g' && name@[1] == 't');
        }
        if name@ == "quot"@ {
            assert(name@.len() == 4 && name@[0] == 'q' && name@[1] == 'u' && name@[2] == 'o' && name@[3] == 't');
        }
        if name@ == "apos"@ {
            assert(name@.len() == 4 && name@[0] == 'a' && name@[1] == 'p' && name@[2] == 'o' && name@[3] == 's');
        }
        if name@ == "amp"@ {
            assert(name@.len() == 3 && name@[0] == 'a' && name@[1] == 'm' && name@[2] == 'p');
        }
    }
    if n > 0 && name[0] == '#' {
        let num = slice_vec(name, 1, n);
        assert(num@ == name@.drop_first());
        let v: Option<u32> = if num.len() > 0 && (num[0] == 'x' || num[0] == 'X') {
            let hex = slice_vec(num.as_slice(), 1, num.len());
            assert(hex@ == num@.drop_first());
            parse_hex_exec(hex.as_slice())
        } else {
            match parse_decimal(num.as_slice(), 0xFFFF_FFFF) {
                Some(d) => Some(d as u32),
                None => None,
            }
        };
        match v {
            Some(code) => char_from_u32(code),
            None => None,
        }
    } else {
        None
    }
}

/// Decodes the five XML escapes plus numeric character references in
/// `s[p..]`; an `&` that starts no known entity (or whose `;` lies more
/// than ten bytes on) stays as it is.
pub open spec fn decode_from(s: Seq<char>, p: int) -> Seq<char>
    decreases s.len() - p,
{
    if p < 0 || p >= s.len() {
        Seq::empty()
    } else {
        let amp = next_char(s, '&', p);
        proof {
            lemma_next_char(s, '&', p);
            if amp >= 0 {
                lemma_next_char(s, ';', amp + 1);
            }
        }
        if amp < 0 {
            s.subrange(p, s.len() as int)
        } else {
            let semi = next_char(s, ';', amp + 1);
            if semi < 0 || utf8_size(s.subrange(amp + 1, semi)) > 10 {
                s.subrange(p, amp) + seq!['&'] + decode_from(s, amp + 1)
            } else {
                match entity_char(s.subrange(amp + 1, semi)) {
                    Some(c) => s.subrange(p, amp).push(c) + decode_from(s, semi + 1),
                    None => s.subrange(p, amp) + seq!['&'] + decode_from(s, amp + 1),
                }
            }
        }
    }
}

/// Decodes the five XML escapes plus numeric character references
/// (`&#8217;`, `&#x2019;`), the only entity forms the renderer emits.
pub fn decode_entities(s: &[char]) -> (r: Vec<char>)
    ensures
        r@ == decode_from(s@, 0),
{
    let mut out: Vec<char> = Vec::new();
    let mut p: usize = 0;
    let ghost goal = decode_from(s@, 0);
    while p < s.len()
        invariant
            p <= s@.len(),
            goal == out@ + decode_from(s@, p as int),
        decreases s.len() - p,
    {
        proof {
            lemma_next_char(s@, '&', p as int);
        }
        match next_char_exec(s, '&', p) {
            None => {
                let tail = slice_vec(s, p, s.len());
                let mut k: usize = 0;
                let ghost o = out@;
                while k < tail.len()
                    invariant
                        k <= tail@.len(),
                        out@ == o + tail@.take(k as int),
                    decreases tail.len() - k,
                {
                    out.push(tail[k]);
                    k += 1;
                    assert(tail@.take(k as int) == tail@.take(k - 1).push(tail@[k - 1]));
                }
                assert(tail@.take(tail@.len() as int) == tail@);
                p = s.len();
                assert(decode_from(s@, p as int) == Seq::<char>::empty());
            },
            Some(amp) => {
                let ghost o = out@;
                let mut k: usize = p;
                while k < amp
                    invariant
                        p <= k <= amp,
                        amp < s@.len(),
                        out@ == o + s@.subrange(p as int, k as int),
                    decreases amp - k,
                {
                    out.push(s[k]);
                    k += 1;
                    assert(s@.subrange(p as int, k as int) == s@.subrange(p as int, k - 1).push(s@[k - 1]));
                }
                let semi = next_char_exec(s, ';', amp + 1);
                let decoded: Option<(char, usize)> = match semi {
                    Some(sc) => {
                        proof {
                            lemma_next_char(s@, ';', amp + 1);
                        }
                        if utf8_size_exceeds(s, amp + 1, sc, 10) {
                            None
                        } else {
                            let name = slice_vec(s, amp + 1, sc);
                            match entity_char_exec(name.as_slice()) {
                                Some(c) => Some((c, sc)),
                                None => None,
                            }
                        }
                    },
                    None => None,
                };
                match decoded {
                    Some((c, sc)) => {
                        out.push(c);
                        p = sc + 1;
                    },
                    None => {
                        out.push('&');
                        p = amp + 1;
                    },
                }
            },
        }
    }
    out
}

// ---------------------------------------------------------------------
// Text extraction
// ---------------------------------------------------------------------

/// `out` with the words of `text` (entities decoded, whitespace
/// collapsed) appended, one space between words and after earlier text.
pub open spec fn push_text(out: Seq<char>, text: Seq<char>) -> Seq<char> {
    let w = norm_ws(decode_from(text, 0));
    if w.len() == 0 {
        out
    } else if out.len() == 0 {
        w
    } else {
        out + seq![' '] + w
    }
}

fn push_text_exec(out: &mut Vec<char>, text: &[char])
    ensures
        final(out)@ == push_text(old(out)@, text@),
{
    let decoded = decode_entities(text);
    let w = normalize_chars(decoded.as_slice());
    if w.len() == 0 {
        return;
    }
    if out.len() > 0 {
        out.push(' ');
    }
    let ghost o = out@;
    let mut k: usize = 0;
    while k < w.len()
        invariant
            k <= w@.len(),
            out@ == o + w@.take(k as int),
        decreases w.len() - k,
    {
        out.push(w[k]);
        k += 1;
        assert(w@.take(k as int) == w@.take(k - 1).push(w@[k - 1]));
    }
    assert(w@.take(w@.len() as int) == w@);
}

/// The first occurrence of `needle` in `hay` at or after `from`, or `-1`.
pub open spec fn next_occurrence(hay: Seq<char>, needle: Seq<char>, from: int) -> int
    decreases hay.len() + 1 - from,
{
    if from < 0 || from > hay.len() {
        -1
    } else if crate::text::occurs_at(hay, needle, from) {
        from
    } else {
        next_occurrence(hay, needle, from + 1)
    }
}

/// Where `next_occurrence` lands.
pub proof fn lemma_next_occurrence(hay: Seq<char>, needle: Seq<char>, from: int)
    requires
        0 <= from,
    ensures
        next_occurrence(hay, needle, from) == -1 ==> forall|j: int| from <= j <= hay.len() ==> !crate::text::occurs_at(hay, needle, j),
        next_occurrence(hay, needle, from) != -1 ==> from <= next_occurrence(hay, needle, from) <= hay.len()
            && crate::text::occurs_at(hay, needle, next_occurrence(hay, needle, from)) && forall|j: int|
            from <= j < next_occurrence(hay, needle, from) ==> !crate::text::occurs_at(hay, needle, j),
    decreases hay.len() + 1 - from,
{
    if from <= hay.len() && !crate::text::occurs_at(hay, needle, from) {
        lemma_next_occurrence(hay, needle, from + 1);
    }
}

/// Where a raw-text element's closing tag starts, at or after `from`:
/// `closer` (e.g. `</script`) matched case-insensitively and followed by
/// `>`, `/`, whitespace, or the end of the text.
pub open spec fn closer_at(s: Seq<char>, closer: Seq<char>, from: int) -> int
    decreases s.len() + 1 - from,
{
    let lt = crate::text::lower_seq(s);
    let at = next_occurrence(lt, closer, from);
    if closer.len() == 0 || from < 0 || at < 0 {
        -1
    } else {
        let after = at + closer.len();
        proof {
            lemma_next_occurrence(lt, closer, from);
        }
        if after >= s.len() {
            at
        } else if lt[after] == '>' || lt[after] == '/' || is_ws(lt[after]) {
            at
        } else {
            closer_at(s, closer, after)
        }
    }
}

/// Where `closer_at` lands.
pub proof fn lemma_closer_at(s: Seq<char>, closer: Seq<char>, from: int)
    ensures
        closer_at(s, closer, from) == -1 || from <= closer_at(s, closer, from) <= s.len(),
    decreases s.len() + 1 - from,
{
    let lt = crate::text::lower_seq(s);
    let at = next_occurrence(lt, closer, from);
    if closer.len() > 0 && from >= 0 && at >= 0 {
        lemma_next_occurrence(lt, closer, from);
        let after = at + closer.len();
        if after < s.len() && !(lt[after] == '>' || lt[after] == '/' || is_ws(lt[after])) {
            lemma_closer_at(s, closer, after);
        }
    }
}

/// The ASCII-lowercased copy of a text.
fn lower_chars(s: &[char]) -> (r: Vec<char>)
    ensures
        r@ == crate::text::lower_seq(s@),
{
    let mut r: Vec<char> = Vec::new();
    let mut i: usize = 0;
    while i < s.len()
        invariant
            i <= s@.len(),
            r@ == crate::text::lower_seq(s@).take(i as int),
        decreases s.len() - i,
    {
        r.push(to_lower(s[i]));
        i += 1;
        assert(r@ =~= crate::text::lower_seq(s@).take(i as int));
    }
    assert(crate::text::lower_seq(s@).take(s@.len() as int) =~= crate::text::lower_seq(s@));
    r
}

/// Finds a raw-text element's real closing tag in `s` (whose lowercase
/// copy is `lower`), at or after `from`.
fn find_closer(s: &[char], lower: &[char], closer: &[char], from: usize) -> (r: Option<usize>)
    requires
        lower@ == crate::text::lower_seq(s@),
        closer@.len() > 0,
    ensures
        match r {
            Some(i) => i as int == closer_at(s@, closer@, from as int),
            None => closer_at(s@, closer@, from as int) == -1,
        },
{
    let mut f = from;
    while f <= lower.len()
        invariant
            lower@ == crate::text::lower_seq(s@),
            closer@.len() > 0,
            from <= f,
            closer_at(s@, closer@, from as int) == closer_at(s@, closer@, f as int),
        decreases lower.len() + 1 - f,
    {
        proof {
            lemma_next_occurrence(lower@, closer@, f as int);
        }
        match crate::text::find_from(lower, closer, f) {
            None => {
                assert(next_occurrence(lower@, closer@, f as int) == -1) by {
                    let n = next_occurrence(lower@, closer@, f as int);
                    if n != -1 {
                        assert(crate::text::occurs_at(lower@, closer@, n));
                    }
                }
                return None;
            },
            Some(at) => {
                assert(at as int == next_occurrence(lower@, closer@, f as int)) by {
                    let n = next_occurrence(lower@, closer@, f as int);
                    if n == -1 {
                        assert(!crate::text::occurs_at(lower@, closer@, at as int));
                    }
                }
                let after = at + closer.len();
                if after >= s.len() {
                    return Some(at);
                }
                let c = lower[after];
                if c == '>' || c == '/' || is_whitespace(c) {
                    return Some(at);
                }
                f = after;
            },
        }
    }
    assert(closer_at(s@, closer@, f as int) == -1);
    None
}

/// Whether `c` ends a tag's name.
pub open spec fn ends_name(c: char) -> bool {
    is_ws(c) || c == '/' || c == '>'
}

/// The length of a tag's name: up to the first whitespace, `/` or `>`.
pub open spec fn name_len(tag: Seq<char>, i: int) -> int
    decreases tag.len() - i,
{
    if i < 0 || i >= tag.len() {
        tag.len() as int
    } else if ends_name(tag[i]) {
        i
    } else {
        name_len(tag, i + 1)
    }
}

/// A tag's lowercased name.
pub open spec fn tag_name(tag: Seq<char>) -> Seq<char> {
    crate::text::lower_seq(tag.take(name_len(tag, 0)))
}

proof fn lemma_name_len(tag: Seq<char>, i: int)
    requires
        0 <= i <= tag.len(),
    ensures
        i <= name_len(tag, i) <= tag.len(),
    decreases tag.len() - i,
{
    if i < tag.len() && !ends_name(tag[i]) {
        lemma_name_len(tag, i + 1);
    }
}

/// The lowercased name of the tag `s[from..to]`.
fn tag_name_exec(s: &[char], from: usize, to: usize) -> (r: Vec<char>)
    requires
        from <= to <= s@.len(),
    ensures
        r@ == tag_name(s@.subrange(from as int, to as int)),
{
    let ghost tag = s@.subrange(from as int, to as int);
    let mut i: usize = from;
    proof {
        lemma_name_len(tag, 0);
    }
    while i < to && !(is_whitespace(s[i]) || s[i] == '/' || s[i] == '>')
        invariant
            from <= i <= to,
            to <= s@.len(),
            tag == s@.subrange(from as int, to as int),
            name_len(tag, 0) == name_len(tag, i - from),
        decreases to - i,
    {
        assert(tag[i - from] == s@[i as int]);
        i += 1;
    }
    if i < to {
        assert(tag[i - from] == s@[i as int]);
    }
    let name = slice_vec(s, from, i);
    assert(name@ == tag.take(i - from));
    lower_chars(name.as_slice())
}

/// Text extracted from `s[p..]` after `out` so far: text between tags
/// pushed word by word, `<script>` and `<style>` content skipped up to
/// the real closing tag (an unterminated one swallows the rest), and, at
/// a `<` no `>` closes, the whole remainder pushed once more, as the
/// extractor has always done.
pub open spec fn strip_from(s: Seq<char>, p: int, out: Seq<char>) -> Seq<char>
    decreases s.len() - p,
{
    if p < 0 || p > s.len() {
        out
    } else {
        let lt = next_char(s, '<', p);
        proof {
            lemma_next_char(s, '<', p);
            if lt >= 0 {
                lemma_next_char(s, '>', lt + 1);
            }
        }
        if lt < 0 {
            push_text(out, s.subrange(p, s.len() as int))
        } else {
            let out1 = push_text(out, s.subrange(p, lt));
            let gt = next_char(s, '>', lt + 1);
            if gt < 0 {
                push_text(out1, s.subrange(p, s.len() as int))
            } else {
                let name = tag_name(s.subrange(lt + 1, gt));
                let q = gt + 1;
                if name == "script"@ || name == "style"@ {
                    let closer = if name == "script"@ { "</script"@ } else { "</style"@ };
                    let ca = closer_at(s, closer, q);
                    proof {
                        lemma_closer_at(s, closer, q);
                        if ca >= 0 {
                            lemma_next_char(s, '>', ca);
                        }
                    }
                    if ca < 0 {
                        out1
                    } else {
                        let g2 = next_char(s, '>', ca);
                        if g2 < 0 {
                            out1
                        } else {
                            strip_from(s, g2 + 1, out1)
                        }
                    }
                } else {
                    strip_from(s, q, out1)
                }
            }
        }
    }
}

/// Extracts visible text from rendered HTML: tags dropped, `<script>` and
/// `<style>` content dropped too, entities decoded, whitespace collapsed,
/// ends trimmed.
pub open spec fn html_text(s: Seq<char>) -> Seq<char> {
    trim_ws(strip_from(s, 0, Seq::empty()))
}

/// Extracts visible text from the generator's own rendered HTML: tags
/// dropped, `<script>`/`<style>` content dropped too, entities for the
/// five XML escapes (and numeric references) decoded, whitespace
/// collapsed.
pub fn html_to_text(html: &str) -> (r: String)
    ensures
        r@ == html_text(html@),
{
    let s = chars_of(html);
    text_of(s.as_slice())
}

/// The visible text of HTML given as characters.
fn text_of(sl: &[char]) -> (r: String)
    ensures
        r@ == html_text(sl@),
{
    let s = crate::text::copy_chars(sl);
    let lower = lower_chars(s.as_slice());
    let script = chars_of("script");
    let style = chars_of("style");
    let script_closer = chars_of("</script");
    let style_closer = chars_of("</style");
    proof {
        reveal_strlit("</script");
        reveal_strlit("</style");
    }
    let ghost goal = strip_from(s@, 0, Seq::empty());
    let mut out: Vec<char> = Vec::new();
    let mut p: usize = 0;
    let mut done = false;
    let n: usize = s.len();
    while !done
        invariant
            p <= s@.len(),
            n == s@.len(),
            lower@ == crate::text::lower_seq(s@),
            script@ == "script"@,
            style@ == "style"@,
            script_closer@ == "</script"@,
            style_closer@ == "</style"@,
            script_closer@.len() > 0,
            style_closer@.len() > 0,
            done ==> out@ == goal,
            !done ==> goal == strip_from(s@, p as int, out@),
        decreases (if done { 0 } else { s@.len() + 1 - p }),
    {
        proof {
            lemma_next_char(s@, '<', p as int);
        }
        match next_char_exec(s.as_slice(), '<', p) {
            None => {
                let rest = slice_vec(s.as_slice(), p, s.len());
                push_text_exec(&mut out, rest.as_slice());
                done = true;
            },
            Some(lt) => {
                assert(lt < s@.len());
                let before = slice_vec(s.as_slice(), p, lt);
                push_text_exec(&mut out, before.as_slice());
                proof {
                    lemma_next_char(s@, '>', lt + 1);
                }
                match next_char_exec(s.as_slice(), '>', lt + 1) {
                    None => {
                        let rest = slice_vec(s.as_slice(), p, s.len());
                        push_text_exec(&mut out, rest.as_slice());
                        done = true;
                    },
                    Some(gt) => {
                        assert(gt < n);
                        let name = tag_name_exec(s.as_slice(), lt + 1, gt);
                        let q = gt + 1;
                        let is_script = crate::text::chars_eq(name.as_slice(), script.as_slice());
                        let is_style = crate::text::chars_eq(name.as_slice(), style.as_slice());
                        if is_script || is_style {
                            let closer = if is_script { &script_closer } else { &style_closer };
                            proof {
                                lemma_closer_at(s@, closer@, q as int);
                            }
                            match find_closer(s.as_slice(), lower.as_slice(), closer.as_slice(), q) {
                                None => {
                                    done = true;
                                },
                                Some(ca) => {
                                    proof {
                                        lemma_next_char(s@, '>', ca as int);
                                    }
                                    match next_char_exec(s.as_slice(), '>', ca) {
                                        None => {
                                            done = true;
                                        },
                                        Some(g2) => {
                                            p = g2 + 1;
                                        },
                                    }
                                },
                            }
                        } else {
                            p = q;
                        }
                    },
                }
            },
        }
    }
    let t = trim_chars(out.as_slice());
    string_of(t.as_slice())
}

// ---------------------------------------------------------------------
// Sections
// ---------------------------------------------------------------------

/// Whether a lowercased tag name is a sectioning heading (`h2` to `h6`;
/// `h1` is the page title, rendered outside the page contents).
pub open spec fn section_heading(name: Seq<char>) -> bool {
    name.len() == 2 && name[0] == 'h' && '2' <= name[1] && name[1] <= '6'
}

fn is_section_heading(name: &[char]) -> (b: bool)
    ensures
        b == section_heading(name@),
{
    name.len() == 2 && name[0] == 'h' && '2' <= name[1] && name[1] <= '6'
}

/// The `id="…"` value of a tag's inside, looking from `from` on: the
/// first `id="` preceded by whitespace (so `data-id` never matches), up
/// to the next `"` (none when there is no closing quote).
pub open spec fn id_value(tag: Seq<char>, from: int) -> Option<Seq<char>>
    decreases tag.len() + 1 - from,
{
    let at = next_occurrence(tag, "id=\""@, from);
    if from < 0 || at < 0 {
        None
    } else {
        proof {
            lemma_next_occurrence(tag, "id=\""@, from);
            reveal_strlit("id=\"");
        }
        if at > 0 && is_ws(tag[at - 1]) {
            let v = tag.skip(at + 4);
            let q = next_char(v, '"', 0);
            if q < 0 {
                None
            } else {
                Some(v.take(q))
            }
        } else {
            id_value(tag, at + 4)
        }
    }
}

/// The `id` attribute of the tag `s[from..to]`.
fn id_attr(s: &[char], from: usize, to: usize) -> (r: Option<Vec<char>>)
    requires
        from <= to <= s@.len(),
    ensures
        match r {
            Some(v) => id_value(s@.subrange(from as int, to as int), 0) == Some(v@),
            None => id_value(s@.subrange(from as int, to as int), 0) is None,
        },
{
    let tag = slice_vec(s, from, to);
    let pat = chars_of("id=\"");
    proof {
        reveal_strlit("id=\"");
    }
    assert(pat@.len() == 4);
    let mut f: usize = 0;
    while f <= tag.len()
        invariant
            pat@ == "id=\""@,
            pat@.len() == 4,
            tag@ == s@.subrange(from as int, to as int),
            id_value(tag@, 0) == id_value(tag@, f as int),
        decreases tag.len() + 1 - f,
    {
        proof {
            lemma_next_occurrence(tag@, pat@, f as int);
        }
        match crate::text::find_from(tag.as_slice(), pat.as_slice(), f) {
            None => {
                assert(next_occurrence(tag@, pat@, f as int) == -1) by {
                    let n = next_occurrence(tag@, pat@, f as int);
                    if n != -1 {
                        assert(crate::text::occurs_at(tag@, pat@, n));
                    }
                }
                return None;
            },
            Some(at) => {
                assert(at as int == next_occurrence(tag@, pat@, f as int)) by {
                    let n = next_occurrence(tag@, pat@, f as int);
                    if n == -1 {
                        assert(!crate::text::occurs_at(tag@, pat@, at as int));
                    }
                }
                if at > 0 && is_whitespace(tag[at - 1]) {
                    let v = slice_vec(tag.as_slice(), at + 4, tag.len());
                    assert(v@ == tag@.skip(at + 4));
                    proof {
                        lemma_next_char(v@, '"', 0);
                    }
                    return match next_char_exec(v.as_slice(), '"', 0) {
                        Some(q) => {
                            let r = slice_vec(v.as_slice(), 0, q);
                            assert(r@ == v@.take(q as int));
                            Some(r)
                        },
                        None => None,
                    };
                }
                f = at + 4;
            },
        }
    }
    None
}

/// One linear slice of a page: the lead (no heading) or an anchored
/// section: `(heading, body HTML)`, the heading as `(anchor, inner
/// HTML)`.
pub type SectionView = (Option<(Seq<char>, Seq<char>)>, Seq<char>);

/// Splits `s` linearly at each `<h2>`–`<h6>` heading with an `id`, from
/// `pos` on, the running slice starting at `start` under `heading`. A
/// subsection's heading ends its parent's slice; `<script>` and `<style>`
/// content is skipped as the text extractor skips it, so a `<h2` inside
/// script code never splits.
pub open spec fn sections_from(s: Seq<char>, pos: int, start: int, heading: Option<(Seq<char>, Seq<char>)>) -> Seq<SectionView>
    decreases s.len() - pos,
{
    let last = seq![(heading, s.subrange(start, s.len() as int))];
    if pos < 0 || pos > s.len() {
        last
    } else {
        let lt = next_char(s, '<', pos);
        proof {
            lemma_next_char(s, '<', pos);
            if lt >= 0 {
                lemma_next_char(s, '>', lt + 1);
            }
        }
        if lt < 0 {
            last
        } else {
            let gt = next_char(s, '>', lt + 1);
            if gt < 0 {
                last
            } else {
                let tag = s.subrange(lt + 1, gt);
                let after = gt + 1;
                let name = tag_name(tag);
                if name == "script"@ || name == "style"@ {
                    let closer = if name == "script"@ { "</script"@ } else { "</style"@ };
                    let ca = closer_at(s, closer, after);
                    proof {
                        lemma_closer_at(s, closer, after);
                        if ca >= 0 {
                            lemma_next_char(s, '>', ca);
                        }
                    }
                    if ca < 0 {
                        last
                    } else {
                        let g2 = next_char(s, '>', ca);
                        if g2 < 0 {
                            last
                        } else {
                            sections_from(s, g2 + 1, start, heading)
                        }
                    }
                } else if !section_heading(name) {
                    sections_from(s, after, start, heading)
                } else {
                    match id_value(tag, 0) {
                        None => sections_from(s, after, start, heading),
                        Some(id) => {
                            let closer = "</"@ + name;
                            let ca = closer_at(s, closer, after);
                            proof {
                                lemma_closer_at(s, closer, after);
                                if ca >= 0 {
                                    lemma_next_char(s, '>', ca);
                                }
                            }
                            if ca < 0 {
                                sections_from(s, after, start, heading)
                            } else {
                                let inner = s.subrange(after, ca);
                                let g2 = next_char(s, '>', ca);
                                let end = if g2 >= 0 { g2 + 1 } else { s.len() as int };
                                seq![(heading, s.subrange(start, lt))] + sections_from(s, end, end, Some((id, inner)))
                            }
                        },
                    }
                }
            }
        }
    }
}

/// Every split starts with the slice of the heading it started under,
/// and every later slice is an anchored section.
proof fn lemma_sections_shape(s: Seq<char>, pos: int, start: int, heading: Option<(Seq<char>, Seq<char>)>)
    ensures
        sections_from(s, pos, start, heading).len() >= 1,
        sections_from(s, pos, start, heading)[0].0 == heading,
        forall|k: int| 1 <= k < sections_from(s, pos, start, heading).len() ==> (#[trigger] sections_from(s, pos, start, heading)[k]).0 is Some,
    decreases s.len() - pos,
{
    if 0 <= pos <= s.len() {
        let lt = next_char(s, '<', pos);
        lemma_next_char(s, '<', pos);
        if lt >= 0 {
            lemma_next_char(s, '>', lt + 1);
            let gt = next_char(s, '>', lt + 1);
            if gt >= 0 {
                let tag = s.subrange(lt + 1, gt);
                let after = gt + 1;
                let name = tag_name(tag);
                if name == "script"@ || name == "style"@ {
                    let closer = if name == "script"@ { "</script"@ } else { "</style"@ };
                    let ca = closer_at(s, closer, after);
                    lemma_closer_at(s, closer, after);
                    if ca >= 0 {
                        lemma_next_char(s, '>', ca);
                        let g2 = next_char(s, '>', ca);
                        if g2 >= 0 {
                            lemma_sections_shape(s, g2 + 1, start, heading);
                        }
                    }
                } else if !section_heading(name) {
                    lemma_sections_shape(s, after, start, heading);
                } else {
                    match id_value(tag, 0) {
                        None => {
                            lemma_sections_shape(s, after, start, heading);
                        },
                        Some(id) => {
                            let closer = "</"@ + name;
                            let ca = closer_at(s, closer, after);
                            lemma_closer_at(s, closer, after);
                            if ca < 0 {
                                lemma_sections_shape(s, after, start, heading);
                            } else {
                                lemma_next_char(s, '>', ca);
                                let inner = s.subrange(after, ca);
                                let g2 = next_char(s, '>', ca);
                                let end = if g2 >= 0 { g2 + 1 } else { s.len() as int };
                                lemma_sections_shape(s, end, end, Some((id, inner)));
                                let rest = sections_from(s, end, end, Some((id, inner)));
                                let all = seq![(heading, s.subrange(start, lt))] + rest;
                                assert(sections_from(s, pos, start, heading) == all);
                                assert forall|k: int| 1 <= k < all.len() implies (#[trigger] all[k]).0 is Some by {
                                    assert(all[k] == rest[k - 1]);
                                }
                            }
                        },
                    }
                }
            }
        }
    }
}

/// A page's index entries start with exactly one lead entry, titled by
/// the page and linking to it; every later entry is a section entry
/// naming its page.
pub proof fn law_one_lead_entry_first(title: Seq<char>, url: Seq<char>, contents: Seq<char>, entries: Seq<SearchEntry>)
    requires
        entries.len() == sections_from(contents, 0, 0, None).len(),
        forall|i: int| 0 <= i < entries.len() ==> entry_of(#[trigger] entries[i], title, url, sections_from(contents, 0, 0, None)[i]),
    ensures
        entries.len() >= 1,
        entries[0].page is None,
        entries[0].title@ == title,
        entries[0].url@ == url,
        forall|k: int| 1 <= k < entries.len() ==> (#[trigger] entries[k]).page is Some,
{
    lemma_sections_shape(contents, 0, 0, None);
    let secs = sections_from(contents, 0, 0, None);
    assert(entry_of(entries[0], title, url, secs[0]));
    assert forall|k: int| 1 <= k < entries.len() implies (#[trigger] entries[k]).page is Some by {
        assert(entry_of(entries[k], title, url, secs[k]));
        assert(secs[k].0 is Some);
    }
}

/// A slice of a page, as characters.
struct Section {
    heading: Option<(Vec<char>, Vec<char>)>,
    body: Vec<char>,
}

/// The text of a slice's heading.
pub open spec fn heading_view(heading: Option<(Vec<char>, Vec<char>)>) -> Option<(Seq<char>, Seq<char>)> {
    match heading {
        Some((a, t)) => Some((a@, t@)),
        None => None,
    }
}

/// The text of a slice.
pub open spec fn section_view(heading: Option<(Vec<char>, Vec<char>)>, body: Vec<char>) -> SectionView {
    (heading_view(heading), body@)
}

/// Splits rendered page HTML linearly at each `<h2>`–`<h6>` heading with
/// an `id`.
fn split_sections(s: &[char]) -> (r: Vec<Section>)
    ensures
        Seq::new(r@.len(), |i: int| section_view(r@[i].heading, r@[i].body)) == sections_from(s@, 0, 0, None),
{
    let lower = lower_chars(s);
    let script = chars_of("script");
    let style = chars_of("style");
    let script_closer = chars_of("</script");
    let style_closer = chars_of("</style");
    proof {
        reveal_strlit("</script");
        reveal_strlit("</style");
        reveal_strlit("</");
    }
    let ghost goal = sections_from(s@, 0, 0, None);
    let mut sections: Vec<Section> = Vec::new();
    let mut heading: Option<(Vec<char>, Vec<char>)> = None;
    let mut start: usize = 0;
    let mut pos: usize = 0;
    let mut done = false;
    while !done
        invariant
            start <= pos <= s@.len(),
            lower@ == crate::text::lower_seq(s@),
            script@ == "script"@,
            style@ == "style"@,
            script_closer@ == "</script"@,
            style_closer@ == "</style"@,
            script_closer@.len() > 0,
            style_closer@.len() > 0,
            done ==> goal == Seq::new(sections@.len(), |i: int| section_view(sections@[i].heading, sections@[i].body)),
            !done ==> goal == Seq::new(sections@.len(), |i: int| section_view(sections@[i].heading, sections@[i].body))
                + sections_from(s@, pos as int, start as int, heading_view(heading)),
        decreases (if done { 0 } else { s@.len() + 1 - pos }),
    {
        proof {
            lemma_next_char(s@, '<', pos as int);
        }
        let ghost prefix = Seq::new(sections@.len(), |i: int| section_view(sections@[i].heading, sections@[i].body));
        let mut finish = false;
        match next_char_exec(s, '<', pos) {
            None => {
                finish = true;
            },
            Some(lt) => {
                assert(lt < s.len());
                proof {
                    lemma_next_char(s@, '>', lt + 1);
                }
                match next_char_exec(s, '>', lt + 1) {
                    None => {
                        finish = true;
                    },
                    Some(gt) => {
                        let name = tag_name_exec(s, lt + 1, gt);
                        let after = gt + 1;
                        let is_script = crate::text::chars_eq(name.as_slice(), script.as_slice());
                        let is_style = crate::text::chars_eq(name.as_slice(), style.as_slice());
                        if is_script || is_style {
                            let closer = if is_script { &script_closer } else { &style_closer };
                            proof {
                                lemma_closer_at(s@, closer@, after as int);
                            }
                            match find_closer(s, lower.as_slice(), closer.as_slice(), after) {
                                None => {
                                    finish = true;
                                },
                                Some(ca) => {
                                    proof {
                                        lemma_next_char(s@, '>', ca as int);
                                    }
                                    match next_char_exec(s, '>', ca) {
                                        None => {
                                            finish = true;
                                        },
                                        Some(g2) => {
                                            assert(g2 < s.len());
                                            pos = g2 + 1;
                                        },
                                    }
                                },
                            }
                        } else if !is_section_heading(name.as_slice()) {
                            pos = after;
                        } else {
                            match id_attr(s, lt + 1, gt) {
                                None => {
                                    pos = after;
                                },
                                Some(id) => {
                                    let mut closer = chars_of("</");
                                    let mut k: usize = 0;
                                    let ghost c0 = closer@;
                                    while k < name.len()
                                        invariant
                                            k <= name@.len(),
                                            closer@ == c0 + name@.take(k as int),
                                        decreases name.len() - k,
                                    {
                                        closer.push(name[k]);
                                        k += 1;
                                        assert(name@.take(k as int) == name@.take(k - 1).push(name@[k - 1]));
                                    }
                                    assert(name@.take(name@.len() as int) == name@);
                                    proof {
                                        reveal_strlit("</");
                                        lemma_closer_at(s@, closer@, after as int);
                                    }
                                    match find_closer(s, lower.as_slice(), closer.as_slice(), after) {
                                        None => {
                                            pos = after;
                                        },
                                        Some(ca) => {
                                            proof {
                                                lemma_next_char(s@, '>', ca as int);
                                            }
                                            let inner = slice_vec(s, after, ca);
                                            let end: usize = match next_char_exec(s, '>', ca) {
                                                Some(g2) => {
                                                    assert(g2 < s.len());
                                                    g2 + 1
                                                },
                                                None => s.len(),
                                            };
                                            let body = slice_vec(s, start, lt);
                                            let prev = heading;
                                            sections.push(Section { heading: prev, body });
                                            heading = Some((id, inner));
                                            start = end;
                                            pos = end;
                                        },
                                    }
                                },
                            }
                        }
                    },
                }
            },
        }
        if finish {
            let body = slice_vec(s, start, s.len());
            let last = heading;
            heading = None;
            sections.push(Section { heading: last, body });
            done = true;
        }
    }
    sections
}

/// One searchable page or page section.
#[derive(Clone, Debug, PartialEq)]
pub struct SearchEntry {
    /// The page or section title (plain text).
    pub title: String,
    /// Site-root-relative URL, with a `#fragment` for section entries.
    pub url: String,
    /// The entry's visible text, whitespace-collapsed.
    pub text: String,
    /// For a section entry, the title of the page it belongs to; `None`
    /// for a page's lead entry.
    pub page: Option<String>,
}

/// Whether `e` is the entry of one slice of a page.
pub open spec fn entry_of(e: SearchEntry, title: Seq<char>, url: Seq<char>, sec: SectionView) -> bool {
    match sec.0 {
        None => e.title@ == title && e.url@ == url && e.text@ == html_text(sec.1) && e.page is None,
        Some((anchor, heading)) => e.title@ == html_text(heading) && e.url@ == url + "#"@ + anchor && e.text@
            == html_text(sec.1) && crate::model::resource::opt_view(e.page) == Some(title),
    }
}

impl SearchEntry {
    /// Builds a single whole-page entry from a rendered page's embedded
    /// HTML. [`page_entries`] is the section-aware sibling the site build
    /// uses.
    pub fn from_html(title: &str, url: &str, contents: &str) -> (r: Self)
        ensures
            r.title@ == title@,
            r.url@ == url@,
            r.text@ == html_text(contents@),
            r.page is None,
    {
        SearchEntry {
            title: crate::text::owned(title),
            url: crate::text::owned(url),
            text: html_to_text(contents),
            page: None,
        }
    }
}

/// Builds the index entries for one page: a lead entry (page title, text
/// before the first section heading) plus one entry per `<h2>`–`<h6>`
/// heading that carries an `id`, anchored with `#id` and holding the text
/// up to the next such heading. A heading without an `id` cannot be
/// linked, so its text merges into the enclosing entry.
pub fn page_entries(title: &str, url: &str, contents: &str) -> (r: Vec<SearchEntry>)
    ensures
        r@.len() == sections_from(contents@, 0, 0, None).len(),
        forall|i: int| 0 <= i < r@.len() ==> entry_of(#[trigger] r@[i], title@, url@, sections_from(contents@, 0, 0, None)[i]),
{
    let c = chars_of(contents);
    let sections = split_sections(c.as_slice());
    let ghost secs = sections_from(contents@, 0, 0, None);
    let mut out: Vec<SearchEntry> = Vec::new();
    let mut i: usize = 0;
    while i < sections.len()
        invariant
            i <= sections@.len(),
            secs == sections_from(contents@, 0, 0, None),
            Seq::new(sections@.len(), |k: int| section_view(sections@[k].heading, sections@[k].body)) == secs,
            out@.len() == i,
            forall|k: int| 0 <= k < i ==> entry_of(#[trigger] out@[k], title@, url@, secs[k]),
        decreases sections.len() - i,
    {
        let sec = &sections[i];
        assert(section_view(sec.heading, sec.body) == secs[i as int]);
        let text = text_of(sec.body.as_slice());
        let entry = match &sec.heading {
            None => SearchEntry { title: crate::text::owned(title), url: crate::text::owned(url), text, page: None },
            Some((anchor, heading)) => {
                let mut u = crate::text::owned(url);
                push_str(&mut u, "#");
                push_chars(&mut u, anchor.as_slice());
                SearchEntry { title: text_of(heading.as_slice()), url: u, text, page: Some(crate::text::owned(title)) }
            },
        };
        out.push(entry);
        i += 1;
    }
    out
}

} // verus!
