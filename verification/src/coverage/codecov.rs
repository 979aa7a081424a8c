//! The Codecov projection: block states mapped onto the pages' own
//! source lines.
//!
//! Every line of a `verified` block is hit (`1`); every line of a
//! `planned`, `uncovered` or `unclassified` block is missed (`0`); lines
//! of `out-of-scope` and `non-normative` blocks, and lines that belong
//! to no block, are left out. Pages that share a repository path share
//! one line table, in which a verified line wins.

use vstd::prelude::*;

use crate::coverage::model::{BlockCoverage, BlockState, PageRecord};
use crate::coverage::resolve::CoverageDatabase;
use crate::text::{owned, str_eq};

verus! {

/// What a block in `state` contributes to each of its lines, if anything.
pub open spec fn projected_hit(state: BlockState) -> Option<u8> {
    match state {
        BlockState::Verified => Some(1u8),
        BlockState::Planned | BlockState::Uncovered | BlockState::Unclassified => Some(0u8),
        BlockState::OutOfScope | BlockState::NonNormative => None,
    }
}

/// The number of lines a block spans on the page: at least one.
pub open spec fn span_of(count: u32) -> int {
    if count == 0 { 1 } else { count as int }
}

/// Whether a block's line span holds `line`.
pub open spec fn covers(b: BlockCoverage, line: int) -> bool {
    match b.page_lines {
        Some((start, count)) => start <= line < start + span_of(count),
        None => false,
    }
}

/// Two contributions to one line combined: the higher wins.
pub open spec fn join(a: Option<u8>, b: Option<u8>) -> Option<u8> {
    match (a, b) {
        (None, y) => y,
        (x, None) => x,
        (Some(x), Some(y)) => Some(if x < y { y } else { x }),
    }
}

/// What one block contributes to `line`.
pub open spec fn block_level(b: BlockCoverage, line: int) -> Option<u8> {
    if covers(b, line) { projected_hit(b.state) } else { None }
}

/// What a run of blocks contributes to `line`.
pub open spec fn blocks_level(bs: Seq<BlockCoverage>, line: int) -> Option<u8>
    decreases bs.len(),
{
    if bs.len() == 0 {
        None
    } else {
        join(blocks_level(bs.drop_last(), line), block_level(bs.last(), line))
    }
}

/// The projected value of `line` of the file at `path`, over every page
/// stored there.
pub open spec fn pages_level(ps: Seq<PageRecord>, path: Seq<char>, line: int) -> Option<u8>
    decreases ps.len(),
{
    if ps.len() == 0 {
        None
    } else {
        join(
            pages_level(ps.drop_last(), path, line),
            if ps.last().repo_path@ == path { blocks_level(ps.last().coverage.blocks@, line) } else { None },
        )
    }
}

/// Whether no two entries of a line table name the same line.
pub open spec fn distinct_lines(s: Seq<(u32, u8)>) -> bool {
    forall|a: int, b: int| 0 <= a < b < s.len() ==> s[a].0 != s[b].0
}

/// The value a line table records for `line`, if any.
pub open spec fn lookup(s: Seq<(u32, u8)>, line: int) -> Option<u8> {
    if exists|m: int| 0 <= m < s.len() && s[m].0 == line {
        Some(s[choose|m: int| 0 <= m < s.len() && s[m].0 == line].1)
    } else {
        None
    }
}

/// Whether a block's span ends within `u32`.
pub open spec fn span_fits(b: BlockCoverage) -> bool {
    match b.page_lines {
        Some((start, count)) => start + span_of(count) <= u32::MAX,
        None => true,
    }
}

/// Whether every block's span ends within `u32`.
pub open spec fn spans_fit(pages: Seq<PageRecord>) -> bool {
    forall|i: int, j: int|
        0 <= i < pages.len() && 0 <= j < pages[i].coverage.blocks@.len()
            ==> span_fits(#[trigger] pages[i].coverage.blocks@[j])
}

/// In a table without repeated lines, the entry at `m` is what it records.
proof fn lemma_lookup_at(s: Seq<(u32, u8)>, m: int)
    requires
        distinct_lines(s),
        0 <= m < s.len(),
    ensures
        lookup(s, s[m].0 as int) == Some(s[m].1),
{
    let l = s[m].0 as int;
    assert(exists|k: int| 0 <= k < s.len() && s[k].0 == l);
    let k = choose|k: int| 0 <= k < s.len() && s[k].0 == l;
    if k != m {
        if k < m {
            assert(s[k].0 != s[m].0);
        } else {
            assert(s[m].0 != s[k].0);
        }
    }
}

/// Records `hit` for `line`, keeping the higher value where the line is
/// already there.
fn merge_line(acc: &mut Vec<(u32, u8)>, line: u32, hit: u8)
    requires
        distinct_lines(old(acc)@),
    ensures
        distinct_lines(final(acc)@),
        forall|l: int| #[trigger] lookup(final(acc)@, l)
            == if l == line { join(lookup(old(acc)@, l), Some(hit)) } else { lookup(old(acc)@, l) },
{
    let ghost s0 = acc@;
    let mut m: usize = 0;
    while m < acc.len()
        invariant
            acc@ == s0,
            s0 == old(acc)@,
            distinct_lines(s0),
            m <= acc.len(),
            forall|k: int| 0 <= k < m ==> acc@[k].0 != line,
        decreases acc.len() - m,
    {
        if acc[m].0 == line {
            let old_hit = acc[m].1;
            let new_hit = if old_hit < hit { hit } else { old_hit };
            acc.set(m, (line, new_hit));
            proof {
                let s1 = acc@;
                assert forall|a: int, b: int| 0 <= a < b < s1.len() implies s1[a].0 != s1[b].0 by {
                    assert(s0[a].0 != s0[b].0);
                }
                lemma_lookup_at(s0, m as int);
                lemma_lookup_at(s1, m as int);
                assert forall|l: int| #[trigger] lookup(s1, l)
                    == if l == line { join(lookup(s0, l), Some(hit)) } else { lookup(s0, l) } by {
                    if l != line {
                        if exists|k: int| 0 <= k < s0.len() && s0[k].0 == l {
                            let k = choose|k: int| 0 <= k < s0.len() && s0[k].0 == l;
                            lemma_lookup_at(s0, k);
                            lemma_lookup_at(s1, k);
                        } else {
                            assert(!exists|k: int| 0 <= k < s1.len() && s1[k].0 == l);
                        }
                    }
                }
            }
            return;
        }
        m += 1;
    }
    acc.push((line, hit));
    proof {
        let s1 = acc@;
        assert(!exists|k: int| 0 <= k < s0.len() && s0[k].0 == line);
        lemma_lookup_at(s1, s0.len() as int);
        assert forall|l: int| #[trigger] lookup(s1, l)
            == if l == line { join(lookup(s0, l), Some(hit)) } else { lookup(s0, l) } by {
            if l != line {
                if exists|k: int| 0 <= k < s0.len() && s0[k].0 == l {
                    let k = choose|k: int| 0 <= k < s0.len() && s0[k].0 == l;
                    lemma_lookup_at(s0, k);
                    lemma_lookup_at(s1, k);
                } else {
                    assert(!exists|k: int| 0 <= k < s1.len() && s1[k].0 == l);
                }
            }
        }
    }
}

/// Combining contributions is associative.
proof fn lemma_join_assoc(a: Option<u8>, b: Option<u8>, c: Option<u8>)
    ensures
        join(join(a, b), c) == join(a, join(b, c)),
{
}

/// Records `hit` for every line from `start` up to `start + n`.
fn merge_range(acc: &mut Vec<(u32, u8)>, start: u32, n: u32, hit: u8)
    requires
        distinct_lines(old(acc)@),
        start + n <= u32::MAX,
    ensures
        distinct_lines(final(acc)@),
        forall|l: int| #[trigger] lookup(final(acc)@, l)
            == if start <= l < start + n { join(lookup(old(acc)@, l), Some(hit)) } else { lookup(old(acc)@, l) },
{
    let ghost s0 = acc@;
    let end: u32 = start + n;
    let mut line: u32 = start;
    while line < end
        invariant
            start <= line <= end,
            end == start + n,
            distinct_lines(acc@),
            forall|l: int| #[trigger] lookup(acc@, l)
                == if start <= l < line { join(lookup(s0, l), Some(hit)) } else { lookup(s0, l) },
        decreases end - line,
    {
        let ghost before = acc@;
        merge_line(acc, line, hit);
        proof {
            assert forall|l: int| #[trigger] lookup(acc@, l)
                == if start <= l < line + 1 { join(lookup(s0, l), Some(hit)) } else { lookup(s0, l) } by {
                assert(lookup(before, l)
                    == if start <= l < line { join(lookup(s0, l), Some(hit)) } else { lookup(s0, l) });
            }
        }
        line += 1;
    }
}

/// The hit a block in `state` contributes, if any.
fn hit_of(state: BlockState) -> (r: Option<u8>)
    ensures
        r == projected_hit(state),
{
    match state {
        BlockState::Verified => Some(1u8),
        BlockState::Planned | BlockState::Uncovered | BlockState::Unclassified => Some(0u8),
        BlockState::OutOfScope | BlockState::NonNormative => None,
    }
}

/// Records what one block contributes to its lines.
fn merge_block(acc: &mut Vec<(u32, u8)>, b: &BlockCoverage)
    requires
        distinct_lines(old(acc)@),
        span_fits(*b),
    ensures
        distinct_lines(final(acc)@),
        forall|l: int| #[trigger] lookup(final(acc)@, l) == join(lookup(old(acc)@, l), block_level(*b, l)),
{
    match (b.page_lines, hit_of(b.state)) {
        (Some((start, count)), Some(hit)) => {
            let n: u32 = if count == 0 { 1 } else { count };
            merge_range(acc, start, n, hit);
        },
        _ => {},
    }
}

/// Records what a run of blocks contributes to its lines.
fn merge_blocks(acc: &mut Vec<(u32, u8)>, bs: &Vec<BlockCoverage>)
    requires
        distinct_lines(old(acc)@),
        forall|j: int| 0 <= j < bs@.len() ==> span_fits(#[trigger] bs@[j]),
    ensures
        distinct_lines(final(acc)@),
        forall|l: int| #[trigger] lookup(final(acc)@, l) == join(lookup(old(acc)@, l), blocks_level(bs@, l)),
{
    let ghost s0 = acc@;
    let mut j: usize = 0;
    while j < bs.len()
        invariant
            j <= bs.len(),
            distinct_lines(acc@),
            forall|k: int| 0 <= k < bs@.len() ==> span_fits(#[trigger] bs@[k]),
            forall|l: int| #[trigger] lookup(acc@, l) == join(lookup(s0, l), blocks_level(bs@.take(j as int), l)),
        decreases bs.len() - j,
    {
        let ghost before = acc@;
        merge_block(acc, &bs[j]);
        proof {
            let t = bs@.take(j as int + 1);
            assert(t.drop_last() == bs@.take(j as int));
            assert(t.last() == bs@[j as int]);
            assert forall|l: int| #[trigger] lookup(acc@, l) == join(lookup(s0, l), blocks_level(t, l)) by {
                assert(lookup(before, l) == join(lookup(s0, l), blocks_level(bs@.take(j as int), l)));
                lemma_join_assoc(lookup(s0, l), blocks_level(bs@.take(j as int), l), block_level(bs@[j as int], l));
            }
        }
        j += 1;
    }
    proof {
        assert(bs@.take(bs@.len() as int) == bs@);
    }
}

/// The line table of the file at `path`: every line some block of a page
/// stored there projects onto, with its value.
fn path_lines(pages: &Vec<PageRecord>, path: &str) -> (r: Vec<(u32, u8)>)
    requires
        spans_fit(pages@),
    ensures
        distinct_lines(r@),
        forall|l: int| #[trigger] lookup(r@, l) == pages_level(pages@, path@, l),
{
    let mut acc: Vec<(u32, u8)> = Vec::new();
    let mut i: usize = 0;
    while i < pages.len()
        invariant
            i <= pages.len(),
            spans_fit(pages@),
            distinct_lines(acc@),
            forall|l: int| #[trigger] lookup(acc@, l) == pages_level(pages@.take(i as int), path@, l),
        decreases pages.len() - i,
    {
        let ghost before = acc@;
        let page = &pages[i];
        if str_eq(page.repo_path.as_str(), path) {
            proof {
                assert forall|j: int| 0 <= j < page.coverage.blocks@.len() implies span_fits(
                    #[trigger] page.coverage.blocks@[j],
                ) by {
                    assert(span_fits(pages@[i as int].coverage.blocks@[j]));
                }
            }
            merge_blocks(&mut acc, &page.coverage.blocks);
        }
        proof {
            let t = pages@.take(i as int + 1);
            assert(t.drop_last() == pages@.take(i as int));
            assert(t.last() == pages@[i as int]);
            assert forall|l: int| #[trigger] lookup(acc@, l) == pages_level(t, path@, l) by {
                assert(lookup(before, l) == pages_level(pages@.take(i as int), path@, l));
            }
        }
        i += 1;
    }
    proof {
        assert(pages@.take(pages@.len() as int) == pages@);
    }
    acc
}

/// Whether every entry of `out` names a file of one of the first `n` pages.
#[verifier::opaque]
pub open spec fn entries_from(out: Seq<(String, Vec<(u32, u8)>)>, pages: Seq<PageRecord>, n: int) -> bool {
    forall|k: int| 0 <= k < out.len()
        ==> exists|p: int| 0 <= p < n && pages[p].repo_path@ == (#[trigger] out[k]).0@
}

/// Whether the file of each of the first `n` pages has an entry in `out`.
#[verifier::opaque]
pub open spec fn entries_cover(out: Seq<(String, Vec<(u32, u8)>)>, pages: Seq<PageRecord>, n: int) -> bool {
    forall|p: int| 0 <= p < n
        ==> exists|k: int| 0 <= k < out.len() && out[k].0@ == (#[trigger] pages[p]).repo_path@
}

/// Whether no two entries of `out` name the same file.
pub open spec fn distinct_paths(out: Seq<(String, Vec<(u32, u8)>)>) -> bool {
    forall|a: int, b: int| 0 <= a < b < out.len() ==> out[a].0@ != out[b].0@
}

/// Whether each entry's line table is the projection of its file.
pub open spec fn tables_project(out: Seq<(String, Vec<(u32, u8)>)>, pages: Seq<PageRecord>) -> bool {
    &&& forall|k: int| 0 <= k < out.len() ==> distinct_lines((#[trigger] out[k]).1@)
    &&& forall|k: int, l: int| 0 <= k < out.len() ==> #[trigger] lookup(out[k].1@, l) == pages_level(pages, out[k].0@, l)
}

/// Adding the entry of a page's file: every entry still names a page's
/// file.
proof fn lemma_push_from(before: Seq<(String, Vec<(u32, u8)>)>, entry: (String, Vec<(u32, u8)>), pages: Seq<PageRecord>, i: int)
    requires
        0 <= i < pages.len(),
        entries_from(before, pages, pages.len() as int),
        entry.0@ == pages[i].repo_path@,
    ensures
        entries_from(before.push(entry), pages, pages.len() as int),
{
    reveal(entries_from);
    let out = before.push(entry);
    assert forall|k: int| 0 <= k < out.len() implies exists|p: int|
        0 <= p < pages.len() && pages[p].repo_path@ == (#[trigger] out[k]).0@ by {
        if k < before.len() {
            assert(before[k] == out[k]);
            let p = choose|p: int| 0 <= p < pages.len() && pages[p].repo_path@ == before[k].0@;
            assert(0 <= p < pages.len() && pages[p].repo_path@ == out[k].0@);
        } else {
            assert(0 <= i < pages.len() && pages[i].repo_path@ == out[k].0@);
        }
    }
}

/// Adding the entry of a file not seen yet: every page's file has one.
proof fn lemma_push_cover(before: Seq<(String, Vec<(u32, u8)>)>, entry: (String, Vec<(u32, u8)>), pages: Seq<PageRecord>, i: int)
    requires
        0 <= i < pages.len(),
        entries_cover(before, pages, i),
        entry.0@ == pages[i].repo_path@,
    ensures
        entries_cover(before.push(entry), pages, i + 1),
{
    reveal(entries_cover);
    let out = before.push(entry);
    assert forall|p: int| 0 <= p < i + 1 implies exists|k: int|
        0 <= k < out.len() && out[k].0@ == (#[trigger] pages[p]).repo_path@ by {
        if p < i {
            let k = choose|k: int| 0 <= k < before.len() && before[k].0@ == pages[p].repo_path@;
            assert(out[k] == before[k]);
            assert(0 <= k < out.len() && out[k].0@ == pages[p].repo_path@);
        } else {
            assert(out[out.len() - 1].0@ == pages[p].repo_path@);
        }
    }
}

/// Adding the entry of a file not seen yet keeps the paths distinct and
/// the tables right.
proof fn lemma_push_tables(
    before: Seq<(String, Vec<(u32, u8)>)>,
    entry: (String, Vec<(u32, u8)>),
    pages: Seq<PageRecord>,
)
    requires
        distinct_paths(before),
        tables_project(before, pages),
        forall|q: int| 0 <= q < before.len() ==> before[q].0@ != entry.0@,
        distinct_lines(entry.1@),
        forall|l: int| #[trigger] lookup(entry.1@, l) == pages_level(pages, entry.0@, l),
    ensures
        distinct_paths(before.push(entry)),
        tables_project(before.push(entry), pages),
{
    let out = before.push(entry);
    assert forall|k: int| 0 <= k < out.len() implies distinct_lines((#[trigger] out[k]).1@) by {
        if k < before.len() {
            assert(before[k] == out[k]);
        }
    }
    assert forall|k: int, l: int| 0 <= k < out.len() implies #[trigger] lookup(out[k].1@, l)
        == pages_level(pages, out[k].0@, l) by {
        if k < before.len() {
            assert(before[k] == out[k]);
        }
    }
}

/// A page whose file already has an entry: every page's file has one.
proof fn lemma_seen_cover(out: Seq<(String, Vec<(u32, u8)>)>, pages: Seq<PageRecord>, i: int, q: int)
    requires
        0 <= i < pages.len(),
        entries_cover(out, pages, i),
        0 <= q < out.len(),
        out[q].0@ == pages[i].repo_path@,
    ensures
        entries_cover(out, pages, i + 1),
{
    reveal(entries_cover);
    assert forall|p: int| 0 <= p < i + 1 implies exists|k: int|
        0 <= k < out.len() && out[k].0@ == (#[trigger] pages[p]).repo_path@ by {
        if p == i {
            assert(0 <= q < out.len() && out[q].0@ == pages[p].repo_path@);
        } else {
            let k = choose|k: int| 0 <= k < out.len() && out[k].0@ == pages[p].repo_path@;
            assert(0 <= k < out.len() && out[k].0@ == pages[p].repo_path@);
        }
    }
}

/// The Codecov projection of a coverage database: one entry per distinct
/// repository path of a measured page, each with its line table (every
/// projected line once, with its value).
pub fn codecov_projection(db: &CoverageDatabase) -> (r: Vec<(String, Vec<(u32, u8)>)>)
    requires
        spans_fit(db.pages@),
    ensures
        entries_from(r@, db.pages@, db.pages@.len() as int),
        entries_cover(r@, db.pages@, db.pages@.len() as int),
        distinct_paths(r@),
        tables_project(r@, db.pages@),
{
    let mut out: Vec<(String, Vec<(u32, u8)>)> = Vec::new();
    proof {
        reveal(entries_from);
        reveal(entries_cover);
    }
    let mut i: usize = 0;
    while i < db.pages.len()
        invariant
            i <= db.pages.len(),
            spans_fit(db.pages@),
            entries_from(out@, db.pages@, db.pages@.len() as int),
            entries_cover(out@, db.pages@, i as int),
            distinct_paths(out@),
            tables_project(out@, db.pages@),
        decreases db.pages.len() - i,
    {
        let path = db.pages[i].repo_path.as_str();
        let mut seen = false;
        let mut k: usize = 0;
        while k < out.len()
            invariant
                k <= out.len(),
                seen ==> exists|q: int| 0 <= q < out@.len() && out@[q].0@ == path@,
                !seen ==> forall|q: int| 0 <= q < k ==> out@[q].0@ != path@,
            decreases out.len() - k,
        {
            if str_eq(out[k].0.as_str(), path) {
                seen = true;
            }
            k += 1;
        }
        if !seen {
            let lines = path_lines(&db.pages, path);
            let ghost before = out@;
            let entry = (owned(path), lines);
            proof {
                lemma_push_from(before, entry, db.pages@, i as int);
                lemma_push_cover(before, entry, db.pages@, i as int);
                lemma_push_tables(before, entry, db.pages@);
            }
            out.push(entry);
        } else {
            proof {
                let q = choose|q: int| 0 <= q < out@.len() && out@[q].0@ == path@;
                lemma_seen_cover(out@, db.pages@, i as int, q);
            }
        }
        i += 1;
    }
    out
}

/// Whether some block of the run projects `hit` onto `line`.
pub open spec fn some_block_projects(bs: Seq<BlockCoverage>, line: int, hit: u8) -> bool {
    exists|j: int| 0 <= j < bs.len() && #[trigger] block_level(bs[j], line) == Some(hit)
}

/// Whether some block of a page stored at `path` projects `hit` onto
/// `line`.
pub open spec fn some_page_projects(ps: Seq<PageRecord>, path: Seq<char>, line: int, hit: u8) -> bool {
    exists|i: int| 0 <= i < ps.len() && (#[trigger] ps[i]).repo_path@ == path
        && some_block_projects(ps[i].coverage.blocks@, line, hit)
}

/// The value the projection gives a line when these are its
/// contributions: hit if any is, else missed if any is, else nothing.
pub open spec fn verdict(hit: bool, missed: bool) -> Option<u8> {
    if hit { Some(1u8) } else if missed { Some(0u8) } else { None }
}

/// A run of blocks projects the highest of its blocks' values.
proof fn lemma_blocks_level(bs: Seq<BlockCoverage>, line: int)
    ensures
        blocks_level(bs, line) == verdict(some_block_projects(bs, line, 1), some_block_projects(bs, line, 0)),
    decreases bs.len(),
{
    if bs.len() > 0 {
        let front = bs.drop_last();
        lemma_blocks_level(front, line);
        let b = bs.last();
        assert forall|h: u8| some_block_projects(bs, line, h)
            <==> (some_block_projects(front, line, h) || block_level(b, line) == Some(h)) by {
            if some_block_projects(bs, line, h) {
                let j = choose|j: int| 0 <= j < bs.len() && #[trigger] block_level(bs[j], line) == Some(h);
                if j < bs.len() - 1 {
                    assert(front[j] == bs[j]);
                }
            }
            if some_block_projects(front, line, h) {
                let j = choose|j: int| 0 <= j < front.len() && #[trigger] block_level(front[j], line) == Some(h);
                assert(front[j] == bs[j]);
            }
            if block_level(b, line) == Some(h) {
                assert(bs[bs.len() - 1] == b);
            }
        }
        assert(some_block_projects(bs, line, 1) <==> (some_block_projects(front, line, 1) || block_level(b, line) == Some(1u8)));
        assert(some_block_projects(bs, line, 0) <==> (some_block_projects(front, line, 0) || block_level(b, line) == Some(0u8)));
    }
}

/// The Codecov projection rule: a line of the file at `path` is hit (`1`)
/// when a verified block of some page stored there spans it, missed (`0`)
/// when only planned, uncovered or unclassified blocks span it, and
/// absent otherwise. So a verified line wins across the versions that
/// share a path, and out-of-scope and non-normative blocks leave no line.
pub proof fn law_codecov_projection(ps: Seq<PageRecord>, path: Seq<char>, line: int)
    ensures
        pages_level(ps, path, line) == verdict(
            some_page_projects(ps, path, line, 1),
            some_page_projects(ps, path, line, 0),
        ),
        forall|h: u8| some_page_projects(ps, path, line, h) ==> h == 0 || h == 1,
    decreases ps.len(),
{
    if ps.len() > 0 {
        let front = ps.drop_last();
        law_codecov_projection(front, path, line);
        let p = ps.last();
        lemma_blocks_level(p.coverage.blocks@, line);
        assert forall|h: u8| some_page_projects(ps, path, line, h)
            <==> (some_page_projects(front, path, line, h)
                || (p.repo_path@ == path && some_block_projects(p.coverage.blocks@, line, h))) by {
            if some_page_projects(ps, path, line, h) {
                let i = choose|i: int| 0 <= i < ps.len() && (#[trigger] ps[i]).repo_path@ == path
                    && some_block_projects(ps[i].coverage.blocks@, line, h);
                if i < ps.len() - 1 {
                    assert(front[i] == ps[i]);
                }
            }
            if some_page_projects(front, path, line, h) {
                let i = choose|i: int| 0 <= i < front.len() && (#[trigger] front[i]).repo_path@ == path
                    && some_block_projects(front[i].coverage.blocks@, line, h);
                assert(front[i] == ps[i]);
            }
            if p.repo_path@ == path && some_block_projects(p.coverage.blocks@, line, h) {
                assert(ps[ps.len() - 1] == p);
            }
        }
        assert forall|h: u8| some_block_projects(p.coverage.blocks@, line, h) implies h == 0 || h == 1 by {
            let j = choose|j: int| 0 <= j < p.coverage.blocks@.len()
                && #[trigger] block_level(p.coverage.blocks@[j], line) == Some(h);
        }
        assert(some_page_projects(ps, path, line, 1) <==> (some_page_projects(front, path, line, 1)
            || (p.repo_path@ == path && some_block_projects(p.coverage.blocks@, line, 1))));
        assert(some_page_projects(ps, path, line, 0) <==> (some_page_projects(front, path, line, 0)
            || (p.repo_path@ == path && some_block_projects(p.coverage.blocks@, line, 0))));
    }
}

} // verus!
