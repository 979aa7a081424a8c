//! Per-component rollups of the coverage database.

use vstd::prelude::*;

use crate::coverage::model::{Claim, PageRecord, StateCounts, BlockState, count_of};
use crate::coverage::resolve::CoverageDatabase;
use crate::model::catalog::{Coords, copy_opt, opt_eq};
use crate::model::resource::opt_view;
use crate::text::{chars_of, owned};

verus! {

/// One component version's rolled-up counts: `((component, version),
/// counts)`.
pub type ComponentRollup = ((String, Option<String>), StateCounts);

/// The rollup key of a page: its component and version.
pub open spec fn rollup_key(p: PageRecord) -> (Seq<char>, Option<Seq<char>>) {
    (p.coords@.component, p.coords@.version)
}

/// The text of a rollup's key.
pub open spec fn rollup_key_view(k: (String, Option<String>)) -> (Seq<char>, Option<Seq<char>>) {
    (k.0@, opt_view(k.1))
}

/// The sum of one state's count over pages.
pub open spec fn total_count(pages: Seq<PageRecord>, s: BlockState) -> int
    decreases pages.len(),
{
    if pages.len() == 0 {
        0
    } else {
        total_count(pages.drop_last(), s) + count_of(pages.last().coverage.counts, s)
    }
}

/// The sum of one state's count over the pages of one component version.
pub open spec fn key_count(pages: Seq<PageRecord>, key: (Seq<char>, Option<Seq<char>>), s: BlockState) -> int
    decreases pages.len(),
{
    if pages.len() == 0 {
        0
    } else {
        key_count(pages.drop_last(), key, s) + if rollup_key(pages.last()) == key {
            count_of(pages.last().coverage.counts, s)
        } else {
            0
        }
    }
}

/// A component version's sum is part of the site's.
proof fn lemma_key_count_bounds(pages: Seq<PageRecord>, key: (Seq<char>, Option<Seq<char>>), s: BlockState)
    ensures
        0 <= key_count(pages, key, s) <= total_count(pages, s),
    decreases pages.len(),
{
    if pages.len() > 0 {
        lemma_key_count_bounds(pages.drop_last(), key, s);
    }
}

/// A component version no page has sums to nothing.
proof fn lemma_key_count_absent(pages: Seq<PageRecord>, key: (Seq<char>, Option<Seq<char>>), s: BlockState)
    requires
        forall|i: int| 0 <= i < pages.len() ==> rollup_key(#[trigger] pages[i]) != key,
    ensures
        key_count(pages, key, s) == 0,
    decreases pages.len(),
{
    if pages.len() > 0 {
        assert(rollup_key(pages[pages.len() - 1]) != key);
        lemma_key_count_absent(pages.drop_last(), key, s);
    }
}

/// Sums grow along prefixes.
pub proof fn lemma_total_count_prefix(pages: Seq<PageRecord>, i: int, s: BlockState)
    requires
        0 <= i <= pages.len(),
    ensures
        total_count(pages.take(i), s) <= total_count(pages, s),
    decreases pages.len() - i,
{
    if i < pages.len() {
        lemma_total_count_prefix(pages, i + 1, s);
        assert(pages.take(i + 1).drop_last() == pages.take(i));
        assert(count_of(pages[i].coverage.counts, s) >= 0);
    } else {
        assert(pages.take(i) == pages);
    }
}


/// Whether `comps` are the rollups of `pages`: each key's counts sum the
/// pages of that component version, the keys are distinct, and they are
/// exactly the pages' keys.
#[verifier::opaque]
pub open spec fn rollups_match(pages: Seq<PageRecord>, comps: Seq<ComponentRollup>) -> bool {
    &&& forall|k: int, s: BlockState|
        0 <= k < comps.len() ==> #[trigger] count_of(comps[k].1, s) == key_count(pages, rollup_key_view(comps[k].0), s)
    &&& forall|a: int, b: int|
        0 <= a < b < comps.len() ==> rollup_key_view(#[trigger] comps[a].0) != rollup_key_view(#[trigger] comps[b].0)
    &&& forall|m: int| 0 <= m < pages.len() ==> key_listed(comps, rollup_key(#[trigger] pages[m]))
    &&& forall|k: int| 0 <= k < comps.len() ==> key_has_page(pages, rollup_key_view(#[trigger] comps[k].0))
}

/// Whether some rollup has the key.
pub open spec fn key_listed(comps: Seq<ComponentRollup>, key: (Seq<char>, Option<Seq<char>>)) -> bool {
    exists|k: int| 0 <= k < comps.len() && rollup_key_view(#[trigger] comps[k].0) == key
}

/// Whether some page has the key.
pub open spec fn key_has_page(pages: Seq<PageRecord>, key: (Seq<char>, Option<Seq<char>>)) -> bool {
    exists|m: int| 0 <= m < pages.len() && rollup_key(#[trigger] pages[m]) == key
}

proof fn lemma_counts_push(pages: Seq<PageRecord>, p: PageRecord, key: (Seq<char>, Option<Seq<char>>), s: BlockState)
    ensures
        key_count(pages.push(p), key, s) == key_count(pages, key, s) + if rollup_key(p) == key {
            count_of(p.coverage.counts, s)
        } else {
            0
        },
        total_count(pages.push(p), s) == total_count(pages, s) + count_of(p.coverage.counts, s),
{
    assert(pages.push(p).drop_last() =~= pages);
}

/// Adding a page of a component version already rolled up.
proof fn lemma_rollup_found(
    pages: Seq<PageRecord>,
    p: PageRecord,
    before: Seq<ComponentRollup>,
    after: Seq<ComponentRollup>,
    k: int,
)
    requires
        rollups_match(pages, before),
        0 <= k < before.len(),
        rollup_key_view(before[k].0) == rollup_key(p),
        after.len() == before.len(),
        forall|m: int| 0 <= m < before.len() && m != k ==> #[trigger] after[m] == before[m],
        rollup_key_view(after[k].0) == rollup_key_view(before[k].0),
        forall|s: BlockState| #[trigger] count_of(after[k].1, s) == count_of(before[k].1, s) + count_of(p.coverage.counts, s),
    ensures
        rollups_match(pages.push(p), after),
{
    reveal(rollups_match);
    let post = pages.push(p);
    assert forall|m: int, s: BlockState| 0 <= m < after.len() implies #[trigger] count_of(after[m].1, s) == key_count(
        post,
        rollup_key_view(after[m].0),
        s,
    ) by {
        lemma_counts_push(pages, p, rollup_key_view(after[m].0), s);
        if m != k {
            assert(after[m] == before[m]);
        }
    }
    assert forall|a: int, b: int| 0 <= a < b < after.len() implies rollup_key_view(#[trigger] after[a].0) != rollup_key_view(
        #[trigger] after[b].0,
    ) by {
        assert(rollup_key_view(after[a].0) == rollup_key_view(before[a].0));
        assert(rollup_key_view(after[b].0) == rollup_key_view(before[b].0));
        assert(rollup_key_view(before[a].0) != rollup_key_view(before[b].0));
    }
    assert forall|m: int| 0 <= m < post.len() implies key_listed(after, rollup_key(#[trigger] post[m])) by {
        if m < pages.len() {
            assert(post[m] == pages[m]);
            assert(key_listed(before, rollup_key(pages[m])));
            let w = choose|w: int| 0 <= w < before.len() && rollup_key_view(#[trigger] before[w].0) == rollup_key(pages[m]);
            assert(rollup_key_view(after[w].0) == rollup_key_view(before[w].0));
        } else {
            assert(rollup_key_view(after[k].0) == rollup_key(post[m]));
        }
    }
    assert forall|k2: int| 0 <= k2 < after.len() implies key_has_page(post, rollup_key_view(#[trigger] after[k2].0)) by {
        assert(rollup_key_view(after[k2].0) == rollup_key_view(before[k2].0));
        assert(key_has_page(pages, rollup_key_view(before[k2].0)));
        let w = choose|w: int| 0 <= w < pages.len() && rollup_key(#[trigger] pages[w]) == rollup_key_view(before[k2].0);
        assert(post[w] == pages[w]);
    }
}

/// Adding a page of a component version not rolled up yet.
proof fn lemma_rollup_new(pages: Seq<PageRecord>, p: PageRecord, before: Seq<ComponentRollup>, item: ComponentRollup)
    requires
        rollups_match(pages, before),
        forall|m: int| 0 <= m < before.len() ==> rollup_key_view(#[trigger] before[m].0) != rollup_key(p),
        rollup_key_view(item.0) == rollup_key(p),
        forall|s: BlockState| #[trigger] count_of(item.1, s) == count_of(p.coverage.counts, s),
    ensures
        rollups_match(pages.push(p), before.push(item)),
{
    reveal(rollups_match);
    let post = pages.push(p);
    let after = before.push(item);
    assert forall|a: int, b: int| 0 <= a < b < after.len() implies rollup_key_view(#[trigger] after[a].0) != rollup_key_view(
        #[trigger] after[b].0,
    ) by {
        assert(after[a] == before[a]);
        if b < before.len() {
            assert(after[b] == before[b]);
        }
    }
    assert forall|m: int| 0 <= m < pages.len() implies rollup_key(#[trigger] pages[m]) != rollup_key(p) by {
        assert(key_listed(before, rollup_key(pages[m])));
    }
    assert forall|m: int, s: BlockState| 0 <= m < after.len() implies #[trigger] count_of(after[m].1, s) == key_count(
        post,
        rollup_key_view(after[m].0),
        s,
    ) by {
        lemma_counts_push(pages, p, rollup_key_view(after[m].0), s);
        if m < before.len() {
            assert(after[m] == before[m]);
        } else {
            lemma_key_count_absent(pages, rollup_key(p), s);
        }
    }
    assert forall|m: int| 0 <= m < post.len() implies key_listed(after, rollup_key(#[trigger] post[m])) by {
        if m < pages.len() {
            assert(post[m] == pages[m]);
            assert(key_listed(before, rollup_key(pages[m])));
            let w = choose|w: int| 0 <= w < before.len() && rollup_key_view(#[trigger] before[w].0) == rollup_key(pages[m]);
            assert(after[w] == before[w]);
        } else {
            assert(rollup_key_view(after[before.len() as int].0) == rollup_key(post[m]));
        }
    }
    assert forall|k2: int| 0 <= k2 < after.len() implies key_has_page(post, rollup_key_view(#[trigger] after[k2].0)) by {
        if k2 < before.len() {
            assert(after[k2] == before[k2]);
            assert(key_has_page(pages, rollup_key_view(before[k2].0)));
            let w = choose|w: int| 0 <= w < pages.len() && rollup_key(#[trigger] pages[w]) == rollup_key_view(before[k2].0);
            assert(post[w] == pages[w]);
        } else {
            assert(post[pages.len() as int] == p);
        }
    }
    assert(rollups_match(post, after));
}

fn find_rollup(components: &Vec<ComponentRollup>, coords: &Coords) -> (r: Option<usize>)
    ensures
        match r {
            Some(k) => k < components@.len() && rollup_key_view(components@[k as int].0) == (coords@.component, coords@.version),
            None => forall|m: int| 0 <= m < components@.len() ==> rollup_key_view(#[trigger] components@[m].0) != (coords@.component, coords@.version),
        },
{
    let mut k: usize = 0;
    while k < components.len()
        invariant
            k <= components@.len(),
            forall|m: int| 0 <= m < k ==> rollup_key_view(#[trigger] components@[m].0) != (coords@.component, coords@.version),
        decreases components.len() - k,
    {
        if components[k].0.0 == coords.component && opt_eq(&components[k].0.1, &coords.version) {
            return Some(k);
        }
        k += 1;
    }
    None
}

/// Adds one page to the rollups of the pages before it.
fn add_page_rollup(components: &mut Vec<ComponentRollup>, total: &mut StateCounts, page: &PageRecord, Ghost(pre): Ghost<Seq<PageRecord>>)
    requires
        forall|s: BlockState| #[trigger] total_count(pre.push(*page), s) <= usize::MAX,
        forall|s: BlockState| #[trigger] count_of(*old(total), s) == total_count(pre, s),
        rollups_match(pre, old(components)@),
    ensures
        forall|s: BlockState| #[trigger] count_of(*final(total), s) == total_count(pre.push(*page), s),
        rollups_match(pre.push(*page), final(components)@),
{
    reveal(rollups_match);
    let found = find_rollup(components, &page.coords);
    let ghost before = components@;
    match found {
        Some(k) => {
            proof {
                assert forall|s: BlockState| count_of(components@[k as int].1, s) + count_of(page.coverage.counts, s) <= usize::MAX by {
                    lemma_counts_push(pre, *page, rollup_key(*page), s);
                    lemma_key_count_bounds(pre.push(*page), rollup_key(*page), s);
                }
            }
            components[k].1.add_counts(&page.coverage.counts);
            proof {
                lemma_rollup_found(pre, *page, before, components@, k as int);
            }
        },
        None => {
            let key = (owned(page.coords.component.as_str()), copy_opt(&page.coords.version));
            let item = (key, page.coverage.counts);
            proof {
                lemma_rollup_new(pre, *page, before, item);
            }
            components.push(item);
        },
    }
    proof {
        assert forall|s: BlockState| count_of(*total, s) + count_of(page.coverage.counts, s) <= usize::MAX by {
            lemma_counts_push(pre, *page, rollup_key(*page), s);
        }
    }
    total.add_counts(&page.coverage.counts);
    proof {
        assert forall|s: BlockState| #[trigger] count_of(*total, s) == total_count(pre.push(*page), s) by {
            lemma_counts_push(pre, *page, rollup_key(*page), s);
        }
    }
}

impl CoverageDatabase {
    /// The record of one page, by coordinates: the first with those
    /// coordinates.
    pub fn page(&self, coords: &Coords) -> (r: Option<&PageRecord>)
        ensures
            match r {
                Some(p) => exists|k: int|
                    0 <= k < self.pages@.len() && self.pages@[k] == *p && p.coords@ == coords@ && forall|m: int|
                        0 <= m < k ==> (#[trigger] self.pages@[m]).coords@ != coords@,
                None => forall|k: int| 0 <= k < self.pages@.len() ==> (#[trigger] self.pages@[k]).coords@ != coords@,
            },
    {
        let mut k: usize = 0;
        while k < self.pages.len()
            invariant
                k <= self.pages@.len(),
                forall|m: int| 0 <= m < k ==> (#[trigger] self.pages@[m]).coords@ != coords@,
            decreases self.pages.len() - k,
        {
            if self.pages[k].coords.same(coords) {
                return Some(&self.pages[k]);
            }
            k += 1;
        }
        None
    }


    /// Per-component rollups, keyed by `(component, version)` in page
    /// order, plus the site total.
    #[verifier::spinoff_prover]
    pub fn rollups(&self) -> (r: (Vec<ComponentRollup>, StateCounts))
        requires
            forall|s: BlockState| #[trigger] total_count(self.pages@, s) <= usize::MAX,
        ensures
            forall|s: BlockState| #[trigger] count_of(r.1, s) == total_count(self.pages@, s),
            rollups_match(self.pages@, r.0@),
    {
        let ghost pages = self.pages@;
        let mut components: Vec<ComponentRollup> = Vec::new();
        let mut total = StateCounts { verified: 0, planned: 0, uncovered: 0, unclassified: 0, out_of_scope: 0, non_normative: 0 };
        let mut i: usize = 0;
        proof {
            reveal(rollups_match);
        }
        while i < self.pages.len()
            invariant
                pages == self.pages@,
                i <= pages.len(),
                forall|s: BlockState| #[trigger] total_count(pages, s) <= usize::MAX,
                forall|s: BlockState| #[trigger] count_of(total, s) == total_count(pages.take(i as int), s),
                rollups_match(pages.take(i as int), components@),
            decreases self.pages.len() - i,
        {
            let page = &self.pages[i];
            let ghost pre = pages.take(i as int);
            assert(pages.take(i + 1) == pre.push(*page));
            proof {
                assert forall|s: BlockState| #[trigger] total_count(pre.push(*page), s) <= usize::MAX by {
                    lemma_total_count_prefix(pages, i + 1, s);
                }
            }
            add_page_rollup(&mut components, &mut total, page, Ghost(pre));
            i += 1;
        }
        assert(pages.take(pages.len() as int) == pages);
        (components, total)
    }
}

/// The grouping key of a page: its component and version (empty when
/// versionless).
pub open spec fn group_key(p: PageRecord) -> (Seq<char>, Seq<char>) {
    (p.coords@.component, match p.coords@.version {
        Some(v) => v,
        None => Seq::empty(),
    })
}

/// The text of a grouping key.
pub open spec fn group_key_view(k: (String, String)) -> (Seq<char>, Seq<char>) {
    (k.0@, k.1@)
}

/// Code point order of two texts, as a sign: negative, zero or
/// positive (the order of `str::cmp`, since UTF-8 preserves code point
/// order).
pub open spec fn text_sign(a: Seq<char>, b: Seq<char>) -> int
    decreases a.len(),
{
    if a.len() == 0 && b.len() == 0 {
        0
    } else if a.len() == 0 {
        -1
    } else if b.len() == 0 {
        1
    } else if a[0] < b[0] {
        -1
    } else if a[0] > b[0] {
        1
    } else {
        text_sign(a.drop_first(), b.drop_first())
    }
}

proof fn lemma_text_sign_antisym(a: Seq<char>, b: Seq<char>)
    ensures
        text_sign(a, b) == -text_sign(b, a),
        -1 <= text_sign(a, b) <= 1,
    decreases a.len(),
{
    if a.len() > 0 && b.len() > 0 && a[0] == b[0] {
        lemma_text_sign_antisym(a.drop_first(), b.drop_first());
    }
}

proof fn lemma_text_sign_zero(a: Seq<char>, b: Seq<char>)
    requires
        text_sign(a, b) == 0,
    ensures
        a == b,
    decreases a.len(),
{
    if a.len() > 0 && b.len() > 0 {
        assert(a[0] == b[0]);
        lemma_text_sign_zero(a.drop_first(), b.drop_first());
        assert forall|k: int| 0 <= k < a.len() implies a[k] == b[k] by {
            if k > 0 {
                assert(a[k] == a.drop_first()[k - 1]);
                assert(b[k] == b.drop_first()[k - 1]);
            }
        }
        assert(a =~= b);
    }
}

proof fn lemma_text_sign_refl(a: Seq<char>)
    ensures
        text_sign(a, a) == 0,
    decreases a.len(),
{
    if a.len() > 0 {
        lemma_text_sign_refl(a.drop_first());
    }
}

proof fn lemma_text_lt_trans(a: Seq<char>, b: Seq<char>, c: Seq<char>)
    requires
        text_sign(a, b) < 0,
        text_sign(b, c) < 0,
    ensures
        text_sign(a, c) < 0,
    decreases a.len(),
{
    if a.len() > 0 && b.len() > 0 && c.len() > 0 && a[0] == b[0] && b[0] == c[0] {
        lemma_text_lt_trans(a.drop_first(), b.drop_first(), c.drop_first());
    }
}

/// The order of grouping keys: by component, then by version.
pub open spec fn key_before(a: (Seq<char>, Seq<char>), b: (Seq<char>, Seq<char>)) -> bool {
    text_sign(a.0, b.0) < 0 || (a.0 == b.0 && text_sign(a.1, b.1) < 0)
}

/// A key is never before itself.
proof fn lemma_key_before_irrefl(a: (Seq<char>, Seq<char>))
    ensures
        !key_before(a, a),
{
    lemma_text_sign_refl(a.0);
    lemma_text_sign_refl(a.1);
}

/// The key order is transitive.
proof fn lemma_key_before_trans(a: (Seq<char>, Seq<char>), b: (Seq<char>, Seq<char>), c: (Seq<char>, Seq<char>))
    requires
        key_before(a, b),
        key_before(b, c),
    ensures
        key_before(a, c),
{
    if text_sign(a.0, b.0) < 0 && text_sign(b.0, c.0) < 0 {
        lemma_text_lt_trans(a.0, b.0, c.0);
    } else if text_sign(a.0, b.0) < 0 {
    } else if text_sign(b.0, c.0) < 0 {
    } else {
        lemma_text_lt_trans(a.1, b.1, c.1);
    }
}

/// Compares two texts by code point.
fn compare_text(a: &[char], b: &[char]) -> (r: i8)
    ensures
        r as int == text_sign(a@, b@),
{
    let mut i: usize = 0;
    assert(a@.skip(0) == a@ && b@.skip(0) == b@);
    while i < a.len() && i < b.len() && a[i] == b[i]
        invariant
            i <= a.len(),
            i <= b.len(),
            text_sign(a@, b@) == text_sign(a@.skip(i as int), b@.skip(i as int)),
        decreases a.len() - i,
    {
        assert(a@.skip(i as int).drop_first() == a@.skip(i + 1));
        assert(b@.skip(i as int).drop_first() == b@.skip(i + 1));
        i += 1;
    }
    if i == a.len() && i == b.len() {
        0
    } else if i == a.len() {
        -1
    } else if i == b.len() {
        1
    } else if a[i] < b[i] {
        -1
    } else {
        1
    }
}

/// The pages of one group, in page order.
pub open spec fn group_pages(pages: Seq<PageRecord>, key: (Seq<char>, Seq<char>)) -> Seq<PageRecord>
    decreases pages.len(),
{
    if pages.len() == 0 {
        pages
    } else if group_key(pages.last()) == key {
        group_pages(pages.drop_last(), key).push(pages.last())
    } else {
        group_pages(pages.drop_last(), key)
    }
}

/// A key no page has groups no page.
proof fn lemma_group_pages_absent(pages: Seq<PageRecord>, key: (Seq<char>, Seq<char>))
    requires
        forall|m: int| 0 <= m < pages.len() ==> group_key(#[trigger] pages[m]) != key,
    ensures
        group_pages(pages, key) == Seq::<PageRecord>::empty(),
    decreases pages.len(),
{
    if pages.len() > 0 {
        assert(group_key(pages[pages.len() - 1]) != key);
        lemma_group_pages_absent(pages.drop_last(), key);
    }
}

/// Whether `groups` group `pages`: keys strictly increasing, each group
/// the pages with its key in page order and never empty (so every key is
/// some page's), and every page's key present.
pub open spec fn groups_match(pages: Seq<PageRecord>, groups: Seq<((String, String), Vec<&PageRecord>)>) -> bool {
    &&& forall|a: int, b: int| 0 <= a < b < groups.len() ==> key_before(group_key_view(#[trigger] groups[a].0), group_key_view(#[trigger] groups[b].0))
    &&& forall|k: int| 0 <= k < groups.len() ==> (#[trigger] groups[k]).1@.map_values(|r: &PageRecord| *r) == group_pages(pages, group_key_view(groups[k].0))
    &&& forall|k: int| 0 <= k < groups.len() ==> (#[trigger] groups[k]).1@.len() > 0
    &&& forall|m: int| 0 <= m < pages.len() ==> exists|k: int| 0 <= k < groups.len() && group_key_view(#[trigger] groups[k].0) == group_key(#[trigger] pages[m])
}

fn compare_keys(a: &(String, String), comp: &str, ver: &str) -> (r: i8)
    ensures
        r == 0 <==> group_key_view(*a) == (comp@, ver@),
        r < 0 <==> key_before(group_key_view(*a), (comp@, ver@)),
        r > 0 <==> key_before((comp@, ver@), group_key_view(*a)),
{
    let a0 = chars_of(a.0.as_str());
    let c0 = chars_of(comp);
    let x = compare_text(a0.as_slice(), c0.as_slice());
    proof {
        lemma_text_sign_antisym(a.0@, comp@);
        if x == 0 {
            lemma_text_sign_zero(a.0@, comp@);
        }
    }
    if x != 0 {
        return x;
    }
    let a1 = chars_of(a.1.as_str());
    let v1 = chars_of(ver);
    let y = compare_text(a1.as_slice(), v1.as_slice());
    proof {
        lemma_text_sign_antisym(a.1@, ver@);
        if y == 0 {
            lemma_text_sign_zero(a.1@, ver@);
        }
        lemma_text_sign_refl(a.0@);
    }
    y
}

/// Adding a page to the group of its key.
proof fn lemma_group_same(
    pre: Seq<PageRecord>,
    page: PageRecord,
    before: Seq<((String, String), Vec<&PageRecord>)>,
    after: Seq<((String, String), Vec<&PageRecord>)>,
    p: int,
    pr: &PageRecord,
)
    requires
        groups_match(pre, before),
        0 <= p < before.len(),
        group_key_view(before[p].0) == group_key(page),
        *pr == page,
        after.len() == before.len(),
        forall|k: int| 0 <= k < before.len() && k != p ==> #[trigger] after[k] == before[k],
        after[p].0 == before[p].0,
        after[p].1@ == before[p].1@.push(pr),
    ensures
        groups_match(pre.push(page), after),
{
    let post = pre.push(page);
    assert(post.drop_last() =~= pre);
    assert forall|a: int, b: int| 0 <= a < b < after.len() implies key_before(group_key_view(#[trigger] after[a].0), group_key_view(#[trigger] after[b].0)) by {
        assert(group_key_view(after[a].0) == group_key_view(before[a].0));
        assert(group_key_view(after[b].0) == group_key_view(before[b].0));
    }
    assert forall|k: int| 0 <= k < after.len() implies (#[trigger] after[k]).1@.map_values(|r: &PageRecord| *r) == group_pages(post, group_key_view(after[k].0)) by {
        if k == p {
            assert(after[k].1@.map_values(|r: &PageRecord| *r) =~= before[k].1@.map_values(|r: &PageRecord| *r).push(page));
        } else {
            assert(after[k] == before[k]);
            lemma_key_before_irrefl(group_key(page));
            if k > p {
                assert(key_before(group_key_view(before[p].0), group_key_view(before[k].0)));
            } else {
                assert(key_before(group_key_view(before[k].0), group_key_view(before[p].0)));
            }
            assert(group_key_view(before[k].0) != group_key(page));
        }
    }
    assert forall|k: int| 0 <= k < after.len() implies (#[trigger] after[k]).1@.len() > 0 by {
        if k != p {
            assert(after[k] == before[k]);
        }
    }
    assert forall|m: int| 0 <= m < post.len() implies exists|k: int| 0 <= k < after.len() && group_key_view(#[trigger] after[k].0) == group_key(#[trigger] post[m]) by {
        if m < pre.len() {
            assert(post[m] == pre[m]);
            let w = choose|w: int| 0 <= w < before.len() && group_key_view(#[trigger] before[w].0) == group_key(#[trigger] pre[m]);
            assert(group_key_view(after[w].0) == group_key_view(before[w].0));
            assert(group_key_view(after[w].0) == group_key(post[m]));
        } else {
            assert(group_key_view(after[p].0) == group_key(post[m]));
        }
    }
}

/// Opening a new group for a page whose key no group has.
proof fn lemma_group_new(
    pre: Seq<PageRecord>,
    page: PageRecord,
    before: Seq<((String, String), Vec<&PageRecord>)>,
    item: ((String, String), Vec<&PageRecord>),
    p: int,
    pr: &PageRecord,
)
    requires
        groups_match(pre, before),
        0 <= p <= before.len(),
        forall|m: int| 0 <= m < p ==> key_before(group_key_view(#[trigger] before[m].0), group_key(page)),
        forall|m: int| p <= m < before.len() ==> key_before(group_key(page), group_key_view(#[trigger] before[m].0)),
        group_key_view(item.0) == group_key(page),
        *pr == page,
        item.1@ == seq![pr],
    ensures
        groups_match(pre.push(page), before.insert(p, item)),
{
    let post = pre.push(page);
    let after = before.insert(p, item);
    let gk = group_key(page);
    assert(post.drop_last() =~= pre);
    lemma_key_before_irrefl(gk);
    assert forall|m: int| 0 <= m < before.len() implies group_key_view(#[trigger] before[m].0) != gk by {
        if m < p {
            assert(key_before(group_key_view(before[m].0), gk));
        } else {
            assert(key_before(gk, group_key_view(before[m].0)));
        }
    }
    assert forall|m: int| 0 <= m < pre.len() implies group_key(#[trigger] pre[m]) != gk by {
        let w = choose|w: int| 0 <= w < before.len() && group_key_view(#[trigger] before[w].0) == group_key(#[trigger] pre[m]);
    }
    lemma_group_pages_absent(pre, gk);
    assert forall|a: int, b: int| 0 <= a < b < after.len() implies key_before(group_key_view(#[trigger] after[a].0), group_key_view(#[trigger] after[b].0)) by {
        if b < p {
            assert(after[a] == before[a] && after[b] == before[b]);
        } else if b == p {
            assert(after[a] == before[a]);
        } else if a < p {
            assert(after[a] == before[a] && after[b] == before[b - 1]);
            lemma_key_before_trans(group_key_view(before[a].0), gk, group_key_view(before[b - 1].0));
        } else if a == p {
            assert(after[b] == before[b - 1]);
        } else {
            assert(after[a] == before[a - 1] && after[b] == before[b - 1]);
        }
    }
    assert forall|k: int| 0 <= k < after.len() implies (#[trigger] after[k]).1@.len() > 0 by {
        if k < p {
            assert(after[k] == before[k]);
        } else if k > p {
            assert(after[k] == before[k - 1]);
        }
    }
    assert forall|k: int| 0 <= k < after.len() implies (#[trigger] after[k]).1@.map_values(|r: &PageRecord| *r) == group_pages(post, group_key_view(after[k].0)) by {
        if k == p {
            assert(after[k].1@.map_values(|r: &PageRecord| *r) =~= seq![page]);
            assert(group_pages(post, gk) =~= Seq::<PageRecord>::empty().push(page));
        } else if k < p {
            assert(after[k] == before[k]);
        } else {
            assert(after[k] == before[k - 1]);
        }
    }
    assert forall|m: int| 0 <= m < post.len() implies exists|k: int| 0 <= k < after.len() && group_key_view(#[trigger] after[k].0) == group_key(#[trigger] post[m]) by {
        if m < pre.len() {
            assert(post[m] == pre[m]);
            let w = choose|w: int| 0 <= w < before.len() && group_key_view(#[trigger] before[w].0) == group_key(#[trigger] pre[m]);
            if w < p {
                assert(after[w] == before[w]);
                assert(group_key_view(after[w].0) == group_key(post[m]));
            } else {
                assert(after[w + 1] == before[w]);
                assert(group_key_view(after[w + 1].0) == group_key(post[m]));
            }
        } else {
            assert(group_key_view(after[p].0) == group_key(post[m]));
        }
    }
}

/// A nonempty group of a key holds a page with that key.
proof fn lemma_group_pages_nonempty(pages: Seq<PageRecord>, key: (Seq<char>, Seq<char>))
    requires
        group_pages(pages, key).len() > 0,
    ensures
        exists|m: int| 0 <= m < pages.len() && group_key(#[trigger] pages[m]) == key,
    decreases pages.len(),
{
    if group_key(pages.last()) == key {
        assert(group_key(pages[pages.len() - 1]) == key);
    } else {
        lemma_group_pages_nonempty(pages.drop_last(), key);
        let m = choose|m: int| 0 <= m < pages.len() - 1 && group_key(#[trigger] pages.drop_last()[m]) == key;
        assert(pages.drop_last()[m] == pages[m]);
    }
}

/// Whether some page has the key.
pub open spec fn some_page_keyed(pages: Seq<PageRecord>, key: (Seq<char>, Seq<char>)) -> bool {
    exists|m: int| 0 <= m < pages.len() && group_key(#[trigger] pages[m]) == key
}

/// The report's groups are exactly the pages' component versions: every
/// group's key is some page's, and (by `groups_match`) every page's key
/// has a group.
pub proof fn law_group_keys_are_page_keys(pages: Seq<PageRecord>, groups: Seq<((String, String), Vec<&PageRecord>)>)
    requires
        groups_match(pages, groups),
    ensures
        forall|k: int| 0 <= k < groups.len() ==> some_page_keyed(pages, group_key_view((#[trigger] groups[k]).0)),
{
    assert forall|k: int| 0 <= k < groups.len() implies some_page_keyed(pages, group_key_view((#[trigger] groups[k]).0)) by {
        let g = groups[k];
        assert(g.1@.len() > 0);
        assert(g.1@.map_values(|r: &PageRecord| *r).len() == g.1@.len());
        lemma_group_pages_nonempty(pages, group_key_view(g.0));
    }
}

/// How many pages the groups of the given keys hold together.
pub open spec fn grouped_pages(pages: Seq<PageRecord>, keys: Seq<(Seq<char>, Seq<char>)>) -> nat
    decreases keys.len(),
{
    if keys.len() == 0 {
        0
    } else {
        grouped_pages(pages, keys.drop_last()) + group_pages(pages, keys.last()).len()
    }
}

/// How often `k` occurs among the keys.
pub open spec fn key_occurrences(keys: Seq<(Seq<char>, Seq<char>)>, k: (Seq<char>, Seq<char>)) -> nat
    decreases keys.len(),
{
    if keys.len() == 0 {
        0
    } else {
        key_occurrences(keys.drop_last(), k) + if keys.last() == k { 1nat } else { 0nat }
    }
}

/// One more page adds it to the group of its key.
proof fn lemma_grouped_push(pages: Seq<PageRecord>, p: PageRecord, keys: Seq<(Seq<char>, Seq<char>)>)
    ensures
        grouped_pages(pages.push(p), keys) == grouped_pages(pages, keys) + key_occurrences(keys, group_key(p)),
    decreases keys.len(),
{
    assert(pages.push(p).drop_last() =~= pages);
    if keys.len() > 0 {
        lemma_grouped_push(pages, p, keys.drop_last());
        assert(group_pages(pages.push(p), keys.last()) == if group_key(p) == keys.last() {
            group_pages(pages, keys.last()).push(p)
        } else {
            group_pages(pages, keys.last())
        });
    }
}

/// No page, no grouped page.
proof fn lemma_grouped_empty(pages: Seq<PageRecord>, keys: Seq<(Seq<char>, Seq<char>)>)
    requires
        pages.len() == 0,
    ensures
        grouped_pages(pages, keys) == 0,
    decreases keys.len(),
{
    if keys.len() > 0 {
        lemma_grouped_empty(pages, keys.drop_last());
    }
}

/// A key that occurs once among strictly ordered keys counts once.
proof fn lemma_key_count_one(keys: Seq<(Seq<char>, Seq<char>)>, k: (Seq<char>, Seq<char>), w: int)
    requires
        forall|a: int, b: int| 0 <= a < b < keys.len() ==> key_before(#[trigger] keys[a], #[trigger] keys[b]),
        0 <= w < keys.len(),
        keys[w] == k,
    ensures
        key_occurrences(keys, k) == 1,
    decreases keys.len(),
{
    let n = keys.len() - 1;
    if w == n {
        assert forall|a: int| 0 <= a < n implies keys.drop_last()[a] != k by {
            assert(key_before(keys[a], keys[n]));
            lemma_key_before_irrefl(k);
        }
        lemma_key_count_zero(keys.drop_last(), k);
    } else {
        assert(key_before(keys[w], keys[n]));
        lemma_key_before_irrefl(k);
        assert(keys.last() != k);
        lemma_key_count_one(keys.drop_last(), k, w);
    }
}

/// A key that does not occur counts nothing.
proof fn lemma_key_count_zero(keys: Seq<(Seq<char>, Seq<char>)>, k: (Seq<char>, Seq<char>))
    requires
        forall|a: int| 0 <= a < keys.len() ==> keys[a] != k,
    ensures
        key_occurrences(keys, k) == 0,
    decreases keys.len(),
{
    if keys.len() > 0 {
        lemma_key_count_zero(keys.drop_last(), k);
    }
}

/// Whether `k` is among the keys.
pub open spec fn group_key_listed(keys: Seq<(Seq<char>, Seq<char>)>, k: (Seq<char>, Seq<char>)) -> bool {
    exists|w: int| 0 <= w < keys.len() && keys[w] == k
}

/// Groups of distinct keys that cover every page's key hold every page
/// exactly once.
proof fn lemma_grouped_all(pages: Seq<PageRecord>, keys: Seq<(Seq<char>, Seq<char>)>)
    requires
        forall|a: int, b: int| 0 <= a < b < keys.len() ==> key_before(#[trigger] keys[a], #[trigger] keys[b]),
        forall|m: int| 0 <= m < pages.len() ==> group_key_listed(keys, group_key(#[trigger] pages[m])),
    ensures
        grouped_pages(pages, keys) == pages.len(),
    decreases pages.len(),
{
    if pages.len() == 0 {
        lemma_grouped_empty(pages, keys);
    } else {
        let init = pages.drop_last();
        assert forall|m: int| 0 <= m < init.len() implies group_key_listed(keys, group_key(#[trigger] init[m])) by {
            assert(init[m] == pages[m]);
        }
        lemma_grouped_all(init, keys);
        assert(init.push(pages.last()) =~= pages);
        lemma_grouped_push(init, pages.last(), keys);
        let m = pages.len() - 1;
        assert(group_key_listed(keys, group_key(pages[m])));
        let w = choose|w: int| 0 <= w < keys.len() && keys[w] == group_key(pages[m]);
        lemma_key_count_one(keys, group_key(pages.last()), w);
    }
}

/// The report's groups hold every page exactly once between them.
pub proof fn law_groups_partition_pages(pages: Seq<PageRecord>, groups: Seq<((String, String), Vec<&PageRecord>)>)
    requires
        groups_match(pages, groups),
    ensures
        grouped_pages(pages, Seq::new(groups.len(), |k: int| group_key_view(groups[k].0))) == pages.len(),
{
    let keys = Seq::new(groups.len(), |k: int| group_key_view(groups[k].0));
    assert forall|a: int, b: int| 0 <= a < b < keys.len() implies key_before(#[trigger] keys[a], #[trigger] keys[b]) by {
        assert(key_before(group_key_view(groups[a].0), group_key_view(groups[b].0)));
    }
    assert forall|m: int| 0 <= m < pages.len() implies group_key_listed(keys, group_key(#[trigger] pages[m])) by {
        let k = choose|k: int| 0 <= k < groups.len() && group_key_view(#[trigger] groups[k].0) == group_key(#[trigger] pages[m]);
        assert(keys[k] == group_key(pages[m]));
    }
    lemma_grouped_all(pages, keys);
}

fn find_group(groups: &Vec<((String, String), Vec<&PageRecord>)>, comp: &str, ver: &str) -> (r: (usize, bool))
    requires
        forall|a: int, b: int| 0 <= a < b < groups@.len() ==> key_before(group_key_view(#[trigger] groups@[a].0), group_key_view(#[trigger] groups@[b].0)),
    ensures
        r.0 <= groups@.len(),
        forall|m: int| 0 <= m < r.0 ==> key_before(group_key_view(#[trigger] groups@[m].0), (comp@, ver@)),
        r.1 ==> r.0 < groups@.len() && group_key_view(groups@[r.0 as int].0) == (comp@, ver@),
        !r.1 ==> forall|m: int| r.0 <= m < groups@.len() ==> key_before((comp@, ver@), group_key_view(#[trigger] groups@[m].0)),
{
    let mut p: usize = 0;
    while p < groups.len()
        invariant
            p <= groups@.len(),
            forall|a: int, b: int| 0 <= a < b < groups@.len() ==> key_before(group_key_view(#[trigger] groups@[a].0), group_key_view(#[trigger] groups@[b].0)),
            forall|m: int| 0 <= m < p ==> key_before(group_key_view(#[trigger] groups@[m].0), (comp@, ver@)),
        decreases groups.len() - p,
    {
        let c = compare_keys(&groups[p].0, comp, ver);
        if c == 0 {
            return (p, true);
        }
        if c > 0 {
            assert forall|m: int| p <= m < groups@.len() implies key_before((comp@, ver@), group_key_view(#[trigger] groups@[m].0)) by {
                if m > p {
                    lemma_key_before_trans((comp@, ver@), group_key_view(groups@[p as int].0), group_key_view(groups@[m].0));
                }
            }
            return (p, false);
        }
        p += 1;
    }
    (p, false)
}

/// Groups the database's pages by `(component, version)`, sorted by key,
/// preserving page order within each group: the dashboard's and table
/// report's grouping.
pub fn pages_by_component(db: &CoverageDatabase) -> (r: Vec<((String, String), Vec<&PageRecord>)>)
    ensures
        groups_match(db.pages@, r@),
{
    let ghost pages = db.pages@;
    let mut groups: Vec<((String, String), Vec<&PageRecord>)> = Vec::new();
    let mut i: usize = 0;
    while i < db.pages.len()
        invariant
            pages == db.pages@,
            i <= pages.len(),
            groups_match(pages.take(i as int), groups@),
        decreases db.pages.len() - i,
    {
        let page = &db.pages[i];
        let comp = page.coords.component.as_str();
        let ver: &str = match &page.coords.version {
            Some(v) => v.as_str(),
            None => "",
        };
        proof {
            reveal_strlit("");
        }
        assert((comp@, ver@) == group_key(*page));
        let ghost pre = pages.take(i as int);
        let ghost post = pages.take(i + 1);
        assert(post == pre.push(*page));
        let ghost before = groups@;
        let (p, same) = find_group(&groups, comp, ver);
        if same {
            groups[p].1.push(page);
            proof {
                lemma_group_same(pre, *page, before, groups@, p as int, page);
            }
        } else {
            let key = (owned(comp), owned(ver));
            let mut v: Vec<&PageRecord> = Vec::new();
            v.push(page);
            let item = (key, v);
            proof {
                lemma_group_new(pre, *page, before, item, p as int, page);
            }
            groups.insert(p, item);
        }
        i += 1;
    }
    assert(pages.take(pages.len() as int) == pages);
    groups
}

/// The site key of a claim: its file and line.
pub open spec fn site_key(c: Claim) -> (Seq<char>, u32) {
    (c.site.file@, c.site.line)
}

/// Whether `index` is the last claim with site `key`.
pub open spec fn last_at_site(claims: Seq<Claim>, key: (Seq<char>, u32), index: int) -> bool {
    0 <= index < claims.len() && site_key(claims[index]) == key && forall|c: int|
        index < c < claims.len() ==> site_key(#[trigger] claims[c]) != key
}

/// Whether some entry has the key.
pub open spec fn site_listed(entries: Seq<((String, u32), usize)>, key: (Seq<char>, u32)) -> bool {
    exists|k: int| 0 <= k < entries.len() && (#[trigger] entries[k]).0.0@ == key.0 && entries[k].0.1 == key.1
}

/// Whether `entries` index `claims` by site: distinct sites, each with
/// the last claim found there, and every claim's site present.
pub open spec fn sites_match(claims: Seq<Claim>, entries: Seq<((String, u32), usize)>) -> bool {
    &&& forall|a: int, b: int|
        0 <= a < b < entries.len() ==> ((#[trigger] entries[a]).0.0@, entries[a].0.1) != ((#[trigger] entries[b]).0.0@, entries[b].0.1)
    &&& forall|k: int|
        0 <= k < entries.len() ==> last_at_site(claims, ((#[trigger] entries[k]).0.0@, entries[k].0.1), entries[k].1 as int)
    &&& forall|c: int| 0 <= c < claims.len() ==> site_listed(entries, site_key(#[trigger] claims[c]))
}

fn find_site(out: &Vec<((String, u32), usize)>, file: &String, line: u32) -> (r: Option<usize>)
    ensures
        match r {
            Some(k) => k < out@.len() && out@[k as int].0.0@ == file@ && out@[k as int].0.1 == line,
            None => forall|m: int| 0 <= m < out@.len() ==> ((#[trigger] out@[m]).0.0@, out@[m].0.1) != (file@, line),
        },
{
    let mut k: usize = 0;
    while k < out.len()
        invariant
            k <= out@.len(),
            forall|m: int| 0 <= m < k ==> ((#[trigger] out@[m]).0.0@, out@[m].0.1) != (file@, line),
        decreases out.len() - k,
    {
        if out[k].0.0 == *file && out[k].0.1 == line {
            return Some(k);
        }
        k += 1;
    }
    None
}

/// Every claim's index keyed by its site, for callers that need to look
/// claims up by provenance (a later claim at the same site wins).
pub fn claims_by_site(db: &CoverageDatabase) -> (r: Vec<((String, u32), usize)>)
    ensures
        sites_match(db.claims@, r@),
{
    let ghost claims = db.claims@;
    let mut out: Vec<((String, u32), usize)> = Vec::new();
    let mut i: usize = 0;
    while i < db.claims.len()
        invariant
            claims == db.claims@,
            i <= claims.len(),
            sites_match(claims.take(i as int), out@),
        decreases db.claims.len() - i,
    {
        let site = &db.claims[i].site;
        let ghost pre = claims.take(i as int);
        let ghost post = claims.take(i + 1);
        assert(post == pre.push(claims[i as int]));
        let ghost before = out@;
        let found_at = find_site(&out, &site.file, site.line);
        let found = found_at.is_some();
        let k: usize = match found_at {
            Some(k) => k,
            None => 0,
        };
        if found {
            out[k].1 = i;
            assert forall|a: int, b: int| 0 <= a < b < out@.len() implies ((#[trigger] out@[a]).0.0@, out@[a].0.1) != ((#[trigger] out@[b]).0.0@, out@[b].0.1) by {
                assert(out@[a].0 == before[a].0 && out@[b].0 == before[b].0);
            }
            assert forall|m: int| 0 <= m < out@.len() implies last_at_site(post, ((#[trigger] out@[m]).0.0@, out@[m].0.1), out@[m].1 as int) by {
                if m != k {
                    assert(out@[m] == before[m]);
                    assert(last_at_site(pre, (before[m].0.0@, before[m].0.1), before[m].1 as int));
                    assert(site_key(post[i as int]) != (before[m].0.0@, before[m].0.1)) by {
                        assert(before[k as int].0.0@ == site.file@ && before[k as int].0.1 == site.line);
                    }
                    assert forall|c: int| before[m].1 < c < post.len() implies site_key(#[trigger] post[c]) != (before[m].0.0@, before[m].0.1) by {
                        if c < i {
                            assert(post[c] == pre[c]);
                        }
                    }
                }
            }
            assert forall|c: int| 0 <= c < post.len() implies site_listed(out@, site_key(#[trigger] post[c])) by {
                if c < i {
                    assert(post[c] == pre[c]);
                    assert(site_listed(before, site_key(pre[c])));
                    let w = choose|w: int| 0 <= w < before.len() && (#[trigger] before[w]).0.0@ == site_key(pre[c]).0 && before[w].0.1 == site_key(pre[c]).1;
                    assert(out@[w].0 == before[w].0);
                } else {
                    assert(out@[k as int].0.0@ == site_key(post[c]).0);
                }
            }
        } else {
            let key = (owned(site.file.as_str()), site.line);
            out.push((key, i));
            assert forall|m: int| 0 <= m < out@.len() implies last_at_site(post, ((#[trigger] out@[m]).0.0@, out@[m].0.1), out@[m].1 as int) by {
                if m < before.len() {
                    assert(out@[m] == before[m]);
                    assert(last_at_site(pre, (before[m].0.0@, before[m].0.1), before[m].1 as int));
                    assert forall|c: int| before[m].1 < c < post.len() implies site_key(#[trigger] post[c]) != (before[m].0.0@, before[m].0.1) by {
                        if c < i {
                            assert(post[c] == pre[c]);
                        }
                    }
                }
            }
            assert forall|c: int| 0 <= c < post.len() implies site_listed(out@, site_key(#[trigger] post[c])) by {
                if c < i {
                    assert(post[c] == pre[c]);
                    assert(site_listed(before, site_key(pre[c])));
                    let w = choose|w: int| 0 <= w < before.len() && (#[trigger] before[w]).0.0@ == site_key(pre[c]).0 && before[w].0.1 == site_key(pre[c]).1;
                    assert(out@[w] == before[w]);
                } else {
                    assert(out@[before.len() as int].0.0@ == site_key(post[c]).0);
                }
            }
        }
        i += 1;
    }
    assert(claims.take(claims.len() as int) == claims);
    out
}

} // verus!
