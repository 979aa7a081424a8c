//! What resolution guarantees of every block of every measured page,
//! stated over what `resolve` returns.

use vstd::prelude::*;
use crate::coverage::model::{
    BlockState, Claim, MeasuredPage, StateCounts, StructuralKind, block_states, count_of, counts_in_denominator,
    percent_of,
};
use crate::coverage::resolve::{
    CoverageDatabase, block_resolved, claim_hits, classifying_entry, counts_claim, excluded, lists_exactly, lists_index,
    page_resolved, resolved_state, reviewed_page,
};
use crate::coverage::sidecar::Sidecar;

verus! {

/// `db` is what resolving `claims` and `sidecars` against `pages` yields.
pub open spec fn resolution_of(
    pages: Seq<MeasuredPage>,
    claims: Seq<Claim>,
    sidecars: Seq<Sidecar>,
    db: CoverageDatabase,
) -> bool {
    &&& db.claims@ == claims
    &&& db.pages@.len() == pages.len()
    &&& forall|i: int| 0 <= i < pages.len() ==> page_resolved(pages, sidecars, claims, i, #[trigger] db.pages@[i])
}

/// Block `j` of page `i` exists.
pub open spec fn is_block(pages: Seq<MeasuredPage>, i: int, j: int) -> bool {
    0 <= i < pages.len() && 0 <= j < pages[i].blocks@.len()
}

proof fn lemma_block(
    pages: Seq<MeasuredPage>,
    claims: Seq<Claim>,
    sidecars: Seq<Sidecar>,
    db: CoverageDatabase,
    i: int,
    j: int,
)
    requires
        resolution_of(pages, claims, sidecars, db),
        is_block(pages, i, j),
    ensures
        block_resolved(pages, sidecars, claims, i, j, db.pages@[i].coverage.blocks@[j]),
        db.pages@[i].coverage.blocks@.len() == pages[i].blocks@.len(),
{
    assert(page_resolved(pages, sidecars, claims, i, db.pages@[i]));
}

/// A block is `verified` exactly when at least one claim resolves to it,
/// and its claim list holds exactly the claims that count for it, each
/// once, in scan order: rollup is set union, independent of how claims
/// were spread over tests, crates and repositories.
pub proof fn law_verified_iff_claimed(
    pages: Seq<MeasuredPage>,
    claims: Seq<Claim>,
    sidecars: Seq<Sidecar>,
    db: CoverageDatabase,
    i: int,
    j: int,
)
    requires
        resolution_of(pages, claims, sidecars, db),
        is_block(pages, i, j),
    ensures
        (db.pages@[i].coverage.blocks@[j].state == BlockState::Verified) <==> db.pages@[i].coverage.blocks@[j].claims@.len()
            > 0,
        forall|c: int| 0 <= c < claims.len() ==> (#[trigger] counts_claim(pages, sidecars, claims, i, j, c) <==> exists|w: int|
            0 <= w < db.pages@[i].coverage.blocks@[j].claims@.len() && db.pages@[i].coverage.blocks@[j].claims@[w] == c),
{
    lemma_block(pages, claims, sidecars, db, i, j);
    let b = db.pages@[i].coverage.blocks@[j];
    let p = |c: int| counts_claim(pages, sidecars, claims, i, j, c);
    if b.claims@.len() > 0 {
        assert(p(b.claims@[0] as int));
        assert(counts_claim(pages, sidecars, claims, i, j, b.claims@[0] as int));
    }
    if b.state == BlockState::Verified {
        let c = choose|c: int| #[trigger] counts_claim(pages, sidecars, claims, i, j, c);
        assert(p(c));
        assert(lists_index(b.claims@, c));
    }
    assert forall|c: int| 0 <= c < claims.len() implies (#[trigger] counts_claim(pages, sidecars, claims, i, j, c) <==> exists|w: int|
        0 <= w < b.claims@.len() && b.claims@[w] == c) by {
        if counts_claim(pages, sidecars, claims, i, j, c) {
            assert(p(c));
            assert(lists_index(b.claims@, c));
        }
        if exists|w: int| 0 <= w < b.claims@.len() && b.claims@[w] == c {
            let w = choose|w: int| 0 <= w < b.claims@.len() && b.claims@[w] == c;
            assert(p(b.claims@[w] as int));
        }
    }
}

/// Claims outrank coverage maps: a block an excerpt claim resolves to is
/// `verified`, whatever any sidecar entry says of it.
pub proof fn law_claims_outrank_sidecars(
    pages: Seq<MeasuredPage>,
    claims: Seq<Claim>,
    sidecars: Seq<Sidecar>,
    db: CoverageDatabase,
    i: int,
    j: int,
    c: int,
)
    requires
        resolution_of(pages, claims, sidecars, db),
        is_block(pages, i, j),
        0 <= c < claims.len(),
        claims[c].excerpt is Some,
        claim_hits(pages, claims[c], i, j),
    ensures
        db.pages@[i].coverage.blocks@[j].state == BlockState::Verified,
{
    lemma_block(pages, claims, sidecars, db, i, j);
    assert(counts_claim(pages, sidecars, claims, i, j, c));
}

/// Whole-section claims skip excluded blocks: a block its coverage map
/// (or, without an entry, the structural heuristic) excludes never lists
/// a whole-section claim.
pub proof fn law_whole_section_claims_skip_excluded(
    pages: Seq<MeasuredPage>,
    claims: Seq<Claim>,
    sidecars: Seq<Sidecar>,
    db: CoverageDatabase,
    i: int,
    j: int,
    w: int,
)
    requires
        resolution_of(pages, claims, sidecars, db),
        is_block(pages, i, j),
        excluded(pages, sidecars, i, j),
        0 <= w < db.pages@[i].coverage.blocks@[j].claims@.len(),
    ensures
        claims[db.pages@[i].coverage.blocks@[j].claims@[w] as int].excerpt is Some,
{
    lemma_block(pages, claims, sidecars, db, i, j);
    let b = db.pages@[i].coverage.blocks@[j];
    let p = |c: int| counts_claim(pages, sidecars, claims, i, j, c);
    assert(p(b.claims@[w] as int));
}

/// `unclassified` means nobody has decided: no claim counts for the
/// block, no coverage-map entry classifies it, the heuristic reads it as
/// prose, and no coverage map marks its page reviewed.
pub proof fn law_unclassified_is_undecided(
    pages: Seq<MeasuredPage>,
    claims: Seq<Claim>,
    sidecars: Seq<Sidecar>,
    db: CoverageDatabase,
    i: int,
    j: int,
)
    requires
        resolution_of(pages, claims, sidecars, db),
        is_block(pages, i, j),
        db.pages@[i].coverage.blocks@[j].state == BlockState::Unclassified,
    ensures
        forall|c: int| !#[trigger] counts_claim(pages, sidecars, claims, i, j, c),
        classifying_entry(pages, sidecars, i, j) is None,
        pages[i].blocks@[j].kind == StructuralKind::Prose,
        !reviewed_page(pages, sidecars, i),
{
    lemma_block(pages, claims, sidecars, db, i, j);
    let st = resolved_state(pages, sidecars, claims, i, j);
    assert(st == BlockState::Unclassified);
    match classifying_entry(pages, sidecars, i, j) {
        Some(en) => {
            assert(crate::coverage::sidecar::kind_state(en.kind) != BlockState::Unclassified);
        },
        None => {},
    }
}

/// The headline percentage reads only the four states in its
/// denominator: out-of-scope and non-normative blocks cannot move it.
pub proof fn law_percent_ignores_excluded_states(a: StateCounts, b: StateCounts)
    requires
        a.verified == b.verified,
        a.planned == b.planned,
        a.uncovered == b.uncovered,
        a.unclassified == b.unclassified,
    ensures
        percent_of(a) == percent_of(b),
{
}

/// Whether one claim list finds every claim the other does.
proof fn lemma_counting_claims_match(
    pages: Seq<MeasuredPage>,
    claims1: Seq<Claim>,
    claims2: Seq<Claim>,
    sidecars: Seq<Sidecar>,
    i: int,
    j: int,
)
    requires
        claims1.to_multiset() =~= claims2.to_multiset(),
    ensures
        (exists|c: int| #[trigger] counts_claim(pages, sidecars, claims1, i, j, c))
            ==> (exists|c: int| #[trigger] counts_claim(pages, sidecars, claims2, i, j, c)),
{
    broadcast use vstd::seq_lib::to_multiset_contains;
    if exists|c: int| #[trigger] counts_claim(pages, sidecars, claims1, i, j, c) {
        let c = choose|c: int| #[trigger] counts_claim(pages, sidecars, claims1, i, j, c);
        let claim = claims1[c];
        assert(claims1.contains(claim));
        assert(claims1.to_multiset().count(claim) > 0);
        assert(claims2.to_multiset().count(claim) > 0);
        assert(claims2.contains(claim));
        let d = choose|d: int| 0 <= d < claims2.len() && claims2[d] == claim;
        assert(counts_claim(pages, sidecars, claims2, i, j, d));
    }
}

/// Resolution does not depend on the order claims arrive in: scans that
/// find the same claims, in any order, resolve every block of every page
/// to the same state, and every page to the same counts.
pub proof fn law_claim_order_is_irrelevant(
    pages: Seq<MeasuredPage>,
    claims1: Seq<Claim>,
    claims2: Seq<Claim>,
    sidecars: Seq<Sidecar>,
    db1: CoverageDatabase,
    db2: CoverageDatabase,
    i: int,
)
    requires
        resolution_of(pages, claims1, sidecars, db1),
        resolution_of(pages, claims2, sidecars, db2),
        claims1.to_multiset() =~= claims2.to_multiset(),
        0 <= i < pages.len(),
    ensures
        forall|j: int| 0 <= j < pages[i].blocks@.len()
            ==> (#[trigger] db1.pages@[i].coverage.blocks@[j]).state == db2.pages@[i].coverage.blocks@[j].state,
        db1.pages@[i].coverage.counts == db2.pages@[i].coverage.counts,
{
    assert(page_resolved(pages, sidecars, claims1, i, db1.pages@[i]));
    assert(page_resolved(pages, sidecars, claims2, i, db2.pages@[i]));
    let b1 = db1.pages@[i].coverage.blocks@;
    let b2 = db2.pages@[i].coverage.blocks@;
    assert forall|j: int| 0 <= j < pages[i].blocks@.len() implies (#[trigger] b1[j]).state == b2[j].state by {
        lemma_block(pages, claims1, sidecars, db1, i, j);
        lemma_block(pages, claims2, sidecars, db2, i, j);
        lemma_counting_claims_match(pages, claims1, claims2, sidecars, i, j);
        lemma_counting_claims_match(pages, claims2, claims1, sidecars, i, j);
    }
    assert(block_states(b1) =~= block_states(b2)) by {
        assert forall|j: int| 0 <= j < b1.len() implies #[trigger] block_states(b1)[j] == block_states(b2)[j] by {
            assert(b1[j].state == b2[j].state);
        }
    }
    let c1 = db1.pages@[i].coverage.counts;
    let c2 = db2.pages@[i].coverage.counts;
    assert(count_of(c1, BlockState::Verified) == count_of(c2, BlockState::Verified));
    assert(count_of(c1, BlockState::Planned) == count_of(c2, BlockState::Planned));
    assert(count_of(c1, BlockState::Uncovered) == count_of(c2, BlockState::Uncovered));
    assert(count_of(c1, BlockState::Unclassified) == count_of(c2, BlockState::Unclassified));
    assert(count_of(c1, BlockState::OutOfScope) == count_of(c2, BlockState::OutOfScope));
    assert(count_of(c1, BlockState::NonNormative) == count_of(c2, BlockState::NonNormative));
}

/// Reordering the claims keeps who verifies what: every claim a block of
/// one resolution lists is listed, as the same claim, by that block in the
/// resolution of the same claims in another order.
pub proof fn law_claim_order_keeps_block_claims(
    pages: Seq<MeasuredPage>,
    claims1: Seq<Claim>,
    claims2: Seq<Claim>,
    sidecars: Seq<Sidecar>,
    db1: CoverageDatabase,
    db2: CoverageDatabase,
    i: int,
    j: int,
    w: int,
)
    requires
        resolution_of(pages, claims1, sidecars, db1),
        resolution_of(pages, claims2, sidecars, db2),
        claims1.to_multiset() =~= claims2.to_multiset(),
        is_block(pages, i, j),
        0 <= w < db1.pages@[i].coverage.blocks@[j].claims@.len(),
    ensures
        exists|w2: int|
            0 <= w2 < db2.pages@[i].coverage.blocks@[j].claims@.len() && claims2[
                #[trigger] db2.pages@[i].coverage.blocks@[j].claims@[w2] as int
            ] == claims1[db1.pages@[i].coverage.blocks@[j].claims@[w] as int],
{
    broadcast use vstd::seq_lib::to_multiset_contains;
    lemma_block(pages, claims1, sidecars, db1, i, j);
    lemma_block(pages, claims2, sidecars, db2, i, j);
    let r1 = db1.pages@[i].coverage.blocks@[j].claims@;
    let r2 = db2.pages@[i].coverage.blocks@[j].claims@;
    let c = r1[w] as int;
    assert(counts_claim(pages, sidecars, claims1, i, j, c));
    let claim = claims1[c];
    assert(claims1.contains(claim));
    assert(claims1.to_multiset().count(claim) > 0);
    assert(claims2.to_multiset().count(claim) > 0);
    assert(claims2.contains(claim));
    let d = choose|d: int| 0 <= d < claims2.len() && claims2[d] == claim;
    assert(counts_claim(pages, sidecars, claims2, i, j, d));
    let p2 = |k: int| counts_claim(pages, sidecars, claims2, i, j, k);
    assert(lists_exactly(r2, claims2.len() as int, p2));
    assert(p2(d));
    assert(lists_index(r2, d));
    let w2 = choose|w2: int| 0 <= w2 < r2.len() && r2[w2] as int == d;
    assert(claims2[r2[w2] as int] == claim);
}

/// The denominator comes from the spec itself: a block that counts in it
/// when no test claims anything still counts whatever tests claim, and
/// claims change a block's state only by verifying it.
pub proof fn law_denominator_comes_from_the_spec(
    pages: Seq<MeasuredPage>,
    claims: Seq<Claim>,
    sidecars: Seq<Sidecar>,
    db: CoverageDatabase,
    unclaimed: CoverageDatabase,
    i: int,
    j: int,
)
    requires
        resolution_of(pages, claims, sidecars, db),
        resolution_of(pages, Seq::empty(), sidecars, unclaimed),
        is_block(pages, i, j),
    ensures
        counts_in_denominator(unclaimed.pages@[i].coverage.blocks@[j].state)
            ==> counts_in_denominator(db.pages@[i].coverage.blocks@[j].state),
        db.pages@[i].coverage.blocks@[j].state != BlockState::Verified
            ==> db.pages@[i].coverage.blocks@[j].state == unclaimed.pages@[i].coverage.blocks@[j].state,
{
    lemma_block(pages, claims, sidecars, db, i, j);
    lemma_block(pages, Seq::empty(), sidecars, unclaimed, i, j);
    assert(!exists|c: int| #[trigger] counts_claim(pages, sidecars, Seq::<Claim>::empty(), i, j, c));
}

} // verus!
