//! The block-level coverage model: every measured page is a sequence of
//! blocks, and each block resolves to exactly one [`BlockState`].

use vstd::prelude::*;

use crate::model::catalog::Coords;

use crate::text::{chars_of, contains_chars, dec, index_of, is_digit, is_infix, owned, push_chars, push_str, slice_vec, string_of, trim_chars, trim_ws, first_index};

verus! {

/// The state of one block of a measured page.
#[derive(Clone, Copy, Debug, PartialEq, Eq, Hash, Structural)]
pub enum BlockState {
    /// At least one claim resolves to this block.
    Verified,
    /// Not implemented yet; carries a tracking link.
    Planned,
    /// Normative, no claim, no annotation.
    Uncovered,
    /// The heuristics could not decide and no human has.
    Unclassified,
    /// Deliberately not implemented; carries a reason.
    OutOfScope,
    /// Describes rather than specifies.
    NonNormative,
}

/// The token of a state (its CSS `data-coverage` value).
pub open spec fn state_token(s: BlockState) -> Seq<char> {
    match s {
        BlockState::Verified => "verified"@,
        BlockState::Planned => "planned"@,
        BlockState::Uncovered => "uncovered"@,
        BlockState::Unclassified => "unclassified"@,
        BlockState::OutOfScope => "out-of-scope"@,
        BlockState::NonNormative => "non-normative"@,
    }
}

/// Whether a state counts in the headline percentage's denominator.
pub open spec fn counts_in_denominator(s: BlockState) -> bool {
    s == BlockState::Verified || s == BlockState::Planned || s == BlockState::Uncovered || s
        == BlockState::Unclassified
}

impl BlockState {
    /// Every state, in dashboard order (the denominator states first).
    pub fn all() -> (r: [BlockState; 6])
        ensures
            r@ == seq![
                BlockState::Verified,
                BlockState::Planned,
                BlockState::Uncovered,
                BlockState::Unclassified,
                BlockState::OutOfScope,
                BlockState::NonNormative,
            ],
    {
        let r = [
            BlockState::Verified,
            BlockState::Planned,
            BlockState::Uncovered,
            BlockState::Unclassified,
            BlockState::OutOfScope,
            BlockState::NonNormative,
        ];
        assert(r@ =~= seq![
            BlockState::Verified,
            BlockState::Planned,
            BlockState::Uncovered,
            BlockState::Unclassified,
            BlockState::OutOfScope,
            BlockState::NonNormative,
        ]);
        r
    }

    /// The state's token, used as its CSS `data-coverage` value and in
    /// JSON output.
    pub fn token(self) -> (r: &'static str)
        ensures
            r@ == state_token(self),
    {
        match self {
            BlockState::Verified => "verified",
            BlockState::Planned => "planned",
            BlockState::Uncovered => "uncovered",
            BlockState::Unclassified => "unclassified",
            BlockState::OutOfScope => "out-of-scope",
            BlockState::NonNormative => "non-normative",
        }
    }

    /// Whether the state counts in the headline percentage's denominator.
    pub fn in_denominator(self) -> (b: bool)
        ensures
            b == counts_in_denominator(self),
    {
        match self {
            BlockState::Verified | BlockState::Planned | BlockState::Uncovered | BlockState::Unclassified => true,
            _ => false,
        }
    }
}

/// What the structural heuristic says about a block no sidecar entry and
/// no claim touches.
#[derive(Clone, Copy, Debug, PartialEq, Eq, Structural)]
pub enum StructuralKind {
    /// Prose that may carry a rule.
    Prose,
    /// Content that illustrates rather than specifies.
    NonNormative,
}

/// One block of a measured page, as the resolver sees it.
#[derive(Clone, Debug, PartialEq)]
pub struct SpecBlock {
    /// The block's resolved context (`paragraph`, `listing`, …).
    pub context: String,
    /// The block's source text.
    pub text: String,
    /// The 1-based line the block starts at in the preprocessed source.
    pub start_line: u32,
    /// The number of preprocessed source lines the block spans.
    pub line_count: u32,
    /// The block's `(start, count)` line span in the page's own source
    /// file, when it originates there.
    pub page_lines: Option<(u32, u32)>,
    /// The IDs of the sections enclosing the block, outermost first.
    pub sections: Vec<String>,
    /// The structural heuristic's classification.
    pub kind: StructuralKind,
}

/// One page the coverage engine measures.
#[derive(Clone, Debug)]
pub struct MeasuredPage {
    /// The page's catalog coordinates.
    pub coords: Coords,
    /// The page's site-root-relative URL.
    pub url: String,
    /// The page's path within its repository.
    pub repo_path: String,
    /// The index of the `coverage.scan` entry the page belongs to.
    pub scope: usize,
    /// The page's blocks, in document order.
    pub blocks: Vec<SpecBlock>,
    /// Every section ID on the page.
    pub section_ids: Vec<String>,
}

/// Where a claim was found.
#[derive(Clone, Debug, PartialEq)]
pub struct ClaimSite {
    /// The Rust file, relative to its repository root.
    pub file: String,
    /// The file's absolute path, when the test root is local.
    pub local_path: Option<String>,
    /// The 1-based line of the `verifies!` invocation.
    pub line: u32,
    /// The enclosing test function's name.
    pub test_fn: Option<String>,
    /// The 1-based line the enclosing function starts at.
    pub fn_line: Option<u32>,
    /// The enclosing function's source, its shared indentation removed.
    pub fn_source: Option<String>,
    /// The enclosing crate's package name.
    pub krate: Option<String>,
    /// The repository the file came from.
    pub repo: Option<String>,
    /// The repository revision the file was read at.
    pub rev: Option<String>,
    /// The `coverage.scan` entry index the test root belongs to.
    pub scope: usize,
}

/// A claim's page target.
#[derive(Clone, Debug, PartialEq)]
pub enum ClaimTarget {
    /// A path as written in the scanned repository.
    Path(String),
    /// A full Antora-style resource ID.
    ResourceId(String),
}

/// One `verifies!` claim.
#[derive(Clone, Debug, PartialEq)]
pub struct Claim {
    /// The page the claim targets.
    pub target: ClaimTarget,
    /// The `#anchor` section scope, if any.
    pub anchor: Option<String>,
    /// The excerpt; `None` claims the whole section named by `anchor`.
    pub excerpt: Option<String>,
    /// Where the claim was found.
    pub site: ClaimSite,
}

/// The text of a claim target.
pub open spec fn target_text(t: ClaimTarget) -> Seq<char> {
    match t {
        ClaimTarget::Path(p) => p@,
        ClaimTarget::ResourceId(p) => p@,
    }
}

/// The claim as the user wrote its target: `path` or `path#anchor`.
pub open spec fn claim_display(c: Claim) -> Seq<char> {
    match c.anchor {
        Some(a) => target_text(c.target) + "#"@ + a@,
        None => target_text(c.target),
    }
}

/// A claim's provenance label: `crate::test_fn`, `test_fn`, or
/// `file:line`.
pub open spec fn claim_label(c: Claim) -> Seq<char> {
    match (c.site.krate, c.site.test_fn) {
        (Some(k), Some(t)) => k@ + "::"@ + t@,
        (None, Some(t)) => t@,
        _ => c.site.file@ + ":"@ + dec(c.site.line as nat),
    }
}

impl Claim {
    /// The claim as the user wrote its target: `path`, `path#anchor`.
    pub fn target_display(&self) -> (r: String)
        ensures
            r@ == claim_display(*self),
    {
        let mut out = String::new();
        match &self.target {
            ClaimTarget::Path(p) => push_str(&mut out, p.as_str()),
            ClaimTarget::ResourceId(p) => push_str(&mut out, p.as_str()),
        }
        match &self.anchor {
            Some(a) => {
                push_str(&mut out, "#");
                push_str(&mut out, a.as_str());
            },
            None => {},
        }
        out
    }

    /// A short human label for the claim's provenance: `crate::test_fn`
    /// (or `file:line` when no function encloses it).
    pub fn label(&self) -> (r: String)
        ensures
            r@ == claim_label(*self),
    {
        match (&self.site.krate, &self.site.test_fn) {
            (Some(k), Some(t)) => {
                let mut out = owned(k.as_str());
                push_str(&mut out, "::");
                push_str(&mut out, t.as_str());
                out
            },
            (None, Some(t)) => owned(t.as_str()),
            _ => {
                let mut out = owned(self.site.file.as_str());
                push_str(&mut out, ":");
                let mut digits: Vec<char> = Vec::new();
                crate::text::push_dec(&mut digits, self.site.line as u64);
                push_chars(&mut out, digits.as_slice());
                out
            },
        }
    }
}

/// A tracking reference of a `planned` entry.
#[derive(Clone, Debug, PartialEq)]
pub struct Tracking {
    /// The reference as written.
    pub raw: String,
    /// The URL it links to.
    pub url: String,
}

/// Whether `owner/repo#N` shorthand applies: exactly one `/` before the
/// `#`, and an issue number (one or more digits) after it.
pub open spec fn is_issue_shorthand(repo: Seq<char>, number: Seq<char>) -> bool {
    repo.filter(|c: char| c == '/').len() == 1 && number.len() > 0 && forall|i: int| 0 <= i < number.len() ==> is_digit(#[trigger] number[i])
}

/// The URL a tracking reference links to.
pub open spec fn tracking_url(raw: Seq<char>) -> Seq<char> {
    let t = trim_ws(raw);
    let h = first_index(t, '#');
    if is_infix("://"@, t) {
        t
    } else if h >= 0 && is_issue_shorthand(t.take(h), t.skip(h + 1)) {
        "https://github.com/"@ + t.take(h) + "/issues/"@ + t.skip(h + 1)
    } else {
        t
    }
}

fn count_slashes(s: &[char]) -> (n: usize)
    ensures
        n == s@.filter(|c: char| c == '/').len(),
{
    let mut n: usize = 0;
    let mut i: usize = 0;
    while i < s.len()
        invariant
            i <= s.len(),
            n == s@.take(i as int).filter(|c: char| c == '/').len(),
            n <= i,
        decreases s.len() - i,
    {
        assert(s@.take(i + 1).drop_last() == s@.take(i as int));
        reveal_with_fuel(Seq::filter, 1);
        if s[i] == '/' {
            n += 1;
        }
        i += 1;
    }
    assert(s@.take(s.len() as int) == s@);
    n
}

fn all_ascii_digits(s: &[char]) -> (b: bool)
    ensures
        b == forall|i: int| 0 <= i < s@.len() ==> is_digit(#[trigger] s@[i]),
{
    let mut i: usize = 0;
    while i < s.len()
        invariant
            i <= s.len(),
            forall|k: int| 0 <= k < i ==> is_digit(#[trigger] s@[k]),
        decreases s.len() - i,
    {
        if !('0' <= s[i] && s[i] <= '9') {
            assert(!is_digit(s@[i as int]));
            return false;
        }
        i += 1;
    }
    true
}

impl Tracking {
    /// Parses a tracking reference: a URL is kept as is, and
    /// `owner/repo#N` templates to the GitHub issue URL.
    pub fn parse(raw: &str) -> (r: Self)
        ensures
            r.raw@ == trim_ws(raw@),
            r.url@ == tracking_url(raw@),
    {
        let c = chars_of(raw);
        let t = trim_chars(c.as_slice());
        let scheme = chars_of("://");
        let url = if contains_chars(t.as_slice(), scheme.as_slice()) {
            string_of(t.as_slice())
        } else {
            match index_of(t.as_slice(), '#') {
                Some(h) => {
                    let repo = slice_vec(t.as_slice(), 0, h);
                    let number = slice_vec(t.as_slice(), h + 1, t.len());
                    if count_slashes(repo.as_slice()) == 1 && number.len() > 0 && all_ascii_digits(number.as_slice()) {
                        let mut out = owned("https://github.com/");
                        push_chars(&mut out, repo.as_slice());
                        push_str(&mut out, "/issues/");
                        push_chars(&mut out, number.as_slice());
                        out
                    } else {
                        string_of(t.as_slice())
                    }
                },
                None => string_of(t.as_slice()),
            }
        };
        Tracking { raw: string_of(t.as_slice()), url }
    }
}

/// The resolved coverage of one block.
#[derive(Clone, Debug, PartialEq)]
pub struct BlockCoverage {
    /// The block's state.
    pub state: BlockState,
    /// The block's resolved context, for display.
    pub context: String,
    /// The block's line span in the page's own file.
    pub page_lines: Option<(u32, u32)>,
    /// The recorded reason of an `out-of-scope` block.
    pub reason: Option<String>,
    /// The tracking link of a `planned` block.
    pub tracking: Option<Tracking>,
    /// Indexes into the database's claim list of every claim resolving
    /// to this block.
    pub claims: Vec<usize>,
}

/// Per-state block counts.
#[derive(Clone, Copy, Debug, Default, PartialEq, Eq)]
pub struct StateCounts {
    pub verified: usize,
    pub planned: usize,
    pub uncovered: usize,
    pub unclassified: usize,
    pub out_of_scope: usize,
    pub non_normative: usize,
}

/// The count a tally keeps for one state.
pub open spec fn count_of(c: StateCounts, s: BlockState) -> int {
    match s {
        BlockState::Verified => c.verified as int,
        BlockState::Planned => c.planned as int,
        BlockState::Uncovered => c.uncovered as int,
        BlockState::Unclassified => c.unclassified as int,
        BlockState::OutOfScope => c.out_of_scope as int,
        BlockState::NonNormative => c.non_normative as int,
    }
}

/// The headline denominator: `verified + planned + uncovered +
/// unclassified`.
pub open spec fn denominator_of(c: StateCounts) -> int {
    c.verified + c.planned + c.uncovered + c.unclassified
}

/// The headline percentage: `verified * 100 / denominator`, rounded down,
/// and 100 when the denominator is empty.
pub open spec fn percent_of(c: StateCounts) -> int {
    if denominator_of(c) == 0 { 100 } else { (c.verified * 100) / denominator_of(c) }
}

/// Whether every count and the headline arithmetic fit in `usize`.
pub open spec fn counts_fit(c: StateCounts) -> bool {
    c.verified * 100 <= usize::MAX && denominator_of(c) <= usize::MAX
}

/// The tally of a sequence of states.
pub open spec fn tally(states: Seq<BlockState>, s: BlockState) -> int
    decreases states.len(),
{
    if states.len() == 0 {
        0
    } else {
        tally(states.drop_last(), s) + if states.last() == s { 1int } else { 0int }
    }
}

impl StateCounts {
    /// Counts one more block in `state`.
    pub fn add(&mut self, state: BlockState)
        requires
            count_of(*old(self), state) < usize::MAX,
        ensures
            forall|s: BlockState| #[trigger] count_of(*final(self), s) == count_of(*old(self), s) + if s == state { 1int } else { 0int },
    {
        match state {
            BlockState::Verified => self.verified += 1,
            BlockState::Planned => self.planned += 1,
            BlockState::Uncovered => self.uncovered += 1,
            BlockState::Unclassified => self.unclassified += 1,
            BlockState::OutOfScope => self.out_of_scope += 1,
            BlockState::NonNormative => self.non_normative += 1,
        }
    }

    /// Adds every count of `other`.
    pub fn add_counts(&mut self, other: &StateCounts)
        requires
            forall|s: BlockState| #[trigger] count_of(*old(self), s) + count_of(*other, s) <= usize::MAX,
        ensures
            forall|s: BlockState| #[trigger] count_of(*final(self), s) == count_of(*old(self), s) + count_of(*other, s),
    {
        assert(count_of(*self, BlockState::Verified) + count_of(*other, BlockState::Verified) <= usize::MAX);
        assert(count_of(*self, BlockState::Planned) + count_of(*other, BlockState::Planned) <= usize::MAX);
        assert(count_of(*self, BlockState::Uncovered) + count_of(*other, BlockState::Uncovered) <= usize::MAX);
        assert(count_of(*self, BlockState::Unclassified) + count_of(*other, BlockState::Unclassified) <= usize::MAX);
        assert(count_of(*self, BlockState::OutOfScope) + count_of(*other, BlockState::OutOfScope) <= usize::MAX);
        assert(count_of(*self, BlockState::NonNormative) + count_of(*other, BlockState::NonNormative) <= usize::MAX);
        self.verified += other.verified;
        self.planned += other.planned;
        self.uncovered += other.uncovered;
        self.unclassified += other.unclassified;
        self.out_of_scope += other.out_of_scope;
        self.non_normative += other.non_normative;
    }

    /// The count for one state.
    pub fn get(&self, state: BlockState) -> (r: usize)
        ensures
            r == count_of(*self, state),
    {
        match state {
            BlockState::Verified => self.verified,
            BlockState::Planned => self.planned,
            BlockState::Uncovered => self.uncovered,
            BlockState::Unclassified => self.unclassified,
            BlockState::OutOfScope => self.out_of_scope,
            BlockState::NonNormative => self.non_normative,
        }
    }

    /// The headline denominator: `verified + planned + uncovered +
    /// unclassified`.
    pub fn denominator(&self) -> (r: usize)
        requires
            denominator_of(*self) <= usize::MAX,
        ensures
            r == denominator_of(*self),
    {
        self.verified + self.planned + self.uncovered + self.unclassified
    }

    /// The headline metric, `verified / denominator` as a percentage (100
    /// when the denominator is empty).
    pub fn percent_verified(&self) -> (r: u32)
        requires
            counts_fit(*self),
        ensures
            r == percent_of(*self),
            r <= 100,
    {
        let d = self.denominator();
        if d == 0 {
            100
        } else {
            let v = self.verified * 100;
            let p = v / d;
            let ghost vi: int = self.verified as int;
            let ghost di: int = d as int;
            assert((vi * 100) / di <= 100) by (nonlinear_arith)
                requires vi <= di, di > 0, vi >= 0;
            p as u32
        }
    }
}

/// The resolved coverage of one page.
#[derive(Clone, Debug, PartialEq)]
pub struct PageCoverage {
    /// Per-block coverage, in document order.
    pub blocks: Vec<BlockCoverage>,
    /// The page's per-state counts.
    pub counts: StateCounts,
}

/// The states of a page's blocks, in order.
pub open spec fn block_states(blocks: Seq<BlockCoverage>) -> Seq<BlockState> {
    Seq::new(blocks.len(), |i: int| blocks[i].state)
}

/// Whether `counts` is the tally of `states`.
pub open spec fn tallies(counts: StateCounts, states: Seq<BlockState>) -> bool {
    forall|s: BlockState| #[trigger] count_of(counts, s) == tally(states, s)
}

/// A tally never exceeds the number of states tallied.
pub proof fn lemma_tally_bounds(states: Seq<BlockState>, s: BlockState)
    ensures
        0 <= tally(states, s) <= states.len(),
    decreases states.len(),
{
    if states.len() > 0 {
        lemma_tally_bounds(states.drop_last(), s);
    }
}

/// The six tallies add up to the number of states: every block resolves to
/// exactly one state.
pub proof fn lemma_tally_total(states: Seq<BlockState>)
    ensures
        tally(states, BlockState::Verified) + tally(states, BlockState::Planned) + tally(states, BlockState::Uncovered)
            + tally(states, BlockState::Unclassified) + tally(states, BlockState::OutOfScope) + tally(
            states,
            BlockState::NonNormative,
        ) == states.len(),
    decreases states.len(),
{
    if states.len() > 0 {
        lemma_tally_total(states.drop_last());
    }
}

impl PageCoverage {
    /// Builds page coverage from resolved blocks, tallying the counts.
    pub fn from_blocks(blocks: Vec<BlockCoverage>) -> (r: Self)
        ensures
            r.blocks@ == blocks@,
            tallies(r.counts, block_states(blocks@)),
    {
        let mut counts = StateCounts { verified: 0, planned: 0, uncovered: 0, unclassified: 0, out_of_scope: 0, non_normative: 0 };
        let mut i: usize = 0;
        while i < blocks.len()
            invariant
                i <= blocks.len(),
                tallies(counts, block_states(blocks@.take(i as int))),
            decreases blocks.len() - i,
        {
            let ghost pre = block_states(blocks@.take(i as int));
            assert(block_states(blocks@.take(i + 1)) =~= pre.push(blocks@[i as int].state));
            proof {
                lemma_tally_bounds(pre, blocks@[i as int].state);
            }
            counts.add(blocks[i].state);
            i += 1;
            assert forall|s: BlockState| #[trigger] count_of(counts, s) == tally(block_states(blocks@.take(i as int)), s) by {
                assert(block_states(blocks@.take(i as int)).drop_last() == pre);
            }
        }
        assert(blocks@.take(blocks.len() as int) == blocks@);
        PageCoverage { blocks, counts }
    }

    /// The page's headline percentage.
    pub fn percent_verified(&self) -> (r: u32)
        requires
            counts_fit(self.counts),
        ensures
            r == percent_of(self.counts),
    {
        self.counts.percent_verified()
    }
}

/// One measured page's record in the coverage database.
#[derive(Clone, Debug)]
pub struct PageRecord {
    /// The page's coordinates.
    pub coords: Coords,
    /// The page's site-root-relative URL.
    pub url: String,
    /// The page's repository-relative path.
    pub repo_path: String,
    /// The page's resolved coverage.
    pub coverage: PageCoverage,
}

/// The six counts of a page tally its blocks, so they add up to the
/// number of blocks: every block resolves to exactly one state, and the
/// headline percentage never exceeds 100.
pub proof fn law_counts_cover_every_block(page: PageCoverage)
    requires
        tallies(page.counts, block_states(page.blocks@)),
    ensures
        page.counts.verified + page.counts.planned + page.counts.uncovered + page.counts.unclassified
            + page.counts.out_of_scope + page.counts.non_normative == page.blocks@.len(),
        page.counts.verified <= denominator_of(page.counts),
        0 <= percent_of(page.counts) <= 100,
{
    let st = block_states(page.blocks@);
    lemma_tally_total(st);
    assert(count_of(page.counts, BlockState::Verified) == tally(st, BlockState::Verified));
    assert(count_of(page.counts, BlockState::Planned) == tally(st, BlockState::Planned));
    assert(count_of(page.counts, BlockState::Uncovered) == tally(st, BlockState::Uncovered));
    assert(count_of(page.counts, BlockState::Unclassified) == tally(st, BlockState::Unclassified));
    assert(count_of(page.counts, BlockState::OutOfScope) == tally(st, BlockState::OutOfScope));
    assert(count_of(page.counts, BlockState::NonNormative) == tally(st, BlockState::NonNormative));
    let c = page.counts;
    if denominator_of(c) > 0 {
        assert((c.verified * 100) / denominator_of(c) <= 100) by (nonlinear_arith)
            requires c.verified <= denominator_of(c), denominator_of(c) > 0;
    }
}

} // verus!
