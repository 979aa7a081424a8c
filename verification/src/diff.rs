//! AsciiDoc-aware structural diff: two sequences of blocks (one per
//! document, in document order) become a block-level change model plus
//! word-level `<ins>`/`<del>` HTML for edited blocks. The sequence
//! alignment and the word diff come from the `similar` crate; what the
//! alignment means for blocks (which replaced blocks pair up as edits) is
//! decided here.

use vstd::prelude::*;
use crate::text::chars_of;
use crate::theme::{escaped, push_escaped};

verus! {

/// One diffable block: its resolved context and its source text.
#[derive(Clone, Debug, Eq, Hash, Ord, PartialEq, PartialOrd)]
pub struct BlockUnit {
    /// The block's resolved context (e.g. `paragraph`, `listing`, `list`).
    pub kind: String,
    /// The block's source text.
    pub text: String,
}

/// The texts of a block sequence.
pub open spec fn unit_views(v: Seq<BlockUnit>) -> Seq<(Seq<char>, Seq<char>)> {
    Seq::new(v.len(), |i: int| (v[i].kind@, v[i].text@))
}

/// One aligned change between the old and new block sequences. Indexes
/// refer to the input slices.
#[derive(Clone, Debug, Eq, PartialEq)]
pub enum BlockChange {
    /// The block is present in both documents, byte-for-byte.
    Unchanged {
        /// Index in the old sequence.
        old: usize,
        /// Index in the new sequence.
        new: usize,
    },
    /// The block only exists in the new document.
    Added {
        /// Index in the new sequence.
        new: usize,
    },
    /// The block only exists in the old document.
    Removed {
        /// Index in the old sequence.
        old: usize,
    },
    /// The block exists in both documents with modified content.
    Edited {
        /// Index in the old sequence.
        old: usize,
        /// Index in the new sequence.
        new: usize,
        /// The block's source with word-level changes wrapped in
        /// `<del>`/`<ins>` (all text HTML-escaped).
        diff_html: String,
    },
}

/// A change with its markup as text.
pub enum ChangeView {
    Unchanged { old: int, new: int },
    Added { new: int },
    Removed { old: int },
    Edited { old: int, new: int, diff_html: Seq<char> },
}

pub open spec fn change_view(c: BlockChange) -> ChangeView {
    match c {
        BlockChange::Unchanged { old, new } => ChangeView::Unchanged { old: old as int, new: new as int },
        BlockChange::Added { new } => ChangeView::Added { new: new as int },
        BlockChange::Removed { old } => ChangeView::Removed { old: old as int },
        BlockChange::Edited { old, new, diff_html } => ChangeView::Edited {
            old: old as int,
            new: new as int,
            diff_html: diff_html@,
        },
    }
}

pub open spec fn change_views(v: Seq<BlockChange>) -> Seq<ChangeView> {
    Seq::new(v.len(), |i: int| change_view(v[i]))
}

/// The diff of two block sequences, in document order of the *new*
/// document (removed blocks are interleaved where their neighbors ended
/// up).
#[derive(Clone, Debug, Default)]
pub struct BlockSeqDiff {
    /// Every aligned change, in order.
    pub changes: Vec<BlockChange>,
    /// Count of added blocks.
    pub added: usize,
    /// Count of removed blocks.
    pub removed: usize,
    /// Count of edited blocks.
    pub edited: usize,
}

/// The new-side token of a change, if it has one.
pub open spec fn new_slot(c: BlockChange) -> Option<(int, Seq<char>)> {
    match c {
        BlockChange::Added { new } => Some((new as int, "added"@)),
        BlockChange::Edited { new, .. } => Some((new as int, "edited"@)),
        _ => None,
    }
}

/// Whether a change's new-side slot, if any, lies below `new_len`.
pub open spec fn slot_below(c: BlockChange, new_len: int) -> bool {
    match new_slot(c) {
        Some((i, t)) => i < new_len,
        None => true,
    }
}

/// The per-new-block tokens after applying the changes in order (a later
/// change to the same slot wins).
pub open spec fn tokens_after(changes: Seq<BlockChange>, new_len: nat) -> Seq<Option<Seq<char>>>
    decreases changes.len(),
{
    if changes.len() == 0 {
        Seq::new(new_len, |i: int| None)
    } else {
        let prev = tokens_after(changes.drop_last(), new_len);
        match new_slot(changes.last()) {
            Some((i, t)) => if 0 <= i < new_len { prev.update(i, Some(t)) } else { prev },
            None => prev,
        }
    }
}

impl BlockSeqDiff {
    /// Whether anything changed at all.
    pub fn is_changed(&self) -> (b: bool)
        requires
            self.added + self.removed + self.edited <= usize::MAX,
        ensures
            b == (self.added + self.removed + self.edited > 0),
    {
        self.added + self.removed + self.edited > 0
    }

    /// Per-new-block change tokens in new-document order: `Some("added")`
    /// / `Some("edited")` for changed blocks, `None` for unchanged ones.
    pub fn new_block_tokens(&self, new_len: usize) -> (r: Vec<Option<&'static str>>)
        requires
            forall|k: int| 0 <= k < self.changes@.len() ==> #[trigger] slot_below(self.changes@[k], new_len as int),
        ensures
            Seq::new(r@.len(), |i: int| match r@[i] {
                Some(t) => Some(t@),
                None => None,
            }) == tokens_after(self.changes@, new_len as nat),
    {
        let mut tokens: Vec<Option<&'static str>> = Vec::new();
        let mut i: usize = 0;
        while i < new_len
            invariant
                i <= new_len,
                tokens@.len() == i,
                forall|j: int| 0 <= j < i ==> tokens@[j] is None,
            decreases new_len - i,
        {
            tokens.push(None);
            i += 1;
        }
        let mut k: usize = 0;
        while k < self.changes.len()
            invariant
                k <= self.changes@.len(),
                tokens@.len() == new_len,
                forall|m: int| 0 <= m < self.changes@.len() ==> #[trigger] slot_below(self.changes@[m], new_len as int),
                Seq::new(tokens@.len(), |i: int| match tokens@[i] {
                    Some(t) => Some(t@),
                    None => None,
                }) == tokens_after(self.changes@.take(k as int), new_len as nat),
            decreases self.changes.len() - k,
        {
            let ghost before = tokens@;
            assert(self.changes@.take(k + 1).drop_last() == self.changes@.take(k as int));
            assert(slot_below(self.changes@[k as int], new_len as int));
            match &self.changes[k] {
                BlockChange::Added { new } => {
                    tokens.set(*new, Some("added"));
                },
                BlockChange::Edited { new, .. } => {
                    tokens.set(*new, Some("edited"));
                },
                _ => {},
            }
            k += 1;
            assert(Seq::new(tokens@.len(), |i: int| match tokens@[i] {
                Some(t) => Some(t@),
                None => None,
            }) =~= tokens_after(self.changes@.take(k as int), new_len as nat));
        }
        assert(self.changes@.take(self.changes@.len() as int) == self.changes@);
        r_tokens(tokens)
    }
}

fn r_tokens(tokens: Vec<Option<&'static str>>) -> (r: Vec<Option<&'static str>>)
    ensures
        r@ == tokens@,
{
    tokens
}

// ---------------------------------------------------------------------
// What `similar` computes
// ---------------------------------------------------------------------

/// One run of a sequence alignment, as `similar::DiffOp` reports it.
#[derive(Clone, Copy, Debug, PartialEq, Eq, Structural)]
pub enum DiffRun {
    /// `len` equal items from `old_index` / `new_index`.
    Equal { old_index: usize, new_index: usize, len: usize },
    /// `old_len` items deleted from `old_index`.
    Delete { old_index: usize, old_len: usize, new_index: usize },
    /// `new_len` items inserted at `new_index`.
    Insert { old_index: usize, new_index: usize, new_len: usize },
    /// `old_len` items from `old_index` replaced by `new_len` items from
    /// `new_index`.
    Replace { old_index: usize, old_len: usize, new_index: usize, new_len: usize },
}

/// The patience alignment `similar` computes for two block sequences.
pub uninterp spec fn patience_diff(old: Seq<(Seq<char>, Seq<char>)>, new: Seq<(Seq<char>, Seq<char>)>) -> Seq<DiffRun>;

/// `similar::capture_diff_slices` with the patience algorithm over the
/// two block sequences (compared by kind and text), its runs converted
/// one for one. The runs are named, not described.
#[verifier::external_body]
fn patience_runs(old: &[BlockUnit], new: &[BlockUnit]) -> (r: Vec<DiffRun>)
    ensures
        r@ == patience_diff(unit_views(old@), unit_views(new@)),
{
    similar::capture_diff_slices(similar::Algorithm::Patience, old, new).into_iter().map(|op| match op {
        similar::DiffOp::Equal { old_index, new_index, len } => DiffRun::Equal { old_index, new_index, len },
        similar::DiffOp::Delete { old_index, old_len, new_index } => DiffRun::Delete { old_index, old_len, new_index },
        similar::DiffOp::Insert { old_index, new_index, new_len } => DiffRun::Insert { old_index, new_index, new_len },
        similar::DiffOp::Replace { old_index, old_len, new_index, new_len } => DiffRun::Replace { old_index, old_len, new_index, new_len },
    }).collect()
}

/// The word-level alignment `similar` computes for two texts, with the
/// number of word tokens of each side.
pub uninterp spec fn word_alignment(old: Seq<char>, new: Seq<char>) -> (Seq<DiffRun>, nat, nat);

/// `similar::TextDiff::from_words` on two texts: its runs (converted one
/// for one) and the token counts of both sides. Named, not described.
#[verifier::external_body]
fn word_runs(old: &str, new: &str) -> (r: (Vec<DiffRun>, usize, usize))
    ensures
        word_alignment(old@, new@) == (r.0@, r.1 as nat, r.2 as nat),
{
    let diff = similar::TextDiff::from_words(old, new);
    let runs = diff.ops().iter().map(|op| match *op {
        similar::DiffOp::Equal { old_index, new_index, len } => DiffRun::Equal { old_index, new_index, len },
        similar::DiffOp::Delete { old_index, old_len, new_index } => DiffRun::Delete { old_index, old_len, new_index },
        similar::DiffOp::Insert { old_index, new_index, new_len } => DiffRun::Insert { old_index, new_index, new_len },
        similar::DiffOp::Replace { old_index, old_len, new_index, new_len } => DiffRun::Replace { old_index, old_len, new_index, new_len },
    }).collect();
    (runs, diff.old_slices().len(), diff.new_slices().len())
}

/// The kind of one word-level change.
#[derive(Clone, Copy, Debug, PartialEq, Eq, Structural)]
pub enum WordTag {
    /// Text present on both sides.
    Equal,
    /// Text only in the old text.
    Delete,
    /// Text only in the new text.
    Insert,
}

/// The word-level changes `similar` reports for two texts, in order.
pub uninterp spec fn word_changes_of(old: Seq<char>, new: Seq<char>) -> Seq<(WordTag, Seq<char>)>;

pub open spec fn tagged_views(v: Seq<(WordTag, String)>) -> Seq<(WordTag, Seq<char>)> {
    Seq::new(v.len(), |i: int| (v[i].0, v[i].1@))
}

/// `similar::TextDiff::from_words(old, new).iter_all_changes()`, each
/// change as its tag and text. Named, not described.
#[verifier::external_body]
fn word_changes(old: &str, new: &str) -> (r: Vec<(WordTag, String)>)
    ensures
        tagged_views(r@) == word_changes_of(old@, new@),
{
    let diff = similar::TextDiff::from_words(old, new);
    diff.iter_all_changes().map(|change| {
        let tag = match change.tag() {
            similar::ChangeTag::Equal => WordTag::Equal,
            similar::ChangeTag::Delete => WordTag::Delete,
            similar::ChangeTag::Insert => WordTag::Insert,
        };
        (tag, change.value().to_string())
    }).collect()
}

// ---------------------------------------------------------------------
// Word level
// ---------------------------------------------------------------------

/// The total length of the equal runs of an alignment.
pub open spec fn equal_total(runs: Seq<DiffRun>) -> int
    decreases runs.len(),
{
    if runs.len() == 0 {
        0
    } else {
        equal_total(runs.drop_last()) + match runs.last() {
            DiffRun::Equal { len, .. } => len as int,
            _ => 0,
        }
    }
}

/// Whether two texts are similar enough to pair as one edited block:
/// equal words make up at least 40% of both sides' words together
/// (`2·equal / (old + new) ≥ 0.4`, `similar`'s ratio), and two empty
/// texts are identical.
pub open spec fn similar_enough(old: Seq<char>, new: Seq<char>) -> bool {
    let (runs, a, b) = word_alignment(old, new);
    a + b == 0 || 5 * equal_total(runs) >= a + b
}

/// Whether a word alignment with `a` old and `b` new words pairs its texts
/// as one edited block: equal words make up at least 40% of all words, or
/// there are none.
pub fn similar_alignment(runs: &[DiffRun], a: usize, b: usize) -> (r: bool)
    ensures
        r == (a + b == 0 || 5 * equal_total(runs@) >= a + b),
{
    let mut total: u128 = 0;
    let mut k: usize = 0;
    while k < runs.len()
        invariant
            k <= runs.len(),
            total == equal_total(runs@.take(k as int)),
            total <= k * 0x1_0000_0000_0000_0000,
        decreases runs.len() - k,
    {
        assert(runs@.take(k + 1).drop_last() == runs@.take(k as int));
        match runs[k] {
            DiffRun::Equal { len, .. } => {
                assert(total + len <= (k + 1) * 0x1_0000_0000_0000_0000) by (nonlinear_arith)
                    requires
                        total <= k * 0x1_0000_0000_0000_0000,
                        len < 0x1_0000_0000_0000_0000,
                        k < 0x1_0000_0000_0000_0000,
                ;
                total = total + len as u128;
            },
            _ => {
                assert(total <= (k + 1) * 0x1_0000_0000_0000_0000) by (nonlinear_arith)
                    requires
                        total <= k * 0x1_0000_0000_0000_0000,
                ;
            },
        }
        k += 1;
    }
    assert(runs@.take(runs@.len() as int) == runs@);
    let n: u128 = a as u128 + b as u128;
    if n == 0 || total >= n {
        return true;
    }
    5 * total >= n
}

/// Word-level similarity test of two texts.
pub fn similar_texts(old: &str, new: &str) -> (b: bool)
    ensures
        b == similar_enough(old@, new@),
{
    let (runs, a, b) = word_runs(old, new);
    similar_alignment(runs.as_slice(), a, b)
}

/// The markup of word-level changes: unchanged text plain, removals in
/// `<del>`, insertions in `<ins>`, everything escaped.
pub open spec fn word_markup(changes: Seq<(WordTag, Seq<char>)>) -> Seq<char>
    decreases changes.len(),
{
    if changes.len() == 0 {
        Seq::empty()
    } else {
        let (tag, text) = changes.last();
        word_markup(changes.drop_last()) + match tag {
            WordTag::Equal => escaped(text),
            WordTag::Delete => "<del>"@ + escaped(text) + "</del>"@,
            WordTag::Insert => "<ins>"@ + escaped(text) + "</ins>"@,
        }
    }
}

/// Renders word-level changes as HTML: unchanged text plain, removals in
/// `<del>`, insertions in `<ins>`, everything escaped.
pub fn word_changes_html(changes: &[(WordTag, String)]) -> (r: String)
    ensures
        r@ == word_markup(tagged_views(changes@)),
{
    let mut out = String::new();
    let mut k: usize = 0;
    while k < changes.len()
        invariant
            k <= changes.len(),
            out@ == word_markup(tagged_views(changes@).take(k as int)),
        decreases changes.len() - k,
    {
        assert(tagged_views(changes@).take(k + 1).drop_last() == tagged_views(changes@).take(k as int));
        let text = chars_of(changes[k].1.as_str());
        match changes[k].0 {
            WordTag::Equal => {
                push_escaped(&mut out, text.as_slice());
            },
            WordTag::Delete => {
                crate::text::push_str(&mut out, "<del>");
                push_escaped(&mut out, text.as_slice());
                crate::text::push_str(&mut out, "</del>");
            },
            WordTag::Insert => {
                crate::text::push_str(&mut out, "<ins>");
                push_escaped(&mut out, text.as_slice());
                crate::text::push_str(&mut out, "</ins>");
            },
        }
        k += 1;
    }
    assert(tagged_views(changes@).take(changes@.len() as int) == tagged_views(changes@));
    out
}

/// Renders a word-level diff of two source texts as HTML: unchanged text
/// plain, removals in `<del>`, insertions in `<ins>`, everything escaped.
pub fn word_diff_html(old: &str, new: &str) -> (r: String)
    ensures
        r@ == word_markup(word_changes_of(old@, new@)),
{
    let changes = word_changes(old, new);
    word_changes_html(changes.as_slice())
}

// ---------------------------------------------------------------------
// Block level
// ---------------------------------------------------------------------

/// The running result of classifying an alignment.
pub struct Tally {
    pub changes: Seq<ChangeView>,
    pub added: int,
    pub removed: int,
    pub edited: int,
}

/// `count` removed blocks from `from` on.
pub open spec fn removed_run(t: Tally, from: int, count: int) -> Tally {
    Tally {
        changes: t.changes + Seq::new(if count > 0 { count as nat } else { 0 }, |i: int| ChangeView::Removed { old: from + i }),
        removed: t.removed + (if count > 0 { count } else { 0 }),
        ..t
    }
}

/// The first old block in `[s, e)` of the new block's kind whose text is
/// similar enough to it.
pub open spec fn first_pair(old: Seq<(Seq<char>, Seq<char>)>, unit: (Seq<char>, Seq<char>), s: int, e: int) -> Option<int>
    decreases e - s,
{
    if s >= e {
        None
    } else if old[s].0 == unit.0 && similar_enough(old[s].1, unit.1) {
        Some(s)
    } else {
        first_pair(old, unit, s + 1, e)
    }
}

/// A replaced run: new blocks `[n, ne)` in order each pair with the first
/// remaining old block of `[s, e)` of its kind that is similar enough
/// (old blocks skipped on the way are removed), else count as added;
/// old blocks left over are removed.
pub open spec fn replace_run(
    old: Seq<(Seq<char>, Seq<char>)>,
    new: Seq<(Seq<char>, Seq<char>)>,
    s: int,
    e: int,
    n: int,
    ne: int,
    t: Tally,
) -> Tally
    decreases ne - n,
{
    if n >= ne {
        removed_run(t, s, e - s)
    } else {
        match first_pair(old, new[n], s, e) {
            Some(o) => {
                let t2 = removed_run(t, s, o - s);
                replace_run(
                    old,
                    new,
                    o + 1,
                    e,
                    n + 1,
                    ne,
                    Tally {
                        changes: t2.changes.push(
                            ChangeView::Edited { old: o, new: n, diff_html: word_markup(word_changes_of(old[o].1, new[n].1)) },
                        ),
                        edited: t2.edited + 1,
                        ..t2
                    },
                )
            },
            None => replace_run(
                old,
                new,
                s,
                e,
                n + 1,
                ne,
                Tally { changes: t.changes.push(ChangeView::Added { new: n }), added: t.added + 1, ..t },
            ),
        }
    }
}

/// Whether a run lies within both sequences.
pub open spec fn run_fits(run: DiffRun, old_len: int, new_len: int) -> bool {
    match run {
        DiffRun::Equal { old_index, new_index, len } => old_index + len <= old_len && new_index + len <= new_len,
        DiffRun::Delete { old_index, old_len: l, .. } => old_index + l <= old_len,
        DiffRun::Insert { new_index, new_len: l, .. } => new_index + l <= new_len,
        DiffRun::Replace { old_index, old_len: ol, new_index, new_len: nl } => old_index + ol <= old_len && new_index
            + nl <= new_len,
    }
}

/// One run applied to the tally (a run reaching outside either sequence
/// contributes nothing).
pub open spec fn apply_run(old: Seq<(Seq<char>, Seq<char>)>, new: Seq<(Seq<char>, Seq<char>)>, run: DiffRun, t: Tally) -> Tally {
    if !run_fits(run, old.len() as int, new.len() as int) {
        t
    } else {
        match run {
            DiffRun::Equal { old_index, new_index, len } => Tally {
                changes: t.changes + Seq::new(
                    len as nat,
                    |i: int| ChangeView::Unchanged { old: old_index + i, new: new_index + i },
                ),
                ..t
            },
            DiffRun::Delete { old_index, old_len, .. } => removed_run(t, old_index as int, old_len as int),
            DiffRun::Insert { new_index, new_len, .. } => Tally {
                changes: t.changes + Seq::new(new_len as nat, |i: int| ChangeView::Added { new: new_index + i }),
                added: t.added + new_len,
                ..t
            },
            DiffRun::Replace { old_index, old_len, new_index, new_len } => replace_run(
                old,
                new,
                old_index as int,
                old_index + old_len,
                new_index as int,
                new_index + new_len,
                t,
            ),
        }
    }
}

/// All runs applied in order.
pub open spec fn apply_runs(old: Seq<(Seq<char>, Seq<char>)>, new: Seq<(Seq<char>, Seq<char>)>, runs: Seq<DiffRun>) -> Tally
    decreases runs.len(),
{
    if runs.len() == 0 {
        Tally { changes: Seq::empty(), added: 0, removed: 0, edited: 0 }
    } else {
        apply_run(old, new, runs.last(), apply_runs(old, new, runs.drop_last()))
    }
}

/// The tally a block diff holds.
pub open spec fn tally_of(d: BlockSeqDiff) -> Tally {
    Tally { changes: change_views(d.changes@), added: d.added as int, removed: d.removed as int, edited: d.edited as int }
}

/// Every counted change was recorded.
pub open spec fn counts_ok(d: BlockSeqDiff) -> bool {
    d.added + d.removed + d.edited <= d.changes@.len()
}

fn record(d: &mut BlockSeqDiff, c: BlockChange)
    requires
        counts_ok(*old(d)),
    ensures
        final(d).changes@ == old(d).changes@.push(c),
        final(d).added == old(d).added,
        final(d).removed == old(d).removed,
        final(d).edited == old(d).edited,
        final(d).changes@.len() <= usize::MAX,
        counts_ok(*final(d)),
{
    d.changes.push(c);
    let _n = d.changes.len();
}

proof fn lemma_views_push(v: Seq<BlockChange>, c: BlockChange)
    ensures
        change_views(v.push(c)) == change_views(v).push(change_view(c)),
{
    assert(change_views(v.push(c)) =~= change_views(v).push(change_view(c)));
}

fn removed_exec(d: &mut BlockSeqDiff, from: usize, count: usize)
    requires
        counts_ok(*old(d)),
        from + count <= usize::MAX,
    ensures
        counts_ok(*final(d)),
        tally_of(*final(d)) == removed_run(tally_of(*old(d)), from as int, count as int),
{
    let ghost t0 = tally_of(*d);
    let mut i: usize = 0;
    while i < count
        invariant
            i <= count,
            from + count <= usize::MAX,
            counts_ok(*d),
            tally_of(*d) == removed_run(t0, from as int, i as int),
        decreases count - i,
    {
        let ghost before = d.changes@;
        record(d, BlockChange::Removed { old: from + i });
        proof {
            lemma_views_push(before, BlockChange::Removed { old: (from + i) as usize });
        }
        d.removed = d.removed + 1;
        i += 1;
        assert(tally_of(*d).changes =~= removed_run(t0, from as int, i as int).changes);
    }
}

fn first_pair_exec(old: &[BlockUnit], unit: &BlockUnit, s: usize, e: usize) -> (r: Option<usize>)
    requires
        s <= e <= old.len(),
    ensures
        match r {
            Some(o) => first_pair(unit_views(old@), (unit.kind@, unit.text@), s as int, e as int) == Some(o as int) && s <= o < e,
            None => first_pair(unit_views(old@), (unit.kind@, unit.text@), s as int, e as int) is None,
        },
{
    let mut o: usize = s;
    while o < e
        invariant
            s <= o <= e <= old.len(),
            first_pair(unit_views(old@), (unit.kind@, unit.text@), s as int, e as int) == first_pair(
                unit_views(old@),
                (unit.kind@, unit.text@),
                o as int,
                e as int,
            ),
        decreases e - o,
    {
        if crate::text::str_eq(old[o].kind.as_str(), unit.kind.as_str()) && similar_texts(
            old[o].text.as_str(),
            unit.text.as_str(),
        ) {
            return Some(o);
        }
        o += 1;
    }
    None
}

#[verifier::rlimit(40)]
fn replace_exec(
    olds: &[BlockUnit],
    news: &[BlockUnit],
    d: &mut BlockSeqDiff,
    s0: usize,
    e: usize,
    n0: usize,
    ne: usize,
)
    requires
        s0 <= e <= olds.len(),
        n0 <= ne <= news.len(),
        counts_ok(*old(d)),
    ensures
        counts_ok(*final(d)),
        tally_of(*final(d)) == replace_run(unit_views(olds@), unit_views(news@), s0 as int, e as int, n0 as int, ne as int, tally_of(*old(d))),
{
    let ghost ov = unit_views(olds@);
    let ghost nv = unit_views(news@);
    let ghost goal = replace_run(ov, nv, s0 as int, e as int, n0 as int, ne as int, tally_of(*d));
    let mut s: usize = s0;
    let mut n: usize = n0;
    while n < ne
        invariant
            s <= e <= olds.len(),
            n <= ne <= news.len(),
            ov == unit_views(olds@),
            nv == unit_views(news@),
            counts_ok(*d),
            goal == replace_run(ov, nv, s as int, e as int, n as int, ne as int, tally_of(*d)),
        decreases ne - n,
    {
        assert(nv[n as int] == (news@[n as int].kind@, news@[n as int].text@));
        match first_pair_exec(olds, &news[n], s, e) {
            Some(o) => {
                removed_exec(d, s, o - s);
                let html = word_diff_html(olds[o].text.as_str(), news[n].text.as_str());
                let ghost before = d.changes@;
                let ghost t2 = tally_of(*d);
                let c = BlockChange::Edited { old: o, new: n, diff_html: html };
                record(d, c);
                proof {
                    lemma_views_push(before, c);
                }
                d.edited = d.edited + 1;
                assert(ov[o as int].1 == olds@[o as int].text@);
                s = o + 1;
            },
            None => {
                let ghost before = d.changes@;
                record(d, BlockChange::Added { new: n });
                proof {
                    lemma_views_push(before, BlockChange::Added { new: n });
                }
                d.added = d.added + 1;
            },
        }
        n += 1;
    }
    removed_exec(d, s, e - s);
}

/// Classifies an alignment of two block sequences: equal runs are
/// unchanged, deleted runs removed, inserted runs added, and replaced
/// runs paired into edits where a same-kind old block is similar enough.
#[verifier::rlimit(40)]
pub fn diff_from_runs(old: &[BlockUnit], new: &[BlockUnit], runs: &[DiffRun]) -> (r: BlockSeqDiff)
    ensures
        counts_ok(r),
        tally_of(r) == apply_runs(unit_views(old@), unit_views(new@), runs@),
        alignment_end(runs@) == Some((old@.len() as int, new@.len() as int)) ==> {
            &&& old_indices(change_views(r.changes@)) == upto(0, old@.len() as int)
            &&& new_indices(change_views(r.changes@)) == upto(0, new@.len() as int)
            &&& r.added == count_changes(change_views(r.changes@), 1)
            &&& r.removed == count_changes(change_views(r.changes@), 2)
            &&& r.edited == count_changes(change_views(r.changes@), 3)
        },
{
    let mut d = BlockSeqDiff { changes: Vec::new(), added: 0, removed: 0, edited: 0 };
    let ghost ov = unit_views(old@);
    let ghost nv = unit_views(new@);
    let mut k: usize = 0;
    assert(change_views(d.changes@) =~= Seq::<ChangeView>::empty());
    while k < runs.len()
        invariant
            k <= runs.len(),
            ov == unit_views(old@),
            nv == unit_views(new@),
            counts_ok(d),
            tally_of(d) == apply_runs(ov, nv, runs@.take(k as int)),
        decreases runs.len() - k,
    {
        assert(runs@.take(k + 1).drop_last() == runs@.take(k as int));
        let run = runs[k];
        let ghost t0 = tally_of(d);
        match run {
            DiffRun::Equal { old_index, new_index, len } => {
                if old_index <= old.len() && len <= old.len() - old_index && new_index <= new.len() && len <= new.len() - new_index {
                    let mut i: usize = 0;
                    while i < len
                        invariant
                            i <= len,
                            old_index + len <= old.len(),
                            new_index + len <= new.len(),
                            counts_ok(d),
                            tally_of(d) == (Tally {
                                changes: t0.changes + Seq::new(
                                    i as nat,
                                    |j: int| ChangeView::Unchanged { old: old_index + j, new: new_index + j },
                                ),
                                ..t0
                            }),
                        decreases len - i,
                    {
                        let ghost before = d.changes@;
                        let c = BlockChange::Unchanged { old: old_index + i, new: new_index + i };
                        record(&mut d, c);
                        proof {
                            lemma_views_push(before, c);
                        }
                        i += 1;
                        assert(tally_of(d).changes =~= t0.changes + Seq::new(
                            i as nat,
                            |j: int| ChangeView::Unchanged { old: old_index + j, new: new_index + j },
                        ));
                    }
                }
            },
            DiffRun::Delete { old_index, old_len, .. } => {
                if old_index <= old.len() && old_len <= old.len() - old_index {
                    removed_exec(&mut d, old_index, old_len);
                }
            },
            DiffRun::Insert { new_index, new_len, .. } => {
                if new_index <= new.len() && new_len <= new.len() - new_index {
                    let mut i: usize = 0;
                    while i < new_len
                        invariant
                            i <= new_len,
                            new_index + new_len <= new.len(),
                            counts_ok(d),
                            tally_of(d) == (Tally {
                                changes: t0.changes + Seq::new(i as nat, |j: int| ChangeView::Added { new: new_index + j }),
                                added: t0.added + i,
                                ..t0
                            }),
                        decreases new_len - i,
                    {
                        let ghost before = d.changes@;
                        let c = BlockChange::Added { new: new_index + i };
                        record(&mut d, c);
                        proof {
                            lemma_views_push(before, c);
                        }
                        d.added = d.added + 1;
                        i += 1;
                        assert(tally_of(d).changes =~= t0.changes + Seq::new(i as nat, |j: int| ChangeView::Added { new: new_index + j }));
                    }
                }
            },
            DiffRun::Replace { old_index, old_len, new_index, new_len } => {
                if old_index <= old.len() && old_len <= old.len() - old_index && new_index <= new.len() && new_len
                    <= new.len() - new_index {
                    replace_exec(old, new, &mut d, old_index, old_index + old_len, new_index, new_index + new_len);
                }
            },
        }
        k += 1;
    }
    assert(runs@.take(runs@.len() as int) == runs@);
    proof {
        if alignment_end(runs@) == Some((old@.len() as int, new@.len() as int)) {
            law_diff_accounts_for_every_block(unit_views(old@), unit_views(new@), runs@);
        }
    }
    d
}

/// Diffs two block sequences: patience alignment over identical blocks,
/// then similarity pairing of replaced runs into edits.
pub fn diff_blocks(old: &[BlockUnit], new: &[BlockUnit]) -> (r: BlockSeqDiff)
    ensures
        counts_ok(r),
        tally_of(r) == apply_runs(unit_views(old@), unit_views(new@), patience_diff(unit_views(old@), unit_views(new@))),
{
    let runs = patience_runs(old, new);
    diff_from_runs(old, new, runs.as_slice())
}

} // verus!

verus! {

/// The old block a change accounts for, if any.
pub open spec fn old_side(c: ChangeView) -> Option<int> {
    match c {
        ChangeView::Unchanged { old, .. } => Some(old),
        ChangeView::Removed { old } => Some(old),
        ChangeView::Edited { old, .. } => Some(old),
        ChangeView::Added { .. } => None,
    }
}

/// The new block a change accounts for, if any.
pub open spec fn new_side(c: ChangeView) -> Option<int> {
    match c {
        ChangeView::Unchanged { new, .. } => Some(new),
        ChangeView::Added { new } => Some(new),
        ChangeView::Edited { new, .. } => Some(new),
        ChangeView::Removed { .. } => None,
    }
}

/// The old blocks the changes account for, in order.
pub open spec fn old_indices(cs: Seq<ChangeView>) -> Seq<int>
    decreases cs.len(),
{
    if cs.len() == 0 {
        Seq::empty()
    } else {
        old_indices(cs.drop_last()) + match old_side(cs.last()) {
            Some(i) => seq![i],
            None => Seq::empty(),
        }
    }
}

/// The new blocks the changes account for, in order.
pub open spec fn new_indices(cs: Seq<ChangeView>) -> Seq<int>
    decreases cs.len(),
{
    if cs.len() == 0 {
        Seq::empty()
    } else {
        new_indices(cs.drop_last()) + match new_side(cs.last()) {
            Some(i) => seq![i],
            None => Seq::empty(),
        }
    }
}

/// The kind of a change: 0 unchanged, 1 added, 2 removed, 3 edited.
pub open spec fn change_kind(c: ChangeView) -> int {
    match c {
        ChangeView::Unchanged { .. } => 0,
        ChangeView::Added { .. } => 1,
        ChangeView::Removed { .. } => 2,
        ChangeView::Edited { .. } => 3,
    }
}

/// How many changes are of kind `k`.
pub open spec fn count_changes(cs: Seq<ChangeView>, k: int) -> int
    decreases cs.len(),
{
    if cs.len() == 0 {
        0
    } else {
        count_changes(cs.drop_last(), k) + if change_kind(cs.last()) == k { 1int } else { 0int }
    }
}

/// The indices `a, a + 1, ..., b - 1`.
pub open spec fn upto(a: int, b: int) -> Seq<int> {
    Seq::new(if b > a { (b - a) as nat } else { 0 }, |i: int| a + i)
}

/// Whether a run starts at old block `o` and new block `n`.
pub open spec fn starts_at(run: DiffRun, o: int, n: int) -> bool {
    match run {
        DiffRun::Equal { old_index, new_index, .. } => old_index == o && new_index == n,
        DiffRun::Delete { old_index, .. } => old_index == o,
        DiffRun::Insert { new_index, .. } => new_index == n,
        DiffRun::Replace { old_index, new_index, .. } => old_index == o && new_index == n,
    }
}

/// Where a run starting at `(o, n)` ends.
pub open spec fn run_end(run: DiffRun, o: int, n: int) -> (int, int) {
    match run {
        DiffRun::Equal { len, .. } => (o + len, n + len),
        DiffRun::Delete { old_len, .. } => (o + old_len, n),
        DiffRun::Insert { new_len, .. } => (o, n + new_len),
        DiffRun::Replace { old_len, new_len, .. } => (o + old_len, n + new_len),
    }
}

/// Where an alignment that starts at the first blocks and goes on run by
/// run, each where the last ended, ends; `None` when a run starts
/// elsewhere.
pub open spec fn alignment_end(runs: Seq<DiffRun>) -> Option<(int, int)>
    decreases runs.len(),
{
    if runs.len() == 0 {
        Some((0, 0))
    } else {
        match alignment_end(runs.drop_last()) {
            None => None,
            Some((o, n)) => if starts_at(runs.last(), o, n) {
                Some(run_end(runs.last(), o, n))
            } else {
                None
            },
        }
    }
}

/// Whether a tally accounts for old blocks `[0, o)` and new blocks `[0, n)`
/// each once, in order, and its counters count its changes.
pub open spec fn accounts(t: Tally, o: int, n: int) -> bool {
    &&& old_indices(t.changes) == upto(0, o)
    &&& new_indices(t.changes) == upto(0, n)
    &&& t.added == count_changes(t.changes, 1)
    &&& t.removed == count_changes(t.changes, 2)
    &&& t.edited == count_changes(t.changes, 3)
}

proof fn lemma_sides_add(a: Seq<ChangeView>, b: Seq<ChangeView>)
    ensures
        old_indices(a + b) == old_indices(a) + old_indices(b),
        new_indices(a + b) == new_indices(a) + new_indices(b),
        forall|k: int| #[trigger] count_changes(a + b, k) == count_changes(a, k) + count_changes(b, k),
    decreases b.len(),
{
    if b.len() == 0 {
        assert(a + b =~= a);
        assert(old_indices(a) + old_indices(b) =~= old_indices(a));
        assert(new_indices(a) + new_indices(b) =~= new_indices(a));
        assert forall|k: int| #[trigger] count_changes(a + b, k) == count_changes(a, k) + count_changes(b, k) by {
            assert(count_changes(b, k) == 0);
        }
    } else {
        lemma_sides_add(a, b.drop_last());
        assert((a + b).drop_last() =~= a + b.drop_last());
        assert((a + b).last() == b.last());
        assert(old_indices(a + b) =~= old_indices(a) + old_indices(b));
        assert(new_indices(a + b) =~= new_indices(a) + new_indices(b));
        assert forall|k: int| #[trigger] count_changes(a + b, k) == count_changes(a, k) + count_changes(b, k) by {
            assert(count_changes(a + b, k) == count_changes(a + b.drop_last(), k) + if change_kind(b.last()) == k { 1int } else { 0int });
            assert(count_changes(a + b.drop_last(), k) == count_changes(a, k) + count_changes(b.drop_last(), k));
        }
    }
}

proof fn lemma_sides_one(c: ChangeView)
    ensures
        old_indices(seq![c]) == match old_side(c) {
            Some(i) => seq![i],
            None => Seq::<int>::empty(),
        },
        new_indices(seq![c]) == match new_side(c) {
            Some(i) => seq![i],
            None => Seq::<int>::empty(),
        },
        forall|k: int| #[trigger] count_changes(seq![c], k) == if change_kind(c) == k { 1int } else { 0int },
{
    assert(seq![c].drop_last() =~= Seq::<ChangeView>::empty());
    assert(seq![c].last() == c);
    assert(old_indices(Seq::<ChangeView>::empty()) == Seq::<int>::empty());
    assert(new_indices(Seq::<ChangeView>::empty()) == Seq::<int>::empty());
    assert forall|k: int| #[trigger] count_changes(seq![c], k) == if change_kind(c) == k { 1int } else { 0int } by {
        assert(count_changes(Seq::<ChangeView>::empty(), k) == 0);
    }
    assert(old_indices(seq![c]) =~= Seq::<int>::empty() + match old_side(c) {
        Some(i) => seq![i],
        None => Seq::<int>::empty(),
    });
    assert(new_indices(seq![c]) =~= Seq::<int>::empty() + match new_side(c) {
        Some(i) => seq![i],
        None => Seq::<int>::empty(),
    });
}

/// A run of changes of one kind, one per block `[0, len)`.
proof fn lemma_sides_run(cs: Seq<ChangeView>, kind: int, o: int, n: int, oa: bool, na: bool)
    requires
        forall|i: int|
            0 <= i < cs.len() ==> change_kind(#[trigger] cs[i]) == kind && old_side(cs[i]) == (if oa {
                Some(o + i)
            } else {
                None::<int>
            }) && new_side(cs[i]) == (if na {
                Some(n + i)
            } else {
                None::<int>
            }),
    ensures
        old_indices(cs) == if oa { upto(o, o + cs.len()) } else { Seq::<int>::empty() },
        new_indices(cs) == if na { upto(n, n + cs.len()) } else { Seq::<int>::empty() },
        forall|k: int| #[trigger] count_changes(cs, k) == if k == kind { cs.len() as int } else { 0int },
    decreases cs.len(),
{
    if cs.len() > 0 {
        let c0 = cs.drop_last();
        assert forall|i: int| 0 <= i < c0.len() implies change_kind(#[trigger] c0[i]) == kind && old_side(c0[i]) == (if oa {
            Some(o + i)
        } else {
            None::<int>
        }) && new_side(c0[i]) == (if na {
            Some(n + i)
        } else {
            None::<int>
        }) by {
            assert(c0[i] == cs[i]);
        }
        lemma_sides_run(c0, kind, o, n, oa, na);
        let l = cs.len() - 1;
        assert(cs.last() == cs[l]);
        assert forall|k: int| #[trigger] count_changes(cs, k) == if k == kind { cs.len() as int } else { 0int } by {
            assert(count_changes(cs, k) == count_changes(c0, k) + if change_kind(cs.last()) == k { 1int } else { 0int });
        }
        if oa {
            assert(old_indices(cs) =~= upto(o, o + cs.len()));
        } else {
            assert(old_indices(cs) =~= Seq::<int>::empty());
        }
        if na {
            assert(new_indices(cs) =~= upto(n, n + cs.len()));
        } else {
            assert(new_indices(cs) =~= Seq::<int>::empty());
        }
    } else {
        assert forall|k: int| #[trigger] count_changes(cs, k) == if k == kind { cs.len() as int } else { 0int } by {}
        assert(old_indices(cs) =~= if oa { upto(o, o + cs.len()) } else { Seq::<int>::empty() });
        assert(new_indices(cs) =~= if na { upto(n, n + cs.len()) } else { Seq::<int>::empty() });
    }
}

proof fn lemma_upto_join(a: int, b: int, c: int)
    requires
        a <= b <= c,
    ensures
        upto(a, b) + upto(b, c) == upto(a, c),
{
    assert(upto(a, b) + upto(b, c) =~= upto(a, c));
}

proof fn lemma_first_pair_range(old: Seq<(Seq<char>, Seq<char>)>, unit: (Seq<char>, Seq<char>), s: int, e: int)
    ensures
        first_pair(old, unit, s, e) matches Some(o) ==> s <= o < e,
    decreases e - s,
{
    if s < e {
        lemma_first_pair_range(old, unit, s + 1, e);
    }
}

/// Removing blocks `[s, s + count)` accounts for them.
proof fn lemma_removed_run(t: Tally, s: int, count: int)
    requires
        count >= 0,
    ensures
        old_indices(removed_run(t, s, count).changes) == old_indices(t.changes) + upto(s, s + count),
        new_indices(removed_run(t, s, count).changes) == new_indices(t.changes),
        removed_run(t, s, count).added - count_changes(removed_run(t, s, count).changes, 1) == t.added - count_changes(t.changes, 1),
        removed_run(t, s, count).removed - count_changes(removed_run(t, s, count).changes, 2) == t.removed - count_changes(t.changes, 2),
        removed_run(t, s, count).edited - count_changes(removed_run(t, s, count).changes, 3) == t.edited - count_changes(t.changes, 3),
{
    let extra = Seq::new(count as nat, |i: int| ChangeView::Removed { old: s + i });
    assert(removed_run(t, s, count).changes == t.changes + extra);
    lemma_sides_add(t.changes, extra);
    lemma_sides_run(extra, 2, s, 0, true, false);
    assert(new_indices(t.changes) + Seq::<int>::empty() =~= new_indices(t.changes));
}

/// A replaced run accounts for its old blocks `[s, e)` and new blocks
/// `[n, ne)`, each once, in order.
proof fn lemma_replace_run(
    old: Seq<(Seq<char>, Seq<char>)>,
    new: Seq<(Seq<char>, Seq<char>)>,
    s: int,
    e: int,
    n: int,
    ne: int,
    t: Tally,
)
    requires
        s <= e,
        n <= ne,
    ensures
        old_indices(replace_run(old, new, s, e, n, ne, t).changes) == old_indices(t.changes) + upto(s, e),
        new_indices(replace_run(old, new, s, e, n, ne, t).changes) == new_indices(t.changes) + upto(n, ne),
        replace_run(old, new, s, e, n, ne, t).added - count_changes(replace_run(old, new, s, e, n, ne, t).changes, 1) == t.added
            - count_changes(t.changes, 1),
        replace_run(old, new, s, e, n, ne, t).removed - count_changes(replace_run(old, new, s, e, n, ne, t).changes, 2) == t.removed
            - count_changes(t.changes, 2),
        replace_run(old, new, s, e, n, ne, t).edited - count_changes(replace_run(old, new, s, e, n, ne, t).changes, 3) == t.edited
            - count_changes(t.changes, 3),
    decreases ne - n,
{
    if n >= ne {
        lemma_removed_run(t, s, e - s);
        assert(upto(n, ne) =~= Seq::<int>::empty());
        assert(new_indices(t.changes) + upto(n, ne) =~= new_indices(t.changes));
    } else {
        lemma_first_pair_range(old, new[n], s, e);
        match first_pair(old, new[n], s, e) {
            Some(o) => {
                let t2 = removed_run(t, s, o - s);
                lemma_removed_run(t, s, o - s);
                let c = ChangeView::Edited { old: o, new: n, diff_html: word_markup(word_changes_of(old[o].1, new[n].1)) };
                let t3 = Tally { changes: t2.changes.push(c), edited: t2.edited + 1, ..t2 };
                assert(t2.changes.push(c) == t2.changes + seq![c]);
                lemma_sides_add(t2.changes, seq![c]);
                lemma_sides_one(c);
                lemma_replace_run(old, new, o + 1, e, n + 1, ne, t3);
                lemma_upto_join(s, o, o + 1);
                lemma_upto_join(s, o + 1, e);
                lemma_upto_join(n, n + 1, ne);
                assert(upto(o, o + 1) =~= seq![o]);
                assert(upto(n, n + 1) =~= seq![n]);
                assert(old_indices(t3.changes) == old_indices(t.changes) + upto(s, o) + upto(o, o + 1));
                assert(old_indices(t.changes) + upto(s, o) + upto(o, o + 1) + upto(o + 1, e) =~= old_indices(t.changes) + upto(s, e));
                assert(new_indices(t3.changes) == new_indices(t.changes) + upto(n, n + 1));
                assert(new_indices(t.changes) + upto(n, n + 1) + upto(n + 1, ne) =~= new_indices(t.changes) + upto(n, ne));
            },
            None => {
                let c = ChangeView::Added { new: n };
                let t3 = Tally { changes: t.changes.push(c), added: t.added + 1, ..t };
                assert(t.changes.push(c) == t.changes + seq![c]);
                lemma_sides_add(t.changes, seq![c]);
                lemma_sides_one(c);
                lemma_replace_run(old, new, s, e, n + 1, ne, t3);
                lemma_upto_join(n, n + 1, ne);
                assert(upto(n, n + 1) =~= seq![n]);
                assert(old_indices(t3.changes) =~= old_indices(t.changes));
                assert(new_indices(t3.changes) == new_indices(t.changes) + upto(n, n + 1));
                assert(new_indices(t.changes) + upto(n, n + 1) + upto(n + 1, ne) =~= new_indices(t.changes) + upto(n, ne));
            },
        }
    }
}

/// One run of an alignment carries the accounting one run further.
proof fn lemma_apply_run_accounts(
    old: Seq<(Seq<char>, Seq<char>)>,
    new: Seq<(Seq<char>, Seq<char>)>,
    run: DiffRun,
    t: Tally,
    o: int,
    n: int,
)
    requires
        accounts(t, o, n),
        0 <= o,
        0 <= n,
        starts_at(run, o, n),
        run_end(run, o, n).0 <= old.len(),
        run_end(run, o, n).1 <= new.len(),
    ensures
        accounts(apply_run(old, new, run, t), run_end(run, o, n).0, run_end(run, o, n).1),
{
    let (o2, n2) = run_end(run, o, n);
    assert(run_fits(run, old.len() as int, new.len() as int));
    match run {
        DiffRun::Equal { old_index, new_index, len } => {
            let extra = Seq::new(len as nat, |i: int| ChangeView::Unchanged { old: old_index + i, new: new_index + i });
            lemma_sides_add(t.changes, extra);
            lemma_sides_run(extra, 0, o, n, true, true);
            lemma_upto_join(0, o, o2);
            lemma_upto_join(0, n, n2);
        },
        DiffRun::Delete { old_index, old_len, .. } => {
            lemma_removed_run(t, o, old_len as int);
            lemma_upto_join(0, o, o2);
            assert(n2 == n);
        },
        DiffRun::Insert { new_index, new_len, .. } => {
            let extra = Seq::new(new_len as nat, |i: int| ChangeView::Added { new: new_index + i });
            lemma_sides_add(t.changes, extra);
            lemma_sides_run(extra, 1, 0, n, false, true);
            lemma_upto_join(0, n, n2);
            assert(old_indices(t.changes) + Seq::<int>::empty() =~= old_indices(t.changes));
        },
        DiffRun::Replace { old_index, old_len, new_index, new_len } => {
            lemma_replace_run(old, new, o, o2, n, n2, t);
            lemma_upto_join(0, o, o2);
            lemma_upto_join(0, n, n2);
        },
    }
}

/// Where an alignment ends, every run of it started no later.
proof fn lemma_alignment_prefix(runs: Seq<DiffRun>)
    requires
        runs.len() > 0,
        alignment_end(runs) is Some,
    ensures
        alignment_end(runs.drop_last()) matches Some((o, n)) && 0 <= o <= (alignment_end(runs)->0).0 && 0 <= n
            <= (alignment_end(runs)->0).1 && starts_at(runs.last(), o, n) && run_end(runs.last(), o, n) == alignment_end(runs)->0,
    decreases runs.len(),
{
    if runs.len() > 1 {
        lemma_alignment_prefix(runs.drop_last());
    }
}

/// An alignment accounts for the blocks it covers.
proof fn lemma_apply_runs_accounts(old: Seq<(Seq<char>, Seq<char>)>, new: Seq<(Seq<char>, Seq<char>)>, runs: Seq<DiffRun>)
    requires
        alignment_end(runs) matches Some((o, n)) && o <= old.len() && n <= new.len(),
    ensures
        accounts(apply_runs(old, new, runs), (alignment_end(runs)->0).0, (alignment_end(runs)->0).1),
        0 <= (alignment_end(runs)->0).0 && 0 <= (alignment_end(runs)->0).1,
    decreases runs.len(),
{
    if runs.len() == 0 {
        let t = apply_runs(old, new, runs);
        assert(old_indices(t.changes) =~= upto(0, 0));
        assert(new_indices(t.changes) =~= upto(0, 0));
    } else {
        lemma_alignment_prefix(runs);
        lemma_apply_runs_accounts(old, new, runs.drop_last());
        let (o, n) = alignment_end(runs.drop_last())->0;
        lemma_apply_run_accounts(old, new, runs.last(), apply_runs(old, new, runs.drop_last()), o, n);
    }
}

/// A block diff accounts for every block of both sequences: given an
/// alignment of the old and new blocks (each run starting where the last
/// ended, from the first blocks to past the last), every old block occurs
/// exactly once in the change list, as unchanged, edited or removed, and
/// every new block exactly once, as unchanged, edited or added, both in
/// order; the counters count the changes of their kind. So an old block
/// with no counterpart is reported removed, and the diff reports a change
/// unless every change is unchanged.
pub proof fn law_diff_accounts_for_every_block(
    old: Seq<(Seq<char>, Seq<char>)>,
    new: Seq<(Seq<char>, Seq<char>)>,
    runs: Seq<DiffRun>,
)
    requires
        alignment_end(runs) == Some((old.len() as int, new.len() as int)),
    ensures
        old_indices(apply_runs(old, new, runs).changes) == upto(0, old.len() as int),
        new_indices(apply_runs(old, new, runs).changes) == upto(0, new.len() as int),
        apply_runs(old, new, runs).added == count_changes(apply_runs(old, new, runs).changes, 1),
        apply_runs(old, new, runs).removed == count_changes(apply_runs(old, new, runs).changes, 2),
        apply_runs(old, new, runs).edited == count_changes(apply_runs(old, new, runs).changes, 3),
        (apply_runs(old, new, runs).added + apply_runs(old, new, runs).removed + apply_runs(old, new, runs).edited == 0)
            == (count_changes(apply_runs(old, new, runs).changes, 0) == apply_runs(old, new, runs).changes.len()),
{
    lemma_apply_runs_accounts(old, new, runs);
    lemma_count_total(apply_runs(old, new, runs).changes);
}

/// The kinds of the changes add up to their number.
proof fn lemma_count_total(cs: Seq<ChangeView>)
    ensures
        count_changes(cs, 0) + count_changes(cs, 1) + count_changes(cs, 2) + count_changes(cs, 3) == cs.len(),
        count_changes(cs, 0) >= 0 && count_changes(cs, 1) >= 0 && count_changes(cs, 2) >= 0 && count_changes(cs, 3) >= 0,
    decreases cs.len(),
{
    if cs.len() > 0 {
        lemma_count_total(cs.drop_last());
    }
}

} // verus!
