//! The render pipeline's own rules: which blocks of a page the overlays
//! pair on (the outermost-block walk shared by coverage, diffing and
//! click-to-source), a page's diff against its base, and the `imagesdir`
//! seed. Parsing and converting AsciiDoc is the application's work; it
//! hands the document's block tree over as `BlockNode`s.

use vstd::prelude::*;
use crate::coverage::model::StructuralKind;
use crate::diff::{diff_blocks, tally_of, BlockChange, BlockUnit, ChangeView};
use crate::model::catalog::Coords;
use crate::model::resource::{opt_view, relative_url, relative_url_spec};
use crate::text::{chars_of, ends_with_chars, owned, push_str, slice_vec, str_eq, string_of};
use crate::theme::highlight::source_lines;

verus! {

// ---------------------------------------------------------------------
// The overlay block walk
// ---------------------------------------------------------------------

/// The block contexts the overlay pairs on, with the CSS selector the
/// client uses for each. One table, so the server's walk and the client's
/// element collection cannot drift apart.
pub open spec fn overlay_table() -> Seq<(Seq<char>, Seq<char>)> {
    seq![
        ("admonition"@, ".admonitionblock"@),
        ("audio"@, ".audioblock"@),
        ("colist"@, ".colist"@),
        ("dlist"@, ".dlist"@),
        ("dlist"@, ".hdlist"@),
        ("dlist"@, ".qlist"@),
        ("example"@, ".exampleblock"@),
        ("image"@, ".imageblock"@),
        ("listing"@, ".listingblock"@),
        ("literal"@, ".literalblock"@),
        ("olist"@, ".olist"@),
        ("open"@, ".openblock"@),
        ("paragraph"@, ".paragraph"@),
        ("quote"@, ".quoteblock"@),
        ("sidebar"@, ".sidebarblock"@),
        ("stem"@, ".stemblock"@),
        ("table"@, "table.tableblock"@),
        ("ulist"@, ".ulist"@),
        ("verse"@, ".verseblock"@),
        ("video"@, ".videoblock"@),
    ]
}

/// The overlay table as executable data.
pub fn overlay_contexts() -> (r: Vec<(&'static str, &'static str)>)
    ensures
        Seq::new(r@.len(), |i: int| (r@[i].0@, r@[i].1@)) == overlay_table(),
{
    let r = vec![
        ("admonition", ".admonitionblock"),
        ("audio", ".audioblock"),
        ("colist", ".colist"),
        ("dlist", ".dlist"),
        ("dlist", ".hdlist"),
        ("dlist", ".qlist"),
        ("example", ".exampleblock"),
        ("image", ".imageblock"),
        ("listing", ".listingblock"),
        ("literal", ".literalblock"),
        ("olist", ".olist"),
        ("open", ".openblock"),
        ("paragraph", ".paragraph"),
        ("quote", ".quoteblock"),
        ("sidebar", ".sidebarblock"),
        ("stem", ".stemblock"),
        ("table", "table.tableblock"),
        ("ulist", ".ulist"),
        ("verse", ".verseblock"),
        ("video", ".videoblock"),
    ];
    assert(Seq::new(r@.len(), |i: int| (r@[i].0@, r@[i].1@)) =~= overlay_table());
    r
}

/// The selectors of the overlay table joined with commas.
pub open spec fn selector_text(table: Seq<(Seq<char>, Seq<char>)>) -> Seq<char>
    decreases table.len(),
{
    if table.len() == 0 {
        Seq::empty()
    } else if table.len() == 1 {
        table[0].1
    } else {
        selector_text(table.drop_last()) + ","@ + table.last().1
    }
}

/// The combined CSS selector for the client-side walk.
pub fn client_selector() -> (r: String)
    ensures
        r@ == selector_text(overlay_table()),
{
    let table = overlay_contexts();
    let ghost tv = Seq::new(table@.len(), |i: int| (table@[i].0@, table@[i].1@));
    let mut out = String::new();
    let mut k: usize = 0;
    while k < table.len()
        invariant
            k <= table.len(),
            tv == Seq::new(table@.len(), |i: int| (table@[i].0@, table@[i].1@)),
            out@ == selector_text(tv.take(k as int)),
        decreases table.len() - k,
    {
        assert(tv.take(k + 1).drop_last() == tv.take(k as int));
        if k > 0 {
            push_str(&mut out, ",");
        }
        push_str(&mut out, table[k].1);
        k += 1;
    }
    assert(tv.take(tv.len() as int) == tv);
    out
}

/// Whether a resolved context is one the overlay pairs on.
pub open spec fn is_overlay_context(context: Seq<char>) -> bool {
    exists|k: int| 0 <= k < overlay_table().len() && #[trigger] overlay_table()[k].0 == context
}

fn overlay_context(context: &str) -> (b: bool)
    ensures
        b == is_overlay_context(context@),
{
    let table = overlay_contexts();
    let ghost tv = Seq::new(table@.len(), |i: int| (table@[i].0@, table@[i].1@));
    let mut k: usize = 0;
    while k < table.len()
        invariant
            k <= table.len(),
            tv == Seq::new(table@.len(), |i: int| (table@[i].0@, table@[i].1@)),
            tv == overlay_table(),
            forall|j: int| 0 <= j < k ==> overlay_table()[j].0 != context@,
        decreases table.len() - k,
    {
        if str_eq(table[k].0, context) {
            assert(overlay_table()[k as int].0 == context@);
            return true;
        }
        k += 1;
    }
    false
}

/// The structural default for a block context: example and listing
/// blocks, images, and media illustrate rather than specify; everything
/// else may carry rules.
pub open spec fn structural_kind_of(context: Seq<char>) -> StructuralKind {
    if context == "example"@ || context == "listing"@ || context == "literal"@ || context == "image"@
        || context == "audio"@ || context == "video"@ || context == "stem"@ {
        StructuralKind::NonNormative
    } else {
        StructuralKind::Prose
    }
}

/// The structural default for a block context.
pub fn structural_kind(context: &str) -> (r: StructuralKind)
    ensures
        r == structural_kind_of(context@),
{
    if str_eq(context, "example") || str_eq(context, "listing") || str_eq(context, "literal") || str_eq(
        context,
        "image",
    ) || str_eq(context, "audio") || str_eq(context, "video") || str_eq(context, "stem") {
        StructuralKind::NonNormative
    } else {
        StructuralKind::Prose
    }
}

/// One node of a parsed document's block tree, as the walk sees it.
#[derive(Debug)]
pub enum BlockNode {
    /// A section: its ID, if any, and its child blocks.
    Section { id: Option<String>, children: Vec<BlockNode> },
    /// The preamble and its child blocks.
    Preamble { children: Vec<BlockNode> },
    /// A list of any kind: where its span starts and the span's text.
    List { start_line: u32, text: String },
    /// Any other block: its resolved context, where its span starts, and
    /// the span's text.
    Other { context: String, start_line: u32, text: String },
}

/// One overlay block: its source start line and line count, the unit the
/// diff engine aligns on, and what the coverage engine needs.
#[derive(Clone, Debug)]
pub struct OverlayBlock {
    /// 1-based start line.
    pub start_line: u32,
    /// Number of source lines the block's span covers (at least 1).
    pub line_count: u32,
    /// The block as a diffable unit.
    pub unit: BlockUnit,
    /// The IDs of the sections enclosing the block, outermost first.
    pub sections: Vec<String>,
    /// The structural heuristic's coverage classification.
    pub kind: StructuralKind,
}

/// An overlay block as plain values.
pub struct OverlayView {
    pub start_line: u32,
    pub line_count: u32,
    pub kind: Seq<char>,
    pub text: Seq<char>,
    pub sections: Seq<Seq<char>>,
    pub structural: StructuralKind,
}

pub open spec fn strings_view(v: Seq<String>) -> Seq<Seq<char>> {
    Seq::new(v.len(), |i: int| v[i]@)
}

pub open spec fn overlay_view(b: OverlayBlock) -> OverlayView {
    OverlayView {
        start_line: b.start_line,
        line_count: b.line_count,
        kind: b.unit.kind@,
        text: b.unit.text@,
        sections: strings_view(b.sections@),
        structural: b.kind,
    }
}

pub open spec fn overlay_views(v: Seq<OverlayBlock>) -> Seq<OverlayView> {
    Seq::new(v.len(), |i: int| overlay_view(v[i]))
}

/// The line count of a span's text: its lines, at least one.
pub open spec fn span_lines(text: Seq<char>) -> u32 {
    let n = source_lines(text).len();
    (if n == 0 { 1 } else { n }) as u32
}

/// The overlay block of one emitted node.
pub open spec fn emitted(kind: Seq<char>, start_line: u32, text: Seq<char>, sections: Seq<Seq<char>>) -> OverlayView {
    OverlayView {
        start_line,
        line_count: span_lines(text),
        kind,
        text,
        sections,
        structural: structural_kind_of(kind),
    }
}

/// The overlay blocks of a run of nodes, in document order: sections and
/// the preamble are descended through (a section's ID encloses its
/// blocks), lists and overlay-context blocks are emitted whole, and
/// nothing inside an emitted block is walked.
pub open spec fn walk_blocks(nodes: Seq<BlockNode>, sections: Seq<Seq<char>>) -> Seq<OverlayView>
    decreases nodes,
{
    if nodes.len() == 0 {
        Seq::empty()
    } else {
        proof {
            assert(decreases_to!(nodes => nodes[0]));
            assert(decreases_to!(nodes => nodes.drop_first()));
        }
        let here = match nodes[0] {
            BlockNode::Section { id, children } => {
                proof {
                    assert(decreases_to!(nodes[0] => children));
                }
                match id {
                    Some(i) => walk_blocks(children@, sections.push(i@)),
                    None => walk_blocks(children@, sections),
                }
            },
            BlockNode::Preamble { children } => {
                proof {
                    assert(decreases_to!(nodes[0] => children));
                }
                walk_blocks(children@, sections)
            },
            BlockNode::List { start_line, text } => seq![emitted("list"@, start_line, text@, sections)],
            BlockNode::Other { context, start_line, text } => if is_overlay_context(context@) {
                seq![emitted(context@, start_line, text@, sections)]
            } else {
                Seq::empty()
            },
        };
        here + walk_blocks(nodes.drop_first(), sections)
    }
}

fn copy_strings(v: &Vec<String>) -> (r: Vec<String>)
    ensures
        strings_view(r@) == strings_view(v@),
{
    let mut r: Vec<String> = Vec::new();
    let mut k: usize = 0;
    while k < v.len()
        invariant
            k <= v.len(),
            strings_view(r@) == strings_view(v@.take(k as int)),
        decreases v.len() - k,
    {
        let ghost prev = strings_view(r@);
        let c = v[k].clone();
        r.push(c);
        assert(strings_view(r@) =~= prev.push(v@[k as int]@));
        assert(strings_view(v@.take(k + 1)) =~= strings_view(v@.take(k as int)).push(v@[k as int]@));
        k += 1;
    }
    assert(v@.take(v.len() as int) == v@);
    r
}

fn line_count_of(text: &str) -> (r: u32)
    ensures
        r == span_lines(text@),
{
    let cs = chars_of(text);
    let n = count_lines(cs.as_slice());
    if n == 0 {
        1
    } else {
        n as u32
    }
}

fn count_lines(s: &[char]) -> (n: usize)
    ensures
        n == source_lines(s@).len(),
{
    if s.len() == 0 {
        return 0;
    }
    // Count the line feeds; a final unterminated line adds one.
    let mut feeds: usize = 0;
    let mut i: usize = 0;
    while i < s.len()
        invariant
            i <= s.len(),
            feeds <= i,
            i > 0 ==> feeds <= (i - 1) + (if s@[i - 1] == '\n' { 1int } else { 0int }),
            feeds == crate::text::split_seq(s@.take(i as int), '\n').len() - 1,
        decreases s.len() - i,
    {
        proof {
            crate::text::lemma_split_nonempty(s@.take(i as int), '\n');
            lemma_split_step(s@, i as int);
        }
        if s[i] == '\n' {
            feeds += 1;
        }
        i += 1;
    }
    assert(s@.take(s.len() as int) == s@);
    proof {
        lemma_last_piece(s@);
    }
    if s[s.len() - 1] == '\n' {
        feeds
    } else {
        feeds + 1
    }
}

proof fn lemma_split_step(s: Seq<char>, i: int)
    requires
        0 <= i < s.len(),
    ensures
        crate::text::split_seq(s.take(i + 1), '\n').len() == crate::text::split_seq(s.take(i), '\n').len() + (if s[i]
            == '\n' { 1int } else { 0int }),
{
    crate::text::lemma_split_nonempty(s.take(i), '\n');
    assert(s.take(i + 1).drop_last() == s.take(i));
    assert(s.take(i + 1).last() == s[i]);
}

proof fn lemma_last_piece(s: Seq<char>)
    requires
        s.len() > 0,
    ensures
        (crate::text::split_seq(s, '\n').last().len() == 0) == (s.last() == '\n'),
        crate::text::split_seq(s, '\n').len() >= 1,
{
    crate::text::lemma_split_nonempty(s, '\n');
    crate::text::lemma_split_nonempty(s.drop_last(), '\n');
}

fn emit(out: &mut Vec<OverlayBlock>, kind: &str, start_line: u32, text: &str, sections: &Vec<String>)
    ensures
        overlay_views(final(out)@) == overlay_views(old(out)@).push(emitted(kind@, start_line, text@, strings_view(sections@))),
{
    let ghost prev = overlay_views(out@);
    let block = OverlayBlock {
        start_line,
        line_count: line_count_of(text),
        unit: BlockUnit { kind: owned(kind), text: owned(text) },
        sections: copy_strings(sections),
        kind: structural_kind(kind),
    };
    out.push(block);
    assert(overlay_views(out@) =~= prev.push(emitted(kind@, start_line, text@, strings_view(sections@))));
}

fn walk(nodes: &[BlockNode], sections: &mut Vec<String>, out: &mut Vec<OverlayBlock>)
    ensures
        strings_view(final(sections)@) == strings_view(old(sections)@),
        overlay_views(final(out)@) == overlay_views(old(out)@) + walk_blocks(nodes@, strings_view(old(sections)@)),
    decreases nodes@,
{
    let ghost secs = strings_view(sections@);
    let ghost start = overlay_views(out@);
    let mut i: usize = 0;
    assert(nodes@.skip(0) == nodes@);
    while i < nodes.len()
        invariant
            i <= nodes.len(),
            strings_view(sections@) == secs,
            start + walk_blocks(nodes@, secs) == overlay_views(out@) + walk_blocks(nodes@.skip(i as int), secs),
        decreases nodes.len() - i,
    {
        let node = &nodes[i];
        let ghost before = overlay_views(out@);
        assert(nodes@.skip(i as int).drop_first() == nodes@.skip(i + 1));
        assert(nodes@.skip(i as int)[0] == *node);
        assert(decreases_to!(nodes@ => nodes@[i as int]));
        match node {
            BlockNode::Section { id, children } => {
                assert(decreases_to!(nodes@[i as int] => children));
                match id {
                    Some(name) => {
                        sections.push(name.clone());
                        assert(strings_view(sections@) =~= secs.push(name@));
                        walk(children.as_slice(), sections, out);
                        let ghost mid = sections@;
                        sections.pop();
                        assert(sections@ == mid.drop_last());
                        assert(strings_view(mid.drop_last()) =~= strings_view(mid).drop_last());
                        assert(strings_view(sections@) =~= secs);
                    },
                    None => {
                        walk(children.as_slice(), sections, out);
                    },
                }
            },
            BlockNode::Preamble { children } => {
                assert(decreases_to!(nodes@[i as int] => children));
                walk(children.as_slice(), sections, out);
            },
            BlockNode::List { start_line, text } => {
                emit(out, "list", *start_line, text.as_str(), sections);
            },
            BlockNode::Other { context, start_line, text } => {
                if overlay_context(context.as_str()) {
                    emit(out, context.as_str(), *start_line, text.as_str(), sections);
                }
            },
        }
        i += 1;
        assert(before + walk_blocks(nodes@.skip(i - 1), secs) =~= overlay_views(out@) + walk_blocks(nodes@.skip(i as int), secs));
    }
    assert(nodes@.skip(i as int) == Seq::<BlockNode>::empty());
}

/// Enumerates the overlay blocks of a document's block tree in document
/// order, outermost only.
pub fn overlay_blocks(document: &[BlockNode]) -> (r: Vec<OverlayBlock>)
    ensures
        overlay_views(r@) == walk_blocks(document@, Seq::empty()),
{
    let mut out: Vec<OverlayBlock> = Vec::new();
    let mut sections: Vec<String> = Vec::new();
    assert(strings_view(sections@) =~= Seq::<Seq<char>>::empty());
    assert(overlay_views(out@) =~= Seq::<OverlayView>::empty());
    walk(document, &mut sections, &mut out);
    out
}

/// Every section ID of a block tree, in document order: a section's own
/// ID before those of the sections inside it; the preamble is walked, any
/// other block is not.
pub open spec fn section_ids_in(nodes: Seq<BlockNode>) -> Seq<Seq<char>>
    decreases nodes,
{
    if nodes.len() == 0 {
        Seq::empty()
    } else {
        proof {
            assert(decreases_to!(nodes => nodes[0]));
            assert(decreases_to!(nodes => nodes.drop_first()));
        }
        let here = match nodes[0] {
            BlockNode::Section { id, children } => {
                proof {
                    assert(decreases_to!(nodes[0] => children));
                }
                match id {
                    Some(i) => seq![i@] + section_ids_in(children@),
                    None => section_ids_in(children@),
                }
            },
            BlockNode::Preamble { children } => {
                proof {
                    assert(decreases_to!(nodes[0] => children));
                }
                section_ids_in(children@)
            },
            _ => Seq::empty(),
        };
        here + section_ids_in(nodes.drop_first())
    }
}

fn collect_section_ids(nodes: &[BlockNode], out: &mut Vec<String>)
    ensures
        strings_view(final(out)@) == strings_view(old(out)@) + section_ids_in(nodes@),
    decreases nodes@,
{
    let ghost start = strings_view(out@);
    let mut i: usize = 0;
    assert(nodes@.skip(0) == nodes@);
    while i < nodes.len()
        invariant
            i <= nodes.len(),
            start + section_ids_in(nodes@) == strings_view(out@) + section_ids_in(nodes@.skip(i as int)),
        decreases nodes.len() - i,
    {
        let node = &nodes[i];
        let ghost before = strings_view(out@);
        assert(nodes@.skip(i as int).drop_first() == nodes@.skip(i + 1));
        assert(nodes@.skip(i as int)[0] == *node);
        assert(decreases_to!(nodes@ => nodes@[i as int]));
        match node {
            BlockNode::Section { id, children } => {
                assert(decreases_to!(nodes@[i as int] => children));
                match id {
                    Some(name) => {
                        let ghost prev = out@;
                        out.push(name.clone());
                        assert(strings_view(out@) =~= strings_view(prev).push(name@));
                    },
                    None => {},
                }
                collect_section_ids(children.as_slice(), out);
            },
            BlockNode::Preamble { children } => {
                assert(decreases_to!(nodes@[i as int] => children));
                collect_section_ids(children.as_slice(), out);
            },
            _ => {},
        }
        i += 1;
        assert(before + section_ids_in(nodes@.skip(i - 1)) =~= strings_view(out@) + section_ids_in(nodes@.skip(i as int)));
    }
    assert(nodes@.skip(i as int) == Seq::<BlockNode>::empty());
}

/// Every section ID of a document's block tree, in document order.
pub fn section_ids(document: &[BlockNode]) -> (r: Vec<String>)
    ensures
        strings_view(r@) == section_ids_in(document@),
{
    let mut out: Vec<String> = Vec::new();
    assert(strings_view(out@) =~= Seq::<Seq<char>>::empty());
    collect_section_ids(document, &mut out);
    out
}

/// The diffable units of overlay blocks, in the same order.
pub fn overlay_units(blocks: Vec<OverlayBlock>) -> (r: Vec<BlockUnit>)
    ensures
        r@.len() == blocks@.len(),
        forall|i: int| 0 <= i < r@.len() ==> (#[trigger] r@[i]).kind@ == blocks@[i].unit.kind@ && r@[i].text@
            == blocks@[i].unit.text@,
{
    let mut r: Vec<BlockUnit> = Vec::new();
    let mut k: usize = 0;
    while k < blocks.len()
        invariant
            k <= blocks.len(),
            r@.len() == k,
            forall|i: int| 0 <= i < k ==> (#[trigger] r@[i]).kind@ == blocks@[i].unit.kind@ && r@[i].text@
                == blocks@[i].unit.text@,
        decreases blocks.len() - k,
    {
        let u = BlockUnit { kind: blocks[k].unit.kind.clone(), text: blocks[k].unit.text.clone() };
        r.push(u);
        k += 1;
    }
    r
}

// ---------------------------------------------------------------------
// Page diffs
// ---------------------------------------------------------------------

/// One rendered block's change relative to the diff base.
#[derive(Clone, Debug)]
pub enum PageBlockChange {
    /// Identical in the base.
    Unchanged,
    /// Not present in the base.
    Added,
    /// Present in the base with different content.
    Edited {
        /// The block's source with word-level `<del>`/`<ins>` markers
        /// (HTML-escaped).
        diff_html: String,
    },
}

/// One page's changes relative to its diff base.
#[derive(Clone, Debug)]
pub struct PageDiff {
    /// What the page was compared against (a version label, or the base
    /// ref name in PR mode).
    pub base_label: String,
    /// The page does not exist in the base at all.
    pub new_page: bool,
    /// Count of added blocks.
    pub added: usize,
    /// Count of removed blocks (present in the base only).
    pub removed: usize,
    /// Count of edited blocks.
    pub edited: usize,
    /// Per-block changes in document order of the new document.
    pub blocks: Vec<PageBlockChange>,
}

impl PageDiff {
    /// Whether anything changed relative to the base.
    pub fn is_changed(&self) -> (b: bool)
        ensures
            b == (self.new_page || self.added + self.removed + self.edited > 0),
    {
        self.new_page || self.added > 0 || self.removed > 0 || self.edited > 0
    }
}

/// A page block's change as plain values.
pub enum BlockMark {
    Unchanged,
    Added,
    Edited(Seq<char>),
}

pub open spec fn mark_of(c: PageBlockChange) -> BlockMark {
    match c {
        PageBlockChange::Unchanged => BlockMark::Unchanged,
        PageBlockChange::Added => BlockMark::Added,
        PageBlockChange::Edited { diff_html } => BlockMark::Edited(diff_html@),
    }
}

pub open spec fn marks(v: Seq<PageBlockChange>) -> Seq<BlockMark> {
    Seq::new(v.len(), |i: int| mark_of(v[i]))
}

/// The per-block marks of a new document of `new_len` blocks after the
/// block changes, applied in order (a later change to a slot wins).
pub open spec fn marks_after(changes: Seq<ChangeView>, new_len: nat) -> Seq<BlockMark>
    decreases changes.len(),
{
    if changes.len() == 0 {
        Seq::new(new_len, |i: int| BlockMark::Unchanged)
    } else {
        let prev = marks_after(changes.drop_last(), new_len);
        match changes.last() {
            ChangeView::Added { new } => if 0 <= new < new_len { prev.update(new, BlockMark::Added) } else { prev },
            ChangeView::Edited { new, diff_html, .. } => if 0 <= new < new_len {
                prev.update(new, BlockMark::Edited(diff_html))
            } else {
                prev
            },
            _ => prev,
        }
    }
}

/// A page's diff: against no base, the page is new and every block an
/// addition; against base blocks, the block diff's counts and per-block
/// marks.
pub open spec fn page_diff_is(d: PageDiff, base_label: Seq<char>, base: Option<crate::diff::Tally>, new_len: nat) -> bool {
    &&& d.base_label@ == base_label
    &&& match base {
        None => d.new_page && d.added == new_len && d.removed == 0 && d.edited == 0 && marks(d.blocks@)
            == Seq::new(new_len, |i: int| BlockMark::Added),
        Some(t) => !d.new_page && d.added == t.added && d.removed == t.removed && d.edited == t.edited
            && marks(d.blocks@) == marks_after(t.changes, new_len),
    }
}

/// Assembles a page's diff from its base's blocks (`None` when the page
/// has no counterpart in the base) and its own blocks.
pub fn page_diff_against(base_label: String, base_units: Option<Vec<BlockUnit>>, new_units: &[BlockUnit]) -> (r: PageDiff)
    ensures
        page_diff_is(
            r,
            base_label@,
            match base_units {
                None => None,
                Some(b) => Some(
                    crate::diff::apply_runs(
                        crate::diff::unit_views(b@),
                        crate::diff::unit_views(new_units@),
                        crate::diff::patience_diff(crate::diff::unit_views(b@), crate::diff::unit_views(new_units@)),
                    ),
                ),
            },
            new_units@.len(),
        ),
{
    let n = new_units.len();
    match base_units {
        None => {
            let mut blocks: Vec<PageBlockChange> = Vec::new();
            let mut i: usize = 0;
            while i < n
                invariant
                    i <= n,
                    marks(blocks@) == Seq::new(i as nat, |j: int| BlockMark::Added),
                decreases n - i,
            {
                let ghost prev = marks(blocks@);
                blocks.push(PageBlockChange::Added);
                assert(marks(blocks@) =~= prev.push(BlockMark::Added));
                i += 1;
                assert(marks(blocks@) =~= Seq::new(i as nat, |j: int| BlockMark::Added));
            }
            PageDiff { base_label, new_page: true, added: n, removed: 0, edited: 0, blocks }
        },
        Some(base) => {
            let diff = diff_blocks(base.as_slice(), new_units);
            let ghost t = tally_of(diff);
            let mut blocks: Vec<PageBlockChange> = Vec::new();
            let mut i: usize = 0;
            while i < n
                invariant
                    i <= n,
                    marks(blocks@) == Seq::new(i as nat, |j: int| BlockMark::Unchanged),
                decreases n - i,
            {
                let ghost prev = marks(blocks@);
                blocks.push(PageBlockChange::Unchanged);
                assert(marks(blocks@) =~= prev.push(BlockMark::Unchanged));
                i += 1;
                assert(marks(blocks@) =~= Seq::new(i as nat, |j: int| BlockMark::Unchanged));
            }
            let mut k: usize = 0;
            while k < diff.changes.len()
                invariant
                    k <= diff.changes@.len(),
                    blocks@.len() == n,
                    t == tally_of(diff),
                    marks(blocks@) == marks_after(t.changes.take(k as int), n as nat),
                decreases diff.changes.len() - k,
            {
                assert(t.changes.take(k + 1).drop_last() == t.changes.take(k as int));
                assert(t.changes[k as int] == crate::diff::change_view(diff.changes@[k as int]));
                match &diff.changes[k] {
                    BlockChange::Added { new } => {
                        if *new < n {
                            blocks.set(*new, PageBlockChange::Added);
                        }
                    },
                    BlockChange::Edited { new, diff_html, .. } => {
                        if *new < n {
                            blocks.set(*new, PageBlockChange::Edited { diff_html: diff_html.clone() });
                        }
                    },
                    _ => {},
                }
                k += 1;
                assert(marks(blocks@) =~= marks_after(t.changes.take(k as int), n as nat));
            }
            assert(t.changes.take(t.changes.len() as int) == t.changes);
            PageDiff {
                base_label,
                new_page: false,
                added: diff.added,
                removed: diff.removed,
                edited: diff.edited,
                blocks,
            }
        },
    }
}

/// The label of a previous version as a diff base: its display version,
/// else its version, else `default`.
pub fn base_version_label(display_version: &Option<String>, version: &Option<String>) -> (r: String)
    ensures
        r@ == match display_version {
            Some(d) => d@,
            None => match version {
                Some(v) => v@,
                None => "default"@,
            },
        },
{
    match display_version {
        Some(d) => d.clone(),
        None => match version {
            Some(v) => v.clone(),
            None => owned("default"),
        },
    }
}

/// Picks the base page a page diffs against in pull-request mode, among
/// the base catalog's pages with the same component, module and path
/// (given by their versions): the first of the page's version, else the
/// only one.
pub fn pick_base(candidates: &[Option<String>], version: &Option<String>) -> (r: Option<usize>)
    ensures
        match r {
            Some(i) => (i as int) < candidates@.len() && (
                (opt_view(candidates@[i as int]) == opt_view(*version) && forall|j: int| 0 <= j < i ==> opt_view(candidates@[j]) != opt_view(*version))
                || (candidates@.len() == 1 && forall|j: int| 0 <= j < candidates@.len() ==> opt_view(candidates@[j]) != opt_view(*version))),
            None => candidates@.len() != 1 && forall|j: int| 0 <= j < candidates@.len() ==> opt_view(candidates@[j]) != opt_view(*version),
        },
{
    let mut k: usize = 0;
    while k < candidates.len()
        invariant
            k <= candidates.len(),
            forall|j: int| 0 <= j < k ==> opt_view(candidates@[j]) != opt_view(*version),
        decreases candidates.len() - k,
    {
        if crate::model::catalog::opt_eq(&candidates[k], version) {
            return Some(k);
        }
        k += 1;
    }
    if candidates.len() == 1 {
        Some(0)
    } else {
        None
    }
}

// ---------------------------------------------------------------------
// Rendered pages
// ---------------------------------------------------------------------

/// One rendered page.
#[derive(Debug)]
pub struct RenderedPage {
    /// The page's coordinates.
    pub coords: Coords,
    /// Site-root-relative URL.
    pub url: String,
    /// The page title as rendered inline HTML (for the `<h1>`).
    pub title_html: Option<String>,
    /// The page title as plain text (for `<title>` and labels).
    pub title_text: Option<String>,
    /// The embedded (body-only) HTML contents.
    pub contents: String,
    /// Human-readable warnings collected while rendering this page.
    pub warnings: Vec<String>,
    /// Spec coverage of this page, when coverage data covers it.
    pub coverage: Option<crate::coverage::model::PageCoverage>,
    /// What changed on this page relative to its diff base.
    pub diff: Option<PageDiff>,
    /// Per overlay block, the source file and 1-based line the block
    /// starts at; `None` for a block whose origin can't be traced.
    pub block_sources: Vec<Option<(String, usize)>>,
    /// Per overlay block, the 1-based preprocessed line its span starts
    /// at (the rendered container's `data-source-line`).
    pub block_lines: Vec<u32>,
}

/// The result of rendering a whole site.
#[derive(Debug)]
pub struct RenderedSite {
    /// Every rendered page.
    pub pages: Vec<RenderedPage>,
    /// One navigation tree per component version, in catalog order, keyed
    /// by `(component name, version)`.
    pub navs: Vec<((String, Option<String>), crate::model::nav::NavTree)>,
}

/// Errors from the render pipeline.
#[derive(Clone, Debug)]
pub enum RenderError {
    /// A source file could not be read.
    Io {
        /// The file being read.
        path: String,
        /// The underlying error, stringified.
        message: String,
    },
    /// A page's component is not registered in the catalog.
    UnknownComponent(String),
}

/// The message a render error displays.
pub open spec fn render_error_text(e: RenderError) -> Seq<char> {
    match e {
        RenderError::Io { path, message } => "cannot read "@ + path@ + ": "@ + message@,
        RenderError::UnknownComponent(c) => "page "@ + c@ + " belongs to unknown component"@,
    }
}

impl RenderError {
    /// The error as a message.
    pub fn to_string(&self) -> (r: String)
        ensures
            r@ == render_error_text(*self),
    {
        match self {
            RenderError::Io { path, message } => {
                let mut out = owned("cannot read ");
                push_str(&mut out, path.as_str());
                push_str(&mut out, ": ");
                push_str(&mut out, message.as_str());
                out
            },
            RenderError::UnknownComponent(c) => {
                let mut out = owned("page ");
                push_str(&mut out, c.as_str());
                push_str(&mut out, " belongs to unknown component");
                out
            },
        }
    }
}

// ---------------------------------------------------------------------
// The imagesdir seed
// ---------------------------------------------------------------------

/// The `imagesdir` a page gets: the page's source path with `.adoc`
/// replaced by `.html` must end its URL; what precedes is the module's
/// base URL, and the seed is the relative path from the page to the
/// module's `_images` directory (empty when that is the page's own).
pub open spec fn imagesdir_spec(page_url: Seq<char>, path: Seq<char>) -> Option<Seq<char>> {
    let sfx = ".adoc"@;
    if !(path.len() >= sfx.len() && path.skip(path.len() - sfx.len()) == sfx) {
        None
    } else {
        let rel_html = path.take(path.len() - sfx.len()) + ".html"@;
        if !(page_url.len() >= rel_html.len() && page_url.skip(page_url.len() - rel_html.len()) == rel_html) {
            None
        } else {
            let base = page_url.take(page_url.len() - rel_html.len());
            let probe = relative_url_spec(page_url, base + "_images"@ + "/_probe"@);
            let psfx = "/_probe"@;
            if probe.len() >= psfx.len() && probe.skip(probe.len() - psfx.len()) == psfx {
                Some(probe.take(probe.len() - psfx.len()))
            } else {
                Some(Seq::empty())
            }
        }
    }
}

/// The `imagesdir` seed for a page: the relative path from the page's URL
/// to its module's published `_images/` directory.
pub fn imagesdir_for(page_url: &str, coords: &Coords) -> (r: Option<String>)
    ensures
        match r {
            Some(s) => imagesdir_spec(page_url@, coords.path@) == Some(s@),
            None => imagesdir_spec(page_url@, coords.path@) is None,
        },
{
    let path = chars_of(coords.path.as_str());
    let adoc = chars_of(".adoc");
    if !ends_with_chars(path.as_slice(), adoc.as_slice()) {
        return None;
    }
    let mut rel_html = slice_vec(path.as_slice(), 0, path.len() - adoc.len());
    let html = chars_of(".html");
    let mut k: usize = 0;
    let ghost stem = rel_html@;
    while k < html.len()
        invariant
            k <= html.len(),
            rel_html@ == stem + html@.take(k as int),
        decreases html.len() - k,
    {
        rel_html.push(html[k]);
        assert(html@.take(k + 1) == html@.take(k as int).push(html@[k as int]));
        k += 1;
    }
    assert(html@.take(html.len() as int) == html@);
    let url = chars_of(page_url);
    if !ends_with_chars(url.as_slice(), rel_html.as_slice()) {
        return None;
    }
    let base = slice_vec(url.as_slice(), 0, url.len() - rel_html.len());
    let mut target = string_of(base.as_slice());
    push_str(&mut target, "_images");
    push_str(&mut target, "/_probe");
    let probe = relative_url(page_url, target.as_str());
    let pc = chars_of(probe.as_str());
    let psfx = chars_of("/_probe");
    if ends_with_chars(pc.as_slice(), psfx.as_slice()) {
        let kept = slice_vec(pc.as_slice(), 0, pc.len() - psfx.len());
        Some(string_of(kept.as_slice()))
    } else {
        Some(String::new())
    }
}

} // verus!
