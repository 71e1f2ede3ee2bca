//! What each block of a document shows: a flat list of paint instructions.
//!
//! Boxes open and close around what they hold. A leaf stands in the list by
//! the id of its block; its layout is built when it is painted.

use std::ops::Range;

use vstd::prelude::*;
use vstd::string::*;
use vstd::utf8::*;

use crate::approve::joined;
use crate::caret::RevealState;
use crate::hex;
use crate::hex::decimal;
use crate::text;
use crate::text::{dup, own};
use crate::tree::{AlertKind, Block, BlockKind, ColumnAlign, HtmlBlockVisual, NodeId, RichTree};

verus! {

/// Font size of a text.
#[derive(Debug, Clone, Copy, PartialEq, Eq, Structural)]
pub enum TextSize {
    Body,
    Heading(u8),
    /// Nine tenths of the body.
    Code,
    /// 85 percent of the body.
    AlertTag,
    /// 95 percent of the body.
    Note,
}

/// Font weight of a text.
#[derive(Debug, Clone, Copy, PartialEq, Eq, Structural)]
pub enum TextWeight {
    Normal,
    Semibold,
    Bold,
}

/// A box around other instructions.
#[derive(Debug, Clone, Copy, PartialEq, Eq, Structural)]
pub enum Frame {
    Heading,
    Code,
    Quote,
    /// An alert, in the accent of its kind.
    Alert { kind: AlertKind },
    List,
    ListRow,
    ListItem,
    Table,
    TableRow { header: bool },
    /// A cell, and the source offset at which its menu opens.
    TableCell { align: ColumnAlign, menu: usize },
    Footnote,
    DefinitionList,
    DefinitionItem,
    DefinitionDetails,
    Group,
}

/// A paint instruction.
#[derive(Debug, PartialEq, Eq)]
pub enum Op {
    Open(Frame),
    Close,
    /// The inlines of a block.
    Leaf { block: NodeId, size: TextSize, weight: TextWeight },
    /// The language chip of a code block.
    Chip { block: NodeId, label: String, editing: bool },
    /// The text of a code block.
    Code { block: NodeId },
    /// The tag of an alert, as source text in the accent of its kind.
    AlertTag { kind: AlertKind, range: Range<usize> },
    /// The header of an alert, in the accent of its kind. A click puts the
    /// caret at `caret`.
    AlertLabel { block: NodeId, kind: AlertKind, label: String, caret: usize },
    /// The marker of a list item. That of a task can be toggled.
    Marker { item: NodeId, glyph: String, task: bool },
    /// The mark of a footnote.
    Mark { mark: String },
    Rule,
    /// A raw block; what it shows depends on what its source projects to.
    Opaque { block: NodeId },
    /// Text that cannot be edited in place.
    Text { text: String, size: TextSize, weight: TextWeight },
    /// The image that a raw block is.
    Image { block: NodeId, url: String, alt: String },
    /// The flowing text of a raw block.
    Flow { block: NodeId },
}

/// View of `Op`.
pub enum OpView {
    Open(Frame),
    Close,
    Leaf { block: NodeId, size: TextSize, weight: TextWeight },
    Chip { block: NodeId, label: Seq<char>, editing: bool },
    Code { block: NodeId },
    AlertTag { kind: AlertKind, range: Range<usize> },
    AlertLabel { block: NodeId, kind: AlertKind, label: Seq<char>, caret: usize },
    Marker { item: NodeId, glyph: Seq<char>, task: bool },
    Mark { mark: Seq<char> },
    Rule,
    Opaque { block: NodeId },
    Text { text: Seq<char>, size: TextSize, weight: TextWeight },
    Image { block: NodeId, url: Seq<char>, alt: Seq<char> },
    Flow { block: NodeId },
}

impl View for Op {
    type V = OpView;

    open spec fn view(&self) -> OpView {
        match *self {
            Op::Open(frame) => OpView::Open(frame),
            Op::Close => OpView::Close,
            Op::Leaf { block, size, weight } => OpView::Leaf { block, size, weight },
            Op::Chip { block, label, editing } => OpView::Chip { block, label: label@, editing },
            Op::Code { block } => OpView::Code { block },
            Op::AlertTag { kind, range } => OpView::AlertTag { kind, range },
            Op::AlertLabel { block, kind, label, caret } => OpView::AlertLabel {
                block,
                kind,
                label: label@,
                caret,
            },
            Op::Marker { item, glyph, task } => OpView::Marker { item, glyph: glyph@, task },
            Op::Mark { mark } => OpView::Mark { mark: mark@ },
            Op::Rule => OpView::Rule,
            Op::Opaque { block } => OpView::Opaque { block },
            Op::Text { text, size, weight } => OpView::Text { text: text@, size, weight },
            Op::Image { block, url, alt } => OpView::Image { block, url: url@, alt: alt@ },
            Op::Flow { block } => OpView::Flow { block },
        }
    }
}

/// Views of a list.
pub open spec fn views(ops: Seq<Op>) -> Seq<OpView> {
    ops.map_values(|op: Op| op@)
}

/// A document as it is painted in one frame.
#[derive(Debug, PartialEq, Eq)]
pub struct RenderSnapshot {
    pub tree: RichTree,
    pub source: String,
    /// The code block whose language is edited, and the draft.
    pub editing_code: Option<(NodeId, String)>,
    /// The image whose caption is edited, and the draft.
    pub editing_image: Option<(Range<usize>, String)>,
    /// Text under composition in a chip or caption.
    pub widget_preedit: Option<String>,
    pub caret: usize,
    pub selected_range: Range<usize>,
}

impl RenderSnapshot {
    /// Caret and selection.
    pub open spec fn state(&self) -> RevealState {
        RevealState { caret: self.caret, selection: self.selected_range }
    }

    /// Text under composition.
    pub open spec fn marked(&self) -> Seq<char> {
        match self.widget_preedit {
            Some(preedit) => preedit@,
            None => Seq::empty(),
        }
    }

    /// A draft with the text under composition and a caret behind it.
    pub open spec fn draft_label(&self, draft: Seq<char>) -> Seq<char> {
        draft + self.marked() + "|"@
    }

    /// A draft with the text under composition and a caret behind it.
    pub fn label_of_draft(&self, draft: &str) -> (label: String)
        ensures
            label@ == self.draft_label(draft@),
    {
        let mut label = own(draft);
        if let Some(preedit) = &self.widget_preedit {
            label.append(preedit.as_str());
        }
        label.append("|");
        assert(self.widget_preedit is None ==> draft@ + self.marked() =~= draft@);
        label
    }

    fn reveal_state(&self) -> (state: RevealState)
        ensures
            state == self.state(),
    {
        RevealState { caret: self.caret, selection: dup(&self.selected_range) }
    }
}

/// `ops` in a box.
pub open spec fn boxed(frame: Frame, ops: Seq<OpView>) -> Seq<OpView> {
    seq![OpView::Open(frame)] + ops + seq![OpView::Close]
}

/// The characters of `s` before its first white space.
pub open spec fn word_end(s: Seq<char>, i: int) -> int
    decreases s.len() - i,
{
    if i >= s.len() || text::is_space(s[i]) {
        i
    } else {
        word_end(s, i + 1)
    }
}

/// The first word of `s`.
pub open spec fn first_word(s: Seq<char>) -> Seq<char> {
    let t = text::trimmed(s);
    t.take(word_end(t, 0))
}

fn is_space_char(c: char) -> (yes: bool)
    ensures
        yes == text::is_space(c),
{
    ('\u{9}' <= c && c <= '\u{d}') || c == '\u{20}' || c == '\u{85}' || c == '\u{a0}' || c
        == '\u{1680}' || ('\u{2000}' <= c && c <= '\u{200a}') || c == '\u{2028}' || c == '\u{2029}'
        || c == '\u{202f}' || c == '\u{205f}' || c == '\u{3000}'
}

/// The language of a code block: the first word of its info string.
pub fn code_language(info: &str) -> (language: String)
    ensures
        language@ == first_word(info@),
{
    let t = info.trim();
    let n: usize = t.unicode_len();
    let mut i: usize = 0;
    while i < n && !is_space_char(t.get_char(i))
        invariant
            i <= n,
            n == t@.len(),
            word_end(t@, 0) == word_end(t@, i as int),
        decreases n - i,
    {
        i = i + 1;
    }
    own(t.substring_char(0, i))
}

/// The text of a language chip.
pub open spec fn chip_label(snap: RenderSnapshot, id: NodeId, info: Seq<char>) -> Seq<char> {
    match snap.editing_code {
        Some((editing, draft)) => if editing == id {
            snap.draft_label(draft@)
        } else {
            language_label(info)
        },
        None => language_label(info),
    }
}

/// The language, or a word for none.
pub open spec fn language_label(info: Seq<char>) -> Seq<char> {
    if first_word(info).len() == 0 {
        "plain"@
    } else {
        first_word(info)
    }
}

/// The language of this code block is edited.
pub open spec fn edits_code(snap: RenderSnapshot, id: NodeId) -> bool {
    snap.editing_code matches Some((editing, _)) && editing == id
}

/// The alert shows its tag as source.
pub open spec fn shows_tag(snap: RenderSnapshot, chrome: Range<usize>) -> bool {
    chrome.start < chrome.end && snap.state().meets(chrome)
}

/// What the header of an alert shows.
pub open spec fn alert_header(
    snap: RenderSnapshot,
    b: Block,
    kind: AlertKind,
    label: Seq<char>,
    tag: Range<usize>,
    chrome: Range<usize>,
) -> OpView {
    if shows_tag(snap, chrome) {
        OpView::AlertTag { kind, range: chrome }
    } else {
        OpView::AlertLabel {
            block: b.id,
            kind,
            label,
            caret: if tag.start < tag.end {
                tag.start
            } else {
                b.source_range.start
            },
        }
    }
}

/// The task state of a list item.
pub open spec fn task_of(item: Block) -> Option<bool> {
    match item.kind {
        BlockKind::ListItem { task } => task,
        _ => None,
    }
}

/// The marker of item `i` of a list: a check box, a number or a bullet.
pub open spec fn glyph_of(item: Block, start: Option<usize>, i: int) -> Seq<char> {
    match (task_of(item), start) {
        (Some(checked), _) => if checked {
            "☑"@
        } else {
            "☐"@
        },
        (None, Some(start)) => hex::decimal_text(start.saturating_add(i as usize) as int) + "."@,
        (None, None) => "•"@,
    }
}

/// Alignment of column `c`.
pub open spec fn column_align(alignments: Seq<ColumnAlign>, c: int) -> ColumnAlign {
    if 0 <= c < alignments.len() {
        alignments[c]
    } else {
        ColumnAlign::Unset
    }
}

/// A row is a header.
pub open spec fn is_header(row: Block) -> bool {
    row.kind matches BlockKind::TableRow { header } && header
}

/// The first `n` cells of a row.
pub open spec fn cells_shown(
    cells: Seq<Block>,
    alignments: Seq<ColumnAlign>,
    header: bool,
    n: int,
) -> Seq<OpView>
    decreases n,
{
    if n <= 0 {
        Seq::empty()
    } else {
        let cell = cells[n - 1];
        cells_shown(cells, alignments, header, n - 1) + boxed(
            Frame::TableCell {
                align: column_align(alignments, n - 1),
                menu: cell.source_range.start,
            },
            seq![
                OpView::Leaf {
                    block: cell.id,
                    size: TextSize::Note,
                    weight: if header {
                        TextWeight::Semibold
                    } else {
                        TextWeight::Normal
                    },
                },
            ],
        )
    }
}

/// The first `n` rows of a table.
pub open spec fn rows_shown(rows: Seq<Block>, alignments: Seq<ColumnAlign>, n: int) -> Seq<OpView>
    decreases n,
{
    if n <= 0 {
        Seq::empty()
    } else {
        let row = rows[n - 1];
        rows_shown(rows, alignments, n - 1) + boxed(
            Frame::TableRow { header: is_header(row) },
            cells_shown(
                row.children@,
                alignments,
                is_header(row),
                row.children@.len() as int,
            ),
        )
    }
}

/// Text inside a container that styles it: the inlines of the block, or of the
/// blocks inside it.
pub open spec fn nested_shown(b: Block, size: TextSize, weight: TextWeight) -> Seq<OpView>
    decreases b, 0nat,
{
    if b.kind is Paragraph || b.inlines@.len() > 0 {
        seq![OpView::Leaf { block: b.id, size, weight }]
    } else if b.children@.len() == 0 {
        Seq::empty()
    } else {
        boxed(Frame::Group, all_nested(b.children@, size, weight))
    }
}

/// Text of blocks inside a container that styles it.
pub open spec fn all_nested(blocks: Seq<Block>, size: TextSize, weight: TextWeight) -> Seq<OpView>
    decreases blocks, 0nat,
{
    if blocks.len() == 0 {
        Seq::empty()
    } else {
        all_nested(blocks.drop_last(), size, weight) + nested_shown(blocks.last(), size, weight)
    }
}

/// The items of a list.
pub open spec fn items_shown(snap: RenderSnapshot, items: Seq<Block>, start: Option<usize>) -> Seq<
    OpView,
>
    decreases items, 0nat,
{
    if items.len() == 0 {
        Seq::empty()
    } else {
        let item = items.last();
        items_shown(snap, items.drop_last(), start) + boxed(
            Frame::ListRow,
            seq![
                OpView::Marker {
                    item: item.id,
                    glyph: glyph_of(item, start, items.len() - 1),
                    task: task_of(item) is Some,
                },
            ] + shown(snap, item.children@),
        )
    }
}

/// What a block shows.
pub open spec fn block_shown(snap: RenderSnapshot, b: Block) -> Seq<OpView>
    decreases b, 0nat,
{
    match b.kind {
        BlockKind::Paragraph => seq![
            OpView::Leaf { block: b.id, size: TextSize::Body, weight: TextWeight::Normal },
        ],
        BlockKind::Heading { level, .. } => boxed(
            Frame::Heading,
            seq![
                OpView::Leaf {
                    block: b.id,
                    size: TextSize::Heading(level),
                    weight: TextWeight::Bold,
                },
            ],
        ),
        BlockKind::CodeBlock { info, .. } => boxed(
            Frame::Code,
            seq![
                OpView::Chip {
                    block: b.id,
                    label: chip_label(snap, b.id, info@),
                    editing: edits_code(snap, b.id),
                },
                OpView::Code { block: b.id },
            ],
        ),
        BlockKind::BlockQuote => boxed(Frame::Quote, shown(snap, b.children@)),
        BlockKind::Alert { kind, label, tag_range, chrome_range } => boxed(
            Frame::Alert { kind },
            seq![alert_header(snap, b, kind, label@, tag_range, chrome_range)] + shown(
                snap,
                b.children@,
            ),
        ),
        BlockKind::BulletList => boxed(Frame::List, items_shown(snap, b.children@, None)),
        BlockKind::OrderedList { start } => boxed(
            Frame::List,
            items_shown(snap, b.children@, Some(start)),
        ),
        BlockKind::ListItem { .. } => boxed(Frame::ListItem, shown(snap, b.children@)),
        BlockKind::Table { alignments } => boxed(
            Frame::Table,
            rows_shown(b.children@, alignments@, b.children@.len() as int),
        ),
        BlockKind::TableRow { .. } => Seq::empty(),
        BlockKind::TableCell => Seq::empty(),
        BlockKind::ThematicBreak => seq![OpView::Rule],
        BlockKind::FootnoteDefinition { label, superscript } => boxed(
            Frame::Footnote,
            seq![
                OpView::Mark {
                    mark: match superscript {
                        Some(s) => s@,
                        None => label@,
                    },
                },
            ] + all_nested(b.children@, TextSize::Note, TextWeight::Normal),
        ),
        BlockKind::DefinitionList => boxed(
            Frame::DefinitionList,
            definitions_shown(snap, b.children@),
        ),
        BlockKind::DefinitionItem => boxed(Frame::DefinitionItem, shown(snap, b.children@)),
        BlockKind::DefinitionTerm => nested_shown(b, TextSize::Body, TextWeight::Semibold),
        BlockKind::DefinitionDetails => boxed(
            Frame::DefinitionDetails,
            nested_shown(b, TextSize::Body, TextWeight::Normal),
        ),
        BlockKind::Opaque { .. } => seq![OpView::Opaque { block: b.id }],
    }
}

/// The items of a definition list.
pub open spec fn definitions_shown(snap: RenderSnapshot, items: Seq<Block>) -> Seq<OpView>
    decreases items, 0nat,
{
    if items.len() == 0 {
        Seq::empty()
    } else {
        definitions_shown(snap, items.drop_last()) + boxed(
            Frame::DefinitionItem,
            shown(snap, items.last().children@),
        )
    }
}

/// What blocks show, one after the other.
pub open spec fn shown(snap: RenderSnapshot, blocks: Seq<Block>) -> Seq<OpView>
    decreases blocks, 0nat,
{
    if blocks.len() == 0 {
        Seq::empty()
    } else {
        shown(snap, blocks.drop_last()) + block_shown(snap, blocks.last())
    }
}

fn put(out: &mut Vec<Op>, op: Op)
    ensures
        views(final(out)@) == views(old(out)@) + seq![op@],
{
    out.push(op);
    assert(views(out@) =~= views(old(out)@) + seq![op@]);
}

/// Appends the cells of a row.
fn put_cells(cells: &Vec<Block>, alignments: &Vec<ColumnAlign>, header: bool, out: &mut Vec<Op>)
    ensures
        views(final(out)@) == views(old(out)@) + cells_shown(
            cells@,
            alignments@,
            header,
            cells@.len() as int,
        ),
{
    let ghost start = views(out@);
    let weight = if header {
        TextWeight::Semibold
    } else {
        TextWeight::Normal
    };
    let mut c: usize = 0;
    assert(start + Seq::<OpView>::empty() =~= start);
    while c < cells.len()
        invariant
            c <= cells@.len(),
            weight == (if header {
                TextWeight::Semibold
            } else {
                TextWeight::Normal
            }),
            views(out@) == start + cells_shown(cells@, alignments@, header, c as int),
        decreases cells@.len() - c,
    {
        let cell = &cells[c];
        let align = if c < alignments.len() {
            alignments[c]
        } else {
            ColumnAlign::Unset
        };
        put(out, Op::Open(Frame::TableCell { align, menu: cell.source_range.start }));
        put(out, Op::Leaf { block: cell.id, size: TextSize::Note, weight });
        put(out, Op::Close);
        assert(views(out@) =~= start + cells_shown(cells@, alignments@, header, c + 1));
        c = c + 1;
    }
}

/// Appends the rows of a table.
fn render_table(rows: &Vec<Block>, alignments: &Vec<ColumnAlign>, out: &mut Vec<Op>)
    ensures
        views(final(out)@) == views(old(out)@) + rows_shown(
            rows@,
            alignments@,
            rows@.len() as int,
        ),
{
    let ghost start = views(out@);
    let mut r: usize = 0;
    assert(start + Seq::<OpView>::empty() =~= start);
    while r < rows.len()
        invariant
            r <= rows@.len(),
            views(out@) == start + rows_shown(rows@, alignments@, r as int),
        decreases rows@.len() - r,
    {
        let row = &rows[r];
        let header = match &row.kind {
            BlockKind::TableRow { header } => *header,
            _ => false,
        };
        put(out, Op::Open(Frame::TableRow { header }));
        put_cells(&row.children, alignments, header, out);
        put(out, Op::Close);
        assert(views(out@) =~= start + rows_shown(rows@, alignments@, r + 1));
        r = r + 1;
    }
}

/// Appends text inside a container that styles it.
fn render_nested_inlines(b: &Block, size: TextSize, weight: TextWeight, out: &mut Vec<Op>)
    ensures
        views(final(out)@) == views(old(out)@) + nested_shown(*b, size, weight),
    decreases b, 0nat,
{
    let plain = match &b.kind {
        BlockKind::Paragraph => true,
        _ => false,
    };
    if plain || b.inlines.len() > 0 {
        put(out, Op::Leaf { block: b.id, size, weight });
    } else if b.children.len() > 0 {
        put(out, Op::Open(Frame::Group));
        put_all_nested(&b.children, size, weight, out);
        put(out, Op::Close);
        assert(views(out@) =~= views(old(out)@) + nested_shown(*b, size, weight));
    } else {
        assert(views(out@) =~= views(old(out)@) + nested_shown(*b, size, weight));
    }
}

fn put_all_nested(blocks: &Vec<Block>, size: TextSize, weight: TextWeight, out: &mut Vec<Op>)
    ensures
        views(final(out)@) == views(old(out)@) + all_nested(blocks@, size, weight),
    decreases blocks, 0nat,
{
    let ghost start = views(out@);
    let mut k: usize = 0;
    assert(blocks@.take(0) =~= Seq::<Block>::empty());
    assert(start + Seq::<OpView>::empty() =~= start);
    while k < blocks.len()
        invariant
            k <= blocks@.len(),
            views(out@) == start + all_nested(blocks@.take(k as int), size, weight),
        decreases blocks@.len() - k,
    {
        assert(blocks@.take(k + 1).drop_last() =~= blocks@.take(k as int));
        render_nested_inlines(&blocks[k], size, weight, out);
        assert(views(out@) =~= start + all_nested(blocks@.take(k + 1), size, weight));
        k = k + 1;
    }
    assert(blocks@.take(k as int) =~= blocks@);
}

/// The marker of item `i` of a list.
pub fn list_glyph(item: &Block, start: Option<usize>, i: usize) -> (glyph: String)
    ensures
        glyph@ == glyph_of(*item, start, i as int),
{
    let task = match &item.kind {
        BlockKind::ListItem { task } => *task,
        _ => None,
    };
    match task {
        Some(checked) => if checked {
            own("☑")
        } else {
            own("☐")
        },
        None => match start {
            Some(start) => joined(decimal(start.saturating_add(i) as u64).as_str(), "."),
            None => own("•"),
        },
    }
}

/// Appends the items of a list, each in a row with its marker.
fn render_list(snap: &RenderSnapshot, items: &Vec<Block>, start: Option<usize>, out: &mut Vec<Op>)
    ensures
        views(final(out)@) == views(old(out)@) + items_shown(*snap, items@, start),
    decreases items, 0nat,
{
    let ghost begin = views(out@);
    let mut k: usize = 0;
    assert(items@.take(0) =~= Seq::<Block>::empty());
    assert(begin + Seq::<OpView>::empty() =~= begin);
    while k < items.len()
        invariant
            k <= items@.len(),
            views(out@) == begin + items_shown(*snap, items@.take(k as int), start),
        decreases items@.len() - k,
    {
        let item = &items[k];
        assert(items@.take(k + 1).drop_last() =~= items@.take(k as int));
        assert(items@.take(k + 1).last() == *item);
        let task = match &item.kind {
            BlockKind::ListItem { task } => task.is_some(),
            _ => false,
        };
        put(out, Op::Open(Frame::ListRow));
        put(out, Op::Marker { item: item.id, glyph: list_glyph(item, start, k), task });
        put_blocks(snap, &item.children, out);
        put(out, Op::Close);
        assert(views(out@) =~= begin + items_shown(*snap, items@.take(k + 1), start));
        k = k + 1;
    }
    assert(items@.take(k as int) =~= items@);
}

/// Appends the items of a definition list.
fn render_definition_list_nested(snap: &RenderSnapshot, items: &Vec<Block>, out: &mut Vec<Op>)
    ensures
        views(final(out)@) == views(old(out)@) + definitions_shown(*snap, items@),
    decreases items, 0nat,
{
    let ghost begin = views(out@);
    let mut k: usize = 0;
    assert(items@.take(0) =~= Seq::<Block>::empty());
    assert(begin + Seq::<OpView>::empty() =~= begin);
    while k < items.len()
        invariant
            k <= items@.len(),
            views(out@) == begin + definitions_shown(*snap, items@.take(k as int)),
        decreases items@.len() - k,
    {
        let item = &items[k];
        assert(items@.take(k + 1).drop_last() =~= items@.take(k as int));
        assert(items@.take(k + 1).last() == *item);
        put(out, Op::Open(Frame::DefinitionItem));
        put_blocks(snap, &item.children, out);
        put(out, Op::Close);
        assert(views(out@) =~= begin + definitions_shown(*snap, items@.take(k + 1)));
        k = k + 1;
    }
    assert(items@.take(k as int) =~= items@);
}

/// Appends what blocks show, one after the other.
fn put_blocks(snap: &RenderSnapshot, blocks: &Vec<Block>, out: &mut Vec<Op>)
    ensures
        views(final(out)@) == views(old(out)@) + shown(*snap, blocks@),
    decreases blocks, 0nat,
{
    let ghost begin = views(out@);
    let mut k: usize = 0;
    assert(blocks@.take(0) =~= Seq::<Block>::empty());
    assert(begin + Seq::<OpView>::empty() =~= begin);
    while k < blocks.len()
        invariant
            k <= blocks@.len(),
            views(out@) == begin + shown(*snap, blocks@.take(k as int)),
        decreases blocks@.len() - k,
    {
        assert(blocks@.take(k + 1).drop_last() =~= blocks@.take(k as int));
        assert(blocks@.take(k + 1).last() == blocks@[k as int]);
        render_block(snap, &blocks[k], out);
        assert(views(out@) =~= begin + shown(*snap, blocks@.take(k + 1)));
        k = k + 1;
    }
    assert(blocks@.take(k as int) =~= blocks@);
}

/// The text of a language chip.
pub fn code_chip(snap: &RenderSnapshot, id: NodeId, info: &str) -> (chip: (String, bool))
    ensures
        chip.0@ == chip_label(*snap, id, info@),
        chip.1 == edits_code(*snap, id),
{
    if let Some((editing, draft)) = &snap.editing_code {
        if *editing == id {
            return (snap.label_of_draft(draft.as_str()), true);
        }
    }
    let language = code_language(info);
    if language.as_str().is_empty() {
        (own("plain"), false)
    } else {
        (language, false)
    }
}

/// What the header of an alert shows: its tag as source where the caret or the
/// selection is in it, and its label elsewhere.
pub fn render_alert(
    snap: &RenderSnapshot,
    b: &Block,
    kind: AlertKind,
    label: &String,
    tag: &Range<usize>,
    chrome: &Range<usize>,
) -> (op: Op)
    ensures
        op@ == alert_header(*snap, *b, kind, label@, *tag, *chrome),
{
    if chrome.start < chrome.end && snap.reveal_state().intersects(chrome) {
        return Op::AlertTag { kind, range: dup(chrome) };
    }
    Op::AlertLabel {
        block: b.id,
        kind,
        label: label.clone(),
        caret: if tag.start < tag.end {
            tag.start
        } else {
            b.source_range.start
        },
    }
}

/// Appends what a block shows.
pub fn render_block(snap: &RenderSnapshot, b: &Block, out: &mut Vec<Op>)
    ensures
        views(final(out)@) == views(old(out)@) + block_shown(*snap, *b),
    decreases b, 0nat,
{
    let ghost begin = views(out@);
    match &b.kind {
        BlockKind::Paragraph => {
            put(
                out,
                Op::Leaf { block: b.id, size: TextSize::Body, weight: TextWeight::Normal },
            );
        },
        BlockKind::Heading { level, .. } => {
            put(out, Op::Open(Frame::Heading));
            put(
                out,
                Op::Leaf {
                    block: b.id,
                    size: TextSize::Heading(*level),
                    weight: TextWeight::Bold,
                },
            );
            put(out, Op::Close);
        },
        BlockKind::CodeBlock { info, .. } => {
            let (label, editing) = code_chip(snap, b.id, info.as_str());
            put(out, Op::Open(Frame::Code));
            put(out, Op::Chip { block: b.id, label, editing });
            put(out, Op::Code { block: b.id });
            put(out, Op::Close);
        },
        BlockKind::BlockQuote => {
            put(out, Op::Open(Frame::Quote));
            put_blocks(snap, &b.children, out);
            put(out, Op::Close);
        },
        BlockKind::Alert { kind, label, tag_range, chrome_range } => {
            put(out, Op::Open(Frame::Alert { kind: *kind }));
            put(out, render_alert(snap, b, *kind, label, tag_range, chrome_range));
            put_blocks(snap, &b.children, out);
            put(out, Op::Close);
        },
        BlockKind::BulletList => {
            put(out, Op::Open(Frame::List));
            render_list(snap, &b.children, None, out);
            put(out, Op::Close);
        },
        BlockKind::OrderedList { start } => {
            put(out, Op::Open(Frame::List));
            render_list(snap, &b.children, Some(*start), out);
            put(out, Op::Close);
        },
        BlockKind::ListItem { .. } => {
            put(out, Op::Open(Frame::ListItem));
            put_blocks(snap, &b.children, out);
            put(out, Op::Close);
        },
        BlockKind::Table { alignments } => {
            put(out, Op::Open(Frame::Table));
            render_table(&b.children, alignments, out);
            put(out, Op::Close);
        },
        BlockKind::TableRow { .. } => {},
        BlockKind::TableCell => {},
        BlockKind::ThematicBreak => {
            put(out, Op::Rule);
        },
        BlockKind::FootnoteDefinition { label, superscript } => {
            put(out, Op::Open(Frame::Footnote));
            let mark = match superscript {
                Some(s) => s.clone(),
                None => label.clone(),
            };
            put(out, Op::Mark { mark });
            put_all_nested(&b.children, TextSize::Note, TextWeight::Normal, out);
            put(out, Op::Close);
        },
        BlockKind::DefinitionList => {
            put(out, Op::Open(Frame::DefinitionList));
            render_definition_list_nested(snap, &b.children, out);
            put(out, Op::Close);
        },
        BlockKind::DefinitionItem => {
            put(out, Op::Open(Frame::DefinitionItem));
            put_blocks(snap, &b.children, out);
            put(out, Op::Close);
        },
        BlockKind::DefinitionTerm => {
            render_nested_inlines(b, TextSize::Body, TextWeight::Semibold, out);
        },
        BlockKind::DefinitionDetails => {
            put(out, Op::Open(Frame::DefinitionDetails));
            render_nested_inlines(b, TextSize::Body, TextWeight::Normal, out);
            put(out, Op::Close);
        },
        BlockKind::Opaque { .. } => {
            put(out, Op::Opaque { block: b.id });
        },
    }
    assert(views(out@) =~= begin + block_shown(*snap, *b));
}

/// A footnote definition in raw source.
#[derive(Debug, PartialEq, Eq)]
pub struct RawFootnote {
    pub label: String,
    /// The label in Unicode superscripts, where it has one.
    pub superscript: Option<String>,
    pub body: String,
}

/// What the source of a raw block projects to.
#[derive(Debug, PartialEq, Eq)]
pub enum OpaqueVisual {
    /// A footnote definition.
    Footnote { label: String, superscript: Option<String>, body: String },
    /// A definition list: terms and their details.
    Definitions { items: Vec<(String, String)> },
    Hidden,
    Rule,
    Image { url: String, alt: String },
    Flow,
}

/// What a raw block is.
pub open spec fn raw_visual(
    footnote: Option<RawFootnote>,
    definitions: Option<Vec<(String, String)>>,
    projected: HtmlBlockVisual,
) -> OpaqueVisual {
    match (footnote, definitions) {
        (Some(f), _) => OpaqueVisual::Footnote {
            label: f.label,
            superscript: f.superscript,
            body: f.body,
        },
        (None, Some(items)) => OpaqueVisual::Definitions { items },
        (None, None) => match projected {
            HtmlBlockVisual::Hidden => OpaqueVisual::Hidden,
            HtmlBlockVisual::ThematicBreak => OpaqueVisual::Rule,
            HtmlBlockVisual::Image { url, alt } => OpaqueVisual::Image { url, alt },
            HtmlBlockVisual::Flow { .. } => OpaqueVisual::Flow,
        },
    }
}

/// What a raw block is: a footnote definition where its source reads as one,
/// else a definition list where it reads as one, else what its HTML projects
/// to.
pub fn opaque_visual(
    footnote: Option<RawFootnote>,
    definitions: Option<Vec<(String, String)>>,
    projected: HtmlBlockVisual,
) -> (visual: OpaqueVisual)
    ensures
        visual == raw_visual(footnote, definitions, projected),
{
    if let Some(f) = footnote {
        return OpaqueVisual::Footnote {
            label: f.label,
            superscript: f.superscript,
            body: f.body,
        };
    }
    if let Some(items) = definitions {
        return OpaqueVisual::Definitions { items };
    }
    match projected {
        HtmlBlockVisual::Hidden => OpaqueVisual::Hidden,
        HtmlBlockVisual::ThematicBreak => OpaqueVisual::Rule,
        HtmlBlockVisual::Image { url, alt } => OpaqueVisual::Image { url, alt },
        HtmlBlockVisual::Flow { .. } => OpaqueVisual::Flow,
    }
}

/// The first `n` items of a definition list in raw source.
pub open spec fn raw_definitions(items: Seq<(String, String)>, n: int) -> Seq<OpView>
    decreases n,
{
    if n <= 0 {
        Seq::empty()
    } else {
        let (term, details) = items[n - 1];
        raw_definitions(items, n - 1) + boxed(
            Frame::DefinitionItem,
            seq![
                OpView::Text {
                    text: term@,
                    size: TextSize::Body,
                    weight: TextWeight::Semibold,
                },
            ] + boxed(
                Frame::DefinitionDetails,
                seq![
                    OpView::Text {
                        text: details@,
                        size: TextSize::Body,
                        weight: TextWeight::Normal,
                    },
                ],
            ),
        )
    }
}

/// What a raw block shows.
pub open spec fn opaque_shown(block: NodeId, visual: OpaqueVisual) -> Seq<OpView> {
    match visual {
        OpaqueVisual::Footnote { label, superscript, body } => boxed(
            Frame::Footnote,
            seq![
                OpView::Mark {
                    mark: match superscript {
                        Some(s) => s@,
                        None => label@,
                    },
                },
                OpView::Text { text: body@, size: TextSize::Note, weight: TextWeight::Normal },
            ],
        ),
        OpaqueVisual::Definitions { items } => boxed(
            Frame::DefinitionList,
            raw_definitions(items@, items@.len() as int),
        ),
        OpaqueVisual::Hidden => Seq::empty(),
        OpaqueVisual::Rule => seq![OpView::Rule],
        OpaqueVisual::Image { url, alt } => seq![OpView::Image { block, url: url@, alt: alt@ }],
        OpaqueVisual::Flow => seq![OpView::Flow { block }],
    }
}

/// What a raw block shows.
pub fn render_opaque(block: NodeId, visual: &OpaqueVisual) -> (out: Vec<Op>)
    ensures
        views(out@) == opaque_shown(block, *visual),
{
    let mut out: Vec<Op> = Vec::new();
    assert(views(out@) =~= Seq::<OpView>::empty());
    match visual {
        OpaqueVisual::Footnote { label, superscript, body } => {
            put(&mut out, Op::Open(Frame::Footnote));
            let mark = match superscript {
                Some(s) => s.clone(),
                None => label.clone(),
            };
            put(&mut out, Op::Mark { mark });
            put(
                &mut out,
                Op::Text { text: body.clone(), size: TextSize::Note, weight: TextWeight::Normal },
            );
            put(&mut out, Op::Close);
        },
        OpaqueVisual::Definitions { items } => {
            put(&mut out, Op::Open(Frame::DefinitionList));
            let ghost begin = views(out@);
            assert(begin + Seq::<OpView>::empty() =~= begin);
            let mut k: usize = 0;
            while k < items.len()
                invariant
                    k <= items@.len(),
                    views(out@) == begin + raw_definitions(items@, k as int),
                decreases items@.len() - k,
            {
                put(&mut out, Op::Open(Frame::DefinitionItem));
                put(
                    &mut out,
                    Op::Text {
                        text: items[k].0.clone(),
                        size: TextSize::Body,
                        weight: TextWeight::Semibold,
                    },
                );
                put(&mut out, Op::Open(Frame::DefinitionDetails));
                put(
                    &mut out,
                    Op::Text {
                        text: items[k].1.clone(),
                        size: TextSize::Body,
                        weight: TextWeight::Normal,
                    },
                );
                put(&mut out, Op::Close);
                put(&mut out, Op::Close);
                assert(views(out@) =~= begin + raw_definitions(items@, k + 1));
                k = k + 1;
            }
            put(&mut out, Op::Close);
        },
        OpaqueVisual::Hidden => {},
        OpaqueVisual::Rule => {
            put(&mut out, Op::Rule);
        },
        OpaqueVisual::Image { url, alt } => {
            put(&mut out, Op::Image { block, url: url.clone(), alt: alt.clone() });
        },
        OpaqueVisual::Flow => {
            put(&mut out, Op::Flow { block });
        },
    }
    assert(views(out@) =~= opaque_shown(block, *visual));
    out
}

/// What the top-level block `index` shows.
pub open spec fn top_shown(snap: RenderSnapshot, index: usize) -> Seq<OpView> {
    if index < snap.tree.blocks@.len() {
        block_shown(snap, snap.tree.blocks@[index as int])
    } else {
        Seq::empty()
    }
}

/// What the top-level block `index` shows. There is nothing to show past the
/// end.
pub fn render_top_block(snap: &RenderSnapshot, index: usize) -> (out: Vec<Op>)
    ensures
        views(out@) == top_shown(*snap, index),
{
    let mut out: Vec<Op> = Vec::new();
    assert(views(out@) =~= Seq::<OpView>::empty());
    if index < snap.tree.blocks.len() {
        render_block(snap, &snap.tree.blocks[index], &mut out);
        assert(Seq::<OpView>::empty() + block_shown(*snap, snap.tree.blocks@[index as int])
            =~= block_shown(*snap, snap.tree.blocks@[index as int]));
    }
    out
}

/// How many of the boxes that `ops` open stay open.
pub open spec fn depth(ops: Seq<OpView>) -> int
    decreases ops.len(),
{
    if ops.len() == 0 {
        0
    } else {
        depth(ops.drop_last()) + match ops.last() {
            OpView::Open(_) => 1int,
            OpView::Close => -1,
            _ => 0,
        }
    }
}

/// Every box that `ops` open they close, and no other.
pub open spec fn balanced(ops: Seq<OpView>) -> bool {
    depth(ops) == 0 && forall|n: int| 0 <= n <= ops.len() ==> depth(#[trigger] ops.take(n)) >= 0
}

proof fn lemma_depth_sum(a: Seq<OpView>, b: Seq<OpView>)
    ensures
        depth(a + b) == depth(a) + depth(b),
    decreases b.len(),
{
    if b.len() == 0 {
        assert(a + b =~= a);
    } else {
        assert((a + b).drop_last() =~= a + b.drop_last());
        lemma_depth_sum(a, b.drop_last());
    }
}

proof fn lemma_balanced_sum(a: Seq<OpView>, b: Seq<OpView>)
    requires
        balanced(a),
        balanced(b),
    ensures
        balanced(a + b),
{
    lemma_depth_sum(a, b);
    assert forall|n: int| 0 <= n <= (a + b).len() implies depth(#[trigger] (a + b).take(n))
        >= 0 by {
        if n <= a.len() {
            assert((a + b).take(n) =~= a.take(n));
        } else {
            assert((a + b).take(n) =~= a + b.take(n - a.len()));
            lemma_depth_sum(a, b.take(n - a.len()));
        }
    }
}

proof fn lemma_balanced_one(op: OpView)
    requires
        !(op is Open),
        !(op is Close),
    ensures
        balanced(seq![op]),
{
    let s = seq![op];
    assert(depth(Seq::<OpView>::empty()) == 0);
    assert(s.drop_last() =~= Seq::<OpView>::empty());
    assert(depth(s) == 0);
    assert forall|n: int| 0 <= n <= s.len() implies depth(#[trigger] s.take(n)) >= 0 by {
        if n == 0 {
            assert(s.take(0) =~= Seq::<OpView>::empty());
        } else {
            assert(s.take(1) =~= s);
        }
    }
}

proof fn lemma_balanced_none()
    ensures
        balanced(Seq::<OpView>::empty()),
{
    let s = Seq::<OpView>::empty();
    assert forall|n: int| 0 <= n <= s.len() implies depth(#[trigger] s.take(n)) >= 0 by {
        assert(s.take(n) =~= s);
    }
}

proof fn lemma_balanced_box(frame: Frame, ops: Seq<OpView>)
    requires
        balanced(ops),
    ensures
        balanced(boxed(frame, ops)),
{
    let open = seq![OpView::Open(frame)];
    let close = seq![OpView::Close];
    assert(depth(Seq::<OpView>::empty()) == 0);
    assert(open.drop_last() =~= Seq::<OpView>::empty());
    assert(close.drop_last() =~= Seq::<OpView>::empty());
    assert(depth(open) == 1);
    assert(depth(close) == -1);
    lemma_depth_sum(open, ops);
    lemma_depth_sum(open + ops, close);
    let all = boxed(frame, ops);
    assert forall|n: int| 0 <= n <= all.len() implies depth(#[trigger] all.take(n)) >= 0 by {
        if n == 0 {
            assert(all.take(0) =~= Seq::<OpView>::empty());
        } else if n <= ops.len() + 1 {
            assert(all.take(n) =~= open + ops.take(n - 1));
            lemma_depth_sum(open, ops.take(n - 1));
        } else {
            assert(all.take(n) =~= all);
        }
    }
}

proof fn lemma_cells_balanced(
    cells: Seq<Block>,
    alignments: Seq<ColumnAlign>,
    header: bool,
    n: int,
)
    ensures
        balanced(cells_shown(cells, alignments, header, n)),
    decreases n,
{
    lemma_balanced_none();
    if n > 0 {
        lemma_cells_balanced(cells, alignments, header, n - 1);
        let leaf = OpView::Leaf {
            block: cells[n - 1].id,
            size: TextSize::Note,
            weight: if header {
                TextWeight::Semibold
            } else {
                TextWeight::Normal
            },
        };
        let frame = Frame::TableCell {
            align: column_align(alignments, n - 1),
            menu: cells[n - 1].source_range.start,
        };
        lemma_balanced_one(leaf);
        lemma_balanced_box(frame, seq![leaf]);
        lemma_balanced_sum(
            cells_shown(cells, alignments, header, n - 1),
            boxed(frame, seq![leaf]),
        );
    }
}

proof fn lemma_rows_balanced(rows: Seq<Block>, alignments: Seq<ColumnAlign>, n: int)
    ensures
        balanced(rows_shown(rows, alignments, n)),
    decreases n,
{
    lemma_balanced_none();
    if n > 0 {
        let row = rows[n - 1];
        let cells = cells_shown(
            row.children@,
            alignments,
            is_header(row),
            row.children@.len() as int,
        );
        let frame = Frame::TableRow { header: is_header(row) };
        lemma_rows_balanced(rows, alignments, n - 1);
        lemma_cells_balanced(
            row.children@,
            alignments,
            is_header(row),
            row.children@.len() as int,
        );
        lemma_balanced_box(frame, cells);
        lemma_balanced_sum(rows_shown(rows, alignments, n - 1), boxed(frame, cells));
    }
}

proof fn lemma_nested_balanced(b: Block, size: TextSize, weight: TextWeight)
    ensures
        balanced(nested_shown(b, size, weight)),
    decreases b, 0nat,
{
    lemma_balanced_none();
    lemma_balanced_one(OpView::Leaf { block: b.id, size, weight });
    lemma_all_nested_balanced(b.children@, size, weight);
    lemma_balanced_box(Frame::Group, all_nested(b.children@, size, weight));
}

proof fn lemma_all_nested_balanced(blocks: Seq<Block>, size: TextSize, weight: TextWeight)
    ensures
        balanced(all_nested(blocks, size, weight)),
    decreases blocks, 0nat,
{
    lemma_balanced_none();
    if blocks.len() > 0 {
        lemma_all_nested_balanced(blocks.drop_last(), size, weight);
        lemma_nested_balanced(blocks.last(), size, weight);
        lemma_balanced_sum(
            all_nested(blocks.drop_last(), size, weight),
            nested_shown(blocks.last(), size, weight),
        );
    }
}

proof fn lemma_items_balanced(snap: RenderSnapshot, items: Seq<Block>, start: Option<usize>)
    ensures
        balanced(items_shown(snap, items, start)),
    decreases items, 0nat,
{
    lemma_balanced_none();
    if items.len() > 0 {
        let item = items.last();
        let marker = OpView::Marker {
            item: item.id,
            glyph: glyph_of(item, start, items.len() - 1),
            task: task_of(item) is Some,
        };
        lemma_items_balanced(snap, items.drop_last(), start);
        lemma_shown_balanced(snap, item.children@);
        lemma_balanced_one(marker);
        lemma_balanced_sum(seq![marker], shown(snap, item.children@));
        lemma_balanced_box(Frame::ListRow, seq![marker] + shown(snap, item.children@));
        lemma_balanced_sum(
            items_shown(snap, items.drop_last(), start),
            boxed(Frame::ListRow, seq![marker] + shown(snap, item.children@)),
        );
    }
}

proof fn lemma_definitions_balanced(snap: RenderSnapshot, items: Seq<Block>)
    ensures
        balanced(definitions_shown(snap, items)),
    decreases items, 0nat,
{
    lemma_balanced_none();
    if items.len() > 0 {
        let inner = shown(snap, items.last().children@);
        lemma_definitions_balanced(snap, items.drop_last());
        lemma_shown_balanced(snap, items.last().children@);
        lemma_balanced_box(Frame::DefinitionItem, inner);
        lemma_balanced_sum(
            definitions_shown(snap, items.drop_last()),
            boxed(Frame::DefinitionItem, inner),
        );
    }
}

proof fn lemma_shown_balanced(snap: RenderSnapshot, blocks: Seq<Block>)
    ensures
        balanced(shown(snap, blocks)),
    decreases blocks, 0nat,
{
    lemma_balanced_none();
    if blocks.len() > 0 {
        lemma_shown_balanced(snap, blocks.drop_last());
        boxes_balance(snap, blocks.last());
        lemma_balanced_sum(shown(snap, blocks.drop_last()), block_shown(snap, blocks.last()));
    }
}

/// The instructions of a block close every box that they open, and no other.
pub proof fn boxes_balance(snap: RenderSnapshot, b: Block)
    ensures
        balanced(block_shown(snap, b)),
    decreases b, 0nat,
{
    let inner = shown(snap, b.children@);
    lemma_balanced_none();
    match b.kind {
        BlockKind::Paragraph => {
            lemma_balanced_one(
                OpView::Leaf { block: b.id, size: TextSize::Body, weight: TextWeight::Normal },
            );
        },
        BlockKind::Heading { level, .. } => {
            let leaf = OpView::Leaf {
                block: b.id,
                size: TextSize::Heading(level),
                weight: TextWeight::Bold,
            };
            lemma_balanced_one(leaf);
            lemma_balanced_box(Frame::Heading, seq![leaf]);
        },
        BlockKind::CodeBlock { info, .. } => {
            let chip = OpView::Chip {
                block: b.id,
                label: chip_label(snap, b.id, info@),
                editing: edits_code(snap, b.id),
            };
            let code = OpView::Code { block: b.id };
            lemma_balanced_one(chip);
            lemma_balanced_one(code);
            lemma_balanced_sum(seq![chip], seq![code]);
            assert(seq![chip] + seq![code] =~= seq![chip, code]);
            lemma_balanced_box(Frame::Code, seq![chip, code]);
        },
        BlockKind::BlockQuote => {
            lemma_shown_balanced(snap, b.children@);
            lemma_balanced_box(Frame::Quote, inner);
        },
        BlockKind::Alert { kind, label, tag_range, chrome_range } => {
            let header = alert_header(snap, b, kind, label@, tag_range, chrome_range);
            lemma_shown_balanced(snap, b.children@);
            lemma_balanced_one(header);
            lemma_balanced_sum(seq![header], inner);
            lemma_balanced_box(Frame::Alert { kind }, seq![header] + inner);
        },
        BlockKind::BulletList => {
            lemma_items_balanced(snap, b.children@, None);
            lemma_balanced_box(Frame::List, items_shown(snap, b.children@, None));
        },
        BlockKind::OrderedList { start } => {
            lemma_items_balanced(snap, b.children@, Some(start));
            lemma_balanced_box(Frame::List, items_shown(snap, b.children@, Some(start)));
        },
        BlockKind::ListItem { .. } => {
            lemma_shown_balanced(snap, b.children@);
            lemma_balanced_box(Frame::ListItem, inner);
        },
        BlockKind::Table { alignments } => {
            let n = b.children@.len() as int;
            lemma_rows_balanced(b.children@, alignments@, n);
            lemma_balanced_box(Frame::Table, rows_shown(b.children@, alignments@, n));
        },
        BlockKind::TableRow { .. } => {},
        BlockKind::TableCell => {},
        BlockKind::ThematicBreak => {
            lemma_balanced_one(OpView::Rule);
        },
        BlockKind::FootnoteDefinition { label, superscript } => {
            let mark = OpView::Mark {
                mark: match superscript {
                    Some(s) => s@,
                    None => label@,
                },
            };
            let body = all_nested(b.children@, TextSize::Note, TextWeight::Normal);
            lemma_balanced_one(mark);
            lemma_all_nested_balanced(b.children@, TextSize::Note, TextWeight::Normal);
            lemma_balanced_sum(seq![mark], body);
            lemma_balanced_box(Frame::Footnote, seq![mark] + body);
        },
        BlockKind::DefinitionList => {
            lemma_definitions_balanced(snap, b.children@);
            lemma_balanced_box(Frame::DefinitionList, definitions_shown(snap, b.children@));
        },
        BlockKind::DefinitionItem => {
            lemma_shown_balanced(snap, b.children@);
            lemma_balanced_box(Frame::DefinitionItem, inner);
        },
        BlockKind::DefinitionTerm => {
            lemma_nested_balanced(b, TextSize::Body, TextWeight::Semibold);
        },
        BlockKind::DefinitionDetails => {
            let nested = nested_shown(b, TextSize::Body, TextWeight::Normal);
            lemma_nested_balanced(b, TextSize::Body, TextWeight::Normal);
            lemma_balanced_box(Frame::DefinitionDetails, nested);
        },
        BlockKind::Opaque { .. } => {
            lemma_balanced_one(OpView::Opaque { block: b.id });
        },
    }
}

/// Blocks are shown one after the other, each as it is shown alone: none is
/// dropped, none is shown twice, and none changes place.
pub proof fn blocks_are_shown_in_turn(snap: RenderSnapshot, blocks: Seq<Block>)
    ensures
        shown(snap, blocks) == blocks.map_values(|b: Block| block_shown(snap, b)).flatten(),
    decreases blocks.len(),
{
    let each = |b: Block| block_shown(snap, b);
    if blocks.len() > 0 {
        let front = blocks.drop_last();
        blocks_are_shown_in_turn(snap, front);
        assert(blocks.map_values(each) =~= front.map_values(each).push(each(blocks.last())));
        front.map_values(each).lemma_flatten_push(each(blocks.last()));
    } else {
        assert(blocks.map_values(each) =~= Seq::<Seq<OpView>>::empty());
    }
}

/// A container shows a box of its kind around all that its children show, in
/// their order; an alert shows its header before them.
pub proof fn containers_hold_their_children(snap: RenderSnapshot, b: Block)
    ensures
        ({
            let inner = b.children@.map_values(|c: Block| block_shown(snap, c)).flatten();
            let close = seq![OpView::Close];
            &&& b.kind is BlockQuote ==> block_shown(snap, b) == seq![OpView::Open(Frame::Quote)]
                + inner + close
            &&& b.kind is ListItem ==> block_shown(snap, b) == seq![OpView::Open(Frame::ListItem)]
                + inner + close
            &&& b.kind is DefinitionItem ==> block_shown(snap, b) == seq![
                OpView::Open(Frame::DefinitionItem),
            ] + inner + close
            &&& b.kind matches BlockKind::Alert { kind, label, tag_range, chrome_range }
                ==> block_shown(snap, b) == seq![
                OpView::Open(Frame::Alert { kind }),
                alert_header(snap, b, kind, label@, tag_range, chrome_range),
            ] + inner + close
        }),
{
    blocks_are_shown_in_turn(snap, b.children@);
    let inner = b.children@.map_values(|c: Block| block_shown(snap, c)).flatten();
    if let BlockKind::Alert { kind, label, tag_range, chrome_range } = b.kind {
        let header = alert_header(snap, b, kind, label@, tag_range, chrome_range);
        assert(block_shown(snap, b) =~= seq![OpView::Open(Frame::Alert { kind }), header] + inner
            + seq![OpView::Close]);
    }
}

/// Text blocks show their own text: a paragraph plain, a heading in its size
/// and bold, a code block its chip and its code; a rule shows a rule, and a raw
/// block itself.
pub proof fn text_blocks_show_themselves(snap: RenderSnapshot, b: Block)
    ensures
        b.kind is Paragraph ==> block_shown(snap, b) == seq![
            OpView::Leaf { block: b.id, size: TextSize::Body, weight: TextWeight::Normal },
        ],
        b.kind matches BlockKind::Heading { level, .. } ==> block_shown(snap, b) == seq![
            OpView::Open(Frame::Heading),
            OpView::Leaf {
                block: b.id,
                size: TextSize::Heading(level),
                weight: TextWeight::Bold,
            },
            OpView::Close,
        ],
        b.kind matches BlockKind::CodeBlock { info, .. } ==> block_shown(snap, b) == seq![
            OpView::Open(Frame::Code),
            OpView::Chip {
                block: b.id,
                label: chip_label(snap, b.id, info@),
                editing: edits_code(snap, b.id),
            },
            OpView::Code { block: b.id },
            OpView::Close,
        ],
        b.kind is ThematicBreak ==> block_shown(snap, b) == seq![OpView::Rule],
        b.kind is Opaque ==> block_shown(snap, b) == seq![OpView::Opaque { block: b.id }],
        b.kind is TableRow || b.kind is TableCell ==> block_shown(snap, b).len() == 0,
{
    match b.kind {
        BlockKind::Heading { level, .. } => {
            assert(block_shown(snap, b) =~= seq![
                OpView::Open(Frame::Heading),
                OpView::Leaf {
                    block: b.id,
                    size: TextSize::Heading(level),
                    weight: TextWeight::Bold,
                },
                OpView::Close,
            ]);
        },
        BlockKind::CodeBlock { info, .. } => {
            assert(block_shown(snap, b) =~= seq![
                OpView::Open(Frame::Code),
                OpView::Chip {
                    block: b.id,
                    label: chip_label(snap, b.id, info@),
                    editing: edits_code(snap, b.id),
                },
                OpView::Code { block: b.id },
                OpView::Close,
            ]);
        },
        _ => {},
    }
}

/// Row `i` of a list: a box with the marker of the item and all that its
/// children show.
pub open spec fn list_row(snap: RenderSnapshot, items: Seq<Block>, start: Option<usize>, i: int) -> Seq<
    OpView,
> {
    seq![
        OpView::Open(Frame::ListRow),
        OpView::Marker {
            item: items[i].id,
            glyph: glyph_of(items[i], start, i),
            task: items[i].kind matches BlockKind::ListItem { task } && task is Some,
        },
    ] + items[i].children@.map_values(|c: Block| block_shown(snap, c)).flatten() + seq![
        OpView::Close,
    ]
}

proof fn lemma_items_in_turn(snap: RenderSnapshot, items: Seq<Block>, start: Option<usize>)
    ensures
        items_shown(snap, items, start) == Seq::new(
            items.len(),
            |i: int| list_row(snap, items, start, i),
        ).flatten(),
    decreases items.len(),
{
    let rows = Seq::new(items.len(), |i: int| list_row(snap, items, start, i));
    if items.len() > 0 {
        let front = items.drop_last();
        let item = items.last();
        lemma_items_in_turn(snap, front, start);
        let before = Seq::new(front.len(), |i: int| list_row(snap, front, start, i));
        let last = list_row(snap, items, start, items.len() - 1);
        assert(rows =~= before.push(last));
        before.lemma_flatten_push(last);
        blocks_are_shown_in_turn(snap, item.children@);
        assert(last =~= boxed(
            Frame::ListRow,
            seq![
                OpView::Marker {
                    item: item.id,
                    glyph: glyph_of(item, start, items.len() - 1),
                    task: task_of(item) is Some,
                },
            ] + shown(snap, item.children@),
        ));
    } else {
        assert(rows =~= Seq::<Seq<OpView>>::empty());
    }
}

/// A list shows one row per item, in order: its marker and all that its
/// children show.
pub proof fn lists_show_every_item(snap: RenderSnapshot, b: Block)
    ensures
        ({
            let items = b.children@;
            let start = match b.kind {
                BlockKind::OrderedList { start } => Some(start),
                _ => None,
            };
            b.kind is BulletList || b.kind is OrderedList ==> block_shown(snap, b) == seq![
                OpView::Open(Frame::List),
            ] + Seq::new(items.len(), |i: int| list_row(snap, items, start, i)).flatten() + seq![
                OpView::Close,
            ]
        }),
{
    match b.kind {
        BlockKind::OrderedList { start } => lemma_items_in_turn(snap, b.children@, Some(start)),
        _ => lemma_items_in_turn(snap, b.children@, None),
    }
}

/// The marker of a list item: a check box that is ticked where the task is
/// done, else its number and a dot in an ordered list, else a bullet.
pub proof fn markers_tell_the_item(item: Block, start: Option<usize>, i: int)
    ensures
        item.kind == (BlockKind::ListItem { task: Some(true) }) ==> glyph_of(item, start, i)
            == "☑"@,
        item.kind == (BlockKind::ListItem { task: Some(false) }) ==> glyph_of(item, start, i)
            == "☐"@,
        item.kind == (BlockKind::ListItem { task: None }) && start is None ==> glyph_of(
            item,
            start,
            i,
        ) == "•"@,
        item.kind == (BlockKind::ListItem { task: None }) && start is Some && 0 <= i && start->0
            + i <= usize::MAX ==> glyph_of(item, start, i) == hex::decimal_text(start->0 + i)
            + "."@,
{
}

/// Cell `c` of a row: its text in a box, aligned as its column and semibold in
/// a header.
pub open spec fn table_cell(
    cells: Seq<Block>,
    alignments: Seq<ColumnAlign>,
    header: bool,
    c: int,
) -> Seq<OpView> {
    seq![
        OpView::Open(
            Frame::TableCell {
                align: if c < alignments.len() {
                    alignments[c]
                } else {
                    ColumnAlign::Unset
                },
                menu: cells[c].source_range.start,
            },
        ),
        OpView::Leaf {
            block: cells[c].id,
            size: TextSize::Note,
            weight: if header {
                TextWeight::Semibold
            } else {
                TextWeight::Normal
            },
        },
        OpView::Close,
    ]
}

proof fn lemma_cells_in_turn(
    cells: Seq<Block>,
    alignments: Seq<ColumnAlign>,
    header: bool,
    n: int,
)
    requires
        0 <= n <= cells.len(),
    ensures
        cells_shown(cells, alignments, header, n) == Seq::new(
            n as nat,
            |c: int| table_cell(cells, alignments, header, c),
        ).flatten(),
    decreases n,
{
    let all = Seq::new(n as nat, |c: int| table_cell(cells, alignments, header, c));
    if n > 0 {
        lemma_cells_in_turn(cells, alignments, header, n - 1);
        let before = Seq::new(
            (n - 1) as nat,
            |c: int| table_cell(cells, alignments, header, c),
        );
        let last = table_cell(cells, alignments, header, n - 1);
        assert(all =~= before.push(last));
        before.lemma_flatten_push(last);
        assert(cells_shown(cells, alignments, header, n) =~= cells_shown(
            cells,
            alignments,
            header,
            n - 1,
        ) + last);
    } else {
        assert(all =~= Seq::<Seq<OpView>>::empty());
    }
}

/// Row `r` of a table: all its cells in a box.
pub open spec fn table_row(rows: Seq<Block>, alignments: Seq<ColumnAlign>, r: int) -> Seq<OpView> {
    let header = rows[r].kind == (BlockKind::TableRow { header: true });
    let cells = rows[r].children@;
    seq![OpView::Open(Frame::TableRow { header })] + Seq::new(
        cells.len(),
        |c: int| table_cell(cells, alignments, header, c),
    ).flatten() + seq![OpView::Close]
}

proof fn lemma_rows_in_turn(rows: Seq<Block>, alignments: Seq<ColumnAlign>, n: int)
    requires
        0 <= n <= rows.len(),
    ensures
        rows_shown(rows, alignments, n) == Seq::new(
            n as nat,
            |r: int| table_row(rows, alignments, r),
        ).flatten(),
    decreases n,
{
    let all = Seq::new(n as nat, |r: int| table_row(rows, alignments, r));
    if n > 0 {
        lemma_rows_in_turn(rows, alignments, n - 1);
        let before = Seq::new((n - 1) as nat, |r: int| table_row(rows, alignments, r));
        let last = table_row(rows, alignments, n - 1);
        let cells = rows[n - 1].children@;
        lemma_cells_in_turn(cells, alignments, is_header(rows[n - 1]), cells.len() as int);
        assert(all =~= before.push(last));
        before.lemma_flatten_push(last);
    } else {
        assert(all =~= Seq::<Seq<OpView>>::empty());
    }
}

/// A table shows every cell of every row, row by row.
pub proof fn tables_show_every_cell(snap: RenderSnapshot, b: Block)
    ensures
        b.kind matches BlockKind::Table { alignments } ==> block_shown(snap, b) == seq![
            OpView::Open(Frame::Table),
        ] + Seq::new(
            b.children@.len(),
            |r: int| table_row(b.children@, alignments@, r),
        ).flatten() + seq![OpView::Close],
{
    if let BlockKind::Table { alignments } = b.kind {
        lemma_rows_in_turn(b.children@, alignments@, b.children@.len() as int);
    }
}

proof fn lemma_nested_in_turn(blocks: Seq<Block>, size: TextSize, weight: TextWeight)
    ensures
        all_nested(blocks, size, weight) == blocks.map_values(
            |c: Block| nested_shown(c, size, weight),
        ).flatten(),
    decreases blocks.len(),
{
    let each = |c: Block| nested_shown(c, size, weight);
    if blocks.len() > 0 {
        let front = blocks.drop_last();
        lemma_nested_in_turn(front, size, weight);
        assert(blocks.map_values(each) =~= front.map_values(each).push(each(blocks.last())));
        front.map_values(each).lemma_flatten_push(each(blocks.last()));
    } else {
        assert(blocks.map_values(each) =~= Seq::<Seq<OpView>>::empty());
    }
}

/// Text in a container that styles it: the block's own where it is a paragraph
/// or has inlines, else that of all its children, grouped.
pub proof fn nested_text_is_found(b: Block, size: TextSize, weight: TextWeight)
    ensures
        b.kind is Paragraph || b.inlines@.len() > 0 ==> nested_shown(b, size, weight) == seq![
            OpView::Leaf { block: b.id, size, weight },
        ],
        !(b.kind is Paragraph) && b.inlines@.len() == 0 && b.children@.len() > 0 ==> nested_shown(
            b,
            size,
            weight,
        ) == seq![OpView::Open(Frame::Group)] + b.children@.map_values(
            |c: Block| nested_shown(c, size, weight),
        ).flatten() + seq![OpView::Close],
{
    lemma_nested_in_turn(b.children@, size, weight);
}

proof fn lemma_definitions_in_turn(snap: RenderSnapshot, items: Seq<Block>)
    ensures
        definitions_shown(snap, items) == items.map_values(
            |item: Block|
                seq![OpView::Open(Frame::DefinitionItem)] + item.children@.map_values(
                    |c: Block| block_shown(snap, c),
                ).flatten() + seq![OpView::Close],
        ).flatten(),
    decreases items.len(),
{
    let each = |item: Block|
        seq![OpView::Open(Frame::DefinitionItem)] + item.children@.map_values(
            |c: Block| block_shown(snap, c),
        ).flatten() + seq![OpView::Close];
    if items.len() > 0 {
        let front = items.drop_last();
        lemma_definitions_in_turn(snap, front);
        blocks_are_shown_in_turn(snap, items.last().children@);
        assert(items.map_values(each) =~= front.map_values(each).push(each(items.last())));
        front.map_values(each).lemma_flatten_push(each(items.last()));
    } else {
        assert(items.map_values(each) =~= Seq::<Seq<OpView>>::empty());
    }
}

/// Notes and definitions: a footnote shows its mark, in superscripts where it
/// has some, and the text of all its children; a definition list all that its
/// items hold, each in a box; a term is semibold and its details are not.
pub proof fn notes_and_definitions_show_their_text(snap: RenderSnapshot, b: Block)
    ensures
        b.kind matches BlockKind::FootnoteDefinition { label, superscript } ==> block_shown(snap, b)
            == seq![
            OpView::Open(Frame::Footnote),
            OpView::Mark {
                mark: if superscript is Some {
                    superscript->0@
                } else {
                    label@
                },
            },
        ] + b.children@.map_values(
            |c: Block| nested_shown(c, TextSize::Note, TextWeight::Normal),
        ).flatten() + seq![OpView::Close],
        b.kind is DefinitionList ==> block_shown(snap, b) == seq![
            OpView::Open(Frame::DefinitionList),
        ] + b.children@.map_values(
            |item: Block|
                seq![OpView::Open(Frame::DefinitionItem)] + item.children@.map_values(
                    |c: Block| block_shown(snap, c),
                ).flatten() + seq![OpView::Close],
        ).flatten() + seq![OpView::Close],
        b.kind is DefinitionTerm ==> block_shown(snap, b) == nested_shown(
            b,
            TextSize::Body,
            TextWeight::Semibold,
        ),
        b.kind is DefinitionDetails ==> block_shown(snap, b) == seq![
            OpView::Open(Frame::DefinitionDetails),
        ] + nested_shown(b, TextSize::Body, TextWeight::Normal) + seq![OpView::Close],
{
    lemma_definitions_in_turn(snap, b.children@);
    lemma_nested_in_turn(b.children@, TextSize::Note, TextWeight::Normal);
    if let BlockKind::FootnoteDefinition { label, superscript } = b.kind {
        let mark = OpView::Mark {
            mark: if superscript is Some {
                superscript->0@
            } else {
                label@
            },
        };
        let body = all_nested(b.children@, TextSize::Note, TextWeight::Normal);
        assert(block_shown(snap, b) =~= seq![OpView::Open(Frame::Footnote), mark] + body + seq![
            OpView::Close,
        ]);
    }
}

/// The header of an alert: its tag as source exactly while the caret or the
/// selection meets a tag that is there; else its label, where a click leads to
/// the tag, or to the block where it has none.
pub proof fn alert_headers(
    snap: RenderSnapshot,
    b: Block,
    kind: AlertKind,
    label: Seq<char>,
    tag: Range<usize>,
    chrome: Range<usize>,
)
    ensures
        ({
            let op = alert_header(snap, b, kind, label, tag, chrome);
            let caret_in = chrome.start <= snap.caret <= chrome.end;
            let sel = snap.selected_range;
            let sel_in = sel.start < sel.end && sel.start < chrome.end && chrome.start < sel.end;
            &&& op is AlertTag <==> chrome.start < chrome.end && (caret_in || sel_in)
            &&& op is AlertTag ==> op == (OpView::AlertTag { kind, range: chrome })
            &&& !(op is AlertTag) ==> op == (OpView::AlertLabel {
                block: b.id,
                kind,
                label,
                caret: if tag.start < tag.end {
                    tag.start
                } else {
                    b.source_range.start
                },
            })
        }),
{
}

proof fn lemma_word_end(s: Seq<char>, i: int)
    requires
        0 <= i <= s.len(),
    ensures
        i <= word_end(s, i) <= s.len(),
        forall|j: int| i <= j < word_end(s, i) ==> !text::is_space(#[trigger] s[j]),
        word_end(s, i) < s.len() ==> text::is_space(s[word_end(s, i)]),
    decreases s.len() - i,
{
    if i < s.len() && !text::is_space(s[i]) {
        lemma_word_end(s, i + 1);
    }
}

/// The language of a code block is the first word of its info: it starts what
/// is left without the space around, holds no white space, and ends at white
/// space or with the text.
pub proof fn language_is_the_first_word(info: Seq<char>)
    ensures
        ({
            let t = text::trimmed(info);
            let w = first_word(info);
            &&& w.len() <= t.len() && w == t.take(w.len() as int)
            &&& forall|j: int| 0 <= j < w.len() ==> !text::is_space(#[trigger] w[j])
            &&& w.len() < t.len() ==> text::is_space(t[w.len() as int])
        }),
{
    lemma_word_end(text::trimmed(info), 0);
}

/// The chip of a code block shows its language, or `plain` where it has none;
/// while its language is edited, the draft, the text under composition and a
/// bar. Only the block that is edited shows the draft.
pub proof fn chips_show_the_language(
    snap: RenderSnapshot,
    id: NodeId,
    info: Seq<char>,
    edited: NodeId,
    draft: String,
)
    ensures
        snap.editing_code is None ==> !edits_code(snap, id),
        snap.editing_code == Some((edited, draft)) ==> (edits_code(snap, id) <==> edited == id),
        !edits_code(snap, id) && first_word(info).len() > 0 ==> chip_label(snap, id, info)
            == first_word(info),
        !edits_code(snap, id) && first_word(info).len() == 0 ==> chip_label(snap, id, info)
            == "plain"@,
        snap.editing_code == Some((id, draft)) && snap.widget_preedit is None ==> chip_label(
            snap,
            id,
            info,
        ) == draft@ + "|"@,
        snap.editing_code == Some((id, draft)) && snap.widget_preedit is Some ==> chip_label(
            snap,
            id,
            info,
        ) == draft@ + snap.widget_preedit->0@ + "|"@,
{
    assert(draft@ + Seq::<char>::empty() =~= draft@);
}

/// The blocks whose text `ops` show, in order.
pub open spec fn texts_of(ops: Seq<OpView>) -> Seq<NodeId>
    decreases ops.len(),
{
    if ops.len() == 0 {
        Seq::empty()
    } else {
        let before = texts_of(ops.drop_last());
        match ops.last() {
            OpView::Leaf { block, .. } => before.push(block),
            OpView::Code { block } => before.push(block),
            OpView::Opaque { block } => before.push(block),
            _ => before,
        }
    }
}

/// Blocks in document order, without what notes and terms style themselves:
/// text blocks as themselves, cells of tables, and of containers what they
/// hold.
pub open spec fn texts_in(b: Block) -> Seq<NodeId>
    decreases b, 0nat,
{
    match b.kind {
        BlockKind::Paragraph => seq![b.id],
        BlockKind::Heading { .. } => seq![b.id],
        BlockKind::CodeBlock { .. } => seq![b.id],
        BlockKind::Opaque { .. } => seq![b.id],
        BlockKind::BlockQuote => all_texts_in(b.children@),
        BlockKind::Alert { .. } => all_texts_in(b.children@),
        BlockKind::ListItem { .. } => all_texts_in(b.children@),
        BlockKind::DefinitionItem => all_texts_in(b.children@),
        BlockKind::BulletList => texts_below(b.children@),
        BlockKind::OrderedList { .. } => texts_below(b.children@),
        BlockKind::DefinitionList => texts_below(b.children@),
        BlockKind::Table { .. } => cells_below(b.children@),
        BlockKind::FootnoteDefinition { .. } => all_styled_in(b.children@),
        BlockKind::DefinitionTerm => styled_in(b),
        BlockKind::DefinitionDetails => styled_in(b),
        _ => Seq::empty(),
    }
}

/// Text blocks of `blocks`, in document order.
pub open spec fn all_texts_in(blocks: Seq<Block>) -> Seq<NodeId>
    decreases blocks, 0nat,
{
    if blocks.len() == 0 {
        Seq::empty()
    } else {
        all_texts_in(blocks.drop_last()) + texts_in(blocks.last())
    }
}

/// Text blocks of what `items` hold, in document order.
pub open spec fn texts_below(items: Seq<Block>) -> Seq<NodeId>
    decreases items, 0nat,
{
    if items.len() == 0 {
        Seq::empty()
    } else {
        texts_below(items.drop_last()) + all_texts_in(items.last().children@)
    }
}

/// Cells of `rows`, in document order.
pub open spec fn cells_below(rows: Seq<Block>) -> Seq<NodeId>
    decreases rows.len(),
{
    if rows.len() == 0 {
        Seq::empty()
    } else {
        cells_below(rows.drop_last()) + rows.last().children@.map_values(|c: Block| c.id)
    }
}

/// Text of a note or a term: the block itself where it is a paragraph or has
/// inlines, else the text of what it holds.
pub open spec fn styled_in(b: Block) -> Seq<NodeId>
    decreases b, 0nat,
{
    if b.kind is Paragraph || b.inlines@.len() > 0 {
        seq![b.id]
    } else {
        all_styled_in(b.children@)
    }
}

/// Text of notes and terms.
pub open spec fn all_styled_in(blocks: Seq<Block>) -> Seq<NodeId>
    decreases blocks, 0nat,
{
    if blocks.len() == 0 {
        Seq::empty()
    } else {
        all_styled_in(blocks.drop_last()) + styled_in(blocks.last())
    }
}

proof fn lemma_texts_sum(a: Seq<OpView>, b: Seq<OpView>)
    ensures
        texts_of(a + b) == texts_of(a) + texts_of(b),
    decreases b.len(),
{
    if b.len() == 0 {
        assert(a + b =~= a);
        assert(texts_of(a) + texts_of(b) =~= texts_of(a));
    } else {
        assert((a + b).drop_last() =~= a + b.drop_last());
        lemma_texts_sum(a, b.drop_last());
        let before = texts_of(b.drop_last());
        assert(texts_of(a + b) =~= texts_of(a) + texts_of(b));
    }
}

proof fn lemma_texts_one(op: OpView)
    ensures
        texts_of(seq![op]) == match op {
            OpView::Leaf { block, .. } => seq![block],
            OpView::Code { block } => seq![block],
            OpView::Opaque { block } => seq![block],
            _ => Seq::<NodeId>::empty(),
        },
{
    assert(seq![op].drop_last() =~= Seq::<OpView>::empty());
    assert(texts_of(Seq::<OpView>::empty()) =~= Seq::<NodeId>::empty());
    reveal_with_fuel(texts_of, 2);
    assert(texts_of(seq![op]) =~= match op {
        OpView::Leaf { block, .. } => seq![block],
        OpView::Code { block } => seq![block],
        OpView::Opaque { block } => seq![block],
        _ => Seq::<NodeId>::empty(),
    });
}

proof fn lemma_texts_box(frame: Frame, ops: Seq<OpView>)
    ensures
        texts_of(boxed(frame, ops)) == texts_of(ops),
{
    let open = seq![OpView::Open(frame)];
    let close = seq![OpView::Close];
    lemma_texts_one(OpView::Open(frame));
    lemma_texts_one(OpView::Close);
    lemma_texts_sum(open, ops);
    lemma_texts_sum(open + ops, close);
    assert(texts_of(boxed(frame, ops)) =~= texts_of(ops));
}

proof fn lemma_texts_first(op: OpView, ops: Seq<OpView>)
    requires
        texts_of(seq![op]).len() == 0,
    ensures
        texts_of(seq![op] + ops) == texts_of(ops),
{
    lemma_texts_sum(seq![op], ops);
    assert(texts_of(seq![op] + ops) =~= texts_of(ops));
}

proof fn lemma_texts_shown(snap: RenderSnapshot, blocks: Seq<Block>)
    ensures
        texts_of(shown(snap, blocks)) == all_texts_in(blocks),
    decreases blocks, 0nat,
{
    if blocks.len() > 0 {
        lemma_texts_shown(snap, blocks.drop_last());
        every_text_is_shown_once(snap, blocks.last());
        lemma_texts_sum(shown(snap, blocks.drop_last()), block_shown(snap, blocks.last()));
    }
}

proof fn lemma_texts_items(snap: RenderSnapshot, items: Seq<Block>, start: Option<usize>)
    ensures
        texts_of(items_shown(snap, items, start)) == texts_below(items),
    decreases items, 0nat,
{
    if items.len() > 0 {
        let item = items.last();
        let marker = OpView::Marker {
            item: item.id,
            glyph: glyph_of(item, start, items.len() - 1),
            task: task_of(item) is Some,
        };
        let inner = shown(snap, item.children@);
        lemma_texts_items(snap, items.drop_last(), start);
        lemma_texts_shown(snap, item.children@);
        lemma_texts_one(marker);
        lemma_texts_first(marker, inner);
        lemma_texts_box(Frame::ListRow, seq![marker] + inner);
        lemma_texts_sum(
            items_shown(snap, items.drop_last(), start),
            boxed(Frame::ListRow, seq![marker] + inner),
        );
    }
}

proof fn lemma_texts_definitions(snap: RenderSnapshot, items: Seq<Block>)
    ensures
        texts_of(definitions_shown(snap, items)) == texts_below(items),
    decreases items, 0nat,
{
    if items.len() > 0 {
        let inner = shown(snap, items.last().children@);
        lemma_texts_definitions(snap, items.drop_last());
        lemma_texts_shown(snap, items.last().children@);
        lemma_texts_box(Frame::DefinitionItem, inner);
        lemma_texts_sum(
            definitions_shown(snap, items.drop_last()),
            boxed(Frame::DefinitionItem, inner),
        );
    }
}

proof fn lemma_texts_cells(
    cells: Seq<Block>,
    alignments: Seq<ColumnAlign>,
    header: bool,
    n: int,
)
    requires
        0 <= n <= cells.len(),
    ensures
        texts_of(cells_shown(cells, alignments, header, n)) == cells.take(n).map_values(
            |c: Block| c.id,
        ),
    decreases n,
{
    let ids = |c: Block| c.id;
    if n > 0 {
        lemma_texts_cells(cells, alignments, header, n - 1);
        let leaf = OpView::Leaf {
            block: cells[n - 1].id,
            size: TextSize::Note,
            weight: if header {
                TextWeight::Semibold
            } else {
                TextWeight::Normal
            },
        };
        let frame = Frame::TableCell {
            align: column_align(alignments, n - 1),
            menu: cells[n - 1].source_range.start,
        };
        lemma_texts_one(leaf);
        lemma_texts_box(frame, seq![leaf]);
        lemma_texts_sum(
            cells_shown(cells, alignments, header, n - 1),
            boxed(frame, seq![leaf]),
        );
        assert(cells.take(n).map_values(ids) =~= cells.take(n - 1).map_values(ids) + seq![
            cells[n - 1].id,
        ]);
    } else {
        assert(cells.take(0).map_values(ids) =~= Seq::<NodeId>::empty());
    }
}

proof fn lemma_texts_rows(rows: Seq<Block>, alignments: Seq<ColumnAlign>, n: int)
    requires
        0 <= n <= rows.len(),
    ensures
        texts_of(rows_shown(rows, alignments, n)) == cells_below(rows.take(n)),
    decreases n,
{
    if n > 0 {
        let row = rows[n - 1];
        let m = row.children@.len() as int;
        let cells = cells_shown(row.children@, alignments, is_header(row), m);
        let frame = Frame::TableRow { header: is_header(row) };
        lemma_texts_rows(rows, alignments, n - 1);
        lemma_texts_cells(row.children@, alignments, is_header(row), m);
        assert(row.children@.take(m) =~= row.children@);
        lemma_texts_box(frame, cells);
        lemma_texts_sum(rows_shown(rows, alignments, n - 1), boxed(frame, cells));
        assert(rows.take(n).drop_last() =~= rows.take(n - 1));
    } else {
        assert(cells_below(rows.take(0)) =~= Seq::<NodeId>::empty());
    }
}

proof fn lemma_texts_nested(b: Block, size: TextSize, weight: TextWeight)
    ensures
        texts_of(nested_shown(b, size, weight)) == styled_in(b),
    decreases b, 0nat,
{
    lemma_texts_one(OpView::Leaf { block: b.id, size, weight });
    lemma_texts_all_nested(b.children@, size, weight);
    lemma_texts_box(Frame::Group, all_nested(b.children@, size, weight));
}

proof fn lemma_texts_all_nested(blocks: Seq<Block>, size: TextSize, weight: TextWeight)
    ensures
        texts_of(all_nested(blocks, size, weight)) == all_styled_in(blocks),
    decreases blocks, 0nat,
{
    if blocks.len() > 0 {
        lemma_texts_all_nested(blocks.drop_last(), size, weight);
        lemma_texts_nested(blocks.last(), size, weight);
        lemma_texts_sum(
            all_nested(blocks.drop_last(), size, weight),
            nested_shown(blocks.last(), size, weight),
        );
    }
}

/// Nothing of a document is dropped: the text of every block stands in the
/// instructions once, in document order.
pub proof fn every_text_is_shown_once(snap: RenderSnapshot, b: Block)
    ensures
        texts_of(block_shown(snap, b)) == texts_in(b),
    decreases b, 0nat,
{
    let inner = shown(snap, b.children@);
    match b.kind {
        BlockKind::Paragraph => {
            lemma_texts_one(
                OpView::Leaf { block: b.id, size: TextSize::Body, weight: TextWeight::Normal },
            );
        },
        BlockKind::Heading { level, .. } => {
            let leaf = OpView::Leaf {
                block: b.id,
                size: TextSize::Heading(level),
                weight: TextWeight::Bold,
            };
            lemma_texts_one(leaf);
            lemma_texts_box(Frame::Heading, seq![leaf]);
        },
        BlockKind::CodeBlock { info, .. } => {
            let chip = OpView::Chip {
                block: b.id,
                label: chip_label(snap, b.id, info@),
                editing: edits_code(snap, b.id),
            };
            let code = OpView::Code { block: b.id };
            lemma_texts_one(chip);
            lemma_texts_one(code);
            lemma_texts_first(chip, seq![code]);
            assert(seq![chip] + seq![code] =~= seq![chip, code]);
            lemma_texts_box(Frame::Code, seq![chip, code]);
        },
        BlockKind::BlockQuote => {
            lemma_texts_shown(snap, b.children@);
            lemma_texts_box(Frame::Quote, inner);
        },
        BlockKind::Alert { kind, label, tag_range, chrome_range } => {
            let header = alert_header(snap, b, kind, label@, tag_range, chrome_range);
            lemma_texts_shown(snap, b.children@);
            lemma_texts_one(header);
            lemma_texts_first(header, inner);
            lemma_texts_box(Frame::Alert { kind }, seq![header] + inner);
        },
        BlockKind::BulletList => {
            lemma_texts_items(snap, b.children@, None);
            lemma_texts_box(Frame::List, items_shown(snap, b.children@, None));
        },
        BlockKind::OrderedList { start } => {
            lemma_texts_items(snap, b.children@, Some(start));
            lemma_texts_box(Frame::List, items_shown(snap, b.children@, Some(start)));
        },
        BlockKind::ListItem { .. } => {
            lemma_texts_shown(snap, b.children@);
            lemma_texts_box(Frame::ListItem, inner);
        },
        BlockKind::Table { alignments } => {
            let n = b.children@.len() as int;
            lemma_texts_rows(b.children@, alignments@, n);
            assert(b.children@.take(n) =~= b.children@);
            lemma_texts_box(Frame::Table, rows_shown(b.children@, alignments@, n));
        },
        BlockKind::TableRow { .. } => {},
        BlockKind::TableCell => {},
        BlockKind::ThematicBreak => {
            lemma_texts_one(OpView::Rule);
        },
        BlockKind::FootnoteDefinition { label, superscript } => {
            let mark = OpView::Mark {
                mark: match superscript {
                    Some(s) => s@,
                    None => label@,
                },
            };
            let body = all_nested(b.children@, TextSize::Note, TextWeight::Normal);
            lemma_texts_all_nested(b.children@, TextSize::Note, TextWeight::Normal);
            lemma_texts_one(mark);
            lemma_texts_first(mark, body);
            lemma_texts_box(Frame::Footnote, seq![mark] + body);
        },
        BlockKind::DefinitionList => {
            lemma_texts_definitions(snap, b.children@);
            lemma_texts_box(Frame::DefinitionList, definitions_shown(snap, b.children@));
        },
        BlockKind::DefinitionItem => {
            lemma_texts_shown(snap, b.children@);
            lemma_texts_box(Frame::DefinitionItem, inner);
        },
        BlockKind::DefinitionTerm => {
            lemma_texts_nested(b, TextSize::Body, TextWeight::Semibold);
        },
        BlockKind::DefinitionDetails => {
            let nested = nested_shown(b, TextSize::Body, TextWeight::Normal);
            lemma_texts_nested(b, TextSize::Body, TextWeight::Normal);
            lemma_texts_box(Frame::DefinitionDetails, nested);
        },
        BlockKind::Opaque { .. } => {
            lemma_texts_one(OpView::Opaque { block: b.id });
        },
    }
}

/// What a raw block shows: a footnote its mark and body, a definition list a
/// term and its details per item, an image, a rule or its flowing text; nothing
/// where it is hidden.
pub proof fn raw_blocks_show_what_they_are(block: NodeId, visual: OpaqueVisual, i: int)
    ensures
        visual is Hidden ==> opaque_shown(block, visual).len() == 0,
        visual is Rule ==> opaque_shown(block, visual) == seq![OpView::Rule],
        visual is Flow ==> opaque_shown(block, visual) == seq![OpView::Flow { block }],
        visual matches OpaqueVisual::Image { url, alt } ==> opaque_shown(block, visual) == seq![
            OpView::Image { block, url: url@, alt: alt@ },
        ],
        visual matches OpaqueVisual::Footnote { label, superscript, body } ==> opaque_shown(
            block,
            visual,
        ) == seq![
            OpView::Open(Frame::Footnote),
            OpView::Mark {
                mark: if superscript is Some {
                    superscript->0@
                } else {
                    label@
                },
            },
            OpView::Text { text: body@, size: TextSize::Note, weight: TextWeight::Normal },
            OpView::Close,
        ],
        visual matches OpaqueVisual::Definitions { items } ==> {
            let ops = opaque_shown(block, visual);
            &&& ops.len() == 6 * items@.len() + 2
            &&& ops[0] == OpView::Open(Frame::DefinitionList) && ops.last() == OpView::Close
            &&& 0 <= i < items@.len() ==> ops.subrange(6 * i + 1, 6 * i + 7) == seq![
                OpView::Open(Frame::DefinitionItem),
                OpView::Text {
                    text: items@[i].0@,
                    size: TextSize::Body,
                    weight: TextWeight::Semibold,
                },
                OpView::Open(Frame::DefinitionDetails),
                OpView::Text {
                    text: items@[i].1@,
                    size: TextSize::Body,
                    weight: TextWeight::Normal,
                },
                OpView::Close,
                OpView::Close,
            ]
        },
{
    match visual {
        OpaqueVisual::Footnote { label, superscript, body } => {
            assert(opaque_shown(block, visual) =~= seq![
                OpView::Open(Frame::Footnote),
                OpView::Mark {
                    mark: if superscript is Some {
                        superscript->0@
                    } else {
                        label@
                    },
                },
                OpView::Text { text: body@, size: TextSize::Note, weight: TextWeight::Normal },
                OpView::Close,
            ]);
        },
        OpaqueVisual::Definitions { items } => {
            let n = items@.len() as int;
            let ops = opaque_shown(block, visual);
            lemma_raw_definitions(items@, n, i);
            if 0 <= i < n {
                assert(ops.subrange(6 * i + 1, 6 * i + 7) =~= raw_definitions(items@, n).subrange(
                    6 * i,
                    6 * i + 6,
                ));
            }
        },
        _ => {},
    }
}

proof fn lemma_raw_definitions(items: Seq<(String, String)>, n: int, i: int)
    requires
        0 <= n <= items.len(),
    ensures
        raw_definitions(items, n).len() == 6 * n,
        0 <= i < n ==> raw_definitions(items, n).subrange(6 * i, 6 * i + 6) == seq![
            OpView::Open(Frame::DefinitionItem),
            OpView::Text {
                text: items[i].0@,
                size: TextSize::Body,
                weight: TextWeight::Semibold,
            },
            OpView::Open(Frame::DefinitionDetails),
            OpView::Text {
                text: items[i].1@,
                size: TextSize::Body,
                weight: TextWeight::Normal,
            },
            OpView::Close,
            OpView::Close,
        ],
    decreases n,
{
    if n > 0 {
        lemma_raw_definitions(items, n - 1, i);
        let before = raw_definitions(items, n - 1);
        let all = raw_definitions(items, n);
        if 0 <= i < n - 1 {
            assert(all.subrange(6 * i, 6 * i + 6) =~= before.subrange(6 * i, 6 * i + 6));
        } else if i == n - 1 {
            assert(all.subrange(6 * i, 6 * i + 6) =~= seq![
                OpView::Open(Frame::DefinitionItem),
                OpView::Text {
                    text: items[i].0@,
                    size: TextSize::Body,
                    weight: TextWeight::Semibold,
                },
                OpView::Open(Frame::DefinitionDetails),
                OpView::Text {
                    text: items[i].1@,
                    size: TextSize::Body,
                    weight: TextWeight::Normal,
                },
                OpView::Close,
                OpView::Close,
            ]);
        }
    }
}

/// Each top-level block shows what it is, and past the end nothing is shown.
pub proof fn top_blocks_show_themselves(snap: RenderSnapshot, index: usize)
    ensures
        index < snap.tree.blocks@.len() ==> top_shown(snap, index) == block_shown(
            snap,
            snap.tree.blocks@[index as int],
        ),
        index >= snap.tree.blocks@.len() ==> top_shown(snap, index).len() == 0,
{
}

/// A raw block is a footnote before it is a definition list, and that before it
/// is HTML; HTML is what it projects to.
pub proof fn raw_blocks_read_as_markdown_first(
    f: RawFootnote,
    items: Vec<(String, String)>,
    definitions: Option<Vec<(String, String)>>,
    projected: HtmlBlockVisual,
)
    ensures
        ({
            let v = raw_visual(Some(f), definitions, projected);
            v is Footnote && v->label == f.label && v->superscript == f.superscript && v->body
                == f.body
        }),
        ({
            let v = raw_visual(None, Some(items), projected);
            v is Definitions && v->items == items
        }),
        ({
            let v = raw_visual(None, None, projected);
            &&& projected is Hidden <==> v is Hidden
            &&& projected is ThematicBreak <==> v is Rule
            &&& projected is Flow <==> v is Flow
            &&& projected is Image ==> v is Image && v->url == projected->url && v->alt
                == projected->alt
        }),
{
}

} // verus!
