//! Layouts of HTML blocks: projected text with inner Markdown, hidden blocks
//! and the wrapper tags that the caret reveals.

use std::ops::Range;

use vstd::prelude::*;
use vstd::string::*;
use vstd::utf8::*;

use crate::block_layout;
use crate::block_layout::{build_thematic_break_layout, empty_layout, fit};
use crate::caret::{ChromeHosts, RevealState};
use crate::layout;
use crate::layout::{
    append_source_slice, prepend_source_slice, range_len, LeafLayout, LeafView, TextRun,
};
use crate::leaf::{build_leaf_layout_inlines, LeafInput};
use crate::style::{
    plain_run, style_run, wiki_delim_run, CssColor, HtmlPaint, HtmlPaintView, MarkFidelity,
    MarkSet, RunBackground, RunColor, RunStyle, TextStyle,
};
use crate::text;
use crate::text::{at_boundary, byte_len, get, own, slice};
use crate::visual::runs_cover;
use crate::walk;
use crate::walk::inlines_from_inner_markdown;
use crate::tree::{
    Block, BlockFacts, BlockKind, HtmlBlockFacts, HtmlBlockVisual, HtmlPaintRun, Inline,
    InlineFacts, LinkAttrs, RichTree, TagfilterWidget,
};

verus! {

/// Whether two phrasings are the same.
pub fn same_paint(a: &HtmlPaint, b: &HtmlPaint) -> (eq: bool)
    ensures
        eq == (a@ == b@),
{
    let href = match (&a.href, &b.href) {
        (Some(x), Some(y)) => *x == *y,
        (None, None) => true,
        _ => false,
    };
    a.bold == b.bold && a.italic == b.italic && a.strike == b.strike && a.code == b.code && a.mark
        == b.mark && a.underline == b.underline && a.sup == b.sup && a.sub == b.sub && same_color(
        a.color,
        b.color,
    ) && same_color(a.background, b.background) && href
}

fn same_color(a: Option<CssColor>, b: Option<CssColor>) -> (eq: bool)
    ensures
        eq == (a == b),
{
    match (a, b) {
        (Some(x), Some(y)) => x == y,
        (None, None) => true,
        _ => false,
    }
}

/// Document offset of the offset `html` of an HTML literal: past its end that
/// of its last offset, and `fallback` when the literal has no map.
pub open spec fn doc_offset(literal_map: Seq<usize>, html: usize, fallback: usize) -> usize {
    if html < literal_map.len() {
        literal_map[html as int]
    } else if literal_map.len() > 0 {
        literal_map.last()
    } else {
        fallback
    }
}

/// Document offset of the offset `html` of an HTML literal.
pub fn doc_offset_for_html_literal(literal_map: &Vec<usize>, html: usize, fallback: usize) -> (at:
    usize)
    ensures
        at == doc_offset(literal_map@, html, fallback),
{
    if html < literal_map.len() {
        literal_map[html]
    } else if literal_map.len() > 0 {
        literal_map[literal_map.len() - 1]
    } else {
        fallback
    }
}

/// The colors of the paint runs differ.
pub open spec fn css_mixed(paints: Seq<HtmlPaintRun>) -> bool {
    exists|k: int|
        0 < k < paints.len() && ((#[trigger] paints[k]).paint.color != paints[0].paint.color
            || paints[k].paint.background != paints[0].paint.background)
}

/// Whether the colors of the paint runs differ.
pub fn html_css_is_mixed(paints: &Vec<HtmlPaintRun>) -> (mixed: bool)
    ensures
        mixed == css_mixed(paints@),
{
    let mut k: usize = 1;
    while k < paints.len()
        invariant
            1 <= k,
            k <= paints.len() || k == 1,
            forall|j: int|
                0 < j < k && j < paints@.len() ==> (#[trigger] paints@[j]).paint.color
                    == paints@[0].paint.color && paints@[j].paint.background
                    == paints@[0].paint.background,
        decreases paints.len() - k,
    {
        if !same_color(paints[k].paint.color, paints[0].paint.color) || !same_color(
            paints[k].paint.background,
            paints[0].paint.background,
        ) {
            assert(paints@[k as int].paint.color != paints@[0].paint.color
                || paints@[k as int].paint.background != paints@[0].paint.background);
            return true;
        }
        k = k + 1;
    }
    false
}

/// `run` in the colors of `paint`, where it has any.
pub open spec fn tinted(run: TextRun, paint: HtmlPaint) -> TextRun {
    TextRun {
        style: RunStyle {
            color: match paint.color {
                Some(c) => RunColor::Css(c),
                None => run.style.color,
            },
            background: match paint.background {
                Some(c) => RunBackground::Css(c),
                None => run.style.background,
            },
            ..run.style
        },
        ..run
    }
}

/// The layout in the colors of the first paint run.
pub open spec fn tinted_view(view: LeafView, paints: Seq<HtmlPaintRun>) -> LeafView {
    if paints.len() == 0 {
        view
    } else {
        LeafView {
            runs: view.runs.map_values(|run: TextRun| tinted(run, paints[0].paint)),
            ..view
        }
    }
}

/// Paints the layout in the colors of the first paint run.
pub fn tint_layout_with_html_css(layout: &mut LeafLayout, paints: &Vec<HtmlPaintRun>)
    ensures
        final(layout)@ == tinted_view(old(layout)@, paints@),
        final(layout)@.text == old(layout)@.text,
        final(layout)@.source_at == old(layout)@.source_at,
{
    if paints.len() == 0 {
        return;
    }
    let color = paints[0].paint.color;
    let background = paints[0].paint.background;
    let ghost goal = layout.runs@.map_values(|run: TextRun| tinted(run, paints@[0].paint));
    let mut k: usize = 0;
    while k < layout.runs.len()
        invariant
            k <= layout.runs@.len(),
            layout.runs@.len() == goal.len(),
            old(layout).runs@.len() == goal.len(),
            paints@.len() > 0,
            color == paints@[0].paint.color,
            background == paints@[0].paint.background,
            goal == old(layout).runs@.map_values(|run: TextRun| tinted(run, paints@[0].paint)),
            layout.text == old(layout).text,
            layout.source_at == old(layout).source_at,
            layout.block_start == old(layout).block_start,
            forall|j: int| 0 <= j < k ==> layout.runs@[j] == goal[j],
            forall|j: int| k <= j < goal.len() ==> layout.runs@[j] == old(layout).runs@[j],
        decreases layout.runs@.len() - k,
    {
        let mut run = layout.runs[k];
        if let Some(c) = color {
            run.style.color = RunColor::Css(c);
        }
        if let Some(c) = background {
            run.style.background = RunBackground::Css(c);
        }
        assert(run == goal[k as int]);
        layout.runs.set(k, run);
        k = k + 1;
    }
    assert(layout.runs@ =~= goal);
}

/// Runs of projected text: one per paint run, or a single plain run where
/// their lengths do not add up to the text. Empty text keeps one byte of run
/// to be measured by.
pub open spec fn flow_runs(n: int, paints: Seq<HtmlPaintRun>, style: TextStyle) -> Seq<TextRun> {
    let styled = paints.map_values(
        |p: HtmlPaintRun|
            TextRun {
                len: p.len,
                style: RunStyle::styled(style, MarkSet::none(), false, p.paint@),
            },
    );
    if n == 0 {
        seq![TextRun { len: 1, style: RunStyle::inherit() }]
    } else if layout::run_total(styled) == n {
        styled
    } else {
        seq![TextRun { len: n as usize, style: RunStyle::inherit() }]
    }
}

/// Layout of projected HTML text.
pub open spec fn flow_view(
    t: Seq<u8>,
    source_at: Seq<usize>,
    paints: Seq<HtmlPaintRun>,
    literal_map: Seq<usize>,
    block_start: usize,
    style: TextStyle,
) -> LeafView {
    let mapped = source_at.map_values(|o: usize| doc_offset(literal_map, o, block_start));
    LeafView {
        text: t,
        runs: flow_runs(t.len() as int, paints, style),
        source_at: if t.len() == 0 {
            seq![block_start]
        } else {
            block_layout::fitted(mapped, t.len() as int + 1, block_start)
        },
        block_start,
    }
}

/// Layout of projected HTML text.
pub fn html_flow_layout(
    t: &str,
    source_at: &Vec<usize>,
    paints: &Vec<HtmlPaintRun>,
    literal_map: &Vec<usize>,
    block_start: usize,
    style: TextStyle,
) -> (layout: LeafLayout)
    ensures
        layout@ == flow_view(
            encode_utf8(t@),
            source_at@,
            paints@,
            literal_map@,
            block_start,
            style,
        ),
        layout@.source_at.len() == layout@.text.len() + 1,
{
    let n: usize = byte_len(t);
    let mut runs: Vec<TextRun> = Vec::new();
    let mut mapped: Vec<usize> = Vec::new();
    if n == 0 {
        mapped.push(block_start);
        runs.push(TextRun { len: 1, style: plain_run() });
    } else {
        let ghost styled = paints@.map_values(
            |p: HtmlPaintRun|
                TextRun {
                    len: p.len,
                    style: RunStyle::styled(style, MarkSet::none(), false, p.paint@),
                },
        );
        let mut k: usize = 0;
        while k < paints.len()
            invariant
                k <= paints.len(),
                styled == paints@.map_values(
                    |p: HtmlPaintRun|
                        TextRun {
                            len: p.len,
                            style: RunStyle::styled(style, MarkSet::none(), false, p.paint@),
                        },
                ),
                runs@ =~= styled.take(k as int),
            decreases paints.len() - k,
        {
            let run = style_run(style, MarkSet::empty(), false, &paints[k].paint);
            runs.push(TextRun { len: paints[k].len, style: run });
            k = k + 1;
        }
        assert(runs@ =~= styled);
        if !runs_cover(&runs, n) {
            runs = Vec::new();
            runs.push(TextRun { len: n, style: plain_run() });
        }
        let ghost offsets = source_at@.map_values(
            |o: usize| doc_offset(literal_map@, o, block_start),
        );
        let mut k: usize = 0;
        while k < source_at.len()
            invariant
                k <= source_at.len(),
                offsets == source_at@.map_values(
                    |o: usize| doc_offset(literal_map@, o, block_start),
                ),
                mapped@ =~= offsets.take(k as int),
            decreases source_at.len() - k,
        {
            mapped.push(doc_offset_for_html_literal(literal_map, source_at[k], block_start));
            k = k + 1;
        }
        assert(mapped@ =~= offsets);
        fit(&mut mapped, n, block_start);
    }
    let layout = LeafLayout { text: own(t), runs, source_at: mapped, block_start };
    assert(layout@ =~= flow_view(
        encode_utf8(t@),
        source_at@,
        paints@,
        literal_map@,
        block_start,
        style,
    ));
    layout
}

/// Document offset of the inner offset `slot` of projected text.
pub open spec fn remapped(
    slot: usize,
    html_at: Seq<usize>,
    literal_map: Seq<usize>,
    block_start: usize,
    inner_len: usize,
) -> usize {
    let inner = if slot <= inner_len {
        slot
    } else {
        inner_len
    };
    doc_offset(literal_map, doc_offset(html_at, inner, 0), block_start)
}

/// The layout with its source map taken from inner offsets to the document.
pub open spec fn remapped_view(
    view: LeafView,
    html_at: Seq<usize>,
    literal_map: Seq<usize>,
    block_start: usize,
    inner_len: usize,
) -> LeafView {
    LeafView {
        source_at: view.source_at.map_values(
            |slot: usize| remapped(slot, html_at, literal_map, block_start, inner_len),
        ),
        block_start,
        ..view
    }
}

/// Takes the source map of a layout from inner offsets to the document.
pub fn remap_html_sources(
    layout: &mut LeafLayout,
    html_at: &Vec<usize>,
    literal_map: &Vec<usize>,
    block_start: usize,
    inner_len: usize,
)
    ensures
        final(layout)@ == remapped_view(
            old(layout)@,
            html_at@,
            literal_map@,
            block_start,
            inner_len,
        ),
        final(layout)@.source_at.len() == old(layout)@.source_at.len(),
{
    let ghost goal = layout.source_at@.map_values(
        |slot: usize| remapped(slot, html_at@, literal_map@, block_start, inner_len),
    );
    let mut k: usize = 0;
    while k < layout.source_at.len()
        invariant
            k <= layout.source_at@.len(),
            layout.source_at@.len() == goal.len(),
            old(layout).source_at@.len() == goal.len(),
            goal == old(layout).source_at@.map_values(
                |slot: usize| remapped(slot, html_at@, literal_map@, block_start, inner_len),
            ),
            layout.text == old(layout).text,
            layout.runs == old(layout).runs,
            forall|j: int| 0 <= j < k ==> layout.source_at@[j] == goal[j],
            forall|j: int|
                k <= j < goal.len() ==> layout.source_at@[j] == old(layout).source_at@[j],
        decreases layout.source_at@.len() - k,
    {
        let slot: usize = layout.source_at[k];
        let inner: usize = if slot <= inner_len {
            slot
        } else {
            inner_len
        };
        let html: usize = doc_offset_for_html_literal(html_at, inner, 0);
        let at: usize = doc_offset_for_html_literal(literal_map, html, block_start);
        layout.source_at.set(k, at);
        k = k + 1;
    }
    assert(layout.source_at@ =~= goal);
    layout.block_start = block_start;
}

/// A tag of the HTML literal with its place in the document.
pub open spec fn tag_at(
    raw: Seq<u8>,
    r: Range<usize>,
    literal_map: Seq<usize>,
    fallback: usize,
) -> Option<(Seq<u8>, Range<usize>)> {
    match text::slice_of(raw, r) {
        Some(s) => {
            let start = doc_offset(literal_map, r.start, fallback);
            Some((s, start..(start + s.len()) as usize))
        },
        None => None,
    }
}

/// The document has room for every tag of the HTML literal `raw`.
pub open spec fn tags_fit(raw: Seq<u8>, block: Block, html: HtmlBlockFacts) -> bool {
    &&& block.source_range.start + raw.len() <= usize::MAX
    &&& forall|k: int|
        0 <= k < html.literal_map@.len() ==> #[trigger] html.literal_map@[k] + raw.len()
            <= usize::MAX
}

/// The layout with the wrapper tags of a revealed HTML block.
pub open spec fn with_wrapper(
    view: LeafView,
    block: Block,
    html: HtmlBlockFacts,
    state: RevealState,
) -> LeafView {
    match (block.kind, html.wrapper) {
        (BlockKind::Opaque { raw, .. }, Some((open, close))) => if state.meets(block.source_range) {
            let b = encode_utf8(raw@);
            let map = html.literal_map@;
            let start = block.source_range.start;
            let opened = match tag_at(b, open, map, start) {
                Some((s, r)) => view.prepended(s, r, RunStyle::delim()),
                None => view,
            };
            match close {
                Some(close) => match tag_at(b, close, map, start) {
                    Some((s, r)) => opened.appended(s, r, RunStyle::delim()),
                    None => opened,
                },
                None => opened,
            }
        } else {
            view
        },
        _ => view,
    }
}

/// The HTML literal of a block.
pub open spec fn literal_of(block: Block) -> Seq<u8> {
    match block.kind {
        BlockKind::Opaque { raw, .. } => encode_utf8(raw@),
        _ => Seq::empty(),
    }
}

/// Paints the wrapper tags of a revealed HTML block.
pub fn paint_html_block_wrapper_tags(
    layout: &mut LeafLayout,
    block: &Block,
    html: &HtmlBlockFacts,
    state: &RevealState,
)
    requires
        old(layout)@.mapped(),
        tags_fit(literal_of(*block), *block, *html),
    ensures
        final(layout)@ == with_wrapper(old(layout)@, *block, *html, *state),
        final(layout)@.mapped(),
{
    if !state.intersects(&block.source_range) {
        return;
    }
    let raw = match &block.kind {
        BlockKind::Opaque { raw, .. } => raw.as_str(),
        _ => {
            return;
        },
    };
    let fallback: usize = block.source_range.start;
    let delim = wiki_delim_run();
    if let Some((open, close)) = &html.wrapper {
        if let Some(s) = get(raw, open) {
            let start: usize = doc_offset_for_html_literal(
                &html.literal_map,
                open.start,
                fallback,
            );
            let n: usize = byte_len(s);
            prepend_source_slice(layout, s, start..start + n, delim);
        }
        if let Some(close) = close {
            if let Some(s) = get(raw, close) {
                let start: usize = doc_offset_for_html_literal(
                    &html.literal_map,
                    close.start,
                    fallback,
                );
                let n: usize = byte_len(s);
                append_source_slice(layout, s, start..start + n, delim);
            }
        }
    }
}

/// Layout of an HTML block that shows nothing by itself: comments and the like
/// show their source when revealed, empty wrappers show their tags, dangerous
/// elements never show.
pub open spec fn hidden_view(
    block: Block,
    html: HtmlBlockFacts,
    style: TextStyle,
    state: RevealState,
) -> LeafView {
    let start = block.source_range.start;
    let empty = block_layout::empty_view(start);
    let raw = literal_of(block);
    if !state.meets(block.source_range) {
        empty
    } else if html.source_chrome {
        let map = layout::byte_map(0, raw.len() + 1);
        LeafView {
            text: raw,
            runs: seq![
                TextRun {
                    len: if raw.len() > 0 {
                        raw.len() as usize
                    } else {
                        1
                    },
                    style: RunStyle::delim(),
                },
            ],
            source_at: flow_view(raw, map, Seq::empty(), html.literal_map@, start, style).source_at,
            block_start: start,
        }
    } else if html.dangerous {
        empty
    } else {
        with_wrapper(empty, block, html, state)
    }
}

/// Layout of an HTML block that shows nothing by itself.
pub fn build_hidden_html_block_layout(
    block: &Block,
    html: &HtmlBlockFacts,
    style: TextStyle,
    state: &RevealState,
) -> (layout: LeafLayout)
    requires
        tags_fit(literal_of(*block), *block, *html),
    ensures
        layout@ == hidden_view(*block, *html, style, *state),
        layout@.mapped(),
{
    let start: usize = block.source_range.start;
    let mut layout = empty_layout(start);
    if !state.intersects(&block.source_range) {
        return layout;
    }
    if html.source_chrome {
        let raw: &str = match &block.kind {
            BlockKind::Opaque { raw, .. } => raw.as_str(),
            _ => "",
        };
        proof {
            reveal_strlit("");
            if !(block.kind is Opaque) {
                assert(encode_utf8(raw@) =~= Seq::<u8>::empty());
            }
        }
        let n: usize = byte_len(raw);
        let mut map: Vec<usize> = Vec::new();
        let mut i: usize = 0;
        while i < n
            invariant
                i <= n,
                map@ == layout::byte_map(0, i as nat),
            decreases n - i,
        {
            map.push(i);
            i = i + 1;
            assert(map@ =~= layout::byte_map(0, i as nat));
        }
        map.push(n);
        assert(map@ =~= layout::byte_map(0, (n + 1) as nat));
        let paints: Vec<HtmlPaintRun> = Vec::new();
        layout = html_flow_layout(raw, &map, &paints, &html.literal_map, start, style);
        let mut runs: Vec<TextRun> = Vec::new();
        runs.push(
            TextRun {
                len: if n > 0 {
                    n
                } else {
                    1
                },
                style: wiki_delim_run(),
            },
        );
        layout.runs = runs;
        assert(layout@ =~= hidden_view(*block, *html, style, *state));
        return layout;
    }
    if html.dangerous {
        return layout;
    }
    paint_html_block_wrapper_tags(&mut layout, block, html, state);
    layout
}

/// Dangerous HTML without source chrome stays hidden wherever the caret is.
pub proof fn dangerous_html_stays_hidden(
    block: Block,
    html: HtmlBlockFacts,
    style: TextStyle,
    state: RevealState,
)
    requires
        html.dangerous,
        !html.source_chrome,
    ensures
        hidden_view(block, html, style, state).text.len() == 0,
{
}

/// The marks that phrasing stands for.
pub open spec fn marks_of(p: HtmlPaintView) -> MarkSet {
    MarkSet {
        bold: p.bold,
        italic: p.italic,
        strike: p.strike,
        code: p.code,
        highlight: p.mark,
        sup: p.sup,
        sub: p.sub,
    }
}

/// The link that phrasing stands for.
pub open spec fn link_of(p: HtmlPaint) -> Option<LinkAttrs> {
    match p.href {
        Some(url) => Some(
            LinkAttrs { url, title: None, autolink: false, angle: false, group: 0 },
        ),
        None => None,
    }
}

/// The marks and the link that phrasing stands for.
pub fn html_paint_marks(p: &HtmlPaint) -> (out: (MarkSet, Option<LinkAttrs>))
    ensures
        out.0 == marks_of(p@),
        out.1 == link_of(*p),
{
    let marks = MarkSet {
        bold: p.bold,
        italic: p.italic,
        strike: p.strike,
        code: p.code,
        highlight: p.mark,
        sup: p.sup,
        sub: p.sub,
    };
    let link = match &p.href {
        Some(url) => Some(
            LinkAttrs {
                url: url.clone(),
                title: None,
                autolink: false,
                angle: false,
                group: 0,
            },
        ),
        None => None,
    };
    (marks, link)
}

/// The paint run that covers the offset `off`.
pub open spec fn covering(paints: Seq<HtmlPaintRun>, off: int) -> Option<HtmlPaint>
    decreases paints.len(),
{
    if paints.len() == 0 {
        None
    } else if off < paints[0].len {
        Some(paints[0].paint)
    } else {
        covering(paints.drop_first(), off - paints[0].len)
    }
}

/// The phrasing at the offset `off`; none behind the last run.
pub open spec fn paint_at(paints: Seq<HtmlPaintRun>, off: int) -> HtmlPaintView {
    match covering(paints, off) {
        Some(p) => p@,
        None => HtmlPaintView::none(),
    }
}

/// The link of the phrasing at the offset `off`.
pub open spec fn link_at(paints: Seq<HtmlPaintRun>, off: int) -> Option<LinkAttrs> {
    match covering(paints, off) {
        Some(p) => link_of(p),
        None => None,
    }
}

/// The phrasing at the offset `off`.
pub fn paint_covering(paints: &Vec<HtmlPaintRun>, off: usize) -> (paint: HtmlPaint)
    ensures
        paint@ == paint_at(paints@, off as int),
        link_of(paint) == link_at(paints@, off as int),
{
    let mut left: usize = off;
    let mut k: usize = 0;
    assert(paints@.skip(0) =~= paints@);
    while k < paints.len()
        invariant
            k <= paints.len(),
            covering(paints@, off as int) == covering(paints@.skip(k as int), left as int),
        decreases paints.len() - k,
    {
        assert(paints@.skip(k as int).drop_first() =~= paints@.skip(k + 1));
        if left < paints[k].len {
            return paints[k].paint.clone();
        }
        left = left - paints[k].len;
        k = k + 1;
    }
    HtmlPaint::default()
}

/// Source byte behind the offset `off` of a run of `n` bytes that stands for
/// `range`.
pub open spec fn run_offset(range: Range<usize>, n: int, off: int) -> int {
    if layout::span_len(range) == n {
        range.start + off
    } else {
        range.start + layout::span_len(range) * off / n
    }
}

fn source_offset(range: &Range<usize>, n: usize, off: usize) -> (at: usize)
    requires
        0 < n,
        off <= n,
    ensures
        at == run_offset(*range, n as int, off as int),
        range.start <= at,
{
    let span: usize = range_len(range);
    proof {
        layout::lemma_share(span as int, off as int, n as int);
    }
    if span == n {
        range.start + off
    } else {
        assert(span as u128 * off as u128 <= u128::MAX) by (nonlinear_arith)
            requires
                0 <= span <= 0xffff_ffff_ffff_ffff,
                0 <= off <= 0xffff_ffff_ffff_ffff,
        ;
        range.start + ((span as u128 * off as u128) / n as u128) as usize
    }
}

/// Where the characters of `t` from `from` on stop having the phrasing
/// `html`.
pub open spec fn chunk_end(
    t: Seq<u8>,
    range: Range<usize>,
    paints: Seq<HtmlPaintRun>,
    html: HtmlPaintView,
    from: int,
) -> int
    decreases t.len() - from,
{
    if from >= t.len() {
        t.len() as int
    } else if paint_at(paints, run_offset(range, t.len() as int, from)) == html {
        chunk_end(t, range, paints, html, char_end(t, from))
    } else {
        from
    }
}

/// Where the character of `t` at `o` ends.
pub open spec fn char_end(t: Seq<u8>, o: int) -> int {
    if o < layout::next_boundary(t, o + 1) <= t.len() {
        layout::next_boundary(t, o + 1)
    } else {
        o + 1
    }
}

/// Where the chunk of `t` that starts at `start` ends: at least one character
/// behind, then as far as the phrasing stays the same.
pub open spec fn chunk_stop(
    t: Seq<u8>,
    range: Range<usize>,
    paints: Seq<HtmlPaintRun>,
    start: int,
) -> int {
    let html = paint_at(paints, run_offset(range, t.len() as int, start));
    chunk_end(t, range, paints, html, char_end(t, start))
}

/// An inline of the split list: one that was kept, or a part of a run.
pub enum SplitItem {
    Kept(Inline),
    Part {
        text: Seq<u8>,
        raw: Option<String>,
        source_range: Range<usize>,
        marks: MarkSet,
        link: Option<LinkAttrs>,
        fidelity: MarkFidelity,
    },
}

impl SplitItem {
    /// `inline` is this item.
    pub open spec fn is(self, inline: Inline) -> bool {
        match self {
            SplitItem::Kept(kept) => inline == kept,
            SplitItem::Part { text, raw, source_range, marks, link, fidelity } => match inline {
                Inline::Run {
                    text: t,
                    raw: r,
                    source_range: s,
                    marks: m,
                    link: l,
                    fidelity: f,
                } => encode_utf8(t@) == text && r == raw && s == source_range && m == marks && l
                    == link && f == fidelity,
                _ => false,
            },
        }
    }
}

/// The part `start..end` of a run, under the phrasing at its start.
pub open spec fn part(inline: Inline, paints: Seq<HtmlPaintRun>, start: int, end: int) -> SplitItem {
    match inline {
        Inline::Run { text, raw, source_range, marks, link, fidelity } => {
            let t = encode_utf8(text@);
            let n = t.len() as int;
            let from = run_offset(source_range, n, start);
            let to = run_offset(source_range, n, end);
            SplitItem::Part {
                text: t.subrange(start, end),
                raw,
                source_range: from as usize..(if to >= from {
                    to
                } else {
                    from
                }) as usize,
                marks: marks.union(marks_of(paint_at(paints, from))),
                link: match link {
                    Some(l) => Some(l),
                    None => link_at(paints, from),
                },
                fidelity,
            }
        },
        _ => SplitItem::Kept(inline),
    }
}

/// The parts of the run `inline` with text `t`, from `start` on.
pub open spec fn parts(
    inline: Inline,
    t: Seq<u8>,
    range: Range<usize>,
    paints: Seq<HtmlPaintRun>,
    start: int,
) -> Seq<SplitItem>
    decreases t.len() - start,
{
    let end = chunk_stop(t, range, paints, start);
    if start >= t.len() || end <= start || end > t.len() {
        Seq::empty()
    } else {
        seq![part(inline, paints, start, end)] + parts(inline, t, range, paints, end)
    }
}

/// The items that one inline is split into.
pub open spec fn items_of(inline: Inline, paints: Seq<HtmlPaintRun>) -> Seq<SplitItem> {
    match inline {
        Inline::Run { text, source_range, .. } => parts(
            inline,
            encode_utf8(text@),
            source_range,
            paints,
            0,
        ),
        _ => seq![SplitItem::Kept(inline)],
    }
}

/// The items that the first `n` inlines are split into: runs where the
/// phrasing changes, everything else as it is.
pub open spec fn split_items(inlines: Seq<Inline>, paints: Seq<HtmlPaintRun>, n: int) -> Seq<
    SplitItem,
>
    decreases n,
{
    if n <= 0 {
        Seq::empty()
    } else {
        split_items(inlines, paints, n - 1) + items_of(inlines[n - 1], paints)
    }
}

/// `out` holds the inlines of `inlines`, split where the phrasing changes.
pub open spec fn is_split(out: Seq<Inline>, inlines: Seq<Inline>, paints: Seq<HtmlPaintRun>) -> bool {
    if paints.len() == 0 {
        out == inlines
    } else {
        realizes(out, split_items(inlines, paints, inlines.len() as int))
    }
}

/// `out` holds exactly `items`.
pub open spec fn realizes(out: Seq<Inline>, items: Seq<SplitItem>) -> bool {
    &&& out.len() == items.len()
    &&& forall|k: int| 0 <= k < items.len() ==> (#[trigger] items[k]).is(out[k])
}

proof fn lemma_realizes_concat(
    a: Seq<Inline>,
    b: Seq<Inline>,
    x: Seq<SplitItem>,
    y: Seq<SplitItem>,
)
    requires
        realizes(a, x),
        realizes(b, y),
    ensures
        realizes(a + b, x + y),
{
    assert forall|k: int| 0 <= k < (x + y).len() implies (#[trigger] (x + y)[k]).is((a + b)[k]) by {
        if k < x.len() {
            assert(x[k].is(a[k]));
        } else {
            assert(y[k - x.len()].is(b[k - x.len()]));
        }
    }
}

/// Where the character of `t` at the boundary `o` ends.
fn next_char(t: &str, o: usize) -> (end: usize)
    requires
        o < encode_utf8(t@).len(),
    ensures
        end == char_end(encode_utf8(t@), o as int),
        o < end <= encode_utf8(t@).len(),
        text::boundary(encode_utf8(t@), end as int),
{
    let n: usize = byte_len(t);
    let ghost b = encode_utf8(t@);
    proof {
        text::lemma_boundary_ends(t@);
    }
    let mut end: usize = o + 1;
    while end < n && !at_boundary(t, end)
        invariant
            o < end <= n,
            n == b.len(),
            b == encode_utf8(t@),
            layout::next_boundary(b, o + 1) == layout::next_boundary(b, end as int),
        decreases n - end,
    {
        end = end + 1;
    }
    end
}

/// Splits one run where the phrasing changes.
fn split_run(
    inline: &Inline,
    t: &String,
    raw: &Option<String>,
    range: &Range<usize>,
    marks: MarkSet,
    link: &Option<LinkAttrs>,
    fidelity: MarkFidelity,
    paints: &Vec<HtmlPaintRun>,
    out: &mut Vec<Inline>,
)
    requires
        *inline == (Inline::Run {
            text: *t,
            raw: *raw,
            source_range: *range,
            marks,
            link: *link,
            fidelity,
        }),
    ensures
        exists|more: Seq<Inline>|
            final(out)@ == old(out)@ + more && #[trigger] realizes(
                more,
                items_of(*inline, paints@),
            ),
{
    let ghost b = encode_utf8(t@);
    let n: usize = byte_len(t.as_str());
    let mut start: usize = 0;
    let ghost mut more: Seq<Inline> = Seq::empty();
    let ghost mut done: Seq<SplitItem> = Seq::empty();
    proof {
        text::lemma_boundary_ends(t@);
        assert(out@ =~= old(out)@ + more);
        assert(done + parts(*inline, b, *range, paints@, 0) =~= items_of(*inline, paints@));
    }
    while start < n
        invariant
            *inline == (Inline::Run {
                text: *t,
                raw: *raw,
                source_range: *range,
                marks,
                link: *link,
                fidelity,
            }),
            b == encode_utf8(t@),
            n == b.len(),
            start <= n,
            text::boundary(b, start as int),
            out@ == old(out)@ + more,
            realizes(more, done),
            items_of(*inline, paints@) == done + parts(
                *inline,
                b,
                *range,
                paints@,
                start as int,
            ),
        decreases n - start,
    {
        let from: usize = source_offset(range, n, start);
        let html = paint_covering(paints, from);
        let (extra, html_link) = html_paint_marks(&html);
        let mut end: usize = next_char(t.as_str(), start);
        let mut same = true;
        while same && end < n
            invariant
                b == encode_utf8(t@),
                n == b.len(),
                start < end <= n,
                text::boundary(b, end as int),
                html@ == paint_at(paints@, from as int),
                from == run_offset(*range, n as int, start as int),
                same ==> chunk_stop(b, *range, paints@, start as int) == chunk_end(
                    b,
                    *range,
                    paints@,
                    html@,
                    end as int,
                ),
                !same ==> chunk_stop(b, *range, paints@, start as int) == end,
            decreases n - end, if same { 1int } else { 0int },
        {
            let off: usize = source_offset(range, n, end);
            let here = paint_covering(paints, off);
            if same_paint(&here, &html) {
                end = next_char(t.as_str(), end);
            } else {
                same = false;
            }
        }
        assert(end == chunk_stop(b, *range, paints@, start as int));
        let to: usize = source_offset(range, n, end);
        let s = slice(t.as_str(), start, end);
        let piece = Inline::Run {
            text: own(s),
            raw: match raw {
                Some(r) => Some(r.clone()),
                None => None,
            },
            source_range: from..if to >= from {
                to
            } else {
                from
            },
            marks: marks.with(extra),
            link: match link {
                Some(l) => Some(l.clone()),
                None => html_link,
            },
            fidelity,
        };
        let ghost item = part(*inline, paints@, start as int, end as int);
        assert(item.is(piece));
        let ghost tail = parts(*inline, b, *range, paints@, end as int);
        assert(parts(*inline, b, *range, paints@, start as int) == seq![item] + tail);
        proof {
            assert(realizes(seq![piece], seq![item]));
            lemma_realizes_concat(more, seq![piece], done, seq![item]);
            assert(done + (seq![item] + tail) =~= (done + seq![item]) + tail);
            more = more + seq![piece];
            done = done + seq![item];
        }
        out.push(piece);
        assert(out@ =~= old(out)@ + more);
        start = end;
    }
    proof {
        assert(parts(*inline, b, *range, paints@, start as int) =~= Seq::empty());
        assert(done =~= items_of(*inline, paints@));
        assert(realizes(more, items_of(*inline, paints@)));
    }
}

/// Splits the runs of `inlines` where the phrasing of the projected text
/// changes, and gives each part the marks and the link of its phrasing.
pub fn split_inlines_by_html_paints(inlines: Vec<Inline>, paints: &Vec<HtmlPaintRun>) -> (out: Vec<
    Inline,
>)
    ensures
        is_split(out@, inlines@, paints@),
{
    if paints.len() == 0 {
        return inlines;
    }
    let mut out: Vec<Inline> = Vec::new();
    let mut k: usize = 0;
    while k < inlines.len()
        invariant
            k <= inlines.len(),
            realizes(out@, split_items(inlines@, paints@, k as int)),
        decreases inlines.len() - k,
    {
        let inline = &inlines[k];
        let ghost before = out@;
        let ghost items = split_items(inlines@, paints@, k as int);
        match inline {
            Inline::Run { text, raw, source_range, marks, link, fidelity } => {
                split_run(
                    inline,
                    text,
                    raw,
                    source_range,
                    *marks,
                    link,
                    *fidelity,
                    paints,
                    &mut out,
                );
                proof {
                    let more = choose|more: Seq<Inline>|
                        out@ == before + more && #[trigger] realizes(
                            more,
                            items_of(*inline, paints@),
                        );
                    lemma_realizes_concat(before, more, items, items_of(*inline, paints@));
                }
            },
            _ => {
                out.push(inline.clone());
                proof {
                    let one = seq![*inline];
                    assert(realizes(one, items_of(*inline, paints@)));
                    lemma_realizes_concat(before, one, items, items_of(*inline, paints@));
                    assert(out@ =~= before + one);
                }
            },
        }
        k = k + 1;
    }
    out
}

/// The text of `items`.
pub open spec fn items_text(items: Seq<SplitItem>) -> Seq<u8>
    decreases items.len(),
{
    if items.len() == 0 {
        Seq::empty()
    } else {
        (match items[0] {
            SplitItem::Part { text, .. } => text,
            _ => Seq::empty(),
        }) + items_text(items.drop_first())
    }
}

proof fn lemma_char_end(t: Seq<u8>, o: int)
    requires
        0 <= o < t.len(),
    ensures
        o < char_end(t, o) <= t.len(),
{
}

proof fn lemma_chunk_end(
    t: Seq<u8>,
    range: Range<usize>,
    paints: Seq<HtmlPaintRun>,
    html: HtmlPaintView,
    from: int,
)
    requires
        0 <= from <= t.len(),
    ensures
        from <= chunk_end(t, range, paints, html, from) <= t.len(),
    decreases t.len() - from,
{
    if from < t.len() && paint_at(paints, run_offset(range, t.len() as int, from)) == html {
        lemma_char_end(t, from);
        lemma_chunk_end(t, range, paints, html, char_end(t, from));
    }
}

proof fn lemma_parts_text(inline: Inline, range: Range<usize>, paints: Seq<HtmlPaintRun>, start: int)
    requires
        inline is Run,
        0 <= start <= encode_utf8(inline->Run_text@).len(),
    ensures
        items_text(parts(inline, encode_utf8(inline->Run_text@), range, paints, start))
            == encode_utf8(inline->Run_text@).skip(start),
    decreases encode_utf8(inline->Run_text@).len() - start,
{
    let t = encode_utf8(inline->Run_text@);
    if start < t.len() {
        let html = paint_at(paints, run_offset(range, t.len() as int, start));
        let end = chunk_stop(t, range, paints, start);
        lemma_char_end(t, start);
        lemma_chunk_end(t, range, paints, html, char_end(t, start));
        lemma_parts_text(inline, range, paints, end);
        let rest = parts(inline, t, range, paints, end);
        let all = seq![part(inline, paints, start, end)] + rest;
        assert(all.drop_first() =~= rest);
        assert(t.subrange(start, end) + t.skip(end) =~= t.skip(start));
    } else {
        assert(t.skip(start) =~= Seq::<u8>::empty());
    }
}

/// Splitting a run loses none of its text and adds none.
pub proof fn split_keeps_text(inline: Inline, paints: Seq<HtmlPaintRun>)
    requires
        inline is Run,
    ensures
        items_text(items_of(inline, paints)) == encode_utf8(inline->Run_text@),
{
    let range = inline->Run_source_range;
    lemma_parts_text(inline, range, paints, 0);
    assert(encode_utf8(inline->Run_text@).skip(0) =~= encode_utf8(inline->Run_text@));
}

/// `inline` is the whole of `t` as one unmarked run.
pub open spec fn is_plain_run(inline: Inline, t: Seq<char>) -> bool {
    match inline {
        Inline::Run { text, raw, source_range, marks, link, fidelity } => {
            &&& text@ == t
            &&& raw is None
            &&& source_range == (0usize..encode_utf8(t).len() as usize)
            &&& marks == MarkSet::none()
            &&& link is None
            &&& fidelity == MarkFidelity::plain()
        },
        _ => false,
    }
}

fn plain_text_run(t: &str) -> (inline: Inline)
    ensures
        is_plain_run(inline, t@),
{
    Inline::Run {
        text: own(t),
        raw: None,
        source_range: 0..byte_len(t),
        marks: MarkSet::empty(),
        link: None,
        fidelity: MarkFidelity::default(),
    }
}

/// `out` is the inner Markdown of projected text: parsed, or the text itself
/// when it is preformatted.
pub open spec fn is_inner(out: Seq<Inline>, preformatted: bool, t: Seq<char>, tree: RichTree) -> bool {
    if !preformatted {
        out == walk::flattened(tree.blocks@, Seq::empty())
    } else if t.len() == 0 {
        out.len() == 0
    } else {
        out.len() == 1 && is_plain_run(out[0], t)
    }
}

/// Inner Markdown of projected text; `tree` is the parsed text.
pub fn html_inner_inlines(preformatted: bool, t: &str, tree: &RichTree) -> (out: Vec<Inline>)
    ensures
        is_inner(out@, preformatted, t@, *tree),
{
    if !preformatted {
        return inlines_from_inner_markdown(tree);
    }
    let mut out: Vec<Inline> = Vec::new();
    if !t.is_empty() {
        out.push(plain_text_run(t));
    }
    out
}

/// The inner Markdown of an HTML block, as a leaf over the projected text
/// that no caret is in.
pub open spec fn inner_leaf<'a>(
    t: &'a str,
    inlines: &'a Vec<Inline>,
    facts: &'a Vec<InlineFacts>,
    widgets: &'a Vec<TagfilterWidget>,
    style: TextStyle,
) -> LeafInput<'a> {
    LeafInput {
        inlines,
        facts,
        widgets,
        def_chrome: &None,
        block_range: 0..encode_utf8(t@).len() as usize,
        source: t,
        style,
        state: &RevealState::nowhere(),
        hosts: &ChromeHosts::nothing(),
    }
}

fn inner_layout(
    t: &str,
    inlines: &Vec<Inline>,
    facts: &Vec<InlineFacts>,
    widgets: &Vec<TagfilterWidget>,
    style: TextStyle,
) -> (layout: LeafLayout)
    requires
        inlines@.len() == facts@.len(),
    ensures
        layout@ == inner_leaf(t, inlines, facts, widgets, style).layout(
            0,
            inlines@.len() as usize,
        ),
        layout@.source_at.len() == layout@.text.len() + 1,
{
    let state = RevealState::hidden();
    let hosts = ChromeHosts::none();
    let leaf = LeafInput {
        inlines,
        facts,
        widgets,
        def_chrome: &None,
        block_range: 0..byte_len(t),
        source: t,
        style,
        state: &state,
        hosts: &hosts,
    };
    build_leaf_layout_inlines(&leaf, 0, inlines.len())
}

/// The inner Markdown paints something other than white space.
pub open spec fn inner_shows(
    t: &str,
    inlines: &Vec<Inline>,
    facts: &Vec<InlineFacts>,
    widgets: &Vec<TagfilterWidget>,
    style: TextStyle,
) -> bool {
    let view = inner_leaf(t, inlines, facts, widgets, style).layout(0, inlines@.len() as usize);
    inlines@.len() > 0 && text::trimmed(decode_utf8(view.text)).len() > 0
}

/// `out` holds the inlines that projected text is painted from: its inner
/// Markdown `inlines`, or the text itself where that paints nothing, split
/// where the phrasing changes.
pub open spec fn is_painted(
    out: Seq<Inline>,
    t: &str,
    inlines: &Vec<Inline>,
    facts: &Vec<InlineFacts>,
    widgets: &Vec<TagfilterWidget>,
    paints: Seq<HtmlPaintRun>,
    style: TextStyle,
) -> bool {
    if inner_shows(t, inlines, facts, widgets, style) || t@.len() == 0 {
        is_split(out, inlines@, paints)
    } else {
        exists|run: Inline| #[trigger] is_plain_run(run, t@) && is_split(out, seq![run], paints)
    }
}

fn copied(inlines: &Vec<Inline>) -> (out: Vec<Inline>)
    ensures
        out@ == inlines@,
{
    let mut out: Vec<Inline> = Vec::new();
    let mut k: usize = 0;
    while k < inlines.len()
        invariant
            k <= inlines.len(),
            out@ =~= inlines@.take(k as int),
        decreases inlines.len() - k,
    {
        out.push(inlines[k].clone());
        k = k + 1;
    }
    assert(inlines@.take(k as int) =~= inlines@);
    out
}

/// The inlines that projected text is painted from: its inner Markdown, or
/// the text itself where that paints nothing, split where the phrasing
/// changes.
pub fn html_painted_inlines(
    t: &str,
    inlines: &Vec<Inline>,
    facts: &Vec<InlineFacts>,
    widgets: &Vec<TagfilterWidget>,
    paints: &Vec<HtmlPaintRun>,
    style: TextStyle,
) -> (out: Vec<Inline>)
    requires
        inlines@.len() == facts@.len(),
    ensures
        is_painted(out@, t, inlines, facts, widgets, paints@, style),
{
    let mut shows = false;
    if inlines.len() > 0 {
        let probe = inner_layout(t, inlines, facts, widgets, style);
        proof {
            encode_utf8_decode_utf8(probe.text@);
        }
        shows = !probe.text.as_str().trim().is_empty();
    }
    assert(shows == inner_shows(t, inlines, facts, widgets, style));
    if !shows && !t.is_empty() {
        let run = plain_text_run(t);
        let ghost the_run = run;
        let mut alone: Vec<Inline> = Vec::new();
        alone.push(run);
        assert(alone@ =~= seq![the_run]);
        let out = split_inlines_by_html_paints(alone, paints);
        assert(is_plain_run(the_run, t@) && is_split(out@, seq![the_run], paints@));
        return out;
    }
    split_inlines_by_html_paints(copied(inlines), paints)
}

/// Inlines of projected text, with what the parser answers about them.
pub struct HtmlInlines<'a> {
    pub inlines: &'a Vec<Inline>,
    /// One entry per inline.
    pub facts: &'a Vec<InlineFacts>,
    pub widgets: &'a Vec<TagfilterWidget>,
}

impl<'a> HtmlInlines<'a> {
    /// There is one fact per inline.
    pub open spec fn ok(&self) -> bool {
        self.inlines@.len() == self.facts@.len()
    }
}

/// Projected text of an HTML block with its inner Markdown.
pub struct HtmlFlow<'a> {
    pub text: &'a str,
    /// Offset in the HTML literal of each offset of `text`.
    pub source_at: &'a Vec<usize>,
    pub paints: &'a Vec<HtmlPaintRun>,
    /// The text, parsed as a document of its own.
    pub tree: &'a RichTree,
    /// The inner Markdown of the text.
    pub parsed: HtmlInlines<'a>,
    /// The inlines that are painted.
    pub painted: HtmlInlines<'a>,
}

impl<'a> HtmlFlow<'a> {
    /// This is the flow that `html` projects to: its text, offsets and
    /// phrasing, with the inner Markdown of that text and the inlines that are
    /// painted from it.
    pub open spec fn is_of(&self, html: HtmlBlockFacts, style: TextStyle) -> bool {
        &&& html.visual matches HtmlBlockVisual::Flow { text, source_at, runs }
        &&& self.text@ == text@
        &&& self.source_at@ == source_at@
        &&& self.paints@ == runs@
        &&& self.parsed.ok()
        &&& is_inner(self.parsed.inlines@, html.preformatted, self.text@, *self.tree)
        &&& self.painted.ok()
        &&& is_painted(
            self.painted.inlines@,
            self.text,
            self.parsed.inlines,
            self.parsed.facts,
            self.parsed.widgets,
            self.paints@,
            style,
        )
    }

    /// Layout of the projected text alone.
    pub open spec fn plain_view(&self, html: HtmlBlockFacts, start: usize, style: TextStyle) -> LeafView {
        flow_view(
            encode_utf8(self.text@),
            self.source_at@,
            self.paints@,
            html.literal_map@,
            start,
            style,
        )
    }

    /// Layout of the inner Markdown, over offsets of the projected text.
    pub open spec fn inner_view(&self, style: TextStyle) -> LeafView {
        inner_leaf(
            self.text,
            self.painted.inlines,
            self.painted.facts,
            self.painted.widgets,
            style,
        ).layout(0, self.painted.inlines@.len() as usize)
    }

    /// Layout of the block: its inner Markdown mapped to the document and in
    /// its CSS colors, or the projected text alone where the colors differ or
    /// the inner Markdown paints nothing; with its wrapper tags when revealed.
    pub open spec fn layout(
        &self,
        block: Block,
        html: HtmlBlockFacts,
        style: TextStyle,
        state: RevealState,
    ) -> LeafView {
        let start = doc_offset(html.literal_map@, 0, block.source_range.start);
        let inner = self.inner_view(style);
        let body = if css_mixed(self.paints@) || (inner.text.len() == 0 && self.text@.len() > 0) {
            self.plain_view(html, start, style)
        } else {
            tinted_view(
                remapped_view(
                    inner,
                    self.source_at@,
                    html.literal_map@,
                    start,
                    encode_utf8(self.text@).len() as usize,
                ),
                self.paints@,
            )
        };
        with_wrapper(body, block, html, state)
    }
}

/// Layout of a projected HTML block. Tags are stripped unless revealed; clicks
/// on painted text never land on a quote or list prefix.
pub fn build_html_block_layout(
    flow: &HtmlFlow,
    block: &Block,
    html: &HtmlBlockFacts,
    style: TextStyle,
    state: &RevealState,
) -> (layout: LeafLayout)
    requires
        flow.is_of(*html, style),
        tags_fit(literal_of(*block), *block, *html),
    ensures
        layout@ == flow.layout(*block, *html, style, *state),
        layout@.mapped(),
{
    let start: usize = doc_offset_for_html_literal(
        &html.literal_map,
        0,
        block.source_range.start,
    );
    proof {
        text::lemma_encode_empty(flow.text@);
    }
    if !html_css_is_mixed(flow.paints) {
        let painted = &flow.painted;
        let mut layout = inner_layout(
            flow.text,
            painted.inlines,
            painted.facts,
            painted.widgets,
            style,
        );
        proof {
            text::lemma_encode_empty(layout.text@);
        }
        if !layout.text.as_str().is_empty() || flow.text.is_empty() {
            remap_html_sources(
                &mut layout,
                flow.source_at,
                &html.literal_map,
                start,
                byte_len(flow.text),
            );
            tint_layout_with_html_css(&mut layout, flow.paints);
            paint_html_block_wrapper_tags(&mut layout, block, html, state);
            return layout;
        }
    }
    let mut layout = html_flow_layout(
        flow.text,
        flow.source_at,
        flow.paints,
        &html.literal_map,
        start,
        style,
    );
    paint_html_block_wrapper_tags(&mut layout, block, html, state);
    layout
}

/// Layout of any HTML block.
pub open spec fn html_view(
    block: Block,
    facts: BlockFacts,
    b: Seq<u8>,
    flow: HtmlFlow,
    style: TextStyle,
    state: RevealState,
) -> LeafView {
    if block.kind is Opaque {
        match facts.html.visual {
            HtmlBlockVisual::Flow { .. } => flow.layout(block, facts.html, style, state),
            HtmlBlockVisual::Hidden => hidden_view(block, facts.html, style, state),
            HtmlBlockVisual::ThematicBreak => block_layout::break_view(
                block,
                facts,
                b,
                state,
                ChromeHosts::nothing(),
            ),
            HtmlBlockVisual::Image { .. } => block_layout::empty_view(block.source_range.start),
        }
    } else {
        block_layout::empty_view(block.source_range.start)
    }
}

/// Layout of any HTML block, including hidden comments and empty wrappers that
/// show their source when revealed. Only a block that projects to flowing text
/// is laid out from `flow`.
pub fn layout_html_block(
    block: &Block,
    facts: &BlockFacts,
    source: &str,
    flow: &HtmlFlow,
    style: TextStyle,
    state: &RevealState,
) -> (layout: LeafLayout)
    requires
        block.kind is Opaque && facts.html.visual is Flow ==> flow.is_of(facts.html, style),
        tags_fit(literal_of(*block), *block, facts.html),
    ensures
        layout@ == html_view(*block, *facts, encode_utf8(source@), *flow, style, *state),
        layout@.mapped(),
{
    match &block.kind {
        BlockKind::Opaque { .. } => {},
        _ => {
            return empty_layout(block.source_range.start);
        },
    }
    match &facts.html.visual {
        HtmlBlockVisual::Flow { .. } => build_html_block_layout(
            flow,
            block,
            &facts.html,
            style,
            state,
        ),
        HtmlBlockVisual::Hidden => build_hidden_html_block_layout(
            block,
            &facts.html,
            style,
            state,
        ),
        HtmlBlockVisual::ThematicBreak => {
            let hosts = ChromeHosts::none();
            build_thematic_break_layout(block, facts, source, state, &hosts)
        },
        HtmlBlockVisual::Image { .. } => empty_layout(block.source_range.start),
    }
}

/// An offset of HTML leads where its map says, one behind the map where its last
/// entry does, and without a map to the fallback.
pub proof fn html_offsets_lead_to_the_document(map: Seq<usize>, at: usize, fallback: usize)
    ensures
        at < map.len() ==> doc_offset(map, at, fallback) == map[at as int],
        map.len() > 0 && at >= map.len() ==> doc_offset(map, at, fallback) == map[map.len() - 1],
        map.len() == 0 ==> doc_offset(map, at, fallback) == fallback,
{
}

/// The colors of HTML are mixed where two runs differ in color or background.
pub proof fn colors_are_mixed_where_two_differ(paints: Seq<HtmlPaintRun>, i: int, j: int)
    requires
        0 <= i < j < paints.len(),
    ensures
        paints[i].paint.color != paints[j].paint.color || paints[i].paint.background
            != paints[j].paint.background ==> css_mixed(paints),
        css_mixed(paints) ==> exists|k: int|
            0 < k < paints.len() && ((#[trigger] paints[k]).paint.color != paints[0].paint.color
                || paints[k].paint.background != paints[0].paint.background),
{
    if i > 0 && !css_mixed(paints) {
        assert(paints[i].paint.color == paints[0].paint.color);
        assert(paints[j].paint.color == paints[0].paint.color);
    }
}

/// Tinting gives every run the color and the background of the HTML, where it
/// has one, and leaves all else.
pub proof fn tinting_changes_colors_alone(view: LeafView, paints: Seq<HtmlPaintRun>, k: int)
    requires
        0 <= k < view.runs.len(),
    ensures
        ({
            let out = tinted_view(view, paints);
            let run = out.runs[k];
            let old_style = view.runs[k].style;
            &&& out.text == view.text && out.source_at == view.source_at && out.block_start
                == view.block_start && out.runs.len() == view.runs.len()
            &&& run.len == view.runs[k].len
            &&& run.style.weight == old_style.weight && run.style.italic == old_style.italic
                && run.style.strike == old_style.strike && run.style.code_font
                == old_style.code_font && run.style.underline == old_style.underline
            &&& paints.len() == 0 ==> run == view.runs[k]
            &&& paints.len() > 0 ==> {
                &&& paints[0].paint.color matches Some(c) ==> run.style.color == RunColor::Css(c)
                &&& paints[0].paint.color is None ==> run.style.color == old_style.color
                &&& paints[0].paint.background matches Some(c) ==> run.style.background
                    == RunBackground::Css(c)
                &&& paints[0].paint.background is None ==> run.style.background
                    == old_style.background
            }
        }),
{
}

/// Projected HTML shows its text; each of its runs is as long as it says and
/// styled as its phrasing asks, where the runs are as long as the text. It maps
/// through both maps to the document.
pub proof fn html_flow_shows_its_text(
    t: Seq<u8>,
    source_at: Seq<usize>,
    paints: Seq<HtmlPaintRun>,
    literal_map: Seq<usize>,
    block_start: usize,
    style: TextStyle,
    k: int,
)
    requires
        t.len() > 0,
    ensures
        ({
            let view = flow_view(t, source_at, paints, literal_map, block_start, style);
            &&& view.text == t
            &&& view.block_start == block_start
            &&& 0 <= k <= t.len() && k < source_at.len() ==> view.source_at[k] == doc_offset(
                literal_map,
                source_at[k],
                block_start,
            )
            &&& 0 <= k < paints.len() && view.runs.len() == paints.len() && paints.len() > 1
                ==> view.runs[k].len == paints[k].len && view.runs[k].style == RunStyle::styled(
                style,
                MarkSet::none(),
                false,
                paints[k].paint@,
            )
        }),
{
}

/// Text that was laid out by itself is led back to the document: its offsets to
/// those of the HTML, and these to the document.
pub proof fn inner_text_leads_to_the_document(
    view: LeafView,
    html_at: Seq<usize>,
    literal_map: Seq<usize>,
    block_start: usize,
    inner_len: usize,
    k: int,
)
    requires
        0 <= k < view.source_at.len(),
        view.source_at[k] <= inner_len,
        view.source_at[k] < html_at.len(),
        html_at[view.source_at[k] as int] < literal_map.len(),
    ensures
        ({
            let out = remapped_view(view, html_at, literal_map, block_start, inner_len);
            &&& out.source_at[k] == literal_map[html_at[view.source_at[k] as int] as int]
            &&& out.text == view.text && out.runs == view.runs
            &&& out.block_start == block_start && out.source_at.len() == view.source_at.len()
        }),
{
}

/// The wrapper tags of an HTML block are shown around its text where it is met,
/// and not otherwise.
pub proof fn met_html_shows_its_wrapper(
    view: LeafView,
    block: Block,
    html: HtmlBlockFacts,
    state: RevealState,
    open: Range<usize>,
    close: Range<usize>,
)
    requires
        block.kind is Opaque,
        html.wrapper == Some((open, Some(close))),
        text::sliceable(literal_of(block), open),
        text::sliceable(literal_of(block), close),
    ensures
        state.meets(block.source_range) ==> with_wrapper(view, block, html, state).text
            == literal_of(block).subrange(open.start as int, open.end as int) + view.text
            + literal_of(block).subrange(close.start as int, close.end as int),
        !state.meets(block.source_range) ==> with_wrapper(view, block, html, state) == view,
{
    let b = literal_of(block);
    let a = b.subrange(open.start as int, open.end as int);
    let z = b.subrange(close.start as int, close.end as int);
    assert(a + view.text =~= a + view.text);
    if a.len() == 0 {
        assert(a + view.text =~= view.text);
    }
    if z.len() == 0 {
        assert(a + view.text + z =~= a + view.text);
    }
}

/// HTML without a wrapper shows none.
pub proof fn bare_html_has_no_wrapper(
    view: LeafView,
    block: Block,
    html: HtmlBlockFacts,
    state: RevealState,
)
    ensures
        html.wrapper is None ==> with_wrapper(view, block, html, state) == view,
        !(block.kind is Opaque) ==> with_wrapper(view, block, html, state) == view,
{
}

/// HTML that is not shown has no text until it is met; then it shows its source
/// where it may, and its wrapper otherwise.
pub proof fn hidden_html_shows_its_source_when_met(
    block: Block,
    html: HtmlBlockFacts,
    style: TextStyle,
    state: RevealState,
)
    requires
        block.kind is Opaque,
    ensures
        ({
            let view = hidden_view(block, html, style, state);
            let met = state.meets(block.source_range);
            &&& !met ==> view.text.len() == 0 && view.source_at == seq![block.source_range.start]
            &&& met && html.source_chrome ==> view.text == encode_utf8(block.kind->Opaque_raw@)
                && view.runs[0].style.color is Delimiter
            &&& met && !html.source_chrome && html.dangerous ==> view.text.len() == 0
            &&& met && !html.source_chrome && !html.dangerous ==> view == with_wrapper(
                block_layout::empty_view(block.source_range.start),
                block,
                html,
                state,
            )
            &&& view.block_start == block.source_range.start
        }),
{
}

/// The marks of a phrasing are its own: bold as bold, and so on; `mark` is a
/// highlight.
pub proof fn phrasing_becomes_marks(p: HtmlPaintView, q: HtmlPaint)
    ensures
        marks_of(p).bold == p.bold,
        marks_of(p).italic == p.italic,
        marks_of(p).strike == p.strike,
        marks_of(p).code == p.code,
        marks_of(p).highlight == p.mark,
        marks_of(p).sup == p.sup,
        marks_of(p).sub == p.sub,
        q.href is None ==> link_of(q) is None,
        q.href is Some ==> link_of(q) is Some && (link_of(q)->0).url == q.href->0
            && !(link_of(q)->0).autolink && !(link_of(q)->0).angle,
{
}

/// The length of `paints` up to `n`.
pub open spec fn painted_len(paints: Seq<HtmlPaintRun>, n: int) -> int
    decreases n,
{
    if n <= 0 {
        0
    } else {
        painted_len(paints, n - 1) + paints[n - 1].len
    }
}

proof fn lemma_painted_len(paints: Seq<HtmlPaintRun>, n: int)
    requires
        1 <= n <= paints.len(),
    ensures
        painted_len(paints, n) == paints[0].len + painted_len(paints.drop_first(), n - 1),
    decreases n,
{
    if n > 1 {
        lemma_painted_len(paints, n - 1);
        assert(paints.drop_first()[n - 2] == paints[n - 1]);
    } else {
        assert(painted_len(paints, 0) == 0);
    }
}

/// A byte is painted as the run that it lies in, counted from the start; one
/// behind all runs is plain.
pub proof fn bytes_are_painted_as_their_run(paints: Seq<HtmlPaintRun>, off: int, k: int)
    requires
        0 <= off,
    ensures
        0 <= k < paints.len() && painted_len(paints, k) <= off < painted_len(paints, k + 1)
            ==> covering(paints, off) == Some(paints[k].paint) && paint_at(paints, off)
            == paints[k].paint@,
        off >= painted_len(paints, paints.len() as int) ==> covering(paints, off) is None,
    decreases paints.len(),
{
    if paints.len() > 0 {
        let rest = paints.drop_first();
        lemma_painted_len(paints, paints.len() as int);
        if off >= paints[0].len {
            bytes_are_painted_as_their_run(rest, off - paints[0].len, k - 1);
            if 0 < k < paints.len() {
                lemma_painted_len(paints, k);
                lemma_painted_len(paints, k + 1);
                assert(rest[k - 1] == paints[k]);
            }
        } else {
            lemma_len_grows(paints, 1, paints.len() as int);
            assert(painted_len(paints, 1) == painted_len(paints, 0) + paints[0].len);
            assert(painted_len(paints, 0) == 0);
            if 0 < k < paints.len() {
                lemma_len_grows(paints, 1, k);
            }
        }
    }
}

proof fn lemma_len_grows(paints: Seq<HtmlPaintRun>, i: int, j: int)
    requires
        i <= j,
    ensures
        painted_len(paints, i) <= painted_len(paints, j),
    decreases j - i,
{
    if i < j {
        lemma_len_grows(paints, i, j - 1);
    }
}

/// A stretch of a run ends with the run, or where its painting changes.
pub proof fn stretches_end_where_the_painting_changes(
    t: Seq<u8>,
    range: Range<usize>,
    paints: Seq<HtmlPaintRun>,
    html: HtmlPaintView,
    from: int,
)
    requires
        0 <= from <= t.len(),
    ensures
        ({
            let end = chunk_end(t, range, paints, html, from);
            &&& from <= end
            &&& end >= t.len() || paint_at(paints, run_offset(range, t.len() as int, end)) != html
            &&& from < t.len() && paint_at(paints, run_offset(range, t.len() as int, from)) == html
                ==> end > from
        }),
    decreases t.len() - from,
{
    if from < t.len() && paint_at(paints, run_offset(range, t.len() as int, from)) == html {
        let next = char_end(t, from);
        assert(from < next <= t.len());
        stretches_end_where_the_painting_changes(t, range, paints, html, next);
    }
}

/// A part of a run has the text between its ends, the marks of the run and of
/// its painting, and the link of the run, or else that of its painting.
pub proof fn parts_carry_run_and_painting(
    inline: Inline,
    paints: Seq<HtmlPaintRun>,
    start: int,
    end: int,
)
    requires
        inline is Run,
    ensures
        ({
            let t = encode_utf8(inline->Run_text@);
            let from = run_offset(inline.span(), t.len() as int, start);
            let p = part(inline, paints, start, end);
            let m = inline->Run_marks;
            let q = paint_at(paints, from);
            &&& p is Part
            &&& p->text == t.subrange(start, end)
            &&& p->marks.bold == (m.bold || q.bold)
            &&& p->marks.italic == (m.italic || q.italic)
            &&& p->marks.strike == (m.strike || q.strike)
            &&& p->marks.code == (m.code || q.code)
            &&& p->marks.highlight == (m.highlight || q.mark)
            &&& p->marks.sup == (m.sup || q.sup)
            &&& p->marks.sub == (m.sub || q.sub)
            &&& inline->Run_link is Some ==> p->link == inline->Run_link
            &&& inline->Run_link is None ==> p->link == link_at(paints, from)
            &&& p->fidelity == inline->Run_fidelity
            &&& 0 <= from <= usize::MAX ==> p->source_range.start == from
        }),
{
}

/// Inlines that are no runs come out as they are, and nothing changes without
/// phrasing.
pub proof fn other_inlines_are_not_split(
    out: Seq<Inline>,
    inlines: Seq<Inline>,
    paints: Seq<HtmlPaintRun>,
    inline: Inline,
)
    ensures
        !(inline is Run) ==> items_of(inline, paints) == seq![SplitItem::Kept(inline)],
        paints.len() == 0 ==> (is_split(out, inlines, paints) <==> out == inlines),
{
}

/// The inner text of an HTML block: its own text where it is preformatted, and
/// else all inlines that it parses to.
pub proof fn inner_text_is_parsed_or_kept(
    out: Seq<Inline>,
    preformatted: bool,
    t: Seq<char>,
    tree: RichTree,
)
    requires
        is_inner(out, preformatted, t, tree),
    ensures
        !preformatted ==> out == walk::flattened(tree.blocks@, Seq::empty()),
        preformatted && t.len() == 0 ==> out.len() == 0,
        preformatted && t.len() > 0 ==> out.len() == 1 && out[0] is Run && out[0]->Run_text@ == t
            && out[0].span().start == 0 && out[0].span().end == encode_utf8(t).len() as usize
            && out[0]->Run_marks == MarkSet::none() && out[0]->Run_link is None,
{
}

/// An HTML block that is not met shows what its visual says: its text, laid out
/// as Markdown unless its colors are mixed or nothing would show; nothing where
/// it is hidden or a picture.
pub proof fn html_blocks_show_their_visual(
    block: Block,
    facts: BlockFacts,
    b: Seq<u8>,
    flow: HtmlFlow,
    style: TextStyle,
    state: RevealState,
)
    requires
        block.kind is Opaque,
        !state.meets(block.source_range),
    ensures
        ({
            let view = html_view(block, facts, b, flow, style, state);
            let inner = flow.inner_view(style);
            let plain = css_mixed(flow.paints@) || (inner.text.len() == 0 && flow.text@.len() > 0);
            &&& facts.html.visual is Flow && plain ==> view.text == encode_utf8(flow.text@)
            &&& facts.html.visual is Flow && !plain ==> view.text == inner.text
            &&& facts.html.visual is Hidden ==> view.text.len() == 0
            &&& facts.html.visual is Image ==> view.text.len() == 0 && view.source_at == seq![
                block.source_range.start,
            ]
        }),
{
}

} // verus!
