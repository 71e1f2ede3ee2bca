//! Painted text of a leaf block: the pieces that each inline paints, in order,
//! with the chrome that the caret reveals.

use std::ops::Range;

use vstd::prelude::*;
use vstd::string::*;
use vstd::utf8::*;

use crate::caret::{ChromeHosts, RevealState};
use crate::html_tags;
use crate::html_tags::{
    collect_html_groups, html_chrome_range_for, html_inner_revealed, HtmlPaintGroups,
    HtmlPaintPair, HtmlSoloChrome,
};
use crate::layout;
use crate::layout::{LeafBuilder, LeafLayout, LeafView, Partial, Piece};
use crate::links;
use crate::links::{collect_link_groups, revealed_link_sides, LinkPaintGroup, LinkPaintKey};
use crate::prefix;
use crate::prefix::revealed_prefix_range;
use crate::spans;
use crate::spans::merge;
use crate::style::{
    math_delim_run, math_style_run, merge_html_paint, plain_run, raw_html_run, style_run,
    wiki_delim_run, HtmlPaint, HtmlPaintView, MarkSet, RunStyle, RunUnderline, TextStyle,
};
use crate::text;
use crate::text::{at_boundary, byte_len, dup, get, same, slice};
use crate::tree::{
    Inline, InlineFacts, InlineHtmlAction, LinkReferenceDefChrome, TagfilterWidget,
};
use crate::wrap;
use crate::wrap::{collect_wrap_groups, revealed_wrap_lists, WrapGroup};

verus! {

/// A leaf block and everything that decides what it paints.
pub struct LeafInput<'a> {
    pub inlines: &'a Vec<Inline>,
    /// One entry per inline.
    pub facts: &'a Vec<InlineFacts>,
    pub widgets: &'a Vec<TagfilterWidget>,
    pub def_chrome: &'a Option<LinkReferenceDefChrome>,
    pub block_range: Range<usize>,
    pub source: &'a str,
    pub style: TextStyle,
    pub state: &'a RevealState,
    pub hosts: &'a ChromeHosts,
}

/// Chrome groups of a leaf.
pub struct LeafGroups {
    pub wraps: Vec<WrapGroup>,
    pub links: Vec<LinkPaintGroup>,
    pub html: HtmlPaintGroups,
}

/// `bytes`, painted for `src`.
pub open spec fn one(bytes: Seq<u8>, src: Range<usize>, style: RunStyle) -> Seq<Piece> {
    seq![Piece { bytes, src, style }]
}

/// The source bytes in `r`, when `r` selects whole characters.
pub open spec fn source_piece(b: Seq<u8>, r: Range<usize>, style: RunStyle) -> Seq<Piece> {
    match text::slice_of(b, r) {
        Some(s) => one(s, r, style),
        None => Seq::empty(),
    }
}

/// The source bytes in each of `ranges`.
pub open spec fn source_pieces(b: Seq<u8>, ranges: Seq<Range<usize>>, style: RunStyle) -> Seq<Piece>
    decreases ranges.len(),
{
    if ranges.len() == 0 {
        Seq::empty()
    } else {
        source_pieces(b, ranges.drop_last(), style) + source_piece(b, ranges.last(), style)
    }
}

/// The non-empty source bytes in `r`, or else `fallback`.
pub open spec fn source_or(b: Seq<u8>, r: Range<usize>, fallback: Seq<u8>) -> Seq<u8> {
    match text::slice_of(b, r) {
        Some(s) => if s.len() > 0 {
            s
        } else {
            fallback
        },
        None => fallback,
    }
}

/// Source bytes of a painted break: its own, or one byte when it has none.
pub open spec fn break_src(range: Range<usize>) -> Range<usize> {
    if range.end > range.start {
        range
    } else {
        range.start..range.start.saturating_add(1)
    }
}

/// The text of a run under HTML superscript or subscript.
pub open spec fn html_text(t: Seq<u8>, facts: InlineFacts, paint: HtmlPaintView) -> Seq<u8> {
    if paint.sup && !paint.sub {
        encode_utf8(facts.superscript@)
    } else if paint.sub && !paint.sup {
        encode_utf8(facts.subscript@)
    } else {
        t
    }
}

/// Width of the `$` / `$$` around a formula.
pub open spec fn dollar_width(display: bool) -> usize {
    if display {
        2
    } else {
        1
    }
}

/// `raw` with its first and last `w` bytes as delimiters.
pub open spec fn framed(
    raw: Seq<u8>,
    range: Range<usize>,
    w: usize,
    delim: RunStyle,
    inner: RunStyle,
) -> Seq<Piece> {
    one(raw.take(w as int), (range.start..range.start.saturating_add(w)), delim) + one(
        raw.subrange(w as int, raw.len() - w),
        (range.start.saturating_add(w)..range.end.saturating_sub(w)),
        inner,
    ) + one(
        raw.skip(raw.len() - w),
        (range.end.saturating_sub(w)..range.end),
        delim,
    )
}

/// `raw` starts and ends with `w` bytes that can be cut off.
pub open spec fn frameable(raw: Seq<u8>, w: usize) -> bool {
    raw.len() >= 2 * w && text::boundary(raw, w as int) && text::boundary(raw, raw.len() - w)
}

/// `raw` is written `[[…]]`.
pub open spec fn bracketed(raw: Seq<u8>) -> bool {
    &&& raw.len() >= 4
    &&& raw[0] == 0x5b && raw[1] == 0x5b
    &&& raw[raw.len() - 2] == 0x5d && raw[raw.len() - 1] == 0x5d
}

/// The first of `groups` with this key.
pub open spec fn find_link(groups: Seq<LinkPaintGroup>, key: LinkPaintKey) -> Option<LinkPaintGroup>
    decreases groups.len(),
{
    if groups.len() == 0 {
        None
    } else if groups[0].key == key {
        Some(groups[0])
    } else {
        find_link(groups.drop_first(), key)
    }
}

/// Where the alternative text of image `i` stands in source: between its
/// brackets, or else the whole node.
pub open spec fn alt_range(groups: Seq<LinkPaintGroup>, i: usize, range: Range<usize>) -> Range<
    usize,
> {
    match find_link(groups, LinkPaintKey::Image(i)) {
        Some(g) => if g.chrome.open.end < g.chrome.close.start {
            g.chrome.open.end..g.chrome.close.start
        } else {
            range
        },
        None => range,
    }
}

/// The first of `widgets`, from `k` on, that holds `at`.
pub open spec fn widget_at(widgets: Seq<TagfilterWidget>, at: usize, k: int) -> Option<int>
    decreases widgets.len() - k,
{
    if k < 0 || k >= widgets.len() {
        None
    } else if widgets[k].range.start <= at < widgets[k].range.end {
        Some(k)
    } else {
        widget_at(widgets, at, k + 1)
    }
}

impl<'a> LeafInput<'a> {
    /// There is one fact per inline.
    pub open spec fn ok(&self) -> bool {
        self.inlines@.len() == self.facts@.len()
    }

    /// The source bytes.
    pub open spec fn bytes(&self) -> Seq<u8> {
        encode_utf8(self.source@)
    }

    /// The marked spans of the leaf.
    pub open spec fn wraps(&self) -> Seq<WrapGroup> {
        wrap::wrap_groups(self.bytes(), self.inlines@, self.facts@, self.block_range)
    }

    /// The links of the leaf.
    pub open spec fn links(&self) -> Seq<LinkPaintGroup> {
        links::link_groups(self.bytes(), self.inlines@, self.facts@)
    }

    /// The tag pairs of the leaf.
    pub open spec fn pairs(&self) -> Seq<HtmlPaintPair> {
        html_tags::scan(self.inlines@, self.facts@, self.inlines@.len() as int).all_pairs()
    }

    /// The single tags of the leaf.
    pub open spec fn solos(&self) -> Seq<HtmlSoloChrome> {
        html_tags::scan(self.inlines@, self.facts@, self.inlines@.len() as int).solos
    }

    /// Delimiters painted before inline `i`.
    pub open spec fn wrap_opens(&self, i: int) -> Seq<Range<usize>> {
        wrap::wrap_opens(self.wraps(), self.inlines@, i, *self.state)
    }

    /// Delimiters painted after inline `i`.
    pub open spec fn wrap_closes(&self, i: int) -> Seq<Range<usize>> {
        wrap::wrap_closes(self.wraps(), self.inlines@, i, *self.state)
    }

    /// Link chrome painted before inline `i`.
    pub open spec fn link_opens(&self, i: int) -> Seq<Range<usize>> {
        links::link_opens(self.links(), self.inlines@, i, *self.state)
    }

    /// Link chrome painted after inline `i`.
    pub open spec fn link_closes(&self, i: int) -> Seq<Range<usize>> {
        links::link_closes(self.links(), self.inlines@, i, *self.state)
    }

    /// Delimiters and link chrome painted before inline `i`.
    pub open spec fn opens(&self, i: int) -> Seq<Piece> {
        source_pieces(
            self.bytes(),
            spans::merged(self.wrap_opens(i), self.link_opens(i)),
            RunStyle::delim(),
        )
    }

    /// Delimiters and link chrome painted after inline `i`.
    pub open spec fn closes(&self, i: int) -> Seq<Piece> {
        source_pieces(
            self.bytes(),
            spans::merged(self.wrap_closes(i), self.link_closes(i)),
            RunStyle::delim(),
        )
    }

    /// The definition chrome around the label at `range`.
    pub open spec fn def_at(&self, range: Range<usize>) -> Option<LinkReferenceDefChrome> {
        match *self.def_chrome {
            Some(c) => if c.label == range {
                Some(c)
            } else {
                None
            },
            None => None,
        }
    }

    /// The `[` before the label at `range` of a revealed definition.
    pub open spec fn def_open(&self, range: Range<usize>) -> Seq<Piece> {
        match self.def_at(range) {
            Some(c) => if self.state.meets(c.outer) {
                source_piece(self.bytes(), c.open, RunStyle::delim())
            } else {
                Seq::empty()
            },
            None => Seq::empty(),
        }
    }

    /// The `]` after the label at `range` of a revealed definition, and the
    /// colon of any definition.
    pub open spec fn def_close(&self, range: Range<usize>) -> Seq<Piece> {
        match self.def_at(range) {
            Some(c) => (if self.state.meets(c.outer) {
                source_piece(self.bytes(), c.close, RunStyle::delim())
            } else {
                Seq::empty()
            }) + source_piece(self.bytes(), c.colon, RunStyle::delim()),
            None => Seq::empty(),
        }
    }

    /// The code span `i` shows its padding.
    pub open spec fn pad_shown(&self, i: int, range: Range<usize>, marks: MarkSet) -> bool {
        marks.code && self.facts@[i].code_visible != range && (self.state.meets(range)
            || self.wrap_opens(i).len() > 0 || self.wrap_closes(i).len() > 0)
    }

    /// The source form of the run at `range`.
    pub open spec fn written(&self, raw: Option<String>, range: Range<usize>) -> Option<Seq<u8>> {
        match raw {
            Some(r) => Some(encode_utf8(r@)),
            None => text::slice_of(self.bytes(), range),
        }
    }

    /// The text that run `i` paints: the source of a revealed escape, a padded
    /// code span as written, else its text, raised or lowered unless the tags
    /// around it are revealed.
    pub open spec fn run_text(
        &self,
        i: int,
        t: Seq<u8>,
        raw: Option<String>,
        range: Range<usize>,
        marks: MarkSet,
    ) -> Seq<u8> {
        let f = self.facts@[i];
        let written = self.written(raw, range);
        if !marks.code && written is Some && f.decoded && self.state.meets(range) {
            written->0
        } else if self.pad_shown(i, range, marks) {
            match text::slice_of(self.bytes(), range) {
                Some(s) => s,
                None => t,
            }
        } else if html_tags::inner_shown(self.pairs(), range, *self.state) {
            t
        } else {
            html_text(t, f, f.paint@.merged(marks))
        }
    }

    /// What run `i` paints.
    pub open spec fn run_pieces(
        &self,
        i: int,
        t: Seq<u8>,
        raw: Option<String>,
        range: Range<usize>,
        marks: MarkSet,
        linked: bool,
    ) -> Seq<Piece> {
        let f = self.facts@[i];
        let src = if marks.code && !self.pad_shown(i, range, marks) {
            f.code_visible
        } else {
            range
        };
        let body = one(
            self.run_text(i, t, raw, range, marks),
            src,
            RunStyle::styled(self.style, marks, linked, f.paint@.merged(marks)),
        );
        self.def_open(range) + self.opens(i) + self.body_pieces(i, body) + self.closes(i)
            + self.def_close(range)
    }

    /// The body of run `i`, in the brackets of a revealed `<url>` autolink.
    pub open spec fn body_pieces(&self, i: int, body: Seq<Piece>) -> Seq<Piece> {
        let f = self.facts@[i];
        let outer = f.angle->0;
        if f.angle is Some && self.state.meets(outer) {
            one(
                encode_utf8("<"@),
                (outer.start..outer.start.saturating_add(1)),
                RunStyle::delim(),
            ) + body + one(
                encode_utf8(">"@),
                (outer.end.saturating_sub(1)..outer.end),
                RunStyle::delim(),
            )
        } else {
            body
        }
    }

    /// What image `i` paints as text: its chrome and its alternative text when
    /// revealed, nothing otherwise.
    pub open spec fn image_pieces(
        &self,
        i: int,
        alt: Seq<u8>,
        range: Range<usize>,
        marks: MarkSet,
    ) -> Seq<Piece> {
        let inner = alt_range(self.links(), i as usize, range);
        self.opens(i) + (if self.state.meets(range) {
            one(
                source_or(self.bytes(), inner, alt),
                inner,
                RunStyle::styled(self.style, marks, true, self.facts@[i].paint@.merged(marks)),
            )
        } else {
            Seq::empty()
        }) + self.closes(i)
    }

    /// The block prefix shown after break `i`.
    pub open spec fn prefix_after(&self, i: int) -> Option<Range<usize>> {
        prefix::shown_prefix(self.bytes(), self.facts@[i].prefix, *self.state, *self.hosts)
    }

    /// What soft break `i` paints: a space, or a line break when the prefix of
    /// the next line is shown.
    pub open spec fn soft_break_pieces(&self, i: int, range: Range<usize>) -> Seq<Piece> {
        let style = RunStyle::styled(self.style, MarkSet::none(), false, self.facts@[i].paint@);
        match self.prefix_after(i) {
            Some(p) => one(encode_utf8("\n"@), break_src(range), style) + source_piece(
                self.bytes(),
                p,
                RunStyle::delim(),
            ),
            None => one(encode_utf8(" "@), break_src(range), style),
        }
    }

    /// What hard break `i` paints.
    pub open spec fn hard_break_pieces(&self, i: int, range: Range<usize>) -> Seq<Piece> {
        one(encode_utf8("\n"@), break_src(range), RunStyle::inherit()) + match self.prefix_after(i) {
            Some(p) => source_piece(self.bytes(), p, RunStyle::delim()),
            None => Seq::empty(),
        }
    }

    /// What formula `i` paints: its body, with the dollars when revealed.
    pub open spec fn math_pieces(
        &self,
        i: int,
        literal: Seq<u8>,
        display: bool,
        raw: Seq<u8>,
        range: Range<usize>,
        marks: MarkSet,
    ) -> Seq<Piece> {
        let f = self.facts@[i];
        let style = RunStyle::math(self.style, marks, f.paint@.merged(marks));
        if self.state.meets(range) {
            if frameable(raw, dollar_width(display)) {
                framed(raw, range, dollar_width(display), RunStyle::math_delim(), style)
            } else {
                one(raw, range, style)
            }
        } else {
            one(
                match text::slice_of(self.bytes(), f.visible) {
                    Some(s) => s,
                    None => literal,
                },
                f.visible,
                style,
            )
        }
    }

    /// The part of a hidden wiki link that is visible, relative to its start.
    pub open spec fn wiki_part(&self, i: int, raw: Seq<u8>, range: Range<usize>) -> Range<usize> {
        let vis = self.facts@[i].visible;
        let start = vis.start.saturating_sub(range.start);
        let end = vis.end.saturating_sub(range.start);
        let end = if end <= raw.len() {
            end
        } else {
            raw.len() as usize
        };
        start..(if end >= start {
            end
        } else {
            start
        })
    }

    /// What wiki link `i` paints: its label, with the brackets when revealed.
    pub open spec fn wiki_pieces(
        &self,
        i: int,
        label: Seq<u8>,
        raw: Seq<u8>,
        range: Range<usize>,
        marks: MarkSet,
    ) -> Seq<Piece> {
        let f = self.facts@[i];
        let style = RunStyle::styled(self.style, marks, true, f.paint@.merged(marks));
        if self.state.meets(range) {
            if bracketed(raw) {
                framed(raw, range, 2, RunStyle::delim(), style)
            } else {
                one(raw, range, style)
            }
        } else {
            one(source_or(raw, self.wiki_part(i, raw, range), label), f.visible, style)
        }
    }

    /// What emoji `i` paints: its glyph, or its shortcode when revealed.
    pub open spec fn emoji_pieces(
        &self,
        i: int,
        glyph: Seq<u8>,
        raw: Seq<u8>,
        range: Range<usize>,
        marks: MarkSet,
        linked: bool,
    ) -> Seq<Piece> {
        let f = self.facts@[i];
        let style = RunStyle::styled(self.style, marks, linked, f.paint@.merged(marks));
        source_pieces(self.bytes(), self.link_opens(i), RunStyle::delim()) + (if self.state.meets(
            range,
        ) {
            one(raw, range, style)
        } else {
            one(glyph, f.visible, style)
        }) + source_pieces(self.bytes(), self.link_closes(i), RunStyle::delim())
    }

    /// The revealed tag source of inline `i`.
    pub open spec fn tag_pieces(&self, i: int, raw: Seq<u8>) -> Seq<Piece> {
        match html_tags::shown_tag(self.pairs(), self.solos(), i as usize, *self.state) {
            Some(r) => one(source_or(self.bytes(), r, raw), r, RunStyle::delim()),
            None => Seq::empty(),
        }
    }

    /// What inline HTML `i` paints.
    pub open spec fn opaque_pieces(&self, i: int, raw: Seq<u8>, range: Range<usize>) -> Seq<Piece> {
        let f = self.facts@[i];
        match f.action {
            InlineHtmlAction::Hide => if f.hidden {
                Seq::empty()
            } else {
                self.opens(i) + self.tag_pieces(i, raw) + self.closes(i)
            },
            InlineHtmlAction::Image => if f.hidden {
                Seq::empty()
            } else {
                self.opens(i) + self.closes(i)
            },
            InlineHtmlAction::Break => one(encode_utf8("\n"@), range, RunStyle::inherit()),
            InlineHtmlAction::FootnoteRef { glyph } => if self.state.meets(range) {
                one(source_or(self.bytes(), range, raw), range, RunStyle::delim())
            } else {
                one(
                    encode_utf8(glyph@),
                    f.visible,
                    (RunStyle {
                        underline: RunUnderline::Clear,
                        ..RunStyle::styled(self.style, MarkSet::none(), true, f.paint@)
                    }),
                )
            },
            InlineHtmlAction::Raw => one(raw, range, RunStyle::raw_html()),
        }
    }

    /// What inline `i` paints outside filtered widgets.
    pub open spec fn node_pieces(&self, i: int) -> Seq<Piece> {
        let hidden = self.facts@[i].hidden;
        match self.inlines@[i] {
            Inline::OpaqueInline { raw, source_range, .. } => self.opaque_pieces(
                i,
                encode_utf8(raw@),
                source_range,
            ),
            Inline::Run { text, raw, marks, link, source_range, .. } => if hidden {
                Seq::empty()
            } else {
                self.run_pieces(i, encode_utf8(text@), raw, source_range, marks, link is Some)
            },
            Inline::Image { alt, source_range, marks, .. } => if hidden {
                Seq::empty()
            } else {
                self.image_pieces(i, encode_utf8(alt@), source_range, marks)
            },
            Inline::SoftBreak { source_range } => if hidden {
                Seq::empty()
            } else {
                self.soft_break_pieces(i, source_range)
            },
            Inline::HardBreak { source_range, .. } => if hidden {
                Seq::empty()
            } else {
                self.hard_break_pieces(i, source_range)
            },
            Inline::Math { literal, display, raw, source_range, marks } => if hidden {
                Seq::empty()
            } else {
                self.math_pieces(
                    i,
                    encode_utf8(literal@),
                    display,
                    encode_utf8(raw@),
                    source_range,
                    marks,
                )
            },
            Inline::WikiLink { label, raw, source_range, marks } => if hidden {
                Seq::empty()
            } else {
                self.wiki_pieces(
                    i,
                    encode_utf8(label@),
                    encode_utf8(raw@),
                    source_range,
                    marks,
                )
            },
            Inline::Emoji { glyph, raw, source_range, marks, link, .. } => if hidden {
                Seq::empty()
            } else {
                self.emoji_pieces(
                    i,
                    encode_utf8(glyph@),
                    encode_utf8(raw@),
                    source_range,
                    marks,
                    link is Some,
                )
            },
        }
    }

    /// The filtered widget that inline `i` belongs to.
    pub open spec fn widget_of(&self, i: int) -> Option<int> {
        widget_at(self.widgets@, self.inlines@[i].span().start, 0)
    }

    /// Inline `i` belongs to a widget that starts at `start`.
    pub open spec fn in_widget(&self, i: int, start: usize) -> bool {
        self.widget_of(i) matches Some(w) && self.widgets@[w].range.start == start
    }

    /// What inline `i` paints when painting starts at inline `lo`. Of the
    /// inlines of a filtered widget only the first paints, and only the source
    /// of a revealed widget.
    pub open spec fn pieces(&self, lo: int, i: int) -> Seq<Piece> {
        match self.widget_of(i) {
            Some(w) => {
                let widget = self.widgets@[w];
                let first = forall|j: int|
                    lo <= j < i ==> !#[trigger] self.in_widget(j, widget.range.start);
                if first && widget.source_chrome && self.state.meets(widget.range) {
                    source_piece(self.bytes(), widget.range, RunStyle::delim())
                } else {
                    Seq::empty()
                }
            },
            None => self.node_pieces(i),
        }
    }

    /// What the inlines from `lo` up to `n` paint.
    pub open spec fn all_pieces(&self, lo: int, n: int) -> Seq<Piece>
        decreases n,
    {
        if n <= lo || n <= 0 {
            Seq::empty()
        } else {
            self.all_pieces(lo, n - 1) + self.pieces(lo, n - 1)
        }
    }

    /// The first painted inline.
    pub open spec fn paint_lo(&self, paint_start: usize) -> int {
        if paint_start <= self.inlines@.len() {
            paint_start as int
        } else {
            self.inlines@.len() as int
        }
    }

    /// The end of the painted inlines.
    pub open spec fn paint_hi(&self, paint_start: usize, paint_end: usize) -> int {
        let hi = if paint_end <= self.inlines@.len() {
            paint_end as int
        } else {
            self.inlines@.len() as int
        };
        if hi >= self.paint_lo(paint_start) {
            hi
        } else {
            self.paint_lo(paint_start)
        }
    }

    /// The layout of the inlines `paint_start..paint_end`.
    pub open spec fn layout(&self, paint_start: usize, paint_end: usize) -> LeafView {
        Partial::start(self.block_range.end).push_all(
            self.all_pieces(self.paint_lo(paint_start), self.paint_hi(paint_start, paint_end)),
        ).finish(self.block_range.start)
    }
}

/// Appends `s`, painted for `src`.
fn put(b: &mut LeafBuilder, s: &str, src: Range<usize>, style: RunStyle)
    requires
        old(b)@.ok(),
    ensures
        final(b)@ == old(b)@.push_all(one(encode_utf8(s@), src, style)),
        final(b)@.ok(),
{
    proof {
        layout::lemma_push_all_one(b@, Piece { bytes: encode_utf8(s@), src, style });
    }
    b.push(s, src, style);
}

/// Appends the source bytes in `r`.
fn put_source(b: &mut LeafBuilder, source: &str, r: &Range<usize>, style: RunStyle)
    requires
        old(b)@.ok(),
    ensures
        final(b)@ == old(b)@.push_all(source_piece(encode_utf8(source@), *r, style)),
        final(b)@.ok(),
{
    if let Some(s) = get(source, r) {
        put(b, s, dup(r), style);
    }
}

/// Appends the source bytes in each of `ranges`.
fn put_sources(b: &mut LeafBuilder, source: &str, ranges: &Vec<Range<usize>>, style: RunStyle)
    requires
        old(b)@.ok(),
    ensures
        final(b)@ == old(b)@.push_all(source_pieces(encode_utf8(source@), ranges@, style)),
        final(b)@.ok(),
{
    let mut k: usize = 0;
    assert(ranges@.take(0) =~= Seq::<Range<usize>>::empty());
    while k < ranges.len()
        invariant
            k <= ranges.len(),
            b@.ok(),
            b@ == old(b)@.push_all(
                source_pieces(encode_utf8(source@), ranges@.take(k as int), style),
            ),
        decreases ranges.len() - k,
    {
        put_source(b, source, &ranges[k], style);
        proof {
            let done = ranges@.take(k + 1);
            assert(done.drop_last() =~= ranges@.take(k as int));
            assert(done.last() == ranges@[k as int]);
            layout::lemma_push_all_concat(
                old(b)@,
                source_pieces(encode_utf8(source@), ranges@.take(k as int), style),
                source_piece(encode_utf8(source@), ranges@[k as int], style),
            );
        }
        k = k + 1;
    }
    assert(ranges@.take(k as int) =~= ranges@);
}

/// The non-empty text of `s` in `r`, or else `fallback`.
fn slice_or<'s>(s: &'s str, r: &Range<usize>, fallback: &'s str) -> (t: &'s str)
    ensures
        encode_utf8(t@) == source_or(encode_utf8(s@), *r, encode_utf8(fallback@)),
{
    match get(s, r) {
        Some(t) => {
            proof {
                text::lemma_encode_empty(t@);
            }
            if t.is_empty() {
                fallback
            } else {
                t
            }
        },
        None => fallback,
    }
}

/// Source bytes of a painted break. Breaks are one visible character; the
/// glyph maps onto the bytes of the break, never onto the paragraph start.
pub fn paint_break_src(range: &Range<usize>) -> (src: Range<usize>)
    ensures
        src == break_src(*range),
{
    if range.end > range.start {
        dup(range)
    } else {
        range.start..range.start.saturating_add(1)
    }
}

/// The text of a run under HTML superscript or subscript.
fn visible_for_html<'s>(s: &'s str, facts: &'s InlineFacts, paint: &HtmlPaint) -> (t: &'s str)
    ensures
        encode_utf8(t@) == html_text(encode_utf8(s@), *facts, paint@),
{
    if paint.sup && !paint.sub {
        return facts.superscript.as_str();
    }
    if paint.sub && !paint.sup {
        return facts.subscript.as_str();
    }
    s
}

/// Appends `raw` with its first and last `w` bytes as delimiters.
fn put_framed(
    b: &mut LeafBuilder,
    raw: &str,
    range: &Range<usize>,
    w: usize,
    delim: RunStyle,
    inner: RunStyle,
)
    requires
        old(b)@.ok(),
        frameable(encode_utf8(raw@), w),
    ensures
        final(b)@ == old(b)@.push_all(framed(encode_utf8(raw@), *range, w, delim, inner)),
        final(b)@.ok(),
{
    broadcast use layout::lemma_push_all_concat;

    let n: usize = byte_len(raw);
    proof {
        text::lemma_boundary_ends(raw@);
    }
    let ghost bytes = encode_utf8(raw@);
    assert(bytes.take(w as int) =~= bytes.subrange(0, w as int));
    assert(bytes.skip(n - w) =~= bytes.subrange(n - w, n as int));
    let open = slice(raw, 0, w);
    let body = slice(raw, w, n - w);
    let close = slice(raw, n - w, n);
    put(b, open, range.start..range.start.saturating_add(w), delim);
    put(b, body, range.start.saturating_add(w)..range.end.saturating_sub(w), inner);
    put(b, close, range.end.saturating_sub(w)..range.end, delim);
}

impl<'a> LeafInput<'a> {
    /// Collects the chrome groups of the leaf.
    fn groups(&self) -> (groups: LeafGroups)
        requires
            self.ok(),
        ensures
            groups.are_of(*self),
    {
        LeafGroups {
            wraps: collect_wrap_groups(
                self.source,
                self.inlines.as_slice(),
                self.facts.as_slice(),
                &self.block_range,
            ),
            links: collect_link_groups(
                self.source,
                self.inlines.as_slice(),
                self.facts.as_slice(),
            ),
            html: collect_html_groups(self.inlines.as_slice(), self.facts.as_slice()),
        }
    }

    /// Delimiters and link chrome painted before and after inline `i`.
    fn sides(&self, groups: &LeafGroups, i: usize) -> (sides: (
        Vec<Range<usize>>,
        Vec<Range<usize>>,
    ))
        requires
            groups.are_of(*self),
        ensures
            sides.0@ == spans::merged(self.wrap_opens(i as int), self.link_opens(i as int)),
            sides.1@ == spans::merged(self.wrap_closes(i as int), self.link_closes(i as int)),
    {
        let (mut opens, mut closes) = revealed_wrap_lists(
            &groups.wraps,
            self.inlines.as_slice(),
            i,
            self.state,
        );
        let (link_opens, link_closes) = revealed_link_sides(
            &groups.links,
            self.inlines.as_slice(),
            i,
            self.state,
        );
        merge(&mut opens, &link_opens);
        merge(&mut closes, &link_closes);
        (opens, closes)
    }

    /// Whether code span `i` shows its padding.
    fn shows_pad(&self, groups: &LeafGroups, i: usize, range: &Range<usize>, marks: MarkSet) -> (pad:
        bool)
        requires
            self.ok(),
            i < self.inlines@.len(),
            groups.are_of(*self),
        ensures
            pad == self.pad_shown(i as int, *range, marks),
    {
        if !marks.code || same(&self.facts[i].code_visible, range) {
            return false;
        }
        let (wrap_opens, wrap_closes) = revealed_wrap_lists(
            &groups.wraps,
            self.inlines.as_slice(),
            i,
            self.state,
        );
        self.state.intersects(range) || wrap_opens.len() > 0 || wrap_closes.len() > 0
    }

    /// The text that run `i` paints.
    fn visible_run<'s>(
        &'s self,
        groups: &LeafGroups,
        i: usize,
        t: &'s str,
        raw: &'s Option<String>,
        range: &Range<usize>,
        marks: MarkSet,
        paint: &HtmlPaint,
        pad: bool,
    ) -> (visible: &'s str)
        requires
            self.ok(),
            i < self.inlines@.len(),
            groups.are_of(*self),
            pad == self.pad_shown(i as int, *range, marks),
            paint@ == self.facts@[i as int].paint@.merged(marks),
        ensures
            encode_utf8(visible@) == self.run_text(i as int, encode_utf8(t@), *raw, *range, marks),
    {
        let f = &self.facts[i];
        if !marks.code && f.decoded && self.state.intersects(range) {
            let written: Option<&'s str> = match raw {
                Some(r) => Some(r.as_str()),
                None => get(self.source, range),
            };
            if let Some(s) = written {
                return s;
            }
        }
        if pad {
            return match get(self.source, range) {
                Some(s) => s,
                None => t,
            };
        }
        if html_inner_revealed(&groups.html, range, self.state) {
            return t;
        }
        visible_for_html(t, f, paint)
    }

    /// Appends the body of run `i`, in the brackets of a revealed autolink.
    fn put_body(&self, b: &mut LeafBuilder, i: usize, visible: &str, src: Range<usize>, run: RunStyle)
        requires
            self.ok(),
            i < self.inlines@.len(),
            old(b)@.ok(),
        ensures
            final(b)@ == old(b)@.push_all(
                self.body_pieces(i as int, one(encode_utf8(visible@), src, run)),
            ),
            final(b)@.ok(),
    {
        broadcast use layout::lemma_push_all_concat;

        if let Some(outer) = &self.facts[i].angle {
            if self.state.intersects(outer) {
                let delim = wiki_delim_run();
                put(b, "<", outer.start..outer.start.saturating_add(1), delim);
                put(b, visible, src, run);
                put(b, ">", outer.end.saturating_sub(1)..outer.end, delim);
                return;
            }
        }
        put(b, visible, src, run);
    }

    /// Appends what stands before (`open`) or after the label at `range` of a
    /// link reference definition.
    fn put_def(&self, b: &mut LeafBuilder, range: &Range<usize>, open: bool)
        requires
            old(b)@.ok(),
        ensures
            final(b)@ == old(b)@.push_all(
                if open {
                    self.def_open(*range)
                } else {
                    self.def_close(*range)
                },
            ),
            final(b)@.ok(),
    {
        broadcast use layout::lemma_push_all_concat;

        let delim = wiki_delim_run();
        let ghost st = b@;
        if let Some(c) = self.def_chrome {
            if same(&c.label, range) {
                let met = self.state.intersects(&c.outer);
                if open {
                    if met {
                        put_source(b, self.source, &c.open, delim);
                    }
                } else {
                    if met {
                        put_source(b, self.source, &c.close, delim);
                    }
                    assert(b@ == st.push_all(
                        if met {
                            source_piece(self.bytes(), c.close, RunStyle::delim())
                        } else {
                            Seq::empty()
                        },
                    ));
                    put_source(b, self.source, &c.colon, delim);
                }
            }
        }
    }

    fn paint_run(
        &self,
        groups: &LeafGroups,
        b: &mut LeafBuilder,
        i: usize,
        t: &str,
        raw: &Option<String>,
        range: &Range<usize>,
        marks: MarkSet,
        linked: bool,
    )
        requires
            self.ok(),
            i < self.inlines@.len(),
            groups.are_of(*self),
            old(b)@.ok(),
        ensures
            final(b)@ == old(b)@.push_all(
                self.run_pieces(i as int, encode_utf8(t@), *raw, *range, marks, linked),
            ),
            final(b)@.ok(),
    {
        let f = &self.facts[i];
        let paint = merge_html_paint(marks, &f.paint);
        let pad = self.shows_pad(groups, i, range, marks);
        let visible = self.visible_run(groups, i, t, raw, range, marks, &paint, pad);
        let src: Range<usize> = if marks.code && !pad {
            dup(&f.code_visible)
        } else {
            dup(range)
        };
        let run = style_run(self.style, marks, linked, &paint);
        let delim = wiki_delim_run();
        let (opens, closes) = self.sides(groups, i);
        let ghost st = b@;
        let ghost body = self.body_pieces(i as int, one(encode_utf8(visible@), src, run));
        self.put_def(b, range, true);
        put_sources(b, self.source, &opens, delim);
        self.put_body(b, i, visible, src, run);
        put_sources(b, self.source, &closes, delim);
        self.put_def(b, range, false);
        proof {
            let p1 = self.def_open(*range);
            let p2 = self.opens(i as int);
            let p4 = self.closes(i as int);
            let p5 = self.def_close(*range);
            layout::lemma_push_all_concat(st, p1, p2);
            layout::lemma_push_all_concat(st, p1 + p2, body);
            layout::lemma_push_all_concat(st, p1 + p2 + body, p4);
            layout::lemma_push_all_concat(st, p1 + p2 + body + p4, p5);
        }
    }

    fn paint_image(
        &self,
        groups: &LeafGroups,
        b: &mut LeafBuilder,
        i: usize,
        alt: &str,
        range: &Range<usize>,
        marks: MarkSet,
    )
        requires
            self.ok(),
            i < self.inlines@.len(),
            groups.are_of(*self),
            old(b)@.ok(),
        ensures
            final(b)@ == old(b)@.push_all(
                self.image_pieces(i as int, encode_utf8(alt@), *range, marks),
            ),
            final(b)@.ok(),
    {
        broadcast use layout::lemma_push_all_concat;

        let ghost st = b@;
        let paint = merge_html_paint(marks, &self.facts[i].paint);
        let delim = wiki_delim_run();
        let (opens, closes) = self.sides(groups, i);
        put_sources(b, self.source, &opens, delim);
        let ghost mid = b@;
        if self.state.intersects(range) {
            let inner = alt_source(&groups.links, i, range);
            let visible = slice_or(self.source, &inner, alt);
            put(b, visible, inner, style_run(self.style, marks, true, &paint));
        }
        put_sources(b, self.source, &closes, delim);
    }

    fn paint_soft_break(&self, b: &mut LeafBuilder, i: usize, range: &Range<usize>)
        requires
            self.ok(),
            i < self.inlines@.len(),
            old(b)@.ok(),
        ensures
            final(b)@ == old(b)@.push_all(self.soft_break_pieces(i as int, *range)),
            final(b)@.ok(),
    {
        broadcast use layout::lemma_push_all_concat;

        let f = &self.facts[i];
        let run = style_run(self.style, MarkSet::empty(), false, &f.paint);
        match revealed_prefix_range(self.source, &f.prefix, self.state, self.hosts) {
            Some(p) => {
                put(b, "\n", paint_break_src(range), run);
                put_source(b, self.source, &p, wiki_delim_run());
            },
            None => {
                put(b, " ", paint_break_src(range), run);
            },
        }
    }

    fn paint_hard_break(&self, b: &mut LeafBuilder, i: usize, range: &Range<usize>)
        requires
            self.ok(),
            i < self.inlines@.len(),
            old(b)@.ok(),
        ensures
            final(b)@ == old(b)@.push_all(self.hard_break_pieces(i as int, *range)),
            final(b)@.ok(),
    {
        broadcast use layout::lemma_push_all_concat;

        let f = &self.facts[i];
        put(b, "\n", paint_break_src(range), plain_run());
        let ghost mid = b@;
        if let Some(p) = revealed_prefix_range(self.source, &f.prefix, self.state, self.hosts) {
            put_source(b, self.source, &p, wiki_delim_run());
        }
        assert(b@ == mid.push_all(
            match self.prefix_after(i as int) {
                Some(p) => source_piece(self.bytes(), p, RunStyle::delim()),
                None => Seq::empty(),
            },
        ));
    }

    fn paint_math(
        &self,
        b: &mut LeafBuilder,
        i: usize,
        literal: &str,
        display: bool,
        raw: &str,
        range: &Range<usize>,
        marks: MarkSet,
    )
        requires
            self.ok(),
            i < self.inlines@.len(),
            old(b)@.ok(),
        ensures
            final(b)@ == old(b)@.push_all(
                self.math_pieces(
                    i as int,
                    encode_utf8(literal@),
                    display,
                    encode_utf8(raw@),
                    *range,
                    marks,
                ),
            ),
            final(b)@.ok(),
    {
        let f = &self.facts[i];
        let paint = merge_html_paint(marks, &f.paint);
        let run = math_style_run(self.style, marks, &paint);
        let w: usize = if display {
            2
        } else {
            1
        };
        if self.state.intersects(range) {
            let n: usize = byte_len(raw);
            if n >= 2 * w && at_boundary(raw, w) && at_boundary(raw, n - w) {
                put_framed(b, raw, range, w, math_delim_run(), run);
            } else {
                put(b, raw, dup(range), run);
            }
        } else {
            let painted = match get(self.source, &f.visible) {
                Some(s) => s,
                None => literal,
            };
            put(b, painted, dup(&f.visible), run);
        }
    }

    fn paint_wiki(
        &self,
        b: &mut LeafBuilder,
        i: usize,
        label: &str,
        raw: &str,
        range: &Range<usize>,
        marks: MarkSet,
    )
        requires
            self.ok(),
            i < self.inlines@.len(),
            old(b)@.ok(),
        ensures
            final(b)@ == old(b)@.push_all(
                self.wiki_pieces(
                    i as int,
                    encode_utf8(label@),
                    encode_utf8(raw@),
                    *range,
                    marks,
                ),
            ),
            final(b)@.ok(),
    {
        let f = &self.facts[i];
        let paint = merge_html_paint(marks, &f.paint);
        let run = style_run(self.style, marks, true, &paint);
        let bytes = raw.as_bytes();
        let n: usize = bytes.len();
        if self.state.intersects(range) {
            if n >= 4 && bytes[0] == 0x5b && bytes[1] == 0x5b && bytes[n - 2] == 0x5d && bytes[n - 1]
                == 0x5d {
                proof {
                    text::lemma_after_ascii(raw@, 1);
                }
                put_framed(b, raw, range, 2, wiki_delim_run(), run);
            } else {
                put(b, raw, dup(range), run);
            }
        } else {
            let start: usize = f.visible.start.saturating_sub(range.start);
            let end: usize = f.visible.end.saturating_sub(range.start);
            let end: usize = if end <= n {
                end
            } else {
                n
            };
            let end: usize = if end >= start {
                end
            } else {
                start
            };
            let visible = slice_or(raw, &(start..end), label);
            put(b, visible, dup(&f.visible), run);
        }
    }

    fn paint_emoji(
        &self,
        groups: &LeafGroups,
        b: &mut LeafBuilder,
        i: usize,
        glyph: &str,
        raw: &str,
        range: &Range<usize>,
        marks: MarkSet,
        linked: bool,
    )
        requires
            self.ok(),
            i < self.inlines@.len(),
            groups.are_of(*self),
            old(b)@.ok(),
        ensures
            final(b)@ == old(b)@.push_all(
                self.emoji_pieces(
                    i as int,
                    encode_utf8(glyph@),
                    encode_utf8(raw@),
                    *range,
                    marks,
                    linked,
                ),
            ),
            final(b)@.ok(),
    {
        broadcast use layout::lemma_push_all_concat;

        let f = &self.facts[i];
        let paint = merge_html_paint(marks, &f.paint);
        let run = style_run(self.style, marks, linked, &paint);
        let delim = wiki_delim_run();
        let (opens, closes) = revealed_link_sides(
            &groups.links,
            self.inlines.as_slice(),
            i,
            self.state,
        );
        put_sources(b, self.source, &opens, delim);
        if self.state.intersects(range) {
            put(b, raw, dup(range), run);
        } else {
            put(b, glyph, dup(&f.visible), run);
        }
        put_sources(b, self.source, &closes, delim);
    }

    fn paint_opaque(
        &self,
        groups: &LeafGroups,
        b: &mut LeafBuilder,
        i: usize,
        raw: &str,
        range: &Range<usize>,
    )
        requires
            self.ok(),
            i < self.inlines@.len(),
            groups.are_of(*self),
            old(b)@.ok(),
        ensures
            final(b)@ == old(b)@.push_all(
                self.opaque_pieces(i as int, encode_utf8(raw@), *range),
            ),
            final(b)@.ok(),
    {
        broadcast use layout::lemma_push_all_concat;

        let f = &self.facts[i];
        let delim = wiki_delim_run();
        match &f.action {
            InlineHtmlAction::Hide => {
                if !f.hidden {
                    let (opens, closes) = self.sides(groups, i);
                    put_sources(b, self.source, &opens, delim);
                    let ghost mid = b@;
                    if let Some(tag) = html_chrome_range_for(&groups.html, i, self.state) {
                        let shown = slice_or(self.source, &tag, raw);
                        put(b, shown, tag, delim);
                    }
                    assert(b@ == mid.push_all(self.tag_pieces(i as int, encode_utf8(raw@))));
                    put_sources(b, self.source, &closes, delim);
                }
            },
            InlineHtmlAction::Image => {
                if !f.hidden {
                    let (opens, closes) = self.sides(groups, i);
                    put_sources(b, self.source, &opens, delim);
                    put_sources(b, self.source, &closes, delim);
                }
            },
            InlineHtmlAction::Break => {
                put(b, "\n", dup(range), plain_run());
            },
            InlineHtmlAction::FootnoteRef { glyph } => {
                if self.state.intersects(range) {
                    let shown = slice_or(self.source, range, raw);
                    put(b, shown, dup(range), delim);
                } else {
                    let mut run = style_run(self.style, MarkSet::empty(), true, &f.paint);
                    run.underline = RunUnderline::Clear;
                    put(b, glyph.as_str(), dup(&f.visible), run);
                }
            },
            InlineHtmlAction::Raw => {
                put(b, raw, dup(range), raw_html_run());
            },
        }
    }

    fn paint_node(&self, groups: &LeafGroups, b: &mut LeafBuilder, i: usize)
        requires
            self.ok(),
            i < self.inlines@.len(),
            groups.are_of(*self),
            old(b)@.ok(),
        ensures
            final(b)@ == old(b)@.push_all(self.node_pieces(i as int)),
            final(b)@.ok(),
    {
        if let Inline::OpaqueInline { raw, source_range, .. } = &self.inlines[i] {
            self.paint_opaque(groups, b, i, raw.as_str(), source_range);
            return;
        }
        if self.facts[i].hidden {
            return;
        }
        match &self.inlines[i] {
            Inline::Run { text, raw, marks, link, source_range, .. } => {
                self.paint_run(
                    groups,
                    b,
                    i,
                    text.as_str(),
                    raw,
                    source_range,
                    *marks,
                    link.is_some(),
                );
            },
            Inline::Image { alt, source_range, marks, .. } => {
                self.paint_image(groups, b, i, alt.as_str(), source_range, *marks);
            },
            Inline::SoftBreak { source_range } => {
                self.paint_soft_break(b, i, source_range);
            },
            Inline::HardBreak { source_range, .. } => {
                self.paint_hard_break(b, i, source_range);
            },
            Inline::Math { literal, display, raw, source_range, marks } => {
                self.paint_math(
                    b,
                    i,
                    literal.as_str(),
                    *display,
                    raw.as_str(),
                    source_range,
                    *marks,
                );
            },
            Inline::WikiLink { label, raw, source_range, marks } => {
                self.paint_wiki(b, i, label.as_str(), raw.as_str(), source_range, *marks);
            },
            Inline::Emoji { glyph, raw, source_range, marks, link, .. } => {
                self.paint_emoji(
                    groups,
                    b,
                    i,
                    glyph.as_str(),
                    raw.as_str(),
                    source_range,
                    *marks,
                    link.is_some(),
                );
            },
            Inline::OpaqueInline { .. } => {},
        }
    }

    /// The filtered widget that inline `i` belongs to.
    fn find_widget(&self, i: usize) -> (found: Option<usize>)
        requires
            i < self.inlines@.len(),
        ensures
            found matches Some(w) ==> self.widget_of(i as int) == Some(w as int) && w
                < self.widgets@.len(),
            found is None ==> self.widget_of(i as int) is None,
    {
        let at: usize = self.inlines[i].source_range().start;
        let mut k: usize = 0;
        while k < self.widgets.len()
            invariant
                at == self.inlines@[i as int].span().start,
                k <= self.widgets@.len(),
                widget_at(self.widgets@, at, 0) == widget_at(self.widgets@, at, k as int),
            decreases self.widgets@.len() - k,
        {
            if self.widgets[k].range.start <= at && at < self.widgets[k].range.end {
                return Some(k);
            }
            k = k + 1;
        }
        None
    }
}

/// Where the alternative text of image `i` stands in source.
fn alt_source(groups: &Vec<LinkPaintGroup>, i: usize, range: &Range<usize>) -> (inner: Range<usize>)
    ensures
        inner == alt_range(groups@, i, *range),
{
    let mut k: usize = 0;
    let key = LinkPaintKey::Image(i);
    assert(groups@.skip(0) =~= groups@);
    while k < groups.len()
        invariant
            k <= groups.len(),
            key == LinkPaintKey::Image(i),
            find_link(groups@, key) == find_link(groups@.skip(k as int), key),
        decreases groups.len() - k,
    {
        let g = &groups[k];
        if g.key == key {
            return if g.chrome.open.end < g.chrome.close.start {
                g.chrome.open.end..g.chrome.close.start
            } else {
                dup(range)
            };
        }
        assert(groups@.skip(k as int).drop_first() =~= groups@.skip(k + 1));
        k = k + 1;
    }
    dup(range)
}

/// Visible text for the inlines `paint_start..paint_end` of a leaf. Images
/// are left out unless revealed: the block renderer paints them. Chrome groups
/// are collected from the whole leaf, so that a paragraph of text and images
/// still reveals one `**` span.
pub fn build_leaf_layout_inlines(x: &LeafInput, paint_start: usize, paint_end: usize) -> (layout:
    LeafLayout)
    requires
        x.ok(),
    ensures
        layout@ == x.layout(paint_start, paint_end),
        layout@.source_at.len() == layout@.text.len() + 1,
        layout@.tiled(),
        layout@.settled(),
{
    let groups = x.groups();
    let n: usize = x.inlines.len();
    let lo: usize = if paint_start <= n {
        paint_start
    } else {
        n
    };
    let hi: usize = if paint_end <= n {
        paint_end
    } else {
        n
    };
    let mut b = LeafBuilder::new(x.block_range.end);
    let ghost st = b@;
    let mut revealed: Vec<usize> = Vec::new();
    let mut i: usize = lo;
    assert(x.all_pieces(lo as int, lo as int) =~= Seq::<Piece>::empty());
    while i < hi
        invariant
            x.ok(),
            groups.are_of(*x),
            n == x.inlines@.len(),
            hi <= n,
            lo <= i,
            i <= hi || i == lo,
            st == Partial::start(x.block_range.end),
            b@ == st.push_all(x.all_pieces(lo as int, i as int)),
            b@.ok(),
            forall|s: usize| #[trigger]
                revealed@.contains(s) <==> exists|j: int| lo <= j < i && x.in_widget(j, s),
        decreases hi - i,
    {
        let ghost before = b@;
        match x.find_widget(i) {
            Some(w) => {
                let widget = &x.widgets[w];
                let start: usize = widget.range.start;
                let mut seen = false;
                let mut k: usize = 0;
                while k < revealed.len()
                    invariant
                        k <= revealed.len(),
                        seen == exists|j: int| 0 <= j < k && revealed@[j] == start,
                    decreases revealed.len() - k,
                {
                    if revealed[k] == start {
                        seen = true;
                    }
                    k = k + 1;
                }
                assert(seen == revealed@.contains(start));
                assert(seen == exists|j: int| lo <= j < i && x.in_widget(j, start));
                let ghost had = revealed@;
                if !seen {
                    revealed.push(start);
                    if widget.source_chrome && x.state.intersects(&widget.range) {
                        put_source(&mut b, x.source, &widget.range, wiki_delim_run());
                    }
                }
                assert(b@ == before.push_all(x.pieces(lo as int, i as int)));
                assert(x.in_widget(i as int, start));
                assert forall|s: usize| #[trigger]
                    revealed@.contains(s) <==> exists|j: int| lo <= j < i + 1 && x.in_widget(j, s) by {
                    if revealed@.contains(s) {
                        if !had.contains(s) {
                            let k = choose|k: int| 0 <= k < revealed@.len() && revealed@[k] == s;
                            assert(s == start) by {
                                if k < had.len() {
                                    assert(had[k] == s);
                                }
                            }
                            assert(x.in_widget(i as int, s));
                        }
                    }
                    if exists|j: int| lo <= j < i + 1 && x.in_widget(j, s) {
                        let j = choose|j: int| lo <= j < i + 1 && x.in_widget(j, s);
                        if j == i {
                            assert(s == start);
                            if seen {
                                assert(had.contains(s));
                            } else {
                                assert(revealed@[had.len() as int] == s);
                            }
                        } else {
                            assert(had.contains(s));
                            let k = choose|k: int| 0 <= k < had.len() && had[k] == s;
                            assert(revealed@[k] == s);
                        }
                    }
                }
            },
            None => {
                x.paint_node(&groups, &mut b, i);
                assert(b@ == before.push_all(x.pieces(lo as int, i as int)));
                assert forall|s: usize| #[trigger]
                    revealed@.contains(s) <==> exists|j: int| lo <= j < i + 1 && x.in_widget(j, s) by {
                    if exists|j: int| lo <= j < i + 1 && x.in_widget(j, s) {
                        let j = choose|j: int| lo <= j < i + 1 && x.in_widget(j, s);
                        assert(!x.in_widget(i as int, s));
                        assert(lo <= j < i && x.in_widget(j, s));
                    }
                }
            },
        }
        proof {
            layout::lemma_push_all_concat(
                st,
                x.all_pieces(lo as int, i as int),
                x.pieces(lo as int, i as int),
            );
            assert(x.all_pieces(lo as int, i + 1) == x.all_pieces(lo as int, i as int) + x.pieces(
                lo as int,
                i as int,
            ));
        }
        i = i + 1;
    }
    assert(x.all_pieces(lo as int, i as int) == x.all_pieces(
        x.paint_lo(paint_start),
        x.paint_hi(paint_start, paint_end),
    ));
    b.finish(x.block_range.start)
}

impl LeafGroups {
    /// These are the groups of `x`.
    pub open spec fn are_of(&self, x: LeafInput) -> bool {
        self.wraps@ == x.wraps() && self.links@ == x.links() && self.html.pairs@ == x.pairs()
            && self.html.solos@ == x.solos()
    }
}

impl<'a> LeafInput<'a> {
    /// Nothing of the leaf is revealed: neither the caret nor a selection meets
    /// an inline, a span around inlines, a widget or a container that shows a
    /// prefix.
    pub open spec fn unmet(&self) -> bool {
        &&& forall|k: int|
            0 <= k < self.wraps().len() ==> !self.state.meets((#[trigger] self.wraps()[k]).reach)
        &&& forall|k: int|
            0 <= k < self.links().len() ==> !self.state.meets(
                (#[trigger] self.links()[k]).chrome.outer,
            )
        &&& forall|k: int|
            0 <= k < self.pairs().len() ==> !self.state.meets((#[trigger] self.pairs()[k]).span)
        &&& forall|k: int|
            0 <= k < self.solos().len() ==> !self.state.meets((#[trigger] self.solos()[k]).range)
        &&& forall|k: int|
            0 <= k < self.widgets@.len() ==> !self.state.meets((#[trigger] self.widgets@[k]).range)
        &&& *self.def_chrome matches Some(c) ==> !self.state.meets(c.outer)
        &&& forall|i: int|
            0 <= i < self.inlines@.len() ==> !self.state.meets((#[trigger] self.inlines@[i]).span())
        &&& forall|i: int|
            0 <= i < self.facts@.len() ==> {
                let f = #[trigger] self.facts@[i];
                &&& f.angle matches Some(outer) ==> !self.state.meets(outer)
                &&& prefix::quiet(f.prefix, *self.state, *self.hosts)
            }
    }

    /// What inline `i` paints with its chrome hidden: the text of a run (and
    /// the colon of a definition), a space or a line break, the body of a
    /// formula, the label of a wiki link, the glyph of an emoji or a footnote
    /// reference, raw HTML that has no rendering; of images and tags, nothing.
    pub open spec fn content(&self, i: int) -> Seq<Piece> {
        let f = self.facts@[i];
        if self.widget_of(i) is Some {
            Seq::empty()
        } else {
            match self.inlines@[i] {
                Inline::OpaqueInline { raw, source_range, .. } => match f.action {
                    InlineHtmlAction::Hide => Seq::empty(),
                    InlineHtmlAction::Image => Seq::empty(),
                    InlineHtmlAction::Break => one(
                        encode_utf8("\n"@),
                        source_range,
                        RunStyle::inherit(),
                    ),
                    InlineHtmlAction::FootnoteRef { glyph } => one(
                        encode_utf8(glyph@),
                        f.visible,
                        (RunStyle {
                            underline: RunUnderline::Clear,
                            ..RunStyle::styled(self.style, MarkSet::none(), true, f.paint@)
                        }),
                    ),
                    InlineHtmlAction::Raw => one(
                        encode_utf8(raw@),
                        source_range,
                        RunStyle::raw_html(),
                    ),
                },
                Inline::Run { text, marks, link, source_range, .. } => if f.hidden {
                    Seq::empty()
                } else {
                    one(
                        html_text(encode_utf8(text@), f, f.paint@.merged(marks)),
                        if marks.code {
                            f.code_visible
                        } else {
                            source_range
                        },
                        RunStyle::styled(
                            self.style,
                            marks,
                            link is Some,
                            f.paint@.merged(marks),
                        ),
                    ) + match self.def_at(source_range) {
                        Some(c) => source_piece(self.bytes(), c.colon, RunStyle::delim()),
                        None => Seq::empty(),
                    }
                },
                Inline::Image { .. } => Seq::empty(),
                Inline::SoftBreak { source_range } => if f.hidden {
                    Seq::empty()
                } else {
                    one(
                        encode_utf8(" "@),
                        break_src(source_range),
                        RunStyle::styled(self.style, MarkSet::none(), false, f.paint@),
                    )
                },
                Inline::HardBreak { source_range, .. } => if f.hidden {
                    Seq::empty()
                } else {
                    one(encode_utf8("\n"@), break_src(source_range), RunStyle::inherit())
                },
                Inline::Math { literal, marks, .. } => if f.hidden {
                    Seq::empty()
                } else {
                    one(
                        match text::slice_of(self.bytes(), f.visible) {
                            Some(s) => s,
                            None => encode_utf8(literal@),
                        },
                        f.visible,
                        RunStyle::math(self.style, marks, f.paint@.merged(marks)),
                    )
                },
                Inline::WikiLink { label, raw, source_range, marks } => if f.hidden {
                    Seq::empty()
                } else {
                    one(
                        source_or(
                            encode_utf8(raw@),
                            self.wiki_part(i, encode_utf8(raw@), source_range),
                            encode_utf8(label@),
                        ),
                        f.visible,
                        RunStyle::styled(self.style, marks, true, f.paint@.merged(marks)),
                    )
                },
                Inline::Emoji { glyph, marks, link, .. } => if f.hidden {
                    Seq::empty()
                } else {
                    one(
                        encode_utf8(glyph@),
                        f.visible,
                        RunStyle::styled(
                            self.style,
                            marks,
                            link is Some,
                            f.paint@.merged(marks),
                        ),
                    )
                },
            }
        }
    }
}

/// An inline of a leaf of which nothing is revealed paints its content and no
/// chrome.
pub proof fn unmet_inline_paints_content(x: LeafInput<'_>, lo: int, i: int)
    requires
        x.ok(),
        x.unmet(),
        0 <= lo <= i < x.inlines@.len(),
    ensures
        x.pieces(lo, i) == x.content(i),
{
    let state = *x.state;
    wrap::hidden_wraps_paint_nothing(x.wraps(), x.inlines@, i, state);
    links::hidden_links_paint_nothing(x.links(), x.inlines@, i, state);
    html_tags::hidden_tags_paint_nothing(x.pairs(), x.solos(), i as usize, state);
    let f = x.facts@[i];
    prefix::quiet_line_shows_no_prefix(x.bytes(), f.prefix, state, *x.hosts);
    let span = x.inlines@[i].span();
    assert(!state.meets(span));
    assert(!html_tags::inner_shown(x.pairs(), span, state));
    assert(x.opens(i) =~= Seq::<Piece>::empty());
    assert(x.closes(i) =~= Seq::<Piece>::empty());
    match x.widget_of(i) {
        Some(w) => {
            lemma_widget_at(x.widgets@, span.start, 0);
            assert(!state.meets(x.widgets@[w].range));
        },
        None => {
            assert(x.node_pieces(i) =~= x.content(i));
        },
    }
}

proof fn lemma_widget_at(widgets: Seq<TagfilterWidget>, at: usize, k: int)
    requires
        0 <= k,
    ensures
        widget_at(widgets, at, k) matches Some(w) ==> k <= w < widgets.len(),
    decreases widgets.len() - k,
{
    if k < widgets.len() && !(widgets[k].range.start <= at < widgets[k].range.end) {
        lemma_widget_at(widgets, at, k + 1);
    }
}

/// As long as nothing of a leaf is revealed, its layout does not depend on
/// where the caret and the selection are.
pub proof fn unmet_carets_paint_alike(
    x: LeafInput<'_>,
    y: LeafInput<'_>,
    paint_start: usize,
    paint_end: usize,
)
    requires
        x.ok(),
        x.unmet(),
        y.unmet(),
        y == (LeafInput { state: y.state, ..x }),
    ensures
        x.layout(paint_start, paint_end) == y.layout(paint_start, paint_end),
{
    lemma_unmet_alike(x, y, x.paint_lo(paint_start), x.paint_hi(paint_start, paint_end));
}

proof fn lemma_unmet_alike(x: LeafInput<'_>, y: LeafInput<'_>, lo: int, n: int)
    requires
        x.ok(),
        x.unmet(),
        y.unmet(),
        y == (LeafInput { state: y.state, ..x }),
        0 <= lo,
        n <= x.inlines@.len(),
    ensures
        x.all_pieces(lo, n) == y.all_pieces(lo, n),
    decreases n,
{
    if n > lo {
        lemma_unmet_alike(x, y, lo, n - 1);
        unmet_inline_paints_content(x, lo, n - 1);
        unmet_inline_paints_content(y, lo, n - 1);
        assert(x.content(n - 1) == y.content(n - 1));
    }
}

/// Every inline, and the chrome that is known of it, stands in the block.
pub open spec fn stand_inside(
    inlines: Seq<Inline>,
    facts: Seq<InlineFacts>,
    widgets: Seq<TagfilterWidget>,
    def_chrome: Option<LinkReferenceDefChrome>,
    block: Range<usize>,
) -> bool {
    &&& forall|i: int|
        0 <= i < inlines.len() ==> spans::within((#[trigger] inlines[i]).span(), block)
            && inlines[i].span().start <= inlines[i].span().end
    &&& forall|i: int|
        0 <= i < facts.len() ==> {
            let f = #[trigger] facts[i];
            &&& spans::within(f.core, block)
            &&& links::chrome_within(f, block)
            &&& f.angle matches Some(outer) ==> spans::within(outer, block)
        }
    &&& forall|k: int|
        0 <= k < widgets.len() ==> spans::within((#[trigger] widgets[k]).range, block)
    &&& def_chrome matches Some(c) ==> spans::within(c.outer, block)
}

impl<'a> LeafInput<'a> {
    /// Every inline of the leaf, and the chrome that is known of it, stands in
    /// the block.
    pub open spec fn inside(&self) -> bool {
        stand_inside(
            self.inlines@,
            self.facts@,
            self.widgets@,
            *self.def_chrome,
            self.block_range,
        )
    }

    /// The caret and the selection meet neither the block, nor a container of
    /// it, nor the prefix of one of its lines.
    pub open spec fn away(&self) -> bool {
        &&& !self.state.meets(self.block_range)
        &&& forall|i: int|
            0 <= i < self.facts@.len() ==> prefix::quiet(
                (#[trigger] self.facts@[i]).prefix,
                *self.state,
                *self.hosts,
            )
    }
}

/// A caret and a selection away from a block reveal nothing of its leaf.
pub proof fn away_reveals_nothing(x: LeafInput<'_>)
    requires
        x.ok(),
        x.inside(),
        x.away(),
    ensures
        x.unmet(),
{
    let block = x.block_range;
    assert(forall|r: Range<usize>| #[trigger] spans::within(r, block) ==> !x.state.meets(r));
    wrap::marked_spans_stay_within(x.bytes(), x.inlines@, x.facts@, block);
    links::links_stay_within(x.bytes(), x.inlines@, x.facts@, block);
    html_tags::tags_stay_within(x.inlines@, x.facts@, block);
    assert forall|k: int| 0 <= k < x.wraps().len() implies !x.state.meets(
        (#[trigger] x.wraps()[k]).reach,
    ) by {
        assert(spans::within(x.wraps()[k].reach, block));
    }
    assert forall|k: int| 0 <= k < x.links().len() implies !x.state.meets(
        (#[trigger] x.links()[k]).chrome.outer,
    ) by {
        assert(spans::within(x.links()[k].chrome.outer, block));
    }
    assert forall|k: int| 0 <= k < x.pairs().len() implies !x.state.meets(
        (#[trigger] x.pairs()[k]).span,
    ) by {
        assert(spans::within(x.pairs()[k].span, block));
    }
    assert forall|k: int| 0 <= k < x.solos().len() implies !x.state.meets(
        (#[trigger] x.solos()[k]).range,
    ) by {
        assert(spans::within(x.solos()[k].range, block));
    }
    assert forall|k: int| 0 <= k < x.widgets@.len() implies !x.state.meets(
        (#[trigger] x.widgets@[k]).range,
    ) by {
        assert(spans::within(x.widgets@[k].range, block));
    }
    assert forall|i: int| 0 <= i < x.inlines@.len() implies !x.state.meets(
        (#[trigger] x.inlines@[i]).span(),
    ) by {
        assert(spans::within(x.inlines@[i].span(), block));
    }
    assert forall|i: int| 0 <= i < x.facts@.len() implies {
        let f = #[trigger] x.facts@[i];
        &&& f.angle matches Some(outer) ==> !x.state.meets(outer)
        &&& prefix::quiet(f.prefix, *x.state, *x.hosts)
    } by {
        if let Some(outer) = x.facts@[i].angle {
            assert(spans::within(outer, block));
        }
    }
}

proof fn lemma_painted_sum(a: Seq<Piece>, b: Seq<Piece>)
    ensures
        layout::painted_text(a + b) == layout::painted_text(a) + layout::painted_text(b),
    decreases b.len(),
{
    if b.len() == 0 {
        assert(a + b =~= a);
        assert(layout::painted_text(a) + layout::painted_text(b) =~= layout::painted_text(a));
    } else {
        lemma_painted_sum(a, b.drop_last());
        assert((a + b).drop_last() =~= a + b.drop_last());
        assert((a + b).last() == b.last());
        assert(layout::painted_text(a) + layout::painted_text(b) =~= layout::painted_text(a)
            + layout::painted_text(b.drop_last()) + b.last().bytes);
    }
}

proof fn lemma_painted_one(bytes: Seq<u8>, src: Range<usize>, style: RunStyle)
    ensures
        layout::painted_text(one(bytes, src, style)) == bytes,
        layout::painted_text(Seq::empty()).len() == 0,
{
    let s = one(bytes, src, style);
    assert(s.drop_last() =~= Seq::<Piece>::empty());
    assert(layout::painted_text(s.drop_last()) =~= Seq::<u8>::empty());
    assert(layout::painted_text(s) =~= bytes);
}

proof fn lemma_painted_frame(
    raw: Seq<u8>,
    range: Range<usize>,
    w: usize,
    delim: RunStyle,
    inner: RunStyle,
)
    requires
        raw.len() >= 2 * w,
    ensures
        layout::painted_text(framed(raw, range, w, delim, inner)) == raw,
{
    let a = one(raw.take(w as int), (range.start..range.start.saturating_add(w)), delim);
    let b = one(
        raw.subrange(w as int, raw.len() - w),
        (range.start.saturating_add(w)..range.end.saturating_sub(w)),
        inner,
    );
    let c = one(raw.skip(raw.len() - w), (range.end.saturating_sub(w)..range.end), delim);
    lemma_painted_sum(a + b, c);
    lemma_painted_sum(a, b);
    lemma_painted_one(a[0].bytes, a[0].src, delim);
    lemma_painted_one(b[0].bytes, b[0].src, inner);
    lemma_painted_one(c[0].bytes, c[0].src, delim);
    assert(raw.take(w as int) + raw.subrange(w as int, raw.len() - w) + raw.skip(raw.len() - w)
        =~= raw);
}

/// What the inlines from `lo` up to `n` show, one behind the other.
pub open spec fn shown_text(x: LeafInput, lo: int, n: int) -> Seq<u8>
    decreases n,
{
    if n <= lo || n <= 0 {
        Seq::empty()
    } else {
        shown_text(x, lo, n - 1) + layout::painted_text(x.pieces(lo, n - 1))
    }
}

proof fn lemma_all_pieces(x: LeafInput, lo: int, n: int)
    ensures
        layout::painted_text(x.all_pieces(lo, n)) == shown_text(x, lo, n),
    decreases n,
{
    if n > lo && n > 0 {
        lemma_all_pieces(x, lo, n - 1);
        lemma_painted_sum(x.all_pieces(lo, n - 1), x.pieces(lo, n - 1));
    } else {
        assert(layout::painted_text(Seq::<Piece>::empty()) =~= Seq::<u8>::empty());
    }
}

/// A leaf shows its inlines one behind the other, from the first to the last
/// that are asked for, and starts where its block starts.
pub proof fn leaves_show_their_inlines(x: LeafInput, start: usize, end: usize)
    requires
        start <= end <= x.inlines@.len(),
    ensures
        x.layout(start, end).text == shown_text(x, start as int, end as int),
        x.layout(start, end).block_start == x.block_range.start,
{
    let pieces = x.all_pieces(start as int, end as int);
    lemma_all_pieces(x, start as int, end as int);
    layout::layouts_show_their_pieces(x.block_range.end, pieces, x.block_range.start);
}

/// What an HTML element hides shows nothing, whatever it is.
pub proof fn hidden_inlines_show_nothing(x: LeafInput, lo: int, i: int)
    requires
        x.facts@[i].hidden,
        x.widget_of(i) is None,
        !(x.inlines@[i] is OpaqueInline),
    ensures
        x.pieces(lo, i).len() == 0,
{
}

/// A formula that is met shows its source with the dollar signs apart: one on
/// each side, two where it is displayed. One that is not met shows its inside.
pub proof fn formulas_show_their_source_when_met(
    x: LeafInput,
    i: int,
    literal: Seq<u8>,
    display: bool,
    raw: Seq<u8>,
    range: Range<usize>,
    marks: MarkSet,
)
    ensures
        ({
            let all = x.math_pieces(i, literal, display, raw, range, marks);
            let vis = x.facts@[i].visible;
            let w: int = if display {
                2
            } else {
                1
            };
            &&& x.state.meets(range) ==> layout::painted_text(all) == raw
            &&& x.state.meets(range) && raw.len() >= 2 * w && text::boundary(raw, w)
                && text::boundary(raw, raw.len() - w) ==> all.len() == 3 && all[0].bytes.len() == w
                && all[2].bytes.len() == w && all[0].style.color is Delimiter && all[2].style.color
                is Delimiter
            &&& !x.state.meets(range) && vis.start <= vis.end && text::boundary(
                x.bytes(),
                vis.start as int,
            ) && text::boundary(x.bytes(), vis.end as int) ==> layout::painted_text(all)
                == x.bytes().subrange(vis.start as int, vis.end as int)
            &&& !x.state.meets(range) ==> all.len() == 1 && all[0].src == vis
        }),
{
    let style = RunStyle::math(x.style, marks, x.facts@[i].paint@.merged(marks));
    let w = dollar_width(display);
    if raw.len() >= 2 * w {
        lemma_painted_frame(raw, range, w, RunStyle::math_delim(), style);
    }
    lemma_painted_one(raw, range, style);
    let vis = x.facts@[i].visible;
    lemma_painted_one(
        match text::slice_of(x.bytes(), vis) {
            Some(s) => s,
            None => literal,
        },
        vis,
        style,
    );
}

/// A wiki link that is met shows its source, the brackets apart; one that is not
/// shows what its source shows of it, or its label.
pub proof fn wiki_links_show_their_source_when_met(
    x: LeafInput,
    i: int,
    label: Seq<u8>,
    raw: Seq<u8>,
    range: Range<usize>,
    marks: MarkSet,
)
    ensures
        ({
            let all = x.wiki_pieces(i, label, raw, range, marks);
            let vis = x.facts@[i].visible;
            let s = vis.start - range.start;
            let e = vis.end - range.start;
            &&& x.state.meets(range) ==> layout::painted_text(all) == raw
            &&& x.state.meets(range) && raw.len() >= 4 && raw[0] == 91 && raw[1] == 91
                && raw[raw.len() - 2] == 93 && raw[raw.len() - 1] == 93 ==> all.len() == 3
                && all[0].bytes.len() == 2 && all[2].bytes.len() == 2 && all[0].style.color
                is Delimiter && all[2].style.color is Delimiter
            &&& !x.state.meets(range) ==> all.len() == 1 && all[0].src == vis
            &&& !x.state.meets(range) && 0 <= s < e <= raw.len() && text::boundary(raw, s)
                && text::boundary(raw, e) ==> layout::painted_text(all) == raw.subrange(s, e)
            &&& !x.state.meets(range) && 0 <= s && s == e && e <= raw.len()
                ==> layout::painted_text(all) == label
        }),
{
    let style = RunStyle::styled(x.style, marks, true, x.facts@[i].paint@.merged(marks));
    if bracketed(raw) {
        lemma_painted_frame(raw, range, 2, RunStyle::delim(), style);
    }
    lemma_painted_one(raw, range, style);
    let part = x.wiki_part(i, raw, range);
    lemma_painted_one(source_or(raw, part, label), x.facts@[i].visible, style);
}

/// An emoji shows its code when it is met and its glyph when it is not.
pub proof fn emoji_show_their_code_when_met(
    x: LeafInput,
    i: int,
    glyph: Seq<u8>,
    raw: Seq<u8>,
    range: Range<usize>,
    marks: MarkSet,
    linked: bool,
)
    requires
        x.link_opens(i).len() == 0,
        x.link_closes(i).len() == 0,
    ensures
        ({
            let all = x.emoji_pieces(i, glyph, raw, range, marks, linked);
            &&& x.state.meets(range) ==> layout::painted_text(all) == raw && all.len() == 1
                && all[0].src == range
            &&& !x.state.meets(range) ==> layout::painted_text(all) == glyph && all.len() == 1
                && all[0].src == x.facts@[i].visible
        }),
{
    let style = RunStyle::styled(x.style, marks, linked, x.facts@[i].paint@.merged(marks));
    let all = x.emoji_pieces(i, glyph, raw, range, marks, linked);
    if x.state.meets(range) {
        assert(all =~= one(raw, range, style));
        lemma_painted_one(raw, range, style);
    } else {
        assert(all =~= one(glyph, x.facts@[i].visible, style));
        lemma_painted_one(glyph, x.facts@[i].visible, style);
    }
}

/// A soft break shows a space, or a line end where the prefix of the next line is
/// shown behind it; a hard break always shows a line end.
pub proof fn breaks_show_a_space_or_a_line_end(x: LeafInput, i: int, range: Range<usize>)
    ensures
        x.prefix_after(i) is None ==> layout::painted_text(x.soft_break_pieces(i, range)) == seq![
            32u8,
        ],
        x.prefix_after(i) is None ==> layout::painted_text(x.hard_break_pieces(i, range)) == seq![
            10u8,
        ],
        x.prefix_after(i) matches Some(p) ==> (p.start <= p.end && text::boundary(
            x.bytes(),
            p.start as int,
        ) && text::boundary(x.bytes(), p.end as int) ==> {
            let line = seq![10u8] + x.bytes().subrange(p.start as int, p.end as int);
            &&& layout::painted_text(x.soft_break_pieces(i, range)) == line
            &&& layout::painted_text(x.hard_break_pieces(i, range)) == line
        }),
        range.start < range.end ==> x.soft_break_pieces(i, range)[0].src == range
            && x.hard_break_pieces(i, range)[0].src == range,
{
    reveal_strlit("\n");
    reveal_strlit(" ");
    is_ascii_chars_encode_utf8("\n"@);
    is_ascii_chars_encode_utf8(" "@);
    assert(encode_utf8("\n"@) =~= seq![10u8]);
    assert(encode_utf8(" "@) =~= seq![32u8]);
    let style = RunStyle::styled(x.style, MarkSet::none(), false, x.facts@[i].paint@);
    let src = break_src(range);
    lemma_painted_one(seq![32u8], src, style);
    lemma_painted_one(seq![10u8], src, style);
    lemma_painted_one(seq![10u8], src, RunStyle::inherit());
    let hard = one(seq![10u8], src, RunStyle::inherit());
    assert(hard + Seq::<Piece>::empty() =~= hard);
    if x.prefix_after(i) is Some {
        let p = x.prefix_after(i)->0;
        if text::sliceable(x.bytes(), p) {
            let s = x.bytes().subrange(p.start as int, p.end as int);
            lemma_painted_one(s, p, RunStyle::delim());
            lemma_painted_sum(one(seq![10u8], src, style), one(s, p, RunStyle::delim()));
            lemma_painted_sum(hard, one(s, p, RunStyle::delim()));
        }
    }
}

/// An image in text shows nothing until it is met; then it shows its description
/// as it is written.
pub proof fn images_show_their_description_when_met(
    x: LeafInput,
    i: int,
    alt: Seq<u8>,
    range: Range<usize>,
    marks: MarkSet,
    inner: Range<usize>,
)
    requires
        x.opens(i).len() == 0,
        x.closes(i).len() == 0,
        alt_range(x.links(), i as usize, range) == inner,
    ensures
        ({
            let all = x.image_pieces(i, alt, range, marks);
            &&& !x.state.meets(range) ==> all.len() == 0
            &&& x.state.meets(range) && inner.start < inner.end && text::boundary(
                x.bytes(),
                inner.start as int,
            ) && text::boundary(x.bytes(), inner.end as int) ==> layout::painted_text(all)
                == x.bytes().subrange(inner.start as int, inner.end as int) && all[0].src == inner
            &&& x.state.meets(range) && inner.start == inner.end ==> layout::painted_text(all)
                == alt
        }),
{
    let style = RunStyle::styled(x.style, marks, true, x.facts@[i].paint@.merged(marks));
    let all = x.image_pieces(i, alt, range, marks);
    if x.state.meets(range) {
        let t = source_or(x.bytes(), inner, alt);
        assert(all =~= one(t, inner, style));
        lemma_painted_one(t, inner, style);
    }
}

/// The description of an image is what lies between its opening and its closing.
pub proof fn descriptions_lie_between_the_brackets(
    groups: Seq<LinkPaintGroup>,
    i: usize,
    range: Range<usize>,
    k: int,
)
    requires
        0 <= k < groups.len(),
        groups[k].key == LinkPaintKey::Image(i),
        forall|j: int| 0 <= j < k ==> (#[trigger] groups[j]).key != LinkPaintKey::Image(i),
    ensures
        groups[k].chrome.open.end < groups[k].chrome.close.start ==> alt_range(groups, i, range) == (
        groups[k].chrome.open.end..groups[k].chrome.close.start),
        groups[k].chrome.open.end >= groups[k].chrome.close.start ==> alt_range(groups, i, range)
            == range,
{
    lemma_find_link(groups, LinkPaintKey::Image(i), k);
}

proof fn lemma_find_link(groups: Seq<LinkPaintGroup>, key: LinkPaintKey, k: int)
    requires
        0 <= k < groups.len(),
        groups[k].key == key,
        forall|j: int| 0 <= j < k ==> (#[trigger] groups[j]).key != key,
    ensures
        find_link(groups, key) == Some(groups[k]),
    decreases groups.len(),
{
    if k > 0 {
        assert(groups[0].key != key);
        let rest = groups.drop_first();
        assert(rest[k - 1] == groups[k]);
        assert forall|j: int| 0 <= j < k - 1 implies (#[trigger] rest[j]).key != key by {
            assert(rest[j] == groups[j + 1]);
        }
        lemma_find_link(rest, key, k - 1);
    }
}

/// What a run shows: its text; its source, where an escape in it is met or the
/// padding of code is shown; raised or lowered characters, where HTML around it
/// asks for one of the two and is not shown itself.
pub proof fn runs_show_their_text(
    x: LeafInput,
    i: int,
    t: Seq<u8>,
    raw: Option<String>,
    range: Range<usize>,
    marks: MarkSet,
)
    ensures
        ({
            let f = x.facts@[i];
            let paint = f.paint@.merged(marks);
            let shown = x.run_text(i, t, raw, range, marks);
            let plain = !f.decoded && !marks.code;
            let inner = html_tags::inner_shown(x.pairs(), range, *x.state);
            &&& plain && !paint.sup && !paint.sub ==> shown == t
            &&& plain && inner ==> shown == t
            &&& plain && !inner && paint.sup && paint.sub ==> shown == t
            &&& plain && !inner && paint.sup && !paint.sub ==> shown == encode_utf8(f.superscript@)
            &&& plain && !inner && paint.sub && !paint.sup ==> shown == encode_utf8(f.subscript@)
            &&& !marks.code && f.decoded && x.state.meets(range) && raw is Some ==> shown
                == encode_utf8((raw->0)@)
            &&& !marks.code && f.decoded && x.state.meets(range) && raw is None
                && text::sliceable(x.bytes(), range) ==> shown == x.bytes().subrange(
                range.start as int,
                range.end as int,
            )
            &&& !marks.code && f.decoded && !x.state.meets(range) && !paint.sup && !paint.sub
                ==> shown == t
            &&& marks.code && f.code_visible == range && !paint.sup && !paint.sub ==> shown == t
            &&& marks.code && f.code_visible != range && x.state.meets(range) && text::sliceable(
                x.bytes(),
                range,
            ) ==> shown == x.bytes().subrange(range.start as int, range.end as int)
        }),
{
}

/// A run without chrome is its text alone, in its own style, and stands for its
/// source.
pub proof fn plain_runs_show_their_text_alone(
    x: LeafInput,
    i: int,
    t: Seq<u8>,
    raw: Option<String>,
    range: Range<usize>,
    marks: MarkSet,
    linked: bool,
)
    requires
        *x.def_chrome is None,
        x.opens(i).len() == 0,
        x.closes(i).len() == 0,
        x.facts@[i].angle is None,
    ensures
        ({
            let all = x.run_pieces(i, t, raw, range, marks, linked);
            &&& all.len() == 1
            &&& all[0].bytes == x.run_text(i, t, raw, range, marks)
            &&& !marks.code ==> all[0].src == range
            &&& all[0].style == RunStyle::styled(
                x.style,
                marks,
                linked,
                x.facts@[i].paint@.merged(marks),
            )
        }),
{
}

/// A run shows, around its text, the delimiters of the marks and links that open
/// and close at it.
pub proof fn runs_show_between_their_delimiters(
    x: LeafInput,
    i: int,
    t: Seq<u8>,
    raw: Option<String>,
    range: Range<usize>,
    marks: MarkSet,
    linked: bool,
)
    requires
        *x.def_chrome is None,
        x.facts@[i].angle is None,
    ensures
        layout::painted_text(x.run_pieces(i, t, raw, range, marks, linked))
            == layout::painted_text(x.opens(i)) + x.run_text(i, t, raw, range, marks)
            + layout::painted_text(x.closes(i)),
{
    let f = x.facts@[i];
    let src = if marks.code && !x.pad_shown(i, range, marks) {
        f.code_visible
    } else {
        range
    };
    let style = RunStyle::styled(x.style, marks, linked, f.paint@.merged(marks));
    let shown = x.run_text(i, t, raw, range, marks);
    let body = one(shown, src, style);
    let none = Seq::<Piece>::empty();
    let all = x.run_pieces(i, t, raw, range, marks, linked);
    assert(all =~= x.opens(i) + body + x.closes(i));
    lemma_painted_one(shown, src, style);
    lemma_painted_sum(x.opens(i), body);
    lemma_painted_sum(x.opens(i) + body, x.closes(i));
}

/// Delimiters are shown as they stand in the source, one behind the other.
pub proof fn delimiters_show_their_source(b: Seq<u8>, ranges: Seq<Range<usize>>, r: Range<usize>)
    requires
        r.start <= r.end,
        text::boundary(b, r.start as int),
        text::boundary(b, r.end as int),
    ensures
        layout::painted_text(source_pieces(b, ranges.push(r), RunStyle::delim()))
            == layout::painted_text(source_pieces(b, ranges, RunStyle::delim())) + b.subrange(
            r.start as int,
            r.end as int,
        ),
        source_pieces(b, ranges.push(r), RunStyle::delim()).last().src == r,
        layout::painted_text(source_pieces(b, Seq::empty(), RunStyle::delim())).len() == 0,
{
    assert(ranges.push(r).drop_last() =~= ranges);
    let s = b.subrange(r.start as int, r.end as int);
    lemma_painted_sum(source_pieces(b, ranges, RunStyle::delim()), one(s, r, RunStyle::delim()));
    lemma_painted_one(s, r, RunStyle::delim());
}

/// An autolink that is met stands in its angle brackets.
pub proof fn met_autolinks_show_their_brackets(x: LeafInput, i: int, body: Seq<Piece>)
    requires
        x.facts@[i].angle is Some,
    ensures
        x.state.meets(x.facts@[i].angle->0) ==> layout::painted_text(x.body_pieces(i, body))
            == seq![60u8] + layout::painted_text(body) + seq![62u8],
        !x.state.meets(x.facts@[i].angle->0) ==> x.body_pieces(i, body) == body,
{
    reveal_strlit("<");
    reveal_strlit(">");
    is_ascii_chars_encode_utf8("<"@);
    is_ascii_chars_encode_utf8(">"@);
    assert(encode_utf8("<"@) =~= seq![60u8]);
    assert(encode_utf8(">"@) =~= seq![62u8]);
    let outer = x.facts@[i].angle->0;
    let a = one(
        encode_utf8("<"@),
        (outer.start..outer.start.saturating_add(1)),
        RunStyle::delim(),
    );
    let z = one(
        encode_utf8(">"@),
        (outer.end.saturating_sub(1)..outer.end),
        RunStyle::delim(),
    );
    lemma_painted_one(a[0].bytes, a[0].src, RunStyle::delim());
    lemma_painted_one(z[0].bytes, z[0].src, RunStyle::delim());
    lemma_painted_sum(a + body, z);
    lemma_painted_sum(a, body);
}

/// The label of a link definition stands in its brackets where the definition is
/// met, and always before its colon.
pub proof fn definitions_show_their_colon(x: LeafInput, c: LinkReferenceDefChrome)
    requires
        *x.def_chrome == Some(c),
    ensures
        ({
            let met = x.state.meets(c.outer);
            let colon = source_piece(x.bytes(), c.colon, RunStyle::delim());
            &&& met ==> x.def_open(c.label) == source_piece(x.bytes(), c.open, RunStyle::delim())
            &&& !met ==> x.def_open(c.label).len() == 0
            &&& met ==> x.def_close(c.label) == source_piece(x.bytes(), c.close, RunStyle::delim())
                + colon
            &&& !met ==> x.def_close(c.label) == colon
        }),
        forall|r: Range<usize>|
            r != c.label ==> #[trigger] x.def_open(r).len() == 0 && x.def_close(r).len() == 0,
{
    assert(Seq::<Piece>::empty() + source_piece(x.bytes(), c.colon, RunStyle::delim())
        =~= source_piece(x.bytes(), c.colon, RunStyle::delim()));
}

/// What inline HTML shows: a break its line end, raw HTML its source, a footnote
/// reference its glyph, or its source when it is met.
pub proof fn inline_html_shows_what_it_does(x: LeafInput, i: int, raw: Seq<u8>, range: Range<usize>)
    ensures
        ({
            let all = x.opaque_pieces(i, raw, range);
            let action = x.facts@[i].action;
            &&& action is Break ==> layout::painted_text(all) == seq![10u8]
            &&& action is Raw ==> layout::painted_text(all) == raw
            &&& action is FootnoteRef && !x.state.meets(range) ==> layout::painted_text(all)
                == encode_utf8(action->glyph@) && all[0].src == x.facts@[i].visible
            &&& action is FootnoteRef && x.state.meets(range) && range.start < range.end
                && text::sliceable(x.bytes(), range) ==> layout::painted_text(all)
                == x.bytes().subrange(range.start as int, range.end as int)
            &&& (action is Hide || action is Image) && x.facts@[i].hidden ==> all.len() == 0
        }),
{
    reveal_strlit("\n");
    is_ascii_chars_encode_utf8("\n"@);
    assert(encode_utf8("\n"@) =~= seq![10u8]);
    let all = x.opaque_pieces(i, raw, range);
    if all.len() == 1 {
        assert(all =~= one(all[0].bytes, all[0].src, all[0].style));
        lemma_painted_one(all[0].bytes, all[0].src, all[0].style);
    }
}

/// A filtered element shows nothing but its source, once, where it is met and
/// may be shown.
pub proof fn filtered_elements_show_their_source_once(x: LeafInput, lo: int, i: int, w: int)
    requires
        x.widget_of(i) == Some(w),
    ensures
        !x.widgets@[w].source_chrome ==> x.pieces(lo, i).len() == 0,
        !x.state.meets(x.widgets@[w].range) ==> x.pieces(lo, i).len() == 0,
        forall|j: int|
            lo <= j < i && #[trigger] x.in_widget(j, x.widgets@[w].range.start) ==> x.pieces(
                lo,
                i,
            ).len() == 0,
        x.widgets@[w].source_chrome && x.state.meets(x.widgets@[w].range) && (forall|j: int|
            lo <= j < i ==> !#[trigger] x.in_widget(j, x.widgets@[w].range.start)) ==> x.pieces(
            lo,
            i,
        ) == source_piece(x.bytes(), x.widgets@[w].range, RunStyle::delim()),
{
}

/// An inline belongs to the first element that it starts in.
pub proof fn inlines_belong_to_the_element_they_start_in(
    widgets: Seq<TagfilterWidget>,
    at: usize,
    k: int,
    w: int,
)
    requires
        0 <= k <= w < widgets.len(),
        widgets[w].range.start <= at < widgets[w].range.end,
        forall|j: int|
            k <= j < w ==> !((#[trigger] widgets[j]).range.start <= at < widgets[j].range.end),
    ensures
        widget_at(widgets, at, k) == Some(w),
    decreases w - k,
{
    if k < w {
        assert(!(widgets[k].range.start <= at < widgets[k].range.end));
        inlines_belong_to_the_element_they_start_in(widgets, at, k + 1, w);
    }
}

/// A break stands for its source, or for one byte where it has none.
pub proof fn breaks_stand_for_at_least_a_byte(range: Range<usize>)
    requires
        range.start < usize::MAX,
    ensures
        range.start < range.end ==> break_src(range) == range,
        range.start >= range.end ==> break_src(range).start == range.start && break_src(range).end
            == range.start + 1,
{
}

/// Each inline that is not hidden is painted as what it is, from its own text,
/// source and marks.
pub proof fn inlines_are_painted_as_what_they_are(x: LeafInput, lo: int, i: int)
    requires
        x.widget_of(i) is None,
        !x.facts@[i].hidden,
    ensures
        ({
            let all = x.pieces(lo, i);
            let n = x.inlines@[i];
            let r = n.span();
            &&& n is Run ==> all == x.run_pieces(
                i,
                encode_utf8(n->Run_text@),
                n->Run_raw,
                r,
                n->Run_marks,
                n->Run_link is Some,
            )
            &&& n is Image ==> all == x.image_pieces(i, encode_utf8(n->alt@), r, n->Image_marks)
            &&& n is SoftBreak ==> all == x.soft_break_pieces(i, r)
            &&& n is HardBreak ==> all == x.hard_break_pieces(i, r)
            &&& n is Math ==> all == x.math_pieces(
                i,
                encode_utf8(n->literal@),
                n->display,
                encode_utf8(n->Math_raw@),
                r,
                n->Math_marks,
            )
            &&& n is WikiLink ==> all == x.wiki_pieces(
                i,
                encode_utf8(n->label@),
                encode_utf8(n->WikiLink_raw@),
                r,
                n->WikiLink_marks,
            )
            &&& n is Emoji ==> all == x.emoji_pieces(
                i,
                encode_utf8(n->glyph@),
                encode_utf8(n->Emoji_raw@),
                r,
                n->Emoji_marks,
                n->Emoji_link is Some,
            )
            &&& n is OpaqueInline ==> all == x.opaque_pieces(
                i,
                encode_utf8(n->OpaqueInline_raw@),
                r,
            )
        }),
{
}

} // verus!
