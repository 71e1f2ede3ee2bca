//! Line-box model for paragraphs that mix text and images.
//!
//! An image cannot stand inside a shaped text run, so a mixed paragraph is a
//! horizontal stack of runs (text that hugs its width, height-capped images)
//! that wrap as units. A paragraph of images alone stays block-sized.

use std::ops::Range;

use vstd::prelude::*;
use vstd::string::*;

use crate::geometry;
use crate::text;
use crate::text::dup;
use crate::tree::Inline;

verus! {

/// Maximal height of a block image: 480 pixels.
pub const BLOCK_IMAGE_MAX_HEIGHT: i64 = 31457280;

/// Maximal width of a block image: 720 pixels.
pub const BLOCK_IMAGE_MAX_WIDTH: i64 = 47185920;

/// How a leaf block's inlines should be painted.
#[derive(Debug, Clone, Copy, PartialEq, Eq, Structural)]
pub enum ParagraphFlow {
    /// No images: one text element that fills the width.
    TextOnly,
    /// Images and no other visible text: block-sized pixels with a caption.
    Standalone,
    /// Visible text and at least one image: runs in one row while they fit.
    Mixed,
}

/// Role that sizes a rendered image.
#[derive(Debug, Clone, Copy, PartialEq, Eq, Structural)]
pub enum ImageRole {
    /// Height capped at one and a half ems of the text around it.
    Inline,
    /// Natural size, capped at the maximal size of a block image.
    Block,
}

/// One item of a mixed line box.
#[derive(Debug, Clone, Copy, PartialEq, Eq, Structural)]
pub enum InlineSegment {
    /// The inlines from `start` up to `end`, none of them an image.
    Text { start: usize, end: usize },
    /// The image at `index`.
    Image { index: usize },
}

/// The inline is painted as an image.
pub open spec fn is_image(inline: Inline) -> bool {
    match inline {
        Inline::Image { .. } => true,
        Inline::OpaqueInline { image, .. } => image is Some,
        _ => false,
    }
}

/// `s` holds more than white space.
pub open spec fn has_ink(s: Seq<char>) -> bool {
    text::trimmed(s).len() > 0
}

/// The inline paints text that can be seen.
pub open spec fn shows_text(inline: Inline) -> bool {
    match inline {
        Inline::Run { text, .. } => has_ink(text@),
        Inline::Math { literal, .. } => has_ink(literal@),
        Inline::WikiLink { label, .. } => has_ink(label@),
        Inline::Emoji { glyph, .. } => has_ink(glyph@),
        Inline::OpaqueInline { raw, image, caret_chrome, .. } => image is None && !caret_chrome
            && has_ink(raw@),
        _ => false,
    }
}

/// How a paragraph of `inlines` should be painted.
pub open spec fn flow_of(inlines: Seq<Inline>) -> ParagraphFlow {
    if !(exists|i: int| 0 <= i < inlines.len() && is_image(#[trigger] inlines[i])) {
        ParagraphFlow::TextOnly
    } else if exists|i: int| 0 <= i < inlines.len() && shows_text(#[trigger] inlines[i]) {
        ParagraphFlow::Mixed
    } else {
        ParagraphFlow::Standalone
    }
}

fn is_visual_image(inline: &Inline) -> (yes: bool)
    ensures
        yes == is_image(*inline),
{
    match inline {
        Inline::Image { .. } => true,
        Inline::OpaqueInline { image, .. } => image.is_some(),
        _ => false,
    }
}

fn ink(s: &String) -> (yes: bool)
    ensures
        yes == has_ink(s@),
{
    !s.as_str().trim().is_empty()
}

fn inline_has_visible_text(inline: &Inline) -> (yes: bool)
    ensures
        yes == shows_text(*inline),
{
    match inline {
        Inline::Run { text, .. } => ink(text),
        Inline::Math { literal, .. } => ink(literal),
        Inline::WikiLink { label, .. } => ink(label),
        Inline::Emoji { glyph, .. } => ink(glyph),
        Inline::OpaqueInline { raw, image, caret_chrome, .. } => image.is_none() && !*caret_chrome
            && ink(raw),
        _ => false,
    }
}

/// How a paragraph should be painted.
pub fn classify_paragraph(inlines: &[Inline]) -> (flow: ParagraphFlow)
    ensures
        flow == flow_of(inlines@),
{
    let mut has_image = false;
    let mut has_text = false;
    let mut i: usize = 0;
    while i < inlines.len()
        invariant
            i <= inlines@.len(),
            has_image == exists|j: int| 0 <= j < i && is_image(#[trigger] inlines@[j]),
            has_text == exists|j: int| 0 <= j < i && shows_text(#[trigger] inlines@[j]),
        decreases inlines@.len() - i,
    {
        let image = is_visual_image(&inlines[i]);
        let text = inline_has_visible_text(&inlines[i]);
        assert(image == is_image(inlines@[i as int]));
        assert(text == shows_text(inlines@[i as int]));
        has_image = has_image || image;
        has_text = has_text || text;
        i = i + 1;
    }
    if !has_image {
        ParagraphFlow::TextOnly
    } else if has_text {
        ParagraphFlow::Mixed
    } else {
        ParagraphFlow::Standalone
    }
}

/// Alternative text, target and source of a Markdown image or of an HTML
/// image that may be shown.
pub fn visual_image(inline: &Inline) -> (found: Option<(String, String, Range<usize>)>)
    ensures
        found is Some <==> is_image(*inline),
        found matches Some((alt, url, range)) ==> range == inline.span() && match *inline {
            Inline::Image { alt: a, url: u, .. } => alt == a && url == u,
            Inline::OpaqueInline { image, .. } => alt == (image->0).alt && url == (image->0).url,
            _ => false,
        },
{
    match inline {
        Inline::Image { alt, url, source_range, .. } => Some(
            (alt.clone(), url.clone(), dup(source_range)),
        ),
        Inline::OpaqueInline { source_range, image, .. } => match image {
            Some(image) => Some((image.alt.clone(), image.url.clone(), dup(source_range))),
            None => None,
        },
        _ => None,
    }
}

/// The role of the images in a paragraph.
pub open spec fn role_in(flow: ParagraphFlow) -> Option<ImageRole> {
    match flow {
        ParagraphFlow::TextOnly => None,
        ParagraphFlow::Standalone => Some(ImageRole::Block),
        ParagraphFlow::Mixed => Some(ImageRole::Inline),
    }
}

/// Height of an inline image: one and a half ems.
pub open spec fn image_height(font_size: i64) -> i64 {
    geometry::coord(font_size * 3 / 2)
}

/// The role of the images in a paragraph.
pub fn image_role(flow: ParagraphFlow) -> (role: Option<ImageRole>)
    ensures
        role == role_in(flow),
{
    match flow {
        ParagraphFlow::TextOnly => None,
        ParagraphFlow::Standalone => Some(ImageRole::Block),
        ParagraphFlow::Mixed => Some(ImageRole::Inline),
    }
}

/// Height of an inline image: one and a half ems.
pub fn inline_image_height(font_size: i64) -> (height: i64)
    ensures
        height == image_height(font_size),
{
    let t: i128 = font_size as i128 * 3;
    // Division rounds toward zero, so negative values need a step down.
    let v: i128 = if t < 0 && t % 2 != 0 {
        t / 2 - 1
    } else {
        t / 2
    };
    if v > i64::MAX as i128 {
        i64::MAX
    } else if v < i64::MIN as i128 {
        i64::MIN
    } else {
        v as i64
    }
}

/// Where the text before inline `n` starts: behind the last image before it.
pub open spec fn text_start(inlines: Seq<Inline>, n: int) -> int
    decreases n,
{
    if n <= 0 {
        0
    } else if is_image(inlines[n - 1]) {
        n
    } else {
        text_start(inlines, n - 1)
    }
}

/// Segments of the first `n` inlines, without the text behind the last image.
pub open spec fn closed_segments(inlines: Seq<Inline>, n: int) -> Seq<InlineSegment>
    decreases n,
{
    if n <= 0 {
        Seq::empty()
    } else if is_image(inlines[n - 1]) {
        with_text(
            closed_segments(inlines, n - 1),
            text_start(inlines, n - 1),
            n - 1,
        ).push(InlineSegment::Image { index: (n - 1) as usize })
    } else {
        closed_segments(inlines, n - 1)
    }
}

/// `segments` followed by the text from `start` up to `end`, if there is any.
pub open spec fn with_text(segments: Seq<InlineSegment>, start: int, end: int) -> Seq<InlineSegment> {
    if start < end {
        segments.push(InlineSegment::Text { start: start as usize, end: end as usize })
    } else {
        segments
    }
}

/// The inlines of a paragraph, split on its images.
pub open spec fn segments_of(inlines: Seq<Inline>) -> Seq<InlineSegment> {
    let n = inlines.len() as int;
    with_text(closed_segments(inlines, n), text_start(inlines, n), n)
}

/// Splits inlines on images, so that each run can be an item of its own.
pub fn inline_segments(inlines: &[Inline]) -> (out: Vec<InlineSegment>)
    ensures
        out@ == segments_of(inlines@),
{
    let mut out: Vec<InlineSegment> = Vec::new();
    let mut start: usize = 0;
    let mut i: usize = 0;
    while i < inlines.len()
        invariant
            i <= inlines@.len(),
            start <= i,
            start == text_start(inlines@, i as int),
            out@ == closed_segments(inlines@, i as int),
        decreases inlines@.len() - i,
    {
        if is_visual_image(&inlines[i]) {
            if start < i {
                out.push(InlineSegment::Text { start, end: i });
            }
            out.push(InlineSegment::Image { index: i });
            start = i + 1;
        }
        i = i + 1;
    }
    if start < inlines.len() {
        out.push(InlineSegment::Text { start, end: inlines.len() });
    }
    out
}

/// Segment `s` holds inline `i`.
pub open spec fn holds(s: InlineSegment, i: int) -> bool {
    match s {
        InlineSegment::Text { start, end } => start <= i < end,
        InlineSegment::Image { index } => index == i,
    }
}

/// Inline `i` is in exactly one of `segments`.
pub open spec fn in_one(segments: Seq<InlineSegment>, i: int) -> bool {
    exists|k: int|
        0 <= k < segments.len() && holds(#[trigger] segments[k], i) && forall|j: int|
            0 <= j < segments.len() && holds(#[trigger] segments[j], i) ==> j == k
}

proof fn lemma_closed(inlines: Seq<Inline>, n: int, i: int)
    requires
        0 <= n <= inlines.len() <= usize::MAX,
    ensures
        0 <= text_start(inlines, n) <= n,
        forall|j: int| text_start(inlines, n) <= j < n ==> !is_image(#[trigger] inlines[j]),
        0 <= i < text_start(inlines, n) ==> in_one(closed_segments(inlines, n), i),
        i < 0 || i >= text_start(inlines, n) ==> forall|k: int|
            0 <= k < closed_segments(inlines, n).len() ==> !holds(
                #[trigger] closed_segments(inlines, n)[k],
                i,
            ),
        forall|k: int, j: int|
            0 <= k < closed_segments(inlines, n).len() && closed_segments(inlines, n)[k] is Text
                && holds(#[trigger] closed_segments(inlines, n)[k], j) ==> !is_image(
                #[trigger] inlines[j],
            ),
    decreases n,
{
    if n > 0 {
        lemma_closed(inlines, n - 1, i);
        if is_image(inlines[n - 1]) {
            let before = closed_segments(inlines, n - 1);
            let start = text_start(inlines, n - 1);
            let mid = with_text(before, start, n - 1);
            let all = closed_segments(inlines, n);
            let image = InlineSegment::Image { index: (n - 1) as usize };
            assert(all == mid.push(image));
            assert(all.last() == image);
            if 0 <= i < start {
                let k = choose|k: int|
                    0 <= k < before.len() && holds(#[trigger] before[k], i) && forall|j: int|
                        0 <= j < before.len() && holds(#[trigger] before[j], i) ==> j == k;
                assert(all[k] == before[k]);
                assert forall|j: int| 0 <= j < all.len() && holds(#[trigger] all[j], i) implies j
                    == k by {
                    if j < before.len() {
                        assert(all[j] == before[j]);
                    }
                }
            } else if start <= i < n - 1 {
                let k = before.len() as int;
                assert(holds(all[k], i));
                assert forall|j: int| 0 <= j < all.len() && holds(#[trigger] all[j], i) implies j
                    == k by {
                    if j < before.len() {
                        assert(all[j] == before[j]);
                    }
                }
            } else if i == n - 1 {
                let k = all.len() - 1;
                assert(holds(all[k], i));
                assert forall|j: int| 0 <= j < all.len() && holds(#[trigger] all[j], i) implies j
                    == k by {
                    if j < before.len() {
                        assert(all[j] == before[j]);
                    }
                }
            } else {
                assert forall|k: int| 0 <= k < all.len() implies !holds(#[trigger] all[k], i) by {
                    if k < before.len() {
                        assert(all[k] == before[k]);
                    }
                }
            }
            assert forall|k: int, j: int|
                0 <= k < all.len() && all[k] is Text && holds(#[trigger] all[k], j) implies !is_image(
                #[trigger] inlines[j],
            ) by {
                if k < before.len() {
                    assert(all[k] == before[k]);
                }
            }
        }
    }
}

/// Every inline of a paragraph is in exactly one segment.
pub proof fn segments_cover_once(inlines: Seq<Inline>, i: int)
    requires
        0 <= i < inlines.len() <= usize::MAX,
    ensures
        in_one(segments_of(inlines), i),
{
    let n = inlines.len() as int;
    lemma_closed(inlines, n, i);
    let before = closed_segments(inlines, n);
    let all = segments_of(inlines);
    let start = text_start(inlines, n);
    if i < start {
        let k = choose|k: int|
            0 <= k < before.len() && holds(#[trigger] before[k], i) && forall|j: int|
                0 <= j < before.len() && holds(#[trigger] before[j], i) ==> j == k;
        assert(all[k] == before[k]);
        assert forall|j: int| 0 <= j < all.len() && holds(#[trigger] all[j], i) implies j == k by {
            if j < before.len() {
                assert(all[j] == before[j]);
            }
        }
    } else {
        let k = before.len() as int;
        assert(holds(all[k], i));
        assert forall|j: int| 0 <= j < all.len() && holds(#[trigger] all[j], i) implies j == k by {
            if j < before.len() {
                assert(all[j] == before[j]);
            }
        }
    }
}

/// An image segment is an image, and a text segment holds none.
pub proof fn segments_are_sound(inlines: Seq<Inline>)
    requires
        inlines.len() <= usize::MAX,
    ensures
        forall|k: int|
            0 <= k < segments_of(inlines).len() ==> match #[trigger] segments_of(inlines)[k] {
                InlineSegment::Image { index } => index < inlines.len() && is_image(
                    inlines[index as int],
                ),
                InlineSegment::Text { start, end } => start < end <= inlines.len() && forall|j: int|
                    start <= j < end ==> !is_image(#[trigger] inlines[j]),
            },
{
    let n = inlines.len() as int;
    lemma_sound(inlines, n);
    lemma_closed(inlines, n, 0);
    let before = closed_segments(inlines, n);
    assert forall|k: int| 0 <= k < segments_of(inlines).len() implies match #[trigger] segments_of(
        inlines,
    )[k] {
        InlineSegment::Image { index } => index < inlines.len() && is_image(inlines[index as int]),
        InlineSegment::Text { start, end } => start < end <= inlines.len() && forall|j: int|
            start <= j < end ==> !is_image(#[trigger] inlines[j]),
    } by {
        if k < before.len() {
            assert(segments_of(inlines)[k] == before[k]);
        }
    }
}

proof fn lemma_sound(inlines: Seq<Inline>, n: int)
    requires
        0 <= n <= inlines.len() <= usize::MAX,
    ensures
        forall|k: int|
            0 <= k < closed_segments(inlines, n).len() ==> match #[trigger] closed_segments(
                inlines,
                n,
            )[k] {
                InlineSegment::Image { index } => index < n && is_image(inlines[index as int]),
                InlineSegment::Text { start, end } => start < end <= n && forall|j: int|
                    start <= j < end ==> !is_image(#[trigger] inlines[j]),
            },
    decreases n,
{
    if n > 0 {
        lemma_sound(inlines, n - 1);
        lemma_closed(inlines, n - 1, 0);
        let before = closed_segments(inlines, n - 1);
        let all = closed_segments(inlines, n);
        assert forall|k: int| 0 <= k < all.len() implies match #[trigger] all[k] {
            InlineSegment::Image { index } => index < n && is_image(inlines[index as int]),
            InlineSegment::Text { start, end } => start < end <= n && forall|j: int|
                start <= j < end ==> !is_image(#[trigger] inlines[j]),
        } by {
            if k < before.len() {
                assert(all[k] == before[k]);
            }
        }
    }
}

/// Total of the widths from `start` up to `end`; negative widths count as
/// none.
pub open spec fn used_width(widths: Seq<i64>, start: int, end: int) -> int
    decreases end - start,
{
    if start >= end {
        0
    } else {
        used_width(widths, start, end - 1) + geometry::longer(widths[end - 1], 0)
    }
}

/// Where the row that holds run `i` starts. A run that is wider than the
/// container still has a row of its own.
pub open spec fn row_of_run(widths: Seq<i64>, container: i64, i: int) -> int
    decreases i,
{
    if i <= 0 {
        0
    } else {
        let start = row_of_run(widths, container, i - 1);
        if used_width(widths, start, i + 1) > geometry::longer(container, 0) {
            i
        } else {
            start
        }
    }
}

/// The finished rows before run `n`.
pub open spec fn rows_before(widths: Seq<i64>, container: i64, n: int) -> Seq<Range<usize>>
    decreases n,
{
    if n <= 1 {
        Seq::empty()
    } else if row_of_run(widths, container, n - 1) == n - 1 {
        rows_before(widths, container, n - 1).push(
            (row_of_run(widths, container, n - 2) as usize..(n - 1) as usize),
        )
    } else {
        rows_before(widths, container, n - 1)
    }
}

/// Rows of runs of the given widths.
pub open spec fn packed(widths: Seq<i64>, container: i64) -> Seq<Range<usize>> {
    let n = widths.len() as int;
    if n == 0 {
        Seq::empty()
    } else {
        rows_before(widths, container, n).push(
            (row_of_run(widths, container, n - 1) as usize..n as usize),
        )
    }
}

/// Greedy wrap of run widths: a run that no longer fits starts a row.
pub fn pack_runs(widths: &[i64], container: i64) -> (rows: Vec<Range<usize>>)
    requires
        widths@.len() < 0x8000_0000_0000_0000,
    ensures
        rows@ == packed(widths@, container),
{
    let mut rows: Vec<Range<usize>> = Vec::new();
    if widths.len() == 0 {
        return rows;
    }
    let limit: i64 = if container >= 0 {
        container
    } else {
        0
    };
    let mut start: usize = 0;
    let first: i64 = if widths[0] >= 0 {
        widths[0]
    } else {
        0
    };
    let mut used: i128 = first as i128;
    let mut i: usize = 1;
    assert(used_width(widths@, 0, 1) == first) by {
        reveal_with_fuel(used_width, 2);
    }
    while i < widths.len()
        invariant
            1 <= i <= widths@.len(),
            widths@.len() < 0x8000_0000_0000_0000,
            limit == geometry::longer(container, 0),
            start < i,
            start == row_of_run(widths@, container, i - 1),
            used == used_width(widths@, start as int, i as int),
            0 <= used <= 0x7fff_ffff_ffff_ffff * i,
            rows@ == rows_before(widths@, container, i as int),
        decreases widths@.len() - i,
    {
        let w: i64 = if widths[i] >= 0 {
            widths[i]
        } else {
            0
        };
        assert(used_width(widths@, start as int, i + 1) == used + w);
        if used + w as i128 > limit as i128 {
            rows.push(start..i);
            start = i;
            used = w as i128;
            assert(used_width(widths@, i as int, i + 1) == w) by {
                reveal_with_fuel(used_width, 2);
            }
        } else {
            used = used + w as i128;
        }
        i = i + 1;
    }
    rows.push(start..widths.len());
    rows
}

proof fn lemma_row_start(widths: Seq<i64>, container: i64, i: int)
    requires
        0 <= i,
    ensures
        0 <= row_of_run(widths, container, i) <= i,
    decreases i,
{
    if i > 0 {
        lemma_row_start(widths, container, i - 1);
    }
}

/// `rows` are non-empty and follow each other from `0` up to `end`.
pub open spec fn chained(rows: Seq<Range<usize>>, end: int) -> bool {
    &&& forall|k: int| 0 <= k < rows.len() ==> (#[trigger] rows[k]).start < rows[k].end
    &&& rows.len() == 0 ==> end == 0
    &&& rows.len() > 0 ==> rows[0].start == 0 && rows.last().end == end
    &&& forall|k: int| 0 < k < rows.len() ==> #[trigger] rows[k].start == rows[k - 1].end
}

proof fn lemma_rows_chain(widths: Seq<i64>, container: i64, n: int)
    requires
        1 <= n <= widths.len() <= usize::MAX,
    ensures
        chained(rows_before(widths, container, n), row_of_run(widths, container, n - 1)),
    decreases n,
{
    lemma_row_start(widths, container, n - 1);
    if n > 1 {
        lemma_rows_chain(widths, container, n - 1);
        lemma_row_start(widths, container, n - 2);
    }
}

/// Packing puts every run into exactly one row, in order.
pub proof fn packing_partitions_runs(widths: Seq<i64>, container: i64)
    requires
        widths.len() <= usize::MAX,
    ensures
        chained(packed(widths, container), widths.len() as int),
{
    let n = widths.len() as int;
    if n > 0 {
        lemma_rows_chain(widths, container, n);
        lemma_row_start(widths, container, n - 1);
    }
}

/// A row of more than one run fits its container.
pub proof fn packed_row_fits(widths: Seq<i64>, container: i64, i: int)
    requires
        0 <= i < widths.len(),
        row_of_run(widths, container, i) < i,
    ensures
        used_width(widths, row_of_run(widths, container, i), i + 1) <= geometry::longer(
            container,
            0,
        ),
{
}

/// Which inlines are images: Markdown images, and HTML that is one.
pub proof fn images_are_markdown_or_html(inline: Inline)
    ensures
        inline is Image ==> is_image(inline) && !shows_text(inline),
        inline is OpaqueInline ==> (is_image(inline) <==> inline->OpaqueInline_image is Some),
        !(inline is Image) && !(inline is OpaqueInline) ==> !is_image(inline),
        is_image(inline) ==> !shows_text(inline),
{
}

proof fn lemma_start_keeps(s: Seq<char>, k: int)
    requires
        0 <= k < s.len(),
        !text::is_space(s[k]),
    ensures
        exists|j: int|
            0 <= j < text::trimmed_start(s).len() && !text::is_space(
                #[trigger] text::trimmed_start(s)[j],
            ),
    decreases s.len(),
{
    if text::is_space(s[0]) {
        assert(s.drop_first()[k - 1] == s[k]);
        lemma_start_keeps(s.drop_first(), k - 1);
        let t = text::trimmed_start(s.drop_first());
        let j = choose|j: int| 0 <= j < t.len() && !text::is_space(#[trigger] t[j]);
        assert(text::trimmed_start(s) == t);
        assert(!text::is_space(text::trimmed_start(s)[j]));
    } else {
        assert(!text::is_space(text::trimmed_start(s)[k]));
    }
}

proof fn lemma_end_keeps(s: Seq<char>, k: int)
    requires
        0 <= k < s.len(),
        !text::is_space(s[k]),
    ensures
        text::trimmed_end(s).len() > 0,
    decreases s.len(),
{
    if text::is_space(s.last()) {
        assert(s.drop_last()[k] == s[k]);
        lemma_end_keeps(s.drop_last(), k);
    }
}

/// Text shows where one of its characters is no white space.
pub proof fn ink_is_no_white_space(s: Seq<char>)
    ensures
        has_ink(s) <==> exists|k: int| 0 <= k < s.len() && !text::is_space(#[trigger] s[k]),
{
    if exists|k: int| 0 <= k < s.len() && !text::is_space(#[trigger] s[k]) {
        let k = choose|k: int| 0 <= k < s.len() && !text::is_space(#[trigger] s[k]);
        lemma_start_keeps(s, k);
        let t = text::trimmed_start(s);
        let j = choose|j: int| 0 <= j < t.len() && !text::is_space(#[trigger] t[j]);
        lemma_end_keeps(t, j);
    } else {
        text::trimming_takes_the_margins(s, Seq::empty(), Seq::empty());
        assert(s + Seq::<char>::empty() + Seq::<char>::empty() =~= s);
    }
}

/// Which inlines show text: runs, formulas, wiki links and emoji by what they
/// show, and other HTML by its source, unless it only hosts the caret. Breaks
/// show none.
pub proof fn text_shows_with_its_ink(inline: Inline)
    ensures
        inline is Run ==> (shows_text(inline) <==> has_ink(inline->Run_text@)),
        inline is Math ==> (shows_text(inline) <==> has_ink(inline->literal@)),
        inline is WikiLink ==> (shows_text(inline) <==> has_ink(inline->label@)),
        inline is Emoji ==> (shows_text(inline) <==> has_ink(inline->glyph@)),
        inline is OpaqueInline && inline->OpaqueInline_image is None && !inline->caret_chrome ==> (
        shows_text(inline) <==> has_ink(inline->OpaqueInline_raw@)),
        inline is OpaqueInline && inline->caret_chrome ==> !shows_text(inline),
        inline is SoftBreak || inline is HardBreak ==> !shows_text(inline),
{
}

/// A paragraph with an image is mixed where text shows beside it and stands
/// alone where none does; without an image it is text.
pub proof fn paragraphs_are_mixed_by_their_text(inlines: Seq<Inline>, i: int, j: int)
    requires
        0 <= i < inlines.len(),
        0 <= j < inlines.len(),
    ensures
        is_image(inlines[i]) ==> flow_of(inlines) != ParagraphFlow::TextOnly,
        is_image(inlines[i]) && shows_text(inlines[j]) ==> flow_of(inlines) == ParagraphFlow::Mixed,
        flow_of(inlines) == ParagraphFlow::Standalone ==> !shows_text(inlines[j]),
        flow_of(inlines) == ParagraphFlow::TextOnly ==> !is_image(inlines[j]),
{
}

/// Images beside text are small, images without are large, and text has none.
pub proof fn roles_follow_the_flow(flow: ParagraphFlow)
    ensures
        flow == ParagraphFlow::Mixed <==> role_in(flow) == Some(ImageRole::Inline),
        flow == ParagraphFlow::Standalone <==> role_in(flow) == Some(ImageRole::Block),
        flow == ParagraphFlow::TextOnly <==> role_in(flow) is None,
{
}

/// An image beside text is half as high again as the text.
pub proof fn inline_images_are_half_as_high_again(font_size: i64)
    requires
        0 <= font_size <= 4611686018427387903,
    ensures
        2 * image_height(font_size) <= 3 * font_size < 2 * image_height(font_size) + 2,
{
}

/// Where the inlines of a segment start.
pub open spec fn seg_start(s: InlineSegment) -> int {
    match s {
        InlineSegment::Text { start, .. } => start as int,
        InlineSegment::Image { index } => index as int,
    }
}

/// Where the inlines of a segment end.
pub open spec fn seg_end(s: InlineSegment) -> int {
    match s {
        InlineSegment::Text { end, .. } => end as int,
        InlineSegment::Image { index } => index + 1,
    }
}

/// `segments` follow each other from the first inline up to `end`.
pub open spec fn follow_on(segments: Seq<InlineSegment>, end: int) -> bool {
    &&& segments.len() == 0 ==> end == 0
    &&& segments.len() > 0 ==> seg_start(segments[0]) == 0 && seg_end(segments.last()) == end
    &&& forall|k: int|
        0 < k < segments.len() ==> seg_start(#[trigger] segments[k]) == seg_end(segments[k - 1])
}

proof fn lemma_follow_push(segments: Seq<InlineSegment>, end: int, s: InlineSegment)
    requires
        follow_on(segments, end),
        seg_start(s) == end,
    ensures
        follow_on(segments.push(s), seg_end(s)),
{
    let t = segments.push(s);
    assert forall|k: int| 0 < k < t.len() implies seg_start(#[trigger] t[k]) == seg_end(
        t[k - 1],
    ) by {
        if k < segments.len() {
            assert(t[k] == segments[k] && t[k - 1] == segments[k - 1]);
        } else {
            assert(t[k - 1] == segments.last());
        }
    }
}

proof fn lemma_closed_follow(inlines: Seq<Inline>, n: int)
    requires
        0 <= n <= inlines.len() <= usize::MAX,
    ensures
        follow_on(closed_segments(inlines, n), text_start(inlines, n)),
        0 <= text_start(inlines, n) <= n,
    decreases n,
{
    if n > 0 {
        lemma_closed_follow(inlines, n - 1);
        if is_image(inlines[n - 1]) {
            let start = text_start(inlines, n - 1);
            let before = closed_segments(inlines, n - 1);
            if start < n - 1 {
                lemma_follow_push(
                    before,
                    start,
                    InlineSegment::Text { start: start as usize, end: (n - 1) as usize },
                );
            }
            lemma_follow_push(
                with_text(before, start, n - 1),
                n - 1,
                InlineSegment::Image { index: (n - 1) as usize },
            );
        }
    }
}

/// The segments of a paragraph follow each other without a gap, from its first
/// inline to its last.
pub proof fn segments_follow_each_other(inlines: Seq<Inline>)
    requires
        inlines.len() <= usize::MAX,
    ensures
        follow_on(segments_of(inlines), inlines.len() as int),
{
    let n = inlines.len() as int;
    lemma_closed_follow(inlines, n);
    let start = text_start(inlines, n);
    if start < n {
        lemma_follow_push(
            closed_segments(inlines, n),
            start,
            InlineSegment::Text { start: start as usize, end: n as usize },
        );
    }
}

/// Runs take the room that they are wide, and none if they are not wide at all.
pub proof fn runs_take_their_width(widths: Seq<i64>, start: int, end: int)
    requires
        start <= end,
    ensures
        used_width(widths, start, start) == 0,
        widths[end] >= 0 ==> used_width(widths, start, end + 1) == used_width(widths, start, end)
            + widths[end],
        widths[end] < 0 ==> used_width(widths, start, end + 1) == used_width(widths, start, end),
{
}

proof fn lemma_rows_filled(widths: Seq<i64>, container: i64, n: int, k: int)
    requires
        0 <= n <= widths.len() <= usize::MAX,
        0 <= k < rows_before(widths, container, n).len(),
    ensures
        ({
            let r = rows_before(widths, container, n)[k];
            r.end < n && used_width(widths, r.start as int, r.end + 1) > container
        }),
    decreases n,
{
    if n > 1 {
        let before = rows_before(widths, container, n - 1);
        if k < before.len() {
            lemma_rows_filled(widths, container, n - 1, k);
        } else {
            lemma_row_start(widths, container, n - 2);
        }
    }
}

/// A row takes as many runs as fit: the first of the next row would not have
/// fitted, and where there is more than one run in a row they do fit.
pub proof fn rows_take_what_fits(widths: Seq<i64>, container: i64, k: int)
    requires
        widths.len() <= usize::MAX,
        0 <= k < packed(widths, container).len(),
    ensures
        ({
            let rows = packed(widths, container);
            &&& k < rows.len() - 1 ==> used_width(widths, rows[k].start as int, rows[k].end + 1)
                > container
            &&& rows[k].end - rows[k].start > 1 ==> used_width(
                widths,
                rows[k].start as int,
                rows[k].end as int,
            ) <= container || (container < 0 && used_width(
                widths,
                rows[k].start as int,
                rows[k].end as int,
            ) <= 0)
        }),
{
    let n = widths.len() as int;
    let rows = packed(widths, container);
    lemma_row_start(widths, container, n - 1);
    if k < rows.len() - 1 {
        lemma_rows_filled(widths, container, n, k);
        lemma_rows_fit(widths, container, n, k);
    } else if rows[k].end - rows[k].start > 1 {
        packed_row_fits(widths, container, n - 1);
    }
}

proof fn lemma_rows_fit(widths: Seq<i64>, container: i64, n: int, k: int)
    requires
        0 <= n <= widths.len() <= usize::MAX,
        0 <= k < rows_before(widths, container, n).len(),
    ensures
        ({
            let r = rows_before(widths, container, n)[k];
            r.end - r.start > 1 ==> used_width(widths, r.start as int, r.end as int)
                <= geometry::longer(container, 0)
        }),
    decreases n,
{
    if n > 1 {
        let before = rows_before(widths, container, n - 1);
        if k < before.len() {
            lemma_rows_fit(widths, container, n - 1, k);
        } else {
            lemma_row_start(widths, container, n - 2);
            if row_of_run(widths, container, n - 2) < n - 2 {
                packed_row_fits(widths, container, n - 2);
            }
        }
    }
}

} // verus!
