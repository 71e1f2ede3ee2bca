//! Painted rows of a leaf: selection segments, caret rectangles, hit testing,
//! and the text of overlay widgets.

use std::ops::Range;

use vstd::prelude::*;
use vstd::string::*;
use vstd::utf8::*;

use crate::bytes;
use crate::bytes::{greater, lesser};
use crate::geometry;
use crate::geometry::{max_px, min_px, minus, plus, Bounds, Point, PX};
use crate::ime::{VisualCaretStop, VisualLine};
use crate::layout;
use crate::layout::{LeafLayout, LeafView, TextRun};
use crate::style::{plain_run, RunStyle};
use crate::text;
use crate::text::{at_boundary, byte_len, get, own, push_str, slice};

verus! {

/// Visible offset `vis` of an overlay as an offset of its draft.
pub open spec fn draft_offset_of(
    prefix_len: usize,
    vis: usize,
    draft_len: usize,
    caret: usize,
    preedit_len: usize,
) -> int {
    let at = vis.saturating_sub(prefix_len) as int;
    let caret = bytes::least(caret, draft_len) as int;
    if at <= caret {
        at
    } else if at <= caret + preedit_len {
        caret
    } else if at - preedit_len <= draft_len {
        at - preedit_len
    } else {
        draft_len as int
    }
}

/// Maps a visible index of the shaped overlay text onto the overlay draft.
/// The overlay shows a prefix, and marked text at the caret.
pub fn overlay_draft_offset(
    prefix_len: usize,
    vis: usize,
    draft_len: usize,
    caret: usize,
    preedit_len: usize,
) -> (offset: usize)
    ensures
        offset == draft_offset_of(prefix_len, vis, draft_len, caret, preedit_len),
        offset <= draft_len,
{
    let at: usize = vis.saturating_sub(prefix_len);
    let caret: usize = lesser(caret, draft_len);
    if at <= caret {
        lesser(at, draft_len)
    } else if at - caret <= preedit_len {
        caret
    } else {
        lesser(at.saturating_sub(preedit_len), draft_len)
    }
}

/// Without marked text every draft offset is found again from where it is
/// painted.
pub proof fn overlay_round_trip(prefix_len: usize, offset: usize, draft_len: usize, caret: usize)
    requires
        offset <= draft_len,
        prefix_len + offset <= usize::MAX,
    ensures
        draft_offset_of(prefix_len, (prefix_len + offset) as usize, draft_len, caret, 0) == offset,
{
}

/// A click inside the marked text stays at the caret.
pub proof fn preedit_click_stays_at_caret(
    prefix_len: usize,
    vis: usize,
    draft_len: usize,
    caret: usize,
    preedit_len: usize,
)
    requires
        caret <= draft_len,
        prefix_len + caret <= vis <= prefix_len + caret + preedit_len,
    ensures
        draft_offset_of(prefix_len, vis, draft_len, caret, preedit_len) == caret,
{
}

/// A selected segment of a visual row: row number, row start, and the
/// selected part, relative to the line.
pub open spec fn segment(
    selection: Range<usize>,
    row_ends: Seq<usize>,
    row: int,
) -> Option<(usize, usize, Range<usize>)> {
    let row_start: usize = if row == 0 {
        0
    } else {
        row_ends[row - 1]
    };
    let start = bytes::greatest(selection.start, row_start);
    let end = bytes::least(selection.end, row_ends[row]);
    if start < end {
        Some((row as usize, row_start, start..end))
    } else {
        None
    }
}

/// The selected segments of the first `n` rows, in order.
pub open spec fn segments(selection: Range<usize>, row_ends: Seq<usize>, n: int) -> Seq<
    (usize, usize, Range<usize>),
>
    decreases n,
{
    if n <= 0 {
        Seq::empty()
    } else {
        let before = segments(selection, row_ends, n - 1);
        match segment(selection, row_ends, n - 1) {
            Some(s) => before.push(s),
            None => before,
        }
    }
}

/// `selection` relative to a line that starts at `line_offset`.
pub open spec fn relative(selection: Range<usize>, line_offset: usize) -> Range<usize> {
    selection.start.saturating_sub(line_offset)..selection.end.saturating_sub(line_offset)
}

/// Splits a selection at visual wrap boundaries; each segment gets a quad of
/// its own, one line high. `row_ends` are relative to the line.
pub fn selected_visual_rows(selection: &Range<usize>, line_offset: usize, row_ends: &[usize]) -> (
    selected: Vec<(usize, usize, Range<usize>)>)
    ensures
        selected@ == segments(relative(*selection, line_offset), row_ends@, row_ends@.len() as int),
{
    let rel = selection.start.saturating_sub(line_offset)..selection.end.saturating_sub(
        line_offset,
    );
    let mut row_start: usize = 0;
    let mut selected: Vec<(usize, usize, Range<usize>)> = Vec::new();
    let mut row: usize = 0;
    while row < row_ends.len()
        invariant
            row <= row_ends@.len(),
            rel == relative(*selection, line_offset),
            row == 0 ==> row_start == 0,
            row > 0 ==> row_start == row_ends@[row - 1],
            selected@ == segments(rel, row_ends@, row as int),
        decreases row_ends@.len() - row,
    {
        let start: usize = greater(rel.start, row_start);
        let end: usize = lesser(rel.end, row_ends[row]);
        if start < end {
            selected.push((row, row_start, start..end));
        }
        row_start = row_ends[row];
        row = row + 1;
    }
    selected
}

/// Offset `at` is in one of the segments.
pub open spec fn in_segments(s: Seq<(usize, usize, Range<usize>)>, at: int) -> bool {
    exists|k: int| 0 <= k < s.len() && (#[trigger] s[k]).2.start <= at < s[k].2.end
}

/// Where row ends never go back, the segments hold exactly the selected
/// offsets of the line: nothing unselected is filled, nothing selected is
/// left out.
pub proof fn segments_cover_selection(selection: Range<usize>, row_ends: Seq<usize>, n: int, at: int)
    requires
        0 <= n <= row_ends.len(),
        0 <= at,
        forall|i: int, j: int| 0 <= i <= j < row_ends.len() ==> row_ends[i] <= row_ends[j],
    ensures
        in_segments(segments(selection, row_ends, n), at) <==> n > 0 && selection.start <= at
            < selection.end && at < row_ends[n - 1],
    decreases n,
{
    if n > 0 {
        segments_cover_selection(selection, row_ends, n - 1, at);
        let before = segments(selection, row_ends, n - 1);
        let all = segments(selection, row_ends, n);
        let row_start: usize = if n == 1 {
            0
        } else {
            row_ends[n - 2]
        };
        if n > 1 {
            assert(row_ends[n - 2] <= row_ends[n - 1]);
        }
        match segment(selection, row_ends, n - 1) {
            Some(s) => {
                assert(all == before.push(s));
                if in_segments(before, at) {
                    let k = choose|k: int|
                        0 <= k < before.len() && (#[trigger] before[k]).2.start <= at
                            < before[k].2.end;
                    assert(all[k] == before[k]);
                }
                if s.2.start <= at < s.2.end {
                    assert(all[before.len() as int] == s);
                }
                if in_segments(all, at) {
                    let k = choose|k: int|
                        0 <= k < all.len() && (#[trigger] all[k]).2.start <= at < all[k].2.end;
                    if k < before.len() {
                        assert(before[k] == all[k]);
                        assert(in_segments(before, at));
                    }
                }
            },
            None => {},
        }
    } else {
        assert(segments(selection, row_ends, n).len() == 0);
    }
}

/// A shaped line of text, as the text system measured it.
#[derive(Debug, PartialEq, Eq)]
pub struct ShapedLine {
    /// Length in bytes.
    pub len: usize,
    /// Measured height, soft-wrapped rows included.
    pub height: i64,
    /// Byte offset of the first glyph of each soft-wrapped row but the first.
    pub wraps: Vec<usize>,
    /// Position of the caret at each byte offset, where it has one.
    pub points: Vec<Option<Point>>,
    /// Horizontal position of each byte offset on the unwrapped line.
    pub xs: Vec<i64>,
}

impl ShapedLine {
    /// Height that the line takes.
    pub open spec fn extent(&self, line_height: i64) -> i64 {
        geometry::longer(self.height, line_height)
    }

    /// Where its rows end.
    pub open spec fn ends(&self) -> Seq<usize> {
        self.wraps@.push(self.len)
    }

    /// Position of the caret at the offset `at`.
    pub open spec fn point_at(&self, at: int) -> Option<Point> {
        if 0 <= at < self.points@.len() {
            self.points@[at]
        } else {
            None
        }
    }

    /// Horizontal position of the offset `at` on the unwrapped line; past the
    /// end that of the end.
    pub open spec fn x_at(&self, at: int) -> i64 {
        if 0 <= at < self.xs@.len() {
            self.xs@[at]
        } else if self.xs@.len() > 0 {
            self.xs@.last()
        } else {
            0
        }
    }

    fn row_ends(&self) -> (ends: Vec<usize>)
        ensures
            ends@ == self.ends(),
    {
        let mut ends: Vec<usize> = self.wraps.clone();
        assert(ends@ =~= self.wraps@);
        ends.push(self.len);
        ends
    }

    fn find_point(&self, at: usize) -> (p: Option<Point>)
        ensures
            p == self.point_at(at as int),
    {
        if at < self.points.len() {
            self.points[at]
        } else {
            None
        }
    }

    fn find_x(&self, at: usize) -> (x: i64)
        ensures
            x == self.x_at(at as int),
    {
        if at < self.xs.len() {
            self.xs[at]
        } else if self.xs.len() > 0 {
            self.xs[self.xs.len() - 1]
        } else {
            0
        }
    }
}

/// Top edge of line `k`.
pub open spec fn line_top(lines: Seq<ShapedLine>, top: i64, line_height: i64, k: int) -> i64
    decreases k,
{
    if k <= 0 {
        top
    } else {
        geometry::coord(
            line_top(lines, top, line_height, k - 1) + lines[k - 1].extent(line_height),
        )
    }
}

/// Visible offset at which line `k` starts.
pub open spec fn line_start(lines: Seq<ShapedLine>, k: int) -> usize
    decreases k,
{
    if k <= 0 {
        0
    } else {
        line_start(lines, k - 1).saturating_add(lines[k - 1].len)
    }
}

/// The line that a position falls on, from line `k` on: the first whose lower
/// edge is below it, and otherwise the last.
pub open spec fn line_under(
    lines: Seq<ShapedLine>,
    top: i64,
    line_height: i64,
    y: i64,
    k: int,
) -> Option<int>
    decreases lines.len() - k,
{
    if k < 0 || k >= lines.len() {
        None
    } else if k == lines.len() - 1 || y < line_top(lines, top, line_height, k + 1) {
        Some(k)
    } else {
        line_under(lines, top, line_height, y, k + 1)
    }
}

/// A position on a shaped line.
#[derive(Debug, Clone, Copy, PartialEq, Eq, Structural)]
pub struct LineHit {
    /// Which line.
    pub line: usize,
    /// Visible offset at which the line starts.
    pub offset: usize,
    /// The position relative to the line.
    pub local: Point,
}

/// The position `p` on line `k`, kept half a pixel inside its lower edge.
pub open spec fn hit_on(
    lines: Seq<ShapedLine>,
    bounds: Bounds,
    p: Point,
    line_height: i64,
    k: int,
) -> LineHit {
    let room = geometry::longer(
        geometry::coord(lines[k].extent(line_height) - PX / 2),
        0,
    );
    let y = geometry::coord(p.y - line_top(lines, bounds.y, line_height, k));
    LineHit {
        line: k as usize,
        offset: line_start(lines, k),
        local: Point {
            x: geometry::coord(p.x - bounds.x),
            y: geometry::shorter(geometry::longer(y, 0), room),
        },
    }
}

/// The line under the position `p`.
pub open spec fn hit_at(lines: Seq<ShapedLine>, bounds: Bounds, p: Point, line_height: i64) -> Option<
    LineHit,
> {
    match line_under(lines, bounds.y, line_height, p.y, 0) {
        Some(k) => Some(hit_on(lines, bounds, p, line_height, k)),
        None => None,
    }
}

/// The line under the position `p`, to be asked for the closest glyph. `None`
/// when there is no line.
pub fn visible_index_at(lines: &Vec<ShapedLine>, bounds: &Bounds, p: Point, line_height: i64) -> (hit:
    Option<LineHit>)
    ensures
        hit == hit_at(lines@, *bounds, p, line_height),
{
    let mut y: i64 = bounds.y;
    let mut offset: usize = 0;
    let mut k: usize = 0;
    while k < lines.len()
        invariant
            k <= lines@.len(),
            y == line_top(lines@, bounds.y, line_height, k as int),
            offset == line_start(lines@, k as int),
            line_under(lines@, bounds.y, line_height, p.y, 0) == line_under(
                lines@,
                bounds.y,
                line_height,
                p.y,
                k as int,
            ),
        decreases lines@.len() - k,
    {
        let h: i64 = max_px(lines[k].height, line_height);
        let next_y: i64 = plus(y, h);
        if p.y < next_y || k == lines.len() - 1 {
            let room: i64 = max_px(minus(h, PX / 2), 0);
            let local_y: i64 = min_px(max_px(minus(p.y, y), 0), room);
            return Some(
                LineHit {
                    line: k,
                    offset,
                    local: Point { x: minus(p.x, bounds.x), y: local_y },
                },
            );
        }
        offset = offset.saturating_add(lines[k].len);
        y = next_y;
        k = k + 1;
    }
    None
}

/// A painted row without its stops, and the stops.
#[verifier::ext_equal]
pub struct RowView {
    pub visible_start: usize,
    pub visible_end: usize,
    pub top: i64,
    pub height: i64,
    pub stops: Seq<VisualCaretStop>,
}

impl View for VisualLine {
    type V = RowView;

    open spec fn view(&self) -> RowView {
        RowView {
            visible_start: self.visible_start,
            visible_end: self.visible_end,
            top: self.top,
            height: self.height,
            stops: self.stops@,
        }
    }
}

/// End of row `row` of a line: inside the line and not before its start.
pub open spec fn row_stop(line: ShapedLine, row: int) -> usize
    decreases row,
{
    let start = row_begin(line, row);
    bytes::least(bytes::greatest(line.ends()[row], start), line.len)
}

/// Start of row `row` of a line.
pub open spec fn row_begin(line: ShapedLine, row: int) -> usize
    decreases row,
{
    if row <= 0 {
        0
    } else {
        let start = row_begin(line, row - 1);
        bytes::least(bytes::greatest(line.ends()[row - 1], start), line.len)
    }
}

/// The visible offset `o` is a caret stop of a row from `vs` to `ve`: an end
/// of the row, or a character start between them.
pub open spec fn is_stop(b: Seq<u8>, vs: usize, ve: usize, o: int) -> bool {
    o == vs || o == ve || (text::sliceable(b, (vs..ve)) && text::boundary(b, o))
}

/// Horizontal position of the stop at the visible offset `o`: the left edge at
/// the start of the row, else where the line puts the caret.
pub open spec fn stop_x(line: ShapedLine, bounds: Bounds, offset: usize, begin: usize, o: int) -> Option<
    i64,
> {
    let local = (o as usize).saturating_sub(offset);
    if local == begin {
        Some(bounds.x)
    } else {
        match line.point_at(local as int) {
            Some(p) => Some(geometry::coord(p.x + bounds.x)),
            None => None,
        }
    }
}

/// The stops of a row, from the visible offset `o` on.
pub open spec fn stops_from(
    layout: LeafView,
    line: ShapedLine,
    bounds: Bounds,
    offset: usize,
    begin: usize,
    vs: usize,
    ve: usize,
    o: int,
) -> Seq<VisualCaretStop>
    decreases ve - o + 1,
{
    if o > ve {
        Seq::empty()
    } else {
        let rest = stops_from(layout, line, bounds, offset, begin, vs, ve, o + 1);
        match stop_x(line, bounds, offset, begin, o) {
            Some(x) => if is_stop(layout.text, vs, ve, o) {
                seq![
                    VisualCaretStop { visible: o as usize, source: layout.source_of(o), x },
                ] + rest
            } else {
                rest
            },
            None => rest,
        }
    }
}

/// Row `row` of line `k`.
pub open spec fn row_view(
    layout: LeafView,
    lines: Seq<ShapedLine>,
    bounds: Bounds,
    line_height: i64,
    k: int,
    row: int,
) -> RowView {
    let line = lines[k];
    let offset = line_start(lines, k);
    let begin = row_begin(line, row);
    let n = layout.text.len() as usize;
    let vs = bytes::least(offset.saturating_add(begin), n);
    let ve = bytes::least(offset.saturating_add(row_stop(line, row)), n);
    RowView {
        visible_start: vs,
        visible_end: ve,
        top: geometry::coord(
            line_top(lines, bounds.y, line_height, k) + geometry::coord(line_height * row),
        ),
        height: line_height,
        stops: stops_from(layout, line, bounds, offset, begin, vs, ve, vs as int),
    }
}

/// The first `m` rows of line `k`.
pub open spec fn rows_of_line(
    layout: LeafView,
    lines: Seq<ShapedLine>,
    bounds: Bounds,
    line_height: i64,
    k: int,
    m: int,
) -> Seq<RowView>
    decreases m,
{
    if m <= 0 {
        Seq::empty()
    } else {
        rows_of_line(layout, lines, bounds, line_height, k, m - 1).push(
            row_view(layout, lines, bounds, line_height, k, m - 1),
        )
    }
}

/// The rows of the first `k` lines.
pub open spec fn rows_of(
    layout: LeafView,
    lines: Seq<ShapedLine>,
    bounds: Bounds,
    line_height: i64,
    k: int,
) -> Seq<RowView>
    decreases k,
{
    if k <= 0 {
        Seq::empty()
    } else {
        rows_of(layout, lines, bounds, line_height, k - 1) + rows_of_line(
            layout,
            lines,
            bounds,
            line_height,
            k - 1,
            lines[k - 1].ends().len() as int,
        )
    }
}

/// `line_height` times `row`.
fn row_offset(line_height: i64, row: usize) -> (d: i64)
    ensures
        d == geometry::coord(line_height * row),
{
    assert(-0x8000_0000_0000_0000 * 0x1_0000_0000_0000_0000 <= line_height * row
        <= 0x7fff_ffff_ffff_ffff * 0x1_0000_0000_0000_0000) by (nonlinear_arith)
        requires
            -0x8000_0000_0000_0000 <= line_height <= 0x7fff_ffff_ffff_ffff,
            0 <= row <= 0xffff_ffff_ffff_ffff,
    ;
    let v: i128 = line_height as i128 * row as i128;
    if v < i64::MIN as i128 {
        i64::MIN
    } else if v > i64::MAX as i128 {
        i64::MAX
    } else {
        v as i64
    }
}

fn collect_stops(
    layout: &LeafLayout,
    line: &ShapedLine,
    bounds: &Bounds,
    offset: usize,
    begin: usize,
    vs: usize,
    ve: usize,
) -> (stops: Vec<VisualCaretStop>)
    requires
        vs <= ve <= layout@.text.len(),
    ensures
        stops@ == stops_from(layout@, *line, *bounds, offset, begin, vs, ve, vs as int),
{
    let whole = get(layout.text.as_str(), &(vs..ve)).is_some();
    let mut stops: Vec<VisualCaretStop> = Vec::new();
    let mut o: usize = vs;
    let mut more = true;
    let ghost goal = stops_from(layout@, *line, *bounds, offset, begin, vs, ve, vs as int);
    assert(stops@ + goal =~= goal);
    while more
        invariant
            vs <= ve <= layout@.text.len(),
            whole == text::sliceable(layout@.text, (vs..ve)),
            more ==> vs <= o <= ve && goal == stops@ + stops_from(
                layout@,
                *line,
                *bounds,
                offset,
                begin,
                vs,
                ve,
                o as int,
            ),
            !more ==> goal == stops@,
        decreases ve - o, if more { 1int } else { 0int },
    {
        let ghost rest = stops_from(layout@, *line, *bounds, offset, begin, vs, ve, o + 1);
        let ghost had = stops@;
        if o == vs || o == ve || (whole && at_boundary(layout.text.as_str(), o)) {
            let local: usize = o.saturating_sub(offset);
            let x: Option<i64> = if local == begin {
                Some(bounds.x)
            } else {
                match line.find_point(local) {
                    Some(p) => Some(plus(p.x, bounds.x)),
                    None => None,
                }
            };
            assert(x == stop_x(*line, *bounds, offset, begin, o as int));
            if let Some(x) = x {
                let stop = VisualCaretStop {
                    visible: o,
                    source: layout.source_for_visible(o),
                    x,
                };
                stops.push(stop);
                assert(had + (seq![stop] + rest) =~= stops@ + rest);
            }
        }
        assert(goal == stops@ + rest);
        if o == ve {
            more = false;
            assert(rest =~= Seq::<VisualCaretStop>::empty());
            assert(goal =~= stops@);
        } else {
            o = o + 1;
        }
    }
    stops
}

/// What `lines` look like.
pub open spec fn row_views(lines: Seq<VisualLine>) -> Seq<RowView> {
    lines.map_values(|line: VisualLine| line@)
}

/// The painted rows of a leaf with the caret stops of their characters. Soft
/// wraps inside a shaped line are rows of their own.
pub fn visual_lines_for_paint(
    layout: &LeafLayout,
    lines: &Vec<ShapedLine>,
    bounds: &Bounds,
    line_height: i64,
) -> (out: Vec<VisualLine>)
    ensures
        row_views(out@) == rows_of(layout@, lines@, *bounds, line_height, lines@.len() as int),
{
    let n: usize = byte_len(layout.text.as_str());
    let mut out: Vec<VisualLine> = Vec::new();
    let mut y: i64 = bounds.y;
    let mut offset: usize = 0;
    let mut k: usize = 0;
    assert(row_views(out@) =~= Seq::<RowView>::empty());
    while k < lines.len()
        invariant
            n == layout@.text.len(),
            k <= lines@.len(),
            y == line_top(lines@, bounds.y, line_height, k as int),
            offset == line_start(lines@, k as int),
            row_views(out@) == rows_of(layout@, lines@, *bounds, line_height, k as int),
        decreases lines@.len() - k,
    {
        let line = &lines[k];
        let ends = line.row_ends();
        let ghost before = row_views(out@);
        let mut begin: usize = 0;
        let mut row: usize = 0;
        assert(before + rows_of_line(layout@, lines@, *bounds, line_height, k as int, 0)
            =~= before);
        while row < ends.len()
            invariant
                n == layout@.text.len(),
                k < lines@.len(),
                *line == lines@[k as int],
                ends@ == line.ends(),
                y == line_top(lines@, bounds.y, line_height, k as int),
                offset == line_start(lines@, k as int),
                row <= ends@.len(),
                begin == row_begin(*line, row as int),
                begin <= line.len,
                row_views(out@) == before + rows_of_line(
                    layout@,
                    lines@,
                    *bounds,
                    line_height,
                    k as int,
                    row as int,
                ),
            decreases ends@.len() - row,
        {
            let end: usize = lesser(greater(ends[row], begin), line.len);
            let vs: usize = lesser(offset.saturating_add(begin), n);
            let ve: usize = lesser(offset.saturating_add(end), n);
            let stops = collect_stops(layout, line, bounds, offset, begin, vs, ve);
            let ghost had = row_views(out@);
            let next = VisualLine {
                visible_start: vs,
                visible_end: ve,
                top: plus(y, row_offset(line_height, row)),
                height: line_height,
                stops,
            };
            let ghost view = next@;
            assert(view =~= row_view(
                layout@,
                lines@,
                *bounds,
                line_height,
                k as int,
                row as int,
            ));
            out.push(next);
            assert(row_views(out@) =~= had.push(view));
            assert(had.push(view) =~= before + rows_of_line(
                layout@,
                lines@,
                *bounds,
                line_height,
                k as int,
                row + 1,
            ));
            begin = end;
            row = row + 1;
        }
        offset = offset.saturating_add(line.len);
        y = plus(y, max_px(line.height, line_height));
        k = k + 1;
    }
    out
}

/// What a caret and a selection paint on a leaf.
#[derive(Debug, PartialEq, Eq)]
pub struct CaretPaint {
    /// One rectangle per selected segment.
    pub selection: Vec<Bounds>,
    /// The caret, when it is shown.
    pub cursor: Option<Bounds>,
    /// Where the caret is, shown or not.
    pub caret_bounds: Option<Bounds>,
}

/// Where line `k` puts the caret.
pub open spec fn caret_on_line(
    lines: Seq<ShapedLine>,
    bounds: Bounds,
    line_height: i64,
    vis_caret: usize,
    k: int,
) -> Option<Bounds> {
    let offset = line_start(lines, k);
    if offset <= vis_caret <= line_start(lines, k + 1) {
        match lines[k].point_at(vis_caret - offset) {
            Some(p) => Some(
                Bounds {
                    x: geometry::coord(bounds.x + p.x),
                    y: geometry::coord(line_top(lines, bounds.y, line_height, k) + p.y),
                    width: (2 * PX) as i64,
                    height: line_height,
                },
            ),
            None => None,
        }
    } else {
        None
    }
}

/// The caret on the last of the first `k` lines that hosts it.
pub open spec fn caret_among(
    lines: Seq<ShapedLine>,
    bounds: Bounds,
    line_height: i64,
    vis_caret: usize,
    k: int,
) -> Option<Bounds>
    decreases k,
{
    if k <= 0 {
        None
    } else {
        match caret_on_line(lines, bounds, line_height, vis_caret, k - 1) {
            Some(r) => Some(r),
            None => caret_among(lines, bounds, line_height, vis_caret, k - 1),
        }
    }
}

/// The rectangle of a selected segment of line `k`, when it has a width. It
/// is measured on the unwrapped line, so that the start of a row cannot be
/// taken for the end of the row before.
pub open spec fn segment_rect(
    lines: Seq<ShapedLine>,
    bounds: Bounds,
    line_height: i64,
    k: int,
    seg: (usize, usize, Range<usize>),
) -> Option<Bounds> {
    let line = lines[k];
    let start_x = line.x_at(seg.1 as int);
    let left = geometry::shorter(
        geometry::longer(geometry::coord(line.x_at(seg.2.start as int) - start_x), 0),
        bounds.width,
    );
    let right = geometry::shorter(
        geometry::longer(geometry::coord(line.x_at(seg.2.end as int) - start_x), left),
        bounds.width,
    );
    if right > left {
        Some(
            Bounds {
                x: geometry::coord(bounds.x + left),
                y: geometry::coord(
                    line_top(lines, bounds.y, line_height, k) + geometry::coord(
                        line_height * seg.0,
                    ),
                ),
                width: geometry::coord(right - left),
                height: line_height,
            },
        )
    } else {
        None
    }
}

/// The rectangles of the first `m` segments `segs` of line `k`.
pub open spec fn segment_rects(
    lines: Seq<ShapedLine>,
    bounds: Bounds,
    line_height: i64,
    k: int,
    segs: Seq<(usize, usize, Range<usize>)>,
    m: int,
) -> Seq<Bounds>
    decreases m,
{
    if m <= 0 {
        Seq::empty()
    } else {
        let before = segment_rects(lines, bounds, line_height, k, segs, m - 1);
        match segment_rect(lines, bounds, line_height, k, segs[m - 1]) {
            Some(r) => before.push(r),
            None => before,
        }
    }
}

/// The selected segments of line `k`.
pub open spec fn line_segments(lines: Seq<ShapedLine>, vis_sel: Range<usize>, k: int) -> Seq<
    (usize, usize, Range<usize>),
> {
    let ends = lines[k].ends();
    segments(relative(vis_sel, line_start(lines, k)), ends, ends.len() as int)
}

/// The rectangles of the selection on the first `k` lines.
pub open spec fn selection_rects(
    lines: Seq<ShapedLine>,
    bounds: Bounds,
    line_height: i64,
    vis_sel: Range<usize>,
    k: int,
) -> Seq<Bounds>
    decreases k,
{
    if k <= 0 {
        Seq::empty()
    } else {
        let segs = line_segments(lines, vis_sel, k - 1);
        selection_rects(lines, bounds, line_height, vis_sel, k - 1) + segment_rects(
            lines,
            bounds,
            line_height,
            k - 1,
            segs,
            segs.len() as int,
        )
    }
}

/// Where the caret is, if it is looked for.
pub open spec fn located_caret(
    lines: Seq<ShapedLine>,
    bounds: Bounds,
    line_height: i64,
    vis_caret: usize,
    locate: bool,
) -> Option<Bounds> {
    if locate {
        caret_among(lines, bounds, line_height, vis_caret, lines.len() as int)
    } else {
        None
    }
}

/// The caret that is painted, of the one that was found.
pub open spec fn shown_caret(caret_bounds: Option<Bounds>, show: bool) -> Option<Bounds> {
    if show {
        caret_bounds
    } else {
        None
    }
}

/// The rectangles of the selection, if it is painted.
pub open spec fn shown_selection(
    lines: Seq<ShapedLine>,
    bounds: Bounds,
    line_height: i64,
    vis_sel: Range<usize>,
    show: bool,
) -> Seq<Bounds> {
    if show {
        selection_rects(lines, bounds, line_height, vis_sel, lines.len() as int)
    } else {
        Seq::empty()
    }
}

/// Caret and selection rectangles of a leaf. The caret is located for the IME
/// even while the blink hides it.
pub fn paint_carets(
    lines: &Vec<ShapedLine>,
    bounds: &Bounds,
    line_height: i64,
    vis_caret: usize,
    vis_sel: &Range<usize>,
    locate_caret: bool,
    show_caret: bool,
    show_sel: bool,
) -> (paint: CaretPaint)
    ensures
        paint.caret_bounds == located_caret(lines@, *bounds, line_height, vis_caret, locate_caret),
        paint.cursor == shown_caret(paint.caret_bounds, show_caret),
        paint.selection@ == shown_selection(lines@, *bounds, line_height, *vis_sel, show_sel),
{
    let mut caret_bounds: Option<Bounds> = None;
    let mut selection: Vec<Bounds> = Vec::new();
    let mut y: i64 = bounds.y;
    let mut offset: usize = 0;
    let mut k: usize = 0;
    while k < lines.len()
        invariant
            k <= lines@.len(),
            y == line_top(lines@, bounds.y, line_height, k as int),
            offset == line_start(lines@, k as int),
            caret_bounds == (if locate_caret {
                caret_among(lines@, *bounds, line_height, vis_caret, k as int)
            } else {
                None
            }),
            selection@ == (if show_sel {
                selection_rects(lines@, *bounds, line_height, *vis_sel, k as int)
            } else {
                Seq::empty()
            }),
        decreases lines@.len() - k,
    {
        let line = &lines[k];
        let line_end: usize = offset.saturating_add(line.len);
        if locate_caret && vis_caret >= offset && vis_caret <= line_end {
            if let Some(p) = line.find_point(vis_caret - offset) {
                caret_bounds = Some(
                    Bounds {
                        x: plus(bounds.x, p.x),
                        y: plus(y, p.y),
                        width: 2 * PX,
                        height: line_height,
                    },
                );
            }
        }
        if show_sel {
            let ends = line.row_ends();
            let segs = selected_visual_rows(vis_sel, offset, ends.as_slice());
            let ghost before = selection@;
            let mut m: usize = 0;
            assert(before + segment_rects(lines@, *bounds, line_height, k as int, segs@, 0)
                =~= before);
            while m < segs.len()
                invariant
                    m <= segs@.len(),
                    k < lines@.len(),
                    *line == lines@[k as int],
                    y == line_top(lines@, bounds.y, line_height, k as int),
                    selection@ == before + segment_rects(
                        lines@,
                        *bounds,
                        line_height,
                        k as int,
                        segs@,
                        m as int,
                    ),
                decreases segs@.len() - m,
            {
                let (row, row_start, selected) = &segs[m];
                let start_x: i64 = line.find_x(*row_start);
                let left: i64 = min_px(
                    max_px(minus(line.find_x(selected.start), start_x), 0),
                    bounds.width,
                );
                let right: i64 = min_px(
                    max_px(minus(line.find_x(selected.end), start_x), left),
                    bounds.width,
                );
                if right > left {
                    let rect = Bounds {
                        x: plus(bounds.x, left),
                        y: plus(y, row_offset(line_height, *row)),
                        width: minus(right, left),
                        height: line_height,
                    };
                    let ghost had = selection@;
                    selection.push(rect);
                    assert(selection@ =~= before + segment_rects(
                        lines@,
                        *bounds,
                        line_height,
                        k as int,
                        segs@,
                        m + 1,
                    ));
                }
                m = m + 1;
            }
        }
        offset = line_end;
        y = plus(y, max_px(line.height, line_height));
        k = k + 1;
    }
    CaretPaint {
        selection,
        cursor: if show_caret {
            caret_bounds
        } else {
            None
        },
        caret_bounds,
    }
}

/// Whether the caret `src` is in the leaf.
pub fn source_in_leaf(layout: &LeafLayout, src: usize) -> (yes: bool)
    ensures
        yes == layout@.contains(src),
{
    layout.contains_source(src)
}

/// The selection overlaps the source of the layout, or is a caret in it.
pub open spec fn touches_leaf(layout: LeafView, sel: Range<usize>) -> bool {
    (sel.start < layout.last_source() && sel.end > layout.first_source()) || (sel.start == sel.end
        && layout.contains(sel.start))
}

/// Whether a selection touches the leaf.
pub fn ranges_touch_leaf(layout: &LeafLayout, sel: &Range<usize>) -> (yes: bool)
    ensures
        yes == touches_leaf(layout@, *sel),
{
    let (start, end) = layout.source_ends();
    (sel.start < end && sel.end > start) || (sel.start == sel.end && source_in_leaf(
        layout,
        sel.start,
    ))
}

/// The runs that a text of `n` bytes is shaped with: its own where they add up
/// to it, else one plain run.
pub open spec fn shaping_runs(runs: Seq<TextRun>, n: int) -> Seq<TextRun> {
    if layout::run_total(runs) == n {
        runs
    } else {
        seq![TextRun { len: n as usize, style: RunStyle::inherit() }]
    }
}

/// The text and runs that a leaf is shaped with. An empty leaf is shaped as
/// one space, so that it has a line.
pub fn shaped_text(layout: &LeafLayout) -> (out: (String, Vec<TextRun>))
    ensures
        layout@.text.len() > 0 ==> out.0@ == layout.text@,
        layout@.text.len() == 0 ==> out.0@ == " "@,
        layout@.text.len() > 0 ==> out.1@ == shaping_runs(
            layout@.runs,
            layout@.text.len() as int,
        ),
        layout@.text.len() == 0 ==> out.1@ == shaping_runs(layout@.runs, 1),
{
    let n: usize = byte_len(layout.text.as_str());
    let (display, len): (String, usize) = if n == 0 {
        (own(" "), 1)
    } else {
        (layout.text.clone(), n)
    };
    if runs_cover(&layout.runs, len) {
        let runs = layout.runs.clone();
        assert(runs@ =~= layout.runs@);
        return (display, runs);
    }
    let mut runs: Vec<TextRun> = Vec::new();
    runs.push(TextRun { len, style: plain_run() });
    assert(runs@ =~= seq![TextRun { len, style: RunStyle::inherit() }]);
    (display, runs)
}

/// Whether the lengths of `runs` add up to `total`.
pub fn runs_cover(runs: &Vec<TextRun>, total: usize) -> (yes: bool)
    ensures
        yes == (layout::run_total(runs@) == total),
{
    let mut left: usize = total;
    let mut k: usize = 0;
    assert(runs@.take(0) =~= Seq::<TextRun>::empty());
    while k < runs.len()
        invariant
            k <= runs.len(),
            left <= total,
            layout::run_total(runs@.take(k as int)) == total - left,
        decreases runs.len() - k,
    {
        assert(runs@.take(k + 1).drop_last() =~= runs@.take(k as int));
        if runs[k].len > left {
            proof {
                layout::lemma_run_total_grows(runs@, k + 1);
            }
            return false;
        }
        left = left - runs[k].len;
        k = k + 1;
    }
    assert(runs@.take(k as int) =~= runs@);
    left == 0
}

/// Width that the containing block leaves to a leaf.
#[derive(Debug, Clone, Copy, PartialEq, Eq, Structural)]
pub enum AvailableWidth {
    Definite(i64),
    MinContent,
    MaxContent,
}

/// Width at which a leaf wraps.
pub open spec fn wrap_at(known: Option<i64>, available: AvailableWidth) -> Option<i64> {
    match known {
        Some(w) => Some(w),
        None => match available {
            AvailableWidth::Definite(w) => Some(w),
            AvailableWidth::MinContent => Some(PX),
            AvailableWidth::MaxContent => None,
        },
    }
}

/// Width at which a leaf wraps: the one it was given, or the one its container
/// leaves it.
pub fn wrap_width(known: Option<i64>, available: AvailableWidth) -> (width: Option<i64>)
    ensures
        width == wrap_at(known, available),
{
    match known {
        Some(w) => Some(w),
        None => match available {
            AvailableWidth::Definite(w) => Some(w),
            AvailableWidth::MinContent => Some(PX),
            AvailableWidth::MaxContent => None,
        },
    }
}

/// `v` rounded up to whole pixels.
pub open spec fn ceil_px(v: i64) -> i64 {
    geometry::coord((v + PX - 1) / PX as int * PX)
}

/// Width of the first `k` measured lines, in whole pixels.
pub open spec fn measured_width(sizes: Seq<(i64, i64)>, k: int) -> i64
    decreases k,
{
    if k <= 0 {
        0
    } else {
        ceil_px(geometry::longer(measured_width(sizes, k - 1), sizes[k - 1].0))
    }
}

/// Height of the first `k` measured lines, each at least one line high.
pub open spec fn measured_height(sizes: Seq<(i64, i64)>, line_height: i64, k: int) -> i64
    decreases k,
{
    if k <= 0 {
        0
    } else {
        geometry::coord(
            measured_height(sizes, line_height, k - 1) + geometry::longer(
                sizes[k - 1].1,
                line_height,
            ),
        )
    }
}

/// Size of a leaf whose lines measure `sizes` (width and height).
pub open spec fn leaf_size(
    sizes: Seq<(i64, i64)>,
    line_height: i64,
    known: Option<i64>,
    wrap: Option<i64>,
    hug_width: bool,
) -> (i64, i64) {
    let w = measured_width(sizes, sizes.len() as int);
    let h = measured_height(sizes, line_height, sizes.len() as int);
    let width = match known {
        Some(k) => k,
        None => match wrap {
            Some(limit) => if hug_width {
                geometry::shorter(w, limit)
            } else {
                limit
            },
            None => w,
        },
    };
    (geometry::longer(width, 0), geometry::longer(h, line_height))
}

/// Rounds up to whole pixels.
fn ceil_to_px(v: i64) -> (c: i64)
    ensures
        c == ceil_px(v),
{
    let t: i128 = v as i128 + (PX - 1) as i128;
    let unit: i128 = PX as i128;
    // Division rounds toward zero, so negative values need a step down.
    let mut q: i128 = t / unit;
    if t < 0 && q * unit != t {
        q = q - 1;
    }
    assert(q == t as int / PX as int) by {
        assert(unit == 65536);
    }
    let r: i128 = q * unit;
    if r > i64::MAX as i128 {
        i64::MAX
    } else if r < i64::MIN as i128 {
        i64::MIN
    } else {
        r as i64
    }
}

/// Size that a leaf asks for. A leaf fills its container, or hugs its text.
pub fn measure_leaf(
    sizes: &Vec<(i64, i64)>,
    line_height: i64,
    known: Option<i64>,
    wrap: Option<i64>,
    hug_width: bool,
) -> (size: (i64, i64))
    ensures
        size == leaf_size(sizes@, line_height, known, wrap, hug_width),
{
    let mut w: i64 = 0;
    let mut h: i64 = 0;
    let mut k: usize = 0;
    while k < sizes.len()
        invariant
            k <= sizes@.len(),
            w == measured_width(sizes@, k as int),
            h == measured_height(sizes@, line_height, k as int),
        decreases sizes@.len() - k,
    {
        w = ceil_to_px(max_px(w, sizes[k].0));
        h = plus(h, max_px(sizes[k].1, line_height));
        k = k + 1;
    }
    let width: i64 = match known {
        Some(k) => k,
        None => match wrap {
            Some(limit) => if hug_width {
                min_px(w, limit)
            } else {
                limit
            },
            None => w,
        },
    };
    (max_px(width, 0), max_px(h, line_height))
}

/// Where marked text is shown in an overlay draft: at the caret, or at the end
/// when the caret is past it or inside a character.
pub open spec fn overlay_at(b: Seq<u8>, caret: usize) -> int {
    let at = bytes::least(caret, b.len() as usize);
    if text::boundary(b, at as int) {
        at as int
    } else {
        b.len() as int
    }
}

/// The text that an overlay shows: its prefix and its draft, with the marked
/// text at the caret while it is edited.
pub open spec fn overlay_display(
    prefix: Seq<u8>,
    draft: Seq<u8>,
    editing: bool,
    caret: usize,
    marked: Seq<u8>,
) -> Seq<u8> {
    if editing {
        let at = overlay_at(draft, caret);
        prefix + draft.take(at) + marked + draft.skip(at)
    } else {
        prefix + draft
    }
}

/// The visible offset of the caret of an overlay.
pub open spec fn overlay_caret(
    prefix: Seq<u8>,
    draft: Seq<u8>,
    editing: bool,
    caret: usize,
    marked: Seq<u8>,
) -> int {
    if editing {
        prefix.len() + overlay_at(draft, caret) + marked.len()
    } else {
        prefix.len() as int
    }
}

/// The text that an overlay shows, and the visible offset of its caret.
pub fn display_and_caret(prefix: &str, draft: &str, editing: bool, caret: usize, marked: &str) -> (out:
    (String, usize))
    ensures
        encode_utf8(out.0@) == overlay_display(
            encode_utf8(prefix@),
            encode_utf8(draft@),
            editing,
            caret,
            encode_utf8(marked@),
        ),
        out.1 == overlay_caret(
            encode_utf8(prefix@),
            encode_utf8(draft@),
            editing,
            caret,
            encode_utf8(marked@),
        ),
{
    let mut display = own(prefix);
    if !editing {
        push_str(&mut display, draft);
        return (display, byte_len(prefix));
    }
    let n: usize = byte_len(draft);
    proof {
        text::lemma_boundary_ends(draft@);
    }
    let mut at: usize = lesser(caret, n);
    if !at_boundary(draft, at) {
        at = n;
    }
    let ghost b = encode_utf8(draft@);
    assert(b.take(at as int) =~= b.subrange(0, at as int));
    assert(b.skip(at as int) =~= b.subrange(at as int, n as int));
    push_str(&mut display, slice(draft, 0, at));
    push_str(&mut display, marked);
    let vis: usize = byte_len(display.as_str());
    push_str(&mut display, slice(draft, at, n));
    (display, vis)
}

/// The selection of an overlay, in visible offsets of the text it shows.
pub open spec fn overlay_selection(
    editing: bool,
    prefix_len: usize,
    marked_len: usize,
    sel: Range<usize>,
    display_len: usize,
) -> Range<usize> {
    if !editing {
        0..0
    } else {
        let start = bytes::least(prefix_len.saturating_add(sel.start), display_len);
        let end = bytes::least(
            prefix_len.saturating_add(sel.end).saturating_add(marked_len),
            display_len,
        );
        bytes::least(start, end)..bytes::greatest(start, end)
    }
}

/// The selection of an overlay, in visible offsets of the text it shows.
pub fn display_sel(
    editing: bool,
    prefix_len: usize,
    marked_len: usize,
    sel: &Range<usize>,
    display_len: usize,
) -> (out: Range<usize>)
    ensures
        out == overlay_selection(editing, prefix_len, marked_len, *sel, display_len),
        out.start <= out.end,
{
    if !editing {
        return 0..0;
    }
    let start: usize = lesser(prefix_len.saturating_add(sel.start), display_len);
    let end: usize = lesser(
        prefix_len.saturating_add(sel.end).saturating_add(marked_len),
        display_len,
    );
    lesser(start, end)..greater(start, end)
}

/// Layout of an overlay text: one run, its own offsets as source.
pub open spec fn overlay_view(t: Seq<u8>, italic: bool) -> LeafView {
    let shown = if t.len() == 0 {
        encode_utf8(" "@)
    } else {
        t
    };
    LeafView {
        text: shown,
        runs: seq![
            TextRun {
                len: shown.len() as usize,
                style: (RunStyle { italic, ..RunStyle::inherit() }),
            },
        ],
        source_at: layout::byte_map(0, shown.len() + 1),
        block_start: 0,
    }
}

/// Layout of an overlay text; an empty one shows a space.
pub fn overlay_leaf_layout(t: &str, italic: bool) -> (layout: LeafLayout)
    ensures
        layout@ == overlay_view(encode_utf8(t@), italic),
        layout@.source_at.len() == layout@.text.len() + 1,
        layout@.tiled(),
{
    let display = if byte_len(t) == 0 {
        own(" ")
    } else {
        own(t)
    };
    let n: usize = byte_len(display.as_str());
    let mut style = plain_run();
    style.italic = italic;
    let mut runs: Vec<TextRun> = Vec::new();
    runs.push(TextRun { len: n, style });
    let mut source_at: Vec<usize> = Vec::new();
    let mut i: usize = 0;
    while i < n
        invariant
            i <= n,
            source_at@ == layout::byte_map(0, i as nat),
        decreases n - i,
    {
        source_at.push(i);
        i = i + 1;
        assert(source_at@ =~= layout::byte_map(0, i as nat));
    }
    source_at.push(n);
    assert(source_at@ =~= layout::byte_map(0, (n + 1) as nat));
    let layout = LeafLayout { text: display, runs, source_at, block_start: 0 };
    proof {
        assert(layout@ =~= overlay_view(encode_utf8(t@), italic));
        assert(layout@.runs.drop_last() =~= Seq::<TextRun>::empty());
        reveal_with_fuel(layout::run_total, 2);
    }
    layout
}

/// Height of the first `k` lines, each at least one line high.
pub open spec fn stacked(lines: Seq<ShapedLine>, line_height: i64, k: int) -> int
    decreases k,
{
    if k <= 0 {
        0
    } else if lines[k - 1].height >= line_height {
        stacked(lines, line_height, k - 1) + lines[k - 1].height
    } else {
        stacked(lines, line_height, k - 1) + line_height
    }
}

/// Length of the first `k` lines in bytes.
pub open spec fn spelled(lines: Seq<ShapedLine>, k: int) -> int
    decreases k,
{
    if k <= 0 {
        0
    } else {
        spelled(lines, k - 1) + lines[k - 1].len
    }
}

/// The lines fit: their text into memory, and their edges into coordinates.
pub open spec fn fit(lines: Seq<ShapedLine>, top: i64, line_height: i64) -> bool {
    &&& spelled(lines, lines.len() as int) <= usize::MAX
    &&& forall|k: int|
        0 <= k <= lines.len() ==> i64::MIN <= top + #[trigger] stacked(lines, line_height, k)
            <= i64::MAX
}

proof fn lemma_spelled_grows(lines: Seq<ShapedLine>, j: int, k: int)
    requires
        0 <= j <= k,
    ensures
        0 <= spelled(lines, j) <= spelled(lines, k),
    decreases k,
{
    if k > 0 {
        if j < k {
            lemma_spelled_grows(lines, j, k - 1);
        } else {
            lemma_spelled_grows(lines, k - 1, k - 1);
        }
    }
}

/// Lines stand below each other: each starts where the heights and the lengths
/// of those before it end.
pub proof fn lines_are_stacked(lines: Seq<ShapedLine>, top: i64, line_height: i64, k: int)
    requires
        fit(lines, top, line_height),
        0 <= k <= lines.len(),
    ensures
        line_top(lines, top, line_height, k) == top + stacked(lines, line_height, k),
        line_start(lines, k) == spelled(lines, k),
    decreases k,
{
    lemma_spelled_grows(lines, k, lines.len() as int);
    if k > 0 {
        lines_are_stacked(lines, top, line_height, k - 1);
        assert(i64::MIN <= top + stacked(lines, line_height, k) <= i64::MAX);
    }
}

/// Line `k` has the caret at the visible offset `at`, at the point `p` of the
/// line.
pub open spec fn hosts_caret(lines: Seq<ShapedLine>, at: usize, k: int, p: Point) -> bool {
    let o = at - spelled(lines, k);
    0 <= o <= lines[k].len && o < lines[k].points@.len() && lines[k].points@[o] == Some(p)
}

/// `p` on line `k` is a point of the window.
pub open spec fn on_screen(
    lines: Seq<ShapedLine>,
    bounds: Bounds,
    line_height: i64,
    k: int,
    p: Point,
) -> bool {
    &&& i64::MIN <= bounds.x + p.x <= i64::MAX
    &&& i64::MIN <= bounds.y + stacked(lines, line_height, k) + p.y <= i64::MAX
}

/// `r` is the caret at the point `p` of line `k`: two pixels wide, one line
/// high, as far below the top of the leaf as the lines before it are high.
pub open spec fn is_caret_at(
    r: Bounds,
    lines: Seq<ShapedLine>,
    bounds: Bounds,
    line_height: i64,
    k: int,
    p: Point,
) -> bool {
    &&& r.x == bounds.x + p.x
    &&& r.y == bounds.y + stacked(lines, line_height, k) + p.y
    &&& r.width == 131072
    &&& r.height == line_height
}

proof fn lemma_caret_among(
    lines: Seq<ShapedLine>,
    bounds: Bounds,
    line_height: i64,
    at: usize,
    n: int,
)
    requires
        fit(lines, bounds.y, line_height),
        0 <= n <= lines.len(),
        forall|k: int, p: Point|
            0 <= k < n && #[trigger] hosts_caret(lines, at, k, p) ==> on_screen(
                lines,
                bounds,
                line_height,
                k,
                p,
            ),
    ensures
        match caret_among(lines, bounds, line_height, at, n) {
            Some(r) => exists|k: int, p: Point|
                {
                    &&& 0 <= k < n && #[trigger] hosts_caret(lines, at, k, p)
                    &&& is_caret_at(r, lines, bounds, line_height, k, p)
                    &&& forall|m: int, q: Point|
                        k < m < n ==> !(#[trigger] hosts_caret(lines, at, m, q))
                },
            None => forall|m: int, q: Point|
                0 <= m < n ==> !(#[trigger] hosts_caret(lines, at, m, q)),
        },
    decreases n,
{
    if n > 0 {
        lemma_caret_among(lines, bounds, line_height, at, n - 1);
        lines_are_stacked(lines, bounds.y, line_height, n - 1);
        lines_are_stacked(lines, bounds.y, line_height, n);
        let o = at - spelled(lines, n - 1);
        match caret_on_line(lines, bounds, line_height, at, n - 1) {
            Some(r) => {
                let p = lines[n - 1].points@[o]->0;
                assert(hosts_caret(lines, at, n - 1, p));
            },
            None => {
                assert forall|q: Point| !(#[trigger] hosts_caret(lines, at, n - 1, q)) by {}
                if let Some(r) = caret_among(lines, bounds, line_height, at, n - 1) {
                    let (k, p) = choose|k: int, p: Point|
                        {
                            &&& 0 <= k < n - 1 && #[trigger] hosts_caret(lines, at, k, p)
                            &&& is_caret_at(r, lines, bounds, line_height, k, p)
                            &&& forall|m: int, q: Point|
                                k < m < n - 1 ==> !(#[trigger] hosts_caret(lines, at, m, q))
                        };
                    assert(hosts_caret(lines, at, k, p));
                }
            },
        }
    }
}

/// The caret is painted on the line that has it, at the line's own point for
/// it and below all lines before; of two lines that have it, on the later. It
/// is painted nowhere only where no line has it.
pub proof fn caret_stands_on_its_line(
    lines: Seq<ShapedLine>,
    bounds: Bounds,
    line_height: i64,
    at: usize,
)
    requires
        fit(lines, bounds.y, line_height),
        forall|k: int, p: Point|
            0 <= k < lines.len() && #[trigger] hosts_caret(lines, at, k, p) ==> on_screen(
                lines,
                bounds,
                line_height,
                k,
                p,
            ),
    ensures
        match caret_among(lines, bounds, line_height, at, lines.len() as int) {
            Some(r) => exists|k: int, p: Point|
                {
                    &&& 0 <= k < lines.len() && #[trigger] hosts_caret(lines, at, k, p)
                    &&& is_caret_at(r, lines, bounds, line_height, k, p)
                    &&& forall|m: int, q: Point|
                        k < m < lines.len() ==> !(#[trigger] hosts_caret(lines, at, m, q))
                },
            None => forall|m: int, q: Point|
                0 <= m < lines.len() ==> !(#[trigger] hosts_caret(lines, at, m, q)),
        },
{
    lemma_caret_among(lines, bounds, line_height, at, lines.len() as int);
}

/// A caret strictly inside line `k` is painted at the point that the line has
/// for it, and as far down as the line itself is.
pub proof fn caret_inside_a_line(
    lines: Seq<ShapedLine>,
    bounds: Bounds,
    line_height: i64,
    at: usize,
    k: int,
    p: Point,
)
    requires
        fit(lines, bounds.y, line_height),
        0 <= k < lines.len(),
        spelled(lines, k) < at < spelled(lines, k + 1),
        at - spelled(lines, k) < lines[k].points@.len(),
        lines[k].points@[at - spelled(lines, k)] == Some(p),
        on_screen(lines, bounds, line_height, k, p),
    ensures
        caret_among(lines, bounds, line_height, at, lines.len() as int) matches Some(r)
            && is_caret_at(r, lines, bounds, line_height, k, p),
        caret_among(lines, bounds, line_height, at, lines.len() as int)->0.y - p.y == line_top(
            lines,
            bounds.y,
            line_height,
            k,
        ),
{
    assert forall|m: int, q: Point| 0 <= m < lines.len() && #[trigger] hosts_caret(lines, at, m, q)
        implies m == k && q == p by {
        if m < k {
            lemma_spelled_grows(lines, m + 1, k);
        }
        if m > k {
            lemma_spelled_grows(lines, k + 1, m);
        }
    }
    assert(hosts_caret(lines, at, k, p));
    caret_stands_on_its_line(lines, bounds, line_height, at);
    lines_are_stacked(lines, bounds.y, line_height, k);
}

proof fn lemma_stacked_grows(lines: Seq<ShapedLine>, line_height: i64, j: int, k: int)
    requires
        0 <= j <= k,
        line_height >= 0,
    ensures
        stacked(lines, line_height, j) <= stacked(lines, line_height, k),
    decreases k,
{
    if j < k {
        lemma_stacked_grows(lines, line_height, j, k - 1);
    }
}

/// Carets in different lines are at different heights, the one in the later
/// line further down: each point lies inside its own line.
pub proof fn later_lines_paint_lower(
    lines: Seq<ShapedLine>,
    bounds: Bounds,
    line_height: i64,
    a: usize,
    b: usize,
    j: int,
    k: int,
    p: Point,
    q: Point,
)
    requires
        fit(lines, bounds.y, line_height),
        line_height >= 0,
        0 <= j < k < lines.len(),
        spelled(lines, j) < a < spelled(lines, j + 1),
        spelled(lines, k) < b < spelled(lines, k + 1),
        hosts_caret(lines, a, j, p),
        hosts_caret(lines, b, k, q),
        on_screen(lines, bounds, line_height, j, p),
        on_screen(lines, bounds, line_height, k, q),
        0 <= p.y < stacked(lines, line_height, j + 1) - stacked(lines, line_height, j),
        0 <= q.y,
    ensures
        ({
            let n = lines.len() as int;
            let upper = caret_among(lines, bounds, line_height, a, n);
            let lower = caret_among(lines, bounds, line_height, b, n);
            upper is Some && lower is Some && upper->0.y < lower->0.y
        }),
{
    caret_inside_a_line(lines, bounds, line_height, a, j, p);
    caret_inside_a_line(lines, bounds, line_height, b, k, q);
    lemma_stacked_grows(lines, line_height, j + 1, k);
}

/// The part of `sel` on row `m` of line `k`, in offsets of the line.
pub open spec fn selected_on(lines: Seq<ShapedLine>, sel: Range<usize>, k: int, m: int) -> (int, int) {
    let off = spelled(lines, k);
    let ends = lines[k].wraps@.push(lines[k].len);
    let begin: int = if m == 0 {
        0
    } else {
        ends[m - 1] as int
    };
    let a = sel.start - off;
    let b = sel.end - off;
    (
        if a >= begin {
            a
        } else {
            begin
        },
        if b <= ends[m] {
            b
        } else {
            ends[m] as int
        },
    )
}

/// Where row `m` of line `k` starts.
pub open spec fn row_from(lines: Seq<ShapedLine>, k: int, m: int) -> int {
    if m == 0 {
        0
    } else {
        lines[k].wraps@.push(lines[k].len)[m - 1] as int
    }
}

proof fn lemma_segments_hold(sel: Range<usize>, ends: Seq<usize>, n: int, m: int)
    requires
        0 <= m < n <= ends.len(),
        segment(sel, ends, m) is Some,
    ensures
        exists|i: int|
            0 <= i < segments(sel, ends, n).len() && #[trigger] segments(sel, ends, n)[i]
                == segment(sel, ends, m)->0,
    decreases n,
{
    let all = segments(sel, ends, n);
    if m == n - 1 {
        assert(all[all.len() - 1] == segment(sel, ends, m)->0);
    } else {
        lemma_segments_hold(sel, ends, n - 1, m);
        let before = segments(sel, ends, n - 1);
        let i = choose|i: int|
            0 <= i < before.len() && #[trigger] before[i] == segment(sel, ends, m)->0;
        assert(all[i] == before[i]);
    }
}

proof fn lemma_segments_come(sel: Range<usize>, ends: Seq<usize>, n: int, i: int)
    requires
        0 <= n <= ends.len(),
        0 <= i < segments(sel, ends, n).len(),
    ensures
        exists|m: int|
            0 <= m < n && #[trigger] segment(sel, ends, m) == Some(segments(sel, ends, n)[i]),
    decreases n,
{
    let all = segments(sel, ends, n);
    if n > 0 {
        let before = segments(sel, ends, n - 1);
        if i < before.len() {
            assert(all[i] == before[i]);
            lemma_segments_come(sel, ends, n - 1, i);
            let m = choose|m: int| 0 <= m < n - 1 && #[trigger] segment(sel, ends, m) == Some(before[i]);
            assert(segment(sel, ends, m) == Some(all[i]));
        } else {
            assert(segment(sel, ends, n - 1) == Some(all[i]));
        }
    }
}

/// The segments of a selection on a line: one per row that it meets, with the
/// number of the row, where the row starts, and what of it is selected, and
/// none else.
pub proof fn segments_are_row_parts(sel: Range<usize>, ends: Seq<usize>, m: int)
    requires
        ends.len() <= usize::MAX,
        0 <= m < ends.len(),
    ensures
        ({
            let begin: usize = if m == 0 {
                0
            } else {
                ends[m - 1]
            };
            let from = if sel.start >= begin {
                sel.start
            } else {
                begin
            };
            let to = if sel.end <= ends[m] {
                sel.end
            } else {
                ends[m]
            };
            from < to <==> exists|i: int|
                0 <= i < segments(sel, ends, ends.len() as int).len() && #[trigger] segments(
                    sel,
                    ends,
                    ends.len() as int,
                )[i] == (m as usize, begin, from..to)
        }),
{
    let n = ends.len() as int;
    let all = segments(sel, ends, n);
    let begin: usize = if m == 0 {
        0
    } else {
        ends[m - 1]
    };
    let from = if sel.start >= begin {
        sel.start
    } else {
        begin
    };
    let to = if sel.end <= ends[m] {
        sel.end
    } else {
        ends[m]
    };
    if from < to {
        lemma_segments_hold(sel, ends, n, m);
    }
    if exists|i: int| 0 <= i < all.len() && #[trigger] all[i] == (m as usize, begin, from..to) {
        let i = choose|i: int| 0 <= i < all.len() && #[trigger] all[i] == (m as usize, begin, from..to);
        lemma_segments_come(sel, ends, n, i);
        let q = choose|q: int| 0 <= q < n && #[trigger] segment(sel, ends, q) == Some(all[i]);
        assert(q as usize == m as usize);
    }
}

proof fn lemma_rects_hold(
    lines: Seq<ShapedLine>,
    bounds: Bounds,
    line_height: i64,
    k: int,
    segs: Seq<(usize, usize, Range<usize>)>,
    n: int,
    i: int,
)
    requires
        0 <= i < n <= segs.len(),
        segment_rect(lines, bounds, line_height, k, segs[i]) is Some,
    ensures
        segment_rects(lines, bounds, line_height, k, segs, n).contains(
            segment_rect(lines, bounds, line_height, k, segs[i])->0,
        ),
    decreases n,
{
    let all = segment_rects(lines, bounds, line_height, k, segs, n);
    let r = segment_rect(lines, bounds, line_height, k, segs[i])->0;
    if i == n - 1 {
        assert(all[all.len() - 1] == r);
    } else {
        lemma_rects_hold(lines, bounds, line_height, k, segs, n - 1, i);
        let before = segment_rects(lines, bounds, line_height, k, segs, n - 1);
        let j = choose|j: int| 0 <= j < before.len() && before[j] == r;
        assert(all[j] == r);
    }
}

proof fn lemma_rects_come(
    lines: Seq<ShapedLine>,
    bounds: Bounds,
    line_height: i64,
    k: int,
    segs: Seq<(usize, usize, Range<usize>)>,
    n: int,
    r: Bounds,
)
    requires
        0 <= n <= segs.len(),
        segment_rects(lines, bounds, line_height, k, segs, n).contains(r),
    ensures
        exists|i: int|
            0 <= i < n && segment_rect(lines, bounds, line_height, k, #[trigger] segs[i]) == Some(
                r,
            ),
    decreases n,
{
    let all = segment_rects(lines, bounds, line_height, k, segs, n);
    if n > 0 {
        let j = choose|j: int| 0 <= j < all.len() && all[j] == r;
        let before = segment_rects(lines, bounds, line_height, k, segs, n - 1);
        if j < before.len() {
            assert(before[j] == r);
            lemma_rects_come(lines, bounds, line_height, k, segs, n - 1, r);
            let i = choose|i: int|
                0 <= i < n - 1 && segment_rect(lines, bounds, line_height, k, #[trigger] segs[i])
                    == Some(r);
            assert(segment_rect(lines, bounds, line_height, k, segs[i]) == Some(r));
        } else {
            assert(segment_rect(lines, bounds, line_height, k, segs[n - 1]) == Some(r));
        }
    } else {
        assert(all.len() == 0);
    }
}

proof fn lemma_selection_line(
    lines: Seq<ShapedLine>,
    bounds: Bounds,
    line_height: i64,
    sel: Range<usize>,
    n: int,
    k: int,
    r: Bounds,
)
    requires
        0 <= k < n <= lines.len(),
        segment_rects(
            lines,
            bounds,
            line_height,
            k,
            line_segments(lines, sel, k),
            line_segments(lines, sel, k).len() as int,
        ).contains(r),
    ensures
        selection_rects(lines, bounds, line_height, sel, n).contains(r),
    decreases n,
{
    let before = selection_rects(lines, bounds, line_height, sel, n - 1);
    let segs = line_segments(lines, sel, n - 1);
    let mine = segment_rects(lines, bounds, line_height, n - 1, segs, segs.len() as int);
    let all = selection_rects(lines, bounds, line_height, sel, n);
    if k == n - 1 {
        let j = choose|j: int| 0 <= j < mine.len() && mine[j] == r;
        assert(all[before.len() + j] == r);
    } else {
        lemma_selection_line(lines, bounds, line_height, sel, n - 1, k, r);
        let j = choose|j: int| 0 <= j < before.len() && before[j] == r;
        assert(all[j] == r);
    }
}

proof fn lemma_selection_from(
    lines: Seq<ShapedLine>,
    bounds: Bounds,
    line_height: i64,
    sel: Range<usize>,
    n: int,
    r: Bounds,
)
    requires
        0 <= n <= lines.len(),
        selection_rects(lines, bounds, line_height, sel, n).contains(r),
    ensures
        exists|k: int|
            0 <= k < n && segment_rects(
                lines,
                bounds,
                line_height,
                k,
                #[trigger] line_segments(lines, sel, k),
                line_segments(lines, sel, k).len() as int,
            ).contains(r),
    decreases n,
{
    let all = selection_rects(lines, bounds, line_height, sel, n);
    if n > 0 {
        let before = selection_rects(lines, bounds, line_height, sel, n - 1);
        let segs = line_segments(lines, sel, n - 1);
        let mine = segment_rects(lines, bounds, line_height, n - 1, segs, segs.len() as int);
        let j = choose|j: int| 0 <= j < all.len() && all[j] == r;
        if j < before.len() {
            assert(before[j] == r);
            assert(before.contains(r));
            lemma_selection_from(lines, bounds, line_height, sel, n - 1, r);
            let k = choose|k: int|
                0 <= k < n - 1 && segment_rects(
                    lines,
                    bounds,
                    line_height,
                    k,
                    #[trigger] line_segments(lines, sel, k),
                    line_segments(lines, sel, k).len() as int,
                ).contains(r);
            assert(line_segments(lines, sel, k) == line_segments(lines, sel, k));
        } else {
            assert(mine[j - before.len()] == r);
            assert(mine.contains(r));
            assert(line_segments(lines, sel, n - 1) == segs);
        }
    } else {
        assert(all.len() == 0);
    }
}

/// Every row of every line that the selection meets is filled from where its
/// selected part starts to where it ends, one line high, at the height of that
/// row; to the right the fill ends with the leaf.
pub proof fn selected_rows_are_filled(
    lines: Seq<ShapedLine>,
    bounds: Bounds,
    line_height: i64,
    sel: Range<usize>,
    k: int,
    m: int,
)
    requires
        fit(lines, bounds.y, line_height),
        0 <= k < lines.len(),
        0 <= m <= lines[k].wraps@.len(),
        lines[k].wraps@.len() < usize::MAX,
        forall|i: int| 0 <= i < lines[k].wraps@.len() ==> lines[k].wraps@[i] <= lines[k].len,
        ({
            let (a, b) = selected_on(lines, sel, k, m);
            let o = lines[k].xs@[row_from(lines, k, m)];
            let y = bounds.y + stacked(lines, line_height, k) + line_height * m;
            &&& a < b
            &&& lines[k].len < lines[k].xs@.len()
            &&& 0 <= lines[k].xs@[a] - o < lines[k].xs@[b] - o <= i64::MAX
            &&& lines[k].xs@[a] - o < bounds.width
            &&& bounds.x + bounds.width <= i64::MAX
            &&& i64::MIN <= line_height * m <= i64::MAX
            &&& i64::MIN <= y <= i64::MAX
        }),
    ensures
        ({
            let (a, b) = selected_on(lines, sel, k, m);
            let o = lines[k].xs@[row_from(lines, k, m)];
            let left = lines[k].xs@[a] - o;
            let right = if lines[k].xs@[b] - o <= bounds.width {
                lines[k].xs@[b] - o
            } else {
                bounds.width as int
            };
            exists|r: Bounds|
                {
                    &&& #[trigger] selection_rects(
                        lines,
                        bounds,
                        line_height,
                        sel,
                        lines.len() as int,
                    ).contains(r)
                    &&& r.x == bounds.x + left
                    &&& r.width == right - left
                    &&& r.y == bounds.y + stacked(lines, line_height, k) + line_height * m
                    &&& r.height == line_height
                }
        }),
{
    let line = lines[k];
    let ends = line.ends();
    let (a, b) = selected_on(lines, sel, k, m);
    lines_are_stacked(lines, bounds.y, line_height, k);
    lemma_spelled_grows(lines, 0, k);
    let rel = relative(sel, line_start(lines, k));
    let begin = row_from(lines, k, m);
    assert(ends[m] <= line.len);
    assert(0 <= begin <= line.len);
    assert(segment(rel, ends, m) == Some((m as usize, begin as usize, a as usize..b as usize)));
    let segs = line_segments(lines, sel, k);
    lemma_segments_hold(rel, ends, ends.len() as int, m);
    let i = choose|i: int| 0 <= i < segs.len() && #[trigger] segs[i] == segment(rel, ends, m)->0;
    let r = segment_rect(lines, bounds, line_height, k, segs[i]);
    assert(r is Some);
    lemma_rects_hold(lines, bounds, line_height, k, segs, segs.len() as int, i);
    lemma_selection_line(lines, bounds, line_height, sel, lines.len() as int, k, r->0);
}

/// What is filled is selected: every rectangle of a selection is one line high,
/// has a width, lies between the edges of the leaf, and is at the height of a
/// row of a line on which something is selected.
pub proof fn filled_rows_are_selected(
    lines: Seq<ShapedLine>,
    bounds: Bounds,
    line_height: i64,
    sel: Range<usize>,
    r: Bounds,
)
    requires
        fit(lines, bounds.y, line_height),
        forall|k: int| 0 <= k < lines.len() ==> (#[trigger] lines[k]).wraps@.len() < usize::MAX,
        bounds.x + bounds.width <= i64::MAX,
        selection_rects(lines, bounds, line_height, sel, lines.len() as int).contains(r),
    ensures
        r.height == line_height,
        0 < r.width,
        bounds.x <= r.x,
        r.x + r.width <= bounds.x + bounds.width,
        exists|k: int, m: int|
            {
                &&& 0 <= k < lines.len() && 0 <= m <= lines[k].wraps@.len()
                &&& (#[trigger] selected_on(lines, sel, k, m)).0 < selected_on(lines, sel, k, m).1
                &&& r.y == geometry::coord(
                    bounds.y + stacked(lines, line_height, k) + geometry::coord(line_height * m),
                )
            },
{
    let n = lines.len() as int;
    lemma_selection_from(lines, bounds, line_height, sel, n, r);
    let k = choose|k: int|
        0 <= k < n && segment_rects(
            lines,
            bounds,
            line_height,
            k,
            #[trigger] line_segments(lines, sel, k),
            line_segments(lines, sel, k).len() as int,
        ).contains(r);
    let segs = line_segments(lines, sel, k);
    lemma_rects_come(lines, bounds, line_height, k, segs, segs.len() as int, r);
    let i = choose|i: int|
        0 <= i < segs.len() && segment_rect(lines, bounds, line_height, k, #[trigger] segs[i])
            == Some(r);
    lines_are_stacked(lines, bounds.y, line_height, k);
    lemma_spelled_grows(lines, 0, k);
    let rel = relative(sel, line_start(lines, k));
    let ends = lines[k].ends();
    lemma_segments_come(rel, ends, ends.len() as int, i);
    let m = choose|m: int| 0 <= m < ends.len() && #[trigger] segment(rel, ends, m) == Some(segs[i]);
    assert(selected_on(lines, sel, k, m).0 < selected_on(lines, sel, k, m).1);
}

proof fn lemma_line_under(lines: Seq<ShapedLine>, top: i64, line_height: i64, y: i64, k: int)
    requires
        fit(lines, top, line_height),
        0 <= k <= lines.len(),
    ensures
        match line_under(lines, top, line_height, y, k) {
            Some(m) => {
                &&& k <= m < lines.len()
                &&& forall|j: int|
                    k <= j < m ==> top + #[trigger] stacked(lines, line_height, j + 1) <= y
                &&& m < lines.len() - 1 ==> y < top + stacked(lines, line_height, m + 1)
            },
            None => k == lines.len(),
        },
    decreases lines.len() - k,
{
    if k < lines.len() {
        lines_are_stacked(lines, top, line_height, k + 1);
        lemma_line_under(lines, top, line_height, y, k + 1);
    }
}

/// A position falls on the line under it: the first that ends below it, and
/// below all lines the last. It is handed to that line relative to the line's
/// own corner, and never past the line's lower edge.
pub proof fn positions_fall_on_the_line_under_them(
    lines: Seq<ShapedLine>,
    bounds: Bounds,
    p: Point,
    line_height: i64,
)
    requires
        fit(lines, bounds.y, line_height),
        lines.len() <= usize::MAX,
        line_height >= 32768,
        i64::MIN <= p.x - bounds.x <= i64::MAX,
    ensures
        lines.len() > 0 ==> line_under(lines, bounds.y, line_height, p.y, 0) is Some,
        line_under(lines, bounds.y, line_height, p.y, 0) matches Some(k) ==> {
            let hit = hit_on(lines, bounds, p, line_height, k);
            let from = bounds.y + stacked(lines, line_height, k);
            let to = bounds.y + stacked(lines, line_height, k + 1);
            &&& 0 <= k < lines.len()
            &&& k < lines.len() - 1 ==> p.y < to
            &&& k > 0 ==> from <= p.y
            &&& hit.line == k && hit.offset == spelled(lines, k)
            &&& hit.local.x == p.x - bounds.x
            &&& from <= p.y <= to - 32768 ==> hit.local.y == p.y - from
            &&& p.y < from ==> hit.local.y == 0
            &&& p.y > to - 32768 ==> hit.local.y == to - from - 32768
        },
{
    lemma_line_under(lines, bounds.y, line_height, p.y, 0);
    if let Some(k) = line_under(lines, bounds.y, line_height, p.y, 0) {
        lines_are_stacked(lines, bounds.y, line_height, k);
        lines_are_stacked(lines, bounds.y, line_height, k + 1);
        if k > 0 {
            assert(bounds.y + stacked(lines, line_height, k - 1 + 1) <= p.y);
        }
        lemma_stacked_grows(lines, line_height, 0, k);
    }
}

proof fn lemma_row_begin(line: ShapedLine, m: int)
    requires
        0 <= m <= line.wraps@.len(),
        forall|i: int, j: int|
            0 <= i <= j < line.wraps@.len() ==> line.wraps@[i] <= line.wraps@[j],
        forall|i: int| 0 <= i < line.wraps@.len() ==> line.wraps@[i] <= line.len,
    ensures
        row_begin(line, m) == if m == 0 {
            0
        } else {
            line.wraps@[m - 1] as int
        },
        row_stop(line, m) == if m == line.wraps@.len() {
            line.len as int
        } else {
            line.wraps@[m] as int
        },
    decreases m,
{
    if m > 0 {
        lemma_row_begin(line, m - 1);
        if m < line.wraps@.len() {
            assert(line.wraps@[m - 1] <= line.wraps@[m]);
        }
    }
}

/// The rows of a line: each runs from one soft wrap to the next, the first from
/// the start of the line and the last to its end; each is one line high, and as
/// many line heights below the top of its line as rows are before it.
pub proof fn rows_run_from_wrap_to_wrap(
    layout: LeafView,
    lines: Seq<ShapedLine>,
    bounds: Bounds,
    line_height: i64,
    k: int,
    m: int,
)
    requires
        fit(lines, bounds.y, line_height),
        0 <= k < lines.len(),
        0 <= m <= lines[k].wraps@.len(),
        forall|i: int, j: int|
            0 <= i <= j < lines[k].wraps@.len() ==> lines[k].wraps@[i] <= lines[k].wraps@[j],
        forall|i: int| 0 <= i < lines[k].wraps@.len() ==> lines[k].wraps@[i] <= lines[k].len,
        spelled(lines, k + 1) <= layout.text.len() <= usize::MAX,
        i64::MIN <= line_height * m <= i64::MAX,
        i64::MIN <= bounds.y + stacked(lines, line_height, k) + line_height * m <= i64::MAX,
    ensures
        ({
            let row = row_view(layout, lines, bounds, line_height, k, m);
            let at = spelled(lines, k);
            let wraps = lines[k].wraps@;
            &&& row.visible_start == at + if m == 0 {
                0
            } else {
                wraps[m - 1] as int
            }
            &&& row.visible_end == at + if m == wraps.len() {
                lines[k].len as int
            } else {
                wraps[m] as int
            }
            &&& row.top == bounds.y + stacked(lines, line_height, k) + line_height * m
            &&& row.height == line_height
        }),
{
    lines_are_stacked(lines, bounds.y, line_height, k);
    lemma_row_begin(lines[k], m);
    lemma_spelled_grows(lines, k, k + 1);
    lemma_spelled_grows(lines, k + 1, lines.len() as int);
}

proof fn lemma_stops(
    layout: LeafView,
    line: ShapedLine,
    bounds: Bounds,
    offset: usize,
    begin: usize,
    vs: usize,
    ve: usize,
    o: int,
    i: int,
)
    requires
        vs <= o,
        ve <= layout.text.len(),
        0 <= i < stops_from(layout, line, bounds, offset, begin, vs, ve, o).len(),
    ensures
        ({
            let stops = stops_from(layout, line, bounds, offset, begin, vs, ve, o);
            let s = stops[i];
            &&& o <= s.visible <= ve
            &&& s.source == layout.source_of(s.visible as int)
            &&& s.visible == vs || s.visible == ve || text::boundary(
                layout.text,
                s.visible as int,
            )
            &&& forall|j: int| i < j < stops.len() ==> s.visible < (#[trigger] stops[j]).visible
        }),
    decreases ve - o + 1,
{
    if o <= ve {
        let all = stops_from(layout, line, bounds, offset, begin, vs, ve, o);
        let rest = stops_from(layout, line, bounds, offset, begin, vs, ve, o + 1);
        let taken = stop_x(line, bounds, offset, begin, o) is Some && is_stop(
            layout.text,
            vs,
            ve,
            o,
        );
        if taken {
            assert(all.len() == rest.len() + 1);
            assert forall|j: int| 0 < j < all.len() implies all[j] == rest[j - 1] by {}
            if i > 0 {
                lemma_stops(layout, line, bounds, offset, begin, vs, ve, o + 1, i - 1);
                assert forall|j: int| i < j < all.len() implies all[i].visible < (
                #[trigger] all[j]).visible by {
                    assert(rest[j - 1] == all[j]);
                }
            } else {
                assert forall|j: int| 0 < j < all.len() implies all[0].visible < (
                #[trigger] all[j]).visible by {
                    lemma_stops(layout, line, bounds, offset, begin, vs, ve, o + 1, j - 1);
                }
            }
        } else {
            assert(all == rest);
            lemma_stops(layout, line, bounds, offset, begin, vs, ve, o + 1, i);
        }
    }
}

/// The caret stops of a row lie on it, from left to right of the text, each at
/// a character and with the source that the layout has for it.
pub proof fn stops_lie_on_their_row(
    layout: LeafView,
    lines: Seq<ShapedLine>,
    bounds: Bounds,
    line_height: i64,
    k: int,
    m: int,
    i: int,
)
    requires
        layout.text.len() <= usize::MAX,
        0 <= i < row_view(layout, lines, bounds, line_height, k, m).stops.len(),
    ensures
        ({
            let row = row_view(layout, lines, bounds, line_height, k, m);
            let s = row.stops[i];
            &&& row.visible_start <= s.visible <= row.visible_end
            &&& s.source == layout.source_of(s.visible as int)
            &&& s.visible == row.visible_start || s.visible == row.visible_end || text::boundary(
                layout.text,
                s.visible as int,
            )
            &&& forall|j: int|
                i < j < row.stops.len() ==> s.visible < (#[trigger] row.stops[j]).visible
        }),
{
    let row = row_view(layout, lines, bounds, line_height, k, m);
    lemma_stops(
        layout,
        lines[k],
        bounds,
        line_start(lines, k),
        row_begin(lines[k], m),
        row.visible_start,
        row.visible_end,
        row.visible_start as int,
        i,
    );
}

proof fn lemma_stop_held(
    layout: LeafView,
    line: ShapedLine,
    bounds: Bounds,
    offset: usize,
    begin: usize,
    vs: usize,
    ve: usize,
    o: int,
    at: int,
)
    requires
        vs <= o <= at <= ve,
        is_stop(layout.text, vs, ve, at),
        stop_x(line, bounds, offset, begin, at) is Some,
    ensures
        stops_from(layout, line, bounds, offset, begin, vs, ve, o).contains(
            VisualCaretStop {
                visible: at as usize,
                source: layout.source_of(at),
                x: stop_x(line, bounds, offset, begin, at)->0,
            },
        ),
    decreases ve - o + 1,
{
    let all = stops_from(layout, line, bounds, offset, begin, vs, ve, o);
    let rest = stops_from(layout, line, bounds, offset, begin, vs, ve, o + 1);
    let stop = VisualCaretStop {
        visible: at as usize,
        source: layout.source_of(at),
        x: stop_x(line, bounds, offset, begin, at)->0,
    };
    if o == at {
        assert(all[0] == stop);
    } else {
        lemma_stop_held(layout, line, bounds, offset, begin, vs, ve, o + 1, at);
        let j = choose|j: int| 0 <= j < rest.len() && rest[j] == stop;
        if all != rest {
            assert(all[j + 1] == stop);
        }
    }
}

/// Every character of a row that the line has a point for is a stop of the
/// row: at that point, measured from the left edge of the leaf, and at the edge
/// itself where the row starts.
pub proof fn characters_are_stops(
    layout: LeafView,
    lines: Seq<ShapedLine>,
    bounds: Bounds,
    line_height: i64,
    k: int,
    m: int,
    at: int,
    p: Point,
)
    requires
        fit(lines, bounds.y, line_height),
        0 <= k < lines.len(),
        ({
            let row = row_view(layout, lines, bounds, line_height, k, m);
            let o = at - spelled(lines, k);
            &&& row.visible_start < at <= row.visible_end
            &&& at == row.visible_end || (text::boundary(layout.text, at) && text::sliceable(
                layout.text,
                (row.visible_start..row.visible_end),
            ))
            &&& row.visible_start == spelled(lines, k) + row_begin(lines[k], m)
            &&& 0 <= o < lines[k].points@.len()
            &&& lines[k].points@[o] == Some(p)
            &&& i64::MIN <= bounds.x + p.x <= i64::MAX
        }),
    ensures
        ({
            let row = row_view(layout, lines, bounds, line_height, k, m);
            exists|i: int|
                0 <= i < row.stops.len() && (#[trigger] row.stops[i]).visible == at
                    && row.stops[i].x == bounds.x + p.x
        }),
        ({
            let row = row_view(layout, lines, bounds, line_height, k, m);
            row.stops.len() > 0 && row.stops[0].visible == row.visible_start && row.stops[0].x
                == bounds.x
        }),
{
    let row = row_view(layout, lines, bounds, line_height, k, m);
    lines_are_stacked(lines, bounds.y, line_height, k);
    let line = lines[k];
    let offset = line_start(lines, k);
    let begin = row_begin(line, m);
    let vs = row.visible_start;
    let ve = row.visible_end;
    lemma_stop_held(layout, line, bounds, offset, begin, vs, ve, vs as int, at);
    let stop = VisualCaretStop {
        visible: at as usize,
        source: layout.source_of(at),
        x: stop_x(line, bounds, offset, begin, at)->0,
    };
    let i = choose|i: int| 0 <= i < row.stops.len() && row.stops[i] == stop;
    assert(row.stops[i].visible == at);
}

proof fn lemma_measured_width(sizes: Seq<(i64, i64)>, k: int)
    requires
        0 <= k <= sizes.len(),
        forall|i: int| 0 <= i < sizes.len() ==> (#[trigger] sizes[i]).0 <= i64::MAX - 65536,
    ensures
        0 <= measured_width(sizes, k) <= i64::MAX - 65535,
        measured_width(sizes, k) % 65536 == 0,
        forall|i: int| 0 <= i < k ==> (#[trigger] sizes[i]).0 <= measured_width(sizes, k),
        measured_width(sizes, k) == 0 || exists|i: int|
            0 <= i < k && measured_width(sizes, k) < (#[trigger] sizes[i]).0 + 65536,
    decreases k,
{
    if k > 0 {
        lemma_measured_width(sizes, k - 1);
        let before = measured_width(sizes, k - 1);
        let w = sizes[k - 1].0;
        let v = geometry::longer(before, w);
        assert(ceil_px(v) % 65536 == 0 && v <= ceil_px(v) < v + 65536);
        if v == before {
            assert(ceil_px(v) == before);
            if before != 0 {
                let i = choose|i: int| 0 <= i < k - 1 && before < (#[trigger] sizes[i]).0 + 65536;
                assert(sizes[i].0 == sizes[i].0);
            }
        } else {
            assert(ceil_px(v) < sizes[k - 1].0 + 65536);
        }
    }
}

/// The size of a leaf. A width that is given is kept; else a leaf that hugs its
/// text is as wide as its widest line in whole pixels, within what wraps it,
/// and any other as wide as what wraps it. It is at least one line high.
pub proof fn leaves_measure(
    sizes: Seq<(i64, i64)>,
    line_height: i64,
    known: Option<i64>,
    wrap: Option<i64>,
    hug_width: bool,
)
    requires
        forall|i: int| 0 <= i < sizes.len() ==> (#[trigger] sizes[i]).0 <= i64::MAX - 65536,
    ensures
        ({
            let (w, h) = leaf_size(sizes, line_height, known, wrap, hug_width);
            &&& w >= 0 && h >= line_height
            &&& known is Some && known->0 >= 0 ==> w == known->0
            &&& known is None && !hug_width && wrap is Some && wrap->0 >= 0 ==> w == wrap->0
            &&& known is None && hug_width && wrap is Some && wrap->0 >= 0 ==> w <= wrap->0
            &&& known is None && (hug_width || wrap is None) && (wrap is Some ==> w < wrap->0) ==> {
                &&& forall|i: int| 0 <= i < sizes.len() ==> (#[trigger] sizes[i]).0 <= w
                &&& w % 65536 == 0
                &&& w == 0 || exists|i: int|
                    0 <= i < sizes.len() && w < (#[trigger] sizes[i]).0 + 65536
            }
        }),
{
    lemma_measured_width(sizes, sizes.len() as int);
}

/// Height of the first `k` measured lines.
pub open spec fn piled(sizes: Seq<(i64, i64)>, line_height: i64, k: int) -> int
    decreases k,
{
    if k <= 0 {
        0
    } else if sizes[k - 1].1 >= line_height {
        piled(sizes, line_height, k - 1) + sizes[k - 1].1
    } else {
        piled(sizes, line_height, k - 1) + line_height
    }
}

/// A leaf is as high as its lines together, each at least one line high.
pub proof fn leaf_is_as_high_as_its_lines(sizes: Seq<(i64, i64)>, line_height: i64, n: int)
    requires
        0 <= n <= sizes.len(),
        forall|k: int|
            0 <= k <= sizes.len() ==> i64::MIN <= #[trigger] piled(sizes, line_height, k)
                <= i64::MAX,
    ensures
        measured_height(sizes, line_height, n) == piled(sizes, line_height, n),
    decreases n,
{
    if n > 0 {
        leaf_is_as_high_as_its_lines(sizes, line_height, n - 1);
        assert(i64::MIN <= piled(sizes, line_height, n) <= i64::MAX);
    }
}

/// A leaf wraps at the width it was given, else at the definite width that is
/// left to it; asked for its least width it wraps at a pixel, and asked for its
/// greatest not at all.
pub proof fn wrapping_widths(w: i64, other: AvailableWidth)
    ensures
        wrap_at(Some(w), other) == Some(w),
        wrap_at(None, AvailableWidth::Definite(w)) == Some(w),
        wrap_at(None, AvailableWidth::MinContent) == Some(65536i64),
        wrap_at(None, AvailableWidth::MaxContent) is None,
{
}

/// An edited overlay shows its prefix, its draft up to the caret, the marked
/// text, and the rest of the draft; one that is not edited its prefix and its
/// draft. Without the marked text nothing else is shown, and nothing is lost.
pub proof fn overlays_show_everything(
    prefix: Seq<u8>,
    draft: Seq<u8>,
    editing: bool,
    caret: usize,
    marked: Seq<u8>,
)
    requires
        draft.len() <= usize::MAX,
    ensures
        ({
            let shown = overlay_display(prefix, draft, editing, caret, marked);
            let at = prefix.len() + overlay_at(draft, caret);
            &&& shown.take(prefix.len() as int) == prefix
            &&& !editing ==> shown == prefix + draft
            &&& editing ==> {
                &&& shown.len() == prefix.len() + draft.len() + marked.len()
                &&& shown.subrange(at, at + marked.len()) == marked
                &&& shown.take(at) + shown.skip(at + marked.len()) == prefix + draft
            }
            &&& caret <= draft.len() && text::boundary(draft, caret as int) ==> overlay_at(
                draft,
                caret,
            ) == caret
            &&& overlay_at(draft, caret) == caret || overlay_at(draft, caret) == draft.len()
        }),
{
    let shown = overlay_display(prefix, draft, editing, caret, marked);
    let o = overlay_at(draft, caret);
    let at = prefix.len() + o;
    assert(shown.take(prefix.len() as int) =~= prefix);
    if editing {
        assert(shown.subrange(at, at + marked.len()) =~= marked);
        assert(shown.take(at) + shown.skip(at + marked.len()) =~= prefix + draft);
    }
}

/// The selection of an edited overlay starts as far behind the prefix as in
/// the draft and ends behind the marked text, within what is shown; without
/// editing there is none.
pub proof fn overlay_selections(
    prefix_len: usize,
    marked_len: usize,
    sel: Range<usize>,
    display_len: usize,
)
    requires
        sel.start <= sel.end,
        prefix_len + sel.end + marked_len <= display_len,
    ensures
        overlay_selection(true, prefix_len, marked_len, sel, display_len).start == prefix_len
            + sel.start,
        overlay_selection(true, prefix_len, marked_len, sel, display_len).end == prefix_len
            + sel.end + marked_len,
        overlay_selection(false, prefix_len, marked_len, sel, display_len) == (0usize..0usize),
{
}

/// Behind the marked text, a visible offset of an overlay is that many bytes
/// further than in the draft; never outside the draft.
pub proof fn overlay_offsets_skip_the_marked_text(
    prefix_len: usize,
    vis: usize,
    draft_len: usize,
    caret: usize,
    preedit_len: usize,
)
    requires
        caret <= draft_len,
    ensures
        0 <= draft_offset_of(prefix_len, vis, draft_len, caret, preedit_len) <= draft_len,
        vis <= prefix_len ==> draft_offset_of(prefix_len, vis, draft_len, caret, preedit_len) == 0,
        prefix_len <= vis <= prefix_len + caret ==> draft_offset_of(
            prefix_len,
            vis,
            draft_len,
            caret,
            preedit_len,
        ) == vis - prefix_len,
        prefix_len + caret + preedit_len <= vis <= prefix_len + draft_len + preedit_len
            ==> draft_offset_of(prefix_len, vis, draft_len, caret, preedit_len) == vis - prefix_len
            - preedit_len,
        vis > prefix_len + draft_len + preedit_len ==> draft_offset_of(
            prefix_len,
            vis,
            draft_len,
            caret,
            preedit_len,
        ) == draft_len,
{
}

/// A selection touches a leaf where one of its bytes is of the leaf's source,
/// or where it is an empty one that the leaf holds.
pub proof fn selections_touch_what_they_overlap(layout: LeafView, sel: Range<usize>)
    ensures
        sel.start < sel.end ==> (touches_leaf(layout, sel) <==> sel.start < layout.last_source()
            && layout.first_source() < sel.end),
        sel.start == sel.end ==> (layout.contains(sel.start) ==> touches_leaf(layout, sel)),
{
}

/// An overlay is one run over all its text, italic where asked, and its source
/// offsets are its own.
pub proof fn overlay_layout_is_plain(t: Seq<u8>, italic: bool)
    requires
        0 < t.len() < usize::MAX,
    ensures
        ({
            let v = overlay_view(t, italic);
            &&& v.text == t
            &&& v.runs.len() == 1 && v.runs[0].len == t.len()
            &&& v.runs[0].style.italic == italic
            &&& v.source_at.len() == t.len() + 1
            &&& forall|i: int| 0 <= i <= t.len() ==> #[trigger] v.source_at[i] == i
        }),
{
}

/// The caret is found wherever it is looked for, painted where it is found and
/// shown, and never looked for or painted otherwise; so is the selection.
pub proof fn carets_are_painted_when_shown(
    lines: Seq<ShapedLine>,
    bounds: Bounds,
    line_height: i64,
    vis_caret: usize,
    vis_sel: Range<usize>,
    found: Option<Bounds>,
)
    ensures
        located_caret(lines, bounds, line_height, vis_caret, true) == caret_among(
            lines,
            bounds,
            line_height,
            vis_caret,
            lines.len() as int,
        ),
        located_caret(lines, bounds, line_height, vis_caret, false) is None,
        shown_caret(found, true) == found,
        shown_caret(found, false) is None,
        shown_selection(lines, bounds, line_height, vis_sel, true) == selection_rects(
            lines,
            bounds,
            line_height,
            vis_sel,
            lines.len() as int,
        ),
        shown_selection(lines, bounds, line_height, vis_sel, false).len() == 0,
{
}

/// The caret of an overlay stands behind the text under composition: what is
/// shown before it is the prefix, the draft up to the caret and that text.
pub proof fn overlay_carets_stand_behind_the_marked_text(
    prefix: Seq<u8>,
    draft: Seq<u8>,
    caret: usize,
    marked: Seq<u8>,
)
    requires
        text::boundary(draft, caret as int),
        draft.len() <= usize::MAX,
    ensures
        ({
            let shown = overlay_display(prefix, draft, true, caret, marked);
            let at = overlay_caret(prefix, draft, true, caret, marked);
            &&& 0 <= at <= shown.len()
            &&& shown.take(at) == prefix + draft.take(caret as int) + marked
            &&& shown.skip(at) == draft.skip(caret as int)
        }),
        overlay_caret(prefix, draft, false, caret, marked) == prefix.len(),
{
    let shown = overlay_display(prefix, draft, true, caret, marked);
    let at = overlay_caret(prefix, draft, true, caret, marked);
    assert(shown.take(at) =~= prefix + draft.take(caret as int) + marked);
    assert(shown.skip(at) =~= draft.skip(caret as int));
}

/// Every position hits a line, where there is one: the one under it, or the
/// nearest. The hit names the line and the text before it, and gives the
/// position within the line.
pub proof fn positions_hit_the_line_under_them(
    lines: Seq<ShapedLine>,
    bounds: Bounds,
    p: Point,
    line_height: i64,
)
    requires
        fit(lines, bounds.y, line_height),
        0 < lines.len() <= usize::MAX,
        line_height >= 32768,
        i64::MIN <= p.x - bounds.x <= i64::MAX,
    ensures
        hit_at(lines, bounds, p, line_height) is Some,
        ({
            let hit = hit_at(lines, bounds, p, line_height)->0;
            let k = hit.line as int;
            let from = bounds.y + stacked(lines, line_height, k);
            let to = bounds.y + stacked(lines, line_height, k + 1);
            &&& 0 <= k < lines.len()
            &&& k < lines.len() - 1 ==> p.y < to
            &&& k > 0 ==> from <= p.y
            &&& hit.offset == spelled(lines, k)
            &&& hit.local.x == p.x - bounds.x
            &&& from <= p.y <= to - 32768 ==> hit.local.y == p.y - from
        }),
        hit_at(Seq::empty(), bounds, p, line_height) is None,
{
    positions_fall_on_the_line_under_them(lines, bounds, p, line_height);
}

} // verus!
