//! Up and down by painted rows.

use vstd::prelude::*;

use crate::geometry;
use crate::geometry::{gap, PX};
use crate::ime::{ImeVisualLine, VisualCaretStop, VisualVerticalTarget};

verus! {

/// Visible offset of `caret` in the layout of row `k`.
pub open spec fn visible_in(lines: Seq<ImeVisualLine>, caret: usize, k: int) -> int {
    lines[k].layout@.visible_of(caret)
}

/// The caret is on row `k`.
pub open spec fn on_row(lines: Seq<ImeVisualLine>, caret: usize, k: int) -> bool {
    lines[k].line.visible_start <= visible_in(lines, caret, k) <= lines[k].line.visible_end
}

/// The caret is at the end of row `k`.
pub open spec fn ends_row(lines: Seq<ImeVisualLine>, caret: usize, k: int) -> bool {
    lines[k].line.visible_end == visible_in(lines, caret, k)
}

/// Row `k` hosts the caret better than row `j`: its layout spans less source,
/// or else the caret ends it. A soft-wrap boundary belongs to the row before.
pub open spec fn row_better(lines: Seq<ImeVisualLine>, caret: usize, k: int, j: int) -> bool {
    let a = lines[k].layout@.source_span();
    let b = lines[j].layout@.source_span();
    a < b || (a == b && ends_row(lines, caret, k) && !ends_row(lines, caret, j))
}

/// The row that the caret is on, among the first `n`.
pub open spec fn current_row(lines: Seq<ImeVisualLine>, caret: usize, n: int) -> Option<int>
    decreases n,
{
    if n <= 0 {
        None
    } else {
        let best = current_row(lines, caret, n - 1);
        if !on_row(lines, caret, n - 1) {
            best
        } else {
            match best {
                None => Some(n - 1),
                Some(j) => if row_better(lines, caret, n - 1, j) {
                    Some(n - 1)
                } else {
                    best
                },
            }
        }
    }
}

/// The first stop, from `k` on, at the visible offset `visible`, and at
/// `source` when one is given.
pub open spec fn stop_at(
    stops: Seq<VisualCaretStop>,
    visible: int,
    source: Option<usize>,
    k: int,
) -> Option<i64>
    decreases stops.len() - k,
{
    if k < 0 || k >= stops.len() {
        None
    } else if stops[k].visible == visible && (source is None || stops[k].source == source->0) {
        Some(stops[k].x)
    } else {
        stop_at(stops, visible, source, k + 1)
    }
}

/// Horizontal position of the caret on its row: that of its own stop, or of a
/// stop at its visible offset, or of the first stop.
pub open spec fn caret_x(stops: Seq<VisualCaretStop>, visible: int, caret: usize) -> Option<i64> {
    match stop_at(stops, visible, Some(caret), 0) {
        Some(x) => Some(x),
        None => match stop_at(stops, visible, None, 0) {
            Some(x) => Some(x),
            None => if stops.len() > 0 {
                Some(stops[0].x)
            } else {
                None
            },
        },
    }
}

/// Row `a` is not below row `b`: by top, then by visible start.
pub open spec fn not_below(lines: Seq<ImeVisualLine>, a: int, b: int) -> bool {
    lines[a].line.top < lines[b].line.top || (lines[a].line.top == lines[b].line.top
        && lines[a].line.visible_start <= lines[b].line.visible_start)
}

/// The ordered rows `order` with row `k`, behind those not below it.
pub open spec fn with_row(order: Seq<usize>, lines: Seq<ImeVisualLine>, k: usize) -> Seq<usize>
    decreases order.len(),
{
    if order.len() == 0 {
        seq![k]
    } else if not_below(lines, order.last() as int, k as int) {
        order.push(k)
    } else {
        with_row(order.drop_last(), lines, k).push(order.last())
    }
}

/// The first `n` rows from top to bottom.
pub open spec fn row_order(lines: Seq<ImeVisualLine>, n: int) -> Seq<usize>
    decreases n,
{
    if n <= 0 {
        Seq::empty()
    } else {
        with_row(row_order(lines, n - 1), lines, (n - 1) as usize)
    }
}

/// Where in `order` the visual row of position `k` starts. Several leaves can
/// share a visual row (text around an image, table cells): rows whose tops
/// are at most half a pixel below the first belong together.
pub open spec fn row_head(order: Seq<usize>, lines: Seq<ImeVisualLine>, k: int) -> int
    decreases k,
{
    if k <= 0 {
        0
    } else {
        let h = row_head(order, lines, k - 1);
        if geometry::distance(
            lines[order[k] as int].line.top as int,
            lines[order[h] as int].line.top as int,
        ) <= PX / 2 {
            h
        } else {
            k
        }
    }
}

/// The number of the visual row of position `k`.
pub open spec fn row_number(order: Seq<usize>, lines: Seq<ImeVisualLine>, k: int) -> int
    decreases k,
{
    if k <= 0 {
        0
    } else if row_head(order, lines, k) == k {
        row_number(order, lines, k - 1) + 1
    } else {
        row_number(order, lines, k - 1)
    }
}

/// The first position of `order`, from `k` on, that holds `line`.
pub open spec fn position(order: Seq<usize>, line: int, k: int) -> Option<int>
    decreases order.len() - k,
{
    if k < 0 || k >= order.len() {
        None
    } else if order[k] == line {
        Some(k)
    } else {
        position(order, line, k + 1)
    }
}

/// Stop `a` is nearer to `x` than stop `b`: by distance, then from left to
/// right, then by source.
pub open spec fn nearer(a: VisualCaretStop, b: VisualCaretStop, x: i64) -> bool {
    let da = geometry::distance(a.x as int, x as int);
    let db = geometry::distance(b.x as int, x as int);
    da < db || (da == db && (a.x < b.x || (a.x == b.x && a.source < b.source)))
}

/// The nearest of `best` and the first `m` of `stops`.
pub open spec fn nearest_stop(
    best: Option<VisualCaretStop>,
    stops: Seq<VisualCaretStop>,
    x: i64,
    m: int,
) -> Option<VisualCaretStop>
    decreases m,
{
    if m <= 0 {
        best
    } else {
        let before = nearest_stop(best, stops, x, m - 1);
        match before {
            None => Some(stops[m - 1]),
            Some(s) => if nearer(stops[m - 1], s, x) {
                Some(stops[m - 1])
            } else {
                before
            },
        }
    }
}

/// The stop of the visual row `row` nearest to `x`, among the first `k`
/// positions.
pub open spec fn nearest_in_row(
    order: Seq<usize>,
    lines: Seq<ImeVisualLine>,
    row: int,
    x: i64,
    k: int,
) -> Option<VisualCaretStop>
    decreases k,
{
    if k <= 0 {
        None
    } else {
        let before = nearest_in_row(order, lines, row, x, k - 1);
        if row_number(order, lines, k - 1) == row {
            let stops = lines[order[k - 1] as int].line.stops@;
            nearest_stop(before, stops, x, stops.len() as int)
        } else {
            before
        }
    }
}

/// Where `delta` visual rows from the caret lead: nowhere when no painted row
/// has the caret, past the painted rows when the target is not among them,
/// else to the stop of the target row nearest to the preferred position.
pub open spec fn vertical_move(
    lines: Seq<ImeVisualLine>,
    caret: usize,
    delta: i32,
    preferred: Option<i64>,
) -> Option<VisualVerticalTarget> {
    let n = lines.len() as int;
    let order = row_order(lines, n);
    match current_row(lines, caret, n) {
        Some(cur) => match (
            caret_x(lines[cur].line.stops@, visible_in(lines, caret, cur), caret),
            position(order, cur, 0),
        ) {
            (Some(x), Some(at)) => if delta == 0 {
                None
            } else {
                let preferred_x = match preferred {
                    Some(p) => p,
                    None => x,
                };
                let target = row_number(order, lines, at) + delta;
                let source = if 0 <= target <= row_number(order, lines, order.len() - 1) {
                    match nearest_in_row(order, lines, target, preferred_x, order.len() as int) {
                        Some(s) => Some(s.source),
                        None => None,
                    }
                } else {
                    None
                };
                Some(VisualVerticalTarget { source, preferred_x })
            },
            _ => None,
        },
        None => None,
    }
}

proof fn lemma_with_row(order: Seq<usize>, lines: Seq<ImeVisualLine>, k: usize)
    ensures
        with_row(order, lines, k).len() == order.len() + 1,
        with_row(order, lines, k).contains(k),
        forall|x: usize| #[trigger] order.contains(x) ==> with_row(order, lines, k).contains(x),
        forall|i: int|
            0 <= i < with_row(order, lines, k).len() ==> #[trigger] with_row(order, lines, k)[i]
                == k || order.contains(with_row(order, lines, k)[i]),
    decreases order.len(),
{
    let out = with_row(order, lines, k);
    if order.len() == 0 {
        assert(out[0] == k);
    } else if not_below(lines, order.last() as int, k as int) {
        assert(out[order.len() as int] == k);
        assert forall|x: usize| #[trigger] order.contains(x) implies out.contains(x) by {
            let i = choose|i: int| 0 <= i < order.len() && order[i] == x;
            assert(out[i] == x);
        }
        assert forall|i: int| 0 <= i < out.len() implies #[trigger] out[i] == k || order.contains(
            out[i],
        ) by {
            if i < order.len() {
                assert(order[i] == out[i]);
            }
        }
    } else {
        let front = order.drop_last();
        lemma_with_row(front, lines, k);
        let u = with_row(front, lines, k);
        let at = choose|i: int| 0 <= i < u.len() && u[i] == k;
        assert(out[at] == k);
        assert forall|x: usize| #[trigger] order.contains(x) implies out.contains(x) by {
            let i = choose|i: int| 0 <= i < order.len() && order[i] == x;
            if i < front.len() {
                assert(front[i] == x);
                assert(front.contains(x));
                assert(u.contains(x));
                let j = choose|j: int| 0 <= j < u.len() && u[j] == x;
                assert(out[j] == x);
            } else {
                assert(out[u.len() as int] == x);
            }
        }
        assert forall|i: int| 0 <= i < out.len() implies #[trigger] out[i] == k || order.contains(
            out[i],
        ) by {
            if i < u.len() {
                assert(u[i] == out[i]);
                if u[i] != k {
                    assert(front.contains(u[i]));
                    let j = choose|j: int| 0 <= j < front.len() && front[j] == u[i];
                    assert(order[j] == out[i]);
                }
            } else {
                assert(order[order.len() - 1] == out[i]);
            }
        }
    }
}

/// Ordering loses no row and invents none.
pub proof fn order_is_complete(lines: Seq<ImeVisualLine>, n: int)
    requires
        0 <= n <= lines.len(),
        lines.len() <= usize::MAX,
    ensures
        row_order(lines, n).len() == n,
        forall|k: int| 0 <= k < n ==> row_order(lines, n).contains(#[trigger] as_index(k)),
        forall|i: int| 0 <= i < n ==> 0 <= #[trigger] row_order(lines, n)[i] < n,
    decreases n,
{
    if n > 0 {
        order_is_complete(lines, n - 1);
        let before = row_order(lines, n - 1);
        let out = row_order(lines, n);
        lemma_with_row(before, lines, (n - 1) as usize);
        assert forall|k: int| 0 <= k < n implies out.contains(#[trigger] as_index(k)) by {
            if k < n - 1 {
                assert(before.contains(as_index(k)));
            }
        }
        assert forall|i: int| 0 <= i < n implies 0 <= #[trigger] out[i] < n by {
            if out[i] != (n - 1) as usize {
                assert(before.contains(out[i]));
                let j = choose|j: int| 0 <= j < before.len() && before[j] == out[i];
                assert(0 <= before[j] < n - 1);
            }
        }
    }
}

/// `k` as an index.
pub open spec fn as_index(k: int) -> usize {
    k as usize
}

proof fn lemma_position(order: Seq<usize>, line: int, k: int)
    requires
        0 <= k <= order.len(),
    ensures
        position(order, line, k) matches Some(p) ==> k <= p < order.len() && order[p] == line,
        (exists|i: int| k <= i < order.len() && #[trigger] order[i] == line) ==> position(
            order,
            line,
            k,
        ) is Some,
    decreases order.len() - k,
{
    if k < order.len() && order[k] != line {
        lemma_position(order, line, k + 1);
    }
}

fn find_current(lines: &Vec<ImeVisualLine>, caret: usize) -> (found: Option<(usize, usize)>)
    ensures
        found matches Some((k, visible)) ==> k < lines@.len() && current_row(
            lines@,
            caret,
            lines@.len() as int,
        ) == Some(k as int) && visible == visible_in(lines@, caret, k as int),
        found is None ==> current_row(lines@, caret, lines@.len() as int) is None,
{
    let mut best: Option<(usize, usize, usize, bool)> = None;
    let mut i: usize = 0;
    while i < lines.len()
        invariant
            i <= lines@.len(),
            best is None ==> current_row(lines@, caret, i as int) is None,
            best matches Some((k, span, visible, ends)) ==> {
                &&& k < i
                &&& current_row(lines@, caret, i as int) == Some(k as int)
                &&& span == lines@[k as int].layout@.source_span()
                &&& visible == visible_in(lines@, caret, k as int)
                &&& ends == ends_row(lines@, caret, k as int)
            },
        decreases lines@.len() - i,
    {
        let entry = &lines[i];
        let visible: usize = entry.layout.visible_for_source(caret);
        if visible >= entry.line.visible_start && visible <= entry.line.visible_end {
            let span: usize = entry.layout.source_span_len();
            let ends = entry.line.visible_end == visible;
            let better = match best {
                None => true,
                Some((_, best_span, _, best_ends)) => span < best_span || (span == best_span && ends
                    && !best_ends),
            };
            if better {
                best = Some((i, span, visible, ends));
            }
        }
        i = i + 1;
    }
    match best {
        Some((k, _, visible, _)) => Some((k, visible)),
        None => None,
    }
}

fn find_stop(stops: &Vec<VisualCaretStop>, visible: usize, source: Option<usize>) -> (x: Option<
    i64,
>)
    ensures
        x == stop_at(stops@, visible as int, source, 0),
{
    let mut k: usize = 0;
    while k < stops.len()
        invariant
            k <= stops@.len(),
            stop_at(stops@, visible as int, source, 0) == stop_at(
                stops@,
                visible as int,
                source,
                k as int,
            ),
        decreases stops@.len() - k,
    {
        let hit = stops[k].visible == visible && match source {
            Some(s) => stops[k].source == s,
            None => true,
        };
        if hit {
            return Some(stops[k].x);
        }
        k = k + 1;
    }
    None
}

fn find_caret_x(stops: &Vec<VisualCaretStop>, visible: usize, caret: usize) -> (x: Option<i64>)
    ensures
        x == caret_x(stops@, visible as int, caret),
{
    if let Some(x) = find_stop(stops, visible, Some(caret)) {
        return Some(x);
    }
    if let Some(x) = find_stop(stops, visible, None) {
        return Some(x);
    }
    if stops.len() > 0 {
        Some(stops[0].x)
    } else {
        None
    }
}

fn order_rows(lines: &Vec<ImeVisualLine>) -> (order: Vec<usize>)
    ensures
        order@ == row_order(lines@, lines@.len() as int),
{
    let mut order: Vec<usize> = Vec::new();
    let mut k: usize = 0;
    while k < lines.len()
        invariant
            k <= lines@.len(),
            order@ == row_order(lines@, k as int),
        decreases lines@.len() - k,
    {
        let ghost start = order@;
        let ghost goal = with_row(start, lines@, k);
        proof {
            order_is_complete(lines@, k as int);
            assert(start.take(start.len() as int) =~= start);
            assert(goal + Seq::<usize>::empty() =~= goal);
            assert(start.skip(start.len() as int) =~= Seq::<usize>::empty());
        }
        let mut i: usize = order.len();
        let mut stop = false;
        while i > 0 && !stop
            invariant
                i <= order@.len(),
                order@ == start,
                k < lines@.len(),
                start.len() == k,
                forall|j: int| 0 <= j < k ==> 0 <= #[trigger] start[j] < k,
                goal == with_row(start.take(i as int), lines@, k) + start.skip(i as int),
                stop ==> i > 0 && not_below(lines@, start[i - 1] as int, k as int),
            decreases i, if stop { 0int } else { 1int },
        {
            let a = &lines[order[i - 1]].line;
            let b = &lines[k].line;
            if a.top < b.top || (a.top == b.top && a.visible_start <= b.visible_start) {
                stop = true;
            } else {
                let ghost front = start.take(i as int);
                assert(front.drop_last() =~= start.take(i - 1));
                assert(front.last() == start[i - 1]);
                assert(with_row(start.take(i - 1), lines@, k).push(start[i - 1]) + start.skip(
                    i as int,
                ) =~= with_row(start.take(i - 1), lines@, k) + start.skip(i - 1));
                i = i - 1;
            }
        }
        proof {
            let front = start.take(i as int);
            if i > 0 {
                assert(front.last() == start[i - 1]);
                assert(with_row(front, lines@, k) == front.push(k));
            } else {
                assert(with_row(front, lines@, k) =~= front.push(k));
            }
            assert(front.push(k) + start.skip(i as int) =~= start.insert(i as int, k));
        }
        order.insert(i, k);
        k = k + 1;
    }
    order
}

/// The number of the visual row of each position of `order`.
fn number_rows(order: &Vec<usize>, lines: &Vec<ImeVisualLine>) -> (numbers: Vec<usize>)
    requires
        order@ == row_order(lines@, lines@.len() as int),
    ensures
        numbers@.len() == order@.len(),
        forall|k: int|
            0 <= k < order@.len() ==> #[trigger] numbers@[k] == row_number(order@, lines@, k),
        forall|k: int| 0 <= k < order@.len() ==> #[trigger] numbers@[k] <= k,
{
    let mut numbers: Vec<usize> = Vec::new();
    let mut head: usize = 0;
    let mut number: usize = 0;
    let mut k: usize = 0;
    let total: usize = lines.len();
    proof {
        order_is_complete(lines@, total as int);
    }
    while k < order.len()
        invariant
            order@ == row_order(lines@, lines@.len() as int),
            order@.len() == lines@.len(),
            forall|j: int| 0 <= j < order@.len() ==> 0 <= #[trigger] order@[j] < lines@.len(),
            k <= order@.len(),
            numbers@.len() == k,
            forall|j: int|
                0 <= j < k ==> #[trigger] numbers@[j] == row_number(order@, lines@, j),
            forall|j: int| 0 <= j < k ==> #[trigger] numbers@[j] <= j,
            k > 0 ==> head == row_head(order@, lines@, k - 1) && number == row_number(
                order@,
                lines@,
                k - 1,
            ) && head < k && number < k,
            k == 0 ==> head == 0 && number == 0,
        decreases order@.len() - k,
    {
        if k > 0 {
            let top: i64 = lines[order[k]].line.top;
            let first: i64 = lines[order[head]].line.top;
            if gap(top, first) > (PX / 2) as i128 {
                head = k;
                number = number + 1;
            }
        }
        numbers.push(number);
        k = k + 1;
    }
    numbers
}

fn nearest_of(
    best: Option<VisualCaretStop>,
    stops: &Vec<VisualCaretStop>,
    x: i64,
) -> (found: Option<VisualCaretStop>)
    ensures
        found == nearest_stop(best, stops@, x, stops@.len() as int),
{
    let mut found = best;
    let mut m: usize = 0;
    while m < stops.len()
        invariant
            m <= stops@.len(),
            found == nearest_stop(best, stops@, x, m as int),
        decreases stops@.len() - m,
    {
        let s = stops[m];
        let closer = match found {
            None => true,
            Some(f) => {
                let a: i128 = gap(s.x, x);
                let b: i128 = gap(f.x, x);
                a < b || (a == b && (s.x < f.x || (s.x == f.x && s.source < f.source)))
            },
        };
        if closer {
            found = Some(s);
        }
        m = m + 1;
    }
    found
}

/// Where `delta` visual rows from the caret lead.
pub fn vertical_target(
    lines: &Vec<ImeVisualLine>,
    caret: usize,
    delta: i32,
    preferred_x: Option<i64>,
) -> (target: Option<VisualVerticalTarget>)
    ensures
        target == vertical_move(lines@, caret, delta, preferred_x),
{
    if delta == 0 {
        return None;
    }
    let (cur, visible) = match find_current(lines, caret) {
        Some(found) => found,
        None => {
            return None;
        },
    };
    let x: i64 = match find_caret_x(&lines[cur].line.stops, visible, caret) {
        Some(x) => x,
        None => {
            return None;
        },
    };
    let preferred: i64 = match preferred_x {
        Some(p) => p,
        None => x,
    };
    let order = order_rows(lines);
    let numbers = number_rows(&order, lines);
    let total: usize = lines.len();
    proof {
        order_is_complete(lines@, total as int);
        assert(order@.contains(as_index(cur as int)));
    }
    let mut at: usize = 0;
    while at < order.len() && order[at] != cur
        invariant
            at <= order@.len(),
            position(order@, cur as int, 0) == position(order@, cur as int, at as int),
        decreases order@.len() - at,
    {
        at = at + 1;
    }
    proof {
        lemma_position(order@, cur as int, 0);
        let i = choose|i: int| 0 <= i < order@.len() && order@[i] == cur;
        assert(order@[i] == cur as int);
    }
    let last: usize = order.len() - 1;
    let row: i128 = numbers[at] as i128 + delta as i128;
    if row < 0 || row > numbers[last] as i128 {
        return Some(VisualVerticalTarget { source: None, preferred_x: preferred });
    }
    let mut best: Option<VisualCaretStop> = None;
    let mut k: usize = 0;
    while k < order.len()
        invariant
            k <= order@.len(),
            order@.len() == lines@.len(),
            numbers@.len() == order@.len(),
            forall|j: int|
                0 <= j < order@.len() ==> #[trigger] numbers@[j] == row_number(order@, lines@, j),
            forall|j: int| 0 <= j < order@.len() ==> 0 <= #[trigger] order@[j] < lines@.len(),
            best == nearest_in_row(order@, lines@, row as int, preferred, k as int),
        decreases order@.len() - k,
    {
        if numbers[k] as i128 == row {
            best = nearest_of(best, &lines[order[k]].line.stops, preferred);
        }
        k = k + 1;
    }
    let source: Option<usize> = match best {
        Some(s) => Some(s.source),
        None => None,
    };
    Some(VisualVerticalTarget { source, preferred_x: preferred })
}

proof fn lemma_nearest_stop(
    best: Option<VisualCaretStop>,
    stops: Seq<VisualCaretStop>,
    x: i64,
    m: int,
)
    requires
        0 <= m <= stops.len(),
    ensures
        best is Some || m > 0 ==> nearest_stop(best, stops, x, m) is Some,
        nearest_stop(best, stops, x, m) matches Some(s) ==> {
            &&& forall|i: int| 0 <= i < m ==> !nearer(#[trigger] stops[i], s, x)
            &&& best matches Some(b) ==> !nearer(b, s, x)
        },
    decreases m,
{
    if m > 0 {
        lemma_nearest_stop(best, stops, x, m - 1);
    }
}

/// The stop that is chosen on the target row is nearest to the preferred
/// position: no other stop of the row is nearer.
pub proof fn target_is_nearest(
    order: Seq<usize>,
    lines: Seq<ImeVisualLine>,
    row: int,
    x: i64,
    n: int,
    k: int,
    i: int,
)
    requires
        0 <= k < n <= order.len(),
        row_number(order, lines, k) == row,
        0 <= i < lines[order[k] as int].line.stops@.len(),
    ensures
        nearest_in_row(order, lines, row, x, n) matches Some(s) && !nearer(
            lines[order[k] as int].line.stops@[i],
            s,
            x,
        ),
    decreases n,
{
    let stops = lines[order[n - 1] as int].line.stops@;
    let before = nearest_in_row(order, lines, row, x, n - 1);
    lemma_nearest_stop(before, stops, x, stops.len() as int);
    if k < n - 1 {
        target_is_nearest(order, lines, row, x, n - 1, k, i);
    }
}

/// The horizontal intent of the first move is kept over every further move.
pub proof fn preferred_x_is_kept(
    lines: Seq<ImeVisualLine>,
    caret: usize,
    delta: i32,
    preferred: i64,
)
    ensures
        vertical_move(lines, caret, delta, Some(preferred)) matches Some(t) ==> t.preferred_x
            == preferred,
{
}

/// The top edge of the row at position `k` of `order`.
pub open spec fn top_at(order: Seq<usize>, lines: Seq<ImeVisualLine>, k: int) -> int {
    lines[order[k] as int].line.top as int
}

proof fn lemma_with_row_sorted(order: Seq<usize>, lines: Seq<ImeVisualLine>, k: usize)
    requires
        forall|i: int, j: int|
            0 <= i <= j < order.len() ==> not_below(lines, order[i] as int, order[j] as int),
    ensures
        forall|i: int, j: int|
            0 <= i <= j < with_row(order, lines, k).len() ==> not_below(
                lines,
                with_row(order, lines, k)[i] as int,
                with_row(order, lines, k)[j] as int,
            ),
    decreases order.len(),
{
    if order.len() > 0 && not_below(lines, order.last() as int, k as int) {
        let out = with_row(order, lines, k);
        assert forall|i: int, j: int| 0 <= i <= j < out.len() implies not_below(
            lines,
            out[i] as int,
            out[j] as int,
        ) by {
            if i < order.len() {
                assert(not_below(lines, order[i] as int, order[order.len() - 1] as int));
            }
        }
    } else if order.len() > 0 {
        let front = order.drop_last();
        assert forall|i: int, j: int| 0 <= i <= j < front.len() implies not_below(
            lines,
            front[i] as int,
            front[j] as int,
        ) by {
            assert(not_below(lines, order[i] as int, order[j] as int));
        }
        lemma_with_row_sorted(front, lines, k);
        lemma_with_row(front, lines, k);
        let u = with_row(front, lines, k);
        let out = with_row(order, lines, k);
        assert forall|i: int, j: int| 0 <= i <= j < out.len() implies not_below(
            lines,
            out[i] as int,
            out[j] as int,
        ) by {
            if j == u.len() && i < j {
                if u[i] != k {
                    assert(front.contains(u[i]));
                    let q = choose|q: int| 0 <= q < front.len() && front[q] == u[i];
                    assert(not_below(lines, order[q] as int, order[order.len() - 1] as int));
                }
            }
        }
    }
}

/// Ordered rows run downward: none starts above the one before it, and rows of
/// one height run from left to right of the text.
pub proof fn rows_run_downward(lines: Seq<ImeVisualLine>, n: int)
    ensures
        forall|i: int, j: int|
            0 <= i <= j < row_order(lines, n).len() ==> {
                let a = lines[#[trigger] row_order(lines, n)[i] as int].line;
                let b = lines[#[trigger] row_order(lines, n)[j] as int].line;
                a.top < b.top || (a.top == b.top && a.visible_start <= b.visible_start)
            },
    decreases n,
{
    if n > 0 {
        rows_run_downward(lines, n - 1);
        let before = row_order(lines, n - 1);
        assert forall|i: int, j: int| 0 <= i <= j < before.len() implies not_below(
            lines,
            before[i] as int,
            before[j] as int,
        ) by {}
        lemma_with_row_sorted(before, lines, (n - 1) as usize);
        let out = row_order(lines, n);
        assert forall|i: int, j: int| 0 <= i <= j < out.len() implies ({
            let a = lines[#[trigger] out[i] as int].line;
            let b = lines[#[trigger] out[j] as int].line;
            a.top < b.top || (a.top == b.top && a.visible_start <= b.visible_start)
        }) by {
            assert(not_below(lines, out[i] as int, out[j] as int));
        }
    }
}

/// `order` runs downward.
spec fn runs_down(order: Seq<usize>, lines: Seq<ImeVisualLine>) -> bool {
    forall|i: int, j: int|
        0 <= i <= j < order.len() ==> #[trigger] top_at(order, lines, i) <= #[trigger] top_at(
            order,
            lines,
            j,
        )
}

proof fn lemma_runs_down(lines: Seq<ImeVisualLine>)
    ensures
        runs_down(row_order(lines, lines.len() as int), lines),
{
    let n = lines.len() as int;
    let order = row_order(lines, n);
    rows_run_downward(lines, n);
    assert forall|i: int, j: int| 0 <= i <= j < order.len() implies #[trigger] top_at(
        order,
        lines,
        i,
    ) <= #[trigger] top_at(order, lines, j) by {
        let a = lines[order[i] as int].line;
        let b = lines[order[j] as int].line;
        assert(a.top <= b.top);
    }
}

proof fn lemma_row_head(order: Seq<usize>, lines: Seq<ImeVisualLine>, k: int)
    requires
        0 <= k < order.len(),
        runs_down(order, lines),
    ensures
        0 <= row_head(order, lines, k) <= k,
        row_head(order, lines, row_head(order, lines, k)) == row_head(order, lines, k),
        row_number(order, lines, row_head(order, lines, k)) == row_number(order, lines, k),
        top_at(order, lines, k) - top_at(order, lines, row_head(order, lines, k)) <= 32768,
        0 <= row_number(order, lines, k) <= k,
    decreases k,
{
    if k > 0 {
        lemma_row_head(order, lines, k - 1);
        let h = row_head(order, lines, k - 1);
        assert(top_at(order, lines, h) <= top_at(order, lines, k));
    }
}

proof fn lemma_numbers_grow(order: Seq<usize>, lines: Seq<ImeVisualLine>, i: int, j: int)
    requires
        0 <= i <= j < order.len(),
        runs_down(order, lines),
    ensures
        row_number(order, lines, i) <= row_number(order, lines, j),
        row_number(order, lines, i) == row_number(order, lines, j) ==> row_head(order, lines, i)
            == row_head(order, lines, j),
        row_number(order, lines, i) < row_number(order, lines, j) ==> top_at(order, lines, i)
            < top_at(order, lines, row_head(order, lines, j)),
    decreases j,
{
    if i < j {
        lemma_numbers_grow(order, lines, i, j - 1);
        lemma_row_head(order, lines, j - 1);
        lemma_row_head(order, lines, i);
        let h = row_head(order, lines, j - 1);
        assert(top_at(order, lines, h) <= top_at(order, lines, j));
        assert(top_at(order, lines, i) <= top_at(order, lines, j - 1));
        if row_head(order, lines, j) == j {
            assert(top_at(order, lines, j) - top_at(order, lines, h) > 32768);
        }
    }
}

proof fn lemma_far_below_head(order: Seq<usize>, lines: Seq<ImeVisualLine>, i: int, j: int)
    requires
        0 <= i <= j < order.len(),
        runs_down(order, lines),
        row_head(order, lines, i) == i,
    ensures
        row_number(order, lines, i) < row_number(order, lines, j) ==> top_at(order, lines, j)
            - top_at(order, lines, i) > 32768,
        row_number(order, lines, i) == row_number(order, lines, j) ==> row_head(order, lines, j)
            == i,
    decreases j,
{
    if i < j {
        lemma_far_below_head(order, lines, i, j - 1);
        lemma_numbers_grow(order, lines, i, j - 1);
        assert(top_at(order, lines, j - 1) <= top_at(order, lines, j));
        let h = row_head(order, lines, j - 1);
        lemma_row_head(order, lines, j - 1);
        assert(top_at(order, lines, h) <= top_at(order, lines, j));
    }
}

/// Painted rows are numbered by height: of two rows in order the lower one has
/// no smaller number; rows of one number are at most half a pixel apart, rows
/// of different numbers do not start at one height, and what starts at most
/// half a pixel below the first of a number has that number.
pub proof fn rows_are_numbered_by_height(lines: Seq<ImeVisualLine>, i: int, j: int)
    requires
        lines.len() <= usize::MAX,
        0 <= i <= j < lines.len(),
    ensures
        ({
            let order = row_order(lines, lines.len() as int);
            let a = lines[order[i] as int].line.top;
            let b = lines[order[j] as int].line.top;
            let r = row_number(order, lines, i);
            let s = row_number(order, lines, j);
            &&& r <= s
            &&& a <= b
            &&& r == s ==> b - a <= 32768
            &&& r < s ==> a < b
            &&& row_number(order, lines, 0) == 0
            &&& i + 1 == j ==> s <= r + 1
            &&& (i == 0 || row_number(order, lines, i - 1) < r) && b - a <= 32768 ==> r == s
        }),
{
    let order = row_order(lines, lines.len() as int);
    order_is_complete(lines, lines.len() as int);
    lemma_runs_down(lines);
    lemma_numbers_grow(order, lines, i, j);
    lemma_row_head(order, lines, i);
    lemma_row_head(order, lines, j);
    if i == 0 || row_number(order, lines, i - 1) < row_number(order, lines, i) {
        lemma_far_below_head(order, lines, i, j);
    }
    let h = row_head(order, lines, j);
    assert(top_at(order, lines, i) <= top_at(order, lines, j));
    assert(top_at(order, lines, h) <= top_at(order, lines, j));
    assert(top_at(order, lines, row_head(order, lines, i)) <= top_at(order, lines, i));
}

proof fn lemma_nearest_stop_is_one(
    best: Option<VisualCaretStop>,
    stops: Seq<VisualCaretStop>,
    x: i64,
    m: int,
)
    requires
        0 <= m <= stops.len(),
    ensures
        nearest_stop(best, stops, x, m) matches Some(s) ==> best == Some(s) || exists|i: int|
            0 <= i < m && #[trigger] stops[i] == s,
    decreases m,
{
    if m > 0 {
        lemma_nearest_stop_is_one(best, stops, x, m - 1);
        let s = nearest_stop(best, stops, x, m)->0;
        if nearest_stop(best, stops, x, m - 1) == Some(s) {
            if best != Some(s) {
                let i = choose|i: int| 0 <= i < m - 1 && #[trigger] stops[i] == s;
                assert(stops[i] == s);
            }
        } else {
            assert(stops[m - 1] == s);
        }
    }
}

/// Stop `i` of the row at position `k`.
pub open spec fn stop_of(order: Seq<usize>, lines: Seq<ImeVisualLine>, k: int, i: int) -> VisualCaretStop {
    lines[order[k] as int].line.stops@[i]
}

proof fn lemma_nearest_in_row_is_one(
    order: Seq<usize>,
    lines: Seq<ImeVisualLine>,
    row: int,
    x: i64,
    n: int,
)
    requires
        0 <= n <= order.len(),
    ensures
        nearest_in_row(order, lines, row, x, n) matches Some(s) ==> exists|k: int, i: int|
            0 <= k < n && row_number(order, lines, k) == row && 0 <= i
                < lines[order[k] as int].line.stops@.len() && #[trigger] stop_of(
                order,
                lines,
                k,
                i,
            ) == s,
    decreases n,
{
    if n > 0 {
        lemma_nearest_in_row_is_one(order, lines, row, x, n - 1);
        let stops = lines[order[n - 1] as int].line.stops@;
        let before = nearest_in_row(order, lines, row, x, n - 1);
        lemma_nearest_stop_is_one(before, stops, x, stops.len() as int);
        if let Some(s) = nearest_in_row(order, lines, row, x, n) {
            if before == Some(s) {
                let (k, i) = choose|k: int, i: int|
                    0 <= k < n - 1 && row_number(order, lines, k) == row && 0 <= i
                        < lines[order[k] as int].line.stops@.len() && #[trigger] stop_of(
                        order,
                        lines,
                        k,
                        i,
                    ) == s;
                assert(stop_of(order, lines, k, i) == s);
            } else {
                let i = choose|i: int| 0 <= i < stops.len() && #[trigger] stops[i] == s;
                assert(stop_of(order, lines, n - 1, i) == s);
            }
        }
    }
}

/// Stop `a` is at least as near to `x` as stop `b`, and of two at one distance
/// it is not the right one.
pub open spec fn at_least_as_near(a: VisualCaretStop, b: VisualCaretStop, x: int) -> bool {
    let da = if a.x >= x {
        a.x - x
    } else {
        x - a.x
    };
    let db = if b.x >= x {
        b.x - x
    } else {
        x - b.x
    };
    da < db || (da == db && (a.x < b.x || (a.x == b.x && a.source <= b.source)))
}

/// A move by `delta` rows from the row of the caret, at position `at`, leads to
/// the row `delta` further: to a stop of that row to which no other stop of the
/// row is nearer, and nowhere only where that row has no stop, as where there
/// is no such row.
pub proof fn moves_land_on_their_row(
    lines: Seq<ImeVisualLine>,
    caret: usize,
    delta: i32,
    preferred: Option<i64>,
    cur: int,
    at: int,
)
    requires
        lines.len() <= usize::MAX,
        delta != 0,
        current_row(lines, caret, lines.len() as int) == Some(cur),
        lines[cur].line.stops@.len() > 0,
        0 <= at < lines.len(),
        row_order(lines, lines.len() as int)[at] == cur,
    ensures
        ({
            let n = lines.len() as int;
            let order = row_order(lines, n);
            let row = row_number(order, lines, at) + delta;
            &&& vertical_move(lines, caret, delta, preferred) matches Some(t)
            &&& match t.source {
                Some(source) => exists|k: int, i: int|
                    {
                        &&& 0 <= k < n && row_number(order, lines, k) == row
                        &&& 0 <= i < lines[order[k] as int].line.stops@.len()
                        &&& (#[trigger] stop_of(order, lines, k, i)).source == source
                        &&& forall|l: int, j: int|
                            0 <= l < n && row_number(order, lines, l) == row && 0 <= j
                                < lines[order[l] as int].line.stops@.len() ==> at_least_as_near(
                                stop_of(order, lines, k, i),
                                #[trigger] stop_of(order, lines, l, j),
                                t.preferred_x as int,
                            )
                    },
                None => forall|l: int|
                    0 <= l < n && #[trigger] row_number(order, lines, l) == row
                        ==> lines[order[l] as int].line.stops@.len() == 0,
            }
        }),
{
    let n = lines.len() as int;
    let order = row_order(lines, n);
    order_is_complete(lines, n);
    lemma_runs_down(lines);
    lemma_current_row(lines, caret, n);
    lemma_position(order, cur, 0);
    assert(order[at] == cur);
    let p = position(order, cur, 0)->0;
    lemma_order_distinct(lines, n, p, at);
    let row = row_number(order, lines, at) + delta;
    let stops = lines[cur].line.stops@;
    let t = vertical_move(lines, caret, delta, preferred)->0;
    let x = t.preferred_x;
    let found = nearest_in_row(order, lines, row, x, n);
    lemma_nearest_in_row_is_one(order, lines, row, x, n);
    assert forall|l: int| 0 <= l < n && #[trigger] row_number(order, lines, l) == row implies 0
        <= row <= row_number(order, lines, n - 1) by {
        lemma_numbers_grow(order, lines, l, n - 1);
        lemma_row_head(order, lines, l);
    }
    assert forall|l: int, j: int|
        0 <= l < n && row_number(order, lines, l) == row && 0 <= j
            < lines[order[l] as int].line.stops@.len() implies (found matches Some(s)
        && at_least_as_near(s, #[trigger] stop_of(order, lines, l, j), x as int)) by {
        target_is_nearest(order, lines, row, x, n, l, j);
    }
    if t.source is None {
        assert forall|l: int| 0 <= l < n && #[trigger] row_number(order, lines, l) == row implies
            lines[order[l] as int].line.stops@.len() == 0 by {
            if lines[order[l] as int].line.stops@.len() > 0 {
                assert(at_least_as_near(found->0, stop_of(order, lines, l, 0), x as int));
            }
        }
    }
}

proof fn lemma_current_row(lines: Seq<ImeVisualLine>, caret: usize, n: int)
    requires
        0 <= n <= lines.len(),
    ensures
        current_row(lines, caret, n) matches Some(k) ==> 0 <= k < n && on_row(lines, caret, k),
        current_row(lines, caret, n) is None <==> forall|i: int|
            0 <= i < n ==> !(#[trigger] on_row(lines, caret, i)),
        current_row(lines, caret, n) matches Some(k) ==> forall|i: int|
            0 <= i < n && #[trigger] on_row(lines, caret, i) ==> !row_better(lines, caret, i, k),
    decreases n,
{
    if n > 0 {
        lemma_current_row(lines, caret, n - 1);
        if current_row(lines, caret, n) is None {
            assert(!on_row(lines, caret, n - 1));
        }
    }
}

proof fn lemma_order_distinct(lines: Seq<ImeVisualLine>, n: int, i: int, j: int)
    requires
        0 <= n <= lines.len(),
        lines.len() <= usize::MAX,
        0 <= i < n,
        0 <= j < n,
        row_order(lines, n)[i] == row_order(lines, n)[j],
    ensures
        i == j,
    decreases n,
{
    if n > 0 {
        order_is_complete(lines, n);
        order_is_complete(lines, n - 1);
        lemma_order_all_distinct(lines, n);
        assert(row_order(lines, n).no_duplicates());
    }
}

proof fn lemma_order_all_distinct(lines: Seq<ImeVisualLine>, n: int)
    requires
        0 <= n <= lines.len(),
        lines.len() <= usize::MAX,
    ensures
        row_order(lines, n).no_duplicates(),
    decreases n,
{
    if n > 0 {
        lemma_order_all_distinct(lines, n - 1);
        order_is_complete(lines, n - 1);
        let before = row_order(lines, n - 1);
        assert(!before.contains((n - 1) as usize)) by {
            if before.contains((n - 1) as usize) {
                let q = choose|q: int| 0 <= q < before.len() && before[q] == (n - 1) as usize;
                assert(0 <= before[q] < n - 1);
            }
        }
        lemma_with_row_distinct(before, lines, (n - 1) as usize);
    }
}

proof fn lemma_with_row_distinct(order: Seq<usize>, lines: Seq<ImeVisualLine>, k: usize)
    requires
        order.no_duplicates(),
        !order.contains(k),
    ensures
        with_row(order, lines, k).no_duplicates(),
    decreases order.len(),
{
    let out = with_row(order, lines, k);
    if order.len() == 0 {
    } else if not_below(lines, order.last() as int, k as int) {
        assert forall|i: int, j: int| 0 <= i < j < out.len() implies out[i] != out[j] by {
            if j == order.len() {
                assert(order.contains(order[i]));
            }
        }
    } else {
        let front = order.drop_last();
        assert(!front.contains(k)) by {
            if front.contains(k) {
                let q = choose|q: int| 0 <= q < front.len() && front[q] == k;
                assert(order[q] == k);
            }
        }
        lemma_with_row_distinct(front, lines, k);
        lemma_with_row(front, lines, k);
        let u = with_row(front, lines, k);
        assert forall|i: int, j: int| 0 <= i < j < out.len() implies out[i] != out[j] by {
            if j == u.len() {
                if u[i] == k {
                    assert(order[order.len() - 1] == order.last());
                    assert(order.contains(order.last()));
                } else {
                    assert(front.contains(u[i]));
                    let q = choose|q: int| 0 <= q < front.len() && front[q] == u[i];
                    assert(order[q] != order[order.len() - 1]);
                }
            }
        }
    }
}

/// The row of the caret: it is found exactly where a painted row holds the
/// caret's visible offset, its ends included; of several, none has a layout of
/// less source, and at a soft wrap the row that the caret ends is taken.
pub proof fn caret_row_holds_the_caret(lines: Seq<ImeVisualLine>, caret: usize)
    ensures
        ({
            let row = current_row(lines, caret, lines.len() as int);
            let held = |i: int|
                lines[i].line.visible_start <= lines[i].layout@.visible_of(caret)
                    <= lines[i].line.visible_end;
            &&& row is Some <==> exists|i: int| 0 <= i < lines.len() && #[trigger] held(i)
            &&& row matches Some(k) ==> 0 <= k < lines.len() && held(k) && forall|i: int|
                0 <= i < lines.len() && #[trigger] held(i) ==> {
                    &&& lines[k].layout@.source_span() <= lines[i].layout@.source_span()
                    &&& lines[k].layout@.source_span() == lines[i].layout@.source_span()
                        && lines[i].line.visible_end == lines[i].layout@.visible_of(caret)
                        ==> lines[k].line.visible_end == lines[k].layout@.visible_of(caret)
                }
        }),
{
    let n = lines.len() as int;
    let held = |i: int|
        lines[i].line.visible_start <= lines[i].layout@.visible_of(caret)
            <= lines[i].line.visible_end;
    lemma_current_row(lines, caret, n);
    assert forall|i: int| #[trigger] held(i) == on_row(lines, caret, i) by {}
    match current_row(lines, caret, n) {
        Some(k) => {
            assert(held(k));
            assert forall|i: int| 0 <= i < lines.len() && #[trigger] held(i) implies ({
                &&& lines[k].layout@.source_span() <= lines[i].layout@.source_span()
                &&& lines[k].layout@.source_span() == lines[i].layout@.source_span()
                    && lines[i].line.visible_end == lines[i].layout@.visible_of(caret)
                    ==> lines[k].line.visible_end == lines[k].layout@.visible_of(caret)
            }) by {
                assert(on_row(lines, caret, i));
                assert(!row_better(lines, caret, i, k));
            }
        },
        None => {
            assert forall|i: int| 0 <= i < lines.len() implies !(#[trigger] held(i)) by {
                assert(!on_row(lines, caret, i));
            }
        },
    }
}

/// `source` is that of a stop of line `m`.
pub open spec fn has_stop(line: ImeVisualLine, source: usize) -> bool {
    exists|i: int| 0 <= i < line.line.stops@.len() && (#[trigger] line.line.stops@[i]).source
        == source
}

/// Up goes up and down goes down: a move leads to a stop of a line that starts
/// above, or below, the line of the caret. A single step skips no row: no line
/// lies more than half a pixel below the one and above the other.
pub proof fn moves_go_their_way(
    lines: Seq<ImeVisualLine>,
    caret: usize,
    delta: i32,
    preferred: Option<i64>,
    cur: int,
)
    requires
        lines.len() <= usize::MAX,
        delta != 0,
        current_row(lines, caret, lines.len() as int) == Some(cur),
        lines[cur].line.stops@.len() > 0,
    ensures
        vertical_move(lines, caret, delta, preferred) matches Some(t),
        vertical_move(lines, caret, delta, preferred)->0.source matches Some(source) ==> exists|
            m: int,
        |
            {
                &&& 0 <= m < lines.len() && #[trigger] has_stop(lines[m], source)
                &&& delta < 0 ==> lines[m].line.top < lines[cur].line.top
                &&& delta > 0 ==> lines[m].line.top > lines[cur].line.top
                &&& delta == -1 ==> forall|w: int|
                    0 <= w < lines.len() ==> !(lines[m].line.top + 32768 < (
                    #[trigger] lines[w]).line.top && lines[w].line.top + 32768
                        < lines[cur].line.top)
                &&& delta == 1 ==> forall|w: int|
                    0 <= w < lines.len() ==> !(lines[cur].line.top + 32768 < (
                    #[trigger] lines[w]).line.top && lines[w].line.top + 32768
                        < lines[m].line.top)
            },
{
    let n = lines.len() as int;
    let order = row_order(lines, n);
    order_is_complete(lines, n);
    lemma_runs_down(lines);
    lemma_current_row(lines, caret, n);
    assert(order.contains(as_index(cur)));
    let at = choose|i: int| 0 <= i < order.len() && order[i] == as_index(cur);
    moves_land_on_their_row(lines, caret, delta, preferred, cur, at);
    let t = vertical_move(lines, caret, delta, preferred)->0;
    let row = row_number(order, lines, at) + delta;
    if let Some(source) = t.source {
        let (k, i) = choose|k: int, i: int|
            0 <= k < n && row_number(order, lines, k) == row && 0 <= i
                < lines[order[k] as int].line.stops@.len() && (#[trigger] stop_of(
                order,
                lines,
                k,
                i,
            )).source == source;
        let m = order[k] as int;
        assert(lines[m].line.stops@[i].source == source);
        assert(has_stop(lines[m], source));
        if k <= at {
            rows_are_numbered_by_height(lines, k, at);
        } else {
            rows_are_numbered_by_height(lines, at, k);
        }
        assert forall|w: int| 0 <= w < lines.len() && delta == -1 implies !(lines[m].line.top
            + 32768 < (#[trigger] lines[w]).line.top && lines[w].line.top + 32768
            < lines[cur].line.top) by {
            lemma_between(lines, k, at, w);
        }
        assert forall|w: int| 0 <= w < lines.len() && delta == 1 implies !(lines[cur].line.top
            + 32768 < (#[trigger] lines[w]).line.top && lines[w].line.top + 32768
            < lines[m].line.top) by {
            lemma_between(lines, at, k, w);
        }
    }
}

proof fn lemma_between(lines: Seq<ImeVisualLine>, a: int, b: int, w: int)
    requires
        lines.len() <= usize::MAX,
        0 <= a < lines.len(),
        0 <= b < lines.len(),
        0 <= w < lines.len(),
        row_number(row_order(lines, lines.len() as int), lines, b) == row_number(
            row_order(lines, lines.len() as int),
            lines,
            a,
        ) + 1,
    ensures
        !(lines[row_order(lines, lines.len() as int)[a] as int].line.top + 32768
            < lines[w].line.top && lines[w].line.top + 32768 < lines[row_order(
            lines,
            lines.len() as int,
        )[b] as int].line.top),
{
    let n = lines.len() as int;
    let order = row_order(lines, n);
    order_is_complete(lines, n);
    assert(order.contains(as_index(w)));
    let p = choose|i: int| 0 <= i < order.len() && order[i] == as_index(w);
    assert(order[p] as int == w);
    if p <= a {
        rows_are_numbered_by_height(lines, p, a);
    } else {
        rows_are_numbered_by_height(lines, a, p);
    }
    if p <= b {
        rows_are_numbered_by_height(lines, p, b);
    } else {
        rows_are_numbered_by_height(lines, b, p);
    }
}

proof fn lemma_row_exists(order: Seq<usize>, lines: Seq<ImeVisualLine>, k: int, row: int)
    requires
        0 <= k < order.len(),
        runs_down(order, lines),
        0 <= row <= row_number(order, lines, k),
    ensures
        exists|l: int| 0 <= l <= k && #[trigger] row_number(order, lines, l) == row,
    decreases k,
{
    if row_number(order, lines, k) == row {
    } else {
        assert(k > 0);
        lemma_row_exists(order, lines, k - 1, row);
        let l = choose|l: int| 0 <= l <= k - 1 && #[trigger] row_number(order, lines, l) == row;
        assert(row_number(order, lines, l) == row);
    }
}

/// Where every painted line has a stop, a step leads somewhere exactly where
/// there is somewhere to go: up where a line lies more than half a pixel above
/// the caret's, and nowhere where none starts above it; so too down.
pub proof fn steps_reach_what_is_there(
    lines: Seq<ImeVisualLine>,
    caret: usize,
    preferred: Option<i64>,
    cur: int,
)
    requires
        lines.len() <= usize::MAX,
        current_row(lines, caret, lines.len() as int) == Some(cur),
        forall|i: int| 0 <= i < lines.len() ==> (#[trigger] lines[i]).line.stops@.len() > 0,
    ensures
        ({
            let up = vertical_move(lines, caret, (-1) as i32, preferred);
            let down = vertical_move(lines, caret, 1, preferred);
            &&& up is Some && down is Some
            &&& (exists|w: int|
                0 <= w < lines.len() && (#[trigger] lines[w]).line.top + 32768
                    < lines[cur].line.top) ==> up->0.source is Some
            &&& (forall|w: int|
                0 <= w < lines.len() ==> (#[trigger] lines[w]).line.top >= lines[cur].line.top)
                ==> up->0.source is None
            &&& (exists|w: int|
                0 <= w < lines.len() && (#[trigger] lines[w]).line.top > lines[cur].line.top
                    + 32768) ==> down->0.source is Some
            &&& (forall|w: int|
                0 <= w < lines.len() ==> (#[trigger] lines[w]).line.top <= lines[cur].line.top)
                ==> down->0.source is None
        }),
{
    let n = lines.len() as int;
    let order = row_order(lines, n);
    order_is_complete(lines, n);
    lemma_runs_down(lines);
    lemma_current_row(lines, caret, n);
    assert(order.contains(as_index(cur)));
    let at = choose|i: int| 0 <= i < order.len() && order[i] == as_index(cur);
    assert(lines[cur].line.stops@.len() > 0);
    moves_land_on_their_row(lines, caret, (-1) as i32, preferred, cur, at);
    moves_land_on_their_row(lines, caret, 1, preferred, cur, at);
    moves_go_their_way(lines, caret, (-1) as i32, preferred, cur);
    moves_go_their_way(lines, caret, 1, preferred, cur);
    let r = row_number(order, lines, at);
    if exists|w: int|
        0 <= w < lines.len() && (#[trigger] lines[w]).line.top + 32768 < lines[cur].line.top {
        let w = choose|w: int|
            0 <= w < lines.len() && (#[trigger] lines[w]).line.top + 32768 < lines[cur].line.top;
        assert(order.contains(as_index(w)));
        let p = choose|i: int| 0 <= i < order.len() && order[i] == as_index(w);
        assert(order[p] as int == w && order[at] as int == cur);
        if p <= at {
            rows_are_numbered_by_height(lines, p, at);
        } else {
            rows_are_numbered_by_height(lines, at, p);
        }
        lemma_row_head(order, lines, p);
        lemma_row_exists(order, lines, at, r - 1);
        let l = choose|l: int| 0 <= l <= at && #[trigger] row_number(order, lines, l) == r - 1;
        assert(lines[order[l] as int].line.stops@.len() > 0);
    }
    if exists|w: int|
        0 <= w < lines.len() && (#[trigger] lines[w]).line.top > lines[cur].line.top + 32768 {
        let w = choose|w: int|
            0 <= w < lines.len() && (#[trigger] lines[w]).line.top > lines[cur].line.top + 32768;
        assert(order.contains(as_index(w)));
        let p = choose|i: int| 0 <= i < order.len() && order[i] == as_index(w);
        assert(order[p] as int == w && order[at] as int == cur);
        if p <= at {
            rows_are_numbered_by_height(lines, p, at);
        } else {
            rows_are_numbered_by_height(lines, at, p);
        }
        lemma_row_head(order, lines, at);
        lemma_row_exists(order, lines, p, r + 1);
        let l = choose|l: int| 0 <= l <= p && #[trigger] row_number(order, lines, l) == r + 1;
        assert(lines[order[l] as int].line.stops@.len() > 0);
    }
}

proof fn lemma_stop_at(stops: Seq<VisualCaretStop>, visible: int, source: Option<usize>, k: int)
    requires
        0 <= k <= stops.len(),
    ensures
        stop_at(stops, visible, source, k) matches Some(x) ==> exists|i: int|
            k <= i < stops.len() && (#[trigger] stops[i]).x == x && stops[i].visible == visible
                && (source matches Some(s) ==> stops[i].source == s),
        stop_at(stops, visible, source, k) is None ==> forall|i: int|
            k <= i < stops.len() ==> !((#[trigger] stops[i]).visible == visible && (source matches
            Some(s) ==> stops[i].source == s)),
    decreases stops.len() - k,
{
    if k < stops.len() {
        if !(stops[k].visible == visible && (source is None || stops[k].source == source->0)) {
            lemma_stop_at(stops, visible, source, k + 1);
        } else {
            assert(stops[k].x == stops[k].x);
        }
    }
}

/// The horizontal intent of a first move is where the caret stands: at its own
/// stop where its row has one, else at a stop of its visible offset, else at
/// the first stop of the row.
pub proof fn first_move_starts_at_the_caret(
    lines: Seq<ImeVisualLine>,
    caret: usize,
    delta: i32,
    cur: int,
)
    requires
        lines.len() <= usize::MAX,
        delta != 0,
        current_row(lines, caret, lines.len() as int) == Some(cur),
        lines[cur].line.stops@.len() > 0,
    ensures
        ({
            let stops = lines[cur].line.stops@;
            let v = lines[cur].layout@.visible_of(caret);
            &&& vertical_move(lines, caret, delta, None) matches Some(t)
            &&& exists|i: int|
                {
                    &&& 0 <= i < stops.len() && (#[trigger] stops[i]).x == t.preferred_x
                    &&& (exists|j: int|
                        0 <= j < stops.len() && (#[trigger] stops[j]).visible == v
                            && stops[j].source == caret) ==> stops[i].visible == v
                        && stops[i].source == caret
                    &&& (exists|j: int| 0 <= j < stops.len() && (#[trigger] stops[j]).visible == v)
                        ==> stops[i].visible == v
                    &&& (forall|j: int|
                        0 <= j < stops.len() ==> (#[trigger] stops[j]).visible != v) ==> i == 0
                }
        }),
{
    let n = lines.len() as int;
    let order = row_order(lines, n);
    order_is_complete(lines, n);
    lemma_current_row(lines, caret, n);
    assert(order.contains(as_index(cur)));
    let at = choose|i: int| 0 <= i < order.len() && order[i] == as_index(cur);
    moves_land_on_their_row(lines, caret, delta, None, cur, at);
    let stops = lines[cur].line.stops@;
    let v = visible_in(lines, caret, cur);
    lemma_stop_at(stops, v, Some(caret), 0);
    lemma_stop_at(stops, v, None, 0);
    let t = vertical_move(lines, caret, delta, None)->0;
    match stop_at(stops, v, Some(caret), 0) {
        Some(x) => {
            let i = choose|i: int|
                0 <= i < stops.len() && (#[trigger] stops[i]).x == x && stops[i].visible == v
                    && stops[i].source == caret;
            assert(stops[i].x == t.preferred_x);
        },
        None => match stop_at(stops, v, None, 0) {
            Some(x) => {
                let i = choose|i: int|
                    0 <= i < stops.len() && (#[trigger] stops[i]).x == x && stops[i].visible == v;
                assert(stops[i].x == t.preferred_x);
            },
            None => {
                assert(stops[0].x == t.preferred_x);
            },
        },
    }
}

/// No row, no move: without a painted row that holds the caret, and for a move
/// by no row, there is no target.
pub proof fn no_row_no_move(
    lines: Seq<ImeVisualLine>,
    caret: usize,
    delta: i32,
    preferred: Option<i64>,
)
    requires
        delta == 0 || forall|i: int|
            0 <= i < lines.len() ==> !((#[trigger] lines[i]).line.visible_start
                <= lines[i].layout@.visible_of(caret) <= lines[i].line.visible_end),
    ensures
        vertical_move(lines, caret, delta, preferred) is None,
{
    lemma_current_row(lines, caret, lines.len() as int);
    if let Some(k) = current_row(lines, caret, lines.len() as int) {
        assert(on_row(lines, caret, k));
        assert(delta == 0 || !(lines[k].line.visible_start <= lines[k].layout@.visible_of(caret)
            <= lines[k].line.visible_end));
    }
}

} // verus!
