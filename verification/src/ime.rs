//! IME candidate origin and vertical caret movement.
//!
//! Text leaves and chip, caption and frontmatter widgets report geometry as
//! they paint. This module resolves it into one caret rectangle: that of the
//! focused widget, or of the leaf that owns the document caret, whichever leaf
//! painted last. The last painted caret stays valid over blink-off frames and
//! between the start of a frame and its paint; it is dropped when the owner
//! changes.

use std::sync::Arc;

use vstd::prelude::*;
use vstd::string::*;

use crate::geometry;
use crate::geometry::{max_px, min_px, minus, plus, Bounds, Point, PX};
use crate::layout::LeafLayout;
use crate::text::own;
use crate::vertical;
use crate::vertical::vertical_target;

verus! {

/// One source-backed caret stop on a painted visual line.
#[derive(Debug, Clone, Copy, PartialEq, Eq, Structural)]
pub struct VisualCaretStop {
    /// Byte offset in the visible text.
    pub visible: usize,
    /// The Markdown byte offset behind it.
    pub source: usize,
    /// Window-relative horizontal glyph position.
    pub x: i64,
}

/// Geometry of one rendered, soft-wrapped text row.
#[derive(Debug, PartialEq, Eq)]
pub struct VisualLine {
    /// First visible caret offset of the row. A soft-wrap boundary belongs to
    /// both adjacent rows.
    pub visible_start: usize,
    /// Last visible caret offset of the row.
    pub visible_end: usize,
    /// Window-relative top edge.
    pub top: i64,
    pub height: i64,
    pub stops: Vec<VisualCaretStop>,
}

/// Result of moving by rendered rows. `source` is absent at the viewport edge,
/// where the caller falls back to source lines.
#[derive(Debug, Clone, Copy, PartialEq, Eq, Structural)]
pub struct VisualVerticalTarget {
    pub source: Option<usize>,
    /// The original horizontal intent, kept even after landing on a short row.
    pub preferred_x: i64,
}

/// A painted row with the layout it belongs to.
pub struct ImeVisualLine {
    pub layout: Arc<LeafLayout>,
    pub line: VisualLine,
}

/// Who owns the IME origin this frame.
#[derive(Debug, Clone, Copy, PartialEq, Eq, Structural)]
pub enum ImeOwner {
    Widget,
    Leaf,
}

/// One painted text leaf with the caret rectangle it computed, if any.
pub struct ImeLeafHit {
    pub layout: Arc<LeafLayout>,
    pub bounds: Bounds,
    pub font_size: i64,
    pub line_height: i64,
    pub caret_bounds: Option<Bounds>,
}

/// Per-frame IME geometry. Hits are cleared at the start of each frame; the
/// sticky caret and the generation persist.
pub struct ImeOriginState {
    widget_focused: bool,
    widget_bounds: Option<Bounds>,
    widget_caret: Option<Bounds>,
    caret_source: usize,
    leaves: Vec<ImeLeafHit>,
    visual_lines: Vec<ImeVisualLine>,
    painted_bounds: Vec<Bounds>,
    composition: Option<String>,
    sticky_caret: Option<Bounds>,
    caret_generation: u64,
    last_pushed_generation: Option<u64>,
    last_platform_origin: Option<Bounds>,
}

/// What an [`ImeOriginState`] holds.
#[verifier::ext_equal]
pub struct ImeView {
    /// A chip, caption or frontmatter widget has the focus.
    pub widget_focused: bool,
    pub widget_bounds: Option<Bounds>,
    /// Caret inside the widget.
    pub widget_caret: Option<Bounds>,
    pub caret_source: usize,
    pub leaves: Seq<ImeLeafHit>,
    pub visual_lines: Seq<ImeVisualLine>,
    /// Painted surfaces without text.
    pub painted_bounds: Seq<Bounds>,
    /// Marked text of this frame.
    pub composition: Option<Seq<char>>,
    /// Last painted caret of the owner.
    pub sticky_caret: Option<Bounds>,
    /// Counts changes of caret, owner and composition.
    pub caret_generation: u64,
    pub last_pushed_generation: Option<u64>,
    pub last_platform_origin: Option<Bounds>,
}

/// Leaf `k` hosts the caret better than leaf `j`: it painted a caret and the
/// other did not, or else its source span is tighter.
pub open spec fn hosts_better(leaves: Seq<ImeLeafHit>, k: int, j: int) -> bool {
    let a = leaves[k].caret_bounds is Some;
    let b = leaves[j].caret_bounds is Some;
    (a && !b) || (a == b && leaves[k].layout@.source_span() < leaves[j].layout@.source_span())
}

/// The leaf that owns `caret` among the first `n`: of those that host it the
/// best, and of equals the first.
pub open spec fn owner_leaf(leaves: Seq<ImeLeafHit>, caret: usize, n: int) -> Option<int>
    decreases n,
{
    if n <= 0 {
        None
    } else {
        let best = owner_leaf(leaves, caret, n - 1);
        if !leaves[n - 1].layout@.contains(caret) {
            best
        } else {
            match best {
                None => Some(n - 1),
                Some(j) => if hosts_better(leaves, n - 1, j) {
                    Some(n - 1)
                } else {
                    best
                },
            }
        }
    }
}

/// `r`, unless it cannot anchor a candidate window.
pub open spec fn solid(r: Option<Bounds>) -> Option<Bounds> {
    match r {
        Some(b) => if b.is_flat() {
            None
        } else {
            Some(b)
        },
        None => None,
    }
}

/// Trailing edge of a widget: at most 22 pixels high, at its lower right.
pub open spec fn trailing_edge(widget: Bounds) -> Bounds {
    let h = geometry::longer(geometry::shorter(widget.height, (22 * PX) as i64), (2 * PX) as i64);
    Bounds {
        x: geometry::coord(widget.x + widget.width),
        y: geometry::coord(geometry::coord(widget.y + widget.height) - h),
        width: (2 * PX) as i64,
        height: h,
    }
}

/// Top left of an element, at most 24 pixels high.
pub open spec fn element_edge(bounds: Bounds) -> Bounds {
    Bounds {
        x: bounds.x,
        y: bounds.y,
        width: (2 * PX) as i64,
        height: geometry::shorter(bounds.height, (24 * PX) as i64),
    }
}

/// Top left of a leaf, one line high.
pub open spec fn leaf_edge(leaf: ImeLeafHit) -> Bounds {
    Bounds {
        x: leaf.bounds.x,
        y: leaf.bounds.y,
        width: (2 * PX) as i64,
        height: geometry::longer(
            geometry::shorter(leaf.line_height, leaf.bounds.height),
            (2 * PX) as i64,
        ),
    }
}

impl ImeView {
    /// Before the first frame.
    pub open spec fn start() -> ImeView {
        ImeView {
            widget_focused: false,
            widget_bounds: None,
            widget_caret: None,
            caret_source: 0,
            leaves: Seq::empty(),
            visual_lines: Seq::empty(),
            painted_bounds: Seq::empty(),
            composition: None,
            sticky_caret: None,
            caret_generation: 0,
            last_pushed_generation: None,
            last_platform_origin: None,
        }
    }

    /// The leaf that owns the caret.
    pub open spec fn focused(self) -> Option<int> {
        owner_leaf(self.leaves, self.caret_source, self.leaves.len() as int)
    }

    /// The caret that the owner painted this frame.
    pub open spec fn painted_caret(self) -> Option<Bounds> {
        if self.widget_focused {
            solid(self.widget_caret)
        } else {
            match self.focused() {
                Some(k) => solid(self.leaves[k].caret_bounds),
                None => None,
            }
        }
    }

    /// The caret rectangle that the IME follows: painted this frame, else the
    /// last painted, else the trailing edge of the widget or the top left of
    /// the leaf.
    pub open spec fn caret(self) -> Option<Bounds> {
        if self.painted_caret() is Some {
            self.painted_caret()
        } else if self.sticky_caret is Some {
            self.sticky_caret
        } else if self.widget_focused {
            match self.widget_bounds {
                Some(w) => Some(trailing_edge(w)),
                None => None,
            }
        } else {
            match self.focused() {
                Some(k) => Some(leaf_edge(self.leaves[k])),
                None => None,
            }
        }
    }

    /// Who owns the origin.
    pub open spec fn owner(self) -> Option<ImeOwner> {
        if self.widget_focused {
            if self.widget_bounds is Some {
                Some(ImeOwner::Widget)
            } else {
                None
            }
        } else if self.focused() is Some {
            Some(ImeOwner::Leaf)
        } else {
            None
        }
    }

    /// The owner has reported itself this frame.
    pub open spec fn reported(self) -> bool {
        if self.widget_focused {
            self.widget_caret is Some
        } else {
            self.focused() is Some
        }
    }

    /// With the painted caret remembered.
    pub open spec fn remembered(self) -> ImeView {
        match self.painted_caret() {
            Some(r) => ImeView { sticky_caret: Some(r), ..self },
            None => self,
        }
    }

    /// At the start of a frame.
    pub open spec fn begun(
        self,
        widget_focused: bool,
        caret_source: usize,
        composition: Option<Seq<char>>,
    ) -> ImeView {
        let owner_changed = self.widget_focused != widget_focused;
        let changed = owner_changed || self.caret_source != caret_source || self.composition
            != composition;
        ImeView {
            widget_focused,
            caret_source,
            composition,
            widget_bounds: None,
            widget_caret: None,
            leaves: Seq::empty(),
            visual_lines: Seq::empty(),
            painted_bounds: Seq::empty(),
            caret_generation: if changed {
                self.caret_generation.wrapping_add(1)
            } else {
                self.caret_generation
            },
            sticky_caret: if owner_changed {
                None
            } else {
                self.remembered().sticky_caret
            },
            last_pushed_generation: self.last_pushed_generation,
            last_platform_origin: self.last_platform_origin,
        }
    }

    /// The origin to push now: that of an owner that has reported itself, when
    /// it or the generation changed since the last push.
    pub open spec fn push(self) -> Option<Bounds> {
        let now = self.remembered();
        match solid(now.caret()) {
            Some(r) => if now.reported() && (now.last_pushed_generation != Some(
                now.caret_generation,
            ) || now.last_platform_origin != Some(r)) {
                Some(r)
            } else {
                None
            },
            None => None,
        }
    }

    /// After a push was taken.
    pub open spec fn pushed(self) -> ImeView {
        match self.push() {
            Some(r) => ImeView {
                last_pushed_generation: Some(self.caret_generation),
                last_platform_origin: Some(r),
                ..self.remembered()
            },
            None => self.remembered(),
        }
    }

    /// `p` is below everything painted, and on none of it.
    pub open spec fn below(self, p: Point) -> bool {
        &&& !(self.widget_bounds is Some && (self.widget_bounds->0).covers(p))
        &&& forall|k: int|
            0 <= k < self.leaves.len() ==> !(#[trigger] self.leaves[k]).bounds.covers(p) && p.y
                >= self.leaves[k].bounds.lower()
        &&& forall|k: int|
            0 <= k < self.painted_bounds.len() ==> !(#[trigger] self.painted_bounds[k]).covers(p)
                && p.y >= self.painted_bounds[k].lower()
    }
}

fn option_solid(r: Option<Bounds>) -> (s: Option<Bounds>)
    ensures
        s == solid(r),
{
    match r {
        Some(b) => if is_empty_ime_rect(&b) {
            None
        } else {
            Some(b)
        },
        None => None,
    }
}

/// Whether a rectangle cannot anchor a candidate window.
pub fn is_empty_ime_rect(bounds: &Bounds) -> (flat: bool)
    ensures
        flat == bounds.is_flat(),
{
    bounds.width <= 0 || bounds.height <= 0
}

/// Trailing edge of a chip, caption or frontmatter widget: the origin only
/// while the widget has not reported its inner caret.
pub fn widget_caret_rect(widget: Bounds) -> (rect: Bounds)
    ensures
        rect == trailing_edge(widget),
{
    let h: i64 = max_px(min_px(widget.height, 22 * PX), 2 * PX);
    Bounds {
        x: plus(widget.x, widget.width),
        y: minus(plus(widget.y, widget.height), h),
        width: 2 * PX,
        height: h,
    }
}

/// Last-resort origin when neither leaf nor widget reported a caret.
pub fn caret_from_element_bounds(bounds: Bounds) -> (rect: Bounds)
    ensures
        rect == element_edge(bounds),
{
    Bounds {
        x: bounds.x,
        y: bounds.y,
        width: 2 * PX,
        height: min_px(bounds.height, 24 * PX),
    }
}

fn leaf_origin_fallback(leaf: &ImeLeafHit) -> (rect: Bounds)
    ensures
        rect == leaf_edge(*leaf),
{
    Bounds {
        x: leaf.bounds.x,
        y: leaf.bounds.y,
        width: 2 * PX,
        height: max_px(min_px(leaf.line_height, leaf.bounds.height), 2 * PX),
    }
}

fn same_rect(a: &Option<Bounds>, b: &Bounds) -> (eq: bool)
    ensures
        eq == (*a == Some(*b)),
{
    match a {
        Some(r) => *r == *b,
        None => false,
    }
}

/// The leaf that owns `caret`, whatever the paint order.
pub fn focused_leaf_index(leaves: &Vec<ImeLeafHit>, caret: usize) -> (found: Option<usize>)
    ensures
        found matches Some(k) ==> k < leaves@.len() && owner_leaf(
            leaves@,
            caret,
            leaves@.len() as int,
        ) == Some(k as int),
        found is None ==> owner_leaf(leaves@, caret, leaves@.len() as int) is None,
{
    let mut best: Option<(usize, usize, bool)> = None;
    let mut i: usize = 0;
    while i < leaves.len()
        invariant
            i <= leaves@.len(),
            best is None ==> owner_leaf(leaves@, caret, i as int) is None,
            best matches Some((k, span, has)) ==> {
                &&& k < i
                &&& owner_leaf(leaves@, caret, i as int) == Some(k as int)
                &&& span == leaves@[k as int].layout@.source_span()
                &&& has == (leaves@[k as int].caret_bounds is Some)
            },
        decreases leaves@.len() - i,
    {
        let leaf = &leaves[i];
        if leaf.layout.contains_source(caret) {
            let span: usize = leaf.layout.source_span_len();
            let has = leaf.caret_bounds.is_some();
            let better = match best {
                None => true,
                Some((_, best_span, best_has)) => (has && !best_has) || (has == best_has && span
                    < best_span),
            };
            if better {
                best = Some((i, span, has));
            }
        }
        i = i + 1;
    }
    match best {
        Some((k, _, _)) => Some(k),
        None => None,
    }
}

impl Default for ImeOriginState {
    fn default() -> (s: Self)
        ensures
            s@ == ImeView::start(),
    {
        let s = ImeOriginState {
            widget_focused: false,
            widget_bounds: None,
            widget_caret: None,
            caret_source: 0,
            leaves: Vec::new(),
            visual_lines: Vec::new(),
            painted_bounds: Vec::new(),
            composition: None,
            sticky_caret: None,
            caret_generation: 0,
            last_pushed_generation: None,
            last_platform_origin: None,
        };
        assert(s@ =~= ImeView::start());
        s
    }
}

impl View for ImeOriginState {
    type V = ImeView;

    closed spec fn view(&self) -> ImeView {
        ImeView {
            widget_focused: self.widget_focused,
            widget_bounds: self.widget_bounds,
            widget_caret: self.widget_caret,
            caret_source: self.caret_source,
            leaves: self.leaves@,
            visual_lines: self.visual_lines@,
            painted_bounds: self.painted_bounds@,
            composition: match self.composition {
                Some(c) => Some(c@),
                None => None,
            },
            sticky_caret: self.sticky_caret,
            caret_generation: self.caret_generation,
            last_pushed_generation: self.last_pushed_generation,
            last_platform_origin: self.last_platform_origin,
        }
    }
}

/// The characters of an optional string slice.
pub open spec fn opt_chars(s: Option<&str>) -> Option<Seq<char>> {
    match s {
        Some(t) => Some(t@),
        None => None,
    }
}

impl ImeOriginState {
    /// Starts a frame: keeps the last painted caret, unless the owner
    /// changes, and clears what the last frame reported.
    pub fn begin_frame(
        &mut self,
        widget_focused: bool,
        caret_source: usize,
        composition: Option<&str>,
    )
        ensures
            final(self)@ == old(self)@.begun(widget_focused, caret_source, opt_chars(composition)),
    {
        let owner_changed = self.widget_focused != widget_focused;
        let caret_moved = owner_changed || self.caret_source != caret_source;
        let composition_changed = match (&self.composition, composition) {
            (Some(a), Some(b)) => *a != own(b),
            (None, None) => false,
            _ => true,
        };
        if caret_moved || composition_changed {
            self.caret_generation = self.caret_generation.wrapping_add(1);
        }
        if owner_changed {
            self.sticky_caret = None;
        } else if let Some(rect) = self.painted_caret_rect() {
            self.sticky_caret = Some(rect);
        }
        self.widget_focused = widget_focused;
        self.caret_source = caret_source;
        self.composition = match composition {
            Some(c) => Some(own(c)),
            None => None,
        };
        self.widget_bounds = None;
        self.widget_caret = None;
        self.leaves.clear();
        self.visual_lines.clear();
        self.painted_bounds.clear();
        assert(self@ =~= old(self)@.begun(widget_focused, caret_source, opt_chars(composition)));
    }

    /// Whether a widget has the focus.
    pub fn widget_focused(&self) -> (yes: bool)
        ensures
            yes == self@.widget_focused,
    {
        self.widget_focused
    }

    /// Records the bounds of the focused widget.
    pub fn report_widget(&mut self, bounds: Bounds)
        ensures
            final(self)@ == (ImeView { widget_bounds: Some(bounds), ..old(self)@ }),
    {
        self.widget_bounds = Some(bounds);
    }

    /// Records the caret inside the focused widget.
    pub fn report_widget_caret(&mut self, caret: Bounds)
        ensures
            final(self)@ == old(self)@.with_widget_caret(caret),
    {
        self.widget_caret = Some(caret);
        if self.widget_focused {
            if let Some(rect) = self.painted_caret_rect() {
                self.sticky_caret = Some(rect);
            }
        }
    }

    /// Records a painted leaf.
    pub fn report_leaf(&mut self, leaf: ImeLeafHit)
        ensures
            final(self)@ == (ImeView { leaves: old(self)@.leaves.push(leaf), ..old(self)@ }),
    {
        self.leaves.push(leaf);
    }

    /// Records the visual rows of one leaf.
    pub fn report_visual_lines(&mut self, layout: Arc<LeafLayout>, lines: Vec<VisualLine>)
        ensures
            final(self)@ == (ImeView {
                visual_lines: old(self)@.visual_lines + lines@.map_values(
                    |line: VisualLine| ImeVisualLine { layout, line },
                ),
                ..old(self)@
            }),
    {
        let ghost all = lines@;
        let ghost added = all.map_values(|line: VisualLine| ImeVisualLine { layout, line });
        let ghost start = self@;
        let mut lines = lines;
        let mut reversed: Vec<VisualLine> = Vec::new();
        while lines.len() > 0
            invariant
                lines@ =~= all.take(lines@.len() as int),
                lines@.len() + reversed@.len() == all.len(),
                forall|k: int|
                    0 <= k < reversed@.len() ==> reversed@[k] == all[all.len() - 1 - k],
            decreases lines.len(),
        {
            if let Some(line) = lines.pop() {
                reversed.push(line);
            }
        }
        let ghost mut done: int = 0;
        while reversed.len() > 0
            invariant
                0 <= done <= all.len(),
                added == all.map_values(|line: VisualLine| ImeVisualLine { layout, line }),
                reversed@.len() == all.len() - done,
                forall|k: int|
                    0 <= k < reversed@.len() ==> reversed@[k] == all[all.len() - 1 - k],
                self@ == (ImeView {
                    visual_lines: start.visual_lines + added.take(done),
                    ..start
                }),
            decreases reversed.len(),
        {
            let ghost before = self@;
            if let Some(line) = reversed.pop() {
                assert(line == all[done]);
                self.visual_lines.push(ImeVisualLine { layout: layout.clone(), line });
                proof {
                    assert(added.take(done + 1) =~= added.take(done).push(added[done]));
                    assert(self@.visual_lines =~= start.visual_lines + added.take(done + 1));
                    done = done + 1;
                }
            }
        }
        assert(added.take(done) =~= added);
    }

    /// Forgets the visual rows, after the document or the metrics changed.
    pub fn clear_visual_navigation(&mut self)
        ensures
            final(self)@ == (ImeView { visual_lines: Seq::empty(), ..old(self)@ }),
    {
        self.visual_lines.clear();
        assert(self@ =~= ImeView { visual_lines: Seq::empty(), ..old(self)@ });
    }

    /// The caret stop `delta` painted rows away that is closest to the
    /// requested position. The caller keeps `preferred_x` over repeated moves,
    /// so that a short row does not pull the caret left for good.
    pub fn visual_vertical_target(&self, caret: usize, delta: i32, preferred_x: Option<i64>) -> (
        target: Option<VisualVerticalTarget>)
        ensures
            target == vertical::vertical_move(self@.visual_lines, caret, delta, preferred_x),
    {
        vertical_target(&self.visual_lines, caret, delta, preferred_x)
    }

    /// Records a painted surface without text (an image, a rule).
    pub fn report_painted_bounds(&mut self, bounds: Bounds)
        ensures
            final(self)@ == (ImeView {
                painted_bounds: old(self)@.painted_bounds.push(bounds),
                ..old(self)@
            }),
    {
        self.painted_bounds.push(bounds);
    }

    /// Who owns the origin.
    pub fn owner(&self) -> (owner: Option<ImeOwner>)
        ensures
            owner == self@.owner(),
    {
        if self.widget_focused {
            if self.widget_bounds.is_some() {
                return Some(ImeOwner::Widget);
            }
            return None;
        }
        match focused_leaf_index(&self.leaves, self.caret_source) {
            Some(_) => Some(ImeOwner::Leaf),
            None => None,
        }
    }

    /// Caret rectangle that the IME follows.
    pub fn caret_rect(&self) -> (rect: Option<Bounds>)
        ensures
            rect == self@.caret(),
    {
        if let Some(rect) = self.painted_caret_rect() {
            return Some(rect);
        }
        if let Some(rect) = self.sticky_caret {
            return Some(rect);
        }
        if self.widget_focused {
            return match self.widget_bounds {
                Some(w) => Some(widget_caret_rect(w)),
                None => None,
            };
        }
        match focused_leaf_index(&self.leaves, self.caret_source) {
            Some(k) => Some(leaf_origin_fallback(&self.leaves[k])),
            None => None,
        }
    }

    fn painted_caret_rect(&self) -> (rect: Option<Bounds>)
        ensures
            rect == self@.painted_caret(),
    {
        if self.widget_focused {
            return option_solid(self.widget_caret);
        }
        match focused_leaf_index(&self.leaves, self.caret_source) {
            Some(k) => option_solid(self.leaves[k].caret_bounds),
            None => None,
        }
    }

    fn this_frame_reported_owner(&self) -> (yes: bool)
        ensures
            yes == self@.reported(),
    {
        if self.widget_focused {
            self.widget_caret.is_some()
        } else {
            focused_leaf_index(&self.leaves, self.caret_source).is_some()
        }
    }

    /// The origin to push to the platform, when it or the generation changed
    /// since the last push. Nothing is pushed before this frame has reported
    /// the owner.
    pub fn take_platform_push(&mut self) -> (push: Option<Bounds>)
        ensures
            push == old(self)@.push(),
            final(self)@ == old(self)@.pushed(),
    {
        if let Some(painted) = self.painted_caret_rect() {
            self.sticky_caret = Some(painted);
        }
        assert(self@ == old(self)@.remembered());
        if !self.this_frame_reported_owner() {
            return None;
        }
        let rect = match self.caret_rect() {
            Some(r) => r,
            None => {
                return None;
            },
        };
        if is_empty_ime_rect(&rect) {
            return None;
        }
        let same_generation = match self.last_pushed_generation {
            Some(g) => g == self.caret_generation,
            None => false,
        };
        if same_generation && same_rect(&self.last_platform_origin, &rect) {
            return None;
        }
        self.last_pushed_generation = Some(self.caret_generation);
        self.last_platform_origin = Some(rect);
        Some(rect)
    }

    /// The leaf that owns the caret.
    pub fn focused_leaf(&self) -> (leaf: Option<&ImeLeafHit>)
        ensures
            leaf matches Some(l) ==> self@.focused() matches Some(k) && *l == self@.leaves[k],
            leaf is None ==> self@.focused() is None,
    {
        match focused_leaf_index(&self.leaves, self.caret_source) {
            Some(k) => Some(&self.leaves[k]),
            None => None,
        }
    }

    /// The first painted leaf under `point`.
    pub fn leaf_at_point(&self, point: Point) -> (leaf: Option<&ImeLeafHit>)
        ensures
            leaf matches Some(l) ==> exists|k: int|
                #![trigger self@.leaves[k]]
                0 <= k < self@.leaves.len() && *l == self@.leaves[k] && l.bounds.covers(point)
                    && forall|j: int|
                    0 <= j < k ==> !(#[trigger] self@.leaves[j]).bounds.covers(point),
            leaf is None ==> forall|k: int|
                0 <= k < self@.leaves.len() ==> !(#[trigger] self@.leaves[k]).bounds.covers(point),
    {
        let mut k: usize = 0;
        while k < self.leaves.len()
            invariant
                k <= self.leaves@.len(),
                self@.leaves == self.leaves@,
                forall|j: int|
                    0 <= j < k ==> !(#[trigger] self@.leaves[j]).bounds.covers(point),
            decreases self.leaves@.len() - k,
        {
            if self.leaves[k].bounds.contains(point) {
                assert(self@.leaves[k as int] == self.leaves@[k as int]);
                return Some(&self.leaves[k]);
            }
            k = k + 1;
        }
        None
    }

    /// Whether `point` is in the leftover viewport below everything painted.
    pub fn point_is_below_painted_content(&self, point: Point) -> (below: bool)
        ensures
            below == self@.below(point),
    {
        if let Some(w) = &self.widget_bounds {
            if w.contains(point) {
                return false;
            }
        }
        let mut k: usize = 0;
        while k < self.leaves.len()
            invariant
                k <= self.leaves@.len(),
                self@.leaves == self.leaves@,
                forall|j: int|
                    0 <= j < k ==> !(#[trigger] self@.leaves[j]).bounds.covers(point) && point.y
                        >= self@.leaves[j].bounds.lower(),
            decreases self.leaves@.len() - k,
        {
            let bounds = &self.leaves[k].bounds;
            if bounds.contains(point) || (point.y as i128) < bounds.bottom() {
                assert(!(!self@.leaves[k as int].bounds.covers(point) && point.y
                    >= self@.leaves[k as int].bounds.lower()));
                return false;
            }
            k = k + 1;
        }
        let mut k: usize = 0;
        while k < self.painted_bounds.len()
            invariant
                k <= self.painted_bounds@.len(),
                self@.painted_bounds == self.painted_bounds@,
                forall|j: int|
                    0 <= j < k ==> !(#[trigger] self@.painted_bounds[j]).covers(point) && point.y
                        >= self@.painted_bounds[j].lower(),
            decreases self.painted_bounds@.len() - k,
        {
            let bounds = &self.painted_bounds[k];
            if bounds.contains(point) || (point.y as i128) < bounds.bottom() {
                assert(!(!self@.painted_bounds[k as int].covers(point) && point.y
                    >= self@.painted_bounds[k as int].lower()));
                return false;
            }
            k = k + 1;
        }
        true
    }
}

/// Origin for the platform's pull: the caret rectangle, or else the trailing
/// edge of the element while a widget has the focus, or else its top left.
pub fn ime_origin_bounds(ime: &ImeOriginState, element_bounds: Bounds) -> (rect: Bounds)
    ensures
        rect == ime@.origin(element_bounds),
{
    if let Some(caret) = option_solid(ime.caret_rect()) {
        return caret;
    }
    if ime.widget_focused() {
        return widget_caret_rect(element_bounds);
    }
    caret_from_element_bounds(element_bounds)
}

/// A push is not repeated: what was just taken is not pushed again.
pub proof fn push_fires_once(s: ImeView)
    ensures
        s.pushed().push() is None,
        s.pushed().pushed() == s.pushed(),
{
}

/// A change of the composition is pushed even when the caret stays where it
/// is, as soon as the owner has painted.
pub proof fn composition_change_pushes(s: ImeView, composition: Option<Seq<char>>, leaf: ImeLeafHit)
    requires
        !s.widget_focused,
        s.composition != composition,
        s.last_pushed_generation == Some(s.caret_generation),
        leaf.layout@.contains(s.caret_source),
        solid(leaf.caret_bounds) is Some,
    ensures
        ({
            let next = s.begun(false, s.caret_source, composition);
            ImeView { leaves: next.leaves.push(leaf), ..next }.push() == leaf.caret_bounds
        }),
{
    let next = s.begun(false, s.caret_source, composition);
    let painted = ImeView { leaves: next.leaves.push(leaf), ..next };
    reveal_with_fuel(owner_leaf, 2);
    assert(painted.leaves.len() == 1);
    assert(painted.focused() == Some(0int));
    assert(s.caret_generation.wrapping_add(1) != s.caret_generation);
}

/// Between the start of a frame and its paint the caret stays where it was
/// painted last, as long as the owner is the same.
pub proof fn begin_frame_keeps_painted_caret(
    s: ImeView,
    caret_source: usize,
    composition: Option<Seq<char>>,
)
    requires
        s.painted_caret() is Some,
    ensures
        s.begun(s.widget_focused, caret_source, composition).caret() == s.painted_caret(),
{
    let next = s.begun(s.widget_focused, caret_source, composition);
    assert(next.focused() is None);
}

/// Before the owner has reported itself nothing is pushed.
pub proof fn unpainted_frame_pushes_nothing(
    s: ImeView,
    widget_focused: bool,
    caret_source: usize,
    composition: Option<Seq<char>>,
)
    ensures
        s.begun(widget_focused, caret_source, composition).push() is None,
{
    let next = s.begun(widget_focused, caret_source, composition);
    assert(next.focused() is None);
}

/// A change of owner drops the last painted caret: a widget's rectangle never
/// leaks onto the body, nor the other way round.
pub proof fn owner_change_drops_caret(
    s: ImeView,
    caret_source: usize,
    composition: Option<Seq<char>>,
)
    ensures
        s.begun(!s.widget_focused, caret_source, composition).caret() is None,
{
    let next = s.begun(!s.widget_focused, caret_source, composition);
    assert(next.focused() is None);
}

/// The owner hosts the caret, and no other leaf hosts it better.
pub proof fn owner_is_best(leaves: Seq<ImeLeafHit>, caret: usize, n: int)
    requires
        0 <= n <= leaves.len(),
    ensures
        owner_leaf(leaves, caret, n) matches Some(k) ==> 0 <= k < n
            && leaves[k].layout@.contains(caret) && forall|j: int|
            0 <= j < n && (#[trigger] leaves[j]).layout@.contains(caret) ==> !hosts_better(
                leaves,
                j,
                k,
            ),
        owner_leaf(leaves, caret, n) is None ==> forall|j: int|
            0 <= j < n ==> !(#[trigger] leaves[j]).layout@.contains(caret),
    decreases n,
{
    if n > 0 {
        owner_is_best(leaves, caret, n - 1);
    }
}

/// A leaf that does not host the caret never becomes its owner, wherever in
/// the paint order it comes.
pub proof fn decoy_cannot_own(leaves: Seq<ImeLeafHit>, caret: usize, decoy: ImeLeafHit)
    requires
        !decoy.layout@.contains(caret),
    ensures
        owner_leaf(leaves.push(decoy), caret, leaves.len() as int + 1) == owner_leaf(
            leaves,
            caret,
            leaves.len() as int,
        ),
{
    lemma_owner_prefix(leaves, decoy, caret, leaves.len() as int);
}

proof fn lemma_owner_prefix(leaves: Seq<ImeLeafHit>, decoy: ImeLeafHit, caret: usize, n: int)
    requires
        0 <= n <= leaves.len(),
    ensures
        owner_leaf(leaves.push(decoy), caret, n) == owner_leaf(leaves, caret, n),
    decreases n,
{
    if n > 0 {
        lemma_owner_prefix(leaves, decoy, caret, n - 1);
        owner_is_best(leaves, caret, n - 1);
    }
}

/// `r` anchors a candidate window exactly where it has an area.
pub proof fn only_areas_anchor(r: Bounds)
    ensures
        r.width > 0 && r.height > 0 ==> solid(Some(r)) == Some(r),
        r.width <= 0 || r.height <= 0 ==> solid(Some(r)) is None,
        solid(None) is None,
{
}

/// The caret that the IME follows is the one that its owner painted: that of
/// the focused widget, and else that of the leaf that owns the caret. What was
/// painted last stands in while nothing is painted, and only without it the
/// edge of the owner.
pub proof fn ime_follows_the_painted_caret(s: ImeView, r: Bounds, k: int)
    requires
        r.width > 0,
        r.height > 0,
    ensures
        s.widget_focused && s.widget_caret == Some(r) ==> s.caret() == Some(r),
        !s.widget_focused && s.focused() == Some(k) && s.leaves[k].caret_bounds == Some(r)
            ==> s.caret() == Some(r),
        s.widget_focused && s.widget_caret is None && s.sticky_caret == Some(r) ==> s.caret()
            == Some(r),
        !s.widget_focused && s.focused() is None && s.sticky_caret == Some(r) ==> s.caret()
            == Some(r),
        !s.widget_focused && s.focused() == Some(k) && s.leaves[k].caret_bounds is None
            && s.sticky_caret == Some(r) ==> s.caret() == Some(r),
        s.widget_focused && s.widget_caret is None && s.sticky_caret is None && s.widget_bounds
            == Some(r) ==> s.caret() == Some(trailing_edge(r)),
        !s.widget_focused && s.focused() == Some(k) && s.leaves[k].caret_bounds is None
            && s.sticky_caret is None ==> s.caret() == Some(leaf_edge(s.leaves[k])),
        !s.widget_focused && s.focused() is None && s.sticky_caret is None ==> s.caret() is None,
        s.widget_focused && s.widget_caret is None && s.widget_bounds is None && s.sticky_caret
            is None ==> s.caret() is None,
{
}

/// Where the edges that stand in for a caret are: at the right end of a widget
/// and down to its lower edge, at the top left of a leaf or an element; all two
/// pixels wide and not higher than their surface unless that is less than two
/// pixels.
pub proof fn edges_stand_in_for_the_caret(b: Bounds, leaf: ImeLeafHit)
    requires
        i64::MIN <= b.x + b.width <= i64::MAX,
        131072 <= b.height,
        0 <= b.y,
        b.y + b.height <= i64::MAX,
    ensures
        ({
            let t = trailing_edge(b);
            &&& t.x == b.x + b.width
            &&& t.y + t.height == b.y + b.height
            &&& t.width == 131072
            &&& 131072 <= t.height <= b.height && t.height <= 1441792
            &&& t.height == b.height || t.height == 1441792
        }),
        ({
            let e = element_edge(b);
            &&& e.x == b.x && e.y == b.y && e.width == 131072
            &&& e.height <= b.height && e.height <= 1572864
            &&& e.height == b.height || e.height == 1572864
        }),
        ({
            let l = leaf_edge(leaf);
            &&& l.x == leaf.bounds.x && l.y == leaf.bounds.y && l.width == 131072
            &&& l.height >= 131072
            &&& 131072 <= leaf.line_height <= leaf.bounds.height ==> l.height == leaf.line_height
            &&& 131072 <= leaf.bounds.height <= leaf.line_height ==> l.height
                == leaf.bounds.height
        }),
{
}

/// A frame starts empty: no leaf, no row, no surface and no widget of the last
/// frame is left, and it is told the caret, the owner and the composition. The
/// generation moves exactly when one of these changed.
pub proof fn frames_start_empty(
    s: ImeView,
    widget_focused: bool,
    caret_source: usize,
    composition: Option<Seq<char>>,
)
    ensures
        ({
            let next = s.begun(widget_focused, caret_source, composition);
            &&& next.leaves.len() == 0 && next.visual_lines.len() == 0
            &&& next.painted_bounds.len() == 0
            &&& next.widget_bounds is None && next.widget_caret is None
            &&& next.widget_focused == widget_focused && next.caret_source == caret_source
            &&& next.composition == composition
            &&& next.last_pushed_generation == s.last_pushed_generation
            &&& next.last_platform_origin == s.last_platform_origin
            &&& next.caret_generation != s.caret_generation <==> s.widget_focused != widget_focused
                || s.caret_source != caret_source || s.composition != composition
            &&& s.caret_generation < u64::MAX ==> next.caret_generation <= s.caret_generation + 1
            &&& s.widget_focused != widget_focused ==> next.sticky_caret is None
            &&& s.widget_focused == widget_focused && s.painted_caret() is None
                ==> next.sticky_caret == s.sticky_caret
        }),
{
    assert(s.caret_generation.wrapping_add(1) != s.caret_generation);
}

/// The owner of the origin: a focused widget once it has reported where it is,
/// and without one the leaf that hosts the caret.
pub proof fn origin_has_one_owner(s: ImeView)
    ensures
        s.owner() == Some(ImeOwner::Widget) <==> s.widget_focused && s.widget_bounds is Some,
        s.owner() == Some(ImeOwner::Leaf) <==> !s.widget_focused && exists|k: int|
            0 <= k < s.leaves.len() && (#[trigger] s.leaves[k]).layout@.contains(s.caret_source),
{
    owner_is_best(s.leaves, s.caret_source, s.leaves.len() as int);
}

/// The leaf that owns the caret hosts it; a leaf that painted its caret comes
/// before one that did not, and of equals the one with less source.
pub proof fn owner_painted_the_caret(leaves: Seq<ImeLeafHit>, caret: usize, k: int, j: int)
    requires
        owner_leaf(leaves, caret, leaves.len() as int) == Some(k),
        0 <= j < leaves.len(),
        leaves[j].layout@.contains(caret),
    ensures
        0 <= k < leaves.len(),
        leaves[k].layout@.contains(caret),
        leaves[j].caret_bounds is Some ==> leaves[k].caret_bounds is Some,
        leaves[j].caret_bounds is Some == leaves[k].caret_bounds is Some
            ==> leaves[k].layout@.source_span() <= leaves[j].layout@.source_span(),
{
    owner_is_best(leaves, caret, leaves.len() as int);
}

/// What is pushed is the caret that the IME follows, once its owner has
/// reported itself; it is pushed when it moved or the generation did, and not
/// otherwise. A push is remembered.
pub proof fn pushes_follow_the_caret(s: ImeView, r: Bounds)
    requires
        s.remembered().caret() == Some(r),
        r.width > 0,
        r.height > 0,
    ensures
        s.push() is Some ==> s.push() == Some(r),
        s.push() is Some <==> (if s.widget_focused {
            s.widget_caret is Some
        } else {
            s.focused() is Some
        }) && !(s.last_pushed_generation == Some(s.caret_generation) && s.last_platform_origin
            == Some(r)),
        s.push() is Some ==> s.pushed().last_platform_origin == Some(r)
            && s.pushed().last_pushed_generation == Some(s.caret_generation),
        s.pushed().leaves == s.leaves && s.pushed().caret_generation == s.caret_generation,
{
}

/// Remembering keeps the painted caret, and changes nothing else.
pub proof fn remembering_keeps_the_rest(s: ImeView)
    ensures
        s.painted_caret() is Some ==> s.remembered().sticky_caret == s.painted_caret(),
        s.painted_caret() is None ==> s.remembered().sticky_caret == s.sticky_caret,
        s.remembered() == (ImeView { sticky_caret: s.remembered().sticky_caret, ..s }),
{
}

/// A point below the content is on nothing that was painted and above the lower
/// edge of nothing.
pub proof fn below_is_below_everything(s: ImeView, p: Point, k: int)
    requires
        s.below(p),
    ensures
        0 <= k < s.leaves.len() ==> s.leaves[k].bounds.y + s.leaves[k].bounds.height <= p.y,
        0 <= k < s.painted_bounds.len() ==> s.painted_bounds[k].y + s.painted_bounds[k].height
            <= p.y,
        s.widget_bounds matches Some(w) ==> !w.covers(p),
{
    if 0 <= k < s.leaves.len() {
        assert(p.y >= s.leaves[k].bounds.lower());
    }
    if 0 <= k < s.painted_bounds.len() {
        assert(p.y >= s.painted_bounds[k].lower());
    }
}

/// A point strictly below all that was painted, in no widget, is below the
/// content.
pub proof fn far_below_is_below(s: ImeView, p: Point)
    requires
        s.widget_bounds is None,
        forall|k: int|
            0 <= k < s.leaves.len() ==> (#[trigger] s.leaves[k]).bounds.y
                + s.leaves[k].bounds.height < p.y,
        forall|k: int|
            0 <= k < s.painted_bounds.len() ==> (#[trigger] s.painted_bounds[k]).y
                + s.painted_bounds[k].height < p.y,
    ensures
        s.below(p),
{
}

impl ImeView {
    /// Where the platform finds the caret, in an element at `bounds`.
    pub open spec fn origin(self, bounds: Bounds) -> Bounds {
        match solid(self.caret()) {
            Some(r) => r,
            None => if self.widget_focused {
                trailing_edge(bounds)
            } else {
                element_edge(bounds)
            },
        }
    }

    /// With the caret of the widget, which is remembered where it has the focus.
    pub open spec fn with_widget_caret(self, caret: Bounds) -> ImeView {
        let now = ImeView { widget_caret: Some(caret), ..self };
        if now.widget_focused {
            now.remembered()
        } else {
            now
        }
    }
}

/// The platform finds the caret where the IME follows it; without one, at the
/// end of the element while a widget has the focus, and else at its start.
pub proof fn platforms_find_the_caret(s: ImeView, bounds: Bounds, r: Bounds)
    ensures
        s.caret() == Some(r) && r.width > 0 && r.height > 0 ==> s.origin(bounds) == r,
        s.caret() is None && s.widget_focused ==> s.origin(bounds) == trailing_edge(bounds),
        s.caret() is None && !s.widget_focused ==> s.origin(bounds) == element_edge(bounds),
{
}

/// The caret of a focused widget is followed at once and remembered; that of
/// another widget is noted and no more.
pub proof fn focused_widgets_lend_their_caret(s: ImeView, r: Bounds)
    requires
        r.width > 0,
        r.height > 0,
    ensures
        s.with_widget_caret(r).widget_caret == Some(r),
        s.widget_focused ==> s.with_widget_caret(r).sticky_caret == Some(r)
            && s.with_widget_caret(r).caret() == Some(r),
        !s.widget_focused ==> s.with_widget_caret(r).sticky_caret == s.sticky_caret,
        s.with_widget_caret(r).leaves == s.leaves && s.with_widget_caret(r).visual_lines
            == s.visual_lines && s.with_widget_caret(r).caret_generation == s.caret_generation,
{
}

/// Before the first frame nothing has the focus, nothing is painted, there is no
/// caret to follow and nothing was pushed.
pub proof fn nothing_is_followed_at_first()
    ensures
        ({
            let s = ImeView::start();
            &&& !s.widget_focused && s.caret() is None && s.push() is None && s.owner() is None
            &&& s.composition is None && s.sticky_caret is None
            &&& s.last_pushed_generation is None && s.last_platform_origin is None
            &&& s.leaves.len() == 0 && s.visual_lines.len() == 0 && s.painted_bounds.len() == 0
            &&& s.caret_source == 0 && s.caret_generation == 0
        }),
{
}

} // verus!
