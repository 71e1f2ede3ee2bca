//! Leaf text and overlays on screen: where the caret and the selection are
//! painted, what is reported to the IME, and what the pointer does.

use std::ops::Range;
use std::sync::Arc;

use vstd::prelude::*;
use vstd::string::*;
use vstd::utf8::*;

use crate::bytes;
use crate::bytes::lesser;
use crate::geometry::{max_px, plus, Bounds, Point};
use crate::ime::VisualLine;
use crate::layout::LeafLayout;
use crate::text::byte_len;
use crate::tree::NodeId;
use crate::visual;
use crate::visual::{
    display_and_caret, display_sel, overlay_draft_offset, paint_carets, ranges_touch_leaf,
    source_in_leaf, visual_lines_for_paint, LineHit, ShapedLine,
};

verus! {

/// The chip, caption or metadata field that an overlay edits.
#[derive(Debug, PartialEq, Eq)]
pub enum OverlayTarget {
    CodeInfo(NodeId),
    ImageAlt { range: Range<usize>, stored: String },
    Frontmatter { key: &'static str, stored: String },
    FrontmatterYaml { stored: String },
}

/// What the pointer did.
#[derive(Debug, Clone, Copy, PartialEq, Eq, Structural)]
pub enum PointerKind {
    Down,
    Move,
    Up,
}

/// A pointer event.
#[derive(Debug, Clone, Copy, PartialEq, Eq, Structural)]
pub struct PointerEvent {
    pub kind: PointerKind,
    /// The event is in its bubble phase.
    pub bubble: bool,
    /// The left button was pressed, is held or was released.
    pub left: bool,
    pub shift: bool,
    pub position: Point,
}

/// What a pointer event asks for. Offsets are source offsets of a leaf, or
/// draft offsets of an overlay.
#[derive(Debug, Clone, Copy, PartialEq, Eq, Structural)]
pub enum PointerAction {
    Nothing,
    Click { offset: usize, extend: bool },
    Drag { offset: usize },
    EndDrag,
}

/// What a pointer event asks for when it hits `offset`. A press counts inside
/// `bounds` only; a move counts anywhere while `selecting`.
pub open spec fn pointer_action(
    event: PointerEvent,
    bounds: Bounds,
    selecting: bool,
    offset: usize,
) -> PointerAction {
    if !event.bubble || !event.left {
        PointerAction::Nothing
    } else {
        match event.kind {
            PointerKind::Down => if bounds.covers(event.position) {
                PointerAction::Click { offset, extend: event.shift }
            } else {
                PointerAction::Nothing
            },
            PointerKind::Move => if selecting {
                PointerAction::Drag { offset }
            } else {
                PointerAction::Nothing
            },
            PointerKind::Up => PointerAction::EndDrag,
        }
    }
}

fn pointed(event: &PointerEvent, bounds: &Bounds, selecting: bool, offset: usize) -> (action:
    PointerAction)
    ensures
        action == pointer_action(*event, *bounds, selecting, offset),
{
    if !event.bubble || !event.left {
        return PointerAction::Nothing;
    }
    match event.kind {
        PointerKind::Down => if bounds.contains(event.position) {
            PointerAction::Click { offset, extend: event.shift }
        } else {
            PointerAction::Nothing
        },
        PointerKind::Move => if selecting {
            PointerAction::Drag { offset }
        } else {
            PointerAction::Nothing
        },
        PointerKind::Up => PointerAction::EndDrag,
    }
}

/// The visible offset of a hit whose closest glyph on its line is `index`.
pub open spec fn leaf_offset(hit: Option<LineHit>, index: usize) -> usize {
    match hit {
        Some(h) => h.offset.saturating_add(index),
        None => 0,
    }
}

/// The visible offset of a hit whose closest glyph on its line is `index`.
pub fn hit_test_leaf(hit: Option<LineHit>, index: usize) -> (vis: usize)
    ensures
        vis == leaf_offset(hit, index),
{
    match hit {
        Some(h) => h.offset.saturating_add(index),
        None => 0,
    }
}

/// Left upper corners of the first `k` lines of a leaf at `bounds`.
pub open spec fn origins(lines: Seq<ShapedLine>, bounds: Bounds, line_height: i64, k: int) -> Seq<
    Point,
> {
    Seq::new(
        k as nat,
        |i: int| Point { x: bounds.x, y: visual::line_top(lines, bounds.y, line_height, i) },
    )
}

fn line_origins(lines: &Vec<ShapedLine>, bounds: &Bounds, line_height: i64) -> (out: Vec<Point>)
    ensures
        out@ == origins(lines@, *bounds, line_height, lines@.len() as int),
{
    let mut out: Vec<Point> = Vec::new();
    let mut y: i64 = bounds.y;
    let mut k: usize = 0;
    while k < lines.len()
        invariant
            k <= lines@.len(),
            y == visual::line_top(lines@, bounds.y, line_height, k as int),
            out@ =~= origins(lines@, *bounds, line_height, k as int),
        decreases lines@.len() - k,
    {
        out.push(Point { x: bounds.x, y });
        y = plus(y, max_px(lines[k].height, line_height));
        k = k + 1;
    }
    out
}

/// What the editor says while a leaf is painted.
#[derive(Debug, PartialEq, Eq)]
pub struct HostState {
    pub caret: usize,
    pub selected: Range<usize>,
    pub focused: bool,
    /// The blink shows the caret.
    pub caret_visible: bool,
    /// A chip or caption has the input, not the body.
    pub widget_editing: bool,
    pub selecting: bool,
    pub preedit: Option<String>,
}

/// Text of a leaf block on screen.
pub struct BlockTextElement {
    pub layout: Arc<LeafLayout>,
    pub line_height: i64,
    /// The leaf is as wide as its text, not as its container.
    pub hug_width: bool,
}

/// What is known of a leaf before it is painted.
#[derive(Debug, PartialEq, Eq)]
pub struct Prepaint {
    pub visual_lines: Vec<VisualLine>,
    pub cursor: Option<Bounds>,
    pub caret_bounds: Option<Bounds>,
    pub selection: Vec<Bounds>,
}

/// What a leaf paints and reports.
#[derive(Debug, PartialEq, Eq)]
pub struct LeafPaint {
    /// The leaf takes the text input.
    pub takes_input: bool,
    /// Where the IME is told the caret is.
    pub reported_caret: Option<Bounds>,
    /// Where each shaped line is painted.
    pub line_origins: Vec<Point>,
    /// Where the text under composition is painted.
    pub preedit_at: Option<Point>,
}

impl BlockTextElement {
    /// The visible selection.
    pub open spec fn visible_selection(&self, selected: Range<usize>) -> Range<usize> {
        (self.layout@.visible_of(selected.start) as usize..self.layout@.visible_of(
            selected.end,
        ) as usize)
    }

    /// `out` is what is known of the leaf before it is painted.
    pub open spec fn prepainted(
        &self,
        lines: Seq<ShapedLine>,
        bounds: Bounds,
        host: HostState,
        out: Prepaint,
    ) -> bool {
        &&& visual::row_views(out.visual_lines@) == visual::rows_of(
            self.layout@,
            lines,
            bounds,
            self.line_height,
            lines.len() as int,
        )
        &&& out.caret_bounds == (if self.layout@.contains(host.caret) {
            visual::caret_among(
                lines,
                bounds,
                self.line_height,
                self.layout@.visible_of(host.caret) as usize,
                lines.len() as int,
            )
        } else {
            None
        })
        &&& out.cursor == (if host.focused && host.caret_visible && self.layout@.contains(
            host.caret,
        ) {
            out.caret_bounds
        } else {
            None
        })
        &&& out.selection@ == (if host.selected.start != host.selected.end && visual::touches_leaf(
            self.layout@,
            host.selected,
        ) {
            visual::selection_rects(
                lines,
                bounds,
                self.line_height,
                self.visible_selection(host.selected),
                lines.len() as int,
            )
        } else {
            Seq::empty()
        })
    }

    /// Caret, selection and rows of the leaf. The caret is located for the IME
    /// even while the blink hides it.
    pub fn prepaint(&self, lines: &Vec<ShapedLine>, bounds: &Bounds, host: &HostState) -> (out:
        Prepaint)
        ensures
            self.prepainted(lines@, *bounds, *host, out),
    {
        let caret_in_leaf = source_in_leaf(&self.layout, host.caret);
        let vis_caret: usize = self.layout.visible_for_source(host.caret);
        let vis_sel = self.layout.visible_for_source(host.selected.start)
            ..self.layout.visible_for_source(host.selected.end);
        let paint = paint_carets(
            lines,
            bounds,
            self.line_height,
            vis_caret,
            &vis_sel,
            caret_in_leaf,
            host.focused && host.caret_visible && caret_in_leaf,
            host.selected.start != host.selected.end && ranges_touch_leaf(
                &self.layout,
                &host.selected,
            ),
        );
        Prepaint {
            visual_lines: visual_lines_for_paint(&self.layout, lines, bounds, self.line_height),
            cursor: paint.cursor,
            caret_bounds: paint.caret_bounds,
            selection: paint.selection,
        }
    }

    /// `out` is what the leaf paints and reports.
    pub open spec fn painted(
        &self,
        lines: Seq<ShapedLine>,
        bounds: Bounds,
        prepaint: Prepaint,
        host: HostState,
        out: LeafPaint,
    ) -> bool {
        &&& out.takes_input == (self.layout@.contains(host.caret) && !host.widget_editing)
        &&& out.reported_caret == (if self.layout@.contains(host.caret) {
            prepaint.caret_bounds
        } else {
            None
        })
        &&& out.line_origins@ == origins(lines, bounds, self.line_height, lines.len() as int)
        &&& out.preedit_at == (match (host.preedit, prepaint.caret_bounds) {
            (Some(preedit), Some(caret)) => if preedit@.len() > 0 && self.layout@.contains(
                host.caret,
            ) {
                Some(Point { x: caret.x, y: caret.y })
            } else {
                None
            },
            _ => None,
        })
    }

    /// What the leaf paints and reports. Text under composition is painted at
    /// the caret of the leaf that holds it.
    pub fn paint(
        &self,
        lines: &Vec<ShapedLine>,
        bounds: &Bounds,
        prepaint: &Prepaint,
        host: &HostState,
    ) -> (out: LeafPaint)
        ensures
            self.painted(lines@, *bounds, *prepaint, *host, out),
    {
        let caret_in_leaf = source_in_leaf(&self.layout, host.caret);
        let preedit_at = match (&host.preedit, &prepaint.caret_bounds) {
            (Some(preedit), Some(caret)) => if !preedit.as_str().is_empty() && caret_in_leaf {
                Some(Point { x: caret.x, y: caret.y })
            } else {
                None
            },
            _ => None,
        };
        LeafPaint {
            takes_input: caret_in_leaf && !host.widget_editing,
            reported_caret: if caret_in_leaf {
                prepaint.caret_bounds
            } else {
                None
            },
            line_origins: line_origins(lines, bounds, self.line_height),
            preedit_at,
        }
    }

    /// What a pointer event at the visible offset `vis` asks for.
    pub fn on_pointer(&self, event: &PointerEvent, bounds: &Bounds, host: &HostState, vis: usize)
        -> (action: PointerAction)
        ensures
            action == pointer_action(
                *event,
                *bounds,
                host.selecting,
                self.layout@.source_of(vis as int),
            ),
    {
        pointed(event, bounds, host.selecting, self.layout.source_for_visible(vis))
    }
}

/// What the editor says while an overlay is painted.
#[derive(Debug, PartialEq, Eq)]
pub struct OverlayHost {
    /// Caret in the draft.
    pub caret: usize,
    /// Selection in the draft.
    pub selected: Range<usize>,
    pub focused: bool,
    pub caret_visible: bool,
    pub selecting: bool,
    pub preedit: Option<String>,
}

impl OverlayHost {
    /// Bytes of the text under composition.
    pub open spec fn marked(&self) -> Seq<u8> {
        match self.preedit {
            Some(preedit) => encode_utf8(preedit@),
            None => Seq::empty(),
        }
    }

    fn marked_len(&self) -> (n: usize)
        ensures
            n == self.marked().len(),
    {
        match &self.preedit {
            Some(preedit) => byte_len(preedit.as_str()),
            None => 0,
        }
    }

    fn marked_text<'a>(&'a self) -> (t: &'a str)
        ensures
            encode_utf8(t@) == self.marked(),
    {
        match &self.preedit {
            Some(preedit) => preedit.as_str(),
            None => {
                proof {
                    reveal_strlit("");
                    assert(encode_utf8(""@) =~= Seq::<u8>::empty());
                }
                ""
            },
        }
    }
}

/// Text of a language chip, an image caption or a metadata field on screen.
/// Clicks on it do not move the caret of the body.
#[derive(Debug, PartialEq, Eq)]
pub struct WidgetOverlay {
    pub prefix: String,
    pub text: String,
    pub editing: bool,
    pub line_height: i64,
    pub italic: bool,
    pub monospace: bool,
    pub hug_width: bool,
    pub target: OverlayTarget,
}

/// What is known of an overlay before it is painted.
#[derive(Debug, PartialEq, Eq)]
pub struct OverlayPrepaint {
    pub display: String,
    pub cursor: Option<Bounds>,
    /// Where the IME is told the caret is.
    pub reported_caret: Option<Bounds>,
    pub selection: Vec<Bounds>,
}

/// What an overlay paints and reports.
#[derive(Debug, PartialEq, Eq)]
pub struct OverlayPaint {
    /// The overlay takes the text input, and the IME is told so.
    pub takes_input: bool,
    /// Where each shaped line is painted.
    pub line_origins: Vec<Point>,
}

impl WidgetOverlay {
    /// Bytes of the text that is shown.
    pub open spec fn display(&self, host: OverlayHost) -> Seq<u8> {
        visual::overlay_display(
            encode_utf8(self.prefix@),
            encode_utf8(self.text@),
            self.editing,
            host.caret,
            host.marked(),
        )
    }

    /// Visible offset of the caret.
    pub open spec fn visible_caret(&self, host: OverlayHost) -> int {
        if self.editing {
            encode_utf8(self.prefix@).len() + visual::overlay_at(
                encode_utf8(self.text@),
                host.caret,
            ) + host.marked().len()
        } else {
            encode_utf8(self.prefix@).len() as int
        }
    }

    /// Visible selection.
    pub open spec fn visible_selection(&self, host: OverlayHost) -> Range<usize> {
        visual::overlay_selection(
            self.editing,
            encode_utf8(self.prefix@).len() as usize,
            host.marked().len() as usize,
            host.selected,
            self.display(host).len() as usize,
        )
    }

    /// `out` is what is known of the overlay before it is painted.
    pub open spec fn prepainted(
        &self,
        lines: Seq<ShapedLine>,
        bounds: Bounds,
        host: OverlayHost,
        out: OverlayPrepaint,
    ) -> bool {
        &&& encode_utf8(out.display@) == self.display(host)
        &&& out.reported_caret == (if self.editing {
            visual::caret_among(
                lines,
                bounds,
                self.line_height,
                self.visible_caret(host) as usize,
                lines.len() as int,
            )
        } else {
            None
        })
        &&& out.cursor == (if self.editing && host.focused && host.caret_visible {
            out.reported_caret
        } else {
            None
        })
        &&& out.selection@ == (if self.editing && self.visible_selection(host).start
            != self.visible_selection(host).end {
            visual::selection_rects(
                lines,
                bounds,
                self.line_height,
                self.visible_selection(host),
                lines.len() as int,
            )
        } else {
            Seq::empty()
        })
    }

    /// Text, caret and selection of the overlay. Only an overlay that is
    /// edited has a caret.
    pub fn prepaint(&self, lines: &Vec<ShapedLine>, bounds: &Bounds, host: &OverlayHost) -> (out:
        OverlayPrepaint)
        ensures
            self.prepainted(lines@, *bounds, *host, out),
    {
        let (display, vis_caret) = display_and_caret(
            self.prefix.as_str(),
            self.text.as_str(),
            self.editing,
            host.caret,
            host.marked_text(),
        );
        let vis_sel = display_sel(
            self.editing,
            byte_len(self.prefix.as_str()),
            host.marked_len(),
            &host.selected,
            byte_len(display.as_str()),
        );
        let paint = paint_carets(
            lines,
            bounds,
            self.line_height,
            vis_caret,
            &vis_sel,
            self.editing,
            self.editing && host.focused && host.caret_visible,
            self.editing && vis_sel.start != vis_sel.end,
        );
        OverlayPrepaint {
            display,
            cursor: paint.cursor,
            reported_caret: paint.caret_bounds,
            selection: paint.selection,
        }
    }

    /// What the overlay paints and reports.
    pub fn paint(&self, lines: &Vec<ShapedLine>, bounds: &Bounds) -> (out: OverlayPaint)
        ensures
            out.takes_input == self.editing,
            out.line_origins@ == origins(
                lines@,
                *bounds,
                self.line_height,
                lines@.len() as int,
            ),
    {
        OverlayPaint {
            takes_input: self.editing,
            line_origins: line_origins(lines, bounds, self.line_height),
        }
    }

    /// The draft offset of the visible offset `vis`.
    pub open spec fn draft_offset(&self, host: OverlayHost, vis: usize) -> int {
        let n = encode_utf8(self.text@).len() as usize;
        visual::draft_offset_of(
            encode_utf8(self.prefix@).len() as usize,
            vis,
            n,
            bytes::least(host.caret, n),
            host.marked().len() as usize,
        )
    }

    /// What a pointer event at the visible offset `vis` asks for.
    pub fn on_pointer(&self, event: &PointerEvent, bounds: &Bounds, host: &OverlayHost, vis: usize)
        -> (action: PointerAction)
        ensures
            action == pointer_action(
                *event,
                *bounds,
                host.selecting,
                self.draft_offset(*host, vis) as usize,
            ),
    {
        let n: usize = byte_len(self.text.as_str());
        let offset: usize = overlay_draft_offset(
            byte_len(self.prefix.as_str()),
            vis,
            n,
            lesser(host.caret, n),
            host.marked_len(),
        );
        pointed(event, bounds, host.selecting, offset)
    }
}

/// A leaf without the caret neither takes input nor reports a caret nor paints
/// text under composition.
pub proof fn other_leaves_stay_quiet(
    element: BlockTextElement,
    host: HostState,
    prepaint: Prepaint,
    out: LeafPaint,
    lines: Seq<ShapedLine>,
    bounds: Bounds,
)
    requires
        !element.layout@.contains(host.caret),
        element.painted(lines, bounds, prepaint, host, out),
    ensures
        !out.takes_input,
        out.reported_caret is None,
        out.preedit_at is None,
{
}

/// A press outside an element does nothing.
pub proof fn outside_press_is_ignored(
    event: PointerEvent,
    bounds: Bounds,
    selecting: bool,
    offset: usize,
)
    requires
        event.kind == PointerKind::Down,
        !bounds.covers(event.position),
    ensures
        pointer_action(event, bounds, selecting, offset) == PointerAction::Nothing,
{
}

/// What a pointer event does. Only the left button counts, and only once the
/// event bubbles: a press inside the element puts the caret where it hits, and
/// extends the selection under shift; a move drags while a selection is made,
/// wherever it is; a release ends the drag.
pub proof fn pointers_click_drag_and_release(
    event: PointerEvent,
    bounds: Bounds,
    selecting: bool,
    offset: usize,
)
    ensures
        ({
            let action = pointer_action(event, bounds, selecting, offset);
            let heard = event.left && event.bubble;
            let p = event.position;
            let inside = bounds.x <= p.x <= bounds.x + bounds.width && bounds.y <= p.y <= bounds.y
                + bounds.height;
            &&& action is Click <==> heard && event.kind == PointerKind::Down && inside
            &&& action matches PointerAction::Click { offset: at, extend } ==> at == offset
                && extend == event.shift
            &&& action is Drag <==> heard && event.kind == PointerKind::Move && selecting
            &&& action matches PointerAction::Drag { offset: at } ==> at == offset
            &&& action is EndDrag <==> heard && event.kind == PointerKind::Up
        }),
{
}

/// The leaf that holds the caret takes the input, unless a widget is edited; it
/// reports its caret, and paints text under composition where its caret is.
pub proof fn caret_leaf_takes_the_input(
    element: BlockTextElement,
    host: HostState,
    prepaint: Prepaint,
    out: LeafPaint,
    lines: Seq<ShapedLine>,
    bounds: Bounds,
)
    requires
        element.layout@.contains(host.caret),
        element.painted(lines, bounds, prepaint, host, out),
    ensures
        out.takes_input <==> !host.widget_editing,
        out.reported_caret == prepaint.caret_bounds,
        host.preedit is None ==> out.preedit_at is None,
        host.preedit matches Some(t) ==> {
            &&& t@.len() == 0 ==> out.preedit_at is None
            &&& t@.len() > 0 && prepaint.caret_bounds is Some ==> out.preedit_at is Some
                && out.preedit_at->0.x == prepaint.caret_bounds->0.x && out.preedit_at->0.y
                == prepaint.caret_bounds->0.y
        },
{
}

/// Every line of a leaf is painted at the left edge of the leaf, as far down as
/// the lines before it are high.
pub proof fn lines_are_painted_below_each_other(
    lines: Seq<ShapedLine>,
    bounds: Bounds,
    line_height: i64,
    k: int,
)
    requires
        visual::fit(lines, bounds.y, line_height),
        0 <= k < lines.len(),
    ensures
        ({
            let at = origins(lines, bounds, line_height, lines.len() as int);
            &&& at.len() == lines.len()
            &&& at[k].x == bounds.x
            &&& at[k].y == bounds.y + visual::stacked(lines, line_height, k)
        }),
{
    visual::lines_are_stacked(lines, bounds.y, line_height, k);
}

/// A leaf shows its caret only where it holds it, while the editor has the
/// focus and the blink shows it; it is located for the IME through the blink.
/// It paints no selection that it does not touch.
pub proof fn carets_show_with_focus_and_blink(
    element: BlockTextElement,
    lines: Seq<ShapedLine>,
    bounds: Bounds,
    host: HostState,
    out: Prepaint,
)
    requires
        element.prepainted(lines, bounds, host, out),
    ensures
        !element.layout@.contains(host.caret) ==> out.caret_bounds is None && out.cursor is None,
        !host.focused ==> out.cursor is None,
        !host.caret_visible ==> out.cursor is None,
        host.focused && host.caret_visible ==> out.cursor == out.caret_bounds,
        element.layout@.contains(host.caret) ==> out.caret_bounds == visual::caret_among(
            lines,
            bounds,
            element.line_height,
            element.layout@.visible_of(host.caret) as usize,
            lines.len() as int,
        ),
        host.selected.start == host.selected.end ==> out.selection@.len() == 0,
        host.selected.start < host.selected.end && host.selected.start
            < element.layout@.last_source() && element.layout@.first_source() < host.selected.end
            ==> out.selection@ == visual::selection_rects(
            lines,
            bounds,
            element.line_height,
            (element.layout@.visible_of(host.selected.start) as usize..element.layout@.visible_of(
                host.selected.end,
            ) as usize),
            lines.len() as int,
        ),
{
}

/// Only an overlay that is edited has a caret and a selection; its caret shows
/// with the focus and the blink.
pub proof fn overlays_have_a_caret_while_edited(
    overlay: WidgetOverlay,
    lines: Seq<ShapedLine>,
    bounds: Bounds,
    host: OverlayHost,
    out: OverlayPrepaint,
)
    requires
        overlay.prepainted(lines, bounds, host, out),
    ensures
        !overlay.editing ==> out.cursor is None && out.reported_caret is None
            && out.selection@.len() == 0,
        !overlay.editing ==> encode_utf8(out.display@) == encode_utf8(overlay.prefix@)
            + encode_utf8(overlay.text@),
        overlay.editing && host.focused && host.caret_visible ==> out.cursor == out.reported_caret,
        !host.focused || !host.caret_visible ==> out.cursor is None,
        overlay.editing ==> out.reported_caret == visual::caret_among(
            lines,
            bounds,
            overlay.line_height,
            overlay.visible_caret(host) as usize,
            lines.len() as int,
        ),
        overlay.editing ==> overlay.visible_caret(host) == encode_utf8(overlay.prefix@).len()
            + visual::overlay_at(encode_utf8(overlay.text@), host.caret) + host.marked().len(),
        overlay.editing && overlay.visible_selection(host).start < overlay.visible_selection(
            host,
        ).end ==> out.selection@ == visual::selection_rects(
            lines,
            bounds,
            overlay.line_height,
            overlay.visible_selection(host),
            lines.len() as int,
        ),
{
}

/// A click on an overlay leads back to the draft: before the caret to the byte
/// that is shown there, behind the text under composition that many bytes less.
pub proof fn overlay_clicks_lead_to_the_draft(overlay: WidgetOverlay, host: OverlayHost, vis: usize)
    requires
        encode_utf8(overlay.text@).len() <= usize::MAX,
        host.caret <= encode_utf8(overlay.text@).len(),
        encode_utf8(overlay.prefix@).len() <= usize::MAX,
        host.marked().len() <= usize::MAX,
    ensures
        ({
            let p = encode_utf8(overlay.prefix@).len() as int;
            let n = encode_utf8(overlay.text@).len() as int;
            let m = host.marked().len() as int;
            let at = overlay.draft_offset(host, vis);
            &&& 0 <= at <= n
            &&& p <= vis <= p + host.caret ==> at == vis - p
            &&& p + host.caret + m <= vis <= p + n + m ==> at == vis - p - m
        }),
{
}

/// A hit counts from the start of its line; a miss is the start of the leaf.
pub proof fn hits_count_from_their_line(h: LineHit, index: usize)
    ensures
        h.offset + index <= usize::MAX ==> leaf_offset(Some(h), index) == h.offset + index,
        leaf_offset(None, index) == 0,
{
}

} // verus!
