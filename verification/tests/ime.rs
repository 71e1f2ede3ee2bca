use std::ops::Range;
use std::sync::Arc;

use markrust_wysiwyg::draft::{
    apply_replace_range_to_selection, begin_body_preedit, body_selected_text_range,
    clamp_grapheme_boundary, clamp_to_starts, clear_composition, offset_from_utf16,
    offset_to_utf16, replace_in_widget_draft, set_preedit, widget_selected_text_range,
    UTF16Selection,
};
use markrust_wysiwyg::geometry::{Bounds, Point, PX};
use markrust_wysiwyg::ime::{
    caret_from_element_bounds, ime_origin_bounds, widget_caret_rect, ImeLeafHit, ImeOriginState,
    ImeOwner, VisualCaretStop, VisualLine,
};
use markrust_wysiwyg::layout::LeafLayout;

fn px(v: f32) -> i64 {
    (v * PX as f32) as i64
}

fn f32_of(v: i64) -> f32 {
    v as f32 / PX as f32
}

fn point(x: i64, y: i64) -> Point {
    Point { x, y }
}

fn rect(x: f32, y: f32, w: f32, h: f32) -> Bounds {
    Bounds { x: px(x), y: px(y), width: px(w), height: px(h) }
}

fn leaf_layout(text: &str, start: usize) -> Arc<LeafLayout> {
    let mut source_at = Vec::with_capacity(text.len() + 1);
    for i in 0..=text.len() {
        source_at.push(start + i);
    }
    if text.is_empty() {
        source_at = vec![start, start];
    }
    Arc::new(LeafLayout {
        text: text.to_string(),
        runs: Vec::new(),
        source_at,
        block_start: start,
    })
}

fn visual_line(visible: Range<usize>, top: f32) -> VisualLine {
    let start = visible.start;
    let stops = (visible.start..=visible.end)
        .map(|offset| VisualCaretStop {
            visible: offset,
            source: offset,
            x: px((offset.saturating_sub(start) as f32) * 10.0),
        })
        .collect();
    VisualLine {
        visible_start: visible.start,
        visible_end: visible.end,
        top: px(top),
        height: px(20.0),
        stops,
    }
}

fn hit(
    text: &str,
    start: usize,
    bounds: Bounds,
    caret: Option<Bounds>,
) -> ImeLeafHit {
    ImeLeafHit {
        layout: leaf_layout(text, start),
        bounds,
        font_size: px(16.0),
        line_height: px(22.0),
        caret_bounds: caret,
    }
}

fn body_frame(caret: usize, leaves: Vec<ImeLeafHit>) -> ImeOriginState {
    let mut ime = ImeOriginState::default();
    ime.begin_frame(false, caret, None);
    for leaf in leaves {
        ime.report_leaf(leaf);
    }
    ime
}

#[test]
fn visual_vertical_navigation_uses_wrapped_rows_and_keeps_the_original_x() {
    let layout = leaf_layout("abcdefghijklmnopq", 0);
    let mut ime = ImeOriginState::default();
    ime.begin_frame(false, 4, None);
    // The middle row is deliberately short. A source-line move would not
    // see any of these wrap boundaries at all.
    ime.report_visual_lines(
        layout,
        vec![
            visual_line(0..5, 0.0),
            visual_line(5..7, 20.0),
            visual_line(7..12, 40.0),
        ],
    );

    let first = ime
        .visual_vertical_target(4, 1, None)
        .expect("first wrapped-row target");
    assert_eq!(first.source, Some(7));
    assert_eq!(first.preferred_x, px(40.0));

    // The source offset 7 is the short row's visual end. The saved x
    // (40), rather than its current x (20), must carry through to the
    // following long row.
    let second = ime
        .visual_vertical_target(7, 1, Some(first.preferred_x))
        .expect("second wrapped-row target");
    assert_eq!(second.source, Some(11));
    assert_eq!(second.preferred_x, px(40.0));

    let up = ime
        .visual_vertical_target(11, -1, Some(second.preferred_x))
        .expect("upward wrapped-row target");
    assert_eq!(up.source, Some(7));
}

fn widget_frame(
    widget: Bounds,
    decoy_leaves: Vec<ImeLeafHit>,
    caret_in_body: usize,
) -> ImeOriginState {
    widget_frame_with_inner(widget, None, decoy_leaves, caret_in_body)
}

fn widget_frame_with_inner(
    widget: Bounds,
    inner: Option<Bounds>,
    decoy_leaves: Vec<ImeLeafHit>,
    caret_in_body: usize,
) -> ImeOriginState {
    let mut ime = ImeOriginState::default();
    ime.begin_frame(true, caret_in_body, None);
    ime.report_widget(widget);
    if let Some(caret) = inner {
        ime.report_widget_caret(caret);
    }
    for leaf in decoy_leaves {
        ime.report_leaf(leaf);
    }
    ime
}

/// Approximate inner `|` rect from a draft offset (headless; production
/// uses the shaped-glyph caret). Mid-draft is never the overlay right edge.
fn inner_widget_caret_rect(widget: Bounds, draft: &str, caret: usize) -> Bounds {
    let h = widget.height.min(px(22.)).max(px(2.));
    let at = caret.min(draft.len());
    let before = &draft[..at];
    let line_idx = before.matches('\n').count() as f32;
    let col = before.rsplit('\n').next().unwrap_or("").chars().count() as f32;
    let x = f32_of(widget.x) + col * 8.0;
    let y = f32_of(widget.y) + line_idx * f32_of(h);
    let right = f32_of(widget.x + widget.width);
    Bounds {
        x: px(x.min(right - 2.0).max(f32_of(widget.x))),
        y: px(y),
        width: px(2.),
        height: h,
    }
}

#[test]
fn widget_ime_insert_uses_inner_caret_not_append() {
    let mut draft = "****".to_string();
    let mut caret = 2usize;
    let at = caret;
    replace_in_widget_draft(&mut draft, &mut caret, None, "x", at..at);
    assert_eq!(draft, "**x**");
    assert_eq!(caret, 3);
    let sel = widget_selected_text_range(&draft, caret, caret, &None);
    assert_eq!(sel.range.start, sel.range.end);
    assert_eq!(sel.range.start, offset_to_utf16(&draft, 3));
}

#[test]
fn widget_ime_insert_replaces_inner_selection() {
    let mut draft = "cat".to_string();
    let mut caret = 3usize;
    replace_in_widget_draft(&mut draft, &mut caret, None, "x", 1..3);
    assert_eq!(draft, "cx");
    assert_eq!(caret, 2);
}

#[test]
fn widget_ime_replacements_preserve_extended_graphemes() {
    for (cluster, label) in [
        ("e\u{301}", "combining accent"),
        ("👩\u{200d}💻", "ZWJ emoji"),
    ] {
        let original = format!("{cluster}x");
        let inside = cluster.chars().next().expect(label).len_utf8();

        let mut draft = original.clone();
        let mut caret = 0;
        replace_in_widget_draft(&mut draft, &mut caret, None, "!", inside..inside);
        assert_eq!(
            draft,
            format!("!{cluster}x"),
            "IME insertion inside a {label} must normalize to its edge"
        );
        assert_eq!(caret, 1);

        let mut draft = original.clone();
        let mut caret = 0;
        let start_utf16 = offset_to_utf16(&original, inside);
        let end_utf16 = offset_to_utf16(&original, cluster.len());
        replace_in_widget_draft(
            &mut draft,
            &mut caret,
            Some(start_utf16..end_utf16),
            "q",
            0..0,
        );
        assert_eq!(
            draft, "qx",
            "IME replacement starting inside a {label} must replace the whole glyph"
        );
        assert_eq!(caret, 1);
    }
}

#[test]
fn body_caret_ignores_later_unfocused_leaf() {
    let focused = rect(10.0, 40.0, 2.0, 22.0);
    let decoy = rect(10.0, 400.0, 2.0, 22.0);
    let ime = body_frame(
        3,
        vec![
            hit("hello", 0, rect(8.0, 40.0, 200.0, 22.0), Some(focused)),
            hit(
                "later paragraph",
                20,
                rect(8.0, 400.0, 200.0, 22.0),
                Some(decoy),
            ),
        ],
    );
    assert_eq!(ime.owner(), Some(ImeOwner::Leaf));
    assert_eq!(ime.caret_rect(), Some(focused));
}

#[test]
fn wrapped_line_caret_uses_reported_rect_not_leaf_origin() {
    let leaf_bounds = rect(8.0, 10.0, 240.0, 66.0);
    let second_line = rect(8.0, 32.0, 2.0, 22.0);
    let ime = body_frame(
        40,
        vec![hit(
            "a long paragraph that wraps onto a second visual line here",
            0,
            leaf_bounds,
            Some(second_line),
        )],
    );
    let caret = ime.caret_rect().expect("wrapped caret");
    assert_eq!(caret, second_line);
    assert!(
        caret.y > leaf_bounds.y,
        "IME origin must sit on the wrapped line, not the leaf top"
    );
}

#[test]
fn table_cell_caret_not_last_painted_cell() {
    let cell_a = rect(10.0, 80.0, 2.0, 20.0);
    let cell_b = rect(120.0, 80.0, 2.0, 20.0);
    let ime = body_frame(
        12,
        vec![
            hit("alpha", 10, rect(8.0, 80.0, 80.0, 22.0), Some(cell_a)),
            hit("bravo", 20, rect(100.0, 80.0, 80.0, 22.0), Some(cell_b)),
        ],
    );
    assert_eq!(ime.caret_rect(), Some(cell_a));
    assert_ne!(ime.caret_rect(), Some(cell_b));
}

#[test]
fn language_chip_widget_beats_body_leaf() {
    let chip = rect(24.0, 120.0, 48.0, 18.0);
    let body = rect(24.0, 142.0, 2.0, 22.0);
    let ime = widget_frame(
        chip,
        vec![hit(
            "fn main() {}",
            12,
            rect(24.0, 142.0, 400.0, 80.0),
            Some(body),
        )],
        12,
    );
    assert_eq!(ime.owner(), Some(ImeOwner::Widget));
    assert_eq!(ime.caret_rect(), Some(widget_caret_rect(chip)));
    assert_ne!(ime.caret_rect(), Some(body));
}

#[test]
fn image_caption_widget_beats_body_leaf() {
    let caption = rect(24.0, 260.0, 160.0, 16.0);
    let alt_placeholder = rect(24.0, 200.0, 2.0, 22.0);
    let ime = widget_frame(
        caption,
        vec![hit(
            "🖼 cat",
            0,
            rect(24.0, 200.0, 200.0, 22.0),
            Some(alt_placeholder),
        )],
        2,
    );
    assert_eq!(ime.caret_rect(), Some(widget_caret_rect(caption)));
    assert_ne!(ime.caret_rect(), Some(alt_placeholder));
}

#[test]
fn frontmatter_field_widget_beats_body_leaf() {
    let title = rect(24.0, 8.0, 220.0, 20.0);
    let body = rect(24.0, 96.0, 2.0, 22.0);
    let ime = widget_frame(
        title,
        vec![hit("Hello", 40, rect(24.0, 96.0, 400.0, 22.0), Some(body))],
        40,
    );
    assert_eq!(ime.caret_rect(), Some(widget_caret_rect(title)));
    assert_ne!(ime.caret_rect(), Some(body));
}

#[test]
fn widget_origin_ignores_leaf_reported_after_the_widget() {
    let yaml = rect(24.0, 48.0, 360.0, 72.0);
    let later = rect(24.0, 900.0, 2.0, 22.0);
    let mut ime = ImeOriginState::default();
    ime.begin_frame(true, 0, None);
    ime.report_widget(yaml);
    ime.report_leaf(hit(
        "body after frontmatter",
        80,
        rect(24.0, 900.0, 400.0, 22.0),
        Some(later),
    ));
    assert_eq!(ime.owner(), Some(ImeOwner::Widget));
    assert_eq!(ime.caret_rect(), Some(widget_caret_rect(yaml)));
}

#[test]
fn begin_frame_clears_stale_widget_when_focus_returns_to_body() {
    let mut ime = ImeOriginState::default();
    ime.begin_frame(true, 0, None);
    ime.report_widget(rect(24.0, 8.0, 100.0, 18.0));
    assert_eq!(ime.owner(), Some(ImeOwner::Widget));

    let body = rect(24.0, 96.0, 2.0, 22.0);
    ime.begin_frame(false, 4, None);
    ime.report_leaf(hit("Hello", 0, rect(24.0, 96.0, 400.0, 22.0), Some(body)));
    assert_eq!(ime.owner(), Some(ImeOwner::Leaf));
    assert_eq!(ime.caret_rect(), Some(body));
}

#[test]
fn hit_test_uses_leaf_under_point_not_last_painted() {
    let first = rect(8.0, 10.0, 200.0, 22.0);
    let second = rect(8.0, 40.0, 200.0, 22.0);
    let ime = body_frame(
        3,
        vec![
            hit("hello", 0, first, Some(rect(10.0, 10.0, 2.0, 22.0))),
            hit("world", 10, second, Some(rect(10.0, 40.0, 2.0, 22.0))),
        ],
    );
    let leaf = ime
        .leaf_at_point(point(px(20.0), px(14.0)))
        .expect("first leaf");
    assert_eq!(leaf.layout.text, "hello");
    let leaf = ime
        .leaf_at_point(point(px(20.0), px(48.0)))
        .expect("second leaf");
    assert_eq!(leaf.layout.text, "world");
}

#[test]
fn leftover_viewport_below_last_leaf_is_below_painted_content() {
    let last = rect(8.0, 40.0, 200.0, 22.0);
    let ime = body_frame(
        0,
        vec![
            hit("hello", 0, rect(8.0, 10.0, 200.0, 22.0), None),
            hit("world", 10, last, None),
        ],
    );
    assert!(
        !ime.point_is_below_painted_content(point(px(20.0), px(48.0))),
        "click on the last leaf is not leftover viewport"
    );
    assert!(
        ime.point_is_below_painted_content(point(px(20.0), px(80.0))),
        "click below the last painted line is leftover viewport"
    );
    assert!(
        !ime.point_is_below_painted_content(point(px(20.0), px(14.0))),
        "click on an earlier leaf is not leftover"
    );
}

#[test]
fn leftover_click_on_last_image_or_rule_is_not_below_content() {
    let para = rect(8.0, 10.0, 200.0, 22.0);
    let image = rect(8.0, 40.0, 200.0, 80.0);
    let mut ime = ImeOriginState::default();
    ime.begin_frame(false, 0, None);
    ime.report_leaf(hit("hello", 0, para, None));
    ime.report_painted_bounds(image);
    assert!(
        !ime.point_is_below_painted_content(point(px(20.0), px(70.0))),
        "click on a standalone image must not be leftover"
    );
    assert!(
        ime.point_is_below_painted_content(point(px(20.0), px(140.0))),
        "click below the image is leftover"
    );
    assert!(
        !ime.point_is_below_painted_content(point(px(20.0), px(14.0))),
        "click on the paragraph above is not leftover"
    );

    let rule = rect(8.0, 40.0, 400.0, 1.0);
    let mut ime = ImeOriginState::default();
    ime.begin_frame(false, 0, None);
    ime.report_painted_bounds(rule);
    assert!(
        !ime.point_is_below_painted_content(point(px(20.0), px(40.5))),
        "click on a thematic rule must not be leftover"
    );
    assert!(
        ime.point_is_below_painted_content(point(px(20.0), px(60.0))),
        "click below the rule is leftover"
    );
}

#[test]
fn empty_paint_treats_any_point_as_below_content() {
    let ime = body_frame(0, vec![]);
    assert!(
        ime.point_is_below_painted_content(point(px(40.0), px(200.0))),
        "newlines-only / unpainted document must accept a leftover click"
    );
}

fn hit_for_range(
    start: usize,
    end: usize,
    bounds: Bounds,
    caret: Option<Bounds>,
) -> ImeLeafHit {
    let n = end.saturating_sub(start).max(1);
    hit(&"x".repeat(n), start, bounds, caret)
}

fn caret_on(bounds: Bounds, caret: usize, source_start: usize) -> Bounds {
    let dx = (caret.saturating_sub(source_start) as f32).min(22.0) * 8.0;
    rect(
        f32_of(bounds.x) + 2.0 + dx,
        f32_of(bounds.y),
        2.0,
        20.0,
    )
}

enum RichCommand {
    InsertText(String),
    TableTab { reverse: bool },
}

/// A document of paragraphs, pipe tables and fenced code: just enough of one
/// to edit and to paint.
struct Doc {
    source: String,
}

impl Doc {
    fn new(source: &str) -> Self {
        Doc { source: source.to_string() }
    }

    /// Cells of the table, row by row, each with its column.
    fn cells(&self) -> Vec<(usize, usize, Range<usize>)> {
        let mut out = Vec::new();
        let mut at = 0;
        let mut row = 0;
        for line in self.source.split_inclusive('\n') {
            let text = line.trim_end_matches('\n');
            if text.starts_with('|') && !text.starts_with("|-") {
                let mut start = at + 1;
                for (col, cell) in text[1..].trim_end_matches('|').split('|').enumerate() {
                    let lead = cell.len() - cell.trim_start().len();
                    let body = cell.trim().len();
                    out.push((row, col, start + lead..start + lead + body));
                    start += cell.len() + 1;
                }
                row += 1;
            }
            at += line.len();
        }
        out
    }

    fn cell_caret(&self, row: usize, col: usize) -> Option<usize> {
        let found = self.cells().into_iter().find(|(r, c, _)| *r == row && *c == col);
        found.map(|(_, _, range)| range.start)
    }

    fn table_column(&self, caret: usize) -> Option<usize> {
        let found = self
            .cells()
            .into_iter()
            .find(|(_, _, range)| range.start <= caret && caret <= range.end);
        found.map(|(_, col, _)| col)
    }

    /// Source ranges of the leaves, in order.
    fn leaves(&self) -> Vec<Range<usize>> {
        let mut out: Vec<Range<usize>> = Vec::new();
        let mut at = 0;
        let mut front = self.source.starts_with("---\n");
        let mut fence = false;
        for (n, line) in self.source.split_inclusive('\n').enumerate() {
            let text = line.trim_end_matches('\n');
            let start = at;
            at += line.len();
            if front {
                front = n == 0 || text != "---";
            } else if fence {
                fence = text != "```";
                out.last_mut().expect("fence").end = start + text.len();
            } else if text.starts_with("```") {
                fence = true;
                out.push(start..start + text.len());
            } else if !text.is_empty() && !text.starts_with('|') {
                out.push(start..start + text.len());
            } else if text.starts_with('|') {
                for (_, _, range) in self.cells() {
                    if start <= range.start && range.end <= at {
                        out.push(range);
                    }
                }
            }
        }
        out
    }

    /// Carries a command out on a selection and gives the one after it.
    fn apply(&mut self, command: RichCommand, selected: Range<usize>) -> Range<usize> {
        match command {
            RichCommand::InsertText(text) => {
                self.source.replace_range(selected.clone(), &text);
                let caret = selected.start + text.len();
                caret..caret
            }
            RichCommand::TableTab { reverse } => {
                let cells = self.cells();
                let here = cells
                    .iter()
                    .position(|(_, _, r)| r.start <= selected.start && selected.start <= r.end)
                    .expect("caret in a cell");
                let next = if reverse { here - 1 } else { here + 1 };
                let caret = cells[next].2.start;
                caret..caret
            }
        }
    }
}

/// `begin_frame` with the document caret, then report the leaves (and optional
/// widget) that would paint this frame.
fn paint_engine_frame(
    ime: &mut ImeOriginState,
    doc: &Doc,
    caret: usize,
    widget: Option<Bounds>,
    widget_inner: Option<Bounds>,
    composition: Option<&str>,
) {
    ime.begin_frame(widget.is_some(), caret, composition);
    if let Some(bounds) = widget {
        ime.report_widget(bounds);
        if let Some(inner) = widget_inner {
            ime.report_widget_caret(inner);
        }
    }
    let mut y = 10.0;
    for range in doc.leaves() {
        let bounds = rect(8.0, y, 200.0, 22.0);
        y += 24.0;
        let caret_bounds = if range.start <= caret && caret <= range.end {
            Some(caret_on(bounds, caret, range.start))
        } else {
            None
        };
        ime.report_leaf(hit_for_range(range.start, range.end, bounds, caret_bounds));
    }
}

#[test]
fn platform_push_fires_once_per_origin_change() {
    let mut ime = ImeOriginState::default();
    let body = rect(10.0, 40.0, 2.0, 22.0);
    ime.begin_frame(false, 3, None);
    ime.report_leaf(hit("hello", 0, rect(8.0, 40.0, 200.0, 22.0), Some(body)));
    assert_eq!(ime.take_platform_push(), Some(body));
    assert_eq!(
        ime.take_platform_push(),
        None,
        "same origin must not re-push"
    );
}

#[test]
fn blink_off_keeps_caret_origin_not_leaf_top_left() {
    let mut ime = ImeOriginState::default();
    let caret = rect(80.0, 40.0, 2.0, 22.0);
    let leaf = rect(8.0, 40.0, 200.0, 22.0);
    ime.begin_frame(false, 3, None);
    ime.report_leaf(hit("hello", 0, leaf, Some(caret)));
    assert_eq!(ime.take_platform_push(), Some(caret));

    ime.begin_frame(false, 3, None);
    ime.report_leaf(hit("hello", 0, leaf, None));
    assert_eq!(
        ime.caret_rect(),
        Some(caret),
        "blink-off must keep the last caret, not the leaf origin"
    );
    assert_eq!(ime.take_platform_push(), None);
    assert_ne!(
        ime.caret_rect(),
        Some(rect(
            f32_of(leaf.x),
            f32_of(leaf.y),
            2.0,
            22.0
        )),
        "IME origin must not jump to the leaf top-left when the caret quad is hidden"
    );
}

#[test]
fn begin_frame_before_paint_keeps_body_caret_for_os_pull() {
    let mut ime = ImeOriginState::default();
    let caret = rect(80.0, 40.0, 2.0, 22.0);
    let leaf = rect(8.0, 40.0, 200.0, 22.0);
    ime.begin_frame(false, 3, None);
    ime.report_leaf(hit("hello", 0, leaf, Some(caret)));
    assert_eq!(ime.take_platform_push(), Some(caret));

    ime.begin_frame(false, 3, Some("ni"));
    assert_eq!(
        ime.caret_rect(),
        Some(caret),
        "macOS firstRectForCharacterRange after begin_frame must keep the caret"
    );
    let pulled = ime_origin_bounds(&ime, decoy_element_bounds());
    assert_eq!(pulled, caret);
    assert_ne!(pulled, decoy_element_bounds());
    assert_ne!(
        pulled,
        rect(
            f32_of(leaf.x),
            f32_of(leaf.y),
            2.0,
            22.0
        ),
        "OS pull must not fall back to the leaf top-left before paint"
    );
    assert_eq!(
        ime.take_platform_push(),
        None,
        "unpainted frame must not push leftover sticky to Linux/Windows"
    );
}

#[test]
fn begin_frame_before_paint_keeps_wrapped_line_caret_for_os_pull() {
    let mut ime = ImeOriginState::default();
    let leaf_bounds = rect(8.0, 10.0, 240.0, 66.0);
    let second_line = rect(8.0, 32.0, 2.0, 22.0);
    ime.begin_frame(false, 40, None);
    ime.report_leaf(hit(
        "a long paragraph that wraps onto a second visual line here",
        0,
        leaf_bounds,
        Some(second_line),
    ));
    assert_eq!(ime.take_platform_push(), Some(second_line));

    ime.begin_frame(false, 40, Some("ni"));
    let pulled = ime_origin_bounds(&ime, decoy_element_bounds());
    assert_eq!(pulled, second_line);
    assert!(
        f32_of(pulled.y) > f32_of(leaf_bounds.y),
        "OS pull must stay on the wrapped line, not the leaf top"
    );
}

#[test]
fn begin_frame_before_paint_keeps_overlay_inner_caret_not_trailing_edge() {
    let overlay = rect(24.0, 260.0, 160.0, 16.0);
    let inner = inner_widget_caret_rect(overlay, "caption text", 4);
    let trailing = widget_caret_rect(overlay);
    let mut ime = ImeOriginState::default();
    ime.begin_frame(true, 0, None);
    ime.report_widget(overlay);
    ime.report_widget_caret(inner);
    assert_eq!(ime.take_platform_push(), Some(inner));

    ime.begin_frame(true, 4, Some("ni"));
    let pulled = ime_origin_bounds(&ime, decoy_element_bounds());
    assert_eq!(
        pulled, inner,
        "OS pull after begin_frame must keep the inner `|`"
    );
    assert_ne!(pulled, trailing);
    assert_ne!(pulled, decoy_element_bounds());
    assert_eq!(ime.take_platform_push(), None);
}

#[test]
fn unfocused_leaf_does_not_push_stale_sticky_after_caret_move() {
    let first = rect(10.0, 40.0, 2.0, 22.0);
    let second = rect(10.0, 80.0, 2.0, 22.0);
    let mut ime = ImeOriginState::default();
    ime.begin_frame(false, 3, None);
    ime.report_leaf(hit("hello", 0, rect(8.0, 40.0, 200.0, 22.0), Some(first)));
    ime.report_leaf(hit("world", 6, rect(8.0, 80.0, 200.0, 22.0), None));
    assert_eq!(ime.take_platform_push(), Some(first));

    ime.begin_frame(false, 8, None);
    ime.report_leaf(hit("hello", 0, rect(8.0, 40.0, 200.0, 22.0), None));
    assert_eq!(
        ime.take_platform_push(),
        None,
        "the previous paragraph must not push its leftover sticky after the caret left"
    );
    ime.report_leaf(hit("world", 6, rect(8.0, 80.0, 200.0, 22.0), Some(second)));
    assert_eq!(ime.take_platform_push(), Some(second));
}

#[test]
fn composition_start_pushes_even_when_caret_rect_is_unchanged() {
    let mut ime = ImeOriginState::default();
    let body = rect(10.0, 40.0, 2.0, 22.0);
    ime.begin_frame(false, 3, None);
    ime.report_leaf(hit("hello", 0, rect(8.0, 40.0, 200.0, 22.0), Some(body)));
    assert_eq!(ime.take_platform_push(), Some(body));

    ime.begin_frame(false, 3, Some("ni"));
    ime.report_leaf(hit("hello", 0, rect(8.0, 40.0, 200.0, 22.0), Some(body)));
    assert_eq!(
        ime.take_platform_push(),
        Some(body),
        "composition start must invalidate the platform IME even if the caret did not move"
    );
    assert_eq!(ime.take_platform_push(), None);
}

#[test]
fn ime_origin_after_insert_then_caret_into_table_cell_is_not_stale() {
    let source = "hello\n\n| a | b |\n|---|---|\n| 1 | 2 |\n";
    let mut doc = Doc::new(source);
    let body_caret = doc.apply(RichCommand::InsertText("!".into()), 5..5).end;
    assert!(
        doc.table_column(body_caret).is_none(),
        "edit must land in the paragraph, not the table"
    );

    let mut ime = ImeOriginState::default();
    paint_engine_frame(&mut ime, &doc, body_caret, None, None, None);
    let origin_body = ime.caret_rect().expect("body origin after edit");
    assert_eq!(ime.take_platform_push(), Some(origin_body));
    assert_eq!(ime.owner(), Some(ImeOwner::Leaf));

    let cell_a = doc.cell_caret(0, 0).expect("header cell a after edit");
    let cell_caret = doc.apply(RichCommand::TableTab { reverse: false }, cell_a..cell_a).end;
    let col = doc
        .table_column(cell_caret)
        .expect("caret must sit in a table cell after tab");
    assert_eq!(col, 1, "TableTab should land in column b");

    paint_engine_frame(&mut ime, &doc, cell_caret, None, None, None);
    let origin_cell = ime.caret_rect().expect("cell origin after caret move");
    assert_ne!(
        origin_cell, origin_body,
        "IME origin must follow the caret into the table cell after the edit, not keep the paragraph rect"
    );
    let leaf = ime.focused_leaf().expect("cell leaf");
    assert!(
        leaf.layout.contains_source(cell_caret),
        "origin leaf must own the post-edit cell caret {cell_caret}"
    );
    assert!(
        !leaf.layout.contains_source(body_caret),
        "cell origin must not still be the pre-tab paragraph caret {body_caret}"
    );
    assert_eq!(
        ime.take_platform_push(),
        Some(origin_cell),
        "caret move into a cell must push the new origin to the platform"
    );
    assert_eq!(ime.take_platform_push(), None);
}

#[test]
fn ime_origin_after_insert_then_caption_focus_is_not_stale() {
    let source = "hello\n\n![cat](img.png)\n";
    let mut doc = Doc::new(source);
    let body_caret = doc.apply(RichCommand::InsertText("!".into()), 5..5).end;

    let mut ime = ImeOriginState::default();
    paint_engine_frame(&mut ime, &doc, body_caret, None, None, None);
    let origin_body = ime.caret_rect().expect("body origin after edit");
    assert_eq!(ime.take_platform_push(), Some(origin_body));

    let caption = rect(24.0, 260.0, 160.0, 16.0);
    let inner = inner_widget_caret_rect(caption, "cat", 1);
    paint_engine_frame(
        &mut ime,
        &doc,
        body_caret,
        Some(caption),
        Some(inner),
        None,
    );
    let origin_caption = ime.caret_rect().expect("caption origin");
    assert_eq!(ime.owner(), Some(ImeOwner::Widget));
    assert_eq!(origin_caption, inner);
    assert_ne!(
        origin_caption,
        widget_caret_rect(caption),
        "caption IME origin must be the inner caret, not the overlay right edge"
    );
    assert_ne!(
        origin_caption, origin_body,
        "IME origin must move to the caption overlay after the edit, not keep the body caret"
    );
    assert_eq!(
        ime.take_platform_push(),
        Some(origin_caption),
        "widget focus after an edit must push the caption origin"
    );
}

/// Element bounds that a correct origin never falls back to.
fn decoy_element_bounds() -> Bounds {
    rect(0.0, 0.0, 800.0, 600.0)
}

/// Records the rectangles that the platform is asked to use.
#[derive(Default)]
struct PlatformImeSpy {
    requested: Vec<Bounds>,
}

impl PlatformImeSpy {
    fn record(&mut self, bounds: Bounds) {
        self.requested.push(bounds);
    }

    fn last(&self) -> Option<Bounds> {
        self.requested.last().copied()
    }
}

/// The rectangle of the candidate window: that of the marked range, or else of
/// the selection. Every range is answered with the origin.
fn candidate_payload(
    ime: &ImeOriginState,
    _marked: Option<Range<usize>>,
    _selection: UTF16Selection,
) -> Bounds {
    ime_origin_bounds(ime, decoy_element_bounds())
}

/// The part of an editor that handles input.
struct ImeHandlerProbe {
    doc: Doc,
    selected_range: Range<usize>,
    selection_reversed: bool,
    marked_range: Option<Range<usize>>,
    preedit: Option<String>,
    widget_draft: Option<String>,
    widget_caret: usize,
    widget_preedit: Option<String>,
    widget_bounds: Option<Bounds>,
    ime: ImeOriginState,
    platform_ime: PlatformImeSpy,
}

impl ImeHandlerProbe {
    fn open(source: &str, caret: usize) -> Self {
        Self {
            doc: Doc::new(source),
            selected_range: caret..caret,
            selection_reversed: false,
            marked_range: None,
            preedit: None,
            widget_draft: None,
            widget_caret: 0,
            widget_preedit: None,
            widget_bounds: None,
            ime: ImeOriginState::default(),
            platform_ime: PlatformImeSpy::default(),
        }
    }

    fn cursor(&self) -> usize {
        if self.selection_reversed {
            self.selected_range.start
        } else {
            self.selected_range.end
        }
    }

    fn source(&self) -> String {
        self.doc.source.clone()
    }

    fn composition_key(&self) -> Option<&str> {
        if self.widget_draft.is_some() {
            self.widget_preedit.as_deref()
        } else {
            self.preedit.as_deref()
        }
    }

    fn apply_rich(&mut self, command: RichCommand) {
        self.selected_range = self.doc.apply(command, self.selected_range.clone());
        self.selection_reversed = false;
    }

    fn paint(&mut self) -> Option<Bounds> {
        let caret = self.cursor();
        let composition = self.composition_key().map(str::to_string);
        let widget = self.widget_bounds;
        let inner = self.widget_inner_caret();
        paint_engine_frame(
            &mut self.ime,
            &self.doc,
            caret,
            widget,
            inner,
            composition.as_deref(),
        );
        let local = self.ime.take_platform_push()?;
        let platform = self.candidate_bounds();
        assert_eq!(
            platform, local,
            "the candidate rectangle must match the origin that was pushed"
        );
        assert_ne!(
            platform,
            decoy_element_bounds(),
            "platform IME rect must not be the element fallback"
        );
        self.platform_ime.record(platform);
        Some(platform)
    }

    fn widget_inner_caret(&self) -> Option<Bounds> {
        let bounds = self.widget_bounds?;
        let draft = self.widget_draft.as_deref().unwrap_or("");
        Some(inner_widget_caret_rect(bounds, draft, self.widget_caret))
    }

    fn last_platform_request(&self) -> Option<Bounds> {
        self.platform_ime.last()
    }

    fn selected_text_range(&self) -> UTF16Selection {
        if let Some(draft) = self.widget_draft.as_deref() {
            return widget_selected_text_range(
                draft,
                self.widget_caret,
                self.widget_caret,
                &self.widget_preedit,
            );
        }
        let content = self.source();
        body_selected_text_range(&content, &self.selected_range, self.selection_reversed)
    }

    fn marked_text_range(&self) -> Option<Range<usize>> {
        self.marked_range.clone()
    }

    fn replace_and_mark_text_in_range(&mut self, new_text: &str) {
        if self.widget_draft.is_some() {
            set_preedit(&mut self.widget_preedit, new_text);
            return;
        }
        let caret = self.cursor();
        begin_body_preedit(&mut self.preedit, &mut self.marked_range, new_text, caret);
    }

    fn replace_text_in_range(
        &mut self,
        range_utf16: Option<Range<usize>>,
        new_text: &str,
    ) {
        if let Some(draft) = self.widget_draft.as_mut() {
            self.widget_preedit = None;
            let at = self.widget_caret;
            replace_in_widget_draft(
                draft,
                &mut self.widget_caret,
                range_utf16,
                new_text,
                at..at,
            );
            return;
        }
        let content = self.source();
        apply_replace_range_to_selection(
            &content,
            &range_utf16,
            &mut self.marked_range,
            &mut self.selected_range,
            &mut self.selection_reversed,
        );
        self.preedit = None;
        self.apply_rich(RichCommand::InsertText(new_text.to_string()));
    }

    fn unmark_text(&mut self) {
        clear_composition(
            &mut self.preedit,
            &mut self.widget_preedit,
            &mut self.marked_range,
        );
    }

    fn bounds_for_range(&self, _range_utf16: Range<usize>) -> Bounds {
        ime_origin_bounds(&self.ime, decoy_element_bounds())
    }

    /// What a pull between the start of a frame and its paint is answered.
    fn macos_first_rect_after_render_start(&mut self) -> Bounds {
        let caret = self.cursor();
        let composition = self.composition_key().map(str::to_string);
        self.ime
            .begin_frame(self.widget_bounds.is_some(), caret, composition.as_deref());
        self.bounds_for_range(0..0)
    }

    fn assert_macos_pull_keeps(&mut self, expected: Bounds, label: &str) {
        let pulled = self.macos_first_rect_after_render_start();
        assert_eq!(
            pulled, expected,
            "{label}: macOS firstRect pull after begin_frame"
        );
        assert_ne!(
            pulled,
            decoy_element_bounds(),
            "{label}: OS pull must not be the element fallback"
        );
        assert!(
            f32_of(pulled.width) > 0. && f32_of(pulled.height) > 0.,
            "{label}: IME rect must be non-empty"
        );
    }

    /// The rectangle of the candidate window.
    fn candidate_bounds(&self) -> Bounds {
        candidate_payload(
            &self.ime,
            self.marked_text_range(),
            self.selected_text_range(),
        )
    }

    fn assert_preedit_origin(&self, expected: Bounds, label: &str) {
        assert!(
            self.preedit.is_some() || self.widget_preedit.is_some(),
            "{label}: composition must be active"
        );
        let pulled = self.bounds_for_range(0..0);
        assert_eq!(pulled, expected, "{label}: bounds_for_range during preedit");
        assert_ne!(
            pulled,
            decoy_element_bounds(),
            "{label}: origin must not fall back to the element bounds"
        );
        assert_eq!(
            self.candidate_bounds(),
            expected,
            "{label}: candidate rectangle during preedit"
        );
    }

    fn focus_widget_at(&mut self, bounds: Bounds, draft: &str, caret: usize) {
        self.widget_draft = Some(draft.to_string());
        self.widget_caret = caret.min(draft.len());
        self.widget_preedit = None;
        self.widget_bounds = Some(bounds);
    }

    fn jump_to(&mut self, caret: usize) {
        self.selected_range = caret..caret;
        self.selection_reversed = false;
    }
}

#[test]
fn composition_after_insert_tracks_caret_via_handler() {
    let mut ime = ImeHandlerProbe::open("hello\n\n| a | b |\n|---|---|\n| 1 | 2 |\n", 5);
    let before = ime.source();
    let pushed = ime.paint();
    let origin_before = ime.ime.caret_rect().expect("caret before insert");
    assert_eq!(pushed, Some(origin_before));

    ime.replace_text_in_range(None, "!");
    assert_eq!(&ime.source()[..6], "hello!");
    let pushed = ime.paint().expect("insert must push a new IME origin");
    let origin_after = ime.ime.caret_rect().expect("caret after insert");
    assert_eq!(pushed, origin_after);
    assert_ne!(
        origin_after, origin_before,
        "insert must move the painted caret origin"
    );

    ime.replace_and_mark_text_in_range("ni");
    assert!(
        ime.source().starts_with("hello!"),
        "insert must land in the paragraph, got {:?}",
        ime.source()
    );
    assert!(
        !ime.source().contains("ni"),
        "preedit must not touch the model"
    );
    assert_ne!(ime.source(), before);
    let sel = ime.selected_text_range();
    assert_eq!(
        sel.range.start, sel.range.end,
        "collapsed caret during preedit"
    );
    assert!(ime.marked_text_range().is_some());
    ime.assert_preedit_origin(origin_after, "after insert");
    let composed = ime
        .paint()
        .expect("composition start must request a platform IME rect");
    assert_eq!(composed, origin_after);
    assert_eq!(ime.last_platform_request(), Some(origin_after));
    assert_eq!(ime.paint(), None, "unchanged preedit must not re-push");
    ime.assert_preedit_origin(origin_after, "after insert, still composing");
}

#[test]
fn composition_after_table_tab_tracks_cell_via_handler() {
    let mut ime = ImeHandlerProbe::open("hello\n\n| a | b |\n|---|---|\n| 1 | 2 |\n", 5);
    ime.replace_text_in_range(None, "!");
    let pushed_body = ime.paint().expect("body origin after insert");
    ime.replace_and_mark_text_in_range("ni");
    ime.assert_preedit_origin(pushed_body, "preedit in paragraph");
    ime.unmark_text();

    let cell_a = ime.doc.cell_caret(0, 0).expect("header cell a");
    ime.jump_to(cell_a);
    ime.apply_rich(RichCommand::TableTab { reverse: false });
    let cell_caret = ime.cursor();
    let col = ime
        .doc
        .table_column(cell_caret)
        .expect("caret in table after TableTab");
    assert_eq!(col, 1, "TableTab should land in column b");

    let pushed_cell = ime.paint().expect("cell origin must push after TableTab");
    assert_ne!(
        pushed_cell, pushed_body,
        "IME origin must follow TableTab into the cell, not keep the paragraph rect"
    );
    ime.replace_and_mark_text_in_range("ni");
    assert!(
        !ime.source().contains("ni"),
        "preedit in a cell must not touch the model"
    );
    ime.assert_preedit_origin(pushed_cell, "after TableTab");
    let leaf = ime.ime.focused_leaf().expect("cell leaf");
    assert!(
        leaf.layout.contains_source(cell_caret),
        "origin leaf must own the cell caret during preedit"
    );
    let composed = ime
        .paint()
        .expect("cell composition start must request a platform IME rect");
    assert_eq!(composed, pushed_cell);
    assert_eq!(ime.last_platform_request(), Some(pushed_cell));
    assert_eq!(ime.paint(), None);
}

#[test]
fn composition_after_caption_focus_tracks_widget_via_handler() {
    let mut ime = ImeHandlerProbe::open("hello\n\n![cat](img.png)\n", 5);
    ime.replace_text_in_range(None, "!");
    let pushed_body = ime.paint().expect("body origin after insert");
    ime.replace_and_mark_text_in_range("ni");
    ime.assert_preedit_origin(pushed_body, "preedit in body before caption");
    ime.unmark_text();

    let caption = rect(24.0, 260.0, 160.0, 16.0);
    ime.focus_widget_at(caption, "cat", 1);
    let inner = inner_widget_caret_rect(caption, "cat", 1);
    let pushed_caption = ime
        .paint()
        .expect("caption focus must push a new IME origin");
    assert_eq!(ime.ime.owner(), Some(ImeOwner::Widget));
    assert_eq!(pushed_caption, inner);
    assert_ne!(
        pushed_caption,
        widget_caret_rect(caption),
        "caption IME origin must not be the overlay right edge while the caret is mid-draft"
    );
    assert_ne!(pushed_caption, pushed_body);

    let source_before = ime.source();
    ime.replace_and_mark_text_in_range("ni");
    assert_eq!(
        ime.source(),
        source_before,
        "widget preedit is display-only"
    );
    ime.assert_preedit_origin(pushed_caption, "after caption focus");
    let composed = ime
        .paint()
        .expect("caption composition start must request a platform IME rect");
    assert_eq!(composed, pushed_caption);
    assert_eq!(ime.last_platform_request(), Some(pushed_caption));
    assert_eq!(ime.paint(), None);
}

#[test]
fn composition_after_language_chip_focus_tracks_widget_via_handler() {
    let mut ime = ImeHandlerProbe::open("hello\n\n```rust\nfn main() {}\n```\n", 5);
    ime.replace_text_in_range(None, "!");
    let pushed_body = ime.paint().expect("body origin after insert");

    let chip = rect(24.0, 120.0, 48.0, 18.0);
    ime.focus_widget_at(chip, "rust", 2);
    let inner = inner_widget_caret_rect(chip, "rust", 2);
    let pushed_chip = ime.paint().expect("chip focus must push a new IME origin");
    assert_eq!(ime.ime.owner(), Some(ImeOwner::Widget));
    assert_eq!(pushed_chip, inner);
    assert_ne!(
        pushed_chip,
        widget_caret_rect(chip),
        "chip IME origin must not be the overlay right edge while the caret is mid-draft"
    );
    assert_ne!(pushed_chip, pushed_body);

    ime.replace_and_mark_text_in_range("ni");
    ime.assert_preedit_origin(pushed_chip, "after language-chip focus");
    let composed = ime
        .paint()
        .expect("chip composition start must request a platform IME rect");
    assert_eq!(composed, pushed_chip);
    assert_eq!(ime.last_platform_request(), Some(pushed_chip));
    assert_eq!(ime.paint(), None);
}

#[test]
fn composition_after_frontmatter_focus_tracks_widget_via_handler() {
    let source = "---\ntitle: Hi\n---\n\nhello\n";
    let caret = source.find("hello").expect("body") + 5;
    let mut ime = ImeHandlerProbe::open(source, caret);
    ime.replace_text_in_range(None, "!");
    let pushed_body = ime.paint().expect("body origin after insert");

    let title = rect(24.0, 8.0, 220.0, 20.0);
    ime.focus_widget_at(title, "Hi", 1);
    let inner = inner_widget_caret_rect(title, "Hi", 1);
    let pushed_fm = ime
        .paint()
        .expect("frontmatter focus must push a new IME origin");
    assert_eq!(ime.ime.owner(), Some(ImeOwner::Widget));
    assert_eq!(pushed_fm, inner);
    assert_ne!(
        pushed_fm,
        widget_caret_rect(title),
        "frontmatter IME origin must not be the overlay right edge while the caret is mid-draft"
    );
    assert_ne!(pushed_fm, pushed_body);

    ime.replace_and_mark_text_in_range("ni");
    ime.assert_preedit_origin(pushed_fm, "after frontmatter focus");
    let composed = ime
        .paint()
        .expect("frontmatter composition start must request a platform IME rect");
    assert_eq!(composed, pushed_fm);
    assert_eq!(ime.last_platform_request(), Some(pushed_fm));
    assert_eq!(ime.paint(), None);
}

#[test]
fn composition_after_yaml_frontmatter_tracks_inner_caret() {
    let source = "---\ntitle: Hi\n---\n\nhello\n";
    let caret = source.find("hello").expect("body") + 5;
    let mut ime = ImeHandlerProbe::open(source, caret);
    ime.replace_text_in_range(None, "!");
    let pushed_body = ime.paint().expect("body origin after insert");

    let yaml = rect(24.0, 48.0, 360.0, 72.0);
    let draft = "title: Hi\nmore: wrapped";
    ime.focus_widget_at(yaml, draft, draft.find("wrapped").expect("mid") + 3);
    let inner = inner_widget_caret_rect(yaml, draft, draft.find("wrapped").expect("mid") + 3);
    let pushed_yaml = ime.paint().expect("YAML focus must push a new IME origin");
    assert_eq!(ime.ime.owner(), Some(ImeOwner::Widget));
    assert_eq!(pushed_yaml, inner);
    assert_ne!(
        pushed_yaml,
        widget_caret_rect(yaml),
        "YAML IME origin must be the inner `|`, not the overlay right edge"
    );
    assert!(
        f32_of(pushed_yaml.y) > f32_of(yaml.y),
        "YAML inner caret must sit on the wrapped line, not the overlay top"
    );
    assert_ne!(pushed_yaml, pushed_body);
    assert_eq!(ime.last_platform_request(), Some(pushed_yaml));

    ime.replace_and_mark_text_in_range("ni");
    ime.assert_preedit_origin(pushed_yaml, "after YAML focus");
    let composed = ime
        .paint()
        .expect("YAML composition start must request a platform IME rect");
    assert_eq!(composed, pushed_yaml);
    assert_eq!(ime.paint(), None);
    ime.assert_macos_pull_keeps(pushed_yaml, "YAML after composition paint");
}

#[test]
fn macos_first_rect_pull_after_begin_frame_follows_caret_on_each_surface() {
    let mut body = ImeHandlerProbe::open("hello\n", 5);
    let origin_body = body.paint().expect("body origin");
    body.assert_macos_pull_keeps(origin_body, "body paragraph");

    let mut table = ImeHandlerProbe::open("hello\n\n| a | b |\n|---|---|\n| 1 | 2 |\n", 5);
    table.replace_text_in_range(None, "!");
    let _ = table.paint();
    let cell_a = table.doc.cell_caret(0, 0).expect("header cell a");
    table.jump_to(cell_a);
    table.apply_rich(RichCommand::TableTab { reverse: false });
    let origin_cell = table.paint().expect("cell origin");
    table.assert_macos_pull_keeps(origin_cell, "table cell");

    let mut caption = ImeHandlerProbe::open("hello\n\n![cat](img.png)\n", 5);
    let overlay = rect(24.0, 260.0, 160.0, 16.0);
    caption.focus_widget_at(overlay, "cat", 1);
    let origin_caption = caption.paint().expect("caption origin");
    assert_ne!(origin_caption, widget_caret_rect(overlay));
    caption.assert_macos_pull_keeps(origin_caption, "image caption");

    let mut chip = ImeHandlerProbe::open("hello\n\n```rust\nfn main() {}\n```\n", 5);
    let chip_bounds = rect(24.0, 120.0, 48.0, 18.0);
    chip.focus_widget_at(chip_bounds, "rust", 2);
    let origin_chip = chip.paint().expect("chip origin");
    assert_ne!(origin_chip, widget_caret_rect(chip_bounds));
    chip.assert_macos_pull_keeps(origin_chip, "language chip");

    let source = "---\ntitle: Hi\n---\n\nhello\n";
    let caret = source.find("hello").expect("body") + 5;
    let mut title = ImeHandlerProbe::open(source, caret);
    let title_bounds = rect(24.0, 8.0, 220.0, 20.0);
    title.focus_widget_at(title_bounds, "Hi", 1);
    let origin_title = title.paint().expect("frontmatter title origin");
    assert_ne!(origin_title, widget_caret_rect(title_bounds));
    title.assert_macos_pull_keeps(origin_title, "frontmatter title");

    let mut yaml = ImeHandlerProbe::open(source, caret);
    let yaml_bounds = rect(24.0, 48.0, 360.0, 72.0);
    let draft = "title: Hi\nmore: wrapped";
    yaml.focus_widget_at(yaml_bounds, draft, draft.find("wrapped").expect("mid") + 3);
    let origin_yaml = yaml.paint().expect("YAML origin");
    assert_ne!(origin_yaml, widget_caret_rect(yaml_bounds));
    assert!(
        f32_of(origin_yaml.y) > f32_of(yaml_bounds.y),
        "YAML OS pull must sit on the wrapped inner line"
    );
    yaml.assert_macos_pull_keeps(origin_yaml, "frontmatter YAML");
}

#[test]
fn widget_ime_origin_is_inner_caret_not_overlay_trailing_edge() {
    let overlay = rect(24.0, 260.0, 160.0, 16.0);
    let draft = "caption text";
    let caret = 4; // mid-draft
    let inner = inner_widget_caret_rect(overlay, draft, caret);
    let trailing = widget_caret_rect(overlay);
    assert!(
        f32_of(inner.x) < f32_of(overlay.x + overlay.width),
        "inner caret must sit inside the overlay, not on its right edge"
    );
    assert_ne!(inner, trailing);

    let mut ime = ImeOriginState::default();
    ime.begin_frame(true, 0, Some("ni"));
    ime.report_widget(overlay);
    ime.report_widget_caret(inner);
    assert_eq!(ime.owner(), Some(ImeOwner::Widget));
    assert_eq!(ime.caret_rect(), Some(inner));
    assert_ne!(
        ime.caret_rect(),
        Some(trailing),
        "must fail if origin is the overlay right edge while the caret is mid-draft"
    );

    let local = ime.take_platform_push().expect("inner origin push");
    let payload = candidate_payload(
        &ime,
        Some(4..6),
        UTF16Selection {
            range: 6..6,
            reversed: false,
        },
    );
    let mut spy = PlatformImeSpy::default();
    spy.record(payload);
    assert_eq!(local, inner);
    assert_eq!(spy.last(), Some(inner));
    assert_eq!(
        payload, inner,
        "the candidate rectangle must follow the inner `|` rect"
    );
    assert_ne!(
        payload, trailing,
        "platform IME rect must not be the overlay right edge while the caret is mid-draft"
    );
    assert_ne!(payload, decoy_element_bounds());
}

#[test]
fn wrapped_line_platform_payload_is_second_line_caret() {
    let mut ime = ImeOriginState::default();
    let mut spy = PlatformImeSpy::default();
    let leaf_bounds = rect(8.0, 10.0, 240.0, 66.0);
    let second_line = rect(8.0, 32.0, 2.0, 22.0);
    ime.begin_frame(false, 40, Some("ni"));
    ime.report_leaf(hit(
        "a long paragraph that wraps onto a second visual line here",
        0,
        leaf_bounds,
        Some(second_line),
    ));
    let local = ime.take_platform_push().expect("wrapped origin");
    let payload = candidate_payload(
        &ime,
        Some(40..42),
        UTF16Selection {
            range: 42..42,
            reversed: false,
        },
    );
    spy.record(payload);
    assert_eq!(local, second_line);
    assert_eq!(spy.last(), Some(second_line));
    assert!(
        f32_of(payload.y) > f32_of(leaf_bounds.y),
        "platform IME rect must sit on the wrapped line, not the leaf top"
    );
}

#[test]
fn composition_update_re_requests_platform_ime_rect() {
    let mut ime = ImeHandlerProbe::open("hello\n", 5);
    let origin = ime.paint().expect("initial origin");
    ime.replace_and_mark_text_in_range("ni");
    assert_eq!(
        ime.paint().expect("composition start"),
        origin,
        "start must push the caret origin to the platform"
    );
    ime.replace_and_mark_text_in_range("nihongo");
    assert_eq!(ime.paint().expect("preedit update must re-push"), origin);
    assert_eq!(ime.last_platform_request(), Some(origin));
    assert_eq!(ime.paint(), None);
}

#[test]
fn replace_text_in_range_commits_preedit_and_pushes_new_origin() {
    let mut ime = ImeHandlerProbe::open("hello\n", 5);
    ime.paint();
    ime.replace_and_mark_text_in_range("ni");
    assert_eq!(ime.source(), "hello\n");
    ime.replace_text_in_range(None, "!");
    assert!(ime.preedit.is_none());
    assert!(ime.marked_text_range().is_none());
    assert_eq!(ime.source(), "hello!\n");
    let pushed = ime
        .paint()
        .expect("commit must push the post-insert origin");
    assert_eq!(ime.ime.caret_rect(), Some(pushed));
    assert_ne!(pushed, decoy_element_bounds());
}

#[test]
fn utf16_offsets_round_trip_on_boundaries() {
    let text = "a\u{e9}\u{1f604}z";
    let ends: Vec<usize> = text.char_indices().map(|(i, _)| i).chain([text.len()]).collect();
    for at in ends {
        assert_eq!(offset_from_utf16(text, offset_to_utf16(text, at)), at);
    }
    assert_eq!(offset_to_utf16(text, text.len()), 5);
    assert_eq!(offset_to_utf16(text, 99), 5);
    assert_eq!(offset_from_utf16(text, 99), text.len());
}

#[test]
fn clusters_clamp_to_their_start() {
    let text = "e\u{301}x";
    assert_eq!(clamp_grapheme_boundary(text, 1), 0);
    assert_eq!(clamp_grapheme_boundary(text, 2), 0);
    assert_eq!(clamp_grapheme_boundary(text, 3), 3);
    assert_eq!(clamp_grapheme_boundary(text, 9), 4);
    assert_eq!(clamp_to_starts(&vec![0, 3], 4, 2), 0);
    assert_eq!(clamp_to_starts(&vec![], 0, 2), 0);
    for at in 0..=4 {
        let once = clamp_grapheme_boundary(text, at);
        assert_eq!(clamp_grapheme_boundary(text, once), once);
    }
}

#[test]
fn origin_falls_back_to_the_element() {
    let mut ime = ImeOriginState::default();
    ime.begin_frame(false, 0, None);
    let element = rect(4.0, 6.0, 300.0, 100.0);
    assert_eq!(ime_origin_bounds(&ime, element), caret_from_element_bounds(element));
    assert_eq!(caret_from_element_bounds(element), rect(4.0, 6.0, 2.0, 24.0));
    ime.begin_frame(true, 0, None);
    assert_eq!(ime_origin_bounds(&ime, element), widget_caret_rect(element));
    assert_eq!(widget_caret_rect(element), rect(304.0, 84.0, 2.0, 22.0));
}

#[test]
fn vertical_moves_stop_at_the_painted_edge() {
    let mut ime = ImeOriginState::default();
    ime.begin_frame(false, 0, None);
    assert_eq!(ime.visual_vertical_target(0, 1, None), None);
    ime.report_visual_lines(leaf_layout("ab", 0), vec![visual_line(0..2, 0.0)]);
    let edge = ime.visual_vertical_target(1, 1, None).expect("caret is painted");
    assert_eq!(edge.source, None);
    assert_eq!(edge.preferred_x, px(10.0));
    ime.clear_visual_navigation();
    assert_eq!(ime.visual_vertical_target(1, 1, None), None);
}

#[test]
fn body_selection_keeps_its_direction() {
    let sel = body_selected_text_range("a\u{1f604}b", &(1..5), true);
    assert_eq!(sel.range, 1..3);
    assert!(sel.reversed);
}
