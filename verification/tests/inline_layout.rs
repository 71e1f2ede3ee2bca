use std::ops::Range;

use markrust_wysiwyg::geometry::PX;
use markrust_wysiwyg::inline_layout::{
    classify_paragraph, image_role, inline_image_height, inline_segments, pack_runs, visual_image,
    ImageRole, InlineSegment, ParagraphFlow, BLOCK_IMAGE_MAX_HEIGHT, BLOCK_IMAGE_MAX_WIDTH,
};
use markrust_wysiwyg::style::{MarkFidelity, MarkSet};
use markrust_wysiwyg::tree::{HtmlImage, Inline};

fn px(v: f32) -> i64 {
    (v * PX as f32) as i64
}

fn run(text: &str, source_range: Range<usize>) -> Inline {
    Inline::Run {
        text: text.to_string(),
        raw: None,
        source_range,
        marks: MarkSet::empty(),
        link: None,
        fidelity: MarkFidelity::default(),
    }
}

fn image(alt: &str, url: &str, source_range: Range<usize>) -> Inline {
    Inline::Image {
        alt: alt.to_string(),
        url: url.to_string(),
        source_range,
        marks: MarkSet::empty(),
        link: None,
    }
}

/// The inlines of a one-paragraph document whose only markup are images
/// `![alt](url)`. Space at the ends of the line is not part of it.
fn import(source: &str) -> Vec<Inline> {
    let line = source.trim_end_matches('\n');
    let end = line.trim_end_matches(' ').len();
    let mut at = line.len() - line.trim_start_matches(' ').len();
    let mut out = Vec::new();
    while let Some(open) = line[at..end].find("![").map(|i| at + i) {
        let mid = open + line[open..].find("](").expect("](");
        let close = mid + line[mid..].find(')').expect(")");
        if at < open {
            out.push(run(&line[at..open], at..open));
        }
        out.push(image(&line[open + 2..mid], &line[mid + 2..close], open..close + 1));
        at = close + 1;
    }
    if at < end {
        out.push(run(&line[at..end], at..end));
    }
    out
}

/// Average glyph width used only to size mixed runs in layout tests.
const GLYPH_EM: f32 = 0.5;

fn estimate_mixed_widths(inlines: &[Inline], font_size: f32) -> Vec<i64> {
    let mut widths = Vec::new();
    for seg in inline_segments(inlines) {
        match seg {
            InlineSegment::Text { start, end } => {
                let mut n = 0usize;
                for inline in &inlines[start..end] {
                    match inline {
                        Inline::Run { text, .. } => n += text.chars().count(),
                        Inline::Math { literal, .. } => n += literal.chars().count(),
                        Inline::OpaqueInline { raw, .. } => n += raw.chars().count(),
                        Inline::SoftBreak { .. } | Inline::HardBreak { .. } => n += 1,
                        _ => {}
                    }
                }
                if n > 0 {
                    widths.push(px(n as f32 * font_size * GLYPH_EM));
                }
            }
            InlineSegment::Image { .. } => widths.push(inline_image_height(px(font_size))),
        }
    }
    widths
}

fn visual_rows(source: &str, container: f32, font_size: f32) -> usize {
    let inlines = import(source);
    match classify_paragraph(&inlines) {
        ParagraphFlow::TextOnly => 1,
        ParagraphFlow::Standalone => {
            inlines.iter().filter(|i| visual_image(i).is_some()).count().max(1)
        }
        ParagraphFlow::Mixed => {
            let widths = estimate_mixed_widths(&inlines, font_size);
            pack_runs(&widths, px(container)).len()
        }
    }
}

#[test]
fn mixed_hello_image_world_is_one_visual_row() {
    let font = 16.0;
    let container = 480.0;
    assert_eq!(
        classify_paragraph(&import("hello ![x](a.png) world\n")),
        ParagraphFlow::Mixed
    );
    assert_eq!(
        visual_rows("hello ![x](a.png) world\n", container, font),
        1,
        "small inline image must sit on the same row as adjacent text"
    );
    let segs = inline_segments(&import("hello ![x](a.png) world\n"));
    assert_eq!(segs.len(), 3);
    assert!(matches!(segs[0], InlineSegment::Text { .. }));
    assert!(matches!(segs[1], InlineSegment::Image { .. }));
    assert!(matches!(segs[2], InlineSegment::Text { .. }));
}

#[test]
fn standalone_image_paragraph_is_block_sized() {
    let inlines = import("![x](a.png)\n");
    assert_eq!(classify_paragraph(&inlines), ParagraphFlow::Standalone);
    assert_eq!(
        image_role(ParagraphFlow::Standalone),
        Some(ImageRole::Block)
    );
    assert_eq!(visual_rows("![x](a.png)\n", 480.0, 16.0), 1);
    assert!(
        BLOCK_IMAGE_MAX_HEIGHT > inline_image_height(px(16.0)) * 4,
        "standalone cap ({BLOCK_IMAGE_MAX_HEIGHT}) must dwarf inline 1.5em ({})",
        inline_image_height(px(16.0))
    );
}

#[test]
fn whitespace_only_around_image_is_standalone() {
    let inlines = import(" ![x](a.png) \n");
    assert_eq!(classify_paragraph(&inlines), ParagraphFlow::Standalone);
    let spaced = vec![run(" ", 0..1), image("x", "a.png", 1..12), run("\u{a0}\t", 12..15)];
    assert_eq!(classify_paragraph(&spaced), ParagraphFlow::Standalone);
}

#[test]
fn inline_height_is_between_1_2_and_1_5_em() {
    let font = 16.0;
    let h = inline_image_height(px(font)) as f32 / PX as f32;
    assert!(h >= font * 1.2 - f32::EPSILON);
    assert!(h <= font * 1.5 + f32::EPSILON);
}

#[test]
fn mixed_role_is_inline() {
    assert_eq!(image_role(ParagraphFlow::Mixed), Some(ImageRole::Inline));
    assert_eq!(image_role(ParagraphFlow::TextOnly), None);
}

#[test]
fn small_runs_pack_as_one_row() {
    let rows = pack_runs(&[px(40.0), px(24.0), px(40.0)], px(200.0));
    assert_eq!(rows, vec![0..3]);
}

#[test]
fn runs_wrap_as_units() {
    let rows = pack_runs(&[px(300.0), px(50.0), px(300.0)], px(400.0));
    assert_eq!(rows, vec![0..2, 2..3]);
}

#[test]
fn oversized_run_keeps_its_own_row() {
    let rows = pack_runs(&[px(500.0), px(20.0)], px(400.0));
    assert_eq!(rows, vec![0..1, 1..2]);
}

#[test]
fn long_mixed_text_wraps_the_image_as_a_unit() {
    let long = format!("{} ![x](a.png) z\n", "aaaaa ".repeat(40));
    let font = 16.0;
    assert!(
        visual_rows(&long, 240.0, font) > 1,
        "a long mixed paragraph must wrap rather than stay one overflowing row"
    );
    assert_eq!(
        classify_paragraph(&import(&long)),
        ParagraphFlow::Mixed
    );
}

#[test]
fn image_sizes_are_exact() {
    assert_eq!(inline_image_height(px(16.0)), px(24.0));
    assert_eq!(inline_image_height(3), 4);
    assert_eq!(inline_image_height(i64::MAX), i64::MAX);
    assert_eq!(BLOCK_IMAGE_MAX_HEIGHT, px(480.0));
    assert_eq!(BLOCK_IMAGE_MAX_WIDTH, px(720.0));
}

#[test]
fn segments_cover_every_inline_once() {
    let inlines = vec![
        image("a", "a.png", 0..3),
        image("b", "b.png", 3..6),
        run("x", 6..7),
        run("y", 7..8),
        image("c", "c.png", 8..11),
        run("z", 11..12),
    ];
    assert_eq!(
        inline_segments(&inlines),
        vec![
            InlineSegment::Image { index: 0 },
            InlineSegment::Image { index: 1 },
            InlineSegment::Text { start: 2, end: 4 },
            InlineSegment::Image { index: 4 },
            InlineSegment::Text { start: 5, end: 6 },
        ]
    );
    assert!(inline_segments(&[]).is_empty());
}

#[test]
fn packing_ignores_negative_widths_and_containers() {
    assert_eq!(pack_runs(&[-5, 10, -1, 10], 20), vec![0..4]);
    assert_eq!(pack_runs(&[0, 0, 1], -7), vec![0..2, 2..3]);
    assert!(pack_runs(&[], 10).is_empty());
}

#[test]
fn html_images_and_glyphs_count() {
    let html = Inline::OpaqueInline {
        raw: "<img src=\"a.png\" alt=\"cat\">".to_string(),
        source_range: 2..29,
        marks: MarkSet::empty(),
        image: Some(HtmlImage { url: "a.png".to_string(), alt: "cat".to_string() }),
        caret_chrome: false,
    };
    assert_eq!(
        visual_image(&html),
        Some(("cat".to_string(), "a.png".to_string(), 2..29))
    );
    let emoji = Inline::Emoji {
        glyph: "\u{1f604}".to_string(),
        raw: ":smile:".to_string(),
        source_range: 30..37,
        marks: MarkSet::empty(),
        link: None,
        fidelity: MarkFidelity::default(),
    };
    let chrome = Inline::OpaqueInline {
        raw: "<b>".to_string(),
        source_range: 0..3,
        marks: MarkSet::empty(),
        image: None,
        caret_chrome: true,
    };
    assert_eq!(classify_paragraph(&[html.clone(), emoji]), ParagraphFlow::Mixed);
    assert_eq!(classify_paragraph(&[chrome, html]), ParagraphFlow::Standalone);
    assert_eq!(classify_paragraph(&[run("a", 0..1)]), ParagraphFlow::TextOnly);
}
