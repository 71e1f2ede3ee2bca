//! The text and the images of one paragraph, and how an image is shown.

use std::ops::Range;

use vstd::prelude::*;
use vstd::string::*;
use vstd::utf8::*;

use crate::approve::joined;
use crate::block_layout::{build_leaf_layout_revealed, BlockInput};
use crate::image_source::ResolvedImage;
use crate::inline_layout;
use crate::inline_layout::{
    classify_paragraph, inline_image_height, inline_segments, visual_image, ImageRole,
    InlineSegment, ParagraphFlow, BLOCK_IMAGE_MAX_HEIGHT, BLOCK_IMAGE_MAX_WIDTH,
};
use crate::layout::{LeafLayout, LeafView};
use crate::leaf::{build_leaf_layout_inlines, LeafInput};
use crate::geometry;
use crate::scene::RenderSnapshot;
use crate::text::{own, same};
use crate::tree::Inline;

verus! {

/// A piece of a paragraph.
pub enum ParagraphPart {
    /// Text. It hugs its width where it shares its row with images.
    Text { layout: LeafLayout, hug_width: bool },
    Image { alt: String, url: String, range: Range<usize>, role: ImageRole },
}

/// View of `ParagraphPart`.
pub enum PartView {
    Text { layout: LeafView, hug_width: bool },
    Image { alt: Seq<char>, url: Seq<char>, range: Range<usize>, role: ImageRole },
}

impl View for ParagraphPart {
    type V = PartView;

    open spec fn view(&self) -> PartView {
        match *self {
            ParagraphPart::Text { layout, hug_width } => PartView::Text {
                layout: layout@,
                hug_width,
            },
            ParagraphPart::Image { alt, url, range, role } => PartView::Image {
                alt: alt@,
                url: url@,
                range,
                role,
            },
        }
    }
}

/// Views of a list.
pub open spec fn part_views(parts: Seq<ParagraphPart>) -> Seq<PartView> {
    parts.map_values(|part: ParagraphPart| part@)
}

/// The image that an inline is.
pub open spec fn image_part(inline: Inline, role: ImageRole) -> PartView {
    match inline {
        Inline::Image { alt, url, .. } => PartView::Image {
            alt: alt@,
            url: url@,
            range: inline.span(),
            role,
        },
        Inline::OpaqueInline { image, .. } => PartView::Image {
            alt: (image->0).alt@,
            url: (image->0).url@,
            range: inline.span(),
            role,
        },
        _ => arbitrary(),
    }
}

/// The images among the first `n` inlines.
pub open spec fn images(inlines: Seq<Inline>, n: int) -> Seq<PartView>
    decreases n,
{
    if n <= 0 {
        Seq::empty()
    } else if inline_layout::is_image(inlines[n - 1]) {
        images(inlines, n - 1).push(image_part(inlines[n - 1], ImageRole::Block))
    } else {
        images(inlines, n - 1)
    }
}

/// Each segment of a mixed paragraph has its facts.
pub open spec fn segmented(x: BlockInput) -> bool {
    inline_layout::flow_of(x.block.inlines@) == ParagraphFlow::Mixed ==> {
        &&& x.facts.segments@.len() == inline_layout::segments_of(x.block.inlines@).len()
        &&& forall|k: int|
            0 <= k < x.facts.segments@.len() ==> (#[trigger] x.facts.segments@[k])@.len()
                == x.block.inlines@.len()
    }
}

/// The leaf that segment `k` of a mixed paragraph is painted from.
pub open spec fn segment_leaf<'a>(x: BlockInput<'a>, k: int) -> LeafInput<'a> {
    LeafInput { facts: &x.facts.segments@[k], ..x.as_leaf() }
}

/// The first `n` segments of a mixed paragraph. Text that paints nothing is
/// left out.
pub open spec fn mixed_parts(x: BlockInput, segments: Seq<InlineSegment>, n: int) -> Seq<PartView>
    decreases n,
{
    if n <= 0 {
        Seq::empty()
    } else {
        let before = mixed_parts(x, segments, n - 1);
        match segments[n - 1] {
            InlineSegment::Text { start, end } => {
                let layout = segment_leaf(x, n - 1).layout(start, end);
                if layout.text.len() == 0 {
                    before
                } else {
                    before.push(PartView::Text { layout, hug_width: true })
                }
            },
            InlineSegment::Image { index } => before.push(
                image_part(x.block.inlines@[index as int], ImageRole::Inline),
            ),
        }
    }
}

/// The pieces of a paragraph.
pub open spec fn parts_of(x: BlockInput) -> Seq<PartView> {
    let inlines = x.block.inlines@;
    match inline_layout::flow_of(inlines) {
        ParagraphFlow::TextOnly => seq![PartView::Text { layout: x.layout(), hug_width: false }],
        ParagraphFlow::Standalone => images(inlines, inlines.len() as int),
        ParagraphFlow::Mixed => {
            let segments = inline_layout::segments_of(inlines);
            mixed_parts(x, segments, segments.len() as int)
        },
    }
}

fn put(parts: &mut Vec<ParagraphPart>, part: ParagraphPart)
    ensures
        part_views(final(parts)@) == part_views(old(parts)@).push(part@),
{
    parts.push(part);
    assert(part_views(parts@) =~= part_views(old(parts)@).push(part@));
}

fn put_image(parts: &mut Vec<ParagraphPart>, inline: &Inline, role: ImageRole)
    ensures
        part_views(final(parts)@) == (if inline_layout::is_image(*inline) {
            part_views(old(parts)@).push(image_part(*inline, role))
        } else {
            part_views(old(parts)@)
        }),
{
    if let Some((alt, url, range)) = visual_image(inline) {
        put(parts, ParagraphPart::Image { alt, url, range, role });
    }
}

fn standalone(inlines: &Vec<Inline>) -> (parts: Vec<ParagraphPart>)
    ensures
        part_views(parts@) == images(inlines@, inlines@.len() as int),
{
    let mut parts: Vec<ParagraphPart> = Vec::new();
    assert(part_views(parts@) =~= Seq::<PartView>::empty());
    let mut i: usize = 0;
    while i < inlines.len()
        invariant
            i <= inlines@.len(),
            part_views(parts@) == images(inlines@, i as int),
        decreases inlines@.len() - i,
    {
        put_image(&mut parts, &inlines[i], ImageRole::Block);
        i = i + 1;
    }
    parts
}

fn mixed(x: &BlockInput) -> (parts: Vec<ParagraphPart>)
    requires
        inline_layout::flow_of(x.block.inlines@) == ParagraphFlow::Mixed,
        segmented(*x),
    ensures
        part_views(parts@) == mixed_parts(
            *x,
            inline_layout::segments_of(x.block.inlines@),
            inline_layout::segments_of(x.block.inlines@).len() as int,
        ),
{
    let inlines = &x.block.inlines;
    let n: usize = inlines.len();
    let segments = inline_segments(inlines.as_slice());
    proof {
        inline_layout::segments_are_sound(inlines@);
    }
    let mut parts: Vec<ParagraphPart> = Vec::new();
    assert(part_views(parts@) =~= Seq::<PartView>::empty());
    let mut k: usize = 0;
    while k < segments.len()
        invariant
            k <= segments@.len(),
            inline_layout::flow_of(inlines@) == ParagraphFlow::Mixed,
            segmented(*x),
            *inlines == x.block.inlines,
            n == inlines@.len(),
            segments@ == inline_layout::segments_of(inlines@),
            forall|j: int|
                0 <= j < segments@.len() ==> (#[trigger] segments@[j] matches InlineSegment::Image {
                    index,
                } ==> index < n && inline_layout::is_image(inlines@[index as int])),
            part_views(parts@) == mixed_parts(*x, segments@, k as int),
        decreases segments@.len() - k,
    {
        match segments[k] {
            InlineSegment::Text { start, end } => {
                let leaf = LeafInput { facts: &x.facts.segments[k], ..x.leaf() };
                assert(x.facts.segments@[k as int]@.len() == n);
                let layout = build_leaf_layout_inlines(&leaf, start, end);
                if layout.text.as_str().as_bytes().len() > 0 {
                    put(&mut parts, ParagraphPart::Text { layout, hug_width: true });
                }
            },
            InlineSegment::Image { index } => {
                assert(segments@[k as int] is Image);
                put_image(&mut parts, &inlines[index], ImageRole::Inline);
            },
        }
        k = k + 1;
    }
    parts
}

/// The pieces of a paragraph. Text alone is one piece; images alone are a
/// column of block-sized images; both together are a row that wraps.
pub fn paragraph_element(x: &BlockInput) -> (parts: Vec<ParagraphPart>)
    requires
        x.ok(),
        segmented(*x),
    ensures
        part_views(parts@) == parts_of(*x),
{
    match classify_paragraph(x.block.inlines.as_slice()) {
        ParagraphFlow::TextOnly => {
            let mut parts: Vec<ParagraphPart> = Vec::new();
            put(
                &mut parts,
                ParagraphPart::Text { layout: build_leaf_layout_revealed(x), hug_width: false },
            );
            assert(part_views(parts@) =~= parts_of(*x));
            parts
        },
        ParagraphFlow::Standalone => standalone(&x.block.inlines),
        ParagraphFlow::Mixed => mixed(x),
    }
}

proof fn lemma_images_shown(inlines: Seq<Inline>, n: int, i: int)
    requires
        0 <= i < n <= inlines.len(),
        inline_layout::is_image(inlines[i]),
    ensures
        images(inlines, n).len() > 0,
    decreases n,
{
    if i < n - 1 {
        lemma_images_shown(inlines, n - 1, i);
    }
}

/// A paragraph of images alone is never empty.
pub proof fn standalone_shows_an_image(x: BlockInput)
    requires
        inline_layout::flow_of(x.block.inlines@) == ParagraphFlow::Standalone,
    ensures
        parts_of(x).len() > 0,
{
    let inlines = x.block.inlines@;
    let i = choose|i: int| 0 <= i < inlines.len() && inline_layout::is_image(#[trigger] inlines[i]);
    lemma_images_shown(inlines, inlines.len() as int, i);
}

/// How large an image is shown.
#[derive(Debug, Clone, Copy, PartialEq, Eq, Structural)]
pub enum ImageExtent {
    /// As high as the text around it.
    Line { height: i64 },
    /// At its natural size, within these limits.
    Within { width: i64, height: i64 },
}

/// Height of what stands in the place of a block image while it loads: 72
/// pixels.
pub const LOADING_HEIGHT: i64 = 4718592;

/// What stands in the place of pixels that are still loading.
#[derive(Debug, Clone, Copy, PartialEq, Eq, Structural)]
pub enum ImageLoading {
    /// As high and as wide as this.
    Square { side: i64 },
    /// As wide as the text.
    Strip { height: i64 },
}

/// How an image is shown.
#[derive(Debug, PartialEq, Eq)]
pub struct ImageScene {
    pub extent: ImageExtent,
    pub loading: ImageLoading,
    /// The pixels are shown; otherwise the placeholder.
    pub ready: bool,
    /// What stands in the place of pixels that are not there.
    pub placeholder: String,
    /// The caption, where one is shown.
    pub caption: Option<String>,
    /// The caption is edited.
    pub editing: bool,
    /// Where a click puts the caret.
    pub caret: usize,
    /// A click also edits the caption.
    pub edit_on_click: bool,
}

/// The caption of this image is edited.
pub open spec fn edits_image(snap: RenderSnapshot, range: Range<usize>) -> bool {
    snap.editing_image matches Some((editing, _)) && editing == range
}

/// The caption of an image.
pub open spec fn caption_of(snap: RenderSnapshot, alt: Seq<char>, range: Range<usize>) -> Seq<char> {
    match snap.editing_image {
        Some((editing, draft)) => if editing == range {
            snap.draft_label(draft@)
        } else {
            caption_label(alt)
        },
        None => caption_label(alt),
    }
}

/// The alternative text, or an invitation to write one.
pub open spec fn caption_label(alt: Seq<char>) -> Seq<char> {
    if alt.len() == 0 {
        "Add a caption"@
    } else {
        alt
    }
}

/// What stands in the place of an image.
pub open spec fn placeholder_of(alt: Seq<char>) -> Seq<char> {
    "🖼 "@ + if alt.len() == 0 {
        "Missing image"@
    } else {
        alt
    }
}

/// What stands in the place of an image.
pub fn missing_image_fallback(alt: &str) -> (label: String)
    ensures
        label@ == placeholder_of(alt@),
{
    if alt.is_empty() {
        joined("🖼 ", "Missing image")
    } else {
        joined("🖼 ", alt)
    }
}

/// The pixels of an image can be shown.
pub open spec fn can_show(resolved: ResolvedImage, cached: bool, approved: bool) -> bool {
    match resolved {
        ResolvedImage::File(_) => cached,
        ResolvedImage::Local(_) => approved,
        ResolvedImage::Data => approved,
        ResolvedImage::Blocked => false,
    }
}

/// Whether the pixels of an image can be shown: those of the cache where the
/// cache file is there, those of a document only where they were approved.
pub fn pixels_ready(resolved: &ResolvedImage, cached: bool, approved: bool) -> (ready: bool)
    ensures
        ready == can_show(*resolved, cached, approved),
{
    match resolved {
        ResolvedImage::File(_) => cached,
        ResolvedImage::Local(_) => approved,
        ResolvedImage::Data => approved,
        ResolvedImage::Blocked => false,
    }
}

/// Whether the pixels of an image are available without approval: only a cache
/// file can be.
pub fn image_pixels_available(resolved: &ResolvedImage, cached: bool) -> (yes: bool)
    ensures
        yes == (*resolved is File && cached),
{
    pixels_ready(resolved, cached, false)
}

/// `scene` shows the image at `range`.
pub open spec fn shows_image(
    snap: RenderSnapshot,
    alt: Seq<char>,
    range: Range<usize>,
    role: ImageRole,
    font_size: i64,
    ready: bool,
    scene: ImageScene,
) -> bool {
    &&& match role {
        ImageRole::Inline => {
            &&& scene.extent matches ImageExtent::Line { height } && height
                == inline_layout::image_height(font_size)
            &&& scene.loading matches ImageLoading::Square { side } && side
                == inline_layout::image_height(font_size)
        },
        ImageRole::Block => {
            &&& scene.extent == ImageExtent::Within {
                width: BLOCK_IMAGE_MAX_WIDTH,
                height: BLOCK_IMAGE_MAX_HEIGHT,
            }
            &&& scene.loading == ImageLoading::Strip { height: LOADING_HEIGHT }
        },
    }
    &&& scene.ready == ready
    &&& scene.placeholder@ == placeholder_of(alt)
    &&& scene.editing == edits_image(snap, range)
    &&& match scene.caption {
        Some(caption) => (role == ImageRole::Block || edits_image(snap, range)) && caption@
            == caption_of(snap, alt, range),
        None => role == ImageRole::Inline && !edits_image(snap, range),
    }
    &&& scene.caret == range.start
    &&& scene.edit_on_click == (role == ImageRole::Inline)
}

/// How an image is shown.
pub fn render_image(
    snap: &RenderSnapshot,
    alt: &str,
    range: &Range<usize>,
    role: ImageRole,
    font_size: i64,
    ready: bool,
) -> (scene: ImageScene)
    ensures
        shows_image(*snap, alt@, *range, role, font_size, ready, scene),
{
    let mut editing = false;
    let mut caption = if alt.is_empty() {
        own("Add a caption")
    } else {
        own(alt)
    };
    if let Some((edited, draft)) = &snap.editing_image {
        if same(edited, range) {
            editing = true;
            caption = snap.label_of_draft(draft.as_str());
        }
    }
    let extent = match role {
        ImageRole::Inline => ImageExtent::Line { height: inline_image_height(font_size) },
        ImageRole::Block => ImageExtent::Within {
            width: BLOCK_IMAGE_MAX_WIDTH,
            height: BLOCK_IMAGE_MAX_HEIGHT,
        },
    };
    let loading = match role {
        ImageRole::Inline => ImageLoading::Square { side: inline_image_height(font_size) },
        ImageRole::Block => ImageLoading::Strip { height: LOADING_HEIGHT },
    };
    let in_block = match role {
        ImageRole::Block => true,
        ImageRole::Inline => false,
    };
    ImageScene {
        extent,
        loading,
        ready,
        placeholder: missing_image_fallback(alt),
        caption: if in_block || editing {
            Some(caption)
        } else {
            None
        },
        editing,
        caret: range.start,
        edit_on_click: !in_block,
    }
}

/// Pixels are shown where they were fetched into the cache, or where those of
/// the document itself were approved; those of a refused source never.
pub proof fn pixels_need_the_cache_or_approval(
    resolved: ResolvedImage,
    cached: bool,
    approved: bool,
)
    ensures
        resolved is File ==> (can_show(resolved, cached, approved) <==> cached),
        resolved is Local || resolved is Data ==> (can_show(resolved, cached, approved)
            <==> approved),
        resolved is Blocked ==> !can_show(resolved, cached, approved),
{
}

/// How an image is shown. A large one keeps to its limits and always has a
/// caption; a small one is as high as its line allows and has a caption only
/// while that is edited. A click puts the caret on the image, and on a small one
/// edits the caption.
pub proof fn images_show_by_their_role(
    snap: RenderSnapshot,
    alt: Seq<char>,
    range: Range<usize>,
    role: ImageRole,
    font_size: i64,
    ready: bool,
    scene: ImageScene,
)
    requires
        shows_image(snap, alt, range, role, font_size, ready, scene),
    ensures
        ({
            let edited = snap.editing_image is Some && (snap.editing_image->0).0 == range;
            &&& scene.ready == ready
            &&& scene.editing == edited
            &&& scene.caret == range.start
            &&& scene.caption is Some <==> role == ImageRole::Block || edited
            &&& scene.edit_on_click <==> role == ImageRole::Inline
            &&& role == ImageRole::Block ==> scene.extent == ImageExtent::Within {
                width: 47185920,
                height: 31457280,
            } && scene.loading == ImageLoading::Strip { height: 4718592 }
            &&& role == ImageRole::Inline && 0 <= font_size <= 1000000000 ==> ({
                let h = scene.extent->Line_height;
                &&& scene.extent is Line && scene.loading is Square
                &&& 2 * h <= 3 * font_size < 2 * h + 2
                &&& scene.loading->side == h
            })
        }),
{
}

/// The caption of an image is its description, or an invitation to write one;
/// while it is edited, it is the draft with the text under composition and a
/// caret behind.
pub proof fn captions_tell_the_description(snap: RenderSnapshot, alt: Seq<char>, range: Range<usize>)
    ensures
        ({
            let edited = snap.editing_image is Some && (snap.editing_image->0).0 == range;
            &&& !edited && alt.len() > 0 ==> caption_of(snap, alt, range) == alt
            &&& !edited && alt.len() == 0 ==> caption_of(snap, alt, range) == "Add a caption"@
            &&& edited && snap.widget_preedit is None ==> caption_of(snap, alt, range)
                == (snap.editing_image->0).1@.push('|')
            &&& edited && snap.widget_preedit is Some ==> caption_of(snap, alt, range)
                == (snap.editing_image->0).1@ + (snap.widget_preedit->0)@.push('|')
        }),
{
    reveal_strlit("|");
    let edited = snap.editing_image is Some && (snap.editing_image->0).0 == range;
    if edited {
        let draft = (snap.editing_image->0).1@;
        if snap.widget_preedit is Some {
            assert(caption_of(snap, alt, range) =~= draft + (snap.widget_preedit->0)@.push('|'));
        } else {
            assert(caption_of(snap, alt, range) =~= draft.push('|'));
        }
    }
}

/// What stands for missing pixels names the image, by its description if it has
/// one.
pub proof fn placeholders_name_the_image(alt: Seq<char>)
    ensures
        alt.len() > 0 ==> placeholder_of(alt).skip(2) == alt,
        alt.len() == 0 ==> placeholder_of(alt).skip(2) == "Missing image"@,
        placeholder_of(alt)[0] as u32 == 128444,
        placeholder_of(alt)[1] == ' ',
{
    reveal_strlit("🖼 ");
    let p = placeholder_of(alt);
    if alt.len() > 0 {
        assert(p.skip(2) =~= alt);
    } else {
        assert(p.skip(2) =~= "Missing image"@);
    }
}

/// A paragraph of text is one part that fills the width.
pub proof fn text_is_one_part(x: BlockInput)
    requires
        inline_layout::flow_of(x.block.inlines@) == ParagraphFlow::TextOnly,
    ensures
        parts_of(x).len() == 1,
        parts_of(x)[0] == (PartView::Text { layout: x.layout(), hug_width: false }),
{
}

/// The images of a paragraph that are not among text are all shown, in order and
/// large, with their own description, source and place.
pub proof fn lone_images_are_all_shown(inlines: Seq<Inline>, n: int, i: int)
    requires
        0 <= i < n <= inlines.len(),
    ensures
        inlines[i] is Image ==> images(inlines, n).contains(
            PartView::Image {
                alt: inlines[i]->alt@,
                url: inlines[i]->Image_url@,
                range: inlines[i].span(),
                role: ImageRole::Block,
            },
        ),
        inlines[i] is OpaqueInline && inlines[i]->OpaqueInline_image is Some ==> images(
            inlines,
            n,
        ).contains(
            PartView::Image {
                alt: (inlines[i]->OpaqueInline_image->0).alt@,
                url: (inlines[i]->OpaqueInline_image->0).url@,
                range: inlines[i].span(),
                role: ImageRole::Block,
            },
        ),
        forall|k: int|
            0 <= k < images(inlines, n).len() ==> (#[trigger] images(inlines, n)[k]) is Image,
    decreases n,
{
    let rest = images(inlines, n - 1);
    let all = images(inlines, n);
    if i < n - 1 {
        lone_images_are_all_shown(inlines, n - 1, i);
        assert forall|p: PartView| #[trigger] rest.contains(p) implies all.contains(p) by {
            let k = choose|k: int| 0 <= k < rest.len() && rest[k] == p;
            assert(all[k] == p);
        }
    } else {
        if inline_layout::is_image(inlines[i]) {
            assert(all[rest.len() as int] == image_part(inlines[i], ImageRole::Block));
            assert(all.contains(all[rest.len() as int]));
        }
        if n > 1 {
            lone_images_are_all_shown(inlines, n - 1, 0);
        } else {
            assert(rest.len() == 0);
        }
    }
    assert forall|k: int| 0 <= k < all.len() implies (#[trigger] all[k]) is Image by {
        if k < rest.len() {
            assert(all[k] == rest[k]);
        }
    }
}

/// Every image among text is shown small, and every stretch of text that paints
/// something is shown beside it as wide as it is.
pub proof fn mixed_paragraphs_show_all_segments(
    x: BlockInput,
    segments: Seq<InlineSegment>,
    n: int,
    k: int,
)
    requires
        0 <= k < n <= segments.len(),
    ensures
        segments[k] matches InlineSegment::Image { index } ==> mixed_parts(x, segments, n).contains(
            image_part(x.block.inlines@[index as int], ImageRole::Inline),
        ),
        segments[k] matches InlineSegment::Text { start, end } ==> ({
            let layout = segment_leaf(x, k).layout(start, end);
            layout.text.len() > 0 ==> mixed_parts(x, segments, n).contains(
                PartView::Text { layout, hug_width: true },
            )
        }),
    decreases n,
{
    let rest = mixed_parts(x, segments, n - 1);
    let all = mixed_parts(x, segments, n);
    if k < n - 1 {
        mixed_paragraphs_show_all_segments(x, segments, n - 1, k);
        assert forall|p: PartView| #[trigger] rest.contains(p) implies all.contains(p) by {
            let j = choose|j: int| 0 <= j < rest.len() && rest[j] == p;
            assert(all[j] == p);
        }
    } else if all.len() > rest.len() {
        assert(all.contains(all[rest.len() as int]));
    }
}

} // verus!
