//! The document model that the surface paints, and what the Markdown parser
//! knows about each inline node beyond it.

use std::ops::Range;

use vstd::prelude::*;

use crate::style::{HtmlPaint, MarkFidelity, MarkSet};
use crate::text::dup;

verus! {

/// Identity of a block.
#[derive(Debug, Clone, Copy, PartialEq, Eq, Structural)]
pub struct NodeId(pub u64);

/// A link target and how it is written.
#[derive(Debug, PartialEq, Eq)]
pub struct LinkAttrs {
    pub url: String,
    pub title: Option<String>,
    /// Recognised in running text.
    pub autolink: bool,
    /// Written `<url>`.
    pub angle: bool,
    /// Ties the runs of one link together.
    pub group: u64,
}

impl Clone for LinkAttrs {
    fn clone(&self) -> (copy: Self)
        ensures
            copy == *self,
    {
        LinkAttrs {
            url: self.url.clone(),
            title: match &self.title {
                Some(title) => Some(title.clone()),
                None => None,
            },
            autolink: self.autolink,
            angle: self.angle,
            group: self.group,
        }
    }
}

/// How a hard break is written.
#[derive(Debug, Clone, Copy, PartialEq, Eq, Structural)]
pub enum BreakStyle {
    TwoSpaces,
    Backslash,
}

/// Target and alternative text of an HTML image.
#[derive(Debug, PartialEq, Eq)]
pub struct HtmlImage {
    pub url: String,
    pub alt: String,
}

impl Clone for HtmlImage {
    fn clone(&self) -> (copy: Self)
        ensures
            copy == *self,
    {
        HtmlImage { url: self.url.clone(), alt: self.alt.clone() }
    }
}

/// An inline node. Every variant carries the source bytes it stands for.
#[allow(inconsistent_fields)]
#[derive(Debug, PartialEq, Eq)]
pub enum Inline {
    /// Text under one set of marks; `raw` is its source form where it differs.
    Run {
        text: String,
        raw: Option<String>,
        source_range: Range<usize>,
        marks: MarkSet,
        link: Option<LinkAttrs>,
        fidelity: MarkFidelity,
    },
    Image {
        alt: String,
        url: String,
        source_range: Range<usize>,
        marks: MarkSet,
        link: Option<LinkAttrs>,
    },
    SoftBreak { source_range: Range<usize> },
    HardBreak { style: BreakStyle, source_range: Range<usize> },
    Math {
        literal: String,
        display: bool,
        raw: String,
        source_range: Range<usize>,
        marks: MarkSet,
    },
    WikiLink { label: String, raw: String, source_range: Range<usize>, marks: MarkSet },
    Emoji {
        glyph: String,
        raw: String,
        source_range: Range<usize>,
        marks: MarkSet,
        link: Option<LinkAttrs>,
        fidelity: MarkFidelity,
    },
    /// Inline HTML and other raw spans.
    OpaqueInline {
        raw: String,
        source_range: Range<usize>,
        marks: MarkSet,
        /// The image that the HTML is, if it is one that may be shown.
        image: Option<HtmlImage>,
        /// The HTML only hosts the caret.
        caret_chrome: bool,
    },
}

impl Inline {
    /// The source bytes of the node.
    pub open spec fn span(&self) -> Range<usize> {
        match self {
            Inline::Run { source_range, .. } => *source_range,
            Inline::Image { source_range, .. } => *source_range,
            Inline::SoftBreak { source_range } => *source_range,
            Inline::HardBreak { source_range, .. } => *source_range,
            Inline::Math { source_range, .. } => *source_range,
            Inline::WikiLink { source_range, .. } => *source_range,
            Inline::Emoji { source_range, .. } => *source_range,
            Inline::OpaqueInline { source_range, .. } => *source_range,
        }
    }

    /// The source bytes of the node.
    pub fn source_range(&self) -> (range: Range<usize>)
        ensures
            range == self.span(),
    {
        match self {
            Inline::Run { source_range, .. } => dup(source_range),
            Inline::Image { source_range, .. } => dup(source_range),
            Inline::SoftBreak { source_range } => dup(source_range),
            Inline::HardBreak { source_range, .. } => dup(source_range),
            Inline::Math { source_range, .. } => dup(source_range),
            Inline::WikiLink { source_range, .. } => dup(source_range),
            Inline::Emoji { source_range, .. } => dup(source_range),
            Inline::OpaqueInline { source_range, .. } => dup(source_range),
        }
    }
}

fn copy_link(link: &Option<LinkAttrs>) -> (copy: Option<LinkAttrs>)
    ensures
        copy == *link,
{
    match link {
        Some(l) => Some(l.clone()),
        None => None,
    }
}

impl Clone for Inline {
    fn clone(&self) -> (copy: Self)
        ensures
            copy == *self,
    {
        match self {
            Inline::Run { text, raw, source_range, marks, link, fidelity } => Inline::Run {
                text: text.clone(),
                raw: match raw {
                    Some(raw) => Some(raw.clone()),
                    None => None,
                },
                source_range: dup(source_range),
                marks: *marks,
                link: copy_link(link),
                fidelity: *fidelity,
            },
            Inline::Image { alt, url, source_range, marks, link } => Inline::Image {
                alt: alt.clone(),
                url: url.clone(),
                source_range: dup(source_range),
                marks: *marks,
                link: copy_link(link),
            },
            Inline::SoftBreak { source_range } => Inline::SoftBreak {
                source_range: dup(source_range),
            },
            Inline::HardBreak { style, source_range } => Inline::HardBreak {
                style: *style,
                source_range: dup(source_range),
            },
            Inline::Math { literal, display, raw, source_range, marks } => Inline::Math {
                literal: literal.clone(),
                display: *display,
                raw: raw.clone(),
                source_range: dup(source_range),
                marks: *marks,
            },
            Inline::WikiLink { label, raw, source_range, marks } => Inline::WikiLink {
                label: label.clone(),
                raw: raw.clone(),
                source_range: dup(source_range),
                marks: *marks,
            },
            Inline::Emoji { glyph, raw, source_range, marks, link, fidelity } => Inline::Emoji {
                glyph: glyph.clone(),
                raw: raw.clone(),
                source_range: dup(source_range),
                marks: *marks,
                link: copy_link(link),
                fidelity: *fidelity,
            },
            Inline::OpaqueInline { raw, source_range, marks, image, caret_chrome } => {
                Inline::OpaqueInline {
                    raw: raw.clone(),
                    source_range: dup(source_range),
                    marks: *marks,
                    image: match image {
                        Some(image) => Some(image.clone()),
                        None => None,
                    },
                    caret_chrome: *caret_chrome,
                }
            },
        }
    }
}

/// Source parts of a link or image: `[`, `](`, destination, and the whole.
#[derive(Debug, PartialEq, Eq)]
pub struct MarkdownLinkChrome {
    pub outer: Range<usize>,
    pub open: Range<usize>,
    pub close: Range<usize>,
    pub dest: Range<usize>,
}

impl Clone for MarkdownLinkChrome {
    fn clone(&self) -> (copy: Self)
        ensures
            copy == *self,
    {
        MarkdownLinkChrome {
            outer: dup(&self.outer),
            open: dup(&self.open),
            close: dup(&self.close),
            dest: dup(&self.dest),
        }
    }
}

/// Source parts of a link reference definition `[label]: url`.
#[derive(Debug, PartialEq, Eq)]
pub struct LinkReferenceDefChrome {
    pub outer: Range<usize>,
    pub open: Range<usize>,
    pub label: Range<usize>,
    pub close: Range<usize>,
    pub colon: Range<usize>,
}

/// The block prefix at one source line, by kind. An absent part is empty.
#[derive(Debug, PartialEq, Eq)]
pub struct LinePrefixParts {
    pub quote: Range<usize>,
    pub list: Range<usize>,
    pub footnote: Range<usize>,
    pub details: Range<usize>,
}

/// Role of an inline HTML tag when its source is shown.
#[derive(Debug, PartialEq, Eq)]
pub enum HtmlRevealKind {
    Open(String),
    Close(String),
    Solo,
    Skip,
}

/// What an inline HTML node paints.
#[allow(inconsistent_fields)]
#[derive(Debug, PartialEq, Eq)]
pub enum InlineHtmlAction {
    /// Nothing, unless its source is revealed.
    Hide,
    /// An image widget.
    Image,
    /// A line break.
    Break,
    /// A footnote reference, painted as `glyph`.
    FootnoteRef { glyph: String },
    /// Its own source.
    Raw,
}

/// What the Markdown parser answers about one inline node, in the context of
/// its source and of the tags before it.
#[derive(Debug, PartialEq, Eq)]
pub struct InlineFacts {
    /// An enclosing HTML element hides this node.
    pub hidden: bool,
    /// Phrasing of the enclosing HTML tags (for a footnote reference: after
    /// the node itself).
    pub paint: HtmlPaint,
    /// The node with its link and HTML chrome, without its mark delimiters.
    pub core: Range<usize>,
    /// Chrome of the link around the node.
    pub link_chrome: Option<MarkdownLinkChrome>,
    /// Chrome of the node itself, when it is an image.
    pub image_chrome: Option<MarkdownLinkChrome>,
    /// The text is a decoded character reference or backslash escape.
    pub decoded: bool,
    /// The part of a code span that is painted (padding stripped).
    pub code_visible: Range<usize>,
    /// The span of a `<url>` autolink, brackets included.
    pub angle: Option<Range<usize>>,
    /// The text in Unicode superscripts.
    pub superscript: String,
    /// The text in Unicode subscripts.
    pub subscript: String,
    /// The source behind what a formula, wiki link, emoji or footnote
    /// reference paints.
    pub visible: Range<usize>,
    /// The block prefix of the line after a break.
    pub prefix: LinePrefixParts,
    /// Role of the tag when its source is shown.
    pub tag: HtmlRevealKind,
    /// What inline HTML paints.
    pub action: InlineHtmlAction,
}

/// A filtered HTML widget inside a leaf.
#[derive(Debug, PartialEq, Eq)]
pub struct TagfilterWidget {
    pub range: Range<usize>,
    /// Its source is shown when revealed.
    pub source_chrome: bool,
}

/// A stretch of projected HTML text under one phrasing.
#[derive(Debug, PartialEq, Eq)]
pub struct HtmlPaintRun {
    pub len: usize,
    pub paint: HtmlPaint,
}

/// How an HTML block is shown.
#[derive(Debug, PartialEq, Eq)]
pub enum HtmlBlockVisual {
    /// Text without its tags; `source_at` maps it into the HTML literal.
    Flow { text: String, source_at: Vec<usize>, runs: Vec<HtmlPaintRun> },
    Hidden,
    ThematicBreak,
    Image { url: String, alt: String },
}

/// What the HTML projection answers about an HTML block.
#[derive(Debug, PartialEq, Eq)]
pub struct HtmlBlockFacts {
    pub visual: HtmlBlockVisual,
    /// Its trimmed source is a horizontal rule.
    pub is_rule: bool,
    /// Inner Markdown is not parsed.
    pub preformatted: bool,
    /// Its whole source is shown when revealed.
    pub source_chrome: bool,
    /// Never shown, not even when revealed.
    pub dangerous: bool,
    /// Document offset of each offset of the HTML literal.
    pub literal_map: Vec<usize>,
    /// The wrapping opening tag, and the closing tag if there is one, in the
    /// HTML literal.
    pub wrapper: Option<(Range<usize>, Option<Range<usize>>)>,
}

/// What the Markdown parser answers about a block beyond the tree.
#[derive(Debug, PartialEq, Eq)]
pub struct BlockFacts {
    /// One entry per inline of the block.
    pub inlines: Vec<InlineFacts>,
    /// For each segment of a paragraph that mixes text and images, one entry
    /// per inline of the block, with only the tags from the start of the
    /// segment on in effect.
    pub segments: Vec<Vec<InlineFacts>>,
    pub widgets: Vec<TagfilterWidget>,
    pub def_chrome: Option<LinkReferenceDefChrome>,
    /// The block prefix of the line where the content starts.
    pub prefix: LinePrefixParts,
    /// The block prefix of the line where the block starts.
    pub start_prefix: LinePrefixParts,
    /// Source bytes of a code body.
    pub code_body: Range<usize>,
    pub html: HtmlBlockFacts,
}

/// How a heading is written.
#[derive(Debug, Clone, Copy, PartialEq, Eq, Structural)]
pub enum HeadingStyle {
    Atx,
    Setext,
}

/// Column alignment of a table.
#[derive(Debug, Clone, Copy, PartialEq, Eq, Structural)]
pub enum ColumnAlign {
    Unset,
    Left,
    Center,
    Right,
}

/// Kind of an alert. It decides the accent color.
#[derive(Debug, Clone, Copy, PartialEq, Eq, Structural)]
pub enum AlertKind {
    Note,
    Tip,
    Important,
    Warning,
    Caution,
}

/// Kind of a block.
#[derive(Debug, PartialEq, Eq)]
pub enum BlockKind {
    Paragraph,
    Heading { level: u8, style: HeadingStyle },
    CodeBlock { info: String, literal: String, fenced: bool },
    BlockQuote,
    Alert {
        kind: AlertKind,
        /// What the header says: the title, or else the name of the kind.
        label: String,
        tag_range: Range<usize>,
        chrome_range: Range<usize>,
    },
    BulletList,
    OrderedList { start: usize },
    ListItem { task: Option<bool> },
    Table { alignments: Vec<ColumnAlign> },
    TableRow { header: bool },
    TableCell,
    ThematicBreak,
    FootnoteDefinition {
        label: String,
        /// The label in Unicode superscripts, where it has one.
        superscript: Option<String>,
    },
    DefinitionList,
    DefinitionItem,
    DefinitionTerm,
    DefinitionDetails,
    /// An HTML block or another raw block.
    Opaque {
        raw: String,
        /// The image that the block is, if it is one.
        image: Option<HtmlImage>,
    },
}

/// A block node with its inline content and its children.
#[derive(Debug, PartialEq, Eq)]
pub struct Block {
    pub id: NodeId,
    pub kind: BlockKind,
    pub source_range: Range<usize>,
    pub inlines: Vec<Inline>,
    pub children: Vec<Block>,
}

/// A parsed document.
#[derive(Debug, PartialEq, Eq)]
pub struct RichTree {
    pub blocks: Vec<Block>,
}

} // verus!
