//! Layouts of parsed documents: what is painted for a source text, and which
//! source byte every painted byte stands for.
//!
//! The documents come from a small Markdown reader at the top of this file. It
//! knows the constructs that the cases below are written in.

use std::collections::HashMap;
use std::ops::{Deref, Range};
use std::sync::Arc;

use markrust_wysiwyg::block_layout;
use markrust_wysiwyg::block_layout::{
    build_blank_gap_layout, build_code_layout, table_alignment_line, BlockInput, PrefixBlank,
};
use markrust_wysiwyg::caret::{ChromeHosts, RevealState};
use markrust_wysiwyg::chrome;
use markrust_wysiwyg::geometry::{Bounds, Point, PX};
use markrust_wysiwyg::html_block::{
    build_html_block_layout, html_inner_inlines, html_painted_inlines, layout_html_block, HtmlFlow,
    HtmlInlines,
};
use markrust_wysiwyg::ime::{ImeLeafHit, ImeOriginState};
use markrust_wysiwyg::layout::{LeafLayout, TextRun};
use markrust_wysiwyg::style::{
    CssColor, HtmlPaint, MarkFidelity, MarkSet, RunBackground, RunColor, RunUnderline, RunWeight,
    TextStyle,
};
use markrust_wysiwyg::tree::{
    AlertKind, Block, BlockFacts, BlockKind, BreakStyle, ColumnAlign, HeadingStyle, HtmlBlockFacts,
    HtmlBlockVisual, HtmlImage, HtmlPaintRun, HtmlRevealKind, Inline, InlineFacts,
    InlineHtmlAction, LinePrefixParts, LinkAttrs, LinkReferenceDefChrome, MarkdownLinkChrome,
    NodeId, RichTree, TagfilterWidget,
};
use markrust_wysiwyg::walk::chrome_hosts_for;

/// A parsed block with what is known about it.
struct Node {
    block: Block,
    facts: BlockFacts,
    /// Source offset of each offset of a code body.
    code_map: Vec<usize>,
    children: Vec<Node>,
}

impl Deref for Node {
    type Target = Block;

    fn deref(&self) -> &Block {
        &self.block
    }
}

/// A parsed document.
struct Doc {
    blocks: Vec<Node>,
    tree: RichTree,
    source: String,
    empty_prefix_homes: Vec<PrefixBlank>,
    frontmatter: bool,
    links: HashMap<u64, MarkdownLinkChrome>,
    prefixes: HashMap<usize, LinePrefixParts>,
}

impl Deref for Doc {
    type Target = RichTree;

    fn deref(&self) -> &RichTree {
        &self.tree
    }
}

/// Content of a source line behind the prefixes of its containers.
#[derive(Clone, Copy)]
struct Line {
    start: usize,
    end: usize,
}

struct Reader<'a> {
    source: &'a str,
    next_id: u64,
    next_group: u64,
    defs: Vec<String>,
    links: HashMap<u64, MarkdownLinkChrome>,
    prefixes: HashMap<usize, LinePrefixParts>,
    homes: Vec<PrefixBlank>,
}

fn import(source: &str) -> Doc {
    let mut lines = Vec::new();
    let mut at = 0;
    for line in source.split_inclusive('\n') {
        lines.push(Line { start: at, end: at + line.trim_end_matches('\n').len() });
        at += line.len();
    }
    let mut reader = Reader {
        source,
        next_id: 0,
        next_group: 0,
        defs: Vec::new(),
        links: HashMap::new(),
        prefixes: HashMap::new(),
        homes: Vec::new(),
    };
    for line in &lines {
        let text = source[line.start..line.end].trim_start_matches(['>', ' ', '-', '\t']);
        if let Some((label, _)) = reference_definition(text) {
            reader.defs.push(text[label].to_lowercase());
        }
    }
    let mut frontmatter = false;
    let mut body = &lines[..];
    if lines.first().is_some_and(|l| &source[l.start..l.end] == "---") {
        if let Some(close) = (1..lines.len()).find(|i| &source[lines[*i].start..lines[*i].end] == "---") {
            frontmatter = true;
            body = &lines[close + 1..];
        }
    }
    let blocks = reader.blocks(body);
    Doc {
        tree: RichTree { blocks: blocks.iter().map(whole_block).collect() },
        blocks,
        source: source.to_string(),
        empty_prefix_homes: reader.homes,
        frontmatter,
        links: reader.links,
        prefixes: reader.prefixes,
    }
}

fn whole_block(node: &Node) -> Block {
    Block {
        id: node.id,
        kind: copy_kind(&node.kind),
        source_range: node.source_range.clone(),
        inlines: node.inlines.clone(),
        children: node.children.iter().map(whole_block).collect(),
    }
}

fn copy_kind(kind: &BlockKind) -> BlockKind {
    match kind {
        BlockKind::Paragraph => BlockKind::Paragraph,
        BlockKind::Heading { level, style } => BlockKind::Heading { level: *level, style: *style },
        BlockKind::CodeBlock { info, literal, fenced } => BlockKind::CodeBlock {
            info: info.clone(),
            literal: literal.clone(),
            fenced: *fenced,
        },
        BlockKind::BlockQuote => BlockKind::BlockQuote,
        BlockKind::Alert { kind, label, tag_range, chrome_range } => BlockKind::Alert {
            kind: *kind,
            label: label.clone(),
            tag_range: tag_range.clone(),
            chrome_range: chrome_range.clone(),
        },
        BlockKind::BulletList => BlockKind::BulletList,
        BlockKind::OrderedList { start } => BlockKind::OrderedList { start: *start },
        BlockKind::ListItem { task } => BlockKind::ListItem { task: *task },
        BlockKind::Table { alignments } => BlockKind::Table { alignments: alignments.clone() },
        BlockKind::TableRow { header } => BlockKind::TableRow { header: *header },
        BlockKind::TableCell => BlockKind::TableCell,
        BlockKind::ThematicBreak => BlockKind::ThematicBreak,
        BlockKind::FootnoteDefinition { label, superscript } => BlockKind::FootnoteDefinition {
            label: label.clone(),
            superscript: superscript.clone(),
        },
        BlockKind::DefinitionList => BlockKind::DefinitionList,
        BlockKind::DefinitionItem => BlockKind::DefinitionItem,
        BlockKind::DefinitionTerm => BlockKind::DefinitionTerm,
        BlockKind::DefinitionDetails => BlockKind::DefinitionDetails,
        BlockKind::Opaque { raw, image } => BlockKind::Opaque {
            raw: raw.clone(),
            image: image.clone(),
        },
    }
}

/// Label and destination of `[label]: url`.
fn reference_definition(text: &str) -> Option<(Range<usize>, Range<usize>)> {
    let close = text.find("]:")?;
    if !text.starts_with('[') || text.starts_with("[^") || close < 2 {
        return None;
    }
    let rest = &text[close + 2..];
    let dest = close + 2 + (rest.len() - rest.trim_start().len());
    Some((1..close, dest..text.trim_end().len()))
}

fn is_rule(text: &str) -> bool {
    let marks: String = text.chars().filter(|c| !c.is_whitespace()).collect();
    marks.len() >= 3
        && ["-", "*", "_"].iter().any(|m| marks.chars().all(|c| m.contains(c)))
}

fn is_delimiter_line(text: &str) -> bool {
    text.contains('|') && text.contains('-') && text.chars().all(|c| "|-: \t".contains(c))
}

fn atx_level(text: &str) -> Option<usize> {
    let text = text.trim_start();
    let level = text.len() - text.trim_start_matches('#').len();
    if (1..=6).contains(&level) && text[level..].starts_with([' ', '\t']) {
        Some(level)
    } else {
        None
    }
}

/// Length of a list marker with its padding, and the number of an ordered one.
fn list_marker(text: &str) -> Option<(usize, Option<usize>)> {
    if is_rule(text) {
        return None;
    }
    let digits = text.len() - text.trim_start_matches(|c: char| c.is_ascii_digit()).len();
    let marker = if digits > 0 && text[digits..].starts_with(['.', ')']) {
        digits + 1
    } else if digits == 0 && text.starts_with(['-', '*', '+']) {
        1
    } else {
        return None;
    };
    let rest = &text[marker..];
    let padding = rest.len() - rest.trim_start_matches([' ', '\t']).len();
    if padding == 0 && !rest.is_empty() {
        return None;
    }
    Some((marker + padding.min(4), text[..digits].parse().ok()))
}

/// Length of `[^label]: ` and the label.
fn footnote_marker(text: &str) -> Option<(usize, Range<usize>)> {
    let close = text.find("]:")?;
    if !text.starts_with("[^") || close < 3 {
        return None;
    }
    let rest = &text[close + 2..];
    let padding = rest.len() - rest.trim_start().len();
    Some((close + 2 + padding, 2..close))
}

/// Elements that start an HTML block.
const FLOW_ELEMENTS: [&str; 5] = ["div", "p", "pre", "hr", "section"];

/// Elements that show their source when revealed, and nothing else.
const SOURCE_ELEMENTS: [&str; 26] = [
    "title", "textarea", "style", "xmp", "plaintext", "details", "summary", "video", "audio",
    "dialog", "form", "math", "canvas", "button", "select", "input", "label", "option", "noscript",
    "template", "fieldset", "legend", "output", "progress", "meter", "datalist",
];

/// Elements that never show.
const DANGEROUS_ELEMENTS: [&str; 6] = ["script", "iframe", "object", "embed", "noframes", "noembed"];

fn tag_name(tag: &str) -> String {
    tag.trim_start_matches(['<', '/'])
        .chars()
        .take_while(|c| c.is_ascii_alphanumeric())
        .collect::<String>()
        .to_lowercase()
}

fn starts_html_block(text: &str) -> bool {
    let text = text.trim_start();
    if !text.starts_with('<') {
        return false;
    }
    let name = tag_name(text);
    let name = name.as_str();
    ["<!--", "<?", "<![CDATA["].iter().any(|open| text.starts_with(open))
        || FLOW_ELEMENTS.contains(&name)
        || SOURCE_ELEMENTS.contains(&name)
        || DANGEROUS_ELEMENTS.contains(&name)
}

fn fence_ticks(text: &str) -> usize {
    let text = text.trim_start();
    let ticks = text.len() - text.trim_start_matches('`').len();
    if ticks >= 3 {
        ticks
    } else {
        0
    }
}

fn empty_parts(at: usize) -> LinePrefixParts {
    LinePrefixParts { quote: at..at, list: at..at, footnote: at..at, details: at..at }
}

fn copy_parts(parts: &LinePrefixParts) -> LinePrefixParts {
    LinePrefixParts {
        quote: parts.quote.clone(),
        list: parts.list.clone(),
        footnote: parts.footnote.clone(),
        details: parts.details.clone(),
    }
}

fn plain_html() -> HtmlBlockFacts {
    HtmlBlockFacts {
        visual: HtmlBlockVisual::Hidden,
        is_rule: false,
        preformatted: false,
        source_chrome: false,
        dangerous: false,
        literal_map: Vec::new(),
        wrapper: None,
    }
}

#[derive(Clone, Copy, PartialEq)]
enum Part {
    Quote,
    List,
    Footnote,
    Details,
}

impl<'a> Reader<'a> {
    fn text(&self, line: Line) -> &'a str {
        &self.source[line.start..line.end]
    }

    fn line_start(&self, at: usize) -> usize {
        self.source[..at].rfind('\n').map_or(0, |i| i + 1)
    }

    fn parts_at(&self, at: usize) -> LinePrefixParts {
        let start = self.line_start(at);
        match self.prefixes.get(&start) {
            Some(parts) => copy_parts(parts),
            None => empty_parts(start),
        }
    }

    /// Takes `len` bytes of prefix off a line.
    fn strip(&mut self, line: Line, part: Part, len: usize) -> Line {
        let line_start = self.line_start(line.start);
        let parts = self.prefixes.entry(line_start).or_insert(empty_parts(line_start));
        let end = line.start + len;
        let taken = match part {
            Part::Quote => &mut parts.quote,
            Part::List => &mut parts.list,
            Part::Footnote => &mut parts.footnote,
            Part::Details => &mut parts.details,
        };
        *taken = if taken.start == taken.end { line.start..end } else { taken.start..end };
        for later in [&mut parts.list, &mut parts.footnote, &mut parts.details] {
            if later.start == later.end {
                *later = end..end;
            }
        }
        let rest = Line { start: end, end: line.end };
        if self.text(rest).trim().is_empty() {
            self.homes.retain(|home| home.line.start != line_start);
            self.homes.push(PrefixBlank { home: end, line: line_start..line.end });
        }
        rest
    }

    fn node(&mut self, kind: BlockKind, range: Range<usize>, inlines: Vec<Inline>, children: Vec<Node>) -> Node {
        self.next_id += 1;
        let at = inlines.first().map_or(range.start, |i| i.source_range().start);
        let facts = BlockFacts {
            inlines: inline_facts(self.source, &inlines, &self.links, &self.prefixes),
            segments: Vec::new(),
            widgets: widgets_in(self.source, &inlines),
            def_chrome: None,
            prefix: self.parts_at(at),
            start_prefix: self.parts_at(range.start),
            code_body: range.start..range.start,
            html: plain_html(),
        };
        let block = Block {
            id: NodeId(self.next_id),
            kind,
            source_range: range,
            inlines,
            children: Vec::new(),
        };
        Node { block, facts, code_map: Vec::new(), children }
    }

    fn blocks(&mut self, lines: &[Line]) -> Vec<Node> {
        let mut out = Vec::new();
        let mut i = 0;
        while i < lines.len() {
            let text = self.text(lines[i]);
            let body = text.trim_start();
            if body.is_empty() {
                i += 1;
            } else if text.starts_with("    ") {
                i = self.indented_code(lines, i, &mut out);
            } else if fence_ticks(text) > 0 {
                i = self.fence(lines, i, &mut out);
            } else if body.starts_with('>') {
                i = self.quote(lines, i, &mut out);
            } else if let Some(level) = atx_level(text) {
                self.heading(lines[i], level, &mut out);
                i += 1;
            } else if is_rule(text) {
                let range = lines[i].start..lines[i].end;
                out.push(self.node(BlockKind::ThematicBreak, range, Vec::new(), Vec::new()));
                i += 1;
            } else if list_marker(body).is_some() {
                i = self.list(lines, i, &mut out);
            } else if footnote_marker(body).is_some() {
                i = self.footnote(lines, i, &mut out);
            } else if reference_definition(body).is_some() {
                self.definition(lines[i], &mut out);
                i += 1;
            } else if starts_html_block(text) {
                i = self.html(lines, i, &mut out);
            } else if text.contains('|')
                && i + 1 < lines.len()
                && is_delimiter_line(self.text(lines[i + 1]))
            {
                i = self.table(lines, i, &mut out);
            } else {
                i = self.paragraph(lines, i, &mut out);
            }
        }
        out
    }

    fn indented_code(&mut self, lines: &[Line], i: usize, out: &mut Vec<Node>) -> usize {
        let mut j = i;
        let mut body = Vec::new();
        while j < lines.len() && self.text(lines[j]).starts_with("    ") {
            body.push(Line { start: lines[j].start + 4, end: lines[j].end });
            j += 1;
        }
        self.code(&body, body[0].start, String::new(), false, lines[i].start..lines[j - 1].end, out);
        j
    }

    fn fence(&mut self, lines: &[Line], i: usize, out: &mut Vec<Node>) -> usize {
        let open = self.text(lines[i]);
        let ticks = fence_ticks(open);
        let indent = open.len() - open.trim_start().len();
        let info = open.trim_start()[ticks..].trim().to_string();
        let mut j = i + 1;
        let mut body = Vec::new();
        while j < lines.len() && fence_ticks(self.text(lines[j])) < ticks {
            let text = self.text(lines[j]);
            let cut = indent.min(text.len() - text.trim_start_matches(' ').len());
            body.push(Line { start: lines[j].start + cut, end: lines[j].end });
            j += 1;
        }
        let last = j.min(lines.len() - 1);
        let at = (lines[i].end + 1).min(self.source.len());
        self.code(&body, at, info, true, lines[i].start..lines[last].end, out);
        (j + 1).min(lines.len())
    }

    fn code(
        &mut self,
        body: &[Line],
        at: usize,
        info: String,
        fenced: bool,
        range: Range<usize>,
        out: &mut Vec<Node>,
    ) {
        let (text, map) = self.joined(body, at);
        let end = body.last().map_or(at, |l| l.end);
        let inlines = vec![plain_run(&text, map[0]..end)];
        let kind = BlockKind::CodeBlock { info, literal: format!("{text}\n"), fenced };
        let mut node = self.node(kind, range, inlines, Vec::new());
        node.facts.code_body = at..end.max(at);
        node.code_map = map;
        out.push(node);
    }

    /// The lines joined by newlines, and the source offset of each offset.
    fn joined(&self, lines: &[Line], empty_at: usize) -> (String, Vec<usize>) {
        let mut text = String::new();
        let mut map = Vec::new();
        for (k, line) in lines.iter().enumerate() {
            if k > 0 {
                text.push('\n');
                map.push(lines[k - 1].end);
            }
            text.push_str(self.text(*line));
            map.extend(line.start..line.end);
        }
        map.push(lines.last().map_or(empty_at, |l| l.end));
        (text, map)
    }

    fn quote(&mut self, lines: &[Line], i: usize, out: &mut Vec<Node>) -> usize {
        let mut j = i;
        let mut inner = Vec::new();
        while j < lines.len() && self.text(lines[j]).trim_start().starts_with('>') {
            let text = self.text(lines[j]);
            let mark = text.find('>').unwrap() + 1;
            let len = if text[mark..].starts_with(' ') { mark + 1 } else { mark };
            let rest = self.strip(lines[j], Part::Quote, len);
            inner.push(rest);
            j += 1;
        }
        let range = lines[i].start..lines[j - 1].end;
        let tag = self.text(inner[0]).trim();
        let alert = ALERTS.iter().find(|(_, name, _)| tag == format!("[!{name}]"));
        let (kind, skip) = match alert {
            Some((kind, _, label)) => (
                BlockKind::Alert {
                    kind: *kind,
                    label: label.to_string(),
                    tag_range: inner[0].start..inner[0].start + tag.len(),
                    chrome_range: lines[i].start..inner[0].end,
                },
                1,
            ),
            None => (BlockKind::BlockQuote, 0),
        };
        let children = self.blocks(&inner[skip..]);
        out.push(self.node(kind, range, Vec::new(), children));
        j
    }

    fn heading(&mut self, line: Line, level: usize, out: &mut Vec<Node>) {
        let text = self.text(line);
        let indent = text.len() - text.trim_start().len();
        let title = text[indent + level..].trim_start();
        let start = line.start + (text.len() - title.len());
        let bare = title.trim_end().trim_end_matches('#');
        let title = if bare.is_empty() || bare.ends_with(' ') { bare.trim_end() } else { title.trim_end() };
        let inlines = self.inlines(&[Line { start, end: start + title.len() }]);
        let kind = BlockKind::Heading { level: level as u8, style: HeadingStyle::Atx };
        out.push(self.node(kind, line.start..line.end, inlines, Vec::new()));
    }

    fn list(&mut self, lines: &[Line], i: usize, out: &mut Vec<Node>) -> usize {
        let mut j = i;
        let mut items = Vec::new();
        let number = list_marker(self.text(lines[i]).trim_start()).unwrap().1;
        while j < lines.len() {
            let text = self.text(lines[j]);
            let indent = text.len() - text.trim_start().len();
            let Some((marker, _)) = list_marker(text.trim_start()) else {
                break;
            };
            let start = lines[j].start;
            let width = indent + marker;
            let mut inner = vec![self.strip(lines[j], Part::List, width)];
            let mut task = None;
            let head = self.text(inner[0]);
            for (mark, done) in [("[ ] ", false), ("[x] ", true), ("[X] ", true)] {
                if head.starts_with(mark) {
                    task = Some(done);
                    inner[0] = self.strip(inner[0], Part::List, mark.len());
                    break;
                }
            }
            let mut end = lines[j].end;
            j += 1;
            while j < lines.len() {
                let text = self.text(lines[j]);
                let indent = text.len() - text.trim_start().len();
                if text.trim().is_empty() {
                    inner.push(Line { start: lines[j].end, end: lines[j].end });
                } else if indent >= width {
                    inner.push(Line { start: lines[j].start + width, end: lines[j].end });
                    end = lines[j].end;
                } else {
                    break;
                }
                j += 1;
            }
            let children = self.blocks(&inner);
            items.push(self.node(BlockKind::ListItem { task }, start..end, Vec::new(), children));
        }
        let end = items.last().map_or(lines[i].end, |item| item.source_range.end);
        let kind = match number {
            Some(start) => BlockKind::OrderedList { start },
            None => BlockKind::BulletList,
        };
        out.push(self.node(kind, lines[i].start..end, Vec::new(), items));
        j
    }

    fn footnote(&mut self, lines: &[Line], i: usize, out: &mut Vec<Node>) -> usize {
        let text = self.text(lines[i]);
        let (len, label) = footnote_marker(text).unwrap();
        let label = text[label].to_string();
        let rest = self.strip(lines[i], Part::Footnote, len);
        let children = self.blocks(&[rest]);
        let superscript = Some(superscripts(&label));
        let kind = BlockKind::FootnoteDefinition { label, superscript };
        out.push(self.node(kind, lines[i].start..lines[i].end, Vec::new(), children));
        i + 1
    }

    fn definition(&mut self, line: Line, out: &mut Vec<Node>) {
        let (label, dest) = reference_definition(self.text(line)).unwrap();
        let shift = |r: &Range<usize>| line.start + r.start..line.start + r.end;
        let (label, dest) = (shift(&label), shift(&dest));
        let inlines = vec![
            plain_run(&self.source[label.clone()], label.clone()),
            plain_run(&self.source[dest.clone()], dest.clone()),
        ];
        let mut node = self.node(BlockKind::Paragraph, line.start..line.end, inlines, Vec::new());
        node.facts.def_chrome = Some(LinkReferenceDefChrome {
            outer: line.start..line.end,
            open: line.start..label.start,
            close: label.end..label.end + 1,
            colon: label.end + 1..dest.start,
            label,
        });
        out.push(node);
    }

    fn html(&mut self, lines: &[Line], i: usize, out: &mut Vec<Node>) -> usize {
        let mut j = i;
        while j < lines.len() && !self.text(lines[j]).trim().is_empty() {
            j += 1;
        }
        let (raw, literal_map) = self.joined(&lines[i..j], lines[i].start);
        let range = lines[i].start..lines[j - 1].end;
        let html = html_facts(&raw, literal_map);
        let kind = BlockKind::Opaque { raw, image: None };
        let mut node = self.node(kind, range, Vec::new(), Vec::new());
        node.facts.html = html;
        out.push(node);
        j
    }

    fn table(&mut self, lines: &[Line], i: usize, out: &mut Vec<Node>) -> usize {
        let mut j = i;
        let mut rows = Vec::new();
        let mut columns = 0;
        while j < lines.len() && self.text(lines[j]).contains('|') {
            if j != i + 1 {
                let cells = self.cells(lines[j]);
                columns = columns.max(cells.len());
                let kind = BlockKind::TableRow { header: j == i };
                rows.push(self.node(kind, lines[j].start..lines[j].end, Vec::new(), cells));
            }
            j += 1;
        }
        let kind = BlockKind::Table { alignments: vec![ColumnAlign::Unset; columns] };
        out.push(self.node(kind, lines[i].start..lines[j - 1].end, Vec::new(), rows));
        j
    }

    fn cells(&mut self, line: Line) -> Vec<Node> {
        let mut at = line.start;
        let mut out = Vec::new();
        let text = self.text(line);
        for (k, piece) in text.split('|').enumerate() {
            let (start, end) = (at, at + piece.len());
            at = end + 1;
            if piece.trim().is_empty() && (k == 0 || end == line.end) {
                continue;
            }
            let lead = piece.len() - piece.trim_start().len();
            let body = Line { start: start + lead, end: start + lead + piece.trim().len() };
            let inlines = self.inlines(&[body]);
            out.push(self.node(BlockKind::TableCell, start..end, inlines, Vec::new()));
        }
        out
    }

    fn interrupts(&self, text: &str) -> bool {
        let body = text.trim_start();
        body.is_empty()
            || body.starts_with('>')
            || fence_ticks(text) > 0
            || atx_level(text).is_some()
            || is_rule(text)
            || list_marker(body).is_some()
            || reference_definition(body).is_some()
            || starts_html_block(text)
    }

    fn paragraph(&mut self, lines: &[Line], i: usize, out: &mut Vec<Node>) -> usize {
        let mut j = i + 1;
        let mut body = vec![trimmed_line(self.source, lines[i])];
        while j < lines.len() {
            let text = self.text(lines[j]);
            if text.trim().len() > 1 && (is_underline(text, '=') || is_underline(text, '-')) {
                let level = if text.contains('=') { 1 } else { 2 };
                let inlines = self.inlines(&body);
                let kind = BlockKind::Heading { level, style: HeadingStyle::Setext };
                out.push(self.node(kind, lines[i].start..lines[j].end, inlines, Vec::new()));
                return j + 1;
            }
            if is_details(text) || self.interrupts(text) {
                break;
            }
            body.push(trimmed_line(self.source, lines[j]));
            j += 1;
        }
        let blank = usize::from(j < lines.len() && self.text(lines[j]).trim().is_empty());
        if j + blank < lines.len() && is_details(self.text(lines[j + blank])) {
            return self.definition_list(lines, i, &body, j + blank, out);
        }
        let last = body.len() - 1;
        body[last].end = body[last].start + self.text(body[last]).trim_end().len();
        let range = body[0].start..body[last].end;
        let inlines = self.inlines(&body);
        out.push(self.node(BlockKind::Paragraph, range, inlines, Vec::new()));
        j
    }

    fn definition_list(
        &mut self,
        lines: &[Line],
        i: usize,
        term: &[Line],
        j: usize,
        out: &mut Vec<Node>,
    ) -> usize {
        let inlines = self.inlines(term);
        let term_range = term[0].start..term[term.len() - 1].end;
        let term = self.node(BlockKind::DefinitionTerm, term_range, inlines, Vec::new());
        let text = self.text(lines[j]);
        let len = text.len() - text[1..].trim_start().len();
        let range = lines[j].start..lines[j].end;
        let rest = self.strip(lines[j], Part::Details, len);
        let children = self.blocks(&[rest]);
        let details = self.node(BlockKind::DefinitionDetails, range, Vec::new(), children);
        let range = lines[i].start..lines[j].end;
        let item = self.node(BlockKind::DefinitionItem, range.clone(), Vec::new(), vec![term, details]);
        out.push(self.node(BlockKind::DefinitionList, range, Vec::new(), vec![item]));
        j + 1
    }

    fn inlines(&mut self, lines: &[Line]) -> Vec<Inline> {
        let (text, map) = self.joined(lines, lines[0].start);
        let mut parser = InlineReader { reader: self, text: &text, map: &map, out: Vec::new() };
        let end = text.len();
        parser.read(0, end, &Context::default());
        parser.out
    }
}

const ALERTS: [(AlertKind, &str, &str); 5] = [
    (AlertKind::Note, "NOTE", "Note"),
    (AlertKind::Tip, "TIP", "Tip"),
    (AlertKind::Important, "IMPORTANT", "Important"),
    (AlertKind::Warning, "WARNING", "Warning"),
    (AlertKind::Caution, "CAUTION", "Caution"),
];

fn trimmed_line(source: &str, line: Line) -> Line {
    let text = &source[line.start..line.end];
    Line { start: line.start + (text.len() - text.trim_start().len()), end: line.end }
}

fn is_underline(text: &str, mark: char) -> bool {
    let text = text.trim();
    !text.is_empty() && text.chars().all(|c| c == mark)
}

fn is_details(text: &str) -> bool {
    text == ":" || text.starts_with(": ")
}

fn plain_run(text: &str, source_range: Range<usize>) -> Inline {
    Inline::Run {
        text: text.to_string(),
        raw: None,
        source_range,
        marks: MarkSet::empty(),
        link: None,
        fidelity: MarkFidelity::default(),
    }
}

/// Marks and link around the text being read.
#[derive(Clone)]
struct Context {
    marks: MarkSet,
    fidelity: MarkFidelity,
    link: Option<LinkAttrs>,
}

impl Default for Context {
    fn default() -> Self {
        Context { marks: MarkSet::empty(), fidelity: MarkFidelity::default(), link: None }
    }
}

struct InlineReader<'r, 'a, 't> {
    reader: &'r mut Reader<'a>,
    text: &'t str,
    map: &'t [usize],
    out: Vec<Inline>,
}

impl InlineReader<'_, '_, '_> {
    fn range(&self, start: usize, end: usize) -> Range<usize> {
        if start == end {
            self.map[start]..self.map[start]
        } else {
            self.map[start]..self.map[end - 1] + 1
        }
    }

    fn run(&mut self, text: &str, raw: Option<&str>, range: Range<usize>, cx: &Context) {
        self.out.push(Inline::Run {
            text: text.to_string(),
            raw: raw.map(str::to_string),
            source_range: range,
            marks: cx.marks,
            link: cx.link.clone(),
            fidelity: cx.fidelity,
        });
    }

    fn flush(&mut self, start: usize, end: usize, cx: &Context) {
        if start < end {
            let text = self.text[start..end].to_string();
            let range = self.range(start, end);
            self.run(&text, None, range, cx);
        }
    }

    /// Reads `start..end` under `cx`.
    fn read(&mut self, start: usize, end: usize, cx: &Context) {
        let mut plain = start;
        let mut i = start;
        while i < end {
            let before = self.out.len();
            let held = plain;
            let mut lead = i;
            if let Some(next) = self.special(i, end, cx, &mut lead) {
                let mut added = self.out.split_off(before);
                self.flush(held, lead, cx);
                self.out.append(&mut added);
                i = next;
                plain = next;
            } else {
                i += self.text[i..].chars().next().map_or(1, char::len_utf8);
            }
        }
        self.flush(plain, end, cx);
    }

    /// Reads the construct at `i`, if one starts there, and says where it
    /// ends. `lead` moves back where the construct takes text before it.
    fn special(&mut self, i: usize, end: usize, cx: &Context, lead: &mut usize) -> Option<usize> {
        let rest = &self.text[i..end];
        let first = rest.chars().next()?;
        match first {
            '\n' => {
                let spaces = self.text[..i].len() - self.text[..i].trim_end_matches(' ').len();
                if spaces >= 2 {
                    *lead = i - spaces;
                    let source_range = self.range(i - spaces, i + 1);
                    self.out.push(Inline::HardBreak { style: BreakStyle::TwoSpaces, source_range });
                } else {
                    let source_range = self.range(i, i + 1);
                    self.out.push(Inline::SoftBreak { source_range });
                }
                Some(i + 1)
            }
            '\\' if rest[1..].starts_with('\n') => {
                let source_range = self.range(i, i + 2);
                self.out.push(Inline::HardBreak { style: BreakStyle::Backslash, source_range });
                Some(i + 2)
            }
            '\\' if rest[1..].starts_with(|c: char| c.is_ascii_punctuation()) => {
                let range = self.range(i, i + 2);
                let (text, raw) = (rest[1..2].to_string(), rest[..2].to_string());
                self.run(&text, Some(&raw), range, cx);
                Some(i + 2)
            }
            '&' => {
                let semi = rest.find(';')?;
                let glyph = character_reference(&rest[1..semi])?;
                let raw = rest[..=semi].to_string();
                let range = self.range(i, i + semi + 1);
                self.run(&glyph.to_string(), Some(&raw), range, cx);
                Some(i + semi + 1)
            }
            '`' => self.code_span(i, end, cx),
            '<' => self.angle(i, end, cx),
            '$' => self.math(i, end, cx),
            '!' if rest[1..].starts_with('[') => self.link(i, end, true, cx),
            '[' if rest.starts_with("[[") => self.wiki(i, end, cx),
            '[' if rest.starts_with("[^") => self.footnote(i, end, cx),
            '[' => self.link(i, end, false, cx),
            ':' => self.emoji(i, end, cx),
            '*' | '_' | '~' | '=' | '^' => self.marked(i, end, cx),
            _ => self.bare_link(i, end, cx),
        }
    }

    fn code_span(&mut self, i: usize, end: usize, cx: &Context) -> Option<usize> {
        let rest = &self.text[i..end];
        let ticks = rest.len() - rest.trim_start_matches('`').len();
        let mut at = ticks;
        loop {
            let found = at + rest[at..].find('`')?;
            let run = rest[found..].len() - rest[found..].trim_start_matches('`').len();
            if run == ticks {
                let inner = &rest[ticks..found];
                let padded = inner.len() > 2 && inner.starts_with(' ') && inner.ends_with(' ');
                let text = if padded { &inner[1..inner.len() - 1] } else { inner }.to_string();
                let mut cx = cx.clone();
                cx.marks.code = true;
                cx.fidelity.code_backticks = ticks;
                let range = self.range(i + ticks, i + found);
                self.run(&text, None, range, &cx);
                return Some(i + found + ticks);
            }
            at = found + run;
        }
    }

    fn angle(&mut self, i: usize, end: usize, cx: &Context) -> Option<usize> {
        let rest = self.text[i..end].to_string();
        if rest.starts_with("<!--") {
            let len = rest.find("-->")? + 3;
            return Some(self.opaque(i, i + len, None, cx));
        }
        if rest.starts_with("<svg") {
            let len = rest.find("</svg>")? + 6;
            let image = HtmlImage { url: "data:image/svg+xml,".to_string(), alt: String::new() };
            return Some(self.opaque(i, i + len, Some(image), cx));
        }
        let len = rest.find('>')? + 1;
        let inner = &rest[1..len - 1];
        let url = inner.contains("://") && !inner.contains(' ') && !inner.contains('=');
        let email = inner.contains('@') && !inner.contains(' ');
        if url || email {
            let mut cx = cx.clone();
            let url = if email { format!("mailto:{inner}") } else { inner.to_string() };
            cx.link = Some(LinkAttrs { url, title: None, autolink: false, angle: true, group: 0 });
            let range = self.range(i + 1, i + len - 1);
            self.run(inner, None, range, &cx);
            return Some(i + len);
        }
        if tag_name(&rest).is_empty() {
            return None;
        }
        let image = if tag_name(&rest) == "img" {
            Some(HtmlImage { url: attribute(&rest[..len], "src"), alt: String::new() })
        } else {
            None
        };
        Some(self.opaque(i, i + len, image, cx))
    }

    fn opaque(&mut self, start: usize, end: usize, image: Option<HtmlImage>, cx: &Context) -> usize {
        let source_range = self.range(start, end);
        self.out.push(Inline::OpaqueInline {
            raw: self.text[start..end].to_string(),
            source_range,
            marks: cx.marks,
            image,
            caret_chrome: false,
        });
        end
    }

    fn math(&mut self, i: usize, end: usize, cx: &Context) -> Option<usize> {
        let rest = &self.text[i..end];
        let display = rest.starts_with("$$");
        let delim = if display { "$$" } else { "$" };
        let w = delim.len();
        let close = w + rest[w..].find(delim)?;
        if close == w {
            return None;
        }
        let source_range = self.range(i, i + close + w);
        self.out.push(Inline::Math {
            literal: rest[w..close].trim_matches('\n').to_string(),
            display,
            raw: rest[..close + w].to_string(),
            source_range,
            marks: cx.marks,
        });
        Some(i + close + w)
    }

    fn wiki(&mut self, i: usize, end: usize, cx: &Context) -> Option<usize> {
        let rest = &self.text[i..end];
        let close = rest.find("]]")?;
        let inner = &rest[2..close];
        let label = inner.split('|').next_back()?.to_string();
        let source_range = self.range(i, i + close + 2);
        self.out.push(Inline::WikiLink {
            label,
            raw: rest[..close + 2].to_string(),
            source_range,
            marks: cx.marks,
        });
        Some(i + close + 2)
    }

    fn footnote(&mut self, i: usize, end: usize, cx: &Context) -> Option<usize> {
        let close = self.text[i..end].find(']')?;
        Some(self.opaque(i, i + close + 1, None, cx))
    }

    fn emoji(&mut self, i: usize, end: usize, cx: &Context) -> Option<usize> {
        let rest = &self.text[i..end];
        let close = 1 + rest[1..].find(':')?;
        let glyph = match &rest[1..close] {
            "smile" => "😄",
            "heart" => "❤️",
            "+1" => "👍",
            "rocket" => "🚀",
            _ => return None,
        };
        let source_range = self.range(i, i + close + 1);
        self.out.push(Inline::Emoji {
            glyph: glyph.to_string(),
            raw: rest[..=close].to_string(),
            source_range,
            marks: cx.marks,
            link: cx.link.clone(),
            fidelity: cx.fidelity,
        });
        Some(i + close + 1)
    }

    fn link(&mut self, i: usize, end: usize, image: bool, cx: &Context) -> Option<usize> {
        let rest = self.text[i..end].to_string();
        let open = if image { 2 } else { 1 };
        let mut depth = 1;
        let mut close = open;
        for c in rest[open..].chars() {
            match c {
                '[' => depth += 1,
                ']' => depth -= 1,
                _ => {}
            }
            if depth == 0 {
                break;
            }
            close += c.len_utf8();
        }
        if depth != 0 {
            return None;
        }
        let label = &rest[open..close];
        let after = &rest[close + 1..];
        let defined = |name: &str| self.reader.defs.contains(&name.to_lowercase());
        let (url, tail) = if after.starts_with('(') {
            let paren = after.find(')')?;
            (after[1..paren].split(' ').next().unwrap_or("").to_string(), paren + 1)
        } else if after.starts_with('[') {
            let bracket = after.find(']')?;
            let name = if bracket == 1 { label } else { &after[1..bracket] };
            if !defined(name) {
                return None;
            }
            (name.to_string(), bracket + 1)
        } else if defined(label) {
            (label.to_string(), 0)
        } else {
            return None;
        };
        let outer_end = i + close + 1 + tail;
        let chrome = MarkdownLinkChrome {
            outer: self.range(i, outer_end),
            open: self.range(i, i + open),
            close: self.range(i + close, i + close + 1),
            dest: self.range(i + close, i + close + 1).end..self.range(i, outer_end).end,
        };
        if image {
            let source_range = chrome.outer.clone();
            self.out.push(Inline::Image {
                alt: label.to_string(),
                url,
                source_range,
                marks: cx.marks,
                link: cx.link.clone(),
            });
            return Some(outer_end);
        }
        self.reader.next_group += 1;
        let group = self.reader.next_group;
        self.reader.links.insert(group, chrome);
        let mut inner = cx.clone();
        inner.link = Some(LinkAttrs { url, title: None, autolink: false, angle: false, group });
        self.read(i + open, i + close, &inner);
        Some(outer_end)
    }

    fn marked(&mut self, i: usize, end: usize, cx: &Context) -> Option<usize> {
        let rest = &self.text[i..end];
        for delim in ["***", "**", "__", "~~", "==", "*", "_", "~", "^"] {
            if !rest.starts_with(delim) {
                continue;
            }
            let w = delim.len();
            if rest[w..].starts_with([' ', '\n']) || (delim == "_" && self.inside_word(i)) {
                continue;
            }
            let mut from = w;
            while let Some(found) = rest[from..].find(delim) {
                let close = from + found;
                let run = rest[close..].len()
                    - rest[close..].trim_start_matches(&delim[..1]).len();
                if close > w && run == w && !rest[..close].ends_with(' ') {
                    self.reader.next_group += 1;
                    let inner = marked_context(cx, delim, self.reader.next_group);
                    self.read(i + w, i + close, &inner);
                    return Some(i + close + w);
                }
                from = close + run.max(1);
            }
        }
        None
    }

    fn inside_word(&self, i: usize) -> bool {
        self.text[..i].ends_with(|c: char| c.is_alphanumeric())
    }

    fn bare_link(&mut self, i: usize, end: usize, cx: &Context) -> Option<usize> {
        let rest = &self.text[i..end];
        if self.text[..i].ends_with(|c: char| !c.is_whitespace()) || cx.link.is_some() {
            return None;
        }
        let len = rest.find([' ', '\n', '<']).unwrap_or(rest.len());
        let word = &rest[..len];
        let url = if ["https://", "http://", "www."].iter().any(|p| word.starts_with(p)) {
            word.to_string()
        } else if word.find('@').is_some_and(|a| a > 0 && word[a..].contains('.')) {
            format!("mailto:{word}")
        } else {
            return None;
        };
        let word = word.to_string();
        let mut cx = cx.clone();
        cx.link = Some(LinkAttrs { url, title: None, autolink: true, angle: false, group: 0 });
        let range = self.range(i, i + len);
        self.run(&word, None, range, &cx);
        Some(i + len)
    }
}

fn marked_context(cx: &Context, delim: &str, group: u64) -> Context {
    let mut cx = cx.clone();
    let byte = delim.as_bytes()[0];
    if delim == "***" || delim == "*" || delim == "_" {
        cx.marks.italic = true;
        cx.fidelity.emph_delim = byte;
        cx.fidelity.emph_group = group;
    }
    if delim == "***" || delim == "**" || delim == "__" {
        cx.marks.bold = true;
        cx.fidelity.strong_delim = byte;
        cx.fidelity.strong_group = group;
    }
    match delim {
        "~~" => {
            cx.marks.strike = true;
            cx.fidelity.strike_group = group;
        }
        "==" => {
            cx.marks.highlight = true;
            cx.fidelity.highlight_group = group;
        }
        "~" => {
            cx.marks.sub = true;
            cx.fidelity.sub_group = group;
        }
        "^" => {
            cx.marks.sup = true;
            cx.fidelity.sup_group = group;
        }
        _ => {}
    }
    cx
}

fn character_reference(name: &str) -> Option<char> {
    if let Some(hex) = name.strip_prefix("#x") {
        return char::from_u32(u32::from_str_radix(hex, 16).ok()?);
    }
    if let Some(digits) = name.strip_prefix('#') {
        return char::from_u32(digits.parse().ok()?);
    }
    match name {
        "amp" => Some('&'),
        "lt" => Some('<'),
        "gt" => Some('>'),
        "quot" => Some('"'),
        _ => None,
    }
}

fn attribute(tag: &str, name: &str) -> String {
    let key = format!("{name}=\"");
    match tag.find(&key) {
        Some(at) => tag[at + key.len()..].split('"').next().unwrap_or("").to_string(),
        None => String::new(),
    }
}

fn superscripts(text: &str) -> String {
    text.chars()
        .map(|c| match c {
            '1' => '¹',
            '2' => '²',
            '3' => '³',
            other => other,
        })
        .collect()
}

fn subscripts(text: &str) -> String {
    text.chars()
        .map(|c| match c {
            '1' => '₁',
            '2' => '₂',
            '3' => '₃',
            other => other,
        })
        .collect()
}

fn no_paint() -> HtmlPaint {
    HtmlPaint {
        bold: false,
        italic: false,
        strike: false,
        code: false,
        mark: false,
        underline: false,
        sup: false,
        sub: false,
        color: None,
        background: None,
        href: None,
    }
}

fn add_tag_paint(paint: &mut HtmlPaint, tag: &str) {
    match tag_name(tag).as_str() {
        "b" | "strong" => paint.bold = true,
        "i" | "em" => paint.italic = true,
        "s" | "del" => paint.strike = true,
        "code" => paint.code = true,
        "mark" => paint.mark = true,
        "u" => paint.underline = true,
        "sup" => paint.sup = true,
        "sub" => paint.sub = true,
        "a" => paint.href = Some(attribute(tag, "href")),
        _ => {}
    }
    let style = attribute(tag, "style");
    if let Some(at) = style.find("color: #") {
        let hex = &style[at + 8..at + 14];
        let byte = |k: usize| u8::from_str_radix(&hex[k..k + 2], 16).unwrap_or(0);
        paint.color = Some(CssColor { red: byte(0), green: byte(2), blue: byte(4) });
    }
    if style.contains("font-weight: bold") {
        paint.bold = true;
    }
}

fn stack_paint(stack: &[String]) -> HtmlPaint {
    let mut paint = no_paint();
    for tag in stack {
        add_tag_paint(&mut paint, tag);
    }
    paint
}

/// The node with the link brackets and tags that touch it on both sides.
fn core_of(source: &str, inner: &Range<usize>, link: Option<&MarkdownLinkChrome>) -> Range<usize> {
    let mut core = inner.clone();
    loop {
        if let Some(c) = link {
            if core == (c.open.end..c.close.start) {
                core = c.outer.clone();
                continue;
            }
        }
        let before = source.get(..core.start).unwrap_or("");
        let after = source.get(core.end..).unwrap_or("");
        if before.ends_with('>') && after.starts_with("</") {
            if let (Some(open), Some(close)) = (before.rfind('<'), after.find('>')) {
                if !before[open..].starts_with("</") {
                    core = open..core.end + close + 1;
                    continue;
                }
            }
        }
        return core;
    }
}

fn inline_facts(
    source: &str,
    inlines: &[Inline],
    links: &HashMap<u64, MarkdownLinkChrome>,
    prefixes: &HashMap<usize, LinePrefixParts>,
) -> Vec<InlineFacts> {
    let mut stack: Vec<String> = Vec::new();
    let mut out = Vec::new();
    for inline in inlines {
        let range = inline.source_range();
        let mut facts = InlineFacts {
            hidden: stack.iter().any(|tag| DANGEROUS_ELEMENTS.contains(&tag_name(tag).as_str())),
            paint: stack_paint(&stack),
            core: range.clone(),
            link_chrome: None,
            image_chrome: None,
            decoded: false,
            code_visible: range.clone(),
            angle: None,
            superscript: String::new(),
            subscript: String::new(),
            visible: range.clone(),
            prefix: empty_parts(0),
            tag: HtmlRevealKind::Skip,
            action: InlineHtmlAction::Hide,
        };
        match inline {
            Inline::Run { text, raw, marks, link, .. } => {
                let chrome = link.as_ref().and_then(|l| links.get(&l.group));
                facts.link_chrome = chrome.cloned();
                facts.core = core_of(source, &range, chrome);
                facts.decoded = raw.is_some();
                if marks.code && range.len() == text.len() + 2 {
                    facts.code_visible = range.start + 1..range.end - 1;
                }
                if link.as_ref().is_some_and(|l| l.angle) {
                    facts.angle = Some(range.start - 1..range.end + 1);
                }
                facts.superscript = superscripts(text);
                facts.subscript = subscripts(text);
            }
            Inline::Image { link, .. } => {
                let chrome = link.as_ref().and_then(|l| links.get(&l.group));
                facts.link_chrome = chrome.cloned();
                facts.image_chrome = image_chrome(source, &range);
                facts.core = core_of(source, &range, chrome);
            }
            Inline::SoftBreak { .. } | Inline::HardBreak { .. } => {
                if let Some(parts) = prefixes.get(&range.end) {
                    facts.prefix = copy_parts(parts);
                }
            }
            Inline::Math { literal, raw, display, .. } => {
                let w = if *display { 2 } else { 1 };
                let inner = &raw[w..raw.len() - w];
                let lead = w + (inner.len() - inner.trim_start_matches('\n').len());
                facts.visible = range.start + lead..range.start + lead + literal.len();
            }
            Inline::WikiLink { label, .. } => {
                facts.visible = range.end - 2 - label.len()..range.end - 2;
            }
            Inline::Emoji { link, .. } => {
                facts.link_chrome = link.as_ref().and_then(|l| links.get(&l.group)).cloned();
                facts.visible = range.start + 1..range.end - 1;
            }
            Inline::OpaqueInline { raw, image, .. } => {
                let name = tag_name(raw);
                if raw.starts_with("[^") {
                    let label = &raw[2..raw.len() - 1];
                    facts.action = InlineHtmlAction::FootnoteRef { glyph: superscripts(label) };
                    facts.visible = range.start + 2..range.end - 1;
                } else if image.is_some() {
                    facts.action = InlineHtmlAction::Image;
                } else if name == "br" {
                    facts.action = InlineHtmlAction::Break;
                } else if name.is_empty() || raw.ends_with("/>") {
                    facts.tag = HtmlRevealKind::Solo;
                } else if raw.starts_with("</") {
                    facts.tag = HtmlRevealKind::Close(name.clone());
                    if let Some(at) = stack.iter().rposition(|tag| tag_name(tag) == name) {
                        stack.truncate(at);
                    }
                } else {
                    facts.tag = HtmlRevealKind::Open(name);
                    stack.push(raw.clone());
                }
            }
        }
        out.push(facts);
    }
    out
}

fn image_chrome(source: &str, range: &Range<usize>) -> Option<MarkdownLinkChrome> {
    let text = source.get(range.clone())?;
    let close = range.start + text.find(']')?;
    Some(MarkdownLinkChrome {
        outer: range.clone(),
        open: range.start..range.start + 2,
        close: close..close + 1,
        dest: close + 1..range.end,
    })
}

/// Elements inside a paragraph that show nothing, or only their source.
fn widgets_in(source: &str, inlines: &[Inline]) -> Vec<TagfilterWidget> {
    let mut out: Vec<TagfilterWidget> = Vec::new();
    for inline in inlines {
        let Inline::OpaqueInline { raw, source_range, .. } = inline else {
            continue;
        };
        let name = tag_name(raw);
        let name = name.as_str();
        let source_chrome = SOURCE_ELEMENTS.contains(&name);
        if raw.starts_with("</")
            || !(source_chrome || DANGEROUS_ELEMENTS.contains(&name))
            || out.iter().any(|w| w.range.contains(&source_range.start))
        {
            continue;
        }
        let close = format!("</{name}>");
        let end = match source[source_range.end..].find(&close) {
            Some(at) => source_range.end + at + close.len(),
            None => source_range.end,
        };
        out.push(TagfilterWidget { range: source_range.start..end, source_chrome });
    }
    out
}

fn html_facts(raw: &str, literal_map: Vec<usize>) -> HtmlBlockFacts {
    let name = tag_name(raw);
    let name = name.as_str();
    let commented = ["<!--", "<?", "<!["].iter().any(|open| raw.starts_with(open));
    let mut facts = HtmlBlockFacts {
        visual: HtmlBlockVisual::Hidden,
        is_rule: name == "hr",
        preformatted: name == "pre",
        source_chrome: commented || SOURCE_ELEMENTS.contains(&name),
        dangerous: DANGEROUS_ELEMENTS.contains(&name),
        literal_map,
        wrapper: None,
    };
    let open = raw.find('>').map_or(raw.len(), |at| at + 1);
    if !commented && name != "hr" {
        let close = format!("</{name}>");
        let close = raw.rfind(&close).map(|at| at..at + close.len());
        facts.wrapper = Some((0..open, close));
    }
    if facts.is_rule {
        facts.visual = HtmlBlockVisual::ThematicBreak;
    } else if !facts.source_chrome && !facts.dangerous {
        facts.visual = html_flow(raw);
    }
    facts
}

/// The text of `raw` without its tags.
fn html_flow(raw: &str) -> HtmlBlockVisual {
    let mut text = String::new();
    let mut source_at = Vec::new();
    let mut runs: Vec<HtmlPaintRun> = Vec::new();
    let mut stack: Vec<String> = Vec::new();
    let mut i = 0;
    while i < raw.len() {
        if raw[i..].starts_with('<') {
            let len = raw[i..].find('>').map_or(raw.len() - i, |at| at + 1);
            let tag = raw[i..i + len].to_string();
            if tag.starts_with("</") {
                stack.pop();
            } else {
                stack.push(tag);
            }
            i += len;
            continue;
        }
        let len = raw[i..].find('<').unwrap_or(raw.len() - i);
        let piece = &raw[i..i + len];
        let lead = if text.is_empty() { piece.len() - piece.trim_start_matches('\n').len() } else { 0 };
        let last = i + len >= raw.len() || raw[i + len..].matches('<').count() == 1;
        let kept = if last { piece[lead..].trim_end_matches('\n') } else { &piece[lead..] };
        if !kept.is_empty() {
            text.push_str(kept);
            source_at.extend(i + lead..i + lead + kept.len());
            runs.push(HtmlPaintRun { len: kept.len(), paint: stack_paint(&stack) });
        }
        i += len;
    }
    if text.is_empty() {
        return HtmlBlockVisual::Hidden;
    }
    source_at.push(source_at[source_at.len() - 1] + 1);
    HtmlBlockVisual::Flow { text, source_at, runs }
}

fn body_style() -> TextStyle {
    TextStyle { underlined: false }
}

fn leaf_layout(block: &Node, source: &str, reveal: &RevealState, hosts: &ChromeHosts) -> LeafLayout {
    assert_eq!(block.inlines.len(), block.facts.inlines.len());
    block_layout::build_leaf_layout_revealed(&BlockInput {
        block: &block.block,
        facts: &block.facts,
        source,
        style: body_style(),
        state: reveal,
        hosts,
    })
}

/// Layout of an HTML block, its inner Markdown read by the same reader.
fn html_layout(block: &Node, source: &str, reveal: &RevealState, flow_only: bool) -> LeafLayout {
    let html = &block.facts.html;
    let (empty_map, no_runs) = (vec![0], Vec::new());
    let (text, source_at, runs) = match &html.visual {
        HtmlBlockVisual::Flow { text, source_at, runs } => (text.as_str(), source_at, runs),
        other if flow_only => panic!("expected flow, got {other:?}"),
        _ => ("", &empty_map, &no_runs),
    };
    let inner = import(text);
    let parsed = html_inner_inlines(html.preformatted, text, &inner.tree);
    let facts = inline_facts(text, &parsed, &inner.links, &inner.prefixes);
    let widgets = widgets_in(text, &parsed);
    let inlines = html_painted_inlines(text, &parsed, &facts, &widgets, runs, body_style());
    let painted_facts = inline_facts(text, &inlines, &inner.links, &inner.prefixes);
    let painted_widgets = widgets_in(text, &inlines);
    let flow = HtmlFlow {
        text,
        source_at,
        paints: runs,
        tree: &inner.tree,
        parsed: HtmlInlines { inlines: &parsed, facts: &facts, widgets: &widgets },
        painted: HtmlInlines {
            inlines: &inlines,
            facts: &painted_facts,
            widgets: &painted_widgets,
        },
    };
    if flow_only {
        build_html_block_layout(&flow, &block.block, html, body_style(), reveal)
    } else {
        layout_html_block(&block.block, &block.facts, source, &flow, body_style(), reveal)
    }
}

fn blank_caret_gap_before(doc: &Doc, index: usize) -> Option<Range<usize>> {
    let end = doc.blocks[index].source_range.start;
    let start = match index {
        0 => 0,
        _ => doc.blocks[index - 1].source_range.end + 1,
    };
    if start < end {
        Some(start..end)
    } else {
        None
    }
}

fn blank_caret_gap_after_last(doc: &Doc) -> Option<Range<usize>> {
    let end = doc.source.len();
    match doc.blocks.last() {
        None => Some(0..end),
        Some(last) => {
            let start = last.source_range.end + 1;
            if start < end {
                Some(start..end)
            } else {
                None
            }
        }
    }
}

fn prefix_blank_layout(doc: &Doc, blank: &PrefixBlank, reveal: &RevealState) -> LeafLayout {
    let parts = match doc.prefixes.get(&blank.line.start) {
        Some(parts) => copy_parts(parts),
        None => empty_parts(blank.line.start),
    };
    block_layout::build_prefix_blank_layout(&doc.source, blank, &parts, reveal)
}

fn alignment_line(source: &str, table: &Node) -> Option<Range<usize>> {
    table_alignment_line(source, &table.block, &Vec::new())
}

fn is_underlined(run: &TextRun) -> bool {
    matches!(
        run.style.underline,
        RunUnderline::Text | RunUnderline::Link | RunUnderline::Css(_)
    )
}

fn is_colored(run: &TextRun) -> bool {
    run.style.color != RunColor::Inherit
}

fn has_background(run: &TextRun) -> bool {
    matches!(
        run.style.background,
        RunBackground::Code | RunBackground::Highlight | RunBackground::Css(_)
    )
}

fn math_run_is_styled(run: &TextRun) -> bool {
    run.style.italic && run.style.code_font
}

fn layout_of_source(block: &Node, source: &str, reveal: &RevealState) -> LeafLayout {
    leaf_layout(block, source, reveal, &ChromeHosts::none())
}

fn layout_for_caret(source: &str, caret: usize) -> LeafLayout {
    let tree = import(source);
    let block = leaf_at(&tree.blocks, caret)
        .or_else(|| tree.blocks.first())
        .expect("block");
    leaf_layout(
        block,
        source,
        &RevealState { caret, selection: 0..0 },
        &chrome_hosts_for(&tree, block.id),
    )
}

fn layout_in_tree(tree: &Doc, block: &Node, source: &str, reveal: &RevealState) -> LeafLayout {
    leaf_layout(block, source, reveal, &chrome_hosts_for(tree, block.id))
}

fn first_thematic(blocks: &[Node]) -> Option<&Node> {
    for b in blocks {
        if block_layout::block_paints_as_thematic_break(&b.block, &b.facts) {
            return Some(b);
        }
        if let Some(found) = first_thematic(&b.children) {
            return Some(found);
        }
    }
    None
}

fn layout_thematic(source: &str, reveal: &RevealState) -> LeafLayout {
    let tree = import(source);
    let block = first_thematic(&tree.blocks).expect("thematic break");
    layout_in_tree(&tree, block, source, reveal)
}

fn code_layout(block: &Node) -> LeafLayout {
    let body = match &block.kind {
        BlockKind::CodeBlock { literal, .. } => literal.strip_suffix('\n').unwrap_or(literal),
        _ => unreachable!(),
    };
    block_layout::build_code_block_layout(body, block.code_map.clone(), &block.facts.code_body)
}

fn fenced_code_layout(source: &str) -> LeafLayout {
    let tree = import(source);
    let block = first_kind(&tree.blocks, |k| matches!(k, BlockKind::CodeBlock { .. }))
        .expect("code block");
    code_layout(block)
}

fn reveal_fence(layout: &mut LeafLayout, block: &Node, source: &str, reveal: &RevealState) {
    chrome::apply_code_fence_reveal(layout, &block.block, source, &block.facts.code_body, reveal);
}

fn html_block_layout_from_source_reveal(source: &str, reveal: &RevealState) -> LeafLayout {
    let tree = import(source);
    let block = first_kind(&tree.blocks, |k| matches!(k, BlockKind::Opaque { .. }))
        .expect("html block");
    html_layout(block, source, reveal, true)
}

fn html_block_layout_or_source(source: &str, block: &Node, reveal: &RevealState) -> LeafLayout {
    html_layout(block, source, reveal, false)
}

fn alert_body_layout(source: &str, caret: usize) -> LeafLayout {
    let tree = import(source);
    let alert =
        first_kind(&tree.blocks, |k| matches!(k, BlockKind::Alert { .. })).expect("alert");
    let para = first_paragraph(alert).expect("alert body");
    layout_of_source(para, source, &RevealState { caret, selection: 0..0 })
}

#[test]
fn github_alert_body_hides_tag_for_each_kind() {
    for (kind, tag, label) in ALERTS {
        let source = format!("> [!{tag}]\n> hello {label}\n");
        let layout = alert_body_layout(&source, usize::MAX);
        assert!(
            !layout.text.contains("[!"),
            "[!{tag}] must not paint in the body, got {:?}",
            layout.text
        );
        assert!(
            layout.text.contains("hello"),
            "expected body text, got {:?}",
            layout.text
        );
        let tree = import(&source);
        let BlockKind::Alert { kind: found, label: shown, .. } = &tree.blocks[0].kind else {
            panic!("expected alert, got {:?}", tree.blocks[0].kind);
        };
        assert_eq!(*found, kind, "{tag}");
        assert_eq!(shown, label, "{tag}");
    }
}

#[test]
fn github_alert_reveals_chrome_when_caret_intersects() {
    let source = "> [!NOTE]\n> hello\n";
    let tree = import(source);
    let BlockKind::Alert {
        chrome_range,
        tag_range,
        kind,
        label,
    } = &tree.blocks[0].kind
    else {
        panic!("expected alert, got {:?}", tree.blocks[0].kind);
    };
    assert_eq!(*kind, AlertKind::Note);
    assert_eq!(label, "Note");
    assert_eq!(&source[tag_range.clone()], "[!NOTE]");
    let outside = RevealState::hidden();
    assert!(!outside.intersects(chrome_range));
    let on_tag = RevealState {
        caret: tag_range.start,
        selection: 0..0,
    };
    assert!(on_tag.intersects(chrome_range));
    let body = alert_body_layout(source, source.find("hello").unwrap());
    assert_eq!(body.text, "hello");
    assert!(!body.text.contains("[!NOTE]"));
}

fn px(v: f32) -> i64 {
    (v * PX as f32) as i64
}

fn point(x: i64, y: i64) -> Point {
    Point { x, y }
}

fn rect(x: f32, y: f32, w: f32, h: f32) -> Bounds {
    Bounds { x: px(x), y: px(y), width: px(w), height: px(h) }
}

fn body_frame(caret: usize, leaves: Vec<ImeLeafHit>) -> ImeOriginState {
    let mut ime = ImeOriginState::default();
    ime.begin_frame(false, caret, None);
    for leaf in leaves {
        ime.report_leaf(leaf);
    }
    ime
}

fn leaf_hit(layout: LeafLayout, bounds: Bounds) -> ImeLeafHit {
    ImeLeafHit {
        layout: Arc::new(layout),
        bounds,
        font_size: px(16.0),
        line_height: px(22.0),
        caret_bounds: Some(Bounds { x: bounds.x + px(2.0), width: px(2.0), height: px(20.0), ..bounds }),
    }
}

fn mapped_fence_leaf(source: &str, bounds: Bounds) -> ImeLeafHit {
    let tree = import(source);
    let block = first_kind(&tree.blocks, |k| matches!(k, BlockKind::CodeBlock { .. }))
        .expect("code block");
    leaf_hit(code_layout(block), bounds)
}

fn mapped_html_leaf(source: &str, bounds: Bounds) -> ImeLeafHit {
    leaf_hit(html_block_layout_from_source(source), bounds)
}

fn mapped_para_leaf(source: &str, bounds: Bounds) -> ImeLeafHit {
    let tree = import(source);
    let block = first_kind(&tree.blocks, |k| matches!(k, BlockKind::Paragraph)).expect("paragraph");
    leaf_hit(layout_of_source(block, source, &RevealState::hidden()), bounds)
}


fn layout_for(source: &str) -> LeafLayout {
    let tree = import(source);
    let block = &tree.blocks[0];
    layout_of_source(block, source, &RevealState::hidden())
}

fn layout_of(block: &Node) -> LeafLayout {
    layout_of_source(block, "", &RevealState::hidden())
}

fn first_paragraph(block: &Node) -> Option<&Node> {
    if matches!(block.kind, BlockKind::Paragraph) {
        return Some(block);
    }
    for child in &block.children {
        if let Some(p) = first_paragraph(child) {
            return Some(p);
        }
    }
    None
}

fn find_paragraph_with<'a>(blocks: &'a [Node], needle: &str) -> Option<&'a Node> {
    for block in blocks {
        if matches!(block.kind, BlockKind::Paragraph)
            && block.inlines.iter().any(|inline| match inline {
                Inline::Run { text, .. } => text.contains(needle),
                Inline::Image { alt, .. } => alt.contains(needle),
                _ => false,
            })
        {
            return Some(block);
        }
        if let Some(found) = find_paragraph_with(&block.children, needle) {
            return Some(found);
        }
    }
    None
}

fn first_kind(blocks: &[Node], pred: impl Fn(&BlockKind) -> bool + Copy) -> Option<&Node> {
    for b in blocks {
        if pred(&b.kind) {
            return Some(b);
        }
        if let Some(found) = first_kind(&b.children, pred) {
            return Some(found);
        }
    }
    None
}

#[test]
fn visible_offset_maps_to_source_inside_bold() {
    let layout = layout_for("**bold**\n");
    assert_eq!(layout.text, "bold");
    assert_eq!(layout.source_for_visible(0), 2);
    assert_eq!(layout.visible_for_source(2), 0);
    assert_eq!(layout.visible_for_source(6), 4);
}

#[test]
fn emphasis_reveals_delimiters_when_caret_intersects() {
    let source = "see **bold** here\n";
    let hidden = layout_for(source);
    assert_eq!(hidden.text, "see bold here");
    assert!(
        !hidden.text.contains('*'),
        "caret outside must hide `**`, got {:?}",
        hidden.text
    );
    let b = source.find("bold").expect("bold");
    let revealed = layout_for_caret(source, b);
    assert_eq!(
        revealed.text, "see **bold** here",
        "caret inside bold must reveal `**`, got {:?}",
        revealed.text
    );
    let vis_star = revealed.text.find('*').expect("painted *");
    assert_eq!(
        source
            .as_bytes()
            .get(revealed.source_for_visible(vis_star))
            .copied(),
        Some(b'*'),
        "click on painted `*` maps onto the delimiter"
    );
    let vis_b = revealed.text.find("bold").expect("painted bold");
    assert_eq!(
        source
            .as_bytes()
            .get(revealed.source_for_visible(vis_b))
            .copied(),
        Some(b'b'),
        "click on painted `bold` still maps onto `b`, not a phantom `**`"
    );
    assert_eq!(
        source
            .as_bytes()
            .get(hidden.source_for_visible(hidden.text.find('b').expect("b")))
            .copied(),
        Some(b'b'),
        "hidden click on painted bold maps into the word"
    );

    let italic = "go *hi* now\n";
    assert_eq!(layout_for(italic).text, "go hi now");
    let h = italic.find('h').expect("h");
    assert_eq!(layout_for_caret(italic, h).text, "go *hi* now");

    let under = "go _hi_ now\n";
    assert_eq!(layout_for(under).text, "go hi now");
    let h = under.find('h').expect("h");
    assert_eq!(layout_for_caret(under, h).text, "go _hi_ now");

    let strong = "go __hi__ now\n";
    assert_eq!(layout_for(strong).text, "go hi now");
    let h = strong.find('h').expect("h");
    assert_eq!(layout_for_caret(strong, h).text, "go __hi__ now");

    let strike = "go ~~gone~~ now\n";
    assert_eq!(layout_for(strike).text, "go gone now");
    let g = strike.find("gone").expect("gone");
    assert_eq!(layout_for_caret(strike, g).text, "go ~~gone~~ now");

    let code = "go `x` now\n";
    assert_eq!(layout_for(code).text, "go x now");
    let x = code.find('x').expect("x");
    assert_eq!(layout_for_caret(code, x).text, "go `x` now");

    let start = source.find("**bold**").expect("span");
    let tree = import(source);
    let selected = layout_of_source(
        &tree.blocks[0],
        source,
        &RevealState {
            caret: 0,
            selection: start..start + "**bold**".len(),
        },
    );
    assert!(
        selected.text.contains("**bold**"),
        "selection overlap must reveal `**`, got {:?}",
        selected.text
    );
}

#[test]
fn nested_emphasis_reveals_per_span() {
    let source = "**bold *italic* x**\n";
    let hidden = layout_for(source);
    assert_eq!(hidden.text, "bold italic x");
    assert!(!hidden.text.contains('*'));

    let in_italic = source.find("italic").expect("italic");
    let both = layout_for_caret(source, in_italic);
    assert_eq!(
        both.text, "**bold *italic* x**",
        "caret in nested italic is inside both spans, got {:?}",
        both.text
    );

    let in_bold = source.find("bold").expect("bold");
    let outer = layout_for_caret(source, in_bold);
    assert_eq!(
        outer.text, "**bold italic x**",
        "caret in outer bold must not reveal nested italic stars, got {:?}",
        outer.text
    );
    assert!(outer.text.contains("**"));
    assert!(!outer.text.contains("*italic*"));
}

#[test]
fn atx_reveals_hashes_when_caret_intersects() {
    let source = "# Title\n";
    let hidden = layout_for(source);
    assert_eq!(hidden.text, "Title");
    assert!(!hidden.text.contains('#'));
    let t = source.find('T').expect("T");
    let revealed = layout_for_caret(source, t);
    assert!(
        revealed.text.contains('#') && revealed.text.contains("Title"),
        "caret in ATX title must reveal hashes, got {:?}",
        revealed.text
    );
    assert_eq!(revealed.text, "# Title");
    let vis_hash = revealed.text.find('#').expect("#");
    assert_eq!(
        source
            .as_bytes()
            .get(revealed.source_for_visible(vis_hash))
            .copied(),
        Some(b'#'),
        "click on painted `#` maps onto the hash"
    );
    let vis_t = revealed.text.find('T').expect("T");
    assert_eq!(
        source
            .as_bytes()
            .get(revealed.source_for_visible(vis_t))
            .copied(),
        Some(b'T'),
        "click on painted Title still maps onto `T`"
    );

    let h2 = "## Sub\n";
    assert_eq!(layout_for(h2).text, "Sub");
    let s = h2.find('S').expect("S");
    assert_eq!(layout_for_caret(h2, s).text, "## Sub");

    let closed = "# Title #\n";
    assert_eq!(layout_for(closed).text, "Title");
    let t = closed.find('T').expect("T");
    let closed_rev = layout_for_caret(closed, t);
    assert!(
        closed_rev.text.starts_with('#') && closed_rev.text.contains("Title"),
        "closed ATX must reveal opening hashes, got {:?}",
        closed_rev.text
    );
    assert!(
        closed_rev.text.ends_with('#'),
        "closed ATX must reveal trailing hashes, got {:?}",
        closed_rev.text
    );
}

/// CommonMark 0–3 spaces before ATX `#` / fence ticks / thematic `---`
/// hide with the marker and reveal on intersect. Click on body maps
/// onto the word. Quoted keep `>`. Four spaces stay indented code.
#[test]
fn cm_opening_indent_hides_and_reveals_with_the_marker() {
    for (source, body, hidden, revealed) in [
        (" # Title\n", "Title", "Title", " # Title"),
        ("  # Title\n", "Title", "Title", "  # Title"),
        ("   # Title\n", "Title", "Title", "   # Title"),
    ] {
        let hidden_layout = layout_for(source);
        assert_eq!(
            hidden_layout.text, hidden,
            "caret outside must hide opening indent with `#`, {source:?} got {:?}",
            hidden_layout.text
        );
        let at = source.find(body).expect(body);
        let rev = layout_for_caret(source, at);
        assert_eq!(
            rev.text, revealed,
            "caret in the title must reveal indent+`#`, {source:?} got {:?}",
            rev.text
        );
        let vis = rev.text.find(body).expect(body);
        assert_eq!(
            source.as_bytes().get(rev.source_for_visible(vis)).copied(),
            Some(body.as_bytes()[0]),
            "click on body maps onto the word, {source:?}"
        );
    }

    let quoted = ">  # Title\n";
    let tree = import(quoted);
    let heading = first_kind(&tree.blocks, |k| matches!(k, BlockKind::Heading { .. }))
        .expect("quoted heading");
    let hidden_q = layout_of_source(heading, quoted, &RevealState::hidden());
    assert_eq!(
        hidden_q.text, "Title",
        "quoted caret outside must hide indent+`#` (keep `>` as quote chrome), got {:?}",
        hidden_q.text
    );
    let t = quoted.find("Title").expect("Title");
    let rev_q = layout_for_caret(quoted, t);
    assert!(
        rev_q.text.contains('>') && rev_q.text.contains('#') && rev_q.text.contains("Title"),
        "quoted caret in title must keep `>` and reveal indent+`#`, got {:?}",
        rev_q.text
    );
    assert!(
        rev_q.text.contains("  #") || rev_q.text.contains(">  #"),
        "quoted reveal must include the extra indent with `#`, got {:?}",
        rev_q.text
    );

    let setext = " Title\n===\n";
    assert_eq!(
        layout_for(setext).text,
        "Title",
        "caret outside must hide setext indent with the underline, got {:?}",
        layout_for(setext).text
    );
    let st = setext.find("Title").expect("Title");
    let setext_rev = layout_for_caret(setext, st);
    assert!(
        setext_rev.text.starts_with(' ')
            && setext_rev.text.contains("Title")
            && setext_rev.text.contains('='),
        "caret in setext title must reveal indent with underline, got {:?}",
        setext_rev.text
    );
    let vis_t = setext_rev.text.find('T').expect("T");
    assert_eq!(
        setext
            .as_bytes()
            .get(setext_rev.source_for_visible(vis_t))
            .copied(),
        Some(b'T'),
        "click on painted Title still maps onto `T`"
    );

    let fence = "  ```\n  foo\n  ```\n";
    let hidden_fence = fenced_code_layout(fence);
    assert_eq!(
        hidden_fence.text, "foo",
        "caret outside must hide fence indent and ticks, got {:?}",
        hidden_fence.text
    );
    let f = fence.find("foo").expect("foo");
    assert_eq!(
        hidden_fence.source_for_visible(0),
        f,
        "click on painted `foo` must map onto `f`, not fence_offset spaces"
    );
    let tree_f = import(fence);
    let fence_block = first_kind(&tree_f.blocks, |k| {
        matches!(k, BlockKind::CodeBlock { fenced: true, .. })
    })
    .expect("fence");
    let mut fence_rev = fenced_code_layout(fence);
    reveal_fence(
        &mut fence_rev,
        fence_block,
        fence,
        &RevealState {
            caret: f,
            selection: 0..0,
        }
    );
    assert!(
        fence_rev.text.contains("  ```") && fence_rev.text.contains("foo"),
        "caret in fence body must reveal indent with ticks, got {:?}",
        fence_rev.text
    );
    let vis_tick = fence_rev.text.find('`').expect("`");
    assert_eq!(
        fence
            .as_bytes()
            .get(fence_rev.source_for_visible(vis_tick))
            .copied(),
        Some(b'`'),
        "click on painted ticks maps onto a tick"
    );
    let vis_f = fence_rev.text.find('f').expect("f");
    assert_eq!(
        fence
            .as_bytes()
            .get(fence_rev.source_for_visible(vis_f))
            .copied(),
        Some(b'f'),
        "click on painted foo still maps onto `f`"
    );

    let rule = " ---\n";
    let hidden_rule = layout_thematic(rule, &RevealState::hidden());
    assert!(
        hidden_rule.text.is_empty(),
        "caret outside must paint a rule, got {:?}",
        hidden_rule.text
    );
    let dash = rule.find('-').expect("-");
    let rev_rule = layout_thematic(
        rule,
        &RevealState {
            caret: dash,
            selection: 0..0,
        },
    );
    assert_eq!(
        rev_rule.text, " ---",
        "caret on the rule must reveal indent with `---`, got {:?}",
        rev_rule.text
    );
    let vis_dash = rev_rule.text.find('-').expect("-");
    assert_eq!(
        rule.as_bytes()
            .get(rev_rule.source_for_visible(vis_dash))
            .copied(),
        Some(b'-'),
        "click on painted `-` maps onto the marker"
    );
}

#[test]
fn setext_reveals_underline_when_caret_intersects() {
    let source = "Title\n=====\n";
    let hidden = layout_for(source);
    assert_eq!(hidden.text, "Title");
    assert!(
        !hidden.text.contains('='),
        "setext underline must hide when caret is outside, got {:?}",
        hidden.text
    );
    let t = source.find('T').expect("T");
    let revealed = layout_for_caret(source, t);
    assert!(
        revealed.text.contains("Title") && revealed.text.contains('='),
        "caret in setext title must reveal the underline, got {:?}",
        revealed.text
    );
    let vis_eq = revealed.text.find('=').expect("=");
    assert_eq!(
        source
            .as_bytes()
            .get(revealed.source_for_visible(vis_eq))
            .copied(),
        Some(b'='),
        "click on painted `=` maps onto the underline"
    );
    let vis_t = revealed.text.find('T').expect("T");
    assert_eq!(
        source
            .as_bytes()
            .get(revealed.source_for_visible(vis_t))
            .copied(),
        Some(b'T'),
        "click on painted Title still maps onto `T`"
    );
}

#[test]
fn link_reveals_brackets_hides_dest_when_caret_in_label() {
    let source = "see [label](https://e.com) now\n";
    let hidden = layout_for(source);
    assert_eq!(hidden.text, "see label now");
    assert!(
        !hidden.text.contains('[') && !hidden.text.contains(']'),
        "link chrome must hide when caret is outside, got {:?}",
        hidden.text
    );

    let l = source.find("label").expect("label");
    let in_label = layout_for_caret(source, l);
    assert_eq!(
        in_label.text, "see [label] now",
        "caret in the label reveals `[` `]` and hides dest, got {:?}",
        in_label.text
    );
    assert!(
        !in_label.text.contains("https://e.com") && !in_label.text.contains('('),
        "dest must stay hidden while the caret is only in the label, got {:?}",
        in_label.text
    );
    let vis_l = in_label.text.find("label").expect("painted label");
    assert_eq!(
        source
            .as_bytes()
            .get(in_label.source_for_visible(vis_l))
            .copied(),
        Some(b'l'),
        "click on painted label maps onto `l`, not a phantom `[`"
    );
    let vis_br = in_label.text.find('[').expect("painted [");
    assert_eq!(
        source
            .as_bytes()
            .get(in_label.source_for_visible(vis_br))
            .copied(),
        Some(b'['),
        "click on revealed `[` maps onto that source byte"
    );

    let dest = source.find("https").expect("dest");
    let in_dest = layout_for_caret(source, dest);
    assert!(
        in_dest.text.contains("[label](https://e.com)"),
        "caret in dest must reveal `](url)`, got {:?}",
        in_dest.text
    );

    let titled = "see [label](https://e.com \"title\") now\n";
    let titled_dest = titled.find("https").expect("titled dest");
    let in_titled = layout_for_caret(titled, titled_dest);
    assert!(
        in_titled.text.contains("[label](https://e.com \"title\")"),
        "caret in titled dest must reveal dest+title, got {:?}",
        in_titled.text
    );

    let start = source.find("[label](https://e.com)").expect("span");
    let tree = import(source);
    let selected = layout_of_source(
        &tree.blocks[0],
        source,
        &RevealState {
            caret: 0,
            selection: start..start + "[label](https://e.com)".len(),
        },
    );
    assert!(
        selected.text.contains("[label](https://e.com)"),
        "selection overlap must reveal dest (source masking), got {:?}",
        selected.text
    );

    let bold_link = "[**bold**](https://e.com)\n";
    assert_eq!(layout_for(bold_link).text, "bold");
    let b = bold_link.find("bold").expect("bold");
    let both = layout_for_caret(bold_link, b);
    assert_eq!(
        both.text, "[**bold**]",
        "caret in a bold label reveals wrap marks and `[` `]`, not dest, got {:?}",
        both.text
    );

    let wrapped = "see **[hello](https://e.com)** now\n";
    let hidden_wrap = layout_for(wrapped);
    assert_eq!(
        hidden_wrap.text, "see hello now",
        "caret outside must hide wrapping `**` and link chrome, got {:?}",
        hidden_wrap.text
    );
    assert!(
        !hidden_wrap.text.contains('*') && !hidden_wrap.text.contains('['),
        "wrapping emphasis around a link must hide like dest chrome, got {:?}",
        hidden_wrap.text
    );
    let h = wrapped.find("hello").expect("hello");
    let in_wrap = layout_for_caret(wrapped, h);
    assert_eq!(
        in_wrap.text, "see **[hello]** now",
        "caret in a bold-wrapped link reveals wrap marks and `[` `]`, not dest, got {:?}",
        in_wrap.text
    );
    let vis_h = in_wrap.text.find("hello").expect("painted hello");
    assert_eq!(
        wrapped
            .as_bytes()
            .get(in_wrap.source_for_visible(vis_h))
            .copied(),
        Some(b'h'),
        "click on painted `hello` still maps onto `h`"
    );
    let vis_star = in_wrap.text.find('*').expect("painted *");
    assert_eq!(
        wrapped
            .as_bytes()
            .get(in_wrap.source_for_visible(vis_star))
            .copied(),
        Some(b'*'),
        "click on revealed wrapping `*` maps onto that source byte"
    );

    let italic = "see *[hello](https://e.com)* now\n";
    assert_eq!(layout_for(italic).text, "see hello now");
    let ih = italic.find("hello").expect("hello");
    assert_eq!(
        layout_for_caret(italic, ih).text,
        "see *[hello]* now",
        "italic wrapping a link reveals `*` and `[` `]`, got {:?}",
        layout_for_caret(italic, ih).text
    );

    let strike = "see ~~[hello](https://e.com)~~ now\n";
    assert_eq!(layout_for(strike).text, "see hello now");
    let sh = strike.find("hello").expect("hello");
    assert_eq!(
        layout_for_caret(strike, sh).text,
        "see ~~[hello]~~ now",
        "strike wrapping a link reveals `~~` and `[` `]`, got {:?}",
        layout_for_caret(strike, sh).text
    );

    let nested = "see ***[hello](https://e.com)*** now\n";
    assert_eq!(layout_for(nested).text, "see hello now");
    let nh = nested.find("hello").expect("hello");
    assert_eq!(
        layout_for_caret(nested, nh).text,
        "see ***[hello]*** now",
        "nested `***` wrapping a link reveals wrap marks and `[` `]`, got {:?}",
        layout_for_caret(nested, nh).text
    );

    let html_wrap = "see **<b>hello</b>** now\n";
    assert_eq!(
        layout_for(html_wrap).text,
        "see hello now",
        "caret outside must hide wrapping `**` and HTML tags, got {:?}",
        layout_for(html_wrap).text
    );
    let hh = html_wrap.find("hello").expect("hello");
    assert_eq!(
        layout_for_caret(html_wrap, hh).text,
        "see **<b>hello</b>** now",
        "caret in HTML wrapped by `**` reveals marks and tags, got {:?}",
        layout_for_caret(html_wrap, hh).text
    );

    let linked_html = "see [<b>hello</b>](https://e.com) now\n";
    assert_eq!(
        layout_for(linked_html).text,
        "see hello now",
        "caret outside must hide `[` and HTML tags around a linked label, got {:?}",
        layout_for(linked_html).text
    );
    let lh = linked_html.find("hello").expect("hello");
    assert_eq!(
        layout_for_caret(linked_html, lh).text,
        "see [<b>hello</b>] now",
        "caret in HTML inside a link reveals `[` `]` and tags, not dest, got {:?}",
        layout_for_caret(linked_html, lh).text
    );

    let img_wrap = "see **![alt](a.png)** now\n";
    assert_eq!(
        layout_for(img_wrap).text,
        "see  now",
        "caret outside must hide wrapping `**` around an image, got {:?}",
        layout_for(img_wrap).text
    );
    let ia = img_wrap.find("alt").expect("alt");
    let img_in = layout_for_caret(img_wrap, ia);
    assert!(
        img_in.text.contains("**") && img_in.text.contains("![alt]"),
        "caret on an image wrapped by `**` reveals wrapping marks, got {:?}",
        img_in.text
    );

    let html_img = "see **<img src=\"a.png\">** now\n";
    assert_eq!(
        layout_for(html_img).text,
        "see  now",
        "caret outside must hide wrapping `**` around HTML `<img>`, got {:?}",
        layout_for(html_img).text
    );
    let src = html_img.find("src").expect("src");
    let html_img_in = layout_for_caret(html_img, src);
    assert!(
        html_img_in.text.contains("**") && !html_img_in.text.contains('<'),
        "caret on HTML `<img>` wrapped by `**` reveals wrapping marks, not the tag, got {:?}",
        html_img_in.text
    );

    let linked_img = "see *[![cat](a.png)](https://e.com)* now\n";
    assert!(
        !layout_for(linked_img).text.contains('*')
            && !layout_for(linked_img).text.contains('['),
        "caret outside must hide italic wrap around a linked image, got {:?}",
        layout_for(linked_img).text
    );
    let cat = linked_img.find("cat").expect("cat");
    let linked_in = layout_for_caret(linked_img, cat);
    assert!(
        linked_in.text.contains('*')
            && linked_in.text.contains("[![cat]")
            && !linked_in.text.contains("https://e.com"),
        "caret on a linked image wrapped by `*` reveals wrap and `[` `]`, not dest, got {:?}",
        linked_in.text
    );

    let strike_ref = "see ~~[hello][ref]~~ now\n\n[ref]: https://e.com\n";
    assert_eq!(layout_for(strike_ref).text, "see hello now");
    let srh = strike_ref.find("hello").expect("hello");
    assert_eq!(
        layout_for_caret(strike_ref, srh).text,
        "see ~~[hello]~~ now",
        "strike wrapping a reference link reveals `~~` and `[` `]`, got {:?}",
        layout_for_caret(strike_ref, srh).text
    );

    let mixed = "see **hello [link](https://e.com)** now\n";
    assert_eq!(
        layout_for(mixed).text,
        "see hello link now",
        "bold spanning a trailing link must hide wrap and dest, got {:?}",
        layout_for(mixed).text
    );
    let lk = mixed.find("link").expect("link");
    let mixed_in = layout_for_caret(mixed, lk);
    assert!(
        mixed_in.text.contains("**")
            && mixed_in.text.contains("[link]")
            && !mixed_in.text.contains("https://e.com"),
        "caret in the trailing link of a bold span reveals wrapping `**` and `[` `]`, got {:?}",
        mixed_in.text
    );

    let reference = "see [label][ref] now\n\n[ref]: https://e.com\n";
    let r = reference.find("label").expect("label");
    let ref_layout = layout_for_caret(reference, r);
    assert!(
        ref_layout.text.contains("[label]") && !ref_layout.text.contains("[ref]"),
        "caret in a reference label hides `[ref]` dest, got {:?}",
        ref_layout.text
    );
}

#[test]
fn image_reveals_bang_brackets_when_caret_intersects() {
    let source = "![cat](img.png)\n";
    let hidden = layout_for(source);
    assert!(
        hidden.text.is_empty(),
        "hidden image leaf stays empty (pixels are a sibling), got {:?}",
        hidden.text
    );
    let c = source.find("cat").expect("cat");
    let revealed = layout_for_caret(source, c);
    assert_eq!(
        revealed.text, "![cat](img.png)",
        "caret on an image paints `![]()` including dest (atomic), got {:?}",
        revealed.text
    );
    let vis_c = revealed.text.find("cat").expect("painted cat");
    assert_eq!(
        source
            .as_bytes()
            .get(revealed.source_for_visible(vis_c))
            .copied(),
        Some(b'c'),
        "click on painted alt maps onto `c`"
    );
    let vis_bang = revealed.text.find('!').expect("!");
    assert_eq!(
        source
            .as_bytes()
            .get(revealed.source_for_visible(vis_bang))
            .copied(),
        Some(b'!'),
        "click on revealed `!` maps onto that source byte"
    );

    let mixed = "hello ![cat](img.png) world\n";
    assert_eq!(layout_for(mixed).text, "hello  world");
    let in_img = layout_for_caret(mixed, mixed.find("cat").expect("cat"));
    assert!(
        in_img.text.contains("![cat](img.png)"),
        "caret on a mixed image must paint image chrome, got {:?}",
        in_img.text
    );
    assert!(
        in_img.text.contains("hello") && in_img.text.contains("world"),
        "surrounding text stays, got {:?}",
        in_img.text
    );

    let wrapped = "[![alt](img.png)](https://e.com)\n";
    let a = wrapped.find("alt").expect("alt");
    let on_img = layout_for_caret(wrapped, a);
    assert!(
        on_img.text.contains("![alt](img.png)"),
        "linked image must paint image chrome, got {:?}",
        on_img.text
    );
    assert!(
        on_img.text.starts_with('[') && on_img.text.contains(']'),
        "wrapping `[` `]` reveal when the image (label) is intersected, got {:?}",
        on_img.text
    );
    assert!(
        !on_img.text.contains("https://e.com"),
        "wrapping dest stays hidden while the caret is in the image label, got {:?}",
        on_img.text
    );
    let dest = wrapped.find("https").expect("dest");
    let on_dest = layout_for_caret(wrapped, dest);
    assert!(
        on_dest.text.contains("](https://e.com)") || on_dest.text.contains("(https://e.com)"),
        "caret in wrapping dest must reveal dest, got {:?}",
        on_dest.text
    );
}

#[test]
fn thematic_break_reveals_source_when_caret_intersects() {
    for source in [
        "hello\n\n---\n\nworld\n",
        "hello\n\n***\n\nworld\n",
        "hello\n\n___\n\nworld\n",
        "hello\n\n* * *\n\nworld\n",
        "hello\n\n- - -\n\nworld\n",
        "hello\n\n<hr>\n\nworld\n",
        "hello\n\n<hr/>\n\nworld\n",
    ] {
        let hidden = layout_thematic(source, &RevealState::hidden());
        assert!(
            hidden.text.is_empty(),
            "caret outside must paint a rule (empty leaf), got {:?} in {source:?}",
            hidden.text
        );
        let marker = if source.contains("<hr") {
            source.find("<hr").expect("hr")
        } else if source.contains("---") {
            source.find("---").expect("---")
        } else if source.contains("***") {
            source.find("***").expect("***")
        } else if source.contains("___") {
            source.find("___").expect("___")
        } else if source.contains("* * *") {
            source.find("* * *").expect("* * *")
        } else {
            source.find("- - -").expect("- - -")
        };
        let revealed = layout_thematic(
            source,
            &RevealState {
                caret: marker,
                selection: 0..0,
            },
        );
        let want = if source.contains("<hr/>") {
            "<hr/>"
        } else if source.contains("<hr>") {
            "<hr>"
        } else if source.contains("---") {
            "---"
        } else if source.contains("***") {
            "***"
        } else if source.contains("___") {
            "___"
        } else if source.contains("* * *") {
            "* * *"
        } else {
            "- - -"
        };
        assert!(
            revealed.text.contains(want),
            "caret on the break must reveal {want:?}, got {:?} in {source:?}",
            revealed.text
        );
        let needle = want.as_bytes()[0];
        let vis = revealed
            .text
            .as_bytes()
            .iter()
            .position(|&b| b == needle)
            .expect("painted marker");
        assert_eq!(
            source
                .as_bytes()
                .get(revealed.source_for_visible(vis))
                .copied(),
            Some(needle),
            "click on revealed source maps onto that byte in {source:?}"
        );
    }

    let quoted = "> ---\n";
    let dash = quoted.find('-').expect("-");
    let on_rule = layout_thematic(
        quoted,
        &RevealState {
            caret: dash,
            selection: 0..0,
        },
    );
    assert!(
        on_rule.text.contains("---"),
        "quoted break must reveal `---`, got {:?}",
        on_rule.text
    );
    assert!(
        on_rule.text.contains('>'),
        "quoted break must reveal `>` when intersected, got {:?}",
        on_rule.text
    );
    let vis_dash = on_rule.text.find('-').expect("painted -");
    assert_eq!(
        quoted
            .as_bytes()
            .get(on_rule.source_for_visible(vis_dash))
            .copied(),
        Some(b'-'),
        "click on revealed `-` maps onto the dash, not `>`"
    );

    let listed = "- <hr>\n";
    let lt = listed.find('<').expect("<");
    let on_hr = layout_thematic(
        listed,
        &RevealState {
            caret: lt,
            selection: 0..0,
        },
    );
    assert!(
        on_hr.text.contains("<hr>"),
        "list `<hr>` must reveal the tag, got {:?}",
        on_hr.text
    );
    let vis_lt = on_hr.text.find('<').expect("painted <");
    assert_eq!(
        listed
            .as_bytes()
            .get(on_hr.source_for_visible(vis_lt))
            .copied(),
        Some(b'<'),
        "click on revealed `<` maps onto the tag"
    );

    let source = "hello\n\n---\n\nworld\n";
    let start = source.find("---").expect("---");
    let selected = layout_thematic(
        source,
        &RevealState {
            caret: 0,
            selection: start..start + 3,
        },
    );
    assert!(
        selected.text.contains("---"),
        "selection overlap must reveal `---`, got {:?}",
        selected.text
    );
}

#[test]
fn list_quote_fence_table_reveal_chrome_when_caret_intersects() {
    let list = "- hello\n- world\n";
    let h = list.find("hello").expect("hello");
    let tree = import(list);
    let first_para = first_paragraph(&tree.blocks[0]).expect("first item");
    assert_eq!(
        layout_of(first_para).text,
        "hello",
        "caret outside hides list chrome, got {:?}",
        layout_of(first_para).text
    );
    let in_item = layout_for_caret(list, h);
    assert_eq!(
        in_item.text, "- hello",
        "caret in a list item must reveal `- `, got {:?}",
        in_item.text
    );
    let vis_dash = in_item.text.find('-').expect("-");
    assert_eq!(
        list.as_bytes()
            .get(in_item.source_for_visible(vis_dash))
            .copied(),
        Some(b'-'),
        "click on painted `-` maps onto the marker"
    );
    let vis_h = in_item.text.find('h').expect("h");
    assert_eq!(
        list.as_bytes()
            .get(in_item.source_for_visible(vis_h))
            .copied(),
        Some(b'h'),
        "click on body still maps onto `h`, not a phantom `-`"
    );

    let w = list.find("world").expect("world");
    let first_while_on_second = layout_in_tree(
        &tree,
        first_para,
        list,
        &RevealState {
            caret: w,
            selection: 0..0,
        },
    );
    assert_eq!(
        first_while_on_second.text, "hello",
        "unfocused item must keep the marker hidden, got {:?}",
        first_while_on_second.text
    );
    let start = list.find("- hello").expect("item");
    let selected = layout_in_tree(
        &tree,
        first_para,
        list,
        &RevealState {
            caret: 0,
            selection: start..start + "- hello".len(),
        },
    );
    assert!(
        selected.text.contains("- hello"),
        "selection overlap must reveal the list marker, got {:?}",
        selected.text
    );

    let ordered = "1. hello\n";
    let ordered_tree = import(ordered);
    let ordered_para = first_paragraph(&ordered_tree.blocks[0]).expect("ordered");
    assert_eq!(layout_of(ordered_para).text, "hello");
    let oh = ordered.find('h').expect("h");
    assert_eq!(layout_for_caret(ordered, oh).text, "1. hello");

    let task = "- [x] done\n";
    let task_tree = import(task);
    let task_para = first_paragraph(&task_tree.blocks[0]).expect("task");
    assert_eq!(layout_of(task_para).text, "done");
    let d = task.find("done").expect("done");
    let task_rev = layout_for_caret(task, d);
    assert_eq!(
        task_rev.text, "- [x] done",
        "caret in a task item reveals `- [x] `, got {:?}",
        task_rev.text
    );
    let vis_d = task_rev.text.find('d').expect("d");
    assert_eq!(
        task.as_bytes()
            .get(task_rev.source_for_visible(vis_d))
            .copied(),
        Some(b'd'),
        "click on task body maps onto `d`"
    );

    let quote = "> quoted\n";
    let quote_tree = import(quote);
    let quote_para = first_paragraph(&quote_tree.blocks[0]).expect("quote");
    assert_eq!(layout_of(quote_para).text, "quoted");
    let qh = quote.find('q').expect("q");
    let quote_rev = layout_for_caret(quote, qh);
    assert_eq!(
        quote_rev.text, "> quoted",
        "caret in a quote must reveal `>`, got {:?}",
        quote_rev.text
    );
    let vis_gt = quote_rev.text.find('>').expect(">");
    assert_eq!(
        quote
            .as_bytes()
            .get(quote_rev.source_for_visible(vis_gt))
            .copied(),
        Some(b'>'),
        "click on painted `>` maps onto the marker"
    );
    let vis_q = quote_rev.text.find('q').expect("q");
    assert_eq!(
        quote
            .as_bytes()
            .get(quote_rev.source_for_visible(vis_q))
            .copied(),
        Some(b'q'),
        "click on quoted body maps onto `q`"
    );

    let wrap = "> hello\n> world\n";
    let wrap_h = wrap.find('h').expect("h");
    let wrap_rev = layout_for_caret(wrap, wrap_h);
    assert!(
        wrap_rev.text.contains("> hello") && wrap_rev.text.contains("> world"),
        "caret in a wrapped quote reveals continuation `>`, got {:?}",
        wrap_rev.text
    );
    let vis_w = wrap_rev.text.find("world").expect("world");
    assert_eq!(
        wrap.as_bytes()
            .get(wrap_rev.source_for_visible(vis_w))
            .copied(),
        Some(b'w'),
        "click on continuation body maps onto `w`"
    );

    let quoted_list = "> - item\n";
    let i = quoted_list.find("item").expect("item");
    let ql = layout_for_caret(quoted_list, i);
    assert_eq!(
        ql.text, "> - item",
        "quoted list item reveals `>` and `- `, got {:?}",
        ql.text
    );

    let fence = "```rust\nfn main() {}\n```\n";
    let hidden_fence = layout_for(fence);
    assert_eq!(hidden_fence.text, "fn main() {}");
    assert!(!hidden_fence.text.contains('`'));
    let f = fence.find("fn").expect("fn");
    let fence_rev = layout_for_caret(fence, f);
    assert!(
        fence_rev.text.contains("```")
            && fence_rev.text.contains("rust")
            && fence_rev.text.contains("fn main() {}"),
        "caret in a fence must reveal ticks and language, got {:?}",
        fence_rev.text
    );
    let vis_tick = fence_rev.text.find('`').expect("`");
    assert_eq!(
        fence
            .as_bytes()
            .get(fence_rev.source_for_visible(vis_tick))
            .copied(),
        Some(b'`'),
        "click on painted ticks maps onto the fence"
    );
    let vis_fn = fence_rev.text.find("fn").expect("fn");
    assert_eq!(
        fence
            .as_bytes()
            .get(fence_rev.source_for_visible(vis_fn))
            .copied(),
        Some(b'f'),
        "click on fence body still maps onto `f`"
    );

    let table = "| a | b |\n|---|---|\n| 1 | 2 |\n";
    let table_tree = import(table);
    let cell =
        first_kind(&table_tree.blocks, |k| matches!(k, BlockKind::TableCell)).expect("cell");
    let hidden_cell = layout_of(cell);
    assert_eq!(hidden_cell.text, "a");
    assert!(!hidden_cell.text.contains('|'));
    let a = table.find('a').expect("a");
    let cell_rev = layout_for_caret(table, a);
    assert!(
        cell_rev.text.contains('|') && cell_rev.text.contains('a'),
        "caret in a table cell must reveal `|`, got {:?}",
        cell_rev.text
    );
    let vis_a = cell_rev.text.find('a').expect("a");
    assert_eq!(
        table
            .as_bytes()
            .get(cell_rev.source_for_visible(vis_a))
            .copied(),
        Some(b'a'),
        "click on cell text still maps onto `a`"
    );
    let one = table.find('1').expect("1");
    let other_cell = layout_for_caret(table, one);
    assert!(
        other_cell.text.contains('|'),
        "caret anywhere in the table reveals pipes on that cell, got {:?}",
        other_cell.text
    );
    let align = alignment_line(table, &table_tree.blocks[0]).expect("align");
    assert!(
        table[align.clone()].contains('-') && table[align.clone()].contains('|'),
        "alignment row is the delimiter line, got {:?}",
        &table[align]
    );
}

/// CommonMark tab / 1–4 space list-marker padding hides with the marker
/// and reveals on intersect. Click on body still maps onto the word.
#[test]
fn list_marker_padding_hides_and_reveals_with_the_marker() {
    for (source, body, hidden, revealed) in [
        ("-\titem\n", "item", "item", "-\titem"),
        ("-   item\n", "item", "item", "-   item"),
        ("1.\titem\n", "item", "item", "1.\titem"),
        ("1.   item\n", "item", "item", "1.   item"),
        ("> -\titem\n", "item", "item", "> -\titem"),
        ("-\t[ ] hello\n", "hello", "hello", "-\t[ ] hello"),
        ("-   [x] done\n", "done", "done", "-   [x] done"),
    ] {
        let tree = import(source);
        let para = first_paragraph(&tree.blocks[0]).expect(source);
        assert_eq!(
            layout_of(para).text,
            hidden,
            "caret outside must hide padded marker, {source:?} got {:?}",
            layout_of(para).text
        );
        let at = source.find(body).expect(body);
        let rev = layout_for_caret(source, at);
        assert_eq!(
            rev.text, revealed,
            "caret in the item must reveal padded marker, {source:?} got {:?}",
            rev.text
        );
        let vis = rev.text.find(body).expect(body);
        assert_eq!(
            source.as_bytes().get(rev.source_for_visible(vis)).copied(),
            Some(body.as_bytes()[0]),
            "click on body maps onto the word, {source:?}"
        );
    }
}

/// CommonMark code-span padding spaces hide with the ticks. Click on
/// painted `foo` still maps into the word.
#[test]
fn code_span_padding_hides_and_reveals_with_the_ticks() {
    for (source, body, hidden, revealed) in [
        ("` foo `\n", "foo", "foo", "` foo `"),
        ("`` foo`bar ``\n", "foo", "foo`bar", "`` foo`bar ``"),
        ("> ` foo `\n", "foo", "foo", "> ` foo `"),
        ("- ` foo `\n", "foo", "foo", "- ` foo `"),
        ("see ` foo ` now\n", "foo", "see foo now", "see ` foo ` now"),
    ] {
        let tree = import(source);
        let para = first_paragraph(&tree.blocks[0]).expect(source);
        let hidden_layout = layout_of_source(para, source, &RevealState::hidden());
        assert_eq!(
            hidden_layout.text, hidden,
            "caret outside must hide ticks and stripped spaces, {source:?} got {:?}",
            hidden_layout.text
        );
        let at = source.find(body).expect(body);
        let rev = layout_for_caret(source, at);
        assert_eq!(
            rev.text, revealed,
            "caret in the span must reveal ticks and padding, {source:?} got {:?}",
            rev.text
        );
        let vis = rev.text.find(body).expect(body);
        assert_eq!(
            source.as_bytes().get(rev.source_for_visible(vis)).copied(),
            Some(body.as_bytes()[0]),
            "click on body maps onto the word, {source:?}"
        );
    }
}

#[test]
fn image_only_layout_omits_alt_placeholder() {
    let layout = layout_for("![cat](img.png)\n");
    assert!(
        !layout.text.contains("cat") && !layout.text.contains('🖼'),
        "pixels are a sibling img(); text layout must not use an alt placeholder, got {:?}",
        layout.text
    );
    assert!(layout.text.is_empty());
}

#[test]
fn mixed_text_and_image_keeps_surrounding_visible_text() {
    let layout = layout_for("hello ![cat](img.png) world\n");
    assert_eq!(layout.text, "hello  world");
    assert!(!layout.text.contains('🖼'));
}

#[test]
fn strikethrough_is_painted_on_the_visible_run() {
    let layout = layout_for("~~gone~~\n");
    assert_eq!(layout.text, "gone");
    assert!(
        layout.runs.iter().any(|run| run.style.strike),
        "expected strikethrough paint, runs={:?}",
        layout.runs
    );
}

#[test]
fn autolink_is_painted_as_a_link() {
    let layout = layout_for("<https://example.com>\n");
    assert!(
        layout.text.contains("https://example.com"),
        "autolink visible text, got {:?}",
        layout.text
    );
    assert!(
        layout
            .runs
            .iter()
            .any(|run| is_underlined(run) && is_colored(run)),
        "expected link underline + color, runs={:?}",
        layout.runs
    );
}

#[test]
fn hard_break_is_a_visible_newline() {
    let two_spaces = layout_for("a  \nb\n");
    assert_eq!(two_spaces.text, "a\nb", "two-space hard break");
    let backslash = layout_for("a\\\nb\n");
    assert_eq!(backslash.text, "a\nb", "backslash hard break");
}

#[test]
fn soft_break_click_maps_to_newline_not_paragraph_start() {
    let source = "hello\nworld\n";
    let layout = layout_for(source);
    assert_eq!(layout.text, "hello world", "soft break paints as a space");
    let space = layout.text.find(' ').expect("painted soft-break space");
    let mapped = layout.source_for_visible(space);
    assert_eq!(
        source.as_bytes().get(mapped).copied(),
        Some(b'\n'),
        "click on the wrap space must be the source newline, got {mapped} {:?}",
        source.get(mapped..mapped.saturating_add(1))
    );
    assert_ne!(
        mapped, layout.block_start,
        "soft break must not map onto the paragraph start"
    );
    let w = source.find("world").expect("world");
    let vis_w = layout.visible_for_source(w);
    assert_eq!(layout.source_for_visible(vis_w), w);
}

#[test]
fn hard_break_click_maps_to_break_not_paragraph_start() {
    for source in ["a  \nb\n", "a\\\nb\n"] {
        let layout = layout_for(source);
        assert_eq!(layout.text, "a\nb", "{source:?}");
        let vis_nl = layout.text.find('\n').expect("painted hard break");
        let mapped = layout.source_for_visible(vis_nl);
        assert_ne!(
            mapped, layout.block_start,
            "hard break must not map onto paragraph start, {source:?} got {mapped}"
        );
        assert_ne!(
            mapped, 0,
            "hard break click must not jump to `a`, {source:?}"
        );
        let b = source.find('b').expect("b");
        assert!(
            mapped < b,
            "hard break must sit before `b`, {source:?} mapped={mapped}"
        );
        assert_eq!(
            layout.source_for_visible(layout.visible_for_source(b)),
            b,
            "{source:?}"
        );
    }
}

#[test]
fn inline_html_tags_are_hidden_and_inner_text_is_styled() {
    let layout = layout_for("hello <b>bold</b> world\n");
    assert_eq!(layout.text, "hello bold world");
    assert!(
        !layout.text.contains('<'),
        "tags must not paint, got {:?}",
        layout.text
    );
    assert!(
        layout
            .runs
            .iter()
            .any(|run| run.style.weight == RunWeight::Bold),
        "expected bold paint on inner HTML text, runs={:?}",
        layout.runs
    );
}

#[test]
fn html_phrasing_reveals_tags_when_caret_intersects() {
    let source = "hello <b>bold</b> world\n";
    let hidden = layout_for(source);
    assert_eq!(hidden.text, "hello bold world");
    assert!(
        !hidden.text.contains('<'),
        "caret outside must hide `<b>`, got {:?}",
        hidden.text
    );
    let vis_h = hidden.text.find('b').expect("hidden bold");
    assert_eq!(
        source
            .as_bytes()
            .get(hidden.source_for_visible(vis_h))
            .copied(),
        Some(b'b'),
        "hidden click on painted bold maps into the word"
    );

    let b = source.find("bold").expect("bold");
    let revealed = layout_for_caret(source, b);
    assert_eq!(
        revealed.text, "hello <b>bold</b> world",
        "caret inside HTML phrasing must reveal tags, got {:?}",
        revealed.text
    );
    assert!(
        revealed
            .runs
            .iter()
            .any(|run| run.style.weight == RunWeight::Bold),
        "inner text stays bold when tags reveal, runs={:?}",
        revealed.runs
    );
    let vis_lt = revealed.text.find('<').expect("painted <");
    assert_eq!(
        source
            .as_bytes()
            .get(revealed.source_for_visible(vis_lt))
            .copied(),
        Some(b'<'),
        "click on painted `<` maps onto the tag"
    );
    let vis_b = revealed.text.find("bold").expect("painted bold");
    assert_eq!(
        source
            .as_bytes()
            .get(revealed.source_for_visible(vis_b))
            .copied(),
        Some(b'b'),
        "click on painted `bold` still maps onto `b`, not a phantom `<b>`"
    );

    let start = source.find("<b>").expect("open");
    let end = source.find("</b>").expect("close") + "</b>".len();
    let tree = import(source);
    let selected = layout_of_source(
        &tree.blocks[0],
        source,
        &RevealState {
            caret: 0,
            selection: start..end,
        },
    );
    assert!(
        selected.text.contains("<b>bold</b>"),
        "selection overlap must reveal HTML tags, got {:?}",
        selected.text
    );

    let nested = "go <b>bold <i>x</i> y</b> now\n";
    assert_eq!(layout_for(nested).text, "go bold x y now");
    let in_i = nested.find('x').expect("x");
    let both = layout_for_caret(nested, in_i);
    assert_eq!(
        both.text, "go <b>bold <i>x</i> y</b> now",
        "caret in nested italic HTML is inside both tags, got {:?}",
        both.text
    );
    let in_b = nested.find("bold").expect("bold");
    let outer = layout_for_caret(nested, in_b);
    assert_eq!(
        outer.text, "go <b>bold x y</b> now",
        "caret in outer `<b>` must not reveal nested `<i>`, got {:?}",
        outer.text
    );
    assert!(outer.text.contains("<b>"));
    assert!(!outer.text.contains("<i>"));

    let anchor = "see <a href=\"https://e.com\">label</a> now\n";
    assert_eq!(layout_for(anchor).text, "see label now");
    let l = anchor.find("label").expect("label");
    let a_rev = layout_for_caret(anchor, l);
    assert!(
        a_rev.text.contains("<a href=\"https://e.com\">label</a>"),
        "caret in an HTML anchor must reveal the tags, got {:?}",
        a_rev.text
    );
    let vis_l = a_rev.text.find("label").expect("painted label");
    assert_eq!(
        anchor
            .as_bytes()
            .get(a_rev.source_for_visible(vis_l))
            .copied(),
        Some(b'l'),
        "click on painted `label` maps into the word"
    );

    let mark = "a <mark>hot</mark> b\n";
    let m = mark.find("hot").expect("hot");
    assert_eq!(layout_for_caret(mark, m).text, "a <mark>hot</mark> b");

    let quoted = "> hello <b>bold</b>\n";
    let q = quoted.find("bold").expect("bold");
    let q_rev = layout_for_caret(quoted, q);
    assert_eq!(
        q_rev.text, "> hello <b>bold</b>",
        "quoted HTML reveals `>` and tags, got {:?}",
        q_rev.text
    );
    let vis_q = q_rev.text.find("bold").expect("quoted bold");
    assert_eq!(
        quoted
            .as_bytes()
            .get(q_rev.source_for_visible(vis_q))
            .copied(),
        Some(b'b'),
        "click on quoted HTML inner text maps onto `b`"
    );

    let listed = "- hello <b>bold</b>\n";
    let lb = listed.find("bold").expect("bold");
    assert_eq!(
        layout_for_caret(listed, lb).text,
        "- hello <b>bold</b>",
        "list HTML reveals `- ` and tags"
    );

    let sub = "H<sub>2</sub>O\n";
    assert!(
        layout_for(sub).text.contains('₂'),
        "hidden sub stays unicode, got {:?}",
        layout_for(sub).text
    );
    let two = sub.find('2').expect("2");
    let sub_rev = layout_for_caret(sub, two);
    assert_eq!(
        sub_rev.text, "H<sub>2</sub>O",
        "caret in `<sub>` must reveal tags and source digits, got {:?}",
        sub_rev.text
    );

    let comment = "a<!-- secret -->b\n";
    assert_eq!(layout_for(comment).text, "ab");
    let after = comment.find('b').expect("b");
    let c_rev = layout_for_caret(comment, after);
    assert!(
        c_rev.text.contains("<!-- secret -->"),
        "caret at the comment boundary must reveal it, got {:?}",
        c_rev.text
    );

    let script = "hello <script>alert(1)</script> world\n";
    let hidden_script = layout_for(script);
    assert!(
        !hidden_script.text.contains("alert") && !hidden_script.text.contains("<script"),
        "script stays hidden, got {:?}",
        hidden_script.text
    );
    let w = script.find("world").expect("world");
    let on_world = layout_for_caret(script, w);
    assert!(
        !on_world.text.contains("<script") && !on_world.text.contains("alert"),
        "script must not reveal on a neighboring caret, got {:?}",
        on_world.text
    );

    let br = "a<br>b\n";
    assert_eq!(layout_for(br).text, "a\nb");
    let br_b = br.find('b').expect("b");
    assert_eq!(
        layout_for_caret(br, br_b).text,
        "a\nb",
        "<br> stays a newline widget, got {:?}",
        layout_for_caret(br, br_b).text
    );
}

#[test]
fn inline_html_br_is_a_visible_newline() {
    let layout = layout_for("a<br>b\n");
    assert_eq!(layout.text, "a\nb");
}

#[test]
fn inline_html_comment_is_hidden() {
    let layout = layout_for("a<!-- secret -->b\n");
    assert_eq!(layout.text, "ab");
    assert!(!layout.text.contains("secret"));
}

#[test]
fn footnote_ref_paints_as_superscript() {
    for source in ["Hello[^1]\n\n[^1]: the note\n", "Hello[^1] world\n"] {
        let layout = layout_for(source);
        assert!(
            layout.text.contains('¹') || layout.text.contains('1'),
            "expected a footnote marker, got {:?} in {source:?}",
            layout.text
        );
        assert!(
            !layout.text.contains("[^"),
            "footnote syntax must not paint, got {:?} in {source:?}",
            layout.text
        );
        let vis = layout
            .text
            .find('¹')
            .or_else(|| layout.text.find('1'))
            .expect("painted mark");
        let src = layout.source_for_visible(vis);
        assert_eq!(
            &source[src..src + 1],
            "1",
            "click on painted footnote must map to the label, not `[` / `]`, got {src} in {source:?}"
        );
        assert_ne!(src, source.find('[').expect("["));
    }
}

#[test]
fn footnote_ref_reveals_source_when_caret_intersects() {
    let source = "Hello[^1] world\n";
    let one = source.find('1').expect("1");
    let revealed = layout_for_caret(source, one);
    assert!(
        revealed.text.contains("[^1]"),
        "caret in a footnote ref must reveal `[^1]`, got {:?}",
        revealed.text
    );
    assert!(
        !revealed.text.contains('¹'),
        "superscript must yield to source chrome, got {:?}",
        revealed.text
    );
    let vis_open = revealed.text.find('[').expect("[");
    assert_eq!(
        source
            .as_bytes()
            .get(revealed.source_for_visible(vis_open))
            .copied(),
        Some(b'['),
        "click on revealed `[` maps onto the opener"
    );
    let vis_one = revealed.text.find('1').expect("1");
    assert_eq!(
        source
            .as_bytes()
            .get(revealed.source_for_visible(vis_one))
            .copied(),
        Some(b'1'),
        "click on the label still maps onto `1`"
    );

    let h = source.find('H').expect("H");
    let outside = layout_for_caret(source, h);
    assert!(
        !outside.text.contains("[^"),
        "caret on neighboring text must keep footnote chrome hidden, got {:?}",
        outside.text
    );
    assert!(
        outside.text.contains('¹') || outside.text.contains('1'),
        "unfocused footnote ref stays a mark, got {:?}",
        outside.text
    );

    let start = source.find("[^1]").expect("ref");
    let selected = {
        let tree = import(source);
        let para = tree.blocks.first().expect("para");
        layout_in_tree(
            &tree,
            para,
            source,
            &RevealState {
                caret: 0,
                selection: start..start + 4,
            },
        )
    };
    assert!(
        selected.text.contains("[^1]"),
        "selection overlap must reveal the footnote ref, got {:?}",
        selected.text
    );

    let matched = "Hello[^1]\n\n[^1]: the note\n";
    let m1 = matched.find('1').expect("1");
    assert!(
        layout_for_caret(matched, m1).text.contains("[^1]"),
        "matched footnote ref also reveals source, got {:?}",
        layout_for_caret(matched, m1).text
    );
}

#[test]
fn footnote_def_body_paints_nested_bold() {
    let source = "See[^1]\n\n[^1]: **bold** note\n";
    let tree = import(source);
    let def = tree
        .blocks
        .iter()
        .find(|b| matches!(b.kind, BlockKind::FootnoteDefinition { .. }))
        .expect("footnote def");
    let body = first_paragraph(def).expect("footnote body");
    let layout = layout_of(body);
    assert_eq!(layout.text, "bold note");
    assert!(
        !layout.text.contains('*'),
        "markers must not paint, got {:?}",
        layout.text
    );
    assert!(
        layout
            .runs
            .iter()
            .any(|run| run.style.weight == RunWeight::Bold),
        "expected bold paint inside footnote, runs={:?}",
        layout.runs
    );
}

#[test]
fn definition_details_paint_nested_bold() {
    let source = "Term\n\n: **bold** details\n";
    let tree = import(source);
    let details = first_kind(&tree.blocks, |k| matches!(k, BlockKind::DefinitionDetails))
        .expect("definition details");
    let body = first_paragraph(details).expect("details body");
    let layout = layout_of(body);
    assert_eq!(layout.text, "bold details");
    assert!(
        !layout.text.contains('*'),
        "markers must not paint, got {:?}",
        layout.text
    );
    assert!(
        layout
            .runs
            .iter()
            .any(|run| run.style.weight == RunWeight::Bold),
        "expected bold paint inside definition details, runs={:?}",
        layout.runs
    );
}

#[test]
fn definition_details_reveal_colon_when_caret_intersects() {
    let source = "Term\n: details\n";
    let tree = import(source);
    let details = first_kind(&tree.blocks, |k| matches!(k, BlockKind::DefinitionDetails))
        .expect("definition details");
    let body = first_paragraph(details).expect("details body");
    let hidden = layout_in_tree(&tree, body, source, &RevealState::hidden());
    assert_eq!(
        hidden.text, "details",
        "caret outside hides `: `, got {:?}",
        hidden.text
    );
    let d = source.find("details").expect("details");
    let revealed = layout_for_caret(source, d);
    assert_eq!(
        revealed.text, ": details",
        "caret in details must reveal `: `, got {:?}",
        revealed.text
    );
    let vis_colon = revealed.text.find(':').expect(":");
    assert_eq!(
        source
            .as_bytes()
            .get(revealed.source_for_visible(vis_colon))
            .copied(),
        Some(b':'),
        "click on revealed `:` maps onto the marker"
    );
    let vis_d = revealed.text.find('d').expect("d");
    assert_eq!(
        source
            .as_bytes()
            .get(revealed.source_for_visible(vis_d))
            .copied(),
        Some(b'd'),
        "click on details body maps onto `d`, not a phantom `:`"
    );

    let term_at = source.find("Term").expect("Term");
    let details_while_on_term = layout_in_tree(
        &tree,
        body,
        source,
        &RevealState {
            caret: term_at,
            selection: 0..0,
        },
    );
    assert_eq!(
        details_while_on_term.text, "details",
        "caret on the term must keep `: ` hidden, got {:?}",
        details_while_on_term.text
    );

    let colon = source.find(": details").expect(":");
    let selected = layout_in_tree(
        &tree,
        body,
        source,
        &RevealState {
            caret: 0,
            selection: colon..colon + ": details".len(),
        },
    );
    assert!(
        selected.text.contains(": details"),
        "selection overlap must reveal `: `, got {:?}",
        selected.text
    );

    let quoted = "> Term\n> : details\n";
    let qd = quoted.find("details").expect("details");
    let q_rev = layout_for_caret(quoted, qd);
    assert_eq!(
        q_rev.text, "> : details",
        "quoted details must reveal `> : `, got {:?}",
        q_rev.text
    );
    let vis_gt = q_rev.text.find('>').expect(">");
    assert_eq!(
        quoted
            .as_bytes()
            .get(q_rev.source_for_visible(vis_gt))
            .copied(),
        Some(b'>')
    );
    let vis_qd = q_rev.text.find('d').expect("d");
    assert_eq!(
        quoted
            .as_bytes()
            .get(q_rev.source_for_visible(vis_qd))
            .copied(),
        Some(b'd'),
        "quoted details body maps onto `d`"
    );

    let bold = "Term\n: **bold** details\n";
    let b = bold.find("bold").expect("bold");
    let bold_rev = layout_for_caret(bold, b);
    assert_eq!(
        bold_rev.text, ": **bold** details",
        "intersected details keep wrap marks, got {:?}",
        bold_rev.text
    );

    let two = "One\n: alpha\n\nTwo\n: beta\n";
    let two_tree = import(two);
    let first_details = first_kind(&two_tree.blocks, |k| {
        matches!(k, BlockKind::DefinitionDetails)
    })
    .expect("first details");
    let first_body = first_paragraph(first_details).expect("first body");
    let beta = two.find("beta").expect("beta");
    let first_while_on_second = layout_in_tree(
        &two_tree,
        first_body,
        two,
        &RevealState {
            caret: beta,
            selection: 0..0,
        },
    );
    assert_eq!(
        first_while_on_second.text, "alpha",
        "unfocused details must keep `: ` hidden, got {:?}",
        first_while_on_second.text
    );
}

#[test]
fn footnote_def_reveals_marker_when_caret_intersects() {
    let source = "See[^1]\n\n[^1]: the note\n";
    let tree = import(source);
    let def = tree
        .blocks
        .iter()
        .find(|b| matches!(b.kind, BlockKind::FootnoteDefinition { .. }))
        .expect("footnote def");
    let body = first_paragraph(def).expect("footnote body");
    let hidden = layout_in_tree(&tree, body, source, &RevealState::hidden());
    assert_eq!(
        hidden.text, "the note",
        "caret outside hides `[^1]:`, got {:?}",
        hidden.text
    );
    let t = source.find("the note").expect("the");
    let revealed = layout_for_caret(source, t);
    assert_eq!(
        revealed.text, "[^1]: the note",
        "caret in a footnote def must reveal `[^1]: `, got {:?}",
        revealed.text
    );
    let vis_open = revealed.text.find('[').expect("[");
    assert_eq!(
        source
            .as_bytes()
            .get(revealed.source_for_visible(vis_open))
            .copied(),
        Some(b'['),
        "click on revealed `[` maps onto the opener"
    );
    let vis_t = revealed.text.find('t').expect("t");
    assert_eq!(
        source
            .as_bytes()
            .get(revealed.source_for_visible(vis_t))
            .copied(),
        Some(b't'),
        "click on footnote body maps onto `t`, not a phantom `[`"
    );

    let see = source.find("See").expect("See");
    let def_while_on_ref = layout_in_tree(
        &tree,
        body,
        source,
        &RevealState {
            caret: see,
            selection: 0..0,
        },
    );
    assert_eq!(
        def_while_on_ref.text, "the note",
        "caret on the footnote ref must keep def chrome hidden, got {:?}",
        def_while_on_ref.text
    );

    let quoted = "> See[^1]\n\n> [^1]: the note\n";
    let qt = quoted.rfind("the note").expect("the");
    let q_rev = layout_for_caret(quoted, qt);
    assert_eq!(
        q_rev.text, "> [^1]: the note",
        "quoted footnote def must reveal `> [^1]: `, got {:?}",
        q_rev.text
    );

    let note = "See[^note]\n\n[^note]: the note\n";
    let nt = note.find("the note").expect("the");
    assert_eq!(layout_for_caret(note, nt).text, "[^note]: the note");
}

#[test]
fn code_layout_maps_bytes_one_to_one() {
    let layout = build_code_layout("fn x() {}", 10);
    assert_eq!(layout.text, "fn x() {}");
    assert_eq!(layout.source_for_visible(0), 10);
    assert_eq!(layout.source_for_visible(5), 15);
    assert!(layout.contains_source(10));
    assert!(layout.contains_source(19));
    assert!(!layout.contains_source(9));
    assert!(!layout.contains_source(20));
}

#[test]
fn quoted_fence_click_maps_past_quote_prefix() {
    let source = "> ```\n> code\n> ```\n";
    let layout = fenced_code_layout(source);
    let c = source.find("code").expect("code");
    let gt = source.find('>').expect(">");
    assert_eq!(layout.text, "code");
    assert_eq!(
        layout.source_for_visible(0),
        c,
        "click x on the first painted body character"
    );
    assert_ne!(
        layout.source_for_visible(0),
        gt,
        "must not equal the `>` byte"
    );
    assert_eq!(layout.visible_for_source(c), 0);
    assert_eq!(&source[layout.source_for_visible(0)..][..1], "c");
}

#[test]
fn list_nested_fence_click_maps_past_indent() {
    let source = "- item\n  ```\n  code\n  ```\n";
    let layout = fenced_code_layout(source);
    let c = source.find("code").expect("code");
    let indent = source.find("  code").expect("indent");
    assert_eq!(layout.text, "code");
    assert_eq!(layout.source_for_visible(0), c);
    assert_ne!(
        layout.source_for_visible(0),
        indent,
        "click on painted `code` must not land on list indent"
    );
    assert_eq!(layout.visible_for_source(c), 0);
}

#[test]
fn unquoted_fence_click_stays_one_to_one() {
    let source = "```\ncode\n```\n";
    let layout = fenced_code_layout(source);
    let c = source.find("code").expect("code");
    assert_eq!(layout.text, "code");
    assert_eq!(layout.source_for_visible(0), c);
    assert_eq!(layout.source_for_visible(2), c + 2);
    assert_eq!(layout.visible_for_source(c), 0);
}

#[test]
fn quoted_list_nested_fence_click_maps_past_quote_and_indent() {
    let source = "> - item\n>   ```\n>   code\n>   ```\n";
    let layout = fenced_code_layout(source);
    let c = source.find("code").expect("code");
    let gt = source.rfind(">   code").expect("quoted body line");
    assert_eq!(layout.text, "code");
    assert_eq!(layout.source_for_visible(0), c);
    assert_ne!(layout.source_for_visible(0), gt);
    assert_eq!(layout.visible_for_source(c), 0);
}

fn html_block_layout(raw: &str) -> LeafLayout {
    let source = if raw.ends_with('\n') {
        raw.to_string()
    } else {
        format!("{raw}\n")
    };
    html_block_layout_from_source(&source)
}

fn html_block_layout_from_source(source: &str) -> LeafLayout {
    html_block_layout_from_source_reveal(source, &RevealState::hidden())
}

#[test]
fn quoted_html_click_maps_past_quote_prefix() {
    let source = "> <div>\n> x\n> </div>\n";
    let layout = html_block_layout_from_source(source);
    let x = source.find('x').expect("x");
    let gt = source.find('>').expect(">");
    assert!(
        layout.text.contains('x'),
        "HTML body must paint, got {:?}",
        layout.text
    );
    assert!(
        !layout.text.contains('>'),
        "quote prefix must not paint, got {:?}",
        layout.text
    );
    let vis = layout.visible_for_source(x);
    assert_eq!(
        layout.source_for_visible(vis),
        x,
        "click on painted `x` must map to the `x` byte"
    );
    assert_ne!(
        layout.source_for_visible(0),
        gt,
        "first painted HTML body character must not be the `>` byte"
    );
    assert_eq!(&source[layout.source_for_visible(vis)..][..1], "x");
}

#[test]
fn unquoted_html_click_stays_on_body() {
    let source = "<div>\nx\n</div>\n";
    let layout = html_block_layout_from_source(source);
    let x = source.find('x').expect("x");
    let vis = layout.visible_for_source(x);
    assert_eq!(layout.source_for_visible(vis), x);
    assert_ne!(layout.source_for_visible(0), source.find('<').expect("<"));
}

#[test]
fn quoted_list_nested_html_click_maps_past_quote_and_indent() {
    let source = "> - item\n>\n>   <div>\n>   x\n>   </div>\n";
    let layout = html_block_layout_from_source(source);
    let x = source.find('x').expect("x");
    let gt = source.find('>').expect(">");
    let vis = layout.visible_for_source(x);
    assert_eq!(layout.source_for_visible(vis), x);
    assert_ne!(
        layout.source_for_visible(0),
        gt,
        "first painted HTML body character must not be the `>` byte"
    );
}

#[test]
fn quoted_paragraph_click_maps_past_quote_prefix() {
    let source = "> hello\n";
    let tree = import(source);
    let para = first_paragraph(&tree.blocks[0]).expect("quote paragraph");
    let layout = layout_of(para);
    let h = source.find('h').expect("h");
    let gt = source.find('>').expect(">");
    assert_eq!(layout.text, "hello");
    assert_eq!(
        layout.source_for_visible(0),
        h,
        "click on first painted character must be `h`"
    );
    assert_ne!(layout.source_for_visible(0), gt);
    assert_eq!(&source[layout.source_for_visible(0)..][..1], "h");
}

#[test]
fn quoted_wrapped_paragraph_click_skips_continuation_quote() {
    let source = "> hello\n> world\n";
    let tree = import(source);
    let para = first_paragraph(&tree.blocks[0]).expect("quote paragraph");
    let layout = layout_of(para);
    let w = source.find("world").expect("world");
    let gt = source.rfind("> world").expect("continuation");
    assert!(
        layout.text.contains("hello") && layout.text.contains("world"),
        "both lines must paint, got {:?}",
        layout.text
    );
    let vis = layout.visible_for_source(w);
    assert_eq!(
        layout.source_for_visible(vis),
        w,
        "click on painted `w` must map to `w`, not `>`"
    );
    assert_ne!(layout.source_for_visible(vis), gt);
}

#[test]
fn list_item_click_maps_past_marker() {
    let source = "- hello\n";
    let tree = import(source);
    let para = first_paragraph(&tree.blocks[0]).expect("list paragraph");
    let layout = layout_of(para);
    let h = source.find('h').expect("h");
    let dash = source.find('-').expect("-");
    assert_eq!(layout.text, "hello");
    assert_eq!(layout.source_for_visible(0), h);
    assert_ne!(layout.source_for_visible(0), dash);
}

#[test]
fn quoted_list_click_maps_past_quote_and_marker() {
    let source = "> - hello\n";
    let tree = import(source);
    let para = first_paragraph(&tree.blocks[0]).expect("quoted list paragraph");
    let layout = layout_of(para);
    let h = source.find('h').expect("h");
    assert_eq!(layout.text, "hello");
    assert_eq!(layout.source_for_visible(0), h);
    assert_ne!(&source[layout.source_for_visible(0)..][..1], ">");
    assert_ne!(&source[layout.source_for_visible(0)..][..1], "-");
}

#[test]
fn nested_quote_click_maps_past_inner_marker() {
    let source = "> > hello\n";
    let tree = import(source);
    let para = first_paragraph(&tree.blocks[0]).expect("nested quote paragraph");
    let layout = layout_of(para);
    let h = source.find('h').expect("h");
    assert_eq!(layout.text, "hello");
    assert_eq!(
        layout.source_for_visible(0),
        h,
        "first painted character must be `h`, not inner `>`"
    );
    assert_ne!(&source[layout.source_for_visible(0)..][..1], ">");
}

#[test]
fn ordered_list_click_maps_past_marker() {
    let source = "1. hello\n";
    let tree = import(source);
    let para = first_paragraph(&tree.blocks[0]).expect("ordered paragraph");
    let layout = layout_of(para);
    let h = source.find('h').expect("h");
    assert_eq!(layout.text, "hello");
    assert_eq!(layout.source_for_visible(0), h);
    assert_ne!(&source[layout.source_for_visible(0)..][..1], "1");
}

#[test]
fn unchecked_task_click_maps_past_checkbox() {
    let source = "- [ ] hello\n";
    let tree = import(source);
    let para = first_paragraph(&tree.blocks[0]).expect("task paragraph");
    let layout = layout_of(para);
    let h = source.find('h').expect("h");
    assert_eq!(layout.text, "hello");
    assert_eq!(layout.source_for_visible(0), h);
    assert_ne!(&source[layout.source_for_visible(0)..][..1], "-");
    assert_ne!(&source[layout.source_for_visible(0)..][..1], "[");
}

#[test]
fn list_item_link_with_x_label_click_maps_to_label_not_dest() {
    let source = "- [x](https://e.com)\n";
    let tree = import(source);
    let para = first_paragraph(&tree.blocks[0]).expect("list paragraph");
    let layout = layout_of(para);
    let x = source.find("[x]").expect("label") + 1;
    assert_eq!(layout.text, "x");
    assert_eq!(
        layout.source_for_visible(0),
        x,
        "painted label must map onto `x`, not dest, got {:?}",
        source
            .get(layout.source_for_visible(0)..layout.source_for_visible(0).saturating_add(1))
    );
    assert_ne!(&source[layout.source_for_visible(0)..][..1], "(");
    assert_ne!(&source[layout.source_for_visible(0)..][..1], "h");
    assert_ne!(&source[layout.source_for_visible(0)..][..1], "-");
}

#[test]
fn list_item_shortcut_ref_x_at_eol_click_maps_to_label() {
    let source = "- [x]\n\n[x]: https://e.com\n";
    let tree = import(source);
    let para = first_paragraph(&tree.blocks[0]).expect("list paragraph");
    let layout = layout_of(para);
    let x = source.find("[x]").expect("label") + 1;
    assert_eq!(layout.text, "x");
    assert_eq!(
        layout.source_for_visible(0),
        x,
        "painted shortcut-ref must map onto `x`, not past `]`, got {:?}",
        source
            .get(layout.source_for_visible(0)..layout.source_for_visible(0).saturating_add(1))
    );
    assert_ne!(&source[layout.source_for_visible(0)..][..1], "]");
    assert_ne!(&source[layout.source_for_visible(0)..][..1], "-");
}

#[test]
fn list_item_nested_reference_link_click_maps_to_label() {
    for source in [
        "- [hello][ref]\n  [ref]: https://e.com\n",
        "> - [hello][ref]\n>   [ref]: https://e.com\n",
        "- [x] [hello][ref]\n  [ref]: https://e.com\n",
        "- [**hello**][ref]\n  [ref]: https://e.com\n",
        "- outer\n  - [hello][ref]\n    [ref]: https://e.com\n",
    ] {
        let tree = import(source);
        let para = find_paragraph_with(&tree.blocks, "hello").expect("link paragraph");
        let layout = layout_of_source(para, source, &RevealState::hidden());
        let h = source.find("hello").expect("hello");
        assert_eq!(
            layout.text, "hello",
            "nested `[hello][ref]` must paint the label, got {:?} in {source:?}",
            layout.text
        );
        assert!(
            !layout.text.contains('[') && !layout.text.contains(']'),
            "nested reference chrome must not paint, got {:?} in {source:?}",
            layout.text
        );
        let mapped = layout.source_for_visible(0);
        assert_eq!(
            mapped,
            h,
            "click on nested reference link must be `h`, {source:?} got {mapped} {:?}",
            source.get(mapped..mapped.saturating_add(1))
        );
    }

    let task = "- [x] done\n";
    let tree = import(task);
    let para = first_paragraph(&tree.blocks[0]).expect("task paragraph");
    let layout = layout_of(para);
    assert_eq!(layout.text, "done");
    assert_eq!(layout.source_for_visible(0), task.find('d').expect("d"));

    for source in [
        "- [![cat](a.png)][ref]\n  [ref]: https://e.com\n",
        "- outer\n  - [![cat](a.png)][ref]\n    [ref]: https://e.com\n",
    ] {
        let tree = import(source);
        let para = find_paragraph_with(&tree.blocks, "cat").expect("image paragraph");
        let layout = layout_of_source(para, source, &RevealState::hidden());
        assert!(
            !layout.text.contains('[') && !layout.text.contains("ref"),
            "wrapping dest `[ref]` must not paint as a shortcut, got {:?} in {source:?}",
            layout.text
        );
    }
}

#[test]
fn empty_quote_click_homes_after_prefix() {
    let source = "> ";
    let tree = import(source);
    let blank = tree.empty_prefix_homes.first().expect("empty quote home");
    assert_eq!(blank.home, 2);
    let layout = build_blank_gap_layout(blank.home..blank.home);
    assert_eq!(layout.source_for_visible(0), 2);
    assert_ne!(layout.source_for_visible(0), source.find('>').expect(">"));
}

#[test]
fn empty_list_click_homes_after_marker() {
    let source = "- ";
    let tree = import(source);
    let blank = tree.empty_prefix_homes.first().expect("empty list home");
    assert_eq!(blank.home, 2);
    let layout = build_blank_gap_layout(blank.home..blank.home);
    assert_eq!(layout.source_for_visible(0), 2);
    assert_ne!(layout.source_for_visible(0), source.find('-').expect("-"));
}

#[test]
fn empty_footnote_def_click_homes_after_marker() {
    let source = "Hello[^1]\n\n[^1]: ";
    let tree = import(source);
    let blank = tree
        .empty_prefix_homes
        .iter()
        .find(|h| source.get(h.line.clone()).is_some_and(|l| l.contains("]:")))
        .expect("empty footnote def home");
    assert_ne!(
        source.as_bytes().get(blank.home).copied(),
        Some(b'['),
        "click home must sit after `[^1]: `, home={}",
        blank.home
    );
    let layout = build_blank_gap_layout(blank.home..blank.home);
    assert_eq!(layout.source_for_visible(0), blank.home);
    assert_ne!(
        layout.source_for_visible(0),
        source.rfind("[^").expect("def")
    );
    let hidden = prefix_blank_layout(&tree, blank, &RevealState::hidden());
    assert!(
        !hidden.text.contains("[^"),
        "empty def hides `[^1]:` when caret is elsewhere, got {:?}",
        hidden.text
    );
    let revealed = prefix_blank_layout(&tree, blank,
        &RevealState {
            caret: blank.home,
            selection: 0..0,
        }
    );
    assert!(
        revealed.text.contains("[^1]:"),
        "empty `[^1]: ` must reveal the opener, got {:?}",
        revealed.text
    );
    let vis_open = revealed.text.find('[').expect("[");
    assert_eq!(
        source
            .as_bytes()
            .get(revealed.source_for_visible(vis_open))
            .copied(),
        Some(b'[')
    );
    assert_eq!(
        revealed.source_for_visible(revealed.text.len()),
        blank.home,
        "click after revealed chrome still homes after the marker"
    );
}

#[test]
fn empty_definition_details_reveal_colon_when_caret_intersects() {
    let source = "Term\n: ";
    let tree = import(source);
    let blank = tree
        .empty_prefix_homes
        .iter()
        .find(|h| {
            source.get(h.line.clone()).is_some_and(|line| {
                let after = line.trim_start_matches(['>', ' ', '\t']);
                after.starts_with(':')
            })
        })
        .expect("empty details home");
    assert_ne!(
        source.as_bytes().get(blank.home).copied(),
        Some(b':'),
        "click home must sit after `: `, home={}",
        blank.home
    );
    let hidden = prefix_blank_layout(&tree, blank, &RevealState::hidden());
    assert!(
        !hidden.text.contains(':'),
        "empty `: ` hides the marker when caret is elsewhere, got {:?}",
        hidden.text
    );
    let revealed = prefix_blank_layout(&tree, blank,
        &RevealState {
            caret: blank.home,
            selection: 0..0,
        }
    );
    assert!(
        revealed.text.starts_with(": "),
        "empty `: ` must reveal the opener, got {:?}",
        revealed.text
    );
    let vis_colon = revealed.text.find(':').expect(":");
    assert_eq!(
        source
            .as_bytes()
            .get(revealed.source_for_visible(vis_colon))
            .copied(),
        Some(b':')
    );
    assert_eq!(
        revealed.source_for_visible(revealed.text.len()),
        blank.home,
        "click after revealed `: ` still homes after the marker"
    );

    let quoted = "> Term\n> : ";
    let qtree = import(quoted);
    let qblank = qtree
        .empty_prefix_homes
        .iter()
        .find(|h| {
            quoted.get(h.line.clone()).is_some_and(|line| {
                let after = line.trim_start_matches(['>', ' ', '\t']);
                after.starts_with(':')
            })
        })
        .expect("quoted empty details");
    let qrev = prefix_blank_layout(&qtree, qblank,
        &RevealState {
            caret: qblank.home,
            selection: 0..0,
        }
    );
    assert!(
        qrev.text.contains("> :"),
        "quoted empty details must reveal `> : `, got {:?}",
        qrev.text
    );
}

#[test]
fn wrapped_list_continuation_click_maps_to_world() {
    let source = "- hello\n  world\n";
    let tree = import(source);
    let para = first_paragraph(&tree.blocks[0]).expect("list paragraph");
    let layout = layout_of(para);
    let w = source.find("world").expect("world");
    let vis = layout.visible_for_source(w);
    assert_eq!(layout.source_for_visible(vis), w);
    assert_ne!(
        &source[layout.source_for_visible(vis)..][..1],
        " ",
        "click on painted `w` must not be continuation indent"
    );
}

#[test]
fn unquoted_paragraph_click_stays_one_to_one() {
    let layout = layout_for("hello\n");
    assert_eq!(layout.text, "hello");
    assert_eq!(layout.source_for_visible(0), 0);
    assert_eq!(layout.source_for_visible(1), 1);
    assert_eq!(layout.source_for_visible(4), 4);
}

#[test]
fn quoted_soft_break_click_maps_to_newline_not_quote() {
    let source = "> hello\n> world\n";
    let tree = import(source);
    let para = first_paragraph(&tree.blocks[0]).expect("quote paragraph");
    let layout = layout_of(para);
    assert!(
        layout.text.contains("hello") && layout.text.contains("world"),
        "both lines must paint, got {:?}",
        layout.text
    );
    let space = layout.text.find(' ').expect("painted soft-break space");
    let mapped = layout.source_for_visible(space);
    assert_eq!(
        source.as_bytes().get(mapped).copied(),
        Some(b'\n'),
        "click on the wrap space must be the newline, got {mapped} {:?}",
        source.get(mapped..mapped.saturating_add(1))
    );
    assert_ne!(
        &source[mapped..mapped + 1],
        ">",
        "soft break must not map onto `>`"
    );
    assert_ne!(
        mapped, layout.block_start,
        "soft break must not map onto the paragraph start"
    );
}

#[test]
fn list_soft_break_click_maps_to_newline_not_marker() {
    let source = "- hello\n  world\n";
    let tree = import(source);
    let para = first_paragraph(&tree.blocks[0]).expect("list paragraph");
    let layout = layout_of(para);
    let space = layout.text.find(' ').expect("painted soft-break space");
    let mapped = layout.source_for_visible(space);
    assert_eq!(
        source.as_bytes().get(mapped).copied(),
        Some(b'\n'),
        "click on the wrap space must be the newline, got {mapped} {:?}",
        source.get(mapped..mapped.saturating_add(1))
    );
    assert_ne!(&source[mapped..mapped + 1], "-");
    assert_ne!(mapped, layout.block_start);
}

#[test]
fn heading_click_maps_to_title_not_hash() {
    let source = "# Title\n";
    let layout = layout_for(source);
    let t = source.find('T').expect("T");
    assert_eq!(layout.text, "Title");
    assert_eq!(layout.source_for_visible(0), t);
    assert_ne!(&source[layout.source_for_visible(0)..][..1], "#");
}

#[test]
fn table_cell_click_stays_on_cell_text() {
    let source = "| a | b |\n| - | - |\n| c | d |\n";
    let tree = import(source);
    let cell = first_kind(&tree.blocks, |k| matches!(k, BlockKind::TableCell)).expect("cell");
    let layout = layout_of(cell);
    let a = source.find('a').expect("a");
    assert_eq!(layout.text, "a");
    assert_eq!(layout.source_for_visible(0), a);
    assert!(!layout.text.contains('|'));
}

#[test]
fn compact_gfm_table_cell_click_stays_on_cell_text() {
    let source = "foo|bar\n---|---\nbaz|bim\n";
    let tree = import(source);
    let cell = first_kind(&tree.blocks, |k| matches!(k, BlockKind::TableCell)).expect("cell");
    let layout = layout_of(cell);
    let f = source.find('f').expect("f");
    assert_eq!(layout.text, "foo");
    assert_eq!(layout.source_for_visible(0), f);
    assert!(!layout.text.contains('|'));
    let revealed = layout_for_caret(source, f);
    assert!(
        revealed.text.contains("foo"),
        "caret in a compact cell must paint the cell, got {:?}",
        revealed.text
    );
    let vis_f = revealed.text.find('f').expect("painted f");
    assert_eq!(
        source
            .as_bytes()
            .get(revealed.source_for_visible(vis_f))
            .copied(),
        Some(b'f'),
        "click on compact cell text still maps onto `f`"
    );
}

#[test]
fn indented_code_click_maps_past_indent() {
    let source = "    code\n";
    let layout = fenced_code_layout(source);
    let c = source.find("code").expect("code");
    let indent = source.find("    code").expect("indent");
    assert_eq!(layout.text, "code");
    assert_eq!(layout.source_for_visible(0), c);
    assert_ne!(
        layout.source_for_visible(0),
        indent,
        "click on painted `code` must not land on the indent"
    );
}

#[test]
fn highlight_eqeq_hides_delimiters_and_paints_background() {
    let layout = layout_for("hello ==mark== world\n");
    assert_eq!(layout.text, "hello mark world");
    assert!(
        !layout.text.contains('='),
        "highlight delimiters must not paint, got {:?}",
        layout.text
    );
    assert!(
        layout.runs.iter().any(|run| has_background(run)),
        "expected highlight background, runs={:?}",
        layout.runs
    );
}

#[test]
fn highlight_eqeq_wraps_nested_bold() {
    let layout = layout_for("==**bold**==\n");
    assert_eq!(layout.text, "bold");
    assert!(
        layout
            .runs
            .iter()
            .any(|run| run.style.weight == RunWeight::Bold),
        "expected bold inside highlight, runs={:?}",
        layout.runs
    );
    assert!(
        layout.runs.iter().any(|run| has_background(run)),
        "expected highlight background, runs={:?}",
        layout.runs
    );
}

fn leaf_at(blocks: &[Node], caret: usize) -> Option<&Node> {
    for b in blocks {
        if caret < b.source_range.start || caret > b.source_range.end {
            continue;
        }
        if let Some(inner) = leaf_at(&b.children, caret) {
            return Some(inner);
        }
        if !b.inlines.is_empty()
            || matches!(
                b.kind,
                BlockKind::Paragraph
                    | BlockKind::Heading { .. }
                    | BlockKind::TableCell
                    | BlockKind::CodeBlock { .. }
            )
        {
            return Some(b);
        }
    }
    None
}

#[test]
fn math_hides_dollars_and_paints_formula_style() {
    let layout = layout_for("see $x^2$ here\n");
    assert_eq!(layout.text, "see x^2 here");
    assert!(
        !layout.text.contains('$'),
        "math delimiters must not paint when caret is outside, got {:?}",
        layout.text
    );
    assert!(
        layout
            .runs
            .iter()
            .any(|run| math_run_is_styled(run)),
        "expected italic monospace math, runs={:?}",
        layout.runs
    );
}

#[test]
fn math_reveals_dollars_when_caret_intersects() {
    let source = "see $x^2$ here\n";
    let inside = source.find('x').unwrap();
    let layout = layout_for_caret(source, inside);
    assert!(
        layout.text.contains("$x^2$"),
        "expected revealed $…$, got {:?}",
        layout.text
    );
    assert_eq!(layout.text, "see $x^2$ here");
}

#[test]
fn wikilink_hides_brackets_and_paints_as_link() {
    let layout = layout_for("see [[page]] here\n");
    assert_eq!(layout.text, "see page here");
    assert!(
        !layout.text.contains('[') && !layout.text.contains(']'),
        "wiki brackets must not paint when caret is outside, got {:?}",
        layout.text
    );
    assert!(
        layout.runs.iter().any(|run| is_underlined(run)),
        "expected link underline, runs={:?}",
        layout.runs
    );
    let piped = layout_for("go [[page|Label]]\n");
    assert_eq!(piped.text, "go Label");
    assert!(
        !piped.text.contains("page"),
        "target must hide when labeled"
    );
}

#[test]
fn wikilink_reveals_brackets_when_caret_intersects() {
    let source = "see [[page]] here\n";
    let inside = source.find("page").unwrap();
    let layout = layout_for_caret(source, inside);
    assert!(
        layout.text.contains("[[page]]"),
        "expected revealed [[…]], got {:?}",
        layout.text
    );
    assert_eq!(layout.text, "see [[page]] here");
}

#[test]
fn emoji_hides_shortcode_and_paints_glyph() {
    let layout = layout_for("see :smile: here\n");
    assert_eq!(layout.text, "see 😄 here");
    assert!(
        !layout.text.contains(":smile:"),
        "shortcode must not paint when caret is outside, got {:?}",
        layout.text
    );
    let heart = layout_for("love :heart: now\n");
    assert!(
        heart.text.contains("❤️"),
        "expected heart glyph, got {:?}",
        heart.text
    );
    assert!(!heart.text.contains(":heart:"));
    let plus = layout_for(":+1:\n");
    assert_eq!(plus.text, "👍");
    let rocket = layout_for(":rocket:\n");
    assert_eq!(rocket.text, "🚀");
}

#[test]
fn emoji_reveals_shortcode_when_caret_intersects() {
    let source = "see :smile: here\n";
    let inside = source.find("smile").unwrap();
    let layout = layout_for_caret(source, inside);
    assert!(
        layout.text.contains(":smile:"),
        "expected revealed :smile:, got {:?}",
        layout.text
    );
    assert!(
        !layout.text.contains("😄"),
        "glyph must hide while caret is in the shortcode, got {:?}",
        layout.text
    );
    assert_eq!(layout.text, "see :smile: here");
    let on_colon = layout_for_caret(source, source.find(":smile:").unwrap());
    assert!(
        on_colon.text.contains(":smile:"),
        "caret on opening colon must reveal, got {:?}",
        on_colon.text
    );
    let start = source.find(":smile:").unwrap();
    let tree = import(source);
    let selected = leaf_layout(
        &tree.blocks[0],
        source,
        &RevealState {
            caret: 0,
            selection: start..start + 7,
        },
        &ChromeHosts::none(),
    );
    assert!(
        selected.text.contains(":smile:"),
        "selection overlap must reveal, got {:?}",
        selected.text
    );
}

#[test]
fn unknown_emoji_shortcode_stays_visible() {
    let layout = layout_for("see :not_an_emoji: here\n");
    assert_eq!(layout.text, "see :not_an_emoji: here");
    let mixed = layout_for("a :smile: and :foo: b\n");
    assert!(
        mixed.text.contains("😄"),
        "known name must paint, got {:?}",
        mixed.text
    );
    assert!(
        mixed.text.contains(":foo:"),
        "unknown name must stay, got {:?}",
        mixed.text
    );
    assert!(!mixed.text.contains(":smile:"));
}

#[test]
fn autolink_hides_angle_brackets_unless_caret_intersects() {
    let source = "see <https://example.com> here\n";
    let hidden = layout_for(source);
    assert_eq!(hidden.text, "see https://example.com here");
    assert!(
        !hidden.text.contains('<') && !hidden.text.contains('>'),
        "autolink `<>` must not paint when caret is outside, got {:?}",
        hidden.text
    );
    let inside = source.find("example").expect("host");
    let revealed = layout_for_caret(source, inside);
    assert!(
        revealed.text.contains("<https://example.com>"),
        "caret inside an autolink must reveal `<>`, got {:?}",
        revealed.text
    );
    assert_eq!(revealed.text, "see <https://example.com> here");
    let open = source.find('<').expect("<");
    let on_bracket = layout_for_caret(source, open);
    assert!(
        on_bracket.text.contains("<https://example.com>"),
        "caret on `<` must reveal, got {:?}",
        on_bracket.text
    );
    let vis_lt = revealed.text.find('<').expect("painted <");
    assert_eq!(
        source
            .as_bytes()
            .get(revealed.source_for_visible(vis_lt))
            .copied(),
        Some(b'<'),
        "revealed `<` maps onto the source bracket"
    );
    let vis_h = revealed.text.find("https").expect("https");
    assert_eq!(
        source
            .as_bytes()
            .get(revealed.source_for_visible(vis_h))
            .copied(),
        Some(b'h'),
        "revealed URL still maps onto `h`"
    );
    let start = source.find("<https://example.com>").expect("span");
    let tree = import(source);
    let selected = leaf_layout(
        &tree.blocks[0],
        source,
        &RevealState {
            caret: 0,
            selection: start..start + "<https://example.com>".len(),
        },
        &ChromeHosts::none(),
    );
    assert!(
        selected.text.contains("<https://example.com>"),
        "selection overlap must reveal `<>`, got {:?}",
        selected.text
    );
}

#[test]
fn email_autolink_reveals_angle_brackets_when_caret_intersects() {
    let source = "see <user@example.com> now\n";
    let hidden = layout_for(source);
    assert!(
        hidden.text.contains("user@example.com")
            && !hidden.text.contains('<')
            && !hidden.text.contains('>'),
        "email autolink `<>` must not paint when caret is outside, got {:?}",
        hidden.text
    );
    let inside = source.find("user").expect("user");
    let revealed = layout_for_caret(source, inside);
    assert!(
        revealed.text.contains("<user@example.com>"),
        "caret inside an email autolink must reveal `<>`, got {:?}",
        revealed.text
    );
}

#[test]
fn bare_url_autolink_does_not_invent_angle_brackets() {
    let source = "see https://example.com now\n";
    let hidden = layout_for(source);
    assert!(
        hidden.text.contains("https://example.com"),
        "bare URL must paint, got {:?}",
        hidden.text
    );
    assert!(
        !hidden.text.contains('<') && !hidden.text.contains('>'),
        "bare GFM autolink has no `<>`, got {:?}",
        hidden.text
    );
    let inside = source.find("example").expect("host");
    let revealed = layout_for_caret(source, inside);
    assert!(
        !revealed.text.contains('<') && !revealed.text.contains('>'),
        "caret inside a bare URL must not invent `<>`, got {:?}",
        revealed.text
    );
    let vis = hidden.text.find("https").expect("painted url");
    assert_eq!(
        source
            .as_bytes()
            .get(hidden.source_for_visible(vis))
            .copied(),
        Some(b'h'),
        "click on a bare GFM autolink must map onto the URL, not the paragraph start"
    );
}

#[test]
fn www_autolink_click_maps_onto_the_url_not_paragraph_start() {
    for source in [
        "see www.example.com now\n",
        "> www.example.com\n",
        "- www.example.com\n",
        "see user@example.com now\n",
    ] {
        let tree = import(source);
        let block = first_paragraph(&tree.blocks[0]).unwrap_or(&tree.blocks[0]);
        let layout = layout_of_source(block, source, &RevealState::hidden());
        let needle = if source.contains("user@") {
            "user@"
        } else {
            "www."
        };
        let vis = layout
            .text
            .find(needle)
            .unwrap_or_else(|| panic!("painted {needle} in {:?}", layout.text));
        let mapped = layout.source_for_visible(vis);
        assert_eq!(
            source.get(mapped..mapped + needle.len()).unwrap_or(""),
            needle,
            "click must map onto {needle}, {source:?} got {mapped} {:?}",
            source.get(mapped..mapped.saturating_add(1))
        );
        if source.as_bytes().first() == Some(&b'>') {
            assert_ne!(mapped, 0, "must not map onto `>`, {source:?}");
        }
        if source.as_bytes().first() == Some(&b'-') {
            assert_ne!(mapped, 0, "must not map onto `-`, {source:?}");
        }
        if source.starts_with("see ") {
            assert!(mapped > 0, "must not map onto paragraph start, {source:?}");
        }
        assert!(
            !layout.text.contains('<') && !layout.text.contains('>'),
            "must not invent `<>`, {source:?} got {:?}",
            layout.text
        );
    }
}

#[test]
fn quoted_autolink_hides_and_reveals_angle_brackets() {
    let source = "> see <https://example.com>\n";
    let tree = import(source);
    let para = first_paragraph(&tree.blocks[0]).expect("quote paragraph");
    let hidden = layout_of(para);
    assert!(
        hidden.text.contains("https://example.com")
            && !hidden.text.contains('<')
            && !hidden.text.contains('>'),
        "quoted autolink `<>` must not paint, got {:?}",
        hidden.text
    );
    let inside = source.find("example").expect("host");
    let revealed = leaf_layout(
        para,
        source,
        &RevealState {
            caret: inside,
            selection: 0..0,
        },
        &ChromeHosts::none(),
    );
    assert!(
        revealed.text.contains("<https://example.com>"),
        "caret inside a quoted autolink must reveal `<>`, got {:?}",
        revealed.text
    );
}

#[test]
fn display_math_hides_double_dollars() {
    let layout = layout_for("$$E=mc^2$$\n");
    assert!(
        !layout.text.contains("$$"),
        "display delimiters must not paint, got {:?}",
        layout.text
    );
    assert!(
        layout.text.contains("E=mc^2"),
        "expected formula body, got {:?}",
        layout.text
    );
    let revealed = layout_for_caret("$$E=mc^2$$\n", 2);
    assert!(
        revealed.text.contains("$$"),
        "caret inside display math must reveal $$, got {:?}",
        revealed.text
    );
}

#[test]
fn multiline_display_math_hides_dollars_and_wrapping_newlines() {
    let src = "$$\nE=mc^2\n$$\n";
    let layout = layout_for(src);
    assert!(
        !layout.text.contains("$$"),
        "display delimiters must not paint, got {:?}",
        layout.text
    );
    assert!(
        !layout.text.starts_with('\n'),
        "wrapping newline after `$$` must not paint, got {:?}",
        layout.text
    );
    assert!(
        layout.text.contains("E=mc^2"),
        "expected formula body, got {:?}",
        layout.text
    );
    let vis = layout.text.find('E').expect("painted E");
    let mapped = layout.source_for_visible(vis);
    assert_eq!(
        src.as_bytes().get(mapped).copied(),
        Some(b'E'),
        "click on painted formula must be `E`, not `$$` / `\\n`, got {mapped}"
    );
    assert_ne!(mapped, src.find("$$").expect("$$"));
    let revealed = layout_for_caret(src, src.find('E').expect("E"));
    assert!(
        revealed.text.contains("$$"),
        "caret inside multiline display math must reveal $$, got {:?}",
        revealed.text
    );
}

#[test]
fn currency_and_code_are_not_math_layout() {
    let five = layout_for("costs $5\n");
    assert_eq!(five.text, "costs $5");
    assert!(
        !five.runs.iter().any(|run| math_run_is_styled(run)),
        "currency must not use math style, runs={:?}",
        five.runs
    );
    let code = layout_for("`$x$`\n");
    assert_eq!(code.text, "$x$");
    assert!(
        code.runs.iter().any(|run| has_background(run)),
        "expected inline code, runs={:?}",
        code.runs
    );
}

#[test]
fn html_mark_paints_background_not_tags() {
    let layout = layout_for("a <mark>hot</mark> b\n");
    assert_eq!(layout.text, "a hot b");
    assert!(!layout.text.contains('<'));
    assert!(
        layout.runs.iter().any(|run| has_background(run)),
        "expected <mark> background, runs={:?}",
        layout.runs
    );
}

#[test]
fn html_sub_sup_use_unicode_when_mapped() {
    let layout = layout_for("H<sub>2</sub>O and x<sup>2</sup>\n");
    assert!(
        layout.text.contains('₂'),
        "expected subscript two, got {:?}",
        layout.text
    );
    assert!(
        layout.text.contains('²'),
        "expected superscript two, got {:?}",
        layout.text
    );
    assert!(!layout.text.contains("<sub"));
    assert!(!layout.text.contains("<sup"));
}

#[test]
fn markdown_sub_sup_use_unicode() {
    let sub = layout_for("H~2~O\n");
    assert!(
        sub.text.contains('₂'),
        "expected ~2~ subscript, got {:?}",
        sub.text
    );
    assert!(
        !sub.text.contains('~'),
        "tilde must not paint, {:?}",
        sub.text
    );
    let sup = layout_for("mc^2^\n");
    assert!(
        sup.text.contains('²'),
        "expected ^2^ superscript, got {:?}",
        sup.text
    );
    assert!(
        !sup.text.contains('^'),
        "caret must not paint, {:?}",
        sup.text
    );
}

#[test]
fn html_block_inner_markdown_paints_bold() {
    let layout = html_block_layout("<div>\n**bold** and `code`\n</div>");
    assert!(
        layout.text.contains("bold"),
        "inner text, got {:?}",
        layout.text
    );
    assert!(
        !layout.text.contains('*'),
        "markdown markers must not paint, got {:?}",
        layout.text
    );
    assert!(
        !layout.text.contains("<div"),
        "html tags must not paint, got {:?}",
        layout.text
    );
    assert!(
        layout
            .runs
            .iter()
            .any(|run| run.style.weight == RunWeight::Bold),
        "expected nested bold in HTML block, runs={:?}",
        layout.runs
    );
}

#[test]
fn html_block_reveals_div_tags_when_caret_intersects() {
    let source = "<div>\n**bold** and `code`\n</div>\n";
    let hidden = html_block_layout_from_source(source);
    assert!(
        hidden.text.contains("bold"),
        "inner markdown must still paint, got {:?}",
        hidden.text
    );
    assert!(
        !hidden.text.contains("<div") && !hidden.text.contains("</div>"),
        "caret outside must hide wrapper tags, got {:?}",
        hidden.text
    );
    assert!(
        hidden
            .runs
            .iter()
            .any(|run| run.style.weight == RunWeight::Bold),
        "inner bold stays when tags are hidden, runs={:?}",
        hidden.runs
    );
    let vis_b = hidden.text.find("bold").expect("hidden bold");
    assert_eq!(
        source
            .as_bytes()
            .get(hidden.source_for_visible(vis_b))
            .copied(),
        Some(b'b'),
        "hidden click on painted bold maps into the word"
    );

    let b = source.find("bold").expect("bold");
    let revealed = html_block_layout_from_source_reveal(
        source,
        &RevealState {
            caret: b,
            selection: 0..0,
        },
    );
    assert!(
        revealed.text.contains("<div>") && revealed.text.contains("</div>"),
        "caret in the HTML block must reveal wrapper tags, got {:?}",
        revealed.text
    );
    assert!(
        revealed.text.contains("bold") && !revealed.text.contains('*'),
        "inner markdown still paints as rich text, got {:?}",
        revealed.text
    );
    assert!(
        revealed
            .runs
            .iter()
            .any(|run| run.style.weight == RunWeight::Bold),
        "inner bold stays when tags reveal, runs={:?}",
        revealed.runs
    );
    let vis_lt = revealed.text.find('<').expect("painted <");
    assert_eq!(
        source
            .as_bytes()
            .get(revealed.source_for_visible(vis_lt))
            .copied(),
        Some(b'<'),
        "click on revealed `<div>` maps onto the tag"
    );
    let vis_b = revealed.text.find("bold").expect("painted bold");
    assert_eq!(
        source
            .as_bytes()
            .get(revealed.source_for_visible(vis_b))
            .copied(),
        Some(b'b'),
        "click on painted `bold` still maps onto `b`, not a phantom `<div>`"
    );
}

#[test]
fn html_block_comment_reveals_when_caret_intersects() {
    let source = "<!-- secret -->\n";
    let tree = import(source);
    let block = first_kind(&tree.blocks, |k| matches!(k, BlockKind::Opaque { .. }))
        .expect("comment block");
    let hidden =
        html_block_layout_or_source(source, block, &RevealState::hidden());
    assert!(
        !hidden.text.contains("secret") && !hidden.text.contains("<!--"),
        "caret outside must hide a comment block, got {:?}",
        hidden.text
    );
    let caret = source.find("secret").expect("secret");
    let revealed = html_block_layout_or_source(
        source,
        block,
        &RevealState {
            caret,
            selection: 0..0,
        },
    );
    assert!(
        revealed.text.contains("<!--") && revealed.text.contains("secret"),
        "caret in an HTML-block comment must reveal source, got {:?}",
        revealed.text
    );
    let vis = revealed.text.find('<').expect("painted <");
    assert_eq!(
        source
            .as_bytes()
            .get(revealed.source_for_visible(vis))
            .copied(),
        Some(b'<'),
        "click on a revealed comment maps onto the source"
    );

    for wrapped in ["> <!-- secret -->\n", "- <!-- secret -->\n"] {
        let tree = import(wrapped);
        let block = first_kind(&tree.blocks, |k| matches!(k, BlockKind::Opaque { .. }))
            .expect("comment block");
        let caret = wrapped.find("secret").expect("secret");
        let revealed = html_block_layout_or_source(
            wrapped,
            block,
            &RevealState {
                caret,
                selection: 0..0,
            },
        );
        assert!(
            revealed.text.contains("<!--") && revealed.text.contains("secret"),
            "quoted/list HTML-block comments must reveal, {wrapped:?} got {:?}",
            revealed.text
        );
    }
}

#[test]
fn html_block_pi_and_cdata_reveal_when_caret_intersects() {
    for source in [
        "<?php if ($a > $b) echo 1; ?>\n",
        "<![CDATA[a > b]]>\n",
        "> <?php if ($a > $b) echo 1; ?>\n",
        "- <![CDATA[a > b]]>\n",
    ] {
        let tree = import(source);
        let block = first_kind(&tree.blocks, |k| matches!(k, BlockKind::Opaque { .. }))
            .expect("html chrome block");
        let hidden =
            html_block_layout_or_source(source, block, &RevealState::hidden());
        assert!(
            !hidden.text.contains("php")
                && !hidden.text.contains("CDATA")
                && !hidden.text.contains('$'),
            "caret outside must hide PI/CDATA, {source:?} got {:?}",
            hidden.text
        );
        let caret = source
            .find(" > ")
            .map(|i| i + 1)
            .unwrap_or(block.source_range.start);
        let revealed = html_block_layout_or_source(
            source,
            block,
            &RevealState {
                caret,
                selection: 0..0,
            },
        );
        assert!(
            revealed.text.contains("<?") || revealed.text.contains("CDATA"),
            "caret in PI/CDATA must reveal source, {source:?} got {:?}",
            revealed.text
        );
        assert!(
            revealed.text.contains('>'),
            "revealed source must keep the inner `>`, {source:?} got {:?}",
            revealed.text
        );
        let vis = revealed
            .text
            .find('<')
            .or_else(|| revealed.text.find('C'))
            .expect("painted opener");
        let mapped = revealed.source_for_visible(vis);
        let ch = source.as_bytes().get(mapped).copied();
        assert!(
            ch == Some(b'<') || ch == Some(b'C'),
            "click on revealed PI/CDATA maps onto source, {source:?} got {ch:?}"
        );
    }
}

#[test]
fn html_block_empty_div_reveals_tags_when_caret_intersects() {
    let source = "<div></div>\n";
    let tree = import(source);
    let block =
        first_kind(&tree.blocks, |k| matches!(k, BlockKind::Opaque { .. })).expect("div");
    let hidden =
        html_block_layout_or_source(source, block, &RevealState::hidden());
    assert!(
        !hidden.text.contains("<div") && !hidden.text.contains("</div>"),
        "caret outside must hide empty wrapper tags, got {:?}",
        hidden.text
    );
    let revealed = html_block_layout_or_source(
        source,
        block,
        &RevealState {
            caret: 0,
            selection: 0..0,
        },
    );
    assert!(
        revealed.text.contains("<div") && revealed.text.contains("</div>"),
        "caret in an empty `<div>` must reveal tags, got {:?}",
        revealed.text
    );
}

#[test]
fn html_block_script_stays_hidden_when_caret_intersects() {
    let source = "<script>alert(1)</script>\n";
    let tree = import(source);
    let block =
        first_kind(&tree.blocks, |k| matches!(k, BlockKind::Opaque { .. })).expect("script");
    let caret = source.find("alert").expect("alert");
    let revealed = html_block_layout_or_source(
        source,
        block,
        &RevealState {
            caret,
            selection: 0..0,
        },
    );
    assert!(
        !revealed.text.contains("alert") && !revealed.text.contains("<script"),
        "script blocks must stay hidden even when the caret intersects, got {:?}",
        revealed.text
    );
}

#[test]
fn html_block_iframe_stays_hidden_when_caret_intersects() {
    for source in [
        "<iframe src=\"https://e.com\"></iframe>\n",
        "<iframe src=\"https://e.com\"><p>nested</p></iframe>\n",
        "- <iframe src=\"https://e.com\"></iframe>\n",
        "<noframes>fallback</noframes>\n",
        "<noembed>\nfallback\n</noembed>\n",
    ] {
        let tree = import(source);
        let block = first_kind(&tree.blocks, |k| matches!(k, BlockKind::Opaque { .. }))
            .expect("iframe-like");
        let caret = source
            .find("nested")
            .or_else(|| source.find("fallback"))
            .or_else(|| source.find("e.com"))
            .unwrap_or(block.source_range.start);
        let revealed = html_block_layout_or_source(
            source,
            block,
            &RevealState {
                caret,
                selection: 0..0,
            },
        );
        assert!(
            !revealed.text.contains("nested")
                && !revealed.text.contains("fallback")
                && !revealed.text.contains("iframe")
                && !revealed.text.contains("<p")
                && !revealed.text.contains("e.com"),
            "iframe/noembed/noframes must stay hidden (no nested document), {source:?} got {:?}",
            revealed.text
        );
    }
}

#[test]
fn html_block_title_xmp_reveal_source_when_caret_intersects() {
    for source in [
        "<title>Doc title</title>\n",
        "<xmp>\nraw <b>html</b>\n</xmp>\n",
        "<plaintext>\nraw text\n",
        "> <title>Doc title</title>\n",
        "> <xmp>\n> raw\n> </xmp>\n",
    ] {
        let tree = import(source);
        let block = first_kind(&tree.blocks, |k| matches!(k, BlockKind::Opaque { .. }))
            .expect("tagfilter source");
        let hidden =
            html_block_layout_or_source(source, block, &RevealState::hidden());
        assert!(
            !hidden.text.contains("Doc title")
                && !hidden.text.contains("raw")
                && !hidden.text.contains("<title")
                && !hidden.text.contains("<xmp")
                && !hidden.text.contains("<plaintext"),
            "caret outside must hide title/xmp/plaintext, {source:?} got {:?}",
            hidden.text
        );
        let inner = source
            .find("Doc title")
            .or_else(|| source.find("raw"))
            .unwrap_or(block.source_range.start);
        let revealed = html_block_layout_or_source(
            source,
            block,
            &RevealState {
                caret: inner,
                selection: 0..0,
            },
        );
        let open = if source.contains("<title") {
            "<title"
        } else if source.contains("<xmp") {
            "<xmp"
        } else {
            "<plaintext"
        };
        assert!(
            revealed.text.contains(open)
                && (revealed.text.contains("Doc title")
                    || revealed.text.contains("raw")
                    || revealed.text.contains("raw text")),
            "caret in title/xmp/plaintext must reveal source, {source:?} got {:?}",
            revealed.text
        );
        if source.contains("<xmp") {
            assert!(
                revealed.text.contains("<b>html</b>") || revealed.text.contains("raw"),
                "xmp must paint raw source, not nested HTML, {source:?} got {:?}",
                revealed.text
            );
        }
        let vis = revealed.text.find('<').expect("painted <");
        assert_eq!(
            source
                .as_bytes()
                .get(revealed.source_for_visible(vis))
                .copied(),
            Some(b'<'),
            "click on revealed title/xmp source maps onto the tag, {source:?}"
        );
    }
}

#[test]
fn html_block_details_reveal_source_when_caret_intersects() {
    for source in [
        "<details><summary>Title</summary>body</details>\n",
        "<details>\n<summary>Title</summary>\nhidden\n</details>\n",
        "> <details><summary>Title</summary>body</details>\n",
        "- <details><summary>Title</summary>body</details>\n",
    ] {
        let tree = import(source);
        let block = first_kind(&tree.blocks, |k| matches!(k, BlockKind::Opaque { .. }))
            .expect("details html");
        let hidden =
            html_block_layout_or_source(source, block, &RevealState::hidden());
        assert!(
            !hidden.text.contains("Title")
                && !hidden.text.contains("body")
                && !hidden.text.contains("hidden")
                && !hidden.text.contains("<details")
                && !hidden.text.contains("<summary"),
            "caret outside must hide details source, {source:?} got {:?}",
            hidden.text
        );
        let inner = source
            .find("Title")
            .or_else(|| source.find("body"))
            .unwrap_or(block.source_range.start);
        let revealed = html_block_layout_or_source(
            source,
            block,
            &RevealState {
                caret: inner,
                selection: 0..0,
            },
        );
        assert!(
            revealed.text.contains("<details")
                && (revealed.text.contains("Title")
                    || revealed.text.contains("body")
                    || revealed.text.contains("hidden")),
            "caret in details must reveal source, {source:?} got {:?}",
            revealed.text
        );
        assert!(
            revealed.text.contains("<summary") || revealed.text.contains("Title"),
            "details must paint raw source, not a disclosure widget, {source:?} got {:?}",
            revealed.text
        );
        let vis = revealed.text.find('<').expect("painted <");
        assert_eq!(
            source
                .as_bytes()
                .get(revealed.source_for_visible(vis))
                .copied(),
            Some(b'<'),
            "click on revealed details source maps onto the tag, {source:?}"
        );
    }
}

#[test]
fn html_dangerous_html_reveal_source_when_caret_intersects() {
    for source in [
        "<video src=\"x.mp4\"></video>\n",
        "<video>\nhello\n</video>\n",
        "<dialog>hello</dialog>\n",
        "<form action=\"/x\">ok</form>\n",
        "<math>x^2</math>\n",
        "<canvas>fallback</canvas>\n",
        "- <video src=\"x.mp4\"></video>\n",
        "> <dialog>hello</dialog>\n",
    ] {
        let tree = import(source);
        let block = first_kind(&tree.blocks, |k| {
            matches!(k, BlockKind::Opaque { .. } | BlockKind::Paragraph)
        })
        .expect("dangerous html");
        let hidden = if matches!(block.kind, BlockKind::Opaque { .. }) {
            html_block_layout_or_source(source, block, &RevealState::hidden())
        } else {
            leaf_layout(
                block,
                source,
                &RevealState::hidden(),
                &ChromeHosts::none(),
            )
        };
        assert!(
            !hidden.text.contains("<video")
                && !hidden.text.contains("<dialog")
                && !hidden.text.contains("<form")
                && !hidden.text.contains("<math")
                && !hidden.text.contains("<canvas")
                && !hidden.text.contains("hello")
                && !hidden.text.contains("fallback")
                && !hidden.text.contains("x.mp4"),
            "caret outside must hide dangerous HTML source, {source:?} got {:?}",
            hidden.text
        );
        let inner = source
            .find("hello")
            .or_else(|| source.find("ok"))
            .or_else(|| source.find("fallback"))
            .or_else(|| source.find("x.mp4"))
            .or_else(|| source.find("x^2"))
            .unwrap_or(block.source_range.start);
        let revealed = if matches!(block.kind, BlockKind::Opaque { .. }) {
            html_block_layout_or_source(
                source,
                block,
                &RevealState {
                    caret: inner,
                    selection: 0..0,
                },
            )
        } else {
            leaf_layout(
                block,
                source,
                &RevealState {
                    caret: inner,
                    selection: 0..0,
                },
                &ChromeHosts::none(),
            )
        };
        assert!(
            revealed.text.contains("<video")
                || revealed.text.contains("<dialog")
                || revealed.text.contains("<form")
                || revealed.text.contains("<math")
                || revealed.text.contains("<canvas"),
            "caret in dangerous HTML must reveal source, {source:?} got {:?}",
            revealed.text
        );
        let vis = revealed.text.find('<').expect("painted <");
        assert_eq!(
            source
                .as_bytes()
                .get(revealed.source_for_visible(vis))
                .copied(),
            Some(b'<'),
            "click on revealed dangerous HTML source maps onto the tag, {source:?}"
        );
    }

    for source in [
        "<object data=\"x\"></object>\n",
        "- <object data=\"x\"></object>\n",
    ] {
        let tree = import(source);
        let block = first_kind(&tree.blocks, |k| {
            matches!(k, BlockKind::Opaque { .. } | BlockKind::Paragraph)
        })
        .expect("object html");
        let caret = source.find("object").unwrap_or(block.source_range.start);
        let revealed = if matches!(block.kind, BlockKind::Opaque { .. }) {
            html_block_layout_or_source(
                source,
                block,
                &RevealState {
                    caret,
                    selection: 0..0,
                },
            )
        } else {
            leaf_layout(
                block,
                source,
                &RevealState {
                    caret,
                    selection: 0..0,
                },
                &ChromeHosts::none(),
            )
        };
        assert!(
            !revealed.text.contains("<object") && !revealed.text.contains("data"),
            "object must stay hidden like iframe, {source:?} got {:?}",
            revealed.text
        );
    }
}

#[test]
fn html_form_controls_reveal_source_when_caret_intersects() {
    for source in [
        "<button>click</button>\n",
        "<button>\nclick\n</button>\n",
        "- <button>click</button>\n",
        "> <button>click</button>\n",
        "<select><option>a</option></select>\n",
        "> <select><option>a</option></select>\n",
        "<input type=\"text\">\n",
        "- <input type=\"text\">\n",
        "<label>Name</label>\n",
        "<option>a</option>\n",
    ] {
        let tree = import(source);
        let block = first_kind(&tree.blocks, |k| {
            matches!(k, BlockKind::Opaque { .. } | BlockKind::Paragraph)
        })
        .expect("form-control html");
        let hidden = if matches!(block.kind, BlockKind::Opaque { .. }) {
            html_block_layout_or_source(source, block, &RevealState::hidden())
        } else {
            leaf_layout(
                block,
                source,
                &RevealState::hidden(),
                &ChromeHosts::none(),
            )
        };
        assert!(
            !hidden.text.contains("<button")
                && !hidden.text.contains("<select")
                && !hidden.text.contains("<input")
                && !hidden.text.contains("<label")
                && !hidden.text.contains("<option")
                && !hidden.text.contains("click")
                && !hidden.text.contains("Name"),
            "caret outside must hide form-control source, {source:?} got {:?}",
            hidden.text
        );
        let inner = source
            .find("click")
            .or_else(|| source.find("Name"))
            .or_else(|| source.find("type="))
            .or_else(|| source.find("<option"))
            .unwrap_or(block.source_range.start);
        let revealed = if matches!(block.kind, BlockKind::Opaque { .. }) {
            html_block_layout_or_source(
                source,
                block,
                &RevealState {
                    caret: inner,
                    selection: 0..0,
                },
            )
        } else {
            leaf_layout(
                block,
                source,
                &RevealState {
                    caret: inner,
                    selection: 0..0,
                },
                &ChromeHosts::none(),
            )
        };
        assert!(
            revealed.text.contains("<button")
                || revealed.text.contains("<select")
                || revealed.text.contains("<input")
                || revealed.text.contains("<label")
                || revealed.text.contains("<option"),
            "caret in a form control must reveal source, not a live form UI, {source:?} got {:?}",
            revealed.text
        );
        let vis = revealed.text.find('<').expect("painted <");
        assert_eq!(
            source
                .as_bytes()
                .get(revealed.source_for_visible(vis))
                .copied(),
            Some(b'<'),
            "click on revealed form-control source maps onto the tag, {source:?}"
        );
    }

    let mixed = "hello <button>click</button>\n";
    let tree = import(mixed);
    let block = first_kind(&tree.blocks, |k| matches!(k, BlockKind::Paragraph))
        .expect("mixed paragraph");
    let hidden = leaf_layout(
        block,
        mixed,
        &RevealState::hidden(),
        &ChromeHosts::none(),
    );
    assert!(
        hidden.text.contains("hello")
            && !hidden.text.contains("click")
            && !hidden.text.contains("<button"),
        "mixed paragraph must paint hello and hide the button widget, got {:?}",
        hidden.text
    );
    let click = mixed.find("click").expect("click");
    let revealed = leaf_layout(
        block,
        mixed,
        &RevealState {
            caret: click,
            selection: 0..0,
        },
        &ChromeHosts::none(),
    );
    assert!(
        revealed.text.contains("hello") && revealed.text.contains("<button"),
        "caret in the button must reveal source beside hello, got {:?}",
        revealed.text
    );
}

#[test]
fn html_noscript_and_template_reveal_source_when_caret_intersects() {
    for source in [
        "<noscript>fallback</noscript>\n",
        "<noscript>\nfallback\n</noscript>\n",
        "- <noscript>fallback</noscript>\n",
        "> <noscript>fallback</noscript>\n",
        "<template><p>slot</p></template>\n",
        "> <template><p>slot</p></template>\n",
    ] {
        let tree = import(source);
        let block = first_kind(&tree.blocks, |k| {
            matches!(k, BlockKind::Opaque { .. } | BlockKind::Paragraph)
        })
        .expect("noscript/template html");
        let hidden = if matches!(block.kind, BlockKind::Opaque { .. }) {
            html_block_layout_or_source(source, block, &RevealState::hidden())
        } else {
            leaf_layout(
                block,
                source,
                &RevealState::hidden(),
                &ChromeHosts::none(),
            )
        };
        assert!(
            !hidden.text.contains("<noscript")
                && !hidden.text.contains("<template")
                && !hidden.text.contains("fallback")
                && !hidden.text.contains("slot"),
            "caret outside must hide noscript/template source, {source:?} got {:?}",
            hidden.text
        );
        let inner = source
            .find("fallback")
            .or_else(|| source.find("slot"))
            .unwrap_or(block.source_range.start);
        let revealed = if matches!(block.kind, BlockKind::Opaque { .. }) {
            html_block_layout_or_source(
                source,
                block,
                &RevealState {
                    caret: inner,
                    selection: 0..0,
                },
            )
        } else {
            leaf_layout(
                block,
                source,
                &RevealState {
                    caret: inner,
                    selection: 0..0,
                },
                &ChromeHosts::none(),
            )
        };
        assert!(
            revealed.text.contains("<noscript") || revealed.text.contains("<template"),
            "caret in noscript/template must reveal source, not a nested document, {source:?} got {:?}",
            revealed.text
        );
        let vis = revealed.text.find('<').expect("painted <");
        assert_eq!(
            source
                .as_bytes()
                .get(revealed.source_for_visible(vis))
                .copied(),
            Some(b'<'),
            "click on revealed noscript/template source maps onto the tag, {source:?}"
        );
    }
}

#[test]
fn html_fieldset_legend_reveal_source_when_caret_intersects() {
    for source in [
        "<fieldset><legend>Title</legend>body</fieldset>\n",
        "<fieldset>\n<legend>Title</legend>\nhidden\n</fieldset>\n",
        "> <fieldset><legend>Title</legend>body</fieldset>\n",
        "- <fieldset><legend>Title</legend>body</fieldset>\n",
        "<legend>Title</legend>\n",
    ] {
        let tree = import(source);
        let block = first_kind(&tree.blocks, |k| {
            matches!(k, BlockKind::Opaque { .. } | BlockKind::Paragraph)
        })
        .expect("fieldset/legend html");
        let hidden = if matches!(block.kind, BlockKind::Opaque { .. }) {
            html_block_layout_or_source(source, block, &RevealState::hidden())
        } else {
            leaf_layout(
                block,
                source,
                &RevealState::hidden(),
                &ChromeHosts::none(),
            )
        };
        assert!(
            !hidden.text.contains("Title")
                && !hidden.text.contains("body")
                && !hidden.text.contains("hidden")
                && !hidden.text.contains("<fieldset")
                && !hidden.text.contains("<legend"),
            "caret outside must hide fieldset/legend source, {source:?} got {:?}",
            hidden.text
        );
        let inner = source
            .find("Title")
            .or_else(|| source.find("body"))
            .unwrap_or(block.source_range.start);
        let revealed = if matches!(block.kind, BlockKind::Opaque { .. }) {
            html_block_layout_or_source(
                source,
                block,
                &RevealState {
                    caret: inner,
                    selection: 0..0,
                },
            )
        } else {
            leaf_layout(
                block,
                source,
                &RevealState {
                    caret: inner,
                    selection: 0..0,
                },
                &ChromeHosts::none(),
            )
        };
        assert!(
            revealed.text.contains("<fieldset") || revealed.text.contains("<legend"),
            "caret in fieldset/legend must reveal source, not a live form UI, {source:?} got {:?}",
            revealed.text
        );
        let vis = revealed.text.find('<').expect("painted <");
        assert_eq!(
            source
                .as_bytes()
                .get(revealed.source_for_visible(vis))
                .copied(),
            Some(b'<'),
            "click on revealed fieldset/legend source maps onto the tag, {source:?}"
        );
    }
}

#[test]
fn html_output_progress_meter_reveal_source_when_caret_intersects() {
    for source in [
        "<output>42</output>\n",
        "<output>\n42\n</output>\n",
        "- <output>42</output>\n",
        "> <output>42</output>\n",
        "<progress value=\"70\" max=\"100\">70%</progress>\n",
        "> <progress value=\"70\">70%</progress>\n",
        "<meter value=\"0.6\">60%</meter>\n",
    ] {
        let tree = import(source);
        let block = first_kind(&tree.blocks, |k| {
            matches!(k, BlockKind::Opaque { .. } | BlockKind::Paragraph)
        })
        .expect("output/progress/meter html");
        let hidden = if matches!(block.kind, BlockKind::Opaque { .. }) {
            html_block_layout_or_source(source, block, &RevealState::hidden())
        } else {
            leaf_layout(
                block,
                source,
                &RevealState::hidden(),
                &ChromeHosts::none(),
            )
        };
        assert!(
            !hidden.text.contains("<output")
                && !hidden.text.contains("<progress")
                && !hidden.text.contains("<meter")
                && !hidden.text.contains("42")
                && !hidden.text.contains("70%")
                && !hidden.text.contains("60%"),
            "caret outside must hide output/progress/meter source, {source:?} got {:?}",
            hidden.text
        );
        let inner = source
            .find("42")
            .or_else(|| source.find("70%"))
            .or_else(|| source.find("60%"))
            .or_else(|| source.find("value="))
            .unwrap_or(block.source_range.start);
        let revealed = if matches!(block.kind, BlockKind::Opaque { .. }) {
            html_block_layout_or_source(
                source,
                block,
                &RevealState {
                    caret: inner,
                    selection: 0..0,
                },
            )
        } else {
            leaf_layout(
                block,
                source,
                &RevealState {
                    caret: inner,
                    selection: 0..0,
                },
                &ChromeHosts::none(),
            )
        };
        assert!(
            revealed.text.contains("<output")
                || revealed.text.contains("<progress")
                || revealed.text.contains("<meter"),
            "caret in output/progress/meter must reveal source, not a live UI, {source:?} got {:?}",
            revealed.text
        );
        let vis = revealed.text.find('<').expect("painted <");
        assert_eq!(
            source
                .as_bytes()
                .get(revealed.source_for_visible(vis))
                .copied(),
            Some(b'<'),
            "click on revealed output/progress/meter source maps onto the tag, {source:?}"
        );
    }

    let mixed = "hello <output>42</output>\n";
    let tree = import(mixed);
    let block = first_kind(&tree.blocks, |k| matches!(k, BlockKind::Paragraph))
        .expect("mixed paragraph");
    let hidden = leaf_layout(
        block,
        mixed,
        &RevealState::hidden(),
        &ChromeHosts::none(),
    );
    assert!(
        hidden.text.contains("hello")
            && !hidden.text.contains("42")
            && !hidden.text.contains("<output"),
        "mixed paragraph must paint hello and hide the output widget, got {:?}",
        hidden.text
    );
    let inner = mixed.find("42").expect("42");
    let revealed = leaf_layout(
        block,
        mixed,
        &RevealState {
            caret: inner,
            selection: 0..0,
        },
        &ChromeHosts::none(),
    );
    assert!(
        revealed.text.contains("hello") && revealed.text.contains("<output"),
        "caret in the output must reveal source beside hello, got {:?}",
        revealed.text
    );
}

#[test]
fn html_block_style_and_textarea_reveal_when_caret_intersects() {
    for source in [
        "<style>body { color: red }</style>\n",
        "<style>body > p { color: red }</style>\n",
        "<textarea>hello</textarea>\n",
        "<textarea>a > b</textarea>\n",
        "> <style>body { color: red }</style>\n",
        "- <textarea>hello</textarea>\n",
    ] {
        let tree = import(source);
        let block = first_kind(&tree.blocks, |k| matches!(k, BlockKind::Opaque { .. }))
            .expect("type-1 html");
        let hidden =
            html_block_layout_or_source(source, block, &RevealState::hidden());
        assert!(
            !hidden.text.contains("body")
                && !hidden.text.contains("hello")
                && !hidden.text.contains("<style")
                && !hidden.text.contains("<textarea"),
            "caret outside must hide Type-1 style/textarea, {source:?} got {:?}",
            hidden.text
        );
        let inner = source
            .find("body")
            .or_else(|| source.find("hello"))
            .or_else(|| source.find("a > b"))
            .expect("inner");
        let revealed = html_block_layout_or_source(
            source,
            block,
            &RevealState {
                caret: inner,
                selection: 0..0,
            },
        );
        let open = if source.contains("<style") {
            "<style"
        } else {
            "<textarea"
        };
        assert!(
            revealed.text.contains(open)
                && (revealed.text.contains("body")
                    || revealed.text.contains("hello")
                    || revealed.text.contains("a > b")),
            "caret in Type-1 style/textarea must reveal source, {source:?} got {:?}",
            revealed.text
        );
        let vis = revealed.text.find('<').expect("painted <");
        assert_eq!(
            source
                .as_bytes()
                .get(revealed.source_for_visible(vis))
                .copied(),
            Some(b'<'),
            "click on revealed Type-1 source maps onto the tag, {source:?}"
        );
    }
}

#[test]
fn html_pre_does_not_parse_inner_markdown() {
    for raw in ["<pre>**bold**</pre>", "<pre>\n**bold**\n</pre>"] {
        let layout = html_block_layout(raw);
        assert!(
            layout.text.contains("**"),
            "<pre> must paint literal asterisks, {raw:?} got {:?}",
            layout.text
        );
        assert!(
            !layout
                .runs
                .iter()
                .any(|run| run.style.weight == RunWeight::Bold),
            "<pre> must not interpret inner Markdown as rich text, {raw:?} runs={:?}",
            layout.runs
        );
    }

    let quoted = "> <pre>**x**</pre>\n";
    let layout = html_block_layout_from_source(quoted);
    assert!(
        layout.text.contains("**") || layout.text.contains('x'),
        "quoted <pre> must paint, got {:?}",
        layout.text
    );
    if layout.text.contains('x') {
        assert!(
            layout.text.contains("**")
                || !layout
                    .runs
                    .iter()
                    .any(|run| run.style.weight == RunWeight::Bold),
            "quoted <pre> must not parse Markdown, got {:?} runs={:?}",
            layout.text,
            layout.runs
        );
    }
}

#[test]
fn inline_html_style_color_paints() {
    let layout = layout_for("hello <span style=\"color: #ff0000\">red</span> world\n");
    assert_eq!(layout.text, "hello red world");
    assert!(
        !layout.text.contains('<'),
        "style tags must not paint, got {:?}",
        layout.text
    );
    assert!(
        layout.runs.iter().any(|run| is_colored(run)),
        "expected style= color on inner text, runs={:?}",
        layout.runs
    );
}

#[test]
fn inline_svg_layout_omits_tag_bytes() {
    let layout = layout_for(
        "hello <svg xmlns=\"http://www.w3.org/2000/svg\" width=\"8\" height=\"8\"><rect width=\"8\" height=\"8\" fill=\"#f00\"/></svg> world\n",
    );
    assert!(
        layout.text.contains("hello") && layout.text.contains("world"),
        "{:?}",
        layout.text
    );
    assert!(
        !layout.text.contains("<svg") && !layout.text.contains("fill="),
        "svg source must not paint as text, got {:?}",
        layout.text
    );
}

#[test]
fn html_block_style_color_paints() {
    let layout = html_block_layout("<p style=\"color: #0000ff; font-weight: bold\">blue</p>");
    assert!(layout.text.contains("blue"), "{:?}", layout.text);
    assert!(
        !layout.text.contains("<p"),
        "html tags must not paint, got {:?}",
        layout.text
    );
    assert!(
        layout
            .runs
            .iter()
            .any(|run| run.style.weight == RunWeight::Bold),
        "expected style font-weight bold, runs={:?}",
        layout.runs
    );
    assert!(
        layout.runs.iter().any(|run| is_colored(run)),
        "expected style= color on HTML-block text, runs={:?}",
        layout.runs
    );
}

/// GFM GOAL: with the caret outside, WYSIWYG leaf text is the rendered
/// body, not source chrome (`#`, `- `, `[]()`, `|`, `[x]`, fences, `>`).
/// Intersect-reveal of wrap marks, ATX hashes, setext underlines,
/// link/image chrome, list/quote prefixes, fence ticks, and table `|` is
/// covered separately.
#[test]
fn gfm_wysiwyg_hides_source_chrome() {
    let atx = layout_for("# Title\n");
    assert_eq!(atx.text, "Title", "ATX heading painted {:?}", atx.text);
    assert!(
        !atx.text.contains('#'),
        "ATX hashes must not paint, got {:?}",
        atx.text
    );
    let h2 = layout_for("## Sub\n");
    assert_eq!(h2.text, "Sub");
    assert!(!h2.text.contains('#'));
    let closed = layout_for("# Title #\n");
    assert_eq!(closed.text, "Title");
    assert!(!closed.text.contains('#'));
    let closed_src = "# Title #\n";
    let end = closed.source_for_visible(closed.text.len());
    assert_ne!(
        closed_src.as_bytes().get(end).copied(),
        Some(b'#'),
        "click/IME at the end of a closed ATX title must not land on `#`, source_at={:?} end={end}",
        closed.source_at
    );
    let setext = layout_for("Title\n=====\n");
    assert_eq!(setext.text, "Title");
    assert!(!setext.text.contains('='));

    let italic = layout_for("*hi*\n");
    assert_eq!(italic.text, "hi");
    assert!(!italic.text.contains('*'));
    assert!(italic
        .runs
        .iter()
        .any(|run| run.style.italic));
    let code = layout_for("`x`\n");
    assert_eq!(code.text, "x");
    assert!(!code.text.contains('`'));

    let link = layout_for("[label](https://e.com)\n");
    assert_eq!(link.text, "label");
    assert!(
        !link.text.contains('[') && !link.text.contains(']') && !link.text.contains('('),
        "link chrome must not paint, got {:?}",
        link.text
    );
    assert!(
        link.runs
            .iter()
            .any(|run| is_underlined(run) && is_colored(run)),
        "expected link paint, runs={:?}",
        link.runs
    );

    let list_tree = import("- item\n");
    let list_para = first_paragraph(&list_tree.blocks[0]).expect("list paragraph");
    let list = layout_of(list_para);
    assert_eq!(list.text, "item");
    assert!(
        !list.text.contains('-'),
        "list marker must not paint in the body, got {:?}",
        list.text
    );

    let task_tree = import("- [x] done\n");
    let task_para = first_paragraph(&task_tree.blocks[0]).expect("task paragraph");
    let task = layout_of(task_para);
    assert_eq!(task.text, "done");
    assert!(
        !task.text.contains('[') && !task.text.contains(']'),
        "task checkbox syntax must not paint, got {:?}",
        task.text
    );

    let table_tree = import("| a | b |\n|---|---|\n| 1 | 2 |\n");
    let cell = first_kind(&table_tree.blocks, |k| matches!(k, BlockKind::TableCell))
        .expect("table cell");
    let cell_layout = layout_of(cell);
    assert_eq!(cell_layout.text, "a");
    assert!(
        !cell_layout.text.contains('|') && !cell_layout.text.contains('-'),
        "table pipes must not paint, got {:?}",
        cell_layout.text
    );

    let compact_tree = import("foo|bar\n---|---\nbaz|bim\n");
    let compact_cell = first_kind(&compact_tree.blocks, |k| matches!(k, BlockKind::TableCell))
        .expect("compact cell");
    let compact_layout = layout_of(compact_cell);
    assert_eq!(compact_layout.text, "foo");
    assert!(
        !compact_layout.text.contains('|') && !compact_layout.text.contains('-'),
        "compact GFM table pipes must not paint, got {:?}",
        compact_layout.text
    );

    let fence_tree = import("```rust\nfn main() {}\n```\n");
    match &fence_tree.blocks[0].kind {
        BlockKind::CodeBlock { info, literal, .. } => {
            assert_eq!(info, "rust");
            assert_eq!(
                literal.strip_suffix('\n').unwrap_or(literal),
                "fn main() {}"
            );
            assert!(
                !literal.contains('`'),
                "fence ticks must not be in the body literal, got {literal:?}"
            );
        }
        other => panic!("expected code block, got {other:?}"),
    }
    let fence_layout = layout_of(&fence_tree.blocks[0]);
    assert_eq!(fence_layout.text, "fn main() {}");
    assert!(!fence_layout.text.contains('`'));

    let quote_tree = import("> quoted\n");
    let quote_para = first_paragraph(&quote_tree.blocks[0]).expect("quote paragraph");
    let quote = layout_of(quote_para);
    assert_eq!(quote.text, "quoted");
    assert!(
        !quote.text.contains('>'),
        "blockquote marker must not paint, got {:?}",
        quote.text
    );

    let fm_tree = import("---\ntitle: X\n---\n\n# Hi\n");
    assert!(
        fm_tree.frontmatter,
        "frontmatter must not be a body block"
    );
    assert!(matches!(fm_tree.blocks[0].kind, BlockKind::Heading { .. }));
    let after_fm = layout_of(&fm_tree.blocks[0]);
    assert_eq!(after_fm.text, "Hi");
    assert!(!after_fm.text.contains("---"));
    assert!(!after_fm.text.contains('#'));
}

/// Click/IME on painted GFM inlines must land on the visible body, not
/// delimiter bytes (` `` `, `[`, `<`).
#[test]
fn gfm_inline_click_maps_past_chrome() {
    let code_src = "`x`\n";
    let code = layout_for(code_src);
    assert_eq!(code.text, "x");
    let mapped = code.source_for_visible(0);
    assert_eq!(
        code_src.as_bytes().get(mapped).copied(),
        Some(b'x'),
        "click on painted inline code must be `x`, not a backtick, got {mapped} {:?}",
        code_src.get(mapped..mapped.saturating_add(1))
    );
    assert_ne!(
        mapped,
        code_src.find('`').expect("tick"),
        "click must not land on the opening backtick"
    );

    let link_src = "[label](https://e.com)\n";
    let link = layout_for(link_src);
    assert_eq!(link.text, "label");
    let mapped = link.source_for_visible(0);
    assert_eq!(
        link_src.as_bytes().get(mapped).copied(),
        Some(b'l'),
        "click on painted link text must be `l`, not `[`, got {mapped} {:?}",
        link_src.get(mapped..mapped.saturating_add(1))
    );

    let auto_src = "<https://example.com>\n";
    let auto = layout_for(auto_src);
    assert!(auto.text.contains("https://example.com"));
    assert!(
        !auto.text.contains('<') && !auto.text.contains('>'),
        "autolink `<>` must not paint, got {:?}",
        auto.text
    );
    let mapped = auto.source_for_visible(0);
    assert_ne!(
        auto_src.as_bytes().get(mapped).copied(),
        Some(b'<'),
        "click on painted autolink must not land on `<`, got {mapped}"
    );
    assert_eq!(
        auto_src.as_bytes().get(mapped).copied(),
        Some(b'h'),
        "click on painted autolink must be `h` of https, got {mapped} {:?}",
        auto_src.get(mapped..mapped.saturating_add(1))
    );

    let email_src = "<user@example.com>\n";
    let email = layout_for(email_src);
    assert!(
        email.text.contains("user@example.com"),
        "email autolink visible text, got {:?}",
        email.text
    );
    assert!(
        !email.text.contains('<') && !email.text.contains('>'),
        "email autolink `<>` must not paint, got {:?}",
        email.text
    );
    let mapped = email.source_for_visible(0);
    assert_ne!(
        email_src.as_bytes().get(mapped).copied(),
        Some(b'<'),
        "click on painted email autolink must not land on `<`, got {mapped}"
    );
    assert_eq!(
        email_src.as_bytes().get(mapped).copied(),
        Some(b'u'),
        "click on painted email autolink must be `u` of user, got {mapped} {:?}",
        email_src.get(mapped..mapped.saturating_add(1))
    );

    let ref_src = "[label][ref]\n\n[ref]: https://e.com\n";
    let ref_link = layout_for(ref_src);
    assert_eq!(
        ref_link.text, "label",
        "reference link must paint the label, not `[ref]`, got {:?}",
        ref_link.text
    );
    assert!(
        !ref_link.text.contains('[') && !ref_link.text.contains(']'),
        "reference chrome must not paint, got {:?}",
        ref_link.text
    );
    let mapped = ref_link.source_for_visible(0);
    assert_eq!(
        ref_src.as_bytes().get(mapped).copied(),
        Some(b'l'),
        "click on a reference link must be `l`, got {mapped} {:?}",
        ref_src.get(mapped..mapped.saturating_add(1))
    );

    let def_tree = import(ref_src);
    let def = def_tree
        .blocks
        .iter()
        .find(|b| b.facts.def_chrome.is_some())
        .expect("definition block");
    let hidden = layout_of_source(def, ref_src, &RevealState::hidden());
    assert!(
        hidden.text.contains("ref") && hidden.text.contains("https://e.com"),
        "definition must paint label and dest, got {:?}",
        hidden.text
    );
    assert!(
        !hidden.text.contains('[') && !hidden.text.contains(']'),
        "definition `[` `]` must hide until intersect, got {:?}",
        hidden.text
    );
    assert!(
        hidden.text.contains(':'),
        "definition colon stays visible, got {:?}",
        hidden.text
    );
    let vis = hidden.text.find("ref").expect("painted label");
    let mapped = hidden.source_for_visible(vis);
    assert_eq!(
        ref_src.as_bytes().get(mapped).copied(),
        Some(b'r'),
        "click on painted definition label must be `r`, got {mapped}"
    );
    let dest_vis = hidden.text.find("https://e.com").expect("painted dest");
    let mapped_dest = hidden.source_for_visible(dest_vis);
    assert_eq!(
        ref_src.as_bytes().get(mapped_dest).copied(),
        Some(b'h'),
        "click on painted dest must be `h`, got {mapped_dest}"
    );
    let dest_byte = ref_src.find("https://e.com").expect("dest");
    let colon_vis = hidden.text.find(':').expect("painted colon");
    let mapped_colon = hidden.source_for_visible(colon_vis);
    assert_eq!(
        ref_src.as_bytes().get(mapped_colon).copied(),
        Some(b':'),
        "painted colon maps onto `:`; caret skip onto dest is engine dest chrome"
    );
    let revealed = layout_for_caret(ref_src, dest_byte);
    assert!(
        revealed.text.contains("[ref]: https://e.com"),
        "caret in dest must reveal `[ref]:`, got {:?}",
        revealed.text
    );

    for (src, label) in [
        ("[foo][]\n\n[foo]: https://e.com\n", "foo"),
        ("[foo]\n\n[foo]: https://e.com\n", "foo"),
    ] {
        let layout = layout_for(src);
        assert_eq!(
            layout.text, label,
            "collapsed/shortcut ref must paint the label, got {:?}",
            layout.text
        );
        assert!(
            !layout.text.contains('[') && !layout.text.contains(']'),
            "collapsed/shortcut dest chrome must not paint, got {:?}",
            layout.text
        );
        let mapped = layout.source_for_visible(0);
        assert_eq!(
            src.as_bytes().get(mapped).copied(),
            Some(b'f'),
            "click on {src:?} must be `f`, got {mapped}"
        );
    }

    let setext_src = "Title\n=====\n";
    let setext = layout_for(setext_src);
    assert_eq!(setext.text, "Title");
    let mapped = setext.source_for_visible(0);
    assert_eq!(
        setext_src.as_bytes().get(mapped).copied(),
        Some(b'T'),
        "setext click must be `T`, got {mapped}"
    );
    let end = setext.source_for_visible(setext.text.len());
    assert_ne!(
        setext_src.as_bytes().get(end).copied(),
        Some(b'='),
        "click/IME at the end of a setext title must not land on `=`, source_at={:?} end={end}",
        setext.source_at
    );

    let math_src = "see $x^2$ here\n";
    let math = layout_for(math_src);
    assert_eq!(math.text, "see x^2 here");
    let vis_x = math.text.find('x').expect("painted x");
    let mapped = math.source_for_visible(vis_x);
    assert_eq!(
        math_src.as_bytes().get(mapped).copied(),
        Some(b'x'),
        "click on painted math must be `x`, not `$`, got {mapped} {:?}",
        math_src.get(mapped..mapped.saturating_add(1))
    );
    assert_ne!(
        mapped,
        math_src.find('$').expect("$"),
        "click must not land on the opening `$`"
    );

    let display_src = "see $$x^2$$ here\n";
    let display = layout_for(display_src);
    let vis_dx = display.text.find('x').expect("painted x");
    assert_eq!(
        display_src
            .as_bytes()
            .get(display.source_for_visible(vis_dx))
            .copied(),
        Some(b'x'),
        "click on display math must be `x`, not `$`"
    );

    let wiki_src = "see [[page]] here\n";
    let wiki = layout_for(wiki_src);
    assert_eq!(wiki.text, "see page here");
    let vis_p = wiki.text.find('p').expect("painted p");
    let mapped = wiki.source_for_visible(vis_p);
    assert_eq!(
        wiki_src.as_bytes().get(mapped).copied(),
        Some(b'p'),
        "click on painted wiki must be `p`, not `[`, got {mapped}"
    );
    assert_ne!(mapped, wiki_src.find('[').expect("["));

    let piped_src = "go [[page|Label]]\n";
    let piped = layout_for(piped_src);
    assert_eq!(piped.text, "go Label");
    let vis_l = piped.text.find('L').expect("painted L");
    assert_eq!(
        piped_src
            .as_bytes()
            .get(piped.source_for_visible(vis_l))
            .copied(),
        Some(b'L'),
        "click on a piped wiki must be `L`, not `[`"
    );

    let emoji_src = "see :smile: here\n";
    let emoji = layout_for(emoji_src);
    assert_eq!(emoji.text, "see 😄 here");
    let vis_g = emoji.text.find('😄').expect("glyph");
    let mapped = emoji.source_for_visible(vis_g);
    assert_ne!(
        emoji_src.as_bytes().get(mapped).copied(),
        Some(b':'),
        "click on painted emoji must not land on `:`, got {mapped}"
    );
    assert_eq!(
        emoji_src.as_bytes().get(mapped).copied(),
        Some(b's'),
        "click on painted emoji must map onto `smile`, got {mapped} {:?}",
        emoji_src.get(mapped..mapped.saturating_add(1))
    );
}

#[test]
fn blank_gap_layout_hosts_caret_before_heading() {
    let source = "\n\n# Title";
    let tree = import(source);
    let gap = blank_caret_gap_before(&tree, 0).expect("leading blank above heading");
    let layout = build_blank_gap_layout(gap);
    assert!(
        layout.contains_source(0),
        "caret on inserted newlines must paint on the blank, source_at={:?}",
        layout.source_at
    );
    let title = source.find("Title").expect("Title");
    assert!(
        !layout.contains_source(title),
        "blank layout must not claim `# Title`"
    );
    let heading = layout_of(&tree.blocks[0]);
    assert_eq!(heading.text, "Title");
    assert!(
        !heading.contains_source(0),
        "heading leaf must not steal the blank caret"
    );
    assert!(heading.contains_source(title));
}

#[test]
fn blank_gap_layout_hosts_caret_between_paragraph_and_heading() {
    let source = "hello\n\n# Title";
    let tree = import(source);
    let gap = blank_caret_gap_before(&tree, 1).expect("standard separator before heading");
    let layout = build_blank_gap_layout(gap.clone());
    assert!(
        layout.contains_source(gap.start),
        "click on the separator must map onto the gap, source_at={:?} gap={gap:?}",
        layout.source_at
    );
    let title = source.find("Title").expect("Title");
    assert!(
        !layout.contains_source(title),
        "separator layout must not claim `# Title`"
    );
    let heading = layout_of(&tree.blocks[1]);
    assert_eq!(heading.text, "Title");
    assert!(
        !heading.contains_source(gap.start),
        "heading leaf must not steal the separator caret"
    );
    assert!(heading.contains_source(title));
    assert!(
        blank_caret_gap_before(&tree, 0).is_none(),
        "must not paint a leading blank when the document starts with a paragraph"
    );
}

#[test]
fn blank_gap_layout_hosts_caret_after_last_block() {
    let source = "hello\n\n";
    let tree = import(source);
    let gap = blank_caret_gap_after_last(&tree).expect("trailing blank after last block");
    let layout = build_blank_gap_layout(gap.clone());
    assert!(
        layout.contains_source(gap.start),
        "click below the last block must map onto the trailing gap, source_at={:?} gap={gap:?}",
        layout.source_at
    );
    let hello = source.find("hello").expect("hello");
    assert!(
        !layout.contains_source(hello),
        "trailing layout must not claim the last paragraph"
    );
    let para = layout_of(&tree.blocks[0]);
    assert_eq!(para.text, "hello");
    assert!(
        !para.contains_source(gap.start),
        "last paragraph must not steal the trailing caret"
    );
    assert!(para.contains_source(hello));
}

#[test]
fn blank_gap_layout_hosts_caret_on_newlines_only_document() {
    for source in ["", "\n", "\n\n"] {
        let tree = import(source);
        assert!(
            tree.blocks.is_empty(),
            "newlines-only has no blocks, {source:?}"
        );
        let gap = blank_caret_gap_after_last(&tree)
            .expect("newlines-only document must paint a caret home");
        let layout = build_blank_gap_layout(gap.clone());
        assert!(
            layout.contains_source(0),
            "empty/newlines document must host a caret at 0, source_at={:?} {source:?}",
            layout.source_at
        );
        assert!(
            layout.contains_source(gap.start),
            "layout must cover the gap start, {source:?}"
        );
    }
}

#[test]
fn blank_gap_layout_does_not_invent_trailing_without_blank() {
    for source in ["hello", "hello\n", "# Title"] {
        let tree = import(source);
        assert!(
            blank_caret_gap_after_last(&tree).is_none(),
            "must not invent a trailing blank, {source:?}"
        );
    }
}

#[test]
fn character_reference_paints_decoded_glyph_not_entity_bytes() {
    let cases = [
        ("A&amp;B\n", "&amp;", "&", 'A'),
        ("A&amp;\n", "&amp;", "&", 'A'),
        ("A&lt;B\n", "&lt;", "<", 'A'),
        ("A&gt;B\n", "&gt;", ">", 'A'),
        ("A&quot;B\n", "&quot;", "\"", 'A'),
        ("A&#39;B\n", "&#39;", "'", 'A'),
        ("A&#123;B\n", "&#123;", "{", 'A'),
        ("A&#x7B;B\n", "&#x7B;", "{", 'A'),
    ];
    for (source, literal, decoded, prev) in cases {
        let layout = layout_for(source);
        assert!(
            layout.text.contains(decoded) && layout.text.contains(prev),
            "must paint the decoded glyph, {source:?} got {:?}",
            layout.text
        );
        assert!(
            !layout.text.contains(literal),
            "entity dest chrome must hide until intersect, {source:?} got {:?}",
            layout.text
        );
        let vis = layout.text.find(decoded).expect("painted glyph");
        let mapped = layout.source_for_visible(vis);
        assert_eq!(
            source.as_bytes().get(mapped).copied(),
            Some(b'&'),
            "click on painted {decoded:?} must be `&` of {literal}, {source:?} got {mapped} {:?}",
            source.get(mapped..mapped.saturating_add(1))
        );
        assert_ne!(
            source.as_bytes().get(mapped).copied(),
            Some(b'a'),
            "click must not nibble hidden entity bytes, {source:?}"
        );
    }

    let quote_tree = import("> A&amp;B\n");
    let quote = first_paragraph(&quote_tree.blocks[0]).expect("quote");
    let quote_layout = layout_of_source(quote, "> A&amp;B\n", &RevealState::hidden());
    assert_eq!(quote_layout.text, "A&B");
    let mapped = quote_layout.source_for_visible(quote_layout.text.find('&').unwrap());
    assert_eq!("> A&amp;B\n".as_bytes().get(mapped).copied(), Some(b'&'));

    let list_tree = import("- A&amp;B\n");
    let list = first_paragraph(&list_tree.blocks[0]).expect("list");
    let list_layout = layout_of_source(list, "- A&amp;B\n", &RevealState::hidden());
    assert_eq!(list_layout.text, "A&B");

    let table_src = "| A&amp;B | x |\n| --- | --- |\n";
    let table_tree = import(table_src);
    let cell =
        first_kind(&table_tree.blocks, |k| matches!(k, BlockKind::TableCell)).expect("cell");
    let cell_layout = layout_of_source(cell, table_src, &RevealState::hidden());
    assert!(
        cell_layout.text.contains('A') && cell_layout.text.contains('&'),
        "table cell must paint decoded entity, got {:?}",
        cell_layout.text
    );
    assert!(
        !cell_layout.text.contains("&amp;"),
        "table cell must hide `&amp;`, got {:?}",
        cell_layout.text
    );

    let link_src = "[A&amp;B](https://e.com)\n";
    let link = layout_for(link_src);
    assert_eq!(link.text, "A&B");
    let mapped = link.source_for_visible(link.text.find('&').unwrap());
    assert_eq!(
        link_src.as_bytes().get(mapped).copied(),
        Some(b'&'),
        "click on a link-label entity must be `&`"
    );

    let code_src = "`A&amp;B`\n";
    let code = layout_for(code_src);
    assert!(
        code.text.contains("A&amp;B"),
        "code spans must paint the entity literal, got {:?}",
        code.text
    );
    let vis_a = code.text.find("&amp;").expect("literal");
    let mapped = code.source_for_visible(vis_a + 1);
    assert_eq!(
        code_src.as_bytes().get(mapped).copied(),
        Some(b'a'),
        "click in a code span must walk `amp` bytes, got {mapped}"
    );

    let src = "A&amp;B\n";
    let entity = src.find("&amp;").unwrap();
    let revealed = layout_for_caret(src, entity);
    assert!(
        revealed.text.contains("&amp;"),
        "intersect-reveal may show `&amp;`, got {:?}",
        revealed.text
    );
}

#[test]
fn backslash_escape_paints_decoded_glyph_not_slash() {
    let source = "A\\*B\n";
    let layout = layout_for(source);
    assert!(
        layout.text.contains('*') && layout.text.contains('A'),
        "must paint the escaped glyph, got {:?}",
        layout.text
    );
    assert!(
        !layout.text.contains('\\'),
        "backslash dest chrome must hide until intersect, got {:?}",
        layout.text
    );
    let vis = layout.text.find('*').expect("painted *");
    let mapped = layout.source_for_visible(vis);
    assert_eq!(
        source.as_bytes().get(mapped).copied(),
        Some(b'\\'),
        "click on painted `*` must be `\\` of `\\*`, got {mapped} {:?}",
        source.get(mapped..mapped.saturating_add(1))
    );

    let slash = source.find('\\').unwrap();
    let revealed = layout_for_caret(source, slash);
    assert!(
        revealed.text.contains('\\') && revealed.text.contains('*'),
        "intersect-reveal must show `\\*`, got {:?}",
        revealed.text
    );

    let code = "`A\\*B`\n";
    let code_layout = layout_for(code);
    assert!(
        code_layout.text.contains("A\\*B"),
        "code spans must paint the backslash literal, got {:?}",
        code_layout.text
    );
    let vis_slash = code_layout.text.find('\\').expect("literal slash");
    let mapped = code_layout.source_for_visible(vis_slash);
    assert_eq!(
        code.as_bytes().get(mapped).copied(),
        Some(b'\\'),
        "click in a code span must walk the backslash, got {mapped}"
    );

    let quote_tree = import("> A\\*B\n");
    let quote = first_paragraph(&quote_tree.blocks[0]).expect("quote");
    let quote_layout = layout_of_source(quote, "> A\\*B\n", &RevealState::hidden());
    assert_eq!(quote_layout.text, "A*B");
    let mapped = quote_layout.source_for_visible(quote_layout.text.find('*').unwrap());
    assert_eq!("> A\\*B\n".as_bytes().get(mapped).copied(), Some(b'\\'));
}

#[test]
fn quoted_fence_ime_character_index_skips_quote_prefix() {
    let source = "> ```\n> code\n> ```\n";
    let bounds = rect(8.0, 10.0, 200.0, 22.0);
    let leaf = mapped_fence_leaf(source, bounds);
    let c = source.find("code").expect("code");
    let gt = source.find('>').expect(">");
    assert_eq!(
        leaf.layout.source_for_visible(0),
        c,
        "character_index_for_point vis 0 must be the first painted body byte"
    );
    assert_ne!(
        leaf.layout.source_for_visible(0),
        gt,
        "click x on painted `code` must not equal the `>` byte"
    );
    assert_eq!(leaf.layout.visible_for_source(c), 0);

    let ime = body_frame(c, vec![leaf]);
    let focused = ime.focused_leaf().expect("code leaf owns the caret");
    assert_eq!(focused.layout.source_for_visible(0), c);
    assert_eq!(
        ime.leaf_at_point(point(px(20.0), px(14.0)))
            .expect("hit")
            .layout
            .source_for_visible(0),
        c,
        "IME origin hit-test uses the same prefix-skipping map"
    );
}

#[test]
fn list_nested_fence_ime_character_index_skips_indent() {
    let source = "- item\n  ```\n  code\n  ```\n";
    let bounds = rect(8.0, 40.0, 200.0, 22.0);
    let leaf = mapped_fence_leaf(source, bounds);
    let c = source.find("code").expect("code");
    let indent = source.find("  code").expect("indent");
    assert_eq!(leaf.layout.source_for_visible(0), c);
    assert_ne!(leaf.layout.source_for_visible(0), indent);
    let ime = body_frame(c, vec![leaf]);
    assert_eq!(
        ime.focused_leaf()
            .expect("leaf")
            .layout
            .visible_for_source(c),
        0
    );
}

#[test]
fn quoted_html_ime_character_index_skips_quote_prefix() {
    let source = "> <div>\n> x\n> </div>\n";
    let bounds = rect(8.0, 10.0, 200.0, 22.0);
    let leaf = mapped_html_leaf(source, bounds);
    let x = source.find('x').expect("x");
    let gt = source.find('>').expect(">");
    assert_ne!(
        leaf.layout.source_for_visible(0),
        gt,
        "character_index_for_point vis 0 must not be the `>` byte"
    );
    let vis = leaf.layout.visible_for_source(x);
    assert_eq!(leaf.layout.source_for_visible(vis), x);
    let ime = body_frame(x, vec![leaf]);
    let focused = ime.focused_leaf().expect("html leaf owns the caret");
    assert_eq!(focused.layout.source_for_visible(vis), x);
    assert_eq!(
        ime.leaf_at_point(point(px(20.0), px(14.0)))
            .expect("hit")
            .layout
            .source_for_visible(0),
        focused.layout.source_for_visible(0),
        "IME origin hit-test uses the same prefix-skipping HTML map"
    );
}

#[test]
fn quoted_paragraph_ime_character_index_skips_quote_prefix() {
    let source = "> hello\n";
    let bounds = rect(8.0, 10.0, 200.0, 22.0);
    let leaf = mapped_para_leaf(source, bounds);
    let h = source.find('h').expect("h");
    let gt = source.find('>').expect(">");
    assert_eq!(
        leaf.layout.source_for_visible(0),
        h,
        "character_index_for_point vis 0 must be `h`"
    );
    assert_ne!(leaf.layout.source_for_visible(0), gt);
    let ime = body_frame(h, vec![leaf]);
    assert_eq!(
        ime.focused_leaf()
            .expect("leaf")
            .layout
            .source_for_visible(0),
        h
    );
}

#[test]
fn list_item_ime_character_index_skips_marker() {
    let source = "- hello\n";
    let bounds = rect(8.0, 10.0, 200.0, 22.0);
    let leaf = mapped_para_leaf(source, bounds);
    let h = source.find('h').expect("h");
    let dash = source.find('-').expect("-");
    assert_eq!(leaf.layout.source_for_visible(0), h);
    assert_ne!(leaf.layout.source_for_visible(0), dash);
    let ime = body_frame(h, vec![leaf]);
    assert_eq!(
        ime.leaf_at_point(point(px(20.0), px(14.0)))
            .expect("hit")
            .layout
            .source_for_visible(0),
        h,
        "IME origin hit-test uses the same prefix-skipping map"
    );
}

#[test]
fn nested_quote_ime_character_index_skips_inner_marker() {
    let source = "> > hello\n";
    let bounds = rect(8.0, 10.0, 200.0, 22.0);
    let leaf = mapped_para_leaf(source, bounds);
    let h = source.find('h').expect("h");
    assert_eq!(leaf.layout.source_for_visible(0), h);
    assert_ne!(&source[leaf.layout.source_for_visible(0)..][..1], ">");
}

#[test]
fn ordered_list_ime_character_index_skips_marker() {
    let source = "1. hello\n";
    let bounds = rect(8.0, 10.0, 200.0, 22.0);
    let leaf = mapped_para_leaf(source, bounds);
    let h = source.find('h').expect("h");
    assert_eq!(leaf.layout.source_for_visible(0), h);
    assert_ne!(&source[leaf.layout.source_for_visible(0)..][..1], "1");
}

#[test]
fn unchecked_task_ime_character_index_skips_checkbox() {
    let source = "- [ ] hello\n";
    let bounds = rect(8.0, 10.0, 200.0, 22.0);
    let leaf = mapped_para_leaf(source, bounds);
    let h = source.find('h').expect("h");
    assert_eq!(leaf.layout.source_for_visible(0), h);
}

#[test]
fn carets_elsewhere_paint_alike() {
    let source = "one\n\n**b** and [c](d) $x$ <u>e</u>\n\ntwo\n";
    let tree = import(source);
    let before = RevealState { caret: 1, selection: 0..3 };
    let behind = RevealState { caret: source.find("two").expect("two"), selection: 0..0 };
    let first = layout_in_tree(&tree, &tree.blocks[1], source, &before);
    let second = layout_in_tree(&tree, &tree.blocks[1], source, &behind);
    assert_eq!(first.text, "b and c x e");
    assert_eq!(first.text, second.text);
    assert_eq!(first.source_at, second.source_at);
    assert_eq!(
        first.text,
        layout_in_tree(&tree, &tree.blocks[1], source, &RevealState::hidden()).text
    );
}

#[test]
fn each_revealed_delimiter_is_painted_once() {
    let source = "a **b *c* d** e [f](g)\n";
    let tree = import(source);
    let all = RevealState { caret: 0, selection: 0..source.len() - 1 };
    let layout = layout_in_tree(&tree, &tree.blocks[0], source, &all);
    assert_eq!(layout.text, source.trim_end());
    let outer = RevealState { caret: source.find('d').expect("d"), selection: 0..0 };
    assert_eq!(layout_in_tree(&tree, &tree.blocks[0], source, &outer).text, "a **b c d** e f");
}

#[test]
fn carets_away_from_a_block_leave_it_as_without_a_caret() {
    let source = "intro\n\n# A *b* `c`\n\n> q **bold** [l](u)\n> more\n\n---\n\nlast\n";
    let tree = import(source);
    let mut seen = 0;
    let mut rest: Vec<&Node> = tree.blocks.iter().collect();
    while let Some(block) = rest.pop() {
        rest.extend(block.children.iter());
        if block.inlines.is_empty() && !matches!(block.kind, BlockKind::ThematicBreak) {
            continue;
        }
        let hosts = chrome_hosts_for(&tree, block.id);
        let hidden = leaf_layout(block, source, &RevealState::hidden(), &hosts);
        for caret in 0..=source.len() {
            let state = RevealState { caret, selection: 0..0 };
            let met = [&hosts.quote, &hosts.list_item].into_iter().flatten();
            if state.intersects(&block.source_range) || met.into_iter().any(|r| state.intersects(r)) {
                continue;
            }
            assert_eq!(leaf_layout(block, source, &state, &hosts), hidden, "caret {caret}");
            seen += 1;
        }
    }
    assert!(seen > 100);
}
