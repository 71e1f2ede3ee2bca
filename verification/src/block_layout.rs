//! Layouts of whole blocks: headings and paragraphs, thematic breaks, code
//! bodies, blank gaps and table alignment rows.

use std::ops::Range;

use vstd::prelude::*;
use vstd::string::*;
use vstd::utf8::*;

use crate::ascii::{DASH, LF, PIPE};
use crate::bytes;
use crate::bytes::{greater, lesser, skip_backward, ByteClass};
use crate::caret;
use crate::caret::{ChromeHosts, RevealState};
use crate::chrome;
use crate::chrome::{
    append_range, apply_structural_chrome, paint_atx_chrome, paint_setext_chrome, prepend_range,
};
use crate::layout;
use crate::layout::{LeafLayout, LeafView, TextRun};
use crate::leaf;
use crate::leaf::{build_leaf_layout_inlines, LeafInput};
use crate::prefix;
use crate::style::{code_run, plain_run, RunStyle, TextStyle};
use crate::text;
use crate::text::{byte_len, dup, get, own};
use crate::tree::{Block, BlockFacts, BlockKind, HeadingStyle, LinePrefixParts};

verus! {

/// An empty layout that hosts the caret at `start`.
pub open spec fn empty_view(start: usize) -> LeafView {
    LeafView {
        text: Seq::empty(),
        runs: Seq::empty(),
        source_at: seq![start],
        block_start: start,
    }
}

/// An empty layout that hosts the caret at `start`.
pub fn empty_layout(start: usize) -> (layout: LeafLayout)
    ensures
        layout@ == empty_view(start),
{
    let text = String::new();
    assert(encode_utf8(text@) =~= Seq::<u8>::empty());
    let mut source_at: Vec<usize> = Vec::new();
    source_at.push(start);
    assert(source_at@ =~= seq![start]);
    LeafLayout { text, runs: Vec::new(), source_at, block_start: start }
}

/// The block paints as a horizontal rule.
pub open spec fn is_thematic_break(block: Block, facts: BlockFacts) -> bool {
    block.kind is ThematicBreak || (block.kind is Opaque && facts.html.is_rule)
}

/// Whether the block paints as a horizontal rule.
pub fn block_paints_as_thematic_break(block: &Block, facts: &BlockFacts) -> (yes: bool)
    ensures
        yes == is_thematic_break(*block, *facts),
{
    match &block.kind {
        BlockKind::ThematicBreak => true,
        BlockKind::Opaque { .. } => facts.html.is_rule,
        _ => false,
    }
}

/// Marker bytes of a thematic break (`---`, `***`, `<hr>`), without line end
/// and block prefix. A Markdown rule keeps every dash and star: they are no
/// list marker.
pub open spec fn break_marker(b: Seq<u8>, block: Block, parts: LinePrefixParts) -> Range<usize> {
    let start = bytes::least(block.source_range.start, b.len() as usize);
    let end = bytes::backward(
        b,
        bytes::least(block.source_range.end, b.len() as usize) as int,
        start as int,
        ByteClass::Newline,
    ) as usize;
    let prefix_end = if block.kind is Opaque {
        parts.list.end
    } else {
        parts.quote.end
    };
    (if start < prefix_end <= end {
        prefix_end
    } else {
        start
    })..end
}

/// Marker bytes of a thematic break.
pub fn thematic_break_marker_range(source: &str, block: &Block, parts: &LinePrefixParts) -> (range:
    Range<usize>)
    ensures
        range == break_marker(encode_utf8(source@), *block, *parts),
{
    let bytes = source.as_bytes();
    let start: usize = lesser(block.source_range.start, bytes.len());
    let end: usize = skip_backward(
        bytes,
        lesser(block.source_range.end, bytes.len()),
        start,
        ByteClass::Newline,
    );
    let prefix_end: usize = match &block.kind {
        BlockKind::Opaque { .. } => parts.list.end,
        _ => parts.quote.end,
    };
    if prefix_end > start && prefix_end <= end {
        prefix_end..end
    } else {
        start..end
    }
}

/// Layout of a thematic break: its marker when revealed, else nothing.
pub open spec fn break_view(
    block: Block,
    facts: BlockFacts,
    b: Seq<u8>,
    state: RevealState,
    hosts: ChromeHosts,
) -> LeafView {
    let marker = break_marker(b, block, facts.start_prefix);
    let shown = if state.meets(block.source_range) {
        chrome::with_back(empty_view(marker.start), b, Some(marker))
    } else {
        empty_view(marker.start)
    };
    chrome::with_structure(shown, b, block, facts, state, hosts)
}

/// Layout of a thematic break. It paints as a rule unless revealed.
pub fn build_thematic_break_layout(
    block: &Block,
    facts: &BlockFacts,
    source: &str,
    state: &RevealState,
    hosts: &ChromeHosts,
) -> (layout: LeafLayout)
    ensures
        layout@ == break_view(*block, *facts, encode_utf8(source@), *state, *hosts),
        layout@.mapped(),
{
    let marker = thematic_break_marker_range(source, block, &facts.start_prefix);
    let mut layout = empty_layout(marker.start);
    if state.intersects(&block.source_range) {
        append_range(&mut layout, source, &Some(marker));
    }
    apply_structural_chrome(&mut layout, block, facts, source, state, hosts);
    layout
}

/// A block, what is known about it, and everything that decides what it
/// paints.
pub struct BlockInput<'a> {
    pub block: &'a Block,
    pub facts: &'a BlockFacts,
    pub source: &'a str,
    pub style: TextStyle,
    pub state: &'a RevealState,
    pub hosts: &'a ChromeHosts,
}

impl<'a> BlockInput<'a> {
    /// There is one fact per inline.
    pub open spec fn ok(&self) -> bool {
        self.block.inlines@.len() == self.facts.inlines@.len()
    }

    /// The leaf that this block's inlines form.
    pub open spec fn as_leaf(&self) -> LeafInput<'a> {
        LeafInput {
            inlines: &self.block.inlines,
            facts: &self.facts.inlines,
            widgets: &self.facts.widgets,
            def_chrome: &self.facts.def_chrome,
            block_range: self.block.source_range,
            source: self.source,
            style: self.style,
            state: self.state,
            hosts: self.hosts,
        }
    }

    /// The leaf that this block's inlines form.
    pub fn leaf(&self) -> (leaf: LeafInput<'a>)
        ensures
            leaf == self.as_leaf(),
    {
        LeafInput {
            inlines: &self.block.inlines,
            facts: &self.facts.inlines,
            widgets: &self.facts.widgets,
            def_chrome: &self.facts.def_chrome,
            block_range: dup(&self.block.source_range),
            source: self.source,
            style: self.style,
            state: self.state,
            hosts: self.hosts,
        }
    }

    /// Layout of the block.
    pub open spec fn layout(&self) -> LeafView {
        let b = encode_utf8(self.source@);
        if is_thematic_break(*self.block, *self.facts) {
            break_view(*self.block, *self.facts, b, *self.state, *self.hosts)
        } else {
            let body = self.as_leaf().layout(0, self.block.inlines@.len() as usize);
            let headed = chrome::with_setext(
                chrome::with_atx(body, b, *self.block, *self.state),
                b,
                *self.block,
                *self.state,
            );
            chrome::with_structure(headed, b, *self.block, *self.facts, *self.state, *self.hosts)
        }
    }
}

/// Layout of a leaf block with all the chrome that the caret reveals.
pub fn build_leaf_layout_revealed(x: &BlockInput) -> (layout: LeafLayout)
    requires
        x.ok(),
    ensures
        layout@ == x.layout(),
        layout@.mapped(),
        !is_thematic_break(*x.block, *x.facts) ==> layout@.tiled(),
{
    if block_paints_as_thematic_break(x.block, x.facts) {
        return build_thematic_break_layout(x.block, x.facts, x.source, x.state, x.hosts);
    }
    let leaf = x.leaf();
    let mut layout = build_leaf_layout_inlines(&leaf, 0, x.block.inlines.len());
    paint_atx_chrome(x.block, x.source, x.state, &mut layout);
    paint_setext_chrome(x.block, x.source, x.state, &mut layout);
    apply_structural_chrome(&mut layout, x.block, x.facts, x.source, x.state, x.hosts);
    layout
}

/// Layout of code text with the source map `source_at`, cut or continued to
/// its length. An empty body keeps one byte of run to be measured by.
pub open spec fn code_view(body: Seq<u8>, source_at: Seq<usize>, block_start: usize) -> LeafView {
    if body.len() == 0 {
        LeafView {
            text: body,
            runs: seq![TextRun { len: 1, style: RunStyle::inherit() }],
            source_at: seq![
                if source_at.len() > 0 {
                    source_at[0]
                } else {
                    block_start
                },
            ],
            block_start,
        }
    } else {
        LeafView {
            text: body,
            runs: seq![TextRun { len: body.len() as usize, style: RunStyle::code() }],
            source_at: fitted(source_at, body.len() as int + 1, block_start),
            block_start,
        }
    }
}

/// `s` cut to length `n`, or continued to it with its last entry.
pub open spec fn fitted(s: Seq<usize>, n: int, fallback: usize) -> Seq<usize> {
    let last = if s.len() > 0 {
        s.last()
    } else {
        fallback
    };
    if s.len() >= n {
        s.take(n)
    } else {
        layout::pad(s, n, last)
    }
}

/// Cuts `v` behind index `n`, or continues it up to there with its last
/// entry.
pub fn fit(v: &mut Vec<usize>, n: usize, fallback: usize)
    ensures
        final(v)@ == fitted(old(v)@, n + 1, fallback),
{
    let last: usize = if v.len() > 0 {
        v[v.len() - 1]
    } else {
        fallback
    };
    if v.len() > n {
        let extra: usize = v.len() - n;
        if extra > 1 {
            v.truncate(n + 1);
        }
        assert(v@ =~= old(v)@.take(n + 1));
        return;
    }
    while v.len() <= n
        invariant
            old(v)@.len() <= v@.len() <= n + 1,
            v@ == layout::pad(old(v)@, v@.len() as int, last),
        decreases n + 1 - v@.len(),
    {
        let ghost before = v@;
        v.push(last);
        assert(v@ =~= layout::pad(old(v)@, v@.len() as int, last));
    }
}

fn finish_code_layout(body: &str, map: Vec<usize>, block_start: usize) -> (layout: LeafLayout)
    ensures
        layout@ == code_view(encode_utf8(body@), map@, block_start),
        layout@.source_at.len() == layout@.text.len() + 1,
{
    let n: usize = byte_len(body);
    let mut source_at = map;
    let mut runs: Vec<TextRun> = Vec::new();
    if n == 0 {
        let at: usize = if source_at.len() > 0 {
            source_at[0]
        } else {
            block_start
        };
        source_at.clear();
        source_at.push(at);
        runs.push(TextRun { len: 1, style: plain_run() });
    } else {
        fit(&mut source_at, n, block_start);
        runs.push(TextRun { len: n, style: code_run() });
    }
    let layout = LeafLayout { text: own(body), runs, source_at, block_start };
    assert(layout@ =~= code_view(encode_utf8(body@), map@, block_start));
    layout
}

/// Layout of a code body that starts at `source_start`: visible bytes map to
/// source one to one.
pub fn build_code_layout(body: &str, source_start: usize) -> (layout: LeafLayout)
    requires
        source_start + encode_utf8(body@).len() <= usize::MAX,
    ensures
        layout@ == code_view(
            encode_utf8(body@),
            layout::byte_map(source_start, encode_utf8(body@).len() + 1),
            source_start,
        ),
        layout@.source_at.len() == layout@.text.len() + 1,
{
    let n: usize = byte_len(body);
    let mut source_at: Vec<usize> = Vec::new();
    let mut i: usize = 0;
    while i < n
        invariant
            i <= n,
            source_start + n <= usize::MAX,
            source_at@ == layout::byte_map(source_start, i as nat),
        decreases n - i,
    {
        source_at.push(source_start + i);
        i = i + 1;
        assert(source_at@ =~= layout::byte_map(source_start, i as nat));
    }
    source_at.push(source_start + n);
    assert(source_at@ =~= layout::byte_map(source_start, (n + 1) as nat));
    finish_code_layout(body, source_at, source_start)
}

/// The source bytes at `range`; none where it is reversed, out of bounds or
/// cuts a character.
pub open spec fn tag_bytes(b: Seq<u8>, range: Range<usize>) -> Seq<u8> {
    match text::slice_of(b, range) {
        Some(s) => s,
        None => Seq::empty(),
    }
}

/// Layout of the tag of a revealed alert: the source at `range`, which maps
/// one to one.
pub fn alert_tag_layout(source: &str, range: &Range<usize>) -> (layout: LeafLayout)
    ensures
        layout@ == code_view(
            tag_bytes(encode_utf8(source@), *range),
            layout::byte_map(
                range.start,
                tag_bytes(encode_utf8(source@), *range).len() + 1,
            ),
            range.start,
        ),
        layout@.mapped(),
{
    match get(source, range) {
        Some(tag) => build_code_layout(tag, range.start),
        None => {
            proof {
                reveal_strlit("");
                assert(encode_utf8(""@) =~= Seq::<u8>::empty());
            }
            build_code_layout("", range.start)
        },
    }
}

/// Layout of a fence body whose source map skips quote and list prefixes.
pub fn build_code_block_layout(body: &str, source_map: Vec<usize>, code_body: &Range<usize>) -> (layout:
    LeafLayout)
    ensures
        layout@ == code_view(encode_utf8(body@), source_map@, code_body.start),
        layout@.source_at.len() == layout@.text.len() + 1,
{
    finish_code_layout(body, source_map, code_body.start)
}

/// In a one-to-one code layout every character is found again: a click on it
/// maps to its source byte, and the caret on that byte maps back to it.
pub proof fn code_layout_round_trip(body: Seq<u8>, start: usize, vis: int)
    requires
        start + body.len() <= usize::MAX,
        text::boundary(body, vis),
    ensures
        code_view(body, layout::byte_map(start, body.len() + 1), start).source_of(vis) == start
            + vis,
        code_view(body, layout::byte_map(start, body.len() + 1), start).visible_of(
            (start + vis) as usize,
        ) == vis,
{
    let view = code_view(body, layout::byte_map(start, body.len() + 1), start);
    assert(view.source_at =~= layout::byte_map(start, body.len() + 1));
    assert(text::floor_boundary(body, vis) == vis);
    layout::visible_round_trip(view, vis);
}

/// A blank line that no block owns: empty, and the caret and clicks map onto
/// the bytes of `range`, the following block left out.
pub open spec fn blank_view(range: Range<usize>) -> LeafView {
    LeafView {
        text: Seq::empty(),
        runs: Seq::empty(),
        source_at: seq![
            range.start,
            bytes::greatest(range.end.saturating_sub(1), range.start),
        ],
        block_start: range.start,
    }
}

/// One visual empty line for a blank that no block owns (leading newlines or
/// a block separator).
pub fn build_blank_gap_layout(range: Range<usize>) -> (layout: LeafLayout)
    ensures
        layout@ == blank_view(range),
        layout@.mapped(),
{
    let last: usize = greater(range.end.saturating_sub(1), range.start);
    let text = String::new();
    assert(encode_utf8(text@) =~= Seq::<u8>::empty());
    let mut source_at: Vec<usize> = Vec::new();
    source_at.push(range.start);
    source_at.push(last);
    assert(source_at@ =~= seq![range.start, last]);
    LeafLayout { text, runs: Vec::new(), source_at, block_start: range.start }
}

/// A blank gap hosts exactly the caret positions of its range.
pub proof fn blank_gap_hosts_its_range(range: Range<usize>, src: usize)
    requires
        range.start < range.end,
    ensures
        blank_view(range).contains(src) <==> range.start <= src < range.end,
{
}

/// A line that holds nothing but a block prefix.
#[derive(Debug, PartialEq, Eq)]
pub struct PrefixBlank {
    /// Where the caret stands behind the prefix.
    pub home: usize,
    pub line: Range<usize>,
}

/// The opener of a footnote definition or of definition details on an
/// otherwise empty line, quote marker included.
pub open spec fn blank_opener(parts: LinePrefixParts) -> Range<usize> {
    (if parts.quote.start < parts.quote.end {
        parts.quote.start
    } else if parts.footnote.start < parts.footnote.end {
        parts.footnote.start
    } else {
        parts.details.start
    })..(if parts.details.start < parts.details.end {
        parts.details.end
    } else {
        parts.footnote.end
    })
}

/// The caret or a selection is on the line of `blank`.
pub open spec fn blank_hit(blank: PrefixBlank, parts: LinePrefixParts, state: RevealState) -> bool {
    let reach = bytes::greatest(
        bytes::greatest(parts.details.end, parts.footnote.end),
        blank.home,
    );
    state.meets(blank.line) || state.meets((blank.home..blank.home.saturating_add(1)))
        || state.meets((parts.footnote.start..reach))
}

/// Layout of an otherwise empty prefixed line.
pub open spec fn prefix_blank_view(
    b: Seq<u8>,
    blank: PrefixBlank,
    parts: LinePrefixParts,
    state: RevealState,
) -> LeafView {
    let gap = blank_view((blank.home..bytes::greatest(blank.home, blank.line.end)));
    let opens = parts.footnote.start != parts.footnote.end || parts.details.start
        != parts.details.end;
    if b.len() > 0 && opens && blank_hit(blank, parts, state) {
        chrome::with_front(gap, b, Some(blank_opener(parts)))
    } else {
        gap
    }
}

/// Layout of an otherwise empty prefixed line. Empty `[^1]: ` and `: ` lines
/// (and their quoted forms) paint their opener when revealed; empty `> ` and
/// `- ` lines stay a blank gap, their markers belong to the block renderer.
pub fn build_prefix_blank_layout(
    source: &str,
    blank: &PrefixBlank,
    parts: &LinePrefixParts,
    state: &RevealState,
) -> (layout: LeafLayout)
    ensures
        layout@ == prefix_blank_view(encode_utf8(source@), *blank, *parts, *state),
        layout@.mapped(),
{
    let mut layout = build_blank_gap_layout(blank.home..greater(blank.home, blank.line.end));
    if byte_len(source) == 0 {
        return layout;
    }
    if parts.footnote.start == parts.footnote.end && parts.details.start == parts.details.end {
        return layout;
    }
    let reach: usize = greater(greater(parts.details.end, parts.footnote.end), blank.home);
    let hit = state.intersects(&blank.line) || state.intersects(
        &(blank.home..blank.home.saturating_add(1)),
    ) || state.intersects(&(parts.footnote.start..reach));
    if !hit {
        return layout;
    }
    let start: usize = if parts.quote.start < parts.quote.end {
        parts.quote.start
    } else if parts.footnote.start < parts.footnote.end {
        parts.footnote.start
    } else {
        parts.details.start
    };
    let stop: usize = if parts.details.start < parts.details.end {
        parts.details.end
    } else {
        parts.footnote.end
    };
    prepend_range(&mut layout, source, &Some(start..stop));
    layout
}

/// Where the line of `b` that holds `o` ends, its line feed included.
pub open spec fn line_end(b: Seq<u8>, o: int, hi: int) -> int
    decreases hi - o,
{
    if o >= hi {
        hi
    } else if b[o] == LF {
        o + 1
    } else {
        line_end(b, o + 1, hi)
    }
}

/// A table delimiter row: dashes, pipes, colons and blanks, with at least one
/// dash and one pipe.
pub open spec fn delimiter_row(t: Seq<u8>) -> bool {
    &&& t.contains(PIPE)
    &&& t.contains(DASH)
    &&& forall|i: int| 0 <= i < t.len() ==> ByteClass::Delimiter.has(#[trigger] t[i])
}

/// The quote prefix of line `k` is this long.
pub open spec fn quote_len(quotes: Seq<usize>, k: int) -> usize {
    if 0 <= k < quotes.len() {
        quotes[k]
    } else {
        0
    }
}

/// The first delimiter row among the lines of `b` from `o` to `hi`, line `k`
/// first, without quote prefix and line end.
pub open spec fn alignment_from(b: Seq<u8>, quotes: Seq<usize>, o: int, hi: int, k: int) -> Option<
    Range<usize>,
>
    decreases hi - o,
    when o >= 0
{
    if o >= hi {
        None
    } else {
        proof {
            lemma_line_end(b, o, hi);
        }
        let end = line_end(b, o, hi);
        let stop = bytes::backward(b, end, o, ByteClass::Newline);
        let start = o + quote_len(quotes, k);
        if start <= stop && text::boundary(b, start) && text::boundary(b, stop) && delimiter_row(
            encode_utf8(text::trimmed(decode_utf8(b.subrange(start, stop)))),
        ) {
            Some(start as usize..stop as usize)
        } else {
            alignment_from(b, quotes, end, hi, k + 1)
        }
    }
}

/// A line holds at least one byte and ends inside the text.
pub proof fn lemma_line_end(b: Seq<u8>, o: int, hi: int)
    requires
        o < hi,
    ensures
        o < line_end(b, o, hi) <= hi,
    decreases hi - o,
{
    reveal_with_fuel(line_end, 2);
    if b[o] != LF && o + 1 < hi {
        lemma_line_end(b, o + 1, hi);
    }
}

/// The alignment row of a table.
pub open spec fn alignment_line(b: Seq<u8>, table: Block, quotes: Seq<usize>) -> Option<Range<usize>> {
    let start = bytes::least(table.source_range.start, b.len() as usize);
    let end = bytes::least(table.source_range.end, b.len() as usize);
    if table.kind is Table && text::sliceable(b, (start..end)) {
        alignment_from(b, quotes, start as int, end as int, 0)
    } else {
        None
    }
}

fn is_delimiter_row(t: &str) -> (yes: bool)
    ensures
        yes == delimiter_row(encode_utf8(t@)),
{
    let bytes = t.as_bytes();
    let mut pipe = false;
    let mut dash = false;
    let mut i: usize = 0;
    while i < bytes.len()
        invariant
            i <= bytes@.len(),
            bytes@ == encode_utf8(t@),
            pipe == exists|j: int| 0 <= j < i && bytes@[j] == PIPE,
            dash == exists|j: int| 0 <= j < i && bytes@[j] == DASH,
            forall|j: int| 0 <= j < i ==> ByteClass::Delimiter.has(#[trigger] bytes@[j]),
        decreases bytes@.len() - i,
    {
        let c: u8 = bytes[i];
        if !ByteClass::Delimiter.holds(c) {
            assert(!ByteClass::Delimiter.has(bytes@[i as int]));
            return false;
        }
        if c == PIPE {
            pipe = true;
        }
        if c == DASH {
            dash = true;
        }
        i = i + 1;
    }
    assert(pipe == bytes@.contains(PIPE));
    assert(dash == bytes@.contains(DASH));
    pipe && dash
}

/// Alignment row (`|---|---|`) of a table, without quote prefix; `quotes`
/// holds the length of the quote prefix of each of its lines. `None` when the
/// table has no delimiter line.
pub fn table_alignment_line(source: &str, table: &Block, quotes: &Vec<usize>) -> (range: Option<
    Range<usize>,
>)
    ensures
        range == alignment_line(encode_utf8(source@), *table, quotes@),
{
    match &table.kind {
        BlockKind::Table { .. } => {},
        _ => {
            return None;
        },
    }
    let bytes = source.as_bytes();
    let ghost b = encode_utf8(source@);
    let start: usize = lesser(table.source_range.start, bytes.len());
    let hi: usize = lesser(table.source_range.end, bytes.len());
    if get(source, &(start..hi)).is_none() {
        return None;
    }
    let mut o: usize = start;
    let mut k: usize = 0;
    while o < hi
        invariant
            b == encode_utf8(source@),
            bytes@ == b,
            start <= o <= hi <= b.len(),
            k <= o,
            table.kind is Table,
            text::sliceable(b, (start..hi)),
            start == bytes::least(table.source_range.start, b.len() as usize),
            hi == bytes::least(table.source_range.end, b.len() as usize),
            alignment_line(b, *table, quotes@) == alignment_from(
                b,
                quotes@,
                o as int,
                hi as int,
                k as int,
            ),
        decreases hi - o,
    {
        let mut end: usize = o;
        let mut found = false;
        while end < hi && !found
            invariant
                o <= end <= hi <= b.len(),
                bytes@ == b,
                !found ==> line_end(b, o as int, hi as int) == line_end(b, end as int, hi as int),
                found ==> line_end(b, o as int, hi as int) == end,
                found ==> end > o,
            decreases hi - end, if found { 0int } else { 1int },
        {
            if bytes[end] == LF {
                found = true;
            }
            end = end + 1;
        }
        proof {
            lemma_line_end(b, o as int, hi as int);
        }
        assert(end == line_end(b, o as int, hi as int));
        let stop: usize = skip_backward(bytes, end, o, ByteClass::Newline);
        let quote: usize = if k < quotes.len() {
            quotes[k]
        } else {
            0
        };
        if quote <= stop - o {
            if let Some(body) = get(source, &(o + quote..stop)) {
                proof {
                    encode_utf8_decode_utf8(body@);
                }
                if is_delimiter_row(body.trim()) {
                    return Some(o + quote..stop);
                }
            }
        }
        o = end;
        k = k + 1;
    }
    None
}

impl<'a> BlockInput<'a> {
    /// Nothing of the block is revealed: neither the caret nor a selection
    /// meets the block, a container that shows chrome, or anything of the leaf
    /// that the inlines form.
    pub open spec fn unmet(&self) -> bool {
        &&& !self.state.meets(self.block.source_range)
        &&& !caret::host_meets(*self.state, self.hosts.table)
        &&& prefix::quiet(self.facts.prefix, *self.state, *self.hosts)
        &&& is_thematic_break(*self.block, *self.facts) || self.as_leaf().unmet()
    }

    /// The caret and the selection meet neither the block, nor a container of
    /// it, nor the prefix of one of its lines.
    pub open spec fn away(&self) -> bool {
        &&& !caret::host_meets(*self.state, self.hosts.table)
        &&& prefix::quiet(self.facts.prefix, *self.state, *self.hosts)
        &&& self.as_leaf().away()
    }
}

/// As long as nothing of a block is revealed, its layout does not depend on
/// where the caret and the selection are.
pub proof fn unmet_blocks_paint_alike(x: BlockInput<'_>, y: BlockInput<'_>)
    requires
        x.ok(),
        x.unmet(),
        y.unmet(),
        y == (BlockInput { state: y.state, ..x }),
    ensures
        x.layout() == y.layout(),
{
    let b = encode_utf8(x.source@);
    let n = x.block.inlines@.len() as usize;
    let rule = empty_view(break_marker(b, *x.block, x.facts.start_prefix).start);
    let plain = if is_thematic_break(*x.block, *x.facts) {
        rule
    } else {
        x.as_leaf().layout(0, n)
    };
    chrome::hidden_block_paints_no_chrome(plain, b, *x.block, *x.facts, *x.state, *x.hosts);
    chrome::hidden_block_paints_no_chrome(plain, b, *y.block, *y.facts, *y.state, *y.hosts);
    if !is_thematic_break(*x.block, *x.facts) {
        leaf::unmet_carets_paint_alike(x.as_leaf(), y.as_leaf(), 0, n);
    }
}

/// A block whose inlines stand in it is laid out alike for every caret and
/// selection that meet neither the block, nor its containers, nor the prefixes
/// of its lines.
pub proof fn away_carets_paint_alike(x: BlockInput<'_>, y: BlockInput<'_>)
    requires
        x.ok(),
        x.as_leaf().inside(),
        x.away(),
        y.away(),
        y == (BlockInput { state: y.state, ..x }),
    ensures
        x.layout() == y.layout(),
{
    leaf::away_reveals_nothing(x.as_leaf());
    leaf::away_reveals_nothing(y.as_leaf());
    unmet_blocks_paint_alike(x, y);
}

/// `parts` ends before the largest offset.
pub open spec fn prefix_ends(parts: LinePrefixParts) -> bool {
    parts.footnote.end < usize::MAX && parts.details.end < usize::MAX
}

/// The block, its containers and the prefixes of its lines end before the
/// largest offset.
pub open spec fn block_ends(x: BlockInput<'_>) -> bool {
    &&& x.block.source_range.end < usize::MAX
    &&& x.hosts.ends()
    &&& prefix_ends(x.facts.prefix)
    &&& forall|i: int|
        0 <= i < x.facts.inlines@.len() ==> prefix_ends((#[trigger] x.facts.inlines@[i]).prefix)
}

/// A caret and a selection that meet neither the block, nor its containers,
/// nor the prefixes of its lines leave it as it is in a document without a
/// caret.
pub proof fn away_caret_paints_as_hidden(x: BlockInput<'_>, y: BlockInput<'_>)
    requires
        x.ok(),
        x.as_leaf().inside(),
        block_ends(x),
        x.away(),
        y == (BlockInput { state: y.state, ..x }),
        y.state.is_hidden(),
    ensures
        x.layout() == y.layout(),
{
    assert forall|i: int| 0 <= i < y.facts.inlines@.len() implies prefix::quiet(
        (#[trigger] y.facts.inlines@[i]).prefix,
        *y.state,
        *y.hosts,
    ) by {
        assert(prefix_ends(x.facts.inlines@[i].prefix));
    }
    away_carets_paint_alike(x, y);
}

/// Which blocks are rules: thematic breaks, and HTML that is one.
pub proof fn rules_are_markdown_or_html(block: Block, facts: BlockFacts)
    ensures
        block.kind is ThematicBreak ==> is_thematic_break(block, facts),
        block.kind is Opaque ==> (is_thematic_break(block, facts) <==> facts.html.is_rule),
        !(block.kind is ThematicBreak) && !(block.kind is Opaque) ==> !is_thematic_break(
            block,
            facts,
        ),
{
}

/// The marker of a rule runs to the end of its line, from its start or from
/// behind its prefix.
pub proof fn rules_are_marked_by_their_line(
    b: Seq<u8>,
    block: Block,
    parts: LinePrefixParts,
    end: int,
)
    requires
        b.len() <= usize::MAX,
        block.source_range.start < end <= block.source_range.end,
        block.source_range.end <= b.len(),
        b[end - 1] != 10 && b[end - 1] != 13,
        forall|k: int| end <= k < block.source_range.end ==> #[trigger] b[k] == 10 || b[k] == 13,
    ensures
        ({
            let marker = break_marker(b, block, parts);
            let prefix = if block.kind is Opaque {
                parts.list.end
            } else {
                parts.quote.end
            };
            &&& marker.end == end
            &&& block.source_range.start < prefix <= end ==> marker.start == prefix
            &&& prefix <= block.source_range.start ==> marker.start == block.source_range.start
        }),
{
    bytes::backward_starts_at(
        b,
        block.source_range.end as int,
        block.source_range.start as int,
        ByteClass::Newline,
        end,
    );
}

/// A rule shows its marker when it is met, and no text otherwise; either way it
/// hosts the caret at its marker. Markers of containers come in front.
pub proof fn rules_show_their_marker_when_met(
    block: Block,
    facts: BlockFacts,
    b: Seq<u8>,
    state: RevealState,
    hosts: ChromeHosts,
)
    requires
        block.kind is ThematicBreak,
        prefix::shown_prefix(b, facts.prefix, state, hosts) is None,
        text::sliceable(b, break_marker(b, block, facts.start_prefix)),
    ensures
        ({
            let marker = break_marker(b, block, facts.start_prefix);
            let view = break_view(block, facts, b, state, hosts);
            &&& state.meets(block.source_range) ==> view.text == b.subrange(
                marker.start as int,
                marker.end as int,
            )
            &&& !state.meets(block.source_range) ==> view.text.len() == 0 && view.source_at == seq![
                marker.start,
            ]
            &&& view.block_start == marker.start
        }),
{
    let marker = break_marker(b, block, facts.start_prefix);
    let s = b.subrange(marker.start as int, marker.end as int);
    assert(Seq::<u8>::empty() + s =~= s);
    if s.len() == 0 {
        assert(s =~= Seq::<u8>::empty());
    }
}

/// A block that is not met shows its text and nothing else.
pub proof fn unmet_blocks_show_their_text_alone(x: BlockInput)
    requires
        x.ok(),
        !x.state.meets(x.block.source_range),
        !caret::host_meets(*x.state, x.hosts.table),
        prefix::quiet(x.facts.prefix, *x.state, *x.hosts),
        !is_thematic_break(*x.block, *x.facts),
    ensures
        x.layout() == x.as_leaf().layout(0, x.block.inlines@.len() as usize),
{
    let b = encode_utf8(x.source@);
    chrome::hidden_block_paints_no_chrome(
        x.as_leaf().layout(0, x.block.inlines@.len() as usize),
        b,
        *x.block,
        *x.facts,
        *x.state,
        *x.hosts,
    );
}

/// A paragraph outside of containers shows its text and nothing else, met or
/// not; a heading outside of containers adds its marks alone.
pub proof fn free_blocks_show_their_own_marks(x: BlockInput)
    requires
        x.ok(),
        x.hosts.is_none(),
        !is_thematic_break(*x.block, *x.facts),
        !(x.block.kind is CodeBlock),
    ensures
        ({
            let b = encode_utf8(x.source@);
            let body = x.as_leaf().layout(0, x.block.inlines@.len() as usize);
            &&& !(x.block.kind is Heading) ==> x.layout() == body
            &&& x.block.kind is Heading && x.block.kind->Heading_style == HeadingStyle::Atx
                ==> x.layout() == chrome::with_atx(body, b, *x.block, *x.state)
            &&& x.block.kind is Heading && x.block.kind->Heading_style == HeadingStyle::Setext
                ==> x.layout() == chrome::with_setext(body, b, *x.block, *x.state)
        }),
{
    prefix::no_host_no_prefix(encode_utf8(x.source@), x.facts.prefix, *x.state, *x.hosts);
}

/// Code shows its body in the code font and maps it as it is told; what it is
/// not told maps as the last offset that it is.
pub proof fn code_maps_as_it_is_told(body: Seq<u8>, source_at: Seq<usize>, start: usize, k: int)
    requires
        0 < body.len() <= usize::MAX,
        0 <= k <= body.len(),
    ensures
        ({
            let view = code_view(body, source_at, start);
            &&& view.text == body
            &&& view.runs.len() == 1 && view.runs[0].len == body.len() && view.runs[0].style.code_font
            &&& view.source_at.len() == body.len() + 1
            &&& k < source_at.len() ==> view.source_at[k] == source_at[k]
            &&& source_at.len() > 0 && k >= source_at.len() ==> view.source_at[k]
                == source_at[source_at.len() - 1]
            &&& source_at.len() == 0 ==> view.source_at[k] == start
            &&& view.block_start == start
        }),
{
}

/// A blank line has no text and hosts the caret from its start to before its
/// line end.
pub proof fn blank_lines_host_the_caret(range: Range<usize>, at: usize)
    ensures
        blank_view(range).text.len() == 0,
        range.start < range.end ==> (blank_view(range).contains(at) <==> range.start <= at
            < range.end),
        range.start >= range.end ==> (blank_view(range).contains(at) <==> at == range.start),
{
}

/// A blank line behind a marker shows the marker where the caret comes near it,
/// and hosts the caret behind it.
pub proof fn blank_lines_show_their_marker(
    b: Seq<u8>,
    blank: PrefixBlank,
    parts: LinePrefixParts,
    state: RevealState,
)
    requires
        b.len() > 0,
        text::sliceable(b, blank_opener(parts)),
    ensures
        ({
            let view = prefix_blank_view(b, blank, parts, state);
            let marked = parts.footnote.start != parts.footnote.end || parts.details.start
                != parts.details.end;
            let opener = blank_opener(parts);
            &&& marked && state.meets(blank.line) ==> view.text == b.subrange(
                opener.start as int,
                opener.end as int,
            )
            &&& marked && blank.home < usize::MAX && blank.home <= state.caret <= blank.home + 1
                ==> view.text == b.subrange(opener.start as int, opener.end as int)
            &&& !marked ==> view.text.len() == 0
        }),
        parts.quote.start < parts.quote.end ==> blank_opener(parts).start == parts.quote.start,
        parts.quote.start >= parts.quote.end && parts.footnote.start < parts.footnote.end
            ==> blank_opener(parts).start == parts.footnote.start,
        parts.details.start < parts.details.end ==> blank_opener(parts).end == parts.details.end,
        parts.details.start >= parts.details.end ==> blank_opener(parts).end == parts.footnote.end,
{
    let opener = blank_opener(parts);
    let s = b.subrange(opener.start as int, opener.end as int);
    assert(s + Seq::<u8>::empty() =~= s);
}

/// A delimiter row is made of pipes, dashes, colons and blanks, with at least a
/// pipe and a dash.
pub proof fn delimiter_rows_are_pipes_and_dashes(t: Seq<u8>)
    ensures
        delimiter_row(t) <==> t.contains(124u8) && t.contains(45u8) && forall|i: int|
            0 <= i < t.len() ==> #[trigger] t[i] == 124 || t[i] == 45 || t[i] == 58 || t[i] == 32
                || t[i] == 9,
{
    if delimiter_row(t) {
        assert forall|i: int| 0 <= i < t.len() implies #[trigger] t[i] == 124 || t[i] == 45 || t[i]
            == 58 || t[i] == 32 || t[i] == 9 by {
            assert(ByteClass::Delimiter.has(t[i]));
        }
    }
}

/// The alignment row that is found lies in the table and is a delimiter row.
pub proof fn alignment_rows_are_delimiter_rows(
    b: Seq<u8>,
    quotes: Seq<usize>,
    o: int,
    hi: int,
    k: int,
)
    requires
        0 <= o,
        hi <= b.len() <= usize::MAX,
        alignment_from(b, quotes, o, hi, k) is Some,
    ensures
        ({
            let r = alignment_from(b, quotes, o, hi, k)->0;
            &&& o <= r.start <= r.end <= hi
            &&& delimiter_row(
                encode_utf8(text::trimmed(decode_utf8(b.subrange(r.start as int, r.end as int)))),
            )
        }),
    decreases hi - o,
{
    lemma_line_end(b, o, hi);
    let end = line_end(b, o, hi);
    bytes::lemma_backward(b, end, o, ByteClass::Newline);
    let stop = bytes::backward(b, end, o, ByteClass::Newline);
    let start = o + quote_len(quotes, k);
    if !(start <= stop && text::boundary(b, start) && text::boundary(b, stop) && delimiter_row(
        encode_utf8(text::trimmed(decode_utf8(b.subrange(start, stop)))),
    )) {
        alignment_rows_are_delimiter_rows(b, quotes, end, hi, k + 1);
    }
}

/// The first line of a table whose text, behind its quote marks, is a delimiter
/// row is its alignment row.
pub proof fn delimiter_rows_are_found(
    b: Seq<u8>,
    quotes: Seq<usize>,
    o: int,
    n: int,
    hi: int,
    k: int,
)
    requires
        0 <= o <= n < hi <= b.len(),
        b.len() <= usize::MAX,
        b[n] == 10,
        forall|j: int| o <= j < n ==> #[trigger] b[j] != 10 && b[j] != 13,
        ({
            let start = o + quote_len(quotes, k);
            start <= n && text::boundary(b, start) && text::boundary(b, n) && delimiter_row(
                encode_utf8(text::trimmed(decode_utf8(b.subrange(start, n)))),
            )
        }),
    ensures
        alignment_from(b, quotes, o, hi, k) == Some(
            ((o + quote_len(quotes, k)) as usize..n as usize),
        ),
{
    lemma_line_at(b, o, n, hi);
    bytes::backward_starts_at(b, n + 1, o, ByteClass::Newline, n);
}

proof fn lemma_line_at(b: Seq<u8>, o: int, n: int, hi: int)
    requires
        0 <= o <= n < hi <= b.len(),
        b[n] == 10,
        forall|j: int| o <= j < n ==> #[trigger] b[j] != 10 && b[j] != 13,
    ensures
        line_end(b, o, hi) == n + 1,
    decreases n - o,
{
    if o < n {
        assert(b[o] != 10);
        lemma_line_at(b, o + 1, n, hi);
    }
}

} // verus!
