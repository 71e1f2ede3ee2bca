//! Structural chrome of blocks: heading marks, block prefixes, fences, table
//! pipes and thematic breaks.

use std::ops::Range;

use vstd::prelude::*;
use vstd::string::*;
use vstd::utf8::*;

use crate::ascii::{CR, HASH, LF, PIPE};
use crate::bytes;
use crate::bytes::{greater, lesser, skip_backward, skip_forward, ByteClass};
use crate::caret;
use crate::caret::{host_intersects, ChromeHosts, RevealState};
use crate::layout;
use crate::layout::{
    append_source_slice, prepend_source_slice, LeafLayout, LeafView,
};
use crate::prefix;
use crate::prefix::revealed_prefix_range;
use crate::style::{wiki_delim_run, RunStyle};
use crate::text;
use crate::text::{byte_len, dup, get};
use crate::tree::{
    Block, BlockFacts, BlockKind, HeadingStyle, Inline, LinePrefixParts,
};

verus! {

/// The first source byte of the inlines.
pub open spec fn first_start(inlines: Seq<Inline>) -> Option<usize>
    decreases inlines.len(),
{
    if inlines.len() == 0 {
        None
    } else {
        let start = inlines.last().span().start;
        match first_start(inlines.drop_last()) {
            Some(s) => Some(bytes::least(s, start)),
            None => Some(start),
        }
    }
}

/// The end of the last source byte of the inlines.
pub open spec fn last_end(inlines: Seq<Inline>) -> Option<usize>
    decreases inlines.len(),
{
    if inlines.len() == 0 {
        None
    } else {
        let end = inlines.last().span().end;
        match last_end(inlines.drop_last()) {
            Some(e) => Some(bytes::greatest(e, end)),
            None => Some(end),
        }
    }
}

/// The first source byte of a block's inlines.
pub fn first_inline_source_start(block: &Block) -> (start: Option<usize>)
    ensures
        start == first_start(block.inlines@),
{
    let mut start: Option<usize> = None;
    let mut k: usize = 0;
    assert(block.inlines@.take(0) =~= Seq::<Inline>::empty());
    while k < block.inlines.len()
        invariant
            k <= block.inlines.len(),
            start == first_start(block.inlines@.take(k as int)),
        decreases block.inlines.len() - k,
    {
        assert(block.inlines@.take(k + 1).drop_last() =~= block.inlines@.take(k as int));
        let s: usize = block.inlines[k].source_range().start;
        start = match start {
            Some(best) => Some(lesser(best, s)),
            None => Some(s),
        };
        k = k + 1;
    }
    assert(block.inlines@.take(k as int) =~= block.inlines@);
    start
}

/// The end of the last source byte of a block's inlines.
pub fn last_inline_source_end(block: &Block) -> (end: Option<usize>)
    ensures
        end == last_end(block.inlines@),
{
    let mut end: Option<usize> = None;
    let mut k: usize = 0;
    assert(block.inlines@.take(0) =~= Seq::<Inline>::empty());
    while k < block.inlines.len()
        invariant
            k <= block.inlines.len(),
            end == last_end(block.inlines@.take(k as int)),
        decreases block.inlines.len() - k,
    {
        assert(block.inlines@.take(k + 1).drop_last() =~= block.inlines@.take(k as int));
        let e: usize = block.inlines[k].source_range().end;
        end = match end {
            Some(best) => Some(greater(best, e)),
            None => Some(e),
        };
        k = k + 1;
    }
    assert(block.inlines@.take(k as int) =~= block.inlines@);
    end
}

/// The block is an ATX heading (`# Title`).
pub open spec fn is_atx(block: Block) -> bool {
    block.kind matches BlockKind::Heading { style, .. } && style == HeadingStyle::Atx
}

/// The block is a setext heading (a title over `===` or `---`).
pub open spec fn is_setext(block: Block) -> bool {
    block.kind matches BlockKind::Heading { style, .. } && style == HeadingStyle::Setext
}

fn heading_is(block: &Block, style: HeadingStyle) -> (yes: bool)
    ensures
        yes == (block.kind matches BlockKind::Heading { style: s, .. } && s == style),
{
    match &block.kind {
        BlockKind::Heading { style: s, .. } => *s == style,
        _ => false,
    }
}

/// Opening hashes of an ATX heading with the spaces around them, up to the
/// title.
pub open spec fn atx_open(b: Seq<u8>, block: Block) -> Option<Range<usize>> {
    let lo = block.source_range.start;
    let hi = bytes::least(block.source_range.end, b.len() as usize);
    let content = match first_start(block.inlines@) {
        Some(s) => s as int,
        None => bytes::forward(b, lo as int, hi as int, ByteClass::Quote),
    };
    if !is_atx(block) || content < lo || content > hi {
        None
    } else {
        let spaced = bytes::backward(b, content, lo as int, ByteClass::Space);
        let hashes = bytes::backward(b, spaced, lo as int, ByteClass::Hash);
        let start = bytes::backward(b, hashes, lo as int, ByteClass::Space);
        if spaced > 0 && b[spaced - 1] == HASH && start < content {
            Some(start as usize..content as usize)
        } else {
            None
        }
    }
}

/// Closing hashes of an ATX heading, from the end of the title.
pub open spec fn atx_close(b: Seq<u8>, block: Block) -> Option<Range<usize>> {
    let hi = bytes::least(block.source_range.end, b.len() as usize);
    match last_end(block.inlines@) {
        Some(last) => if is_atx(block) && last < hi {
            let i = bytes::forward(b, last as int, hi as int, ByteClass::Space);
            if i < hi && b[i] == HASH {
                Some(last..bytes::forward(b, i, hi as int, ByteClass::Hash) as usize)
            } else {
                None
            }
        } else {
            None
        },
        None => None,
    }
}

/// Opening hashes of an ATX heading with the spaces before the title.
pub fn atx_open_range(source: &str, block: &Block) -> (range: Option<Range<usize>>)
    ensures
        range == atx_open(encode_utf8(source@), *block),
{
    if !heading_is(block, HeadingStyle::Atx) {
        return None;
    }
    let bytes = source.as_bytes();
    let lo: usize = block.source_range.start;
    let hi: usize = lesser(block.source_range.end, bytes.len());
    let content: usize = match first_inline_source_start(block) {
        Some(s) => s,
        None => skip_forward(bytes, lo, hi, ByteClass::Quote),
    };
    if content < lo || content > hi {
        return None;
    }
    let spaced: usize = skip_backward(bytes, content, lo, ByteClass::Space);
    if spaced == 0 || bytes[spaced - 1] != HASH {
        return None;
    }
    let hashes: usize = skip_backward(bytes, spaced, lo, ByteClass::Hash);
    let start: usize = skip_backward(bytes, hashes, lo, ByteClass::Space);
    if start >= content {
        return None;
    }
    Some(start..content)
}

/// Closing hashes of an ATX heading, from the end of the title.
pub fn atx_close_range(source: &str, block: &Block) -> (range: Option<Range<usize>>)
    ensures
        range == atx_close(encode_utf8(source@), *block),
{
    if !heading_is(block, HeadingStyle::Atx) {
        return None;
    }
    let bytes = source.as_bytes();
    let hi: usize = lesser(block.source_range.end, bytes.len());
    let last: usize = match last_inline_source_end(block) {
        Some(e) => e,
        None => {
            return None;
        },
    };
    if last >= hi {
        return None;
    }
    let i: usize = skip_forward(bytes, last, hi, ByteClass::Space);
    if i >= hi || bytes[i] != HASH {
        return None;
    }
    let end: usize = skip_forward(bytes, i, hi, ByteClass::Hash);
    Some(last..end)
}

/// `layout` with the source bytes of `r` in front.
pub open spec fn with_front(layout: LeafView, b: Seq<u8>, r: Option<Range<usize>>) -> LeafView {
    match r {
        Some(r) => match text::slice_of(b, r) {
            Some(s) => layout.prepended(s, r, RunStyle::delim()),
            None => layout,
        },
        None => layout,
    }
}

/// `layout` with the source bytes of `r` at its end.
pub open spec fn with_back(layout: LeafView, b: Seq<u8>, r: Option<Range<usize>>) -> LeafView {
    match r {
        Some(r) => match text::slice_of(b, r) {
            Some(s) => layout.appended(s, r, RunStyle::delim()),
            None => layout,
        },
        None => layout,
    }
}

/// Puts the source bytes of `r` in front of the layout.
pub fn prepend_range(layout: &mut LeafLayout, source: &str, r: &Option<Range<usize>>)
    ensures
        final(layout)@ == with_front(old(layout)@, encode_utf8(source@), *r),
        old(layout)@.mapped() ==> final(layout)@.mapped(),
        old(layout)@.tiled() ==> final(layout)@.tiled(),
{
    if let Some(r) = r {
        if let Some(s) = get(source, r) {
            prepend_source_slice(layout, s, dup(r), wiki_delim_run());
        }
    }
}

/// Puts the source bytes of `r` at the end of the layout.
pub fn append_range(layout: &mut LeafLayout, source: &str, r: &Option<Range<usize>>)
    requires
        old(layout)@.mapped(),
    ensures
        final(layout)@ == with_back(old(layout)@, encode_utf8(source@), *r),
        final(layout)@.mapped(),
        old(layout)@.tiled() ==> final(layout)@.tiled(),
{
    if let Some(r) = r {
        if let Some(s) = get(source, r) {
            append_source_slice(layout, s, dup(r), wiki_delim_run());
        }
    }
}

/// `layout` with the hashes of a revealed ATX heading.
pub open spec fn with_atx(layout: LeafView, b: Seq<u8>, block: Block, state: RevealState) -> LeafView {
    if b.len() > 0 && is_atx(block) && state.meets(block.source_range) {
        with_back(with_front(layout, b, atx_open(b, block)), b, atx_close(b, block))
    } else {
        layout
    }
}

/// Paints the hashes of a revealed ATX heading.
pub fn paint_atx_chrome(block: &Block, source: &str, state: &RevealState, layout: &mut LeafLayout)
    requires
        old(layout)@.mapped(),
    ensures
        final(layout)@ == with_atx(old(layout)@, encode_utf8(source@), *block, *state),
        final(layout)@.mapped(),
        old(layout)@.tiled() ==> final(layout)@.tiled(),
{
    if byte_len(source) == 0 || !heading_is(block, HeadingStyle::Atx) || !state.intersects(
        &block.source_range,
    ) {
        return;
    }
    let open = atx_open_range(source, block);
    prepend_range(layout, source, &open);
    let close = atx_close_range(source, block);
    append_range(layout, source, &close);
}

/// The underline of a setext heading, without a quote prefix.
pub open spec fn setext_underline(b: Seq<u8>, block: Block) -> Option<Range<usize>> {
    let hi = bytes::least(block.source_range.end, b.len() as usize);
    let last = match last_end(block.inlines@) {
        Some(e) => e,
        None => block.source_range.start,
    };
    if !is_setext(block) || last >= hi {
        None
    } else {
        let line_end = bytes::forward(b, last as int, hi as int, ByteClass::LineRest);
        let next = if line_end < hi && b[line_end] == LF {
            line_end + 1
        } else {
            line_end
        };
        let start = bytes::forward(b, next, hi as int, ByteClass::Quote);
        let end = bytes::forward(b, start, hi as int, ByteClass::Underline);
        if end > start {
            Some(start as usize..end as usize)
        } else {
            None
        }
    }
}

/// The spaces before a setext title.
pub open spec fn setext_indent(b: Seq<u8>, block: Block) -> Option<Range<usize>> {
    let lo = block.source_range.start;
    match first_start(block.inlines@) {
        Some(content) => if is_setext(block) && content > lo {
            let i = bytes::backward(
                b,
                bytes::least(content, b.len() as usize) as int,
                lo as int,
                ByteClass::Space,
            );
            if i < content {
                Some(i as usize..content)
            } else {
                None
            }
        } else {
            None
        },
        None => None,
    }
}

/// The underline of a setext heading, without a quote prefix.
pub fn setext_underline_range(source: &str, block: &Block) -> (range: Option<Range<usize>>)
    ensures
        range == setext_underline(encode_utf8(source@), *block),
        range matches Some(r) ==> r.start < r.end <= encode_utf8(source@).len(),
{
    if !heading_is(block, HeadingStyle::Setext) {
        return None;
    }
    let bytes = source.as_bytes();
    let hi: usize = lesser(block.source_range.end, bytes.len());
    let last: usize = match last_inline_source_end(block) {
        Some(e) => e,
        None => block.source_range.start,
    };
    if last >= hi {
        return None;
    }
    let mut i: usize = skip_forward(bytes, last, hi, ByteClass::LineRest);
    if i < hi && bytes[i] == LF {
        i = i + 1;
    }
    let start: usize = skip_forward(bytes, i, hi, ByteClass::Quote);
    let end: usize = skip_forward(bytes, start, hi, ByteClass::Underline);
    if end <= start {
        return None;
    }
    Some(start..end)
}

/// The spaces before a setext title. They show and hide with the underline.
pub fn setext_title_indent_range(source: &str, block: &Block) -> (range: Option<Range<usize>>)
    ensures
        range == setext_indent(encode_utf8(source@), *block),
{
    if !heading_is(block, HeadingStyle::Setext) {
        return None;
    }
    let bytes = source.as_bytes();
    let lo: usize = block.source_range.start;
    let content: usize = match first_inline_source_start(block) {
        Some(s) => s,
        None => {
            return None;
        },
    };
    if content <= lo {
        return None;
    }
    let i: usize = skip_backward(bytes, lesser(content, bytes.len()), lo, ByteClass::Space);
    if i < content {
        Some(i..content)
    } else {
        None
    }
}

/// The line break right before `at`.
pub open spec fn break_before(b: Seq<u8>, at: usize) -> Option<Range<usize>> {
    let i = at.saturating_sub(1);
    if i < b.len() && b[i as int] == LF {
        Some(i..(i + 1) as usize)
    } else {
        None
    }
}

/// `layout` with the indent and the underline of a revealed setext heading.
pub open spec fn with_setext(layout: LeafView, b: Seq<u8>, block: Block, state: RevealState) -> LeafView {
    let under = setext_underline(b, block);
    if b.len() > 0 && state.meets(block.source_range) && under is Some && text::slice_of(
        b,
        under->0,
    ) is Some {
        let indented = with_front(layout, b, setext_indent(b, block));
        with_back(with_back(indented, b, break_before(b, (under->0).start)), b, under)
    } else {
        layout
    }
}

/// Paints the indent and the underline of a revealed setext heading.
pub fn paint_setext_chrome(block: &Block, source: &str, state: &RevealState, layout: &mut LeafLayout)
    requires
        old(layout)@.mapped(),
    ensures
        final(layout)@ == with_setext(old(layout)@, encode_utf8(source@), *block, *state),
        final(layout)@.mapped(),
        old(layout)@.tiled() ==> final(layout)@.tiled(),
{
    if byte_len(source) == 0 || !heading_is(block, HeadingStyle::Setext) || !state.intersects(
        &block.source_range,
    ) {
        return;
    }
    let under = setext_underline_range(source, block);
    let at: usize = match &under {
        Some(r) => {
            if get(source, r).is_none() {
                return;
            }
            r.start
        },
        None => {
            return;
        },
    };
    let indent = setext_title_indent_range(source, block);
    prepend_range(layout, source, &indent);
    let bytes = source.as_bytes();
    let nl: usize = at.saturating_sub(1);
    let line_break: Option<Range<usize>> = if nl < bytes.len() && bytes[nl] == LF {
        Some(nl..nl + 1)
    } else {
        None
    };
    append_range(layout, source, &line_break);
    append_range(layout, source, &under);
}

/// Where the content of a block starts.
pub open spec fn content_start(block: Block) -> usize {
    match first_start(block.inlines@) {
        Some(s) => s,
        None => block.source_range.start,
    }
}

/// Where the content of a block starts: the line whose prefix it is painted
/// with.
pub fn prefix_at(block: &Block) -> (at: usize)
    ensures
        at == content_start(*block),
{
    match first_inline_source_start(block) {
        Some(s) => s,
        None => block.source_range.start,
    }
}

/// `layout` with the shown block prefix of its first line. Table cells and
/// code blocks paint none.
pub open spec fn with_prefix(
    layout: LeafView,
    b: Seq<u8>,
    block: Block,
    parts: LinePrefixParts,
    state: RevealState,
    hosts: ChromeHosts,
) -> LeafView {
    if block.kind is TableCell || block.kind is CodeBlock {
        layout
    } else {
        with_front(layout, b, prefix::shown_prefix(b, parts, state, hosts))
    }
}

/// Paints the shown block prefix of the first line.
pub fn paint_prefix_chrome(
    block: &Block,
    source: &str,
    parts: &LinePrefixParts,
    state: &RevealState,
    hosts: &ChromeHosts,
    layout: &mut LeafLayout,
)
    ensures
        final(layout)@ == with_prefix(
            old(layout)@,
            encode_utf8(source@),
            *block,
            *parts,
            *state,
            *hosts,
        ),
        old(layout)@.mapped() ==> final(layout)@.mapped(),
        old(layout)@.tiled() ==> final(layout)@.tiled(),
{
    match &block.kind {
        BlockKind::TableCell => {
            return;
        },
        BlockKind::CodeBlock { .. } => {
            return;
        },
        _ => {},
    }
    let shown = revealed_prefix_range(source, parts, state, hosts);
    prepend_range(layout, source, &shown);
}

/// The block is a fenced code block.
pub open spec fn is_fenced(block: Block) -> bool {
    block.kind matches BlockKind::CodeBlock { fenced, .. } && fenced
}

fn fenced(block: &Block) -> (yes: bool)
    ensures
        yes == is_fenced(*block),
{
    match &block.kind {
        BlockKind::CodeBlock { fenced, .. } => *fenced,
        _ => false,
    }
}

/// Opening fence with its info string: what stands before the body.
pub open spec fn fence_open(b: Seq<u8>, block: Block, body: Range<usize>) -> Option<Range<usize>> {
    let start = bytes::least(block.source_range.start, b.len() as usize);
    if is_fenced(block) && start < body.start {
        Some(start..body.start)
    } else {
        None
    }
}

/// Closing fence: what stands behind the body, without its line end.
pub open spec fn fence_close(b: Seq<u8>, block: Block, body: Range<usize>) -> Option<Range<usize>> {
    let end = bytes::least(block.source_range.end, b.len() as usize);
    if is_fenced(block) && body.end < end && text::sliceable(b, (body.end..end)) {
        let stop = bytes::backward(b, end as int, body.end as int, ByteClass::Newline);
        if stop > body.end {
            Some(body.end..stop as usize)
        } else {
            None
        }
    } else {
        None
    }
}

/// Opening fence with its info string.
pub fn fence_open_range(source: &str, block: &Block, body: &Range<usize>) -> (range: Option<
    Range<usize>,
>)
    ensures
        range == fence_open(encode_utf8(source@), *block, *body),
{
    if !fenced(block) {
        return None;
    }
    let start: usize = lesser(block.source_range.start, byte_len(source));
    if body.start <= start {
        return None;
    }
    Some(start..body.start)
}

/// Closing fence, without its line end.
pub fn fence_close_range(source: &str, block: &Block, body: &Range<usize>) -> (range: Option<
    Range<usize>,
>)
    ensures
        range == fence_close(encode_utf8(source@), *block, *body),
{
    if !fenced(block) {
        return None;
    }
    let bytes = source.as_bytes();
    let end: usize = lesser(block.source_range.end, bytes.len());
    if body.end >= end || get(source, &(body.end..end)).is_none() {
        return None;
    }
    let stop: usize = skip_backward(bytes, end, body.end, ByteClass::Newline);
    if stop <= body.end {
        return None;
    }
    Some(body.end..stop)
}

/// `layout` with the fences of a revealed code block.
pub open spec fn with_fence(
    layout: LeafView,
    b: Seq<u8>,
    block: Block,
    body: Range<usize>,
    state: RevealState,
) -> LeafView {
    if b.len() > 0 && state.meets(block.source_range) {
        with_back(
            with_front(layout, b, fence_open(b, block, body)),
            b,
            fence_close(b, block, body),
        )
    } else {
        layout
    }
}

/// Paints the fences of a revealed code block.
pub fn paint_fence_chrome(
    block: &Block,
    source: &str,
    body: &Range<usize>,
    state: &RevealState,
    layout: &mut LeafLayout,
)
    requires
        old(layout)@.mapped(),
    ensures
        final(layout)@ == with_fence(old(layout)@, encode_utf8(source@), *block, *body, *state),
        final(layout)@.mapped(),
        old(layout)@.tiled() ==> final(layout)@.tiled(),
{
    if byte_len(source) == 0 || !state.intersects(&block.source_range) {
        return;
    }
    let open = fence_open_range(source, block, body);
    prepend_range(layout, source, &open);
    let close = fence_close_range(source, block, body);
    append_range(layout, source, &close);
}

/// Opening and closing fence (with the info string) when the caret or a
/// selection meets the code block. Apply after syntax highlighting, so that
/// those runs are not replaced.
pub fn apply_code_fence_reveal(
    layout: &mut LeafLayout,
    block: &Block,
    source: &str,
    body: &Range<usize>,
    state: &RevealState,
)
    requires
        old(layout)@.mapped(),
    ensures
        final(layout)@ == with_fence(old(layout)@, encode_utf8(source@), *block, *body, *state),
        final(layout)@.mapped(),
        old(layout)@.tiled() ==> final(layout)@.tiled(),
{
    paint_fence_chrome(block, source, body, state, layout);
}

/// A table cell without the pipes at its ends.
pub open spec fn cell_inner(b: Seq<u8>, cell: Range<usize>) -> Range<usize> {
    let start = bytes::least(cell.start, b.len() as usize) as int;
    let end = bytes::least(cell.end, b.len() as usize) as int;
    let inner = bytes::forward(b, start, end, ByteClass::Pipe);
    inner as usize..bytes::backward(b, end, inner, ByteClass::Pipe) as usize
}

/// The pipe before a cell that starts at `inner_start`, past blanks.
pub open spec fn leading_pipe(b: Seq<u8>, inner_start: usize) -> Option<Range<usize>> {
    let i = bytes::backward(
        b,
        bytes::least(inner_start, b.len() as usize) as int,
        0,
        ByteClass::Blank,
    );
    if i > 0 && b[i - 1] == PIPE {
        Some((i - 1) as usize..i as usize)
    } else {
        None
    }
}

/// The pipe after a cell that ends at `inner_end`, past blanks, when it is the
/// last of its line.
pub open spec fn trailing_pipe(b: Seq<u8>, inner_end: usize) -> Option<Range<usize>> {
    let j = bytes::forward(
        b,
        bytes::least(inner_end, b.len() as usize) as int,
        b.len() as int,
        ByteClass::Blank,
    );
    if j < b.len() && b[j] == PIPE && (j + 1 >= b.len() || b[j + 1] == LF || b[j + 1] == CR) {
        Some(j as usize..(j + 1) as usize)
    } else {
        None
    }
}

/// A table cell without the pipes at its ends.
pub fn cell_inner_range(source: &str, cell: &Block) -> (inner: Range<usize>)
    ensures
        inner == cell_inner(encode_utf8(source@), cell.source_range),
{
    let bytes = source.as_bytes();
    let start: usize = lesser(cell.source_range.start, bytes.len());
    let end: usize = lesser(cell.source_range.end, bytes.len());
    let inner: usize = skip_forward(bytes, start, end, ByteClass::Pipe);
    let stop: usize = skip_backward(bytes, end, inner, ByteClass::Pipe);
    inner..stop
}

/// The pipe before a cell that starts at `inner_start`.
pub fn cell_leading_pipe(source: &str, inner_start: usize) -> (pipe: Option<Range<usize>>)
    ensures
        pipe == leading_pipe(encode_utf8(source@), inner_start),
{
    let bytes = source.as_bytes();
    let i: usize = skip_backward(bytes, lesser(inner_start, bytes.len()), 0, ByteClass::Blank);
    if i == 0 || bytes[i - 1] != PIPE {
        return None;
    }
    Some(i - 1..i)
}

/// The pipe that ends the row after a cell that ends at `inner_end`.
pub fn cell_trailing_pipe(source: &str, inner_end: usize) -> (pipe: Option<Range<usize>>)
    ensures
        pipe == trailing_pipe(encode_utf8(source@), inner_end),
{
    let bytes = source.as_bytes();
    let j: usize = skip_forward(
        bytes,
        lesser(inner_end, bytes.len()),
        bytes.len(),
        ByteClass::Blank,
    );
    if j >= bytes.len() || bytes[j] != PIPE {
        return None;
    }
    let last = j + 1 >= bytes.len() || bytes[j + 1] == LF || bytes[j + 1] == CR;
    if last {
        Some(j..j + 1)
    } else {
        None
    }
}

/// `layout` with the pipes around a cell of a revealed table.
pub open spec fn with_pipes(
    layout: LeafView,
    b: Seq<u8>,
    block: Block,
    state: RevealState,
    hosts: ChromeHosts,
) -> LeafView {
    if block.kind is TableCell && b.len() > 0 && caret::host_meets(state, hosts.table) {
        let inner = cell_inner(b, block.source_range);
        with_front(
            with_back(layout, b, trailing_pipe(b, inner.end)),
            b,
            leading_pipe(b, inner.start),
        )
    } else {
        layout
    }
}

/// Paints the pipes around a cell of a revealed table.
pub fn paint_table_pipes(
    block: &Block,
    source: &str,
    state: &RevealState,
    hosts: &ChromeHosts,
    layout: &mut LeafLayout,
)
    requires
        old(layout)@.mapped(),
    ensures
        final(layout)@ == with_pipes(old(layout)@, encode_utf8(source@), *block, *state, *hosts),
        final(layout)@.mapped(),
        old(layout)@.tiled() ==> final(layout)@.tiled(),
{
    match &block.kind {
        BlockKind::TableCell => {},
        _ => {
            return;
        },
    }
    if byte_len(source) == 0 || !host_intersects(state, &hosts.table) {
        return;
    }
    let inner = cell_inner_range(source, block);
    let trail = cell_trailing_pipe(source, inner.end);
    append_range(layout, source, &trail);
    let lead = cell_leading_pipe(source, inner.start);
    prepend_range(layout, source, &lead);
}

/// `layout` with its block prefix, table pipes and fences.
pub open spec fn with_structure(
    layout: LeafView,
    b: Seq<u8>,
    block: Block,
    facts: BlockFacts,
    state: RevealState,
    hosts: ChromeHosts,
) -> LeafView {
    let prefixed = with_prefix(layout, b, block, facts.prefix, state, hosts);
    with_fence(
        with_pipes(prefixed, b, block, state, hosts),
        b,
        block,
        facts.code_body,
        state,
    )
}

/// Paints block prefix, table pipes and fences.
pub fn apply_structural_chrome(
    layout: &mut LeafLayout,
    block: &Block,
    facts: &BlockFacts,
    source: &str,
    state: &RevealState,
    hosts: &ChromeHosts,
)
    requires
        old(layout)@.mapped(),
    ensures
        final(layout)@ == with_structure(
            old(layout)@,
            encode_utf8(source@),
            *block,
            *facts,
            *state,
            *hosts,
        ),
        final(layout)@.mapped(),
        old(layout)@.tiled() ==> final(layout)@.tiled(),
{
    paint_prefix_chrome(block, source, &facts.prefix, state, hosts, layout);
    paint_table_pipes(block, source, state, hosts, layout);
    paint_fence_chrome(block, source, &facts.code_body, state, layout);
}

/// A block that neither the caret nor a selection meets, in containers that
/// they do not meet either, paints no structural chrome.
pub proof fn hidden_block_paints_no_chrome(
    layout: LeafView,
    b: Seq<u8>,
    block: Block,
    facts: BlockFacts,
    state: RevealState,
    hosts: ChromeHosts,
)
    requires
        !state.meets(block.source_range),
        prefix::quiet(facts.prefix, state, hosts),
        !caret::host_meets(state, hosts.table),
    ensures
        with_structure(
            with_setext(with_atx(layout, b, block, state), b, block, state),
            b,
            block,
            facts,
            state,
            hosts,
        ) == layout,
{
    prefix::quiet_line_shows_no_prefix(b, facts.prefix, state, hosts);
}

/// The start of the inlines is that of one of them, and none starts before it;
/// their end likewise.
pub proof fn inlines_start_and_end(inlines: Seq<Inline>, k: int)
    requires
        0 <= k < inlines.len(),
    ensures
        first_start(inlines) is Some,
        last_end(inlines) is Some,
        first_start(inlines)->0 <= inlines[k].span().start,
        last_end(inlines)->0 >= inlines[k].span().end,
        exists|j: int|
            0 <= j < inlines.len() && (#[trigger] inlines[j]).span().start
                == first_start(inlines)->0,
        exists|j: int|
            0 <= j < inlines.len() && (#[trigger] inlines[j]).span().end == last_end(inlines)->0,
    decreases inlines.len(),
{
    let rest = inlines.drop_last();
    let n = inlines.len() - 1;
    if n > 0 {
        inlines_start_and_end(
            rest,
            if k < n {
                k
            } else {
                0
            },
        );
        let a = choose|j: int|
            0 <= j < rest.len() && (#[trigger] rest[j]).span().start == first_start(rest)->0;
        let z = choose|j: int|
            0 <= j < rest.len() && (#[trigger] rest[j]).span().end == last_end(rest)->0;
        assert(inlines[a] == rest[a] && inlines[z] == rest[z]);
        if k < n {
            assert(inlines[k] == rest[k]);
        }
    }
    assert(inlines[n] == inlines.last());
}

/// All bytes of `b` from `i` to before `j` are `byte`.
pub open spec fn all_are(b: Seq<u8>, i: int, j: int, byte: u8) -> bool {
    forall|k: int| i <= k < j ==> #[trigger] b[k] == byte
}

/// The opening of an ATX heading is its hashes with the spaces around them, from
/// `p` up to the title at `c`: spaces up to `h`, hashes up to `t`, spaces up to
/// `c`.
pub proof fn atx_opens_with_its_hashes(b: Seq<u8>, block: Block, p: int, h: int, t: int, c: int)
    requires
        b.len() <= usize::MAX,
        block.kind is Heading,
        block.kind->Heading_style == HeadingStyle::Atx,
        first_start(block.inlines@) == Some(c as usize),
        block.source_range.start <= p <= h < t <= c <= block.source_range.end,
        c <= b.len(),
        all_are(b, p, h, 32),
        all_are(b, h, t, 35),
        all_are(b, t, c, 32),
        p == block.source_range.start || (b[p - 1] != 32 && b[p - 1] != 35),
    ensures
        atx_open(b, block) == Some(p as usize..c as usize),
{
    let lo = block.source_range.start as int;
    bytes::backward_starts_at(b, c, lo, ByteClass::Space, t);
    bytes::backward_starts_at(b, t, lo, ByteClass::Hash, h);
    bytes::backward_starts_at(b, h, lo, ByteClass::Space, p);
}

/// The closing of an ATX heading is the hashes behind its title, with the
/// spaces between: spaces up to `s`, hashes up to `t`.
pub proof fn atx_closes_with_its_hashes(b: Seq<u8>, block: Block, e: int, s: int, t: int)
    requires
        b.len() <= usize::MAX,
        block.kind is Heading,
        block.kind->Heading_style == HeadingStyle::Atx,
        last_end(block.inlines@) == Some(e as usize),
        0 <= e <= s < t <= block.source_range.end,
        t <= b.len(),
        all_are(b, e, s, 32),
        all_are(b, s, t, 35),
        t == block.source_range.end || t == b.len() || b[t] != 35,
    ensures
        atx_close(b, block) == Some(e as usize..t as usize),
{
    let hi = bytes::least(block.source_range.end, b.len() as usize) as int;
    assert(b[s] == 35);
    bytes::forward_ends_at(b, e, hi, ByteClass::Space, s);
    bytes::forward_ends_at(b, s, hi, ByteClass::Hash, t);
}

/// A heading whose title is followed by something else than hashes has no
/// closing.
pub proof fn titles_without_hashes_do_not_close(b: Seq<u8>, block: Block, e: int, s: int)
    requires
        b.len() <= usize::MAX,
        last_end(block.inlines@) == Some(e as usize),
        0 <= e <= s <= block.source_range.end,
        s <= b.len(),
        all_are(b, e, s, 32),
        s == block.source_range.end || s == b.len() || (b[s] != 35 && b[s] != 32),
    ensures
        atx_close(b, block) is None,
{
    let hi = bytes::least(block.source_range.end, b.len() as usize) as int;
    bytes::forward_ends_at(b, e, hi, ByteClass::Space, s);
}

/// The bytes of `r`, where there is a range.
pub open spec fn shown_bytes(b: Seq<u8>, r: Option<Range<usize>>) -> Seq<u8> {
    match r {
        Some(r) => b.subrange(r.start as int, r.end as int),
        None => Seq::empty(),
    }
}

/// `r`, where it is a range, selects whole characters.
pub open spec fn cuts(b: Seq<u8>, r: Option<Range<usize>>) -> bool {
    r matches Some(r) ==> r.start <= r.end && text::boundary(b, r.start as int) && text::boundary(
        b,
        r.end as int,
    )
}

proof fn lemma_front(layout: LeafView, b: Seq<u8>, r: Option<Range<usize>>)
    requires
        cuts(b, r),
    ensures
        with_front(layout, b, r).text == shown_bytes(b, r) + layout.text,
        layout.mapped() ==> with_front(layout, b, r).mapped(),
{
    assert(with_front(layout, b, r).text =~= shown_bytes(b, r) + layout.text);
}

proof fn lemma_back(layout: LeafView, b: Seq<u8>, r: Option<Range<usize>>)
    requires
        cuts(b, r),
    ensures
        with_back(layout, b, r).text == layout.text + shown_bytes(b, r),
{
    assert(with_back(layout, b, r).text =~= layout.text + shown_bytes(b, r));
}

/// Chrome is the source itself: in front of the text or behind it, byte by byte
/// at its own place in the source, and in the colour of delimiters.
pub proof fn chrome_is_source(layout: LeafView, b: Seq<u8>, r: Range<usize>)
    requires
        layout.mapped(),
        b.len() <= usize::MAX,
        cuts(b, Some(r)),
        r.start < r.end,
    ensures
        ({
            let n = r.end - r.start;
            let front = with_front(layout, b, Some(r));
            let back = with_back(layout, b, Some(r));
            let t = layout.text.len() as int;
            &&& front.text == b.subrange(r.start as int, r.end as int) + layout.text
            &&& forall|i: int| 0 <= i < n ==> #[trigger] front.source_at[i] == r.start + i
            &&& front.source_at.skip(n) == layout.source_at
            &&& front.runs[0].style.color is Delimiter && front.runs[0].len == n
            &&& back.text == layout.text + b.subrange(r.start as int, r.end as int)
            &&& forall|i: int| 0 <= i < n ==> #[trigger] back.source_at[t + i] == r.start + i
            &&& back.source_at[t + n] == r.end
            &&& back.runs.last().style.color is Delimiter && back.runs.last().len == n
        }),
{
    let s = b.subrange(r.start as int, r.end as int);
    layout::front_bytes_come_first(layout, s, r, RunStyle::delim());
    layout::back_bytes_come_last(layout, s, r, RunStyle::delim());
    lemma_front(layout, b, Some(r));
    lemma_back(layout, b, Some(r));
}

/// A revealed ATX heading shows its hashes around its title; one that is not
/// revealed, and any other block, is left as it is.
pub proof fn revealed_headings_show_their_hashes(
    layout: LeafView,
    b: Seq<u8>,
    block: Block,
    state: RevealState,
)
    requires
        b.len() > 0,
        cuts(b, atx_open(b, block)),
        cuts(b, atx_close(b, block)),
    ensures
        block.kind is Heading && block.kind->Heading_style == HeadingStyle::Atx && state.meets(
            block.source_range,
        ) ==> with_atx(layout, b, block, state).text == shown_bytes(b, atx_open(b, block))
            + layout.text + shown_bytes(b, atx_close(b, block)),
        !state.meets(block.source_range) ==> with_atx(layout, b, block, state) == layout,
        !(block.kind is Heading && block.kind->Heading_style == HeadingStyle::Atx) ==> with_atx(
            layout,
            b,
            block,
            state,
        ) == layout,
{
    lemma_front(layout, b, atx_open(b, block));
    lemma_back(with_front(layout, b, atx_open(b, block)), b, atx_close(b, block));
}

/// The underline of a setext heading is the dashes or equals signs on the line
/// below its title, without the quote marks and blanks before them: the title
/// ends at `e`, its line at `n`, the marks at `s`, the underline at `t`.
pub proof fn setext_is_underlined(b: Seq<u8>, block: Block, e: int, n: int, s: int, t: int)
    requires
        b.len() <= usize::MAX,
        block.kind is Heading,
        block.kind->Heading_style == HeadingStyle::Setext,
        last_end(block.inlines@) == Some(e as usize),
        0 <= e <= n < s < t <= block.source_range.end,
        t <= b.len(),
        forall|k: int| e <= k < n ==> #[trigger] b[k] == 32 || b[k] == 9 || b[k] == 13,
        b[n] == 10,
        forall|k: int| n < k < s ==> #[trigger] b[k] == 62 || b[k] == 32 || b[k] == 9,
        forall|k: int| s <= k < t ==> #[trigger] b[k] == 61 || b[k] == 45,
        t == block.source_range.end || t == b.len() || (b[t] != 61 && b[t] != 45),
    ensures
        setext_underline(b, block) == Some(s as usize..t as usize),
{
    let hi = bytes::least(block.source_range.end, b.len() as usize) as int;
    assert(b[s] == 61 || b[s] == 45);
    bytes::forward_ends_at(b, e, hi, ByteClass::LineRest, n);
    bytes::forward_ends_at(b, n + 1, hi, ByteClass::Quote, s);
    bytes::forward_ends_at(b, s, hi, ByteClass::Underline, t);
}

/// The indent of a setext title is the spaces right before it.
pub proof fn setext_titles_are_indented(b: Seq<u8>, block: Block, p: int, c: int)
    requires
        b.len() <= usize::MAX,
        block.kind is Heading,
        block.kind->Heading_style == HeadingStyle::Setext,
        first_start(block.inlines@) == Some(c as usize),
        block.source_range.start <= p < c <= b.len(),
        all_are(b, p, c, 32),
        p == block.source_range.start || b[p - 1] != 32,
    ensures
        setext_indent(b, block) == Some(p as usize..c as usize),
{
    bytes::backward_starts_at(b, c, block.source_range.start as int, ByteClass::Space, p);
}

/// A revealed setext heading shows its indent before the title and, on a line of
/// its own, the underline; one that is not revealed is left as it is.
pub proof fn revealed_headings_show_their_underline(
    layout: LeafView,
    b: Seq<u8>,
    block: Block,
    state: RevealState,
    under: Range<usize>,
)
    requires
        0 < b.len() <= usize::MAX,
        setext_underline(b, block) == Some(under),
        cuts(b, Some(under)),
        cuts(b, setext_indent(b, block)),
        under.start > 0,
        b[under.start - 1] == 10,
        text::boundary(b, under.start - 1),
    ensures
        state.meets(block.source_range) ==> with_setext(layout, b, block, state).text
            == shown_bytes(b, setext_indent(b, block)) + layout.text + seq![10u8] + b.subrange(
            under.start as int,
            under.end as int,
        ),
        !state.meets(block.source_range) ==> with_setext(layout, b, block, state) == layout,
{
    let indented = with_front(layout, b, setext_indent(b, block));
    let at = Some((under.start - 1) as usize..under.start);
    lemma_front(layout, b, setext_indent(b, block));
    lemma_back(indented, b, at);
    lemma_back(with_back(indented, b, at), b, Some(under));
    assert(b.subrange(under.start - 1, under.start as int) =~= seq![10u8]);
    assert(break_before(b, under.start) == at);
}

/// The fences of a code block are what stands before and behind its body, the
/// line ends at the very end left out.
pub proof fn fences_surround_the_body(b: Seq<u8>, block: Block, body: Range<usize>, stop: int)
    requires
        b.len() <= usize::MAX,
        block.kind is CodeBlock,
        block.kind->fenced,
        block.source_range.start < body.start,
        body.end < stop <= block.source_range.end,
        block.source_range.end <= b.len(),
        cuts(b, Some(body.end..block.source_range.end)),
        b[stop - 1] != 10 && b[stop - 1] != 13,
        forall|k: int| stop <= k < block.source_range.end ==> #[trigger] b[k] == 10 || b[k] == 13,
    ensures
        fence_open(b, block, body) == (if block.source_range.start < b.len() {
            Some(block.source_range.start..body.start)
        } else {
            fence_open(b, block, body)
        }),
        fence_close(b, block, body) == Some(body.end..stop as usize),
{
    bytes::backward_starts_at(
        b,
        block.source_range.end as int,
        body.end as int,
        ByteClass::Newline,
        stop,
    );
}

/// A revealed code block shows its fences around its text; one that is not
/// revealed is left as it is.
pub proof fn revealed_code_shows_its_fences(
    layout: LeafView,
    b: Seq<u8>,
    block: Block,
    body: Range<usize>,
    state: RevealState,
)
    requires
        b.len() > 0,
        cuts(b, fence_open(b, block, body)),
        cuts(b, fence_close(b, block, body)),
    ensures
        state.meets(block.source_range) ==> with_fence(layout, b, block, body, state).text
            == shown_bytes(b, fence_open(b, block, body)) + layout.text + shown_bytes(
            b,
            fence_close(b, block, body),
        ),
        !state.meets(block.source_range) ==> with_fence(layout, b, block, body, state) == layout,
        !(block.kind is CodeBlock && block.kind->fenced) ==> with_fence(
            layout,
            b,
            block,
            body,
            state,
        ) == layout,
{
    lemma_front(layout, b, fence_open(b, block, body));
    lemma_back(
        with_front(layout, b, fence_open(b, block, body)),
        b,
        fence_close(b, block, body),
    );
}

/// The pipe before a cell stands before the blanks ahead of it.
pub proof fn pipes_lead_their_cell(b: Seq<u8>, at: int, p: int)
    requires
        b.len() <= usize::MAX,
        0 <= p < at <= b.len(),
        b[p] == 124,
        forall|k: int| p < k < at ==> #[trigger] b[k] == 32 || b[k] == 9,
    ensures
        leading_pipe(b, at as usize) == Some(p as usize..(p + 1) as usize),
{
    bytes::backward_starts_at(b, at, 0, ByteClass::Blank, p + 1);
}

/// The pipe behind a cell counts where it is the last of its line.
pub proof fn pipes_end_their_row(b: Seq<u8>, at: int, p: int)
    requires
        b.len() <= usize::MAX,
        0 <= at <= p < b.len(),
        b[p] == 124,
        forall|k: int| at <= k < p ==> #[trigger] b[k] == 32 || b[k] == 9,
    ensures
        p + 1 == b.len() || b[p + 1] == 10 || b[p + 1] == 13 ==> trailing_pipe(b, at as usize)
            == Some(p as usize..(p + 1) as usize),
        p + 1 < b.len() && b[p + 1] != 10 && b[p + 1] != 13 ==> trailing_pipe(b, at as usize)
            is None,
{
    bytes::forward_ends_at(b, at, b.len() as int, ByteClass::Blank, p);
}

/// A cell is what lies between the pipes at its ends.
pub proof fn cells_lie_between_their_pipes(b: Seq<u8>, cell: Range<usize>, s: int, e: int)
    requires
        cell.start <= s < e <= cell.end <= b.len() <= usize::MAX,
        all_are(b, cell.start as int, s, 124),
        all_are(b, e, cell.end as int, 124),
        b[s] != 124,
        b[e - 1] != 124,
    ensures
        cell_inner(b, cell) == (s as usize..e as usize),
{
    bytes::forward_ends_at(b, cell.start as int, cell.end as int, ByteClass::Pipe, s);
    bytes::backward_starts_at(b, cell.end as int, s, ByteClass::Pipe, e);
}

/// The cells of a revealed table show the pipe before them, and the last one of
/// a row the pipe behind it too; elsewhere nothing is added.
pub proof fn revealed_tables_show_their_pipes(
    layout: LeafView,
    b: Seq<u8>,
    block: Block,
    state: RevealState,
    hosts: ChromeHosts,
)
    requires
        b.len() > 0,
        cuts(b, leading_pipe(b, cell_inner(b, block.source_range).start)),
        cuts(b, trailing_pipe(b, cell_inner(b, block.source_range).end)),
    ensures
        block.kind is TableCell && hosts.table is Some && state.meets(hosts.table->0)
            ==> with_pipes(layout, b, block, state, hosts).text == shown_bytes(
            b,
            leading_pipe(b, cell_inner(b, block.source_range).start),
        ) + layout.text + shown_bytes(
            b,
            trailing_pipe(b, cell_inner(b, block.source_range).end),
        ),
        !(block.kind is TableCell) ==> with_pipes(layout, b, block, state, hosts) == layout,
        hosts.table is None ==> with_pipes(layout, b, block, state, hosts) == layout,
        hosts.table is Some && !state.meets(hosts.table->0) ==> with_pipes(
            layout,
            b,
            block,
            state,
            hosts,
        ) == layout,
{
    let inner = cell_inner(b, block.source_range);
    let back = with_back(layout, b, trailing_pipe(b, inner.end));
    lemma_back(layout, b, trailing_pipe(b, inner.end));
    lemma_front(back, b, leading_pipe(b, inner.start));
    assert(shown_bytes(b, leading_pipe(b, inner.start)) + (layout.text + shown_bytes(
        b,
        trailing_pipe(b, inner.end),
    )) =~= shown_bytes(b, leading_pipe(b, inner.start)) + layout.text + shown_bytes(
        b,
        trailing_pipe(b, inner.end),
    ));
}

/// Which chrome a block has: the marker of its line, unless it is a cell or
/// code; pipes, if it is a cell; fences, if it is fenced code.
pub proof fn blocks_show_their_own_chrome(
    layout: LeafView,
    b: Seq<u8>,
    block: Block,
    facts: BlockFacts,
    state: RevealState,
    hosts: ChromeHosts,
    marker: Range<usize>,
)
    requires
        b.len() > 0,
        prefix::shown_prefix(b, facts.prefix, state, hosts) == Some(marker),
        cuts(b, Some(marker)),
    ensures
        ({
            let all = with_structure(layout, b, block, facts, state, hosts);
            &&& !(block.kind is TableCell) && !(block.kind is CodeBlock) ==> all.text == b.subrange(
                marker.start as int,
                marker.end as int,
            ) + layout.text
            &&& block.kind is TableCell ==> all == with_pipes(layout, b, block, state, hosts)
            &&& block.kind is CodeBlock ==> all == with_fence(
                layout,
                b,
                block,
                facts.code_body,
                state,
            )
        }),
{
    lemma_front(layout, b, Some(marker));
}

/// A block stands on the line where its text starts, or where it starts itself
/// if it has none.
pub proof fn content_starts_with_the_text(block: Block, k: int)
    ensures
        block.inlines@.len() == 0 ==> content_start(block) == block.source_range.start,
        0 <= k < block.inlines@.len() ==> content_start(block) <= block.inlines@[k].span().start,
{
    if 0 <= k < block.inlines@.len() {
        inlines_start_and_end(block.inlines@, k);
    }
}

/// Blocks that are no setext headings have neither underline nor indent, those
/// that are no ATX headings no hashes, and other blocks no fences.
pub proof fn other_blocks_have_no_marks(b: Seq<u8>, block: Block, body: Range<usize>)
    ensures
        !(block.kind is Heading && block.kind->Heading_style == HeadingStyle::Setext)
            ==> setext_underline(b, block) is None && setext_indent(b, block) is None,
        !(block.kind is Heading && block.kind->Heading_style == HeadingStyle::Atx) ==> atx_open(
            b,
            block,
        ) is None && atx_close(b, block) is None,
        !(block.kind is CodeBlock && block.kind->fenced) ==> fence_open(b, block, body) is None
            && fence_close(b, block, body) is None,
{
}

/// A setext heading without a title is underlined on its second line.
pub proof fn empty_titles_are_underlined(b: Seq<u8>, block: Block, n: int, s: int, t: int)
    requires
        b.len() <= usize::MAX,
        block.kind is Heading,
        block.kind->Heading_style == HeadingStyle::Setext,
        block.inlines@.len() == 0,
        block.source_range.start <= n < s < t <= block.source_range.end,
        t <= b.len(),
        forall|k: int|
            block.source_range.start <= k < n ==> #[trigger] b[k] == 32 || b[k] == 9 || b[k] == 13,
        b[n] == 10,
        forall|k: int| n < k < s ==> #[trigger] b[k] == 62 || b[k] == 32 || b[k] == 9,
        forall|k: int| s <= k < t ==> #[trigger] b[k] == 61 || b[k] == 45,
        t == block.source_range.end || t == b.len() || (b[t] != 61 && b[t] != 45),
    ensures
        setext_underline(b, block) == Some(s as usize..t as usize),
{
    let hi = bytes::least(block.source_range.end, b.len() as usize) as int;
    assert(b[s] == 61 || b[s] == 45);
    bytes::forward_ends_at(b, block.source_range.start as int, hi, ByteClass::LineRest, n);
    bytes::forward_ends_at(b, n + 1, hi, ByteClass::Quote, s);
    bytes::forward_ends_at(b, s, hi, ByteClass::Underline, t);
}

} // verus!
