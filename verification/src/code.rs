//! Code blocks: where the body starts, how syntax colors become runs, and what
//! a code block paints.

use std::ops::Range;

use vstd::prelude::*;
use vstd::string::*;
use vstd::utf8::*;

use crate::ascii::LF;
use crate::block_layout;
use crate::block_layout::build_code_block_layout;
use crate::bytes;
use crate::bytes::{greater, lesser};
use crate::caret::RevealState;
use crate::chrome;
use crate::chrome::apply_code_fence_reveal;
use crate::layout;
use crate::layout::{LeafLayout, LeafView, TextRun};
use crate::style::{code_run, RunColor, RunStyle};
use crate::text;
use crate::text::{at_boundary, byte_len, get, slice};
use crate::tree::{Block, BlockKind};

verus! {

/// A range of code bytes that a highlighter colored. Ranges may nest and
/// overlap.
#[derive(Debug, Clone, Copy, PartialEq, Eq, Structural)]
pub struct HighlightSpan {
    pub start: usize,
    pub end: usize,
    /// Which of the theme's syntax colors.
    pub kind: u32,
}

/// A text run of code. Code without a color of its own has the text color.
#[derive(Debug, Clone, Copy, PartialEq, Eq, Structural)]
pub struct CodeRun {
    pub len: usize,
    pub kind: Option<u32>,
}

/// The source offset at which the body of a fenced code block starts: behind
/// the first line of the block.
pub open spec fn body_start(source: Seq<u8>, range: Range<usize>) -> int {
    match text::slice_of(source, range) {
        Some(s) => if s.contains(LF) {
            range.start + s.index_of_first(LF)->0 + 1
        } else {
            range.start as int
        },
        None => range.start as int,
    }
}

/// The source offset at which the body of a fenced code block starts.
pub fn code_body_source_start(source: &str, range: &Range<usize>) -> (start: usize)
    ensures
        start == body_start(encode_utf8(source@), *range),
{
    let end: usize = byte_len(source);
    let slice = match get(source, range) {
        Some(slice) => slice,
        None => {
            return range.start;
        },
    };
    let b = slice.as_bytes();
    let mut i: usize = 0;
    while i < b.len()
        invariant
            i <= b@.len(),
            range.start <= range.end <= end,
            b@.len() == range.end - range.start,
            text::slice_of(encode_utf8(source@), *range) == Some(b@),
            forall|j: int| 0 <= j < i ==> b@[j] != LF,
        decreases b@.len() - i,
    {
        if b[i] == LF {
            proof {
                assert(b@.contains(b@[i as int]));
                b@.index_of_first_ensures(LF);
            }
            return range.start + i + 1;
        }
        i = i + 1;
    }
    range.start
}

/// A code literal without the line feed at its end.
pub open spec fn body_of(literal: Seq<u8>) -> Seq<u8> {
    if literal.len() > 0 && literal.last() == LF {
        literal.drop_last()
    } else {
        literal
    }
}

/// A code literal without the line feed at its end.
pub fn code_body<'a>(literal: &'a str) -> (body: &'a str)
    ensures
        encode_utf8(body@) == body_of(encode_utf8(literal@)),
{
    let b = literal.as_bytes();
    let n: usize = b.len();
    if n > 0 && b[n - 1] == LF {
        proof {
            text::lemma_boundary_ends(literal@);
            assert(!is_continuation_byte(LF));
        }
        let body = slice(literal, 0, n - 1);
        assert(b@.subrange(0, n - 1) =~= b@.drop_last());
        body
    } else {
        literal
    }
}

/// `a` comes no later than `b`: by start, then by end.
pub open spec fn no_later(a: HighlightSpan, b: HighlightSpan) -> bool {
    a.start < b.start || (a.start == b.start && a.end <= b.end)
}

/// The ordered `list` with `s` behind what comes no later.
pub open spec fn with_span(list: Seq<HighlightSpan>, s: HighlightSpan) -> Seq<HighlightSpan>
    decreases list.len(),
{
    if list.len() == 0 || no_later(list.last(), s) {
        list.push(s)
    } else {
        with_span(list.drop_last(), s).push(list.last())
    }
}

/// `spans` by start, then by end; equal ones in their order.
pub open spec fn ordered(spans: Seq<HighlightSpan>) -> Seq<HighlightSpan>
    decreases spans.len(),
{
    if spans.len() == 0 {
        Seq::empty()
    } else {
        with_span(ordered(spans.drop_last()), spans.last())
    }
}

fn insert_span(list: &mut Vec<HighlightSpan>, s: HighlightSpan)
    ensures
        final(list)@ == with_span(old(list)@, s),
{
    let ghost whole = list@;
    let mut k: usize = list.len();
    assert(whole.take(k as int) =~= whole);
    assert(with_span(whole, s) =~= with_span(whole.take(k as int), s) + whole.skip(k as int));
    while k > 0 && !(list[k - 1].start < s.start || (list[k - 1].start == s.start && list[k - 1].end
        <= s.end))
        invariant
            k <= whole.len(),
            list@ == whole,
            with_span(whole, s) == with_span(whole.take(k as int), s) + whole.skip(k as int),
        decreases k,
    {
        proof {
            let front = whole.take(k as int);
            assert(front.drop_last() =~= whole.take(k - 1));
            assert(front.last() == whole[k - 1]);
            assert(with_span(front, s) + whole.skip(k as int) =~= with_span(whole.take(k - 1), s)
                + whole.skip(k - 1));
        }
        k = k - 1;
    }
    proof {
        let front = whole.take(k as int);
        if k > 0 {
            assert(front.last() == whole[k - 1]);
        }
        assert(with_span(front, s) =~= front.push(s));
        assert(whole.insert(k as int, s) =~= front.push(s) + whole.skip(k as int));
    }
    list.insert(k, s);
}

/// Where the last of `out` ends.
pub open spec fn covered_to(out: Seq<HighlightSpan>) -> usize {
    if out.len() == 0 {
        0
    } else {
        out.last().end
    }
}

/// `out` with the part of `span` that lies behind it and inside the body, if
/// that is whole characters.
pub open spec fn with_visible(body: Seq<u8>, out: Seq<HighlightSpan>, span: HighlightSpan) -> Seq<
    HighlightSpan,
> {
    let n = body.len() as usize;
    let start = bytes::least(bytes::greatest(span.start, covered_to(out)), n);
    let end = bytes::least(span.end, n);
    if start < end && text::boundary(body, start as int) && text::boundary(body, end as int) {
        out.push(HighlightSpan { start, end, kind: span.kind })
    } else {
        out
    }
}

/// The visible parts of the first `n` of `spans`.
pub open spec fn visible_spans(body: Seq<u8>, spans: Seq<HighlightSpan>, n: int) -> Seq<
    HighlightSpan,
>
    decreases n,
{
    if n <= 0 {
        Seq::empty()
    } else {
        with_visible(body, visible_spans(body, spans, n - 1), spans[n - 1])
    }
}

/// Colored ranges of a code body: in order, apart from each other, and whole
/// characters. Of two that overlap, the later one is cut.
pub fn code_runs(body: &str, spans: &Vec<HighlightSpan>) -> (out: Vec<HighlightSpan>)
    ensures
        out@ == visible_spans(encode_utf8(body@), ordered(spans@), spans@.len() as int),
        apart(encode_utf8(body@), out@),
{
    let n: usize = byte_len(body);
    let mut list: Vec<HighlightSpan> = Vec::new();
    let mut k: usize = 0;
    assert(spans@.take(0) =~= Seq::<HighlightSpan>::empty());
    while k < spans.len()
        invariant
            k <= spans@.len(),
            list@ == ordered(spans@.take(k as int)),
            list@.len() == k,
        decreases spans@.len() - k,
    {
        assert(spans@.take(k + 1).drop_last() =~= spans@.take(k as int));
        proof {
            lemma_with_span_len(list@, spans@[k as int]);
        }
        insert_span(&mut list, spans[k]);
        k = k + 1;
    }
    assert(spans@.take(k as int) =~= spans@);
    let mut out: Vec<HighlightSpan> = Vec::new();
    let mut i: usize = 0;
    while i < list.len()
        invariant
            i <= list@.len(),
            n == encode_utf8(body@).len(),
            out@ == visible_spans(encode_utf8(body@), list@, i as int),
        decreases list@.len() - i,
    {
        let cursor: usize = if out.len() == 0 {
            0
        } else {
            out[out.len() - 1].end
        };
        let start: usize = lesser(greater(list[i].start, cursor), n);
        let end: usize = lesser(list[i].end, n);
        if start < end && at_boundary(body, start) && at_boundary(body, end) {
            out.push(HighlightSpan { start, end, kind: list[i].kind });
        }
        i = i + 1;
    }
    proof {
        lemma_visible_apart(encode_utf8(body@), list@, i as int);
    }
    out
}

proof fn lemma_with_span_len(list: Seq<HighlightSpan>, s: HighlightSpan)
    ensures
        with_span(list, s).len() == list.len() + 1,
    decreases list.len(),
{
    if list.len() > 0 && !no_later(list.last(), s) {
        lemma_with_span_len(list.drop_last(), s);
    }
}

/// `out` are non-empty ranges of whole characters of the body, in order and
/// apart from each other.
pub open spec fn apart(body: Seq<u8>, out: Seq<HighlightSpan>) -> bool {
    &&& forall|i: int|
        0 <= i < out.len() ==> (#[trigger] out[i]).start < out[i].end <= body.len()
            && text::boundary(body, out[i].start as int) && text::boundary(body, out[i].end as int)
    &&& forall|i: int, j: int| 0 <= i < j < out.len() ==> out[i].end <= out[j].start
}

proof fn lemma_visible_apart(body: Seq<u8>, spans: Seq<HighlightSpan>, n: int)
    requires
        body.len() <= usize::MAX,
    ensures
        apart(body, visible_spans(body, spans, n)),
    decreases n,
{
    if n > 0 {
        lemma_visible_apart(body, spans, n - 1);
        let before = visible_spans(body, spans, n - 1);
        let after = visible_spans(body, spans, n);
        assert forall|i: int, j: int| 0 <= i < j < after.len() implies after[i].end
            <= after[j].start by {
            if j == before.len() && i < before.len() - 1 {
                assert(before[i].end <= before[before.len() - 1].start);
            }
        }
    }
}

/// Runs and cursor after the first `n` of `highlights`.
pub open spec fn runs_upto(len: usize, highlights: Seq<HighlightSpan>, n: int) -> (
    Seq<CodeRun>,
    usize,
)
    decreases n,
{
    if n <= 0 {
        (Seq::empty(), 0)
    } else {
        let (runs, cursor) = runs_upto(len, highlights, n - 1);
        let h = highlights[n - 1];
        let start = bytes::least(bytes::greatest(h.start, cursor), len);
        let end = bytes::least(h.end, len);
        let gap = if start > cursor {
            runs.push(CodeRun { len: (start - cursor) as usize, kind: None })
        } else {
            runs
        };
        if start < end {
            (gap.push(CodeRun { len: (end - start) as usize, kind: Some(h.kind) }), end)
        } else {
            (gap, cursor)
        }
    }
}

/// The runs of a body of `len` bytes.
pub open spec fn runs_of(len: usize, highlights: Seq<HighlightSpan>) -> Seq<CodeRun> {
    let (runs, cursor) = runs_upto(len, highlights, highlights.len() as int);
    let all = if cursor < len {
        runs.push(CodeRun { len: (len - cursor) as usize, kind: None })
    } else {
        runs
    };
    if all.len() == 0 {
        seq![CodeRun { len, kind: None }]
    } else {
        all
    }
}

/// The runs of a code body: the colored ranges, and plain text between them.
pub fn text_runs_from_highlights(len: usize, highlights: &Vec<HighlightSpan>) -> (runs: Vec<
    CodeRun,
>)
    ensures
        runs@ == runs_of(len, highlights@),
{
    let mut runs: Vec<CodeRun> = Vec::new();
    let mut cursor: usize = 0;
    let mut k: usize = 0;
    while k < highlights.len()
        invariant
            k <= highlights@.len(),
            cursor <= len,
            (runs@, cursor) == runs_upto(len, highlights@, k as int),
        decreases highlights@.len() - k,
    {
        let h = highlights[k];
        let start: usize = lesser(greater(h.start, cursor), len);
        let end: usize = lesser(h.end, len);
        if start > cursor {
            runs.push(CodeRun { len: start - cursor, kind: None });
        }
        if start < end {
            runs.push(CodeRun { len: end - start, kind: Some(h.kind) });
            cursor = end;
        }
        k = k + 1;
    }
    if cursor < len {
        runs.push(CodeRun { len: len - cursor, kind: None });
    }
    if runs.len() == 0 {
        runs.push(CodeRun { len, kind: None });
        assert(runs@ =~= seq![CodeRun { len, kind: None }]);
    }
    runs
}

/// Total length of `runs`.
pub open spec fn total(runs: Seq<CodeRun>) -> int
    decreases runs.len(),
{
    if runs.len() == 0 {
        0
    } else {
        total(runs.drop_last()) + runs.last().len
    }
}

proof fn lemma_total_push(runs: Seq<CodeRun>, run: CodeRun)
    ensures
        total(runs.push(run)) == total(runs) + run.len,
{
    assert(runs.push(run).drop_last() =~= runs);
}

proof fn lemma_runs_cover(body: Seq<u8>, highlights: Seq<HighlightSpan>, n: int)
    requires
        body.len() <= usize::MAX,
        apart(body, highlights),
        0 <= n <= highlights.len(),
    ensures
        total(runs_upto(body.len() as usize, highlights, n).0) == runs_upto(
            body.len() as usize,
            highlights,
            n,
        ).1,
        runs_upto(body.len() as usize, highlights, n).1 == (if n == 0 {
            0
        } else {
            highlights[n - 1].end as int
        }),
    decreases n,
{
    let len = body.len() as usize;
    if n > 0 {
        lemma_runs_cover(body, highlights, n - 1);
        let (runs, cursor) = runs_upto(len, highlights, n - 1);
        let h = highlights[n - 1];
        if n > 1 {
            assert(highlights[n - 2].end <= highlights[n - 1].start);
        }
        let plain = CodeRun { len: (h.start - cursor) as usize, kind: None };
        let colored = CodeRun { len: (h.end - h.start) as usize, kind: Some(h.kind) };
        lemma_total_push(runs, plain);
        lemma_total_push(runs, colored);
        lemma_total_push(runs.push(plain), colored);
    }
}

/// The runs of a body and its colored ranges cover the body exactly.
pub proof fn code_runs_tile_body(body: Seq<u8>, highlights: Seq<HighlightSpan>)
    requires
        body.len() <= usize::MAX,
        apart(body, highlights),
    ensures
        total(runs_of(body.len() as usize, highlights)) == body.len(),
{
    let len = body.len() as usize;
    let n = highlights.len() as int;
    lemma_runs_cover(body, highlights, n);
    let (runs, cursor) = runs_upto(len, highlights, n);
    lemma_total_push(runs, CodeRun { len: (len - cursor) as usize, kind: None });
    assert(total(Seq::<CodeRun>::empty()) == 0);
    lemma_total_push(Seq::empty(), CodeRun { len, kind: None });
    assert(Seq::<CodeRun>::empty().push(CodeRun { len, kind: None }) =~= seq![
        CodeRun { len, kind: None },
    ]);
}

/// A run of code as it is painted.
pub open spec fn painted_run(run: CodeRun) -> TextRun {
    TextRun {
        len: run.len,
        style: RunStyle {
            color: match run.kind {
                Some(kind) => RunColor::Syntax(kind),
                None => RunColor::Inherit,
            },
            ..RunStyle::code()
        },
    }
}

/// The layout of `body` in the colors of a highlighter that found `spans`.
/// Without colors, or without a body, it keeps its own runs.
pub open spec fn highlighted_view(
    view: LeafView,
    body: Seq<u8>,
    spans: Seq<HighlightSpan>,
) -> LeafView {
    let colors = visible_spans(body, ordered(spans), spans.len() as int);
    if body.len() == 0 || colors.len() == 0 {
        view
    } else {
        LeafView {
            runs: runs_of(body.len() as usize, colors).map_values(
                |run: CodeRun| painted_run(run),
            ),
            ..view
        }
    }
}

/// Layout of the code block `block`, whose literal is `literal`: its body, which
/// stands at `code_body` and maps to source by `source_map`, in its syntax
/// colors, between its fences when it is revealed.
pub open spec fn code_leaf(
    literal: Seq<u8>,
    b: Seq<u8>,
    block: Block,
    code_body: Range<usize>,
    source_map: Seq<usize>,
    spans: Seq<HighlightSpan>,
    state: RevealState,
) -> LeafView {
    let body = body_of(literal);
    let plain = block_layout::code_view(body, source_map, code_body.start);
    chrome::with_fence(highlighted_view(plain, body, spans), b, block, code_body, state)
}

proof fn lemma_painted_total(runs: Seq<CodeRun>)
    ensures
        layout::run_total(runs.map_values(|run: CodeRun| painted_run(run))) == total(runs),
    decreases runs.len(),
{
    if runs.len() > 0 {
        lemma_painted_total(runs.drop_last());
        assert(runs.map_values(|run: CodeRun| painted_run(run)).drop_last()
            =~= runs.drop_last().map_values(|run: CodeRun| painted_run(run)));
    }
}

/// Paints the layout of `body` in the colors of a highlighter.
fn highlight(layout: &mut LeafLayout, body: &str, spans: &Vec<HighlightSpan>)
    ensures
        final(layout)@ == highlighted_view(old(layout)@, encode_utf8(body@), spans@),
        final(layout)@.text == old(layout)@.text,
        final(layout)@.source_at == old(layout)@.source_at,
        old(layout)@.tiled() && old(layout)@.text == encode_utf8(body@) ==> final(layout)@.tiled(),
{
    let colors = code_runs(body, spans);
    let n: usize = byte_len(body);
    if n == 0 || colors.len() == 0 {
        return;
    }
    let runs = text_runs_from_highlights(n, &colors);
    let ghost goal = runs@.map_values(|run: CodeRun| painted_run(run));
    let mut painted: Vec<TextRun> = Vec::new();
    let mut k: usize = 0;
    while k < runs.len()
        invariant
            k <= runs@.len(),
            goal == runs@.map_values(|run: CodeRun| painted_run(run)),
            painted@ =~= goal.take(k as int),
        decreases runs@.len() - k,
    {
        let mut style = code_run();
        if let Some(kind) = runs[k].kind {
            style.color = RunColor::Syntax(kind);
        }
        painted.push(TextRun { len: runs[k].len, style });
        k = k + 1;
    }
    assert(painted@ =~= goal);
    proof {
        code_runs_tile_body(encode_utf8(body@), colors@);
        lemma_painted_total(runs@);
    }
    layout.runs = painted;
}

/// Layout of a code block: its text, its source map, and the runs of its body
/// and its fences. `None` for any other block.
pub fn build_code_leaf(
    block: &Block,
    source: &str,
    code_body: &Range<usize>,
    source_map: Vec<usize>,
    spans: &Vec<HighlightSpan>,
    state: &RevealState,
) -> (leaf: Option<LeafLayout>)
    ensures
        leaf is Some <==> block.kind is CodeBlock,
        leaf matches Some(l) ==> {
            let literal = encode_utf8(block.kind->literal@);
            &&& l@ == code_leaf(
                literal,
                encode_utf8(source@),
                *block,
                *code_body,
                source_map@,
                spans@,
                *state,
            )
            &&& l@.mapped()
            &&& body_of(literal).len() > 0 ==> l@.tiled()
        },
{
    let literal = match &block.kind {
        BlockKind::CodeBlock { literal, .. } => literal,
        _ => {
            return None;
        },
    };
    let body = self::code_body(literal.as_str());
    let mut layout = build_code_block_layout(body, source_map, code_body);
    proof {
        let runs = layout@.runs;
        assert(layout.source_at.len() == layout@.source_at.len());
        assert(runs.drop_last() =~= Seq::<TextRun>::empty());
        assert(layout::run_total(runs.drop_last()) == 0);
    }
    highlight(&mut layout, body, spans);
    apply_code_fence_reveal(&mut layout, block, source, code_body, state);
    Some(layout)
}

/// The body of code starts behind the first line end of its source.
pub proof fn bodies_start_on_the_second_line(source: Seq<u8>, range: Range<usize>, n: int)
    requires
        text::sliceable(source, range),
        range.start <= n < range.end,
        source[n] == 10,
        forall|k: int| range.start <= k < n ==> #[trigger] source[k] != 10,
    ensures
        body_start(source, range) == n + 1,
{
    let s = source.subrange(range.start as int, range.end as int);
    let d = n - range.start;
    assert(s[d] == 10);
    assert(s.contains(10));
    s.index_of_first_ensures(10);
    let f = s.index_of_first(10)->0;
    if f < d {
        assert(source[range.start + f] == 10);
    }
}

/// Source without a line end is all body.
pub proof fn single_lines_are_all_body(source: Seq<u8>, range: Range<usize>)
    requires
        range.end <= source.len(),
        forall|k: int| range.start <= k < range.end ==> #[trigger] source[k] != 10,
    ensures
        body_start(source, range) == range.start,
{
    if text::sliceable(source, range) {
        let s = source.subrange(range.start as int, range.end as int);
        if s.contains(10) {
            let k = choose|k: int| 0 <= k < s.len() && s[k] == 10;
            assert(source[range.start + k] == 10);
        }
    }
}

/// The body of code is its text without the line end at its end.
pub proof fn bodies_lose_one_line_end(s: Seq<u8>)
    ensures
        body_of(s.push(10)) == s,
        s.len() == 0 || s.last() != 10 ==> body_of(s) == s,
{
    assert(s.push(10).drop_last() =~= s);
}

proof fn lemma_span_multiset(list: Seq<HighlightSpan>, s: HighlightSpan)
    ensures
        with_span(list, s).to_multiset() =~= list.to_multiset().insert(s),
    decreases list.len(),
{
    broadcast use vstd::seq_lib::group_to_multiset_ensures;

    if list.len() > 0 && !no_later(list.last(), s) {
        lemma_span_multiset(list.drop_last(), s);
        assert(list =~= list.drop_last().push(list.last()));
    }
}

/// `list` is ordered by start, then by end.
pub open spec fn in_order(list: Seq<HighlightSpan>) -> bool {
    forall|i: int, j: int|
        0 <= i < j < list.len() ==> (#[trigger] list[i]).start < (#[trigger] list[j]).start || (
        list[i].start == list[j].start && list[i].end <= list[j].end)
}

proof fn lemma_span_order(list: Seq<HighlightSpan>, s: HighlightSpan)
    requires
        in_order(list),
    ensures
        in_order(with_span(list, s)),
        with_span(list, s).last() == s || (list.len() > 0 && with_span(list, s).last()
            == list.last()),
        list.len() > 0 && !no_later(list.last(), s) ==> with_span(list, s).last() == list.last(),
        with_span(list, s).len() == list.len() + 1,
    decreases list.len(),
{
    let t = with_span(list, s);
    if list.len() > 0 && !no_later(list.last(), s) {
        let front = list.drop_last();
        lemma_span_order(front, s);
        let u = with_span(front, s);
        let n = u.len() as int;
        assert forall|i: int, j: int| 0 <= i < j < t.len() implies (#[trigger] t[i]).start < (
        #[trigger] t[j]).start || (t[i].start == t[j].start && t[i].end <= t[j].end) by {
            assert(t[i] == u[i]);
            if j < n {
                assert(t[j] == u[j]);
            } else {
                assert(u[n - 1] == u.last());
                if front.len() > 0 {
                    assert(list[front.len() - 1] == front.last());
                }
            }
        }
    } else {
        assert forall|i: int, j: int| 0 <= i < j < t.len() implies (#[trigger] t[i]).start < (
        #[trigger] t[j]).start || (t[i].start == t[j].start && t[i].end <= t[j].end) by {
            if j == list.len() {
                assert(list[list.len() - 1] == list.last());
                assert(t[i] == list[i]);
            } else {
                assert(t[i] == list[i] && t[j] == list[j]);
            }
        }
    }
}

/// Ordering the spans loses none and adds none, and puts each behind those that
/// start, or start alike and end, before it.
pub proof fn ordering_keeps_all_spans(spans: Seq<HighlightSpan>)
    ensures
        ordered(spans).to_multiset() =~= spans.to_multiset(),
        in_order(ordered(spans)),
        ordered(spans).len() == spans.len(),
    decreases spans.len(),
{
    broadcast use vstd::seq_lib::group_to_multiset_ensures;

    if spans.len() > 0 {
        ordering_keeps_all_spans(spans.drop_last());
        lemma_span_multiset(ordered(spans.drop_last()), spans.last());
        lemma_span_order(ordered(spans.drop_last()), spans.last());
        assert(spans =~= spans.drop_last().push(spans.last()));
    } else {
        assert(spans =~= Seq::<HighlightSpan>::empty());
    }
}

/// Highlights that stay clear of each other and of the ends of the body are all
/// shown as they are.
pub proof fn clear_highlights_are_all_shown(body: Seq<u8>, spans: Seq<HighlightSpan>, n: int)
    requires
        body.len() <= usize::MAX,
        apart(body, spans),
        0 <= n <= spans.len(),
    ensures
        visible_spans(body, spans, n) == spans.take(n),
    decreases n,
{
    if n > 0 {
        clear_highlights_are_all_shown(body, spans, n - 1);
        let out = visible_spans(body, spans, n - 1);
        let s = spans[n - 1];
        if n > 1 {
            assert(spans[n - 2].end <= spans[n - 1].start);
            assert(out.last() == spans[n - 2]);
        }
        assert(spans.take(n) =~= spans.take(n - 1).push(s));
    } else {
        assert(spans.take(0) =~= Seq::<HighlightSpan>::empty());
    }
}

/// What is shown of the highlights lies in one of them and has its color, starts
/// behind the one before, and reaches to its end or that of the body.
pub proof fn shown_highlights_are_parts(body: Seq<u8>, spans: Seq<HighlightSpan>, n: int, k: int)
    requires
        body.len() <= usize::MAX,
        0 <= n <= spans.len(),
        0 <= k < visible_spans(body, spans, n).len(),
    ensures
        ({
            let out = visible_spans(body, spans, n);
            &&& out[k].start < out[k].end <= body.len()
            &&& k > 0 ==> out[k - 1].end <= out[k].start
            &&& exists|i: int|
                0 <= i < n && (#[trigger] spans[i]).kind == out[k].kind && spans[i].start
                    <= out[k].start && (out[k].end == spans[i].end || (out[k].end == body.len()
                    && spans[i].end >= body.len())) && (out[k].start == spans[i].start || (k > 0
                    && out[k].start == out[k - 1].end))
        }),
    decreases n,
{
    let out = visible_spans(body, spans, n);
    let rest = visible_spans(body, spans, n - 1);
    if k < rest.len() {
        shown_highlights_are_parts(body, spans, n - 1, k);
        assert(out[k] == rest[k]);
        assert(k > 0 ==> out[k - 1] == rest[k - 1]);
    } else {
        assert(spans[n - 1].kind == out[k].kind);
        assert(k > 0 ==> out[k - 1] == rest[k - 1] && rest[k - 1] == rest.last());
    }
}

/// The color of the byte `k` of runs that follow each other from the start.
pub open spec fn kind_at(runs: Seq<CodeRun>, k: int) -> Option<u32>
    decreases runs.len(),
{
    if runs.len() == 0 {
        None
    } else if k >= total(runs.drop_last()) {
        runs.last().kind
    } else {
        kind_at(runs.drop_last(), k)
    }
}

proof fn lemma_kind_push(runs: Seq<CodeRun>, run: CodeRun, k: int)
    ensures
        k < total(runs) ==> kind_at(runs.push(run), k) == kind_at(runs, k),
        total(runs) <= k ==> kind_at(runs.push(run), k) == run.kind,
{
    assert(runs.push(run).drop_last() =~= runs);
}

proof fn lemma_runs_color(body: Seq<u8>, h: Seq<HighlightSpan>, n: int, k: int)
    requires
        body.len() <= usize::MAX,
        apart(body, h),
        0 <= n <= h.len(),
        0 <= k < runs_upto(body.len() as usize, h, n).1,
    ensures
        forall|i: int|
            0 <= i < n && (#[trigger] h[i]).start <= k < h[i].end ==> kind_at(
                runs_upto(body.len() as usize, h, n).0,
                k,
            ) == Some(h[i].kind),
        (forall|i: int| 0 <= i < n ==> !((#[trigger] h[i]).start <= k < h[i].end)) ==> kind_at(
            runs_upto(body.len() as usize, h, n).0,
            k,
        ) is None,
    decreases n,
{
    let len = body.len() as usize;
    if n > 0 {
        let (runs, cursor) = runs_upto(len, h, n - 1);
        let s = h[n - 1];
        lemma_runs_cover(body, h, n - 1);
        if n > 1 {
            assert(h[n - 2].end <= h[n - 1].start);
        }
        let gap_run = CodeRun { len: (s.start - cursor) as usize, kind: None };
        let gap = if s.start > cursor {
            runs.push(gap_run)
        } else {
            runs
        };
        let last = CodeRun { len: (s.end - s.start) as usize, kind: Some(s.kind) };
        assert(runs_upto(len, h, n).0 == gap.push(last));
        lemma_total_push(runs, gap_run);
        lemma_kind_push(runs, gap_run, k);
        lemma_kind_push(gap, last, k);
        assert(total(gap) == s.start);
        assert forall|i: int| 0 <= i < n - 1 implies (#[trigger] h[i]).end <= cursor by {
            if i < n - 2 {
                assert(h[i].end <= h[n - 2].start);
            }
        }
        if k < cursor {
            lemma_runs_color(body, h, n - 1, k);
        }
    }
}

/// Every byte of the body has the color of the highlight it lies in, and no
/// color where it lies in none.
pub proof fn bytes_have_the_color_of_their_highlight(
    body: Seq<u8>,
    highlights: Seq<HighlightSpan>,
    k: int,
)
    requires
        body.len() <= usize::MAX,
        apart(body, highlights),
        0 <= k < body.len(),
    ensures
        forall|i: int|
            0 <= i < highlights.len() && (#[trigger] highlights[i]).start <= k < highlights[i].end
                ==> kind_at(runs_of(body.len() as usize, highlights), k) == Some(
                highlights[i].kind,
            ),
        (forall|i: int|
            0 <= i < highlights.len() ==> !((#[trigger] highlights[i]).start <= k
                < highlights[i].end)) ==> kind_at(runs_of(body.len() as usize, highlights), k)
            is None,
{
    let len = body.len() as usize;
    let n = highlights.len() as int;
    let (runs, cursor) = runs_upto(len, highlights, n);
    lemma_runs_cover(body, highlights, n);
    let last = CodeRun { len: (len - cursor) as usize, kind: None };
    lemma_kind_push(runs, last, k);
    assert forall|i: int| 0 <= i < n implies (#[trigger] highlights[i]).end <= cursor by {
        if i < n - 1 {
            assert(highlights[i].end <= highlights[n - 1].start);
        }
    }
    if k < cursor {
        lemma_runs_color(body, highlights, n, k);
    }
}

/// Highlighting colors the text of code and leaves all else: its text, its
/// source and its font.
pub proof fn highlighting_only_colors(
    view: LeafView,
    body: Seq<u8>,
    spans: Seq<HighlightSpan>,
    run: CodeRun,
)
    ensures
        highlighted_view(view, body, spans).text == view.text,
        highlighted_view(view, body, spans).source_at == view.source_at,
        highlighted_view(view, body, spans).block_start == view.block_start,
        spans.len() == 0 ==> highlighted_view(view, body, spans) == view,
        painted_run(run).len == run.len,
        painted_run(run).style.code_font,
        run.kind matches Some(kind) ==> painted_run(run).style.color == RunColor::Syntax(kind),
        run.kind is None ==> painted_run(run).style.color is Inherit,
        !painted_run(run).style.italic && !painted_run(run).style.strike,
{
}

/// Code shows its body, and nothing else while it is not revealed.
pub proof fn code_shows_its_body(
    literal: Seq<u8>,
    b: Seq<u8>,
    block: Block,
    code_body: Range<usize>,
    source_map: Seq<usize>,
    spans: Seq<HighlightSpan>,
    state: RevealState,
)
    ensures
        !state.meets(block.source_range) ==> code_leaf(
            literal,
            b,
            block,
            code_body,
            source_map,
            spans,
            state,
        ).text == body_of(literal),
{
}

/// Code that is not revealed maps its text as it is told, starts where its body
/// starts, and is empty where its body is.
pub proof fn code_stands_for_its_body(
    literal: Seq<u8>,
    b: Seq<u8>,
    block: Block,
    code_body: Range<usize>,
    source_map: Seq<usize>,
    spans: Seq<HighlightSpan>,
    state: RevealState,
    k: int,
)
    requires
        !state.meets(block.source_range),
    ensures
        ({
            let view = code_leaf(literal, b, block, code_body, source_map, spans, state);
            let body = body_of(literal);
            &&& view.block_start == code_body.start
            &&& body.len() > 0 && 0 <= k <= body.len() && k < source_map.len() ==> view.source_at[k]
                == source_map[k]
            &&& body.len() == 0 && source_map.len() > 0 ==> view.source_at == seq![source_map[0]]
            &&& body.len() == 0 && source_map.len() == 0 ==> view.source_at == seq![
                code_body.start,
            ]
        }),
{
}

} // verus!
