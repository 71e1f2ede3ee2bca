//! Inline HTML tags: how they pair up and which tag source a caret reveals.

use std::ops::Range;

use vstd::prelude::*;

use crate::caret::RevealState;
use crate::layout;
use crate::layout::range_len;
use crate::spans;
use crate::text::dup;
use crate::tree::{HtmlRevealKind, Inline, InlineFacts};

verus! {

/// An opening tag with its closing tag, or with the place where it was cut
/// off.
#[derive(Debug, PartialEq, Eq)]
pub struct HtmlPaintPair {
    pub span: Range<usize>,
    pub open: Range<usize>,
    pub close: Range<usize>,
    pub open_i: usize,
    pub close_i: Option<usize>,
}

/// A tag that stands alone.
#[derive(Debug, PartialEq, Eq)]
pub struct HtmlSoloChrome {
    pub range: Range<usize>,
    pub inline_i: usize,
}

/// The tags of a leaf.
#[derive(Debug, PartialEq, Eq)]
pub struct HtmlPaintGroups {
    pub pairs: Vec<HtmlPaintPair>,
    pub solos: Vec<HtmlSoloChrome>,
}

/// An opening tag that is not closed yet.
pub struct OpenTag {
    pub name: Seq<char>,
    pub inline_i: usize,
    pub range: Range<usize>,
}

/// Tags read so far.
#[verifier::ext_equal]
pub struct TagScan {
    pub stack: Seq<OpenTag>,
    pub pairs: Seq<HtmlPaintPair>,
    pub solos: Seq<HtmlSoloChrome>,
    /// Where the source read so far ends.
    pub last_end: usize,
}

/// `tag` cut off at `at`, where something else ended first.
pub open spec fn cut_off(tag: OpenTag, at: usize) -> HtmlPaintPair {
    HtmlPaintPair {
        span: tag.range.start..end_after(at, tag.range),
        open: tag.range,
        close: at..at,
        open_i: tag.inline_i,
        close_i: None,
    }
}

/// `tag` closed by the tag at `range`, inline `i`.
pub open spec fn closed_by(tag: OpenTag, range: Range<usize>, i: usize) -> HtmlPaintPair {
    HtmlPaintPair {
        span: tag.range.start..range.end,
        open: tag.range,
        close: range,
        open_i: tag.inline_i,
        close_i: Some(i),
    }
}

impl TagScan {
    /// Before the first inline.
    pub open spec fn start() -> TagScan {
        TagScan {
            stack: Seq::empty(),
            pairs: Seq::empty(),
            solos: Seq::empty(),
            last_end: 0,
        }
    }

    /// After a closing tag `name`: it closes the nearest open tag of its name
    /// and cuts off those inside; with no such tag it cuts off all and stands
    /// alone.
    pub open spec fn close(self, name: Seq<char>, range: Range<usize>, i: usize) -> TagScan
        decreases self.stack.len(),
    {
        if self.stack.len() == 0 {
            TagScan { solos: self.solos.push(HtmlSoloChrome { range, inline_i: i }), ..self }
        } else {
            let top = self.stack.last();
            if top.name == name {
                TagScan {
                    stack: self.stack.drop_last(),
                    pairs: self.pairs.push(closed_by(top, range, i)),
                    ..self
                }
            } else {
                TagScan {
                    stack: self.stack.drop_last(),
                    pairs: self.pairs.push(cut_off(top, range.start)),
                    ..self
                }.close(name, range, i)
            }
        }
    }

    /// After inline `i`.
    pub open spec fn read(self, inline: Inline, facts: InlineFacts, i: usize) -> TagScan {
        let range = inline.span();
        let here = TagScan { last_end: end_after(self.last_end, range), ..self };
        match inline {
            Inline::OpaqueInline { .. } => match facts.tag {
                HtmlRevealKind::Open(name) => TagScan {
                    stack: here.stack.push(OpenTag { name: name@, inline_i: i, range }),
                    ..here
                },
                HtmlRevealKind::Close(name) => here.close(name@, range, i),
                HtmlRevealKind::Solo => TagScan {
                    solos: here.solos.push(HtmlSoloChrome { range, inline_i: i }),
                    ..here
                },
                HtmlRevealKind::Skip => here,
            },
            _ => here,
        }
    }

    /// All pairs, once the end of the leaf has cut off the tags still open.
    pub open spec fn all_pairs(self) -> Seq<HtmlPaintPair> {
        self.pairs + self.stack.map_values(|tag: OpenTag| cut_off(tag, self.last_end))
    }
}

/// The later of `end` and the end of `range`.
pub open spec fn end_after(end: usize, range: Range<usize>) -> usize {
    if end >= range.end {
        end
    } else {
        range.end
    }
}

/// The tags of the first `n` inlines.
pub open spec fn scan(inlines: Seq<Inline>, facts: Seq<InlineFacts>, n: int) -> TagScan
    decreases n,
{
    if n <= 0 {
        TagScan::start()
    } else {
        scan(inlines, facts, n - 1).read(inlines[n - 1], facts[n - 1], (n - 1) as usize)
    }
}

impl HtmlPaintGroups {
    /// These are the tags of `inlines`.
    pub open spec fn are_tags_of(&self, inlines: Seq<Inline>, facts: Seq<InlineFacts>) -> bool {
        let end = scan(inlines, facts, inlines.len() as int);
        self.pairs@ == end.all_pairs() && self.solos@ == end.solos
    }
}

spec fn stack_view(stack: Seq<(String, usize, Range<usize>)>) -> Seq<OpenTag> {
    stack.map_values(
        |t: (String, usize, Range<usize>)| OpenTag { name: t.0@, inline_i: t.1, range: t.2 },
    )
}

/// The pair of a tag that is cut off at `at`.
fn cut_pair(inline_i: usize, range: &Range<usize>, at: usize) -> (pair: HtmlPaintPair)
    ensures
        forall|name: Seq<char>|
            pair == #[trigger] cut_off(OpenTag { name, inline_i, range: *range }, at),
{
    let end: usize = if at >= range.end {
        at
    } else {
        range.end
    };
    HtmlPaintPair {
        span: range.start..end,
        open: dup(range),
        close: at..at,
        open_i: inline_i,
        close_i: None,
    }
}

/// Pairs up the inline HTML tags of a leaf.
pub fn collect_html_groups(inlines: &[Inline], facts: &[InlineFacts]) -> (groups: HtmlPaintGroups)
    requires
        inlines@.len() == facts@.len(),
    ensures
        groups.are_tags_of(inlines@, facts@),
{
    let mut stack: Vec<(String, usize, Range<usize>)> = Vec::new();
    let mut pairs: Vec<HtmlPaintPair> = Vec::new();
    let mut solos: Vec<HtmlSoloChrome> = Vec::new();
    let mut last_end: usize = 0;
    let mut i: usize = 0;
    assert(stack_view(stack@) =~= Seq::<OpenTag>::empty());
    while i < inlines.len()
        invariant
            i <= inlines@.len(),
            inlines@.len() == facts@.len(),
            scan(inlines@, facts@, i as int) == (TagScan {
                stack: stack_view(stack@),
                pairs: pairs@,
                solos: solos@,
                last_end,
            }),
        decreases inlines@.len() - i,
    {
        let range = inlines[i].source_range();
        if range.end > last_end {
            last_end = range.end;
        }
        if let Inline::OpaqueInline { .. } = &inlines[i] {
            match &facts[i].tag {
                HtmlRevealKind::Open(name) => {
                    let ghost before = stack@;
                    stack.push((name.clone(), i, range));
                    assert(stack_view(stack@) =~= stack_view(before).push(
                        OpenTag { name: name@, inline_i: i, range },
                    ));
                },
                HtmlRevealKind::Close(name) => {
                    let ghost goal = TagScan {
                        stack: stack_view(stack@),
                        pairs: pairs@,
                        solos: solos@,
                        last_end,
                    }.close(name@, range, i);
                    let mut matched = false;
                    while !matched && stack.len() > 0
                        invariant
                            range == inlines@[i as int].span(),
                            matched ==> goal == (TagScan {
                                stack: stack_view(stack@),
                                pairs: pairs@,
                                solos: solos@,
                                last_end,
                            }),
                            !matched ==> goal == (TagScan {
                                stack: stack_view(stack@),
                                pairs: pairs@,
                                solos: solos@,
                                last_end,
                            }).close(name@, range, i),
                        decreases stack.len(),
                    {
                        let ghost before = stack@;
                        let top = stack.pop();
                        assert(stack_view(before).drop_last() =~= stack_view(stack@));
                        if let Some((open_name, open_i, open_r)) = top {
                            assert(stack_view(before).last() == (OpenTag {
                                name: open_name@,
                                inline_i: open_i,
                                range: open_r,
                            }));
                            if open_name == *name {
                                pairs.push(
                                    HtmlPaintPair {
                                        span: open_r.start..range.end,
                                        open: open_r,
                                        close: dup(&range),
                                        open_i,
                                        close_i: Some(i),
                                    },
                                );
                                matched = true;
                            } else {
                                pairs.push(cut_pair(open_i, &open_r, range.start));
                            }
                        }
                    }
                    if !matched {
                        solos.push(HtmlSoloChrome { range, inline_i: i });
                    }
                },
                HtmlRevealKind::Solo => {
                    solos.push(HtmlSoloChrome { range, inline_i: i });
                },
                HtmlRevealKind::Skip => {},
            }
        }
        i = i + 1;
    }
    let ghost done = scan(inlines@, facts@, inlines@.len() as int);
    let ghost rest = done.stack.map_values(|tag: OpenTag| cut_off(tag, done.last_end));
    let ghost closed = pairs@;
    let mut k: usize = 0;
    assert(rest.take(0) =~= Seq::<HtmlPaintPair>::empty());
    while k < stack.len()
        invariant
            k <= stack.len(),
            done.last_end == last_end,
            done.stack == stack_view(stack@),
            rest == done.stack.map_values(|tag: OpenTag| cut_off(tag, done.last_end)),
            pairs@ == closed + rest.take(k as int),
        decreases stack.len() - k,
    {
        let pair = cut_pair(stack[k].1, &stack[k].2, last_end);
        assert(done.stack[k as int] == (OpenTag {
            name: stack@[k as int].0@,
            inline_i: stack@[k as int].1,
            range: stack@[k as int].2,
        }));
        assert(pair == rest[k as int]);
        pairs.push(pair);
        assert(rest.take(k + 1) =~= rest.take(k as int).push(rest[k as int]));
        k = k + 1;
    }
    assert(rest.take(k as int) =~= rest);
    HtmlPaintGroups { pairs, solos }
}

/// The tag of the first of `pairs` that is revealed and that inline `i` opens
/// or closes.
pub open spec fn pair_tag(pairs: Seq<HtmlPaintPair>, i: usize, state: RevealState) -> Option<
    Range<usize>,
>
    decreases pairs.len(),
{
    if pairs.len() == 0 {
        None
    } else {
        let p = pairs[0];
        if state.meets(p.span) && p.open_i == i && p.open.start < p.open.end {
            Some(p.open)
        } else if state.meets(p.span) && p.close_i == Some(i) && p.close.start < p.close.end {
            Some(p.close)
        } else {
            pair_tag(pairs.drop_first(), i, state)
        }
    }
}

/// The first revealed tag of `solos` that is inline `i`.
pub open spec fn solo_tag(solos: Seq<HtmlSoloChrome>, i: usize, state: RevealState) -> Option<
    Range<usize>,
>
    decreases solos.len(),
{
    if solos.len() == 0 {
        None
    } else if solos[0].inline_i == i && state.meets(solos[0].range) {
        Some(solos[0].range)
    } else {
        solo_tag(solos.drop_first(), i, state)
    }
}

/// The tag source that inline `i` paints when revealed.
pub open spec fn shown_tag(
    pairs: Seq<HtmlPaintPair>,
    solos: Seq<HtmlSoloChrome>,
    i: usize,
    state: RevealState,
) -> Option<Range<usize>> {
    match pair_tag(pairs, i, state) {
        Some(r) => Some(r),
        None => solo_tag(solos, i, state),
    }
}

/// The tag source that inline `inline_i` paints when revealed.
pub fn html_chrome_range_for(groups: &HtmlPaintGroups, inline_i: usize, state: &RevealState) -> (tag:
    Option<Range<usize>>)
    ensures
        tag == shown_tag(groups.pairs@, groups.solos@, inline_i, *state),
{
    let mut k: usize = 0;
    assert(groups.pairs@.skip(0) =~= groups.pairs@);
    while k < groups.pairs.len()
        invariant
            k <= groups.pairs.len(),
            pair_tag(groups.pairs@, inline_i, *state) == pair_tag(
                groups.pairs@.skip(k as int),
                inline_i,
                *state,
            ),
        decreases groups.pairs.len() - k,
    {
        let pair = &groups.pairs[k];
        assert(groups.pairs@.skip(k as int).drop_first() =~= groups.pairs@.skip(k + 1));
        if state.intersects(&pair.span) {
            if pair.open_i == inline_i && pair.open.start < pair.open.end {
                return Some(dup(&pair.open));
            }
            if let Some(close_i) = pair.close_i {
                if close_i == inline_i && pair.close.start < pair.close.end {
                    return Some(dup(&pair.close));
                }
            }
        }
        k = k + 1;
    }
    let mut k: usize = 0;
    assert(groups.solos@.skip(0) =~= groups.solos@);
    while k < groups.solos.len()
        invariant
            k <= groups.solos.len(),
            pair_tag(groups.pairs@, inline_i, *state) is None,
            solo_tag(groups.solos@, inline_i, *state) == solo_tag(
                groups.solos@.skip(k as int),
                inline_i,
                *state,
            ),
        decreases groups.solos.len() - k,
    {
        let solo = &groups.solos[k];
        assert(groups.solos@.skip(k as int).drop_first() =~= groups.solos@.skip(k + 1));
        if solo.inline_i == inline_i && state.intersects(&solo.range) {
            return Some(dup(&solo.range));
        }
        k = k + 1;
    }
    None
}

/// `span` encloses `inner`.
pub open spec fn encloses(span: Range<usize>, inner: Range<usize>) -> bool {
    span.start <= inner.start && inner.end <= span.end
}

/// Pair `k` is the shortest that encloses `inner`, and the first of those.
pub open spec fn innermost(pairs: Seq<HtmlPaintPair>, inner: Range<usize>, k: int) -> bool {
    &&& 0 <= k < pairs.len()
    &&& encloses(pairs[k].span, inner)
    &&& forall|j: int|
        0 <= j < pairs.len() && encloses((#[trigger] pairs[j]).span, inner) ==> layout::span_len(
            pairs[k].span,
        ) < layout::span_len(pairs[j].span) || (layout::span_len(pairs[k].span)
            == layout::span_len(pairs[j].span) && k <= j)
}

/// The innermost tag pair around `inner` is revealed.
pub open spec fn inner_shown(
    pairs: Seq<HtmlPaintPair>,
    inner: Range<usize>,
    state: RevealState,
) -> bool {
    exists|k: int| #[trigger] innermost(pairs, inner, k) && state.meets(pairs[k].span)
}

/// Whether the innermost tag pair around `inner` is revealed.
pub fn html_inner_revealed(groups: &HtmlPaintGroups, inner: &Range<usize>, state: &RevealState) -> (
    shown: bool)
    ensures
        shown == inner_shown(groups.pairs@, *inner, *state),
{
    let ghost pairs = groups.pairs@;
    let mut best: Option<(usize, usize)> = None;
    let mut k: usize = 0;
    while k < groups.pairs.len()
        invariant
            k <= groups.pairs.len(),
            pairs == groups.pairs@,
            best is None ==> forall|j: int|
                0 <= j < k ==> !encloses((#[trigger] pairs[j]).span, *inner),
            best matches Some((q, len)) ==> {
                &&& q < k
                &&& len == layout::span_len(pairs[q as int].span)
                &&& encloses(pairs[q as int].span, *inner)
                &&& forall|j: int|
                    0 <= j < k && encloses((#[trigger] pairs[j]).span, *inner) ==> len
                        < layout::span_len(pairs[j].span) || (len == layout::span_len(
                        pairs[j].span,
                    ) && q <= j)
            },
        decreases groups.pairs.len() - k,
    {
        let span = &groups.pairs[k].span;
        if inner.start >= span.start && inner.end <= span.end {
            let len: usize = range_len(span);
            let better = match best {
                None => true,
                Some((_, best_len)) => len < best_len,
            };
            if better {
                best = Some((k, len));
            }
        }
        k = k + 1;
    }
    match best {
        Some((q, _)) => {
            assert(innermost(pairs, *inner, q as int));
            assert forall|j: int| #[trigger] innermost(pairs, *inner, j) implies j == q by {
                assert(encloses(pairs[j].span, *inner));
                assert(encloses(pairs[q as int].span, *inner));
            }
            state.intersects(&groups.pairs[q].span)
        },
        None => {
            assert forall|j: int| !#[trigger] innermost(pairs, *inner, j) by {
                if 0 <= j < pairs.len() {
                    assert(!encloses(pairs[j].span, *inner));
                }
            }
            false
        },
    }
}

/// Every pair starts with its opening tag.
pub open spec fn pairs_start_open(pairs: Seq<HtmlPaintPair>) -> bool {
    forall|k: int|
        0 <= k < pairs.len() ==> (#[trigger] pairs[k]).span.start == pairs[k].open.start
}

proof fn lemma_close_starts_open(s: TagScan, name: Seq<char>, range: Range<usize>, i: usize)
    requires
        pairs_start_open(s.pairs),
    ensures
        pairs_start_open(s.close(name, range, i).pairs),
    decreases s.stack.len(),
{
    if s.stack.len() > 0 {
        let top = s.stack.last();
        if top.name != name {
            lemma_close_starts_open(
                TagScan {
                    stack: s.stack.drop_last(),
                    pairs: s.pairs.push(cut_off(top, range.start)),
                    ..s
                },
                name,
                range,
                i,
            );
        }
    }
}

/// Where the tags of a leaf are paired, a pair always starts with its opening
/// tag, closed or cut off.
pub proof fn tag_pairs_start_open(inlines: Seq<Inline>, facts: Seq<InlineFacts>, n: int)
    ensures
        pairs_start_open(scan(inlines, facts, n).all_pairs()),
    decreases n,
{
    lemma_scan_starts_open(inlines, facts, n);
}

proof fn lemma_scan_starts_open(inlines: Seq<Inline>, facts: Seq<InlineFacts>, n: int)
    ensures
        pairs_start_open(scan(inlines, facts, n).pairs),
    decreases n,
{
    if n > 0 {
        lemma_scan_starts_open(inlines, facts, n - 1);
        let s = scan(inlines, facts, n - 1);
        let range = inlines[n - 1].span();
        let here = TagScan { last_end: end_after(s.last_end, range), ..s };
        if let HtmlRevealKind::Close(name) = facts[n - 1].tag {
            lemma_close_starts_open(here, name@, range, (n - 1) as usize);
        }
    }
}

/// Tags that are not revealed paint no source.
pub proof fn hidden_tags_paint_nothing(
    pairs: Seq<HtmlPaintPair>,
    solos: Seq<HtmlSoloChrome>,
    i: usize,
    state: RevealState,
)
    requires
        forall|k: int| 0 <= k < pairs.len() ==> !state.meets((#[trigger] pairs[k]).span),
        forall|k: int| 0 <= k < solos.len() ==> !state.meets((#[trigger] solos[k]).range),
    ensures
        shown_tag(pairs, solos, i, state) is None,
    decreases pairs.len() + solos.len(),
{
    if pairs.len() > 0 {
        assert(!state.meets(pairs[0].span));
        let rest = pairs.drop_first();
        assert forall|k: int| 0 <= k < rest.len() implies !state.meets((#[trigger] rest[k]).span) by {
            assert(!state.meets(pairs[k + 1].span));
        }
        hidden_tags_paint_nothing(rest, solos, i, state);
    } else if solos.len() > 0 {
        assert(!state.meets(solos[0].range));
        let rest = solos.drop_first();
        assert forall|k: int| 0 <= k < rest.len() implies !state.meets((#[trigger] rest[k]).range) by {
            assert(!state.meets(solos[k + 1].range));
        }
        hidden_tags_paint_nothing(pairs, rest, i, state);
    }
}

impl TagScan {
    /// All that has been read stays inside `block`.
    pub open spec fn stays_within(self, block: Range<usize>) -> bool {
        &&& self.last_end <= block.end
        &&& forall|k: int|
            0 <= k < self.stack.len() ==> spans::within((#[trigger] self.stack[k]).range, block)
        &&& forall|k: int|
            0 <= k < self.pairs.len() ==> spans::within((#[trigger] self.pairs[k]).span, block)
        &&& forall|k: int|
            0 <= k < self.solos.len() ==> spans::within((#[trigger] self.solos[k]).range, block)
    }
}

proof fn lemma_close_within(
    scan: TagScan,
    name: Seq<char>,
    range: Range<usize>,
    i: usize,
    block: Range<usize>,
)
    requires
        scan.stays_within(block),
        spans::within(range, block),
        range.start <= range.end,
    ensures
        scan.close(name, range, i).stays_within(block),
    decreases scan.stack.len(),
{
    if scan.stack.len() > 0 {
        let top = scan.stack.last();
        assert(spans::within(scan.stack[scan.stack.len() - 1].range, block));
        if top.name != name {
            let next = TagScan {
                stack: scan.stack.drop_last(),
                pairs: scan.pairs.push(cut_off(top, range.start)),
                ..scan
            };
            assert(next.stays_within(block));
            lemma_close_within(next, name, range, i, block);
        }
    }
}

proof fn lemma_scan_within(
    inlines: Seq<Inline>,
    facts: Seq<InlineFacts>,
    block: Range<usize>,
    n: int,
)
    requires
        n <= inlines.len(),
        forall|i: int|
            0 <= i < n ==> spans::within((#[trigger] inlines[i]).span(), block)
                && inlines[i].span().start <= inlines[i].span().end,
    ensures
        scan(inlines, facts, n).stays_within(block),
    decreases n,
{
    if n > 0 {
        lemma_scan_within(inlines, facts, block, n - 1);
        let range = inlines[n - 1].span();
        assert(spans::within(range, block));
        let before = scan(inlines, facts, n - 1);
        let here = TagScan { last_end: end_after(before.last_end, range), ..before };
        assert(here.stays_within(block));
        if let HtmlRevealKind::Close(name) = facts[n - 1].tag {
            lemma_close_within(here, name@, range, (n - 1) as usize, block);
        }
    }
}

/// The tags of a leaf stay inside its block.
pub proof fn tags_stay_within(inlines: Seq<Inline>, facts: Seq<InlineFacts>, block: Range<usize>)
    requires
        forall|i: int|
            0 <= i < inlines.len() ==> spans::within((#[trigger] inlines[i]).span(), block)
                && inlines[i].span().start <= inlines[i].span().end,
    ensures
        ({
            let end = scan(inlines, facts, inlines.len() as int);
            &&& forall|k: int|
                0 <= k < end.all_pairs().len() ==> spans::within(
                    (#[trigger] end.all_pairs()[k]).span,
                    block,
                )
            &&& forall|k: int|
                0 <= k < end.solos.len() ==> spans::within((#[trigger] end.solos[k]).range, block)
        }),
{
    lemma_scan_within(inlines, facts, block, inlines.len() as int);
    let end = scan(inlines, facts, inlines.len() as int);
    let all = end.all_pairs();
    assert forall|k: int| 0 <= k < all.len() implies spans::within(
        (#[trigger] all[k]).span,
        block,
    ) by {
        if k < end.pairs.len() {
            assert(all[k] == end.pairs[k]);
        } else {
            let tag = end.stack[k - end.pairs.len()];
            assert(all[k] == cut_off(tag, end.last_end));
        }
    }
}

/// A closing tag closes the nearest open tag of its name. Tags that were opened
/// in between end where it starts.
pub proof fn closing_tags_close_the_nearest(
    s: TagScan,
    name: Seq<char>,
    range: Range<usize>,
    i: usize,
    m: int,
)
    requires
        0 <= m < s.stack.len(),
        s.stack[m].name == name,
        forall|j: int| m < j < s.stack.len() ==> (#[trigger] s.stack[j]).name != name,
    ensures
        ({
            let next = s.close(name, range, i);
            let pair = next.pairs.last();
            &&& next.stack == s.stack.take(m)
            &&& next.solos == s.solos
            &&& next.pairs.len() == s.pairs.len() + (s.stack.len() - m)
            &&& pair.open == s.stack[m].range && pair.open_i == s.stack[m].inline_i
            &&& pair.close == range && pair.close_i == Some(i)
            &&& pair.span.start == s.stack[m].range.start && pair.span.end == range.end
            &&& next.pairs.take(s.pairs.len() as int) == s.pairs
            &&& forall|j: int|
                m < j < s.stack.len() ==> {
                    let cut = next.pairs[s.pairs.len() + (s.stack.len() - 1 - j)];
                    &&& cut.open == (#[trigger] s.stack[j]).range && cut.close_i is None
                    &&& cut.close == (range.start..range.start)
                }
        }),
    decreases s.stack.len(),
{
    let top = s.stack.last();
    let next = s.close(name, range, i);
    if m < s.stack.len() - 1 {
        assert(s.stack[s.stack.len() - 1].name != name);
        let rest = TagScan {
            stack: s.stack.drop_last(),
            pairs: s.pairs.push(cut_off(top, range.start)),
            ..s
        };
        assert forall|j: int| m < j < rest.stack.len() implies (#[trigger] rest.stack[j]).name
            != name by {
            assert(rest.stack[j] == s.stack[j]);
        }
        closing_tags_close_the_nearest(rest, name, range, i, m);
        assert(rest.stack.take(m) =~= s.stack.take(m));
        assert(next.pairs.take(s.pairs.len() as int) =~= next.pairs.take(
            rest.pairs.len() as int,
        ).take(s.pairs.len() as int));
        assert(rest.pairs.take(s.pairs.len() as int) =~= s.pairs);
        assert forall|j: int| m < j < s.stack.len() implies {
            let cut = next.pairs[s.pairs.len() + (s.stack.len() - 1 - j)];
            &&& cut.open == (#[trigger] s.stack[j]).range && cut.close_i is None
            &&& cut.close == (range.start..range.start)
        } by {
            if j < s.stack.len() - 1 {
                assert(rest.stack[j] == s.stack[j]);
            } else {
                assert(next.pairs.take(rest.pairs.len() as int)[s.pairs.len() as int]
                    == rest.pairs[s.pairs.len() as int]);
            }
        }
    } else {
        assert(s.stack.drop_last() =~= s.stack.take(m));
        assert(next.pairs.take(s.pairs.len() as int) =~= s.pairs);
    }
}

/// A closing tag whose name is not open stands by itself, and ends all that is
/// open.
pub proof fn stray_closing_tags_stand_alone(
    s: TagScan,
    name: Seq<char>,
    range: Range<usize>,
    i: usize,
)
    requires
        forall|j: int| 0 <= j < s.stack.len() ==> (#[trigger] s.stack[j]).name != name,
    ensures
        ({
            let next = s.close(name, range, i);
            &&& next.stack.len() == 0
            &&& next.solos == s.solos.push(HtmlSoloChrome { range, inline_i: i })
            &&& next.pairs.len() == s.pairs.len() + s.stack.len()
        }),
    decreases s.stack.len(),
{
    if s.stack.len() > 0 {
        let top = s.stack.last();
        assert(s.stack[s.stack.len() - 1].name != name);
        let rest = TagScan {
            stack: s.stack.drop_last(),
            pairs: s.pairs.push(cut_off(top, range.start)),
            ..s
        };
        assert forall|j: int| 0 <= j < rest.stack.len() implies (#[trigger] rest.stack[j]).name
            != name by {
            assert(rest.stack[j] == s.stack[j]);
        }
        stray_closing_tags_stand_alone(rest, name, range, i);
    }
}

/// How a node is read: an opening tag is open from there on, a closing tag
/// closes, a tag that is both stands by itself, and everything else is text. The
/// scan has then read up to the end of the node.
pub proof fn nodes_are_read_by_their_tag(s: TagScan, inline: Inline, facts: InlineFacts, i: usize)
    ensures
        ({
            let next = s.read(inline, facts, i);
            let html = inline is OpaqueInline;
            &&& !html || facts.tag is Skip ==> next.stack == s.stack && next.pairs == s.pairs
                && next.solos == s.solos
            &&& html && facts.tag is Open ==> next.stack.drop_last() == s.stack
                && next.stack.last().name == facts.tag->Open_0@ && next.stack.last().inline_i == i
                && next.stack.last().range == inline.span() && next.pairs == s.pairs && next.solos
                == s.solos
            &&& html && facts.tag is Solo ==> next.stack == s.stack && next.pairs == s.pairs
                && next.solos == s.solos.push(
                HtmlSoloChrome { range: inline.span(), inline_i: i },
            )
            &&& html && facts.tag is Close && s.stack.len() > 0 && s.stack.last().name
                == facts.tag->Close_0@ ==> next.stack == s.stack.drop_last()
                && next.pairs.last().close == inline.span() && next.pairs.last().open
                == s.stack.last().range
            &&& !(html && facts.tag is Close) ==> next.last_end >= s.last_end && next.last_end
                >= inline.span().end && (next.last_end == s.last_end || next.last_end
                == inline.span().end)
        }),
{
    let next = s.read(inline, facts, i);
    if inline is OpaqueInline && facts.tag is Open {
        assert(next.stack.drop_last() =~= s.stack);
    }
}

/// A tag that is never closed reaches to the end of what was read.
pub proof fn unclosed_tags_reach_to_the_end(s: TagScan, k: int)
    requires
        0 <= k < s.stack.len(),
    ensures
        ({
            let pair = s.all_pairs()[s.pairs.len() + k];
            &&& s.all_pairs().len() == s.pairs.len() + s.stack.len()
            &&& pair.open == s.stack[k].range && pair.open_i == s.stack[k].inline_i
            &&& pair.close_i is None
            &&& pair.span.start == s.stack[k].range.start
            &&& pair.span.end >= s.last_end && pair.span.end >= s.stack[k].range.end
        }),
{
}

/// A tag shows its source where the element that it opens or closes is met; a
/// tag by itself, where it is met itself.
pub proof fn met_elements_show_their_tags(
    pairs: Seq<HtmlPaintPair>,
    solos: Seq<HtmlSoloChrome>,
    i: usize,
    state: RevealState,
    k: int,
)
    ensures
        0 <= k < pairs.len() && state.meets(pairs[k].span) && pairs[k].open_i == i
            && pairs[k].open.start < pairs[k].open.end ==> shown_tag(pairs, solos, i, state) is Some,
        0 <= k < pairs.len() && state.meets(pairs[k].span) && pairs[k].close_i == Some(i)
            && pairs[k].close.start < pairs[k].close.end ==> shown_tag(pairs, solos, i, state)
            is Some,
        0 <= k < solos.len() && state.meets(solos[k].range) && solos[k].inline_i == i ==> shown_tag(
            pairs,
            solos,
            i,
            state,
        ) is Some,
{
    if 0 <= k < pairs.len() {
        lemma_pair_shown(pairs, i, state, k);
    }
    if 0 <= k < solos.len() {
        lemma_solo_shown(solos, i, state, k);
    }
}

proof fn lemma_pair_shown(pairs: Seq<HtmlPaintPair>, i: usize, state: RevealState, k: int)
    requires
        0 <= k < pairs.len(),
    ensures
        state.meets(pairs[k].span) && ((pairs[k].open_i == i && pairs[k].open.start
            < pairs[k].open.end) || (pairs[k].close_i == Some(i) && pairs[k].close.start
            < pairs[k].close.end)) ==> pair_tag(pairs, i, state) is Some,
    decreases k,
{
    if k > 0 {
        assert(pairs.drop_first()[k - 1] == pairs[k]);
        lemma_pair_shown(pairs.drop_first(), i, state, k - 1);
    }
}

proof fn lemma_solo_shown(solos: Seq<HtmlSoloChrome>, i: usize, state: RevealState, k: int)
    requires
        0 <= k < solos.len(),
    ensures
        state.meets(solos[k].range) && solos[k].inline_i == i ==> solo_tag(solos, i, state) is Some,
    decreases k,
{
    if k > 0 {
        assert(solos.drop_first()[k - 1] == solos[k]);
        lemma_solo_shown(solos.drop_first(), i, state, k - 1);
    }
}

/// What is shown of a tag is the tag itself: it opens or closes an element that
/// is met, or stands by itself and is met.
pub proof fn shown_tags_are_met(
    pairs: Seq<HtmlPaintPair>,
    solos: Seq<HtmlSoloChrome>,
    i: usize,
    state: RevealState,
)
    requires
        shown_tag(pairs, solos, i, state) is Some,
    ensures
        ({
            let r = shown_tag(pairs, solos, i, state)->0;
            ||| exists|k: int|
                0 <= k < pairs.len() && state.meets((#[trigger] pairs[k]).span) && ((pairs[k].open_i
                    == i && pairs[k].open == r) || (pairs[k].close_i == Some(i) && pairs[k].close
                    == r))
            ||| exists|k: int|
                0 <= k < solos.len() && (#[trigger] solos[k]).inline_i == i && solos[k].range == r
                    && state.meets(r)
        }),
{
    if pair_tag(pairs, i, state) is Some {
        lemma_pair_found(pairs, i, state);
    } else {
        lemma_solo_found(solos, i, state);
    }
}

proof fn lemma_pair_found(pairs: Seq<HtmlPaintPair>, i: usize, state: RevealState)
    requires
        pair_tag(pairs, i, state) is Some,
    ensures
        exists|k: int|
            0 <= k < pairs.len() && state.meets((#[trigger] pairs[k]).span) && ((pairs[k].open_i
                == i && pairs[k].open == pair_tag(pairs, i, state)->0) || (pairs[k].close_i == Some(
                i,
            ) && pairs[k].close == pair_tag(pairs, i, state)->0)),
    decreases pairs.len(),
{
    let p = pairs[0];
    let here = state.meets(p.span) && ((p.open_i == i && p.open.start < p.open.end) || (p.close_i
        == Some(i) && p.close.start < p.close.end));
    if !here {
        let rest = pairs.drop_first();
        lemma_pair_found(rest, i, state);
        let r = pair_tag(rest, i, state)->0;
        let k = choose|k: int|
            0 <= k < rest.len() && state.meets((#[trigger] rest[k]).span) && ((rest[k].open_i == i
                && rest[k].open == r) || (rest[k].close_i == Some(i) && rest[k].close == r));
        assert(pairs[k + 1] == rest[k]);
    }
}

proof fn lemma_solo_found(solos: Seq<HtmlSoloChrome>, i: usize, state: RevealState)
    requires
        solo_tag(solos, i, state) is Some,
    ensures
        exists|k: int|
            0 <= k < solos.len() && (#[trigger] solos[k]).inline_i == i && solos[k].range
                == solo_tag(solos, i, state)->0 && state.meets(solo_tag(solos, i, state)->0),
    decreases solos.len(),
{
    if !(solos[0].inline_i == i && state.meets(solos[0].range)) {
        let rest = solos.drop_first();
        lemma_solo_found(rest, i, state);
        let r = solo_tag(rest, i, state)->0;
        let k = choose|k: int|
            0 <= k < rest.len() && (#[trigger] rest[k]).inline_i == i && rest[k].range == r
                && state.meets(r);
        assert(solos[k + 1] == rest[k]);
    }
}

/// Text is shown as it is written where the element right around it is met: the
/// one that encloses it with the least source. Text in no element never is.
pub proof fn text_goes_by_the_element_around_it(
    pairs: Seq<HtmlPaintPair>,
    inner: Range<usize>,
    state: RevealState,
    k: int,
)
    ensures
        (forall|j: int|
            0 <= j < pairs.len() ==> !((#[trigger] pairs[j]).span.start <= inner.start && inner.end
                <= pairs[j].span.end)) ==> !inner_shown(pairs, inner, state),
        0 <= k < pairs.len() && pairs[k].span.start <= inner.start && inner.end <= pairs[k].span.end
            && (forall|j: int|
            0 <= j < pairs.len() && j != k && (#[trigger] pairs[j]).span.start <= inner.start
                && inner.end <= pairs[j].span.end ==> layout::span_len(pairs[k].span)
                < layout::span_len(pairs[j].span)) ==> inner_shown(pairs, inner, state)
            == state.meets(pairs[k].span),
{
    if 0 <= k < pairs.len() && pairs[k].span.start <= inner.start && inner.end <= pairs[k].span.end
        && (forall|j: int|
        0 <= j < pairs.len() && j != k && (#[trigger] pairs[j]).span.start <= inner.start
            && inner.end <= pairs[j].span.end ==> layout::span_len(pairs[k].span)
            < layout::span_len(pairs[j].span)) {
        assert(innermost(pairs, inner, k));
        if inner_shown(pairs, inner, state) {
            let m = choose|m: int| #[trigger]
                innermost(pairs, inner, m) && state.meets(pairs[m].span);
            if m != k {
                assert(encloses(pairs[k].span, inner) && encloses(pairs[m].span, inner));
            }
        }
    }
}

/// The elements of a leaf are those that its whole scan found, closed or not, and
/// so are the tags that stand by themselves.
pub proof fn elements_come_from_the_whole_scan(
    groups: HtmlPaintGroups,
    inlines: Seq<Inline>,
    facts: Seq<InlineFacts>,
)
    requires
        groups.are_tags_of(inlines, facts),
    ensures
        ({
            let s = scan(inlines, facts, inlines.len() as int);
            &&& groups.pairs@.take(s.pairs.len() as int) == s.pairs
            &&& groups.pairs@.len() == s.pairs.len() + s.stack.len()
            &&& groups.solos@ == s.solos
        }),
{
    let s = scan(inlines, facts, inlines.len() as int);
    assert(groups.pairs@.take(s.pairs.len() as int) =~= s.pairs);
}

} // verus!
