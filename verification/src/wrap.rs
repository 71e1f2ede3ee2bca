//! Delimiters of marked text (`**`, `_`, `~~`, ticks, `==`, …): where they
//! stand in source and which of them a caret reveals.

use std::ops::Range;

use vstd::prelude::*;
use vstd::string::*;
use vstd::utf8::*;

use crate::ascii::{CARET, EQUALS, TICK, TILDE};
use crate::caret::RevealState;
use crate::spans;
use crate::spans::insert_unique;
use crate::style::{MarkFidelity, MarkSet};
use crate::text;
use crate::text::{at_boundary, byte_len, dup, dup_opt};
use crate::tree::{Inline, InlineFacts};

verus! {

/// Wrap-mark kinds, innermost first, so that `***x***` peels the italic `*`
/// before the bold `**`.
#[derive(Debug, Clone, Copy, PartialEq, Eq, Structural)]
pub enum WrapKind {
    Code,
    Highlight,
    Sup,
    Sub,
    Italic,
    Strike,
    Bold,
}

/// How one mark of a node is delimited.
#[derive(Debug, Clone, Copy, PartialEq, Eq, Structural)]
pub struct WrapSpec {
    pub kind: WrapKind,
    pub delim: u8,
    pub width: usize,
    pub group: u64,
}

/// One layer of delimiters found around a node, and the span it encloses.
#[derive(Debug, PartialEq, Eq)]
pub struct WrapLayer {
    pub kind: WrapKind,
    pub open: Option<Range<usize>>,
    pub close: Option<Range<usize>>,
    pub span: Range<usize>,
}

/// Identity of a marked span: the runs of one group share it, a node without
/// a group has its own.
#[derive(Debug, Clone, Copy, PartialEq, Eq, Structural)]
pub struct WrapKey {
    pub kind: WrapKind,
    pub group: u64,
    pub inline: usize,
}

/// A layer as a member of its marked span.
#[derive(Debug, PartialEq, Eq)]
pub struct WrapGroup {
    pub key: WrapKey,
    pub open: Option<Range<usize>>,
    pub close: Option<Range<usize>>,
    /// From the first to the last byte of all layers with the same key.
    pub reach: Range<usize>,
}

/// How `kind` is delimited.
pub open spec fn spec_of(kind: WrapKind, fid: MarkFidelity) -> WrapSpec {
    match kind {
        WrapKind::Code => WrapSpec {
            kind,
            delim: TICK,
            width: if fid.code_backticks == 0 {
                1
            } else {
                fid.code_backticks
            },
            group: 0,
        },
        WrapKind::Highlight => WrapSpec {
            kind,
            delim: EQUALS,
            width: 2,
            group: fid.highlight_group,
        },
        WrapKind::Sup => WrapSpec { kind, delim: CARET, width: 1, group: fid.sup_group },
        WrapKind::Sub => WrapSpec { kind, delim: TILDE, width: 1, group: fid.sub_group },
        WrapKind::Italic => WrapSpec {
            kind,
            delim: fid.emph_delim,
            width: 1,
            group: fid.emph_group,
        },
        WrapKind::Strike => WrapSpec { kind, delim: TILDE, width: 2, group: fid.strike_group },
        WrapKind::Bold => WrapSpec {
            kind,
            delim: fid.strong_delim,
            width: 2,
            group: fid.strong_group,
        },
    }
}

/// `specs`, with `spec` at its end when `cond` holds.
pub open spec fn push_if(specs: Seq<WrapSpec>, cond: bool, spec: WrapSpec) -> Seq<WrapSpec> {
    if cond {
        specs.push(spec)
    } else {
        specs
    }
}

/// The delimiters of `marks`, innermost first.
pub open spec fn spec_list(marks: MarkSet, fid: MarkFidelity) -> Seq<WrapSpec> {
    let s = Seq::empty();
    let s = push_if(s, marks.code, spec_of(WrapKind::Code, fid));
    let s = push_if(s, marks.highlight, spec_of(WrapKind::Highlight, fid));
    let s = push_if(s, marks.sup, spec_of(WrapKind::Sup, fid));
    let s = push_if(s, marks.sub, spec_of(WrapKind::Sub, fid));
    let s = push_if(s, marks.italic, spec_of(WrapKind::Italic, fid));
    let s = push_if(s, marks.strike, spec_of(WrapKind::Strike, fid));
    push_if(s, marks.bold, spec_of(WrapKind::Bold, fid))
}

fn wrap_spec(kind: WrapKind, fid: &MarkFidelity) -> (spec: WrapSpec)
    ensures
        spec == spec_of(kind, *fid),
{
    match kind {
        WrapKind::Code => {
            let width: usize = if fid.code_backticks == 0 {
                1
            } else {
                fid.code_backticks
            };
            WrapSpec { kind, delim: TICK, width, group: 0 }
        },
        WrapKind::Highlight => WrapSpec {
            kind,
            delim: EQUALS,
            width: 2,
            group: fid.highlight_group,
        },
        WrapKind::Sup => WrapSpec { kind, delim: CARET, width: 1, group: fid.sup_group },
        WrapKind::Sub => WrapSpec { kind, delim: TILDE, width: 1, group: fid.sub_group },
        WrapKind::Italic => WrapSpec {
            kind,
            delim: fid.emph_delim,
            width: 1,
            group: fid.emph_group,
        },
        WrapKind::Strike => WrapSpec { kind, delim: TILDE, width: 2, group: fid.strike_group },
        WrapKind::Bold => WrapSpec {
            kind,
            delim: fid.strong_delim,
            width: 2,
            group: fid.strong_group,
        },
    }
}

/// The delimiters of `marks`, innermost first.
pub fn wrap_specs(marks: MarkSet, fid: &MarkFidelity) -> (out: Vec<WrapSpec>)
    ensures
        out@ == spec_list(marks, *fid),
{
    let mut out: Vec<WrapSpec> = Vec::new();
    if marks.code {
        out.push(wrap_spec(WrapKind::Code, fid));
    }
    if marks.highlight {
        out.push(wrap_spec(WrapKind::Highlight, fid));
    }
    if marks.sup {
        out.push(wrap_spec(WrapKind::Sup, fid));
    }
    if marks.sub {
        out.push(wrap_spec(WrapKind::Sub, fid));
    }
    if marks.italic {
        out.push(wrap_spec(WrapKind::Italic, fid));
    }
    if marks.strike {
        out.push(wrap_spec(WrapKind::Strike, fid));
    }
    if marks.bold {
        out.push(wrap_spec(WrapKind::Bold, fid));
    }
    out
}

/// `r` is a non-empty run of `delim` bytes inside `lo..hi`.
pub open spec fn is_delim(b: Seq<u8>, r: Range<usize>, delim: u8, lo: usize, hi: usize) -> bool {
    &&& lo <= r.start < r.end <= hi
    &&& text::sliceable(b, r)
    &&& forall|i: int| r.start <= i < r.end ==> b[i] == delim
}

/// Whether `range` is a non-empty run of `delim` bytes inside `lo..hi`.
pub fn range_is_delim(source: &str, range: &Range<usize>, delim: u8, lo: usize, hi: usize) -> (ok:
    bool)
    ensures
        ok == is_delim(encode_utf8(source@), *range, delim, lo, hi),
{
    if range.start < lo || range.end > hi || range.start >= range.end {
        return false;
    }
    if !at_boundary(source, range.start) || !at_boundary(source, range.end) {
        return false;
    }
    let bytes = source.as_bytes();
    let mut i: usize = range.start;
    while i < range.end
        invariant
            range.start <= i <= range.end <= bytes@.len(),
            bytes@ == encode_utf8(source@),
            forall|k: int| range.start <= k < i ==> bytes@[k] == delim,
        decreases range.end - i,
    {
        if bytes[i] != delim {
            return false;
        }
        i = i + 1;
    }
    true
}

/// `inner` without one pair of delimiters, when it starts and ends with them.
pub open spec fn peeled(b: Seq<u8>, inner: Range<usize>, delim: u8, width: usize) -> Range<usize> {
    if width > 0 && inner.end >= inner.start + 2 * width && is_delim(
        b,
        (inner.start..(inner.start + width) as usize),
        delim,
        0,
        b.len() as usize,
    ) && is_delim(b, ((inner.end - width) as usize..inner.end), delim, 0, b.len() as usize) {
        (inner.start + width) as usize..(inner.end - width) as usize
    } else {
        inner
    }
}

/// Strips one pair of delimiters off `inner`, when it starts and ends with
/// them.
pub fn peel_wrap(source: &str, inner: Range<usize>, delim: u8, width: usize) -> (out: Range<usize>)
    ensures
        out == peeled(encode_utf8(source@), inner, delim, width),
{
    if width == 0 || inner.start > inner.end || (inner.end - inner.start) / 2 < width {
        return inner;
    }
    let len: usize = byte_len(source);
    let open = inner.start..inner.start + width;
    let close = inner.end - width..inner.end;
    if range_is_delim(source, &open, delim, 0, len) && range_is_delim(
        source,
        &close,
        delim,
        0,
        len,
    ) {
        inner.start + width..inner.end - width
    } else {
        inner
    }
}

/// `core` with one pair of delimiters stripped for each of `specs`, in order.
pub open spec fn peel_all(b: Seq<u8>, core: Range<usize>, specs: Seq<WrapSpec>) -> Range<usize>
    decreases specs.len(),
{
    if specs.len() == 0 {
        core
    } else {
        let last = specs.last();
        peeled(b, peel_all(b, core, specs.drop_last()), last.delim, last.width)
    }
}

/// The bytes before `core` where an opening delimiter would stand.
pub open spec fn open_at(core: Range<usize>, width: usize) -> Range<usize> {
    (if core.start >= width {
        (core.start - width) as usize
    } else {
        0
    })..core.start
}

/// The bytes after `core` where a closing delimiter would stand.
pub open spec fn close_at(core: Range<usize>, width: usize) -> Range<usize> {
    core.end..(if core.end + width <= usize::MAX {
        (core.end + width) as usize
    } else {
        usize::MAX
    })
}

/// One of `s`'s delimiters touches `core`.
pub open spec fn touches(b: Seq<u8>, s: WrapSpec, core: Range<usize>, lo: usize, hi: usize) -> bool {
    is_delim(b, open_at(core, s.width), s.delim, lo, hi) || is_delim(
        b,
        close_at(core, s.width),
        s.delim,
        lo,
        hi,
    )
}

/// The first of `specs`, from `k` on, that is not in `used` and touches
/// `core`.
pub open spec fn next_layer(
    b: Seq<u8>,
    specs: Seq<WrapSpec>,
    used: Seq<WrapKind>,
    core: Range<usize>,
    lo: usize,
    hi: usize,
    k: int,
) -> Option<WrapSpec>
    decreases specs.len() - k,
{
    if k < 0 || k >= specs.len() {
        None
    } else if !used.contains(specs[k].kind) && touches(b, specs[k], core, lo, hi) {
        Some(specs[k])
    } else {
        next_layer(b, specs, used, core, lo, hi, k + 1)
    }
}

/// The layer that `s` forms around `core`.
pub open spec fn layer_of(b: Seq<u8>, s: WrapSpec, core: Range<usize>, lo: usize, hi: usize) -> WrapLayer {
    let open = open_at(core, s.width);
    let close = close_at(core, s.width);
    let has_open = is_delim(b, open, s.delim, lo, hi);
    let has_close = is_delim(b, close, s.delim, lo, hi);
    WrapLayer {
        kind: s.kind,
        open: if has_open {
            Some(open)
        } else {
            None
        },
        close: if has_close {
            Some(close)
        } else {
            None
        },
        span: (if has_open {
            open.start
        } else {
            core.start
        })..(if has_close {
            close.end
        } else {
            core.end
        }),
    }
}

/// The layers around `core`, innermost first; at most `fuel` of them, none of
/// a kind in `used`.
pub open spec fn layers_around(
    b: Seq<u8>,
    specs: Seq<WrapSpec>,
    used: Seq<WrapKind>,
    core: Range<usize>,
    lo: usize,
    hi: usize,
    fuel: nat,
) -> Seq<WrapLayer>
    decreases fuel,
{
    if fuel == 0 {
        Seq::empty()
    } else {
        match next_layer(b, specs, used, core, lo, hi, 0) {
            None => Seq::empty(),
            Some(s) => {
                let layer = layer_of(b, s, core, lo, hi);
                seq![layer] + layers_around(
                    b,
                    specs,
                    used.push(s.kind),
                    layer.span,
                    lo,
                    hi,
                    (fuel - 1) as nat,
                )
            },
        }
    }
}

/// Delimiter layers around a node: its own delimiters are peeled off `core`
/// first, then layers are taken from the inside out, each kind once.
pub open spec fn wrap_layers(
    b: Seq<u8>,
    core: Range<usize>,
    specs: Seq<WrapSpec>,
    lo: usize,
    hi: usize,
) -> Seq<WrapLayer> {
    layers_around(b, specs, Seq::empty(), peel_all(b, core, specs), lo, hi, specs.len())
}

/// The next layer around `core` whose kind is not in `used`.
fn find_layer(
    source: &str,
    specs: &Vec<WrapSpec>,
    used: &Vec<WrapKind>,
    core: &Range<usize>,
    lo: usize,
    hi: usize,
) -> (found: Option<WrapLayer>)
    ensures
        found == match next_layer(
            encode_utf8(source@),
            specs@,
            used@,
            *core,
            lo,
            hi,
            0,
        ) {
            Some(s) => Some(layer_of(encode_utf8(source@), s, *core, lo, hi)),
            None => None,
        },
{
    let ghost b = encode_utf8(source@);
    let mut k: usize = 0;
    while k < specs.len()
        invariant
            k <= specs.len(),
            b == encode_utf8(source@),
            next_layer(b, specs@, used@, *core, lo, hi, 0) == next_layer(
                b,
                specs@,
                used@,
                *core,
                lo,
                hi,
                k as int,
            ),
        decreases specs.len() - k,
    {
        let s = specs[k];
        let mut seen = false;
        let mut u: usize = 0;
        while u < used.len()
            invariant
                u <= used.len(),
                seen == exists|j: int| 0 <= j < u && used@[j] == s.kind,
            decreases used.len() - u,
        {
            if used[u] == s.kind {
                seen = true;
            }
            u = u + 1;
        }
        assert(seen == used@.contains(s.kind));
        if !seen {
            let open = core.start.saturating_sub(s.width)..core.start;
            let close = core.end..core.end.saturating_add(s.width);
            let has_open = range_is_delim(source, &open, s.delim, lo, hi);
            let has_close = range_is_delim(source, &close, s.delim, lo, hi);
            if has_open || has_close {
                let start: usize = if has_open {
                    open.start
                } else {
                    core.start
                };
                let end: usize = if has_close {
                    close.end
                } else {
                    core.end
                };
                return Some(
                    WrapLayer {
                        kind: s.kind,
                        open: if has_open {
                            Some(open)
                        } else {
                            None
                        },
                        close: if has_close {
                            Some(close)
                        } else {
                            None
                        },
                        span: start..end,
                    },
                );
            }
        }
        k = k + 1;
    }
    None
}

/// Delimiter layers around a node with the source core `core`.
pub fn adjacent_wrap_layers(
    source: &str,
    core: Range<usize>,
    specs: &Vec<WrapSpec>,
    lo: usize,
    hi: usize,
) -> (layers: Vec<WrapLayer>)
    ensures
        layers@ == wrap_layers(encode_utf8(source@), core, specs@, lo, hi),
{
    let ghost b = encode_utf8(source@);
    let mut cur = dup(&core);
    let mut k: usize = 0;
    assert(specs@.take(0) =~= Seq::<WrapSpec>::empty());
    while k < specs.len()
        invariant
            k <= specs.len(),
            b == encode_utf8(source@),
            cur == peel_all(b, core, specs@.take(k as int)),
        decreases specs.len() - k,
    {
        cur = peel_wrap(source, cur, specs[k].delim, specs[k].width);
        k = k + 1;
        assert(specs@.take(k as int).drop_last() =~= specs@.take(k - 1));
    }
    assert(specs@.take(k as int) =~= specs@);
    let mut used: Vec<WrapKind> = Vec::new();
    let mut layers: Vec<WrapLayer> = Vec::new();
    let ghost total = wrap_layers(b, core, specs@, lo, hi);
    assert(layers@ + layers_around(b, specs@, used@, cur, lo, hi, specs@.len()) =~= total);
    while layers.len() < specs.len()
        invariant
            layers.len() <= specs.len(),
            b == encode_utf8(source@),
            total == wrap_layers(b, core, specs@, lo, hi),
            layers@ + layers_around(
                b,
                specs@,
                used@,
                cur,
                lo,
                hi,
                (specs@.len() - layers@.len()) as nat,
            ) == total,
        decreases specs.len() - layers.len(),
    {
        let ghost fuel = (specs@.len() - layers@.len()) as nat;
        let ghost had = layers@;
        match find_layer(source, specs, &used, &cur, lo, hi) {
            None => {
                assert(layers_around(b, specs@, used@, cur, lo, hi, fuel) =~= Seq::empty());
                assert(layers@ =~= total);
                return layers;
            },
            Some(layer) => {
                let ghost rest = layers_around(
                    b,
                    specs@,
                    used@.push(layer.kind),
                    layer.span,
                    lo,
                    hi,
                    (fuel - 1) as nat,
                );
                assert(layers_around(b, specs@, used@, cur, lo, hi, fuel) == seq![layer] + rest);
                assert(had + (seq![layer] + rest) =~= had.push(layer) + rest);
                cur = dup(&layer.span);
                used.push(layer.kind);
                layers.push(layer);
            },
        }
    }
    assert(layers@ =~= total);
    layers
}

/// Marks and delimiters of a node that can be wrapped in delimiters.
pub open spec fn mark_info(inline: Inline) -> Option<(MarkSet, MarkFidelity)> {
    let info = match inline {
        Inline::Run { marks, fidelity, .. } => Some((marks, fidelity)),
        Inline::Emoji { marks, fidelity, .. } => Some((marks, fidelity)),
        Inline::Image { marks, .. } => Some((marks, MarkFidelity::plain())),
        Inline::OpaqueInline { marks, image, .. } => if image is Some {
            Some((marks, MarkFidelity::plain()))
        } else {
            None
        },
        _ => None,
    };
    match info {
        Some((marks, _)) => if marks == MarkSet::none() {
            None
        } else {
            info
        },
        None => None,
    }
}

/// Marks and delimiters of a node that can be wrapped in delimiters: marked
/// runs, emoji, images and HTML images.
pub fn run_mark_info(inline: &Inline) -> (info: Option<(MarkSet, MarkFidelity)>)
    ensures
        info == mark_info(*inline),
{
    let (marks, fidelity) = match inline {
        Inline::Run { marks, fidelity, .. } => (*marks, *fidelity),
        Inline::Emoji { marks, fidelity, .. } => (*marks, *fidelity),
        Inline::Image { marks, .. } => (*marks, MarkFidelity::default()),
        Inline::OpaqueInline { marks, image, .. } => {
            if image.is_none() {
                return None;
            }
            (*marks, MarkFidelity::default())
        },
        _ => {
            return None;
        },
    };
    if marks.is_empty() {
        None
    } else {
        Some((marks, fidelity))
    }
}

/// Key of the marked span that a layer belongs to.
pub open spec fn key_of(kind: WrapKind, group: u64, inline: usize) -> WrapKey {
    WrapKey {
        kind,
        group,
        inline: if group == 0 {
            inline
        } else {
            usize::MAX
        },
    }
}

/// Key of the marked span that a layer of `kind` around `inline_i` belongs to.
pub fn wrap_group_key(kind: WrapKind, group: u64, inline_i: usize) -> (key: WrapKey)
    ensures
        key == key_of(kind, group, inline_i),
{
    if group == 0 {
        WrapKey { kind, group: 0, inline: inline_i }
    } else {
        WrapKey { kind, group, inline: usize::MAX }
    }
}

/// The group of the first of `specs` with this kind, or `0`.
pub open spec fn group_of(specs: Seq<WrapSpec>, kind: WrapKind) -> u64
    decreases specs.len(),
{
    if specs.len() == 0 {
        0
    } else if specs[0].kind == kind {
        specs[0].group
    } else {
        group_of(specs.drop_first(), kind)
    }
}

fn find_group(specs: &Vec<WrapSpec>, kind: WrapKind) -> (group: u64)
    ensures
        group == group_of(specs@, kind),
{
    let mut k: usize = 0;
    assert(specs@.skip(0) =~= specs@);
    while k < specs.len()
        invariant
            k <= specs.len(),
            group_of(specs@, kind) == group_of(specs@.skip(k as int), kind),
        decreases specs.len() - k,
    {
        if specs[k].kind == kind {
            return specs[k].group;
        }
        assert(specs@.skip(k as int).drop_first() =~= specs@.skip(k + 1));
        k = k + 1;
    }
    0
}

/// A layer with the key of its marked span.
#[derive(Debug, PartialEq, Eq)]
pub struct WrapEntry {
    pub key: WrapKey,
    pub layer: WrapLayer,
}

/// The layers around inline `i`, with their keys.
pub open spec fn entries_of(
    b: Seq<u8>,
    inline: Inline,
    facts: InlineFacts,
    block: Range<usize>,
    i: usize,
) -> Seq<WrapEntry> {
    match mark_info(inline) {
        None => Seq::empty(),
        Some((marks, fid)) => {
            let specs = spec_list(marks, fid);
            let layers = wrap_layers(b, facts.core, specs, block.start, block_end(b, block));
            layers.map_values(
                |layer: WrapLayer|
                    WrapEntry { key: key_of(layer.kind, group_of(specs, layer.kind), i), layer },
            )
        },
    }
}

/// Where a block ends inside its source.
pub open spec fn block_end(b: Seq<u8>, block: Range<usize>) -> usize {
    if block.end <= b.len() {
        block.end
    } else {
        b.len() as usize
    }
}

/// The layers around the first `n` inlines, with their keys.
pub open spec fn entries(
    b: Seq<u8>,
    inlines: Seq<Inline>,
    facts: Seq<InlineFacts>,
    block: Range<usize>,
    n: int,
) -> Seq<WrapEntry>
    decreases n,
{
    if n <= 0 {
        Seq::empty()
    } else {
        entries(b, inlines, facts, block, n - 1) + entries_of(
            b,
            inlines[n - 1],
            facts[n - 1],
            block,
            (n - 1) as usize,
        )
    }
}

/// From the first to the last byte of the layers of `all` with this key.
pub open spec fn reach_of(all: Seq<WrapEntry>, key: WrapKey) -> Option<Range<usize>>
    decreases all.len(),
{
    if all.len() == 0 {
        None
    } else {
        let rest = reach_of(all.drop_last(), key);
        let last = all.last();
        if last.key != key {
            rest
        } else {
            match rest {
                None => Some(last.layer.span),
                Some(r) => Some(
                    (if r.start <= last.layer.span.start {
                        r.start
                    } else {
                        last.layer.span.start
                    })..(if r.end >= last.layer.span.end {
                        r.end
                    } else {
                        last.layer.span.end
                    }),
                ),
            }
        }
    }
}

/// Members of the marked spans of `all`.
pub open spec fn groups_of(all: Seq<WrapEntry>) -> Seq<WrapGroup> {
    all.map_values(
        |e: WrapEntry|
            WrapGroup {
                key: e.key,
                open: e.layer.open,
                close: e.layer.close,
                reach: reach_of(all, e.key)->0,
            },
    )
}

/// Members of the marked spans of a leaf. A leaf without source has none.
pub open spec fn wrap_groups(
    b: Seq<u8>,
    inlines: Seq<Inline>,
    facts: Seq<InlineFacts>,
    block: Range<usize>,
) -> Seq<WrapGroup> {
    if b.len() == 0 {
        Seq::empty()
    } else {
        groups_of(entries(b, inlines, facts, block, inlines.len() as int))
    }
}

/// A layer reaches no further than its marked span.
pub proof fn layer_within_reach(all: Seq<WrapEntry>, k: int)
    requires
        0 <= k < all.len(),
    ensures
        reach_of(all, all[k].key) is Some,
        (reach_of(all, all[k].key)->0).start <= all[k].layer.span.start,
        all[k].layer.span.end <= (reach_of(all, all[k].key)->0).end,
    decreases all.len(),
{
    if k < all.len() - 1 {
        layer_within_reach(all.drop_last(), k);
        assert(all.drop_last()[k] == all[k]);
    }
}

fn find_reach(all: &Vec<WrapEntry>, key: WrapKey) -> (reach: Option<Range<usize>>)
    ensures
        reach == reach_of(all@, key),
{
    let mut reach: Option<Range<usize>> = None;
    let mut k: usize = 0;
    assert(all@.take(0) =~= Seq::<WrapEntry>::empty());
    while k < all.len()
        invariant
            k <= all.len(),
            reach == reach_of(all@.take(k as int), key),
        decreases all.len() - k,
    {
        let e = &all[k];
        assert(all@.take(k + 1).drop_last() =~= all@.take(k as int));
        if e.key == key {
            let span = &e.layer.span;
            reach = match reach {
                None => Some(dup(span)),
                Some(r) => {
                    let start: usize = if r.start <= span.start {
                        r.start
                    } else {
                        span.start
                    };
                    let end: usize = if r.end >= span.end {
                        r.end
                    } else {
                        span.end
                    };
                    Some(start..end)
                },
            };
        }
        k = k + 1;
    }
    assert(all@.take(k as int) =~= all@);
    reach
}

/// Members of the marked spans of a leaf.
pub fn collect_wrap_groups(
    source: &str,
    inlines: &[Inline],
    facts: &[InlineFacts],
    block_range: &Range<usize>,
) -> (groups: Vec<WrapGroup>)
    requires
        inlines@.len() == facts@.len(),
    ensures
        groups@ == wrap_groups(encode_utf8(source@), inlines@, facts@, *block_range),
{
    let ghost b = encode_utf8(source@);
    let mut groups: Vec<WrapGroup> = Vec::new();
    let len: usize = byte_len(source);
    if len == 0 {
        return groups;
    }
    let lo: usize = block_range.start;
    let hi: usize = if block_range.end <= len {
        block_range.end
    } else {
        len
    };
    let mut all: Vec<WrapEntry> = Vec::new();
    let mut i: usize = 0;
    while i < inlines.len()
        invariant
            i <= inlines@.len(),
            inlines@.len() == facts@.len(),
            b == encode_utf8(source@),
            lo == block_range.start,
            hi == block_end(b, *block_range),
            all@ == entries(b, inlines@, facts@, *block_range, i as int),
        decreases inlines@.len() - i,
    {
        let ghost had = all@;
        let ghost mine = entries_of(b, inlines@[i as int], facts@[i as int], *block_range, i);
        if let Some((marks, fid)) = run_mark_info(&inlines[i]) {
            let specs = wrap_specs(marks, &fid);
            let layers = adjacent_wrap_layers(source, dup(&facts[i].core), &specs, lo, hi);
            let mut k: usize = 0;
            assert(mine.take(0) =~= Seq::<WrapEntry>::empty());
            while k < layers.len()
                invariant
                    k <= layers.len(),
                    mine.len() == layers@.len(),
                    specs@ == spec_list(marks, fid),
                    forall|j: int|
                        0 <= j < layers@.len() ==> mine[j] == (WrapEntry {
                            key: key_of(
                                layers@[j].kind,
                                group_of(specs@, layers@[j].kind),
                                i,
                            ),
                            layer: layers@[j],
                        }),
                    all@ == had + mine.take(k as int),
                decreases layers.len() - k,
            {
                let layer = &layers[k];
                let group: u64 = find_group(&specs, layer.kind);
                let key = wrap_group_key(layer.kind, group, i);
                all.push(
                    WrapEntry {
                        key,
                        layer: WrapLayer {
                            kind: layer.kind,
                            open: dup_opt(&layer.open),
                            close: dup_opt(&layer.close),
                            span: dup(&layer.span),
                        },
                    },
                );
                assert(mine.take(k + 1) =~= mine.take(k as int).push(mine[k as int]));
                k = k + 1;
            }
            assert(mine.take(k as int) =~= mine);
        }
        assert(all@ =~= had + mine);
        i = i + 1;
    }
    let mut k: usize = 0;
    let ghost whole = groups_of(all@);
    assert(whole.take(0) =~= Seq::<WrapGroup>::empty());
    while k < all.len()
        invariant
            k <= all.len(),
            whole == groups_of(all@),
            groups@ == whole.take(k as int),
        decreases all.len() - k,
    {
        let e = &all[k];
        proof {
            layer_within_reach(all@, k as int);
        }
        let reach = match find_reach(&all, e.key) {
            Some(r) => r,
            None => dup(&e.layer.span),
        };
        groups.push(
            WrapGroup {
                key: e.key,
                open: dup_opt(&e.layer.open),
                close: dup_opt(&e.layer.close),
                reach,
            },
        );
        assert(whole.take(k + 1) =~= whole.take(k as int).push(whole[k as int]));
        k = k + 1;
    }
    assert(whole.take(k as int) =~= whole);
    groups
}

/// An inline that starts or still runs at or after `byte`.
pub open spec fn may_follow(r: Range<usize>, byte: usize) -> bool {
    r.start >= byte || r.end > byte
}

/// How well an inline follows `byte`; less is better.
pub open spec fn follow_rank(r: Range<usize>, byte: usize) -> int {
    if r.start == byte {
        0
    } else if r.start < byte {
        1
    } else {
        2
    }
}

/// Inline `i` is the one that follows `byte`: it starts there; or else it is
/// the earliest that contains it; or else the next one to start.
pub open spec fn follows(inlines: Seq<Inline>, byte: usize, i: int) -> bool {
    &&& 0 <= i < inlines.len()
    &&& may_follow(inlines[i].span(), byte)
    &&& forall|j: int|
        0 <= j < inlines.len() && may_follow((#[trigger] inlines[j]).span(), byte) ==> {
            let a = inlines[i].span();
            let c = inlines[j].span();
            ||| follow_rank(a, byte) < follow_rank(c, byte)
            ||| follow_rank(a, byte) == follow_rank(c, byte) && (a.start < c.start || (a.start
                == c.start && i <= j))
        }
}

/// An inline that ends or already runs at or before `byte`.
pub open spec fn may_precede(r: Range<usize>, byte: usize) -> bool {
    r.end <= byte || r.start < byte
}

/// How well an inline precedes `byte`; more is better.
pub open spec fn precede_rank(r: Range<usize>, byte: usize) -> int {
    if r.end == byte {
        2
    } else if r.start < byte && r.end > byte {
        1
    } else {
        0
    }
}

/// Inline `i` is the one that precedes `byte`: it ends there; or else it
/// contains it; or else it is the last to end before. Of several, the one that
/// ends last, then the last in order.
pub open spec fn precedes(inlines: Seq<Inline>, byte: usize, i: int) -> bool {
    &&& 0 <= i < inlines.len()
    &&& may_precede(inlines[i].span(), byte)
    &&& forall|j: int|
        0 <= j < inlines.len() && may_precede((#[trigger] inlines[j]).span(), byte) ==> {
            let a = inlines[i].span();
            let c = inlines[j].span();
            ||| precede_rank(a, byte) > precede_rank(c, byte)
            ||| precede_rank(a, byte) == precede_rank(c, byte) && (a.end > c.end || (a.end == c.end
                && i >= j))
        }
}

/// At most one inline follows a byte.
pub proof fn follows_is_unique(inlines: Seq<Inline>, byte: usize, i: int, j: int)
    requires
        follows(inlines, byte, i),
        follows(inlines, byte, j),
    ensures
        i == j,
{
    assert(may_follow(inlines[i].span(), byte) && may_follow(inlines[j].span(), byte));
}

/// At most one inline precedes a byte.
pub proof fn precedes_is_unique(inlines: Seq<Inline>, byte: usize, i: int, j: int)
    requires
        precedes(inlines, byte, i),
        precedes(inlines, byte, j),
    ensures
        i == j,
{
    assert(may_precede(inlines[i].span(), byte) && may_precede(inlines[j].span(), byte));
}

/// Some inline follows a byte, unless none may.
pub proof fn some_inline_follows(inlines: Seq<Inline>, byte: usize, j: int)
    requires
        0 <= j < inlines.len(),
        may_follow(inlines[j].span(), byte),
    ensures
        exists|i: int| follows(inlines, byte, i),
    decreases inlines.len(),
{
    let n = inlines.len() - 1;
    let front = inlines.drop_last();
    if forall|k: int| 0 <= k < n ==> !may_follow((#[trigger] inlines[k]).span(), byte) {
        assert(follows(inlines, byte, n));
    } else {
        let k = choose|k: int| 0 <= k < n && may_follow((#[trigger] inlines[k]).span(), byte);
        assert(front[k] == inlines[k]);
        some_inline_follows(front, byte, k);
        let best = choose|i: int| follows(front, byte, i);
        assert(forall|q: int| 0 <= q < n ==> front[q] == #[trigger] inlines[q]);
        let a = inlines[best].span();
        let c = inlines[n].span();
        if may_follow(c, byte) && (follow_rank(c, byte) < follow_rank(a, byte) || (follow_rank(
            c,
            byte,
        ) == follow_rank(a, byte) && c.start < a.start)) {
            assert(follows(inlines, byte, n));
        } else {
            assert(follows(inlines, byte, best));
        }
    }
}

/// Some inline precedes a byte, unless none may.
pub proof fn some_inline_precedes(inlines: Seq<Inline>, byte: usize, j: int)
    requires
        0 <= j < inlines.len(),
        may_precede(inlines[j].span(), byte),
    ensures
        exists|i: int| precedes(inlines, byte, i),
    decreases inlines.len(),
{
    let n = inlines.len() - 1;
    let front = inlines.drop_last();
    if forall|k: int| 0 <= k < n ==> !may_precede((#[trigger] inlines[k]).span(), byte) {
        assert(precedes(inlines, byte, n));
    } else {
        let k = choose|k: int| 0 <= k < n && may_precede((#[trigger] inlines[k]).span(), byte);
        assert(front[k] == inlines[k]);
        some_inline_precedes(front, byte, k);
        let best = choose|i: int| precedes(front, byte, i);
        assert(forall|q: int| 0 <= q < n ==> front[q] == #[trigger] inlines[q]);
        let a = inlines[best].span();
        let c = inlines[n].span();
        if may_precede(c, byte) && (precede_rank(c, byte) > precede_rank(a, byte) || (precede_rank(
            c,
            byte,
        ) == precede_rank(a, byte) && c.end >= a.end)) {
            assert(precedes(inlines, byte, n));
        } else {
            assert(precedes(inlines, byte, best));
        }
    }
}

/// The inline that opening chrome ending at `byte` is painted with.
pub fn first_inline_starting_at_or_after(inlines: &[Inline], byte: usize) -> (found: Option<usize>)
    ensures
        found matches Some(i) ==> follows(inlines@, byte, i as int),
        found is None ==> forall|j: int|
            0 <= j < inlines@.len() ==> !may_follow((#[trigger] inlines@[j]).span(), byte),
{
    let mut best: Option<(usize, u8, usize)> = None;
    let mut i: usize = 0;
    while i < inlines.len()
        invariant
            i <= inlines@.len(),
            best is None ==> forall|j: int|
                0 <= j < i ==> !may_follow((#[trigger] inlines@[j]).span(), byte),
            best matches Some((k, rank, start)) ==> {
                &&& k < i
                &&& follows(inlines@.take(i as int), byte, k as int)
                &&& rank == follow_rank(inlines@[k as int].span(), byte)
                &&& start == inlines@[k as int].span().start
            },
        decreases inlines@.len() - i,
    {
        let r = inlines[i].source_range();
        let ghost front = inlines@.take(i as int);
        let ghost next = inlines@.take(i + 1);
        assert forall|j: int| 0 <= j < i implies next[j] == front[j] by {}
        if r.start >= byte || r.end > byte {
            let rank: u8 = if r.start == byte {
                0
            } else if r.start < byte {
                1
            } else {
                2
            };
            let better = match best {
                None => true,
                Some((_, best_rank, best_start)) => rank < best_rank || (rank == best_rank
                    && r.start < best_start),
            };
            if better {
                best = Some((i, rank, r.start));
            }
        }
        assert(forall|j: int| 0 <= j < i ==> front[j] == #[trigger] inlines@[j]);
        assert(forall|j: int| 0 <= j <= i ==> next[j] == #[trigger] inlines@[j]);
        i = i + 1;
    }
    assert(inlines@.take(i as int) =~= inlines@);
    match best {
        Some((k, _, _)) => Some(k),
        None => None,
    }
}

/// The inline that closing chrome starting at `byte` is painted with.
pub fn last_inline_ending_at_or_before(inlines: &[Inline], byte: usize) -> (found: Option<usize>)
    ensures
        found matches Some(i) ==> precedes(inlines@, byte, i as int),
        found is None ==> forall|j: int|
            0 <= j < inlines@.len() ==> !may_precede((#[trigger] inlines@[j]).span(), byte),
{
    let mut best: Option<(usize, u8, usize)> = None;
    let mut i: usize = 0;
    while i < inlines.len()
        invariant
            i <= inlines@.len(),
            best is None ==> forall|j: int|
                0 <= j < i ==> !may_precede((#[trigger] inlines@[j]).span(), byte),
            best matches Some((k, rank, end)) ==> {
                &&& k < i
                &&& precedes(inlines@.take(i as int), byte, k as int)
                &&& rank == precede_rank(inlines@[k as int].span(), byte)
                &&& end == inlines@[k as int].span().end
            },
        decreases inlines@.len() - i,
    {
        let r = inlines[i].source_range();
        let ghost front = inlines@.take(i as int);
        let ghost next = inlines@.take(i + 1);
        if r.end <= byte || r.start < byte {
            let rank: u8 = if r.end == byte {
                2
            } else if r.start < byte && r.end > byte {
                1
            } else {
                0
            };
            let better = match best {
                None => true,
                Some((_, best_rank, best_end)) => rank > best_rank || (rank == best_rank && r.end
                    >= best_end),
            };
            if better {
                best = Some((i, rank, r.end));
            }
        }
        assert(forall|j: int| 0 <= j < i ==> front[j] == #[trigger] inlines@[j]);
        assert(forall|j: int| 0 <= j <= i ==> next[j] == #[trigger] inlines@[j]);
        i = i + 1;
    }
    assert(inlines@.take(i as int) =~= inlines@);
    match best {
        Some((k, _, _)) => Some(k),
        None => None,
    }
}

/// Whether inline `i` follows `byte`.
pub fn is_after(inlines: &[Inline], byte: usize, i: usize) -> (yes: bool)
    ensures
        yes == follows(inlines@, byte, i as int),
{
    let found = first_inline_starting_at_or_after(inlines, byte);
    proof {
        if follows(inlines@, byte, i as int) && found is Some {
            follows_is_unique(inlines@, byte, i as int, found->0 as int);
        }
        assert(found is None ==> 0 <= i < inlines@.len() ==> !may_follow(
            inlines@[i as int].span(),
            byte,
        ));
    }
    match found {
        Some(k) => k == i,
        None => false,
    }
}

/// Whether inline `i` precedes `byte`.
pub fn is_before(inlines: &[Inline], byte: usize, i: usize) -> (yes: bool)
    ensures
        yes == precedes(inlines@, byte, i as int),
{
    let found = last_inline_ending_at_or_before(inlines, byte);
    proof {
        if precedes(inlines@, byte, i as int) && found is Some {
            precedes_is_unique(inlines@, byte, i as int, found->0 as int);
        }
        assert(found is None ==> 0 <= i < inlines@.len() ==> !may_precede(
            inlines@[i as int].span(),
            byte,
        ));
    }
    match found {
        Some(k) => k == i,
        None => false,
    }
}

/// Opening delimiters of the revealed spans among `groups` that are painted
/// with inline `i`, each once, in source order.
pub open spec fn wrap_opens(
    groups: Seq<WrapGroup>,
    inlines: Seq<Inline>,
    i: int,
    state: RevealState,
) -> Seq<Range<usize>>
    decreases groups.len(),
{
    if groups.len() == 0 {
        Seq::empty()
    } else {
        let rest = wrap_opens(groups.drop_last(), inlines, i, state);
        let g = groups.last();
        if state.meets(g.reach) && g.open is Some && follows(inlines, (g.open->0).end, i) {
            spans::with_unique(rest, g.open->0)
        } else {
            rest
        }
    }
}

/// Closing delimiters of the revealed spans among `groups` that are painted
/// with inline `i`, each once, in source order.
pub open spec fn wrap_closes(
    groups: Seq<WrapGroup>,
    inlines: Seq<Inline>,
    i: int,
    state: RevealState,
) -> Seq<Range<usize>>
    decreases groups.len(),
{
    if groups.len() == 0 {
        Seq::empty()
    } else {
        let rest = wrap_closes(groups.drop_last(), inlines, i, state);
        let g = groups.last();
        if state.meets(g.reach) && g.close is Some && precedes(inlines, (g.close->0).start, i) {
            spans::with_unique(rest, g.close->0)
        } else {
            rest
        }
    }
}

/// Delimiters painted before and after inline `inline_i`.
pub fn revealed_wrap_lists(
    groups: &Vec<WrapGroup>,
    inlines: &[Inline],
    inline_i: usize,
    state: &RevealState,
) -> (lists: (Vec<Range<usize>>, Vec<Range<usize>>))
    ensures
        lists.0@ == wrap_opens(groups@, inlines@, inline_i as int, *state),
        lists.1@ == wrap_closes(groups@, inlines@, inline_i as int, *state),
{
    let mut opens: Vec<Range<usize>> = Vec::new();
    let mut closes: Vec<Range<usize>> = Vec::new();
    let mut k: usize = 0;
    assert(groups@.take(0) =~= Seq::<WrapGroup>::empty());
    while k < groups.len()
        invariant
            k <= groups.len(),
            opens@ == wrap_opens(groups@.take(k as int), inlines@, inline_i as int, *state),
            closes@ == wrap_closes(groups@.take(k as int), inlines@, inline_i as int, *state),
        decreases groups.len() - k,
    {
        let g = &groups[k];
        assert(groups@.take(k + 1).drop_last() =~= groups@.take(k as int));
        if state.intersects(&g.reach) {
            if let Some(open) = &g.open {
                if is_after(inlines, open.end, inline_i) {
                    insert_unique(&mut opens, dup(open));
                }
            }
            if let Some(close) = &g.close {
                if is_before(inlines, close.start, inline_i) {
                    insert_unique(&mut closes, dup(close));
                }
            }
        }
        k = k + 1;
    }
    assert(groups@.take(k as int) =~= groups@);
    (opens, closes)
}

/// The revealed delimiters of an inline are in source order, none twice.
pub proof fn wrap_lists_increase(
    groups: Seq<WrapGroup>,
    inlines: Seq<Inline>,
    i: int,
    state: RevealState,
)
    ensures
        spans::increasing(wrap_opens(groups, inlines, i, state)),
        spans::increasing(wrap_closes(groups, inlines, i, state)),
    decreases groups.len(),
{
    if groups.len() > 0 {
        wrap_lists_increase(groups.drop_last(), inlines, i, state);
        let g = groups.last();
        if g.open is Some {
            spans::lemma_with_unique(
                wrap_opens(groups.drop_last(), inlines, i, state),
                g.open->0,
            );
        }
        if g.close is Some {
            spans::lemma_with_unique(
                wrap_closes(groups.drop_last(), inlines, i, state),
                g.close->0,
            );
        }
    }
}

/// A marked span that the caret does not reveal paints no delimiter; in
/// particular, with no span revealed there is nothing to paint.
pub proof fn hidden_wraps_paint_nothing(
    groups: Seq<WrapGroup>,
    inlines: Seq<Inline>,
    i: int,
    state: RevealState,
)
    requires
        forall|k: int| 0 <= k < groups.len() ==> !state.meets((#[trigger] groups[k]).reach),
    ensures
        wrap_opens(groups, inlines, i, state).len() == 0,
        wrap_closes(groups, inlines, i, state).len() == 0,
    decreases groups.len(),
{
    if groups.len() > 0 {
        assert(!state.meets(groups[groups.len() - 1].reach));
        assert forall|k: int| 0 <= k < groups.len() - 1 implies !state.meets(
            (#[trigger] groups.drop_last()[k]).reach,
        ) by {
            assert(!state.meets(groups[k].reach));
        }
        hidden_wraps_paint_nothing(groups.drop_last(), inlines, i, state);
    }
}

/// Group `k` is revealed, and inline `i` is the one that its opening delimiter
/// `r` is painted with.
pub open spec fn opens_with(
    groups: Seq<WrapGroup>,
    inlines: Seq<Inline>,
    i: int,
    state: RevealState,
    k: int,
    r: Range<usize>,
) -> bool {
    &&& 0 <= k < groups.len()
    &&& state.meets(groups[k].reach)
    &&& groups[k].open == Some(r)
    &&& follows(inlines, r.end, i)
}

/// Group `k` is revealed, and inline `i` is the one that its closing delimiter
/// `r` is painted with.
pub open spec fn closes_with(
    groups: Seq<WrapGroup>,
    inlines: Seq<Inline>,
    i: int,
    state: RevealState,
    k: int,
    r: Range<usize>,
) -> bool {
    &&& 0 <= k < groups.len()
    &&& state.meets(groups[k].reach)
    &&& groups[k].close == Some(r)
    &&& precedes(inlines, r.start, i)
}

/// An inline paints a delimiter exactly when a revealed span has it and the
/// inline is the one next to it.
pub proof fn wraps_paint_exactly_the_revealed(
    groups: Seq<WrapGroup>,
    inlines: Seq<Inline>,
    i: int,
    state: RevealState,
    r: Range<usize>,
)
    ensures
        wrap_opens(groups, inlines, i, state).contains(r) <==> exists|k: int|
            opens_with(groups, inlines, i, state, k, r),
        wrap_closes(groups, inlines, i, state).contains(r) <==> exists|k: int|
            closes_with(groups, inlines, i, state, k, r),
    decreases groups.len(),
{
    if groups.len() > 0 {
        let front = groups.drop_last();
        let n = front.len() as int;
        let g = groups.last();
        wraps_paint_exactly_the_revealed(front, inlines, i, state, r);
        wrap_lists_increase(front, inlines, i, state);
        assert forall|k: int| opens_with(front, inlines, i, state, k, r) implies opens_with(
            groups,
            inlines,
            i,
            state,
            k,
            r,
        ) by {}
        assert forall|k: int| opens_with(groups, inlines, i, state, k, r) && k < n implies opens_with(
            front,
            inlines,
            i,
            state,
            k,
            r,
        ) by {}
        assert forall|k: int| closes_with(front, inlines, i, state, k, r) implies closes_with(
            groups,
            inlines,
            i,
            state,
            k,
            r,
        ) by {}
        assert forall|k: int| closes_with(groups, inlines, i, state, k, r) && k < n implies closes_with(
            front,
            inlines,
            i,
            state,
            k,
            r,
        ) by {}
        let opens = wrap_opens(front, inlines, i, state);
        let closes = wrap_closes(front, inlines, i, state);
        if g.open is Some {
            spans::lemma_with_unique(opens, g.open->0);
            assert(spans::with_unique(opens, g.open->0).contains(r) <==> r == g.open->0
                || opens.contains(r));
        }
        if g.close is Some {
            spans::lemma_with_unique(closes, g.close->0);
            assert(spans::with_unique(closes, g.close->0).contains(r) <==> r == g.close->0
                || closes.contains(r));
        }
        assert(opens_with(groups, inlines, i, state, n, r) <==> state.meets(g.reach) && g.open
            == Some(r) && follows(inlines, r.end, i));
        assert(closes_with(groups, inlines, i, state, n, r) <==> state.meets(g.reach) && g.close
            == Some(r) && precedes(inlines, r.start, i));
    }
}

proof fn lemma_peel_within(b: Seq<u8>, core: Range<usize>, specs: Seq<WrapSpec>, block: Range<usize>)
    requires
        spans::within(core, block),
    ensures
        spans::within(peel_all(b, core, specs), block),
    decreases specs.len(),
{
    if specs.len() > 0 {
        lemma_peel_within(b, core, specs.drop_last(), block);
    }
}

proof fn lemma_layers_within(
    b: Seq<u8>,
    specs: Seq<WrapSpec>,
    used: Seq<WrapKind>,
    core: Range<usize>,
    block: Range<usize>,
    fuel: nat,
)
    requires
        spans::within(core, block),
    ensures
        forall|k: int|
            0 <= k < layers_around(
                b,
                specs,
                used,
                core,
                block.start,
                block_end(b, block),
                fuel,
            ).len() ==> spans::within(
                (#[trigger] layers_around(
                    b,
                    specs,
                    used,
                    core,
                    block.start,
                    block_end(b, block),
                    fuel,
                )[k]).span,
                block,
            ),
    decreases fuel,
{
    let lo = block.start;
    let hi = block_end(b, block);
    if fuel > 0 {
        if let Some(s) = next_layer(b, specs, used, core, lo, hi, 0) {
            let layer = layer_of(b, s, core, lo, hi);
            let less = (fuel - 1) as nat;
            lemma_layers_within(b, specs, used.push(s.kind), layer.span, block, less);
            let rest = layers_around(b, specs, used.push(s.kind), layer.span, lo, hi, less);
            let all = layers_around(b, specs, used, core, lo, hi, fuel);
            assert forall|k: int| 0 <= k < all.len() implies spans::within(
                (#[trigger] all[k]).span,
                block,
            ) by {
                if k > 0 {
                    assert(all[k] == rest[k - 1]);
                }
            }
        }
    }
}

proof fn lemma_entries_within(
    b: Seq<u8>,
    inlines: Seq<Inline>,
    facts: Seq<InlineFacts>,
    block: Range<usize>,
    n: int,
)
    requires
        0 <= n <= facts.len(),
        forall|i: int| 0 <= i < n ==> spans::within((#[trigger] facts[i]).core, block),
    ensures
        forall|k: int|
            0 <= k < entries(b, inlines, facts, block, n).len() ==> spans::within(
                (#[trigger] entries(b, inlines, facts, block, n)[k]).layer.span,
                block,
            ),
    decreases n,
{
    if n > 0 {
        lemma_entries_within(b, inlines, facts, block, n - 1);
        let front = entries(b, inlines, facts, block, n - 1);
        let mine = entries_of(b, inlines[n - 1], facts[n - 1], block, (n - 1) as usize);
        let all = entries(b, inlines, facts, block, n);
        let core = facts[n - 1].core;
        if let Some((marks, fid)) = mark_info(inlines[n - 1]) {
            let specs = spec_list(marks, fid);
            lemma_peel_within(b, core, specs, block);
            lemma_layers_within(
                b,
                specs,
                Seq::empty(),
                peel_all(b, core, specs),
                block,
                specs.len(),
            );
        }
        assert forall|k: int| 0 <= k < all.len() implies spans::within(
            (#[trigger] all[k]).layer.span,
            block,
        ) by {
            if k < front.len() {
                assert(all[k] == front[k]);
            } else {
                assert(all[k] == mine[k - front.len()]);
            }
        }
    }
}

proof fn lemma_reach_within(all: Seq<WrapEntry>, key: WrapKey, block: Range<usize>)
    requires
        forall|k: int| 0 <= k < all.len() ==> spans::within((#[trigger] all[k]).layer.span, block),
    ensures
        reach_of(all, key) matches Some(r) ==> spans::within(r, block),
    decreases all.len(),
{
    if all.len() > 0 {
        let front = all.drop_last();
        assert forall|k: int| 0 <= k < front.len() implies spans::within(
            (#[trigger] front[k]).layer.span,
            block,
        ) by {
            assert(front[k] == all[k]);
        }
        lemma_reach_within(front, key, block);
        assert(spans::within(all[all.len() - 1].layer.span, block));
    }
}

/// The marked spans of a leaf stay inside its block.
pub proof fn marked_spans_stay_within(
    b: Seq<u8>,
    inlines: Seq<Inline>,
    facts: Seq<InlineFacts>,
    block: Range<usize>,
)
    requires
        inlines.len() == facts.len(),
        forall|i: int| 0 <= i < facts.len() ==> spans::within((#[trigger] facts[i]).core, block),
    ensures
        forall|k: int|
            0 <= k < wrap_groups(b, inlines, facts, block).len() ==> spans::within(
                (#[trigger] wrap_groups(b, inlines, facts, block)[k]).reach,
                block,
            ),
{
    let all = entries(b, inlines, facts, block, inlines.len() as int);
    let groups = wrap_groups(b, inlines, facts, block);
    lemma_entries_within(b, inlines, facts, block, inlines.len() as int);
    assert forall|k: int| 0 <= k < groups.len() implies spans::within(
        (#[trigger] groups[k]).reach,
        block,
    ) by {
        layer_within_reach(all, k);
        lemma_reach_within(all, all[k].key, block);
    }
}

/// Every mark has its own delimiters: back-ticks for code, as many as it was
/// written with; two equals signs for a highlight; a caret and a tilde for
/// raised and lowered text, two tildes for struck text; and for emphasis what it
/// was written with, once for italic and twice for bold.
pub proof fn marks_have_their_delimiters(fid: MarkFidelity)
    ensures
        ({
            let s = spec_of(WrapKind::Code, fid);
            s.delim == 96 && (fid.code_backticks > 0 ==> s.width == fid.code_backticks) && (
            fid.code_backticks == 0 ==> s.width == 1)
        }),
        spec_of(WrapKind::Highlight, fid).delim == 61 && spec_of(WrapKind::Highlight, fid).width
            == 2,
        spec_of(WrapKind::Sup, fid).delim == 94 && spec_of(WrapKind::Sup, fid).width == 1,
        spec_of(WrapKind::Sub, fid).delim == 126 && spec_of(WrapKind::Sub, fid).width == 1,
        spec_of(WrapKind::Strike, fid).delim == 126 && spec_of(WrapKind::Strike, fid).width == 2,
        spec_of(WrapKind::Italic, fid).delim == fid.emph_delim && spec_of(
            WrapKind::Italic,
            fid,
        ).width == 1,
        spec_of(WrapKind::Bold, fid).delim == fid.strong_delim && spec_of(WrapKind::Bold, fid).width
            == 2,
        spec_of(WrapKind::Highlight, fid).group == fid.highlight_group,
        spec_of(WrapKind::Sup, fid).group == fid.sup_group,
        spec_of(WrapKind::Sub, fid).group == fid.sub_group,
        spec_of(WrapKind::Italic, fid).group == fid.emph_group,
        spec_of(WrapKind::Strike, fid).group == fid.strike_group,
        spec_of(WrapKind::Bold, fid).group == fid.strong_group,
        forall|kind: WrapKind| (#[trigger] spec_of(kind, fid)).kind == kind,
{
}

/// The run has the mark.
pub open spec fn marked(marks: MarkSet, kind: WrapKind) -> bool {
    match kind {
        WrapKind::Code => marks.code,
        WrapKind::Highlight => marks.highlight,
        WrapKind::Sup => marks.sup,
        WrapKind::Sub => marks.sub,
        WrapKind::Italic => marks.italic,
        WrapKind::Strike => marks.strike,
        WrapKind::Bold => marks.bold,
    }
}

/// How far out the delimiters of a mark are looked for.
pub open spec fn depth(kind: WrapKind) -> int {
    match kind {
        WrapKind::Code => 0,
        WrapKind::Highlight => 1,
        WrapKind::Sup => 2,
        WrapKind::Sub => 3,
        WrapKind::Italic => 4,
        WrapKind::Strike => 5,
        WrapKind::Bold => 6,
    }
}

/// `list` goes from the inside out, and ends before `limit`.
pub open spec fn inside_out(list: Seq<WrapSpec>, limit: int) -> bool {
    &&& forall|i: int, j: int|
        0 <= i < j < list.len() ==> depth((#[trigger] list[i]).kind) < depth(
            (#[trigger] list[j]).kind,
        )
    &&& forall|i: int| 0 <= i < list.len() ==> depth((#[trigger] list[i]).kind) < limit
}

proof fn lemma_listed(list: Seq<WrapSpec>, cond: bool, s: WrapSpec, x: WrapSpec)
    requires
        inside_out(list, depth(s.kind)),
    ensures
        inside_out(push_if(list, cond, s), depth(s.kind) + 1),
        push_if(list, cond, s).contains(x) <==> list.contains(x) || (cond && x == s),
{
    let next = push_if(list, cond, s);
    if list.contains(x) {
        let k = choose|k: int| 0 <= k < list.len() && list[k] == x;
        assert(next[k] == x);
    }
    if cond {
        assert(next[list.len() as int] == s);
    }
}

/// Exactly the marks of a run have delimiters to look for, each once, and from
/// the inside out: code, highlight, raised, lowered, italic, struck, bold.
pub proof fn marks_are_looked_for_from_the_inside(marks: MarkSet, fid: MarkFidelity, kind: WrapKind)
    ensures
        spec_list(marks, fid).contains(spec_of(kind, fid)) <==> marked(marks, kind),
        inside_out(spec_list(marks, fid), 7),
{
    let x = spec_of(kind, fid);
    let s0 = Seq::<WrapSpec>::empty();
    lemma_listed(s0, marks.code, spec_of(WrapKind::Code, fid), x);
    let s1 = push_if(s0, marks.code, spec_of(WrapKind::Code, fid));
    lemma_listed(s1, marks.highlight, spec_of(WrapKind::Highlight, fid), x);
    let s2 = push_if(s1, marks.highlight, spec_of(WrapKind::Highlight, fid));
    lemma_listed(s2, marks.sup, spec_of(WrapKind::Sup, fid), x);
    let s3 = push_if(s2, marks.sup, spec_of(WrapKind::Sup, fid));
    lemma_listed(s3, marks.sub, spec_of(WrapKind::Sub, fid), x);
    let s4 = push_if(s3, marks.sub, spec_of(WrapKind::Sub, fid));
    lemma_listed(s4, marks.italic, spec_of(WrapKind::Italic, fid), x);
    let s5 = push_if(s4, marks.italic, spec_of(WrapKind::Italic, fid));
    lemma_listed(s5, marks.strike, spec_of(WrapKind::Strike, fid), x);
    let s6 = push_if(s5, marks.strike, spec_of(WrapKind::Strike, fid));
    lemma_listed(s6, marks.bold, spec_of(WrapKind::Bold, fid), x);
}

/// A delimiter is a stretch of its byte alone, within its limits.
pub proof fn delimiters_repeat_their_byte(
    b: Seq<u8>,
    r: Range<usize>,
    delim: u8,
    lo: usize,
    hi: usize,
)
    ensures
        is_delim(b, r, delim, lo, hi) ==> lo <= r.start < r.end <= hi && r.end <= b.len() && (
        forall|i: int| r.start <= i < r.end ==> #[trigger] b[i] == delim),
        lo <= r.start < r.end <= hi && text::boundary(b, r.start as int) && text::boundary(
            b,
            r.end as int,
        ) && (forall|i: int| r.start <= i < r.end ==> #[trigger] b[i] == delim) ==> is_delim(
            b,
            r,
            delim,
            lo,
            hi,
        ),
{
}

/// Delimiters at both ends of a span are peeled off it; without them on both
/// sides, or without room for both, the span stays.
pub proof fn delimiters_are_peeled_from_both_ends(
    b: Seq<u8>,
    inner: Range<usize>,
    delim: u8,
    width: usize,
)
    requires
        width > 0,
        inner.start + 2 * width <= inner.end <= b.len(),
        b.len() <= usize::MAX,
        text::boundary(b, inner.start as int),
        text::boundary(b, inner.start + width),
        text::boundary(b, inner.end - width),
        text::boundary(b, inner.end as int),
    ensures
        (forall|i: int|
            inner.start <= i < inner.start + width || inner.end - width <= i < inner.end
                ==> #[trigger] b[i] == delim) ==> peeled(b, inner, delim, width) == ((inner.start
            + width) as usize..(inner.end - width) as usize),
        forall|i: int|
            (inner.start <= i < inner.start + width || inner.end - width <= i < inner.end)
                && #[trigger] b[i] != delim ==> peeled(b, inner, delim, width) == inner,
{
}

/// Text between the delimiters of its only mark has that one layer: the
/// delimiters right around it, as wide as they are, and all between them.
pub proof fn marked_text_lies_between_its_delimiters(
    b: Seq<u8>,
    core: Range<usize>,
    s: WrapSpec,
    lo: usize,
    hi: usize,
)
    requires
        b.len() <= usize::MAX,
        peeled(b, core, s.delim, s.width) == core,
        lo + s.width <= core.start <= core.end,
        core.end + s.width <= hi,
        hi <= b.len(),
        is_delim(b, ((core.start - s.width) as usize..core.start), s.delim, lo, hi),
        is_delim(b, (core.end..(core.end + s.width) as usize), s.delim, lo, hi),
    ensures
        ({
            let layers = wrap_layers(b, core, seq![s], lo, hi);
            &&& layers.len() == 1
            &&& layers[0].kind == s.kind
            &&& layers[0].open == Some(((core.start - s.width) as usize..core.start))
            &&& layers[0].close == Some((core.end..(core.end + s.width) as usize))
            &&& layers[0].span == ((core.start - s.width) as usize..(core.end + s.width) as usize)
        }),
{
    let specs = seq![s];
    assert(specs.drop_last() =~= Seq::<WrapSpec>::empty());
    reveal_with_fuel(peel_all, 2);
    reveal_with_fuel(next_layer, 3);
    reveal_with_fuel(layers_around, 2);
    assert(specs.last() == s);
    assert(peel_all(b, core, specs) == core);
    let layers = wrap_layers(b, core, specs, lo, hi);
    assert(next_layer(b, specs, Seq::empty(), core, lo, hi, 0) == Some(s));
    assert(layers =~= seq![layer_of(b, s, core, lo, hi)]);
}

/// Which inlines carry marks: runs and emoji as they were written, images
/// plainly; breaks, formulas and wiki links none.
pub proof fn marks_are_carried_by(inline: Inline)
    ensures
        inline is Run && inline->Run_marks != MarkSet::none() ==> mark_info(inline) == Some(
            (inline->Run_marks, inline->Run_fidelity),
        ),
        inline is Emoji && inline->Emoji_marks != MarkSet::none() ==> mark_info(inline) == Some(
            (inline->Emoji_marks, inline->Emoji_fidelity),
        ),
        inline is Image && inline->Image_marks != MarkSet::none() ==> mark_info(inline) == Some(
            (inline->Image_marks, MarkFidelity::plain()),
        ),
        inline is Run && inline->Run_marks == MarkSet::none() ==> mark_info(inline) is None,
        inline is SoftBreak || inline is HardBreak || inline is Math || inline is WikiLink
            ==> mark_info(inline) is None,
{
}

/// Layers belong together by the group of their mark; those without a group by
/// their inline.
pub proof fn layers_belong_by_their_group(kind: WrapKind, group: u64, i: usize, j: usize)
    ensures
        group != 0 ==> key_of(kind, group, i) == key_of(kind, group, j),
        group == 0 && i != j ==> key_of(kind, group, i) != key_of(kind, group, j),
        forall|other: u64|
            other != group ==> #[trigger] key_of(kind, other, j) != key_of(kind, group, i),
        forall|other: WrapKind|
            other != kind ==> #[trigger] key_of(other, group, j) != key_of(kind, group, i),
{
}

/// What belongs together reaches from the first to the last byte of its layers.
pub proof fn marks_reach_over_their_layers(all: Seq<WrapEntry>, key: WrapKey)
    requires
        reach_of(all, key) is Some,
    ensures
        exists|k: int|
            0 <= k < all.len() && (#[trigger] all[k]).key == key && all[k].layer.span.start
                == (reach_of(all, key)->0).start,
        exists|k: int|
            0 <= k < all.len() && (#[trigger] all[k]).key == key && all[k].layer.span.end
                == (reach_of(all, key)->0).end,
    decreases all.len(),
{
    let rest = all.drop_last();
    let last = all.last();
    let n = all.len() - 1;
    if reach_of(rest, key) is Some {
        marks_reach_over_their_layers(rest, key);
        let r = reach_of(rest, key)->0;
        let a = choose|k: int|
            0 <= k < rest.len() && (#[trigger] rest[k]).key == key && rest[k].layer.span.start
                == r.start;
        let z = choose|k: int|
            0 <= k < rest.len() && (#[trigger] rest[k]).key == key && rest[k].layer.span.end
                == r.end;
        assert(all[a] == rest[a] && all[z] == rest[z]);
    }
    assert(all[n] == last);
}

/// An inline that starts at a byte follows it, before any that starts elsewhere;
/// one that ends at a byte precedes it likewise.
pub proof fn neighbours_touch(inlines: Seq<Inline>, byte: usize, i: int)
    requires
        0 <= i < inlines.len(),
    ensures
        inlines[i].span().start == byte && (forall|j: int|
            0 <= j < i ==> (#[trigger] inlines[j]).span().start != byte) ==> follows(
            inlines,
            byte,
            i,
        ),
        inlines[i].span().end == byte && (forall|j: int|
            i < j < inlines.len() ==> (#[trigger] inlines[j]).span().end != byte) ==> precedes(
            inlines,
            byte,
            i,
        ),
        follows(inlines, byte, i) ==> inlines[i].span().start >= byte || inlines[i].span().end
            > byte,
        precedes(inlines, byte, i) ==> inlines[i].span().end <= byte || inlines[i].span().start
            < byte,
{
}

/// Where no inline starts at a byte or lies over it, the nearest behind follows
/// it; and so before it.
pub proof fn nearest_inline_follows(inlines: Seq<Inline>, byte: usize, i: int)
    requires
        0 <= i < inlines.len(),
        inlines[i].span().start > byte,
        forall|j: int|
            0 <= j < inlines.len() && j != i ==> (#[trigger] inlines[j]).span().end <= byte
                && inlines[j].span().start < byte || inlines[j].span().start
                > inlines[i].span().start,
    ensures
        follows(inlines, byte, i),
{
}

/// A mark that is met shows its opening before the inline that follows it, and
/// its closing behind the one that precedes it.
pub proof fn met_marks_show_their_delimiters(
    groups: Seq<WrapGroup>,
    inlines: Seq<Inline>,
    i: int,
    state: RevealState,
    k: int,
)
    requires
        0 <= k < groups.len(),
        state.meets(groups[k].reach),
    ensures
        groups[k].open matches Some(r) ==> (follows(inlines, r.end, i) ==> wrap_opens(
            groups,
            inlines,
            i,
            state,
        ).contains(r)),
        groups[k].close matches Some(r) ==> (precedes(inlines, r.start, i) ==> wrap_closes(
            groups,
            inlines,
            i,
            state,
        ).contains(r)),
{
    if groups[k].open is Some {
        let r = groups[k].open->0;
        wraps_paint_exactly_the_revealed(groups, inlines, i, state, r);
        if follows(inlines, r.end, i) {
            assert(opens_with(groups, inlines, i, state, k, r));
        }
    }
    if groups[k].close is Some {
        let r = groups[k].close->0;
        wraps_paint_exactly_the_revealed(groups, inlines, i, state, r);
        if precedes(inlines, r.start, i) {
            assert(closes_with(groups, inlines, i, state, k, r));
        }
    }
}

/// Only a mark that is met shows anything, and only its own delimiters.
pub proof fn only_met_marks_show(
    groups: Seq<WrapGroup>,
    inlines: Seq<Inline>,
    i: int,
    state: RevealState,
    r: Range<usize>,
)
    ensures
        wrap_opens(groups, inlines, i, state).contains(r) ==> exists|k: int|
            0 <= k < groups.len() && state.meets((#[trigger] groups[k]).reach) && groups[k].open
                == Some(r),
        wrap_closes(groups, inlines, i, state).contains(r) ==> exists|k: int|
            0 <= k < groups.len() && state.meets((#[trigger] groups[k]).reach) && groups[k].close
                == Some(r),
{
    wraps_paint_exactly_the_revealed(groups, inlines, i, state, r);
    if wrap_opens(groups, inlines, i, state).contains(r) {
        let k = choose|k: int| opens_with(groups, inlines, i, state, k, r);
        assert(state.meets(groups[k].reach));
    }
    if wrap_closes(groups, inlines, i, state).contains(r) {
        let k = choose|k: int| closes_with(groups, inlines, i, state, k, r);
        assert(state.meets(groups[k].reach));
    }
}

/// A mark may open at a run and close at another: with a delimiter on one side
/// alone the run has a layer that is open on the other, and without any it has
/// none.
pub proof fn marks_may_open_without_closing(
    b: Seq<u8>,
    core: Range<usize>,
    s: WrapSpec,
    lo: usize,
    hi: usize,
)
    requires
        b.len() <= usize::MAX,
        peeled(b, core, s.delim, s.width) == core,
        lo + s.width <= core.start <= core.end,
        core.end + s.width <= hi,
        hi <= b.len(),
    ensures
        ({
            let layers = wrap_layers(b, core, seq![s], lo, hi);
            let opens = is_delim(
                b,
                ((core.start - s.width) as usize..core.start),
                s.delim,
                lo,
                hi,
            );
            let closes = is_delim(b, (core.end..(core.end + s.width) as usize), s.delim, lo, hi);
            &&& opens && !closes ==> layers.len() == 1 && layers[0].open is Some && layers[0].close
                is None && layers[0].span.end == core.end && layers[0].span.start == core.start
                - s.width
            &&& closes && !opens ==> layers.len() == 1 && layers[0].close is Some && layers[0].open
                is None && layers[0].span.start == core.start && layers[0].span.end == core.end
                + s.width
            &&& !opens && !closes ==> layers.len() == 0
        }),
{
    let specs = seq![s];
    assert(specs.drop_last() =~= Seq::<WrapSpec>::empty());
    reveal_with_fuel(peel_all, 2);
    reveal_with_fuel(next_layer, 3);
    reveal_with_fuel(layers_around, 2);
    assert(specs.last() == s);
    assert(peel_all(b, core, specs) == core);
    let layers = wrap_layers(b, core, specs, lo, hi);
    if touches(b, s, core, lo, hi) {
        assert(next_layer(b, specs, Seq::empty(), core, lo, hi, 0) == Some(s));
        assert(layers =~= seq![layer_of(b, s, core, lo, hi)]);
    } else {
        assert(next_layer(b, specs, Seq::empty(), core, lo, hi, 0) is None);
    }
}

/// Every layer of every run makes a group, with its own delimiters and at least
/// its own reach.
pub proof fn every_layer_makes_a_group(
    b: Seq<u8>,
    inlines: Seq<Inline>,
    facts: Seq<InlineFacts>,
    block: Range<usize>,
    k: int,
)
    requires
        b.len() > 0,
        0 <= k < entries(b, inlines, facts, block, inlines.len() as int).len(),
    ensures
        ({
            let all = entries(b, inlines, facts, block, inlines.len() as int);
            let groups = wrap_groups(b, inlines, facts, block);
            &&& groups.len() == all.len()
            &&& groups[k].key == all[k].key
            &&& groups[k].open == all[k].layer.open && groups[k].close == all[k].layer.close
            &&& groups[k].reach.start <= all[k].layer.span.start && all[k].layer.span.end
                <= groups[k].reach.end
        }),
{
    layer_within_reach(entries(b, inlines, facts, block, inlines.len() as int), k);
}

/// The layers of every inline are among those of the block.
pub proof fn layers_of_all_inlines_count(
    b: Seq<u8>,
    inlines: Seq<Inline>,
    facts: Seq<InlineFacts>,
    block: Range<usize>,
    n: int,
    i: int,
    e: WrapEntry,
)
    requires
        0 <= i < n <= inlines.len() <= usize::MAX,
        entries_of(b, inlines[i], facts[i], block, i as usize).contains(e),
    ensures
        entries(b, inlines, facts, block, n).contains(e),
    decreases n,
{
    let rest = entries(b, inlines, facts, block, n - 1);
    let own = entries_of(b, inlines[n - 1], facts[n - 1], block, (n - 1) as usize);
    let all = entries(b, inlines, facts, block, n);
    if i < n - 1 {
        layers_of_all_inlines_count(b, inlines, facts, block, n - 1, i, e);
        let k = choose|k: int| 0 <= k < rest.len() && rest[k] == e;
        assert(all[k] == e);
    } else {
        let k = choose|k: int| 0 <= k < own.len() && own[k] == e;
        assert(all[rest.len() + k] == e);
    }
}

} // verus!
