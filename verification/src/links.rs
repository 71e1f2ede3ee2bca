//! Brackets and destinations of links and images: which of them a caret
//! reveals.

use std::ops::Range;

use vstd::prelude::*;
use vstd::utf8::*;

use crate::caret::RevealState;
use crate::spans;
use crate::spans::insert_unique;
use crate::text::{byte_len, dup};
use crate::tree::{Inline, InlineFacts, LinkAttrs, MarkdownLinkChrome};
use crate::wrap;
use crate::wrap::{is_after, is_before};

verus! {

/// Identity of a painted link: a link group, or an image by its position.
#[derive(Debug, Clone, Copy, PartialEq, Eq, Structural)]
pub enum LinkPaintKey {
    Group(u64),
    Image(usize),
}

/// A link or image with the chrome that it paints when revealed.
#[derive(Debug, PartialEq, Eq)]
pub struct LinkPaintGroup {
    pub key: LinkPaintKey,
    pub chrome: MarkdownLinkChrome,
    /// Image widgets are one caret unit: the destination paints with the node.
    pub atomic_dest: bool,
}

/// The part of `range` inside `lo..hi`.
pub open spec fn clamped(range: Range<usize>, lo: usize, hi: usize) -> Range<usize> {
    (if range.start >= lo {
        range.start
    } else {
        lo
    })..(if range.end <= hi {
        range.end
    } else {
        hi
    })
}

/// The part of `range` inside `lo..hi`.
pub fn clamp_span(range: &Range<usize>, lo: usize, hi: usize) -> (out: Range<usize>)
    ensures
        out == clamped(*range, lo, hi),
{
    let start: usize = if range.start >= lo {
        range.start
    } else {
        lo
    };
    let end: usize = if range.end <= hi {
        range.end
    } else {
        hi
    };
    start..end
}

/// Whether a link is written without brackets of its own.
pub fn md_link_is_angle(link: &LinkAttrs) -> (yes: bool)
    ensures
        yes == (link.autolink || link.angle),
{
    link.autolink || link.angle
}

/// `groups` with the chrome of one more member of `key`: the opening bracket
/// is that of the first member, the closing bracket and the destination are
/// those of the last, and the outer span covers all members.
pub open spec fn with_link(
    groups: Seq<LinkPaintGroup>,
    key: LinkPaintKey,
    chrome: MarkdownLinkChrome,
    atomic_dest: bool,
) -> Seq<LinkPaintGroup>
    decreases groups.len(),
{
    if groups.len() == 0 {
        seq![LinkPaintGroup { key, chrome, atomic_dest }]
    } else if groups[0].key == key {
        seq![joined(groups[0], chrome)] + groups.drop_first()
    } else {
        seq![groups[0]] + with_link(groups.drop_first(), key, chrome, atomic_dest)
    }
}

/// `g` after a further member with the chrome `chrome`.
pub open spec fn joined(g: LinkPaintGroup, chrome: MarkdownLinkChrome) -> LinkPaintGroup {
    LinkPaintGroup {
        chrome: MarkdownLinkChrome {
            outer: (if g.chrome.outer.start <= chrome.outer.start {
                g.chrome.outer.start
            } else {
                chrome.outer.start
            })..(if g.chrome.outer.end >= chrome.outer.end {
                g.chrome.outer.end
            } else {
                chrome.outer.end
            }),
            open: g.chrome.open,
            close: chrome.close,
            dest: chrome.dest,
        },
        ..g
    }
}

/// Adds the chrome of one more member of `key`.
pub fn insert_link_group(
    groups: &mut Vec<LinkPaintGroup>,
    key: LinkPaintKey,
    chrome: &MarkdownLinkChrome,
    atomic_dest: bool,
)
    ensures
        final(groups)@ == with_link(old(groups)@, key, *chrome, atomic_dest),
{
    let mut k: usize = 0;
    let ghost total = with_link(groups@, key, *chrome, atomic_dest);
    assert(groups@.skip(0) =~= groups@);
    assert(groups@.take(0) + total =~= total);
    while k < groups.len()
        invariant
            k <= groups.len(),
            groups@ == old(groups)@,
            total == with_link(groups@, key, *chrome, atomic_dest),
            total == groups@.take(k as int) + with_link(
                groups@.skip(k as int),
                key,
                *chrome,
                atomic_dest,
            ),
        decreases groups.len() - k,
    {
        let ghost rest = groups@.skip(k as int);
        assert(rest.drop_first() =~= groups@.skip(k + 1));
        if groups[k].key == key {
            let g = &groups[k];
            let start: usize = if g.chrome.outer.start <= chrome.outer.start {
                g.chrome.outer.start
            } else {
                chrome.outer.start
            };
            let end: usize = if g.chrome.outer.end >= chrome.outer.end {
                g.chrome.outer.end
            } else {
                chrome.outer.end
            };
            let next = LinkPaintGroup {
                key: g.key,
                chrome: MarkdownLinkChrome {
                    outer: start..end,
                    open: dup(&g.chrome.open),
                    close: dup(&chrome.close),
                    dest: dup(&chrome.dest),
                },
                atomic_dest: g.atomic_dest,
            };
            assert(next == joined(groups@[k as int], *chrome));
            let ghost before = groups@;
            groups.set(k, next);
            assert(groups@ =~= before.take(k as int) + (seq![next] + rest.drop_first()));
            return;
        }
        assert(groups@.take(k as int) + (seq![rest[0]] + with_link(
            rest.drop_first(),
            key,
            *chrome,
            atomic_dest,
        )) =~= groups@.take(k + 1) + with_link(groups@.skip(k + 1), key, *chrome, atomic_dest));
        k = k + 1;
    }
    let ghost before = groups@;
    groups.push(LinkPaintGroup { key, chrome: chrome.clone(), atomic_dest });
    assert(before.skip(k as int) =~= Seq::<LinkPaintGroup>::empty());
    assert(groups@ =~= total);
}

/// The key that a linked node joins, unless its link has no brackets.
pub open spec fn link_key(link: Option<LinkAttrs>) -> Option<LinkPaintKey> {
    match link {
        Some(l) => if l.autolink || l.angle {
            None
        } else {
            Some(LinkPaintKey::Group(l.group))
        },
        None => None,
    }
}

fn find_link_key(link: &Option<LinkAttrs>) -> (key: Option<LinkPaintKey>)
    ensures
        key == link_key(*link),
{
    match link {
        Some(l) => if md_link_is_angle(l) {
            None
        } else {
            Some(LinkPaintKey::Group(l.group))
        },
        None => None,
    }
}

/// `groups` after the link around a node, if it has chrome.
pub open spec fn with_node_link(
    groups: Seq<LinkPaintGroup>,
    link: Option<LinkAttrs>,
    facts: InlineFacts,
) -> Seq<LinkPaintGroup> {
    match (link_key(link), facts.link_chrome) {
        (Some(key), Some(chrome)) => with_link(groups, key, chrome, false),
        _ => groups,
    }
}

/// `groups` after inline `i`.
pub open spec fn with_inline(
    groups: Seq<LinkPaintGroup>,
    inline: Inline,
    facts: InlineFacts,
    i: usize,
) -> Seq<LinkPaintGroup> {
    match inline {
        Inline::Run { link, .. } => with_node_link(groups, link, facts),
        Inline::Emoji { link, .. } => with_node_link(groups, link, facts),
        Inline::Image { link, .. } => {
            let own = match facts.image_chrome {
                Some(chrome) => with_link(groups, LinkPaintKey::Image(i), chrome, true),
                None => groups,
            };
            with_node_link(own, link, facts)
        },
        _ => groups,
    }
}

/// The links and images of the first `n` inlines.
pub open spec fn links_of(inlines: Seq<Inline>, facts: Seq<InlineFacts>, n: int) -> Seq<
    LinkPaintGroup,
>
    decreases n,
{
    if n <= 0 {
        Seq::empty()
    } else {
        with_inline(
            links_of(inlines, facts, n - 1),
            inlines[n - 1],
            facts[n - 1],
            (n - 1) as usize,
        )
    }
}

/// The links and images of a leaf. A leaf without source has none.
pub open spec fn link_groups(
    b: Seq<u8>,
    inlines: Seq<Inline>,
    facts: Seq<InlineFacts>,
) -> Seq<LinkPaintGroup> {
    if b.len() == 0 {
        Seq::empty()
    } else {
        links_of(inlines, facts, inlines.len() as int)
    }
}

fn add_node_link(groups: &mut Vec<LinkPaintGroup>, link: &Option<LinkAttrs>, facts: &InlineFacts)
    ensures
        final(groups)@ == with_node_link(old(groups)@, *link, *facts),
{
    if let Some(key) = find_link_key(link) {
        if let Some(chrome) = &facts.link_chrome {
            insert_link_group(groups, key, chrome, false);
        }
    }
}

/// The links and images of a leaf.
pub fn collect_link_groups(source: &str, inlines: &[Inline], facts: &[InlineFacts]) -> (groups: Vec<
    LinkPaintGroup,
>)
    requires
        inlines@.len() == facts@.len(),
    ensures
        groups@ == link_groups(encode_utf8(source@), inlines@, facts@),
{
    let mut groups: Vec<LinkPaintGroup> = Vec::new();
    if byte_len(source) == 0 {
        return groups;
    }
    let mut i: usize = 0;
    while i < inlines.len()
        invariant
            i <= inlines@.len(),
            inlines@.len() == facts@.len(),
            groups@ == links_of(inlines@, facts@, i as int),
        decreases inlines@.len() - i,
    {
        match &inlines[i] {
            Inline::Run { link, .. } => add_node_link(&mut groups, link, &facts[i]),
            Inline::Emoji { link, .. } => add_node_link(&mut groups, link, &facts[i]),
            Inline::Image { link, .. } => {
                if let Some(chrome) = &facts[i].image_chrome {
                    insert_link_group(&mut groups, LinkPaintKey::Image(i), chrome, true);
                }
                add_node_link(&mut groups, link, &facts[i]);
            },
            _ => {},
        }
        i = i + 1;
    }
    groups
}

/// The destination of a link is shown: with the caret in it, or under a
/// selection that meets the link; for an image, with the image.
pub open spec fn dest_shown(
    state: RevealState,
    dest: Range<usize>,
    outer: Range<usize>,
    atomic: bool,
) -> bool {
    dest.start < dest.end && if atomic {
        state.meets(outer)
    } else {
        state.meets(dest) || (state.selects() && state.meets(outer))
    }
}

/// Whether the destination of a link is shown.
pub fn reveal_link_dest(
    state: &RevealState,
    dest: &Range<usize>,
    outer: &Range<usize>,
    atomic: bool,
) -> (shown: bool)
    ensures
        shown == dest_shown(*state, *dest, *outer, atomic),
{
    if dest.start >= dest.end {
        return false;
    }
    if atomic {
        return state.intersects(outer);
    }
    if state.intersects(dest) {
        return true;
    }
    state.has_selection() && state.intersects(outer)
}

/// A caret in the label alone keeps the destination of a link hidden.
pub proof fn label_caret_hides_dest(state: RevealState, dest: Range<usize>, outer: Range<usize>)
    requires
        !state.selects(),
        state.caret < dest.start,
    ensures
        !dest_shown(state, dest, outer, false),
{
}

/// Opening brackets of the revealed links among `groups` that are painted with
/// inline `i`, each once, in source order.
pub open spec fn link_opens(
    groups: Seq<LinkPaintGroup>,
    inlines: Seq<Inline>,
    i: int,
    state: RevealState,
) -> Seq<Range<usize>>
    decreases groups.len(),
{
    if groups.len() == 0 {
        Seq::empty()
    } else {
        let rest = link_opens(groups.drop_last(), inlines, i, state);
        let c = groups.last().chrome;
        if state.meets(c.outer) && c.open.start < c.open.end && wrap::follows(
            inlines,
            c.open.end,
            i,
        ) {
            spans::with_unique(rest, c.open)
        } else {
            rest
        }
    }
}

/// Closing brackets and shown destinations of the revealed links among
/// `groups` that are painted with inline `i`, each once, in source order.
pub open spec fn link_closes(
    groups: Seq<LinkPaintGroup>,
    inlines: Seq<Inline>,
    i: int,
    state: RevealState,
) -> Seq<Range<usize>>
    decreases groups.len(),
{
    if groups.len() == 0 {
        Seq::empty()
    } else {
        let rest = link_closes(groups.drop_last(), inlines, i, state);
        let g = groups.last();
        let c = g.chrome;
        if !state.meets(c.outer) {
            rest
        } else {
            let closed = if c.close.start < c.close.end && wrap::precedes(
                inlines,
                c.close.start,
                i,
            ) {
                spans::with_unique(rest, c.close)
            } else {
                rest
            };
            if dest_shown(state, c.dest, c.outer, g.atomic_dest) && wrap::precedes(
                inlines,
                c.dest.start,
                i,
            ) {
                spans::with_unique(closed, c.dest)
            } else {
                closed
            }
        }
    }
}

/// Link chrome painted before and after inline `inline_i`.
pub fn revealed_link_sides(
    groups: &Vec<LinkPaintGroup>,
    inlines: &[Inline],
    inline_i: usize,
    state: &RevealState,
) -> (lists: (Vec<Range<usize>>, Vec<Range<usize>>))
    ensures
        lists.0@ == link_opens(groups@, inlines@, inline_i as int, *state),
        lists.1@ == link_closes(groups@, inlines@, inline_i as int, *state),
{
    let mut opens: Vec<Range<usize>> = Vec::new();
    let mut closes: Vec<Range<usize>> = Vec::new();
    let mut k: usize = 0;
    assert(groups@.take(0) =~= Seq::<LinkPaintGroup>::empty());
    while k < groups.len()
        invariant
            k <= groups.len(),
            opens@ == link_opens(groups@.take(k as int), inlines@, inline_i as int, *state),
            closes@ == link_closes(groups@.take(k as int), inlines@, inline_i as int, *state),
        decreases groups.len() - k,
    {
        let g = &groups[k];
        let c = &g.chrome;
        assert(groups@.take(k + 1).drop_last() =~= groups@.take(k as int));
        if state.intersects(&c.outer) {
            if c.open.start < c.open.end && is_after(inlines, c.open.end, inline_i) {
                insert_unique(&mut opens, dup(&c.open));
            }
            if c.close.start < c.close.end && is_before(inlines, c.close.start, inline_i) {
                insert_unique(&mut closes, dup(&c.close));
            }
            if reveal_link_dest(state, &c.dest, &c.outer, g.atomic_dest) && is_before(
                inlines,
                c.dest.start,
                inline_i,
            ) {
                insert_unique(&mut closes, dup(&c.dest));
            }
        }
        k = k + 1;
    }
    assert(groups@.take(k as int) =~= groups@);
    (opens, closes)
}

/// The revealed chrome of an inline is in source order, none twice.
pub proof fn link_lists_increase(
    groups: Seq<LinkPaintGroup>,
    inlines: Seq<Inline>,
    i: int,
    state: RevealState,
)
    ensures
        spans::increasing(link_opens(groups, inlines, i, state)),
        spans::increasing(link_closes(groups, inlines, i, state)),
    decreases groups.len(),
{
    if groups.len() > 0 {
        let front = groups.drop_last();
        link_lists_increase(front, inlines, i, state);
        let c = groups.last().chrome;
        spans::lemma_with_unique(link_opens(front, inlines, i, state), c.open);
        let rest = link_closes(front, inlines, i, state);
        spans::lemma_with_unique(rest, c.close);
        spans::lemma_with_unique(rest, c.dest);
        spans::lemma_with_unique(spans::with_unique(rest, c.close), c.dest);
    }
}

/// Every link keeps one entry: keys never repeat.
pub open spec fn distinct_keys(groups: Seq<LinkPaintGroup>) -> bool {
    forall|i: int, j: int|
        0 <= i < j < groups.len() ==> (#[trigger] groups[i]).key != (#[trigger] groups[j]).key
}

proof fn lemma_with_link_keys(
    groups: Seq<LinkPaintGroup>,
    key: LinkPaintKey,
    chrome: MarkdownLinkChrome,
    atomic: bool,
)
    requires
        distinct_keys(groups),
    ensures
        distinct_keys(with_link(groups, key, chrome, atomic)),
        forall|k: int|
            0 <= k < with_link(groups, key, chrome, atomic).len() ==> (
            #[trigger] with_link(groups, key, chrome, atomic)[k]).key == key || exists|q: int|
                0 <= q < groups.len() && (#[trigger] groups[q]).key == with_link(
                    groups,
                    key,
                    chrome,
                    atomic,
                )[k].key,
    decreases groups.len(),
{
    let out = with_link(groups, key, chrome, atomic);
    if groups.len() == 0 {
    } else if groups[0].key == key {
        assert forall|i: int, j: int| 0 <= i < j < out.len() implies out[i].key != out[j].key by {
            assert(out[j].key == groups[j].key);
            assert(out[i].key == groups[i].key);
        }
        assert forall|k: int| 0 <= k < out.len() implies (#[trigger] out[k]).key == key || exists|
            q: int,
        |
            0 <= q < groups.len() && (#[trigger] groups[q]).key == out[k].key by {
            assert(groups[k].key == out[k].key);
        }
    } else {
        let tail = groups.drop_first();
        assert forall|i: int, j: int| 0 <= i < j < tail.len() implies tail[i].key != tail[j].key by {
            assert(groups[i + 1].key != groups[j + 1].key);
        }
        lemma_with_link_keys(tail, key, chrome, atomic);
        let rest = with_link(tail, key, chrome, atomic);
        assert forall|k: int| 0 <= k < out.len() implies (#[trigger] out[k]).key == key || exists|
            q: int,
        |
            0 <= q < groups.len() && (#[trigger] groups[q]).key == out[k].key by {
            if k == 0 {
                assert(groups[0].key == out[0].key);
            } else {
                assert(out[k] == rest[k - 1]);
                if rest[k - 1].key != key {
                    let q = choose|q: int|
                        0 <= q < tail.len() && (#[trigger] tail[q]).key == rest[k - 1].key;
                    assert(groups[q + 1].key == out[k].key);
                }
            }
        }
        assert forall|i: int, j: int| 0 <= i < j < out.len() implies out[i].key != out[j].key by {
            if i == 0 {
                assert(out[j] == rest[j - 1]);
                if rest[j - 1].key != key {
                    let q = choose|q: int|
                        0 <= q < tail.len() && (#[trigger] tail[q]).key == rest[j - 1].key;
                    assert(groups[0].key != groups[q + 1].key);
                }
            } else {
                assert(rest[i - 1].key != rest[j - 1].key);
            }
        }
    }
}

/// A link is collected once however many inlines it spans.
pub proof fn links_have_distinct_keys(inlines: Seq<Inline>, facts: Seq<InlineFacts>, n: int)
    ensures
        distinct_keys(links_of(inlines, facts, n)),
    decreases n,
{
    if n > 0 {
        links_have_distinct_keys(inlines, facts, n - 1);
        let before = links_of(inlines, facts, n - 1);
        let f = facts[n - 1];
        let i = (n - 1) as usize;
        let own = match (inlines[n - 1], f.image_chrome) {
            (Inline::Image { .. }, Some(chrome)) => with_link(
                before,
                LinkPaintKey::Image(i),
                chrome,
                true,
            ),
            _ => before,
        };
        if f.image_chrome is Some {
            lemma_with_link_keys(before, LinkPaintKey::Image(i), f.image_chrome->0, true);
        }
        let link = match inlines[n - 1] {
            Inline::Run { link, .. } => link,
            Inline::Emoji { link, .. } => link,
            Inline::Image { link, .. } => link,
            _ => None,
        };
        if link_key(link) is Some && f.link_chrome is Some {
            lemma_with_link_keys(own, link_key(link)->0, f.link_chrome->0, false);
        }
    }
}

/// Links that are not revealed paint no chrome.
pub proof fn hidden_links_paint_nothing(
    groups: Seq<LinkPaintGroup>,
    inlines: Seq<Inline>,
    i: int,
    state: RevealState,
)
    requires
        forall|k: int| 0 <= k < groups.len() ==> !state.meets((#[trigger] groups[k]).chrome.outer),
    ensures
        link_opens(groups, inlines, i, state).len() == 0,
        link_closes(groups, inlines, i, state).len() == 0,
    decreases groups.len(),
{
    if groups.len() > 0 {
        let front = groups.drop_last();
        assert(!state.meets(groups[groups.len() - 1].chrome.outer));
        assert forall|k: int| 0 <= k < front.len() implies !state.meets(
            (#[trigger] front[k]).chrome.outer,
        ) by {
            assert(!state.meets(groups[k].chrome.outer));
        }
        hidden_links_paint_nothing(front, inlines, i, state);
    }
}

/// Link `k` is revealed, and inline `i` is the one that its opening bracket
/// `r` is painted with.
pub open spec fn opens_with(
    groups: Seq<LinkPaintGroup>,
    inlines: Seq<Inline>,
    i: int,
    state: RevealState,
    k: int,
    r: Range<usize>,
) -> bool {
    &&& 0 <= k < groups.len()
    &&& state.meets(groups[k].chrome.outer)
    &&& groups[k].chrome.open == r
    &&& r.start < r.end
    &&& wrap::follows(inlines, r.end, i)
}

/// Link `k` is revealed, and inline `i` is the one that its closing bracket or
/// shown destination `r` is painted with.
pub open spec fn closes_with(
    groups: Seq<LinkPaintGroup>,
    inlines: Seq<Inline>,
    i: int,
    state: RevealState,
    k: int,
    r: Range<usize>,
) -> bool {
    let c = groups[k].chrome;
    &&& 0 <= k < groups.len()
    &&& state.meets(c.outer)
    &&& (c.close == r && r.start < r.end) || (c.dest == r && dest_shown(
        state,
        c.dest,
        c.outer,
        groups[k].atomic_dest,
    ))
    &&& wrap::precedes(inlines, r.start, i)
}

/// An inline paints a bracket or a destination exactly when a revealed link
/// has it and the inline is the one next to it.
pub proof fn links_paint_exactly_the_revealed(
    groups: Seq<LinkPaintGroup>,
    inlines: Seq<Inline>,
    i: int,
    state: RevealState,
    r: Range<usize>,
)
    ensures
        link_opens(groups, inlines, i, state).contains(r) <==> exists|k: int|
            opens_with(groups, inlines, i, state, k, r),
        link_closes(groups, inlines, i, state).contains(r) <==> exists|k: int|
            closes_with(groups, inlines, i, state, k, r),
    decreases groups.len(),
{
    if groups.len() > 0 {
        let front = groups.drop_last();
        let n = front.len() as int;
        let g = groups.last();
        let c = g.chrome;
        links_paint_exactly_the_revealed(front, inlines, i, state, r);
        link_lists_increase(front, inlines, i, state);
        assert forall|k: int| opens_with(front, inlines, i, state, k, r) implies opens_with(
            groups,
            inlines,
            i,
            state,
            k,
            r,
        ) by {}
        assert forall|k: int| opens_with(groups, inlines, i, state, k, r) && k < n implies opens_with(
            front,
            inlines,
            i,
            state,
            k,
            r,
        ) by {}
        assert forall|k: int| closes_with(front, inlines, i, state, k, r) implies closes_with(
            groups,
            inlines,
            i,
            state,
            k,
            r,
        ) by {}
        assert forall|k: int| closes_with(groups, inlines, i, state, k, r) && k < n implies closes_with(
            front,
            inlines,
            i,
            state,
            k,
            r,
        ) by {}
        let opens = link_opens(front, inlines, i, state);
        let rest = link_closes(front, inlines, i, state);
        spans::lemma_with_unique(opens, c.open);
        assert(spans::with_unique(opens, c.open).contains(r) <==> r == c.open || opens.contains(r));
        spans::lemma_with_unique(rest, c.close);
        let closed = spans::with_unique(rest, c.close);
        assert(closed.contains(r) <==> r == c.close || rest.contains(r));
        spans::lemma_with_unique(rest, c.dest);
        assert(spans::with_unique(rest, c.dest).contains(r) <==> r == c.dest || rest.contains(r));
        spans::lemma_with_unique(closed, c.dest);
        assert(spans::with_unique(closed, c.dest).contains(r) <==> r == c.dest || closed.contains(
            r,
        ));
        assert(opens_with(groups, inlines, i, state, n, r) <==> state.meets(c.outer) && c.open == r
            && r.start < r.end && wrap::follows(inlines, r.end, i));
        assert(closes_with(groups, inlines, i, state, n, r) <==> state.meets(c.outer) && ((c.close
            == r && r.start < r.end) || (c.dest == r && dest_shown(
            state,
            c.dest,
            c.outer,
            g.atomic_dest,
        ))) && wrap::precedes(inlines, r.start, i));
    }
}

/// All of `groups` stay inside `block`.
pub open spec fn all_within(groups: Seq<LinkPaintGroup>, block: Range<usize>) -> bool {
    forall|k: int|
        0 <= k < groups.len() ==> spans::within((#[trigger] groups[k]).chrome.outer, block)
}

proof fn lemma_with_link_within(
    groups: Seq<LinkPaintGroup>,
    key: LinkPaintKey,
    chrome: MarkdownLinkChrome,
    atomic_dest: bool,
    block: Range<usize>,
)
    requires
        all_within(groups, block),
        spans::within(chrome.outer, block),
    ensures
        all_within(with_link(groups, key, chrome, atomic_dest), block),
    decreases groups.len(),
{
    if groups.len() > 0 {
        let rest = groups.drop_first();
        assert(spans::within(groups[0].chrome.outer, block));
        assert forall|k: int| 0 <= k < rest.len() implies spans::within(
            (#[trigger] rest[k]).chrome.outer,
            block,
        ) by {
            assert(rest[k] == groups[k + 1]);
        }
        lemma_with_link_within(rest, key, chrome, atomic_dest, block);
        let out = with_link(groups, key, chrome, atomic_dest);
        let tail = if groups[0].key == key {
            rest
        } else {
            with_link(rest, key, chrome, atomic_dest)
        };
        assert forall|k: int| 0 <= k < out.len() implies spans::within(
            (#[trigger] out[k]).chrome.outer,
            block,
        ) by {
            if k > 0 {
                assert(out[k] == tail[k - 1]);
            }
        }
    }
}

/// The chrome that `facts` gives the node stays inside `block`.
pub open spec fn chrome_within(facts: InlineFacts, block: Range<usize>) -> bool {
    &&& facts.link_chrome matches Some(c) ==> spans::within(c.outer, block)
    &&& facts.image_chrome matches Some(c) ==> spans::within(c.outer, block)
}

proof fn lemma_node_link_within(
    groups: Seq<LinkPaintGroup>,
    link: Option<LinkAttrs>,
    facts: InlineFacts,
    block: Range<usize>,
)
    requires
        all_within(groups, block),
        chrome_within(facts, block),
    ensures
        all_within(with_node_link(groups, link, facts), block),
{
    if let (Some(key), Some(chrome)) = (link_key(link), facts.link_chrome) {
        lemma_with_link_within(groups, key, chrome, false, block);
    }
}

proof fn lemma_links_within(
    inlines: Seq<Inline>,
    facts: Seq<InlineFacts>,
    block: Range<usize>,
    n: int,
)
    requires
        n <= facts.len(),
        forall|i: int| 0 <= i < n ==> chrome_within(#[trigger] facts[i], block),
    ensures
        all_within(links_of(inlines, facts, n), block),
    decreases n,
{
    if n > 0 {
        lemma_links_within(inlines, facts, block, n - 1);
        let groups = links_of(inlines, facts, n - 1);
        let f = facts[n - 1];
        match inlines[n - 1] {
            Inline::Run { link, .. } => lemma_node_link_within(groups, link, f, block),
            Inline::Emoji { link, .. } => lemma_node_link_within(groups, link, f, block),
            Inline::Image { link, .. } => {
                let i = (n - 1) as usize;
                if let Some(chrome) = f.image_chrome {
                    lemma_with_link_within(groups, LinkPaintKey::Image(i), chrome, true, block);
                    let own = with_link(groups, LinkPaintKey::Image(i), chrome, true);
                    lemma_node_link_within(own, link, f, block);
                } else {
                    lemma_node_link_within(groups, link, f, block);
                }
            },
            _ => {},
        }
    }
}

/// The links and images of a leaf stay inside its block.
pub proof fn links_stay_within(
    b: Seq<u8>,
    inlines: Seq<Inline>,
    facts: Seq<InlineFacts>,
    block: Range<usize>,
)
    requires
        inlines.len() == facts.len(),
        forall|i: int| 0 <= i < facts.len() ==> chrome_within(#[trigger] facts[i], block),
    ensures
        all_within(link_groups(b, inlines, facts), block),
{
    lemma_links_within(inlines, facts, block, inlines.len() as int);
}

/// The destination of a link shows where it is met itself, or where a selection
/// meets the link; that of an image wherever the image is met.
pub proof fn destinations_show_when_met(
    state: RevealState,
    dest: Range<usize>,
    outer: Range<usize>,
    atomic: bool,
)
    ensures
        dest.start >= dest.end ==> !dest_shown(state, dest, outer, atomic),
        dest.start < dest.end && atomic ==> (dest_shown(state, dest, outer, atomic) <==> state.meets(
            outer,
        )),
        dest.start < dest.end && dest.start <= state.caret <= dest.end ==> dest_shown(
            state,
            dest,
            outer,
            false,
        ),
        dest.start < dest.end && state.selection.start < state.selection.end && state.meets(outer)
            ==> dest_shown(state, dest, outer, false),
        state.selection.start >= state.selection.end && !(dest.start <= state.caret <= dest.end)
            ==> !dest_shown(state, dest, outer, false),
{
}

/// A link that is met shows its opening before the inline that follows it, and
/// its closing behind the one that precedes it; its destination likewise, where
/// it shows.
pub proof fn met_links_show_their_sides(
    groups: Seq<LinkPaintGroup>,
    inlines: Seq<Inline>,
    i: int,
    state: RevealState,
    k: int,
)
    requires
        0 <= k < groups.len(),
        state.meets(groups[k].chrome.outer),
    ensures
        ({
            let c = groups[k].chrome;
            let opens = link_opens(groups, inlines, i, state);
            let closes = link_closes(groups, inlines, i, state);
            &&& c.open.start < c.open.end && wrap::follows(inlines, c.open.end, i)
                ==> opens.contains(c.open)
            &&& c.close.start < c.close.end && wrap::precedes(inlines, c.close.start, i)
                ==> closes.contains(c.close)
            &&& c.dest.start < c.dest.end && (state.meets(c.dest) || groups[k].atomic_dest || (
            state.selection.start < state.selection.end)) && wrap::precedes(
                inlines,
                c.dest.start,
                i,
            ) ==> closes.contains(c.dest)
        }),
{
    let c = groups[k].chrome;
    links_paint_exactly_the_revealed(groups, inlines, i, state, c.open);
    links_paint_exactly_the_revealed(groups, inlines, i, state, c.close);
    links_paint_exactly_the_revealed(groups, inlines, i, state, c.dest);
    if c.open.start < c.open.end && wrap::follows(inlines, c.open.end, i) {
        assert(opens_with(groups, inlines, i, state, k, c.open));
    }
    if c.close.start < c.close.end && wrap::precedes(inlines, c.close.start, i) {
        assert(closes_with(groups, inlines, i, state, k, c.close));
    }
    if dest_shown(state, c.dest, c.outer, groups[k].atomic_dest) && wrap::precedes(
        inlines,
        c.dest.start,
        i,
    ) {
        assert(closes_with(groups, inlines, i, state, k, c.dest));
    }
}

/// Only a link that is met shows anything, and only its own opening, closing and
/// destination.
pub proof fn only_met_links_show(
    groups: Seq<LinkPaintGroup>,
    inlines: Seq<Inline>,
    i: int,
    state: RevealState,
    r: Range<usize>,
)
    ensures
        link_opens(groups, inlines, i, state).contains(r) ==> exists|k: int|
            0 <= k < groups.len() && state.meets((#[trigger] groups[k]).chrome.outer)
                && groups[k].chrome.open == r,
        link_closes(groups, inlines, i, state).contains(r) ==> exists|k: int|
            0 <= k < groups.len() && state.meets((#[trigger] groups[k]).chrome.outer) && (
            groups[k].chrome.close == r || groups[k].chrome.dest == r),
{
    links_paint_exactly_the_revealed(groups, inlines, i, state, r);
    if link_opens(groups, inlines, i, state).contains(r) {
        let k = choose|k: int| opens_with(groups, inlines, i, state, k, r);
        assert(state.meets(groups[k].chrome.outer));
    }
    if link_closes(groups, inlines, i, state).contains(r) {
        let k = choose|k: int| closes_with(groups, inlines, i, state, k, r);
        assert(state.meets(groups[k].chrome.outer));
    }
}

/// Parts of one link are one: it opens where its first part opens, closes and
/// leads where its last part does, and reaches over all of them. Other links
/// are left as they are, and a new one comes last.
pub proof fn parts_of_a_link_are_joined(
    groups: Seq<LinkPaintGroup>,
    key: LinkPaintKey,
    chrome: MarkdownLinkChrome,
    atomic_dest: bool,
    k: int,
)
    ensures
        ({
            let all = with_link(groups, key, chrome, atomic_dest);
            &&& groups.len() <= all.len() <= groups.len() + 1
            &&& 0 <= k < groups.len() && groups[k].key != key ==> all[k] == groups[k]
            &&& 0 <= k < groups.len() && groups[k].key == key && (forall|j: int|
                0 <= j < k ==> (#[trigger] groups[j]).key != key) ==> all.len() == groups.len()
                && all[k].key == key && all[k].chrome.open == groups[k].chrome.open
                && all[k].chrome.close == chrome.close && all[k].chrome.dest == chrome.dest
                && all[k].atomic_dest == groups[k].atomic_dest && all[k].chrome.outer.start
                <= chrome.outer.start && all[k].chrome.outer.start
                <= groups[k].chrome.outer.start && all[k].chrome.outer.end >= chrome.outer.end
                && all[k].chrome.outer.end >= groups[k].chrome.outer.end && (
            all[k].chrome.outer.start == chrome.outer.start || all[k].chrome.outer.start
                == groups[k].chrome.outer.start) && (all[k].chrome.outer.end == chrome.outer.end
                || all[k].chrome.outer.end == groups[k].chrome.outer.end)
            &&& (forall|j: int| 0 <= j < groups.len() ==> (#[trigger] groups[j]).key != key) ==> all
                == groups.push(LinkPaintGroup { key, chrome, atomic_dest })
        }),
    decreases groups.len(),
{
    if groups.len() > 0 && groups[0].key != key {
        let rest = groups.drop_first();
        parts_of_a_link_are_joined(rest, key, chrome, atomic_dest, k - 1);
        assert(forall|j: int| 0 <= j < rest.len() ==> #[trigger] rest[j] == groups[j + 1]);
        let all = with_link(groups, key, chrome, atomic_dest);
        let tail = with_link(rest, key, chrome, atomic_dest);
        assert(all =~= seq![groups[0]] + tail);
        if 0 < k < groups.len() && (forall|j: int|
            0 <= j < k ==> (#[trigger] groups[j]).key != key) {
            assert forall|j: int| 0 <= j < k - 1 implies (#[trigger] rest[j]).key != key by {
                assert(groups[j + 1].key != key);
            }
        }
        if forall|j: int| 0 <= j < groups.len() ==> (#[trigger] groups[j]).key != key {
            assert forall|j: int| 0 <= j < rest.len() implies (#[trigger] rest[j]).key != key by {
                assert(groups[j + 1].key != key);
            }
            assert(all =~= groups.push(LinkPaintGroup { key, chrome, atomic_dest }));
        }
    } else if groups.len() == 0 {
        assert(seq![LinkPaintGroup { key, chrome, atomic_dest }] =~= groups.push(
            LinkPaintGroup { key, chrome, atomic_dest },
        ));
    }
}

/// Which links have sides: all but autolinks, by the group of the link; images
/// of their own, by their place.
pub proof fn links_go_by_their_group(
    groups: Seq<LinkPaintGroup>,
    inline: Inline,
    facts: InlineFacts,
    i: usize,
    link: LinkAttrs,
)
    ensures
        link.autolink || link.angle ==> link_key(Some(link)) is None,
        !link.autolink && !link.angle ==> link_key(Some(link)) == Some(
            LinkPaintKey::Group(link.group),
        ),
        link_key(None) is None,
        inline is Run && inline->Run_link == Some(link) && !link.autolink && !link.angle
            && facts.link_chrome is Some ==> with_inline(groups, inline, facts, i) == with_link(
            groups,
            LinkPaintKey::Group(link.group),
            facts.link_chrome->0,
            false,
        ),
        inline is Image && inline->Image_link is None && facts.image_chrome is Some ==> with_inline(
            groups,
            inline,
            facts,
            i,
        ) == with_link(groups, LinkPaintKey::Image(i), facts.image_chrome->0, true),
        inline is Run && inline->Run_link is None ==> with_inline(groups, inline, facts, i)
            == groups,
        inline is SoftBreak || inline is HardBreak || inline is Math || inline is WikiLink || inline
            is OpaqueInline ==> with_inline(groups, inline, facts, i) == groups,
{
}

/// A clamped span keeps what lies between the limits.
pub proof fn clamping_keeps_what_is_between(range: Range<usize>, lo: usize, hi: usize, k: int)
    ensures
        clamped(range, lo, hi).start <= k < clamped(range, lo, hi).end <==> range.start <= k
            < range.end && lo <= k < hi,
{
}

/// The links of a block are those of all its inlines, where it has source.
pub proof fn links_of_all_inlines_count(b: Seq<u8>, inlines: Seq<Inline>, facts: Seq<InlineFacts>)
    ensures
        b.len() > 0 ==> link_groups(b, inlines, facts) == links_of(
            inlines,
            facts,
            inlines.len() as int,
        ),
        b.len() == 0 ==> link_groups(b, inlines, facts).len() == 0,
{
}

} // verus!
