//! Walks over the blocks of a document.

use vstd::prelude::*;

use crate::caret::ChromeHosts;
use crate::text::dup;
use crate::tree::{Block, BlockKind, BreakStyle, Inline, NodeId, RichTree};

verus! {

/// `hosts` inside `block`.
pub open spec fn hosts_inside(hosts: ChromeHosts, block: Block) -> ChromeHosts {
    let range = Some(block.source_range);
    match block.kind {
        BlockKind::BlockQuote => ChromeHosts { quote: range, ..hosts },
        BlockKind::ListItem { .. } => ChromeHosts { list_item: range, ..hosts },
        BlockKind::Table { .. } => ChromeHosts { table: range, ..hosts },
        BlockKind::FootnoteDefinition { .. } => ChromeHosts { footnote_def: range, ..hosts },
        BlockKind::DefinitionDetails => ChromeHosts { definition_details: range, ..hosts },
        _ => hosts,
    }
}

/// The containers around the first block with the id `target`, in document
/// order, when there is one. The block itself counts as its own container.
pub open spec fn hosts_of(blocks: Seq<Block>, target: NodeId, hosts: ChromeHosts) -> Option<
    ChromeHosts,
>
    decreases blocks,
{
    if blocks.len() == 0 {
        None
    } else {
        let b = blocks[0];
        let here = hosts_inside(hosts, b);
        if b.id == target {
            Some(here)
        } else {
            match hosts_of(b.children@, target, here) {
                Some(found) => Some(found),
                None => hosts_of(blocks.drop_first(), target, hosts),
            }
        }
    }
}

fn find_hosts(blocks: &Vec<Block>, target: NodeId, hosts: &ChromeHosts) -> (found: Option<
    ChromeHosts,
>)
    ensures
        found == hosts_of(blocks@, target, *hosts),
    decreases blocks,
{
    let mut k: usize = 0;
    assert(blocks@.skip(0) =~= blocks@);
    while k < blocks.len()
        invariant
            k <= blocks.len(),
            hosts_of(blocks@, target, *hosts) == hosts_of(blocks@.skip(k as int), target, *hosts),
        decreases blocks.len() - k,
    {
        let b = &blocks[k];
        assert(blocks@.skip(k as int)[0] == *b);
        assert(blocks@.skip(k as int).drop_first() =~= blocks@.skip(k + 1));
        let mut here = hosts.clone();
        match &b.kind {
            BlockKind::BlockQuote => {
                here.quote = Some(dup(&b.source_range));
            },
            BlockKind::ListItem { .. } => {
                here.list_item = Some(dup(&b.source_range));
            },
            BlockKind::Table { .. } => {
                here.table = Some(dup(&b.source_range));
            },
            BlockKind::FootnoteDefinition { .. } => {
                here.footnote_def = Some(dup(&b.source_range));
            },
            BlockKind::DefinitionDetails => {
                here.definition_details = Some(dup(&b.source_range));
            },
            _ => {},
        }
        if b.id == target {
            return Some(here);
        }
        if let Some(found) = find_hosts(&b.children, target, &here) {
            return Some(found);
        }
        k = k + 1;
    }
    None
}

/// The containers around the block `target` of `tree`.
pub open spec fn hosts_in(tree: RichTree, target: NodeId) -> ChromeHosts {
    match hosts_of(tree.blocks@, target, ChromeHosts::nothing()) {
        Some(found) => found,
        None => ChromeHosts::nothing(),
    }
}

/// The containers around the block `target`: those of the innermost of each
/// kind. A block that is not in the tree has none.
pub fn chrome_hosts_for(tree: &RichTree, target: NodeId) -> (hosts: ChromeHosts)
    ensures
        hosts == hosts_in(*tree, target),
{
    let none = ChromeHosts::none();
    match find_hosts(&tree.blocks, target, &none) {
        Some(found) => found,
        None => none,
    }
}

/// `out` followed by the inlines of one more block, on a line of their own.
pub open spec fn joined(out: Seq<Inline>, inlines: Seq<Inline>) -> Seq<Inline> {
    if inlines.len() == 0 {
        out
    } else if out.len() == 0 {
        inlines
    } else {
        let at = out.last().span().end;
        out.push(Inline::HardBreak { style: BreakStyle::Backslash, source_range: at..at })
            + inlines
    }
}

/// `out` followed by the inlines of `blocks` and their children, block by
/// block.
pub open spec fn flattened(blocks: Seq<Block>, out: Seq<Inline>) -> Seq<Inline>
    decreases blocks,
{
    if blocks.len() == 0 {
        out
    } else {
        let b = blocks.last();
        let before = flattened(blocks.drop_last(), out);
        flattened(b.children@, joined(before, b.inlines@))
    }
}

fn flatten_into(blocks: &Vec<Block>, out: &mut Vec<Inline>)
    ensures
        final(out)@ == flattened(blocks@, old(out)@),
    decreases blocks,
{
    let mut k: usize = 0;
    assert(blocks@.take(0) =~= Seq::<Block>::empty());
    while k < blocks.len()
        invariant
            k <= blocks.len(),
            out@ == flattened(blocks@.take(k as int), old(out)@),
        decreases blocks.len() - k,
    {
        let b = &blocks[k];
        let ghost before = out@;
        assert(blocks@.take(k + 1).drop_last() =~= blocks@.take(k as int));
        assert(blocks@.take(k + 1).last() == *b);
        if b.inlines.len() > 0 {
            if out.len() > 0 {
                let at: usize = out[out.len() - 1].source_range().end;
                out.push(Inline::HardBreak { style: BreakStyle::Backslash, source_range: at..at });
            }
            let ghost start = out@;
            let mut i: usize = 0;
            while i < b.inlines.len()
                invariant
                    i <= b.inlines.len(),
                    out@ =~= start + b.inlines@.take(i as int),
                decreases b.inlines.len() - i,
            {
                out.push(b.inlines[i].clone());
                i = i + 1;
            }
            assert(b.inlines@.take(i as int) =~= b.inlines@);
            assert(out@ =~= joined(before, b.inlines@));
        }
        flatten_into(&b.children, out);
        k = k + 1;
    }
    assert(blocks@.take(k as int) =~= blocks@);
}

/// All inlines of a document in order, the blocks separated by hard breaks.
pub fn inlines_from_inner_markdown(tree: &RichTree) -> (out: Vec<Inline>)
    ensures
        out@ == flattened(tree.blocks@, Seq::empty()),
{
    let mut out: Vec<Inline> = Vec::new();
    flatten_into(&tree.blocks, &mut out);
    out
}

/// Each block of `chain` but the first is a child of the one before, the first
/// is one of `blocks`, and the last has the id `target`.
pub open spec fn leads_to(blocks: Seq<Block>, chain: Seq<Block>, target: NodeId) -> bool {
    &&& chain.len() > 0
    &&& blocks.contains(chain[0])
    &&& forall|k: int| 0 < k < chain.len() ==> chain[k - 1].children@.contains(#[trigger] chain[k])
    &&& chain.last().id == target
}

/// Where the innermost block of `chain` whose kind satisfies `kind` is.
pub open spec fn nearest(chain: Seq<Block>, kind: spec_fn(BlockKind) -> bool) -> Option<
    std::ops::Range<usize>,
>
    decreases chain.len(),
{
    if chain.len() == 0 {
        None
    } else if kind(chain.last().kind) {
        Some(chain.last().source_range)
    } else {
        nearest(chain.drop_last(), kind)
    }
}

/// `found` names, of each kind of container, the innermost of `chain`, and what
/// `hosts` names where the chain has none.
pub open spec fn names_nearest(hosts: ChromeHosts, chain: Seq<Block>, found: ChromeHosts) -> bool {
    let or = |inner: Option<std::ops::Range<usize>>, outer: Option<std::ops::Range<usize>>|
        if inner is Some {
            inner
        } else {
            outer
        };
    &&& found.quote == or(nearest(chain, |k: BlockKind| k is BlockQuote), hosts.quote)
    &&& found.list_item == or(nearest(chain, |k: BlockKind| k is ListItem), hosts.list_item)
    &&& found.table == or(nearest(chain, |k: BlockKind| k is Table), hosts.table)
    &&& found.footnote_def == or(
        nearest(chain, |k: BlockKind| k is FootnoteDefinition),
        hosts.footnote_def,
    )
    &&& found.definition_details == or(
        nearest(chain, |k: BlockKind| k is DefinitionDetails),
        hosts.definition_details,
    )
}

proof fn lemma_nearest_first(b: Block, rest: Seq<Block>, kind: spec_fn(BlockKind) -> bool)
    ensures
        nearest(seq![b] + rest, kind) == (if nearest(rest, kind) is Some {
            nearest(rest, kind)
        } else if kind(b.kind) {
            Some(b.source_range)
        } else {
            None
        }),
    decreases rest.len(),
{
    let chain = seq![b] + rest;
    if rest.len() == 0 {
        assert(chain.drop_last() =~= Seq::<Block>::empty());
        assert(chain.last() == b);
        reveal_with_fuel(nearest, 2);
    } else {
        assert(chain.drop_last() =~= seq![b] + rest.drop_last());
        assert(chain.last() == rest.last());
        lemma_nearest_first(b, rest.drop_last(), kind);
    }
}

/// What is found of a block is named by a way from the top of the tree down to
/// it: of each kind the innermost container on that way, the block itself
/// counted in.
pub proof fn containers_lie_on_the_way_down(blocks: Seq<Block>, target: NodeId, hosts: ChromeHosts)
    requires
        hosts_of(blocks, target, hosts) is Some,
    ensures
        exists|chain: Seq<Block>| #[trigger]
            leads_to(blocks, chain, target) && names_nearest(
                hosts,
                chain,
                hosts_of(blocks, target, hosts)->0,
            ),
    decreases blocks,
{
    let b = blocks[0];
    let here = hosts_inside(hosts, b);
    let found = hosts_of(blocks, target, hosts)->0;
    assert(blocks.contains(b));
    if b.id == target {
        let chain = seq![b];
        assert(chain =~= seq![b] + Seq::<Block>::empty());
        assert(chain.drop_last() =~= Seq::<Block>::empty());
        reveal_with_fuel(nearest, 2);
        assert(chain.last() == b);
        assert(leads_to(blocks, chain, target));
        assert(names_nearest(hosts, chain, found));
    } else if hosts_of(b.children@, target, here) is Some {
        containers_lie_on_the_way_down(b.children@, target, here);
        let below = choose|chain: Seq<Block>| #[trigger]
            leads_to(b.children@, chain, target) && names_nearest(here, chain, found);
        let chain = seq![b] + below;
        assert forall|k: int| 0 < k < chain.len() implies chain[k - 1].children@.contains(
            #[trigger] chain[k],
        ) by {
            if k > 1 {
                assert(chain[k - 1] == below[k - 2] && chain[k] == below[k - 1]);
            }
        }
        lemma_nearest_first(b, below, |k: BlockKind| k is BlockQuote);
        lemma_nearest_first(b, below, |k: BlockKind| k is ListItem);
        lemma_nearest_first(b, below, |k: BlockKind| k is Table);
        lemma_nearest_first(b, below, |k: BlockKind| k is FootnoteDefinition);
        lemma_nearest_first(b, below, |k: BlockKind| k is DefinitionDetails);
        assert(leads_to(blocks, chain, target));
        assert(names_nearest(hosts, chain, found));
    } else {
        let rest = blocks.drop_first();
        containers_lie_on_the_way_down(rest, target, hosts);
        let chain = choose|chain: Seq<Block>| #[trigger]
            leads_to(rest, chain, target) && names_nearest(hosts, chain, found);
        let k = choose|k: int| 0 <= k < rest.len() && rest[k] == chain[0];
        assert(blocks[k + 1] == chain[0]);
        assert(leads_to(blocks, chain, target));
    }
}

/// Every block of the tree, however deep, is found.
pub proof fn every_block_has_its_containers(
    blocks: Seq<Block>,
    chain: Seq<Block>,
    target: NodeId,
    hosts: ChromeHosts,
)
    requires
        leads_to(blocks, chain, target),
    ensures
        hosts_of(blocks, target, hosts) is Some,
    decreases blocks,
{
    let b = blocks[0];
    if b.id != target {
        if chain[0] == b {
            let below = chain.drop_first();
            assert(chain.len() > 1);
            assert(below[0] == chain[1] && chain[0].children@.contains(chain[1]));
            assert forall|k: int| 0 < k < below.len() implies below[k - 1].children@.contains(
                #[trigger] below[k],
            ) by {
                assert(chain[k + 1 - 1].children@.contains(chain[k + 1]));
            }
            assert(below.last() == chain.last());
            every_block_has_its_containers(b.children@, below, target, hosts_inside(hosts, b));
        } else {
            let rest = blocks.drop_first();
            let k = choose|k: int| 0 <= k < blocks.len() && blocks[k] == chain[0];
            assert(rest[k - 1] == chain[0]);
            every_block_has_its_containers(rest, chain, target, hosts);
        }
    }
}

/// The inlines of `blocks` and of what they hold, in reading order.
pub open spec fn inlines_in(blocks: Seq<Block>) -> Seq<Inline>
    decreases blocks,
{
    if blocks.len() == 0 {
        Seq::empty()
    } else {
        inlines_in(blocks.drop_last()) + blocks.last().inlines@ + inlines_in(blocks.last().children@)
    }
}

/// `i` is no hard break.
pub open spec fn shows_something(i: Inline) -> bool {
    !(i is HardBreak)
}

proof fn lemma_filter_sum(a: Seq<Inline>, b: Seq<Inline>)
    ensures
        (a + b).filter(|i: Inline| shows_something(i)) == a.filter(|i: Inline| shows_something(i))
            + b.filter(|i: Inline| shows_something(i)),
{
    Seq::filter_distributes_over_add(a, b, |i: Inline| shows_something(i));
}

/// Flattening loses no inline and moves none: but for the hard breaks it puts
/// between the blocks, what comes out is what the blocks hold, in order.
pub proof fn flattening_keeps_the_inlines(blocks: Seq<Block>, out: Seq<Inline>)
    ensures
        flattened(blocks, out).filter(|i: Inline| shows_something(i)) == out.filter(
            |i: Inline| shows_something(i),
        ) + inlines_in(blocks).filter(|i: Inline| shows_something(i)),
    decreases blocks,
{
    let keep = |i: Inline| shows_something(i);
    if blocks.len() > 0 {
        let b = blocks.last();
        let before = flattened(blocks.drop_last(), out);
        let with = joined(before, b.inlines@);
        flattening_keeps_the_inlines(blocks.drop_last(), out);
        flattening_keeps_the_inlines(b.children@, with);
        assert(with.filter(keep) =~= before.filter(keep) + b.inlines@.filter(keep)) by {
            if b.inlines@.len() == 0 {
                assert(b.inlines@ =~= Seq::<Inline>::empty());
                lemma_filter_sum(before, b.inlines@);
                assert(before + b.inlines@ =~= before);
            } else if before.len() == 0 {
                assert(before =~= Seq::<Inline>::empty());
                lemma_filter_sum(before, b.inlines@);
                assert(before + b.inlines@ =~= b.inlines@);
            } else {
                let at = before.last().span().end;
                let stop = Inline::HardBreak { style: BreakStyle::Backslash, source_range: at..at };
                lemma_filter_sum(before.push(stop), b.inlines@);
                reveal(Seq::filter);
                assert(before.push(stop).drop_last() =~= before);
                assert(before.push(stop).filter(keep) == before.filter(keep));
            }
        }
        lemma_filter_sum(inlines_in(blocks.drop_last()), b.inlines@);
        lemma_filter_sum(inlines_in(blocks.drop_last()) + b.inlines@, inlines_in(b.children@));
        assert(flattened(blocks, out).filter(keep) =~= out.filter(keep) + inlines_in(
            blocks,
        ).filter(keep));
    } else {
        reveal(Seq::filter);
        assert(inlines_in(blocks) =~= Seq::<Inline>::empty());
        assert(flattened(blocks, out).filter(keep) =~= out.filter(keep) + Seq::<Inline>::empty());
    }
}

/// Two blocks of text that follow each other are parted by one hard break,
/// which takes no source and stands where the first ends.
pub proof fn blocks_are_parted_by_a_break(a: Block, b: Block)
    requires
        a.children@.len() == 0,
        b.children@.len() == 0,
        a.inlines@.len() > 0,
        b.inlines@.len() > 0,
    ensures
        ({
            let all = flattened(seq![a, b], Seq::empty());
            let n = a.inlines@.len() as int;
            &&& all.len() == n + 1 + b.inlines@.len()
            &&& all.take(n) == a.inlines@
            &&& all.skip(n + 1) == b.inlines@
            &&& all[n] is HardBreak && all[n].span().start == a.inlines@[n - 1].span().end
                && all[n].span().end == a.inlines@[n - 1].span().end
        }),
{
    reveal_with_fuel(flattened, 3);
    assert(seq![a, b].drop_last() =~= seq![a]);
    assert(seq![a].drop_last() =~= Seq::<Block>::empty());
    assert(seq![a, b].last() == b && seq![a].last() == a);
    let all = flattened(seq![a, b], Seq::empty());
    let n = a.inlines@.len() as int;
    let first = flattened(seq![a], Seq::empty());
    assert(first == a.inlines@);
    assert(all == joined(first, b.inlines@));
    assert(all.take(n) =~= a.inlines@);
    assert(all.skip(n + 1) =~= b.inlines@);
}

/// A block of the tree has, of each kind, the innermost container on a way down
/// to it, and none of a kind that the way does not pass. A block that is not in
/// the tree has none at all.
pub proof fn blocks_have_the_containers_on_their_way(tree: RichTree, target: NodeId)
    ensures
        (exists|chain: Seq<Block>| leads_to(tree.blocks@, chain, target)) ==> exists|
            chain: Seq<Block>,
        | #[trigger]
            leads_to(tree.blocks@, chain, target) && {
                let found = hosts_in(tree, target);
                &&& found.quote == nearest(chain, |k: BlockKind| k is BlockQuote)
                &&& found.list_item == nearest(chain, |k: BlockKind| k is ListItem)
                &&& found.table == nearest(chain, |k: BlockKind| k is Table)
                &&& found.footnote_def == nearest(chain, |k: BlockKind| k is FootnoteDefinition)
                &&& found.definition_details == nearest(
                    chain,
                    |k: BlockKind| k is DefinitionDetails,
                )
            },
        !(exists|chain: Seq<Block>| leads_to(tree.blocks@, chain, target)) ==> hosts_in(
            tree,
            target,
        ).is_none(),
{
    let none = ChromeHosts::nothing();
    if exists|chain: Seq<Block>| leads_to(tree.blocks@, chain, target) {
        let way = choose|chain: Seq<Block>| leads_to(tree.blocks@, chain, target);
        every_block_has_its_containers(tree.blocks@, way, target, none);
        containers_lie_on_the_way_down(tree.blocks@, target, none);
        let chain = choose|chain: Seq<Block>| #[trigger]
            leads_to(tree.blocks@, chain, target) && names_nearest(
                none,
                chain,
                hosts_of(tree.blocks@, target, none)->0,
            );
        assert(leads_to(tree.blocks@, chain, target));
    } else if hosts_of(tree.blocks@, target, none) is Some {
        containers_lie_on_the_way_down(tree.blocks@, target, none);
    }
}

} // verus!
