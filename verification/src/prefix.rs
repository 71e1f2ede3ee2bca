//! Block prefixes (`>`, list markers, `[^1]:`, `: `) at the start of a source
//! line.

use std::ops::Range;

use vstd::prelude::*;
use vstd::utf8::*;

use crate::caret;
use crate::caret::{host_intersects, ChromeHosts, RevealState};
use crate::text::{byte_len, dup};
use crate::tree::LinePrefixParts;

verus! {

/// From the first to the last byte of the shown, non-empty ranges of `parts`.
pub open spec fn shown_union(parts: Seq<(bool, Range<usize>)>) -> Option<Range<usize>>
    decreases parts.len(),
{
    if parts.len() == 0 {
        None
    } else {
        let rest = shown_union(parts.drop_last());
        let (show, range) = parts.last();
        if show && range.start < range.end {
            match rest {
                None => Some(range),
                Some(r) => Some(
                    (if r.start <= range.start {
                        r.start
                    } else {
                        range.start
                    })..(if r.end >= range.end {
                        r.end
                    } else {
                        range.end
                    }),
                ),
            }
        } else {
            rest
        }
    }
}

/// From the first to the last byte of the shown, non-empty ranges of `parts`.
pub fn union_shown_prefix<const N: usize>(parts: [(bool, Range<usize>); N]) -> (union: Option<
    Range<usize>,
>)
    ensures
        union == shown_union(parts@),
{
    let mut union: Option<Range<usize>> = None;
    let mut k: usize = 0;
    assert(parts@.take(0) =~= Seq::<(bool, Range<usize>)>::empty());
    while k < N
        invariant
            k <= N,
            union == shown_union(parts@.take(k as int)),
        decreases N - k,
    {
        let (show, range) = &parts[k];
        assert(parts@.take(k + 1).drop_last() =~= parts@.take(k as int));
        if *show && range.start < range.end {
            union = match union {
                None => Some(dup(range)),
                Some(r) => {
                    let start: usize = if r.start <= range.start {
                        r.start
                    } else {
                        range.start
                    };
                    let end: usize = if r.end >= range.end {
                        r.end
                    } else {
                        range.end
                    };
                    Some(start..end)
                },
            };
        }
        k = k + 1;
    }
    assert(parts@.take(k as int) =~= parts@);
    union
}

/// The prefix part `part` is there and shown with its container `host`, or
/// with itself.
pub open spec fn part_shown(part: Range<usize>, host: Option<Range<usize>>, state: RevealState) -> bool {
    part.start < part.end && host is Some && (state.meets(host->0) || state.meets(part))
}

/// The footnote marker of this line is shown.
pub open spec fn footnote_shown(parts: LinePrefixParts, state: RevealState, hosts: ChromeHosts) -> bool {
    part_shown(parts.footnote, hosts.footnote_def, state)
}

/// The definition-details colon of this line is shown.
pub open spec fn details_shown(parts: LinePrefixParts, state: RevealState, hosts: ChromeHosts) -> bool {
    part_shown(parts.details, hosts.definition_details, state)
}

/// The prefix of a line that is shown: a quote marker with its quote or with
/// a footnote or details marker behind it, a list marker with its item, a
/// footnote or details marker with its container or by itself.
pub open spec fn shown_prefix(
    b: Seq<u8>,
    parts: LinePrefixParts,
    state: RevealState,
    hosts: ChromeHosts,
) -> Option<Range<usize>> {
    let list = parts.list.start < parts.list.end && caret::host_meets(state, hosts.list_item);
    let footnote = footnote_shown(parts, state, hosts);
    let details = details_shown(parts, state, hosts);
    let quote = parts.quote.start < parts.quote.end && (caret::host_meets(state, hosts.quote)
        || footnote || details);
    if b.len() == 0 {
        None
    } else {
        shown_union(
            seq![
                (quote, parts.quote),
                (list, parts.list),
                (footnote, parts.footnote),
                (details, parts.details),
            ],
        )
    }
}

fn shows_part(part: &Range<usize>, host: &Option<Range<usize>>, state: &RevealState) -> (shown: bool)
    ensures
        shown == part_shown(*part, *host, *state),
{
    part.start < part.end && match host {
        Some(h) => state.intersects(h) || state.intersects(part),
        None => false,
    }
}

/// Whether the definition-details `: ` of this line is shown.
pub fn prefix_range_shows_details(
    parts: &LinePrefixParts,
    state: &RevealState,
    hosts: &ChromeHosts,
) -> (shown: bool)
    ensures
        shown == details_shown(*parts, *state, *hosts),
{
    shows_part(&parts.details, &hosts.definition_details, state)
}

/// Whether the footnote marker `[^1]:` of this line is shown.
pub fn prefix_range_shows_footnote(
    parts: &LinePrefixParts,
    state: &RevealState,
    hosts: &ChromeHosts,
) -> (shown: bool)
    ensures
        shown == footnote_shown(*parts, *state, *hosts),
{
    shows_part(&parts.footnote, &hosts.footnote_def, state)
}

/// The prefix of a line of `source` that is shown.
pub fn revealed_prefix_range(
    source: &str,
    parts: &LinePrefixParts,
    state: &RevealState,
    hosts: &ChromeHosts,
) -> (range: Option<Range<usize>>)
    ensures
        range == shown_prefix(encode_utf8(source@), *parts, *state, *hosts),
{
    if byte_len(source) == 0 {
        return None;
    }
    let list = parts.list.start < parts.list.end && host_intersects(state, &hosts.list_item);
    let footnote = prefix_range_shows_footnote(parts, state, hosts);
    let details = prefix_range_shows_details(parts, state, hosts);
    let quote = parts.quote.start < parts.quote.end && (host_intersects(state, &hosts.quote)
        || footnote || details);
    let shown = [
        (quote, dup(&parts.quote)),
        (list, dup(&parts.list)),
        (footnote, dup(&parts.footnote)),
        (details, dup(&parts.details)),
    ];
    assert(shown@ =~= seq![
        (quote, parts.quote),
        (list, parts.list),
        (footnote, parts.footnote),
        (details, parts.details),
    ]);
    union_shown_prefix(shown)
}

/// Neither a container of the line nor a marker that shows by itself is
/// revealed.
pub open spec fn quiet(parts: LinePrefixParts, state: RevealState, hosts: ChromeHosts) -> bool {
    &&& !caret::host_meets(state, hosts.quote)
    &&& !caret::host_meets(state, hosts.list_item)
    &&& !caret::host_meets(state, hosts.footnote_def)
    &&& !caret::host_meets(state, hosts.definition_details)
    &&& hosts.footnote_def is Some ==> !state.meets(parts.footnote)
    &&& hosts.definition_details is Some ==> !state.meets(parts.details)
}

/// A line of which neither the containers nor the markers are revealed shows
/// no prefix.
pub proof fn quiet_line_shows_no_prefix(
    b: Seq<u8>,
    parts: LinePrefixParts,
    state: RevealState,
    hosts: ChromeHosts,
)
    requires
        quiet(parts, state, hosts),
    ensures
        shown_prefix(b, parts, state, hosts) is None,
{
    let all = seq![
        (false, parts.quote),
        (false, parts.list),
        (false, parts.footnote),
        (false, parts.details),
    ];
    reveal_with_fuel(shown_union, 5);
    assert(shown_union(all) is None);
}

/// With no container around the block no prefix is ever shown.
pub proof fn no_host_no_prefix(
    b: Seq<u8>,
    parts: LinePrefixParts,
    state: RevealState,
    hosts: ChromeHosts,
)
    requires
        hosts.is_none(),
    ensures
        shown_prefix(b, parts, state, hosts) is None,
{
    quiet_line_shows_no_prefix(b, parts, state, hosts);
}

/// The union runs over every shown part that holds a byte, and starts and ends
/// with one of them.
pub proof fn union_spans_the_shown_parts(parts: Seq<(bool, Range<usize>)>)
    ensures
        shown_union(parts) is Some <==> exists|k: int|
            0 <= k < parts.len() && (#[trigger] parts[k]).0 && parts[k].1.start < parts[k].1.end,
        forall|k: int|
            0 <= k < parts.len() && (#[trigger] parts[k]).0 && parts[k].1.start < parts[k].1.end
                ==> shown_union(parts)->0.start <= parts[k].1.start && parts[k].1.end
                <= shown_union(parts)->0.end,
        shown_union(parts) is Some ==> exists|k: int|
            0 <= k < parts.len() && (#[trigger] parts[k]).0 && parts[k].1.start < parts[k].1.end
                && parts[k].1.start == shown_union(parts)->0.start,
        shown_union(parts) is Some ==> exists|k: int|
            0 <= k < parts.len() && (#[trigger] parts[k]).0 && parts[k].1.start < parts[k].1.end
                && parts[k].1.end == shown_union(parts)->0.end,
    decreases parts.len(),
{
    if parts.len() > 0 {
        let rest = parts.drop_last();
        let n = parts.len() - 1;
        union_spans_the_shown_parts(rest);
        assert forall|k: int|
            0 <= k < parts.len() && (#[trigger] parts[k]).0 && parts[k].1.start
                < parts[k].1.end implies shown_union(parts) is Some && shown_union(parts)->0.start
            <= parts[k].1.start && parts[k].1.end <= shown_union(parts)->0.end by {
            if k < n {
                assert(rest[k] == parts[k]);
            }
        }
        if shown_union(rest) is Some {
            let a = choose|k: int|
                0 <= k < rest.len() && (#[trigger] rest[k]).0 && rest[k].1.start < rest[k].1.end
                    && rest[k].1.start == shown_union(rest)->0.start;
            let z = choose|k: int|
                0 <= k < rest.len() && (#[trigger] rest[k]).0 && rest[k].1.start < rest[k].1.end
                    && rest[k].1.end == shown_union(rest)->0.end;
            assert(parts[a] == rest[a]);
            assert(parts[z] == rest[z]);
        }
        assert(parts[n] == parts.last());
    }
}

/// A revealed container shows its marker on the line: the quote its `>`, the
/// item its list marker, the definition its footnote marker, the details their
/// colon. The latter two also show when they are revealed themselves, and then
/// the quote marker before them shows too.
pub proof fn containers_show_their_markers(
    b: Seq<u8>,
    parts: LinePrefixParts,
    state: RevealState,
    hosts: ChromeHosts,
)
    requires
        b.len() > 0,
    ensures
        ({
            let shown = shown_prefix(b, parts, state, hosts);
            let covers = |part: Range<usize>|
                part.start < part.end ==> shown is Some && shown->0.start <= part.start && part.end
                    <= shown->0.end;
            let up = |host: Option<Range<usize>>, part: Range<usize>|
                host is Some && part.start < part.end && (state.meets(host->0) || state.meets(part));
            &&& hosts.quote is Some && state.meets(hosts.quote->0) ==> covers(parts.quote)
            &&& hosts.list_item is Some && state.meets(hosts.list_item->0) ==> covers(parts.list)
            &&& up(hosts.footnote_def, parts.footnote) ==> covers(parts.footnote) && covers(
                parts.quote,
            )
            &&& up(hosts.definition_details, parts.details) ==> covers(parts.details) && covers(
                parts.quote,
            )
        }),
{
    let list = parts.list.start < parts.list.end && caret::host_meets(state, hosts.list_item);
    let footnote = footnote_shown(parts, state, hosts);
    let details = details_shown(parts, state, hosts);
    let quote = parts.quote.start < parts.quote.end && (caret::host_meets(state, hosts.quote)
        || footnote || details);
    let all = seq![
        (quote, parts.quote),
        (list, parts.list),
        (footnote, parts.footnote),
        (details, parts.details),
    ];
    union_spans_the_shown_parts(all);
    assert(all[0].1 == parts.quote && all[1].1 == parts.list && all[2].1 == parts.footnote
        && all[3].1 == parts.details);
    assert(all[0].0 == quote && all[1].0 == list && all[2].0 == footnote && all[3].0 == details);
}

/// Where one container alone is revealed, its marker alone is shown.
pub proof fn lone_markers_show_alone(
    b: Seq<u8>,
    parts: LinePrefixParts,
    state: RevealState,
    hosts: ChromeHosts,
)
    requires
        b.len() > 0,
        hosts.footnote_def is None,
        hosts.definition_details is None,
    ensures
        !(hosts.quote is Some && state.meets(hosts.quote->0)) && hosts.list_item is Some
            && state.meets(hosts.list_item->0) && parts.list.start < parts.list.end
            ==> shown_prefix(b, parts, state, hosts) == Some(parts.list),
        !(hosts.list_item is Some && state.meets(hosts.list_item->0)) && hosts.quote is Some
            && state.meets(hosts.quote->0) && parts.quote.start < parts.quote.end
            ==> shown_prefix(b, parts, state, hosts) == Some(parts.quote),
{
    reveal_with_fuel(shown_union, 5);
    let list = parts.list.start < parts.list.end && caret::host_meets(state, hosts.list_item);
    let quote = parts.quote.start < parts.quote.end && caret::host_meets(state, hosts.quote);
    let all = seq![
        (quote, parts.quote),
        (list, parts.list),
        (false, parts.footnote),
        (false, parts.details),
    ];
    assert(all.drop_last().drop_last().last() == (list, parts.list));
    assert(all.drop_last().drop_last().drop_last().last() == (quote, parts.quote));
    assert(shown_prefix(b, parts, state, hosts) == shown_union(all));
}

/// A marker that is not there is not shown, and shows nothing before it.
pub proof fn missing_markers_show_nothing(
    parts: LinePrefixParts,
    state: RevealState,
    hosts: ChromeHosts,
)
    ensures
        parts.footnote.start >= parts.footnote.end ==> !footnote_shown(parts, state, hosts),
        parts.details.start >= parts.details.end ==> !details_shown(parts, state, hosts),
        hosts.footnote_def is None ==> !footnote_shown(parts, state, hosts),
        hosts.definition_details is None ==> !details_shown(parts, state, hosts),
{
}

} // verus!
