//! Caret and selection state that decides which Markdown chrome is painted.

use std::ops::Range;

use vstd::prelude::*;

use crate::text::{dup, dup_opt};

verus! {

/// Caret and selection. A source span is revealed when the caret touches it
/// (its ends included) or a non-empty selection overlaps it; otherwise its
/// chrome stays hidden.
#[derive(Debug, PartialEq, Eq)]
pub struct RevealState {
    pub caret: usize,
    pub selection: Range<usize>,
}

impl RevealState {
    /// The state of a document without a caret: nothing is revealed.
    pub fn hidden() -> (state: Self)
        ensures
            state == RevealState::nowhere(),
            state.is_hidden(),
    {
        RevealState { caret: usize::MAX, selection: 0..0 }
    }

    /// No caret and no selection.
    pub open spec fn nowhere() -> RevealState {
        RevealState { caret: usize::MAX, selection: 0..0 }
    }

    /// No caret and no selection.
    pub open spec fn is_hidden(&self) -> bool {
        self.caret == usize::MAX && self.selection == (0usize..0usize)
    }

    /// The caret lies in `range` or on one of its ends.
    pub open spec fn caret_in(&self, range: Range<usize>) -> bool {
        range.start <= self.caret <= range.end
    }

    /// The selection holds at least one byte.
    pub open spec fn selects(&self) -> bool {
        self.selection.start < self.selection.end
    }

    /// `range` is revealed.
    pub open spec fn meets(&self, range: Range<usize>) -> bool {
        self.caret_in(range) || (self.selects() && self.selection.start < range.end
            && self.selection.end > range.start)
    }

    /// Whether the caret touches `range` or a non-empty selection overlaps it.
    pub fn intersects(&self, range: &Range<usize>) -> (hit: bool)
        ensures
            hit == self.meets(*range),
    {
        if self.caret >= range.start && self.caret <= range.end {
            return true;
        }
        self.selection.start < self.selection.end && self.selection.start < range.end
            && self.selection.end > range.start
    }

    /// Whether the selection is non-empty.
    pub fn has_selection(&self) -> (yes: bool)
        ensures
            yes == self.selects(),
    {
        self.selection.start < self.selection.end
    }
}

impl Clone for RevealState {
    fn clone(&self) -> (copy: Self)
        ensures
            copy == *self,
    {
        RevealState { caret: self.caret, selection: dup(&self.selection) }
    }
}

/// `host` is present and revealed.
pub open spec fn host_meets(state: RevealState, host: Option<Range<usize>>) -> bool {
    host is Some && state.meets(host->0)
}

/// Whether `host` is present and revealed.
pub fn host_intersects(state: &RevealState, host: &Option<Range<usize>>) -> (hit: bool)
    ensures
        hit == host_meets(*state, *host),
{
    match host {
        Some(h) => state.intersects(h),
        None => false,
    }
}

/// Without a caret nothing that ends before the largest offset is revealed.
pub proof fn hidden_reveals_nothing(state: RevealState, range: Range<usize>)
    requires
        state.is_hidden(),
        range.end < usize::MAX,
    ensures
        !state.meets(range),
{
}

/// A caret on either end of a span, or inside it, reveals the span.
pub proof fn caret_on_edge_reveals(state: RevealState, range: Range<usize>)
    requires
        range.start <= range.end,
        range.start <= state.caret <= range.end,
    ensures
        state.meets(range),
{
}

/// An empty selection reveals nothing by itself: only the caret counts.
pub proof fn empty_selection_reveals_nothing(state: RevealState, range: Range<usize>)
    requires
        state.selection.start >= state.selection.end,
    ensures
        state.meets(range) <==> range.start <= state.caret <= range.end,
{
}

/// What reveals a span reveals every span around it.
pub proof fn reveal_is_monotone(state: RevealState, inner: Range<usize>, outer: Range<usize>)
    requires
        outer.start <= inner.start,
        inner.end <= outer.end,
        state.meets(inner),
    ensures
        state.meets(outer),
{
}

/// Ancestor container ranges that control block-prefix and structural chrome.
/// List markers reveal per item; quote `>` for the whole quote; table `|` for
/// the whole table; definition-list `: ` per details block; footnote `[^1]:`
/// per definition.
#[derive(Debug, PartialEq, Eq)]
pub struct ChromeHosts {
    pub quote: Option<Range<usize>>,
    pub list_item: Option<Range<usize>>,
    pub table: Option<Range<usize>>,
    pub footnote_def: Option<Range<usize>>,
    pub definition_details: Option<Range<usize>>,
}

impl ChromeHosts {
    /// No container at all.
    pub open spec fn nothing() -> ChromeHosts {
        ChromeHosts {
            quote: None,
            list_item: None,
            table: None,
            footnote_def: None,
            definition_details: None,
        }
    }

    /// No container around the block.
    pub open spec fn is_none(&self) -> bool {
        self.quote is None && self.list_item is None && self.table is None
            && self.footnote_def is None && self.definition_details is None
    }

    /// Every container ends before the largest offset.
    pub open spec fn ends(&self) -> bool {
        &&& self.quote matches Some(r) ==> r.end < usize::MAX
        &&& self.list_item matches Some(r) ==> r.end < usize::MAX
        &&& self.table matches Some(r) ==> r.end < usize::MAX
        &&& self.footnote_def matches Some(r) ==> r.end < usize::MAX
        &&& self.definition_details matches Some(r) ==> r.end < usize::MAX
    }

    /// No container around the block.
    pub fn none() -> (hosts: Self)
        ensures
            hosts == ChromeHosts::nothing(),
    {
        ChromeHosts {
            quote: None,
            list_item: None,
            table: None,
            footnote_def: None,
            definition_details: None,
        }
    }
}

impl Clone for ChromeHosts {
    fn clone(&self) -> (copy: Self)
        ensures
            copy == *self,
    {
        ChromeHosts {
            quote: dup_opt(&self.quote),
            list_item: dup_opt(&self.list_item),
            table: dup_opt(&self.table),
            footnote_def: dup_opt(&self.footnote_def),
            definition_details: dup_opt(&self.definition_details),
        }
    }
}

impl Default for ChromeHosts {
    fn default() -> (hosts: Self)
        ensures
            hosts.is_none(),
    {
        ChromeHosts::none()
    }
}

/// A span that holds a byte is revealed by a caret in it or on its ends, and by
/// a selection that shares a byte with it; by nothing else.
pub proof fn revealed_by_caret_or_shared_byte(state: RevealState, range: Range<usize>)
    requires
        range.start < range.end,
    ensures
        state.meets(range) <==> (range.start <= state.caret && state.caret <= range.end)
            || exists|k: int|
            #![trigger range_holds(range, k)]
            range_holds(range, k) && range_holds(state.selection, k),
{
    if state.selection.start < state.selection.end && state.selection.start < range.end
        && range.start < state.selection.end {
        let k: int = if state.selection.start >= range.start {
            state.selection.start as int
        } else {
            range.start as int
        };
        assert(range_holds(range, k) && range_holds(state.selection, k));
    }
}

/// The byte `k` lies in `range`.
pub open spec fn range_holds(range: Range<usize>, k: int) -> bool {
    range.start <= k < range.end
}

/// A container counts only where there is one.
pub proof fn hosts_reveal_with_their_range(state: RevealState, range: Range<usize>)
    ensures
        !host_meets(state, None),
        range.start <= state.caret <= range.end ==> host_meets(state, Some(range)),
        state.caret < range.start && state.selection.end <= range.start ==> !host_meets(
            state,
            Some(range),
        ),
        state.caret > range.end && state.selection.start >= range.end ==> !host_meets(
            state,
            Some(range),
        ),
{
}

} // verus!
