//! Ordered lists of source ranges.

use std::ops::Range;

use vstd::prelude::*;

use crate::text::{dup, same};

verus! {

/// `inner` starts and ends inside `outer`.
pub open spec fn within(inner: Range<usize>, outer: Range<usize>) -> bool {
    outer.start <= inner.start && inner.end <= outer.end
}

/// `a` comes before `b`: by start, then by end.
pub open spec fn before(a: Range<usize>, b: Range<usize>) -> bool {
    a.start < b.start || (a.start == b.start && a.end < b.end)
}

/// `s` is strictly increasing.
pub open spec fn increasing(s: Seq<Range<usize>>) -> bool {
    forall|i: int, j: int| 0 <= i < j < s.len() ==> before(s[i], s[j])
}

/// The starts of `s` never go back.
pub open spec fn by_start(s: Seq<Range<usize>>) -> bool {
    forall|i: int, j: int| 0 <= i <= j < s.len() ==> s[i].start <= s[j].start
}

/// The increasing list `s` with `r`, once.
pub open spec fn with_unique(s: Seq<Range<usize>>, r: Range<usize>) -> Seq<Range<usize>>
    decreases s.len(),
{
    if s.len() == 0 {
        seq![r]
    } else if s.last() == r {
        s
    } else if before(s.last(), r) {
        s.push(r)
    } else {
        with_unique(s.drop_last(), r).push(s.last())
    }
}

/// The list `s`, ordered by start, with `r` behind what starts no later.
pub open spec fn with_ordered(s: Seq<Range<usize>>, r: Range<usize>) -> Seq<Range<usize>>
    decreases s.len(),
{
    if s.len() == 0 {
        seq![r]
    } else if s.last().start <= r.start {
        s.push(r)
    } else {
        with_ordered(s.drop_last(), r).push(s.last())
    }
}

/// The ranges of `s` and of `more`, ordered by start; of two that start
/// together, the one of `s` first.
pub open spec fn merged(s: Seq<Range<usize>>, more: Seq<Range<usize>>) -> Seq<Range<usize>>
    decreases more.len(),
{
    if more.len() == 0 {
        s
    } else {
        with_ordered(merged(s, more.drop_last()), more.last())
    }
}

/// Inserting keeps a list strictly increasing and adds exactly `r`.
pub proof fn lemma_with_unique(s: Seq<Range<usize>>, r: Range<usize>)
    requires
        increasing(s),
    ensures
        increasing(with_unique(s, r)),
        forall|x: Range<usize>| #[trigger]
            with_unique(s, r).contains(x) <==> x == r || s.contains(x),
    decreases s.len(),
{
    let t = with_unique(s, r);
    if s.len() == 0 {
        assert(t[0] == r);
    } else if s.last() == r {
        assert(s[s.len() - 1] == r);
    } else if before(s.last(), r) {
        assert forall|x: Range<usize>| t.contains(x) <==> x == r || s.contains(x) by {
            if s.contains(x) {
                let k = choose|k: int| 0 <= k < s.len() && s[k] == x;
                assert(t[k] == x);
            }
            assert(t[s.len() as int] == r);
        }
        assert forall|i: int, j: int| 0 <= i < j < t.len() implies before(t[i], t[j]) by {
            if j == s.len() {
                if i < s.len() - 1 {
                    assert(before(s[i], s[s.len() - 1]));
                }
            }
        }
    } else {
        let front = s.drop_last();
        assert(increasing(front));
        lemma_with_unique(front, r);
        let u = with_unique(front, r);
        assert forall|x: Range<usize>| t.contains(x) <==> x == r || s.contains(x) by {
            if t.contains(x) {
                let k = choose|k: int| 0 <= k < t.len() && t[k] == x;
                if k < u.len() {
                    assert(u.contains(x)) by {
                        assert(u[k] == x);
                    }
                    if front.contains(x) {
                        let q = choose|q: int| 0 <= q < front.len() && front[q] == x;
                        assert(s[q] == x);
                    }
                } else {
                    assert(s[s.len() - 1] == x);
                }
            }
            if x == r {
                assert(u.contains(x));
                let k = choose|k: int| 0 <= k < u.len() && u[k] == x;
                assert(t[k] == x);
            }
            if s.contains(x) {
                let q = choose|q: int| 0 <= q < s.len() && s[q] == x;
                if q < front.len() {
                    assert(front[q] == x);
                    assert(front.contains(x));
                    assert(u.contains(x));
                    let k = choose|k: int| 0 <= k < u.len() && u[k] == x;
                    assert(t[k] == x);
                } else {
                    assert(t[u.len() as int] == x);
                }
            }
        }
        assert forall|i: int, j: int| 0 <= i < j < t.len() implies before(t[i], t[j]) by {
            if j == u.len() {
                assert(u.contains(u[i]));
                if u[i] != r {
                    let q = choose|q: int| 0 <= q < front.len() && front[q] == u[i];
                    assert(before(s[q], s[s.len() - 1]));
                }
            } else {
                assert(before(u[i], u[j]));
            }
        }
    }
}

/// Inserting keeps a list ordered by start.
pub proof fn lemma_with_ordered(s: Seq<Range<usize>>, r: Range<usize>)
    requires
        by_start(s),
    ensures
        by_start(with_ordered(s, r)),
        with_ordered(s, r).len() == s.len() + 1,
        s.len() > 0 ==> with_ordered(s, r).last().start >= s.last().start,
        with_ordered(s, r).last().start >= r.start,
        with_ordered(s, r).last() == r || (s.len() > 0 && with_ordered(s, r).last() == s.last()),
    decreases s.len(),
{
    let t = with_ordered(s, r);
    if s.len() == 0 {
    } else if s.last().start <= r.start {
        assert forall|i: int, j: int| 0 <= i <= j < t.len() implies t[i].start <= t[j].start by {
            if j == s.len() && i < s.len() {
                assert(s[i].start <= s[s.len() - 1].start);
            }
        }
    } else {
        let front = s.drop_last();
        assert(by_start(front));
        lemma_with_ordered(front, r);
        let u = with_ordered(front, r);
        assert forall|i: int, j: int| 0 <= i <= j < t.len() implies t[i].start <= t[j].start by {
            if j == u.len() && i < u.len() {
                assert(u[i].start <= u[u.len() - 1].start);
                if front.len() > 0 {
                    assert(s[front.len() - 1].start <= s[s.len() - 1].start);
                }
            } else if i < u.len() && j < u.len() {
                assert(u[i].start <= u[j].start);
            }
        }
    }
}

/// Merging into a list ordered by start keeps it ordered, and keeps every
/// range.
pub proof fn lemma_merged(s: Seq<Range<usize>>, more: Seq<Range<usize>>)
    requires
        by_start(s),
    ensures
        by_start(merged(s, more)),
        merged(s, more).len() == s.len() + more.len(),
    decreases more.len(),
{
    if more.len() > 0 {
        lemma_merged(s, more.drop_last());
        lemma_with_ordered(merged(s, more.drop_last()), more.last());
    }
}

/// Adds `r` to the increasing list `v`, unless it is there.
pub fn insert_unique(v: &mut Vec<Range<usize>>, r: Range<usize>)
    ensures
        final(v)@ == with_unique(old(v)@, r),
{
    let mut i: usize = v.len();
    assert(v@ =~= v@.take(i as int));
    while i > 0 && (r.start < v[i - 1].start || (r.start == v[i - 1].start && r.end < v[i - 1].end))
        invariant
            i <= v.len(),
            v@ == old(v)@,
            with_unique(v@, r) == with_unique(v@.take(i as int), r) + v@.skip(i as int),
        decreases i,
    {
        let ghost front = v@.take(i as int);
        assert(front.drop_last() =~= v@.take(i - 1));
        assert(with_unique(front, r) == with_unique(front.drop_last(), r).push(front.last()));
        assert(with_unique(v@.take(i - 1), r).push(v@[i - 1]) + v@.skip(i as int) =~= with_unique(
            v@.take(i - 1),
            r,
        ) + v@.skip(i - 1));
        i = i - 1;
    }
    if i > 0 && same(&v[i - 1], &r) {
        assert(v@.take(i as int) + v@.skip(i as int) =~= v@);
        return;
    }
    proof {
        let front = v@.take(i as int);
        if i > 0 {
            assert(with_unique(front, r) == front.push(r));
        } else {
            assert(with_unique(front, r) =~= front.push(r));
        }
        assert(front.push(r) + v@.skip(i as int) =~= v@.insert(i as int, r));
    }
    v.insert(i, r);
}

/// Merges `more` into `v`, which is ordered by start.
pub fn merge(v: &mut Vec<Range<usize>>, more: &Vec<Range<usize>>)
    ensures
        final(v)@ == merged(old(v)@, more@),
{
    let mut k: usize = 0;
    assert(more@.take(0) =~= Seq::<Range<usize>>::empty());
    while k < more.len()
        invariant
            k <= more.len(),
            v@ == merged(old(v)@, more@.take(k as int)),
        decreases more.len() - k,
    {
        insert_ordered(v, dup(&more[k]));
        k = k + 1;
        assert(more@.take(k as int).drop_last() =~= more@.take(k - 1));
    }
    assert(more@.take(k as int) =~= more@);
}

/// Adds `r` to `v`, behind what starts no later.
fn insert_ordered(v: &mut Vec<Range<usize>>, r: Range<usize>)
    ensures
        final(v)@ == with_ordered(old(v)@, r),
{
    let mut i: usize = v.len();
    assert(v@ =~= v@.take(i as int));
    while i > 0 && r.start < v[i - 1].start
        invariant
            i <= v.len(),
            v@ == old(v)@,
            with_ordered(v@, r) == with_ordered(v@.take(i as int), r) + v@.skip(i as int),
        decreases i,
    {
        let ghost front = v@.take(i as int);
        assert(front.drop_last() =~= v@.take(i - 1));
        assert(with_ordered(front, r) == with_ordered(front.drop_last(), r).push(front.last()));
        assert(with_ordered(v@.take(i - 1), r).push(v@[i - 1]) + v@.skip(i as int)
            =~= with_ordered(v@.take(i - 1), r) + v@.skip(i - 1));
        i = i - 1;
    }
    proof {
        let front = v@.take(i as int);
        if i > 0 {
            assert(with_ordered(front, r) == front.push(r));
        } else {
            assert(with_ordered(front, r) =~= front.push(r));
        }
        assert(front.push(r) + v@.skip(i as int) =~= v@.insert(i as int, r));
    }
    v.insert(i, r);
}

proof fn lemma_ordered_multiset(s: Seq<Range<usize>>, r: Range<usize>)
    ensures
        with_ordered(s, r).to_multiset() =~= s.to_multiset().insert(r),
    decreases s.len(),
{
    broadcast use vstd::seq_lib::group_to_multiset_ensures;

    if s.len() > 0 && s.last().start > r.start {
        let front = s.drop_last();
        lemma_ordered_multiset(front, r);
        assert(s =~= front.push(s.last()));
    } else if s.len() == 0 {
        assert(s =~= Seq::<Range<usize>>::empty());
        assert(seq![r] =~= Seq::<Range<usize>>::empty().push(r));
    }
}

/// Merging keeps every span of both lists, as often as it was there.
pub proof fn merging_keeps_all(s: Seq<Range<usize>>, more: Seq<Range<usize>>)
    ensures
        merged(s, more).to_multiset() =~= s.to_multiset().add(more.to_multiset()),
    decreases more.len(),
{
    broadcast use vstd::seq_lib::group_to_multiset_ensures;

    if more.len() > 0 {
        merging_keeps_all(s, more.drop_last());
        lemma_ordered_multiset(merged(s, more.drop_last()), more.last());
        assert(more =~= more.drop_last().push(more.last()));
    } else {
        assert(more =~= Seq::<Range<usize>>::empty());
    }
}

/// Spans are ordered by where they start, then by where they end, and lie within
/// what reaches at least as far on both sides.
pub proof fn spans_are_ordered_by_their_ends(a: Range<usize>, b: Range<usize>)
    ensures
        before(a, b) || before(b, a) || a == b,
        !(before(a, b) && before(b, a)),
        a.start < b.start ==> before(a, b),
        a.start == b.start && a.end < b.end ==> before(a, b),
        within(a, b) && within(b, a) <==> a == b,
        a.start < b.start || a.end > b.end <==> !within(a, b),
{
}

} // verus!
