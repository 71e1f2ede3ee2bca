//! Scans over the bytes of source text, and the order of bytes.

use vstd::prelude::*;

use crate::ascii::{
    COLON, CR, DASH, EQUALS, GREATER, HASH, LF, PIPE, SPACE, TAB,
};

verus! {

/// Bytes that a scan runs over.
#[derive(Debug, Clone, Copy, PartialEq, Eq, Structural)]
pub enum ByteClass {
    Space,
    Hash,
    Pipe,
    /// Space or tab.
    Blank,
    /// Space, tab or carriage return.
    LineRest,
    /// `>`, space or tab.
    Quote,
    /// `=` or `-`.
    Underline,
    /// Carriage return or line feed.
    Newline,
    /// What a table delimiter row is made of.
    Delimiter,
}

impl ByteClass {
    /// `b` is in the class.
    pub open spec fn has(self, b: u8) -> bool {
        match self {
            ByteClass::Space => b == SPACE,
            ByteClass::Hash => b == HASH,
            ByteClass::Pipe => b == PIPE,
            ByteClass::Blank => b == SPACE || b == TAB,
            ByteClass::LineRest => b == SPACE || b == TAB || b == CR,
            ByteClass::Quote => b == GREATER || b == SPACE || b == TAB,
            ByteClass::Underline => b == EQUALS || b == DASH,
            ByteClass::Newline => b == LF || b == CR,
            ByteClass::Delimiter => b == PIPE || b == DASH || b == COLON || b == SPACE || b == TAB,
        }
    }

    /// Whether `b` is in the class.
    pub fn holds(self, b: u8) -> (yes: bool)
        ensures
            yes == self.has(b),
    {
        match self {
            ByteClass::Space => b == SPACE,
            ByteClass::Hash => b == HASH,
            ByteClass::Pipe => b == PIPE,
            ByteClass::Blank => b == SPACE || b == TAB,
            ByteClass::LineRest => b == SPACE || b == TAB || b == CR,
            ByteClass::Quote => b == GREATER || b == SPACE || b == TAB,
            ByteClass::Underline => b == EQUALS || b == DASH,
            ByteClass::Newline => b == LF || b == CR,
            ByteClass::Delimiter => b == PIPE || b == DASH || b == COLON || b == SPACE || b == TAB,
        }
    }
}

/// Where the bytes of `class` that start at `i` end, no later than `hi`.
pub open spec fn forward(b: Seq<u8>, i: int, hi: int, class: ByteClass) -> int
    decreases hi - i,
{
    if i < hi && class.has(b[i]) {
        forward(b, i + 1, hi, class)
    } else {
        i
    }
}

/// Where the bytes of `class` that end at `i` start, no earlier than `lo`.
pub open spec fn backward(b: Seq<u8>, i: int, lo: int, class: ByteClass) -> int
    decreases i - lo,
{
    if i > lo && class.has(b[i - 1]) {
        backward(b, i - 1, lo, class)
    } else {
        i
    }
}

/// A forward scan stops at the first byte outside the class.
pub proof fn lemma_forward(b: Seq<u8>, i: int, hi: int, class: ByteClass)
    ensures
        i <= forward(b, i, hi, class),
        i <= hi ==> forward(b, i, hi, class) <= hi,
        i >= hi ==> forward(b, i, hi, class) == i,
        forall|k: int| i <= k < forward(b, i, hi, class) ==> class.has(#[trigger] b[k]),
        forward(b, i, hi, class) < hi ==> !class.has(b[forward(b, i, hi, class)]),
    decreases hi - i,
{
    if i < hi && class.has(b[i]) {
        lemma_forward(b, i + 1, hi, class);
    }
}

/// A backward scan stops behind the last byte outside the class.
pub proof fn lemma_backward(b: Seq<u8>, i: int, lo: int, class: ByteClass)
    ensures
        backward(b, i, lo, class) <= i,
        i >= lo ==> backward(b, i, lo, class) >= lo,
        i <= lo ==> backward(b, i, lo, class) == i,
        forall|k: int| backward(b, i, lo, class) <= k < i ==> class.has(#[trigger] b[k]),
        backward(b, i, lo, class) > lo ==> !class.has(b[backward(b, i, lo, class) - 1]),
    decreases i - lo,
{
    if i > lo && class.has(b[i - 1]) {
        lemma_backward(b, i - 1, lo, class);
    }
}

/// Where the bytes of `class` that start at `from` end, no later than `hi`.
pub fn skip_forward(bytes: &[u8], from: usize, hi: usize, class: ByteClass) -> (end: usize)
    requires
        hi <= bytes@.len(),
    ensures
        end == forward(bytes@, from as int, hi as int, class),
        from <= end,
        from <= hi ==> end <= hi,
        from >= hi ==> end == from,
{
    let mut i: usize = from;
    while i < hi && class.holds(bytes[i])
        invariant
            from <= i,
            from <= hi ==> i <= hi,
            from >= hi ==> i == from,
            hi <= bytes@.len(),
            forward(bytes@, from as int, hi as int, class) == forward(
                bytes@,
                i as int,
                hi as int,
                class,
            ),
        decreases hi - i,
    {
        i = i + 1;
    }
    i
}

/// Where the bytes of `class` that end at `from` start, no earlier than `lo`.
pub fn skip_backward(bytes: &[u8], from: usize, lo: usize, class: ByteClass) -> (start: usize)
    requires
        from <= bytes@.len(),
    ensures
        start == backward(bytes@, from as int, lo as int, class),
        start <= from,
        from >= lo ==> start >= lo,
        from <= lo ==> start == from,
{
    let mut i: usize = from;
    while i > lo && class.holds(bytes[i - 1])
        invariant
            i <= from <= bytes@.len(),
            from >= lo ==> i >= lo,
            from <= lo ==> i == from,
            backward(bytes@, from as int, lo as int, class) == backward(
                bytes@,
                i as int,
                lo as int,
                class,
            ),
        decreases i,
    {
        i = i - 1;
    }
    i
}

/// The lesser of two numbers.
pub open spec fn least(a: usize, b: usize) -> usize {
    if a <= b {
        a
    } else {
        b
    }
}

/// The greater of two numbers.
pub open spec fn greatest(a: usize, b: usize) -> usize {
    if a >= b {
        a
    } else {
        b
    }
}

/// The lesser of two numbers.
pub fn lesser(a: usize, b: usize) -> (m: usize)
    ensures
        m == least(a, b),
{
    if a <= b {
        a
    } else {
        b
    }
}

/// The greater of two numbers.
pub fn greater(a: usize, b: usize) -> (m: usize)
    ensures
        m == greatest(a, b),
{
    if a >= b {
        a
    } else {
        b
    }
}

/// `a` comes before `b` in the order of their bytes.
pub open spec fn precedes(a: Seq<u8>, b: Seq<u8>) -> bool
    decreases a.len(),
{
    if b.len() == 0 {
        false
    } else if a.len() == 0 {
        true
    } else if a[0] != b[0] {
        a[0] < b[0]
    } else {
        precedes(a.drop_first(), b.drop_first())
    }
}

/// Of two texts that differ one comes before the other, and only one.
pub proof fn lemma_order_total(a: Seq<u8>, b: Seq<u8>)
    ensures
        a == b || precedes(a, b) || precedes(b, a),
        !(precedes(a, b) && precedes(b, a)),
        !precedes(a, a),
    decreases a.len(),
{
    if a.len() == 0 {
        if b.len() == 0 {
            assert(a =~= b);
        }
    } else if b.len() > 0 {
        lemma_order_total(a.drop_first(), b.drop_first());
        lemma_order_total(a.drop_first(), a.drop_first());
        if a[0] == b[0] && a.drop_first() == b.drop_first() {
            assert(a =~= seq![a[0]] + a.drop_first());
            assert(b =~= seq![b[0]] + b.drop_first());
        }
    } else {
        lemma_order_total(a.drop_first(), a.drop_first());
    }
}

/// The order of bytes is transitive.
pub proof fn lemma_order_transitive(a: Seq<u8>, b: Seq<u8>, c: Seq<u8>)
    requires
        precedes(a, b),
        precedes(b, c),
    ensures
        precedes(a, c),
    decreases a.len(),
{
    if a.len() > 0 && a[0] == b[0] && b[0] == c[0] {
        lemma_order_transitive(a.drop_first(), b.drop_first(), c.drop_first());
    }
}

/// Whether `x` comes before `y` in the order of their bytes.
pub fn comes_before(x: &[u8], y: &[u8]) -> (yes: bool)
    ensures
        yes == precedes(x@, y@),
{
    let mut i: usize = 0;
    assert(x@.skip(0) =~= x@);
    assert(y@.skip(0) =~= y@);
    while i < x.len() && i < y.len()
        invariant
            i <= x@.len(),
            i <= y@.len(),
            precedes(x@.skip(i as int), y@.skip(i as int)) == precedes(x@, y@),
        decreases x@.len() - i,
    {
        assert(x@.skip(i as int)[0] == x@[i as int]);
        assert(y@.skip(i as int)[0] == y@[i as int]);
        if x[i] != y[i] {
            return x[i] < y[i];
        }
        assert(x@.skip(i as int).drop_first() =~= x@.skip(i + 1));
        assert(y@.skip(i as int).drop_first() =~= y@.skip(i + 1));
        i = i + 1;
    }
    i < y.len()
}

/// Whether `x` and `y` hold the same bytes.
pub fn same_bytes(x: &[u8], y: &[u8]) -> (yes: bool)
    ensures
        yes == (x@ == y@),
{
    if x.len() != y.len() {
        return false;
    }
    let mut i: usize = 0;
    while i < x.len()
        invariant
            i <= x@.len(),
            x@.len() == y@.len(),
            forall|j: int| 0 <= j < i ==> x@[j] == y@[j],
        decreases x@.len() - i,
    {
        if x[i] != y[i] {
            return false;
        }
        i = i + 1;
    }
    assert(x@ =~= y@);
    true
}

/// What the classes hold, byte by byte.
pub proof fn classes_hold_these_bytes(b: u8)
    ensures
        ByteClass::Space.has(b) <==> b == 32,
        ByteClass::Hash.has(b) <==> b == 35,
        ByteClass::Pipe.has(b) <==> b == 124,
        ByteClass::Blank.has(b) <==> b == 32 || b == 9,
        ByteClass::LineRest.has(b) <==> b == 32 || b == 9 || b == 13,
        ByteClass::Quote.has(b) <==> b == 62 || b == 32 || b == 9,
        ByteClass::Underline.has(b) <==> b == 61 || b == 45,
        ByteClass::Newline.has(b) <==> b == 10 || b == 13,
        ByteClass::Delimiter.has(b) <==> b == 124 || b == 45 || b == 58 || b == 32 || b == 9,
{
}

/// A forward scan ends at `end` exactly where all before it are in the class
/// and it is not, or is the limit.
pub proof fn forward_ends_at(b: Seq<u8>, i: int, hi: int, class: ByteClass, end: int)
    requires
        i <= end <= hi,
        forall|k: int| i <= k < end ==> class.has(#[trigger] b[k]),
        end == hi || !class.has(b[end]),
    ensures
        forward(b, i, hi, class) == end,
{
    lemma_forward(b, i, hi, class);
    let f = forward(b, i, hi, class);
    if f < end {
        assert(class.has(b[f]));
    }
    if f > end {
        assert(class.has(b[end]));
    }
}

/// A backward scan starts at `start` exactly where all from it on are in the
/// class and the byte before it is not, or it is the limit.
pub proof fn backward_starts_at(b: Seq<u8>, i: int, lo: int, class: ByteClass, start: int)
    requires
        lo <= start <= i,
        forall|k: int| start <= k < i ==> class.has(#[trigger] b[k]),
        start == lo || !class.has(b[start - 1]),
    ensures
        backward(b, i, lo, class) == start,
{
    lemma_backward(b, i, lo, class);
    let f = backward(b, i, lo, class);
    if f > start {
        assert(class.has(b[f - 1]));
    }
    if f < start {
        assert(class.has(b[start - 1]));
    }
}

/// The lesser of two numbers is one of them and not above either, and so the
/// greater.
pub proof fn least_and_greatest(a: usize, b: usize)
    ensures
        least(a, b) <= a && least(a, b) <= b,
        greatest(a, b) >= a && greatest(a, b) >= b,
        least(a, b) + greatest(a, b) == a + b,
{
}

/// Byte strings compare by their first difference.
pub proof fn first_difference_decides(same: Seq<u8>, x: u8, y: u8, a: Seq<u8>, b: Seq<u8>)
    requires
        x < y,
    ensures
        precedes(same + seq![x] + a, same + seq![y] + b),
        !precedes(same + seq![y] + b, same + seq![x] + a),
    decreases same.len(),
{
    let l = same + seq![x] + a;
    let r = same + seq![y] + b;
    if same.len() > 0 {
        assert(l[0] == same[0] && r[0] == same[0]);
        assert(l.drop_first() =~= same.drop_first() + seq![x] + a);
        assert(r.drop_first() =~= same.drop_first() + seq![y] + b);
        first_difference_decides(same.drop_first(), x, y, a, b);
    } else {
        assert(l[0] == x && r[0] == y);
    }
}

/// A byte string comes before all that go on with it.
pub proof fn beginnings_come_before(same: Seq<u8>, more: Seq<u8>)
    requires
        more.len() > 0,
    ensures
        precedes(same, same + more),
        !precedes(same + more, same),
    decreases same.len(),
{
    if same.len() > 0 {
        assert((same + more)[0] == same[0]);
        assert((same + more).drop_first() =~= same.drop_first() + more);
        beginnings_come_before(same.drop_first(), more);
    }
}

} // verus!
