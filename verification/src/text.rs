//! UTF-8 text addressed by byte offsets.

use std::ops::Range;

use vstd::prelude::*;
use vstd::string::*;
use vstd::utf8::*;

verus! {

/// `i` does not fall inside the encoding of a character of `b`.
pub open spec fn boundary(b: Seq<u8>, i: int) -> bool {
    0 <= i <= b.len() && (i < b.len() ==> !is_continuation_byte(b[i]))
}

/// `r` selects whole characters of `b`.
pub open spec fn sliceable(b: Seq<u8>, r: Range<usize>) -> bool {
    r.start <= r.end && boundary(b, r.start as int) && boundary(b, r.end as int)
}

/// The bytes of `b` in `r`, when `r` selects whole characters.
pub open spec fn slice_of(b: Seq<u8>, r: Range<usize>) -> Option<Seq<u8>> {
    if sliceable(b, r) {
        Some(b.subrange(r.start as int, r.end as int))
    } else {
        None
    }
}

/// The bytes behind an optional string slice.
pub open spec fn opt_bytes(s: Option<&str>) -> Option<Seq<u8>> {
    match s {
        Some(t) => Some(encode_utf8(t@)),
        None => None,
    }
}

/// Encoding distributes over concatenation.
pub proof fn lemma_encode_concat(a: Seq<char>, b: Seq<char>)
    ensures
        encode_utf8(a + b) == encode_utf8(a) + encode_utf8(b),
    decreases a.len(),
{
    if a.len() == 0 {
        assert(a + b =~= b);
        assert(encode_utf8(a) =~= Seq::<u8>::empty());
    } else {
        lemma_encode_concat(a.drop_first(), b);
        assert((a + b).drop_first() =~= a.drop_first() + b);
        assert((a + b)[0] == a[0]);
    }
}

/// Two texts with the same bytes are the same text.
pub proof fn lemma_encode_injective(a: Seq<char>, b: Seq<char>)
    requires
        encode_utf8(a) == encode_utf8(b),
    ensures
        a == b,
{
    encode_utf8_decode_utf8(a);
    encode_utf8_decode_utf8(b);
}

/// Boundaries of encoded text are exactly the offsets at which `str` accepts
/// a split.
pub proof fn lemma_boundary(c: Seq<char>, i: int)
    ensures
        boundary(encode_utf8(c), i) <==> is_char_boundary(encode_utf8(c), i),
{
    let b = encode_utf8(c);
    encode_utf8_valid_utf8(c);
    if 0 <= i < b.len() {
        is_char_boundary_iff_not_is_continuation_byte(b, i);
    } else if i == b.len() {
        is_char_boundary_start_end_of_seq(b);
    } else {
        reveal_with_fuel(is_char_boundary, 1);
    }
}

/// Both ends of a text are boundaries.
pub proof fn lemma_boundary_ends(c: Seq<char>)
    ensures
        boundary(encode_utf8(c), 0),
        boundary(encode_utf8(c), encode_utf8(c).len() as int),
{
    encode_utf8_valid_utf8(c);
    is_char_boundary_start_end_of_seq(encode_utf8(c));
    lemma_boundary(c, 0);
}

/// A text is empty exactly when it has no bytes.
pub proof fn lemma_encode_empty(c: Seq<char>)
    ensures
        encode_utf8(c).len() == 0 <==> c.len() == 0,
        encode_utf8(c).len() >= c.len(),
    decreases c.len(),
{
    if c.len() > 0 {
        lemma_encode_empty(c.drop_first());
    }
}

/// An ASCII byte is a character by itself: the offset after it is a boundary.
pub proof fn lemma_after_ascii(c: Seq<char>, i: int)
    requires
        0 <= i < encode_utf8(c).len(),
        encode_utf8(c)[i] < 0x80,
    ensures
        boundary(encode_utf8(c), i + 1),
    decreases c.len(),
{
    let b = encode_utf8(c);
    let head = encode_scalar(c[0] as u32);
    let rest = c.drop_first();
    encode_utf8_first_scalar(c);
    if i < head.len() {
        assert(head.len() == 1);
        lemma_boundary_ends(rest);
        if i + 1 < b.len() {
            assert(b[i + 1] == encode_utf8(rest)[0]);
        }
    } else {
        assert(b[i] == encode_utf8(rest)[i - head.len()]);
        lemma_after_ascii(rest, i - head.len());
        if i + 1 < b.len() {
            assert(b[i + 1] == encode_utf8(rest)[i + 1 - head.len()]);
        }
    }
}

/// Number of bytes of `s`.
pub fn byte_len(s: &str) -> (n: usize)
    ensures
        n == encode_utf8(s@).len(),
{
    s.as_bytes().len()
}

/// Whether `i` is a boundary of `s`.
pub fn at_boundary(s: &str, i: usize) -> (ok: bool)
    ensures
        ok == boundary(encode_utf8(s@), i as int),
{
    proof {
        lemma_boundary(s@, i as int);
    }
    s.is_char_boundary(i)
}

/// The text between two boundaries of `s`.
pub fn slice<'a>(s: &'a str, start: usize, end: usize) -> (t: &'a str)
    requires
        sliceable(encode_utf8(s@), (start..end)),
    ensures
        encode_utf8(t@) == encode_utf8(s@).subrange(start as int, end as int),
{
    proof {
        lemma_boundary(s@, start as int);
        lemma_boundary(s@, end as int);
    }
    let head = s.split_at(end).0;
    proof {
        lemma_boundary(head@, start as int);
        lemma_boundary_ends(head@);
    }
    let t = head.split_at(start).1;
    assert(encode_utf8(t@) =~= encode_utf8(s@).subrange(start as int, end as int));
    t
}

/// The text of `s` in `r`, or `None` when `r` is reversed, out of bounds or
/// cuts a character.
pub fn get<'a>(s: &'a str, r: &Range<usize>) -> (t: Option<&'a str>)
    ensures
        opt_bytes(t) == slice_of(encode_utf8(s@), *r),
{
    if r.start <= r.end && at_boundary(s, r.start) && at_boundary(s, r.end) {
        Some(slice(s, r.start, r.end))
    } else {
        None
    }
}

/// Appends `t` to `s`.
pub fn push_str(s: &mut String, t: &str)
    ensures
        final(s)@ == old(s)@ + t@,
        encode_utf8(final(s)@) == encode_utf8(old(s)@) + encode_utf8(t@),
{
    proof {
        lemma_encode_concat(s@, t@);
    }
    s.append(t);
}

/// An owned copy of `s`.
pub fn own(s: &str) -> (t: String)
    ensures
        t@ == s@,
{
    s.to_owned()
}

/// A copy of `r`.
pub fn dup(r: &Range<usize>) -> (c: Range<usize>)
    ensures
        c == *r,
{
    r.start..r.end
}

/// A copy of an optional range.
pub fn dup_opt(r: &Option<Range<usize>>) -> (c: Option<Range<usize>>)
    ensures
        c == *r,
{
    match r {
        Some(r) => Some(dup(r)),
        None => None,
    }
}

/// Whether two ranges have the same ends.
pub fn same(a: &Range<usize>, b: &Range<usize>) -> (eq: bool)
    ensures
        eq == (*a == *b),
{
    a.start == b.start && a.end == b.end
}

/// The Unicode property `White_Space`.
pub open spec fn is_space(c: char) -> bool {
    ||| '\u{9}' <= c <= '\u{d}'
    ||| c == '\u{20}'
    ||| c == '\u{85}'
    ||| c == '\u{a0}'
    ||| c == '\u{1680}'
    ||| '\u{2000}' <= c <= '\u{200a}'
    ||| c == '\u{2028}'
    ||| c == '\u{2029}'
    ||| c == '\u{202f}'
    ||| c == '\u{205f}'
    ||| c == '\u{3000}'
}

/// `s` without the white space at its start.
pub open spec fn trimmed_start(s: Seq<char>) -> Seq<char>
    decreases s.len(),
{
    if s.len() > 0 && is_space(s[0]) {
        trimmed_start(s.drop_first())
    } else {
        s
    }
}

/// `s` without the white space at its end.
pub open spec fn trimmed_end(s: Seq<char>) -> Seq<char>
    decreases s.len(),
{
    if s.len() > 0 && is_space(s.last()) {
        trimmed_end(s.drop_last())
    } else {
        s
    }
}

/// `s` without the white space at its ends.
pub open spec fn trimmed(s: Seq<char>) -> Seq<char> {
    trimmed_end(trimmed_start(s))
}

/// `str::trim` removes leading and trailing characters with the Unicode
/// property `White_Space`, and nothing else.
pub assume_specification[ str::trim ](s: &str) -> (t: &str)
    ensures
        t@ == trimmed(s@),
;

/// `std::str::from_utf8` gives the text of which `bytes` are the encoding,
/// exactly where they are valid UTF-8.
#[verifier::external_body]
pub(crate) fn utf8_text<'a>(bytes: &'a [u8]) -> (t: Option<&'a str>)
    ensures
        t is Some <==> valid_utf8(bytes@),
        t matches Some(s) ==> encode_utf8(s@) == bytes@,
{
    std::str::from_utf8(bytes).ok()
}

/// Trimming twice is trimming once.
pub proof fn trim_is_idempotent(s: Seq<char>)
    ensures
        trimmed(trimmed(s)) == trimmed(s),
{
    lemma_trimmed_start(s);
    let t = trimmed_start(s);
    lemma_trimmed_end(t);
    let u = trimmed_end(t);
    assert(u.len() > 0 ==> u[0] == t[0]);
    assert(trimmed_start(u) == u);
    assert(trimmed_end(u) == u);
}

proof fn lemma_trimmed_start(s: Seq<char>)
    ensures
        trimmed_start(s).len() > 0 ==> !is_space(trimmed_start(s)[0]),
    decreases s.len(),
{
    if s.len() > 0 && is_space(s[0]) {
        lemma_trimmed_start(s.drop_first());
    }
}

proof fn lemma_trimmed_end(s: Seq<char>)
    ensures
        trimmed_end(s).len() <= s.len(),
        trimmed_end(s).len() > 0 ==> !is_space(trimmed_end(s).last()) && trimmed_end(s)[0] == s[0],
    decreases s.len(),
{
    if s.len() > 0 && is_space(s.last()) {
        lemma_trimmed_end(s.drop_last());
    }
}

/// The last boundary of `s` at or before `i`.
pub open spec fn floor_boundary(b: Seq<u8>, i: int) -> int
    decreases i,
{
    if i <= 0 || boundary(b, i) {
        i
    } else {
        floor_boundary(b, i - 1)
    }
}

/// The last boundary of `s` at or before `i`.
pub fn floor_at(s: &str, i: usize) -> (k: usize)
    requires
        i <= encode_utf8(s@).len(),
    ensures
        k == floor_boundary(encode_utf8(s@), i as int),
        k <= i,
        boundary(encode_utf8(s@), k as int),
{
    let mut k: usize = i;
    proof {
        lemma_boundary_ends(s@);
    }
    while k > 0 && !at_boundary(s, k)
        invariant
            k <= i <= encode_utf8(s@).len(),
            floor_boundary(encode_utf8(s@), i as int) == floor_boundary(encode_utf8(s@), k as int),
        decreases k,
    {
        k = k - 1;
    }
    proof {
        lemma_boundary_ends(s@);
    }
    k
}

/// White space is what Unicode says it is.
pub proof fn white_space_is(c: char)
    ensures
        is_space(c) <==> {
            let n = c as u32;
            ||| 9 <= n <= 13
            ||| n == 32 || n == 133 || n == 160 || n == 5760
            ||| 8192 <= n <= 8202
            ||| n == 8232 || n == 8233 || n == 8239 || n == 8287 || n == 12288
        },
{
}

/// Trimming takes all white space at both ends and nothing else.
pub proof fn trimming_takes_the_margins(left: Seq<char>, s: Seq<char>, right: Seq<char>)
    requires
        forall|k: int| 0 <= k < left.len() ==> is_space(#[trigger] left[k]),
        forall|k: int| 0 <= k < right.len() ==> is_space(#[trigger] right[k]),
        s.len() > 0 ==> !is_space(s[0]) && !is_space(s.last()),
    ensures
        trimmed(left + s + right) == s,
    decreases left.len() + right.len(),
{
    let all = left + s + right;
    if left.len() > 0 {
        assert(all[0] == left[0]);
        assert(all.drop_first() =~= left.drop_first() + s + right);
        trimming_takes_the_margins(left.drop_first(), s, right);
    } else if s.len() == 0 {
        assert(all =~= right);
        assert(s =~= Seq::<char>::empty());
        if right.len() > 0 {
            assert(all.drop_first() =~= left + s + right.drop_first());
            trimming_takes_the_margins(left, s, right.drop_first());
        } else {
            assert(all =~= s);
        }
    } else if right.len() > 0 {
        assert(all[0] == s[0]);
        assert(all.last() == right.last());
        assert(all.drop_last() =~= left + s + right.drop_last());
        trimming_takes_the_margins(left, s, right.drop_last());
        assert(all.drop_last()[0] == s[0]);
    } else {
        assert(all =~= s);
    }
}

/// The floor of an offset is the last start of a character that is not behind
/// it.
pub proof fn floors_are_the_last_start(b: Seq<u8>, i: int, k: int)
    requires
        0 <= k <= i <= b.len(),
        boundary(b, k),
    ensures
        k <= floor_boundary(b, i) <= i,
        boundary(b, floor_boundary(b, i)),
    decreases i,
{
    if i > 0 && !boundary(b, i) {
        floors_are_the_last_start(b, i - 1, k);
    }
}

} // verus!
