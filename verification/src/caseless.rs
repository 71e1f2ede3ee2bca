//! Comparison of ASCII text without regard to case.

use vstd::prelude::*;
use vstd::string::*;
use vstd::utf8::*;

verus! {

/// `b`, with an upper-case ASCII letter replaced by its lower-case form.
pub open spec fn lower(b: u8) -> u8 {
    if 0x41 <= b <= 0x5a {
        (b + 0x20) as u8
    } else {
        b
    }
}

/// `a` and `b` differ at most in the case of ASCII letters.
pub open spec fn alike(a: Seq<u8>, b: Seq<u8>) -> bool {
    a.len() == b.len() && forall|i: int| 0 <= i < a.len() ==> lower(#[trigger] a[i]) == lower(b[i])
}

/// `b` starts like `prefix`.
pub open spec fn leads(b: Seq<u8>, prefix: Seq<u8>) -> bool {
    prefix.len() <= b.len() && alike(b.take(prefix.len() as int), prefix)
}

/// `b` ends like `suffix`.
pub open spec fn trails(b: Seq<u8>, suffix: Seq<u8>) -> bool {
    suffix.len() <= b.len() && alike(b.skip(b.len() - suffix.len()), suffix)
}

/// `b` holds something like `part`.
pub open spec fn has_part(b: Seq<u8>, part: Seq<u8>) -> bool {
    exists|i: int|
        0 <= i <= b.len() - part.len() && #[trigger] alike(b.subrange(i, i + part.len()), part)
}

fn to_lower(b: u8) -> (l: u8)
    ensures
        l == lower(b),
{
    if 0x41 <= b && b <= 0x5a {
        b + 0x20
    } else {
        b
    }
}

/// Whether the bytes of `b` at `at` are like `part`.
pub fn alike_at(b: &[u8], at: usize, part: &[u8]) -> (yes: bool)
    requires
        at + part@.len() <= b@.len(),
    ensures
        yes == alike(b@.subrange(at as int, at + part@.len()), part@),
{
    let end: usize = b.len();
    let mut i: usize = 0;
    let ghost window = b@.subrange(at as int, at + part@.len());
    while i < part.len()
        invariant
            i <= part@.len(),
            at + part@.len() <= end,
            end == b@.len(),
            window == b@.subrange(at as int, at + part@.len()),
            forall|j: int| 0 <= j < i ==> lower(#[trigger] window[j]) == lower(part@[j]),
        decreases part@.len() - i,
    {
        if to_lower(b[at + i]) != to_lower(part[i]) {
            assert(window[i as int] == b@[at + i]);
            return false;
        }
        i = i + 1;
    }
    true
}

/// Whether two texts differ at most in the case of ASCII letters.
pub fn same_ignoring_case(a: &str, b: &str) -> (yes: bool)
    ensures
        yes == alike(encode_utf8(a@), encode_utf8(b@)),
{
    let x = a.as_bytes();
    let y = b.as_bytes();
    if x.len() == y.len() {
        assert(x@.subrange(0, y@.len() as int) =~= x@);
        alike_at(x, 0, y)
    } else {
        false
    }
}

/// Whether `bytes` start like `prefix`.
pub fn bytes_lead(bytes: &[u8], prefix: &[u8]) -> (yes: bool)
    ensures
        yes == leads(bytes@, prefix@),
{
    assert(prefix@.len() <= bytes@.len() ==> bytes@.subrange(0, prefix@.len() as int)
        =~= bytes@.take(prefix@.len() as int));
    prefix.len() <= bytes.len() && alike_at(bytes, 0, prefix)
}

/// Whether `bytes` end like `suffix`.
pub fn bytes_trail(bytes: &[u8], suffix: &[u8]) -> (yes: bool)
    ensures
        yes == trails(bytes@, suffix@),
{
    assert(suffix@.len() <= bytes@.len() ==> bytes@.subrange(
        bytes@.len() - suffix@.len(),
        bytes@.len() as int,
    ) =~= bytes@.skip(bytes@.len() - suffix@.len()));
    suffix.len() <= bytes.len() && alike_at(bytes, bytes.len() - suffix.len(), suffix)
}

/// Whether `bytes` hold something like `part`.
pub fn bytes_hold(bytes: &[u8], part: &[u8]) -> (yes: bool)
    ensures
        yes == has_part(bytes@, part@),
{
    if bytes.len() < part.len() {
        return false;
    }
    let mut i: usize = 0;
    while i <= bytes.len() - part.len()
        invariant
            part@.len() <= bytes@.len(),
            i <= bytes@.len() - part@.len() + 1,
            forall|j: int|
                0 <= j < i ==> !#[trigger] alike(bytes@.subrange(j, j + part@.len()), part@),
        decreases bytes@.len() - part@.len() + 1 - i,
    {
        if alike_at(bytes, i, part) {
            return true;
        }
        if i == bytes.len() - part.len() {
            return false;
        }
        i = i + 1;
    }
    false
}

/// Whether `value` starts like `prefix`.
pub fn starts_with_ascii_case_insensitive(value: &str, prefix: &str) -> (yes: bool)
    ensures
        yes == leads(encode_utf8(value@), encode_utf8(prefix@)),
{
    bytes_lead(value.as_bytes(), prefix.as_bytes())
}

/// Letters of the ASCII alphabet compare without regard to case, all other bytes
/// as they are.
pub proof fn only_letters_have_two_cases(a: u8, b: u8)
    ensures
        lower(a) == lower(b) <==> a == b || (65 <= a <= 90 && b == a + 32) || (65 <= b <= 90 && a
            == b + 32),
{
}

/// A text leads with what it was put behind of, trails with what follows it and
/// holds both, in whatever case they are compared.
pub proof fn parts_are_found(a: Seq<u8>, b: Seq<u8>, c: Seq<u8>, part: Seq<u8>)
    requires
        alike(b, part),
    ensures
        leads(b + c, part),
        trails(a + b, part),
        has_part(a + b + c, part),
        alike(part, b),
{
    assert((b + c).take(part.len() as int) =~= b);
    assert((a + b).skip((a + b).len() - part.len()) =~= b);
    let whole = a + b + c;
    let i = a.len() as int;
    assert(whole.subrange(i, i + part.len()) =~= b);
    assert(alike(whole.subrange(i, i + part.len()), part));
}

/// A text that leads or trails with something holds it, and is at least as long.
pub proof fn ends_are_parts(b: Seq<u8>, part: Seq<u8>)
    ensures
        leads(b, part) ==> has_part(b, part) && part.len() <= b.len(),
        trails(b, part) ==> has_part(b, part) && part.len() <= b.len(),
        leads(b, part) && b.len() == part.len() ==> alike(b, part),
{
    if leads(b, part) {
        assert(b.subrange(0, 0int + part.len()) =~= b.take(part.len() as int));
        assert(alike(b.subrange(0, 0int + part.len()), part));
        assert(b.len() == part.len() ==> b.take(part.len() as int) =~= b);
    }
    if trails(b, part) {
        let i = b.len() - part.len();
        assert(b.subrange(i, i + part.len()) =~= b.skip(i));
        assert(alike(b.subrange(i, i + part.len()), part));
    }
}

} // verus!
