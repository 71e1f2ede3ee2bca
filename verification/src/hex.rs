//! Digits: hexadecimal text, percent-encoded text and decimal numbers.

use vstd::prelude::*;
use vstd::string::*;
use vstd::utf8::*;

use crate::ascii::PERCENT;
use crate::text;

verus! {

/// The lower-case hexadecimal digit of `n`.
pub open spec fn hex_digit(n: int) -> char {
    "0123456789abcdef"@[n]
}

/// The hexadecimal text of `bytes`, two digits for each.
pub open spec fn hex_text(bytes: Seq<u8>) -> Seq<char>
    decreases bytes.len(),
{
    if bytes.len() == 0 {
        Seq::empty()
    } else {
        hex_text(bytes.drop_last()).push(hex_digit(bytes.last() as int / 16)).push(
            hex_digit(bytes.last() as int % 16),
        )
    }
}

/// The hexadecimal text of `bytes`.
pub fn hex_encode(bytes: &[u8]) -> (out: String)
    ensures
        out@ == hex_text(bytes@),
{
    let digits = "0123456789abcdef";
    proof {
        reveal_strlit("0123456789abcdef");
    }
    let mut out = String::new();
    let mut i: usize = 0;
    while i < bytes.len()
        invariant
            i <= bytes@.len(),
            digits@ == "0123456789abcdef"@,
            digits@.len() == 16,
            is_ascii(digits),
            out@ == hex_text(bytes@.take(i as int)),
        decreases bytes@.len() - i,
    {
        let high: usize = (bytes[i] / 16) as usize;
        let low: usize = (bytes[i] % 16) as usize;
        out.append(digits.substring_ascii(high, high + 1));
        out.append(digits.substring_ascii(low, low + 1));
        assert(bytes@.take(i + 1).drop_last() =~= bytes@.take(i as int));
        assert(out@ =~= hex_text(bytes@.take(i + 1)));
        i = i + 1;
    }
    assert(bytes@.take(i as int) =~= bytes@);
    out
}

/// Hexadecimal text has two characters for each byte.
pub proof fn hex_length(bytes: Seq<u8>)
    ensures
        hex_text(bytes).len() == 2 * bytes.len(),
    decreases bytes.len(),
{
    if bytes.len() > 0 {
        hex_length(bytes.drop_last());
    }
}

/// Different bytes have different hexadecimal texts.
pub proof fn hex_is_injective(a: Seq<u8>, b: Seq<u8>)
    requires
        hex_text(a) == hex_text(b),
    ensures
        a == b,
    decreases a.len(),
{
    hex_length(a);
    hex_length(b);
    if a.len() > 0 {
        let x = hex_text(a);
        let y = hex_text(b);
        assert(x.drop_last().drop_last() =~= hex_text(a.drop_last()));
        assert(y.drop_last().drop_last() =~= hex_text(b.drop_last()));
        hex_is_injective(a.drop_last(), b.drop_last());
        assert(x[x.len() - 1] == y[y.len() - 1]);
        assert(x[x.len() - 2] == y[y.len() - 2]);
        reveal_strlit("0123456789abcdef");
        assert(a.last() == b.last());
        assert(a =~= a.drop_last().push(a.last()));
        assert(b =~= b.drop_last().push(b.last()));
    } else {
        assert(a =~= b);
    }
}

/// The number that a hexadecimal digit stands for.
pub open spec fn nibble(b: u8) -> Option<u8> {
    if 0x30 <= b <= 0x39 {
        Some((b - 0x30) as u8)
    } else if 0x61 <= b <= 0x66 {
        Some((b - 0x61 + 10) as u8)
    } else if 0x41 <= b <= 0x46 {
        Some((b - 0x41 + 10) as u8)
    } else {
        None
    }
}

/// The number that a hexadecimal digit stands for.
pub fn hex_nibble(b: u8) -> (n: Option<u8>)
    ensures
        n == nibble(b),
{
    if 0x30 <= b && b <= 0x39 {
        Some(b - 0x30)
    } else if 0x61 <= b && b <= 0x66 {
        Some(b - 0x61 + 10)
    } else if 0x41 <= b && b <= 0x46 {
        Some(b - 0x41 + 10)
    } else {
        None
    }
}

/// The byte that a percent sign at `i` and the two digits behind it encode.
pub open spec fn escaped(b: Seq<u8>, i: int) -> Option<u8> {
    if b[i] == PERCENT && i + 2 < b.len() && nibble(b[i + 1]) is Some && nibble(b[i + 2]) is Some {
        Some((nibble(b[i + 1])->0 * 16 + nibble(b[i + 2])->0) as u8)
    } else {
        None
    }
}

/// The bytes of `b` from `i` on, with each escape replaced by its byte.
pub open spec fn unescaped(b: Seq<u8>, i: int) -> Seq<u8>
    decreases b.len() - i,
{
    if i >= b.len() {
        Seq::empty()
    } else {
        match escaped(b, i) {
            Some(byte) => seq![byte] + unescaped(b, i + 3),
            None => seq![b[i]] + unescaped(b, i + 1),
        }
    }
}

/// Percent-decodes arbitrary bytes. Image bytes need not be UTF-8.
pub fn percent_decode_bytes(input: &str) -> (out: Vec<u8>)
    ensures
        out@ == unescaped(encode_utf8(input@), 0),
{
    let bytes = input.as_bytes();
    let mut out: Vec<u8> = Vec::new();
    let mut i: usize = 0;
    let n: usize = bytes.len();
    assert(Seq::<u8>::empty() + unescaped(bytes@, 0) =~= unescaped(bytes@, 0));
    while i < n
        invariant
            i <= n,
            n == bytes@.len(),
            out@ + unescaped(bytes@, i as int) == unescaped(bytes@, 0),
        decreases n - i,
    {
        let ghost before = out@;
        let ghost at = i as int;
        let mut byte: u8 = bytes[i];
        let mut width: usize = 1;
        if byte == PERCENT && n - i > 2 {
            match (hex_nibble(bytes[i + 1]), hex_nibble(bytes[i + 2])) {
                (Some(high), Some(low)) => {
                    byte = high * 16 + low;
                    width = 3;
                },
                _ => {},
            }
        }
        out.push(byte);
        i = i + width;
        assert(before + (seq![byte] + unescaped(bytes@, i as int)) =~= out@ + unescaped(
            bytes@,
            i as int,
        ));
        assert(unescaped(bytes@, at) == seq![byte] + unescaped(bytes@, i as int));
    }
    assert(out@ + unescaped(bytes@, i as int) =~= out@);
    out
}

/// The text that percent-decoding gives, or the input where that is no text.
pub open spec fn decoded_path(input: Seq<char>) -> Seq<char> {
    let bytes = unescaped(encode_utf8(input), 0);
    if valid_utf8(bytes) {
        decode_utf8(bytes)
    } else {
        input
    }
}

/// Percent-decodes a path. A path that decodes to no text stays as it is.
pub fn percent_decode_path(input: &str) -> (out: String)
    ensures
        out@ == decoded_path(input@),
{
    let bytes = percent_decode_bytes(input);
    match text::utf8_text(bytes.as_slice()) {
        Some(t) => {
            proof {
                encode_utf8_decode_utf8(t@);
            }
            text::own(t)
        },
        None => text::own(input),
    }
}

proof fn lemma_unescaped_plain(b: Seq<u8>, i: int)
    requires
        0 <= i <= b.len(),
        !b.contains(PERCENT),
    ensures
        unescaped(b, i) == b.skip(i),
    decreases b.len() - i,
{
    if i < b.len() {
        assert(b.contains(b[i]));
        lemma_unescaped_plain(b, i + 1);
        assert(seq![b[i]] + b.skip(i + 1) =~= b.skip(i));
    } else {
        assert(b.skip(i) =~= Seq::<u8>::empty());
    }
}

/// A path without a percent sign decodes to itself.
pub proof fn plain_path_is_kept(input: Seq<char>)
    requires
        !encode_utf8(input).contains(PERCENT),
    ensures
        decoded_path(input) == input,
{
    let b = encode_utf8(input);
    lemma_unescaped_plain(b, 0);
    assert(b.skip(0) =~= b);
    encode_utf8_valid_utf8(input);
    encode_utf8_decode_utf8(input);
}

/// Decoding never lengthens.
pub proof fn unescaping_shrinks(b: Seq<u8>, i: int)
    requires
        0 <= i,
    ensures
        unescaped(b, i).len() <= if i <= b.len() {
            b.len() - i
        } else {
            0
        },
    decreases b.len() - i,
{
    if i < b.len() {
        match escaped(b, i) {
            Some(_) => unescaping_shrinks(b, i + 3),
            None => unescaping_shrinks(b, i + 1),
        }
    }
}

/// The decimal text of `n`.
pub open spec fn decimal_text(n: int) -> Seq<char>
    decreases n,
{
    if n < 10 {
        seq![hex_digit(n)]
    } else {
        decimal_text(n / 10).push(hex_digit(n % 10))
    }
}

/// The decimal text of `n`.
pub fn decimal(n: u64) -> (out: String)
    ensures
        out@ == decimal_text(n as int),
    decreases n,
{
    let digits = "0123456789abcdef";
    proof {
        reveal_strlit("0123456789abcdef");
    }
    let mut out = if n < 10 {
        String::new()
    } else {
        decimal(n / 10)
    };
    let last: usize = (n % 10) as usize;
    out.append(digits.substring_ascii(last, last + 1));
    assert(out@ =~= decimal_text(n as int));
    out
}

/// The digits are those of both cases, and each stands for its place among
/// them.
pub proof fn digits_stand_for_their_place(k: u8)
    ensures
        k < 10 ==> nibble((48 + k) as u8) == Some(k),
        10 <= k < 16 ==> nibble((87 + k) as u8) == Some(k) && nibble((55 + k) as u8) == Some(k),
        !(48 <= k <= 57 || 97 <= k <= 102 || 65 <= k <= 70) ==> nibble(k) is None,
{
}

/// The two digits of a byte are read back as its upper and its lower half, in
/// that order, and in lower case.
pub proof fn hex_reads_back(bytes: Seq<u8>, k: int)
    requires
        0 <= k < bytes.len(),
    ensures
        hex_text(bytes).len() == 2 * bytes.len(),
        nibble(hex_text(bytes)[2 * k] as u8) == Some((bytes[k] / 16) as u8),
        nibble(hex_text(bytes)[2 * k + 1] as u8) == Some((bytes[k] % 16) as u8),
        forall|j: int|
            0 <= j < hex_text(bytes).len() ==> !('A' <= #[trigger] hex_text(bytes)[j]
                && hex_text(bytes)[j] <= 'Z'),
    decreases bytes.len(),
{
    reveal_strlit("0123456789abcdef");
    hex_length(bytes);
    hex_length(bytes.drop_last());
    if bytes.len() > 1 {
        hex_reads_back(
            bytes.drop_last(),
            if k < bytes.len() - 1 {
                k
            } else {
                0
            },
        );
    }
    assert forall|j: int| 0 <= j < hex_text(bytes).len() implies !('A' <= #[trigger] hex_text(
        bytes,
    )[j] && hex_text(bytes)[j] <= 'Z') by {
        if j < hex_text(bytes.drop_last()).len() {
            assert(hex_text(bytes)[j] == hex_text(bytes.drop_last())[j]);
        }
    }
    if k < bytes.len() - 1 {
        assert(hex_text(bytes)[2 * k] == hex_text(bytes.drop_last())[2 * k]);
        assert(hex_text(bytes)[2 * k + 1] == hex_text(bytes.drop_last())[2 * k + 1]);
        assert(bytes.drop_last()[k] == bytes[k]);
    }
}

proof fn lemma_unescaped_skip(a: Seq<u8>, b: Seq<u8>, i: int)
    requires
        0 <= i,
    ensures
        unescaped(a + b, a.len() + i) == unescaped(b, i),
    decreases b.len() - i,
{
    if i < b.len() {
        lemma_unescaped_skip(a, b, i + 1);
        assert((a + b)[a.len() + i] == b[i]);
        if i + 2 < b.len() {
            lemma_unescaped_skip(a, b, i + 3);
            assert((a + b)[a.len() + i + 1] == b[i + 1]);
            assert((a + b)[a.len() + i + 2] == b[i + 2]);
        }
    }
}

/// Decoding replaces a percent sign and two digits by the byte that they spell,
/// and goes on behind them.
pub proof fn escapes_become_their_byte(high: u8, low: u8, rest: Seq<u8>)
    requires
        nibble(high) is Some,
        nibble(low) is Some,
    ensures
        unescaped(seq![37u8, high, low] + rest, 0) == seq![
            (16 * nibble(high)->0 + nibble(low)->0) as u8,
        ] + unescaped(rest, 0),
{
    let b = seq![37u8, high, low] + rest;
    assert(b[0] == 37 && b[1] == high && b[2] == low);
    lemma_unescaped_skip(seq![37u8, high, low], rest, 0);
    assert(escaped(b, 0) is Some);
}

/// Decoding keeps every other byte where it is: one that is no percent sign, and
/// a percent sign without two digits behind it.
pub proof fn other_bytes_are_kept(first: u8, rest: Seq<u8>)
    requires
        first != 37 || rest.len() < 2 || nibble(rest[0]) is None || nibble(rest[1]) is None,
    ensures
        unescaped(seq![first] + rest, 0) == seq![first] + unescaped(rest, 0),
        unescaped(Seq::<u8>::empty(), 0).len() == 0,
{
    let b = seq![first] + rest;
    assert(b[0] == first);
    if rest.len() >= 2 {
        assert(b[1] == rest[0] && b[2] == rest[1]);
    }
    lemma_unescaped_skip(seq![first], rest, 0);
}

/// A path decodes to the text whose bytes its escapes spell, and stays as it is
/// where they spell none.
pub proof fn paths_decode_to_text(input: Seq<char>, t: Seq<char>)
    ensures
        unescaped(encode_utf8(input), 0) == encode_utf8(t) ==> decoded_path(input) == t,
        !valid_utf8(unescaped(encode_utf8(input), 0)) ==> decoded_path(input) == input,
{
    encode_utf8_valid_utf8(t);
    encode_utf8_decode_utf8(t);
}

/// The number that decimal digits spell.
pub open spec fn spelled_number(digits: Seq<char>) -> int
    decreases digits.len(),
{
    if digits.len() == 0 {
        0
    } else {
        10 * spelled_number(digits.drop_last()) + (digits.last() as int - 48)
    }
}

/// The decimal text of a number spells it, in digits alone and without a zero
/// ahead.
pub proof fn decimal_spells_its_number(n: int)
    requires
        0 <= n,
    ensures
        spelled_number(decimal_text(n)) == n,
        decimal_text(n).len() >= 1,
        decimal_text(n).len() > 1 ==> decimal_text(n)[0] != '0',
        n > 0 ==> decimal_text(n)[0] != '0',
        forall|k: int|
            0 <= k < decimal_text(n).len() ==> '0' <= #[trigger] decimal_text(n)[k]
                && decimal_text(n)[k] <= '9',
    decreases n,
{
    reveal_strlit("0123456789abcdef");
    let t = decimal_text(n);
    if n < 10 {
        assert(t.drop_last() =~= Seq::<char>::empty());
        reveal_with_fuel(spelled_number, 2);
    } else {
        decimal_spells_its_number(n / 10);
        assert(t.drop_last() =~= decimal_text(n / 10));
        assert(t[0] == decimal_text(n / 10)[0]);
    }
}

} // verus!
