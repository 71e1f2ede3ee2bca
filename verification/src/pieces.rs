//! Text cut at an ASCII separator.

use vstd::prelude::*;
use vstd::string::*;
use vstd::utf8::*;

use crate::text;

verus! {

/// What stands before and behind the first `c` of `s`.
pub open spec fn cut(s: Seq<char>, c: char) -> Option<(Seq<char>, Seq<char>)>
    decreases s.len(),
{
    if s.len() == 0 {
        None
    } else if s[0] == c {
        Some((Seq::empty(), s.drop_first()))
    } else {
        match cut(s.drop_first(), c) {
            Some((before, behind)) => Some((seq![s[0]] + before, behind)),
            None => None,
        }
    }
}

/// What is behind a cut is shorter than the whole.
pub proof fn lemma_cut_shrinks(s: Seq<char>, c: char)
    ensures
        cut(s, c) matches Some((before, behind)) ==> before.len() + 1 + behind.len() == s.len(),
    decreases s.len(),
{
    if s.len() > 0 && s[0] != c {
        lemma_cut_shrinks(s.drop_first(), c);
    }
}

proof fn lemma_cut_unique(before: Seq<char>, c: char, behind: Seq<char>)
    requires
        !before.contains(c),
    ensures
        cut(before + seq![c] + behind, c) == Some((before, behind)),
    decreases before.len(),
{
    let s = before + seq![c] + behind;
    if before.len() == 0 {
        assert(s.drop_first() =~= behind);
        assert(before =~= Seq::<char>::empty());
    } else {
        assert(before.contains(before[0]));
        assert(s.drop_first() =~= before.drop_first() + seq![c] + behind);
        assert(!before.drop_first().contains(c)) by {
            assert forall|i: int| 0 <= i < before.len() - 1 implies before.drop_first()[i] != c by {
                assert(before.contains(before[i + 1]));
            }
        }
        lemma_cut_unique(before.drop_first(), c, behind);
        assert(seq![before[0]] + before.drop_first() =~= before);
    }
}

proof fn lemma_cut_absent(s: Seq<char>, c: char)
    requires
        !s.contains(c),
    ensures
        cut(s, c) is None,
    decreases s.len(),
{
    if s.len() > 0 {
        assert(s.contains(s[0]));
        assert forall|i: int| 0 <= i < s.len() - 1 implies s.drop_first()[i] != c by {
            assert(s.contains(s[i + 1]));
        }
        lemma_cut_absent(s.drop_first(), c);
    }
}

/// An ASCII character is one byte.
pub proof fn lemma_one_ascii(c: char)
    requires
        c < '\u{80}',
    ensures
        encode_utf8(seq![c]) == seq![c as u8],
{
    assert(is_ascii_chars(seq![c]));
    is_ascii_chars_encode_utf8(seq![c]);
    assert(encode_utf8(seq![c]) =~= seq![c as u8]);
}

proof fn lemma_ascii_char_is_byte(s: Seq<char>, c: char)
    requires
        c < '\u{80}',
        s.contains(c),
    ensures
        encode_utf8(s).contains(c as u8),
{
    let i = choose|i: int| 0 <= i < s.len() && s[i] == c;
    let before = s.take(i);
    let behind = s.skip(i + 1);
    assert(s =~= before + seq![c] + behind);
    text::lemma_encode_concat(before + seq![c], behind);
    text::lemma_encode_concat(before, seq![c]);
    lemma_one_ascii(c);
    assert(encode_utf8(s)[encode_utf8(before).len() as int] == c as u8);
}

/// What stands before and behind the first `separator` of `s`.
pub fn cut_at<'a>(s: &'a str, separator: u8) -> (parts: Option<(&'a str, &'a str)>)
    requires
        separator < 0x80,
    ensures
        match parts {
            Some((before, behind)) => cut(s@, separator as char) == Some((before@, behind@)),
            None => cut(s@, separator as char) is None,
        },
{
    let bytes = s.as_bytes();
    let ghost c = separator as char;
    let mut i: usize = 0;
    while i < bytes.len()
        invariant
            i <= bytes@.len(),
            bytes@ == encode_utf8(s@),
            c == separator as char,
            separator < 0x80,
            forall|j: int| 0 <= j < i ==> bytes@[j] != separator,
        decreases bytes@.len() - i,
    {
        if bytes[i] == separator {
            proof {
                text::lemma_boundary_ends(s@);
                text::lemma_after_ascii(s@, i as int);
                assert(!is_continuation_byte(separator));
            }
            let before = text::slice(s, 0, i);
            let behind = text::slice(s, i + 1, bytes.len());
            proof {
                text::lemma_encode_concat(before@ + seq![c], behind@);
                text::lemma_encode_concat(before@, seq![c]);
                lemma_one_ascii(c);
                assert(encode_utf8(before@ + seq![c] + behind@) =~= encode_utf8(s@));
                text::lemma_encode_injective(before@ + seq![c] + behind@, s@);
                if before@.contains(c) {
                    lemma_ascii_char_is_byte(before@, c);
                    let j = choose|j: int|
                        0 <= j < encode_utf8(before@).len() && encode_utf8(before@)[j]
                            == separator;
                    assert(bytes@[j] == separator);
                }
                lemma_cut_unique(before@, c, behind@);
            }
            return Some((before, behind));
        }
        i = i + 1;
    }
    proof {
        if s@.contains(c) {
            lemma_ascii_char_is_byte(s@, c);
        }
        lemma_cut_absent(s@, c);
    }
    None
}

/// A text whose first `n` bytes are ASCII starts with `n` characters of one
/// byte each.
pub proof fn lemma_ascii_start(s: Seq<char>, n: int)
    requires
        0 <= n <= encode_utf8(s).len(),
        forall|i: int| 0 <= i < n ==> #[trigger] encode_utf8(s)[i] < 0x80,
    ensures
        n <= s.len(),
        encode_utf8(s.skip(n)) == encode_utf8(s).skip(n),
    decreases n,
{
    if n > 0 {
        let b = encode_utf8(s);
        text::lemma_encode_empty(s);
        encode_utf8_first_scalar(s);
        let head = encode_scalar(s[0] as u32);
        let rest = s.drop_first();
        assert(b =~= head + encode_utf8(rest));
        assert(b[0] == head[0]);
        assert(head.len() == 1);
        assert forall|i: int| 0 <= i < n - 1 implies #[trigger] encode_utf8(rest)[i] < 0x80 by {
            assert(b[i + 1] == encode_utf8(rest)[i]);
        }
        lemma_ascii_start(rest, n - 1);
        assert(rest.skip(n - 1) =~= s.skip(n));
        assert(encode_utf8(rest).skip(n - 1) =~= b.skip(n));
    } else {
        assert(s.skip(0) =~= s);
        assert(encode_utf8(s).skip(0) =~= encode_utf8(s));
    }
}

/// A text is cut at the first `c`: what was before it and what was behind it
/// come apart again.
pub proof fn cuts_at_the_first(before: Seq<char>, c: char, behind: Seq<char>)
    requires
        !before.contains(c),
    ensures
        cut(before + seq![c] + behind, c) == Some((before, behind)),
    decreases before.len(),
{
    let s = before + seq![c] + behind;
    if before.len() == 0 {
        assert(s.drop_first() =~= behind);
        assert(before =~= Seq::<char>::empty());
        assert(s[0] == c);
    } else {
        let rest = before.drop_first();
        assert(before.contains(before[0]));
        assert forall|k: int| 0 <= k < rest.len() implies rest[k] != c by {
            assert(before.contains(before[k + 1]));
        }
        cuts_at_the_first(rest, c, behind);
        assert(s.drop_first() =~= rest + seq![c] + behind);
        assert(s[0] == before[0]);
        assert(seq![before[0]] + rest =~= before);
    }
}

/// A text without `c` is not cut.
pub proof fn no_cut_without_it(s: Seq<char>, c: char)
    requires
        !s.contains(c),
    ensures
        cut(s, c) is None,
    decreases s.len(),
{
    if s.len() > 0 {
        let rest = s.drop_first();
        assert(s.contains(s[0]));
        assert forall|k: int| 0 <= k < rest.len() implies rest[k] != c by {
            assert(s.contains(s[k + 1]));
        }
        no_cut_without_it(rest, c);
    }
}

} // verus!
