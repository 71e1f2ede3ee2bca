//! Text input: UTF-16 offsets, marked text, and edits of a widget draft.

use std::ops::Range;

use unicode_segmentation::UnicodeSegmentation;
use vstd::prelude::*;
use vstd::string::*;
use vstd::utf8::*;

use crate::text;
use crate::text::{at_boundary, byte_len, own, push_str, slice};

verus! {

/// Number of UTF-8 bytes of `c`.
pub open spec fn width8(c: char) -> int {
    encode_scalar(c as u32).len() as int
}

/// Number of UTF-16 code units of `c`.
pub open spec fn width16(c: char) -> int {
    if c as u32 >= 0x1_0000 {
        2
    } else {
        1
    }
}

/// UTF-8 offset of the UTF-16 offset `offset`: the first character that starts
/// at or behind it.
pub open spec fn from16(s: Seq<char>, offset: int) -> int
    decreases s.len(),
{
    if s.len() == 0 || offset <= 0 {
        0
    } else {
        width8(s[0]) + from16(s.drop_first(), offset - width16(s[0]))
    }
}

/// UTF-16 offset of the UTF-8 offset `offset`: the first character that starts
/// at or behind it.
pub open spec fn to16(s: Seq<char>, offset: int) -> int
    decreases s.len(),
{
    if s.len() == 0 || offset <= 0 {
        0
    } else {
        width16(s[0]) + to16(s.drop_first(), offset - width8(s[0]))
    }
}

/// Number of UTF-16 code units of `s`.
pub open spec fn len16(s: Seq<char>) -> int
    decreases s.len(),
{
    if s.len() == 0 {
        0
    } else {
        width16(s[0]) + len16(s.drop_first())
    }
}

fn char_widths(c: char) -> (w: (usize, usize))
    ensures
        w.0 == width8(c),
        w.1 == width16(c),
        1 <= w.1 <= w.0 <= 4,
{
    proof {
        char_is_scalar(c);
    }
    let u: u32 = c as u32;
    if u < 0x80 {
        (1, 1)
    } else if u < 0x800 {
        (2, 1)
    } else if u < 0x1_0000 {
        (3, 1)
    } else {
        (4, 2)
    }
}

proof fn lemma_len_step(s: Seq<char>)
    requires
        s.len() > 0,
    ensures
        encode_utf8(s).len() == width8(s[0]) + encode_utf8(s.drop_first()).len(),
        width8(s[0]) >= 1,
{
}

/// UTF-8 offset of the UTF-16 offset `offset` of `content`.
pub fn offset_from_utf16(content: &str, offset: usize) -> (at: usize)
    ensures
        at == from16(content@, offset as int),
        at <= encode_utf8(content@).len(),
        text::boundary(encode_utf8(content@), at as int),
{
    let n: usize = byte_len(content);
    let mut at: usize = 0;
    let mut units: usize = 0;
    let mut rest: &str = content;
    assert(encode_utf8(content@).subrange(0, n as int) =~= encode_utf8(content@));
    proof {
        text::lemma_boundary_ends(content@);
    }
    while units < offset && !rest.is_empty()
        invariant
            n == encode_utf8(content@).len(),
            at <= n,
            units <= at,
            text::boundary(encode_utf8(content@), at as int),
            encode_utf8(rest@) == encode_utf8(content@).subrange(at as int, n as int),
            from16(content@, offset as int) == at + from16(rest@, offset - units),
        decreases n - at,
    {
        let c: char = rest.get_char(0);
        let (w8, w16) = char_widths(c);
        proof {
            lemma_len_step(rest@);
            lemma_first_end(rest@);
            lemma_boundary_shift(content@, rest@, at as int, w8 as int);
        }
        let tail = slice(rest, w8, byte_len(rest));
        proof {
            lemma_tail(rest@, tail@, w8 as int);
        }
        at = at + w8;
        units = units + w16;
        rest = tail;
        assert(encode_utf8(rest@) =~= encode_utf8(content@).subrange(at as int, n as int));
    }
    at
}

proof fn lemma_first_end(s: Seq<char>)
    requires
        s.len() > 0,
    ensures
        text::boundary(encode_utf8(s), width8(s[0])),
        text::boundary(encode_utf8(s), encode_utf8(s).len() as int),
{
    let w = width8(s[0]);
    let rest = s.drop_first();
    text::lemma_boundary_ends(rest);
    text::lemma_boundary_ends(s);
    if w < encode_utf8(s).len() {
        assert(encode_utf8(s)[w] == encode_utf8(rest)[0]);
    }
}

proof fn lemma_tail(s: Seq<char>, tail: Seq<char>, w: int)
    requires
        s.len() > 0,
        w == width8(s[0]),
        encode_utf8(tail) == encode_utf8(s).subrange(w, encode_utf8(s).len() as int),
    ensures
        tail == s.drop_first(),
{
    let rest = s.drop_first();
    assert(encode_utf8(s).subrange(w, encode_utf8(s).len() as int) =~= encode_utf8(rest));
    text::lemma_encode_injective(tail, rest);
}

proof fn lemma_boundary_shift(whole: Seq<char>, rest: Seq<char>, at: int, w: int)
    requires
        0 <= at <= encode_utf8(whole).len(),
        encode_utf8(rest) == encode_utf8(whole).subrange(at, encode_utf8(whole).len() as int),
        text::boundary(encode_utf8(rest), w),
    ensures
        text::boundary(encode_utf8(whole), at + w),
{
    if at + w < encode_utf8(whole).len() {
        assert(encode_utf8(rest)[w] == encode_utf8(whole)[at + w]);
    }
}

/// UTF-16 offset of the UTF-8 offset `offset` of `content`.
pub fn offset_to_utf16(content: &str, offset: usize) -> (at: usize)
    ensures
        at == to16(content@, offset as int),
        at <= encode_utf8(content@).len(),
{
    let n: usize = byte_len(content);
    let mut bytes: usize = 0;
    let mut at: usize = 0;
    let mut rest: &str = content;
    assert(encode_utf8(content@).subrange(0, n as int) =~= encode_utf8(content@));
    while bytes < offset && !rest.is_empty()
        invariant
            n == encode_utf8(content@).len(),
            bytes <= n,
            at <= bytes,
            encode_utf8(rest@) == encode_utf8(content@).subrange(bytes as int, n as int),
            to16(content@, offset as int) == at + to16(rest@, offset - bytes),
        decreases n - bytes,
    {
        let c: char = rest.get_char(0);
        let (w8, w16) = char_widths(c);
        proof {
            lemma_len_step(rest@);
            lemma_first_end(rest@);
        }
        let tail = slice(rest, w8, byte_len(rest));
        proof {
            lemma_tail(rest@, tail@, w8 as int);
        }
        bytes = bytes + w8;
        at = at + w16;
        rest = tail;
        assert(encode_utf8(rest@) =~= encode_utf8(content@).subrange(bytes as int, n as int));
    }
    at
}

/// A character boundary survives the way to UTF-16 and back.
pub proof fn utf16_round_trip(s: Seq<char>, k: int)
    requires
        0 <= k <= s.len(),
    ensures
        from16(s, to16(s, encode_utf8(s.take(k)).len() as int)) == encode_utf8(s.take(k)).len(),
    decreases s.len(),
{
    let off = encode_utf8(s.take(k)).len() as int;
    if k > 0 {
        let t = s.drop_first();
        assert(s.take(k)[0] == s[0]);
        assert(s.take(k).drop_first() =~= t.take(k - 1));
        utf16_round_trip(t, k - 1);
        lemma_len_step(s.take(k));
        let inner = encode_utf8(t.take(k - 1)).len() as int;
        lemma_to16_bounds(t, inner);
    } else {
        assert(s.take(0) =~= Seq::<char>::empty());
    }
}

proof fn lemma_to16_bounds(s: Seq<char>, off: int)
    ensures
        to16(s, off) >= 0,
    decreases s.len(),
{
    if s.len() > 0 && off > 0 {
        lemma_to16_bounds(s.drop_first(), off - width8(s[0]));
    }
}

/// A selection in UTF-16 code units.
#[derive(Debug, PartialEq, Eq)]
pub struct UTF16Selection {
    pub range: Range<usize>,
    pub reversed: bool,
}

/// The body selection in UTF-16 code units.
pub fn body_selected_text_range(content: &str, selected: &Range<usize>, reversed: bool) -> (sel:
    UTF16Selection)
    ensures
        sel.range.start == to16(content@, selected.start as int),
        sel.range.end == to16(content@, selected.end as int),
        sel.reversed == reversed,
{
    UTF16Selection {
        range: offset_to_utf16(content, selected.start)..offset_to_utf16(content, selected.end),
        reversed,
    }
}

/// `at` as an offset of a draft: past the end, or inside a character, it is
/// the end.
pub open spec fn draft_offset(b: Seq<u8>, at: usize) -> int {
    if at <= b.len() && text::boundary(b, at as int) {
        at as int
    } else {
        b.len() as int
    }
}

fn snap(draft: &str, at: usize) -> (k: usize)
    ensures
        k == draft_offset(encode_utf8(draft@), at),
        k <= encode_utf8(draft@).len(),
        text::boundary(encode_utf8(draft@), k as int),
{
    let n: usize = byte_len(draft);
    proof {
        text::lemma_boundary_ends(draft@);
    }
    if at <= n && at_boundary(draft, at) {
        at
    } else {
        n
    }
}

/// The selection of a widget draft in UTF-16 code units: the marked text at
/// the caret while composing, else what lies between caret and anchor.
pub open spec fn draft_selection(
    draft: Seq<char>,
    caret: usize,
    anchor: usize,
    marked: Seq<char>,
) -> (int, int, bool) {
    let b = encode_utf8(draft);
    let at = draft_offset(b, caret);
    let from = draft_offset(b, anchor);
    let pre = to16(marked, encode_utf8(marked).len() as int);
    if pre > 0 {
        (to16(draft, at), to16(draft, at) + pre, false)
    } else {
        (
            to16(draft, if at <= from {
                at
            } else {
                from
            }),
            to16(draft, if at >= from {
                at
            } else {
                from
            }),
            at < from,
        )
    }
}

/// The selection of a widget draft in UTF-16 code units.
pub fn widget_selected_text_range(
    draft: &str,
    caret: usize,
    anchor: usize,
    preedit: &Option<String>,
) -> (sel: UTF16Selection)
    requires
        encode_utf8(draft@).len() + (match *preedit {
            Some(p) => encode_utf8(p@).len(),
            None => 0,
        }) <= usize::MAX,
    ensures
        (sel.range.start as int, sel.range.end as int, sel.reversed) == draft_selection(
            draft@,
            caret,
            anchor,
            match *preedit {
                Some(p) => p@,
                None => Seq::empty(),
            },
        ),
{
    let at: usize = snap(draft, caret);
    let pre: usize = match preedit {
        Some(p) => offset_to_utf16(p.as_str(), byte_len(p.as_str())),
        None => 0,
    };
    if pre > 0 {
        let start: usize = offset_to_utf16(draft, at);
        return UTF16Selection { range: start..start + pre, reversed: false };
    }
    let from: usize = snap(draft, anchor);
    let (lo, hi) = if at <= from {
        (at, from)
    } else {
        (from, at)
    };
    UTF16Selection {
        range: offset_to_utf16(draft, lo)..offset_to_utf16(draft, hi),
        reversed: at < from,
    }
}

/// `slot` holds `new_text`, or nothing when that is empty.
pub open spec fn holds_preedit(slot: Option<String>, new_text: Seq<char>) -> bool {
    match slot {
        Some(t) => t@ == new_text && new_text.len() > 0,
        None => new_text.len() == 0,
    }
}

/// Stores marked text; empty marked text is none.
pub fn set_preedit(slot: &mut Option<String>, new_text: &str)
    ensures
        holds_preedit(*final(slot), new_text@),
{
    *slot = if new_text.is_empty() {
        None
    } else {
        Some(own(new_text))
    };
}

/// Starts or updates marked text at the body caret.
pub fn begin_body_preedit(
    preedit: &mut Option<String>,
    marked_range: &mut Option<Range<usize>>,
    new_text: &str,
    caret: usize,
)
    ensures
        holds_preedit(*final(preedit), new_text@),
        *final(marked_range) == Some(caret..caret),
{
    set_preedit(preedit, new_text);
    *marked_range = Some(caret..caret);
}

/// Ends any composition.
pub fn clear_composition(
    preedit: &mut Option<String>,
    widget_preedit: &mut Option<String>,
    marked_range: &mut Option<Range<usize>>,
)
    ensures
        *final(preedit) is None,
        *final(widget_preedit) is None,
        *final(marked_range) is None,
{
    *preedit = None;
    *widget_preedit = None;
    *marked_range = None;
}

/// What a commit replaces, of which the selection, whether it is reversed and
/// the marked range are told: the given UTF-16 range, or else the marked range,
/// which is then used up; with neither the selection stays.
pub open spec fn commit_target(
    content: Seq<char>,
    range_utf16: Option<Range<usize>>,
    marked: Option<Range<usize>>,
    selected: Range<usize>,
    reversed: bool,
) -> (int, int, bool, Option<Range<usize>>) {
    match (range_utf16, marked) {
        (Some(r), _) => (
            from16(content, r.start as int),
            from16(content, r.end as int),
            false,
            marked,
        ),
        (None, Some(m)) => (m.start as int, m.end as int, false, None),
        (None, None) => (selected.start as int, selected.end as int, reversed, None),
    }
}

/// Selects what a commit replaces: the given UTF-16 range, or else the marked
/// range, which is then used up; with neither the selection stays.
pub fn apply_replace_range_to_selection(
    content: &str,
    range_utf16: &Option<Range<usize>>,
    marked_range: &mut Option<Range<usize>>,
    selected: &mut Range<usize>,
    reversed: &mut bool,
)
    ensures
        (
            final(selected).start as int,
            final(selected).end as int,
            *final(reversed),
            *final(marked_range),
        ) == commit_target(
            content@,
            *range_utf16,
            *old(marked_range),
            *old(selected),
            *old(reversed),
        ),
{
    if let Some(r) = range_utf16 {
        let start: usize = offset_from_utf16(content, r.start);
        let end: usize = offset_from_utf16(content, r.end);
        *selected = start..end;
        *reversed = false;
    } else if let Some(marked) = marked_range.take() {
        *selected = marked;
        *reversed = false;
    }
}

/// Start offsets of the extended grapheme clusters of a text.
pub uninterp spec fn cluster_starts(s: Seq<char>) -> Seq<usize>;

/// `UnicodeSegmentation::grapheme_indices` with extended clusters: the byte
/// offsets at which the grapheme clusters of `s` start, in order. The clusters
/// are a partition of the text into non-empty slices, so the first starts at
/// the start of the text and each starts on a character boundary behind the
/// one before. Which boundaries they are is left to the Unicode tables.
#[verifier::external_body]
fn grapheme_starts(s: &str) -> (starts: Vec<usize>)
    ensures
        starts@ == cluster_starts(s@),
        s@.len() > 0 ==> starts@.len() > 0 && starts@[0] == 0,
        forall|i: int|
            0 <= i < starts@.len() ==> starts@[i] < encode_utf8(s@).len() && text::boundary(
                encode_utf8(s@),
                #[trigger] starts@[i] as int,
            ),
        forall|i: int, j: int| 0 <= i < j < starts@.len() ==> starts@[i] < starts@[j],
{
    s.grapheme_indices(true).map(|cluster| cluster.0).collect()
}

/// The last of the first `k` entries of the increasing `starts` that is at
/// most `offset`, or `0`.
pub open spec fn start_before(starts: Seq<usize>, offset: int, k: int) -> int
    decreases k,
{
    if k <= 0 {
        0
    } else if starts[k - 1] <= offset {
        starts[k - 1] as int
    } else {
        start_before(starts, offset, k - 1)
    }
}

/// `offset` moved back to the start of its cluster in a text of `len` bytes;
/// past the end it is the end.
pub open spec fn cluster_start(starts: Seq<usize>, len: int, offset: int) -> int {
    if offset >= len {
        len
    } else {
        start_before(starts, offset, starts.len() as int)
    }
}

/// Moves `offset` back to the start of its cluster. `starts` are the cluster
/// starts of a text of `len` bytes.
pub fn clamp_to_starts(starts: &Vec<usize>, len: usize, offset: usize) -> (at: usize)
    requires
        forall|i: int, j: int| 0 <= i < j < starts@.len() ==> starts@[i] < starts@[j],
    ensures
        at == cluster_start(starts@, len as int, offset as int),
        at == len || at == 0 || starts@.contains(at),
{
    if offset >= len {
        return len;
    }
    let mut k: usize = starts.len();
    while k > 0
        invariant
            k <= starts.len(),
            start_before(starts@, offset as int, starts@.len() as int) == start_before(
                starts@,
                offset as int,
                k as int,
            ),
            offset < len,
        decreases k,
    {
        if starts[k - 1] <= offset {
            assert(starts@[k - 1] == starts@[k - 1]);
            return starts[k - 1];
        }
        k = k - 1;
    }
    0
}

/// `offset` moved back to the start of its grapheme cluster in `s`.
pub open spec fn clamped(s: Seq<char>, offset: int) -> int {
    cluster_start(cluster_starts(s), encode_utf8(s).len() as int, offset)
}

/// `at` is the greatest of `starts` that is not past `offset`.
pub open spec fn greatest_start(starts: Seq<usize>, offset: int, at: usize) -> bool {
    &&& starts.contains(at)
    &&& at <= offset
    &&& forall|i: int| 0 <= i < starts.len() && #[trigger] starts[i] <= offset ==> starts[i] <= at
}

proof fn lemma_greatest_start(starts: Seq<usize>, offset: int, k: int)
    requires
        0 <= offset,
        0 < k <= starts.len(),
        starts[0] == 0,
        forall|i: int, j: int| 0 <= i < j < starts.len() ==> starts[i] < starts[j],
        forall|i: int| k <= i < starts.len() ==> #[trigger] starts[i] > offset,
    ensures
        0 <= start_before(starts, offset, k) <= usize::MAX,
        greatest_start(starts, offset, start_before(starts, offset, k) as usize),
    decreases k,
{
    if starts[k - 1] <= offset {
        assert(starts.contains(starts[k - 1]));
    } else {
        lemma_greatest_start(starts, offset, k - 1);
    }
}

/// Moves `offset` back to the start of its grapheme cluster: an offset inside
/// a combining sequence or a joined emoji must not split it.
pub fn clamp_grapheme_boundary(s: &str, offset: usize) -> (at: usize)
    ensures
        at == clamped(s@, offset as int),
        at <= encode_utf8(s@).len(),
        text::boundary(encode_utf8(s@), at as int),
        forall|i: int, j: int|
            0 <= i < j < cluster_starts(s@).len() ==> cluster_starts(s@)[i] < cluster_starts(s@)[j],
        offset >= encode_utf8(s@).len() ==> at == encode_utf8(s@).len(),
        offset < encode_utf8(s@).len() ==> greatest_start(cluster_starts(s@), offset as int, at),
{
    let starts = grapheme_starts(s);
    proof {
        text::lemma_boundary_ends(s@);
        text::lemma_encode_empty(s@);
    }
    let at: usize = clamp_to_starts(&starts, byte_len(s), offset);
    proof {
        if offset < encode_utf8(s@).len() {
            lemma_greatest_start(starts@, offset as int, starts@.len() as int);
        }
        if starts@.contains(at) {
            let i = choose|i: int| 0 <= i < starts@.len() && starts@[i] == at;
            assert(text::boundary(encode_utf8(s@), starts@[i] as int));
        }
    }
    at
}

/// The part of `draft` that an input replaces: the given UTF-16 range or else
/// `fallback`, widened to whole grapheme clusters at its start.
pub open spec fn replaced_part(
    draft: Seq<char>,
    range_utf16: Option<Range<usize>>,
    fallback: Range<usize>,
) -> (int, int) {
    let (start, end) = match range_utf16 {
        Some(r) => (
            clamped(draft, from16(draft, r.start as int)),
            clamped(draft, from16(draft, r.end as int)),
        ),
        None => (clamped(draft, fallback.start as int), clamped(draft, fallback.end as int)),
    };
    (start, if end >= start {
        end
    } else {
        start
    })
}

/// `b` with the bytes from `start` to `end` replaced by `new`.
pub open spec fn spliced(b: Seq<u8>, start: int, end: int, new: Seq<u8>) -> Seq<u8> {
    b.take(start) + new + b.skip(end)
}

/// `out` is `draft` with `new` in place of what is replaced, and `caret` stands
/// behind `new`.
pub open spec fn draft_replaced(
    draft: Seq<char>,
    range_utf16: Option<Range<usize>>,
    new: Seq<char>,
    fallback: Range<usize>,
    out: Seq<char>,
    caret: usize,
) -> bool {
    let (start, end) = replaced_part(draft, range_utf16, fallback);
    &&& encode_utf8(out) == spliced(encode_utf8(draft), start, end, encode_utf8(new))
    &&& caret == start + encode_utf8(new).len()
}

/// Replaces the part `start..end` of `draft`, and says where the new text ends.
fn replace_range(draft: &mut String, start: usize, end: usize, new_text: &str) -> (stop: usize)
    requires
        text::sliceable(encode_utf8(old(draft)@), (start..end)),
    ensures
        encode_utf8(final(draft)@) == spliced(
            encode_utf8(old(draft)@),
            start as int,
            end as int,
            encode_utf8(new_text@),
        ),
        stop == start + encode_utf8(new_text@).len(),
{
    let n: usize = byte_len(draft.as_str());
    proof {
        text::lemma_boundary_ends(draft@);
    }
    let mut out = own(slice(draft.as_str(), 0, start));
    push_str(&mut out, new_text);
    let stop: usize = byte_len(out.as_str());
    push_str(&mut out, slice(draft.as_str(), end, n));
    *draft = out;
    assert(encode_utf8(draft@) =~= spliced(
        encode_utf8(old(draft)@),
        start as int,
        end as int,
        encode_utf8(new_text@),
    ));
    stop
}

/// Replaces part of a widget draft and leaves the caret behind the new text.
pub fn replace_in_widget_draft(
    draft: &mut String,
    caret: &mut usize,
    range_utf16: Option<Range<usize>>,
    new_text: &str,
    fallback: Range<usize>,
)
    ensures
        draft_replaced(
            old(draft)@,
            range_utf16,
            new_text@,
            fallback,
            final(draft)@,
            *final(caret),
        ),
{
    let (from, to): (usize, usize) = match &range_utf16 {
        Some(r) => (
            offset_from_utf16(draft.as_str(), r.start),
            offset_from_utf16(draft.as_str(), r.end),
        ),
        None => (fallback.start, fallback.end),
    };
    let start: usize = clamp_grapheme_boundary(draft.as_str(), from);
    let end: usize = clamp_grapheme_boundary(draft.as_str(), to);
    let end: usize = if end >= start {
        end
    } else {
        start
    };
    *caret = replace_range(draft, start, end, new_text);
}

/// Replacing leaves everything before and behind the replaced part as it was.
pub proof fn splice_keeps_the_rest(b: Seq<u8>, start: int, end: int, new: Seq<u8>)
    requires
        0 <= start <= end <= b.len(),
    ensures
        spliced(b, start, end, new).take(start) == b.take(start),
        spliced(b, start, end, new).skip(start + new.len()) == b.skip(end),
        spliced(b, start, end, new).subrange(start, start + new.len()) == new,
{
    let s = spliced(b, start, end, new);
    assert(s.take(start) =~= b.take(start));
    assert(s.skip(start + new.len()) =~= b.skip(end));
    assert(s.subrange(start, start + new.len()) =~= new);
}

/// An offset is never moved forward, and moving it twice changes nothing.
pub proof fn clamp_is_stable(starts: Seq<usize>, len: int, offset: int)
    requires
        0 <= offset,
        0 <= len,
        forall|i: int| 0 <= i < starts.len() ==> #[trigger] starts[i] < len,
        starts.len() > 0 ==> starts[0] == 0,
    ensures
        cluster_start(starts, len, offset) <= offset,
        cluster_start(starts, len, cluster_start(starts, len, offset)) == cluster_start(
            starts,
            len,
            offset,
        ),
{
    if offset < len {
        lemma_start_before(starts, offset, starts.len() as int);
    }
}

proof fn lemma_start_before(starts: Seq<usize>, offset: int, k: int)
    requires
        0 <= offset,
        0 <= k <= starts.len(),
        starts.len() > 0 ==> starts[0] == 0,
    ensures
        0 <= start_before(starts, offset, k) <= offset,
        start_before(starts, start_before(starts, offset, k), k) == start_before(starts, offset, k),
    decreases k,
{
    if k > 0 && starts[k - 1] > offset {
        lemma_start_before(starts, offset, k - 1);
    }
}

/// A character takes two UTF-16 units where its number does not fit one.
pub proof fn characters_take_one_or_two_units(c: char)
    ensures
        (c as u32) < 65536 ==> width16(c) == 1,
        (c as u32) >= 65536 ==> width16(c) == 2,
        1 <= width8(c) <= 4,
        (c as u32) < 128 ==> width8(c) == 1,
{
}

proof fn lemma_to16_at(s: Seq<char>, k: int)
    requires
        0 <= k <= s.len(),
    ensures
        to16(s, encode_utf8(s.take(k)).len() as int) == len16(s.take(k)),
    decreases s.len(),
{
    if k > 0 {
        let t = s.drop_first();
        assert(s.take(k)[0] == s[0]);
        assert(s.take(k).drop_first() =~= t.take(k - 1));
        lemma_len_step(s.take(k));
        lemma_to16_at(t, k - 1);
    } else {
        assert(s.take(0) =~= Seq::<char>::empty());
    }
}

/// Offsets count what is before them: the UTF-16 offset of a character is the
/// number of units of the characters before it, its UTF-8 offset the number of
/// their bytes, and each leads to the other.
pub proof fn offsets_count_what_is_before(before: Seq<char>, rest: Seq<char>)
    ensures
        to16(before + rest, encode_utf8(before).len() as int) == len16(before),
        from16(before + rest, len16(before)) == encode_utf8(before).len(),
{
    let s = before + rest;
    let k = before.len() as int;
    assert(s.take(k) =~= before);
    lemma_to16_at(s, k);
    utf16_round_trip(s, k);
}

/// The units of a text are those of its characters.
pub proof fn units_add_up(s: Seq<char>, c: char)
    ensures
        len16(s.push(c)) == len16(s) + width16(c),
        len16(Seq::<char>::empty()) == 0,
    decreases s.len(),
{
    if s.len() == 0 {
        assert(s.push(c).drop_first() =~= Seq::<char>::empty());
        reveal_with_fuel(len16, 2);
    } else {
        assert(s.push(c).drop_first() =~= s.drop_first().push(c));
        assert(s.push(c)[0] == s[0]);
        units_add_up(s.drop_first(), c);
    }
}

/// An offset into the draft that lies between its characters is kept; any other
/// is taken for its end.
pub proof fn stray_offsets_mean_the_end(b: Seq<u8>, at: usize)
    ensures
        text::boundary(b, at as int) ==> draft_offset(b, at) == at,
        !text::boundary(b, at as int) ==> draft_offset(b, at) == b.len(),
        0 <= draft_offset(b, at) <= b.len(),
{
}

/// Without text under composition the selection of a draft runs between its
/// anchor and its caret, and is reversed where the caret comes first. Text under
/// composition is selected itself, at the caret.
pub proof fn drafts_select_between_anchor_and_caret(
    draft: Seq<char>,
    c: int,
    a: int,
    marked: Seq<char>,
)
    requires
        0 <= c <= draft.len(),
        0 <= a <= draft.len(),
        encode_utf8(draft).len() <= usize::MAX,
    ensures
        ({
            let caret = encode_utf8(draft.take(c)).len() as usize;
            let anchor = encode_utf8(draft.take(a)).len() as usize;
            let none = draft_selection(draft, caret, anchor, Seq::empty());
            let some = draft_selection(draft, caret, anchor, marked);
            &&& a <= c ==> none.0 == len16(draft.take(a)) && none.1 == len16(draft.take(c))
                && !none.2
            &&& c < a ==> none.0 == len16(draft.take(c)) && none.1 == len16(draft.take(a)) && none.2
            &&& marked.len() > 0 ==> some.0 == len16(draft.take(c)) && some.1 == len16(
                draft.take(c),
            ) + len16(marked) && !some.2
        }),
{
    let b = encode_utf8(draft);
    lemma_take_boundary(draft, c);
    lemma_take_boundary(draft, a);
    lemma_to16_at(draft, c);
    lemma_to16_at(draft, a);
    lemma_to16_at(marked, marked.len() as int);
    assert(marked.take(marked.len() as int) =~= marked);
    assert(to16(Seq::<char>::empty(), 0) == 0);
    text::lemma_encode_empty(Seq::<char>::empty());
    if a <= c {
        lemma_take_grows(draft, a, c);
    } else {
        lemma_take_grows(draft, c, a);
    }
    if marked.len() > 0 {
        lemma_units(marked);
    }
}

proof fn lemma_units(s: Seq<char>)
    ensures
        len16(s) >= s.len(),
    decreases s.len(),
{
    if s.len() > 0 {
        lemma_units(s.drop_first());
    }
}

proof fn lemma_take_boundary(s: Seq<char>, k: int)
    requires
        0 <= k <= s.len(),
    ensures
        text::boundary(encode_utf8(s), encode_utf8(s.take(k)).len() as int),
{
    text::lemma_encode_concat(s.take(k), s.skip(k));
    assert(s.take(k) + s.skip(k) =~= s);
    text::lemma_boundary_ends(s.skip(k));
    let n = encode_utf8(s.take(k)).len() as int;
    if n < encode_utf8(s).len() {
        assert(encode_utf8(s)[n] == encode_utf8(s.skip(k))[0]);
    }
}

proof fn lemma_take_grows(s: Seq<char>, i: int, j: int)
    requires
        0 <= i <= j <= s.len(),
    ensures
        encode_utf8(s.take(i)).len() <= encode_utf8(s.take(j)).len(),
        i < j ==> encode_utf8(s.take(i)).len() < encode_utf8(s.take(j)).len(),
{
    text::lemma_encode_concat(s.take(i), s.subrange(i, j));
    assert(s.take(i) + s.subrange(i, j) =~= s.take(j));
    text::lemma_encode_empty(s.subrange(i, j));
}

/// A commit goes to the range it was given; without one to the marked text, which
/// it uses up; without either to the selection, which stays as it is.
pub proof fn commits_find_their_target(
    content: Seq<char>,
    r: Range<usize>,
    m: Range<usize>,
    marked: Option<Range<usize>>,
    selected: Range<usize>,
    reversed: bool,
)
    ensures
        commit_target(content, Some(r), marked, selected, reversed) == (
            from16(content, r.start as int),
            from16(content, r.end as int),
            false,
            marked,
        ),
        commit_target(content, None, Some(m), selected, reversed) == (
            m.start as int,
            m.end as int,
            false,
            None::<Range<usize>>,
        ),
        commit_target(content, None, None, selected, reversed) == (
            selected.start as int,
            selected.end as int,
            reversed,
            None::<Range<usize>>,
        ),
{
}

/// Text under composition is kept where there is some.
pub proof fn empty_preedits_are_dropped(slot: Option<String>, new_text: Seq<char>)
    requires
        holds_preedit(slot, new_text),
    ensures
        slot is Some <==> new_text.len() > 0,
        slot matches Some(t) ==> t@ == new_text,
{
}

/// An offset inside a cluster is moved to its start, one behind the text to its
/// end.
pub proof fn clamping_finds_the_cluster(starts: Seq<usize>, len: int, offset: int, i: int)
    requires
        0 <= offset,
        0 <= i < starts.len(),
        forall|j: int, k: int| 0 <= j < k < starts.len() ==> starts[j] < starts[k],
        starts[i] <= offset,
        i + 1 == starts.len() || offset < starts[i + 1],
    ensures
        offset < len ==> cluster_start(starts, len, offset) == starts[i],
        offset >= len ==> cluster_start(starts, len, offset) == len,
{
    lemma_start_is(starts, offset, starts.len() as int, i);
}

proof fn lemma_start_is(starts: Seq<usize>, offset: int, k: int, i: int)
    requires
        0 <= i < k <= starts.len(),
        forall|j: int, k: int| 0 <= j < k < starts.len() ==> starts[j] < starts[k],
        starts[i] <= offset,
        i + 1 == starts.len() || offset < starts[i + 1],
    ensures
        start_before(starts, offset, k) == starts[i],
    decreases k,
{
    if i < k - 1 {
        if i + 1 < k - 1 {
            assert(starts[i + 1] < starts[k - 1]);
        }
        lemma_start_is(starts, offset, k - 1, i);
    }
}

/// What is replaced in a draft is the range that was given, counted in UTF-16,
/// or else the fallback, counted in bytes; both are moved to cluster starts, and
/// the end is never before the start.
pub proof fn replacements_take_the_given_range(
    draft: Seq<char>,
    r: Range<usize>,
    fallback: Range<usize>,
)
    ensures
        ({
            let (start, end) = replaced_part(draft, Some(r), fallback);
            &&& start == clamped(draft, from16(draft, r.start as int))
            &&& end >= start
            &&& clamped(draft, from16(draft, r.end as int)) >= start ==> end == clamped(
                draft,
                from16(draft, r.end as int),
            )
        }),
        ({
            let (start, end) = replaced_part(draft, None, fallback);
            &&& start == clamped(draft, fallback.start as int)
            &&& end >= start
            &&& clamped(draft, fallback.end as int) >= start ==> end == clamped(
                draft,
                fallback.end as int,
            )
        }),
{
}

/// After a replacement the new text stands right before the caret, what was
/// before it is unchanged, and so is what was behind.
pub proof fn new_text_stands_before_the_caret(
    draft: Seq<char>,
    range_utf16: Option<Range<usize>>,
    new: Seq<char>,
    fallback: Range<usize>,
    out: Seq<char>,
    caret: usize,
)
    requires
        draft_replaced(draft, range_utf16, new, fallback, out, caret),
        ({
            let (start, end) = replaced_part(draft, range_utf16, fallback);
            0 <= start <= end <= encode_utf8(draft).len()
        }),
    ensures
        ({
            let (start, end) = replaced_part(draft, range_utf16, fallback);
            let n = encode_utf8(new).len() as int;
            let b = encode_utf8(out);
            &&& b.subrange(caret - n, caret as int) == encode_utf8(new)
            &&& b.take(caret - n) == encode_utf8(draft).take(start)
            &&& b.skip(caret as int) == encode_utf8(draft).skip(end)
            &&& caret - n == start
        }),
{
    let (start, end) = replaced_part(draft, range_utf16, fallback);
    splice_keeps_the_rest(encode_utf8(draft), start, end, encode_utf8(new));
}

} // verus!
