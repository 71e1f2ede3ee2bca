//! Visible text of a leaf block with its styled runs and its map to source.

use std::ops::Range;

use vstd::prelude::*;
use vstd::string::*;
use vstd::utf8::*;

use crate::style::RunStyle;
use crate::text;
use crate::text::{byte_len, floor_at, push_str};

verus! {

/// A styled stretch of visible text, `len` bytes long.
#[derive(Debug, Clone, Copy, PartialEq, Eq, Structural)]
pub struct TextRun {
    pub len: usize,
    pub style: RunStyle,
}

/// Visible text of a leaf block plus a map back to source bytes.
#[derive(Debug, PartialEq, Eq)]
pub struct LeafLayout {
    pub text: String,
    pub runs: Vec<TextRun>,
    /// Source byte for each UTF-8 offset in `text` (length `text.len() + 1`).
    pub source_at: Vec<usize>,
    pub block_start: usize,
}

/// What a [`LeafLayout`] holds, with the text as bytes.
#[verifier::ext_equal]
pub struct LeafView {
    pub text: Seq<u8>,
    pub runs: Seq<TextRun>,
    pub source_at: Seq<usize>,
    pub block_start: usize,
}

impl Clone for LeafLayout {
    fn clone(&self) -> (copy: Self)
        ensures
            copy@ == self@,
    {
        let copy = LeafLayout {
            text: self.text.clone(),
            runs: self.runs.clone(),
            source_at: self.source_at.clone(),
            block_start: self.block_start,
        };
        assert(copy.runs@ =~= self.runs@);
        assert(copy.source_at@ =~= self.source_at@);
        copy
    }
}

impl View for LeafLayout {
    type V = LeafView;

    open spec fn view(&self) -> LeafView {
        LeafView {
            text: encode_utf8(self.text@),
            runs: self.runs@,
            source_at: self.source_at@,
            block_start: self.block_start,
        }
    }
}

/// Total length of `runs`.
pub open spec fn run_total(runs: Seq<TextRun>) -> int
    decreases runs.len(),
{
    if runs.len() == 0 {
        0
    } else {
        run_total(runs.drop_last()) + runs.last().len
    }
}

impl LeafView {
    /// Every offset of the text, its end included, has a source byte.
    pub open spec fn mapped(self) -> bool {
        self.source_at.len() > self.text.len()
    }

    /// The runs cover the text exactly.
    pub open spec fn tiled(self) -> bool {
        run_total(self.runs) == self.text.len()
    }

    /// An offset inside a character maps as the offset after it.
    pub open spec fn settled(self) -> bool {
        forall|o: int|
            0 <= o < self.text.len() && is_continuation_byte(#[trigger] self.text[o]) ==> o + 1
                < self.source_at.len() && self.source_at[o] == self.source_at[o + 1]
    }

    /// Source byte behind the visible offset `vis`: that of the character
    /// around it, or of the end of the text when `vis` is past it.
    pub open spec fn source_of(self, vis: int) -> usize {
        let at = text::floor_boundary(
            self.text,
            if vis <= self.text.len() {
                vis
            } else {
                self.text.len() as int
            },
        );
        if at < self.source_at.len() {
            self.source_at[at]
        } else {
            self.last_source()
        }
    }

    /// Visible offset of the source byte `src`: the last offset of the run of
    /// leading offsets that map no further than `src`.
    pub open spec fn visible_of(self, src: usize) -> int {
        let n = leading(self.source_at, src);
        let best = if n == 0 {
            0
        } else {
            n - 1
        };
        if best <= self.text.len() {
            best
        } else {
            self.text.len() as int
        }
    }

    /// Source byte of the first visible offset.
    pub open spec fn first_source(self) -> usize {
        if self.source_at.len() > 0 {
            self.source_at.first()
        } else {
            self.block_start
        }
    }

    /// Source byte of the last visible offset.
    pub open spec fn last_source(self) -> usize {
        if self.source_at.len() > 0 {
            self.source_at.last()
        } else {
            self.block_start
        }
    }

    /// The layout hosts the source byte `src`.
    pub open spec fn contains(self, src: usize) -> bool {
        self.first_source() <= src <= self.last_source()
    }

    /// Number of source bytes between the first and the last visible offset.
    pub open spec fn source_span(self) -> int {
        span_len((self.first_source()..self.last_source()))
    }

    /// The layout with `b`, the source bytes `src`, in front.
    pub open spec fn prepended(self, b: Seq<u8>, src: Range<usize>, style: RunStyle) -> LeafView {
        if b.len() == 0 {
            self
        } else {
            LeafView {
                text: b + self.text,
                runs: seq![TextRun { len: b.len() as usize, style }] + self.runs,
                source_at: byte_map(src.start, b.len()) + self.source_at,
                block_start: self.block_start,
            }
        }
    }

    /// The layout with `b`, the source bytes `src`, at its end.
    pub open spec fn appended(self, b: Seq<u8>, src: Range<usize>, style: RunStyle) -> LeafView {
        if b.len() == 0 {
            self
        } else {
            LeafView {
                text: self.text + b,
                runs: self.runs.push(TextRun { len: b.len() as usize, style }),
                source_at: (self.source_at.take(self.text.len() as int) + byte_map(
                    src.start,
                    b.len(),
                )).push(src.end),
                block_start: self.block_start,
            }
        }
    }
}

/// `n` consecutive source bytes from `start` on.
pub open spec fn byte_map(start: usize, n: nat) -> Seq<usize> {
    Seq::new(n, |i: int| (start + i) as usize)
}

/// Number of leading entries of `s` that are at most `src`.
pub open spec fn leading(s: Seq<usize>, src: usize) -> int
    decreases s.len(),
{
    if s.len() == 0 || s[0] > src {
        0
    } else {
        1 + leading(s.drop_first(), src)
    }
}

proof fn lemma_leading(s: Seq<usize>, src: usize, n: int)
    requires
        0 <= n <= s.len(),
        forall|i: int| 0 <= i < n ==> s[i] <= src,
        n < s.len() ==> s[n] > src,
    ensures
        leading(s, src) == n,
    decreases n,
{
    if n > 0 {
        assert(s[0] <= src);
        assert forall|i: int| 0 <= i < n - 1 implies s.drop_first()[i] <= src by {
            assert(s.drop_first()[i] == s[i + 1]);
        }
        lemma_leading(s.drop_first(), src, n - 1);
    }
}

impl LeafLayout {
    /// Source byte behind the visible offset `vis`.
    pub fn source_for_visible(&self, vis: usize) -> (src: usize)
        ensures
            src == self@.source_of(vis as int),
    {
        let n: usize = byte_len(self.text.as_str());
        let at: usize = floor_at(
            self.text.as_str(),
            if vis <= n {
                vis
            } else {
                n
            },
        );
        if at < self.source_at.len() {
            self.source_at[at]
        } else if self.source_at.len() > 0 {
            self.source_at[self.source_at.len() - 1]
        } else {
            self.block_start
        }
    }

    /// Visible offset of the source byte `src`.
    pub fn visible_for_source(&self, src: usize) -> (vis: usize)
        ensures
            vis == self@.visible_of(src),
            vis <= self@.text.len(),
    {
        let mut n: usize = 0;
        while n < self.source_at.len() && self.source_at[n] <= src
            invariant
                n <= self.source_at@.len(),
                forall|i: int| 0 <= i < n ==> self.source_at@[i] <= src,
            decreases self.source_at@.len() - n,
        {
            n = n + 1;
        }
        proof {
            lemma_leading(self.source_at@, src, n as int);
        }
        let best: usize = if n == 0 {
            0
        } else {
            n - 1
        };
        let len: usize = byte_len(self.text.as_str());
        if best <= len {
            best
        } else {
            len
        }
    }

    /// Source bytes of the first and of the last visible offset.
    pub fn source_ends(&self) -> (ends: (usize, usize))
        ensures
            ends.0 == self@.first_source(),
            ends.1 == self@.last_source(),
    {
        if self.source_at.len() > 0 {
            (self.source_at[0], self.source_at[self.source_at.len() - 1])
        } else {
            (self.block_start, self.block_start)
        }
    }

    /// Whether the layout hosts the source byte `src`.
    pub fn contains_source(&self, src: usize) -> (yes: bool)
        ensures
            yes == self@.contains(src),
    {
        let (start, end) = self.source_ends();
        src >= start && src <= end
    }

    /// Number of source bytes that the layout spans.
    pub fn source_span_len(&self) -> (n: usize)
        ensures
            n == self@.source_span(),
    {
        let (start, end) = self.source_ends();
        end.saturating_sub(start)
    }
}

/// A source byte that maps to strictly increasing bytes everywhere is found
/// again from every visible character: a click and the caret agree.
pub proof fn visible_round_trip(layout: LeafView, vis: int)
    requires
        layout.mapped(),
        text::boundary(layout.text, vis),
        forall|i: int, j: int|
            0 <= i < j < layout.source_at.len() ==> layout.source_at[i] < layout.source_at[j],
    ensures
        layout.visible_of(layout.source_of(vis)) == vis,
{
    assert(text::floor_boundary(layout.text, vis) == vis);
    let src = layout.source_at[vis];
    assert forall|i: int| 0 <= i < vis + 1 implies layout.source_at[i] <= src by {
        if i < vis {
            assert(layout.source_at[i] < layout.source_at[vis]);
        }
    }
    lemma_leading(layout.source_at, src, vis + 1);
}

/// Where the map never goes back, every visible offset maps into the span
/// that the layout reports.
pub proof fn source_of_is_contained(layout: LeafView, vis: int)
    requires
        layout.mapped(),
        0 <= vis,
        forall|i: int, j: int|
            0 <= i <= j < layout.source_at.len() ==> layout.source_at[i] <= layout.source_at[j],
    ensures
        layout.contains(layout.source_of(vis)),
{
    let at = if vis <= layout.text.len() {
        vis
    } else {
        layout.text.len() as int
    };
    lemma_floor_range(layout.text, at);
}

proof fn lemma_floor_range(b: Seq<u8>, i: int)
    requires
        0 <= i,
    ensures
        0 <= text::floor_boundary(b, i) <= i,
    decreases i,
{
    if i > 0 && !text::boundary(b, i) {
        lemma_floor_range(b, i - 1);
    }
}

/// In a settled layout of whole characters the caret never stands inside a
/// character, whatever source byte it is asked for.
pub proof fn caret_lands_on_boundary(layout: LeafView, src: usize)
    requires
        layout.settled(),
        layout.text.len() > 0 ==> !is_continuation_byte(layout.text[0]),
    ensures
        text::boundary(layout.text, layout.visible_of(src)),
{
    lemma_leading_split(layout.source_at, src);
    let n = leading(layout.source_at, src);
    if 0 < n <= layout.text.len() && is_continuation_byte(layout.text[n - 1]) {
        assert(layout.source_at[n] == layout.source_at[n - 1]);
    }
}

proof fn lemma_leading_split(s: Seq<usize>, src: usize)
    ensures
        0 <= leading(s, src) <= s.len(),
        forall|i: int| 0 <= i < leading(s, src) ==> s[i] <= src,
        leading(s, src) < s.len() ==> s[leading(s, src)] > src,
    decreases s.len(),
{
    if s.len() > 0 && s[0] <= src {
        let t = s.drop_first();
        lemma_leading_split(t, src);
        assert forall|i: int| 0 <= i < leading(s, src) implies s[i] <= src by {
            if i > 0 {
                assert(t[i - 1] == s[i]);
            }
        }
    }
}

/// The visible offset of a source byte moves forward with the byte.
pub proof fn visible_is_monotone(layout: LeafView, a: usize, b: usize)
    requires
        a <= b,
    ensures
        layout.visible_of(a) <= layout.visible_of(b),
{
    lemma_leading_monotone(layout.source_at, a, b);
}

proof fn lemma_leading_monotone(s: Seq<usize>, a: usize, b: usize)
    requires
        a <= b,
    ensures
        0 <= leading(s, a) <= leading(s, b),
    decreases s.len(),
{
    if s.len() > 0 {
        lemma_leading_monotone(s.drop_first(), a, b);
    }
}

/// Puts `slice`, the source bytes `src`, in front of the layout.
pub fn prepend_source_slice(layout: &mut LeafLayout, slice: &str, src: Range<usize>, style: RunStyle)
    requires
        span_len(src) == encode_utf8(slice@).len(),
    ensures
        final(layout)@ == old(layout)@.prepended(encode_utf8(slice@), src, style),
        old(layout)@.mapped() ==> final(layout)@.mapped(),
        old(layout)@.tiled() ==> final(layout)@.tiled(),
{
    let n: usize = byte_len(slice);
    if n == 0 {
        return;
    }
    let mut source_at: Vec<usize> = Vec::new();
    let mut i: usize = 0;
    while i < n
        invariant
            i <= n,
            n == span_len(src),
            source_at@ == byte_map(src.start, i as nat),
        decreases n - i,
    {
        source_at.push(src.start + i);
        i = i + 1;
        assert(source_at@ =~= byte_map(src.start, i as nat));
    }
    source_at.extend_from_slice(layout.source_at.as_slice());
    assert(source_at@ =~= byte_map(src.start, n as nat) + layout.source_at@);
    layout.source_at = source_at;
    let mut joined = slice.to_owned();
    push_str(&mut joined, layout.text.as_str());
    layout.text = joined;
    let run = TextRun { len: n, style };
    let ghost before = layout.runs@;
    layout.runs.insert(0, run);
    assert(layout.runs@ =~= seq![run] + before);
    proof {
        lemma_run_total_front(run, before);
    }
}

proof fn lemma_run_total_front(run: TextRun, runs: Seq<TextRun>)
    ensures
        run_total(seq![run] + runs) == run.len + run_total(runs),
    decreases runs.len(),
{
    let all = seq![run] + runs;
    if runs.len() == 0 {
        assert(all =~= seq![run]);
        assert(seq![run].drop_last() =~= Seq::<TextRun>::empty());
        reveal_with_fuel(run_total, 2);
    } else {
        assert(all.drop_last() =~= seq![run] + runs.drop_last());
        lemma_run_total_front(run, runs.drop_last());
    }
}

/// The total length of runs grows with their number.
pub proof fn lemma_run_total_grows(runs: Seq<TextRun>, k: int)
    requires
        0 <= k <= runs.len(),
    ensures
        run_total(runs.take(k)) <= run_total(runs),
    decreases runs.len(),
{
    if k == runs.len() {
        assert(runs.take(k) =~= runs);
    } else {
        lemma_run_total_grows(runs.drop_last(), k);
        assert(runs.drop_last().take(k) =~= runs.take(k));
    }
}

/// Puts `slice`, the source bytes `src`, at the end of the layout.
pub fn append_source_slice(layout: &mut LeafLayout, slice: &str, src: Range<usize>, style: RunStyle)
    requires
        old(layout)@.mapped(),
        span_len(src) == encode_utf8(slice@).len(),
    ensures
        final(layout)@ == old(layout)@.appended(encode_utf8(slice@), src, style),
        final(layout)@.mapped(),
        old(layout)@.tiled() ==> final(layout)@.tiled(),
{
    let n: usize = byte_len(slice);
    if n == 0 {
        return;
    }
    let len: usize = byte_len(layout.text.as_str());
    layout.source_at.truncate(len);
    let ghost kept = layout.source_at@;
    let mut i: usize = 0;
    while i < n
        invariant
            i <= n,
            n == span_len(src),
            layout.source_at@ == kept + byte_map(src.start, i as nat),
            layout.text == old(layout).text,
            layout.runs == old(layout).runs,
            layout.block_start == old(layout).block_start,
        decreases n - i,
    {
        layout.source_at.push(src.start + i);
        i = i + 1;
        assert(layout.source_at@ =~= kept + byte_map(src.start, i as nat));
    }
    layout.source_at.push(src.end);
    push_str(&mut layout.text, slice);
    let ghost before = layout.runs@;
    layout.runs.push(TextRun { len: n, style });
    assert(layout.runs@.drop_last() =~= before);
    assert(kept =~= old(layout)@.source_at.take(len as int));
}

/// Number of bytes in `r`.
pub open spec fn span_len(r: Range<usize>) -> int {
    if r.start <= r.end {
        r.end - r.start
    } else {
        0
    }
}

/// Number of bytes in `r`.
pub fn range_len(r: &Range<usize>) -> (n: usize)
    ensures
        n == span_len(*r),
{
    if r.start <= r.end {
        r.end - r.start
    } else {
        0
    }
}

/// Number of characters that start before byte `off`.
pub open spec fn chars_before(b: Seq<u8>, off: int) -> int
    decreases off,
{
    if off <= 0 {
        0
    } else if is_continuation_byte(b[off - 1]) {
        chars_before(b, off - 1)
    } else {
        chars_before(b, off - 1) + 1
    }
}

/// The first boundary of `b` at or after `o`.
pub open spec fn next_boundary(b: Seq<u8>, o: int) -> int
    decreases b.len() - o,
{
    if o >= b.len() || !is_continuation_byte(b[o]) {
        o
    } else {
        next_boundary(b, o + 1)
    }
}

/// Source byte behind the character at `off` of a piece `b` that stands for
/// `src`: byte for byte where both have the same length, else in proportion
/// to the characters before it.
pub open spec fn map_offset(b: Seq<u8>, src: Range<usize>, off: int) -> int {
    if span_len(src) == b.len() {
        src.start + off
    } else {
        src.start + span_len(src) * chars_before(b, off) / chars_before(b, b.len() as int)
    }
}

/// Source bytes for the offsets of a piece, up to the start of its last
/// character. An offset inside a character maps as the character after it.
pub open spec fn piece_map(b: Seq<u8>, src: Range<usize>) -> Seq<usize> {
    Seq::new(
        (text::floor_boundary(b, b.len() - 1) + 1) as nat,
        |o: int| map_offset(b, src, next_boundary(b, o)) as usize,
    )
}

/// `s` extended to length `n` with copies of `v`.
pub open spec fn pad(s: Seq<usize>, n: int, v: usize) -> Seq<usize> {
    if s.len() >= n {
        s
    } else {
        s + Seq::new((n - s.len()) as nat, |i: int| v)
    }
}

/// A painted piece: its bytes, the source they stand for, and its style.
#[verifier::ext_equal]
pub struct Piece {
    pub bytes: Seq<u8>,
    pub src: Range<usize>,
    pub style: RunStyle,
}

/// A layout under construction. `source_at` stops at the start of the last
/// character: what follows maps depends on the next piece.
#[verifier::ext_equal]
pub struct Partial {
    pub text: Seq<u8>,
    pub runs: Seq<TextRun>,
    pub source_at: Seq<usize>,
    pub end: usize,
}

impl Partial {
    /// Nothing painted yet.
    pub open spec fn start(end: usize) -> Partial {
        Partial { text: Seq::empty(), runs: Seq::empty(), source_at: Seq::empty(), end }
    }

    /// One piece more.
    pub open spec fn push(self, p: Piece) -> Partial {
        if p.bytes.len() == 0 {
            self
        } else {
            Partial {
                text: self.text + p.bytes,
                runs: self.runs.push(TextRun { len: p.bytes.len() as usize, style: p.style }),
                source_at: pad(self.source_at, self.text.len() as int, p.src.start) + piece_map(
                    p.bytes,
                    p.src,
                ),
                end: p.src.end,
            }
        }
    }

    /// All of `pieces`, in order.
    pub open spec fn push_all(self, pieces: Seq<Piece>) -> Partial
        decreases pieces.len(),
    {
        if pieces.len() == 0 {
            self
        } else {
            self.push_all(pieces.drop_last()).push(pieces.last())
        }
    }

    /// The layout of what was pushed, for a block that starts at `start`.
    pub open spec fn finish(self, start: usize) -> LeafView {
        LeafView {
            text: self.text,
            runs: self.runs,
            source_at: if self.text.len() == 0 {
                seq![start]
            } else {
                pad(self.source_at, self.text.len() as int + 1, self.end)
            },
            block_start: start,
        }
    }

    /// What every sequence of pushes keeps.
    pub open spec fn ok(self) -> bool {
        &&& self.source_at.len() <= self.text.len()
        &&& run_total(self.runs) == self.text.len()
        &&& self.text.len() == 0 ==> self.runs.len() == 0 && self.source_at.len() == 0
        &&& forall|o: int|
            self.source_at.len() <= o < self.text.len() ==> is_continuation_byte(
                #[trigger] self.text[o],
            )
        &&& forall|o: int|
            0 <= o < self.source_at.len() && is_continuation_byte(#[trigger] self.text[o]) ==> o + 1
                < self.source_at.len() && self.source_at[o] == self.source_at[o + 1]
    }
}

proof fn lemma_floor_is_start(b: Seq<u8>, i: int)
    requires
        0 <= i < b.len(),
        !is_continuation_byte(b[0]),
    ensures
        0 <= text::floor_boundary(b, i) <= i,
        !is_continuation_byte(b[text::floor_boundary(b, i)]),
        forall|k: int|
            text::floor_boundary(b, i) < k <= i ==> is_continuation_byte(#[trigger] b[k]),
    decreases i,
{
    if i > 0 && !text::boundary(b, i) {
        lemma_floor_is_start(b, i - 1);
    }
}

/// A push of whole characters keeps what [`Partial::ok`] says.
proof fn lemma_push_ok(st: Partial, p: Piece)
    requires
        st.ok(),
        p.bytes.len() <= usize::MAX,
        p.bytes.len() > 0 ==> !is_continuation_byte(p.bytes[0]),
    ensures
        st.push(p).ok(),
{
    let out = st.push(p);
    if p.bytes.len() > 0 {
        let base = st.text.len() as int;
        let b = p.bytes;
        let last = text::floor_boundary(b, b.len() - 1);
        lemma_floor_is_start(b, b.len() - 1);
        assert(out.runs.drop_last() =~= st.runs);
        assert(out.source_at.len() == base + last + 1);
        assert forall|o: int| out.source_at.len() <= o < out.text.len() implies is_continuation_byte(
            #[trigger] out.text[o],
        ) by {
            assert(is_continuation_byte(b[o - base]));
        }
        assert forall|o: int|
            0 <= o < out.source_at.len() && is_continuation_byte(#[trigger] out.text[o]) implies o + 1
            < out.source_at.len() && out.source_at[o] == out.source_at[o + 1] by {
            if o < base {
                assert(out.text[o] == st.text[o]);
                if o + 1 == base {
                    assert(next_boundary(b, 0) == 0);
                    assert(map_offset(b, p.src, 0) == p.src.start) by {
                        reveal_with_fuel(chars_before, 1);
                        assert(span_len(p.src) * 0 == 0);
                        lemma_chars_before(b, 1, b.len() as int);
                        reveal_with_fuel(chars_before, 2);
                        lemma_share(0, 0, chars_before(b, b.len() as int));
                    }
                    assert(out.source_at[o + 1] == p.src.start);
                    if o < st.source_at.len() {
                        assert(false);
                    }
                }
            } else {
                let q = o - base;
                assert(out.text[o] == b[q]);
                assert(q != last);
                assert(next_boundary(b, q) == next_boundary(b, q + 1));
            }
        }
    }
}

/// Pushing two lists of pieces one after the other pushes their concatenation.
pub broadcast proof fn lemma_push_all_concat(st: Partial, a: Seq<Piece>, b: Seq<Piece>)
    ensures
        #[trigger] st.push_all(a).push_all(b) == st.push_all(a + b),
    decreases b.len(),
{
    if b.len() == 0 {
        assert(a + b =~= a);
    } else {
        assert((a + b).drop_last() =~= a + b.drop_last());
        assert((a + b).last() == b.last());
        lemma_push_all_concat(st, a, b.drop_last());
    }
}

/// Pushing a list of one piece pushes that piece.
pub proof fn lemma_push_all_one(st: Partial, p: Piece)
    ensures
        st.push_all(seq![p]) == st.push(p),
{
    assert(seq![p].drop_last() =~= Seq::<Piece>::empty());
    reveal_with_fuel(Partial::push_all, 2);
}

proof fn lemma_next_boundary(b: Seq<u8>, j: int, o: int)
    requires
        0 <= j <= o <= b.len(),
        forall|k: int| j <= k < o ==> is_continuation_byte(#[trigger] b[k]),
        o < b.len() ==> !is_continuation_byte(b[o]),
    ensures
        next_boundary(b, j) == o,
    decreases o - j,
{
    if j < o {
        assert(is_continuation_byte(b[j]));
        lemma_next_boundary(b, j + 1, o);
    }
}

proof fn lemma_floor_boundary(b: Seq<u8>, m: int, i: int)
    requires
        0 <= m <= i < b.len(),
        !is_continuation_byte(b[m]),
        forall|k: int| m < k <= i ==> is_continuation_byte(#[trigger] b[k]),
    ensures
        text::floor_boundary(b, i) == m,
    decreases i - m,
{
    if m < i {
        assert(is_continuation_byte(b[i]));
        lemma_floor_boundary(b, m, i - 1);
    }
}

proof fn lemma_chars_before(b: Seq<u8>, i: int, j: int)
    requires
        0 <= i <= j <= b.len(),
    ensures
        0 <= chars_before(b, i) <= chars_before(b, j) <= j,
    decreases j,
{
    if j > 0 {
        if i < j {
            lemma_chars_before(b, i, j - 1);
        } else {
            lemma_chars_before(b, j - 1, j - 1);
        }
    }
}

/// A share of `span` lies inside it.
pub proof fn lemma_share(span: int, k: int, n: int)
    requires
        0 <= k <= n,
        0 < n,
        0 <= span,
    ensures
        0 <= span * k / n <= span,
{
    assert(0 <= span * k <= span * n) by (nonlinear_arith)
        requires
            0 <= k <= n,
            0 <= span,
    ;
    assert(span * n / n == span) by (nonlinear_arith)
        requires
            0 < n,
    ;
    assert(0 <= span * k / n <= span * n / n) by (nonlinear_arith)
        requires
            0 <= span * k <= span * n,
            0 < n,
    ;
}

/// Number of characters of `bytes`.
fn count_chars(bytes: &[u8]) -> (n: usize)
    ensures
        n == chars_before(bytes@, bytes@.len() as int),
{
    let mut n: usize = 0;
    let mut i: usize = 0;
    while i < bytes.len()
        invariant
            i <= bytes.len(),
            n <= i,
            n == chars_before(bytes@, i as int),
        decreases bytes.len() - i,
    {
        if !(0x80 <= bytes[i] && bytes[i] <= 0xbf) {
            n = n + 1;
        }
        i = i + 1;
    }
    n
}

/// Builds a layout piece by piece.
pub struct LeafBuilder {
    pub text: String,
    pub runs: Vec<TextRun>,
    pub source_at: Vec<usize>,
    pub end: usize,
}

impl View for LeafBuilder {
    type V = Partial;

    open spec fn view(&self) -> Partial {
        Partial {
            text: encode_utf8(self.text@),
            runs: self.runs@,
            source_at: self.source_at@,
            end: self.end,
        }
    }
}

impl LeafBuilder {
    /// An empty layout of a block that ends at `end`.
    pub fn new(end: usize) -> (b: Self)
        ensures
            b@ == Partial::start(end),
            b@.ok(),
    {
        let b = LeafBuilder { text: String::new(), runs: Vec::new(), source_at: Vec::new(), end };
        assert(encode_utf8(b.text@) =~= Seq::<u8>::empty());
        b
    }

    /// Appends `s`, painted for the source bytes `src`.
    pub fn push(&mut self, s: &str, src: Range<usize>, style: RunStyle)
        requires
            old(self)@.ok(),
        ensures
            final(self)@ == old(self)@.push(Piece { bytes: encode_utf8(s@), src, style }),
            final(self)@.ok(),
    {
        let bytes = s.as_bytes();
        let ghost b = encode_utf8(s@);
        if bytes.len() == 0 {
            return;
        }
        let base: usize = byte_len(self.text.as_str());
        let span: usize = range_len(&src);
        let exact: bool = span == bytes.len();
        let nchars: usize = count_chars(bytes);
        proof {
            text::lemma_boundary_ends(s@);
            lemma_chars_before(b, 1, b.len() as int);
            reveal_with_fuel(chars_before, 2);
        }
        let ghost s0 = pad(self.source_at@, base as int, src.start);
        let mut o: usize = 0;
        let mut k: usize = 0;
        let mut filled: usize = 0;
        while o < bytes.len()
            invariant
                o <= bytes.len(),
                bytes@ == b,
                b.len() > 0,
                !is_continuation_byte(b[0]),
                span == span_len(src),
                exact == (span == b.len()),
                nchars == chars_before(b, b.len() as int),
                nchars >= 1,
                base == old(self)@.text.len(),
                old(self)@.ok(),
                self.text@ == old(self).text@,
                self.runs@ == old(self).runs@,
                self.end == old(self).end,
                s0 == pad(old(self).source_at@, base as int, src.start),
                s0.len() == base,
                filled <= o,
                k <= o,
                k == chars_before(b, o as int),
                o == 0 ==> filled == 0 && self.source_at@ == old(self).source_at@,
                o > 0 ==> filled > 0 && self.source_at@.len() == base + filled,
                o > 0 ==> forall|j: int| 0 <= j < base ==> self.source_at@[j] == s0[j],
                o > 0 ==> forall|j: int|
                    0 <= j < filled ==> self.source_at@[base + j] == map_offset(
                        b,
                        src,
                        next_boundary(b, j),
                    ) as usize,
                o > 0 ==> !is_continuation_byte(b[filled - 1]),
                forall|j: int| filled <= j < o ==> is_continuation_byte(#[trigger] b[j]),
            decreases bytes.len() - o,
        {
            if !(0x80 <= bytes[o] && bytes[o] <= 0xbf) {
                proof {
                    lemma_chars_before(b, o as int, b.len() as int);
                    lemma_share(span as int, k as int, nchars as int);
                }
                let mapped: usize = if exact {
                    src.start + o
                } else {
                    assert(span as u128 * k as u128 <= u128::MAX) by (nonlinear_arith)
                        requires
                            0 <= span <= 0xffff_ffff_ffff_ffff,
                            0 <= k <= 0xffff_ffff_ffff_ffff,
                    ;
                    src.start + ((span as u128 * k as u128) / nchars as u128) as usize
                };
                assert(mapped == map_offset(b, src, o as int));
                let ghost before = self.source_at@;
                let ghost was = filled as int;
                while self.source_at.len() <= base || self.source_at.len() - base <= o
                    invariant
                        self.text@ == old(self).text@,
                        self.runs@ == old(self).runs@,
                        self.end == old(self).end,
                        before.len() <= base + was,
                        was <= o < b.len(),
                        before.len() <= self.source_at@.len() <= base + o + 1,
                        forall|j: int|
                            0 <= j < before.len() ==> self.source_at@[j] == #[trigger] before[j],
                        forall|j: int|
                            before.len() <= j < self.source_at@.len() ==> self.source_at@[j]
                                == mapped,
                    decreases base + o + 1 - self.source_at@.len(),
                {
                    self.source_at.push(mapped);
                }
                filled = o + 1;
                assert forall|j: int| 0 <= j < filled implies self.source_at@[base + j]
                    == map_offset(b, src, next_boundary(b, j)) as usize by {
                    if j >= was {
                        lemma_next_boundary(b, j, o as int);
                    } else {
                        assert(before[base + j] == self.source_at@[base + j]);
                    }
                }
                k = k + 1;
            }
            o = o + 1;
        }
        proof {
            lemma_floor_boundary(b, filled - 1, b.len() - 1);
            assert(self.source_at@ =~= s0 + piece_map(b, src));
        }
        proof {
            lemma_push_ok(old(self)@, Piece { bytes: b, src, style });
        }
        push_str(&mut self.text, s);
        self.runs.push(TextRun { len: bytes.len(), style });
        self.end = src.end;
    }

    /// The finished layout of a block that starts at `start`.
    pub fn finish(self, start: usize) -> (layout: LeafLayout)
        requires
            self@.ok(),
        ensures
            layout@ == self@.finish(start),
            layout@.source_at.len() == layout@.text.len() + 1,
            layout@.tiled(),
            layout@.settled(),
    {
        let LeafBuilder { text, runs, source_at, end } = self;
        let mut source_at = source_at;
        if text.as_str().is_empty() {
            proof {
                text::lemma_encode_empty(text@);
            }
            source_at.clear();
            source_at.push(start);
            assert(source_at@ =~= seq![start]);
            return LeafLayout { text, runs, source_at, block_start: start };
        }
        proof {
            text::lemma_encode_empty(text@);
        }
        let n: usize = byte_len(text.as_str());
        let ghost before = source_at@;
        while source_at.len() <= n
            invariant
                before.len() <= source_at@.len() <= n + 1,
                source_at@ == before + Seq::new(
                    (source_at@.len() - before.len()) as nat,
                    |i: int| end,
                ),
            decreases n + 1 - source_at@.len(),
        {
            source_at.push(end);
        }
        assert(source_at@ =~= pad(before, n + 1, end));
        LeafLayout { text, runs, source_at, block_start: start }
    }
}

/// The caret of a source byte stands behind all visible offsets whose source is
/// not beyond it, as long as they come without a gap, and the next one lies
/// beyond it.
pub proof fn carets_stand_behind_their_source(layout: LeafView, src: usize)
    requires
        layout.source_at.len() == layout.text.len() + 1,
        layout.source_at[0] <= src,
    ensures
        ({
            let v = layout.visible_of(src);
            &&& 0 <= v <= layout.text.len()
            &&& forall|i: int| 0 <= i <= v ==> #[trigger] layout.source_at[i] <= src
            &&& v == layout.text.len() || layout.source_at[v + 1] > src
        }),
{
    lemma_leading_split(layout.source_at, src);
}

/// A source byte before the first that is shown has its caret at the start.
pub proof fn carets_before_the_text_stand_at_its_start(layout: LeafView, src: usize)
    requires
        layout.source_at.len() > 0,
        src < layout.source_at[0],
    ensures
        layout.visible_of(src) == 0,
        !layout.contains(src),
{
}

/// A click on a character leads to the source byte it stands for, a click
/// inside one to that of its first byte, and a click behind the text to its end.
pub proof fn clicks_lead_to_the_source(layout: LeafView, vis: int)
    requires
        layout.source_at.len() == layout.text.len() + 1,
        0 <= vis,
    ensures
        text::boundary(layout.text, vis) ==> layout.source_of(vis) == layout.source_at[vis],
        vis >= layout.text.len() ==> layout.source_of(vis)
            == layout.source_at[layout.text.len() as int],
{
}

/// A layout hosts the source bytes from that of its first offset to that of its
/// last, both included.
pub proof fn layouts_host_from_first_to_last(layout: LeafView, src: usize)
    requires
        layout.source_at.len() > 0,
    ensures
        layout.contains(src) <==> layout.source_at[0] <= src
            <= layout.source_at[layout.source_at.len() - 1],
        layout.source_at[0] <= layout.source_at[layout.source_at.len() - 1]
            ==> layout.source_at[0] + layout.source_span()
            == layout.source_at[layout.source_at.len() - 1],
{
}

/// Source bytes that are put in front come first, each at its own source byte,
/// in a run of their own; the rest keeps its text, its source and its style.
pub proof fn front_bytes_come_first(layout: LeafView, b: Seq<u8>, src: Range<usize>, style: RunStyle)
    requires
        0 < b.len() <= usize::MAX,
        src.start + b.len() <= usize::MAX,
    ensures
        ({
            let all = layout.prepended(b, src, style);
            let n = b.len() as int;
            &&& all.text.take(n) == b && all.text.skip(n) == layout.text
            &&& all.runs.skip(1) == layout.runs
            &&& all.runs[0].len == n && all.runs[0].style == style
            &&& all.source_at.skip(n) == layout.source_at
            &&& forall|i: int| 0 <= i < n ==> #[trigger] all.source_at[i] == src.start + i
            &&& all.block_start == layout.block_start
        }),
{
    let all = layout.prepended(b, src, style);
    let n = b.len() as int;
    assert(all.text.take(n) =~= b);
    assert(all.text.skip(n) =~= layout.text);
    assert(all.runs.skip(1) =~= layout.runs);
    assert(all.source_at.skip(n) =~= layout.source_at);
}

/// Source bytes that are put at the end come last, each at its own source byte,
/// in a run of their own; what is before them keeps its text, its source and its
/// style, and the end of the text is the end of the source bytes.
pub proof fn back_bytes_come_last(layout: LeafView, b: Seq<u8>, src: Range<usize>, style: RunStyle)
    requires
        layout.mapped(),
        0 < b.len() <= usize::MAX,
        src.start + b.len() <= usize::MAX,
    ensures
        ({
            let all = layout.appended(b, src, style);
            let t = layout.text.len() as int;
            let n = b.len() as int;
            &&& all.text.take(t) == layout.text && all.text.skip(t) == b
            &&& all.runs.drop_last() == layout.runs
            &&& all.runs.last().len == n && all.runs.last().style == style
            &&& all.source_at.len() == t + n + 1
            &&& all.source_at.take(t) == layout.source_at.take(t)
            &&& forall|i: int| 0 <= i < n ==> #[trigger] all.source_at[t + i] == src.start + i
            &&& all.source_at[t + n] == src.end
            &&& all.block_start == layout.block_start
        }),
{
    let all = layout.appended(b, src, style);
    let t = layout.text.len() as int;
    assert(all.text.take(t) =~= layout.text);
    assert(all.text.skip(t) =~= b);
    assert(all.runs.drop_last() =~= layout.runs);
    assert(all.source_at.take(t) =~= layout.source_at.take(t));
}

/// The texts of `pieces`, one behind the other.
pub open spec fn painted_text(pieces: Seq<Piece>) -> Seq<u8>
    decreases pieces.len(),
{
    if pieces.len() == 0 {
        Seq::empty()
    } else {
        painted_text(pieces.drop_last()) + pieces.last().bytes
    }
}

/// A layout shows the pieces it was made of, one behind the other, and hosts at
/// least its block where it shows nothing.
pub proof fn layouts_show_their_pieces(end: usize, pieces: Seq<Piece>, start: usize)
    ensures
        Partial::start(end).push_all(pieces).finish(start).text == painted_text(pieces),
        painted_text(pieces).len() == 0 ==> Partial::start(end).push_all(pieces).finish(
            start,
        ).source_at == seq![start],
        Partial::start(end).push_all(pieces).finish(start).block_start == start,
    decreases pieces.len(),
{
    if pieces.len() > 0 {
        layouts_show_their_pieces(end, pieces.drop_last(), start);
        if pieces.last().bytes.len() == 0 {
            assert(painted_text(pieces) =~= painted_text(pieces.drop_last()));
        }
    }
}

/// A further piece leaves the source of all before it, starts where its source
/// starts, and has a run of its own in its style. A piece as long as its source
/// stands for it byte by byte.
pub proof fn pieces_stand_for_their_source(st: Partial, p: Piece, o: int)
    requires
        st.ok(),
        0 < p.bytes.len() <= usize::MAX,
        !is_continuation_byte(p.bytes[0]),
        p.src.start <= p.src.end,
    ensures
        ({
            let next = st.push(p);
            let t = st.text.len() as int;
            &&& next.text == st.text + p.bytes
            &&& next.runs.drop_last() == st.runs
            &&& next.runs.last().len == p.bytes.len() && next.runs.last().style == p.style
            &&& next.source_at.take(st.source_at.len() as int) == st.source_at
            &&& next.source_at[t] == p.src.start
            &&& next.end == p.src.end
            &&& p.bytes.len() == p.src.end - p.src.start && 0 <= o < p.bytes.len()
                && !is_continuation_byte(p.bytes[o]) ==> next.source_at[t + o] == p.src.start + o
        }),
{
    let next = st.push(p);
    let t = st.text.len() as int;
    let n = p.bytes.len() as int;
    let padded = pad(st.source_at, t, p.src.start);
    let map = piece_map(p.bytes, p.src);
    assert(padded.len() == t);
    lemma_floor_is_start(p.bytes, n - 1);
    assert(next.runs.drop_last() =~= st.runs);
    assert(next.source_at.take(st.source_at.len() as int) =~= st.source_at);
    assert(next.source_at[t] == map[0]);
    assert(next_boundary(p.bytes, 0) == 0);
    assert(chars_before(p.bytes, 0) == 0);
    assert(map_offset(p.bytes, p.src, 0) == p.src.start) by {
        if span_len(p.src) != n {
            lemma_chars_before(p.bytes, 1, n);
            let c = chars_before(p.bytes, n);
            reveal_with_fuel(chars_before, 2);
            assert(c >= 1);
            assert(span_len(p.src) * 0 == 0);
            assert(0int / c == 0) by (nonlinear_arith)
                requires
                    c >= 1,
            ;
        }
    }
    if 0 <= o < n && !is_continuation_byte(p.bytes[o]) && n == p.src.end - p.src.start {
        assert(o <= text::floor_boundary(p.bytes, n - 1));
        assert(next_boundary(p.bytes, o) == o);
        assert(next.source_at[t + o] == map[o]);
    }
}

/// The end of a layout that shows something is the end of the source of the
/// last piece that does.
pub proof fn layouts_end_with_their_last_piece(st: Partial, start: usize)
    requires
        st.ok(),
        st.text.len() > 0,
    ensures
        st.finish(start).source_at.len() == st.text.len() + 1,
        st.finish(start).source_at[st.text.len() as int] == st.end,
        st.finish(start).text == st.text,
        st.finish(start).runs == st.runs,
        st.finish(start).source_at.take(st.source_at.len() as int) == st.source_at,
{
    assert(st.finish(start).source_at.take(st.source_at.len() as int) =~= st.source_at);
}

/// A piece that is longer or shorter than its source moves through it with its
/// characters: from its start to its end, never back.
pub proof fn pieces_move_through_their_source(b: Seq<u8>, src: Range<usize>, i: int, j: int)
    requires
        0 <= i <= j <= b.len(),
        b.len() > 0,
        !is_continuation_byte(b[0]),
        src.start <= src.end,
    ensures
        src.start <= map_offset(b, src, i) <= map_offset(b, src, j) <= src.end,
        map_offset(b, src, 0) == src.start,
        map_offset(b, src, b.len() as int) == src.end,
{
    let n = b.len() as int;
    let c = chars_before(b, n);
    let span = span_len(src);
    lemma_chars_before(b, 1, n);
    lemma_chars_before(b, i, j);
    lemma_chars_before(b, j, n);
    reveal_with_fuel(chars_before, 2);
    assert(c >= 1);
    let x = chars_before(b, i);
    let y = chars_before(b, j);
    lemma_share(span, x, c);
    lemma_share(span, y, c);
    lemma_share(span, 0, c);
    assert(span * x / c <= span * y / c) by (nonlinear_arith)
        requires
            0 <= x <= y,
            c >= 1,
            span >= 0,
    ;
    assert(span * 0 / c == 0 && span * c / c == span) by (nonlinear_arith)
        requires
            c >= 1,
    ;
}

} // verus!
