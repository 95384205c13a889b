//! The corpus index and the greedy dictionary-construction driver.
//!
//! The corpus index owns the byte buffer, its suffix array, the occupancy
//! array and the running symbol model. The occupancy array holds, per buffer
//! position, either a negative token marking the position as consumed by a
//! committed dictionary word, or the number of still-free positions between
//! it and the next consumed position (or the end of the buffer), so "is a run
//! of length L starting here still free" is one comparison.

use crate::suffix_array::{common_pfx, sa_wf};
use vstd::prelude::*;

verus! {

/// An accepted dictionary entry. `location` is one representative start
/// offset of the word in the buffer, `count` the number of substitutions
/// credited to it, and `rank` its entropy gain in Q16 fixed point.
#[derive(Clone, Copy)]
pub struct Word {
    pub rank: i64,
    pub location: usize,
    pub sa_index: u32,
    pub sa_count: u32,
    pub count: u32,
    pub len: u16,
}

impl Word {
    /// The word's range of byte positions at its representative location.
    pub fn get_range(&self) -> (r: core::ops::Range<usize>)
        requires
            self.location + self.len <= usize::MAX,
        ensures
            r.start == self.location,
            r.end == self.location + self.len,
    {
        self.location..(self.location + self.len as usize)
    }

    /// The word's range of ranks in the suffix array.
    pub fn get_sa_range(&self) -> (r: core::ops::Range<usize>)
        requires
            self.sa_index + self.sa_count <= usize::MAX,
        ensures
            r.start == self.sa_index as usize,
            r.end == self.sa_index + self.sa_count,
    {
        (self.sa_index as usize)..(self.sa_index as usize + self.sa_count as usize)
    }
}

/// One consumed occurrence: `word` indexes the dictionary, and the span
/// covers `start .. start + len` of the buffer. Spans are ghost bookkeeping;
/// the executable state is the occupancy array alone.
pub struct Span {
    pub start: int,
    pub word: int,
}

/// The corpus index.
pub struct MdmaIndex {
    pub buf: Vec<u8>,
    pub sa: Vec<usize>,
    pub offsets: Vec<i32>,
    pub model: Vec<i64>,
    pub n: u32,
    pub spans: Ghost<Seq<Span>>,
}

/// The number of `b` bytes in `s`.
pub open spec fn byte_count(s: Seq<u8>, b: u8) -> int
    decreases s.len(),
{
    if s.len() == 0 {
        0
    } else {
        byte_count(s.drop_last(), b) + if s.last() == b {
            1int
        } else {
            0int
        }
    }
}

/// `byte_count` never exceeds the sequence length.
pub proof fn lemma_byte_count_bounds(s: Seq<u8>, b: u8)
    ensures
        0 <= byte_count(s, b) <= s.len(),
    decreases s.len(),
{
    if s.len() > 0 {
        lemma_byte_count_bounds(s.drop_last(), b);
    }
}

/// Counting over a prefix counts no more than counting over the whole.
pub proof fn lemma_byte_count_prefix_le(s: Seq<u8>, b: u8, k: int)
    requires
        0 <= k <= s.len(),
    ensures
        byte_count(s.subrange(0, k), b) <= byte_count(s, b),
    decreases s.len() - k,
{
    lemma_byte_count_bounds(s.subrange(0, k), b);
    if k == s.len() {
        assert(s.subrange(0, k) =~= s);
    } else {
        lemma_byte_count_prefix_le(s, b, k + 1);
        assert(s.subrange(0, k + 1).drop_last() =~= s.subrange(0, k));
    }
}

/// Free run lengths never reach past the end of the buffer.
pub open spec fn offsets_bounded(o: Seq<i32>) -> bool {
    forall|p: int| 0 <= p < o.len() && #[trigger] o[p] >= 0 ==> o[p] <= o.len() - 1 - p
}

/// The occupancy invariant bounds every free run by the end of the buffer.
pub proof fn lemma_wf_offsets_bounded(ix: MdmaIndex, words: Seq<Word>)
    requires
        index_wf(ix, words),
    ensures
        offsets_bounded(ix.offsets@),
{
    let o = ix.offsets@;
    assert forall|p: int| 0 <= p < o.len() && #[trigger] o[p] >= 0 implies o[p] <= o.len() - 1
        - p by {
        lemma_nc_props(o, p);
    }
}

/// The first consumed position after `p`, or the buffer length if the rest
/// of the buffer is free.
pub open spec fn next_consumed(o: Seq<i32>, p: int) -> int
    decreases o.len() - p
        when 0 <= p < o.len()
{
    if p + 1 >= o.len() {
        o.len() as int
    } else if o[p + 1] < 0 {
        p + 1
    } else {
        next_consumed(o, p + 1)
    }
}

/// `next_consumed` is characterized by freeness of everything before it.
pub proof fn lemma_nc_char(o: Seq<i32>, p: int, q: int)
    requires
        0 <= p < o.len(),
        p < q <= o.len(),
        forall|r: int| p < r < q ==> #[trigger] o[r] >= 0,
        q == o.len() || o[q] < 0,
    ensures
        next_consumed(o, p) == q,
    decreases q - p,
{
    if p + 1 >= o.len() {
    } else if o[p + 1] < 0 {
    } else {
        lemma_nc_char(o, p + 1, q);
    }
}

/// Everything strictly between `p` and `next_consumed(o, p)` is free, and
/// the bounds of `next_consumed`.
pub proof fn lemma_nc_props(o: Seq<i32>, p: int)
    requires
        0 <= p < o.len(),
    ensures
        p < next_consumed(o, p) <= o.len(),
        forall|r: int| p < r < next_consumed(o, p) ==> #[trigger] o[r] >= 0,
        next_consumed(o, p) < o.len() ==> o[next_consumed(o, p)] < 0,
    decreases o.len() - p,
{
    if p + 1 >= o.len() {
    } else if o[p + 1] < 0 {
    } else {
        lemma_nc_props(o, p + 1);
    }
}

/// A committed word: usable length and count, positive rank, representative
/// location inside the buffer.
pub open spec fn word_wf(w: Word, buf: Seq<u8>) -> bool {
    &&& 2 <= w.len
    &&& 2 <= w.count
    &&& 0 < w.rank
    &&& w.location + w.len <= buf.len()
}

pub open spec fn words_wf(words: Seq<Word>, buf: Seq<u8>) -> bool {
    forall|w: int| 0 <= w < words.len() ==> word_wf(#[trigger] words[w], buf)
}

/// A recorded span points at a dictionary word, lies inside the buffer, and
/// its bytes equal the word's bytes at the representative location.
pub open spec fn span_wf(s: Span, words: Seq<Word>, buf: Seq<u8>) -> bool {
    &&& 0 <= s.word < words.len()
    &&& 0 <= s.start
    &&& s.start + words[s.word].len <= buf.len()
    &&& common_pfx(buf, words[s.word].location as int, s.start, words[s.word].len as int)
}

/// `p` lies inside span `s`.
pub open spec fn span_covers(s: Span, words: Seq<Word>, p: int) -> bool
    recommends
        0 <= s.word < words.len(),
{
    s.start <= p < s.start + words[s.word].len
}

/// The occupancy invariant of the corpus index, relative to the dictionary
/// built so far:
/// - the ghost spans are well-formed, pairwise disjoint, and carry the bytes
///   of their dictionary words;
/// - a position is consumed (negative) exactly when a span covers it, and it
///   then holds the token of that span's word;
/// - a free position holds the distance to the next consumed position.
pub open spec fn occupancy_wf(o: Seq<i32>, spans: Seq<Span>, words: Seq<Word>, buf: Seq<u8>) -> bool {
    let nn = buf.len() as int;
    &&& o.len() == nn
    &&& forall|k: int| 0 <= k < spans.len() ==> span_wf(#[trigger] spans[k], words, buf)
    &&& forall|k: int, p: int|
        #![trigger spans[k], o[p]]
        0 <= k < spans.len() && span_covers(spans[k], words, p) ==> o[p] == -256 - spans[k].word
    &&& forall|p: int|
        0 <= p < nn && #[trigger] o[p] < 0 ==> exists|k: int|
            0 <= k < spans.len() && #[trigger] span_covers(spans[k], words, p)
    &&& forall|p: int| 0 <= p < nn && #[trigger] o[p] < 0 ==> o[p] <= -256
    &&& forall|k1: int, k2: int|
        0 <= k1 < k2 < spans.len() ==> ((#[trigger] spans[k1]).start + words[spans[k1].word].len
            <= (#[trigger] spans[k2]).start || spans[k2].start + words[spans[k2].word].len
            <= spans[k1].start)
    &&& forall|p: int|
        0 <= p < nn && #[trigger] o[p] >= 0 ==> o[p] == next_consumed(o, p) - p - 1
}

pub open spec fn index_wf(ix: MdmaIndex, words: Seq<Word>) -> bool {
    let nn = ix.buf@.len() as int;
    &&& nn <= 0x7fff_ffff
    &&& ix.sa@.len() == nn
    &&& sa_wf(ix.buf@, ix.sa@)
    &&& ix.model@.len() == 256
    &&& forall|s: int| 0 <= s < 256 ==> 0 <= #[trigger] ix.model@[s] <= nn
    &&& ix.n <= nn
    &&& words_wf(words, ix.buf@)
    &&& occupancy_wf(ix.offsets@, ix.spans@, words, ix.buf@)
}

/// Extending the dictionary does not disturb the occupancy invariant over
/// the spans recorded so far.
pub proof fn lemma_occupancy_words_push(
    o: Seq<i32>,
    spans: Seq<Span>,
    words: Seq<Word>,
    buf: Seq<u8>,
    w: Word,
)
    requires
        occupancy_wf(o, spans, words, buf),
    ensures
        occupancy_wf(o, spans, words.push(w), buf),
{
    let words2 = words.push(w);
    assert forall|k: int| 0 <= k < spans.len() implies span_wf(#[trigger] spans[k], words2, buf) by {
        assert(span_wf(spans[k], words, buf));
        assert(words2[spans[k].word] == words[spans[k].word]);
    }
    assert forall|k: int, p: int|
        #![trigger spans[k], o[p]]
        0 <= k < spans.len() && span_covers(spans[k], words2, p) implies o[p] == -256
        - spans[k].word by {
        assert(words2[spans[k].word] == words[spans[k].word]);
        assert(span_covers(spans[k], words, p));
    }
    assert forall|p: int| 0 <= p < buf.len() && #[trigger] o[p] < 0 implies exists|k: int|
        0 <= k < spans.len() && #[trigger] span_covers(spans[k], words2, p) by {
        let k = choose|k: int| 0 <= k < spans.len() && #[trigger] span_covers(spans[k], words, p);
        assert(words2[spans[k].word] == words[spans[k].word]);
        assert(span_covers(spans[k], words2, p));
    }
    assert forall|k1: int, k2: int|
        0 <= k1 < k2 < spans.len() implies ((#[trigger] spans[k1]).start
        + words2[spans[k1].word].len <= (#[trigger] spans[k2]).start || spans[k2].start
        + words2[spans[k2].word].len <= spans[k1].start) by {
        assert(words2[spans[k1].word] == words[spans[k1].word]);
        assert(words2[spans[k2].word] == words[spans[k2].word]);
    }
}

fn build_model(buf: &Vec<u8>) -> (model: Vec<i64>)
    requires
        buf@.len() <= 0x7fff_ffff,
    ensures
        model@.len() == 256,
        forall|s: int| 0 <= s < 256 ==> #[trigger] model@[s] == byte_count(buf@, s as u8),
        forall|s: int| 0 <= s < 256 ==> 0 <= #[trigger] model@[s] <= buf@.len(),
{
    let mut model: Vec<i64> = Vec::new();
    let mut s: usize = 0;
    while s < 256
        invariant
            model@.len() == s <= 256,
            forall|t: int| 0 <= t < s ==> #[trigger] model@[t] == 0,
        decreases 256 - s,
    {
        model.push(0);
        s = s + 1;
    }
    let n = buf.len();
    let mut i: usize = 0;
    while i < n
        invariant
            i <= n,
            n == buf@.len() <= 0x7fff_ffff,
            model@.len() == 256,
            forall|t: int|
                0 <= t < 256 ==> #[trigger] model@[t] == byte_count(buf@.subrange(0, i as int), t as u8),
            forall|t: int| 0 <= t < 256 ==> 0 <= #[trigger] model@[t] <= i,
        decreases n - i,
    {
        let b = buf[i] as usize;
        let cur = model[b];
        model.set(b, cur + 1);
        proof {
            assert forall|t: int| 0 <= t < 256 implies #[trigger] model@[t] == byte_count(
                buf@.subrange(0, i + 1),
                t as u8,
            ) by {
                assert(buf@.subrange(0, i + 1).drop_last() =~= buf@.subrange(0, i as int));
                assert(buf@.subrange(0, i + 1).last() == buf@[i as int]);
            }
        }
        i = i + 1;
    }
    proof {
        assert(buf@.subrange(0, n as int) =~= buf@);
    }
    model
}

fn build_offsets_array(len: usize) -> (o: Vec<i32>)
    requires
        len <= 0x7fff_ffff,
    ensures
        o@.len() == len,
        forall|p: int| 0 <= p < len ==> #[trigger] o@[p] == len - 1 - p,
{
    let mut o: Vec<i32> = Vec::new();
    let mut i: usize = 0;
    while i < len
        invariant
            i <= len <= 0x7fff_ffff,
            o@.len() == i,
            forall|p: int| 0 <= p < i ==> #[trigger] o@[p] == len - 1 - p,
        decreases len - i,
    {
        o.push((len - 1 - i) as i32);
        i = i + 1;
    }
    o
}

/// Builds the corpus index: suffix array, symbol model, occupancy array
/// (every position initially free up to the end of the buffer), and the
/// residual size estimate `n`.
pub fn initialize(buf: Vec<u8>) -> (ix: MdmaIndex)
    requires
        buf@.len() <= 0x7fff_ffff,
    ensures
        index_wf(ix, Seq::<Word>::empty()),
        ix.buf@ == buf@,
        ix.n == buf@.len(),
        ix.spans@ == Seq::<Span>::empty(),
        forall|s: int| 0 <= s < 256 ==> #[trigger] ix.model@[s] == byte_count(buf@, s as u8),
        forall|p: int| 0 <= p < buf@.len() ==> #[trigger] ix.offsets@[p] == buf@.len() - 1 - p,
{
    let n32: u32 = buf.len() as u32;
    let sa = crate::suffix_array::build_suffix_array(&buf);
    let model = build_model(&buf);
    let offsets = build_offsets_array(buf.len());
    let ix = MdmaIndex { buf, sa, offsets, model, n: n32, spans: Ghost(Seq::empty()) };
    proof {
        let o = ix.offsets@;
        let nn = ix.buf@.len() as int;
        assert forall|p: int| 0 <= p < nn && #[trigger] o[p] >= 0 implies o[p] == next_consumed(
            o,
            p,
        ) - p - 1 by {
            lemma_nc_char(o, p, nn);
        }
    }
    ix
}

/// The total byte savings of the committed words: each word saves
/// `count·(len-1)` positions of the residual corpus.
pub open spec fn sum_savings(words: Seq<Word>) -> int
    decreases words.len(),
{
    if words.len() == 0 {
        0
    } else {
        sum_savings(words.drop_last()) + words.last().count * (words.last().len - 1)
    }
}

/// The total number of occurrences credited to the committed words.
pub open spec fn sum_counts(words: Seq<Word>) -> int
    decreases words.len(),
{
    if words.len() == 0 {
        0
    } else {
        sum_counts(words.drop_last()) + words.last().count
    }
}



/// The total symbol mass of the model over symbols `s .. 256`.
pub open spec fn sum_model(model: Seq<i64>, s: int) -> int
    decreases 256 - s
        when 0 <= s <= 256
{
    if s >= 256 {
        0
    } else {
        model[s] + sum_model(model, s + 1)
    }
}

/// The byte counts of `bytes` over symbols `s .. 256`.
pub open spec fn sum_bc(bytes: Seq<u8>, s: int) -> int
    decreases 256 - s
        when 0 <= s <= 256
{
    if s >= 256 {
        0
    } else {
        byte_count(bytes, s as u8) + sum_bc(bytes, s + 1)
    }
}

proof fn lemma_sum_bc_empty(s: int)
    requires
        0 <= s <= 256,
    ensures
        sum_bc(Seq::<u8>::empty(), s) == 0,
    decreases 256 - s,
{
    if s < 256 {
        lemma_sum_bc_empty(s + 1);
    }
}

proof fn lemma_sum_bc_last(bytes: Seq<u8>, s: int)
    requires
        0 <= s <= 256,
        bytes.len() > 0,
    ensures
        sum_bc(bytes, s) == sum_bc(bytes.drop_last(), s) + if s <= bytes.last() {
            1int
        } else {
            0int
        },
    decreases 256 - s,
{
    if s < 256 {
        lemma_sum_bc_last(bytes, s + 1);
    }
}

/// Every byte of a sequence is counted by exactly one symbol: the symbol
/// masses sum to the sequence length.
pub proof fn lemma_sum_bc_total(bytes: Seq<u8>)
    ensures
        sum_bc(bytes, 0) == bytes.len(),
    decreases bytes.len(),
{
    if bytes.len() == 0 {
        lemma_sum_bc_empty(0);
        assert(bytes =~= Seq::<u8>::empty());
    } else {
        lemma_sum_bc_total(bytes.drop_last());
        lemma_sum_bc_last(bytes, 0);
    }
}

/// A model holding the byte counts of `bytes` has total mass `bytes.len()`.
pub proof fn lemma_sum_model_bc(model: Seq<i64>, bytes: Seq<u8>, s: int)
    requires
        0 <= s <= 256,
        forall|t: int| 0 <= t < 256 ==> #[trigger] model[t] == byte_count(bytes, t as u8),
    ensures
        sum_model(model, s) == sum_bc(bytes, s),
    decreases 256 - s,
{
    if s < 256 {
        lemma_sum_model_bc(model, bytes, s + 1);
    }
}

/// Subtracting `count` copies of a slice's symbols from the model lowers
/// its total mass by `count` times the slice length.
pub proof fn lemma_sum_model_sub(m1: Seq<i64>, m2: Seq<i64>, slice: Seq<u8>, count: int, s: int)
    requires
        0 <= s <= 256,
        forall|t: int|
            0 <= t < 256 ==> #[trigger] m2[t] == m1[t] - byte_count(slice, t as u8) * count,
    ensures
        sum_model(m2, s) == sum_model(m1, s) - count * sum_bc(slice, s),
    decreases 256 - s,
{
    if s < 256 {
        lemma_sum_model_sub(m1, m2, slice, count, s + 1);
        assert(count * sum_bc(slice, s) == count * byte_count(slice, s as u8) + count * sum_bc(
            slice,
            s + 1,
        )) by (nonlinear_arith)
            requires
                sum_bc(slice, s) == byte_count(slice, s as u8) + sum_bc(slice, s + 1),
        ;
        assert(byte_count(slice, s as u8) * count == count * byte_count(slice, s as u8))
            by (nonlinear_arith);
    }
}

/// How many recorded spans belong to word `w`.
pub open spec fn spans_for(spans: Seq<Span>, w: int) -> int
    decreases spans.len(),
{
    if spans.len() == 0 {
        0
    } else {
        spans_for(spans.drop_last(), w) + if spans.last().word == w {
            1int
        } else {
            0int
        }
    }
}

/// A word no span refers to owns no spans.
pub proof fn lemma_spans_for_absent(spans: Seq<Span>, w: int)
    requires
        forall|k: int| 0 <= k < spans.len() ==> (#[trigger] spans[k]).word != w,
    ensures
        spans_for(spans, w) == 0,
    decreases spans.len(),
{
    if spans.len() > 0 {
        assert forall|k: int|
            0 <= k < spans.drop_last().len() implies (#[trigger] spans.drop_last()[k]).word
            != w by {
            assert(spans.drop_last()[k] == spans[k]);
        }
        lemma_spans_for_absent(spans.drop_last(), w);
    }
}

/// Appending `m` spans of one word adds `m` to that word's span count and
/// leaves every other word's count unchanged.
pub proof fn lemma_spans_for_append(
    spans0: Seq<Span>,
    spans1: Seq<Span>,
    widx: int,
    m: int,
    w: int,
)
    requires
        0 <= m,
        spans1.len() == spans0.len() + m,
        forall|k: int| 0 <= k < spans0.len() ==> spans1[k] == #[trigger] spans0[k],
        forall|a: int| 0 <= a < m ==> (#[trigger] spans1[spans0.len() + a]).word == widx,
    ensures
        spans_for(spans1, w) == spans_for(spans0, w) + if w == widx {
            m
        } else {
            0int
        },
    decreases m,
{
    if m == 0 {
        assert(spans1 =~= spans0);
    } else {
        let d = spans1.drop_last();
        assert forall|a: int| 0 <= a < m - 1 implies (#[trigger] d[spans0.len() + a]).word
            == widx by {
            assert(d[spans0.len() + a] == spans1[spans0.len() + a]);
        }
        assert forall|k: int| 0 <= k < spans0.len() implies d[k] == #[trigger] spans0[k] by {
            assert(d[k] == spans1[k]);
        }
        lemma_spans_for_append(spans0, d, widx, m - 1, w);
        assert(spans1.last() == spans1[spans0.len() + (m - 1)]);
    }
}

/// What committing a word requires of it, against the current index: it is
/// well formed, its suffix-array window is byte-equal to its representative
/// location, its count is the greedy occurrence count over the current
/// occupancy, no symbol of it is degenerate, and the residual size stays
/// positive.
pub open spec fn commit_ok(w: Word, ix: MdmaIndex) -> bool {
    &&& word_wf(w, ix.buf@)
    &&& w.sa_index + w.sa_count <= ix.sa@.len()
    &&& 1 <= w.sa_count
    &&& forall|j: int|
        w.sa_index <= j < w.sa_index + w.sa_count ==> common_pfx(
            ix.buf@,
            w.location as int,
            #[trigger] ix.sa@[j] as int,
            w.len as int,
        )
    &&& w.count as int == crate::counting::greedy_sel(
        crate::splitting::word_sorted(ix, w),
        ix.offsets@,
        w.len as int,
        0,
        0,
    ).len()
    &&& crate::entropy_ranking::sym_ok(
        ix.buf@,
        ix.model@,
        w.location as int,
        w.len as int,
        w.count as int,
    )
    &&& ix.n >= w.count * (w.len - 1) + 1
}

/// The number of free positions in `o` from index `i` on.
pub open spec fn free_count(o: Seq<i32>, i: int) -> int
    decreases o.len() - i
        when 0 <= i <= o.len()
{
    if i >= o.len() {
        0
    } else {
        (if o[i] >= 0 {
            1int
        } else {
            0int
        }) + free_count(o, i + 1)
    }
}

/// Free counts are between 0 and the number of scanned positions.
pub proof fn lemma_free_count_bounds(o: Seq<i32>, i: int)
    requires
        0 <= i <= o.len(),
    ensures
        0 <= free_count(o, i) <= o.len() - i,
    decreases o.len() - i,
{
    if i < o.len() {
        lemma_free_count_bounds(o, i + 1);
    }
}

/// In an entirely free array every position counts.
pub proof fn lemma_free_count_all_free(o: Seq<i32>, i: int)
    requires
        0 <= i <= o.len(),
        forall|p: int| 0 <= p < o.len() ==> #[trigger] o[p] >= 0,
    ensures
        free_count(o, i) == o.len() - i,
    decreases o.len() - i,
{
    if i < o.len() {
        lemma_free_count_all_free(o, i + 1);
    }
}

/// Committed words carry at least two occurrences each.
pub proof fn lemma_sum_counts_floor(words: Seq<Word>, buf: Seq<u8>)
    requires
        words_wf(words, buf),
    ensures
        sum_counts(words) >= 2 * words.len(),
    decreases words.len(),
{
    if words.len() > 0 {
        assert(word_wf(words.last(), buf));
        assert forall|w: int| 0 <= w < words.drop_last().len() implies word_wf(
            #[trigger] words.drop_last()[w],
            buf,
        ) by {
            assert(words.drop_last()[w] == words[w]);
        }
        lemma_sum_counts_floor(words.drop_last(), buf);
    }
}

/// Coverage and no-overlap: under the occupancy invariant, a position is
/// consumed exactly when one of the committed words' spans covers it, no
/// position is covered by two spans, and every free position reports the
/// exact distance to the next consumed position.
pub proof fn lemma_coverage(ix: MdmaIndex, words: Seq<Word>)
    requires
        index_wf(ix, words),
    ensures
        forall|p: int|
            0 <= p < ix.buf@.len() ==> ((#[trigger] ix.offsets@[p] < 0) <==> exists|k: int|
                0 <= k < ix.spans@.len() && #[trigger] span_covers(ix.spans@[k], words, p)),
        forall|k1: int, k2: int, p: int|
            #![trigger span_covers(ix.spans@[k1], words, p), span_covers(ix.spans@[k2], words, p)]
            0 <= k1 < ix.spans@.len() && 0 <= k2 < ix.spans@.len() && k1 != k2 && span_covers(
                ix.spans@[k1],
                words,
                p,
            ) ==> !span_covers(ix.spans@[k2], words, p),
        forall|p: int|
            0 <= p < ix.buf@.len() && #[trigger] ix.offsets@[p] >= 0 ==> ix.offsets@[p]
                == next_consumed(ix.offsets@, p) - p - 1,
{
    let o = ix.offsets@;
    let spans = ix.spans@;
    assert forall|p: int|
        0 <= p < ix.buf@.len() implies ((#[trigger] o[p] < 0) <==> exists|k: int|
        0 <= k < spans.len() && #[trigger] span_covers(spans[k], words, p)) by {
        if exists|k: int| 0 <= k < spans.len() && #[trigger] span_covers(spans[k], words, p) {
            let k = choose|k: int|
                0 <= k < spans.len() && #[trigger] span_covers(spans[k], words, p);
            assert(o[p] == -256 - spans[k].word);
            assert(span_wf(spans[k], words, buf_of(ix)));
            assert(spans[k].word >= 0);
        }
    }
    assert forall|k1: int, k2: int, p: int|
        #![trigger span_covers(spans[k1], words, p), span_covers(spans[k2], words, p)]
        0 <= k1 < spans.len() && 0 <= k2 < spans.len() && k1 != k2 && span_covers(
            spans[k1],
            words,
            p,
        ) implies !span_covers(spans[k2], words, p) by {
        if span_covers(spans[k2], words, p) {
            if k1 < k2 {
                assert(spans[k1].start + words[spans[k1].word].len <= spans[k2].start
                    || spans[k2].start + words[spans[k2].word].len <= spans[k1].start);
            } else {
                assert(spans[k2].start + words[spans[k2].word].len <= spans[k1].start
                    || spans[k1].start + words[spans[k1].word].len <= spans[k2].start);
            }
        }
    }
}


/// `w` is a best-ranked accepted candidate of `cands` against `ix`, chosen
/// with the first-encountered tie-break: no accepted candidate ranks
/// strictly higher, and none before the chosen one ranks as high.
pub open spec fn best_accepted(ix: MdmaIndex, cands: Seq<crate::match_finder::Match>, w: Word) -> bool {
    exists|k0: int|
        #![trigger cands[k0]]
        0 <= k0 < cands.len() && crate::entropy_ranking::rank_accepts(ix, cands[k0]) && w
            == crate::entropy_ranking::ranked_word(ix, cands[k0]) && (forall|k: int|
            0 <= k < cands.len() && crate::entropy_ranking::rank_accepts(ix, #[trigger] cands[k])
                ==> crate::entropy_ranking::ranked_word(ix, cands[k]).rank <= w.rank) && (
        forall|k: int|
            0 <= k < k0 && crate::entropy_ranking::rank_accepts(ix, #[trigger] cands[k])
                ==> crate::entropy_ranking::ranked_word(ix, cands[k]).rank < w.rank)
}

/// The greedy driver: generates all candidates from the LCP array, then
/// repeatedly re-ranks the still-valid candidates, commits the best-ranked
/// word, consumes its occurrences and updates the model, until no candidate
/// has a positive rank.
///
/// The contract fixes, besides the occupancy invariant: every committed word
/// has at least two occurrences and a positive rank; the residual size `n`
/// shrinks by exactly `count·(len-1)` per commit, stays equal to the free
/// position count plus the credited substitutions and to the remaining
/// symbol mass plus the credited substitutions, and never drops below twice
/// the dictionary size; each word owns exactly `count` recorded spans; the
/// dictionary is non-empty exactly when some generated candidate is accepted
/// by the ranker against the initial index; and the first committed word is
/// then a best-ranked such candidate under the first-encountered tie-break.
/// Which words follow in later rounds is fixed by the loop below through the
/// exact contracts of `rank`, `split` and `update_model` round by round.
pub fn build_dictionary(mdma_index: &mut MdmaIndex) -> (dict: Vec<Word>)
    requires
        index_wf(*old(mdma_index), Seq::<Word>::empty()),
        old(mdma_index).spans@ == Seq::<Span>::empty(),
        old(mdma_index).n == old(mdma_index).buf@.len(),
        forall|s: int|
            0 <= s < 256 ==> #[trigger] old(mdma_index).model@[s] == byte_count(
                old(mdma_index).buf@,
                s as u8,
            ),
    ensures
        index_wf(*final(mdma_index), dict@),
        final(mdma_index).buf == old(mdma_index).buf,
        final(mdma_index).sa == old(mdma_index).sa,
        forall|w: int|
            0 <= w < dict@.len() ==> (#[trigger] dict@[w]).count >= 2 && dict@[w].rank > 0
                && dict@[w].len >= 2,
        final(mdma_index).n as int == old(mdma_index).n - sum_savings(dict@),
        dict@.len() > 0 ==> final(mdma_index).n >= 1,
        2 * dict@.len() + final(mdma_index).n <= old(mdma_index).n,
        final(mdma_index).spans@.len() == sum_counts(dict@),
        final(mdma_index).n as int == free_count(final(mdma_index).offsets@, 0) + sum_counts(
            dict@,
        ),
        final(mdma_index).n >= 2 * dict@.len(),
        forall|i: int|
            0 <= i < dict@.len() ==> spans_for(final(mdma_index).spans@, i) == (
            #[trigger] dict@[i]).count,
        final(mdma_index).n as int == sum_model(final(mdma_index).model@, 0) + sum_counts(dict@),
        ({
            let cands = crate::match_finder::spec_generate(
                crate::suffix_array::lcp_of(old(mdma_index).buf@, old(mdma_index).sa@),
            );
            (exists|k: int|
                0 <= k < cands.len() && crate::entropy_ranking::rank_accepts(
                    *old(mdma_index),
                    #[trigger] cands[k],
                )) <==> dict@.len() > 0
        }),
        dict@.len() > 0 ==> best_accepted(
            *old(mdma_index),
            crate::match_finder::spec_generate(
                crate::suffix_array::lcp_of(old(mdma_index).buf@, old(mdma_index).sa@),
            ),
            dict@[0],
        ),
{
    let ghost buf = mdma_index.buf@;
    let ghost sa = mdma_index.sa@;
    let ghost n0 = old(mdma_index).n as int;
    let lcp_array = crate::suffix_array::build_lcp_array(&mdma_index.buf, &mdma_index.sa);
    let ghost glcp = lcp_array@;
    let mut curr_matches: Vec<crate::match_finder::Match> = Vec::new();
    crate::match_finder::generate(&mut curr_matches, lcp_array);
    proof {
        assert(crate::match_finder::lcp_wf(buf, sa, glcp));
        assert forall|k: int| 0 <= k < curr_matches@.len() implies crate::match_finder::match_range_common(
            #[trigger] curr_matches@[k],
            buf,
            sa,
        ) by {
            crate::match_finder::lemma_match_lcp_implies_common(curr_matches@[k], buf, sa, glcp);
        }
    }
    let ghost matches_init = curr_matches@;
    proof {
        assert(matches_init == crate::match_finder::spec_generate(
            crate::suffix_array::lcp_of(buf, sa),
        ));
    }
    let mut dict: Vec<Word> = Vec::new();
    proof {
        // every position starts free, so n equals the free count
        assert forall|p: int|
            0 <= p < mdma_index.offsets@.len() implies #[trigger] mdma_index.offsets@[p] >= 0 by {
            if mdma_index.offsets@[p] < 0 {
                let k = choose|k: int|
                    0 <= k < mdma_index.spans@.len() && #[trigger] span_covers(
                        mdma_index.spans@[k],
                        Seq::<Word>::empty(),
                        p,
                    );
            }
        }
        lemma_free_count_all_free(mdma_index.offsets@, 0);
        // the residual size starts as the total symbol mass
        lemma_sum_model_bc(mdma_index.model@, buf, 0);
        lemma_sum_bc_total(buf);
    }
    loop
        invariant_except_break
            dict@.len() == 0 ==> curr_matches@ == matches_init && *mdma_index == *old(mdma_index),
        invariant
            index_wf(*mdma_index, dict@),
            mdma_index.buf == old(mdma_index).buf,
            mdma_index.sa == old(mdma_index).sa,
            buf == mdma_index.buf@,
            sa == mdma_index.sa@,
            n0 == old(mdma_index).n,
            n0 <= 0x7fff_ffff,
            forall|k: int|
                0 <= k < curr_matches@.len() ==> crate::match_finder::match_range_common(
                    #[trigger] curr_matches@[k],
                    buf,
                    sa,
                ),
            forall|k: int|
                0 <= k < curr_matches@.len() && !(#[trigger] curr_matches@[k]).self_ref
                    ==> crate::counting::gap_ok(
                    crate::counting::sorted_window(*mdma_index, curr_matches@[k]),
                    mdma_index.offsets@,
                    curr_matches@[k].len as int,
                ),
            mdma_index.n as int == n0 - sum_savings(dict@),
            mdma_index.n as int == free_count(mdma_index.offsets@, 0) + sum_counts(dict@),
            dict@.len() > 0 ==> mdma_index.n >= 1,
            2 * dict@.len() + mdma_index.n <= n0,
            mdma_index.spans@.len() == sum_counts(dict@),
            forall|i: int|
                0 <= i < dict@.len() ==> spans_for(mdma_index.spans@, i) == (
                #[trigger] dict@[i]).count,
            mdma_index.n as int == sum_model(mdma_index.model@, 0) + sum_counts(dict@),
            crate::match_finder::emitted_ok(matches_init, glcp),
            dict@.len() > 0 ==> exists|k: int|
                0 <= k < matches_init.len() && crate::entropy_ranking::rank_accepts(
                    *old(mdma_index),
                    #[trigger] matches_init[k],
                ),
            dict@.len() > 0 ==> best_accepted(*old(mdma_index), matches_init, dict@[0]),
        ensures
            dict@.len() == 0 ==> forall|k: int|
                0 <= k < matches_init.len() ==> !crate::entropy_ranking::rank_accepts(
                    *old(mdma_index),
                    #[trigger] matches_init[k],
                ),
        decreases mdma_index.n,
    {
        let ghost matches_scan0 = curr_matches@;
        let ghost o_scan = mdma_index.offsets@;
        proof {
            lemma_wf_offsets_bounded(*mdma_index, dict@);
        }
        let mut best: Option<Word> = None;
        let mut k: usize = 0;
        while k < curr_matches.len()
            invariant
                index_wf(*mdma_index, dict@),
                buf == mdma_index.buf@,
                sa == mdma_index.sa@,
                o_scan == mdma_index.offsets@,
                offsets_bounded(mdma_index.offsets@),
                k <= curr_matches@.len(),
                forall|kk: int|
                    0 <= kk < curr_matches@.len() ==> crate::match_finder::match_range_common(
                        #[trigger] curr_matches@[kk],
                        buf,
                        sa,
                    ),
                forall|kk: int|
                    0 <= kk < curr_matches@.len() && !(#[trigger] curr_matches@[kk]).self_ref
                        ==> crate::counting::gap_ok(
                        crate::counting::sorted_window(*mdma_index, curr_matches@[kk]),
                        mdma_index.offsets@,
                        curr_matches@[kk].len as int,
                    ),
                best.is_some() ==> commit_ok(best.unwrap(), *mdma_index),
                matches_scan0.len() == curr_matches@.len(),
                forall|kk: int|
                    k <= kk < curr_matches@.len() ==> curr_matches@[kk]
                        == #[trigger] matches_scan0[kk],
                best.is_none() ==> forall|kk: int|
                    0 <= kk < k ==> !(matches_scan0[kk].is_valid
                        && crate::entropy_ranking::rank_accepts(
                        *mdma_index,
                        #[trigger] matches_scan0[kk],
                    )),
                best.is_some() ==> exists|k0: int|
                    #![trigger matches_scan0[k0]]
                    0 <= k0 < k && matches_scan0[k0].is_valid
                        && crate::entropy_ranking::rank_accepts(*mdma_index, matches_scan0[k0])
                        && best.unwrap() == crate::entropy_ranking::ranked_word(
                        *mdma_index,
                        matches_scan0[k0],
                    ) && (forall|kk: int|
                        0 <= kk < k && matches_scan0[kk].is_valid
                            && crate::entropy_ranking::rank_accepts(
                            *mdma_index,
                            #[trigger] matches_scan0[kk],
                        ) ==> crate::entropy_ranking::ranked_word(
                            *mdma_index,
                            matches_scan0[kk],
                        ).rank <= best.unwrap().rank) && (forall|kk: int|
                        0 <= kk < k0 && matches_scan0[kk].is_valid
                            && crate::entropy_ranking::rank_accepts(
                            *mdma_index,
                            #[trigger] matches_scan0[kk],
                        ) ==> crate::entropy_ranking::ranked_word(
                            *mdma_index,
                            matches_scan0[kk],
                        ).rank < best.unwrap().rank),
            decreases curr_matches@.len() - k,
        {
            let mut m = curr_matches[k];
            if m.is_valid {
                let ghost m_old = m;
                proof {
                    assert(crate::match_finder::match_range_common(m, buf, sa));
                }
                let w_opt = crate::entropy_ranking::rank(&mut m, mdma_index);
                curr_matches.set(k, m);
                proof {
                    // the updated candidate keeps its window facts, and a
                    // cleared overlap flag certifies the gap property
                    assert forall|kk: int|
                        0 <= kk < curr_matches@.len() implies crate::match_finder::match_range_common(
                        #[trigger] curr_matches@[kk],
                        buf,
                        sa,
                    ) by {
                        if kk != k as int {
                            assert(crate::match_finder::match_range_common(
                                curr_matches@[kk],
                                buf,
                                sa,
                            ));
                        }
                    }
                    assert forall|kk: int|
                        0 <= kk < curr_matches@.len() && !(#[trigger] curr_matches@[kk]).self_ref
                        implies crate::counting::gap_ok(
                        crate::counting::sorted_window(*mdma_index, curr_matches@[kk]),
                        mdma_index.offsets@,
                        curr_matches@[kk].len as int,
                    ) by {
                        if kk == k as int && m_old.self_ref {
                            crate::counting::lemma_flag_false_gap(
                                crate::counting::sorted_window(*mdma_index, m_old),
                                mdma_index.offsets@,
                                m_old.len as int,
                                0,
                                0,
                            );
                            assert(crate::counting::sorted_window(*mdma_index, curr_matches@[kk])
                                == crate::counting::sorted_window(*mdma_index, m_old));
                        }
                    }
                }
                if let Some(w) = w_opt {
                    proof {
                        lemma_commit_ok_from_rank(*mdma_index, m_old, w);
                        assert(matches_scan0[k as int].is_valid
                            && crate::entropy_ranking::rank_accepts(
                            *mdma_index,
                            matches_scan0[k as int],
                        ));
                    }
                    best = match best {
                        None => Some(w),
                        Some(b) => if w.rank > b.rank {
                            Some(w)
                        } else {
                            Some(b)
                        },
                    };
                }
            }
            k = k + 1;
        }
        match best {
            None => {
                proof {
                    if dict@.len() == 0 {
                        assert forall|kk: int|
                            0 <= kk < matches_init.len() implies !crate::entropy_ranking::rank_accepts(
                            *old(mdma_index),
                            #[trigger] matches_init[kk],
                        ) by {
                            assert(matches_scan0[kk] == matches_init[kk]);
                            assert(matches_init[kk].is_valid);
                            assert(!(matches_scan0[kk].is_valid
                                && crate::entropy_ranking::rank_accepts(
                                *mdma_index,
                                matches_scan0[kk],
                            )));
                        }
                    }
                }
                break ;
            },
            Some(w) => {
                let ghost dict0 = dict@;
                let ghost o_before = mdma_index.offsets@;
                let ghost ix_pre = *mdma_index;
                proof {
                    // on the first commit the scan's witness is an initially
                    // accepted candidate; afterwards one is already known
                    if dict@.len() == 0 {
                        let kk = choose|kk: int|
                            0 <= kk < matches_scan0.len() && matches_scan0[kk].is_valid
                                && crate::entropy_ranking::rank_accepts(
                                *mdma_index,
                                #[trigger] matches_scan0[kk],
                            );
                        assert(matches_scan0[kk] == matches_init[kk]);
                        assert(crate::entropy_ranking::rank_accepts(
                            *old(mdma_index),
                            matches_init[kk],
                        ));
                    }
                    assert(2 <= w.count);
                    assert(w.count * (w.len - 1) >= 2) by (nonlinear_arith)
                        requires
                            w.count >= 2 && w.len >= 2,
                    ;
                    assert(w.count as int <= w.count * (w.len - 1)) by (nonlinear_arith)
                        requires
                            w.count >= 0 && w.len >= 2,
                    ;
                    assert(w.count <= 0x7fff_ffff);
                    assert(dict@.len() < 0x4000_0000);
                }
                crate::splitting::split(&w, dict.len(), mdma_index, Ghost(dict@));
                dict.push(w);
                proof {
                    assert(mdma_index.model@ == ix_pre.model@);
                    assert(mdma_index.n == ix_pre.n);
                    assert(mdma_index.buf@ == ix_pre.buf@);
                    assert(crate::entropy_ranking::sym_ok(
                        mdma_index.buf@,
                        mdma_index.model@,
                        w.location as int,
                        w.len as int,
                        w.count as int,
                    ));
                }
                crate::entropy_ranking::update_model(&w, mdma_index);
                proof {
                    assert(dict@.drop_last() =~= dict0);
                    assert(dict@.last() == w);
                    assert(index_wf(*mdma_index, dict@));
                    // one word's spans were consumed out of the free positions
                    assert(w.count * (w.len as int) == w.count * ((w.len - 1) as int) + w.count)
                        by (nonlinear_arith);
                    assert(free_count(mdma_index.offsets@, 0) == free_count(o_before, 0) - (
                    w.count as int) * (w.len as int));
                    // the new word owns exactly its counted spans; older words
                    // keep theirs
                    assert forall|i: int|
                        0 <= i < dict@.len() implies spans_for(mdma_index.spans@, i) == (
                        #[trigger] dict@[i]).count by {
                        assert forall|a: int|
                            0 <= a < w.count implies (#[trigger] mdma_index.spans@[ix_pre.spans@.len()
                            + a]).word == dict0.len() by {
                            assert(mdma_index.spans@[ix_pre.spans@.len() + a] == (Span {
                                start: crate::counting::greedy_sel(
                                    crate::splitting::word_sorted(ix_pre, w),
                                    ix_pre.offsets@,
                                    w.len as int,
                                    0,
                                    0,
                                )[a],
                                word: dict0.len() as int,
                            }));
                        }
                        lemma_spans_for_append(
                            ix_pre.spans@,
                            mdma_index.spans@,
                            dict0.len() as int,
                            w.count as int,
                            i,
                        );
                        if i == dict0.len() {
                            assert forall|k: int|
                                0 <= k < ix_pre.spans@.len() implies (
                                #[trigger] ix_pre.spans@[k]).word != dict0.len() by {
                                assert(span_wf(ix_pre.spans@[k], dict0, ix_pre.buf@));
                            }
                            lemma_spans_for_absent(ix_pre.spans@, dict0.len() as int);
                        } else {
                            assert(dict@[i] == dict0[i]);
                        }
                    }
                    // the model lost count copies of the word's symbols, so
                    // the balance with the residual size is kept
                    lemma_sum_model_sub(
                        ix_pre.model@,
                        mdma_index.model@,
                        crate::entropy_ranking::word_slice(buf, w.location as int, w.len as int),
                        w.count as int,
                        0,
                    );
                    lemma_sum_bc_total(
                        crate::entropy_ranking::word_slice(buf, w.location as int, w.len as int),
                    );
                    assert((w.count as int) * (w.len as int) == (w.count as int) * ((w.len
                        - 1) as int) + w.count) by (nonlinear_arith);
                    // the gap property survives because occupancy only shrinks
                    assert forall|kk: int|
                        0 <= kk < curr_matches@.len() && !(#[trigger] curr_matches@[kk]).self_ref
                        implies crate::counting::gap_ok(
                        crate::counting::sorted_window(*mdma_index, curr_matches@[kk]),
                        mdma_index.offsets@,
                        curr_matches@[kk].len as int,
                    ) by {
                        let locs = crate::counting::sorted_window(*mdma_index, curr_matches@[kk]);
                        let len = curr_matches@[kk].len as int;
                        let o2 = mdma_index.offsets@;
                        assert(crate::counting::gap_ok(locs, o_before, len));
                        assert forall|j1: int, j2: int|
                            #![trigger locs[j1], locs[j2]]
                            0 <= j1 < j2 < locs.len() && crate::counting::qualifies(
                                o2,
                                locs[j1] as int,
                                len,
                            ) && crate::counting::qualifies(o2, locs[j2] as int, len) implies locs[j1]
                            + len <= locs[j2] by {
                            assert(o2[locs[j1] as int] <= o_before[locs[j1] as int]);
                            assert(o2[locs[j2] as int] <= o_before[locs[j2] as int]);
                            assert(crate::counting::qualifies(o_before, locs[j1] as int, len));
                            assert(crate::counting::qualifies(o_before, locs[j2] as int, len));
                        }
                    }
                }
            },
        }
    }
    proof {
        lemma_free_count_bounds(mdma_index.offsets@, 0);
        lemma_sum_counts_floor(dict@, buf);
        if dict@.len() == 0 {
            let cands = crate::match_finder::spec_generate(
                crate::suffix_array::lcp_of(old(mdma_index).buf@, old(mdma_index).sa@),
            );
            assert(cands == matches_init);
        }
    }
    dict
}

/// An accepted ranking result may be committed: everything `split` and
/// `update_model` need follows from the ranker's contract and the
/// candidate's window facts.
proof fn lemma_commit_ok_from_rank(ix: MdmaIndex, m: crate::match_finder::Match, w: Word)
    requires
        crate::entropy_ranking::rank_pre(m, ix),
        crate::match_finder::match_range_common(m, buf_of(ix), ix.sa@),
        crate::entropy_ranking::rank_accepts(ix, m),
        w == crate::entropy_ranking::ranked_word(ix, m),
        crate::entropy_ranking::ranked_word(ix, m).rank > 0,
        ix.buf@.len() == ix.offsets@.len(),
        offsets_bounded(ix.offsets@),
    ensures
        commit_ok(w, ix),
{
    let sel = crate::entropy_ranking::rank_sel(ix, m);
    let locs = crate::counting::sorted_window(ix, m);
    crate::counting::lemma_greedy_sel_props(locs, ix.offsets@, m.len as int, 0, 0);
    crate::counting::lemma_sorted_window_len(ix, m);
    assert(sel.len() >= 2);
    assert(sel.len() <= m.sa_count as int);
    assert(crate::counting::qualifies(ix.offsets@, sel[0], m.len as int));
    assert(w.location as int == sel[0]);
    assert(w.count as int == sel.len());
    // the representative location is inside the buffer
    assert(w.location + w.len <= ix.buf@.len());
    // the representative is one of the window's positions, so every window
    // position is byte-equal to it
    assert(locs.contains(sel[0] as usize));
    assert(crate::splitting::word_sorted(ix, w) == locs) by {
        assert(ix.sa@.subrange(w.sa_index as int, w.sa_index + w.sa_count) == ix.sa@.subrange(
            m.sa_index as int,
            m.sa_index + m.sa_count,
        ));
    }
    proof_common_from_member(ix, m, sel[0]);
}

/// A helper name for the buffer view, so lemma signatures stay readable.
pub open spec fn buf_of(ix: MdmaIndex) -> Seq<u8> {
    ix.buf@
}

/// If a position of the candidate's window is byte-equal to the window's
/// first suffix, then every window suffix is byte-equal to that position.
proof fn proof_common_from_member(ix: MdmaIndex, m: crate::match_finder::Match, loc: int)
    requires
        crate::match_finder::match_range_common(m, ix.buf@, ix.sa@),
        m.sa_index + m.sa_count <= ix.sa@.len(),
        crate::counting::sorted_window(ix, m).contains(loc as usize),
        0 <= loc <= usize::MAX,
    ensures
        forall|j: int|
            m.sa_index <= j < m.sa_index + m.sa_count ==> common_pfx(
                ix.buf@,
                loc,
                #[trigger] ix.sa@[j] as int,
                m.len as int,
            ),
{
    broadcast use vstd::seq_lib::group_to_multiset_ensures;

    let buf = ix.buf@;
    let sa = ix.sa@;
    let locs = crate::counting::sorted_window(ix, m);
    let w = crate::counting::sa_window(ix, m);
    w.lemma_sort_by_ensures(crate::counting::le_usize());
    assert(locs.to_multiset() == w.to_multiset());
    assert(locs.contains(loc as usize));
    assert(locs.to_multiset().contains(loc as usize));
    assert(w.to_multiset().contains(loc as usize));
    assert(w.contains(loc as usize));
    let b = choose|b: int| 0 <= b < w.len() && w[b] == loc as usize;
    assert(sa[m.sa_index + b] == loc as usize);
    assert(common_pfx(buf, sa[m.sa_index as int] as int, sa[m.sa_index + b] as int, m.len as int));
    assert(sa[m.sa_index + b] as int == loc);
    assert(common_pfx(buf, sa[m.sa_index as int] as int, loc, m.len as int));
    assert forall|j: int| m.sa_index <= j < m.sa_index + m.sa_count implies common_pfx(
        buf,
        loc,
        #[trigger] sa[j] as int,
        m.len as int,
    ) by {
        assert(common_pfx(buf, sa[m.sa_index as int] as int, sa[j] as int, m.len as int));
        let first = sa[m.sa_index as int] as int;
        assert forall|kk: int| 0 <= kk < m.len implies buf[loc + kk] == #[trigger] buf[sa[j] as int
            + kk] by {
            assert(buf[first + kk] == buf[loc + kk]);
            assert(buf[first + kk] == buf[sa[j] as int + kk]);
        }
    }
}

} // verus!
