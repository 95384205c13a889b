//! Consuming the winning word's occurrences in the occupancy array.
//!
//! The splitter walks the word's occurrence positions in ascending order,
//! marks every still-free span as consumed with the word's token, and then
//! repairs the free-run lengths of the positions before the span by walking
//! backward to the previous consumed position. The set of spans it consumes
//! is exactly the greedy selection that the ranker counted.

use crate::builder::{
    index_wf, lemma_nc_char, lemma_nc_props, next_consumed, occupancy_wf, span_covers, span_wf,
    word_wf, words_wf, Span, MdmaIndex, Word,
};
use crate::builder::lemma_occupancy_words_push;
use crate::counting::{greedy_sel, le_usize, qualifies, sort_ascending};
use crate::suffix_array::common_pfx;
use vstd::prelude::*;

verus! {

/// The word's occurrence positions, in ascending buffer order.
pub open spec fn word_sorted(ix: MdmaIndex, w: Word) -> Seq<usize> {
    ix.sa@.subrange(w.sa_index as int, w.sa_index + w.sa_count).sort_by(le_usize())
}

/// Consuming one fully free span and repairing the free runs before it
/// preserves the occupancy invariant, extended by the new span.
proof fn lemma_consume_span(
    o: Seq<i32>,
    o2: Seq<i32>,
    spans: Seq<Span>,
    words2: Seq<Word>,
    buf: Seq<u8>,
    loc: int,
    x: int,
    w_idx: int,
)
    requires
        occupancy_wf(o, spans, words2, buf),
        words_wf(words2, buf),
        0 <= w_idx < words2.len(),
        words2.len() <= 0x4000_0000,
        2 <= words2[w_idx].len,
        0 <= loc,
        loc + words2[w_idx].len <= buf.len(),
        o2.len() == o.len(),
        o[loc] >= words2[w_idx].len - 1,
        common_pfx(buf, words2[w_idx].location as int, loc, words2[w_idx].len as int),
        0 <= x <= loc,
        x > 0 ==> o[x - 1] < 0,
        forall|q: int| x <= q < loc ==> #[trigger] o[q] >= 0,
        forall|p: int|
            0 <= p < o.len() ==> #[trigger] o2[p] as int == (if loc <= p < loc + words2[w_idx].len {
                -256 - w_idx
            } else if x <= p < loc {
                loc - p - 1
            } else {
                o[p] as int
            }),
    ensures
        occupancy_wf(o2, spans.push(Span { start: loc, word: w_idx }), words2, buf),
        forall|p: int| 0 <= p < o.len() ==> #[trigger] o2[p] <= o[p],
{
    let nn = buf.len() as int;
    let lw = words2[w_idx].len as int;
    let ns = Span { start: loc, word: w_idx };
    let spans2 = spans.push(ns);
    lemma_nc_props(o, loc);
    let nc0 = next_consumed(o, loc);
    assert(o[loc] == nc0 - loc - 1);
    assert(nc0 >= loc + lw);
    // the whole span was free
    assert forall|p: int| loc <= p < loc + lw implies #[trigger] o[p] >= 0 by {
        if p > loc {
            assert(loc < p < nc0);
        }
    }
    // span_wf of the new span
    assert(span_wf(ns, words2, buf));
    // tokens: old spans are unchanged, the new span holds its token
    assert forall|k: int, p: int|
        #![trigger spans2[k], o2[p]]
        0 <= k < spans2.len() && span_covers(spans2[k], words2, p) implies o2[p] == -256
        - spans2[k].word by {
        if k < spans.len() {
            assert(span_covers(spans[k], words2, p));
            assert(o[p] == -256 - spans[k].word);
            assert(o[p] < 0);
            assert(!(x <= p < loc + lw));
            assert(o2[p] == o[p]);
        }
    }
    // consumed positions are covered by a span
    assert forall|p: int| 0 <= p < nn && #[trigger] o2[p] < 0 implies exists|k: int|
        0 <= k < spans2.len() && #[trigger] span_covers(spans2[k], words2, p) by {
        if loc <= p < loc + lw {
            assert(span_covers(spans2[spans.len() as int], words2, p));
        } else {
            assert(o2[p] == o[p]);
            let k = choose|k: int|
                0 <= k < spans.len() && #[trigger] span_covers(spans[k], words2, p);
            assert(spans2[k] == spans[k]);
            assert(span_covers(spans2[k], words2, p));
        }
    }
    // consumed positions hold proper tokens
    assert forall|p: int| 0 <= p < nn && #[trigger] o2[p] < 0 implies o2[p] <= -256 by {
        if loc <= p < loc + lw {
        } else if x <= p < loc {
        } else {
            assert(o2[p] == o[p]);
        }
    }
    // disjointness: the new span overlaps no old one
    assert forall|k1: int, k2: int|
        0 <= k1 < k2 < spans2.len() implies ((#[trigger] spans2[k1]).start
        + words2[spans2[k1].word].len <= (#[trigger] spans2[k2]).start || spans2[k2].start
        + words2[spans2[k2].word].len <= spans2[k1].start) by {
        if k2 == spans.len() {
            let s1 = spans[k1].start;
            let e1 = s1 + words2[spans[k1].word].len;
            assert(span_wf(spans[k1], words2, buf));
            assert(word_wf(words2[spans[k1].word], buf));
            assert(e1 >= s1 + 2);
            if !(e1 <= loc || loc + lw <= s1) {
                let p = if s1 > loc {
                    s1
                } else {
                    loc
                };
                assert(span_covers(spans[k1], words2, p));
                assert(o[p] == -256 - spans[k1].word);
                assert(loc <= p < loc + lw);
                assert(o[p] >= 0);
            }
        }
    }
    // free runs
    assert forall|p: int| 0 <= p < nn && #[trigger] o2[p] >= 0 implies o2[p] == next_consumed(
        o2,
        p,
    ) - p - 1 by {
        if p >= loc + lw {
            assert(o2[p] == o[p]);
            lemma_nc_props(o, p);
            let q = next_consumed(o, p);
            assert forall|r: int| p < r < q implies #[trigger] o2[r] >= 0 by {
                assert(o[r] >= 0);
                assert(o2[r] == o[r]);
            }
            if q < nn {
                assert(o2[q] == o[q]);
            }
            lemma_nc_char(o2, p, q);
        } else if x <= p < loc {
            assert(o2[p] == loc - p - 1);
            assert forall|r: int| p < r < loc implies #[trigger] o2[r] >= 0 by {}
            assert(o2[loc] == -256 - w_idx);
            lemma_nc_char(o2, p, loc);
        } else if p < x {
            assert(o2[p] == o[p]);
            lemma_nc_props(o, p);
            let q = next_consumed(o, p);
            assert(x > 0 && o[x - 1] < 0);
            assert(q <= x - 1) by {
                if q > x - 1 {
                    assert(p < x - 1 < q);
                    assert(o[x - 1] >= 0);
                }
            }
            assert forall|r: int| p < r < q implies #[trigger] o2[r] >= 0 by {
                assert(o[r] >= 0);
                assert(r < x);
                assert(o2[r] == o[r]);
            }
            assert(o2[q] == o[q]);
            lemma_nc_char(o2, p, q);
        }
    }
    // occupancy only ever shrinks
    assert forall|p: int| 0 <= p < o.len() implies #[trigger] o2[p] <= o[p] by {
        if loc <= p < loc + lw {
            assert(o[p] >= 0);
        } else if x <= p < loc {
            lemma_nc_props(o, p);
            let q = next_consumed(o, p);
            assert(o[p] == q - p - 1);
            assert(q > loc) by {
                if q <= loc {
                    assert(p < q <= loc);
                    assert(o[q] >= 0);
                }
            }
        }
    }
}


/// Consuming one span of `lw` previously free positions lowers the free
/// count by exactly `lw`; the backward repair keeps its positions free.
proof fn lemma_free_count_consume(
    o: Seq<i32>,
    o2: Seq<i32>,
    loc: int,
    x: int,
    lw: int,
    w_idx: int,
    i: int,
)
    requires
        o2.len() == o.len(),
        1 <= lw,
        0 <= x <= loc,
        loc + lw <= o.len(),
        0 <= w_idx,
        forall|p: int| loc <= p < loc + lw ==> #[trigger] o[p] >= 0,
        forall|q: int| x <= q < loc ==> #[trigger] o[q] >= 0,
        forall|p: int|
            0 <= p < o.len() ==> #[trigger] o2[p] as int == (if loc <= p < loc + lw {
                -256 - w_idx
            } else if x <= p < loc {
                loc - p - 1
            } else {
                o[p] as int
            }),
        0 <= i <= o.len(),
    ensures
        crate::builder::free_count(o2, i) == crate::builder::free_count(o, i) - (if i <= loc {
            lw
        } else if i < loc + lw {
            loc + lw - i
        } else {
            0
        }),
    decreases o.len() - i,
{
    if i < o.len() {
        lemma_free_count_consume(o, o2, loc, x, lw, w_idx, i + 1);
    }
}

/// Consumes the winning word's occurrences: sorts its suffix-array window,
/// marks every still-free span with the word's token, and repairs the free
/// runs before each consumed span by walking backward. The consumed spans
/// are exactly the greedy selection over the occupancy array as it stood
/// when the word was ranked.
pub fn split(
    word: &Word,
    word_idx: usize,
    mdma_index: &mut MdmaIndex,
    Ghost(words): Ghost<Seq<Word>>,
)
    requires
        index_wf(*old(mdma_index), words),
        word_idx == words.len(),
        words.len() < 0x4000_0000,
        word_wf(*word, old(mdma_index).buf@),
        word.sa_index + word.sa_count <= old(mdma_index).sa@.len(),
        1 <= word.sa_count,
        forall|j: int|
            word.sa_index <= j < word.sa_index + word.sa_count ==> common_pfx(
                old(mdma_index).buf@,
                word.location as int,
                #[trigger] old(mdma_index).sa@[j] as int,
                word.len as int,
            ),
    ensures
        index_wf(*final(mdma_index), words.push(*word)),
        final(mdma_index).buf == old(mdma_index).buf,
        final(mdma_index).sa == old(mdma_index).sa,
        final(mdma_index).model == old(mdma_index).model,
        final(mdma_index).n == old(mdma_index).n,
        ({
            let sel = greedy_sel(
                word_sorted(*old(mdma_index), *word),
                old(mdma_index).offsets@,
                word.len as int,
                0,
                0,
            );
            let spans0 = old(mdma_index).spans@;
            &&& final(mdma_index).spans@.len() == spans0.len() + sel.len()
            &&& forall|k: int| 0 <= k < spans0.len() ==> final(mdma_index).spans@[k] == spans0[k]
            &&& forall|a: int|
                0 <= a < sel.len() ==> final(mdma_index).spans@[spans0.len() + a] == (Span {
                    start: sel[a],
                    word: word_idx as int,
                })
            &&& crate::builder::free_count(final(mdma_index).offsets@, 0) == crate::builder::free_count(
                old(mdma_index).offsets@,
                0,
            ) - sel.len() * word.len
        }),
        forall|p: int|
            0 <= p < old(mdma_index).offsets@.len() ==> #[trigger] final(mdma_index).offsets@[p]
                <= old(mdma_index).offsets@[p],
{
    let ghost words2 = words.push(*word);
    let ghost buf = mdma_index.buf@;
    let ghost o0 = mdma_index.offsets@;
    let ghost spans0 = mdma_index.spans@;
    let ghost nn = buf.len() as int;
    proof {
        lemma_occupancy_words_push(o0, spans0, words, buf, *word);
        assert(words_wf(words2, buf)) by {
            assert forall|w: int| 0 <= w < words2.len() implies word_wf(
                #[trigger] words2[w],
                buf,
            ) by {
                if w < words.len() {
                    assert(word_wf(words[w], buf));
                }
            }
        }
    }
    // collect and sort the occurrence positions
    let start = word.sa_index as usize;
    let cnt = word.sa_count as usize;
    let mut locations: Vec<usize> = Vec::new();
    let mut j: usize = 0;
    while j < cnt
        invariant
            j <= cnt,
            start == word.sa_index,
            cnt == word.sa_count,
            start + cnt <= mdma_index.sa@.len(),
            mdma_index.sa@.len() <= 0x7fff_ffff,
            locations@ == mdma_index.sa@.subrange(start as int, start + j),
        decreases cnt - j,
    {
        locations.push(mdma_index.sa[start + j]);
        proof {
            assert(locations@ =~= mdma_index.sa@.subrange(start as int, start + j + 1));
        }
        j = j + 1;
    }
    sort_ascending(&mut locations);
    let ghost locs = locations@;
    let ghost glen = word.len as int;
    let ghost sel = greedy_sel(locs, o0, glen, 0, 0);
    proof {
        broadcast use vstd::seq_lib::group_to_multiset_ensures;

        assert(locs == word_sorted(*old(mdma_index), *word));
        let w = mdma_index.sa@.subrange(start as int, start + cnt);
        w.lemma_sort_by_ensures(le_usize());
        assert(locs.to_multiset() == w.to_multiset());
        // every element of locs is a window position: bounded and byte-equal
        // to the word at its representative location
        assert forall|a: int| 0 <= a < locs.len() implies (#[trigger] locs[a] as int) < nn
            && common_pfx(buf, word.location as int, locs[a] as int, glen) by {
            assert(locs.contains(locs[a]));
            assert(locs.to_multiset().contains(locs[a]));
            assert(w.to_multiset().contains(locs[a]));
            assert(w.contains(locs[a]));
            let b = choose|b: int| 0 <= b < w.len() && w[b] == locs[a];
            assert(mdma_index.sa@[start + b] == locs[a]);
            assert(common_pfx(buf, word.location as int, mdma_index.sa@[start + b] as int, glen));
        }
        // ascending order
        assert forall|a: int, b: int| 0 <= a < b < locs.len() implies locs[a] <= locs[b] by {
            assert(le_usize()(locs[a], locs[b]));
        }
    }
    let eff: i32 = word.len as i32 - 1;
    let word_len = word.len as usize;
    let token: i32 = -256 - (word_idx as i32);
    let mut i: usize = 0;
    let ghost mut accepted: Seq<int> = Seq::empty();
    let ghost mut last_end: int = 0;
    while i < locations.len()
        invariant
            locations@ == locs,
            i <= locs.len(),
            mdma_index.buf == old(mdma_index).buf,
            mdma_index.sa == old(mdma_index).sa,
            mdma_index.model == old(mdma_index).model,
            mdma_index.n == old(mdma_index).n,
            buf == mdma_index.buf@,
            nn == buf.len() as int,
            nn <= 0x7fff_ffff,
            o0.len() == nn,
            mdma_index.offsets@.len() == nn,
            glen == word.len as int,
            2 <= glen <= 65535,
            word_idx < 0x4000_0000,
            token == -256 - word_idx,
            eff == glen - 1,
            word_len == glen,
            words2 == words.push(*word),
            words_wf(words2, buf),
            word_idx == words2.len() - 1,
            words2[word_idx as int] == *word,
            word.location + glen <= nn,
            occupancy_wf(mdma_index.offsets@, mdma_index.spans@, words2, buf),
            sel == greedy_sel(locs, o0, glen, 0, 0),
            sel == accepted + greedy_sel(locs, o0, glen, i as int, last_end),
            mdma_index.spans@.len() == spans0.len() + accepted.len(),
            crate::builder::free_count(mdma_index.offsets@, 0) == crate::builder::free_count(
                o0,
                0,
            ) - accepted.len() * glen,
            forall|k: int| 0 <= k < spans0.len() ==> mdma_index.spans@[k] == spans0[k],
            forall|a: int|
                0 <= a < accepted.len() ==> mdma_index.spans@[spans0.len() + a] == (Span {
                    start: accepted[a],
                    word: word_idx as int,
                }),
            forall|p: int| 0 <= p < nn ==> #[trigger] mdma_index.offsets@[p] <= o0[p],
            forall|a: int| 0 <= a < locs.len() ==> (#[trigger] locs[a] as int) < nn,
            forall|a: int|
                0 <= a < locs.len() ==> common_pfx(
                    buf,
                    word.location as int,
                    #[trigger] locs[a] as int,
                    glen,
                ),
            forall|a: int, b: int| 0 <= a < b < locs.len() ==> locs[a] <= locs[b],
            forall|jj: int|
                i <= jj < locs.len() ==> ((locs[jj] as int >= last_end
                    ==> #[trigger] mdma_index.offsets@[locs[jj] as int] == o0[locs[jj] as int]) && (
                (locs[jj] as int) < last_end ==> mdma_index.offsets@[locs[jj] as int] <= -256)),
            0 <= last_end,
        decreases locs.len() - i,
    {
        let loc = locations[i];
        if mdma_index.offsets[loc] >= eff {
            let ghost o_pre = mdma_index.offsets@;
            let ghost spans_pre = mdma_index.spans@;
            proof {
                // this occurrence is exactly the next greedy pick
                assert(loc as int >= last_end);
                assert(o_pre[loc as int] == o0[loc as int]);
                assert(qualifies(o0, loc as int, glen));
                assert(greedy_sel(locs, o0, glen, i as int, last_end) == seq![loc as int]
                    + greedy_sel(locs, o0, glen, i + 1, loc + glen));
                // its whole span is in the buffer
                lemma_nc_props(o_pre, loc as int);
                assert(o_pre[loc as int] == next_consumed(o_pre, loc as int) - loc - 1);
                assert(loc + glen <= nn);
            }
            // mark the span consumed
            let mut k: usize = 0;
            while k < word_len
                invariant
                    k <= word_len,
                    loc + word_len <= nn,
                    mdma_index.offsets@.len() == nn,
                    nn <= 0x7fff_ffff,
                    forall|p: int|
                        0 <= p < nn ==> #[trigger] mdma_index.offsets@[p] == (if loc <= p < loc
                            + k {
                            token
                        } else {
                            o_pre[p]
                        }),
                    mdma_index.buf == old(mdma_index).buf,
                    mdma_index.sa == old(mdma_index).sa,
                    mdma_index.model == old(mdma_index).model,
                    mdma_index.n == old(mdma_index).n,
                    mdma_index.spans@ == spans_pre,
                decreases word_len - k,
            {
                mdma_index.offsets.set(loc + k, token);
                k = k + 1;
            }
            // repair the free runs before the span
            let mut x: usize = loc;
            while x > 0 && mdma_index.offsets[x - 1] >= 0
                invariant
                    x <= loc,
                    loc + word_len <= nn,
                    mdma_index.offsets@.len() == nn,
                    nn <= 0x7fff_ffff,
                    forall|p: int|
                        0 <= p < nn ==> #[trigger] mdma_index.offsets@[p] == (if loc <= p < loc
                            + word_len {
                            token
                        } else if x <= p < loc {
                            (loc - p - 1) as i32
                        } else {
                            o_pre[p]
                        }),
                    forall|q: int| x <= q < loc ==> #[trigger] o_pre[q] >= 0,
                    mdma_index.buf == old(mdma_index).buf,
                    mdma_index.sa == old(mdma_index).sa,
                    mdma_index.model == old(mdma_index).model,
                    mdma_index.n == old(mdma_index).n,
                    mdma_index.spans@ == spans_pre,
                decreases x,
            {
                proof {
                    assert(mdma_index.offsets@[x - 1] == o_pre[x - 1]);
                }
                mdma_index.offsets.set(x - 1, (loc - x) as i32);
                x = x - 1;
            }
            proof {
                if x > 0 {
                    assert(mdma_index.offsets@[x - 1] < 0);
                    assert(o_pre[x - 1] < 0);
                }
                lemma_consume_span(
                    o_pre,
                    mdma_index.offsets@,
                    spans_pre,
                    words2,
                    buf,
                    loc as int,
                    x as int,
                    word_idx as int,
                );
                mdma_index.spans@ = spans_pre.push(
                    Span { start: loc as int, word: word_idx as int },
                );
                assert(sel == (accepted + seq![loc as int]) + greedy_sel(
                    locs,
                    o0,
                    glen,
                    i + 1,
                    loc + glen,
                )) by {
                    assert(accepted + (seq![loc as int] + greedy_sel(
                        locs,
                        o0,
                        glen,
                        i + 1,
                        loc + glen,
                    )) =~= (accepted + seq![loc as int]) + greedy_sel(
                        locs,
                        o0,
                        glen,
                        i + 1,
                        loc + glen,
                    ));
                }
                accepted = accepted + seq![loc as int];
                let ghost o2 = mdma_index.offsets@;
                // one span of glen free positions was consumed
                assert(o_pre[loc as int] == next_consumed(o_pre, loc as int) - loc - 1);
                lemma_nc_props(o_pre, loc as int);
                assert forall|p: int| loc <= p < loc + glen implies #[trigger] o_pre[p] >= 0 by {
                    if p > loc {
                        assert(loc < p < next_consumed(o_pre, loc as int));
                    }
                }
                lemma_free_count_consume(
                    o_pre,
                    o2,
                    loc as int,
                    x as int,
                    glen,
                    word_idx as int,
                    0,
                );
                assert(accepted.len() * glen == (accepted.len() - 1) * glen + glen)
                    by (nonlinear_arith)
                    requires
                        accepted.len() >= 1,
                ;
                // occupancy only shrank, so the old bound to o0 carries over
                assert forall|p: int| 0 <= p < nn implies #[trigger] o2[p] <= o0[p] by {
                    assert(o2[p] <= o_pre[p]);
                }
                // the not-yet-visited positions keep their relation to o0
                assert forall|jj: int|
                    i + 1 <= jj < locs.len() implies ((locs[jj] as int >= loc + glen
                    ==> #[trigger] o2[locs[jj] as int] == o0[locs[jj] as int]) && ((locs[jj] as int)
                    < loc + glen ==> o2[locs[jj] as int] <= -256)) by {
                    assert(locs[i as int] <= locs[jj]);
                    if locs[jj] as int >= loc + glen {
                        assert(o2[locs[jj] as int] == o_pre[locs[jj] as int]);
                        assert(o_pre[locs[jj] as int] == o0[locs[jj] as int]);
                    } else {
                        assert(loc <= locs[jj]);
                        assert((locs[jj] as int) < loc + glen);
                        assert(o2[locs[jj] as int] == token);
                    }
                }
                last_end = loc + glen;
            }
        } else {
            proof {
                if (loc as int) < last_end {
                    assert(greedy_sel(locs, o0, glen, i as int, last_end) == greedy_sel(
                        locs,
                        o0,
                        glen,
                        i + 1,
                        last_end,
                    ));
                } else {
                    assert(mdma_index.offsets@[loc as int] == o0[loc as int]);
                    assert(!qualifies(o0, loc as int, glen));
                    assert(greedy_sel(locs, o0, glen, i as int, last_end) == greedy_sel(
                        locs,
                        o0,
                        glen,
                        i + 1,
                        last_end,
                    ));
                }
            }
        }
        i = i + 1;
    }
    proof {
        assert(greedy_sel(locs, o0, glen, locs.len() as int, last_end) =~= Seq::<int>::empty());
        assert(sel =~= accepted);
    }
}

} // verus!
