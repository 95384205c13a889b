//! Entropy-based ranking of candidate words, and the model update applied
//! after a word is committed.
//!
//! The rank of a candidate is the estimated reduction, in Q16 fixed-point
//! bits, of the order-0 entropy of the residual corpus if all chosen
//! occurrences were substituted by one dictionary reference, net of a fixed
//! per-word dictionary overhead of 8·(len+1) bits.

use crate::builder::{byte_count, offsets_bounded, MdmaIndex, Word};
use crate::builder::{lemma_byte_count_bounds, lemma_byte_count_prefix_le};
use crate::counting::{count, count_pre, gap_ok, greedy_flag, greedy_sel, qualifies, sorted_window};
use crate::counting::{lemma_greedy_sel_props, lemma_sorted_window_len};
use crate::fast_log2::{spec_xlog2_q16, xlog2_q16};
use crate::match_finder::Match;
use vstd::prelude::*;

verus! {

/// The representative occurrence's bytes.
pub open spec fn word_slice(buf: Seq<u8>, loc: int, len: int) -> Seq<u8> {
    buf.subrange(loc, loc + len)
}

/// Substituting `cnt` occurrences leaves every symbol of the word with a
/// positive residual frequency; a candidate that would drive one to zero or
/// below is degenerate and is rejected.
pub open spec fn sym_ok(buf: Seq<u8>, model: Seq<i64>, loc: int, len: int, cnt: int) -> bool {
    forall|s: int|
        0 <= s < 256 && byte_count(word_slice(buf, loc, len), s as u8) > 0 ==> #[trigger] model[s]
            - byte_count(word_slice(buf, loc, len), s as u8) * cnt >= 1
}

/// The entropy contribution of symbol `s`: how much the symbol's share of
/// the residual entropy shrinks when `cnt` copies of the word are removed.
pub open spec fn term(model: Seq<i64>, slice: Seq<u8>, cnt: int, s: int) -> int {
    let c_s = byte_count(slice, s as u8);
    if c_s > 0 {
        spec_xlog2_q16(model[s] - c_s * cnt) - spec_xlog2_q16(model[s] as int)
    } else {
        0
    }
}

/// Sum of the entropy contributions of symbols `s .. 256`.
pub open spec fn sum_terms(model: Seq<i64>, slice: Seq<u8>, cnt: int, s: int) -> int
    decreases 256 - s
        when 0 <= s <= 256
{
    if s >= 256 {
        0
    } else {
        term(model, slice, cnt, s) + sum_terms(model, slice, cnt, s + 1)
    }
}

/// The rank of a candidate with representative location `loc`, length `len`
/// and occurrence count `cnt`, against residual size `n`: per-symbol entropy
/// reduction, plus count and residual-size corrections, minus the dictionary
/// overhead of 8·(len+1) bits.
pub open spec fn spec_rank(
    buf: Seq<u8>,
    model: Seq<i64>,
    n: int,
    loc: int,
    len: int,
    cnt: int,
) -> int {
    let slice = word_slice(buf, loc, len);
    let n1 = n - cnt * (len - 1);
    sum_terms(model, slice, cnt, 0) + spec_xlog2_q16(cnt) - spec_xlog2_q16(n1) + spec_xlog2_q16(n)
        - 8 * 65536 * (len + 1)
}

/// The occurrences the ranker credits to a candidate.
pub open spec fn rank_sel(ix: MdmaIndex, m: Match) -> Seq<int> {
    greedy_sel(sorted_window(ix, m), ix.offsets@, m.len as int, 0, 0)
}

/// When the ranker accepts a candidate: at least two usable occurrences, no
/// degenerate symbol, a positive residual size after substitution, and a
/// strictly positive rank.
pub open spec fn rank_accepts(ix: MdmaIndex, m: Match) -> bool {
    let sel = rank_sel(ix, m);
    &&& sel.len() >= 2
    &&& sym_ok(ix.buf@, ix.model@, sel[0], m.len as int, sel.len() as int)
    &&& ix.n - sel.len() * (m.len - 1) >= 1
    &&& spec_rank(ix.buf@, ix.model@, ix.n as int, sel[0], m.len as int, sel.len() as int) > 0
}

/// The word an accepted candidate turns into.
pub open spec fn ranked_word(ix: MdmaIndex, m: Match) -> Word {
    let sel = rank_sel(ix, m);
    Word {
        rank: spec_rank(
            ix.buf@,
            ix.model@,
            ix.n as int,
            sel[0],
            m.len as int,
            sel.len() as int,
        ) as i64,
        location: sel[0] as usize,
        sa_index: m.sa_index,
        sa_count: m.sa_count,
        count: sel.len() as u32,
        len: m.len,
    }
}

/// What ranking needs of a candidate and the corpus index.
pub open spec fn rank_pre(m: Match, ix: MdmaIndex) -> bool {
    &&& count_pre(m, ix)
    &&& m.is_valid
    &&& (!m.self_ref ==> gap_ok(sorted_window(ix, m), ix.offsets@, m.len as int))
    &&& ix.buf@.len() == ix.offsets@.len()
    &&& offsets_bounded(ix.offsets@)
    &&& ix.model@.len() == 256
    &&& forall|s: int| 0 <= s < 256 ==> 0 <= #[trigger] ix.model@[s] <= 0x7fff_ffff
    &&& ix.n <= 0x7fff_ffff
}

/// Ranks a candidate: counts its usable occurrences, computes its entropy
/// gain over the representative occurrence's symbols, and either returns the
/// accepted word or invalidates the candidate. Succeeds exactly when
/// `rank_accepts` holds.
pub fn rank(m: &mut Match, mdma_index: &MdmaIndex) -> (w: Option<Word>)
    requires
        rank_pre(*old(m), *mdma_index),
    ensures
        final(m).sa_index == old(m).sa_index,
        final(m).sa_count == old(m).sa_count,
        final(m).len == old(m).len,
        final(m).self_ref == (old(m).self_ref && greedy_flag(
            sorted_window(*mdma_index, *old(m)),
            mdma_index.offsets@,
            old(m).len as int,
            0,
            0,
        )),
        final(m).is_valid == rank_accepts(*mdma_index, *old(m)),
        w == if rank_accepts(*mdma_index, *old(m)) {
            Some(ranked_word(*mdma_index, *old(m)))
        } else {
            None::<Word>
        },
        rank_accepts(*mdma_index, *old(m)) ==> ranked_word(*mdma_index, *old(m)).rank > 0,
{
    let ghost m0 = *m;
    let ghost sel = rank_sel(*mdma_index, *m);
    let ghost o = mdma_index.offsets@;
    let ghost buf = mdma_index.buf@;
    let ghost model = mdma_index.model@;
    proof {
        lemma_greedy_sel_props(sorted_window(*mdma_index, *m), o, m.len as int, 0, 0);
        lemma_sorted_window_len(*mdma_index, *m);
    }
    let (cnt, loc) = count(m, mdma_index);
    if cnt < 2 {
        m.is_valid = false;
        return None;
    }
    // the representative occurrence qualifies, so its span is in the buffer
    proof {
        assert(qualifies(o, loc as int, m0.len as int));
        assert(loc + m0.len <= buf.len());
    }
    let len = m.len as usize;
    let ghost slice = word_slice(buf, loc as int, m0.len as int);
    // count the symbols of the representative occurrence
    let mut sym_counts: Vec<i64> = Vec::new();
    let mut s: usize = 0;
    while s < 256
        invariant
            sym_counts@.len() == s <= 256,
            forall|t: int| 0 <= t < s ==> #[trigger] sym_counts@[t] == 0,
        decreases 256 - s,
    {
        sym_counts.push(0);
        s = s + 1;
    }
    let mut k: usize = 0;
    while k < len
        invariant
            k <= len,
            len == m.len,
            m.len == m0.len,
            loc + len <= mdma_index.buf@.len(),
            mdma_index.buf@.len() <= 0x7fff_ffff,
            buf == mdma_index.buf@,
            slice == word_slice(buf, loc as int, len as int),
            sym_counts@.len() == 256,
            forall|t: int|
                0 <= t < 256 ==> #[trigger] sym_counts@[t] == byte_count(
                    buf.subrange(loc as int, loc + k),
                    t as u8,
                ),
            forall|t: int| 0 <= t < 256 ==> 0 <= #[trigger] sym_counts@[t] <= k,
        decreases len - k,
    {
        let b = mdma_index.buf[loc + k] as usize;
        let cur = sym_counts[b];
        sym_counts.set(b, cur + 1);
        proof {
            assert forall|t: int| 0 <= t < 256 implies #[trigger] sym_counts@[t] == byte_count(
                buf.subrange(loc as int, loc + k + 1),
                t as u8,
            ) by {
                assert(buf.subrange(loc as int, loc + k + 1).drop_last() =~= buf.subrange(
                    loc as int,
                    loc + k,
                ));
                assert(buf.subrange(loc as int, loc + k + 1).last() == buf[loc + k]);
            }
        }
        k = k + 1;
    }
    proof {
        assert(buf.subrange(loc as int, loc + len) =~= slice);
    }
    let n_i64: i64 = mdma_index.n as i64;
    let cnt_i64: i64 = cnt as i64;
    let len_i64: i64 = m.len as i64;
    proof {
        assert(cnt as int <= m0.sa_count as int);
        assert(cnt_i64 * (len_i64 - 1) <= 0x7fff_ffff * 65535) by (nonlinear_arith)
            requires
                0 <= cnt_i64 <= 0x7fff_ffff && 0 <= len_i64 - 1 <= 65535,
        ;
        assert(cnt_i64 * (len_i64 - 1) >= 0) by (nonlinear_arith)
            requires
                cnt_i64 >= 0 && len_i64 >= 1,
        ;
    }
    let n1: i64 = n_i64 - cnt_i64 * (len_i64 - 1);
    if n1 < 1 {
        m.is_valid = false;
        return None;
    }
    let mut acc: i64 = 0;
    let mut s: usize = 0;
    while s < 256
        invariant
            s <= 256,
            len == m.len,
            m0 == *old(m),
            m.len == m0.len,
            m.sa_index == m0.sa_index,
            m.sa_count == m0.sa_count,
            m.is_valid == m0.is_valid,
            m.self_ref == (m0.self_ref && greedy_flag(
                sorted_window(*mdma_index, m0),
                mdma_index.offsets@,
                m0.len as int,
                0,
                0,
            )),
            2 <= cnt,
            cnt <= 0x7fff_ffff,
            cnt as int == sel.len(),
            sel == rank_sel(*mdma_index, m0),
            loc as int == sel[0],
            loc + len <= buf.len(),
            slice == word_slice(buf, loc as int, m0.len as int),
            n_i64 == mdma_index.n,
            len_i64 == m0.len,
            n1 == n_i64 - cnt_i64 * (len_i64 - 1),
            n1 >= 1,
            buf == mdma_index.buf@,
            model == mdma_index.model@,
            model.len() == 256,
            forall|t: int| 0 <= t < 256 ==> 0 <= #[trigger] model[t] <= 0x7fff_ffff,
            cnt_i64 == cnt as i64,
            sym_counts@.len() == 256,
            forall|t: int|
                0 <= t < 256 ==> #[trigger] sym_counts@[t] == byte_count(slice, t as u8),
            forall|t: int| 0 <= t < 256 ==> 0 <= #[trigger] sym_counts@[t] <= 65535,
            sum_terms(model, slice, cnt as int, 0) == acc + sum_terms(model, slice, cnt as int, s as int),
            -0x2000_0000_0000_0000 <= acc as int <= 0x2000_0000_0000_0000,
            acc as int <= s * 0x10_0000_0000_0000,
            acc as int >= -(s * 0x10_0000_0000_0000),
            forall|t: int|
                0 <= t < s && byte_count(slice, t as u8) > 0 ==> #[trigger] model[t] - byte_count(
                    slice,
                    t as u8,
                ) * (cnt as int) >= 1,
        decreases 256 - s,
    {
        let c_s = sym_counts[s];
        if c_s != 0 {
            let cx = mdma_index.model[s];
            proof {
                assert(c_s * cnt_i64 <= 65535 * 0x7fff_ffff) by (nonlinear_arith)
                    requires
                        0 <= c_s <= 65535 && 0 <= cnt_i64 <= 0x7fff_ffff,
                ;
                assert(c_s * cnt_i64 >= 1) by (nonlinear_arith)
                    requires
                        c_s >= 1 && cnt_i64 >= 1,
                ;
            }
            let cxw = cx - c_s * cnt_i64;
            if cxw < 1 {
                m.is_valid = false;
                proof {
                    assert(byte_count(slice, s as u8) > 0);
                    assert(model[s as int] - byte_count(slice, s as u8) * (cnt as int) <= 0);
                    assert(!sym_ok(buf, model, loc as int, m0.len as int, cnt as int));
                }
                return None;
            }
            let t1 = xlog2_q16(cxw as u64);
            let t2 = xlog2_q16(cx as u64);
            proof {
                assert(term(model, slice, cnt as int, s as int) == t1 - t2);
            }
            acc = acc + (t1 - t2);
        }
        s = s + 1;
    }
    proof {
        assert(sum_terms(model, slice, cnt as int, 0) == acc as int);
        assert(sym_ok(buf, model, loc as int, m0.len as int, cnt as int));
    }
    let t_cnt = xlog2_q16(cnt_i64 as u64);
    let t_n1 = xlog2_q16(n1 as u64);
    proof {
        assert(cnt_i64 * (len_i64 - 1) >= 2) by (nonlinear_arith)
            requires
                cnt_i64 >= 2 && len_i64 >= 2,
        ;
        assert(n_i64 >= 3);
    }
    let t_n = xlog2_q16(n_i64 as u64);
    proof {
        assert(2 <= len_i64 <= 65535);
        assert(8 * 65536 * (len_i64 + 1) <= 0x80_0000_0000) by (nonlinear_arith)
            requires
                0 <= len_i64 + 1 <= 65536,
        ;
    }
    let overhead: i64 = 8 * 65536 * (len_i64 + 1);
    let rank_val: i64 = acc + t_cnt - t_n1 + t_n - overhead;
    proof {
        assert(rank_val as int == spec_rank(
            buf,
            model,
            mdma_index.n as int,
            loc as int,
            m0.len as int,
            cnt as int,
        ));
    }
    if rank_val <= 0 {
        m.is_valid = false;
        return None;
    }
    proof {
        assert(rank_accepts(*mdma_index, m0));
    }
    Some(
        Word {
            rank: rank_val,
            location: loc,
            sa_index: m.sa_index,
            sa_count: m.sa_count,
            count: cnt,
            len: m.len,
        },
    )
}

/// Removes a committed word's contribution from the symbol model and the
/// residual size: each symbol of the word loses `count` occurrences per copy
/// in the word, and `n` shrinks by `count·(len-1)`.
pub fn update_model(word: &Word, mdma_index: &mut MdmaIndex)
    requires
        word.location + word.len <= old(mdma_index).buf@.len(),
        old(mdma_index).buf@.len() <= 0x7fff_ffff,
        2 <= word.len,
        1 <= word.count <= 0x7fff_ffff,
        old(mdma_index).model@.len() == 256,
        forall|s: int| 0 <= s < 256 ==> 0 <= #[trigger] old(mdma_index).model@[s] <= 0x7fff_ffff,
        sym_ok(
            old(mdma_index).buf@,
            old(mdma_index).model@,
            word.location as int,
            word.len as int,
            word.count as int,
        ),
        old(mdma_index).n >= word.count * (word.len - 1) + 1,
    ensures
        final(mdma_index).buf == old(mdma_index).buf,
        final(mdma_index).sa == old(mdma_index).sa,
        final(mdma_index).offsets == old(mdma_index).offsets,
        final(mdma_index).spans == old(mdma_index).spans,
        final(mdma_index).model@.len() == 256,
        forall|s: int|
            0 <= s < 256 ==> #[trigger] final(mdma_index).model@[s] == old(mdma_index).model@[s]
                - byte_count(
                word_slice(old(mdma_index).buf@, word.location as int, word.len as int),
                s as u8,
            ) * word.count,
        forall|s: int|
            0 <= s < 256 ==> 0 <= #[trigger] final(mdma_index).model@[s] <= old(
                mdma_index,
            ).model@[s],
        final(mdma_index).n == old(mdma_index).n - word.count * (word.len - 1),
        final(mdma_index).n >= 1,
{
    let ghost buf = mdma_index.buf@;
    let ghost model0 = mdma_index.model@;
    let ghost slice = word_slice(buf, word.location as int, word.len as int);
    let loc = word.location;
    let len = word.len as usize;
    let count_i64 = word.count as i64;
    let mut k: usize = 0;
    while k < len
        invariant
            k <= len,
            len == word.len,
            loc == word.location,
            loc + len <= mdma_index.buf@.len(),
            mdma_index.buf@.len() <= 0x7fff_ffff,
            buf == mdma_index.buf@,
            slice == word_slice(buf, loc as int, len as int),
            count_i64 == word.count,
            1 <= word.count <= 0x7fff_ffff,
            mdma_index.model@.len() == 256,
            mdma_index.sa == old(mdma_index).sa,
            mdma_index.offsets == old(mdma_index).offsets,
            mdma_index.spans == old(mdma_index).spans,
            mdma_index.buf == old(mdma_index).buf,
            mdma_index.n == old(mdma_index).n,
            model0 == old(mdma_index).model@,
            forall|s: int| 0 <= s < 256 ==> 0 <= #[trigger] model0[s] <= 0x7fff_ffff,
            sym_ok(buf, model0, loc as int, len as int, word.count as int),
            forall|s: int|
                0 <= s < 256 ==> #[trigger] mdma_index.model@[s] == model0[s] - byte_count(
                    buf.subrange(loc as int, loc + k),
                    s as u8,
                ) * count_i64,
        decreases len - k,
    {
        let b = mdma_index.buf[loc + k] as usize;
        let ghost pre = buf.subrange(loc as int, loc + k);
        let ghost post = buf.subrange(loc as int, loc + k + 1);
        proof {
            assert(post.drop_last() =~= pre);
            assert(post.last() == buf[loc + k]);
            // bound the partial count by the full count to avoid underflow
            lemma_byte_count_bounds(pre, b as u8);
            lemma_byte_count_bounds(post, b as u8);
            assert(post =~= slice.subrange(0, k + 1));
            lemma_byte_count_prefix_le(slice, b as u8, k + 1);
            assert(byte_count(slice, b as u8) >= byte_count(post, b as u8) >= 1);
            assert(model0[b as int] - byte_count(slice, b as u8) * count_i64 >= 1);
            assert(byte_count(post, b as u8) * count_i64 <= byte_count(slice, b as u8)
                * count_i64) by (nonlinear_arith)
                requires
                    byte_count(post, b as u8) <= byte_count(slice, b as u8) && count_i64 >= 0,
            ;
            assert(byte_count(pre, b as u8) * count_i64 >= 0) by (nonlinear_arith)
                requires
                    byte_count(pre, b as u8) >= 0 && count_i64 >= 0,
            ;
            assert(byte_count(post, b as u8) == byte_count(pre, b as u8) + 1);
            assert(byte_count(post, b as u8) * count_i64 == byte_count(pre, b as u8) * count_i64
                + count_i64) by (nonlinear_arith)
                requires
                    byte_count(post, b as u8) == byte_count(pre, b as u8) + 1,
            ;
        }
        let cur = mdma_index.model[b];
        mdma_index.model.set(b, cur - count_i64);
        proof {
            assert forall|s: int| 0 <= s < 256 implies #[trigger] mdma_index.model@[s] == model0[s]
                - byte_count(post, s as u8) * count_i64 by {
                if s != b as int {
                    assert(byte_count(post, s as u8) == byte_count(pre, s as u8));
                }
            }
        }
        k = k + 1;
    }
    proof {
        assert(buf.subrange(loc as int, loc + len) =~= slice);
        assert forall|s: int| 0 <= s < 256 implies 0 <= #[trigger] mdma_index.model@[s] <= model0[s] by {
            let c_s = byte_count(slice, s as u8);
            lemma_byte_count_bounds(slice, s as u8);
            if c_s > 0 {
                assert(model0[s] - c_s * (word.count as int) >= 1);
            } else {
                assert(c_s * count_i64 == 0) by (nonlinear_arith)
                    requires
                        c_s == 0,
                ;
            }
            assert(c_s * count_i64 >= 0) by (nonlinear_arith)
                requires
                    c_s >= 0 && count_i64 >= 0,
            ;
        }
    }
    let dec: u64 = (word.count as u64) * ((word.len - 1) as u64);
    proof {
        assert((word.count as u64) * ((word.len - 1) as u64) == (word.count as int) * ((
        word.len - 1) as int)) by (nonlinear_arith)
            requires
                word.count >= 0 && word.len >= 1,
        ;
        assert((word.count as int) * ((word.len - 1) as int) < old(mdma_index).n);
    }
    mdma_index.n = ((mdma_index.n as u64) - dec) as u32;
}

} // verus!
