//! Candidate generation: a monotonic-stack sweep over the LCP array that
//! emits, for every LCP plateau, the maximal suffix-array range sharing each
//! prefix length from 2 up to the plateau's value.

use crate::suffix_array::{common_pfx, lcp_spec, lemma_lcp_bounds, lemma_lcp_common};
use vstd::prelude::*;

verus! {

/// A candidate word: a suffix-array range whose suffixes all share a common
/// prefix of length `len`. `self_ref` records whether two occurrences of the
/// candidate might overlap each other in the buffer; `is_valid` is cleared
/// once the candidate is found unusable.
#[derive(Clone, Copy)]
pub struct Match {
    pub self_ref: bool,
    pub is_valid: bool,
    pub sa_index: u32,
    pub sa_count: u32,
    pub len: u16,
}

impl Match {
    /// The candidate's range of ranks in the suffix array.
    pub fn get_range(&self) -> (r: core::ops::Range<usize>)
        requires
            self.sa_index + self.sa_count <= usize::MAX,
        ensures
            r.start == self.sa_index as usize,
            r.end == self.sa_index + self.sa_count,
    {
        (self.sa_index as usize)..(self.sa_index as usize + self.sa_count as usize)
    }
}

/// Soundness of an emitted candidate with respect to the LCP array: every
/// pair of lexicographically adjacent suffixes inside its range shares a
/// prefix of at least `len` bytes.
pub open spec fn match_lcp_wf(m: Match, lcp: Seq<usize>) -> bool {
    &&& 2 <= m.len
    &&& 2 <= m.sa_count
    &&& m.sa_index + m.sa_count <= lcp.len()
    &&& forall|j: int|
        m.sa_index <= j < m.sa_index + m.sa_count - 1 ==> m.len <= #[trigger] lcp[j]
}

/// Soundness of a candidate with respect to the buffer: every suffix in its
/// range agrees with the first one on the first `len` bytes.
pub open spec fn match_range_common(m: Match, buf: Seq<u8>, sa: Seq<usize>) -> bool {
    &&& 2 <= m.len
    &&& 2 <= m.sa_count
    &&& m.sa_index + m.sa_count <= sa.len()
    &&& forall|j: int|
        m.sa_index <= j < m.sa_index + m.sa_count ==> common_pfx(
            buf,
            sa[m.sa_index as int] as int,
            #[trigger] sa[j] as int,
            m.len as int,
        )
}

/// The LCP array links each suffix-array rank to the next.
pub open spec fn lcp_wf(buf: Seq<u8>, sa: Seq<usize>, lcp: Seq<usize>) -> bool {
    &&& lcp.len() == sa.len()
    &&& sa.len() == buf.len()
    &&& forall|i: int| 0 <= i < sa.len() ==> (#[trigger] sa[i] as int) < buf.len()
    &&& forall|i: int|
        0 <= i < lcp.len() - 1 ==> #[trigger] lcp[i] as int == lcp_spec(
            buf,
            sa[i] as int,
            sa[i + 1] as int,
        )
}

proof fn lemma_common_chain(buf: Seq<u8>, sa: Seq<usize>, lcp: Seq<usize>, s: int, j: int, l: int)
    requires
        lcp_wf(buf, sa, lcp),
        0 <= s <= j,
        j + 1 < sa.len(),
        2 <= l,
        forall|a: int| s <= a <= j ==> l <= #[trigger] lcp[a],
    ensures
        common_pfx(buf, sa[s] as int, sa[j + 1] as int, l),
    decreases j - s,
{
    lemma_lcp_bounds(buf, sa[j] as int, sa[j + 1] as int);
    lemma_lcp_common(buf, sa[j] as int, sa[j + 1] as int, l);
    assert(l <= lcp[j] as int);
    assert(lcp[j] as int == lcp_spec(buf, sa[j] as int, sa[j + 1] as int));
    assert(common_pfx(buf, sa[j] as int, sa[j + 1] as int, l));
    if s == j {
    } else {
        lemma_common_chain(buf, sa, lcp, s, j - 1, l);
        let x = sa[s] as int;
        let y = sa[j] as int;
        let z = sa[j + 1] as int;
        assert forall|k: int| 0 <= k < l implies buf[x + k] == #[trigger] buf[z + k] by {
            assert(buf[x + k] == buf[y + k]);
            assert(buf[y + k] == buf[z + k]);
        }
    }
}

/// A candidate that is sound for the LCP array is sound for the buffer.
pub proof fn lemma_match_lcp_implies_common(
    m: Match,
    buf: Seq<u8>,
    sa: Seq<usize>,
    lcp: Seq<usize>,
)
    requires
        lcp_wf(buf, sa, lcp),
        match_lcp_wf(m, lcp),
    ensures
        match_range_common(m, buf, sa),
{
    let s = m.sa_index as int;
    assert forall|j: int|
        m.sa_index <= j < m.sa_index + m.sa_count implies common_pfx(
        buf,
        sa[s] as int,
        #[trigger] sa[j] as int,
        m.len as int,
    ) by {
        assert(m.len <= lcp[s] as int);
        assert(lcp[s] as int == lcp_spec(buf, sa[s] as int, sa[s + 1] as int));
        if j == s {
            lemma_lcp_bounds(buf, sa[s] as int, sa[s + 1] as int);
            lemma_lcp_common(buf, sa[s] as int, sa[s + 1] as int, m.len as int);
        } else {
            assert(forall|a: int| s <= a <= j - 1 ==> m.len <= #[trigger] lcp[a]);
            lemma_common_chain(buf, sa, lcp, s, j - 1, m.len as int);
        }
    }
}


/// An LCP value clamped to the largest representable candidate length.
pub open spec fn clamp16(v: usize) -> int {
    if v > 65535 {
        65535
    } else {
        v as int
    }
}

/// Some emitted candidate of length `l` spans the lexicographically
/// adjacent suffix-array ranks `j` and `j + 1`.
pub open spec fn covers_pair(matches: Seq<Match>, j: int, l: int) -> bool {
    exists|k: int|
        0 <= k < matches.len() && (#[trigger] matches[k]).len == l && matches[k].sa_index <= j && j
            < matches[k].sa_index + matches[k].sa_count - 1
}

/// A stack entry of the sweep: the anchor rank of an open run and its
/// current prefix length; the range size is computed when the entry closes.
#[derive(Clone, Copy)]
pub struct MatchGen {
    pub sa_index: u32,
    pub len: u16,
}

/// The candidates one closed run emits: one per length `lo ..= hi`.
pub open spec fn emit_run(sa_index: u32, sa_count: u32, lo: int, hi: int) -> Seq<Match>
    decreases hi + 1 - lo
        when lo <= hi + 1
{
    if lo > hi {
        Seq::empty()
    } else {
        seq![
            Match { self_ref: true, is_valid: true, sa_index, sa_count, len: lo as u16 },
        ] + emit_run(sa_index, sa_count, lo + 1, hi)
    }
}

/// One emission run grows one candidate at a time at its end.
pub proof fn lemma_emit_run_snoc(sa_index: u32, sa_count: u32, lo: int, hi: int)
    requires
        lo <= hi,
    ensures
        emit_run(sa_index, sa_count, lo, hi) == emit_run(sa_index, sa_count, lo, hi - 1) + seq![
            Match { self_ref: true, is_valid: true, sa_index, sa_count, len: hi as u16 },
        ],
    decreases hi - lo,
{
    let m_hi = seq![
        Match { self_ref: true, is_valid: true, sa_index, sa_count, len: hi as u16 },
    ];
    let m_lo = seq![
        Match { self_ref: true, is_valid: true, sa_index, sa_count, len: lo as u16 },
    ];
    if lo == hi {
        assert(emit_run(sa_index, sa_count, lo + 1, hi) =~= Seq::<Match>::empty());
        assert(emit_run(sa_index, sa_count, lo, hi - 1) =~= Seq::<Match>::empty());
        assert(m_hi + Seq::<Match>::empty() =~= Seq::<Match>::empty() + m_hi);
    } else {
        lemma_emit_run_snoc(sa_index, sa_count, lo + 1, hi);
        assert(emit_run(sa_index, sa_count, lo, hi) == m_lo + emit_run(
            sa_index,
            sa_count,
            lo + 1,
            hi,
        ));
        assert(emit_run(sa_index, sa_count, lo, hi - 1) == m_lo + emit_run(
            sa_index,
            sa_count,
            lo + 1,
            hi - 1,
        ));
        assert(m_lo + (emit_run(sa_index, sa_count, lo + 1, hi - 1) + m_hi) =~= (m_lo + emit_run(
            sa_index,
            sa_count,
            lo + 1,
            hi - 1,
        )) + m_hi);
    }
}

/// The stack left and the candidates emitted by the pop phase of one index:
/// runs longer than the incoming LCP close (the last may instead shorten to
/// the LCP), each emitting one candidate per length above what the run
/// below it already accounts for.
pub open spec fn pop_phase(lcp: int, index: int, stack: Seq<MatchGen>) -> (Seq<MatchGen>, Seq<
    Match,
>)
    decreases stack.len(),
{
    if stack.len() == 0 || lcp >= stack.last().len {
        (stack, Seq::empty())
    } else {
        let top = stack.last();
        let min0: int = if stack.len() >= 2 {
            stack[stack.len() - 2].len + 1
        } else {
            2
        };
        let sa_count = (index - top.sa_index + 1) as u32;
        if lcp >= min0 {
            (
                stack.update(
                    stack.len() - 1,
                    MatchGen { sa_index: top.sa_index, len: lcp as u16 },
                ),
                emit_run(top.sa_index, sa_count, lcp + 1, top.len as int),
            )
        } else {
            let rest = pop_phase(lcp, index, stack.drop_last());
            (rest.0, emit_run(top.sa_index, sa_count, min0, top.len as int) + rest.1)
        }
    }
}

/// The candidates the sweep emits from `index` on, given the open runs.
pub open spec fn gen_from(lcp: Seq<usize>, index: int, stack: Seq<MatchGen>) -> Seq<Match>
    decreases lcp.len() - index
        when 0 <= index <= lcp.len()
{
    if index >= lcp.len() {
        Seq::empty()
    } else {
        let lv = clamp16(lcp[index]);
        let top_len: int = if stack.len() > 0 {
            stack.last().len as int
        } else {
            1
        };
        let stack1 = if lv > top_len {
            stack.push(MatchGen { sa_index: index as u32, len: lv as u16 })
        } else {
            stack
        };
        let pp = pop_phase(lv, index, stack1);
        pp.1 + gen_from(lcp, index + 1, pp.0)
    }
}

/// The exact candidate sequence of the sweep over an LCP array.
pub open spec fn spec_generate(lcp: Seq<usize>) -> Seq<Match> {
    gen_from(lcp, 0, Seq::empty())
}

spec fn entry_run_ok(e: MatchGen, lcp: Seq<usize>, idx: int) -> bool {
    forall|j: int| e.sa_index <= j < idx ==> (e.len as int) <= (#[trigger] lcp[j] as int)
}

spec fn stack_shape(stack: Seq<MatchGen>, idx: int) -> bool {
    &&& forall|k: int|
        0 <= k < stack.len() ==> 2 <= (#[trigger] stack[k]).len && stack[k].sa_index <= idx
    &&& forall|k: int, k2: int|
        0 <= k < k2 < stack.len() ==> (#[trigger] stack[k]).len < (#[trigger] stack[k2]).len
            && stack[k].sa_index <= stack[k2].sa_index
}

spec fn stack_covers(stack: Seq<MatchGen>, j: int, l: int) -> bool {
    exists|k: int|
        0 <= k < stack.len() && (#[trigger] stack[k]).sa_index <= j && l <= stack[k].len
}

// Every adjacent pair of ranks before `idx` that shares a prefix of length
// `l` is already covered by an emitted candidate, or by an open stack run.
spec fn all_covered(matches: Seq<Match>, stack: Seq<MatchGen>, lcp: Seq<usize>, idx: int) -> bool {
    forall|j: int, l: int|
        0 <= j < idx && 2 <= l <= clamp16(lcp[j]) ==> #[trigger] covers_pair(matches, j, l)
            || stack_covers(stack, j, l)
}

// Coverage survives extending the candidate list or the stack.
proof fn lemma_covered_mono(
    matches1: Seq<Match>,
    matches2: Seq<Match>,
    stack1: Seq<MatchGen>,
    stack2: Seq<MatchGen>,
    lcp: Seq<usize>,
    idx: int,
)
    requires
        all_covered(matches1, stack1, lcp, idx),
        forall|k: int|
            0 <= k < matches1.len() ==> k < matches2.len() && matches2[k] == #[trigger] matches1[k],
        forall|k: int|
            0 <= k < stack1.len() ==> k < stack2.len() && stack2[k] == #[trigger] stack1[k],
    ensures
        all_covered(matches2, stack2, lcp, idx),
{
    assert forall|j: int, l: int|
        0 <= j < idx && 2 <= l <= clamp16(lcp[j]) implies #[trigger] covers_pair(matches2, j, l)
        || stack_covers(stack2, j, l) by {
        assert(covers_pair(matches1, j, l) || stack_covers(stack1, j, l));
        if covers_pair(matches1, j, l) {
            let k = choose|k: int|
                0 <= k < matches1.len() && (#[trigger] matches1[k]).len == l
                    && matches1[k].sa_index <= j && j < matches1[k].sa_index
                    + matches1[k].sa_count - 1;
            assert(matches2[k] == matches1[k]);
            assert(covers_pair(matches2, j, l));
        } else {
            let k = choose|k: int|
                0 <= k < stack1.len() && (#[trigger] stack1[k]).sa_index <= j && l <= stack1[k].len;
            assert(stack2[k] == stack1[k]);
            assert(stack_covers(stack2, j, l));
        }
    }
}

pub open spec fn emitted_ok(matches: Seq<Match>, lcp: Seq<usize>) -> bool {
    forall|k: int|
        0 <= k < matches.len() ==> match_lcp_wf(#[trigger] matches[k], lcp) && matches[k].is_valid
            && matches[k].self_ref
}

/// Generates every candidate word from the LCP array. Prefix lengths are
/// clamped to 65535; a longer repeat is still emitted, truncated to that
/// maximum. The sweep's stack provably closes every run it opens, so no
/// runtime emptiness check is needed at the end.
pub fn generate(matches: &mut Vec<Match>, lcp_array: Vec<usize>)
    requires
        old(matches)@.len() == 0,
        lcp_array@.len() <= 0x7fff_ffff,
        lcp_array@.len() > 0 ==> lcp_array@[lcp_array@.len() - 1] == 0,
    ensures
        final(matches)@ == spec_generate(lcp_array@),
        emitted_ok(final(matches)@, lcp_array@),
        forall|j: int, l: int|
            0 <= j < lcp_array@.len() && 2 <= l <= clamp16(lcp_array@[j])
                ==> #[trigger] covers_pair(final(matches)@, j, l),
{
    let n = lcp_array.len();
    let mut stack: Vec<MatchGen> = Vec::new();
    let mut index: usize = 0;
    proof {
        assert(Seq::<Match>::empty() + gen_from(lcp_array@, 0, Seq::<MatchGen>::empty())
            =~= gen_from(lcp_array@, 0, Seq::<MatchGen>::empty()));
    }
    while index < n
        invariant
            index <= n,
            n == lcp_array@.len() <= 0x7fff_ffff,
            n > 0 ==> lcp_array@[n - 1] == 0,
            stack_shape(stack@, index as int),
            forall|k: int|
                0 <= k < stack@.len() ==> entry_run_ok(#[trigger] stack@[k], lcp_array@, index as int),
            forall|k: int| 0 <= k < stack@.len() ==> (#[trigger] stack@[k]).sa_index < index,
            index == n && n > 0 ==> stack@.len() == 0,
            index == 0 ==> stack@.len() == 0,
            emitted_ok(matches@, lcp_array@),
            all_covered(matches@, stack@, lcp_array@, index as int),
            spec_generate(lcp_array@) == matches@ + gen_from(lcp_array@, index as int, stack@),
        decreases n - index,
    {
        let ghost stack_iter0 = stack@;
        let lv = lcp_array[index];
        let lcp: u16 = if lv > 65535 {
            65535
        } else {
            lv as u16
        };
        let top_len: u16 = if stack.len() > 0 {
            stack[stack.len() - 1].len
        } else {
            1
        };
        if lcp > top_len {
            let ghost stack_before = stack@;
            stack.push(MatchGen { sa_index: index as u32, len: lcp });
            proof {
                lemma_covered_mono(
                    matches@,
                    matches@,
                    stack_before,
                    stack@,
                    lcp_array@,
                    index as int,
                );
            }
        }
        proof {
            // the sweep's defining step at this index: push, then pop phase
            assert(clamp16(lcp_array@[index as int]) == lcp as int);
            assert(gen_from(lcp_array@, index as int, stack_iter0) == pop_phase(
                lcp as int,
                index as int,
                stack@,
            ).1 + gen_from(
                lcp_array@,
                index + 1,
                pop_phase(lcp as int, index as int, stack@).0,
            ));
            assert(matches@ + (pop_phase(lcp as int, index as int, stack@).1 + gen_from(
                lcp_array@,
                index + 1,
                pop_phase(lcp as int, index as int, stack@).0,
            )) =~= matches@ + pop_phase(lcp as int, index as int, stack@).1 + gen_from(
                lcp_array@,
                index + 1,
                pop_phase(lcp as int, index as int, stack@).0,
            ));
        }
        while stack.len() > 0 && lcp < stack[stack.len() - 1].len
            invariant
                index < n,
                n == lcp_array@.len() <= 0x7fff_ffff,
                lv == lcp_array@[index as int],
                lcp <= lv,
                stack_shape(stack@, index as int),
                forall|k: int|
                    0 <= k < stack@.len() ==> entry_run_ok(
                        #[trigger] stack@[k],
                        lcp_array@,
                        index as int,
                    ),
                forall|k: int|
                    0 <= k < stack@.len() && lcp < (#[trigger] stack@[k]).len ==> stack@[k].sa_index
                        < index,
                emitted_ok(matches@, lcp_array@),
                all_covered(matches@, stack@, lcp_array@, index as int),
                lcp >= 2 ==> stack@.len() > 0 && lcp <= stack@[stack@.len() - 1].len,
                spec_generate(lcp_array@) == matches@ + pop_phase(
                    lcp as int,
                    index as int,
                    stack@,
                ).1 + gen_from(
                    lcp_array@,
                    index + 1,
                    pop_phase(lcp as int, index as int, stack@).0,
                ),
            decreases stack@.len() as int * 65536 + (if stack@.len() > 0 {
                stack@[stack@.len() - 1].len as int
            } else {
                0
            }),
        {
            let top = stack[stack.len() - 1];
            let ghost stack_pre = stack@;
            let ghost matches_pre = matches@;
            let mut min_len: u16 = if stack.len() >= 2 {
                stack[stack.len() - 2].len + 1
            } else {
                2
            };
            let ghost min0 = min_len;
            let mx_len = top.len;
            let sa_index = top.sa_index;
            let sa_count: u32 = index as u32 - sa_index + 1;
            if lcp >= min_len {
                let mut t = top;
                t.len = lcp;
                let pos = stack.len() - 1;
                stack.set(pos, t);
                min_len = lcp + 1;
            } else {
                stack.pop();
            }
            let mut len: u32 = min_len as u32;
            proof {
                assert(matches@ =~= matches_pre + emit_run(
                    sa_index,
                    sa_count,
                    min_len as int,
                    min_len as int - 1,
                ));
            }
            while len <= mx_len as u32
                invariant
                    min_len as u32 <= len <= mx_len as u32 + 1,
                    matches@ == matches_pre + emit_run(
                        sa_index,
                        sa_count,
                        min_len as int,
                        len as int - 1,
                    ),
                    2 <= min_len,
                    2 <= sa_count,
                    sa_index + sa_count <= n,
                    sa_index + sa_count - 1 == index,
                    n == lcp_array@.len(),
                    forall|j: int|
                        sa_index <= j < sa_index + sa_count - 1 ==> mx_len as int <= (
                        #[trigger] lcp_array@[j] as int),
                    emitted_ok(matches@, lcp_array@),
                    matches_pre.len() <= matches@.len(),
                    forall|k: int|
                        0 <= k < matches_pre.len() ==> matches@[k] == #[trigger] matches_pre[k],
                    forall|j2: int, l2: int|
                        sa_index <= j2 < index && min_len <= l2 < len
                            ==> #[trigger] covers_pair(matches@, j2, l2),
                decreases mx_len as int + 1 - len,
            {
                let ghost matches_mid = matches@;
                matches.push(
                    Match {
                        self_ref: true,
                        is_valid: true,
                        sa_index,
                        sa_count,
                        len: len as u16,
                    },
                );
                proof {
                    lemma_emit_run_snoc(sa_index, sa_count, min_len as int, len as int);
                    assert((matches_pre + emit_run(
                        sa_index,
                        sa_count,
                        min_len as int,
                        len as int - 1,
                    )) + seq![
                        Match {
                            self_ref: true,
                            is_valid: true,
                            sa_index,
                            sa_count,
                            len: len as u16,
                        },
                    ] =~= matches_pre + emit_run(sa_index, sa_count, min_len as int, len as int));
                    let last = matches@.len() - 1;
                    assert forall|j2: int, l2: int|
                        sa_index <= j2 < index && min_len <= l2 < len + 1 implies #[trigger] covers_pair(
                        matches@,
                        j2,
                        l2,
                    ) by {
                        if l2 == len {
                            assert(matches@[last].len == l2 && matches@[last].sa_index <= j2 && j2
                                < matches@[last].sa_index + matches@[last].sa_count - 1);
                        } else {
                            assert(covers_pair(matches_mid, j2, l2));
                            let k = choose|k: int|
                                0 <= k < matches_mid.len() && (#[trigger] matches_mid[k]).len == l2
                                    && matches_mid[k].sa_index <= j2 && j2
                                    < matches_mid[k].sa_index + matches_mid[k].sa_count - 1;
                            assert(matches@[k] == matches_mid[k]);
                        }
                    }
                }
                len = len + 1;
            }
            proof {
                // restore coverage for the popped or shortened run
                assert forall|j: int, l: int|
                    0 <= j < index && 2 <= l <= clamp16(lcp_array@[j]) implies #[trigger] covers_pair(
                    matches@,
                    j,
                    l,
                ) || stack_covers(stack@, j, l) by {
                    assert(covers_pair(matches_pre, j, l) || stack_covers(stack_pre, j, l));
                    if covers_pair(matches_pre, j, l) {
                        let k = choose|k: int|
                            0 <= k < matches_pre.len() && (#[trigger] matches_pre[k]).len == l
                                && matches_pre[k].sa_index <= j && j < matches_pre[k].sa_index
                                + matches_pre[k].sa_count - 1;
                        assert(matches@[k] == matches_pre[k]);
                        assert(covers_pair(matches@, j, l));
                    } else {
                        let k = choose|k: int|
                            0 <= k < stack_pre.len() && (#[trigger] stack_pre[k]).sa_index <= j && l
                                <= stack_pre[k].len;
                        if k < stack_pre.len() - 1 {
                            assert(stack@[k] == stack_pre[k]);
                            assert(stack_covers(stack@, j, l));
                        } else {
                            // witness was the processed top entry
                            assert(stack_pre[k] == top);
                            if lcp >= min0 {
                                // the entry lives on with length lcp
                                if l <= lcp {
                                    assert(stack@[k].sa_index == top.sa_index && stack@[k].len
                                        == lcp);
                                    assert(stack_covers(stack@, j, l));
                                } else {
                                    assert(min_len <= l <= mx_len);
                                    assert(covers_pair(matches@, j, l));
                                }
                            } else {
                                // the entry was popped
                                if l >= min0 {
                                    assert(min_len <= l <= mx_len);
                                    assert(covers_pair(matches@, j, l));
                                } else {
                                    assert(stack_pre.len() >= 2);
                                    let k2 = stack_pre.len() - 2;
                                    assert(stack_pre[k2].sa_index <= stack_pre[k as int].sa_index);
                                    assert(l <= stack_pre[k2].len);
                                    assert(stack@[k2] == stack_pre[k2]);
                                    assert(stack_covers(stack@, j, l));
                                }
                            }
                        }
                    }
                }
                // the spec's pop phase took the same step
                assert((top.sa_index as int) < index);
                assert(((index - top.sa_index + 1) as u32) == sa_count);
                let pp_pre = pop_phase(lcp as int, index as int, stack_pre);
                if lcp >= min0 {
                    assert(stack@ =~= stack_pre.update(
                        stack_pre.len() - 1,
                        MatchGen { sa_index: top.sa_index, len: lcp },
                    ));
                    assert(pp_pre == (
                        stack@,
                        emit_run(sa_index, sa_count, lcp + 1, mx_len as int),
                    ));
                    assert(min_len as int == lcp + 1);
                    assert(matches@ == matches_pre + emit_run(
                        sa_index,
                        sa_count,
                        lcp + 1,
                        mx_len as int,
                    ));
                    assert(pop_phase(lcp as int, index as int, stack@) == (
                        stack@,
                        Seq::<Match>::empty(),
                    ));
                    assert(matches@ + Seq::<Match>::empty() =~= matches@);
                } else {
                    assert(stack@ =~= stack_pre.drop_last());
                    let pp_d = pop_phase(lcp as int, index as int, stack@);
                    assert(pp_pre == (
                        pp_d.0,
                        emit_run(sa_index, sa_count, min0 as int, mx_len as int) + pp_d.1,
                    ));
                    assert(matches@ == matches_pre + emit_run(
                        sa_index,
                        sa_count,
                        min0 as int,
                        mx_len as int,
                    ));
                    assert(matches_pre + (emit_run(sa_index, sa_count, min0 as int, mx_len as int)
                        + pp_d.1) =~= (matches_pre + emit_run(
                        sa_index,
                        sa_count,
                        min0 as int,
                        mx_len as int,
                    )) + pp_d.1);
                }
            }
        }
        proof {
            assert(pop_phase(lcp as int, index as int, stack@) == (
                stack@,
                Seq::<Match>::empty(),
            ));
            assert(matches@ + Seq::<Match>::empty() =~= matches@);
            assert forall|j: int, l: int|
                0 <= j < index + 1 && 2 <= l <= clamp16(lcp_array@[j]) implies #[trigger] covers_pair(
                matches@,
                j,
                l,
            ) || stack_covers(stack@, j, l) by {
                if j == index {
                    assert(clamp16(lcp_array@[j]) == lcp);
                    assert(stack@.len() > 0 && lcp <= stack@[stack@.len() - 1].len);
                    assert(stack@[stack@.len() - 1].sa_index <= index);
                    assert(stack_covers(stack@, j, l));
                }
            }
        }
        index = index + 1;
    }
    assert(stack@.len() == 0);
    proof {
        assert(gen_from(lcp_array@, n as int, stack@) =~= Seq::<Match>::empty());
        assert(matches@ + Seq::<Match>::empty() =~= matches@);
        assert forall|j: int, l: int|
            0 <= j < lcp_array@.len() && 2 <= l <= clamp16(lcp_array@[j]) implies #[trigger] covers_pair(
            matches@,
            j,
            l,
        ) by {
            assert(covers_pair(matches@, j, l) || stack_covers(stack@, j, l));
            if stack_covers(stack@, j, l) {
                let k = choose|k: int|
                    0 <= k < stack@.len() && (#[trigger] stack@[k]).sa_index <= j && l
                        <= stack@[k].len;
            }
        }
    }
}

} // verus!
