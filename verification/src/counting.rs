//! Non-overlapping occurrence counting.
//!
//! A candidate's occurrences are the suffix-array positions of its range.
//! Counting scans them in ascending buffer order and greedily accepts every
//! occurrence whose span is still free and does not overlap the previously
//! accepted one; `greedy_sel` is the shared specification of that rule, also
//! obeyed by the splitter when it consumes the winning word.

use crate::builder::MdmaIndex;
use crate::match_finder::Match;
use vstd::prelude::*;
use vstd::relations::{sorted_by, total_ordering};
use vstd::seq_lib::lemma_multiset_commutative;
use vstd::seq_lib::lemma_sorted_unique;

verus! {

/// Ascending order on buffer positions.
pub open spec fn le_usize() -> spec_fn(usize, usize) -> bool {
    |a: usize, b: usize| a <= b
}

/// The candidate's suffix-array window.
pub open spec fn sa_window(ix: MdmaIndex, m: Match) -> Seq<usize> {
    ix.sa@.subrange(m.sa_index as int, m.sa_index + m.sa_count)
}

/// The candidate's occurrence positions, in ascending buffer order.
pub open spec fn sorted_window(ix: MdmaIndex, m: Match) -> Seq<usize> {
    sa_window(ix, m).sort_by(le_usize())
}

/// A run of `len` bytes starting at `p` is still entirely free.
pub open spec fn qualifies(o: Seq<i32>, p: int, len: int) -> bool {
    0 <= p < o.len() && o[p] >= len - 1
}

/// Greedy left-to-right selection of non-overlapping still-free occurrences
/// from the ascending position list `locs`, starting at index `i` with the
/// previously accepted occurrence ending at `last_end`.
pub open spec fn greedy_sel(
    locs: Seq<usize>,
    o: Seq<i32>,
    len: int,
    i: int,
    last_end: int,
) -> Seq<int>
    decreases locs.len() - i
        when 0 <= i <= locs.len()
{
    if i >= locs.len() {
        Seq::empty()
    } else if (locs[i] as int) < last_end {
        greedy_sel(locs, o, len, i + 1, last_end)
    } else if qualifies(o, locs[i] as int, len) {
        seq![locs[i] as int] + greedy_sel(locs, o, len, i + 1, locs[i] + len)
    } else {
        greedy_sel(locs, o, len, i + 1, last_end)
    }
}

/// Whether the greedy scan ever saw a position lying inside the span of the
/// previously accepted occurrence: the candidate's occurrences can overlap.
pub open spec fn greedy_flag(
    locs: Seq<usize>,
    o: Seq<i32>,
    len: int,
    i: int,
    last_end: int,
) -> bool
    decreases locs.len() - i
        when 0 <= i <= locs.len()
{
    if i >= locs.len() {
        false
    } else if (locs[i] as int) < last_end {
        true
    } else if qualifies(o, locs[i] as int, len) {
        greedy_flag(locs, o, len, i + 1, locs[i] + len)
    } else {
        greedy_flag(locs, o, len, i + 1, last_end)
    }
}

/// The number of qualifying positions in `locs`.
pub open spec fn nqual(locs: Seq<usize>, o: Seq<i32>, len: int) -> int
    decreases locs.len(),
{
    if locs.len() == 0 {
        0
    } else {
        nqual(locs.drop_last(), o, len) + if qualifies(o, locs.last() as int, len) {
            1int
        } else {
            0int
        }
    }
}

/// The qualifying positions of `locs` from index `i` on, in order.
pub open spec fn qual_seq(locs: Seq<usize>, o: Seq<i32>, len: int, i: int) -> Seq<int>
    decreases locs.len() - i
        when 0 <= i <= locs.len()
{
    if i >= locs.len() {
        Seq::empty()
    } else if qualifies(o, locs[i] as int, len) {
        seq![locs[i] as int] + qual_seq(locs, o, len, i + 1)
    } else {
        qual_seq(locs, o, len, i + 1)
    }
}

/// No two distinct qualifying positions of the ascending list `locs` lie
/// closer than `len`: occurrences of the candidate cannot overlap.
pub open spec fn gap_ok(locs: Seq<usize>, o: Seq<i32>, len: int) -> bool {
    forall|j1: int, j2: int|
        #![trigger locs[j1], locs[j2]]
        0 <= j1 < j2 < locs.len() && qualifies(o, locs[j1] as int, len) && qualifies(
            o,
            locs[j2] as int,
            len,
        ) ==> locs[j1] + len <= locs[j2]
}

/// The sorted window has one entry per suffix-array rank of the candidate.
pub proof fn lemma_sorted_window_len(ix: MdmaIndex, m: Match)
    requires
        m.sa_index + m.sa_count <= ix.sa@.len(),
    ensures
        sorted_window(ix, m).len() == m.sa_count as int,
{
    broadcast use vstd::seq_lib::group_to_multiset_ensures;

    sa_window(ix, m).lemma_sort_by_ensures(le_usize());
    sorted_window(ix, m).to_multiset_ensures();
    sa_window(ix, m).to_multiset_ensures();
}

/// What counting needs of a candidate and the corpus index.
pub open spec fn count_pre(m: Match, ix: MdmaIndex) -> bool {
    &&& 2 <= m.len
    &&& 1 <= m.sa_count
    &&& m.sa_index + m.sa_count <= ix.sa@.len()
    &&& ix.sa@.len() == ix.offsets@.len()
    &&& ix.sa@.len() <= 0x7fff_ffff
    &&& forall|j: int| 0 <= j < ix.sa@.len() ==> (#[trigger] ix.sa@[j] as int) < ix.offsets@.len()
}

/// The result both counting paths agree on.
pub open spec fn count_post(m: Match, m1: Match, ix: MdmaIndex, r: (u32, usize)) -> bool {
    let locs = sorted_window(ix, m);
    let o = ix.offsets@;
    let len = m.len as int;
    let sel = greedy_sel(locs, o, len, 0, 0);
    &&& r.0 == sel.len()
    &&& sel.len() > 0 ==> r.1 as int == sel[0]
    &&& m1.self_ref == (m.self_ref && greedy_flag(locs, o, len, 0, 0))
    &&& m1.is_valid == m.is_valid
    &&& m1.sa_index == m.sa_index
    &&& m1.sa_count == m.sa_count
    &&& m1.len == m.len
}

/// Swapping two elements keeps the multiset of a sequence.
proof fn lemma_swap_to_multiset(s: Seq<usize>, i: int, j: int)
    requires
        0 <= i < j < s.len(),
    ensures
        s.update(i, s[j]).update(j, s[i]).to_multiset() == s.to_multiset(),
{
    let a = s[i];
    let b = s[j];
    let s2 = s.update(i, b).update(j, a);
    let pre = s.subrange(0, i);
    let mid = s.subrange(i + 1, j);
    let post = s.subrange(j + 1, s.len() as int);
    assert(s =~= pre + seq![a] + mid + seq![b] + post);
    assert(s2 =~= pre + seq![b] + mid + seq![a] + post);
    lemma_multiset_commutative(pre + seq![a] + mid + seq![b], post);
    lemma_multiset_commutative(pre + seq![a] + mid, seq![b]);
    lemma_multiset_commutative(pre + seq![a], mid);
    lemma_multiset_commutative(pre, seq![a]);
    lemma_multiset_commutative(pre + seq![b] + mid + seq![a], post);
    lemma_multiset_commutative(pre + seq![b] + mid, seq![a]);
    lemma_multiset_commutative(pre + seq![b], mid);
    lemma_multiset_commutative(pre, seq![b]);
    assert(s2.to_multiset() =~= s.to_multiset());
}

/// Sorts buffer positions ascending by insertion sort.
pub fn sort_ascending(v: &mut Vec<usize>)
    ensures
        final(v)@ == old(v)@.sort_by(le_usize()),
        final(v)@.to_multiset() == old(v)@.to_multiset(),
        sorted_by(final(v)@, le_usize()),
{
    let n = v.len();
    let ghost orig = v@;
    let mut i: usize = 1;
    while i < n
        invariant
            n == v@.len(),
            v@.to_multiset() == orig.to_multiset(),
            1 <= i,
            n == 0 || i <= n,
            forall|a: int, b: int| 0 <= a < b < i && b < n ==> v@[a] <= v@[b],
        decreases n - i,
    {
        let mut j: usize = i;
        while j > 0 && v[j - 1] > v[j]
            invariant
                n == v@.len(),
                v@.to_multiset() == orig.to_multiset(),
                j <= i < n,
                forall|a: int, b: int| 0 <= a < b <= i && b != j ==> v@[a] <= v@[b],
                forall|a: int| j < a <= i ==> v@[j as int] <= v@[a],
            decreases j,
        {
            let x = v[j - 1];
            let y = v[j];
            proof {
                lemma_swap_to_multiset(v@, j - 1, j as int);
            }
            v.set(j - 1, y);
            v.set(j, x);
            j = j - 1;
        }
        i = i + 1;
    }
    proof {
        assert(sorted_by(v@, le_usize()));
        orig.lemma_sort_by_ensures(le_usize());
        assert(total_ordering(le_usize()));
        lemma_sorted_unique(v@, orig.sort_by(le_usize()), le_usize());
    }
}

/// Everything the greedy selection promises of its result: selected
/// positions qualify, come from `locs` at or past `last_end`, ascend with
/// gaps of at least `len`, and are no more numerous than the scanned tail.
pub proof fn lemma_greedy_sel_props(locs: Seq<usize>, o: Seq<i32>, len: int, i: int, last_end: int)
    requires
        0 <= i <= locs.len(),
        1 <= len,
    ensures
        ({
            let sel = greedy_sel(locs, o, len, i, last_end);
            &&& sel.len() <= locs.len() - i
            &&& forall|a: int|
                0 <= a < sel.len() ==> qualifies(o, #[trigger] sel[a], len) && sel[a] >= last_end
                    && locs.contains(sel[a] as usize)
            &&& forall|a: int, b: int|
                #![trigger sel[a], sel[b]]
                0 <= a < b < sel.len() ==> sel[a] + len <= sel[b]
        }),
    decreases locs.len() - i,
{
    if i >= locs.len() {
    } else if (locs[i] as int) < last_end {
        lemma_greedy_sel_props(locs, o, len, i + 1, last_end);
    } else if qualifies(o, locs[i] as int, len) {
        lemma_greedy_sel_props(locs, o, len, i + 1, locs[i] + len);
        let rest = greedy_sel(locs, o, len, i + 1, locs[i] + len);
        let sel = greedy_sel(locs, o, len, i, last_end);
        assert(sel == seq![locs[i] as int] + rest);
        assert(locs.contains(locs[i]));
        assert forall|a: int, b: int| #![trigger sel[a], sel[b]] 0 <= a < b < sel.len() implies sel[a] + len
            <= sel[b] by {
            if a > 0 {
                assert(rest[a - 1] + len <= rest[b - 1]);
            } else {
                assert(rest[b - 1] >= locs[i] + len);
            }
        }
    } else {
        lemma_greedy_sel_props(locs, o, len, i + 1, last_end);
    }
}

/// When the greedy scan never saw an overlap, every position from `i` on
/// lies at or past `last_end`.
proof fn lemma_flag_false_all_ge(locs: Seq<usize>, o: Seq<i32>, len: int, i: int, last_end: int)
    requires
        0 <= i <= locs.len(),
        1 <= len,
        !greedy_flag(locs, o, len, i, last_end),
    ensures
        forall|j: int| i <= j < locs.len() ==> last_end <= (#[trigger] locs[j] as int),
    decreases locs.len() - i,
{
    if i >= locs.len() {
    } else if qualifies(o, locs[i] as int, len) {
        lemma_flag_false_all_ge(locs, o, len, i + 1, locs[i] + len);
    } else {
        lemma_flag_false_all_ge(locs, o, len, i + 1, last_end);
    }
}

/// A scan without overlaps certifies that qualifying positions cannot
/// overlap each other.
pub proof fn lemma_flag_false_gap(locs: Seq<usize>, o: Seq<i32>, len: int, i: int, last_end: int)
    requires
        0 <= i <= locs.len(),
        1 <= len,
        !greedy_flag(locs, o, len, i, last_end),
    ensures
        forall|j1: int, j2: int|
            #![trigger locs[j1], locs[j2]]
            i <= j1 < j2 < locs.len() && qualifies(o, locs[j1] as int, len) && qualifies(
                o,
                locs[j2] as int,
                len,
            ) ==> locs[j1] + len <= locs[j2],
    decreases locs.len() - i,
{
    if i >= locs.len() {
    } else if qualifies(o, locs[i] as int, len) {
        lemma_flag_false_gap(locs, o, len, i + 1, locs[i] + len);
        lemma_flag_false_all_ge(locs, o, len, i + 1, locs[i] + len);
    } else {
        lemma_flag_false_gap(locs, o, len, i + 1, last_end);
    }
}

/// Under the no-overlap property the greedy selection accepts exactly the
/// qualifying positions.
pub proof fn lemma_gap_greedy_eq(locs: Seq<usize>, o: Seq<i32>, len: int, i: int, last_end: int)
    requires
        0 <= i <= locs.len(),
        1 <= len,
        forall|j1: int, j2: int|
            #![trigger locs[j1], locs[j2]]
            i <= j1 < j2 < locs.len() && qualifies(o, locs[j1] as int, len) && qualifies(
                o,
                locs[j2] as int,
                len,
            ) ==> locs[j1] + len <= locs[j2],
        forall|j: int|
            i <= j < locs.len() && qualifies(o, #[trigger] locs[j] as int, len) ==> last_end <= (
            locs[j] as int),
    ensures
        greedy_sel(locs, o, len, i, last_end) == qual_seq(locs, o, len, i),
    decreases locs.len() - i,
{
    if i >= locs.len() {
    } else if (locs[i] as int) < last_end {
        assert(!qualifies(o, locs[i] as int, len));
        lemma_gap_greedy_eq(locs, o, len, i + 1, last_end);
    } else if qualifies(o, locs[i] as int, len) {
        assert forall|j: int|
            i + 1 <= j < locs.len() && qualifies(o, #[trigger] locs[j] as int, len) implies locs[i]
            + len <= (locs[j] as int) by {
            assert(locs[i] + len <= locs[j]);
        }
        lemma_gap_greedy_eq(locs, o, len, i + 1, locs[i] + len);
    } else {
        lemma_gap_greedy_eq(locs, o, len, i + 1, last_end);
    }
}

/// The qualifying positions, taken in order from an ascending list, qualify,
/// and the first is the least qualifying position.
pub proof fn lemma_qual_seq_props(locs: Seq<usize>, o: Seq<i32>, len: int, i: int)
    requires
        0 <= i <= locs.len(),
    ensures
        ({
            let q = qual_seq(locs, o, len, i);
            &&& q.len() > 0 ==> exists|j: int|
                i <= j < locs.len() && (#[trigger] locs[j] as int) == q[0] && qualifies(
                    o,
                    locs[j] as int,
                    len,
                )
            &&& forall|j: int|
                i <= j < locs.len() && qualifies(o, #[trigger] locs[j] as int, len) && sorted_by(
                    locs,
                    le_usize(),
                ) ==> q.len() > 0 && q[0] <= (locs[j] as int)
        }),
    decreases locs.len() - i,
{
    if i >= locs.len() {
    } else if qualifies(o, locs[i] as int, len) {
        lemma_qual_seq_props(locs, o, len, i + 1);
        let q = qual_seq(locs, o, len, i);
        assert(q[0] == locs[i] as int);
        assert forall|j: int|
            i <= j < locs.len() && qualifies(o, #[trigger] locs[j] as int, len) && sorted_by(
                locs,
                le_usize(),
            ) implies q.len() > 0 && q[0] <= (locs[j] as int) by {
            if j > i {
                assert(le_usize()(locs[i], locs[j]));
            }
        }
    } else {
        lemma_qual_seq_props(locs, o, len, i + 1);
        let q = qual_seq(locs, o, len, i);
        let q1 = qual_seq(locs, o, len, i + 1);
        assert(q == q1);
    }
}

/// `nqual` seen from the front.
proof fn lemma_nqual_pop_front(locs: Seq<usize>, o: Seq<i32>, len: int)
    requires
        locs.len() > 0,
    ensures
        nqual(locs, o, len) == nqual(locs.drop_first(), o, len) + if qualifies(
            o,
            locs[0] as int,
            len,
        ) {
            1int
        } else {
            0int
        },
    decreases locs.len(),
{
    if locs.len() == 1 {
        assert(locs.drop_first() =~= Seq::<usize>::empty());
        assert(locs.drop_last() =~= Seq::<usize>::empty());
        assert(locs[0] == locs.last());
    } else {
        let dl = locs.drop_last();
        let df = locs.drop_first();
        lemma_nqual_pop_front(dl, o, len);
        assert(dl.drop_first() =~= df.drop_last());
        assert(dl[0] == locs[0]);
        assert(df.last() == locs.last());
        assert(df.len() > 0);
        assert(nqual(df, o, len) == nqual(df.drop_last(), o, len) + if qualifies(
            o,
            df.last() as int,
            len,
        ) {
            1int
        } else {
            0int
        });
        assert(nqual(locs, o, len) == nqual(dl, o, len) + if qualifies(o, locs.last() as int, len) {
            1int
        } else {
            0int
        });
        assert(nqual(dl, o, len) == nqual(dl.drop_first(), o, len) + if qualifies(
            o,
            locs[0] as int,
            len,
        ) {
            1int
        } else {
            0int
        });
        assert(nqual(df.drop_last(), o, len) == nqual(dl.drop_first(), o, len));
    }
}

/// The length of the in-order qualifying subsequence is the qualifying count.
pub proof fn lemma_qual_seq_len(locs: Seq<usize>, o: Seq<i32>, len: int, i: int)
    requires
        0 <= i <= locs.len(),
    ensures
        qual_seq(locs, o, len, i).len() == nqual(locs.subrange(i, locs.len() as int), o, len),
    decreases locs.len() - i,
{
    if i >= locs.len() {
        assert(locs.subrange(i, locs.len() as int) =~= Seq::<usize>::empty());
    } else {
        lemma_qual_seq_len(locs, o, len, i + 1);
        let tail = locs.subrange(i, locs.len() as int);
        assert(tail.drop_first() =~= locs.subrange(i + 1, locs.len() as int));
        lemma_nqual_pop_front(tail, o, len);
    }
}

proof fn lemma_nqual_remove(locs: Seq<usize>, o: Seq<i32>, len: int, k: int)
    requires
        0 <= k < locs.len(),
    ensures
        nqual(locs, o, len) == nqual(locs.remove(k), o, len) + if qualifies(
            o,
            locs[k] as int,
            len,
        ) {
            1int
        } else {
            0int
        },
    decreases locs.len(),
{
    if k == locs.len() - 1 {
        assert(locs.remove(k) =~= locs.drop_last());
    } else {
        lemma_nqual_remove(locs.drop_last(), o, len, k);
        assert(locs.remove(k).drop_last() =~= locs.drop_last().remove(k));
        assert(locs.remove(k).last() == locs.last());
    }
}

/// The qualifying count of a list of positions depends only on its multiset.
pub proof fn lemma_nqual_perm(s1: Seq<usize>, s2: Seq<usize>, o: Seq<i32>, len: int)
    requires
        s1.to_multiset() == s2.to_multiset(),
    ensures
        nqual(s1, o, len) == nqual(s2, o, len),
    decreases s1.len(),
{
    broadcast use vstd::seq_lib::group_to_multiset_ensures;

    if s1.len() == 0 {
        assert(s2.to_multiset().len() == 0);
        assert(s2.len() == 0);
    } else {
        let x = s1.last();
        assert(s1.to_multiset().contains(x));
        assert(s2.to_multiset().contains(x));
        assert(s2.contains(x));
        let k = choose|k: int| 0 <= k < s2.len() && s2[k] == x;
        assert(s1.drop_last() =~= s1.remove(s1.len() - 1));
        assert(s1.remove(s1.len() - 1).to_multiset() =~= s1.to_multiset().remove(x));
        assert(s2.remove(k).to_multiset() =~= s2.to_multiset().remove(x));
        lemma_nqual_perm(s1.drop_last(), s2.remove(k), o, len);
        lemma_nqual_remove(s2, o, len, k);
    }
}

/// Occurrence counting: the slow path for candidates whose occurrences may
/// overlap. Sorts the window and resolves overlaps greedily, preferring the
/// leftmost occurrence; records whether any overlap was seen.
pub fn count_slow(m: &mut Match, mdma_index: &MdmaIndex) -> (r: (u32, usize))
    requires
        count_pre(*old(m), *mdma_index),
    ensures
        ({
            let locs = sorted_window(*mdma_index, *old(m));
            let o = mdma_index.offsets@;
            let len = old(m).len as int;
            let sel = greedy_sel(locs, o, len, 0, 0);
            &&& r.0 == sel.len()
            &&& sel.len() > 0 ==> r.1 as int == sel[0]
            &&& final(m).self_ref == greedy_flag(locs, o, len, 0, 0)
            &&& final(m).is_valid == old(m).is_valid
            &&& final(m).sa_index == old(m).sa_index
            &&& final(m).sa_count == old(m).sa_count
            &&& final(m).len == old(m).len
        }),
{
    let start = m.sa_index as usize;
    let cnt = m.sa_count as usize;
    let mut locations: Vec<usize> = Vec::new();
    let mut j: usize = 0;
    while j < cnt
        invariant
            j <= cnt,
            start == m.sa_index,
            cnt == m.sa_count,
            start + cnt <= mdma_index.sa@.len(),
            mdma_index.sa@.len() <= 0x7fff_ffff,
            locations@ == mdma_index.sa@.subrange(start as int, start + j),
        decreases cnt - j,
    {
        locations.push(mdma_index.sa[start + j]);
        proof {
            assert(locations@ =~= mdma_index.sa@.subrange(start as int, start + j + 1));
        }
        j = j + 1;
    }
    sort_ascending(&mut locations);
    let ghost locs = locations@;
    let ghost o = mdma_index.offsets@;
    let ghost glen = m.len as int;
    proof {
        broadcast use vstd::seq_lib::group_to_multiset_ensures;

        assert(locs == sorted_window(*mdma_index, *m));
        sa_window(*mdma_index, *m).lemma_sort_by_ensures(le_usize());
        assert(locs.to_multiset() == sa_window(*mdma_index, *m).to_multiset());
        locs.to_multiset_ensures();
        sa_window(*mdma_index, *m).to_multiset_ensures();
        assert(locs.len() == sa_window(*mdma_index, *m).len());

        assert forall|a: int| 0 <= a < locs.len() implies (#[trigger] locs[a] as int)
            < o.len() by {
            assert(locs.contains(locs[a]));
            assert(locs.to_multiset().contains(locs[a]));
            assert(sa_window(*mdma_index, *m).to_multiset().contains(locs[a]));
            assert(sa_window(*mdma_index, *m).contains(locs[a]));
            let w = choose|w: int|
                0 <= w < sa_window(*mdma_index, *m).len() && sa_window(*mdma_index, *m)[w]
                    == locs[a];
            assert(mdma_index.sa@[m.sa_index + w] == locs[a]);
        }
    }
    let eff: i32 = m.len as i32 - 1;
    let len_usize = m.len as usize;
    let mut count: u32 = 0;
    let mut flag = false;
    let mut first_loc: usize = 0;
    let mut last_end: usize = 0;
    let ghost mut accepted: Seq<int> = Seq::empty();
    let mut i: usize = 0;
    while i < locations.len()
        invariant
            locations@ == locs,
            o == mdma_index.offsets@,
            glen == m.len as int,
            2 <= m.len,
            eff == m.len - 1,
            len_usize == m.len,
            i <= locs.len() <= 0x7fff_ffff,
            forall|a: int| 0 <= a < locs.len() ==> (#[trigger] locs[a] as int) < o.len(),
            o.len() <= 0x7fff_ffff,
            greedy_sel(locs, o, glen, 0, 0) == accepted + greedy_sel(
                locs,
                o,
                glen,
                i as int,
                last_end as int,
            ),
            greedy_flag(locs, o, glen, 0, 0) == (flag || greedy_flag(
                locs,
                o,
                glen,
                i as int,
                last_end as int,
            )),
            count == accepted.len(),
            count <= i,
            accepted.len() > 0 ==> first_loc as int == accepted[0],
            last_end <= 0x7fff_ffff + 65536,
        decreases locs.len() - i,
    {
        let loc = locations[i];
        if loc < last_end {
            flag = true;
        } else if mdma_index.offsets[loc] >= eff {
            if count == 0 {
                first_loc = loc;
            }
            count = count + 1;
            proof {
                assert(greedy_sel(locs, o, glen, i as int, last_end as int) == seq![loc as int]
                    + greedy_sel(locs, o, glen, i + 1, loc + glen));
                assert(accepted + (seq![loc as int] + greedy_sel(locs, o, glen, i + 1, loc + glen))
                    =~= (accepted + seq![loc as int]) + greedy_sel(locs, o, glen, i + 1, loc + glen));
                accepted = accepted + seq![loc as int];
            }
            last_end = loc + len_usize;
        }
        i = i + 1;
    }
    m.self_ref = flag;
    proof {
        assert(greedy_sel(locs, o, glen, locs.len() as int, last_end as int) =~= Seq::<int>::empty());
        assert(greedy_sel(locs, o, glen, 0, 0) =~= accepted);
    }
    (count, first_loc)
}

/// Occurrence counting: the fast path for candidates whose occurrences
/// cannot overlap. Scans the window in suffix-array order and counts every
/// still-free occurrence, recording the leftmost.
pub fn count_fast(m: &mut Match, mdma_index: &MdmaIndex) -> (r: (u32, usize))
    requires
        count_pre(*old(m), *mdma_index),
    ensures
        *final(m) == *old(m),
        r.0 == nqual(sa_window(*mdma_index, *old(m)), mdma_index.offsets@, old(m).len as int),
        r.0 > 0 ==> qualifies(mdma_index.offsets@, r.1 as int, old(m).len as int) && sa_window(
            *mdma_index,
            *old(m),
        ).contains(r.1) && forall|j: int|
            0 <= j < sa_window(*mdma_index, *old(m)).len() && qualifies(
                mdma_index.offsets@,
                #[trigger] sa_window(*mdma_index, *old(m))[j] as int,
                old(m).len as int,
            ) ==> r.1 <= sa_window(*mdma_index, *old(m))[j],
{
    let start = m.sa_index as usize;
    let cnt = m.sa_count as usize;
    let eff: i32 = m.len as i32 - 1;
    let ghost w = sa_window(*mdma_index, *m);
    let ghost o = mdma_index.offsets@;
    let ghost glen = m.len as int;
    let mut count: u32 = 0;
    let mut best: usize = 0;
    let mut j: usize = 0;
    while j < cnt
        invariant
            j <= cnt,
            start == m.sa_index,
            cnt == m.sa_count,
            start + cnt <= mdma_index.sa@.len(),
            mdma_index.sa@.len() <= 0x7fff_ffff,
            w.len() == cnt,
            count_pre(*m, *mdma_index),
            w == sa_window(*mdma_index, *m),
            o == mdma_index.offsets@,
            glen == m.len as int,
            eff == m.len - 1,
            count == nqual(w.subrange(0, j as int), o, glen),
            count <= j,
            count > 0 ==> qualifies(o, best as int, glen) && w.contains(best) && forall|a: int|
                0 <= a < j && qualifies(o, #[trigger] w[a] as int, glen) ==> best <= w[a],
            count == 0 ==> forall|a: int| 0 <= a < j ==> !qualifies(o, #[trigger] w[a] as int, glen),
        decreases cnt - j,
    {
        let loc = mdma_index.sa[start + j];
        proof {
            assert(w[j as int] == mdma_index.sa@[start + j]);
            assert(w.subrange(0, j + 1).drop_last() =~= w.subrange(0, j as int));
        }
        if mdma_index.offsets[loc] >= eff {
            if count == 0 || loc < best {
                best = loc;
            }
            count = count + 1;
        }
        j = j + 1;
    }
    proof {
        assert(w.subrange(0, cnt as int) =~= w);
    }
    (count, best)
}

/// Counts the usable occurrences of a candidate and returns the count with
/// the leftmost usable occurrence. Dispatches to the overlap-resolving scan
/// while the candidate may self-overlap, and to the plain scan afterwards.
pub fn count(m: &mut Match, mdma_index: &MdmaIndex) -> (r: (u32, usize))
    requires
        count_pre(*old(m), *mdma_index),
        !old(m).self_ref ==> gap_ok(
            sorted_window(*mdma_index, *old(m)),
            mdma_index.offsets@,
            old(m).len as int,
        ),
    ensures
        count_post(*old(m), *final(m), *mdma_index, r),
{
    if m.self_ref {
        count_slow(m, mdma_index)
    } else {
        let r = count_fast(m, mdma_index);
        proof {
            broadcast use vstd::seq_lib::group_to_multiset_ensures;

            let locs = sorted_window(*mdma_index, *m);
            let w = sa_window(*mdma_index, *m);
            let o = mdma_index.offsets@;
            let glen = m.len as int;
            w.lemma_sort_by_ensures(le_usize());
            assert(locs.to_multiset() == w.to_multiset());
            lemma_gap_greedy_eq(locs, o, glen, 0, 0);
            lemma_qual_seq_len(locs, o, glen, 0);
            assert(locs.subrange(0, locs.len() as int) =~= locs);
            lemma_nqual_perm(w, locs, o, glen);
            let sel = greedy_sel(locs, o, glen, 0, 0);
            assert(sel == qual_seq(locs, o, glen, 0));
            assert(r.0 == sel.len());
            lemma_qual_seq_props(locs, o, glen, 0);
            if r.0 > 0 {
                // the leftmost qualifying occurrence is the first greedy pick
                assert(w.to_multiset().contains(r.1));
                assert(locs.contains(r.1));
                let jl = choose|jl: int| 0 <= jl < locs.len() && locs[jl] == r.1;
                assert(qualifies(o, locs[jl] as int, glen));
                assert(sorted_by(locs, le_usize()));
                assert(sel.len() > 0 && sel[0] <= locs[jl] as int);
                let je = choose|je: int|
                    0 <= je < locs.len() && (locs[je] as int) == sel[0] && qualifies(
                        o,
                        locs[je] as int,
                        glen,
                    );
                assert(locs.to_multiset().contains(locs[je]));
                assert(w.contains(locs[je]));
                let jw = choose|jw: int| 0 <= jw < w.len() && w[jw] == locs[je];
                assert(qualifies(o, w[jw] as int, glen));
                assert(r.1 <= w[jw]);
                assert(r.1 as int == sel[0]);
            }
        }
        r
    }
}

} // verus!
