//! Suffix array and LCP array construction.
//!
//! The suffix array is the permutation of all start offsets of the buffer,
//! sorted by the lexicographic order of the suffix starting at each offset.
//! The LCP array records the longest common prefix length between
//! lexicographically adjacent suffixes.

use vstd::prelude::*;
use vstd::set_lib::lemma_subset_equality;

verus! {

/// Lexicographic "less or equal" between the suffix of `buf` starting at `i`
/// and the suffix starting at `j`.
pub open spec fn suffix_le(buf: Seq<u8>, i: int, j: int) -> bool
    decreases buf.len() - i
        when 0 <= i <= buf.len() && 0 <= j <= buf.len()
{
    if i == buf.len() {
        true
    } else if j == buf.len() {
        false
    } else if buf[i] != buf[j] {
        buf[i] < buf[j]
    } else {
        suffix_le(buf, i + 1, j + 1)
    }
}

/// The length of the longest common prefix of the suffixes starting at `i` and `j`.
pub open spec fn lcp_spec(buf: Seq<u8>, i: int, j: int) -> int
    decreases buf.len() - i
        when 0 <= i <= buf.len() && 0 <= j <= buf.len()
{
    if i == buf.len() || j == buf.len() || buf[i] != buf[j] {
        0
    } else {
        1 + lcp_spec(buf, i + 1, j + 1)
    }
}

/// The suffixes starting at `i` and `j` agree on their first `l` bytes.
pub open spec fn common_pfx(buf: Seq<u8>, i: int, j: int, l: int) -> bool {
    &&& 0 <= i
    &&& 0 <= j
    &&& 0 <= l
    &&& i + l <= buf.len()
    &&& j + l <= buf.len()
    &&& forall|k: int| 0 <= k < l ==> buf[i + k] == #[trigger] buf[j + k]
}

/// The suffix order is total.
pub proof fn lemma_suffix_le_total(buf: Seq<u8>, i: int, j: int)
    requires
        0 <= i <= buf.len(),
        0 <= j <= buf.len(),
    ensures
        suffix_le(buf, i, j) || suffix_le(buf, j, i),
    decreases buf.len() - i,
{
    if i == buf.len() || j == buf.len() {
    } else if buf[i] != buf[j] {
    } else {
        lemma_suffix_le_total(buf, i + 1, j + 1);
    }
}

/// The suffix order is transitive.
pub proof fn lemma_suffix_le_trans(buf: Seq<u8>, i: int, j: int, k: int)
    requires
        0 <= i <= buf.len(),
        0 <= j <= buf.len(),
        0 <= k <= buf.len(),
        suffix_le(buf, i, j),
        suffix_le(buf, j, k),
    ensures
        suffix_le(buf, i, k),
    decreases buf.len() - i,
{
    if i == buf.len() {
    } else if j == buf.len() {
    } else if k == buf.len() {
    } else if buf[i] != buf[j] {
        // buf[i] < buf[j]
        if buf[j] != buf[k] {
        } else {
        }
    } else if buf[j] != buf[k] {
    } else {
        lemma_suffix_le_trans(buf, i + 1, j + 1, k + 1);
    }
}

/// A common prefix of length `l` is exactly an LCP of at least `l`.
pub proof fn lemma_lcp_common(buf: Seq<u8>, i: int, j: int, l: int)
    requires
        0 <= i <= buf.len(),
        0 <= j <= buf.len(),
        0 <= l,
    ensures
        common_pfx(buf, i, j, l) <==> (l <= lcp_spec(buf, i, j) && i + l <= buf.len() && j + l
            <= buf.len()),
    decreases l,
{
    lemma_lcp_bounds(buf, i, j);
    if l == 0 {
    } else {
        if i == buf.len() || j == buf.len() {
        } else if buf[i] != buf[j] {
            assert(common_pfx(buf, i, j, l) ==> buf[i + 0] == buf[j + 0]);
        }
        if i < buf.len() && j < buf.len() && buf[i] == buf[j] {
            lemma_lcp_common(buf, i + 1, j + 1, l - 1);
            if common_pfx(buf, i + 1, j + 1, l - 1) {
                assert forall|k: int| 0 <= k < l implies buf[i + k] == #[trigger] buf[j + k] by {
                    if k > 0 {
                        assert(buf[(i + 1) + (k - 1)] == buf[(j + 1) + (k - 1)]);
                    }
                }
            }
            if common_pfx(buf, i, j, l) {
                assert forall|k: int| 0 <= k < l - 1 implies buf[i + 1 + k] == #[trigger] buf[j + 1
                    + k] by {
                    assert(buf[i + (k + 1)] == buf[j + (k + 1)]);
                }
            }
        }
    }
}

/// The LCP of two suffixes is bounded by the lengths of both suffixes.
pub proof fn lemma_lcp_bounds(buf: Seq<u8>, i: int, j: int)
    requires
        0 <= i <= buf.len(),
        0 <= j <= buf.len(),
    ensures
        0 <= lcp_spec(buf, i, j),
        i + lcp_spec(buf, i, j) <= buf.len(),
        j + lcp_spec(buf, i, j) <= buf.len(),
    decreases buf.len() - i,
{
    if i == buf.len() || j == buf.len() || buf[i] != buf[j] {
    } else {
        lemma_lcp_bounds(buf, i + 1, j + 1);
    }
}

/// Well-formed suffix array for `buf`: a sorted sequence of distinct,
/// in-bounds suffix start offsets, one per position of `buf`.
pub open spec fn sa_wf(buf: Seq<u8>, sa: Seq<usize>) -> bool {
    &&& sa.len() == buf.len()
    &&& forall|i: int| 0 <= i < sa.len() ==> (sa[i] as int) < buf.len()
    &&& forall|i: int, j: int| 0 <= i < j < sa.len() ==> sa[i] != sa[j]
    &&& forall|i: int, j: int|
        0 <= i <= j < sa.len() ==> suffix_le(buf, sa[i] as int, sa[j] as int)
}


/// The suffix order is antisymmetric: suffixes starting at distinct offsets
/// never compare equal both ways.
pub proof fn lemma_suffix_le_antisym(buf: Seq<u8>, i: int, j: int)
    requires
        0 <= i <= buf.len(),
        0 <= j <= buf.len(),
        suffix_le(buf, i, j),
        suffix_le(buf, j, i),
    ensures
        i == j,
    decreases buf.len() - i,
{
    if i == buf.len() {
        if j < buf.len() {
            assert(!suffix_le(buf, j, i));
        }
    } else if j == buf.len() {
        assert(!suffix_le(buf, i, j));
    } else if buf[i] != buf[j] {
    } else {
        lemma_suffix_le_antisym(buf, i + 1, j + 1);
    }
}

/// The suffix-order comparison extended to a total order on all integers,
/// ordering out-of-range values numerically.
pub open spec fn suffix_le_total(buf: Seq<u8>) -> spec_fn(int, int) -> bool {
    |a: int, b: int|
        if 0 <= a <= buf.len() && 0 <= b <= buf.len() {
            suffix_le(buf, a, b)
        } else {
            a <= b
        }
}

/// A well-formed suffix array is the only one: the contract of
/// `build_suffix_array` determines its result completely.
pub proof fn lemma_sa_wf_unique(buf: Seq<u8>, sa1: Seq<usize>, sa2: Seq<usize>)
    requires
        sa_wf(buf, sa1),
        sa_wf(buf, sa2),
    ensures
        sa1 == sa2,
{
    broadcast use vstd::seq_lib::group_to_multiset_ensures;
    broadcast use vstd::set::group_set_axioms;
    broadcast use vstd::seq_lib::seq_to_set_is_finite;

    let nn = buf.len() as int;
    let leq = suffix_le_total(buf);
    let t1 = sa1.map_values(|v: usize| v as int);
    let t2 = sa2.map_values(|v: usize| v as int);
    lemma_sa_view_range(buf, sa1, t1);
    lemma_sa_view_range(buf, sa2, t2);
    // both enumerate exactly the offsets 0 .. buf.len()
    vstd::set_lib::lemma_int_range(0, nn);
    lemma_subset_equality(t1.to_set(), vstd::set_lib::set_int_range(0, nn));
    lemma_subset_equality(t2.to_set(), vstd::set_lib::set_int_range(0, nn));
    t1.lemma_multiset_has_no_duplicates();
    t2.lemma_multiset_has_no_duplicates();
    assert forall|x: int| true implies t1.to_multiset().count(x) == t2.to_multiset().count(
        x,
    ) by {
        if t1.to_set().contains(x) {
            assert(t1.contains(x) && t2.contains(x));
            assert(t1.to_multiset().count(x) == 1 && t2.to_multiset().count(x) == 1);
        } else {
            assert(!t1.contains(x) && !t2.contains(x));
            assert(t1.to_multiset().count(x) == 0 && t2.to_multiset().count(x) == 0);
        }
    }
    assert(t1.to_multiset() =~= t2.to_multiset());
    // the extended comparison is a total order
    assert(vstd::relations::total_ordering(leq)) by {
        assert forall|x: int| #[trigger] leq(x, x) by {
            if 0 <= x <= nn {
                lemma_suffix_le_total(buf, x, x);
            }
        }
        assert forall|x: int, y: int| #[trigger] leq(x, y) && #[trigger] leq(y, x) implies x
            == y by {
            if 0 <= x <= nn && 0 <= y <= nn {
                lemma_suffix_le_antisym(buf, x, y);
            }
        }
        assert forall|x: int, y: int, z: int| #[trigger] leq(x, y) && #[trigger] leq(y, z) implies leq(
            x,
            z,
        ) by {
            if 0 <= x <= nn && 0 <= y <= nn && 0 <= z <= nn {
                lemma_suffix_le_trans(buf, x, y, z);
            }
        }
        assert forall|x: int, y: int| #[trigger] leq(x, y) || #[trigger] leq(y, x) by {
            if 0 <= x <= nn && 0 <= y <= nn {
                lemma_suffix_le_total(buf, x, y);
            }
        }
    }
    vstd::seq_lib::lemma_sorted_unique(t1, t2, leq);
    assert(t1 =~= t2);
    assert forall|i: int| 0 <= i < sa1.len() implies sa1[i] == sa2[i] by {
        assert(t1[i] == t2[i]);
    }
    assert(sa1 =~= sa2);
}

/// The integer view of a well-formed suffix array: distinct in-range
/// offsets, sorted by the extended suffix order, enumerating 0 .. len.
proof fn lemma_sa_view_range(buf: Seq<u8>, sa: Seq<usize>, t: Seq<int>)
    requires
        sa_wf(buf, sa),
        t == sa.map_values(|v: usize| v as int),
    ensures
        t.no_duplicates(),
        t.to_set().subset_of(vstd::set_lib::set_int_range(0, buf.len() as int)),
        t.to_set().finite(),
        t.to_set().len() == buf.len(),
        vstd::relations::sorted_by(t, suffix_le_total(buf)),
{
    broadcast use vstd::set::group_set_axioms;
    broadcast use vstd::seq_lib::seq_to_set_is_finite;

    let nn = buf.len() as int;
    assert forall|i: int, j: int| 0 <= i < j < t.len() implies t[i] != t[j] by {
        assert(sa[i] != sa[j]);
    }
    assert(t.no_duplicates());
    t.unique_seq_to_set();
    assert forall|x: int| t.to_set().contains(x) implies vstd::set_lib::set_int_range(
        0,
        nn,
    ).contains(x) by {
        assert(t.contains(x));
        let i = choose|i: int| 0 <= i < t.len() && t[i] == x;
        assert(sa[i] as int == x);
    }
    assert forall|i: int, j: int|
        0 <= i < j < t.len() implies #[trigger] suffix_le_total(buf)(t[i], t[j]) by {
        assert(suffix_le(buf, sa[i] as int, sa[j] as int));
    }
}

/// Compares the suffixes of `buf` starting at `i` and `j` in lexicographic order.
fn suffix_le_exec(buf: &Vec<u8>, i: usize, j: usize) -> (r: bool)
    requires
        i <= buf@.len(),
        j <= buf@.len(),
    ensures
        r == suffix_le(buf@, i as int, j as int),
{
    let n = buf.len();
    let mut k: usize = 0;
    loop
        invariant
            i + k <= n,
            j + k <= n,
            n == buf@.len(),
            suffix_le(buf@, i as int, j as int) == suffix_le(buf@, i + k, j + k),
        decreases n - (i + k),
    {
        if i + k == n {
            return true;
        }
        if j + k == n {
            return false;
        }
        let a = buf[i + k];
        let b = buf[j + k];
        if a != b {
            return a < b;
        }
        k = k + 1;
    }
}

/// Builds the suffix array of `buf` by insertion sort over the suffix order.
pub fn build_suffix_array(buf: &Vec<u8>) -> (sa: Vec<usize>)
    ensures
        sa_wf(buf@, sa@),
{
    let n = buf.len();
    let mut sa: Vec<usize> = Vec::new();
    let mut p: usize = 0;
    while p < n
        invariant
            p <= n,
            sa@.len() == p,
            forall|i: int| 0 <= i < p ==> sa@[i] == i,
        decreases n - p,
    {
        sa.push(p);
        p = p + 1;
    }
    if n == 0 {
        return sa;
    }
    proof {
        assert forall|a: int| 0 <= a < n implies suffix_le(
            buf@,
            #[trigger] sa@[a] as int,
            sa@[a] as int,
        ) by {
            lemma_suffix_le_total(buf@, sa@[a] as int, sa@[a] as int);
        }
    }
    let mut i: usize = 1;
    while i < n
        invariant
            n == buf@.len(),
            1 <= i,
            i <= n,
            sa@.len() == n,
            forall|a: int| 0 <= a < n ==> (sa@[a] as int) < n,
            forall|a: int, b: int| 0 <= a < b < n ==> sa@[a] != sa@[b],
            forall|a: int, b: int|
                0 <= a <= b < i ==> suffix_le(buf@, sa@[a] as int, sa@[b] as int),
        decreases n - i,
    {
        let mut j: usize = i;
        while j > 0 && !suffix_le_exec(buf, sa[j - 1], sa[j])
            invariant
                n == buf@.len(),
                j <= i < n,
                sa@.len() == n,
                forall|a: int| 0 <= a < n ==> (sa@[a] as int) < n,
                forall|a: int, b: int| 0 <= a < b < n ==> sa@[a] != sa@[b],
                forall|a: int, b: int|
                    0 <= a <= b <= i && b != j ==> suffix_le(buf@, sa@[a] as int, sa@[b] as int),
                forall|a: int|
                    j < a <= i ==> suffix_le(buf@, sa@[j as int] as int, sa@[a] as int),
            decreases j,
        {
            let x = sa[j - 1];
            let y = sa[j];
            sa.set(j - 1, y);
            sa.set(j, x);
            proof {
                lemma_suffix_le_total(buf@, x as int, y as int);
                assert forall|a: int|
                    j - 1 < a <= i implies suffix_le(
                    buf@,
                    sa@[j - 1] as int,
                    #[trigger] sa@[a] as int,
                ) by {
                    if a == j {
                    } else {
                        lemma_suffix_le_trans(buf@, y as int, x as int, sa@[a] as int);
                    }
                }
            }
            j = j - 1;
        }
        proof {
            assert forall|a: int, b: int|
                0 <= a <= b <= i implies suffix_le(buf@, sa@[a] as int, sa@[b] as int) by {
                if b == j {
                    if a < j {
                        // sa[j-1] <= sa[j] from loop exit, and prefix is sorted
                        assert(suffix_le(buf@, sa@[a] as int, sa@[j - 1] as int));
                        lemma_suffix_le_trans(
                            buf@,
                            sa@[a] as int,
                            sa@[j - 1] as int,
                            sa@[b] as int,
                        );
                    } else {
                        lemma_suffix_le_total(buf@, sa@[a] as int, sa@[a] as int);
                    }
                }
            }
        }
        i = i + 1;
    }
    sa
}

/// Computes the exact longest common prefix length of the suffixes at `i` and `j`.
fn lcp_len(buf: &Vec<u8>, i: usize, j: usize) -> (r: usize)
    requires
        i <= buf@.len(),
        j <= buf@.len(),
    ensures
        r == lcp_spec(buf@, i as int, j as int),
{
    let n = buf.len();
    let mut k: usize = 0;
    loop
        invariant
            i + k <= n,
            j + k <= n,
            n == buf@.len(),
            lcp_spec(buf@, i as int, j as int) == k + lcp_spec(buf@, i + k, j + k),
        decreases n - (i + k),
    {
        if i + k == n || j + k == n {
            return k;
        }
        if buf[i + k] != buf[j + k] {
            return k;
        }
        k = k + 1;
    }
}


/// The LCP array a buffer and its suffix array determine: the exact common
/// prefix length of each adjacent pair of suffixes, with a trailing 0.
pub open spec fn lcp_of(buf: Seq<u8>, sa: Seq<usize>) -> Seq<usize> {
    Seq::new(
        sa.len(),
        |i: int|
            if i < sa.len() - 1 {
                lcp_spec(buf, sa[i] as int, sa[i + 1] as int) as usize
            } else {
                0usize
            },
    )
}

/// Builds the LCP array: `lcp[i]` is the longest common prefix length of the
/// suffixes ranked `i` and `i + 1` in the suffix array; the last entry is 0.
pub fn build_lcp_array(buf: &Vec<u8>, sa: &Vec<usize>) -> (lcp: Vec<usize>)
    requires
        sa@.len() == buf@.len(),
        forall|i: int| 0 <= i < sa@.len() ==> (sa@[i] as int) < buf@.len(),
    ensures
        lcp@.len() == sa@.len(),
        forall|i: int|
            0 <= i < lcp@.len() - 1 ==> lcp@[i] == lcp_spec(
                buf@,
                sa@[i] as int,
                sa@[i + 1] as int,
            ),
        lcp@.len() > 0 ==> lcp@[lcp@.len() - 1] == 0,
        lcp@ == lcp_of(buf@, sa@),
{
    let n = sa.len();
    let mut lcp: Vec<usize> = Vec::new();
    let mut i: usize = 0;
    while i < n
        invariant
            i <= n,
            n == sa@.len() == buf@.len(),
            forall|a: int| 0 <= a < n ==> (sa@[a] as int) < n,
            lcp@.len() == i,
            forall|a: int|
                0 <= a < i && a < n - 1 ==> lcp@[a] == lcp_spec(
                    buf@,
                    sa@[a] as int,
                    sa@[a + 1] as int,
                ),
            forall|a: int| 0 <= a < i && a == n - 1 ==> lcp@[a] == 0,
        decreases n - i,
    {
        if i + 1 < n {
            let v = lcp_len(buf, sa[i], sa[i + 1]);
            lcp.push(v);
        } else {
            lcp.push(0);
        }
        i = i + 1;
    }
    proof {
        assert forall|a: int| 0 <= a < n implies lcp@[a] == lcp_of(buf@, sa@)[a] by {
            if a < n - 1 {
                lemma_lcp_bounds(buf@, sa@[a] as int, sa@[a + 1] as int);
            }
        }
        assert(lcp@ =~= lcp_of(buf@, sa@));
    }
    lcp
}

} // verus!
