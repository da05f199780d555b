//! Permutation machinery shared by the crossover operators: the
//! zero-separator remapping to distinct synthetic values, its inverse,
//! and the counting lemmas that carry the genome invariant across it.

use vstd::prelude::*;
use vstd::set_lib::{lemma_int_range, lemma_len_subset, set_int_range};
use crate::decode::{
    lemma_zeros_upto_all, lemma_zeros_upto_monotone, lemma_zeros_upto_step, valid_order,
    zeros_upto,
};

verus! {

broadcast use vstd::seq_lib::group_to_multiset_ensures;

/// A permutation of the full value range `1..=l`.
pub open spec fn is_perm_full(s: Seq<i64>, l: int) -> bool {
    &&& s.len() == l
    &&& forall|i: int| 0 <= i < l ==> 1 <= #[trigger] s[i] <= l
    &&& forall|i: int, j: int| 0 <= i < j < l ==> s[i] != s[j]
    &&& forall|x: i64| 1 <= x <= l ==> s.contains(x)
}

/// Two positions holding the same value push its count to two.
pub proof fn lemma_count_ge_two(s: Seq<i64>, i: int, j: int)
    requires
        0 <= i < j < s.len(),
        s[i] == s[j],
    ensures
        s.to_multiset().count(s[i]) >= 2,
{
    let x = s[i];
    let t = s.remove(i);
    assert(t.to_multiset() =~= s.to_multiset().remove(x));
    assert(t[j - 1] == x);
    assert(t.contains(x));
    assert(t.to_multiset().count(x) > 0);
}

/// A value whose only occurrence is at `i` has count one.
pub proof fn lemma_count_unique_position(s: Seq<i64>, x: i64, i: int)
    requires
        0 <= i < s.len(),
        s[i] == x,
        forall|j: int| 0 <= j < s.len() && j != i ==> s[j] != x,
    ensures
        s.to_multiset().count(x) == 1,
{
    let t = s.remove(i);
    assert(t.to_multiset() =~= s.to_multiset().remove(x));
    assert(forall|k: int| 0 <= k < t.len() ==> t[k] != x);
    assert(!t.contains(x));
    assert(t.to_multiset().count(x) == 0);
    assert(s.contains(x));
    assert(s.to_multiset().count(x) > 0);
}

/// A sequence of pairwise-distinct values drawn from `lo..=hi` cannot
/// be longer than that range.
pub proof fn lemma_distinct_bounded(s: Seq<i64>, lo: int, hi: int)
    requires
        lo <= hi + 1,
        forall|i: int| 0 <= i < s.len() ==> lo <= #[trigger] s[i] <= hi,
        forall|i: int, j: int| 0 <= i < j < s.len() ==> s[i] != s[j],
    ensures
        s.len() <= hi - lo + 1,
{
    let m = s.map_values(|v: i64| v as int);
    assert(m.no_duplicates()) by {
        assert forall|i: int, j: int|
            0 <= i < m.len() && 0 <= j < m.len() && i != j implies m[i] != m[j] by {
            if i < j {
                assert(s[i] != s[j]);
            } else {
                assert(s[j] != s[i]);
            }
        }
    }
    m.unique_seq_to_set();
    let rng = set_int_range(lo, hi + 1);
    lemma_int_range(lo, hi + 1);
    assert(m.to_set().subset_of(rng)) by {
        assert forall|x: int| m.to_set().contains(x) implies rng.contains(x) by {
            assert(m.contains(x));
            let i = choose|i: int| 0 <= i < m.len() && m[i] == x;
            assert(lo <= s[i] <= hi);
        }
    }
    lemma_len_subset(m.to_set(), rng);
}

/// Likewise for sequences of positions.
pub proof fn lemma_distinct_int_bounded(s: Seq<int>, lo: int, hi: int)
    requires
        lo <= hi + 1,
        forall|i: int| 0 <= i < s.len() ==> lo <= #[trigger] s[i] <= hi,
        forall|i: int, j: int| 0 <= i < j < s.len() ==> s[i] != s[j],
    ensures
        s.len() <= hi - lo + 1,
{
    assert(s.no_duplicates()) by {
        assert forall|i: int, j: int|
            0 <= i < s.len() && 0 <= j < s.len() && i != j implies s[i] != s[j] by {
            if i < j {
                assert(s[i] != s[j]);
            } else {
                assert(s[j] != s[i]);
            }
        }
    }
    s.unique_seq_to_set();
    let rng = set_int_range(lo, hi + 1);
    lemma_int_range(lo, hi + 1);
    assert(s.to_set().subset_of(rng)) by {
        assert forall|x: int| s.to_set().contains(x) implies rng.contains(x) by {
            assert(s.contains(x));
            let i = choose|i: int| 0 <= i < s.len() && s[i] == x;
            assert(lo <= s[i] <= hi);
        }
    }
    lemma_len_subset(s.to_set(), rng);
}

/// Sum of the multiset counts of the values `a..=b`.
pub open spec fn sum_counts(s: Seq<i64>, a: int, b: int) -> int
    decreases b - a + 1,
{
    if b < a {
        0
    } else {
        sum_counts(s, a, b - 1) + s.to_multiset().count(b as i64)
    }
}

/// Appending one element raises the count sum by one iff the element
/// lies in the summed range.
pub proof fn lemma_sum_counts_push(s: Seq<i64>, e: i64, a: int, b: int)
    requires
        a <= b + 1,
        -1_000_000_000 <= a,
        b <= 1_000_000_000,
    ensures
        sum_counts(s.push(e), a, b) == sum_counts(s, a, b) + (if a <= e <= b {
            1int
        } else {
            0int
        }),
    decreases b - a + 1,
{
    if b >= a {
        lemma_sum_counts_push(s, e, a, b - 1);
        assert(s.push(e).to_multiset() =~= s.to_multiset().insert(e));
    }
}

/// All counts in an empty sequence are zero.
proof fn lemma_sum_counts_zero(s: Seq<i64>, a: int, b: int)
    requires
        s.len() == 0,
        -1_000_000_000 <= a,
        b <= 1_000_000_000,
    ensures
        sum_counts(s, a, b) == 0,
    decreases b - a + 1_000_000_001,
{
    if b >= a {
        lemma_sum_counts_zero(s, a, b - 1);
        assert(!s.contains(b as i64));
        assert(s.to_multiset().count(b as i64) == 0);
    }
}

/// Every entry lies in `0..=n`, so the zero count and the counts of
/// `1..=n` together exhaust the length.
pub proof fn lemma_counts_partition(s: Seq<i64>, n: int)
    requires
        0 <= n <= 1_000_000_000,
        forall|i: int| 0 <= i < s.len() ==> 0 <= #[trigger] s[i] <= n,
    ensures
        s.to_multiset().count(0i64) + sum_counts(s, 1, n) == s.len(),
    decreases s.len(),
{
    if s.len() == 0 {
        assert(!s.contains(0i64));
        assert(s.to_multiset().count(0i64) == 0);
        lemma_sum_counts_zero(s, 1, n);
    } else {
        let u = s.drop_last();
        let e = s.last();
        assert(forall|i: int| 0 <= i < u.len() ==> 0 <= #[trigger] u[i] <= n) by {
            assert(forall|i: int| 0 <= i < u.len() ==> u[i] == s[i]);
        }
        lemma_counts_partition(u, n);
        assert(s =~= u.push(e));
        lemma_sum_counts_push(u, e, 1, n);
        assert(u.push(e).to_multiset() =~= u.to_multiset().insert(e));
    }
}

/// When every value of `a..=b` has count one, the sum is the range size.
pub proof fn lemma_sum_counts_ones(s: Seq<i64>, a: int, b: int)
    requires
        a <= b + 1,
        -1_000_000_000 <= a,
        b <= 1_000_000_000,
        forall|x: i64| a <= x <= b ==> s.to_multiset().count(x) == 1,
    ensures
        sum_counts(s, a, b) == b - a + 1,
    decreases b - a + 1,
{
    if b >= a {
        lemma_sum_counts_ones(s, a, b - 1);
        assert(s.to_multiset().count(b as i64) == 1);
    }
}

/// Somewhere a `k`-th zero stands (zero-based among the zeros).
pub proof fn lemma_kth_zero_exists(s: Seq<i64>, k: int, j: int)
    requires
        0 <= k,
        0 <= j <= s.len(),
        zeros_upto(s, j) >= k + 1,
    ensures
        exists|i: int| 0 <= i < j && s[i] == 0i64 && zeros_upto(s, i) == k,
    decreases j,
{
    assert(zeros_upto(s, 0) == 0) by {
        assert(s.take(0) =~= Seq::<i64>::empty());
        assert(!s.take(0).contains(0i64));
    }
    if j > 0 {
        lemma_zeros_upto_step(s, j - 1);
        if zeros_upto(s, j - 1) >= k + 1 {
            lemma_kth_zero_exists(s, k, j - 1);
            let i = choose|i: int| 0 <= i < j - 1 && s[i] == 0i64 && zeros_upto(s, i) == k;
            assert(0 <= i < j && s[i] == 0i64 && zeros_upto(s, i) == k);
        } else {
            assert(s[j - 1] == 0i64 && zeros_upto(s, j - 1) == k);
        }
    }
}

/// The separator remapping as a sequence function: the `k`-th zero
/// becomes the `k`-th synthetic value above the customer range.
pub open spec fn remap_spec(s: Seq<i64>, n: int) -> Seq<i64> {
    Seq::new(
        s.len(),
        |i: int|
            if s[i] == 0i64 {
                (n + zeros_upto(s, i) + 1) as i64
            } else {
                s[i]
            },
    )
}

/// Its inverse direction: everything above the customer range becomes
/// a zero separator again.
pub open spec fn unmap_spec(s: Seq<i64>, n: int) -> Seq<i64> {
    Seq::new(
        s.len(),
        |i: int|
            if s[i] > n {
                0i64
            } else {
                s[i]
            },
    )
}

/// Replace each zero separator by a distinct synthetic value above the
/// customer range — the `k`-th zero becomes `n + k` — so that the
/// sequence turns into a permutation of `1..=len` with no duplicates.
pub fn remap_zeros(v: &Vec<i64>, n: usize) -> (r: Vec<i64>)
    requires
        valid_order(v@, n as int, v@.len() - n + 1),
        v@.len() <= 1_000_000,
    ensures
        r@.len() == v@.len(),
        forall|i: int|
            0 <= i < v@.len() ==> #[trigger] r@[i] == (if v@[i] == 0i64 {
                (n + zeros_upto(v@, i) + 1) as i64
            } else {
                v@[i]
            }),
        is_perm_full(r@, v@.len() as int),
        r@ == remap_spec(v@, n as int),
{
    let ghost s = v@;
    let ghost l = v@.len() as int;
    let ghost vt = l - n + 1;
    let mut r: Vec<i64> = Vec::new();
    let mut t: i64 = n as i64;
    let mut i: usize = 0;
    proof {
        assert(s.take(0) =~= Seq::<i64>::empty());
        assert(!s.take(0).contains(0i64));
    }
    while i < v.len()
        invariant
            s == v@,
            0 <= i <= s.len(),
            s.len() <= 1_000_000,
            valid_order(s, n as int, vt),
            vt == s.len() - n + 1,
            r@.len() == i,
            t as int == n + zeros_upto(s, i as int),
            n + zeros_upto(s, i as int) <= s.len(),
            forall|k: int|
                0 <= k < i ==> #[trigger] r@[k] == (if s[k] == 0i64 {
                    (n + zeros_upto(s, k) + 1) as i64
                } else {
                    s[k]
                }),
        decreases s.len() - i,
    {
        proof {
            lemma_zeros_upto_step(s, i as int);
            lemma_zeros_upto_monotone(s, i as int + 1, s.len() as int);
            lemma_zeros_upto_all(s);
        }
        if v[i] == 0 {
            t = t + 1;
            r.push(t);
        } else {
            r.push(v[i]);
        }
        i = i + 1;
    }
    proof {
        lemma_remap_is_perm(s, r@, n as int, l);
        assert(r@ =~= remap_spec(s, n as int));
    }
    r
}

/// The remapped sequence is a duplicate-free permutation of `1..=l`.
proof fn lemma_remap_is_perm(s: Seq<i64>, r: Seq<i64>, n: int, l: int)
    requires
        0 <= n,
        l <= 1_000_000,
        valid_order(s, n, l - n + 1),
        l == s.len(),
        r.len() == l,
        forall|i: int|
            0 <= i < l ==> #[trigger] r[i] == (if s[i] == 0i64 {
                (n + zeros_upto(s, i) + 1) as i64
            } else {
                s[i]
            }),
    ensures
        is_perm_full(r, l),
{
    let vt = l - n + 1;
    lemma_zeros_upto_all(s);
    // range
    assert forall|i: int| 0 <= i < l implies 1 <= #[trigger] r[i] <= l by {
        if s[i] == 0i64 {
            lemma_zeros_upto_step(s, i);
            lemma_zeros_upto_monotone(s, i + 1, l);
            assert(1 <= n + zeros_upto(s, i) + 1 <= l);
            assert(r[i] == n + zeros_upto(s, i) + 1);
        }
    }
    // no duplicates
    assert forall|i: int, j: int| 0 <= i < j < l implies r[i] != r[j] by {
        if s[i] == 0i64 && s[j] == 0i64 {
            lemma_zeros_upto_step(s, i);
            lemma_zeros_upto_monotone(s, i + 1, j);
            lemma_zeros_upto_monotone(s, j, l);
            lemma_zeros_upto_monotone(s, i + 1, l);
            assert(r[i] == n + zeros_upto(s, i) + 1);
            assert(r[j] == n + zeros_upto(s, j) + 1);
        } else if s[i] != 0i64 && s[j] != 0i64 {
            if s[i] == s[j] {
                lemma_count_ge_two(s, i, j);
            }
        } else if s[i] == 0i64 {
            lemma_zeros_upto_step(s, i);
            lemma_zeros_upto_monotone(s, i + 1, l);
            assert(r[i] == n + zeros_upto(s, i) + 1);
            assert(r[i] > n && 1 <= r[j] <= n);
        } else {
            lemma_zeros_upto_step(s, j);
            lemma_zeros_upto_monotone(s, j + 1, l);
            assert(r[j] == n + zeros_upto(s, j) + 1);
            assert(r[j] > n && 1 <= r[i] <= n);
        }
    }
    // every value occurs
    assert forall|x: i64| 1 <= x <= l implies r.contains(x) by {
        if x <= n {
            assert(s.to_multiset().count(x) == 1);
            assert(s.contains(x));
            let i = choose|i: int| 0 <= i < s.len() && s[i] == x;
            assert(r[i] == x);
            assert(r.contains(x));
        } else {
            let k = x - n - 1;
            assert(zeros_upto(s, l) == vt - 1);
            lemma_kth_zero_exists(s, k, l);
            let i = choose|i: int| 0 <= i < l && s[i] == 0i64 && zeros_upto(s, i) == k;
            assert(r[i] == n + zeros_upto(s, i) + 1);
            assert(r[i] == x);
            assert(r.contains(x));
        }
    }
}

/// Map every synthetic separator value (above the customer range)
/// back to zero.
pub fn unmap_zeros(v: Vec<i64>, n: usize) -> (r: Vec<i64>)
    requires
        n <= 1_000_000,
    ensures
        r@.len() == v@.len(),
        forall|i: int|
            0 <= i < v@.len() ==> #[trigger] r@[i] == (if v@[i] > n {
                0i64
            } else {
                v@[i]
            }),
        r@ == unmap_spec(v@, n as int),
{
    let ghost s = v@;
    let mut r = v;
    let mut i: usize = 0;
    while i < r.len()
        invariant
            r@.len() == s.len(),
            0 <= i <= s.len(),
            n <= 1_000_000,
            forall|k: int| i <= k < s.len() ==> r@[k] == s[k],
            forall|k: int|
                0 <= k < i ==> #[trigger] r@[k] == (if s[k] > n {
                    0i64
                } else {
                    s[k]
                }),
        decreases s.len() - i,
    {
        if r[i] > n as i64 {
            r.set(i, 0);
        }
        i = i + 1;
    }
    proof {
        assert(r@ =~= unmap_spec(s, n as int));
    }
    r
}

/// Unmapping a full permutation restores the genome invariant.
pub proof fn lemma_unmap_valid_order(c: Seq<i64>, u: Seq<i64>, n: int, l: int)
    requires
        0 <= n <= l,
        l <= 1_000_000,
        is_perm_full(c, l),
        u.len() == l,
        forall|i: int|
            0 <= i < l ==> #[trigger] u[i] == (if c[i] > n {
                0i64
            } else {
                c[i]
            }),
    ensures
        valid_order(u, n, l - n + 1),
{
    assert forall|x: i64| 1 <= x <= n implies u.to_multiset().count(x) == 1 by {
        assert(c.contains(x));
        let i = choose|i: int| 0 <= i < c.len() && c[i] == x;
        assert(u[i] == x);
        assert forall|j: int| 0 <= j < u.len() && j != i implies u[j] != x by {
            if c[j] <= n {
                if j < i {
                    assert(c[j] != c[i]);
                } else {
                    assert(c[i] != c[j]);
                }
            }
        }
        lemma_count_unique_position(u, x, i);
    }
    lemma_counts_partition(u, n);
    lemma_sum_counts_ones(u, 1, n);
    assert(u.to_multiset().count(0i64) == l - n);
}

/// Pairwise-distinct values of `1..=l` filling length `l` leave no
/// value out.
pub proof fn lemma_distinct_full(s: Seq<i64>, l: int)
    requires
        s.len() == l,
        1 <= l <= 1_000_000,
        forall|i: int| 0 <= i < l ==> 1 <= #[trigger] s[i] <= l,
        forall|i: int, j: int| 0 <= i < j < l ==> s[i] != s[j],
    ensures
        is_perm_full(s, l),
{
    let m = s.map_values(|v: i64| v as int);
    assert(m.no_duplicates()) by {
        assert forall|i: int, j: int|
            0 <= i < m.len() && 0 <= j < m.len() && i != j implies m[i] != m[j] by {
            if i < j {
                assert(s[i] != s[j]);
            } else {
                assert(s[j] != s[i]);
            }
        }
    }
    m.unique_seq_to_set();
    lemma_int_range(1, l + 1);
    assert forall|x: i64| 1 <= x <= l implies s.contains(x) by {
        if !s.contains(x) {
            let rng = set_int_range(1, l + 1).remove(x as int);
            assert(set_int_range(1, l + 1).contains(x as int));
            assert(rng.len() == l - 1);
            assert(m.to_set().subset_of(rng)) by {
                assert forall|y: int| m.to_set().contains(y) implies rng.contains(y) by {
                    assert(m.contains(y));
                    let i = choose|i: int| 0 <= i < m.len() && m[i] == y;
                    assert(1 <= s[i] <= l);
                    if s[i] == x {
                        assert(s.contains(x));
                    }
                }
            }
            lemma_len_subset(m.to_set(), rng);
            assert(false);
        }
    }
}

/// First position of `x` in `v`.
pub fn find_pos(v: &Vec<i64>, x: i64) -> (r: usize)
    requires
        v@.contains(x),
    ensures
        r < v@.len(),
        v@[r as int] == x,
{
    let mut i: usize = 0;
    while i < v.len()
        invariant
            0 <= i <= v@.len(),
            v@.contains(x),
            forall|k: int| 0 <= k < i ==> v@[k] != x,
        decreases v@.len() - i,
    {
        if v[i] == x {
            return i;
        }
        i = i + 1;
    }
    proof {
        let k = choose|k: int| 0 <= k < v@.len() && v@[k] == x;
        assert(false);
    }
    0
}

/// Whether `v` holds `x`.
pub fn contains_val(v: &Vec<i64>, x: i64) -> (r: bool)
    ensures
        r == v@.contains(x),
{
    let mut i: usize = 0;
    while i < v.len()
        invariant
            0 <= i <= v@.len(),
            forall|k: int| 0 <= k < i ==> v@[k] != x,
        decreases v@.len() - i,
    {
        if v[i] == x {
            return true;
        }
        i = i + 1;
    }
    false
}

} // verus!
