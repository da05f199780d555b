//! Partially-mapped crossover: a random slice of one parent is copied
//! verbatim, the other parent's slice values are placed by the standard
//! legality chase, and the gaps are filled in the other parent's order.
//! Zero separators take part as distinct synthetic values so the
//! algorithm sees two duplicate-free permutations.

use vstd::prelude::*;
use vstd::set_lib::{lemma_int_range, lemma_len_subset, set_int_range};
use crate::decode::{
    lemma_zeros_upto_all, lemma_zeros_upto_monotone, valid_order, zeros_upto,
};
use crate::genome::Genome;
use crate::perm::{
    contains_val, find_pos, is_perm_full, lemma_distinct_int_bounded, lemma_unmap_valid_order,
    remap_zeros, unmap_zeros,
};

verus! {

/// The child under construction: every written value is in range and
/// no value stands in two places; the copied slice never changes.
pub open spec fn child_wf(ch: Seq<i64>, p1: Seq<i64>, l: int, begin: int, len: int) -> bool {
    &&& ch.len() == l
    &&& forall|i: int| 0 <= i < l && ch[i] != i64::MAX ==> 1 <= #[trigger] ch[i] <= l
    &&& forall|i: int, j: int|
        0 <= i < j < l && ch[i] != i64::MAX && ch[j] != i64::MAX ==> ch[i] != ch[j]
    &&& forall|i: int| begin <= i < begin + len ==> ch[i] == p1[i]
}

/// A duplicate-free partial child that misses a value must still have
/// an empty slot.
proof fn lemma_missing_gives_empty(ch: Seq<i64>, l: int, x: i64)
    requires
        ch.len() == l,
        1 <= l <= 1_000_000,
        1 <= x <= l,
        !ch.contains(x),
        forall|i: int| 0 <= i < l && ch[i] != i64::MAX ==> 1 <= #[trigger] ch[i] <= l,
        forall|i: int, j: int|
            0 <= i < j < l && ch[i] != i64::MAX && ch[j] != i64::MAX ==> ch[i] != ch[j],
    ensures
        exists|k: int| 0 <= k < l && ch[k] == i64::MAX,
{
    if forall|k: int| 0 <= k < l ==> #[trigger] ch[k] != i64::MAX {
        let m = ch.map_values(|v: i64| v as int);
        assert(m.no_duplicates()) by {
            assert forall|i: int, j: int|
                0 <= i < m.len() && 0 <= j < m.len() && i != j implies m[i] != m[j] by {
                if i < j {
                    assert(ch[i] != ch[j]);
                } else {
                    assert(ch[j] != ch[i]);
                }
            }
        }
        m.unique_seq_to_set();
        let rng = set_int_range(1, l + 1).remove(x as int);
        lemma_int_range(1, l + 1);
        assert(set_int_range(1, l + 1).contains(x as int));
        assert(rng.len() == l - 1);
        assert(m.to_set().subset_of(rng)) by {
            assert forall|y: int| m.to_set().contains(y) implies rng.contains(y) by {
                assert(m.contains(y));
                let i = choose|i: int| 0 <= i < m.len() && m[i] == y;
                assert(1 <= ch[i] <= l);
                assert(ch[i] != x);
            }
        }
        lemma_len_subset(m.to_set(), rng);
        assert(false);
    }
}

/// A duplicate-free child of length `l` holding all of `1..=l` has no
/// empty slot left: it is a full permutation.
proof fn lemma_full_child_is_perm(ch: Seq<i64>, l: int)
    requires
        ch.len() == l,
        1 <= l <= 1_000_000,
        forall|i: int| 0 <= i < l && ch[i] != i64::MAX ==> 1 <= #[trigger] ch[i] <= l,
        forall|i: int, j: int|
            0 <= i < j < l && ch[i] != i64::MAX && ch[j] != i64::MAX ==> ch[i] != ch[j],
        forall|x: i64| 1 <= x <= l ==> ch.contains(x),
    ensures
        is_perm_full(ch, l),
{
    let m = ch.map_values(|v: i64| v as int);
    let rng = set_int_range(1, l + 1);
    lemma_int_range(1, l + 1);
    m.lemma_cardinality_of_set();
    assert(rng.subset_of(m.to_set())) by {
        assert forall|y: int| rng.contains(y) implies m.to_set().contains(y) by {
            assert(ch.contains(y as i64));
            let i = choose|i: int| 0 <= i < ch.len() && ch[i] == y as i64;
            assert(m[i] == y);
            assert(m.contains(y));
        }
    }
    assert forall|k: int| 0 <= k < l implies #[trigger] ch[k] != i64::MAX by {
        if ch[k] == i64::MAX {
            let big = rng.insert(i64::MAX as int);
            assert(m[k] == i64::MAX as int);
            assert(m.contains(i64::MAX as int));
            assert(big.subset_of(m.to_set()));
            assert(!rng.contains(i64::MAX as int));
            assert(big.len() == l + 1);
            lemma_len_subset(big, m.to_set());
            lemma_len_subset(m.to_set(), m.to_set());
            assert(m.to_set().len() <= l);
            assert(false);
        }
    }
}

/// Build one PMX child: the slice of `p1`, the chased values of `p2`'s
/// slice, and `p2`'s remaining values in order.
pub fn pmx_child(p1: &Vec<i64>, p2: &Vec<i64>, begin: usize, len: usize) -> (r: Vec<i64>)
    requires
        is_perm_full(p1@, p1@.len() as int),
        is_perm_full(p2@, p1@.len() as int),
        p2@.len() == p1@.len(),
        1 <= p1@.len() <= 1_000_000,
        begin + len <= p1@.len(),
    ensures
        is_perm_full(r@, p1@.len() as int),
        forall|k: int| begin <= k < begin + len ==> #[trigger] r@[k] == p1@[k],
        p1@ == p2@ ==> r@ == p1@,
{
    let ghost l = p1@.len() as int;
    let l_exec = p1.len();
    let mut child: Vec<i64> = vec![i64::MAX; l_exec];
    // copy the slice of p1 verbatim
    let mut k = begin;
    while k < begin + len
        invariant
            begin <= k <= begin + len,
            begin + len <= l,
            l == p1@.len(),
            child@.len() == l,
            1 <= l <= 1_000_000,
            is_perm_full(p1@, l),
            forall|i: int| begin <= i < k ==> child@[i] == p1@[i],
            forall|i: int| 0 <= i < l && !(begin <= i < k) ==> child@[i] == i64::MAX,
        decreases begin + len - k,
    {
        child.set(k, p1[k]);
        k = k + 1;
    }
    proof {
        assert(child_wf(child@, p1@, l, begin as int, len as int));
    }
    // legality chase for every slice value of p2 not already present
    let mut t: usize = 0;
    while t < len
        invariant
            0 <= t <= len,
            begin + len <= l,
            l == p1@.len() == p2@.len(),
            1 <= l <= 1_000_000,
            is_perm_full(p1@, l),
            is_perm_full(p2@, l),
            child_wf(child@, p1@, l, begin as int, len as int),
            p1@ == p2@ ==> forall|q: int|
                0 <= q < l ==> child@[q] == (if begin <= q < begin + len {
                    p1@[q]
                } else {
                    i64::MAX
                }),
        decreases len - t,
    {
        let n = p2[begin + t];
        if !contains_val(&child, n) {
            proof {
                // identical parents leave nothing to chase
                if p1@ == p2@ {
                    assert(child@[begin + t] == n);
                    assert(child@.contains(n));
                    assert(false);
                }
                // n is absent from the child, whose slice is p1's slice
                assert forall|q: int| begin <= q < begin + len implies p1@[q] != n by {
                    assert(child@[q] == p1@[q]);
                    if p1@[q] == n {
                        assert(child@.contains(n));
                    }
                }
            }
            let ghost mut jseen: Seq<int> = seq![(begin + t) as int];
            let mut var = n;
            let mut place: usize = 0;
            loop
                invariant_except_break
                    l == p1@.len() == p2@.len(),
                    1 <= l <= 1_000_000,
                    begin + len <= l,
                    is_perm_full(p1@, l),
                    is_perm_full(p2@, l),
                    1 <= var <= l,
                    jseen.len() >= 1,
                    p2@[jseen.last()] == var,
                    p2@[jseen[0]] == n,
                    forall|q: int| 0 <= q < jseen.len() ==> begin <= #[trigger] jseen[q] < begin + len,
                    forall|q: int| 1 <= q < jseen.len() ==> p2@[#[trigger] jseen[q]] == p1@[jseen[q - 1]],
                    forall|q: int, q2: int| 0 <= q < q2 < jseen.len() ==> jseen[q] != jseen[q2],
                    forall|q: int| begin <= q < begin + len ==> p1@[q] != n,
                ensures
                    place < l,
                    !(begin <= place < begin + len),
                    p2@[place as int] == var,
                    var == p1@[jseen.last()],
                    begin <= jseen.last() < begin + len,
                decreases l + 1 - jseen.len(),
            {
                proof {
                    lemma_distinct_int_bounded(jseen, begin as int, begin + len - 1);
                }
                let idx1 = find_pos(p2, var);
                proof {
                    // p2 holds var only once, so this is the chain's last position
                    if idx1 as int != jseen.last() {
                        let a = idx1 as int;
                        let b = jseen.last();
                        if a < b {
                            assert(p2@[a] != p2@[b]);
                        } else {
                            assert(p2@[b] != p2@[a]);
                        }
                        assert(false);
                    }
                }
                var = p1[idx1];
                let idx2 = find_pos(p2, var);
                if !(begin <= idx2 && idx2 < begin + len) {
                    place = idx2;
                    break;
                }
                proof {
                    let jnew = idx2 as int;
                    assert forall|q: int| 0 <= q < jseen.len() implies jseen[q] != jnew by {
                        if jseen[q] == jnew {
                            assert(p2@[jnew] == var);
                            if q >= 1 {
                                assert(p2@[jseen[q]] == p1@[jseen[q - 1]]);
                                assert(p1@[jseen[q - 1]] == p1@[jseen.last()]);
                                let a = jseen[q - 1];
                                let b = jseen.last();
                                if a != b {
                                    if a < b {
                                        assert(p1@[a] != p1@[b]);
                                    } else {
                                        assert(p1@[b] != p1@[a]);
                                    }
                                    assert(false);
                                }
                                // same chain position twice
                                assert(jseen[q - 1] == jseen[jseen.len() - 1]);
                                if q - 1 < jseen.len() - 1 {
                                    assert(jseen[q - 1] != jseen[jseen.len() - 1]);
                                    assert(false);
                                }
                                assert(q == jseen.len());
                                assert(false);
                            } else {
                                // the chase would have returned to n,
                                // yet n stands nowhere in p1's slice
                                assert(p2@[jseen[0]] == n);
                                assert(var == n);
                                assert(p1@[jseen.last()] == n);
                                assert(false);
                            }
                        }
                    }
                    jseen = jseen.push(jnew);
                }
            }
            // place the value outside the copied slice
            let ghost pre = child@;
            child.set(place, n);
            proof {
                assert forall|i: int, j: int|
                    0 <= i < j < l && child@[i] != i64::MAX && child@[j] != i64::MAX
                    implies child@[i] != child@[j] by {
                    if i != place as int && j != place as int {
                        assert(pre[i] == child@[i] && pre[j] == child@[j]);
                    } else if i == place as int {
                        if pre[j] == n {
                            assert(pre.contains(n));
                        }
                    } else {
                        if pre[i] == n {
                            assert(pre.contains(n));
                        }
                    }
                }
                assert(child_wf(child@, p1@, l, begin as int, len as int));
            }
        }
        t = t + 1;
    }
    // fill the remaining gaps with p2's values in p2's order
    let mut next_empty: usize = 0;
    let mut t2: usize = 0;
    while t2 < l_exec
        invariant
            0 <= t2 <= l,
            l == p1@.len() == p2@.len(),
            l_exec == l,
            1 <= l <= 1_000_000,
            begin + len <= l,
            is_perm_full(p1@, l),
            is_perm_full(p2@, l),
            child_wf(child@, p1@, l, begin as int, len as int),
            0 <= next_empty <= l,
            forall|k: int| 0 <= k < next_empty ==> child@[k] != i64::MAX,
            forall|q: int| 0 <= q < t2 ==> child@.contains(p2@[q]),
            p1@ == p2@ ==> forall|q: int|
                0 <= q < l ==> child@[q] == (if begin <= q < begin + len || q < t2 {
                    p2@[q]
                } else {
                    i64::MAX
                }),
        decreases l - t2,
    {
        let n2 = p2[t2];
        if !contains_val(&child, n2) {
            proof {
                lemma_missing_gives_empty(child@, l, n2);
                if p1@ == p2@ {
                    // identical parents: this value's slot is still
                    // empty and it is the first empty slot
                    assert(!(begin <= t2 < begin + len)) by {
                        if begin <= t2 < begin + len {
                            assert(child@[t2 as int] == p2@[t2 as int]);
                            assert(child@.contains(p2@[t2 as int]));
                        }
                    }
                    assert(child@[t2 as int] == i64::MAX);
                }
            }
            while child[next_empty] != i64::MAX
                invariant
                    0 <= next_empty <= l,
                    l == child@.len(),
                    1 <= l <= 1_000_000,
                    0 <= t2 < l,
                    forall|k: int| 0 <= k < next_empty ==> child@[k] != i64::MAX,
                    exists|k: int| 0 <= k < l && child@[k] == i64::MAX,
                    p1@ == p2@ ==> child@[t2 as int] == i64::MAX,
                    p1@ == p2@ ==> next_empty <= t2,
                decreases l - next_empty,
            {
                proof {
                    let k = choose|k: int| 0 <= k < l && child@[k] == i64::MAX;
                    assert((next_empty as int) < k);
                    if p1@ == p2@ {
                        assert(next_empty as int != t2 as int);
                    }
                }
                next_empty = next_empty + 1;
            }
            let ghost pre = child@;
            proof {
                if p1@ == p2@ {
                    assert(next_empty as int == t2 as int);
                }
            }
            child.set(next_empty, n2);
            proof {
                // writing a missing value into an empty slot keeps
                // distinctness and every present value present
                assert forall|i: int, j: int|
                    0 <= i < j < l && child@[i] != i64::MAX && child@[j] != i64::MAX
                    implies child@[i] != child@[j] by {
                    if i != next_empty as int && j != next_empty as int {
                        assert(pre[i] == child@[i] && pre[j] == child@[j]);
                    } else if i == next_empty as int {
                        if pre[j] == n2 {
                            assert(pre.contains(n2));
                        }
                    } else {
                        if pre[i] == n2 {
                            assert(pre.contains(n2));
                        }
                    }
                }
                assert forall|q: int| begin <= q < begin + len implies child@[q] == p1@[q] by {
                    assert(pre[q] != i64::MAX);
                }
                assert forall|q: int| 0 <= q < t2 + 1 implies child@.contains(p2@[q]) by {
                    if q < t2 {
                        assert(pre.contains(p2@[q]));
                        let k = choose|k: int| 0 <= k < pre.len() && pre[k] == p2@[q];
                        assert(k != next_empty as int);
                        assert(child@[k] == p2@[q]);
                    } else {
                        assert(child@[next_empty as int] == n2);
                    }
                }
            }
        }
        t2 = t2 + 1;
    }
    proof {
        assert forall|x: i64| 1 <= x <= l implies child@.contains(x) by {
            assert(p2@.contains(x));
            let q = choose|q: int| 0 <= q < p2@.len() && p2@[q] == x;
            assert(child@.contains(p2@[q]));
        }
        lemma_full_child_is_perm(child@, l);
        if p1@ == p2@ {
            assert(child@ =~= p1@);
        }
    }
    child
}

impl Genome {
    /// Partially-mapped crossover of this genome with another over the
    /// slice `[begin, begin + len)`; returns two children carrying the
    /// same customers and separator count as the parents.
    pub fn partially_mapped_crossover_at(
        &self,
        parent2: &Genome,
        num_customers: usize,
        begin: usize,
        len: usize,
    ) -> (r: (Vec<i64>, Vec<i64>))
        requires
            valid_order(
                self.customer_order@,
                num_customers as int,
                self.customer_order@.len() - num_customers + 1,
            ),
            valid_order(
                parent2.customer_order@,
                num_customers as int,
                self.customer_order@.len() - num_customers + 1,
            ),
            parent2.customer_order@.len() == self.customer_order@.len(),
            1 <= self.customer_order@.len() <= 1_000_000,
            len < self.customer_order@.len(),
            begin < self.customer_order@.len() - len,
        ensures
            valid_order(
                r.0@,
                num_customers as int,
                self.customer_order@.len() - num_customers + 1,
            ),
            valid_order(
                r.1@,
                num_customers as int,
                self.customer_order@.len() - num_customers + 1,
            ),
            r.0@.len() == self.customer_order@.len(),
            r.1@.len() == self.customer_order@.len(),
            forall|k: int|
                begin <= k < begin + len ==> #[trigger] r.0@[k] == self.customer_order@[k],
            forall|k: int|
                begin <= k < begin + len ==> #[trigger] r.1@[k] == parent2.customer_order@[k],
            self.customer_order@ == parent2.customer_order@ ==> r.0@ == self.customer_order@
                && r.1@ == self.customer_order@,
    {
        let ghost l = self.customer_order@.len() as int;
        let ghost n = num_customers as int;
        let p1 = remap_zeros(&self.customer_order, num_customers);
        let p2 = remap_zeros(&parent2.customer_order, num_customers);
        let c1 = pmx_child(&p1, &p2, begin, len);
        let c2 = pmx_child(&p2, &p1, begin, len);
        let r1 = unmap_zeros(c1, num_customers);
        let r2 = unmap_zeros(c2, num_customers);
        proof {
            assert(n <= l);
            lemma_unmap_valid_order(c1@, r1@, n, l);
            lemma_unmap_valid_order(c2@, r2@, n, l);
            // the copied slice comes through the remapping unchanged:
            // a synthetic separator value maps back to the zero it was
            assert forall|k: int|
                begin <= k < begin + len implies #[trigger] r1@[k]
                == self.customer_order@[k] by {
                assert(c1@[k] == p1@[k]);
                let s0 = self.customer_order@;
                if s0[k] == 0i64 {
                    lemma_zeros_upto_monotone(s0, k, l);
                    lemma_zeros_upto_all(s0);
                    assert(n + zeros_upto(s0, k) + 1 <= l + 1);
                    assert(p1@[k] == (num_customers + zeros_upto(s0, k) + 1) as i64);
                    assert(p1@[k] > n);
                } else {
                    assert(0 <= s0[k] <= n);
                }
            }
            assert forall|k: int|
                begin <= k < begin + len implies #[trigger] r2@[k]
                == parent2.customer_order@[k] by {
                assert(c2@[k] == p2@[k]);
                let s0 = parent2.customer_order@;
                if s0[k] == 0i64 {
                    lemma_zeros_upto_monotone(s0, k, l);
                    lemma_zeros_upto_all(s0);
                    assert(n + zeros_upto(s0, k) + 1 <= l + 1);
                    assert(p2@[k] == (num_customers + zeros_upto(s0, k) + 1) as i64);
                    assert(p2@[k] > n);
                } else {
                    assert(0 <= s0[k] <= n);
                }
            }
            // identical parents: both children come back as the parent
            if self.customer_order@ == parent2.customer_order@ {
                let s0 = self.customer_order@;
                assert(p1@ =~= p2@);
                assert(c1@ == p1@ && c2@ == p1@);
                assert forall|k: int| 0 <= k < l implies #[trigger] r1@[k] == s0[k] by {
                    if s0[k] == 0i64 {
                        lemma_zeros_upto_monotone(s0, k, l);
                        lemma_zeros_upto_all(s0);
                        assert(n + zeros_upto(s0, k) + 1 <= l + 1);
                        assert(p1@[k] == (num_customers + zeros_upto(s0, k) + 1) as i64);
                        assert(p1@[k] > n);
                    } else {
                        assert(0 <= s0[k] <= n);
                    }
                }
                assert forall|k: int| 0 <= k < l implies #[trigger] r2@[k] == s0[k] by {
                    if s0[k] == 0i64 {
                        lemma_zeros_upto_monotone(s0, k, l);
                        lemma_zeros_upto_all(s0);
                        assert(n + zeros_upto(s0, k) + 1 <= l + 1);
                        assert(p1@[k] == (num_customers + zeros_upto(s0, k) + 1) as i64);
                        assert(p1@[k] > n);
                    } else {
                        assert(0 <= s0[k] <= n);
                    }
                }
                assert(r1@ =~= s0);
                assert(r2@ =~= s0);
            }
        }
        (r1, r2)
    }

    /// Partially-mapped crossover over a uniformly random slice.
    pub fn partially_mapped_crossover(&self, parent2: &Genome, num_customers: usize) -> (r: (
        Vec<i64>,
        Vec<i64>,
    ))
        requires
            valid_order(
                self.customer_order@,
                num_customers as int,
                self.customer_order@.len() - num_customers + 1,
            ),
            valid_order(
                parent2.customer_order@,
                num_customers as int,
                self.customer_order@.len() - num_customers + 1,
            ),
            parent2.customer_order@.len() == self.customer_order@.len(),
            1 <= self.customer_order@.len() <= 1_000_000,
        ensures
            valid_order(
                r.0@,
                num_customers as int,
                self.customer_order@.len() - num_customers + 1,
            ),
            valid_order(
                r.1@,
                num_customers as int,
                self.customer_order@.len() - num_customers + 1,
            ),
            r.0@.len() == self.customer_order@.len(),
            r.1@.len() == self.customer_order@.len(),
            self.customer_order@ == parent2.customer_order@ ==> r.0@ == self.customer_order@
                && r.1@ == self.customer_order@,
    {
        let l = self.customer_order.len();
        let len = crate::rng::rand_below(l);
        let begin = crate::rng::rand_below(l - len);
        self.partially_mapped_crossover_at(parent2, num_customers, begin, len)
    }
}

} // verus!
