//! Mutation operators and crossover: pure permutations of a genome's
//! sequence, each preserving the customer multiset and separator count.

use vstd::prelude::*;
use crate::decode::{
    lemma_valid_order_multiset, lemma_zeros_upto_all, lemma_zeros_upto_monotone,
    lemma_zeros_upto_step, valid_order, zeros_upto,
};
use crate::genome::{genome_wf, Genome};
use crate::params::{params_wf, Params};
use crate::edge::{edge_child, edge_step_ok};
use crate::perm::{
    contains_val, is_perm_full, lemma_count_ge_two, lemma_count_unique_position,
    lemma_counts_partition, lemma_sum_counts_ones, lemma_unmap_valid_order, remap_spec,
    remap_zeros, unmap_spec, unmap_zeros,
};
use crate::repair::swap_in_place;
use crate::rng::{rand_below, rand_millis};
use crate::world::{spec_total_vehicles, world_wf, Customer, Depot};

verus! {

broadcast use vstd::seq_lib::group_to_multiset_ensures;

/// Remove the entry at `src` and reinsert it at `dst`.
pub fn insert_mutation(order: &mut Vec<i64>, src: usize, dst: usize)
    requires
        src < old(order)@.len(),
        dst < old(order)@.len(),
    ensures
        final(order)@ == old(order)@.remove(src as int).insert(dst as int, old(order)@[src as int]),
        final(order)@.len() == old(order)@.len(),
        final(order)@.to_multiset() == old(order)@.to_multiset(),
{
    let ghost s = order@;
    let e = order.remove(src);
    order.insert(dst, e);
    proof {
        assert(order@.to_multiset() =~= s.to_multiset().remove(s[src as int]).insert(
            s[src as int],
        ));
        assert(s.to_multiset().count(s[src as int]) > 0) by {
            assert(s.contains(s[src as int]));
        }
        assert(order@.to_multiset() =~= s.to_multiset());
    }
}

/// Fisher–Yates shuffle: a uniformly random permutation of the entries.
pub fn shuffle_vec(v: &mut Vec<i64>)
    ensures
        final(v)@.len() == old(v)@.len(),
        final(v)@.to_multiset() == old(v)@.to_multiset(),
{
    let ghost s = old(v)@;
    if v.len() <= 1 {
        return ;
    }
    let mut i = v.len() - 1;
    while i > 0
        invariant
            0 <= i < v@.len(),
            v@.len() == s.len(),
            v@.to_multiset() == s.to_multiset(),
        decreases i,
    {
        let le = v.len();
        assert(i < le);
        let j = rand_below(i + 1);
        swap_in_place(v, i, j);
        i = i - 1;
    }
}

/// Randomly permute the window `[begin, begin + len)` in place.
pub fn scramble_mutation(order: &mut Vec<i64>, begin: usize, len: usize)
    requires
        begin + len <= old(order)@.len(),
    ensures
        final(order)@.len() == old(order)@.len(),
        final(order)@.to_multiset() == old(order)@.to_multiset(),
        forall|k: int|
            0 <= k < old(order)@.len() && !(begin <= k < begin + len) ==> final(order)@[k] == old(
                order,
            )@[k],
        final(order)@.subrange(begin as int, begin + len as int).to_multiset() == old(
            order,
        )@.subrange(begin as int, begin + len as int).to_multiset(),
{
    let ghost s = order@;
    let le = order.len();
    assert(begin + len <= le);
    let end = begin + len;
    let mut sub: Vec<i64> = Vec::new();
    let mut k: usize = 0;
    while k < len
        invariant
            0 <= k <= len,
            begin + len <= s.len(),
            end == begin + len,
            s == order@,
            sub@ =~= s.subrange(begin as int, begin + k),
        decreases len - k,
    {
        let idx = begin + k;
        sub.push(order[idx]);
        proof {
            assert(sub@ =~= s.subrange(begin as int, begin + k + 1));
        }
        k = k + 1;
    }
    shuffle_vec(&mut sub);
    let mut k2: usize = 0;
    while k2 < len
        invariant
            0 <= k2 <= len,
            begin + len <= s.len(),
            order@.len() == s.len(),
            sub@.len() == len,
            sub@.to_multiset() == s.subrange(begin as int, begin + len as int).to_multiset(),
            forall|q: int| 0 <= q < begin ==> order@[q] == s[q],
            forall|q: int| begin + len <= q < s.len() ==> order@[q] == s[q],
            forall|q: int| begin <= q < begin + k2 ==> order@[q] == sub@[q - begin],
            forall|q: int| begin + k2 <= q < begin + len ==> order@[q] == s[q],
            end == begin + len,
        decreases len - k2,
    {
        let e = sub[k2];
        let idx = begin + k2;
        order.set(idx, e);
        k2 = k2 + 1;
    }
    proof {
        let pre = s.subrange(0, begin as int);
        let win = s.subrange(begin as int, begin + len as int);
        let post = s.subrange(begin + len as int, s.len() as int);
        assert(s =~= pre + win + post);
        assert(order@ =~= pre + sub@ + post);
        assert(order@.subrange(begin as int, begin + len as int) =~= sub@);
        vstd::seq_lib::lemma_multiset_commutative(pre + win, post);
        vstd::seq_lib::lemma_multiset_commutative(pre, win);
        vstd::seq_lib::lemma_multiset_commutative(pre + sub@, post);
        vstd::seq_lib::lemma_multiset_commutative(pre, sub@);
        assert(order@.to_multiset() =~= s.to_multiset());
    }
}

/// Apply at most one mutation operator — insert, swap or scramble,
/// each chosen with its configured probability — then re-decode.
pub fn mutate(old_g: Genome, depots: &Vec<Depot>, customers: &Vec<Customer>, params: &Params) -> (g:
    Genome)
    requires
        world_wf(depots@, customers@),
        params_wf(*params),
        valid_order(
            old_g.customer_order@,
            customers@.len() as int,
            spec_total_vehicles(depots@),
        ),
        old_g.customer_order@.len() >= 1,
    ensures
        genome_wf(g, depots@, customers@, *params),
        g.customer_order@.to_multiset() == old_g.customer_order@.to_multiset(),
        g.customer_order@.len() == old_g.customer_order@.len(),
{
    let ghost n = customers@.len() as int;
    let ghost v = spec_total_vehicles(depots@);
    let mut order = old_g.customer_order;
    let l = order.len();
    let m = rand_millis();
    if m < params.prob_mutation_millis {
        let which = rand_millis();
        if which < params.frac_insert_millis {
            let src = rand_below(l);
            let dst = rand_below(l);
            insert_mutation(&mut order, src, dst);
        } else if which < params.frac_insert_millis + params.frac_swap_millis {
            let src = rand_below(l);
            let dst = rand_below(l);
            swap_in_place(&mut order, src, dst);
        } else if which < params.frac_insert_millis + params.frac_swap_millis
            + params.frac_scramble_millis {
            let wlen = rand_below(l);
            let wbegin = rand_below(l - wlen);
            scramble_mutation(&mut order, wbegin, wlen);
        }
    }
    proof {
        lemma_valid_order_multiset(old_g.customer_order@, order@, n, v);
    }
    Genome::generate(order, depots, customers, params)
}

/// The position visited at step `o` when walking the sequence
/// cyclically from `start`.
pub open spec fn rot_idx(l: int, start: int, o: int) -> int {
    if start + o < l {
        start + o
    } else {
        start + o - l
    }
}

/// Zeros seen in the first `o` steps of that cyclic walk.
pub open spec fn rot_zeros(s: Seq<i64>, start: int, o: int) -> int
    decreases o,
{
    if o <= 0 {
        0
    } else {
        rot_zeros(s, start, o - 1) + (if s[rot_idx(s.len() as int, start, o - 1)] == 0i64 {
            1int
        } else {
            0int
        })
    }
}

proof fn lemma_rot_zeros_phase1(s: Seq<i64>, start: int, o: int)
    requires
        0 <= start <= s.len(),
        0 <= o <= s.len() - start,
    ensures
        rot_zeros(s, start, o) == zeros_upto(s, start + o) - zeros_upto(s, start),
    decreases o,
{
    if o > 0 {
        lemma_rot_zeros_phase1(s, start, o - 1);
        lemma_zeros_upto_step(s, start + o - 1);
    }
}

proof fn lemma_rot_zeros_phase2(s: Seq<i64>, start: int, o: int)
    requires
        0 <= start <= s.len(),
        s.len() - start <= o <= s.len(),
    ensures
        rot_zeros(s, start, o) == zeros_upto(s, s.len() as int) - zeros_upto(s, start)
            + zeros_upto(s, o - (s.len() - start)),
    decreases o,
{
    let l = s.len() as int;
    if o == l - start {
        lemma_rot_zeros_phase1(s, start, o);
        assert(s.take(0) =~= Seq::<i64>::empty());
        assert(!s.take(0).contains(0i64));
        assert(zeros_upto(s, 0) == 0);
    } else {
        lemma_rot_zeros_phase2(s, start, o - 1);
        lemma_zeros_upto_step(s, o - 1 - (l - start));
    }
}

/// A full cyclic walk sees every zero exactly once.
proof fn lemma_rot_zeros_all(s: Seq<i64>, start: int)
    requires
        0 <= start <= s.len(),
    ensures
        rot_zeros(s, start, s.len() as int) == s.to_multiset().count(0i64),
{
    lemma_rot_zeros_phase2(s, start, s.len() as int);
    lemma_zeros_upto_all(s);
}

/// The separator count the order-1 scan has emitted after `o` steps:
/// the slice's zeros plus every scanned zero, capped at the budget.
pub open spec fn o1_zeros(
    p1: Seq<i64>,
    p2: Seq<i64>,
    begin: int,
    len: int,
    o: int,
    v: int,
) -> int {
    let sz = zeros_upto(p1, begin + len) - zeros_upto(p1, begin);
    let rz = rot_zeros(p2, begin + len, o);
    if sz + rz <= v - 1 {
        sz + rz
    } else {
        v - 1
    }
}

/// The order-1 child, step by step: the copied slice of `p1`, then one
/// cyclic scan step of `p2` at a time — a zero is taken while the
/// separator budget lasts, a customer is taken unless already present.
pub open spec fn order1_spec(
    p1: Seq<i64>,
    p2: Seq<i64>,
    begin: int,
    len: int,
    v: int,
    o: int,
) -> Seq<i64>
    decreases o,
{
    if o <= 0 {
        p1.subrange(begin, begin + len)
    } else {
        let prev = order1_spec(p1, p2, begin, len, v, o - 1);
        let e = p2[rot_idx(p2.len() as int, begin + len, o - 1)];
        if e == 0i64 && prev.to_multiset().count(0i64) < v - 1 {
            prev.push(0i64)
        } else if !prev.contains(e) {
            prev.push(e)
        } else {
            prev
        }
    }
}

/// Order-1 crossover core: copy the slice `[begin, begin + len)` of
/// `p1`, then append `p2`'s entries cyclically from just after the
/// slice, skipping customers already present and zeros beyond the
/// separator budget.
pub fn order1_child(
    p1: &Vec<i64>,
    p2: &Vec<i64>,
    total_vehicles: usize,
    begin: usize,
    len: usize,
) -> (r: Vec<i64>)
    requires
        1 <= total_vehicles,
        valid_order(
            p1@,
            p1@.len() - total_vehicles + 1,
            total_vehicles as int,
        ),
        valid_order(
            p2@,
            p1@.len() - total_vehicles + 1,
            total_vehicles as int,
        ),
        p2@.len() == p1@.len(),
        1 <= p1@.len() <= 1_000_000,
        begin + len <= p1@.len(),
    ensures
        valid_order(
            r@,
            p1@.len() - total_vehicles + 1,
            total_vehicles as int,
        ),
        r@.len() == p1@.len(),
        forall|k: int| 0 <= k < len ==> #[trigger] r@[k] == p1@[begin + k],
        r@ == order1_spec(
            p1@,
            p2@,
            begin as int,
            len as int,
            total_vehicles as int,
            p1@.len() as int,
        ),
{
    let ghost l = p1@.len() as int;
    let ghost v = total_vehicles as int;
    let ghost n = l - v + 1;
    let mut child: Vec<i64> = Vec::new();
    let mut zero_count: usize = 0;
    let end = begin + len;
    let mut k = begin;
    proof {
        assert(child@ =~= Seq::<i64>::empty());
        assert(!child@.contains(0i64));
        assert(child@ =~= p1@.subrange(begin as int, begin as int));
    }
    while k < end
        invariant
            begin <= k <= begin + len <= l,
            end == begin + len,
            l == p1@.len(),
            1 <= l <= 1_000_000,
            valid_order(p1@, n, v),
            n == l - v + 1,
            1 <= v,
            child@ =~= p1@.subrange(begin as int, k as int),
            zero_count as int == zeros_upto(p1@, k as int) - zeros_upto(p1@, begin as int),
            zero_count <= 1_000_000,
            child@.to_multiset().count(0i64) == zero_count,
        decreases begin + len - k,
    {
        proof {
            lemma_zeros_upto_step(p1@, k as int);
            lemma_zeros_upto_monotone(p1@, begin as int, k as int);
            lemma_zeros_upto_monotone(p1@, k as int + 1, l);
            lemma_zeros_upto_all(p1@);
            assert(child@.push(p1@[k as int]) =~= p1@.subrange(begin as int, k as int + 1));
        }
        let e = p1[k];
        child.push(e);
        if e == 0 {
            zero_count = zero_count + 1;
        }
        k = k + 1;
    }
    proof {
        // the slice's zeros stay within the separator budget
        lemma_zeros_upto_step(p2@, 0);
        lemma_zeros_upto_monotone(p1@, begin as int, (begin + len) as int);
        lemma_zeros_upto_monotone(p1@, (begin + len) as int, l);
        lemma_zeros_upto_all(p1@);
        assert(zero_count as int <= v - 1);
        assert(o1_zeros(p1@, p2@, begin as int, len as int, 0, v) == zero_count as int);
        // distinct customers in the copied slice
        assert forall|i: int, j: int|
            0 <= i < j < child@.len() && child@[i] == child@[j] implies child@[i] == 0i64 by {
            if child@[i] != 0i64 {
                lemma_count_ge_two(p1@, begin + i, begin + j);
            }
        }
        assert forall|q: int|
            begin <= q < begin + len && p1@[q] != 0i64 implies child@.contains(
            #[trigger] p1@[q],
        ) by {
            assert(child@[q - begin] == p1@[q]);
        }
    }
    let start = begin + len;
    let mut o: usize = 0;
    while o < p2.len()
        invariant
            0 <= o <= l,
            l == p1@.len() == p2@.len(),
            1 <= l <= 1_000_000,
            begin + len <= l,
            start == begin + len,
            valid_order(p1@, n, v),
            valid_order(p2@, n, v),
            n == l - v + 1,
            v == total_vehicles as int,
            1 <= v <= l + 1,
            zero_count <= 1_000_000,
            child@.len() >= len,
            forall|k: int| 0 <= k < len ==> #[trigger] child@[k] == p1@[begin + k],
            forall|i: int| 0 <= i < child@.len() ==> 0 <= #[trigger] child@[i] <= n,
            forall|i: int, j: int|
                0 <= i < j < child@.len() && child@[i] == child@[j] ==> child@[i] == 0i64,
            child@.to_multiset().count(0i64) == zero_count,
            zero_count as int == o1_zeros(p1@, p2@, begin as int, len as int, o as int, v),
            zero_count as int <= v - 1,
            forall|q: int|
                begin <= q < begin + len && p1@[q] != 0i64 ==> child@.contains(#[trigger] p1@[q]),
            forall|o2: int|
                0 <= o2 < o && p2@[rot_idx(l, start as int, o2)] != 0i64 ==> child@.contains(
                    #[trigger] p2@[rot_idx(l, start as int, o2)],
                ),
            child@ == order1_spec(p1@, p2@, begin as int, len as int, v, o as int),
        decreases l - o,
    {
        let idx = if start + o < p2.len() {
            start + o
        } else {
            start + o - p2.len()
        };
        let e = p2[idx];
        let ghost pre = child@;
        if e == 0 && zero_count < total_vehicles - 1 {
            zero_count = zero_count + 1;
            child.push(e);
        } else if !contains_val(&child, e) {
            child.push(e);
        }
        proof {
            assert(idx as int == rot_idx(l, start as int, o as int));
            if e == 0i64 {
                // a scanned zero implies the parents carry separators
                assert(p2@.contains(0i64));
                assert(p2@.to_multiset().count(0i64) >= 1);
            }
            if e == 0 && pre.to_multiset().count(0i64) < v - 1 {
                assert(child@ == pre.push(0i64));
                assert(child@.to_multiset() =~= pre.to_multiset().insert(0i64));
            } else if !pre.contains(e) {
                assert(child@ == pre.push(e));
                assert(child@.to_multiset() =~= pre.to_multiset().insert(e));
            } else {
                assert(child@ == pre);
            }
            assert forall|x: i64| pre.contains(x) implies child@.contains(x) by {
                let ii = choose|ii: int| 0 <= ii < pre.len() && pre[ii] == x;
                assert(child@[ii] == x);
            }
            if e != 0i64 {
                assert(child@.contains(e)) by {
                    if !pre.contains(e) {
                        assert(child@[child@.len() - 1] == e);
                    }
                }
            }
            assert forall|i: int, j: int|
                0 <= i < j < child@.len() && child@[i] == child@[j] implies child@[i] == 0i64 by {
                if j == child@.len() - 1 && child@.len() > pre.len() {
                    if child@[j] != 0i64 {
                        assert(pre.contains(child@[j]) == false);
                        assert(pre[i] == child@[i]);
                    }
                }
            }
        }
        o = o + 1;
    }
    proof {
        // every scanned zero was either taken or the budget was full,
        // so the budget is exactly met
        lemma_rot_zeros_all(p2@, start as int);
        lemma_zeros_upto_monotone(p1@, begin as int, (begin + len) as int);
        assert(zero_count as int == v - 1);
        // every customer found its way in
        assert forall|c: i64| 1 <= c <= n implies child@.to_multiset().count(c) == 1 by {
            assert(p2@.to_multiset().count(c) == 1);
            assert(p2@.to_multiset().count(c) > 0);
            assert(p2@.contains(c));
            let p = choose|p: int| 0 <= p < p2@.len() && p2@[p] == c;
            let o2: int = if p >= start {
                p - start
            } else {
                p + l - start
            };
            assert(rot_idx(l, start as int, o2) == p);
            assert(child@.contains(p2@[rot_idx(l, start as int, o2)]));
            assert(child@.contains(c));
            let i = choose|i: int| 0 <= i < child@.len() && child@[i] == c;
            assert forall|j: int| 0 <= j < child@.len() && j != i implies child@[j] != c by {
                if child@[j] == c {
                    if i < j {
                        assert(child@[i] == 0i64);
                    } else {
                        assert(child@[j] == 0i64);
                    }
                }
            }
            lemma_count_unique_position(child@, c, i);
        }
        lemma_counts_partition(child@, n);
        lemma_sum_counts_ones(child@, 1, n);
        assert(child@.len() == n + v - 1);
    }
    child
}

/// At any one position, mapping the separators out and back restores
/// the entry: a customer index passes through untouched, a separator
/// becomes a synthetic value above the customer range and returns to
/// zero.
pub proof fn lemma_remap_unmap_at(
    orig: Seq<i64>,
    mapped: Seq<i64>,
    unmapped: Seq<i64>,
    carrier: Seq<i64>,
    n: int,
    n_exec: usize,
    k: int,
)
    requires
        n == n_exec as int,
        valid_order(orig, n, orig.len() - n + 1),
        orig.len() <= 1_000_000,
        mapped.len() == orig.len(),
        forall|i: int|
            0 <= i < orig.len() ==> #[trigger] mapped[i] == (if orig[i] == 0i64 {
                (n_exec + zeros_upto(orig, i) + 1) as i64
            } else {
                orig[i]
            }),
        carrier.len() == orig.len(),
        0 <= k < orig.len(),
        carrier[k] == mapped[k],
        unmapped.len() == orig.len(),
        forall|i: int|
            0 <= i < orig.len() ==> #[trigger] unmapped[i] == (if carrier[i] > n_exec {
                0i64
            } else {
                carrier[i]
            }),
    ensures
        unmapped[k] == orig[k],
{
    let l = orig.len() as int;
    if orig[k] == 0i64 {
        lemma_zeros_upto_monotone(orig, k, l);
        lemma_zeros_upto_all(orig);
        assert(n + zeros_upto(orig, k) + 1 <= l + 1);
        assert(mapped[k] == (n_exec + zeros_upto(orig, k) + 1) as i64);
        assert(mapped[k] > n);
    } else {
        assert(0 <= orig[k] <= n);
    }
}

impl Genome {
    /// Order-1 crossover over a uniformly random slice of this genome.
    pub fn order_1_crossover(&self, parent2: &Genome, total_vehicles: usize) -> (r: Vec<i64>)
        requires
            1 <= total_vehicles,
            valid_order(
                self.customer_order@,
                self.customer_order@.len() - total_vehicles + 1,
                total_vehicles as int,
            ),
            valid_order(
                parent2.customer_order@,
                self.customer_order@.len() - total_vehicles + 1,
                total_vehicles as int,
            ),
            parent2.customer_order@.len() == self.customer_order@.len(),
            1 <= self.customer_order@.len() <= 1_000_000,
        ensures
            valid_order(
                r@,
                self.customer_order@.len() - total_vehicles + 1,
                total_vehicles as int,
            ),
            r@.len() == self.customer_order@.len(),
            exists|b: int, ln: int|
                0 <= ln < self.customer_order@.len() && 0 <= b < self.customer_order@.len() - ln
                    && r@ == #[trigger] order1_spec(
                    self.customer_order@,
                    parent2.customer_order@,
                    b,
                    ln,
                    total_vehicles as int,
                    self.customer_order@.len() as int,
                ),
    {
        let l = self.customer_order.len();
        let len = rand_below(l);
        let begin = rand_below(l - len);
        let r = order1_child(
            &self.customer_order,
            &parent2.customer_order,
            total_vehicles,
            begin,
            len,
        );
        proof {
            assert(r@ == order1_spec(
                self.customer_order@,
                parent2.customer_order@,
                begin as int,
                len as int,
                total_vehicles as int,
                self.customer_order@.len() as int,
            ));
        }
        r
    }

    /// Edge-recombination crossover: two children grown over the union
    /// of both parents' cyclic adjacencies.
    pub fn edge_recombination_crossover(&self, parent2: &Genome, num_customers: usize) -> (r: (
        Vec<i64>,
        Vec<i64>,
    ))
        requires
            valid_order(
                self.customer_order@,
                num_customers as int,
                self.customer_order@.len() - num_customers + 1,
            ),
            valid_order(
                parent2.customer_order@,
                num_customers as int,
                self.customer_order@.len() - num_customers + 1,
            ),
            parent2.customer_order@.len() == self.customer_order@.len(),
            1 <= self.customer_order@.len() <= 1_000_000,
        ensures
            valid_order(
                r.0@,
                num_customers as int,
                self.customer_order@.len() - num_customers + 1,
            ),
            valid_order(
                r.1@,
                num_customers as int,
                self.customer_order@.len() - num_customers + 1,
            ),
            r.0@.len() == self.customer_order@.len(),
            r.1@.len() == self.customer_order@.len(),
            r.0@[0] == self.customer_order@[0],
            r.1@[0] == parent2.customer_order@[0],
            exists|c: Seq<i64>|
                is_perm_full(c, self.customer_order@.len() as int) && (forall|k: int|
                    0 <= k < c.len() - 1 ==> edge_step_ok(
                        remap_spec(self.customer_order@, num_customers as int),
                        remap_spec(parent2.customer_order@, num_customers as int),
                        c,
                        k,
                    )) && r.0@ == #[trigger] unmap_spec(c, num_customers as int),
            exists|c: Seq<i64>|
                is_perm_full(c, self.customer_order@.len() as int) && (forall|k: int|
                    0 <= k < c.len() - 1 ==> edge_step_ok(
                        remap_spec(parent2.customer_order@, num_customers as int),
                        remap_spec(self.customer_order@, num_customers as int),
                        c,
                        k,
                    )) && r.1@ == #[trigger] unmap_spec(c, num_customers as int),
    {
        let ghost l = self.customer_order@.len() as int;
        let ghost n = num_customers as int;
        let p1 = remap_zeros(&self.customer_order, num_customers);
        let p2 = remap_zeros(&parent2.customer_order, num_customers);
        let c1 = edge_child(&p1, &p2);
        let c2 = edge_child(&p2, &p1);
        let r1 = unmap_zeros(c1, num_customers);
        let r2 = unmap_zeros(c2, num_customers);
        proof {
            lemma_unmap_valid_order(c1@, r1@, n, l);
            lemma_unmap_valid_order(c2@, r2@, n, l);
            // each tour starts from its parent's first element, and a
            // leading separator maps back to a leading zero
            lemma_remap_unmap_at(self.customer_order@, p1@, r1@, c1@, n, num_customers, 0);
            lemma_remap_unmap_at(parent2.customer_order@, p2@, r2@, c2@, n, num_customers, 0);
            // the children are the unmapped greedy tours themselves
            assert(p1@ == remap_spec(self.customer_order@, n));
            assert(p2@ == remap_spec(parent2.customer_order@, n));
            assert(r1@ == unmap_spec(c1@, n));
            assert(r2@ == unmap_spec(c2@, n));
        }
        (r1, r2)
    }

    /// Pick one crossover kind by the configured fractions, falling
    /// back to plain copies of the parents, and decode both children.
    pub fn crossover(
        &self,
        parent2: &Genome,
        depots: &Vec<Depot>,
        customers: &Vec<Customer>,
        total_vehicles: usize,
        params: &Params,
    ) -> (r: (Genome, Genome))
        requires
            world_wf(depots@, customers@),
            params_wf(*params),
            total_vehicles as int == spec_total_vehicles(depots@),
            valid_order(
                self.customer_order@,
                customers@.len() as int,
                spec_total_vehicles(depots@),
            ),
            valid_order(
                parent2.customer_order@,
                customers@.len() as int,
                spec_total_vehicles(depots@),
            ),
            1 <= customers@.len(),
        ensures
            genome_wf(r.0, depots@, customers@, *params),
            genome_wf(r.1, depots@, customers@, *params),
    {
        let which = rand_millis();
        let (child1, child2): (Vec<i64>, Vec<i64>) = if which < params.frac_order1_millis {
            let c1 = self.order_1_crossover(parent2, total_vehicles);
            let c2 = parent2.order_1_crossover(self, total_vehicles);
            (c1, c2)
        } else if which < params.frac_order1_millis + params.frac_pmx_millis {
            parent2.partially_mapped_crossover(self, customers.len())
        } else if which < params.frac_order1_millis + params.frac_pmx_millis
            + params.frac_edge_millis {
            parent2.edge_recombination_crossover(self, customers.len())
        } else {
            let c1 = self.customer_order.clone();
            let c2 = parent2.customer_order.clone();
            proof {
                assert(c1@ =~= self.customer_order@);
                assert(c2@ =~= parent2.customer_order@);
            }
            (c1, c2)
        };
        let g1 = Genome::generate(child1, depots, customers, params);
        let g2 = Genome::generate(child2, depots, customers, params);
        (g1, g2)
    }
}

/// Order-1 crossover of two parent genomes over a random slice.
pub fn order_1_crossover(parent1: &Genome, parent2: &Genome, total_vehicles: usize) -> (r: Vec<
    i64,
>)
    requires
        1 <= total_vehicles,
        valid_order(
            parent1.customer_order@,
            parent1.customer_order@.len() - total_vehicles + 1,
            total_vehicles as int,
        ),
        valid_order(
            parent2.customer_order@,
            parent1.customer_order@.len() - total_vehicles + 1,
            total_vehicles as int,
        ),
        parent2.customer_order@.len() == parent1.customer_order@.len(),
        1 <= parent1.customer_order@.len() <= 1_000_000,
    ensures
        valid_order(
            r@,
            parent1.customer_order@.len() - total_vehicles + 1,
            total_vehicles as int,
        ),
        r@.len() == parent1.customer_order@.len(),
        exists|b: int, ln: int|
            0 <= ln < parent1.customer_order@.len() && 0 <= b < parent1.customer_order@.len() - ln
                && r@ == #[trigger] order1_spec(
                parent1.customer_order@,
                parent2.customer_order@,
                b,
                ln,
                total_vehicles as int,
                parent1.customer_order@.len() as int,
            ),
{
    parent1.order_1_crossover(parent2, total_vehicles)
}

/// Partially-mapped crossover of two parent genomes.
pub fn partially_mapped_crossover(parent1: &Genome, parent2: &Genome, num_customers: usize) -> (r: (
    Vec<i64>,
    Vec<i64>,
))
    requires
        valid_order(
            parent1.customer_order@,
            num_customers as int,
            parent1.customer_order@.len() - num_customers + 1,
        ),
        valid_order(
            parent2.customer_order@,
            num_customers as int,
            parent1.customer_order@.len() - num_customers + 1,
        ),
        parent2.customer_order@.len() == parent1.customer_order@.len(),
        1 <= parent1.customer_order@.len() <= 1_000_000,
    ensures
        valid_order(
            r.0@,
            num_customers as int,
            parent1.customer_order@.len() - num_customers + 1,
        ),
        valid_order(
            r.1@,
            num_customers as int,
            parent1.customer_order@.len() - num_customers + 1,
        ),
        r.0@.len() == parent1.customer_order@.len(),
        r.1@.len() == parent1.customer_order@.len(),
        parent1.customer_order@ == parent2.customer_order@ ==> r.0@ == parent1.customer_order@
            && r.1@ == parent1.customer_order@,
{
    parent1.partially_mapped_crossover(parent2, num_customers)
}

/// Edge-recombination crossover of two parent genomes.
pub fn edge_recombination_crossover(parent1: &Genome, parent2: &Genome, num_customers: usize) -> (r:
    (Vec<i64>, Vec<i64>))
    requires
        valid_order(
            parent1.customer_order@,
            num_customers as int,
            parent1.customer_order@.len() - num_customers + 1,
        ),
        valid_order(
            parent2.customer_order@,
            num_customers as int,
            parent1.customer_order@.len() - num_customers + 1,
        ),
        parent2.customer_order@.len() == parent1.customer_order@.len(),
        1 <= parent1.customer_order@.len() <= 1_000_000,
    ensures
        valid_order(
            r.0@,
            num_customers as int,
            parent1.customer_order@.len() - num_customers + 1,
        ),
        valid_order(
            r.1@,
            num_customers as int,
            parent1.customer_order@.len() - num_customers + 1,
        ),
        r.0@.len() == parent1.customer_order@.len(),
        r.1@.len() == parent1.customer_order@.len(),
        r.0@[0] == parent1.customer_order@[0],
        r.1@[0] == parent2.customer_order@[0],
        exists|c: Seq<i64>|
            is_perm_full(c, parent1.customer_order@.len() as int) && (forall|k: int|
                0 <= k < c.len() - 1 ==> edge_step_ok(
                    remap_spec(parent1.customer_order@, num_customers as int),
                    remap_spec(parent2.customer_order@, num_customers as int),
                    c,
                    k,
                )) && r.0@ == #[trigger] unmap_spec(c, num_customers as int),
        exists|c: Seq<i64>|
            is_perm_full(c, parent1.customer_order@.len() as int) && (forall|k: int|
                0 <= k < c.len() - 1 ==> edge_step_ok(
                    remap_spec(parent2.customer_order@, num_customers as int),
                    remap_spec(parent1.customer_order@, num_customers as int),
                    c,
                    k,
                )) && r.1@ == #[trigger] unmap_spec(c, num_customers as int),
{
    parent1.edge_recombination_crossover(parent2, num_customers)
}

/// Crossover-or-clone with the configured probability, then the kind
/// fractions; both children are decoded before they are returned.
pub fn crossover(
    parent1: &Genome,
    parent2: &Genome,
    depots: &Vec<Depot>,
    customers: &Vec<Customer>,
    total_vehicles: usize,
    params: &Params,
) -> (r: (Genome, Genome))
    requires
        world_wf(depots@, customers@),
        params_wf(*params),
        total_vehicles as int == spec_total_vehicles(depots@),
        valid_order(
            parent1.customer_order@,
            customers@.len() as int,
            spec_total_vehicles(depots@),
        ),
        valid_order(
            parent2.customer_order@,
            customers@.len() as int,
            spec_total_vehicles(depots@),
        ),
        1 <= customers@.len(),
    ensures
        genome_wf(r.0, depots@, customers@, *params),
        genome_wf(r.1, depots@, customers@, *params),
{
    let cross = rand_millis();
    if cross < params.prob_crossover_millis {
        parent1.crossover(parent2, depots, customers, total_vehicles, params)
    } else {
        let c1 = parent1.customer_order.clone();
        let c2 = parent2.customer_order.clone();
        proof {
            assert(c1@ =~= parent1.customer_order@);
            assert(c2@ =~= parent2.customer_order@);
        }
        let g1 = Genome::generate(c1, depots, customers, params);
        let g2 = Genome::generate(c2, depots, customers, params);
        (g1, g2)
    }
}

} // verus!
