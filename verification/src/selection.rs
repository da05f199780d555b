//! Tournament selection: carry the elites forward unchanged, then draw
//! a breeding pool by rank-biased tournaments without replacement.

use vstd::prelude::*;
use crate::genome::{genome_eq, Genome};
use crate::params::{params_wf, Params, PRESSURE_SCALE, PROB_SCALE};
use crate::rng::rand_below;

verus! {

broadcast use vstd::seq_lib::group_to_multiset_ensures;

/// Sort a list of indices ascending.
pub fn sort_indices(v: &mut Vec<usize>)
    ensures
        final(v)@.len() == old(v)@.len(),
        final(v)@.to_multiset() == old(v)@.to_multiset(),
        forall|i: int, j: int| 0 <= i <= j < final(v)@.len() ==> final(v)@[i] <= final(v)@[j],
{
    let ghost s = v@;
    let mut i: usize = 1;
    while i < v.len()
        invariant
            1 <= i <= s.len() || (s.len() == 0 && i == 1),
            v@.len() == s.len(),
            v@.to_multiset() == s.to_multiset(),
            forall|a: int, b: int| 0 <= a <= b < i ==> v@[a] <= v@[b],
        decreases s.len() - i,
    {
        let ghost before = v@;
        let x = v[i];
        let mut j = i;
        // walk left to the insertion point
        while j > 0 && v[j - 1] > x
            invariant
                0 <= j <= i < v@.len(),
                v@.len() == s.len(),
                v@[i as int] == x,
                forall|a: int, b: int| 0 <= a <= b < i ==> v@[a] <= v@[b],
                v@ == before,
                forall|m: int| j <= m < i ==> before[m] > x,
            decreases j,
        {
            j = j - 1;
        }
        let e = v.remove(i);
        v.insert(j, e);
        proof {
            assert(e == x);
            assert(v@.to_multiset() =~= before.to_multiset().remove(x).insert(x));
            assert(before.to_multiset().count(x) > 0) by {
                assert(before.contains(before[i as int]));
            }
            assert(v@.to_multiset() =~= before.to_multiset());
            assert forall|a: int, b: int| 0 <= a <= b < i + 1 implies v@[a] <= v@[b] by {
                if a < b {
                    if a < j && b == j {
                        assert(v@[a] == before[a]);
                        assert(before[a] <= before[j - 1]);
                    } else if a == j && b > j {
                        assert(v@[b] == before[b - 1]);
                        assert(before[b - 1] > x);
                    } else if a < j && b > j {
                        assert(v@[a] == before[a] && v@[b] == before[b - 1]);
                        if b - 1 < i {
                            assert(before[a] <= before[b - 1]);
                        }
                    } else if a > j && b > j {
                        assert(v@[a] == before[a - 1] && v@[b] == before[b - 1]);
                        assert(before[a - 1] <= before[b - 1]);
                    }
                }
            }
        }
        i = i + 1;
    }
}

/// One tournament draw: the rank below the winning cumulative weight
/// of the geometric distribution with success chance
/// `pressure_millis/1000`, counted from the fittest sampled rank.
fn pick_rank(tournament_size: usize, pressure_millis: i64) -> (k: usize)
    requires
        1 <= tournament_size,
        0 <= pressure_millis <= PROB_SCALE,
    ensures
        1 <= k <= tournament_size,
{
    let winner = rand_below(1_000_000) as i64;
    let mut acc: i64 = 0;
    let mut term: i64 = pressure_millis * 1000;
    let mut k: usize = 0;
    while k < tournament_size && acc <= winner
        invariant
            0 <= k <= tournament_size,
            0 <= pressure_millis <= PROB_SCALE,
            0 <= acc <= 2_000_000,
            0 <= term <= 1_000_000,
            0 <= winner < 1_000_000,
            k == 0 ==> acc == 0,
            k >= 1 ==> acc >= 0,
        decreases tournament_size - k,
    {
        acc = acc + term;
        proof {
            assert((term as int) * ((PROB_SCALE - pressure_millis) as int) <= (term as int) * 1000)
                by (nonlinear_arith)
                requires
                    0 <= term as int,
                    0 <= (PROB_SCALE - pressure_millis) as int <= 1000,
            ;
            vstd::arithmetic::div_mod::lemma_fundamental_div_mod(
                (term as int) * ((PROB_SCALE - pressure_millis) as int),
                1000,
            );
            assert(0 <= (term as int) * ((PROB_SCALE - pressure_millis) as int))
                by (nonlinear_arith)
                requires
                    0 <= term as int,
                    0 <= (PROB_SCALE - pressure_millis) as int,
            ;
        }
        term = term * (PROB_SCALE - pressure_millis) / 1000;
        if acc > 2_000_000 {
            acc = 2_000_000;
        }
        k = k + 1;
    }
    if k == 0 {
        1
    } else {
        k
    }
}

/// Tournament selection.  The `elites` fittest genomes are copied onto
/// the end of `new_gen`; then `pool_size` pool members are drawn, each
/// by sampling `tournament_size` ranks of the fitness-sorted
/// population and taking a geometrically rank-biased winner, which
/// leaves the candidate set.  The pool always has exactly the
/// configured size.
pub fn tournament_selection(old_pop: Vec<Genome>, new_gen: &mut Vec<Genome>, params: &Params) -> (pool: Vec<Genome>)
    requires
        params_wf(*params),
        old_pop@.len() >= params.pool_size,
        old_pop@.len() >= params.elites,
        old_pop@.len() >= 1,
    ensures
        pool@.len() == params.pool_size,
        forall|i: int| 0 <= i < pool@.len() ==> old_pop@.contains(#[trigger] pool@[i]),
        forall|x: Genome|
            #[trigger] pool@.to_multiset().count(x) <= old_pop@.to_multiset().count(x),
        final(new_gen)@.len() == old(new_gen)@.len() + params.elites,
        forall|i: int| 0 <= i < old(new_gen)@.len() ==> final(new_gen)@[i] == old(new_gen)@[i],
        forall|i: int|
            0 <= i < params.elites ==> genome_eq(
                #[trigger] final(new_gen)@[old(new_gen)@.len() + i],
                old_pop@[old_pop@.len() - 1 - i],
            ),
{
    let ghost orig = old_pop@;
    let ghost gen0 = new_gen@;
    let l = old_pop.len();
    let mut i: usize = 0;
    while i < params.elites
        invariant
            0 <= i <= params.elites,
            params.elites <= l,
            l == orig.len(),
            old_pop@ == orig,
            new_gen@.len() == gen0.len() + i,
            forall|q: int| 0 <= q < gen0.len() ==> new_gen@[q] == gen0[q],
            forall|q: int|
                0 <= q < i ==> genome_eq(
                    #[trigger] new_gen@[gen0.len() + q],
                    orig[orig.len() - 1 - q],
                ),
        decreases params.elites - i,
    {
        let e = old_pop[l - 1 - i].duplicate();
        new_gen.push(e);
        i = i + 1;
    }
    let mut cur = old_pop;
    let mut pool: Vec<Genome> = Vec::new();
    let mut drawn: usize = 0;
    while drawn < params.pool_size
        invariant
            0 <= drawn <= params.pool_size,
            params_wf(*params),
            cur@.len() == orig.len() - drawn,
            orig.len() >= params.pool_size,
            pool@.len() == drawn,
            forall|q: int| 0 <= q < cur@.len() ==> orig.contains(#[trigger] cur@[q]),
            forall|q: int| 0 <= q < pool@.len() ==> orig.contains(#[trigger] pool@[q]),
            pool@.to_multiset().add(cur@.to_multiset()) =~= orig.to_multiset(),
        decreases params.pool_size - drawn,
    {
        let mut participants: Vec<usize> = Vec::new();
        let mut t: usize = 0;
        while t < params.tournament_size
            invariant
                0 <= t <= params.tournament_size,
                cur@.len() >= 1,
                participants@.len() == t,
                forall|q: int| 0 <= q < t ==> #[trigger] participants@[q] < cur@.len(),
            decreases params.tournament_size - t,
        {
            let p = rand_below(cur.len());
            participants.push(p);
            t = t + 1;
        }
        let ghost unsorted = participants@;
        sort_indices(&mut participants);
        proof {
            assert forall|q: int|
                0 <= q < participants@.len() implies #[trigger] participants@[q]
                < cur@.len() by {
                assert(participants@.contains(participants@[q]));
                assert(participants@.to_multiset().count(participants@[q]) > 0);
                assert(unsorted.to_multiset().count(participants@[q]) > 0);
                assert(unsorted.contains(participants@[q]));
                let w = choose|w: int| 0 <= w < unsorted.len() && unsorted[w] == participants@[q];
            }
        }
        let k = pick_rank(params.tournament_size, params.pressure_millis);
        let chosen_idx = participants[params.tournament_size - k];
        let ghost pre_cur = cur@;
        let ghost pre_pool = pool@;
        let winner = cur.remove(chosen_idx);
        proof {
            assert(orig.contains(winner));
            assert(cur@.to_multiset() =~= pre_cur.to_multiset().remove(winner));
            assert(pre_cur.to_multiset().count(winner) > 0) by {
                assert(pre_cur.contains(pre_cur[chosen_idx as int]));
            }
        }
        pool.push(winner);
        proof {
            assert(pool@.to_multiset() =~= pre_pool.to_multiset().insert(winner));
            assert(pool@.to_multiset().add(cur@.to_multiset()) =~= orig.to_multiset());
        }
        drawn = drawn + 1;
    }
    proof {
        assert forall|x: Genome|
            #[trigger] pool@.to_multiset().count(x) <= orig.to_multiset().count(x) by {
            assert(pool@.to_multiset().count(x) + cur@.to_multiset().count(x)
                == orig.to_multiset().count(x));
        }
    }
    pool
}

} // verus!
