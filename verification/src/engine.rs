//! The generation loop: seed a random population, then repeatedly
//! select a breeding pool, produce offspring by crossover and mutation,
//! rank by fitness, truncate to the population size, and stop on a
//! generation budget or on convergence of the feasible best.

use vstd::prelude::*;
use vstd::multiset::Multiset;
use crate::genome::{fitness_ge, fitness_gt_exec, genome_eq, genome_wf, Genome};
use crate::evolution::{crossover, mutate};
use crate::params::{params_wf, FitnessPolicy, Params};
use crate::selection::tournament_selection;
use crate::world::{
    lemma_vehicles_before_monotonic, spec_total_vehicles, total_vehicles, world_wf, Customer,
    Depot,
};

verus! {

broadcast use vstd::seq_lib::group_to_multiset_ensures;

/// Every genome of the population agrees with its decoding.
pub open spec fn pop_wf(pop: Seq<Genome>, ds: Seq<Depot>, cs: Seq<Customer>, params: Params) -> bool {
    forall|i: int| 0 <= i < pop.len() ==> genome_wf(#[trigger] pop[i], ds, cs, params)
}

/// Ascending fitness: the last genome ranks best.
pub open spec fn sorted_by_fitness(pop: Seq<Genome>) -> bool {
    forall|i: int, j: int|
        0 <= i <= j < pop.len() ==> fitness_ge(pop[j].fitness as int, pop[i].fitness as int)
}

/// Sort a population by ascending fitness (selection of the worst
/// remaining genome, repeatedly).
pub fn sort_by_fitness(pop: Vec<Genome>) -> (r: Vec<Genome>)
    ensures
        r@.len() == pop@.len(),
        sorted_by_fitness(r@),
        forall|i: int| 0 <= i < r@.len() ==> pop@.contains(#[trigger] r@[i]),
        r@.to_multiset() == pop@.to_multiset(),
{
    let ghost orig = pop@;
    let mut src = pop;
    let mut out: Vec<Genome> = Vec::new();
    proof {
        assert forall|x: Genome| out@.to_multiset().count(x) == 0nat by {
            if out@.to_multiset().count(x) > 0 {
                assert(out@.contains(x));
            }
        }
        assert(out@.to_multiset().add(src@.to_multiset()) =~= orig.to_multiset());
    }
    while src.len() > 0
        invariant
            out@.len() + src@.len() == orig.len(),
            out@.to_multiset().add(src@.to_multiset()) =~= orig.to_multiset(),
            sorted_by_fitness(out@),
            forall|a: int, b: int|
                0 <= a < src@.len() && 0 <= b < out@.len() ==> fitness_ge(
                    src@[a].fitness as int,
                    out@[b].fitness as int,
                ),
        decreases src@.len(),
    {
        // the worst remaining genome comes next
        let mut m: usize = 0;
        let mut j: usize = 1;
        while j < src.len()
            invariant
                0 <= m < j <= src@.len(),
                src@.len() >= 1,
                forall|k: int| 0 <= k < j ==> fitness_ge(src@[k].fitness as int, src@[m as int].fitness as int),
            decreases src@.len() - j,
        {
            if fitness_gt_exec(src[m].get_fitness(), src[j].get_fitness()) {
                m = j;
            }
            j = j + 1;
        }
        let ghost pre = src@;
        let g = src.remove(m);
        proof {
            assert(src@.to_multiset() =~= pre.to_multiset().remove(g));
            assert(pre.to_multiset().count(g) > 0) by {
                assert(pre.contains(pre[m as int]));
            }
            assert forall|a: int|
                0 <= a < src@.len() implies fitness_ge(
                src@[a].fitness as int,
                g.fitness as int,
            ) by {
                if a < m {
                    assert(src@[a] == pre[a]);
                } else {
                    assert(src@[a] == pre[a + 1]);
                }
            }
        }
        out.push(g);
        proof {
            assert(out@.to_multiset().add(src@.to_multiset()) =~= orig.to_multiset());
        }
    }
    proof {
        assert forall|x: Genome| src@.to_multiset().count(x) == 0nat by {
            if src@.to_multiset().count(x) > 0 {
                assert(src@.contains(x));
            }
        }
        assert(out@.to_multiset() =~= orig.to_multiset());
        assert forall|i: int| 0 <= i < out@.len() implies orig.contains(#[trigger] out@[i]) by {
            assert(out@.contains(out@[i]));
            assert(out@.to_multiset().count(out@[i]) > 0);
            assert(orig.to_multiset().count(out@[i]) > 0);
        }
    }
    out
}

/// Drop the `count` lowest-ranked genomes from the front.
pub fn drop_front(pop: Vec<Genome>, count: usize) -> (r: Vec<Genome>)
    requires
        count <= pop@.len(),
    ensures
        r@ == pop@.subrange(count as int, pop@.len() as int),
{
    let mut v = pop;
    let mut i: usize = 0;
    while i < count
        invariant
            0 <= i <= count,
            count <= pop@.len(),
            v@ =~= pop@.subrange(i as int, pop@.len() as int),
        decreases count - i,
    {
        v.remove(0);
        proof {
            assert(v@ =~= pop@.subrange(i + 1, pop@.len() as int));
        }
        i = i + 1;
    }
    proof {
        assert(v@ =~= pop@.subrange(count as int, pop@.len() as int));
    }
    v
}

/// How many genomes of the population meet every limit.
pub open spec fn count_valid(s: Seq<Genome>) -> int
    decreases s.len(),
{
    if s.len() == 0 {
        0
    } else {
        count_valid(s.drop_last()) + (if s.last().valid {
            1int
        } else {
            0int
        })
    }
}

/// Per-generation progress numbers.
pub struct GenStats {
    /// Total distance of a highest-fitness genome.
    pub best_distance: i64,
    /// Whether that genome meets every limit.
    pub best_valid: bool,
    /// Smallest penalty in the population.
    pub best_penalty: i64,
    /// Largest penalty in the population.
    pub worst_penalty: i64,
    /// How many genomes meet every limit.
    pub valid_count: usize,
}

/// Collect the progress numbers of one population.
pub fn gen_stats(pop: &Vec<Genome>) -> (r: GenStats)
    requires
        pop@.len() >= 1,
    ensures
        exists|i: int|
            0 <= i < pop@.len() && r.best_distance == pop@[i].total_distance && r.best_valid
                == pop@[i].valid && (forall|j: int|
                0 <= j < pop@.len() ==> fitness_ge(
                    pop@[i].fitness as int,
                    #[trigger] pop@[j].fitness as int,
                )),
        forall|j: int| 0 <= j < pop@.len() ==> #[trigger] pop@[j].penalty >= r.best_penalty,
        exists|j: int| 0 <= j < pop@.len() && pop@[j].penalty == r.best_penalty,
        forall|j: int| 0 <= j < pop@.len() ==> #[trigger] pop@[j].penalty <= r.worst_penalty,
        exists|j: int| 0 <= j < pop@.len() && pop@[j].penalty == r.worst_penalty,
        r.valid_count as int == count_valid(pop@),
{
    proof {
        assert(pop@.take(1).drop_last() =~= Seq::<Genome>::empty());
        assert(pop@.take(1).last() == pop@[0]);
        assert(count_valid(Seq::<Genome>::empty()) == 0);
        assert(count_valid(pop@.take(1)) == (if pop@[0].valid {
            1int
        } else {
            0int
        }));
    }
    let mut m: usize = 0;
    let mut best_penalty = pop[0].penalty();
    let mut worst_penalty = pop[0].penalty();
    let mut valid_count: usize = 0;
    if pop[0].is_valid() {
        valid_count = 1;
    }
    let mut j: usize = 1;
    while j < pop.len()
        invariant
            0 <= m < j <= pop@.len(),
            pop@.len() >= 1,
            forall|k: int|
                0 <= k < j ==> fitness_ge(
                    pop@[m as int].fitness as int,
                    #[trigger] pop@[k].fitness as int,
                ),
            forall|k: int| 0 <= k < j ==> #[trigger] pop@[k].penalty >= best_penalty,
            exists|k: int| 0 <= k < j && pop@[k].penalty == best_penalty,
            forall|k: int| 0 <= k < j ==> #[trigger] pop@[k].penalty <= worst_penalty,
            exists|k: int| 0 <= k < j && pop@[k].penalty == worst_penalty,
            valid_count <= j,
            valid_count as int == count_valid(pop@.take(j as int)),
        decreases pop@.len() - j,
    {
        if fitness_gt_exec(pop[j].get_fitness(), pop[m].get_fitness()) {
            m = j;
        }
        if pop[j].penalty() < best_penalty {
            best_penalty = pop[j].penalty();
        }
        if pop[j].penalty() > worst_penalty {
            worst_penalty = pop[j].penalty();
        }
        if pop[j].is_valid() {
            valid_count = valid_count + 1;
        }
        proof {
            pop@.lemma_take_succ_push(j as int);
            assert(pop@.take(j as int + 1).drop_last() =~= pop@.take(j as int));
            assert(pop@.take(j as int + 1).last() == pop@[j as int]);
        }
        j = j + 1;
    }
    proof {
        assert(pop@.take(pop@.len() as int) =~= pop@);
    }
    GenStats {
        best_distance: pop[m].total_distance(),
        best_valid: pop[m].is_valid(),
        best_penalty,
        worst_penalty,
        valid_count,
    }
}

/// The best feasible genome of a ranked population, if one exists
/// anywhere in it; otherwise the best-ranked genome regardless.
pub fn select_best(pop: &Vec<Genome>) -> (r: Genome)
    requires
        pop@.len() >= 1,
        sorted_by_fitness(pop@),
    ensures
        exists|w: int| 0 <= w < pop@.len() && genome_eq(r, #[trigger] pop@[w]),
        (exists|j: int| 0 <= j < pop@.len() && pop@[j].valid) ==> r.valid && (forall|j: int|
            0 <= j < pop@.len() && pop@[j].valid ==> fitness_ge(
                r.fitness as int,
                #[trigger] pop@[j].fitness as int,
            )),
        (forall|j: int| 0 <= j < pop@.len() ==> !(#[trigger] pop@[j].valid)) ==> genome_eq(
            r,
            pop@[pop@.len() - 1],
        ),
{
    let mut i: usize = pop.len();
    while i > 0
        invariant
            0 <= i <= pop@.len(),
            pop@.len() >= 1,
            sorted_by_fitness(pop@),
            forall|k: int| i <= k < pop@.len() ==> !(#[trigger] pop@[k].valid),
        decreases i,
    {
        i = i - 1;
        if pop[i].is_valid() {
            let g = pop[i].duplicate();
            proof {
                assert(genome_eq(g, pop@[i as int]));
            }
            return g;
        }
    }
    let last = pop.len() - 1;
    let g = pop[last].duplicate();
    proof {
        assert(genome_eq(g, pop@[last as int]));
    }
    g
}

/// What a run returns: the chosen solution, the final ranked
/// population it was taken from, and, per generation, the best
/// distance and the policy's progress number (the smallest penalty,
/// or the best distance under the validity policy).
pub struct TrainResult {
    pub best: Genome,
    pub final_population: Vec<Genome>,
    pub bests: Vec<i64>,
    pub series: Vec<i64>,
    pub generations_run: usize,
}

/// Run the evolutionary search on one problem instance.
pub fn train(depots: &Vec<Depot>, customers: &Vec<Customer>, params: &Params) -> (r: TrainResult)
    requires
        world_wf(depots@, customers@),
        params_wf(*params),
        1 <= customers@.len(),
    ensures
        genome_wf(r.best, depots@, customers@, *params),
        r.bests@.len() == r.series@.len(),
        r.bests@.len() == r.generations_run <= params.generations,
        // the final population is ranked, decoded and of the fixed size
        r.final_population@.len() == params.pop_size,
        pop_wf(r.final_population@, depots@, customers@, *params),
        sorted_by_fitness(r.final_population@),
        // the chosen genome is the fittest feasible one of the final
        // population when one exists, else the fittest overall
        exists|w: int|
            0 <= w < r.final_population@.len() && genome_eq(
                r.best,
                #[trigger] r.final_population@[w],
            ),
        (exists|j: int| 0 <= j < r.final_population@.len() && r.final_population@[j].valid)
            ==> r.best.valid && (forall|j: int|
            0 <= j < r.final_population@.len() && r.final_population@[j].valid ==> fitness_ge(
                r.best.fitness as int,
                #[trigger] r.final_population@[j].fitness as int,
            )),
        (forall|j: int|
            0 <= j < r.final_population@.len() ==> !(#[trigger] r.final_population@[j].valid))
            ==> genome_eq(r.best, r.final_population@[r.final_population@.len() - 1]),
        // each series samples one generation; the last entries belong
        // to the final population
        r.generations_run > 0 ==> exists|j: int|
            0 <= j < r.final_population@.len() && r.bests@[r.generations_run - 1]
                == r.final_population@[j].total_distance && (forall|k: int|
                0 <= k < r.final_population@.len() ==> fitness_ge(
                    r.final_population@[j].fitness as int,
                    #[trigger] r.final_population@[k].fitness as int,
                )),
        r.generations_run > 0 && params.policy == FitnessPolicy::Validity
            ==> r.series@[r.generations_run - 1] == r.bests@[r.generations_run - 1],
        r.generations_run > 0 && params.policy == FitnessPolicy::Penalty ==> (forall|k: int|
            0 <= k < r.final_population@.len() ==> #[trigger] r.final_population@[k].penalty
                >= r.series@[r.generations_run - 1]) && (exists|k: int|
            0 <= k < r.final_population@.len()
                && r.final_population@[k].penalty == r.series@[r.generations_run - 1]),
        // the loop ends on the generation budget, or once the best has
        // stayed unchanged for the configured streak while feasible
        r.generations_run < params.generations ==> params.convergence_time <= r.generations_run
            && (forall|t: int|
            r.generations_run - params.convergence_time <= t < r.generations_run
                ==> #[trigger] r.bests@[t] == r.bests@[r.generations_run - 1]) && (
        r.generations_run > 0 ==> exists|j: int|
            0 <= j < r.final_population@.len() && r.final_population@[j].valid),
{
    let ghost ds = depots@;
    let ghost cs = customers@;
    let num_vehicles = total_vehicles(depots);
    proof {
        lemma_vehicles_before_monotonic(ds, 0, ds.len() as int);
    }
    let n_customers = customers.len();
    // seed population
    let mut pop: Vec<Genome> = Vec::new();
    while pop.len() < params.pop_size
        invariant
            world_wf(ds, cs),
            params_wf(*params),
            ds == depots@,
            cs == customers@,
            1 <= cs.len(),
            n_customers == cs.len(),
            num_vehicles as int == spec_total_vehicles(ds),
            1 <= num_vehicles,
            pop@.len() <= params.pop_size,
            pop_wf(pop@, ds, cs, *params),
        decreases params.pop_size - pop@.len(),
    {
        let g = Genome::random(n_customers, num_vehicles, depots, customers, params);
        pop.push(g);
    }
    let ghost orig_pop = pop@;
    let pop_sorted = sort_by_fitness(pop);
    let mut pop = pop_sorted;
    proof {
        assert forall|i: int|
            0 <= i < pop@.len() implies genome_wf(#[trigger] pop@[i], ds, cs, *params) by {
            assert(orig_pop.contains(pop@[i]));
            let w = choose|w: int| 0 <= w < orig_pop.len() && orig_pop[w] == pop@[i];
        }
    }
    let mut bests: Vec<i64> = Vec::new();
    let mut series: Vec<i64> = Vec::new();
    let mut last_best: i64 = 0;
    let mut last_best_penalty: i64 = 0;
    let mut last_best_valid: bool = true;
    let mut repeat_count: usize = 0;
    let mut g: usize = 0;
    while g < params.generations && (!last_best_valid || repeat_count < params.convergence_time)
        invariant
            world_wf(ds, cs),
            params_wf(*params),
            ds == depots@,
            cs == customers@,
            1 <= cs.len(),
            n_customers == cs.len(),
            num_vehicles as int == spec_total_vehicles(ds),
            1 <= num_vehicles,
            pop@.len() == params.pop_size,
            pop_wf(pop@, ds, cs, *params),
            sorted_by_fitness(pop@),
            bests@.len() == series@.len(),
            bests@.len() == g,
            g <= params.generations,
            repeat_count <= g,
            forall|t: int| g - repeat_count <= t < g ==> #[trigger] bests@[t] == last_best,
            g > 0 ==> bests@[g - 1] == last_best,
            g > 0 ==> exists|j: int|
                0 <= j < pop@.len() && bests@[g - 1] == pop@[j].total_distance && last_best_valid
                    == pop@[j].valid && (forall|k: int|
                    0 <= k < pop@.len() ==> fitness_ge(
                        pop@[j].fitness as int,
                        #[trigger] pop@[k].fitness as int,
                    )),
            g > 0 && params.policy == FitnessPolicy::Validity ==> series@[g - 1] == bests@[g - 1],
            g > 0 && params.policy == FitnessPolicy::Penalty ==> (forall|k: int|
                0 <= k < pop@.len() ==> #[trigger] pop@[k].penalty >= series@[g - 1]) && (exists|k: int|
                0 <= k < pop@.len() && pop@[k].penalty == series@[g - 1]),
        decreases params.generations - g,
    {
        let mut new_generation: Vec<Genome> = Vec::new();
        let ghost prev_pop = pop@;
        let pool = tournament_selection(pop, &mut new_generation, params);
        proof {
            assert forall|i: int|
                0 <= i < pool@.len() implies genome_wf(#[trigger] pool@[i], ds, cs, *params) by {
                assert(prev_pop.contains(pool@[i]));
                let w = choose|w: int| 0 <= w < prev_pop.len() && prev_pop[w] == pool@[i];
            }
            assert forall|i: int|
                0 <= i < new_generation@.len() implies genome_wf(
                #[trigger] new_generation@[i],
                ds,
                cs,
                *params,
            ) by {
                assert(genome_eq(new_generation@[0 + i], prev_pop[prev_pop.len() - 1 - i]));
                assert(new_generation@[0 + i] == new_generation@[i]);
            }
        }
        proof {
            assert((params.children as int) * (params.pop_size as int) <= 1_000_000_000)
                by (nonlinear_arith)
                requires
                    0 <= params.children as int <= 1_000,
                    0 <= params.pop_size as int <= 1_000_000,
            ;
        }
        let pairs = params.children * params.pop_size / 2;
        let mut p: usize = 0;
        while p < pairs
            invariant
                world_wf(ds, cs),
                params_wf(*params),
                ds == depots@,
                cs == customers@,
                1 <= cs.len(),
                n_customers == cs.len(),
                num_vehicles as int == spec_total_vehicles(ds),
                pool@.len() == params.pool_size,
                pop_wf(pool@, ds, cs, *params),
                pop_wf(new_generation@, ds, cs, *params),
                new_generation@.len() == params.elites + 2 * p,
                0 <= p <= pairs,
            decreases pairs - p,
        {
            let i1 = crate::rng::rand_below(pool.len());
            let i2 = crate::rng::rand_below(pool.len());
            let cross = crate::rng::rand_millis();
            if cross < params.prob_crossover_millis {
                let children = pool[i1].crossover(
                    &pool[i2],
                    depots,
                    customers,
                    num_vehicles,
                    params,
                );
                let c1 = mutate(children.0, depots, customers, params);
                let c2 = mutate(children.1, depots, customers, params);
                new_generation.push(c1);
                new_generation.push(c2);
            } else {
                new_generation.push(pool[i1].duplicate());
                new_generation.push(pool[i2].duplicate());
            }
            p = p + 1;
        }
        let ghost unranked = new_generation@;
        let ranked = sort_by_fitness(new_generation);
        let ghost rankedv = ranked@;
        proof {
            assert forall|i: int|
                0 <= i < ranked@.len() implies genome_wf(#[trigger] ranked@[i], ds, cs, *params) by {
                assert(unranked.contains(ranked@[i]));
                let w = choose|w: int| 0 <= w < unranked.len() && unranked[w] == ranked@[i];
            }
        }
        let excess = ranked.len() - params.pop_size;
        let kept = drop_front(ranked, excess);
        proof {
            assert forall|i: int, j: int|
                0 <= i <= j < kept@.len() implies fitness_ge(
                kept@[j].fitness as int,
                kept@[i].fitness as int,
            ) by {
                assert(kept@[i] == rankedv[excess + i]);
                assert(kept@[j] == rankedv[excess + j]);
            }
            assert forall|i: int|
                0 <= i < kept@.len() implies genome_wf(#[trigger] kept@[i], ds, cs, *params) by {
                assert(kept@[i] == rankedv[excess + i]);
            }
        }
        pop = kept;
        let stats = gen_stats(&pop);
        bests.push(stats.best_distance);
        match params.policy {
            FitnessPolicy::Penalty => {
                series.push(stats.best_penalty);
            },
            FitnessPolicy::Validity => {
                series.push(stats.best_distance);
            },
        }
        if stats.best_distance == last_best && stats.best_penalty == last_best_penalty {
            if repeat_count < 1_000_000_000 {
                repeat_count = repeat_count + 1;
            }
        } else {
            repeat_count = 0;
            last_best = stats.best_distance;
            last_best_penalty = stats.best_penalty;
        }
        last_best_valid = stats.best_valid;
        g = g + 1;
    }
    let best = select_best(&pop);
    proof {
        let w = choose|w: int| 0 <= w < pop@.len() && genome_eq(best, #[trigger] pop@[w]);
        assert(genome_wf(pop@[w], ds, cs, *params));
        assert(0 <= w < pop@.len() && genome_eq(best, pop@[w]));
        if g < params.generations {
            // the run converged: the streak covers the configured
            // window and the ranked best is feasible
            if g > 0 {
                let j = choose|j: int|
                    0 <= j < pop@.len() && bests@[g - 1] == pop@[j].total_distance
                        && last_best_valid == pop@[j].valid && (forall|k: int|
                        0 <= k < pop@.len() ==> fitness_ge(
                            pop@[j].fitness as int,
                            #[trigger] pop@[k].fitness as int,
                        ));
                assert(pop@[j].valid);
                assert(0 <= j < pop@.len() && pop@[j].valid);
            }
            assert forall|t: int|
                g - params.convergence_time <= t < g implies #[trigger] bests@[t] == bests@[g
                - 1] by {
                assert(bests@[t] == last_best);
            }
        }
    }
    let ghost fp = pop@;
    let ghost bv = bests@;
    let ghost sv = series@;
    let result = TrainResult { best, final_population: pop, bests, series, generations_run: g };
    proof {
        assert(result.final_population@ == fp);
        assert(result.bests@ == bv);
        assert(result.series@ == sv);
        assert(result.generations_run == g);
        assert(exists|w: int| 0 <= w < fp.len() && genome_eq(result.best, #[trigger] fp[w]));
    }
    result
}

} // verus!
