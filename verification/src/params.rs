//! Run configuration: population sizes, operator probabilities,
//! the fitness policy and its penalty weight.

use vstd::prelude::*;

verus! {

/// How constraint violations flow into the ranking score.
///
/// `Validity` multiplies the total distance by the depot count at every
/// violated route and keeps a boolean flag; `Penalty` accumulates the
/// numeric excess over each violated limit and weights it by `alpha`.
/// Exactly one policy is active for a run.
#[derive(Clone, Copy, PartialEq, Eq, Structural)]
pub enum FitnessPolicy {
    Validity,
    Penalty,
}

/// Probabilities are carried as integer thousandths: a draw
/// `r` from `[0, 1000)` hits an event of probability `p` iff `r < p`.
pub const PROB_SCALE: i64 = 1000;

/// Finer scale used for the geometric rank distribution in selection.
pub const PRESSURE_SCALE: i64 = 1_000_000;

pub const MAX_ALPHA: i64 = 1_000_000;

pub struct Params {
    /// Fitness policy; see `FitnessPolicy`.
    pub policy: FitnessPolicy,
    /// Weight of one unit of constraint violation under the penalty policy.
    pub alpha: i64,
    /// Whether freshly built sequences run through the repair pass.
    pub repaired: bool,
    /// Population size, held constant across generations.
    pub pop_size: usize,
    /// Hard budget of generations.
    pub generations: usize,
    /// Offspring pairs per generation are `children * pop_size / 2`.
    pub children: usize,
    /// Generations the best may stay unchanged before the run converges.
    pub convergence_time: usize,
    /// Individuals copied unchanged into the next generation.
    pub elites: usize,
    /// Size of the breeding pool drawn each generation.
    pub pool_size: usize,
    /// Individuals sampled per tournament draw.
    pub tournament_size: usize,
    /// Selection pressure `p` of the geometric rank distribution,
    /// in thousandths.
    pub pressure_millis: i64,
    pub prob_mutation_millis: i64,
    pub frac_insert_millis: i64,
    pub frac_swap_millis: i64,
    pub frac_scramble_millis: i64,
    pub prob_crossover_millis: i64,
    pub frac_order1_millis: i64,
    pub frac_pmx_millis: i64,
    pub frac_edge_millis: i64,
}

pub open spec fn millis_ok(m: i64) -> bool {
    0 <= m <= PROB_SCALE
}

pub open spec fn params_wf(p: Params) -> bool {
    &&& 0 <= p.alpha <= MAX_ALPHA
    &&& 1 <= p.pop_size <= 1_000_000
    &&& p.generations <= 1_000_000_000
    &&& 1 <= p.children <= 1_000
    &&& 1 <= p.tournament_size
    &&& 1 <= p.pool_size
    &&& p.pool_size <= p.pop_size
    &&& p.elites <= p.pop_size
    &&& p.elites + (p.children * p.pop_size / 2) * 2 >= p.pop_size
    &&& millis_ok(p.pressure_millis)
    &&& millis_ok(p.prob_mutation_millis)
    &&& millis_ok(p.frac_insert_millis)
    &&& millis_ok(p.frac_swap_millis)
    &&& millis_ok(p.frac_scramble_millis)
    &&& p.frac_insert_millis + p.frac_swap_millis + p.frac_scramble_millis <= PROB_SCALE
    &&& millis_ok(p.prob_crossover_millis)
    &&& millis_ok(p.frac_order1_millis)
    &&& millis_ok(p.frac_pmx_millis)
    &&& millis_ok(p.frac_edge_millis)
    &&& p.frac_order1_millis + p.frac_pmx_millis + p.frac_edge_millis <= PROB_SCALE
}

/// Runtime check for `params_wf`, for callers outside verified code.
pub fn check_params_wf(p: &Params) -> (r: bool)
    ensures
        r == params_wf(*p),
{
    if !(0 <= p.alpha && p.alpha <= MAX_ALPHA && 1 <= p.pop_size && p.pop_size <= 1_000_000
        && p.generations <= 1_000_000_000 && 1 <= p.children && p.children <= 1_000) {
        return false;
    }
    proof {
        assert((p.children as int) * (p.pop_size as int) <= 1_000_000_000) by (nonlinear_arith)
            requires
                p.children as int <= 1_000,
                p.pop_size as int <= 1_000_000,
                0 <= p.children as int,
                0 <= p.pop_size as int,
        ;
    }
    if !(p.elites <= p.pop_size && p.elites + (p.children * p.pop_size / 2) * 2 >= p.pop_size) {
        return false;
    }
    1 <= p.tournament_size
        && 1 <= p.pool_size
        && p.pool_size <= p.pop_size
        && 0 <= p.pressure_millis && p.pressure_millis <= PROB_SCALE
        && 0 <= p.prob_mutation_millis && p.prob_mutation_millis <= PROB_SCALE
        && 0 <= p.frac_insert_millis && p.frac_insert_millis <= PROB_SCALE
        && 0 <= p.frac_swap_millis && p.frac_swap_millis <= PROB_SCALE
        && 0 <= p.frac_scramble_millis && p.frac_scramble_millis <= PROB_SCALE
        && p.frac_insert_millis + p.frac_swap_millis + p.frac_scramble_millis <= PROB_SCALE
        && 0 <= p.prob_crossover_millis && p.prob_crossover_millis <= PROB_SCALE
        && 0 <= p.frac_order1_millis && p.frac_order1_millis <= PROB_SCALE
        && 0 <= p.frac_pmx_millis && p.frac_pmx_millis <= PROB_SCALE
        && 0 <= p.frac_edge_millis && p.frac_edge_millis <= PROB_SCALE
        && p.frac_order1_millis + p.frac_pmx_millis + p.frac_edge_millis <= PROB_SCALE
}

} // verus!
