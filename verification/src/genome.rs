//! The genome: a customer-order sequence together with its decoded
//! distance, penalty, feasibility flag and ranking score.

use vstd::prelude::*;
use crate::decode::{
    lemma_decode_bounds, lemma_valid_order_multiset, spec_decode, tot_dist, valid_order, DIST_CAP,
};
use crate::perm::lemma_count_unique_position;
use crate::params::{params_wf, FitnessPolicy, Params, MAX_ALPHA};
use crate::repair::{pass_clean, repair};
use crate::world::{spec_total_vehicles, world_wf, Customer, Depot, DIST_BOUND};

verus! {

broadcast use vstd::seq_lib::group_to_multiset_ensures;

/// The ranking cost of a genome: lower is better.  Under the validity
/// policy it is the (possibly violation-multiplied) total distance;
/// under the penalty policy it weights the violation excess by `alpha`.
pub open spec fn spec_cost(policy: FitnessPolicy, alpha: int, dist: int, penalty: int) -> int {
    match policy {
        FitnessPolicy::Validity => dist,
        FitnessPolicy::Penalty => dist + alpha * penalty,
    }
}

/// The fitness of cost `c` is `0` when `c == 0` (a degenerate
/// zero-distance tour) and `1/c` otherwise; this predicate is the
/// resulting strict order: the fitness of `c1` exceeds that of `c2`.
pub open spec fn fitness_gt(c1: int, c2: int) -> bool {
    c1 != 0 && (c2 == 0 || c1 < c2)
}

/// The fitness of `c1` is at least that of `c2`.
pub open spec fn fitness_ge(c1: int, c2: int) -> bool {
    fitness_gt(c1, c2) || c1 == c2
}

/// Comparison of two ranking costs by the fitness they stand for.
pub fn fitness_gt_exec(c1: i64, c2: i64) -> (r: bool)
    ensures
        r == fitness_gt(c1 as int, c2 as int),
{
    c1 != 0 && (c2 == 0 || c1 < c2)
}

/// Strictly smaller positive total distance means strictly greater
/// fitness, whenever the violation measure is the same.
pub proof fn lemma_fitness_monotonic(
    policy: FitnessPolicy,
    alpha: int,
    d1: int,
    p1: int,
    d2: int,
    p2: int,
)
    requires
        p1 == p2,
        0 <= p1,
        1 <= d1 < d2,
        0 <= alpha,
    ensures
        fitness_gt(spec_cost(policy, alpha, d1, p1), spec_cost(policy, alpha, d2, p2)),
{
    assert(0 <= alpha * p1) by (nonlinear_arith)
        requires
            0 <= alpha,
            0 <= p1,
    ;
}

/// Upper bounds on what the decoder can hand to `fitness`.
pub const MAX_DIST_RESULT: i64 = DIST_CAP + 3_000_003_000_000;

pub const MAX_PENALTY_RESULT: i64 = 5_000_005_000_000;

/// One candidate solution and its decoded summary.
pub struct Genome {
    pub customer_order: Vec<i64>,
    pub fitness: i64,
    pub total_distance: i64,
    pub penalty: i64,
    pub valid: bool,
}

impl Genome {
/// The ranking score of a decoded genome.  The fitness scalar is
/// `1/cost` (with `0` for a zero cost), and the integer cost carries
/// exactly the same order under `fitness_gt`; the cost itself is
/// stored and compared so that ranking stays exact.
pub fn fitness(
    total_distance: i64,
    penalty: i64,
    alpha: i64,
    policy: FitnessPolicy,
) -> (r: i64)
    requires
        0 <= total_distance <= MAX_DIST_RESULT,
        0 <= penalty <= MAX_PENALTY_RESULT,
        0 <= alpha <= MAX_ALPHA,
    ensures
        r as int == spec_cost(policy, alpha as int, total_distance as int, penalty as int),
        0 <= r,
{
    match policy {
        FitnessPolicy::Validity => total_distance,
        FitnessPolicy::Penalty => {
            proof {
                assert(0 <= (alpha as int) * (penalty as int) <= 5_000_005_000_000_000_000)
                    by (nonlinear_arith)
                    requires
                        0 <= alpha as int <= MAX_ALPHA,
                        0 <= penalty as int <= MAX_PENALTY_RESULT,
                ;
            }
            total_distance + alpha * penalty
        },
    }
}
}

impl Genome {
    /// The ranking cost; see `fitness`.
    pub fn get_fitness(&self) -> (r: i64)
        ensures
            r == self.fitness,
    {
        self.fitness
    }

    pub fn penalty(&self) -> (r: i64)
        ensures
            r == self.penalty,
    {
        self.penalty
    }

    pub fn total_distance(&self) -> (r: i64)
        ensures
            r == self.total_distance,
    {
        self.total_distance
    }

    pub fn is_valid(&self) -> (r: bool)
        ensures
            r == self.valid,
    {
        self.valid
    }

    /// An explicit copy; the derived fields travel with the sequence.
    pub fn duplicate(&self) -> (g: Genome)
        ensures
            g.customer_order@ == self.customer_order@,
            g.fitness == self.fitness,
            g.total_distance == self.total_distance,
            g.penalty == self.penalty,
            g.valid == self.valid,
    {
        let order = self.customer_order.clone();
        proof {
            assert(order@ =~= self.customer_order@);
        }
        Genome {
            customer_order: order,
            fitness: self.fitness,
            total_distance: self.total_distance,
            penalty: self.penalty,
            valid: self.valid,
        }
    }
}

/// Field-for-field agreement of two genomes.
pub open spec fn genome_eq(a: Genome, b: Genome) -> bool {
    &&& a.customer_order@ == b.customer_order@
    &&& a.fitness == b.fitness
    &&& a.total_distance == b.total_distance
    &&& a.penalty == b.penalty
    &&& a.valid == b.valid
}

/// A genome agrees with its own decoding: its sequence satisfies the
/// structural invariant and every derived field equals what the
/// decoder computes for that sequence.
pub open spec fn genome_wf(g: Genome, ds: Seq<Depot>, cs: Seq<Customer>, params: Params) -> bool {
    let dec = spec_decode(g.customer_order@, ds, cs, params.policy);
    &&& valid_order(g.customer_order@, cs.len() as int, spec_total_vehicles(ds))
    &&& g.total_distance as int == dec.dist
    &&& g.penalty as int == dec.penalty
    &&& g.valid == dec.valid
    &&& g.fitness as int == spec_cost(
        params.policy,
        params.alpha as int,
        dec.dist,
        dec.penalty,
    )
}

/// Of two genomes with the same violation measure, the one with the
/// strictly smaller positive total distance ranks strictly fitter.
pub proof fn lemma_genome_fitness_monotonic(
    a: Genome,
    b: Genome,
    ds: Seq<Depot>,
    cs: Seq<Customer>,
    params: Params,
)
    requires
        world_wf(ds, cs),
        genome_wf(a, ds, cs, params),
        genome_wf(b, ds, cs, params),
        params_wf(params),
        a.penalty == b.penalty,
        1 <= a.total_distance < b.total_distance,
    ensures
        fitness_gt(a.fitness as int, b.fitness as int),
{
    lemma_decode_bounds(a.customer_order@, ds, cs, params.policy);
    lemma_fitness_monotonic(
        params.policy,
        params.alpha as int,
        a.total_distance as int,
        a.penalty as int,
        b.total_distance as int,
        b.penalty as int,
    );
}

impl Genome {
    /// Build a genome from a sequence: repair it when configured to,
    /// decode it, and record the ranking score.
    pub fn generate(
        customer_order: Vec<i64>,
        depots: &Vec<Depot>,
        customers: &Vec<Customer>,
        params: &Params,
    ) -> (g: Genome)
        requires
            world_wf(depots@, customers@),
            params_wf(*params),
            valid_order(customer_order@, customers@.len() as int, spec_total_vehicles(depots@)),
        ensures
            genome_wf(g, depots@, customers@, *params),
            g.customer_order@.to_multiset() == customer_order@.to_multiset(),
            g.customer_order@.len() == customer_order@.len(),
            !params.repaired ==> g.customer_order@ == customer_order@,
            params.repaired && pass_clean(customer_order@, depots@, customers@) && pass_clean(
                customer_order@.reverse(),
                depots@,
                customers@,
            ) ==> g.customer_order@ == customer_order@,
    {
        let order = if params.repaired {
            repair(customer_order, depots, customers)
        } else {
            customer_order
        };
        let dec = tot_dist(&order, depots, customers, params.policy);
        proof {
            lemma_decode_bounds(order@, depots@, customers@, params.policy);
        }
        let fit = Genome::fitness(dec.0, dec.1, params.alpha, params.policy);
        Genome {
            customer_order: order,
            fitness: fit,
            total_distance: dec.0,
            penalty: dec.1,
            valid: dec.2,
        }
    }

    /// A random genome: a shuffled customer permutation with the zero
    /// separators inserted at even strides, then decoded.
    pub fn random(
        n_customers: usize,
        total_vehicles: usize,
        depots: &Vec<Depot>,
        customers: &Vec<Customer>,
        params: &Params,
    ) -> (g: Genome)
        requires
            world_wf(depots@, customers@),
            params_wf(*params),
            n_customers == customers@.len(),
            total_vehicles as int == spec_total_vehicles(depots@),
            1 <= n_customers,
            1 <= total_vehicles,
        ensures
            genome_wf(g, depots@, customers@, *params),
    {
        let ghost n = n_customers as int;
        let ghost vt = total_vehicles as int;
        let mut customer_list: Vec<i64> = Vec::new();
        let mut i: usize = 0;
        while i < n_customers
            invariant
                0 <= i <= n_customers,
                n_customers <= 500_000,
                customer_list@.len() == i,
                forall|k: int| 0 <= k < i ==> #[trigger] customer_list@[k] == k + 1,
            decreases n_customers - i,
        {
            let val = (i + 1) as i64;
            customer_list.push(val);
            i = i + 1;
        }
        let ghost cl0 = customer_list@;
        proof {
            assert forall|c: i64| 1 <= c <= n implies cl0.to_multiset().count(c) == 1 by {
                assert(cl0[c - 1] == c);
                lemma_count_unique_position(cl0, c, c - 1);
            }
            assert(!cl0.contains(0i64));
            assert(cl0.to_multiset().count(0i64) == 0);
            assert(valid_order(cl0, n, 1));
        }
        crate::evolution::shuffle_vec(&mut customer_list);
        proof {
            lemma_valid_order_multiset(cl0, customer_list@, n, 1);
        }
        let step = n_customers / total_vehicles;
        let mut k = total_vehicles - 1;
        while k >= 1
            invariant
                0 <= k <= vt - 1,
                vt == total_vehicles as int,
                n == n_customers as int,
                1 <= n_customers <= 500_000,
                1 <= total_vehicles <= 500_000,
                step == n_customers / total_vehicles,
                customer_list@.len() == n + (vt - 1 - k),
                forall|q: int|
                    0 <= q < customer_list@.len() ==> 0 <= #[trigger] customer_list@[q] <= n,
                forall|c: i64|
                    1 <= c <= n ==> customer_list@.to_multiset().count(c) == 1,
                customer_list@.to_multiset().count(0i64) == vt - 1 - k,
            decreases k,
        {
            proof {
                vstd::arithmetic::div_mod::lemma_fundamental_div_mod(
                    n_customers as int,
                    total_vehicles as int,
                );
                assert((step as int) * (k as int) <= (step as int) * (vt - 1)) by (nonlinear_arith)
                    requires
                        0 <= step as int,
                        0 <= k as int <= vt - 1,
                ;
                assert((step as int) * (vt - 1) <= (step as int) * vt) by (nonlinear_arith)
                    requires
                        0 <= step as int,
                        1 <= vt,
                ;
                assert((total_vehicles as int) * (step as int) == (step as int) * vt)
                    by (nonlinear_arith)
                    requires
                        vt == total_vehicles as int,
                ;
                assert((step as int) * (k as int) <= n);
            }
            let pos = step * k;
            let ghost pre = customer_list@;
            customer_list.insert(pos, 0);
            proof {
                assert(customer_list@.to_multiset() =~= pre.to_multiset().insert(0i64));
            }
            k = k - 1;
        }
        proof {
            assert(valid_order(customer_list@, n, vt));
        }
        Genome::generate(customer_list, depots, customers, params)
    }
}

} // verus!
