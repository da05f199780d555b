use mdvrp::engine::{gen_stats, select_best, sort_by_fitness, train};
use mdvrp::genome::Genome;
use mdvrp::params::{check_params_wf, FitnessPolicy, Params};
use mdvrp::selection::{sort_indices, tournament_selection};
use mdvrp::world::{check_world_wf, Customer, Depot};

fn one_depot_world() -> (Vec<Depot>, Vec<Customer>) {
    let depots = vec![Depot::init(0, 0, 0, 100, 2)];
    let customers = vec![
        Customer::init(3, 4, 0, 30),
        Customer::init(6, 8, 0, 30),
        Customer::init(5, 12, 0, 30),
        Customer::init(10, 24, 0, 30),
    ];
    (depots, customers)
}

fn base_params() -> Params {
    Params {
        policy: FitnessPolicy::Penalty,
        alpha: 1000,
        repaired: false,
        pop_size: 6,
        generations: 3,
        children: 2,
        convergence_time: 2,
        elites: 2,
        pool_size: 3,
        tournament_size: 2,
        pressure_millis: 900,
        prob_mutation_millis: 400,
        frac_insert_millis: 700,
        frac_swap_millis: 100,
        frac_scramble_millis: 200,
        prob_crossover_millis: 900,
        frac_order1_millis: 100,
        frac_pmx_millis: 800,
        frac_edge_millis: 100,
    }
}

fn holds_invariant(order: &Vec<i64>, n_customers: i64, vehicles: i64) {
    assert_eq!(order.len() as i64, n_customers + vehicles - 1);
    for c in 1..=n_customers {
        assert_eq!(order.iter().filter(|&&e| e == c).count(), 1);
    }
    assert_eq!(
        order.iter().filter(|&&e| e == 0).count() as i64,
        vehicles - 1
    );
}

fn small_population() -> Vec<Genome> {
    let (depots, customers) = one_depot_world();
    let params = base_params();
    let orders = vec![
        vec![1, 2, 0, 3, 4],
        vec![1, 2, 3, 0, 4],
        vec![1, 2, 3, 4, 0],
        vec![4, 3, 0, 2, 1],
        vec![2, 0, 1, 3, 4],
        vec![3, 1, 0, 4, 2],
    ];
    let mut pop = Vec::new();
    for o in orders {
        pop.push(Genome::generate(o, &depots, &customers, &params));
    }
    pop
}

#[test]
fn params_check_accepts_the_test_configuration() {
    assert!(check_params_wf(&base_params()));
    let mut bad = base_params();
    bad.pool_size = bad.pop_size + 1;
    assert!(!check_params_wf(&bad));
}

#[test]
fn random_genomes_hold_the_invariant() {
    let (depots, customers) = one_depot_world();
    let params = base_params();
    for _ in 0..20 {
        let g = Genome::random(4, 2, &depots, &customers, &params);
        holds_invariant(&g.customer_order, 4, 2);
    }
}

#[test]
fn sorting_ranks_ascending_fitness() {
    let pop = small_population();
    let sorted = sort_by_fitness(pop);
    assert_eq!(sorted.len(), 6);
    for w in sorted.windows(2) {
        let a = w[0].get_fitness();
        let b = w[1].get_fitness();
        // ascending fitness: the earlier cost is the worse one
        assert!(b != 0 && (a == 0 || b <= a) || a == b);
    }
    // the overloaded genome (penalised cost) must rank below the others
    assert!(sorted[0].penalty() > 0);
}

#[test]
fn sort_indices_orders_the_sample() {
    let mut v = vec![4usize, 1, 3, 1, 0];
    sort_indices(&mut v);
    assert_eq!(v, vec![0, 1, 1, 3, 4]);
}

#[test]
fn tournament_returns_exactly_the_configured_pool() {
    let params = base_params();
    for _ in 0..20 {
        let pop = sort_by_fitness(small_population());
        let mut new_gen = Vec::new();
        let pool = tournament_selection(pop, &mut new_gen, &params);
        assert_eq!(pool.len(), params.pool_size);
        assert_eq!(new_gen.len(), params.elites);
    }
}

#[test]
fn elites_are_the_fittest_copies() {
    let params = base_params();
    let pop = sort_by_fitness(small_population());
    let best_cost = pop[pop.len() - 1].get_fitness();
    let second_cost = pop[pop.len() - 2].get_fitness();
    let mut new_gen = Vec::new();
    let _ = tournament_selection(pop, &mut new_gen, &params);
    assert_eq!(new_gen[0].get_fitness(), best_cost);
    assert_eq!(new_gen[1].get_fitness(), second_cost);
}

#[test]
fn stats_track_best_and_penalties() {
    let pop = small_population();
    let stats = gen_stats(&pop);
    assert_eq!(stats.best_penalty, 0);
    assert_eq!(stats.worst_penalty, 20);
    assert_eq!(stats.valid_count, 5);
    // the best genome is the balanced two-route split of distance 72
    assert_eq!(stats.best_distance, 72);
}

#[test]
fn select_best_prefers_a_feasible_genome() {
    let pop = sort_by_fitness(small_population());
    let best = select_best(&pop);
    assert_eq!(best.penalty(), 0);
    // an all-infeasible population falls back to the best-ranked genome
    let (depots, customers) = one_depot_world();
    let params = base_params();
    let g1 = Genome::generate(vec![1, 2, 3, 4, 0], &depots, &customers, &params);
    let g2 = Genome::generate(vec![4, 3, 2, 1, 0], &depots, &customers, &params);
    let pop2 = sort_by_fitness(vec![g1, g2]);
    let last_cost = pop2[1].get_fitness();
    let fallback = select_best(&pop2);
    assert!(fallback.penalty() != 0);
    assert_eq!(fallback.get_fitness(), last_cost);
}

#[test]
fn train_produces_a_wellformed_solution() {
    let (depots, customers) = one_depot_world();
    assert!(check_world_wf(&depots, &customers));
    let params = base_params();
    let result = train(&depots, &customers, &params);
    holds_invariant(&result.best.customer_order, 4, 2);
    assert_eq!(result.bests.len(), result.series.len());
    assert!(result.generations_run <= params.generations);
    assert_eq!(result.bests.len(), result.generations_run);
}

#[test]
fn train_with_repair_and_validity_policy_runs_too() {
    let (depots, customers) = one_depot_world();
    let mut params = base_params();
    params.policy = FitnessPolicy::Validity;
    params.repaired = true;
    let result = train(&depots, &customers, &params);
    holds_invariant(&result.best.customer_order, 4, 2);
    // four customers of demand 30 always fit two vehicles of cap 100
    assert!(result.best.is_valid());
}

#[test]
fn train_handles_two_depots() {
    let depots = vec![Depot::init(0, 0, 0, 60, 1), Depot::init(10, 0, 0, 60, 2)];
    let customers = vec![
        Customer::init(1, 0, 0, 20),
        Customer::init(9, 1, 0, 20),
        Customer::init(11, 0, 0, 20),
        Customer::init(2, 1, 0, 20),
    ];
    assert!(check_world_wf(&depots, &customers));
    let mut params = base_params();
    params.repaired = true;
    let result = train(&depots, &customers, &params);
    holds_invariant(&result.best.customer_order, 4, 3);
}
