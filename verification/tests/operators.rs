use mdvrp::evolution::{
    crossover, edge_recombination_crossover, insert_mutation, mutate, order_1_crossover,
    partially_mapped_crossover, scramble_mutation, shuffle_vec,
};
use mdvrp::genome::Genome;
use mdvrp::params::{FitnessPolicy, Params};
use mdvrp::repair::{pull_next_zero, repair, swap_elems};
use mdvrp::world::{Customer, Depot};

fn one_depot_world() -> (Vec<Depot>, Vec<Customer>) {
    let depots = vec![Depot::init(0, 0, 0, 100, 2)];
    let customers = vec![
        Customer::init(3, 4, 0, 30),
        Customer::init(6, 8, 0, 30),
        Customer::init(5, 12, 0, 30),
        Customer::init(10, 24, 0, 30),
    ];
    (depots, customers)
}

fn base_params() -> Params {
    Params {
        policy: FitnessPolicy::Penalty,
        alpha: 1000,
        repaired: false,
        pop_size: 6,
        generations: 3,
        children: 2,
        convergence_time: 2,
        elites: 2,
        pool_size: 3,
        tournament_size: 2,
        pressure_millis: 900,
        prob_mutation_millis: 400,
        frac_insert_millis: 700,
        frac_swap_millis: 100,
        frac_scramble_millis: 200,
        prob_crossover_millis: 900,
        frac_order1_millis: 100,
        frac_pmx_millis: 800,
        frac_edge_millis: 100,
    }
}

// the structural invariant: each customer once, exactly v - 1 zeros
fn holds_invariant(order: &Vec<i64>, n_customers: i64, vehicles: i64) {
    assert_eq!(order.len() as i64, n_customers + vehicles - 1);
    for c in 1..=n_customers {
        assert_eq!(order.iter().filter(|&&e| e == c).count(), 1, "customer {}", c);
    }
    assert_eq!(
        order.iter().filter(|&&e| e == 0).count() as i64,
        vehicles - 1
    );
}

fn genome_of(order: Vec<i64>) -> Genome {
    let (depots, customers) = one_depot_world();
    Genome::generate(order, &depots, &customers, &base_params())
}

#[test]
fn insert_swap_scramble_keep_the_multiset() {
    let mut v = vec![1, 2, 0, 3, 4];
    insert_mutation(&mut v, 0, 4);
    holds_invariant(&v, 4, 2);
    let mut w = vec![1, 2, 0, 3, 4];
    let w2 = swap_elems(w.clone(), 1, 3);
    holds_invariant(&w2, 4, 2);
    assert_eq!(w2, vec![1, 3, 0, 2, 4]);
    scramble_mutation(&mut w, 1, 3);
    holds_invariant(&w, 4, 2);
    let mut s = vec![1, 2, 0, 3, 4];
    shuffle_vec(&mut s);
    holds_invariant(&s, 4, 2);
}

#[test]
fn mutate_preserves_the_invariant() {
    let (depots, customers) = one_depot_world();
    let params = base_params();
    for _ in 0..20 {
        let g = genome_of(vec![1, 2, 0, 3, 4]);
        let m = mutate(g, &depots, &customers, &params);
        holds_invariant(&m.customer_order, 4, 2);
    }
}

#[test]
fn order_1_crossover_preserves_the_invariant() {
    for _ in 0..20 {
        let a = genome_of(vec![1, 2, 0, 3, 4]);
        let b = genome_of(vec![4, 0, 3, 1, 2]);
        let child = order_1_crossover(&a, &b, 2);
        holds_invariant(&child, 4, 2);
    }
}

#[test]
fn pmx_preserves_the_invariant() {
    for _ in 0..20 {
        let a = genome_of(vec![1, 2, 0, 3, 4]);
        let b = genome_of(vec![4, 0, 3, 1, 2]);
        let (c1, c2) = partially_mapped_crossover(&a, &b, 4);
        holds_invariant(&c1, 4, 2);
        holds_invariant(&c2, 4, 2);
    }
}

#[test]
fn pmx_on_identical_parents_is_a_fixed_point() {
    for _ in 0..20 {
        let a = genome_of(vec![1, 2, 0, 3, 4]);
        let b = genome_of(vec![1, 2, 0, 3, 4]);
        let (c1, c2) = partially_mapped_crossover(&a, &b, 4);
        assert_eq!(c1, vec![1, 2, 0, 3, 4]);
        assert_eq!(c2, vec![1, 2, 0, 3, 4]);
    }
}

#[test]
fn pmx_at_a_fixed_slice_is_deterministic() {
    let a = genome_of(vec![1, 2, 0, 3, 4]);
    let b = genome_of(vec![4, 0, 3, 1, 2]);
    let first = a.partially_mapped_crossover_at(&b, 4, 1, 2);
    let second = a.partially_mapped_crossover_at(&b, 4, 1, 2);
    assert_eq!(first.0, second.0);
    assert_eq!(first.1, second.1);
    holds_invariant(&first.0, 4, 2);
    holds_invariant(&first.1, 4, 2);
}

#[test]
fn pmx_with_an_empty_slice_swaps_the_parents() {
    let a = genome_of(vec![1, 2, 0, 3, 4]);
    let b = genome_of(vec![4, 0, 3, 1, 2]);
    let (c1, c2) = a.partially_mapped_crossover_at(&b, 4, 0, 0);
    // nothing is copied from the first parent, so each child is the
    // other parent's sequence filled back in order
    assert_eq!(c1, vec![4, 0, 3, 1, 2]);
    assert_eq!(c2, vec![1, 2, 0, 3, 4]);
}

#[test]
fn edge_recombination_preserves_the_invariant() {
    for _ in 0..20 {
        let a = genome_of(vec![1, 2, 0, 3, 4]);
        let b = genome_of(vec![4, 0, 3, 1, 2]);
        let (c1, c2) = edge_recombination_crossover(&a, &b, 4);
        holds_invariant(&c1, 4, 2);
        holds_invariant(&c2, 4, 2);
        // each tour starts from its parent's first element
        assert_eq!(c1[0], 1);
        assert_eq!(c2[0], 4);
    }
}

#[test]
fn repair_closes_the_route_at_the_first_overload() {
    // the first load overflow happens at the fourth customer, and a
    // separator stands to its right: the route is closed right there
    let (depots, customers) = one_depot_world();
    let repaired = repair(vec![1, 2, 3, 4, 0], &depots, &customers);
    assert_eq!(repaired[0..4], [1, 2, 3, 0]);
}

#[test]
fn crossover_dispatch_returns_decoded_children() {
    let (depots, customers) = one_depot_world();
    let params = base_params();
    for _ in 0..20 {
        let a = genome_of(vec![1, 2, 0, 3, 4]);
        let b = genome_of(vec![4, 0, 3, 1, 2]);
        let (c1, c2) = crossover(&a, &b, &depots, &customers, 2, &params);
        holds_invariant(&c1.customer_order, 4, 2);
        holds_invariant(&c2.customer_order, 4, 2);
        let d1 = mdvrp::decode::tot_dist(
            &c1.customer_order,
            &depots,
            &customers,
            FitnessPolicy::Penalty,
        );
        assert_eq!(c1.total_distance(), d1.0);
        assert_eq!(c1.penalty(), d1.1);
    }
}

#[test]
fn pull_next_zero_closes_the_route_early() {
    let (v, worked) = pull_next_zero(1, vec![1, 2, 3, 4, 0]);
    assert!(worked);
    assert_eq!(v, vec![1, 0, 2, 3, 4]);
    let (v2, worked2) = pull_next_zero(2, vec![1, 0, 2, 3, 4]);
    assert!(!worked2);
    assert_eq!(v2, vec![1, 0, 2, 3, 4]);
}

#[test]
fn repair_moves_a_separator_to_fix_the_load() {
    let (depots, customers) = one_depot_world();
    let repaired = repair(vec![1, 2, 3, 4, 0], &depots, &customers);
    holds_invariant(&repaired, 4, 2);
    let r = mdvrp::decode::tot_dist(&repaired, &depots, &customers, FitnessPolicy::Penalty);
    assert_eq!(r.1, 0);
    assert!(r.2);
    assert_eq!(repaired, vec![1, 2, 3, 0, 4]);
}

#[test]
fn repair_leaves_a_feasible_sequence_unchanged() {
    let (depots, customers) = one_depot_world();
    let order = vec![1, 2, 0, 3, 4];
    let before = mdvrp::decode::tot_dist(&order, &depots, &customers, FitnessPolicy::Penalty);
    let repaired = repair(order.clone(), &depots, &customers);
    assert_eq!(repaired, order);
    let after = mdvrp::decode::tot_dist(&repaired, &depots, &customers, FitnessPolicy::Penalty);
    assert_eq!(before.0, after.0);
}

#[test]
fn repair_swaps_a_closer_customer_under_a_duration_limit() {
    // a tight duration limit where swapping a nearer customer helps
    let depots = vec![Depot::init(0, 0, 24, 100, 2)];
    let customers = vec![
        Customer::init(10, 0, 0, 10),
        Customer::init(3, 4, 0, 10),
        Customer::init(0, 7, 0, 10),
    ];
    // route [1, 2] runs 10 + 8 + 5 = 23; fine.  route [1] then [2, 3]:
    // trigger the pass on a long first pick and let it rearrange
    let repaired = repair(vec![1, 2, 3, 0], &depots, &customers);
    holds_invariant(&repaired, 3, 2);
}

#[test]
fn generate_with_repair_reencodes_the_sequence() {
    let (depots, customers) = one_depot_world();
    let mut params = base_params();
    params.repaired = true;
    let g = Genome::generate(vec![1, 2, 3, 4, 0], &depots, &customers, &params);
    holds_invariant(&g.customer_order, 4, 2);
    assert_eq!(g.penalty(), 0);
    assert!(g.is_valid());
}
