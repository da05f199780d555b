use mdvrp::decode::tot_dist;
use mdvrp::genome::{fitness_gt_exec, Genome};
use mdvrp::params::{FitnessPolicy, Params};

use mdvrp::world::{check_world_wf, euclid_dist, total_vehicles, Customer, Depot};

fn one_depot_world() -> (Vec<Depot>, Vec<Customer>) {
    // one depot at the origin: no duration limit, load limit 100, two vehicles
    let depots = vec![Depot::init(0, 0, 0, 100, 2)];
    // four customers, demand 30 each, no service time, at exact-distance spots
    let customers = vec![
        Customer::init(3, 4, 0, 30),
        Customer::init(6, 8, 0, 30),
        Customer::init(5, 12, 0, 30),
        Customer::init(10, 24, 0, 30),
    ];
    (depots, customers)
}

fn base_params() -> Params {
    Params {
        policy: FitnessPolicy::Penalty,
        alpha: 1000,
        repaired: false,
        pop_size: 6,
        generations: 3,
        children: 2,
        convergence_time: 2,
        elites: 2,
        pool_size: 3,
        tournament_size: 2,
        pressure_millis: 900,
        prob_mutation_millis: 400,
        frac_insert_millis: 700,
        frac_swap_millis: 100,
        frac_scramble_millis: 200,
        prob_crossover_millis: 900,
        frac_order1_millis: 100,
        frac_pmx_millis: 800,
        frac_edge_millis: 100,
    }
}

#[test]
fn euclid_distances_are_floored() {
    assert_eq!(euclid_dist(0, 0, 3, 4), 5);
    assert_eq!(euclid_dist(0, 0, 1, 1), 1);
    assert_eq!(euclid_dist(0, 0, 0, 0), 0);
    assert_eq!(euclid_dist(-3, -4, 0, 0), 5);
    assert_eq!(euclid_dist(6, 8, 5, 12), 4);
    assert_eq!(euclid_dist(0, 0, 1_000_000, 1_000_000), 1_414_213);
}

#[test]
fn world_and_vehicle_counting() {
    let (depots, customers) = one_depot_world();
    assert!(check_world_wf(&depots, &customers));
    assert_eq!(total_vehicles(&depots), 2);
    assert_eq!(depots[0].max_duration(), 0);
    assert_eq!(depots[0].max_load(), 100);
    assert_eq!(depots[0].vehicles(), 2);
    assert!(!depots[0].over_duration(1_000_000));
    assert!(depots[0].over_load(101));
    assert!(!depots[0].over_load(100));
    assert_eq!(customers[0].x(), 3);
    assert_eq!(customers[0].y(), 4);
    assert_eq!(customers[0].duration(), 0);
    assert_eq!(customers[0].load(), 30);
    assert_eq!(customers[0].dist(0, 0), 5);
    assert_eq!(depots[0].dist(3, 4), 5);
}

#[test]
fn two_balanced_routes_decode_exactly() {
    let (depots, customers) = one_depot_world();
    let order = vec![1, 2, 0, 3, 4];
    // route one: 5 + 5 + 10 = 20; route two: 13 + 13 + 26 = 52
    let r = tot_dist(&order, &depots, &customers, FitnessPolicy::Penalty);
    assert_eq!(r.0, 72);
    assert_eq!(r.1, 0);
    assert!(r.2);
    let rv = tot_dist(&order, &depots, &customers, FitnessPolicy::Validity);
    assert_eq!(rv.0, 72);
    assert!(rv.2);
}

#[test]
fn uneven_but_feasible_routes_decode_as_valid() {
    let (depots, customers) = one_depot_world();
    let order = vec![1, 2, 3, 0, 4];
    // loads 90 and 30, both within 100
    let r = tot_dist(&order, &depots, &customers, FitnessPolicy::Penalty);
    assert_eq!(r.0, 5 + 5 + 4 + 13 + 26 + 26);
    assert_eq!(r.1, 0);
    assert!(r.2);
}

#[test]
fn overloaded_route_reports_its_excess() {
    let (depots, customers) = one_depot_world();
    let order = vec![1, 2, 3, 4, 0];
    // one route of load 120 and one empty route
    let r = tot_dist(&order, &depots, &customers, FitnessPolicy::Penalty);
    assert_eq!(r.1, 20);
    assert!(!r.2);
    assert_eq!(r.0, 5 + 5 + 4 + 13 + 26);
    let rv = tot_dist(&order, &depots, &customers, FitnessPolicy::Validity);
    assert!(!rv.2);
}

#[test]
fn decoding_is_deterministic() {
    let (depots, customers) = one_depot_world();
    let order = vec![4, 0, 2, 1, 3];
    let a = tot_dist(&order, &depots, &customers, FitnessPolicy::Penalty);
    let b = tot_dist(&order, &depots, &customers, FitnessPolicy::Penalty);
    assert_eq!(a.0, b.0);
    assert_eq!(a.1, b.1);
    assert_eq!(a.2, b.2);
}

#[test]
fn fitness_ranks_by_distance_then_penalty() {
    // same penalty: the smaller distance must rank strictly better
    let c1 = Genome::fitness(72, 0, 1000, FitnessPolicy::Penalty);
    let c2 = Genome::fitness(79, 0, 1000, FitnessPolicy::Penalty);
    assert_eq!(c1, 72);
    assert_eq!(c2, 79);
    assert!(fitness_gt_exec(c1, c2));
    assert!(!fitness_gt_exec(c2, c1));
    // a penalty unit is weighted by alpha
    let c3 = Genome::fitness(53, 20, 1000, FitnessPolicy::Penalty);
    assert_eq!(c3, 53 + 20_000);
    assert!(fitness_gt_exec(c2, c3));
    // a zero cost is the degenerate worst, not the best
    assert!(fitness_gt_exec(5, 0));
    assert!(!fitness_gt_exec(0, 5));
    // validity policy ranks by the (possibly multiplied) distance alone
    assert_eq!(Genome::fitness(72, 20, 1000, FitnessPolicy::Validity), 72);
}

#[test]
fn generate_records_the_decoded_summary() {
    let (depots, customers) = one_depot_world();
    let params = base_params();
    let g = Genome::generate(vec![1, 2, 0, 3, 4], &depots, &customers, &params);
    assert_eq!(g.total_distance(), 72);
    assert_eq!(g.penalty(), 0);
    assert!(g.is_valid());
    assert_eq!(g.get_fitness(), 72);
    assert_eq!(g.customer_order, vec![1, 2, 0, 3, 4]);
    let copy = g.duplicate();
    assert_eq!(copy.customer_order, g.customer_order);
    assert_eq!(copy.get_fitness(), g.get_fitness());
}

#[test]
fn report_lists_every_route() {
    let (depots, customers) = one_depot_world();
    let order = vec![1, 2, 0, 3, 4];
    let (routes, total) = Genome::output_result(&order, &depots, &customers);
    assert_eq!(total, Some(72));
    assert_eq!(routes.len(), 2);
    assert_eq!(routes[0].depot, 0);
    assert_eq!(routes[0].vehicle, 0);
    assert_eq!(routes[0].duration, 20);
    assert_eq!(routes[0].load, 60);
    assert_eq!(routes[0].customers, vec![1, 2]);
    assert_eq!(routes[1].depot, 0);
    assert_eq!(routes[1].vehicle, 1);
    assert_eq!(routes[1].duration, 52);
    assert_eq!(routes[1].load, 60);
    assert_eq!(routes[1].customers, vec![3, 4]);
}

#[test]
fn report_renders_an_infeasible_sequence_too() {
    let (depots, customers) = one_depot_world();
    let order = vec![1, 2, 3, 4, 0];
    let (routes, total) = Genome::output_result(&order, &depots, &customers);
    assert_eq!(total, Some(53));
    assert_eq!(routes.len(), 2);
    assert_eq!(routes[0].customers, vec![1, 2, 3, 4]);
    assert_eq!(routes[0].load, 120);
    assert_eq!(routes[0].duration, 53);
    assert_eq!(routes[1].customers, Vec::<i64>::new());
    assert_eq!(routes[1].load, 0);
    assert_eq!(routes[1].duration, 0);
}

#[test]
fn validity_policy_multiplies_a_violated_route_by_the_depot_count() {
    let depots = vec![Depot::init(0, 0, 0, 10, 1), Depot::init(10, 0, 0, 100, 1)];
    let customers = vec![Customer::init(3, 4, 0, 20), Customer::init(10, 1, 0, 5)];
    let r = tot_dist(&vec![1, 0, 2], &depots, &customers, FitnessPolicy::Validity);
    // the first route's 10 is doubled at its violated close; the
    // second route adds 2
    assert_eq!(r.0, 22);
    assert!(!r.2);
    let rp = tot_dist(&vec![1, 0, 2], &depots, &customers, FitnessPolicy::Penalty);
    assert_eq!(rp.0, 12);
    assert_eq!(rp.1, 10);
}

#[test]
fn malformed_worlds_are_rejected() {
    let depots = vec![Depot::init(2_000_000, 0, 0, 100, 2)];
    let customers = vec![Customer::init(0, 0, 0, 10)];
    assert!(!check_world_wf(&depots, &customers));
    let depots2 = vec![Depot::init(0, 0, 0, 100, 0)];
    assert!(!check_world_wf(&depots2, &customers));
    let depots3: Vec<Depot> = Vec::new();
    assert!(!check_world_wf(&depots3, &customers));
}

#[test]
fn service_time_counts_into_duration() {
    // one depot with a duration limit, one customer with service time
    let depots = vec![Depot::init(0, 0, 12, 100, 2)];
    let customers = vec![Customer::init(3, 4, 7, 10), Customer::init(0, 1, 0, 10)];
    // route one: 5 out + 7 service + 5 back = 17 > 12
    let r = tot_dist(&vec![1, 0, 2], &depots, &customers, FitnessPolicy::Penalty);
    assert_eq!(r.1, 17 - 12);
    assert!(!r.2);
}
