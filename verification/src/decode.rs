//! The genome decoder: walks a customer-order sequence against the
//! depots' vehicles and computes total travel distance, constraint
//! penalty and feasibility in one linear pass.

use vstd::prelude::*;
use crate::params::FitnessPolicy;
use crate::MAX_COORD;
use vstd::multiset::Multiset;
use crate::world::{
    coord_ok, customer_wf, depot_wf, euclid, lemma_euclid_bound, lemma_vehicles_before_monotonic,
    spec_total_vehicles, vehicles_before, world_wf, Customer, Depot, DIST_BOUND, MAX_DEMAND,
    MAX_SERVICE,
};

verus! {

broadcast use vstd::seq_lib::group_to_multiset_ensures;

/// The structural invariant of every genome: each customer index
/// `1..=n` occurs exactly once and the zero separator occurs exactly
/// `v - 1` times, so the sequence splits into `v` routes.
pub open spec fn valid_order(s: Seq<i64>, n: int, v: int) -> bool {
    &&& 1 <= v
    &&& 0 <= n
    &&& s.len() == n + v - 1
    &&& forall|i: int| 0 <= i < s.len() ==> 0 <= #[trigger] s[i] <= n
    &&& forall|c: i64| 1 <= c <= n ==> s.to_multiset().count(c) == 1
    &&& s.to_multiset().count(0i64) == (v - 1) as nat
}

/// Two sequences of equal length and equal multiset share `valid_order`.
pub proof fn lemma_valid_order_multiset(s1: Seq<i64>, s2: Seq<i64>, n: int, v: int)
    requires
        valid_order(s1, n, v),
        s2.to_multiset() == s1.to_multiset(),
        s2.len() == s1.len(),
    ensures
        valid_order(s2, n, v),
{
    assert forall|i: int| 0 <= i < s2.len() implies 0 <= #[trigger] s2[i] <= n by {
        assert(s2.contains(s2[i]));
        assert(s2.to_multiset().count(s2[i]) > 0);
        assert(s1.to_multiset().count(s2[i]) > 0);
        assert(s1.contains(s2[i]));
        let j = choose|j: int| 0 <= j < s1.len() && s1[j] == s2[i];
        assert(0 <= s1[j] <= n);
    }
}

/// The running state of the decoding walk.
pub ghost struct DecState {
    pub depot: int,
    pub vehicle: int,
    pub load: int,
    pub duration: int,
    pub x: int,
    pub y: int,
    pub dist: int,
    pub penalty: int,
    pub valid: bool,
}

pub open spec fn over_dur_at(d: Depot, dur: int) -> bool {
    d.spec_max_duration() != 0 && dur > d.spec_max_duration()
}

pub open spec fn over_load_at(d: Depot, load: int) -> bool {
    load > d.spec_max_load()
}

/// Total distance saturates here under the validity policy, so the
/// repeated depot-count multiplication cannot wrap around.
pub const DIST_CAP: i64 = 4_000_000_000_000_000_000;

pub open spec fn cap_mul_spec(a: int, k: int) -> int {
    if a * k > DIST_CAP as int {
        DIST_CAP as int
    } else {
        a * k
    }
}

proof fn lemma_cap_mul_div(a: int, k: int)
    requires
        0 <= a,
        1 <= k,
    ensures
        (a > DIST_CAP as int / k) <==> (a * k > DIST_CAP as int),
{
    let cap = DIST_CAP as int;
    vstd::arithmetic::div_mod::lemma_fundamental_div_mod(cap, k);
    let q = cap / k;
    assert(cap == k * q + cap % k);
    if a > q {
        assert(a * k >= (q + 1) * k) by (nonlinear_arith)
            requires
                a >= q + 1,
                k >= 1,
        ;
        assert((q + 1) * k == q * k + k) by (nonlinear_arith);
        assert(k * q == q * k) by (nonlinear_arith);
    } else {
        assert(a * k <= q * k) by (nonlinear_arith)
            requires
                0 <= a <= q,
                k >= 1,
        ;
        assert(k * q == q * k) by (nonlinear_arith);
    }
}

/// Multiplication that saturates at `DIST_CAP`.
pub fn cap_mul(a: i64, k: i64) -> (r: i64)
    requires
        0 <= a,
        1 <= k,
    ensures
        r as int == cap_mul_spec(a as int, k as int),
        0 <= r <= DIST_CAP,
{
    proof {
        lemma_cap_mul_div(a as int, k as int);
        if a as int <= DIST_CAP as int / k as int {
            assert(0 <= (a as int) * (k as int)) by (nonlinear_arith)
                requires
                    0 <= a as int,
                    1 <= k as int,
            ;
        }
    }
    if a > DIST_CAP / k {
        DIST_CAP
    } else {
        a * k
    }
}

/// Closing the current route: add the return leg, then check the
/// current depot's limits.
pub open spec fn close_route(st: DecState, ds: Seq<Depot>, policy: FitnessPolicy) -> DecState {
    let d = ds[st.depot];
    let leg = euclid(st.x, st.y, d.spec_x() as int, d.spec_y() as int);
    let dur = st.duration + leg;
    let dist0 = st.dist + leg;
    let bad_load = over_load_at(d, st.load);
    let bad_dur = over_dur_at(d, dur);
    match policy {
        FitnessPolicy::Penalty => DecState {
            duration: dur,
            dist: dist0,
            penalty: st.penalty + (if bad_load {
                st.load - d.spec_max_load()
            } else {
                0
            }) + (if bad_dur {
                dur - d.spec_max_duration()
            } else {
                0
            }),
            valid: st.valid && !bad_load && !bad_dur,
            ..st
        },
        FitnessPolicy::Validity => DecState {
            duration: dur,
            dist: if bad_load || bad_dur {
                cap_mul_spec(dist0, ds.len() as int)
            } else {
                dist0
            },
            valid: st.valid && !bad_load && !bad_dur,
            ..st
        },
    }
}

/// Moving on to the next vehicle, and to the next depot once the
/// current depot's vehicles are used up.
pub open spec fn advance_vehicle(st: DecState, ds: Seq<Depot>) -> DecState {
    let v = st.vehicle + 1;
    let depot = if v >= ds[st.depot].spec_vehicles() {
        st.depot + 1
    } else {
        st.depot
    };
    let vehicle = if v >= ds[st.depot].spec_vehicles() {
        0
    } else {
        v
    };
    DecState {
        depot,
        vehicle,
        load: 0,
        duration: 0,
        x: ds[depot].spec_x() as int,
        y: ds[depot].spec_y() as int,
        ..st
    }
}

/// Serving one customer: travel there, pick up its demand and
/// service time.
pub open spec fn visit_customer(st: DecState, c: Customer) -> DecState {
    let leg = euclid(st.x, st.y, c.spec_x() as int, c.spec_y() as int);
    DecState {
        load: st.load + c.spec_load(),
        duration: st.duration + c.spec_duration() + leg,
        dist: st.dist + leg,
        x: c.spec_x() as int,
        y: c.spec_y() as int,
        ..st
    }
}

pub open spec fn init_state(ds: Seq<Depot>) -> DecState {
    DecState {
        depot: 0,
        vehicle: 0,
        load: 0,
        duration: 0,
        x: ds[0].spec_x() as int,
        y: ds[0].spec_y() as int,
        dist: 0,
        penalty: 0,
        valid: true,
    }
}

/// The decoder state after the first `i` entries of `order`.
pub open spec fn decode_prefix(
    order: Seq<i64>,
    ds: Seq<Depot>,
    cs: Seq<Customer>,
    policy: FitnessPolicy,
    i: int,
) -> DecState
    decreases i,
{
    if i <= 0 {
        init_state(ds)
    } else {
        let st = decode_prefix(order, ds, cs, policy, i - 1);
        let c = order[i - 1];
        if c == 0 {
            advance_vehicle(close_route(st, ds, policy), ds)
        } else {
            visit_customer(st, cs[c - 1])
        }
    }
}

/// The decoded result of a whole sequence: walk every entry, then
/// close the last route as if a final separator stood at the end.
pub open spec fn spec_decode(
    order: Seq<i64>,
    ds: Seq<Depot>,
    cs: Seq<Customer>,
    policy: FitnessPolicy,
) -> DecState {
    close_route(decode_prefix(order, ds, cs, policy, order.len() as int), ds, policy)
}

/// Zero separators among the first `i` entries.
pub open spec fn zeros_upto(s: Seq<i64>, i: int) -> nat {
    s.take(i).to_multiset().count(0i64)
}

pub proof fn lemma_zeros_upto_step(s: Seq<i64>, i: int)
    requires
        0 <= i < s.len(),
    ensures
        zeros_upto(s, i + 1) == zeros_upto(s, i) + (if s[i] == 0i64 {
            1int
        } else {
            0int
        }),
{
    s.lemma_take_succ_push(i);
    assert(s.take(i + 1).to_multiset() =~= s.take(i).to_multiset().insert(s[i]));
}

pub proof fn lemma_zeros_upto_monotone(s: Seq<i64>, i: int, j: int)
    requires
        0 <= i <= j <= s.len(),
    ensures
        zeros_upto(s, i) <= zeros_upto(s, j),
    decreases j - i,
{
    if i < j {
        lemma_zeros_upto_monotone(s, i, j - 1);
        lemma_zeros_upto_step(s, j - 1);
    }
}

pub proof fn lemma_zeros_upto_all(s: Seq<i64>)
    ensures
        zeros_upto(s, s.len() as int) == s.to_multiset().count(0i64),
{
    assert(s.take(s.len() as int) =~= s);
}

/// Per-element growth caps on every accumulator, and the link
/// between (depot, vehicle) and the number of separators seen.
pub open spec fn st_invariant(st: DecState, order: Seq<i64>, ds: Seq<Depot>, i: int) -> bool {
    &&& 0 <= st.depot < ds.len()
    &&& 0 <= st.vehicle < ds[st.depot].spec_vehicles()
    &&& vehicles_before(ds, st.depot) + st.vehicle == zeros_upto(order, i)
    &&& -MAX_COORD <= st.x <= MAX_COORD
    &&& -MAX_COORD <= st.y <= MAX_COORD
    &&& 0 <= st.load <= i * MAX_DEMAND
    &&& 0 <= st.duration <= i * (DIST_BOUND + MAX_SERVICE)
    &&& 0 <= st.penalty
    &&& st.penalty + st.duration + st.load <= i * STEP_BOUND
    &&& 0 <= st.dist <= DIST_CAP + i * DIST_BOUND
}

pub const STEP_BOUND: i64 = 5_000_000;

pub proof fn lemma_decode_prefix_invariant(
    order: Seq<i64>,
    ds: Seq<Depot>,
    cs: Seq<Customer>,
    policy: FitnessPolicy,
    i: int,
)
    requires
        world_wf(ds, cs),
        valid_order(order, cs.len() as int, spec_total_vehicles(ds)),
        0 <= i <= order.len(),
    ensures
        st_invariant(decode_prefix(order, ds, cs, policy, i), order, ds, i),
    decreases i,
{
    let v = spec_total_vehicles(ds);
    if i == 0 {
        assert(order.take(0) =~= Seq::<i64>::empty());
        assert(!order.take(0).contains(0i64));
        assert(zeros_upto(order, 0) == 0);
    } else {
        lemma_decode_prefix_invariant(order, ds, cs, policy, i - 1);
        let st = decode_prefix(order, ds, cs, policy, i - 1);
        let c = order[i - 1];
        lemma_zeros_upto_step(order, i - 1);
        if c == 0 {
            let d = ds[st.depot];
            lemma_euclid_bound(st.x, st.y, d.spec_x() as int, d.spec_y() as int);
            let closed = close_route(st, ds, policy);
            // the separator consumes one vehicle; the count of
            // separators seen so far stays below the fleet size
            lemma_zeros_upto_monotone(order, i, order.len() as int);
            lemma_zeros_upto_all(order);
            assert(zeros_upto(order, i) <= v - 1);
            let nst = advance_vehicle(closed, ds);
            if st.vehicle + 1 >= d.spec_vehicles() {
                assert(nst.depot == st.depot + 1);
                assert(vehicles_before(ds, nst.depot) == vehicles_before(ds, st.depot)
                    + d.spec_vehicles());
                assert(vehicles_before(ds, nst.depot) + nst.vehicle == zeros_upto(order, i));
                // the new depot index stays in range
                if nst.depot >= ds.len() {
                    assert(nst.depot == ds.len());
                    assert(vehicles_before(ds, nst.depot) == v);
                    assert(false);
                }
            } else {
                assert(vehicles_before(ds, nst.depot) + nst.vehicle == zeros_upto(order, i));
            }
            assert(depot_wf(ds[nst.depot]));
        } else {
            assert(0 <= c <= cs.len());
            let cust = cs[c - 1];
            assert(customer_wf(cust));
            lemma_euclid_bound(st.x, st.y, cust.spec_x() as int, cust.spec_y() as int);
        }
    }
}

/// Bounds on the fully decoded result, tight enough that every
/// accumulator fits in `i64` and the policy cost fits too.
pub proof fn lemma_decode_bounds(
    order: Seq<i64>,
    ds: Seq<Depot>,
    cs: Seq<Customer>,
    policy: FitnessPolicy,
)
    requires
        world_wf(ds, cs),
        valid_order(order, cs.len() as int, spec_total_vehicles(ds)),
    ensures
        0 <= spec_decode(order, ds, cs, policy).dist <= DIST_CAP + (order.len() + 1)
            * DIST_BOUND,
        0 <= spec_decode(order, ds, cs, policy).penalty <= (order.len() + 1) * STEP_BOUND,
{
    let i = order.len() as int;
    lemma_decode_prefix_invariant(order, ds, cs, policy, i);
    let st = decode_prefix(order, ds, cs, policy, i);
    let d = ds[st.depot];
    lemma_euclid_bound(st.x, st.y, d.spec_x() as int, d.spec_y() as int);
}

/// Decoding is deterministic: any two results that each meet the
/// decoder's contract on the same sequence and world agree exactly, in
/// distance, penalty and feasibility alike.
pub proof fn lemma_decode_deterministic(
    r1: (i64, i64, bool),
    r2: (i64, i64, bool),
    order: Seq<i64>,
    ds: Seq<Depot>,
    cs: Seq<Customer>,
    policy: FitnessPolicy,
)
    requires
        r1.0 as int == spec_decode(order, ds, cs, policy).dist,
        r1.1 as int == spec_decode(order, ds, cs, policy).penalty,
        r1.2 == spec_decode(order, ds, cs, policy).valid,
        r2.0 as int == spec_decode(order, ds, cs, policy).dist,
        r2.1 as int == spec_decode(order, ds, cs, policy).penalty,
        r2.2 == spec_decode(order, ds, cs, policy).valid,
    ensures
        r1 == r2,
{
}

/// Depot lists have at least one vehicle per depot, so the list is
/// no longer than the total fleet.
pub proof fn lemma_depots_len_bound(ds: Seq<Depot>)
    requires
        forall|i: int| 0 <= i < ds.len() ==> depot_wf(#[trigger] ds[i]),
    ensures
        ds.len() <= spec_total_vehicles(ds),
{
    lemma_vehicles_before_monotonic(ds, 0, ds.len() as int);
}

/// One linear decoding pass: returns total distance, accumulated
/// penalty, and whether every route met its depot's limits.
///
/// Under the validity policy the distance is multiplied by the depot
/// count at each violated route (saturating at `DIST_CAP`) and the
/// penalty stays zero; under the penalty policy the distance stays raw
/// and the penalty collects each limit excess.
pub fn tot_dist(
    customer_order: &Vec<i64>,
    depots: &Vec<Depot>,
    customers: &Vec<Customer>,
    policy: FitnessPolicy,
) -> (r: (i64, i64, bool))
    requires
        world_wf(depots@, customers@),
        valid_order(customer_order@, customers@.len() as int, spec_total_vehicles(depots@)),
    ensures
        r.0 as int == spec_decode(customer_order@, depots@, customers@, policy).dist,
        r.1 as int == spec_decode(customer_order@, depots@, customers@, policy).penalty,
        r.2 == spec_decode(customer_order@, depots@, customers@, policy).valid,
{
    let ghost ord = customer_order@;
    let ghost ds = depots@;
    let ghost cs = customers@;
    let mut depot: usize = 0;
    let mut vehicle: i64 = 0;
    let mut load: i64 = 0;
    let mut duration: i64 = 0;
    proof {
        lemma_decode_prefix_invariant(ord, ds, cs, policy, 0);
    }
    let mut x = depots[0].x();
    let mut y = depots[0].y();
    let mut dist: i64 = 0;
    let mut penalty: i64 = 0;
    let mut valid: bool = true;
    let mut i: usize = 0;
    while i < customer_order.len()
        invariant
            world_wf(ds, cs),
            valid_order(ord, cs.len() as int, spec_total_vehicles(ds)),
            ord == customer_order@,
            ds == depots@,
            cs == customers@,
            0 <= i <= ord.len(),
            depot as int == decode_prefix(ord, ds, cs, policy, i as int).depot,
            vehicle as int == decode_prefix(ord, ds, cs, policy, i as int).vehicle,
            load as int == decode_prefix(ord, ds, cs, policy, i as int).load,
            duration as int == decode_prefix(ord, ds, cs, policy, i as int).duration,
            x as int == decode_prefix(ord, ds, cs, policy, i as int).x,
            y as int == decode_prefix(ord, ds, cs, policy, i as int).y,
            dist as int == decode_prefix(ord, ds, cs, policy, i as int).dist,
            penalty as int == decode_prefix(ord, ds, cs, policy, i as int).penalty,
            valid == decode_prefix(ord, ds, cs, policy, i as int).valid,
        decreases ord.len() - i,
    {
        proof {
            lemma_decode_prefix_invariant(ord, ds, cs, policy, i as int);
            lemma_decode_prefix_invariant(ord, ds, cs, policy, i as int + 1);
        }
        let c = customer_order[i];
        if c == 0 {
            let ghost st = decode_prefix(ord, ds, cs, policy, i as int);
            let leg = depots[depot].dist(x, y);
            duration = duration + leg;
            dist = dist + leg;
            match policy {
                FitnessPolicy::Penalty => {
                    if depots[depot].over_load(load) {
                        penalty = penalty + (load - depots[depot].max_load());
                        valid = false;
                    }
                    if depots[depot].over_duration(duration) {
                        penalty = penalty + (duration - depots[depot].max_duration());
                        valid = false;
                    }
                },
                FitnessPolicy::Validity => {
                    if depots[depot].over_load(load) || depots[depot].over_duration(duration) {
                        proof {
                            lemma_depots_len_bound(ds);
                        }
                        dist = cap_mul(dist, depots.len() as i64);
                        valid = false;
                    }
                },
            }
            proof {
                assert(close_route(st, ds, policy).dist == dist as int);
                assert(close_route(st, ds, policy).penalty == penalty as int);
            }
            vehicle = vehicle + 1;
            if vehicle >= depots[depot].vehicles() {
                vehicle = 0;
                let dl = depots.len();
                assert(depot < dl);
                depot = depot + 1;
            }
            x = depots[depot].x();
            y = depots[depot].y();
            load = 0;
            duration = 0;
        } else {
            let cust = &customers[(c - 1) as usize];
            let leg = cust.dist(x, y);
            load = load + cust.load();
            duration = duration + cust.duration() + leg;
            dist = dist + leg;
            x = cust.x();
            y = cust.y();
        }
        i = i + 1;
    }
    proof {
        lemma_decode_prefix_invariant(ord, ds, cs, policy, i as int);
        let st = decode_prefix(ord, ds, cs, policy, i as int);
        lemma_euclid_bound(st.x, st.y, ds[st.depot].spec_x() as int, ds[st.depot].spec_y() as int);
    }
    let leg = depots[depot].dist(x, y);
    duration = duration + leg;
    dist = dist + leg;
    match policy {
        FitnessPolicy::Penalty => {
            if depots[depot].over_load(load) {
                penalty = penalty + (load - depots[depot].max_load());
                valid = false;
            }
            if depots[depot].over_duration(duration) {
                penalty = penalty + (duration - depots[depot].max_duration());
                valid = false;
            }
        },
        FitnessPolicy::Validity => {
            if depots[depot].over_load(load) || depots[depot].over_duration(duration) {
                proof {
                    lemma_depots_len_bound(ds);
                }
                dist = cap_mul(dist, depots.len() as i64);
                valid = false;
            }
        },
    }
    (dist, penalty, valid)
}

} // verus!
