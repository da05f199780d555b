//! Rendering a decoded genome as a solution report: one record per
//! vehicle route, with the serving depot, the vehicle slot, the route
//! duration and load, and the customers in visiting order.

use vstd::prelude::*;
use crate::decode::{
    close_route, decode_prefix, lemma_decode_prefix_invariant, lemma_zeros_upto_all,
    lemma_zeros_upto_step, spec_decode, tot_dist, valid_order, zeros_upto,
};
use crate::genome::Genome;
use crate::params::FitnessPolicy;
use crate::world::{spec_total_vehicles, world_wf, Customer, Depot};

verus! {

broadcast use vstd::seq_lib::group_to_multiset_ensures;

/// One route of the report.
pub struct RouteReport {
    /// Index of the depot serving the route.
    pub depot: usize,
    /// Vehicle slot within that depot.
    pub vehicle: i64,
    /// Route duration, return leg included.
    pub duration: i64,
    /// Route load.
    pub load: i64,
    /// The customers visited, in order.
    pub customers: Vec<i64>,
}

/// The ghost image of one route record.
pub ghost struct RouteLine {
    pub depot: int,
    pub vehicle: int,
    pub duration: int,
    pub load: int,
    pub customers: Seq<i64>,
}

pub open spec fn line_matches(r: RouteReport, g: RouteLine) -> bool {
    &&& r.depot as int == g.depot
    &&& r.vehicle as int == g.vehicle
    &&& r.duration as int == g.duration
    &&& r.load as int == g.load
    &&& r.customers@ == g.customers
}

/// The customers of the route still open after the first `i` entries.
pub open spec fn cur_route(order: Seq<i64>, i: int) -> Seq<i64>
    decreases i,
{
    if i <= 0 {
        Seq::empty()
    } else if order[i - 1] == 0i64 {
        Seq::empty()
    } else {
        cur_route(order, i - 1).push(order[i - 1])
    }
}

/// The route records closed within the first `i` entries.
pub open spec fn report_lines(order: Seq<i64>, ds: Seq<Depot>, cs: Seq<Customer>, i: int) -> Seq<
    RouteLine,
>
    decreases i,
{
    if i <= 0 {
        Seq::empty()
    } else {
        let prev = report_lines(order, ds, cs, i - 1);
        if order[i - 1] == 0i64 {
            let st = decode_prefix(order, ds, cs, FitnessPolicy::Penalty, i - 1);
            let closed = close_route(st, ds, FitnessPolicy::Penalty);
            prev.push(
                RouteLine {
                    depot: st.depot,
                    vehicle: st.vehicle,
                    duration: closed.duration,
                    load: st.load,
                    customers: cur_route(order, i - 1),
                },
            )
        } else {
            prev
        }
    }
}

/// The whole report: every closed route plus the final, implicit close.
pub open spec fn spec_report(order: Seq<i64>, ds: Seq<Depot>, cs: Seq<Customer>) -> Seq<RouteLine> {
    let st = decode_prefix(order, ds, cs, FitnessPolicy::Penalty, order.len() as int);
    let closed = close_route(st, ds, FitnessPolicy::Penalty);
    report_lines(order, ds, cs, order.len() as int).push(
        RouteLine {
            depot: st.depot,
            vehicle: st.vehicle,
            duration: closed.duration,
            load: st.load,
            customers: cur_route(order, order.len() as int),
        },
    )
}

/// One record is closed per separator.
proof fn lemma_report_lines_len(order: Seq<i64>, ds: Seq<Depot>, cs: Seq<Customer>, i: int)
    requires
        0 <= i <= order.len(),
    ensures
        report_lines(order, ds, cs, i).len() == zeros_upto(order, i),
    decreases i,
{
    if i == 0 {
        assert(order.take(0) =~= Seq::<i64>::empty());
        assert(!order.take(0).contains(0i64));
    } else {
        lemma_report_lines_len(order, ds, cs, i - 1);
        lemma_zeros_upto_step(order, i - 1);
    }
}

/// Decode a sequence into its per-route report: one record per
/// vehicle, in route order, with the raw total travel distance
/// alongside.  Every well-formed sequence is rendered, the infeasible
/// ones included — the best-by-penalty fallback of a run that never
/// reached feasibility still gets its report.
impl Genome {
pub fn output_result(
    customer_order: &Vec<i64>,
    depots: &Vec<Depot>,
    customers: &Vec<Customer>,
) -> (r: (Vec<RouteReport>, Option<i64>))
    requires
        world_wf(depots@, customers@),
        valid_order(customer_order@, customers@.len() as int, spec_total_vehicles(depots@)),
    ensures
        r.1 is Some,
        r.1.unwrap() as int == spec_decode(
            customer_order@,
            depots@,
            customers@,
            FitnessPolicy::Penalty,
        ).dist,
        ({
            let lines = spec_report(customer_order@, depots@, customers@);
            &&& r.0@.len() == lines.len()
            &&& r.0@.len() as int == spec_total_vehicles(depots@)
            &&& forall|k: int| 0 <= k < lines.len() ==> line_matches(#[trigger] r.0@[k], lines[k])
        }),
{
    let ghost ord = customer_order@;
    let ghost ds = depots@;
    let ghost cs = customers@;
    let ghost policy = FitnessPolicy::Penalty;
    let dec = tot_dist(customer_order, depots, customers, FitnessPolicy::Penalty);
    let mut lines: Vec<RouteReport> = Vec::new();
    let mut cus_list: Vec<i64> = Vec::new();
    let mut depot: usize = 0;
    let mut vehicle: i64 = 0;
    let mut load: i64 = 0;
    let mut duration: i64 = 0;
    proof {
        lemma_decode_prefix_invariant(ord, ds, cs, policy, 0);
        assert(cur_route(ord, 0) =~= Seq::<i64>::empty());
    }
    let mut x = depots[0].x();
    let mut y = depots[0].y();
    let mut i: usize = 0;
    while i < customer_order.len()
        invariant
            world_wf(ds, cs),
            valid_order(ord, cs.len() as int, spec_total_vehicles(ds)),
            ord == customer_order@,
            ds == depots@,
            cs == customers@,
            policy == FitnessPolicy::Penalty,
            0 <= i <= ord.len(),
            depot as int == decode_prefix(ord, ds, cs, policy, i as int).depot,
            vehicle as int == decode_prefix(ord, ds, cs, policy, i as int).vehicle,
            load as int == decode_prefix(ord, ds, cs, policy, i as int).load,
            duration as int == decode_prefix(ord, ds, cs, policy, i as int).duration,
            x as int == decode_prefix(ord, ds, cs, policy, i as int).x,
            y as int == decode_prefix(ord, ds, cs, policy, i as int).y,
            cus_list@ == cur_route(ord, i as int),
            lines@.len() == report_lines(ord, ds, cs, i as int).len(),
            forall|k: int|
                0 <= k < lines@.len() ==> line_matches(
                    #[trigger] lines@[k],
                    report_lines(ord, ds, cs, i as int)[k],
                ),
        decreases ord.len() - i,
    {
        proof {
            lemma_decode_prefix_invariant(ord, ds, cs, policy, i as int);
            lemma_decode_prefix_invariant(ord, ds, cs, policy, i as int + 1);
        }
        let c = customer_order[i];
        if c == 0 {
            let leg = depots[depot].dist(x, y);
            let line = RouteReport {
                depot,
                vehicle,
                duration: duration + leg,
                load,
                customers: cus_list,
            };
            lines.push(line);
            cus_list = Vec::new();
            proof {
                let rl = report_lines(ord, ds, cs, i as int + 1);
                assert(rl == report_lines(ord, ds, cs, i as int).push(
                    rl[rl.len() - 1],
                ));
                assert(line_matches(lines@[lines@.len() - 1], rl[rl.len() - 1]));
                assert(cur_route(ord, i as int + 1) =~= Seq::<i64>::empty());
            }
            vehicle = vehicle + 1;
            if vehicle >= depots[depot].vehicles() {
                vehicle = 0;
                let dl = depots.len();
                assert(depot < dl);
                depot = depot + 1;
            }
            x = depots[depot].x();
            y = depots[depot].y();
            load = 0;
            duration = 0;
        } else {
            let cust = &customers[(c - 1) as usize];
            let leg = cust.dist(x, y);
            load = load + cust.load();
            duration = duration + cust.duration() + leg;
            x = cust.x();
            y = cust.y();
            cus_list.push(c);
        }
        i = i + 1;
    }
    proof {
        lemma_decode_prefix_invariant(ord, ds, cs, policy, i as int);
        let st = decode_prefix(ord, ds, cs, policy, i as int);
        crate::world::lemma_euclid_bound(
            st.x,
            st.y,
            ds[st.depot].spec_x() as int,
            ds[st.depot].spec_y() as int,
        );
    }
    let leg = depots[depot].dist(x, y);
    let line = RouteReport { depot, vehicle, duration: duration + leg, load, customers: cus_list };
    lines.push(line);
    proof {
        lemma_report_lines_len(ord, ds, cs, ord.len() as int);
        lemma_zeros_upto_all(ord);
    }
    (lines, Some(dec.0))
}
}

} // verus!
