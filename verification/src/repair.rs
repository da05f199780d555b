//! The repair heuristic: a best-effort pass that moves zero separators
//! forward (closing overloaded routes early) and swaps customers so
//! that duration limits hold, without ever changing the customer
//! multiset or the separator count.

use vstd::prelude::*;
use crate::decode::{
    advance_vehicle, close_route, decode_prefix, lemma_decode_prefix_invariant, over_load_at,
    spec_decode, valid_order, lemma_valid_order_multiset, visit_customer,
};
use crate::params::FitnessPolicy;
use crate::world::{
    customer_wf, euclid, spec_total_vehicles, world_wf, Customer, Depot, DIST_BOUND,
};
use crate::MAX_COORD;

verus! {

broadcast use vstd::seq_lib::group_to_multiset_ensures;

/// Swap the entries at `a` and `b` in place.
pub fn swap_in_place(v: &mut Vec<i64>, a: usize, b: usize)
    requires
        a < old(v)@.len(),
        b < old(v)@.len(),
    ensures
        final(v)@ == old(v)@.update(a as int, old(v)@[b as int]).update(
            b as int,
            old(v)@[a as int],
        ),
        final(v)@.to_multiset() == old(v)@.to_multiset(),
        final(v)@.len() == old(v)@.len(),
{
    let ghost s = v@;
    let tmp = v[a];
    let b_val = v[b];
    v.set(a, b_val);
    v.set(b, tmp);
    proof {
        let s1 = s.update(a as int, s[b as int]);
        let s2 = s1.update(b as int, s[a as int]);
        assert(v@ == s2);
        if a == b {
            assert(s2 =~= s);
            assert(s2.to_multiset() =~= s.to_multiset());
        } else {
            assert(s1[b as int] == s[b as int]);
            assert(s1.to_multiset() =~= s.to_multiset().remove(s[a as int]).insert(s[b as int]));
            assert(s2.to_multiset() =~= s1.to_multiset().remove(s1[b as int]).insert(s[a as int]));
            assert(s.to_multiset().count(s[a as int]) > 0) by {
                assert(s.contains(s[a as int]));
            }
            assert(s.to_multiset().count(s[b as int]) > 0) by {
                assert(s.contains(s[b as int]));
            }
            assert(s2.to_multiset() =~= s.to_multiset());
        }
    }
}

/// Swap the two entries at `idx1` and `idx2`.
pub fn swap_elems(customer_order: Vec<i64>, idx1: usize, idx2: usize) -> (r: Vec<i64>)
    requires
        idx1 < customer_order@.len(),
        idx2 < customer_order@.len(),
    ensures
        r@ == customer_order@.update(idx1 as int, customer_order@[idx2 as int]).update(
            idx2 as int,
            customer_order@[idx1 as int],
        ),
        r@.to_multiset() == customer_order@.to_multiset(),
        r@.len() == customer_order@.len(),
{
    let mut v = customer_order;
    swap_in_place(&mut v, idx1, idx2);
    v
}

/// The first separator position at or after `i`; the length where no
/// separator remains.
pub open spec fn first_zero_at(s: Seq<i64>, i: int) -> int
    decreases s.len() - i,
{
    if i < 0 || i >= s.len() {
        s.len() as int
    } else if s[i] == 0i64 {
        i
    } else {
        first_zero_at(s, i + 1)
    }
}

/// What pulling the next separator to `i` yields: the prefix stays, a
/// zero lands at `i`, the stretch up to the removed separator shifts
/// right by one, and the suffix after it stays; with no separator left
/// to pull, the sequence comes back unchanged.
pub open spec fn pulled(s: Seq<i64>, i: int) -> Seq<i64> {
    let z = first_zero_at(s, i);
    if z < s.len() {
        s.subrange(0, i) + seq![0i64] + s.subrange(i, z) + s.subrange(z + 1, s.len() as int)
    } else {
        s
    }
}

/// `first_zero_at` is the scan it names.
proof fn lemma_first_zero_at(s: Seq<i64>, i: int, j: int)
    requires
        0 <= i <= j <= s.len(),
        forall|m: int| i <= m < j ==> s[m] != 0i64,
        j == s.len() || s[j] == 0i64,
    ensures
        first_zero_at(s, i) == j,
    decreases j - i,
{
    if i < j {
        lemma_first_zero_at(s, i + 1, j);
    }
}

/// Move the next zero separator (at or after `i`) to position `i`,
/// closing the current route early; reports whether a zero was found.
pub fn pull_next_zero(i: usize, customer_order: Vec<i64>) -> (r: (Vec<i64>, bool))
    requires
        i < customer_order@.len(),
    ensures
        r.0@ == pulled(customer_order@, i as int),
        r.1 == (first_zero_at(customer_order@, i as int) < customer_order@.len()),
        r.1 == exists|j: int| i <= j < customer_order@.len() && customer_order@[j] == 0i64,
        !r.1 ==> r.0@ == customer_order@,
        r.0@.len() == customer_order@.len(),
        r.0@.to_multiset() == customer_order@.to_multiset(),
        r.1 ==> r.0@[i as int] == 0i64,
        r.0@.take(i as int) == customer_order@.take(i as int),
{
    let ghost s = customer_order@;
    let mut j = i;
    while j < customer_order.len()
        invariant
            i <= j <= s.len(),
            s == customer_order@,
            forall|k: int| i <= k < j ==> s[k] != 0i64,
        decreases s.len() - j,
    {
        if customer_order[j] == 0 {
            let mut v = customer_order;
            v.remove(j);
            v.insert(i, 0);
            proof {
                lemma_first_zero_at(s, i as int, j as int);
                let after_rm = s.remove(j as int);
                assert(after_rm.to_multiset() =~= s.to_multiset().remove(0i64));
                assert(v@ == after_rm.insert(i as int, 0i64));
                assert(v@.to_multiset() =~= after_rm.to_multiset().insert(0i64));
                assert(s.to_multiset().count(0i64) > 0) by {
                    assert(s.contains(s[j as int]));
                }
                assert(v@.to_multiset() =~= s.to_multiset());
                assert(v@.take(i as int) =~= s.take(i as int));
                assert(v@ =~= s.subrange(0, i as int) + seq![0i64] + s.subrange(i as int, j as int)
                    + s.subrange(j as int + 1, s.len() as int));
            }
            return (v, true);
        }
        j = j + 1;
    }
    proof {
        lemma_first_zero_at(s, i as int, s.len() as int);
        assert(customer_order@.take(i as int) =~= customer_order@.take(i as int));
    }
    (customer_order, false)
}

/// The duration check of the repair pass at position `i`: tentatively
/// appending the customer there makes the route unclosable within the
/// current depot's duration limit.
pub open spec fn repair_dur_trigger(
    order: Seq<i64>,
    ds: Seq<Depot>,
    cs: Seq<Customer>,
    i: int,
) -> bool {
    let st = decode_prefix(order, ds, cs, FitnessPolicy::Penalty, i);
    let c = order[i];
    c != 0 && {
        let cust = cs[c - 1];
        let st2 = visit_customer(st, cust);
        let d = ds[st.depot];
        d.spec_max_duration() != 0 && st2.duration + euclid(
            st2.x,
            st2.y,
            d.spec_x() as int,
            d.spec_y() as int,
        ) > d.spec_max_duration()
    }
}

/// The load check of the repair pass at position `i`: tentatively
/// appending the customer there breaks the current depot's load limit.
pub open spec fn repair_load_trigger(
    order: Seq<i64>,
    ds: Seq<Depot>,
    cs: Seq<Customer>,
    i: int,
) -> bool {
    let st = decode_prefix(order, ds, cs, FitnessPolicy::Penalty, i);
    let c = order[i];
    c != 0 && {
        let cust = cs[c - 1];
        let st2 = visit_customer(st, cust);
        let d = ds[st.depot];
        st2.load > d.spec_max_load()
    }
}

/// The condition under which the repair pass intervenes at position
/// `i`: tentatively appending the customer there either makes the
/// route unclosable within the duration limit or breaks the load limit.
pub open spec fn repair_trigger(order: Seq<i64>, ds: Seq<Depot>, cs: Seq<Customer>, i: int) -> bool {
    ||| repair_dur_trigger(order, ds, cs, i)
    ||| repair_load_trigger(order, ds, cs, i)
}

/// The walk's first intervention is the load fallback with a separator
/// still to pull: nothing fires before `i0`, the duration check is
/// quiet at `i0`, the load check fires there, and a zero stands at or
/// after `i0`.
pub open spec fn first_load_pull(
    order: Seq<i64>,
    ds: Seq<Depot>,
    cs: Seq<Customer>,
    i0: int,
) -> bool {
    &&& 0 <= i0 < order.len()
    &&& (forall|m: int| 0 <= m < i0 ==> !repair_trigger(order, ds, cs, m))
    &&& !repair_dur_trigger(order, ds, cs, i0)
    &&& repair_load_trigger(order, ds, cs, i0)
    &&& first_zero_at(order, i0) < order.len()
}

/// A sequence the repair pass walks through without intervening
/// anywhere; on such input the pass is the identity.
pub open spec fn pass_clean(order: Seq<i64>, ds: Seq<Depot>, cs: Seq<Customer>) -> bool {
    forall|i: int| 0 <= i < order.len() ==> !repair_trigger(order, ds, cs, i)
}

/// Once a route close breaks a limit, the feasibility flag never
/// recovers.
proof fn lemma_valid_monotone(
    order: Seq<i64>,
    ds: Seq<Depot>,
    cs: Seq<Customer>,
    policy: FitnessPolicy,
    i: int,
    j: int,
)
    requires
        0 <= i <= j <= order.len(),
    ensures
        !decode_prefix(order, ds, cs, policy, i).valid ==> !decode_prefix(
            order,
            ds,
            cs,
            policy,
            j,
        ).valid,
    decreases j,
{
    if i < j {
        lemma_valid_monotone(order, ds, cs, policy, i, j - 1);
    }
}

/// Within a separator-free stretch the serving depot stays put and the
/// route load only grows.
proof fn lemma_stretch(order: Seq<i64>, ds: Seq<Depot>, cs: Seq<Customer>, i: int, e: int)
    requires
        world_wf(ds, cs),
        valid_order(order, cs.len() as int, spec_total_vehicles(ds)),
        0 <= i <= e <= order.len(),
        forall|m: int| i <= m < e ==> order[m] != 0i64,
    ensures
        decode_prefix(order, ds, cs, FitnessPolicy::Penalty, e).depot == decode_prefix(
            order,
            ds,
            cs,
            FitnessPolicy::Penalty,
            i,
        ).depot,
        decode_prefix(order, ds, cs, FitnessPolicy::Penalty, e).load >= decode_prefix(
            order,
            ds,
            cs,
            FitnessPolicy::Penalty,
            i,
        ).load,
    decreases e - i,
{
    if e > i {
        lemma_stretch(order, ds, cs, i, e - 1);
        let c = order[e - 1];
        assert(0 <= c <= cs.len());
        assert(customer_wf(cs[c - 1]));
    }
}

/// Every customer position has a route end: the next separator, or the
/// end of the sequence.
proof fn lemma_route_end(order: Seq<i64>, i: int) -> (e: int)
    requires
        0 <= i < order.len(),
    ensures
        i < e <= order.len(),
        e == order.len() || order[e] == 0i64,
        forall|m: int| i < m < e ==> order[m] != 0i64,
    decreases order.len() - i,
{
    let l = order.len() as int;
    if i + 1 == l {
        l
    } else if order[i + 1] == 0i64 {
        i + 1
    } else {
        lemma_route_end(order, i + 1)
    }
}

/// A feasible sequence, in a world whose depots set no duration limit,
/// gives the repair pass nothing to do: no swap and no separator move
/// ever fires, so `repair` returns such a sequence (and in particular
/// its total distance) unchanged.
pub proof fn lemma_feasible_unlimited_pass_clean(order: Seq<i64>, ds: Seq<Depot>, cs: Seq<Customer>)
    requires
        world_wf(ds, cs),
        valid_order(order, cs.len() as int, spec_total_vehicles(ds)),
        forall|k: int| 0 <= k < ds.len() ==> #[trigger] ds[k].spec_max_duration() == 0,
        spec_decode(order, ds, cs, FitnessPolicy::Penalty).valid,
    ensures
        pass_clean(order, ds, cs),
{
    let policy = FitnessPolicy::Penalty;
    let l = order.len() as int;
    assert forall|i: int| 0 <= i < l implies !repair_trigger(order, ds, cs, i) by {
        if order[i] != 0i64 {
            lemma_decode_prefix_invariant(order, ds, cs, policy, i);
            lemma_decode_prefix_invariant(order, ds, cs, policy, i + 1);
            let st = decode_prefix(order, ds, cs, policy, i);
            let d = ds[st.depot];
            assert(d.spec_max_duration() == 0);
            let c = order[i];
            let st2 = visit_customer(st, cs[c - 1]);
            assert(st2 == decode_prefix(order, ds, cs, policy, i + 1));
            let e = lemma_route_end(order, i);
            lemma_stretch(order, ds, cs, i + 1, e);
            let ste = decode_prefix(order, ds, cs, policy, e);
            assert(ste.load >= st2.load && ste.depot == st2.depot);
            lemma_decode_prefix_invariant(order, ds, cs, policy, e);
            if e == l {
                // the final, implicit close is within the load limit
                assert(spec_decode(order, ds, cs, policy) == close_route(ste, ds, policy));
                assert(!over_load_at(ds[ste.depot], ste.load));
            } else {
                // the close at the next separator is within the limit,
                // else the feasibility flag would have stayed down
                if over_load_at(ds[ste.depot], ste.load) {
                    assert(decode_prefix(order, ds, cs, policy, e + 1) == advance_vehicle(
                        close_route(ste, ds, policy),
                        ds,
                    ));
                    assert(!decode_prefix(order, ds, cs, policy, e + 1).valid);
                    lemma_valid_monotone(order, ds, cs, policy, e + 1, l);
                    assert(!spec_decode(order, ds, cs, policy).valid);
                    assert(false);
                }
            }
            assert(st2.load <= ds[st2.depot].spec_max_load());
        }
    }
}

/// Decoding a prefix only reads that prefix.
proof fn lemma_decode_prefix_take(
    s1: Seq<i64>,
    s2: Seq<i64>,
    ds: Seq<Depot>,
    cs: Seq<Customer>,
    policy: FitnessPolicy,
    i: int,
)
    requires
        0 <= i,
        i <= s1.len(),
        i <= s2.len(),
        s1.take(i) == s2.take(i),
    ensures
        decode_prefix(s1, ds, cs, policy, i) == decode_prefix(s2, ds, cs, policy, i),
    decreases i,
{
    if i > 0 {
        assert(s1.take(i - 1) =~= s1.take(i).take(i - 1));
        assert(s2.take(i - 1) =~= s2.take(i).take(i - 1));
        lemma_decode_prefix_take(s1, s2, ds, cs, policy, i - 1);
        assert(s1[i - 1] == s1.take(i)[i - 1]);
        assert(s2[i - 1] == s2.take(i)[i - 1]);
    }
}

/// Loop measure for the repair walk: processing a separator costs one
/// step, a customer at most two.
pub open spec fn rep_measure(s: Seq<i64>, i: int) -> int {
    2 * (s.len() - i) + (if 0 <= i < s.len() && s[i] != 0i64 {
        1int
    } else {
        0int
    })
}

/// One forward repair walk as described above; returns a sequence with
/// the same customers and the same separator count.  On a sequence
/// where no limit check ever fires it returns its input unchanged; and
/// when the walk's first intervention is the load fallback with a
/// separator left to pull, the returned sequence closes that route
/// exactly there.
/// Carries the load-fallback clause across one intervention of the
/// walk at position `i`: the first qualifying intervention pins the
/// early close, and every later one touches only positions at or
/// beyond `i`, leaving the pinned prefix alone.
proof fn lemma_shape_after_intervention(
    orig: Seq<i64>,
    pre: Seq<i64>,
    cur: Seq<i64>,
    ds: Seq<Depot>,
    cs: Seq<Customer>,
    i: int,
    was_intervened: bool,
    dur_hit: bool,
    load_pull: bool,
)
    requires
        0 <= i < pre.len(),
        orig.len() == pre.len(),
        cur.len() == pre.len(),
        pre[i] != 0i64,
        cur.take(i) == pre.take(i),
        dur_hit || load_pull,
        dur_hit ==> repair_dur_trigger(pre, ds, cs, i),
        load_pull ==> !repair_dur_trigger(pre, ds, cs, i) && repair_load_trigger(pre, ds, cs, i),
        load_pull ==> cur == pulled(pre, i),
        !was_intervened ==> pre == orig && (forall|m: int|
            0 <= m < i ==> !repair_trigger(orig, ds, cs, m)),
        was_intervened ==> forall|i0: int|
            #[trigger] first_load_pull(orig, ds, cs, i0) ==> (pre.take(i0 + 1) == orig.take(
                i0,
            ).push(0i64) && i0 <= i && (i0 == i ==> pre[i0] == 0i64)),
    ensures
        forall|i0: int|
            #[trigger] first_load_pull(orig, ds, cs, i0) ==> (cur.take(i0 + 1) == orig.take(
                i0,
            ).push(0i64) && i0 <= i && (i0 == i ==> cur[i0] == 0i64)),
{
    assert forall|i0: int|
        #[trigger] first_load_pull(orig, ds, cs, i0) implies (cur.take(i0 + 1) == orig.take(
        i0,
    ).push(0i64) && i0 <= i && (i0 == i ==> cur[i0] == 0i64)) by {
        if !was_intervened {
            if i0 < i {
                assert(!repair_trigger(orig, ds, cs, i0));
                assert(repair_load_trigger(orig, ds, cs, i0));
                assert(repair_trigger(orig, ds, cs, i0));
                assert(false);
            } else if i0 > i {
                assert(!repair_trigger(orig, ds, cs, i));
                assert(repair_trigger(orig, ds, cs, i));
                assert(false);
            } else {
                if dur_hit {
                    assert(!repair_dur_trigger(orig, ds, cs, i0));
                    assert(false);
                } else {
                    assert(first_zero_at(pre, i) < pre.len());
                    assert(cur == pulled(pre, i));
                    assert(cur.take(i0 + 1) =~= orig.take(i0).push(0i64));
                    assert(cur[i0] == 0i64);
                }
            }
        } else {
            assert(pre.take(i0 + 1) == orig.take(i0).push(0i64) && i0 <= i);
            if i0 == i {
                assert(pre[i0] == 0i64);
                assert(false);
            }
            assert forall|m: int| 0 <= m < i0 + 1 implies cur[m] == pre.take(i0 + 1)[m] by {
                assert(cur.take(i)[m] == pre.take(i)[m]);
            }
            assert(cur.take(i0 + 1) =~= pre.take(i0 + 1));
        }
    }
}

pub fn repair_pass(customer_order: Vec<i64>, depots: &Vec<Depot>, customers: &Vec<Customer>) -> (r:
    Vec<i64>)
    requires
        world_wf(depots@, customers@),
        valid_order(customer_order@, customers@.len() as int, spec_total_vehicles(depots@)),
    ensures
        r@.len() == customer_order@.len(),
        r@.to_multiset() == customer_order@.to_multiset(),
        valid_order(r@, customers@.len() as int, spec_total_vehicles(depots@)),
        pass_clean(customer_order@, depots@, customers@) ==> r@ == customer_order@,
        forall|i0: int|
            #[trigger] first_load_pull(customer_order@, depots@, customers@, i0) ==> r@.take(
                i0 + 1,
            ) == customer_order@.take(i0).push(0i64),
{
    let ghost orig = customer_order@;
    let ghost ds = depots@;
    let ghost cs = customers@;
    let ghost policy = FitnessPolicy::Penalty;
    let ghost mut intervened: bool = false;
    let mut cur = customer_order;
    let mut depot: usize = 0;
    let mut vehicle: i64 = 0;
    let mut load: i64 = 0;
    let mut duration: i64 = 0;
    proof {
        lemma_decode_prefix_invariant(orig, ds, cs, policy, 0);
    }
    let mut x = depots[0].x();
    let mut y = depots[0].y();
    let mut i: usize = 0;
    while i < cur.len()
        invariant
            world_wf(ds, cs),
            ds == depots@,
            cs == customers@,
            policy == FitnessPolicy::Penalty,
            valid_order(orig, cs.len() as int, spec_total_vehicles(ds)),
            cur@.len() == orig.len(),
            cur@.to_multiset() == orig.to_multiset(),
            valid_order(cur@, cs.len() as int, spec_total_vehicles(ds)),
            0 <= i <= cur@.len(),
            depot as int == decode_prefix(cur@, ds, cs, policy, i as int).depot,
            vehicle as int == decode_prefix(cur@, ds, cs, policy, i as int).vehicle,
            load as int == decode_prefix(cur@, ds, cs, policy, i as int).load,
            duration as int == decode_prefix(cur@, ds, cs, policy, i as int).duration,
            x as int == decode_prefix(cur@, ds, cs, policy, i as int).x,
            y as int == decode_prefix(cur@, ds, cs, policy, i as int).y,
            pass_clean(orig, ds, cs) ==> cur@ == orig,
            !intervened ==> cur@ == orig,
            !intervened ==> forall|m: int| 0 <= m < i ==> !repair_trigger(orig, ds, cs, m),
            intervened ==> forall|i0: int|
                #[trigger] first_load_pull(orig, ds, cs, i0) ==> (cur@.take(i0 + 1) == orig.take(
                    i0,
                ).push(0i64) && i0 <= i as int && (i0 == i as int ==> cur@[i0] == 0i64)),
        decreases rep_measure(cur@, i as int),
    {
        proof {
            lemma_decode_prefix_invariant(cur@, ds, cs, policy, i as int);
            lemma_decode_prefix_invariant(cur@, ds, cs, policy, i as int + 1);
        }
        let ghost st = decode_prefix(cur@, ds, cs, policy, i as int);
        let c = cur[i];
        if c == 0 {
            proof {
                if !intervened {
                    assert(!repair_dur_trigger(orig, ds, cs, i as int));
                    assert(!repair_load_trigger(orig, ds, cs, i as int));
                    assert(!repair_trigger(orig, ds, cs, i as int));
                }
            }
            vehicle = vehicle + 1;
            if vehicle >= depots[depot].vehicles() {
                vehicle = 0;
                let dl = depots.len();
                assert(depot < dl);
                depot = depot + 1;
            }
            x = depots[depot].x();
            y = depots[depot].y();
            load = 0;
            duration = 0;
            i = i + 1;
        } else {
            let cust = &customers[(c - 1) as usize];
            let leg = cust.dist(x, y);
            let new_load = load + cust.load();
            let new_dur = duration + cust.duration() + leg;
            let ret = depots[depot].dist(cust.x(), cust.y());
            if depots[depot].max_duration() != 0 && new_dur + ret > depots[depot].max_duration() {
                let ghost was_intervened = intervened;
                proof {
                    assert(repair_dur_trigger(cur@, ds, cs, i as int));
                    assert(repair_trigger(cur@, ds, cs, i as int));
                    if pass_clean(orig, ds, cs) {
                        assert(cur@ == orig);
                        assert(!repair_trigger(orig, ds, cs, i as int));
                        assert(false);
                    }
                    intervened = true;
                }
                // look for the route customer cheapest to finish with:
                // nearest to the current position plus its way home
                let mut best_idx: usize = i;
                let mut best_dist: i64 = leg + ret;
                let mut j = i + 1;
                while j < cur.len() && cur[j] != 0
                    invariant
                        i < j <= cur@.len(),
                        i <= best_idx < j,
                        cur@[best_idx as int] != 0i64,
                        valid_order(cur@, cs.len() as int, spec_total_vehicles(ds)),
                        ds == depots@,
                        cs == customers@,
                        world_wf(ds, cs),
                        -MAX_COORD <= x as int <= MAX_COORD,
                        -MAX_COORD <= y as int <= MAX_COORD,
                        0 <= depot < ds.len(),
                        0 <= best_dist <= 2 * DIST_BOUND,
                    decreases cur@.len() - j,
                {
                    let cand = cur[j];
                    let cc = &customers[(cand - 1) as usize];
                    let d_cand = cc.dist(x, y) + depots[depot].dist(cc.x(), cc.y());
                    if d_cand < best_dist {
                        best_idx = j;
                        best_dist = d_cand;
                    }
                    j = j + 1;
                }
                let bc = &customers[(cur[best_idx] - 1) as usize];
                let bleg = bc.dist(x, y);
                let bdur = duration + bc.duration() + bleg;
                let bload = load + bc.load();
                let bret = depots[depot].dist(bc.x(), bc.y());
                if !((depots[depot].max_duration() != 0 && bdur + bret > depots[depot]
                    .max_duration()) || bload > depots[depot].max_load()) {
                    // swapping the candidate into position keeps the
                    // route within both limits: do it and serve it
                    let ghost pre = cur@;
                    cur = swap_elems(cur, i, best_idx);
                    proof {
                        lemma_valid_order_multiset(
                            pre,
                            cur@,
                            cs.len() as int,
                            spec_total_vehicles(ds),
                        );
                        assert(cur@.take(i as int) =~= pre.take(i as int));
                        lemma_decode_prefix_take(pre, cur@, ds, cs, policy, i as int);
                        assert(cur@[i as int] == pre[best_idx as int]);
                        lemma_shape_after_intervention(
                            orig, pre, cur@, ds, cs, i as int, was_intervened, true, false,
                        );
                    }
                    load = bload;
                    duration = bdur;
                    x = bc.x();
                    y = bc.y();
                    proof {
                        lemma_decode_prefix_invariant(cur@, ds, cs, policy, i as int + 1);
                    }
                    i = i + 1;
                } else {
                    let ghost pre = cur@;
                    let pulled_r = pull_next_zero(i, cur);
                    cur = pulled_r.0;
                    proof {
                        lemma_valid_order_multiset(
                            pre,
                            cur@,
                            cs.len() as int,
                            spec_total_vehicles(ds),
                        );
                        lemma_decode_prefix_take(pre, cur@, ds, cs, policy, i as int);
                        lemma_shape_after_intervention(
                            orig, pre, cur@, ds, cs, i as int, was_intervened, true, false,
                        );
                    }
                    if !pulled_r.1 {
                        // no separator remains to the right: keep the
                        // customer and move on
                        load = new_load;
                        duration = new_dur;
                        x = cust.x();
                        y = cust.y();
                        i = i + 1;
                    }
                }
            } else if new_load > depots[depot].max_load() {
                let ghost was_intervened = intervened;
                proof {
                    assert(!repair_dur_trigger(cur@, ds, cs, i as int));
                    assert(repair_load_trigger(cur@, ds, cs, i as int));
                    assert(repair_trigger(cur@, ds, cs, i as int));
                    if pass_clean(orig, ds, cs) {
                        assert(cur@ == orig);
                        assert(!repair_trigger(orig, ds, cs, i as int));
                        assert(false);
                    }
                    intervened = true;
                }
                let ghost pre = cur@;
                let pulled_r = pull_next_zero(i, cur);
                cur = pulled_r.0;
                proof {
                    lemma_valid_order_multiset(pre, cur@, cs.len() as int, spec_total_vehicles(ds));
                    lemma_decode_prefix_take(pre, cur@, ds, cs, policy, i as int);
                    lemma_shape_after_intervention(
                        orig, pre, cur@, ds, cs, i as int, was_intervened, false, true,
                    );
                }
                if !pulled_r.1 {
                    load = new_load;
                    duration = new_dur;
                    x = cust.x();
                    y = cust.y();
                    i = i + 1;
                }
            } else {
                proof {
                    if !intervened {
                        assert(!repair_dur_trigger(orig, ds, cs, i as int));
                        assert(!repair_load_trigger(orig, ds, cs, i as int));
                        assert(!repair_trigger(orig, ds, cs, i as int));
                    }
                }
                load = new_load;
                duration = new_dur;
                x = cust.x();
                y = cust.y();
                i = i + 1;
            }
        }
    }
    proof {
        if !intervened {
            assert forall|i0: int|
                #[trigger] first_load_pull(orig, ds, cs, i0) implies cur@.take(i0 + 1)
                == orig.take(i0).push(0i64) by {
                assert(!repair_trigger(orig, ds, cs, i0));
                assert(repair_load_trigger(orig, ds, cs, i0));
                assert(false);
            }
        }
    }
    cur
}

/// Reverse a sequence.
pub fn reverse_vec(v: &Vec<i64>) -> (r: Vec<i64>)
    ensures
        r@ == v@.reverse(),
        r@.len() == v@.len(),
        r@.to_multiset() == v@.to_multiset(),
{
    let mut r: Vec<i64> = Vec::new();
    let mut i = v.len();
    while i > 0
        invariant
            0 <= i <= v@.len(),
            r@.len() == v@.len() - i,
            forall|k: int| 0 <= k < r@.len() ==> r@[k] == v@[v@.len() - 1 - k],
        decreases i,
    {
        i = i - 1;
        r.push(v[i]);
    }
    proof {
        assert(r@ =~= v@.reverse());
        v@.lemma_reverse_to_multiset();
    }
    r
}

/// The full repair: one forward pass, then one pass over the reversed
/// sequence so violations near route ends get a symmetric correction.
pub fn repair(customer_order: Vec<i64>, depots: &Vec<Depot>, customers: &Vec<Customer>) -> (r:
    Vec<i64>)
    requires
        world_wf(depots@, customers@),
        valid_order(customer_order@, customers@.len() as int, spec_total_vehicles(depots@)),
    ensures
        r@.len() == customer_order@.len(),
        r@.to_multiset() == customer_order@.to_multiset(),
        valid_order(r@, customers@.len() as int, spec_total_vehicles(depots@)),
        pass_clean(customer_order@, depots@, customers@) && pass_clean(
            customer_order@.reverse(),
            depots@,
            customers@,
        ) ==> r@ == customer_order@,
{
    let ghost orig = customer_order@;
    let ghost n = customers@.len() as int;
    let ghost v = spec_total_vehicles(depots@);
    let first = repair_pass(customer_order, depots, customers);
    let flipped = reverse_vec(&first);
    proof {
        first@.lemma_reverse_to_multiset();
        lemma_valid_order_multiset(first@, flipped@, n, v);
    }
    let second = repair_pass(flipped, depots, customers);
    let result = reverse_vec(&second);
    proof {
        second@.lemma_reverse_to_multiset();
        lemma_valid_order_multiset(second@, result@, n, v);
        if pass_clean(orig, depots@, customers@) && pass_clean(
            orig.reverse(),
            depots@,
            customers@,
        ) {
            assert(first@ == orig);
            assert(second@ == orig.reverse());
            assert(result@ =~= orig);
        }
    }
    result
}

} // verus!
