//! Static problem geometry: customers, depots, distances and limit checks.

use vstd::prelude::*;
use crate::isqrt::{is_sqrt, isqrt64, lemma_sqrt_below, lemma_sqrt_floor_is_sqrt, sqrt_floor};
use crate::MAX_COORD;

verus! {

/// Largest service duration or demand a well-formed customer may carry.
pub const MAX_SERVICE: i64 = 1_000_000;

pub const MAX_DEMAND: i64 = 1_000_000;

/// An upper bound on any single truncated Euclidean hop between
/// well-formed coordinates: the squared distance is at most
/// `8_000_000_000_000 < DIST_BOUND * DIST_BOUND`.
pub const DIST_BOUND: i64 = 3_000_000;

pub open spec fn coord_ok(c: i64) -> bool {
    -MAX_COORD <= c <= MAX_COORD
}

pub open spec fn sq(a: int) -> int {
    a * a
}

/// Squared Euclidean distance between two points.
pub open spec fn dist2(x1: int, y1: int, x2: int, y2: int) -> int {
    sq(x1 - x2) + sq(y1 - y2)
}

/// The travel distance used everywhere: the Euclidean distance
/// truncated to an integer (floor of the square root).
pub open spec fn euclid(x1: int, y1: int, x2: int, y2: int) -> int {
    sqrt_floor(dist2(x1, y1, x2, y2))
}

pub proof fn lemma_dist2_bounds(x1: int, y1: int, x2: int, y2: int)
    requires
        -MAX_COORD <= x1 <= MAX_COORD,
        -MAX_COORD <= y1 <= MAX_COORD,
        -MAX_COORD <= x2 <= MAX_COORD,
        -MAX_COORD <= y2 <= MAX_COORD,
    ensures
        0 <= dist2(x1, y1, x2, y2) < DIST_BOUND * DIST_BOUND,
{
    assert(0 <= sq(x1 - x2) <= 4_000_000_000_000) by (nonlinear_arith)
        requires
            -2_000_000 <= x1 - x2 <= 2_000_000,
    ;
    assert(0 <= sq(y1 - y2) <= 4_000_000_000_000) by (nonlinear_arith)
        requires
            -2_000_000 <= y1 - y2 <= 2_000_000,
    ;
}

pub proof fn lemma_euclid_bound(x1: int, y1: int, x2: int, y2: int)
    requires
        -MAX_COORD <= x1 <= MAX_COORD,
        -MAX_COORD <= y1 <= MAX_COORD,
        -MAX_COORD <= x2 <= MAX_COORD,
        -MAX_COORD <= y2 <= MAX_COORD,
    ensures
        0 <= euclid(x1, y1, x2, y2) <= DIST_BOUND,
{
    lemma_dist2_bounds(x1, y1, x2, y2);
    lemma_sqrt_floor_is_sqrt(dist2(x1, y1, x2, y2));
    lemma_sqrt_below(dist2(x1, y1, x2, y2), DIST_BOUND as int);
}

/// Truncated Euclidean distance between two well-formed points.
pub fn euclid_dist(x1: i64, y1: i64, x2: i64, y2: i64) -> (r: i64)
    requires
        coord_ok(x1),
        coord_ok(y1),
        coord_ok(x2),
        coord_ok(y2),
    ensures
        r == euclid(x1 as int, y1 as int, x2 as int, y2 as int),
        0 <= r <= DIST_BOUND,
{
    let dx = x1 - x2;
    let dy = y1 - y2;
    proof {
        assert(0 <= (dx as int) * (dx as int) <= 4_000_000_000_000) by (nonlinear_arith)
            requires
                -2_000_000 <= dx as int <= 2_000_000,
        ;
        assert(0 <= (dy as int) * (dy as int) <= 4_000_000_000_000) by (nonlinear_arith)
            requires
                -2_000_000 <= dy as int <= 2_000_000,
        ;
        lemma_euclid_bound(x1 as int, y1 as int, x2 as int, y2 as int);
    }
    let s = dx * dx + dy * dy;
    let r = isqrt64(s as u64);
    r as i64
}

pub struct Customer {
    x: i64,
    y: i64,
    duration: i64,
    load: i64,
}

pub open spec fn customer_wf(c: Customer) -> bool {
    &&& coord_ok(c.spec_x())
    &&& coord_ok(c.spec_y())
    &&& 0 <= c.spec_duration() <= MAX_SERVICE
    &&& 0 <= c.spec_load() <= MAX_DEMAND
}

impl Customer {
    pub closed spec fn spec_x(self) -> i64 {
        self.x
    }

    pub closed spec fn spec_y(self) -> i64 {
        self.y
    }

    pub closed spec fn spec_duration(self) -> i64 {
        self.duration
    }

    pub closed spec fn spec_load(self) -> i64 {
        self.load
    }

    /// Truncated Euclidean distance from `(x, y)` to this customer.
    pub fn dist(&self, x: i64, y: i64) -> (r: i64)
        requires
            coord_ok(x),
            coord_ok(y),
            customer_wf(*self),
        ensures
            r == euclid(x as int, y as int, self.spec_x() as int, self.spec_y() as int),
            0 <= r <= DIST_BOUND,
    {
        euclid_dist(x, y, self.x, self.y)
    }

    pub fn x(&self) -> (r: i64)
        ensures
            r == self.spec_x(),
    {
        self.x
    }

    pub fn y(&self) -> (r: i64)
        ensures
            r == self.spec_y(),
    {
        self.y
    }

    pub fn duration(&self) -> (r: i64)
        ensures
            r == self.spec_duration(),
    {
        self.duration
    }

    pub fn load(&self) -> (r: i64)
        ensures
            r == self.spec_load(),
    {
        self.load
    }

    pub fn init(x: i64, y: i64, duration: i64, load: i64) -> (c: Customer)
        ensures
            c.spec_x() == x,
            c.spec_y() == y,
            c.spec_duration() == duration,
            c.spec_load() == load,
    {
        Customer { x, y, duration, load }
    }
}

pub struct Depot {
    x: i64,
    y: i64,
    max_duration: i64,
    max_load: i64,
    vehicles: i64,
}

pub open spec fn depot_wf(d: Depot) -> bool {
    &&& coord_ok(d.spec_x())
    &&& coord_ok(d.spec_y())
    &&& 0 <= d.spec_max_duration()
    &&& 0 <= d.spec_max_load()
    &&& 1 <= d.spec_vehicles()
}

/// True iff duration `dur` breaks the depot's limit; a zero
/// `max_duration` means there is no duration limit at all.
pub open spec fn spec_over_duration(d: Depot, dur: i64) -> bool {
    d.spec_max_duration() != 0 && dur > d.spec_max_duration()
}

pub open spec fn spec_over_load(d: Depot, load: i64) -> bool {
    load > d.spec_max_load()
}

impl Depot {
    pub closed spec fn spec_x(self) -> i64 {
        self.x
    }

    pub closed spec fn spec_y(self) -> i64 {
        self.y
    }

    pub closed spec fn spec_max_duration(self) -> i64 {
        self.max_duration
    }

    pub closed spec fn spec_max_load(self) -> i64 {
        self.max_load
    }

    pub closed spec fn spec_vehicles(self) -> i64 {
        self.vehicles
    }

    /// Truncated Euclidean distance from `(x, y)` to this depot.
    pub fn dist(&self, x: i64, y: i64) -> (r: i64)
        requires
            coord_ok(x),
            coord_ok(y),
            depot_wf(*self),
        ensures
            r == euclid(x as int, y as int, self.spec_x() as int, self.spec_y() as int),
            0 <= r <= DIST_BOUND,
    {
        euclid_dist(x, y, self.x, self.y)
    }

    pub fn over_duration(&self, dur: i64) -> (r: bool)
        ensures
            r == spec_over_duration(*self, dur),
    {
        self.max_duration != 0 && dur > self.max_duration
    }

    pub fn over_load(&self, load: i64) -> (r: bool)
        ensures
            r == spec_over_load(*self, load),
    {
        load > self.max_load
    }

    pub fn x(&self) -> (r: i64)
        ensures
            r == self.spec_x(),
    {
        self.x
    }

    pub fn y(&self) -> (r: i64)
        ensures
            r == self.spec_y(),
    {
        self.y
    }

    pub fn max_duration(&self) -> (r: i64)
        ensures
            r == self.spec_max_duration(),
    {
        self.max_duration
    }

    pub fn max_load(&self) -> (r: i64)
        ensures
            r == self.spec_max_load(),
    {
        self.max_load
    }

    pub fn vehicles(&self) -> (r: i64)
        ensures
            r == self.spec_vehicles(),
    {
        self.vehicles
    }

    pub fn init(x: i64, y: i64, max_duration: i64, max_load: i64, vehicles: i64) -> (d: Depot)
        ensures
            d.spec_x() == x,
            d.spec_y() == y,
            d.spec_max_duration() == max_duration,
            d.spec_max_load() == max_load,
            d.spec_vehicles() == vehicles,
    {
        Depot { x, y, max_duration, max_load, vehicles }
    }
}

/// How many vehicles the first `k` depots own together.
pub open spec fn vehicles_before(ds: Seq<Depot>, k: int) -> int
    decreases k,
{
    if k <= 0 {
        0
    } else {
        vehicles_before(ds, k - 1) + ds[k - 1].spec_vehicles()
    }
}

/// All vehicles owned by the depot list, in the fixed consumption order.
pub open spec fn spec_total_vehicles(ds: Seq<Depot>) -> int {
    vehicles_before(ds, ds.len() as int)
}

pub proof fn lemma_vehicles_before_monotonic(ds: Seq<Depot>, k1: int, k2: int)
    requires
        0 <= k1 <= k2 <= ds.len(),
        forall|i: int| 0 <= i < ds.len() ==> depot_wf(#[trigger] ds[i]),
    ensures
        vehicles_before(ds, k1) + (k2 - k1) <= vehicles_before(ds, k2),
    decreases k2 - k1,
{
    if k1 < k2 {
        lemma_vehicles_before_monotonic(ds, k1, k2 - 1);
    }
}

/// Caps on instance size; they keep every accumulated distance,
/// duration, load and penalty comfortably inside `i64`.
pub const MAX_CUSTOMERS: usize = 500_000;

pub const MAX_TOTAL_VEHICLES: i64 = 500_000;

pub open spec fn world_wf(depots: Seq<Depot>, customers: Seq<Customer>) -> bool {
    &&& depots.len() >= 1
    &&& forall|i: int| 0 <= i < depots.len() ==> depot_wf(#[trigger] depots[i])
    &&& forall|i: int| 0 <= i < customers.len() ==> customer_wf(#[trigger] customers[i])
    &&& customers.len() <= MAX_CUSTOMERS
    &&& spec_total_vehicles(depots) <= MAX_TOTAL_VEHICLES
}

/// Runtime check for `world_wf`, for callers outside verified code.
pub fn check_world_wf(depots: &Vec<Depot>, customers: &Vec<Customer>) -> (r: bool)
    ensures
        r == world_wf(depots@, customers@),
{
    if depots.len() < 1 || customers.len() > MAX_CUSTOMERS {
        return false;
    }
    let mut i: usize = 0;
    let mut vehicles: i64 = 0;
    while i < depots.len()
        invariant
            0 <= i <= depots.len(),
            vehicles == vehicles_before(depots@, i as int),
            forall|j: int| 0 <= j < i ==> depot_wf(#[trigger] depots@[j]),
            0 <= vehicles <= MAX_TOTAL_VEHICLES,
        decreases depots.len() - i,
    {
        let d = &depots[i];
        if !(-MAX_COORD <= d.x && d.x <= MAX_COORD && -MAX_COORD <= d.y && d.y <= MAX_COORD
            && 0 <= d.max_duration && 0 <= d.max_load && 1 <= d.vehicles) {
            return false;
        }
        if d.vehicles > MAX_TOTAL_VEHICLES || vehicles + d.vehicles > MAX_TOTAL_VEHICLES {
            proof {
                if world_wf(depots@, customers@) {
                    lemma_vehicles_before_monotonic(depots@, i as int + 1, depots@.len() as int);
                }
            }
            return false;
        }
        vehicles = vehicles + d.vehicles;
        i = i + 1;
    }
    let mut i: usize = 0;
    while i < customers.len()
        invariant
            0 <= i <= customers.len(),
            forall|j: int| 0 <= j < i ==> customer_wf(#[trigger] customers@[j]),
        decreases customers.len() - i,
    {
        let c = &customers[i];
        if !(-MAX_COORD <= c.x && c.x <= MAX_COORD && -MAX_COORD <= c.y && c.y <= MAX_COORD
            && 0 <= c.duration && c.duration <= MAX_SERVICE && 0 <= c.load && c.load <= MAX_DEMAND) {
            return false;
        }
        i = i + 1;
    }
    true
}

/// Counts the vehicles a depot list owns.
pub fn total_vehicles(depots: &Vec<Depot>) -> (r: usize)
    requires
        forall|i: int| 0 <= i < depots@.len() ==> depot_wf(#[trigger] depots@[i]),
        spec_total_vehicles(depots@) <= MAX_TOTAL_VEHICLES,
    ensures
        r == spec_total_vehicles(depots@),
{
    let mut i: usize = 0;
    let mut vehicles: i64 = 0;
    while i < depots.len()
        invariant
            0 <= i <= depots.len(),
            vehicles == vehicles_before(depots@, i as int),
            forall|j: int| 0 <= j < depots@.len() ==> depot_wf(#[trigger] depots@[j]),
            spec_total_vehicles(depots@) <= MAX_TOTAL_VEHICLES,
            0 <= vehicles,
        decreases depots.len() - i,
    {
        proof {
            lemma_vehicles_before_monotonic(depots@, i as int + 1, depots@.len() as int);
        }
        vehicles = vehicles + depots[i].vehicles;
        i = i + 1;
    }
    vehicles as usize
}

} // verus!
