//! Edge-recombination crossover: per node, the set of neighbours seen
//! in either parent's cyclic adjacency; a child tour grows greedily
//! towards the neighbour with the fewest remaining neighbours, jumping
//! to a random unused node when the current node's set runs dry.

use vstd::prelude::*;
use crate::perm::{is_perm_full, lemma_distinct_bounded, lemma_distinct_full};
use crate::rng::rand_below;

verus! {

/// Strictly increasing: sorted and duplicate-free.
pub open spec fn sorted_unique(s: Seq<i64>) -> bool {
    forall|i: int, j: int| 0 <= i < j < s.len() ==> s[i] < s[j]
}

/// Insert `x` into a sorted duplicate-free list, keeping it one.
#[verifier::rlimit(30)]
pub fn insert_sorted(v: &mut Vec<i64>, x: i64)
    requires
        sorted_unique(old(v)@),
    ensures
        sorted_unique(final(v)@),
        forall|y: i64| old(v)@.contains(y) ==> final(v)@.contains(y),
        final(v)@.contains(x),
        forall|y: i64| final(v)@.contains(y) ==> old(v)@.contains(y) || y == x,
        old(v)@.len() <= final(v)@.len() <= old(v)@.len() + 1,
{
    let ghost s = v@;
    let mut i: usize = 0;
    while i < v.len() && v[i] < x
        invariant
            s == v@,
            0 <= i <= s.len(),
            sorted_unique(s),
            forall|k: int| 0 <= k < i ==> s[k] < x,
        decreases s.len() - i,
    {
        i = i + 1;
    }
    if i < v.len() && v[i] == x {
        proof {
            assert(v@.contains(x)) by {
                assert(v@[i as int] == x);
            }
            assert(v@ == s);
            assert forall|y: i64| v@.contains(y) implies (s.contains(y) || y == x) by {
            }
            assert forall|y: i64| s.contains(y) implies v@.contains(y) by {
            }
        }
        return ;
    }
    v.insert(i, x);
    proof {
        assert(v@[i as int] == x);
        assert(v@.contains(x));
        assert forall|a: int, b: int| 0 <= a < b < v@.len() implies v@[a] < v@[b] by {
            if a < i && b == i {
                assert(s[a] < x);
            } else if a == i && b > i {
                assert(v@[b] == s[b - 1]);
                assert(s[b - 1] >= x);
                if s[b - 1] == x {
                    assert(s.contains(x));
                    let w = choose|w: int| 0 <= w < s.len() && s[w] == x;
                    assert(false);
                }
            } else if a < i && b > i {
                assert(s[a] < x);
            }
        }
        assert forall|y: i64| v@.contains(y) <==> (s.contains(y) || y == x) by {
            if v@.contains(y) {
                let k = choose|k: int| 0 <= k < v@.len() && v@[k] == y;
                if k < i {
                    assert(s[k] == y);
                } else if k > i {
                    assert(s[k - 1] == y);
                }
            }
            if s.contains(y) {
                let k = choose|k: int| 0 <= k < s.len() && s[k] == y;
                if k < i {
                    assert(v@[k] == y);
                } else {
                    assert(v@[k + 1] == y);
                }
            }
            if y == x {
                assert(v@[i as int] == y);
            }
        }
    }
}

/// Remove `x` from a sorted duplicate-free list if present.
pub fn remove_val(v: &mut Vec<i64>, x: i64)
    requires
        sorted_unique(old(v)@),
    ensures
        sorted_unique(final(v)@),
        forall|y: i64| final(v)@.contains(y) <==> (old(v)@.contains(y) && y != x),
        final(v)@.len() == old(v)@.len() - (if old(v)@.contains(x) {
            1int
        } else {
            0int
        }),
{
    let ghost s = v@;
    let mut i: usize = 0;
    while i < v.len()
        invariant
            s == v@,
            s == old(v)@,
            0 <= i <= s.len(),
            sorted_unique(s),
            forall|k: int| 0 <= k < i ==> s[k] != x,
        decreases s.len() - i,
    {
        if v[i] == x {
            v.remove(i);
            proof {
                assert(s.contains(x));
                assert forall|a: int, b: int| 0 <= a < b < v@.len() implies v@[a] < v@[b] by {
                    if a < i && b >= i {
                        assert(v@[b] == s[b + 1]);
                    } else if a >= i {
                        assert(v@[a] == s[a + 1] && v@[b] == s[b + 1]);
                    }
                }
                assert forall|y: i64| v@.contains(y) <==> (s.contains(y) && y != x) by {
                    if v@.contains(y) {
                        let k = choose|k: int| 0 <= k < v@.len() && v@[k] == y;
                        if k < i {
                            assert(s[k] == y);
                            assert(y != x);
                        } else {
                            assert(s[k + 1] == y);
                            assert(s[k + 1] > s[i as int]);
                        }
                    }
                    if s.contains(y) && y != x {
                        let k = choose|k: int| 0 <= k < s.len() && s[k] == y;
                        if k < i {
                            assert(v@[k] == y);
                        } else {
                            assert(k != i);
                            assert(v@[k - 1] == y);
                        }
                    }
                }
            }
            return ;
        }
        i = i + 1;
    }
    proof {
        if s.contains(x) {
            let k = choose|k: int| 0 <= k < s.len() && s[k] == x;
            assert(false);
        }
    }
}

/// The predecessor and successor of position `i` on the cycle of a
/// sequence of length `l`.
pub open spec fn cyc_prev(l: int, i: int) -> int {
    if i == 0 {
        l - 1
    } else {
        i - 1
    }
}

pub open spec fn cyc_next(l: int, i: int) -> int {
    if i == l - 1 {
        0
    } else {
        i + 1
    }
}

/// `y` stands next to `x` somewhere on the cyclic tour `p`.
pub open spec fn is_adj_in(p: Seq<i64>, x: i64, y: i64) -> bool {
    exists|i: int|
        0 <= i < p.len() && #[trigger] p[i] == x && (y == p[cyc_prev(p.len() as int, i)] || y
            == p[cyc_next(p.len() as int, i)])
}

/// `y` neighbours `x` in either parent's cyclic adjacency.
pub open spec fn adj(pa: Seq<i64>, pb: Seq<i64>, x: i64, y: i64) -> bool {
    is_adj_in(pa, x, y) || is_adj_in(pb, x, y)
}

/// `y` is a still-unused neighbour of `x`.
pub open spec fn live_adj(pa: Seq<i64>, pb: Seq<i64>, used: Seq<i64>, x: i64, y: i64) -> bool {
    adj(pa, pb, x, y) && !used.contains(y)
}

/// How many of the values `1..=b` are still-unused neighbours of `x`.
pub open spec fn live_deg(pa: Seq<i64>, pb: Seq<i64>, used: Seq<i64>, x: i64, b: int) -> int
    decreases b,
{
    if b <= 0 {
        0
    } else {
        live_deg(pa, pb, used, x, b - 1) + (if 1 <= b <= 1_000_000 && live_adj(
            pa,
            pb,
            used,
            x,
            b as i64,
        ) {
            1int
        } else {
            0int
        })
    }
}

/// One greedy step of the tour: the next element is unused, and it is
/// a still-unused neighbour of the current head with the fewest
/// still-unused neighbours of its own — unless the head has none left,
/// in which case any unused node may follow.
pub open spec fn edge_step_ok(pa: Seq<i64>, pb: Seq<i64>, child: Seq<i64>, k: int) -> bool {
    let l = pa.len() as int;
    let h = child[k];
    let used = child.take(k + 1);
    let nxt = child[k + 1];
    &&& !used.contains(nxt)
    &&& 1 <= nxt <= l
    &&& (exists|y: i64| 1 <= y <= l && live_adj(pa, pb, used, h, y)) ==> (live_adj(
        pa,
        pb,
        used,
        h,
        nxt,
    ) && forall|y: i64|
        1 <= y <= l && live_adj(pa, pb, used, h, y) ==> live_deg(pa, pb, used, nxt, l)
            <= live_deg(pa, pb, used, y, l))
}

/// A sorted duplicate-free list holding exactly the still-unused
/// neighbours of `x` among `1..=b` is as long as that count.
proof fn lemma_row_len_is_deg(
    row: Seq<i64>,
    pa: Seq<i64>,
    pb: Seq<i64>,
    used: Seq<i64>,
    x: i64,
    b: int,
)
    requires
        sorted_unique(row),
        forall|y: i64|
            #[trigger] row.contains(y) <==> (1 <= y <= b && live_adj(pa, pb, used, x, y)),
        0 <= b <= 1_000_000,
    ensures
        row.len() == live_deg(pa, pb, used, x, b),
    decreases b,
{
    if b == 0 {
        if row.len() > 0 {
            assert(row.contains(row[0]));
            assert(false);
        }
    } else {
        if live_adj(pa, pb, used, x, b as i64) {
            assert(row.contains(b as i64));
            let bi = choose|bi: int| 0 <= bi < row.len() && row[bi] == b as i64;
            // the bound value is the last element of the sorted row
            assert forall|m: int| 0 <= m < row.len() implies row[m] <= b as i64 by {
                assert(row.contains(row[m]));
            }
            assert(bi == row.len() - 1) by {
                if bi < row.len() - 1 {
                    assert(row[bi] < row[row.len() - 1]);
                }
            }
            let row2 = row.drop_last();
            assert forall|y: i64|
                #[trigger] row2.contains(y) <==> (1 <= y <= b - 1 && live_adj(
                pa,
                pb,
                used,
                x,
                y,
            )) by {
                if row2.contains(y) {
                    let m = choose|m: int| 0 <= m < row2.len() && row2[m] == y;
                    assert(row[m] == y);
                    assert(row.contains(y));
                    assert(row[m] < row[row.len() - 1]);
                }
                if 1 <= y <= b - 1 && live_adj(pa, pb, used, x, y) {
                    assert(row.contains(y));
                    let m = choose|m: int| 0 <= m < row.len() && row[m] == y;
                    assert(m != row.len() - 1);
                    assert(row2[m] == y);
                    assert(row2.contains(y));
                }
            }
            lemma_row_len_is_deg(row2, pa, pb, used, x, b - 1);
        } else {
            assert forall|y: i64|
                #[trigger] row.contains(y) <==> (1 <= y <= b - 1 && live_adj(
                pa,
                pb,
                used,
                x,
                y,
            )) by {
                if row.contains(y) {
                    assert(1 <= y <= b && live_adj(pa, pb, used, x, y));
                    assert(y != b as i64);
                }
            }
            lemma_row_len_is_deg(row, pa, pb, used, x, b - 1);
        }
    }
}

/// The loop state: every neighbour list holds only in-range values the
/// tour has not used yet (except possibly the current head).
pub open spec fn nl_wf(nl: Seq<Vec<i64>>, child: Seq<i64>, head: i64, l: int) -> bool {
    &&& nl.len() == l
    &&& forall|k: int| 0 <= k < l ==> sorted_unique(#[trigger] nl[k]@)
    &&& forall|k: int, x: i64|
        0 <= k < l && nl[k]@.contains(x) ==> 1 <= x <= l && (!child.contains(x) || x == head)
}

/// `y` stands next to `x` at one of the first `bound` positions of the
/// cyclic tour `p`.
pub open spec fn is_adj_upto(p: Seq<i64>, x: i64, y: i64, bound: int) -> bool {
    exists|i: int|
        0 <= i < bound && i < p.len() && #[trigger] p[i] == x && (y == p[cyc_prev(
            p.len() as int,
            i,
        )] || y == p[cyc_next(p.len() as int, i)])
}

/// Record in `nl` the two cyclic neighbours of every position of `p`:
/// afterwards, row `x - 1` holds exactly what it held before plus the
/// neighbours of `x` on `p`'s cycle.
fn add_adjacencies(nl: Vec<Vec<i64>>, p: &Vec<i64>, Ghost(child): Ghost<Seq<i64>>, head: i64) -> (r:
    Vec<Vec<i64>>)
    requires
        is_perm_full(p@, p@.len() as int),
        1 <= p@.len() <= 1_000_000,
        nl@.len() == p@.len(),
        nl_wf(nl@, child, head, p@.len() as int),
        forall|x: i64| 1 <= x <= p@.len() ==> !child.contains(x) || x == head,
    ensures
        r@.len() == p@.len(),
        nl_wf(r@, child, head, p@.len() as int),
        forall|x: i64, y: i64|
            1 <= x <= p@.len() ==> (#[trigger] r@[x - 1]@.contains(y) <==> (nl@[x - 1]@.contains(
                y,
            ) || is_adj_in(p@, x, y))),
{
    let ghost l = p@.len() as int;
    let ghost nl0 = nl@;
    let mut nl = nl;
    let mut i: usize = 0;
    while i < p.len()
        invariant
            0 <= i <= l,
            l == p@.len(),
            1 <= l <= 1_000_000,
            is_perm_full(p@, l),
            nl@.len() == l,
            nl0.len() == l,
            nl_wf(nl@, child, head, l),
            forall|x: i64| 1 <= x <= l ==> !child.contains(x) || x == head,
            forall|x: i64, y: i64|
                1 <= x <= l ==> (#[trigger] nl@[x - 1]@.contains(y) <==> (nl0[x - 1]@.contains(y)
                    || is_adj_upto(p@, x, y, i as int))),
        decreases l - i,
    {
        let node = p[i];
        let before = if i == 0 {
            p[p.len() - 1]
        } else {
            p[i - 1]
        };
        let after = if i == p.len() - 1 {
            p[0]
        } else {
            p[i + 1]
        };
        proof {
            assert(before == p@[cyc_prev(l, i as int)]);
            assert(after == p@[cyc_next(l, i as int)]);
        }
        let idx = (node - 1) as usize;
        let row = &nl[idx];
        let mut row2 = row.clone();
        proof {
            assert(row2@ =~= nl@[idx as int]@);
        }
        insert_sorted(&mut row2, before);
        insert_sorted(&mut row2, after);
        let ghost pre_nl = nl@;
        nl.set(idx, row2);
        proof {
            assert forall|x: i64, y: i64|
                1 <= x <= l implies (#[trigger] nl@[x - 1]@.contains(y) <==> (nl0[x
                - 1]@.contains(y) || is_adj_upto(p@, x, y, i as int + 1))) by {
                if x == node {
                    if nl@[x - 1]@.contains(y) {
                        if y == before || y == after {
                            assert(p@[i as int] == x);
                            assert(is_adj_upto(p@, x, y, i as int + 1));
                        } else {
                            assert(pre_nl[x - 1]@.contains(y));
                        }
                    }
                    if nl0[x - 1]@.contains(y) {
                        assert(pre_nl[x - 1]@.contains(y));
                        assert(nl@[x - 1]@.contains(y));
                    }
                    if is_adj_upto(p@, x, y, i as int + 1) {
                        let w = choose|w: int|
                            0 <= w < i as int + 1 && w < p@.len() && p@[w] == x && (y
                                == p@[cyc_prev(p@.len() as int, w)] || y == p@[cyc_next(
                                p@.len() as int,
                                w,
                            )]);
                        if w < i as int {
                            assert(is_adj_upto(p@, x, y, i as int));
                            assert(pre_nl[x - 1]@.contains(y));
                            assert(nl@[x - 1]@.contains(y));
                        } else {
                            assert(y == before || y == after);
                            assert(nl@[x - 1]@.contains(y));
                        }
                    }
                } else {
                    assert(nl@[x - 1]@ == pre_nl[x - 1]@);
                    if is_adj_upto(p@, x, y, i as int + 1) {
                        let w = choose|w: int|
                            0 <= w < i as int + 1 && w < p@.len() && p@[w] == x && (y
                                == p@[cyc_prev(p@.len() as int, w)] || y == p@[cyc_next(
                                p@.len() as int,
                                w,
                            )]);
                        assert(w != i as int);
                        assert(is_adj_upto(p@, x, y, i as int));
                    }
                    if is_adj_upto(p@, x, y, i as int) {
                        assert(is_adj_upto(p@, x, y, i as int + 1));
                    }
                }
            }
        }
        i = i + 1;
    }
    proof {
        assert forall|x: i64, y: i64|
            1 <= x <= l implies (#[trigger] nl@[x - 1]@.contains(y) <==> (nl0[x - 1]@.contains(y)
                || is_adj_in(p@, x, y))) by {
            if is_adj_upto(p@, x, y, l) {
                assert(is_adj_in(p@, x, y));
            }
            if is_adj_in(p@, x, y) {
                assert(is_adj_upto(p@, x, y, l));
            }
        }
    }
    nl
}

/// Every neighbour row is exactly the live set of its node: row
/// `x - 1` holds the still-unused neighbours of `x`.
pub open spec fn nl_live(
    nl: Seq<Vec<i64>>,
    pa: Seq<i64>,
    pb: Seq<i64>,
    used: Seq<i64>,
    l: int,
) -> bool {
    forall|x: i64, y: i64|
        1 <= x <= l ==> (#[trigger] nl[x - 1]@.contains(y) <==> (1 <= y <= l && live_adj(
            pa,
            pb,
            used,
            x,
            y,
        )))
}

/// A greedy step stays a greedy step when the tour grows further.
proof fn lemma_step_ok_push(pa: Seq<i64>, pb: Seq<i64>, child: Seq<i64>, e: i64, k: int)
    requires
        0 <= k < child.len() - 1,
        edge_step_ok(pa, pb, child, k),
    ensures
        edge_step_ok(pa, pb, child.push(e), k),
{
    assert(child.push(e).take(k + 1) =~= child.take(k + 1));
    assert(child.push(e)[k] == child[k]);
    assert(child.push(e)[k + 1] == child[k + 1]);
}

/// Grow one child tour from `pa[0]`, over the union of both parents'
/// adjacencies; the result uses each node exactly once.
pub fn edge_child(pa: &Vec<i64>, pb: &Vec<i64>) -> (r: Vec<i64>)
    requires
        is_perm_full(pa@, pa@.len() as int),
        is_perm_full(pb@, pa@.len() as int),
        pb@.len() == pa@.len(),
        1 <= pa@.len() <= 1_000_000,
    ensures
        is_perm_full(r@, pa@.len() as int),
        r@[0] == pa@[0],
        forall|k: int| 0 <= k < r@.len() - 1 ==> edge_step_ok(pa@, pb@, r@, k),
{
    let ghost l = pa@.len() as int;
    let l_exec = pa.len();
    let mut child: Vec<i64> = Vec::new();
    let head0 = pa[0];
    child.push(head0);
    let mut head = head0;
    // neighbour lists over both parents
    let mut nl: Vec<Vec<i64>> = Vec::new();
    let mut k: usize = 0;
    while k < l_exec
        invariant
            0 <= k <= l,
            l == pa@.len(),
            l_exec == l,
            nl@.len() == k,
            forall|q: int| 0 <= q < k ==> #[trigger] nl@[q]@.len() == 0,
        decreases l - k,
    {
        let row: Vec<i64> = Vec::new();
        nl.push(row);
        k = k + 1;
    }
    proof {
        assert(child@ =~= seq![head0]);
        assert(nl_wf(nl@, child@, head, l));
    }
    let ghost nl_init = nl@;
    let nl1 = add_adjacencies(nl, pa, Ghost(child@), head);
    let ghost nl1v = nl1@;
    let mut nl = add_adjacencies(nl1, pb, Ghost(child@), head);
    proof {
        assert(child@.take(0) =~= Seq::<i64>::empty());
        assert forall|x: i64, y: i64|
            1 <= x <= l implies (#[trigger] nl@[x - 1]@.contains(y) <==> (1 <= y <= l && live_adj(
            pa@,
            pb@,
            child@.take(0),
            x,
            y,
        ))) by {
            assert(!Seq::<i64>::empty().contains(y));
            assert(nl_init[x - 1]@.len() == 0);
            if nl_init[x - 1]@.contains(y) {
                assert(false);
            }
            if is_adj_in(pa@, x, y) {
                let w = choose|w: int|
                    0 <= w < pa@.len() && #[trigger] pa@[w] == x && (y == pa@[cyc_prev(
                        pa@.len() as int,
                        w,
                    )] || y == pa@[cyc_next(pa@.len() as int, w)]);
                assert(1 <= y <= l);
            }
            if is_adj_in(pb@, x, y) {
                let w = choose|w: int|
                    0 <= w < pb@.len() && #[trigger] pb@[w] == x && (y == pb@[cyc_prev(
                        pb@.len() as int,
                        w,
                    )] || y == pb@[cyc_next(pb@.len() as int, w)]);
                assert(1 <= y <= l);
            }
        }
    }
    // unused node pool, ascending
    let mut inserted: Vec<i64> = Vec::new();
    let mut k2: usize = 0;
    while k2 < l_exec
        invariant
            0 <= k2 <= l,
            l_exec == l,
            1 <= l <= 1_000_000,
            inserted@.len() == k2,
            forall|q: int| 0 <= q < k2 ==> #[trigger] inserted@[q] == q + 1,
        decreases l - k2,
    {
        let val = (k2 + 1) as i64;
        inserted.push(val);
        k2 = k2 + 1;
    }
    proof {
        assert(sorted_unique(inserted@));
        assert forall|x: i64| inserted@.contains(x) implies 1 <= x <= l by {
            let q = choose|q: int| 0 <= q < inserted@.len() && inserted@[q] == x;
        }
        assert forall|x: i64| 1 <= x <= l implies inserted@.contains(x) by {
            assert(inserted@[x - 1] == x);
        }
    }
    while child.len() < l_exec
        invariant
            l == pa@.len(),
            l_exec == l,
            1 <= l <= 1_000_000,
            pb@.len() == l,
            is_perm_full(pa@, l),
            is_perm_full(pb@, l),
            1 <= child@.len() <= l,
            child@[0] == pa@[0],
            child@.last() == head,
            1 <= head <= l,
            forall|q: int| 0 <= q < child@.len() ==> 1 <= #[trigger] child@[q] <= l,
            forall|q: int, q2: int| 0 <= q < q2 < child@.len() ==> child@[q] != child@[q2],
            nl_wf(nl@, child@, head, l),
            nl_live(nl@, pa@, pb@, child@.take(child@.len() - 1), l),
            forall|k: int| 0 <= k < child@.len() - 1 ==> edge_step_ok(pa@, pb@, child@, k),
            sorted_unique(inserted@),
            forall|x: i64|
                inserted@.contains(x) <==> (1 <= x <= l && (!child@.contains(x) || x == head)),
            inserted@.len() == l - child@.len() + 1,
        decreases l - child@.len(),
    {
        let ghost child0 = child@;
        let ghost oldhead = head;
        let ghost pre_inserted = inserted@;
        let ghost used0 = child0.take(child0.len() - 1);
        // the head is now used: retire it everywhere
        proof {
            assert(inserted@.contains(head));
            assert(child0.contains(oldhead)) by {
                assert(child0[child0.len() - 1] == oldhead);
            }
            assert forall|y: i64| child0.contains(y) <==> (used0.contains(y) || y
                == oldhead) by {
                if child0.contains(y) {
                    let q = choose|q: int| 0 <= q < child0.len() && child0[q] == y;
                    if q < child0.len() - 1 {
                        assert(used0[q] == y);
                    }
                }
                if used0.contains(y) {
                    let q = choose|q: int| 0 <= q < used0.len() && used0[q] == y;
                    assert(child0[q] == y);
                }
            }
        }
        remove_val(&mut inserted, head);
        proof {
            assert forall|k: int, y: i64|
                0 <= k < l implies (#[trigger] nl@[k]@.contains(y) <==> (1 <= y <= l && live_adj(
                pa@,
                pb@,
                used0,
                (k + 1) as i64,
                y,
            ))) by {
                let x = (k + 1) as i64;
                assert(1 <= x <= l);
                assert(nl@[x - 1]@.contains(y) <==> (1 <= y <= l && live_adj(
                    pa@,
                    pb@,
                    child0.take(child0.len() - 1),
                    x,
                    y,
                )));
            }
        }
        let mut k3: usize = 0;
        while k3 < l_exec
            invariant
                0 <= k3 <= l,
                l_exec == l,
                nl@.len() == l,
                1 <= head <= l,
                head == oldhead,
                forall|y: i64| child0.contains(y) <==> (used0.contains(y) || y == oldhead),
                forall|k: int| 0 <= k < l ==> sorted_unique(#[trigger] nl@[k]@),
                forall|k: int, x: i64|
                    0 <= k < l && nl@[k]@.contains(x) ==> 1 <= x <= l && (!child0.contains(x)
                        || x == head),
                forall|k: int, x: i64| 0 <= k < k3 && nl@[k]@.contains(x) ==> x != head,
                forall|k: int, y: i64|
                    0 <= k < k3 ==> (#[trigger] nl@[k]@.contains(y) <==> (1 <= y <= l && live_adj(
                        pa@,
                        pb@,
                        child0,
                        (k + 1) as i64,
                        y,
                    ))),
                forall|k: int, y: i64|
                    k3 <= k < l ==> (#[trigger] nl@[k]@.contains(y) <==> (1 <= y <= l && live_adj(
                        pa@,
                        pb@,
                        used0,
                        (k + 1) as i64,
                        y,
                    ))),
            decreases l - k3,
        {
            let row = &nl[k3];
            let mut row2 = row.clone();
            proof {
                assert(row2@ =~= nl@[k3 as int]@);
                assert(nl@[k3 as int]@.contains(row2@[0]) || row2@.len() == 0) by {
                    if row2@.len() > 0 {
                        assert(nl@[k3 as int]@[0] == row2@[0]);
                    }
                }
            }
            remove_val(&mut row2, head);
            nl.set(k3, row2);
            proof {
                assert forall|y: i64|
                    #[trigger] nl@[k3 as int]@.contains(y) <==> (1 <= y <= l && live_adj(
                    pa@,
                    pb@,
                    child0,
                    (k3 as int + 1) as i64,
                    y,
                )) by {
                }
            }
            k3 = k3 + 1;
        }
        let hidx = (head - 1) as usize;
        proof {
            // rows now reflect the whole used tour
            assert forall|k: int, y: i64|
                0 <= k < l implies (#[trigger] nl@[k]@.contains(y) <==> (1 <= y <= l && live_adj(
                pa@,
                pb@,
                child0,
                (k + 1) as i64,
                y,
            ))) by {
            }
        }
        if nl[hidx].len() == 0 {
            // dead end: jump to a random unused node
            proof {
                // the head has no live neighbour left
                assert forall|y: i64|
                    !(1 <= y <= l && live_adj(pa@, pb@, child0, oldhead, y)) by {
                    if 1 <= y <= l && live_adj(pa@, pb@, child0, oldhead, y) {
                        assert((hidx as int + 1) as i64 == oldhead);
                        assert(nl@[hidx as int]@.contains(y));
                        assert(nl@[hidx as int]@[0] == y || nl@[hidx as int]@.len() > 0);
                        assert(false);
                    }
                }
            }
            let pick = rand_below(inserted.len());
            head = inserted[pick];
            proof {
                assert(inserted@.contains(head));
                assert(pre_inserted.contains(head) && head != oldhead);
                assert(!child0.contains(head));
            }
        } else {
            // move to the neighbour with the fewest remaining
            // neighbours, breaking ties at random
            let row = &nl[hidx];
            let mut min: usize = l_exec;
            let mut candidates: Vec<i64> = Vec::new();
            let mut j: usize = 0;
            while j < row.len()
                invariant
                    0 <= j <= row@.len(),
                    row@ == nl@[hidx as int]@,
                    nl@.len() == l,
                    l_exec == l,
                    1 <= l <= 1_000_000,
                    0 <= hidx < l,
                    (hidx as int + 1) as i64 == oldhead,
                    forall|k: int| 0 <= k < l ==> sorted_unique(#[trigger] nl@[k]@),
                    forall|k: int, x: i64|
                        0 <= k < l && nl@[k]@.contains(x) ==> 1 <= x <= l && (!child0.contains(x)
                            || x == head) && x != head,
                    forall|k: int, y: i64|
                        0 <= k < l ==> (#[trigger] nl@[k]@.contains(y) <==> (1 <= y <= l
                            && live_adj(pa@, pb@, child0, (k + 1) as i64, y))),
                    min <= l,
                    j == 0 ==> min == l,
                    j >= 1 ==> candidates@.len() >= 1,
                    forall|q: int|
                        0 <= q < candidates@.len() ==> row@.contains(#[trigger] candidates@[q]),
                    forall|q: int|
                        0 <= q < candidates@.len() ==> live_deg(
                            pa@,
                            pb@,
                            child0,
                            #[trigger] candidates@[q],
                            l,
                        ) == min as int,
                    forall|m: int|
                        0 <= m < j ==> live_deg(pa@, pb@, child0, #[trigger] row@[m], l)
                            >= min as int,
                decreases row@.len() - j,
            {
                let node = row[j];
                proof {
                    assert(row@.contains(node));
                    assert(1 <= node <= l);
                    let nrow = nl@[node - 1]@;
                    assert forall|a: int| 0 <= a < nrow.len() implies 1 <= #[trigger] nrow[a]
                        <= l by {
                        assert(nrow.contains(nrow[a]));
                    }
                    assert forall|a: int, b: int| 0 <= a < b < nrow.len() implies nrow[a]
                        != nrow[b] by {
                        assert(nrow[a] < nrow[b]);
                    }
                    lemma_distinct_bounded(nrow, 1, l);
                    // the row length is the node's live degree
                    assert((node - 1 + 1) as i64 == node);
                    assert forall|y: i64|
                        #[trigger] nrow.contains(y) <==> (1 <= y <= l && live_adj(
                        pa@,
                        pb@,
                        child0,
                        node,
                        y,
                    )) by {
                        assert(nl@[node - 1]@.contains(y) <==> (1 <= y <= l && live_adj(
                            pa@,
                            pb@,
                            child0,
                            (node - 1 + 1) as i64,
                            y,
                        )));
                    }
                    lemma_row_len_is_deg(nrow, pa@, pb@, child0, node, l);
                }
                let nidx = (node - 1) as usize;
                let deg = nl[nidx].len();
                if deg < min {
                    let mut fresh: Vec<i64> = Vec::new();
                    fresh.push(node);
                    candidates = fresh;
                    min = deg;
                } else if deg == min {
                    candidates.push(node);
                }
                proof {
                    assert forall|q: int|
                        0 <= q < candidates@.len() implies row@.contains(
                        #[trigger] candidates@[q],
                    ) by {
                    }
                }
                j = j + 1;
            }
            let ci = if candidates.len() == 1 {
                0
            } else {
                rand_below(candidates.len())
            };
            head = candidates[ci];
            proof {
                assert(row@.contains(head));
                assert(nl@[hidx as int]@.contains(head));
                assert(!child0.contains(head) && head != oldhead && 1 <= head <= l);
                assert(pre_inserted.contains(head));
                assert(inserted@.contains(head));
                // the chosen neighbour is live and of minimal live degree
                assert(live_adj(pa@, pb@, child0, oldhead, head));
                assert(live_deg(pa@, pb@, child0, head, l) == min as int);
                assert forall|y: i64|
                    1 <= y <= l && live_adj(pa@, pb@, child0, oldhead, y) implies live_deg(
                    pa@,
                    pb@,
                    child0,
                    head,
                    l,
                ) <= live_deg(pa@, pb@, child0, y, l) by {
                    assert(nl@[hidx as int]@.contains(y));
                    let m = choose|m: int| 0 <= m < row@.len() && row@[m] == y;
                    assert(live_deg(pa@, pb@, child0, row@[m], l) >= min as int);
                }
            }
        }
        child.push(head);
        proof {
            assert(!child0.contains(head));
            assert(child@ =~= child0.push(head));
            assert(child0.contains(oldhead)) by {
                assert(child0[child0.len() - 1] == oldhead);
            }
            assert forall|x: i64| child@.contains(x) implies (child0.contains(x) || x == head) by {
                let q = choose|q: int| 0 <= q < child@.len() && child@[q] == x;
                if q < child0.len() {
                    assert(child0[q] == x);
                }
            }
            assert forall|x: i64| child0.contains(x) implies child@.contains(x) by {
                let q = choose|q: int| 0 <= q < child0.len() && child0[q] == x;
                assert(child@[q] == x);
            }
            assert(child@.contains(head)) by {
                assert(child@[child@.len() - 1] == head);
            }
            assert forall|x: i64|
                inserted@.contains(x) <==> (1 <= x <= l && (!child@.contains(x) || x
                == head)) by {
                if inserted@.contains(x) {
                    assert(pre_inserted.contains(x) && x != oldhead);
                    assert(1 <= x <= l);
                    assert(!child0.contains(x) || x == oldhead);
                }
                if 1 <= x <= l && (!child@.contains(x) || x == head) {
                    if x == head {
                        assert(inserted@.contains(x));
                    } else {
                        assert(!child0.contains(x) && x != oldhead);
                        assert(pre_inserted.contains(x));
                        assert(inserted@.contains(x));
                    }
                }
            }
            assert forall|k: int, x: i64|
                0 <= k < l && nl@[k]@.contains(x) implies 1 <= x <= l && (!child@.contains(x) || x
                == head) by {
                if child@.contains(x) && x != head {
                    assert(child0.contains(x) || x == head);
                }
            }
            // the rows still mirror the tour used so far
            assert(child@.take(child@.len() - 1) =~= child0);
            assert forall|x: i64, y: i64|
                1 <= x <= l implies (#[trigger] nl@[x - 1]@.contains(y) <==> (1 <= y <= l
                && live_adj(pa@, pb@, child@.take(child@.len() - 1), x, y))) by {
                assert(nl@[x - 1]@.contains(y) <==> (1 <= y <= l && live_adj(
                    pa@,
                    pb@,
                    child0,
                    (x - 1 + 1) as i64,
                    y,
                )));
                assert((x - 1 + 1) as i64 == x);
            }
            // the fresh head is a greedy step, and the earlier steps stand
            let ghost k0 = child0.len() - 1;
            assert(edge_step_ok(pa@, pb@, child@, k0)) by {
                assert(child@.take(k0 + 1) =~= child0);
                assert(child@[k0] == oldhead);
                assert(child@[k0 + 1] == head);
                if exists|y: i64| 1 <= y <= l && live_adj(pa@, pb@, child0, oldhead, y) {
                    let y0 = choose|y: i64|
                        1 <= y <= l && live_adj(pa@, pb@, child0, oldhead, y);
                    assert(live_adj(pa@, pb@, child0, oldhead, head));
                }
            }
            assert forall|k: int|
                0 <= k < child@.len() - 1 implies edge_step_ok(pa@, pb@, child@, k) by {
                if k < k0 {
                    lemma_step_ok_push(pa@, pb@, child0, head, k);
                    assert(child@ == child0.push(head));
                }
            }
        }
    }
    proof {
        lemma_distinct_full(child@, l);
    }
    child
}

} // verus!
