//! Choice of the energy of one probe from an ensemble of hardness samples.
use vstd::prelude::*;

use crate::grid::{cell_index, in_bounds, Grid, Point};
use crate::SetMinMax;

verus! {

/// Lowest energy level that the search considers.
pub const MIN_POWER: u32 = 10;

/// Highest energy level that the search considers.
pub const MAX_POWER: u32 = 5000;

/// Highest hardness that a cell can have.
pub const MAX_HARDNESS: u32 = 5000;

/// Energy of a probe, and its cost, when nothing is left to estimate from.
pub const DEFAULT_POWER: u32 = 100;

/// Every sample of the ensemble holds one value per cell, none above the
/// highest hardness.
pub open spec fn ensemble_ok(h: Seq<Grid<u32>>) -> bool {
    forall|k: int|
        0 <= k < h.len() ==> {
            &&& #[trigger] h[k].wf()
            &&& forall|i: int| 0 <= i < h[k].view().len() ==> h[k].view()[i] <= MAX_HARDNESS
        }
}

/// What remains of each sample of the cell after `s` was spent on it, for the
/// samples that `s` does not reach, in ensemble order.
pub open spec fn residuals(h: Seq<Grid<u32>>, p: Point, s: u32) -> Seq<u32>
    decreases h.len(),
{
    if h.len() == 0 {
        Seq::empty()
    } else {
        let rest = residuals(h.drop_last(), p, s);
        let v = h.last().view()[cell_index(p)];
        if s < v {
            rest.push((v - s) as u32)
        } else {
            rest
        }
    }
}

/// Number of probes of energy `q` that break a residual hardness `d`.
pub open spec fn probes(d: int, q: int) -> int {
    (d + q - 1) / q
}

/// Total cost, over the samples `v`, of probing with energy `q` until each
/// sample breaks, every probe costing `c + q`.
pub open spec fn probe_cost(v: Seq<u32>, c: int, q: int) -> int
    decreases v.len(),
{
    if v.len() == 0 {
        0
    } else {
        probe_cost(v.drop_last(), c, q) + (c + q) * probes(v.last() as int, q)
    }
}

/// The energy at which an upward scan from `q` first stops improving the cost.
pub open spec fn stop_point(v: Seq<u32>, c: int, q: int) -> int
    decreases MAX_POWER - q,
{
    if q >= MAX_POWER {
        MAX_POWER as int
    } else if probe_cost(v, c, q + 1) >= probe_cost(v, c, q) {
        q
    } else {
        stop_point(v, c, q + 1)
    }
}

/// Recommended energy and expected total cost for the residual samples `v`.
pub open spec fn recommend_spec(v: Seq<u32>, c: int) -> (int, int) {
    if v.len() == 0 {
        (DEFAULT_POWER as int, DEFAULT_POWER + c)
    } else if v.len() == 1 {
        (v[0] as int, v[0] + c)
    } else {
        let q = stop_point(v, c, MIN_POWER as int);
        (q, probe_cost(v, c, q))
    }
}

/// What a recommendation for `n` residual samples and overhead `c` computes
/// fits in `u32`: a residual or the default plus the overhead, or, for two or
/// more samples, the costs of the search.
pub open spec fn search_fits(n: int, c: int) -> bool {
    if n <= 1 {
        c + MAX_HARDNESS <= u32::MAX
    } else {
        cost_fits(n, c)
    }
}

pub proof fn lemma_residuals_len(h: Seq<Grid<u32>>, p: Point, s: u32)
    ensures
        residuals(h, p, s).len() <= h.len(),
    decreases h.len(),
{
    if h.len() > 0 {
        lemma_residuals_len(h.drop_last(), p, s);
    }
}

/// An overhead whose search costs fit for the whole ensemble fits for what
/// remains of it after any spend.
pub proof fn lemma_search_fits(h: Seq<Grid<u32>>, p: Point, s: u32, c: int)
    requires
        cost_fits(h.len() as int, c),
        c >= 0,
    ensures
        search_fits(residuals(h, p, s).len() as int, c),
{
    lemma_residuals_len(h, p, s);
    let n = residuals(h, p, s).len() as int;
    assert(500 * c + 10000 <= u32::MAX) by (nonlinear_arith)
        requires cost_fits(h.len() as int, c), c >= 0;
    assert(cost_fits(n, c)) by (nonlinear_arith)
        requires n <= h.len(), cost_fits(h.len() as int, c), c >= 0;
}

/// The costs of the search fit in `u32` for `n` samples and overhead `c`.
pub open spec fn cost_fits(n: int, c: int) -> bool {
    (n + 1) * (500 * c + 10000) <= u32::MAX
}

proof fn lemma_term_bound(d: int, q: int, c: int)
    requires
        1 <= d <= MAX_HARDNESS,
        MIN_POWER <= q <= MAX_POWER,
        0 <= c,
    ensures
        0 <= (c + q) * probes(d, q) <= 500 * c + 10000,
{
    let k = probes(d, q);
    vstd::arithmetic::div_mod::lemma_fundamental_div_mod(d + q - 1, q);
    vstd::arithmetic::div_mod::lemma_div_pos_is_pos(d + q - 1, q);
    assert(k * q <= d + q - 1) by {
        vstd::arithmetic::div_mod::lemma_mod_pos_bound(d + q - 1, q);
        vstd::arithmetic::mul::lemma_mul_is_commutative(k, q);
    }
    assert(0 <= (c + q) * k <= 500 * c + 10000) by (nonlinear_arith)
        requires
            k * q <= d + q - 1,
            k >= 0,
            1 <= d <= 5000,
            10 <= q <= 5000,
            0 <= c,
    {
        assert((k - 1) * q <= 4999);
        if k > 500 {
            assert((k - 1) * q >= 500 * q);
        }
        assert(k <= 500);
        assert(c * k <= c * 500);
    }
}

proof fn lemma_cost_bound(v: Seq<u32>, c: int, q: int)
    requires
        forall|i: int| 0 <= i < v.len() ==> 1 <= #[trigger] v[i] <= MAX_HARDNESS,
        MIN_POWER <= q <= MAX_POWER,
        0 <= c,
    ensures
        0 <= probe_cost(v, c, q) <= v.len() * (500 * c + 10000),
    decreases v.len(),
{
    if v.len() > 0 {
        lemma_cost_bound(v.drop_last(), c, q);
        lemma_term_bound(v.last() as int, q, c);
        assert((v.len() - 1) * (500 * c + 10000) + (500 * c + 10000) == v.len() * (500 * c + 10000))
            by (nonlinear_arith);
    }
}

proof fn lemma_stop_point(v: Seq<u32>, c: int, q: int, q0: int)
    requires
        MIN_POWER <= q <= q0 <= MAX_POWER,
        forall|x: int| q <= x < q0 ==> #[trigger] probe_cost(v, c, x + 1) < probe_cost(v, c, x),
        q0 == MAX_POWER || probe_cost(v, c, q0 + 1) >= probe_cost(v, c, q0),
    ensures
        stop_point(v, c, q) == q0,
    decreases q0 - q,
{
    if q < q0 {
        assert(probe_cost(v, c, q + 1) < probe_cost(v, c, q));
        lemma_stop_point(v, c, q + 1, q0);
    }
}

proof fn lemma_cost_positive(v: Seq<u32>, c: int, q: int)
    requires
        v.len() >= 1,
        forall|i: int| 0 <= i < v.len() ==> 1 <= #[trigger] v[i] <= MAX_HARDNESS,
        MIN_POWER <= q <= MAX_POWER,
        0 <= c,
    ensures
        probe_cost(v, c, q) >= 1,
    decreases v.len(),
{
    let d = v.last() as int;
    assert(probes(d, q) >= 1) by {
        vstd::arithmetic::div_mod::lemma_div_is_ordered(q, d + q - 1, q);
        vstd::arithmetic::div_mod::lemma_div_by_self(q);
    }
    assert((c + q) * probes(d, q) >= 1) by (nonlinear_arith)
        requires c + q >= 1, probes(d, q) >= 1;
    let u = v.drop_last();
    assert forall|i: int| 0 <= i < u.len() implies 1 <= #[trigger] u[i] <= MAX_HARDNESS by {
        assert(u[i] == v[i]);
    }
    lemma_cost_bound(u, c, q);
    assert(probe_cost(v, c, q) == probe_cost(u, c, q) + (c + q) * probes(d, q));
}

/// A scan that has only seen the cost decrease so far stops at a local
/// minimum of the cost curve.
proof fn lemma_stop_point_local_min(v: Seq<u32>, c: int, q: int)
    requires
        MIN_POWER <= q <= MAX_POWER,
        forall|x: int| MIN_POWER <= x < q ==> #[trigger] probe_cost(v, c, x + 1) < probe_cost(v, c, x),
    ensures
        q <= stop_point(v, c, q) <= MAX_POWER,
        stop_point(v, c, q) > MIN_POWER ==> probe_cost(v, c, stop_point(v, c, q) - 1) > probe_cost(
            v,
            c,
            stop_point(v, c, q),
        ),
        stop_point(v, c, q) < MAX_POWER ==> probe_cost(v, c, stop_point(v, c, q) + 1) >= probe_cost(
            v,
            c,
            stop_point(v, c, q),
        ),
    decreases MAX_POWER - q,
{
    let sp = stop_point(v, c, q);
    if q > MIN_POWER {
        assert(probe_cost(v, c, (q - 1) + 1) < probe_cost(v, c, q - 1));
    }
    if q < MAX_POWER && probe_cost(v, c, q + 1) < probe_cost(v, c, q) {
        assert forall|x: int| MIN_POWER <= x < q + 1 implies #[trigger] probe_cost(v, c, x + 1)
            < probe_cost(v, c, x) by {
            if x == q {
            }
        }
        lemma_stop_point_local_min(v, c, q + 1);
        assert(sp == stop_point(v, c, q + 1));
    }
}

/// For two or more residual samples, the recommended energy lies in the
/// scanned range, its cost is the cost curve's value there, and it is a local
/// minimum of that curve: one level lower costs strictly more, one level higher
/// costs no less.
pub proof fn lemma_recommendation_is_local_minimum(v: Seq<u32>, c: int)
    requires
        v.len() >= 2,
    ensures
        MIN_POWER <= recommend_spec(v, c).0 <= MAX_POWER,
        recommend_spec(v, c).1 == probe_cost(v, c, recommend_spec(v, c).0),
        recommend_spec(v, c).0 > MIN_POWER ==> probe_cost(v, c, recommend_spec(v, c).0 - 1)
            > recommend_spec(v, c).1,
        recommend_spec(v, c).0 < MAX_POWER ==> probe_cost(v, c, recommend_spec(v, c).0 + 1)
            >= recommend_spec(v, c).1,
{
    lemma_stop_point_local_min(v, c, MIN_POWER as int);
}

/// Cost of probing every sample of `v` with energy `q`.
fn cost_at(v: &Vec<u32>, c: u32, q: u32) -> (r: u32)
    requires
        forall|i: int| 0 <= i < v@.len() ==> 1 <= #[trigger] v@[i] <= MAX_HARDNESS,
        MIN_POWER <= q <= MAX_POWER,
        cost_fits(v@.len() as int, c as int),
    ensures
        r == probe_cost(v@, c as int, q as int),
{
    let mut total: u32 = 0;
    let mut j: usize = 0;
    while j < v.len()
        invariant
            j <= v@.len(),
            forall|i: int| 0 <= i < v@.len() ==> 1 <= #[trigger] v@[i] <= MAX_HARDNESS,
            MIN_POWER <= q <= MAX_POWER,
            cost_fits(v@.len() as int, c as int),
            total == probe_cost(v@.take(j as int), c as int, q as int),
        decreases v@.len() - j,
    {
        let d = v[j];
        proof {
            let t = v@.take(j as int + 1);
            assert(t.drop_last() =~= v@.take(j as int));
            lemma_cost_bound(t, c as int, q as int);
            lemma_term_bound(d as int, q as int, c as int);
            assert(500 * c + 10000 <= u32::MAX) by (nonlinear_arith)
                requires cost_fits(v@.len() as int, c as int);
            assert((j + 1) * (500 * c + 10000) <= (v@.len() + 1) * (500 * c + 10000))
                by (nonlinear_arith)
                requires j + 1 <= v@.len() + 1, c >= 0;
        }
        total = total + (c + q) * ((d + q - 1) / q);
        j = j + 1;
    }
    assert(v@.take(j as int) =~= v@);
    total
}

/// Recommended energy for the next probe of cell `p`, and the expected total
/// cost of breaking it, given the ensemble `h` and the energy `s` already
/// spent on the cell.
///
/// Samples that `s` already reaches are left out. With none left the default
/// energy is returned; with one left, exactly its residual. Otherwise the
/// energy is found by scanning upward from the lowest level and stopping where
/// the total cost first stops decreasing.
pub fn guess_power(h: &[Grid<u32>], p: Point, c: u32, s: u32) -> (r: (u32, u32))
    requires
        ensemble_ok(h@),
        in_bounds(p),
        search_fits(residuals(h@, p, s).len() as int, c as int),
    ensures
        (r.0 as int, r.1 as int) == recommend_spec(residuals(h@, p, s), c as int),
        r.0 >= 1,
        r.1 >= 1,
        residuals(h@, p, s).len() == 0 ==> r.0 == DEFAULT_POWER && r.1 == DEFAULT_POWER + c,
        residuals(h@, p, s).len() == 1 ==> r.0 == residuals(h@, p, s)[0] && r.1 == residuals(
            h@,
            p,
            s,
        )[0] + c,
{
    let mut v: Vec<u32> = Vec::new();
    let mut k: usize = 0;
    while k < h.len()
        invariant
            k <= h@.len(),
            ensemble_ok(h@),
            in_bounds(p),
            v@ == residuals(h@.take(k as int), p, s),
            v@.len() <= k,
            forall|i: int| 0 <= i < v@.len() ==> 1 <= #[trigger] v@[i] <= MAX_HARDNESS,
        decreases h@.len() - k,
    {
        proof {
            assert(h@.take(k as int + 1).drop_last() =~= h@.take(k as int));
            assert(h[k as int].wf());
            crate::grid::lemma_cell_index_bounds(p);
        }
        let x = *h[k].get(p);
        if s < x {
            v.push(x - s);
        }
        k = k + 1;
    }
    assert(h@.take(k as int) =~= h@);
    let ghost vs = v@;
    let ghost cc = c as int;
    if v.len() == 0 {
        return (DEFAULT_POWER, DEFAULT_POWER + c);
    }
    if v.len() == 1 {
        return (v[0], v[0] + c);
    }
    let mut best: u32 = u32::MAX;
    let mut best_power: u32 = DEFAULT_POWER;
    let mut q: u32 = MIN_POWER;
    while q <= MAX_POWER
        invariant
            MIN_POWER <= q <= MAX_POWER + 1,
            vs == v@,
            vs == residuals(h@, p, s),
            vs.len() >= 2,
            forall|i: int| 0 <= i < vs.len() ==> 1 <= #[trigger] vs[i] <= MAX_HARDNESS,
            cost_fits(vs.len() as int, cc),
            cc == c,
            q == MIN_POWER ==> best == u32::MAX,
            q > MIN_POWER ==> best_power == q - 1 && best == probe_cost(vs, cc, q - 1) && best >= 1,
            forall|x: int|
                MIN_POWER <= x < q - 1 ==> #[trigger] probe_cost(vs, cc, x + 1) < probe_cost(
                    vs,
                    cc,
                    x,
                ),
        decreases MAX_POWER + 1 - q,
    {
        let cost = cost_at(&v, c, q);
        proof {
            lemma_cost_positive(vs, cc, q as int);
        }
        if q == MIN_POWER {
            proof {
                lemma_cost_bound(vs, cc, q as int);
                assert(vs.len() * (500 * cc + 10000) < u32::MAX) by (nonlinear_arith)
                    requires cost_fits(vs.len() as int, cc), cc >= 0;
            }
        }
        if best.setmin(cost) {
            best_power = q;
        } else {
            proof {
                lemma_stop_point(vs, cc, MIN_POWER as int, q - 1);
            }
            return (best_power, best);
        }
        q = q + 1;
    }
    proof {
        lemma_stop_point(vs, cc, MIN_POWER as int, MAX_POWER as int);
    }
    (best_power, best)
}

} // verus!
