//! Planning of the excavation network: which cells to break so that every
//! house is joined to water, at low expected cost.
use vstd::prelude::*;

use crate::cost::{cost_fits, ensemble_ok, guess_power, recommend_spec, residuals};
use crate::grid::{
    adjacent, cell_at, cell_index, in_bounds, lemma_cell_at_bounds, lemma_cell_index_bounds,
    lemma_cell_index_injective, lemma_closed_set_covers, lemma_neighbors, neighbors_spec, Grid,
    Point,
};
use crate::heap::MinHeap;
use crate::rng::shuffle_points;
use rand_pcg::Mcg128Xsl64;
use vstd::multiset::Multiset;
use crate::N;

verus! {

/// Number of `true` entries.
pub open spec fn count_true(s: Seq<bool>) -> nat
    decreases s.len(),
{
    if s.len() == 0 {
        0
    } else {
        count_true(s.drop_last()) + if s.last() { 1nat } else { 0nat }
    }
}

pub proof fn lemma_count_true_bound(s: Seq<bool>)
    ensures
        count_true(s) <= s.len(),
    decreases s.len(),
{
    if s.len() > 0 {
        lemma_count_true_bound(s.drop_last());
    }
}

pub proof fn lemma_count_true_set(s: Seq<bool>, i: int)
    requires
        0 <= i < s.len(),
        !s[i],
    ensures
        count_true(s.update(i, true)) == count_true(s) + 1,
    decreases s.len(),
{
    let t = s.update(i, true);
    if i < s.len() - 1 {
        assert(t.drop_last() =~= s.drop_last().update(i, true));
        lemma_count_true_set(s.drop_last(), i);
    } else {
        assert(t.drop_last() =~= s.drop_last());
    }
}

pub proof fn lemma_count_true_none(s: Seq<bool>)
    requires
        forall|i: int| 0 <= i < s.len() ==> !s[i],
    ensures
        count_true(s) == 0,
    decreases s.len(),
{
    if s.len() > 0 {
        lemma_count_true_none(s.drop_last());
    }
}

/// A walk of side-adjacent in-bounds cells, each of them marked in `g`.
pub open spec fn marked_walk(g: Seq<bool>, w: Seq<Point>) -> bool {
    &&& w.len() >= 1
    &&& forall|i: int| 0 <= i < w.len() ==> in_bounds(#[trigger] w[i]) && g[cell_index(w[i])]
    &&& forall|i: int| 0 <= i < w.len() - 1 ==> adjacent(#[trigger] w[i], w[i + 1])
}

/// Some walk of cells marked in `g` leads from `p` to a water cell.
#[verifier::opaque]
pub open spec fn reaches_water(g: Seq<bool>, water: Seq<Point>, p: Point) -> bool {
    exists|w: Seq<Point>| #[trigger] marked_walk(g, w) && w[0] == p && water.contains(w.last())
}

/// Every marked cell is joined to water through marked cells.
#[verifier::opaque]
pub open spec fn network_connected(g: Seq<bool>, water: Seq<Point>) -> bool {
    forall|i: int| 0 <= i < N * N && #[trigger] g[i] ==> reaches_water(g, water, cell_at(i))
}

/// The grid marking exactly the cells of `cells`.
pub open spec fn marking_of(cells: Seq<Point>) -> Seq<bool> {
    Seq::new((N * N) as nat, |i: int| cells.contains(cell_at(i)))
}

/// Sum of the per-cell costs of `cells`.
pub open spec fn cells_cost(cost: Seq<u32>, cells: Seq<Point>) -> int
    decreases cells.len(),
{
    if cells.len() == 0 {
        0
    } else {
        cells_cost(cost, cells.drop_last()) + cost[cell_index(cells.last())]
    }
}

/// The expected cost of breaking cell `i` from scratch, as the cost model
/// gives it: what `guess_power` returns as cost with nothing spent.
pub open spec fn expected_cost(h: Seq<Grid<u32>>, c: u32, i: int) -> int {
    recommend_spec(residuals(h, cell_at(i), 0), c as int).1
}

/// Planning state: the ensemble, the cost field derived from it, the water
/// and house cells, and the cells excavated by the current trial.
pub struct Solver {
    grid: Grid<bool>,
    water: Vec<Point>,
    house: Vec<Point>,
    c: u32,
    h: Vec<Grid<u32>>,
    guess_cost: Grid<u32>,
}

impl Solver {
    /// Cells excavated by the current trial, indexed by `cell_index`.
    pub closed spec fn excavated(&self) -> Seq<bool> {
        self.grid.view()
    }

    pub closed spec fn water_cells(&self) -> Seq<Point> {
        self.water@
    }

    pub closed spec fn house_cells(&self) -> Seq<Point> {
        self.house@
    }

    pub closed spec fn overhead(&self) -> u32 {
        self.c
    }

    pub closed spec fn ensemble(&self) -> Seq<Grid<u32>> {
        self.h@
    }

    /// Expected cost of breaking each cell, indexed by `cell_index`.
    pub closed spec fn cost_field(&self) -> Seq<u32> {
        self.guess_cost.view()
    }

    pub closed spec fn wf(&self) -> bool {
        &&& self.grid.wf()
        &&& self.guess_cost.wf()
        &&& ensemble_ok(self.h@)
        &&& cost_fits(self.h@.len() as int, self.c as int)
        &&& forall|i: int| 0 <= i < self.water@.len() ==> in_bounds(#[trigger] self.water@[i])
        &&& forall|i: int| 0 <= i < self.house@.len() ==> in_bounds(#[trigger] self.house@[i])
        &&& forall|i: int|
            0 <= i < N * N ==> #[trigger] self.guess_cost.view()[i] == expected_cost(
                self.h@,
                self.c,
                i,
            ) && self.guess_cost.view()[i] >= 1
        &&& network_connected(self.grid.view(), self.water@)
    }
}

impl Solver {
    /// A planner for the given water and house cells, overhead per probe, and
    /// ensemble of hardness fields; nothing is excavated yet.
    pub fn new(water: &[(u32, u32)], house: &[(u32, u32)], c: u32, h: Vec<Grid<u32>>) -> (r:
        Solver)
        requires
            forall|i: int|
                0 <= i < water@.len() ==> (#[trigger] water@[i]).0 < N && water@[i].1 < N,
            forall|i: int|
                0 <= i < house@.len() ==> (#[trigger] house@[i]).0 < N && house@[i].1 < N,
            ensemble_ok(h@),
            cost_fits(h@.len() as int, c as int),
        ensures
            r.wf(),
            r.water_cells() == water@.map_values(|w: (u32, u32)| Point { x: w.0, y: w.1 }),
            r.house_cells() == house@.map_values(|w: (u32, u32)| Point { x: w.0, y: w.1 }),
            r.overhead() == c,
            r.ensemble() == h@,
            forall|i: int| 0 <= i < N * N ==> !r.excavated()[i],
            forall|i: int|
                0 <= i < N * N ==> #[trigger] r.cost_field()[i] == expected_cost(h@, c, i),
    {
        let water_points = to_points(water);
        let house_points = to_points(house);
        let mut guess_cost: Grid<u32> = Grid::new(0);
        let mut i: usize = 0;
        while i < N * N
            invariant
                i <= N * N,
                guess_cost.wf(),
                ensemble_ok(h@),
                cost_fits(h@.len() as int, c as int),
                forall|j: int|
                    0 <= j < i ==> #[trigger] guess_cost.view()[j] == expected_cost(h@, c, j)
                        && guess_cost.view()[j] >= 1,
            decreases N * N - i,
        {
            let p = Point::new((i % N) as u32, (i / N) as u32);
            proof {
                lemma_cell_at_bounds(i as int);
                assert(p == cell_at(i as int));
            }
            proof {
                crate::cost::lemma_search_fits(h@, p, 0, c as int);
            }
            let (_, cost) = guess_power(h.as_slice(), p, c, 0);
            guess_cost.set(p, cost);
            i = i + 1;
        }
        let grid = Grid::new(false);
        let r = Solver { grid, water: water_points, house: house_points, c, h, guess_cost };
        proof {
            reveal(network_connected);
            assert(network_connected(r.grid.view(), r.water@));
        }
        r
    }

    /// Starts a new trial: no cell is excavated.
    pub fn reset(&mut self)
        requires
            old(self).wf(),
        ensures
            final(self).wf(),
            final(self).water_cells() == old(self).water_cells(),
            final(self).house_cells() == old(self).house_cells(),
            final(self).overhead() == old(self).overhead(),
            final(self).ensemble() == old(self).ensemble(),
            final(self).cost_field() == old(self).cost_field(),
            forall|i: int| 0 <= i < N * N ==> !final(self).excavated()[i],
    {
        self.grid = Grid::new(false);
        proof {
            reveal(network_connected);
        }
    }

    /// Whether `p` is a water cell.
    fn is_water(&self, p: Point) -> (r: bool)
        ensures
            r == self.water@.contains(p),
    {
        let mut i: usize = 0;
        while i < self.water.len()
            invariant
                i <= self.water@.len(),
                forall|j: int| 0 <= j < i ==> self.water@[j] != p,
            decreases self.water@.len() - i,
        {
            if self.water[i] == p {
                return true;
            }
            i = i + 1;
        }
        false
    }

    /// Dijkstra's search from `start`, stepping onto a cell costing its
    /// expected cost, or nothing when it is already excavated. The search ends
    /// at the first cell other than `start` taken off the queue that is
    /// excavated or water, and returns the walk from that cell back to `start`:
    /// a least-cost one. Fails only when no cell other than `start` is
    /// excavated or water.
    #[verifier::spinoff_prover]
    #[verifier::rlimit(60)]
    fn dijkstra(&self, start: Point) -> (r: Option<Vec<Point>>)
        requires
            self.wf(),
            in_bounds(start),
        ensures
            r matches Some(path) ==> least_walk(
                self.excavated(),
                self.water@,
                self.cost_field(),
                start,
                path@,
            ),
            r is None ==> forall|x: Point|
                in_bounds(x) && x != start ==> !is_terminal(self.excavated(), self.water@, x),
    {
        let ghost g = self.grid.view();
        let ghost water = self.water@;
        let ghost cost = self.guess_cost.view();
        let ghost mut cur: int = 0;
        let mut st = Search {
            heap: MinHeap::new(),
            dist: Grid::new(u64::MAX),
            prev: Grid::new(None),
            done: Grid::new(false),
        };
        proof {
            lemma_cell_index_bounds(start);
            lemma_count_true_none(st.done.view());
        }
        st.dist.set(start, 0);
        st.heap.push(0, start);
        proof {
            let d = st.dist.view();
            assert forall|i: int| 0 <= i < N * N && #[trigger] reached(d, i) implies i
                == cell_index(start) by {
                if i != cell_index(start) {
                    assert(d[i] == u64::MAX);
                }
            }
            lemma_cell_at_bounds(cell_index(start));
            assert(st.heap.contents().contains((0u64, start)));
            assert forall|e: (u64, Point)| #[trigger] st.heap.contents().contains(e) implies in_bounds(
                e.1,
            ) && d[cell_index(e.1)] <= e.0 && e.0 <= N * N * u32::MAX && cur <= e.0 && e.1
                == start by {
                broadcast use vstd::multiset::group_multiset_axioms;
            }
            assert forall|i: int| 0 <= i < N * N implies #[trigger] cost[i] >= 1 by {}
        }
        while st.heap.len() > 0
            invariant
                self.wf(),
                g == self.grid.view(),
                water == self.water@,
                cost == self.guess_cost.view(),
                in_bounds(start),
                st.inv(g, water, cost, start, -1, cur),
            decreases N * N - count_true(st.done.view()), st.heap.contents().len(),
        {
            let ghost h0 = st.heap.contents();
            let ghost cur0 = cur;
            let (w, p) = st.heap.pop().unwrap();
            proof {
                lemma_cell_index_bounds(p);
                st.lemma_after_pop(h0, w, p, g, water, cost, start, cur0);
                cur = w as int;
            }
            if *st.dist.get(p) < w || *st.done.get(p) {
                continue;
            }
            if p != start && (*self.grid.get(p) || self.is_water(p)) {
                let path = trace(&st, p, Ghost(g), Ghost(water), Ghost(cost), Ghost(start));
                proof {
                    assert forall|wk: Seq<Point>|
                        grid_walk(wk) && wk[0] == start && wk.last() != start && is_terminal(
                            g,
                            water,
                            wk.last(),
                        ) implies back_cost(g, cost, path@) <= #[trigger] walk_cost(g, cost, wk) by {
                        st.lemma_least_entry(h0, g, water, cost, start, cur0, w, wk);
                    }
                    assert forall|i: int| 0 < i < path@.len() - 1 implies !is_terminal(
                        g,
                        water,
                        #[trigger] path@[i],
                    ) by {
                        lemma_cell_index_bounds(path@[i]);
                        lemma_cell_at_bounds(cell_index(path@[i]));
                        assert(st.done.view()[cell_index(path@[i])]);
                    }
                }
                return Some(path);
            }
            proof {
                lemma_count_true_set(st.done.view(), cell_index(p));
                lemma_count_true_bound(st.done.view().update(cell_index(p), true));
                lemma_cell_at_bounds(cell_index(p));
            }
            let ghost cnt0 = count_true(st.done.view());
            st.done.set(p, true);
            proof {
                let dn = st.done.view();
                assert forall|i: int| 0 <= i < N * N && #[trigger] dn[i] implies reached(
                    st.dist.view(),
                    i,
                ) && (cell_at(i) == start || !is_terminal(g, water, cell_at(i))) by {
                    if i == cell_index(p) {
                        assert(cell_at(i) == p);
                    }
                }
            }
            let nei = p.neighbors();
            proof {
                lemma_neighbors(p);
            }
            let mut j: usize = 0;
            while j < nei.len()
                invariant
                    self.wf(),
                    g == self.grid.view(),
                    water == self.water@,
                    cost == self.guess_cost.view(),
                    in_bounds(start),
                    in_bounds(p),
                    cur == w,
                    nei@ == neighbors_spec(p),
                    nei@.len() <= 4,
                    j <= nei@.len(),
                    st.dist.view()[cell_index(p)] == w,
                    w <= cnt0 * u32::MAX,
                    count_true(st.done.view()) == cnt0 + 1,
                    st.done.view()[cell_index(p)],
                    st.done.view()[cell_index(start)],
                    st.inv(g, water, cost, start, cell_index(p), cur),
                    st.heap.contents().len() + (nei@.len() - j) <= 4 * count_true(st.done.view())
                        + 1,
                    forall|k: int|
                        0 <= k < j ==> st.dist.view()[cell_index(#[trigger] nei@[k])] <= w
                            + step_cost(g, cost, nei@[k]),
                decreases nei@.len() - j,
            {
                let n = nei[j];
                let ghost d0 = st.dist.view();
                proof {
                    assert(neighbors_spec(p)[j as int] == n);
                }
                self.relax(&mut st, p, w, n, Ghost(start), Ghost(cnt0));
                proof {
                    assert forall|k: int| 0 <= k < j + 1 implies st.dist.view()[cell_index(
                        #[trigger] nei@[k],
                    )] <= w + step_cost(g, cost, nei@[k]) by {
                        if k < j {
                            lemma_cell_index_bounds(nei@[k]);
                            assert(d0[cell_index(nei@[k])] <= w + step_cost(g, cost, nei@[k]));
                        }
                    }
                }
                j = j + 1;
            }
            proof {
                let d = st.dist.view();
                let pi = cell_index(p);
                assert forall|k: int| 0 <= k < neighbors_spec(cell_at(pi)).len() implies d[cell_index(
                    #[trigger] neighbors_spec(cell_at(pi))[k],
                )] <= d[pi] + step_cost(g, cost, neighbors_spec(cell_at(pi))[k]) by {
                    assert(nei@[k] == neighbors_spec(cell_at(pi))[k]);
                }
            }
        }
        proof {
            let d = st.dist.view();
            let dn = st.done.view();
            let member = |x: Point| reached(d, cell_index(x));
            assert forall|x: Point, i: int|
                in_bounds(x) && member(x) && 0 <= i < neighbors_spec(x).len() implies member(
                #[trigger] neighbors_spec(x)[i],
            ) by {
                lemma_cell_index_bounds(x);
                lemma_cell_at_bounds(cell_index(x));
                lemma_neighbors(x);
                let xi = cell_index(x);
                assert(reached(d, xi));
                if !dn[xi] {
                    assert(st.heap.contents().contains((d[xi], cell_at(xi))));
                }
                let y = neighbors_spec(cell_at(xi))[i];
                lemma_cell_index_bounds(y);
                assert(d[cell_index(y)] <= d[xi] + step_cost(g, cost, y));
                lemma_count_true_bound(dn);
                assert(d[xi] <= count_true(dn) * u32::MAX);
                assert(count_true(dn) * u32::MAX <= N * N * u32::MAX) by (nonlinear_arith)
                    requires count_true(dn) <= N * N;
            }
            assert forall|x: Point| in_bounds(x) && x != start implies !is_terminal(g, water, x) by {
                lemma_closed_set_covers(member, start, x);
                lemma_cell_index_bounds(x);
                lemma_cell_at_bounds(cell_index(x));
                let xi = cell_index(x);
                if !dn[xi] {
                    assert(st.heap.contents().contains((d[xi], cell_at(xi))));
                }
                assert(dn[xi]);
            }
        }
        None
    }

    /// Looks at neighbour `n` of the cell `p` being settled at distance `w`,
    /// and records a shorter route to `n` through `p` if there is one.
    #[verifier::spinoff_prover]
    #[verifier::rlimit(40)]
    fn relax(
        &self,
        st: &mut Search,
        p: Point,
        w: u64,
        n: Point,
        Ghost(start): Ghost<Point>,
        Ghost(cnt0): Ghost<nat>,
    )
        requires
            self.wf(),
            in_bounds(start),
            in_bounds(p),
            neighbors_spec(p).contains(n),
            old(st).dist.view()[cell_index(p)] == w,
            w <= cnt0 * u32::MAX,
            count_true(old(st).done.view()) == cnt0 + 1,
            old(st).done.view()[cell_index(p)],
            old(st).done.view()[cell_index(start)],
            old(st).inv(
                self.grid.view(),
                self.water@,
                self.guess_cost.view(),
                start,
                cell_index(p),
                w as int,
            ),
            old(st).heap.contents().len() < 4 * count_true(old(st).done.view()) + 1,
        ensures
            final(st).inv(
                self.grid.view(),
                self.water@,
                self.guess_cost.view(),
                start,
                cell_index(p),
                w as int,
            ),
            final(st).dist.view()[cell_index(p)] == w,
            final(st).done.view() == old(st).done.view(),
            final(st).heap.contents().len() <= old(st).heap.contents().len() + 1,
            final(st).dist.view()[cell_index(n)] <= w + step_cost(
                self.grid.view(),
                self.guess_cost.view(),
                n,
            ),
            forall|i: int|
                0 <= i < N * N ==> #[trigger] final(st).dist.view()[i] <= old(st).dist.view()[i],
    {
        let ghost g = self.grid.view();
        let ghost water = self.water@;
        let ghost cost = self.guess_cost.view();
        proof {
            lemma_neighbors(p);
            lemma_cell_index_bounds(p);
            lemma_cell_index_bounds(n);
            lemma_cell_at_bounds(cell_index(n));
            lemma_cell_at_bounds(cell_index(p));
            let k = choose|k: int| 0 <= k < neighbors_spec(p).len() && neighbors_spec(p)[k] == n;
            assert(in_bounds(neighbors_spec(p)[k]));
            assert(adjacent(neighbors_spec(p)[k], p));
            lemma_adjacent_symmetric(n, p);
        }
        let cn: u32 = if *self.grid.get(n) {
            0
        } else {
            *self.guess_cost.get(n)
        };
        proof {
            let nn = (N * N) as int;
            let m = u32::MAX as int;
            lemma_count_true_bound(st.done.view());
            assert(w + cn <= (cnt0 + 1) * m) by (nonlinear_arith)
                requires w <= cnt0 * m, cn <= m;
            assert((cnt0 + 1) * m <= nn * m) by (nonlinear_arith)
                requires cnt0 + 1 <= nn, m >= 0;
            assert(cn == step_cost(g, cost, n));
        }
        let w2 = w + cn as u64;
        if w2 >= *st.dist.get(n) {
            return ;
        }
        let ghost db = st.dist.view();
        let ghost hb = st.heap.contents();
        let ghost dn = st.done.view();
        proof {
            if dn[cell_index(n)] {
                assert(db[cell_index(n)] <= w);
            }
        }
        st.dist.set(n, w2);
        st.prev.set(n, Some(p));
        st.heap.push(w2, n);
        proof {
            broadcast use vstd::multiset::group_multiset_axioms;

            let da = st.dist.view();
            let pa = st.prev.view();
            let hc = st.heap.contents();
            let ni = cell_index(n);
            assert(!dn[ni]);
            assert(ni != cell_index(start));
            assert(hc == hb.insert((w2, n)));
            assert forall|i: int| 0 <= i < N * N && #[trigger] reached(da, i) implies match pa[i] {
                Some(q) => in_bounds(q) && adjacent(cell_at(i), q) && dn[cell_index(q)] && da[i]
                    == da[cell_index(q)] + step_cost(g, cost, cell_at(i)),
                None => cell_at(i) == start,
            } by {
                if i != ni {
                    assert(reached(db, i));
                    assert(da[i] == db[i]);
                    match pa[i] {
                        Some(q) => {
                            lemma_cell_index_bounds(q);
                            assert(dn[cell_index(q)]);
                            assert(cell_index(q) != ni);
                        },
                        None => {},
                    }
                } else {
                    assert(cell_at(i) == n);
                }
            }
            assert forall|i: int| 0 <= i < N * N && #[trigger] dn[i] implies reached(da, i) && (
            cell_at(i) == start || !is_terminal(g, water, cell_at(i))) by {
                if i != ni {
                    assert(da[i] == db[i]);
                }
            }
            assert forall|e: (u64, Point)| #[trigger] hc.contains(e) implies in_bounds(e.1)
                && da[cell_index(e.1)] <= e.0 && e.0 <= N * N * u32::MAX && w <= e.0 by {
                if e != (w2, n) {
                    assert(hb.contains(e));
                    lemma_cell_index_bounds(e.1);
                }
            }
            assert forall|i: int|
                0 <= i < N * N && i != cell_index(p) && #[trigger] reached(da, i) && !dn[i]
                    implies hc.contains((da[i], cell_at(i))) by {
                if i != ni {
                    assert(reached(db, i));
                    assert(hb.contains((db[i], cell_at(i))));
                }
            }
            assert forall|i: int|
                0 <= i < N * N && i != cell_index(p) && #[trigger] dn[i] implies forall|k: int|
                0 <= k < neighbors_spec(cell_at(i)).len() ==> da[cell_index(
                    #[trigger] neighbors_spec(cell_at(i))[k],
                )] <= da[i] + step_cost(g, cost, neighbors_spec(cell_at(i))[k]) by {
                assert(i != ni);
                assert forall|k: int| 0 <= k < neighbors_spec(cell_at(i)).len() implies da[cell_index(
                    #[trigger] neighbors_spec(cell_at(i))[k],
                )] <= da[i] + step_cost(g, cost, neighbors_spec(cell_at(i))[k]) by {
                    lemma_cell_at_bounds(i);
                    lemma_neighbors(cell_at(i));
                    lemma_cell_index_bounds(neighbors_spec(cell_at(i))[k]);
                    assert(db[cell_index(neighbors_spec(cell_at(i))[k])] <= db[i] + step_cost(
                        g,
                        cost,
                        neighbors_spec(cell_at(i))[k],
                    ));
                }
            }
            assert forall|i: int| 0 <= i < N * N && #[trigger] dn[i] implies da[i] <= w by {
                if i != ni {
                    assert(da[i] == db[i]);
                }
            }
            assert forall|i: int| 0 <= i < N * N && #[trigger] reached(da, i) implies da[i]
                <= count_true(dn) * u32::MAX by {
                if i != ni {
                    assert(da[i] == db[i]);
                    assert(reached(db, i));
                }
            }
            assert forall|i: int| 0 <= i < N * N implies #[trigger] da[i] <= db[i] by {}
        }
    }

    /// Excavates every cell of `path` that is not excavated yet, appending it
    /// to `ans` and its expected cost to `total`.
    #[verifier::rlimit(40)]
    #[verifier::spinoff_prover]
    fn excavate_path(
        &mut self,
        path: &Vec<Point>,
        ans: &mut Vec<Point>,
        total: &mut u64,
        Ghost(g0): Ghost<Seq<bool>>,
    )
        requires
            old(self).wf(),
            grid_walk(path@),
            old(self).excavated()[cell_index(path@[0])] || old(self).water@.contains(path@[0]),
            g0.len() == N * N,
            trial_ok(g0, old(self).excavated(), old(ans)@, old(self).cost_field(), *old(total) as int),
        ensures
            final(self).wf(),
            final(self).water@ == old(self).water@,
            final(self).house@ == old(self).house@,
            final(self).c == old(self).c,
            final(self).h@ == old(self).h@,
            final(self).guess_cost == old(self).guess_cost,
            trial_ok(g0, final(self).excavated(), final(ans)@, final(self).cost_field(), *final(total) as int),
            forall|i: int| 0 <= i < N * N && #[trigger] old(self).excavated()[i] ==> final(self).excavated()[i],
            forall|t: int| 0 <= t < path@.len() ==> final(self).excavated()[cell_index(#[trigger] path@[t])],
            forall|t: int| 0 <= t < path@.len() ==> reaches_water(final(self).excavated(), final(self).water@, #[trigger] path@[t]),
            final(self).excavated() == mark_walk(old(self).excavated(), path@),
    {
        let ghost gb = self.grid.view();
        let ghost gc = self.guess_cost.view();
        let ghost water = self.water@;
        let mut t: usize = 0;
        while t < path.len()
            invariant
                grid_walk(path@),
                t <= path@.len(),
                self.grid.wf(),
                self.guess_cost.wf(),
                gc == self.guess_cost.view(),
                water == self.water@,
                self.water@ == old(self).water@,
                self.house@ == old(self).house@,
                self.c == old(self).c,
                self.h@ == old(self).h@,
                self.guess_cost == old(self).guess_cost,
                old(self).wf(),
                gb == old(self).grid.view(),
                gb.len() == N * N,
                g0.len() == N * N,
                trial_ok(g0, self.grid.view(), ans@, gc, *total as int),
                forall|i: int| 0 <= i < N * N && #[trigger] gb[i] ==> self.grid.view()[i],
                forall|i: int| 0 <= i < N * N && #[trigger] self.grid.view()[i] ==> gb[i] || exists|k: int| 0 <= k < t && cell_index(path@[k]) == i,
                forall|k: int| 0 <= k < t ==> self.grid.view()[cell_index(#[trigger] path@[k])],
            decreases path@.len() - t,
        {
            let cur = path[t];
            proof {
                lemma_cell_index_bounds(cur);
                lemma_cell_at_bounds(cell_index(cur));
            }
            if !*self.grid.get(cur) {
                let ghost g1 = self.grid.view();
                let ghost a1 = ans@;
                proof {
                    lemma_count_true_set(g1, cell_index(cur));
                    lemma_count_true_bound(g1.update(cell_index(cur), true));
                    lemma_count_true_bound(g0);
                    lemma_cells_cost_bound(gc, a1);
                    assert(!a1.contains(cur));
                    let m = u32::MAX as int;
                    let len = a1.len() as int;
                    assert(len + 1 <= N * N);
                    assert(*total + gc[cell_index(cur)] <= (len + 1) * m) by (nonlinear_arith)
                        requires *total <= len * m, gc[cell_index(cur)] <= m;
                    assert((len + 1) * m <= N * N * m) by (nonlinear_arith)
                        requires len + 1 <= N * N, m >= 0;
                }
                self.grid.set(cur, true);
                ans.push(cur);
                *total = *total + *self.guess_cost.get(cur) as u64;
                proof {
                    lemma_trial_push(g0, g1, a1, gc, cur);
                }
            }
            proof {
                assert forall|i: int| 0 <= i < N * N && #[trigger] self.grid.view()[i] implies gb[i] || exists|k: int| 0 <= k < t + 1 && cell_index(path@[k]) == i by {
                    if i == cell_index(cur) {
                        assert(cell_index(path@[t as int]) == i);
                    }
                }
            }
            t = t + 1;
        }
        proof {
            lemma_network_after_path(gb, self.grid.view(), water, path@);
            assert(self.grid.view() =~= mark_walk(gb, path@));
        }
    }

    /// Runs one trial from the current state, joining the houses to water in
    /// the order given: for each, a least-cost walk to water or to the
    /// network built so far is excavated, stepping onto a cell costing its
    /// expected cost unless it is excavated already. Returns the newly
    /// excavated cells, in the order excavated, and their total expected cost.
    /// Fails only when a house finds no water and no excavated cell other than
    /// itself, which cannot happen while some water cell is not in `order`.
    #[verifier::spinoff_prover]
    pub fn solve_in_order(&mut self, order: &Vec<Point>) -> (r: Option<(Vec<Point>, u64)>)
        requires
            old(self).wf(),
            forall|k: int| 0 <= k < order@.len() ==> in_bounds(#[trigger] order@[k]),
        ensures
            final(self).wf(),
            final(self).water_cells() == old(self).water_cells(),
            final(self).house_cells() == old(self).house_cells(),
            final(self).overhead() == old(self).overhead(),
            final(self).ensemble() == old(self).ensemble(),
            final(self).cost_field() == old(self).cost_field(),
            (exists|w: Point| #[trigger] old(self).water_cells().contains(w) && !order@.contains(w))
                ==> r is Some,
            r matches Some((ans, total)) ==> {
                &&& trial_ok(
                    old(self).excavated(),
                    final(self).excavated(),
                    ans@,
                    final(self).cost_field(),
                    total as int,
                )
                &&& network_connected(final(self).excavated(), final(self).water_cells())
                &&& exists|walks: Seq<Seq<Point>>|
                    #[trigger] trial_of(
                        old(self).excavated(),
                        final(self).water_cells(),
                        final(self).cost_field(),
                        order@,
                        walks,
                        final(self).excavated(),
                    )
                &&& forall|k: int|
                    0 <= k < order@.len() ==> final(self).excavated()[cell_index(
                        #[trigger] order@[k],
                    )] && reaches_water(
                        final(self).excavated(),
                        final(self).water_cells(),
                        order@[k],
                    )
            },
    {
        let ghost g0 = self.grid.view();
        let mut ans: Vec<Point> = Vec::new();
        let mut total: u64 = 0;
        proof {
            assert forall|i: int| 0 <= i < N * N implies #[trigger] g0[i] == (g0[i] || ans@.contains(
                cell_at(i),
            )) by {}
        }
        let ghost mut walks: Seq<Seq<Point>> = Seq::empty();
        let mut k: usize = 0;
        while k < order.len()
            invariant
                self.wf(),
                k <= order@.len(),
                walks.len() == k,
                forall|m: int|
                    0 <= m < k ==> #[trigger] least_walk(
                        grid_after(g0, walks, m),
                        self.water@,
                        self.guess_cost.view(),
                        order@[m],
                        walks[m],
                    ),
                self.grid.view() == grid_after(g0, walks, k as int),
                forall|k: int| 0 <= k < order@.len() ==> in_bounds(#[trigger] order@[k]),
                self.water@ == old(self).water@,
                self.house@ == old(self).house@,
                self.c == old(self).c,
                self.h@ == old(self).h@,
                self.guess_cost == old(self).guess_cost,
                g0 == old(self).grid.view(),
                g0.len() == N * N,
                trial_ok(g0, self.grid.view(), ans@, self.guess_cost.view(), total as int),
                forall|j: int|
                    0 <= j < k ==> self.grid.view()[cell_index(#[trigger] order@[j])]
                        && reaches_water(self.grid.view(), self.water@, order@[j]),
            decreases order@.len() - k,
        {
            let start = order[k];
            let found = self.dijkstra(start);
            match found {
                None => {
                    proof {
                        if exists|w: Point| #[trigger] self.water@.contains(w) && !order@.contains(w) {
                            let w = choose|w: Point| #[trigger] self.water@.contains(w) && !order@.contains(w);
                            let i = choose|i: int| 0 <= i < self.water@.len() && self.water@[i] == w;
                            assert(in_bounds(self.water@[i]));
                            assert(order@[k as int] == start);
                        }
                    }
                    return None;
                },
                Some(path) => {
                    let ghost gb = self.grid.view();
                    self.excavate_path(&path, &mut ans, &mut total, Ghost(g0));
                    proof {
                        assert forall|j: int|
                            0 <= j < k + 1 implies self.grid.view()[cell_index(#[trigger] order@[j])]
                                && reaches_water(self.grid.view(), self.water@, order@[j]) by {
                            if j < k {
                                lemma_reach_mono(gb, self.grid.view(), self.water@, order@[j]);
                            } else {
                                assert(path@[path@.len() - 1] == order@[j]);
                            }
                        }
                        let w0 = walks;
                        walks = walks.push(path@);
                        assert forall|m: int| 0 <= m < k + 1 implies #[trigger] least_walk(
                            grid_after(g0, walks, m),
                            self.water@,
                            self.guess_cost.view(),
                            order@[m],
                            walks[m],
                        ) by {
                            lemma_grid_after_push(g0, w0, path@, m);
                            if m < k {
                                assert(walks[m] == w0[m]);
                            }
                        }
                        lemma_grid_after_push(g0, w0, path@, k as int);
                    }
                },
            }
            k = k + 1;
        }
        proof {
            reveal(network_connected);
            assert(trial_of(g0, self.water@, self.guess_cost.view(), order@, walks, self.grid.view()));
        }
        Some((ans, total))
    }

    /// Runs one trial from the current state with the houses in an order
    /// drawn from `rng`; see `solve_in_order`. Every house ends excavated and
    /// joined to water, and success is owed whenever some water cell is not a
    /// house.
    pub fn solve(&mut self, rng: &mut Mcg128Xsl64) -> (r: Option<(Vec<Point>, u64)>)
        requires
            old(self).wf(),
        ensures
            final(self).wf(),
            final(self).water_cells() == old(self).water_cells(),
            final(self).house_cells() == old(self).house_cells(),
            final(self).overhead() == old(self).overhead(),
            final(self).ensemble() == old(self).ensemble(),
            final(self).cost_field() == old(self).cost_field(),
            (exists|w: Point|
                #[trigger] old(self).water_cells().contains(w) && !old(self).house_cells().contains(w))
                ==> r is Some,
            r matches Some((ans, total)) ==> {
                &&& trial_ok(
                    old(self).excavated(),
                    final(self).excavated(),
                    ans@,
                    final(self).cost_field(),
                    total as int,
                )
                &&& network_connected(final(self).excavated(), final(self).water_cells())
                &&& exists|order: Seq<Point>, walks: Seq<Seq<Point>>|
                    order.to_multiset() == final(self).house_cells().to_multiset()
                        && #[trigger] trial_of(
                        old(self).excavated(),
                        final(self).water_cells(),
                        final(self).cost_field(),
                        order,
                        walks,
                        final(self).excavated(),
                    )
                &&& forall|k: int|
                    0 <= k < final(self).house_cells().len() ==> final(self).excavated()[cell_index(
                        #[trigger] final(self).house_cells()[k],
                    )] && reaches_water(
                        final(self).excavated(),
                        final(self).water_cells(),
                        final(self).house_cells()[k],
                    )
            },
    {
        let mut order = self.house.clone();
        assert(order@ == self.house@);
        shuffle_points(&mut order, rng);
        proof {
            broadcast use vstd::seq_lib::group_to_multiset_ensures;

            assert forall|k: int| 0 <= k < order@.len() implies in_bounds(#[trigger] order@[k]) by {
                assert(order@.to_multiset().count(order@[k]) > 0);
                assert(self.house@.contains(order@[k]));
            }
            assert forall|w: Point| order@.contains(w) <==> self.house@.contains(w) by {
                assert(order@.to_multiset().count(w) == self.house@.to_multiset().count(w));
            }
        }
        let ghost g0 = self.grid.view();
        let r = self.solve_in_order(&order);
        proof {
            if r is Some {
                let walks = choose|walks: Seq<Seq<Point>>|
                    #[trigger] trial_of(
                        g0,
                        self.water@,
                        self.guess_cost.view(),
                        order@,
                        walks,
                        self.grid.view(),
                    );
                assert(trial_of(g0, self.water@, self.guess_cost.view(), order@, walks, self.grid.view()));
            }
        }
        proof {
            broadcast use vstd::seq_lib::group_to_multiset_ensures;

            if r is Some {
                assert forall|k: int| 0 <= k < self.house@.len() implies self.grid.view()[cell_index(
                    #[trigger] self.house@[k],
                )] && reaches_water(self.grid.view(), self.water@, self.house@[k]) by {
                    assert(self.house@.to_multiset().count(self.house@[k]) > 0);
                    assert(order@.contains(self.house@[k]));
                }
            }
        }
        r
    }

    /// Runs `trials` trials, each from an empty grid with its own house order
    /// drawn from `rng`, and keeps the first of least total expected cost.
    /// The kept cells, excavated alone, join every house to water.
    #[verifier::spinoff_prover]
    pub fn plan(&mut self, rng: &mut Mcg128Xsl64, trials: usize) -> (r: Option<Plan>)
        requires
            old(self).wf(),
            trials >= 1,
        ensures
            final(self).wf(),
            final(self).water_cells() == old(self).water_cells(),
            final(self).house_cells() == old(self).house_cells(),
            final(self).overhead() == old(self).overhead(),
            final(self).ensemble() == old(self).ensemble(),
            final(self).cost_field() == old(self).cost_field(),
            (exists|w: Point|
                #[trigger] old(self).water_cells().contains(w) && !old(self).house_cells().contains(w))
                ==> r is Some,
            r matches Some(p) ==> {
                &&& p.trial_costs@.len() == trials
                &&& forall|k: int|
                    0 <= k < trials ==> trial_costs_total(
                        final(self).water_cells(),
                        final(self).cost_field(),
                        final(self).house_cells(),
                        #[trigger] p.trial_costs@[k] as int,
                    )
                &&& p.cost == min_of(p.trial_costs@)
                &&& p.cost == cells_cost(final(self).cost_field(), p.cells@)
                &&& p.cells@.no_duplicates()
                &&& forall|k: int| 0 <= k < p.cells@.len() ==> in_bounds(#[trigger] p.cells@[k])
                &&& exists|order: Seq<Point>, walks: Seq<Seq<Point>>|
                    order.to_multiset() == final(self).house_cells().to_multiset()
                        && #[trigger] trial_of(
                        nothing_marked(),
                        final(self).water_cells(),
                        final(self).cost_field(),
                        order,
                        walks,
                        marking_of(p.cells@),
                    )
                &&& network_connected(marking_of(p.cells@), final(self).water_cells())
                &&& forall|k: int|
                    0 <= k < final(self).house_cells().len() ==> p.cells@.contains(
                        #[trigger] final(self).house_cells()[k],
                    ) && reaches_water(
                        marking_of(p.cells@),
                        final(self).water_cells(),
                        final(self).house_cells()[k],
                    )
            },
    {
        let mut best_cells: Vec<Point> = Vec::new();
        let mut best_cost: u64 = 0;
        let mut trial_costs: Vec<u64> = Vec::new();
        let mut t: usize = 0;
        while t < trials
            invariant
                self.wf(),
                t <= trials,
                trial_costs@.len() == t,
                forall|k: int|
                    0 <= k < t ==> trial_costs_total(
                        self.water@,
                        self.guess_cost.view(),
                        self.house@,
                        #[trigger] trial_costs@[k] as int,
                    ),
                self.water@ == old(self).water@,
                self.house@ == old(self).house@,
                self.c == old(self).c,
                self.h@ == old(self).h@,
                self.guess_cost.view() == old(self).guess_cost.view(),
                (exists|w: Point| #[trigger] self.water@.contains(w) && !self.house@.contains(w))
                    ==> (exists|w: Point| #[trigger] old(self).water@.contains(w) && !old(self).house@.contains(w)),
                t >= 1 ==> {
                    &&& best_cost == min_of(trial_costs@)
                    &&& best_cost == cells_cost(self.guess_cost.view(), best_cells@)
                    &&& best_cells@.no_duplicates()
                    &&& forall|k: int| 0 <= k < best_cells@.len() ==> in_bounds(#[trigger] best_cells@[k])
                    &&& exists|order: Seq<Point>, walks: Seq<Seq<Point>>|
                        order.to_multiset() == self.house@.to_multiset() && #[trigger] trial_of(
                            nothing_marked(),
                            self.water@,
                            self.guess_cost.view(),
                            order,
                            walks,
                            marking_of(best_cells@),
                        )
                    &&& network_connected(marking_of(best_cells@), self.water@)
                    &&& forall|k: int|
                        0 <= k < self.house@.len() ==> best_cells@.contains(#[trigger] self.house@[k])
                            && reaches_water(marking_of(best_cells@), self.water@, self.house@[k])
                },
            decreases trials - t,
        {
            self.reset();
            let ghost g0 = self.grid.view();
            match self.solve(rng) {
                None => {
                    return None;
                },
                Some((cells, cost)) => {
                    proof {
                        lemma_trial_from_empty(g0, self.grid.view(), cells@, self.guess_cost.view(), cost as int);
                        assert(g0 =~= nothing_marked());
                        assert forall|k: int| 0 <= k < self.house@.len() implies cells@.contains(
                            #[trigger] self.house@[k],
                        ) by {
                            let hk = self.house@[k];
                            assert(self.grid.view()[cell_index(hk)]);
                            lemma_cell_index_bounds(hk);
                            lemma_cell_at_bounds(cell_index(hk));
                        }
                    }
                    proof {
                        let (order, walks) = choose|order: Seq<Point>, walks: Seq<Seq<Point>>|
                            order.to_multiset() == self.house@.to_multiset() && #[trigger] trial_of(
                                g0,
                                self.water@,
                                self.guess_cost.view(),
                                order,
                                walks,
                                self.grid.view(),
                            );
                        assert(trial_of(
                            nothing_marked(),
                            self.water@,
                            self.guess_cost.view(),
                            order,
                            walks,
                            marking_of(cells@),
                        ));
                        assert(trial_costs_total(
                            self.water@,
                            self.guess_cost.view(),
                            self.house@,
                            cost as int,
                        ));
                    }
                    let ghost before = trial_costs@;
                    trial_costs.push(cost);
                    proof {
                        assert(trial_costs@.drop_last() == before);
                        assert forall|k: int| 0 <= k < t + 1 implies trial_costs_total(
                            self.water@,
                            self.guess_cost.view(),
                            self.house@,
                            #[trigger] trial_costs@[k] as int,
                        ) by {
                            if k < t {
                                assert(trial_costs@[k] == before[k]);
                            }
                        }
                    }
                    if t == 0 || cost < best_cost {
                        best_cells = cells;
                        best_cost = cost;
                    }
                },
            }
            t = t + 1;
        }
        let ghost cells = best_cells@;
        let plan = Plan { cells: best_cells, cost: best_cost, trial_costs };
        proof {
            let (order, walks) = choose|order: Seq<Point>, walks: Seq<Seq<Point>>|
                order.to_multiset() == self.house@.to_multiset() && #[trigger] trial_of(
                    nothing_marked(),
                    self.water@,
                    self.guess_cost.view(),
                    order,
                    walks,
                    marking_of(cells),
                );
            assert(plan.cells@ == cells);
            assert(self.water_cells() == self.water@);
            assert(self.cost_field() == self.guess_cost.view());
            assert(self.house_cells() == self.house@);
            assert(trial_of(
                nothing_marked(),
                self.water_cells(),
                self.cost_field(),
                order,
                walks,
                marking_of(plan.cells@),
            ));
            assert(order.to_multiset() == self.house_cells().to_multiset());
        }
        Some(plan)
    }

    /// Recommended energy for the next probe of cell `p` after `s` was spent
    /// on it, and the expected total cost; see `guess_power`.
    pub fn guess_power(&self, p: Point, s: u32) -> (r: (u32, u32))
        requires
            self.wf(),
            in_bounds(p),
        ensures
            (r.0 as int, r.1 as int) == recommend_spec(
                residuals(self.ensemble(), p, s),
                self.overhead() as int,
            ),
            r.0 >= 1,
    {
        proof {
            crate::cost::lemma_search_fits(self.h@, p, s, self.c as int);
        }
        guess_power(self.h.as_slice(), p, self.c, s)
    }
}

/// A walk of side-adjacent in-bounds cells.
pub open spec fn grid_walk(w: Seq<Point>) -> bool {
    &&& w.len() >= 1
    &&& forall|i: int| 0 <= i < w.len() ==> in_bounds(#[trigger] w[i])
    &&& forall|i: int| 0 <= i < w.len() - 1 ==> adjacent(#[trigger] w[i], w[i + 1])
}

/// A tentative distance has been found for cell `i`.
pub open spec fn reached(d: Seq<u64>, i: int) -> bool {
    d[i] < u64::MAX
}

/// An excavated or water cell: where a search from a house may end.
pub open spec fn is_terminal(g: Seq<bool>, water: Seq<Point>, q: Point) -> bool {
    g[cell_index(q)] || water.contains(q)
}

/// Cost of stepping onto cell `q`: nothing when it is already excavated,
/// otherwise its expected cost.
pub open spec fn step_cost(g: Seq<bool>, cost: Seq<u32>, q: Point) -> int {
    if g[cell_index(q)] {
        0
    } else {
        cost[cell_index(q)] as int
    }
}

/// Cost of a walk taken from its first cell: the step costs of the others.
pub open spec fn walk_cost(g: Seq<bool>, cost: Seq<u32>, w: Seq<Point>) -> int
    decreases w.len(),
{
    if w.len() <= 1 {
        0
    } else {
        walk_cost(g, cost, w.drop_last()) + step_cost(g, cost, w.last())
    }
}

/// Cost of a walk taken backwards from its last cell: the step costs of all
/// cells but the last.
pub open spec fn back_cost(g: Seq<bool>, cost: Seq<u32>, w: Seq<Point>) -> int
    decreases w.len(),
{
    if w.len() <= 1 {
        0
    } else {
        back_cost(g, cost, w.drop_last()) + step_cost(g, cost, w[w.len() - 2])
    }
}

/// `path` leads from a terminal other than `start` back to `start` through
/// cells that are not terminals, and costs no more than any walk from `start`
/// to a terminal other than `start`.
pub open spec fn least_walk(
    g: Seq<bool>,
    water: Seq<Point>,
    cost: Seq<u32>,
    start: Point,
    path: Seq<Point>,
) -> bool {
    &&& grid_walk(path)
    &&& path.len() >= 2
    &&& path[0] != start
    &&& is_terminal(g, water, path[0])
    &&& path.last() == start
    &&& forall|i: int| 0 < i < path.len() - 1 ==> !is_terminal(g, water, #[trigger] path[i])
    &&& forall|w: Seq<Point>|
        grid_walk(w) && w[0] == start && w.last() != start && is_terminal(g, water, w.last())
            ==> back_cost(g, cost, path) <= #[trigger] walk_cost(g, cost, w)
}

/// Some trial from an empty grid, over some order of the houses, excavates
/// distinct in-bounds cells whose expected costs sum to `total`.
pub open spec fn trial_costs_total(
    water: Seq<Point>,
    cost: Seq<u32>,
    house: Seq<Point>,
    total: int,
) -> bool {
    exists|order: Seq<Point>, walks: Seq<Seq<Point>>, cells: Seq<Point>|
        order.to_multiset() == house.to_multiset() && #[trigger] trial_of(
            nothing_marked(),
            water,
            cost,
            order,
            walks,
            marking_of(cells),
        ) && cells.no_duplicates() && cells_cost(cost, cells) == total
}

/// The grid with no cell marked.
pub open spec fn nothing_marked() -> Seq<bool> {
    Seq::new((N * N) as nat, |i: int| false)
}

/// `g` with every cell of `w` marked.
pub open spec fn mark_walk(g: Seq<bool>, w: Seq<Point>) -> Seq<bool> {
    Seq::new(g.len(), |i: int| g[i] || exists|t: int| 0 <= t < w.len() && cell_index(w[t]) == i)
}

/// `g0` after the walks `walks[0..k]` were excavated in turn.
pub open spec fn grid_after(g0: Seq<bool>, walks: Seq<Seq<Point>>, k: int) -> Seq<bool>
    decreases k,
{
    if k <= 0 {
        g0
    } else {
        mark_walk(grid_after(g0, walks, k - 1), walks[k - 1])
    }
}

/// A trial from the excavated cells `g0` over the houses `order` excavated
/// `walks`, one per house in turn, each a least-cost walk to water or to the
/// cells excavated before it, and ended with the cells `g` excavated.
pub open spec fn trial_of(
    g0: Seq<bool>,
    water: Seq<Point>,
    cost: Seq<u32>,
    order: Seq<Point>,
    walks: Seq<Seq<Point>>,
    g: Seq<bool>,
) -> bool {
    &&& walks.len() == order.len()
    &&& forall|k: int|
        0 <= k < order.len() ==> #[trigger] least_walk(
            grid_after(g0, walks, k),
            water,
            cost,
            order[k],
            walks[k],
        )
    &&& g == grid_after(g0, walks, order.len() as int)
}

proof fn lemma_grid_after_push(g0: Seq<bool>, walks: Seq<Seq<Point>>, x: Seq<Point>, m: int)
    requires
        0 <= m <= walks.len(),
    ensures
        grid_after(g0, walks.push(x), m) == grid_after(g0, walks, m),
    decreases m,
{
    if m > 0 {
        lemma_grid_after_push(g0, walks, x, m - 1);
        assert(walks.push(x)[m - 1] == walks[m - 1]);
    }
}

/// Index of the first cell of `w`, from position `k` on, that is not settled.
spec fn first_unsettled(w: Seq<Point>, dn: Seq<bool>, k: int) -> int
    decreases w.len() - k,
{
    if k >= w.len() {
        k
    } else if !dn[cell_index(w[k])] {
        k
    } else {
        first_unsettled(w, dn, k + 1)
    }
}

proof fn lemma_first_unsettled(w: Seq<Point>, dn: Seq<bool>, k: int)
    requires
        0 <= k <= w.len(),
    ensures
        k <= first_unsettled(w, dn, k) <= w.len(),
        forall|i: int| k <= i < first_unsettled(w, dn, k) ==> dn[cell_index(#[trigger] w[i])],
        first_unsettled(w, dn, k) < w.len() ==> !dn[cell_index(w[first_unsettled(w, dn, k)])],
    decreases w.len() - k,
{
    if k < w.len() && dn[cell_index(w[k])] {
        lemma_first_unsettled(w, dn, k + 1);
    }
}

/// Dropping cells from the end of a walk never makes it dearer.
proof fn lemma_walk_cost_prefix(g: Seq<bool>, cost: Seq<u32>, w: Seq<Point>, k: int)
    requires
        1 <= k <= w.len(),
        grid_walk(w),
        g.len() == N * N,
    ensures
        walk_cost(g, cost, w.take(k)) <= walk_cost(g, cost, w),
    decreases w.len() - k,
{
    if k < w.len() {
        let u = w.drop_last();
        assert(u.take(k) =~= w.take(k));
        assert forall|i: int| 0 <= i < u.len() - 1 implies adjacent(#[trigger] u[i], u[i + 1]) by {
            assert(u[i] == w[i] && u[i + 1] == w[i + 1]);
        }
        lemma_walk_cost_prefix(g, cost, u, k);
        lemma_cell_index_bounds(w.last());
        assert(walk_cost(g, cost, w) == walk_cost(g, cost, u) + step_cost(g, cost, w.last()));
        assert(step_cost(g, cost, w.last()) >= 0);
    } else {
        assert(w.take(k) =~= w);
    }
}

/// Working state of one search.
struct Search {
    heap: MinHeap,
    dist: Grid<u64>,
    prev: Grid<Option<Point>>,
    done: Grid<bool>,
}

impl Search {
    /// The predecessor links: each reached cell but `start` links to an
    /// adjacent settled cell, its distance being that cell's plus the cost of
    /// stepping onto it; settled cells are `start` or not terminals.
    spec fn links_ok(&self, g: Seq<bool>, water: Seq<Point>, cost: Seq<u32>, start: Point) -> bool {
        let d = self.dist.view();
        let dn = self.done.view();
        let pv = self.prev.view();
        &&& self.dist.wf()
        &&& self.prev.wf()
        &&& self.done.wf()
        &&& g.len() == N * N
        &&& cost.len() == N * N
        &&& in_bounds(start)
        &&& forall|i: int| 0 <= i < N * N ==> #[trigger] cost[i] >= 1
        &&& d[cell_index(start)] == 0
        &&& pv[cell_index(start)] is None
        &&& forall|i: int|
            0 <= i < N * N && #[trigger] reached(d, i) ==> match pv[i] {
                Some(q) => in_bounds(q) && adjacent(cell_at(i), q) && dn[cell_index(q)] && d[i]
                    == d[cell_index(q)] + step_cost(g, cost, cell_at(i)),
                None => cell_at(i) == start,
            }
        &&& forall|i: int|
            0 <= i < N * N && #[trigger] dn[i] ==> reached(d, i) && (cell_at(i) == start
                || !is_terminal(g, water, cell_at(i)))
    }

    /// The invariant of the search from `start`, with heap contents `hc`,
    /// after entries of key `cur` were taken off: except at the cell with
    /// index `busy`, the one being settled, every reached cell that is not
    /// settled has its entry in the heap, and every settled cell's neighbours
    /// are no further than one step from it.
    spec fn inv_at(
        &self,
        hc: Multiset<(u64, Point)>,
        g: Seq<bool>,
        water: Seq<Point>,
        cost: Seq<u32>,
        start: Point,
        busy: int,
        cur: int,
    ) -> bool {
        let d = self.dist.view();
        let dn = self.done.view();
        &&& self.links_ok(g, water, cost, start)
        &&& forall|e: (u64, Point)| #[trigger]
            hc.contains(e) ==> in_bounds(e.1) && d[cell_index(e.1)] <= e.0 && e.0 <= N * N
                * u32::MAX && cur <= e.0
        &&& forall|i: int|
            0 <= i < N * N && i != busy && #[trigger] reached(d, i) && !dn[i] ==> hc.contains(
                (d[i], cell_at(i)),
            )
        &&& forall|i: int|
            0 <= i < N * N && i != busy && #[trigger] dn[i] ==> forall|k: int|
                0 <= k < neighbors_spec(cell_at(i)).len() ==> d[cell_index(
                    #[trigger] neighbors_spec(cell_at(i))[k],
                )] <= d[i] + step_cost(g, cost, neighbors_spec(cell_at(i))[k])
        &&& forall|i: int| 0 <= i < N * N && #[trigger] dn[i] ==> d[i] <= cur
        &&& forall|i: int|
            0 <= i < N * N && #[trigger] reached(d, i) ==> d[i] <= count_true(dn) * u32::MAX
        &&& hc.len() <= 4 * count_true(dn) + 1
        &&& count_true(dn) <= N * N
        &&& !dn[cell_index(start)] ==> forall|e: (u64, Point)| #[trigger] hc.contains(e) ==> e.1
            == start
    }

    spec fn inv(
        &self,
        g: Seq<bool>,
        water: Seq<Point>,
        cost: Seq<u32>,
        start: Point,
        busy: int,
        cur: int,
    ) -> bool {
        &&& self.heap.wf()
        &&& self.inv_at(self.heap.contents(), g, water, cost, start, busy, cur)
    }

    /// Taking a least entry `(w, p)` off the heap keeps the invariant, with
    /// `w` as the key taken, when the entry is stale or `p` is settled
    /// already; otherwise `p` is reached at distance `w` and the invariant
    /// holds but at `p`.
    proof fn lemma_after_pop(
        &self,
        h0: Multiset<(u64, Point)>,
        w: u64,
        p: Point,
        g: Seq<bool>,
        water: Seq<Point>,
        cost: Seq<u32>,
        start: Point,
        cur: int,
    )
        requires
            self.heap.wf(),
            self.inv_at(h0, g, water, cost, start, -1, cur),
            self.heap.contents() == h0.remove((w, p)),
            h0.contains((w, p)),
            forall|f: (u64, Point)| #[trigger] h0.contains(f) ==> w <= f.0,
            in_bounds(p),
        ensures
            cur <= w,
            self.dist.view()[cell_index(p)] < w || self.done.view()[cell_index(p)] ==> self.inv(
                g,
                water,
                cost,
                start,
                -1,
                w as int,
            ),
            !(self.dist.view()[cell_index(p)] < w || self.done.view()[cell_index(p)]) ==> {
                &&& self.inv(g, water, cost, start, cell_index(p), w as int)
                &&& self.dist.view()[cell_index(p)] == w
                &&& reached(self.dist.view(), cell_index(p))
                &&& self.heap.contents().len() + 1 == h0.len()
            },
            p != start ==> self.done.view()[cell_index(start)],
    {
        broadcast use vstd::multiset::group_multiset_axioms;

        let d = self.dist.view();
        let dn = self.done.view();
        let hc = self.heap.contents();
        lemma_cell_index_bounds(p);
        lemma_cell_index_bounds(start);
        assert forall|f: (u64, Point)| #[trigger] hc.contains(f) implies h0.contains(f) by {}
        assert(hc.len() + 1 == h0.len());
        assert forall|i: int|
            0 <= i < N * N && #[trigger] reached(d, i) && !dn[i] && (d[i], cell_at(i)) != (
                w,
                p,
            ) implies hc.contains((d[i], cell_at(i))) by {
            assert(h0.contains((d[i], cell_at(i))));
        }
        assert forall|i: int|
            0 <= i < N * N && i != cell_index(p) && #[trigger] reached(d, i) && !dn[i] implies (
            d[i],
            cell_at(i),
        ) != (w, p) by {
            lemma_cell_at_bounds(i);
        }
        if !(d[cell_index(p)] < w || dn[cell_index(p)]) {
            assert(d[cell_index(p)] <= w);
        }
        if p != start && !dn[cell_index(start)] {
            assert(h0.contains((w, p)));
        }
    }

    /// Along a walk from `start` whose cells but the last are settled, the
    /// last cell's distance is at most the walk's cost.
    proof fn lemma_settled_prefix(
        &self,
        hc: Multiset<(u64, Point)>,
        g: Seq<bool>,
        water: Seq<Point>,
        cost: Seq<u32>,
        start: Point,
        cur: int,
        w: Seq<Point>,
    )
        requires
            self.inv_at(hc, g, water, cost, start, -1, cur),
            grid_walk(w),
            w[0] == start,
            forall|i: int| 0 <= i < w.len() - 1 ==> self.done.view()[cell_index(#[trigger] w[i])],
        ensures
            self.dist.view()[cell_index(w.last())] <= walk_cost(g, cost, w),
        decreases w.len(),
    {
        if w.len() > 1 {
            let u = w.drop_last();
            assert forall|i: int| 0 <= i < u.len() - 1 implies adjacent(#[trigger] u[i], u[i + 1]) by {
                assert(u[i] == w[i] && u[i + 1] == w[i + 1]);
            }
            assert forall|i: int| 0 <= i < u.len() - 1 implies self.done.view()[cell_index(
                #[trigger] u[i],
            )] by {
                assert(u[i] == w[i]);
            }
            self.lemma_settled_prefix(hc, g, water, cost, start, cur, u);
            let x = u.last();
            let y = w.last();
            assert(x == w[w.len() - 2]);
            assert(adjacent(w[w.len() - 2], w[w.len() - 2 + 1]));
            lemma_cell_index_bounds(x);
            lemma_cell_at_bounds(cell_index(x));
            lemma_neighbors(x);
            assert(neighbors_spec(x).contains(y));
            let k = choose|k: int| 0 <= k < neighbors_spec(x).len() && neighbors_spec(x)[k] == y;
            assert(self.done.view()[cell_index(x)]);
            assert(neighbors_spec(cell_at(cell_index(x)))[k] == y);
        }
    }

    /// When a least entry `(dd, t)` of the heap is taken off, no walk from
    /// `start` to a terminal other than `start` costs less than `dd`.
    proof fn lemma_least_entry(
        &self,
        h0: Multiset<(u64, Point)>,
        g: Seq<bool>,
        water: Seq<Point>,
        cost: Seq<u32>,
        start: Point,
        cur: int,
        dd: u64,
        w: Seq<Point>,
    )
        requires
            self.inv_at(h0, g, water, cost, start, -1, cur),
            forall|f: (u64, Point)| #[trigger] h0.contains(f) ==> dd <= f.0,
            self.done.view()[cell_index(start)],
            grid_walk(w),
            w[0] == start,
            w.last() != start,
            is_terminal(g, water, w.last()),
        ensures
            dd <= walk_cost(g, cost, w),
    {
        let dn = self.done.view();
        let d = self.dist.view();
        lemma_first_unsettled(w, dn, 0);
        let j = first_unsettled(w, dn, 0);
        lemma_cell_index_bounds(w.last());
        lemma_cell_at_bounds(cell_index(w.last()));
        if j >= w.len() {
            assert(dn[cell_index(w[w.len() - 1])]);
            assert(false);
        }
        assert(j != 0);
        let pre = w.take(j + 1);
        assert forall|i: int| 0 <= i < pre.len() - 1 implies adjacent(#[trigger] pre[i], pre[i + 1]) by {
            assert(pre[i] == w[i] && pre[i + 1] == w[i + 1]);
        }
        assert forall|i: int| 0 <= i < pre.len() - 1 implies dn[cell_index(#[trigger] pre[i])] by {
            assert(pre[i] == w[i]);
        }
        self.lemma_settled_prefix(h0, g, water, cost, start, cur, pre);
        lemma_walk_cost_prefix(g, cost, w, j + 1);
        let y = w[j];
        let x = w[j - 1];
        lemma_cell_index_bounds(x);
        lemma_cell_index_bounds(y);
        lemma_cell_at_bounds(cell_index(x));
        lemma_cell_at_bounds(cell_index(y));
        lemma_neighbors(x);
        assert(adjacent(w[j - 1], w[j - 1 + 1]));
        assert(neighbors_spec(x).contains(y));
        let k = choose|k: int| 0 <= k < neighbors_spec(x).len() && neighbors_spec(x)[k] == y;
        assert(dn[cell_index(x)]);
        assert(neighbors_spec(cell_at(cell_index(x)))[k] == y);
        assert(reached(d, cell_index(x)));
        assert(d[cell_index(y)] <= d[cell_index(x)] + step_cost(g, cost, y));
        assert(reached(d, cell_index(y)));
        assert(h0.contains((d[cell_index(y)], cell_at(cell_index(y)))));
    }
}

/// The walk from the reached cell `t` back along the predecessor links to
/// `start`, and its cost.
fn trace(
    st: &Search,
    t: Point,
    Ghost(g): Ghost<Seq<bool>>,
    Ghost(water): Ghost<Seq<Point>>,
    Ghost(cost): Ghost<Seq<u32>>,
    Ghost(start): Ghost<Point>,
) -> (r: Vec<Point>)
    requires
        st.links_ok(g, water, cost, start),
        in_bounds(t),
        t != start,
        reached(st.dist.view(), cell_index(t)),
        !st.done.view()[cell_index(t)],
    ensures
        grid_walk(r@),
        r@.len() >= 2,
        r@[0] == t,
        r@.last() == start,
        forall|i: int| 0 < i < r@.len() ==> st.done.view()[cell_index(#[trigger] r@[i])],
        forall|i: int| 0 < i < r@.len() - 1 ==> #[trigger] r@[i] != start,
        back_cost(g, cost, r@) == st.dist.view()[cell_index(t)],
{
    let ghost d = st.dist.view();
    let ghost dn = st.done.view();
    let mut out: Vec<Point> = Vec::new();
    out.push(t);
    let mut cur = t;
    proof {
        lemma_cell_index_bounds(t);
        lemma_cell_at_bounds(cell_index(t));
        assert(out@.drop_last().len() == 0);
    }
    while st.prev.get(cur).is_some()
        invariant
            st.links_ok(g, water, cost, start),
            d == st.dist.view(),
            dn == st.done.view(),
            in_bounds(t),
            t != start,
            !dn[cell_index(t)],
            in_bounds(cur),
            reached(d, cell_index(cur)),
            cur != t ==> dn[cell_index(cur)],
            out@.len() >= 1,
            out@[0] == t,
            out@.last() == cur,
            grid_walk(out@),
            forall|i: int| 0 < i < out@.len() ==> dn[cell_index(#[trigger] out@[i])],
            forall|i: int| 0 < i < out@.len() - 1 ==> #[trigger] out@[i] != start,
            d[cell_index(t)] == back_cost(g, cost, out@) + d[cell_index(cur)],
        decreases d[cell_index(cur)] + (if cur == t { 1int } else { 0int }),
    {
        proof {
            lemma_cell_index_bounds(cur);
            lemma_cell_at_bounds(cell_index(cur));
            lemma_cell_index_bounds(start);
        }
        let q = st.prev.get(cur).unwrap();
        proof {
            assert(reached(d, cell_index(cur)));
            lemma_cell_index_bounds(q);
            lemma_cell_at_bounds(cell_index(q));
            assert(cur != start);
            if cur != t {
                assert(dn[cell_index(cur)]);
                assert(!is_terminal(g, water, cell_at(cell_index(cur))));
                assert(cost[cell_index(cur)] >= 1);
            }
            assert(q != t);
        }
        let ghost before = out@;
        out.push(q);
        proof {
            assert(out@.drop_last() == before);
            assert(out@[out@.len() - 2] == cur);
            assert forall|i: int| 0 <= i < out@.len() - 1 implies adjacent(
                #[trigger] out@[i],
                out@[i + 1],
            ) by {
                if i < before.len() - 1 {
                    assert(out@[i] == before[i] && out@[i + 1] == before[i + 1]);
                }
            }
            assert forall|i: int| 0 < i < out@.len() implies dn[cell_index(#[trigger] out@[i])] by {
                if i < before.len() {
                    assert(out@[i] == before[i]);
                }
            }
            assert forall|i: int| 0 < i < out@.len() - 1 implies #[trigger] out@[i] != start by {
                if i < before.len() - 1 {
                    assert(out@[i] == before[i]);
                }
            }
        }
        cur = q;
    }
    proof {
        lemma_cell_index_bounds(cur);
        lemma_cell_at_bounds(cell_index(cur));
        assert(reached(d, cell_index(cur)));
        assert(cur == start);
        lemma_cell_index_bounds(start);
    }
    out
}

pub proof fn lemma_adjacent_symmetric(a: Point, b: Point)
    ensures
        adjacent(a, b) == adjacent(b, a),
{
}

/// A walk stays marked when more cells are marked.
proof fn lemma_reach_mono(g: Seq<bool>, g2: Seq<bool>, water: Seq<Point>, p: Point)
    requires
        reaches_water(g, water, p),
        g.len() == N * N,
        g2.len() == N * N,
        forall|i: int| 0 <= i < N * N && #[trigger] g[i] ==> g2[i],
    ensures
        reaches_water(g2, water, p),
{
    reveal(reaches_water);
    let w = choose|w: Seq<Point>| #[trigger] marked_walk(g, w) && w[0] == p && water.contains(w.last());
    assert forall|i: int| 0 <= i < w.len() implies in_bounds(#[trigger] w[i]) && g2[cell_index(w[i])] by {
        lemma_cell_index_bounds(w[i]);
    }
    assert(marked_walk(g2, w));
}

/// A marked cell adjacent to a cell joined to water is joined to water.
proof fn lemma_reach_step(g: Seq<bool>, water: Seq<Point>, p: Point, q: Point)
    requires
        reaches_water(g, water, q),
        in_bounds(p),
        g[cell_index(p)],
        adjacent(p, q),
    ensures
        reaches_water(g, water, p),
{
    reveal(reaches_water);
    let w = choose|w: Seq<Point>| #[trigger] marked_walk(g, w) && w[0] == q && water.contains(w.last());
    let w2 = seq![p] + w;
    assert forall|i: int| 0 <= i < w2.len() - 1 implies adjacent(#[trigger] w2[i], w2[i + 1]) by {
        if i > 0 {
            assert(w2[i] == w[i - 1]);
            assert(w2[i + 1] == w[i]);
        }
    }
    assert forall|i: int| 0 <= i < w2.len() implies in_bounds(#[trigger] w2[i]) && g[cell_index(w2[i])] by {
        if i > 0 {
            assert(w2[i] == w[i - 1]);
        }
    }
    assert(w2.last() == w.last());
    assert(marked_walk(g, w2));
}

/// Along a marked walk whose first cell is joined to water, every cell is.
proof fn lemma_walk_reaches(g: Seq<bool>, water: Seq<Point>, path: Seq<Point>, k: int)
    requires
        grid_walk(path),
        0 <= k < path.len(),
        reaches_water(g, water, path[0]),
        forall|t: int| 0 <= t < path.len() ==> g[cell_index(#[trigger] path[t])],
    ensures
        reaches_water(g, water, path[k]),
    decreases k,
{
    if k > 0 {
        lemma_walk_reaches(g, water, path, k - 1);
        lemma_adjacent_symmetric(path[k - 1], path[k]);
        lemma_reach_step(g, water, path[k], path[k - 1]);
    }
}

/// A marked water cell is joined to water.
proof fn lemma_reach_water_cell(g: Seq<bool>, water: Seq<Point>, p: Point)
    requires
        in_bounds(p),
        g[cell_index(p)],
        water.contains(p),
    ensures
        reaches_water(g, water, p),
{
    reveal(reaches_water);
    let w = seq![p];
    assert(marked_walk(g, w));
}

proof fn lemma_cells_cost_bound(cost: Seq<u32>, cells: Seq<Point>)
    requires
        forall|j: int| 0 <= j < cells.len() ==> 0 <= cell_index(#[trigger] cells[j]) < cost.len(),
    ensures
        0 <= cells_cost(cost, cells) <= cells.len() * u32::MAX,
    decreases cells.len(),
{
    if cells.len() > 0 {
        let c = cells.drop_last();
        assert forall|j: int| 0 <= j < c.len() implies 0 <= cell_index(#[trigger] c[j]) < cost.len() by {
            assert(c[j] == cells[j]);
        }
        lemma_cells_cost_bound(cost, c);
    }
}

/// The bookkeeping of one trial: the grid `g` marks the cells marked in `g0`
/// and those of `ans`, which were not marked in `g0`, appear once each, and
/// cost `total` in all.
pub open spec fn trial_ok(g0: Seq<bool>, g: Seq<bool>, ans: Seq<Point>, cost: Seq<u32>, total: int) -> bool {
    &&& forall|i: int| 0 <= i < N * N ==> #[trigger] g[i] == (g0[i] || ans.contains(cell_at(i)))
    &&& forall|j: int| 0 <= j < ans.len() ==> in_bounds(#[trigger] ans[j]) && !g0[cell_index(ans[j])]
    &&& ans.no_duplicates()
    &&& total == cells_cost(cost, ans)
    &&& ans.len() + count_true(g0) == count_true(g)
}

/// Marking one more unmarked cell and recording it keeps the bookkeeping.
proof fn lemma_trial_push(g0: Seq<bool>, g1: Seq<bool>, a1: Seq<Point>, gc: Seq<u32>, cur: Point)
    requires
        g0.len() == N * N,
        g1.len() == N * N,
        gc.len() == N * N,
        in_bounds(cur),
        !g1[cell_index(cur)],
        trial_ok(g0, g1, a1, gc, cells_cost(gc, a1)),
    ensures
        trial_ok(
            g0,
            g1.update(cell_index(cur), true),
            a1.push(cur),
            gc,
            cells_cost(gc, a1) + gc[cell_index(cur)],
        ),
{
    let a2 = a1.push(cur);
    let g2 = g1.update(cell_index(cur), true);
    lemma_cell_index_bounds(cur);
    lemma_count_true_set(g1, cell_index(cur));
    assert(a2.drop_last() == a1);
    assert(!a1.contains(cur)) by {
        if a1.contains(cur) {
            let k = choose|k: int| 0 <= k < a1.len() && a1[k] == cur;
            assert(g1[cell_index(cell_at(cell_index(cur)))]);
        }
    }
    assert forall|i: int| 0 <= i < N * N implies #[trigger] g2[i] == (g0[i] || a2.contains(cell_at(i))) by {
        if i == cell_index(cur) {
            assert(a2[a2.len() - 1] == cur);
        } else {
            lemma_cell_at_bounds(i);
            if a2.contains(cell_at(i)) {
                let k = choose|k: int| 0 <= k < a2.len() && a2[k] == cell_at(i);
                if k < a1.len() {
                    assert(a1[k] == cell_at(i));
                }
            }
            if a1.contains(cell_at(i)) {
                let k = choose|k: int| 0 <= k < a1.len() && a1[k] == cell_at(i);
                assert(a2[k] == cell_at(i));
            }
        }
    }
    assert forall|j: int| 0 <= j < a2.len() implies in_bounds(#[trigger] a2[j]) && !g0[cell_index(a2[j])] by {
        if j < a1.len() {
            assert(a2[j] == a1[j]);
        }
    }
    assert forall|x: int, y: int| 0 <= x < a2.len() && 0 <= y < a2.len() && x != y implies a2[x] != a2[y] by {
        if x < a1.len() && y < a1.len() {
            assert(a2[x] == a1[x] && a2[y] == a1[y]);
        } else if x < a1.len() {
            assert(a2[x] == a1[x]);
            assert(a1.contains(a2[x]));
        } else {
            assert(a2[y] == a1[y]);
            assert(a1.contains(a2[y]));
        }
    }
}

/// Once every cell of a walk that starts at water or at a joined cell is
/// marked, on top of a grid where every marked cell was joined to water,
/// every marked cell is joined to water.
proof fn lemma_network_after_path(gb: Seq<bool>, g2: Seq<bool>, water: Seq<Point>, path: Seq<Point>)
    requires
        gb.len() == N * N,
        g2.len() == N * N,
        network_connected(gb, water),
        grid_walk(path),
        gb[cell_index(path[0])] || water.contains(path[0]),
        forall|i: int| 0 <= i < N * N && #[trigger] gb[i] ==> g2[i],
        forall|i: int| 0 <= i < N * N && #[trigger] g2[i] ==> gb[i] || exists|k: int| 0 <= k < path.len() && cell_index(path[k]) == i,
        forall|k: int| 0 <= k < path.len() ==> g2[cell_index(#[trigger] path[k])],
    ensures
        network_connected(g2, water),
        forall|k: int| 0 <= k < path.len() ==> reaches_water(g2, water, #[trigger] path[k]),
{
    reveal(network_connected);
    lemma_cell_index_bounds(path[0]);
    lemma_cell_at_bounds(cell_index(path[0]));
    if water.contains(path[0]) {
        lemma_reach_water_cell(g2, water, path[0]);
    } else {
        lemma_reach_mono(gb, g2, water, path[0]);
    }
    assert forall|k: int| 0 <= k < path.len() implies reaches_water(g2, water, #[trigger] path[k]) by {
        lemma_walk_reaches(g2, water, path, k);
    }
    assert forall|i: int| 0 <= i < N * N && #[trigger] g2[i] implies reaches_water(g2, water, cell_at(i)) by {
        if gb[i] {
            lemma_reach_mono(gb, g2, water, cell_at(i));
        } else {
            let k = choose|k: int| 0 <= k < path.len() && cell_index(path[k]) == i;
            lemma_cell_index_bounds(path[k]);
            assert(cell_at(i) == path[k]);
        }
    }
}

/// Least of a non-empty sequence of costs.
pub open spec fn min_of(s: Seq<u64>) -> u64
    decreases s.len(),
{
    if s.len() <= 1 {
        s[0]
    } else {
        let m = min_of(s.drop_last());
        if s.last() < m {
            s.last()
        } else {
            m
        }
    }
}

/// Keeping the cheapest of more trials never costs more: of the trials of one
/// run, the best of the first `b` costs at most the best of the first `a`
/// whenever `a <= b`.
pub proof fn lemma_more_trials_no_worse(costs: Seq<u64>, a: int, b: int)
    requires
        1 <= a <= b <= costs.len(),
    ensures
        min_of(costs.take(b)) <= min_of(costs.take(a)),
    decreases b - a,
{
    if a < b {
        lemma_more_trials_no_worse(costs, a, b - 1);
        assert(costs.take(b).drop_last() =~= costs.take(b - 1));
    }
}

/// A trial from an empty grid marks exactly the cells it reports.
proof fn lemma_trial_from_empty(g0: Seq<bool>, g: Seq<bool>, ans: Seq<Point>, cost: Seq<u32>, total: int)
    requires
        g0.len() == N * N,
        g.len() == N * N,
        forall|i: int| 0 <= i < N * N ==> !g0[i],
        trial_ok(g0, g, ans, cost, total),
    ensures
        g == marking_of(ans),
{
    assert(g =~= marking_of(ans));
}

/// The result of planning: the cells to excavate, in order, their total
/// expected cost, and the cost of every trial run.
pub struct Plan {
    pub cells: Vec<Point>,
    pub cost: u64,
    pub trial_costs: Vec<u64>,
}

/// The landmark cells as `(row, column)` index pairs, a cell `(x, y)` lying
/// in row `y` and column `x`: the water cells, then the houses.
pub fn landmarks(water: &[(u32, u32)], house: &[(u32, u32)]) -> (r: Vec<(usize, usize)>)
    ensures
        r@ == (water@ + house@).map_values(|w: (u32, u32)| (w.1 as usize, w.0 as usize)),
{
    let mut r: Vec<(usize, usize)> = Vec::new();
    let mut i: usize = 0;
    while i < water.len()
        invariant
            i <= water@.len(),
            r@ == water@.take(i as int).map_values(|w: (u32, u32)| (w.1 as usize, w.0 as usize)),
        decreases water@.len() - i,
    {
        let (x, y) = water[i];
        r.push((y as usize, x as usize));
        i = i + 1;
        assert(r@ =~= water@.take(i as int).map_values(
            |w: (u32, u32)| (w.1 as usize, w.0 as usize),
        ));
    }
    let mut j: usize = 0;
    while j < house.len()
        invariant
            i == water@.len(),
            j <= house@.len(),
            r@ == (water@ + house@.take(j as int)).map_values(
                |w: (u32, u32)| (w.1 as usize, w.0 as usize),
            ),
        decreases house@.len() - j,
    {
        let (x, y) = house[j];
        r.push((y as usize, x as usize));
        j = j + 1;
        assert(r@ =~= (water@ + house@.take(j as int)).map_values(
            |w: (u32, u32)| (w.1 as usize, w.0 as usize),
        ));
    }
    assert(water@.take(i as int) =~= water@);
    assert(house@.take(j as int) =~= house@);
    r
}

/// The cells named by coordinate pairs.
fn to_points(v: &[(u32, u32)]) -> (r: Vec<Point>)
    ensures
        r@ == v@.map_values(|w: (u32, u32)| Point { x: w.0, y: w.1 }),
{
    let mut r: Vec<Point> = Vec::new();
    let mut i: usize = 0;
    while i < v.len()
        invariant
            i <= v@.len(),
            r@ == v@.take(i as int).map_values(|w: (u32, u32)| Point { x: w.0, y: w.1 }),
        decreases v@.len() - i,
    {
        let (x, y) = v[i];
        r.push(Point::new(x, y));
        i = i + 1;
        assert(r@ =~= v@.take(i as int).map_values(|w: (u32, u32)| Point { x: w.0, y: w.1 }));
    }
    assert(v@.take(i as int) =~= v@);
    r
}

} // verus!
