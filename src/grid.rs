//! Cells of the square grid and per-cell storage.
use vstd::prelude::*;

use crate::{abs_diff, N};

verus! {

/// A cell of the grid, `x` the column and `y` the row.
#[derive(Debug, Copy, Clone, PartialEq, Eq, Hash, Structural)]
pub struct Point {
    pub x: u32,
    pub y: u32,
}

/// The cell lies on the `N` by `N` grid.
pub open spec fn in_bounds(p: Point) -> bool {
    p.x < N && p.y < N
}

/// Position of a cell in row-major storage.
pub open spec fn cell_index(p: Point) -> int {
    p.y * N + p.x
}

/// The cell at a position of row-major storage.
pub open spec fn cell_at(i: int) -> Point {
    Point { x: (i % (N as int)) as u32, y: (i / (N as int)) as u32 }
}

/// Distance between two cells, counted in unit steps along rows and columns.
pub open spec fn manhattan_spec(a: Point, b: Point) -> int {
    (if a.x < b.x { b.x - a.x } else { a.x - b.x }) + (if a.y < b.y { b.y - a.y } else { a.y - b.y })
}

/// Two cells share a side.
pub open spec fn adjacent(a: Point, b: Point) -> bool {
    manhattan_spec(a, b) == 1
}

/// The in-bounds side neighbours of a cell, in the order left, right, up, down.
pub open spec fn neighbors_spec(p: Point) -> Seq<Point> {
    let s0 = if p.x > 0 { seq![Point { x: (p.x - 1) as u32, y: p.y }] } else { Seq::empty() };
    let s1 = if p.x + 1 < N { s0.push(Point { x: (p.x + 1) as u32, y: p.y }) } else { s0 };
    let s2 = if p.y > 0 { s1.push(Point { x: p.x, y: (p.y - 1) as u32 }) } else { s1 };
    if p.y + 1 < N { s2.push(Point { x: p.x, y: (p.y + 1) as u32 }) } else { s2 }
}

/// The neighbours of a cell are at most four in-bounds cells, each adjacent to
/// it, and every in-bounds cell adjacent to it is among them.
pub proof fn lemma_neighbors(p: Point)
    requires
        in_bounds(p),
    ensures
        neighbors_spec(p).len() <= 4,
        forall|i: int|
            0 <= i < neighbors_spec(p).len() ==> in_bounds(#[trigger] neighbors_spec(p)[i])
                && adjacent(p, neighbors_spec(p)[i]) && adjacent(neighbors_spec(p)[i], p),
        forall|q: Point| in_bounds(q) && adjacent(p, q) ==> #[trigger] neighbors_spec(p).contains(q),
{
    let s = neighbors_spec(p);
    assert forall|q: Point| in_bounds(q) && adjacent(p, q) implies #[trigger] s.contains(q) by {
        let s0 = if p.x > 0 { seq![Point { x: (p.x - 1) as u32, y: p.y }] } else { Seq::empty() };
        let s1 = if p.x + 1 < N { s0.push(Point { x: (p.x + 1) as u32, y: p.y }) } else { s0 };
        let s2 = if p.y > 0 { s1.push(Point { x: p.x, y: (p.y - 1) as u32 }) } else { s1 };
        if q.x + 1 == p.x && q.y == p.y {
            assert(s0[0] == q);
            assert(s1[0] == q);
            assert(s2[0] == q);
            assert(s[0] == q);
        } else if q.x == p.x + 1 && q.y == p.y {
            let k = s1.len() - 1;
            assert(s1[k] == q);
            assert(s2[k] == q);
            assert(s[k] == q);
        } else if q.x == p.x && q.y + 1 == p.y {
            let k = s2.len() - 1;
            assert(s2[k] == q);
            assert(s[k] == q);
        } else {
            assert(q.x == p.x && q.y == p.y + 1);
            assert(s[s.len() - 1] == q);
        }
    }
}

/// A set of cells that holds `a` and every in-bounds neighbour of each of its
/// cells holds every cell of the grid.
pub proof fn lemma_closed_set_covers(member: spec_fn(Point) -> bool, a: Point, b: Point)
    requires
        in_bounds(a),
        in_bounds(b),
        member(a),
        forall|x: Point, i: int|
            in_bounds(x) && member(x) && 0 <= i < neighbors_spec(x).len() ==> member(
                #[trigger] neighbors_spec(x)[i],
            ),
    ensures
        member(b),
    decreases manhattan_spec(a, b),
{
    if a != b {
        let q = if a.x < b.x {
            Point { x: (a.x + 1) as u32, y: a.y }
        } else if a.x > b.x {
            Point { x: (a.x - 1) as u32, y: a.y }
        } else if a.y < b.y {
            Point { x: a.x, y: (a.y + 1) as u32 }
        } else {
            Point { x: a.x, y: (a.y - 1) as u32 }
        };
        lemma_neighbors(a);
        assert(neighbors_spec(a).contains(q));
        let i = choose|i: int| 0 <= i < neighbors_spec(a).len() && neighbors_spec(a)[i] == q;
        assert(member(neighbors_spec(a)[i]));
        lemma_closed_set_covers(member, q, b);
    }
}

pub proof fn lemma_cell_index_bounds(p: Point)
    requires
        in_bounds(p),
    ensures
        0 <= cell_index(p) < N * N,
        cell_at(cell_index(p)) == p,
{
    assert(0 <= cell_index(p) < N * N) by (nonlinear_arith)
        requires p.x < 200, p.y < 200, cell_index(p) == p.y * 200 + p.x;
    assert((p.y * 200 + p.x) % 200 == p.x && (p.y * 200 + p.x) / 200 == p.y) by (nonlinear_arith)
        requires p.x < 200, p.y < 200;
}

/// Distinct in-bounds cells have distinct storage positions.
pub proof fn lemma_cell_index_injective(p: Point, q: Point)
    requires
        in_bounds(p),
        in_bounds(q),
        cell_index(p) == cell_index(q),
    ensures
        p == q,
{
    lemma_cell_index_bounds(p);
    lemma_cell_index_bounds(q);
}

pub proof fn lemma_cell_at_bounds(i: int)
    requires
        0 <= i < N * N,
    ensures
        in_bounds(cell_at(i)),
        cell_index(cell_at(i)) == i,
{
    assert(i % 200 < 200 && i / 200 < 200 && (i / 200) * 200 + i % 200 == i) by (nonlinear_arith)
        requires 0 <= i < 40000;
}

impl Point {
    pub fn new(x: u32, y: u32) -> (r: Point)
        ensures
            r == (Point { x, y }),
    {
        Point { x, y }
    }

    pub fn x(self) -> (r: u32)
        ensures
            r == self.x,
    {
        self.x
    }

    pub fn y(self) -> (r: u32)
        ensures
            r == self.y,
    {
        self.y
    }

    pub fn manhattan(&self, other: &Point) -> (r: u32)
        requires
            manhattan_spec(*self, *other) <= u32::MAX,
        ensures
            r as int == manhattan_spec(*self, *other),
    {
        let dx = abs_diff(self.x, other.x);
        let dy = abs_diff(self.y, other.y);
        dx + dy
    }

    /// The side neighbours of an in-bounds cell that lie on the grid.
    pub fn neighbors(self) -> (nei: Vec<Point>)
        requires
            in_bounds(self),
        ensures
            nei@ == neighbors_spec(self),
    {
        let mut nei: Vec<Point> = Vec::with_capacity(4);
        if self.x > 0 {
            nei.push(Point::new(self.x - 1, self.y));
        }
        if self.x + 1 < N as u32 {
            nei.push(Point::new(self.x + 1, self.y));
        }
        if self.y > 0 {
            nei.push(Point::new(self.x, self.y - 1));
        }
        if self.y + 1 < N as u32 {
            nei.push(Point::new(self.x, self.y + 1));
        }
        assert(nei@ =~= neighbors_spec(self));
        nei
    }
}

/// A value for every cell of the grid, stored row by row.
#[derive(Debug, Clone)]
pub struct Grid<T> {
    data: Vec<T>,
}

impl<T> Grid<T> {
    /// The stored values, indexed by `cell_index`.
    pub closed spec fn view(&self) -> Seq<T> {
        self.data@
    }

    /// The grid holds one value per cell.
    pub open spec fn wf(&self) -> bool {
        self.view().len() == N * N
    }

    /// Builds a grid from values given row by row; `None` unless there is
    /// exactly one value per cell.
    pub fn from_vec(data: Vec<T>) -> (r: Option<Grid<T>>)
        ensures
            data@.len() == N * N <==> r is Some,
            r matches Some(g) ==> g.wf() && g.view() == data@,
    {
        if data.len() == N * N {
            Some(Grid { data })
        } else {
            None
        }
    }

    /// The value stored for an in-bounds cell.
    pub fn get(&self, p: Point) -> (r: &T)
        requires
            self.wf(),
            in_bounds(p),
        ensures
            *r == self.view()[cell_index(p)],
    {
        proof {
            lemma_cell_index_bounds(p);
        }
        &self.data[(p.y * N as u32 + p.x) as usize]
    }

    /// Replaces the value stored for an in-bounds cell.
    pub fn set(&mut self, p: Point, v: T)
        requires
            old(self).wf(),
            in_bounds(p),
        ensures
            final(self).wf(),
            final(self).view() == old(self).view().update(cell_index(p), v),
    {
        proof {
            lemma_cell_index_bounds(p);
        }
        self.data.set((p.y * N as u32 + p.x) as usize, v);
    }
}

impl<T: Copy> Grid<T> {
    /// A grid holding `init` in every cell.
    pub fn new(init: T) -> (r: Grid<T>)
        ensures
            r.wf(),
            r.view() == Seq::new((N * N) as nat, |i: int| init),
    {
        let mut data: Vec<T> = Vec::with_capacity(N * N);
        while data.len() < N * N
            invariant
                data@.len() <= N * N,
                forall|i: int| 0 <= i < data@.len() ==> data@[i] == init,
            decreases N * N - data@.len(),
        {
            data.push(init);
        }
        assert(data@ =~= Seq::new((N * N) as nat, |i: int| init));
        Grid { data }
    }
}

} // verus!
