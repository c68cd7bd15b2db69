use std::collections::{HashSet, VecDeque};

use ahc018::judge::{next_step, run, DigResult, Judge, Outcome, Step};
use ahc018::solver::Solver;
use ahc018::{Grid, Point, N};
use rand_pcg::Mcg128Xsl64;

fn uniform(v: u32) -> Grid<u32> {
    Grid::from_vec(vec![v; N * N]).unwrap()
}

/// A synthetic hardness field with some structure, values in [10, 5000].
fn field(seed: u32) -> Grid<u32> {
    let mut data = Vec::with_capacity(N * N);
    for y in 0..N as u32 {
        for x in 0..N as u32 {
            let v = (x * 37 + y * 53 + seed * 101 + (x * y) % 97) % 4991 + 10;
            data.push(v);
        }
    }
    Grid::from_vec(data).unwrap()
}

/// Whether `from` reaches a water cell through cells of `cells`.
fn joined(cells: &HashSet<Point>, water: &[(u32, u32)], from: Point) -> bool {
    let water: HashSet<Point> = water.iter().map(|&(x, y)| Point::new(x, y)).collect();
    let mut seen = HashSet::new();
    let mut queue = VecDeque::new();
    if cells.contains(&from) {
        queue.push_back(from);
        seen.insert(from);
    }
    while let Some(p) = queue.pop_front() {
        if water.contains(&p) {
            return true;
        }
        for n in p.neighbors() {
            if cells.contains(&n) && seen.insert(n) {
                queue.push_back(n);
            }
        }
    }
    false
}

/// Breaks a cell once the energy spent on it reaches its hardness; reports
/// success once every house is joined to water through broken cells.
struct StubJudge {
    hardness: u32,
    spent: Vec<u32>,
    broken: HashSet<Point>,
    water: Vec<(u32, u32)>,
    house: Vec<(u32, u32)>,
}

impl StubJudge {
    fn new(hardness: u32, water: &[(u32, u32)], house: &[(u32, u32)]) -> StubJudge {
        StubJudge {
            hardness,
            spent: vec![0; N * N],
            broken: HashSet::new(),
            water: water.to_vec(),
            house: house.to_vec(),
        }
    }
}

impl Judge for StubJudge {
    fn dig(&mut self, x: usize, y: usize, p: u32) -> DigResult {
        let cell = Point::new(x as u32, y as u32);
        if self.broken.contains(&cell) {
            return DigResult::Error;
        }
        self.spent[y * N + x] += p;
        if self.spent[y * N + x] < self.hardness {
            return DigResult::NotBreak;
        }
        self.broken.insert(cell);
        let done = self
            .house
            .iter()
            .all(|&(hx, hy)| joined(&self.broken, &self.water, Point::new(hx, hy)));
        if done {
            DigResult::BreakAndFinish
        } else {
            DigResult::Break
        }
    }
}

#[test]
fn single_house_path_and_execution() {
    let water = [(0u32, 0u32)];
    let house = [(4u32, 4u32)];
    let mut solver = Solver::new(&water, &house, 8, vec![uniform(100)]);
    let mut rng = Mcg128Xsl64::new(1);
    solver.reset();
    let (cells, cost) = solver.solve(&mut rng).unwrap();
    // Manhattan length 8: nine cells from water to house.
    assert_eq!(cells.len(), 9);
    assert_eq!(cells[0], Point::new(0, 0));
    assert_eq!(cells[8], Point::new(4, 4));
    for w in cells.windows(2) {
        assert_eq!(w[0].manhattan(&w[1]), 1);
    }
    assert_eq!(cost, 9 * 108);

    let mut judge = StubJudge::new(100, &water, &house);
    let report = run(&solver, &cells, &mut judge);
    assert_eq!(report.outcome, Outcome::Finished);
    assert_eq!(report.probes.len(), 9);
    let spent: u64 = report.probes.iter().map(|&(_, p, _)| (p + 8) as u64).sum();
    assert_eq!(spent, cost);
}

#[test]
fn execution_with_wide_ensemble_probes_in_steps() {
    let water = [(0u32, 0u32)];
    let house = [(0u32, 2u32)];
    let ens: Vec<Grid<u32>> = (0..10).map(|_| uniform(100)).collect();
    let mut solver = Solver::new(&water, &house, 8, ens);
    let mut rng = Mcg128Xsl64::new(3);
    solver.reset();
    let (cells, cost) = solver.solve(&mut rng).unwrap();
    assert_eq!(cells.len(), 3);
    // Each cell is predicted to cost 1800 over ten samples of 100.
    assert_eq!(cost, 3 * 1800);
    let mut judge = StubJudge::new(100, &water, &house);
    let report = run(&solver, &cells, &mut judge);
    assert_eq!(report.outcome, Outcome::Finished);
    // Ten probes of energy 10 per cell.
    assert_eq!(report.probes.len(), 30);
    assert!(report.probes.iter().all(|&(_, p, _)| p == 10));
    let spent: u64 = report.probes.iter().map(|&(_, p, _)| (p + 8) as u64).sum();
    assert_eq!(spent * 10, cost);
}

struct RefusingJudge;

impl Judge for RefusingJudge {
    fn dig(&mut self, _x: usize, _y: usize, _p: u32) -> DigResult {
        DigResult::Error
    }
}

struct BreakingJudge {
    count: usize,
}

impl Judge for BreakingJudge {
    fn dig(&mut self, _x: usize, _y: usize, _p: u32) -> DigResult {
        self.count += 1;
        DigResult::Break
    }
}

#[test]
fn execution_stops_on_error_and_reports_exhaustion() {
    let water = [(0u32, 0u32)];
    let house = [(3u32, 0u32)];
    let solver = Solver::new(&water, &house, 1, vec![uniform(50)]);
    let plan = vec![Point::new(0, 0), Point::new(1, 0), Point::new(2, 0)];
    let report = run(&solver, &plan, &mut RefusingJudge);
    assert_eq!(report.outcome, Outcome::Failed);
    assert_eq!(report.probes.len(), 1);
    let mut judge = BreakingJudge { count: 0 };
    let report = run(&solver, &plan, &mut judge);
    assert_eq!(report.outcome, Outcome::Exhausted);
    assert_eq!(judge.count, 3);
    assert_eq!(report.probes[1], (Point::new(1, 0), 50, DigResult::Break));
    let empty: Vec<Point> = Vec::new();
    assert_eq!(run(&solver, &empty, &mut judge).outcome, Outcome::Exhausted);
}

#[test]
fn every_house_is_joined_to_water() {
    let water = [(0u32, 0u32), (199, 199), (100, 0)];
    let house = [(50u32, 50u32), (60, 120), (150, 30), (10, 190), (199, 0)];
    let ens = vec![field(1), field(2), field(3)];
    let mut solver = Solver::new(&water, &house, 16, ens);
    let mut rng = Mcg128Xsl64::new(7);
    for _ in 0..3 {
        solver.reset();
        let (cells, _) = solver.solve(&mut rng).unwrap();
        let set: HashSet<Point> = cells.iter().copied().collect();
        assert_eq!(set.len(), cells.len());
        for &(x, y) in &house {
            assert!(set.contains(&Point::new(x, y)));
            assert!(joined(&set, &water, Point::new(x, y)));
        }
    }
}

#[test]
fn house_on_only_water_cell_cannot_be_joined() {
    let water = [(5u32, 5u32)];
    let house = [(5u32, 5u32)];
    let mut solver = Solver::new(&water, &house, 1, vec![uniform(10)]);
    let mut rng = Mcg128Xsl64::new(1);
    solver.reset();
    assert!(solver.solve(&mut rng).is_none());
}

#[test]
fn more_restarts_are_no_worse() {
    let water = [(0u32, 0u32), (199, 199)];
    let house = [(50u32, 50u32), (60, 120), (150, 30), (120, 180)];
    let ens = vec![field(4), field(5), field(6)];
    let mut one = Solver::new(&water, &house, 8, ens.clone());
    let mut ten = Solver::new(&water, &house, 8, ens);
    let best_of_one = one.plan(&mut Mcg128Xsl64::new(1), 1).unwrap();
    let best_of_ten = ten.plan(&mut Mcg128Xsl64::new(1), 10).unwrap();
    assert_eq!(best_of_one.trial_costs.len(), 1);
    assert_eq!(best_of_ten.trial_costs.len(), 10);
    assert_eq!(best_of_ten.trial_costs[0], best_of_one.trial_costs[0]);
    assert!(best_of_ten.cost <= best_of_one.cost);
    assert_eq!(best_of_ten.cost, *best_of_ten.trial_costs.iter().min().unwrap());
    // The house order is drawn anew for each trial, so the trials differ.
    let first = best_of_ten.trial_costs[0];
    assert!(best_of_ten.trial_costs.iter().any(|&c| c != first));
    let set: HashSet<Point> = best_of_ten.cells.iter().copied().collect();
    for &(x, y) in &house {
        assert!(joined(&set, &water, Point::new(x, y)));
    }
}

#[test]
fn guess_power_of_solver_tracks_spend() {
    let solver = Solver::new(&[(0, 0)], &[(1, 1)], 4, vec![uniform(300)]);
    assert_eq!(solver.guess_power(Point::new(2, 2), 0), (300, 304));
    assert_eq!(solver.guess_power(Point::new(2, 2), 100), (200, 204));
    assert_eq!(solver.guess_power(Point::new(2, 2), 300), (100, 104));
}

#[test]
fn landmarks_list_water_then_houses() {
    let l = ahc018::solver::landmarks(&[(1, 2), (3, 4)], &[(5, 6)]);
    assert_eq!(l, vec![(2usize, 1usize), (4, 3), (6, 5)]);
    assert!(ahc018::solver::landmarks(&[], &[]).is_empty());
}

#[test]
fn search_prefers_cheaper_water() {
    // The water cell next to the house is very hard; the one two steps away
    // is reached more cheaply.
    let mut field = uniform(10);
    field.set(Point::new(3, 0), 5000);
    let water = [(3u32, 0u32), (0, 0)];
    let house = [(2u32, 0u32)];
    let mut solver = Solver::new(&water, &house, 8, vec![field]);
    let mut rng = Mcg128Xsl64::new(1);
    solver.reset();
    let (cells, cost) = solver.solve(&mut rng).unwrap();
    assert_eq!(cells, vec![Point::new(0, 0), Point::new(1, 0), Point::new(2, 0)]);
    assert_eq!(cost, 3 * 18);
}

#[test]
fn second_house_joins_existing_network() {
    let water = [(0u32, 0u32)];
    let house = [(0u32, 4u32), (0u32, 5u32)];
    let mut solver = Solver::new(&water, &house, 8, vec![uniform(100)]);
    let mut rng = Mcg128Xsl64::new(5);
    solver.reset();
    let (cells, cost) = solver.solve(&mut rng).unwrap();
    // Whichever house goes first, the other joins the network rather than
    // water, and the six cells of column 0 from water to (0, 5) result.
    assert_eq!(cells.len(), 6);
    assert_eq!(cost, 6 * 108);
}

#[test]
fn step_after_each_reply() {
    assert_eq!(
        next_step(3, 40, 25, DigResult::NotBreak),
        Step::Continue { pos: 3, spend: 65 }
    );
    assert_eq!(
        next_step(3, u32::MAX - 10, 25, DigResult::NotBreak),
        Step::Stop(Outcome::Stuck)
    );
    assert_eq!(next_step(3, 40, 25, DigResult::Break), Step::Continue { pos: 4, spend: 0 });
    assert_eq!(next_step(3, 40, 25, DigResult::BreakAndFinish), Step::Stop(Outcome::Finished));
    assert_eq!(next_step(0, 0, 100, DigResult::Error), Step::Stop(Outcome::Failed));
}

/// Breaks a cell once the energy spent on it reaches `hardness`, never
/// reporting success.
struct ThresholdJudge {
    hardness: u32,
    spent: u32,
}

impl Judge for ThresholdJudge {
    fn dig(&mut self, _x: usize, _y: usize, p: u32) -> DigResult {
        self.spent += p;
        if self.spent >= self.hardness {
            self.spent = 0;
            DigResult::Break
        } else {
            DigResult::NotBreak
        }
    }
}

#[test]
fn execution_escalates_after_not_break() {
    // Two samples per cell, 100 and 400: probes go on until the true
    // hardness of 400 is reached, each energy taken from the cost model
    // given what was already spent.
    let p = Point::new(0, 0);
    let mut a = uniform(10);
    a.set(p, 100);
    let mut b = uniform(10);
    b.set(p, 400);
    let solver = Solver::new(&[(0, 0)], &[(0, 1)], 8, vec![a, b]);
    let mut judge = ThresholdJudge { hardness: 400, spent: 0 };
    let report = run(&solver, &vec![p], &mut judge);
    assert_eq!(report.outcome, Outcome::Exhausted);
    let mut spend = 0u32;
    for (i, &(cell, power, reply)) in report.probes.iter().enumerate() {
        assert_eq!(cell, p);
        assert_eq!(power, solver.guess_power(p, spend).0);
        spend += power;
        if i + 1 < report.probes.len() {
            assert_eq!(reply, DigResult::NotBreak);
        } else {
            assert_eq!(reply, DigResult::Break);
        }
    }
    assert!(spend >= 400);
    assert!(report.probes.len() >= 2);
}
