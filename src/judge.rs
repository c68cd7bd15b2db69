//! Execution of a plan against the oracle that breaks cells.
use vstd::prelude::*;

use crate::cost::{recommend_spec, residuals};
use crate::grid::{in_bounds, Point};
use crate::solver::Solver;

verus! {

/// The oracle's reply to one probe.
#[derive(Debug, Copy, Clone, PartialEq, Eq, Structural)]
pub enum DigResult {
    /// The cell withstood the probe.
    NotBreak,
    /// The cell broke.
    Break,
    /// The cell broke and every house is now joined to water.
    BreakAndFinish,
    /// The probe was refused.
    Error,
}

/// The oracle: probes cell `(x, y)` with energy `p`.
pub trait Judge {
    fn dig(&mut self, x: usize, y: usize, p: u32) -> DigResult;
}

/// How an execution ended.
#[derive(Debug, Copy, Clone, PartialEq, Eq, Structural)]
pub enum Outcome {
    /// The oracle reported that every house is joined to water.
    Finished,
    /// The oracle refused a probe.
    Failed,
    /// Every planned cell broke without the oracle reporting success.
    Exhausted,
    /// A cell withstood probes until the energy spent on it no longer fit in
    /// `u32`.
    Stuck,
}

/// One probe: the cell, the energy used, and the oracle's reply.
pub type ProbeRecord = (Point, u32, DigResult);

/// The outcome of an execution and every probe it made, in order.
pub struct Report {
    pub outcome: Outcome,
    pub probes: Vec<ProbeRecord>,
}

/// Position in the plan and energy spent on the current cell after the
/// probes of `log`.
pub open spec fn exec_state(log: Seq<ProbeRecord>) -> (int, int)
    decreases log.len(),
{
    if log.len() == 0 {
        (0, 0)
    } else {
        let (pos, spend) = exec_state(log.drop_last());
        let e = log.last();
        match e.2 {
            DigResult::NotBreak => (pos, spend + e.1),
            DigResult::Break => (pos + 1, 0),
            _ => (pos, spend),
        }
    }
}

/// Every probe of `log` goes to the current cell of `plan` with the energy
/// that the cost model recommends given what was spent on it, and only the
/// last probe may have ended the run.
pub open spec fn log_follows_plan(
    h: Seq<crate::grid::Grid<u32>>,
    c: u32,
    plan: Seq<Point>,
    log: Seq<ProbeRecord>,
) -> bool {
    forall|k: int|
        0 <= k < log.len() ==> {
            let (pos, spend) = exec_state(#[trigger] log.take(k));
            &&& 0 <= pos < plan.len()
            &&& 0 <= spend <= u32::MAX
            &&& log[k].0 == plan[pos]
            &&& log[k].1 == recommend_spec(residuals(h, plan[pos], spend as u32), c as int).0
            &&& k < log.len() - 1 ==> (log[k].2 == DigResult::NotBreak || log[k].2
                == DigResult::Break)
        }
}

/// The outcome that a run with probes `log` over `plan` ends in.
pub open spec fn outcome_of(plan: Seq<Point>, log: Seq<ProbeRecord>, o: Outcome) -> bool {
    match o {
        Outcome::Finished => log.len() > 0 && log.last().2 == DigResult::BreakAndFinish,
        Outcome::Failed => log.len() > 0 && log.last().2 == DigResult::Error,
        Outcome::Exhausted => exec_state(log).0 == plan.len() && (log.len() == 0
            || log.last().2 == DigResult::Break),
        Outcome::Stuck => log.len() > 0 && log.last().2 == DigResult::NotBreak && exec_state(
            log,
        ).1 > u32::MAX,
    }
}

/// What the execution does after a reply.
#[derive(Debug, Copy, Clone, PartialEq, Eq, Structural)]
pub enum Step {
    /// Probe the cell at position `pos` of the plan next, `spend` having been
    /// spent on it.
    Continue { pos: usize, spend: u32 },
    /// End the run.
    Stop(Outcome),
}

/// The decision after the oracle answered `reply` to a probe of energy
/// `power` on the cell at position `pos`, `spend` having been spent on it
/// before: on `NotBreak` probe the same cell again with the energy added to
/// what was spent (stuck when that no longer fits in `u32`), on `Break` go to
/// the next cell with nothing spent, and stop on success or refusal.
pub fn next_step(pos: usize, spend: u32, power: u32, reply: DigResult) -> (r: Step)
    requires
        pos < usize::MAX,
    ensures
        r == match reply {
            DigResult::NotBreak => if spend + power <= u32::MAX {
                Step::Continue { pos, spend: (spend + power) as u32 }
            } else {
                Step::Stop(Outcome::Stuck)
            },
            DigResult::Break => Step::Continue { pos: (pos + 1) as usize, spend: 0 },
            DigResult::BreakAndFinish => Step::Stop(Outcome::Finished),
            DigResult::Error => Step::Stop(Outcome::Failed),
        },
{
    match reply {
        DigResult::NotBreak => match spend.checked_add(power) {
            Some(s) => Step::Continue { pos, spend: s },
            None => Step::Stop(Outcome::Stuck),
        },
        DigResult::Break => Step::Continue { pos: pos + 1, spend: 0 },
        DigResult::BreakAndFinish => Step::Stop(Outcome::Finished),
        DigResult::Error => Step::Stop(Outcome::Failed),
    }
}

/// Breaks the cells of `plan` in order. Each cell is probed with the energy
/// that the cost model recommends given the energy already spent on it, and
/// each reply is handed to `next_step`, which decides what comes next; the
/// run fails when the plan is used up.
pub fn run<J: Judge>(solver: &Solver, plan: &Vec<Point>, judge: &mut J) -> (r: Report)
    requires
        solver.wf(),
        forall|k: int| 0 <= k < plan@.len() ==> in_bounds(#[trigger] plan@[k]),
    ensures
        log_follows_plan(solver.ensemble(), solver.overhead(), plan@, r.probes@),
        outcome_of(plan@, r.probes@, r.outcome),
{
    let mut log: Vec<ProbeRecord> = Vec::new();
    let mut pos: usize = 0;
    let mut spend: u32 = 0;
    while pos < plan.len()
        invariant
            solver.wf(),
            forall|k: int| 0 <= k < plan@.len() ==> in_bounds(#[trigger] plan@[k]),
            pos <= plan@.len(),
            exec_state(log@) == (pos as int, spend as int),
            log_follows_plan(solver.ensemble(), solver.overhead(), plan@, log@),
            log@.len() == 0 || log@.last().2 == DigResult::NotBreak || log@.last().2
                == DigResult::Break,
        decreases plan@.len() - pos, u32::MAX - spend,
    {
        let cell = plan[pos];
        let (power, _) = solver.guess_power(cell, spend);
        let reply = judge.dig(cell.x as usize, cell.y as usize, power);
        let ghost before = log@;
        log.push((cell, power, reply));
        proof {
            assert(log@.drop_last() == before);
            assert(log@.take(before.len() as int) == before);
            assert forall|k: int| 0 <= k < log@.len() implies {
                let (pos, spend) = exec_state(#[trigger] log@.take(k));
                &&& 0 <= pos < plan@.len()
                &&& 0 <= spend <= u32::MAX
                &&& log@[k].0 == plan@[pos]
                &&& log@[k].1 == recommend_spec(
                    residuals(solver.ensemble(), plan@[pos], spend as u32),
                    solver.overhead() as int,
                ).0
                &&& k < log@.len() - 1 ==> (log@[k].2 == DigResult::NotBreak || log@[k].2
                    == DigResult::Break)
            } by {
                if k < before.len() {
                    assert(log@.take(k) == before.take(k));
                    assert(log@[k] == before[k]);
                }
            }
        }
        match next_step(pos, spend, power, reply) {
            Step::Continue { pos: next_pos, spend: next_spend } => {
                pos = next_pos;
                spend = next_spend;
            },
            Step::Stop(outcome) => {
                return Report { outcome, probes: log };
            },
        }
    }
    Report { outcome: Outcome::Exhausted, probes: log }
}

} // verus!
