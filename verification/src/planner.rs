//! From an instance to its score: the fleet is scheduled, and the schedule
//! is replayed from scratch on the same fleet and the same rides.

use vstd::prelude::*;
use crate::dispatch::{kickoff, numbered, run};
use crate::model::{Problem, Ride, Vehicle};
use crate::replay::{plan_of, replay};
use crate::simulation::Simulation;
use crate::solver::Solver;
use crate::soundness::{lemma_schedule_replays_cleanly, mustered};

verus! {

/// The greedy schedule of the fleet: the list of each vehicle, by its id.
pub open spec fn schedule(problem: Problem, vehicles: Seq<Vehicle>, rides: Seq<Ride>) -> Seq<
    Seq<usize>,
> {
    run(problem, kickoff(problem, vehicles, rides)).plan
}

/// Whether the fleet is as large as the problem says and each vehicle
/// carries its place as its id.
pub fn is_mustered(problem: &Problem, vehicles: &Vec<Vehicle>) -> (ok: bool)
    ensures
        ok == mustered(*problem, vehicles@),
{
    if vehicles.len() != problem.n_vehicles {
        return false;
    }
    let mut i: usize = 0;
    while i < vehicles.len()
        invariant
            i <= vehicles.len(),
            forall|j: int| 0 <= j < i ==> (#[trigger] vehicles@[j]).id == j,
        decreases vehicles.len() - i,
    {
        if vehicles[i].id != i {
            return false;
        }
        i = i + 1;
    }
    true
}

/// Whether each ride carries its place as its id.
pub fn is_numbered(rides: &Vec<Ride>) -> (ok: bool)
    ensures
        ok == numbered(rides@),
{
    let mut i: usize = 0;
    while i < rides.len()
        invariant
            i <= rides.len(),
            forall|j: int| 0 <= j < i ==> (#[trigger] rides@[j]).id == j,
        decreases rides.len() - i,
    {
        if rides[i].id != i {
            return false;
        }
        i = i + 1;
    }
    true
}

fn copy_of<T: Copy>(items: &Vec<T>) -> (copy: Vec<T>)
    ensures
        copy@ == items@,
{
    let mut copy: Vec<T> = Vec::new();
    let mut i: usize = 0;
    while i < items.len()
        invariant
            i <= items.len(),
            copy@ == items@.take(i as int),
        decreases items.len() - i,
    {
        copy.push(items[i]);
        assert(copy@ =~= items@.take(i as int + 1));
        i = i + 1;
    }
    assert(items@.take(items@.len() as int) =~= items@);
    copy
}

/// Schedules the fleet and replays the schedule. Returns the schedule with
/// its score, or `None` where fleet or rides are not numbered by their
/// places or the score exceeds `usize::MAX`. The replay of the schedule
/// meets no violation.
pub fn solve_and_score(problem: Problem, vehicles: Vec<Vehicle>, rides: Vec<Ride>) -> (outcome:
    Option<(Vec<Vec<usize>>, usize)>)
    ensures
        outcome is Some <==> mustered(problem, vehicles@) && numbered(rides@) && replay(
            problem,
            vehicles@,
            rides@,
            schedule(problem, vehicles@, rides@),
        ).score <= usize::MAX,
        outcome matches Some(found) ==> {
            &&& plan_of(&found.0) == schedule(problem, vehicles@, rides@)
            &&& found.1 == replay(problem, vehicles@, rides@, plan_of(&found.0)).score
            &&& replay(problem, vehicles@, rides@, plan_of(&found.0)).errors.len() == 0
        },
{
    if !is_mustered(&problem, &vehicles) || !is_numbered(&rides) {
        return None;
    }
    let mut solver = Solver::new(problem, copy_of(&vehicles), copy_of(&rides));
    let assignment = solver.solve();
    proof {
        lemma_schedule_replays_cleanly(problem, vehicles@, rides@);
    }
    let simulation = Simulation::new(problem, vehicles, rides);
    match simulation.try_score(&assignment) {
        Some((score, _)) => Some((assignment, score)),
        None => None,
    }
}

} // verus!
