//! The replay itself: a plan is carried out entry by entry on a private
//! copy of the fleet and the rides, and scored.

use vstd::prelude::*;
use crate::model::{Problem, Ride, Vehicle, checked_travel_time, gets_bonus};
use crate::report::message_text;
use crate::replay::{
    Tally, Violation, gain, lemma_fleet_score_grows, lemma_halt_is_final, lemma_list_score_grows,
    moved, opening, plan_fits, plan_of, replay, replay_fleet, replay_list, served, verdict, visit,
};

verus! {

/// A fleet and a set of rides on which one plan is replayed.
pub struct Simulation {
    problem: Problem,
    rides: Vec<Ride>,
    vehicles: Vec<Vehicle>,
}

impl Simulation {
    /// The parameters of the instance.
    pub closed spec fn problem(&self) -> Problem {
        self.problem
    }

    /// The fleet, as it stands.
    pub closed spec fn fleet(&self) -> Seq<Vehicle> {
        self.vehicles@
    }

    /// The rides, as they stand.
    pub closed spec fn rides(&self) -> Seq<Ride> {
        self.rides@
    }

    /// A replay that starts from this fleet and these rides.
    pub fn new(problem: Problem, vehicles: Vec<Vehicle>, rides: Vec<Ride>) -> (s: Simulation)
        ensures
            s.problem() == problem,
            s.fleet() == vehicles@,
            s.rides() == rides@,
    {
        Simulation { problem, rides, vehicles }
    }

    /// Sends vehicle `vehicle_id` to ride `ride_id`. Returns the violation,
    /// if there is one, and otherwise commits the ride and returns what it
    /// earned.
    fn send(&mut self, vehicle_id: usize, ride_id: usize) -> (outcome: Result<u128, Violation>)
        requires
            vehicle_id < old(self).vehicles@.len(),
            ride_id < old(self).rides@.len(),
        ensures
            final(self).problem == old(self).problem,
            match outcome {
                Ok(earned) => {
                    &&& verdict(
                        old(self).problem,
                        old(self).vehicles@[vehicle_id as int],
                        old(self).rides@[ride_id as int],
                        vehicle_id,
                        ride_id,
                    ) is None
                    &&& earned == gain(
                        old(self).problem,
                        old(self).vehicles@[vehicle_id as int],
                        old(self).rides@[ride_id as int],
                    )
                    &&& final(self).vehicles@ == old(self).vehicles@.update(
                        vehicle_id as int,
                        moved(
                            old(self).vehicles@[vehicle_id as int],
                            old(self).rides@[ride_id as int],
                        ),
                    )
                    &&& final(self).rides@ == old(self).rides@.update(
                        ride_id as int,
                        served(old(self).rides@[ride_id as int]),
                    )
                },
                Err(violation) => {
                    &&& verdict(
                        old(self).problem,
                        old(self).vehicles@[vehicle_id as int],
                        old(self).rides@[ride_id as int],
                        vehicle_id,
                        ride_id,
                    ) == Some(violation)
                    &&& final(self).vehicles@ == old(self).vehicles@
                    &&& final(self).rides@ == old(self).rides@
                },
            },
    {
        let vehicle: Vehicle = self.vehicles[vehicle_id];
        let ride: Ride = self.rides[ride_id];
        if ride.done {
            return Err(Violation::Reused { ride_id, vehicle_id });
        }
        let horizon: usize = self.problem.sim_steps;
        let (ride_distance, total) = match checked_travel_time(&vehicle, &ride) {
            Some((_, _, ride_distance, total)) => (ride_distance, total),
            None => {
                return Err(Violation::Horizon { ride_id, vehicle_id });
            },
        };
        if total > horizon || vehicle.time > horizon - total {
            return Err(Violation::Horizon { ride_id, vehicle_id });
        }
        if vehicle.time + total >= ride.latest {
            return Err(Violation::Deadline { ride_id, vehicle_id, ride, vehicle, total });
        }
        let bonus: usize = if gets_bonus(&vehicle, &ride) {
            self.problem.bonus
        } else {
            0
        };
        self.rides.set(
            ride_id,
            Ride {
                id: ride.id,
                start: ride.start,
                finish: ride.finish,
                earliest: ride.earliest,
                latest: ride.latest,
                done: true,
            },
        );
        self.vehicles.set(
            vehicle_id,
            Vehicle { id: vehicle.id, pos: ride.finish, time: vehicle.time + total },
        );
        Ok(bonus as u128 + ride_distance as u128)
    }

    /// Whether each entry of the plan names a vehicle of the fleet and a
    /// ride of the instance.
    pub fn accepts(&self, assignment: &Vec<Vec<usize>>) -> (ok: bool)
        ensures
            ok == plan_fits(plan_of(assignment), self.fleet().len(), self.rides().len()),
    {
        let ghost plan = plan_of(assignment);
        let mut i: usize = 0;
        while i < assignment.len()
            invariant
                i <= assignment.len(),
                plan == plan_of(assignment),
                forall|a: int|
                    0 <= a < i && (#[trigger] plan[a]).len() > 0 ==> a < self.vehicles@.len(),
                forall|a: int, k: int|
                    0 <= a < i && 0 <= k < plan[a].len() ==> #[trigger] plan[a][k]
                        < self.rides@.len(),
            decreases assignment.len() - i,
        {
            let list = &assignment[i];
            assert(plan[i as int] == list@);
            if list.len() > 0 && i >= self.vehicles.len() {
                return false;
            }
            let mut k: usize = 0;
            while k < list.len()
                invariant
                    k <= list.len(),
                    i < assignment.len(),
                    plan == plan_of(assignment),
                    plan[i as int] == list@,
                    list.len() > 0 ==> i < self.vehicles@.len(),
                    forall|l: int| 0 <= l < k ==> #[trigger] list@[l] < self.rides@.len(),
                decreases list.len() - k,
            {
                if list[k] >= self.rides.len() {
                    assert(plan[i as int][k as int] == list@[k as int]);
                    return false;
                }
                k = k + 1;
            }
            i = i + 1;
        }
        true
    }

    /// Replays the plan. Returns the score with the violations met, in the
    /// order in which they were met, or `None` where the score exceeds
    /// `usize::MAX`.
    fn tally(&mut self, assignment: &Vec<Vec<usize>>) -> (result: Option<
        (usize, Vec<Violation>),
    >)
        requires
            plan_fits(plan_of(assignment), old(self).fleet().len(), old(self).rides().len()),
        ensures
            final(self).problem() == old(self).problem(),
            match result {
                Some(found) => {
                    &&& found.0 == replay(
                        old(self).problem(),
                        old(self).fleet(),
                        old(self).rides(),
                        plan_of(assignment),
                    ).score
                    &&& found.1@ == replay(
                        old(self).problem(),
                        old(self).fleet(),
                        old(self).rides(),
                        plan_of(assignment),
                    ).errors
                    &&& final(self).fleet() == replay(
                        old(self).problem(),
                        old(self).fleet(),
                        old(self).rides(),
                        plan_of(assignment),
                    ).vehicles
                    &&& final(self).rides() == replay(
                        old(self).problem(),
                        old(self).fleet(),
                        old(self).rides(),
                        plan_of(assignment),
                    ).rides
                },
                None => replay(
                    old(self).problem(),
                    old(self).fleet(),
                    old(self).rides(),
                    plan_of(assignment),
                ).score > usize::MAX,
            },
    {
        let ghost problem = self.problem;
        let ghost start = opening(self.vehicles@, self.rides@);
        let ghost plan = plan_of(assignment);
        let ghost n_vehicles = self.vehicles@.len();
        let ghost n_rides = self.rides@.len();
        let ghost mut now: Tally = start;
        let mut score: usize = 0;
        let mut errors: Vec<Violation> = Vec::new();
        let mut i: usize = 0;
        proof {
            assert(plan.take(0) =~= Seq::<Seq<usize>>::empty());
        }
        while i < assignment.len()
            invariant
                i <= assignment.len(),
                plan == plan_of(assignment),
                problem == self.problem,
                plan_fits(plan, n_vehicles, n_rides),
                start == opening(old(self).vehicles@, old(self).rides@),
                problem == old(self).problem,
                now == replay_fleet(problem, start, plan.take(i as int)),
                now.vehicles == self.vehicles@,
                now.rides == self.rides@,
                now.score == score,
                now.errors == errors@,
                n_vehicles == self.vehicles@.len(),
                n_rides == self.rides@.len(),
            decreases assignment.len() - i,
        {
            let list = &assignment[i];
            let ghost base = now;
            let mut k: usize = 0;
            proof {
                assert(list@.take(0) =~= Seq::<usize>::empty());
                assert(list@.take(list@.len() as int) =~= list@);
                now = replay_list(problem, base, i as int, list@.take(0));
                assert(plan[i as int] == list@);
                assert(plan.take(i as int + 1).drop_last() =~= plan.take(i as int));
                assert(plan.take(i as int + 1).last() == list@);
                lemma_fleet_score_grows(problem, start, plan, i as int + 1);
            }
            while k < list.len()
                invariant_except_break
                    !now.halted,
                    now == replay_list(problem, base, i as int, list@.take(k as int)),
                invariant
                    k <= list.len(),
                    list@.take(list@.len() as int) == list@,
                    i < assignment.len(),
                    plan == plan_of(assignment),
                    plan[i as int] == list@,
                    problem == self.problem,
                    plan_fits(plan, n_vehicles, n_rides),
                    start == opening(old(self).vehicles@, old(self).rides@),
                    problem == old(self).problem,
                    replay_list(problem, base, i as int, list@).score <= replay_fleet(
                        problem,
                        start,
                        plan,
                    ).score,
                    now.vehicles == self.vehicles@,
                    now.rides == self.rides@,
                    now.score == score,
                    now.errors == errors@,
                    n_vehicles == self.vehicles@.len(),
                    n_rides == self.rides@.len(),
                ensures
                    now == replay_list(problem, base, i as int, list@),
                    now.vehicles == self.vehicles@,
                    now.rides == self.rides@,
                    now.score == score,
                    now.errors == errors@,
                    n_vehicles == self.vehicles@.len(),
                    n_rides == self.rides@.len(),
                    problem == self.problem,
                decreases list.len() - k,
            {
                let ride_id: usize = list[k];
                proof {
                    assert(plan[i as int][k as int] == ride_id);
                    assert(list@.take(k as int + 1).drop_last() =~= list@.take(k as int));
                    assert(list@.take(k as int + 1).last() == ride_id);
                    lemma_list_score_grows(problem, base, i as int, list@, k as int + 1);
                    now = visit(problem, now, i as int, ride_id);
                }
                match self.send(i, ride_id) {
                    Ok(earned) => {
                        if earned > (usize::MAX - score) as u128 {
                            return None;
                        }
                        score = score + earned as usize;
                    },
                    Err(violation) => {
                        errors.push(violation);
                        proof {
                            lemma_halt_is_final(problem, base, i as int, list@, k as int + 1);
                        }
                        break ;
                    },
                }
                k = k + 1;
            }
            i = i + 1;
        }
        proof {
            assert(plan.take(plan.len() as int) =~= plan);
        }
        Some((score, errors))
    }

    /// Replays the plan and returns the score with the violations met, in
    /// the order in which they were met.
    pub fn audit(self, assignment: &Vec<Vec<usize>>) -> (result: (usize, Vec<Violation>))
        requires
            plan_fits(plan_of(assignment), self.fleet().len(), self.rides().len()),
            replay(self.problem(), self.fleet(), self.rides(), plan_of(assignment)).score
                <= usize::MAX,
        ensures
            result.0 == replay(
                self.problem(),
                self.fleet(),
                self.rides(),
                plan_of(assignment),
            ).score,
            result.1@ == replay(
                self.problem(),
                self.fleet(),
                self.rides(),
                plan_of(assignment),
            ).errors,
    {
        let mut sim = self;
        match sim.tally(assignment) {
            Some(found) => found,
            None => unreached(),
        }
    }

    /// Replays the plan and returns the score with one sentence for each
    /// violation met, in the order in which they were met.
    pub fn score(self, assignment: Vec<Vec<usize>>) -> (result: (usize, Vec<String>))
        requires
            plan_fits(plan_of(&assignment), self.fleet().len(), self.rides().len()),
            replay(self.problem(), self.fleet(), self.rides(), plan_of(&assignment)).score
                <= usize::MAX,
        ensures
            scored(self.problem(), self.fleet(), self.rides(), plan_of(&assignment), result),
    {
        let (score, violations) = self.audit(&assignment);
        (score, sentences(&violations))
    }

    /// As `score`, for any plan: `None` where an entry of the plan names no
    /// vehicle of the fleet or no ride of the instance, or where the score
    /// exceeds `usize::MAX`.
    pub fn try_score(self, assignment: &Vec<Vec<usize>>) -> (result: Option<(usize, Vec<String>)>)
        ensures
            result is Some <==> plan_fits(plan_of(assignment), self.fleet().len(), self.rides().len())
                && replay(self.problem(), self.fleet(), self.rides(), plan_of(assignment)).score
                <= usize::MAX,
            result matches Some(found) ==> scored(
                self.problem(),
                self.fleet(),
                self.rides(),
                plan_of(assignment),
                found,
            ),
    {
        if !self.accepts(assignment) {
            return None;
        }
        let mut sim = self;
        match sim.tally(assignment) {
            Some((score, violations)) => Some((score, sentences(&violations))),
            None => None,
        }
    }
}

/// The sentences of a list of reports.
pub open spec fn lines_of(reports: &Vec<String>) -> Seq<Seq<char>> {
    Seq::new(reports@.len(), |i: int| reports@[i]@)
}

/// `result` is the outcome of scoring the plan: the score of the replay,
/// and the sentence of each violation of the replay, in order.
pub open spec fn scored(
    problem: Problem,
    vehicles: Seq<Vehicle>,
    rides: Seq<Ride>,
    plan: Seq<Seq<usize>>,
    result: (usize, Vec<String>),
) -> bool {
    &&& result.0 == replay(problem, vehicles, rides, plan).score
    &&& lines_of(&result.1) == replay(problem, vehicles, rides, plan).errors.map_values(
        |v: Violation| message_text(v),
    )
}

/// One sentence for each violation, in order.
fn sentences(violations: &Vec<Violation>) -> (reports: Vec<String>)
    ensures
        lines_of(&reports) == violations@.map_values(|v: Violation| message_text(v)),
{
    let mut reports: Vec<String> = Vec::new();
    let mut i: usize = 0;
    while i < violations.len()
        invariant
            i <= violations.len(),
            reports@.len() == i,
            forall|j: int| 0 <= j < i ==> (#[trigger] reports@[j])@ == message_text(violations@[j]),
        decreases violations.len() - i,
    {
        reports.push(violations[i].message());
        i = i + 1;
    }
    assert(lines_of(&reports) =~= violations@.map_values(|v: Violation| message_text(v)));
    reports
}

/// Scoring is repeatable: whatever two scorings of one plan on equal
/// fleets and rides return, the scores are equal and the reports read the
/// same.
pub proof fn lemma_scoring_is_repeatable(
    problem: Problem,
    vehicles: Seq<Vehicle>,
    rides: Seq<Ride>,
    plan: Seq<Seq<usize>>,
    first: (usize, Vec<String>),
    second: (usize, Vec<String>),
)
    requires
        scored(problem, vehicles, rides, plan, first),
        scored(problem, vehicles, rides, plan, second),
    ensures
        first.0 == second.0,
        lines_of(&first.1) == lines_of(&second.1),
{
}

} // verus!
