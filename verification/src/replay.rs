//! The rules of a replay, as a mathematical model: what happens when a
//! vehicle is sent to a ride, to a list of rides, and a fleet to a plan.

use vstd::prelude::*;
use crate::model::{Problem, Ride, Vehicle, completion, on_time, ride_length, trip_total};

verus! {

/// A rule that an entry of a plan breaks.
#[derive(PartialEq, Eq, Structural, Debug, Clone, Copy)]
pub enum Violation {
    /// The ride had been served before.
    Reused { ride_id: usize, vehicle_id: usize },
    /// The ride would end after the last step of the simulation.
    Horizon { ride_id: usize, vehicle_id: usize },
    /// The ride would end at or after its own deadline.
    Deadline { ride_id: usize, vehicle_id: usize, ride: Ride, vehicle: Vehicle, total: usize },
}

/// The state of a replay: the fleet and the rides as they stand, what has
/// been earned, what has gone wrong, and whether the vehicle now replayed
/// has been stopped by a violation.
pub struct Tally {
    pub vehicles: Seq<Vehicle>,
    pub rides: Seq<Ride>,
    pub score: nat,
    pub errors: Seq<Violation>,
    pub halted: bool,
}

/// A plan as a sequence of ride lists, one for each vehicle.
pub open spec fn plan_of(assignment: &Vec<Vec<usize>>) -> Seq<Seq<usize>> {
    Seq::new(assignment@.len(), |i: int| assignment@[i]@)
}

/// Each entry of the plan names a vehicle of the fleet and a ride of the
/// instance.
pub open spec fn plan_fits(plan: Seq<Seq<usize>>, n_vehicles: nat, n_rides: nat) -> bool {
    &&& forall|i: int| 0 <= i < plan.len() && (#[trigger] plan[i]).len() > 0 ==> i < n_vehicles
    &&& forall|i: int, k: int|
        0 <= i < plan.len() && 0 <= k < plan[i].len() ==> #[trigger] plan[i][k] < n_rides
}

/// What the ride is worth to the vehicle: its length, and the bonus where
/// the vehicle is at its start on time.
pub open spec fn gain(problem: Problem, vehicle: Vehicle, ride: Ride) -> nat {
    ride_length(ride) + if on_time(vehicle, ride) {
        problem.bonus as nat
    } else {
        0
    }
}

/// The vehicle after it has served the ride.
pub open spec fn moved(vehicle: Vehicle, ride: Ride) -> Vehicle {
    Vehicle { id: vehicle.id, pos: ride.finish, time: completion(vehicle, ride) as usize }
}

/// The ride once served.
pub open spec fn served(ride: Ride) -> Ride {
    Ride {
        id: ride.id,
        start: ride.start,
        finish: ride.finish,
        earliest: ride.earliest,
        latest: ride.latest,
        done: true,
    }
}

/// The rule that sending the vehicle to the ride breaks, if any: reuse
/// first, then the horizon, then the deadline of the ride.
pub open spec fn verdict(
    problem: Problem,
    vehicle: Vehicle,
    ride: Ride,
    vehicle_id: usize,
    ride_id: usize,
) -> Option<Violation> {
    if ride.done {
        Some(Violation::Reused { ride_id, vehicle_id })
    } else if completion(vehicle, ride) > problem.sim_steps {
        Some(Violation::Horizon { ride_id, vehicle_id })
    } else if completion(vehicle, ride) >= ride.latest {
        Some(
            Violation::Deadline {
                ride_id,
                vehicle_id,
                ride,
                vehicle,
                total: trip_total(vehicle, ride) as usize,
            },
        )
    } else {
        None
    }
}

/// One entry of a plan: the vehicle is sent to the ride. A violation is
/// recorded and stops the vehicle; otherwise the ride is served, the
/// vehicle moves on and the score grows by the gain.
pub open spec fn visit(problem: Problem, t: Tally, vehicle_id: int, ride_id: usize) -> Tally {
    let vehicle = t.vehicles[vehicle_id];
    let ride = t.rides[ride_id as int];
    match verdict(problem, vehicle, ride, vehicle_id as usize, ride_id) {
        Some(violation) => Tally {
            vehicles: t.vehicles,
            rides: t.rides,
            score: t.score,
            errors: t.errors.push(violation),
            halted: true,
        },
        None => Tally {
            vehicles: t.vehicles.update(vehicle_id, moved(vehicle, ride)),
            rides: t.rides.update(ride_id as int, served(ride)),
            score: t.score + gain(problem, vehicle, ride),
            errors: t.errors,
            halted: false,
        },
    }
}

/// The list of one vehicle, entry by entry, up to its first violation.
pub open spec fn replay_list(problem: Problem, t: Tally, vehicle_id: int, list: Seq<usize>) -> Tally
    decreases list.len(),
{
    if list.len() == 0 {
        Tally {
            vehicles: t.vehicles,
            rides: t.rides,
            score: t.score,
            errors: t.errors,
            halted: false,
        }
    } else {
        let before = replay_list(problem, t, vehicle_id, list.drop_last());
        if before.halted {
            before
        } else {
            visit(problem, before, vehicle_id, list.last())
        }
    }
}

/// The lists of a plan, vehicle by vehicle.
pub open spec fn replay_fleet(problem: Problem, t: Tally, plan: Seq<Seq<usize>>) -> Tally
    decreases plan.len(),
{
    if plan.len() == 0 {
        t
    } else {
        replay_list(problem, replay_fleet(problem, t, plan.drop_last()), plan.len() - 1, plan.last())
    }
}

/// The state in which a replay starts.
pub open spec fn opening(vehicles: Seq<Vehicle>, rides: Seq<Ride>) -> Tally {
    Tally { vehicles, rides, score: 0, errors: Seq::empty(), halted: false }
}

/// The replay of a plan on a fleet and a set of rides.
pub open spec fn replay(
    problem: Problem,
    vehicles: Seq<Vehicle>,
    rides: Seq<Ride>,
    plan: Seq<Seq<usize>>,
) -> Tally {
    replay_fleet(problem, opening(vehicles, rides), plan)
}

/// Once a vehicle has been stopped, the rest of its list changes nothing.
pub proof fn lemma_halt_is_final(
    problem: Problem,
    t: Tally,
    vehicle_id: int,
    list: Seq<usize>,
    k: int,
)
    requires
        0 <= k <= list.len(),
        replay_list(problem, t, vehicle_id, list.take(k)).halted,
    ensures
        replay_list(problem, t, vehicle_id, list) == replay_list(
            problem,
            t,
            vehicle_id,
            list.take(k),
        ),
    decreases list.len(),
{
    if k == list.len() {
        assert(list.take(k) =~= list);
    } else {
        assert(list.drop_last().take(k) =~= list.take(k));
        lemma_halt_is_final(problem, t, vehicle_id, list.drop_last(), k);
    }
}

/// The score after a part of a vehicle's list is at most the score after
/// the whole list: serving more rides never costs anything.
pub proof fn lemma_list_score_grows(
    problem: Problem,
    t: Tally,
    vehicle_id: int,
    list: Seq<usize>,
    k: int,
)
    requires
        0 <= k <= list.len(),
    ensures
        t.score <= replay_list(problem, t, vehicle_id, list.take(k)).score <= replay_list(
            problem,
            t,
            vehicle_id,
            list,
        ).score,
    decreases list.len(),
{
    if list.len() == 0 {
        assert(list.take(k) =~= list);
    } else if k == list.len() {
        assert(list.take(k) =~= list);
        lemma_list_score_grows(problem, t, vehicle_id, list.drop_last(), 0);
    } else {
        assert(list.drop_last().take(k) =~= list.take(k));
        lemma_list_score_grows(problem, t, vehicle_id, list.drop_last(), k);
    }
}

/// The score after the lists of the first vehicles is at most the score
/// after the whole plan.
pub proof fn lemma_fleet_score_grows(problem: Problem, t: Tally, plan: Seq<Seq<usize>>, i: int)
    requires
        0 <= i <= plan.len(),
    ensures
        t.score <= replay_fleet(problem, t, plan.take(i)).score <= replay_fleet(
            problem,
            t,
            plan,
        ).score,
    decreases plan.len(),
{
    if plan.len() == 0 {
        assert(plan.take(i) =~= plan);
    } else {
        let before = replay_fleet(problem, t, plan.drop_last());
        lemma_list_score_grows(
            problem,
            before,
            plan.len() - 1,
            plan.last(),
            plan.last().len() as int,
        );
        if i == plan.len() {
            assert(plan.take(i) =~= plan);
            lemma_fleet_score_grows(problem, t, plan.drop_last(), 0);
        } else {
            assert(plan.drop_last().take(i) =~= plan.take(i));
            lemma_fleet_score_grows(problem, t, plan.drop_last(), i);
        }
    }
}

/// The reports after a part of a vehicle's list are the first of the
/// reports after the whole list, and a list adds one report at most.
pub proof fn lemma_list_reports_grow(
    problem: Problem,
    t: Tally,
    vehicle_id: int,
    list: Seq<usize>,
    k: int,
)
    requires
        0 <= k <= list.len(),
    ensures
        t.errors.is_prefix_of(replay_list(problem, t, vehicle_id, list.take(k)).errors),
        replay_list(problem, t, vehicle_id, list.take(k)).errors.is_prefix_of(
            replay_list(problem, t, vehicle_id, list).errors,
        ),
        replay_list(problem, t, vehicle_id, list).errors.len() <= t.errors.len() + 1,
        replay_list(problem, t, vehicle_id, list).errors.len() == t.errors.len() + 1
            <==> replay_list(problem, t, vehicle_id, list).halted,
    decreases list.len(),
{
    if list.len() == 0 {
        assert(list.take(k) =~= list);
    } else if k == list.len() {
        assert(list.take(k) =~= list);
        lemma_list_reports_grow(problem, t, vehicle_id, list.drop_last(), 0);
    } else {
        assert(list.drop_last().take(k) =~= list.take(k));
        lemma_list_reports_grow(problem, t, vehicle_id, list.drop_last(), k);
    }
}

/// A longer last list never lowers the score, keeps the reports made so
/// far, and adds one report at most: the replay of a plan whose last list
/// is cut short agrees in this way with the replay of the whole plan.
pub proof fn lemma_last_list_grows(problem: Problem, t: Tally, plan: Seq<Seq<usize>>, k: int)
    requires
        plan.len() > 0,
        0 <= k <= plan.last().len(),
    ensures
        ({
            let shorter = replay_fleet(problem, t, plan.drop_last().push(plan.last().take(k)));
            let whole = replay_fleet(problem, t, plan);
            &&& shorter.score <= whole.score
            &&& shorter.errors.is_prefix_of(whole.errors)
            &&& whole.errors.len() <= shorter.errors.len() + 1
        }),
{
    let cut = plan.drop_last().push(plan.last().take(k));
    assert(cut.drop_last() =~= plan.drop_last());
    assert(cut.last() == plan.last().take(k));
    let before = replay_fleet(problem, t, plan.drop_last());
    lemma_list_score_grows(problem, before, plan.len() - 1, plan.last(), k);
    lemma_list_reports_grow(problem, before, plan.len() - 1, plan.last(), k);
}

/// The deadline of a ride is the first step at which it may no longer
/// end: an open ride that ends within the horizon is served where it ends
/// strictly before its deadline, and is a violation that earns nothing
/// where it ends exactly at its deadline or later.
pub proof fn lemma_deadline_boundary(problem: Problem, t: Tally, vehicle_id: int, ride_id: usize)
    requires
        !t.rides[ride_id as int].done,
        completion(t.vehicles[vehicle_id], t.rides[ride_id as int]) <= problem.sim_steps,
    ensures
        ({
            let vehicle = t.vehicles[vehicle_id];
            let ride = t.rides[ride_id as int];
            let after = visit(problem, t, vehicle_id, ride_id);
            &&& completion(vehicle, ride) < ride.latest ==> !after.halted && after.errors
                == t.errors && after.score == t.score + gain(problem, vehicle, ride)
            &&& completion(vehicle, ride) >= ride.latest ==> after.halted && after.score
                == t.score && after.errors == t.errors.push(
                Violation::Deadline {
                    ride_id,
                    vehicle_id: vehicle_id as usize,
                    ride,
                    vehicle,
                    total: trip_total(vehicle, ride) as usize,
                },
            )
        }),
{
}

} // verus!
