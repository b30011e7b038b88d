//! The greedy schedule is valid: replayed from scratch, it breaks no rule.

use vstd::prelude::*;
use crate::dispatch::{
    Dispatch, admissible, best_ride, is_best, kickoff, lemma_next_exists,
    lemma_none_taken_iff_none_admissible, lemma_turn_makes_progress, next_up, numbered,
    open_rides, run, turn,
};
use crate::model::{Problem, Ride, Vehicle};
use crate::replay::{moved, plan_fits, replay, served};
use crate::validity::{drive, feasible, in_time, lemma_replay_outcome, listed, names, valid_plan};

verus! {

/// Each vehicle carries its place in the fleet as its id, and the fleet is
/// as large as the problem says.
pub open spec fn mustered(problem: Problem, vehicles: Seq<Vehicle>) -> bool {
    &&& vehicles.len() == problem.n_vehicles
    &&& forall|i: int| 0 <= i < vehicles.len() ==> (#[trigger] vehicles[i]).id == i
}

/// Along its list, the vehicle could take each ride when its turn came:
/// the ride was open, and the vehicle ended it strictly before the horizon
/// and strictly before the deadline of the ride.
pub open spec fn admissible_along(
    problem: Problem,
    vehicle: Vehicle,
    rides: Seq<Ride>,
    list: Seq<usize>,
) -> bool
    decreases list.len(),
{
    list.len() == 0 || (admissible_along(problem, vehicle, rides, list.drop_last()) && admissible(
        problem,
        drive(vehicle, rides, list.drop_last()),
        rides[list.last() as int],
    ))
}

/// The vehicle with this id queues.
pub open spec fn queued(queue: Seq<Vehicle>, id: int) -> bool {
    exists|j: int| 0 <= j < queue.len() && (#[trigger] queue[j]).id == id
}

/// The vehicle can take none of the rides.
pub open spec fn nothing_to_take(problem: Problem, vehicle: Vehicle, rides: Seq<Ride>) -> bool {
    forall|q: int| 0 <= q < rides.len() ==> !admissible(problem, vehicle, #[trigger] rides[q])
}

/// The schedule under construction fits the fleet and the rides that it
/// started from: its plan is valid, the rides it has served are those of
/// its plan, and each vehicle that queues stands where its list has taken
/// it.
pub open spec fn on_course(
    problem: Problem,
    vehicles: Seq<Vehicle>,
    rides: Seq<Ride>,
    d: Dispatch,
) -> bool {
    &&& d.plan.len() == vehicles.len()
    &&& d.rides.len() == rides.len()
    &&& plan_fits(d.plan, vehicles.len(), rides.len())
    &&& valid_plan(problem, vehicles, rides, d.plan)
    &&& forall|q: int|
        0 <= q < rides.len() ==> #[trigger] d.rides[q] == if listed(d.plan, q) {
            served(rides[q])
        } else {
            rides[q]
        }
    &&& forall|j: int|
        0 <= j < d.queue.len() ==> 0 <= (#[trigger] d.queue[j]).id < vehicles.len() && d.queue[j]
            == drive(vehicles[d.queue[j].id as int], rides, d.plan[d.queue[j].id as int])
    &&& forall|j: int, k: int|
        0 <= j < d.queue.len() && 0 <= k < d.queue.len() && j != k ==> (#[trigger] d.queue[j]).id
            != (#[trigger] d.queue[k]).id
}

/// Each vehicle could take each ride of its list when its turn came, and
/// a vehicle that queues no more can take none of the rides.
pub open spec fn accounted(
    problem: Problem,
    vehicles: Seq<Vehicle>,
    rides: Seq<Ride>,
    d: Dispatch,
) -> bool {
    &&& forall|i: int|
        0 <= i < d.plan.len() ==> admissible_along(problem, vehicles[i], rides, #[trigger] d.plan[i])
    &&& forall|i: int|
        0 <= i < vehicles.len() ==> #[trigger] queued(d.queue, i) || nothing_to_take(
            problem,
            drive(vehicles[i], rides, d.plan[i]),
            d.rides,
        )
}

proof fn lemma_listed_after_push(plan: Seq<Seq<usize>>, i: int, x: usize, q: int)
    requires
        0 <= i < plan.len(),
    ensures
        listed(plan.update(i, plan[i].push(x)), q) <==> listed(plan, q) || q == x,
{
    let longer = plan.update(i, plan[i].push(x));
    if listed(longer, q) {
        let a = choose|a: int| 0 <= a < longer.len() && #[trigger] names(longer[a], q);
        let k = choose|k: int| 0 <= k < longer[a].len() && #[trigger] longer[a][k] == q;
        if a != i {
            assert(names(plan[a], q));
        } else if k < plan[i].len() {
            assert(plan[i][k] == q);
            assert(names(plan[i], q));
        }
    }
    if listed(plan, q) {
        let a = choose|a: int| 0 <= a < plan.len() && #[trigger] names(plan[a], q);
        let k = choose|k: int| 0 <= k < plan[a].len() && #[trigger] plan[a][k] == q;
        assert(longer[a][k] == q);
        assert(names(longer[a], q));
    }
    if q == x {
        assert(longer[i][plan[i].len() as int] == q);
        assert(names(longer[i], q));
    }
}

/// The schedule starts on course.
proof fn lemma_kickoff_on_course(problem: Problem, vehicles: Seq<Vehicle>, rides: Seq<Ride>)
    requires
        mustered(problem, vehicles),
    ensures
        on_course(problem, vehicles, rides, kickoff(problem, vehicles, rides)),
{
    let d = kickoff(problem, vehicles, rides);
    assert forall|q: int| 0 <= q < rides.len() implies !listed(d.plan, q) by {
        if listed(d.plan, q) {
            let a = choose|a: int| 0 <= a < d.plan.len() && #[trigger] names(d.plan[a], q);
            assert(d.plan[a].len() == 0);
        }
    }
    assert forall|i: int| 0 <= i < d.plan.len() implies feasible(
        problem,
        vehicles[i],
        rides,
        #[trigger] d.plan[i],
    ) by {
        assert(d.plan[i].len() == 0);
    }
    assert forall|j: int| 0 <= j < d.queue.len() implies 0 <= (#[trigger] d.queue[j]).id
        < vehicles.len() && d.queue[j] == drive(
        vehicles[d.queue[j].id as int],
        rides,
        d.plan[d.queue[j].id as int],
    ) by {
        assert(vehicles[j].id == j);
        assert(d.plan[j].len() == 0);
    }
    assert forall|j: int, k: int|
        0 <= j < d.queue.len() && 0 <= k < d.queue.len() && j != k implies (#[trigger] d.queue[j]).id
        != (#[trigger] d.queue[k]).id by {
        assert(vehicles[j].id == j);
        assert(vehicles[k].id == k);
    }
}

proof fn lemma_kickoff_accounted(problem: Problem, vehicles: Seq<Vehicle>, rides: Seq<Ride>)
    requires
        mustered(problem, vehicles),
    ensures
        accounted(problem, vehicles, rides, kickoff(problem, vehicles, rides)),
{
    let d = kickoff(problem, vehicles, rides);
    assert forall|i: int| 0 <= i < d.plan.len() implies admissible_along(
        problem,
        vehicles[i],
        rides,
        #[trigger] d.plan[i],
    ) by {
        assert(d.plan[i].len() == 0);
    }
    assert forall|i: int| 0 <= i < vehicles.len() implies #[trigger] queued(d.queue, i) by {
        assert(d.queue[i].id == i);
    }
}

/// A turn keeps the schedule on course.
proof fn lemma_turn_on_course(problem: Problem, vehicles: Seq<Vehicle>, rides: Seq<Ride>, d: Dispatch)
    requires
        numbered(rides),
        on_course(problem, vehicles, rides, d),
        d.queue.len() > 0,
    ensures
        on_course(problem, vehicles, rides, turn(problem, d)),
{
    lemma_next_exists(d.queue);
    let m = next_up(d.queue);
    let vehicle = d.queue[m];
    let others = d.queue.remove(m);
    let next = turn(problem, d);
    let i = vehicle.id as int;
    assert(0 <= i < vehicles.len());
    assert forall|j: int| 0 <= j < others.len() implies (#[trigger] others[j]).id != vehicle.id
        && 0 <= others[j].id < vehicles.len() && others[j] == drive(
        vehicles[others[j].id as int],
        rides,
        d.plan[others[j].id as int],
    ) by {
        if j < m {
            assert(others[j] == d.queue[j]);
            assert(d.queue[j].id != d.queue[m].id);
        } else {
            assert(others[j] == d.queue[j + 1]);
            assert(d.queue[j + 1].id != d.queue[m].id);
        }
    }
    assert forall|j: int, k: int|
        0 <= j < others.len() && 0 <= k < others.len() && j != k implies (#[trigger] others[j]).id
        != (#[trigger] others[k]).id by {
        let a = if j < m {
            j
        } else {
            j + 1
        };
        let b = if k < m {
            k
        } else {
            k + 1
        };
        assert(others[j] == d.queue[a]);
        assert(others[k] == d.queue[b]);
        assert(d.queue[a].id != d.queue[b].id);
    }
    match best_ride(problem, vehicle, d.rides) {
        None => {
            assert(next.queue == others);
        },
        Some(r) => {
            assert(is_best(problem, vehicle, d.rides, r));
            let ride = d.rides[r];
            assert(admissible(problem, vehicle, ride));
            assert(!listed(d.plan, r) && ride == rides[r]);
            assert(ride.id == r);
            let list = d.plan[i];
            let longer = list.push(ride.id);
            let plan = d.plan.update(i, longer);
            assert(next.plan == plan);
            assert(longer.drop_last() =~= list);
            assert(longer.last() == r);
            assert(vehicle == drive(vehicles[i], rides, list));
            assert(feasible(problem, vehicles[i], rides, list));
            assert(in_time(problem, vehicle, ride));
            assert(feasible(problem, vehicles[i], rides, longer));
            assert(drive(vehicles[i], rides, longer) == moved(vehicle, ride));
            // the plan
            assert forall|a: int| 0 <= a < plan.len() && (#[trigger] plan[a]).len() > 0 implies a
                < vehicles.len() by {}
            assert forall|a: int, k: int| 0 <= a < plan.len() && 0 <= k < plan[a].len() implies #[trigger] plan[a][k]
                < rides.len() by {
                if a != i || k < list.len() {
                    assert(plan[a][k] == d.plan[a][k]);
                }
            }
            assert forall|a: int, k: int, b: int, l: int|
                0 <= a < plan.len() && 0 <= k < plan[a].len() && 0 <= b < plan.len() && 0 <= l
                    < plan[b].len() && (a != b || k != l) implies #[trigger] plan[a][k]
                != #[trigger] plan[b][l] by {
                let fresh_a = a == i && k == list.len();
                let fresh_b = b == i && l == list.len();
                if !fresh_a && !fresh_b {
                    assert(plan[a][k] == d.plan[a][k]);
                    assert(plan[b][l] == d.plan[b][l]);
                } else if fresh_a {
                    assert(plan[b][l] == d.plan[b][l]);
                    if d.plan[b][l] == r {
                        assert(names(d.plan[b], r));
                    }
                } else {
                    assert(plan[a][k] == d.plan[a][k]);
                    if d.plan[a][k] == r {
                        assert(names(d.plan[a], r));
                    }
                }
            }
            assert forall|a: int, k: int| 0 <= a < plan.len() && 0 <= k < plan[a].len() implies !rides[#[trigger] plan[a][k] as int].done by {
                if a != i || k < list.len() {
                    assert(plan[a][k] == d.plan[a][k]);
                }
            }
            assert forall|a: int| 0 <= a < plan.len() implies feasible(
                problem,
                vehicles[a],
                rides,
                #[trigger] plan[a],
            ) by {
                if a != i {
                    assert(plan[a] == d.plan[a]);
                }
            }
            // the rides
            assert forall|q: int| 0 <= q < rides.len() implies #[trigger] next.rides[q] == if listed(
                plan,
                q,
            ) {
                served(rides[q])
            } else {
                rides[q]
            } by {
                lemma_listed_after_push(d.plan, i, ride.id, q);
            }
            // the queue
            assert forall|j: int| 0 <= j < next.queue.len() implies 0 <= (#[trigger] next.queue[j]).id
                < vehicles.len() && next.queue[j] == drive(
                vehicles[next.queue[j].id as int],
                rides,
                plan[next.queue[j].id as int],
            ) by {
                if j < others.len() {
                    assert(next.queue[j] == others[j]);
                    assert(plan[others[j].id as int] == d.plan[others[j].id as int]);
                }
            }
            assert forall|j: int, k: int|
                0 <= j < next.queue.len() && 0 <= k < next.queue.len() && j != k implies (
            #[trigger] next.queue[j]).id != (#[trigger] next.queue[k]).id by {
                if j < others.len() {
                    assert(next.queue[j] == others[j]);
                }
                if k < others.len() {
                    assert(next.queue[k] == others[k]);
                }
            }
        },
    }
}

/// A turn keeps the account of what each vehicle could take.
proof fn lemma_turn_accounted(problem: Problem, vehicles: Seq<Vehicle>, rides: Seq<Ride>, d: Dispatch)
    requires
        numbered(rides),
        on_course(problem, vehicles, rides, d),
        accounted(problem, vehicles, rides, d),
        d.queue.len() > 0,
    ensures
        accounted(problem, vehicles, rides, turn(problem, d)),
{
    lemma_next_exists(d.queue);
    let m = next_up(d.queue);
    let vehicle = d.queue[m];
    let others = d.queue.remove(m);
    let next = turn(problem, d);
    let i = vehicle.id as int;
    assert(vehicle == drive(vehicles[i], rides, d.plan[i]));
    assert forall|a: int| a != i && queued(d.queue, a) implies #[trigger] queued(others, a) by {
        let j = choose|j: int| 0 <= j < d.queue.len() && (#[trigger] d.queue[j]).id == a;
        if j < m {
            assert(others[j] == d.queue[j]);
            assert(others[j].id == a);
        } else {
            assert(others[j - 1] == d.queue[j]);
            assert(others[j - 1].id == a);
        }
    }
    lemma_none_taken_iff_none_admissible(problem, vehicle, d.rides);
    match best_ride(problem, vehicle, d.rides) {
        None => {
            assert(next.queue == others);
            assert forall|a: int| 0 <= a < vehicles.len() implies #[trigger] queued(next.queue, a)
                || nothing_to_take(problem, drive(vehicles[a], rides, next.plan[a]), next.rides) by {
                if a != i {
                    assert(queued(d.queue, a) || nothing_to_take(
                        problem,
                        drive(vehicles[a], rides, d.plan[a]),
                        d.rides,
                    ));
                    if queued(d.queue, a) {
                        assert(queued(others, a));
                    }
                }
            }
        },
        Some(r) => {
            let ride = d.rides[r];
            assert(admissible(problem, vehicle, ride));
            assert(!listed(d.plan, r) && ride == rides[r]);
            assert(ride.id == r);
            let list = d.plan[i];
            let longer = list.push(ride.id);
            let plan = d.plan.update(i, longer);
            assert(next.plan == plan);
            assert(longer.drop_last() =~= list);
            assert(longer.last() == r);
            assert(admissible_along(problem, vehicles[i], rides, list));
            assert(admissible_along(problem, vehicles[i], rides, longer));
            assert forall|a: int| 0 <= a < plan.len() implies admissible_along(
                problem,
                vehicles[a],
                rides,
                #[trigger] plan[a],
            ) by {
                if a != i {
                    assert(plan[a] == d.plan[a]);
                }
            }
            assert forall|a: int| 0 <= a < vehicles.len() implies #[trigger] queued(next.queue, a)
                || nothing_to_take(problem, drive(vehicles[a], rides, plan[a]), next.rides) by {
                if a == i {
                    assert(next.queue[others.len() as int].id == a);
                } else if queued(d.queue, a) {
                    assert(queued(others, a));
                    let j = choose|j: int| 0 <= j < others.len() && (#[trigger] others[j]).id == a;
                    assert(next.queue[j] == others[j]);
                    assert(next.queue[j].id == a);
                } else {
                    let idle = drive(vehicles[a], rides, d.plan[a]);
                    assert(plan[a] == d.plan[a]);
                    assert(nothing_to_take(problem, idle, d.rides));
                    assert forall|q: int| 0 <= q < next.rides.len() implies !admissible(
                        problem,
                        idle,
                        #[trigger] next.rides[q],
                    ) by {
                        if q != r {
                            assert(next.rides[q] == d.rides[q]);
                            assert(!admissible(problem, idle, d.rides[q]));
                        }
                    }
                }
            }
        },
    }
}

/// The account is kept to the end of the schedule.
proof fn lemma_run_accounted(problem: Problem, vehicles: Seq<Vehicle>, rides: Seq<Ride>, d: Dispatch)
    requires
        numbered(rides),
        on_course(problem, vehicles, rides, d),
        accounted(problem, vehicles, rides, d),
    ensures
        accounted(problem, vehicles, rides, run(problem, d)),
    decreases open_rides(d.rides) + d.queue.len(),
{
    if !(d.queue.len() == 0 || open_rides(d.rides) == 0) {
        lemma_turn_makes_progress(problem, d);
        lemma_turn_on_course(problem, vehicles, rides, d);
        lemma_turn_accounted(problem, vehicles, rides, d);
        lemma_run_accounted(problem, vehicles, rides, turn(problem, d));
    }
}

/// The schedule stays on course to its end.
proof fn lemma_run_on_course(problem: Problem, vehicles: Seq<Vehicle>, rides: Seq<Ride>, d: Dispatch)
    requires
        numbered(rides),
        on_course(problem, vehicles, rides, d),
    ensures
        on_course(problem, vehicles, rides, run(problem, d)),
    decreases open_rides(d.rides) + d.queue.len(),
{
    if !(d.queue.len() == 0 || open_rides(d.rides) == 0) {
        lemma_turn_makes_progress(problem, d);
        lemma_turn_on_course(problem, vehicles, rides, d);
        lemma_run_on_course(problem, vehicles, rides, turn(problem, d));
    }
}

/// The greedy schedule of a fleet is a valid plan for that fleet, and its
/// replay on the same fleet and the same rides meets no violation.
pub proof fn lemma_schedule_replays_cleanly(
    problem: Problem,
    vehicles: Seq<Vehicle>,
    rides: Seq<Ride>,
)
    requires
        mustered(problem, vehicles),
        numbered(rides),
    ensures
        ({
            let plan = run(problem, kickoff(problem, vehicles, rides)).plan;
            &&& plan.len() == vehicles.len()
            &&& plan_fits(plan, vehicles.len(), rides.len())
            &&& valid_plan(problem, vehicles, rides, plan)
            &&& replay(problem, vehicles, rides, plan).errors.len() == 0
        }),
{
    lemma_kickoff_on_course(problem, vehicles, rides);
    lemma_run_on_course(problem, vehicles, rides, kickoff(problem, vehicles, rides));
    lemma_replay_outcome(
        problem,
        vehicles,
        rides,
        run(problem, kickoff(problem, vehicles, rides)).plan,
    );
}

/// Each ride of the greedy schedule was admissible when it was taken: it
/// was open, and its vehicle, coming from the rides before it on its list,
/// ended it strictly before the horizon and strictly before the deadline
/// of the ride.
pub proof fn lemma_schedule_takes_admissible_rides(
    problem: Problem,
    vehicles: Seq<Vehicle>,
    rides: Seq<Ride>,
)
    requires
        mustered(problem, vehicles),
        numbered(rides),
    ensures
        ({
            let plan = run(problem, kickoff(problem, vehicles, rides)).plan;
            &&& plan.len() == vehicles.len()
            &&& forall|i: int|
                0 <= i < plan.len() ==> admissible_along(
                    problem,
                    vehicles[i],
                    rides,
                    #[trigger] plan[i],
                )
        }),
{
    lemma_kickoff_on_course(problem, vehicles, rides);
    lemma_kickoff_accounted(problem, vehicles, rides);
    lemma_run_on_course(problem, vehicles, rides, kickoff(problem, vehicles, rides));
    lemma_run_accounted(problem, vehicles, rides, kickoff(problem, vehicles, rides));
}

proof fn lemma_no_open_ride(rides: Seq<Ride>)
    requires
        open_rides(rides) == 0,
    ensures
        forall|q: int| 0 <= q < rides.len() ==> (#[trigger] rides[q]).done,
    decreases rides.len(),
{
    if rides.len() > 0 {
        lemma_no_open_ride(rides.drop_last());
        assert forall|q: int| 0 <= q < rides.len() implies (#[trigger] rides[q]).done by {
            if q < rides.len() - 1 {
                assert(rides.drop_last()[q] == rides[q]);
            }
        }
    }
}

proof fn lemma_run_stops(problem: Problem, d: Dispatch)
    ensures
        run(problem, d).queue.len() == 0 || open_rides(run(problem, d).rides) == 0,
    decreases open_rides(d.rides) + d.queue.len(),
{
    if !(d.queue.len() == 0 || open_rides(d.rides) == 0) {
        lemma_turn_makes_progress(problem, d);
        lemma_run_stops(problem, turn(problem, d));
    }
}

/// The greedy schedule leaves nothing that could still be taken: at its
/// end, no vehicle, standing where its list has taken it, can take a ride
/// that was open at the start and is on no list.
pub proof fn lemma_schedule_leaves_nothing_admissible(
    problem: Problem,
    vehicles: Seq<Vehicle>,
    rides: Seq<Ride>,
)
    requires
        mustered(problem, vehicles),
        numbered(rides),
    ensures
        ({
            let plan = run(problem, kickoff(problem, vehicles, rides)).plan;
            forall|i: int, q: int|
                #![trigger plan[i], rides[q]]
                0 <= i < vehicles.len() && 0 <= q < rides.len() && !listed(plan, q) ==> !admissible(
                    problem,
                    drive(vehicles[i], rides, plan[i]),
                    rides[q],
                )
        }),
{
    let end = run(problem, kickoff(problem, vehicles, rides));
    lemma_kickoff_on_course(problem, vehicles, rides);
    lemma_kickoff_accounted(problem, vehicles, rides);
    lemma_run_on_course(problem, vehicles, rides, kickoff(problem, vehicles, rides));
    lemma_run_accounted(problem, vehicles, rides, kickoff(problem, vehicles, rides));
    lemma_run_stops(problem, kickoff(problem, vehicles, rides));
    assert forall|i: int, q: int|
        #![trigger end.plan[i], rides[q]]
        0 <= i < vehicles.len() && 0 <= q < rides.len() && !listed(end.plan, q) implies !admissible(
        problem,
        drive(vehicles[i], rides, end.plan[i]),
        rides[q],
    ) by {
        assert(end.rides[q] == rides[q]);
        if end.queue.len() == 0 {
            assert(!queued(end.queue, i));
            assert(nothing_to_take(problem, drive(vehicles[i], rides, end.plan[i]), end.rides));
        } else {
            lemma_no_open_ride(end.rides);
        }
    }
}

} // verus!
