//! When a replay is clean: a plan is replayed without a violation exactly
//! when it serves no ride twice, serves no ride that was served before, and
//! lets every vehicle keep the horizon and the deadlines along its list.

use vstd::prelude::*;
use crate::model::{Problem, Ride, Vehicle, completion};
use crate::replay::{Tally, gain, moved, plan_fits, replay, replay_list, served};

verus! {

/// The list holds the ride `q`.
pub open spec fn names(list: Seq<usize>, q: int) -> bool {
    exists|k: int| 0 <= k < list.len() && #[trigger] list[k] == q
}

/// Some list of the plan holds the ride `q`.
pub open spec fn listed(plan: Seq<Seq<usize>>, q: int) -> bool {
    exists|i: int| 0 <= i < plan.len() && #[trigger] names(plan[i], q)
}

/// No ride stands at two places of the plan.
pub open spec fn serves_once(plan: Seq<Seq<usize>>) -> bool {
    forall|i: int, k: int, j: int, l: int|
        0 <= i < plan.len() && 0 <= k < plan[i].len() && 0 <= j < plan.len() && 0 <= l
            < plan[j].len() && (i != j || k != l) ==> #[trigger] plan[i][k]
            != #[trigger] plan[j][l]
}

/// No ride of the plan has been served before the replay starts.
pub open spec fn serves_open(rides: Seq<Ride>, plan: Seq<Seq<usize>>) -> bool {
    forall|i: int, k: int|
        0 <= i < plan.len() && 0 <= k < plan[i].len() ==> !rides[#[trigger] plan[i][k] as int].done
}

/// The vehicle can serve the ride within the horizon and strictly before
/// the deadline of the ride.
pub open spec fn in_time(problem: Problem, vehicle: Vehicle, ride: Ride) -> bool {
    completion(vehicle, ride) <= problem.sim_steps && completion(vehicle, ride) < ride.latest
}

/// The vehicle after it has served the rides of the list, in order.
pub open spec fn drive(vehicle: Vehicle, rides: Seq<Ride>, list: Seq<usize>) -> Vehicle
    decreases list.len(),
{
    if list.len() == 0 {
        vehicle
    } else {
        moved(drive(vehicle, rides, list.drop_last()), rides[list.last() as int])
    }
}

/// The vehicle is in time for each ride of the list, served in order.
pub open spec fn feasible(problem: Problem, vehicle: Vehicle, rides: Seq<Ride>, list: Seq<usize>) -> bool
    decreases list.len(),
{
    list.len() == 0 || (feasible(problem, vehicle, rides, list.drop_last()) && in_time(
        problem,
        drive(vehicle, rides, list.drop_last()),
        rides[list.last() as int],
    ))
}

/// What the vehicle earns by serving the rides of the list, in order.
pub open spec fn earnings(problem: Problem, vehicle: Vehicle, rides: Seq<Ride>, list: Seq<usize>) -> nat
    decreases list.len(),
{
    if list.len() == 0 {
        0
    } else {
        earnings(problem, vehicle, rides, list.drop_last()) + gain(
            problem,
            drive(vehicle, rides, list.drop_last()),
            rides[list.last() as int],
        )
    }
}

/// What the fleet earns by serving the plan, each vehicle its own list.
pub open spec fn fleet_earnings(
    problem: Problem,
    vehicles: Seq<Vehicle>,
    rides: Seq<Ride>,
    plan: Seq<Seq<usize>>,
) -> nat
    decreases plan.len(),
{
    if plan.len() == 0 {
        0
    } else {
        fleet_earnings(problem, vehicles, rides, plan.drop_last()) + earnings(
            problem,
            vehicles[plan.len() - 1],
            rides,
            plan.last(),
        )
    }
}

/// Every vehicle is in time along its own list.
pub open spec fn all_feasible(
    problem: Problem,
    vehicles: Seq<Vehicle>,
    rides: Seq<Ride>,
    plan: Seq<Seq<usize>>,
) -> bool {
    forall|i: int| 0 <= i < plan.len() ==> feasible(problem, vehicles[i], rides, #[trigger] plan[i])
}

/// The plan breaks no rule.
pub open spec fn valid_plan(
    problem: Problem,
    vehicles: Seq<Vehicle>,
    rides: Seq<Ride>,
    plan: Seq<Seq<usize>>,
) -> bool {
    &&& serves_once(plan)
    &&& serves_open(rides, plan)
    &&& all_feasible(problem, vehicles, rides, plan)
}

/// One list can be replayed from the state `t` without a violation.
pub open spec fn clear(problem: Problem, t: Tally, vehicle_id: int, list: Seq<usize>) -> bool {
    &&& feasible(problem, t.vehicles[vehicle_id], t.rides, list)
    &&& list.no_duplicates()
    &&& forall|k: int| 0 <= k < list.len() ==> !t.rides[#[trigger] list[k] as int].done
}

proof fn lemma_names_last(list: Seq<usize>, q: int)
    requires
        list.len() > 0,
    ensures
        names(list, q) <==> names(list.drop_last(), q) || list.last() == q,
{
    let head = list.drop_last();
    if names(list, q) {
        let k = choose|k: int| 0 <= k < list.len() && #[trigger] list[k] == q;
        if k < head.len() {
            assert(head[k] == q);
        }
    }
    if names(head, q) {
        let k = choose|k: int| 0 <= k < head.len() && #[trigger] head[k] == q;
        assert(list[k] == q);
    }
    if list.last() == q {
        assert(list[list.len() - 1] == q);
    }
}

proof fn lemma_no_duplicates_last(list: Seq<usize>)
    requires
        list.len() > 0,
    ensures
        list.no_duplicates() <==> list.drop_last().no_duplicates() && !names(
            list.drop_last(),
            list.last() as int,
        ),
{
    let head = list.drop_last();
    let n = list.len() - 1;
    if list.no_duplicates() {
        assert forall|i: int, j: int| 0 <= i < head.len() && 0 <= j < head.len() && i != j implies head[i]
            != head[j] by {
            assert(list[i] != list[j]);
        }
        if names(head, list.last() as int) {
            let k = choose|k: int| 0 <= k < head.len() && #[trigger] head[k] == list.last() as int;
            assert(list[k] != list[n]);
        }
    }
    if head.no_duplicates() && !names(head, list.last() as int) {
        assert forall|i: int, j: int| 0 <= i < list.len() && 0 <= j < list.len() && i != j implies list[i]
            != list[j] by {
            if i < n && j < n {
                assert(head[i] != head[j]);
            } else if i < n {
                assert(head[i] == list[i]);
            } else {
                assert(head[j] == list[j]);
            }
        }
    }
}

/// How the replay of one list ends. It adds at most one violation. It ends
/// without one exactly when the list is clear; the vehicle has then driven
/// the list, the rides of the list are served, and the score has grown by
/// the earnings.
pub proof fn lemma_list_outcome(problem: Problem, t: Tally, vehicle_id: int, list: Seq<usize>)
    requires
        list.len() > 0 ==> 0 <= vehicle_id < t.vehicles.len(),
        forall|k: int| 0 <= k < list.len() ==> #[trigger] list[k] < t.rides.len(),
    ensures
        ({
            let after = replay_list(problem, t, vehicle_id, list);
            &&& after.vehicles.len() == t.vehicles.len()
            &&& after.rides.len() == t.rides.len()
            &&& after.errors.len() == t.errors.len() + if after.halted {
                1nat
            } else {
                0nat
            }
            &&& !after.halted <==> clear(problem, t, vehicle_id, list)
            &&& !after.halted ==> {
                &&& after.errors == t.errors
                &&& after.score == t.score + earnings(
                    problem,
                    t.vehicles[vehicle_id],
                    t.rides,
                    list,
                )
                &&& forall|i: int|
                    0 <= i < t.vehicles.len() ==> #[trigger] after.vehicles[i] == if i
                        == vehicle_id {
                        drive(t.vehicles[vehicle_id], t.rides, list)
                    } else {
                        t.vehicles[i]
                    }
                &&& forall|q: int|
                    0 <= q < t.rides.len() ==> #[trigger] after.rides[q] == if names(list, q) {
                        served(t.rides[q])
                    } else {
                        t.rides[q]
                    }
            }
        }),
    decreases list.len(),
{
    if list.len() > 0 {
        let head = list.drop_last();
        let n = list.len() - 1;
        let q = list.last();
        assert forall|k: int| 0 <= k < head.len() implies #[trigger] head[k] < t.rides.len() by {
            assert(head[k] == list[k]);
        }
        lemma_list_outcome(problem, t, vehicle_id, head);
        lemma_no_duplicates_last(list);
        let before = replay_list(problem, t, vehicle_id, head);
        let after = replay_list(problem, t, vehicle_id, list);
        assert(list[n] == q);
        if clear(problem, t, vehicle_id, list) {
            assert forall|k: int| 0 <= k < head.len() implies !t.rides[#[trigger] head[k] as int].done by {
                assert(head[k] == list[k]);
            }
            assert(clear(problem, t, vehicle_id, head));
            assert(!t.rides[list[n] as int].done);
        }
        if !before.halted {
            let vehicle = before.vehicles[vehicle_id];
            let ride = before.rides[q as int];
            assert(vehicle == drive(t.vehicles[vehicle_id], t.rides, head));
            if names(head, q as int) {
                assert(ride.done);
                assert(after.halted);
            } else {
                assert(ride == t.rides[q as int]);
                if !ride.done && in_time(problem, vehicle, ride) {
                    assert(!after.halted);
                    assert forall|k: int| 0 <= k < list.len() implies !t.rides[#[trigger] list[k] as int].done by {
                        if k < n {
                            assert(head[k] == list[k]);
                        }
                    }
                    assert(clear(problem, t, vehicle_id, list));
                    assert forall|x: int| 0 <= x < t.rides.len() implies #[trigger] after.rides[x]
                        == if names(list, x) {
                        served(t.rides[x])
                    } else {
                        t.rides[x]
                    } by {
                        lemma_names_last(list, x);
                    }
                } else {
                    assert(after.halted);
                }
            }
        }
    }
}

proof fn lemma_listed_last(plan: Seq<Seq<usize>>, q: int)
    requires
        plan.len() > 0,
    ensures
        listed(plan, q) <==> listed(plan.drop_last(), q) || names(plan.last(), q),
{
    let prev = plan.drop_last();
    if listed(plan, q) {
        let i = choose|i: int| 0 <= i < plan.len() && #[trigger] names(plan[i], q);
        if i < prev.len() {
            assert(names(prev[i], q));
        }
    }
    if listed(prev, q) {
        let i = choose|i: int| 0 <= i < prev.len() && #[trigger] names(prev[i], q);
        assert(names(plan[i], q));
    }
    if names(plan.last(), q) {
        assert(names(plan[plan.len() - 1], q));
    }
}

proof fn lemma_serves_once_last(plan: Seq<Seq<usize>>)
    requires
        plan.len() > 0,
    ensures
        serves_once(plan) <==> {
            &&& serves_once(plan.drop_last())
            &&& plan.last().no_duplicates()
            &&& forall|k: int|
                0 <= k < plan.last().len() ==> !listed(
                    plan.drop_last(),
                    #[trigger] plan.last()[k] as int,
                )
        },
{
    let prev = plan.drop_last();
    let m = plan.len() - 1;
    let list = plan.last();
    assert(plan[m] == list);
    if serves_once(plan) {
        assert forall|i: int, k: int, j: int, l: int|
            0 <= i < prev.len() && 0 <= k < prev[i].len() && 0 <= j < prev.len() && 0 <= l
                < prev[j].len() && (i != j || k != l) implies #[trigger] prev[i][k]
            != #[trigger] prev[j][l] by {
            assert(plan[i][k] != plan[j][l]);
        }
        assert forall|k: int, l: int| 0 <= k < list.len() && 0 <= l < list.len() && k != l implies list[k]
            != list[l] by {
            assert(plan[m][k] != plan[m][l]);
        }
        assert forall|k: int| 0 <= k < list.len() implies !listed(prev, #[trigger] list[k] as int) by {
            if listed(prev, list[k] as int) {
                let i = choose|i: int| 0 <= i < prev.len() && #[trigger] names(prev[i], list[k] as int);
                let l = choose|l: int| 0 <= l < prev[i].len() && #[trigger] prev[i][l] == list[k] as int;
                assert(plan[i][l] != plan[m][k]);
            }
        }
    }
    if serves_once(prev) && list.no_duplicates() && (forall|k: int|
        0 <= k < list.len() ==> !listed(prev, #[trigger] list[k] as int)) {
        assert forall|i: int, k: int, j: int, l: int|
            0 <= i < plan.len() && 0 <= k < plan[i].len() && 0 <= j < plan.len() && 0 <= l
                < plan[j].len() && (i != j || k != l) implies #[trigger] plan[i][k]
            != #[trigger] plan[j][l] by {
            if i < m && j < m {
                assert(prev[i][k] != prev[j][l]);
            } else if i == m && j == m {
                assert(list[k] != list[l]);
            } else if i == m {
                assert(!listed(prev, list[k] as int));
                if plan[j][l] == list[k] {
                    assert(prev[j][l] == list[k] as int);
                    assert(names(prev[j], list[k] as int));
                }
            } else {
                assert(!listed(prev, list[l] as int));
                if plan[i][k] == list[l] {
                    assert(prev[i][k] == list[l] as int);
                    assert(names(prev[i], list[l] as int));
                }
            }
        }
    }
}

/// A trip along a list reads only the rides that the list holds.
proof fn lemma_only_named_rides_matter(
    problem: Problem,
    vehicle: Vehicle,
    a: Seq<Ride>,
    b: Seq<Ride>,
    list: Seq<usize>,
)
    requires
        forall|k: int| 0 <= k < list.len() ==> a[#[trigger] list[k] as int] == b[list[k] as int],
    ensures
        drive(vehicle, a, list) == drive(vehicle, b, list),
        feasible(problem, vehicle, a, list) == feasible(problem, vehicle, b, list),
        earnings(problem, vehicle, a, list) == earnings(problem, vehicle, b, list),
    decreases list.len(),
{
    if list.len() > 0 {
        let head = list.drop_last();
        assert forall|k: int| 0 <= k < head.len() implies a[#[trigger] head[k] as int] == b[head[k] as int] by {
            assert(head[k] == list[k]);
        }
        lemma_only_named_rides_matter(problem, vehicle, a, b, head);
        assert(list[list.len() - 1] == list.last());
    }
}

proof fn lemma_valid_without_last(
    problem: Problem,
    vehicles: Seq<Vehicle>,
    rides: Seq<Ride>,
    plan: Seq<Seq<usize>>,
)
    requires
        plan.len() > 0,
        valid_plan(problem, vehicles, rides, plan),
    ensures
        valid_plan(problem, vehicles, rides, plan.drop_last()),
{
    let prev = plan.drop_last();
    lemma_serves_once_last(plan);
    assert forall|i: int, k: int| 0 <= i < prev.len() && 0 <= k < prev[i].len() implies !rides[#[trigger] prev[i][k] as int].done by {
        assert(!rides[plan[i][k] as int].done);
    }
    assert forall|i: int| 0 <= i < prev.len() implies feasible(
        problem,
        vehicles[i],
        rides,
        #[trigger] prev[i],
    ) by {
        assert(prev[i] == plan[i]);
    }
}

/// How a replay ends. It ends without a violation exactly when the plan is
/// valid. Each vehicle has then driven its list, the rides of the plan are
/// served and no others have changed, and the score is what the fleet
/// earned.
pub proof fn lemma_replay_outcome(
    problem: Problem,
    vehicles: Seq<Vehicle>,
    rides: Seq<Ride>,
    plan: Seq<Seq<usize>>,
)
    requires
        plan_fits(plan, vehicles.len(), rides.len()),
    ensures
        ({
            let end = replay(problem, vehicles, rides, plan);
            &&& end.vehicles.len() == vehicles.len()
            &&& end.rides.len() == rides.len()
            &&& end.errors.len() == 0 <==> valid_plan(problem, vehicles, rides, plan)
            &&& end.errors.len() == 0 ==> {
                &&& end.score == fleet_earnings(problem, vehicles, rides, plan)
                &&& forall|i: int|
                    0 <= i < vehicles.len() ==> #[trigger] end.vehicles[i] == if i < plan.len() {
                        drive(vehicles[i], rides, plan[i])
                    } else {
                        vehicles[i]
                    }
                &&& forall|q: int|
                    0 <= q < rides.len() ==> #[trigger] end.rides[q] == if listed(plan, q) {
                        served(rides[q])
                    } else {
                        rides[q]
                    }
            }
        }),
    decreases plan.len(),
{
    if plan.len() > 0 {
        let prev = plan.drop_last();
        let m = plan.len() - 1;
        let list = plan.last();
        assert(plan[m] == list);
        assert(plan_fits(prev, vehicles.len(), rides.len())) by {
            assert forall|i: int| 0 <= i < prev.len() && (#[trigger] prev[i]).len() > 0 implies i
                < vehicles.len() by {
                assert(plan[i].len() > 0);
            }
            assert forall|i: int, k: int| 0 <= i < prev.len() && 0 <= k < prev[i].len() implies #[trigger] prev[i][k]
                < rides.len() by {
                assert(plan[i][k] < rides.len());
            }
        }
        lemma_replay_outcome(problem, vehicles, rides, prev);
        let mid = replay(problem, vehicles, rides, prev);
        let end = replay(problem, vehicles, rides, plan);
        assert(end == replay_list(problem, mid, m, list));
        assert forall|k: int| 0 <= k < list.len() implies #[trigger] list[k] < mid.rides.len() by {
            assert(plan[m][k] < rides.len());
        }
        lemma_list_outcome(problem, mid, m, list);
        lemma_serves_once_last(plan);
        if valid_plan(problem, vehicles, rides, plan) {
            lemma_valid_without_last(problem, vehicles, rides, plan);
        }
        if mid.errors.len() == 0 {
            if list.len() > 0 {
                assert(mid.vehicles[m] == vehicles[m]);
            }
            if valid_plan(problem, vehicles, rides, plan) {
                assert forall|k: int| 0 <= k < list.len() implies mid.rides[#[trigger] list[k] as int]
                    == rides[list[k] as int] && !rides[list[k] as int].done by {
                    assert(!listed(prev, list[k] as int));
                    assert(!rides[plan[m][k] as int].done);
                }
                lemma_only_named_rides_matter(problem, vehicles[m], mid.rides, rides, list);
                assert(feasible(problem, vehicles[m], rides, plan[m]));
                assert(clear(problem, mid, m, list));
            }
            if clear(problem, mid, m, list) {
                assert forall|k: int| 0 <= k < list.len() implies mid.rides[#[trigger] list[k] as int]
                    == rides[list[k] as int] && !listed(prev, list[k] as int) by {
                    assert(!mid.rides[list[k] as int].done);
                }
                lemma_only_named_rides_matter(problem, vehicles[m], mid.rides, rides, list);
                assert forall|i: int, k: int| 0 <= i < plan.len() && 0 <= k < plan[i].len() implies !rides[#[trigger] plan[i][k] as int].done by {
                    if i < m {
                        assert(!rides[prev[i][k] as int].done);
                    } else {
                        assert(mid.rides[list[k] as int] == rides[list[k] as int]);
                    }
                }
                assert forall|i: int| 0 <= i < plan.len() implies feasible(
                    problem,
                    vehicles[i],
                    rides,
                    #[trigger] plan[i],
                ) by {
                    if i < m {
                        assert(feasible(problem, vehicles[i], rides, prev[i]));
                    }
                }
                assert(valid_plan(problem, vehicles, rides, plan));
                assert forall|i: int| 0 <= i < vehicles.len() implies #[trigger] end.vehicles[i]
                    == if i < plan.len() {
                    drive(vehicles[i], rides, plan[i])
                } else {
                    vehicles[i]
                } by {
                    if i < m {
                        assert(prev[i] == plan[i]);
                    }
                }
                assert forall|q: int| 0 <= q < rides.len() implies #[trigger] end.rides[q] == if listed(
                    plan,
                    q,
                ) {
                    served(rides[q])
                } else {
                    rides[q]
                } by {
                    lemma_listed_last(plan, q);
                    if names(list, q) {
                        let k = choose|k: int| 0 <= k < list.len() && #[trigger] list[k] == q;
                        assert(mid.rides[list[k] as int] == rides[list[k] as int]);
                    }
                }
            }
        }
    }
}

/// How many rides of its list the vehicle serves: all of them where the
/// replay of the list meets no violation, and otherwise those before the
/// violation.
pub open spec fn served_count(problem: Problem, t: Tally, vehicle_id: int, list: Seq<usize>) -> nat
    decreases list.len(),
{
    if list.len() == 0 {
        0
    } else if replay_list(problem, t, vehicle_id, list).halted {
        served_count(problem, t, vehicle_id, list.drop_last())
    } else {
        list.len()
    }
}

/// The score of a list is the sum of what the rides that were served have
/// earned, each its length and, where the vehicle was on time, the bonus:
/// whether or not the list ends in a violation, the score has grown by the
/// earnings of the rides before it.
pub proof fn lemma_list_score_is_earned(problem: Problem, t: Tally, vehicle_id: int, list: Seq<usize>)
    requires
        list.len() > 0 ==> 0 <= vehicle_id < t.vehicles.len(),
        forall|k: int| 0 <= k < list.len() ==> #[trigger] list[k] < t.rides.len(),
    ensures
        ({
            let n = served_count(problem, t, vehicle_id, list);
            &&& n <= list.len()
            &&& n < list.len() <==> replay_list(problem, t, vehicle_id, list).halted
            &&& clear(problem, t, vehicle_id, list.take(n as int))
            &&& replay_list(problem, t, vehicle_id, list).score == t.score + earnings(
                problem,
                t.vehicles[vehicle_id],
                t.rides,
                list.take(n as int),
            )
        }),
    decreases list.len(),
{
    let n = served_count(problem, t, vehicle_id, list);
    if list.len() == 0 {
        assert(list.take(0) =~= list);
        lemma_list_outcome(problem, t, vehicle_id, list);
    } else if replay_list(problem, t, vehicle_id, list).halted {
        let head = list.drop_last();
        assert forall|k: int| 0 <= k < head.len() implies #[trigger] head[k] < t.rides.len() by {
            assert(head[k] == list[k]);
        }
        lemma_list_score_is_earned(problem, t, vehicle_id, head);
        assert(head.take(n as int) =~= list.take(n as int));
    } else {
        assert(list.take(n as int) =~= list);
        lemma_list_outcome(problem, t, vehicle_id, list);
    }
}

/// A replay without a violation serves no ride twice and none that had
/// been served before it started; at its end, the rides that are served
/// are those that were served before and those of the plan.
pub proof fn lemma_clean_replay_serves_each_ride_once(
    problem: Problem,
    vehicles: Seq<Vehicle>,
    rides: Seq<Ride>,
    plan: Seq<Seq<usize>>,
)
    requires
        plan_fits(plan, vehicles.len(), rides.len()),
        replay(problem, vehicles, rides, plan).errors.len() == 0,
    ensures
        serves_once(plan),
        serves_open(rides, plan),
        forall|q: int|
            0 <= q < rides.len() ==> (#[trigger] replay(problem, vehicles, rides, plan).rides[q]).done
                == (rides[q].done || listed(plan, q)),
{
    lemma_replay_outcome(problem, vehicles, rides, plan);
}

} // verus!
