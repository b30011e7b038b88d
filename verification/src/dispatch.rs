//! The greedy schedule, as a mathematical model: which vehicle moves next,
//! which ride it takes, and how a schedule grows turn by turn.

use vstd::prelude::*;
use crate::model::{Problem, Ride, Vehicle, completion, trip_total};
use crate::replay::{gain, moved, served};

verus! {

/// The vehicle can take the ride now: the ride is open, and the vehicle
/// would end it strictly before the horizon and strictly before the
/// deadline of the ride.
pub open spec fn admissible(problem: Problem, vehicle: Vehicle, ride: Ride) -> bool {
    &&& !ride.done
    &&& completion(vehicle, ride) < problem.sim_steps
    &&& completion(vehicle, ride) < ride.latest
}

/// The quotient `gain_a / cost_a` is strictly above `gain_b / cost_b`,
/// where no gain is worth nothing whatever it costs, and a positive gain
/// at no cost is above every gain at a cost.
pub open spec fn ratio_above(gain_a: nat, cost_a: nat, gain_b: nat, cost_b: nat) -> bool {
    if gain_b == 0 {
        gain_a > 0
    } else {
        gain_a * cost_b > gain_b * cost_a
    }
}

/// To the vehicle, ride `a` is worth strictly more for each step spent on
/// it than ride `b`.
pub open spec fn beats(problem: Problem, vehicle: Vehicle, a: Ride, b: Ride) -> bool {
    ratio_above(
        gain(problem, vehicle, a),
        trip_total(vehicle, a),
        gain(problem, vehicle, b),
        trip_total(vehicle, b),
    )
}

/// Ride `r` is the one the vehicle takes: it is admissible, it beats every
/// admissible ride before it, and no admissible ride after it beats it.
pub open spec fn is_best(problem: Problem, vehicle: Vehicle, rides: Seq<Ride>, r: int) -> bool {
    &&& 0 <= r < rides.len()
    &&& admissible(problem, vehicle, rides[r])
    &&& forall|j: int|
        0 <= j < r && admissible(problem, vehicle, #[trigger] rides[j]) ==> beats(
            problem,
            vehicle,
            rides[r],
            rides[j],
        )
    &&& forall|j: int|
        r < j < rides.len() && admissible(problem, vehicle, #[trigger] rides[j]) ==> !beats(
            problem,
            vehicle,
            rides[j],
            rides[r],
        )
}

/// The ride the vehicle takes, if any ride is admissible.
pub open spec fn best_ride(problem: Problem, vehicle: Vehicle, rides: Seq<Ride>) -> Option<int> {
    if exists|r: int| is_best(problem, vehicle, rides, r) {
        Some(choose|r: int| is_best(problem, vehicle, rides, r))
    } else {
        None
    }
}

/// Vehicle `m` of the queue moves next: no vehicle has used less time, and
/// those that have used as little stand behind it.
pub open spec fn is_next(queue: Seq<Vehicle>, m: int) -> bool {
    &&& 0 <= m < queue.len()
    &&& forall|j: int| 0 <= j < m ==> (#[trigger] queue[j]).time > queue[m].time
    &&& forall|j: int| m < j < queue.len() ==> (#[trigger] queue[j]).time >= queue[m].time
}

/// The place in the queue of the vehicle that moves next.
pub open spec fn next_up(queue: Seq<Vehicle>) -> int {
    choose|m: int| is_next(queue, m)
}

/// The number of rides that are still open.
pub open spec fn open_rides(rides: Seq<Ride>) -> nat
    decreases rides.len(),
{
    if rides.len() == 0 {
        0
    } else {
        open_rides(rides.drop_last()) + if rides.last().done {
            0nat
        } else {
            1nat
        }
    }
}

/// The state of a schedule under construction: the vehicles that still
/// take rides, in the order in which they queue, the rides, and the lists
/// made so far.
pub struct Dispatch {
    pub queue: Seq<Vehicle>,
    pub rides: Seq<Ride>,
    pub plan: Seq<Seq<usize>>,
}

/// Each ride carries its place in the sequence as its id.
pub open spec fn numbered(rides: Seq<Ride>) -> bool {
    forall|q: int| 0 <= q < rides.len() ==> (#[trigger] rides[q]).id == q
}

/// Each vehicle of the queue belongs to the fleet of the problem.
pub open spec fn enlisted(problem: Problem, queue: Seq<Vehicle>) -> bool {
    forall|j: int| 0 <= j < queue.len() ==> (#[trigger] queue[j]).id < problem.n_vehicles
}

/// The state in which a schedule starts: the whole fleet queues, and each
/// list is empty.
pub open spec fn kickoff(problem: Problem, vehicles: Seq<Vehicle>, rides: Seq<Ride>) -> Dispatch {
    Dispatch {
        queue: vehicles,
        rides,
        plan: Seq::new(problem.n_vehicles as nat, |i: int| Seq::<usize>::empty()),
    }
}

/// One turn: the next vehicle leaves the queue. If it can take a ride, it takes
/// the best one, the ride is served and put on its list, and the vehicle
/// queues again at the back; otherwise it is gone for good.
pub open spec fn turn(problem: Problem, d: Dispatch) -> Dispatch {
    let m = next_up(d.queue);
    let vehicle = d.queue[m];
    let others = d.queue.remove(m);
    match best_ride(problem, vehicle, d.rides) {
        None => Dispatch { queue: others, rides: d.rides, plan: d.plan },
        Some(r) => Dispatch {
            queue: others.push(moved(vehicle, d.rides[r])),
            rides: d.rides.update(r, served(d.rides[r])),
            plan: d.plan.update(
                vehicle.id as int,
                d.plan[vehicle.id as int].push(d.rides[r].id),
            ),
        },
    }
}

/// Turn after turn, until no ride is open or no vehicle queues.
pub open spec fn run(problem: Problem, d: Dispatch) -> Dispatch
    decreases open_rides(d.rides) + d.queue.len(),
    via run_ends
{
    if d.queue.len() == 0 || open_rides(d.rides) == 0 {
        d
    } else {
        run(problem, turn(problem, d))
    }
}

#[via_fn]
proof fn run_ends(problem: Problem, d: Dispatch) {
    if !(d.queue.len() == 0 || open_rides(d.rides) == 0) {
        lemma_turn_makes_progress(problem, d);
    }
}

/// In a queue that is not empty, some vehicle moves next.
pub proof fn lemma_next_exists(queue: Seq<Vehicle>)
    requires
        queue.len() > 0,
    ensures
        is_next(queue, next_up(queue)),
    decreases queue.len(),
{
    if queue.len() == 1 {
        assert(is_next(queue, 0));
    } else {
        let head = queue.drop_last();
        let n = queue.len() - 1;
        lemma_next_exists(head);
        let m = next_up(head);
        if queue[n].time < head[m].time {
            assert forall|j: int| 0 <= j < n implies (#[trigger] queue[j]).time > queue[n].time by {
                assert(head[j] == queue[j]);
                if j < m {
                    assert(head[j].time > head[m].time);
                } else if j > m {
                    assert(head[j].time >= head[m].time);
                }
            }
            assert(is_next(queue, n));
        } else {
            assert forall|j: int| 0 <= j < m implies (#[trigger] queue[j]).time > queue[m].time by {
                assert(head[j].time > head[m].time);
            }
            assert forall|j: int| m < j < queue.len() implies (#[trigger] queue[j]).time
                >= queue[m].time by {
                if j < n {
                    assert(head[j].time >= head[m].time);
                }
            }
            assert(is_next(queue, m));
        }
    }
}

/// Only one vehicle of a queue moves next.
pub proof fn lemma_next_is_unique(queue: Seq<Vehicle>, m: int)
    requires
        is_next(queue, m),
    ensures
        next_up(queue) == m,
{
    let other = next_up(queue);
    assert(is_next(queue, other));
    if other < m {
        assert(queue[other].time > queue[m].time);
        assert(queue[m].time >= queue[other].time);
    } else if m < other {
        assert(queue[m].time > queue[other].time);
        assert(queue[other].time >= queue[m].time);
    }
}

/// Only one ride is the best for a vehicle.
pub proof fn lemma_best_is_unique(problem: Problem, vehicle: Vehicle, rides: Seq<Ride>, r: int)
    requires
        is_best(problem, vehicle, rides, r),
    ensures
        best_ride(problem, vehicle, rides) == Some(r),
{
    let other = choose|x: int| is_best(problem, vehicle, rides, x);
    assert(is_best(problem, vehicle, rides, other));
    if other < r {
        assert(beats(problem, vehicle, rides[r], rides[other]));
        assert(!beats(problem, vehicle, rides[r], rides[other]));
    } else if r < other {
        assert(beats(problem, vehicle, rides[other], rides[r]));
        assert(!beats(problem, vehicle, rides[other], rides[r]));
    }
}

proof fn lemma_scale_strict(p: int, q: int, k: int)
    by (nonlinear_arith)
    requires
        k > 0,
        p * k > q * k,
    ensures
        p > q,
{
}

proof fn lemma_products_strict(a: int, b: int, c: int, d: int)
    by (nonlinear_arith)
    requires
        a > b >= 0,
        c >= d >= 0,
        c > 0,
    ensures
        a * c > b * d,
{
}

/// Of three quotients, the first is above the third where it is above
/// the second and the third is not above the second.
pub proof fn lemma_above_passes_on(g1: nat, c1: nat, g2: nat, c2: nat, g3: nat, c3: nat)
    requires
        ratio_above(g1, c1, g2, c2),
        !ratio_above(g3, c3, g2, c2),
    ensures
        ratio_above(g1, c1, g3, c3),
{
    assert(g1 > 0) by (nonlinear_arith)
        requires
            g2 == 0 ==> g1 > 0,
            g2 > 0 ==> g1 * c2 > g2 * c1,
            c1 >= 0,
            g1 >= 0,
            c2 >= 0,
    ;
    if g3 > 0 {
        assert(g2 > 0);
        assert(g2 * c1 >= 0 && g3 * c2 >= 0 && g2 * c3 >= 0) by (nonlinear_arith);
        assert(c2 > 0) by (nonlinear_arith)
            requires
                g1 * c2 > 0,
                g1 >= 0,
                c2 >= 0,
        ;
        assert(g3 * c2 > 0 && g2 * c2 > 0) by (nonlinear_arith)
            requires
                g2 > 0,
                g3 > 0,
                c2 > 0,
        ;
        lemma_products_strict((g1 * c2) as int, (g2 * c1) as int, (g2 * c3) as int, (g3 * c2) as int);
        assert((g1 * c2) * (g2 * c3) == (g1 * c3) * (g2 * c2)) by (nonlinear_arith);
        assert((g2 * c1) * (g3 * c2) == (g3 * c1) * (g2 * c2)) by (nonlinear_arith);
        lemma_scale_strict((g1 * c3) as int, (g3 * c1) as int, (g2 * c2) as int);
    }
}

/// Above is transitive.
pub proof fn lemma_above_is_transitive(g1: nat, c1: nat, g2: nat, c2: nat, g3: nat, c3: nat)
    requires
        ratio_above(g1, c1, g2, c2),
        ratio_above(g2, c2, g3, c3),
    ensures
        ratio_above(g1, c1, g3, c3),
{
    assert(g2 > 0 && g3 * c2 <= g2 * c3) by (nonlinear_arith)
        requires
            g3 == 0 ==> g2 > 0,
            g3 > 0 ==> g2 * c3 > g3 * c2,
            c2 >= 0,
            g2 >= 0,
            c3 >= 0,
            g3 >= 0,
    ;
    lemma_above_passes_on(g1, c1, g2, c2, g3, c3);
}

/// Where no ride is admissible, the vehicle takes none.
pub proof fn lemma_no_best_where_none_admissible(
    problem: Problem,
    vehicle: Vehicle,
    rides: Seq<Ride>,
)
    requires
        forall|j: int| 0 <= j < rides.len() ==> !admissible(problem, vehicle, #[trigger] rides[j]),
    ensures
        best_ride(problem, vehicle, rides) is None,
{
    assert forall|r: int| !is_best(problem, vehicle, rides, r) by {
        if 0 <= r < rides.len() {
            assert(!admissible(problem, vehicle, rides[r]));
        }
    }
}

/// Where a ride is admissible, some ride is the best.
proof fn lemma_some_ride_is_best(problem: Problem, vehicle: Vehicle, rides: Seq<Ride>)
    requires
        exists|j: int| 0 <= j < rides.len() && admissible(problem, vehicle, #[trigger] rides[j]),
    ensures
        exists|r: int| is_best(problem, vehicle, rides, r),
    decreases rides.len(),
{
    let head = rides.drop_last();
    let n = rides.len() - 1;
    let last = rides[n];
    let witness = choose|j: int|
        0 <= j < rides.len() && admissible(problem, vehicle, #[trigger] rides[j]);
    if exists|j: int| 0 <= j < head.len() && admissible(problem, vehicle, #[trigger] head[j]) {
        lemma_some_ride_is_best(problem, vehicle, head);
        let r = choose|r: int| is_best(problem, vehicle, head, r);
        let top = head[r];
        assert(top == rides[r]);
        if admissible(problem, vehicle, last) && beats(problem, vehicle, last, top) {
            assert forall|j: int|
                0 <= j < n && admissible(problem, vehicle, #[trigger] rides[j]) implies beats(
                problem,
                vehicle,
                last,
                rides[j],
            ) by {
                let g1 = gain(problem, vehicle, last);
                let c1 = trip_total(vehicle, last);
                let g2 = gain(problem, vehicle, top);
                let c2 = trip_total(vehicle, top);
                let g3 = gain(problem, vehicle, rides[j]);
                let c3 = trip_total(vehicle, rides[j]);
                assert(head[j] == rides[j]);
                if j < r {
                    assert(beats(problem, vehicle, top, head[j]));
                    lemma_above_is_transitive(g1, c1, g2, c2, g3, c3);
                } else if j > r {
                    assert(!beats(problem, vehicle, head[j], top));
                    lemma_above_passes_on(g1, c1, g2, c2, g3, c3);
                }
            }
            assert(is_best(problem, vehicle, rides, n));
        } else {
            assert forall|j: int|
                0 <= j < r && admissible(problem, vehicle, #[trigger] rides[j]) implies beats(
                problem,
                vehicle,
                rides[r],
                rides[j],
            ) by {
                assert(head[j] == rides[j]);
            }
            assert forall|j: int|
                r < j < rides.len() && admissible(
                    problem,
                    vehicle,
                    #[trigger] rides[j],
                ) implies !beats(problem, vehicle, rides[j], rides[r]) by {
                if j < n {
                    assert(head[j] == rides[j]);
                }
            }
            assert(is_best(problem, vehicle, rides, r));
        }
    } else {
        assert forall|j: int| 0 <= j < n implies !admissible(
            problem,
            vehicle,
            #[trigger] rides[j],
        ) by {
            assert(head[j] == rides[j]);
        }
        assert(witness == n);
        assert(is_best(problem, vehicle, rides, n));
    }
}

/// The vehicle takes no ride exactly where no ride is admissible.
pub proof fn lemma_none_taken_iff_none_admissible(
    problem: Problem,
    vehicle: Vehicle,
    rides: Seq<Ride>,
)
    ensures
        best_ride(problem, vehicle, rides) is None <==> forall|j: int|
            0 <= j < rides.len() ==> !admissible(problem, vehicle, #[trigger] rides[j]),
        best_ride(problem, vehicle, rides) matches Some(r) ==> is_best(problem, vehicle, rides, r),
{
    if forall|j: int| 0 <= j < rides.len() ==> !admissible(problem, vehicle, #[trigger] rides[j]) {
        lemma_no_best_where_none_admissible(problem, vehicle, rides);
    } else {
        lemma_some_ride_is_best(problem, vehicle, rides);
    }
}

/// Serving an open ride leaves one open ride fewer.
pub proof fn lemma_serving_closes_one(rides: Seq<Ride>, r: int)
    requires
        0 <= r < rides.len(),
        !rides[r].done,
    ensures
        open_rides(rides.update(r, served(rides[r]))) + 1 == open_rides(rides),
    decreases rides.len(),
{
    let after = rides.update(r, served(rides[r]));
    if r == rides.len() - 1 {
        assert(after.drop_last() =~= rides.drop_last());
    } else {
        assert(after.drop_last() =~= rides.drop_last().update(r, served(rides[r])));
        lemma_serving_closes_one(rides.drop_last(), r);
    }
}

/// A turn takes a vehicle out of the queue for good or serves one more
/// ride.
pub proof fn lemma_turn_makes_progress(problem: Problem, d: Dispatch)
    requires
        d.queue.len() > 0,
    ensures
        open_rides(turn(problem, d).rides) + turn(problem, d).queue.len() + 1 == open_rides(
            d.rides,
        ) + d.queue.len(),
{
    lemma_next_exists(d.queue);
    let m = next_up(d.queue);
    match best_ride(problem, d.queue[m], d.rides) {
        None => {},
        Some(r) => {
            assert(is_best(problem, d.queue[m], d.rides, r));
            lemma_serving_closes_one(d.rides, r);
        },
    }
}

} // verus!
