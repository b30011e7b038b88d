//! The greedy scheduler.

use vstd::prelude::*;
use crate::dispatch::{
    Dispatch, admissible, beats, best_ride, enlisted, is_best, is_next, kickoff,
    lemma_above_is_transitive, lemma_above_passes_on, lemma_best_is_unique,
    lemma_next_is_unique, lemma_no_best_where_none_admissible, lemma_serving_closes_one,
    numbered, open_rides, ratio_above, run, turn,
};
use crate::model::{
    Problem, Ride, Vehicle, checked_travel_time, gets_bonus, travel_time, trip_total,
};
use crate::replay::{gain, plan_of};

verus! {

proof fn lemma_product_fits(a: usize, b: usize)
    ensures
        0 <= a * b <= u128::MAX,
{
    assert(0 <= a * b <= 0xffff_ffff_ffff_ffff * 0xffff_ffff_ffff_ffff) by (nonlinear_arith)
        requires
            0 <= a <= 0xffff_ffff_ffff_ffff,
            0 <= b <= 0xffff_ffff_ffff_ffff,
    ;
}

fn product(a: usize, b: usize) -> (p: u128)
    ensures
        p == a * b,
{
    proof {
        lemma_product_fits(a, b);
    }
    (a as u128) * (b as u128)
}

/// Whether `x1 + y1` is above `x2 + y2`, where the sums may not fit.
fn sum_above(x1: u128, y1: u128, x2: u128, y2: u128) -> (r: bool)
    ensures
        r == (x1 + y1 > x2 + y2),
{
    if x1 >= x2 {
        let d: u128 = x1 - x2;
        d > y2 || y1 > y2 - d
    } else {
        let d: u128 = x2 - x1;
        y1 > d && y1 - d > y2
    }
}

/// Whether `(length_a + bonus_a) / cost_a` is above
/// `(length_b + bonus_b) / cost_b`, where no gain is worth nothing.
fn outdoes(
    length_a: usize,
    bonus_a: usize,
    cost_a: usize,
    length_b: usize,
    bonus_b: usize,
    cost_b: usize,
) -> (r: bool)
    ensures
        r == ratio_above(
            (length_a + bonus_a) as nat,
            cost_a as nat,
            (length_b + bonus_b) as nat,
            cost_b as nat,
        ),
{
    if length_b == 0 && bonus_b == 0 {
        return length_a > 0 || bonus_a > 0;
    }
    proof {
        assert((length_a + bonus_a) * cost_b == length_a * cost_b + bonus_a * cost_b)
            by (nonlinear_arith);
        assert((length_b + bonus_b) * cost_a == length_b * cost_a + bonus_b * cost_a)
            by (nonlinear_arith);
    }
    sum_above(
        product(length_a, cost_b),
        product(bonus_a, cost_b),
        product(length_b, cost_a),
        product(bonus_b, cost_a),
    )
}

/// A fleet that takes rides from a common set, the vehicle that has used
/// the least time first.
#[derive(Debug)]
pub struct Solver {
    problem: Problem,
    vehicles: Vec<Vehicle>,
    rides: Vec<Ride>,
}

impl Solver {
    /// The parameters of the instance.
    pub closed spec fn problem(&self) -> Problem {
        self.problem
    }

    /// The vehicles that still take rides, in the order in which they queue.
    pub closed spec fn queue(&self) -> Seq<Vehicle> {
        self.vehicles@
    }

    /// The rides, as they stand.
    pub closed spec fn rides(&self) -> Seq<Ride> {
        self.rides@
    }

    /// Each ride carries its place as its id, and each vehicle belongs to
    /// the fleet of the problem.
    pub open spec fn wf(&self) -> bool {
        numbered(self.rides()) && enlisted(self.problem(), self.queue())
    }

    /// A scheduler for this fleet, which queues in the order given, and
    /// these rides.
    pub fn new(problem: Problem, vehicles: Vec<Vehicle>, rides: Vec<Ride>) -> (s: Solver)
        ensures
            s.problem() == problem,
            s.queue() == vehicles@,
            s.rides() == rides@,
    {
        Solver { problem, vehicles, rides }
    }

    /// Of the rides that the vehicle can take now, the one that earns it
    /// most for each step spent on it, the first of them where several
    /// earn alike, by its id; `None` exactly where it can take none.
    pub fn best_ride_for_vehicle(&self, vehicle: &Vehicle) -> (picked: Option<usize>)
        ensures
            picked == match best_ride(self.problem(), *vehicle, self.rides()) {
                Some(r) => Some(self.rides()[r].id),
                None => None,
            },
            picked is None <==> forall|j: int|
                0 <= j < self.rides().len() ==> !admissible(
                    self.problem(),
                    *vehicle,
                    #[trigger] self.rides()[j],
                ),
    {
        let ghost problem = self.problem;
        let ghost rides = self.rides@;
        let mut best: Option<usize> = None;
        let mut best_length: usize = 0;
        let mut best_bonus: usize = 0;
        let mut best_cost: usize = 0;
        let mut i: usize = 0;
        while i < self.rides.len()
            invariant
                i <= self.rides.len(),
                problem == self.problem,
                rides == self.rides@,
                match best {
                    None => forall|j: int| 0 <= j < i ==> !admissible(problem, *vehicle, #[trigger] rides[j]),
                    Some(b) => {
                        &&& b < i
                        &&& admissible(problem, *vehicle, rides[b as int])
                        &&& best_length + best_bonus == gain(problem, *vehicle, rides[b as int])
                        &&& best_cost == trip_total(*vehicle, rides[b as int])
                        &&& forall|j: int|
                            0 <= j < b && admissible(problem, *vehicle, #[trigger] rides[j]) ==> beats(
                                problem,
                                *vehicle,
                                rides[b as int],
                                rides[j],
                            )
                        &&& forall|j: int|
                            b < j < i && admissible(problem, *vehicle, #[trigger] rides[j]) ==> !beats(
                                problem,
                                *vehicle,
                                rides[j],
                                rides[b as int],
                            )
                    },
                },
            decreases self.rides.len() - i,
        {
            let ride = &self.rides[i];
            let mut offer: Option<(usize, usize, usize)> = None;
            if !ride.done {
                match checked_travel_time(vehicle, ride) {
                    Some((_, _, ride_distance, total)) => {
                        let horizon: usize = self.problem.sim_steps;
                        if total < horizon && vehicle.time < horizon - total && vehicle.time + total
                            < ride.latest {
                            let bonus: usize = if gets_bonus(vehicle, ride) {
                                self.problem.bonus
                            } else {
                                0
                            };
                            offer = Some((ride_distance, bonus, total));
                        }
                    },
                    None => {},
                }
            }
            assert(offer is Some <==> admissible(problem, *vehicle, rides[i as int]));
            match offer {
                Some((length, bonus, cost)) => {
                    assert(length + bonus == gain(problem, *vehicle, rides[i as int]));
                    assert(cost == trip_total(*vehicle, rides[i as int]));
                    let better: bool = match best {
                        None => true,
                        Some(b) => outdoes(length, bonus, cost, best_length, best_bonus, best_cost),
                    };
                    if better {
                        proof {
                            match best {
                                None => {},
                                Some(b) => {
                                    let top = rides[i as int];
                                    let old_top = rides[b as int];
                                    assert(beats(problem, *vehicle, top, old_top));
                                    assert forall|j: int|
                                        0 <= j < i && admissible(
                                            problem,
                                            *vehicle,
                                            #[trigger] rides[j],
                                        ) implies beats(problem, *vehicle, top, rides[j]) by {
                                        let g1 = gain(problem, *vehicle, top);
                                        let c1 = trip_total(*vehicle, top);
                                        let g2 = gain(problem, *vehicle, old_top);
                                        let c2 = trip_total(*vehicle, old_top);
                                        let g3 = gain(problem, *vehicle, rides[j]);
                                        let c3 = trip_total(*vehicle, rides[j]);
                                        if j < b {
                                            lemma_above_is_transitive(g1, c1, g2, c2, g3, c3);
                                        } else if j > b {
                                            lemma_above_passes_on(g1, c1, g2, c2, g3, c3);
                                        }
                                    }
                                },
                            }
                        }
                        best = Some(i);
                        best_length = length;
                        best_bonus = bonus;
                        best_cost = cost;
                    }
                },
                None => {},
            }
            i = i + 1;
        }
        match best {
            Some(b) => {
                proof {
                    assert(is_best(problem, *vehicle, rides, b as int));
                    lemma_best_is_unique(problem, *vehicle, rides, b as int);
                }
                Some(self.rides[b].id)
            },
            None => {
                proof {
                    lemma_no_best_where_none_admissible(problem, *vehicle, rides);
                }
                None
            },
        }
    }

    /// The place in the queue of the vehicle that moves next.
    fn next_vehicle(&self) -> (m: usize)
        requires
            self.queue().len() > 0,
        ensures
            is_next(self.queue(), m as int),
    {
        let mut m: usize = 0;
        let mut i: usize = 1;
        while i < self.vehicles.len()
            invariant
                m < i <= self.vehicles.len(),
                forall|j: int| 0 <= j < m ==> (#[trigger] self.vehicles@[j]).time > self.vehicles@[m as int].time,
                forall|j: int| m < j < i ==> (#[trigger] self.vehicles@[j]).time >= self.vehicles@[m as int].time,
            decreases self.vehicles.len() - i,
        {
            if self.vehicles[i].time < self.vehicles[m].time {
                m = i;
            }
            i = i + 1;
        }
        m
    }

    /// The number of rides that are still open.
    fn count_open(&self) -> (n: usize)
        ensures
            n == open_rides(self.rides()),
    {
        let mut n: usize = 0;
        let mut i: usize = 0;
        proof {
            assert(self.rides@.take(0) =~= Seq::<Ride>::empty());
        }
        while i < self.rides.len()
            invariant
                i <= self.rides.len(),
                n <= i,
                n == open_rides(self.rides@.take(i as int)),
            decreases self.rides.len() - i,
        {
            proof {
                assert(self.rides@.take(i as int + 1).drop_last() =~= self.rides@.take(i as int));
                assert(self.rides@.take(i as int + 1).last() == self.rides@[i as int]);
            }
            if !self.rides[i].done {
                n = n + 1;
            }
            i = i + 1;
        }
        proof {
            assert(self.rides@.take(self.rides@.len() as int) =~= self.rides@);
        }
        n
    }

    /// Builds the schedule: turn after turn, the vehicle that has used the
    /// least time takes the best of the rides that it can take, until no
    /// ride is open or no vehicle is left that can take one. Returns the
    /// list of each vehicle, by its id.
    pub fn solve(&mut self) -> (assignment: Vec<Vec<usize>>)
        requires
            old(self).wf(),
        ensures
            final(self).wf(),
            final(self).problem() == old(self).problem(),
            plan_of(&assignment) == run(
                old(self).problem(),
                kickoff(old(self).problem(), old(self).queue(), old(self).rides()),
            ).plan,
            final(self).queue() == run(
                old(self).problem(),
                kickoff(old(self).problem(), old(self).queue(), old(self).rides()),
            ).queue,
            final(self).rides() == run(
                old(self).problem(),
                kickoff(old(self).problem(), old(self).queue(), old(self).rides()),
            ).rides,
    {
        let ghost problem = self.problem;
        let ghost start = kickoff(self.problem, self.vehicles@, self.rides@);
        let mut assignment: Vec<Vec<usize>> = Vec::new();
        let mut v: usize = 0;
        while v < self.problem.n_vehicles
            invariant
                v <= self.problem.n_vehicles,
                assignment@.len() == v,
                forall|i: int| 0 <= i < v ==> (#[trigger] assignment@[i])@ == Seq::<usize>::empty(),
            decreases self.problem.n_vehicles - v,
        {
            assignment.push(Vec::new());
            v = v + 1;
        }
        assert(plan_of(&assignment) =~= start.plan);
        let mut remaining: usize = self.count_open();
        while remaining > 0 && self.vehicles.len() > 0
            invariant
                problem == self.problem,
                numbered(self.rides@),
                enlisted(problem, self.vehicles@),
                assignment@.len() == problem.n_vehicles,
                remaining == open_rides(self.rides@),
                run(
                    problem,
                    Dispatch {
                        queue: self.vehicles@,
                        rides: self.rides@,
                        plan: plan_of(&assignment),
                    },
                ) == run(problem, start),
            decreases remaining + self.vehicles.len(),
        {
            let ghost now = Dispatch {
                queue: self.vehicles@,
                rides: self.rides@,
                plan: plan_of(&assignment),
            };
            let m: usize = self.next_vehicle();
            proof {
                lemma_next_is_unique(self.vehicles@, m as int);
            }
            let vehicle: Vehicle = self.vehicles.remove(m);
            match self.best_ride_for_vehicle(&vehicle) {
                Some(ride_id) => {
                    let ghost r = best_ride(problem, vehicle, self.rides@).unwrap();
                    assert(is_best(problem, vehicle, self.rides@, r));
                    assert(r == ride_id);
                    let ride: Ride = self.rides[ride_id];
                    let (_, _, _, total) = travel_time(&vehicle, &ride);
                    proof {
                        lemma_serving_closes_one(self.rides@, r);
                    }
                    put_on_list(&mut assignment, vehicle.id, ride_id);
                    self.rides.set(
                        ride_id,
                        Ride {
                            id: ride.id,
                            start: ride.start,
                            finish: ride.finish,
                            earliest: ride.earliest,
                            latest: ride.latest,
                            done: true,
                        },
                    );
                    self.vehicles.push(
                        Vehicle { id: vehicle.id, pos: ride.finish, time: vehicle.time + total },
                    );
                    remaining = remaining - 1;
                },
                None => {},
            }
            assert(Dispatch {
                queue: self.vehicles@,
                rides: self.rides@,
                plan: plan_of(&assignment),
            } == turn(problem, now));
        }
        assignment
    }
}

/// Puts the ride at the end of the list of the vehicle.
fn put_on_list(assignment: &mut Vec<Vec<usize>>, vehicle_id: usize, ride_id: usize)
    requires
        vehicle_id < old(assignment)@.len(),
    ensures
        final(assignment)@.len() == old(assignment)@.len(),
        plan_of(final(assignment)) == plan_of(old(assignment)).update(
            vehicle_id as int,
            plan_of(old(assignment))[vehicle_id as int].push(ride_id),
        ),
{
    assignment[vehicle_id].push(ride_id);
    assert(plan_of(assignment) =~= plan_of(old(assignment)).update(
        vehicle_id as int,
        plan_of(old(assignment))[vehicle_id as int].push(ride_id),
    ));
}

} // verus!
