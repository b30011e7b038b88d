//! Records of a problem instance and the timing rules shared by the
//! scheduler and the replay.

use vstd::prelude::*;

verus! {

/// A grid cell, as (row, column).
#[derive(PartialEq, Eq, Structural, Debug, Clone, Copy)]
pub struct Pos(pub usize, pub usize);

/// A transport request: go from `start` to `finish`, picked up no earlier
/// than `earliest` and completed strictly before `latest`.
#[derive(PartialEq, Eq, Structural, Debug, Clone, Copy)]
pub struct Ride {
    pub id: usize,
    pub start: Pos,
    pub finish: Pos,
    pub earliest: usize,
    pub latest: usize,
    pub done: bool,
}

/// A vehicle: where it stands and how much time it has used up.
#[derive(PartialEq, Eq, Structural, Debug, Clone, Copy)]
pub struct Vehicle {
    pub id: usize,
    pub pos: Pos,
    pub time: usize,
}

/// The fixed parameters of an instance.
#[derive(Debug, Clone, Copy)]
pub struct Problem {
    pub rows: usize,
    pub cols: usize,
    pub n_vehicles: usize,
    pub n_rides: usize,
    pub bonus: usize,
    pub sim_steps: usize,
}

/// `|a - b|`.
pub open spec fn gap(a: usize, b: usize) -> nat {
    if a >= b {
        (a - b) as nat
    } else {
        (b - a) as nat
    }
}

/// Manhattan distance between two cells.
pub open spec fn manhattan(a: Pos, b: Pos) -> nat {
    gap(a.0, b.0) + gap(a.1, b.1)
}

/// Steps the vehicle needs to reach the start of the ride.
pub open spec fn approach(vehicle: Vehicle, ride: Ride) -> nat {
    manhattan(vehicle.pos, ride.start)
}

/// The time at which the vehicle stands at the start of the ride.
pub open spec fn arrival(vehicle: Vehicle, ride: Ride) -> nat {
    vehicle.time as nat + approach(vehicle, ride)
}

/// Steps the vehicle idles at the start until the pickup window opens.
pub open spec fn waiting(vehicle: Vehicle, ride: Ride) -> nat {
    if ride.earliest > arrival(vehicle, ride) {
        (ride.earliest - arrival(vehicle, ride)) as nat
    } else {
        0
    }
}

/// Steps from the start of the ride to its finish.
pub open spec fn ride_length(ride: Ride) -> nat {
    manhattan(ride.start, ride.finish)
}

/// Steps the vehicle is busy if it takes the ride now.
pub open spec fn trip_total(vehicle: Vehicle, ride: Ride) -> nat {
    approach(vehicle, ride) + waiting(vehicle, ride) + ride_length(ride)
}

/// The time at which the vehicle would set the passenger down.
pub open spec fn completion(vehicle: Vehicle, ride: Ride) -> nat {
    vehicle.time as nat + trip_total(vehicle, ride)
}

/// The vehicle reaches the start no later than the window opens.
pub open spec fn on_time(vehicle: Vehicle, ride: Ride) -> bool {
    arrival(vehicle, ride) <= ride.earliest
}

fn span(a: usize, b: usize) -> (d: usize)
    ensures
        d == gap(a, b),
{
    if a >= b {
        a - b
    } else {
        b - a
    }
}

/// Manhattan distance, or `None` where it exceeds `usize::MAX`.
pub fn checked_distance(x: &Pos, y: &Pos) -> (d: Option<usize>)
    ensures
        d == if manhattan(*x, *y) <= usize::MAX {
            Some(manhattan(*x, *y) as usize)
        } else {
            None
        },
{
    span(x.0, y.0).checked_add(span(x.1, y.1))
}

/// Manhattan distance between two cells.
pub fn distance(x: &Pos, y: &Pos) -> (d: usize)
    requires
        manhattan(*x, *y) <= usize::MAX,
    ensures
        d == manhattan(*x, *y),
{
    span(x.0, y.0) + span(x.1, y.1)
}

/// `(to_start, waiting, ride_distance, total)` for the vehicle taking the
/// ride now, or `None` where the total exceeds `usize::MAX`.
pub fn checked_travel_time(vehicle: &Vehicle, ride: &Ride) -> (plan: Option<
    (usize, usize, usize, usize),
>)
    ensures
        plan == if trip_total(*vehicle, *ride) <= usize::MAX {
            Some(
                (
                    approach(*vehicle, *ride) as usize,
                    waiting(*vehicle, *ride) as usize,
                    ride_length(*ride) as usize,
                    trip_total(*vehicle, *ride) as usize,
                ),
            )
        } else {
            None
        },
{
    let to_start: usize = match checked_distance(&vehicle.pos, &ride.start) {
        Some(d) => d,
        None => {
            return None;
        },
    };
    let ride_distance: usize = match checked_distance(&ride.start, &ride.finish) {
        Some(d) => d,
        None => {
            return None;
        },
    };
    let waiting: usize = if ride.earliest >= vehicle.time && ride.earliest - vehicle.time
        > to_start {
        ride.earliest - vehicle.time - to_start
    } else {
        0
    };
    let busy: usize = match to_start.checked_add(waiting) {
        Some(t) => t,
        None => {
            return None;
        },
    };
    match busy.checked_add(ride_distance) {
        Some(total) => Some((to_start, waiting, ride_distance, total)),
        None => None,
    }
}

/// `(to_start, waiting, ride_distance, total)` for the vehicle taking the
/// ride now.
pub fn travel_time(vehicle: &Vehicle, ride: &Ride) -> (plan: (usize, usize, usize, usize))
    requires
        trip_total(*vehicle, *ride) <= usize::MAX,
    ensures
        plan.0 == approach(*vehicle, *ride),
        plan.1 == waiting(*vehicle, *ride),
        plan.2 == ride_length(*ride),
        plan.3 == trip_total(*vehicle, *ride),
{
    let to_start: usize = distance(&vehicle.pos, &ride.start);
    let ride_distance: usize = distance(&ride.start, &ride.finish);
    let waiting: usize = if ride.earliest >= vehicle.time && ride.earliest - vehicle.time
        > to_start {
        ride.earliest - vehicle.time - to_start
    } else {
        0
    };
    (to_start, waiting, ride_distance, to_start + waiting + ride_distance)
}

/// Whether the vehicle would reach the start of the ride at or before the
/// opening of its window, and so earn the bonus.
pub fn gets_bonus(vehicle: &Vehicle, ride: &Ride) -> (b: bool)
    ensures
        b == on_time(*vehicle, *ride),
{
    if vehicle.time > ride.earliest {
        return false;
    }
    let slack: usize = ride.earliest - vehicle.time;
    match checked_distance(&vehicle.pos, &ride.start) {
        Some(to_start) => to_start <= slack,
        None => false,
    }
}

/// The bonus is earned up to the opening of the window and no later: a
/// vehicle that stands at the start exactly when the window opens is on
/// time, and one that stands there one step later is not.
pub proof fn lemma_bonus_boundary(vehicle: Vehicle, ride: Ride)
    ensures
        arrival(vehicle, ride) == ride.earliest ==> on_time(vehicle, ride),
        arrival(vehicle, ride) == ride.earliest + 1 ==> !on_time(vehicle, ride),
        on_time(vehicle, ride) <==> ride.earliest - arrival(vehicle, ride) >= 0,
        on_time(vehicle, ride) ==> arrival(vehicle, ride) + waiting(vehicle, ride)
            == ride.earliest,
        !on_time(vehicle, ride) ==> waiting(vehicle, ride) == 0,
{
}

} // verus!
