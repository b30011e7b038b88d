use ride_scheduler::model::{travel_time, Pos, Problem, Ride, Vehicle};
use ride_scheduler::simulation::Simulation;
use ride_scheduler::solver::Solver;

fn problem(n_vehicles: usize, n_rides: usize, bonus: usize, sim_steps: usize) -> Problem {
    Problem { rows: 10, cols: 10, n_vehicles, n_rides, bonus, sim_steps }
}

fn ride(id: usize, start: Pos, finish: Pos, earliest: usize, latest: usize) -> Ride {
    Ride { id, start, finish, earliest, latest, done: false }
}

fn fleet(n: usize) -> Vec<Vehicle> {
    (0..n).map(|id| Vehicle { id, pos: Pos(0, 0), time: 0 }).collect()
}

#[test]
fn one_ride_goes_to_one_of_two_vehicles() {
    let rides = vec![ride(0, Pos(0, 0), Pos(0, 5), 0, 10)];
    let mut solver = Solver::new(problem(2, 1, 5, 100), fleet(2), rides);
    let assignment = solver.solve();
    assert_eq!(assignment.len(), 2);
    let holders = assignment.iter().filter(|list| **list == vec![0]).count();
    let idle = assignment.iter().filter(|list| list.is_empty()).count();
    assert_eq!((holders, idle), (1, 1));
    assert_eq!(assignment, vec![vec![0], vec![]]);
}

#[test]
fn vehicle_takes_the_ride_that_pays_best_for_each_step() {
    let rides = vec![
        ride(0, Pos(0, 0), Pos(0, 10), 0, 100),
        ride(1, Pos(0, 0), Pos(0, 1), 0, 100),
    ];
    let solver = Solver::new(problem(1, 2, 2, 100), fleet(1), rides.clone());
    // ride 0 pays 12 for 10 steps, ride 1 pays 3 for 1 step
    assert_eq!(solver.best_ride_for_vehicle(&Vehicle { id: 0, pos: Pos(0, 0), time: 0 }), Some(1));
    let mut solver = Solver::new(problem(1, 2, 2, 100), fleet(1), rides.clone());
    let assignment = solver.solve();
    assert_eq!(assignment, vec![vec![1, 0]]);
    let sim = Simulation::new(problem(1, 2, 2, 100), fleet(1), rides);
    assert_eq!(sim.score(assignment), (3 + 10, vec![]));
}

#[test]
fn first_of_two_rides_that_pay_alike_is_taken() {
    let rides = vec![
        ride(0, Pos(0, 1), Pos(0, 3), 0, 100),
        ride(1, Pos(1, 0), Pos(3, 0), 0, 100),
        ride(2, Pos(0, 2), Pos(0, 6), 0, 100),
    ];
    let solver = Solver::new(problem(1, 3, 0, 100), fleet(1), rides);
    // 2 for 3 steps, 2 for 3 steps, 4 for 6 steps
    assert_eq!(solver.best_ride_for_vehicle(&Vehicle { id: 0, pos: Pos(0, 0), time: 0 }), Some(0));
}

#[test]
fn later_ride_is_taken_where_it_pays_strictly_better() {
    let rides = vec![
        ride(0, Pos(0, 1), Pos(0, 3), 0, 100),
        ride(1, Pos(0, 1), Pos(0, 4), 0, 100),
    ];
    let solver = Solver::new(problem(1, 2, 0, 100), fleet(1), rides);
    // 2 for 3 steps, 3 for 4 steps
    assert_eq!(solver.best_ride_for_vehicle(&Vehicle { id: 0, pos: Pos(0, 0), time: 0 }), Some(1));
}

#[test]
fn ride_that_earns_nothing_is_still_taken() {
    // one step to a ride of no length, too late for the bonus
    let rides = vec![ride(0, Pos(0, 1), Pos(0, 1), 0, 10)];
    let solver = Solver::new(problem(1, 1, 5, 100), fleet(1), rides.clone());
    assert_eq!(solver.best_ride_for_vehicle(&Vehicle { id: 0, pos: Pos(0, 0), time: 0 }), Some(0));
    let mut solver = Solver::new(problem(1, 1, 5, 100), fleet(1), rides.clone());
    let assignment = solver.solve();
    assert_eq!(assignment, vec![vec![0]]);
    let sim = Simulation::new(problem(1, 1, 5, 100), fleet(1), rides);
    assert_eq!(sim.score(assignment), (0, vec![]));
}

#[test]
fn ride_without_gain_and_without_cost_is_still_taken() {
    let vehicle = Vehicle { id: 0, pos: Pos(2, 2), time: 3 };
    let rides = vec![ride(0, Pos(2, 2), Pos(2, 2), 0, 100)];
    let solver = Solver::new(problem(1, 1, 0, 100), vec![vehicle], rides.clone());
    assert_eq!(solver.best_ride_for_vehicle(&vehicle), Some(0));
    let mut solver = Solver::new(problem(1, 1, 0, 100), vec![vehicle], rides);
    assert_eq!(solver.solve(), vec![vec![0]]);
}

#[test]
fn ride_that_earns_something_is_above_every_ride_that_earns_nothing() {
    let vehicle = Vehicle { id: 0, pos: Pos(0, 0), time: 1 };
    let rides = vec![
        ride(0, Pos(0, 0), Pos(0, 0), 0, 100),
        ride(1, Pos(0, 1), Pos(0, 1), 0, 100),
        ride(2, Pos(9, 9), Pos(9, 8), 0, 100),
        ride(3, Pos(0, 2), Pos(0, 2), 0, 100),
    ];
    let solver = Solver::new(problem(1, 4, 0, 100), vec![vehicle], rides.clone());
    // 0 for 0 steps, 0 for 1 step, 1 for 19 steps, 0 for 2 steps
    assert_eq!(solver.best_ride_for_vehicle(&vehicle), Some(2));
    let mut solver = Solver::new(problem(1, 4, 0, 100), vec![vehicle], rides);
    // then the rides that earn nothing, the first of them first
    assert_eq!(solver.solve(), vec![vec![2, 0, 1, 3]]);
}

#[test]
fn first_of_the_rides_that_earn_nothing_is_taken() {
    let vehicle = Vehicle { id: 0, pos: Pos(0, 0), time: 1 };
    let rides = vec![
        ride(0, Pos(0, 3), Pos(0, 3), 0, 100),
        ride(1, Pos(0, 0), Pos(0, 0), 0, 100),
        ride(2, Pos(0, 1), Pos(0, 1), 0, 100),
    ];
    let solver = Solver::new(problem(1, 3, 7, 100), vec![vehicle], rides);
    assert_eq!(solver.best_ride_for_vehicle(&vehicle), Some(0));
}

#[test]
fn vehicle_is_dropped_only_where_it_can_take_no_ride() {
    let rides = vec![
        ride(0, Pos(0, 0), Pos(0, 5), 0, 5),
        ride(1, Pos(0, 0), Pos(0, 9), 0, 100),
    ];
    let solver = Solver::new(problem(1, 2, 2, 9), fleet(1), rides.clone());
    // ride 0 ends at its deadline, ride 1 at the horizon
    assert_eq!(solver.best_ride_for_vehicle(&Vehicle { id: 0, pos: Pos(0, 0), time: 0 }), None);
    let mut solver = Solver::new(problem(1, 2, 2, 9), fleet(1), rides);
    assert_eq!(solver.solve(), vec![Vec::<usize>::new()]);
}

#[test]
fn bonus_at_no_cost_is_above_every_ride_at_a_cost() {
    let rides = vec![
        ride(0, Pos(0, 0), Pos(0, 9), 0, 100),
        ride(1, Pos(0, 0), Pos(0, 0), 0, 100),
        ride(2, Pos(0, 0), Pos(0, 0), 0, 100),
    ];
    let solver = Solver::new(problem(1, 3, 1, 100), fleet(1), rides);
    assert_eq!(solver.best_ride_for_vehicle(&Vehicle { id: 0, pos: Pos(0, 0), time: 0 }), Some(1));
}

#[test]
fn ride_must_end_strictly_before_horizon_and_deadline() {
    let vehicle = Vehicle { id: 0, pos: Pos(0, 0), time: 0 };
    let at_deadline = vec![ride(0, Pos(0, 0), Pos(0, 5), 0, 5)];
    let solver = Solver::new(problem(1, 1, 2, 100), fleet(1), at_deadline);
    assert_eq!(solver.best_ride_for_vehicle(&vehicle), None);
    let before_deadline = vec![ride(0, Pos(0, 0), Pos(0, 5), 0, 6)];
    let solver = Solver::new(problem(1, 1, 2, 100), fleet(1), before_deadline.clone());
    assert_eq!(solver.best_ride_for_vehicle(&vehicle), Some(0));
    let solver = Solver::new(problem(1, 1, 2, 5), fleet(1), before_deadline.clone());
    assert_eq!(solver.best_ride_for_vehicle(&vehicle), None);
    let solver = Solver::new(problem(1, 1, 2, 6), fleet(1), before_deadline);
    assert_eq!(solver.best_ride_for_vehicle(&vehicle), Some(0));
}

#[test]
fn served_ride_is_not_offered_again() {
    let mut rides = vec![
        ride(0, Pos(0, 0), Pos(0, 5), 0, 50),
        ride(1, Pos(0, 0), Pos(0, 1), 0, 50),
    ];
    rides[1].done = true;
    let solver = Solver::new(problem(1, 2, 2, 100), fleet(1), rides);
    assert_eq!(solver.best_ride_for_vehicle(&Vehicle { id: 0, pos: Pos(0, 0), time: 0 }), Some(0));
}

#[test]
fn vehicle_without_a_ride_leaves_the_queue_for_good() {
    // vehicle 0 moves first and is too far from both rides
    let vehicles = vec![
        Vehicle { id: 0, pos: Pos(9, 9), time: 0 },
        Vehicle { id: 1, pos: Pos(0, 0), time: 1 },
    ];
    let rides = vec![
        ride(0, Pos(0, 0), Pos(0, 2), 0, 5),
        ride(1, Pos(0, 2), Pos(0, 0), 0, 7),
    ];
    let mut solver = Solver::new(problem(2, 2, 0, 8), vehicles, rides);
    assert_eq!(solver.solve(), vec![vec![], vec![0, 1]]);
}

#[test]
fn vehicle_that_has_used_the_least_time_moves_next() {
    let rides = vec![
        ride(0, Pos(0, 0), Pos(0, 8), 0, 100),
        ride(1, Pos(0, 0), Pos(0, 2), 0, 100),
        ride(2, Pos(0, 2), Pos(0, 3), 0, 100),
        ride(3, Pos(0, 3), Pos(0, 4), 0, 100),
    ];
    let mut solver = Solver::new(problem(2, 4, 0, 100), fleet(2), rides.clone());
    let assignment = solver.solve();
    // all rides pay one for each step of their length; vehicle 0 takes ride 0
    // first and is busy until 8, so vehicle 1 takes the rest
    assert_eq!(assignment, vec![vec![0], vec![1, 2, 3]]);
    let sim = Simulation::new(problem(2, 4, 0, 100), fleet(2), rides);
    assert_eq!(sim.score(assignment), (8 + 2 + 1 + 1, vec![]));
}

#[test]
fn no_vehicles_or_no_rides_give_empty_lists() {
    let mut solver = Solver::new(problem(0, 1, 2, 100), vec![], vec![ride(0, Pos(0, 0), Pos(0, 5), 0, 10)]);
    assert_eq!(solver.solve(), Vec::<Vec<usize>>::new());
    let mut solver = Solver::new(problem(3, 0, 2, 100), fleet(3), vec![]);
    assert_eq!(solver.solve(), vec![Vec::<usize>::new(); 3]);
}

#[test]
fn schedule_replays_without_a_violation() {
    let mut rides = Vec::new();
    for id in 0..40usize {
        let start = Pos((id * 7) % 10, (id * 3) % 10);
        let finish = Pos((id * 5 + 1) % 10, (id * 11 + 4) % 10);
        let earliest = (id * 13) % 60;
        rides.push(ride(id, start, finish, earliest, earliest + 5 + (id * 17) % 40));
    }
    let p = problem(4, rides.len(), 3, 90);
    let mut solver = Solver::new(p, fleet(4), rides.clone());
    let assignment = solver.solve();
    assert_eq!(assignment.len(), 4);
    let served: usize = assignment.iter().map(|list| list.len()).sum();
    assert!(served > 4);
    let sim = Simulation::new(p, fleet(4), rides);
    let (score, errors) = sim.score(assignment);
    assert!(errors.is_empty());
    assert!(score > 0);
}

fn forty_rides() -> Vec<Ride> {
    let mut rides = Vec::new();
    for id in 0..40usize {
        let start = Pos((id * 7) % 10, (id * 3) % 10);
        let finish = Pos((id * 5 + 1) % 10, (id * 11 + 4) % 10);
        let earliest = (id * 13) % 60;
        rides.push(ride(id, start, finish, earliest, earliest + 5 + (id * 17) % 40));
    }
    rides
}

#[test]
fn schedule_takes_each_ride_strictly_before_horizon_and_deadline() {
    let rides = forty_rides();
    let p = problem(4, rides.len(), 3, 90);
    let assignment = Solver::new(p, fleet(4), rides.clone()).solve();
    for (id, list) in assignment.iter().enumerate() {
        let mut vehicle = Vehicle { id, pos: Pos(0, 0), time: 0 };
        for ride_id in list {
            let total = travel_time(&vehicle, &rides[*ride_id]).3;
            assert!(vehicle.time + total < p.sim_steps);
            assert!(vehicle.time + total < rides[*ride_id].latest);
            vehicle = Vehicle { id, pos: rides[*ride_id].finish, time: vehicle.time + total };
        }
    }
}

#[test]
fn schedule_leaves_nothing_that_could_be_taken() {
    let rides = forty_rides();
    let p = problem(4, rides.len(), 3, 90);
    let assignment = Solver::new(p, fleet(4), rides.clone()).solve();
    let taken: Vec<usize> = assignment.iter().flatten().copied().collect();
    assert!(taken.len() < rides.len());
    for (id, list) in assignment.iter().enumerate() {
        let mut vehicle = Vehicle { id, pos: Pos(0, 0), time: 0 };
        for ride_id in list {
            let total = travel_time(&vehicle, &rides[*ride_id]).3;
            vehicle = Vehicle { id, pos: rides[*ride_id].finish, time: vehicle.time + total };
        }
        for open in rides.iter().filter(|r| !taken.contains(&r.id)) {
            let end = vehicle.time + travel_time(&vehicle, open).3;
            assert!(!(end < p.sim_steps && end < open.latest));
        }
    }
}
