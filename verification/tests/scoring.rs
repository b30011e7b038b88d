use ride_scheduler::model::{gets_bonus, travel_time, Pos, Problem, Ride, Vehicle};
use ride_scheduler::replay::Violation;
use ride_scheduler::simulation::Simulation;

fn problem(n_vehicles: usize, n_rides: usize, bonus: usize, sim_steps: usize) -> Problem {
    Problem { rows: 10, cols: 10, n_vehicles, n_rides, bonus, sim_steps }
}

fn ride(id: usize, start: Pos, finish: Pos, earliest: usize, latest: usize) -> Ride {
    Ride { id, start, finish, earliest, latest, done: false }
}

fn fleet(n: usize) -> Vec<Vehicle> {
    (0..n).map(|id| Vehicle { id, pos: Pos(0, 0), time: 0 }).collect()
}

fn three_rides() -> Vec<Ride> {
    vec![
        ride(0, Pos(0, 0), Pos(1, 3), 2, 9),
        ride(1, Pos(1, 2), Pos(1, 0), 0, 9),
        ride(2, Pos(2, 0), Pos(2, 2), 0, 9),
    ]
}

#[test]
fn single_ride_earns_length_and_bonus() {
    let vehicle = Vehicle { id: 0, pos: Pos(0, 0), time: 0 };
    let r = ride(0, Pos(0, 0), Pos(0, 5), 0, 10);
    assert_eq!(travel_time(&vehicle, &r), (0, 0, 5, 5));
    assert!(gets_bonus(&vehicle, &r));
    let sim = Simulation::new(problem(1, 1, 5, 100), vec![vehicle], vec![r]);
    let (score, errors) = sim.score(vec![vec![0]]);
    assert_eq!(score, 10);
    assert!(errors.is_empty());
}

#[test]
fn completion_at_the_deadline_is_a_violation() {
    let vehicle = Vehicle { id: 0, pos: Pos(0, 0), time: 0 };
    let r = ride(0, Pos(0, 0), Pos(0, 5), 0, 5);
    let sim = Simulation::new(problem(1, 1, 5, 100), vec![vehicle], vec![r]);
    let (score, errors) = sim.score(vec![vec![0]]);
    assert_eq!(score, 0);
    assert_eq!(errors.len(), 1);
    assert_eq!(
        errors[0],
        format!(
            "Ride {} not finished by {} before ride deadline: {:?}, {:?}, {}",
            0, 0, r, vehicle, 5
        )
    );
    assert_eq!(
        errors[0],
        "Ride 0 not finished by 0 before ride deadline: Ride { id: 0, start: Pos(0, 0), \
         finish: Pos(0, 5), earliest: 0, latest: 5, done: false }, Vehicle { id: 0, \
         pos: Pos(0, 0), time: 0 }, 5"
    );
}

#[test]
fn completion_one_step_before_the_deadline_is_valid() {
    let r = ride(0, Pos(0, 0), Pos(0, 5), 0, 6);
    let sim = Simulation::new(problem(1, 1, 5, 100), fleet(1), vec![r]);
    assert_eq!(sim.score(vec![vec![0]]), (10, vec![]));
}

#[test]
fn completion_at_the_horizon_is_valid_and_one_step_later_is_not() {
    let r = ride(0, Pos(0, 0), Pos(0, 5), 0, 50);
    let sim = Simulation::new(problem(1, 1, 5, 5), fleet(1), vec![r]);
    assert_eq!(sim.score(vec![vec![0]]), (10, vec![]));
    let sim = Simulation::new(problem(1, 1, 5, 4), fleet(1), vec![r]);
    assert_eq!(
        sim.score(vec![vec![0]]),
        (0, vec![String::from("Ride 0 not finished by 0 before end of simulation.")])
    );
}

#[test]
fn ride_served_twice_is_reported_and_stops_the_vehicle() {
    let sim = Simulation::new(problem(2, 3, 2, 100), fleet(2), three_rides());
    let (score, errors) = sim.score(vec![vec![0], vec![2, 0, 1]]);
    // vehicle 0: waits 2, length 4, bonus; vehicle 1: length 2, then stops
    assert_eq!(score, 4 + 2 + 2);
    assert_eq!(errors, vec![String::from("Ride 0 assigned to 1 already done.")]);
}

#[test]
fn ride_listed_twice_by_one_vehicle_is_reported() {
    let sim = Simulation::new(problem(1, 3, 2, 100), fleet(1), three_rides());
    let (score, errors) = sim.score(vec![vec![2, 2, 0]]);
    assert_eq!(score, 2);
    assert_eq!(errors, vec![String::from("Ride 2 assigned to 0 already done.")]);
}

#[test]
fn reuse_is_reported_before_the_horizon_and_the_deadline() {
    let mut rides = three_rides();
    rides[0].done = true;
    rides[0].latest = 1;
    let sim = Simulation::new(problem(1, 3, 2, 1), fleet(1), rides);
    let (score, violations) = sim.audit(&vec![vec![0]]);
    assert_eq!(score, 0);
    assert_eq!(violations, vec![Violation::Reused { ride_id: 0, vehicle_id: 0 }]);
}

#[test]
fn horizon_is_reported_before_the_deadline() {
    let r = ride(0, Pos(0, 0), Pos(0, 5), 0, 3);
    let sim = Simulation::new(problem(1, 1, 2, 4), fleet(1), vec![r]);
    let (score, violations) = sim.audit(&vec![vec![0]]);
    assert_eq!(score, 0);
    assert_eq!(violations, vec![Violation::Horizon { ride_id: 0, vehicle_id: 0 }]);
}

#[test]
fn violation_of_one_vehicle_leaves_the_others_alone() {
    let mut rides = three_rides();
    rides[1].latest = 3;
    let sim = Simulation::new(problem(3, 3, 2, 100), fleet(3), rides.clone());
    let (score, violations) = sim.audit(&vec![vec![0], vec![1, 2], vec![2]]);
    // vehicle 0: 4 + 2; vehicle 1 stops at ride 1; vehicle 2: two steps late, length 2
    assert_eq!(score, 6 + 2);
    assert_eq!(
        violations,
        vec![Violation::Deadline {
            ride_id: 1,
            vehicle_id: 1,
            ride: rides[1],
            vehicle: Vehicle { id: 1, pos: Pos(0, 0), time: 0 },
            total: 5,
        }]
    );
}

#[test]
fn trip_beyond_the_machine_is_past_the_horizon() {
    let r = ride(0, Pos(usize::MAX, usize::MAX), Pos(0, 0), 0, usize::MAX);
    let sim = Simulation::new(problem(1, 1, 2, usize::MAX), fleet(1), vec![r]);
    let (score, violations) = sim.audit(&vec![vec![0]]);
    assert_eq!(score, 0);
    assert_eq!(violations, vec![Violation::Horizon { ride_id: 0, vehicle_id: 0 }]);
}

#[test]
fn empty_plan_scores_nothing() {
    let sim = Simulation::new(problem(2, 3, 2, 100), fleet(2), three_rides());
    assert_eq!(sim.score(vec![]), (0, vec![]));
    let sim = Simulation::new(problem(2, 3, 2, 100), fleet(2), three_rides());
    assert_eq!(sim.score(vec![vec![], vec![]]), (0, vec![]));
    let sim = Simulation::new(problem(0, 0, 2, 100), vec![], vec![]);
    assert_eq!(sim.score(vec![vec![], vec![], vec![]]), (0, vec![]));
}

#[test]
fn scoring_twice_gives_the_same() {
    let plan = vec![vec![0, 1], vec![1, 2, 2]];
    let first = Simulation::new(problem(2, 3, 2, 100), fleet(2), three_rides()).score(plan.clone());
    let second = Simulation::new(problem(2, 3, 2, 100), fleet(2), three_rides()).score(plan);
    assert_eq!(first, second);
    assert_eq!(first.0, 6 + 2 + 2);
    assert_eq!(first.1.len(), 2);
}

#[test]
fn score_never_falls_as_a_list_grows() {
    let full = vec![2, 1, 0];
    let mut last = 0;
    for k in 0..=full.len() {
        let sim = Simulation::new(problem(1, 3, 2, 100), fleet(1), three_rides());
        let (score, _) = sim.score(vec![full[..k].to_vec()]);
        assert!(score >= last);
        last = score;
    }
    // ride 2: 2 steps there, length 2; ride 1: 3 steps there, length 2; ride 0: late
    assert_eq!(last, 4);
}

#[test]
fn clean_pass_serves_each_ride_once() {
    let plan = vec![vec![0], vec![2, 1]];
    let sim = Simulation::new(problem(2, 3, 2, 100), fleet(2), three_rides());
    let (_, errors) = sim.score(plan.clone());
    assert!(errors.is_empty());
    let mut seen: Vec<usize> = plan.into_iter().flatten().collect();
    seen.sort();
    seen.dedup();
    assert_eq!(seen.len(), 3);
}

#[test]
fn plan_is_accepted_where_it_names_vehicles_and_rides() {
    let sim = Simulation::new(problem(2, 3, 2, 100), fleet(2), three_rides());
    assert!(sim.accepts(&vec![vec![0, 2], vec![1]]));
    assert!(sim.accepts(&vec![vec![0, 0], vec![], vec![]]));
    assert!(!sim.accepts(&vec![vec![0], vec![3]]));
    assert!(!sim.accepts(&vec![vec![0], vec![], vec![1]]));
}

#[test]
fn try_score_refuses_what_score_does_not_take() {
    let sim = Simulation::new(problem(2, 3, 2, 100), fleet(2), three_rides());
    assert_eq!(sim.try_score(&vec![vec![0], vec![3]]), None);
    let sim = Simulation::new(problem(2, 3, 2, 100), fleet(2), three_rides());
    assert_eq!(sim.try_score(&vec![vec![0], vec![], vec![1]]), None);
    let sim = Simulation::new(problem(2, 3, 2, 100), fleet(2), three_rides());
    assert_eq!(sim.try_score(&vec![vec![0], vec![2, 1]]), Some((6 + 2 + 2, vec![])));
}

#[test]
fn try_score_refuses_a_score_beyond_the_machine() {
    let rides = vec![
        ride(0, Pos(0, 0), Pos(0, 1), 0, 100),
        ride(1, Pos(0, 1), Pos(0, 2), 0, 100),
    ];
    let sim = Simulation::new(problem(1, 2, usize::MAX - 1, 100), fleet(1), rides.clone());
    assert_eq!(sim.try_score(&vec![vec![0]]), Some((usize::MAX, vec![])));
    let sim = Simulation::new(problem(1, 2, usize::MAX - 1, 100), fleet(1), rides.clone());
    assert_eq!(sim.try_score(&vec![vec![0, 1]]), None);
    let sim = Simulation::new(problem(1, 2, usize::MAX, 100), fleet(1), rides);
    assert_eq!(sim.try_score(&vec![vec![0]]), None);
}

#[test]
fn longer_last_list_keeps_the_reports_and_adds_one_at_most() {
    let first = vec![0];
    let last = vec![2, 1, 1, 0];
    let mut before: (usize, Vec<String>) = (0, vec![]);
    for k in 0..=last.len() {
        let sim = Simulation::new(problem(2, 3, 2, 100), fleet(2), three_rides());
        let after = sim.score(vec![first.clone(), last[..k].to_vec()]);
        if k > 0 {
            assert!(after.0 >= before.0);
            assert!(after.1.len() <= before.1.len() + 1);
            assert_eq!(after.1[..before.1.len()], before.1[..]);
        }
        before = after;
    }
    assert_eq!(before, (6 + 2 + 2, vec![String::from("Ride 1 assigned to 1 already done.")]));
}
