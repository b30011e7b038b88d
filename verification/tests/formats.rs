use ride_scheduler::format::{parse_assignment, parse_instance, read_line};
use ride_scheduler::model::{Pos, Ride, Vehicle};
use ride_scheduler::planner::solve_and_score;
use ride_scheduler::simulation::Simulation;

const EXAMPLE: &str = "3 4 2 3 2 10\n0 0 1 3 2 9\n1 2 1 0 0 9\n2 0 2 2 0 9\n";

fn same_as_std(line: &str) -> Option<Vec<usize>> {
    line.trim().split(' ').map(|v| v.parse().ok()).collect()
}

#[test]
fn line_of_numbers_is_read() {
    assert_eq!(read_line(b"1 2 3"), Some(vec![1, 2, 3]));
    assert_eq!(read_line(b"0"), Some(vec![0]));
    assert_eq!(read_line(b"007 +5 10"), Some(vec![7, 5, 10]));
    assert_eq!(read_line(b"3 4 2 3 2 10"), Some(vec![3, 4, 2, 3, 2, 10]));
}

#[test]
fn blanks_at_both_ends_of_a_line_are_passed_over() {
    assert_eq!(read_line(b"  7 8\r"), Some(vec![7, 8]));
    assert_eq!(read_line(b"\t 12 \x0b\x0c\r\n"), Some(vec![12]));
}

#[test]
fn line_with_a_field_that_is_no_number_is_refused() {
    assert_eq!(read_line(b""), None);
    assert_eq!(read_line(b"   "), None);
    assert_eq!(read_line(b"1  2"), None);
    assert_eq!(read_line(b"1\t2"), None);
    assert_eq!(read_line(b"-1"), None);
    assert_eq!(read_line(b"+"), None);
    assert_eq!(read_line(b"++1"), None);
    assert_eq!(read_line(b"1+"), None);
    assert_eq!(read_line(b"12a"), None);
    assert_eq!(read_line(b"1 x 3"), None);
    assert_eq!(read_line(b"1.5"), None);
}

#[test]
fn number_beyond_the_machine_is_refused() {
    let max = format!("{}", usize::MAX);
    assert_eq!(read_line(max.as_bytes()), Some(vec![usize::MAX]));
    let padded = format!("1 000{} 2", usize::MAX);
    assert_eq!(read_line(padded.as_bytes()), Some(vec![1, usize::MAX, 2]));
    let mut digits = max.into_bytes();
    let last = digits.len() - 1;
    digits[last] += 1;
    assert_eq!(read_line(&digits), None);
    let longer = format!("{}0", usize::MAX);
    assert_eq!(read_line(longer.as_bytes()), None);
}

#[test]
fn lines_are_read_as_the_standard_library_reads_them() {
    for line in [
        "1 2 3", " 4 5 ", "6", "", " ", "7  8", "+9", "-9", "9+", "a", "10 b", "\r11 12\r",
        "0 0 0", "00", "18446744073709551615", "18446744073709551616", "99999999999999999999999",
    ] {
        assert_eq!(read_line(line.as_bytes()), same_as_std(line), "{:?}", line);
    }
}

#[test]
fn instance_is_read() {
    let (problem, vehicles, rides) = parse_instance(EXAMPLE.as_bytes()).unwrap();
    assert_eq!(
        (problem.rows, problem.cols, problem.n_vehicles, problem.n_rides),
        (3, 4, 2, 3)
    );
    assert_eq!((problem.bonus, problem.sim_steps), (2, 10));
    assert_eq!(
        vehicles,
        vec![
            Vehicle { id: 0, pos: Pos(0, 0), time: 0 },
            Vehicle { id: 1, pos: Pos(0, 0), time: 0 },
        ]
    );
    assert_eq!(
        rides,
        vec![
            Ride { id: 0, start: Pos(0, 0), finish: Pos(1, 3), earliest: 2, latest: 9, done: false },
            Ride { id: 1, start: Pos(1, 2), finish: Pos(1, 0), earliest: 0, latest: 9, done: false },
            Ride { id: 2, start: Pos(2, 0), finish: Pos(2, 2), earliest: 0, latest: 9, done: false },
        ]
    );
}

#[test]
fn instance_may_end_without_a_line_feed_and_use_carriage_returns() {
    let text = "1 1 3 9 0 5\r\n0 0 0 1 0 4 77\r\n0 1 0 0 1 5";
    let (problem, vehicles, rides) = parse_instance(text.as_bytes()).unwrap();
    assert_eq!(problem.n_vehicles, 3);
    assert_eq!(problem.n_rides, 9);
    assert_eq!(vehicles.len(), 3);
    assert_eq!(vehicles[2], Vehicle { id: 2, pos: Pos(0, 0), time: 0 });
    assert_eq!(rides.len(), 2);
    assert_eq!(
        rides[1],
        Ride { id: 1, start: Pos(0, 1), finish: Pos(0, 0), earliest: 1, latest: 5, done: false }
    );
}

#[test]
fn header_alone_is_an_instance_without_rides() {
    let (problem, vehicles, rides) = parse_instance(b"5 5 1 0 3 20\n").unwrap();
    assert_eq!(problem.sim_steps, 20);
    assert_eq!(vehicles.len(), 1);
    assert!(rides.is_empty());
}

#[test]
fn text_that_states_no_instance_is_refused() {
    assert!(parse_instance(b"").is_none());
    assert!(parse_instance(b"\n").is_none());
    assert!(parse_instance(b"3 4 2 3 2\n").is_none());
    assert!(parse_instance(b"3 4 2 3 2 10\n0 0 1 3 2\n").is_none());
    assert!(parse_instance(b"3 4 2 3 2 10\n\n0 0 1 3 2 9\n").is_none());
    assert!(parse_instance(b"3 4 2 3 2 10\n0 0 1 3 2 9\n\n").is_none());
    assert!(parse_instance(b"3 4 2 3 2 10\n0 0 1 x 2 9\n").is_none());
    assert!(parse_instance(b"\n3 4 2 3 2 10\n").is_none());
}

#[test]
fn plan_is_read() {
    assert_eq!(parse_assignment(b"1 0\n2 2 1\n"), Some(vec![vec![0], vec![2, 1]]));
    assert_eq!(parse_assignment(b"1 0\r\n2 2 1"), Some(vec![vec![0], vec![2, 1]]));
    assert_eq!(parse_assignment(b""), Some(vec![]));
    assert_eq!(parse_assignment(b"3 10 20 30"), Some(vec![vec![10, 20, 30]]));
}

#[test]
fn line_that_announces_no_ride_adds_an_empty_list() {
    assert_eq!(parse_assignment(b"1 0\n0\n2 2 1"), Some(vec![vec![0], vec![], vec![2, 1]]));
    assert_eq!(parse_assignment(b"0\n2 2 1\n0\n"), Some(vec![vec![], vec![2, 1], vec![]]));
    assert_eq!(parse_assignment(b"0 5 6\n"), Some(vec![vec![]]));
    assert_eq!(parse_assignment(b"0\n0\n"), Some(vec![vec![], vec![]]));
}

#[test]
fn list_of_a_vehicle_stands_at_the_place_of_its_line() {
    let (problem, _, rides) = parse_instance(EXAMPLE.as_bytes()).unwrap();
    // the two vehicles start apart, so it matters which of them serves
    let vehicles = vec![
        Vehicle { id: 0, pos: Pos(0, 0), time: 0 },
        Vehicle { id: 1, pos: Pos(2, 0), time: 0 },
    ];
    let assignment = parse_assignment(b"0\n1 2\n").unwrap();
    assert_eq!(assignment, vec![vec![], vec![2]]);
    let simulation = Simulation::new(problem, vehicles, rides);
    // vehicle 1 stands at the start of ride 2 when its window opens
    assert_eq!(simulation.score(assignment), (2 + 2, vec![]));
}

#[test]
fn numbers_behind_the_announced_rides_are_passed_over() {
    assert_eq!(parse_assignment(b"1 4 5 6\n"), Some(vec![vec![4]]));
}

#[test]
fn text_that_states_no_plan_is_refused() {
    assert_eq!(parse_assignment(b"2 1\n"), None);
    assert_eq!(parse_assignment(b"1\n"), None);
    assert_eq!(parse_assignment(b"1 0\n\n1 1\n"), None);
    assert_eq!(parse_assignment(b"1 0\n1 a\n"), None);
    assert_eq!(parse_assignment(b"1 0\n2 1\n1 2\n"), None);
    let huge = format!("{} 1 2\n", usize::MAX);
    assert_eq!(parse_assignment(huge.as_bytes()), None);
}

#[test]
fn plan_read_from_text_scores_on_the_instance_read_from_text() {
    let (problem, vehicles, rides) = parse_instance(EXAMPLE.as_bytes()).unwrap();
    let assignment = parse_assignment(b"1 0\n2 2 1\n").unwrap();
    let simulation = Simulation::new(problem, vehicles, rides);
    assert_eq!(simulation.score(assignment), (10, vec![]));
}

#[test]
fn instance_is_scheduled_and_scored() {
    let (problem, vehicles, rides) = parse_instance(EXAMPLE.as_bytes()).unwrap();
    assert_eq!(
        solve_and_score(problem, vehicles, rides),
        Some((vec![vec![0], vec![2, 1]], 10))
    );
}

#[test]
fn fleet_or_rides_out_of_order_are_not_scheduled() {
    let (problem, vehicles, rides) = parse_instance(EXAMPLE.as_bytes()).unwrap();
    let mut swapped = rides.clone();
    swapped.swap(0, 1);
    assert_eq!(solve_and_score(problem, vehicles.clone(), swapped), None);
    let mut short = vehicles.clone();
    short.pop();
    assert_eq!(solve_and_score(problem, short, rides.clone()), None);
    let mut renamed = vehicles;
    renamed[1].id = 0;
    assert_eq!(solve_and_score(problem, renamed, rides), None);
}
