use ride_scheduler::model::{
    checked_distance, checked_travel_time, distance, gets_bonus, travel_time, Pos, Ride, Vehicle,
};

fn ride(start: Pos, finish: Pos, earliest: usize, latest: usize) -> Ride {
    Ride { id: 0, start, finish, earliest, latest, done: false }
}

#[test]
fn distance_is_manhattan() {
    assert_eq!(distance(&Pos(0, 0), &Pos(0, 0)), 0);
    assert_eq!(distance(&Pos(1, 2), &Pos(4, 0)), 5);
    assert_eq!(distance(&Pos(4, 0), &Pos(1, 2)), 5);
    assert_eq!(checked_distance(&Pos(3, 3), &Pos(1, 7)), Some(6));
}

#[test]
fn distance_beyond_the_machine_is_none() {
    assert_eq!(checked_distance(&Pos(0, 0), &Pos(usize::MAX, 1)), None);
    assert_eq!(checked_distance(&Pos(0, 0), &Pos(usize::MAX, 0)), Some(usize::MAX));
}

#[test]
fn early_vehicle_waits_for_the_window() {
    let vehicle = Vehicle { id: 0, pos: Pos(0, 0), time: 0 };
    let r = ride(Pos(1, 2), Pos(3, 2), 10, 100);
    assert_eq!(travel_time(&vehicle, &r), (3, 7, 2, 12));
    assert_eq!(checked_travel_time(&vehicle, &r), Some((3, 7, 2, 12)));
}

#[test]
fn late_vehicle_does_not_wait() {
    let vehicle = Vehicle { id: 0, pos: Pos(5, 5), time: 20 };
    let r = ride(Pos(1, 2), Pos(3, 2), 10, 100);
    assert_eq!(travel_time(&vehicle, &r), (7, 0, 2, 9));
    assert!(!gets_bonus(&vehicle, &r));
}

#[test]
fn vehicle_later_than_the_window_with_time_alone() {
    let vehicle = Vehicle { id: 0, pos: Pos(1, 2), time: 11 };
    let r = ride(Pos(1, 2), Pos(1, 2), 10, 100);
    assert_eq!(travel_time(&vehicle, &r), (0, 0, 0, 0));
    assert!(!gets_bonus(&vehicle, &r));
}

#[test]
fn bonus_at_the_opening_of_the_window_and_not_one_step_later() {
    let vehicle = Vehicle { id: 0, pos: Pos(0, 0), time: 4 };
    let at_opening = ride(Pos(0, 3), Pos(0, 9), 7, 100);
    let one_late = ride(Pos(0, 3), Pos(0, 9), 6, 100);
    let early = ride(Pos(0, 3), Pos(0, 9), 8, 100);
    assert!(gets_bonus(&vehicle, &at_opening));
    assert!(!gets_bonus(&vehicle, &one_late));
    assert!(gets_bonus(&vehicle, &early));
    assert_eq!(travel_time(&vehicle, &at_opening), (3, 0, 6, 9));
    assert_eq!(travel_time(&vehicle, &one_late), (3, 0, 6, 9));
    assert_eq!(travel_time(&vehicle, &early), (3, 1, 6, 10));
}

#[test]
fn trip_beyond_the_machine_is_none() {
    let vehicle = Vehicle { id: 0, pos: Pos(0, 0), time: 0 };
    let far = ride(Pos(usize::MAX, 0), Pos(0, 0), 0, 100);
    assert_eq!(checked_travel_time(&vehicle, &far), None);
    assert!(!gets_bonus(&vehicle, &far));
    let wide = ride(Pos(usize::MAX, usize::MAX), Pos(0, 0), usize::MAX, 100);
    assert_eq!(checked_travel_time(&vehicle, &wide), None);
    assert!(!gets_bonus(&vehicle, &wide));
}

#[test]
fn bonus_does_not_need_the_whole_trip_to_fit() {
    let vehicle = Vehicle { id: 0, pos: Pos(0, 0), time: 0 };
    let r = ride(Pos(1, 0), Pos(usize::MAX, 1), 1, 100);
    assert_eq!(checked_travel_time(&vehicle, &r), None);
    assert!(gets_bonus(&vehicle, &r));
}
