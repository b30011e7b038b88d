use ride_scheduler::model::{Pos, Ride, Vehicle};
use ride_scheduler::replay::Violation;
use ride_scheduler::report::push_decimal;

#[test]
fn numbers_are_written_in_decimal() {
    for n in [0usize, 7, 9, 10, 11, 99, 100, 101, 12345, 9007199254740993, usize::MAX] {
        let mut out = String::from("n=");
        push_decimal(&mut out, n);
        assert_eq!(out, format!("n={}", n));
    }
}

#[test]
fn reuse_is_reported_with_ride_and_vehicle() {
    let v = Violation::Reused { ride_id: 12, vehicle_id: 305 };
    assert_eq!(v.message(), format!("Ride {} assigned to {} already done.", 12, 305));
}

#[test]
fn horizon_is_reported_with_ride_and_vehicle() {
    let v = Violation::Horizon { ride_id: 0, vehicle_id: 10 };
    assert_eq!(
        v.message(),
        format!("Ride {} not finished by {} before end of simulation.", 0, 10)
    );
}

#[test]
fn deadline_is_reported_with_both_records_and_the_total() {
    let ride = Ride {
        id: 41,
        start: Pos(10, 0),
        finish: Pos(3, 977),
        earliest: 100,
        latest: 20000,
        done: true,
    };
    let vehicle = Vehicle { id: 9, pos: Pos(1234, 5), time: 19990 };
    let v = Violation::Deadline { ride_id: 41, vehicle_id: 9, ride, vehicle, total: 2213 };
    assert_eq!(
        v.message(),
        format!(
            "Ride {} not finished by {} before ride deadline: {:?}, {:?}, {}",
            41, 9, ride, vehicle, 2213
        )
    );
}
