//! Violations as text.

use vstd::prelude::*;
use vstd::string::*;
use crate::model::{Pos, Ride, Vehicle};
use crate::replay::Violation;

verus! {

/// The character of a digit below ten.
pub open spec fn digit(d: nat) -> char {
    if d == 0 {
        '0'
    } else if d == 1 {
        '1'
    } else if d == 2 {
        '2'
    } else if d == 3 {
        '3'
    } else if d == 4 {
        '4'
    } else if d == 5 {
        '5'
    } else if d == 6 {
        '6'
    } else if d == 7 {
        '7'
    } else if d == 8 {
        '8'
    } else {
        '9'
    }
}

/// A number in decimal, without leading zeros.
pub open spec fn decimal(n: nat) -> Seq<char>
    decreases n,
{
    if n < 10 {
        seq![digit(n)]
    } else {
        decimal(n / 10).push(digit(n % 10))
    }
}

/// A cell, as `Pos(row, column)`.
pub open spec fn pos_text(p: Pos) -> Seq<char> {
    "Pos("@ + decimal(p.0 as nat) + ", "@ + decimal(p.1 as nat) + ")"@
}

/// A truth value, as `true` or `false`.
pub open spec fn flag_text(b: bool) -> Seq<char> {
    if b {
        "true"@
    } else {
        "false"@
    }
}

/// A ride with all its fields, in the order of their declaration.
pub open spec fn ride_text(r: Ride) -> Seq<char> {
    "Ride { id: "@ + decimal(r.id as nat) + ", start: "@ + pos_text(r.start) + ", finish: "@
        + pos_text(r.finish) + ", earliest: "@ + decimal(r.earliest as nat) + ", latest: "@
        + decimal(r.latest as nat) + ", done: "@ + flag_text(r.done) + " }"@
}

/// A vehicle with all its fields, in the order of their declaration.
pub open spec fn vehicle_text(v: Vehicle) -> Seq<char> {
    "Vehicle { id: "@ + decimal(v.id as nat) + ", pos: "@ + pos_text(v.pos) + ", time: "@
        + decimal(v.time as nat) + " }"@
}

/// The sentence that reports a violation.
pub open spec fn message_text(v: Violation) -> Seq<char> {
    match v {
        Violation::Reused { ride_id, vehicle_id } => "Ride "@ + decimal(ride_id as nat)
            + " assigned to "@ + decimal(vehicle_id as nat) + " already done."@,
        Violation::Horizon { ride_id, vehicle_id } => "Ride "@ + decimal(ride_id as nat)
            + " not finished by "@ + decimal(vehicle_id as nat) + " before end of simulation."@,
        Violation::Deadline { ride_id, vehicle_id, ride, vehicle, total } => "Ride "@ + decimal(
            ride_id as nat,
        ) + " not finished by "@ + decimal(vehicle_id as nat) + " before ride deadline: "@
            + ride_text(ride) + ", "@ + vehicle_text(vehicle) + ", "@ + decimal(total as nat),
    }
}

fn digit_str(d: usize) -> (s: &'static str)
    requires
        d < 10,
    ensures
        s@ == seq![digit(d as nat)],
{
    proof {
        reveal_strlit("0");
        reveal_strlit("1");
        reveal_strlit("2");
        reveal_strlit("3");
        reveal_strlit("4");
        reveal_strlit("5");
        reveal_strlit("6");
        reveal_strlit("7");
        reveal_strlit("8");
        reveal_strlit("9");
    }
    let s = if d == 0 {
        "0"
    } else if d == 1 {
        "1"
    } else if d == 2 {
        "2"
    } else if d == 3 {
        "3"
    } else if d == 4 {
        "4"
    } else if d == 5 {
        "5"
    } else if d == 6 {
        "6"
    } else if d == 7 {
        "7"
    } else if d == 8 {
        "8"
    } else {
        "9"
    };
    assert(s@ =~= seq![digit(d as nat)]);
    s
}

/// Appends `n` in decimal to `out`.
pub fn push_decimal(out: &mut String, n: usize)
    ensures
        final(out)@ == old(out)@ + decimal(n as nat),
    decreases n,
{
    if n >= 10 {
        push_decimal(out, n / 10);
    }
    out.append(digit_str(n % 10));
    proof {
        if n >= 10 {
            assert(old(out)@ + decimal((n / 10) as nat) + seq![digit((n % 10) as nat)] =~= old(
                out,
            )@ + decimal(n as nat));
        }
    }
}

fn push_pos(out: &mut String, p: &Pos)
    ensures
        final(out)@ == old(out)@ + pos_text(*p),
{
    out.append("Pos(");
    push_decimal(out, p.0);
    out.append(", ");
    push_decimal(out, p.1);
    out.append(")");
    assert(out@ =~= old(out)@ + pos_text(*p));
}

fn push_ride(out: &mut String, r: &Ride)
    ensures
        final(out)@ == old(out)@ + ride_text(*r),
{
    out.append("Ride { id: ");
    push_decimal(out, r.id);
    out.append(", start: ");
    push_pos(out, &r.start);
    out.append(", finish: ");
    push_pos(out, &r.finish);
    out.append(", earliest: ");
    push_decimal(out, r.earliest);
    out.append(", latest: ");
    push_decimal(out, r.latest);
    out.append(", done: ");
    if r.done {
        out.append("true");
    } else {
        out.append("false");
    }
    out.append(" }");
    assert(out@ =~= old(out)@ + ride_text(*r));
}

fn push_vehicle(out: &mut String, v: &Vehicle)
    ensures
        final(out)@ == old(out)@ + vehicle_text(*v),
{
    out.append("Vehicle { id: ");
    push_decimal(out, v.id);
    out.append(", pos: ");
    push_pos(out, &v.pos);
    out.append(", time: ");
    push_decimal(out, v.time);
    out.append(" }");
    assert(out@ =~= old(out)@ + vehicle_text(*v));
}

impl Violation {
    /// The sentence that reports this violation.
    pub fn message(&self) -> (s: String)
        ensures
            s@ == message_text(*self),
    {
        let mut out = String::new();
        match self {
            Violation::Reused { ride_id, vehicle_id } => {
                out.append("Ride ");
                push_decimal(&mut out, *ride_id);
                out.append(" assigned to ");
                push_decimal(&mut out, *vehicle_id);
                out.append(" already done.");
            },
            Violation::Horizon { ride_id, vehicle_id } => {
                out.append("Ride ");
                push_decimal(&mut out, *ride_id);
                out.append(" not finished by ");
                push_decimal(&mut out, *vehicle_id);
                out.append(" before end of simulation.");
            },
            Violation::Deadline { ride_id, vehicle_id, ride, vehicle, total } => {
                out.append("Ride ");
                push_decimal(&mut out, *ride_id);
                out.append(" not finished by ");
                push_decimal(&mut out, *vehicle_id);
                out.append(" before ride deadline: ");
                push_ride(&mut out, ride);
                out.append(", ");
                push_vehicle(&mut out, vehicle);
                out.append(", ");
                push_decimal(&mut out, *total);
            },
        }
        assert(out@ =~= message_text(*self));
        out
    }
}

} // verus!
