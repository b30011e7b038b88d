//! The text forms of an instance and of a plan.
//!
//! An instance is a header line `rows cols n_vehicles n_rides bonus
//! sim_steps`, followed by one line `start_row start_col finish_row
//! finish_col earliest latest` for each ride. A plan has one line
//! `k r1 r2 .. rk` for each vehicle. The numbers of a line are parted by
//! single spaces.

use vstd::prelude::*;
use vstd::slice::*;
use crate::model::{Pos, Problem, Ride, Vehicle};
use crate::replay::plan_of;

verus! {

pub const SPACE: u8 = 0x20;

pub const NEWLINE: u8 = 0x0a;

pub const PLUS: u8 = 0x2b;

pub const ZERO: u8 = 0x30;

/// Space, tab, line feed, vertical tab, form feed or carriage return.
pub open spec fn is_blank(b: u8) -> bool {
    b == 0x20 || 0x09 <= b <= 0x0d
}

/// What the byte is worth as a decimal digit; nothing where it is none.
pub open spec fn digit_value(b: u8) -> nat {
    if 0x30 <= b <= 0x39 {
        (b - 0x30) as nat
    } else {
        0
    }
}

/// Each byte is a decimal digit.
pub open spec fn all_digits(s: Seq<u8>) -> bool {
    forall|i: int| 0 <= i < s.len() ==> 0x30 <= #[trigger] s[i] <= 0x39
}

/// What the digits are worth, read as a decimal number.
pub open spec fn digits_value(s: Seq<u8>) -> nat
    decreases s.len(),
{
    if s.len() == 0 {
        0
    } else {
        digits_value(s.drop_last()) * 10 + digit_value(s.last())
    }
}

/// The number that a field writes: one or more decimal digits, after a
/// plus sign or none, worth no more than `usize::MAX`.
pub open spec fn number(s: Seq<u8>) -> Option<usize> {
    let body = if s.len() > 0 && s[0] == PLUS {
        s.skip(1)
    } else {
        s
    };
    if body.len() > 0 && all_digits(body) && digits_value(body) <= usize::MAX {
        Some(digits_value(body) as usize)
    } else {
        None
    }
}

/// The place of the first byte `b` in `s`, or the length of `s` where it
/// holds none.
pub open spec fn find(s: Seq<u8>, b: u8) -> int
    decreases s.len(),
{
    if s.len() == 0 || s[0] == b {
        0
    } else {
        1 + find(s.skip(1), b)
    }
}

/// `s` without the blanks at its start.
pub open spec fn trim_start(s: Seq<u8>) -> Seq<u8>
    decreases s.len(),
{
    if s.len() > 0 && is_blank(s[0]) {
        trim_start(s.skip(1))
    } else {
        s
    }
}

/// `s` without the blanks at its end.
pub open spec fn trim_end(s: Seq<u8>) -> Seq<u8>
    decreases s.len(),
{
    if s.len() > 0 && is_blank(s.last()) {
        trim_end(s.drop_last())
    } else {
        s
    }
}

/// `s` without the blanks at its start and at its end.
pub open spec fn trimmed(s: Seq<u8>) -> Seq<u8> {
    trim_end(trim_start(s))
}

/// The numbers of the fields of `s`, which each single space parts; `None`
/// where a field writes no number.
pub open spec fn numbers(s: Seq<u8>) -> Option<Seq<usize>>
    decreases s.len(),
    via numbers_ends
{
    let k = find(s, SPACE);
    match number(s.take(k)) {
        None => None,
        Some(n) => if k >= s.len() {
            Some(seq![n])
        } else {
            match numbers(s.skip(k + 1)) {
                None => None,
                Some(rest) => Some(seq![n] + rest),
            }
        },
    }
}

/// The numbers of a line: those of its fields, once the blanks at both
/// its ends are taken off.
pub open spec fn row(line: Seq<u8>) -> Option<Seq<usize>> {
    numbers(trimmed(line))
}

/// The lines of a text, which each line feed ends; the last line may end
/// with the text.
pub open spec fn lines(s: Seq<u8>) -> Seq<Seq<u8>>
    decreases s.len(),
    via lines_ends
{
    if s.len() == 0 {
        Seq::empty()
    } else {
        let k = find(s, NEWLINE);
        if k >= s.len() {
            seq![s]
        } else {
            seq![s.take(k)] + lines(s.skip(k + 1))
        }
    }
}

#[via_fn]
proof fn numbers_ends(s: Seq<u8>) {
    lemma_find(s, SPACE);
}

#[via_fn]
proof fn lines_ends(s: Seq<u8>) {
    lemma_find(s, NEWLINE);
}

/// `find` gives the first place of the byte.
pub proof fn lemma_find(s: Seq<u8>, b: u8)
    ensures
        0 <= find(s, b) <= s.len(),
        forall|j: int| 0 <= j < find(s, b) ==> #[trigger] s[j] != b,
        find(s, b) < s.len() ==> s[find(s, b)] == b,
    decreases s.len(),
{
    if !(s.len() == 0 || s[0] == b) {
        let rest = s.skip(1);
        lemma_find(rest, b);
        assert forall|j: int| 0 <= j < find(s, b) implies #[trigger] s[j] != b by {
            if j > 0 {
                assert(rest[j - 1] == s[j]);
            }
        }
    }
}

/// The first place of the byte is the only place before which the byte
/// does not stand and at which it stands or the sequence ends.
pub proof fn lemma_find_is(s: Seq<u8>, b: u8, k: int)
    requires
        0 <= k <= s.len(),
        forall|j: int| 0 <= j < k ==> #[trigger] s[j] != b,
        k < s.len() ==> s[k] == b,
    ensures
        find(s, b) == k,
{
    lemma_find(s, b);
    let f = find(s, b);
    if f < k {
        assert(s[f] != b);
    }
}

proof fn lemma_digits_value_grows(s: Seq<u8>, k: int)
    requires
        0 <= k <= s.len(),
    ensures
        digits_value(s.take(k)) <= digits_value(s),
    decreases s.len(),
{
    if k == s.len() {
        assert(s.take(k) =~= s);
    } else {
        assert(s.drop_last().take(k) =~= s.take(k));
        lemma_digits_value_grows(s.drop_last(), k);
        assert(digits_value(s.drop_last()) * 10 >= digits_value(s.drop_last())) by (nonlinear_arith);
    }
}

/// Reads the number that the bytes from `from` up to `to` write.
fn read_number(text: &[u8], from: usize, to: usize) -> (r: Option<usize>)
    requires
        from <= to <= text@.len(),
    ensures
        r == number(text@.subrange(from as int, to as int)),
{
    let ghost field = text@.subrange(from as int, to as int);
    let mut i: usize = from;
    if i < to && text[i] == PLUS {
        i = i + 1;
    }
    let first: usize = i;
    let ghost body = text@.subrange(first as int, to as int);
    assert(body =~= if field.len() > 0 && field[0] == PLUS {
        field.skip(1)
    } else {
        field
    });
    if i == to {
        return None;
    }
    let mut value: usize = 0;
    assert(body.take(0) =~= Seq::<u8>::empty());
    while i < to
        invariant
            from <= first <= i <= to <= text@.len(),
            body == text@.subrange(first as int, to as int),
            number(text@.subrange(from as int, to as int)) == if body.len() > 0 && all_digits(body)
                && digits_value(body) <= usize::MAX {
                Some(digits_value(body) as usize)
            } else {
                None::<usize>
            },
            all_digits(body.take(i - first)),
            value == digits_value(body.take(i - first)),
        decreases to - i,
    {
        let b: u8 = text[i];
        assert(body[i - first] == b);
        if b < ZERO || b > 0x39 {
            return None;
        }
        proof {
            assert(body.take(i - first + 1).drop_last() =~= body.take(i - first));
            assert(body.take(i - first + 1).last() == b);
            lemma_digits_value_grows(body, i - first + 1);
        }
        let digit: usize = (b - ZERO) as usize;
        let tens: usize = match value.checked_mul(10) {
            Some(t) => t,
            None => {
                return None;
            },
        };
        value = match tens.checked_add(digit) {
            Some(v) => v,
            None => {
                return None;
            },
        };
        assert forall|j: int| 0 <= j < i - first + 1 implies 0x30 <= #[trigger] body.take(
            i - first + 1,
        )[j] <= 0x39 by {
            if j < i - first {
                assert(body.take(i - first)[j] == body[j]);
            }
        }
        i = i + 1;
    }
    assert(body.take(to - first) =~= body);
    Some(value)
}

proof fn lemma_trim_start_skips(s: Seq<u8>, k: int)
    requires
        0 <= k <= s.len(),
        forall|j: int| 0 <= j < k ==> is_blank(#[trigger] s[j]),
    ensures
        trim_start(s) == trim_start(s.skip(k)),
    decreases k,
{
    if k > 0 {
        assert(is_blank(s[0]));
        assert forall|j: int| 0 <= j < k - 1 implies is_blank(#[trigger] s.skip(1)[j]) by {
            assert(s.skip(1)[j] == s[j + 1]);
        }
        lemma_trim_start_skips(s.skip(1), k - 1);
        assert(s.skip(1).skip(k - 1) =~= s.skip(k));
    } else {
        assert(s.skip(0) =~= s);
    }
}

proof fn lemma_trim_end_drops(s: Seq<u8>, k: int)
    requires
        0 <= k <= s.len(),
        forall|j: int| k <= j < s.len() ==> is_blank(#[trigger] s[j]),
    ensures
        trim_end(s) == trim_end(s.take(k)),
    decreases s.len() - k,
{
    if k < s.len() {
        assert(is_blank(s.last()));
        assert forall|j: int| k <= j < s.len() - 1 implies is_blank(#[trigger] s.drop_last()[j]) by {
            assert(s.drop_last()[j] == s[j]);
        }
        lemma_trim_end_drops(s.drop_last(), k);
        assert(s.drop_last().take(k) =~= s.take(k));
    } else {
        assert(s.take(k) =~= s);
    }
}

fn blank(b: u8) -> (r: bool)
    ensures
        r == is_blank(b),
{
    b == SPACE || (0x09 <= b && b <= 0x0d)
}

/// The place of the first byte `b` from `from` up to `to`, or `to`.
fn seek(text: &[u8], from: usize, to: usize, b: u8) -> (k: usize)
    requires
        from <= to <= text@.len(),
    ensures
        from <= k <= to,
        k - from == find(text@.subrange(from as int, to as int), b),
{
    let ghost part = text@.subrange(from as int, to as int);
    let mut k: usize = from;
    while k < to && text[k] != b
        invariant
            from <= k <= to <= text@.len(),
            part == text@.subrange(from as int, to as int),
            forall|j: int| 0 <= j < k - from ==> #[trigger] part[j] != b,
        decreases to - k,
    {
        assert(part[k - from] == text@[k as int]);
        k = k + 1;
    }
    proof {
        if k < to {
            assert(part[k - from] == text@[k as int]);
        }
        lemma_find_is(part, b, k - from);
    }
    k
}

/// Reads the numbers of the line that the bytes from `from` up to `to`
/// hold.
fn read_row(text: &[u8], from: usize, to: usize) -> (r: Option<Vec<usize>>)
    requires
        from <= to <= text@.len(),
    ensures
        match r {
            Some(found) => row(text@.subrange(from as int, to as int)) == Some(found@),
            None => row(text@.subrange(from as int, to as int)) is None,
        },
{
    let ghost line = text@.subrange(from as int, to as int);
    let mut lo: usize = from;
    while lo < to && blank(text[lo])
        invariant
            from <= lo <= to <= text@.len(),
            line == text@.subrange(from as int, to as int),
            forall|j: int| 0 <= j < lo - from ==> is_blank(#[trigger] line[j]),
        decreases to - lo,
    {
        assert(line[lo - from] == text@[lo as int]);
        lo = lo + 1;
    }
    let ghost rest = text@.subrange(lo as int, to as int);
    proof {
        lemma_trim_start_skips(line, lo - from);
        assert(line.skip(lo - from) =~= rest);
        if lo < to {
            assert(rest[0] == text@[lo as int]);
        }
        assert(trim_start(line) == rest);
    }
    let mut hi: usize = to;
    while hi > lo && blank(text[hi - 1])
        invariant
            lo <= hi <= to <= text@.len(),
            rest == text@.subrange(lo as int, to as int),
            forall|j: int| hi - lo <= j < rest.len() ==> is_blank(#[trigger] rest[j]),
        decreases hi,
    {
        assert(rest[hi - 1 - lo] == text@[hi - 1]);
        hi = hi - 1;
    }
    let ghost core = text@.subrange(lo as int, hi as int);
    proof {
        lemma_trim_end_drops(rest, hi - lo);
        assert(rest.take(hi - lo) =~= core);
        if hi > lo {
            assert(core.last() == text@[hi - 1]);
        }
        assert(trimmed(line) == core);
    }
    let mut found: Vec<usize> = Vec::new();
    let mut at: usize = lo;
    loop
        invariant
            from <= to <= text@.len(),
            lo <= at <= hi <= text@.len(),
            core == text@.subrange(lo as int, hi as int),
            trimmed(text@.subrange(from as int, to as int)) == core,
            numbers(core) == match numbers(text@.subrange(at as int, hi as int)) {
                Some(more) => Some(found@ + more),
                None => None,
            },
        decreases hi - at,
    {
        let ghost tail = text@.subrange(at as int, hi as int);
        let k: usize = seek(text, at, hi, SPACE);
        assert(tail.take(k - at) =~= text@.subrange(at as int, k as int));
        match read_number(text, at, k) {
            Some(n) => {
                if k >= hi {
                    let ghost before = found@;
                    found.push(n);
                    assert(found@ =~= before + seq![n]);
                    return Some(found);
                }
                proof {
                    assert(tail.skip(k - at + 1) =~= text@.subrange(k + 1, hi as int));
                    match numbers(text@.subrange(k + 1, hi as int)) {
                        Some(more) => {
                            assert(found@ + (seq![n] + more) =~= found@.push(n) + more);
                        },
                        None => {},
                    }
                }
                found.push(n);
                at = k + 1;
            },
            None => {
                return None;
            },
        }
    }
}

/// Reads the numbers of a line.
pub fn read_line(line: &[u8]) -> (r: Option<Vec<usize>>)
    ensures
        match r {
            Some(found) => row(line@) == Some(found@),
            None => row(line@) is None,
        },
{
    assert(line@.subrange(0, line@.len() as int) =~= line@);
    read_row(line, 0, line.len())
}

/// The problem that a header line of six numbers or more states.
pub open spec fn problem_of(p: Seq<usize>) -> Problem {
    Problem {
        rows: p[0],
        cols: p[1],
        n_vehicles: p[2],
        n_rides: p[3],
        bonus: p[4],
        sim_steps: p[5],
    }
}

/// The ride that a line of six numbers or more states, open, with `id` as
/// its id.
pub open spec fn ride_of(id: int, l: Seq<usize>) -> Ride {
    Ride {
        id: id as usize,
        start: Pos(l[0], l[1]),
        finish: Pos(l[2], l[3]),
        earliest: l[4],
        latest: l[5],
        done: false,
    }
}

/// A fleet of `n` vehicles that stand at the origin and have used no time.
pub open spec fn fleet_of(n: nat) -> Seq<Vehicle> {
    Seq::new(n, |i: int| Vehicle { id: i as usize, pos: Pos(0, 0), time: 0 })
}

/// The text states an instance: it has a line, and each of its lines
/// holds six numbers or more.
pub open spec fn states_instance(text: Seq<u8>) -> bool {
    &&& lines(text).len() > 0
    &&& forall|i: int|
        0 <= i < lines(text).len() ==> row(#[trigger] lines(text)[i]) is Some && row(
            lines(text)[i],
        ).unwrap().len() >= 6
}

/// The rides that the text states: one for each line after the first, with
/// its place among them as its id.
pub open spec fn rides_of(text: Seq<u8>) -> Seq<Ride> {
    Seq::new(
        (lines(text).len() - 1) as nat,
        |i: int| ride_of(i, row(lines(text)[i + 1]).unwrap()),
    )
}

/// The list that a line states. A line `k r1 .. rk` states the list of its
/// `k` rides, which is empty where `k` is zero; what follows `rk` on the
/// line is passed over. `None` where the line holds no numbers, or fewer
/// than `k` after the first.
pub open spec fn listing(line: Seq<u8>) -> Option<Seq<usize>> {
    match row(line) {
        None => None,
        Some(l) => if l.len() > l[0] {
            Some(l.subrange(1, l[0] + 1))
        } else {
            None
        },
    }
}

/// The plan that the lines state: the list of each line, in order, so that
/// the list of a vehicle stands at the place of its line.
pub open spec fn plan_of_lines(ls: Seq<Seq<u8>>) -> Option<Seq<Seq<usize>>>
    decreases ls.len(),
{
    if ls.len() == 0 {
        Some(Seq::empty())
    } else {
        match (plan_of_lines(ls.drop_last()), listing(ls.last())) {
            (Some(plan), Some(list)) => Some(plan.push(list)),
            _ => None,
        }
    }
}

/// Where the first lines state no plan, no more lines mend it.
proof fn lemma_no_plan_stays(a: Seq<Seq<u8>>, b: Seq<Seq<u8>>)
    requires
        plan_of_lines(a) is None,
    ensures
        plan_of_lines(a + b) is None,
    decreases b.len(),
{
    if b.len() == 0 {
        assert(a + b =~= a);
    } else {
        assert((a + b).drop_last() =~= a + b.drop_last());
        lemma_no_plan_stays(a, b.drop_last());
    }
}

/// A line that holds numbers holds one at least.
proof fn lemma_numbers_not_empty(s: Seq<u8>)
    ensures
        numbers(s) matches Some(found) ==> found.len() >= 1,
{
}

/// The line that starts at `pos` is the first of the lines from there.
proof fn lemma_first_line(s: Seq<u8>, pos: int, k: int)
    requires
        0 <= pos < s.len(),
        pos <= k <= s.len(),
        k - pos == find(s.subrange(pos, s.len() as int), NEWLINE),
    ensures
        lines(s.skip(pos)) == seq![s.subrange(pos, k)] + lines(
            s.skip(
                if k < s.len() {
                    k + 1
                } else {
                    k
                },
            ),
        ),
{
    let tail = s.skip(pos);
    assert(tail =~= s.subrange(pos, s.len() as int));
    assert(tail.take(k - pos) =~= s.subrange(pos, k));
    if k < s.len() {
        assert(tail.skip(k - pos + 1) =~= s.skip(k + 1));
    } else {
        assert(s.skip(k) =~= Seq::<u8>::empty());
        assert(seq![s.subrange(pos, k)] + Seq::<Seq<u8>>::empty() =~= seq![s.subrange(pos, k)]);
    }
}

/// The end of the line that starts at `pos`, and the start of the next.
fn line_at(text: &[u8], pos: usize) -> (ends: (usize, usize))
    requires
        pos < text@.len(),
    ensures
        pos <= ends.0 <= text@.len(),
        pos < ends.1 <= text@.len(),
        ends.0 <= ends.1,
        lines(text@.skip(pos as int)) == seq![text@.subrange(pos as int, ends.0 as int)] + lines(
            text@.skip(ends.1 as int),
        ),
{
    let k: usize = seek(text, pos, text.len(), NEWLINE);
    proof {
        lemma_first_line(text@, pos as int, k as int);
    }
    if k < text.len() {
        (k, k + 1)
    } else {
        (k, k)
    }
}

/// Reads an instance: the problem, its fleet at the origin, and its rides.
/// `None` where the text states no instance.
pub fn parse_instance(text: &[u8]) -> (r: Option<(Problem, Vec<Vehicle>, Vec<Ride>)>)
    ensures
        r is Some <==> states_instance(text@),
        r matches Some(found) ==> {
            &&& found.0 == problem_of(row(lines(text@)[0]).unwrap())
            &&& found.1@ == fleet_of(found.0.n_vehicles as nat)
            &&& found.2@ == rides_of(text@)
        },
{
    assert(text@.skip(0) =~= text@);
    if text.len() == 0 {
        return None;
    }
    let (end, next) = line_at(text, 0);
    let ghost header = text@.subrange(0, end as int);
    assert((seq![header] + lines(text@.skip(next as int)))[0] == header);
    let p: Vec<usize> = match read_row(text, 0, end) {
        Some(p) => p,
        None => {
            return None;
        },
    };
    if p.len() < 6 {
        return None;
    }
    let problem = Problem {
        rows: p[0],
        cols: p[1],
        n_vehicles: p[2],
        n_rides: p[3],
        bonus: p[4],
        sim_steps: p[5],
    };
    let mut rides: Vec<Ride> = Vec::new();
    let mut pos: usize = next;
    let ghost mut done: Seq<Seq<u8>> = seq![header];
    while pos < text.len()
        invariant
            pos <= text@.len(),
            lines(text@) == done + lines(text@.skip(pos as int)),
            done.len() == rides@.len() + 1,
            rides@.len() < pos,
            forall|i: int|
                0 <= i < done.len() ==> row(#[trigger] done[i]) is Some && row(
                    done[i],
                ).unwrap().len() >= 6,
            forall|i: int|
                0 <= i < rides@.len() ==> #[trigger] rides@[i] == ride_of(
                    i,
                    row(done[i + 1]).unwrap(),
                ),
        decreases text@.len() - pos,
    {
        let (end, next) = line_at(text, pos);
        let ghost line = text@.subrange(pos as int, end as int);
        proof {
            assert(done + (seq![line] + lines(text@.skip(next as int))) =~= done.push(line) + lines(
                text@.skip(next as int),
            ));
            assert(lines(text@)[done.len() as int] == line);
        }
        let l: Vec<usize> = match read_row(text, pos, end) {
            Some(l) => l,
            None => {
                return None;
            },
        };
        if l.len() < 6 {
            return None;
        }
        rides.push(
            Ride {
                id: rides.len(),
                start: Pos(l[0], l[1]),
                finish: Pos(l[2], l[3]),
                earliest: l[4],
                latest: l[5],
                done: false,
            },
        );
        proof {
            done = done.push(line);
        }
        pos = next;
    }
    proof {
        assert(text@.skip(pos as int) =~= Seq::<u8>::empty());
        assert(done + Seq::<Seq<u8>>::empty() =~= done);
        assert(rides@ =~= rides_of(text@));
    }
    let mut vehicles: Vec<Vehicle> = Vec::new();
    let mut i: usize = 0;
    while i < problem.n_vehicles
        invariant
            i <= problem.n_vehicles,
            vehicles@.len() == i,
            forall|j: int|
                0 <= j < i ==> #[trigger] vehicles@[j] == (Vehicle {
                    id: j as usize,
                    pos: Pos(0, 0),
                    time: 0,
                }),
        decreases problem.n_vehicles - i,
    {
        vehicles.push(Vehicle { id: i, pos: Pos(0, 0), time: 0 });
        i = i + 1;
    }
    assert(vehicles@ =~= fleet_of(problem.n_vehicles as nat));
    Some((problem, vehicles, rides))
}

/// Reads a plan: one list for each line, that of a vehicle at the place of
/// its line. `None` where the text states no plan.
pub fn parse_assignment(text: &[u8]) -> (r: Option<Vec<Vec<usize>>>)
    ensures
        match r {
            Some(found) => plan_of_lines(lines(text@)) == Some(plan_of(&found)),
            None => plan_of_lines(lines(text@)) is None,
        },
{
    let mut assignment: Vec<Vec<usize>> = Vec::new();
    let mut pos: usize = 0;
    let ghost mut done: Seq<Seq<u8>> = Seq::empty();
    proof {
        assert(text@.skip(0) =~= text@);
        assert(done + lines(text@) =~= lines(text@));
        assert(plan_of(&assignment) =~= Seq::<Seq<usize>>::empty());
    }
    while pos < text.len()
        invariant
            pos <= text@.len(),
            lines(text@) == done + lines(text@.skip(pos as int)),
            plan_of_lines(done) == Some(plan_of(&assignment)),
        decreases text@.len() - pos,
    {
        let (end, next) = line_at(text, pos);
        let ghost line = text@.subrange(pos as int, end as int);
        let ghost rest = lines(text@.skip(next as int));
        proof {
            assert(done + (seq![line] + rest) =~= done.push(line) + rest);
            assert(done.push(line).drop_last() =~= done);
            assert(done.push(line).last() == line);
            lemma_numbers_not_empty(trimmed(line));
            if plan_of_lines(done.push(line)) is None {
                lemma_no_plan_stays(done.push(line), rest);
            }
        }
        let l: Vec<usize> = match read_row(text, pos, end) {
            Some(l) => l,
            None => {
                return None;
            },
        };
        let n: usize = l[0];
        if l.len() <= n {
            return None;
        }
        let mut list: Vec<usize> = Vec::new();
        let mut i: usize = 0;
        assert(list@ =~= l@.subrange(1, 1));
        while i < n
            invariant
                i <= n < l@.len(),
                list@ == l@.subrange(1, i + 1),
            decreases n - i,
        {
            list.push(l[i + 1]);
            assert(list@ =~= l@.subrange(1, i + 2));
            i = i + 1;
        }
        let ghost before = plan_of(&assignment);
        assignment.push(list);
        assert(plan_of(&assignment) =~= before.push(l@.subrange(1, n + 1)));
        proof {
            done = done.push(line);
        }
        pos = next;
    }
    proof {
        assert(text@.skip(pos as int) =~= Seq::<u8>::empty());
        assert(done + Seq::<Seq<u8>>::empty() =~= done);
    }
    Some(assignment)
}

} // verus!
