//! Boat races. A boat that is held for some milliseconds of a race gains
//! one millimetre a millisecond of speed for each, and travels for the rest
//! of the time; the record of the race is to be beaten.

use vstd::prelude::*;
use vstd::string::StringSliceAdditionalSpecFns;
use crate::numbers::{parse_usize, unsigned};
use crate::text::trimmed;
use crate::words::{
    lines_of, rows_of, split, split_bytes, starts_with, strip_prefix, text_lines, trim_bytes,
};

verus! {

/// The byte that parts the numbers of a line, a blank.
pub const BLANK: u8 = 32;

/// What the line of the times begins with.
pub open spec fn time_label() -> Seq<u8> {
    "Time:".spec_bytes()
}

/// What the line of the records begins with.
pub open spec fn distance_label() -> Seq<u8> {
    "Distance:".spec_bytes()
}

/// A race: the time that it lasts, and the distance to beat.
pub struct Race {
    pub time: usize,
    pub dist: usize,
}

/// The numbers among the first `k` pieces of a line. An empty piece is
/// passed over; nothing is read if a piece is no number, or too great a
/// one.
pub open spec fn fields(pieces: Seq<Seq<u8>>, k: int) -> Option<Seq<nat>>
    decreases k,
{
    if k <= 0 {
        Some(Seq::empty())
    } else {
        match fields(pieces, k - 1) {
            Some(before) => if pieces[k - 1].len() == 0 {
                Some(before)
            } else {
                match unsigned(pieces[k - 1]) {
                    Some(v) => if v <= usize::MAX {
                        Some(before.push(v))
                    } else {
                        None
                    },
                    None => None,
                }
            },
            None => None,
        }
    }
}

/// The numbers of a line that begins with `label`: what follows the label,
/// without the white space around it, parted by blanks.
pub open spec fn numbers_after(line: Seq<u8>, label: Seq<u8>) -> Option<Seq<nat>> {
    if starts_with(line, label) {
        let pieces = split(trimmed(line.skip(label.len() as int)), BLANK);
        fields(pieces, pieces.len() as int)
    } else {
        None
    }
}

/// The string without its blanks.
pub open spec fn squeezed(s: Seq<u8>) -> Seq<u8>
    decreases s.len(),
{
    if s.len() == 0 {
        s
    } else if s.last() == BLANK {
        squeezed(s.drop_last())
    } else {
        squeezed(s.drop_last()).push(s.last())
    }
}

/// The one number of a line that begins with `label`: what follows the
/// label, without the white space around it and the blanks in it.
pub open spec fn number_after(line: Seq<u8>, label: Seq<u8>) -> Option<nat> {
    if starts_with(line, label) {
        match unsigned(squeezed(trimmed(line.skip(label.len() as int)))) {
            Some(v) => if v <= usize::MAX {
                Some(v)
            } else {
                None
            },
            None => None,
        }
    } else {
        None
    }
}

/// Whether a boat held for `h` milliseconds beats the record.
pub open spec fn beats(time: nat, dist: nat, h: nat) -> bool {
    h * (time - h) > dist
}

/// The number of ways to beat the record by holding the boat for at least
/// one millisecond and less than `k`.
pub open spec fn wins(time: nat, dist: nat, k: nat) -> nat
    decreases k,
{
    if k <= 1 {
        0
    } else {
        wins(time, dist, (k - 1) as nat) + if beats(time, dist, (k - 1) as nat) {
            1nat
        } else {
            0
        }
    }
}

/// Whether the distances of a boat held for at least one millisecond and
/// less than `k` fit the machine word.
pub open spec fn race_fits(time: nat, k: nat) -> bool {
    forall|h: nat| 1 <= h < k ==> #[trigger] (h * (time - h)) <= usize::MAX
}

/// The number of ways to beat the record of a race, where the boat is held
/// for at least one millisecond and at most two less than the race lasts.
/// Nothing for a race that lasts no time, or if a distance does not fit the
/// machine word.
pub open spec fn ways(time: nat, dist: nat) -> Option<nat> {
    if time >= 1 && race_fits(time, (time - 1) as nat) {
        Some(wins(time, dist, (time - 1) as nat))
    } else {
        None
    }
}

proof fn lemma_fields_stuck(pieces: Seq<Seq<u8>>, k: int, n: int)
    requires
        0 <= k <= n,
        fields(pieces, k).is_none(),
    ensures
        fields(pieces, n).is_none(),
    decreases n - k,
{
    if k < n {
        lemma_fields_stuck(pieces, k, n - 1);
    }
}

/// The numbers of a vector.
pub open spec fn nats(v: Seq<usize>) -> Seq<nat> {
    Seq::new(v.len(), |i: int| v[i] as nat)
}

/// Reads the numbers of a line that begins with `prefix`.
pub fn parse_line(line: &[u8], prefix: &[u8]) -> (r: Option<Vec<usize>>)
    ensures
        match numbers_after(line@, prefix@) {
            Some(s) => r.is_some() && nats(r.unwrap()@) == s,
            None => r.is_none(),
        },
{
    let rest = match strip_prefix(line, prefix) {
        Some(rest) => rest,
        None => {
            return None;
        },
    };
    let pieces = split_bytes(trim_bytes(rest), BLANK);
    let ghost rows = rows_of(pieces@);
    let n = pieces.len();
    let mut out: Vec<usize> = Vec::new();
    let mut k: usize = 0;
    proof {
        assert(nats(out@) =~= Seq::<nat>::empty());
    }
    while k < n
        invariant
            k <= n,
            n == pieces@.len(),
            rows == rows_of(pieces@),
            starts_with(line@, prefix@),
            rows == split(trimmed(line@.skip(prefix@.len() as int)), BLANK),
            fields(rows, k as int) == Some(nats(out@)),
        decreases n - k,
    {
        let ghost before = nats(out@);
        proof {
            assert(rows[k as int] == pieces@[k as int]@);
        }
        if pieces[k].len() > 0 {
            match parse_usize(pieces[k].as_slice()) {
                Some(v) => {
                    out.push(v);
                    proof {
                        assert(nats(out@) =~= before.push(v as nat));
                    }
                },
                None => {
                    proof {
                        lemma_fields_stuck(rows, k + 1, n as int);
                    }
                    return None;
                },
            }
        }
        k += 1;
    }
    Some(out)
}

/// Reads the one number of a line that begins with `prefix`, the blanks in
/// it set aside.
pub fn parse_line2(line: &[u8], prefix: &[u8]) -> (r: Option<usize>)
    ensures
        match number_after(line@, prefix@) {
            Some(v) => r == Some(v as usize),
            None => r.is_none(),
        },
{
    let rest = match strip_prefix(line, prefix) {
        Some(rest) => rest,
        None => {
            return None;
        },
    };
    let body = trim_bytes(rest);
    let n = body.len();
    let mut digits: Vec<u8> = Vec::new();
    let mut i: usize = 0;
    proof {
        assert(body@.take(0) =~= Seq::<u8>::empty());
    }
    while i < n
        invariant
            i <= n,
            n == body@.len(),
            digits@ == squeezed(body@.take(i as int)),
        decreases n - i,
    {
        proof {
            let t = body@.take(i + 1);
            assert(t.drop_last() =~= body@.take(i as int));
            assert(t.last() == body@[i as int]);
        }
        if body[i] != BLANK {
            digits.push(body[i]);
        }
        i += 1;
    }
    proof {
        assert(body@.take(n as int) =~= body@);
    }
    parse_usize(digits.as_slice())
}

/// The number of ways to beat the record of a race.
pub fn count_wins(time: usize, dist: usize) -> (r: Option<usize>)
    ensures
        match ways(time as nat, dist as nat) {
            Some(n) => r == Some(n as usize) && n <= usize::MAX,
            None => r.is_none(),
        },
{
    if time == 0 {
        return None;
    }
    let end = time - 1;
    let mut count: usize = 0;
    let mut hold: usize = 1;
    while hold < end
        invariant
            1 <= hold,
            hold <= end || hold == 1,
            end == time - 1,
            race_fits(time as nat, hold as nat),
            count == wins(time as nat, dist as nat, hold as nat),
            count < hold,
        decreases end - hold,
    {
        match hold.checked_mul(time - hold) {
            Some(d) => {
                if d > dist {
                    count += 1;
                }
            },
            None => {
                proof {
                    let h = hold as nat;
                    assert(1 <= h < (time - 1) as nat && h * (time as nat - h) > usize::MAX);
                }
                return None;
            },
        }
        hold += 1;
    }
    proof {
        let (t, d) = (time as nat, dist as nat);
        if end == 0 {
            assert(wins(t, d, 0) == 0);
            assert(wins(t, d, 1) == 0);
            assert(race_fits(t, 0));
        }
    }
    Some(count)
}

/// The product of the numbers of ways to beat the records of the first `k`
/// races, which take their times and records from two rows of numbers, as
/// far as both rows go. Nothing if a race has no outcome or the product up
/// to it does not fit the machine word.
pub open spec fn product(times: Seq<nat>, dists: Seq<nat>, k: int) -> Option<nat>
    decreases k,
{
    if k <= 0 {
        Some(1)
    } else {
        match (product(times, dists, k - 1), ways(times[k - 1], dists[k - 1])) {
            (Some(p), Some(n)) => if p * n <= usize::MAX {
                Some(p * n)
            } else {
                None
            },
            _ => None,
        }
    }
}

proof fn lemma_product_stuck(times: Seq<nat>, dists: Seq<nat>, k: int, n: int)
    requires
        0 <= k <= n,
        product(times, dists, k).is_none(),
    ensures
        product(times, dists, n).is_none(),
    decreases n - k,
{
    if k < n {
        lemma_product_stuck(times, dists, k, n - 1);
    }
}

/// The lesser of two lengths.
pub open spec fn shorter(a: nat, b: nat) -> nat {
    if a <= b {
        a
    } else {
        b
    }
}

/// The answer to the first question about a sheet of races: the product of
/// the numbers of ways to beat each record. The sheet has two lines, the
/// times and the records.
pub open spec fn sheet_product(lines: Seq<Seq<u8>>) -> Option<nat> {
    if lines.len() == 2 {
        match (numbers_after(lines[0], time_label()), numbers_after(lines[1], distance_label())) {
            (Some(times), Some(dists)) => product(
                times,
                dists,
                shorter(times.len(), dists.len()) as int,
            ),
            _ => None,
        }
    } else {
        None
    }
}

/// The answer to the second question: the number of ways to beat the record
/// of the one race whose time and record are the digits of the first two
/// lines.
pub open spec fn sheet_single(lines: Seq<Seq<u8>>) -> Option<nat> {
    if lines.len() >= 2 {
        match (number_after(lines[0], time_label()), number_after(lines[1], distance_label())) {
            (Some(time), Some(dist)) => ways(time, dist),
            _ => None,
        }
    } else {
        None
    }
}

/// Reads the races of a sheet.
pub fn parse_races(data: &str) -> (r: Option<Vec<Race>>)
    ensures
        ({
            let lines = text_lines(data.spec_bytes());
            let read = if lines.len() == 2 {
                (numbers_after(lines[0], time_label()), numbers_after(lines[1], distance_label()))
            } else {
                (None, None)
            };
            match read {
                (Some(times), Some(dists)) => {
                    &&& r.is_some()
                    &&& r.unwrap()@.len() == shorter(times.len(), dists.len())
                    &&& forall|i: int|
                        0 <= i < r.unwrap()@.len() ==> (#[trigger] r.unwrap()@[i]).time == times[i]
                            && r.unwrap()@[i].dist == dists[i]
                },
                _ => r.is_none(),
            }
        }),
{
    let lines = lines_of(data);
    if lines.len() != 2 {
        return None;
    }
    proof {
        assert(rows_of(lines@)[0] == lines@[0]@);
        assert(rows_of(lines@)[1] == lines@[1]@);
    }
    let times = match parse_line(lines[0].as_slice(), "Time:".as_bytes()) {
        Some(v) => v,
        None => {
            return None;
        },
    };
    let dists = match parse_line(lines[1].as_slice(), "Distance:".as_bytes()) {
        Some(v) => v,
        None => {
            return None;
        },
    };
    let n = if times.len() <= dists.len() {
        times.len()
    } else {
        dists.len()
    };
    let mut races: Vec<Race> = Vec::new();
    let mut i: usize = 0;
    while i < n
        invariant
            i <= n,
            n <= times@.len(),
            n <= dists@.len(),
            races@.len() == i,
            forall|j: int|
                0 <= j < i ==> (#[trigger] races@[j]).time == times@[j] && races@[j].dist
                    == dists@[j],
        decreases n - i,
    {
        races.push(Race { time: times[i], dist: dists[i] });
        i += 1;
    }
    Some(races)
}

/// The product of the numbers of ways to beat the record of each race.
pub fn part1(data: &str) -> (r: Option<usize>)
    ensures
        match sheet_product(text_lines(data.spec_bytes())) {
            Some(n) => r == Some(n as usize) && n <= usize::MAX,
            None => r.is_none(),
        },
{
    let races = match parse_races(data) {
        Some(races) => races,
        None => {
            return None;
        },
    };
    let ghost lines = text_lines(data.spec_bytes());
    let ghost times = numbers_after(lines[0], time_label()).unwrap();
    let ghost dists = numbers_after(lines[1], distance_label()).unwrap();
    let n = races.len();
    let mut total: usize = 1;
    let mut k: usize = 0;
    while k < n
        invariant
            k <= n,
            n == races@.len(),
            n == shorter(times.len(), dists.len()),
            lines == text_lines(data.spec_bytes()),
            lines.len() == 2,
            numbers_after(lines[0], time_label()) == Some(times),
            numbers_after(lines[1], distance_label()) == Some(dists),
            forall|i: int|
                0 <= i < n ==> (#[trigger] races@[i]).time == times[i] && races@[i].dist
                    == dists[i],
            product(times, dists, k as int) == Some(total as nat),
        decreases n - k,
    {
        let step = match count_wins(races[k].time, races[k].dist) {
            Some(c) => total.checked_mul(c),
            None => None,
        };
        match step {
            Some(next) => {
                total = next;
            },
            None => {
                proof {
                    lemma_product_stuck(times, dists, k + 1, n as int);
                }
                return None;
            },
        }
        k += 1;
    }
    Some(total)
}

/// The number of ways to beat the record of the one long race.
pub fn part2(data: &str) -> (r: Option<usize>)
    ensures
        match sheet_single(text_lines(data.spec_bytes())) {
            Some(n) => r == Some(n as usize) && n <= usize::MAX,
            None => r.is_none(),
        },
{
    let lines = lines_of(data);
    if lines.len() < 2 {
        return None;
    }
    proof {
        assert(rows_of(lines@)[0] == lines@[0]@);
        assert(rows_of(lines@)[1] == lines@[1]@);
    }
    let time = match parse_line2(lines[0].as_slice(), "Time:".as_bytes()) {
        Some(v) => v,
        None => {
            return None;
        },
    };
    let record = match parse_line2(lines[1].as_slice(), "Distance:".as_bytes()) {
        Some(v) => v,
        None => {
            return None;
        },
    };
    count_wins(time, record)
}

} // verus!
