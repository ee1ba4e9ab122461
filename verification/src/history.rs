//! Histories of readings, one to a line, and the values that continue them:
//! each history is put down to its differences until these are all zero, and
//! built up again by one value more at its end or at its beginning.

use vstd::prelude::*;
use vstd::string::StringSliceAdditionalSpecFns;
use crate::numbers::{parse_i64, signed};
use crate::words::{lines_of, rows_of, split, split_bytes, text_lines};

verus! {

/// The byte that parts the readings of a line, a blank.
pub const BLANK: u8 = 32;

/// Whether a number can be kept in a signed word of 64 bits.
pub open spec fn fits(v: int) -> bool {
    i64::MIN <= v <= i64::MAX
}

/// Whether all of the numbers are zero.
pub open spec fn all_zero(s: Seq<int>) -> bool {
    forall|i: int| 0 <= i < s.len() ==> (#[trigger] s[i]) == 0
}

/// The differences between each number and the next.
pub open spec fn diffs(s: Seq<int>) -> Seq<int> {
    Seq::new((s.len() - 1) as nat, |i: int| s[i + 1] - s[i])
}

/// The value that continues the history at its end.
pub open spec fn next_value(s: Seq<int>) -> int
    decreases s.len(),
{
    if all_zero(s) {
        0
    } else {
        s.last() + next_value(diffs(s))
    }
}

/// The value that continues the history at its beginning.
pub open spec fn prev_value(s: Seq<int>) -> int
    decreases s.len(),
{
    if all_zero(s) {
        0
    } else {
        s[0] - prev_value(diffs(s))
    }
}

/// Whether each of the numbers fits.
pub open spec fn all_fit(s: Seq<int>) -> bool {
    forall|i: int| 0 <= i < s.len() ==> fits(#[trigger] s[i])
}

/// Whether the value that continues the history at its end can be found
/// with numbers that fit: the differences, the differences of these and so
/// on, and each value that continues one of them.
pub open spec fn next_fits(s: Seq<int>) -> bool
    decreases s.len(),
{
    all_zero(s) || (all_fit(diffs(s)) && next_fits(diffs(s)) && fits(
        s.last() + next_value(diffs(s)),
    ))
}

/// The same for the value that continues the history at its beginning.
pub open spec fn prev_fits(s: Seq<int>) -> bool
    decreases s.len(),
{
    all_zero(s) || (all_fit(diffs(s)) && prev_fits(diffs(s)) && fits(s[0] - prev_value(diffs(s))))
}

/// The numbers of a vector.
pub open spec fn ints(v: Seq<i64>) -> Seq<int> {
    Seq::new(v.len(), |i: int| v[i] as int)
}

/// The readings of the first `k` pieces, if each piece is a number that
/// fits.
pub open spec fn readings(pieces: Seq<Seq<u8>>, k: int) -> Option<Seq<int>>
    decreases k,
{
    if k <= 0 {
        Some(Seq::empty())
    } else {
        match (readings(pieces, k - 1), signed(pieces[k - 1])) {
            (Some(before), Some(v)) => if fits(v) {
                Some(before.push(v))
            } else {
                None
            },
            _ => None,
        }
    }
}

/// The readings of a line, which are parted by single blanks.
pub open spec fn line_readings(line: Seq<u8>) -> Option<Seq<int>> {
    readings(split(line, BLANK), split(line, BLANK).len() as int)
}

/// Readings that are not all numbers are not so however many follow.
proof fn lemma_readings_stuck(pieces: Seq<Seq<u8>>, k: int, n: int)
    requires
        0 <= k <= n,
        readings(pieces, k).is_none(),
    ensures
        readings(pieces, n).is_none(),
    decreases n - k,
{
    if k < n {
        lemma_readings_stuck(pieces, k, n - 1);
    }
}

/// Reads the numbers of a line.
pub fn parse_line(line: &[u8]) -> (r: Option<Vec<i64>>)
    ensures
        match line_readings(line@) {
            Some(s) => r.is_some() && ints(r.unwrap()@) == s,
            None => r.is_none(),
        },
{
    let pieces = split_bytes(line, BLANK);
    let ghost rows = rows_of(pieces@);
    let n = pieces.len();
    let mut out: Vec<i64> = Vec::new();
    let mut k: usize = 0;
    proof {
        assert(ints(out@) =~= Seq::<int>::empty());
    }
    while k < n
        invariant
            k <= n,
            n == pieces@.len(),
            rows == rows_of(pieces@),
            rows == split(line@, BLANK),
            readings(rows, k as int) == Some(ints(out@)),
        decreases n - k,
    {
        let ghost before = ints(out@);
        proof {
            assert(rows[k as int] == pieces@[k as int]@);
        }
        match parse_i64(pieces[k].as_slice()) {
            Some(v) => {
                out.push(v);
                proof {
                    assert(ints(out@) =~= before.push(v as int));
                }
            },
            None => {
                proof {
                    lemma_readings_stuck(rows, k + 1, n as int);
                }
                return None;
            },
        }
        k += 1;
    }
    Some(out)
}

/// Whether all of the numbers are zero.
fn is_all_zero(cur: &[i64]) -> (r: bool)
    ensures
        r == all_zero(ints(cur@)),
{
    let n = cur.len();
    let mut i: usize = 0;
    while i < n
        invariant
            i <= n,
            n == cur@.len(),
            forall|j: int| 0 <= j < i ==> (#[trigger] ints(cur@)[j]) == 0,
        decreases n - i,
    {
        if cur[i] != 0 {
            proof {
                assert(ints(cur@)[i as int] != 0);
            }
            return false;
        }
        i += 1;
    }
    true
}

/// The differences between each number and the next, if they all fit.
fn differences(cur: &[i64]) -> (r: Option<Vec<i64>>)
    requires
        cur@.len() >= 1,
    ensures
        match r {
            Some(v) => all_fit(diffs(ints(cur@))) && ints(v@) == diffs(ints(cur@)),
            None => !all_fit(diffs(ints(cur@))),
        },
{
    let n = cur.len();
    let ghost goal = diffs(ints(cur@));
    let mut next: Vec<i64> = Vec::new();
    let mut i: usize = 0;
    while i + 1 < n
        invariant
            i + 1 <= n,
            n == cur@.len(),
            goal == diffs(ints(cur@)),
            next@.len() == i,
            forall|j: int| 0 <= j < i ==> (#[trigger] next@[j]) as int == goal[j],
        decreases n - i,
    {
        match cur[i + 1].checked_sub(cur[i]) {
            Some(d) => {
                next.push(d);
            },
            None => {
                proof {
                    assert(!fits(goal[i as int]));
                }
                return None;
            },
        }
        i += 1;
    }
    proof {
        assert(ints(next@) =~= goal);
        assert forall|j: int| 0 <= j < goal.len() implies fits(#[trigger] goal[j]) by {
            assert(next@[j] as int == goal[j]);
        }
    }
    Some(next)
}

/// The value that continues the history at its end; nothing if it cannot be
/// found with numbers that fit.
pub fn extrapolate_last(cur: &[i64]) -> (r: Option<i64>)
    ensures
        if next_fits(ints(cur@)) {
            r == Some(next_value(ints(cur@)) as i64) && fits(next_value(ints(cur@)))
        } else {
            r.is_none()
        },
    decreases cur@.len(),
{
    if is_all_zero(cur) {
        return Some(0);
    }
    proof {
        if cur@.len() == 0 {
            assert(all_zero(ints(cur@)));
        }
    }
    let next = match differences(cur) {
        Some(next) => next,
        None => {
            return None;
        },
    };
    proof {
        assert(ints(next@).len() == next@.len());
        assert(diffs(ints(cur@)).len() == cur@.len() - 1);
    }
    let next_v = match extrapolate_last(next.as_slice()) {
        Some(v) => v,
        None => {
            return None;
        },
    };
    let last = cur[cur.len() - 1];
    proof {
        assert(ints(cur@).last() == last);
    }
    last.checked_add(next_v)
}

/// The value that continues the history at its beginning; nothing if it
/// cannot be found with numbers that fit.
pub fn extrapolate_first(cur: &[i64]) -> (r: Option<i64>)
    ensures
        if prev_fits(ints(cur@)) {
            r == Some(prev_value(ints(cur@)) as i64) && fits(prev_value(ints(cur@)))
        } else {
            r.is_none()
        },
    decreases cur@.len(),
{
    if is_all_zero(cur) {
        return Some(0);
    }
    proof {
        if cur@.len() == 0 {
            assert(all_zero(ints(cur@)));
        }
    }
    let next = match differences(cur) {
        Some(next) => next,
        None => {
            return None;
        },
    };
    proof {
        assert(ints(next@).len() == next@.len());
        assert(diffs(ints(cur@)).len() == cur@.len() - 1);
    }
    let next_v = match extrapolate_first(next.as_slice()) {
        Some(v) => v,
        None => {
            return None;
        },
    };
    let first = cur[0];
    proof {
        assert(ints(cur@)[0] == first);
    }
    first.checked_sub(next_v)
}

/// The sum of the values that continue the histories of the first `k`
/// lines at their ends. Nothing if a line holds anything but numbers, or if
/// a value or the sum up to a line does not fit.
pub open spec fn sum_next(lines: Seq<Seq<u8>>, k: int) -> Option<int>
    decreases k,
{
    if k <= 0 {
        Some(0)
    } else {
        match (sum_next(lines, k - 1), line_readings(lines[k - 1])) {
            (Some(sum), Some(s)) => if next_fits(s) && fits(sum + next_value(s)) {
                Some(sum + next_value(s))
            } else {
                None
            },
            _ => None,
        }
    }
}

/// The same for the values that continue the histories at their
/// beginnings.
pub open spec fn sum_prev(lines: Seq<Seq<u8>>, k: int) -> Option<int>
    decreases k,
{
    if k <= 0 {
        Some(0)
    } else {
        match (sum_prev(lines, k - 1), line_readings(lines[k - 1])) {
            (Some(sum), Some(s)) => if prev_fits(s) && fits(sum + prev_value(s)) {
                Some(sum + prev_value(s))
            } else {
                None
            },
            _ => None,
        }
    }
}

proof fn lemma_sum_next_stuck(lines: Seq<Seq<u8>>, k: int, n: int)
    requires
        0 <= k <= n,
        sum_next(lines, k).is_none(),
    ensures
        sum_next(lines, n).is_none(),
    decreases n - k,
{
    if k < n {
        lemma_sum_next_stuck(lines, k, n - 1);
    }
}

proof fn lemma_sum_prev_stuck(lines: Seq<Seq<u8>>, k: int, n: int)
    requires
        0 <= k <= n,
        sum_prev(lines, k).is_none(),
    ensures
        sum_prev(lines, n).is_none(),
    decreases n - k,
{
    if k < n {
        lemma_sum_prev_stuck(lines, k, n - 1);
    }
}

/// The sum of the values that continue the histories at their ends.
pub fn part1(data: &str) -> (r: Option<i64>)
    ensures
        ({
            let lines = text_lines(data.spec_bytes());
            match sum_next(lines, lines.len() as int) {
                Some(v) => r == Some(v as i64) && fits(v),
                None => r.is_none(),
            }
        }),
{
    let lines = lines_of(data);
    let ghost rows = rows_of(lines@);
    let n = lines.len();
    let mut sum: i64 = 0;
    let mut k: usize = 0;
    while k < n
        invariant
            k <= n,
            n == lines@.len(),
            rows == rows_of(lines@),
            rows == text_lines(data.spec_bytes()),
            sum_next(rows, k as int) == Some(sum as int),
        decreases n - k,
    {
        proof {
            assert(rows[k as int] == lines@[k as int]@);
        }
        let step = match parse_line(lines[k].as_slice()) {
            Some(values) => match extrapolate_last(values.as_slice()) {
                Some(v) => sum.checked_add(v),
                None => None,
            },
            None => None,
        };
        match step {
            Some(next) => {
                sum = next;
            },
            None => {
                proof {
                    lemma_sum_next_stuck(rows, k + 1, n as int);
                }
                return None;
            },
        }
        k += 1;
    }
    Some(sum)
}

/// The sum of the values that continue the histories at their beginnings.
pub fn part2(data: &str) -> (r: Option<i64>)
    ensures
        ({
            let lines = text_lines(data.spec_bytes());
            match sum_prev(lines, lines.len() as int) {
                Some(v) => r == Some(v as i64) && fits(v),
                None => r.is_none(),
            }
        }),
{
    let lines = lines_of(data);
    let ghost rows = rows_of(lines@);
    let n = lines.len();
    let mut sum: i64 = 0;
    let mut k: usize = 0;
    while k < n
        invariant
            k <= n,
            n == lines@.len(),
            rows == rows_of(lines@),
            rows == text_lines(data.spec_bytes()),
            sum_prev(rows, k as int) == Some(sum as int),
        decreases n - k,
    {
        proof {
            assert(rows[k as int] == lines@[k as int]@);
        }
        let step = match parse_line(lines[k].as_slice()) {
            Some(values) => match extrapolate_first(values.as_slice()) {
                Some(v) => sum.checked_add(v),
                None => None,
            },
            None => None,
        };
        match step {
            Some(next) => {
                sum = next;
            },
            None => {
                proof {
                    lemma_sum_prev_stuck(rows, k + 1, n as int);
                }
                return None;
            },
        }
        k += 1;
    }
    Some(sum)
}

} // verus!
