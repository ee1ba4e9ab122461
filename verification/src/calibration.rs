//! Calibration values hidden in lines of text: the first and the last digit
//! of each line make a number of two digits, and the numbers are added up.
//! In a second reading the words from `one` to `nine` count as digits too.

use vstd::prelude::*;
use vstd::slice::slice_subrange;
use vstd::string::StringSliceAdditionalSpecFns;
use crate::numbers::is_digit;
use crate::words::{lines_of, rows_of, same_bytes, starts_with, text_lines};

verus! {

/// The word for the digit `k + 1`.
pub open spec fn name(k: int) -> Seq<u8> {
    if k == 0 {
        "one".spec_bytes()
    } else if k == 1 {
        "two".spec_bytes()
    } else if k == 2 {
        "three".spec_bytes()
    } else if k == 3 {
        "four".spec_bytes()
    } else if k == 4 {
        "five".spec_bytes()
    } else if k == 5 {
        "six".spec_bytes()
    } else if k == 6 {
        "seven".spec_bytes()
    } else if k == 7 {
        "eight".spec_bytes()
    } else {
        "nine".spec_bytes()
    }
}

/// The digit whose word begins at place `i` of the line, looking at the
/// words from the `k`-th on.
pub open spec fn spelled_from(line: Seq<u8>, i: int, k: int) -> Option<nat>
    decreases 9 - k,
{
    if k >= 9 || k < 0 {
        None
    } else if starts_with(line.skip(i), name(k)) {
        Some((k + 1) as nat)
    } else {
        spelled_from(line, i, k + 1)
    }
}

/// The digit at place `i` of the line: the digit that stands there, or, if
/// `words` is set, the digit whose word begins there.
pub open spec fn value_at(line: Seq<u8>, i: int, words: bool) -> Option<nat> {
    if is_digit(line[i]) {
        Some((line[i] - 48) as nat)
    } else if words {
        spelled_from(line, i, 0)
    } else {
        None
    }
}

/// The first and the last digit among the first `k` places of the line, if
/// there is one.
pub open spec fn ends(line: Seq<u8>, k: int, words: bool) -> Option<(nat, nat)>
    decreases k,
{
    if k <= 0 {
        None
    } else {
        match (ends(line, k - 1, words), value_at(line, k - 1, words)) {
            (Some(e), Some(v)) => Some((e.0, v)),
            (None, Some(v)) => Some((v, v)),
            (before, None) => before,
        }
    }
}

/// The calibration value of a line: ten times its first digit and its last.
pub open spec fn line_value(line: Seq<u8>, words: bool) -> Option<nat> {
    match ends(line, line.len() as int, words) {
        Some(e) => Some(e.0 * 10 + e.1),
        None => None,
    }
}

/// The sum of the calibration values of the first `k` lines, if each of
/// them has a digit.
pub open spec fn total(lines: Seq<Seq<u8>>, k: int, words: bool) -> Option<nat>
    decreases k,
{
    if k <= 0 {
        Some(0)
    } else {
        match (total(lines, k - 1, words), line_value(lines[k - 1], words)) {
            (Some(sum), Some(v)) => Some(sum + v),
            _ => None,
        }
    }
}

/// A sum that is there for all lines is there for the first of them, and
/// is no less.
proof fn lemma_total_grows(lines: Seq<Seq<u8>>, k: int, n: int, words: bool)
    requires
        0 <= k <= n,
    ensures
        total(lines, k, words).is_none() ==> total(lines, n, words).is_none(),
        total(lines, n, words).is_some() ==> total(lines, k, words).is_some() && total(
            lines,
            k,
            words,
        ).unwrap() <= total(lines, n, words).unwrap(),
    decreases n - k,
{
    if k < n {
        lemma_total_grows(lines, k, n - 1, words);
    }
}

/// The word for the digit `k + 1`.
fn name_bytes(k: usize) -> (r: &'static [u8])
    requires
        k < 9,
    ensures
        r@ == name(k as int),
{
    if k == 0 {
        "one".as_bytes()
    } else if k == 1 {
        "two".as_bytes()
    } else if k == 2 {
        "three".as_bytes()
    } else if k == 3 {
        "four".as_bytes()
    } else if k == 4 {
        "five".as_bytes()
    } else if k == 5 {
        "six".as_bytes()
    } else if k == 6 {
        "seven".as_bytes()
    } else if k == 7 {
        "eight".as_bytes()
    } else {
        "nine".as_bytes()
    }
}

/// The digit whose word begins at place `i` of the line.
fn spelled(line: &[u8], i: usize) -> (r: Option<u8>)
    requires
        i < line@.len(),
    ensures
        match spelled_from(line@, i as int, 0) {
            Some(v) => r == Some(v as u8) && 1 <= v <= 9,
            None => r.is_none(),
        },
{
    let rest = slice_subrange(line, i, line.len());
    proof {
        assert(rest@ =~= line@.skip(i as int));
    }
    let mut k: usize = 0;
    while k < 9
        invariant
            k <= 9,
            rest@ == line@.skip(i as int),
            spelled_from(line@, i as int, 0) == spelled_from(line@, i as int, k as int),
        decreases 9 - k,
    {
        let word = name_bytes(k);
        if rest.len() >= word.len() {
            let head = slice_subrange(rest, 0, word.len());
            proof {
                assert(head@ =~= rest@.take(word@.len() as int));
            }
            if same_bytes(head, word) {
                return Some((k + 1) as u8);
            }
        }
        k += 1;
    }
    None
}

/// The digit at place `i` of the line.
fn digit_at(line: &[u8], i: usize, words: bool) -> (r: Option<u8>)
    requires
        i < line@.len(),
    ensures
        match value_at(line@, i as int, words) {
            Some(v) => r == Some(v as u8) && v <= 9,
            None => r.is_none(),
        },
{
    let b = line[i];
    if 48 <= b && b <= 57 {
        Some(b - 48)
    } else if words {
        spelled(line, i)
    } else {
        None
    }
}

/// The calibration value of a line.
pub fn calibration_value(line: &[u8], words: bool) -> (r: Option<u8>)
    ensures
        match line_value(line@, words) {
            Some(v) => r == Some(v as u8) && v <= 99,
            None => r.is_none(),
        },
{
    let n = line.len();
    let mut found: Option<(u8, u8)> = None;
    let mut i: usize = 0;
    while i < n
        invariant
            i <= n,
            n == line@.len(),
            match ends(line@, i as int, words) {
                Some(e) => found == Some((e.0 as u8, e.1 as u8)) && e.0 <= 9 && e.1 <= 9,
                None => found.is_none(),
            },
        decreases n - i,
    {
        match digit_at(line, i, words) {
            Some(v) => {
                found = match found {
                    Some(e) => Some((e.0, v)),
                    None => Some((v, v)),
                };
            },
            None => {},
        }
        i += 1;
    }
    match found {
        Some(e) => Some(e.0 * 10 + e.1),
        None => None,
    }
}

/// The sum of the calibration values of the lines of a text.
fn sum_lines(data: &str, words: bool) -> (r: Option<u64>)
    ensures
        ({
            let lines = text_lines(data.spec_bytes());
            match total(lines, lines.len() as int, words) {
                Some(v) => if v <= u64::MAX {
                    r == Some(v as u64)
                } else {
                    r.is_none()
                },
                None => r.is_none(),
            }
        }),
{
    let lines = lines_of(data);
    let ghost rows = rows_of(lines@);
    let n = lines.len();
    let mut sum: u64 = 0;
    let mut k: usize = 0;
    while k < n
        invariant
            k <= n,
            n == lines@.len(),
            rows == rows_of(lines@),
            rows == text_lines(data.spec_bytes()),
            total(rows, k as int, words) == Some(sum as nat),
        decreases n - k,
    {
        proof {
            assert(rows[k as int] == lines@[k as int]@);
            lemma_total_grows(rows, k + 1, n as int, words);
        }
        let step = match calibration_value(lines[k].as_slice(), words) {
            Some(v) => sum.checked_add(v as u64),
            None => None,
        };
        match step {
            Some(next) => {
                sum = next;
            },
            None => {
                return None;
            },
        }
        k += 1;
    }
    Some(sum)
}

/// The sum of the calibration values, read from the digits alone. Nothing
/// if a line has no digit or the sum does not fit.
pub fn part1(data: &str) -> (r: Option<u64>)
    ensures
        ({
            let lines = text_lines(data.spec_bytes());
            match total(lines, lines.len() as int, false) {
                Some(v) => if v <= u64::MAX {
                    r == Some(v as u64)
                } else {
                    r.is_none()
                },
                None => r.is_none(),
            }
        }),
{
    sum_lines(data, false)
}

/// The sum of the calibration values, read from the digits and the words
/// for them. Nothing if a line has neither or the sum does not fit.
pub fn part2(data: &str) -> (r: Option<usize>)
    ensures
        ({
            let lines = text_lines(data.spec_bytes());
            match total(lines, lines.len() as int, true) {
                Some(v) => if v <= usize::MAX {
                    r == Some(v as usize)
                } else {
                    r.is_none()
                },
                None => r.is_none(),
            }
        }),
{
    match sum_lines(data, true) {
        Some(v) => {
            if v <= usize::MAX as u64 {
                Some(v as usize)
            } else {
                None
            }
        },
        None => None,
    }
}

} // verus!
