//! Games with cubes of three colours. In each game several handfuls are
//! drawn from a bag and put back; the record of a game names the number of
//! cubes of each colour in each handful.

use vstd::prelude::*;
use vstd::string::StringSliceAdditionalSpecFns;
use crate::numbers::{parse_usize, unsigned};
use crate::words::{
    lines_of, rows_of, same_bytes, split_once, split_once_bytes, split_str, split_str_bytes,
    starts_with, strip_prefix, text_lines,
};

verus! {

/// The number of cubes of each colour in one handful, or in a bag.
#[derive(Clone, Copy, Debug, PartialEq, Eq, Structural)]
pub struct GameSet {
    pub red: usize,
    pub green: usize,
    pub blue: usize,
}

/// The same as a value of mathematics.
pub struct Cubes {
    pub red: nat,
    pub green: nat,
    pub blue: nat,
}

impl View for GameSet {
    type V = Cubes;

    open spec fn view(&self) -> Cubes {
        Cubes { red: self.red as nat, green: self.green as nat, blue: self.blue as nat }
    }
}

/// One entry of a handful: a number, a blank and the name of a colour. It
/// yields the handful with so many cubes of that colour more; nothing if
/// the entry reads otherwise or the number does not fit the machine word.
pub open spec fn with_entry(before: Cubes, entry: Seq<u8>) -> Option<Cubes> {
    match split_once(entry, " ".spec_bytes()) {
        Some((count, colour)) => match unsigned(count) {
            Some(n) => if n > usize::MAX {
                None
            } else if colour == "red".spec_bytes() {
                if before.red + n <= usize::MAX {
                    Some(Cubes { red: before.red + n, ..before })
                } else {
                    None
                }
            } else if colour == "green".spec_bytes() {
                if before.green + n <= usize::MAX {
                    Some(Cubes { green: before.green + n, ..before })
                } else {
                    None
                }
            } else if colour == "blue".spec_bytes() {
                if before.blue + n <= usize::MAX {
                    Some(Cubes { blue: before.blue + n, ..before })
                } else {
                    None
                }
            } else {
                None
            },
            None => None,
        },
        None => None,
    }
}

/// The handful that the first `k` entries make.
pub open spec fn handful_upto(entries: Seq<Seq<u8>>, k: int) -> Option<Cubes>
    decreases k,
{
    if k <= 0 {
        Some(Cubes { red: 0, green: 0, blue: 0 })
    } else {
        match handful_upto(entries, k - 1) {
            Some(before) => with_entry(before, entries[k - 1]),
            None => None,
        }
    }
}

/// The handful that a text names: its entries are parted by a comma and a
/// blank.
pub open spec fn handful(set: Seq<u8>) -> Option<Cubes> {
    let entries = split_str(set, ", ".spec_bytes());
    handful_upto(entries, entries.len() as int)
}

/// The number of the game and the texts of its handfuls. A record begins
/// with `Game`, a blank and the number; a colon and a blank follow, and then
/// the handfuls, parted by a semicolon and a blank.
pub open spec fn game(line: Seq<u8>) -> Option<(nat, Seq<Seq<u8>>)> {
    if starts_with(line, "Game ".spec_bytes()) {
        match split_once(line.skip("Game ".spec_bytes().len() as int), ": ".spec_bytes()) {
            Some((number, results)) => match unsigned(number) {
                Some(n) => if n <= usize::MAX {
                    Some((n, split_str(results, "; ".spec_bytes())))
                } else {
                    None
                },
                None => None,
            },
            None => None,
        }
    } else {
        None
    }
}

/// Whether a handful can be drawn from a bag.
pub open spec fn within(draw: Cubes, bag: Cubes) -> bool {
    draw.red <= bag.red && draw.green <= bag.green && draw.blue <= bag.blue
}

/// Whether the first `k` handfuls can be drawn from the bag. The handfuls
/// are read in order, and none is read behind one that cannot be drawn;
/// nothing is found if one that is read names no handful.
pub open spec fn possible_upto(sets: Seq<Seq<u8>>, bag: Cubes, k: int) -> Option<bool>
    decreases k,
{
    if k <= 0 {
        Some(true)
    } else {
        match possible_upto(sets, bag, k - 1) {
            Some(true) => match handful(sets[k - 1]) {
                Some(draw) => Some(within(draw, bag)),
                None => None,
            },
            other => other,
        }
    }
}

/// The least bag from which the first `k` handfuls can be drawn.
pub open spec fn least_bag(sets: Seq<Seq<u8>>, k: int) -> Option<Cubes>
    decreases k,
{
    if k <= 0 {
        Some(Cubes { red: 0, green: 0, blue: 0 })
    } else {
        match (least_bag(sets, k - 1), handful(sets[k - 1])) {
            (Some(bag), Some(draw)) => Some(
                Cubes {
                    red: if draw.red > bag.red {
                        draw.red
                    } else {
                        bag.red
                    },
                    green: if draw.green > bag.green {
                        draw.green
                    } else {
                        bag.green
                    },
                    blue: if draw.blue > bag.blue {
                        draw.blue
                    } else {
                        bag.blue
                    },
                },
            ),
            _ => None,
        }
    }
}

/// The bag of the first question.
pub open spec fn bag() -> Cubes {
    Cubes { red: 12, green: 13, blue: 14 }
}

/// The sum of the numbers of those of the first `k` games that can be
/// played with the bag. Nothing if a record cannot be read, or if the sum up
/// to a game does not fit the machine word.
pub open spec fn sum_possible(lines: Seq<Seq<u8>>, k: int) -> Option<nat>
    decreases k,
{
    if k <= 0 {
        Some(0)
    } else {
        match (sum_possible(lines, k - 1), game(lines[k - 1])) {
            (Some(sum), Some((id, sets))) => match possible_upto(sets, bag(), sets.len() as int) {
                Some(true) => if sum + id <= usize::MAX {
                    Some(sum + id)
                } else {
                    None
                },
                Some(false) => Some(sum),
                None => None,
            },
            _ => None,
        }
    }
}

/// The sum of the powers of the least bags of the first `k` games, the
/// power of a bag being the product of its three numbers. Nothing if a
/// record cannot be read, or if a product or the sum up to a game does not
/// fit the machine word.
pub open spec fn sum_powers(lines: Seq<Seq<u8>>, k: int) -> Option<nat>
    decreases k,
{
    if k <= 0 {
        Some(0)
    } else {
        match (sum_powers(lines, k - 1), game(lines[k - 1])) {
            (Some(sum), Some((id, sets))) => match least_bag(sets, sets.len() as int) {
                Some(b) => if b.red * b.green <= usize::MAX && b.red * b.green * b.blue
                    <= usize::MAX && sum + b.red * b.green * b.blue <= usize::MAX {
                    Some(sum + b.red * b.green * b.blue)
                } else {
                    None
                },
                None => None,
            },
            _ => None,
        }
    }
}

proof fn lemma_handful_stuck(entries: Seq<Seq<u8>>, k: int, n: int)
    requires
        0 <= k <= n,
        handful_upto(entries, k).is_none(),
    ensures
        handful_upto(entries, n).is_none(),
    decreases n - k,
{
    if k < n {
        lemma_handful_stuck(entries, k, n - 1);
    }
}

proof fn lemma_possible_stuck(sets: Seq<Seq<u8>>, bag: Cubes, k: int, n: int)
    requires
        0 <= k <= n,
        possible_upto(sets, bag, k) != Some(true),
    ensures
        possible_upto(sets, bag, n) == possible_upto(sets, bag, k),
    decreases n - k,
{
    if k < n {
        lemma_possible_stuck(sets, bag, k, n - 1);
    }
}

proof fn lemma_least_stuck(sets: Seq<Seq<u8>>, k: int, n: int)
    requires
        0 <= k <= n,
        least_bag(sets, k).is_none(),
    ensures
        least_bag(sets, n).is_none(),
    decreases n - k,
{
    if k < n {
        lemma_least_stuck(sets, k, n - 1);
    }
}

proof fn lemma_sum_possible_stuck(lines: Seq<Seq<u8>>, k: int, n: int)
    requires
        0 <= k <= n,
        sum_possible(lines, k).is_none(),
    ensures
        sum_possible(lines, n).is_none(),
    decreases n - k,
{
    if k < n {
        lemma_sum_possible_stuck(lines, k, n - 1);
    }
}

proof fn lemma_sum_powers_stuck(lines: Seq<Seq<u8>>, k: int, n: int)
    requires
        0 <= k <= n,
        sum_powers(lines, k).is_none(),
    ensures
        sum_powers(lines, n).is_none(),
    decreases n - k,
{
    if k < n {
        lemma_sum_powers_stuck(lines, k, n - 1);
    }
}

/// Adds one entry to a handful.
fn add_entry(before: GameSet, entry: &[u8]) -> (r: Option<GameSet>)
    ensures
        match with_entry(before@, entry@) {
            Some(c) => r.is_some() && r.unwrap()@ == c,
            None => r.is_none(),
        },
{
    let (count, colour) = match split_once_bytes(entry, " ".as_bytes()) {
        Some(parts) => parts,
        None => {
            return None;
        },
    };
    let n = match parse_usize(count) {
        Some(n) => n,
        None => {
            return None;
        },
    };
    if same_bytes(colour, "red".as_bytes()) {
        match before.red.checked_add(n) {
            Some(v) => Some(GameSet { red: v, green: before.green, blue: before.blue }),
            None => None,
        }
    } else if same_bytes(colour, "green".as_bytes()) {
        match before.green.checked_add(n) {
            Some(v) => Some(GameSet { red: before.red, green: v, blue: before.blue }),
            None => None,
        }
    } else if same_bytes(colour, "blue".as_bytes()) {
        match before.blue.checked_add(n) {
            Some(v) => Some(GameSet { red: before.red, green: before.green, blue: v }),
            None => None,
        }
    } else {
        None
    }
}

/// Reads a handful.
pub fn parse_set(set: &[u8]) -> (r: Option<GameSet>)
    ensures
        match handful(set@) {
            Some(c) => r.is_some() && r.unwrap()@ == c,
            None => r.is_none(),
        },
{
    let entries = split_str_bytes(set, ", ".as_bytes());
    let ghost rows = rows_of(entries@);
    let n = entries.len();
    let mut ret = GameSet { red: 0, green: 0, blue: 0 };
    let mut k: usize = 0;
    while k < n
        invariant
            k <= n,
            n == entries@.len(),
            rows == rows_of(entries@),
            rows == split_str(set@, ", ".spec_bytes()),
            handful_upto(rows, k as int) == Some(ret@),
        decreases n - k,
    {
        proof {
            assert(rows[k as int] == entries@[k as int]@);
        }
        match add_entry(ret, entries[k].as_slice()) {
            Some(next) => {
                ret = next;
            },
            None => {
                proof {
                    lemma_handful_stuck(rows, k + 1, n as int);
                }
                return None;
            },
        }
        k += 1;
    }
    Some(ret)
}

/// Reads the number of a game and the texts of its handfuls.
pub fn parse_game(line: &[u8]) -> (r: Option<(usize, Vec<Vec<u8>>)>)
    ensures
        match game(line@) {
            Some((id, sets)) => r.is_some() && r.unwrap().0 == id && rows_of(r.unwrap().1@) == sets,
            None => r.is_none(),
        },
{
    let rest = match strip_prefix(line, "Game ".as_bytes()) {
        Some(rest) => rest,
        None => {
            return None;
        },
    };
    let (number, results) = match split_once_bytes(rest, ": ".as_bytes()) {
        Some(parts) => parts,
        None => {
            return None;
        },
    };
    let id = match parse_usize(number) {
        Some(id) => id,
        None => {
            return None;
        },
    };
    Some((id, split_str_bytes(results, "; ".as_bytes())))
}

/// Whether the handfuls can be drawn from the bag.
fn all_within(sets: &Vec<Vec<u8>>, limit: GameSet) -> (r: Option<bool>)
    ensures
        r == possible_upto(rows_of(sets@), limit@, sets@.len() as int),
{
    let ghost rows = rows_of(sets@);
    let n = sets.len();
    let mut k: usize = 0;
    while k < n
        invariant
            k <= n,
            n == sets@.len(),
            rows == rows_of(sets@),
            possible_upto(rows, limit@, k as int) == Some(true),
        decreases n - k,
    {
        proof {
            assert(rows[k as int] == sets@[k as int]@);
        }
        match parse_set(sets[k].as_slice()) {
            Some(draw) => {
                if draw.red > limit.red || draw.green > limit.green || draw.blue > limit.blue {
                    proof {
                        lemma_possible_stuck(rows, limit@, k + 1, n as int);
                    }
                    return Some(false);
                }
            },
            None => {
                proof {
                    lemma_possible_stuck(rows, limit@, k + 1, n as int);
                }
                return None;
            },
        }
        k += 1;
    }
    Some(true)
}

/// The least bag from which the handfuls can be drawn.
fn least_of(sets: &Vec<Vec<u8>>) -> (r: Option<GameSet>)
    ensures
        match least_bag(rows_of(sets@), sets@.len() as int) {
            Some(c) => r.is_some() && r.unwrap()@ == c,
            None => r.is_none(),
        },
{
    let ghost rows = rows_of(sets@);
    let n = sets.len();
    let mut least = GameSet { red: 0, green: 0, blue: 0 };
    let mut k: usize = 0;
    while k < n
        invariant
            k <= n,
            n == sets@.len(),
            rows == rows_of(sets@),
            least_bag(rows, k as int) == Some(least@),
        decreases n - k,
    {
        proof {
            assert(rows[k as int] == sets@[k as int]@);
        }
        match parse_set(sets[k].as_slice()) {
            Some(draw) => {
                least = GameSet {
                    red: if draw.red > least.red {
                        draw.red
                    } else {
                        least.red
                    },
                    green: if draw.green > least.green {
                        draw.green
                    } else {
                        least.green
                    },
                    blue: if draw.blue > least.blue {
                        draw.blue
                    } else {
                        least.blue
                    },
                };
            },
            None => {
                proof {
                    lemma_least_stuck(rows, k + 1, n as int);
                }
                return None;
            },
        }
        k += 1;
    }
    Some(least)
}

/// The sum of the numbers of the games that can be played with a bag of 12
/// red, 13 green and 14 blue cubes.
pub fn part1(data: &str) -> (r: Option<usize>)
    ensures
        ({
            let lines = text_lines(data.spec_bytes());
            match sum_possible(lines, lines.len() as int) {
                Some(v) => r == Some(v as usize),
                None => r.is_none(),
            }
        }),
{
    let limit = GameSet { red: 12, green: 13, blue: 14 };
    let lines = lines_of(data);
    let ghost rows = rows_of(lines@);
    let n = lines.len();
    let mut sum: usize = 0;
    let mut k: usize = 0;
    while k < n
        invariant
            k <= n,
            n == lines@.len(),
            rows == rows_of(lines@),
            rows == text_lines(data.spec_bytes()),
            limit@ == bag(),
            sum_possible(rows, k as int) == Some(sum as nat),
        decreases n - k,
    {
        proof {
            assert(rows[k as int] == lines@[k as int]@);
        }
        let step = match parse_game(lines[k].as_slice()) {
            Some((id, sets)) => match all_within(&sets, limit) {
                Some(true) => sum.checked_add(id),
                Some(false) => Some(sum),
                None => None,
            },
            None => None,
        };
        match step {
            Some(next) => {
                sum = next;
            },
            None => {
                proof {
                    lemma_sum_possible_stuck(rows, k + 1, n as int);
                }
                return None;
            },
        }
        k += 1;
    }
    Some(sum)
}

/// The sum of the powers of the least bags of the games.
pub fn part2(data: &str) -> (r: Option<usize>)
    ensures
        ({
            let lines = text_lines(data.spec_bytes());
            match sum_powers(lines, lines.len() as int) {
                Some(v) => r == Some(v as usize),
                None => r.is_none(),
            }
        }),
{
    let lines = lines_of(data);
    let ghost rows = rows_of(lines@);
    let n = lines.len();
    let mut sum: usize = 0;
    let mut k: usize = 0;
    while k < n
        invariant
            k <= n,
            n == lines@.len(),
            rows == rows_of(lines@),
            rows == text_lines(data.spec_bytes()),
            sum_powers(rows, k as int) == Some(sum as nat),
        decreases n - k,
    {
        proof {
            assert(rows[k as int] == lines@[k as int]@);
        }
        let step = match parse_game(lines[k].as_slice()) {
            Some((_, sets)) => match least_of(&sets) {
                Some(b) => match b.red.checked_mul(b.green) {
                    Some(rg) => match rg.checked_mul(b.blue) {
                        Some(power) => sum.checked_add(power),
                        None => None,
                    },
                    None => None,
                },
                None => None,
            },
            None => None,
        };
        match step {
            Some(next) => {
                sum = next;
            },
            None => {
                proof {
                    lemma_sum_powers_stuck(rows, k + 1, n as int);
                }
                return None;
            },
        }
        k += 1;
    }
    Some(sum)
}

} // verus!
