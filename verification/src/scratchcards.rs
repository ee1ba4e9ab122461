//! Scratchcards. Each card names winning numbers and the numbers that its
//! owner has; the numbers on a card stand in columns of three characters.

use vstd::prelude::*;
use vstd::slice::slice_subrange;
use vstd::string::StringSliceAdditionalSpecFns;
use crate::numbers::{parse_usize, unsigned};
use crate::text::trimmed;
use crate::words::{lines_of, rows_of, split_once, split_once_bytes, text_lines, trim_bytes};

verus! {

/// The `k`-th column of three characters of `s`, which may be shorter at
/// the end of `s`.
pub open spec fn column(s: Seq<u8>, k: int) -> Seq<u8> {
    s.subrange(
        3 * k,
        if 3 * k + 3 <= s.len() {
            3 * k + 3
        } else {
            s.len() as int
        },
    )
}

/// The number of columns of `s`.
pub open spec fn columns(s: Seq<u8>) -> int {
    (s.len() as int + 2) / 3
}

/// The numbers in the first `k` columns of `s`, each without the white
/// space around it. Nothing if a column holds no number, or too great a
/// one.
pub open spec fn numbers_upto(s: Seq<u8>, k: int) -> Option<Seq<nat>>
    decreases k,
{
    if k <= 0 {
        Some(Seq::empty())
    } else {
        match (numbers_upto(s, k - 1), unsigned(trimmed(column(s, k - 1)))) {
            (Some(before), Some(v)) => if v <= usize::MAX {
                Some(before.push(v))
            } else {
                None
            },
            _ => None,
        }
    }
}

/// The numbers of `s`.
pub open spec fn numbers(s: Seq<u8>) -> Option<Seq<nat>> {
    numbers_upto(s, columns(s))
}

/// The winning numbers of a card and the numbers that its owner has: they
/// follow the first colon and blank of the line, and a blank, a bar and a
/// blank part them.
pub open spec fn card(line: Seq<u8>) -> Option<(Seq<nat>, Seq<nat>)> {
    match split_once(line, ": ".spec_bytes()) {
        Some((_, both)) => match split_once(both, " | ".spec_bytes()) {
            Some((win, your)) => match (numbers(win), numbers(your)) {
                (Some(w), Some(y)) => Some((w, y)),
                _ => None,
            },
            None => None,
        },
        None => None,
    }
}

/// Whether `v` is among the first `k` numbers of the list.
pub open spec fn among(list: Seq<nat>, v: nat, k: int) -> bool {
    exists|j: int| 0 <= j < k && j < list.len() && #[trigger] list[j] == v
}

/// The number of different numbers among the first `k` winning numbers that
/// the owner has.
pub open spec fn matches(win: Seq<nat>, your: Seq<nat>, k: int) -> nat
    decreases k,
{
    if k <= 0 {
        0
    } else {
        matches(win, your, k - 1) + if !among(win, win[k - 1], k - 1) && among(
            your,
            win[k - 1],
            your.len() as int,
        ) {
            1nat
        } else {
            0
        }
    }
}

/// The number of winning numbers that the owner of a card has.
pub open spec fn winners(c: (Seq<nat>, Seq<nat>)) -> nat {
    matches(c.0, c.1, c.0.len() as int)
}

/// Two to the power of `k`.
pub open spec fn two_to(k: nat) -> nat
    decreases k,
{
    if k == 0 {
        1
    } else {
        2 * two_to((k - 1) as nat)
    }
}

/// The points of a card with `count` winning numbers: one for the first,
/// and twice as many with each one more.
pub open spec fn points(count: nat) -> nat {
    if count == 0 {
        0
    } else {
        two_to((count - 1) as nat)
    }
}

/// The sum of the points of the first `k` cards, if each can be read.
pub open spec fn total_points(lines: Seq<Seq<u8>>, k: int) -> Option<nat>
    decreases k,
{
    if k <= 0 {
        Some(0)
    } else {
        match (total_points(lines, k - 1), card(lines[k - 1])) {
            (Some(sum), Some(c)) => Some(sum + points(winners(c))),
            _ => None,
        }
    }
}

/// The numbers of winning numbers of the first `k` cards, if each can be
/// read.
pub open spec fn all_winners(lines: Seq<Seq<u8>>, k: int) -> Option<Seq<nat>>
    decreases k,
{
    if k <= 0 {
        Some(Seq::empty())
    } else {
        match (all_winners(lines, k - 1), card(lines[k - 1])) {
            (Some(before), Some(c)) => Some(before.push(winners(c))),
            _ => None,
        }
    }
}

/// The numbers of cards after the copies of card `i` have each won one copy
/// of each of the `v` cards behind it.
pub open spec fn won(counts: Seq<nat>, i: int, v: nat) -> Seq<nat> {
    Seq::new(
        counts.len(),
        |x: int|
            if i < x <= i + v {
                counts[x] + counts[i]
            } else {
                counts[x]
            },
    )
}

/// The numbers of cards after the first `k` cards have won their copies,
/// beginning with one of each. Nothing if a card wins more cards than lie
/// behind it.
pub open spec fn copies(values: Seq<nat>, k: int) -> Option<Seq<nat>>
    decreases k,
{
    if k <= 0 {
        Some(Seq::new(values.len(), |x: int| 1nat))
    } else {
        match copies(values, k - 1) {
            Some(counts) => if values[k - 1] <= values.len() - k {
                Some(won(counts, k - 1, values[k - 1]))
            } else {
                None
            },
            None => None,
        }
    }
}

/// The sum of the first `k` numbers.
pub open spec fn sum_upto(counts: Seq<nat>, k: int) -> nat
    decreases k,
{
    if k <= 0 {
        0
    } else {
        sum_upto(counts, k - 1) + counts[k - 1]
    }
}

/// The number of cards in the end, the copies counted.
pub open spec fn total_cards(lines: Seq<Seq<u8>>) -> Option<nat> {
    match all_winners(lines, lines.len() as int) {
        Some(values) => match copies(values, values.len() as int) {
            Some(counts) => Some(sum_upto(counts, counts.len() as int)),
            None => None,
        },
        None => None,
    }
}

/// The numbers of a vector.
pub open spec fn nats(v: Seq<usize>) -> Seq<nat> {
    Seq::new(v.len(), |i: int| v[i] as nat)
}

/// A list of numbers read from a card.
pub struct NumberSet {
    pub num: Vec<usize>,
}

/// A card: its winning numbers, and the numbers that its owner has.
pub struct Card {
    pub win: NumberSet,
    pub your: NumberSet,
}

impl View for Card {
    type V = (Seq<nat>, Seq<nat>);

    open spec fn view(&self) -> (Seq<nat>, Seq<nat>) {
        (nats(self.win.num@), nats(self.your.num@))
    }
}

proof fn lemma_numbers_stuck(s: Seq<u8>, k: int, n: int)
    requires
        0 <= k <= n,
        numbers_upto(s, k).is_none(),
    ensures
        numbers_upto(s, n).is_none(),
    decreases n - k,
{
    if k < n {
        lemma_numbers_stuck(s, k, n - 1);
    }
}

impl NumberSet {
    /// Reads the numbers from the columns of `input`.
    pub fn from_input(input: &[u8]) -> (r: Option<NumberSet>)
        ensures
            match numbers(input@) {
                Some(s) => r.is_some() && nats(r.unwrap().num@) == s,
                None => r.is_none(),
            },
    {
        let n = input.len();
        let count = n / 3 + if n % 3 == 0 {
            0
        } else {
            1
        };
        let mut out: Vec<usize> = Vec::new();
        let mut k: usize = 0;
        proof {
            assert(nats(out@) =~= Seq::<nat>::empty());
        }
        while k < count
            invariant
                n == input@.len(),
                count == columns(input@),
                k <= count,
                numbers_upto(input@, k as int) == Some(nats(out@)),
            decreases count - k,
        {
            let at = 3 * k;
            let end = if n - at >= 3 {
                at + 3
            } else {
                n
            };
            let piece = slice_subrange(input, at, end);
            let ghost before = nats(out@);
            proof {
                assert(piece@ =~= column(input@, k as int));
            }
            match parse_usize(trim_bytes(piece)) {
                Some(v) => {
                    out.push(v);
                    proof {
                        assert(nats(out@) =~= before.push(v as nat));
                    }
                },
                None => {
                    proof {
                        lemma_numbers_stuck(input@, k + 1, count as int);
                    }
                    return None;
                },
            }
            k += 1;
        }
        Some(NumberSet { num: out })
    }
}

/// Whether `v` is among the first `k` numbers of the list.
fn is_among(list: &Vec<usize>, v: usize, k: usize) -> (r: bool)
    requires
        k <= list@.len(),
    ensures
        r == among(nats(list@), v as nat, k as int),
{
    let mut j: usize = 0;
    while j < k
        invariant
            j <= k <= list@.len(),
            forall|i: int| 0 <= i < j ==> (#[trigger] nats(list@)[i]) != v as nat,
        decreases k - j,
    {
        if list[j] == v {
            proof {
                assert(nats(list@)[j as int] == v as nat);
            }
            return true;
        }
        j += 1;
    }
    false
}

impl Card {
    /// Reads a card from its line.
    pub fn from_line(line: &[u8]) -> (r: Option<Card>)
        ensures
            match card(line@) {
                Some(c) => r.is_some() && r.unwrap()@ == c,
                None => r.is_none(),
            },
    {
        let both = match split_once_bytes(line, ": ".as_bytes()) {
            Some(parts) => parts.1,
            None => {
                return None;
            },
        };
        let (win, your) = match split_once_bytes(both, " | ".as_bytes()) {
            Some(parts) => parts,
            None => {
                return None;
            },
        };
        let win = match NumberSet::from_input(win) {
            Some(set) => set,
            None => {
                return None;
            },
        };
        let your = match NumberSet::from_input(your) {
            Some(set) => set,
            None => {
                return None;
            },
        };
        Some(Card { win, your })
    }

    /// The number of winning numbers that the owner of the card has.
    pub fn num_winners(&self) -> (n: usize)
        ensures
            n == winners(self@),
    {
        let total = self.win.num.len();
        let mut count: usize = 0;
        let mut k: usize = 0;
        while k < total
            invariant
                k <= total,
                total == self.win.num@.len(),
                count == matches(self@.0, self@.1, k as int),
                count <= k,
            decreases total - k,
        {
            let v = self.win.num[k];
            proof {
                assert(self@.0[k as int] == v as nat);
            }
            if !is_among(&self.win.num, v, k) && is_among(&self.your.num, v, self.your.num.len()) {
                count += 1;
            }
            k += 1;
        }
        count
    }
}

/// The points of a card with `count` winning numbers, if they fit the
/// machine word.
fn points_of(count: usize) -> (r: Option<usize>)
    ensures
        if points(count as nat) <= usize::MAX {
            r == Some(points(count as nat) as usize)
        } else {
            r.is_none()
        },
{
    if count == 0 {
        return Some(0);
    }
    let mut p: usize = 1;
    let mut k: usize = 1;
    while k < count
        invariant
            1 <= k <= count,
            p == two_to((k - 1) as nat),
        decreases count - k,
    {
        p = match p.checked_mul(2) {
            Some(next) => next,
            None => {
                proof {
                    lemma_two_to_grows(k as nat, (count - 1) as nat);
                }
                return None;
            },
        };
        k += 1;
    }
    Some(p)
}

proof fn lemma_two_to_grows(a: nat, b: nat)
    requires
        a <= b,
    ensures
        two_to(a) <= two_to(b),
    decreases b - a,
{
    if a < b {
        lemma_two_to_grows(a, (b - 1) as nat);
    }
}

proof fn lemma_points_grow(lines: Seq<Seq<u8>>, k: int, n: int)
    requires
        0 <= k <= n,
    ensures
        total_points(lines, k).is_none() ==> total_points(lines, n).is_none(),
        total_points(lines, n).is_some() ==> total_points(lines, k).is_some() && total_points(
            lines,
            k,
        ).unwrap() <= total_points(lines, n).unwrap(),
    decreases n - k,
{
    if k < n {
        lemma_points_grow(lines, k, n - 1);
    }
}

/// The sum of the points of the cards. Nothing if a card cannot be read or
/// the sum does not fit the machine word.
pub fn part1(data: &str) -> (r: Option<usize>)
    ensures
        ({
            let lines = text_lines(data.spec_bytes());
            match total_points(lines, lines.len() as int) {
                Some(v) => if v <= usize::MAX {
                    r == Some(v as usize)
                } else {
                    r.is_none()
                },
                None => r.is_none(),
            }
        }),
{
    let lines = lines_of(data);
    let ghost rows = rows_of(lines@);
    let n = lines.len();
    let mut sum: usize = 0;
    let mut k: usize = 0;
    while k < n
        invariant
            k <= n,
            n == lines@.len(),
            rows == rows_of(lines@),
            rows == text_lines(data.spec_bytes()),
            total_points(rows, k as int) == Some(sum as nat),
        decreases n - k,
    {
        proof {
            assert(rows[k as int] == lines@[k as int]@);
            lemma_points_grow(rows, k + 1, n as int);
        }
        let step = match Card::from_line(lines[k].as_slice()) {
            Some(card) => match points_of(card.num_winners()) {
                Some(p) => sum.checked_add(p),
                None => None,
            },
            None => None,
        };
        match step {
            Some(next) => {
                sum = next;
            },
            None => {
                return None;
            },
        }
        k += 1;
    }
    Some(sum)
}

proof fn lemma_winners_stuck(lines: Seq<Seq<u8>>, k: int, n: int)
    requires
        0 <= k <= n,
        all_winners(lines, k).is_none(),
    ensures
        all_winners(lines, n).is_none(),
    decreases n - k,
{
    if k < n {
        lemma_winners_stuck(lines, k, n - 1);
    }
}

proof fn lemma_copies_stuck(values: Seq<nat>, k: int, n: int)
    requires
        0 <= k <= n,
        copies(values, k).is_none(),
    ensures
        copies(values, n).is_none(),
    decreases n - k,
{
    if k < n {
        lemma_copies_stuck(values, k, n - 1);
    }
}

/// The numbers of cards never fall, and there are as many as cards.
proof fn lemma_copies_grow(values: Seq<nat>, k: int, n: int, x: int)
    requires
        0 <= k <= n,
        copies(values, n).is_some(),
        0 <= x < values.len(),
    ensures
        copies(values, k).is_some(),
        copies(values, k).unwrap().len() == values.len(),
        copies(values, n).unwrap().len() == values.len(),
        copies(values, k).unwrap()[x] <= copies(values, n).unwrap()[x],
    decreases n - k,
{
    if k < n {
        lemma_copies_grow(values, k, n - 1, x);
        lemma_copies_len(values, n - 1);
    } else {
        lemma_copies_len(values, n);
    }
}

proof fn lemma_copies_len(values: Seq<nat>, k: int)
    requires
        copies(values, k).is_some(),
    ensures
        copies(values, k).unwrap().len() == values.len(),
    decreases k,
{
    if k > 0 {
        lemma_copies_len(values, k - 1);
    }
}

/// A sum is no less than each of its terms, and than each of its
/// beginnings.
proof fn lemma_sum_bounds(counts: Seq<nat>, k: int, x: int)
    requires
        0 <= x < k,
    ensures
        counts[x] <= sum_upto(counts, k),
        sum_upto(counts, x) <= sum_upto(counts, k),
    decreases k,
{
    if x < k - 1 {
        lemma_sum_bounds(counts, k - 1, x);
    }
}

/// The number of cards in the end, where each card wins one copy of each of
/// as many cards behind it as its owner has winning numbers. Nothing if a
/// card cannot be read, if a card wins more cards than lie behind it, or if
/// the number does not fit the machine word.
pub fn part2(data: &str) -> (r: Option<usize>)
    ensures
        match total_cards(text_lines(data.spec_bytes())) {
            Some(v) => if v <= usize::MAX {
                r == Some(v as usize)
            } else {
                r.is_none()
            },
            None => r.is_none(),
        },
{
    let lines = lines_of(data);
    let ghost rows = rows_of(lines@);
    let n = lines.len();
    let mut values: Vec<usize> = Vec::new();
    let mut k: usize = 0;
    proof {
        assert(nats(values@) =~= Seq::<nat>::empty());
    }
    while k < n
        invariant
            k <= n,
            n == lines@.len(),
            rows == rows_of(lines@),
            rows == text_lines(data.spec_bytes()),
            values@.len() == k,
            all_winners(rows, k as int) == Some(nats(values@)),
        decreases n - k,
    {
        let ghost before = nats(values@);
        proof {
            assert(rows[k as int] == lines@[k as int]@);
        }
        match Card::from_line(lines[k].as_slice()) {
            Some(card) => {
                values.push(card.num_winners());
                proof {
                    assert(nats(values@) =~= before.push(winners(card@)));
                }
            },
            None => {
                proof {
                    lemma_winners_stuck(rows, k + 1, n as int);
                }
                return None;
            },
        }
        k += 1;
    }
    let ghost wins = nats(values@);
    proof {
        assert(rows.len() == n);
    }
    let mut counts: Vec<usize> = Vec::new();
    let mut i: usize = 0;
    while i < n
        invariant
            i <= n,
            counts@.len() == i,
            forall|x: int| 0 <= x < i ==> (#[trigger] counts@[x]) == 1,
        decreases n - i,
    {
        counts.push(1);
        i += 1;
    }
    proof {
        assert(nats(counts@) =~= copies(wins, 0).unwrap());
    }
    let mut i: usize = 0;
    while i < n
        invariant
            i <= n,
            n == values@.len(),
            n == counts@.len(),
            wins == nats(values@),
            rows == text_lines(data.spec_bytes()),
            rows.len() == n,
            all_winners(rows, n as int) == Some(wins),
            copies(wins, i as int) == Some(nats(counts@)),
        decreases n - i,
    {
        let v = values[i];
        let base = counts[i];
        let ghost start = nats(counts@);
        proof {
            assert(wins[i as int] == v as nat);
        }
        if v > n - i - 1 {
            proof {
                lemma_copies_stuck(wins, i + 1, n as int);
            }
            return None;
        }
        let mut x: usize = i + 1;
        while x <= i + v
            invariant
                i < n,
                n == values@.len(),
                n == counts@.len(),
                wins == nats(values@),
                v <= n - i - 1,
                i + 1 <= x <= i + v + 1,
                base == start[i as int],
                start.len() == n,
                rows == text_lines(data.spec_bytes()),
                rows.len() == n,
                all_winners(rows, n as int) == Some(wins),
                copies(wins, i as int) == Some(start),
                wins[i as int] == v as nat,
                forall|c: int|
                    0 <= c < n ==> (#[trigger] nats(counts@)[c]) == if i < c < x {
                        start[c] + start[i as int]
                    } else {
                        start[c]
                    },
            decreases i + v + 1 - x,
        {
            let ghost mid = nats(counts@);
            match counts[x].checked_add(base) {
                Some(next) => {
                    counts.set(x, next);
                    proof {
                        assert forall|c: int| 0 <= c < n
                            implies (#[trigger] nats(counts@)[c]) == if i
                            < c < x + 1 {
                            start[c] + start[i as int]
                        } else {
                            start[c]
                        } by {
                            assert(mid[c] == if i < c < x {
                                start[c] + start[i as int]
                            } else {
                                start[c]
                            });
                        }
                    }
                },
                None => {
                    proof {
                        assert(mid[x as int] == start[x as int]);
                        let after = won(start, i as int, v as nat);
                        assert(copies(wins, i + 1) == Some(after));
                        assert(after[x as int] > usize::MAX);
                        if copies(wins, n as int).is_some() {
                            lemma_copies_grow(wins, i + 1, n as int, x as int);
                            let last = copies(wins, n as int).unwrap();
                            lemma_sum_bounds(last, n as int, x as int);
                        }
                    }
                    return None;
                },
            }
            x += 1;
        }
        proof {
            assert(nats(counts@) =~= won(start, i as int, v as nat));
        }
        i += 1;
    }
    let ghost last = nats(counts@);
    let mut total: usize = 0;
    let mut i: usize = 0;
    while i < n
        invariant
            i <= n,
            n == counts@.len(),
            last == nats(counts@),
            rows == text_lines(data.spec_bytes()),
            rows.len() == n,
            all_winners(rows, n as int) == Some(wins),
            wins.len() == n,
            copies(wins, n as int) == Some(last),
            total == sum_upto(last, i as int),
        decreases n - i,
    {
        proof {
            assert(last[i as int] == counts@[i as int]);
            if i + 1 < n {
                lemma_sum_bounds(last, n as int, i + 1);
            }
        }
        total = match total.checked_add(counts[i]) {
            Some(next) => next,
            None => {
                return None;
            },
        };
        i += 1;
    }
    Some(total)
}

} // verus!
