//! Hands of five cards with a bid each. The hands are ranked by their kind
//! and then card by card, and each wins its bid times its rank.

use vstd::prelude::*;
use vstd::string::StringSliceAdditionalSpecFns;
use crate::numbers::{parse_usize, unsigned};
use crate::words::{lines_of, rows_of, split_once, split_once_bytes, text_lines};

verus! {

/// The value of a joker.
pub const JOKER: u8 = 1;

/// A card, by its value.
#[derive(Clone, Copy, Debug, PartialEq, Eq, Structural)]
pub struct Card(pub u8);

/// The value of the card with the symbol `b`: the digits from 2 to 9 count
/// as they read, `T` ten, `Q` twelve, `K` thirteen and `A` fourteen; `J` is
/// eleven, or a joker where `wild` is set. Any other symbol counts nothing.
pub open spec fn card_value(b: u8, wild: bool) -> u8 {
    if 50 <= b <= 57 {
        (b - 48) as u8
    } else if b == 84 {
        10
    } else if b == 74 {
        if wild {
            JOKER
        } else {
            11
        }
    } else if b == 81 {
        12
    } else if b == 75 {
        13
    } else if b == 65 {
        14
    } else {
        0
    }
}

/// The number of pairs of equal cards among the first `i` cards and the
/// card in place `i`, jokers left out.
pub open spec fn pairs_with(cards: Seq<u8>, i: int, j: int) -> nat
    decreases j,
{
    if j <= 0 {
        0
    } else {
        pairs_with(cards, i, j - 1) + if cards[j - 1] == cards[i] && cards[i] != JOKER {
            1nat
        } else {
            0
        }
    }
}

/// The number of pairs of equal cards among the first `k` cards, jokers
/// left out.
pub open spec fn pairs(cards: Seq<u8>, k: int) -> nat
    decreases k,
{
    if k <= 0 {
        0
    } else {
        pairs(cards, k - 1) + pairs_with(cards, k - 1, k - 1)
    }
}

/// The number of jokers among the first `k` cards.
pub open spec fn jokers(cards: Seq<u8>, k: int) -> nat
    decreases k,
{
    if k <= 0 {
        0
    } else {
        jokers(cards, k - 1) + if cards[k - 1] == JOKER {
            1nat
        } else {
            0
        }
    }
}

/// The kind of a hand of five cards with `p` pairs of equal cards and `j`
/// jokers, where the jokers count as the card of which the hand has most:
/// 7 for five of a kind, 6 for four of a kind, 5 for a full house, 4 for
/// three of a kind, 3 for two pairs, 2 for one pair and 1 for none.
///
/// Five equal cards make ten pairs, four make six, a full house four,
/// three equal cards three, two pairs two. With one joker, the four other
/// cards make six pairs, three, two, one or none, and the hand is five of
/// a kind, four of a kind, a full house, three of a kind or a pair; and so
/// on for more jokers.
pub open spec fn kind(p: nat, j: nat) -> nat {
    if j >= 4 {
        7
    } else if j == 3 {
        if p >= 1 {
            7
        } else {
            6
        }
    } else if j == 2 {
        if p >= 3 {
            7
        } else if p >= 1 {
            6
        } else {
            4
        }
    } else if j == 1 {
        if p >= 6 {
            7
        } else if p >= 3 {
            6
        } else if p == 2 {
            5
        } else if p == 1 {
            4
        } else {
            2
        }
    } else {
        if p >= 10 {
            7
        } else if p >= 6 {
            6
        } else if p >= 4 {
            5
        } else if p == 3 {
            4
        } else if p == 2 {
            3
        } else if p == 1 {
            2
        } else {
            1
        }
    }
}

/// The kind of a hand of five cards.
pub open spec fn score(cards: Seq<u8>) -> nat {
    kind(pairs(cards, 5), jokers(cards, 5))
}

/// The number of cards of the hand that are equal to the card in place `i`,
/// itself counted; none if that card is a joker.
pub open spec fn alike(cards: Seq<u8>, i: int) -> nat {
    if cards[i] == JOKER {
        0
    } else {
        (if cards[0] == cards[i] {
            1nat
        } else {
            0
        }) + (if cards[1] == cards[i] {
            1nat
        } else {
            0
        }) + (if cards[2] == cards[i] {
            1nat
        } else {
            0
        }) + (if cards[3] == cards[i] {
            1nat
        } else {
            0
        }) + (if cards[4] == cards[i] {
            1nat
        } else {
            0
        })
    }
}

/// The greater of two numbers.
pub open spec fn greater(a: nat, b: nat) -> nat {
    if a >= b {
        a
    } else {
        b
    }
}

/// The greatest number of equal cards of the hand, jokers left out.
pub open spec fn most(cards: Seq<u8>) -> nat {
    greater(
        greater(
            greater(alike(cards, 0), alike(cards, 1)),
            greater(alike(cards, 2), alike(cards, 3)),
        ),
        alike(cards, 4),
    )
}

/// Whether the card in place `i` is no joker and differs from each card
/// before it.
pub open spec fn fresh(cards: Seq<u8>, i: int) -> bool {
    cards[i] != JOKER && forall|j: int| 0 <= j < i ==> (#[trigger] cards[j]) != cards[i]
}

/// The number of different cards of the hand, jokers left out.
pub open spec fn different(cards: Seq<u8>) -> nat {
    (if fresh(cards, 0) {
        1nat
    } else {
        0
    }) + (if fresh(cards, 1) {
        1nat
    } else {
        0
    }) + (if fresh(cards, 2) {
        1nat
    } else {
        0
    }) + (if fresh(cards, 3) {
        1nat
    } else {
        0
    }) + (if fresh(cards, 4) {
        1nat
    } else {
        0
    })
}

/// The kind of a hand by its groups of equal cards, where `top` is the size
/// of its greatest group with the jokers added and `groups` the number of
/// its groups: five of a kind is one group of five; four of a kind has a
/// group of four; a full house is a group of three and a pair, three of a
/// kind a group of three and two single cards; and so on.
pub open spec fn kind_by_groups(top: nat, groups: nat) -> nat {
    if top >= 5 {
        7
    } else if top == 4 {
        6
    } else if top == 3 {
        if groups <= 2 {
            5
        } else {
            4
        }
    } else if top == 2 {
        if groups <= 3 {
            3
        } else {
            2
        }
    } else {
        1
    }
}

/// The kind of a hand, as counted by its pairs of equal cards, is its kind
/// by its groups of equal cards.
#[verifier::spinoff_prover]
#[verifier::rlimit(60)]
pub proof fn lemma_score(cards: Seq<u8>)
    requires
        cards.len() == 5,
    ensures
        score(cards) == kind_by_groups(most(cards) + jokers(cards, 5), different(cards)),
{
    reveal_with_fuel(pairs, 6);
    reveal_with_fuel(pairs_with, 6);
    reveal_with_fuel(jokers, 6);
    let (a, b, c, d, e) = (cards[0], cards[1], cards[2], cards[3], cards[4]);
    assert(fresh(cards, 0) == (a != JOKER));
    assert(fresh(cards, 1) == (b != JOKER && a != b));
    assert(fresh(cards, 2) == (c != JOKER && a != c && b != c));
    assert(fresh(cards, 3) == (d != JOKER && a != d && b != d && c != d));
    assert(fresh(cards, 4) == (e != JOKER && a != e && b != e && c != e && d != e));
}

/// A hand as a value of mathematics.
pub struct Dealt {
    pub score: nat,
    pub cards: Seq<u8>,
    pub bet: nat,
}

/// Whether the cards `a` come before the cards `b`: at the first place in
/// which they differ, the card of `a` is the lower.
pub open spec fn cards_before(a: Seq<u8>, b: Seq<u8>, from: int) -> bool
    decreases 5 - from,
{
    if from >= 5 {
        false
    } else if a[from] != b[from] {
        a[from] < b[from]
    } else {
        cards_before(a, b, from + 1)
    }
}

/// Whether the hand `a` ranks below the hand `b`: by its kind, then by its
/// cards, then by its bid.
pub open spec fn below(a: Dealt, b: Dealt) -> bool {
    if a.score != b.score {
        a.score < b.score
    } else if a.cards != b.cards {
        cards_before(a.cards, b.cards, 0)
    } else {
        a.bet < b.bet
    }
}

/// The number of hands among the first `k` that rank below the hand in
/// place `i`, or rank as it and stand before it.
pub open spec fn beaten(hands: Seq<Dealt>, i: int, k: int) -> nat
    decreases k,
{
    if k <= 0 {
        0
    } else {
        beaten(hands, i, k - 1) + if below(hands[k - 1], hands[i]) || (k - 1 < i && !below(
            hands[i],
            hands[k - 1],
        )) {
            1nat
        } else {
            0
        }
    }
}

/// The rank of the hand in place `i`, the lowest hand having rank one.
pub open spec fn rank(hands: Seq<Dealt>, i: int) -> nat {
    beaten(hands, i, hands.len() as int) + 1
}

/// What the first `k` hands win: each its bid times its rank.
pub open spec fn winnings(hands: Seq<Dealt>, k: int) -> nat
    decreases k,
{
    if k <= 0 {
        0
    } else {
        winnings(hands, k - 1) + hands[k - 1].bet * rank(hands, k - 1)
    }
}

/// The hand that a line describes: five cards, a blank and a bid.
pub open spec fn dealt(line: Seq<u8>, wild: bool) -> Option<Dealt> {
    match split_once(line, " ".spec_bytes()) {
        Some((hand, bet)) => if hand.len() == 5 {
            let cards = Seq::new(5, |i: int| card_value(hand[i], wild));
            match unsigned(bet) {
                Some(v) => if v <= usize::MAX {
                    Some(Dealt { score: score(cards), cards, bet: v })
                } else {
                    None
                },
                None => None,
            }
        } else {
            None
        },
        None => None,
    }
}

/// The hands that the first `k` lines describe.
pub open spec fn all_dealt(lines: Seq<Seq<u8>>, wild: bool, k: int) -> Option<Seq<Dealt>>
    decreases k,
{
    if k <= 0 {
        Some(Seq::empty())
    } else {
        match (all_dealt(lines, wild, k - 1), dealt(lines[k - 1], wild)) {
            (Some(before), Some(hand)) => Some(before.push(hand)),
            _ => None,
        }
    }
}

/// What the hands of a text win together. Nothing if a line describes no
/// hand, or if the sum does not fit the machine word.
pub open spec fn total(lines: Seq<Seq<u8>>, wild: bool) -> Option<nat> {
    match all_dealt(lines, wild, lines.len() as int) {
        Some(hands) => if winnings(hands, hands.len() as int) <= usize::MAX {
            Some(winnings(hands, hands.len() as int))
        } else {
            None
        },
        None => None,
    }
}

/// The value of the card with the symbol `b`.
pub fn card_of(b: u8, wild: bool) -> (c: Card)
    ensures
        c.0 == card_value(b, wild),
{
    if 50 <= b && b <= 57 {
        Card(b - 48)
    } else if b == 84 {
        Card(10)
    } else if b == 74 {
        if wild {
            Card(JOKER)
        } else {
            Card(11)
        }
    } else if b == 81 {
        Card(12)
    } else if b == 75 {
        Card(13)
    } else if b == 65 {
        Card(14)
    } else {
        Card(0)
    }
}

/// The values of the cards of a vector.
pub open spec fn values(v: Seq<Card>) -> Seq<u8> {
    Seq::new(v.len(), |i: int| v[i].0)
}

/// The kind of a hand of five cards: 7 for five of a kind, 6 for four of a
/// kind, 5 for a full house, 4 for three of a kind, 3 for two pairs, 2 for
/// one pair and 1 for none, where jokers count as the card of which the
/// hand has most.
pub fn calc_score(cards: &Vec<Card>) -> (r: usize)
    requires
        cards@.len() == 5,
    ensures
        r == score(values(cards@)),
        r == kind_by_groups(
            most(values(cards@)) + jokers(values(cards@), 5),
            different(values(cards@)),
        ),
        1 <= r <= 7,
{
    let ghost vals = values(cards@);
    proof {
        lemma_score(vals);
    }
    let mut p: usize = 0;
    let mut j: usize = 0;
    let mut k: usize = 0;
    while k < 5
        invariant
            k <= 5,
            cards@.len() == 5,
            vals == values(cards@),
            p == pairs(vals, k as int),
            j == jokers(vals, k as int),
            p <= 10 * k,
            j <= k,
        decreases 5 - k,
    {
        let c = cards[k];
        proof {
            assert(vals[k as int] == c.0);
        }
        let mut i: usize = 0;
        let ghost base = p;
        while i < k
            invariant
                i <= k < 5,
                cards@.len() == 5,
                vals == values(cards@),
                c == cards@[k as int],
                base <= 10 * k,
                p == base + pairs_with(vals, k as int, i as int),
                pairs_with(vals, k as int, i as int) <= i,
            decreases k - i,
        {
            proof {
                assert(vals[i as int] == cards@[i as int].0);
                assert(vals[k as int] == c.0);
            }
            if cards[i].0 == c.0 && c.0 != JOKER {
                p += 1;
            }
            i += 1;
        }
        if c.0 == JOKER {
            j += 1;
        }
        k += 1;
    }
    if j >= 4 {
        7
    } else if j == 3 {
        if p >= 1 {
            7
        } else {
            6
        }
    } else if j == 2 {
        if p >= 3 {
            7
        } else if p >= 1 {
            6
        } else {
            4
        }
    } else if j == 1 {
        if p >= 6 {
            7
        } else if p >= 3 {
            6
        } else if p == 2 {
            5
        } else if p == 1 {
            4
        } else {
            2
        }
    } else {
        if p >= 10 {
            7
        } else if p >= 6 {
            6
        } else if p >= 4 {
            5
        } else if p == 3 {
            4
        } else if p == 2 {
            3
        } else if p == 1 {
            2
        } else {
            1
        }
    }
}

/// A hand: its kind, its cards and its bid.
pub struct Hand {
    pub score: usize,
    pub cards: Vec<Card>,
    pub bet: usize,
}

impl View for Hand {
    type V = Dealt;

    open spec fn view(&self) -> Dealt {
        Dealt { score: self.score as nat, cards: values(self.cards@), bet: self.bet as nat }
    }
}

impl Hand {
    /// Reads a hand from its line.
    pub fn from_input(input: &[u8], wild: bool) -> (r: Option<Hand>)
        ensures
            match dealt(input@, wild) {
                Some(d) => r.is_some() && r.unwrap()@ == d && r.unwrap().cards@.len() == 5,
                None => r.is_none(),
            },
    {
        let (hand, bet) = match split_once_bytes(input, " ".as_bytes()) {
            Some(parts) => parts,
            None => {
                return None;
            },
        };
        if hand.len() != 5 {
            return None;
        }
        let bet = match parse_usize(bet) {
            Some(bet) => bet,
            None => {
                return None;
            },
        };
        let mut cards: Vec<Card> = Vec::new();
        let mut i: usize = 0;
        while i < 5
            invariant
                i <= 5,
                hand@.len() == 5,
                cards@.len() == i,
                forall|k: int| 0 <= k < i ==>
                    (#[trigger] cards@[k]).0 == card_value(hand@[k], wild),
            decreases 5 - i,
        {
            cards.push(card_of(hand[i], wild));
            i += 1;
        }
        proof {
            assert(values(cards@) =~= Seq::new(5, |i: int| card_value(hand@[i], wild)));
        }
        let score = calc_score(&cards);
        Some(Hand { score, cards, bet })
    }

    /// Whether the cards of this hand come before those of `other`.
    fn cards_lower(&self, other: &Hand) -> (r: bool)
        requires
            self.cards@.len() == 5,
            other.cards@.len() == 5,
        ensures
            r == cards_before(self@.cards, other@.cards, 0),
            r ==> self@.cards != other@.cards,
            !r && !cards_before(other@.cards, self@.cards, 0) ==> self@.cards == other@.cards,
    {
        let ghost a = self@.cards;
        let ghost b = other@.cards;
        let mut i: usize = 0;
        while i < 5
            invariant
                i <= 5,
                self.cards@.len() == 5,
                other.cards@.len() == 5,
                a == self@.cards,
                b == other@.cards,
                forall|k: int| 0 <= k < i ==> a[k] == b[k],
                cards_before(a, b, 0) == cards_before(a, b, i as int),
                cards_before(b, a, 0) == cards_before(b, a, i as int),
            decreases 5 - i,
        {
            proof {
                assert(a[i as int] == self.cards@[i as int].0);
                assert(b[i as int] == other.cards@[i as int].0);
            }
            if self.cards[i].0 != other.cards[i].0 {
                return self.cards[i].0 < other.cards[i].0;
            }
            i += 1;
        }
        proof {
            assert(a =~= b);
        }
        false
    }

    /// Whether this hand ranks below `other`.
    pub fn ranks_below(&self, other: &Hand) -> (r: bool)
        requires
            self.cards@.len() == 5,
            other.cards@.len() == 5,
        ensures
            r == below(self@, other@),
    {
        if self.score != other.score {
            return self.score < other.score;
        }
        if self.cards_lower(other) {
            return true;
        }
        if other.cards_lower(self) {
            return false;
        }
        self.bet < other.bet
    }
}

/// The hands of a vector.
pub open spec fn dealt_of(v: Seq<Hand>) -> Seq<Dealt> {
    Seq::new(v.len(), |i: int| v[i]@)
}

proof fn lemma_dealt_stuck(lines: Seq<Seq<u8>>, wild: bool, k: int, n: int)
    requires
        0 <= k <= n,
        all_dealt(lines, wild, k).is_none(),
    ensures
        all_dealt(lines, wild, n).is_none(),
    decreases n - k,
{
    if k < n {
        lemma_dealt_stuck(lines, wild, k, n - 1);
    }
}

proof fn lemma_winnings_grow(hands: Seq<Dealt>, k: int, n: int)
    requires
        0 <= k <= n,
    ensures
        winnings(hands, k) <= winnings(hands, n),
    decreases n - k,
{
    if k < n {
        lemma_winnings_grow(hands, k, n - 1);
        assert(hands[n - 1].bet * rank(hands, n - 1) >= 0) by (nonlinear_arith)
            requires
                hands[n - 1].bet >= 0,
                rank(hands, n - 1) >= 0,
        ;
    }
}

/// What the hands of a text win together, where `J` is a joker if `wild` is
/// set.
pub fn calc_card_winnings(data: &str, wild: bool) -> (r: Option<usize>)
    ensures
        match total(text_lines(data.spec_bytes()), wild) {
            Some(v) => r == Some(v as usize),
            None => r.is_none(),
        },
{
    let lines = lines_of(data);
    let ghost rows = rows_of(lines@);
    let n = lines.len();
    let mut hands: Vec<Hand> = Vec::new();
    let mut k: usize = 0;
    proof {
        assert(dealt_of(hands@) =~= Seq::<Dealt>::empty());
    }
    while k < n
        invariant
            k <= n,
            n == lines@.len(),
            rows == rows_of(lines@),
            rows == text_lines(data.spec_bytes()),
            hands@.len() == k,
            forall|i: int| 0 <= i < k ==> (#[trigger] hands@[i]).cards@.len() == 5,
            all_dealt(rows, wild, k as int) == Some(dealt_of(hands@)),
        decreases n - k,
    {
        let ghost before = dealt_of(hands@);
        proof {
            assert(rows[k as int] == lines@[k as int]@);
        }
        match Hand::from_input(lines[k].as_slice(), wild) {
            Some(hand) => {
                let ghost view = hand@;
                hands.push(hand);
                proof {
                    assert(dealt_of(hands@) =~= before.push(view));
                }
            },
            None => {
                proof {
                    lemma_dealt_stuck(rows, wild, k + 1, n as int);
                }
                return None;
            },
        }
        k += 1;
    }
    let ghost all = dealt_of(hands@);
    let mut sum: usize = 0;
    let mut i: usize = 0;
    while i < n
        invariant
            i <= n,
            n == hands@.len(),
            all == dealt_of(hands@),
            rows == text_lines(data.spec_bytes()),
            rows.len() == n,
            all_dealt(rows, wild, n as int) == Some(all),
            forall|c: int| 0 <= c < n ==> (#[trigger] hands@[c]).cards@.len() == 5,
            sum == winnings(all, i as int),
        decreases n - i,
    {
        let mut lower: usize = 0;
        let mut j: usize = 0;
        while j < n
            invariant
                i < n,
                j <= n,
                n == hands@.len(),
                all == dealt_of(hands@),
                forall|c: int| 0 <= c < n ==> (#[trigger] hands@[c]).cards@.len() == 5,
                lower == beaten(all, i as int, j as int),
                lower <= j,
            decreases n - j,
        {
            proof {
                assert(all[j as int] == hands@[j as int]@);
                assert(all[i as int] == hands@[i as int]@);
            }
            if hands[j].ranks_below(&hands[i]) || (j < i && !hands[i].ranks_below(&hands[j])) {
                lower += 1;
            }
            j += 1;
        }
        proof {
            assert(all[i as int] == hands@[i as int]@);
            lemma_winnings_grow(all, i + 1, n as int);
        }
        let bet = hands[i].bet;
        proof {
            assert(all[i as int].bet == bet);
            assert(rank(all, i as int) == lower + 1);
            if bet == 0 {
                assert(0 * rank(all, i as int) == 0) by (nonlinear_arith);
            }
        }
        let step = if bet == 0 {
            Some(sum)
        } else if lower == usize::MAX {
            proof {
                assert(bet * (lower + 1) > usize::MAX) by (nonlinear_arith)
                    requires
                        bet >= 1,
                        lower == usize::MAX,
                ;
            }
            None
        } else {
            match bet.checked_mul(lower + 1) {
                Some(won) => sum.checked_add(won),
                None => None,
            }
        };
        match step {
            Some(next) => {
                sum = next;
            },
            None => {
                return None;
            },
        }
        i += 1;
    }
    Some(sum)
}

/// What the hands win where `J` is a jack.
pub fn part1(data: &str) -> (r: Option<usize>)
    ensures
        match total(text_lines(data.spec_bytes()), false) {
            Some(v) => r == Some(v as usize),
            None => r.is_none(),
        },
{
    calc_card_winnings(data, false)
}

/// What the hands win where `J` is a joker.
pub fn part2(data: &str) -> (r: Option<usize>)
    ensures
        match total(text_lines(data.spec_bytes()), true) {
            Some(v) => r == Some(v as usize),
            None => r.is_none(),
        },
{
    calc_card_winnings(data, true)
}

} // verus!
