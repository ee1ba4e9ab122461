//! A network of nodes, each with a way to the left and a way to the right,
//! and a list of turns to follow from node to node, over and over.

use vstd::prelude::*;
use vstd::string::StringSliceAdditionalSpecFns;
use crate::words::{lines_of, rows_of, same_bytes, split_once, split_once_bytes, text_lines};

verus! {

/// The turn to the left.
pub const LEFT: u8 = 76;

/// The turn to the right.
pub const RIGHT: u8 = 82;

/// Whether `s` is the name of a node: three digits or capital letters.
pub open spec fn is_name(s: Seq<u8>) -> bool {
    s.len() == 3 && forall|i: int|
        0 <= i < 3 ==> (48 <= #[trigger] s[i] <= 57 || 65 <= s[i] <= 90)
}

/// A node as a value of mathematics: its name and the names of the nodes to
/// its left and right.
pub struct Knot {
    pub name: Seq<u8>,
    pub left: Seq<u8>,
    pub right: Seq<u8>,
}

/// The node that a line describes: its name, an equals sign between blanks,
/// and in brackets the names of the nodes to the left and right, parted by
/// a comma and a blank.
pub open spec fn knot(line: Seq<u8>) -> Option<Knot> {
    match split_once(line, " = ".spec_bytes()) {
        Some((name, ways)) => if ways.len() >= 2 && ways[0] == 40 && ways.last() == 41 {
            match split_once(ways.subrange(1, ways.len() - 1), ", ".spec_bytes()) {
                Some((left, right)) => if is_name(name) && is_name(left) && is_name(right) {
                    Some(Knot { name, left, right })
                } else {
                    None
                },
                None => None,
            }
        } else {
            None
        },
        None => None,
    }
}

/// Whether the node in place `i` has the name `name`.
pub open spec fn named(nodes: Seq<Knot>, name: Seq<u8>, i: int) -> bool {
    0 <= i < nodes.len() && nodes[i].name == name
}

/// Whether no two nodes have the same name.
pub open spec fn distinct(nodes: Seq<Knot>) -> bool {
    forall|i: int, j: int|
        0 <= i < j < nodes.len() ==> (#[trigger] nodes[i]).name != (#[trigger] nodes[j]).name
}

/// The nodes with one more: it takes the place of the node of its name, or
/// the last place if there is none of its name.
pub open spec fn with_knot(nodes: Seq<Knot>, k: Knot) -> Seq<Knot> {
    if exists|i: int| named(nodes, k.name, i) {
        nodes.update(choose|i: int| named(nodes, k.name, i), k)
    } else {
        nodes.push(k)
    }
}

/// The nodes that the lines from the third on describe, up to line `k`. A
/// line that describes a node anew takes the place of the line before it.
pub open spec fn knots(lines: Seq<Seq<u8>>, k: int) -> Option<Seq<Knot>>
    decreases k,
{
    if k <= 2 {
        Some(Seq::empty())
    } else {
        match (knots(lines, k - 1), knot(lines[k - 1])) {
            (Some(before), Some(next)) => Some(with_knot(before, next)),
            _ => None,
        }
    }
}

/// What a text describes: the turns in its first line, which ends at an
/// empty second line, and the nodes in the lines that follow.
pub open spec fn chart(lines: Seq<Seq<u8>>) -> Option<(Seq<u8>, Seq<Knot>)> {
    if lines.len() >= 2 && lines[1].len() == 0 {
        match knots(lines, lines.len() as int) {
            Some(nodes) => Some((lines[0], nodes)),
            None => None,
        }
    } else {
        None
    }
}

/// Whether the node in place `i` is the last with the name `name`.
pub open spec fn last_named(nodes: Seq<Knot>, name: Seq<u8>, i: int) -> bool {
    &&& 0 <= i < nodes.len()
    &&& nodes[i].name == name
    &&& forall|j: int| i < j < nodes.len() ==> (#[trigger] nodes[j]).name != name
}

/// The place of the node with the name `name`; of the last if there are
/// several.
pub open spec fn lookup(nodes: Seq<Knot>, name: Seq<u8>) -> Option<int> {
    if exists|i: int| last_named(nodes, name, i) {
        Some(choose|i: int| last_named(nodes, name, i))
    } else {
        None
    }
}

/// The node reached from the node in place `at` by one turn.
pub open spec fn turn(nodes: Seq<Knot>, at: int, way: u8) -> Option<int> {
    if way == LEFT {
        lookup(nodes, nodes[at].left)
    } else if way == RIGHT {
        lookup(nodes, nodes[at].right)
    } else {
        None
    }
}

/// The node reached from the node in place `from` after `s` steps along the
/// turns, which are begun again whenever they end.
pub open spec fn after(nodes: Seq<Knot>, turns: Seq<u8>, from: int, s: nat) -> Option<int>
    decreases s,
{
    if s == 0 {
        Some(from)
    } else {
        match after(nodes, turns, from, (s - 1) as nat) {
            Some(at) => if turns.len() > 0 {
                turn(nodes, at, turns[(s - 1) % (turns.len() as int)])
            } else {
                None
            },
            None => None,
        }
    }
}

/// Whether a node is a goal: the node with the name `ZZZ`, or, for
/// ghosts, any node whose name ends in `Z`.
pub open spec fn is_goal(nodes: Seq<Knot>, at: int, ghost_walk: bool) -> bool {
    if ghost_walk {
        nodes[at].name[2] == 90
    } else {
        nodes[at].name == "ZZZ".spec_bytes()
    }
}

/// Whether the walk from `from` comes to a goal after `s` steps, one or
/// more, and to none before.
pub open spec fn arrives(nodes: Seq<Knot>, turns: Seq<u8>, from: int, ghost_walk: bool,
    s: nat) -> bool {
    &&& s >= 1
    &&& after(nodes, turns, from, s).is_some()
    &&& is_goal(nodes, after(nodes, turns, from, s).unwrap(), ghost_walk)
    &&& forall|j: nat|
        1 <= j < s ==> !is_goal(nodes, (#[trigger] after(nodes, turns, from, j)).unwrap(),
            ghost_walk)
}

/// The number of steps from the node in place `from` to a goal. The walk
/// is given up after as many steps as there are nodes times turns, when it
/// has come to a node at the same turn twice; and nothing is found where a
/// way leads to no node, or where that number of steps does not fit the
/// machine word.
pub open spec fn steps(nodes: Seq<Knot>, turns: Seq<u8>, from: int,
    ghost_walk: bool) -> Option<nat> {
    if nodes.len() * turns.len() > usize::MAX {
        None
    } else if exists|s: nat|
        s <= nodes.len() * turns.len() && arrives(nodes, turns, from, ghost_walk, s) {
        Some(choose|s: nat| s <= nodes.len() * turns.len()
            && arrives(nodes, turns, from, ghost_walk, s))
    } else {
        None
    }
}

/// The greatest common divisor of two numbers.
pub open spec fn gcd(a: nat, b: nat) -> nat
    decreases b,
{
    if b == 0 {
        a
    } else {
        gcd(b, a % b)
    }
}

/// Whether `d` divides `a`.
pub open spec fn divides(d: nat, a: nat) -> bool {
    d > 0 && a % d == 0
}

/// The greatest common divisor divides both numbers, and each number that
/// divides both divides it.
pub proof fn lemma_gcd(a: nat, b: nat, d: nat)
    requires
        a > 0 || b > 0,
    ensures
        divides(gcd(a, b), a),
        divides(gcd(a, b), b),
        divides(d, a) && divides(d, b) ==> divides(d, gcd(a, b)),
    decreases b,
{
    if b == 0 {
        vstd::arithmetic::div_mod::lemma_mod_self_0(a as int);
        vstd::arithmetic::div_mod::lemma_small_mod(0, a);
        if d > 0 {
            vstd::arithmetic::div_mod::lemma_small_mod(0, d);
        }
    } else {
        let r = a % b;
        let g = gcd(b, r);
        lemma_gcd(b, r, d);
        vstd::arithmetic::div_mod::lemma_fundamental_div_mod(a as int, b as int);
        let q = a / b;
        // a == b * q + r, and g divides b and r
        assert(a % g == 0) by {
            lemma_divides_sum(g, b, r, q);
        }
        if divides(d, a) && divides(d, b) {
            assert(r % d == 0) by {
                lemma_divides_rest(d, a, b, q, r);
            }
        }
    }
}

/// A number that divides `b` and `r` divides `b * q + r`.
proof fn lemma_divides_sum(g: nat, b: nat, r: nat, q: nat)
    requires
        divides(g, b),
        divides(g, r),
    ensures
        (b * q + r) % g == 0,
{
    let (gi, bi, ri, qi) = (g as int, b as int, r as int, q as int);
    vstd::arithmetic::div_mod::lemma_fundamental_div_mod(bi, gi);
    vstd::arithmetic::div_mod::lemma_fundamental_div_mod(ri, gi);
    let (x, y) = (bi / gi, ri / gi);
    assert(bi * qi + ri == gi * (x * qi + y)) by (nonlinear_arith)
        requires
            bi == gi * x,
            ri == gi * y,
    ;
    vstd::arithmetic::div_mod::lemma_mod_multiples_basic(x * qi + y, gi);
    assert(gi * (x * qi + y) == (x * qi + y) * gi) by (nonlinear_arith);
}

/// A number that divides `a` and `b` divides the rest of `a` divided by
/// `b`.
proof fn lemma_divides_rest(d: nat, a: nat, b: nat, q: nat, r: nat)
    requires
        divides(d, a),
        divides(d, b),
        a == b * q + r,
    ensures
        r % d == 0,
{
    let (di, ai, bi, ri, qi) = (d as int, a as int, b as int, r as int, q as int);
    vstd::arithmetic::div_mod::lemma_fundamental_div_mod(ai, di);
    vstd::arithmetic::div_mod::lemma_fundamental_div_mod(bi, di);
    let (x, y) = (ai / di, bi / di);
    assert(ri == di * (x - y * qi)) by (nonlinear_arith)
        requires
            ai == di * x,
            bi == di * y,
            ai == bi * qi + ri,
    ;
    vstd::arithmetic::div_mod::lemma_mod_multiples_basic(x - y * qi, di);
    assert(di * (x - y * qi) == (x - y * qi) * di) by (nonlinear_arith);
}

/// The greatest common divisor of two numbers.
pub fn greatest_common_divisor(a: usize, b: usize) -> (r: usize)
    ensures
        r == gcd(a as nat, b as nat),
{
    let ghost goal = gcd(a as nat, b as nat);
    let mut x = a;
    let mut y = b;
    while y != 0
        invariant
            gcd(x as nat, y as nat) == goal,
        decreases y,
    {
        let rem = x % y;
        x = y;
        y = rem;
    }
    x
}

/// The least common multiple of the first `k` numbers, found pair by pair.
/// Nothing if there is no number, or if a product on the way does not fit
/// the machine word.
pub open spec fn lcm_upto(list: Seq<nat>, k: int) -> Option<nat>
    decreases k,
{
    if k <= 0 {
        None
    } else if k == 1 {
        Some(list[0])
    } else {
        match lcm_upto(list, k - 1) {
            Some(a) => if a * list[k - 1] <= usize::MAX && gcd(a, list[k - 1]) > 0 {
                Some(a * list[k - 1] / gcd(a, list[k - 1]))
            } else {
                None
            },
            None => None,
        }
    }
}

/// A number divides its products.
proof fn lemma_divides_product(d: nat, q: nat)
    requires
        d > 0,
    ensures
        divides(d, d * q),
{
    vstd::arithmetic::div_mod::lemma_mod_multiples_basic(q as int, d as int);
    assert(d * q == q * d) by (nonlinear_arith);
}

/// What a number divides is a product of it.
proof fn lemma_divides_quotient(d: nat, a: nat)
    requires
        divides(d, a),
    ensures
        a == d * (a / d),
{
    vstd::arithmetic::div_mod::lemma_fundamental_div_mod(a as int, d as int);
}

/// What divides a number divides what that number divides.
proof fn lemma_divides_on(d: nat, a: nat, l: nat)
    requires
        divides(d, a),
        divides(a, l),
    ensures
        divides(d, l),
{
    lemma_divides_quotient(d, a);
    lemma_divides_quotient(a, l);
    let (x, y) = (a / d, l / a);
    assert(l == d * (x * y)) by (nonlinear_arith)
        requires
            a == d * x,
            l == a * y,
    ;
    lemma_divides_product(d, x * y);
}

/// The greatest common divisor of two numbers taken `m` times is `m` times
/// theirs.
proof fn lemma_gcd_scaled(m: nat, a: nat, b: nat)
    requires
        m > 0,
    ensures
        gcd(m * a, m * b) == m * gcd(a, b),
    decreases b,
{
    if b == 0 {
        assert(m * b == 0) by (nonlinear_arith)
            requires
                b == 0,
        ;
    } else {
        vstd::arithmetic::div_mod::lemma_truncate_middle(a as int, m as int, b as int);
        lemma_gcd_scaled(m, b, a % b);
    }
}

/// The product of two numbers divided by their greatest common divisor is
/// their least common multiple: both divide it, and it divides each number
/// that both divide.
pub proof fn lemma_lcm_pair(a: nat, b: nat, m: nat)
    requires
        a > 0,
        b > 0,
    ensures
        gcd(a, b) > 0,
        a * b / gcd(a, b) > 0,
        divides(a, a * b / gcd(a, b)),
        divides(b, a * b / gcd(a, b)),
        divides(a, m) && divides(b, m) ==> divides(a * b / gcd(a, b), m),
{
    let g = gcd(a, b);
    lemma_gcd(a, b, 1);
    lemma_divides_quotient(g, a);
    lemma_divides_quotient(g, b);
    let (x, y) = (a / g, b / g);
    assert(a * b == g * (x * b)) by (nonlinear_arith)
        requires
            a == g * x,
    ;
    vstd::arithmetic::div_mod::lemma_div_multiples_vanish((x * b) as int, g as int);
    let l = a * b / g;
    assert(l == x * b);
    assert(x * b == b * x && x * b == a * y) by (nonlinear_arith)
        requires
            a == g * x,
            b == g * y,
    ;
    lemma_divides_product(b, x);
    lemma_divides_product(a, y);
    assert(x > 0) by (nonlinear_arith)
        requires
            a == g * x,
            a > 0,
    ;
    assert(x * b > 0) by (nonlinear_arith)
        requires
            x > 0,
            b > 0,
    ;
    if divides(a, m) && divides(b, m) {
        if m == 0 {
            vstd::arithmetic::div_mod::lemma_small_mod(0, l);
        } else {
            lemma_divides_quotient(a, m);
            lemma_divides_quotient(b, m);
            let (s, t) = (m / a, m / b);
            assert(m * a == (a * b) * t && m * b == (a * b) * s) by (nonlinear_arith)
                requires
                    m == a * s,
                    m == b * t,
            ;
            assert(a * b > 0) by (nonlinear_arith)
                requires
                    a > 0,
                    b > 0,
            ;
            lemma_divides_product(a * b, t);
            lemma_divides_product(a * b, s);
            assert(m * a > 0) by (nonlinear_arith)
                requires
                    a > 0,
                    m > 0,
            ;
            lemma_gcd(m * a, m * b, a * b);
            lemma_gcd_scaled(m, a, b);
            lemma_divides_quotient(a * b, m * g);
            let u = (m * g) / (a * b);
            assert(m == l * u) by (nonlinear_arith)
                requires
                    m * g == (a * b) * u,
                    a * b == g * l,
                    g > 0,
            ;
            lemma_divides_product(l, u);
        }
    }
}

/// The least common multiple of numbers that are not zero, found pair by
/// pair: each of the numbers divides it, and it divides each number that
/// all of them divide.
pub proof fn lemma_lcm(list: Seq<nat>, k: int, m: nat)
    requires
        1 <= k <= list.len(),
        forall|i: int| 0 <= i < k ==> (#[trigger] list[i]) > 0,
        lcm_upto(list, k).is_some(),
    ensures
        lcm_upto(list, k).unwrap() > 0,
        forall|i: int| 0 <= i < k ==> divides(#[trigger] list[i], lcm_upto(list, k).unwrap()),
        (forall|i: int| 0 <= i < k ==> divides(#[trigger] list[i], m)) ==> divides(
            lcm_upto(list, k).unwrap(),
            m,
        ),
    decreases k,
{
    if k == 1 {
        vstd::arithmetic::div_mod::lemma_mod_self_0(list[0] as int);
        if forall|i: int| 0 <= i < k ==> divides(#[trigger] list[i], m) {
            assert(divides(list[0], m));
        }
    } else {
        let a = lcm_upto(list, k - 1).unwrap();
        let b = list[k - 1];
        lemma_lcm(list, k - 1, m);
        lemma_lcm_pair(a, b, m);
        let l = lcm_upto(list, k).unwrap();
        assert(a * b == a * list[k - 1]);
        assert(l == a * b / gcd(a, b));
        assert forall|i: int| 0 <= i < k implies divides(#[trigger] list[i], l) by {
            if i < k - 1 {
                lemma_divides_on(list[i], a, l);
            }
        }
        if forall|i: int| 0 <= i < k ==> divides(#[trigger] list[i], m) {
            assert forall|i: int| 0 <= i < k - 1 implies divides(#[trigger] list[i], m) by {}
            assert(divides(b, m));
        }
    }
}

proof fn lemma_lcm_stuck(list: Seq<nat>, k: int, n: int)
    requires
        1 <= k <= n,
        lcm_upto(list, k).is_none(),
    ensures
        lcm_upto(list, n).is_none(),
    decreases n - k,
{
    if k < n {
        lemma_lcm_stuck(list, k, n - 1);
    }
}

/// The numbers of a vector.
pub open spec fn nats(v: Seq<usize>) -> Seq<nat> {
    Seq::new(v.len(), |i: int| v[i] as nat)
}

/// The least common multiple of the numbers of a list.
pub fn least_common_multiple(list: &[usize]) -> (r: Option<usize>)
    ensures
        match lcm_upto(nats(list@), list@.len() as int) {
            Some(v) => r == Some(v as usize) && v <= usize::MAX,
            None => r.is_none(),
        },
{
    let n = list.len();
    if n == 0 {
        return None;
    }
    let ghost values = nats(list@);
    let mut a = list[0];
    let mut k: usize = 1;
    while k < n
        invariant
            1 <= k <= n,
            n == list@.len(),
            values == nats(list@),
            lcm_upto(values, k as int) == Some(a as nat),
        decreases n - k,
    {
        let b = list[k];
        proof {
            assert(values[k as int] == b as nat);
        }
        let d = greatest_common_divisor(a, b);
        let step = match a.checked_mul(b) {
            Some(p) => if d > 0 {
                Some(p / d)
            } else {
                None
            },
            None => None,
        };
        match step {
            Some(next) => {
                a = next;
            },
            None => {
                proof {
                    lemma_lcm_stuck(values, k + 1, n as int);
                }
                return None;
            },
        }
        k += 1;
    }
    Some(a)
}

/// A node of the network.
pub struct Node {
    pub name: Vec<u8>,
    pub left: Vec<u8>,
    pub right: Vec<u8>,
}

impl View for Node {
    type V = Knot;

    open spec fn view(&self) -> Knot {
        Knot { name: self.name@, left: self.left@, right: self.right@ }
    }
}

/// The nodes of a vector.
pub open spec fn knots_of(v: Seq<Node>) -> Seq<Knot> {
    Seq::new(v.len(), |i: int| v[i]@)
}

/// The network: its nodes in the order in which the text names them first.
/// No two nodes have the same name.
pub struct Network {
    pub entries: Vec<Node>,
}

/// The name of a node.
pub struct Id {
    pub name: Vec<u8>,
}

impl Id {
    /// Reads the name of a node.
    pub fn from_input(input: &[u8]) -> (r: Option<Id>)
        ensures
            match r {
                Some(id) => is_name(input@) && id.name@ == input@,
                None => !is_name(input@),
            },
    {
        if input.len() != 3 {
            return None;
        }
        let mut i: usize = 0;
        while i < 3
            invariant
                i <= 3,
                input@.len() == 3,
                forall|j: int|
                    0 <= j < i ==> (48 <= #[trigger] input@[j] <= 57 || 65 <= input@[j] <= 90),
            decreases 3 - i,
        {
            let b = input[i];
            if !((48 <= b && b <= 57) || (65 <= b && b <= 90)) {
                return None;
            }
            i += 1;
        }
        Some(Id { name: vstd::slice::slice_to_vec(input) })
    }
}

proof fn lemma_knots_stuck(lines: Seq<Seq<u8>>, k: int, n: int)
    requires
        2 <= k <= n,
        knots(lines, k).is_none(),
    ensures
        knots(lines, n).is_none(),
    decreases n - k,
{
    if k < n {
        lemma_knots_stuck(lines, k, n - 1);
    }
}

proof fn lemma_last_once(nodes: Seq<Knot>, name: Seq<u8>, i: int, j: int)
    requires
        last_named(nodes, name, i),
        last_named(nodes, name, j),
    ensures
        i == j,
{
    if i < j {
        assert(nodes[j].name != name);
    } else if j < i {
        assert(nodes[i].name != name);
    }
}

impl Network {
    /// Whether no two nodes of the network have the same name.
    pub open spec fn wf(&self) -> bool {
        distinct(knots_of(self.entries@))
    }

    /// A network without nodes.
    pub fn new() -> (r: Network)
        ensures
            r.wf(),
            r.entries@.len() == 0,
    {
        Network { entries: Vec::new() }
    }

    /// Reads the node that a line describes. It takes the place of the node
    /// of its name, if the network has one.
    pub fn add(&mut self, line: &[u8]) -> (ok: bool)
        requires
            old(self).wf(),
        ensures
            final(self).wf(),
            match knot(line@) {
                Some(k) => ok && knots_of(final(self).entries@) == with_knot(
                    knots_of(old(self).entries@),
                    k,
                ),
                None => !ok && final(self).entries@ == old(self).entries@,
            },
    {
        let (entry, remain) = match split_once_bytes(line, " = ".as_bytes()) {
            Some(parts) => parts,
            None => {
                return false;
            },
        };
        let m = remain.len();
        if m < 2 || remain[0] != 40 || remain[m - 1] != 41 {
            return false;
        }
        let names = vstd::slice::slice_subrange(remain, 1, m - 1);
        let (l, r) = match split_once_bytes(names, ", ".as_bytes()) {
            Some(parts) => parts,
            None => {
                return false;
            },
        };
        let name = match Id::from_input(entry) {
            Some(id) => id,
            None => {
                return false;
            },
        };
        let left = match Id::from_input(l) {
            Some(id) => id,
            None => {
                return false;
            },
        };
        let right = match Id::from_input(r) {
            Some(id) => id,
            None => {
                return false;
            },
        };
        let ghost before = knots_of(self.entries@);
        let ghost added = knot(line@).unwrap();
        let node = Node { name: name.name, left: left.name, right: right.name };
        let n = self.entries.len();
        let mut i: usize = 0;
        while i < n
            invariant
                i <= n,
                n == self.entries@.len(),
                *self == *old(self),
                before == knots_of(self.entries@),
                distinct(before),
                knot(line@) == Some(added),
                node@ == added,
                forall|j: int| 0 <= j < i ==> !named(before, added.name, j),
            decreases n - i,
        {
            proof {
                assert(before[i as int] == self.entries@[i as int]@);
            }
            if same_bytes(self.entries[i].name.as_slice(), node.name.as_slice()) {
                proof {
                    assert(named(before, added.name, i as int));
                    let c = choose|c: int| named(before, added.name, c);
                    if c < i {
                        assert(!named(before, added.name, c));
                    } else if i < c {
                        assert(before[i as int].name != before[c].name);
                    }
                    assert(with_knot(before, added) == before.update(i as int, added));
                }
                self.entries.set(i, node);
                proof {
                    let after = knots_of(self.entries@);
                    assert(after =~= before.update(i as int, added));
                    assert forall|a: int, b: int| 0 <= a < b < after.len() implies (
                    #[trigger] after[a]).name != (#[trigger] after[b]).name by {
                        assert(after[a].name == before[a].name);
                        assert(after[b].name == before[b].name);
                    }
                }
                return true;
            }
            i += 1;
        }
        self.entries.push(node);
        proof {
            let after = knots_of(self.entries@);
            assert(after =~= before.push(added));
            assert forall|a: int, b: int| 0 <= a < b < after.len() implies (
            #[trigger] after[a]).name != (#[trigger] after[b]).name by {
                if b < before.len() {
                    assert(after[a] == before[a] && after[b] == before[b]);
                } else {
                    assert(after[a] == before[a]);
                    assert(!named(before, added.name, a));
                }
            }
        }
        true
    }

    /// The place of the node with the name `name`.
    pub fn find(&self, name: &[u8]) -> (r: Option<usize>)
        ensures
            match lookup(knots_of(self.entries@), name@) {
                Some(i) => r == Some(i as usize) && 0 <= i < self.entries@.len(),
                None => r.is_none(),
            },
    {
        let ghost nodes = knots_of(self.entries@);
        let mut i = self.entries.len();
        while i > 0
            invariant
                i <= self.entries@.len(),
                nodes == knots_of(self.entries@),
                forall|j: int| i <= j < nodes.len() ==> (#[trigger] nodes[j]).name != name@,
            decreases i,
        {
            i -= 1;
            if same_bytes(self.entries[i].name.as_slice(), name) {
                proof {
                    assert(nodes[i as int].name == name@);
                    assert(last_named(nodes, name@, i as int));
                    let c = choose|c: int| last_named(nodes, name@, c);
                    lemma_last_once(nodes, name@, i as int, c);
                }
                return Some(i);
            }
            proof {
                assert(nodes[i as int].name != name@);
            }
        }
        proof {
            assert forall|c: int| !last_named(nodes, name@, c) by {
                if 0 <= c < nodes.len() {
                    assert(nodes[c].name != name@);
                }
            }
        }
        None
    }

    /// The number of steps along the turns from the node in place `start`
    /// to a goal.
    pub fn count_steps(&self, instructions: &[u8], start: usize, ghost_walk: bool) -> (r: Option<
        usize,
    >)
        requires
            start < self.entries@.len(),
            forall|i: int| 0 <= i < self.entries@.len() ==>
                is_name((#[trigger] self.entries@[i]).name@),
        ensures
            match steps(knots_of(self.entries@), instructions@, start as int, ghost_walk) {
                Some(s) => r == Some(s as usize),
                None => r.is_none(),
            },
    {
        let ghost nodes = knots_of(self.entries@);
        let ghost turns = instructions@;
        let n = self.entries.len();
        let len = instructions.len();
        let bound = match n.checked_mul(len) {
            Some(bound) => bound,
            None => {
                return None;
            },
        };
        let mut cur = start;
        let mut done: usize = 0;
        let mut at: usize = 0;
        while done < bound
            invariant
                n == self.entries@.len(),
                len == instructions@.len(),
                nodes == knots_of(self.entries@),
                turns == instructions@,
                forall|i: int| 0 <= i < n ==> is_name((#[trigger] self.entries@[i]).name@),
                bound == n * len,
                cur < n,
                done <= bound,
                len > 0 ==> at == done % len,
                len > 0 ==> at < len,
                after(nodes, turns, start as int, done as nat) == Some(cur as int),
                forall|j: nat|
                    1 <= j <= done ==> !is_goal(
                        nodes,
                        (#[trigger] after(nodes, turns, start as int, j)).unwrap(),
                        ghost_walk,
                    ),
            decreases bound - done,
        {
            assert(len > 0) by {
                if len == 0 {
                    assert(n * 0 == 0);
                }
            }
            let way = instructions[at];
            let target = if way == LEFT {
                self.find(self.entries[cur].left.as_slice())
            } else if way == RIGHT {
                self.find(self.entries[cur].right.as_slice())
            } else {
                None
            };
            proof {
                assert(nodes[cur as int] == self.entries@[cur as int]@);
                assert(after(nodes, turns, start as int, (done + 1) as nat) == turn(
                    nodes,
                    cur as int,
                    turns[done as int % (len as int)],
                ));
            }
            let next = match target {
                Some(next) => next,
                None => {
                    proof {
                        let s0 = (done + 1) as nat;
                        assert forall|s: nat| !(s <= nodes.len() * turns.len() && arrives(
                            nodes,
                            turns,
                            start as int,
                            ghost_walk,
                            s,
                        )) by {
                            if arrives(nodes, turns, start as int, ghost_walk, s) {
                                if s <= done {
                                    assert(!is_goal(
                                        nodes,
                                        after(nodes, turns, start as int, s).unwrap(),
                                        ghost_walk,
                                    ));
                                } else {
                                    lemma_after_stuck(nodes, turns, start as int, s0, s);
                                }
                            }
                        }
                    }
                    return None;
                },
            };
            done += 1;
            at += 1;
            if at == len {
                at = 0;
            }
            proof {
                lemma_next_turn((done - 1) as int, len as int);
            }
            cur = next;
            let name = &self.entries[cur].name;
            proof {
                assert(is_name(self.entries@[cur as int].name@));
                assert(nodes[cur as int].name == name@);
            }
            let arrived = if ghost_walk {
                name[2] == 90
            } else {
                same_bytes(name.as_slice(), "ZZZ".as_bytes())
            };
            if arrived {
                proof {
                    assert(arrives(nodes, turns, start as int, ghost_walk, done as nat));
                    let c = choose|s: nat|
                        s <= nodes.len() * turns.len() && arrives(
                            nodes,
                            turns,
                            start as int,
                            ghost_walk,
                            s,
                        );
                    if c < done {
                        assert(!is_goal(
                            nodes,
                            after(nodes, turns, start as int, c).unwrap(),
                            ghost_walk,
                        ));
                    } else if done < c {
                        assert(!is_goal(
                            nodes,
                            after(nodes, turns, start as int, done as nat).unwrap(),
                            ghost_walk,
                        ));
                    }
                }
                return Some(done);
            }
        }
        proof {
            assert forall|s: nat| !(s <= nodes.len() * turns.len() && arrives(
                nodes,
                turns,
                start as int,
                ghost_walk,
                s,
            )) by {
                if s <= nodes.len() * turns.len()
                    && arrives(nodes, turns, start as int, ghost_walk, s) {
                    assert(s <= done);
                    assert(!is_goal(
                        nodes,
                        after(nodes, turns, start as int, s).unwrap(),
                        ghost_walk,
                    ));
                }
            }
        }
        None
    }
}

/// The place in the turns after one step more.
proof fn lemma_next_turn(done: int, len: int)
    requires
        0 <= done,
        0 < len,
    ensures
        (done + 1) % len == if done % len + 1 == len {
            0
        } else {
            done % len + 1
        },
{
    vstd::arithmetic::div_mod::lemma_fundamental_div_mod(done, len);
    vstd::arithmetic::div_mod::lemma_mod_bound(done, len);
    let q = done / len;
    let m = done % len;
    if m + 1 == len {
        assert(done + 1 == (q + 1) * len) by (nonlinear_arith)
            requires
                done == len * q + m,
                m + 1 == len,
        ;
        vstd::arithmetic::div_mod::lemma_fundamental_div_mod_converse(done + 1, len, q + 1, 0);
    } else {
        assert(done + 1 == q * len + (m + 1)) by (nonlinear_arith)
            requires
                done == len * q + m,
        ;
        vstd::arithmetic::div_mod::lemma_fundamental_div_mod_converse(done + 1, len, q, m + 1);
    }
}

/// A walk that has led to no node leads to none.
proof fn lemma_after_stuck(nodes: Seq<Knot>, turns: Seq<u8>, from: int, k: nat, s: nat)
    requires
        k <= s,
        after(nodes, turns, from, k).is_none(),
    ensures
        after(nodes, turns, from, s).is_none(),
    decreases s - k,
{
    if k < s {
        lemma_after_stuck(nodes, turns, from, k, (s - 1) as nat);
    }
}

/// Reads the turns and the network.
pub fn parse_input(input: &str) -> (r: Option<(Vec<u8>, Network)>)
    ensures
        match chart(text_lines(input.spec_bytes())) {
            Some((turns, nodes)) => {
                &&& r.is_some()
                &&& r.unwrap().0@ == turns
                &&& knots_of(r.unwrap().1.entries@) == nodes
                &&& r.unwrap().1.wf()
                &&& forall|i: int|
                    0 <= i < r.unwrap().1.entries@.len() ==> is_name(
                        (#[trigger] r.unwrap().1.entries@[i]).name@,
                    )
            },
            None => r.is_none(),
        },
{
    let lines = lines_of(input);
    let ghost rows = rows_of(lines@);
    let n = lines.len();
    if n < 2 || lines[1].len() != 0 {
        proof {
            if n >= 2 {
                assert(rows[1] == lines@[1]@);
            }
        }
        return None;
    }
    proof {
        assert(rows[1] == lines@[1]@);
        assert(rows[0] == lines@[0]@);
    }
    let mut map = Network::new();
    let mut k: usize = 2;
    proof {
        assert(knots_of(map.entries@) =~= Seq::<Knot>::empty());
    }
    while k < n
        invariant
            2 <= k <= n,
            n == lines@.len(),
            rows == rows_of(lines@),
            rows == text_lines(input.spec_bytes()),
            rows[1].len() == 0,
            knots(rows, k as int) == Some(knots_of(map.entries@)),
            map.wf(),
            forall|i: int|
                0 <= i < map.entries@.len() ==> is_name((#[trigger] map.entries@[i]).name@),
        decreases n - k,
    {
        let ghost before = map.entries@;
        proof {
            assert(rows[k as int] == lines@[k as int]@);
        }
        if !map.add(lines[k].as_slice()) {
            proof {
                lemma_knots_stuck(rows, k + 1, n as int);
            }
            return None;
        }
        proof {
            let added = knot(rows[k as int]).unwrap();
            let nodes = knots_of(before);
            let after = knots_of(map.entries@);
            assert(is_name(added.name));
            assert(after == with_knot(nodes, added));
            assert forall|i: int| 0 <= i < map.entries@.len() implies is_name(
                (#[trigger] map.entries@[i]).name@,
            ) by {
                assert(after[i] == map.entries@[i]@);
                if i < before.len() {
                    assert(nodes[i] == before[i]@);
                    assert(is_name(before[i].name@));
                }
                if exists|c: int| named(nodes, added.name, c) {
                    let c = choose|c: int| named(nodes, added.name, c);
                    assert(named(nodes, added.name, c));
                    assert(after == nodes.update(c, added));
                    assert(after.len() == nodes.len());
                    if i == c {
                        assert(after[i] == added);
                    } else {
                        assert(after[i] == nodes[i]);
                    }
                } else {
                    assert(after == nodes.push(added));
                    if i < nodes.len() {
                        assert(after[i] == nodes[i]);
                    } else {
                        assert(after[i] == added);
                    }
                }
                assert(map.entries@[i].name@ == after[i].name);
            }
        }
        k += 1;
    }
    Some((lines[0].clone(), map))
}

/// The numbers of steps in which the ghosts that begin at those of the
/// first `k` nodes whose names end in `A` come to a node whose name ends in
/// `Z`. A node whose name comes again further down does not count.
pub open spec fn ghost_counts(nodes: Seq<Knot>, turns: Seq<u8>, k: int) -> Option<Seq<nat>>
    decreases k,
{
    if k <= 0 {
        Some(Seq::empty())
    } else {
        match ghost_counts(nodes, turns, k - 1) {
            Some(before) => if nodes[k - 1].name[2] == 65 && last_named(
                nodes,
                nodes[k - 1].name,
                k - 1,
            ) {
                match steps(nodes, turns, k - 1, true) {
                    Some(s) => Some(before.push(s)),
                    None => None,
                }
            } else {
                Some(before)
            },
            None => None,
        }
    }
}

proof fn lemma_counts_stuck(nodes: Seq<Knot>, turns: Seq<u8>, k: int, n: int)
    requires
        0 <= k <= n,
        ghost_counts(nodes, turns, k).is_none(),
    ensures
        ghost_counts(nodes, turns, n).is_none(),
    decreases n - k,
{
    if k < n {
        lemma_counts_stuck(nodes, turns, k, n - 1);
    }
}

/// The number of steps from the node `AAA` to the node `ZZZ`.
pub open spec fn way_out(lines: Seq<Seq<u8>>) -> Option<nat> {
    match chart(lines) {
        Some((turns, nodes)) => match lookup(nodes, "AAA".spec_bytes()) {
            Some(from) => steps(nodes, turns, from, false),
            None => None,
        },
        None => None,
    }
}

/// The number of steps after which all ghosts stand on goals at once, if
/// each of them comes back to its goal in a round of as many steps as led
/// it there: the least common multiple of the numbers of steps of the
/// ghosts.
pub open spec fn ghosts_out(lines: Seq<Seq<u8>>) -> Option<nat> {
    match chart(lines) {
        Some((turns, nodes)) => match ghost_counts(nodes, turns, nodes.len() as int) {
            Some(list) => lcm_upto(list, list.len() as int),
            None => None,
        },
        None => None,
    }
}

/// The number of steps from the node `AAA` to the node `ZZZ`.
pub fn part1(data: &str) -> (r: Option<usize>)
    ensures
        match way_out(text_lines(data.spec_bytes())) {
            Some(v) => r == Some(v as usize),
            None => r.is_none(),
        },
{
    let (instructions, map) = match parse_input(data) {
        Some(parts) => parts,
        None => {
            return None;
        },
    };
    let start = match map.find("AAA".as_bytes()) {
        Some(start) => start,
        None => {
            return None;
        },
    };
    map.count_steps(instructions.as_slice(), start, false)
}

/// The number of steps after which all ghosts stand on goals at once.
pub fn part2(data: &str) -> (r: Option<usize>)
    ensures
        match ghosts_out(text_lines(data.spec_bytes())) {
            Some(v) => r == Some(v as usize),
            None => r.is_none(),
        },
{
    let (instructions, map) = match parse_input(data) {
        Some(parts) => parts,
        None => {
            return None;
        },
    };
    let ghost nodes = knots_of(map.entries@);
    let ghost turns = instructions@;
    let n = map.entries.len();
    let mut counts: Vec<usize> = Vec::new();
    let mut k: usize = 0;
    proof {
        assert(nats(counts@) =~= Seq::<nat>::empty());
    }
    while k < n
        invariant
            k <= n,
            n == map.entries@.len(),
            nodes == knots_of(map.entries@),
            turns == instructions@,
            chart(text_lines(data.spec_bytes())) == Some((turns, nodes)),
            forall|i: int| 0 <= i < n ==> is_name((#[trigger] map.entries@[i]).name@),
            ghost_counts(nodes, turns, k as int) == Some(nats(counts@)),
        decreases n - k,
    {
        let ghost before = nats(counts@);
        let name = &map.entries[k].name;
        proof {
            assert(is_name(map.entries@[k as int].name@));
            assert(nodes[k as int].name == name@);
        }
        if name[2] == 65 {
            let place = map.find(name.as_slice());
            proof {
                if place == Some(k) {
                    let c = choose|c: int| last_named(nodes, name@, c);
                    assert(last_named(nodes, name@, c));
                } else if last_named(nodes, name@, k as int) {
                    let c = choose|c: int| last_named(nodes, name@, c);
                    lemma_last_once(nodes, name@, k as int, c);
                }
            }
            if place == Some(k) {
                match map.count_steps(instructions.as_slice(), k, true) {
                    Some(s) => {
                        counts.push(s);
                        proof {
                            assert(nats(counts@) =~= before.push(s as nat));
                        }
                    },
                    None => {
                        proof {
                            lemma_counts_stuck(nodes, turns, k + 1, n as int);
                        }
                        return None;
                    },
                }
            }
        }
        k += 1;
    }
    proof {
        assert(nats(counts@).len() == counts@.len());
    }
    least_common_multiple(counts.as_slice())
}

} // verus!
