//! Rows of springs, some of them in an unknown state, each with the sizes
//! of its groups of damaged springs. The ways to settle the unknown
//! springs so that the groups come out are counted.

use vstd::prelude::*;
use vstd::string::StringSliceAdditionalSpecFns;
use crate::numbers::{parse_usize, unsigned};
use crate::words::{lines_of, rows_of, split, split_bytes, split_once, split_once_bytes, text_lines};

verus! {

/// The symbol of a spring that works.
pub const SOUND: u8 = 46;

/// The symbol of a damaged spring.
pub const DAMAGED: u8 = 35;

/// The symbol of a spring in an unknown state.
pub const UNKNOWN: u8 = 63;

/// The byte that parts the sizes of the groups, a comma.
pub const COMMA: u8 = 44;

/// Whether a group of `size` damaged springs can begin at place `i`: no
/// spring of the group is known to work, and the row ends behind the group
/// or goes on with a spring that is not known to be damaged.
pub open spec fn group_at(s: Seq<u8>, i: int, size: int) -> bool {
    &&& i + size <= s.len()
    &&& forall|k: int| i <= k < i + size ==> (#[trigger] s[k]) != SOUND
    &&& (i + size == s.len() || s[i + size] != DAMAGED)
}

/// The place behind a group of `size` springs at place `i` and the spring
/// that parts it from the next group.
pub open spec fn behind(s: Seq<u8>, i: int, size: int) -> int {
    if i + size + 1 <= s.len() {
        i + size + 1
    } else {
        s.len() as int
    }
}

/// The number of ways to settle the springs from place `i` on so that they
/// make the groups from the `j`-th on. A spring that is not known to be
/// damaged may work, and a group may begin at a spring that is not known to
/// work.
pub open spec fn ways(s: Seq<u8>, c: Seq<nat>, i: int, j: int) -> nat
    decreases s.len() - i,
{
    if i >= s.len() || i < 0 {
        if j >= c.len() {
            1
        } else {
            0
        }
    } else {
        (if s[i] != DAMAGED {
            ways(s, c, i + 1, j)
        } else {
            0
        }) + (if s[i] != SOUND && 0 <= j < c.len() && c[j] >= 1 && group_at(s, i, c[j] as int) {
            ways(s, c, behind(s, i, c[j] as int), j + 1)
        } else {
            0
        })
    }
}

/// Whether each group holds at least one spring.
pub open spec fn all_groups(c: Seq<nat>) -> bool {
    forall|j: int| 0 <= j < c.len() ==> (#[trigger] c[j]) >= 1
}

/// A number as a machine word, if it fits one.
pub open spec fn fitting(v: nat) -> Option<usize> {
    if v <= usize::MAX {
        Some(v as usize)
    } else {
        None
    }
}

/// The number of ways to settle a row. Nothing if a group is empty, or if
/// the number does not fit the machine word.
pub open spec fn arrangements(s: Seq<u8>, c: Seq<nat>) -> Option<nat> {
    if all_groups(c) && ways(s, c, 0, 0) <= usize::MAX {
        Some(ways(s, c, 0, 0))
    } else {
        None
    }
}

/// The sizes among the first `k` pieces, if each is a number that fits.
pub open spec fn sizes(pieces: Seq<Seq<u8>>, k: int) -> Option<Seq<nat>>
    decreases k,
{
    if k <= 0 {
        Some(Seq::empty())
    } else {
        match (sizes(pieces, k - 1), unsigned(pieces[k - 1])) {
            (Some(before), Some(v)) => if v <= usize::MAX {
                Some(before.push(v))
            } else {
                None
            },
            _ => None,
        }
    }
}

/// What a line records: the springs, and behind a blank the sizes of the
/// groups, parted by commas.
pub open spec fn record(line: Seq<u8>) -> Option<(Seq<u8>, Seq<nat>)> {
    match split_once(line, " ".spec_bytes()) {
        Some((springs, counts)) => match sizes(split(counts, COMMA),
            split(counts, COMMA).len() as int) {
            Some(c) => Some((springs, c)),
            None => None,
        },
        None => None,
    }
}

/// `k` copies of the springs, with a spring in an unknown state between
/// each two.
pub open spec fn unfolded(s: Seq<u8>, k: int) -> Seq<u8>
    decreases k,
{
    if k <= 0 {
        Seq::empty()
    } else if k == 1 {
        s
    } else {
        unfolded(s, k - 1).push(UNKNOWN) + s
    }
}

/// `k` copies of the sizes.
pub open spec fn repeated(c: Seq<nat>, k: int) -> Seq<nat>
    decreases k,
{
    if k <= 0 {
        Seq::empty()
    } else {
        repeated(c, k - 1) + c
    }
}

/// The sum of the numbers of ways for the first `k` lines, each record
/// unfolded `fold` times. Nothing if a line records nothing, if a number of
/// ways is not there, or if the sum up to a line does not fit the machine
/// word.
pub open spec fn total(lines: Seq<Seq<u8>>, fold: int, k: int) -> Option<nat>
    decreases k,
{
    if k <= 0 {
        Some(0)
    } else {
        match (total(lines, fold, k - 1), record(lines[k - 1])) {
            (Some(sum), Some((s, c))) => match arrangements(unfolded(s, fold), repeated(c, fold)) {
                Some(v) => if sum + v <= usize::MAX {
                    Some(sum + v)
                } else {
                    None
                },
                None => None,
            },
            _ => None,
        }
    }
}

proof fn lemma_total_stuck(lines: Seq<Seq<u8>>, fold: int, k: int, n: int)
    requires
        0 <= k <= n,
        total(lines, fold, k).is_none(),
    ensures
        total(lines, fold, n).is_none(),
    decreases n - k,
{
    if k < n {
        lemma_total_stuck(lines, fold, k, n - 1);
    }
}

proof fn lemma_sizes_stuck(pieces: Seq<Seq<u8>>, k: int, n: int)
    requires
        0 <= k <= n,
        sizes(pieces, k).is_none(),
    ensures
        sizes(pieces, n).is_none(),
    decreases n - k,
{
    if k < n {
        lemma_sizes_stuck(pieces, k, n - 1);
    }
}

/// The numbers of a vector.
pub open spec fn nats(v: Seq<usize>) -> Seq<nat> {
    Seq::new(v.len(), |i: int| v[i] as nat)
}

/// Whether a group of `size` damaged springs can begin at place `i`.
fn group_fits(s: &[u8], i: usize, size: usize) -> (r: bool)
    requires
        i <= s@.len(),
    ensures
        r == group_at(s@, i as int, size as int),
{
    let n = s.len();
    if size > n - i {
        return false;
    }
    let mut k: usize = i;
    while k < i + size
        invariant
            i <= k <= i + size <= n,
            n == s@.len(),
            forall|a: int| i <= a < k ==> (#[trigger] s@[a]) != SOUND,
        decreases i + size - k,
    {
        if s[k] == SOUND {
            return false;
        }
        k += 1;
    }
    i + size == n || s[i + size] != DAMAGED
}

/// A row of springs with the sizes of its groups of damaged springs.
pub struct State<'a> {
    pub springs: &'a [u8],
    pub counts: &'a [usize],
}

impl<'a> State<'a> {
    /// The number of ways to settle the row so that it makes the groups.
    pub fn count_arrangements(&self) -> (r: Option<usize>)
        ensures
            match arrangements(self.springs@, nats(self.counts@)) {
                Some(v) => r == Some(v as usize),
                None => r.is_none(),
            },
    {
        count_ways(self.springs, self.counts)
    }
}

/// The number of ways to settle a row of springs so that it makes the
/// groups, found for each end of the row and of the list of groups, from
/// the last to the first. A number that does not fit the machine word is
/// kept as nothing, and so is each sum that it is a part of.
fn count_ways(s: &[u8], counts: &[usize]) -> (r: Option<usize>)
    ensures
        match arrangements(s@, nats(counts@)) {
            Some(v) => r == Some(v as usize),
            None => r.is_none(),
        },
{
    let n = s.len();
    let m = counts.len();
    let ghost c = nats(counts@);
    let mut j: usize = 0;
    while j < m
        invariant
            j <= m,
            m == counts@.len(),
            c == nats(counts@),
            forall|a: int| 0 <= a < j ==> (#[trigger] c[a]) >= 1,
        decreases m - j,
    {
        if counts[j] == 0 {
            proof {
                assert(c[j as int] == 0);
            }
            return None;
        }
        j += 1;
    }
    // rows[k] holds the numbers of ways from place n - k on
    let mut rows: Vec<Vec<Option<usize>>> = Vec::new();
    let mut k: usize = 0;
    loop
        invariant_except_break
            rows@.len() == k,
        invariant
            k <= n,
            n == s@.len(),
            m == counts@.len(),
            c == nats(counts@),
            all_groups(c),
            forall|a: int| 0 <= a < rows@.len() ==> (#[trigger] rows@[a])@.len() == m + 1,
            forall|a: int, b: int|
                0 <= a < rows@.len() && 0 <= b <= m ==> (#[trigger] rows@[a]@[b]) == fitting(
                    ways(s@, c, n - a, b),
                ),
        ensures
            rows@.len() == n + 1,
        decreases n - k,
    {
        let i = n - k;
        let mut row: Vec<Option<usize>> = Vec::new();
        let mut j: usize = 0;
        loop
            invariant_except_break
                row@.len() == j,
            invariant
                k <= n,
                i == n - k,
                n == s@.len(),
                m == counts@.len(),
                c == nats(counts@),
                all_groups(c),
                rows@.len() == k,
                forall|a: int| 0 <= a < k ==> (#[trigger] rows@[a])@.len() == m + 1,
                forall|a: int, b: int|
                    0 <= a < k && 0 <= b <= m ==> (#[trigger] rows@[a]@[b]) == fitting(
                        ways(s@, c, n - a, b),
                    ),
                j <= m,
                forall|b: int| 0 <= b < row@.len() ==>
                    (#[trigger] row@[b]) == fitting(ways(s@, c, i as int, b)),
            ensures
                row@.len() == m + 1,
            decreases m - j,
        {
            let value: Option<usize> = if k == 0 {
                if j == m {
                    Some(1)
                } else {
                    Some(0)
                }
            } else {
                let skip: Option<usize> = if s[i] != DAMAGED {
                    proof {
                        assert(rows@[k - 1]@[j as int] == fitting(
                            ways(s@, c, n - (k - 1), j as int),
                        ));
                    }
                    rows[k - 1][j]
                } else {
                    Some(0)
                };
                let take: Option<usize> = if s[i] != SOUND && j < m {
                    proof {
                        assert(c[j as int] == counts@[j as int]);
                    }
                    let size = counts[j];
                    if group_fits(s, i, size) {
                        let next = if size < n - i {
                            i + size + 1
                        } else {
                            n
                        };
                        proof {
                            assert(next == behind(s@, i as int, size as int));
                            assert(rows@[n - next]@[j + 1] == fitting(
                                ways(s@, c, n - (n - next), j + 1),
                            ));
                        }
                        rows[n - next][j + 1]
                    } else {
                        Some(0)
                    }
                } else {
                    Some(0)
                };
                match (skip, take) {
                    (Some(a), Some(b)) => a.checked_add(b),
                    _ => None,
                }
            };
            row.push(value);
            if j == m {
                break ;
            }
            j += 1;
        }
        rows.push(row);
        if k == n {
            break ;
        }
        k += 1;
    }
    proof {
        assert(rows@[n as int]@[0] == fitting(ways(s@, c, n - n, 0)));
    }
    rows[n][0]
}

/// Reads the sizes of the groups.
fn parse_counts(counts: &[u8]) -> (r: Option<Vec<usize>>)
    ensures
        match sizes(split(counts@, COMMA), split(counts@, COMMA).len() as int) {
            Some(c) => r.is_some() && nats(r.unwrap()@) == c,
            None => r.is_none(),
        },
{
    let pieces = split_bytes(counts, COMMA);
    let ghost rows = rows_of(pieces@);
    let n = pieces.len();
    let mut out: Vec<usize> = Vec::new();
    let mut k: usize = 0;
    proof {
        assert(nats(out@) =~= Seq::<nat>::empty());
    }
    while k < n
        invariant
            k <= n,
            n == pieces@.len(),
            rows == rows_of(pieces@),
            rows == split(counts@, COMMA),
            sizes(rows, k as int) == Some(nats(out@)),
        decreases n - k,
    {
        let ghost before = nats(out@);
        proof {
            assert(rows[k as int] == pieces@[k as int]@);
        }
        match parse_usize(pieces[k].as_slice()) {
            Some(v) => {
                out.push(v);
                proof {
                    assert(nats(out@) =~= before.push(v as nat));
                }
            },
            None => {
                proof {
                    lemma_sizes_stuck(rows, k + 1, n as int);
                }
                return None;
            },
        }
        k += 1;
    }
    Some(out)
}

/// The number of ways for the record of a line, unfolded `fold` times.
fn line_ways(line: &[u8], fold: usize) -> (r: Option<usize>)
    requires
        fold >= 1,
    ensures
        match record(line@) {
            Some((s, c)) => match arrangements(unfolded(s, fold as int), repeated(c, fold as int)) {
                Some(v) => r == Some(v as usize),
                None => r.is_none(),
            },
            None => r.is_none(),
        },
{
    let (raw, counts) = match split_once_bytes(line, " ".as_bytes()) {
        Some(parts) => parts,
        None => {
            return None;
        },
    };
    let sizes = match parse_counts(counts) {
        Some(sizes) => sizes,
        None => {
            return None;
        },
    };
    let ghost c = nats(sizes@);
    let mut springs: Vec<u8> = Vec::new();
    let mut groups: Vec<usize> = Vec::new();
    let mut k: usize = 0;
    proof {
        assert(nats(groups@) =~= repeated(c, 0));
    }
    while k < fold
        invariant
            k <= fold,
            c == nats(sizes@),
            springs@ == unfolded(raw@, k as int),
            nats(groups@) == repeated(c, k as int),
        decreases fold - k,
    {
        let ghost before = springs@;
        let ghost groups_before = nats(groups@);
        if k > 0 {
            springs.push(UNKNOWN);
        }
        let mut i: usize = 0;
        let ghost base = springs@;
        while i < raw.len()
            invariant
                i <= raw@.len(),
                springs@ == base + raw@.take(i as int),
            decreases raw@.len() - i,
        {
            let ghost now = springs@;
            springs.push(raw[i]);
            proof {
                assert(springs@ =~= base + raw@.take(i + 1));
            }
            i += 1;
        }
        let mut i: usize = 0;
        while i < sizes.len()
            invariant
                i <= sizes@.len(),
                c == nats(sizes@),
                nats(groups@) == groups_before + c.take(i as int),
            decreases sizes@.len() - i,
        {
            let ghost mid = nats(groups@);
            groups.push(sizes[i]);
            proof {
                assert(c[i as int] == sizes@[i as int]);
                assert(nats(groups@) =~= mid.push(c[i as int]));
                assert(c.take(i + 1) =~= c.take(i as int).push(c[i as int]));
                assert(nats(groups@) =~= groups_before + c.take(i + 1));
            }
            i += 1;
        }
        proof {
            assert(raw@.take(raw@.len() as int) =~= raw@);
            assert(c.take(c.len() as int) =~= c);
            if k == 0 {
                assert(springs@ =~= raw@);
            }
        }
        k += 1;
    }
    State { springs: springs.as_slice(), counts: groups.as_slice() }.count_arrangements()
}

/// The sum of the numbers of ways for the lines of a text.
fn sum_lines(data: &str, fold: usize) -> (r: Option<usize>)
    requires
        fold >= 1,
    ensures
        ({
            let lines = text_lines(data.spec_bytes());
            match total(lines, fold as int, lines.len() as int) {
                Some(v) => r == Some(v as usize),
                None => r.is_none(),
            }
        }),
{
    let lines = lines_of(data);
    let ghost rows = rows_of(lines@);
    let n = lines.len();
    let mut sum: usize = 0;
    let mut k: usize = 0;
    while k < n
        invariant
            k <= n,
            n == lines@.len(),
            rows == rows_of(lines@),
            rows == text_lines(data.spec_bytes()),
            fold >= 1,
            total(rows, fold as int, k as int) == Some(sum as nat),
        decreases n - k,
    {
        proof {
            assert(rows[k as int] == lines@[k as int]@);
        }
        let step = match line_ways(lines[k].as_slice(), fold) {
            Some(v) => sum.checked_add(v),
            None => None,
        };
        match step {
            Some(next) => {
                sum = next;
            },
            None => {
                proof {
                    lemma_total_stuck(rows, fold as int, k + 1, n as int);
                }
                return None;
            },
        }
        k += 1;
    }
    Some(sum)
}

/// The sum of the numbers of ways to settle each row as it is recorded.
pub fn part1(data: &str) -> (r: Option<usize>)
    ensures
        ({
            let lines = text_lines(data.spec_bytes());
            match total(lines, 1, lines.len() as int) {
                Some(v) => r == Some(v as usize),
                None => r.is_none(),
            }
        }),
{
    sum_lines(data, 1)
}

/// The sum of the numbers of ways to settle each row unfolded: five copies
/// of its springs with an unknown spring between each two, and five copies
/// of its groups.
pub fn part2(data: &str) -> (r: Option<usize>)
    ensures
        ({
            let lines = text_lines(data.spec_bytes());
            match total(lines, 5, lines.len() as int) {
                Some(v) => r == Some(v as usize),
                None => r.is_none(),
            }
        }),
{
    sum_lines(data, 5)
}

} // verus!
