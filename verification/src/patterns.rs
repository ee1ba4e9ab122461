//! Patterns of ash and rock, each with a line between two of its rows or
//! columns in which the pattern mirrors itself, but for a number of
//! smudges.

use vstd::prelude::*;
use vstd::string::StringSliceAdditionalSpecFns;
use crate::text::{
    content, content_of, grid_shape, line_len, rectangular, row_count, symbol, symbol_at,
};
use crate::words::{rows_of, split_str, split_str_bytes};

verus! {

/// What parts two patterns: an empty line.
pub open spec fn gap() -> Seq<u8> {
    "\n\n".spec_bytes()
}

/// The number of places among the first `k` in which row `a` and row `b`
/// differ.
pub open spec fn row_diff(s: Seq<u8>, a: int, b: int, k: int) -> nat
    decreases k,
{
    if k <= 0 {
        0
    } else {
        row_diff(s, a, b, k - 1) + if symbol_at(s, k - 1, a) != symbol_at(s, k - 1, b) {
            1nat
        } else {
            0
        }
    }
}

/// The number of places among the first `k` in which column `a` and column
/// `b` differ.
pub open spec fn col_diff(s: Seq<u8>, a: int, b: int, k: int) -> nat
    decreases k,
{
    if k <= 0 {
        0
    } else {
        col_diff(s, a, b, k - 1) + if symbol_at(s, a, k - 1) != symbol_at(s, b, k - 1) {
            1nat
        } else {
            0
        }
    }
}

/// The number of places in which the first `k` rows above the line before
/// row `y` differ from their images below it.
pub open spec fn above_below(s: Seq<u8>, y: int, k: int) -> nat
    decreases k,
{
    if k <= 0 {
        0
    } else {
        above_below(s, y, k - 1) + row_diff(s, y - k, y + k - 1, line_len(s))
    }
}

/// The number of places in which the first `k` columns left of the line
/// before column `x` differ from their images right of it.
pub open spec fn left_right(s: Seq<u8>, x: int, k: int) -> nat
    decreases k,
{
    if k <= 0 {
        0
    } else {
        left_right(s, x, k - 1) + col_diff(s, x - k, x + k - 1, row_count(s))
    }
}

/// The lesser of two numbers.
pub open spec fn lesser(a: int, b: int) -> int {
    if a <= b {
        a
    } else {
        b
    }
}

/// The number of smudges of the line before row `y`: the places in which
/// the rows above it differ from their images, as far as the pattern goes.
pub open spec fn row_smudges(s: Seq<u8>, y: int) -> nat {
    above_below(s, y, lesser(y, row_count(s) - y))
}

/// The number of smudges of the line before column `x`.
pub open spec fn col_smudges(s: Seq<u8>, x: int) -> nat {
    left_right(s, x, lesser(x, line_len(s) - x))
}

/// Whether the line before row `y` is the first between two rows with
/// `smudges` smudges.
pub open spec fn first_row(s: Seq<u8>, smudges: nat, y: int) -> bool {
    &&& 1 <= y < row_count(s)
    &&& row_smudges(s, y) == smudges
    &&& forall|j: int| 1 <= j < y ==> #[trigger] row_smudges(s, j) != smudges
}

/// Whether the line before column `x` is the first between two columns, or
/// behind the last, with `smudges` smudges.
pub open spec fn first_col(s: Seq<u8>, smudges: nat, x: int) -> bool {
    &&& 1 <= x <= line_len(s)
    &&& col_smudges(s, x) == smudges
    &&& forall|j: int| 1 <= j < x ==> #[trigger] col_smudges(s, j) != smudges
}

/// The note of a pattern: a hundred times the number of rows above the
/// first line between two rows with `smudges` smudges; or, if there is no
/// such line, the number of columns left of the first such line between two
/// columns, where the line behind the last column counts as one without
/// smudges. Nothing if the lines of the pattern are not equally long, or if
/// there is no line with so many smudges.
pub open spec fn note(s: Seq<u8>, smudges: nat) -> Option<nat> {
    if !rectangular(s) || line_len(s) == 0 {
        None
    } else if exists|y: int| first_row(s, smudges, y) {
        Some((100 * choose|y: int| first_row(s, smudges, y)) as nat)
    } else if exists|x: int| first_col(s, smudges, x) {
        Some((choose|x: int| first_col(s, smudges, x)) as nat)
    } else {
        None
    }
}

/// The sum of the notes of the first `k` patterns. Nothing if a pattern has
/// no note, or if the sum up to a pattern does not fit the machine word.
pub open spec fn summary(patterns: Seq<Seq<u8>>, smudges: nat, k: int) -> Option<nat>
    decreases k,
{
    if k <= 0 {
        Some(0)
    } else {
        match (summary(patterns, smudges, k - 1), note(patterns[k - 1], smudges)) {
            (Some(sum), Some(v)) => if sum + v <= usize::MAX {
                Some(sum + v)
            } else {
                None
            },
            _ => None,
        }
    }
}

proof fn lemma_summary_stuck(patterns: Seq<Seq<u8>>, smudges: nat, k: int, n: int)
    requires
        0 <= k <= n,
        summary(patterns, smudges, k).is_none(),
    ensures
        summary(patterns, smudges, n).is_none(),
    decreases n - k,
{
    if k < n {
        lemma_summary_stuck(patterns, smudges, k, n - 1);
    }
}

proof fn lemma_row_diff_bound(s: Seq<u8>, a: int, b: int, k: int)
    requires
        0 <= k,
    ensures
        row_diff(s, a, b, k) <= k,
    decreases k,
{
    if k > 0 {
        lemma_row_diff_bound(s, a, b, k - 1);
    }
}

proof fn lemma_col_diff_bound(s: Seq<u8>, a: int, b: int, k: int)
    requires
        0 <= k,
    ensures
        col_diff(s, a, b, k) <= k,
    decreases k,
{
    if k > 0 {
        lemma_col_diff_bound(s, a, b, k - 1);
    }
}

proof fn lemma_above_below_bound(s: Seq<u8>, y: int, k: int)
    requires
        0 <= k,
        0 <= line_len(s),
    ensures
        above_below(s, y, k) <= k * line_len(s),
    decreases k,
{
    if k > 0 {
        lemma_above_below_bound(s, y, k - 1);
        lemma_row_diff_bound(s, y - k, y + k - 1, line_len(s));
        assert(k * line_len(s) == (k - 1) * line_len(s) + line_len(s)) by (nonlinear_arith);
    } else {
        assert(0 * line_len(s) == 0);
    }
}

proof fn lemma_left_right_bound(s: Seq<u8>, x: int, k: int)
    requires
        0 <= k,
        0 <= row_count(s),
    ensures
        left_right(s, x, k) <= k * row_count(s),
    decreases k,
{
    if k > 0 {
        lemma_left_right_bound(s, x, k - 1);
        lemma_col_diff_bound(s, x - k, x + k - 1, row_count(s));
        assert(k * row_count(s) == (k - 1) * row_count(s) + row_count(s)) by (nonlinear_arith);
    } else {
        assert(0 * row_count(s) == 0);
    }
}

/// A pattern of rows and columns.
pub struct Pattern<'a> {
    data: &'a [u8],
    width: usize,
    height: usize,
}

impl<'a> Pattern<'a> {
    /// Well-formedness: the lines of the pattern are equally long and not
    /// empty.
    pub closed spec fn wf(&self) -> bool {
        &&& rectangular(self.data@)
        &&& self.width == line_len(self.data@)
        &&& self.height == row_count(self.data@)
        &&& self.width >= 1
        &&& self.height >= 1
        &&& self.height * (self.width + 1) == self.data@.len() + 1
    }

    /// The text of the pattern.
    pub closed spec fn text(&self) -> Seq<u8> {
        self.data@
    }

    /// Reads a pattern.
    pub fn from_input(data: &'a [u8]) -> (r: Option<Pattern<'a>>)
        ensures
            match r {
                Some(p) => p.wf() && p.text() == data@ && rectangular(data@)
                    && line_len(data@) >= 1,
                None => !rectangular(data@) || line_len(data@) == 0,
            },
    {
        match grid_shape(data) {
            Some((width, height)) => Some(Pattern { data, width, height }),
            None => None,
        }
    }

    /// The number of smudges of the line before row `y`.
    fn smudges_before_row(&self, y: usize) -> (r: usize)
        requires
            self.wf(),
            1 <= y < self.height,
        ensures
            r == row_smudges(self.data@, y as int),
    {
        let reach = if y <= self.height - y {
            y
        } else {
            self.height - y
        };
        let ghost s = self.data@;
        let len = self.data.len();
        let mut count: usize = 0;
        let mut k: usize = 0;
        proof {
            assert(self.height * self.width <= self.data@.len()) by (nonlinear_arith)
                requires
                    self.height * (self.width + 1) == self.data@.len() + 1,
                    self.height >= 1,
            ;
        }
        while k < reach
            invariant
                self.wf(),
                s == self.data@,
                1 <= y < self.height,
                reach == lesser(y as int, self.height - y),
                k <= reach,
                count == above_below(s, y as int, k as int),
                self.height * self.width <= s.len(),
                s.len() == len,
            decreases reach - k,
        {
            let (a, b) = (y - k - 1, y + k);
            let ghost base = count;
            let mut x: usize = 0;
            proof {
                lemma_above_below_bound(s, y as int, k as int);
                assert(k * self.width + self.width <= self.height * self.width)
                    by (nonlinear_arith)
                    requires
                        k < self.height,
                ;
            }
            while x < self.width
                invariant
                    self.wf(),
                    s == self.data@,
                    a < self.height,
                    b < self.height,
                    x <= self.width,
                    base <= k * self.width,
                    k * self.width + self.width <= s.len(),
                    s.len() == len,
                    count == base + row_diff(s, a as int, b as int, x as int),
                    row_diff(s, a as int, b as int, x as int) <= x,
                decreases self.width - x,
            {
                if symbol(self.data, self.width, self.height, x, a) != symbol(
                    self.data,
                    self.width,
                    self.height,
                    x,
                    b,
                ) {
                    count += 1;
                }
                x += 1;
            }
            k += 1;
        }
        count
    }

    /// The number of smudges of the line before column `x`.
    fn smudges_before_col(&self, x: usize) -> (r: usize)
        requires
            self.wf(),
            1 <= x <= self.width,
        ensures
            r == col_smudges(self.data@, x as int),
    {
        let reach = if x <= self.width - x {
            x
        } else {
            self.width - x
        };
        let ghost s = self.data@;
        let len = self.data.len();
        let mut count: usize = 0;
        let mut k: usize = 0;
        proof {
            assert(self.width * self.height <= self.data@.len()) by (nonlinear_arith)
                requires
                    self.height * (self.width + 1) == self.data@.len() + 1,
                    self.height >= 1,
            ;
        }
        while k < reach
            invariant
                self.wf(),
                s == self.data@,
                1 <= x <= self.width,
                reach == lesser(x as int, self.width - x),
                k <= reach,
                count == left_right(s, x as int, k as int),
                self.width * self.height <= s.len(),
                s.len() == len,
            decreases reach - k,
        {
            let (a, b) = (x - k - 1, x + k);
            let ghost base = count;
            let mut y: usize = 0;
            proof {
                lemma_left_right_bound(s, x as int, k as int);
                assert(k * self.height + self.height <= self.width * self.height)
                    by (nonlinear_arith)
                    requires
                        k < self.width,
                ;
            }
            while y < self.height
                invariant
                    self.wf(),
                    s == self.data@,
                    a < self.width,
                    b < self.width,
                    y <= self.height,
                    base <= k * self.height,
                    k * self.height + self.height <= s.len(),
                    s.len() == len,
                    count == base + col_diff(s, a as int, b as int, y as int),
                    col_diff(s, a as int, b as int, y as int) <= y,
                decreases self.height - y,
            {
                if symbol(self.data, self.width, self.height, a, y) != symbol(
                    self.data,
                    self.width,
                    self.height,
                    b,
                    y,
                ) {
                    count += 1;
                }
                y += 1;
            }
            k += 1;
        }
        count
    }

    /// The note of the pattern.
    pub fn note(&self, smudges: usize) -> (r: Option<usize>)
        requires
            self.wf(),
        ensures
            match note(self.text(), smudges as nat) {
                Some(v) => if v <= usize::MAX {
                    r == Some(v as usize)
                } else {
                    r.is_none()
                },
                None => r.is_none(),
            },
    {
        let ghost s = self.data@;
        let mut y: usize = 1;
        while y < self.height
            invariant
                self.wf(),
                s == self.data@,
                1 <= y <= self.height,
                forall|j: int| 1 <= j < y ==> #[trigger] row_smudges(s, j) != smudges as nat,
            decreases self.height - y,
        {
            if self.smudges_before_row(y) == smudges {
                proof {
                    assert(first_row(s, smudges as nat, y as int));
                    let c = choose|c: int| first_row(s, smudges as nat, c);
                    if c < y {
                        assert(row_smudges(s, c) != smudges as nat);
                    } else if y < c {
                        assert(row_smudges(s, y as int) != smudges as nat);
                    }
                }
                return y.checked_mul(100);
            }
            y += 1;
        }
        proof {
            assert forall|c: int| !first_row(s, smudges as nat, c) by {
                if 1 <= c < self.height {
                    assert(row_smudges(s, c) != smudges as nat);
                }
            }
        }
        let mut x: usize = 1;
        while x < self.width
            invariant
                self.wf(),
                s == self.data@,
                1 <= x <= self.width,
                forall|c: int| !first_row(s, smudges as nat, c),
                forall|j: int| 1 <= j < x ==> #[trigger] col_smudges(s, j) != smudges as nat,
            decreases self.width - x,
        {
            if self.smudges_before_col(x) == smudges {
                proof {
                    assert(first_col(s, smudges as nat, x as int));
                    let c = choose|c: int| first_col(s, smudges as nat, c);
                    if c < x {
                        assert(col_smudges(s, c) != smudges as nat);
                    } else if x < c {
                        assert(col_smudges(s, x as int) != smudges as nat);
                    }
                }
                return Some(x);
            }
            x += 1;
        }
        proof {
            assert(left_right(s, self.width as int, 0) == 0);
        }
        if smudges == 0 {
            proof {
                let w = self.width as int;
                assert(first_col(s, 0, w));
                let c = choose|c: int| first_col(s, 0, c);
                if c < w {
                    assert(col_smudges(s, c) != 0);
                }
            }
            return Some(self.width);
        }
        proof {
            assert forall|c: int| !first_col(s, smudges as nat, c) by {
                if 1 <= c < self.width {
                    assert(col_smudges(s, c) != smudges as nat);
                }
            }
        }
        None
    }
}

/// The sum of the notes of the patterns of a text, which are parted by
/// empty lines.
fn summarize(data: &str, smudges: usize) -> (r: Option<usize>)
    ensures
        ({
            let patterns = split_str(content(data.spec_bytes()), gap());
            match summary(patterns, smudges as nat, patterns.len() as int) {
                Some(v) => r == Some(v as usize),
                None => r.is_none(),
            }
        }),
{
    let text = content_of(data.as_bytes());
    let body = text.as_slice();
    let blocks = split_str_bytes(body, "\n\n".as_bytes());
    let ghost patterns = rows_of(blocks@);
    let n = blocks.len();
    let mut sum: usize = 0;
    let mut k: usize = 0;
    while k < n
        invariant
            k <= n,
            n == blocks@.len(),
            patterns == rows_of(blocks@),
            patterns == split_str(content(data.spec_bytes()), gap()),
            summary(patterns, smudges as nat, k as int) == Some(sum as nat),
        decreases n - k,
    {
        proof {
            assert(patterns[k as int] == blocks@[k as int]@);
        }
        let step = match Pattern::from_input(blocks[k].as_slice()) {
            Some(pattern) => match pattern.note(smudges) {
                Some(v) => sum.checked_add(v),
                None => None,
            },
            None => None,
        };
        match step {
            Some(next) => {
                sum = next;
            },
            None => {
                proof {
                    lemma_summary_stuck(patterns, smudges as nat, k + 1, n as int);
                }
                return None;
            },
        }
        k += 1;
    }
    Some(sum)
}

/// The sum of the notes of the patterns, each read at its line without a
/// smudge.
pub fn part1(data: &str) -> (r: Option<usize>)
    ensures
        ({
            let patterns = split_str(content(data.spec_bytes()), gap());
            match summary(patterns, 0, patterns.len() as int) {
                Some(v) => r == Some(v as usize),
                None => r.is_none(),
            }
        }),
{
    summarize(data, 0)
}

/// The sum of the notes of the patterns, each read at its line with one
/// smudge.
pub fn part2(data: &str) -> (r: Option<usize>)
    ensures
        ({
            let patterns = split_str(content(data.spec_bytes()), gap());
            match summary(patterns, 1, patterns.len() as int) {
                Some(v) => r == Some(v as usize),
                None => r.is_none(),
            }
        }),
{
    summarize(data, 1)
}

} // verus!
