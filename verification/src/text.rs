//! The shape of the text of a grid: surrounding white space, lines, and the
//! place of each symbol.

use vstd::prelude::*;
use vstd::slice::slice_subrange;
use vstd::string::StringSliceAdditionalSpecFns;

verus! {

/// The byte that ends a line.
pub const NEWLINE: u8 = 10;

/// Whether a byte is ASCII white space: a blank, a tab, a line feed, a
/// vertical tab, a form feed or a carriage return.
pub open spec fn is_space(b: u8) -> bool {
    b == 32 || 9 <= b <= 13
}

/// The number of white-space bytes at the front of `t`.
pub open spec fn leading(t: Seq<u8>) -> int
    decreases t.len(),
{
    if t.len() > 0 && is_space(t[0]) {
        1 + leading(t.skip(1))
    } else {
        0
    }
}

/// The number of white-space bytes at the back of `t`.
pub open spec fn trailing(t: Seq<u8>) -> int
    decreases t.len(),
{
    if t.len() > 0 && is_space(t.last()) {
        1 + trailing(t.drop_last())
    } else {
        0
    }
}

/// The text without the white space at its front and at its back.
pub open spec fn trimmed(t: Seq<u8>) -> Seq<u8> {
    let rest = t.skip(leading(t));
    rest.take(rest.len() - trailing(rest))
}

/// The byte that may stand before the byte that ends a line, a carriage
/// return.
pub const RETURN: u8 = 13;

/// The text with each line ended by a line feed alone: a carriage return
/// that stands directly before a line feed is left out.
pub open spec fn plain(s: Seq<u8>) -> Seq<u8>
    decreases s.len(),
{
    if s.len() == 0 {
        s
    } else if s.len() >= 2 && s.last() == NEWLINE && s[s.len() - 2] == RETURN {
        plain(s.drop_last().drop_last()).push(NEWLINE)
    } else {
        plain(s.drop_last()).push(s.last())
    }
}

/// What a text holds: the text without the white space around it, each line
/// ended by a line feed alone.
pub open spec fn content(text: Seq<u8>) -> Seq<u8> {
    plain(trimmed(text))
}

/// The length of the first line of `s`: the number of bytes before the first
/// newline, or all of them where there is none.
pub open spec fn line_len(s: Seq<u8>) -> int
    decreases s.len(),
{
    if s.len() == 0 || s[0] == NEWLINE {
        0
    } else {
        1 + line_len(s.skip(1))
    }
}

/// Whether all lines of `s` are as long as the first: the newlines stand
/// exactly where a line of that length ends.
pub open spec fn rectangular(s: Seq<u8>) -> bool {
    let stride = line_len(s) + 1;
    &&& (s.len() as int + 1) % stride == 0
    &&& forall|i: int| 0 <= i < s.len() ==>
        ((#[trigger] s[i]) == NEWLINE <==> i % stride == stride - 1)
}

/// The number of lines of a rectangular text.
pub open spec fn row_count(s: Seq<u8>) -> int {
    (s.len() as int + 1) / (line_len(s) + 1)
}

/// The symbol in column `x` of line `y` of a rectangular text.
pub open spec fn symbol_at(s: Seq<u8>, x: int, y: int) -> u8 {
    s[y * (line_len(s) + 1) + x]
}

/// `leading` is the place of the first byte that is no white space.
pub proof fn lemma_leading(t: Seq<u8>, a: int)
    requires
        0 <= a <= t.len(),
        forall|i: int| 0 <= i < a ==> is_space(#[trigger] t[i]),
        a < t.len() ==> !is_space(t[a]),
    ensures
        leading(t) == a,
    decreases a,
{
    if a > 0 {
        assert(is_space(t[0]));
        let u = t.skip(1);
        assert forall|i: int| 0 <= i < a - 1 implies is_space(#[trigger] u[i]) by {
            assert(u[i] == t[i + 1]);
        }
        lemma_leading(u, a - 1);
    }
}

/// `trailing` is the number of bytes behind the last one that is no white
/// space.
pub proof fn lemma_trailing(t: Seq<u8>, k: int)
    requires
        0 <= k <= t.len(),
        forall|i: int| t.len() - k <= i < t.len() ==> is_space(#[trigger] t[i]),
        k < t.len() ==> !is_space(t[t.len() - k - 1]),
    ensures
        trailing(t) == k,
    decreases k,
{
    if k > 0 {
        assert(is_space(t[t.len() - 1]));
        let u = t.drop_last();
        assert forall|i: int| u.len() - (k - 1) <= i < u.len()
            implies is_space(#[trigger] u[i]) by {
            assert(u[i] == t[i]);
        }
        lemma_trailing(u, k - 1);
    }
}

/// `line_len` is the place of the first newline.
pub proof fn lemma_line_len(s: Seq<u8>, w: int)
    requires
        0 <= w <= s.len(),
        forall|i: int| 0 <= i < w ==> (#[trigger] s[i]) != NEWLINE,
        w < s.len() ==> s[w] == NEWLINE,
    ensures
        line_len(s) == w,
    decreases w,
{
    if w > 0 {
        assert(s[0] != NEWLINE);
        let u = s.skip(1);
        assert forall|i: int| 0 <= i < w - 1 implies (#[trigger] u[i]) != NEWLINE by {
            assert(u[i] == s[i + 1]);
        }
        lemma_line_len(u, w - 1);
    }
}

/// Whether a byte is ASCII white space.
pub fn is_space_byte(b: u8) -> (r: bool)
    ensures
        r == is_space(b),
{
    b == 32 || (9 <= b && b <= 13)
}

/// The bounds of the text without the white space around it.
pub fn trim_bounds(t: &[u8]) -> (r: (usize, usize))
    ensures
        r.0 <= r.1 <= t@.len(),
        t@.subrange(r.0 as int, r.1 as int) == trimmed(t@),
{
    let n = t.len();
    let mut a: usize = 0;
    while a < n && is_space_byte(t[a])
        invariant
            a <= n,
            n == t@.len(),
            forall|i: int| 0 <= i < a ==> is_space(#[trigger] t@[i]),
        decreases n - a,
    {
        a += 1;
    }
    let mut e: usize = n;
    while e > a && is_space_byte(t[e - 1])
        invariant
            a <= e <= n,
            n == t@.len(),
            forall|i: int| e <= i < n ==> is_space(#[trigger] t@[i]),
        decreases e,
    {
        e -= 1;
    }
    proof {
        lemma_leading(t@, a as int);
        let rest = t@.skip(a as int);
        assert forall|i: int| rest.len() - (n - e) <= i < rest.len() implies is_space(
            #[trigger] rest[i],
        ) by {
            assert(rest[i] == t@[i + a]);
        }
        lemma_trailing(rest, n - e);
        assert(t@.subrange(a as int, e as int) =~= trimmed(t@));
    }
    (a, e)
}

/// The length of the first line.
pub fn first_line_len(s: &[u8]) -> (w: usize)
    ensures
        w == line_len(s@),
        w <= s@.len(),
{
    let n = s.len();
    let mut w: usize = 0;
    while w < n && s[w] != NEWLINE
        invariant
            w <= n,
            n == s@.len(),
            forall|i: int| 0 <= i < w ==> (#[trigger] s@[i]) != NEWLINE,
        decreases n - w,
    {
        w += 1;
    }
    proof {
        lemma_line_len(s@, w as int);
    }
    w
}

/// Whether all lines of `s` have one length.
pub fn is_rectangular_bytes(s: &[u8]) -> (ok: bool)
    ensures
        ok == rectangular(s@),
{
    let n = s.len();
    let w = first_line_len(s);
    if w == n {
        proof {
            assert((n + 1) % (n + 1) == 0) by {
                vstd::arithmetic::div_mod::lemma_mod_self_0(n + 1);
            }
            assert forall|i: int| 0 <= i < s@.len() implies ((#[trigger] s@[i]) == NEWLINE <==> i
                % (n + 1) == n) by {
                vstd::arithmetic::div_mod::lemma_small_mod(i as nat, (n + 1) as nat);
                lemma_line_len_no_newline(s@, i);
            }
        }
        return true;
    }
    let stride = w + 1;
    proof {
        vstd::arithmetic::div_mod::lemma_mod_add_multiples_vanish(n - w, stride as int);
        assert((n - w) + stride == n + 1);
    }
    if (n - w) % stride != 0 {
        return false;
    }
    let mut i: usize = 0;
    while i < n
        invariant
            i <= n,
            n == s@.len(),
            stride == w + 1,
            w == line_len(s@),
            forall|j: int| 0 <= j < i ==>
                ((#[trigger] s@[j]) == NEWLINE <==> j % (stride as int) == w),
        decreases n - i,
    {
        if (s[i] == NEWLINE) != (i % stride == w) {
            return false;
        }
        i += 1;
    }
    true
}

/// No byte of the first line is a newline.
pub proof fn lemma_line_len_no_newline(s: Seq<u8>, i: int)
    requires
        0 <= i < line_len(s),
    ensures
        i < s.len(),
        s[i] != NEWLINE,
    decreases s.len(),
{
    if s.len() == 0 || s[0] == NEWLINE {
    } else if i > 0 {
        lemma_line_len_no_newline(s.skip(1), i - 1);
        assert(s.skip(1)[i - 1] == s[i]);
    }
}

/// The first line ends at a newline or at the end of the text.
pub proof fn lemma_line_len_end(s: Seq<u8>)
    ensures
        0 <= line_len(s) <= s.len(),
        line_len(s) < s.len() ==> s[line_len(s)] == NEWLINE,
    decreases s.len(),
{
    if s.len() == 0 || s[0] == NEWLINE {
    } else {
        lemma_line_len_end(s.skip(1));
        if line_len(s) < s.len() {
            assert(s.skip(1)[line_len(s) - 1] == s[line_len(s)]);
        }
    }
}

/// The text with each line ended by a line feed alone.
pub fn plain_bytes(s: &[u8]) -> (out: Vec<u8>)
    ensures
        out@ == plain(s@),
        out@.len() <= s@.len(),
{
    let n = s.len();
    let mut out: Vec<u8> = Vec::new();
    let mut i: usize = 0;
    proof {
        assert(s@.take(0) =~= Seq::<u8>::empty());
    }
    while i < n
        invariant
            i <= n,
            n == s@.len(),
            out@ == plain(s@.take(i as int)),
            out@.len() <= i,
        decreases n - i,
    {
        let b = s[i];
        proof {
            let t = s@.take(i + 1);
            assert(t.drop_last() =~= s@.take(i as int));
            assert(t.last() == b);
            if i >= 1 {
                let u = s@.take(i as int);
                assert(t[t.len() - 2] == s@[i - 1]);
                assert(u.last() == s@[i - 1]);
                assert(u.drop_last() =~= s@.take(i - 1));
                assert(t.drop_last().drop_last() =~= s@.take(i - 1));
            }
        }
        if b == NEWLINE && i >= 1 && s[i - 1] == RETURN {
            proof {
                let u = s@.take(i as int);
                assert(out@ == plain(u.drop_last()).push(RETURN));
            }
            let ghost before = out@;
            out.pop();
            proof {
                assert(out@ =~= plain(s@.take(i - 1)));
            }
        }
        out.push(b);
        i += 1;
    }
    proof {
        assert(s@.take(n as int) =~= s@);
    }
    out
}

/// What a text holds: the text without the white space around it, each
/// line ended by a line feed alone.
pub fn content_of(text: &[u8]) -> (out: Vec<u8>)
    ensures
        out@ == content(text@),
        out@.len() <= text@.len(),
{
    let (a, e) = trim_bounds(text);
    plain_bytes(slice_subrange(text, a, e))
}

/// Whether all lines of the text are equally long, once the white space
/// around the text is set aside and each line ends with a line feed alone.
pub fn is_rectangular(text: &str) -> (ok: bool)
    ensures
        ok == rectangular(content(text.spec_bytes())),
{
    let body = content_of(text.as_bytes());
    is_rectangular_bytes(body.as_slice())
}

/// The lines of a rectangular text of `n` bytes with lines of `w` bytes.
pub proof fn lemma_shape(n: int, w: int)
    requires
        0 < w <= n,
        (n + 1) % (w + 1) == 0,
    ensures
        ((n - w) / (w + 1) + 1) * (w + 1) == n + 1,
        (n + 1) / (w + 1) == (n - w) / (w + 1) + 1,
        (n - w) / (w + 1) + 1 <= n,
{
    let d = w + 1;
    vstd::arithmetic::div_mod::lemma_fundamental_div_mod(n + 1, d);
    let q = (n + 1) / d;
    assert(d * q == q * d) by (nonlinear_arith);
    assert(q * d == n + 1);
    assert((q - 1) * d == n - w) by (nonlinear_arith)
        requires
            q * d == n + 1,
            d == w + 1,
    ;
    vstd::arithmetic::div_mod::lemma_fundamental_div_mod_converse(n - w, d, q - 1, 0);
    assert(q <= n) by (nonlinear_arith)
        requires
            q * d == n + 1,
            d >= 2,
            n >= 1,
    ;
}

/// The symbol of a cell has its place in the text, before the end, and the
/// place tells the cell.
pub proof fn lemma_symbol_index(x: int, y: int, w: int, h: int, n: int)
    requires
        0 <= x < w,
        0 <= y < h,
        h * (w + 1) == n + 1,
    ensures
        0 <= y * (w + 1) + x < n,
        (y * (w + 1) + x) % (w + 1) == x,
        (y * (w + 1) + x) / (w + 1) == y,
{
    crate::layout::lemma_cell_index(x, y, w + 1, h);
    assert(y * (w + 1) + x < n) by (nonlinear_arith)
        requires
            0 <= x < w,
            0 <= y < h,
            h * (w + 1) == n + 1,
    {
        assert((y + 1) * (w + 1) <= h * (w + 1));
    }
}

/// The columns and rows of a text whose lines are equally long and not
/// empty.
pub fn grid_shape(s: &[u8]) -> (r: Option<(usize, usize)>)
    ensures
        match r {
            Some((w, h)) => {
                &&& rectangular(s@)
                &&& w == line_len(s@)
                &&& h == row_count(s@)
                &&& w >= 1
                &&& h >= 1
                &&& h * (w + 1) == s@.len() + 1
            },
            None => !rectangular(s@) || line_len(s@) == 0,
        },
{
    if !is_rectangular_bytes(s) {
        return None;
    }
    let w = first_line_len(s);
    if w == 0 {
        return None;
    }
    let n = s.len();
    proof {
        lemma_shape(n as int, w as int);
    }
    if w == n {
        proof {
            assert((n - w) / (w + 1) as int == 0);
        }
        return Some((w, 1));
    }
    let h = (n - w) / (w + 1) + 1;
    Some((w, h))
}

/// The symbol in column `x` of line `y` of a rectangular text.
pub fn symbol(s: &[u8], w: usize, h: usize, x: usize, y: usize) -> (b: u8)
    requires
        rectangular(s@),
        w == line_len(s@),
        h * (w + 1) == s@.len() + 1,
        x < w,
        y < h,
    ensures
        b == symbol_at(s@, x as int, y as int),
{
    let n = s.len();
    proof {
        lemma_symbol_index(x as int, y as int, w as int, h as int, n as int);
    }
    if y == 0 {
        return s[x];
    }
    proof {
        assert(w + 1 <= y * (w + 1)) by (nonlinear_arith)
            requires
                y >= 1,
                w >= 0,
        ;
    }
    s[y * (w + 1) + x]
}

} // verus!
