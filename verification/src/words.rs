//! Cutting a text into the pieces between separators, and into lines.

use vstd::prelude::*;
use vstd::slice::{slice_subrange, slice_to_vec};
use vstd::string::StringSliceAdditionalSpecFns;
use crate::text::{content, content_of, trim_bounds, trimmed, NEWLINE};

verus! {

/// The pieces of `s` between the bytes `sep`, in order. A text of `n`
/// separators has `n + 1` pieces, some of which may be empty.
pub open spec fn split(s: Seq<u8>, sep: u8) -> Seq<Seq<u8>>
    decreases s.len(),
{
    if s.len() == 0 {
        seq![Seq::<u8>::empty()]
    } else {
        let before = split(s.drop_last(), sep);
        if s.last() == sep {
            before.push(Seq::<u8>::empty())
        } else {
            before.update(before.len() - 1, before.last().push(s.last()))
        }
    }
}

/// The lines of a text: its pieces between line feeds, and none at all for
/// the empty text.
pub open spec fn lines(s: Seq<u8>) -> Seq<Seq<u8>> {
    if s.len() == 0 {
        Seq::<Seq<u8>>::empty()
    } else {
        split(s, NEWLINE)
    }
}

/// The lines of a text without the white space around it. A line ends
/// with a line feed, or with a carriage return and a line feed.
pub open spec fn text_lines(text: Seq<u8>) -> Seq<Seq<u8>> {
    lines(content(text))
}

/// The contents of a vector of byte vectors.
pub open spec fn rows_of(v: Seq<Vec<u8>>) -> Seq<Seq<u8>> {
    Seq::new(v.len(), |i: int| v[i]@)
}

/// A text has at least one piece.
pub proof fn lemma_split_len(s: Seq<u8>, sep: u8)
    ensures
        split(s, sep).len() >= 1,
    decreases s.len(),
{
    if s.len() > 0 {
        lemma_split_len(s.drop_last(), sep);
    }
}

/// Cuts `s` into the pieces between the bytes `sep`.
pub fn split_bytes(s: &[u8], sep: u8) -> (r: Vec<Vec<u8>>)
    ensures
        rows_of(r@) == split(s@, sep),
{
    let n = s.len();
    let mut out: Vec<Vec<u8>> = Vec::new();
    let mut cur: Vec<u8> = Vec::new();
    let mut i: usize = 0;
    proof {
        assert(s@.take(0) =~= Seq::<u8>::empty());
        assert(rows_of(out@).push(cur@) =~= split(s@.take(0), sep));
    }
    while i < n
        invariant
            i <= n,
            n == s@.len(),
            rows_of(out@).push(cur@) == split(s@.take(i as int), sep),
        decreases n - i,
    {
        let b = s[i];
        let ghost before = rows_of(out@).push(cur@);
        proof {
            let t = s@.take(i + 1);
            assert(t.drop_last() =~= s@.take(i as int));
            assert(t.last() == b);
        }
        if b == sep {
            out.push(cur);
            cur = Vec::new();
            proof {
                assert(rows_of(out@).push(cur@) =~= before.push(Seq::<u8>::empty()));
            }
        } else {
            cur.push(b);
            proof {
                assert(rows_of(out@).push(cur@) =~= before.update(
                    before.len() - 1,
                    before.last().push(b),
                ));
            }
        }
        i += 1;
    }
    proof {
        assert(s@.take(n as int) =~= s@);
    }
    let ghost last = rows_of(out@).push(cur@);
    out.push(cur);
    proof {
        assert(rows_of(out@) =~= last);
    }
    out
}

/// Cuts a text into its lines, once the white space around it is set
/// aside.
pub fn lines_of(text: &str) -> (r: Vec<Vec<u8>>)
    ensures
        rows_of(r@) == text_lines(text.spec_bytes()),
{
    let body = content_of(text.as_bytes());
    if body.len() == 0 {
        let r: Vec<Vec<u8>> = Vec::new();
        proof {
            assert(rows_of(r@) =~= Seq::<Seq<u8>>::empty());
        }
        return r;
    }
    split_bytes(body.as_slice(), NEWLINE)
}

/// Whether two byte strings are equal.
pub fn same_bytes(a: &[u8], b: &[u8]) -> (r: bool)
    ensures
        r == (a@ == b@),
{
    if a.len() != b.len() {
        return false;
    }
    let n = a.len();
    let mut i: usize = 0;
    while i < n
        invariant
            i <= n,
            n == a@.len(),
            n == b@.len(),
            forall|k: int| 0 <= k < i ==> a@[k] == b@[k],
        decreases n - i,
    {
        if a[i] != b[i] {
            return false;
        }
        i += 1;
    }
    proof {
        assert(a@ =~= b@);
    }
    true
}

/// Whether `line` begins with `prefix`.
pub open spec fn starts_with(line: Seq<u8>, prefix: Seq<u8>) -> bool {
    prefix.len() <= line.len() && line.take(prefix.len() as int) == prefix
}

/// What follows `prefix` in `line`, if `line` begins with it.
pub fn strip_prefix<'a>(line: &'a [u8], prefix: &[u8]) -> (r: Option<&'a [u8]>)
    ensures
        match r {
            Some(rest) => starts_with(line@, prefix@) && rest@ == line@.skip(prefix@.len() as int),
            None => !starts_with(line@, prefix@),
        },
{
    let n = prefix.len();
    if line.len() < n {
        return None;
    }
    let head = slice_subrange(line, 0, n);
    proof {
        assert(head@ =~= line@.take(n as int));
    }
    if !same_bytes(head, prefix) {
        return None;
    }
    let rest = slice_subrange(line, n, line.len());
    proof {
        assert(rest@ =~= line@.skip(n as int));
    }
    Some(rest)
}

/// The text without the white space around it.
pub fn trim_bytes<'a>(t: &'a [u8]) -> (r: &'a [u8])
    ensures
        r@ == trimmed(t@),
{
    let (a, e) = trim_bounds(t);
    slice_subrange(t, a, e)
}

/// Whether `sep` stands in `s` at place `i`.
pub open spec fn occurs_at(s: Seq<u8>, sep: Seq<u8>, i: int) -> bool {
    0 <= i && i + sep.len() <= s.len() && s.subrange(i, i + sep.len()) == sep
}

/// Whether the first place at which `sep` stands in `s` is `i`.
pub open spec fn first_at(s: Seq<u8>, sep: Seq<u8>, i: int) -> bool {
    occurs_at(s, sep, i) && forall|j: int| 0 <= j < i ==> !occurs_at(s, sep, j)
}

/// What stands before and behind the first `sep` in `s`, if there is one.
pub open spec fn split_once(s: Seq<u8>, sep: Seq<u8>) -> Option<(Seq<u8>, Seq<u8>)> {
    if exists|i: int| first_at(s, sep, i) {
        let i = choose|i: int| first_at(s, sep, i);
        Some((s.take(i), s.skip(i + sep.len())))
    } else {
        None
    }
}

/// The pieces of `s` between the strings `sep`, each found behind the end
/// of the one before.
pub open spec fn split_str(s: Seq<u8>, sep: Seq<u8>) -> Seq<Seq<u8>>
    decreases s.len(),
{
    if sep.len() == 0 {
        seq![s]
    } else {
        match split_once(s, sep) {
            Some((head, rest)) => if rest.len() < s.len() {
                seq![head] + split_str(rest, sep)
            } else {
                seq![s]
            },
            None => seq![s],
        }
    }
}

/// The first place is one place.
pub proof fn lemma_first_once(s: Seq<u8>, sep: Seq<u8>, i: int, j: int)
    requires
        first_at(s, sep, i),
        first_at(s, sep, j),
    ensures
        i == j,
{
}

/// The first place at which `sep` stands in `s`, if there is one.
pub fn find_first(s: &[u8], sep: &[u8]) -> (r: Option<usize>)
    ensures
        match r {
            Some(i) => first_at(s@, sep@, i as int),
            None => forall|i: int| !first_at(s@, sep@, i),
        },
{
    let n = s.len();
    let m = sep.len();
    if m > n {
        return None;
    }
    if m == 0 {
        proof {
            assert(s@.subrange(0, 0) =~= sep@);
        }
        return Some(0);
    }
    let mut i: usize = 0;
    while i <= n - m
        invariant
            1 <= m <= n,
            n == s@.len(),
            m == sep@.len(),
            i <= n - m + 1,
            forall|j: int| 0 <= j < i ==> !occurs_at(s@, sep@, j),
        decreases n - m + 1 - i,
    {
        let window = slice_subrange(s, i, i + m);
        if same_bytes(window, sep) {
            return Some(i);
        }
        i += 1;
    }
    proof {
        assert forall|k: int| !first_at(s@, sep@, k) by {
            if occurs_at(s@, sep@, k) {
                assert(k < i);
            }
        }
    }
    None
}

/// What stands before and behind the first `sep` in `s`.
pub fn split_once_bytes<'a>(s: &'a [u8], sep: &[u8]) -> (r: Option<(&'a [u8], &'a [u8])>)
    ensures
        match split_once(s@, sep@) {
            Some((head, rest)) => r.is_some() && r.unwrap().0@ == head && r.unwrap().1@ == rest,
            None => r.is_none(),
        },
{
    match find_first(s, sep) {
        Some(i) => {
            proof {
                let c = choose|c: int| first_at(s@, sep@, c);
                lemma_first_once(s@, sep@, i as int, c);
            }
            let n = s.len();
            let head = slice_subrange(s, 0, i);
            let rest = slice_subrange(s, i + sep.len(), n);
            proof {
                assert(head@ =~= s@.take(i as int));
                assert(rest@ =~= s@.skip(i + sep@.len()));
            }
            Some((head, rest))
        },
        None => None,
    }
}

/// Cuts `s` into the pieces between the strings `sep`.
pub fn split_str_bytes(s: &[u8], sep: &[u8]) -> (r: Vec<Vec<u8>>)
    ensures
        rows_of(r@) == split_str(s@, sep@),
{
    let mut out: Vec<Vec<u8>> = Vec::new();
    if sep.len() == 0 {
        out.push(slice_to_vec(s));
        proof {
            assert(rows_of(out@) =~= seq![s@]);
        }
        return out;
    }
    let mut rest: &[u8] = s;
    loop
        invariant_except_break
            split_str(s@, sep@) == rows_of(out@) + split_str(rest@, sep@),
        invariant
            sep@.len() > 0,
        ensures
            rows_of(out@) == split_str(s@, sep@),
        decreases rest@.len(),
    {
        let ghost before = rows_of(out@);
        match split_once_bytes(rest, sep) {
            Some((head, tail)) => {
                if tail.len() < rest.len() {
                    out.push(slice_to_vec(head));
                    proof {
                        assert(rows_of(out@) =~= before.push(head@));
                        assert(before + (seq![head@] + split_str(tail@, sep@)) =~= before.push(
                            head@,
                        ) + split_str(tail@, sep@));
                    }
                    rest = tail;
                } else {
                    out.push(slice_to_vec(rest));
                    proof {
                        assert(rows_of(out@) =~= before + seq![rest@]);
                    }
                    break ;
                }
            },
            None => {
                out.push(slice_to_vec(rest));
                proof {
                    assert(rows_of(out@) =~= before + seq![rest@]);
                }
                break ;
            },
        }
    }
    out
}

} // verus!
