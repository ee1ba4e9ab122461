//! Reading decimal numbers, and adding up without overflow.

use vstd::prelude::*;

verus! {

/// Whether a byte is a decimal digit.
pub open spec fn is_digit(b: u8) -> bool {
    48 <= b <= 57
}

/// Whether all bytes of `s` are decimal digits.
pub open spec fn all_digits(s: Seq<u8>) -> bool {
    forall|i: int| 0 <= i < s.len() ==> is_digit(#[trigger] s[i])
}

/// The number that a string of decimal digits stands for.
pub open spec fn digits_value(s: Seq<u8>) -> nat
    decreases s.len(),
{
    if s.len() == 0 {
        0
    } else {
        digits_value(s.drop_last()) * 10 + (s.last() - 48) as nat
    }
}

/// The number that `s` stands for if it is one or more decimal digits,
/// with or without a plus sign in front.
pub open spec fn unsigned(s: Seq<u8>) -> Option<nat> {
    let body = if s.len() > 0 && s[0] == 43 {
        s.skip(1)
    } else {
        s
    };
    if body.len() > 0 && all_digits(body) {
        Some(digits_value(body))
    } else {
        None
    }
}

/// The number that `s` stands for if it is one or more decimal digits, with
/// or without a plus or minus sign in front.
pub open spec fn signed(s: Seq<u8>) -> Option<int> {
    if s.len() > 0 && s[0] == 45 {
        let body = s.skip(1);
        if body.len() > 0 && all_digits(body) {
            Some(-(digits_value(body) as int))
        } else {
            None
        }
    } else {
        match unsigned(s) {
            Some(v) => Some(v as int),
            None => None,
        }
    }
}

/// A string of digits stands for no less than any of its beginnings.
pub proof fn lemma_digits_grow(s: Seq<u8>, k: int)
    requires
        all_digits(s),
        0 <= k <= s.len(),
    ensures
        digits_value(s.take(k)) <= digits_value(s),
    decreases s.len(),
{
    if k == s.len() {
        assert(s.take(k) =~= s);
    } else {
        let t = s.drop_last();
        assert(t.take(k) =~= s.take(k));
        assert(all_digits(t));
        lemma_digits_grow(t, k);
        assert(is_digit(s[s.len() - 1]));
        assert(digits_value(s) >= digits_value(t)) by (nonlinear_arith)
            requires
                digits_value(s) == digits_value(t) * 10 + (s.last() - 48) as nat,
                s.last() >= 48,
        ;
    }
}

/// Reads the digits of `s` from place `from` on.
pub fn parse_digits(s: &[u8], from: usize) -> (r: Option<u64>)
    requires
        from <= s@.len(),
    ensures
        match r {
            Some(v) => {
                &&& from < s@.len()
                &&& all_digits(s@.skip(from as int))
                &&& v == digits_value(s@.skip(from as int))
            },
            None => from == s@.len() || !all_digits(s@.skip(from as int)) || digits_value(
                s@.skip(from as int),
            ) > u64::MAX,
        },
{
    let n = s.len();
    if from == n {
        return None;
    }
    let ghost body = s@.skip(from as int);
    let mut acc: u64 = 0;
    let mut i: usize = from;
    proof {
        assert(body.take(0) =~= Seq::<u8>::empty());
    }
    while i < n
        invariant
            from <= i <= n,
            n == s@.len(),
            body == s@.skip(from as int),
            all_digits(body.take(i - from)),
            acc == digits_value(body.take(i - from)),
        decreases n - i,
    {
        let b = s[i];
        proof {
            assert(body[i - from] == b);
            let t = body.take(i - from + 1);
            assert(t.drop_last() =~= body.take(i - from));
            assert(t.last() == b);
        }
        if b < 48 || b > 57 {
            proof {
                assert(!is_digit(body[i - from]));
            }
            return None;
        }
        let d = (b - 48) as u64;
        if acc > (u64::MAX - d) / 10 {
            proof {
                if all_digits(body) {
                    lemma_digits_grow(body, i - from + 1);
                }
            }
            return None;
        }
        acc = acc * 10 + d;
        i += 1;
    }
    proof {
        assert(body.take(n - from) =~= body);
    }
    Some(acc)
}

/// Reads a number without a sign, or with a plus sign.
pub fn parse_usize(s: &[u8]) -> (r: Option<usize>)
    ensures
        match unsigned(s@) {
            Some(v) => if v <= usize::MAX {
                r == Some(v as usize)
            } else {
                r.is_none()
            },
            None => r.is_none(),
        },
{
    let from: usize = if s.len() > 0 && s[0] == 43 {
        1
    } else {
        0
    };
    proof {
        assert(s@.skip(0) =~= s@);
    }
    match parse_digits(s, from) {
        Some(v) => {
            if v <= usize::MAX as u64 {
                Some(v as usize)
            } else {
                None
            }
        },
        None => None,
    }
}

/// Reads a number with or without a sign.
pub fn parse_i64(s: &[u8]) -> (r: Option<i64>)
    ensures
        match signed(s@) {
            Some(v) => if i64::MIN <= v <= i64::MAX {
                r == Some(v as i64)
            } else {
                r.is_none()
            },
            None => r.is_none(),
        },
{
    proof {
        assert(s@.skip(0) =~= s@);
    }
    if s.len() > 0 && s[0] == 45 {
        match parse_digits(s, 1) {
            Some(v) => {
                if v <= i64::MAX as u64 {
                    Some(-(v as i64))
                } else if v == i64::MAX as u64 + 1 {
                    Some(i64::MIN)
                } else {
                    None
                }
            },
            None => None,
        }
    } else {
        let from: usize = if s.len() > 0 && s[0] == 43 {
            1
        } else {
            0
        };
        match parse_digits(s, from) {
            Some(v) => {
                if v <= i64::MAX as u64 {
                    Some(v as i64)
                } else {
                    None
                }
            },
            None => None,
        }
    }
}

} // verus!
