//! A row of boxes of lenses. Each step of the manual puts a lens into the
//! box that the hash of its label names, or takes one out; at the end the
//! focusing power of the whole is added up.

use vstd::prelude::*;
use vstd::slice::{slice_subrange, slice_to_vec};
use vstd::string::StringSliceAdditionalSpecFns;
use crate::numbers::{parse_usize, unsigned};
use crate::text::{trim_bounds, trimmed};
use crate::words::{rows_of, same_bytes, split, split_bytes};

verus! {

/// The byte that parts the steps of the manual, a comma.
pub const COMMA: u8 = 44;

/// The byte of the step that takes a lens out, a dash.
pub const DASH: u8 = 45;

/// The byte of the step that puts a lens in, an equals sign.
pub const EQUALS: u8 = 61;

/// The hash of a string: beginning with zero, each byte is added and the
/// sum multiplied by 17, all in the numbers below 256.
pub open spec fn hash(s: Seq<u8>) -> nat
    decreases s.len(),
{
    if s.len() == 0 {
        0
    } else {
        ((hash(s.drop_last()) + s.last() as nat) * 17) % 256
    }
}

/// The sum of the hashes of the first `k` pieces.
pub open spec fn hash_sum(pieces: Seq<Seq<u8>>, k: int) -> nat
    decreases k,
{
    if k <= 0 {
        0
    } else {
        hash_sum(pieces, k - 1) + hash(pieces[k - 1])
    }
}

/// A lens in a box.
pub struct Lens {
    /// The label on the lens.
    pub label: Vec<u8>,
    /// Its focal length.
    pub focal: usize,
}

/// The lenses of a vector as pairs of label and focal length.
pub open spec fn lenses_of(v: Seq<Lens>) -> Seq<(Seq<u8>, nat)> {
    Seq::new(v.len(), |i: int| (v[i].label@, v[i].focal as nat))
}

/// Whether the lens in place `i` is the first with the label `label`.
pub open spec fn first_at(list: Seq<(Seq<u8>, nat)>, label: Seq<u8>, i: int) -> bool {
    &&& 0 <= i < list.len()
    &&& list[i].0 == label
    &&& forall|j: int| 0 <= j < i ==> (#[trigger] list[j]).0 != label
}

/// The lenses after one with the label `label` and the focal length `focal`
/// was put in: it takes the place of the lens with that label, or the last
/// place if there is none.
pub open spec fn put(list: Seq<(Seq<u8>, nat)>, label: Seq<u8>, focal: nat) -> Seq<(Seq<u8>, nat)> {
    if exists|i: int| first_at(list, label, i) {
        list.update(choose|i: int| first_at(list, label, i), (label, focal))
    } else {
        list.push((label, focal))
    }
}

/// The lenses after the one with the label `label` was taken out, if there
/// was one.
pub open spec fn take_out(list: Seq<(Seq<u8>, nat)>, label: Seq<u8>) -> Seq<(Seq<u8>, nat)> {
    if exists|i: int| first_at(list, label, i) {
        list.remove(choose|i: int| first_at(list, label, i))
    } else {
        list
    }
}

/// Whether a byte parts the label of a step from the rest.
pub open spec fn is_sign(b: u8) -> bool {
    b == DASH || b == EQUALS
}

/// Whether the first dash or equals sign of `step` stands in place `i`.
pub open spec fn sign_at(step: Seq<u8>, i: int) -> bool {
    &&& 0 <= i < step.len()
    &&& is_sign(step[i])
    &&& forall|j: int| 0 <= j < i ==> !is_sign(#[trigger] step[j])
}

/// The lenses after one step. The label is what stands before the first
/// dash or equals sign. Where nothing follows the sign, the lens with that
/// label is taken out; else what follows is the focal length of a lens to
/// put in. A step without a sign, or with a focal length that is no number,
/// has no outcome.
pub open spec fn apply(list: Seq<(Seq<u8>, nat)>, step: Seq<u8>) -> Option<Seq<(Seq<u8>, nat)>> {
    if exists|i: int| sign_at(step, i) {
        let i = choose|i: int| sign_at(step, i);
        let label = step.take(i);
        let rest = step.skip(i + 1);
        if rest.len() == 0 {
            Some(take_out(list, label))
        } else {
            match unsigned(rest) {
                Some(f) => if f <= usize::MAX {
                    Some(put(list, label, f))
                } else {
                    None
                },
                None => None,
            }
        }
    } else {
        None
    }
}

/// The lenses after all of `steps`, beginning with none.
pub open spec fn run(steps: Seq<Seq<u8>>) -> Option<Seq<(Seq<u8>, nat)>>
    decreases steps.len(),
{
    if steps.len() == 0 {
        Some(Seq::empty())
    } else {
        match run(steps.drop_last()) {
            Some(list) => apply(list, steps.last()),
            None => None,
        }
    }
}

/// The number of lenses among the first `k` that lie in the box of the lens
/// in place `i`.
pub open spec fn box_mates(list: Seq<(Seq<u8>, nat)>, i: int, k: int) -> nat
    decreases k,
{
    if k <= 0 {
        0
    } else {
        box_mates(list, i, k - 1) + if hash(list[k - 1].0) == hash(list[i].0) {
            1nat
        } else {
            0
        }
    }
}

/// The focusing power of the lens in place `i`: the number of its box,
/// counted from one, times the number of its slot in the box, counted from
/// one, times its focal length.
pub open spec fn lens_power(list: Seq<(Seq<u8>, nat)>, i: int) -> nat {
    (hash(list[i].0) + 1) * (box_mates(list, i, i) + 1) * list[i].1
}

/// The focusing power of the first `k` lenses.
pub open spec fn power_upto(list: Seq<(Seq<u8>, nat)>, k: int) -> nat
    decreases k,
{
    if k <= 0 {
        0
    } else {
        power_upto(list, k - 1) + lens_power(list, k - 1)
    }
}

/// The focusing power of all lenses.
pub open spec fn power(list: Seq<(Seq<u8>, nat)>) -> nat {
    power_upto(list, list.len() as int)
}

/// The hash of a string.
pub fn hash_bytes(s: &[u8]) -> (h: usize)
    ensures
        h == hash(s@),
        h < 256,
{
    let n = s.len();
    let mut state: u8 = 0;
    let mut i: usize = 0;
    proof {
        assert(s@.take(0) =~= Seq::<u8>::empty());
    }
    while i < n
        invariant
            i <= n,
            n == s@.len(),
            state == hash(s@.take(i as int)),
        decreases n - i,
    {
        let b = s[i];
        proof {
            let t = s@.take(i + 1);
            assert(t.drop_last() =~= s@.take(i as int));
            assert(t.last() == b);
            let sum = state as int + b as int;
            let wrapped = if sum > 255 {
                sum - 256
            } else {
                sum
            };
            assert((wrapped * 17) % 256 == (sum * 17) % 256) by {
                if sum > 255 {
                    assert(sum * 17 == wrapped * 17 + 17 * 256) by (nonlinear_arith)
                        requires
                            sum == wrapped + 256,
                    ;
                    vstd::arithmetic::div_mod::lemma_mod_multiples_vanish(17, wrapped * 17, 256);
                }
            }
        }
        state = state.wrapping_add(b).wrapping_mul(17);
        i += 1;
    }
    proof {
        assert(s@.take(n as int) =~= s@);
    }
    state as usize
}

/// The hash of a string.
pub fn hash_str(v: &str) -> (h: usize)
    ensures
        h == hash(v.spec_bytes()),
        h < 256,
{
    hash_bytes(v.as_bytes())
}

/// The sum of hashes grows with each piece.
proof fn lemma_hash_sum_grows(pieces: Seq<Seq<u8>>, k: int, n: int)
    requires
        0 <= k <= n,
    ensures
        hash_sum(pieces, k) <= hash_sum(pieces, n),
    decreases n - k,
{
    if k < n {
        lemma_hash_sum_grows(pieces, k, n - 1);
    }
}

/// The sum of the hashes of the steps of the manual, which are parted by
/// commas; nothing if the sum does not fit the machine word.
pub fn part1(data: &str) -> (r: Option<usize>)
    ensures
        ({
            let pieces = split(trimmed(data.spec_bytes()), COMMA);
            let sum = hash_sum(pieces, pieces.len() as int);
            if sum <= usize::MAX {
                r == Some(sum as usize)
            } else {
                r.is_none()
            }
        }),
{
    let bytes = data.as_bytes();
    let (a, e) = trim_bounds(bytes);
    let body = slice_subrange(bytes, a, e);
    let steps = split_bytes(body, COMMA);
    let ghost pieces = rows_of(steps@);
    let n = steps.len();
    let mut sum: usize = 0;
    let mut k: usize = 0;
    while k < n
        invariant
            k <= n,
            n == steps@.len(),
            pieces == rows_of(steps@),
            pieces == split(trimmed(data.spec_bytes()), COMMA),
            sum == hash_sum(pieces, k as int),
        decreases n - k,
    {
        let h = hash_bytes(steps[k].as_slice());
        match sum.checked_add(h) {
            Some(next) => {
                proof {
                    assert(pieces[k as int] == steps@[k as int]@);
                }
                sum = next;
            },
            None => {
                proof {
                    assert(pieces[k as int] == steps@[k as int]@);
                    assert(hash_sum(pieces, k + 1) == hash_sum(pieces, k as int) + hash(
                        pieces[k as int],
                    ));
                    lemma_hash_sum_grows(pieces, k + 1, n as int);
                }
                return None;
            },
        }
        k += 1;
    }
    Some(sum)
}

/// The place of the first lens with the label `label`, if there is one.
pub fn find_lens(lenses: &Vec<Lens>, label: &[u8]) -> (r: Option<usize>)
    ensures
        match r {
            Some(i) => first_at(lenses_of(lenses@), label@, i as int),
            None => forall|i: int| !first_at(lenses_of(lenses@), label@, i),
        },
{
    let n = lenses.len();
    let ghost list = lenses_of(lenses@);
    let mut i: usize = 0;
    while i < n
        invariant
            i <= n,
            n == lenses@.len(),
            list == lenses_of(lenses@),
            forall|j: int| 0 <= j < i ==> (#[trigger] list[j]).0 != label@,
        decreases n - i,
    {
        if same_bytes(lenses[i].label.as_slice(), label) {
            return Some(i);
        }
        i += 1;
    }
    proof {
        assert forall|k: int| !first_at(list, label@, k) by {
            if 0 <= k < n {
                assert(list[k].0 != label@);
            }
        }
    }
    None
}

/// The place of the first dash or equals sign of a step, if there is one.
pub fn find_sign(step: &[u8]) -> (r: Option<usize>)
    ensures
        match r {
            Some(i) => sign_at(step@, i as int),
            None => forall|i: int| !sign_at(step@, i),
        },
{
    let n = step.len();
    let mut i: usize = 0;
    while i < n
        invariant
            i <= n,
            n == step@.len(),
            forall|j: int| 0 <= j < i ==> !is_sign(#[trigger] step@[j]),
        decreases n - i,
    {
        if step[i] == DASH || step[i] == EQUALS {
            return Some(i);
        }
        i += 1;
    }
    proof {
        assert forall|k: int| !sign_at(step@, k) by {
            if 0 <= k < n {
                assert(!is_sign(step@[k]));
            }
        }
    }
    None
}

/// The first place with a label, or with a sign, is one place.
proof fn lemma_first_once(list: Seq<(Seq<u8>, nat)>, label: Seq<u8>, i: int, j: int)
    requires
        first_at(list, label, i),
        first_at(list, label, j),
    ensures
        i == j,
{
    if i < j {
        assert(list[i].0 != label);
    } else if j < i {
        assert(list[j].0 != label);
    }
}

proof fn lemma_sign_once(step: Seq<u8>, i: int, j: int)
    requires
        sign_at(step, i),
        sign_at(step, j),
    ensures
        i == j,
{
    if i < j {
        assert(!is_sign(step[i]));
    } else if j < i {
        assert(!is_sign(step[j]));
    }
}

/// Carries out one step on the lenses; tells whether the step had an
/// outcome.
pub fn apply_step(lenses: &mut Vec<Lens>, step: &[u8]) -> (ok: bool)
    ensures
        match apply(lenses_of(old(lenses)@), step@) {
            Some(list) => ok && lenses_of(final(lenses)@) == list,
            None => !ok,
        },
{
    let ghost before = lenses_of(lenses@);
    let i = match find_sign(step) {
        Some(i) => i,
        None => {
            return false;
        },
    };
    proof {
        let c = choose|c: int| sign_at(step@, c);
        lemma_sign_once(step@, i as int, c);
    }
    let len = step.len();
    let label = slice_subrange(step, 0, i);
    let rest = slice_subrange(step, i + 1, len);
    proof {
        assert(label@ =~= step@.take(i as int));
        assert(rest@ =~= step@.skip(i + 1));
    }
    let found = find_lens(lenses, label);
    proof {
        if let Some(p) = found {
            let c = choose|c: int| first_at(before, label@, c);
            lemma_first_once(before, label@, p as int, c);
        }
    }
    if rest.len() == 0 {
        match found {
            Some(p) => {
                lenses.remove(p);
                proof {
                    assert(lenses_of(lenses@) =~= before.remove(p as int));
                }
            },
            None => {},
        }
        true
    } else {
        match parse_usize(rest) {
            Some(focal) => {
                let lens = Lens { label: slice_to_vec(label), focal };
                match found {
                    Some(p) => {
                        lenses.set(p, lens);
                        proof {
                            assert(lenses_of(lenses@) =~= before.update(
                                p as int,
                                (label@, focal as nat),
                            ));
                        }
                    },
                    None => {
                        lenses.push(lens);
                        proof {
                            assert(lenses_of(lenses@) =~= before.push((label@, focal as nat)));
                        }
                    },
                }
                true
            },
            None => false,
        }
    }
}

/// Steps that have no outcome have none however many follow.
proof fn lemma_run_stuck(steps: Seq<Seq<u8>>, k: int)
    requires
        0 <= k <= steps.len(),
        run(steps.take(k)).is_none(),
    ensures
        run(steps).is_none(),
    decreases steps.len() - k,
{
    if k < steps.len() {
        let t = steps.take(k + 1);
        assert(t.drop_last() =~= steps.take(k));
        lemma_run_stuck(steps, k + 1);
    } else {
        assert(steps.take(k) =~= steps);
    }
}

/// The focusing power grows with each lens.
proof fn lemma_power_grows(list: Seq<(Seq<u8>, nat)>, k: int, n: int)
    requires
        0 <= k <= n,
    ensures
        power_upto(list, k) <= power_upto(list, n),
    decreases n - k,
{
    if k < n {
        lemma_power_grows(list, k, n - 1);
    }
}

/// The focusing power of the lenses; nothing if it does not fit the machine
/// word.
pub fn total_power(lenses: &Vec<Lens>) -> (r: Option<usize>)
    ensures
        if power(lenses_of(lenses@)) <= usize::MAX {
            r == Some(power(lenses_of(lenses@)) as usize)
        } else {
            r.is_none()
        },
{
    let n = lenses.len();
    let ghost list = lenses_of(lenses@);
    let mut total: usize = 0;
    let mut i: usize = 0;
    while i < n
        invariant
            i <= n,
            n == lenses@.len(),
            list == lenses_of(lenses@),
            total == power_upto(list, i as int),
        decreases n - i,
    {
        let h = hash_bytes(lenses[i].label.as_slice());
        let mut slot: usize = 1;
        let mut j: usize = 0;
        while j < i
            invariant
                j <= i < n,
                n == lenses@.len(),
                list == lenses_of(lenses@),
                h == hash(list[i as int].0),
                slot == box_mates(list, i as int, j as int) + 1,
                slot <= j + 1,
            decreases i - j,
        {
            if hash_bytes(lenses[j].label.as_slice()) == h {
                slot += 1;
            }
            j += 1;
        }
        let focal = lenses[i].focal;
        proof {
            lemma_power_grows(list, i + 1, n as int);
            assert(lens_power(list, i as int) == (h + 1) * slot * focal);
        }
        if focal > 0 {
            let a = match focal.checked_mul(slot) {
                Some(a) => a,
                None => {
                    proof {
                        assert((h + 1) * slot * focal >= focal * slot) by (nonlinear_arith)
                            requires
                                h >= 0,
                                slot >= 1,
                                focal >= 1,
                        ;
                    }
                    return None;
                },
            };
            let b = match a.checked_mul(h + 1) {
                Some(b) => b,
                None => {
                    proof {
                        assert((h + 1) * slot * focal == focal * slot * (h + 1))
                            by (nonlinear_arith);
                    }
                    return None;
                },
            };
            proof {
                assert((h + 1) * slot * focal == focal * slot * (h + 1)) by (nonlinear_arith);
            }
            total = match total.checked_add(b) {
                Some(t) => t,
                None => {
                    return None;
                },
            };
        } else {
            proof {
                assert((h + 1) * slot * 0 == 0) by (nonlinear_arith);
            }
        }
        i += 1;
    }
    Some(total)
}

/// The lenses that the manual leaves in the boxes, if each of its steps has
/// an outcome.
pub open spec fn arrange(text: Seq<u8>) -> Option<Seq<(Seq<u8>, nat)>> {
    run(split(trimmed(text), COMMA))
}

/// The focusing power of the lenses that the manual leaves in the boxes.
/// Nothing if a step of the manual has no outcome, or if the power does not
/// fit the machine word.
pub fn part2(data: &str) -> (r: Option<usize>)
    ensures
        match arrange(data.spec_bytes()) {
            Some(list) => if power(list) <= usize::MAX {
                r == Some(power(list) as usize)
            } else {
                r.is_none()
            },
            None => r.is_none(),
        },
{
    let bytes = data.as_bytes();
    let (a, e) = trim_bounds(bytes);
    let body = slice_subrange(bytes, a, e);
    let steps = split_bytes(body, COMMA);
    let ghost pieces = rows_of(steps@);
    let n = steps.len();
    let mut lenses: Vec<Lens> = Vec::new();
    let mut k: usize = 0;
    proof {
        assert(pieces.take(0) =~= Seq::<Seq<u8>>::empty());
        assert(lenses_of(lenses@) =~= Seq::<(Seq<u8>, nat)>::empty());
    }
    while k < n
        invariant
            k <= n,
            n == steps@.len(),
            pieces == rows_of(steps@),
            pieces == split(trimmed(data.spec_bytes()), COMMA),
            run(pieces.take(k as int)) == Some(lenses_of(lenses@)),
        decreases n - k,
    {
        proof {
            let t = pieces.take(k + 1);
            assert(t.drop_last() =~= pieces.take(k as int));
            assert(t.last() == steps@[k as int]@);
        }
        let ghost before = lenses_of(lenses@);
        if !apply_step(&mut lenses, steps[k].as_slice()) {
            proof {
                assert(run(pieces.take(k + 1)) == apply(before, steps@[k as int]@));
                lemma_run_stuck(pieces, k + 1);
            }
            return None;
        }
        proof {
            assert(run(pieces.take(k + 1)) == apply(before, steps@[k as int]@));
        }
        k += 1;
    }
    proof {
        assert(pieces.take(n as int) =~= pieces);
    }
    total_power(&lenses)
}

} // verus!
