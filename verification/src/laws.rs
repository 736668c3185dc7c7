//! The laws that tie the three components together: per-opcode soundness
//! of the checker's interval reasoning against the interpreter's value
//! operations, the algebra of the clamp operators, and the vacuity of
//! zero-count drops and rerolls.

use vstd::prelude::*;
use vstd::relations::{sorted_by, total_ordering};
use vstd::seq_lib::lemma_sorted_unique;
use vstd::wrapping::i64_specs;

use crate::checker::{max64, min64};
use crate::interpreter::{clamp_above, clamp_below, sorted, value_wf, wrap_sum, SudiceValue};

verus! {

/// Soundness of the interval step for addition: when the extreme sums do
/// not overflow, the (wrapping) sum of values inside the two envelopes
/// lies inside the envelope of the wrapping sums, exactly as the checker
/// pairs minimum with minimum and maximum with maximum.
pub proof fn lemma_add_sound(a: i64, b: i64, amin: i64, amax: i64, bmin: i64, bmax: i64)
    requires
        amin <= a <= amax,
        bmin <= b <= bmax,
        i64::MIN <= amin + bmin,
        amax + bmax <= i64::MAX,
    ensures
        i64_specs::wrapping_add(amin, bmin) <= i64_specs::wrapping_add(a, b)
            <= i64_specs::wrapping_add(amax, bmax),
{
}

/// Soundness of the inverted interval step for subtraction: to bound a
/// difference from below the checker subtracts the operand's maximum,
/// and from above its minimum.
pub proof fn lemma_sub_sound(a: i64, b: i64, amin: i64, amax: i64, bmin: i64, bmax: i64)
    requires
        amin <= a <= amax,
        bmin <= b <= bmax,
        i64::MIN <= amin - bmax,
        amax - bmin <= i64::MAX,
    ensures
        i64_specs::wrapping_sub(amin, bmax) <= i64_specs::wrapping_sub(a, b)
            <= i64_specs::wrapping_sub(amax, bmin),
{
}

/// Soundness of the interval step for multiplication, on non-negative
/// envelopes (the checker pairs minima and maxima directly, which is
/// sound only there).
pub proof fn lemma_mul_sound(a: i64, b: i64, amin: i64, amax: i64, bmin: i64, bmax: i64)
    requires
        0 <= amin <= a <= amax,
        0 <= bmin <= b <= bmax,
        amax * bmax <= i64::MAX,
    ensures
        i64_specs::wrapping_mul(amin, bmin) <= i64_specs::wrapping_mul(a, b)
            <= i64_specs::wrapping_mul(amax, bmax),
{
    assert(amin * bmin <= a * b <= amax * bmax) by (nonlinear_arith)
        requires
            0 <= amin <= a <= amax,
            0 <= bmin <= b <= bmax,
    ;
    assert(0 <= amin * bmin) by (nonlinear_arith)
        requires
            0 <= amin && 0 <= bmin,
    ;
    assert(i64_specs::wrapping_mul(amin, bmin) == amin * bmin) by {
        lemma_wrapping_mul_in_range(amin, bmin);
    };
    assert(i64_specs::wrapping_mul(a, b) == a * b) by {
        lemma_wrapping_mul_in_range(a, b);
    };
    assert(i64_specs::wrapping_mul(amax, bmax) == amax * bmax) by {
        lemma_wrapping_mul_in_range(amax, bmax);
    };
}

/// A product of 64-bit values that fits in 64 bits is what the wrapping
/// multiplication returns.
pub proof fn lemma_wrapping_mul_in_range(a: i64, b: i64)
    requires
        i64::MIN <= a * b <= i64::MAX,
    ensures
        i64_specs::wrapping_mul(a, b) == a * b,
{
    let range = 0x1_0000_0000_0000_0000;
    if a * b >= 0 {
        vstd::arithmetic::div_mod::lemma_small_mod((a * b) as nat, range as nat);
    } else {
        vstd::arithmetic::div_mod::lemma_mod_adds(a * b, range, range);
        vstd::arithmetic::div_mod::lemma_small_mod((a * b + range) as nat, range as nat);
        assert((a * b) % range == (a * b + range) % range) by {
            vstd::arithmetic::div_mod::lemma_mod_add_multiples_vanish(a * b, range);
        };
    }
}

/// The wrapping sum of dice that all lie on `[1, face]` lies between the
/// die count and count-times-face, provided the extreme total fits.
pub proof fn lemma_wrap_sum_bounds(s: Seq<i64>, face: i64)
    requires
        1 <= face,
        forall|k: int| 0 <= k < s.len() ==> 1 <= #[trigger] s[k] <= face,
        s.len() * face <= i64::MAX,
    ensures
        s.len() <= wrap_sum(s) <= s.len() * face,
    decreases s.len(),
{
    if s.len() == 0 {
    } else {
        assert((s.len() - 1) * face == s.len() * face - face) by (nonlinear_arith);
        assert(s.len() - 1 <= (s.len() - 1) * face) by (nonlinear_arith)
            requires
                1 <= face && s.len() >= 1,
        ;
        lemma_wrap_sum_bounds(s.drop_last(), face);
    }
}

/// Soundness of the checker's treatment of `Roll`: a fresh die group of
/// a count inside the operand's envelope, with every die on `[1, face]`,
/// collapses between the two abstract die groups the checker forms (all
/// ones at the minimum, all faces at the maximum).
pub proof fn lemma_roll_sound(face: i64, vals: Seq<i64>, cmin: i64, cmax: i64)
    requires
        1 <= face,
        0 <= cmin <= vals.len() <= cmax,
        forall|k: int| 0 <= k < vals.len() ==> 1 <= #[trigger] vals[k] <= face,
        cmax * face <= i64::MAX,
    ensures
        i64_specs::wrapping_mul(cmin, 1) <= wrap_sum(vals) <= i64_specs::wrapping_mul(cmax, face),
{
    assert(vals.len() * face <= cmax * face) by (nonlinear_arith)
        requires
            vals.len() <= cmax && 1 <= face,
    ;
    lemma_wrap_sum_bounds(vals, face);
    lemma_wrapping_mul_in_range(cmin, 1);
    assert(0 <= cmax * face) by (nonlinear_arith)
        requires
            0 <= cmax && 1 <= face,
    ;
    lemma_wrapping_mul_in_range(cmax, face);
}

/// Soundness of the checker's clamps, one die at a time: capping a die
/// with an operand inside its envelope keeps the die inside the capped
/// envelope. `Ceil` lowers the upper side, `Floor` raises the lower.
pub proof fn lemma_clamp_sound(d: i64, n: i64, smin: i64, smax: i64, nmin: i64, nmax: i64)
    requires
        smin <= d <= smax,
        nmin <= n <= nmax,
    ensures
        min64(smin, nmin) <= clamp_above(d, n) <= min64(smax, nmax),
        max64(smin, nmin) <= clamp_below(d, n) <= max64(smax, nmax),
{
}

/// Soundness of the checker's reroll neutrality: replacing dice by fresh
/// ones on `[1, face]` stays inside any per-die envelope that contains
/// that whole range (the checker leaves the die group untouched).
pub proof fn lemma_reroll_sound(d: i64, face: i64, smin: i64, smax: i64)
    requires
        1 <= d <= face,
        smin <= 1,
        face <= smax,
    ensures
        smin <= d <= smax,
{
}

/// Soundness of the checker's drop step for a statically fixed count:
/// dropping `n` of at least `lmin` and at most `lmax` dice leaves a
/// count between `lmin - n` and `lmax - n`.
pub proof fn lemma_drop_sound(len: int, n: int, lmin: int, lmax: int)
    requires
        lmin <= len <= lmax,
        0 <= n < lmin,
    ensures
        lmin - n <= len - n <= lmax - n,
        0 < len - n,
{
}

/// Soundness of the comparison step: when the envelopes are disjoint the
/// checker decides the predicate, and the interpreter's boolean encoding
/// (1 for true, 2 for false) lands on exactly that answer; otherwise the
/// answer lies in the whole boolean range `[1, 2]`.
pub proof fn lemma_cmp_sound(a: i64, b: i64, amin: i64, amax: i64, bmin: i64, bmax: i64)
    requires
        amin <= a <= amax,
        bmin <= b <= bmax,
    ensures
        amax < bmin ==> (a < b && !(a > b) && a != b),
        bmax < amin ==> (a > b && !(a < b) && a != b),
        1 <= (if a < b {
            1int
        } else {
            2int
        }) <= 2,
{
}

/// Soundness of the boolean step: a value can be truthy (collapse to 1)
/// only if 1 lies inside its envelope; a connective whose operands rule
/// truth out is certainly false.
pub proof fn lemma_logic_sound(a: i64, b: i64, amin: i64, amax: i64, bmin: i64, bmax: i64)
    requires
        amin <= a <= amax,
        bmin <= b <= bmax,
    ensures
        a == 1 ==> (amin <= 1 && 1 <= amax),
        (a == 1 && b == 1) ==> ((amin <= 1 && 1 <= amax) && (bmin <= 1 && 1 <= bmax)),
        (a == 1 || b == 1) ==> ((amin <= 1 && 1 <= amax) || (bmin <= 1 && 1 <= bmax)),
{
}

/// Soundness of the checker's neutrality on `BestOf` / `WorstOf`:
/// keeping the best (or worst) of samples that each lie in one envelope
/// never leaves it.
pub proof fn lemma_iter_sound(acc: i64, sample: i64, lo: i64, hi: i64)
    requires
        lo <= acc <= hi,
        lo <= sample <= hi,
    ensures
        lo <= max64(acc, sample) <= hi,
        lo <= min64(acc, sample) <= hi,
{
}

/// Clamping from above twice clamps by the smaller bound: on a settled
/// integer, `Ceil(n)` after `Ceil(m)` is `Ceil(min(n, m))`.
pub proof fn lemma_ceil_ceil_scalar(v: i64, n: i64, m: i64)
    ensures
        clamp_above(clamp_above(v, n), m) == clamp_above(v, min64(n, m)),
{
}

/// Clamping a die group from above twice clamps by the smaller bound:
/// `Ceil(n)` then `Ceil(m)` produces, die for die, exactly what
/// `Ceil(min(n, m))` produces — so the two agree on every run.
pub proof fn lemma_ceil_ceil_dice(s: Seq<i64>, n: i64, m: i64)
    ensures
        s.map_values(|d: i64| clamp_above(d, n)).map_values(|d: i64| clamp_above(d, m))
            =~= s.map_values(|d: i64| clamp_above(d, min64(n, m))),
{
}

/// `DropLowest(0)` is a no-op: a die group that meets the drop contract
/// at count zero carries exactly the input's face and dice.
pub proof fn lemma_drop_lowest_zero(v: SudiceValue, res: SudiceValue)
    requires
        v is Vector,
        res is Vector,
        res->Vector_0 == v->Vector_0,
        res->Vector_1@ == v->Vector_1@.skip(0),
    ensures
        res->Vector_1@ == v->Vector_1@,
{
    assert(v->Vector_1@.skip(0) =~= v->Vector_1@);
}

/// `RerollLowest(0)` is a no-op: with no fresh dice, the reordered
/// multiset is the input's, and two sorted die groups over one multiset
/// are equal — the result carries exactly the input's dice.
pub proof fn lemma_reroll_lowest_zero(v: SudiceValue, res: SudiceValue, fresh: Seq<i64>)
    requires
        v is Vector,
        res is Vector,
        value_wf(v),
        value_wf(res),
        fresh.len() == 0,
        res->Vector_1@.to_multiset() == (fresh + v->Vector_1@.skip(0)).to_multiset(),
    ensures
        res->Vector_1@ == v->Vector_1@,
{
    let leq = |a: i64, b: i64| a <= b;
    assert(fresh + v->Vector_1@.skip(0) =~= v->Vector_1@);
    assert(total_ordering(leq)) by {
        assert forall|x: i64| #[trigger] leq(x, x) by {};
    };
    assert(sorted_by(res->Vector_1@, leq)) by {
        assert(sorted(res->Vector_1@));
    };
    assert(sorted_by(v->Vector_1@, leq)) by {
        assert(sorted(v->Vector_1@));
    };
    lemma_sorted_unique(res->Vector_1@, v->Vector_1@, leq);
}

} // verus!
