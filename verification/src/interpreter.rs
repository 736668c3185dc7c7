//! Runtime values and the stack interpreter: one invocation draws one
//! integer sample from a program.

use vstd::prelude::*;
use vstd::seq_lib::group_to_multiset_ensures;
use vstd::wrapping::i64_specs;

use crate::descriptor::{SudiceCode, SudiceExpression};

verus! {

/// A runtime value: either a settled integer or an unevaluated die group.
///
/// A vector's first field is the die face (each die ranges over
/// `1..=face`); its second field holds the individual die results, kept in
/// ascending order by every operation that touches them.
#[derive(Debug, Clone, PartialEq)]
pub enum SudiceValue {
    Scalar(i64),
    Vector(i64, Vec<i64>),
}

/// Ascending order of a die-result sequence.
pub open spec fn sorted(s: Seq<i64>) -> bool {
    forall|i: int, j: int| 0 <= i < j < s.len() ==> #[trigger] s[i] <= #[trigger] s[j]
}

/// The sum of a die-result sequence under the interpreter's wrapping
/// 64-bit addition, folded left to right.
pub open spec fn wrap_sum(s: Seq<i64>) -> i64
    decreases s.len(),
{
    if s.len() == 0 {
        0i64
    } else {
        i64_specs::wrapping_add(wrap_sum(s.drop_last()), s.last())
    }
}

/// What a value collapses to: a scalar is itself, a vector is the wrapping
/// sum of its dice.
pub open spec fn spec_collapse(v: SudiceValue) -> i64 {
    match v {
        SudiceValue::Scalar(i) => i,
        SudiceValue::Vector(_, s) => wrap_sum(s@),
    }
}

/// A well-formed runtime value: a vector's face is at least 1 and its dice
/// are in ascending order.
pub open spec fn value_wf(v: SudiceValue) -> bool {
    match v {
        SudiceValue::Scalar(_) => true,
        SudiceValue::Vector(x, s) => 1 <= x && sorted(s@),
    }
}

/// Cap a single die from above.
pub open spec fn clamp_above(v: i64, n: i64) -> i64 {
    if v > n {
        n
    } else {
        v
    }
}

/// Raise a single die from below.
pub open spec fn clamp_below(v: i64, n: i64) -> i64 {
    if v < n {
        n
    } else {
        v
    }
}

/// Anything that converts into a runtime value.
pub trait HasSudiceValue: Sized {
    spec fn spec_value(self) -> SudiceValue;

    fn as_value(self) -> (r: SudiceValue)
        ensures
            r == self.spec_value(),
    ;
}

impl HasSudiceValue for i64 {
    open spec fn spec_value(self) -> SudiceValue {
        SudiceValue::Scalar(self)
    }

    fn as_value(self) -> (r: SudiceValue) {
        SudiceValue::Scalar(self)
    }
}

impl HasSudiceValue for SudiceValue {
    open spec fn spec_value(self) -> SudiceValue {
        self
    }

    fn as_value(self) -> (r: SudiceValue) {
        self
    }
}

/// Truncated 64-bit division, as the host integer division computes it.
/// Meaningful only when `b != 0` and the quotient fits in 64 bits.
pub open spec fn div_trunc(a: i64, b: i64) -> int {
    let x = a as int;
    let d = b as int;
    if x == 0 {
        0
    } else if x > 0 && d > 0 {
        x / d
    } else if x < 0 && d < 0 {
        ((x * -1) / (d * -1))
    } else if x < 0 {
        ((x * -1) / d) * -1
    } else {
        (x / (d * -1)) * -1
    }
}

/// A truncated 64-bit quotient stays within `i64` whenever the divisor is
/// not zero and the one overflowing pair is excluded.
pub proof fn lemma_div_trunc_fits(a: i64, b: i64)
    requires
        b != 0,
        !(a == i64::MIN && b == -1),
    ensures
        i64::MIN <= div_trunc(a, b) <= i64::MAX,
{
    let x = a as int;
    let d = b as int;
    if x > 0 && d > 0 {
        vstd::arithmetic::div_mod::lemma_div_nonincreasing(x, d);
        vstd::arithmetic::div_mod::lemma_div_pos_is_pos(x, d);
    } else if x < 0 && d < 0 {
        vstd::arithmetic::div_mod::lemma_div_nonincreasing(x * -1, d * -1);
        vstd::arithmetic::div_mod::lemma_div_pos_is_pos(x * -1, d * -1);
        if d * -1 > 1 {
            vstd::arithmetic::div_mod::lemma_div_decreases(x * -1, d * -1);
        } else {
            vstd::arithmetic::div_mod::lemma_div_basics(d * -1);
        }
    } else if x < 0 {
        vstd::arithmetic::div_mod::lemma_div_nonincreasing(x * -1, d);
        vstd::arithmetic::div_mod::lemma_div_pos_is_pos(x * -1, d);
    } else if x > 0 {
        vstd::arithmetic::div_mod::lemma_div_nonincreasing(x, d * -1);
        vstd::arithmetic::div_mod::lemma_div_pos_is_pos(x, d * -1);
    }
}

/// The boolean encoding of the language: true is 1, false is 2, and a value
/// is truthy iff it collapses to exactly 1.
pub open spec fn spec_from_bool(x: bool) -> SudiceValue {
    if x {
        SudiceValue::Scalar(1i64)
    } else {
        SudiceValue::Scalar(2i64)
    }
}

impl SudiceValue {
    pub fn new<T: HasSudiceValue>(value: T) -> (r: SudiceValue)
        ensures
            r == value.spec_value(),
    {
        value.as_value()
    }

    /// Sum a vector's dice (wrapping); a scalar is already settled.
    pub fn collapse(self) -> (r: i64)
        ensures
            r == spec_collapse(self),
    {
        match self {
            SudiceValue::Scalar(i) => i,
            SudiceValue::Vector(_, s) => {
                let mut acc: i64 = 0;
                let mut i: usize = 0;
                assert(s@.take(0) =~= Seq::<i64>::empty());
                while i < s.len()
                    invariant
                        0 <= i <= s.len(),
                        acc == wrap_sum(s@.take(i as int)),
                    decreases s.len() - i,
                {
                    acc = acc.wrapping_add(s[i]);
                    assert(s@.take(i + 1).drop_last() =~= s@.take(i as int));
                    assert(s@.take(i + 1).last() == s@[i as int]);
                    i = i + 1;
                }
                assert(s@.take(s.len() as int) =~= s@);
                acc
            },
        }
    }

    /// Collapse both operands and add them (wrapping).
    pub fn add<T: HasSudiceValue>(self, value: T) -> (r: SudiceValue)
        ensures
            r == SudiceValue::Scalar(
                i64_specs::wrapping_add(spec_collapse(self), spec_collapse(value.spec_value())),
            ),
    {
        SudiceValue::Scalar(self.collapse().wrapping_add(value.as_value().collapse()))
    }

    /// Collapse both operands and subtract the operand (wrapping).
    pub fn sub<T: HasSudiceValue>(self, value: T) -> (r: SudiceValue)
        ensures
            r == SudiceValue::Scalar(
                i64_specs::wrapping_sub(spec_collapse(self), spec_collapse(value.spec_value())),
            ),
    {
        SudiceValue::Scalar(self.collapse().wrapping_sub(value.as_value().collapse()))
    }

    /// Collapse both operands and multiply them (wrapping).
    pub fn mul<T: HasSudiceValue>(self, value: T) -> (r: SudiceValue)
        ensures
            r == SudiceValue::Scalar(
                i64_specs::wrapping_mul(spec_collapse(self), spec_collapse(value.spec_value())),
            ),
    {
        SudiceValue::Scalar(self.collapse().wrapping_mul(value.as_value().collapse()))
    }

    /// Collapse both operands and divide, truncating toward zero. Division
    /// by zero and the one overflowing quotient are ruled out up front.
    pub fn div<T: HasSudiceValue>(self, value: T) -> (r: SudiceValue)
        requires
            spec_collapse(value.spec_value()) != 0,
            !(spec_collapse(self) == i64::MIN && spec_collapse(value.spec_value()) == -1),
        ensures
            r == SudiceValue::Scalar(
                div_trunc(spec_collapse(self), spec_collapse(value.spec_value())) as i64,
            ),
    {
        let a = self.collapse();
        let b = value.as_value().collapse();
        proof {
            lemma_div_trunc_fits(a, b);
        }
        SudiceValue::Scalar(a.checked_div(b).unwrap())
    }

    /// Roll `num` dice of `size` faces each: `num` independent uniform
    /// samples on `[1, size]`, sorted ascending.
    pub fn roll<T: HasSudiceValue, S: HasSudiceValue>(
        num: T,
        size: S,
        r: &mut rand::rngs::ThreadRng,
    ) -> (res: SudiceValue)
        requires
            spec_collapse(num.spec_value()) >= 1,
            spec_collapse(size.spec_value()) >= 1,
        ensures
            res is Vector,
            res->Vector_0 == spec_collapse(size.spec_value()),
            res->Vector_1@.len() == spec_collapse(num.spec_value()) as int,
            value_wf(res),
            forall|k: int|
                0 <= k < res->Vector_1@.len() ==> 1 <= #[trigger] res->Vector_1@[k]
                    <= res->Vector_0,
    {
        let n = num.as_value().collapse();
        let x = size.as_value().collapse();
        let mut v: Vec<i64> = Vec::new();
        let mut i: i64 = 0;
        while i < n
            invariant
                0 <= i <= n,
                1 <= x,
                v@.len() == i as int,
                forall|k: int| 0 <= k < v@.len() ==> 1 <= #[trigger] v@[k] <= x,
            decreases n - i,
        {
            let d = crate::rng::roll_die(r, x);
            v.push(d);
            i = i + 1;
        }
        let sv = sort_dice(v);
        assert forall|k: int| 0 <= k < sv@.len() implies 1 <= #[trigger] sv@[k] <= x by {
            assert(sv@.contains(sv@[k]));
        };
        SudiceValue::Vector(x, sv)
    }

    /// Resample every die equal to the operand, then resort. The result
    /// reorders a sequence `mid` that replaces exactly the matching dice
    /// with fresh samples on `[1, face]`.
    pub fn reroll<T: HasSudiceValue>(
        self,
        value: T,
        r: &mut rand::rngs::ThreadRng,
    ) -> (res: SudiceValue)
        requires
            self is Vector,
            value_wf(self),
        ensures
            res is Vector,
            res->Vector_0 == self->Vector_0,
            res->Vector_1@.len() == self->Vector_1@.len(),
            value_wf(res),
            exists|mid: Seq<i64>|
                {
                    &&& #[trigger] mid.to_multiset() == res->Vector_1@.to_multiset()
                    &&& mid.len() == self->Vector_1@.len()
                    &&& (forall|k: int|
                        #![trigger mid[k]]
                        0 <= k < mid.len() ==> (if self->Vector_1@[k] == spec_collapse(
                            value.spec_value(),
                        ) {
                            1 <= mid[k] <= self->Vector_0
                        } else {
                            mid[k] == self->Vector_1@[k]
                        }))
                },
    {
        let n = value.as_value().collapse();
        match self {
            SudiceValue::Scalar(_) => unreached(),
            SudiceValue::Vector(x, mut v) => {
                let ghost orig = v@;
                let mut i: usize = 0;
                while i < v.len()
                    invariant
                        0 <= i <= v.len(),
                        1 <= x,
                        v@.len() == orig.len(),
                        forall|k: int|
                            #![trigger v@[k]]
                            0 <= k < v@.len() ==> (if k < i {
                                if orig[k] == n {
                                    1 <= v@[k] <= x
                                } else {
                                    v@[k] == orig[k]
                                }
                            } else {
                                v@[k] == orig[k]
                            }),
                    decreases v.len() - i,
                {
                    if v[i] == n {
                        let d = crate::rng::roll_die(r, x);
                        v[i] = d;
                    }
                    i = i + 1;
                }
                let ghost mid = v@;
                let sv = sort_dice(v);
                SudiceValue::Vector(x, sv)
            },
        }
    }

    /// Resample the lowest `value` dice of the sorted vector, then resort.
    /// The result reorders the fresh samples joined with the kept dice.
    pub fn reroll_lowest<T: HasSudiceValue>(
        self,
        value: T,
        r: &mut rand::rngs::ThreadRng,
    ) -> (res: SudiceValue)
        requires
            self is Vector,
            value_wf(self),
            0 <= spec_collapse(value.spec_value()) <= self->Vector_1@.len(),
        ensures
            res is Vector,
            res->Vector_0 == self->Vector_0,
            res->Vector_1@.len() == self->Vector_1@.len(),
            value_wf(res),
            exists|fresh: Seq<i64>|
                {
                    &&& #[trigger] fresh.len() == spec_collapse(value.spec_value())
                    &&& (forall|k: int|
                        0 <= k < fresh.len() ==> 1 <= #[trigger] fresh[k] <= self->Vector_0)
                    &&& res->Vector_1@.to_multiset() == (fresh + self->Vector_1@.skip(
                        spec_collapse(value.spec_value()) as int,
                    )).to_multiset()
                },
    {
        let nv = value.as_value().collapse();
        assert(nv >= 0);
        match self {
            SudiceValue::Scalar(_) => unreached(),
            SudiceValue::Vector(x, mut v) => {
                let n = nv as usize;
                let ghost orig = v@;
                let mut i: usize = 0;
                while i < n
                    invariant
                        0 <= i <= n <= v.len(),
                        1 <= x,
                        v@.len() == orig.len(),
                        forall|k: int|
                            #![trigger v@[k]]
                            0 <= k < v@.len() ==> (if k < i {
                                1 <= v@[k] <= x
                            } else {
                                v@[k] == orig[k]
                            }),
                    decreases n - i,
                {
                    let d = crate::rng::roll_die(r, x);
                    v[i] = d;
                    i = i + 1;
                }
                let ghost fresh = v@.take(n as int);
                proof {
                    assert(v@ =~= fresh + orig.skip(n as int));
                }
                let sv = sort_dice(v);
                SudiceValue::Vector(x, sv)
            },
        }
    }

    /// Resample the highest `value` dice of the sorted vector, then resort.
    /// The result reorders the kept dice joined with the fresh samples.
    pub fn reroll_highest<T: HasSudiceValue>(
        self,
        value: T,
        r: &mut rand::rngs::ThreadRng,
    ) -> (res: SudiceValue)
        requires
            self is Vector,
            value_wf(self),
            0 <= spec_collapse(value.spec_value()) <= self->Vector_1@.len(),
        ensures
            res is Vector,
            res->Vector_0 == self->Vector_0,
            res->Vector_1@.len() == self->Vector_1@.len(),
            value_wf(res),
            exists|fresh: Seq<i64>|
                {
                    &&& #[trigger] fresh.len() == spec_collapse(value.spec_value())
                    &&& (forall|k: int|
                        0 <= k < fresh.len() ==> 1 <= #[trigger] fresh[k] <= self->Vector_0)
                    &&& res->Vector_1@.to_multiset() == (self->Vector_1@.take(
                        self->Vector_1@.len() - spec_collapse(value.spec_value()),
                    ) + fresh).to_multiset()
                },
    {
        let nv = value.as_value().collapse();
        assert(nv >= 0);
        match self {
            SudiceValue::Scalar(_) => unreached(),
            SudiceValue::Vector(x, mut v) => {
                let n = nv as usize;
                let len = v.len();
                let ghost orig = v@;
                let mut i: usize = len - n;
                while i < len
                    invariant
                        len - n <= i <= len,
                        len == v.len(),
                        n <= len,
                        1 <= x,
                        v@.len() == orig.len(),
                        forall|k: int|
                            #![trigger v@[k]]
                            0 <= k < v@.len() ==> (if len - n <= k < i {
                                1 <= v@[k] <= x
                            } else {
                                v@[k] == orig[k]
                            }),
                    decreases len - i,
                {
                    let d = crate::rng::roll_die(r, x);
                    v[i] = d;
                    i = i + 1;
                }
                let ghost fresh = v@.skip((len - n) as int);
                proof {
                    assert(v@ =~= orig.take((len - n) as int) + fresh);
                }
                let sv = sort_dice(v);
                SudiceValue::Vector(x, sv)
            },
        }
    }

    /// Remove the lowest `value` dice: the sorted vector keeps exactly its
    /// upper part.
    pub fn drop_lowest<T: HasSudiceValue>(self, value: T) -> (res: SudiceValue)
        requires
            self is Vector,
            value_wf(self),
            0 <= spec_collapse(value.spec_value()) < self->Vector_1@.len(),
        ensures
            res is Vector,
            res->Vector_0 == self->Vector_0,
            res->Vector_1@ == self->Vector_1@.skip(spec_collapse(value.spec_value()) as int),
            value_wf(res),
    {
        let nv = value.as_value().collapse();
        assert(nv >= 0);
        match self {
            SudiceValue::Scalar(_) => unreached(),
            SudiceValue::Vector(x, mut v) => {
                let n = nv as usize;
                let len = v.len();
                let ghost orig = v@;
                let mut i: usize = 0;
                while i < len - n
                    invariant
                        0 <= i <= len - n,
                        n < len,
                        len == v.len(),
                        forall|k: int|
                            #![trigger v@[k]]
                            0 <= k < v@.len() ==> (if k < i {
                                v@[k] == orig[k + n]
                            } else {
                                v@[k] == orig[k]
                            }),
                    decreases len - n - i,
                {
                    let d = v[i + n];
                    v[i] = d;
                    i = i + 1;
                }
                v.truncate(len - n);
                proof {
                    assert(v@ =~= orig.skip(n as int));
                }
                SudiceValue::Vector(x, v)
            },
        }
    }

    /// Remove the highest `value` dice: the sorted vector keeps exactly its
    /// lower part.
    pub fn drop_highest<T: HasSudiceValue>(self, value: T) -> (res: SudiceValue)
        requires
            self is Vector,
            value_wf(self),
            0 <= spec_collapse(value.spec_value()) < self->Vector_1@.len(),
        ensures
            res is Vector,
            res->Vector_0 == self->Vector_0,
            res->Vector_1@ == self->Vector_1@.take(
                self->Vector_1@.len() - spec_collapse(value.spec_value()),
            ),
            value_wf(res),
    {
        let nv = value.as_value().collapse();
        assert(nv >= 0);
        match self {
            SudiceValue::Scalar(_) => unreached(),
            SudiceValue::Vector(x, mut v) => {
                let n = nv as usize;
                let len = v.len();
                let ghost orig = v@;
                v.truncate(len - n);
                proof {
                    assert(v@ =~= orig.take((len - n) as int));
                }
                SudiceValue::Vector(x, v)
            },
        }
    }

    /// Cap from above: replace every die (or the scalar) greater than the
    /// operand by the operand.
    pub fn ceil<T: HasSudiceValue>(self, value: T) -> (res: SudiceValue)
        ensures
            self is Scalar ==> res == SudiceValue::Scalar(
                clamp_above(self->Scalar_0, spec_collapse(value.spec_value())),
            ),
            self is Vector ==> {
                &&& res is Vector
                &&& res->Vector_0 == self->Vector_0
                &&& res->Vector_1@ == self->Vector_1@.map_values(
                    |d: i64| clamp_above(d, spec_collapse(value.spec_value())),
                )
            },
            value_wf(self) ==> value_wf(res),
    {
        let n = value.as_value().collapse();
        match self {
            SudiceValue::Scalar(s) => {
                if s > n {
                    SudiceValue::Scalar(n)
                } else {
                    SudiceValue::Scalar(s)
                }
            },
            SudiceValue::Vector(x, mut v) => {
                let ghost orig = v@;
                let mut i: usize = 0;
                while i < v.len()
                    invariant
                        0 <= i <= v.len(),
                        v@.len() == orig.len(),
                        forall|k: int|
                            #![trigger v@[k]]
                            0 <= k < v@.len() ==> (if k < i {
                                v@[k] == clamp_above(orig[k], n)
                            } else {
                                v@[k] == orig[k]
                            }),
                    decreases v.len() - i,
                {
                    if v[i] > n {
                        v[i] = n;
                    }
                    i = i + 1;
                }
                proof {
                    assert(v@ =~= orig.map_values(|d: i64| clamp_above(d, n)));
                }
                SudiceValue::Vector(x, v)
            },
        }
    }

    /// Raise from below: replace every die (or the scalar) less than the
    /// operand by the operand.
    pub fn floor<T: HasSudiceValue>(self, value: T) -> (res: SudiceValue)
        ensures
            self is Scalar ==> res == SudiceValue::Scalar(
                clamp_below(self->Scalar_0, spec_collapse(value.spec_value())),
            ),
            self is Vector ==> {
                &&& res is Vector
                &&& res->Vector_0 == self->Vector_0
                &&& res->Vector_1@ == self->Vector_1@.map_values(
                    |d: i64| clamp_below(d, spec_collapse(value.spec_value())),
                )
            },
            value_wf(self) ==> value_wf(res),
    {
        let n = value.as_value().collapse();
        match self {
            SudiceValue::Scalar(s) => {
                if s < n {
                    SudiceValue::Scalar(n)
                } else {
                    SudiceValue::Scalar(s)
                }
            },
            SudiceValue::Vector(x, mut v) => {
                let ghost orig = v@;
                let mut i: usize = 0;
                while i < v.len()
                    invariant
                        0 <= i <= v.len(),
                        v@.len() == orig.len(),
                        forall|k: int|
                            #![trigger v@[k]]
                            0 <= k < v@.len() ==> (if k < i {
                                v@[k] == clamp_below(orig[k], n)
                            } else {
                                v@[k] == orig[k]
                            }),
                    decreases v.len() - i,
                {
                    if v[i] < n {
                        v[i] = n;
                    }
                    i = i + 1;
                }
                proof {
                    assert(v@ =~= orig.map_values(|d: i64| clamp_below(d, n)));
                }
                SudiceValue::Vector(x, v)
            },
        }
    }

    /// Whether this value is an unevaluated die group.
    pub fn is_vector(&self) -> (b: bool)
        ensures
            b == (self is Vector),
    {
        match self {
            SudiceValue::Scalar(_) => false,
            SudiceValue::Vector(_, _) => true,
        }
    }

    /// How many dice a vector holds.
    pub fn dice_len(&self) -> (n: usize)
        requires
            self is Vector,
        ensures
            n == self->Vector_1@.len(),
    {
        match self {
            SudiceValue::Scalar(_) => unreached(),
            SudiceValue::Vector(_, v) => v.len(),
        }
    }

    /// A value is truthy iff it collapses to exactly 1.
    pub fn into_bool(self) -> (r: bool)
        ensures
            r == (spec_collapse(self) == 1),
    {
        self.collapse() == 1
    }

    /// Encode a boolean: 1 for true, 2 for false.
    pub fn from_bool(x: bool) -> (r: SudiceValue)
        ensures
            r == spec_from_bool(x),
    {
        if x {
            SudiceValue::Scalar(1)
        } else {
            SudiceValue::Scalar(2)
        }
    }

    pub fn lt<T: HasSudiceValue>(self, value: T) -> (r: SudiceValue)
        ensures
            r == spec_from_bool(spec_collapse(self) < spec_collapse(value.spec_value())),
    {
        let a = self.collapse();
        SudiceValue::from_bool(a < value.as_value().collapse())
    }

    pub fn gt<T: HasSudiceValue>(self, value: T) -> (r: SudiceValue)
        ensures
            r == spec_from_bool(spec_collapse(self) > spec_collapse(value.spec_value())),
    {
        let a = self.collapse();
        SudiceValue::from_bool(a > value.as_value().collapse())
    }

    pub fn eq<T: HasSudiceValue>(self, value: T) -> (r: SudiceValue)
        ensures
            r == spec_from_bool(spec_collapse(self) == spec_collapse(value.spec_value())),
    {
        let a = self.collapse();
        SudiceValue::from_bool(a == value.as_value().collapse())
    }

    pub fn ne<T: HasSudiceValue>(self, value: T) -> (r: SudiceValue)
        ensures
            r == spec_from_bool(spec_collapse(self) != spec_collapse(value.spec_value())),
    {
        let a = self.collapse();
        SudiceValue::from_bool(a != value.as_value().collapse())
    }

    pub fn and<T: HasSudiceValue>(self, value: T) -> (r: SudiceValue)
        ensures
            r == spec_from_bool(
                spec_collapse(self) == 1 && spec_collapse(value.spec_value()) == 1,
            ),
    {
        let a = self.into_bool();
        SudiceValue::from_bool(a && value.as_value().into_bool())
    }

    pub fn or<T: HasSudiceValue>(self, value: T) -> (r: SudiceValue)
        ensures
            r == spec_from_bool(
                spec_collapse(self) == 1 || spec_collapse(value.spec_value()) == 1,
            ),
    {
        let a = self.into_bool();
        SudiceValue::from_bool(a || value.as_value().into_bool())
    }
}

/// One parked iteration frame of `BestOf` / `WorstOf`: the address of the
/// iteration opcode, the iterations still owed, and the best (or worst)
/// sample seen so far.
#[derive(Debug, Clone, Copy, PartialEq)]
pub struct Accumulator {
    pub ptr: usize,
    pub count: i64,
    pub value: i64,
}

impl Accumulator {
    pub fn new(ptr: usize, count: i64, init: i64) -> (a: Accumulator)
        ensures
            a.ptr == ptr,
            a.count == count,
            a.value == init,
    {
        Accumulator { ptr, count, value: init }
    }
}

/// Why an interpretation aborted. Apart from `DivisionError` (left to the
/// program by design) and `StepLimit`, each of these reports corrupt
/// bytecode: a well-formed program never reaches them.
#[derive(Debug, Clone, Copy, PartialEq, Eq)]
pub enum InterpError {
    /// A pop met an empty value stack.
    StackUnderflow,
    /// A vector-only operation met a scalar.
    ShapeViolation,
    /// A roll with a non-positive die count or face count.
    BadRoll,
    /// A reroll or drop count outside the vector's size.
    BadCount,
    /// Division by zero, or the one overflowing quotient.
    DivisionError,
    /// A jump or rewind outside the program.
    BadJump,
    /// The interpreter's step budget (one count of `u64` instruction
    /// dispatches) ran out.
    StepLimit,
}

/// Pop the value stack, or report underflow.
fn pop_value(s: &mut Vec<SudiceValue>) -> (r: Result<SudiceValue, InterpError>)
    ensures
        match r {
            Ok(v) => old(s)@.len() > 0 && v == old(s)@.last() && final(s)@ == old(s)@.drop_last(),
            Err(e) => e == InterpError::StackUnderflow && old(s)@.len() == 0 && final(s)@ == old(
                s,
            )@,
        },
{
    match s.pop() {
        Some(v) => Ok(v),
        None => Err(InterpError::StackUnderflow),
    }
}

/// Insert one element into a vector, keeping it sorted.
fn insert_sorted(v: &mut Vec<i64>, x: i64)
    requires
        sorted(old(v)@),
    ensures
        sorted(final(v)@),
        final(v)@.to_multiset() == old(v)@.to_multiset().insert(x),
{
    broadcast use group_to_multiset_ensures;

    let mut idx: usize = 0;
    while idx < v.len() && v[idx] <= x
        invariant
            sorted(v@),
            0 <= idx <= v.len(),
            forall|i: int| 0 <= i < idx ==> #[trigger] v@[i] <= x,
        decreases v.len() - idx,
    {
        idx = idx + 1;
    }
    v.insert(idx, x);
    assert(sorted(v@));
}

/// Sort a vector of die results ascending; the dice themselves are kept.
fn sort_dice(v: Vec<i64>) -> (r: Vec<i64>)
    ensures
        sorted(r@),
        r@.to_multiset() == v@.to_multiset(),
        r@.len() == v@.len(),
        forall|x: i64| r@.contains(x) <==> v@.contains(x),
{
    broadcast use group_to_multiset_ensures;

    let mut out: Vec<i64> = Vec::new();
    let mut i: usize = 0;
    assert(v@.take(0) =~= Seq::<i64>::empty());
    while i < v.len()
        invariant
            0 <= i <= v.len(),
            sorted(out@),
            out@.to_multiset() == v@.take(i as int).to_multiset(),
        decreases v.len() - i,
    {
        insert_sorted(&mut out, v[i]);
        assert(v@.take(i + 1) =~= v@.take(i as int).push(v@[i as int]));
        proof {
            v@.take(i as int).to_multiset_ensures();
        }
        i = i + 1;
    }
    assert(v@.take(v.len() as int) =~= v@);
    proof {
        out@.to_multiset_ensures();
        v@.to_multiset_ensures();
        assert forall|x: i64| out@.contains(x) <==> v@.contains(x) by {
            assert(out@.to_multiset().count(x) == v@.to_multiset().count(x));
        };
    }
    out
}

/// The mathematical image of a runtime value.
pub ghost enum VModel {
    Scalar(i64),
    Vector(i64, Seq<i64>),
}

/// A runtime value, mathematically.
pub open spec fn model(v: SudiceValue) -> VModel {
    match v {
        SudiceValue::Scalar(i) => VModel::Scalar(i),
        SudiceValue::Vector(x, d) => VModel::Vector(x, d@),
    }
}

pub open spec fn collapse_m(v: VModel) -> i64 {
    match v {
        VModel::Scalar(i) => i,
        VModel::Vector(_, s) => wrap_sum(s),
    }
}

pub open spec fn leq64(a: i64, b: i64) -> bool {
    a <= b
}

/// Die results in ascending order.
pub open spec fn sort64(s: Seq<i64>) -> Seq<i64> {
    s.sort_by(|a: i64, b: i64| leq64(a, b))
}

pub open spec fn encode_m(b: bool) -> VModel {
    if b {
        VModel::Scalar(1i64)
    } else {
        VModel::Scalar(2i64)
    }
}

/// How many dice show exactly `n`.
pub open spec fn match_count(vals: Seq<i64>, n: i64) -> int
    decreases vals.len(),
{
    if vals.len() == 0 {
        0
    } else {
        (if vals.first() == n {
            1int
        } else {
            0int
        }) + match_count(vals.drop_first(), n)
    }
}

/// Replace each die equal to `n` by the next fresh draw, in order.
pub open spec fn replace_matching(vals: Seq<i64>, n: i64, draws: Seq<i64>) -> Seq<i64>
    decreases vals.len(),
{
    if vals.len() == 0 {
        Seq::empty()
    } else if vals.first() == n {
        seq![draws.first()] + replace_matching(vals.drop_first(), n, draws.drop_first())
    } else {
        seq![vals.first()] + replace_matching(vals.drop_first(), n, draws)
    }
}

/// The state of the reference machine: the value stack and its top, the
/// iteration accumulators, the instruction pointer, and the stream of
/// die draws not yet consumed.
#[verifier::ext_equal]
pub ghost struct MState {
    pub stack: Seq<VModel>,
    pub tos: VModel,
    pub accs: Seq<Accumulator>,
    pub dcp: int,
    pub samples: Seq<i64>,
}

/// Where the reference machine starts on a given stream of draws.
pub open spec fn init_mstate(samples: Seq<i64>) -> MState {
    MState {
        stack: Seq::empty(),
        tos: VModel::Scalar(0i64),
        accs: Seq::empty(),
        dcp: 0,
        samples,
    }
}

/// What one step of the reference machine yields: the next state, or a
/// halt (the machine halts on any fault — an underflow, a bad shape or
/// count, an unsafe division, a rewind out of the program, or a draw
/// outside `[1, face]`; a run that needs one of these never witnesses a
/// successful interpretation).
pub ghost enum IOut {
    Next(MState),
    Halt,
}

/// One step of the reference machine at `st.dcp`. Nondeterminism is
/// confined to the stream: a roll takes its draws from the front of
/// `st.samples` and demands each on `[1, face]`.
pub open spec fn istep(code: Seq<SudiceCode>, st: MState) -> IOut {
    if !(0 <= st.dcp < code.len()) {
        IOut::Halt
    } else {
        match code[st.dcp] {
            SudiceCode::Num(i) => IOut::Next(
                MState {
                    stack: st.stack.push(st.tos),
                    tos: VModel::Scalar(i),
                    dcp: st.dcp + 1,
                    ..st
                },
            ),
            SudiceCode::Add => if st.stack.len() == 0 {
                IOut::Halt
            } else {
                IOut::Next(
                    MState {
                        stack: st.stack.drop_last(),
                        tos: VModel::Scalar(
                            i64_specs::wrapping_add(
                                collapse_m(st.tos),
                                collapse_m(st.stack.last()),
                            ),
                        ),
                        dcp: st.dcp + 1,
                        ..st
                    },
                )
            },
            SudiceCode::Sub => if st.stack.len() == 0 {
                IOut::Halt
            } else {
                IOut::Next(
                    MState {
                        stack: st.stack.drop_last(),
                        tos: VModel::Scalar(
                            i64_specs::wrapping_sub(
                                collapse_m(st.tos),
                                collapse_m(st.stack.last()),
                            ),
                        ),
                        dcp: st.dcp + 1,
                        ..st
                    },
                )
            },
            SudiceCode::Mul => if st.stack.len() == 0 {
                IOut::Halt
            } else {
                IOut::Next(
                    MState {
                        stack: st.stack.drop_last(),
                        tos: VModel::Scalar(
                            i64_specs::wrapping_mul(
                                collapse_m(st.tos),
                                collapse_m(st.stack.last()),
                            ),
                        ),
                        dcp: st.dcp + 1,
                        ..st
                    },
                )
            },
            SudiceCode::Div => if st.stack.len() == 0 {
                IOut::Halt
            } else {
                let a = collapse_m(st.tos);
                let b = collapse_m(st.stack.last());
                if b == 0 || (a == i64::MIN && b == -1) {
                    IOut::Halt
                } else {
                    IOut::Next(
                        MState {
                            stack: st.stack.drop_last(),
                            tos: VModel::Scalar(div_trunc(a, b) as i64),
                            dcp: st.dcp + 1,
                            ..st
                        },
                    )
                }
            },
            SudiceCode::Roll => if st.stack.len() == 0 {
                IOut::Halt
            } else {
                let n = collapse_m(st.stack.last());
                let face = collapse_m(st.tos);
                if n < 1 || face < 1 || st.samples.len() < n {
                    IOut::Halt
                } else {
                    let draws = st.samples.take(n as int);
                    if !(forall|k: int| 0 <= k < draws.len() ==> 1 <= #[trigger] draws[k] <= face) {
                        IOut::Halt
                    } else {
                        IOut::Next(
                            MState {
                                stack: st.stack.drop_last(),
                                tos: VModel::Vector(face, sort64(draws)),
                                dcp: st.dcp + 1,
                                samples: st.samples.skip(n as int),
                                ..st
                            },
                        )
                    }
                }
            },
            SudiceCode::Reroll => if st.stack.len() == 0 || !(st.tos is Vector) {
                IOut::Halt
            } else {
                let n = collapse_m(st.stack.last());
                let face = st.tos->Vector_0;
                let vals = st.tos->Vector_1;
                let m = match_count(vals, n);
                if face < 1 || st.samples.len() < m {
                    IOut::Halt
                } else {
                    let draws = st.samples.take(m);
                    if !(forall|k: int| 0 <= k < draws.len() ==> 1 <= #[trigger] draws[k] <= face) {
                        IOut::Halt
                    } else {
                        IOut::Next(
                            MState {
                                stack: st.stack.drop_last(),
                                tos: VModel::Vector(face, sort64(replace_matching(vals, n, draws))),
                                dcp: st.dcp + 1,
                                samples: st.samples.skip(m),
                                ..st
                            },
                        )
                    }
                }
            },
            SudiceCode::RerollLowest => if st.stack.len() == 0 || !(st.tos is Vector) {
                IOut::Halt
            } else {
                let n = collapse_m(st.stack.last());
                let face = st.tos->Vector_0;
                let vals = st.tos->Vector_1;
                if face < 1 || n < 0 || n > vals.len() || st.samples.len() < n {
                    IOut::Halt
                } else {
                    let draws = st.samples.take(n as int);
                    if !(forall|k: int| 0 <= k < draws.len() ==> 1 <= #[trigger] draws[k] <= face) {
                        IOut::Halt
                    } else {
                        IOut::Next(
                            MState {
                                stack: st.stack.drop_last(),
                                tos: VModel::Vector(face, sort64(draws + vals.skip(n as int))),
                                dcp: st.dcp + 1,
                                samples: st.samples.skip(n as int),
                                ..st
                            },
                        )
                    }
                }
            },
            SudiceCode::RerollHighest => if st.stack.len() == 0 || !(st.tos is Vector) {
                IOut::Halt
            } else {
                let n = collapse_m(st.stack.last());
                let face = st.tos->Vector_0;
                let vals = st.tos->Vector_1;
                if face < 1 || n < 0 || n > vals.len() || st.samples.len() < n {
                    IOut::Halt
                } else {
                    let draws = st.samples.take(n as int);
                    if !(forall|k: int| 0 <= k < draws.len() ==> 1 <= #[trigger] draws[k] <= face) {
                        IOut::Halt
                    } else {
                        IOut::Next(
                            MState {
                                stack: st.stack.drop_last(),
                                tos: VModel::Vector(
                                    face,
                                    sort64(vals.take(vals.len() - n) + draws),
                                ),
                                dcp: st.dcp + 1,
                                samples: st.samples.skip(n as int),
                                ..st
                            },
                        )
                    }
                }
            },
            SudiceCode::DropLowest => if st.stack.len() == 0 || !(st.tos is Vector) {
                IOut::Halt
            } else {
                let n = collapse_m(st.stack.last());
                let vals = st.tos->Vector_1;
                if n < 0 || n >= vals.len() {
                    IOut::Halt
                } else {
                    IOut::Next(
                        MState {
                            stack: st.stack.drop_last(),
                            tos: VModel::Vector(st.tos->Vector_0, vals.skip(n as int)),
                            dcp: st.dcp + 1,
                            ..st
                        },
                    )
                }
            },
            SudiceCode::DropHighest => if st.stack.len() == 0 || !(st.tos is Vector) {
                IOut::Halt
            } else {
                let n = collapse_m(st.stack.last());
                let vals = st.tos->Vector_1;
                if n < 0 || n >= vals.len() {
                    IOut::Halt
                } else {
                    IOut::Next(
                        MState {
                            stack: st.stack.drop_last(),
                            tos: VModel::Vector(st.tos->Vector_0, vals.take(vals.len() - n)),
                            dcp: st.dcp + 1,
                            ..st
                        },
                    )
                }
            },
            SudiceCode::Ceil => if st.stack.len() == 0 {
                IOut::Halt
            } else {
                let n = collapse_m(st.stack.last());
                let capped = match st.tos {
                    VModel::Scalar(v) => VModel::Scalar(clamp_above(v, n)),
                    VModel::Vector(f, vals) => VModel::Vector(
                        f,
                        vals.map_values(|d: i64| clamp_above(d, n)),
                    ),
                };
                IOut::Next(
                    MState { stack: st.stack.drop_last(), tos: capped, dcp: st.dcp + 1, ..st },
                )
            },
            SudiceCode::Floor => if st.stack.len() == 0 {
                IOut::Halt
            } else {
                let n = collapse_m(st.stack.last());
                let raised = match st.tos {
                    VModel::Scalar(v) => VModel::Scalar(clamp_below(v, n)),
                    VModel::Vector(f, vals) => VModel::Vector(
                        f,
                        vals.map_values(|d: i64| clamp_below(d, n)),
                    ),
                };
                IOut::Next(
                    MState { stack: st.stack.drop_last(), tos: raised, dcp: st.dcp + 1, ..st },
                )
            },
            SudiceCode::BestOf(off) => spec_iter_step(st, off as int, true),
            SudiceCode::WorstOf(off) => spec_iter_step(st, off as int, false),
            SudiceCode::Select(offsets) => {
                let c = collapse_m(st.tos);
                let olen = offsets@.len() as int;
                if c >= 2 && c - 2 < olen - 1 {
                    if st.stack.len() == 0 {
                        IOut::Halt
                    } else {
                        IOut::Next(
                            MState {
                                stack: st.stack.drop_last(),
                                tos: st.stack.last(),
                                dcp: st.dcp + offsets@[c - 2] + 1,
                                ..st
                            },
                        )
                    }
                } else if c == 1 {
                    if st.stack.len() == 0 {
                        IOut::Halt
                    } else {
                        IOut::Next(
                            MState {
                                stack: st.stack.drop_last(),
                                tos: st.stack.last(),
                                dcp: st.dcp + 1,
                                ..st
                            },
                        )
                    }
                } else {
                    if olen == 0 {
                        IOut::Halt
                    } else {
                        IOut::Next(
                            MState {
                                tos: VModel::Scalar(c),
                                dcp: st.dcp + offsets@[olen - 1] + 1,
                                ..st
                            },
                        )
                    }
                }
            },
            SudiceCode::Jump(off) => IOut::Next(MState { dcp: st.dcp + off + 1, ..st }),
            SudiceCode::Lt => spec_cmp_step(st, true, false),
            SudiceCode::Gt => spec_cmp_step(st, false, true),
            SudiceCode::Eq => spec_cmp_step(st, false, false),
            SudiceCode::Ne => spec_cmp_step(st, true, true),
            SudiceCode::And => spec_logic_step(st, true),
            SudiceCode::Or => spec_logic_step(st, false),
        }
    }
}

/// The iteration opcodes on the reference machine: the accumulator stack
/// keyed by the opcode's address, a rewind of `off + 1`, and the best
/// (or worst) sample kept.
pub open spec fn spec_iter_step(st: MState, off: int, best: bool) -> IOut {
    if st.accs.len() > 0 && st.accs.last().ptr == st.dcp {
        let a = st.accs.last();
        if a.count <= 0 {
            IOut::Next(
                MState {
                    accs: st.accs.drop_last(),
                    tos: VModel::Scalar(a.value),
                    dcp: st.dcp + 1,
                    ..st
                },
            )
        } else if st.stack.len() == 0 || off >= st.dcp {
            IOut::Halt
        } else {
            let sample = collapse_m(st.tos);
            let kept = if best {
                crate::checker::max64(a.value, sample)
            } else {
                crate::checker::min64(a.value, sample)
            };
            IOut::Next(
                MState {
                    accs: st.accs.update(
                        st.accs.len() - 1,
                        Accumulator { ptr: a.ptr, count: (a.count - 1) as i64, value: kept },
                    ),
                    stack: st.stack.drop_last(),
                    tos: st.stack.last(),
                    dcp: st.dcp - off,
                    ..st
                },
            )
        }
    } else {
        if st.stack.len() == 0 {
            IOut::Halt
        } else {
            let x = collapse_m(st.stack.last());
            if x > 1 {
                if st.stack.len() < 2 || off >= st.dcp {
                    IOut::Halt
                } else {
                    IOut::Next(
                        MState {
                            accs: st.accs.push(
                                Accumulator {
                                    ptr: st.dcp as usize,
                                    count: (x - 1) as i64,
                                    value: collapse_m(st.tos),
                                },
                            ),
                            stack: st.stack.drop_last().drop_last(),
                            tos: st.stack[st.stack.len() - 2],
                            dcp: st.dcp - off,
                            ..st
                        },
                    )
                }
            } else {
                IOut::Next(MState { stack: st.stack.drop_last(), dcp: st.dcp + 1, ..st })
            }
        }
    }
}

/// The comparisons on the reference machine: collapse both operands and
/// encode the predicate (1 true, 2 false).
pub open spec fn spec_cmp_step(st: MState, when_lt: bool, when_gt: bool) -> IOut {
    if st.stack.len() == 0 {
        IOut::Halt
    } else {
        let a = collapse_m(st.tos);
        let b = collapse_m(st.stack.last());
        let truth = if a < b {
            when_lt
        } else if a > b {
            when_gt
        } else {
            !when_lt && !when_gt
        };
        IOut::Next(
            MState {
                stack: st.stack.drop_last(),
                tos: encode_m(truth),
                dcp: st.dcp + 1,
                ..st
            },
        )
    }
}

/// The connectives on the reference machine: truthy iff collapsing to 1.
pub open spec fn spec_logic_step(st: MState, conjunction: bool) -> IOut {
    if st.stack.len() == 0 {
        IOut::Halt
    } else {
        let a = collapse_m(st.tos) == 1;
        let b = collapse_m(st.stack.last()) == 1;
        IOut::Next(
            MState {
                stack: st.stack.drop_last(),
                tos: encode_m(
                    if conjunction {
                        a && b
                    } else {
                        a || b
                    },
                ),
                dcp: st.dcp + 1,
                ..st
            },
        )
    }
}

/// `b` lies `n` machine steps after `a`.
pub open spec fn steps_to(code: Seq<SudiceCode>, a: MState, b: MState, n: nat) -> bool
    decreases n,
{
    if n == 0 {
        a == b
    } else {
        istep(code, a) matches IOut::Next(m) && steps_to(code, m, b, (n - 1) as nat)
    }
}

/// Reachability extends by one step at the far end.
pub proof fn lemma_steps_snoc(code: Seq<SudiceCode>, a: MState, b: MState, c: MState, n: nat)
    requires
        steps_to(code, a, b, n),
        istep(code, b) == IOut::Next(c),
    ensures
        steps_to(code, a, c, n + 1),
    decreases n,
{
    if n == 0 {
        assert(a == b);
        assert(steps_to(code, c, c, 0));
        assert(steps_to(code, a, c, 1));
    } else {
        let m = istep(code, a)->Next_0;
        lemma_steps_snoc(code, m, b, c, (n - 1) as nat);
        assert(steps_to(code, a, c, n + 1));
    }
}

/// The live machine of the interpreter, viewed as a reference state over
/// the draws still to come.
pub open spec fn live_state(
    s: Seq<SudiceValue>,
    tos: SudiceValue,
    accs: Seq<Accumulator>,
    dcp: int,
    future: Seq<i64>,
) -> MState {
    MState {
        stack: s.map_values(|v: SudiceValue| model(v)),
        tos: model(tos),
        accs,
        dcp,
        samples: future,
    }
}

/// One interpreter transition, lifted to every future stream: if the
/// machine reaches the pre-state in `n` steps on `log + prefix + future`
/// and steps once more by consuming `prefix`, it reaches the post-state
/// in `n + 1` steps on `(log + prefix) + future`.
pub proof fn lemma_live_step(
    code: Seq<SudiceCode>,
    log: Seq<i64>,
    prefix: Seq<i64>,
    s1: Seq<SudiceValue>,
    t1: SudiceValue,
    l1: Seq<Accumulator>,
    d1: int,
    s2: Seq<SudiceValue>,
    t2: SudiceValue,
    l2: Seq<Accumulator>,
    d2: int,
    n: nat,
)
    requires
        forall|future: Seq<i64>|
            steps_to(
                code,
                init_mstate(log + future),
                #[trigger] live_state(s1, t1, l1, d1, future),
                n,
            ),
        forall|future: Seq<i64>|
            istep(code, live_state(s1, t1, l1, d1, prefix + future)) == IOut::Next(
                #[trigger] live_state(s2, t2, l2, d2, future),
            ),
    ensures
        forall|future: Seq<i64>|
            steps_to(
                code,
                init_mstate((log + prefix) + future),
                #[trigger] live_state(s2, t2, l2, d2, future),
                n + 1,
            ),
{
    assert forall|future: Seq<i64>|
        steps_to(
            code,
            init_mstate((log + prefix) + future),
            #[trigger] live_state(s2, t2, l2, d2, future),
            n + 1,
        ) by {
        let f2 = prefix + future;
        assert(steps_to(code, init_mstate(log + f2), live_state(s1, t1, l1, d1, f2), n));
        assert(log + f2 =~= (log + prefix) + future);
        assert(istep(code, live_state(s1, t1, l1, d1, prefix + future)) == IOut::Next(
            live_state(s2, t2, l2, d2, future),
        ));
        lemma_steps_snoc(
            code,
            init_mstate((log + prefix) + future),
            live_state(s1, t1, l1, d1, f2),
            live_state(s2, t2, l2, d2, future),
            n,
        );
    };
}

/// Where the interpreter faults: the opcode at `st.dcp` cannot complete,
/// and `e` names the reason — a pop from an empty stack, a vector-only
/// opcode on a settled integer, a non-positive roll, a reroll or drop
/// count outside the die group, an unsafe division, or a rewind or jump
/// that leaves the address space. None of these depends on the draw
/// stream.
pub open spec fn stuck_with(code: Seq<SudiceCode>, st: MState, e: InterpError) -> bool {
    &&& 0 <= st.dcp < code.len()
    &&& match code[st.dcp] {
        SudiceCode::Num(_) => false,
        SudiceCode::Add => e == InterpError::StackUnderflow && st.stack.len() == 0,
        SudiceCode::Sub => e == InterpError::StackUnderflow && st.stack.len() == 0,
        SudiceCode::Mul => e == InterpError::StackUnderflow && st.stack.len() == 0,
        SudiceCode::Div => (e == InterpError::StackUnderflow && st.stack.len() == 0) || (
        st.stack.len() > 0 && e == InterpError::DivisionError && (collapse_m(st.stack.last()) == 0
            || (collapse_m(st.tos) == i64::MIN && collapse_m(st.stack.last()) == -1))),
        SudiceCode::Roll => (e == InterpError::StackUnderflow && st.stack.len() == 0) || (
        st.stack.len() > 0 && e == InterpError::BadRoll && (collapse_m(st.stack.last()) < 1
            || collapse_m(st.tos) < 1)),
        SudiceCode::Reroll => (e == InterpError::StackUnderflow && st.stack.len() == 0) || (
        st.stack.len() > 0 && e == InterpError::ShapeViolation && !(st.tos is Vector)),
        SudiceCode::RerollLowest => spec_count_stuck(st, e, false),
        SudiceCode::RerollHighest => spec_count_stuck(st, e, false),
        SudiceCode::DropLowest => spec_count_stuck(st, e, true),
        SudiceCode::DropHighest => spec_count_stuck(st, e, true),
        SudiceCode::Ceil => e == InterpError::StackUnderflow && st.stack.len() == 0,
        SudiceCode::Floor => e == InterpError::StackUnderflow && st.stack.len() == 0,
        SudiceCode::BestOf(off) => spec_iter_stuck(st, off as int, e),
        SudiceCode::WorstOf(off) => spec_iter_stuck(st, off as int, e),
        SudiceCode::Select(ov) => spec_select_stuck(st, ov@, e),
        SudiceCode::Jump(off) => e == InterpError::BadJump && st.dcp + off + 1 > usize::MAX,
        SudiceCode::Lt => e == InterpError::StackUnderflow && st.stack.len() == 0,
        SudiceCode::Gt => e == InterpError::StackUnderflow && st.stack.len() == 0,
        SudiceCode::Eq => e == InterpError::StackUnderflow && st.stack.len() == 0,
        SudiceCode::Ne => e == InterpError::StackUnderflow && st.stack.len() == 0,
        SudiceCode::And => e == InterpError::StackUnderflow && st.stack.len() == 0,
        SudiceCode::Or => e == InterpError::StackUnderflow && st.stack.len() == 0,
    }
}

/// The faults of the reroll and drop family: underflow, a settled
/// integer where a die group is owed, or a count outside the group
/// (`excl` marks the drops, which must leave at least one die).
pub open spec fn spec_count_stuck(st: MState, e: InterpError, excl: bool) -> bool {
    ||| (e == InterpError::StackUnderflow && st.stack.len() == 0)
    ||| (st.stack.len() > 0 && e == InterpError::ShapeViolation && !(st.tos is Vector))
    ||| (st.stack.len() > 0 && st.tos is Vector && e == InterpError::BadCount && {
        let n = collapse_m(st.stack.last());
        n < 0 || (if excl {
            n >= st.tos->Vector_1.len()
        } else {
            n > st.tos->Vector_1.len()
        })
    })
}

/// The faults of the iteration opcodes: underflow at either pop, or a
/// rewind that would leave the program.
pub open spec fn spec_iter_stuck(st: MState, off: int, e: InterpError) -> bool {
    if st.accs.len() > 0 && st.accs.last().ptr == st.dcp {
        st.accs.last().count > 0 && ((e == InterpError::StackUnderflow && st.stack.len() == 0) || (
        st.stack.len() > 0 && e == InterpError::BadJump && off >= st.dcp))
    } else {
        ||| (e == InterpError::StackUnderflow && st.stack.len() == 0)
        ||| (st.stack.len() > 0 && collapse_m(st.stack.last()) > 1 && ((
        e == InterpError::StackUnderflow && st.stack.len() < 2) || (st.stack.len() >= 2 && e
            == InterpError::BadJump && off >= st.dcp)))
    }
}

/// The faults of `Select`: a jump out of the address space, an empty
/// offsets table, or underflow when an arm entry pops.
pub open spec fn spec_select_stuck(st: MState, ov: Seq<usize>, e: InterpError) -> bool {
    let c = collapse_m(st.tos);
    let olen = ov.len() as int;
    if c >= 2 && c - 2 < olen - 1 {
        ||| (e == InterpError::BadJump && st.dcp + ov[c - 2] + 1 > usize::MAX)
        ||| (e == InterpError::StackUnderflow && st.stack.len() == 0)
    } else if c == 1 {
        e == InterpError::StackUnderflow && st.stack.len() == 0
    } else {
        ||| (e == InterpError::BadJump && olen == 0)
        ||| (olen >= 1 && e == InterpError::BadJump && st.dcp + ov[olen - 1] + 1 > usize::MAX)
    }
}

/// The interpreter faults only where the reference machine does: a
/// reported error names a fault at a state the machine reaches on the
/// draws taken so far.
pub proof fn lemma_stuck(
    code: Seq<SudiceCode>,
    log: Seq<i64>,
    s1: Seq<SudiceValue>,
    t1: SudiceValue,
    l1: Seq<Accumulator>,
    d1: int,
    n: nat,
    e: InterpError,
)
    requires
        forall|future: Seq<i64>|
            steps_to(
                code,
                init_mstate(log + future),
                #[trigger] live_state(s1, t1, l1, d1, future),
                n,
            ),
        stuck_with(code, live_state(s1, t1, l1, d1, Seq::empty()), e),
    ensures
        exists|samples: Seq<i64>, m: nat, st: MState|
            #[trigger] steps_to(code, init_mstate(samples), st, m) && stuck_with(code, st, e),
{
    let st = live_state(s1, t1, l1, d1, Seq::<i64>::empty());
    assert(steps_to(code, init_mstate(log + Seq::<i64>::empty()), st, n));
    assert(steps_to(code, init_mstate(log + Seq::<i64>::empty()), st, n) && stuck_with(
        code,
        st,
        e,
    ));
}

/// A sequence already in ascending order is its own sorted version.
pub proof fn lemma_sort64_of_sorted(a: Seq<i64>, b: Seq<i64>)
    requires
        sorted(a),
        a.to_multiset() == b.to_multiset(),
    ensures
        a == sort64(b),
{
    let leq = |x: i64, y: i64| leq64(x, y);
    assert(vstd::relations::total_ordering(leq)) by {
        assert forall|x: i64| #[trigger] leq(x, x) by {};
    };
    b.lemma_sort_by_ensures(leq);
    assert(vstd::relations::sorted_by(a, leq)) by {
        assert forall|i: int, j: int| 0 <= i < j < a.len() implies #[trigger] leq(a[i], a[j]) by {
            assert(a[i] <= a[j]);
        };
    };
    vstd::seq_lib::lemma_sorted_unique(a, b.sort_by(leq), leq);
    assert(a =~= sort64(b));
}

/// A die group holds its dice in ascending order.
pub open spec fn vmodel_sorted(v: VModel) -> bool {
    match v {
        VModel::Scalar(_) => true,
        VModel::Vector(_, s) => sorted(s),
    }
}

/// Sorted die groups machine-wide: the top of the stack and every
/// stacked value.
pub open spec fn mstate_sorted(st: MState) -> bool {
    &&& vmodel_sorted(st.tos)
    &&& forall|k: int| 0 <= k < st.stack.len() ==> vmodel_sorted(#[trigger] st.stack[k])
}

/// Sorting sorts.
pub proof fn lemma_sort64_sorted(s: Seq<i64>)
    ensures
        sorted(sort64(s)),
{
    let leq = |x: i64, y: i64| leq64(x, y);
    assert(vstd::relations::total_ordering(leq)) by {
        assert forall|x: i64| #[trigger] leq(x, x) by {};
    };
    s.lemma_sort_by_ensures(leq);
    assert forall|i: int, j: int| 0 <= i < j < sort64(s).len() implies #[trigger] sort64(s)[i]
        <= #[trigger] sort64(s)[j] by {
        assert(leq(sort64(s)[i], sort64(s)[j]));
    };
}

/// Sorted vectors, one step at a time: a reference machine step from a
/// state whose die groups are all ascending leads to one whose die
/// groups are all ascending.
pub proof fn lemma_step_keeps_sorted(code: Seq<SudiceCode>, a: MState, b: MState)
    requires
        mstate_sorted(a),
        istep(code, a) == IOut::Next(b),
    ensures
        mstate_sorted(b),
{
    match code[a.dcp] {
        SudiceCode::Roll => {
            lemma_sort64_sorted(a.samples.take(collapse_m(a.stack.last()) as int));
        },
        SudiceCode::Reroll => {
            let n = collapse_m(a.stack.last());
            let m = match_count(a.tos->Vector_1, n);
            lemma_sort64_sorted(replace_matching(a.tos->Vector_1, n, a.samples.take(m)));
        },
        SudiceCode::RerollLowest => {
            let n = collapse_m(a.stack.last());
            lemma_sort64_sorted(a.samples.take(n as int) + a.tos->Vector_1.skip(n as int));
        },
        SudiceCode::RerollHighest => {
            let n = collapse_m(a.stack.last());
            lemma_sort64_sorted(
                a.tos->Vector_1.take(a.tos->Vector_1.len() - n) + a.samples.take(n as int),
            );
        },
        _ => {},
    }
    assert forall|k: int| 0 <= k < b.stack.len() implies vmodel_sorted(#[trigger] b.stack[k]) by {
        if k < a.stack.len() {
            assert(vmodel_sorted(a.stack[k]));
        }
    };
}

/// Sorted vectors at every interpreter step: every state the reference
/// machine reaches from one with ascending die groups — in particular
/// from the start of a program — again has ascending die groups, on the
/// stack and in the register alike.
pub proof fn lemma_run_keeps_sorted(code: Seq<SudiceCode>, a: MState, b: MState, n: nat)
    requires
        mstate_sorted(a),
        steps_to(code, a, b, n),
    ensures
        mstate_sorted(b),
    decreases n,
{
    if n > 0 {
        let m = istep(code, a)->Next_0;
        lemma_step_keeps_sorted(code, a, m);
        lemma_run_keeps_sorted(code, m, b, (n - 1) as nat);
    }
}

/// A runtime value collapses exactly as its model does.
pub broadcast proof fn lemma_collapse_model(v: SudiceValue)
    ensures
        #[trigger] collapse_m(model(v)) == spec_collapse(v),
{
}

/// Extract, in order, the fresh draws that turned `vals` into `mid` at
/// the positions showing `n`.
pub open spec fn extract_matching(vals: Seq<i64>, mid: Seq<i64>, n: i64) -> Seq<i64>
    decreases vals.len(),
{
    if vals.len() == 0 {
        Seq::empty()
    } else if vals.first() == n {
        seq![mid.first()] + extract_matching(vals.drop_first(), mid.drop_first(), n)
    } else {
        extract_matching(vals.drop_first(), mid.drop_first(), n)
    }
}

/// Replaying the extracted draws reproduces `mid`; there are exactly as
/// many draws as dice showing `n`, and each is in `[1, face]` when `mid`
/// kept the other dice and replaced the matching ones in range.
pub proof fn lemma_extract_replace(vals: Seq<i64>, mid: Seq<i64>, n: i64, face: i64)
    requires
        mid.len() == vals.len(),
        forall|k: int|
            #![trigger mid[k]]
            0 <= k < mid.len() ==> (if vals[k] == n {
                1 <= mid[k] <= face
            } else {
                mid[k] == vals[k]
            }),
    ensures
        extract_matching(vals, mid, n).len() == match_count(vals, n),
        replace_matching(vals, n, extract_matching(vals, mid, n)) == mid,
        forall|j: int|
            0 <= j < extract_matching(vals, mid, n).len() ==> 1 <= #[trigger] extract_matching(
                vals,
                mid,
                n,
            )[j] <= face,
    decreases vals.len(),
{
    if vals.len() > 0 {
        let vt = vals.drop_first();
        let mt = mid.drop_first();
        assert forall|k: int|
            #![trigger mt[k]]
            0 <= k < mt.len() implies (if vt[k] == n {
            1 <= mt[k] <= face
        } else {
            mt[k] == vt[k]
        }) by {
            assert(mt[k] == mid[k + 1]);
            assert(vt[k] == vals[k + 1]);
        };
        lemma_extract_replace(vt, mt, n, face);
        let ex = extract_matching(vals, mid, n);
        if vals.first() == n {
            assert(ex == seq![mid.first()] + extract_matching(vt, mt, n));
            assert(ex.drop_first() =~= extract_matching(vt, mt, n));
            assert(replace_matching(vals, n, ex) == seq![ex.first()] + replace_matching(
                vt,
                n,
                ex.drop_first(),
            ));
            assert(replace_matching(vals, n, ex) =~= mid);
        } else {
            assert(ex == extract_matching(vt, mt, n));
            assert(mid.first() == vals.first());
            assert(replace_matching(vals, n, ex) =~= mid);
        }
    } else {
        assert(replace_matching(vals, n, extract_matching(vals, mid, n)) =~= mid);
    }
}

/// One interpreter transition for `Num`.
pub proof fn lemma_step_num(
    code: Seq<SudiceCode>,
    s1: Seq<SudiceValue>,
    t1: SudiceValue,
    l1: Seq<Accumulator>,
    d1: int,
    i: i64,
    prefix: Seq<i64>,
)
    requires
        0 <= d1 < code.len(),
        code[d1] == SudiceCode::Num(i),
        prefix.len() == 0,
    ensures
        forall|future: Seq<i64>|
            istep(code, live_state(s1, t1, l1, d1, prefix + future)) == IOut::Next(
                #[trigger] live_state(s1.push(t1), SudiceValue::Scalar(i), l1, d1 + 1, future),
            ),
{
    let fm = |v: SudiceValue| model(v);
    assert forall|future: Seq<i64>|
        istep(code, live_state(s1, t1, l1, d1, prefix + future)) == IOut::Next(
            #[trigger] live_state(s1.push(t1), SudiceValue::Scalar(i), l1, d1 + 1, future),
        ) by {
        assert(prefix + future =~= future);
        assert(s1.push(t1).map_values(fm) =~= s1.map_values(fm).push(model(t1)));
    };
}

/// One interpreter transition for a binary opcode that pops one operand
/// and leaves a settled scalar: the arithmetic, comparison and boolean
/// opcodes.
pub proof fn lemma_step_scalar_op(
    code: Seq<SudiceCode>,
    s1: Seq<SudiceValue>,
    t1: SudiceValue,
    l1: Seq<Accumulator>,
    d1: int,
    t2: SudiceValue,
    prefix: Seq<i64>,
)
    requires
        0 <= d1 < code.len(),
        s1.len() > 0,
        prefix.len() == 0,
        match code[d1] {
            SudiceCode::Add => t2 == SudiceValue::Scalar(
                i64_specs::wrapping_add(spec_collapse(t1), spec_collapse(s1.last())),
            ),
            SudiceCode::Sub => t2 == SudiceValue::Scalar(
                i64_specs::wrapping_sub(spec_collapse(t1), spec_collapse(s1.last())),
            ),
            SudiceCode::Mul => t2 == SudiceValue::Scalar(
                i64_specs::wrapping_mul(spec_collapse(t1), spec_collapse(s1.last())),
            ),
            SudiceCode::Div => spec_collapse(s1.last()) != 0 && !(spec_collapse(t1) == i64::MIN
                && spec_collapse(s1.last()) == -1) && t2 == SudiceValue::Scalar(
                div_trunc(spec_collapse(t1), spec_collapse(s1.last())) as i64,
            ),
            SudiceCode::Lt => t2 == spec_from_bool(spec_collapse(t1) < spec_collapse(s1.last())),
            SudiceCode::Gt => t2 == spec_from_bool(spec_collapse(t1) > spec_collapse(s1.last())),
            SudiceCode::Eq => t2 == spec_from_bool(spec_collapse(t1) == spec_collapse(s1.last())),
            SudiceCode::Ne => t2 == spec_from_bool(spec_collapse(t1) != spec_collapse(s1.last())),
            SudiceCode::And => t2 == spec_from_bool(
                spec_collapse(t1) == 1 && spec_collapse(s1.last()) == 1,
            ),
            SudiceCode::Or => t2 == spec_from_bool(
                spec_collapse(t1) == 1 || spec_collapse(s1.last()) == 1,
            ),
            _ => false,
        },
    ensures
        forall|future: Seq<i64>|
            istep(code, live_state(s1, t1, l1, d1, prefix + future)) == IOut::Next(
                #[trigger] live_state(s1.drop_last(), t2, l1, d1 + 1, future),
            ),
{
    broadcast use lemma_collapse_model;

    let fm = |v: SudiceValue| model(v);
    assert forall|future: Seq<i64>|
        istep(code, live_state(s1, t1, l1, d1, prefix + future)) == IOut::Next(
            #[trigger] live_state(s1.drop_last(), t2, l1, d1 + 1, future),
        ) by {
        assert(prefix + future =~= future);
        let stpre = live_state(s1, t1, l1, d1, future);
        assert(stpre.stack.len() == s1.len());
        assert(stpre.stack.last() == model(s1.last()));
        assert(s1.drop_last().map_values(fm) =~= stpre.stack.drop_last());
        assert(collapse_m(stpre.tos) == spec_collapse(t1));
        assert(collapse_m(stpre.stack.last()) == spec_collapse(s1.last()));
    };
}

/// One interpreter transition for the vector opcodes that draw no fresh
/// dice: the drops and the clamps.
pub proof fn lemma_step_shape_op(
    code: Seq<SudiceCode>,
    s1: Seq<SudiceValue>,
    t1: SudiceValue,
    l1: Seq<Accumulator>,
    d1: int,
    t2: SudiceValue,
    prefix: Seq<i64>,
)
    requires
        0 <= d1 < code.len(),
        s1.len() > 0,
        prefix.len() == 0,
        match code[d1] {
            SudiceCode::DropLowest => t1 is Vector && 0 <= spec_collapse(s1.last())
                < t1->Vector_1@.len() && t2 is Vector && t2->Vector_0 == t1->Vector_0
                && t2->Vector_1@ == t1->Vector_1@.skip(spec_collapse(s1.last()) as int),
            SudiceCode::DropHighest => t1 is Vector && 0 <= spec_collapse(s1.last())
                < t1->Vector_1@.len() && t2 is Vector && t2->Vector_0 == t1->Vector_0
                && t2->Vector_1@ == t1->Vector_1@.take(
                t1->Vector_1@.len() - spec_collapse(s1.last()),
            ),
            SudiceCode::Ceil => match t1 {
                SudiceValue::Scalar(v) => t2 == SudiceValue::Scalar(
                    clamp_above(v, spec_collapse(s1.last())),
                ),
                SudiceValue::Vector(_, _) => t2 is Vector && t2->Vector_0 == t1->Vector_0
                    && t2->Vector_1@ == t1->Vector_1@.map_values(
                    |d: i64| clamp_above(d, spec_collapse(s1.last())),
                ),
            },
            SudiceCode::Floor => match t1 {
                SudiceValue::Scalar(v) => t2 == SudiceValue::Scalar(
                    clamp_below(v, spec_collapse(s1.last())),
                ),
                SudiceValue::Vector(_, _) => t2 is Vector && t2->Vector_0 == t1->Vector_0
                    && t2->Vector_1@ == t1->Vector_1@.map_values(
                    |d: i64| clamp_below(d, spec_collapse(s1.last())),
                ),
            },
            _ => false,
        },
    ensures
        forall|future: Seq<i64>|
            istep(code, live_state(s1, t1, l1, d1, prefix + future)) == IOut::Next(
                #[trigger] live_state(s1.drop_last(), t2, l1, d1 + 1, future),
            ),
{
    broadcast use lemma_collapse_model;

    let fm = |v: SudiceValue| model(v);
    assert forall|future: Seq<i64>|
        istep(code, live_state(s1, t1, l1, d1, prefix + future)) == IOut::Next(
            #[trigger] live_state(s1.drop_last(), t2, l1, d1 + 1, future),
        ) by {
        assert(prefix + future =~= future);
        let stpre = live_state(s1, t1, l1, d1, future);
        assert(stpre.stack.len() == s1.len());
        assert(stpre.stack.last() == model(s1.last()));
        assert(s1.drop_last().map_values(fm) =~= stpre.stack.drop_last());
        assert(collapse_m(stpre.stack.last()) == spec_collapse(s1.last()));
        let n = collapse_m(stpre.stack.last());
        match code[d1] {
            SudiceCode::DropLowest => {
                assert(model(t2)->Vector_1 =~= stpre.tos->Vector_1.skip(n as int));
            },
            SudiceCode::DropHighest => {
                assert(model(t2)->Vector_1 =~= stpre.tos->Vector_1.take(
                    stpre.tos->Vector_1.len() - n,
                ));
            },
            SudiceCode::Ceil => {
                match t1 {
                    SudiceValue::Scalar(_) => {},
                    SudiceValue::Vector(_, _) => {
                        assert(model(t2)->Vector_1 =~= stpre.tos->Vector_1.map_values(
                            |d: i64| clamp_above(d, n),
                        ));
                    },
                }
            },
            SudiceCode::Floor => {
                match t1 {
                    SudiceValue::Scalar(_) => {},
                    SudiceValue::Vector(_, _) => {
                        assert(model(t2)->Vector_1 =~= stpre.tos->Vector_1.map_values(
                            |d: i64| clamp_below(d, n),
                        ));
                    },
                }
            },
            _ => {},
        }
    };
}

/// One interpreter transition for `Roll`: the sorted fresh dice are the
/// stream prefix the reference machine consumes.
pub proof fn lemma_step_roll(
    code: Seq<SudiceCode>,
    s1: Seq<SudiceValue>,
    t1: SudiceValue,
    l1: Seq<Accumulator>,
    d1: int,
    t2: SudiceValue,
)
    requires
        0 <= d1 < code.len(),
        code[d1] == SudiceCode::Roll,
        s1.len() > 0,
        1 <= spec_collapse(s1.last()),
        1 <= spec_collapse(t1),
        t2 is Vector,
        t2->Vector_0 == spec_collapse(t1),
        t2->Vector_1@.len() == spec_collapse(s1.last()) as int,
        sorted(t2->Vector_1@),
        forall|k: int|
            0 <= k < t2->Vector_1@.len() ==> 1 <= #[trigger] t2->Vector_1@[k] <= t2->Vector_0,
    ensures
        forall|future: Seq<i64>|
            istep(code, live_state(s1, t1, l1, d1, t2->Vector_1@ + future)) == IOut::Next(
                #[trigger] live_state(s1.drop_last(), t2, l1, d1 + 1, future),
            ),
{
    broadcast use lemma_collapse_model;

    let fm = |v: SudiceValue| model(v);
    let prefix = t2->Vector_1@;
    assert forall|future: Seq<i64>|
        istep(code, live_state(s1, t1, l1, d1, prefix + future)) == IOut::Next(
            #[trigger] live_state(s1.drop_last(), t2, l1, d1 + 1, future),
        ) by {
        let stpre = live_state(s1, t1, l1, d1, prefix + future);
        assert(stpre.stack.len() == s1.len());
        assert(stpre.stack.last() == model(s1.last()));
        assert(s1.drop_last().map_values(fm) =~= stpre.stack.drop_last());
        let n = collapse_m(stpre.stack.last());
        assert(n == spec_collapse(s1.last()));
        assert((prefix + future).take(n as int) =~= prefix);
        assert((prefix + future).skip(n as int) =~= future);
        lemma_sort64_of_sorted(prefix, prefix);
        assert(model(t2) == VModel::Vector(collapse_m(stpre.tos), sort64(prefix)));
    };
}

/// One interpreter transition for the reroll family: the fresh draws,
/// in the order they were taken, are the stream prefix the reference
/// machine consumes, and the resorted result is its die group.
pub proof fn lemma_step_reroll(
    code: Seq<SudiceCode>,
    s1: Seq<SudiceValue>,
    t1: SudiceValue,
    l1: Seq<Accumulator>,
    d1: int,
    t2: SudiceValue,
    prefix: Seq<i64>,
)
    requires
        0 <= d1 < code.len(),
        s1.len() > 0,
        t1 is Vector,
        value_wf(t1),
        t2 is Vector,
        t2->Vector_0 == t1->Vector_0,
        value_wf(t2),
        forall|j: int| 0 <= j < prefix.len() ==> 1 <= #[trigger] prefix[j] <= t1->Vector_0,
        match code[d1] {
            SudiceCode::Reroll => prefix.len() == match_count(
                t1->Vector_1@,
                spec_collapse(s1.last()),
            ) && t2->Vector_1@.to_multiset() == replace_matching(
                t1->Vector_1@,
                spec_collapse(s1.last()),
                prefix,
            ).to_multiset(),
            SudiceCode::RerollLowest => 0 <= spec_collapse(s1.last()) <= t1->Vector_1@.len()
                && prefix.len() == spec_collapse(s1.last()) && t2->Vector_1@.to_multiset() == (
            prefix + t1->Vector_1@.skip(spec_collapse(s1.last()) as int)).to_multiset(),
            SudiceCode::RerollHighest => 0 <= spec_collapse(s1.last()) <= t1->Vector_1@.len()
                && prefix.len() == spec_collapse(s1.last()) && t2->Vector_1@.to_multiset() == (
            t1->Vector_1@.take(t1->Vector_1@.len() - spec_collapse(s1.last()))
                + prefix).to_multiset(),
            _ => false,
        },
    ensures
        forall|future: Seq<i64>|
            istep(code, live_state(s1, t1, l1, d1, prefix + future)) == IOut::Next(
                #[trigger] live_state(s1.drop_last(), t2, l1, d1 + 1, future),
            ),
{
    broadcast use lemma_collapse_model;

    let fm = |v: SudiceValue| model(v);
    assert forall|future: Seq<i64>|
        istep(code, live_state(s1, t1, l1, d1, prefix + future)) == IOut::Next(
            #[trigger] live_state(s1.drop_last(), t2, l1, d1 + 1, future),
        ) by {
        let stpre = live_state(s1, t1, l1, d1, prefix + future);
        assert(stpre.stack.len() == s1.len());
        assert(stpre.stack.last() == model(s1.last()));
        assert(s1.drop_last().map_values(fm) =~= stpre.stack.drop_last());
        let n = collapse_m(stpre.stack.last());
        assert(n == spec_collapse(s1.last()));
        let vals = stpre.tos->Vector_1;
        assert(vals == t1->Vector_1@);
        let m = prefix.len() as int;
        assert((prefix + future).take(m) =~= prefix);
        assert((prefix + future).skip(m) =~= future);
        match code[d1] {
            SudiceCode::Reroll => {
                lemma_sort64_of_sorted(t2->Vector_1@, replace_matching(vals, n, prefix));
            },
            SudiceCode::RerollLowest => {
                lemma_sort64_of_sorted(t2->Vector_1@, prefix + vals.skip(n as int));
            },
            SudiceCode::RerollHighest => {
                lemma_sort64_of_sorted(t2->Vector_1@, vals.take(vals.len() - n) + prefix);
            },
            _ => {},
        }
    };
}

/// One interpreter transition for `Jump`.
pub proof fn lemma_step_jump(
    code: Seq<SudiceCode>,
    s1: Seq<SudiceValue>,
    t1: SudiceValue,
    l1: Seq<Accumulator>,
    d1: int,
    off: usize,
    prefix: Seq<i64>,
)
    requires
        0 <= d1 < code.len(),
        code[d1] == SudiceCode::Jump(off),
        prefix.len() == 0,
    ensures
        forall|future: Seq<i64>|
            istep(code, live_state(s1, t1, l1, d1, prefix + future)) == IOut::Next(
                #[trigger] live_state(s1, t1, l1, d1 + off + 1, future),
            ),
{
    assert forall|future: Seq<i64>|
        istep(code, live_state(s1, t1, l1, d1, prefix + future)) == IOut::Next(
            #[trigger] live_state(s1, t1, l1, d1 + off + 1, future),
        ) by {
        assert(prefix + future =~= future);
    };
}

/// One interpreter transition for `Select`, by the three cases of the
/// collapsed predicate: an in-range arm index, the fall-through, or the
/// escape past the whole select.
pub proof fn lemma_step_select(
    code: Seq<SudiceCode>,
    s1: Seq<SudiceValue>,
    t1: SudiceValue,
    l1: Seq<Accumulator>,
    d1: int,
    ov: Vec<usize>,
    t2: SudiceValue,
    s2: Seq<SudiceValue>,
    d2: int,
    prefix: Seq<i64>,
)
    requires
        0 <= d1 < code.len(),
        code[d1] == SudiceCode::Select(ov),
        prefix.len() == 0,
        ({
            let c = spec_collapse(t1);
            if c >= 2 && c - 2 < ov@.len() - 1 {
                s1.len() > 0 && t2 == s1.last() && s2 == s1.drop_last() && d2 == d1 + ov@[c - 2] + 1
            } else if c == 1 {
                s1.len() > 0 && t2 == s1.last() && s2 == s1.drop_last() && d2 == d1 + 1
            } else {
                ov@.len() > 0 && t2 == SudiceValue::Scalar(c) && s2 == s1 && d2 == d1
                    + ov@[ov@.len() - 1] + 1
            }
        }),
    ensures
        forall|future: Seq<i64>|
            istep(code, live_state(s1, t1, l1, d1, prefix + future)) == IOut::Next(
                #[trigger] live_state(s2, t2, l1, d2, future),
            ),
{
    broadcast use lemma_collapse_model;

    let fm = |v: SudiceValue| model(v);
    assert forall|future: Seq<i64>|
        istep(code, live_state(s1, t1, l1, d1, prefix + future)) == IOut::Next(
            #[trigger] live_state(s2, t2, l1, d2, future),
        ) by {
        assert(prefix + future =~= future);
        let stpre = live_state(s1, t1, l1, d1, future);
        assert(collapse_m(stpre.tos) == spec_collapse(t1));
        let c = spec_collapse(t1);
        if c >= 2 && c - 2 < ov@.len() - 1 {
            assert(stpre.stack.len() == s1.len());
            assert(stpre.stack.last() == model(s1.last()));
            assert(s2.map_values(fm) =~= stpre.stack.drop_last());
        } else if c == 1 {
            assert(stpre.stack.len() == s1.len());
            assert(stpre.stack.last() == model(s1.last()));
            assert(s2.map_values(fm) =~= stpre.stack.drop_last());
        }
    };
}

/// One interpreter transition for `BestOf` / `WorstOf`, by the four
/// cases of the trampoline: retire a finished frame, fold one more
/// sample and rewind, open a new frame and rewind, or pass through when
/// a single sample suffices.
pub proof fn lemma_step_iter(
    code: Seq<SudiceCode>,
    s1: Seq<SudiceValue>,
    t1: SudiceValue,
    l1: Seq<Accumulator>,
    d1: int,
    off: usize,
    best: bool,
    t2: SudiceValue,
    s2: Seq<SudiceValue>,
    l2: Seq<Accumulator>,
    d2: int,
    prefix: Seq<i64>,
)
    requires
        0 <= d1 < code.len(),
        code[d1] == (if best {
            SudiceCode::BestOf(off)
        } else {
            SudiceCode::WorstOf(off)
        }),
        prefix.len() == 0,
        ({
            if l1.len() > 0 && l1.last().ptr == d1 {
                let a = l1.last();
                if a.count <= 0 {
                    l2 == l1.drop_last() && t2 == SudiceValue::Scalar(a.value) && s2 == s1 && d2
                        == d1 + 1
                } else {
                    s1.len() > 0 && off < d1 && l2 == l1.update(
                        l1.len() - 1,
                        Accumulator {
                            ptr: a.ptr,
                            count: (a.count - 1) as i64,
                            value: (if best {
                                crate::checker::max64(a.value, spec_collapse(t1))
                            } else {
                                crate::checker::min64(a.value, spec_collapse(t1))
                            }),
                        },
                    ) && t2 == s1.last() && s2 == s1.drop_last() && d2 == d1 - off
                }
            } else {
                s1.len() > 0 && ({
                    let x = spec_collapse(s1.last());
                    if x > 1 {
                        s1.len() >= 2 && off < d1 && l2 == l1.push(
                            Accumulator {
                                ptr: d1 as usize,
                                count: (x - 1) as i64,
                                value: spec_collapse(t1),
                            },
                        ) && t2 == s1[s1.len() - 2] && s2 == s1.drop_last().drop_last() && d2 == d1
                            - off
                    } else {
                        l2 == l1 && t2 == t1 && s2 == s1.drop_last() && d2 == d1 + 1
                    }
                })
            }
        }),
    ensures
        forall|future: Seq<i64>|
            istep(code, live_state(s1, t1, l1, d1, prefix + future)) == IOut::Next(
                #[trigger] live_state(s2, t2, l2, d2, future),
            ),
{
    broadcast use lemma_collapse_model;

    let fm = |v: SudiceValue| model(v);
    assert forall|future: Seq<i64>|
        istep(code, live_state(s1, t1, l1, d1, prefix + future)) == IOut::Next(
            #[trigger] live_state(s2, t2, l2, d2, future),
        ) by {
        assert(prefix + future =~= future);
        let stpre = live_state(s1, t1, l1, d1, future);
        assert(collapse_m(stpre.tos) == spec_collapse(t1));
        if l1.len() > 0 && l1.last().ptr == d1 {
            let a = l1.last();
            if a.count <= 0 {
            } else {
                assert(stpre.stack.len() == s1.len());
                assert(stpre.stack.last() == model(s1.last()));
                assert(s2.map_values(fm) =~= stpre.stack.drop_last());
            }
        } else {
            assert(stpre.stack.len() == s1.len());
            assert(stpre.stack.last() == model(s1.last()));
            assert(collapse_m(stpre.stack.last()) == spec_collapse(s1.last()));
            let x = spec_collapse(s1.last());
            if x > 1 {
                assert(stpre.stack[s1.len() - 2] == model(s1[s1.len() - 2]));
                assert(s2.map_values(fm) =~= stpre.stack.drop_last().drop_last());
            } else {
                assert(s2.map_values(fm) =~= stpre.stack.drop_last());
            }
        }
    };
}

/// The literal and arithmetic opcodes.
pub open spec fn is_arith_op(op: SudiceCode) -> bool {
    ||| op matches SudiceCode::Num(_)
    ||| op == SudiceCode::Add
    ||| op == SudiceCode::Sub
    ||| op == SudiceCode::Mul
    ||| op == SudiceCode::Div
}

/// The comparison and boolean opcodes.
pub open spec fn is_bool_op(op: SudiceCode) -> bool {
    ||| op == SudiceCode::Lt
    ||| op == SudiceCode::Gt
    ||| op == SudiceCode::Eq
    ||| op == SudiceCode::Ne
    ||| op == SudiceCode::And
    ||| op == SudiceCode::Or
}

/// The opcodes that reshape a die group without fresh draws: the drops
/// and the clamps.
pub open spec fn is_vector_op(op: SudiceCode) -> bool {
    ||| op == SudiceCode::DropLowest
    ||| op == SudiceCode::DropHighest
    ||| op == SudiceCode::Ceil
    ||| op == SudiceCode::Floor
}

/// The opcodes that draw fresh dice.
pub open spec fn is_dice_op(op: SudiceCode) -> bool {
    ||| op == SudiceCode::Roll
    ||| op == SudiceCode::Reroll
    ||| op == SudiceCode::RerollLowest
    ||| op == SudiceCode::RerollHighest
}

/// The iteration opcodes.
pub open spec fn is_iter_op(op: SudiceCode) -> bool {
    ||| op matches SudiceCode::BestOf(_)
    ||| op matches SudiceCode::WorstOf(_)
}

/// The selection and jump opcodes.
pub open spec fn is_jump_op(op: SudiceCode) -> bool {
    ||| op matches SudiceCode::Select(_)
    ||| op matches SudiceCode::Jump(_)
}

/// One interpreter step for a literal or arithmetic opcode.
#[verifier::rlimit(100)]
fn step_arith_group(
    d: &SudiceExpression,
    s: &mut Vec<SudiceValue>,
    tos: SudiceValue,
    dcp: usize,
    l: &Vec<Accumulator>,
    Ghost(code): Ghost<Seq<SudiceCode>>,
    Ghost(log): Ghost<Seq<i64>>,
    Ghost(nsteps): Ghost<nat>,
) -> (res: Result<(SudiceValue, usize), InterpError>)
    requires
        code == d.code@,
        dcp < code.len(),
        is_arith_op(code[dcp as int]),
        value_wf(tos),
        forall|k: int| 0 <= k < old(s)@.len() ==> value_wf(#[trigger] old(s)@[k]),
        forall|future: Seq<i64>|
            steps_to(
                code,
                init_mstate(log + future),
                #[trigger] live_state(old(s)@, tos, l@, dcp as int, future),
                nsteps,
            ),
    ensures
        match res {
            Ok(p) => {
                &&& value_wf(p.0)
                &&& (forall|k: int| 0 <= k < final(s)@.len() ==> value_wf(#[trigger] final(s)@[k]))
                &&& (forall|future: Seq<i64>|
                    steps_to(
                        code,
                        init_mstate(log + future),
                        #[trigger] live_state(final(s)@, p.0, l@, p.1 as int, future),
                        nsteps + 1,
                    ))
            },
            Err(e) => e != InterpError::StepLimit && exists|samples: Seq<i64>, n: nat, st: MState|
                #[trigger] steps_to(code, init_mstate(samples), st, n) && stuck_with(code, st, e),
        },
{
    let mut tos = tos;
    let mut dcp = dcp;
    let ghost predcp = dcp as int;
    // the program length is addressable, so the pointer can advance
    let end = d.code.len();
    proof {
        assert(dcp < end);
    }
    match &d.code[dcp] {
            SudiceCode::Num(i) => {
                let ghost pres = s@;
                let ghost pret = tos;
                s.push(tos);
                tos = SudiceValue::new(*i);
                dcp = dcp + 1;
                proof {
                    lemma_step_num(code, pres, pret, l@, predcp, *i, Seq::<i64>::empty());
                    lemma_live_step(
                        code,
                        log,
                        Seq::<i64>::empty(),
                        pres,
                        pret,
                        l@,
                        predcp,
                        s@,
                        tos,
                        l@,
                        predcp + 1,
                        nsteps,
                    );
                    assert(log + Seq::<i64>::empty() =~= log);
                }
            },
            SudiceCode::Add => {
                let ghost pres = s@;
                let ghost pret = tos;
                let x = match pop_value(s) {
                    Ok(v) => v,
                    Err(e) => {
                        proof {
                            lemma_stuck(code, log, pres, pret, l@, predcp, nsteps, e);
                        }
                        return Err(e);
                    },
                };
                let t = tos;
                tos = t.add(x);
                dcp = dcp + 1;
                proof {
                    lemma_step_scalar_op(code, pres, pret, l@, predcp, tos, Seq::<i64>::empty());
                    lemma_live_step(
                        code,
                        log,
                        Seq::<i64>::empty(),
                        pres,
                        pret,
                        l@,
                        predcp,
                        s@,
                        tos,
                        l@,
                        predcp + 1,
                        nsteps,
                    );
                    assert(log + Seq::<i64>::empty() =~= log);
                }
            },
            SudiceCode::Sub => {
                let ghost pres = s@;
                let ghost pret = tos;
                let x = match pop_value(s) {
                    Ok(v) => v,
                    Err(e) => {
                        proof {
                            lemma_stuck(code, log, pres, pret, l@, predcp, nsteps, e);
                        }
                        return Err(e);
                    },
                };
                let t = tos;
                tos = t.sub(x);
                dcp = dcp + 1;
                proof {
                    lemma_step_scalar_op(code, pres, pret, l@, predcp, tos, Seq::<i64>::empty());
                    lemma_live_step(
                        code,
                        log,
                        Seq::<i64>::empty(),
                        pres,
                        pret,
                        l@,
                        predcp,
                        s@,
                        tos,
                        l@,
                        predcp + 1,
                        nsteps,
                    );
                    assert(log + Seq::<i64>::empty() =~= log);
                }
            },
            SudiceCode::Mul => {
                let ghost pres = s@;
                let ghost pret = tos;
                let x = match pop_value(s) {
                    Ok(v) => v,
                    Err(e) => {
                        proof {
                            lemma_stuck(code, log, pres, pret, l@, predcp, nsteps, e);
                        }
                        return Err(e);
                    },
                };
                let t = tos;
                tos = t.mul(x);
                dcp = dcp + 1;
                proof {
                    lemma_step_scalar_op(code, pres, pret, l@, predcp, tos, Seq::<i64>::empty());
                    lemma_live_step(
                        code,
                        log,
                        Seq::<i64>::empty(),
                        pres,
                        pret,
                        l@,
                        predcp,
                        s@,
                        tos,
                        l@,
                        predcp + 1,
                        nsteps,
                    );
                    assert(log + Seq::<i64>::empty() =~= log);
                }
            },
            SudiceCode::Div => {
                let ghost pres = s@;
                let ghost pret = tos;
                let x = match pop_value(s) {
                    Ok(v) => v,
                    Err(e) => {
                        proof {
                            lemma_stuck(code, log, pres, pret, l@, predcp, nsteps, e);
                        }
                        return Err(e);
                    },
                };
                let t = tos;
                let a = t.collapse();
                let b = x.collapse();
                if b == 0 || (a == i64::MIN && b == -1) {
                    proof {
                        lemma_stuck(code, log, pres, pret, l@, predcp, nsteps, InterpError::DivisionError);
                    }
                    return Err(InterpError::DivisionError);
                }
                tos = SudiceValue::new(a).div(b);
                dcp = dcp + 1;
                proof {
                    lemma_step_scalar_op(code, pres, pret, l@, predcp, tos, Seq::<i64>::empty());
                    lemma_live_step(
                        code,
                        log,
                        Seq::<i64>::empty(),
                        pres,
                        pret,
                        l@,
                        predcp,
                        s@,
                        tos,
                        l@,
                        predcp + 1,
                        nsteps,
                    );
                    assert(log + Seq::<i64>::empty() =~= log);
                }
            },
        _ => {
            return unreached();
        },
    }
    Ok((tos, dcp))
}

/// One interpreter step for a comparison or boolean opcode.
#[verifier::rlimit(100)]
fn step_bool_group(
    d: &SudiceExpression,
    s: &mut Vec<SudiceValue>,
    tos: SudiceValue,
    dcp: usize,
    l: &Vec<Accumulator>,
    Ghost(code): Ghost<Seq<SudiceCode>>,
    Ghost(log): Ghost<Seq<i64>>,
    Ghost(nsteps): Ghost<nat>,
) -> (res: Result<(SudiceValue, usize), InterpError>)
    requires
        code == d.code@,
        dcp < code.len(),
        is_bool_op(code[dcp as int]),
        value_wf(tos),
        forall|k: int| 0 <= k < old(s)@.len() ==> value_wf(#[trigger] old(s)@[k]),
        forall|future: Seq<i64>|
            steps_to(
                code,
                init_mstate(log + future),
                #[trigger] live_state(old(s)@, tos, l@, dcp as int, future),
                nsteps,
            ),
    ensures
        match res {
            Ok(p) => {
                &&& value_wf(p.0)
                &&& (forall|k: int| 0 <= k < final(s)@.len() ==> value_wf(#[trigger] final(s)@[k]))
                &&& (forall|future: Seq<i64>|
                    steps_to(
                        code,
                        init_mstate(log + future),
                        #[trigger] live_state(final(s)@, p.0, l@, p.1 as int, future),
                        nsteps + 1,
                    ))
            },
            Err(e) => e != InterpError::StepLimit && exists|samples: Seq<i64>, n: nat, st: MState|
                #[trigger] steps_to(code, init_mstate(samples), st, n) && stuck_with(code, st, e),
        },
{
    let mut tos = tos;
    let mut dcp = dcp;
    let ghost predcp = dcp as int;
    // the program length is addressable, so the pointer can advance
    let end = d.code.len();
    proof {
        assert(dcp < end);
    }
    match &d.code[dcp] {
            SudiceCode::Lt => {
                let ghost pres = s@;
                let ghost pret = tos;
                let x = match pop_value(s) {
                    Ok(v) => v,
                    Err(e) => {
                        proof {
                            lemma_stuck(code, log, pres, pret, l@, predcp, nsteps, e);
                        }
                        return Err(e);
                    },
                };
                let t = tos;
                tos = t.lt(x);
                dcp = dcp + 1;
                proof {
                    lemma_step_scalar_op(code, pres, pret, l@, predcp, tos, Seq::<i64>::empty());
                    lemma_live_step(
                        code,
                        log,
                        Seq::<i64>::empty(),
                        pres,
                        pret,
                        l@,
                        predcp,
                        s@,
                        tos,
                        l@,
                        predcp + 1,
                        nsteps,
                    );
                    assert(log + Seq::<i64>::empty() =~= log);
                }
            },
            SudiceCode::Gt => {
                let ghost pres = s@;
                let ghost pret = tos;
                let x = match pop_value(s) {
                    Ok(v) => v,
                    Err(e) => {
                        proof {
                            lemma_stuck(code, log, pres, pret, l@, predcp, nsteps, e);
                        }
                        return Err(e);
                    },
                };
                let t = tos;
                tos = t.gt(x);
                dcp = dcp + 1;
                proof {
                    lemma_step_scalar_op(code, pres, pret, l@, predcp, tos, Seq::<i64>::empty());
                    lemma_live_step(
                        code,
                        log,
                        Seq::<i64>::empty(),
                        pres,
                        pret,
                        l@,
                        predcp,
                        s@,
                        tos,
                        l@,
                        predcp + 1,
                        nsteps,
                    );
                    assert(log + Seq::<i64>::empty() =~= log);
                }
            },
            SudiceCode::Eq => {
                let ghost pres = s@;
                let ghost pret = tos;
                let x = match pop_value(s) {
                    Ok(v) => v,
                    Err(e) => {
                        proof {
                            lemma_stuck(code, log, pres, pret, l@, predcp, nsteps, e);
                        }
                        return Err(e);
                    },
                };
                let t = tos;
                tos = t.eq(x);
                dcp = dcp + 1;
                proof {
                    lemma_step_scalar_op(code, pres, pret, l@, predcp, tos, Seq::<i64>::empty());
                    lemma_live_step(
                        code,
                        log,
                        Seq::<i64>::empty(),
                        pres,
                        pret,
                        l@,
                        predcp,
                        s@,
                        tos,
                        l@,
                        predcp + 1,
                        nsteps,
                    );
                    assert(log + Seq::<i64>::empty() =~= log);
                }
            },
            SudiceCode::Ne => {
                let ghost pres = s@;
                let ghost pret = tos;
                let x = match pop_value(s) {
                    Ok(v) => v,
                    Err(e) => {
                        proof {
                            lemma_stuck(code, log, pres, pret, l@, predcp, nsteps, e);
                        }
                        return Err(e);
                    },
                };
                let t = tos;
                tos = t.ne(x);
                dcp = dcp + 1;
                proof {
                    lemma_step_scalar_op(code, pres, pret, l@, predcp, tos, Seq::<i64>::empty());
                    lemma_live_step(
                        code,
                        log,
                        Seq::<i64>::empty(),
                        pres,
                        pret,
                        l@,
                        predcp,
                        s@,
                        tos,
                        l@,
                        predcp + 1,
                        nsteps,
                    );
                    assert(log + Seq::<i64>::empty() =~= log);
                }
            },
            SudiceCode::And => {
                let ghost pres = s@;
                let ghost pret = tos;
                let x = match pop_value(s) {
                    Ok(v) => v,
                    Err(e) => {
                        proof {
                            lemma_stuck(code, log, pres, pret, l@, predcp, nsteps, e);
                        }
                        return Err(e);
                    },
                };
                let t = tos;
                tos = t.and(x);
                dcp = dcp + 1;
                proof {
                    lemma_step_scalar_op(code, pres, pret, l@, predcp, tos, Seq::<i64>::empty());
                    lemma_live_step(
                        code,
                        log,
                        Seq::<i64>::empty(),
                        pres,
                        pret,
                        l@,
                        predcp,
                        s@,
                        tos,
                        l@,
                        predcp + 1,
                        nsteps,
                    );
                    assert(log + Seq::<i64>::empty() =~= log);
                }
            },
            SudiceCode::Or => {
                let ghost pres = s@;
                let ghost pret = tos;
                let x = match pop_value(s) {
                    Ok(v) => v,
                    Err(e) => {
                        proof {
                            lemma_stuck(code, log, pres, pret, l@, predcp, nsteps, e);
                        }
                        return Err(e);
                    },
                };
                let t = tos;
                tos = t.or(x);
                dcp = dcp + 1;
                proof {
                    lemma_step_scalar_op(code, pres, pret, l@, predcp, tos, Seq::<i64>::empty());
                    lemma_live_step(
                        code,
                        log,
                        Seq::<i64>::empty(),
                        pres,
                        pret,
                        l@,
                        predcp,
                        s@,
                        tos,
                        l@,
                        predcp + 1,
                        nsteps,
                    );
                    assert(log + Seq::<i64>::empty() =~= log);
                }
            },
        _ => {
            return unreached();
        },
    }
    Ok((tos, dcp))
}


/// One interpreter step for a drop or clamp opcode.
#[verifier::rlimit(100)]
fn step_vector_group(
    d: &SudiceExpression,
    s: &mut Vec<SudiceValue>,
    tos: SudiceValue,
    dcp: usize,
    l: &Vec<Accumulator>,
    Ghost(code): Ghost<Seq<SudiceCode>>,
    Ghost(log): Ghost<Seq<i64>>,
    Ghost(nsteps): Ghost<nat>,
) -> (res: Result<(SudiceValue, usize), InterpError>)
    requires
        code == d.code@,
        dcp < code.len(),
        is_vector_op(code[dcp as int]),
        value_wf(tos),
        forall|k: int| 0 <= k < old(s)@.len() ==> value_wf(#[trigger] old(s)@[k]),
        forall|future: Seq<i64>|
            steps_to(
                code,
                init_mstate(log + future),
                #[trigger] live_state(old(s)@, tos, l@, dcp as int, future),
                nsteps,
            ),
    ensures
        match res {
            Ok(p) => {
                &&& value_wf(p.0)
                &&& (forall|k: int| 0 <= k < final(s)@.len() ==> value_wf(#[trigger] final(s)@[k]))
                &&& (forall|future: Seq<i64>|
                    steps_to(
                        code,
                        init_mstate(log + future),
                        #[trigger] live_state(final(s)@, p.0, l@, p.1 as int, future),
                        nsteps + 1,
                    ))
            },
            Err(e) => e != InterpError::StepLimit && exists|samples: Seq<i64>, n: nat, st: MState|
                #[trigger] steps_to(code, init_mstate(samples), st, n) && stuck_with(code, st, e),
        },
{
    let mut tos = tos;
    let mut dcp = dcp;
    let ghost predcp = dcp as int;
    // the program length is addressable, so the pointer can advance
    let end = d.code.len();
    proof {
        assert(dcp < end);
    }
    match &d.code[dcp] {
            SudiceCode::DropLowest => {
                let ghost pres = s@;
                let ghost pret = tos;
                let x = match pop_value(s) {
                    Ok(v) => v,
                    Err(e) => {
                        proof {
                            lemma_stuck(code, log, pres, pret, l@, predcp, nsteps, e);
                        }
                        return Err(e);
                    },
                };
                if !tos.is_vector() {
                    proof {
                        lemma_stuck(code, log, pres, pret, l@, predcp, nsteps, InterpError::ShapeViolation);
                    }
                    return Err(InterpError::ShapeViolation);
                }
                let n = x.collapse();
                if n < 0 || (n as u64) >= (tos.dice_len() as u64) {
                    proof {
                        lemma_stuck(code, log, pres, pret, l@, predcp, nsteps, InterpError::BadCount);
                    }
                    return Err(InterpError::BadCount);
                }
                let t = tos;
                tos = t.drop_lowest(n);
                dcp = dcp + 1;
                proof {
                    lemma_step_shape_op(code, pres, pret, l@, predcp, tos, Seq::<i64>::empty());
                    lemma_live_step(
                        code,
                        log,
                        Seq::<i64>::empty(),
                        pres,
                        pret,
                        l@,
                        predcp,
                        s@,
                        tos,
                        l@,
                        predcp + 1,
                        nsteps,
                    );
                    assert(log + Seq::<i64>::empty() =~= log);
                }
            },
            SudiceCode::DropHighest => {
                let ghost pres = s@;
                let ghost pret = tos;
                let x = match pop_value(s) {
                    Ok(v) => v,
                    Err(e) => {
                        proof {
                            lemma_stuck(code, log, pres, pret, l@, predcp, nsteps, e);
                        }
                        return Err(e);
                    },
                };
                if !tos.is_vector() {
                    proof {
                        lemma_stuck(code, log, pres, pret, l@, predcp, nsteps, InterpError::ShapeViolation);
                    }
                    return Err(InterpError::ShapeViolation);
                }
                let n = x.collapse();
                if n < 0 || (n as u64) >= (tos.dice_len() as u64) {
                    proof {
                        lemma_stuck(code, log, pres, pret, l@, predcp, nsteps, InterpError::BadCount);
                    }
                    return Err(InterpError::BadCount);
                }
                let t = tos;
                tos = t.drop_highest(n);
                dcp = dcp + 1;
                proof {
                    lemma_step_shape_op(code, pres, pret, l@, predcp, tos, Seq::<i64>::empty());
                    lemma_live_step(
                        code,
                        log,
                        Seq::<i64>::empty(),
                        pres,
                        pret,
                        l@,
                        predcp,
                        s@,
                        tos,
                        l@,
                        predcp + 1,
                        nsteps,
                    );
                    assert(log + Seq::<i64>::empty() =~= log);
                }
            },
            SudiceCode::Ceil => {
                let ghost pres = s@;
                let ghost pret = tos;
                let x = match pop_value(s) {
                    Ok(v) => v,
                    Err(e) => {
                        proof {
                            lemma_stuck(code, log, pres, pret, l@, predcp, nsteps, e);
                        }
                        return Err(e);
                    },
                };
                let t = tos;
                tos = t.ceil(x);
                dcp = dcp + 1;
                proof {
                    lemma_step_shape_op(code, pres, pret, l@, predcp, tos, Seq::<i64>::empty());
                    lemma_live_step(
                        code,
                        log,
                        Seq::<i64>::empty(),
                        pres,
                        pret,
                        l@,
                        predcp,
                        s@,
                        tos,
                        l@,
                        predcp + 1,
                        nsteps,
                    );
                    assert(log + Seq::<i64>::empty() =~= log);
                }
            },
            SudiceCode::Floor => {
                let ghost pres = s@;
                let ghost pret = tos;
                let x = match pop_value(s) {
                    Ok(v) => v,
                    Err(e) => {
                        proof {
                            lemma_stuck(code, log, pres, pret, l@, predcp, nsteps, e);
                        }
                        return Err(e);
                    },
                };
                let t = tos;
                tos = t.floor(x);
                dcp = dcp + 1;
                proof {
                    lemma_step_shape_op(code, pres, pret, l@, predcp, tos, Seq::<i64>::empty());
                    lemma_live_step(
                        code,
                        log,
                        Seq::<i64>::empty(),
                        pres,
                        pret,
                        l@,
                        predcp,
                        s@,
                        tos,
                        l@,
                        predcp + 1,
                        nsteps,
                    );
                    assert(log + Seq::<i64>::empty() =~= log);
                }
            },
        _ => {
            return unreached();
        },
    }
    Ok((tos, dcp))
}

/// One interpreter step for an opcode that draws fresh dice; the\n/// returned ghost log extends the given one by the draws taken.
#[verifier::rlimit(100)]
fn step_dice_group(
    d: &SudiceExpression,
    s: &mut Vec<SudiceValue>,
    tos: SudiceValue,
    dcp: usize,
    l: &Vec<Accumulator>,
    r: &mut rand::rngs::ThreadRng,
    Ghost(code): Ghost<Seq<SudiceCode>>,
    Ghost(log): Ghost<Seq<i64>>,
    Ghost(nsteps): Ghost<nat>,
) -> (res: Result<(SudiceValue, usize, Ghost<Seq<i64>>), InterpError>)
    requires
        code == d.code@,
        dcp < code.len(),
        is_dice_op(code[dcp as int]),
        value_wf(tos),
        forall|k: int| 0 <= k < old(s)@.len() ==> value_wf(#[trigger] old(s)@[k]),
        forall|future: Seq<i64>|
            steps_to(
                code,
                init_mstate(log + future),
                #[trigger] live_state(old(s)@, tos, l@, dcp as int, future),
                nsteps,
            ),
    ensures
        match res {
            Ok(p) => {
                &&& value_wf(p.0)
                &&& (forall|k: int| 0 <= k < final(s)@.len() ==> value_wf(#[trigger] final(s)@[k]))
                &&& (forall|future: Seq<i64>|
                    steps_to(
                        code,
                        init_mstate(p.2@ + future),
                        #[trigger] live_state(final(s)@, p.0, l@, p.1 as int, future),
                        nsteps + 1,
                    ))
            },
            Err(e) => e != InterpError::StepLimit && exists|samples: Seq<i64>, n: nat, st: MState|
                #[trigger] steps_to(code, init_mstate(samples), st, n) && stuck_with(code, st, e),
        },
{
    let mut tos = tos;
    let mut dcp = dcp;
    let ghost mut log = log;
    let ghost predcp = dcp as int;
    // the program length is addressable, so the pointer can advance
    let end = d.code.len();
    proof {
        assert(dcp < end);
    }
    match &d.code[dcp] {
            SudiceCode::Roll => {
                // The top of the stack is the face count, the popped
                // operand the die count.
                let ghost pres = s@;
                let ghost pret = tos;
                let x = match pop_value(s) {
                    Ok(v) => v,
                    Err(e) => {
                        proof {
                            lemma_stuck(code, log, pres, pret, l@, predcp, nsteps, e);
                        }
                        return Err(e);
                    },
                };
                let t = tos;
                let n = x.collapse();
                let face = t.collapse();
                if n < 1 || face < 1 {
                    proof {
                        lemma_stuck(code, log, pres, pret, l@, predcp, nsteps, InterpError::BadRoll);
                    }
                    return Err(InterpError::BadRoll);
                }
                tos = SudiceValue::roll(n, face, r);
                dcp = dcp + 1;
                proof {
                    let prefix = tos->Vector_1@;
                    lemma_step_roll(code, pres, pret, l@, predcp, tos);
                    lemma_live_step(
                        code,
                        log,
                        prefix,
                        pres,
                        pret,
                        l@,
                        predcp,
                        s@,
                        tos,
                        l@,
                        predcp + 1,
                        nsteps,
                    );
                    log = log + prefix;
                }
            },
            SudiceCode::Reroll => {
                let ghost pres = s@;
                let ghost pret = tos;
                let x = match pop_value(s) {
                    Ok(v) => v,
                    Err(e) => {
                        proof {
                            lemma_stuck(code, log, pres, pret, l@, predcp, nsteps, e);
                        }
                        return Err(e);
                    },
                };
                if !tos.is_vector() {
                    proof {
                        lemma_stuck(code, log, pres, pret, l@, predcp, nsteps, InterpError::ShapeViolation);
                    }
                    return Err(InterpError::ShapeViolation);
                }
                let t = tos;
                tos = t.reroll(x, r);
                dcp = dcp + 1;
                proof {
                    let n = spec_collapse(pres.last());
                    let mid = choose|mid: Seq<i64>|
                        {
                            &&& #[trigger] mid.to_multiset() == tos->Vector_1@.to_multiset()
                            &&& mid.len() == pret->Vector_1@.len()
                            &&& (forall|k: int|
                                #![trigger mid[k]]
                                0 <= k < mid.len() ==> (if pret->Vector_1@[k] == n {
                                    1 <= mid[k] <= pret->Vector_0
                                } else {
                                    mid[k] == pret->Vector_1@[k]
                                }))
                        };
                    lemma_extract_replace(pret->Vector_1@, mid, n, pret->Vector_0);
                    let prefix = extract_matching(pret->Vector_1@, mid, n);
                    lemma_step_reroll(code, pres, pret, l@, predcp, tos, prefix);
                    lemma_live_step(
                        code,
                        log,
                        prefix,
                        pres,
                        pret,
                        l@,
                        predcp,
                        s@,
                        tos,
                        l@,
                        predcp + 1,
                        nsteps,
                    );
                    log = log + prefix;
                }
            },
            SudiceCode::RerollLowest => {
                let ghost pres = s@;
                let ghost pret = tos;
                let x = match pop_value(s) {
                    Ok(v) => v,
                    Err(e) => {
                        proof {
                            lemma_stuck(code, log, pres, pret, l@, predcp, nsteps, e);
                        }
                        return Err(e);
                    },
                };
                if !tos.is_vector() {
                    proof {
                        lemma_stuck(code, log, pres, pret, l@, predcp, nsteps, InterpError::ShapeViolation);
                    }
                    return Err(InterpError::ShapeViolation);
                }
                let n = x.collapse();
                if n < 0 || (n as u64) > (tos.dice_len() as u64) {
                    proof {
                        lemma_stuck(code, log, pres, pret, l@, predcp, nsteps, InterpError::BadCount);
                    }
                    return Err(InterpError::BadCount);
                }
                let t = tos;
                tos = t.reroll_lowest(n, r);
                dcp = dcp + 1;
                proof {
                    let prefix = choose|fresh: Seq<i64>|
                        {
                            &&& #[trigger] fresh.len() == spec_collapse(pres.last())
                            &&& (forall|k: int|
                                0 <= k < fresh.len() ==> 1 <= #[trigger] fresh[k] <= pret->Vector_0)
                            &&& tos->Vector_1@.to_multiset() == (fresh + pret->Vector_1@.skip(
                                spec_collapse(pres.last()) as int,
                            )).to_multiset()
                        };
                    lemma_step_reroll(code, pres, pret, l@, predcp, tos, prefix);
                    lemma_live_step(
                        code,
                        log,
                        prefix,
                        pres,
                        pret,
                        l@,
                        predcp,
                        s@,
                        tos,
                        l@,
                        predcp + 1,
                        nsteps,
                    );
                    log = log + prefix;
                }
            },
            SudiceCode::RerollHighest => {
                let ghost pres = s@;
                let ghost pret = tos;
                let x = match pop_value(s) {
                    Ok(v) => v,
                    Err(e) => {
                        proof {
                            lemma_stuck(code, log, pres, pret, l@, predcp, nsteps, e);
                        }
                        return Err(e);
                    },
                };
                if !tos.is_vector() {
                    proof {
                        lemma_stuck(code, log, pres, pret, l@, predcp, nsteps, InterpError::ShapeViolation);
                    }
                    return Err(InterpError::ShapeViolation);
                }
                let n = x.collapse();
                if n < 0 || (n as u64) > (tos.dice_len() as u64) {
                    proof {
                        lemma_stuck(code, log, pres, pret, l@, predcp, nsteps, InterpError::BadCount);
                    }
                    return Err(InterpError::BadCount);
                }
                let t = tos;
                tos = t.reroll_highest(n, r);
                dcp = dcp + 1;
                proof {
                    let prefix = choose|fresh: Seq<i64>|
                        {
                            &&& #[trigger] fresh.len() == spec_collapse(pres.last())
                            &&& (forall|k: int|
                                0 <= k < fresh.len() ==> 1 <= #[trigger] fresh[k] <= pret->Vector_0)
                            &&& tos->Vector_1@.to_multiset() == (pret->Vector_1@.take(
                                pret->Vector_1@.len() - spec_collapse(pres.last()),
                            ) + fresh).to_multiset()
                        };
                    lemma_step_reroll(code, pres, pret, l@, predcp, tos, prefix);
                    lemma_live_step(
                        code,
                        log,
                        prefix,
                        pres,
                        pret,
                        l@,
                        predcp,
                        s@,
                        tos,
                        l@,
                        predcp + 1,
                        nsteps,
                    );
                    log = log + prefix;
                }
            },
        _ => {
            return unreached();
        },
    }
    Ok((tos, dcp, Ghost(log)))
}

/// One interpreter step for `BestOf` / `WorstOf`.
#[verifier::rlimit(100)]
fn step_iter_group(
    d: &SudiceExpression,
    s: &mut Vec<SudiceValue>,
    tos: SudiceValue,
    dcp: usize,
    l: &mut Vec<Accumulator>,
    Ghost(code): Ghost<Seq<SudiceCode>>,
    Ghost(log): Ghost<Seq<i64>>,
    Ghost(nsteps): Ghost<nat>,
) -> (res: Result<(SudiceValue, usize), InterpError>)
    requires
        code == d.code@,
        dcp < code.len(),
        is_iter_op(code[dcp as int]),
        value_wf(tos),
        forall|k: int| 0 <= k < old(s)@.len() ==> value_wf(#[trigger] old(s)@[k]),
        forall|future: Seq<i64>|
            steps_to(
                code,
                init_mstate(log + future),
                #[trigger] live_state(old(s)@, tos, old(l)@, dcp as int, future),
                nsteps,
            ),
    ensures
        match res {
            Ok(p) => {
                &&& value_wf(p.0)
                &&& (forall|k: int| 0 <= k < final(s)@.len() ==> value_wf(#[trigger] final(s)@[k]))
                &&& (forall|future: Seq<i64>|
                    steps_to(
                        code,
                        init_mstate(log + future),
                        #[trigger] live_state(final(s)@, p.0, final(l)@, p.1 as int, future),
                        nsteps + 1,
                    ))
            },
            Err(e) => e != InterpError::StepLimit && exists|samples: Seq<i64>, n: nat, st: MState|
                #[trigger] steps_to(code, init_mstate(samples), st, n) && stuck_with(code, st, e),
        },
{
    let mut tos = tos;
    let mut dcp = dcp;
    let ghost predcp = dcp as int;
    // the program length is addressable, so the pointer can advance
    let end = d.code.len();
    proof {
        assert(dcp < end);
    }
    match &d.code[dcp] {
            SudiceCode::BestOf(offset) => {
                let off = *offset;
                let ghost pres = s@;
                let ghost pret = tos;
                let ghost prel = l@;
                if l.len() > 0 && l[l.len() - 1].ptr == dcp {
                    let li = l.len() - 1;
                    let a = l[li];
                    if a.count <= 0 {
                        let _ = l.pop();
                        tos = SudiceValue::Scalar(a.value);
                        dcp = dcp + 1;
                        proof {
                            lemma_step_iter(
                                code,
                                pres,
                                pret,
                                prel,
                                predcp,
                                off,
                                true,
                                tos,
                                s@,
                                l@,
                                predcp + 1,
                                Seq::<i64>::empty(),
                            );
                            lemma_live_step(
                                code,
                                log,
                                Seq::<i64>::empty(),
                                pres,
                                pret,
                                prel,
                                predcp,
                                s@,
                                tos,
                                l@,
                                predcp + 1,
                                nsteps,
                            );
                            assert(log + Seq::<i64>::empty() =~= log);
                        }
                    } else {
                        let t = tos;
                        let sample = t.collapse();
                        let best = if a.value >= sample {
                            a.value
                        } else {
                            sample
                        };
                        l[li] = Accumulator::new(a.ptr, a.count - 1, best);
                        let x = match pop_value(s) {
                            Ok(v) => v,
                            Err(e) => {
                                proof {
                                    lemma_stuck(code, log, pres, pret, prel, predcp, nsteps, e);
                                }
                                return Err(e);
                            },
                        };
                        tos = x;
                        if off >= dcp {
                            proof {
                                lemma_stuck(
                                    code,
                                    log,
                                    pres,
                                    pret,
                                    prel,
                                    predcp,
                                    nsteps,
                                    InterpError::BadJump,
                                );
                            }
                            return Err(InterpError::BadJump);
                        }
                        dcp = dcp - off;
                        proof {
                            lemma_step_iter(
                                code,
                                pres,
                                pret,
                                prel,
                                predcp,
                                off,
                                true,
                                tos,
                                s@,
                                l@,
                                predcp - off,
                                Seq::<i64>::empty(),
                            );
                            lemma_live_step(
                                code,
                                log,
                                Seq::<i64>::empty(),
                                pres,
                                pret,
                                prel,
                                predcp,
                                s@,
                                tos,
                                l@,
                                predcp - off,
                                nsteps,
                            );
                            assert(log + Seq::<i64>::empty() =~= log);
                        }
                    }
                } else {
                    let xv = match pop_value(s) {
                        Ok(v) => v,
                        Err(e) => {
                            proof {
                                lemma_stuck(code, log, pres, pret, prel, predcp, nsteps, e);
                            }
                            return Err(e);
                        },
                    };
                    let x = xv.collapse();
                    if x > 1 {
                        let t = tos;
                        l.push(Accumulator::new(dcp, x - 1, t.collapse()));
                        let x2 = match pop_value(s) {
                            Ok(v) => v,
                            Err(e) => {
                                proof {
                                    lemma_stuck(code, log, pres, pret, prel, predcp, nsteps, e);
                                }
                                return Err(e);
                            },
                        };
                        tos = x2;
                        if off >= dcp {
                            proof {
                                lemma_stuck(
                                    code,
                                    log,
                                    pres,
                                    pret,
                                    prel,
                                    predcp,
                                    nsteps,
                                    InterpError::BadJump,
                                );
                            }
                            return Err(InterpError::BadJump);
                        }
                        dcp = dcp - off;
                        proof {
                            lemma_step_iter(
                                code,
                                pres,
                                pret,
                                prel,
                                predcp,
                                off,
                                true,
                                tos,
                                s@,
                                l@,
                                predcp - off,
                                Seq::<i64>::empty(),
                            );
                            lemma_live_step(
                                code,
                                log,
                                Seq::<i64>::empty(),
                                pres,
                                pret,
                                prel,
                                predcp,
                                s@,
                                tos,
                                l@,
                                predcp - off,
                                nsteps,
                            );
                            assert(log + Seq::<i64>::empty() =~= log);
                        }
                    } else {
                        dcp = dcp + 1;
                        proof {
                            lemma_step_iter(
                                code,
                                pres,
                                pret,
                                prel,
                                predcp,
                                off,
                                true,
                                tos,
                                s@,
                                l@,
                                predcp + 1,
                                Seq::<i64>::empty(),
                            );
                            lemma_live_step(
                                code,
                                log,
                                Seq::<i64>::empty(),
                                pres,
                                pret,
                                prel,
                                predcp,
                                s@,
                                tos,
                                l@,
                                predcp + 1,
                                nsteps,
                            );
                            assert(log + Seq::<i64>::empty() =~= log);
                        }
                    }
                }
            },
            SudiceCode::WorstOf(offset) => {
                let off = *offset;
                let ghost pres = s@;
                let ghost pret = tos;
                let ghost prel = l@;
                if l.len() > 0 && l[l.len() - 1].ptr == dcp {
                    let li = l.len() - 1;
                    let a = l[li];
                    if a.count <= 0 {
                        let _ = l.pop();
                        tos = SudiceValue::Scalar(a.value);
                        dcp = dcp + 1;
                        proof {
                            lemma_step_iter(
                                code,
                                pres,
                                pret,
                                prel,
                                predcp,
                                off,
                                false,
                                tos,
                                s@,
                                l@,
                                predcp + 1,
                                Seq::<i64>::empty(),
                            );
                            lemma_live_step(
                                code,
                                log,
                                Seq::<i64>::empty(),
                                pres,
                                pret,
                                prel,
                                predcp,
                                s@,
                                tos,
                                l@,
                                predcp + 1,
                                nsteps,
                            );
                            assert(log + Seq::<i64>::empty() =~= log);
                        }
                    } else {
                        let t = tos;
                        let sample = t.collapse();
                        let worst = if a.value <= sample {
                            a.value
                        } else {
                            sample
                        };
                        l[li] = Accumulator::new(a.ptr, a.count - 1, worst);
                        let x = match pop_value(s) {
                            Ok(v) => v,
                            Err(e) => {
                                proof {
                                    lemma_stuck(code, log, pres, pret, prel, predcp, nsteps, e);
                                }
                                return Err(e);
                            },
                        };
                        tos = x;
                        if off >= dcp {
                            proof {
                                lemma_stuck(
                                    code,
                                    log,
                                    pres,
                                    pret,
                                    prel,
                                    predcp,
                                    nsteps,
                                    InterpError::BadJump,
                                );
                            }
                            return Err(InterpError::BadJump);
                        }
                        dcp = dcp - off;
                        proof {
                            lemma_step_iter(
                                code,
                                pres,
                                pret,
                                prel,
                                predcp,
                                off,
                                false,
                                tos,
                                s@,
                                l@,
                                predcp - off,
                                Seq::<i64>::empty(),
                            );
                            lemma_live_step(
                                code,
                                log,
                                Seq::<i64>::empty(),
                                pres,
                                pret,
                                prel,
                                predcp,
                                s@,
                                tos,
                                l@,
                                predcp - off,
                                nsteps,
                            );
                            assert(log + Seq::<i64>::empty() =~= log);
                        }
                    }
                } else {
                    let xv = match pop_value(s) {
                        Ok(v) => v,
                        Err(e) => {
                            proof {
                                lemma_stuck(code, log, pres, pret, prel, predcp, nsteps, e);
                            }
                            return Err(e);
                        },
                    };
                    let x = xv.collapse();
                    if x > 1 {
                        let t = tos;
                        l.push(Accumulator::new(dcp, x - 1, t.collapse()));
                        let x2 = match pop_value(s) {
                            Ok(v) => v,
                            Err(e) => {
                                proof {
                                    lemma_stuck(code, log, pres, pret, prel, predcp, nsteps, e);
                                }
                                return Err(e);
                            },
                        };
                        tos = x2;
                        if off >= dcp {
                            proof {
                                lemma_stuck(
                                    code,
                                    log,
                                    pres,
                                    pret,
                                    prel,
                                    predcp,
                                    nsteps,
                                    InterpError::BadJump,
                                );
                            }
                            return Err(InterpError::BadJump);
                        }
                        dcp = dcp - off;
                        proof {
                            lemma_step_iter(
                                code,
                                pres,
                                pret,
                                prel,
                                predcp,
                                off,
                                false,
                                tos,
                                s@,
                                l@,
                                predcp - off,
                                Seq::<i64>::empty(),
                            );
                            lemma_live_step(
                                code,
                                log,
                                Seq::<i64>::empty(),
                                pres,
                                pret,
                                prel,
                                predcp,
                                s@,
                                tos,
                                l@,
                                predcp - off,
                                nsteps,
                            );
                            assert(log + Seq::<i64>::empty() =~= log);
                        }
                    } else {
                        dcp = dcp + 1;
                        proof {
                            lemma_step_iter(
                                code,
                                pres,
                                pret,
                                prel,
                                predcp,
                                off,
                                false,
                                tos,
                                s@,
                                l@,
                                predcp + 1,
                                Seq::<i64>::empty(),
                            );
                            lemma_live_step(
                                code,
                                log,
                                Seq::<i64>::empty(),
                                pres,
                                pret,
                                prel,
                                predcp,
                                s@,
                                tos,
                                l@,
                                predcp + 1,
                                nsteps,
                            );
                            assert(log + Seq::<i64>::empty() =~= log);
                        }
                    }
                }
            },
        _ => {
            return unreached();
        },
    }
    Ok((tos, dcp))
}

/// One interpreter step for `Select` or `Jump`.
#[verifier::rlimit(100)]
fn step_jump_group(
    d: &SudiceExpression,
    s: &mut Vec<SudiceValue>,
    tos: SudiceValue,
    dcp: usize,
    l: &mut Vec<Accumulator>,
    Ghost(code): Ghost<Seq<SudiceCode>>,
    Ghost(log): Ghost<Seq<i64>>,
    Ghost(nsteps): Ghost<nat>,
) -> (res: Result<(SudiceValue, usize), InterpError>)
    requires
        code == d.code@,
        dcp < code.len(),
        is_jump_op(code[dcp as int]),
        value_wf(tos),
        forall|k: int| 0 <= k < old(s)@.len() ==> value_wf(#[trigger] old(s)@[k]),
        forall|future: Seq<i64>|
            steps_to(
                code,
                init_mstate(log + future),
                #[trigger] live_state(old(s)@, tos, old(l)@, dcp as int, future),
                nsteps,
            ),
    ensures
        match res {
            Ok(p) => {
                &&& value_wf(p.0)
                &&& (forall|k: int| 0 <= k < final(s)@.len() ==> value_wf(#[trigger] final(s)@[k]))
                &&& (forall|future: Seq<i64>|
                    steps_to(
                        code,
                        init_mstate(log + future),
                        #[trigger] live_state(final(s)@, p.0, final(l)@, p.1 as int, future),
                        nsteps + 1,
                    ))
            },
            Err(e) => e != InterpError::StepLimit && exists|samples: Seq<i64>, n: nat, st: MState|
                #[trigger] steps_to(code, init_mstate(samples), st, n) && stuck_with(code, st, e),
        },
{
    let mut tos = tos;
    let mut dcp = dcp;
    let ghost predcp = dcp as int;
    // the program length is addressable, so the pointer can advance
    let end = d.code.len();
    proof {
        assert(dcp < end);
    }
    match &d.code[dcp] {
            SudiceCode::Select(offsets) => {
                let ghost pres = s@;
                let ghost pret = tos;
                let ghost prel = l@;
                let t = tos;
                let c = t.collapse();
                if c >= 2 && offsets.len() >= 1 && ((c - 2) as u64) < ((offsets.len() - 1) as u64) {
                    let idx = (c - 2) as usize;
                    let jump = offsets[idx];
                    if jump > usize::MAX - dcp - 1 {
                        proof {
                            lemma_stuck(
                                code,
                                log,
                                pres,
                                pret,
                                prel,
                                predcp,
                                nsteps,
                                InterpError::BadJump,
                            );
                        }
                        return Err(InterpError::BadJump);
                    }
                    dcp = dcp + jump + 1;
                    let x = match pop_value(s) {
                        Ok(v) => v,
                        Err(e) => {
                            proof {
                                lemma_stuck(code, log, pres, pret, prel, predcp, nsteps, e);
                            }
                            return Err(e);
                        },
                    };
                    tos = x;
                    proof {
                        lemma_step_select(
                            code,
                            pres,
                            pret,
                            prel,
                            predcp,
                            *offsets,
                            tos,
                            s@,
                            predcp + jump + 1,
                            Seq::<i64>::empty(),
                        );
                        lemma_live_step(
                            code,
                            log,
                            Seq::<i64>::empty(),
                            pres,
                            pret,
                            prel,
                            predcp,
                            s@,
                            tos,
                            l@,
                            predcp + jump + 1,
                            nsteps,
                        );
                        assert(log + Seq::<i64>::empty() =~= log);
                    }
                } else if c == 1 {
                    let x = match pop_value(s) {
                        Ok(v) => v,
                        Err(e) => {
                            proof {
                                lemma_stuck(code, log, pres, pret, prel, predcp, nsteps, e);
                            }
                            return Err(e);
                        },
                    };
                    tos = x;
                    dcp = dcp + 1;
                    proof {
                        lemma_step_select(
                            code,
                            pres,
                            pret,
                            prel,
                            predcp,
                            *offsets,
                            tos,
                            s@,
                            predcp + 1,
                            Seq::<i64>::empty(),
                        );
                        lemma_live_step(
                            code,
                            log,
                            Seq::<i64>::empty(),
                            pres,
                            pret,
                            prel,
                            predcp,
                            s@,
                            tos,
                            l@,
                            predcp + 1,
                            nsteps,
                        );
                        assert(log + Seq::<i64>::empty() =~= log);
                    }
                } else {
                    if offsets.len() == 0 {
                        proof {
                            lemma_stuck(
                                code,
                                log,
                                pres,
                                pret,
                                prel,
                                predcp,
                                nsteps,
                                InterpError::BadJump,
                            );
                        }
                        return Err(InterpError::BadJump);
                    }
                    let jump = offsets[offsets.len() - 1];
                    if jump > usize::MAX - dcp - 1 {
                        proof {
                            lemma_stuck(
                                code,
                                log,
                                pres,
                                pret,
                                prel,
                                predcp,
                                nsteps,
                                InterpError::BadJump,
                            );
                        }
                        return Err(InterpError::BadJump);
                    }
                    dcp = dcp + jump + 1;
                    tos = SudiceValue::Scalar(c);
                    proof {
                        lemma_step_select(
                            code,
                            pres,
                            pret,
                            prel,
                            predcp,
                            *offsets,
                            tos,
                            s@,
                            predcp + jump + 1,
                            Seq::<i64>::empty(),
                        );
                        lemma_live_step(
                            code,
                            log,
                            Seq::<i64>::empty(),
                            pres,
                            pret,
                            prel,
                            predcp,
                            s@,
                            tos,
                            l@,
                            predcp + jump + 1,
                            nsteps,
                        );
                        assert(log + Seq::<i64>::empty() =~= log);
                    }
                }
            },
            SudiceCode::Jump(offset) => {
                let ghost pres = s@;
                let ghost pret = tos;
                let ghost prel = l@;
                let off = *offset;
                if off > usize::MAX - dcp - 1 {
                    proof {
                        lemma_stuck(code, log, pres, pret, prel, predcp, nsteps, InterpError::BadJump);
                    }
                    return Err(InterpError::BadJump);
                }
                dcp = dcp + off + 1;
                proof {
                    lemma_step_jump(code, pres, pret, prel, predcp, off, Seq::<i64>::empty());
                    lemma_live_step(
                        code,
                        log,
                        Seq::<i64>::empty(),
                        pres,
                        pret,
                        prel,
                        predcp,
                        s@,
                        tos,
                        l@,
                        predcp + off + 1,
                        nsteps,
                    );
                    assert(log + Seq::<i64>::empty() =~= log);
                }
            },
        _ => {
            return unreached();
        },
    }
    Ok((tos, dcp))
}


/// Execute the program and draw one sample: a single value stack with a
/// top-of-stack register, plus an accumulator stack that turns the
/// iteration opcodes into in-place loops by rewinding the instruction
/// pointer.
///
/// Every successful result is one the reference machine `istep`
/// produces, with its die groups sorted throughout, from some stream of
/// in-range die draws; every reported fault but the step budget occurs,
/// as `stuck_with` describes it, at a state the machine reaches; and the
/// step budget is reported only after a run of `u64::MAX` machine steps.
/// A program none of whose reachable states faults or runs that long
/// therefore returns `Ok`.
pub fn interpret(d: &SudiceExpression, r: &mut rand::rngs::ThreadRng) -> (res: Result<
    i64,
    InterpError,
>)
    ensures
        (res matches Ok(x) ==> exists|samples: Seq<i64>, n: nat, fin: MState|
            {
                &&& #[trigger] steps_to(d.code@, init_mstate(samples), fin, n)
                &&& fin.dcp >= d.code@.len()
                &&& fin.samples.len() == 0
                &&& collapse_m(fin.tos) == x
                &&& mstate_sorted(fin)
            }),
        (res matches Err(e) ==> (if e == InterpError::StepLimit {
            exists|samples: Seq<i64>, st: MState|
                #[trigger] steps_to(d.code@, init_mstate(samples), st, u64::MAX as nat)
        } else {
            exists|samples: Seq<i64>, n: nat, st: MState|
                #[trigger] steps_to(d.code@, init_mstate(samples), st, n) && stuck_with(
                    d.code@,
                    st,
                    e,
                )
        })),
{
    let ghost code = d.code@;
    let mut l: Vec<Accumulator> = Vec::new();
    let mut s: Vec<SudiceValue> = Vec::new();
    let mut tos = SudiceValue::Scalar(0);
    let mut dcp: usize = 0;
    let mut fuel: u64 = u64::MAX;
    let ghost mut log: Seq<i64> = Seq::empty();
    proof {
        let fm = |v: SudiceValue| model(v);
        assert forall|future: Seq<i64>|
            steps_to(
                code,
                init_mstate(log + future),
                #[trigger] live_state(s@, tos, l@, dcp as int, future),
                (u64::MAX - fuel) as nat,
            ) by {
            assert(log + future =~= future);
            assert(s@.map_values(fm) =~= Seq::<VModel>::empty());
            assert(live_state(s@, tos, l@, dcp as int, future) =~= init_mstate(log + future));
        };
    }
    while dcp < d.code.len()
        invariant
            d.code@ == code,
            value_wf(tos),
            forall|k: int| 0 <= k < s@.len() ==> value_wf(#[trigger] s@[k]),
            forall|future: Seq<i64>|
                steps_to(
                    code,
                    init_mstate(log + future),
                    #[trigger] live_state(s@, tos, l@, dcp as int, future),
                    (u64::MAX - fuel) as nat,
                ),
        decreases fuel,
    {
        if fuel == 0 {
            proof {
                assert(steps_to(
                    code,
                    init_mstate(log + Seq::<i64>::empty()),
                    live_state(s@, tos, l@, dcp as int, Seq::<i64>::empty()),
                    (u64::MAX - fuel) as nat,
                ));
            }
            return Err(InterpError::StepLimit);
        }
        let ghost nsteps = (u64::MAX - fuel) as nat;
        fuel = fuel - 1;
        match &d.code[dcp] {
            SudiceCode::Roll | SudiceCode::Reroll | SudiceCode::RerollLowest
                | SudiceCode::RerollHighest => {
                match step_dice_group(
                    d,
                    &mut s,
                    tos,
                    dcp,
                    &l,
                    r,
                    Ghost(code),
                    Ghost(log),
                    Ghost(nsteps),
                ) {
                    Ok(p) => {
                        tos = p.0;
                        dcp = p.1;
                        proof {
                            log = p.2@;
                        }
                    },
                    Err(e) => {
                        return Err(e);
                    },
                }
            },
            SudiceCode::BestOf(_) | SudiceCode::WorstOf(_) => {
                match step_iter_group(
                    d,
                    &mut s,
                    tos,
                    dcp,
                    &mut l,
                    Ghost(code),
                    Ghost(log),
                    Ghost(nsteps),
                ) {
                    Ok(p) => {
                        tos = p.0;
                        dcp = p.1;
                    },
                    Err(e) => {
                        return Err(e);
                    },
                }
            },
            SudiceCode::Select(_) | SudiceCode::Jump(_) => {
                match step_jump_group(
                    d,
                    &mut s,
                    tos,
                    dcp,
                    &mut l,
                    Ghost(code),
                    Ghost(log),
                    Ghost(nsteps),
                ) {
                    Ok(p) => {
                        tos = p.0;
                        dcp = p.1;
                    },
                    Err(e) => {
                        return Err(e);
                    },
                }
            },
            SudiceCode::DropLowest | SudiceCode::DropHighest | SudiceCode::Ceil
                | SudiceCode::Floor => {
                match step_vector_group(
                    d,
                    &mut s,
                    tos,
                    dcp,
                    &l,
                    Ghost(code),
                    Ghost(log),
                    Ghost(nsteps),
                ) {
                    Ok(p) => {
                        tos = p.0;
                        dcp = p.1;
                    },
                    Err(e) => {
                        return Err(e);
                    },
                }
            },
            SudiceCode::Lt | SudiceCode::Gt | SudiceCode::Eq | SudiceCode::Ne | SudiceCode::And
                | SudiceCode::Or => {
                match step_bool_group(
                    d,
                    &mut s,
                    tos,
                    dcp,
                    &l,
                    Ghost(code),
                    Ghost(log),
                    Ghost(nsteps),
                ) {
                    Ok(p) => {
                        tos = p.0;
                        dcp = p.1;
                    },
                    Err(e) => {
                        return Err(e);
                    },
                }
            },
            _ => {
                match step_arith_group(
                    d,
                    &mut s,
                    tos,
                    dcp,
                    &l,
                    Ghost(code),
                    Ghost(log),
                    Ghost(nsteps),
                ) {
                    Ok(p) => {
                        tos = p.0;
                        dcp = p.1;
                    },
                    Err(e) => {
                        return Err(e);
                    },
                }
            },
        }
        proof {
            assert((u64::MAX - fuel) as nat == nsteps + 1);
        }
    }
    proof {
        broadcast use lemma_collapse_model;

        assert(log + Seq::<i64>::empty() =~= log);
        assert(steps_to(
            code,
            init_mstate(log + Seq::<i64>::empty()),
            live_state(s@, tos, l@, dcp as int, Seq::<i64>::empty()),
            (u64::MAX - fuel) as nat,
        ));
        assert(steps_to(
            code,
            init_mstate(log),
            live_state(s@, tos, l@, dcp as int, Seq::<i64>::empty()),
            (u64::MAX - fuel) as nat,
        ));
        lemma_run_keeps_sorted(
            code,
            init_mstate(log),
            live_state(s@, tos, l@, dcp as int, Seq::<i64>::empty()),
            (u64::MAX - fuel) as nat,
        );
    }
    Ok(tos.collapse())
}

} // verus!
