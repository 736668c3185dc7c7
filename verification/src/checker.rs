//! The static checker: abstract re-execution of a program on twin stacks
//! that track the minimum and the maximum of every value, yielding a sound
//! `[min, max]` envelope or rejecting the program.

use vstd::prelude::*;
use vstd::wrapping::i64_specs;

use crate::descriptor::{SudiceCode, SudiceExpression};
use crate::interpreter::div_trunc;

verus! {

/// An abstract value: a known integer bound, or a die group of `length`
/// dice that each contribute `size` (1 on the minimum side, the face on
/// the maximum side).
#[derive(Debug, Clone, Copy, PartialEq, Eq, Structural)]
pub enum CheckerValue {
    Scalar(i64),
    Vector(i64, i64),
}

/// What an abstract value collapses to: `length * size` for a die group,
/// under the interpreter's wrapping multiplication.
pub open spec fn spec_ck_collapse(v: CheckerValue) -> i64 {
    match v {
        CheckerValue::Scalar(s) => s,
        CheckerValue::Vector(l, s) => i64_specs::wrapping_mul(l, s),
    }
}

impl CheckerValue {
    pub fn collapse(&self) -> (r: i64)
        ensures
            r == spec_ck_collapse(*self),
    {
        match self {
            CheckerValue::Scalar(s) => *s,
            CheckerValue::Vector(l, s) => l.wrapping_mul(*s),
        }
    }

    /// The encoding of a certainly-true predicate.
    pub fn true_value() -> (r: CheckerValue)
        ensures
            r == CheckerValue::Scalar(1i64),
    {
        CheckerValue::Scalar(1)
    }

    /// The encoding of a certainly-false predicate.
    pub fn false_value() -> (r: CheckerValue)
        ensures
            r == CheckerValue::Scalar(2i64),
    {
        CheckerValue::Scalar(2)
    }
}

/// Why the checker rejected a program.
#[derive(Debug, Clone, Copy, PartialEq, Eq, Structural)]
pub enum CheckError {
    /// A drop opcode reached a scalar top of stack: a user error.
    DropScalar,
    /// A drop count meets or exceeds the guaranteed die count: a user
    /// error (the drop could empty the vector at runtime).
    DropTooMany,
    /// The bounds of a division pass through zero, or hit the one
    /// overflowing quotient.
    DivisionError,
    /// Corrupt bytecode: a stack underflow, a stray `Jump`, a malformed
    /// select table, or a maximum-side violation that symmetry rules out
    /// for any frontend-produced program.
    CorruptIr,
}

/// The mathematical image of a checker state: both stacks with their
/// top-of-stack registers.
#[verifier::ext_equal]
pub ghost struct CState {
    pub min_s: Seq<CheckerValue>,
    pub min_tos: CheckerValue,
    pub max_s: Seq<CheckerValue>,
    pub max_tos: CheckerValue,
}

/// The twin-stack symmetry: equal depth, and a die group on one side
/// exactly where the other side holds one.
pub open spec fn cstate_wf(st: CState) -> bool {
    &&& st.min_s.len() == st.max_s.len()
    &&& (forall|k: int|
        0 <= k < st.min_s.len() ==> ((#[trigger] st.min_s[k]) is Vector <==> (
        #[trigger] st.max_s[k]) is Vector))
    &&& (st.min_tos is Vector <==> st.max_tos is Vector)
}

/// The state the checker starts from.
pub open spec fn init_cstate() -> CState {
    CState {
        min_s: Seq::empty(),
        min_tos: CheckerValue::Scalar(0i64),
        max_s: Seq::empty(),
        max_tos: CheckerValue::Scalar(0i64),
    }
}

/// Push a pair of bounds: the registers move onto the stacks.
pub open spec fn cstate_push(st: CState, min: CheckerValue, max: CheckerValue) -> CState {
    CState {
        min_s: st.min_s.push(st.min_tos),
        min_tos: min,
        max_s: st.max_s.push(st.max_tos),
        max_tos: max,
    }
}

/// Pop both sides back into the registers.
pub open spec fn cstate_pop(st: CState) -> CState {
    CState {
        min_s: st.min_s.drop_last(),
        min_tos: st.min_s.last(),
        max_s: st.max_s.drop_last(),
        max_tos: st.max_s.last(),
    }
}

/// Discard one stack entry on both sides, keeping the registers.
pub open spec fn cstate_nop(st: CState) -> CState {
    CState {
        min_s: st.min_s.drop_last(),
        min_tos: st.min_tos,
        max_s: st.max_s.drop_last(),
        max_tos: st.max_tos,
    }
}

/// Both stacks would underflow on the next pop.
pub open spec fn cstate_underflow(st: CState) -> bool {
    st.min_s.len() == 0 || st.max_s.len() == 0
}

pub open spec fn min64(a: i64, b: i64) -> i64 {
    if b < a {
        b
    } else {
        a
    }
}

pub open spec fn max64(a: i64, b: i64) -> i64 {
    if b > a {
        b
    } else {
        a
    }
}

/// One abstract step for every opcode that neither branches nor jumps.
/// The two jump-like opcodes (`Select`, `Jump`) are handled by
/// `spec_check` itself.
pub open spec fn spec_step(op: SudiceCode, st: CState) -> Result<CState, CheckError> {
    match op {
        SudiceCode::Num(i) => Result::Ok(
            cstate_push(st, CheckerValue::Scalar(i), CheckerValue::Scalar(i)),
        ),
        SudiceCode::Add => if cstate_underflow(st) {
            Result::Err(CheckError::CorruptIr)
        } else {
            Result::Ok(
                CState {
                    min_s: st.min_s.drop_last(),
                    min_tos: CheckerValue::Scalar(
                        i64_specs::wrapping_add(
                            spec_ck_collapse(st.min_tos),
                            spec_ck_collapse(st.min_s.last()),
                        ),
                    ),
                    max_s: st.max_s.drop_last(),
                    max_tos: CheckerValue::Scalar(
                        i64_specs::wrapping_add(
                            spec_ck_collapse(st.max_tos),
                            spec_ck_collapse(st.max_s.last()),
                        ),
                    ),
                },
            )
        },
        SudiceCode::Sub => if cstate_underflow(st) {
            Result::Err(CheckError::CorruptIr)
        } else {
            // to minimize a difference, subtract the maximum of the operand
            Result::Ok(
                CState {
                    min_s: st.min_s.drop_last(),
                    min_tos: CheckerValue::Scalar(
                        i64_specs::wrapping_sub(
                            spec_ck_collapse(st.min_tos),
                            spec_ck_collapse(st.max_s.last()),
                        ),
                    ),
                    max_s: st.max_s.drop_last(),
                    max_tos: CheckerValue::Scalar(
                        i64_specs::wrapping_sub(
                            spec_ck_collapse(st.max_tos),
                            spec_ck_collapse(st.min_s.last()),
                        ),
                    ),
                },
            )
        },
        SudiceCode::Mul => if cstate_underflow(st) {
            Result::Err(CheckError::CorruptIr)
        } else {
            Result::Ok(
                CState {
                    min_s: st.min_s.drop_last(),
                    min_tos: CheckerValue::Scalar(
                        i64_specs::wrapping_mul(
                            spec_ck_collapse(st.min_tos),
                            spec_ck_collapse(st.min_s.last()),
                        ),
                    ),
                    max_s: st.max_s.drop_last(),
                    max_tos: CheckerValue::Scalar(
                        i64_specs::wrapping_mul(
                            spec_ck_collapse(st.max_tos),
                            spec_ck_collapse(st.max_s.last()),
                        ),
                    ),
                },
            )
        },
        SudiceCode::Div => if cstate_underflow(st) {
            Result::Err(CheckError::CorruptIr)
        } else {
            let a1 = spec_ck_collapse(st.min_tos);
            let b1 = spec_ck_collapse(st.max_s.last());
            let a2 = spec_ck_collapse(st.max_tos);
            let b2 = spec_ck_collapse(st.min_s.last());
            if b1 == 0 || (a1 == i64::MIN && b1 == -1) {
                Result::Err(CheckError::DivisionError)
            } else if b2 == 0 || (a2 == i64::MIN && b2 == -1) {
                Result::Err(CheckError::DivisionError)
            } else {
                Result::Ok(
                    CState {
                        min_s: st.min_s.drop_last(),
                        min_tos: CheckerValue::Scalar(div_trunc(a1, b1) as i64),
                        max_s: st.max_s.drop_last(),
                        max_tos: CheckerValue::Scalar(div_trunc(a2, b2) as i64),
                    },
                )
            }
        },
        SudiceCode::Roll => if cstate_underflow(st) {
            Result::Err(CheckError::CorruptIr)
        } else {
            // the popped operand bounds the die count, the register the
            // face; every die shows 1 at the minimum
            Result::Ok(
                CState {
                    min_s: st.min_s.drop_last(),
                    min_tos: CheckerValue::Vector(spec_ck_collapse(st.min_s.last()), 1i64),
                    max_s: st.max_s.drop_last(),
                    max_tos: CheckerValue::Vector(
                        spec_ck_collapse(st.max_s.last()),
                        spec_ck_collapse(st.max_tos),
                    ),
                },
            )
        },
        SudiceCode::Reroll => if cstate_underflow(st) {
            Result::Err(CheckError::CorruptIr)
        } else {
            Result::Ok(cstate_nop(st))
        },
        SudiceCode::RerollLowest => if cstate_underflow(st) {
            Result::Err(CheckError::CorruptIr)
        } else {
            Result::Ok(cstate_nop(st))
        },
        SudiceCode::RerollHighest => if cstate_underflow(st) {
            Result::Err(CheckError::CorruptIr)
        } else {
            Result::Ok(cstate_nop(st))
        },
        SudiceCode::DropLowest => spec_step_drop(st),
        SudiceCode::DropHighest => spec_step_drop(st),
        SudiceCode::Ceil => spec_step_cap(st, true),
        SudiceCode::Floor => spec_step_cap(st, false),
        SudiceCode::BestOf(_) => if cstate_underflow(st) {
            Result::Err(CheckError::CorruptIr)
        } else {
            Result::Ok(cstate_nop(st))
        },
        SudiceCode::WorstOf(_) => if cstate_underflow(st) {
            Result::Err(CheckError::CorruptIr)
        } else {
            Result::Ok(cstate_nop(st))
        },
        SudiceCode::Lt => spec_step_cmp(st, CheckerValue::Scalar(1i64), CheckerValue::Scalar(2i64)),
        SudiceCode::Gt => spec_step_cmp(st, CheckerValue::Scalar(2i64), CheckerValue::Scalar(1i64)),
        SudiceCode::Eq => spec_step_cmp(st, CheckerValue::Scalar(2i64), CheckerValue::Scalar(2i64)),
        SudiceCode::Ne => spec_step_cmp(st, CheckerValue::Scalar(1i64), CheckerValue::Scalar(1i64)),
        SudiceCode::And => spec_step_logic(st, true),
        SudiceCode::Or => spec_step_logic(st, false),
        SudiceCode::Select(_) => Result::Err(CheckError::CorruptIr),
        SudiceCode::Jump(_) => Result::Err(CheckError::CorruptIr),
    }
}

/// The drop family: shorten the die group on each side by the popped
/// bound. Too large a count is a user error on the minimum side and a
/// symmetry breach on the maximum side.
pub open spec fn spec_step_drop(st: CState) -> Result<CState, CheckError> {
    if cstate_underflow(st) {
        Result::Err(CheckError::CorruptIr)
    } else {
        let n1 = spec_ck_collapse(st.min_s.last());
        match st.min_tos {
            CheckerValue::Scalar(_) => Result::Err(CheckError::DropScalar),
            CheckerValue::Vector(l1, s1) => if n1 >= l1 {
                Result::Err(CheckError::DropTooMany)
            } else {
                let n2 = spec_ck_collapse(st.max_s.last());
                match st.max_tos {
                    CheckerValue::Scalar(_) => Result::Err(CheckError::CorruptIr),
                    CheckerValue::Vector(l2, s2) => if n2 >= l2 {
                        Result::Err(CheckError::CorruptIr)
                    } else {
                        Result::Ok(
                            CState {
                                min_s: st.min_s.drop_last(),
                                min_tos: CheckerValue::Vector(i64_specs::wrapping_sub(l1, n1), s1),
                                max_s: st.max_s.drop_last(),
                                max_tos: CheckerValue::Vector(i64_specs::wrapping_sub(l2, n2), s2),
                            },
                        )
                    },
                }
            },
        }
    }
}

/// The clamp family: `Ceil` (above = true) lowers a side's contribution
/// when it exceeds the popped bound, `Floor` raises it when it falls
/// below; a die group keeps its length.
pub open spec fn spec_step_cap(st: CState, above: bool) -> Result<CState, CheckError> {
    if cstate_underflow(st) {
        Result::Err(CheckError::CorruptIr)
    } else {
        let n1 = spec_ck_collapse(st.min_s.last());
        let n2 = spec_ck_collapse(st.max_s.last());
        Result::Ok(
            CState {
                min_s: st.min_s.drop_last(),
                min_tos: spec_cap_value(st.min_tos, n1, above),
                max_s: st.max_s.drop_last(),
                max_tos: spec_cap_value(st.max_tos, n2, above),
            },
        )
    }
}

pub open spec fn spec_cap_value(v: CheckerValue, n: i64, above: bool) -> CheckerValue {
    match v {
        CheckerValue::Scalar(s) => if (above && s > n) || (!above && s < n) {
            CheckerValue::Scalar(n)
        } else {
            CheckerValue::Scalar(s)
        },
        CheckerValue::Vector(l, s) => if (above && s > n) || (!above && s < n) {
            CheckerValue::Vector(l, n)
        } else {
            CheckerValue::Vector(l, s)
        },
    }
}

/// The comparisons: decide the predicate when the two ranges are
/// disjoint, else leave the whole boolean range `[1, 2]`. The left
/// operand sits in the register, the right one is popped; `e1` is the
/// answer when the left range lies entirely below the right one, `e2`
/// the answer in the opposite case.
pub open spec fn spec_step_cmp(st: CState, e1: CheckerValue, e2: CheckerValue) -> Result<
    CState,
    CheckError,
> {
    if cstate_underflow(st) {
        Result::Err(CheckError::CorruptIr)
    } else {
        let left_min = spec_ck_collapse(st.min_tos);
        let left_max = spec_ck_collapse(st.max_tos);
        let right_min = spec_ck_collapse(st.min_s.last());
        let right_max = spec_ck_collapse(st.max_s.last());
        let mt = if left_max < right_min {
            e1
        } else if right_max < left_min {
            e2
        } else {
            CheckerValue::Scalar(1i64)
        };
        let xt = if left_max < right_min {
            e1
        } else if right_max < left_min {
            e2
        } else {
            CheckerValue::Scalar(2i64)
        };
        Result::Ok(
            CState {
                min_s: st.min_s.drop_last(),
                min_tos: mt,
                max_s: st.max_s.drop_last(),
                max_tos: xt,
            },
        )
    }
}

/// The boolean connectives: a side can be true iff 1 lies in its range;
/// the result is the uncertain range `[1, 2]` if the connective can come
/// out true, else certainly false.
pub open spec fn spec_step_logic(st: CState, conjunction: bool) -> Result<CState, CheckError> {
    if cstate_underflow(st) {
        Result::Err(CheckError::CorruptIr)
    } else {
        let left_min = spec_ck_collapse(st.min_s.last());
        let left_max = spec_ck_collapse(st.max_s.last());
        let right_min = spec_ck_collapse(st.min_tos);
        let right_max = spec_ck_collapse(st.max_tos);
        let left_can = left_min <= 1 && 1 <= left_max;
        let right_can = right_min <= 1 && 1 <= right_max;
        let can = if conjunction {
            left_can && right_can
        } else {
            left_can || right_can
        };
        let mt = if can {
            CheckerValue::Scalar(1i64)
        } else {
            CheckerValue::Scalar(2i64)
        };
        Result::Ok(
            CState {
                min_s: st.min_s.drop_last(),
                min_tos: mt,
                max_s: st.max_s.drop_last(),
                max_tos: CheckerValue::Scalar(2i64),
            },
        )
    }
}

/// Where a jump of `off` from the opcode at `dcp` lands, clamped to the
/// program end (running a check from past the end is a completed check).
pub open spec fn clamp_target(dcp: int, off: int, len: int) -> int {
    if dcp + off + 1 > len {
        len
    } else {
        dcp + off + 1
    }
}

/// The running result of checking a select's arms: the threaded state and
/// the least and greatest arm bound seen so far.
#[verifier::ext_equal]
pub ghost struct ArmAcc {
    pub st: CState,
    pub mn: i64,
    pub mx: i64,
}

pub ghost enum ArmsOut {
    Done(ArmAcc),
    Fail(CheckError),
}

/// The outcome of an abstract run: the final state, or the rejection.
pub ghost enum COut {
    Done(CState),
    Fail(CheckError),
}

/// Check one select arm: run from the arm's start until its closing
/// `Jump`, fold the arm's envelope into the accumulator, and pop the
/// stacks back to their pre-arm shape.
pub open spec fn spec_arm(code: Seq<SudiceCode>, dcp: int, off: int, acc: ArmAcc) -> ArmsOut
    decreases code.len() - dcp, 0int, 0int,
{
    if !(0 <= dcp < code.len() && 0 <= off) {
        ArmsOut::Fail(CheckError::CorruptIr)
    } else {
        match spec_check(code, clamp_target(dcp, off, code.len() as int), true, acc.st) {
            COut::Fail(e) => ArmsOut::Fail(e),
            COut::Done(st2) => if cstate_underflow(st2) {
                ArmsOut::Fail(CheckError::CorruptIr)
            } else {
                ArmsOut::Done(
                    ArmAcc {
                        st: cstate_pop(st2),
                        mn: min64(acc.mn, spec_ck_collapse(st2.min_tos)),
                        mx: max64(acc.mx, spec_ck_collapse(st2.max_tos)),
                    },
                )
            },
        }
    }
}

/// Check the non-fall-through arms with offset indices `[i, hi)`.
pub open spec fn spec_arms(
    code: Seq<SudiceCode>,
    dcp: int,
    offsets: Seq<usize>,
    i: int,
    hi: int,
    acc: ArmAcc,
) -> ArmsOut
    decreases code.len() - dcp, 1int, (if i < hi {
        hi - i
    } else {
        0int
    }),
{
    if !(0 <= dcp < code.len()) {
        ArmsOut::Fail(CheckError::CorruptIr)
    } else if i >= hi {
        ArmsOut::Done(acc)
    } else if !(0 <= i < offsets.len()) {
        ArmsOut::Fail(CheckError::CorruptIr)
    } else {
        match spec_arm(code, dcp, offsets[i] as int, acc) {
            ArmsOut::Fail(e) => ArmsOut::Fail(e),
            ArmsOut::Done(acc2) => spec_arms(code, dcp, offsets, i + 1, hi, acc2),
        }
    }
}

/// The abstract run itself: execute from `dcp` to the program end (or,
/// inside a select arm, to the closing `Jump`), applying `spec_step` to
/// every straight-line opcode and enumerating the reachable arms of each
/// `Select`.
pub open spec fn spec_check(code: Seq<SudiceCode>, dcp: int, until_jump: bool, st: CState) -> COut
    decreases code.len() - dcp, 2int, 0int,
{
    if !(0 <= dcp < code.len()) {
        COut::Done(st)
    } else {
        match code[dcp] {
            SudiceCode::Jump(_) => if until_jump {
                COut::Done(st)
            } else {
                COut::Fail(CheckError::CorruptIr)
            },
            SudiceCode::Select(offsets) => {
                let len = offsets@.len() as int;
                if len < 2 || len > i64::MAX as int {
                    COut::Fail(CheckError::CorruptIr)
                } else {
                    // the arm count: the fall-through arm plus one arm per
                    // listed offset, the last two entries being the default
                    // arm and the skip over the whole select
                    let k = len - 1;
                    let first_min = spec_ck_collapse(st.min_tos) as int;
                    let first_max = spec_ck_collapse(st.max_tos) as int;
                    // the listed arms with index t on [2, k] inside the
                    // predicate's envelope, as offsets indices t - 2
                    let arms_lo: int = if first_min < 2 {
                        0
                    } else {
                        first_min - 2
                    };
                    let arms_hi: int = if first_max > k {
                        k - 1
                    } else if first_max < 1 {
                        0
                    } else {
                        first_max - 1
                    };
                    let acc0 = ArmAcc { st, mn: i64::MAX, mx: i64::MIN };
                    let r1 = if first_min <= 1 && 1 <= first_max {
                        spec_arm(code, dcp, 0, acc0)
                    } else {
                        ArmsOut::Done(acc0)
                    };
                    match r1 {
                        ArmsOut::Fail(e) => COut::Fail(e),
                        ArmsOut::Done(acc1) => match spec_arms(
                            code,
                            dcp,
                            offsets@,
                            arms_lo,
                            arms_hi,
                            acc1,
                        ) {
                            ArmsOut::Fail(e) => COut::Fail(e),
                            ArmsOut::Done(acc2) => {
                                let r3 = if first_min < 1 || first_max > k {
                                    spec_arm(code, dcp, offsets@[len - 2] as int, acc2)
                                } else {
                                    ArmsOut::Done(acc2)
                                };
                                match r3 {
                                    ArmsOut::Fail(e) => COut::Fail(e),
                                    ArmsOut::Done(acc3) => spec_check(
                                        code,
                                        clamp_target(
                                            dcp,
                                            offsets@[len - 1] as int,
                                            code.len() as int,
                                        ),
                                        until_jump,
                                        cstate_push(
                                            acc3.st,
                                            CheckerValue::Scalar(acc3.mn),
                                            CheckerValue::Scalar(acc3.mx),
                                        ),
                                    ),
                                }
                            },
                        },
                    }
                }
            },
            op => match spec_step(op, st) {
                Result::Ok(st2) => spec_check(code, dcp + 1, until_jump, st2),
                Result::Err(e) => COut::Fail(e),
            },
        }
    }
}

/// What the whole static check returns on a program.
pub open spec fn spec_semantic_check(code: Seq<SudiceCode>) -> Result<(i64, i64), CheckError> {
    match spec_check(code, 0, false, init_cstate()) {
        COut::Done(st) => Result::Ok(
            (spec_ck_collapse(st.min_tos), spec_ck_collapse(st.max_tos)),
        ),
        COut::Fail(e) => Result::Err(e),
    }
}

/// The twin value stacks of one checker invocation.
#[derive(Debug)]
pub struct CheckerState {
    pub min_s: Vec<CheckerValue>,
    pub min_tos: CheckerValue,
    pub max_s: Vec<CheckerValue>,
    pub max_tos: CheckerValue,
}

impl View for CheckerState {
    type V = CState;

    open spec fn view(&self) -> CState {
        CState {
            min_s: self.min_s@,
            min_tos: self.min_tos,
            max_s: self.max_s@,
            max_tos: self.max_tos,
        }
    }
}

impl CheckerState {
    pub fn new(capacity: usize) -> (st: CheckerState)
        ensures
            st@ == init_cstate(),
    {
        let st = CheckerState {
            min_s: Vec::with_capacity(capacity),
            min_tos: CheckerValue::Scalar(0),
            max_s: Vec::with_capacity(capacity),
            max_tos: CheckerValue::Scalar(0),
        };
        proof {
            assert(st@ =~= init_cstate());
        }
        st
    }

    pub fn push(&mut self, min: CheckerValue, max: CheckerValue)
        ensures
            final(self)@ == cstate_push(old(self)@, min, max),
    {
        self.min_s.push(self.min_tos);
        self.min_tos = min;
        self.max_s.push(self.max_tos);
        self.max_tos = max;
    }

    pub fn pop(&mut self)
        requires
            old(self).min_s@.len() > 0,
            old(self).max_s@.len() > 0,
        ensures
            final(self)@ == cstate_pop(old(self)@),
    {
        match self.min_s.pop() {
            Some(v) => {
                self.min_tos = v;
            },
            None => {
                proof {
                    assert(false);
                }
            },
        }
        match self.max_s.pop() {
            Some(v) => {
                self.max_tos = v;
            },
            None => {
                proof {
                    assert(false);
                }
            },
        }
    }

    pub fn nop(&mut self)
        requires
            old(self).min_s@.len() > 0,
            old(self).max_s@.len() > 0,
        ensures
            final(self)@ == cstate_nop(old(self)@),
    {
        let _ = self.min_s.pop();
        let _ = self.max_s.pop();
    }
}

/// Checker symmetry, one opcode at a time: a straight-line abstract step
/// that succeeds keeps the twin stacks at equal depth and equal
/// scalar-versus-vector shape.
pub proof fn lemma_step_symmetry(op: SudiceCode, st: CState)
    requires
        cstate_wf(st),
    ensures
        (spec_step(op, st) matches Result::Ok(st2) ==> cstate_wf(st2)),
{
    match spec_step(op, st) {
        Result::Ok(st2) => {
            assert(st.min_tos is Vector <==> st.max_tos is Vector);
            if st.min_s.len() > 0 {
                assert(st.min_s[st.min_s.len() - 1] is Vector <==> st.max_s[st.max_s.len()
                    - 1] is Vector);
            }
            assert forall|k: int| 0 <= k < st2.min_s.len() implies ((#[trigger] st2.min_s[k])
                is Vector <==> (#[trigger] st2.max_s[k]) is Vector) by {
                if k < st.min_s.len() {
                    assert(st.min_s[k] is Vector <==> st.max_s[k] is Vector);
                }
            };
        },
        Result::Err(_) => {},
    }
}

/// Checker symmetry for one select arm.
pub proof fn lemma_arm_symmetry(code: Seq<SudiceCode>, dcp: int, off: int, acc: ArmAcc)
    requires
        cstate_wf(acc.st),
    ensures
        (spec_arm(code, dcp, off, acc) matches ArmsOut::Done(acc2) ==> cstate_wf(acc2.st)),
    decreases code.len() - dcp, 0int, 1int,
{
    if 0 <= dcp < code.len() && 0 <= off {
        let target = clamp_target(dcp, off, code.len() as int);
        lemma_checker_symmetry(code, target, true, acc.st);
        match spec_check(code, target, true, acc.st) {
            COut::Done(st2) => {
                if !cstate_underflow(st2) {
                    assert(st2.min_s[st2.min_s.len() - 1] is Vector <==> st2.max_s[st2.max_s.len()
                        - 1] is Vector);
                }
            },
            COut::Fail(_) => {},
        }
    }
}

/// Checker symmetry across a run of select arms.
pub proof fn lemma_arms_symmetry(
    code: Seq<SudiceCode>,
    dcp: int,
    offsets: Seq<usize>,
    i: int,
    hi: int,
    acc: ArmAcc,
)
    requires
        cstate_wf(acc.st),
    ensures
        (spec_arms(code, dcp, offsets, i, hi, acc) matches ArmsOut::Done(acc2) ==> cstate_wf(
            acc2.st,
        )),
    decreases code.len() - dcp, 1int, (if i < hi {
        hi - i + 1
    } else {
        0int
    }),
{
    if 0 <= dcp < code.len() && i < hi && 0 <= i < offsets.len() {
        lemma_arm_symmetry(code, dcp, offsets[i] as int, acc);
        match spec_arm(code, dcp, offsets[i] as int, acc) {
            ArmsOut::Done(acc2) => {
                lemma_arms_symmetry(code, dcp, offsets, i + 1, hi, acc2);
            },
            ArmsOut::Fail(_) => {},
        }
    }
}

/// Checker symmetry (the twin-stack invariant): an abstract run that
/// starts from symmetric stacks — equal depth, and a die group on the
/// minimum side exactly where the maximum side holds one — and succeeds
/// ends in symmetric stacks; with `lemma_step_symmetry` the invariant
/// holds after every step in between.
pub proof fn lemma_checker_symmetry(code: Seq<SudiceCode>, dcp: int, until_jump: bool, st: CState)
    requires
        cstate_wf(st),
    ensures
        (spec_check(code, dcp, until_jump, st) matches COut::Done(st2) ==> cstate_wf(st2)),
    decreases code.len() - dcp, 2int, 1int,
{
    if 0 <= dcp < code.len() {
        match code[dcp] {
            SudiceCode::Jump(_) => {},
            SudiceCode::Select(offsets) => {
                let len = offsets@.len() as int;
                if 2 <= len <= i64::MAX as int {
                    let k = len - 1;
                    let first_min = spec_ck_collapse(st.min_tos) as int;
                    let first_max = spec_ck_collapse(st.max_tos) as int;
                    {
                        let arms_lo: int = if first_min < 2 {
                            0
                        } else {
                            first_min - 2
                        };
                        let arms_hi: int = if first_max > k {
                            k - 1
                        } else if first_max < 1 {
                            0
                        } else {
                            first_max - 1
                        };
                        let acc0 = ArmAcc { st, mn: i64::MAX, mx: i64::MIN };
                        if first_min <= 1 && 1 <= first_max {
                            lemma_arm_symmetry(code, dcp, 0, acc0);
                        }
                        let r1 = if first_min <= 1 && 1 <= first_max {
                            spec_arm(code, dcp, 0, acc0)
                        } else {
                            ArmsOut::Done(acc0)
                        };
                        match r1 {
                            ArmsOut::Fail(_) => {},
                            ArmsOut::Done(acc1) => {
                                lemma_arms_symmetry(code, dcp, offsets@, arms_lo, arms_hi, acc1);
                                match spec_arms(code, dcp, offsets@, arms_lo, arms_hi, acc1) {
                                    ArmsOut::Fail(_) => {},
                                    ArmsOut::Done(acc2) => {
                                        if first_min < 1 || first_max > k {
                                            lemma_arm_symmetry(
                                                code,
                                                dcp,
                                                offsets@[len - 2] as int,
                                                acc2,
                                            );
                                        }
                                        let r3 = if first_min < 1 || first_max > k {
                                            spec_arm(code, dcp, offsets@[len - 2] as int, acc2)
                                        } else {
                                            ArmsOut::Done(acc2)
                                        };
                                        match r3 {
                                            ArmsOut::Fail(_) => {},
                                            ArmsOut::Done(acc3) => {
                                                let st2 = cstate_push(
                                                    acc3.st,
                                                    CheckerValue::Scalar(acc3.mn),
                                                    CheckerValue::Scalar(acc3.mx),
                                                );
                                                assert(cstate_wf(st2)) by {
                                                    assert forall|k: int|
                                                        0 <= k < st2.min_s.len() implies ((
                                                    #[trigger] st2.min_s[k]) is Vector <==> (
                                                    #[trigger] st2.max_s[k]) is Vector) by {
                                                        if k < acc3.st.min_s.len() {
                                                            assert(acc3.st.min_s[k] is Vector
                                                                <==> acc3.st.max_s[k] is Vector);
                                                        }
                                                    };
                                                };
                                                lemma_checker_symmetry(
                                                    code,
                                                    clamp_target(
                                                        dcp,
                                                        offsets@[len - 1] as int,
                                                        code.len() as int,
                                                    ),
                                                    until_jump,
                                                    st2,
                                                );
                                            },
                                        }
                                    },
                                }
                            },
                        }
                    }
                }
            },
            op => {
                lemma_step_symmetry(op, st);
                match spec_step(op, st) {
                    Result::Ok(st2) => {
                        lemma_checker_symmetry(code, dcp + 1, until_jump, st2);
                    },
                    Result::Err(_) => {},
                }
            },
        }
    }
}

/// Where a clamped arm or post-select jump lands.
fn arm_target(dcp: usize, off: usize, len: usize) -> (t: usize)
    requires
        dcp < len,
    ensures
        t as int == clamp_target(dcp as int, off as int, len as int),
        dcp < t <= len,
{
    if off >= len {
        len
    } else if dcp + 1 > len - off {
        len
    } else {
        dcp + off + 1
    }
}

/// Apply one straight-line opcode to the twin stacks, exactly as
/// `spec_step` describes it.
fn step_straight(op: &SudiceCode, state: &mut CheckerState) -> (r: Result<(), CheckError>)
    requires
        !(op is Select),
        !(op is Jump),
    ensures
        match r {
            Ok(_) => spec_step(*op, old(state)@) == Result::<CState, CheckError>::Ok(
                final(state)@,
            ),
            Err(e) => spec_step(*op, old(state)@) == Result::<CState, CheckError>::Err(e),
        },
{
    let ghost pre = state@;
    match op {
        SudiceCode::Num(i) => {
            state.push(CheckerValue::Scalar(*i), CheckerValue::Scalar(*i));
            Ok(())
        },
        SudiceCode::Add => {
            if state.min_s.len() == 0 || state.max_s.len() == 0 {
                return Err(CheckError::CorruptIr);
            }
            let min_x = state.min_s.pop().unwrap();
            let a = state.min_tos.collapse();
            state.min_tos = CheckerValue::Scalar(a.wrapping_add(min_x.collapse()));
            let max_x = state.max_s.pop().unwrap();
            let b = state.max_tos.collapse();
            state.max_tos = CheckerValue::Scalar(b.wrapping_add(max_x.collapse()));
            Ok(())
        },
        SudiceCode::Sub => {
            if state.min_s.len() == 0 || state.max_s.len() == 0 {
                return Err(CheckError::CorruptIr);
            }
            let min_x = state.min_s.pop().unwrap();
            let max_x = state.max_s.pop().unwrap();
            let a = state.min_tos.collapse();
            state.min_tos = CheckerValue::Scalar(a.wrapping_sub(max_x.collapse()));
            let b = state.max_tos.collapse();
            state.max_tos = CheckerValue::Scalar(b.wrapping_sub(min_x.collapse()));
            Ok(())
        },
        SudiceCode::Mul => {
            if state.min_s.len() == 0 || state.max_s.len() == 0 {
                return Err(CheckError::CorruptIr);
            }
            let min_x = state.min_s.pop().unwrap();
            let a = state.min_tos.collapse();
            state.min_tos = CheckerValue::Scalar(a.wrapping_mul(min_x.collapse()));
            let max_x = state.max_s.pop().unwrap();
            let b = state.max_tos.collapse();
            state.max_tos = CheckerValue::Scalar(b.wrapping_mul(max_x.collapse()));
            Ok(())
        },
        SudiceCode::Div => {
            if state.min_s.len() == 0 || state.max_s.len() == 0 {
                return Err(CheckError::CorruptIr);
            }
            let min_x = state.min_s.pop().unwrap();
            let max_x = state.max_s.pop().unwrap();
            let a1 = state.min_tos.collapse();
            let b1 = max_x.collapse();
            let a2 = state.max_tos.collapse();
            let b2 = min_x.collapse();
            if b1 == 0 || (a1 == i64::MIN && b1 == -1) {
                return Err(CheckError::DivisionError);
            }
            if b2 == 0 || (a2 == i64::MIN && b2 == -1) {
                return Err(CheckError::DivisionError);
            }
            proof {
                crate::interpreter::lemma_div_trunc_fits(a1, b1);
                crate::interpreter::lemma_div_trunc_fits(a2, b2);
            }
            state.min_tos = CheckerValue::Scalar(a1.checked_div(b1).unwrap());
            state.max_tos = CheckerValue::Scalar(a2.checked_div(b2).unwrap());
            Ok(())
        },
        SudiceCode::Roll => {
            if state.min_s.len() == 0 || state.max_s.len() == 0 {
                return Err(CheckError::CorruptIr);
            }
            let min_x = state.min_s.pop().unwrap();
            state.min_tos = CheckerValue::Vector(min_x.collapse(), 1);
            let max_x = state.max_s.pop().unwrap();
            let b = state.max_tos.collapse();
            state.max_tos = CheckerValue::Vector(max_x.collapse(), b);
            Ok(())
        },
        SudiceCode::Reroll => {
            if state.min_s.len() == 0 || state.max_s.len() == 0 {
                return Err(CheckError::CorruptIr);
            }
            state.nop();
            Ok(())
        },
        SudiceCode::RerollLowest => {
            if state.min_s.len() == 0 || state.max_s.len() == 0 {
                return Err(CheckError::CorruptIr);
            }
            state.nop();
            Ok(())
        },
        SudiceCode::RerollHighest => {
            if state.min_s.len() == 0 || state.max_s.len() == 0 {
                return Err(CheckError::CorruptIr);
            }
            state.nop();
            Ok(())
        },
        SudiceCode::DropLowest => step_drop(state),
        SudiceCode::DropHighest => step_drop(state),
        SudiceCode::Ceil => step_cap(state, true),
        SudiceCode::Floor => step_cap(state, false),
        SudiceCode::BestOf(_) => {
            if state.min_s.len() == 0 || state.max_s.len() == 0 {
                return Err(CheckError::CorruptIr);
            }
            state.nop();
            Ok(())
        },
        SudiceCode::WorstOf(_) => {
            if state.min_s.len() == 0 || state.max_s.len() == 0 {
                return Err(CheckError::CorruptIr);
            }
            state.nop();
            Ok(())
        },
        SudiceCode::Lt => step_cmp(state, CheckerValue::true_value(), CheckerValue::false_value()),
        SudiceCode::Gt => step_cmp(state, CheckerValue::false_value(), CheckerValue::true_value()),
        SudiceCode::Eq => step_cmp(state, CheckerValue::false_value(), CheckerValue::false_value()),
        SudiceCode::Ne => step_cmp(state, CheckerValue::true_value(), CheckerValue::true_value()),
        SudiceCode::And => step_logic(state, true),
        SudiceCode::Or => step_logic(state, false),
        SudiceCode::Select(_) => unreached(),
        SudiceCode::Jump(_) => unreached(),
    }
}

/// The drop family on the twin stacks (`spec_step_drop`).
fn step_drop(state: &mut CheckerState) -> (r: Result<(), CheckError>)
    ensures
        match r {
            Ok(_) => spec_step_drop(old(state)@) == Result::<CState, CheckError>::Ok(
                final(state)@,
            ),
            Err(e) => spec_step_drop(old(state)@) == Result::<CState, CheckError>::Err(e),
        },
{
    if state.min_s.len() == 0 || state.max_s.len() == 0 {
        return Err(CheckError::CorruptIr);
    }
    let min_x = state.min_s.pop().unwrap();
    let n1 = min_x.collapse();
    let (l1, s1) = match &state.min_tos {
        CheckerValue::Scalar(_) => {
            return Err(CheckError::DropScalar);
        },
        CheckerValue::Vector(l, s) => (*l, *s),
    };
    if n1 >= l1 {
        return Err(CheckError::DropTooMany);
    }
    let max_x = state.max_s.pop().unwrap();
    let n2 = max_x.collapse();
    let (l2, s2) = match &state.max_tos {
        CheckerValue::Scalar(_) => {
            return Err(CheckError::CorruptIr);
        },
        CheckerValue::Vector(l, s) => (*l, *s),
    };
    if n2 >= l2 {
        return Err(CheckError::CorruptIr);
    }
    state.min_tos = CheckerValue::Vector(l1.wrapping_sub(n1), s1);
    state.max_tos = CheckerValue::Vector(l2.wrapping_sub(n2), s2);
    Ok(())
}

/// The clamp family on the twin stacks (`spec_step_cap`).
fn step_cap(state: &mut CheckerState, above: bool) -> (r: Result<(), CheckError>)
    ensures
        match r {
            Ok(_) => spec_step_cap(old(state)@, above) == Result::<CState, CheckError>::Ok(
                final(state)@,
            ),
            Err(e) => spec_step_cap(old(state)@, above) == Result::<CState, CheckError>::Err(e),
        },
{
    if state.min_s.len() == 0 || state.max_s.len() == 0 {
        return Err(CheckError::CorruptIr);
    }
    let min_x = state.min_s.pop().unwrap();
    let n1 = min_x.collapse();
    state.min_tos = cap_value(&state.min_tos, n1, above);
    let max_x = state.max_s.pop().unwrap();
    let n2 = max_x.collapse();
    state.max_tos = cap_value(&state.max_tos, n2, above);
    Ok(())
}

fn cap_value(v: &CheckerValue, n: i64, above: bool) -> (r: CheckerValue)
    ensures
        r == spec_cap_value(*v, n, above),
{
    match v {
        CheckerValue::Scalar(s) => {
            if (above && *s > n) || (!above && *s < n) {
                CheckerValue::Scalar(n)
            } else {
                CheckerValue::Scalar(*s)
            }
        },
        CheckerValue::Vector(l, s) => {
            if (above && *s > n) || (!above && *s < n) {
                CheckerValue::Vector(*l, n)
            } else {
                CheckerValue::Vector(*l, *s)
            }
        },
    }
}

/// The comparisons on the twin stacks (`spec_step_cmp`).
fn step_cmp(state: &mut CheckerState, e1: CheckerValue, e2: CheckerValue) -> (r: Result<
    (),
    CheckError,
>)
    ensures
        match r {
            Ok(_) => spec_step_cmp(old(state)@, e1, e2) == Result::<CState, CheckError>::Ok(
                final(state)@,
            ),
            Err(e) => spec_step_cmp(old(state)@, e1, e2) == Result::<CState, CheckError>::Err(e),
        },
{
    if state.min_s.len() == 0 || state.max_s.len() == 0 {
        return Err(CheckError::CorruptIr);
    }
    let right_min = state.min_s.pop().unwrap().collapse();
    let right_max = state.max_s.pop().unwrap().collapse();
    let left_min = state.min_tos.collapse();
    let left_max = state.max_tos.collapse();
    if left_max < right_min {
        state.min_tos = e1;
        state.max_tos = e1;
    } else if right_max < left_min {
        state.min_tos = e2;
        state.max_tos = e2;
    } else {
        state.min_tos = CheckerValue::true_value();
        state.max_tos = CheckerValue::false_value();
    }
    Ok(())
}

/// The boolean connectives on the twin stacks (`spec_step_logic`).
fn step_logic(state: &mut CheckerState, conjunction: bool) -> (r: Result<(), CheckError>)
    ensures
        match r {
            Ok(_) => spec_step_logic(old(state)@, conjunction) == Result::<
                CState,
                CheckError,
            >::Ok(final(state)@),
            Err(e) => spec_step_logic(old(state)@, conjunction) == Result::<
                CState,
                CheckError,
            >::Err(e),
        },
{
    if state.min_s.len() == 0 || state.max_s.len() == 0 {
        return Err(CheckError::CorruptIr);
    }
    let left_min = state.min_s.pop().unwrap().collapse();
    let left_max = state.max_s.pop().unwrap().collapse();
    let right_min = state.min_tos.collapse();
    let right_max = state.max_tos.collapse();
    let left_can = left_min <= 1 && 1 <= left_max;
    let right_can = right_min <= 1 && 1 <= right_max;
    let can = if conjunction {
        left_can && right_can
    } else {
        left_can || right_can
    };
    if can {
        state.min_tos = CheckerValue::true_value();
        state.max_tos = CheckerValue::false_value();
    } else {
        state.min_tos = CheckerValue::false_value();
        state.max_tos = CheckerValue::false_value();
    }
    Ok(())
}

/// Check one `Select`: clamp the arm index range to the table, check
/// every reachable arm (the fall-through arm, the listed arms, and the
/// default when the range escapes), fold their envelopes, and push the
/// combined bound pair. Returns where the run continues.
#[verifier::rlimit(60)]
fn check_select(
    d: &SudiceExpression,
    dcp: usize,
    offsets: &Vec<usize>,
    until_jump: bool,
    state: &mut CheckerState,
) -> (r: Result<usize, CheckError>)
    requires
        dcp < d.code@.len(),
        d.code@[dcp as int] == SudiceCode::Select(*offsets),
    ensures
        match r {
            Ok(t) => dcp < t <= d.code@.len() && spec_check(
                d.code@,
                dcp as int,
                until_jump,
                old(state)@,
            ) == spec_check(d.code@, t as int, until_jump, final(state)@),
            Err(e) => spec_check(d.code@, dcp as int, until_jump, old(state)@) == COut::Fail(e),
        },
    decreases d.code@.len() - dcp, 0int,
{
    let ghost code = d.code@;
    let ghost pre = state@;
    let olen = offsets.len();
    if olen < 2 || (olen as u64) > (i64::MAX as u64) {
        proof {
            assert(spec_check(code, dcp as int, until_jump, pre) == COut::Fail(
                CheckError::CorruptIr,
            ));
        }
        return Err(CheckError::CorruptIr);
    }
    let first_min = state.min_tos.collapse();
    let first_max = state.max_tos.collapse();
    let kk = (olen - 1) as i64;
    let arms_lo: i64 = if first_min < 2 {
        0
    } else {
        first_min - 2
    };
    let arms_hi: i64 = if first_max > kk {
        kk - 1
    } else if first_max < 1 {
        0
    } else {
        first_max - 1
    };
    let mut mn: i64 = i64::MAX;
    let mut mx: i64 = i64::MIN;
    let ghost acc0 = ArmAcc { st: pre, mn: i64::MAX, mx: i64::MIN };
    let ghost r1spec = if first_min <= 1 && 1 <= first_max {
        spec_arm(code, dcp as int, 0, acc0)
    } else {
        ArmsOut::Done(acc0)
    };
    if first_min <= 1 && 1 <= first_max {
        let target = arm_target(dcp, 0, d.code.len());
        match semantic_check_with(d, target, true, state) {
            Err(e) => {
                proof {
                    assert(r1spec == ArmsOut::Fail(e));
                    assert(spec_check(code, dcp as int, until_jump, pre) == COut::Fail(e));
                }
                return Err(e);
            },
            Ok(_) => {},
        }
        if state.min_s.len() == 0 || state.max_s.len() == 0 {
            proof {
                assert(r1spec == ArmsOut::Fail(CheckError::CorruptIr));
                assert(spec_check(code, dcp as int, until_jump, pre) == COut::Fail(
                    CheckError::CorruptIr,
                ));
            }
            return Err(CheckError::CorruptIr);
        }
        let new_min = state.min_tos.collapse();
        let new_max = state.max_tos.collapse();
        if new_min < mn {
            mn = new_min;
        }
        if new_max > mx {
            mx = new_max;
        }
        state.pop();
    }
    let ghost acc1g = ArmAcc { st: state@, mn: mn, mx: mx };
    proof {
        assert(r1spec == ArmsOut::Done(acc1g));
    }
    let ghost armsspec = spec_arms(
        code,
        dcp as int,
        offsets@,
        arms_lo as int,
        arms_hi as int,
        acc1g,
    );
    {
        let mut i: i64 = arms_lo;
        while i < arms_hi
            invariant
                d.code@ == code,
                pre == old(state)@,
                dcp < code.len(),
                code[dcp as int] == SudiceCode::Select(*offsets),
                olen == offsets@.len(),
                2 <= olen,
                (olen as u64) <= (i64::MAX as u64),
                kk == olen - 1,
                first_min == spec_ck_collapse(pre.min_tos),
                first_max == spec_ck_collapse(pre.max_tos),
                arms_lo == (if first_min < 2 {
                    0i64
                } else {
                    (first_min - 2) as i64
                }),
                arms_hi == (if first_max > kk {
                    (kk - 1) as i64
                } else if first_max < 1 {
                    0i64
                } else {
                    (first_max - 1) as i64
                }),
                0 <= arms_lo <= i,
                i <= arms_hi || i == arms_lo,
                arms_hi <= kk - 1,
                r1spec == (if first_min <= 1 && 1 <= first_max {
                    spec_arm(code, dcp as int, 0, ArmAcc { st: pre, mn: i64::MAX, mx: i64::MIN })
                } else {
                    ArmsOut::Done(ArmAcc { st: pre, mn: i64::MAX, mx: i64::MIN })
                }),
                r1spec == ArmsOut::Done(acc1g),
                armsspec == spec_arms(
                    code,
                    dcp as int,
                    offsets@,
                    arms_lo as int,
                    arms_hi as int,
                    acc1g,
                ),
                spec_arms(
                    code,
                    dcp as int,
                    offsets@,
                    i as int,
                    arms_hi as int,
                    ArmAcc { st: state@, mn: mn, mx: mx },
                ) == armsspec,
            decreases arms_hi - i,
        {
            let off = offsets[i as usize];
            let ghost acc_in = ArmAcc { st: state@, mn: mn, mx: mx };
            let target = arm_target(dcp, off, d.code.len());
            match semantic_check_with(d, target, true, state) {
                Err(e) => {
                    proof {
                        assert(spec_arm(code, dcp as int, off as int, acc_in) == ArmsOut::Fail(e));
                        assert(armsspec == ArmsOut::Fail(e));
                        assert(spec_check(code, dcp as int, until_jump, pre) == COut::Fail(e));
                    }
                    return Err(e);
                },
                Ok(_) => {},
            }
            if state.min_s.len() == 0 || state.max_s.len() == 0 {
                proof {
                    assert(spec_arm(code, dcp as int, off as int, acc_in) == ArmsOut::Fail(
                        CheckError::CorruptIr,
                    ));
                    assert(armsspec == ArmsOut::Fail(CheckError::CorruptIr));
                    assert(spec_check(code, dcp as int, until_jump, pre) == COut::Fail(
                        CheckError::CorruptIr,
                    ));
                }
                return Err(CheckError::CorruptIr);
            }
            let new_min = state.min_tos.collapse();
            let new_max = state.max_tos.collapse();
            if new_min < mn {
                mn = new_min;
            }
            if new_max > mx {
                mx = new_max;
            }
            state.pop();
            proof {
                assert(spec_arm(code, dcp as int, off as int, acc_in) == ArmsOut::Done(
                    ArmAcc { st: state@, mn: mn, mx: mx },
                ));
            }
            i = i + 1;
        }
    }
    proof {
        assert(armsspec == ArmsOut::Done(ArmAcc { st: state@, mn: mn, mx: mx }));
    }
    let ghost acc2 = ArmAcc { st: state@, mn: mn, mx: mx };
    let ghost r3spec = if first_min < 1 || first_max > kk {
        spec_arm(code, dcp as int, offsets@[olen - 2] as int, acc2)
    } else {
        ArmsOut::Done(acc2)
    };
    if first_min < 1 || first_max > kk {
        let off = offsets[olen - 2];
        let target = arm_target(dcp, off, d.code.len());
        match semantic_check_with(d, target, true, state) {
            Err(e) => {
                proof {
                    assert(r3spec == ArmsOut::Fail(e));
                    assert(spec_check(code, dcp as int, until_jump, pre) == COut::Fail(e));
                }
                return Err(e);
            },
            Ok(_) => {},
        }
        if state.min_s.len() == 0 || state.max_s.len() == 0 {
            proof {
                assert(r3spec == ArmsOut::Fail(CheckError::CorruptIr));
                assert(spec_check(code, dcp as int, until_jump, pre) == COut::Fail(
                    CheckError::CorruptIr,
                ));
            }
            return Err(CheckError::CorruptIr);
        }
        let new_min = state.min_tos.collapse();
        let new_max = state.max_tos.collapse();
        if new_min < mn {
            mn = new_min;
        }
        if new_max > mx {
            mx = new_max;
        }
        state.pop();
    }
    proof {
        assert(r3spec == ArmsOut::Done(ArmAcc { st: state@, mn: mn, mx: mx }));
    }
    state.push(CheckerValue::Scalar(mn), CheckerValue::Scalar(mx));
    let adv = offsets[olen - 1];
    let target = arm_target(dcp, adv, d.code.len());
    proof {
        assert(spec_check(code, dcp as int, until_jump, pre) == spec_check(
            code,
            target as int,
            until_jump,
            state@,
        ));
    }
    Ok(target)
}

/// Statically derive the `[min, max]` envelope of a program, or reject
/// it. The result is exactly what the abstract run `spec_semantic_check`
/// computes on the program's opcode sequence.
pub fn semantic_check(d: &SudiceExpression) -> (r: Result<(i64, i64), CheckError>)
    ensures
        r == spec_semantic_check(d.code@),
{
    let mut state = CheckerState::new(d.code.len());
    match semantic_check_with(d, 0, false, &mut state) {
        Ok(_) => Ok((state.min_tos.collapse(), state.max_tos.collapse())),
        Err(e) => Err(e),
    }
}

/// Abstractly execute the program from `start`; inside a select arm
/// (`until_jump`) the run ends at the arm's closing `Jump`. On success
/// the twin stacks hold exactly the state of the abstract run.
pub fn semantic_check_with(
    d: &SudiceExpression,
    start: usize,
    until_jump: bool,
    state: &mut CheckerState,
) -> (r: Result<(), CheckError>)
    ensures
        match r {
            Ok(_) => spec_check(d.code@, start as int, until_jump, old(state)@) == COut::Done(
                final(state)@,
            ),
            Err(e) => spec_check(d.code@, start as int, until_jump, old(state)@) == COut::Fail(e),
        },
    decreases d.code@.len() - start, 1int,
{
    let ghost code = d.code@;
    let ghost st0 = state@;
    let mut dcp: usize = start;
    while dcp < d.code.len()
        invariant
            start <= dcp,
            d.code@ == code,
            st0 == old(state)@,
            spec_check(code, start as int, until_jump, st0) == spec_check(
                code,
                dcp as int,
                until_jump,
                state@,
            ),
        decreases d.code@.len() - dcp,
    {
        let ghost pre = state@;
        let ghost predcp = dcp as int;
        match &d.code[dcp] {
            SudiceCode::Jump(_) => {
                if until_jump {
                    proof {
                        assert(spec_check(code, predcp, until_jump, pre) == COut::Done(pre));
                    }
                    return Ok(());
                } else {
                    proof {
                        assert(spec_check(code, predcp, until_jump, pre) == COut::Fail(
                            CheckError::CorruptIr,
                        ));
                    }
                    return Err(CheckError::CorruptIr);
                }
            },
            SudiceCode::Select(offsets) => {
                match check_select(d, dcp, offsets, until_jump, state) {
                    Err(e) => {
                        proof {
                            assert(spec_check(code, start as int, until_jump, st0)
                                == COut::Fail(e));
                        }
                        return Err(e);
                    },
                    Ok(t) => {
                        proof {
                            assert(spec_check(code, start as int, until_jump, st0) == spec_check(
                                code,
                                t as int,
                                until_jump,
                                state@,
                            ));
                        }
                        dcp = t - 1;
                    },
                }
            },
            op => {
                match step_straight(op, state) {
                    Err(e) => {
                        proof {
                            assert(spec_check(code, predcp, until_jump, pre) == COut::Fail(e));
                        }
                        return Err(e);
                    },
                    Ok(_) => {
                        proof {
                            assert(spec_check(code, predcp, until_jump, pre) == spec_check(
                                code,
                                predcp + 1,
                                until_jump,
                                state@,
                            ));
                        }
                    },
                }
            },
        }
        dcp = dcp + 1;
    }
    proof {
        assert(spec_check(code, dcp as int, until_jump, state@) == COut::Done(state@));
    }
    Ok(())
}

} // verus!
