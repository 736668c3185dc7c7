//! Unit tests: the parser's emission, the checker's envelopes and
//! rejections, the interpreter on deterministic programs, the value
//! operations, and the library's laws on concrete values.

use sudice::checker::{semantic_check, CheckError, CheckerState, CheckerValue};
use sudice::descriptor::{SudiceCode, SudiceExpression};
use sudice::estimator::{sample_histogram, SampleError};
use sudice::interpreter::{interpret, Accumulator, InterpError, SudiceValue};
use sudice::parser::{parse, ParseError};

fn ir(code: Vec<SudiceCode>) -> SudiceExpression {
    SudiceExpression { code }
}

#[test]
fn parse_roll_emission() {
    // the die count runs first; the face count ends on top of the stack
    let e = parse("1d6").unwrap();
    assert_eq!(
        e.code,
        vec![SudiceCode::Num(1), SudiceCode::Num(6), SudiceCode::Roll]
    );
}

#[test]
fn parse_binary_emission() {
    // the right operand runs first, so that the left one ends on top
    let e = parse("3 - 7").unwrap();
    assert_eq!(
        e.code,
        vec![SudiceCode::Num(7), SudiceCode::Num(3), SudiceCode::Sub]
    );
}

#[test]
fn parse_iteration_emission() {
    let e = parse("1d20b2").unwrap();
    assert_eq!(
        e.code,
        vec![
            SudiceCode::Num(2),
            SudiceCode::Num(1),
            SudiceCode::Num(20),
            SudiceCode::Roll,
            SudiceCode::BestOf(3),
        ]
    );
}

#[test]
fn parse_select_emission() {
    let e = parse("[1 ? 5 : 7]").unwrap();
    assert_eq!(
        e.code,
        vec![
            SudiceCode::Num(1),
            SudiceCode::Select(vec![2, 4]),
            SudiceCode::Num(5),
            SudiceCode::Jump(2),
            SudiceCode::Num(7),
            SudiceCode::Jump(0),
        ]
    );
}

#[test]
fn parse_precedence() {
    // the dice level binds tighter than products, products tighter than sums
    let e = parse("10*1d2+2d6-11").unwrap();
    let one_d2 = vec![SudiceCode::Num(1), SudiceCode::Num(2), SudiceCode::Roll];
    let two_d6 = vec![SudiceCode::Num(2), SudiceCode::Num(6), SudiceCode::Roll];
    let mut expect = vec![SudiceCode::Num(11)];
    expect.extend(two_d6);
    expect.extend(one_d2);
    expect.push(SudiceCode::Num(10));
    expect.push(SudiceCode::Mul);
    expect.push(SudiceCode::Add);
    expect.push(SudiceCode::Sub);
    assert_eq!(e.code, expect);
}

#[test]
fn parse_negative_literal() {
    let e = parse("-4 + 6").unwrap();
    assert_eq!(
        e.code,
        vec![SudiceCode::Num(6), SudiceCode::Num(-4), SudiceCode::Add]
    );
}

#[test]
fn parse_rejects() {
    assert_eq!(parse(""), Err(ParseError::UnexpectedEnd));
    assert_eq!(parse("1d"), Err(ParseError::UnexpectedEnd));
    assert_eq!(parse("#"), Err(ParseError::BadToken));
    assert_eq!(parse("(1d6"), Err(ParseError::UnexpectedEnd));
    assert_eq!(parse("1 2"), Err(ParseError::UnexpectedToken));
    assert_eq!(parse("99999999999999999999"), Err(ParseError::NumberOverflow));
    assert_eq!(parse("xy"), Err(ParseError::BadToken));
}

#[test]
fn checker_exact_bounds() {
    let (min, max) = semantic_check(&parse("3 + 7").unwrap()).unwrap();
    assert_eq!((min, max), (10, 10));
    let (min, max) = semantic_check(&parse("3d6").unwrap()).unwrap();
    assert_eq!((min, max), (3, 18));
    let (min, max) = semantic_check(&parse("3d6\\h1").unwrap()).unwrap();
    assert_eq!((min, max), (2, 12));
    let (min, max) = semantic_check(&parse("2d8 - 3").unwrap()).unwrap();
    assert_eq!((min, max), (-1, 13));
    let (min, max) = semantic_check(&parse("1d6/1d6").unwrap()).unwrap();
    assert_eq!((min, max), (0, 6));
    // iteration is bound-neutral
    let (min, max) = semantic_check(&parse("1d20b2").unwrap()).unwrap();
    assert_eq!((min, max), (1, 20));
    // a select folds the envelopes of exactly its reachable arms
    let (min, max) = semantic_check(&parse("[1d2 ? 5 : 7]").unwrap()).unwrap();
    assert_eq!((min, max), (5, 7));
    assert_eq!(semantic_check(&parse("[2 ? 5 9 : 7]").unwrap()).unwrap(), (9, 9));
    assert_eq!(semantic_check(&parse("[2 ? 5 : 7]").unwrap()).unwrap(), (7, 7));
    assert_eq!(semantic_check(&parse("[1 ? 5 : 7]").unwrap()).unwrap(), (5, 5));
    // disjoint ranges decide a comparison; overlapping ones leave [1, 2]
    assert_eq!(semantic_check(&parse("1 < 2").unwrap()).unwrap(), (1, 1));
    assert_eq!(semantic_check(&parse("2 < 1").unwrap()).unwrap(), (2, 2));
    assert_eq!(semantic_check(&parse("3 > 1").unwrap()).unwrap(), (1, 1));
    assert_eq!(semantic_check(&parse("1d6 < 10").unwrap()).unwrap(), (1, 1));
    assert_eq!(semantic_check(&parse("1d6 < 3").unwrap()).unwrap(), (1, 2));
}

#[test]
fn checker_rejections() {
    // dropping from a settled integer is a user error
    assert_eq!(
        semantic_check(&parse("3\\h1").unwrap()),
        Err(CheckError::DropScalar)
    );
    // dropping at least as many dice as the group is guaranteed to hold
    assert_eq!(
        semantic_check(&parse("3d6\\h3").unwrap()),
        Err(CheckError::DropTooMany)
    );
    // bounds that pass through zero make the division unsafe
    assert_eq!(
        semantic_check(&parse("1/0").unwrap()),
        Err(CheckError::DivisionError)
    );
    // a jump outside a select arm is corrupt bytecode
    assert_eq!(
        semantic_check(&ir(vec![SudiceCode::Jump(0)])),
        Err(CheckError::CorruptIr)
    );
    // a binary opcode with nothing beneath it underflows
    assert_eq!(
        semantic_check(&ir(vec![SudiceCode::Add])),
        Err(CheckError::CorruptIr)
    );
}

#[test]
fn checker_dead_arm_immunity() {
    // a select arm that the predicate's envelope cannot reach does not
    // change the derived bounds: with the predicate pinned to 1 only the
    // fall-through arm is enumerated
    let live = semantic_check(&parse("[1 ? 5 9 11 : 7]").unwrap()).unwrap();
    let with_dead_arm = semantic_check(&parse("[1 ? 5 9 11 13 : 7]").unwrap()).unwrap();
    assert_eq!(live, with_dead_arm);
    assert_eq!(live, (5, 5));
    let narrow = semantic_check(&parse("[1 ? 5 : 7]").unwrap()).unwrap();
    let narrow_with_dead_arm = semantic_check(&parse("[1 ? 5 9 : 7]").unwrap()).unwrap();
    assert_eq!(narrow, narrow_with_dead_arm);
    assert_eq!(narrow, (5, 5));
}

#[test]
fn interpret_deterministic() {
    let mut rng = rand::rng();
    // one-faced dice settle every roll
    assert_eq!(interpret(&parse("2d1 + 3").unwrap(), &mut rng), Ok(5));
    assert_eq!(interpret(&parse("3 - 7").unwrap(), &mut rng), Ok(-4));
    assert_eq!(interpret(&parse("21 / 7").unwrap(), &mut rng), Ok(3));
    assert_eq!(interpret(&parse("4d1\\l1").unwrap(), &mut rng), Ok(3));
    assert_eq!(interpret(&parse("4d1\\h2").unwrap(), &mut rng), Ok(2));
    assert_eq!(interpret(&parse("3d1^0").unwrap(), &mut rng), Ok(0));
    assert_eq!(interpret(&parse("3d1_2").unwrap(), &mut rng), Ok(6));
    assert_eq!(interpret(&parse("2d1b3").unwrap(), &mut rng), Ok(2));
    // rerolls of one-faced dice replace dice with fresh ones, all 1
    assert_eq!(interpret(&parse("3d1rr1").unwrap(), &mut rng), Ok(3));
    assert_eq!(interpret(&parse("4d1rl2").unwrap(), &mut rng), Ok(4));
    assert_eq!(interpret(&parse("4d1rh2").unwrap(), &mut rng), Ok(4));
    assert_eq!(interpret(&parse("2d1w3").unwrap(), &mut rng), Ok(2));
    // comparisons encode true as 1 and false as 2
    assert_eq!(interpret(&parse("1 < 2").unwrap(), &mut rng), Ok(1));
    assert_eq!(interpret(&parse("2 < 1").unwrap(), &mut rng), Ok(2));
    assert_eq!(interpret(&parse("3 == 3").unwrap(), &mut rng), Ok(1));
    assert_eq!(interpret(&parse("3 != 3").unwrap(), &mut rng), Ok(2));
    assert_eq!(interpret(&parse("1 < 2 and 3 > 2").unwrap(), &mut rng), Ok(1));
    assert_eq!(interpret(&parse("1 < 2 and 3 < 2").unwrap(), &mut rng), Ok(2));
    assert_eq!(interpret(&parse("1 > 2 or 2 > 1").unwrap(), &mut rng), Ok(1));
    // select: 1 falls through to the first arm, out-of-range keeps the
    // predicate's own value
    assert_eq!(interpret(&parse("[1 ? 5 : 7]").unwrap(), &mut rng), Ok(5));
    assert_eq!(interpret(&parse("[2 ? 5 : 7]").unwrap(), &mut rng), Ok(7));
    assert_eq!(interpret(&parse("[3 ? 5 : 7]").unwrap(), &mut rng), Ok(3));
    assert_eq!(interpret(&parse("[4 ? 5 : 7]").unwrap(), &mut rng), Ok(4));
    assert_eq!(interpret(&parse("[1+1 ? 5 6 : 7]").unwrap(), &mut rng), Ok(6));
}

#[test]
fn interpret_errors() {
    let mut rng = rand::rng();
    assert_eq!(
        interpret(&ir(vec![SudiceCode::Add]), &mut rng),
        Err(InterpError::StackUnderflow)
    );
    assert_eq!(
        interpret(&parse("3rr2").unwrap(), &mut rng),
        Err(InterpError::ShapeViolation)
    );
    assert_eq!(
        interpret(&parse("0d6").unwrap(), &mut rng),
        Err(InterpError::BadRoll)
    );
    assert_eq!(
        interpret(&parse("2d6\\l3").unwrap(), &mut rng),
        Err(InterpError::BadCount)
    );
    assert_eq!(
        interpret(&parse("1/0").unwrap(), &mut rng),
        Err(InterpError::DivisionError)
    );
    assert_eq!(
        interpret(
            &ir(vec![SudiceCode::Num(5), SudiceCode::Num(1), SudiceCode::BestOf(9)]),
            &mut rng,
        ),
        Err(InterpError::BadJump)
    );
}

#[test]
fn value_operations() {
    let mut rng = rand::rng();
    assert_eq!(SudiceValue::new(5).collapse(), 5);
    assert_eq!(
        SudiceValue::Vector(6, vec![2, 3, 5]).collapse(),
        10
    );
    assert_eq!(
        SudiceValue::new(3).add(SudiceValue::new(4)),
        SudiceValue::Scalar(7)
    );
    assert_eq!(
        SudiceValue::new(3).sub(SudiceValue::new(4)),
        SudiceValue::Scalar(-1)
    );
    assert_eq!(
        SudiceValue::new(3).mul(SudiceValue::new(4)),
        SudiceValue::Scalar(12)
    );
    assert_eq!(
        SudiceValue::new(-7).div(SudiceValue::new(2)),
        SudiceValue::Scalar(-3)
    );
    // sums follow the host's wrapping 64-bit arithmetic
    assert_eq!(
        SudiceValue::new(i64::MAX).add(1i64),
        SudiceValue::Scalar(i64::MIN)
    );
    assert_eq!(
        SudiceValue::Vector(6, vec![1, 2]).ceil(1i64),
        SudiceValue::Vector(6, vec![1, 1])
    );
    assert_eq!(
        SudiceValue::Vector(6, vec![1, 4]).floor(3i64),
        SudiceValue::Vector(6, vec![3, 4])
    );
    assert_eq!(SudiceValue::new(5).ceil(3i64), SudiceValue::Scalar(3));
    assert_eq!(SudiceValue::new(5).floor(7i64), SudiceValue::Scalar(7));
    assert_eq!(
        SudiceValue::Vector(6, vec![1, 3, 5]).drop_lowest(1i64),
        SudiceValue::Vector(6, vec![3, 5])
    );
    assert_eq!(
        SudiceValue::Vector(6, vec![1, 3, 5]).drop_highest(2i64),
        SudiceValue::Vector(6, vec![1])
    );
    assert!(!SudiceValue::new(2).into_bool());
    assert!(SudiceValue::new(1).into_bool());
    assert_eq!(SudiceValue::from_bool(true), SudiceValue::Scalar(1));
    assert_eq!(SudiceValue::from_bool(false), SudiceValue::Scalar(2));
    assert_eq!(
        SudiceValue::new(1).lt(SudiceValue::new(2)),
        SudiceValue::Scalar(1)
    );
    assert_eq!(
        SudiceValue::new(1).gt(SudiceValue::new(2)),
        SudiceValue::Scalar(2)
    );
    assert_eq!(
        SudiceValue::new(1).and(SudiceValue::new(1)),
        SudiceValue::Scalar(1)
    );
    assert_eq!(
        SudiceValue::new(1).or(SudiceValue::new(2)),
        SudiceValue::Scalar(1)
    );
    // a roll of one-faced dice is fully settled
    assert_eq!(
        SudiceValue::roll(3i64, 1i64, &mut rng),
        SudiceValue::Vector(1, vec![1, 1, 1])
    );
}

#[test]
fn sorted_preserved_by_every_mutation() {
    let mut rng = rand::rng();
    fn dice_of(v: &SudiceValue) -> Vec<i64> {
        match v {
            SudiceValue::Vector(_, d) => d.clone(),
            SudiceValue::Scalar(_) => panic!("expected a die group"),
        }
    }
    fn assert_sorted(v: &SudiceValue) {
        let d = dice_of(v);
        for i in 1..d.len() {
            assert!(d[i - 1] <= d[i]);
        }
    }
    let rolled = SudiceValue::roll(20i64, 6i64, &mut rng);
    assert_sorted(&rolled);
    let rerolled = rolled.reroll(3i64, &mut rng);
    assert_sorted(&rerolled);
    let relow = rerolled.reroll_lowest(5i64, &mut rng);
    assert_sorted(&relow);
    let rehigh = relow.reroll_highest(5i64, &mut rng);
    assert_sorted(&rehigh);
    let dropped = rehigh.drop_lowest(3i64);
    assert_sorted(&dropped);
    let dropped2 = dropped.drop_highest(3i64);
    assert_sorted(&dropped2);
    let capped = dropped2.ceil(4i64);
    assert_sorted(&capped);
    let floored = capped.floor(2i64);
    assert_sorted(&floored);
}

#[test]
fn ceil_twice_matches_ceil_of_smaller_bounds() {
    // clamping twice clamps by the smaller bound, so the two programs
    // share one envelope
    let twice = semantic_check(&parse("(3d6^4)^2").unwrap()).unwrap();
    let once = semantic_check(&parse("3d6^2").unwrap()).unwrap();
    assert_eq!(twice, once);
    assert_eq!(once, (3, 6));
}

#[test]
fn ceil_twice_is_ceil_of_smaller() {
    let v = SudiceValue::Vector(6, vec![1, 3, 5, 6]);
    let twice = v.clone().ceil(4i64).ceil(2i64);
    let once = v.ceil(2i64);
    assert_eq!(twice, once);
    let s = SudiceValue::Scalar(9).ceil(4i64).ceil(7i64);
    assert_eq!(s, SudiceValue::Scalar(9).ceil(4i64));
}

#[test]
fn zero_count_ops_are_no_ops() {
    let mut rng = rand::rng();
    let v = SudiceValue::Vector(6, vec![1, 3, 5]);
    assert_eq!(v.clone().drop_lowest(0i64), v);
    assert_eq!(v.clone().reroll_lowest(0i64, &mut rng), v);
    assert_eq!(v.clone().reroll_highest(0i64, &mut rng), v);
}

#[test]
fn samples_stay_inside_envelope() {
    // every sample lands in the checker's envelope: out-of-range samples
    // would abort the histogram
    let mut rng = rand::rng();
    for expr in ["3d6", "3d6\\h1", "1d20b2", "1d20w2", "2d8 - 3", "4d6rr1", "3d6rl2", "3d6rh2"] {
        let code = parse(expr).unwrap();
        let (min, max) = semantic_check(&code).unwrap();
        let hist = sample_histogram(&code, min, max, 500, &mut rng).unwrap();
        let total: u64 = hist.iter().sum();
        assert_eq!(total, 500);
        assert_eq!(hist.len() as i64, max - min + 1);
    }
}

#[test]
fn sampling_reports_failures() {
    let mut rng = rand::rng();
    let code = parse("2d6\\l3").unwrap();
    assert_eq!(
        sample_histogram(&code, 0, 10, 5, &mut rng),
        Err(SampleError::Interp(InterpError::BadCount))
    );
}

#[test]
fn checker_state_shape() {
    let mut st = CheckerState::new(4);
    assert_eq!(st.min_tos.collapse(), 0);
    st.push(CheckerValue::Scalar(3), CheckerValue::Scalar(5));
    assert_eq!(st.min_tos.collapse(), 3);
    assert_eq!(st.max_tos.collapse(), 5);
    st.push(CheckerValue::Vector(2, 1), CheckerValue::Vector(2, 6));
    assert_eq!(st.min_tos.collapse(), 2);
    assert_eq!(st.max_tos.collapse(), 12);
    st.pop();
    assert_eq!(st.min_tos.collapse(), 3);
    assert_eq!(st.max_tos.collapse(), 5);
    assert_eq!(st.min_s.len(), st.max_s.len());
    assert_eq!(CheckerValue::true_value(), CheckerValue::Scalar(1));
    assert_eq!(CheckerValue::false_value(), CheckerValue::Scalar(2));
}

#[test]
fn accumulator_fields() {
    let a = Accumulator::new(7, 2, 19);
    assert_eq!(a.ptr, 7);
    assert_eq!(a.count, 2);
    assert_eq!(a.value, 19);
}
