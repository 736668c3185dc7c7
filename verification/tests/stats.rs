//! The baseline statistical suite: parse an expression, derive its
//! envelope, sample it, and hold the empirical statistics to the
//! expected values within two percent.

use sudice::checker::semantic_check;
use sudice::estimator::sample_histogram;
use sudice::parser::parse;

const OBS_FACTOR: usize = 10000;

// Do not use any expr with an EV/SD of 0 for testing since results
// are based on percent error off actual EV/SD.
fn check_expr(expr: &'static str, ev: f64, sd: f64, range: i64) {
    let code = parse(expr).expect("parse failed");
    let (min, max) = match semantic_check(&code) {
        Ok(b) => b,
        Err(e) => panic!("Semantic check failed: {:?}", e),
    };
    assert!(max - min + 1 == range);
    let size = (max - min + 1) as usize;
    let total = size * OBS_FACTOR;
    let mut rng = rand::rng();
    let hist = sample_histogram(&code, min, max, total, &mut rng).expect("sampling failed");
    let mut emp_ev = 0.0_f64;
    for i in 0..size {
        let p = hist[i] as f64 / total as f64;
        emp_ev += (min + i as i64) as f64 * p;
    }
    let mut var = 0.0_f64;
    for i in 0..size {
        let x = (min + i as i64) as f64 - emp_ev;
        var += x * x * (hist[i] as f64 / total as f64);
    }
    let emp_sd = var.sqrt();
    if ev < 0.0 {
        assert!(emp_ev >= ev * 1.02 && emp_ev <= ev * 0.98);
    } else {
        assert!(emp_ev <= ev * 1.02 && emp_ev >= ev * 0.98);
    }
    assert!(emp_sd <= sd * 1.02 && emp_sd >= sd * 0.98);
}

#[test]
fn simple_rolls() {
    check_expr("1d6", 3.5, 1.708, 6);
    check_expr("3d6", 10.5, 2.958, 16);
}

#[test]
fn arithmetic() {
    check_expr("3 + 7", 10.0, 0.0, 1);
    check_expr("3 - 7", -4.0, 0.0, 1);
    check_expr("3 * 7", 21.0, 0.0, 1);
    check_expr("21 / 7", 3.0, 0.0, 1);
}

#[test]
fn rolls_with_sum() {
    check_expr("2d8 - 3", 6.0, 3.240, 15);
    check_expr("2+4d4", 12.0, 2.236, 13);
    check_expr("1d20-1d20+20", 20.0, 8.15, 39);
}

#[test]
fn rolls_with_mult() {
    check_expr("10*1d2+2d6-11", 11.0, 5.55, 21);
    check_expr("1d6*1d6", 12.25, 8.94, 36);
    check_expr("1d6/1d6", 1.14, 1.46, 7);
}

#[test]
fn rolls_with_drop() {
    check_expr("3d6\\h1", 5.54, 2.215, 11);
    check_expr("4d6\\l1", 12.24, 2.847, 16);
}

#[test]
fn rolls_with_iteration() {
    check_expr("1d20b2", 13.82, 4.71, 20);
    check_expr("1d20w2", 7.17, 4.71, 20);
}
