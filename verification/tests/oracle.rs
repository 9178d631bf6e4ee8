use halo2_bigint_fib::utils::{big_fib_calc, fib_calc};
use num_bigint::BigUint;
use std::str::FromStr;

#[test]
fn big_fib_calc_no_overflow() {
    let expect = BigUint::from_str("222232244629420445529739893461909967206666939096499764990979600").unwrap();
    assert_eq!(big_fib_calc(300), expect);
}

#[test]
fn fib_calc_small_values() {
    assert_eq!(fib_calc(0), 1);
    assert_eq!(fib_calc(1), 1);
    assert_eq!(fib_calc(2), 1);
    assert_eq!(fib_calc(3), 2);
    assert_eq!(fib_calc(10), 55);
    assert_eq!(fib_calc(50), 12586269025);
}

#[test]
fn fib_calc_largest_step_count() {
    assert_eq!(fib_calc(185), 205697230343233228174223751303346572685u128);
}

#[test]
fn fib_calc_agrees_with_big_fib_calc() {
    for n in 0..=185usize {
        assert_eq!(BigUint::from(fib_calc(n)), big_fib_calc(n));
    }
}
