use halo2_bigint_fib::limbs::{decompose, pow2_u128, recompose, regroup};
use num_bigint::BigUint;
use std::str::FromStr;

#[test]
fn decompose_splits_least_significant_first() {
    let value = BigUint::from(0x0123_4567_89ab_cdefu64);
    assert_eq!(decompose(&value, 4, 16), vec![0xcdef, 0x89ab, 0x4567, 0x0123]);
    assert_eq!(decompose(&value, 8, 8), vec![0xef, 0xcd, 0xab, 0x89, 0x67, 0x45, 0x23, 0x01]);
    assert_eq!(decompose(&value, 3, 64), vec![0x0123_4567_89ab_cdef, 0, 0]);
}

#[test]
fn decompose_with_a_width_that_straddles_digits() {
    // 2^40 + 5 in limbs of 12 bits: 5, 0, 0, 16 (2^40 = 16 * 2^36).
    let value = (BigUint::from(1u8) << 40usize) + BigUint::from(5u8);
    assert_eq!(decompose(&value, 5, 12), vec![5, 0, 0, 16, 0]);
}

#[test]
fn decompose_leaves_out_the_bits_that_do_not_fit() {
    let value = BigUint::from(0x1_ffffu64);
    assert_eq!(decompose(&value, 2, 8), vec![0xff, 0xff]);
    assert_eq!(decompose(&value, 0, 8), Vec::<u128>::new());
}

#[test]
fn decompose_of_zero() {
    assert_eq!(decompose(&BigUint::from(0u8), 8, 64), vec![0u128; 8]);
}

#[test]
fn recompose_sums_the_limbs_at_their_places() {
    assert_eq!(recompose(&vec![0xcdef, 0x89ab, 0x4567, 0x0123], 16), BigUint::from(0x0123_4567_89ab_cdefu64));
    assert_eq!(recompose(&vec![1, 1], 64), (BigUint::from(1u8) << 64usize) + BigUint::from(1u8));
    assert_eq!(recompose(&vec![], 64), BigUint::from(0u8));
    // A limb wider than the width still counts with its full value.
    assert_eq!(recompose(&vec![300, 1], 8), BigUint::from(556u32));
    assert_eq!(recompose(&vec![u128::MAX], 64), BigUint::from(u128::MAX));
}

#[test]
fn round_trip_of_a_512_bit_value() {
    let value = BigUint::from_str(
        "13407807929942597099574024998205846127479365820592393377723561443721764030073546976801874298166903427690031858186486050853753882811946569946433649006084095",
    )
    .unwrap();
    assert_eq!(value.bits(), 512);
    let limbs = decompose(&value, 8, 64);
    assert_eq!(limbs, vec![u64::MAX as u128; 8]);
    assert_eq!(recompose(&limbs, 64), value);
}

#[test]
fn round_trip_for_several_widths() {
    let value = BigUint::from_str("222232244629420445529739893461909967206666939096499764990979600").unwrap();
    for width in [1usize, 7, 12, 31, 32, 33, 63, 64] {
        let num_limbs = 512 / width;
        assert!(value.bits() <= (num_limbs * width) as u64);
        let limbs = decompose(&value, num_limbs, width);
        assert_eq!(limbs.len(), num_limbs);
        assert!(limbs.iter().all(|limb| *limb < (1u128 << width)));
        assert_eq!(recompose(&limbs, width), value);
    }
}

#[test]
fn regroup_changes_the_limb_width() {
    assert_eq!(regroup(&vec![0xef, 0xcd, 0xab], 8, 12, 2), vec![0xdef, 0xabc]);
    assert_eq!(regroup(&vec![0xdef, 0xabc], 12, 8, 4), vec![0xef, 0xcd, 0xab, 0]);
}

#[test]
fn pow2_u128_values() {
    assert_eq!(pow2_u128(0), 1);
    assert_eq!(pow2_u128(64), 1u128 << 64);
    assert_eq!(pow2_u128(127), 1u128 << 127);
}
