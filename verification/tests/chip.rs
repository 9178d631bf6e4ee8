use halo2_bigint_fib::chip::{
    close_region, AssignedInteger, BigIntChip, BigIntParams, RangeCheckTable, RegionContext,
    SynthesisError, UnassignedInteger, Violation,
};
use halo2_bigint_fib::limbs::{decompose, recompose};
use num_bigint::BigUint;

fn narrow_chip() -> BigIntChip {
    BigIntChip::new(BigIntParams::new(8, 32).unwrap())
}

#[test]
fn params_are_held_to_their_limits() {
    assert_eq!(BigIntParams::new(64, 512), Some(BigIntParams::standard()));
    assert_eq!(BigIntParams::standard().num_limbs(), 8);
    assert_eq!(BigIntParams::new(12, 100).unwrap().num_limbs(), 8);
    assert_eq!(BigIntParams::new(0, 512), None);
    assert_eq!(BigIntParams::new(65, 512), None);
    assert_eq!(BigIntParams::new(64, 63), None);
}

#[test]
fn range_table_holds_what_fits_a_limb() {
    let mut table = RangeCheckTable::configure(&BigIntParams::new(8, 32).unwrap());
    assert!(!table.loaded);
    assert!(table.contains(0));
    assert!(table.contains(255));
    assert!(!table.contains(256));
    table.load_table();
    assert!(table.loaded);
    let wide = RangeCheckTable::configure(&BigIntParams::standard());
    assert!(wide.contains(u64::MAX as u128));
    assert!(!wide.contains(1u128 << 64));
    assert!(!wide.contains(u128::MAX));
}

#[test]
fn assign_integer_advances_the_cursor_by_the_limbs() {
    let chip = narrow_chip();
    let mut ctx = RegionContext::new(16);
    let first = chip.assign_integer(&mut ctx, UnassignedInteger::from(vec![1, 2, 3, 4])).unwrap();
    assert_eq!(first.limbs, vec![1, 2, 3, 4]);
    assert_eq!(first.first_row, 0);
    assert_eq!(first.max_bits, 32);
    assert_eq!(ctx.offset, 4);
    let second = chip.assign_integer(&mut ctx, UnassignedInteger::from(vec![9, 9])).unwrap();
    assert_eq!(second.first_row, 4);
    assert_eq!(second.num_limbs(), 2);
    assert_eq!(ctx.offset, 6);
    assert!(ctx.is_satisfied());
}

#[test]
fn a_limb_that_does_not_fit_is_reported() {
    let chip = narrow_chip();
    let mut ctx = RegionContext::new(16);
    let _ = chip.assign_integer(&mut ctx, UnassignedInteger::from(vec![7, 7])).unwrap();
    let bad = chip.assign_integer(&mut ctx, UnassignedInteger::from(vec![255, 256, 3, 1000])).unwrap();
    assert!(!ctx.is_satisfied());
    assert_eq!(ctx.violations, vec![Violation::OutOfRange { row: 3 }, Violation::OutOfRange { row: 5 }]);
    assert_eq!(bad.limbs, vec![255, 0, 3, 1000 % 256]);
}

#[test]
fn a_limb_of_two_to_the_width_is_reported_by_the_mock_check() {
    for width in [1usize, 8, 32, 63, 64] {
        let mut chip = BigIntChip::new(BigIntParams::new(width, 64).unwrap());
        let mut ctx = RegionContext::new(16);
        let limb = 1u128 << width;
        let _ = chip.assign_integer(&mut ctx, UnassignedInteger::from(vec![0, limb])).unwrap();
        chip.table.load_table();
        assert_eq!(close_region(&chip, ctx), vec![Violation::OutOfRange { row: 1 }]);
    }
}

#[test]
fn a_region_without_room_is_left_as_it_is() {
    let chip = narrow_chip();
    let mut ctx = RegionContext::new(5);
    let a = chip.assign_integer(&mut ctx, UnassignedInteger::from(vec![1, 2, 3])).unwrap();
    let full = chip.assign_integer(&mut ctx, UnassignedInteger::from(vec![300, 2, 3]));
    assert!(matches!(full, Err(SynthesisError::NotEnoughRows)));
    assert_eq!(ctx.offset, 3);
    assert!(ctx.is_satisfied());
    assert!(matches!(chip.add(&mut ctx, &a, &a), Err(SynthesisError::NotEnoughRows)));
    assert!(matches!(chip.assign_constant(&mut ctx, &BigUint::from(1u8)), Err(SynthesisError::NotEnoughRows)));
    assert_eq!(ctx.offset, 3);
}

#[test]
fn add_carries_from_limb_to_limb() {
    let chip = narrow_chip();
    let mut ctx = RegionContext::new(64);
    let a = chip.assign_integer(&mut ctx, UnassignedInteger::from(vec![255, 255, 255, 255])).unwrap();
    let b = chip.assign_integer(&mut ctx, UnassignedInteger::from(vec![1, 0, 0, 0])).unwrap();
    let sum = chip.add(&mut ctx, &a, &b).unwrap();
    assert_eq!(sum.limbs, vec![0, 0, 0, 0, 1]);
    assert_eq!(sum.first_row, 8);
    assert_eq!(sum.max_bits, 33);
    assert_eq!(ctx.offset, 13);
    // A sum never has more than the one extra limb.
    let again = chip.add(&mut ctx, &sum, &a).unwrap();
    assert_eq!(again.limbs, vec![255, 255, 255, 255, 1]);
    assert_eq!(again.max_bits, 34);
    assert_eq!(ctx.offset, 18);
    assert!(ctx.is_satisfied());
}

#[test]
fn add_reports_the_carry_that_the_extra_limb_cannot_take() {
    let chip = narrow_chip();
    let mut ctx = RegionContext::new(128);
    let top = chip.assign_integer(&mut ctx, UnassignedInteger::from(vec![255, 255, 255, 255])).unwrap();
    // 2 * (2^32 - 1), doubled eight times more, is 2^41 - 512.
    let mut sum = chip.add(&mut ctx, &top, &top).unwrap();
    for _ in 0..7 {
        sum = chip.add(&mut ctx, &sum, &sum).unwrap();
        assert_eq!(sum.num_limbs(), 5);
    }
    assert_eq!(sum.limbs, vec![0, 255, 255, 255, 255]);
    assert_eq!(sum.max_bits, 40);
    assert!(ctx.is_satisfied());
    let row = ctx.offset;
    let lost = chip.add(&mut ctx, &sum, &sum).unwrap();
    assert_eq!(ctx.violations, vec![Violation::CarryLost { row: row + 4 }]);
    assert_eq!(lost.limbs, vec![0, 254, 255, 255, 255]);
    assert_eq!(lost.first_row, row);
    assert_eq!(lost.max_bits, 40);
    assert_eq!(ctx.offset, row + 5);
}

#[test]
fn a_limb_of_65_bits_is_reported_at_the_standard_width() {
    let chip = BigIntChip::new(BigIntParams::standard());
    let mut ctx = RegionContext::new(64);
    let mut limbs = vec![u64::MAX as u128; 8];
    let fits = chip.assign_integer(&mut ctx, UnassignedInteger::from(limbs.clone())).unwrap();
    assert_eq!(fits.limbs, limbs);
    assert!(ctx.is_satisfied());
    limbs[5] = 1u128 << 64;
    let cut = chip.assign_integer(&mut ctx, UnassignedInteger::from(limbs)).unwrap();
    assert_eq!(ctx.violations, vec![Violation::OutOfRange { row: 13 }]);
    assert_eq!(cut.limbs[5], 0);
    let by_hand = AssignedInteger { limbs: vec![1u128 << 64], first_row: 40, max_bits: 64 };
    chip.check_range(&mut ctx, &by_hand);
    assert_eq!(ctx.violations, vec![Violation::OutOfRange { row: 13 }, Violation::OutOfRange { row: 40 }]);
}

#[test]
fn check_range_reports_limbs_put_into_cells_by_hand() {
    let chip = narrow_chip();
    let mut ctx = RegionContext::new(64);
    let good = AssignedInteger { limbs: vec![1, 255, 0], first_row: 10, max_bits: 24 };
    chip.check_range(&mut ctx, &good);
    assert!(ctx.is_satisfied());
    let bad = AssignedInteger { limbs: vec![256, 7, u128::MAX], first_row: 20, max_bits: 24 };
    chip.check_range(&mut ctx, &bad);
    assert_eq!(ctx.violations, vec![Violation::OutOfRange { row: 20 }, Violation::OutOfRange { row: 22 }]);
    assert_eq!(ctx.offset, 0);
}

#[test]
fn add_of_operands_of_different_lengths() {
    let chip = narrow_chip();
    let mut ctx = RegionContext::new(64);
    let a = chip.assign_integer(&mut ctx, UnassignedInteger::from(vec![200])).unwrap();
    let b = chip.assign_integer(&mut ctx, UnassignedInteger::from(vec![100, 255, 7])).unwrap();
    let sum = chip.add(&mut ctx, &a, &b).unwrap();
    assert_eq!(sum.limbs, vec![44, 0, 8, 0]);
    let swapped = chip.add(&mut ctx, &b, &a).unwrap();
    assert_eq!(swapped.limbs, vec![44, 0, 8, 0]);
}

#[test]
fn add_recomposes_to_the_sum_of_512_bit_operands() {
    let chip = BigIntChip::new(BigIntParams::standard());
    let mut ctx = RegionContext::new(512);
    let a = (BigUint::from(1u8) << 511usize) - BigUint::from(1u8);
    let b = (BigUint::from(1u8) << 511usize) - BigUint::from(12345u32);
    let a_assigned = chip.assign_integer(&mut ctx, UnassignedInteger::from(decompose(&a, 8, 64))).unwrap();
    let b_assigned = chip.assign_integer(&mut ctx, UnassignedInteger::from(decompose(&b, 8, 64))).unwrap();
    let sum = chip.add(&mut ctx, &a_assigned, &b_assigned).unwrap();
    assert_eq!(sum.num_limbs(), 9);
    assert_eq!(recompose(&sum.limbs, 64), &a + &b);
    let expected = chip.assign_constant(&mut ctx, &(&a + &b)).unwrap();
    chip.assert_equal(&mut ctx, &expected, &sum);
    assert!(ctx.is_satisfied());
    assert_eq!(ctx.offset, 33);
}

#[test]
fn add_keeps_the_carry_out_of_the_top_limb() {
    let chip = BigIntChip::new(BigIntParams::standard());
    let mut ctx = RegionContext::new(512);
    let top = (BigUint::from(1u8) << 512usize) - BigUint::from(1u8);
    let a = chip.assign_constant(&mut ctx, &top).unwrap();
    let b = chip.assign_constant(&mut ctx, &top).unwrap();
    let sum = chip.add(&mut ctx, &a, &b).unwrap();
    assert_eq!(sum.limbs[8], 1);
    assert_eq!(recompose(&sum.limbs, 64), &top + &top);
}

#[test]
fn assign_constant_binds_the_limbs_of_the_constant() {
    let chip = narrow_chip();
    let mut ctx = RegionContext::new(16);
    let constant = chip.assign_constant(&mut ctx, &BigUint::from(0x0102_0304u32)).unwrap();
    assert_eq!(constant.limbs, vec![4, 3, 2, 1]);
    assert_eq!(ctx.offset, 4);
    let cut = chip.assign_constant(&mut ctx, &BigUint::from(0x05_0102_0304u64)).unwrap();
    assert_eq!(cut.limbs, vec![4, 3, 2, 1]);
    assert!(ctx.is_satisfied());
}

#[test]
fn assert_equal_reports_each_limb_that_differs() {
    let chip = narrow_chip();
    let mut ctx = RegionContext::new(64);
    let x = chip.assign_integer(&mut ctx, UnassignedInteger::from(vec![1, 2, 3, 4])).unwrap();
    let y = chip.assign_integer(&mut ctx, UnassignedInteger::from(vec![1, 5, 3, 6])).unwrap();
    let before = ctx.offset;
    chip.assert_equal(&mut ctx, &x, &x);
    assert!(ctx.is_satisfied());
    chip.assert_equal(&mut ctx, &x, &y);
    assert_eq!(ctx.violations, vec![Violation::NotEqual { limb: 1 }, Violation::NotEqual { limb: 3 }]);
    assert_eq!(ctx.offset, before);
}

#[test]
fn assert_equal_reads_the_shorter_integer_with_zero_limbs() {
    let chip = narrow_chip();
    let mut ctx = RegionContext::new(64);
    let short = chip.assign_integer(&mut ctx, UnassignedInteger::from(vec![9, 8])).unwrap();
    let padded = chip.assign_integer(&mut ctx, UnassignedInteger::from(vec![9, 8, 0, 0])).unwrap();
    let longer = chip.assign_integer(&mut ctx, UnassignedInteger::from(vec![9, 8, 0, 1])).unwrap();
    chip.assert_equal(&mut ctx, &short, &padded);
    chip.assert_equal(&mut ctx, &padded, &short);
    assert!(ctx.is_satisfied());
    chip.assert_equal(&mut ctx, &short, &longer);
    assert_eq!(ctx.violations, vec![Violation::NotEqual { limb: 3 }]);
}

#[test]
fn an_integer_can_be_written_by_hand() {
    let value = AssignedInteger { limbs: vec![5, 6], first_row: 0, max_bits: 16 };
    assert_eq!(value.num_limbs(), 2);
    assert_eq!(recompose(&value.limbs, 8), BigUint::from(0x0605u32));
}
