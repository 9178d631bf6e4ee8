use halo2_bigint_fib::bi_sum::BigSumCircuit;
use halo2_bigint_fib::chip::{
    close_region, region_rows, BigIntChip, BigIntParams, RegionContext, SynthesisError, Violation,
};
use halo2_bigint_fib::fib_bi::{
    calc_k, keygen_instance, run, Action, Backend, BigFibCircuit, Phase, RunPlan,
};
use halo2_bigint_fib::limbs::recompose;
use halo2_bigint_fib::search::{search_k, KSearch, START_K};
use halo2_bigint_fib::utils::big_fib_calc;
use num_bigint::{BigUint, RandomBits};
use rand::{thread_rng, Rng};

fn drive(plan: &RunPlan) -> (Phase, Vec<Action>) {
    let mut phase = Phase::Ready;
    let mut actions = Vec::new();
    loop {
        let action = plan.action(phase);
        actions.push(action);
        let ok = match action {
            Action::MockCheck => plan.mock_check(),
            Action::Stop => return (plan.advance(phase, true), actions),
            _ => true,
        };
        phase = plan.advance(phase, ok);
    }
}

#[test]
fn bi_sum_test() {
    let mut rng = thread_rng();
    let bits_len = 512u64;
    let mut n = BigUint::default();
    while n.bits() != bits_len {
        n = rng.sample(RandomBits::new(bits_len));
    }
    let a = rng.sample::<BigUint, _>(RandomBits::new(bits_len)) % &n / BigUint::from(2u8);
    let b = rng.sample::<BigUint, _>(RandomBits::new(bits_len)) % &n / BigUint::from(2u8);
    let circuit = BigSumCircuit { a, b };

    let k = 9;
    let report = match circuit.mock_check(k) {
        Ok(report) => report,
        Err(e) => panic!("{:#?}", e),
    };
    assert_eq!(report.is_empty(), true);
}

#[test]
fn fib_bi_test() {
    let plan = run(false, true, 50);
    let (phase, _) = drive(&plan);
    assert_eq!(phase, Phase::Done);
}

#[test]
fn sum_circuit_takes_33_rows() {
    let circuit = BigSumCircuit { a: BigUint::from(3u8), b: BigUint::from(4u8) };
    assert!(matches!(circuit.mock_check(5), Err(SynthesisError::NotEnoughRows)));
    assert_eq!(circuit.mock_check(6), Ok(vec![]));
    assert!(matches!(circuit.mock_check(32), Err(SynthesisError::CapacityTooLarge)));
    let mut chip = circuit.bigint_chip(BigSumCircuit::configure());
    let mut ctx = RegionContext::new(100);
    assert_eq!(circuit.synthesize(&mut chip, &mut ctx), Ok(()));
    assert_eq!(ctx.offset, 33);
    assert!(chip.table.loaded);
}

#[test]
fn sum_circuit_fails_where_the_sum_passes_512_bits() {
    let half = BigUint::from(1u8) << 511usize;
    let fits = BigSumCircuit { a: &half - BigUint::from(1u8), b: half.clone() };
    assert_eq!(fits.mock_check(9), Ok(vec![]));
    let over = BigSumCircuit { a: half.clone(), b: half.clone() };
    assert_eq!(over.mock_check(9), Ok(vec![Violation::NotEqual { limb: 8 }]));
}

#[test]
fn region_rows_is_a_power_of_two() {
    assert_eq!(region_rows(0), 1);
    assert_eq!(region_rows(9), 512);
    assert_eq!(region_rows(31), 1usize << 31);
}

#[test]
fn a_table_that_was_never_loaded_is_reported() {
    let chip = BigIntChip::new(BigIntParams::standard());
    let mut ctx = RegionContext::new(64);
    assert_eq!(close_region(&chip, RegionContext::new(64)), vec![]);
    let _ = chip.assign_constant(&mut ctx, &BigUint::from(1u8)).unwrap();
    assert_eq!(close_region(&chip, ctx), vec![Violation::TableNotLoaded]);
}

#[test]
fn fib_chain_is_satisfied_at_the_estimated_capacity() {
    for n in [2usize, 3, 50, 180] {
        let circuit = BigFibCircuit {
            init_a: BigUint::from(0u8),
            init_b: BigUint::from(1u8),
            final_sum: big_fib_calc(n),
            n,
            check_final: false,
        };
        assert_eq!(circuit.mock_check(calc_k(n)), Ok(vec![]));
    }
}

#[test]
fn fib_chain_ends_on_the_fibonacci_number() {
    for n in [0usize, 1, 2, 3, 10, 50, 180, 300] {
        let circuit = BigFibCircuit {
            init_a: BigUint::from(0u8),
            init_b: BigUint::from(1u8),
            final_sum: BigUint::from(0u8),
            n,
            check_final: false,
        };
        let mut chip = circuit.bigint_chip(BigFibCircuit::configure());
        let mut ctx = RegionContext::new(1 << 20);
        let last = circuit.synthesize(&mut chip, &mut ctx).unwrap();
        assert_eq!(recompose(&last.limbs, 64), big_fib_calc(n));
        let adds = if n < 2 { 1 } else { n - 1 };
        assert_eq!(last.num_limbs(), 9);
        assert_eq!(ctx.offset, 16 + 9 * adds);
        assert!(ctx.is_satisfied());
        assert!(chip.table.loaded);
    }
}

#[test]
fn fib_chain_from_other_initial_values() {
    let circuit = BigFibCircuit {
        init_a: BigUint::from(2u8),
        init_b: BigUint::from(1u8),
        final_sum: BigUint::from(123u8),
        n: 10,
        check_final: true,
    };
    // The Lucas numbers: 2, 1, 3, 4, 7, 11, 18, 29, 47, 76, 123.
    assert_eq!(circuit.mock_check(10), Ok(vec![]));
}

#[test]
fn fib_chain_with_a_final_check() {
    let right = BigFibCircuit {
        init_a: BigUint::from(0u8),
        init_b: BigUint::from(1u8),
        final_sum: big_fib_calc(50),
        n: 50,
        check_final: true,
    };
    assert_eq!(right.mock_check(11), Ok(vec![]));
    let wrong = BigFibCircuit {
        init_a: BigUint::from(0u8),
        init_b: BigUint::from(1u8),
        final_sum: big_fib_calc(50) + BigUint::from(1u8),
        n: 50,
        check_final: true,
    };
    assert_eq!(wrong.mock_check(11), Ok(vec![Violation::NotEqual { limb: 0 }]));
    let unchecked = BigFibCircuit {
        init_a: BigUint::from(0u8),
        init_b: BigUint::from(1u8),
        final_sum: big_fib_calc(50) + BigUint::from(1u8),
        n: 50,
        check_final: false,
    };
    assert_eq!(unchecked.mock_check(11), Ok(vec![]));
}

#[test]
fn every_step_of_the_chain_takes_the_same_rows() {
    let rows_of = |n: usize| {
        let circuit = run(false, true, n).circuit;
        let mut chip = circuit.bigint_chip(BigFibCircuit::configure());
        let mut ctx = RegionContext::new(1 << 20);
        circuit.synthesize(&mut chip, &mut ctx).unwrap();
        ctx.offset
    };
    assert_eq!(rows_of(2), 25);
    assert_eq!(rows_of(3), 34);
    assert_eq!(rows_of(4), 43);
    assert_eq!(rows_of(180) - rows_of(179), 9);
}

#[test]
fn a_chain_that_outgrows_the_extra_limb_is_reported() {
    assert_eq!(run(false, true, 831).circuit.mock_check(13), Ok(vec![]));
    assert_eq!(run(false, true, 832).circuit.mock_check(13), Ok(vec![Violation::CarryLost { row: 7494 }]));
    let top = (BigUint::from(1u8) << 512usize) - BigUint::from(1u8);
    let wide = |n: usize| BigFibCircuit {
        init_a: top.clone(),
        init_b: top.clone(),
        final_sum: BigUint::from(0u8),
        n,
        check_final: false,
    };
    assert_eq!(wide(92).mock_check(12), Ok(vec![]));
    assert_eq!(wide(93).mock_check(12), Ok(vec![Violation::CarryLost { row: 843 }]));
    assert_eq!(
        wide(96).mock_check(12),
        Ok(vec![Violation::CarryLost { row: 843 }, Violation::CarryLost { row: 870 }])
    );
}

#[test]
fn a_failing_layout_leaves_the_range_table_alone() {
    let circuit = run(false, true, 50).circuit;
    let mut chip = circuit.bigint_chip(BigFibCircuit::configure());
    let mut ctx = RegionContext::new(100);
    assert!(matches!(circuit.synthesize(&mut chip, &mut ctx), Err(SynthesisError::NotEnoughRows)));
    assert!(!chip.table.loaded);
    let sum = BigSumCircuit { a: BigUint::from(1u8), b: BigUint::from(2u8) };
    let mut chip = sum.bigint_chip(BigSumCircuit::configure());
    let mut ctx = RegionContext::new(30);
    assert_eq!(sum.synthesize(&mut chip, &mut ctx), Err(SynthesisError::NotEnoughRows));
    assert!(!chip.table.loaded);
}

#[test]
fn fib_chain_without_room() {
    let circuit = run(false, true, 50).circuit;
    // 16 rows for the initial integers and 9 for each of the 49 additions.
    assert!(matches!(circuit.mock_check(8), Err(SynthesisError::NotEnoughRows)));
    assert_eq!(circuit.mock_check(9), Ok(vec![]));
    assert!(matches!(circuit.mock_check(40), Err(SynthesisError::CapacityTooLarge)));
}

#[test]
fn calc_k_values() {
    assert_eq!(calc_k(0), 1);
    assert_eq!(calc_k(1), 10);
    assert_eq!(calc_k(2), 11);
    assert_eq!(calc_k(3), 12);
    assert_eq!(calc_k(50), 16);
    assert_eq!(calc_k(131), 17);
    assert_eq!(calc_k(180), 18);
    assert_eq!(calc_k(1984), 21);
}

#[test]
fn run_plans_the_chain_from_0_and_1() {
    let plan = run(true, false, 180);
    assert_eq!(plan.circuit.init_a, BigUint::from(0u8));
    assert_eq!(plan.circuit.init_b, BigUint::from(1u8));
    assert_eq!(plan.circuit.final_sum, big_fib_calc(180));
    assert_eq!(plan.circuit.n, 180);
    assert!(!plan.circuit.check_final);
    assert_eq!(plan.k, 18);
    assert_eq!(plan.backend, Backend::Prove);
    assert!(plan.plot);
    assert_eq!(run(false, true, 3).backend, Backend::Mock);
}

#[test]
fn a_mock_run_checks_and_stops() {
    let (phase, actions) = drive(&run(false, true, 3));
    assert_eq!(phase, Phase::Done);
    assert_eq!(actions, vec![Action::MockCheck, Action::Stop]);
    let (phase, actions) = drive(&run(true, true, 3));
    assert_eq!(phase, Phase::Done);
    assert_eq!(actions, vec![Action::MockCheck, Action::Plot, Action::Stop]);
}

#[test]
fn a_proving_run_makes_keys_and_a_proof_and_verifies_it() {
    let (phase, actions) = drive(&run(true, false, 3));
    assert_eq!(phase, Phase::Done);
    assert_eq!(
        actions,
        vec![Action::Keygen, Action::CreateProof, Action::VerifyProof, Action::Plot, Action::Stop]
    );
}

#[test]
fn a_run_fails_with_its_first_failure() {
    let plan = run(true, false, 3);
    for phase in [Phase::Ready, Phase::KeysReady, Phase::ProofReady, Phase::Checked, Phase::Failed] {
        assert_eq!(plan.advance(phase, false), Phase::Failed);
    }
    assert_eq!(plan.advance(Phase::Done, false), Phase::Done);
    assert_eq!(plan.advance(Phase::Failed, true), Phase::Failed);
    assert_eq!(plan.action(Phase::Failed), Action::Stop);
    // A chain without room fails its mock run.
    let mut small = run(false, true, 50);
    small.k = 8;
    assert!(!small.mock_check());
    assert_eq!(drive(&small).0, Phase::Failed);
}

#[test]
fn keys_come_from_the_chain_without_witnesses() {
    let circuit = keygen_instance(50);
    assert_eq!(circuit.init_a, BigUint::from(0u8));
    assert_eq!(circuit.init_b, BigUint::from(0u8));
    assert_eq!(circuit.final_sum, BigUint::from(0u8));
    assert_eq!(circuit.n, 50);
    assert!(!circuit.check_final);
    // The keys are those of the shape of the circuit that is proved.
    let proved = run(false, false, 50).circuit;
    let rows_of = |circuit: &BigFibCircuit| {
        let mut chip = circuit.bigint_chip(BigFibCircuit::configure());
        let mut ctx = RegionContext::new(1 << 20);
        circuit.synthesize(&mut chip, &mut ctx).unwrap();
        ctx.offset
    };
    assert_eq!(rows_of(&circuit), rows_of(&proved));
    assert_eq!(circuit.mock_check(9), Ok(vec![]));
    assert_eq!(keygen_instance(0).n, 0);
}

#[test]
fn search_raises_the_capacity_and_never_lowers_it() {
    let trace = search_k(500, 50);
    assert_eq!(
        trace,
        vec![(50, 9), (100, 10), (150, 11), (200, 11), (250, 12), (300, 12), (350, 12), (400, 12), (450, 12)]
    );
    assert!(trace.windows(2).all(|pair| pair[0].0 < pair[1].0 && pair[0].1 <= pair[1].1));
    assert_eq!(search_k(10, 3), vec![(3, 6), (6, 6), (9, 7)]);
    // A chain of 900 steps loses a carry at every capacity: the search gives up.
    assert_eq!(search_k(1000, 450), vec![(450, 12)]);
    assert_eq!(search_k(50, 50), vec![]);
    assert_eq!(search_k(500, 0), vec![]);
}

#[test]
fn search_steps() {
    let mut search = KSearch::new(120, 50);
    assert_eq!(search.pending(), Some((50, START_K)));
    search.record(false);
    assert_eq!(search.pending(), Some((50, 6)));
    search.record(true);
    assert_eq!(search.pending(), Some((100, 6)));
    search.record(true);
    assert_eq!(search.pending(), None);
    assert_eq!(search.n, 120);
    assert_eq!(search.k, 6);
    let mut top = KSearch { max_n: 100, stride: 1, n: 1, k: 31 };
    top.record(false);
    assert_eq!(top.pending(), None);
}
