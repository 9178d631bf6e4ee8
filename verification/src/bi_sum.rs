//! The single-addition circuit: two operands, their sum by the chip's adder,
//! and the expected sum as a constant that the adder's result is pinned to.

use crate::adder::{
    equality_failures, lemma_equal_iff_same_value, lemma_ripple_sum, longer, ripple_sum,
};
use crate::bigint::{big_sum, big_value};
use crate::chip::{
    close_region, lemma_range_enforced, region_rows, AssignedInteger, BigIntChip, BigIntParams,
    RegionContext, SynthesisError, UnassignedInteger, Violation, MAX_K,
};
use crate::limbs::{
    decompose, decompose_spec, lemma_decompose_in_range, lemma_decompose_value,
    lemma_value_bound, limbs_value,
};
use num_bigint::BigUint;
use vstd::arithmetic::div_mod::lemma_small_mod;
use vstd::arithmetic::power2::{lemma_pow2_pos, pow2};
use vstd::prelude::*;

verus! {

/// Two operands whose sum the circuit certifies.
pub struct BigSumCircuit {
    pub a: BigUint,
    pub b: BigUint,
}

impl BigSumCircuit {
    /// The rows that the circuit takes: two operands, their sum with its one
    /// limb more, and the expected sum.
    pub open spec fn rows_needed(limbs: nat) -> nat {
        4 * limbs + 1
    }

    /// The limbs of the sum that the adder gives for the two operands.
    pub open spec fn added(&self, params: BigIntParams) -> Seq<u128> {
        ripple_sum(
            decompose_spec(big_value(self.a), params.limbs(), params.limb_width as nat),
            decompose_spec(big_value(self.b), params.limbs(), params.limb_width as nat),
            0,
            params.limb_width as nat,
        )
    }

    /// The limbs of the expected sum, the constant that the result is held to.
    pub open spec fn expected(&self, params: BigIntParams) -> Seq<u128> {
        decompose_spec(
            big_value(self.a) + big_value(self.b),
            params.limbs(),
            params.limb_width as nat,
        )
    }

    /// The violations of the circuit: the limbs at which the adder's result
    /// and the expected sum differ.
    pub open spec fn failures(&self, params: BigIntParams) -> Seq<Violation> {
        equality_failures(
            self.expected(params),
            self.added(params),
            longer(self.expected(params).len(), self.added(params).len()),
        )
    }

    /// The configuration of the circuit: limbs of 64 bits, integers of 512.
    pub fn configure() -> (config: BigIntParams)
        ensures
            config == BigIntParams::standard(),
            config.wf(),
            config.limbs() == 8,
    {
        BigIntParams::standard()
    }

    /// The chip for a configuration.
    pub fn bigint_chip(&self, config: BigIntParams) -> (chip: BigIntChip)
        requires
            config.wf(),
        ensures
            chip.wf(),
            chip.params == config,
            !chip.table.loaded,
    {
        BigIntChip::new(config)
    }

    /// Lays the circuit out in the region: binds the two operands, adds them,
    /// binds the expected sum as a constant and asserts the two equal, then
    /// loads the range table.
    pub fn synthesize(&self, chip: &mut BigIntChip, ctx: &mut RegionContext) -> (r: Result<
        (),
        SynthesisError,
    >)
        requires
            old(chip).wf(),
            old(ctx).wf(),
        ensures
            final(chip).wf(),
            final(chip).params == old(chip).params,
            final(ctx).wf(),
            final(ctx).rows == old(ctx).rows,
            old(ctx).offset <= final(ctx).offset,
            r is Ok <==> old(ctx).offset + Self::rows_needed(old(chip).params.limbs()) <= old(
                ctx,
            ).rows,
            r matches Err(e) ==> e == SynthesisError::NotEnoughRows && final(ctx).violations@
                == old(ctx).violations@ && final(chip).table == old(chip).table,
            r is Ok ==> {
                &&& final(chip).table.loaded
                &&& final(chip).table.limb_bits == old(chip).table.limb_bits
                &&& final(ctx).offset == old(ctx).offset + Self::rows_needed(
                    old(chip).params.limbs(),
                )
                &&& final(ctx).violations@ == old(ctx).violations@ + self.failures(
                    old(chip).params,
                )
            },
    {
        let num_limbs: usize = chip.params.num_limbs();
        let limb_width: usize = chip.params.limb_width;
        let sum: BigUint = big_sum(&self.a, &self.b);
        let a_limbs: Vec<u128> = decompose(&self.a, num_limbs, limb_width);
        let a_unassigned: UnassignedInteger = UnassignedInteger::from(a_limbs);
        let b_limbs: Vec<u128> = decompose(&self.b, num_limbs, limb_width);
        let b_unassigned: UnassignedInteger = UnassignedInteger::from(b_limbs);
        proof {
            lemma_range_enforced(a_unassigned.limbs@, chip.width(), ctx.offset as nat);
            lemma_range_enforced(
                b_unassigned.limbs@,
                chip.width(),
                (ctx.offset + num_limbs) as nat,
            );
        }
        let a_assigned: AssignedInteger = match chip.assign_integer(ctx, a_unassigned) {
            Ok(x) => x,
            Err(e) => {
                return Err(e);
            },
        };
        let b_assigned: AssignedInteger = match chip.assign_integer(ctx, b_unassigned) {
            Ok(x) => x,
            Err(e) => {
                return Err(e);
            },
        };
        proof {
            let width = chip.width();
            let count = chip.params.limbs();
            let whole = ripple_sum(a_assigned.limbs@, b_assigned.limbs@, 0, width);
            lemma_ripple_sum(a_assigned.limbs@, b_assigned.limbs@, 0, width);
            assert(whole.take((count + 1) as int) =~= whole);
            lemma_value_bound(a_assigned.limbs@, width);
            lemma_value_bound(b_assigned.limbs@, width);
            lemma_value_bound(whole, width);
            assert(ctx.violations@ + Seq::<Violation>::empty() =~= ctx.violations@);
        }
        let added: AssignedInteger = match chip.add(ctx, &a_assigned, &b_assigned) {
            Ok(x) => x,
            Err(e) => {
                return Err(e);
            },
        };
        let sum_assigned_int: AssignedInteger = match chip.assign_constant(ctx, &sum) {
            Ok(x) => x,
            Err(e) => {
                return Err(e);
            },
        };
        chip.assert_equal(ctx, &sum_assigned_int, &added);
        chip.table.load_table();
        Ok(())
    }

    /// Lays the circuit out in a fresh region of 2^k rows and reports the
    /// violations; none means that the circuit is satisfied. The rows are the
    /// library's own count, one row for each limb bound to a cell; they are
    /// not the rows that a proving backend lays out for the same circuit.
    pub fn mock_check(&self, k: u32) -> (r: Result<Vec<Violation>, SynthesisError>)
        ensures
            r is Ok <==> k <= MAX_K && Self::rows_needed(8) <= pow2(k as nat),
            r matches Err(e) ==> (e == SynthesisError::CapacityTooLarge <==> k > MAX_K),
            r matches Ok(report) ==> report@ == self.failures(BigIntParams::standard()),
    {
        if k > MAX_K {
            return Err(SynthesisError::CapacityTooLarge);
        }
        let config: BigIntParams = Self::configure();
        let mut chip: BigIntChip = self.bigint_chip(config);
        let mut ctx: RegionContext = RegionContext::new(region_rows(k));
        match self.synthesize(&mut chip, &mut ctx) {
            Ok(()) => {
                proof {
                    assert(ctx.violations@ =~= self.failures(config));
                }
                Ok(close_region(&chip, ctx))
            },
            Err(e) => Err(e),
        }
    }
}

/// Addition correctness: the adder's result spells the sum of the two
/// operands as the circuit holds them, and the circuit is free of violations
/// exactly if that is the expected sum as the circuit holds it. Operands
/// whose sum fits the width of the integers are held whole, and so is their
/// sum: the circuit is satisfied, and the adder's result spells their sum.
pub proof fn lemma_sum_circuit(circuit: BigSumCircuit, params: BigIntParams)
    requires
        params.wf(),
    ensures
        ({
            let a = big_value(circuit.a);
            let b = big_value(circuit.b);
            let width = params.limb_width as nat;
            let held = pow2(params.limbs() * width);
            &&& limbs_value(circuit.added(params), width) == a % held + b % held
            &&& circuit.failures(params).len() == 0 <==> a % held + b % held == (a + b) % held
            &&& a + b < held ==> circuit.failures(params).len() == 0 && limbs_value(
                circuit.added(params),
                width,
            ) == a + b
        }),
{
    let a = big_value(circuit.a);
    let b = big_value(circuit.b);
    let width = params.limb_width as nat;
    let count = params.limbs();
    let held = pow2(count * width);
    let la = decompose_spec(a, count, width);
    let lb = decompose_spec(b, count, width);
    lemma_decompose_value(a, count, width);
    lemma_decompose_value(b, count, width);
    lemma_decompose_value(a + b, count, width);
    lemma_decompose_in_range(a, count, width);
    lemma_decompose_in_range(b, count, width);
    lemma_decompose_in_range(a + b, count, width);
    lemma_ripple_sum(la, lb, 0, width);
    lemma_equal_iff_same_value(circuit.expected(params), circuit.added(params), width);
    lemma_pow2_pos(count * width);
    if a + b < held {
        lemma_small_mod(a, held);
        lemma_small_mod(b, held);
        lemma_small_mod(a + b, held);
    }
}

} // verus!
