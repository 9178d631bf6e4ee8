//! The chained-addition circuit: the Fibonacci recurrence on big integers,
//! each step one addition of the chip, and the sizing and running of it.

use crate::adder::{equality_failures, lemma_equal_iff_same_value, lemma_limbs_unique, longer};
use crate::bigint::{big_from_u128, big_value};
use crate::chip::{
    close_region, lemma_range_enforced, lost_carry, region_rows, AssignedInteger, BigIntChip,
    BigIntParams, RegionContext, SynthesisError, UnassignedInteger, Violation, MAX_K,
};
use crate::limbs::{
    decompose, decompose_spec, lemma_decompose_in_range, lemma_decompose_value, lemma_round_trip,
    lemma_value_bound,
};
use crate::utils::{
    big_fib_calc, chain_term, fibonacci, last_term, lemma_chain_bound, lemma_chain_nondecreasing,
};
use vstd::arithmetic::div_mod::{lemma_mod_bound, lemma_small_mod};
use num_bigint::BigUint;
use crate::limbs::lemma_pow2_127;
use vstd::arithmetic::power2::{
    lemma2_to64, lemma_pow2_pos, lemma_pow2_strictly_increases, lemma_pow2_unfold, pow2,
};
use vstd::prelude::*;

verus! {

/// The rows that a chain takes after `adds` additions on integers of `limbs`
/// limbs: the two initial operands, and for each addition a sum of one limb
/// more than a fresh integer has. Every step costs the same.
pub open spec fn chain_rows(limbs: nat, adds: nat) -> nat
    decreases adds,
{
    if adds == 0 {
        2 * limbs
    } else {
        chain_rows(limbs, (adds - 1) as nat) + limbs + 1
    }
}

/// The rows of a chain in closed form: those of the two initial operands,
/// and a fixed number for each addition.
pub proof fn lemma_chain_rows(limbs: nat, adds: nat)
    ensures
        chain_rows(limbs, adds) == 2 * limbs + adds * (limbs + 1),
    decreases adds,
{
    if adds == 0 {
        assert(adds * (limbs + 1) == 0) by (nonlinear_arith)
            requires
                adds == 0,
        ;
    } else {
        lemma_chain_rows(limbs, (adds - 1) as nat);
        assert(adds * (limbs + 1) == (adds - 1) * (limbs + 1) + limbs + 1) by (nonlinear_arith);
    }
}

/// A longer chain takes no fewer rows.
pub proof fn lemma_chain_rows_grow(limbs: nat, fewer: nat, adds: nat)
    requires
        fewer <= adds,
    ensures
        chain_rows(limbs, fewer) <= chain_rows(limbs, adds),
    decreases adds,
{
    if fewer < adds {
        lemma_chain_rows_grow(limbs, fewer, (adds - 1) as nat);
    }
}

/// The limbs of term `m` of a chain on integers of `limbs` limbs: the two
/// initial terms are fresh, and every sum has the one extra limb.
pub open spec fn term_limbs(limbs: nat, m: nat) -> nat {
    if m <= 1 {
        limbs
    } else {
        limbs + 1
    }
}

/// What the limbs of a sum can hold: the numbers below 2^((limbs + 1) * width).
pub open spec fn sum_modulus(limbs: nat, width: nat) -> nat {
    pow2((limbs + 1) * width)
}

/// Term `m` of the chain as the circuit holds it: each sum is kept modulo
/// what its limbs can hold.
pub open spec fn held_term(a: nat, b: nat, m: nat, modulus: nat) -> nat
    decreases m,
{
    if m == 0 {
        a
    } else if m == 1 {
        b
    } else {
        (held_term(a, b, (m - 1) as nat, modulus) + held_term(a, b, (m - 2) as nat, modulus))
            % modulus
    }
}

/// The violations of the first `adds` additions of a chain that starts at row
/// `start`: for each addition whose sum does not fit its limbs, the carry that
/// is lost, in the order of the additions.
pub open spec fn chain_failures(
    a: nat,
    b: nat,
    adds: nat,
    limbs: nat,
    width: nat,
    start: nat,
) -> Seq<Violation>
    decreases adds,
{
    if adds == 0 {
        Seq::empty()
    } else {
        let modulus = sum_modulus(limbs, width);
        chain_failures(a, b, (adds - 1) as nat, limbs, width, start) + lost_carry(
            held_term(a, b, adds, modulus) + held_term(a, b, (adds - 1) as nat, modulus),
            limbs + 1,
            width,
            start + chain_rows(limbs, (adds - 1) as nat),
        )
    }
}

/// A chain whose term `m` fits the limbs of a sum is held whole up to that
/// term, and none of the additions up to it loses a carry.
pub proof fn lemma_no_overflow(a: nat, b: nat, m: nat, limbs: nat, width: nat, start: nat)
    requires
        m >= 1,
        a < sum_modulus(limbs, width),
        b < sum_modulus(limbs, width),
        chain_term(a, b, m) < sum_modulus(limbs, width),
    ensures
        held_term(a, b, m, sum_modulus(limbs, width)) == chain_term(a, b, m),
        held_term(a, b, (m - 1) as nat, sum_modulus(limbs, width)) == chain_term(
            a,
            b,
            (m - 1) as nat,
        ),
        chain_failures(a, b, (m - 1) as nat, limbs, width, start) == Seq::<Violation>::empty(),
    decreases m,
{
    let modulus = sum_modulus(limbs, width);
    if m >= 2 {
        lemma_chain_nondecreasing(a, b, (m - 1) as nat, m);
        lemma_no_overflow(a, b, (m - 1) as nat, limbs, width, start);
        lemma_small_mod(chain_term(a, b, m), modulus);
        let before = chain_failures(a, b, (m - 2) as nat, limbs, width, start);
        assert(before + Seq::<Violation>::empty() =~= before);
    }
}

/// A chain of `n` steps from two initial integers. With `check_final` the
/// last term is held to `final_sum`; without it no value is asserted, and the
/// circuit certifies only that a chain of additions was made.
pub struct BigFibCircuit {
    pub init_a: BigUint,
    pub init_b: BigUint,
    pub final_sum: BigUint,
    pub n: usize,
    pub check_final: bool,
}

impl BigFibCircuit {
    /// The number of additions: the first one is always made.
    pub open spec fn adds(&self) -> nat {
        (last_term(self.n as nat) - 1) as nat
    }

    /// The rows that the circuit takes: a fixed number for each step, and
    /// with the final check the rows of the expected term.
    pub open spec fn rows_needed(&self, limbs: nat) -> nat {
        chain_rows(limbs, self.adds()) + if self.check_final {
            limbs
        } else {
            0
        }
    }

    /// The first initial value as the circuit holds it.
    pub open spec fn first(&self, params: BigIntParams) -> nat {
        big_value(self.init_a) % pow2(params.limbs() * params.limb_width as nat)
    }

    /// The second initial value as the circuit holds it.
    pub open spec fn second(&self, params: BigIntParams) -> nat {
        big_value(self.init_b) % pow2(params.limbs() * params.limb_width as nat)
    }

    /// The last term of the chain as the circuit holds it.
    pub open spec fn last_value(&self, params: BigIntParams) -> nat {
        held_term(
            self.first(params),
            self.second(params),
            last_term(self.n as nat),
            sum_modulus(params.limbs(), params.limb_width as nat),
        )
    }

    /// The violations of the final check: with `check_final`, the limbs at
    /// which the last term and the expected one differ; without it, none.
    pub open spec fn final_failures(&self, params: BigIntParams) -> Seq<Violation> {
        if self.check_final {
            let width = params.limb_width as nat;
            let expected = decompose_spec(big_value(self.final_sum), params.limbs(), width);
            let last = decompose_spec(self.last_value(params), params.limbs() + 1, width);
            equality_failures(expected, last, longer(expected.len(), last.len()))
        } else {
            Seq::empty()
        }
    }

    /// The violations of the circuit laid out from row `start` on: the carries
    /// that its additions lose, and then those of the final check.
    pub open spec fn failures(&self, params: BigIntParams, start: nat) -> Seq<Violation> {
        chain_failures(
            self.first(params),
            self.second(params),
            self.adds(),
            params.limbs(),
            params.limb_width as nat,
            start,
        ) + self.final_failures(params)
    }

    /// The configuration of the circuit: limbs of 64 bits, integers of 512.
    pub fn configure() -> (config: BigIntParams)
        ensures
            config == BigIntParams::standard(),
            config.wf(),
            config.limbs() == 8,
    {
        BigIntParams::standard()
    }

    /// The chip for a configuration.
    pub fn bigint_chip(&self, config: BigIntParams) -> (chip: BigIntChip)
        requires
            config.wf(),
        ensures
            chip.wf(),
            chip.params == config,
            !chip.table.loaded,
    {
        BigIntChip::new(config)
    }

    /// Lays the chain out in the region: binds the two initial integers, adds
    /// them, and then, once for each step from 2 on, moves the three
    /// registers up by one and adds the two that are now the operands. With
    /// `check_final` the last sum is asserted equal to the expected one. Then
    /// the range table is loaded. The last sum is handed back. A layout that
    /// fails for want of rows leaves the range table as it was.
    pub fn synthesize(&self, chip: &mut BigIntChip, ctx: &mut RegionContext) -> (r: Result<
        AssignedInteger,
        SynthesisError,
    >)
        requires
            old(chip).wf(),
            old(ctx).wf(),
        ensures
            final(chip).wf(),
            final(chip).params == old(chip).params,
            final(ctx).wf(),
            final(ctx).rows == old(ctx).rows,
            old(ctx).offset <= final(ctx).offset,
            old(ctx).violations@.is_prefix_of(final(ctx).violations@),
            r is Ok <==> old(ctx).offset + self.rows_needed(old(chip).params.limbs()) <= old(
                ctx,
            ).rows,
            r matches Err(e) ==> e == SynthesisError::NotEnoughRows && final(chip).table == old(
                chip,
            ).table,
            r matches Ok(last) ==> {
                &&& final(chip).table.loaded
                &&& final(chip).table.limb_bits == old(chip).table.limb_bits
                &&& last.wf(old(chip).width())
                &&& last.value(old(chip).width()) == self.last_value(old(chip).params)
                &&& last.limbs@ == decompose_spec(
                    self.last_value(old(chip).params),
                    old(chip).params.limbs() + 1,
                    old(chip).width(),
                )
                &&& final(ctx).offset == old(ctx).offset + self.rows_needed(
                    old(chip).params.limbs(),
                )
                &&& final(ctx).violations@ == old(ctx).violations@ + self.failures(
                    old(chip).params,
                    old(ctx).offset as nat,
                )
            },
    {
        let num_limbs: usize = chip.params.num_limbs();
        let limb_width: usize = chip.params.limb_width;
        let ghost params = chip.params;
        let ghost width = chip.width();
        let ghost count = chip.params.limbs();
        let ghost start = ctx.offset as nat;
        let ghost before = ctx.violations@;
        let ghost modulus = sum_modulus(count, width);
        let ghost first = self.first(params);
        let ghost second = self.second(params);
        let a_limbs: Vec<u128> = decompose(&self.init_a, num_limbs, limb_width);
        let b_limbs: Vec<u128> = decompose(&self.init_b, num_limbs, limb_width);
        let a_unassigned: UnassignedInteger = UnassignedInteger::from(a_limbs);
        let b_unassigned: UnassignedInteger = UnassignedInteger::from(b_limbs);
        proof {
            lemma_range_enforced(a_unassigned.limbs@, width, start);
            lemma_range_enforced(b_unassigned.limbs@, width, start + count);
            lemma_chain_rows_grow(count, 0, self.adds());
            lemma_chain_rows_grow(count, 1, self.adds());
            reveal_with_fuel(chain_rows, 2);
            reveal_with_fuel(held_term, 3);
            reveal_with_fuel(chain_failures, 2);
        }
        let mut a_assigned: AssignedInteger = match chip.assign_integer(ctx, a_unassigned) {
            Ok(x) => x,
            Err(e) => {
                return Err(e);
            },
        };
        let mut b_assigned: AssignedInteger = match chip.assign_integer(ctx, b_unassigned) {
            Ok(x) => x,
            Err(e) => {
                return Err(e);
            },
        };
        proof {
            assert(before + Seq::<Violation>::empty() =~= before);
        }
        let mut c_assigned: AssignedInteger = match chip.add(ctx, &a_assigned, &b_assigned) {
            Ok(x) => x,
            Err(e) => {
                return Err(e);
            },
        };
        proof {
            assert(ctx.violations@ =~= before + chain_failures(
                first,
                second,
                1,
                count,
                width,
                start,
            ));
        }
        let mut step: usize = 2;
        while step < self.n
            invariant
                2 <= step <= last_term(self.n as nat),
                chip.wf(),
                *chip == *old(chip),
                params == chip.params,
                width == chip.width(),
                count == chip.params.limbs(),
                modulus == sum_modulus(count, width),
                first == self.first(params),
                second == self.second(params),
                ctx.wf(),
                ctx.rows == old(ctx).rows,
                before == old(ctx).violations@,
                ctx.violations@ == before + chain_failures(
                    first,
                    second,
                    (step - 1) as nat,
                    count,
                    width,
                    start,
                ),
                start == old(ctx).offset,
                ctx.offset == start + chain_rows(count, (step - 1) as nat),
                a_assigned.wf(width),
                b_assigned.wf(width),
                c_assigned.wf(width),
                a_assigned.value(width) == held_term(first, second, (step - 2) as nat, modulus),
                b_assigned.value(width) == held_term(first, second, (step - 1) as nat, modulus),
                c_assigned.value(width) == held_term(first, second, step as nat, modulus),
                a_assigned.limbs@.len() == term_limbs(count, (step - 2) as nat),
                b_assigned.limbs@.len() == term_limbs(count, (step - 1) as nat),
                c_assigned.limbs@.len() == term_limbs(count, step as nat),
            decreases self.n - step,
        {
            let ghost so_far = ctx.violations@;
            proof {
                lemma_chain_rows_grow(count, step as nat, self.adds());
            }
            a_assigned = b_assigned;
            b_assigned = c_assigned;
            c_assigned = match chip.add(ctx, &a_assigned, &b_assigned) {
                Ok(x) => x,
                Err(e) => {
                    return Err(e);
                },
            };
            proof {
                let earlier = chain_failures(
                    first,
                    second,
                    (step - 1) as nat,
                    count,
                    width,
                    start,
                );
                let lost = lost_carry(
                    held_term(first, second, step as nat, modulus) + held_term(
                        first,
                        second,
                        (step - 1) as nat,
                        modulus,
                    ),
                    count + 1,
                    width,
                    start + chain_rows(count, (step - 1) as nat),
                );
                assert(ctx.violations@ == so_far + lost);
                assert(before + (earlier + lost) =~= (before + earlier) + lost);
            }
            step = step + 1;
        }
        proof {
            let last = c_assigned.limbs@;
            lemma_value_bound(last, width);
            lemma_round_trip(c_assigned.value(width), last.len(), width);
            lemma_limbs_unique(
                last,
                decompose_spec(c_assigned.value(width), last.len(), width),
                width,
            );
        }
        let ghost chain = ctx.violations@;
        if self.check_final {
            let sum_assigned_int: AssignedInteger = match chip.assign_constant(
                ctx,
                &self.final_sum,
            ) {
                Ok(x) => x,
                Err(e) => {
                    return Err(e);
                },
            };
            chip.assert_equal(ctx, &sum_assigned_int, &c_assigned);
        }
        proof {
            let lost = chain_failures(first, second, self.adds(), count, width, start);
            let last = self.final_failures(params);
            assert(before + (lost + last) =~= (before + lost) + last);
            if !self.check_final {
                assert(chain + last =~= chain);
            }
        }
        chip.table.load_table();
        Ok(c_assigned)
    }

    /// Lays the circuit out in a fresh region of 2^k rows and reports the
    /// violations; none means that the circuit is satisfied. The rows are the
    /// library's own count, one row for each limb bound to a cell; they are
    /// not the rows that a proving backend lays out for the same circuit.
    pub fn mock_check(&self, k: u32) -> (r: Result<Vec<Violation>, SynthesisError>)
        ensures
            r is Ok <==> k <= MAX_K && self.rows_needed(8) <= pow2(k as nat),
            r matches Err(e) ==> (e == SynthesisError::CapacityTooLarge <==> k > MAX_K),
            r matches Ok(report) ==> report@ == self.failures(BigIntParams::standard(), 0),
    {
        if k > MAX_K {
            return Err(SynthesisError::CapacityTooLarge);
        }
        let config: BigIntParams = Self::configure();
        let mut chip: BigIntChip = self.bigint_chip(config);
        let mut ctx: RegionContext = RegionContext::new(region_rows(k));
        match self.synthesize(&mut chip, &mut ctx) {
            Ok(_) => {
                proof {
                    assert(ctx.violations@ =~= self.failures(config, 0));
                }
                Ok(close_region(&chip, ctx))
            },
            Err(e) => Err(e),
        }
    }
}

/// The final check: a circuit that holds its last term to the expected one
/// passes the check exactly if the expected one, as the circuit holds it, is
/// the last term of the chain as the circuit holds it. A circuit without the
/// check passes whatever it was given.
pub proof fn lemma_final_check(circuit: BigFibCircuit, params: BigIntParams)
    requires
        params.wf(),
    ensures
        circuit.final_failures(params).len() == 0 <==> !circuit.check_final || big_value(
            circuit.final_sum,
        ) % pow2(params.limbs() * params.limb_width as nat) == circuit.last_value(params),
{
    if circuit.check_final {
        let width = params.limb_width as nat;
        let count = params.limbs();
        let modulus = sum_modulus(count, width);
        let last = circuit.last_value(params);
        let expected = decompose_spec(big_value(circuit.final_sum), count, width);
        let limbs = decompose_spec(last, count + 1, width);
        lemma_pow2_pos((count + 1) * width);
        let m = last_term(circuit.n as nat);
        let sum = held_term(circuit.first(params), circuit.second(params), (m - 1) as nat, modulus)
            + held_term(circuit.first(params), circuit.second(params), (m - 2) as nat, modulus);
        lemma_mod_bound(sum as int, modulus as int);
        lemma_round_trip(last, count + 1, width);
        lemma_decompose_value(big_value(circuit.final_sum), count, width);
        lemma_decompose_in_range(big_value(circuit.final_sum), count, width);
        lemma_equal_iff_same_value(expected, limbs, width);
    }
}

/// The chain from 0 and 1 in the standard configuration, of up to 576 steps,
/// ends on the Fibonacci number of its last term, and none of its additions
/// loses a carry: the Fibonacci numbers up to there fit the limbs of a sum.
pub proof fn lemma_chain_from_0_and_1(circuit: BigFibCircuit, start: nat)
    requires
        big_value(circuit.init_a) == 0,
        big_value(circuit.init_b) == 1,
        circuit.n <= 576,
    ensures
        circuit.first(BigIntParams::standard()) == 0,
        circuit.second(BigIntParams::standard()) == 1,
        circuit.last_value(BigIntParams::standard()) == fibonacci(last_term(circuit.n as nat)),
        chain_failures(0, 1, circuit.adds(), 8, 64, start) == Seq::<Violation>::empty(),
{
    let params = BigIntParams::standard();
    assert(512usize / 64usize == 8);
    let bits = params.limbs() * params.limb_width as nat;
    assert(params.limb_width == 64 && params.bits_len == 512);
    assert(params.limbs() == 8);
    assert(bits == 512) by (nonlinear_arith)
        requires
            bits == params.limbs() * params.limb_width as nat,
            params.limbs() == 8,
            params.limb_width == 64,
    ;
    lemma2_to64();
    lemma_pow2_strictly_increases(0, bits);
    lemma_small_mod(0, pow2(bits));
    lemma_small_mod(1, pow2(bits));
    let m = last_term(circuit.n as nat);
    lemma_fibonacci_fits(m, start);
}

/// The violations of a chain from 0 and 1 without a final check, in the
/// standard configuration, are the carries that its additions lose.
pub proof fn lemma_run_failures(circuit: BigFibCircuit)
    requires
        big_value(circuit.init_a) == 0,
        big_value(circuit.init_b) == 1,
        !circuit.check_final,
    ensures
        circuit.failures(BigIntParams::standard(), 0) == chain_failures(
            0,
            1,
            circuit.adds(),
            8,
            64,
            0,
        ),
{
    let params = BigIntParams::standard();
    assert(512usize / 64usize == 8);
    let bits = params.limbs() * params.limb_width as nat;
    assert(params.limb_width == 64 && params.bits_len == 512);
    assert(params.limbs() == 8);
    lemma2_to64();
    lemma_pow2_pos(bits);
    if bits > 0 {
        lemma_pow2_strictly_increases(0, bits);
    }
    assert(bits == 512) by (nonlinear_arith)
        requires
            bits == params.limbs() * params.limb_width as nat,
            params.limbs() == 8,
            params.limb_width == 64,
    ;
    lemma_small_mod(0, pow2(bits));
    lemma_small_mod(1, pow2(bits));
    let lost = chain_failures(0, 1, circuit.adds(), 8, 64, 0);
    assert(lost + circuit.final_failures(params) =~= lost);
}

/// The Fibonacci numbers up to term 576 fit the limbs of a sum of the
/// standard configuration, so the chain from 0 and 1 is held whole up to
/// there and loses no carry.
pub proof fn lemma_fibonacci_fits(m: nat, start: nat)
    requires
        1 <= m <= 576,
    ensures
        held_term(0, 1, m, sum_modulus(8, 64)) == fibonacci(m),
        chain_failures(0, 1, (m - 1) as nat, 8, 64, start) == Seq::<Violation>::empty(),
{
    lemma2_to64();
    lemma_chain_bound(0, 1, m, 1);
    assert((8 + 1) * 64 == 576) by (nonlinear_arith);
    lemma_pow2_strictly_increases(0, 576);
    lemma_pow2_strictly_increases(1, 576);
    if m < 576 {
        lemma_pow2_strictly_increases(m, 576);
    }
    lemma_no_overflow(0, 1, m, 8, 64, start);
}

/// The rows that the sizing heuristic allows for each step of a chain.
pub const ROWS_PER_STEP: u128 = 500;

/// The least exponent `e` with `x <= 2^e`: the base 2 logarithm, rounded up.
pub open spec fn ceil_log2(x: nat) -> nat
    decreases x,
{
    if x <= 1 {
        0
    } else {
        1 + ceil_log2((x + 1) / 2)
    }
}

/// The capacity exponent that the heuristic gives for a chain of `n` steps:
/// the logarithm of 500 rows for each step, rounded up, and one more.
pub open spec fn estimate_k(n: nat) -> nat {
    ceil_log2(ROWS_PER_STEP as nat * n) + 1
}

/// [`ceil_log2`] is the least exponent whose power of two reaches `x`.
pub proof fn lemma_ceil_log2(x: nat)
    ensures
        x <= pow2(ceil_log2(x)),
        x > 1 ==> pow2((ceil_log2(x) - 1) as nat) < x,
    decreases x,
{
    lemma2_to64();
    if x > 1 {
        let half = (x + 1) / 2;
        lemma_ceil_log2(half);
        lemma_pow2_unfold(ceil_log2(x));
        if half > 1 {
            lemma_pow2_unfold(ceil_log2(half));
        }
    }
}

/// No exponent below [`ceil_log2`] reaches `x`.
pub proof fn lemma_ceil_log2_least(x: nat, e: nat)
    requires
        x <= pow2(e),
    ensures
        ceil_log2(x) <= e,
    decreases e,
{
    lemma2_to64();
    if x > 1 {
        lemma_pow2_unfold(e);
        lemma_ceil_log2_least((x + 1) / 2, (e - 1) as nat);
    }
}

/// A region of the estimated capacity has twice the rows that the heuristic
/// allows for the chain, or more.
pub proof fn lemma_estimate_covers(n: nat)
    ensures
        2 * (ROWS_PER_STEP * n) <= pow2(estimate_k(n)),
{
    lemma_ceil_log2(ROWS_PER_STEP as nat * n);
    lemma_pow2_unfold(estimate_k(n));
}

/// The capacity exponent estimated for a chain of `fib_steps` steps.
pub fn calc_k(fib_steps: usize) -> (k: u32)
    ensures
        k == estimate_k(fib_steps as nat),
{
    let rows: u128 = ROWS_PER_STEP * (fib_steps as u128);
    let mut left: u128 = rows;
    let mut log: u32 = 0;
    proof {
        lemma_pow2_127();
        lemma_pow2_unfold(128);
        lemma_ceil_log2_least(rows as nat, 128);
    }
    while left > 1
        invariant
            left <= 500 * 0x1_0000_0000_0000_0000,
            log + ceil_log2(left as nat) == ceil_log2(rows as nat),
            ceil_log2(rows as nat) <= 128,
        decreases left,
    {
        left = (left + 1) / 2;
        log = log + 1;
    }
    log + 1
}

/// Chain satisfiability: a chain of 1 to 576 steps from 0 and 1 without a
/// final check, in a region of the estimated capacity, has room and is free
/// of violations.
pub proof fn lemma_estimated_capacity_suffices(circuit: BigFibCircuit)
    requires
        big_value(circuit.init_a) == 0,
        big_value(circuit.init_b) == 1,
        1 <= circuit.n <= 576,
        !circuit.check_final,
    ensures
        estimate_k(circuit.n as nat) <= MAX_K,
        circuit.rows_needed(8) <= pow2(estimate_k(circuit.n as nat)),
        circuit.failures(BigIntParams::standard(), 0) == Seq::<Violation>::empty(),
{
    let n = circuit.n as nat;
    let adds = circuit.adds();
    lemma_estimate_covers(n);
    lemma_chain_rows(8, adds);
    assert(adds * (8 + 1) == 9 * adds) by (nonlinear_arith);
    lemma2_to64();
    assert(ROWS_PER_STEP * n == 500 * n);
    assert(chain_rows(8, adds) <= 2 * (ROWS_PER_STEP * n));
    assert(ROWS_PER_STEP as nat * n <= pow2(20));
    lemma_ceil_log2_least(ROWS_PER_STEP as nat * n, 20);
    lemma_chain_from_0_and_1(circuit, 0);
    let lost = chain_failures(0, 1, adds, 8, 64, 0);
    assert(lost + circuit.final_failures(BigIntParams::standard()) =~= lost);
}

/// How a run checks the circuit: by evaluating every constraint on the
/// witness, or by making a proof and verifying it.
#[derive(Clone, Copy, Debug, PartialEq, Eq, Structural)]
pub enum Backend {
    Mock,
    Prove,
}

/// Where a run stands.
#[derive(Clone, Copy, Debug, PartialEq, Eq, Structural)]
pub enum Phase {
    /// Nothing was done yet.
    Ready,
    /// The keys were generated.
    KeysReady,
    /// The proof was created.
    ProofReady,
    /// The circuit was found satisfied, or its proof verified.
    Checked,
    /// The run ended well.
    Done,
    /// A step failed, and with it the run.
    Failed,
}

/// What a run asks to be done next.
#[derive(Clone, Copy, Debug, PartialEq, Eq, Structural)]
pub enum Action {
    MockCheck,
    Keygen,
    CreateProof,
    VerifyProof,
    Plot,
    Stop,
}

/// A run: the circuit, its capacity exponent, the backend, and whether the
/// layout is plotted at the end.
pub struct RunPlan {
    pub circuit: BigFibCircuit,
    pub k: u32,
    pub backend: Backend,
    pub plot: bool,
}

impl RunPlan {
    /// The action that the run asks for in a phase.
    pub open spec fn next_action(&self, phase: Phase) -> Action {
        match phase {
            Phase::Ready => match self.backend {
                Backend::Mock => Action::MockCheck,
                Backend::Prove => Action::Keygen,
            },
            Phase::KeysReady => Action::CreateProof,
            Phase::ProofReady => Action::VerifyProof,
            Phase::Checked => if self.plot {
                Action::Plot
            } else {
                Action::Stop
            },
            Phase::Done => Action::Stop,
            Phase::Failed => Action::Stop,
        }
    }

    /// The phase after the action of `phase` was done and went well (`ok`) or
    /// not. Any failure ends the run; nothing is tried again.
    pub open spec fn next_phase(&self, phase: Phase, ok: bool) -> Phase {
        match phase {
            Phase::Done => Phase::Done,
            Phase::Failed => Phase::Failed,
            _ => if !ok {
                Phase::Failed
            } else {
                match phase {
                    Phase::Ready => match self.backend {
                        Backend::Mock => Phase::Checked,
                        Backend::Prove => Phase::KeysReady,
                    },
                    Phase::KeysReady => Phase::ProofReady,
                    Phase::ProofReady => Phase::Checked,
                    _ => Phase::Done,
                }
            },
        }
    }

    /// The action that the run asks for in a phase.
    pub fn action(&self, phase: Phase) -> (action: Action)
        ensures
            action == self.next_action(phase),
    {
        match phase {
            Phase::Ready => match self.backend {
                Backend::Mock => Action::MockCheck,
                Backend::Prove => Action::Keygen,
            },
            Phase::KeysReady => Action::CreateProof,
            Phase::ProofReady => Action::VerifyProof,
            Phase::Checked => if self.plot {
                Action::Plot
            } else {
                Action::Stop
            },
            Phase::Done => Action::Stop,
            Phase::Failed => Action::Stop,
        }
    }

    /// The phase after the action of `phase` was done, given how it went.
    pub fn advance(&self, phase: Phase, ok: bool) -> (next: Phase)
        ensures
            next == self.next_phase(phase, ok),
    {
        match phase {
            Phase::Done => Phase::Done,
            Phase::Failed => Phase::Failed,
            Phase::Ready => if !ok {
                Phase::Failed
            } else {
                match self.backend {
                    Backend::Mock => Phase::Checked,
                    Backend::Prove => Phase::KeysReady,
                }
            },
            Phase::KeysReady => if ok {
                Phase::ProofReady
            } else {
                Phase::Failed
            },
            Phase::ProofReady => if ok {
                Phase::Checked
            } else {
                Phase::Failed
            },
            Phase::Checked => if ok {
                Phase::Done
            } else {
                Phase::Failed
            },
        }
    }

    /// The mock check of the run's circuit at its capacity, as the event that
    /// [`RunPlan::advance`] takes: whether the circuit had room and no
    /// constraint was violated.
    pub fn mock_check(&self) -> (ok: bool)
        ensures
            ok <==> self.k <= MAX_K && self.circuit.rows_needed(8) <= pow2(self.k as nat)
                && self.circuit.failures(BigIntParams::standard(), 0).len() == 0,
    {
        match self.circuit.mock_check(self.k) {
            Ok(report) => report.len() == 0,
            Err(_) => false,
        }
    }
}

/// A run that goes well ends, by way of its backend's steps: a mock run after
/// the check, a proving run after key generation, proof and verification.
/// A run that ended stays where it is.
pub proof fn lemma_run_ends(plan: RunPlan)
    ensures
        plan.backend == Backend::Mock ==> plan.next_phase(
            plan.next_phase(Phase::Ready, true),
            true,
        ) == Phase::Done,
        plan.backend == Backend::Prove ==> plan.next_phase(
            plan.next_phase(
                plan.next_phase(plan.next_phase(Phase::Ready, true), true),
                true,
            ),
            true,
        ) == Phase::Done,
        forall|ok: bool| #[trigger] plan.next_phase(Phase::Done, ok) == Phase::Done,
        forall|ok: bool| #[trigger] plan.next_phase(Phase::Failed, ok) == Phase::Failed,
{
}

/// Failures are fatal: a run that has not ended fails with the first step
/// that fails, and a failed run asks for nothing more.
pub proof fn lemma_fail_fast(plan: RunPlan, phase: Phase)
    ensures
        phase != Phase::Done ==> plan.next_phase(phase, false) == Phase::Failed,
        plan.next_action(Phase::Failed) == Action::Stop,
        plan.next_phase(phase, true) == Phase::Done ==> phase == Phase::Checked || phase
            == Phase::Done,
{
}

/// The run of a chain of `n` steps from 0 and 1: the circuit with the
/// expected last term beside it and no final check, at the estimated
/// capacity, for the mock backend or the proving one.
pub fn run(plot: bool, mock: bool, n: usize) -> (plan: RunPlan)
    ensures
        big_value(plan.circuit.init_a) == 0,
        big_value(plan.circuit.init_b) == 1,
        big_value(plan.circuit.final_sum) == fibonacci(last_term(n as nat)),
        plan.circuit.n == n,
        !plan.circuit.check_final,
        plan.k == estimate_k(n as nat),
        plan.backend == (if mock {
            Backend::Mock
        } else {
            Backend::Prove
        }),
        plan.plot == plot,
{
    let final_sum: BigUint = big_fib_calc(n);
    let circuit: BigFibCircuit = BigFibCircuit {
        init_a: big_from_u128(0),
        init_b: big_from_u128(1),
        final_sum,
        n,
        check_final: false,
    };
    let backend: Backend = if mock {
        Backend::Mock
    } else {
        Backend::Prove
    };
    RunPlan { circuit, k: calc_k(n), backend, plot }
}

/// The shape of a chain is its step count and whether it has the final
/// check: two circuits that agree in both make the same additions and take
/// the same rows, whatever their witnesses are.
pub proof fn lemma_same_shape(one: BigFibCircuit, other: BigFibCircuit, limbs: nat)
    requires
        one.n == other.n,
        one.check_final == other.check_final,
    ensures
        one.adds() == other.adds(),
        one.rows_needed(limbs) == other.rows_needed(limbs),
{
}

/// The instance that keys are generated from: the chain of `n` steps without
/// witnesses, all its integers zero, so that the keys are those of the shape
/// of the circuit that is proved.
pub fn keygen_instance(n: usize) -> (circuit: BigFibCircuit)
    ensures
        big_value(circuit.init_a) == 0,
        big_value(circuit.init_b) == 0,
        big_value(circuit.final_sum) == 0,
        circuit.n == n,
        !circuit.check_final,
{
    BigFibCircuit {
        init_a: big_from_u128(0),
        init_b: big_from_u128(0),
        final_sum: big_from_u128(0),
        n,
        check_final: false,
    }
}

} // verus!
