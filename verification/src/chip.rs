//! The big-integer chip at the level of witness values: the range table, the
//! region cursor, integers before and after they are bound to cells, and the
//! chip's operations on them.

use crate::adder::{
    equality_failures, lemma_equal_iff_same_value, lemma_first_limbs, lemma_ripple_step,
    lemma_ripple_sum, limbs_from, longer, ripple_sum,
};
use crate::bigint::big_value;
use crate::limbs::{
    decompose, decompose_spec, lemma_pow2_u32, lemma_pow2_width, lemma_value_bound,
    limbs_in_range, limbs_value, pow2_u128, MAX_LIMB_WIDTH,
};
use num_bigint::BigUint;
use vstd::arithmetic::div_mod::{
    lemma_fundamental_div_mod, lemma_mod_bound, lemma_mod_decreases, lemma_small_mod,
};
use vstd::arithmetic::power2::{
    lemma_pow2_pos, lemma_pow2_strictly_increases, lemma_pow2_unfold, pow2,
};
use vstd::prelude::*;

verus! {

/// The largest capacity exponent: a circuit has at most 2^31 rows.
pub const MAX_K: u32 = 31;

/// The number of rows of the largest circuit.
pub const MAX_ROWS: usize = 0x8000_0000;

/// The width of a limb of the standard configuration, in bits.
pub const LIMB_WIDTH: usize = 64;

/// The width of an integer of the standard configuration, in bits.
pub const BITS_LEN: usize = 512;

/// The width of a limb and the width of the integers, in bits.
#[derive(Clone, Copy, Debug, PartialEq, Eq, Structural)]
pub struct BigIntParams {
    pub limb_width: usize,
    pub bits_len: usize,
}

impl BigIntParams {
    /// A limb has from 1 to 64 bits, and an integer at least one limb.
    pub open spec fn wf(&self) -> bool {
        1 <= self.limb_width <= MAX_LIMB_WIDTH && self.limb_width <= self.bits_len
    }

    /// The number of limbs of a fresh integer.
    pub open spec fn limbs(&self) -> nat {
        (self.bits_len / self.limb_width) as nat
    }

    /// Limbs of 64 bits, integers of 512 bits.
    pub open spec fn standard_params() -> BigIntParams {
        BigIntParams { limb_width: LIMB_WIDTH, bits_len: BITS_LEN }
    }

    /// Limbs of 64 bits, integers of 512 bits.
    #[verifier::when_used_as_spec(standard_params)]
    pub fn standard() -> (params: BigIntParams)
        ensures
            params == Self::standard_params(),
            params.wf(),
            params.limbs() == 8,
    {
        assert(512usize / 64usize == 8);
        BigIntParams { limb_width: LIMB_WIDTH, bits_len: BITS_LEN }
    }

    /// The parameters with the given widths, where they make sense.
    pub fn new(limb_width: usize, bits_len: usize) -> (params: Option<BigIntParams>)
        ensures
            params matches Some(p) ==> p.wf() && p.limb_width == limb_width && p.bits_len
                == bits_len,
            params is Some <==> 1 <= limb_width <= MAX_LIMB_WIDTH && limb_width <= bits_len,
    {
        if 1 <= limb_width && limb_width <= MAX_LIMB_WIDTH && limb_width <= bits_len {
            Some(BigIntParams { limb_width, bits_len })
        } else {
            None
        }
    }

    /// The number of limbs of a fresh integer.
    pub fn num_limbs(&self) -> (n: usize)
        requires
            self.wf(),
        ensures
            n == self.limbs(),
            n >= 1,
            n * self.limb_width <= self.bits_len,
    {
        let n: usize = self.bits_len / self.limb_width;
        proof {
            lemma_fundamental_div_mod(self.bits_len as int, self.limb_width as int);
            assert(n >= 1) by (nonlinear_arith)
                requires
                    self.bits_len == self.limb_width * n + self.bits_len % self.limb_width,
                    0 <= self.bits_len % self.limb_width < self.limb_width,
                    self.limb_width <= self.bits_len,
                    n >= 0,
            ;
            assert(n * self.limb_width == self.limb_width * n) by (nonlinear_arith);
        }
        n
    }
}

/// A constraint that the witness does not meet.
#[derive(Clone, Copy, Debug, PartialEq, Eq, Structural)]
pub enum Violation {
    /// The value offered to the cell at `row` is not in the range table.
    OutOfRange { row: usize },
    /// Two integers asserted equal differ in limb `limb`.
    NotEqual { limb: usize },
    /// The sum whose most significant limb is at `row` does not fit its
    /// limbs: a carry went out of that limb.
    CarryLost { row: usize },
    /// Cells were looked up in a range table that was never loaded.
    TableNotLoaded,
}

/// Why a circuit could not be laid out.
#[derive(Clone, Copy, Debug, PartialEq, Eq, Structural)]
pub enum SynthesisError {
    /// The region has fewer free rows than the operation needs.
    NotEnoughRows,
    /// The capacity exponent is above [`MAX_K`].
    CapacityTooLarge,
}

/// The lookup table behind the range checks: a value is in it exactly if it
/// fits the width of a limb.
#[derive(Clone, Copy, Debug, PartialEq, Eq, Structural)]
pub struct RangeCheckTable {
    pub limb_bits: usize,
    pub loaded: bool,
}

impl RangeCheckTable {
    /// The table is for limbs of 1 to 64 bits.
    pub open spec fn wf(&self) -> bool {
        1 <= self.limb_bits <= MAX_LIMB_WIDTH
    }

    /// The table for limbs of the given parameters, not yet loaded.
    pub fn configure(params: &BigIntParams) -> (table: RangeCheckTable)
        requires
            params.wf(),
        ensures
            table.wf(),
            table.limb_bits == params.limb_width,
            !table.loaded,
    {
        RangeCheckTable { limb_bits: params.limb_width, loaded: false }
    }

    /// Fills the table. Lookups count only against a loaded table.
    pub fn load_table(&mut self)
        ensures
            final(self).loaded,
            final(self).limb_bits == old(self).limb_bits,
    {
        self.loaded = true;
    }

    /// Whether `value` fits the width of a limb.
    pub fn contains(&self, value: u128) -> (found: bool)
        requires
            self.wf(),
        ensures
            found <==> (value as nat) < pow2(self.limb_bits as nat),
    {
        let bound: u128 = pow2_u128(self.limb_bits);
        value < bound
    }
}

/// A cursor over a circuit region: the next free row, the number of rows that
/// the region has, and the violations found so far. The cursor only moves
/// forward, and violations are only added.
pub struct RegionContext {
    pub offset: usize,
    pub rows: usize,
    pub violations: Vec<Violation>,
}

impl RegionContext {
    /// The cursor is within the region, and the region within the largest
    /// circuit.
    pub open spec fn wf(&self) -> bool {
        self.offset <= self.rows <= MAX_ROWS
    }

    /// A cursor at row 0 of an empty region of `rows` rows.
    pub fn new(rows: usize) -> (ctx: RegionContext)
        requires
            rows <= MAX_ROWS,
        ensures
            ctx.wf(),
            ctx.offset == 0,
            ctx.rows == rows,
            ctx.violations@ == Seq::<Violation>::empty(),
    {
        RegionContext { offset: 0, rows, violations: Vec::new() }
    }

    /// Whether no constraint was violated so far.
    pub fn is_satisfied(&self) -> (ok: bool)
        ensures
            ok <==> self.violations@.len() == 0,
    {
        self.violations.len() == 0
    }
}

/// A limb vector that is not bound to cells yet: plain witness data, which
/// may or may not fit the limb width. A limb is held in 128 bits, so that at
/// every width there are values that do not fit.
pub struct UnassignedInteger {
    pub limbs: Vec<u128>,
}

impl UnassignedInteger {
    /// The integer with the given limbs, least significant first.
    pub fn from(limbs: Vec<u128>) -> (value: UnassignedInteger)
        ensures
            value.limbs@ == limbs@,
    {
        UnassignedInteger { limbs }
    }
}

/// A limb vector bound to cells: limb `i` lives in row `first_row + i`. Every
/// limb fits the limb width, and the number spelled is below 2^max_bits.
pub struct AssignedInteger {
    pub limbs: Vec<u128>,
    pub first_row: usize,
    pub max_bits: u64,
}

impl AssignedInteger {
    /// The number that the limbs spell.
    pub open spec fn value(&self, width: nat) -> nat {
        limbs_value(self.limbs@, width)
    }

    /// Every limb fits the width, the cells lie within the largest circuit,
    /// and the number spelled is below 2^max_bits, which is no more than the
    /// limbs have bits.
    pub open spec fn wf(&self, width: nat) -> bool {
        &&& limbs_in_range(self.limbs@, width)
        &&& self.first_row + self.limbs@.len() <= MAX_ROWS
        &&& self.max_bits <= self.limbs@.len() * width
        &&& self.value(width) < pow2(self.max_bits as nat)
    }

    /// The number of limbs.
    pub fn num_limbs(&self) -> (n: usize)
        ensures
            n == self.limbs@.len(),
    {
        self.limbs.len()
    }
}

/// What a cell keeps of each limb offered to it: the part that fits the width.
pub open spec fn reduce_limbs(limbs: Seq<u128>, width: nat) -> Seq<u128> {
    Seq::new(limbs.len(), |i: int| (limbs[i] as nat % pow2(width)) as u128)
}

/// The violations of binding `limbs` to the cells from `row` on: one for each
/// limb that does not fit the width, in the order of the rows.
pub open spec fn range_failures(limbs: Seq<u128>, width: nat, row: nat) -> Seq<Violation>
    decreases limbs.len(),
{
    if limbs.len() == 0 {
        Seq::empty()
    } else {
        let before = range_failures(limbs.drop_last(), width, row);
        if (limbs.last() as nat) < pow2(width) {
            before
        } else {
            before.push(Violation::OutOfRange { row: (row + limbs.len() - 1) as usize })
        }
    }
}

/// The violation of a sum that does not fit: where the number `whole` is not
/// below 2^(len * width), the carry lost at the most significant of the `len`
/// limbs that start at `row`.
pub open spec fn lost_carry(whole: nat, len: nat, width: nat, row: nat) -> Seq<Violation> {
    if whole < pow2(len * width) {
        Seq::empty()
    } else {
        seq![Violation::CarryLost { row: (row + len - 1) as usize }]
    }
}

/// Range enforcement: binding limbs to cells is free of violations exactly if
/// every limb fits the width. A single limb of 2^width or more is reported.
pub proof fn lemma_range_enforced(limbs: Seq<u128>, width: nat, row: nat)
    ensures
        range_failures(limbs, width, row).len() == 0 <==> limbs_in_range(limbs, width),
        limbs_in_range(limbs, width) ==> reduce_limbs(limbs, width) == limbs,
    decreases limbs.len(),
{
    if limbs.len() > 0 {
        let front = limbs.drop_last();
        lemma_range_enforced(front, width, row);
        if limbs_in_range(limbs, width) {
            assert forall|i: int| 0 <= i < front.len() implies (#[trigger] front[i] as nat) < pow2(
                width,
            ) by {
                assert(front[i] == limbs[i]);
            }
        } else if limbs_in_range(front, width) {
            assert forall|i: int| 0 <= i < limbs.len() - 1 implies (#[trigger] limbs[i] as nat)
                < pow2(width) by {
                assert(front[i] == limbs[i]);
            }
        }
    }
    if limbs_in_range(limbs, width) {
        assert forall|i: int| 0 <= i < limbs.len() implies reduce_limbs(limbs, width)[i]
            == limbs[i] by {
            lemma_small_mod(limbs[i] as nat, pow2(width));
        }
        assert(reduce_limbs(limbs, width) =~= limbs);
    }
}

/// The chip: the operations on big integers in a region, for limbs of one
/// width, with the range table that bounds them.
pub struct BigIntChip {
    pub params: BigIntParams,
    pub table: RangeCheckTable,
}

impl BigIntChip {
    /// The parameters make sense, and the range table is the one for them.
    pub open spec fn wf(&self) -> bool {
        &&& self.params.wf()
        &&& self.table.wf()
        &&& self.table.limb_bits == self.params.limb_width
    }

    /// The limb width, as the exponent of the limb base.
    pub open spec fn width(&self) -> nat {
        self.params.limb_width as nat
    }

    /// The limbs of the sum of integers of `la` and `lb` limbs: one more
    /// than the longer one has, and no more than one more than a fresh
    /// integer has.
    pub open spec fn sum_limbs(&self, la: nat, lb: nat) -> nat {
        if longer(la, lb) < self.params.limbs() {
            longer(la, lb) + 1
        } else {
            self.params.limbs() + 1
        }
    }

    /// The chip for the given parameters, its range table configured and not
    /// yet loaded.
    pub fn new(params: BigIntParams) -> (chip: BigIntChip)
        requires
            params.wf(),
        ensures
            chip.wf(),
            chip.params == params,
            !chip.table.loaded,
    {
        BigIntChip { params, table: RangeCheckTable::configure(&params) }
    }

    /// Binds each limb of `value` to a fresh cell, at increasing rows from the
    /// cursor on, and looks each limb up in the range table. A limb that does
    /// not fit is reported, and its cell keeps the part that fits. The cursor
    /// advances by the number of limbs. A region with too few free rows is
    /// left as it is.
    pub fn assign_integer(&self, ctx: &mut RegionContext, value: UnassignedInteger) -> (r: Result<
        AssignedInteger,
        SynthesisError,
    >)
        requires
            self.wf(),
            old(ctx).wf(),
        ensures
            final(ctx).wf(),
            final(ctx).rows == old(ctx).rows,
            r is Ok <==> old(ctx).offset + value.limbs@.len() <= old(ctx).rows,
            r matches Err(e) ==> e == SynthesisError::NotEnoughRows && final(ctx).offset == old(
                ctx,
            ).offset && final(ctx).violations@ == old(ctx).violations@,
            r matches Ok(x) ==> {
                &&& x.wf(self.width())
                &&& x.limbs@ == reduce_limbs(value.limbs@, self.width())
                &&& x.first_row == old(ctx).offset
                &&& x.max_bits == value.limbs@.len() * self.width()
                &&& final(ctx).offset == old(ctx).offset + value.limbs@.len()
                &&& final(ctx).violations@ == old(ctx).violations@ + range_failures(
                    value.limbs@,
                    self.width(),
                    old(ctx).offset as nat,
                )
            },
    {
        let count: usize = value.limbs.len();
        if count > ctx.rows - ctx.offset {
            return Err(SynthesisError::NotEnoughRows);
        }
        let base: u128 = pow2_u128(self.params.limb_width);
        let first_row: usize = ctx.offset;
        let ghost width = self.width();
        let ghost before = ctx.violations@;
        let mut limbs: Vec<u128> = Vec::new();
        let mut i: usize = 0;
        proof {
            lemma_pow2_width(width);
            assert(value.limbs@.take(0) =~= Seq::<u128>::empty());
            assert(before + range_failures(value.limbs@.take(0), width, first_row as nat)
                =~= before);
        }
        while i < count
            invariant
                i <= count,
                self.wf(),
                count == value.limbs@.len(),
                width == self.width(),
                base == pow2(width),
                0 < base <= 0x1_0000_0000_0000_0000,
                first_row + count <= ctx.rows <= MAX_ROWS,
                ctx.rows == old(ctx).rows,
                ctx.offset == first_row,
                limbs@ == reduce_limbs(value.limbs@.take(i as int), width),
                ctx.violations@ == before + range_failures(
                    value.limbs@.take(i as int),
                    width,
                    first_row as nat,
                ),
            decreases count - i,
        {
            let limb: u128 = value.limbs[i];
            let kept: u128 = limb % base;
            proof {
                let now = value.limbs@.take(i + 1);
                assert(now.drop_last() =~= value.limbs@.take(i as int));
                assert(now.last() == limb);
                assert(reduce_limbs(now, width) =~= limbs@.push(kept));
            }
            if !self.table.contains(limb) {
                ctx.violations.push(Violation::OutOfRange { row: first_row + i });
            }
            limbs.push(kept);
            i = i + 1;
            proof {
                let now = value.limbs@.take(i as int);
                assert(now.drop_last() =~= value.limbs@.take(i - 1));
                assert(now.last() == limb);
                assert(ctx.violations@ =~= before + range_failures(now, width, first_row as nat));
            }
        }
        ctx.offset = first_row + count;
        proof {
            assert(count * self.params.limb_width <= 0x8000_0000 * 64) by (nonlinear_arith)
                requires
                    count <= 0x8000_0000,
                    self.params.limb_width <= 64,
            ;
        }
        let max_bits: u64 = count as u64 * self.params.limb_width as u64;
        proof {
            assert(value.limbs@.take(count as int) =~= value.limbs@);
            assert forall|k: int| 0 <= k < limbs@.len() implies (#[trigger] limbs@[k] as nat)
                < pow2(width) by {
                lemma_fundamental_div_mod(value.limbs@[k] as int, pow2(width) as int);
            }
            lemma_value_bound(limbs@, width);
        }
        Ok(AssignedInteger { limbs, first_row, max_bits })
    }

    /// Binds a constant to fresh cells: its first limbs, as many as a fresh
    /// integer has. They fit the limb width, so nothing is reported; bits of
    /// the constant beyond the width of the integers are left out.
    pub fn assign_constant(&self, ctx: &mut RegionContext, value: &BigUint) -> (r: Result<
        AssignedInteger,
        SynthesisError,
    >)
        requires
            self.wf(),
            old(ctx).wf(),
        ensures
            final(ctx).wf(),
            final(ctx).rows == old(ctx).rows,
            final(ctx).violations@ == old(ctx).violations@,
            r is Ok <==> old(ctx).offset + self.params.limbs() <= old(ctx).rows,
            r matches Err(e) ==> e == SynthesisError::NotEnoughRows && final(ctx).offset == old(
                ctx,
            ).offset,
            r matches Ok(x) ==> {
                &&& x.wf(self.width())
                &&& x.limbs@ == decompose_spec(big_value(*value), self.params.limbs(), self.width())
                &&& x.value(self.width()) == big_value(*value) % pow2(
                    self.params.limbs() * self.width(),
                )
                &&& x.first_row == old(ctx).offset
                &&& final(ctx).offset == old(ctx).offset + self.params.limbs()
            },
    {
        let count: usize = self.params.num_limbs();
        let limbs: Vec<u128> = decompose(value, count, self.params.limb_width);
        let fresh: UnassignedInteger = UnassignedInteger::from(limbs);
        proof {
            lemma_range_enforced(fresh.limbs@, self.width(), ctx.offset as nat);
        }
        self.assign_integer(ctx, fresh)
    }

    /// The sum of two integers, by the carry chain of [`ripple_sum`]: one
    /// fresh cell for each limb of the sum, at increasing rows from the cursor
    /// on. The sum has one limb more than the longer operand, but never more
    /// than one limb more than a fresh integer: that one extra limb takes the
    /// carry of fresh operands. Where the sum of the two numbers does not fit
    /// these limbs, the carry that is lost is reported at the row of the
    /// most significant limb, and the cells keep the part of the sum that
    /// fits. A region with too few free rows is left as it is.
    pub fn add(&self, ctx: &mut RegionContext, a: &AssignedInteger, b: &AssignedInteger) -> (r:
        Result<AssignedInteger, SynthesisError>)
        requires
            self.wf(),
            old(ctx).wf(),
            a.wf(self.width()),
            b.wf(self.width()),
        ensures
            final(ctx).wf(),
            final(ctx).rows == old(ctx).rows,
            r is Ok <==> old(ctx).offset + self.sum_limbs(a.limbs@.len(), b.limbs@.len()) <= old(
                ctx,
            ).rows,
            r matches Err(e) ==> e == SynthesisError::NotEnoughRows && final(ctx).offset == old(
                ctx,
            ).offset && final(ctx).violations@ == old(ctx).violations@,
            r matches Ok(sum) ==> {
                let len = self.sum_limbs(a.limbs@.len(), b.limbs@.len());
                let whole = a.value(self.width()) + b.value(self.width());
                &&& sum.wf(self.width())
                &&& sum.limbs@ == ripple_sum(a.limbs@, b.limbs@, 0, self.width()).take(len as int)
                &&& sum.value(self.width()) == whole % pow2(len * self.width())
                &&& sum.limbs@.len() == len
                &&& sum.first_row == old(ctx).offset
                &&& final(ctx).offset == old(ctx).offset + len
                &&& final(ctx).violations@ == old(ctx).violations@ + lost_carry(
                    whole,
                    len,
                    self.width(),
                    old(ctx).offset as nat,
                )
            },
    {
        let la: usize = a.limbs.len();
        let lb: usize = b.limbs.len();
        let count: usize = if la >= lb {
            la
        } else {
            lb
        };
        let fresh: usize = self.params.num_limbs();
        let len: usize = if count < fresh {
            count + 1
        } else {
            fresh + 1
        };
        if len > ctx.rows - ctx.offset {
            return Err(SynthesisError::NotEnoughRows);
        }
        let ghost width = self.width();
        let ghost whole = ripple_sum(a.limbs@, b.limbs@, 0, width);
        let ghost before = ctx.violations@;
        let base: u128 = pow2_u128(self.params.limb_width);
        let mut limbs: Vec<u128> = Vec::new();
        let ghost mut all: Seq<u128> = Seq::empty();
        let mut lost: bool = false;
        let ghost mut bad: int = 0;
        let mut carry: u128 = 0;
        let mut i: usize = 0;
        proof {
            lemma_pow2_width(width);
            assert(limbs_from(a.limbs@, 0) =~= a.limbs@);
            assert(limbs_from(b.limbs@, 0) =~= b.limbs@);
            assert(all + whole =~= whole);
            assert(all.take(0) =~= limbs@);
        }
        while i < count
            invariant
                i <= count,
                la == a.limbs@.len(),
                lb == b.limbs@.len(),
                count == longer(la as nat, lb as nat),
                1 <= len <= count + 1,
                limbs_in_range(a.limbs@, width),
                limbs_in_range(b.limbs@, width),
                base == pow2(width),
                0 < base <= 0x1_0000_0000_0000_0000,
                carry <= 1,
                all.len() == i,
                limbs@ == all.take(if i <= len {
                    i as int
                } else {
                    len as int
                }),
                lost ==> len <= bad < i && all[bad] != 0,
                !lost ==> forall|k: int| len <= k < i ==> all[k] == 0,
                whole == ripple_sum(a.limbs@, b.limbs@, 0, width),
                whole == all + ripple_sum(
                    limbs_from(a.limbs@, i as int),
                    limbs_from(b.limbs@, i as int),
                    carry as nat,
                    width,
                ),
            decreases count - i,
        {
            let x: u128 = if i < la {
                a.limbs[i]
            } else {
                0
            };
            let y: u128 = if i < lb {
                b.limbs[i]
            } else {
                0
            };
            proof {
                if i < la {
                    assert((a.limbs@[i as int] as nat) < pow2(width));
                }
                if i < lb {
                    assert((b.limbs@[i as int] as nat) < pow2(width));
                }
            }
            let raw: u128 = x + y + carry;
            let limb: u128 = raw % base;
            let ghost rest = ripple_sum(
                limbs_from(a.limbs@, i + 1),
                limbs_from(b.limbs@, i + 1),
                (raw / base) as nat,
                width,
            );
            let ghost earlier = all;
            proof {
                lemma_ripple_step(a.limbs@, b.limbs@, i as int, carry as nat, width);
                lemma_fundamental_div_mod(raw as int, base as int);
                assert(raw / base <= 1) by (nonlinear_arith)
                    requires
                        raw <= 2 * base - 1,
                        raw == base * (raw / base) + raw % base,
                        0 <= raw % base,
                        base > 0,
                ;
                assert(all + (seq![limb] + rest) =~= all.push(limb) + rest);
                all = all.push(limb);
            }
            carry = raw / base;
            if i < len {
                limbs.push(limb);
                proof {
                    assert(limbs@ =~= all.take(i + 1));
                }
            } else {
                if limb != 0 {
                    lost = true;
                    proof {
                        bad = i as int;
                    }
                }
                proof {
                    assert(limbs@ =~= all.take(len as int));
                }
            }
            proof {
                assert(all[bad] == earlier.push(limb)[bad]);
                assert forall|k: int| len <= k < i implies all[k] == earlier[k] by {}
            }
            i = i + 1;
        }
        let ghost earlier = all;
        proof {
            assert(limbs_from(a.limbs@, count as int) =~= Seq::<u128>::empty());
            assert(limbs_from(b.limbs@, count as int) =~= Seq::<u128>::empty());
            assert(all + seq![carry] =~= all.push(carry));
            all = all.push(carry);
            lemma_ripple_sum(a.limbs@, b.limbs@, 0, width);
        }
        if count < len {
            limbs.push(carry);
        } else if carry != 0 {
            lost = true;
            proof {
                bad = count as int;
            }
        }
        proof {
            assert(limbs@ =~= whole.take(len as int));
            assert(whole =~= earlier.push(carry));
            if lost {
                assert(whole[bad] != 0);
            } else {
                assert forall|k: int| len <= k < whole.len() implies whole[k] == 0 by {
                    if k < count {
                        assert(whole[k] == earlier[k]);
                    }
                }
            }
            lemma_first_limbs(whole, len as nat, width);
        }
        let first_row: usize = ctx.offset;
        if lost {
            ctx.violations.push(Violation::CarryLost { row: first_row + (len - 1) });
        }
        ctx.offset = first_row + len;
        let wider: u64 = if a.max_bits >= b.max_bits {
            a.max_bits
        } else {
            b.max_bits
        };
        proof {
            assert(count * width <= 0x8000_0000 * 64) by (nonlinear_arith)
                requires
                    count <= 0x8000_0000,
                    width <= 64,
            ;
            assert(len * width <= 0x8000_0001 * 64) by (nonlinear_arith)
                requires
                    len <= 0x8000_0001,
                    width <= 64,
            ;
            assert(a.limbs@.len() * width <= count * width) by (nonlinear_arith)
                requires
                    a.limbs@.len() <= count,
            ;
            assert(b.limbs@.len() * width <= count * width) by (nonlinear_arith)
                requires
                    b.limbs@.len() <= count,
            ;
            lemma_pow2_unfold((wider + 1) as nat);
            if a.max_bits < wider {
                lemma_pow2_strictly_increases(a.max_bits as nat, wider as nat);
            }
            if b.max_bits < wider {
                lemma_pow2_strictly_increases(b.max_bits as nat, wider as nat);
            }
        }
        let room: u64 = len as u64 * self.params.limb_width as u64;
        let max_bits: u64 = if wider < room {
            wider + 1
        } else {
            room
        };
        proof {
            let total = a.value(width) + b.value(width);
            let bits = len as nat * width;
            lemma_pow2_pos(bits);
            lemma_mod_bound(total as int, pow2(bits) as int);
            lemma_mod_decreases(total, pow2(bits));
            if !lost {
                assert(before + lost_carry(total, len as nat, width, first_row as nat) =~= before);
            }
        }
        Ok(AssignedInteger { limbs, first_row, max_bits })
    }

    /// Looks each limb of an integer up in the range table, at the rows where
    /// its cells lie, and reports each limb that does not fit: the check that
    /// an integer whose cells were filled by other means has to pass.
    pub fn check_range(&self, ctx: &mut RegionContext, x: &AssignedInteger)
        requires
            self.wf(),
            old(ctx).wf(),
            x.first_row + x.limbs@.len() <= MAX_ROWS,
        ensures
            final(ctx).wf(),
            final(ctx).rows == old(ctx).rows,
            final(ctx).offset == old(ctx).offset,
            final(ctx).violations@ == old(ctx).violations@ + range_failures(
                x.limbs@,
                self.width(),
                x.first_row as nat,
            ),
    {
        let count: usize = x.limbs.len();
        let ghost width = self.width();
        let ghost before = ctx.violations@;
        let mut i: usize = 0;
        proof {
            assert(x.limbs@.take(0) =~= Seq::<u128>::empty());
            assert(before + range_failures(x.limbs@.take(0), width, x.first_row as nat)
                =~= before);
        }
        while i < count
            invariant
                i <= count,
                self.wf(),
                count == x.limbs@.len(),
                width == self.width(),
                x.first_row + count <= MAX_ROWS,
                ctx.rows == old(ctx).rows,
                ctx.offset == old(ctx).offset,
                ctx.violations@ == before + range_failures(
                    x.limbs@.take(i as int),
                    width,
                    x.first_row as nat,
                ),
            decreases count - i,
        {
            let limb: u128 = x.limbs[i];
            if !self.table.contains(limb) {
                ctx.violations.push(Violation::OutOfRange { row: x.first_row + i });
            }
            i = i + 1;
            proof {
                let now = x.limbs@.take(i as int);
                assert(now.drop_last() =~= x.limbs@.take(i - 1));
                assert(now.last() == limb);
                assert(ctx.violations@ =~= before + range_failures(
                    now,
                    width,
                    x.first_row as nat,
                ));
            }
        }
        proof {
            assert(x.limbs@.take(count as int) =~= x.limbs@);
        }
    }

    /// Asserts two integers equal, limb by limb; the shorter one is read as
    /// going on with zero limbs. Each limb at which they differ is reported.
    /// No cell is used. Nothing is reported exactly if the two are the same
    /// number.
    pub fn assert_equal(&self, ctx: &mut RegionContext, x: &AssignedInteger, y: &AssignedInteger)
        requires
            self.wf(),
            old(ctx).wf(),
            x.wf(self.width()),
            y.wf(self.width()),
        ensures
            final(ctx).wf(),
            final(ctx).rows == old(ctx).rows,
            final(ctx).offset == old(ctx).offset,
            final(ctx).violations@ == old(ctx).violations@ + equality_failures(
                x.limbs@,
                y.limbs@,
                longer(x.limbs@.len(), y.limbs@.len()),
            ),
            final(ctx).violations@ == old(ctx).violations@ <==> x.value(self.width()) == y.value(
                self.width(),
            ),
    {
        let lx: usize = x.limbs.len();
        let ly: usize = y.limbs.len();
        let count: usize = if lx >= ly {
            lx
        } else {
            ly
        };
        let ghost before = ctx.violations@;
        let mut i: usize = 0;
        proof {
            assert(before + equality_failures(x.limbs@, y.limbs@, 0) =~= before);
        }
        while i < count
            invariant
                i <= count,
                lx == x.limbs@.len(),
                ly == y.limbs@.len(),
                count <= MAX_ROWS,
                ctx.offset == old(ctx).offset,
                ctx.rows == old(ctx).rows,
                ctx.violations@ == before + equality_failures(x.limbs@, y.limbs@, i as nat),
            decreases count - i,
        {
            let left: u128 = if i < lx {
                x.limbs[i]
            } else {
                0
            };
            let right: u128 = if i < ly {
                y.limbs[i]
            } else {
                0
            };
            if left != right {
                ctx.violations.push(Violation::NotEqual { limb: i });
            }
            i = i + 1;
            proof {
                assert(ctx.violations@ =~= before + equality_failures(
                    x.limbs@,
                    y.limbs@,
                    i as nat,
                ));
            }
        }
        proof {
            lemma_equal_iff_same_value(x.limbs@, y.limbs@, self.width());
            let found = equality_failures(x.limbs@, y.limbs@, count as nat);
            if found.len() == 0 {
                assert(before + found =~= before);
            } else {
                assert((before + found).len() > before.len());
            }
        }
    }
}

/// The rows of a region of capacity exponent `k`: 2^k.
pub fn region_rows(k: u32) -> (rows: usize)
    requires
        k <= MAX_K,
    ensures
        rows == pow2(k as nat),
        1 <= rows <= MAX_ROWS,
{
    let rows: u128 = pow2_u128(k as usize);
    proof {
        lemma_pow2_u32(k as nat);
    }
    rows as usize
}

/// What a mock check reports once the region is laid out: the violations
/// found on the way and, where cells were looked up in a table that was never
/// loaded, that too.
pub fn close_region(chip: &BigIntChip, ctx: RegionContext) -> (report: Vec<Violation>)
    ensures
        report@ == if chip.table.loaded || ctx.offset == 0 {
            ctx.violations@
        } else {
            ctx.violations@.push(Violation::TableNotLoaded)
        },
{
    let mut report: Vec<Violation> = ctx.violations;
    if !chip.table.loaded && ctx.offset != 0 {
        report.push(Violation::TableNotLoaded);
    }
    report
}

} // verus!
