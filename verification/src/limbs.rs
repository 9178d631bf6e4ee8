//! The limb codec: a big integer as a vector of fixed-width limbs, least
//! significant first, and back.

use crate::bigint::{big_digits, big_from_u128, big_shl, big_sum, big_value, digits_value};
use num_bigint::BigUint;
use vstd::arithmetic::div_mod::{
    lemma_div_denominator, lemma_fundamental_div_mod, lemma_fundamental_div_mod_converse,
    lemma_mod_breakdown, lemma_multiply_divide_lt, lemma_small_mod,
};
use vstd::arithmetic::power2::{
    lemma2_to64, lemma2_to64_rest, lemma_pow2_adds, lemma_pow2_pos, lemma_pow2_strictly_increases,
    lemma_pow2_unfold, pow2,
};
use vstd::prelude::*;

verus! {

/// The widest limb that the codec handles, in bits. Limbs are held in 128
/// bits: a limb that fits its width uses no more than the lower 64.
pub const MAX_LIMB_WIDTH: usize = 64;

/// The number spelled by limbs of `width` bits each, least significant first:
/// the sum of `limbs[i] * 2^(width * i)`.
pub open spec fn limbs_value(limbs: Seq<u128>, width: nat) -> nat
    decreases limbs.len(),
{
    if limbs.len() == 0 {
        0
    } else {
        limbs[0] as nat + pow2(width) * limbs_value(limbs.drop_first(), width)
    }
}

/// Every limb fits in `width` bits.
pub open spec fn limbs_in_range(limbs: Seq<u128>, width: nat) -> bool {
    forall|i: int| 0 <= i < limbs.len() ==> (#[trigger] limbs[i] as nat) < pow2(width)
}

/// Limb `i` of `v`: the `width` bits of `v` from bit `i * width` on.
pub open spec fn limb_of(v: nat, i: nat, width: nat) -> nat {
    (v / pow2(i * width)) % pow2(width)
}

/// The first `num_limbs` limbs of `v`. Bits of `v` from `num_limbs * width`
/// on are left out.
pub open spec fn decompose_spec(v: nat, num_limbs: nat, width: nat) -> Seq<u128> {
    Seq::new(num_limbs, |i: int| limb_of(v, i as nat, width) as u128)
}

/// The base of a limb is positive and no more than 2^64.
pub proof fn lemma_pow2_width(width: nat)
    requires
        width <= 64,
    ensures
        0 < pow2(width) <= 0x1_0000_0000_0000_0000,
{
    lemma_pow2_pos(width);
    lemma2_to64();
    if width < 64 {
        lemma_pow2_strictly_increases(width, 64);
    }
}

/// A limb of a number fits its width.
pub proof fn lemma_limb_of_bound(v: nat, i: nat, width: nat)
    requires
        width <= 64,
    ensures
        limb_of(v, i, width) < pow2(width),
        limb_of(v, i, width) as u128 == limb_of(v, i, width),
{
    lemma_pow2_width(width);
    lemma_pow2_pos(i * width);
}

/// The limbs of a number from limb 1 on are the limbs of the number without
/// its lowest limb.
pub proof fn lemma_limb_of_shift(v: nat, i: nat, width: nat)
    ensures
        limb_of(v, i + 1, width) == limb_of(v / pow2(width), i, width),
        v / pow2((i + 1) * width) == (v / pow2(i * width)) / pow2(width),
{
    lemma_pow2_pos(width);
    lemma_pow2_pos(i * width);
    assert((i + 1) * width == width + i * width) by (nonlinear_arith);
    lemma_pow2_adds(width, i * width);
    lemma_div_denominator(v as int, pow2(width) as int, pow2(i * width) as int);
    assert(pow2(width) * pow2(i * width) == pow2(i * width) * pow2(width)) by (nonlinear_arith);
    lemma_div_denominator(v as int, pow2(i * width) as int, pow2(width) as int);
}

/// What the first `num_limbs` limbs of a number spell: the number without its
/// bits from `num_limbs * width` on.
pub proof fn lemma_decompose_value(v: nat, num_limbs: nat, width: nat)
    requires
        width <= 64,
    ensures
        limbs_value(decompose_spec(v, num_limbs, width), width) == v % pow2(num_limbs * width),
    decreases num_limbs,
{
    let limbs = decompose_spec(v, num_limbs, width);
    lemma_pow2_pos(width);
    if num_limbs == 0 {
        assert(num_limbs * width == 0) by (nonlinear_arith)
            requires
                num_limbs == 0,
        ;
        lemma2_to64();
    } else {
        let rest = decompose_spec(v / pow2(width), (num_limbs - 1) as nat, width);
        assert(limbs.drop_first() =~= rest) by {
            assert forall|i: int| 0 <= i < rest.len() implies limbs.drop_first()[i] == rest[i] by {
                lemma_limb_of_shift(v, i as nat, width);
            }
        }
        lemma_decompose_value(v / pow2(width), (num_limbs - 1) as nat, width);
        lemma_limb_of_bound(v, 0, width);
        assert(0 * width == 0) by (nonlinear_arith);
        lemma2_to64();
        assert(limbs[0] == v % pow2(width));
        let m = (num_limbs - 1) * width;
        lemma_pow2_pos(m as nat);
        assert(num_limbs * width == width + m) by (nonlinear_arith)
            requires
                m == (num_limbs - 1) * width,
        ;
        lemma_pow2_adds(width, m as nat);
        lemma_mod_breakdown(v as int, pow2(width) as int, pow2(m as nat) as int);
    }
}

/// The limbs of a number fit their width.
pub proof fn lemma_decompose_in_range(v: nat, num_limbs: nat, width: nat)
    requires
        width <= 64,
    ensures
        limbs_in_range(decompose_spec(v, num_limbs, width), width),
{
    assert forall|i: int| 0 <= i < num_limbs implies (#[trigger] decompose_spec(
        v,
        num_limbs,
        width,
    )[i] as nat) < pow2(width) by {
        lemma_limb_of_bound(v, i as nat, width);
    }
}

/// Round trip: a number that fits in `num_limbs` limbs is spelled by them.
pub proof fn lemma_round_trip(v: nat, num_limbs: nat, width: nat)
    requires
        width <= 64,
        v < pow2(num_limbs * width),
    ensures
        limbs_value(decompose_spec(v, num_limbs, width), width) == v,
        limbs_in_range(decompose_spec(v, num_limbs, width), width),
{
    lemma_decompose_value(v, num_limbs, width);
    lemma_small_mod(v, pow2(num_limbs * width));
    lemma_decompose_in_range(v, num_limbs, width);
}

/// Limbs from a position on spell the head limb plus the rest one limb up.
pub proof fn lemma_value_from(limbs: Seq<u128>, j: int, width: nat)
    requires
        0 <= j < limbs.len(),
    ensures
        limbs_value(limbs.skip(j), width) == limbs[j] as nat + pow2(width) * limbs_value(
            limbs.skip(j + 1),
            width,
        ),
{
    assert(limbs.skip(j).drop_first() =~= limbs.skip(j + 1));
}

/// 2^e as a machine integer.
pub fn pow2_u128(e: usize) -> (r: u128)
    requires
        e <= 127,
    ensures
        r == pow2(e as nat),
{
    let mut r: u128 = 1;
    let mut i: usize = 0;
    proof {
        lemma2_to64();
    }
    while i < e
        invariant
            i <= e <= 127,
            r == pow2(i as nat),
        decreases e - i,
    {
        proof {
            lemma_pow2_unfold((i + 1) as nat);
            lemma_pow2_127();
            if i + 1 < 127 {
                lemma_pow2_strictly_increases((i + 1) as nat, 127);
            }
        }
        r = r * 2;
        i = i + 1;
    }
    r
}

/// 2^31 and what is below it.
pub proof fn lemma_pow2_u32(e: nat)
    requires
        e <= 31,
    ensures
        1 <= pow2(e) <= 0x8000_0000,
{
    lemma2_to64();
    lemma_pow2_pos(e);
    if e < 31 {
        lemma_pow2_strictly_increases(e, 31);
    }
}

/// 2^127, the largest power of two in 128 bits.
pub proof fn lemma_pow2_127()
    ensures
        pow2(127) == 0x8000_0000_0000_0000_0000_0000_0000_0000,
{
    lemma2_to64();
    lemma2_to64_rest();
    lemma_pow2_adds(64, 63);
}

/// Regroups the bits of a limb vector: the number that `src` spells in limbs
/// of `src_width` bits, cut into `dst_len` limbs of `dst_width` bits.
pub fn regroup(src: &Vec<u128>, src_width: usize, dst_width: usize, dst_len: usize) -> (dst: Vec<
    u128,
>)
    requires
        src_width <= 64,
        dst_width <= 64,
        limbs_in_range(src@, src_width as nat),
    ensures
        dst@ == decompose_spec(limbs_value(src@, src_width as nat), dst_len as nat, dst_width as nat),
{
    let ghost v = limbs_value(src@, src_width as nat);
    let ghost sw = src_width as nat;
    let ghost dw = dst_width as nat;
    let src_base: u128 = pow2_u128(src_width);
    let dst_base: u128 = pow2_u128(dst_width);
    let mut dst: Vec<u128> = Vec::new();
    // `pending` holds the `avail` bits taken from `src` and not yet given out.
    let mut pending: u128 = 0;
    let mut avail: usize = 0;
    let mut scale: u128 = 1;
    let mut j: usize = 0;
    let mut i: usize = 0;
    proof {
        lemma2_to64();
        lemma_pow2_width(sw);
        lemma_pow2_width(dw);
        assert(0 * dw == 0) by (nonlinear_arith);
        assert(src@.skip(0) =~= src@);
    }
    while i < dst_len
        invariant
            i <= dst_len,
            j <= src.len(),
            src_width <= 64,
            dst_width <= 64,
            sw == src_width,
            dw == dst_width,
            v == limbs_value(src@, sw),
            limbs_in_range(src@, sw),
            src_base == pow2(sw),
            dst_base == pow2(dw),
            0 < dst_base <= 0x1_0000_0000_0000_0000,
            0 < src_base <= 0x1_0000_0000_0000_0000,
            avail < dst_width + src_width || avail == 0,
            scale == pow2(avail as nat),
            pending < scale,
            v / pow2(i as nat * dw) == pending + scale * limbs_value(src@.skip(j as int), sw),
            dst@ == decompose_spec(v, i as nat, dw),
        decreases dst_len - i,
    {
        while avail < dst_width && j < src.len()
            invariant
                j <= src.len(),
                src_width <= 64,
                dst_width <= 64,
                sw == src_width,
                dw == dst_width,
                limbs_in_range(src@, sw),
                src_base == pow2(sw),
                0 < src_base <= 0x1_0000_0000_0000_0000,
                avail < dst_width + src_width || avail == 0,
                scale == pow2(avail as nat),
                pending < scale,
                v / pow2(i as nat * dw) == pending + scale * limbs_value(src@.skip(j as int), sw),
            decreases src.len() - j,
        {
            let limb: u128 = src[j];
            proof {
                let rest = limbs_value(src@.skip(j + 1), sw);
                lemma_value_from(src@, j as int, sw);
                lemma_pow2_adds(avail as nat, sw);
                lemma_pow2_width(avail as nat);
                lemma2_to64_rest();
                if avail < 63 {
                    lemma_pow2_strictly_increases(avail as nat, 63);
                }
                assert(scale <= 0x8000_0000_0000_0000);
                assert(limb < src_base);
                assert(limb * scale <= 0x1_0000_0000_0000_0000 * 0x8000_0000_0000_0000)
                    by (nonlinear_arith)
                    requires
                        limb <= 0x1_0000_0000_0000_0000,
                        scale <= 0x8000_0000_0000_0000,
                ;
                assert(scale * src_base <= 0x8000_0000_0000_0000 * 0x1_0000_0000_0000_0000)
                    by (nonlinear_arith)
                    requires
                        src_base <= 0x1_0000_0000_0000_0000,
                        scale <= 0x8000_0000_0000_0000,
                ;
                assert(pending + limb * scale < scale * src_base) by (nonlinear_arith)
                    requires
                        pending < scale,
                        limb < src_base,
                ;
                assert(pending + scale * (limb + src_base * rest) == (pending + limb * scale)
                    + (scale * src_base) * rest) by (nonlinear_arith);
            }
            pending = pending + limb * scale;
            scale = scale * src_base;
            avail = avail + src_width;
            j = j + 1;
        }
        let out: u128 = pending % dst_base;
        let ghost whole = v / pow2(i as nat * dw);
        let ghost rest = limbs_value(src@.skip(j as int), sw);
        proof {
            lemma_limb_of_shift(v, i as nat, dw);
            lemma_fundamental_div_mod(pending as int, dst_base as int);
            if avail >= dst_width {
                let up = pow2((avail - dst_width) as nat);
                lemma_pow2_adds(dw, (avail - dst_width) as nat);
                lemma_pow2_pos((avail - dst_width) as nat);
                assert(scale == dst_base * up);
                let q = pending / dst_base + up * rest;
                assert(whole == q * dst_base + out) by (nonlinear_arith)
                    requires
                        whole == pending + scale * rest,
                        scale == dst_base * up,
                        pending == dst_base * (pending / dst_base) + out,
                        q == pending / dst_base + up * rest,
                ;
                lemma_fundamental_div_mod_converse(
                    whole as int,
                    dst_base as int,
                    q as int,
                    out as int,
                );
                lemma_multiply_divide_lt(pending as int, dst_base as int, up as int);
            } else {
                assert(src@.skip(j as int) =~= Seq::<u128>::empty());
                assert(scale * rest == 0) by (nonlinear_arith)
                    requires
                        rest == 0,
                ;
                lemma_pow2_strictly_increases(avail as nat, dw);
                lemma_small_mod(pending as nat, dst_base as nat);
                lemma_fundamental_div_mod_converse(whole as int, dst_base as int, 0, out as int);
                lemma2_to64();
            }
            lemma_limb_of_bound(v, i as nat, dw);
            assert(out == limb_of(v, i as nat, dw));
        }
        pending = pending / dst_base;
        if avail >= dst_width {
            avail = avail - dst_width;
            scale = scale / dst_base;
            proof {
                let up = pow2(avail as nat);
                lemma_pow2_adds(dw, avail as nat);
                lemma_fundamental_div_mod_converse(
                    (dst_base * up) as int,
                    dst_base as int,
                    up as int,
                    0,
                );
            }
        } else {
            avail = 0;
            scale = 1;
        }
        dst.push(out);
        i = i + 1;
        proof {
            assert(dst@ =~= decompose_spec(v, i as nat, dw));
        }
    }
    dst
}

/// Limbs that fit their width spell a number below 2^(width * length).
pub proof fn lemma_value_bound(limbs: Seq<u128>, width: nat)
    requires
        limbs_in_range(limbs, width),
    ensures
        limbs_value(limbs, width) < pow2(limbs.len() * width),
    decreases limbs.len(),
{
    if limbs.len() == 0 {
        assert(limbs.len() * width == 0) by (nonlinear_arith)
            requires
                limbs.len() == 0,
        ;
        lemma2_to64();
    } else {
        let rest = limbs.drop_first();
        assert(limbs_in_range(rest, width)) by {
            assert forall|i: int| 0 <= i < rest.len() implies (#[trigger] rest[i] as nat) < pow2(
                width,
            ) by {
                assert(rest[i] == limbs[i + 1]);
            }
        }
        lemma_value_bound(rest, width);
        assert(limbs.len() * width == width + rest.len() * width) by (nonlinear_arith)
            requires
                limbs.len() == rest.len() + 1,
        ;
        lemma_pow2_adds(width, rest.len() * width);
        let head = limbs[0] as nat;
        let tail = limbs_value(rest, width);
        let base = pow2(width);
        let top = pow2(rest.len() * width);
        assert(head + base * tail < base * top) by (nonlinear_arith)
            requires
                head < base,
                tail < top,
        ;
    }
}

/// Base 2^32 digits spell the same number when read as limbs of 32 bits.
pub proof fn lemma_digits_as_limbs(digits: Seq<u32>, limbs: Seq<u128>)
    requires
        limbs.len() == digits.len(),
        forall|i: int| 0 <= i < digits.len() ==> limbs[i] == digits[i],
    ensures
        limbs_value(limbs, 32) == digits_value(digits),
        limbs_in_range(limbs, 32),
    decreases digits.len(),
{
    lemma2_to64();
    if digits.len() > 0 {
        lemma_digits_as_limbs(digits.drop_first(), limbs.drop_first());
    }
}

/// The digits of a big integer, each in a 64-bit limb.
fn widen_digits(digits: &Vec<u32>) -> (limbs: Vec<u128>)
    ensures
        limbs@.len() == digits@.len(),
        forall|i: int| 0 <= i < digits@.len() ==> limbs@[i] == digits@[i],
{
    let mut limbs: Vec<u128> = Vec::new();
    let mut i: usize = 0;
    while i < digits.len()
        invariant
            i <= digits.len(),
            limbs@.len() == i,
            forall|k: int| 0 <= k < i ==> limbs@[k] == digits@[k],
        decreases digits.len() - i,
    {
        limbs.push(digits[i] as u128);
        i = i + 1;
    }
    limbs
}

/// Splits `value` into `num_limbs` limbs of `limb_width` bits each, least
/// significant first. Bits of `value` from `num_limbs * limb_width` on are
/// left out: a value that fits comes back from [`recompose`] unchanged.
pub fn decompose(value: &BigUint, num_limbs: usize, limb_width: usize) -> (limbs: Vec<u128>)
    requires
        limb_width <= MAX_LIMB_WIDTH,
    ensures
        limbs@ == decompose_spec(big_value(*value), num_limbs as nat, limb_width as nat),
        limbs_in_range(limbs@, limb_width as nat),
        limbs_value(limbs@, limb_width as nat) == big_value(*value) % pow2(
            num_limbs as nat * limb_width as nat,
        ),
{
    let digits: Vec<u32> = big_digits(value);
    let wide: Vec<u128> = widen_digits(&digits);
    proof {
        lemma_digits_as_limbs(digits@, wide@);
    }
    let limbs: Vec<u128> = regroup(&wide, 32, limb_width, num_limbs);
    proof {
        let v = big_value(*value);
        lemma_decompose_value(v, num_limbs as nat, limb_width as nat);
        lemma_decompose_in_range(v, num_limbs as nat, limb_width as nat);
    }
    limbs
}

/// The big integer that `limbs` spell: the sum of `limbs[i] * 2^(limb_width * i)`.
pub fn recompose(limbs: &Vec<u128>, limb_width: usize) -> (value: BigUint)
    requires
        limb_width <= MAX_LIMB_WIDTH,
    ensures
        big_value(value) == limbs_value(limbs@, limb_width as nat),
{
    let mut value: BigUint = big_from_u128(0);
    let mut i: usize = limbs.len();
    proof {
        assert(limbs@.skip(i as int) =~= Seq::<u128>::empty());
    }
    while i > 0
        invariant
            i <= limbs.len(),
            limb_width <= MAX_LIMB_WIDTH,
            big_value(value) == limbs_value(limbs@.skip(i as int), limb_width as nat),
        decreases i,
    {
        i = i - 1;
        let upper: BigUint = big_shl(&value, limb_width);
        let limb: BigUint = big_from_u128(limbs[i]);
        value = big_sum(&limb, &upper);
        proof {
            lemma_value_from(limbs@, i as int, limb_width as nat);
            let rest = limbs_value(limbs@.skip(i + 1), limb_width as nat);
            assert(rest * pow2(limb_width as nat) == pow2(limb_width as nat) * rest)
                by (nonlinear_arith);
        }
    }
    proof {
        assert(limbs@.skip(0) =~= limbs@);
    }
    value
}

} // verus!
