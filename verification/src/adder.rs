//! The carry chain of the adder, the constraints that pin it down, and the
//! limb-wise comparison of two integers, as functions on limb sequences.

use crate::limbs::{
    decompose_spec, lemma_decompose_in_range, lemma_decompose_value, lemma_round_trip,
    lemma_value_bound, limbs_in_range, limbs_value,
};
use vstd::arithmetic::div_mod::{
    lemma_basic_div, lemma_fundamental_div_mod, lemma_fundamental_div_mod_converse,
    lemma_small_mod,
};
use vstd::arithmetic::power2::{
    lemma_pow2_pos, lemma_pow2_strictly_increases, lemma_pow2_unfold, pow2,
};
use vstd::prelude::*;

verus! {

/// Limb `i` of a limb vector that is read as going on with zero limbs.
pub open spec fn limb_at(limbs: Seq<u128>, i: int) -> u128 {
    if 0 <= i < limbs.len() {
        limbs[i]
    } else {
        0
    }
}

/// The limbs from limb `i` on; none where the vector is shorter.
pub open spec fn limbs_from(limbs: Seq<u128>, i: int) -> Seq<u128> {
    if 0 <= i <= limbs.len() {
        limbs.skip(i)
    } else {
        Seq::empty()
    }
}

/// The longer of two lengths.
pub open spec fn longer(a: nat, b: nat) -> nat {
    if a >= b {
        a
    } else {
        b
    }
}

/// The limbs of a sum, least significant first. At each limb the raw sum is
/// the two limbs plus the carry that came in; the limb of the result is the
/// raw sum modulo the limb base, and the raw sum divided by the limb base is
/// carried into the next limb. The last carry is the most significant limb of
/// the result, which so has one limb more than the longer operand.
pub open spec fn ripple_sum(a: Seq<u128>, b: Seq<u128>, carry: nat, width: nat) -> Seq<u128>
    decreases a.len() + b.len(),
{
    if a.len() == 0 && b.len() == 0 {
        seq![carry as u128]
    } else {
        let raw = limb_at(a, 0) as nat + limb_at(b, 0) as nat + carry;
        seq![(raw % pow2(width)) as u128] + ripple_sum(
            limbs_from(a, 1),
            limbs_from(b, 1),
            raw / pow2(width),
            width,
        )
    }
}

/// Addition correctness: the carry chain on limbs that fit their width gives
/// limbs that fit their width and spell the sum of the two numbers and the
/// carry that came in, and one limb more than the longer operand.
pub proof fn lemma_ripple_sum(a: Seq<u128>, b: Seq<u128>, carry: nat, width: nat)
    requires
        1 <= width <= 64,
        limbs_in_range(a, width),
        limbs_in_range(b, width),
        carry <= 1,
    ensures
        ripple_sum(a, b, carry, width).len() == longer(a.len(), b.len()) + 1,
        limbs_in_range(ripple_sum(a, b, carry, width), width),
        limbs_value(ripple_sum(a, b, carry, width), width) == limbs_value(a, width) + limbs_value(
            b,
            width,
        ) + carry,
    decreases a.len() + b.len(),
{
    let base = pow2(width);
    let sum = ripple_sum(a, b, carry, width);
    lemma_pow2_pos(width);
    lemma_pow2_unfold(width);
    lemma_pow2_pos((width - 1) as nat);
    crate::limbs::lemma_pow2_width(width);
    if a.len() == 0 && b.len() == 0 {
        assert(sum.drop_first() =~= Seq::<u128>::empty());
        assert(base * 0 == 0) by (nonlinear_arith);
    } else {
        let raw = limb_at(a, 0) as nat + limb_at(b, 0) as nat + carry;
        let ta = limbs_from(a, 1);
        let tb = limbs_from(b, 1);
        let rest = ripple_sum(ta, tb, raw / base, width);
        assert(limbs_in_range(ta, width)) by {
            assert forall|i: int| 0 <= i < ta.len() implies (#[trigger] ta[i] as nat) < base by {
                assert(ta[i] == a[i + 1]);
            }
        }
        assert(limbs_in_range(tb, width)) by {
            assert forall|i: int| 0 <= i < tb.len() implies (#[trigger] tb[i] as nat) < base by {
                assert(tb[i] == b[i + 1]);
            }
        }
        assert(limb_at(a, 0) as nat <= base - 1) by {
            if a.len() > 0 {
                assert((a[0] as nat) < base);
            }
        }
        assert(limb_at(b, 0) as nat <= base - 1) by {
            if b.len() > 0 {
                assert((b[0] as nat) < base);
            }
        }
        lemma_fundamental_div_mod(raw as int, base as int);
        assert(raw / base <= 1) by (nonlinear_arith)
            requires
                raw <= 2 * base - 1,
                raw == base * (raw / base) + raw % base,
                0 <= raw % base,
                base > 0,
        ;
        lemma_ripple_sum(ta, tb, raw / base, width);
        assert(sum.drop_first() =~= rest);
        assert(sum[0] == raw % base);
        assert forall|i: int| 0 <= i < sum.len() implies (#[trigger] sum[i] as nat) < base by {
            if i > 0 {
                assert(sum[i] == rest[i - 1]);
            }
        }
        assert(limbs_value(a, width) == limb_at(a, 0) + base * limbs_value(ta, width)) by {
            if a.len() == 0 {
                assert(base * 0 == 0) by (nonlinear_arith);
            } else {
                assert(ta =~= a.drop_first());
            }
        }
        assert(limbs_value(b, width) == limb_at(b, 0) + base * limbs_value(tb, width)) by {
            if b.len() == 0 {
                assert(base * 0 == 0) by (nonlinear_arith);
            } else {
                assert(tb =~= b.drop_first());
            }
        }
        let va = limbs_value(ta, width);
        let vb = limbs_value(tb, width);
        let q = raw / base;
        assert(raw % base + base * (va + vb + q) == (base * q + raw % base) + base * va + base
            * vb) by (nonlinear_arith);
    }
}

/// The constraints that the adder places on its cells: `carries[i]` is the
/// carry into limb `i`, none comes into limb 0, at each limb of the operands
/// the two limbs and the carry that came in are the limb of the result plus
/// the limb base times the carry that goes out, and the last carry is the
/// most significant limb of the result.
pub open spec fn carry_chain_holds(
    a: Seq<u128>,
    b: Seq<u128>,
    out: Seq<u128>,
    carries: Seq<nat>,
    width: nat,
) -> bool {
    let len = longer(a.len(), b.len()) as int;
    &&& out.len() == len + 1
    &&& carries.len() == len + 1
    &&& carries[0] == 0
    &&& forall|i: int|
        0 <= i < len ==> limb_at(a, i) as nat + limb_at(b, i) as nat + carries[i] == (
        #[trigger] out[i]) as nat + pow2(width) * carries[i + 1]
    &&& out[len] as nat == carries[len]
}

/// The adder's constraints are sound: whatever witness meets them, the
/// result spells the sum of the two operands. This holds of limbs of any
/// size, so the sum does not rest on how the witness was computed.
pub proof fn lemma_carry_chain_sound(
    a: Seq<u128>,
    b: Seq<u128>,
    out: Seq<u128>,
    carries: Seq<nat>,
    width: nat,
)
    requires
        carry_chain_holds(a, b, out, carries, width),
    ensures
        limbs_value(out, width) == limbs_value(a, width) + limbs_value(b, width),
{
    lemma_carry_chain_from(a, b, out, carries, width, 0);
    assert(out.skip(0) =~= out);
    assert(limbs_from(a, 0) =~= a);
    assert(limbs_from(b, 0) =~= b);
}

/// The part of [`lemma_carry_chain_sound`] from limb `i` on: the limbs of the
/// result from there spell what the limbs of the operands from there spell,
/// plus the carry that came in.
pub proof fn lemma_carry_chain_from(
    a: Seq<u128>,
    b: Seq<u128>,
    out: Seq<u128>,
    carries: Seq<nat>,
    width: nat,
    i: int,
)
    requires
        carry_chain_holds(a, b, out, carries, width),
        0 <= i <= longer(a.len(), b.len()),
    ensures
        limbs_value(out.skip(i), width) == limbs_value(limbs_from(a, i), width) + limbs_value(
            limbs_from(b, i),
            width,
        ) + carries[i],
    decreases longer(a.len(), b.len()) - i,
{
    let len = longer(a.len(), b.len()) as int;
    let base = pow2(width);
    let rest = out.skip(i);
    assert(rest.drop_first() =~= out.skip(i + 1));
    assert(rest[0] == out[i]);
    if i == len {
        assert(limbs_from(a, i) =~= Seq::<u128>::empty());
        assert(limbs_from(b, i) =~= Seq::<u128>::empty());
        assert(base * 0 == 0) by (nonlinear_arith);
    } else {
        lemma_carry_chain_from(a, b, out, carries, width, i + 1);
        let fa = limbs_from(a, i);
        let fb = limbs_from(b, i);
        let ta = limbs_from(a, i + 1);
        let tb = limbs_from(b, i + 1);
        assert(limbs_value(fa, width) == limb_at(a, i) + base * limbs_value(ta, width)) by {
            if i < a.len() {
                assert(fa.drop_first() =~= ta);
            } else {
                assert(base * 0 == 0) by (nonlinear_arith);
            }
        }
        assert(limbs_value(fb, width) == limb_at(b, i) + base * limbs_value(tb, width)) by {
            if i < b.len() {
                assert(fb.drop_first() =~= tb);
            } else {
                assert(base * 0 == 0) by (nonlinear_arith);
            }
        }
        let va = limbs_value(ta, width);
        let vb = limbs_value(tb, width);
        let next = carries[i + 1];
        assert(base * (va + vb + next) == base * va + base * vb + base * next)
            by (nonlinear_arith);
        assert(limbs_value(out.skip(i + 1), width) == va + vb + next);
        assert(limbs_value(rest, width) == out[i] as nat + base * limbs_value(
            out.skip(i + 1),
            width,
        ));
        assert(limb_at(a, i) as nat + limb_at(b, i) as nat + carries[i] == out[i] as nat + base
            * next);
    }
}

/// The carries of the chain of [`ripple_sum`]: one into each limb of the
/// result.
pub open spec fn ripple_carries(a: Seq<u128>, b: Seq<u128>, width: nat) -> Seq<nat> {
    Seq::new(longer(a.len(), b.len()) + 1, |i: int| ripple_carry(a, b, i as nat, width))
}

/// The carry into limb `i` of the chain: none into limb 0, and into each
/// later limb the raw sum of the limb before it, divided by the limb base.
pub open spec fn ripple_carry(a: Seq<u128>, b: Seq<u128>, i: nat, width: nat) -> nat
    decreases i,
{
    if i == 0 {
        0
    } else {
        (limb_at(a, i - 1) as nat + limb_at(b, i - 1) as nat + ripple_carry(
            a,
            b,
            (i - 1) as nat,
            width,
        )) / pow2(width)
    }
}

/// The carry chain from limb `i` on, given the limbs before it: a step of the
/// chain as the adder takes it.
pub proof fn lemma_ripple_step(a: Seq<u128>, b: Seq<u128>, i: int, carry: nat, width: nat)
    requires
        0 <= i < longer(a.len(), b.len()),
    ensures
        ripple_sum(limbs_from(a, i), limbs_from(b, i), carry, width) == seq![
            ((limb_at(a, i) as nat + limb_at(b, i) as nat + carry) % pow2(width)) as u128,
        ] + ripple_sum(
            limbs_from(a, i + 1),
            limbs_from(b, i + 1),
            (limb_at(a, i) as nat + limb_at(b, i) as nat + carry) / pow2(width),
            width,
        ),
{
    let fa = limbs_from(a, i);
    let fb = limbs_from(b, i);
    lemma_pow2_pos(width);
    assert(fa.len() > 0 || fb.len() > 0);
    assert(limbs_from(fa, 1) =~= limbs_from(a, i + 1));
    assert(limbs_from(fb, 1) =~= limbs_from(b, i + 1));
    assert(limb_at(fa, 0) == limb_at(a, i));
    assert(limb_at(fb, 0) == limb_at(b, i));
}

/// Limb `i` of the carry chain that starts at limb `j` with the carry into
/// limb `j`: the raw sum at limb `j + i` modulo the limb base, and after the
/// last limb of the operands the last carry.
pub proof fn lemma_ripple_index(a: Seq<u128>, b: Seq<u128>, j: int, i: int, width: nat)
    requires
        0 <= j,
        0 <= i,
        j + i <= longer(a.len(), b.len()),
    ensures
        ({
            let len = longer(a.len(), b.len()) as int;
            let chain = ripple_sum(
                limbs_from(a, j),
                limbs_from(b, j),
                ripple_carry(a, b, j as nat, width),
                width,
            );
            &&& chain.len() == len - j + 1
            &&& chain[i] == if j + i < len {
                ((limb_at(a, j + i) as nat + limb_at(b, j + i) as nat + ripple_carry(
                    a,
                    b,
                    (j + i) as nat,
                    width,
                )) % pow2(width)) as u128
            } else {
                ripple_carry(a, b, len as nat, width) as u128
            }
        }),
    decreases longer(a.len(), b.len()) - j,
{
    let len = longer(a.len(), b.len()) as int;
    let carry = ripple_carry(a, b, j as nat, width);
    lemma_pow2_pos(width);
    if j < len {
        lemma_ripple_step(a, b, j, carry, width);
        lemma_ripple_index(a, b, j + 1, if i > 0 {
            i - 1
        } else {
            0
        }, width);
    } else {
        assert(limbs_from(a, j) =~= Seq::<u128>::empty());
        assert(limbs_from(b, j) =~= Seq::<u128>::empty());
    }
}

/// The witness that the carry chain computes meets the adder's constraints.
pub proof fn lemma_ripple_meets_constraints(a: Seq<u128>, b: Seq<u128>, width: nat)
    requires
        1 <= width <= 64,
        limbs_in_range(a, width),
        limbs_in_range(b, width),
    ensures
        carry_chain_holds(a, b, ripple_sum(a, b, 0, width), ripple_carries(a, b, width), width),
{
    let len = longer(a.len(), b.len()) as int;
    let out = ripple_sum(a, b, 0, width);
    let carries = ripple_carries(a, b, width);
    let base = pow2(width);
    crate::limbs::lemma_pow2_width(width);
    assert(limbs_from(a, 0) =~= a);
    assert(limbs_from(b, 0) =~= b);
    lemma_ripple_index(a, b, 0, len, width);
    lemma_ripple_carry_bound(a, b, len as nat, width);
    assert forall|i: int| 0 <= i < len implies limb_at(a, i) as nat + limb_at(b, i) as nat
        + carries[i] == (#[trigger] out[i]) as nat + base * carries[i + 1] by {
        lemma_ripple_index(a, b, 0, i, width);
        let raw = limb_at(a, i) as nat + limb_at(b, i) as nat + ripple_carry(
            a,
            b,
            i as nat,
            width,
        );
        lemma_fundamental_div_mod(raw as int, base as int);
        assert(carries[i + 1] == raw / base);
    }
}

/// With limbs that fit their width, no carry of the chain is more than 1.
pub proof fn lemma_ripple_carry_bound(a: Seq<u128>, b: Seq<u128>, i: nat, width: nat)
    requires
        limbs_in_range(a, width),
        limbs_in_range(b, width),
    ensures
        ripple_carry(a, b, i, width) <= 1,
    decreases i,
{
    if i > 0 {
        let base = pow2(width);
        lemma_pow2_pos(width);
        lemma_ripple_carry_bound(a, b, (i - 1) as nat, width);
        let raw = limb_at(a, i - 1) as nat + limb_at(b, i - 1) as nat + ripple_carry(
            a,
            b,
            (i - 1) as nat,
            width,
        );
        if i - 1 < a.len() {
            assert((a[i - 1] as nat) < base);
        }
        if i - 1 < b.len() {
            assert((b[i - 1] as nat) < base);
        }
        lemma_fundamental_div_mod(raw as int, base as int);
        assert(raw / base <= 1) by (nonlinear_arith)
            requires
                raw <= 2 * base - 1,
                raw == base * (raw / base) + raw % base,
                0 <= raw % base,
                base > 0,
        ;
    }
}

/// The violations of asserting two limb vectors equal over their first `upto`
/// limbs, the shorter one read as going on with zero limbs: one for each limb
/// at which they differ, in the order of the limbs.
pub open spec fn equality_failures(x: Seq<u128>, y: Seq<u128>, upto: nat) -> Seq<
    crate::chip::Violation,
>
    decreases upto,
{
    if upto == 0 {
        Seq::empty()
    } else {
        let before = equality_failures(x, y, (upto - 1) as nat);
        if limb_at(x, upto - 1) == limb_at(y, upto - 1) {
            before
        } else {
            before.push(crate::chip::Violation::NotEqual { limb: (upto - 1) as usize })
        }
    }
}

/// No limb is reported exactly if the two vectors agree at every limb.
pub proof fn lemma_equality_failures(x: Seq<u128>, y: Seq<u128>, upto: nat)
    ensures
        equality_failures(x, y, upto).len() == 0 <==> (forall|i: int|
            0 <= i < upto ==> limb_at(x, i) == limb_at(y, i)),
    decreases upto,
{
    if upto > 0 {
        lemma_equality_failures(x, y, (upto - 1) as nat);
    }
}

/// Zero limbs at the end of a vector change nothing of the number it spells.
pub proof fn lemma_value_extended(limbs: Seq<u128>, len: nat, width: nat)
    requires
        len >= limbs.len(),
    ensures
        limbs_value(Seq::new(len, |i: int| limb_at(limbs, i)), width) == limbs_value(limbs, width),
    decreases len,
{
    let ext = Seq::new(len, |i: int| limb_at(limbs, i));
    if len > 0 {
        let tail = limbs_from(limbs, 1);
        let tail_ext = Seq::new((len - 1) as nat, |i: int| limb_at(tail, i));
        assert(ext.drop_first() =~= tail_ext);
        lemma_value_extended(tail, (len - 1) as nat, width);
        if limbs.len() == 0 {
            assert(pow2(width) * 0 == 0) by (nonlinear_arith);
        } else {
            assert(tail =~= limbs.drop_first());
        }
    }
}

/// Limbs that fit their width are determined by the number they spell: two
/// vectors of one length that spell the same number are the same.
pub proof fn lemma_limbs_unique(p: Seq<u128>, q: Seq<u128>, width: nat)
    requires
        p.len() == q.len(),
        limbs_in_range(p, width),
        limbs_in_range(q, width),
        limbs_value(p, width) == limbs_value(q, width),
    ensures
        p == q,
    decreases p.len(),
{
    if p.len() > 0 {
        let base = pow2(width);
        lemma_pow2_pos(width);
        let tp = p.drop_first();
        let tq = q.drop_first();
        assert((p[0] as nat) < base && (q[0] as nat) < base);
        let v = limbs_value(p, width);
        assert(base * limbs_value(tp, width) == limbs_value(tp, width) * base)
            by (nonlinear_arith);
        assert(base * limbs_value(tq, width) == limbs_value(tq, width) * base)
            by (nonlinear_arith);
        lemma_fundamental_div_mod_converse(
            v as int,
            base as int,
            limbs_value(tp, width) as int,
            p[0] as int,
        );
        lemma_fundamental_div_mod_converse(
            v as int,
            base as int,
            limbs_value(tq, width) as int,
            q[0] as int,
        );
        assert(limbs_in_range(tp, width)) by {
            assert forall|i: int| 0 <= i < tp.len() implies (#[trigger] tp[i] as nat) < base by {
                assert(tp[i] == p[i + 1]);
            }
        }
        assert(limbs_in_range(tq, width)) by {
            assert forall|i: int| 0 <= i < tq.len() implies (#[trigger] tq[i] as nat) < base by {
                assert(tq[i] == q[i + 1]);
            }
        }
        lemma_limbs_unique(tp, tq, width);
        assert(p =~= seq![p[0]] + tp);
        assert(q =~= seq![q[0]] + tq);
    }
    assert(p =~= q);
}

/// The first `count` limbs of limbs that fit their width spell the number
/// without its bits from `count * width` on, and the number is below
/// 2^(count * width) exactly if every limb from limb `count` on is zero.
pub proof fn lemma_first_limbs(limbs: Seq<u128>, count: nat, width: nat)
    requires
        width <= 64,
        count <= limbs.len(),
        limbs_in_range(limbs, width),
    ensures
        limbs_in_range(limbs.take(count as int), width),
        limbs_value(limbs.take(count as int), width) == limbs_value(limbs, width) % pow2(
            count * width,
        ),
        limbs_value(limbs, width) < pow2(count * width) <==> (forall|k: int|
            count <= k < limbs.len() ==> limbs[k] == 0),
{
    let v = limbs_value(limbs, width);
    let len = limbs.len();
    let first = limbs.take(count as int);
    let again = decompose_spec(v, len, width);
    lemma_value_bound(limbs, width);
    lemma_round_trip(v, len, width);
    lemma_limbs_unique(limbs, again, width);
    assert(first =~= decompose_spec(v, count, width));
    lemma_decompose_value(v, count, width);
    lemma_decompose_in_range(v, count, width);
    lemma_pow2_pos(width);
    if v < pow2(count * width) {
        assert forall|k: int| count <= k < len implies limbs[k] == 0 by {
            assert(count * width <= k * width) by (nonlinear_arith)
                requires
                    count <= k,
            ;
            if count * width < k * width {
                lemma_pow2_strictly_increases(count * width, (k * width) as nat);
            }
            lemma_basic_div(v as int, pow2((k * width) as nat) as int);
            lemma_small_mod(0, pow2(width));
            assert(limbs[k] == again[k]);
        }
    }
    if forall|k: int| count <= k < len ==> limbs[k] == 0 {
        let ext = Seq::new(len, |i: int| limb_at(first, i));
        assert(ext =~= limbs);
        lemma_value_extended(first, len, width);
        lemma_value_bound(first, width);
    }
}

/// Asserting two integers equal, limb by limb, reports nothing exactly if
/// they are the same number.
pub proof fn lemma_equal_iff_same_value(x: Seq<u128>, y: Seq<u128>, width: nat)
    requires
        limbs_in_range(x, width),
        limbs_in_range(y, width),
    ensures
        equality_failures(x, y, longer(x.len(), y.len())).len() == 0 <==> limbs_value(x, width)
            == limbs_value(y, width),
{
    let len = longer(x.len(), y.len());
    let ex = Seq::new(len, |i: int| limb_at(x, i));
    let ey = Seq::new(len, |i: int| limb_at(y, i));
    lemma_pow2_pos(width);
    lemma_equality_failures(x, y, len);
    lemma_value_extended(x, len, width);
    lemma_value_extended(y, len, width);
    assert(limbs_in_range(ex, width)) by {
        assert forall|i: int| 0 <= i < ex.len() implies (#[trigger] ex[i] as nat) < pow2(
            width,
        ) by {
            if i < x.len() {
                assert((x[i] as nat) < pow2(width));
            }
        }
    }
    assert(limbs_in_range(ey, width)) by {
        assert forall|i: int| 0 <= i < ey.len() implies (#[trigger] ey[i] as nat) < pow2(
            width,
        ) by {
            if i < y.len() {
                assert((y[i] as nat) < pow2(width));
            }
        }
    }
    if limbs_value(x, width) == limbs_value(y, width) {
        lemma_limbs_unique(ex, ey, width);
        assert forall|i: int| 0 <= i < len implies limb_at(x, i) == limb_at(y, i) by {
            assert(ex[i] == ey[i]);
        }
    }
    if forall|i: int| 0 <= i < len ==> limb_at(x, i) == limb_at(y, i) {
        assert(ex =~= ey);
    }
}

} // verus!
