//! The plain-integer Fibonacci oracle: the same additive chain that the
//! circuit walks, computed on machine integers and on big integers.

use crate::bigint::{big_from_u128, big_sum, big_value};
use num_bigint::BigUint;
use vstd::arithmetic::power2::{lemma_pow2_unfold, pow2};
use vstd::prelude::*;

verus! {

/// Term `n` of the additive chain that starts with `a`, `b`: every later term
/// is the sum of the two before it.
pub open spec fn chain_term(a: nat, b: nat, n: nat) -> nat
    decreases n,
{
    if n == 0 {
        a
    } else if n == 1 {
        b
    } else {
        chain_term(a, b, (n - 1) as nat) + chain_term(a, b, (n - 2) as nat)
    }
}

/// The Fibonacci numbers 0, 1, 1, 2, 3, 5, ...: the chain that starts with 0, 1.
pub open spec fn fibonacci(n: nat) -> nat {
    chain_term(0, 1, n)
}

/// The index of the term that a chain of `n` steps ends on. The first addition
/// is always made, so a chain never ends before term 2.
pub open spec fn last_term(n: nat) -> nat {
    if n < 2 {
        2
    } else {
        n
    }
}

/// A chain of natural numbers never decreases from term 1 on.
pub proof fn lemma_chain_nondecreasing(a: nat, b: nat, i: nat, j: nat)
    requires
        1 <= i <= j,
    ensures
        chain_term(a, b, i) <= chain_term(a, b, j),
    decreases j,
{
    if i < j {
        if j == 2 {
            assert(chain_term(a, b, 2) == chain_term(a, b, 1) + chain_term(a, b, 0));
        } else {
            lemma_chain_nondecreasing(a, b, i, (j - 1) as nat);
        }
    }
}

/// A chain from two numbers below 2^e grows by at most one bit with each
/// term: term `m`, from term 1 on, is below 2^(e + m - 1).
pub proof fn lemma_chain_bound(a: nat, b: nat, m: nat, e: nat)
    requires
        a < pow2(e),
        b < pow2(e),
    ensures
        chain_term(a, b, m) < pow2(e + m),
        m >= 1 ==> chain_term(a, b, m) < pow2((e + m - 1) as nat),
    decreases m,
{
    if m == 0 {
    } else if m == 1 {
        lemma_pow2_unfold(e + 1);
    } else {
        lemma_chain_bound(a, b, (m - 1) as nat, e);
        lemma_chain_bound(a, b, (m - 2) as nat, e);
        lemma_pow2_unfold((e + m - 1) as nat);
        lemma_pow2_unfold(e + m);
        if m > 2 {
            lemma_pow2_unfold((e + m - 2) as nat);
        }
    }
}

/// The addition formula: F(m + n + 1) = F(m + 1) F(n + 1) + F(m) F(n).
pub proof fn lemma_fibonacci_addition(m: nat, n: nat)
    ensures
        fibonacci(m + n + 1) == fibonacci(m + 1) * fibonacci(n + 1) + fibonacci(m) * fibonacci(n),
    decreases n,
{
    reveal_with_fuel(chain_term, 3);
    if n == 0 {
        assert(fibonacci(m + 1) * 1 + fibonacci(m) * 0 == fibonacci(m + 1)) by (nonlinear_arith);
    } else if n == 1 {
        assert(fibonacci(m + 1) * 1 + fibonacci(m) * 1 == fibonacci(m + 1) + fibonacci(m))
            by (nonlinear_arith);
    } else {
        lemma_fibonacci_addition(m, (n - 1) as nat);
        lemma_fibonacci_addition(m, (n - 2) as nat);
        let p = fibonacci(m + 1);
        let q = fibonacci(m);
        let x = fibonacci(n as nat);
        let y = fibonacci((n - 1) as nat);
        let z = fibonacci((n - 2) as nat);
        assert(fibonacci(n + 1) == x + y);
        assert(x == y + z);
        assert(fibonacci(m + n + 1) == fibonacci(m + n) + fibonacci((m + n - 1) as nat));
        assert(fibonacci(m + n) == p * x + q * y);
        assert(fibonacci((m + n - 1) as nat) == p * y + q * z);
        assert(p * (x + y) + q * (y + z) == (p * x + q * y) + (p * y + q * z))
            by (nonlinear_arith);
    }
}

/// From f = F(k) and g = F(k + 1) to F(2k), F(2k + 1) and F(2k + 2).
pub proof fn lemma_fibonacci_doubling(k: nat, f: nat, g: nat)
    requires
        k >= 1,
        fibonacci(k) == f,
        fibonacci(k + 1) == g,
    ensures
        fibonacci(2 * k) == f * (2 * g - f),
        fibonacci(2 * k + 1) == g * g + f * f,
        fibonacci(2 * k + 2) == f * (2 * g - f) + g * g + f * f,
{
    reveal_with_fuel(chain_term, 3);
    lemma_fibonacci_addition(k, k);
    lemma_fibonacci_addition((k - 1) as nat, k);
    let e = fibonacci((k - 1) as nat);
    assert(g == f + e);
    assert(fibonacci(2 * k) == f * g + e * f);
    assert(f * g + (g - f) * f == f * (2 * g - f)) by (nonlinear_arith);
}

/// The largest Fibonacci numbers that fit in 128 bits.
pub proof fn lemma_fibonacci_185()
    ensures
        fibonacci(185) == 205697230343233228174223751303346572685,
        fibonacci(186) == 332825110087067562321196029789634457848,
        fibonacci(186) <= u128::MAX,
{
    reveal_with_fuel(chain_term, 4);
    assert(fibonacci(2) == 1 && fibonacci(3) == 2);
    lemma_fibonacci_doubling(2, 1, 2);
    lemma_fibonacci_doubling(5, 5, 8);
    lemma_fibonacci_doubling(11, 89, 144);
    lemma_fibonacci_doubling(23, 28657, 46368);
    lemma_fibonacci_doubling(46, 1836311903, 2971215073);
    lemma_fibonacci_doubling(92, 7540113804746346429, 12200160415121876738);
}

/// The Fibonacci number that a chain of `n` steps from 0, 1 ends on, for the
/// step counts whose result fits in 128 bits.
pub fn fib_calc(n: usize) -> (sum: u128)
    requires
        n <= 185,
    ensures
        sum == fibonacci(last_term(n as nat)),
{
    let mut prev: u128 = 1;
    let mut sum: u128 = 1;
    let mut i: usize = 2;
    proof {
        reveal_with_fuel(chain_term, 3);
    }
    while i < n
        invariant
            2 <= i <= last_term(n as nat),
            n <= 185,
            prev == fibonacci((i - 1) as nat),
            sum == fibonacci(i as nat),
        decreases n - i,
    {
        proof {
            lemma_fibonacci_185();
            lemma_chain_nondecreasing(0, 1, (i + 1) as nat, 185);
        }
        let next: u128 = sum + prev;
        prev = sum;
        sum = next;
        i = i + 1;
    }
    sum
}

/// The Fibonacci number that a chain of `n` steps from 0, 1 ends on, as a big
/// integer: no step count is too large.
pub fn big_fib_calc(n: usize) -> (sum: BigUint)
    ensures
        big_value(sum) == fibonacci(last_term(n as nat)),
{
    let init_a: BigUint = big_from_u128(0);
    let init_b: BigUint = big_from_u128(1);
    let mut sum: BigUint = big_sum(&init_a, &init_b);
    let mut prev: BigUint = init_b;
    let mut i: usize = 2;
    proof {
        reveal_with_fuel(chain_term, 3);
    }
    while i < n
        invariant
            2 <= i <= last_term(n as nat),
            big_value(prev) == fibonacci((i - 1) as nat),
            big_value(sum) == fibonacci(i as nat),
        decreases n - i,
    {
        let next: BigUint = big_sum(&sum, &prev);
        prev = sum;
        sum = next;
        i = i + 1;
    }
    sum
}

} // verus!
