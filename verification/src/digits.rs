//! Binary digits of integers.
//!
//! `digit(v, k)` is the digit of weight `2^k` of `v` written in binary; for a negative `v`
//! it is that of the two's-complement notation, which goes on with ones to the left.
use vstd::arithmetic::div_mod::{
    lemma_basic_div, lemma_div_denominator, lemma_fundamental_div_mod, lemma_fundamental_div_mod_converse,
    lemma_hoist_over_denominator, lemma_mod_multiples_vanish,
};
use vstd::arithmetic::power2::{
    lemma2_to64, lemma_pow2_adds, lemma_pow2_pos, lemma_pow2_strictly_increases, lemma_pow2_unfold, pow2,
};
use vstd::prelude::*;

verus! {

/// Whether the binary digit of weight `2^k` of `v` is one.
pub open spec fn digit(v: int, k: nat) -> bool {
    (v / (pow2(k) as int)) % 2 == 1
}

/// A power of two is no larger than a power of two with a larger exponent.
pub proof fn lemma_pow2_ordered(n: nat, k: nat)
    requires
        n <= k,
    ensures
        0 < pow2(n) <= pow2(k),
{
    lemma_pow2_pos(n);
    if n < k {
        lemma_pow2_strictly_increases(n, k);
    }
}

/// A number below `2^n` that is not negative has no digit of weight `2^n` or more.
pub proof fn lemma_digit_above(v: int, n: nat, k: nat)
    requires
        0 <= v < pow2(n),
        n <= k,
    ensures
        !digit(v, k),
{
    lemma_pow2_ordered(n, k);
    lemma_basic_div(v, pow2(k) as int);
}

/// A negative number from `-2^n` on has all digits of weight `2^n` or more.
pub proof fn lemma_digit_above_negative(v: int, n: nat, k: nat)
    requires
        -pow2(n) <= v < 0,
        n <= k,
    ensures
        digit(v, k),
{
    lemma_pow2_ordered(n, k);
    let d = pow2(k) as int;
    lemma_fundamental_div_mod_converse(v, d, -1, v + d);
}

/// Adding a multiple of `2^n` changes no digit below weight `2^n`.
pub proof fn lemma_digit_of_sum(v: int, q: int, n: nat, k: nat)
    requires
        k < n,
    ensures
        digit(v + q * pow2(n), k) == digit(v, k),
{
    let d = pow2(k);
    let rest = pow2((n - k) as nat);
    let half = pow2((n - k - 1) as nat);
    lemma_pow2_pos(k);
    lemma_pow2_adds((n - k) as nat, k);
    lemma_pow2_unfold((n - k) as nat);
    assert(pow2(n) == rest * d);
    assert(q * pow2(n) == (q * rest) * d) by (nonlinear_arith)
        requires
            pow2(n) == rest * d,
    ;
    lemma_hoist_over_denominator(v, q * rest, d);
    assert((v + q * pow2(n)) / (d as int) == v / (d as int) + q * rest);
    assert(q * rest == 2 * (q * half)) by (nonlinear_arith)
        requires
            rest == 2 * half,
    ;
    lemma_mod_multiples_vanish(q * half, v / (d as int), 2);
}

/// The digits of a quotient by `2^s` are the digits of the dividend, moved down by `s`
/// places.
pub proof fn lemma_digit_of_quotient(v: int, s: nat, k: nat)
    requires
        0 <= v,
    ensures
        digit(v / (pow2(s) as int), k) == digit(v, s + k),
{
    lemma_pow2_pos(s);
    lemma_pow2_pos(k);
    lemma_pow2_adds(s, k);
    lemma_div_denominator(v, pow2(s) as int, pow2(k) as int);
}

/// Below weight `2^n`, the digits of a remainder by `2^n` are those of the dividend.
pub proof fn lemma_digit_of_remainder(v: int, n: nat, k: nat)
    requires
        k < n,
    ensures
        digit(v % (pow2(n) as int), k) == digit(v, k),
{
    lemma_pow2_pos(n);
    let d = pow2(n) as int;
    lemma_fundamental_div_mod(v, d);
    assert(v == v % d + (v / d) * d) by (nonlinear_arith)
        requires
            v == d * (v / d) + v % d,
    ;
    lemma_digit_of_sum(v % d, v / d, n, k);
}

/// Two numbers from zero up to `2^n` with the same digits below weight `2^n` are equal.
pub proof fn lemma_digits_determine(a: int, b: int, n: nat)
    requires
        0 <= a < pow2(n),
        0 <= b < pow2(n),
        forall|k: nat| k < n ==> digit(a, k) == digit(b, k),
    ensures
        a == b,
    decreases n,
{
    if n == 0 {
        lemma2_to64();
    } else {
        lemma_pow2_unfold(n);
        let m = (n - 1) as nat;
        lemma_fundamental_div_mod(a, 2);
        lemma_fundamental_div_mod(b, 2);
        lemma2_to64();
        assert(digit(a, 0) == digit(b, 0));
        assert(a % 2 == b % 2);
        let half_a = a / 2;
        let half_b = b / 2;
        assert forall|k: nat| k < m implies digit(half_a, k) == digit(half_b, k) by {
            lemma_digit_of_quotient(a, 1, k);
            lemma_digit_of_quotient(b, 1, k);
            assert(digit(a, 1 + k) == digit(b, 1 + k));
        }
        lemma_digits_determine(half_a, half_b, m);
    }
}

/// A number from zero up to `2^m` that has no digit from weight `2^n` up to `2^m` lies
/// below `2^n`.
pub proof fn lemma_small_without_digits(a: int, n: nat, m: nat)
    requires
        n <= m,
        0 <= a < pow2(m),
        forall|k: nat| n <= k < m ==> !digit(a, k),
    ensures
        a < pow2(n),
    decreases m - n,
{
    if n < m {
        let top = (m - 1) as nat;
        let d = pow2(top) as int;
        lemma_pow2_pos(top);
        lemma_pow2_unfold(m);
        lemma_fundamental_div_mod(a, d);
        assert(!digit(a, top));
        assert(a / d < 2) by (nonlinear_arith)
            requires
                0 <= a < 2 * d,
                0 < d,
                a == d * (a / d) + a % d,
                0 <= a % d,
        ;
        assert(0 <= a / d) by (nonlinear_arith)
            requires
                0 <= a,
                0 < d,
                a == d * (a / d) + a % d,
                a % d < d,
        ;
        assert(a / d == 0);
        assert(a == a % d) by (nonlinear_arith)
            requires
                a == d * (a / d) + a % d,
                a / d == 0,
        ;
        lemma_small_without_digits(a, n, top);
    }
}

/// Two numbers from `-2^(n-1)` up to `2^(n-1)` with the same digits below weight `2^n` are
/// equal.
pub proof fn lemma_signed_digits_determine(a: int, b: int, n: nat)
    requires
        1 <= n,
        -pow2((n - 1) as nat) <= a < pow2((n - 1) as nat),
        -pow2((n - 1) as nat) <= b < pow2((n - 1) as nat),
        forall|k: nat| k < n ==> digit(a, k) == digit(b, k),
    ensures
        a == b,
{
    lemma_pow2_unfold(n);
    lemma_pow2_pos((n - 1) as nat);
    let wrapped_a = if a < 0 { a + 1 * pow2(n) } else { a };
    let wrapped_b = if b < 0 { b + 1 * pow2(n) } else { b };
    assert forall|k: nat| k < n implies digit(wrapped_a, k) == digit(wrapped_b, k) by {
        lemma_digit_of_sum(a, 1, n, k);
        lemma_digit_of_sum(b, 1, n, k);
    }
    lemma_digits_determine(wrapped_a, wrapped_b, n);
}

/// The number `2^a - 2^b` has exactly the digits of weight `2^b` up to, but not including,
/// `2^a`.
pub proof fn lemma_digit_of_block(a: nat, b: nat, k: nat)
    requires
        b <= a,
    ensures
        0 <= pow2(a) - pow2(b) < pow2(a),
        digit(pow2(a) - pow2(b), k) == (b <= k < a),
{
    lemma_pow2_ordered(b, a);
    let n = (a - b) as nat;
    let ones = pow2(n) - 1;
    lemma_pow2_pos(n);
    lemma_pow2_adds(n, b);
    assert(pow2(a) - pow2(b) == 0 + ones * pow2(b)) by (nonlinear_arith)
        requires
            pow2(a) == pow2(n) * pow2(b),
            ones == pow2(n) - 1,
    ;
    if k < b {
        lemma_digit_of_sum(0, ones, b, k);
        lemma_pow2_pos(k);
        lemma_basic_div(0, pow2(k) as int);
    } else {
        let j = (k - b) as nat;
        lemma_pow2_pos(b);
        assert((pow2(a) - pow2(b)) / (pow2(b) as int) == ones) by {
            lemma_fundamental_div_mod_converse(pow2(a) - pow2(b), pow2(b) as int, ones, 0);
        }
        lemma_digit_of_quotient(pow2(a) - pow2(b), b, j);
        if j < n {
            lemma2_to64();
            lemma_digit_above_negative(-1, 0, j);
            lemma_digit_of_sum(-1, 1, n, j);
        } else {
            lemma_digit_above(ones, n, j);
        }
    }
}

} // verus!
