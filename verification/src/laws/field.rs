//! Arithmetic modulo the number of elements of the field, which is prime.

use vstd::arithmetic::div_mod::{
    lemma_fundamental_div_mod, lemma_mod_add_multiples_vanish, lemma_mod_multiples_vanish,
    lemma_small_mod,
};
use vstd::arithmetic::power2::{lemma2_to64, lemma_pow2_pos, lemma_pow2_unfold, pow2};
use vstd::prelude::*;
use crate::laws::arithmetic::{are_bits, number};
use crate::verifier_ff::BABYBEAR_P;

verus! {

/// The number of elements of the field.
pub open spec fn prime() -> int {
    BABYBEAR_P as int
}

/// No number up to its root divides the number of elements.
#[verifier::rlimit(60)]
proof fn lemma_no_small_factor(d: u16, q: u32)
    requires
        1 < d <= 44869,
        1 < q < 2013265921,
    ensures
        d * q != 2013265921,
{
    if d <= 8191 {
        assert(d * q != 2013265921) by (bit_vector)
            requires
                1 < d <= 8191,
                1 < q < 2013265921,
        ;
    } else if d <= 16383 {
        assert(d * q != 2013265921) by (bit_vector)
            requires
                8191 < d <= 16383,
                1 < q < 2013265921,
        ;
    } else if d <= 24575 {
        assert(d * q != 2013265921) by (bit_vector)
            requires
                16383 < d <= 24575,
                1 < q < 2013265921,
        ;
    } else if d <= 32767 {
        assert(d * q != 2013265921) by (bit_vector)
            requires
                24575 < d <= 32767,
                1 < q < 2013265921,
        ;
    } else if d <= 40959 {
        assert(d * q != 2013265921) by (bit_vector)
            requires
                32767 < d <= 40959,
                1 < q < 2013265921,
        ;
    } else {
        assert(d * q != 2013265921) by (bit_vector)
            requires
                40959 < d <= 44869,
                1 < q < 2013265921,
        ;
    }
}

/// The number of elements is prime.
pub proof fn lemma_prime(d: int)
    requires
        1 < d < prime(),
    ensures
        prime() % d != 0,
{
    let p = prime();
    if p % d == 0 {
        let q = p / d;
        lemma_fundamental_div_mod(p, d);
        assert(d * q == p);
        assert(1 < q < p) by (nonlinear_arith)
            requires
                d * q == p,
                1 < d < p,
        ;
        if d <= 44869 {
            lemma_no_small_factor(d as u16, q as u32);
        } else if q <= 44869 {
            lemma_no_small_factor(q as u16, d as u32);
            assert(q * d == d * q) by (nonlinear_arith);
        } else {
            assert(d * q > 2013265921) by (nonlinear_arith)
                requires
                    d >= 44870,
                    q >= 44870,
            ;
        }
    }
}

/// A number that is not 0 has an inverse.
pub proof fn lemma_inverse(d: int) -> (x: int)
    requires
        0 < d < prime(),
    ensures
        0 <= x < prime(),
        (x * d) % prime() == 1,
    decreases d,
{
    let p = prime();
    if d == 1 {
        1
    } else {
        lemma_prime(d);
        let q = p / d;
        let r = p % d;
        lemma_fundamental_div_mod(p, d);
        let s = lemma_inverse(r);
        let w = -(s * q);
        let x = w % p;
        let k = w / p;
        lemma_fundamental_div_mod(w, p);
        assert(x * d == p * (-(k * d) - s) + s * r) by (nonlinear_arith)
            requires
                w == p * k + x,
                w == -(s * q),
                p == d * q + r,
        ;
        lemma_mod_multiples_vanish(-(k * d) - s, s * r, p);
        x
    }
}

/// A product is 0 only where a factor is.
pub proof fn lemma_no_zero_divisors(x: int, y: int)
    requires
        0 <= x < prime(),
        0 <= y < prime(),
    ensures
        (x * y) % prime() == 0 <==> x == 0 || y == 0,
{
    let p = prime();
    if x == 0 || y == 0 {
        assert(x * y == 0) by (nonlinear_arith)
            requires
                x == 0 || y == 0,
        ;
    } else if (x * y) % p == 0 {
        let i = lemma_inverse(x);
        let k = (i * x) / p;
        let l = (x * y) / p;
        lemma_fundamental_div_mod(i * x, p);
        lemma_fundamental_div_mod(x * y, p);
        assert(y == p * (i * l - k * y) + 0) by (nonlinear_arith)
            requires
                i * x == p * k + 1,
                x * y == p * l,
        ;
        lemma_mod_multiples_vanish(i * l - k * y, 0, p);
    }
}

/// A difference is 0 only between a number and itself.
pub proof fn lemma_difference(x: int, y: int)
    requires
        0 <= x < prime(),
        0 <= y < prime(),
    ensures
        (x - y) % prime() == 0 <==> x == y,
{
    let p = prime();
    if x >= y {
        lemma_small_mod((x - y) as nat, p as nat);
    } else {
        lemma_mod_add_multiples_vanish(x - y, p);
        lemma_small_mod((p + (x - y)) as nat, p as nat);
    }
}

/// `x * (x - 1)` is 0 for bits alone.
pub proof fn lemma_bit_root(x: int)
    requires
        0 <= x < prime(),
    ensures
        (x * ((x - 1) % prime())) % prime() == 0 <==> x == 0 || x == 1,
{
    lemma_no_zero_divisors(x, (x - 1) % prime());
    lemma_difference(x, 1);
}

/// `x * (x - 1) * (x - 2) * (x - 3)` is 0 for the numbers up to 3 alone.
pub proof fn lemma_twit_root(x: int)
    requires
        0 <= x < prime(),
    ensures
        ({
            let p = prime();
            let a = (x * ((x - 1) % p)) % p;
            let b = (a * ((x - 2) % p)) % p;
            (b * ((x - 3) % p)) % p == 0 <==> 0 <= x <= 3
        }),
{
    let p = prime();
    let a = (x * ((x - 1) % p)) % p;
    let b = (a * ((x - 2) % p)) % p;
    lemma_no_zero_divisors(x, (x - 1) % p);
    lemma_no_zero_divisors(a, (x - 2) % p);
    lemma_no_zero_divisors(b, (x - 3) % p);
    lemma_difference(x, 1);
    lemma_difference(x, 2);
    lemma_difference(x, 3);
}

// ---------------------------------------------------------------------------
// Bits of a number
// ---------------------------------------------------------------------------

/// Bit `i` of a number.
pub open spec fn bit_of(w: int, i: nat) -> int {
    (w / (pow2(i) as int)) % 2
}

/// The first `n` bits of a number.
pub open spec fn first_bits(w: int, n: nat) -> Seq<int> {
    Seq::new(n, |i: int| bit_of(w, i as nat))
}

/// The first bits of a number are bits, and make up its remainder.
pub proof fn lemma_first_bits(w: int, n: nat)
    requires
        0 <= w,
    ensures
        are_bits(first_bits(w, n)),
        number(first_bits(w, n)) == w % (pow2(n) as int),
    decreases n,
{
    lemma2_to64();
    if n > 0 {
        let k = (n - 1) as nat;
        lemma_first_bits(w, k);
        let bits = first_bits(w, n);
        assert(bits.drop_last() =~= first_bits(w, k));
        let c = pow2(k) as int;
        lemma_pow2_pos(k);
        lemma_pow2_unfold(n);
        let h = w / c;
        let r = w % c;
        lemma_fundamental_div_mod(w, c);
        let b = h % 2;
        let g = h / 2;
        lemma_fundamental_div_mod(h, 2);
        assert(w == (2 * c) * g + (r + b * c)) by (nonlinear_arith)
            requires
                w == c * h + r,
                h == 2 * g + b,
        ;
        assert(0 <= r + b * c < 2 * c) by (nonlinear_arith)
            requires
                0 <= r < c,
                0 <= b < 2,
        ;
        lemma_mod_multiples_vanish(g, r + b * c, 2 * c);
        lemma_small_mod((r + b * c) as nat, (2 * c) as nat);
    }
}

/// The bits of a number make it up.
pub proof fn lemma_bits_make_up(w: int, n: nat)
    requires
        0 <= w < pow2(n),
    ensures
        are_bits(first_bits(w, n)),
        number(first_bits(w, n)) == w,
{
    lemma_first_bits(w, n);
    lemma_small_mod(w as nat, pow2(n));
}

} // verus!
