//! Rounding of exact quotients to a 24-bit significand.

use vstd::prelude::*;
use vstd::arithmetic::power2::*;

verus! {

/// How many low bits of the integer `x` do not fit beside 24 leading ones.
pub open spec fn excess_bits(x: nat) -> nat
    decreases x,
{
    if x < 0x100_0000 {
        0
    } else {
        1 + excess_bits(x / 2)
    }
}

/// The integer nearest to `n / d`; of two equally near ones, the even one.
pub open spec fn nearest_even(n: nat, d: nat) -> nat {
    let q = n / d;
    let r = n % d;
    if 2 * r < d || (2 * r == d && q % 2 == 0) {
        q
    } else {
        q + 1
    }
}

/// `n / d` rounded to 24 significant bits, ties to even.
pub open spec fn round24(n: nat, d: nat) -> nat {
    let step = pow2(excess_bits(n / d));
    nearest_even(n, d * step) * step
}

/// Whether 24 significant bits are enough to write `v` down.
pub open spec fn fits24(v: nat) -> bool {
    exists|m: nat, k: nat| m <= 0x100_0000 && v == #[trigger] (m * pow2(k))
}

/// `x` lies in the window of significands that `excess_bits` scales it to.
pub proof fn lemma_excess_bits_bounds(x: nat)
    ensures
        x < 0x100_0000 * pow2(excess_bits(x)),
        excess_bits(x) > 0 ==> x >= 0x80_0000 * pow2(excess_bits(x)),
    decreases x,
{
    lemma_pow2_pos(excess_bits(x));
    if x < 0x100_0000 {
        lemma2_to64();
    } else {
        lemma_excess_bits_bounds(x / 2);
        lemma_pow2_unfold(excess_bits(x));
        if excess_bits(x / 2) == 0 {
            lemma2_to64();
        }
    }
}

/// Only one scale brings `x` into the window of full significands.
pub proof fn lemma_excess_bits_unique(x: nat, k: nat)
    requires
        0x80_0000 * pow2(k) <= x < 0x100_0000 * pow2(k),
    ensures
        excess_bits(x) == k,
    decreases k,
{
    if k == 0 {
        lemma2_to64();
    } else {
        lemma_pow2_unfold(k);
        lemma_pow2_pos((k - 1) as nat);
        lemma_excess_bits_unique(x / 2, (k - 1) as nat);
    }
}

/// A wider number keeps no more of its low bits.
pub proof fn lemma_excess_bits_monotone(x: nat, y: nat)
    requires
        x <= y,
    ensures
        excess_bits(x) <= excess_bits(y),
    decreases y,
{
    if x >= 0x100_0000 {
        lemma_excess_bits_monotone(x / 2, y / 2);
    }
}

/// Quotient and remainder of `n` by a positive `d`.
proof fn lemma_div_mod(n: nat, d: nat)
    requires
        d > 0,
    ensures
        n == d * (n / d) + n % d,
        n % d < d,
{
    vstd::arithmetic::div_mod::lemma_fundamental_div_mod(n as int, d as int);
    vstd::arithmetic::div_mod::lemma_mod_bound(n as int, d as int);
}

/// The quotient of `n` by `d` is the one integer that leaves a proper remainder.
proof fn lemma_div_unique(n: nat, d: nat, q: nat, r: nat)
    requires
        r < d,
        n == d * q + r,
    ensures
        n / d == q,
        n % d == r,
{
    assert(n as int == q as int * d as int + r as int) by (nonlinear_arith)
        requires
            n == d * q + r,
    ;
    vstd::arithmetic::div_mod::lemma_fundamental_div_mod_converse(
        n as int,
        d as int,
        q as int,
        r as int,
    );
}

/// Rounding moves a quotient by at most one half.
pub proof fn lemma_nearest_even_error(n: nat, d: nat)
    requires
        d > 0,
    ensures
        2 * (nearest_even(n, d) * d) <= 2 * n + d,
        2 * n <= 2 * (nearest_even(n, d) * d) + d,
{
    lemma_div_mod(n, d);
    let q = n / d;
    let r = n % d;
    assert((q + 1) * d == d * q + d) by (nonlinear_arith);
    assert(q * d == d * q) by (nonlinear_arith);
}

/// A whole quotient is left as it is.
pub proof fn lemma_nearest_even_exact(q: nat, d: nat)
    requires
        d > 0,
    ensures
        nearest_even(q * d, d) == q,
{
    assert(q * d == d * q + 0) by (nonlinear_arith);
    lemma_div_unique(q * d, d, q, 0);
}

/// A common factor does not change the quotient.
pub proof fn lemma_nearest_even_scale(n: nat, d: nat, c: nat)
    requires
        d > 0,
        c > 0,
    ensures
        nearest_even(n * c, d * c) == nearest_even(n, d),
{
    lemma_div_mod(n, d);
    let q = n / d;
    let r = n % d;
    assert(n * c == (d * c) * q + r * c) by (nonlinear_arith)
        requires
            n == d * q + r,
    ;
    assert(r * c < d * c) by (nonlinear_arith)
        requires
            r < d,
            c > 0,
    ;
    lemma_div_unique(n * c, d * c, q, r * c);
    assert(2 * (r * c) < d * c <==> 2 * r < d) by (nonlinear_arith)
        requires
            c > 0,
    ;
    assert(2 * (r * c) == d * c <==> 2 * r == d) by (nonlinear_arith)
        requires
            c > 0,
    ;
}

/// Rounding to the nearest integer keeps the order of quotients.
pub proof fn lemma_nearest_even_monotone(n1: nat, n2: nat, d: nat)
    requires
        d > 0,
        n1 <= n2,
    ensures
        nearest_even(n1, d) <= nearest_even(n2, d),
{
    lemma_div_mod(n1, d);
    lemma_div_mod(n2, d);
    let q1 = n1 / d;
    let q2 = n2 / d;
    let r1 = n1 % d;
    let r2 = n2 % d;
    if q1 > q2 {
        assert(d * q1 >= d * q2 + d) by (nonlinear_arith)
            requires
                q1 >= q2 + 1,
        ;
        assert(false);
    }
    if q1 == q2 {
        assert(r1 <= r2);
    }
}

/// A quotient of at least `k` is rounded to at least `k`.
proof fn lemma_nearest_even_at_least(n: nat, d: nat, k: nat)
    requires
        d > 0,
        n >= k * d,
    ensures
        nearest_even(n, d) >= k,
{
    lemma_nearest_even_exact(k, d);
    lemma_nearest_even_monotone(k * d, n, d);
}

/// A quotient of at most `k` is rounded to at most `k`.
proof fn lemma_nearest_even_at_most(n: nat, d: nat, k: nat)
    requires
        d > 0,
        n <= k * d,
    ensures
        nearest_even(n, d) <= k,
{
    lemma_nearest_even_exact(k, d);
    lemma_nearest_even_monotone(n, k * d, d);
}

/// The significand that `round24` keeps is a full one wherever bits were dropped.
proof fn lemma_round24_window(n: nat, d: nat)
    requires
        d > 0,
    ensures
        pow2(excess_bits(n / d)) > 0,
        d * pow2(excess_bits(n / d)) > 0,
        nearest_even(n, d * pow2(excess_bits(n / d))) <= 0x100_0000,
        excess_bits(n / d) > 0 ==> nearest_even(n, d * pow2(excess_bits(n / d))) >= 0x80_0000,
{
    let q = n / d;
    let step = pow2(excess_bits(q));
    lemma_pow2_pos(excess_bits(q));
    lemma_excess_bits_bounds(q);
    lemma_div_mod(n, d);
    assert(d * step > 0) by (nonlinear_arith)
        requires
            d > 0,
            step > 0,
    ;
    assert(d * q + d == d * (q + 1)) by (nonlinear_arith);
    assert(d * (q + 1) <= 0x100_0000 * (d * step)) by (nonlinear_arith)
        requires
            q + 1 <= 0x100_0000 * step,
    ;
    lemma_nearest_even_at_most(n, d * step, 0x100_0000);
    if excess_bits(q) > 0 {
        assert(n >= 0x80_0000 * (d * step)) by (nonlinear_arith)
            requires
                n >= d * q,
                q >= 0x80_0000 * step,
        ;
        lemma_nearest_even_at_least(n, d * step, 0x80_0000);
    }
}

/// What `round24` returns fits into 24 significant bits.
pub proof fn lemma_round24_fits(n: nat, d: nat)
    requires
        d > 0,
    ensures
        fits24(round24(n, d)),
{
    let k = excess_bits(n / d);
    lemma_round24_window(n, d);
    assert(round24(n, d) == nearest_even(n, d * pow2(k)) * pow2(k));
}

/// Rounding moves a quotient by at most half of the last kept bit.
pub proof fn lemma_round24_error(n: nat, d: nat)
    requires
        d > 0,
    ensures
        2 * (round24(n, d) * d) <= 2 * n + d * pow2(excess_bits(n / d)),
        2 * n <= 2 * (round24(n, d) * d) + d * pow2(excess_bits(n / d)),
{
    let step = pow2(excess_bits(n / d));
    lemma_round24_window(n, d);
    lemma_nearest_even_error(n, d * step);
    let m = nearest_even(n, d * step);
    assert(m * (d * step) == (m * step) * d) by (nonlinear_arith);
}

/// A common factor of `n` and `d` is of no account.
pub proof fn lemma_round24_ratio(n: nat, d: nat, c: nat)
    requires
        d > 0,
        c > 0,
    ensures
        round24(n * c, d * c) == round24(n, d),
{
    lemma_div_mod(n, d);
    let q = n / d;
    let r = n % d;
    assert(n * c == (d * c) * q + r * c) by (nonlinear_arith)
        requires
            n == d * q + r,
    ;
    assert(r * c < d * c) by (nonlinear_arith)
        requires
            r < d,
            c > 0,
    ;
    lemma_div_unique(n * c, d * c, q, r * c);
    let step = pow2(excess_bits(n / d));
    lemma_round24_window(n, d);
    lemma_nearest_even_scale(n, d * step, c);
    assert((d * step) * c == (d * c) * step) by (nonlinear_arith);
}

/// Over one denominator, rounding keeps the order.
proof fn lemma_round24_monotone_numerator(n1: nat, n2: nat, d: nat)
    requires
        d > 0,
        n1 <= n2,
    ensures
        round24(n1, d) <= round24(n2, d),
{
    vstd::arithmetic::div_mod::lemma_div_is_ordered(n1 as int, n2 as int, d as int);
    let k1 = excess_bits(n1 / d);
    let k2 = excess_bits(n2 / d);
    lemma_excess_bits_monotone(n1 / d, n2 / d);
    lemma_round24_window(n1, d);
    lemma_round24_window(n2, d);
    let m1 = nearest_even(n1, d * pow2(k1));
    let m2 = nearest_even(n2, d * pow2(k2));
    if k1 == k2 {
        lemma_nearest_even_monotone(n1, n2, d * pow2(k1));
        assert(m1 * pow2(k1) <= m2 * pow2(k2)) by (nonlinear_arith)
            requires
                m1 <= m2,
                pow2(k1) == pow2(k2),
        ;
    } else {
        lemma_pow2_unfold(k2);
        if k1 < k2 - 1 {
            lemma_pow2_strictly_increases(k1, (k2 - 1) as nat);
        }
        assert(m1 * pow2(k1) <= m2 * pow2(k2)) by (nonlinear_arith)
            requires
                m1 <= 0x100_0000,
                m2 >= 0x80_0000,
                2 * pow2(k1) <= pow2(k2),
        ;
    }
}

/// Rounding keeps the order of quotients.
pub proof fn lemma_round24_monotone(n1: nat, d1: nat, n2: nat, d2: nat)
    requires
        d1 > 0,
        d2 > 0,
        n1 * d2 <= n2 * d1,
    ensures
        round24(n1, d1) <= round24(n2, d2),
{
    lemma_round24_ratio(n1, d1, d2);
    lemma_round24_ratio(n2, d2, d1);
    assert(d1 * d2 == d2 * d1) by (nonlinear_arith);
    assert(d1 * d2 > 0) by (nonlinear_arith)
        requires
            d1 > 0,
            d2 > 0,
    ;
    lemma_round24_monotone_numerator(n1 * d2, n2 * d1, d1 * d2);
}

/// What fits into 24 significant bits has them at the scale of its own leading bit.
pub proof fn lemma_fits24_scale(v: nat)
    requires
        fits24(v),
    ensures
        v % pow2(excess_bits(v)) == 0,
{
    let k = excess_bits(v);
    let step = pow2(k);
    lemma_pow2_pos(k);
    let (m, j) = choose|m: nat, j: nat| m <= 0x100_0000 && v == #[trigger] (m * pow2(j));
    lemma_pow2_pos(j);
    lemma_excess_bits_bounds(v);
    if k == 0 {
        lemma2_to64();
        lemma_div_unique(v, 1, v, 0);
    } else if k <= j {
        lemma_pow2_adds(k, (j - k) as nat);
        let rest = pow2((j - k) as nat);
        assert(m * (step * rest) == step * (m * rest) + 0) by (nonlinear_arith);
        lemma_div_unique(v, step, m * rest, 0);
    } else {
        // Only the significand 2^24 itself can sit one place below its window.
        lemma_pow2_unfold(k);
        if j < k - 1 {
            lemma_pow2_strictly_increases(j, (k - 1) as nat);
        }
        let half = pow2((k - 1) as nat);
        assert(m == 0x100_0000 && pow2(j) == half) by (nonlinear_arith)
            requires
                m <= 0x100_0000,
                pow2(j) <= half,
                pow2(j) > 0,
                half > 0,
                m * pow2(j) >= 0x80_0000 * (2 * half),
        ;
        assert(v == step * 0x80_0000 + 0) by (nonlinear_arith)
            requires
                v == 0x100_0000 * half,
                step == 2 * half,
        ;
        lemma_div_unique(v, step, 0x80_0000, 0);
    }
}

/// What fits already is left as it is.
pub proof fn lemma_round24_exact(v: nat, d: nat)
    requires
        d > 0,
        fits24(v),
    ensures
        round24(v * d, d) == v,
{
    lemma_round24_ratio(v, 1, d);
    assert(1 * d == d);
    lemma_div_unique(v, 1, v, 0);
    lemma_fits24_scale(v);
    let step = pow2(excess_bits(v));
    lemma_pow2_pos(excess_bits(v));
    lemma_div_mod(v, step);
    let m = v / step;
    assert(v == m * step) by (nonlinear_arith)
        requires
            v == step * m + 0,
    ;
    lemma_nearest_even_exact(m, step);
    assert(1 * step == step);
}

/// A number that fills the significand has `k` bits more to drop once scaled by `2^k`.
proof fn lemma_excess_bits_scale(x: nat, y: nat, k: nat)
    requires
        x >= 0x80_0000,
        x * pow2(k) <= y < (x + 1) * pow2(k),
    ensures
        excess_bits(y) == excess_bits(x) + k,
{
    let j = excess_bits(x);
    lemma_excess_bits_bounds(x);
    lemma_pow2_adds(j, k);
    lemma_pow2_pos(k);
    if j == 0 {
        lemma2_to64();
    }
    assert(0x80_0000 * pow2(j + k) <= y) by (nonlinear_arith)
        requires
            x * pow2(k) <= y,
            x >= 0x80_0000 * pow2(j),
            pow2(j + k) == pow2(j) * pow2(k),
    ;
    assert(y < 0x100_0000 * pow2(j + k)) by (nonlinear_arith)
        requires
            y < (x + 1) * pow2(k),
            x + 1 <= 0x100_0000 * pow2(j),
            pow2(j + k) == pow2(j) * pow2(k),
    ;
    lemma_excess_bits_unique(y, j + k);
}

/// Scaling by a power of two commutes with rounding, as long as the quotient
/// fills the significand or is a whole number.
pub proof fn lemma_round24_scale(n: nat, d: nat, k: nat)
    requires
        d > 0,
        n / d >= 0x80_0000 || n % d == 0,
    ensures
        round24(n * pow2(k), d) == round24(n, d) * pow2(k),
{
    let c = pow2(k);
    lemma_pow2_pos(k);
    lemma_div_mod(n, d);
    let q = n / d;
    if q >= 0x80_0000 {
        let y = (n * c) / d;
        lemma_div_mod(n * c, d);
        assert(d * (q * c) <= n * c) by (nonlinear_arith)
            requires
                n >= d * q,
        ;
        assert(q * c <= y) by (nonlinear_arith)
            requires
                d * (q * c) <= n * c,
                n * c < d * y + d,
                d > 0,
        ;
        assert(y < (q + 1) * c) by (nonlinear_arith)
            requires
                n * c >= d * y,
                n < d * q + d,
                c > 0,
                d > 0,
        ;
        lemma_excess_bits_scale(q, y, k);
        let j = excess_bits(q);
        lemma_pow2_adds(j, k);
        lemma_round24_window(n, d);
        lemma_nearest_even_scale(n, d * pow2(j), c);
        assert((d * pow2(j)) * c == d * pow2(j + k)) by (nonlinear_arith)
            requires
                pow2(j + k) == pow2(j) * c,
        ;
        let m = nearest_even(n, d * pow2(j));
        assert(m * pow2(j + k) == (m * pow2(j)) * c) by (nonlinear_arith)
            requires
                pow2(j + k) == pow2(j) * c,
        ;
    } else {
        lemma2_to64();
        assert(q == q * pow2(0));
        assert(fits24(q));
        assert(fits24(q * c)) by {
            assert(q * c == q * pow2(k));
        }
        assert(n == q * d) by (nonlinear_arith)
            requires
                n == d * q + 0,
        ;
        assert(n * c == (q * c) * d) by (nonlinear_arith)
            requires
                n == q * d,
        ;
        lemma_round24_exact(q, d);
        lemma_round24_exact(q * c, d);
    }
}

/// What fits lies on the grid that `n / d` is rounded to, or below all of its part in use.
proof fn lemma_fits24_grid(v: nat, n: nat, d: nat)
    requires
        d > 0,
        fits24(v),
    ensures
        ({
            let step = pow2(excess_bits(n / d));
            let q = n / (d * step);
            v <= q * step || v >= (q + 1) * step
        }),
{
    let k = excess_bits(n / d);
    let step = pow2(k);
    lemma_round24_window(n, d);
    lemma_div_mod(n, d);
    lemma_div_mod(n, d * step);
    let q = n / (d * step);
    let j = excess_bits(v);
    lemma_excess_bits_bounds(v);
    lemma_pow2_pos(j);
    if j < k {
        // v lies below the smallest full significand
        lemma_excess_bits_bounds(n / d);
        lemma_pow2_unfold(k);
        if j < k - 1 {
            lemma_pow2_strictly_increases(j, (k - 1) as nat);
        }
        assert(v <= 0x80_0000 * step);
        let x = n / d;
        assert(n >= 0x80_0000 * (d * step)) by (nonlinear_arith)
            requires
                n >= d * x,
                x >= 0x80_0000 * step,
        ;
        let w = d * step;
        assert(q >= 0x80_0000) by (nonlinear_arith)
            requires
                n < w * q + w,
                n >= 0x80_0000 * w,
                w > 0,
        ;
        assert(v <= q * step) by (nonlinear_arith)
            requires
                v <= 0x80_0000 * step,
                q >= 0x80_0000,
        ;
    } else {
        lemma_fits24_scale(v);
        lemma_div_mod(v, pow2(j));
        lemma_pow2_adds(k, (j - k) as nat);
        let rest = pow2((j - k) as nat);
        let m = (v / pow2(j)) * rest;
        let h = v / pow2(j);
        assert(v == m * step) by (nonlinear_arith)
            requires
                v == pow2(j) * h + 0,
                pow2(j) == step * rest,
                m == h * rest,
        ;
        if m <= q {
            assert(m * step <= q * step) by (nonlinear_arith)
                requires
                    m <= q,
            ;
        } else {
            assert(m * step >= (q + 1) * step) by (nonlinear_arith)
                requires
                    m >= q + 1,
            ;
        }
    }
}

/// No number of 24 significant bits is nearer to `n / d` than the rounded one.
pub proof fn law_round24_is_nearest(n: nat, d: nat, v: nat)
    requires
        d > 0,
        fits24(v),
    ensures
        fits24(round24(n, d)),
        v * d <= n ==> {
            &&& n - round24(n, d) * d <= n - v * d
            &&& round24(n, d) * d - n <= n - v * d
        },
        v * d >= n ==> {
            &&& n - round24(n, d) * d <= v * d - n
            &&& round24(n, d) * d - n <= v * d - n
        },
{
    let step = pow2(excess_bits(n / d));
    lemma_round24_fits(n, d);
    lemma_round24_window(n, d);
    lemma_fits24_grid(v, n, d);
    let w = d * step;
    lemma_div_mod(n, w);
    let q = n / w;
    let r = n % w;
    let m = nearest_even(n, w);
    assert((q * step) * d == w * q) by (nonlinear_arith)
        requires
            w == d * step,
    ;
    assert(((q + 1) * step) * d == w * q + w) by (nonlinear_arith)
        requires
            w == d * step,
    ;
    assert(round24(n, d) * d == if m == q {
        w * q
    } else {
        w * q + w
    });
    if v <= q * step {
        assert(v * d <= (q * step) * d) by (nonlinear_arith)
            requires
                v <= q * step,
        ;
    } else {
        assert(v * d >= ((q + 1) * step) * d) by (nonlinear_arith)
            requires
                v >= (q + 1) * step,
        ;
    }
}

/// Rounds `n / d` to 24 significant bits, ties to even.
pub fn round_to_24_bits(n: u128, d: u128) -> (rounded: u128)
    requires
        0 < d,
        n <= 0x7fff_ffff_ffff_ffff_ffff_ffff_ffff_ffff,
    ensures
        rounded == round24(n as nat, d as nat),
{
    let q: u128 = n / d;
    let mut y: u128 = q;
    let mut step: u128 = 1;
    let ghost mut k: nat = 0;
    proof {
        lemma2_to64();
        lemma_div_mod(n as nat, d as nat);
    }
    while y >= 0x100_0000
        invariant
            step == pow2(k),
            step > 0,
            excess_bits(q as nat) == k + excess_bits(y as nat),
            y * step <= q,
            q <= 0x7fff_ffff_ffff_ffff_ffff_ffff_ffff_ffff,
        decreases y,
    {
        proof {
            lemma_pow2_unfold(k + 1);
            assert((y / 2) * (2 * step) <= q) by (nonlinear_arith)
                requires
                    y * step <= q,
                    y >= 0,
                    step > 0,
            ;
            assert(2 * step <= q) by (nonlinear_arith)
                requires
                    y * step <= q,
                    y >= 2,
            ;
            k = k + 1;
        }
        y = y / 2;
        step = step * 2;
    }
    proof {
        lemma_round24_window(n as nat, d as nat);
    }
    // d * step stays below n wherever bits are dropped
    assert(d * step <= n || d * step == d) by {
        if step == 1 {
            assert(d * 1 == d);
        } else {
            lemma_excess_bits_bounds(q as nat);
            assert(k > 0);
            assert(d * step <= n) by (nonlinear_arith)
                requires
                    n >= d * q,
                    q >= 0x80_0000 * step,
                    step > 0,
            ;
        }
    }
    let scaled: u128 = d * step;
    let m: u128 = n / scaled;
    let r: u128 = n % scaled;
    proof {
        lemma_div_mod(n as nat, scaled as nat);
    }
    let up: bool = if r < scaled - r {
        false
    } else if r == scaled - r {
        m % 2 != 0
    } else {
        true
    };
    let significand: u128 = if up {
        m + 1
    } else {
        m
    };
    proof {
        let e = nearest_even(n as nat, scaled as nat);
        assert(significand == e);
        assert(e * step <= 0x100_0000 * step) by (nonlinear_arith)
            requires
                e <= 0x100_0000,
        ;
        lemma_excess_bits_bounds(q as nat);
        if k > 0 {
            assert(0x100_0000 * step <= 2 * q);
        }
    }
    significand * step
}

/// What is rounded has at most 24 significant bits, is at most half a unit of its last place
/// away, and ends in an even bit where it is just that far away. Only full significands
/// have a last place above one.
pub proof fn law_round24_half_unit(n: nat, d: nat)
    requires
        d > 0,
    ensures
        exists|m: nat, k: nat|
            {
                &&& round24(n, d) == #[trigger] (m * pow2(k))
                &&& m <= 0x100_0000
                &&& k > 0 ==> m >= 0x80_0000
                &&& 2 * (round24(n, d) * d) <= 2 * n + d * pow2(k)
                &&& 2 * n <= 2 * (round24(n, d) * d) + d * pow2(k)
                &&& 2 * (round24(n, d) * d) == 2 * n + d * pow2(k) ==> m % 2 == 0
                &&& 2 * n == 2 * (round24(n, d) * d) + d * pow2(k) ==> m % 2 == 0
            },
{
    let k = excess_bits(n / d);
    let step = pow2(k);
    let w = d * step;
    lemma_round24_window(n, d);
    lemma_round24_error(n, d);
    lemma_div_mod(n, w);
    let q = n / w;
    let r = n % w;
    let m = nearest_even(n, w);
    assert((m * step) * d == m * w) by (nonlinear_arith)
        requires
            w == d * step,
    ;
    assert(m * w == if m == q {
        w * q
    } else {
        w * q + w
    }) by {
        assert(q * w == w * q) by (nonlinear_arith);
        assert((q + 1) * w == w * q + w) by (nonlinear_arith);
    }
    if k > 0 {
        lemma_excess_bits_bounds(n / d);
        assert(q >= 0x80_0000) by {
            vstd::arithmetic::div_mod::lemma_div_denominator(n as int, d as int, step as int);
            vstd::arithmetic::div_mod::lemma_div_is_ordered(
                (0x80_0000 * step) as int,
                (n / d) as int,
                step as int,
            );
            vstd::arithmetic::div_mod::lemma_div_multiples_vanish(0x80_0000, step as int);
        }
    }
    assert(round24(n, d) == m * pow2(k));
}

/// Rounding to 24 bits moves a whole number by at most one part in 2^24.
pub proof fn lemma_round24_whole_error(n: nat)
    ensures
        0x100_0000 * (round24(n, 1) - n) <= n,
        0x100_0000 * (n - round24(n, 1)) <= n,
{
    lemma2_to64();
    let k = excess_bits(n);
    assert(n / 1 == n);
    lemma_round24_error(n, 1);
    lemma_excess_bits_bounds(n);
    if k == 0 {
        assert(n == n * pow2(0));
        assert(fits24(n));
        lemma_round24_exact(n, 1);
    }
}

}
