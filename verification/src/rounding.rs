//! Rounding to binary32: why the digit-by-digit computation gives the
//! nearest number.

use vstd::prelude::*;
use vstd::arithmetic::div_mod::{lemma_div_denominator, lemma_fundamental_div_mod_converse};
use vstd::arithmetic::power2::{
    lemma2_to64, lemma2_to64_rest, lemma_pow2_adds, lemma_pow2_pos, lemma_pow2_strictly_increases,
    lemma_pow2_unfold, pow2,
};
use crate::scalar::{
    bit_length, pack, root, round_magnitude, round_root, Scalar, HIDDEN, INFINITE, SIGN,
};

verus! {

/// A number below `2^k` has at most `k` digits.
pub proof fn lemma_digits_at_most(n: nat, k: nat)
    requires
        n < pow2(k),
    ensures
        bit_length(n) <= k,
    decreases k,
{
    if n > 0 {
        if k == 0 {
            lemma2_to64();
        } else {
            lemma_pow2_unfold(k);
            lemma_digits_at_most(n / 2, (k - 1) as nat);
        }
    }
}

/// A number that is at least `2^k` has more than `k` digits.
pub proof fn lemma_digits_at_least(n: nat, k: nat)
    requires
        n >= pow2(k),
    ensures
        bit_length(n) > k,
    decreases k,
{
    lemma_pow2_pos(k);
    if k > 0 {
        lemma_pow2_unfold(k);
        lemma_digits_at_least(n / 2, (k - 1) as nat);
    }
}

/// A positive number lies between the powers of two that its number of
/// digits names.
pub proof fn lemma_digits_bounds(n: nat)
    requires
        n > 0,
    ensures
        bit_length(n) >= 1,
        pow2((bit_length(n) - 1) as nat) <= n < pow2(bit_length(n)),
    decreases n,
{
    if n == 1 {
        lemma2_to64();
        assert(bit_length(0) == 0);
        assert(bit_length(1) == 1 + bit_length(0));
    } else {
        lemma_digits_bounds(n / 2);
        let k = bit_length(n / 2);
        lemma_pow2_unfold(k);
        lemma_pow2_unfold((k + 1) as nat);
    }
}

/// The product of two powers of two.
pub proof fn lemma_pow2_product(a: nat, b: nat)
    ensures
        pow2(a) * pow2(b) == pow2(a + b),
        pow2(a) > 0,
        pow2(b) > 0,
{
    lemma_pow2_adds(a, b);
    lemma_pow2_pos(a);
    lemma_pow2_pos(b);
}

/// Whether a remainder `rest` of a division by `step` rounds the quotient
/// `sig` up: when it is more than half, or half with `sig` odd.
pub open spec fn rounds_up(rest: nat, step: nat, sig: nat) -> bool {
    2 * rest > step || (2 * rest == step && sig % 2 == 1)
}

/// The magnitude pattern with exponent part `q` and significand `sig`,
/// after rounding up if asked, and no greater than infinity.
pub open spec fn assembled(q: nat, sig: nat, up: bool) -> nat {
    let m = q * (HIDDEN as nat) + sig + if up {
        1nat
    } else {
        0nat
    };
    if m >= INFINITE {
        INFINITE as nat
    } else {
        m
    }
}

/// Rounding, given the division it rests on: if `num` is `sig` steps of
/// `den * 2^q` and a rest, with `sig` a significand that fits the exponent
/// part `q`, the rounded magnitude is assembled from `q`, `sig` and the
/// rest.
pub proof fn lemma_round_decomposed(num: nat, den: nat, q: nat, sig: nat, rest: nat)
    requires
        den > 0,
        num == sig * (den * pow2(q)) + rest,
        rest < den * pow2(q),
        sig < 0x100_0000,
        q > 0 ==> sig >= HIDDEN,
    ensures
        round_magnitude(num, den) == assembled(q, sig, rounds_up(rest, den * pow2(q), sig)),
{
    reveal(round_magnitude);
    lemma_pow2_pos(q);
    let p = pow2(q);
    let step = den * p;
    assert(step > 0) by (nonlinear_arith)
        requires
            step == den * p,
            den > 0,
            p > 0,
    ;
    // The quotient by `den` alone lies between `sig * 2^q` and `(sig + 1) * 2^q`.
    let v = num / den;
    let inner = rest / den;
    assert(num == (sig * p) * den + rest) by (nonlinear_arith)
        requires
            num == sig * (den * p) + rest,
    ;
    assert(rest == inner * den + rest % den && 0 <= rest % den < den && 0 <= inner < p)
        by (nonlinear_arith)
        requires
            inner == rest / den,
            den > 0,
            0 <= rest < den * p,
            p > 0,
    ;
    assert(num == (sig * p + inner) * den + rest % den) by (nonlinear_arith)
        requires
            num == (sig * p) * den + rest,
            rest == inner * den + rest % den,
    ;
    assert(0 <= sig * p) by (nonlinear_arith)
        requires
            sig >= 0,
            p > 0,
    ;
    lemma_fundamental_div_mod_converse(
        num as int,
        den as int,
        (sig * p + inner) as int,
        (rest % den) as int,
    );
    assert(v == sig * p + inner);
    let digits = bit_length(v);
    if q > 0 {
        lemma2_to64();
        lemma_pow2_product(23, q);
        lemma_pow2_product(24, q);
        assert(pow2(23) * p <= v < pow2(24) * p) by (nonlinear_arith)
            requires
                v == sig * p + inner,
                0 <= inner < p,
                pow2(23) <= sig < pow2(24),
                p > 0,
        ;
        lemma_digits_at_least(v, 23 + q);
        lemma_digits_at_most(v, 24 + q);
        assert(digits == 24 + q);
    } else {
        lemma2_to64();
        assert(p == 1);
        assert(v < pow2(24));
        lemma_digits_at_most(v, 24);
    }
    lemma_fundamental_div_mod_converse(num as int, step as int, sig as int, rest as int);
}

/// Number of binary digits of `t`.
pub(crate) fn digits_of(t: u64) -> (n: u32)
    ensures
        n == bit_length(t as nat),
        n <= 64,
{
    let mut n: u32 = 0;
    let mut x: u64 = t;
    proof {
        lemma2_to64_rest();
        lemma_digits_at_most(t as nat, 64);
    }
    while x > 0
        invariant
            bit_length(t as nat) == n + bit_length(x as nat),
            bit_length(t as nat) <= 64,
        decreases x,
    {
        x = x / 2;
        n = n + 1;
    }
    n
}

/// Two to the power `k`.
pub(crate) fn power_of_two(k: u32) -> (p: u64)
    requires
        k < 64,
    ensures
        p == pow2(k as nat),
{
    let mut p: u64 = 1;
    let mut i: u32 = 0;
    proof {
        lemma2_to64();
    }
    while i < k
        invariant
            i <= k < 64,
            p == pow2(i as nat),
        decreases k - i,
    {
        proof {
            lemma2_to64_rest();
            lemma_pow2_strictly_increases(i as nat, 63);
            lemma_pow2_unfold((i + 1) as nat);
        }
        p = p * 2;
        i = i + 1;
    }
    p
}

/// The binary32 number with the given sign that is nearest to
/// `t * 2^raise / 2^lower` units of 2^-149.
pub(crate) fn encode(negative: bool, t: u64, raise: u32, lower: u32) -> (r: Scalar)
    requires
        raise <= 1000,
        lower <= 1000,
    ensures
        r == pack(negative, round_magnitude(t as nat * pow2(raise as nat), pow2(lower as nat))),
{
    proof {
        assert((t * 1 + 0) * pow2(raise as nat) == t * pow2(raise as nat)) by (nonlinear_arith);
        assert(1 * pow2(lower as nat) == pow2(lower as nat)) by (nonlinear_arith);
    }
    encode_with_rest(negative, t, raise, lower, false, Ghost(0), Ghost(1))
}

/// The binary32 number with the given sign that is nearest to
/// `(t + part / whole) * 2^raise / 2^lower` units of 2^-149, where
/// `part / whole` is a fraction below one of which `inexact` tells whether
/// it is above zero. With such a fraction, `t` has to have more than
/// twenty-five digits, so that what is rounded away begins in `t`.
pub(crate) fn encode_with_rest(
    negative: bool,
    t: u64,
    raise: u32,
    lower: u32,
    inexact: bool,
    Ghost(part): Ghost<nat>,
    Ghost(whole): Ghost<nat>,
) -> (r: Scalar)
    requires
        raise <= 1000,
        lower <= 1000,
        part < whole,
        inexact == (part > 0),
        inexact ==> t >= 0x200_0000,
    ensures
        r == pack(
            negative,
            round_magnitude(
                (t as nat * whole + part) * pow2(raise as nat),
                whole * pow2(lower as nat),
            ),
        ),
{
    let ghost unit: nat = pow2(raise as nat);
    let ghost num: nat = (t as nat * whole + part) * unit;
    let ghost den: nat = whole * pow2(lower as nat);
    proof {
        lemma_pow2_pos(raise as nat);
        lemma_pow2_pos(lower as nat);
        lemma2_to64();
        lemma2_to64_rest();
        assert(den > 0) by (nonlinear_arith)
            requires
                den == whole * pow2(lower as nat),
                whole > 0,
                pow2(lower as nat) > 0,
        ;
    }
    if t == 0 {
        proof {
            assert(num == 0) by (nonlinear_arith)
                requires
                    num == (0 * whole + 0) * unit,
            ;
            assert(0 == 0 * (den * pow2(0)) + 0) by (nonlinear_arith);
            lemma_round_decomposed(0, den, 0, 0, 0);
        }
        return Scalar { bits: if negative { SIGN } else { 0 } };
    }
    let digits: i32 = digits_of(t) as i32;
    let gap: i32 = lower as i32 - raise as i32;
    // How far the digits of `t` move to the right (to the left if negative).
    let shift: i32 = if digits - 24 > gap { digits - 24 } else { gap };
    let q: u64 = (shift - gap) as u64;
    let sig: u64;
    let mut up: u64 = 0;
    proof {
        lemma_digits_bounds(t as nat);
        if digits < 26 {
            lemma_pow2_strictly_increases(digits as nat, 26);
        }
    }
    if shift >= 64 {
        // All of `t` is rounded away: what is left is zero or one unit.
        sig = 0;
        if shift == 64 && (t > 0x8000_0000_0000_0000 || (t == 0x8000_0000_0000_0000 && inexact)) {
            up = 1;
        }
        proof {
            let right = shift as nat;
            let p = pow2(right);
            let inner = t as nat * whole + part;
            lemma_pow2_product(right, raise as nat);
            if shift > 64 {
                lemma_pow2_unfold(65);
                if shift > 65 {
                    lemma_pow2_strictly_increases(65, right);
                }
            }
            assert(den == whole * p * unit) by (nonlinear_arith)
                requires
                    den == whole * pow2(lower as nat),
                    pow2(lower as nat) == p * unit,
            ;
            // Twice what is rounded away, against one unit.
            if shift == 64 && t > 0x8000_0000_0000_0000 {
                assert(2 * inner > whole * p) by (nonlinear_arith)
                    requires
                        inner == t * whole + part,
                        t >= 0x8000_0000_0000_0001,
                        p == 0x1_0000_0000_0000_0000,
                        whole > 0,
                ;
            } else if shift == 64 && t == 0x8000_0000_0000_0000 {
                assert(2 * inner == whole * p + 2 * part) by (nonlinear_arith)
                    requires
                        inner == t * whole + part,
                        t == 0x8000_0000_0000_0000,
                        p == 0x1_0000_0000_0000_0000,
                ;
            } else {
                assert(2 * inner < whole * p) by (nonlinear_arith)
                    requires
                        inner == t * whole + part,
                        part < whole,
                        (t < 0x8000_0000_0000_0000 && p == 0x1_0000_0000_0000_0000) || (t
                            < 0x1_0000_0000_0000_0000 && p >= 0x2_0000_0000_0000_0000),
                ;
            }
            assert(inner < whole * p) by (nonlinear_arith)
                requires
                    inner == t * whole + part,
                    part < whole,
                    t < 0x1_0000_0000_0000_0000,
                    p >= 0x1_0000_0000_0000_0000,
            ;
            assert(num < den && (2 * num > den <==> 2 * inner > whole * p) && (2 * num == den
                <==> 2 * inner == whole * p)) by (nonlinear_arith)
                requires
                    num == inner * unit,
                    den == whole * p * unit,
                    unit > 0,
                    inner < whole * p,
            ;
            assert(num == 0 * (den * pow2(0)) + num && den * pow2(0) == den) by (nonlinear_arith)
                requires
                    pow2(0) == 1,
            ;
            lemma_round_decomposed(num, den, 0, 0, num);
        }
    } else if shift <= 0 {
        let scale: u64 = power_of_two((-shift) as u32);
        proof {
            let left = (-shift) as nat;
            lemma_pow2_product(digits as nat, (24 - digits) as nat);
            if left < 24 - digits {
                lemma_pow2_strictly_increases(left, (24 - digits) as nat);
            }
            assert(t * scale < 0x100_0000) by (nonlinear_arith)
                requires
                    0 < t < pow2(digits as nat),
                    0 < scale <= pow2((24 - digits) as nat),
                    pow2(digits as nat) * pow2((24 - digits) as nat) == 0x100_0000,
            ;
        }
        sig = t * scale;
        proof {
            let left = (-shift) as nat;
            let step = den * pow2(q as nat);
            // raise == left + lower + q
            lemma_pow2_product(lower as nat, q as nat);
            lemma_pow2_product(left, (lower + q) as nat);
            assert(part == 0);
            assert(num == sig * step + 0) by (nonlinear_arith)
                requires
                    num == (t * whole + 0) * unit,
                    sig == t * scale,
                    scale == pow2(left),
                    step == den * pow2(q as nat),
                    den == whole * pow2(lower as nat),
                    pow2(lower as nat) * pow2(q as nat) == pow2((lower + q) as nat),
                    pow2(left) * pow2((lower + q) as nat) == unit,
            ;
            assert(step > 0) by (nonlinear_arith)
                requires
                    step == den * pow2(q as nat),
                    den > 0,
                    pow2(q as nat) > 0,
            ;
            if q > 0 {
                lemma_pow2_product((digits - 1) as nat, (24 - digits) as nat);
                assert(sig >= 0x80_0000) by (nonlinear_arith)
                    requires
                        sig == t * scale,
                        t >= pow2((digits - 1) as nat),
                        scale == pow2((24 - digits) as nat),
                        pow2((digits - 1) as nat) * pow2((24 - digits) as nat) == 0x80_0000,
                ;
            }
            lemma_round_decomposed(num, den, q as nat, sig as nat, 0);
        }
    } else {
        let p: u64 = power_of_two(shift as u32);
        proof {
            lemma_pow2_pos(shift as nat);
            lemma_pow2_unfold(shift as nat);
        }
        let half: u64 = p / 2;
        sig = t / p;
        let rest: u64 = t % p;
        assert(t == sig * p + rest && 0 <= rest < p) by (nonlinear_arith)
            requires
                sig == t / p,
                rest == t % p,
                p > 0,
        ;
        if rest > half || (rest == half && (inexact || sig % 2 == 1)) {
            up = 1;
        }
        proof {
            let right = shift as nat;
            let step = den * pow2(q as nat);
            let tail = (rest as nat * whole + part) * unit;
            // lower + q == right + raise
            lemma_pow2_product(lower as nat, q as nat);
            lemma_pow2_product(right, raise as nat);
            assert(step == whole * (p * unit)) by (nonlinear_arith)
                requires
                    step == den * pow2(q as nat),
                    den == whole * pow2(lower as nat),
                    pow2(lower as nat) * pow2(q as nat) == p * unit,
            ;
            assert(num == sig * step + tail && tail < step) by (nonlinear_arith)
                requires
                    num == (t * whole + part) * unit,
                    t == sig * p + rest,
                    0 <= rest < p,
                    step == whole * (p * unit),
                    tail == (rest * whole + part) * unit,
                    unit > 0,
                    part < whole,
            ;
            assert((2 * tail > step <==> (rest > half || (rest == half && part > 0))) && (2 * tail
                == step <==> (rest == half && part == 0))) by (nonlinear_arith)
                requires
                    step == whole * (p * unit),
                    tail == (rest * whole + part) * unit,
                    unit > 0,
                    part < whole,
                    p == 2 * half,
                    0 <= rest < p,
            ;
            if digits >= shift {
                lemma_pow2_product(right, (digits - shift) as nat);
                if digits - shift < 24 {
                    lemma_pow2_strictly_increases((digits - shift) as nat, 24);
                }
                assert(sig < pow2((digits - shift) as nat)) by (nonlinear_arith)
                    requires
                        t == sig * p + rest,
                        0 <= rest,
                        p > 0,
                        t < p * pow2((digits - shift) as nat),
                ;
            } else {
                lemma_pow2_strictly_increases(digits as nat, right);
                assert(sig == 0) by (nonlinear_arith)
                    requires
                        t == sig * p + rest,
                        0 <= rest,
                        0 <= sig,
                        t < p,
                ;
            }
            if q > 0 {
                lemma_pow2_product(right, 23);
                assert(sig >= 0x80_0000) by (nonlinear_arith)
                    requires
                        t == sig * p + rest,
                        0 <= rest < p,
                        t >= p * 0x80_0000,
                ;
            }
            lemma_round_decomposed(num, den, q as nat, sig as nat, tail);
        }
    }
    let m: u64 = q * (HIDDEN as u64) + sig + up;
    let mag: u32 = if m >= INFINITE as u64 {
        INFINITE
    } else {
        m as u32
    };
    Scalar { bits: if negative { SIGN + mag } else { mag } }
}

/// The root of `n` is the one number whose square is at most `n` while the
/// square of the next is more.
pub proof fn lemma_root(n: nat)
    ensures
        root(n) * root(n) <= n < (root(n) + 1) * (root(n) + 1),
    decreases n,
{
    let x = root(n);
    if n == 0 {
        assert(x * x <= n < (x + 1) * (x + 1)) by (nonlinear_arith)
            requires
                x == 0,
                n == 0,
        ;
    } else {
        lemma_root((n - 1) as nat);
        let r = root((n - 1) as nat);
        let next = (r + 1) * (r + 1);
        assert(x == if next <= n {
            r + 1
        } else {
            r
        });
        assert(x * x <= n < (x + 1) * (x + 1)) by (nonlinear_arith)
            requires
                r * r <= n - 1 < next,
                next == (r + 1) * (r + 1),
                x == if next <= n {
                    r + 1
                } else {
                    r
                },
                r >= 0,
        ;
    }
}

/// The root lies between any two numbers whose squares lie on either side.
pub proof fn lemma_root_between(n: nat, low: nat, high: nat)
    requires
        low * low <= n < high * high,
    ensures
        low <= root(n) < high,
{
    lemma_root(n);
    let r = root(n);
    if r < low {
        assert((r + 1) * (r + 1) <= low * low) by (nonlinear_arith)
            requires
                0 <= r + 1 <= low,
        ;
    }
    if r >= high {
        assert(high * high <= r * r) by (nonlinear_arith)
            requires
                0 <= high <= r,
        ;
    }
}

/// The greatest number whose square is at most `n`.
pub(crate) fn integer_root(n: u64) -> (r: u64)
    ensures
        r * r <= n < (r + 1) * (r + 1),
        r < 0x1_0000_0000,
{
    let mut r: u64 = 0;
    let mut bit: u32 = 32;
    proof {
        lemma2_to64();
        assert(0 * 0 == 0) by (nonlinear_arith);
        assert(0x1_0000_0000 * 0x1_0000_0000 == 0x1_0000_0000_0000_0000) by (nonlinear_arith);
    }
    while bit > 0
        invariant
            bit <= 32,
            r * r <= n,
            n < (r + pow2(bit as nat)) * (r + pow2(bit as nat)),
            r + pow2(bit as nat) <= 0x1_0000_0000,
        decreases bit,
    {
        proof {
            lemma_pow2_unfold(bit as nat);
            lemma_pow2_pos((bit - 1) as nat);
        }
        bit = bit - 1;
        let b: u64 = power_of_two(bit);
        let candidate: u64 = r + b;
        assert(candidate * candidate < 0x1_0000_0000_0000_0000) by (nonlinear_arith)
            requires
                0 <= candidate < 0x1_0000_0000,
        ;
        if candidate * candidate <= n {
            r = candidate;
        }
    }
    proof {
        lemma2_to64();
    }
    r
}

/// Rounding a root, given the root of the significand moved up to
/// thirty-two digits: if `n` is `big` times the square of `2^h` and `r` is
/// the root of `big`, the rounded magnitude has the exponent part `8 + h`,
/// the upper twenty-four digits of `r` as significand, and is rounded up by
/// the lower eight.
pub proof fn lemma_round_root(n: nat, big: nat, r: nat, h: nat)
    requires
        n == big * (pow2(h) * pow2(h)),
        r * r <= big < (r + 1) * (r + 1),
        0x4000_0000_0000_0000 <= big < 0x1_0000_0000_0000_0000,
        h <= 200,
    ensures
        0x80_0000 <= r / 256 < 0x100_0000,
        round_root(n) == (8 + h) * HIDDEN + r / 256 + if r % 256 > 128 || (r % 256 == 128 && (r
            * r != big || (r / 256) % 2 == 1)) {
            1nat
        } else {
            0nat
        },
{
    reveal(round_root);
    lemma2_to64();
    lemma2_to64_rest();
    let p = pow2(h);
    lemma_pow2_pos(h);
    let sig = r / 256;
    let low = r % 256;
    // The root of `big` has thirty-two digits.
    assert(0x8000_0000 <= r < 0x1_0000_0000) by (nonlinear_arith)
        requires
            r * r <= big < (r + 1) * (r + 1),
            0x4000_0000_0000_0000 <= big < 0x1_0000_0000_0000_0000,
    ;
    // The root of `n` lies between `r` and `r + 1` steps of `2^h`.
    assert((r * p) * (r * p) <= n < ((r + 1) * p) * ((r + 1) * p)) by (nonlinear_arith)
        requires
            n == big * (p * p),
            r * r <= big < (r + 1) * (r + 1),
            p > 0,
    ;
    lemma_root_between(n, r * p, (r + 1) * p);
    let whole = root(n);
    lemma_pow2_product(31, h);
    lemma_pow2_product(32, h);
    assert(pow2(31) * p <= whole < pow2(32) * p) by (nonlinear_arith)
        requires
            r * p <= whole < (r + 1) * p,
            pow2(31) <= r,
            r + 1 <= pow2(32),
            p > 0,
    ;
    lemma_digits_at_least(whole, 31 + h);
    lemma_digits_at_most(whole, 32 + h);
    let q = 8 + h;
    lemma_pow2_product(h, 8);
    let step = pow2(q);
    assert(step == p * 256);
    // Its upper twenty-four digits are those of `r`.
    assert(whole / p == r) by (nonlinear_arith)
        requires
            r * p <= whole < (r + 1) * p,
            p > 0,
    ;
    lemma_div_denominator(whole as int, p as int, 256);
    assert(whole / step == sig);
    // Twice the middle, and how `n` lies to it.
    let m = sig * 256 + 128;
    let middle = (2 * sig + 1) * step;
    assert(middle * middle == 4 * (m * m) * (p * p)) by (nonlinear_arith)
        requires
            middle == (2 * sig + 1) * step,
            step == p * 256,
            m == sig * 256 + 128,
    ;
    assert((4 * n > middle * middle <==> big > m * m) && (4 * n == middle * middle <==> big == m
        * m)) by (nonlinear_arith)
        requires
            n == big * (p * p),
            middle * middle == 4 * (m * m) * (p * p),
            p > 0,
    ;
    assert(r == sig * 256 + low);
    if low > 128 {
        assert(big > m * m) by (nonlinear_arith)
            requires
                r * r <= big,
                r >= m + 1,
                m >= 0,
        ;
    } else if low == 128 {
        assert(r == m);
    } else {
        assert(big < m * m) by (nonlinear_arith)
            requires
                big < (r + 1) * (r + 1),
                0 <= r + 1 <= m,
        ;
    }
    assert((8 + h) * HIDDEN + sig + 1 < INFINITE) by (nonlinear_arith)
        requires
            h <= 200,
            sig < 0x100_0000,
    ;
}

} // verus!
