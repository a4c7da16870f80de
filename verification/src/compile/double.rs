//! Numbers of double precision that are not negative, held as their 64 bits: how they
//! are added and multiplied, each result rounded to the nearest such number, and to the
//! even one of two that are equally near.
//!
//! Read as integers, the bits stand in the order of the numbers.

use vstd::arithmetic::div_mod;
use vstd::arithmetic::power2;
use vstd::prelude::*;

verus! {

/// Above every number. What is too large for the others comes to this.
pub const INFINITY: u64 = 0x7ff0_0000_0000_0000;

/// How many numbers there are between two powers of two.
pub const BINADE: u64 = 0x10_0000_0000_0000;

/// The greatest exponent of a number, counted from that of the smallest.
pub const TOP: u64 = 2045;

/// How many times the smallest number goes into 1, as a power of two.
pub const ONE_IS: u64 = 1074;

/// The exponent of a number, counted from that of the smallest.
pub open spec fn exponent(bits: u64) -> nat {
    if bits < 2 * BINADE {
        0
    } else {
        (bits / BINADE - 1) as nat
    }
}

/// The digits of a number, without its exponent.
pub open spec fn digits(bits: u64) -> nat {
    (bits - exponent(bits) * BINADE) as nat
}

/// A number as a multiple of the smallest one above zero.
pub open spec fn units(bits: u64) -> nat {
    digits(bits) * power2::pow2(exponent(bits))
}

/// The least exponent at which a fraction needs no more digits than a number has.
pub open spec fn scale(num: nat, den: nat) -> nat
    decreases num - den,
{
    if den == 0 || num < 2 * BINADE * den {
        0
    } else {
        proof {
            assert(2 * BINADE * den >= 2 * den) by (nonlinear_arith);
        }
        1 + scale(num, 2 * den)
    }
}

/// The bits of a number of so many digits at an exponent. One digit too many is the
/// first number of the next exponent.
pub open spec fn packed(exponent: nat, digits: nat) -> u64 {
    if exponent > TOP {
        INFINITY
    } else {
        (exponent * BINADE + digits) as u64
    }
}

/// The number nearest to a fraction of the smallest one, the even one of two.
pub open spec fn rounded(num: nat, den: nat) -> u64 {
    let step = den * power2::pow2(scale(num, den));
    let floor = num / step;
    let rest = num % step;
    packed(
        scale(num, den),
        if 2 * rest > step || (2 * rest == step && floor % 2 == 1) {
            floor + 1
        } else {
            floor
        },
    )
}

/// The sum of two numbers.
pub open spec fn sum_of(one: u64, other: u64) -> u64 {
    if one >= INFINITY || other >= INFINITY {
        INFINITY
    } else {
        rounded(units(one) + units(other), 1)
    }
}

/// The product of two numbers, neither of them zero if one is above every number.
pub open spec fn product_of(one: u64, other: u64) -> u64 {
    if one >= INFINITY || other >= INFINITY {
        INFINITY
    } else {
        rounded(units(one) * units(other), power2::pow2(ONE_IS as nat))
    }
}

proof fn lemma_scale(num: nat, den: nat, e: nat)
    requires
        den > 0,
        num < 2 * BINADE * (den * power2::pow2(e)),
        e == 0 || num >= BINADE * (den * power2::pow2(e)),
    ensures
        scale(num, den) == e,
    decreases e,
{
    if e == 0 {
        power2::lemma2_to64();
        assert(den * power2::pow2(0) == den) by (nonlinear_arith)
            requires
                power2::pow2(0) == 1,
        ;
    } else {
        let below = power2::pow2((e - 1) as nat);
        power2::lemma_pow2_unfold(e);
        power2::lemma_pow2_pos((e - 1) as nat);
        assert(2 * den * below == den * power2::pow2(e)) by (nonlinear_arith)
            requires
                power2::pow2(e) == 2 * below,
        ;
        assert(2 * BINADE * den <= BINADE * (den * power2::pow2(e))) by (nonlinear_arith)
            requires
                2 * den * below == den * power2::pow2(e),
                below >= 1,
        ;
        lemma_scale(num, 2 * den, (e - 1) as nat);
    }
}

/// A fraction rounds to its digits at the exponent where they are as many as a number
/// has.
proof fn lemma_rounded(num: nat, den: nat, e: nat, q: nat, r: nat)
    requires
        den > 0,
        num == q * (den * power2::pow2(e)) + r,
        r < den * power2::pow2(e),
        q < 2 * BINADE,
        e == 0 || q >= BINADE,
    ensures
        ({
            let step = den * power2::pow2(e);
            rounded(num, den) == packed(
                e,
                if 2 * r > step || (2 * r == step && q % 2 == 1) {
                    q + 1
                } else {
                    q
                },
            )
        }),
{
    let step = den * power2::pow2(e);
    assert(num < 2 * BINADE * step) by (nonlinear_arith)
        requires
            num == q * step + r,
            r < step,
            q + 1 <= 2 * BINADE,
    ;
    assert(q >= BINADE ==> num >= BINADE * step) by (nonlinear_arith)
        requires
            num == q * step + r,
            r >= 0,
            step > 0,
    ;
    lemma_scale(num, den, e);
    div_mod::lemma_fundamental_div_mod_converse(num as int, step as int, q as int, r as int);
}

/// A product of digits and a power of two rounds as its digits do.
proof fn lemma_narrowed(n: nat, x: int, s: nat, q: nat, r: nat)
    requires
        x + s >= 0,
        n == q * power2::pow2(s) + r,
        r < power2::pow2(s),
        q < 2 * BINADE,
        x + s == 0 || q >= BINADE,
    ensures
        ({
            let step = power2::pow2(s);
            let up = if x > 0 {
                x as nat
            } else {
                0
            };
            let down = if x < 0 {
                (-x) as nat
            } else {
                0
            };
            rounded(n * power2::pow2(up), power2::pow2(down)) == packed(
                (x + s) as nat,
                if 2 * r > step || (2 * r == step && q % 2 == 1) {
                    q + 1
                } else {
                    q
                },
            )
        }),
{
    let e = (x + s) as nat;
    let step = power2::pow2(s);
    power2::lemma2_to64();
    if x < 0 {
        let den = power2::pow2((-x) as nat);
        power2::lemma_pow2_adds((-x) as nat, e);
        power2::lemma_pow2_pos((-x) as nat);
        assert(den * power2::pow2(e) == step);
        assert(n * power2::pow2(0) == n) by (nonlinear_arith)
            requires
                power2::pow2(0) == 1,
        ;
        lemma_rounded(n, den, e, q, r);
    } else {
        let by = power2::pow2(x as nat);
        power2::lemma_pow2_adds(x as nat, s);
        power2::lemma_pow2_pos(x as nat);
        let wide = power2::pow2(e);
        assert(wide == by * step);
        assert(n * by == q * wide + r * by) by (nonlinear_arith)
            requires
                n == q * step + r,
                wide == by * step,
        ;
        assert(r * by < wide) by (nonlinear_arith)
            requires
                r < step,
                wide == by * step,
                by > 0,
        ;
        assert(2 * (r * by) > wide <==> 2 * r > step) by (nonlinear_arith)
            requires
                wide == by * step,
                by > 0,
        ;
        assert(2 * (r * by) == wide <==> 2 * r == step) by (nonlinear_arith)
            requires
                wide == by * step,
                by > 0,
        ;
        assert(1 * power2::pow2(e) == wide);
        lemma_rounded(n * by, 1, e, q, r * by);
    }
}

/// The digits and the exponent of a number.
fn parts(bits: u64) -> (found: (u64, i32))
    requires
        bits < INFINITY,
    ensures
        found.0 == digits(bits),
        found.1 == exponent(bits) <= TOP,
        found.0 < 2 * BINADE,
        found.1 > 0 ==> found.0 >= BINADE,
        bits == found.1 * BINADE + found.0,
{
    if bits < 2 * BINADE {
        return (bits, 0);
    }
    let above: u64 = bits / BINADE - 1;
    (bits - above * BINADE, above as i32)
}

/// The number nearest to `n` times two to the power of `x`.
fn narrow(n: u128, x: i32) -> (bits: u64)
    requires
        n < 0x100_0000_0000_0000_0000_0000_0000_0000,
        -4096 <= x <= 4096,
        n == 0 || n >= BINADE || x <= 0,
    ensures
        bits <= INFINITY,
        bits == rounded(
            n as nat * power2::pow2(
                if x > 0 {
                    x as nat
                } else {
                    0
                },
            ),
            power2::pow2(
                if x < 0 {
                    (-x) as nat
                } else {
                    0
                },
            ),
        ),
{
    if n == 0 {
        proof {
            let den = power2::pow2(
                if x < 0 {
                    (-x) as nat
                } else {
                    0
                },
            );
            power2::lemma_pow2_pos(
                if x < 0 {
                    (-x) as nat
                } else {
                    0
                },
            );
            power2::lemma2_to64();
            assert(den * power2::pow2(0) == den) by (nonlinear_arith)
                requires
                    power2::pow2(0) == 1,
            ;
            lemma_rounded(0, den, 0, 0, 0);
            assert(forall|k: nat| 0 * #[trigger] power2::pow2(k) == 0);
        }
        return 0;
    }
    let mut q: u128 = n;
    let mut s: i32 = 0;
    let mut half: bool = false;
    let mut rest: bool = false;
    let ghost mut r: nat = 0;
    proof {
        power2::lemma2_to64();
        assert(n == q * power2::pow2(0) + r) by (nonlinear_arith)
            requires
                power2::pow2(0) == 1,
                n == q,
                r == 0,
        ;
    }
    while q >= 2 * BINADE as u128 || x < -s
        invariant
            0 < n < 0x100_0000_0000_0000_0000_0000_0000_0000,
            -4096 <= x <= 4096,
            n >= BINADE || x <= 0,
            0 <= s <= 4096,
            q <= n,
            n == q * power2::pow2(s as nat) + r,
            r < power2::pow2(s as nat),
            half == (2 * r >= power2::pow2(s as nat)),
            rest == (2 * r != 0 && 2 * r != power2::pow2(s as nat)),
            s == 0 || x + s <= 0 || n >= BINADE * power2::pow2(s as nat),
        decreases
                q + (if x + s < 0 {
                    -(x + s)
                } else {
                    0
                }),
    {
        proof {
            let step = power2::pow2(s as nat);
            let bit = (q % 2) as nat;
            let kept = (q / 2) as nat;
            power2::lemma_pow2_unfold((s + 1) as nat);
            power2::lemma_pow2_pos(s as nat);
            assert(n == kept * (2 * step) + (bit * step + r)) by (nonlinear_arith)
                requires
                    n == q * step + r,
                    q == 2 * kept + bit,
            ;
            assert(bit * step == (if bit == 1 {
                step
            } else {
                0
            })) by (nonlinear_arith)
                requires
                    bit == 0 || bit == 1,
            ;
            if q >= 2 * BINADE {
                assert(n >= BINADE * (2 * step)) by (nonlinear_arith)
                    requires
                        n == q * step + r,
                        q >= 2 * BINADE,
                        r >= 0,
                        step > 0,
                ;
            }
            lemma_short(n as nat, (s + 1) as nat);
            r = bit * step + r;
        }
        rest = half || rest;
        half = q % 2 == 1;
        q = q / 2;
        s = s + 1;
    }
    let e: i32 = x + s;
    let up: bool = half && (rest || q % 2 == 1);
    proof {
        let step = power2::pow2(s as nat);
        if e > 0 && s > 0 {
            assert(q >= BINADE) by (nonlinear_arith)
                requires
                    n == q * step + r,
                    r < step,
                    n >= BINADE * step,
            ;
        }
        if s == 0 {
            assert(q * step == q) by (nonlinear_arith)
                requires
                    step == 1,
            ;
        }
        lemma_narrowed(n as nat, x as int, s as nat, q as nat, r);
    }
    if e > 2045 {
        return INFINITY;
    }
    let kept: u64 = if up {
        q as u64 + 1
    } else {
        q as u64
    };
    e as u64 * BINADE + kept
}

/// A number that still has all its digits has not been halved often.
proof fn lemma_short(n: nat, s: nat)
    requires
        n < 0x100_0000_0000_0000_0000_0000_0000_0000,
    ensures
        n >= BINADE * power2::pow2(s) ==> s < 128,
{
    if s >= 128 {
        power2::lemma2_to64();
        power2::lemma_pow2_adds(64, 64);
        if s > 128 {
            power2::lemma_pow2_strictly_increases(128, s);
        }
        assert(0x1_0000_0000_0000_0000 * 0x1_0000_0000_0000_0000
            == 0x1_0000_0000_0000_0000_0000_0000_0000_0000int);
    }
}

/// Twice a number, so many times.
fn doubled(m: u64, times: i32) -> (n: u128)
    requires
        m < 2 * BINADE,
        0 <= times <= 60,
    ensures
        n == m * power2::pow2(times as nat),
        n < 0x80_0000_0000_0000_0000_0000_0000_0000,
{
    let mut n: u128 = m as u128;
    let mut done: i32 = 0;
    proof {
        power2::lemma2_to64();
    }
    assert(m * power2::pow2(0) == m) by (nonlinear_arith)
        requires
            power2::pow2(0) == 1,
    ;
    while done < times
        invariant
            0 <= done <= times <= 60,
            m < 2 * BINADE,
            n == m * power2::pow2(done as nat),
        decreases times - done,
    {
        proof {
            lemma_doubled(m, done as nat);
            lemma_doubled(m, (done + 1) as nat);
            power2::lemma_pow2_unfold((done + 1) as nat);
            assert(m * (2 * power2::pow2(done as nat)) == 2 * (m * power2::pow2(done as nat)))
                by (nonlinear_arith);
        }
        n = n + n;
        done = done + 1;
    }
    proof {
        lemma_doubled(m, times as nat);
    }
    n
}

proof fn lemma_doubled(m: u64, times: nat)
    requires
        m < 2 * BINADE,
        times <= 60,
    ensures
        m * power2::pow2(times) < 0x80_0000_0000_0000_0000_0000_0000_0000,
{
    power2::lemma2_to64_rest();
    if times < 60 {
        power2::lemma_pow2_strictly_increases(times, 60);
    }
    assert(m * power2::pow2(times) <= 0x20_0000_0000_0000 * 0x1000_0000_0000_0000int)
        by (nonlinear_arith)
        requires
            m < 0x20_0000_0000_0000,
            power2::pow2(times) <= 0x1000_0000_0000_0000,
            power2::pow2(times) >= 0,
    ;
}

/// A number that is far below another does not change it.
proof fn lemma_far(large: u64, small: u64)
    requires
        large < INFINITY,
        small < INFINITY,
        exponent(large) > exponent(small) + 55,
    ensures
        rounded(units(large) + units(small), 1) == large,
{
    let e = exponent(large);
    let f = exponent(small);
    let m = digits(large);
    let k = digits(small);
    let wide = power2::pow2(e);
    let near = power2::pow2(f);
    power2::lemma_pow2_adds((e - f) as nat, f);
    power2::lemma2_to64_rest();
    power2::lemma_pow2_strictly_increases(55, (e - f) as nat);
    power2::lemma_pow2_pos(f);
    let gap = power2::pow2((e - f) as nat);
    assert(2 * (k * near) < wide) by (nonlinear_arith)
        requires
            wide == gap * near,
            gap > 0x80_0000_0000_0000,
            0 <= k < 0x20_0000_0000_0000,
            near > 0,
    ;
    assert(k * near >= 0) by (nonlinear_arith)
        requires
            k >= 0,
            near > 0,
    ;
    assert(1 * wide == wide);
    lemma_rounded(units(large) + units(small), 1, e, m, (k * near) as nat);
}

/// Adds two numbers.
pub fn sum(one: u64, other: u64) -> (total: u64)
    requires
        one <= INFINITY,
        other <= INFINITY,
    ensures
        total == sum_of(one, other),
        total <= INFINITY,
{
    if one == INFINITY || other == INFINITY {
        return INFINITY;
    }
    let (large, small): (u64, u64) = if one >= other {
        (one, other)
    } else {
        (other, one)
    };
    let (m, e) = parts(large);
    let (k, f) = parts(small);
    proof {
        assert(e >= f) by (nonlinear_arith)
            requires
                large == e * 0x10_0000_0000_0000 + m,
                small == f * 0x10_0000_0000_0000 + k,
                large >= small,
                m < 0x20_0000_0000_0000,
                k < 0x20_0000_0000_0000,
                e == 0 || m >= 0x10_0000_0000_0000,
                f == 0 || k >= 0x10_0000_0000_0000,
                e >= 0,
                f >= 0,
                m >= 0,
                k >= 0,
        ;
    }
    if e - f > 55 {
        proof {
            lemma_far(large, small);
        }
        return large;
    }
    let n: u128 = doubled(m, e - f) + k as u128;
    proof {
        let near = power2::pow2(f as nat);
        let gap = power2::pow2((e - f) as nat);
        power2::lemma_pow2_adds((e - f) as nat, f as nat);
        power2::lemma_pow2_pos((e - f) as nat);
        power2::lemma2_to64();
        assert(n * near == units(large) + units(small)) by (nonlinear_arith)
            requires
                n == m * gap + k,
                power2::pow2(e as nat) == gap * near,
                units(large) == m * power2::pow2(e as nat),
                units(small) == k * near,
        ;
        assert(m * gap >= 0) by (nonlinear_arith)
            requires
                m >= 0,
                gap > 0,
        ;
    }
    narrow(n, f)
}

/// Multiplies two numbers.
pub fn product(one: u64, other: u64) -> (total: u64)
    requires
        one <= INFINITY,
        other <= INFINITY,
        one == INFINITY ==> other > 0,
        other == INFINITY ==> one > 0,
    ensures
        total == product_of(one, other),
        total <= INFINITY,
{
    if one == INFINITY || other == INFINITY {
        return INFINITY;
    }
    let (m, e) = parts(one);
    let (k, f) = parts(other);
    assert(0 <= m * k <= 0x20_0000_0000_0000 * 0x20_0000_0000_0000int) by (nonlinear_arith)
        requires
            0 <= m < 0x20_0000_0000_0000,
            0 <= k < 0x20_0000_0000_0000,
    ;
    let n: u128 = m as u128 * k as u128;
    let x: i32 = e + f - 1074;
    proof {
        if n > 0 && x > 0 {
            assert(n >= 0x10_0000_0000_0000) by (nonlinear_arith)
                requires
                    n == m * k,
                    n > 0,
                    m >= 0x10_0000_0000_0000 || k >= 0x10_0000_0000_0000,
                    m >= 0,
                    k >= 0,
            ;
        }
        lemma_product(one, other, n as nat, x as int);
    }
    narrow(n, x)
}

proof fn lemma_product(one: u64, other: u64, n: nat, x: int)
    requires
        one < INFINITY,
        other < INFINITY,
        n == digits(one) * digits(other),
        x == exponent(one) + exponent(other) - ONE_IS,
    ensures
        ({
            let up = if x > 0 {
                x as nat
            } else {
                0
            };
            let down = if x < 0 {
                (-x) as nat
            } else {
                0
            };
            rounded(n * power2::pow2(up), power2::pow2(down)) == rounded(
                units(one) * units(other),
                power2::pow2(ONE_IS as nat),
            )
        }),
{
    let e = exponent(one);
    let f = exponent(other);
    let both = power2::pow2(e + f);
    power2::lemma_pow2_adds(e, f);
    assert(units(one) * units(other) == n * both) by (nonlinear_arith)
        requires
            n == digits(one) * digits(other),
            units(one) == digits(one) * power2::pow2(e),
            units(other) == digits(other) * power2::pow2(f),
            both == power2::pow2(e) * power2::pow2(f),
    ;
    power2::lemma2_to64();
    if x >= 0 {
        let by = power2::pow2(ONE_IS as nat);
        power2::lemma_pow2_adds(x as nat, ONE_IS as nat);
        power2::lemma_pow2_pos(ONE_IS as nat);
        let less = n * power2::pow2(x as nat);
        assert(n * both == less * by) by (nonlinear_arith)
            requires
                both == power2::pow2(x as nat) * by,
                less == n * power2::pow2(x as nat),
        ;
        lemma_widened(less, 1, by);
    } else {
        let den = power2::pow2((-x) as nat);
        power2::lemma_pow2_adds((-x) as nat, e + f);
        power2::lemma_pow2_pos(e + f);
        power2::lemma_pow2_pos((-x) as nat);
        assert(n * power2::pow2(0) == n) by (nonlinear_arith)
            requires
                power2::pow2(0) == 1,
        ;
        lemma_widened(n, den, both);
    }
}

/// A fraction rounds alike in lower and in higher terms.
proof fn lemma_widened(num: nat, den: nat, by: nat)
    requires
        den > 0,
        by > 0,
    ensures
        rounded(num * by, den * by) == rounded(num, den),
{
    let e = scale(num, den);
    lemma_scale_widened(num, den, by);
    power2::lemma_pow2_pos(e);
    let step = den * power2::pow2(e);
    let wide = den * by * power2::pow2(e);
    assert(step > 0) by (nonlinear_arith)
        requires
            den > 0,
            power2::pow2(e) > 0,
            step == den * power2::pow2(e),
    ;
    assert(wide == step * by) by (nonlinear_arith)
        requires
            step == den * power2::pow2(e),
            wide == den * by * power2::pow2(e),
    ;
    let q = num / step;
    let r = num % step;
    div_mod::lemma_fundamental_div_mod(num as int, step as int);
    assert(num * by == q * wide + r * by) by (nonlinear_arith)
        requires
            num == step * q + r,
            wide == step * by,
    ;
    assert(0 <= r * by < wide) by (nonlinear_arith)
        requires
            0 <= r < step,
            wide == step * by,
            by > 0,
    ;
    div_mod::lemma_fundamental_div_mod_converse(
        (num * by) as int,
        wide as int,
        q as int,
        (r * by) as int,
    );
    assert(2 * (r * by) > wide <==> 2 * r > step) by (nonlinear_arith)
        requires
            wide == step * by,
            by > 0,
    ;
    assert(2 * (r * by) == wide <==> 2 * r == step) by (nonlinear_arith)
        requires
            wide == step * by,
            by > 0,
    ;
}

proof fn lemma_scale_widened(num: nat, den: nat, by: nat)
    requires
        den > 0,
        by > 0,
    ensures
        scale(num * by, den * by) == scale(num, den),
    decreases num - den,
{
    assert(2 * BINADE * den >= 2 * den) by (nonlinear_arith);
    assert(num * by < 2 * BINADE * (den * by) <==> num < 2 * BINADE * den) by (nonlinear_arith)
        requires
            by > 0,
    ;
    assert(den * by > 0) by (nonlinear_arith)
        requires
            den > 0,
            by > 0,
    ;
    if num >= 2 * BINADE * den {
        lemma_scale_widened(num, 2 * den, by);
        assert(2 * (den * by) == 2 * den * by) by (nonlinear_arith);
    }
}

/// A sum is not below what it adds to.
pub proof fn lemma_sum_grows(one: u64, other: u64)
    requires
        one <= INFINITY,
        other <= INFINITY,
    ensures
        sum_of(one, other) >= one,
{
    if one < INFINITY && other < INFINITY {
        let num = units(one) + units(other);
        let e = scale(num, 1);
        let f = exponent(one);
        let step = power2::pow2(e);
        lemma_scaled(num);
        assert(1 * step == step);
        div_mod::lemma_fundamental_div_mod(num as int, step as int);
        let q = num / step;
        let m = digits(one);
        if e < f {
            power2::lemma_pow2_adds((f - e) as nat, e);
            power2::lemma_pow2_pos(e);
            power2::lemma2_to64();
            if f - e > 1 {
                power2::lemma_pow2_strictly_increases(1, (f - e) as nat);
            }
            let gap = power2::pow2((f - e) as nat);
            assert(units(one) >= 0x20_0000_0000_0000 * step) by (nonlinear_arith)
                requires
                    units(one) == m * (gap * step),
                    m >= 0x10_0000_0000_0000,
                    gap >= 2,
                    step > 0,
            ;
        } else if e == f {
            assert(q >= m) by (nonlinear_arith)
                requires
                    num == step * q + num % step,
                    num >= m * step,
                    0 <= num % step < step,
            ;
        } else if e <= TOP {
            assert(q >= BINADE) by (nonlinear_arith)
                requires
                    num == step * q + num % step,
                    num >= BINADE * step,
                    0 <= num % step < step,
            ;
            assert(e * 0x10_0000_0000_0000 >= f * 0x10_0000_0000_0000 + 0x10_0000_0000_0000)
                by (nonlinear_arith)
                requires
                    e >= f + 1,
            ;
        }
        assert(q < 0x20_0000_0000_0000) by (nonlinear_arith)
            requires
                num == step * q + num % step,
                num < 0x20_0000_0000_0000 * step,
                0 <= num % step < step,
        ;
        assert(e <= TOP ==> e * 0x10_0000_0000_0000 + q + 1 <= u64::MAX) by (nonlinear_arith)
            requires
                q < 0x20_0000_0000_0000,
        ;
    }
}

/// Where a number has its digits.
proof fn lemma_scaled(num: nat)
    ensures
        num < 2 * BINADE * power2::pow2(scale(num, 1)),
        scale(num, 1) == 0 || num >= BINADE * power2::pow2(scale(num, 1)),
        power2::pow2(scale(num, 1)) > 0,
{
    lemma_scaled_from(num, 1);
    power2::lemma_pow2_pos(scale(num, 1));
}

proof fn lemma_scaled_from(num: nat, den: nat)
    requires
        den > 0,
    ensures
        num < 2 * BINADE * (den * power2::pow2(scale(num, den))),
        scale(num, den) == 0 || num >= BINADE * (den * power2::pow2(scale(num, den))),
    decreases num - den,
{
    let e = scale(num, den);
    power2::lemma2_to64();
    assert(2 * BINADE * den >= 2 * den) by (nonlinear_arith);
    if num < 2 * BINADE * den {
        assert(den * power2::pow2(0) == den) by (nonlinear_arith)
            requires
                power2::pow2(0) == 1,
        ;
    } else {
        lemma_scaled_from(num, 2 * den);
        let f = scale(num, 2 * den);
        power2::lemma_pow2_unfold(e);
        assert(2 * den * power2::pow2(f) == den * power2::pow2(e)) by (nonlinear_arith)
            requires
                power2::pow2(e) == 2 * power2::pow2(f),
        ;
        if f == 0 {
            assert(BINADE * (den * power2::pow2(e)) == 2 * BINADE * den) by (nonlinear_arith)
                requires
                    power2::pow2(e) == 2,
            ;
        }
    }
}

/// How far two multiples are apart.
pub open spec fn apart(one: int, other: int) -> int {
    if one < other {
        other - one
    } else {
        one - other
    }
}

proof fn lemma_packed(e: nat, q: nat)
    requires
        e <= TOP,
        q <= 2 * BINADE,
        e == 0 || q >= BINADE,
        packed(e, q) < INFINITY,
    ensures
        units(packed(e, q)) == q * power2::pow2(e),
{
    let bits = packed(e, q);
    assert(e * 0x10_0000_0000_0000 + q <= u64::MAX) by (nonlinear_arith)
        requires
            e <= 2045,
            q <= 0x20_0000_0000_0000,
    ;
    assert(bits == e * 0x10_0000_0000_0000 + q);
    if q == 2 * BINADE {
        assert(bits == (e + 2) * 0x10_0000_0000_0000) by (nonlinear_arith)
            requires
                bits == e * 0x10_0000_0000_0000 + q,
                q == 0x20_0000_0000_0000,
        ;
        assert(exponent(bits) == e + 1);
        assert(digits(bits) == BINADE) by (nonlinear_arith)
            requires
                bits == (e + 2) * 0x10_0000_0000_0000,
                digits(bits) == bits - exponent(bits) * 0x10_0000_0000_0000,
                exponent(bits) == e + 1,
        ;
        power2::lemma_pow2_unfold(e + 1);
        assert(BINADE * (2 * power2::pow2(e)) == q * power2::pow2(e)) by (nonlinear_arith)
            requires
                q == 2 * BINADE,
        ;
    } else if e > 0 {
        div_mod::lemma_fundamental_div_mod_converse(
            bits as int,
            BINADE as int,
            e as int + 1,
            q - BINADE,
        );
        assert(exponent(bits) == e);
        assert(digits(bits) == q);
    }
}

/// No number lies between two neighbours at the exponent of a fraction.
proof fn lemma_no_number_between(other: u64, e: nat, q: nat)
    requires
        other < INFINITY,
        e == 0 || q >= BINADE,
    ensures
        units(other) <= q * power2::pow2(e) || units(other) >= (q + 1) * power2::pow2(e),
{
    let f = exponent(other);
    let m = digits(other);
    let step = power2::pow2(e);
    power2::lemma_pow2_pos(e);
    if f >= e {
        power2::lemma_pow2_adds((f - e) as nat, e);
        let k = m * power2::pow2((f - e) as nat);
        assert(units(other) == k * step) by (nonlinear_arith)
            requires
                units(other) == m * power2::pow2(f),
                power2::pow2(f) == power2::pow2((f - e) as nat) * step,
                k == m * power2::pow2((f - e) as nat),
        ;
        if k <= q {
            assert(k * step <= q * step) by (nonlinear_arith)
                requires
                    k <= q,
                    step > 0,
            ;
        } else {
            assert(k * step >= (q + 1) * step) by (nonlinear_arith)
                requires
                    k >= q + 1,
                    step > 0,
            ;
        }
    } else {
        power2::lemma_pow2_unfold(e);
        power2::lemma_pow2_pos(f);
        if f < e - 1 {
            power2::lemma_pow2_strictly_increases(f, (e - 1) as nat);
        }
        let half = power2::pow2((e - 1) as nat);
        assert(m * power2::pow2(f) <= q * step) by (nonlinear_arith)
            requires
                0 <= m < 0x20_0000_0000_0000,
                0 < power2::pow2(f) <= half,
                step == 2 * half,
                q >= 0x10_0000_0000_0000,
        ;
    }
}

/// No number is nearer to a fraction than the one it is rounded to, and where another
/// is as near, the one it is rounded to is even.
pub proof fn lemma_rounded_is_nearest(num: nat, den: nat, other: u64)
    requires
        den > 0,
        other < INFINITY,
        rounded(num, den) < INFINITY,
    ensures
        ({
            let here = apart((units(rounded(num, den)) * den) as int, num as int);
            let there = apart((units(other) * den) as int, num as int);
            &&& here <= there
            &&& here == there ==> units(other) == units(rounded(num, den)) || rounded(num, den) % 2
                == 0
        }),
{
    let e = scale(num, den);
    let unit = power2::pow2(e);
    let step = den * unit;
    lemma_scaled_from(num, den);
    power2::lemma_pow2_pos(e);
    assert(step > 0) by (nonlinear_arith)
        requires
            den > 0,
            unit > 0,
            step == den * unit,
    ;
    let q = num / step;
    let r = num % step;
    div_mod::lemma_fundamental_div_mod(num as int, step as int);
    assert(q < 2 * BINADE) by (nonlinear_arith)
        requires
            num == step * q + r,
            0 <= r,
            num < 2 * BINADE * step,
            step > 0,
    ;
    if e > 0 {
        assert(q >= BINADE) by (nonlinear_arith)
            requires
                num == step * q + r,
                r < step,
                num >= BINADE * step,
        ;
    }
    let kept = if 2 * r > step || (2 * r == step && q % 2 == 1) {
        q + 1
    } else {
        q
    };
    lemma_packed(e, kept);
    lemma_no_number_between(other, e, q);
    assert(kept * unit * den == kept * step) by (nonlinear_arith)
        requires
            step == den * unit,
    ;
    assert((q + 1) * step == step * q + step) by (nonlinear_arith);
    assert(q * step == step * q) by (nonlinear_arith);
    let there = units(other) * den;
    if units(other) <= q * unit {
        assert(there <= q * step) by (nonlinear_arith)
            requires
                there == units(other) * den,
                units(other) <= q * unit,
                step == den * unit,
                den > 0,
        ;
        assert(there == q * step ==> units(other) == q * unit) by (nonlinear_arith)
            requires
                there == units(other) * den,
                step == den * unit,
                den > 0,
        ;
    } else {
        assert(there >= (q + 1) * step) by (nonlinear_arith)
            requires
                there == units(other) * den,
                units(other) >= (q + 1) * unit,
                step == den * unit,
                den > 0,
        ;
        assert(there == (q + 1) * step ==> units(other) == (q + 1) * unit) by (nonlinear_arith)
            requires
                there == units(other) * den,
                step == den * unit,
                den > 0,
        ;
    }
    assert(e * 0x10_0000_0000_0000 + kept <= u64::MAX) by (nonlinear_arith)
        requires
            e <= 2045,
            kept <= 0x20_0000_0000_0000,
    ;
    assert((e * 0x10_0000_0000_0000 + kept) % 2 == kept % 2) by (nonlinear_arith);
}

} // verus!
