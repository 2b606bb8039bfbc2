//! The cosine of a single-precision number between 0 and pi.
//!
//! It comes from Euler's product: cos(x / 2) is the product of 1 - (x / pi)^2 / (2k+1)^2 over all k, and
//! cos(x) is twice its square less 1. Every factor falls as x grows, and the first one is zero at pi. The
//! product is taken in whole numbers that count units of 2^-60, and what comes out is rounded to the
//! nearest single-precision number.

use vstd::prelude::*;
use vstd::arithmetic::power2::pow2;
use crate::single;
use crate::single::Single;
use crate::single_laws;

verus! {

/// The bits of pi.
pub const PI: u32 = 0x4049_0fdb;

/// 1 in units of 2^-60.
pub const ONE: u128 = 0x1000_0000_0000_0000;

/// 1 through the square of pi, in units of 2^-60.
pub const INVERSE: u128 = 116_815_371_493_470_715;

/// The number of factors of the product that are taken one by one.
pub const EXACT_FACTORS: u64 = 256;

/// The number of factors of the product.
pub const FACTORS: u64 = 1024;

/// What each of the last factors stands in for: the sum of 1/(2k+1)^2 over all k from `EXACT_FACTORS`
/// on, shared out among the factors that are left.
pub const TAIL: u128 = 1_466_013_639_576;

/// `x` in units of 2^-60.
pub open spec fn fixed(x: Single) -> nat {
    single::magnitude(x.place()) / pow2(89)
}

/// The square of `f` through pi, and at most 1.
pub open spec fn turn_squared(f: nat) -> nat {
    let z = f * f / (ONE as nat) * (INVERSE as nat) / (ONE as nat);
    if z < ONE {
        z
    } else {
        ONE as nat
    }
}

/// `a * b`, to the nearest unit; a half goes up.
pub open spec fn scaled_product(a: nat, b: nat) -> nat {
    (a * b + ONE / 2) as nat / (ONE as nat)
}

/// A factor of the product.
pub open spec fn factor(k: nat, y: nat) -> nat {
    let taken = if k < EXACT_FACTORS {
        y / ((2 * k + 1) * (2 * k + 1))
    } else {
        y * (TAIL as nat) / (ONE as nat)
    };
    (ONE - taken) as nat
}

/// The first `k` factors of the product, multiplied.
pub open spec fn multiplied(k: nat, y: nat) -> nat
    decreases k,
{
    if k == 0 {
        ONE as nat
    } else {
        scaled_product(multiplied((k - 1) as nat, y), factor((k - 1) as nat, y))
    }
}

/// Twice the square of `c`, less 1.
pub open spec fn doubled_angle(c: nat) -> int {
    2 * scaled_product(c, c) - ONE
}

/// The cosine of `x`, which lies between 0 and pi, in units of 2^-60.
pub open spec fn fixed_cosine(x: Single) -> int {
    doubled_angle(multiplied(FACTORS as nat, turn_squared(fixed(x))))
}

/// The cosine of `x`, which lies between 0 and pi.
pub open spec fn cosine_of(x: Single) -> Single {
    let c = fixed_cosine(x);
    if c < 0 {
        single::make(true, single::nearest((-c) as nat * pow2(89), 1))
    } else {
        single::make(false, single::nearest(c as nat * pow2(89), 1))
    }
}

/// `y` at most 1 gives factors between 0 and 1.
proof fn lemma_factor(k: nat, y: nat)
    requires
        y <= ONE,
    ensures
        factor(k, y) <= ONE,
        k < EXACT_FACTORS ==> y / ((2 * k + 1) * (2 * k + 1)) <= ONE,
        k >= EXACT_FACTORS ==> y * (TAIL as nat) / (ONE as nat) <= ONE,
{
    if k < EXACT_FACTORS {
        let d = (2 * k + 1) * (2 * k + 1);
        assert(d >= 1) by (nonlinear_arith)
            requires
                d == (2 * k + 1) * (2 * k + 1),
                k >= 0,
        ;
        assert(y / d <= y) by (nonlinear_arith)
            requires
                d >= 1,
                y >= 0,
        ;
    } else {
        let t = TAIL as nat;
        assert(y * t / 0x1000_0000_0000_0000 <= 0x1000_0000_0000_0000) by (nonlinear_arith)
            requires
                0 <= y <= 0x1000_0000_0000_0000,
                t == 1_466_013_639_576,
        ;
    }
}

/// A larger argument gives smaller factors.
proof fn lemma_factor_falls(k: nat, a: nat, b: nat)
    requires
        a <= b <= ONE,
    ensures
        factor(k, b) <= factor(k, a),
{
    lemma_factor(k, a);
    lemma_factor(k, b);
    if k < EXACT_FACTORS {
        let d = (2 * k + 1) * (2 * k + 1);
        assert(d >= 1) by (nonlinear_arith)
            requires
                d == (2 * k + 1) * (2 * k + 1),
                k >= 0,
        ;
        vstd::arithmetic::div_mod::lemma_div_is_ordered(a as int, b as int, d as int);
    } else {
        assert(a * (TAIL as nat) <= b * (TAIL as nat)) by (nonlinear_arith)
            requires
                a <= b,
                TAIL > 0,
        ;
        vstd::arithmetic::div_mod::lemma_div_is_ordered(
            (a * (TAIL as nat)) as int,
            (b * (TAIL as nat)) as int,
            ONE as int,
        );
    }
}

/// The product of two numbers up to 1 is one, and is not smaller for larger numbers.
proof fn lemma_scaled_product(a: nat, b: nat, c: nat, d: nat)
    requires
        a <= c <= ONE,
        b <= d <= ONE,
    ensures
        a * b <= ONE * ONE,
        c * d <= ONE * ONE,
        scaled_product(a, b) <= scaled_product(c, d) <= ONE,
        scaled_product(0, b) == 0,
        scaled_product(ONE as nat, ONE as nat) == ONE,
{
    let (x, y, h) = ((a * b) as int, (c * d) as int, (ONE / 2) as int);
    assert(0 <= x <= y && y <= 0x1000_0000_0000_0000 * 0x1000_0000_0000_0000) by (nonlinear_arith)
        requires
            0 <= a <= c <= 0x1000_0000_0000_0000,
            0 <= b <= d <= 0x1000_0000_0000_0000,
            x == a * b,
            y == c * d,
    ;
    vstd::arithmetic::div_mod::lemma_div_is_ordered(x + h, y + h, ONE as int);
    vstd::arithmetic::div_mod::lemma_div_is_ordered(y + h, ONE * ONE + h, ONE as int);
    assert(0 * b == 0) by (nonlinear_arith);
}

/// The product lies between 0 and 1.
proof fn lemma_multiplied(k: nat, y: nat)
    requires
        y <= ONE,
    ensures
        multiplied(k, y) <= ONE,
    decreases k,
{
    if k > 0 {
        lemma_multiplied((k - 1) as nat, y);
        lemma_factor((k - 1) as nat, y);
        let (p, f) = (multiplied((k - 1) as nat, y), factor((k - 1) as nat, y));
        lemma_scaled_product(p, f, p, f);
    }
}

/// A larger argument gives a smaller product.
proof fn lemma_multiplied_falls(k: nat, a: nat, b: nat)
    requires
        a <= b <= ONE,
    ensures
        multiplied(k, b) <= multiplied(k, a),
    decreases k,
{
    if k > 0 {
        let j = (k - 1) as nat;
        lemma_multiplied_falls(j, a, b);
        lemma_factor_falls(j, a, b);
        lemma_multiplied(j, a);
        lemma_factor(j, a);
        lemma_scaled_product(multiplied(j, b), factor(j, b), multiplied(j, a), factor(j, a));
    }
}

/// The product for an argument of 0 is 1.
proof fn lemma_multiplied_at_zero(k: nat)
    ensures
        multiplied(k, 0) == ONE,
    decreases k,
{
    if k > 0 {
        lemma_multiplied_at_zero((k - 1) as nat);
        let j = (k - 1) as nat;
        assert(factor(j, 0) == ONE) by {
            let d = (2 * j + 1) * (2 * j + 1);
            assert(d >= 1) by (nonlinear_arith)
                requires
                    d == (2 * j + 1) * (2 * j + 1),
                    j >= 0,
            ;
            assert(0nat / d == 0) by (nonlinear_arith)
                requires
                    d >= 1,
            ;
        }
        lemma_scaled_product(0, 0, 0, 0);
    }
}

/// The product for an argument of 1 is 0.
proof fn lemma_multiplied_at_one(k: nat)
    requires
        k > 0,
    ensures
        multiplied(k, ONE as nat) == 0,
    decreases k,
{
    let y = ONE as nat;
    if k == 1 {
        assert(multiplied(0, y) == ONE);
        let j: nat = 0;
        assert((2 * j + 1) * (2 * j + 1) == 1) by (nonlinear_arith)
            requires
                j == 0,
        ;
        assert(factor(j, y) == 0);
        assert((ONE as nat) * 0 == 0);
    } else {
        lemma_multiplied_at_one((k - 1) as nat);
        lemma_factor((k - 1) as nat, y);
        lemma_scaled_product(0, factor((k - 1) as nat, y), 0, factor((k - 1) as nat, y));
    }
}

/// A larger argument has a larger square.
proof fn lemma_turn_squared(a: nat, b: nat)
    requires
        a <= b,
    ensures
        turn_squared(a) <= turn_squared(b) <= ONE,
{
    let (one, i) = (ONE as int, INVERSE as int);
    let (a, b) = (a as int, b as int);
    assert(a * a <= b * b) by (nonlinear_arith)
        requires
            0 <= a <= b,
    ;
    vstd::arithmetic::div_mod::lemma_div_is_ordered(a * a, b * b, one);
    let (x, y) = (a * a / one, b * b / one);
    assert(x * i <= y * i) by (nonlinear_arith)
        requires
            x <= y,
            i > 0,
    ;
    vstd::arithmetic::div_mod::lemma_div_is_ordered(x * i, y * i, one);
}

/// The cosine in units of 2^-60 lies between -1 and 1 and falls as the argument grows.
proof fn lemma_fixed_cosine(a: nat, b: nat)
    requires
        a <= b <= ONE,
    ensures
        ({
            let (p, q) = (
                doubled_angle(multiplied(FACTORS as nat, a)),
                doubled_angle(multiplied(FACTORS as nat, b)),
            );
            &&& -(ONE as int) <= q <= p <= ONE
            &&& a == 0 ==> p == ONE
            &&& b == ONE ==> q == -(ONE as int)
        }),
{
    let n = FACTORS as nat;
    lemma_multiplied(n, a);
    lemma_multiplied(n, b);
    lemma_multiplied_falls(n, a, b);
    let (x, y) = (multiplied(n, a), multiplied(n, b));
    lemma_scaled_product(y, y, x, x);
    lemma_scaled_product(0, 0, 0, 0);
    if a == 0 {
        lemma_multiplied_at_zero(n);
    }
    if b == ONE {
        lemma_multiplied_at_one(n);
    }
}

/// `x` is not negative and not above pi.
pub open spec fn in_half_turn(x: Single) -> bool {
    !x.negative() && x.place() <= PI
}

/// An argument up to pi takes up to 62 bits; pi itself comes to a whole half turn.
proof fn lemma_fixed(a: Single, b: Single)
    requires
        in_half_turn(b),
        a.place() <= b.place(),
    ensures
        fixed(a) <= fixed(b) <= 0x4000_0000_0000_0000,
        a.place() == 0 ==> fixed(a) == 0,
        b.place() == PI ==> turn_squared(fixed(b)) == ONE,
{
    single::lemma_magnitude_grows(a.place(), b.place());
    single::lemma_magnitude_grows(b.place(), PI as nat);
    single::lemma_magnitude_at(127, 0xc9_0fdb);
    let p = pow2(89) as int;
    vstd::arithmetic::power2::lemma_pow2_pos(89);
    vstd::arithmetic::power2::lemma_pow2_adds(38, 89);
    vstd::arithmetic::power2::lemma2_to64_rest();
    let top: int = 0x3243f6c000000000;
    assert(single::magnitude(PI as nat) == top * p);
    assert(p * top == top * p) by (nonlinear_arith);
    vstd::arithmetic::div_mod::lemma_div_multiples_vanish(top, p);
    vstd::arithmetic::div_mod::lemma_div_is_ordered(
        single::magnitude(a.place()) as int,
        single::magnitude(b.place()) as int,
        p,
    );
    vstd::arithmetic::div_mod::lemma_div_is_ordered(
        single::magnitude(b.place()) as int,
        top * p,
        p,
    );
    if a.place() == 0 {
        vstd::arithmetic::div_mod::lemma_basic_div(0, p);
    }
    if b.place() == PI {
        let t = 0x3243f6c000000000 as nat;
        assert(t * t / (ONE as nat) * (INVERSE as nat) / (ONE as nat) >= ONE);
    }
}

/// The place that a cosine is rounded to.
proof fn lemma_rounded_cosine(c: int)
    requires
        -(ONE as int) <= c <= ONE,
    ensures
        single::nearest((if c < 0 {
            -c
        } else {
            c
        }) as nat * pow2(89), 1) <= single::ONE,
        single::nearest(ONE as nat * pow2(89), 1) == single::ONE,
{
    let m = (if c < 0 {
        -c
    } else {
        c
    }) as nat;
    let p = pow2(89);
    vstd::arithmetic::power2::lemma2_to64_rest();
    vstd::arithmetic::power2::lemma_pow2_adds(60, 89);
    single_laws::lemma_one();
    single::lemma_nearest_exact(single::ONE as nat, 1);
    assert(pow2(149) * 1 == ONE * p);
    assert(m * p <= ONE * p) by (nonlinear_arith)
        requires
            0 <= m <= ONE,
    ;
    single::lemma_nearest_grows(m * p, 1, ONE as nat * p, 1);
}

/// The cosine lies between -1 and 1, is 1 at 0 and -1 at pi, and falls between.
pub proof fn law_cosine_falls(a: Single, b: Single)
    requires
        in_half_turn(a),
        in_half_turn(b),
        single::at_most(a, b),
    ensures
        single::at_most(cosine_of(b), cosine_of(a)),
        single::at_most(cosine_of(a), single::one()),
        single::at_most(single::opposite(single::one()), cosine_of(b)),
        a.place() == 0 ==> cosine_of(a) == single::one(),
        b.place() == PI ==> cosine_of(b) == single::opposite(single::one()),
{
    lemma_fixed(a, b);
    lemma_fixed(a, a);
    lemma_turn_squared(fixed(a), fixed(b));
    let (y, z) = (turn_squared(fixed(a)), turn_squared(fixed(b)));
    if a.place() == 0 {
        assert(0nat * 0 == 0);
        assert(y == 0);
    }
    lemma_fixed_cosine(y, z);
    let (c, d) = (fixed_cosine(a), fixed_cosine(b));
    lemma_rounded_cosine(c);
    lemma_rounded_cosine(d);
    let p = pow2(89);
    let (m, n) = (
        (if c < 0 {
            -c
        } else {
            c
        }) as nat,
        (if d < 0 {
            -d
        } else {
            d
        }) as nat,
    );
    single::lemma_make(true, single::nearest(m * p, 1));
    single::lemma_make(true, single::nearest(n * p, 1));
    single::lemma_make(false, single::nearest(m * p, 1));
    single::lemma_make(false, single::nearest(n * p, 1));
    single::lemma_make(true, single::ONE as nat);
    if m <= n {
        assert(m * p <= n * p) by (nonlinear_arith)
            requires
                m <= n,
        ;
        single::lemma_nearest_grows(m * p, 1, n * p, 1);
    } else {
        assert(n * p <= m * p) by (nonlinear_arith)
            requires
                n <= m,
        ;
        single::lemma_nearest_grows(n * p, 1, m * p, 1);
    }
}

/// `x` in units of 2^-60.
fn to_fixed(x: Single) -> (f: u128)
    requires
        in_half_turn(x),
    ensures
        f == fixed(x),
        f <= 0x4000_0000_0000_0000,
{
    let (m, e) = single::split(x.at());
    proof {
        lemma_fixed(x, x);
        vstd::arithmetic::power2::lemma_pow2_pos(89);
        vstd::arithmetic::power2::lemma2_to64();
        vstd::arithmetic::power2::lemma2_to64_rest();
    }
    if e >= 89 {
        let step: u128 = single::power(e - 89);
        proof {
            let p = pow2(89) as int;
            vstd::arithmetic::power2::lemma_pow2_adds((e - 89) as nat, 89);
            assert(m * (step * p) == p * (m * step)) by (nonlinear_arith);
            vstd::arithmetic::div_mod::lemma_div_multiples_vanish(m * step, p);
            assert(fixed(x) == m * step);
        }
        m * step
    } else {
        let k: u32 = 89 - e;
        proof {
            single::lemma_shifted_div(m as int, e as nat, k as nat);
        }
        if k >= 24 {
            proof {
                if k > 24 {
                    vstd::arithmetic::power2::lemma_pow2_strictly_increases(24, k as nat);
                }
                vstd::arithmetic::div_mod::lemma_basic_div(m as int, pow2(k as nat) as int);
            }
            0
        } else {
            m / single::power(k)
        }
    }
}

/// The cosine of `x`, which lies between 0 and pi.
pub fn cosine(x: Single) -> (r: Single)
    requires
        in_half_turn(x),
    ensures
        r == cosine_of(x),
{
    let f: u128 = to_fixed(x);
    proof {
        lemma_turn_squared(fixed(x), fixed(x));
        assert(f * f <= 0x4000_0000_0000_0000 * 0x4000_0000_0000_0000) by (nonlinear_arith)
            requires
                0 <= f <= 0x4000_0000_0000_0000,
        ;
    }
    let square: u128 = f * f / ONE;
    proof {
        assert(square * INVERSE <= 0x1_0000_0000_0000_0000 * INVERSE) by (nonlinear_arith)
            requires
                0 <= square <= 0x1_0000_0000_0000_0000,
                INVERSE > 0,
        ;
    }
    let z: u128 = square * INVERSE / ONE;
    let y: u128 = if z < ONE {
        z
    } else {
        ONE
    };
    let mut p: u128 = ONE;
    for k in 0..FACTORS
        invariant
            y <= ONE,
            p <= ONE,
            p == multiplied(k as nat, y as nat),
    {
        proof {
            lemma_factor(k as nat, y as nat);
            lemma_multiplied(k as nat + 1, y as nat);
        }
        let taken: u128 = if k < EXACT_FACTORS {
            let d: u128 = (2 * k + 1) as u128;
            proof {
                assert(0 < d * d <= 0x4_0000) by (nonlinear_arith)
                    requires
                        1 <= d <= 511,
                ;
            }
            y / (d * d)
        } else {
            proof {
                assert(y * TAIL <= ONE * TAIL) by (nonlinear_arith)
                    requires
                        y <= ONE,
                        TAIL > 0,
                ;
            }
            y * TAIL / ONE
        };
        let f: u128 = ONE - taken;
        proof {
            assert(f == factor(k as nat, y as nat));
            lemma_scaled_product(p as nat, f as nat, p as nat, f as nat);
        }
        p = (p * f + ONE / 2) / ONE;
    }
    proof {
        lemma_scaled_product(p as nat, p as nat, p as nat, p as nat);
        single::lemma_make(true, 0);
    }
    let twice: u128 = 2 * ((p * p + ONE / 2) / ONE);
    if twice < ONE {
        let r = Single::scaled(ONE - twice, 89);
        proof {
            let c = fixed_cosine(x);
            lemma_rounded_cosine(c);
            single::lemma_make(false, single::nearest((-c) as nat * pow2(89), 1));
        }
        Single { bits: r.bits + single::SIGN }
    } else {
        Single::scaled(twice - ONE, 89)
    }
}

} // verus!
