//! Single-precision numbers: 32 bits, of which one is the sign, 8 are the exponent and 23 the fraction.
//!
//! Scores, utilities and budgets are such numbers. Every operation gives the number nearest to the exact
//! result; of two that are as near, the one whose last bit is 0.

use vstd::prelude::*;
use vstd::arithmetic::power2::{lemma_pow2_adds, lemma_pow2_pos, lemma_pow2_unfold, pow2};

verus! {

/// The bits of 1.
pub const ONE: u32 = 0x3f80_0000;

/// The bits of one half.
pub const HALF: u32 = 0x3f00_0000;

/// The bits of infinity. Those of a larger place stand for no number.
pub const INFINITY: u32 = 0x7f80_0000;

/// The bit that makes a number negative.
pub const SIGN: u32 = 0x8000_0000;

/// A single-precision number, by its bits. `==` compares the bits.
#[derive(Debug, Clone, Copy, PartialEq, Eq, Structural)]
pub struct Single {
    pub bits: u32,
}

/// The magnitude at the place `b` among all magnitudes, in units of 2^-149, which is the smallest above
/// 0. Up to 2^24 every number is there; then the distance doubles with every 2^23 places.
#[verifier::opaque]
pub open spec fn magnitude(b: nat) -> nat {
    if b < 0x80_0000 {
        b
    } else {
        (0x80_0000 + b % 0x80_0000) * pow2((b / 0x80_0000 - 1) as nat)
    }
}

impl Single {
    /// The number has a minus sign.
    pub open spec fn negative(self) -> bool {
        self.bits >= SIGN
    }

    /// The place of the number among all magnitudes.
    pub open spec fn place(self) -> nat {
        (self.bits % SIGN) as nat
    }

    /// The bits stand for no number.
    pub open spec fn is_nan(self) -> bool {
        self.place() > INFINITY
    }

    /// The number is infinity, or its negative.
    pub open spec fn is_infinite(self) -> bool {
        self.place() == INFINITY
    }

    /// The number is one, and it is not infinite.
    pub open spec fn is_finite(self) -> bool {
        self.place() < INFINITY
    }

    /// The place of the number among all numbers. The two zeros stand at the same place.
    pub open spec fn order(self) -> int {
        if self.negative() {
            -(self.place() as int)
        } else {
            self.place() as int
        }
    }

    /// The value of a finite number, in units of 2^-149.
    pub open spec fn value(self) -> int {
        if self.negative() {
            -(magnitude(self.place()) as int)
        } else {
            magnitude(self.place()) as int
        }
    }
}

/// The number of a sign and a place.
pub open spec fn make(negative: bool, place: nat) -> Single {
    Single {
        bits: if negative {
            (SIGN + place) as u32
        } else {
            place as u32
        },
    }
}

/// What stands for no number.
pub open spec fn nan() -> Single {
    Single { bits: 0x7fc0_0000 }
}

/// 0.
pub open spec fn zero() -> Single {
    Single { bits: 0 }
}

/// 1.
pub open spec fn one() -> Single {
    Single { bits: ONE }
}

/// `a` is less than `b`.
pub open spec fn less(a: Single, b: Single) -> bool {
    !a.is_nan() && !b.is_nan() && a.order() < b.order()
}

/// `a` is less than `b` or equal to it.
pub open spec fn at_most(a: Single, b: Single) -> bool {
    !a.is_nan() && !b.is_nan() && a.order() <= b.order()
}

/// The place of the largest magnitude that is not above `n / d`.
pub open spec fn below(n: nat, d: nat) -> nat {
    choose|b: nat| #[trigger] magnitude(b) * d <= n < magnitude(b + 1) * d
}

/// The place of the magnitude nearest to `n / d`; of two that are as near, the even one. What lies
/// beyond all magnitudes is infinite.
#[verifier::opaque]
pub open spec fn nearest(n: nat, d: nat) -> nat {
    let b = below(n, d);
    let middle = (magnitude(b) + magnitude(b + 1)) * d;
    let r = if 2 * n > middle || (2 * n == middle && b % 2 == 1) {
        b + 1
    } else {
        b
    };
    if r > INFINITY {
        INFINITY as nat
    } else {
        r
    }
}

/// `a + b`.
pub open spec fn sum(a: Single, b: Single) -> Single {
    if a.is_nan() || b.is_nan() {
        nan()
    } else if a.is_infinite() {
        if b.is_infinite() && a.negative() != b.negative() {
            nan()
        } else {
            a
        }
    } else if b.is_infinite() {
        b
    } else {
        let n = a.value() + b.value();
        if n == 0 {
            make(a.negative() && b.negative(), 0)
        } else if n < 0 {
            make(true, nearest((-n) as nat, 1))
        } else {
            make(false, nearest(n as nat, 1))
        }
    }
}

/// `-a`.
pub open spec fn opposite(a: Single) -> Single {
    make(!a.negative(), a.place())
}

/// `a - b`.
pub open spec fn difference(a: Single, b: Single) -> Single {
    sum(a, opposite(b))
}

/// `a * b`.
pub open spec fn product(a: Single, b: Single) -> Single {
    let negative = a.negative() != b.negative();
    if a.is_nan() || b.is_nan() {
        nan()
    } else if a.is_infinite() || b.is_infinite() {
        if a.place() == 0 || b.place() == 0 {
            nan()
        } else {
            make(negative, INFINITY as nat)
        }
    } else {
        make(negative, nearest(magnitude(a.place()) * magnitude(b.place()), pow2(149)))
    }
}

/// `a / b`.
pub open spec fn quotient(a: Single, b: Single) -> Single {
    let negative = a.negative() != b.negative();
    if a.is_nan() || b.is_nan() {
        nan()
    } else if a.is_infinite() {
        if b.is_infinite() {
            nan()
        } else {
            make(negative, INFINITY as nat)
        }
    } else if b.is_infinite() {
        make(negative, 0)
    } else if b.place() == 0 {
        if a.place() == 0 {
            nan()
        } else {
            make(negative, INFINITY as nat)
        }
    } else {
        make(negative, nearest(magnitude(a.place()) * pow2(149), magnitude(b.place())))
    }
}

/// The whole number `n`.
pub open spec fn counted(n: nat) -> Single {
    make(false, nearest(n * pow2(149), 1))
}

/// A finite number without its sign and without what follows its point.
pub open spec fn whole_part(a: Single) -> nat {
    magnitude(a.place()) / pow2(149)
}

/// The whole number nearest to a finite number that is not negative; a half goes up.
pub open spec fn rounded_whole(a: Single) -> nat {
    (2 * magnitude(a.place()) + pow2(149)) / (2 * pow2(149))
}

/// The least whole number that is not below a finite number that is not negative.
pub open spec fn raised_whole(a: Single) -> nat {
    ((magnitude(a.place()) + pow2(149) - 1) / (pow2(149) as int)) as nat
}

/// The square root of `n` without what follows its point.
pub open spec fn floor_root(n: nat) -> nat {
    choose|r: nat| #[trigger] (r * r) <= n < (r + 1) * (r + 1)
}

/// The square root of a whole number, which is found with 32 places behind its point, and one more that
/// tells whether anything lies beyond them.
pub open spec fn square_root(c: nat) -> Single {
    let s = c * pow2(64);
    let r = floor_root(s);
    let rest: nat = if r * r < s {
        1
    } else {
        0
    };
    make(false, nearest((2 * r + rest) * pow2(116), 1))
}

// ---------------------------------------------------------------------------------------------
// Places and magnitudes
// ---------------------------------------------------------------------------------------------

/// The magnitude at the place that an exponent and a significand make.
pub proof fn lemma_magnitude_at(x: nat, m: nat)
    requires
        m <= 0x100_0000,
        x > 0 ==> m >= 0x80_0000,
    ensures
        magnitude(x * 0x80_0000 + m) == m * pow2(x),
{
    reveal(magnitude);
    let b = x * 0x80_0000 + m;
    vstd::arithmetic::power2::lemma2_to64();
    if m < 0x80_0000 {
        assert(b == m);
        assert(m * pow2(0) == m);
    } else if m < 0x100_0000 {
        assert(b / 0x80_0000 == x + 1);
        assert(b % 0x80_0000 == m - 0x80_0000);
    } else {
        assert(b / 0x80_0000 == x + 2);
        assert(b % 0x80_0000 == 0);
        lemma_pow2_unfold(x + 1);
        assert(0x80_0000 * pow2(x + 1) == m * pow2(x)) by (nonlinear_arith)
            requires
                pow2(x + 1) == 2 * pow2(x),
                m == 0x100_0000,
        ;
    }
}

/// The exponent and the significand of a place.
pub proof fn lemma_parts(b: nat) -> (r: (nat, nat))
    ensures
        b == r.0 * 0x80_0000 + r.1,
        r.1 < 0x100_0000,
        r.0 > 0 ==> r.1 >= 0x80_0000,
        magnitude(b) == r.1 * pow2(r.0),
        magnitude(b + 1) == magnitude(b) + pow2(r.0),
        magnitude(b) < magnitude(b + 1),
{
    let x: nat = if b < 0x80_0000 {
        0
    } else {
        (b / 0x80_0000 - 1) as nat
    };
    let m = (b - x * 0x80_0000) as nat;
    lemma_magnitude_at(x, m);
    lemma_magnitude_at(x, m + 1);
    lemma_pow2_pos(x);
    assert((m + 1) * pow2(x) == m * pow2(x) + pow2(x)) by (nonlinear_arith);
    (x, m)
}

/// A later place has a larger magnitude.
pub proof fn lemma_magnitude_grows(a: nat, b: nat)
    requires
        a <= b,
    ensures
        magnitude(a) <= magnitude(b),
        a < b ==> magnitude(a) < magnitude(b),
        b <= magnitude(b),
        magnitude(0) == 0,
    decreases b,
{
    reveal(magnitude);
    if b == 0 {
    } else {
        lemma_parts((b - 1) as nat);
        if a < b {
            lemma_magnitude_grows(a, (b - 1) as nat);
        } else {
            lemma_magnitude_grows((b - 1) as nat, (b - 1) as nat);
        }
    }
}

/// There is one largest magnitude that is not above `n / d`.
pub proof fn lemma_below_is(n: nat, d: nat, b: nat)
    requires
        d > 0,
        magnitude(b) * d <= n < magnitude(b + 1) * d,
    ensures
        below(n, d) == b,
{
    let c = below(n, d);
    assert(magnitude(c) * d <= n < magnitude(c + 1) * d);
    if c < b {
        lemma_magnitude_grows(c + 1, b);
        assert(magnitude(c + 1) * d <= magnitude(b) * d) by (nonlinear_arith)
            requires
                magnitude(c + 1) <= magnitude(b),
        ;
    } else if b < c {
        lemma_magnitude_grows(b + 1, c);
        assert(magnitude(b + 1) * d <= magnitude(c) * d) by (nonlinear_arith)
            requires
                magnitude(b + 1) <= magnitude(c),
        ;
    }
}

/// Going down from a place whose magnitude is above `n / d`, one comes to the largest that is not.
proof fn lemma_below_from(n: nat, d: nat, top: nat) -> (b: nat)
    requires
        n < magnitude(top) * d,
    ensures
        magnitude(b) * d <= n < magnitude(b + 1) * d,
    decreases top,
{
    if top == 0 {
        lemma_magnitude_grows(0, 0);
        assert(magnitude(0) * d == 0) by (nonlinear_arith)
            requires
                magnitude(0) == 0,
        ;
        0
    } else {
        let c = (top - 1) as nat;
        if magnitude(c) * d <= n {
            c
        } else {
            lemma_below_from(n, d, c)
        }
    }
}

/// The magnitude below `n / d` is not above it, and the next one is.
pub proof fn lemma_below(n: nat, d: nat)
    requires
        d > 0,
    ensures
        magnitude(below(n, d)) * d <= n < magnitude(below(n, d) + 1) * d,
{
    lemma_magnitude_grows(0, n + 1);
    assert(n < magnitude(n + 1) * d) by (nonlinear_arith)
        requires
            magnitude(n + 1) >= n + 1,
            d >= 1,
    ;
    let b = lemma_below_from(n, d, n + 1);
    assert(magnitude(b) * d <= n < magnitude(b + 1) * d);
}

/// A larger number has no smaller nearest magnitude.
pub proof fn lemma_nearest_grows(n: nat, d: nat, m: nat, e: nat)
    requires
        d > 0,
        e > 0,
        n * e <= m * d,
    ensures
        nearest(n, d) <= nearest(m, e),
{
    reveal(nearest);
    lemma_below(n, d);
    lemma_below(m, e);
    let (b, c) = (below(n, d), below(m, e));
    if c < b {
        lemma_magnitude_grows(c + 1, b);
        let (x, y) = (magnitude(c + 1), magnitude(b));
        assert(m * d < n * e) by (nonlinear_arith)
            requires
                x <= y,
                y * d <= n,
                m < x * e,
                d > 0,
                e > 0,
        ;
    } else if b == c {
        let t = magnitude(b) + magnitude(b + 1);
        assert(2 * n > t * d ==> 2 * m > t * e) by (nonlinear_arith)
            requires
                n * e <= m * d,
                d > 0,
                e > 0,
        ;
        assert(2 * n == t * d ==> 2 * m >= t * e) by (nonlinear_arith)
            requires
                n * e <= m * d,
                d > 0,
                e > 0,
        ;
    }
}

/// A magnitude is its own nearest one.
pub proof fn lemma_nearest_exact(b: nat, d: nat)
    requires
        d > 0,
        b <= INFINITY,
    ensures
        nearest(magnitude(b) * d, d) == b,
{
    reveal(nearest);
    lemma_parts(b);
    let (x, y) = (magnitude(b), magnitude(b + 1));
    assert(x * d < y * d && 2 * (x * d) < (x + y) * d) by (nonlinear_arith)
        requires
            x < y,
            d > 0,
    ;
    lemma_below_is(x * d, d, b);
}

/// What is not 0, and not below the smallest magnitude, has a nearest magnitude that is not 0.
pub proof fn lemma_nearest_is_some(n: nat, d: nat)
    requires
        n >= d,
        d > 0,
    ensures
        nearest(n, d) >= 1,
{
    lemma_nearest_exact(1, d);
    assert(magnitude(1) == 1) by {
        reveal(magnitude);
    }
    assert(1 * d == d);
    assert(d * d <= n * d) by (nonlinear_arith)
        requires
            d <= n,
            d > 0,
    ;
    lemma_nearest_grows(d, d, n, d);
}

/// What a sign and a place make has that sign and that place.
pub proof fn lemma_make(negative: bool, place: nat)
    requires
        place < SIGN,
    ensures
        make(negative, place).negative() == negative,
        make(negative, place).place() == place,
{
    if negative {
        assert((SIGN + place) as u32 % SIGN == place);
    } else {
        assert(place as u32 % SIGN == place);
    }
}

/// A number is made of its sign and its place.
pub proof fn lemma_made(a: Single)
    ensures
        a == make(a.negative(), a.place()),
        a.place() < SIGN,
{
}

/// Where two finite numbers stand goes with their values.
pub proof fn lemma_order(a: Single, b: Single)
    ensures
        a.order() <= b.order() <==> a.value() <= b.value(),
{
    let (x, y) = (a.place(), b.place());
    lemma_magnitude_grows(0, x);
    lemma_magnitude_grows(0, y);
    if x <= y {
        lemma_magnitude_grows(x, y);
    } else {
        lemma_magnitude_grows(y, x);
    }
}

/// No place goes beyond infinity.
pub proof fn lemma_nearest_ends(n: nat, d: nat)
    ensures
        nearest(n, d) <= INFINITY,
{
    reveal(nearest);
}

/// A factor on both sides of a division does not matter.
pub proof fn lemma_common_factor(a: int, b: int, u: int)
    requires
        u > 0,
        b > 0,
    ensures
        (a * u) / (u * b) == a / b,
{
    vstd::arithmetic::div_mod::lemma_div_multiples_vanish(a, u);
    assert(a * u == u * a) by (nonlinear_arith);
    if a >= 0 {
        assert(u * a >= 0) by (nonlinear_arith)
            requires
                u > 0,
                a >= 0,
        ;
        vstd::arithmetic::div_mod::lemma_div_denominator(u * a, u, b);
    } else {
        vstd::arithmetic::div_mod::lemma_fundamental_div_mod(a, b);
        let (q, r) = (a / b, a % b);
        assert(u * a == (u * b) * q + u * r && 0 <= u * r < u * b) by (nonlinear_arith)
            requires
                a == b * q + r,
                0 <= r < b,
                u > 0,
        ;
        vstd::arithmetic::div_mod::lemma_fundamental_div_mod_converse(u * a, u * b, q, u * r);
    }
}

/// Dividing by a power of 2 what is a multiple of a smaller one.
pub proof fn lemma_shifted_div(m: int, x: nat, k: nat)
    requires
        m >= 0,
    ensures
        (m * pow2(x)) / (pow2(x + k) as int) == m / (pow2(k) as int),
{
    lemma_pow2_adds(x, k);
    lemma_pow2_pos(x);
    lemma_pow2_pos(k);
    lemma_common_factor(m, pow2(k) as int, pow2(x) as int);
}

/// There is one square root without what follows its point.
proof fn lemma_floor_root_is(n: nat, r: nat)
    requires
        r * r <= n < (r + 1) * (r + 1),
    ensures
        floor_root(n) == r,
{
    let q = floor_root(n);
    assert(q * q <= n < (q + 1) * (q + 1));
    assert(q == r) by (nonlinear_arith)
        requires
            q * q <= n < (q + 1) * (q + 1),
            r * r <= n < (r + 1) * (r + 1),
            q >= 0,
            r >= 0,
    ;
}

// ---------------------------------------------------------------------------------------------
// Computing
// ---------------------------------------------------------------------------------------------

/// The powers of 2 at the ends of wide numbers.
proof fn lemma_wide_powers()
    ensures
        pow2(112) == 0x1_0000_0000_0000_0000_0000_0000_0000,
        pow2(127) == 0x8000_0000_0000_0000_0000_0000_0000_0000,
{
    vstd::arithmetic::power2::lemma2_to64();
    vstd::arithmetic::power2::lemma2_to64_rest();
    lemma_pow2_adds(64, 48);
    lemma_pow2_adds(64, 63);
}

/// 2 to the power of `k`.
pub fn power(k: u32) -> (r: u128)
    requires
        k <= 127,
    ensures
        r == pow2(k as nat),
        r >= 1,
{
    let mut r: u128 = 1;
    proof {
        vstd::arithmetic::power2::lemma2_to64();
    }
    for i in 0..k
        invariant
            k <= 127,
            r == pow2(i as nat),
            r >= 1,
    {
        proof {
            lemma_pow2_unfold(i as nat + 1);
            if i < 126 {
                vstd::arithmetic::power2::lemma_pow2_strictly_increases(i as nat + 1, 127);
            }
            lemma_wide_powers();
        }
        r = 2 * r;
    }
    r
}

/// How far the exponents of `placed` are moved up.
pub open spec fn lift() -> nat {
    512
}

/// `n / d`, twice, lies at `w` units of 2^`x`, or between them and the next, as `rest` says.
spec fn placed(w: int, x: int, rest: bool, n: nat, d: nat) -> bool {
    let p = pow2((x + lift()) as nat) * d;
    let t = 2 * n * pow2(lift());
    &&& w * p <= t < (w + 1) * p
    &&& rest == (w * p < t)
}

/// Half as many units of double the size.
proof fn lemma_halve(m: int, half: bool, x: int, rest: bool, n: nat, d: nat)
    requires
        m >= 0,
        x >= -(lift() as int),
        placed(2 * m + (half as int), x, rest, n, d),
    ensures
        placed(m, x + 1, rest || half, n, d),
{
    let w = 2 * m + (half as int);
    let k = (x + lift()) as nat;
    lemma_pow2_unfold(k + 1);
    let p = pow2(k) * d;
    let q = pow2(k + 1) * d;
    let t = (2 * n * pow2(lift())) as int;
    assert(q == 2 * p) by (nonlinear_arith)
        requires
            p == pow2(k) * d,
            q == pow2(k + 1) * d,
            pow2(k + 1) == 2 * pow2(k),
    ;
    assert(m * q == 2 * m * p && (m + 1) * q == 2 * m * p + 2 * p && w * p == 2 * m * p + (if half {
        p as int
    } else {
        0
    }) && (w + 1) * p == w * p + p) by (nonlinear_arith)
        requires
            q == 2 * p,
            w == 2 * m + (if half {
                1int
            } else {
                0
            }),
    ;
}

/// Twice as many units of half the size.
proof fn lemma_double(w: int, x: int, n: nat, d: nat)
    requires
        x > -(lift() as int),
        placed(w, x, false, n, d),
    ensures
        placed(2 * w, x - 1, false, n, d),
{
    let k = (x + lift() - 1) as nat;
    lemma_pow2_unfold(k + 1);
    let p = pow2(k + 1) * d;
    let q = pow2(k) * d;
    assert(p == 2 * q && 2 * w * q == w * p && (2 * w + 1) * q == 2 * w * q + q && (w + 1) * p == w * p
        + p) by (nonlinear_arith)
        requires
            p == pow2(k + 1) * d,
            q == pow2(k) * d,
            pow2(k + 1) == 2 * pow2(k),
    ;
}

/// What holds of numbers that are all `k` times as large.
proof fn lemma_lowered(w: int, q: int, n: int, k: int)
    requires
        k > 0,
    ensures
        w * (q * k) <= 2 * n * k <==> w * q <= 2 * n,
        w * (q * k) < 2 * n * k <==> w * q < 2 * n,
        2 * n * k < (w + 1) * (q * k) <==> 2 * n < (w + 1) * q,
{
    let (a, b, c) = (w * q, (w + 1) * q, 2 * n);
    assert(w * (q * k) == a * k && (w + 1) * (q * k) == b * k) by (nonlinear_arith)
        requires
            a == w * q,
            b == (w + 1) * q,
    ;
    assert((a * k <= c * k <==> a <= c) && (a * k < c * k <==> a < c) && (c * k < b * k <==> c < b))
        by (nonlinear_arith)
        requires
            k > 0,
    ;
}

/// `m` units, `m` and a half, and `m + 1`, of a power `p` by `d`.
proof fn lemma_units(m: int, half: bool, p: int, d: int)
    requires
        p >= 0,
        d >= 0,
    ensures
        ({
            let q = p * d;
            let w = 2 * m + (half as int);
            &&& q >= 0
            &&& m * p * d == m * q
            &&& (m + 1) * p * d == m * q + q
            &&& (m * p + (m + 1) * p) * d == 2 * (m * q) + q
            &&& w * q == 2 * (m * q) + (if half {
                q
            } else {
                0
            })
            &&& (w + 1) * q == w * q + q
        }),
{
    let q = p * d;
    let w = 2 * m + (half as int);
    assert(q >= 0 && m * p * d == m * q && (m + 1) * p * d == m * q + q && (m * p + (m + 1) * p) * d
        == 2 * (m * q) + q && (w + 1) * q == w * q + q) by (nonlinear_arith)
        requires
            q == p * d,
            p >= 0,
            d >= 0,
    ;
    if half {
        assert((2 * m + 1) * q == 2 * (m * q) + q) by (nonlinear_arith);
    } else {
        assert((2 * m) * q == 2 * (m * q)) by (nonlinear_arith);
    }
}

/// Where `n / d` lies at a place, or between it and the next one, is what the nearest place goes by.
proof fn lemma_nearest_placed(m: nat, half: bool, x: nat, rest: bool, n: nat, d: nat)
    requires
        d > 0,
        m < 0x100_0000,
        x > 0 ==> m >= 0x80_0000,
        placed(2 * m + (half as int), x as int, rest, n, d),
    ensures
        ({
            let b = x * 0x80_0000 + m;
            let r = if half && (rest || m % 2 == 1) {
                b + 1
            } else {
                b
            };
            nearest(n, d) == (if r > INFINITY {
                INFINITY as nat
            } else {
                r
            })
        }),
{
    let b = x * 0x80_0000 + m;
    let w = 2 * m + (half as int);
    lemma_magnitude_at(x, m);
    lemma_magnitude_at(x, m + 1);
    lemma_pow2_adds(x, lift());
    lemma_pow2_pos(lift());
    let (q, k) = ((pow2(x) * d) as int, pow2(lift()) as int);
    assert(pow2(x) * k * d == q * k) by (nonlinear_arith)
        requires
            q == pow2(x) * d,
    ;
    lemma_lowered(w, q, n as int, k);
    lemma_units(m as int, half, pow2(x) as int, d as int);
    reveal(nearest);
    lemma_below_is(n, d, b);
    assert(b % 2 == m % 2);
}

/// The place nearest to `n / d`, which, twice, lies at `start` units of 2^`from` or, with `beyond`,
/// between them and the next.
fn encode(start: u128, from: i32, beyond: bool, Ghost(n): Ghost<nat>, Ghost(d): Ghost<nat>) -> (r: u32)
    requires
        d > 0,
        start < 0x1_0000_0000_0000_0000_0000_0000_0000,
        -400 <= from <= 400,
        beyond ==> start >= 0x100_0000,
        placed(start as int, from as int, beyond, n, d),
    ensures
        r == nearest(n, d),
        r <= INFINITY,
{
    let mut w: u128 = start;
    let mut x: i32 = from;
    while x > 0 && w < 0x100_0000
        invariant
            -400 <= x <= 400,
            w < 0x1_0000_0000_0000_0000_0000_0000_0000,
            beyond ==> w >= 0x100_0000,
            placed(w as int, x as int, beyond, n, d),
        decreases x,
    {
        proof {
            lemma_double(w as int, x as int, n, d);
        }
        w = 2 * w;
        x = x - 1;
    }
    let mut m: u128 = w / 2;
    let mut half = w % 2 == 1;
    let mut rest = beyond;
    while x < 0
        invariant
            -400 <= x <= 400,
            x > 0 ==> m >= 0x80_0000,
            m < 0x1_0000_0000_0000_0000_0000_0000_0000,
            placed(2 * m + (half as int), x as int, rest, n, d),
        decreases -x,
    {
        proof {
            lemma_halve(m as int, half, x as int, rest, n, d);
        }
        rest = rest || half;
        half = m % 2 == 1;
        m = m / 2;
        x = x + 1;
    }
    let ghost mut k: nat = 112;
    proof {
        lemma_wide_powers();
    }
    while m >= 0x100_0000
        invariant
            0 <= x <= 400 + 112 - k,
            24 <= k <= 112,
            x > 0 ==> m >= 0x80_0000,
            m < pow2(k),
            placed(2 * m + (half as int), x as int, rest, n, d),
        decreases m,
    {
        proof {
            vstd::arithmetic::power2::lemma2_to64();
            lemma_pow2_unfold(k);
            lemma_halve(m as int, half, x as int, rest, n, d);
            k = (k - 1) as nat;
        }
        rest = rest || half;
        half = m % 2 == 1;
        m = m / 2;
        x = x + 1;
    }
    proof {
        lemma_nearest_placed(m as nat, half, x as nat, rest, n, d);
    }
    let at: u64 = x as u64 * 0x80_0000 + m as u64;
    let near: u64 = if half && (rest || m % 2 == 1) {
        at + 1
    } else {
        at
    };
    if near > INFINITY as u64 {
        INFINITY
    } else {
        near as u32
    }
}

/// `n / d` lies at `w` units of 2^`x`, or between them and the next, as `rest` says.
proof fn lemma_place(w: int, x: int, rest: bool, n: nat, d: nat)
    requires
        x + lift() >= 0,
        ({
            let p = pow2((x + lift()) as nat) * d;
            &&& w * p <= n * pow2(lift()) < (w + 1) * p
            &&& rest == (w * p < n * pow2(lift()))
        }),
    ensures
        placed(w, x + 1, rest, n, d),
{
    let k = (x + lift()) as nat;
    lemma_pow2_unfold(k + 1);
    let (p, q) = (pow2(k) * d, pow2(k + 1) * d);
    let t = n * pow2(lift());
    assert(w * q == 2 * (w * p) && (w + 1) * q == 2 * ((w + 1) * p) && 2 * n * pow2(lift()) == 2 * t)
        by (nonlinear_arith)
        requires
            p == pow2(k) * d,
            q == pow2(k + 1) * d,
            pow2(k + 1) == 2 * pow2(k),
            t == n * pow2(lift()),
    ;
}

/// `n` lies at `w` units of 2^`x`, or between them and the next, as `rest` says.
proof fn lemma_place_whole(w: int, x: nat, rest: bool, n: nat)
    requires
        w * pow2(x) <= n < (w + 1) * pow2(x),
        rest == (w * pow2(x) < n),
    ensures
        placed(w, x as int + 1, rest, n, 1),
{
    lemma_pow2_adds(x, lift());
    lemma_pow2_pos(lift());
    let (q, k) = (pow2(x) as int, pow2(lift()) as int);
    assert(pow2(x + lift()) * 1 == q * k);
    let (a, b) = (w * q, (w + 1) * q);
    assert(w * (q * k) == a * k && (w + 1) * (q * k) == b * k) by (nonlinear_arith)
        requires
            a == w * q,
            b == (w + 1) * q,
    ;
    assert(a * k <= n * k && n * k < b * k && (a * k < n * k <==> a < n)) by (nonlinear_arith)
        requires
            a <= n < b,
            k > 0,
    ;
    lemma_place(w, x as int, rest, n, 1);
}

/// The significand and the exponent of a place below infinity.
pub fn split(place: u32) -> (r: (u128, u32))
    requires
        place < INFINITY,
    ensures
        magnitude(place as nat) == r.0 * pow2(r.1 as nat),
        r.0 < 0x100_0000,
        r.1 <= 253,
        r.1 > 0 ==> r.0 >= 0x80_0000,
        place == r.1 * 0x80_0000 + r.0,
{
    let (m, x): (u128, u32) = if place < 0x80_0000 {
        (place as u128, 0)
    } else {
        ((0x80_0000 + place % 0x80_0000) as u128, place / 0x80_0000 - 1)
    };
    proof {
        lemma_magnitude_at(x as nat, m as nat);
    }
    (m, x)
}

/// The sum of two magnitudes, of which the first is not the smaller one, or their difference.
fn combine(p: u32, q: u32, same: bool) -> (r: u32)
    requires
        q <= p < INFINITY,
    ensures
        same ==> r == nearest(magnitude(p as nat) + magnitude(q as nat), 1),
        !same ==> r == nearest((magnitude(p as nat) - magnitude(q as nat)) as nat, 1),
        r <= INFINITY,
{
    let (m, x) = split(p);
    let (l, y) = split(q);
    proof {
        lemma_magnitude_grows(q as nat, p as nat);
        lemma_wide_powers();
    }
    let ghost n: nat = if same {
        magnitude(p as nat) + magnitude(q as nat)
    } else {
        (magnitude(p as nat) - magnitude(q as nat)) as nat
    };
    let gap: u32 = x - y;
    if gap <= 64 {
        let step: u128 = power(gap);
        proof {
            lemma_pow2_adds(gap as nat, y as nat);
            if gap < 64 {
                vstd::arithmetic::power2::lemma_pow2_strictly_increases(gap as nat, 64);
            }
            vstd::arithmetic::power2::lemma2_to64();
            assert(m * step <= 0x100_0000 * 0x1_0000_0000_0000_0000) by (nonlinear_arith)
                requires
                    0 <= m <= 0x100_0000,
                    0 <= step <= 0x1_0000_0000_0000_0000,
            ;
        }
        let big: u128 = m * step;
        proof {
            let u = pow2(y as nat) as int;
            lemma_pow2_pos(y as nat);
            assert(m * (step * u) == big * u && (big + l) * u == big * u + l * u && (big - l) * u == big * u
                - l * u && (big + l + 1) * u == (big + l) * u + u && (big - l + 1) * u == (big - l) * u + u)
                by (nonlinear_arith)
                requires
                    big == m * step,
            ;
            assert(big >= l) by (nonlinear_arith)
                requires
                    big * u >= l * u,
                    u > 0,
            ;
        }
        let w: u128 = if same {
            big + l
        } else {
            big - l
        };
        proof {
            lemma_place_whole(w as int, y as nat, false, n);
        }
        encode(w, y as i32 + 1, false, Ghost(n), Ghost(1))
    } else {
        let big: u128 = m * 0x100_0000_0000;
        let ghost u = pow2((x - 40) as nat);
        proof {
            vstd::arithmetic::power2::lemma2_to64_rest();
            lemma_pow2_adds(40, (x - 40) as nat);
            assert(m * (0x100_0000_0000 * u) == big * u) by (nonlinear_arith)
                requires
                    big == m * 0x100_0000_0000,
            ;
            vstd::arithmetic::power2::lemma2_to64();
            lemma_pow2_adds(24, y as nat);
            lemma_pow2_pos(y as nat);
            let v = pow2(y as nat) as int;
            assert(0 <= l * v < 0x100_0000 * v) by (nonlinear_arith)
                requires
                    0 <= l < 0x100_0000,
                    v > 0,
            ;
            vstd::arithmetic::power2::lemma_pow2_strictly_increases(24 + y as nat, (x - 40) as nat);
            assert(l > 0 <==> l * v > 0) by (nonlinear_arith)
                requires
                    0 <= l,
                    v > 0,
            ;
            assert((big + 1) * u == big * u + u && (big - 1) * u == big * u - u) by (nonlinear_arith);
        }
        let beyond = l > 0;
        let w: u128 = if same || !beyond {
            big
        } else {
            big - 1
        };
        proof {
            lemma_place_whole(w as int, (x - 40) as nat, beyond, n);
        }
        encode(w, x as i32 - 39, beyond, Ghost(n), Ghost(1))
    }
}

/// The place of the product of two magnitudes.
fn multiply(p: u32, q: u32) -> (r: u32)
    requires
        p < INFINITY,
        q < INFINITY,
    ensures
        r == nearest(magnitude(p as nat) * magnitude(q as nat), pow2(149)),
        r <= INFINITY,
{
    let (m, x) = split(p);
    let (l, y) = split(q);
    let ghost n = magnitude(p as nat) * magnitude(q as nat);
    proof {
        assert(m * l <= 0x100_0000 * 0x100_0000) by (nonlinear_arith)
            requires
                0 <= m <= 0x100_0000,
                0 <= l <= 0x100_0000,
        ;
        let (a, b, k, c) = (pow2(x as nat), pow2(y as nat), pow2(lift()), pow2(149));
        let at = (x + y - 149 + lift()) as nat;
        lemma_pow2_adds(x as nat, y as nat);
        lemma_pow2_adds((x + y) as nat, lift());
        lemma_pow2_adds(at, 149);
        lemma_pow2_pos(at);
        lemma_pow2_pos(149);
        let unit = pow2(at) * c;
        assert(unit == a * b * k);
        let w = (m * l) as int;
        assert(w * unit == n * k) by (nonlinear_arith)
            requires
                unit == a * b * k,
                w == m * l,
                n == (m * a) * (l * b),
        ;
        assert((w + 1) * unit == w * unit + unit && unit > 0) by (nonlinear_arith)
            requires
                unit == pow2(at) * c,
                pow2(at) > 0,
                c > 0,
        ;
        lemma_place(w, x + y - 149, false, n, c);
    }
    encode(m * l, x as i32 + y as i32 - 148, false, Ghost(n), Ghost(pow2(149)))
}

/// The place of the quotient of two magnitudes.
fn divide(p: u32, q: u32) -> (r: u32)
    requires
        p < INFINITY,
        0 < q < INFINITY,
    ensures
        r == nearest(magnitude(p as nat) * pow2(149), magnitude(q as nat)),
        r <= INFINITY,
{
    let (m, x) = split(p);
    let (l, y) = split(q);
    let ghost n = magnitude(p as nat) * pow2(149);
    let ghost d = magnitude(q as nat);
    proof {
        lemma_magnitude_grows(0, q as nat);
        assert(l > 0) by (nonlinear_arith)
            requires
                d == l * pow2(y as nat),
                d > 0,
        ;
    }
    let high: u128 = m * 0x1_0000_0000_0000_0000;
    let w: u128 = high / l;
    let beyond = high % l > 0;
    proof {
        let rem = (high % l) as int;
        assert(high == w * l + rem && w <= high && (m >= 1 ==> w >= 0x100_0000)) by (nonlinear_arith)
            requires
                0 < l < 0x100_0000,
                high == m * 0x1_0000_0000_0000_0000,
                w == high / l,
                rem == high % l,
        ;
        let at = (x - y + 85 + lift()) as nat;
        let (a, b, k, c, u) = (pow2(x as nat), pow2(y as nat), pow2(lift()), pow2(149), pow2(at));
        lemma_pow2_pos(at);
        lemma_pow2_pos(y as nat);
        vstd::arithmetic::power2::lemma2_to64();
        lemma_pow2_adds(at, y as nat);
        lemma_pow2_adds(x as nat, 149);
        lemma_pow2_adds((x + 149) as nat, lift());
        lemma_pow2_adds(64, at + y as nat);
        let g = (u * b) as int;
        assert(a * c * k == 0x1_0000_0000_0000_0000 * g);
        let unit = (u * d) as int;
        assert(unit == l * g && g > 0) by (nonlinear_arith)
            requires
                unit == u * d,
                d == l * b,
                g == u * b,
                u > 0,
                b > 0,
        ;
        assert(n * k == high * g) by (nonlinear_arith)
            requires
                n == (m * a) * c,
                a * c * k == 0x1_0000_0000_0000_0000 * g,
                high == m * 0x1_0000_0000_0000_0000,
        ;
        assert(high * g == w * unit + rem * g) by (nonlinear_arith)
            requires
                high == w * l + rem,
                unit == l * g,
        ;
        assert((w + 1) * unit == w * unit + unit) by (nonlinear_arith);
        assert(0 <= rem * g < unit && (rem > 0 <==> rem * g > 0)) by (nonlinear_arith)
            requires
                unit == l * g,
                0 <= rem < l,
                g > 0,
        ;
        lemma_place(w as int, x - y + 85, beyond, n, d);
        if beyond {
            assert(m >= 1) by (nonlinear_arith)
                requires
                    high == m * 0x1_0000_0000_0000_0000,
                    high % l > 0,
                    l > 0,
                    m >= 0,
            ;
        }
    }
    encode(w, x as i32 - y as i32 + 86, beyond, Ghost(n), Ghost(d))
}

impl Single {
    /// The place of the number among all magnitudes.
    pub fn at(self) -> (r: u32)
        ensures
            r == self.place(),
    {
        self.bits % SIGN
    }

    /// The number has a minus sign.
    pub fn has_minus(self) -> (r: bool)
        ensures
            r == self.negative(),
    {
        self.bits >= SIGN
    }

    /// The bits stand for no number.
    pub fn stands_for_none(self) -> (r: bool)
        ensures
            r == self.is_nan(),
    {
        self.at() > INFINITY
    }

    /// The number of a sign and a place.
    fn made(negative: bool, place: u32) -> (r: Single)
        requires
            place <= INFINITY,
        ensures
            r == make(negative, place as nat),
    {
        Single {
            bits: if negative {
                SIGN + place
            } else {
                place
            },
        }
    }

    /// The number is less than the other.
    pub fn is_less(self, other: Single) -> (r: bool)
        ensures
            r == less(self, other),
    {
        let (a, b): (u32, u32) = (self.at(), other.at());
        if a > INFINITY || b > INFINITY {
            false
        } else if self.has_minus() {
            if other.has_minus() {
                b < a
            } else {
                a > 0 || b > 0
            }
        } else {
            !other.has_minus() && a < b
        }
    }

    /// The number is less than the other or equal to it.
    pub fn is_at_most(self, other: Single) -> (r: bool)
        ensures
            r == at_most(self, other),
    {
        !self.stands_for_none() && !other.stands_for_none() && !other.is_less(self)
    }

    /// The sum of two numbers.
    pub fn plus(self, other: Single) -> (r: Single)
        ensures
            r == sum(self, other),
    {
        proof {
            lemma_made(self);
            lemma_made(other);
        }
        let (a, b): (u32, u32) = (self.at(), other.at());
        let (minus, other_minus) = (self.has_minus(), other.has_minus());
        if a > INFINITY || b > INFINITY {
            return Single { bits: 0x7fc0_0000 };
        }
        if a == INFINITY {
            return if b == INFINITY && minus != other_minus {
                Single { bits: 0x7fc0_0000 }
            } else {
                self
            };
        }
        if b == INFINITY {
            return other;
        }
        proof {
            lemma_magnitude_grows(0, a as nat);
            lemma_magnitude_grows(0, b as nat);
        }
        if a == b && minus != other_minus {
            return Single { bits: 0 };
        }
        if a == 0 && b == 0 {
            return Self::made(minus, 0);
        }
        if a >= b {
            proof {
                lemma_magnitude_grows(b as nat, a as nat);
            }
            Self::made(minus, combine(a, b, minus == other_minus))
        } else {
            proof {
                lemma_magnitude_grows(a as nat, b as nat);
            }
            Self::made(other_minus, combine(b, a, minus == other_minus))
        }
    }

    /// The difference of two numbers.
    pub fn minus(self, other: Single) -> (r: Single)
        ensures
            r == difference(self, other),
    {
        let opposite = Single {
            bits: if other.has_minus() {
                other.bits - SIGN
            } else {
                other.bits + SIGN
            },
        };
        proof {
            lemma_made(other);
        }
        self.plus(opposite)
    }

    /// The product of two numbers.
    pub fn times(self, other: Single) -> (r: Single)
        ensures
            r == product(self, other),
    {
        let (a, b): (u32, u32) = (self.at(), other.at());
        let negative = self.has_minus() != other.has_minus();
        if a > INFINITY || b > INFINITY {
            Single { bits: 0x7fc0_0000 }
        } else if a == INFINITY || b == INFINITY {
            if a == 0 || b == 0 {
                Single { bits: 0x7fc0_0000 }
            } else {
                Self::made(negative, INFINITY)
            }
        } else {
            Self::made(negative, multiply(a, b))
        }
    }

    /// The quotient of two numbers.
    pub fn over(self, other: Single) -> (r: Single)
        ensures
            r == quotient(self, other),
    {
        let (a, b): (u32, u32) = (self.at(), other.at());
        let negative = self.has_minus() != other.has_minus();
        if a > INFINITY || b > INFINITY {
            Single { bits: 0x7fc0_0000 }
        } else if a == INFINITY {
            if b == INFINITY {
                Single { bits: 0x7fc0_0000 }
            } else {
                Self::made(negative, INFINITY)
            }
        } else if b == INFINITY {
            Self::made(negative, 0)
        } else if b == 0 {
            if a == 0 {
                Single { bits: 0x7fc0_0000 }
            } else {
                Self::made(negative, INFINITY)
            }
        } else {
            Self::made(negative, divide(a, b))
        }
    }

    /// `m` units of 2^(`x` - 149).
    pub fn scaled(m: u128, x: u32) -> (r: Single)
        requires
            m < 0x1_0000_0000_0000_0000_0000_0000_0000,
            x < 400,
        ensures
            r == make(false, nearest(m as nat * pow2(x as nat), 1)),
    {
        let ghost v = m as nat * pow2(x as nat);
        proof {
            let p = pow2(x as nat) as int;
            lemma_pow2_pos(x as nat);
            assert((m + 1) * p == m * p + p) by (nonlinear_arith);
            lemma_place_whole(m as int, x as nat, false, v);
        }
        Self::made(false, encode(m, x as i32 + 1, false, Ghost(v), Ghost(1)))
    }

    /// A whole number.
    pub fn count(n: u64) -> (r: Single)
        ensures
            r == counted(n as nat),
    {
        Self::scaled(n as u128, 149)
    }

    /// The number without what follows its point.
    pub fn whole(self) -> (r: u128)
        requires
            self.is_finite(),
        ensures
            r == whole_part(self),
    {
        let (m, x) = split(self.at());
        proof {
            lemma_pow2_pos(149);
            lemma_wide_powers();
        }
        if x >= 149 {
            proof {
                lemma_pow2_adds((x - 149) as nat, 149);
                lemma_pow2_pos((x - 149) as nat);
                let (u, p) = (pow2((x - 149) as nat) as int, pow2(149) as int);
                assert(m * (u * p) == (m * u) * p) by (nonlinear_arith);
                vstd::arithmetic::div_mod::lemma_div_multiples_vanish(m * u, p);
                assert(p * (m * u) == (m * u) * p) by (nonlinear_arith);
                if x < 253 {
                    vstd::arithmetic::power2::lemma_pow2_strictly_increases((x - 149) as nat, 104);
                }
                vstd::arithmetic::power2::lemma2_to64();
                vstd::arithmetic::power2::lemma2_to64_rest();
                lemma_pow2_adds(64, 40);
                assert(m * u < 0x100_0000 * 0x100_0000_0000_0000_0000_0000_0000) by (nonlinear_arith)
                    requires
                        0 <= m < 0x100_0000,
                        0 < u <= 0x100_0000_0000_0000_0000_0000_0000,
                ;
            }
            m * power(x - 149)
        } else {
            let k: u32 = 149 - x;
            proof {
                lemma_shifted_div(m as int, x as nat, k as nat);
            }
            if k >= 24 {
                proof {
                    if k > 24 {
                        vstd::arithmetic::power2::lemma_pow2_strictly_increases(24, k as nat);
                    }
                    vstd::arithmetic::power2::lemma2_to64();
                    vstd::arithmetic::div_mod::lemma_basic_div(m as int, pow2(k as nat) as int);
                }
                0
            } else {
                m / power(k)
            }
        }
    }

    /// The whole number nearest to a number; a half goes up.
    pub fn nearest_whole(self) -> (r: u128)
        requires
            self.is_finite(),
        ensures
            r == rounded_whole(self),
    {
        let (m, x) = split(self.at());
        let ghost p = pow2(149) as int;
        let ghost v = magnitude(self.place()) as int;
        proof {
            lemma_pow2_pos(149);
        }
        if x >= 149 {
            let r: u128 = self.whole();
            proof {
                lemma_pow2_adds((x - 149) as nat, 149);
                let u = pow2((x - 149) as nat) as int;
                assert(m * (u * p) == p * (m * u)) by (nonlinear_arith);
                vstd::arithmetic::div_mod::lemma_div_multiples_vanish(m * u, p);
                assert(v == p * r);
                assert(2 * v + p == (2 * p) * r + p) by (nonlinear_arith)
                    requires
                        v == p * r,
                ;
                vstd::arithmetic::div_mod::lemma_fundamental_div_mod_converse(
                    2 * v + p,
                    2 * p,
                    r as int,
                    p,
                );
            }
            r
        } else {
            let k: u32 = 149 - x;
            let ghost (u, g) = (pow2(x as nat) as int, pow2(k as nat) as int);
            proof {
                lemma_pow2_adds(x as nat, k as nat);
                lemma_pow2_pos(x as nat);
                lemma_pow2_pos(k as nat);
                let w = 2 * m + g;
                assert(2 * v + p == w * u && 2 * p == u * (2 * g)) by (nonlinear_arith)
                    requires
                        v == m * u,
                        p == u * g,
                        w == 2 * m + g,
                ;
                lemma_common_factor(w, 2 * g, u);
            }
            if k >= 26 {
                proof {
                    if k > 26 {
                        vstd::arithmetic::power2::lemma_pow2_strictly_increases(26, k as nat);
                    }
                    vstd::arithmetic::power2::lemma2_to64();
                    vstd::arithmetic::div_mod::lemma_basic_div(2 * m + g, 2 * g);
                }
                0
            } else {
                proof {
                    vstd::arithmetic::power2::lemma2_to64();
                    vstd::arithmetic::power2::lemma_pow2_strictly_increases(k as nat, 26);
                }
                let g: u128 = power(k);
                (2 * m + g) / (2 * g)
            }
        }
    }

    /// The least whole number that is not below the number.
    pub fn raised(self) -> (r: u128)
        requires
            self.is_finite(),
        ensures
            r == raised_whole(self),
    {
        let (m, x) = split(self.at());
        let ghost p = pow2(149) as int;
        let ghost v = magnitude(self.place()) as int;
        proof {
            lemma_pow2_pos(149);
        }
        if x >= 149 {
            let r: u128 = self.whole();
            proof {
                lemma_pow2_adds((x - 149) as nat, 149);
                let u = pow2((x - 149) as nat) as int;
                assert(m * (u * p) == p * (m * u)) by (nonlinear_arith);
                vstd::arithmetic::div_mod::lemma_div_multiples_vanish(m * u, p);
                assert(v + p - 1 == r * p + (p - 1)) by (nonlinear_arith)
                    requires
                        v == p * r,
                ;
                vstd::arithmetic::div_mod::lemma_fundamental_div_mod_converse(
                    v + p - 1,
                    p,
                    r as int,
                    p - 1,
                );
            }
            return r;
        }
        let k: u32 = 149 - x;
        let ghost (u, g) = (pow2(x as nat) as int, pow2(k as nat) as int);
        proof {
            lemma_pow2_adds(x as nat, k as nat);
            lemma_pow2_pos(x as nat);
            lemma_pow2_pos(k as nat);
            let w = m + g - 1;
            let (q, rest) = (w / g, w % g);
            vstd::arithmetic::div_mod::lemma_fundamental_div_mod(w, g);
            assert(v + p - 1 == q * p + (u * (rest + 1) - 1) && 0 <= u * (rest + 1) - 1 < p)
                by (nonlinear_arith)
                requires
                    v == m * u,
                    p == u * g,
                    w == m + g - 1,
                    w == g * q + rest,
                    0 <= rest < g,
                    u > 0,
            ;
            vstd::arithmetic::div_mod::lemma_fundamental_div_mod_converse(
                v + p - 1,
                p,
                q,
                u * (rest + 1) - 1,
            );
            vstd::arithmetic::power2::lemma2_to64();
        }
        if k >= 24 {
            proof {
                if k > 24 {
                    vstd::arithmetic::power2::lemma_pow2_strictly_increases(24, k as nat);
                }
                if m == 0 {
                    vstd::arithmetic::div_mod::lemma_basic_div(g - 1, g);
                } else {
                    vstd::arithmetic::div_mod::lemma_fundamental_div_mod_converse(
                        m + g - 1,
                        g,
                        1,
                        m - 1,
                    );
                }
            }
            if m == 0 {
                0
            } else {
                1
            }
        } else {
            proof {
                vstd::arithmetic::power2::lemma_pow2_strictly_increases(k as nat, 24);
            }
            let g: u128 = power(k);
            (m + g - 1) / g
        }
    }

    /// The square root of a whole number.
    pub fn root(c: u64) -> (r: Single)
        requires
            c <= 0x1_0000_0000,
        ensures
            r == square_root(c as nat),
    {
        let s: u128 = c as u128 * 0x1_0000_0000_0000_0000;
        let mut low: u128 = 0;
        let mut high: u128 = 0x2_0000_0000_0000;
        proof {
            vstd::arithmetic::power2::lemma2_to64();
            assert(high * high == 0x4_0000_0000_0000_0000_0000_0000) by (nonlinear_arith)
                requires
                    high == 0x2_0000_0000_0000,
            ;
        }
        while low + 1 < high
            invariant
                s <= 0x1_0000_0000_0000_0000_0000_0000,
                low < high <= 0x2_0000_0000_0000,
                low * low <= s < high * high,
            decreases high - low,
        {
            let middle: u128 = (low + high) / 2;
            proof {
                assert(middle * middle <= 0x2_0000_0000_0000 * 0x2_0000_0000_0000) by (nonlinear_arith)
                    requires
                        0 <= middle <= 0x2_0000_0000_0000,
                ;
            }
            if middle * middle <= s {
                low = middle;
            } else {
                high = middle;
            }
        }
        proof {
            lemma_floor_root_is(s as nat, low as nat);
            assert(low * low <= 0x2_0000_0000_0000 * 0x2_0000_0000_0000) by (nonlinear_arith)
                requires
                    0 <= low <= 0x2_0000_0000_0000,
            ;
        }
        let rest: u128 = if low * low < s {
            1
        } else {
            0
        };
        Self::scaled(2 * low + rest, 116)
    }
}

} // verus!
