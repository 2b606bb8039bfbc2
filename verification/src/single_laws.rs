//! What holds of single-precision numbers: rounding keeps the order, and so do sums, products and
//! quotients; what can be held exactly is.

use vstd::prelude::*;
use vstd::arithmetic::power2::{lemma_pow2_adds, lemma_pow2_pos, lemma_pow2_unfold, pow2};
use crate::single::{
    INFINITY, ONE, Single, at_most, below, counted, difference, floor_root, lemma_below,
    lemma_below_is, lemma_made, lemma_magnitude_at, lemma_magnitude_grows, lemma_make,
    lemma_nearest_ends, lemma_nearest_exact, lemma_nearest_grows, lemma_nearest_is_some,
    lemma_order, lemma_parts, less, magnitude, nearest, one, opposite, product, quotient,
    raised_whole, square_root, sum, whole_part, zero,
};

verus! {

/// A number of up to 24 significant bits is at a place of its own.
pub proof fn lemma_representable(m: nat, x: nat) -> (b: nat)
    requires
        m <= 0x100_0000,
    ensures
        magnitude(b) == m * pow2(x),
        b <= x * 0x80_0000 + 0x100_0000,
        nearest(m * pow2(x), 1) == (if b > INFINITY {
            INFINITY as nat
        } else {
            b
        }),
    decreases x,
{
    let b = if x == 0 || m >= 0x80_0000 {
        lemma_magnitude_at(x, m);
        x * 0x80_0000 + m
    } else {
        lemma_pow2_unfold(x);
        let p = pow2((x - 1) as nat);
        assert(2 * m * p == m * (2 * p)) by (nonlinear_arith);
        lemma_representable(2 * m, (x - 1) as nat)
    };
    if b <= INFINITY {
        lemma_nearest_exact(b, 1);
        assert(magnitude(b) * 1 == magnitude(b));
    } else {
        lemma_nearest_exact(INFINITY as nat, 1);
        lemma_magnitude_grows(INFINITY as nat, b);
        lemma_nearest_grows(magnitude(INFINITY as nat) * 1, 1, magnitude(b), 1);
        lemma_nearest_ends(magnitude(b), 1);
    }
    b
}

/// Whole numbers of up to 24 bits are held as they are.
pub proof fn lemma_counted_exact(n: nat)
    requires
        n <= 0x100_0000,
    ensures
        counted(n).value() == n * pow2(149),
        counted(n).is_finite(),
        !counted(n).negative(),
{
    let b = lemma_representable(n, 149);
    lemma_make(false, b);
}

/// The place that the exact value of a number is rounded to is the number's own.
pub proof fn lemma_exact(a: Single)
    requires
        a.is_finite(),
    ensures
        nearest(magnitude(a.place()), 1) == a.place(),
{
    lemma_nearest_exact(a.place(), 1);
    assert(magnitude(a.place()) * 1 == magnitude(a.place()));
}

/// A sum of finite numbers is a number, whose place goes by the exact sum.
pub proof fn lemma_sum(a: Single, b: Single)
    requires
        a.is_finite(),
        b.is_finite(),
    ensures
        ({
            let n = a.value() + b.value();
            let r = sum(a, b);
            &&& !r.is_nan()
            &&& n >= 0 ==> r.order() == nearest(n as nat, 1)
            &&& n <= 0 ==> r.order() == -(nearest((-n) as nat, 1) as int)
            &&& n > 0 ==> !r.negative()
        }),
{
    let n = a.value() + b.value();
    lemma_magnitude_grows(0, 0);
    lemma_nearest_exact(0, 1);
    assert(magnitude(0) * 1 == 0);
    if n == 0 {
        lemma_make(a.negative() && b.negative(), 0);
    } else if n < 0 {
        lemma_nearest_ends((-n) as nat, 1);
        lemma_make(true, nearest((-n) as nat, 1));
    } else {
        lemma_nearest_ends(n as nat, 1);
        lemma_make(false, nearest(n as nat, 1));
    }
}

/// A larger summand gives no smaller sum.
pub proof fn lemma_sum_grows(a: Single, b: Single, c: Single)
    requires
        a.is_finite(),
        b.is_finite(),
        c.is_finite(),
        a.value() <= b.value(),
    ensures
        at_most(sum(a, c), sum(b, c)),
{
    let (n, m) = (a.value() + c.value(), b.value() + c.value());
    lemma_sum(a, c);
    lemma_sum(b, c);
    if n >= 0 {
        lemma_nearest_grows(n as nat, 1, m as nat, 1);
    } else if m <= 0 {
        lemma_nearest_grows((-m) as nat, 1, (-n) as nat, 1);
    }
}

/// Where the exact sum is a number, it is the sum.
pub proof fn lemma_sum_exact(a: Single, b: Single, c: Single)
    requires
        a.is_finite(),
        b.is_finite(),
        c.is_finite(),
        a.value() + b.value() == c.value(),
    ensures
        sum(a, b).order() == c.order(),
        sum(a, b).value() == c.value(),
        sum(a, b).is_finite(),
{
    lemma_sum(a, b);
    lemma_exact(c);
    lemma_magnitude_grows(0, c.place());
    lemma_order(sum(a, b), c);
    lemma_order(c, sum(a, b));
}

/// Adding a finite number that is not negative makes nothing less.
pub proof fn lemma_sum_at_least(a: Single, b: Single)
    requires
        !a.is_nan(),
        b.is_finite(),
        !b.negative(),
    ensures
        at_most(a, sum(a, b)),
{
    if a.is_finite() {
        lemma_magnitude_grows(0, b.place());
        lemma_sum_exact(zero(), a, a);
        lemma_sum_grows(zero(), b, a);
        assert(sum(b, a).order() == sum(a, b).order()) by {
            lemma_sum(a, b);
            lemma_sum(b, a);
        }
        lemma_sum(b, a);
        lemma_sum(a, b);
    }
}

/// A number less a smaller one is more than 0.
pub proof fn lemma_difference_is_positive(a: Single, b: Single)
    requires
        less(b, a),
    ensures
        less(zero(), difference(a, b)),
{
    lemma_made(b);
    let c = opposite(b);
    lemma_make(!b.negative(), b.place());
    if a.is_finite() && b.is_finite() {
        lemma_order(a, b);
        let n = a.value() + c.value();
        lemma_sum(a, c);
        lemma_nearest_is_some(n as nat, 1);
    }
}

/// A product of finite numbers is a number, whose place goes by the exact product.
pub proof fn lemma_product(a: Single, b: Single)
    requires
        a.is_finite(),
        b.is_finite(),
    ensures
        ({
            let r = product(a, b);
            &&& r.place() == nearest(magnitude(a.place()) * magnitude(b.place()), pow2(149))
            &&& r.negative() == (a.negative() != b.negative())
            &&& !r.is_nan()
        }),
{
    let n = magnitude(a.place()) * magnitude(b.place());
    lemma_nearest_ends(n, pow2(149));
    lemma_make(a.negative() != b.negative(), nearest(n, pow2(149)));
}

/// A larger factor gives no smaller place of the product.
proof fn lemma_product_places(a: nat, b: nat, c: nat)
    requires
        a <= b,
    ensures
        nearest(magnitude(a) * magnitude(c), pow2(149)) <= nearest(
            magnitude(b) * magnitude(c),
            pow2(149),
        ),
{
    lemma_magnitude_grows(a, b);
    lemma_pow2_pos(149);
    let (x, y, z, p) = (magnitude(a), magnitude(b), magnitude(c), pow2(149));
    assert(x * z * p <= y * z * p) by (nonlinear_arith)
        requires
            x <= y,
            p > 0,
    ;
    lemma_nearest_grows(x * z, p, y * z, p);
}

/// A larger factor gives no smaller product with a number that is not negative.
pub proof fn lemma_product_grows(a: Single, b: Single, c: Single)
    requires
        at_most(a, b),
        c.is_finite(),
        !c.negative(),
        c.place() > 0 || (a.is_finite() && b.is_finite()),
    ensures
        at_most(product(a, c), product(b, c)),
{
    let (x, y) = (a.place(), b.place());
    lemma_make(a.negative(), INFINITY as nat);
    lemma_make(b.negative(), INFINITY as nat);
    if a.is_finite() {
        lemma_product(a, c);
    }
    if b.is_finite() {
        lemma_product(b, c);
    }
    if a.is_finite() && b.is_finite() {
        lemma_magnitude_grows(0, 0);
        lemma_pow2_pos(149);
        let z = magnitude(c.place());
        assert(0 * z == 0) by (nonlinear_arith);
        lemma_nearest_exact(0, pow2(149));
        assert(0 * pow2(149) == 0) by (nonlinear_arith);
        if x <= y {
            lemma_product_places(x, y, c.place());
        } else {
            lemma_product_places(y, x, c.place());
        }
    }
}

/// A larger count is no smaller number.
pub proof fn lemma_counted_grows(a: nat, b: nat)
    requires
        a <= b,
    ensures
        at_most(counted(a), counted(b)),
        !counted(a).negative(),
{
    lemma_pow2_pos(149);
    let p = pow2(149);
    assert(a * p <= b * p) by (nonlinear_arith)
        requires
            a <= b,
    ;
    lemma_nearest_grows(a * p, 1, b * p, 1);
    lemma_nearest_ends(a * p, 1);
    lemma_nearest_ends(b * p, 1);
    lemma_make(false, nearest(a * p, 1));
    lemma_make(false, nearest(b * p, 1));
}

/// Going down from a number whose square is above `n`, one comes to the square root.
proof fn lemma_floor_root_from(n: nat, top: nat) -> (r: nat)
    requires
        n < top * top,
    ensures
        r * r <= n < (r + 1) * (r + 1),
    decreases top,
{
    if top == 0 {
        assert(top * top == 0) by (nonlinear_arith)
            requires
                top == 0,
        ;
        0
    } else {
        let c = (top - 1) as nat;
        assert(c + 1 == top);
        if c * c <= n {
            c
        } else {
            lemma_floor_root_from(n, c)
        }
    }
}

/// The square root without what follows its point is not above the square root, and the next number is.
proof fn lemma_floor_root(n: nat)
    ensures
        floor_root(n) * floor_root(n) <= n < (floor_root(n) + 1) * (floor_root(n) + 1),
{
    assert(n < (n + 1) * (n + 1)) by (nonlinear_arith);
    let r = lemma_floor_root_from(n, n + 1);
    assert(r * r <= n < (r + 1) * (r + 1));
}

/// A larger number has no smaller square root.
pub proof fn lemma_square_root_grows(a: nat, b: nat)
    requires
        a <= b,
    ensures
        at_most(square_root(a), square_root(b)),
{
    let p = pow2(64);
    let (s, t) = (a * p, b * p);
    assert(s <= t) by (nonlinear_arith)
        requires
            a <= b,
            s == a * p,
            t == b * p,
    ;
    lemma_floor_root(s);
    lemma_floor_root(t);
    let (q, r) = (floor_root(s), floor_root(t));
    assert(q <= r) by (nonlinear_arith)
        requires
            q * q <= s,
            s <= t,
            t < (r + 1) * (r + 1),
            q >= 0,
            r >= 0,
    ;
    let x = 2 * q + (if q * q < s {
        1nat
    } else {
        0
    });
    let y = 2 * r + (if r * r < t {
        1nat
    } else {
        0
    });
    assert(x <= y);
    let u = pow2(116);
    assert(x * u <= y * u) by (nonlinear_arith)
        requires
            x <= y,
    ;
    lemma_nearest_grows(x * u, 1, y * u, 1);
    lemma_nearest_ends(x * u, 1);
    lemma_nearest_ends(y * u, 1);
    lemma_make(false, nearest(x * u, 1));
    lemma_make(false, nearest(y * u, 1));
}

/// The square root of a whole number up to 2^32 is finite, it is not negative, and only that of 0 is 0.
pub proof fn lemma_square_root(c: nat)
    requires
        c <= 0x1_0000_0000,
    ensures
        square_root(c).is_finite(),
        !square_root(c).negative(),
        c > 0 ==> square_root(c).place() > 0,
{
    let s = c * pow2(64);
    vstd::arithmetic::power2::lemma2_to64();
    lemma_floor_root(s);
    let r = floor_root(s);
    assert(r <= 0x1_0000_0000_0000) by (nonlinear_arith)
        requires
            r * r <= s,
            s <= 0x1_0000_0000 * 0x1_0000_0000_0000_0000,
            r >= 0,
    ;
    let x = 2 * r + (if r * r < s {
        1nat
    } else {
        0
    });
    let u = pow2(116);
    lemma_pow2_pos(116);
    let b = lemma_representable(0x100_0000, 142);
    lemma_pow2_adds(26, 116);
    assert(x * u <= 0x100_0000 * pow2(142)) by (nonlinear_arith)
        requires
            x <= 0x4_0000_0000_0000,
            pow2(142) == 0x400_0000 * u,
    ;
    lemma_nearest_grows(x * u, 1, 0x100_0000 * pow2(142), 1);
    lemma_make(false, nearest(x * u, 1));
    if c > 0 {
        assert(x >= 1) by (nonlinear_arith)
            requires
                x == 2 * r + (if r * r < s {
                    1nat
                } else {
                    0
                }),
                s > 0,
                r >= 0,
        ;
        assert(x * u >= 1) by (nonlinear_arith)
            requires
                x >= 1,
                u >= 1,
        ;
        lemma_nearest_is_some(x * u, 1);
    }
}

/// A number of up to 32 bits that is held as a single-precision number is one of up to 2^32.
pub proof fn lemma_whole_of_counted(n: nat)
    requires
        n <= 0xffff_ffff,
    ensures
        whole_part(counted(n)) <= 0x1_0000_0000,
        n > 0 ==> whole_part(counted(n)) > 0,
        counted(n).is_finite(),
{
    let p = pow2(149);
    lemma_pow2_pos(149);
    vstd::arithmetic::power2::lemma2_to64();
    lemma_pow2_adds(32, 149);
    let top = lemma_representable(1, 181);
    lemma_counted_grows(n, 0x1_0000_0000);
    assert(1 * pow2(181) == 0x1_0000_0000 * p);
    lemma_make(false, top);
    lemma_magnitude_grows(counted(n).place(), top);
    let v = magnitude(counted(n).place());
    assert(v / p <= 0x1_0000_0000) by (nonlinear_arith)
        requires
            v <= 0x1_0000_0000 * p,
            p > 0,
    ;
    if n > 0 {
        lemma_counted_exact(1);
        lemma_counted_grows(1, n);
        lemma_magnitude_grows(counted(1).place(), counted(n).place());
        assert(v / p >= 1) by (nonlinear_arith)
            requires
                v >= 1 * p,
                p > 0,
        ;
    }
}

/// A larger count has no smaller whole part.
pub proof fn lemma_whole_grows(a: nat, b: nat)
    requires
        a <= b,
    ensures
        whole_part(counted(a)) <= whole_part(counted(b)),
{
    lemma_counted_grows(a, b);
    lemma_counted_grows(b, b);
    lemma_magnitude_grows(counted(a).place(), counted(b).place());
    lemma_pow2_pos(149);
    vstd::arithmetic::div_mod::lemma_div_is_ordered(
        magnitude(counted(a).place()) as int,
        magnitude(counted(b).place()) as int,
        pow2(149) as int,
    );
}

/// The order of the factors does not matter.
pub proof fn lemma_product_commutes(a: Single, b: Single)
    ensures
        product(a, b) == product(b, a),
{
    let (x, y) = (magnitude(a.place()), magnitude(b.place()));
    assert(x * y == y * x) by (nonlinear_arith);
}

/// A larger dividend gives no smaller quotient.
pub proof fn lemma_quotient_grows(a: Single, b: Single, c: Single)
    requires
        at_most(a, b),
        b.is_finite(),
        !a.negative(),
        !b.negative(),
        c.is_finite(),
        !c.negative(),
        c.place() > 0,
    ensures
        at_most(quotient(a, c), quotient(b, c)),
        !quotient(a, c).negative(),
{
    let (x, y, d, p) = (
        magnitude(a.place()),
        magnitude(b.place()),
        magnitude(c.place()),
        pow2(149),
    );
    lemma_magnitude_grows(a.place(), b.place());
    lemma_magnitude_grows(0, c.place());
    assert(x * p * d <= y * p * d) by (nonlinear_arith)
        requires
            x <= y,
    ;
    lemma_nearest_grows(x * p, d, y * p, d);
    lemma_nearest_ends(x * p, d);
    lemma_nearest_ends(y * p, d);
    lemma_make(false, nearest(x * p, d));
    lemma_make(false, nearest(y * p, d));
}

/// 0 through a number that is not 0 is 0.
pub proof fn lemma_quotient_of_zero(a: Single, b: Single)
    requires
        a.place() == 0,
        b.is_finite(),
        b.place() > 0,
    ensures
        quotient(a, b).place() == 0,
{
    let d = magnitude(b.place());
    lemma_magnitude_grows(0, b.place());
    lemma_nearest_exact(0, d);
    assert(0 * pow2(149) == 0 && 0 * d == 0) by (nonlinear_arith);
    lemma_make(a.negative() != b.negative(), 0);
}

/// A number that is not 0 goes into itself once.
pub proof fn lemma_quotient_of_itself(a: Single)
    requires
        a.is_finite(),
        a.place() > 0,
    ensures
        quotient(a, a) == one(),
{
    let d = magnitude(a.place());
    lemma_magnitude_grows(0, a.place());
    lemma_one();
    lemma_nearest_exact(ONE as nat, d);
    assert(pow2(149) * d == d * pow2(149)) by (nonlinear_arith);
}

/// The value of 1.
pub proof fn lemma_one()
    ensures
        magnitude(ONE as nat) == pow2(149),
        one().value() == pow2(149),
        counted(1) == one(),
        counted(0) == zero(),
{
    lemma_magnitude_at(126, 0x80_0000);
    vstd::arithmetic::power2::lemma2_to64();
    lemma_pow2_adds(23, 126);
    lemma_nearest_exact(ONE as nat, 1);
    assert(pow2(149) * 1 == 1 * pow2(149));
    lemma_nearest_exact(0, 1);
    lemma_magnitude_grows(0, 0);
    assert(0 * pow2(149) == 0);
}

/// A count is 0 or at least 1, and up to 2^64 it is finite.
pub proof fn lemma_counted(n: nat)
    ensures
        !counted(n).negative(),
        !counted(n).is_nan(),
        n > 0 ==> counted(n).place() >= ONE,
        n <= 0x1_0000_0000_0000_0000 ==> counted(n).is_finite(),
{
    lemma_one();
    lemma_counted_grows(n, n);
    if n > 0 {
        lemma_counted_grows(1, n);
    }
    if n <= 0x1_0000_0000_0000_0000 {
        lemma_counted_grows(n, 0x1_0000_0000_0000_0000);
        vstd::arithmetic::power2::lemma2_to64();
        lemma_pow2_adds(64, 149);
        let top = lemma_representable(1, 213);
        assert(1 * pow2(213) == 0x1_0000_0000_0000_0000 * pow2(149));
        lemma_make(false, top);
    }
}

/// A share of a whole lies between 0 and 1. It is 1 where it is the whole, and, of a whole of up to 2^24,
/// only there.
pub proof fn lemma_share(k: nat, n: nat)
    requires
        k <= n,
        0 < n <= 0x1_0000_0000_0000_0000,
    ensures
        at_most(zero(), quotient(counted(k), counted(n))),
        at_most(quotient(counted(k), counted(n)), one()),
        k == n ==> quotient(counted(k), counted(n)) == one(),
        k < n <= 0x100_0000 ==> less(quotient(counted(k), counted(n)), one()),
{
    lemma_counted(k);
    lemma_counted(n);
    lemma_counted_grows(k, n);
    lemma_quotient_grows(counted(k), counted(n), counted(n));
    lemma_quotient_of_itself(counted(n));
    if k < n <= 0x100_0000 {
        lemma_counted_exact(k);
        lemma_counted_exact(n);
        let p = pow2(149);
        lemma_pow2_pos(149);
        let last = (ONE - 1) as nat;
        lemma_magnitude_at(125, 0xff_ffff);
        vstd::arithmetic::power2::lemma2_to64();
        lemma_pow2_adds(24, 125);
        let u = pow2(125);
        assert(magnitude(last) == 0xff_ffff * u);
        let d = n * p;
        assert(d > 0) by (nonlinear_arith)
            requires
                d == n * p,
                n > 0,
                p > 0,
        ;
        lemma_nearest_exact(last, d);
        let (x, y) = ((k * p) * p, magnitude(last) * d);
        assert(k * 0x100_0000 <= n * 0xff_ffff);
        assert(x <= y) by (nonlinear_arith)
            requires
                x == (k * p) * p,
                y == (0xff_ffff * u) * (n * p),
                p == 0x100_0000 * u,
                k * 0x100_0000 <= n * 0xff_ffff,
        ;
        assert(x * d <= y * d) by (nonlinear_arith)
            requires
                x <= y,
        ;
        lemma_nearest_grows(x, d, y, d);
        lemma_nearest_ends(x, d);
        lemma_make(false, nearest(x, d));
    }
}

/// Adding 1 to 2^24 changes nothing.
proof fn lemma_full()
    ensures
        nearest(0x100_0001 * pow2(149), 1) == counted(0x100_0000).place(),
{
    let p = pow2(149);
    lemma_pow2_pos(149);
    lemma_pow2_unfold(150);
    lemma_magnitude_at(150, 0x80_0000);
    lemma_magnitude_at(150, 0x80_0001);
    let b: nat = 150 * 0x80_0000 + 0x80_0000;
    assert(magnitude(b) == 0x100_0000 * p && magnitude(b + 1) == 0x100_0002 * p);
    lemma_nearest_exact(b, 1);
    assert(magnitude(b) * 1 == 0x100_0000 * p);
    lemma_make(false, b);
    let n = 0x100_0001 * p;
    assert(magnitude(b) * 1 <= n < magnitude(b + 1) * 1);
    lemma_below_is(n, 1, b);
    reveal(nearest);
    assert((magnitude(b) + magnitude(b + 1)) * 1 == 2 * n);
    assert(b % 2 == 0);
}

/// A sum of `i` numbers of at most 1, and one more of them, is at most the count of them.
pub proof fn lemma_sum_of_shares(s: Single, x: Single, i: nat)
    requires
        at_most(zero(), s),
        at_most(s, counted(i)),
        at_most(s, counted(0x100_0000)),
        at_most(zero(), x),
        at_most(x, one()),
        i <= 0xffff_ffff_ffff_ffff,
    ensures
        at_most(zero(), sum(s, x)),
        at_most(sum(s, x), counted(i + 1)),
        at_most(sum(s, x), counted(0x100_0000)),
{
    lemma_one();
    lemma_counted(i);
    lemma_counted(i + 1);
    let full = counted(0x100_0000);
    lemma_counted_exact(0x100_0000);
    lemma_pow2_pos(149);
    lemma_order(zero(), s);
    lemma_order(zero(), x);
    lemma_order(x, one());
    lemma_order(s, counted(i));
    lemma_magnitude_grows(0, 0);
    lemma_sum(s, x);
    let n = s.value() + x.value();
    lemma_order(s, full);
    lemma_full();
    lemma_nearest_grows(n as nat, 1, 0x100_0001 * pow2(149), 1);
    if i >= 0x100_0000 {
        lemma_counted_grows(0x100_0000, i + 1);
    } else {
        lemma_counted_exact(i);
        lemma_counted_exact(i + 1);
        let c = counted(i + 1);
        assert((i + 1) * pow2(149) == i * pow2(149) + pow2(149)) by (nonlinear_arith);
        lemma_nearest_grows(n as nat, 1, c.value() as nat, 1);
        lemma_exact(c);
    }
}

/// A finite number of at most 2^(`x` - 149).
pub open spec fn within(a: Single, x: nat) -> bool {
    a.is_finite() && magnitude(a.place()) <= pow2(x)
}

/// The place of a power of 2.
proof fn lemma_power_place(x: nat) -> (b: nat)
    requires
        x <= 250,
    ensures
        magnitude(b) == pow2(x),
        b < INFINITY,
{
    let b = lemma_representable(1, x);
    assert(1 * pow2(x) == pow2(x));
    b
}

/// What is rounded is not carried beyond a power of 2.
proof fn lemma_nearest_within(n: nat, d: nat, x: nat)
    requires
        d > 0,
        x <= 250,
        n <= pow2(x) * d,
    ensures
        nearest(n, d) < INFINITY,
        magnitude(nearest(n, d)) <= pow2(x),
{
    let b = lemma_power_place(x);
    lemma_nearest_exact(b, d);
    let m = pow2(x) * d;
    assert(n * d <= m * d) by (nonlinear_arith)
        requires
            n <= m,
    ;
    lemma_nearest_grows(n, d, m, d);
    lemma_magnitude_grows(nearest(n, d), b);
}

/// A sum of two numbers within a power of 2 lies within its double.
pub proof fn lemma_sum_within(a: Single, b: Single, x: nat)
    requires
        within(a, x),
        within(b, x),
        x < 250,
    ensures
        within(sum(a, b), x + 1),
{
    let n = a.value() + b.value();
    lemma_sum(a, b);
    lemma_pow2_unfold(x + 1);
    let m = (if n < 0 {
        -n
    } else {
        n
    }) as nat;
    assert(pow2(x + 1) * 1 == 2 * pow2(x));
    lemma_nearest_within(m, 1, x + 1);
}

/// A product of two numbers within powers of 2 lies within their product.
pub proof fn lemma_product_within(a: Single, b: Single, x: nat, y: nat)
    requires
        within(a, x),
        within(b, y),
        149 <= x + y <= 399,
    ensures
        within(product(a, b), (x + y - 149) as nat),
{
    lemma_product(a, b);
    let z = (x + y - 149) as nat;
    lemma_pow2_adds(x, y);
    lemma_pow2_adds(z, 149);
    lemma_pow2_pos(149);
    let (m, n, p, q) = (magnitude(a.place()), magnitude(b.place()), pow2(x), pow2(y));
    assert(m * n <= p * q) by (nonlinear_arith)
        requires
            0 <= m <= p,
            0 <= n <= q,
    ;
    lemma_nearest_within(m * n, pow2(149), z);
}

/// A larger bound holds too.
pub proof fn lemma_within(a: Single, x: nat, y: nat)
    requires
        within(a, x),
        x <= y,
    ensures
        within(a, y),
{
    if x < y {
        vstd::arithmetic::power2::lemma_pow2_strictly_increases(x, y);
    }
}

/// A count of up to 32 bits lies within 2^32.
pub proof fn lemma_counted_within(n: nat)
    requires
        n <= 0xffff_ffff,
    ensures
        within(counted(n), 181),
{
    vstd::arithmetic::power2::lemma2_to64();
    lemma_pow2_adds(32, 149);
    let p = pow2(149);
    assert(n * p <= pow2(181) * 1) by (nonlinear_arith)
        requires
            n <= 0x1_0000_0000,
            pow2(181) == 0x1_0000_0000 * p,
    ;
    lemma_nearest_within(n * p, 1, 181);
    lemma_make(false, nearest(n * p, 1));
}

/// Where the exact product is a number, it is the product.
pub proof fn lemma_product_exact(a: Single, b: Single, c: Single)
    requires
        a.is_finite(),
        b.is_finite(),
        c.is_finite(),
        magnitude(a.place()) * magnitude(b.place()) == magnitude(c.place()) * pow2(149),
    ensures
        product(a, b).place() == c.place(),
        product(a, b).negative() == (a.negative() != b.negative()),
{
    lemma_product(a, b);
    lemma_pow2_pos(149);
    lemma_nearest_exact(c.place(), pow2(149));
}

/// A number times 1 is the number.
pub proof fn lemma_product_one(a: Single)
    requires
        a.is_finite(),
    ensures
        product(a, one()) == a,
{
    lemma_one();
    lemma_product_exact(a, one(), a);
    lemma_made(a);
    lemma_made(product(a, one()));
}

/// A number times 0 is 0.
pub proof fn lemma_product_zero(a: Single)
    requires
        a.is_finite(),
    ensures
        product(a, zero()).place() == 0,
        product(a, zero()).negative() == a.negative(),
{
    lemma_magnitude_grows(0, 0);
    assert(magnitude(a.place()) * 0 == 0 * pow2(149)) by (nonlinear_arith);
    lemma_product_exact(a, zero(), zero());
}

/// The order of the summands does not matter.
pub proof fn lemma_sum_commutes(a: Single, b: Single)
    requires
        a.is_finite(),
        b.is_finite(),
    ensures
        sum(a, b) == sum(b, a),
{
    assert(a.value() + b.value() == b.value() + a.value());
}

/// What lies nearer to the next place than to a place is not rounded to it, nor to a lower one.
proof fn lemma_nearest_above(n: nat, d: nat, b: nat)
    requires
        d > 0,
        b < INFINITY,
        2 * n > (magnitude(b) + magnitude(b + 1)) * d,
    ensures
        nearest(n, d) > b,
{
    reveal(nearest);
    lemma_below(n, d);
    let c = below(n, d);
    lemma_parts(b);
    if c < b {
        lemma_magnitude_grows(c + 1, b);
        let (x, y, z) = (magnitude(c + 1), magnitude(b), magnitude(b + 1));
        assert(false) by (nonlinear_arith)
            requires
                n < x * d,
                x <= y,
                y < z,
                2 * n > (y + z) * d,
                d > 0,
        ;
    }
}

/// The quotient of two counts of up to 24 bits does not fall to a whole number that it is above.
proof fn lemma_quotient_above(s: nat, b: nat, k: nat)
    requires
        s <= 0x100_0000,
        0 < b <= 0x100_0000,
        k * b < s,
    ensures
        quotient(counted(s), counted(b)).place() > counted(k).place(),
{
    let p = pow2(149);
    lemma_pow2_pos(149);
    lemma_counted_exact(s);
    lemma_counted_exact(b);
    lemma_counted(b);
    assert(k <= 0x100_0000) by (nonlinear_arith)
        requires
            k * b < s,
            s <= 0x100_0000,
            b >= 1,
    ;
    lemma_counted_exact(k);
    let (n, d) = ((s * p) * p, b * p);
    assert(d > 0) by (nonlinear_arith)
        requires
            d == b * p,
            b > 0,
            p > 0,
    ;
    let c = counted(k).place();
    let (x, m) = lemma_parts(c);
    let u = pow2(x);
    lemma_pow2_pos(x);
    lemma_nearest_ends(n, d);
    lemma_make(false, nearest(n, d));
    vstd::arithmetic::power2::lemma2_to64();
    vstd::arithmetic::power2::lemma_pow2_strictly_increases(24, 149);
    if k == 0 {
        lemma_one();
        assert(n >= d) by (nonlinear_arith)
            requires
                n == (s * p) * p,
                d == b * p,
                s >= 1,
                b <= p,
                p >= 1,
        ;
        lemma_nearest_is_some(n, d);
    } else {
        assert(x > 0) by {
            if x == 0 {
                assert(m * pow2(0) == m);
                assert(k * p >= p) by (nonlinear_arith)
                    requires
                        k >= 1,
                ;
            }
        }
        assert(0x80_0000 * u <= k * p) by (nonlinear_arith)
            requires
                k * p == m * u,
                m >= 0x80_0000,
        ;
        let middle = (magnitude(c) + magnitude(c + 1)) * d;
        // The next place is no further than 2^-23 of the whole number, which is less than twice 1 / `b`.
        let (kp, bu) = (k * p, b * u);
        assert(bu < 2 * p) by (nonlinear_arith)
            requires
                bu == b * u,
                0x80_0000 * u <= k * p,
                k * b < 0x100_0000,
                b >= 1,
                p >= 1,
        ;
        assert(2 * n > middle) by (nonlinear_arith)
            requires
                n == (s * p) * p,
                middle == (k * p + (k * p + u)) * (b * p),
                s >= k * b + 1,
                b * u < 2 * p,
                p >= 1,
        ;
        lemma_nearest_above(n, d, c);
    }
}

/// The quotient of two counts of up to 24 bits lies between the least number of times that the second
/// covers the first, and one less.
proof fn lemma_quotient_between(s: nat, b: nat, c: nat)
    requires
        s <= 0x100_0000,
        0 < b <= 0x100_0000,
        c <= s,
        s <= c * b,
        s > 0 ==> c >= 1 && (c - 1) * b < s,
    ensures
        ({
            let q = quotient(counted(s), counted(b));
            let v = magnitude(q.place());
            &&& q.is_finite()
            &&& v <= c * pow2(149)
            &&& s > 0 ==> v > (c - 1) * pow2(149)
        }),
{
    let q = quotient(counted(s), counted(b));
    let p = pow2(149);
    lemma_pow2_pos(149);
    lemma_counted_exact(s);
    lemma_counted_exact(b);
    lemma_counted_exact(c);
    lemma_counted(b);
    let (n, d) = ((s * p) * p, b * p);
    assert(d > 0) by (nonlinear_arith)
        requires
            d == b * p,
            b > 0,
            p > 0,
    ;
    lemma_nearest_exact(counted(c).place(), d);
    let top = (c * p) * d;
    assert(n <= top) by (nonlinear_arith)
        requires
            n == (s * p) * p,
            top == (c * p) * (b * p),
            s <= c * b,
    ;
    assert(n * d <= top * d) by (nonlinear_arith)
        requires
            n <= top,
    ;
    lemma_nearest_grows(n, d, top, d);
    lemma_make(false, nearest(n, d));
    lemma_magnitude_grows(q.place(), counted(c).place());
    if s > 0 {
        lemma_quotient_above(s, b, (c - 1) as nat);
        lemma_counted_exact((c - 1) as nat);
        lemma_magnitude_grows(counted((c - 1) as nat).place(), q.place());
    }
}

/// The quotient of a count of up to 24 bits and a larger one lies between 0 and 1, and is 0 only where
/// the first is.
proof fn lemma_quotient_by_larger(s: nat, b: nat)
    requires
        s <= 0x100_0000,
        s < b <= 0xffff_ffff_ffff_ffff,
    ensures
        ({
            let q = quotient(counted(s), counted(b));
            let v = magnitude(q.place());
            &&& q.is_finite()
            &&& v <= pow2(149)
            &&& v > 0 <==> s > 0
        }),
{
    let q = quotient(counted(s), counted(b));
    let p = pow2(149);
    lemma_pow2_pos(149);
    lemma_counted_exact(s);
    lemma_counted(s);
    lemma_counted(b);
    lemma_counted_grows(s, b);
    lemma_quotient_grows(counted(s), counted(b), counted(b));
    lemma_quotient_of_itself(counted(b));
    lemma_one();
    lemma_magnitude_grows(q.place(), ONE as nat);
    if s == 0 {
        lemma_quotient_of_zero(counted(s), counted(b));
        lemma_magnitude_grows(0, 0);
    } else {
        let (n, d) = (magnitude(counted(s).place()) * p, magnitude(counted(b).place()));
        lemma_magnitude_grows(0, counted(b).place());
        let top = lemma_representable(1, 213);
        vstd::arithmetic::power2::lemma2_to64();
        lemma_pow2_adds(64, 149);
        lemma_counted_grows(b, 0x1_0000_0000_0000_0000);
        assert(1 * pow2(213) == 0x1_0000_0000_0000_0000 * p);
        lemma_make(false, top);
        lemma_magnitude_grows(counted(b).place(), top);
        lemma_pow2_adds(64, 85);
        lemma_pow2_pos(85);
        assert(n >= d) by (nonlinear_arith)
            requires
                n == (s * p) * p,
                d <= 0x1_0000_0000_0000_0000 * p,
                s >= 1,
                p == 0x1_0000_0000_0000_0000 * pow2(85),
                pow2(85) >= 1,
        ;
        lemma_nearest_is_some(n, d);
        lemma_nearest_ends(n, d);
        lemma_make(false, nearest(n, d));
        lemma_magnitude_grows(1, q.place());
    }
}

/// What lies above `c - 1` and not above `c` is raised to `c`.
proof fn lemma_raised_to(v: int, p: int, c: int)
    requires
        p > 0,
        (c - 1) * p < v <= c * p,
    ensures
        (v + p - 1) / p == c,
{
    assert((c - 1) * p == c * p - p) by (nonlinear_arith);
    vstd::arithmetic::div_mod::lemma_fundamental_div_mod_converse(
        v + p - 1,
        p,
        c,
        v + p - 1 - c * p,
    );
}

/// The quotient of two counts, of which the first has up to 24 bits, raised to a whole number, is the
/// least number of times that the second covers the first.
pub proof fn lemma_raised_quotient(s: nat, b: nat)
    requires
        s <= 0x100_0000,
        0 < b <= 0xffff_ffff_ffff_ffff,
    ensures
        ({
            let q = quotient(counted(s), counted(b));
            let r = raised_whole(q);
            &&& q.is_finite()
            &&& r * b >= s
            &&& s > 0 ==> (r - 1) * b < s
            &&& r <= s
        }),
{
    let q = quotient(counted(s), counted(b));
    let v = magnitude(q.place()) as int;
    let p = pow2(149) as int;
    lemma_pow2_pos(149);
    if s < b {
        lemma_quotient_by_larger(s, b);
        let c: int = if s > 0 {
            1
        } else {
            0
        };
        assert(1 * p == p && 0 * p == 0 && (-1) * p == -p);
        lemma_raised_to(v, p, c);
        assert(1 * b == b && 0 * b == 0);
    } else {
        let (t, d) = (s + b - 1, b as int);
        let c = t / d;
        vstd::arithmetic::div_mod::lemma_fundamental_div_mod(t, d);
        let rest = t % d;
        assert(c * d >= s && (c - 1) * d < s && 1 <= c <= s) by (nonlinear_arith)
            requires
                t == d * c + rest,
                0 <= rest < d,
                t == s + d - 1,
                d >= 1,
                s >= d,
        ;
        lemma_quotient_between(s, b, c as nat);
        lemma_raised_to(v, p, c);
    }
}

/// What is rounded to a place lies no nearer to the places beside it.
proof fn lemma_nearest_between(n: nat)
    requires
        1 <= nearest(n, 1) < INFINITY,
    ensures
        ({
            let b = nearest(n, 1);
            magnitude((b - 1) as nat) + magnitude(b) <= 2 * n <= magnitude(b) + magnitude(b + 1)
        }),
{
    reveal(nearest);
    lemma_below(n, 1);
    let c = below(n, 1);
    let b = nearest(n, 1);
    assert(magnitude(c) * 1 == magnitude(c) && magnitude(c + 1) * 1 == magnitude(c + 1));
    assert((magnitude(c) + magnitude(c + 1)) * 1 == magnitude(c) + magnitude(c + 1));
    lemma_parts((b - 1) as nat);
    lemma_parts(b);
}

/// From 1 on, and just below it, magnitudes are multiples of 2^118 units.
proof fn lemma_magnitude_multiple(b: nat) -> (q: nat)
    requires
        b >= ONE - 1,
    ensures
        magnitude(b) == q * pow2(118),
{
    let (x, m) = lemma_parts(b);
    assert(x >= 125);
    lemma_pow2_adds((x - 118) as nat, 118);
    let (u, p) = (pow2((x - 118) as nat), pow2(118));
    assert(m * (u * p) == (m * u) * p) by (nonlinear_arith);
    m * u
}

/// The square root of a whole number is the number nearest to it: the exact root, whose square is the whole
/// number, lies no nearer to the numbers beside it.
pub proof fn law_roots_are_the_nearest(c: nat)
    requires
        1 <= c <= 0x1_0000_0000,
    ensures
        ({
            let b = square_root(c).place();
            let (low, high) = (
                magnitude((b - 1) as nat) + magnitude(b),
                magnitude(b) + magnitude(b + 1),
            );
            &&& square_root(c).is_finite()
            &&& !square_root(c).negative()
            &&& b >= 1
            &&& low * low <= 4 * c * pow2(298) <= high * high
        }),
{
    lemma_square_root(c);
    let s = c * pow2(64);
    lemma_floor_root(s);
    let r = floor_root(s);
    vstd::arithmetic::power2::lemma2_to64();
    assert(r >= 0x1_0000_0000) by (nonlinear_arith)
        requires
            s < (r + 1) * (r + 1),
            s == c * 0x1_0000_0000_0000_0000,
            c >= 1,
            r >= 0,
    ;
    let rest: nat = if r * r < s {
        1
    } else {
        0
    };
    let w = 2 * r + rest;
    let u = pow2(116);
    let n = w * u;
    lemma_nearest_ends(n, 1);
    lemma_make(false, nearest(n, 1));
    let b = square_root(c).place();
    assert(b == nearest(n, 1));
    lemma_one();
    lemma_pow2_adds(33, 116);
    vstd::arithmetic::power2::lemma2_to64_rest();
    assert(pow2(149) <= n) by (nonlinear_arith)
        requires
            n == w * u,
            w >= 0x2_0000_0000,
            pow2(149) == 0x2_0000_0000 * u,
    ;
    lemma_nearest_exact(ONE as nat, 1);
    assert(magnitude(ONE as nat) * 1 == pow2(149));
    lemma_nearest_grows(pow2(149), 1, n, 1);
    assert(b >= ONE);
    lemma_nearest_between(n);
    let x = lemma_magnitude_multiple((b - 1) as nat);
    let y = lemma_magnitude_multiple(b);
    let z = lemma_magnitude_multiple(b + 1);
    let p = pow2(118);
    lemma_pow2_unfold(118);
    lemma_pow2_unfold(117);
    lemma_pow2_pos(116);
    let (low, high) = (magnitude((b - 1) as nat) + magnitude(b), magnitude(b) + magnitude(b + 1));
    let (q, t) = (x + y, y + z);
    assert(low == q * p && high == t * p) by (nonlinear_arith)
        requires
            low == x * p + y * p,
            high == y * p + z * p,
            q == x + y,
            t == y + z,
    ;
    assert(2 * q <= w <= 2 * t) by (nonlinear_arith)
        requires
            q * p <= 2 * n,
            2 * n <= t * p,
            n == w * u,
            p == 4 * u,
            u > 0,
    ;
    assert(q <= r);
    assert(q * q <= r * r) by (nonlinear_arith)
        requires
            0 <= q <= r,
    ;
    if rest == 0 {
        assert(r * r <= t * t) by (nonlinear_arith)
            requires
                0 <= r <= t,
        ;
    } else {
        assert((r + 1) * (r + 1) <= t * t) by (nonlinear_arith)
            requires
                0 <= r,
                r + 1 <= t,
        ;
    }
    assert(q * q <= s <= t * t);
    lemma_pow2_adds(118, 118);
    lemma_pow2_adds(64, 236);
    lemma_pow2_unfold(300);
    lemma_pow2_unfold(299);
    let e = pow2(236);
    assert(low * low == (q * q) * e && high * high == (t * t) * e) by (nonlinear_arith)
        requires
            low == q * p,
            high == t * p,
            e == p * p,
    ;
    assert((q * q) * e <= s * e && s * e <= (t * t) * e) by (nonlinear_arith)
        requires
            q * q <= s <= t * t,
            e >= 0,
    ;
    assert(s * e == 4 * c * pow2(298)) by (nonlinear_arith)
        requires
            s == c * pow2(64),
            pow2(64) * e == 4 * pow2(298),
    ;
}

/// The square root of a square is its root.
pub proof fn law_roots_of_squares_are_whole(k: nat)
    requires
        1 <= k <= 0x1_0000,
    ensures
        square_root(k * k) == counted(k),
{
    let p = pow2(32);
    let s = k * k * pow2(64);
    lemma_pow2_adds(32, 32);
    let r = k * p;
    assert(s == r * r && s < (r + 1) * (r + 1)) by (nonlinear_arith)
        requires
            s == k * k * pow2(64),
            pow2(64) == p * p,
            r == k * p,
    ;
    lemma_floor_root(s);
    let q = floor_root(s);
    assert(q == r) by (nonlinear_arith)
        requires
            q * q <= s,
            s < (q + 1) * (q + 1),
            s == r * r,
            q >= 0,
            r >= 0,
    ;
    lemma_pow2_adds(32, 116);
    lemma_pow2_unfold(149);
    assert((2 * r + 0) * pow2(116) == k * pow2(149)) by (nonlinear_arith)
        requires
            r == k * p,
            p * pow2(116) == pow2(148),
            pow2(149) == 2 * pow2(148),
    ;
}

/// A count that is held as a single-precision number is a whole number.
pub proof fn lemma_counted_is_whole(n: nat)
    ensures
        counted(n).value() == whole_part(counted(n)) * pow2(149),
        n <= 0x100_0000 ==> whole_part(counted(n)) == n,
{
    let p = pow2(149) as int;
    lemma_pow2_pos(149);
    if n <= 0x100_0000 {
        lemma_counted_exact(n);
        assert(p * n == n * p) by (nonlinear_arith);
        vstd::arithmetic::div_mod::lemma_div_multiples_vanish(n as int, p);
    } else {
        let top = lemma_representable(0x80_0000, 150);
        lemma_counted_grows(n, n);
        lemma_counted_grows(0x100_0000, n);
        lemma_pow2_unfold(150);
        assert(0x80_0000 * pow2(150) == 0x100_0000 * pow2(149));
        lemma_magnitude_at(150, 0x80_0000);
        lemma_nearest_exact((150 * 0x80_0000 + 0x80_0000) as nat, 1);
        assert(magnitude((150 * 0x80_0000 + 0x80_0000) as nat) * 1 == 0x100_0000 * pow2(149));
        lemma_make(false, (150 * 0x80_0000 + 0x80_0000) as nat);
        let (x, m) = lemma_parts(counted(n).place());
        assert(x >= 149);
        lemma_pow2_adds((x - 149) as nat, 149);
        let u = pow2((x - 149) as nat) as int;
        assert(m * (u * p) == p * (m * u) && (m * u) * p == p * (m * u)) by (nonlinear_arith);
        vstd::arithmetic::div_mod::lemma_div_multiples_vanish(m * u, p);
    }
}

/// No magnitude lies nearer to `n / d` than the nearest one.
pub proof fn law_nearest_is_nearest(n: nat, d: nat, x: nat)
    requires
        d > 0,
        nearest(n, d) < INFINITY,
    ensures
        ({
            let (near, far) = (magnitude(nearest(n, d)) * d - n, magnitude(x) * d - n);
            (if near < 0 {
                -near
            } else {
                near
            }) <= (if far < 0 {
                -far
            } else {
                far
            })
        }),
{
    reveal(nearest);
    lemma_below(n, d);
    let b = below(n, d);
    let (lo, hi, at) = (magnitude(b), magnitude(b + 1), magnitude(x));
    assert((lo + hi) * d == lo * d + hi * d) by (nonlinear_arith);
    if x <= b {
        lemma_magnitude_grows(x, b);
        assert(at * d <= lo * d) by (nonlinear_arith)
            requires
                at <= lo,
        ;
    } else {
        lemma_magnitude_grows(b + 1, x);
        assert(hi * d <= at * d) by (nonlinear_arith)
            requires
                hi <= at,
        ;
    }
}

/// A sum of finite numbers, where it is finite, is the number nearest to the exact sum.
pub proof fn law_sums_are_nearest(a: Single, b: Single, x: Single)
    requires
        a.is_finite(),
        b.is_finite(),
        x.is_finite(),
        sum(a, b).is_finite(),
    ensures
        ({
            let exact = a.value() + b.value();
            let (near, far) = (sum(a, b).value() - exact, x.value() - exact);
            (if near < 0 {
                -near
            } else {
                near
            }) <= (if far < 0 {
                -far
            } else {
                far
            })
        }),
{
    lemma_sum(a, b);
    let n = a.value() + b.value();
    let m = (if n < 0 {
        -n
    } else {
        n
    }) as nat;
    lemma_magnitude_grows(0, x.place());
    lemma_magnitude_grows(0, sum(a, b).place());
    lemma_nearest_exact(0, 1);
    assert(magnitude(0) * 1 == 0);
    law_nearest_is_nearest(m, 1, x.place());
    law_nearest_is_nearest(m, 1, 0);
    assert(magnitude(x.place()) * 1 == magnitude(x.place()));
    assert(magnitude(nearest(m, 1)) * 1 == magnitude(nearest(m, 1)));
}

/// A product of finite numbers, where it is finite, is the number nearest to the exact product.
pub proof fn law_products_are_nearest(a: Single, b: Single, x: nat)
    requires
        a.is_finite(),
        b.is_finite(),
        product(a, b).is_finite(),
    ensures
        product(a, b).negative() == (a.negative() != b.negative()),
        ({
            let exact = magnitude(a.place()) * magnitude(b.place());
            let near = magnitude(product(a, b).place()) * pow2(149) - exact;
            let far = magnitude(x) * pow2(149) - exact;
            (if near < 0 {
                -near
            } else {
                near
            }) <= (if far < 0 {
                -far
            } else {
                far
            })
        }),
{
    lemma_product(a, b);
    lemma_pow2_pos(149);
    law_nearest_is_nearest(magnitude(a.place()) * magnitude(b.place()), pow2(149), x);
}

/// A quotient of finite numbers, where it is finite, is the number nearest to the exact quotient.
pub proof fn law_quotients_are_nearest(a: Single, b: Single, x: nat)
    requires
        a.is_finite(),
        b.is_finite(),
        b.place() > 0,
        quotient(a, b).is_finite(),
    ensures
        quotient(a, b).negative() == (a.negative() != b.negative()),
        ({
            let exact = magnitude(a.place()) * pow2(149);
            let near = magnitude(quotient(a, b).place()) * magnitude(b.place()) - exact;
            let far = magnitude(x) * magnitude(b.place()) - exact;
            (if near < 0 {
                -near
            } else {
                near
            }) <= (if far < 0 {
                -far
            } else {
                far
            })
        }),
{
    let (n, d) = (magnitude(a.place()) * pow2(149), magnitude(b.place()));
    lemma_magnitude_grows(0, b.place());
    lemma_nearest_ends(n, d);
    lemma_make(a.negative() != b.negative(), nearest(n, d));
    law_nearest_is_nearest(n, d, x);
}

/// Half of a number that is an even multiple of the smallest magnitude is exactly half of it.
pub proof fn law_halves_are_exact(a: Single)
    requires
        a.is_finite(),
        magnitude(a.place()) % 2 == 0,
    ensures
        2 * quotient(a, Single { bits: 0x4000_0000 }).value() == a.value(),
        quotient(a, Single { bits: 0x4000_0000 }).is_finite(),
{
    let two = Single { bits: 0x4000_0000 };
    lemma_magnitude_at(127, 0x80_0000);
    vstd::arithmetic::power2::lemma2_to64();
    lemma_pow2_adds(23, 127);
    lemma_pow2_unfold(150);
    let (x, m) = lemma_parts(a.place());
    let b: nat = if x == 0 {
        assert(m * pow2(0) == m);
        lemma_magnitude_at(0, m / 2);
        assert((m / 2) * pow2(0) == m / 2);
        m / 2
    } else {
        lemma_magnitude_at((x - 1) as nat, m);
        lemma_pow2_unfold(x);
        let p = pow2((x - 1) as nat);
        assert(m * (2 * p) == 2 * (m * p)) by (nonlinear_arith);
        ((x - 1) * 0x80_0000 + m) as nat
    };
    let d = magnitude(two.place());
    assert(magnitude(a.place()) * pow2(149) == magnitude(b) * d) by (nonlinear_arith)
        requires
            magnitude(a.place()) == 2 * magnitude(b),
            d == 2 * pow2(149),
    ;
    lemma_pow2_pos(149);
    lemma_nearest_exact(b, d);
    lemma_make(a.negative() != two.negative(), b);
}

/// How far apart two numbers are.
pub open spec fn apart(a: int, b: int) -> int {
    if a < b {
        b - a
    } else {
        a - b
    }
}

/// Rounding is off by no more than 2^-24 of what is rounded, or by half a unit where that is more.
pub proof fn law_rounding_is_off_by_little(n: nat, d: nat)
    requires
        d > 0,
        nearest(n, d) < INFINITY,
    ensures
        0x100_0000 * apart((magnitude(nearest(n, d)) * d) as int, n as int) <= n + 0x80_0000 * d,
{
    reveal(nearest);
    lemma_below(n, d);
    let b = below(n, d);
    let (x, m) = lemma_parts(b);
    let u = pow2(x);
    lemma_pow2_pos(x);
    let (lo, hi) = (magnitude(b) * d, magnitude(b + 1) * d);
    assert(hi == lo + u * d && (magnitude(b) + magnitude(b + 1)) * d == lo + hi) by (nonlinear_arith)
        requires
            lo == magnitude(b) * d,
            hi == magnitude(b + 1) * d,
            magnitude(b + 1) == magnitude(b) + u,
    ;
    let off = apart((magnitude(nearest(n, d)) * d) as int, n as int);
    assert(2 * off <= u * d);
    if x == 0 {
        vstd::arithmetic::power2::lemma2_to64();
        assert(u == 1);
        assert(u * d == d);
    } else {
        assert(0x80_0000 * (u * d) <= lo) by (nonlinear_arith)
            requires
                lo == m * u * d,
                m >= 0x80_0000,
                u >= 0,
                d >= 0,
        ;
    }
}

/// Half way between two neighbours, the one at the even place is taken.
pub proof fn law_halves_go_to_the_even_place(n: nat, d: nat, b: nat)
    requires
        d > 0,
        b + 1 < INFINITY,
        2 * n == (magnitude(b) + magnitude(b + 1)) * d,
    ensures
        nearest(n, d) == b || nearest(n, d) == b + 1,
        nearest(n, d) % 2 == 0,
{
    reveal(nearest);
    lemma_magnitude_grows(b, b + 1);
    let (lo, hi) = (magnitude(b), magnitude(b + 1));
    assert(lo * d <= n < hi * d) by (nonlinear_arith)
        requires
            2 * n == (lo + hi) * d,
            lo < hi,
            d > 0,
    ;
    lemma_below_is(n, d, b);
}

/// What is left of a number without its decimals, the whole number nearest to it, with a half going up, and
/// the least one that is not below it.
pub proof fn law_whole_numbers_lie_around(a: Single)
    ensures
        ({
            let (m, one) = (magnitude(a.place()) as int, pow2(149) as int);
            &&& whole_part(a) * one <= m < (whole_part(a) + 1) * one
            &&& (2 * crate::single::rounded_whole(a) - 1) * one <= 2 * m < (2 * crate::single::rounded_whole(a) + 1) * one
            &&& (raised_whole(a) - 1) * one < m <= raised_whole(a) * one
        }),
{
    let (m, one) = (magnitude(a.place()) as int, pow2(149) as int);
    lemma_pow2_pos(149);
    vstd::arithmetic::div_mod::lemma_fundamental_div_mod(m, one);
    vstd::arithmetic::div_mod::lemma_fundamental_div_mod(2 * m + one, 2 * one);
    vstd::arithmetic::div_mod::lemma_fundamental_div_mod(m + one - 1, one);
    vstd::arithmetic::div_mod::lemma_div_pos_is_pos(m + one - 1, one);
    let (w, r, u) = (m / one, (2 * m + one) / (2 * one), (m + one - 1) / one);
    assert(one * w == w * one && (w + 1) * one == w * one + one) by (nonlinear_arith);
    assert((2 * one) * r == 2 * (r * one) && (2 * r - 1) * one == 2 * (r * one) - one && (2 * r + 1)
        * one == 2 * (r * one) + one) by (nonlinear_arith);
    assert(one * u == u * one && (u - 1) * one == u * one - one) by (nonlinear_arith);
}

} // verus!
