//! How many edits a step may make.

use vstd::prelude::*;
use vstd::arithmetic::power2::pow2;
use crate::cosine;
use crate::rank;
use crate::single;
use crate::single::Single;
use crate::single_laws;
use crate::text;
use crate::types::{Edit, EditView};

verus! {

/// How the edit budget goes over a run.
pub enum LrSchedule {
    Constant,
    Linear,
    Cosine,
    Autonomous,
}

/// The schedule that a name stands for; a name that is not known stands for `Cosine`.
pub open spec fn schedule_named(s: Seq<char>) -> LrSchedule {
    if s == "constant"@ {
        LrSchedule::Constant
    } else if s == "linear"@ {
        LrSchedule::Linear
    } else if s == "autonomous"@ {
        LrSchedule::Autonomous
    } else {
        LrSchedule::Cosine
    }
}

impl LrSchedule {
    /// The schedule that a name stands for.
    pub fn from_str(s: &str) -> (r: Self)
        ensures
            r == schedule_named(s@),
    {
        if text::same_str(s, "constant") {
            LrSchedule::Constant
        } else if text::same_str(s, "linear") {
            LrSchedule::Linear
        } else if text::same_str(s, "autonomous") {
            LrSchedule::Autonomous
        } else {
            LrSchedule::Cosine
        }
    }
}

// ---------------------------------------------------------------------------------------------
// The budget
// ---------------------------------------------------------------------------------------------

/// The configured budget, and at least one edit.
pub open spec fn base_of(base_lr: u32) -> nat {
    if base_lr < 1 {
        1
    } else {
        base_lr as nat
    }
}

/// How far a run has come: the share of its steps, and at most 1.
pub open spec fn progress(step: u32, total: u32) -> Single {
    let q = single::quotient(single::counted(step as nat), single::counted(total as nat));
    if single::less(single::one(), q) {
        single::one()
    } else {
        q
    }
}

/// How far the budget goes down: base - 1.
pub open spec fn span(base: Single) -> Single {
    single::difference(base, single::one())
}

/// The budget of the linear schedule: base - (base - 1) * progress, at least 1.
pub open spec fn on_line(base: Single, progress: Single) -> Single {
    let v = single::difference(base, single::product(span(base), progress));
    if single::less(v, single::one()) {
        single::one()
    } else {
        v
    }
}

/// The weight of the cosine schedule: 1 + cos(pi * progress).
pub open spec fn cosine_weight(progress: Single) -> Single {
    single::sum(
        single::one(),
        cosine::cosine_of(single::product(Single { bits: cosine::PI }, progress)),
    )
}

/// The budget of the cosine schedule: 1 + (base - 1) / 2 * (1 + cos(pi * progress)).
pub open spec fn on_wave(base: Single, progress: Single) -> Single {
    single::sum(
        single::one(),
        single::product(
            single::product(Single { bits: single::HALF }, span(base)),
            cosine_weight(progress),
        ),
    )
}

/// `v` rounded to a whole number, between 1 and `top`.
pub open spec fn rounded(v: Single, top: nat) -> nat {
    let r = single::rounded_whole(v);
    if r < 1 {
        1
    } else if r > top {
        top
    } else {
        r
    }
}

/// The edit budget at a step.
///
/// `Constant` and `Autonomous` keep the base. `Linear` goes from the base to 1 in a straight line,
/// `Cosine` along half a wave of the cosine; both are computed in single precision and rounded to a
/// whole number, which is never above the base.
pub open spec fn budget(sched: LrSchedule, step: u32, total: u32, base_lr: u32) -> nat {
    let top = base_of(base_lr);
    let base = single::counted(top);
    if total == 0 {
        top
    } else {
        match sched {
            LrSchedule::Constant => top,
            LrSchedule::Autonomous => top,
            LrSchedule::Linear => rounded(on_line(base, progress(step, total)), top),
            LrSchedule::Cosine => rounded(on_wave(base, progress(step, total)), top),
        }
    }
}

/// A number between 0 and 1, without a minus sign.
pub open spec fn is_share(p: Single) -> bool {
    !p.negative() && p.place() <= single::ONE
}

/// A number between 0 and 1 lies within 1.
proof fn lemma_share_within(p: Single)
    requires
        is_share(p),
    ensures
        single_laws::within(p, 149),
{
    single_laws::lemma_one();
    single::lemma_magnitude_grows(p.place(), single::ONE as nat);
}

/// The progress is a share and grows with the step; it is 0 at the first step and 1 when the run is over.
proof fn lemma_progress(a: u32, b: u32, total: u32)
    requires
        a <= b,
        total > 0,
    ensures
        is_share(progress(a, total)),
        is_share(progress(b, total)),
        progress(a, total).place() <= progress(b, total).place(),
        progress(0, total) == single::zero(),
        b >= total ==> progress(b, total) == single::one(),
{
    let (s, e, t) = (
        single::counted(a as nat),
        single::counted(b as nat),
        single::counted(total as nat),
    );
    single_laws::lemma_counted(a as nat);
    single_laws::lemma_counted(b as nat);
    single_laws::lemma_counted(total as nat);
    single_laws::lemma_counted_grows(a as nat, b as nat);
    single_laws::lemma_quotient_grows(s, e, t);
    single_laws::lemma_quotient_grows(e, e, t);
    single_laws::lemma_one();
    single_laws::lemma_quotient_of_zero(single::zero(), t);
    single::lemma_made(single::quotient(single::zero(), t));
    single_laws::lemma_quotient_grows(single::zero(), single::zero(), t);
    if b >= total {
        single_laws::lemma_counted_grows(total as nat, b as nat);
        single_laws::lemma_quotient_grows(t, e, t);
        single_laws::lemma_quotient_of_itself(t);
        single::lemma_made(progress(b, total));
    }
}

/// How far the budget goes down is a number of up to 2^182 units, without a minus sign.
proof fn lemma_span(n: nat)
    requires
        1 <= n <= 0xffff_ffff,
    ensures
        ({
            let base = single::counted(n);
            &&& single_laws::within(base, 181)
            &&& !base.negative()
            &&& base.value() >= pow2(149)
            &&& single_laws::within(span(base), 182)
            &&& !span(base).negative()
            &&& span(base).value() <= base.value()
        }),
{
    let base = single::counted(n);
    let one = single::one();
    let less = single::opposite(one);
    single_laws::lemma_one();
    single_laws::lemma_counted_within(n);
    single_laws::lemma_counted(n);
    single_laws::lemma_counted_grows(1, n);
    single::lemma_order(one, base);
    single::lemma_make(true, single::ONE as nat);
    lemma_share_within(one);
    single_laws::lemma_within(one, 149, 181);
    assert(single_laws::within(less, 181));
    single_laws::lemma_sum_within(base, less, 181);
    single_laws::lemma_sum(base, less);
    single_laws::lemma_exact(base);
    let d = base.value() + less.value();
    if d > 0 {
        single::lemma_nearest_grows(d as nat, 1, base.value() as nat, 1);
        single::lemma_magnitude_grows(span(base).place(), base.place());
    } else {
        single::lemma_make(false, 0);
        single::lemma_magnitude_grows(0, 0);
    }
}

/// The budget on the line is a number of at least 1 and falls as the run goes on.
proof fn lemma_on_line(n: nat, p: Single, q: Single)
    requires
        1 <= n <= 0xffff_ffff,
        is_share(p),
        is_share(q),
        p.place() <= q.place(),
    ensures
        ({
            let base = single::counted(n);
            let (u, v) = (on_line(base, p), on_line(base, q));
            &&& u.is_finite() && v.is_finite()
            &&& !u.negative() && !v.negative()
            &&& v.place() <= u.place()
        }),
{
    let base = single::counted(n);
    let l = span(base);
    lemma_span(n);
    lemma_taken(n, p);
    lemma_taken(n, q);
    single_laws::lemma_product_grows(p, q, l);
    single_laws::lemma_product_commutes(p, l);
    single_laws::lemma_product_commutes(q, l);
    let (s, t) = (single::product(l, p), single::product(l, q));
    let (x, y) = (single::opposite(s), single::opposite(t));
    single::lemma_make(!s.negative(), s.place());
    single::lemma_make(!t.negative(), t.place());
    single::lemma_order(s, t);
    single_laws::lemma_sum_grows(y, x, base);
    single_laws::lemma_sum_commutes(x, base);
    single_laws::lemma_sum_commutes(y, base);
    single::lemma_made(on_line(base, p));
    single::lemma_made(on_line(base, q));
}

/// What the linear schedule takes off the base, and what it leaves.
proof fn lemma_taken(n: nat, p: Single)
    requires
        1 <= n <= 0xffff_ffff,
        is_share(p),
    ensures
        ({
            let base = single::counted(n);
            let t = single::product(span(base), p);
            &&& single_laws::within(t, 182)
            &&& !t.negative()
            &&& single::difference(base, t).is_finite()
        }),
{
    let base = single::counted(n);
    let l = span(base);
    lemma_span(n);
    lemma_share_within(p);
    single_laws::lemma_product_within(l, p, 182, 149);
    single_laws::lemma_product(l, p);
    let t = single::product(l, p);
    single::lemma_make(!t.negative(), t.place());
    single_laws::lemma_within(base, 181, 182);
    assert(single_laws::within(single::opposite(t), 182));
    single_laws::lemma_sum_within(base, single::opposite(t), 182);
}

/// Pi times the progress lies in the half turn, and grows with the progress.
proof fn lemma_turn(p: Single, q: Single)
    requires
        is_share(p),
        is_share(q),
        p.place() <= q.place(),
    ensures
        ({
            let pi = Single { bits: cosine::PI };
            let (x, y) = (single::product(pi, p), single::product(pi, q));
            &&& cosine::in_half_turn(x)
            &&& cosine::in_half_turn(y)
            &&& x.place() <= y.place()
            &&& p.place() == 0 ==> x.place() == 0
            &&& q == single::one() ==> y.place() == cosine::PI
        }),
{
    let pi = Single { bits: cosine::PI };
    let one = single::one();
    assert(!pi.negative() && pi.place() == cosine::PI);
    single_laws::lemma_product_grows(p, q, pi);
    single_laws::lemma_product_grows(q, one, pi);
    single_laws::lemma_product_one(pi);
    single_laws::lemma_product_commutes(p, pi);
    single_laws::lemma_product_commutes(q, pi);
    single_laws::lemma_product_commutes(one, pi);
    single_laws::lemma_product(pi, p);
    single_laws::lemma_product(pi, q);
    if p.place() == 0 {
        single::lemma_made(p);
        assert(p == single::zero());
        single_laws::lemma_product_zero(pi);
    }
}

/// The weight of the cosine schedule lies between 0 and 2 and falls as the run goes on.
pub proof fn law_cosine_weight_falls(p: Single, q: Single)
    requires
        is_share(p),
        is_share(q),
        single::at_most(p, q),
    ensures
        single::at_most(cosine_weight(q), cosine_weight(p)),
        single::at_most(single::zero(), cosine_weight(q)),
        !cosine_weight(p).negative(),
        !cosine_weight(q).negative(),
        single_laws::within(cosine_weight(p), 150),
        single_laws::within(cosine_weight(q), 150),
        p.place() == 0 ==> cosine_weight(p).value() == 2 * pow2(149),
        q == single::one() ==> cosine_weight(q) == single::zero(),
{
    let pi = Single { bits: cosine::PI };
    let one = single::one();
    lemma_turn(p, q);
    let (x, y) = (single::product(pi, p), single::product(pi, q));
    cosine::law_cosine_falls(x, y);
    let (c, d) = (cosine::cosine_of(x), cosine::cosine_of(y));
    single::lemma_make(true, single::ONE as nat);
    single_laws::lemma_one();
    single::lemma_order(d, c);
    single::lemma_order(c, one);
    single::lemma_order(single::opposite(one), d);
    assert(c.place() <= single::ONE && d.place() <= single::ONE);
    single::lemma_magnitude_grows(c.place(), single::ONE as nat);
    single::lemma_magnitude_grows(d.place(), single::ONE as nat);
    single_laws::lemma_sum_grows(d, c, one);
    single_laws::lemma_sum_commutes(c, one);
    single_laws::lemma_sum_commutes(d, one);
    single_laws::lemma_sum(one, c);
    single_laws::lemma_sum(one, d);
    single_laws::lemma_sum_within(one, c, 149);
    single_laws::lemma_sum_within(one, d, 149);
    single::lemma_make(false, 0);
    if p.place() == 0 {
        let two = Single { bits: 0x4000_0000 };
        single::lemma_magnitude_at(127, 0x80_0000);
        vstd::arithmetic::power2::lemma2_to64();
        vstd::arithmetic::power2::lemma_pow2_adds(23, 127);
        vstd::arithmetic::power2::lemma_pow2_unfold(150);
        single_laws::lemma_sum_exact(one, c, two);
    }
}

/// The budget on the wave is a number of at least 0 and falls as the run goes on.
proof fn lemma_on_wave(n: nat, p: Single, q: Single)
    requires
        1 <= n <= 0xffff_ffff,
        is_share(p),
        is_share(q),
        p.place() <= q.place(),
    ensures
        ({
            let base = single::counted(n);
            let (u, v) = (on_wave(base, p), on_wave(base, q));
            &&& u.is_finite() && v.is_finite()
            &&& !u.negative() && !v.negative()
            &&& v.place() <= u.place()
        }),
{
    let base = single::counted(n);
    let (l, one, half) = (span(base), single::one(), Single { bits: single::HALF });
    lemma_span(n);
    lemma_share_within(half);
    single_laws::lemma_product_within(half, l, 149, 182);
    single_laws::lemma_product(half, l);
    let h = single::product(half, l);
    law_cosine_weight_falls(p, q);
    let (w, z) = (cosine_weight(p), cosine_weight(q));
    single_laws::lemma_product_within(h, w, 182, 150);
    single_laws::lemma_product_within(h, z, 182, 150);
    single_laws::lemma_product(h, w);
    single_laws::lemma_product(h, z);
    single_laws::lemma_product_grows(z, w, h);
    single_laws::lemma_product_commutes(z, h);
    single_laws::lemma_product_commutes(w, h);
    let (s, t) = (single::product(h, w), single::product(h, z));
    single_laws::lemma_one();
    lemma_share_within(one);
    single_laws::lemma_within(one, 149, 183);
    single::lemma_order(t, s);
    single_laws::lemma_sum_grows(t, s, one);
    single_laws::lemma_sum_commutes(s, one);
    single_laws::lemma_sum_commutes(t, one);
    single_laws::lemma_sum_within(one, s, 183);
    single_laws::lemma_sum_within(one, t, 183);
    single::lemma_magnitude_grows(0, s.place());
    single::lemma_magnitude_grows(0, t.place());
    vstd::arithmetic::power2::lemma_pow2_pos(149);
    single_laws::lemma_sum(one, s);
    single_laws::lemma_sum(one, t);
}

/// Where single precision holds the base as it is, the line goes from the base to 1.
proof fn lemma_line_ends(n: nat)
    requires
        1 <= n <= 0x100_0000,
    ensures
        ({
            let base = single::counted(n);
            &&& on_line(base, single::zero()).place() == base.place()
            &&& on_line(base, single::one()).place() == single::ONE
        }),
{
    let base = single::counted(n);
    let (l, one, zero) = (span(base), single::one(), single::zero());
    lemma_span(n);
    lemma_span_exact(n);
    single_laws::lemma_one();
    single::lemma_order(one, base);
    single_laws::lemma_product_zero(l);
    single_laws::lemma_product_one(l);
    let none = single::product(l, zero);
    single::lemma_make(!none.negative(), none.place());
    single::lemma_make(!l.negative(), l.place());
    single::lemma_magnitude_grows(0, 0);
    single_laws::lemma_sum_exact(base, single::opposite(none), base);
    assert(n * pow2(149) - (n - 1) * pow2(149) == pow2(149)) by (nonlinear_arith);
    single_laws::lemma_sum_exact(base, single::opposite(l), one);
    single_laws::lemma_sum(base, single::opposite(none));
    single_laws::lemma_sum(base, single::opposite(l));
    vstd::arithmetic::power2::lemma_pow2_pos(149);
}

/// Where single precision holds the base as it is, it holds how far the budget goes down, too.
proof fn lemma_span_exact(n: nat)
    requires
        1 <= n <= 0x100_0000,
    ensures
        single::counted(n).value() == n * pow2(149),
        span(single::counted(n)).value() == (n - 1) * pow2(149),
{
    let (base, one) = (single::counted(n), single::one());
    single_laws::lemma_one();
    single_laws::lemma_counted_exact(n);
    single_laws::lemma_counted_exact((n - 1) as nat);
    single::lemma_make(true, single::ONE as nat);
    assert(n * pow2(149) - pow2(149) == (n - 1) * pow2(149)) by (nonlinear_arith);
    single_laws::lemma_sum_exact(base, single::opposite(one), single::counted((n - 1) as nat));
}

/// Where single precision holds the base as it is, the wave goes from the base to 1.
proof fn lemma_wave_ends(n: nat)
    requires
        1 <= n <= 0x100_0000,
    ensures
        ({
            let base = single::counted(n);
            &&& on_wave(base, single::zero()).place() == base.place()
            &&& on_wave(base, single::one()).place() == single::ONE
        }),
{
    let base = single::counted(n);
    let (l, one, zero) = (span(base), single::one(), single::zero());
    let half = Single { bits: single::HALF };
    lemma_span(n);
    lemma_span_exact(n);
    single_laws::lemma_one();
    law_cosine_weight_falls(zero, one);
    let (w, z) = (cosine_weight(zero), cosine_weight(one));
    // Half of the span is held as it is.
    let m = (n - 1) as nat;
    let (p, r) = (pow2(148), pow2(149));
    vstd::arithmetic::power2::lemma_pow2_unfold(149);
    single::lemma_magnitude_at(125, 0x80_0000);
    vstd::arithmetic::power2::lemma2_to64();
    vstd::arithmetic::power2::lemma_pow2_adds(23, 125);
    let b = single_laws::lemma_representable(m, 148);
    let middle = single::make(false, b);
    single::lemma_make(false, b);
    assert(p * (m * r) == (m * p) * r) by (nonlinear_arith);
    single_laws::lemma_product_exact(half, l, middle);
    let h = single::product(half, l);
    assert((m * p) * (2 * r) == (m * r) * r) by (nonlinear_arith)
        requires
            r == 2 * p,
    ;
    single_laws::lemma_product_exact(h, w, l);
    single_laws::lemma_product_zero(h);
    let (s, t) = (single::product(h, w), single::product(h, z));
    single::lemma_magnitude_grows(0, 0);
    assert(r + m * r == n * r) by (nonlinear_arith)
        requires
            m == n - 1,
    ;
    single_laws::lemma_sum_exact(one, s, base);
    single_laws::lemma_sum_exact(one, t, one);
    single_laws::lemma_sum(one, s);
    single_laws::lemma_sum(one, t);
    vstd::arithmetic::power2::lemma_pow2_pos(149);
}

/// Rounding keeps the order, and stays between 1 and the top.
proof fn lemma_rounded(a: Single, b: Single, top: nat)
    requires
        a.place() <= b.place(),
        top >= 1,
    ensures
        1 <= rounded(a, top) <= rounded(b, top) <= top,
{
    single::lemma_magnitude_grows(a.place(), b.place());
    vstd::arithmetic::power2::lemma_pow2_pos(149);
    let p = pow2(149) as int;
    vstd::arithmetic::div_mod::lemma_div_is_ordered(
        2 * single::magnitude(a.place()) + p,
        2 * single::magnitude(b.place()) + p,
        2 * p,
    );
}

/// A whole number up to the top is rounded to itself.
proof fn lemma_rounded_whole(a: Single, n: nat, top: nat)
    requires
        1 <= n <= top,
        single::magnitude(a.place()) == n * pow2(149),
    ensures
        rounded(a, top) == n,
{
    let p = pow2(149) as int;
    vstd::arithmetic::power2::lemma_pow2_pos(149);
    assert(2 * (n * p) + p == n * (2 * p) + p) by (nonlinear_arith);
    vstd::arithmetic::div_mod::lemma_fundamental_div_mod_converse(
        2 * (n * p) + p,
        2 * p,
        n as int,
        p,
    );
}

/// `v` rounded to a whole number, between 1 and `top`.
fn round_to_count(v: Single, top: u32) -> (r: u32)
    requires
        v.is_finite(),
    ensures
        r == rounded(v, top as nat),
{
    let r: u128 = v.nearest_whole();
    if r < 1 {
        1
    } else if r > top as u128 {
        top
    } else {
        r as u32
    }
}

/// How far a run has come.
fn progress_of(step: u32, total: u32) -> (r: Single)
    ensures
        r == progress(step, total),
{
    let q = Single::count(step as u64).over(Single::count(total as u64));
    let one = Single { bits: single::ONE };
    if one.is_less(q) {
        one
    } else {
        q
    }
}

/// The edit budget at a step: `base_lr` is the configured one.
pub fn compute_lr(sched: &LrSchedule, step: u32, total_steps: u32, base_lr: u32) -> (r: u32)
    ensures
        r == budget(*sched, step, total_steps, base_lr),
{
    let configured: u32 = if base_lr < 1 {
        1
    } else {
        base_lr
    };
    if total_steps == 0 {
        return configured;
    }
    let one = Single { bits: single::ONE };
    let base = Single::count(configured as u64);
    let p = progress_of(step, total_steps);
    proof {
        lemma_progress(step, step, total_steps);
    }
    match sched {
        LrSchedule::Constant => configured,
        LrSchedule::Autonomous => configured,
        LrSchedule::Linear => {
            proof {
                lemma_on_line(configured as nat, p, p);
            }
            let v = base.minus(base.minus(one).times(p));
            if v.is_less(one) {
                round_to_count(one, configured)
            } else {
                round_to_count(v, configured)
            }
        },
        LrSchedule::Cosine => {
            proof {
                lemma_turn(p, p);
                lemma_on_wave(configured as nat, p, p);
            }
            let weight = one.plus(cosine::cosine(Single { bits: cosine::PI }.times(p)));
            let half = Single { bits: single::HALF };
            round_to_count(one.plus(half.times(base.minus(one)).times(weight)), configured)
        },
    }
}

/// The budget is never below one edit and never above the base, and it never grows during a run. Where
/// single precision holds the base as it is, the budget begins at the base, and a linear or a cosine
/// schedule ends at one edit.
pub proof fn law_budget_falls_from_base_to_one(
    sched: LrSchedule,
    a: u32,
    b: u32,
    total: u32,
    base_lr: u32,
)
    requires
        a <= b,
    ensures
        1 <= budget(sched, b, total, base_lr) <= budget(sched, a, total, base_lr) <= base_of(base_lr),
        base_lr <= 0x100_0000 ==> {
            &&& budget(sched, 0, total, base_lr) == base_of(base_lr)
            &&& (sched is Linear || sched is Cosine) && total > 0 && b >= total ==> budget(
                sched,
                b,
                total,
                base_lr,
            ) == 1
        },
{
    if total > 0 {
        let n = base_of(base_lr);
        let base = single::counted(n);
        lemma_progress(a, b, total);
        let (p, q) = (progress(a, total), progress(b, total));
        lemma_on_line(n, p, q);
        lemma_rounded(on_line(base, q), on_line(base, p), n);
        lemma_on_wave(n, p, q);
        lemma_rounded(on_wave(base, q), on_wave(base, p), n);
        if base_lr <= 0x100_0000 {
            lemma_line_ends(n);
            lemma_wave_ends(n);
            single_laws::lemma_counted_exact(n);
            single_laws::lemma_one();
            assert(1 * pow2(149) == pow2(149));
            lemma_rounded_whole(on_line(base, single::zero()), n, n);
            lemma_rounded_whole(on_wave(base, single::zero()), n, n);
            lemma_rounded_whole(on_line(base, single::one()), 1, n);
            lemma_rounded_whole(on_wave(base, single::one()), 1, n);
        }
    }
}

/// A constant schedule keeps the base, and so does an autonomous one.
pub proof fn law_constant_budget_is_the_base(step: u32, total: u32, base_lr: u32)
    ensures
        budget(LrSchedule::Constant, step, total, base_lr) == base_of(base_lr),
        budget(LrSchedule::Autonomous, step, total, base_lr) == base_of(base_lr),
        base_lr >= 1 ==> base_of(base_lr) == base_lr,
{
}

// ---------------------------------------------------------------------------------------------
// Selecting by confidence
// ---------------------------------------------------------------------------------------------

/// The confidence in an edit: its utility, held between 0 and 1.
pub open spec fn confidence(e: EditView) -> Single {
    if single::less(e.utility, single::zero()) {
        single::zero()
    } else if single::less(single::one(), e.utility) {
        single::one()
    } else {
        e.utility
    }
}

/// How many edits of the ranking `s` are taken, where the first `i` are, with a confidence of `acc` in
/// all: as many as keep the confidence within `limit`, and at most `cap`.
pub open spec fn taken_from(s: Seq<EditView>, i: int, acc: Single, limit: Single, cap: int) -> int
    decreases s.len() - i,
{
    if i < 0 || i >= s.len() || i >= cap {
        i
    } else if single::less(limit, single::sum(acc, confidence(s[i]))) {
        i
    } else {
        taken_from(s, i + 1, single::sum(acc, confidence(s[i])), limit, cap)
    }
}

/// How many edits of the ranking `s` are taken.
pub open spec fn taken(s: Seq<EditView>, limit: Single, cap: int) -> int {
    taken_from(s, 0, single::zero(), limit, cap)
}

/// The confidence in the first `n` edits of `s`, added up.
pub open spec fn total_confidence(s: Seq<EditView>, n: int) -> Single
    decreases n,
{
    if n <= 0 {
        single::zero()
    } else {
        single::sum(total_confidence(s, n - 1), confidence(s[n - 1]))
    }
}

/// The confidence in an edit.
fn confidence_in(e: &Edit) -> (r: Single)
    ensures
        r == confidence(e@),
{
    let (zero, one) = (Single { bits: 0 }, Single { bits: single::ONE });
    if e.utility.is_less(zero) {
        zero
    } else if one.is_less(e.utility) {
        one
    } else {
        e.utility
    }
}

/// The edits from the highest rank on, as long as the confidence in them stays within
/// `confidence_budget`, and at most `cap` of them.
pub fn autonomous_select(edits: Vec<Edit>, confidence_budget: Single, cap: u32) -> (r: Vec<Edit>)
    ensures
        ({
            let s = rank::ranked(crate::types::edit_views(edits@));
            crate::types::edit_views(r@) == s.take(taken(s, confidence_budget, cap as int))
        }),
{
    let mut sorted = rank::rank(edits);
    let ghost s = crate::types::edit_views(sorted@);
    let n: usize = sorted.len();
    let mut acc = Single { bits: 0 };
    let mut i: usize = 0;
    let mut go = true;
    while go && i < n && i < cap as usize
        invariant
            n == sorted.len(),
            s == crate::types::edit_views(sorted@),
            i <= n,
            i <= cap,
            go ==> taken(s, confidence_budget, cap as int) == taken_from(
                s,
                i as int,
                acc,
                confidence_budget,
                cap as int,
            ),
            !go ==> taken(s, confidence_budget, cap as int) == i,
        decreases (n - i) + (if go {
            1int
        } else {
            0
        }),
    {
        proof {
            assert(s[i as int] == sorted@[i as int]@);
        }
        let more = acc.plus(confidence_in(&sorted[i]));
        if confidence_budget.is_less(more) {
            go = false;
        } else {
            acc = more;
            i = i + 1;
        }
    }
    sorted.truncate(i);
    proof {
        assert(crate::types::edit_views(sorted@) =~= s.take(i as int));
    }
    sorted
}

/// Where the taking stops.
proof fn lemma_taken_from(s: Seq<EditView>, i: int, acc: Single, limit: Single, cap: int)
    requires
        0 <= i <= s.len(),
        0 <= cap,
        i <= cap,
        acc == total_confidence(s, i),
        i > 0 ==> !single::less(limit, acc),
    ensures
        ({
            let n = taken_from(s, i, acc, limit, cap);
            &&& i <= n <= s.len()
            &&& n <= cap
            &&& n > 0 ==> !single::less(limit, total_confidence(s, n))
            &&& n < s.len() && n < cap ==> single::less(limit, total_confidence(s, n + 1))
        }),
    decreases s.len() - i,
{
    if i < s.len() && i < cap && !single::less(limit, single::sum(acc, confidence(s[i]))) {
        lemma_taken_from(s, i + 1, single::sum(acc, confidence(s[i])), limit, cap);
    }
}

/// An autonomous selection takes no more than `cap` edits, the confidence in them does not go beyond a
/// limit that is not negative, and it takes no fewer than it may.
pub proof fn law_autonomous_selection_is_bounded(s: Seq<EditView>, limit: Single, cap: int)
    requires
        0 <= cap,
    ensures
        ({
            let n = taken(s, limit, cap);
            &&& 0 <= n <= s.len()
            &&& n <= cap
            &&& !single::less(limit, single::zero()) ==> !single::less(limit, total_confidence(s, n))
            &&& n < s.len() && n < cap ==> single::less(limit, total_confidence(s, n + 1))
        }),
{
    lemma_taken_from(s, 0, single::zero(), limit, cap);
}

// ---------------------------------------------------------------------------------------------
// How near the budget comes to its line and to its wave
// ---------------------------------------------------------------------------------------------

/// What is rounded to a count between 1 and `top`, and what `e / t` is near to, are near to each other.
proof fn lemma_rounded_near(v: Single, top: nat, t: int, e: int, off: int)
    requires
        top >= 1,
        t > 0,
        pow2(149) * t <= e <= top * pow2(149) * t,
        single_laws::apart(single::magnitude(v.place()) * t, e) <= off,
    ensures
        2 * single_laws::apart(rounded(v, top) * pow2(149) * t, e) <= pow2(149) * t + 2 * off,
{
    let p = pow2(149) as int;
    vstd::arithmetic::power2::lemma_pow2_pos(149);
    let m = single::magnitude(v.place()) as int;
    let r = single::rounded_whole(v) as int;
    vstd::arithmetic::div_mod::lemma_fundamental_div_mod(2 * m + p, 2 * p);
    let rest = (2 * m + p) % (2 * p);
    assert((2 * p) * r == 2 * (r * p)) by (nonlinear_arith);
    assert(-p <= 2 * (r * p) - 2 * m <= p);
    assert(-(p * t) <= 2 * (r * p * t) - 2 * (m * t) <= p * t) by (nonlinear_arith)
        requires
            -p <= 2 * (r * p) - 2 * m <= p,
            t > 0,
    ;
    let k = rounded(v, top) as int;
    if r < 1 {
        assert(r * p * t <= 0) by (nonlinear_arith)
            requires
                r <= 0,
                p > 0,
                t > 0,
        ;
        assert(k * p * t == p * t) by (nonlinear_arith)
            requires
                k == 1,
        ;
    } else if r > top {
        assert(r * p * t >= top * p * t) by (nonlinear_arith)
            requires
                r >= top,
                p > 0,
                t > 0,
        ;
    }
}

/// The share of the steps that are done, as it is held.
proof fn lemma_progress_near(step: u32, total: u32)
    requires
        step <= total,
        0 < total <= 0x100_0000,
    ensures
        ({
            let p = progress(step, total);
            &&& is_share(p)
            &&& 0x100_0000 * single_laws::apart(
                single::magnitude(p.place()) * total,
                step * pow2(149),
            ) <= total * (pow2(149) + 0x80_0000)
        }),
{
    lemma_progress(step, step, total);
    let (s, t) = (step as nat, total as nat);
    let u = pow2(149);
    vstd::arithmetic::power2::lemma_pow2_pos(149);
    single_laws::lemma_counted_exact(s);
    single_laws::lemma_counted_exact(t);
    single_laws::lemma_counted(t);
    single_laws::lemma_share(s, t);
    let q = single::quotient(single::counted(s), single::counted(t));
    assert(progress(step, total) == q);
    let (n, d) = ((s * u) * u, t * u);
    assert(d > 0) by (nonlinear_arith)
        requires
            d == t * u,
            t > 0,
            u > 0,
    ;
    single::lemma_nearest_ends(n, d);
    single::lemma_make(false, single::nearest(n, d));
    single_laws::law_rounding_is_off_by_little(n, d);
    let m = single::magnitude(q.place());
    let (x, y) = ((m * t) as int, (s * u) as int);
    assert(m * d == x * u && n == y * u) by (nonlinear_arith)
        requires
            d == t * u,
            n == (s * u) * u,
            x == m * t,
            y == s * u,
    ;
    assert(single_laws::apart((m * d) as int, n as int) == single_laws::apart(x, y) * u) by (nonlinear_arith)
        requires
            m * d == x * u,
            n == y * u,
            u > 0,
            single_laws::apart((m * d) as int, n as int) == (if m * d < n {
                n - m * d
            } else {
                m * d - n
            }),
            single_laws::apart(x, y) == (if x < y {
                y - x
            } else {
                x - y
            }),
    ;
    let a = single_laws::apart(x, y);
    assert(0x100_0000 * a <= y + 0x80_0000 * t) by (nonlinear_arith)
        requires
            0x100_0000 * (a * u) <= y * u + 0x80_0000 * (t * u),
            u > 0,
    ;
    assert(y + 0x80_0000 * t <= t * (u + 0x80_0000)) by (nonlinear_arith)
        requires
            y == s * u,
            s <= t,
            u > 0,
    ;
}

/// A product with a whole number, as it is held, is off by little.
proof fn lemma_product_near(l: Single, w: Single, k: nat)
    requires
        l.is_finite(),
        w.is_finite(),
        single::product(l, w).is_finite(),
        single::magnitude(l.place()) == k * pow2(149),
    ensures
        0x100_0000 * single_laws::apart(
            single::magnitude(single::product(l, w).place()) as int,
            (k * single::magnitude(w.place())) as int,
        ) <= k * single::magnitude(w.place()) + 0x80_0000,
{
    let u = pow2(149);
    vstd::arithmetic::power2::lemma_pow2_pos(149);
    single_laws::lemma_product(l, w);
    let v = single::magnitude(w.place());
    let n = (k * u) * v;
    single_laws::law_rounding_is_off_by_little(n, u);
    let m = single::magnitude(single::product(l, w).place());
    let (x, y) = (m as int, (k * v) as int);
    assert(n == y * u) by (nonlinear_arith)
        requires
            n == (k * u) * v,
            y == k * v,
    ;
    let a = single_laws::apart(x, y);
    assert(single_laws::apart((m * u) as int, n as int) == a * u) by (nonlinear_arith)
        requires
            n == y * u,
            x == m,
            u > 0,
            single_laws::apart((m * u) as int, n as int) == (if m * u < n {
                n - m * u
            } else {
                m * u - n
            }),
            a == (if x < y {
                y - x
            } else {
                x - y
            }),
    ;
    assert(0x100_0000 * a <= y + 0x80_0000) by (nonlinear_arith)
        requires
            0x100_0000 * (a * u) <= y * u + 0x80_0000 * u,
            u > 0,
    ;
}

/// The linear budget keeps to the straight line from the base to 1: it is no further from it than a half
/// and a sixteenth of an edit.
pub proof fn law_linear_budget_keeps_to_the_line(step: u32, total: u32, base: u32)
    requires
        step <= total,
        0 < total <= 0x100_0000,
        1 <= base <= 0x1_0000,
    ensures
        16 * single_laws::apart(
            budget(LrSchedule::Linear, step, total, base) * total,
            base * total - (base - 1) * step,
        ) <= 9 * total,
{
    let n = base as nat;
    let b = single::counted(n);
    let u = pow2(149) as int;
    let t = total as int;
    vstd::arithmetic::power2::lemma_pow2_pos(149);
    vstd::arithmetic::power2::lemma2_to64();
    vstd::arithmetic::power2::lemma_pow2_strictly_increases(48, 149);
    vstd::arithmetic::power2::lemma2_to64_rest();
    lemma_progress_near(step, total);
    let p = progress(step, total);
    lemma_share_within(p);
    lemma_span(n);
    lemma_span_exact(n);
    let l = span(b);
    lemma_taken(n, p);
    lemma_product_near(l, p, (n - 1) as nat);
    let taken = single::product(l, p);
    let (vp, vt) = (single::magnitude(p.place()) as int, single::magnitude(taken.place()) as int);
    let k = n - 1;
    assert(0 <= k * vp <= k * u) by (nonlinear_arith)
        requires
            0 <= k,
            0 <= vp <= u,
    ;
    // What is left of the base.
    let back = single::opposite(taken);
    single::lemma_make(!taken.negative(), taken.place());
    single_laws::lemma_sum(b, back);
    let exact = n * u - vt;
    assert(b.value() + back.value() == exact);
    assert(k * u == n * u - u) by (nonlinear_arith)
        requires
            k == n - 1,
    ;
    assert(n * u <= 0x1_0000 * u) by (nonlinear_arith)
        requires
            n <= 0x1_0000,
            u > 0,
    ;
    assert(0x100_0000 * vt <= 0x100_0000 * (k * vp) + k * vp + 0x80_0000);
    assert(exact >= 0);
    let left = single::difference(b, taken);
    single_laws::law_rounding_is_off_by_little(exact as nat, 1);
    let v = single::magnitude(left.place()) as int;
    assert(single::magnitude(single::nearest(exact as nat, 1)) * 1 == v);
    assert(0x100_0000 * single_laws::apart(v, exact) <= exact + 0x80_0000);
    // All together.
    let e = n * u * t - k * step * u;
    let (d1, d2, d3) = (
        single_laws::apart(v, exact),
        single_laws::apart(vt, k * vp),
        single_laws::apart(vp * t, step * u),
    );
    assert(e == n * u * t - k * (step * u)) by (nonlinear_arith)
        requires
            e == n * u * t - k * step * u,
    ;
    let off = d1 * t + d2 * t + k * d3;
    lemma_chain(v, exact, vt, vp, n * u, t, k, step * u);
    assert(single_laws::apart(v * t, e) <= off) by {
        assert((n * u) * t == n * u * t);
    }
    assert(0x100_0000 * off <= t * (4 * (n * u))) by (nonlinear_arith)
        requires
            off == d1 * t + d2 * t + k * d3,
            0x100_0000 * d1 <= n * u + 0x80_0000,
            0x100_0000 * d2 <= n * u + 0x80_0000,
            0x100_0000 * d3 <= t * (u + 0x80_0000),
            k == n - 1,
            n >= 1,
            t > 0,
            0x1_0000_0000_0000 < u,
            n <= 0x1_0000,
    ;
    assert(0x100_0000 * off <= t * (4 * (0x1_0000 * u))) by (nonlinear_arith)
        requires
            0x100_0000 * off <= t * (4 * (n * u)),
            n * u <= 0x1_0000 * u,
            t > 0,
    ;
    assert(64 * off <= t * u) by (nonlinear_arith)
        requires
            0x100_0000 * off <= t * (4 * (0x1_0000 * u)),
    ;
    // At least one, and rounded.
    assert(u * t <= e <= n * u * t) by (nonlinear_arith)
        requires
            e == n * u * t - k * step * u,
            k == n - 1,
            n >= 1,
            0 <= step <= t,
            u > 0,
    ;
    let w = on_line(b, p);
    single_laws::lemma_one();
    single::lemma_order(single::one(), left);
    lemma_on_line(n, p, p);
    if single::less(left, single::one()) {
        assert(single_laws::apart(u * t, e) <= off) by {
            assert(left.value() < u);
            single::lemma_magnitude_grows(0, left.place());
            assert(!left.negative() || left.place() == 0);
            assert(v * t <= u * t) by (nonlinear_arith)
                requires
                    v <= u,
                    t > 0,
            ;
        }
    }
    lemma_rounded_near(w, n, t, e, off);
    let r = budget(LrSchedule::Linear, step, total, base) as int;
    let goal = n * t - k * step;
    let a = single_laws::apart(r * t, goal);
    assert(r * u * t == (r * t) * u && e == goal * u) by (nonlinear_arith)
        requires
            e == n * u * t - k * step * u,
            goal == n * t - k * step,
    ;
    assert(single_laws::apart(r * u * t, e) == a * u) by (nonlinear_arith)
        requires
            r * u * t == (r * t) * u,
            e == goal * u,
            u > 0,
            single_laws::apart(r * u * t, e) == (if r * u * t < e {
                e - r * u * t
            } else {
                r * u * t - e
            }),
            a == (if r * t < goal {
                goal - r * t
            } else {
                r * t - goal
            }),
    ;
    assert(16 * a <= 9 * t) by (nonlinear_arith)
        requires
            2 * (a * u) <= u * t + 2 * off,
            64 * off <= t * u,
            u > 0,
            t > 0,
            a >= 0,
    ;
}

/// Three errors one behind the other.
proof fn lemma_chain(v: int, exact: int, vt: int, vp: int, nu: int, t: int, k: int, su: int)
    requires
        t > 0,
        k >= 0,
        exact == nu - vt,
    ensures
        single_laws::apart(v * t, nu * t - k * su) <= single_laws::apart(v, exact) * t
            + single_laws::apart(vt, k * vp) * t + k * single_laws::apart(vp * t, su),
{
    let (d1, d2, d3) = (v - exact, vt - k * vp, vp * t - su);
    assert(v * t - (nu * t - k * su) == d1 * t - d2 * t - k * d3) by (nonlinear_arith)
        requires
            d1 == v - exact,
            d2 == vt - k * vp,
            d3 == vp * t - su,
            exact == nu - vt,
    ;
    let (a1, a2, a3) = (
        single_laws::apart(v, exact),
        single_laws::apart(vt, k * vp),
        single_laws::apart(vp * t, su),
    );
    assert(-(a1 * t) <= d1 * t <= a1 * t && -(a2 * t) <= d2 * t <= a2 * t && -(k * a3) <= k * d3 <= k * a3)
        by (nonlinear_arith)
        requires
            -a1 <= d1 <= a1,
            -a2 <= d2 <= a2,
            -a3 <= d3 <= a3,
            t > 0,
            k >= 0,
    ;
}

/// A product with half of a whole number, as it is held, is off by little.
proof fn lemma_half_product_near(h: Single, w: Single, k: nat)
    requires
        h.is_finite(),
        w.is_finite(),
        single::product(h, w).is_finite(),
        2 * single::magnitude(h.place()) == k * pow2(149),
    ensures
        0x100_0000 * single_laws::apart(
            2 * (single::magnitude(single::product(h, w).place()) as int),
            (k * single::magnitude(w.place())) as int,
        ) <= k * single::magnitude(w.place()) + 0x100_0000,
{
    let u = pow2(149);
    vstd::arithmetic::power2::lemma_pow2_pos(149);
    single_laws::lemma_product(h, w);
    let (g, v) = (single::magnitude(h.place()), single::magnitude(w.place()));
    let n = g * v;
    single_laws::law_rounding_is_off_by_little(n, u);
    let m = single::magnitude(single::product(h, w).place());
    let (x, y) = (2 * (m as int), (k * v) as int);
    assert(2 * n == y * u && 2 * (m * u) == x * u) by (nonlinear_arith)
        requires
            n == g * v,
            2 * g == k * u,
            y == k * v,
            x == 2 * (m as int),
    ;
    let a = single_laws::apart(x, y);
    assert(2 * single_laws::apart((m * u) as int, n as int) == a * u) by (nonlinear_arith)
        requires
            2 * n == y * u,
            2 * (m * u) == x * u,
            u > 0,
            single_laws::apart((m * u) as int, n as int) == (if m * u < n {
                n - m * u
            } else {
                m * u - n
            }),
            a == (if x < y {
                y - x
            } else {
                x - y
            }),
    ;
    assert(0x100_0000 * a <= y + 0x100_0000) by (nonlinear_arith)
        requires
            0x100_0000 * (a * u) <= y * u + 0x100_0000 * u,
            u > 0,
    ;
}

/// The cosine budget keeps to the wave from the base to 1: with the cosine `c` of pi times the progress, it
/// is no further from `1 + (base - 1) * (1 + c) / 2` than a half and a sixteenth of an edit.
pub proof fn law_cosine_budget_keeps_to_the_wave(step: u32, total: u32, base: u32)
    requires
        total > 0,
        1 <= base <= 0x1_0000,
    ensures
        ({
            let one = pow2(149) as int;
            let turn = single::product(Single { bits: 0x4049_0fdb }, progress(step, total));
            let c = cosine::cosine_of(turn).value();
            16 * single_laws::apart(
                budget(LrSchedule::Cosine, step, total, base) * (2 * one),
                2 * one + (base - 1) * (one + c),
            ) <= 18 * one
        }),
{
    let n = base as nat;
    let b = single::counted(n);
    let u = pow2(149) as int;
    vstd::arithmetic::power2::lemma_pow2_pos(149);
    vstd::arithmetic::power2::lemma2_to64();
    vstd::arithmetic::power2::lemma2_to64_rest();
    vstd::arithmetic::power2::lemma_pow2_strictly_increases(48, 149);
    vstd::arithmetic::power2::lemma_pow2_unfold(149);
    vstd::arithmetic::power2::lemma_pow2_unfold(150);
    lemma_progress(step, step, total);
    let p = progress(step, total);
    lemma_span(n);
    lemma_span_exact(n);
    lemma_on_wave(n, p, p);
    lemma_turn(p, p);
    let one = single::one();
    let x = single::product(Single { bits: cosine::PI }, p);
    cosine::law_cosine_falls(x, x);
    let c = cosine::cosine_of(x);
    single_laws::lemma_one();
    single::lemma_make(true, single::ONE as nat);
    single::lemma_order(c, one);
    single::lemma_order(single::opposite(one), c);
    assert(-u <= c.value() <= u);
    // The weight.
    law_cosine_weight_falls(p, p);
    let w = cosine_weight(p);
    single_laws::lemma_sum(one, c);
    let weight = u + c.value();
    single_laws::law_rounding_is_off_by_little(weight as nat, 1);
    let vw = single::magnitude(w.place()) as int;
    assert(single::magnitude(single::nearest(weight as nat, 1)) * 1 == vw);
    let d3 = single_laws::apart(vw, weight);
    assert(0x100_0000 * d3 <= weight + 0x80_0000);
    // Half of the span.
    let (l, half) = (span(b), Single { bits: single::HALF });
    let m = (n - 1) as nat;
    single::lemma_magnitude_at(125, 0x80_0000);
    vstd::arithmetic::power2::lemma_pow2_adds(23, 125);
    let place = single_laws::lemma_representable(m, 148);
    let middle = single::make(false, place);
    single::lemma_make(false, place);
    assert(pow2(148) * (m * pow2(149)) == (m * pow2(148)) * pow2(149)) by (nonlinear_arith);
    single_laws::lemma_product_exact(half, l, middle);
    let h = single::product(half, l);
    assert(2 * (m * pow2(148)) == m * pow2(149)) by (nonlinear_arith)
        requires
            pow2(149) == 2 * pow2(148),
    ;
    lemma_share_within(half);
    single_laws::lemma_product_within(half, l, 149, 182);
    single_laws::lemma_product_within(h, w, 182, 150);
    lemma_half_product_near(h, w, m);
    let s = single::product(h, w);
    single_laws::lemma_product(half, l);
    single_laws::lemma_product(h, w);
    let vs = single::magnitude(s.place()) as int;
    let d2 = single_laws::apart(2 * vs, m * vw);
    // One more.
    single_laws::lemma_sum(one, s);
    let exact = u + vs;
    single_laws::law_rounding_is_off_by_little(exact as nat, 1);
    let wave = on_wave(b, p);
    let v = single::magnitude(wave.place()) as int;
    assert(single::magnitude(single::nearest(exact as nat, 1)) * 1 == v);
    let d1 = single_laws::apart(v, exact);
    assert(0x100_0000 * d1 <= exact + 0x80_0000);
    // All together.
    let e = 2 * u + m * weight;
    let off = 2 * d1 + d2 + m * d3;
    assert(single_laws::apart(v * 2, e) <= off) by {
        let d = vw - weight;
        assert(m * vw - m * weight == m * d) by (nonlinear_arith)
            requires
                d == vw - weight,
        ;
        assert(-(m * d3) <= m * d <= m * d3) by (nonlinear_arith)
            requires
                -d3 <= d <= d3,
        ;
    }
    assert(0 <= m * vw <= 2 * (m * u) && 0 <= m * weight <= 2 * (m * u)) by (nonlinear_arith)
        requires
            0 <= vw <= 2 * u,
            0 <= weight <= 2 * u,
            m >= 0,
    ;
    assert(0x100_0000 * (m * d3) <= m * weight + 0x80_0000 * m) by (nonlinear_arith)
        requires
            0x100_0000 * d3 <= weight + 0x80_0000,
            m >= 0,
    ;
    assert(m * u <= 0xffff * u) by (nonlinear_arith)
        requires
            m <= 0xffff,
            u > 0,
    ;
    assert(32 * off <= u);
    assert(n * u * 2 == 2 * u + 2 * (m * u)) by (nonlinear_arith)
        requires
            n == m + 1,
    ;
    lemma_rounded_near(wave, n, 2, e, off);
    let r = budget(LrSchedule::Cosine, step, total, base) as int;
    assert(r * u * 2 == r * (2 * u)) by (nonlinear_arith);
}

/// A schedule is known by its name, and every other name stands for a cosine.
pub proof fn law_schedules_are_known_by_name(s: Seq<char>)
    ensures
        schedule_named("constant"@) is Constant,
        schedule_named("linear"@) is Linear,
        schedule_named("cosine"@) is Cosine,
        schedule_named("autonomous"@) is Autonomous,
        s != "constant"@ && s != "linear"@ && s != "autonomous"@ ==> schedule_named(s) is Cosine,
{
    reveal_strlit("constant");
    reveal_strlit("linear");
    reveal_strlit("cosine");
    reveal_strlit("autonomous");
    assert("constant"@[0] == 'c' && "linear"@[0] == 'l' && "autonomous"@[0] == 'a' && "cosine"@[0] == 'c');
    assert("constant"@.len() == 8 && "cosine"@.len() == 6);
}

/// The confidence in an edit is its utility where that lies between 0 and 1, and the nearer of the two where
/// it does not.
pub proof fn law_confidence_lies_between_zero_and_one(e: EditView)
    requires
        !e.utility.is_nan(),
    ensures
        ({
            let (zero, one) = (Single { bits: 0 }, Single { bits: 0x3f80_0000 });
            let c = confidence(e);
            &&& single::at_most(zero, c) && single::at_most(c, one)
            &&& single::at_most(zero, e.utility) && single::at_most(e.utility, one) ==> c == e.utility
            &&& single::at_most(e.utility, zero) ==> c.order() == 0
            &&& single::at_most(one, e.utility) ==> c.order() == 0x3f80_0000
        }),
{
    assert(Single { bits: 0 }.order() == 0 && Single { bits: 0x3f80_0000 }.order() == 0x3f80_0000);
    if single::at_most(Single { bits: 0 }, e.utility) && e.utility.order() == 0x3f80_0000 {
        single::lemma_made(e.utility);
    }
}

/// The confidence in edits starts at 0 and goes up by the confidence in each edit.
pub proof fn law_confidence_adds_up(s: Seq<EditView>, n: int)
    requires
        0 <= n < s.len(),
    ensures
        total_confidence(s, 0) == (Single { bits: 0 }),
        total_confidence(s, n + 1) == single::sum(total_confidence(s, n), confidence(s[n])),
{
}

/// Whether a next edit is taken does not depend on what comes behind it, and a longer ranking or a larger cap
/// takes no fewer.
pub proof fn law_selection_goes_from_the_front(
    s: Seq<EditView>,
    more: Seq<EditView>,
    limit: Single,
    cap: int,
    larger: int,
)
    requires
        0 <= cap <= larger,
    ensures
        taken(s, limit, cap) <= taken(s + more, limit, larger),
        taken(s, limit, cap) < s.len() && taken(s, limit, cap) < cap ==> taken(s + more, limit, larger)
            == taken(s, limit, cap),
{
    lemma_taken_longer(s, more, 0, single::zero(), limit, cap, larger);
}

/// Where the taking stops in a longer ranking and with a larger cap.
proof fn lemma_taken_longer(
    s: Seq<EditView>,
    more: Seq<EditView>,
    i: int,
    acc: Single,
    limit: Single,
    cap: int,
    larger: int,
)
    requires
        0 <= i <= s.len(),
        0 <= cap <= larger,
        i <= cap,
    ensures
        ({
            let (a, b) = (
                taken_from(s, i, acc, limit, cap),
                taken_from(s + more, i, acc, limit, larger),
            );
            &&& i <= a <= b
            &&& a < s.len() && a < cap ==> b == a
        }),
    decreases s.len() - i,
{
    let all = s + more;
    if i < s.len() && i < cap {
        assert(all[i] == s[i]);
        if !single::less(limit, single::sum(acc, confidence(s[i]))) {
            lemma_taken_longer(
                s,
                more,
                i + 1,
                single::sum(acc, confidence(s[i])),
                limit,
                cap,
                larger,
            );
        }
    } else {
        lemma_taken_grows(all, i, acc, limit, larger);
    }
}

/// What is taken stays taken.
proof fn lemma_taken_grows(s: Seq<EditView>, i: int, acc: Single, limit: Single, cap: int)
    ensures
        i <= taken_from(s, i, acc, limit, cap),
    decreases s.len() - i,
{
    if 0 <= i < s.len() && i < cap && !single::less(limit, single::sum(acc, confidence(s[i]))) {
        lemma_taken_grows(s, i + 1, single::sum(acc, confidence(s[i])), limit, cap);
    }
}

/// The progress is the share of the steps that are done.
pub proof fn lemma_progress_is_the_share(step: u32, total: u32)
    requires
        step <= total,
        0 < total,
    ensures
        progress(step, total) == single::quotient(
            single::counted(step as nat),
            single::counted(total as nat),
        ),
{
    single_laws::lemma_share(step as nat, total as nat);
}

} // verus!
