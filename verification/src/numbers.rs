//! Numbers as text.

use vstd::prelude::*;
use vstd::arithmetic::power2::pow2;
use crate::single;
use crate::single::Single;
use crate::text;

verus! {

/// The digit for a number below ten.
pub open spec fn digit(d: int) -> char {
    (48 + d) as u8 as char
}

/// The digit for a number below ten.
pub fn digit_char(d: u128) -> (c: char)
    requires
        d < 10,
    ensures
        c == digit(d as int),
{
    (48 + d) as u8 as char
}

/// The decimal digits of `n`.
pub open spec fn digits(n: nat) -> Seq<char>
    decreases n,
{
    if n < 10 {
        seq![digit(n as int)]
    } else {
        digits(n / 10).push(digit((n % 10) as int))
    }
}

/// Appends the decimal digits of `n` to `out`.
pub fn push_digits(out: &mut Vec<char>, n: u128)
    ensures
        final(out)@ == old(out)@ + digits(n as nat),
    decreases n,
{
    let ghost before = out@;
    if n < 10 {
        out.push(digit_char(n));
        proof {
            assert(out@ =~= before + digits(n as nat));
        }
    } else {
        push_digits(out, n / 10);
        out.push(digit_char(n % 10));
        proof {
            assert(out@ =~= before + digits(n as nat));
        }
    }
}

/// `n / one` to the nearest whole number; a half goes to the even one.
pub open spec fn to_even(n: nat, one: nat) -> nat {
    let (q, rest) = (n / one, n % one);
    if 2 * rest > one || (2 * rest == one && q % 2 == 1) {
        q + 1
    } else {
        q
    }
}

/// The magnitude of `x` in units of 1 / `scale`, to the nearest; a half goes to the even one.
#[verifier::opaque]
pub open spec fn parts(x: Single, scale: nat) -> nat {
    to_even(scale * single::magnitude(x.place()), pow2(149))
}

/// A minus sign for a number that has one.
pub open spec fn sign(x: Single) -> Seq<char> {
    if x.negative() {
        seq!['-']
    } else {
        Seq::empty()
    }
}

/// `x` with two decimals.
pub open spec fn fixed2(x: Single) -> Seq<char> {
    let h = parts(x, 100);
    if x.is_nan() {
        "NaN"@
    } else if x.is_infinite() {
        sign(x) + "inf"@
    } else {
        sign(x) + digits(h / 100) + seq![
            '.',
            digit((h / 10 % 10) as int),
            digit((h % 10) as int),
        ]
    }
}

/// `x` with three decimals.
pub open spec fn fixed3(x: Single) -> Seq<char> {
    let t = parts(x, 1_000);
    if x.is_nan() {
        "NaN"@
    } else if x.is_infinite() {
        sign(x) + "inf"@
    } else {
        sign(x) + digits(t / 1_000) + seq![
            '.',
            digit((t / 100 % 10) as int),
            digit((t / 10 % 10) as int),
            digit((t % 10) as int),
        ]
    }
}

/// Division with a power of 2 on both sides.
proof fn lemma_to_even(v: nat, x: nat, k: nat)
    ensures
        to_even(v * pow2(x), pow2(x + k)) == to_even(v, pow2(k)),
{
    vstd::arithmetic::power2::lemma_pow2_adds(x, k);
    vstd::arithmetic::power2::lemma_pow2_pos(x);
    vstd::arithmetic::power2::lemma_pow2_pos(k);
    let (u, g) = (pow2(x) as int, pow2(k) as int);
    let (q, rest) = (v as int / g, v as int % g);
    vstd::arithmetic::div_mod::lemma_fundamental_div_mod(v as int, g);
    let one = u * g;
    assert(v * u == one * q + rest * u && 0 <= rest * u < one && (2 * (rest * u) > one <==> 2 * rest > g)
        && (2 * (rest * u) == one <==> 2 * rest == g)) by (nonlinear_arith)
        requires
            v == g * q + rest,
            0 <= rest < g,
            one == u * g,
            u > 0,
    ;
    vstd::arithmetic::div_mod::lemma_fundamental_div_mod_converse(v * u, one, q, rest * u);
}

/// The units of 1 / `scale` in `x`, to the nearest: the whole ones, and those behind the point.
fn parts_of(x: Single, scale: u128) -> (r: (u128, u128))
    requires
        x.is_finite(),
        0 < scale <= 1_000,
    ensures
        r.0 == parts(x, scale as nat) / (scale as nat),
        r.1 == parts(x, scale as nat) % (scale as nat),
        r.1 < scale,
{
    let (m, e) = single::split(x.at());
    let ghost v = single::magnitude(x.place());
    proof {
        reveal(parts);
    }
    if e >= 149 {
        let whole: u128 = x.whole();
        proof {
            let p = pow2(149) as int;
            let u = pow2((e - 149) as nat) as int;
            vstd::arithmetic::power2::lemma_pow2_pos(149);
            vstd::arithmetic::power2::lemma_pow2_adds((e - 149) as nat, 149);
            assert(m * (u * p) == p * (m * u)) by (nonlinear_arith);
            vstd::arithmetic::div_mod::lemma_div_multiples_vanish(m * u, p);
            assert(v == p * whole);
            assert(scale * v == p * (whole * scale) + 0) by (nonlinear_arith)
                requires
                    v == p * whole,
            ;
            vstd::arithmetic::div_mod::lemma_fundamental_div_mod_converse(
                (scale * v) as int,
                p,
                whole * scale,
                0,
            );
            assert(parts(x, scale as nat) == whole * scale);
            assert(whole * scale == scale * whole + 0) by (nonlinear_arith);
            vstd::arithmetic::div_mod::lemma_fundamental_div_mod_converse(
                whole * scale,
                scale as int,
                whole as int,
                0,
            );
        }
        return (whole, 0);
    }
    let k: u32 = 149 - e;
    proof {
        assert(scale * m <= 1_000 * 0x100_0000) by (nonlinear_arith)
            requires
                0 <= scale <= 1_000,
                0 <= m <= 0x100_0000,
        ;
    }
    let t: u128 = scale * m;
    proof {
        let u = pow2(e as nat);
        assert(scale * (m * u) == (scale * m) * u) by (nonlinear_arith);
        lemma_to_even(t as nat, e as nat, k as nat);
        assert(parts(x, scale as nat) == to_even(t as nat, pow2(k as nat)));
        vstd::arithmetic::power2::lemma2_to64();
        vstd::arithmetic::power2::lemma2_to64_rest();
    }
    if k >= 40 {
        proof {
            if k > 40 {
                vstd::arithmetic::power2::lemma_pow2_strictly_increases(40, k as nat);
            }
            let g = pow2(k as nat) as int;
            vstd::arithmetic::div_mod::lemma_basic_div(t as int, g);
            vstd::arithmetic::div_mod::lemma_small_mod(t as nat, g as nat);
            vstd::arithmetic::div_mod::lemma_basic_div(0, scale as int);
            vstd::arithmetic::div_mod::lemma_small_mod(0, scale as nat);
        }
        return (0, 0);
    }
    let g: u128 = single::power(k);
    proof {
        vstd::arithmetic::power2::lemma_pow2_strictly_increases(k as nat, 40);
        assert(t / g <= t) by (nonlinear_arith)
            requires
                t >= 0,
                g >= 1,
        ;
    }
    let q: u128 = t / g;
    let rest: u128 = t % g;
    let r: u128 = if 2 * rest > g || (2 * rest == g && q % 2 == 1) {
        q + 1
    } else {
        q
    };
    (r / scale, r % scale)
}

/// Appends what `x` reads as where it has no digits: it is infinite, or no number.
fn push_special(out: &mut Vec<char>, x: Single)
    requires
        !x.is_finite(),
    ensures
        x.is_nan() ==> final(out)@ == old(out)@ + "NaN"@,
        x.is_infinite() ==> final(out)@ == old(out)@ + (sign(x) + "inf"@),
{
    let ghost before = out@;
    if x.stands_for_none() {
        text::push_str(out, "NaN");
    } else {
        if x.has_minus() {
            out.push('-');
        }
        text::push_str(out, "inf");
        proof {
            assert(out@ =~= before + (sign(x) + "inf"@));
        }
    }
}

/// The last two digits of `t`.
proof fn lemma_last_two(t: nat)
    ensures
        t % 100 / 10 == t / 10 % 10,
        t % 100 % 10 == t % 10,
{
    let (q, r) = (t / 100, t % 100);
    assert(t == 100 * q + r);
    assert(t / 10 == 10 * q + r / 10);
}

/// Appends `x` with two decimals to `out`.
pub fn push_fixed2(out: &mut Vec<char>, x: Single)
    ensures
        final(out)@ == old(out)@ + fixed2(x),
{
    if x.at() >= single::INFINITY {
        push_special(out, x);
        return;
    }
    let ghost before = out@;
    let (whole, left) = parts_of(x, 100);
    if x.has_minus() {
        out.push('-');
    }
    push_digits(out, whole);
    out.push('.');
    out.push(digit_char(left / 10));
    out.push(digit_char(left % 10));
    proof {
        lemma_last_two(parts(x, 100));
        assert(out@ =~= before + fixed2(x));
    }
}

/// The last three digits of `t`.
proof fn lemma_last_three(t: nat)
    ensures
        t % 1_000 / 100 == t / 100 % 10,
        t % 1_000 / 10 % 10 == t / 10 % 10,
        t % 1_000 % 10 == t % 10,
        t % 1_000 / 100 < 10,
{
    let (q, r) = (t / 1_000, t % 1_000);
    assert(t == 1_000 * q + r);
    assert(t / 100 == 10 * q + r / 100);
    assert(t / 10 == 100 * q + r / 10);
}

/// Appends `x` with three decimals to `out`.
pub fn push_fixed3(out: &mut Vec<char>, x: Single)
    ensures
        final(out)@ == old(out)@ + fixed3(x),
{
    if x.at() >= single::INFINITY {
        push_special(out, x);
        return;
    }
    let ghost before = out@;
    let (whole, left) = parts_of(x, 1_000);
    if x.has_minus() {
        out.push('-');
    }
    push_digits(out, whole);
    out.push('.');
    out.push(digit_char(left / 100));
    out.push(digit_char(left / 10 % 10));
    out.push(digit_char(left % 10));
    proof {
        lemma_last_three(parts(x, 1_000));
        assert(out@ =~= before + fixed3(x));
    }
}

/// `c` is a decimal digit.
pub open spec fn is_digit(c: char) -> bool {
    '0' <= c <= '9'
}

/// Every character of `s` is a decimal digit.
pub open spec fn all_digits(s: Seq<char>) -> bool {
    forall|i: int| 0 <= i < s.len() ==> is_digit(#[trigger] s[i])
}

/// The number that decimal digits stand for.
pub open spec fn number_of(s: Seq<char>) -> nat
    decreases s.len(),
{
    if s.len() == 0 {
        0
    } else {
        number_of(s.drop_last()) * 10 + (s.last() as int - 48) as nat
    }
}

/// `s` without the plus sign that may stand before a number.
pub open spec fn unsigned_part(s: Seq<char>) -> Seq<char> {
    if s.len() > 0 && s[0] == '+' {
        s.skip(1)
    } else {
        s
    }
}

/// The number below `limit` or equal to it that `s` writes: digits, after a plus sign or not.
pub open spec fn parsed(s: Seq<char>, limit: nat) -> Option<nat> {
    let d = unsigned_part(s);
    if d.len() > 0 && all_digits(d) && number_of(d) <= limit {
        Some(number_of(d))
    } else {
        None
    }
}

/// More digits make no smaller number.
proof fn lemma_number_grows(s: Seq<char>, k: int)
    requires
        0 <= k <= s.len(),
        all_digits(s),
    ensures
        number_of(s.take(k)) <= number_of(s),
    decreases s.len() - k,
{
    if k == s.len() {
        assert(s.take(k) =~= s);
    } else {
        lemma_number_grows(s, k + 1);
        assert(s.take(k + 1).drop_last() =~= s.take(k));
        assert(is_digit(s[k]));
    }
}

/// The number up to `limit` that `v` writes.
pub fn parse_up_to(v: &Vec<char>, limit: u64) -> (r: Option<u64>)
    ensures
        r is Some == parsed(v@, limit as nat) is Some,
        r matches Some(n) ==> parsed(v@, limit as nat) == Some(n as nat) && n <= limit,
{
    let len: usize = v.len();
    let start: usize = if len > 0 && v[0] == '+' {
        1
    } else {
        0
    };
    let ghost d = unsigned_part(v@);
    proof {
        assert(d =~= v@.skip(start as int));
    }
    if start == len {
        return None;
    }
    let mut n: u64 = 0;
    for i in start..len
        invariant
            start <= i <= len,
            start <= 1,
            len == v.len(),
            d == v@.skip(start as int),
            d == unsigned_part(v@),
            d.len() > 0,
            n <= limit,
            all_digits(d.take(i - start)),
            n == number_of(d.take(i - start)),
    {
        let c = v[i];
        proof {
            assert(d[i - start] == c);
            assert(d.take(i - start + 1).drop_last() =~= d.take(i - start));
            assert(d.take(i - start + 1).last() == c);
        }
        if !('0' <= c && c <= '9') {
            proof {
                assert(!is_digit(d[i - start]));
            }
            return None;
        }
        let wide: u128 = n as u128 * 10 + (c as u32 - 48) as u128;
        proof {
            assert forall|j: int| 0 <= j < d.take(i - start + 1).len() implies is_digit(
                #[trigger] d.take(i - start + 1)[j],
            ) by {
                if j < i - start {
                    assert(d.take(i - start)[j] == d[j]);
                }
            }
            assert(wide == number_of(d.take(i - start + 1)));
        }
        if wide > limit as u128 {
            proof {
                if all_digits(d) {
                    lemma_number_grows(d, i - start + 1);
                }
            }
            return None;
        }
        n = wide as u64;
    }
    proof {
        assert(d.take(len - start) =~= d);
    }
    Some(n)
}

/// A digit behind others makes ten times their number, and itself.
proof fn lemma_push_digit(s: Seq<char>, k: int)
    requires
        0 <= k < 10,
    ensures
        number_of(s.push(digit(k))) == 10 * number_of(s) + k,
        is_digit(digit(k)),
        k > 0 ==> digit(k) != '0',
{
    assert(s.push(digit(k)).drop_last() =~= s);
    assert(s.push(digit(k)).last() == digit(k));
    assert(digit(k) as u32 == 48 + k);
}

/// A number is written as it is read: its digits stand for it, and the first is no zero unless it is the
/// only one.
pub proof fn law_digits_stand_for_their_number(n: nat)
    ensures
        number_of(digits(n)) == n,
        all_digits(digits(n)),
        digits(n).len() >= 1,
        digits(n).len() > 1 ==> digits(n)[0] != '0',
    decreases n,
{
    let none = Seq::<char>::empty();
    assert(number_of(none) == 0);
    if n < 10 {
        lemma_push_digit(none, n as int);
        assert(digits(n) =~= none.push(digit(n as int)));
    } else {
        law_digits_stand_for_their_number(n / 10);
        let (d, e) = (digits(n), digits(n / 10));
        lemma_push_digit(e, (n % 10) as int);
        assert forall|i: int| 0 <= i < d.len() implies is_digit(#[trigger] d[i]) by {
            if i < e.len() {
                assert(d[i] == e[i]);
            }
        }
        assert(d[0] == e[0]);
        if n / 10 < 10 {
            lemma_push_digit(none, (n / 10) as int);
            assert(e[0] == digit((n / 10) as int));
        } else {
            law_digits_stand_for_their_number(n / 10 / 10);
            assert(e.len() > 1);
        }
    }
}

/// A number is rounded to decimals to the nearest: what is written is no further from it than half a unit of
/// the last decimal.
pub proof fn law_decimals_are_the_nearest(x: Single, scale: nat)
    ensures
        ({
            let one = pow2(149) as int;
            let off = parts(x, scale) * one - scale * single::magnitude(x.place());
            -one <= 2 * off <= one
        }),
{
    reveal(parts);
    vstd::arithmetic::power2::lemma_pow2_pos(149);
    let (n, one) = ((scale * single::magnitude(x.place())) as int, pow2(149) as int);
    vstd::arithmetic::div_mod::lemma_fundamental_div_mod(n, one);
    let (q, rest) = (n / one, n % one);
    assert((q + 1) * one == q * one + one && one * q == q * one) by (nonlinear_arith);
}

/// A finite number with two decimals, or with three, is its sign, its whole part and a point with as many
/// digits behind it; these digits, read with those before the point, stand for the hundredths, or for the
/// thousandths, of its magnitude.
pub proof fn law_decimals_are_written_out(x: Single)
    requires
        x.is_finite(),
        !x.negative(),
    ensures
        ({
            let s = fixed2(x);
            let n = s.len() as int;
            &&& n >= 4 && s[n - 3] == '.'
            &&& number_of(s.take(n - 3) + s.skip(n - 2)) == parts(x, 100)
        }),
        ({
            let s = fixed3(x);
            let n = s.len() as int;
            &&& n >= 5 && s[n - 4] == '.'
            &&& number_of(s.take(n - 4) + s.skip(n - 3)) == parts(x, 1_000)
        }),
        fixed2(single::opposite(x)) == seq!['-'] + fixed2(x),
        fixed3(single::opposite(x)) == seq!['-'] + fixed3(x),
{
    let none = Seq::<char>::empty();
    {
        let h = parts(x, 100);
        let d = digits(h / 100);
        let s = fixed2(x);
        let n = s.len() as int;
        law_digits_stand_for_their_number(h / 100);
        assert(none + d =~= d);
        let (a, b) = (digit((h / 10 % 10) as int), digit((h % 10) as int));
        assert(s.take(n - 3) + s.skip(n - 2) =~= d.push(a).push(b));
        lemma_push_digit(d, (h / 10 % 10) as int);
        lemma_push_digit(d.push(a), (h % 10) as int);
        assert(h == 100 * (h / 100) + 10 * (h / 10 % 10) + h % 10);
    }
    {
        let t = parts(x, 1_000);
        let d = digits(t / 1_000);
        let s = fixed3(x);
        let n = s.len() as int;
        law_digits_stand_for_their_number(t / 1_000);
        assert(none + d =~= d);
        let (a, b, c) = (
            digit((t / 100 % 10) as int),
            digit((t / 10 % 10) as int),
            digit((t % 10) as int),
        );
        assert(s.take(n - 4) + s.skip(n - 3) =~= d.push(a).push(b).push(c));
        lemma_push_digit(d, (t / 100 % 10) as int);
        lemma_push_digit(d.push(a), (t / 10 % 10) as int);
        lemma_push_digit(d.push(a).push(b), (t % 10) as int);
        assert(t == 1_000 * (t / 1_000) + 100 * (t / 100 % 10) + 10 * (t / 10 % 10) + t % 10);
    }
    single::lemma_make(true, x.place());
    let o = single::opposite(x);
    reveal(parts);
    assert(parts(o, 100) == parts(x, 100) && parts(o, 1_000) == parts(x, 1_000));
    assert(fixed2(o) =~= seq!['-'] + fixed2(x));
    assert(fixed3(o) =~= seq!['-'] + fixed3(x));
}

/// Half way between two decimals, the even one is written; what is no number reads so, and infinity has its
/// sign.
pub proof fn law_half_decimals_go_to_the_even_one(x: Single, scale: nat)
    ensures
        ({
            let one = pow2(149) as int;
            let off = 2 * (parts(x, scale) * one - scale * single::magnitude(x.place()));
            off == one || off == -one ==> parts(x, scale) % 2 == 0
        }),
        x.is_nan() ==> fixed2(x) == "NaN"@ && fixed3(x) == "NaN"@,
        x.is_infinite() && !x.negative() ==> fixed2(x) == "inf"@ && fixed3(x) == "inf"@,
        x.is_infinite() && x.negative() ==> fixed2(x) == seq!['-'] + "inf"@ && fixed3(x) == seq!['-']
            + "inf"@,
{
    reveal(parts);
    vstd::arithmetic::power2::lemma_pow2_pos(149);
    let (n, one) = ((scale * single::magnitude(x.place())) as int, pow2(149) as int);
    vstd::arithmetic::div_mod::lemma_fundamental_div_mod(n, one);
    let (q, rest) = (n / one, n % one);
    assert((q + 1) * one == q * one + one && one * q == q * one) by (nonlinear_arith);
    assert(Seq::<char>::empty() + "inf"@ =~= "inf"@);
}

} // verus!
