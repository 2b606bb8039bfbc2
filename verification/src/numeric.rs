//! Numbers in answers: finding the text of the number that counts, and scoring by nearness.
//!
//! The numbers themselves are double-precision ones, which are read and compared elsewhere; here they
//! are texts.

use vstd::prelude::*;
use crate::numbers;
use crate::single;
use crate::single::Single;
use crate::text;

verus! {

/// A character that a number is written with.
pub open spec fn is_number_char(c: char) -> bool {
    numbers::is_digit(c) || c == '.' || c == '-'
}

/// Digits with at most one point among them, and at least one digit.
pub open spec fn is_decimal(s: Seq<char>) -> bool {
    &&& exists|i: int| 0 <= i < s.len() && numbers::is_digit(#[trigger] s[i])
    &&& forall|i: int| 0 <= i < s.len() ==> numbers::is_digit(#[trigger] s[i]) || s[i] == '.'
    &&& forall|i: int, j: int|
        0 <= i < j < s.len() ==> !(#[trigger] s[i] == '.' && #[trigger] s[j] == '.')
}

/// A decimal number, perhaps with a minus sign before it.
pub open spec fn is_number(s: Seq<char>) -> bool {
    if s.len() > 0 && s[0] == '-' {
        is_decimal(s.skip(1))
    } else {
        is_decimal(s)
    }
}

/// The first position at or after `from` that holds no character of a number, or the length of `s`.
pub open spec fn run_end(s: Seq<char>, from: int) -> int
    decreases s.len() - from,
{
    if from < 0 || from >= s.len() {
        s.len() as int
    } else if !is_number_char(s[from]) {
        from
    } else {
        run_end(s, from + 1)
    }
}

/// What lies before the position that `run_end` gives belongs to numbers; that position does not.
pub proof fn lemma_run_end(s: Seq<char>, from: int)
    requires
        0 <= from <= s.len(),
    ensures
        from <= run_end(s, from) <= s.len(),
        forall|i: int| from <= i < run_end(s, from) ==> is_number_char(#[trigger] s[i]),
        run_end(s, from) < s.len() ==> !is_number_char(s[run_end(s, from)]),
    decreases s.len() - from,
{
    if from < s.len() && is_number_char(s[from]) {
        lemma_run_end(s, from + 1);
    }
}

/// The last number among the stretches of number characters at or after `from`, or `last` where there
/// is none.
pub open spec fn last_number_from(s: Seq<char>, from: int, last: Option<Seq<char>>) -> Option<Seq<char>>
    decreases s.len() - from,
{
    if from < 0 || from >= s.len() {
        last
    } else if !is_number_char(s[from]) {
        last_number_from(s, from + 1, last)
    } else {
        let to = run_end(s, from);
        let run = s.subrange(from, to);
        proof {
            lemma_run_end(s, from);
        }
        last_number_from(
            s,
            to,
            if is_number(run) {
                Some(run)
            } else {
                last
            },
        )
    }
}

/// The last stretch of digits, points and minus signs in `s` that is a number.
pub open spec fn last_number(s: Seq<char>) -> Option<Seq<char>> {
    last_number_from(s, 0, None)
}

/// `s[i..j]` is a stretch of number characters that cannot be made longer.
pub open spec fn is_run(s: Seq<char>, i: int, j: int) -> bool {
    &&& 0 <= i < j <= s.len()
    &&& forall|k: int| i <= k < j ==> is_number_char(#[trigger] s[k])
    &&& i > 0 ==> !is_number_char(s[i - 1])
    &&& j < s.len() ==> !is_number_char(s[j])
}

/// The number that counts is a whole stretch of number characters, and no later stretch is a number.
pub open spec fn is_last_number(s: Seq<char>, from: int, number: Seq<char>) -> bool {
    exists|i: int, j: int| #[trigger]
        is_run(s, i, j) && from <= i && s.subrange(i, j) == number && is_number(number) && forall|
            a: int,
            b: int,
        |
            j <= a && #[trigger] is_run(s, a, b) ==> !is_number(s.subrange(a, b))
}

/// What `last_number_from` gives, by what it is.
proof fn lemma_last_number_from(s: Seq<char>, from: int, last: Option<Seq<char>>)
    requires
        0 <= from <= s.len(),
        0 < from < s.len() ==> !(is_number_char(s[from - 1]) && is_number_char(s[from])),
    ensures
        ({
            let r = last_number_from(s, from, last);
            ||| r is Some && is_last_number(s, from, r->0)
            ||| r == last && forall|a: int, b: int|
                from <= a && #[trigger] is_run(s, a, b) ==> !is_number(s.subrange(a, b))
        }),
    decreases s.len() - from,
{
    if from >= s.len() {
    } else if !is_number_char(s[from]) {
        lemma_last_number_from(s, from + 1, last);
        let r = last_number_from(s, from + 1, last);
        if r is Some && is_last_number(s, from + 1, r->0) {
            assert(is_last_number(s, from, r->0));
        }
        assert forall|a: int, b: int| from <= a && #[trigger] is_run(s, a, b) implies from + 1 <= a by {
            if a == from {
                assert(is_number_char(s[a]));
            }
        }
    } else {
        lemma_run_end(s, from);
        let to = run_end(s, from);
        assert(is_number_char(s[from]));
        assert(from < to) by {
            assert(run_end(s, from) == run_end(s, from + 1));
            lemma_run_end(s, from + 1);
        }
        let run = s.subrange(from, to);
        let kept = if is_number(run) {
            Some(run)
        } else {
            last
        };
        lemma_last_number_from(s, to, kept);
        let r = last_number_from(s, to, kept);
        assert(is_run(s, from, to));
        assert forall|a: int, b: int| from <= a && #[trigger] is_run(s, a, b) && a < to implies a == from
            && b == to by {
            if a > from {
                assert(is_number_char(s[a - 1]));
            }
            if b < to {
                assert(is_number_char(s[b]));
            }
            if to < b {
                assert(is_number_char(s[to]));
            }
        }
        if r is Some && is_last_number(s, to, r->0) {
            let (i, j) = choose|i: int, j: int| #[trigger]
                is_run(s, i, j) && to <= i && s.subrange(i, j) == r->0 && is_number(r->0) && forall|
                    a: int,
                    b: int,
                |
                    j <= a && #[trigger] is_run(s, a, b) ==> !is_number(s.subrange(a, b));
            assert(is_run(s, i, j) && from <= i);
            assert(is_last_number(s, from, r->0));
        } else if is_number(run) {
            assert(is_last_number(s, from, run));
        }
    }
}

/// The number that counts is a whole stretch of digits, points and minus signs, it is a number, and no
/// later stretch is one; where there is none, no stretch is a number.
pub proof fn law_last_number_is_the_last(s: Seq<char>)
    ensures
        match last_number(s) {
            Some(number) => is_last_number(s, 0, number),
            None => forall|a: int, b: int| #[trigger]
                is_run(s, a, b) ==> !is_number(s.subrange(a, b)),
        },
{
    lemma_last_number_from(s, 0, None);
}

/// Whether `v[from..]` is digits with at most one point among them, and at least one digit.
fn decimal_from(v: &Vec<char>, from: usize) -> (r: bool)
    requires
        from <= v.len(),
    ensures
        r == is_decimal(v@.skip(from as int)),
{
    let n: usize = v.len();
    let ghost s = v@.skip(from as int);
    let mut digit = false;
    let mut point = false;
    let mut i: usize = from;
    while i < n
        invariant
            n == v.len(),
            from <= i <= n,
            s == v@.skip(from as int),
            digit == (exists|k: int| 0 <= k < i - from && numbers::is_digit(#[trigger] s[k])),
            point == (exists|k: int| 0 <= k < i - from && #[trigger] s[k] == '.'),
            forall|k: int| 0 <= k < i - from ==> numbers::is_digit(#[trigger] s[k]) || s[k] == '.',
            forall|j: int, k: int|
                0 <= j < k < i - from ==> !(#[trigger] s[j] == '.' && #[trigger] s[k] == '.'),
        decreases n - i,
    {
        let c = v[i];
        proof {
            assert(s[i - from] == c);
        }
        if '0' <= c && c <= '9' {
            digit = true;
        } else if c == '.' && !point {
            point = true;
        } else {
            return false;
        }
        i = i + 1;
    }
    digit
}

/// Whether `v` is a decimal number, perhaps with a minus sign before it.
fn is_number_text(v: &Vec<char>) -> (r: bool)
    ensures
        r == is_number(v@),
{
    if v.len() > 0 && v[0] == '-' {
        decimal_from(v, 1)
    } else {
        proof {
            assert(v@.skip(0) =~= v@);
        }
        decimal_from(v, 0)
    }
}

/// The last stretch of digits, points and minus signs in `s` that is a number.
pub fn extract_last_number(s: &str) -> (r: Option<String>)
    ensures
        text::opt_view(r) == last_number(s@),
{
    let v = text::chars_of(s);
    let n: usize = v.len();
    let mut last: Option<String> = None;
    let mut i: usize = 0;
    while i < n
        invariant
            n == v.len(),
            v@ == s@,
            i <= n,
            last_number(s@) == last_number_from(s@, i as int, text::opt_view(last)),
        decreases n - i,
    {
        let from: usize = i;
        let ghost kept = text::opt_view(last);
        while i < n && ('0' <= v[i] && v[i] <= '9' || v[i] == '.' || v[i] == '-')
            invariant
                n == v.len(),
                v@ == s@,
                from <= i <= n,
                run_end(s@, from as int) == run_end(s@, i as int),
            decreases n - i,
        {
            i = i + 1;
        }
        proof {
            lemma_run_end(s@, from as int);
        }
        if from < i {
            let run = text::slice_of(&v, from, i);
            if is_number_text(&run) {
                last = Some(text::string_of(&run));
            }
        } else {
            i = i + 1;
        }
    }
    last
}

/// A right answer as it is read as a number: without white space around it and without commas.
pub open spec fn without_commas(s: Seq<char>) -> Seq<char> {
    text::replace_char(text::trim(s), ',', Seq::empty())
}

/// A right answer as it is read as a number.
pub fn parse_number(s: &str) -> (r: String)
    ensures
        r@ == without_commas(s@),
{
    let none: Vec<char> = Vec::new();
    proof {
        assert(none@ =~= Seq::<char>::empty());
    }
    text::string_of(
        &text::replace_char_with(&text::trim_chars(&text::chars_of(s)), ',', &none),
    )
}

/// 1 where the answer is near one of the right ones, else 0. `near[i]` says whether the last number in
/// the answer and the right answer at `i` are both numbers and nearly the same.
pub open spec fn numeric_score(near: Seq<bool>) -> Single {
    if exists|i: int| 0 <= i < near.len() && #[trigger] near[i] {
        single::one()
    } else {
        single::zero()
    }
}

/// 1 where the answer is near one of the right ones, else 0.
pub fn score_numeric(near: &[bool]) -> (r: Single)
    ensures
        r == numeric_score(near@),
{
    let n: usize = near.len();
    for i in 0..n
        invariant
            n == near@.len(),
            forall|k: int| 0 <= k < i ==> !#[trigger] near@[k],
    {
        if near[i] {
            return Single { bits: single::ONE };
        }
    }
    Single { bits: 0 }
}

/// An answer scores 1 where it is near one of the right ones, and 0 where it is near none.
pub proof fn law_near_answers_score(near: Seq<bool>, i: int)
    ensures
        0 <= i < near.len() && near[i] ==> numeric_score(near) == (Single { bits: 0x3f80_0000 }),
        (forall|k: int| 0 <= k < near.len() ==> !#[trigger] near[k]) ==> numeric_score(near) == (
        Single { bits: 0 }),
{
}

/// Digits that stand by themselves, with a minus sign before them or not, are the number that counts, where
/// nothing that numbers are written with stands behind them.
pub proof fn law_last_digits_count(before: Seq<char>, number: Seq<char>, after: Seq<char>)
    requires
        before.len() > 0 ==> !('0' <= before.last() <= '9') && before.last() != '.' && before.last()
            != '-',
        number.len() > 0,
        number.len() > 1 || number[0] != '-',
        '0' <= number[0] <= '9' || number[0] == '-',
        forall|i: int| 1 <= i < number.len() ==> '0' <= #[trigger] number[i] <= '9',
        forall|i: int|
            0 <= i < after.len() ==> !('0' <= #[trigger] after[i] <= '9') && after[i] != '.' && after[i]
                != '-',
    ensures
        last_number(before + number + after) == Some(number),
{
    let s = before + number + after;
    let (i, j) = (before.len() as int, (before.len() + number.len()) as int);
    assert forall|k: int| i <= k < j implies is_number_char(#[trigger] s[k]) by {
        assert(s[k] == number[k - i]);
    }
    if i > 0 {
        assert(s[i - 1] == before.last());
    }
    if j < s.len() {
        assert(s[j] == after[0]);
    }
    assert(is_run(s, i, j));
    assert(s.subrange(i, j) =~= number);
    let digits = if number[0] == '-' {
        number.skip(1)
    } else {
        number
    };
    assert forall|k: int| 0 <= k < digits.len() implies numbers::is_digit(#[trigger] digits[k]) by {
        if number[0] == '-' {
            assert(digits[k] == number[k + 1]);
        } else if k > 0 {
            assert(digits[k] == number[k]);
        }
    }
    assert(numbers::is_digit(digits[0]));
    assert(is_decimal(digits));
    assert(is_number(number));
    law_last_number_is_the_last(s);
    match last_number(s) {
        Some(found) => {
            let (a, b) = choose|a: int, b: int| #[trigger]
                is_run(s, a, b) && 0 <= a && s.subrange(a, b) == found && is_number(found) && forall|
                    c: int,
                    d: int,
                |
                    b <= c && #[trigger] is_run(s, c, d) ==> !is_number(s.subrange(c, d));
            if b <= i {
                assert(is_run(s, i, j));
                assert(false);
            }
            if a >= j {
                assert(is_number_char(s[a]));
                assert(s[a] == after[a - j]);
            }
            if a < i {
                assert(is_number_char(s[i - 1]));
            }
            if a > i {
                assert(is_number_char(s[a - 1]));
            }
            assert(a == i);
            if b < j {
                assert(is_number_char(s[b]));
            }
            if b > j {
                assert(is_number_char(s[j]));
            }
            assert(b == j);
        },
        None => {
            assert(is_run(s, i, j));
        },
    }
}

/// A right answer is read as a number without the white space around it and without its commas: these are
/// left out one by one, and nothing else is.
pub proof fn law_commas_are_left_out(a: Seq<char>, b: Seq<char>, s: Seq<char>)
    requires
        forall|i: int| 0 <= i < s.len() ==> s[i] != ',',
        (s + seq![','] + a).len() > 0 ==> !text::is_white((s + seq![','] + a)[0]),
        !text::is_white((s + seq![','] + a).last()),
        s.len() > 0 ==> !text::is_white(s[0]) && !text::is_white(s.last()),
        forall|i: int| 0 <= i < b.len() ==> text::is_white(#[trigger] b[i]),
    ensures
        without_commas(b + s + b) == s,
        without_commas(b + (s + seq![','] + a) + b) == s + text::replace_char(a, ',', Seq::empty()),
{
    let none = Seq::<char>::empty();
    text::law_trimming_takes_off_white_space(b, s, b);
    text::law_trimming_takes_off_white_space(b, s + seq![','] + a, b);
    text::law_replacing_goes_by_parts(s, none, ',', none);
    text::law_replacing_goes_by_parts(s + seq![','], a, ',', none);
    text::law_replacing_goes_by_parts(s, seq![','], ',', none);
    assert(s + none =~= s);
}

/// A decimal number that stands by itself, with a minus sign before it or not and with digits before its point
/// or behind it, is the number that counts, where no digit stands behind it.
pub proof fn law_last_decimals_count(
    before: Seq<char>,
    minus: bool,
    whole: Seq<char>,
    decimals: Seq<char>,
    after: Seq<char>,
)
    requires
        before.len() > 0 ==> !('0' <= before.last() <= '9') && before.last() != '.' && before.last()
            != '-',
        whole.len() + decimals.len() > 0,
        forall|i: int| 0 <= i < whole.len() ==> '0' <= #[trigger] whole[i] <= '9',
        forall|i: int| 0 <= i < decimals.len() ==> '0' <= #[trigger] decimals[i] <= '9',
        forall|i: int| 0 <= i < after.len() ==> !('0' <= #[trigger] after[i] <= '9'),
        after.len() > 0 ==> after[0] != '.' && after[0] != '-',
    ensures
        ({
            let sign = if minus {
                seq!['-']
            } else {
                Seq::<char>::empty()
            };
            let number = sign + (whole + seq!['.'] + decimals);
            last_number(before + number + after) == Some(number)
        }),
{
    let sign = if minus {
        seq!['-']
    } else {
        Seq::<char>::empty()
    };
    let digits = whole + seq!['.'] + decimals;
    let number = sign + digits;
    let s = before + number + after;
    let (i, j) = (before.len() as int, (before.len() + number.len()) as int);
    let w = whole.len() as int;
    assert forall|k: int| 0 <= k < digits.len() implies (if k == w {
        #[trigger] digits[k] == '.'
    } else {
        numbers::is_digit(digits[k])
    }) by {
        if k < w {
            assert(digits[k] == whole[k]);
        } else if k > w {
            assert(digits[k] == decimals[k - w - 1]);
        }
    }
    assert(is_decimal(digits)) by {
        if w > 0 {
            assert(numbers::is_digit(digits[0]));
        } else {
            assert(numbers::is_digit(digits[1]));
        }
    }
    assert forall|k: int| i <= k < j implies is_number_char(#[trigger] s[k]) by {
        assert(s[k] == number[k - i]);
        if k - i >= sign.len() {
            assert(number[k - i] == digits[k - i - sign.len()]);
        }
    }
    if minus {
        assert(number.skip(1) =~= digits);
    } else {
        assert(number =~= digits);
        assert(number[0] == digits[0]);
    }
    assert(is_number(number));
    if i > 0 {
        assert(s[i - 1] == before.last());
    }
    if j < s.len() {
        assert(s[j] == after[0]);
    }
    assert(is_run(s, i, j));
    assert(s.subrange(i, j) =~= number);
    law_last_number_is_the_last(s);
    match last_number(s) {
        Some(found) => {
            let (a, b) = choose|a: int, b: int| #[trigger]
                is_run(s, a, b) && 0 <= a && s.subrange(a, b) == found && is_number(found) && forall|
                    c: int,
                    d: int,
                |
                    b <= c && #[trigger] is_run(s, c, d) ==> !is_number(s.subrange(c, d));
            if b <= i {
                assert(is_run(s, i, j));
                assert(false);
            }
            if a >= j {
                let part = if found[0] == '-' {
                    found.skip(1)
                } else {
                    found
                };
                let x = choose|x: int| 0 <= x < part.len() && numbers::is_digit(#[trigger] part[x]);
                let at = if found[0] == '-' {
                    x + 1
                } else {
                    x
                };
                assert(found[at] == part[x]);
                assert(found[at] == s[a + at]);
                assert(s[a + at] == after[a + at - j]);
                assert(false);
            }
            if a < i {
                assert(is_number_char(s[i - 1]));
            }
            if a > i {
                assert(is_number_char(s[a - 1]));
            }
            assert(a == i);
            if b < j {
                assert(is_number_char(s[b]));
            }
            if b > j {
                assert(is_number_char(s[j]));
            }
            assert(b == j);
        },
        None => {
            assert(is_run(s, i, j));
        },
    }
}

/// A text without digits has no number.
pub proof fn law_there_is_no_number_without_digits(s: Seq<char>)
    requires
        forall|i: int| 0 <= i < s.len() ==> !('0' <= #[trigger] s[i] <= '9'),
    ensures
        last_number(s) is None,
{
    law_last_number_is_the_last(s);
    if let Some(found) = last_number(s) {
        let (a, b) = choose|a: int, b: int| #[trigger]
            is_run(s, a, b) && 0 <= a && s.subrange(a, b) == found && is_number(found) && forall|
                c: int,
                d: int,
            |
                b <= c && #[trigger] is_run(s, c, d) ==> !is_number(s.subrange(c, d));
        let part = if found[0] == '-' {
            found.skip(1)
        } else {
            found
        };
        let x = choose|x: int| 0 <= x < part.len() && numbers::is_digit(#[trigger] part[x]);
        let at = if found[0] == '-' {
            x + 1
        } else {
            x
        };
        assert(found[at] == part[x]);
        assert(found[at] == s[a + at]);
        assert(false);
    }
}

} // verus!
