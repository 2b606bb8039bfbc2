//! The calculator that an agent may call: finding the call and working out its value.

use vstd::prelude::*;
use crate::tame;
use crate::text;

verus! {

// ---------------------------------------------------------------------------------------------
// The call
// ---------------------------------------------------------------------------------------------

/// What stands before the expression of a call.
pub const CALC_OPEN: &'static str = "<tool name=\"calc\">";

/// What stands behind the expression of a call.
pub const CALC_CLOSE: &'static str = "</tool>";

/// The expression of the first call in `s`, without white space around it. There is none where no call
/// is opened, or where the first one is not closed.
pub open spec fn called(s: Seq<char>) -> Option<Seq<char>> {
    match text::find_in(s, CALC_OPEN@) {
        None => None,
        Some(i) => {
            let rest = s.skip(i + CALC_OPEN@.len());
            match text::find_in(rest, CALC_CLOSE@) {
                None => None,
                Some(j) => Some(text::trim(rest.take(j))),
            }
        },
    }
}

/// The expression of the first call in `s`.
pub fn extract_calc(s: &str) -> (r: Option<String>)
    ensures
        text::opt_view(r) == called(s@),
{
    let v = text::chars_of(s);
    let open = text::chars_of(CALC_OPEN);
    let close = text::chars_of(CALC_CLOSE);
    match text::find_chars(&v, &open) {
        None => None,
        Some(i) => {
            let n: usize = v.len();
            let rest = text::slice_of(&v, i + open.len(), n);
            proof {
                assert(rest@ =~= v@.skip(i + open@.len()));
            }
            match text::find_chars(&rest, &close) {
                None => None,
                Some(j) => {
                    let expr = text::slice_of(&rest, 0, j);
                    proof {
                        assert(expr@ =~= rest@.take(j as int));
                    }
                    Some(text::string_of(&text::trim_chars(&expr)))
                },
            }
        },
    }
}

// ---------------------------------------------------------------------------------------------
// The value
// ---------------------------------------------------------------------------------------------

/// What evaluating an expression comes to. A number is a double-precision one, given by its bit pattern
/// and as it is written.
#[derive(Debug)]
pub enum CalcOutcome {
    Failed,
    NotNumber,
    Number { bits: u64, text: String },
}

/// What a `CalcOutcome` says.
pub enum CalcOutcomeView {
    Failed,
    NotNumber,
    Number { bits: u64, text: Seq<char> },
}

impl View for CalcOutcome {
    type V = CalcOutcomeView;

    open spec fn view(&self) -> CalcOutcomeView {
        match *self {
            CalcOutcome::Failed => CalcOutcomeView::Failed,
            CalcOutcome::NotNumber => CalcOutcomeView::NotNumber,
            CalcOutcome::Number { bits, text } => CalcOutcomeView::Number { bits, text: text@ },
        }
    }
}

/// A finite number: its bit pattern as a double-precision number, and how it is written.
#[derive(Debug)]
pub struct CalcNumber {
    pub bits: u64,
    pub text: String,
}

/// What a `CalcNumber` says.
pub struct CalcNumberView {
    pub bits: u64,
    pub text: Seq<char>,
}

impl View for CalcNumber {
    type V = CalcNumberView;

    open spec fn view(&self) -> CalcNumberView {
        CalcNumberView { bits: self.bits, text: self.text@ }
    }
}

/// What a number says, where there is one.
pub open spec fn number_view(n: Option<CalcNumber>) -> Option<CalcNumberView> {
    match n {
        Some(n) => Some(n@),
        None => None,
    }
}

/// Evaluating `expr` may come to `outcome`. (A power or a sine is as exact as the machine makes it, so
/// there may be more than one.)
pub uninterp spec fn evalexpr_yields(expr: Seq<char>, outcome: CalcOutcomeView) -> bool;

/// `evalexpr::eval`, and `Value::as_number` of what it gives: the outcome is one that evaluating the
/// expression may come to. What the value of an expression is, is left unsaid.
#[verifier::external_body]
fn evaluate(expr: &str) -> (r: CalcOutcome)
    requires
        tame::tame(expr@),
    ensures
        evalexpr_yields(expr@, r@),
{
    match evalexpr::eval(expr) {
        Err(_) => CalcOutcome::Failed,
        Ok(v) => match v.as_number() {
            Err(_) => CalcOutcome::NotNumber,
            Ok(f) => CalcOutcome::Number { bits: f.to_bits(), text: f.to_string() },
        },
    }
}

/// The bit pattern is that of a finite double-precision number: its exponent is not all ones.
pub open spec fn is_finite(bits: u64) -> bool {
    bits / 0x10_0000_0000_0000 % 0x800 != 0x7ff
}

/// The number that an outcome gives: a finite one, or none.
pub open spec fn number_in(outcome: CalcOutcomeView) -> Option<CalcNumberView> {
    match outcome {
        CalcOutcomeView::Number { bits, text } if is_finite(bits) => Some(
            CalcNumberView { bits, text },
        ),
        _ => None,
    }
}

/// `expr` with every division turned into one of numbers that are not integers.
pub open spec fn promoted(expr: Seq<char>) -> Seq<char> {
    text::replace_char(expr, '/', "*1.0/"@)
}

/// The value that two outcomes give: what the promoted expression comes to or, where that fails, what
/// the expression comes to as it stands.
pub open spec fn chosen(first: CalcOutcomeView, second: Option<CalcOutcomeView>) -> Option<
    CalcNumberView,
> {
    match (first, second) {
        (CalcOutcomeView::Failed, Some(o)) => number_in(o),
        _ => number_in(first),
    }
}

/// The value of `expr` may be `value`. The expression is evaluated as it stands only where it fails
/// when promoted.
pub open spec fn calculated(expr: Seq<char>, value: Option<CalcNumberView>) -> bool {
    exists|first: CalcOutcomeView| #[trigger]
        evalexpr_yields(promoted(expr), first) && if first is Failed {
            exists|second: CalcOutcomeView| #[trigger]
                evalexpr_yields(expr, second) && value == chosen(first, Some(second))
        } else {
            value == chosen(first, None)
        }
}

/// The number that an outcome gives.
pub fn number_of_outcome(outcome: CalcOutcome) -> (r: Option<CalcNumber>)
    ensures
        number_view(r) == number_in(outcome@),
{
    match outcome {
        CalcOutcome::Number { bits, text } => {
            if bits / 0x10_0000_0000_0000 % 0x800 != 0x7ff {
                Some(CalcNumber { bits, text })
            } else {
                None
            }
        },
        _ => None,
    }
}

/// `expr` with every division turned into one of numbers that are not integers.
pub fn promote(expr: &str) -> (r: String)
    ensures
        r@ == promoted(expr@),
{
    let v = text::chars_of(expr);
    text::string_of(&text::replace_char_with(&v, '/', &text::chars_of("*1.0/")))
}

/// What an outcome says, where there is one.
pub open spec fn outcome_view(o: Option<CalcOutcome>) -> Option<CalcOutcomeView> {
    match o {
        Some(o) => Some(o@),
        None => None,
    }
}

/// The value that two outcomes give: `first` is what the promoted expression comes to, `second` what the
/// expression comes to as it stands, which counts only where the first is a failure.
pub fn value_of(first: CalcOutcome, second: Option<CalcOutcome>) -> (r: Option<CalcNumber>)
    ensures
        number_view(r) == chosen(first@, outcome_view(second)),
{
    match first {
        CalcOutcome::Failed => match second {
            Some(o) => number_of_outcome(o),
            None => None,
        },
        _ => number_of_outcome(first),
    }
}

/// The value of `expr`, where that is a finite number. Integers are divided as numbers that are not
/// integers.
pub fn eval_calc(expr: &str) -> (r: Option<CalcNumber>)
    requires
        tame::tame(expr@),
        tame::tame(promoted(expr@)),
    ensures
        calculated(expr@, number_view(r)),
{
    let first = evaluate(promote(expr).as_str());
    let second = match &first {
        CalcOutcome::Failed => Some(evaluate(expr)),
        _ => None,
    };
    proof {
        assert(evalexpr_yields(promoted(expr@), first@));
        if second is Some {
            assert(evalexpr_yields(expr@, second->0@));
        }
    }
    value_of(first, second)
}

/// Where `p` holds its first character nowhere else, it cannot begin in a text and end in `p`: in a text
/// that does not hold `p`, with `p` behind it, it first stands there.
proof fn lemma_first_behind(before: Seq<char>, p: Seq<char>, after: Seq<char>)
    requires
        p.len() > 0,
        forall|k: int| 0 < k < p.len() ==> #[trigger] p[k] != p[0],
        !text::contains_text(before, p),
    ensures
        text::find_in(before + p + after, p) == Some(before.len() as int),
{
    let s = before + p + after;
    let i = before.len() as int;
    text::lemma_find_from(before, p, 0);
    assert(s.subrange(i, i + p.len()) =~= p);
    assert forall|j: int| 0 <= j < i implies !text::occurs_at(s, p, j) by {
        if text::occurs_at(s, p, j) {
            let here = s.subrange(j, j + p.len());
            if j + p.len() <= i {
                assert(before.subrange(j, j + p.len()) =~= here);
                assert(text::occurs_at(before, p, j));
            } else {
                assert(here[i - j] == s[i]);
                assert(s[i] == p[0]);
                assert(p[i - j] != p[0]);
            }
        }
    }
    text::lemma_find_from_is(s, p, 0, i);
}

/// The expression of a call is found, where no call is opened before and the expression does not close
/// it.
pub proof fn law_calls_are_found(before: Seq<char>, expr: Seq<char>, after: Seq<char>)
    requires
        !text::contains_text(before, CALC_OPEN@),
        !text::contains_text(expr, CALC_CLOSE@),
    ensures
        called(before + CALC_OPEN@ + expr + CALC_CLOSE@ + after) == Some(text::trim(expr)),
{
    reveal_strlit("<tool name=\"calc\">");
    reveal_strlit("</tool>");
    let (open, close) = (CALC_OPEN@, CALC_CLOSE@);
    let rest = expr + close + after;
    let s = before + open + expr + close + after;
    assert(s =~= before + open + rest);
    lemma_first_behind(before, open, rest);
    assert(s.skip(before.len() as int + open.len()) =~= rest);
    lemma_first_behind(expr, close, after);
    assert(rest.take(expr.len() as int) =~= expr);
}

/// A calculated value is a finite number.
pub proof fn law_calculated_values_are_finite(expr: Seq<char>, value: CalcNumberView)
    requires
        calculated(expr, Some(value)),
    ensures
        is_finite(value.bits),
{
}

/// A text in which no call is opened, or in which the first one that is opened is not closed, calls
/// nothing.
pub proof fn law_unfinished_calls_call_nothing(before: Seq<char>, after: Seq<char>)
    requires
        !text::contains_text(before, "<tool name=\"calc\">"@),
        !text::contains_text(after, "</tool>"@),
    ensures
        called(before) is None,
        called(before + "<tool name=\"calc\">"@ + after) is None,
{
    reveal_strlit("<tool name=\"calc\">");
    reveal_strlit("</tool>");
    let open = "<tool name=\"calc\">"@;
    assert(CALC_OPEN@ == open && CALC_CLOSE@ == "</tool>"@);
    lemma_first_behind(before, open, after);
    let s = before + open + after;
    assert(s.skip(before.len() as int + open.len()) =~= after);
}

/// Every division is promoted, by a factor of 1.0 before it, and nothing else of an expression changes.
pub proof fn law_divisions_are_promoted(a: Seq<char>, b: Seq<char>)
    ensures
        promoted(a + seq!['/'] + b) == promoted(a) + "*1.0/"@ + promoted(b),
        (forall|i: int| 0 <= i < a.len() ==> a[i] != '/') ==> promoted(a) == a,
{
    let by = "*1.0/"@;
    text::law_replacing_goes_by_parts(a + seq!['/'], b, '/', by);
    text::law_replacing_goes_by_parts(a, seq!['/'], '/', by);
}

/// A number is finite exactly where its magnitude lies below that of infinity.
pub proof fn law_finite_numbers_lie_below_infinity(bits: u64)
    ensures
        is_finite(bits) <==> bits as int % 0x8000_0000_0000_0000 < 0x7ff0_0000_0000_0000,
{
    let b = bits as int;
    let (q, r) = (b / 0x10_0000_0000_0000, b % 0x10_0000_0000_0000);
    assert(b == q * 0x10_0000_0000_0000 + r);
    assert(q / 0x800 == b / 0x8000_0000_0000_0000);
    assert(b % 0x8000_0000_0000_0000 == (q % 0x800) * 0x10_0000_0000_0000 + r);
}

/// What the promoted expression comes to counts: a finite number is the value, anything else that is no
/// failure gives none. Only where it fails does the expression as it stands count, in the same way.
pub proof fn law_promoted_outcomes_count_first(
    first: CalcOutcomeView,
    second: CalcOutcomeView,
    bits: u64,
    text: Seq<char>,
)
    ensures
        first == (CalcOutcomeView::Number { bits, text }) && is_finite(bits) ==> chosen(first, None)
            == Some(CalcNumberView { bits, text }) && chosen(first, Some(second)) == Some(
            CalcNumberView { bits, text },
        ),
        first == (CalcOutcomeView::Number { bits, text }) && !is_finite(bits) ==> chosen(first, None)
            is None && chosen(first, Some(second)) is None,
        first is NotNumber ==> chosen(first, None) is None && chosen(first, Some(second)) is None,
        first is Failed ==> chosen(first, None) is None,
        first is Failed && second == (CalcOutcomeView::Number { bits, text }) && is_finite(bits)
            ==> chosen(first, Some(second)) == Some(CalcNumberView { bits, text }),
        first is Failed && !(second is Number) ==> chosen(first, Some(second)) is None,
{
}

} // verus!
