//! Deciding whether a candidate skill is taken over.

use vstd::prelude::*;
use crate::single;
use crate::single::Single;
use crate::single_laws;
use crate::types::{Edit, GateDecision};

verus! {

/// A candidate's score on the selection items, and what it is held against.
pub struct GateInput<'a> {
    pub candidate_score: Single,
    pub current_score: Single,
    pub best_score: Single,
    pub patch: &'a [Edit],
}

/// What was decided, and the score that the candidate would cost.
pub struct GateOutput {
    pub decision: GateDecision,
    pub score_drop: Single,
}

/// The bits of one ten-thousandth. A candidate is the new best where it beats the best so far by more
/// than this.
pub const EPS: u32 = 0x38d1_b717;

/// What is decided about a candidate: it is the new best where it beats the best so far by more than
/// `EPS`; else it is taken over where it scores no lower than the current skill.
pub open spec fn decide(candidate: Single, current: Single, best: Single) -> GateDecision {
    if single::less(single::sum(best, Single { bits: EPS }), candidate) {
        GateDecision::AcceptNewBest
    } else if single::at_most(current, candidate) {
        GateDecision::Accept
    } else {
        GateDecision::Reject
    }
}

/// The score that a candidate would cost.
pub open spec fn drop_of(candidate: Single, current: Single) -> Single {
    let d = single::difference(current, candidate);
    if single::less(single::zero(), d) {
        d
    } else {
        single::zero()
    }
}

/// Decides about a candidate.
pub fn evaluate_gate(input: &GateInput) -> (r: GateOutput)
    ensures
        r.decision == decide(input.candidate_score, input.current_score, input.best_score),
        r.score_drop == drop_of(input.candidate_score, input.current_score),
{
    let none = Single { bits: 0 };
    let lost = input.current_score.minus(input.candidate_score);
    let score_drop = if none.is_less(lost) {
        lost
    } else {
        none
    };
    if input.best_score.plus(Single { bits: EPS }).is_less(input.candidate_score) {
        GateOutput { decision: GateDecision::AcceptNewBest, score_drop }
    } else if input.current_score.is_at_most(input.candidate_score) {
        GateOutput { decision: GateDecision::Accept, score_drop }
    } else {
        GateOutput { decision: GateDecision::Reject, score_drop }
    }
}

// ---------------------------------------------------------------------------------------------
// Laws
// ---------------------------------------------------------------------------------------------

/// A new best is better than the best so far.
pub proof fn law_new_best_is_better(candidate: Single, current: Single, best: Single)
    ensures
        decide(candidate, current, best) == GateDecision::AcceptNewBest ==> single::less(
            best,
            candidate,
        ),
{
    let eps = Single { bits: EPS };
    assert(eps.is_finite() && !eps.negative());
    if !best.is_nan() {
        single_laws::lemma_sum_at_least(best, eps);
    }
}

/// A candidate that scores as the current skill does, or better, is never rejected.
pub proof fn law_no_worse_is_accepted(candidate: Single, current: Single, best: Single)
    requires
        single::at_most(current, candidate),
    ensures
        decide(candidate, current, best) != GateDecision::Reject,
{
}

/// A candidate that is rejected scores worse than the current skill, where both have a score, and its
/// score drop says by how much.
pub proof fn law_rejected_is_worse(candidate: Single, current: Single, best: Single)
    requires
        decide(candidate, current, best) == GateDecision::Reject,
        !candidate.is_nan(),
        !current.is_nan(),
    ensures
        single::less(candidate, current),
        drop_of(candidate, current) == single::difference(current, candidate),
        single::less(single::zero(), drop_of(candidate, current)),
{
    single_laws::lemma_difference_is_positive(current, candidate);
}

/// A candidate that scores lower than the current skill is rejected, however small the drop.
pub proof fn law_lower_scores_are_rejected(candidate: Single, current: Single, best: Single)
    requires
        single::less(candidate, current),
        single::at_most(current, best),
    ensures
        decide(candidate, current, best) == GateDecision::Reject,
{
    law_new_best_is_better(candidate, current, best);
}

/// A candidate that has no score is rejected.
pub proof fn law_no_score_is_rejected(candidate: Single, current: Single, best: Single)
    requires
        candidate.is_nan(),
    ensures
        decide(candidate, current, best) == GateDecision::Reject,
{
}

/// A higher score never does worse: what is taken over stays so, and what is the new best stays so. Nor
/// does it cost more.
pub proof fn law_higher_scores_do_no_worse(low: Single, high: Single, current: Single, best: Single)
    requires
        single::at_most(low, high),
    ensures
        decide(high, current, best) == GateDecision::Reject ==> decide(low, current, best)
            == GateDecision::Reject,
        decide(low, current, best) == GateDecision::AcceptNewBest ==> decide(high, current, best)
            == GateDecision::AcceptNewBest,
        single::at_most(drop_of(high, current), drop_of(low, current)),
{
    single::lemma_make(!low.negative(), low.place());
    single::lemma_make(!high.negative(), high.place());
    single::lemma_made(low);
    single::lemma_made(high);
    if current.is_finite() && low.is_finite() && high.is_finite() {
        let (l, h) = (single::opposite(low), single::opposite(high));
        single::lemma_order(low, high);
        single_laws::lemma_sum_grows(h, l, current);
        single_laws::lemma_sum(h, current);
        single_laws::lemma_sum(l, current);
        single_laws::lemma_sum(current, h);
        single_laws::lemma_sum(current, l);
    }
}

/// The margin of a new best is one ten-thousandth, as near as single precision comes to it.
pub proof fn law_margin_is_a_ten_thousandth(x: Single)
    requires
        x.is_finite(),
    ensures
        ({
            let exact = vstd::arithmetic::power2::pow2(149) as int;
            let (near, far) = (10_000 * (Single { bits: EPS }).value() - exact, 10_000 * x.value() - exact);
            (if near < 0 {
                -near
            } else {
                near
            }) <= (if far < 0 {
                -far
            } else {
                far
            })
        }),
{
    let u = vstd::arithmetic::power2::pow2(112);
    let p = vstd::arithmetic::power2::pow2(149);
    vstd::arithmetic::power2::lemma2_to64();
    vstd::arithmetic::power2::lemma2_to64_rest();
    vstd::arithmetic::power2::lemma_pow2_adds(37, 112);
    single::lemma_magnitude_at(112, 0xd1_b717);
    single::lemma_magnitude_at(112, 0xd1_b716);
    single::lemma_magnitude_at(112, 0xd1_b718);
    let b = EPS as nat;
    single::lemma_magnitude_grows(0, x.place());
    if x.place() < b {
        single::lemma_magnitude_grows(x.place(), (b - 1) as nat);
    } else if b < x.place() {
        single::lemma_magnitude_grows(b + 1, x.place());
    }
}

/// What is decided goes by two comparisons: with the best score and the margin, and with the current score;
/// a candidate that meets neither is rejected. What it would cost is the difference to the current score
/// where that is more than nothing, and nothing else.
pub proof fn law_decisions_go_by_two_comparisons(candidate: Single, current: Single, best: Single)
    ensures
        ({
            let beats = single::less(single::sum(best, Single { bits: 0x38d1_b717 }), candidate);
            let holds = single::at_most(current, candidate);
            &&& decide(candidate, current, best) == GateDecision::AcceptNewBest <==> beats
            &&& decide(candidate, current, best) == GateDecision::Accept <==> !beats && holds
            &&& decide(candidate, current, best) == GateDecision::Reject <==> !beats && !holds
        }),
        single::less(candidate, current) ==> drop_of(candidate, current) == single::difference(
            current,
            candidate,
        ),
        single::at_most(current, candidate) && current.is_finite() && candidate.is_finite()
            ==> drop_of(candidate, current) == single::zero(),
{
    if single::less(candidate, current) {
        single_laws::lemma_difference_is_positive(current, candidate);
    }
    if single::at_most(current, candidate) && current.is_finite() && candidate.is_finite() {
        let c = single::opposite(candidate);
        single::lemma_make(!candidate.negative(), candidate.place());
        single::lemma_order(current, candidate);
        single_laws::lemma_sum(current, c);
    }
}

} // verus!
