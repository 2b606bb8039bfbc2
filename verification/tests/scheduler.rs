use skillopt::gate::{evaluate_gate, GateInput};
use skillopt::scheduler::{autonomous_select, compute_lr, LrSchedule};
use skillopt::cosine::cosine;
use skillopt::single::Single;
use skillopt::types::{Edit, EditOp, GateDecision};

/// A number as the library holds it.
fn m(x: f32) -> Single {
    Single { bits: x.to_bits() }
}

fn edit(content: &str, utility: f32) -> Edit {
    Edit {
        op: EditOp::Add,
        anchor: String::new(),
        content: content.into(),
        rationale: String::new(),
        utility: m(utility),
        source_type: String::new(),
        support_count: 1,
    }
}

fn decide(candidate: f32, current: f32, best: f32) -> (GateDecision, f32) {
    let g = evaluate_gate(&GateInput { candidate_score: m(candidate), current_score: m(current), best_score: m(best), patch: &[] });
    (g.decision, f32::from_bits(g.score_drop.bits))
}

fn select(edits: Vec<Edit>, limit: f32, cap: u32) -> usize {
    autonomous_select(edits, m(limit), cap).len()
}

#[test]
fn schedules_go_by_their_names() {
    assert!(matches!(LrSchedule::from_str("constant"), LrSchedule::Constant));
    assert!(matches!(LrSchedule::from_str("linear"), LrSchedule::Linear));
    assert!(matches!(LrSchedule::from_str("autonomous"), LrSchedule::Autonomous));
    assert!(matches!(LrSchedule::from_str("cosine"), LrSchedule::Cosine));
    assert!(matches!(LrSchedule::from_str("Linear"), LrSchedule::Cosine));
}

#[test]
fn cosine_budgets() {
    let at = |step, total, base| compute_lr(&LrSchedule::Cosine, step, total, base);
    assert_eq!(at(25, 100, 8), 7);
    assert_eq!(at(50, 100, 4), 3);
    assert_eq!(at(75, 100, 8), 2);
    assert_eq!(at(1, 3, 100), 75);
    assert_eq!(at(2, 3, 101), 26);
    assert_eq!(at(200, 100, 8), 1);
    assert_eq!(at(3, 0, 8), 8);
    assert_eq!(at(3, 10, 0), 1);
}

/// The budget as single precision has it.
fn in_single_precision(cosine: bool, step: u32, total: u32, base_lr: u32) -> u32 {
    let progress = (step as f32 / total as f32).min(1.0);
    let base = base_lr as f32;
    let lr = if cosine {
        1.0 + 0.5 * (base - 1.0) * (1.0 + (std::f32::consts::PI * progress).cos())
    } else {
        (base - (base - 1.0) * progress).max(1.0)
    };
    lr.round().max(1.0) as u32
}

#[test]
fn budgets_are_those_of_single_precision() {
    for total in 1..=72u32 {
        for step in 0..=total + 1 {
            for base in 1..=48u32 {
                let at = (step, total, base);
                assert_eq!(compute_lr(&LrSchedule::Cosine, step, total, base), in_single_precision(true, step, total, base), "cosine {:?}", at);
                assert_eq!(compute_lr(&LrSchedule::Linear, step, total, base), in_single_precision(false, step, total, base), "linear {:?}", at);
            }
        }
    }
}

#[test]
fn budgets_of_large_bases_are_never_above_them() {
    for base in [16_777_215u32, 16_777_216, 16_777_217, 16_777_219, 123_456_789, 4_000_000_001, u32::MAX] {
        for (step, total) in [(0u32, 7u32), (1, 7), (3, 7), (6, 7), (7, 7), (1, 4_294_967_295), (4_294_967_294, 4_294_967_295), (33_554_433, 50_000_001)] {
            let at = (step, total, base);
            assert_eq!(compute_lr(&LrSchedule::Linear, step, total, base), in_single_precision(false, step, total, base).min(base), "{:?}", at);
            assert!(compute_lr(&LrSchedule::Cosine, step, total, base) <= base, "{:?}", at);
            assert_eq!(compute_lr(&LrSchedule::Constant, step, total, base), base);
            assert_eq!(compute_lr(&LrSchedule::Autonomous, step, total, base), base);
        }
    }
}

#[test]
fn halves_go_as_single_precision_has_them() {
    let cosine = |step, total, base| compute_lr(&LrSchedule::Cosine, step, total, base);
    assert_eq!(cosine(50, 100, 10), 5);
    assert_eq!(cosine(50, 100, 16), 9);
    assert_eq!(cosine(1, 2, 6), 3);
    assert_eq!(cosine(2, 3, 7), 2);
    assert_eq!(cosine(2, 3, 3), 2);
    assert_eq!(compute_lr(&LrSchedule::Linear, 57, 98, 50), 21);
    assert_eq!(compute_lr(&LrSchedule::Linear, 50, 100, 8), 5);
}

#[test]
fn linear_budgets() {
    let at = |step, total, base| compute_lr(&LrSchedule::Linear, step, total, base);
    assert_eq!(at(50, 100, 8), 5);
    assert_eq!(at(30, 100, 10), 7);
    assert_eq!(at(0, 100, 10), 10);
    assert_eq!(at(100, 100, 10), 1);
    assert_eq!(at(0, 0, 0), 1);
}

#[test]
fn constant_budgets_keep_the_base() {
    assert_eq!(compute_lr(&LrSchedule::Constant, 3, 9, u32::MAX), u32::MAX);
    assert_eq!(compute_lr(&LrSchedule::Constant, 3, 9, 16_777_216), 16_777_216);
    assert_eq!(compute_lr(&LrSchedule::Constant, 3, 9, 16_777_219), 16_777_219);
    assert_eq!(compute_lr(&LrSchedule::Constant, 3, 0, 16_777_217), 16_777_217);
    assert_eq!(compute_lr(&LrSchedule::Autonomous, 3, 9, 7), 7);
}

#[test]
fn budgets_never_grow() {
    for sched in [LrSchedule::Cosine, LrSchedule::Linear, LrSchedule::Constant, LrSchedule::Autonomous] {
        let mut last = 12;
        for step in 0..40 {
            let lr = compute_lr(&sched, step, 30, 12);
            assert!(lr <= last && lr >= 1);
            last = lr;
        }
    }
}

#[test]
fn confidence_is_taken_up_to_the_limit() {
    let edits = || vec![edit("a", 0.75), edit("b", 0.5), edit("c", 0.25), edit("d", 0.125)];
    assert_eq!(select(edits(), 1.5, 8), 3);
    assert_eq!(select(edits(), 1.4999999, 8), 2);
    assert_eq!(select(edits(), 0.7499999, 8), 0);
    assert_eq!(select(edits(), 0.75, 8), 1);
    assert_eq!(select(edits(), 0.0, 8), 0);
    assert_eq!(select(vec![edit("a", 1.0)], 0.5, 1), 0);
    assert_eq!(select(vec![edit("a", 0.0)], 0.0, 1), 1);
    assert_eq!(select(vec![edit("a", 0.0)], -1e-6, 1), 0);
    assert_eq!(select(edits(), 9.0, 2), 2);
    assert_eq!(select(edits(), 9.0, 0), 0);
    assert_eq!(select(vec![], 9.0, 3), 0);
}

#[test]
fn confidence_adds_up_in_single_precision() {
    // 0.8 + 0.6 + 0.1 is a little more than 1.5 there, 0.9 + 0.6 is not.
    assert!(0.8f32 + 0.6 + 0.1 > 1.5 && 0.9f32 + 0.6 <= 1.5);
    assert_eq!(select(vec![edit("a", 0.8), edit("b", 0.6), edit("c", 0.1)], 1.5, 8), 2);
    assert_eq!(select(vec![edit("a", 0.9), edit("b", 0.6)], 1.5, 8), 2);
}

#[test]
fn confidence_is_held_between_zero_and_one() {
    let edits = vec![edit("a", 5.0), edit("b", 0.5), edit("c", -9.0)];
    assert_eq!(select(edits, 1.5, 8), 3);
}

#[test]
fn a_new_best_beats_the_margin() {
    assert_eq!(decide(0.5001, 0.5, 0.5), (GateDecision::Accept, 0.0));
    assert_eq!(decide(0.500101, 0.5, 0.5), (GateDecision::AcceptNewBest, 0.0));
    assert_eq!(decide(f32::INFINITY, 0.5, 0.5), (GateDecision::AcceptNewBest, 0.0));
    // Above 2048 the margin is less than half of the distance between numbers.
    assert_eq!(decide(4096.0, 4096.0, 4096.0), (GateDecision::Accept, 0.0));
    assert_eq!(decide(4096.0005, 4096.0, 4096.0), (GateDecision::AcceptNewBest, 0.0));
}

#[test]
fn lower_scores_are_rejected_however_small_the_drop() {
    assert_eq!(decide(0.49999997, 0.5, 0.5), (GateDecision::Reject, 0.5 - 0.49999997));
    assert_eq!(decide(0.84995, 0.85, 0.9), (GateDecision::Reject, 0.85 - 0.84995));
    assert_eq!(decide(f32::MIN, f32::MAX, f32::MAX), (GateDecision::Reject, f32::INFINITY));
    assert_eq!(decide(0.0, 1e-45, 1e-45), (GateDecision::Reject, 1e-45));
}

#[test]
fn what_has_no_score_is_rejected() {
    assert_eq!(decide(f32::NAN, 0.5, 0.5), (GateDecision::Reject, 0.0));
    assert_eq!(decide(0.5, f32::NAN, 0.6), (GateDecision::Reject, 0.0));
}

#[test]
fn equal_scores_are_accepted() {
    assert_eq!(decide(0.3, 0.3, 0.3).0, GateDecision::Accept);
    assert_eq!(decide(0.3, 0.3, 0.9).0, GateDecision::Accept);
    assert_eq!(decide(-0.0, 0.0, 0.9).0, GateDecision::Accept);
}

#[test]
fn cosines_are_the_nearest_in_single_precision() {
    for i in 0..=2000u32 {
        let x = std::f32::consts::PI * (i as f32 / 2000.0);
        let expected = (x as f64).cos() as f32;
        assert_eq!(f32::from_bits(cosine(m(x)).bits), expected, "{}", x);
    }
}

#[test]
fn large_cosine_budgets() {
    let base = 16_777_216u32;
    for total in 1..=40u32 {
        for step in 0..=total {
            let progress = (step as f32 / total as f32).min(1.0);
            let turn = std::f32::consts::PI * progress;
            let weight = 1.0 + (turn as f64).cos() as f32;
            let lr = 1.0 + 0.5 * (base as f32 - 1.0) * weight;
            let expected = lr.round().max(1.0) as u32;
            assert_eq!(compute_lr(&LrSchedule::Cosine, step, total, base), expected.min(base), "{} of {}", step, total);
        }
    }
    assert_eq!(compute_lr(&LrSchedule::Cosine, 1, 7, base), 15_946_482);
}
