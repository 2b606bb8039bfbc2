use skillopt::artifacts::{memo_dir, skill_file, step_dir, BEST_SKILL};
use skillopt::config::{Config, EnvCfg, EvalCfg, GradientCfg, ModelCfg, OptCfg, TrainCfg};
use skillopt::scheduler::LrSchedule;
use skillopt::scoring::skill_hash;
use skillopt::single::Single;
use skillopt::train::{draw_batch, draw_pairs, draw_pool, is_plannable, mean_score, minibatches, note_heard, note_patterns, pair_up};
use skillopt::train::{partition, plan, reflection_rounds, Action, Plan, Proposal, Run};
use skillopt::data::sample_batch;
use skillopt::types::{Edit, EditOp, GateDecision, RuntimeState, StepBuffer, TaskItem, Trajectory};

/// A number as the library holds it.
fn m(x: f32) -> Single {
    Single { bits: x.to_bits() }
}

fn config(train_size: usize, batch_size: usize, accumulation: usize, num_epochs: u32) -> Config {
    Config {
        env: EnvCfg { name: "searchqa".into(), skill_init: "skill.md".into(), max_turns: 1 },
        train: TrainCfg { train_size, batch_size, accumulation, num_epochs },
        gradient: GradientCfg { minibatch_size: 4, merge_batch_size: 8 },
        optimizer: OptCfg {
            learning_rate: 4,
            lr_schedule: "constant".into(),
            use_rejected_buffer: true,
            use_slow_update: true,
            use_meta_skill: false,
            full_rewrite_every: 0,
        },
        evaluation: EvalCfg { sel_split: "valid_seen".into(), test_split: "valid_unseen".into(), workers: 2 },
        model: ModelCfg { reasoning_effort: "medium".into(), temperature_target: m(0.0), temperature_optimizer: m(0.7) },
    }
}

fn trajectory(id: &str, score: f32) -> Trajectory {
    Trajectory { item_id: id.into(), prediction: String::new(), score: m(score), messages: vec![] }
}

fn ids(ts: &[Trajectory]) -> Vec<&str> {
    ts.iter().map(|t| t.item_id.as_str()).collect()
}

fn edit(content: &str, utility: f32) -> Edit {
    Edit {
        op: EditOp::Add,
        anchor: String::new(),
        content: content.into(),
        rationale: String::new(),
        utility: m(utility),
        source_type: "failure".into(),
        support_count: 1,
    }
}

fn proposal(candidate: &str) -> Proposal {
    Proposal {
        patch: vec![edit("e", 1.0)],
        candidate: candidate.into(),
        lr_budget: 4,
        n_proposed: 3,
        n_selected: 1,
        skill_hash: "hash".into(),
    }
}

fn small_plan() -> Plan {
    plan(&config(10, 4, 1, 2))
}

#[test]
fn plans_count_their_steps() {
    let p = plan(&config(100, 8, 2, 3));
    assert_eq!((p.num_epochs, p.steps_per_epoch, p.total_steps), (3, 7, 21));
    assert!(matches!(p.schedule, LrSchedule::Constant));
    assert_eq!(p.learning_rate, 4);
    assert!(p.use_rejected_buffer && p.use_slow_update && !p.use_meta_skill);
    let p = plan(&config(96, 8, 2, 3));
    assert_eq!(p.steps_per_epoch, 6);
    let p = plan(&config(0, 8, 2, 3));
    assert_eq!((p.steps_per_epoch, p.total_steps), (0, 3));
    let p = plan(&config(0, 0, 2, 3));
    assert_eq!(p.steps_per_epoch, 0);
    let p = plan(&config(1, 0, 1, 1));
    assert_eq!(p.steps_per_epoch, u32::MAX);
}

#[test]
fn steps_are_counted_in_single_precision() {
    for size in [1usize, 2, 99, 100, 16_777_215, 16_777_216, 16_777_217, 33_554_435, 1_000_000_007, 4_294_967_295, 1 << 40] {
        for batch in [1usize, 2, 3, 7, 24, 1000, 16_777_217, 1 << 41] {
            let expected = (size as f32 / batch as f32).ceil() as u32;
            if is_plannable(&config(size, batch, 1, 1)) {
                assert_eq!(plan(&config(size, batch, 1, 1)).steps_per_epoch, expected, "{} by {}", size, batch);
            }
        }
    }
    assert_eq!(plan(&config(16_777_217, 16_777_216, 1, 1)).steps_per_epoch, 1);
    assert_eq!(plan(&config(16_777_216, 16_777_215, 1, 1)).steps_per_epoch, 2);
}

#[test]
fn plans_that_cannot_be_counted_are_noticed() {
    assert!(is_plannable(&config(100, 8, 2, 3)));
    assert!(!is_plannable(&config(100, usize::MAX, 2, 3)));
    assert!(!is_plannable(&config(5, 0, 1, 2)));
    assert!(is_plannable(&config(5, 0, 1, 1)));
    assert!(!is_plannable(&config(5, 5, 1, u32::MAX)));
}

#[test]
fn runs_go_through_steps_and_epochs() {
    let p = small_plan();
    assert_eq!(p.steps_per_epoch, 3);
    let mut run = Run::start("skill".into(), m(0.5));
    let mut seeds = vec![];
    let mut ends = vec![];
    loop {
        assert!(run.is_on_plan(&p));
        match run.next_action(&p) {
            Action::Step { seed } => {
                seeds.push(seed);
                run.settle(&p, proposal("skill"), m(0.5), m(0.0));
            }
            Action::EndEpoch { slow_update, memo } => {
                ends.push((slow_update, memo));
                run.turn_epoch();
            }
            Action::Finish => break,
        }
    }
    assert_eq!(seeds, vec![1000, 1001, 1002, 2000, 2001, 2002]);
    assert_eq!(ends, vec![(false, false), (true, false)]);
    assert_eq!(run.step, 6);
    assert_eq!(run.history.len(), 6);
}

#[test]
fn runs_without_steps_only_end_their_epochs() {
    let p = plan(&config(0, 4, 1, 1));
    let mut run = Run::start("skill".into(), m(0.0));
    assert_eq!(run.next_action(&p), Action::EndEpoch { slow_update: false, memo: false });
    run.turn_epoch();
    assert_eq!(run.next_action(&p), Action::Finish);
}

#[test]
fn successes_score_above_one_half() {
    let (succ, fail) = partition(vec![trajectory("a", 1.0), trajectory("b", 0.5), trajectory("c", 0.500001), trajectory("d", 0.0)]);
    assert_eq!(ids(&succ), vec!["a", "c"]);
    assert_eq!(ids(&fail), vec!["b", "d"]);
}

#[test]
fn minibatches_are_those_of_chunks() {
    for len in 0..12usize {
        for size in 1..6usize {
            let all: Vec<usize> = (0..len).collect();
            let expected: Vec<Vec<usize>> = all.chunks(size).map(|c| c.to_vec()).collect();
            let got: Vec<Vec<usize>> = minibatches(len, size).iter().map(|p| all[p.from..p.to].to_vec()).collect();
            assert_eq!(got, expected);
        }
    }
    assert_eq!(minibatches(usize::MAX, usize::MAX).len(), 1);
}

#[test]
fn patterns_are_noted_once() {
    let mut buffer = StepBuffer::default();
    note_patterns(&mut buffer, vec!["a".into(), "b".into(), "a".into()]);
    note_patterns(&mut buffer, vec!["c".into(), "b".into()]);
    assert_eq!(buffer.failure_patterns, vec!["a", "b", "c"]);
    assert!(buffer.rejected.is_empty());
}

#[test]
fn patterns_are_noted_of_failures_only() {
    let mut buffer = StepBuffer::default();
    note_heard(&mut buffer, "success", vec!["a".into()]);
    assert!(buffer.failure_patterns.is_empty());
    note_heard(&mut buffer, "failure", vec!["b".into(), "b".into()]);
    note_heard(&mut buffer, "Failure", vec!["c".into()]);
    assert_eq!(buffer.failure_patterns, vec!["b"]);
}

#[test]
fn failures_are_reflected_on_first() {
    let rounds: Vec<(&str, usize, usize)> =
        reflection_rounds(5, 3, 2).iter().map(|r| (r.kind(), r.piece.from, r.piece.to)).collect();
    assert_eq!(
        rounds,
        vec![("failure", 0, 2), ("failure", 2, 4), ("failure", 4, 5), ("success", 0, 2), ("success", 2, 3)]
    );
    assert!(reflection_rounds(0, 0, 4).is_empty());
}

#[test]
fn items_are_drawn_with_the_seeds_of_a_run() {
    let items: Vec<TaskItem> = (0..40)
        .map(|i| TaskItem { id: format!("q{}", i), question: String::new(), context: String::new(), answers: vec![] })
        .collect();
    let names = |ts: &[TaskItem]| ts.iter().map(|t| t.id.clone()).collect::<Vec<_>>();
    let cfg = config(20, 4, 1, 2);
    let pool = draw_pool(&items, &cfg);
    assert_eq!(names(&pool), names(&sample_batch(&items, 20, 42)));
    assert_eq!(names(&draw_batch(&pool, &cfg, 1000)), names(&sample_batch(&pool, 4, 1000)));
    assert_eq!(names(&draw_pairs(&pool, &cfg)), names(&sample_batch(&pool, 8, 7)));
}

#[test]
fn pairs_are_about_the_same_item() {
    let pairs = pair_up(
        vec![trajectory("a", 1.0), trajectory("b", 2.0), trajectory("c", 3.0), trajectory("d", 4.0)],
        vec![trajectory("a", 5.0), trajectory("x", 6.0), trajectory("c", 7.0)],
    );
    let shown: Vec<(&str, Single, Single)> = pairs.iter().map(|p| (p.0.item_id.as_str(), p.0.score, p.1.score)).collect();
    assert_eq!(shown, vec![("a", m(1.0), m(5.0)), ("c", m(3.0), m(7.0))]);
    assert!(pair_up(vec![], vec![trajectory("a", 1.0)]).is_empty());
}

#[test]
fn mean_scores() {
    assert_eq!(mean_score(&[]), m(0.0));
    assert_eq!(mean_score(&[trajectory("a", 1.0), trajectory("b", 0.0)]), m(0.5));
}

#[test]
fn proposals_merge_rank_select_and_apply() {
    let p = Plan { learning_rate: 2, ..small_plan() };
    let run = Run::start("# skill".into(), m(0.0));
    let r = run.propose(&p, vec![edit("low", 0.1), edit("high", 0.9)], vec![edit("low", 0.1), edit("mid", 0.5)]);
    assert_eq!((r.n_proposed, r.n_selected, r.lr_budget), (3, 2, 2));
    assert_eq!(r.candidate, "# skill\nhigh\n\nmid\n");
    assert_eq!(r.skill_hash, skill_hash("# skill\nhigh\n\nmid\n"));
    assert_eq!(r.patch[0].content, "high");
}

#[test]
fn autonomous_proposals_are_bounded_by_confidence() {
    let p = Plan { schedule: LrSchedule::Autonomous, learning_rate: 8, ..small_plan() };
    let run = Run::start("".into(), m(0.0));
    let r = run.propose(&p, vec![edit("a", 0.9), edit("b", 0.6), edit("c", 0.3)], vec![]);
    assert_eq!((r.n_proposed, r.n_selected, r.lr_budget), (3, 2, 8));
}

#[test]
fn a_better_candidate_is_the_new_best() {
    let p = small_plan();
    let mut run = Run::start("old".into(), m(0.5));
    assert_eq!(run.settle(&p, proposal("new"), m(0.6), m(0.25)), GateDecision::AcceptNewBest);
    assert_eq!((run.skill.as_str(), run.best_skill.as_str()), ("new", "new"));
    assert_eq!((run.current_score, run.best_score, run.step), (m(0.6), m(0.6), 1));
    let r = &run.history[0];
    assert_eq!((r.step, r.epoch, r.lr_budget, r.train_score, r.sel_score, r.best_sel_score), (1, 1, 4, m(0.25), m(0.6), m(0.6)));
    assert_eq!((r.n_proposed, r.n_selected, r.skill_hash.as_str()), (3, 1, "hash"));
    assert_eq!(r.gate, GateDecision::AcceptNewBest);
}

#[test]
fn an_equal_candidate_is_taken_over_and_is_the_best() {
    let p = small_plan();
    let mut run = Run::start("old".into(), m(0.5));
    assert_eq!(run.settle(&p, proposal("new"), m(0.5), m(0.0)), GateDecision::Accept);
    assert_eq!((run.skill.as_str(), run.best_skill.as_str()), ("new", "new"));
    assert_eq!(run.settle(&p, proposal("newer"), m(0.49995), m(0.0)), GateDecision::Reject);
    assert_eq!((run.skill.as_str(), run.best_skill.as_str()), ("new", "new"));
    assert_eq!((run.current_score, run.best_score), (m(0.5), m(0.5)));
}

#[test]
fn a_worse_candidate_is_refused_and_remembered() {
    let p = small_plan();
    let mut run = Run::start("old".into(), m(0.5));
    assert_eq!(run.settle(&p, proposal("new"), m(0.35), m(0.0)), GateDecision::Reject);
    assert_eq!((run.skill.as_str(), run.best_skill.as_str()), ("old", "old"));
    assert_eq!((run.current_score, run.best_score), (m(0.5), m(0.5)));
    assert_eq!(run.buffer.rejected.len(), 1);
    assert_eq!(run.buffer.rejected[0].score_drop, m(0.5 - 0.35));
    assert_eq!(run.buffer.rejected[0].rationale, "step 1 drop 0.150");
    assert_eq!(run.buffer.rejected[0].edits[0].content, "e");
    let quiet = Plan { use_rejected_buffer: false, ..small_plan() };
    run.settle(&quiet, proposal("new"), m(0.35), m(0.0));
    assert_eq!(run.buffer.rejected.len(), 1);
    assert_eq!(run.history.len(), 2);
}

#[test]
fn the_best_score_is_the_highest_of_all() {
    let p = small_plan();
    let mut run = Run::start("s0".into(), m(0.4));
    let scores: [f32; 7] = [0.45, 0.3, 0.45005, 0.7, 0.699, 0.69995, 0.1];
    for (i, s) in scores.iter().enumerate() {
        let before = run.current_score;
        run.settle(&p, proposal(&format!("s{}", i + 1)), m(*s), m(0.0));
        assert!(before.is_at_most(run.current_score) && run.current_score.is_at_most(run.best_score));
    }
    assert_eq!(run.best_score, m(0.7));
    assert_eq!(run.best_skill, "s4");
}

#[test]
fn guidance_goes_into_both_skills() {
    let mut run = Run::start("rule\n".into(), m(0.0));
    run.best_skill = "best\n".into();
    run.guide("  \n");
    assert_eq!((run.skill.as_str(), run.best_skill.as_str()), ("rule\n", "best\n"));
    run.guide("be calm\n");
    assert_eq!(run.skill, "rule\n## Slow update\nbe calm\n");
    assert_eq!(run.best_skill, "best\n## Slow update\nbe calm\n");
    assert_eq!(run.previous_skill, "rule\n");
}

#[test]
fn a_new_epoch_forgets_the_steps_of_the_last() {
    let p = small_plan();
    let mut run = Run::start("old".into(), m(0.5));
    run.settle(&p, proposal("new"), m(0.0), m(0.0));
    run.settle(&p, proposal("good"), m(0.9), m(0.0));
    note_patterns(&mut run.buffer, vec!["p".into()]);
    run.turn_epoch();
    assert!(run.buffer.rejected.is_empty() && run.buffer.failure_patterns.is_empty());
    assert_eq!((run.epoch, run.step, run.previous_skill.as_str()), (2, 2, "good"));
}

#[test]
fn a_run_goes_on_where_it_left_off() {
    let p = small_plan();
    let mut run = Run::start("old".into(), m(0.5));
    run.settle(&p, proposal("new"), m(0.6), m(0.0));
    let state = run.state();
    assert_eq!((state.step, state.epoch, state.current_score, state.best_score), (1, 1, m(0.6), m(0.6)));
    assert_eq!(state.current_skill_path, "skills/skill_v0001.md");
    assert_eq!(state.best_skill_path, BEST_SKILL);
    let again = Run::resume(&state, run.skill.clone(), run.best_skill.clone(), run.previous_skill.clone(), StepBuffer::default(), vec![]);
    assert_eq!(again.next_action(&p), run.next_action(&p));
    assert_eq!((again.current_score, again.best_score, again.epoch, again.step), (m(0.6), m(0.6), 1, 1));
    assert!(again.is_on_plan(&p));
}

#[test]
fn a_state_that_is_off_the_plan_is_noticed() {
    let p = small_plan();
    let at = |step, epoch| {
        let state = RuntimeState { step, epoch, ..RuntimeState::default() };
        Run::resume(&state, String::new(), String::new(), String::new(), StepBuffer::default(), vec![]).is_on_plan(&p)
    };
    assert!(at(0, 1) && at(3, 1) && at(3, 2) && at(6, 2) && at(6, 3));
    assert!(!at(4, 1) && !at(2, 2) && !at(0, 0) && !at(6, 4) && !at(7, 3));
}

#[test]
fn names_of_what_is_kept() {
    assert_eq!(skill_file(0), "skills/skill_v0000.md");
    assert_eq!(skill_file(12345), "skills/skill_v12345.md");
    assert_eq!(step_dir(7), "steps/step_0007");
    assert_eq!(memo_dir(2), "meta_skill/epoch_02");
    assert_ne!(step_dir(1), step_dir(10));
}
