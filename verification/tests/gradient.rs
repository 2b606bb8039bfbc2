use skillopt::gradient::{apply_patch, extract_json, finish_reflection, format_buffer, merge_patches, rank_and_select, record_rejected, reflect_call, truncate, ReflectBatch, Reflection, REFLECT_SYS};
use skillopt::memory::{meta_skill_call, replace_slow_update_field, slow_update_call, META_SYS, SLOW_SYS};
use skillopt::merge::can_merge;
use skillopt::single::Single;
use skillopt::types::{default_support, default_utility, ChatMessage, Edit, EditOp, RejectedEntry, StepBuffer, Trajectory};

/// A number as the library holds it.
fn m(x: f32) -> Single {
    Single { bits: x.to_bits() }
}

fn edit(op: EditOp, anchor: &str, content: &str, utility: f32, support: u32) -> Edit {
    Edit {
        op,
        anchor: anchor.into(),
        content: content.into(),
        rationale: "because".into(),
        utility: m(utility),
        source_type: "failure".into(),
        support_count: support,
    }
}

fn trajectory(id: &str, prediction: &str, score: f32) -> Trajectory {
    Trajectory {
        item_id: id.into(),
        prediction: prediction.into(),
        score: m(score),
        messages: vec![ChatMessage { role: "user".into(), content: "hi".into() }],
    }
}

#[test]
fn add_without_anchor_goes_to_the_end() {
    assert_eq!(apply_patch("a\n", &[edit(EditOp::Add, "", "b", 0.0, 1)]), "a\n\nb\n");
    assert_eq!(apply_patch("a", &[edit(EditOp::Add, "", "b", 0.0, 1)]), "a\nb\n");
}

#[test]
fn content_with_an_unknown_anchor_goes_to_the_end() {
    assert_eq!(apply_patch("a\n", &[edit(EditOp::Add, "zzz", "b", 0.0, 1)]), "a\n\nb\n");
    assert_eq!(apply_patch("a\n", &[edit(EditOp::Replace, "zzz", "b", 0.0, 1)]), "a\n\nb\n");
}

#[test]
fn add_goes_behind_the_line_of_its_anchor() {
    assert_eq!(apply_patch("one two\nthree\n", &[edit(EditOp::Add, "one", "new", 0.0, 1)]), "one two\nnew\nthree\n");
}

#[test]
fn delete_and_replace_without_anchor_change_nothing() {
    assert_eq!(apply_patch("a\nb\n", &[edit(EditOp::Replace, "", "x", 0.0, 1)]), "a\nb\n");
    assert_eq!(apply_patch("a\nb\n", &[edit(EditOp::Delete, "", "", 0.0, 1)]), "a\nb\n");
    assert_eq!(apply_patch("a\nb\n", &[edit(EditOp::Delete, "zzz", "", 0.0, 1)]), "a\nb\n");
}

#[test]
fn delete_and_replace_act_from_the_anchor_to_the_end_of_its_line() {
    assert_eq!(apply_patch("keep cut rest\nb\n", &[edit(EditOp::Delete, "cut", "", 0.0, 1)]), "keep b\n");
    assert_eq!(apply_patch("keep cut rest\nb\n", &[edit(EditOp::Replace, "cut", "put", 0.0, 1)]), "keep put\nb\n");
    assert_eq!(apply_patch("a\ncut", &[edit(EditOp::Delete, "cut", "", 0.0, 1)]), "a\n");
}

#[test]
fn an_empty_patch_changes_nothing() {
    assert_eq!(apply_patch("a\nb", &[]), "a\nb");
}

#[test]
fn patches_compose() {
    let first = vec![edit(EditOp::Add, "", "b", 0.0, 1)];
    let second = vec![edit(EditOp::Replace, "a", "c", 0.0, 1)];
    let both = vec![edit(EditOp::Add, "", "b", 0.0, 1), edit(EditOp::Replace, "a", "c", 0.0, 1)];
    assert_eq!(apply_patch(&apply_patch("a\n", &first), &second), apply_patch("a\n", &both));
}

#[test]
fn merging_adds_support_and_halves_the_way() {
    let merged = merge_patches(
        vec![edit(EditOp::Add, "a", "x", 0.5, 2), edit(EditOp::Delete, "a", "x", 0.1, 1)],
        vec![edit(EditOp::Add, "a", "x", 0.7, 3), edit(EditOp::Add, "a", "x", 0.1, 1)],
    );
    assert_eq!(merged.len(), 2);
    assert_eq!(merged[0].support_count, 6);
    assert_eq!(merged[0].utility, m(((0.5 + 0.7) / 2.0 + 0.1) / 2.0));
    assert_eq!(merged[1].support_count, 1);
    assert_eq!(merged[0].source_type, "failure");
}

#[test]
fn merging_twice_is_merging_once() {
    let edits = || vec![edit(EditOp::Add, "a", "x", 1.0, 1), edit(EditOp::Add, "a", "x", 3.0, 1), edit(EditOp::Add, "b", "x", 5.0, 1)];
    let once = merge_patches(edits(), vec![]);
    let twice = merge_patches(merge_patches(edits(), vec![]), vec![]);
    assert_eq!(once.len(), twice.len());
    for i in 0..once.len() {
        assert_eq!(once[i].support_count, twice[i].support_count);
        assert_eq!(once[i].utility, twice[i].utility);
    }
}

#[test]
fn support_that_cannot_be_counted_is_noticed() {
    let a = vec![edit(EditOp::Add, "a", "x", 0.0, u32::MAX)];
    assert!(can_merge(&a, &vec![edit(EditOp::Add, "a", "y", 0.0, 1)]));
    assert!(!can_merge(&a, &vec![edit(EditOp::Add, "a", "x", 0.0, 1)]));
    assert!(!can_merge(&vec![], &vec![edit(EditOp::Add, "a", "x", 0.0, u32::MAX), edit(EditOp::Add, "a", "x", 0.0, 1)]));
}

#[test]
fn ranking_weighs_utility_by_the_root_of_support() {
    // 0.5 * sqrt(4) = 1 is above 0.9 * sqrt(1) = 0.9, and level with 1.0 * sqrt(1).
    let picked = rank_and_select(
        vec![
            edit(EditOp::Add, "", "low", 0.9, 1),
            edit(EditOp::Add, "", "first", 0.5, 4),
            edit(EditOp::Add, "", "second", 1.0, 1),
            edit(EditOp::Add, "", "negative", -0.1, 9),
        ],
        9,
    );
    let names: Vec<&str> = picked.iter().map(|e| e.content.as_str()).collect();
    assert_eq!(names, vec!["first", "second", "low", "negative"]);
}

#[test]
fn selection_of_nothing() {
    assert_eq!(rank_and_select(vec![edit(EditOp::Add, "", "x", 1.0, 1)], 0).len(), 0);
    assert_eq!(rank_and_select(vec![], 3).len(), 0);
}

#[test]
fn the_buffer_keeps_the_last_twelve() {
    let mut buffer = StepBuffer::default();
    for i in 0..15 {
        record_rejected(&mut buffer, vec![], m(i as f32), format!("r{}", i));
    }
    let kept: Vec<String> = buffer.rejected.iter().map(|r| r.rationale.clone()).collect();
    let expected: Vec<String> = (3..15).map(|i| format!("r{}", i)).collect();
    assert_eq!(kept, expected);
    assert_eq!(buffer.rejected[0].score_drop, m(3.0));
}

#[test]
fn buffer_as_text() {
    assert_eq!(format_buffer(&StepBuffer::default()), "(empty)");
    let buffer = StepBuffer {
        failure_patterns: vec!["too long".into(), "no unit".into()],
        rejected: vec![RejectedEntry {
            edits: vec![edit(EditOp::Replace, "old", "new", 0.0, 1)],
            score_drop: m(0.05),
            rationale: "step 3 drop 0.050".into(),
        }],
    };
    assert_eq!(
        format_buffer(&buffer),
        "Failure patterns:\n- too long\n- no unit\n\nRejected edits (DO NOT REPROPOSE):\n- score_drop 0.050: step 3 drop 0.050\n    [Replace] anchor=\"old\" content=\"new\"\n"
    );
}

#[test]
fn truncating_counts_bytes_and_keeps_characters() {
    assert_eq!(truncate("abc", 3), "abc");
    assert_eq!(truncate("abcd", 3), "abc\u{2026}");
    assert_eq!(truncate("\u{e9}\u{e9}", 4), "\u{e9}\u{e9}");
    assert_eq!(truncate("\u{e9}\u{e9}", 3), "\u{e9}\u{e9}\u{2026}");
    assert_eq!(truncate("\u{e9}\u{e9}\u{e9}\u{e9}", 3), "\u{e9}\u{e9}\u{e9}\u{2026}");
    assert_eq!(truncate("x", 0), "\u{2026}");
}

#[test]
fn json_is_taken_out_of_prose() {
    assert_eq!(extract_json("Sure: {\"a\": {}} done"), "{\"a\": {}}");
    assert_eq!(extract_json("no braces"), "{}");
    assert_eq!(extract_json("} reversed {"), "{}");
}

#[test]
fn reflection_prompt_is_laid_out() {
    let trajectories = vec![trajectory("q1", "blue", 0.25)];
    let batch = ReflectBatch { trajectories: &trajectories, kind: "failure" };
    let call = reflect_call("be brief", &batch, &StepBuffer::default(), m(0.7), "medium");
    assert_eq!(call.messages.len(), 2);
    assert_eq!(call.messages[0].role, "system");
    assert_eq!(call.messages[0].content, REFLECT_SYS);
    assert_eq!(call.messages[1].role, "user");
    assert_eq!(
        call.messages[1].content,
        "MINIBATCH KIND: failure\n\n=== CURRENT SKILL ===\nbe brief\n\n=== TRAJECTORIES ===\n\n---\nitem: q1\nscore: 0.25\nprediction: blue\n[user] hi\n\n\n=== BUFFER ===\n(empty)"
    );
    assert_eq!(call.options.temperature, Some(m(0.7)));
    assert_eq!(call.options.max_tokens, Some(2000));
    assert!(call.options.json);
    assert!(!call.to_target);
    assert_eq!(call.options.reasoning_effort, Some("medium"));
}

#[test]
fn reflections_are_taken_over() {
    let direct = Reflection { edits: vec![edit(EditOp::Add, "", "x", 1.0, 0)], failure_patterns: vec!["p".into()] };
    let other = Reflection { edits: vec![], failure_patterns: vec!["q".into()] };
    let (edits, patterns) = finish_reflection(Some(direct), Some(other), "success");
    assert_eq!(edits[0].source_type, "success");
    assert_eq!(edits[0].support_count, 1);
    assert_eq!(patterns, vec!["p".to_string()]);
}

#[test]
fn reflections_fall_back_to_what_is_in_braces() {
    let other = Reflection { edits: vec![edit(EditOp::Add, "", "x", 1.0, 4)], failure_patterns: vec![] };
    let (edits, patterns) = finish_reflection(None, Some(other), "failure");
    assert_eq!(edits.len(), 1);
    assert_eq!(edits[0].support_count, 4);
    assert!(patterns.is_empty());
    let (edits, patterns) = finish_reflection(None, None, "failure");
    assert!(edits.is_empty() && patterns.is_empty());
}

#[test]
fn defaults_of_an_edit() {
    assert_eq!(default_utility(), m(0.5));
    assert_eq!(default_support(), 1);
}

#[test]
fn slow_update_section_is_replaced_whole() {
    let skill = "# main\n\n## Slow update\nold\n\n## footer\nz\n";
    assert_eq!(replace_slow_update_field(skill, "  new \n"), "# main\n\n## Slow update\nnew\n\n## footer\nz\n");
    assert_eq!(replace_slow_update_field("rule", "new"), "rule\n## Slow update\nnew\n");
}

#[test]
fn later_guidance_replaces_earlier() {
    let skill = "# main\n\nrule\n\n## footer\nz\n";
    let once = replace_slow_update_field(skill, "second");
    let twice = replace_slow_update_field(&replace_slow_update_field(skill, "first"), "second");
    assert_eq!(once, twice);
}

#[test]
fn no_pairs_make_no_requests() {
    assert!(slow_update_call(&[], m(0.0), "low").is_none());
    assert!(meta_skill_call(&[], m(0.0), "low").is_none());
}

#[test]
fn requests_at_the_end_of_an_epoch() {
    let pairs = vec![(trajectory("q1", "blue", 0.0), trajectory("q1", "red", 1.0))];
    let slow = slow_update_call(&pairs, m(0.0), "low").unwrap();
    assert_eq!(slow.messages[0].content, SLOW_SYS);
    assert_eq!(slow.messages[1].content, "\n--\nitem: q1\nprev_score: 0.00\ncurr_score: 1.00\n");
    assert_eq!(slow.options.max_tokens, Some(400));
    let meta = meta_skill_call(&pairs, m(0.0), "low").unwrap();
    assert_eq!(meta.messages[0].content, META_SYS);
    assert_eq!(
        meta.messages[1].content,
        "\n--\nitem: q1\nprev_score: 0.00\ncurr_score: 1.00\nprev_pred: blue\ncurr_pred: red\n"
    );
    assert_eq!(meta.options.max_tokens, Some(800));
    assert!(!meta.options.json);
    assert!(!slow.to_target && !meta.to_target);
}

#[test]
fn no_more_than_twenty_pairs_are_shown() {
    let pairs: Vec<(Trajectory, Trajectory)> = (0..25).map(|i| (trajectory(&format!("q{}", i), "", 0.0), trajectory(&format!("q{}", i), "", 0.0))).collect();
    let slow = slow_update_call(&pairs, m(0.0), "low").unwrap();
    assert!(slow.messages[1].content.contains("item: q19\n"));
    assert!(!slow.messages[1].content.contains("item: q20\n"));
}
