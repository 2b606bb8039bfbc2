use skillopt::adapter::{
    build_adapter, conclude, extract_calc, extract_final, is_tame_call, knows_adapter, request, score_alfworld,
    score_docvqa, score_officeqa, work_with, Adapter, AlfworldAdapter, AnyAdapter, CodexHarnessAdapter, DocVQAAdapter,
    LiveMathAdapter, OfficeQAAdapter, OpenAIClientCloneable, SearchQAAdapter, SpreadsheetAdapter,
};
use skillopt::calculator::{eval_calc, number_of_outcome, promote, value_of, CalcNumber, CalcOutcome};
use skillopt::numeric::{extract_last_number, parse_number, score_numeric};
use skillopt::tame::is_tame;
use skillopt::single::Single;
use skillopt::types::TaskItem;

/// A number as the library holds it.
fn m(x: f32) -> Single {
    Single { bits: x.to_bits() }
}

fn item(question: &str, context: &str, answers: &[&str]) -> TaskItem {
    TaskItem {
        id: "q1".into(),
        question: question.into(),
        context: context.into(),
        answers: answers.iter().map(|a| a.to_string()).collect(),
    }
}

fn golds(texts: &[&str]) -> Vec<String> {
    texts.iter().map(|t| t.to_string()).collect()
}

fn value(expr: &str) -> Option<f64> {
    eval_calc(expr).map(|n| f64::from_bits(n.bits))
}

#[test]
fn adapters_go_by_their_names() {
    assert!(matches!(build_adapter("searchqa"), AnyAdapter::SearchQA(_)));
    assert!(matches!(build_adapter("livemath"), AnyAdapter::LiveMath(_)));
    assert!(matches!(build_adapter("docvqa"), AnyAdapter::DocVQA(_)));
    assert!(matches!(build_adapter("officeqa"), AnyAdapter::OfficeQA(_)));
    assert!(matches!(build_adapter("spreadsheet"), AnyAdapter::Spreadsheet(_)));
    assert!(matches!(build_adapter("alfworld"), AnyAdapter::Alfworld(_)));
    match build_adapter("codex_searchqa") {
        AnyAdapter::Codex(a) => assert_eq!(a.inner_score_kind, "exact"),
        _ => panic!("not a harness"),
    }
    match build_adapter("codex_livemath") {
        AnyAdapter::Codex(a) => assert_eq!(a.inner_score_kind, "numeric"),
        _ => panic!("not a harness"),
    }
}

#[test]
fn unknown_names_are_known_to_be_unknown() {
    for name in ["searchqa", "livemath", "docvqa", "officeqa", "spreadsheet", "alfworld", "codex_searchqa", "codex_livemath"] {
        assert!(knows_adapter(name));
    }
    assert!(!knows_adapter("codex"));
    assert!(!knows_adapter(""));
    assert!(!knows_adapter("SearchQA"));
}

#[test]
fn searchqa_conversation() {
    let a = SearchQAAdapter;
    let it = item("who?", "a page", &["the beatles"]);
    let d = a.open_dialogue("be brief", &it);
    assert_eq!(
        d.messages[0].content,
        "You are a SearchQA solver. Follow this skill exactly.\n\n---SKILL---\nbe brief\n---END SKILL---"
    );
    assert_eq!(d.messages[1].content, "Question: who?\n\n[DOC] a page");
    let call = request(&a, &d, m(1.0));
    assert!(call.to_target);
    assert_eq!(call.messages.len(), 2);
    assert_eq!(call.messages[0].role, "system");
    assert_eq!(call.messages[1].role, "user");
    assert_eq!(call.options.max_tokens, Some(200));
    assert_eq!(call.options.temperature, Some(m(1.0)));
    assert!(!call.options.json);
    assert_eq!(call.options.reasoning_effort, None);
    let turn = a.hear(d, "  Beatles. \nand more\n");
    assert!(turn.done);
    let t = conclude(&a, &it, turn.dialogue, &[]);
    assert_eq!(t.item_id, "q1");
    assert_eq!(t.prediction, "Beatles.");
    assert_eq!(t.score, m(1.0));
    assert_eq!(t.messages.len(), 2);
}

#[test]
fn searchqa_takes_an_empty_reply() {
    let a = SearchQAAdapter;
    let it = item("who?", "", &["x"]);
    let d = a.open_dialogue("", &it);
    assert_eq!(d.messages[1].content, "Question: who?\n\n[DOC] ");
    let t = conclude(&a, &it, a.hear(d, " \n ").dialogue, &[]);
    assert_eq!(t.prediction, "");
    assert_eq!(t.score, m(0.0));
}

#[test]
fn single_reply_adapters_ask_and_limit() {
    let with = item("q", "c", &[]);
    let without = item("q", "", &[]);
    let live = LiveMathAdapter.open_dialogue("S", &with);
    assert_eq!(live.messages[1].content, "q");
    assert_eq!(live.messages[0].content, "You are a math problem solver. Follow this skill exactly.\n\n---SKILL---\nS\n---END SKILL---");
    assert_eq!(LiveMathAdapter.max_tokens(), 800);
    let doc = DocVQAAdapter.open_dialogue("S", &with);
    assert_eq!(doc.messages[1].content, "Question: q\n\n[DOC] c");
    assert_eq!(DocVQAAdapter.open_dialogue("S", &without).messages[1].content, "q");
    assert_eq!(DocVQAAdapter.max_tokens(), 200);
    assert_eq!(OfficeQAAdapter.open_dialogue("S", &without).messages[1].content, "q");
    assert_eq!(OfficeQAAdapter.max_tokens(), 600);
    let sheet = SpreadsheetAdapter.open_dialogue("S", &with);
    assert_eq!(sheet.messages[1].content, "Question: q\n\n[DOC] c");
    assert_eq!(SpreadsheetAdapter.max_tokens(), 400);
    let t = LiveMathAdapter.hear(live, "\n The answer is 4. \n");
    assert_eq!(t.dialogue.prediction, "The answer is 4.");
    assert!(t.done);
    assert_eq!(t.dialogue.messages.len(), 2);
}

#[test]
fn alfworld_stops_when_done() {
    let a = AlfworldAdapter;
    let it = item("put the mug away", "a kitchen", &["shelf"]);
    let d = a.open_dialogue("S", &it);
    assert_eq!(d.messages[0].content, "You are an embodied agent. Output 'THOUGHT: ...\\nACTION: <action>'. End with 'ACTION: done'.\n\n---SKILL---\nS\n---END SKILL---");
    assert_eq!(d.messages[1].content, "Task: put the mug away\nEnvironment: a kitchen");
    assert_eq!(a.max_tokens(), 300);
    let t = a.hear(d, "ACTION: open shelf");
    assert!(!t.done);
    assert_eq!(t.dialogue.messages.len(), 4);
    assert_eq!(t.dialogue.messages[2].role, "assistant");
    assert_eq!(t.dialogue.messages[2].content, "ACTION: open shelf");
    assert_eq!(t.dialogue.messages[3].role, "user");
    assert_eq!(t.dialogue.messages[3].content, "OBSERVATION: ok. Continue.");
    let t = a.hear(t.dialogue, "mug on SHELF. Action:DONE");
    assert!(t.done);
    assert_eq!(t.dialogue.messages.len(), 5);
    let r = conclude(&a, &it, t.dialogue, &[]);
    assert_eq!(r.prediction, "mug on SHELF. Action:DONE");
    assert_eq!(r.score, m(1.0));
}

#[test]
fn alfworld_gives_up_after_six_replies() {
    let a = AlfworldAdapter;
    let mut d = a.open_dialogue("S", &item("t", "e", &["x"]));
    for i in 0..6 {
        let t = a.hear(d, "ACTION: look at x");
        assert_eq!(t.done, i == 5);
        d = t.dialogue;
    }
    assert_eq!(d.messages.len(), 14);
    assert_eq!(d.prediction, "ACTION: look at x");
    assert_eq!(score_alfworld(&d.prediction, &golds(&["x"])), m(0.0));
}

#[test]
fn codex_calls_the_calculator() {
    let a = CodexHarnessAdapter { inner_score_kind: "exact".into() };
    let it = item("six times seven?", "notes", &["42"]);
    let d = a.open_dialogue("S", &it);
    assert_eq!(d.messages[0].content, "You are a Codex-style agent. You may emit <tool name=\"calc\">EXPR</tool> tags; harness replies with computed value. End with 'FINAL: <answer>' on the last line.\n\n---SKILL---\nS\n---END SKILL---");
    assert_eq!(d.messages[1].content, "Question: six times seven?\n\n[DOC] notes");
    assert_eq!(a.max_tokens(), 500);
    let reply = "<tool name=\"calc\"> 6 * 7 </tool>";
    assert!(a.can_hear(reply));
    let t = a.hear(d, reply);
    assert!(!t.done);
    assert_eq!(t.dialogue.messages[3].role, "user");
    assert_eq!(t.dialogue.messages[3].content, "<observation>42</observation>");
    assert_eq!(t.dialogue.prediction, "");
    let t = a.hear(t.dialogue, "<tool name=\"calc\">1/0</tool>");
    assert_eq!(t.dialogue.messages[5].content, "<observation>ERR</observation>");
    let t = a.hear(t.dialogue, "<tool name=\"calc\">1/8</tool>");
    assert_eq!(t.dialogue.messages[7].content, "<observation>0.125</observation>");
    let t = a.hear(t.dialogue, "Thinking.\nFINAL: 42\n");
    assert!(t.done);
    let r = conclude(&a, &it, t.dialogue, &[]);
    assert_eq!(r.prediction, "42");
    assert_eq!(r.score, m(1.0));
    assert_eq!(r.messages.len(), 9);
}

#[test]
fn codex_gives_up_after_five_replies() {
    let a = CodexHarnessAdapter { inner_score_kind: "numeric".into() };
    let it = item("q", "c", &["1"]);
    let mut d = a.open_dialogue("S", &it);
    for i in 0..5 {
        let t = a.hear(d, "<tool name=\"calc\">1</tool>");
        assert_eq!(t.done, i == 4);
        d = t.dialogue;
    }
    let r = conclude(&a, &it, d, &[false]);
    assert_eq!(r.prediction, "");
    assert_eq!(r.score, m(0.0));
}

#[test]
fn codex_without_a_marker_answers_with_all_of_it() {
    let a = CodexHarnessAdapter { inner_score_kind: "exact".into() };
    let t = a.hear(a.open_dialogue("S", &item("q", "c", &[])), " just this ");
    assert!(t.done);
    assert_eq!(t.dialogue.prediction, " just this ");
}

#[test]
fn codex_takes_any_value_of_the_calculator() {
    let a = CodexHarnessAdapter { inner_score_kind: "exact".into() };
    let d = a.open_dialogue("S", &item("q", "c", &[]));
    let value = CalcNumber { bits: 2.5f64.to_bits(), text: "2.5".into() };
    let t = work_with(d, "<tool name=\"calc\">shl(1, 99)</tool>", Some(value));
    assert_eq!(t.dialogue.messages[3].content, "<observation>2.5</observation>");
}

#[test]
fn adapters_score() {
    let it = item("q", "c", &["The Beatles", "12"]);
    let near = [false, true];
    assert_eq!(SearchQAAdapter.score(&it, "beatles", &near), m(1.0));
    assert_eq!(SearchQAAdapter.score(&it, "stones", &near), m(0.0));
    assert_eq!(LiveMathAdapter.score(&it, "12.0", &near), m(1.0));
    assert_eq!(LiveMathAdapter.score(&it, "13", &[false, false]), m(0.0));
    assert_eq!(SpreadsheetAdapter.score(&it, "12.0", &near), m(1.0));
    assert_eq!(DocVQAAdapter.score(&it, "the beatle", &near), m(10.0 / 11.0));
    assert_eq!(OfficeQAAdapter.score(&it, "I think\nbeatles!\n \n", &near), m(1.0));
    let exact = CodexHarnessAdapter { inner_score_kind: "exact".into() };
    let numeric = CodexHarnessAdapter { inner_score_kind: "numeric".into() };
    assert_eq!(exact.score(&it, "12.0", &near), m(0.0));
    assert_eq!(numeric.score(&it, "12.0", &near), m(1.0));
    assert_eq!(build_adapter("searchqa").score(&it, "beatles", &near), m(1.0));
    assert_eq!(build_adapter("alfworld").score(&it, "12 done", &near), m(1.0));
}

#[test]
fn office_answers_stand_on_the_last_written_line() {
    assert_eq!(score_officeqa("42\nnot this", &golds(&["42"])), m(0.0));
    assert_eq!(score_officeqa("working\n 42 \n\n", &golds(&["42"])), m(1.0));
    assert_eq!(score_officeqa("", &golds(&["42"])), m(0.0));
    assert_eq!(score_officeqa("x\nabcde", &golds(&["abcdx"])), m(0.8));
}

#[test]
fn docvqa_wants_half() {
    assert_eq!(score_docvqa("ab", &golds(&["abcd"])), m(0.5));
    assert_eq!(score_docvqa("a", &golds(&["abcd"])), m(0.0));
}

#[test]
fn alfworld_scores_only_what_is_done() {
    assert_eq!(score_alfworld("Mug on the SHELF, done", &golds(&["drawer", "Shelf"])), m(1.0));
    assert_eq!(score_alfworld("Mug on the shelf", &golds(&["shelf"])), m(0.0));
    assert_eq!(score_alfworld("done", &golds(&["shelf"])), m(0.0));
    assert_eq!(score_alfworld("done", &golds(&[""])), m(1.0));
    assert_eq!(score_alfworld("done", &[]), m(0.0));
}

#[test]
fn calls_are_found_first_and_closed() {
    assert_eq!(extract_calc("<tool name=\"calc\">1</tool><tool name=\"calc\">2</tool>").as_deref(), Some("1"));
    assert_eq!(extract_calc("<tool name=\"calc\"> \n </tool>").as_deref(), Some(""));
    assert_eq!(extract_calc("<tool name=\"calc\">1"), None);
    assert_eq!(extract_calc("</tool><tool name=\"calc\">1"), None);
    assert_eq!(extract_calc("\u{e9}<tool name=\"calc\">\u{e9}</tool>").as_deref(), Some("\u{e9}"));
}

#[test]
fn the_last_final_line_counts() {
    assert_eq!(extract_final("FINAL: 1\nFinal: 2\nbye").as_deref(), Some("2"));
    assert_eq!(extract_final("  FINAL:\t x y \r\n").as_deref(), Some("x y"));
    assert_eq!(extract_final("the FINAL: 1"), None);
    assert_eq!(extract_final("final: 1"), None);
    assert_eq!(extract_final("FINAL:").as_deref(), Some(""));
    assert_eq!(extract_final(""), None);
}

#[test]
fn calculated_values() {
    assert_eq!(value("7 / 2"), Some(3.5));
    assert_eq!(value("7 % 4"), Some(3.0));
    assert_eq!(value("-3"), Some(-3.0));
    assert_eq!(value("max(1, 4, 2)"), Some(4.0));
    assert_eq!(value("a = 5; a + 1"), Some(6.0));
    assert_eq!(value("if(1 == 1, 2, 3)"), Some(2.0));
    assert_eq!(value("math::sqrt(16)"), Some(4.0));
    assert_eq!(value("1 == 1"), None);
    assert_eq!(value("\"text\""), None);
    assert_eq!(value("nonsense here"), None);
    assert_eq!(value(""), None);
    assert_eq!(value("0 / 0"), None);
    assert_eq!(value("9223372036854775807 + 1"), None);
    assert_eq!(eval_calc("10 / 4").unwrap().text, "2.5");
    assert_eq!(eval_calc("2 + 3").unwrap().text, "5");
}

#[test]
fn division_falls_back_where_promotion_fails() {
    assert_eq!(value("len(\"a\") / 2"), Some(0.5));
    assert_eq!(promote("a/b"), "a*1.0/b");
    // An assignment by division cannot be promoted.
    assert_eq!(value("a = 8; a /= 2; a"), Some(4.0));
}

#[test]
fn deep_expressions_are_evaluated() {
    let deep = format!("{}1{}", "(".repeat(500), ")".repeat(500));
    assert!(is_tame(&deep));
    assert_eq!(value(&deep), Some(1.0));
    let long = format!("1{}", " + 1".repeat(500));
    assert_eq!(value(&long), Some(501.0));
    let signs = format!("{}1", "-".repeat(500));
    assert_eq!(value(&signs), Some(1.0));
    let calls = format!("{}16{}", "floor(".repeat(250), ")".repeat(250));
    assert_eq!(value(&calls), Some(16.0));
    let applied = format!("{}16", "floor ".repeat(500));
    assert_eq!(value(&applied), Some(16.0));
    let tuples = format!("{}1{}", "(".repeat(250), ",1)".repeat(250));
    assert!(is_tame(&tuples));
    assert_eq!(value(&tuples), None);
    let chains = format!("{}1{}", "(".repeat(250), ";1)".repeat(250));
    assert!(is_tame(&chains));
    assert_eq!(value(&chains), Some(1.0));
    let mixed = format!("1{}", ";1,1".repeat(249));
    assert!(is_tame(&mixed));
    let _ = value(&mixed);
    let assigned = format!("{}1", "a = ".repeat(500));
    assert!(is_tame(&assigned));
    let _ = value(&assigned);
    for deeper in [format!("{}1{}", "(".repeat(501), ")".repeat(501)), format!("1{}", "+1".repeat(501)), format!("{}1", "floor ".repeat(501))] {
        assert!(!is_tame(&deeper));
    }
}

#[test]
fn long_expressions_are_evaluated() {
    let spaced = format!("1{}+ 2", " ".repeat(5000));
    assert_eq!(value(&spaced), Some(3.0));
    let commented = format!("1 /* {} */ + 2", "x".repeat(5000));
    assert!(is_tame(&commented));
    let quoted = format!("len(\"{}\")", "x".repeat(5000));
    assert_eq!(value(&quoted), Some(5000.0));
}

#[test]
fn tame_expressions() {
    for expr in [
        "1 + 2 * 3",
        "a = 1; b = 2; c = 3; a + b + c",
        "if(1 == 1, 2, 3)",
        "if(1==1 && 2==2, 3, 4)",
        "a = 3; b = 4; math::hypot(a, b)",
        "math::abs(-3)",
        "math::abs(3 * 4 - 20)",
        "math::abs(9223372036854775807)",
        "math::abs ( - 9223372036854775807 ) + math::abs(1)",
        "math::abs(9223372036854775808)",
        "a = 9223372036854775807; b = math::abs(7) + a",
        "a = 2; math::abs(a)",
        "shl(1, 3)",
        "shl(1, (2))",
        "shl(1, ( (63) ) )",
        "shl((1, 2), 3)",
        "shl(max(1, 2), 3)",
        "shl((1 + 2) * 3, 4)",
        "shr (256, 07 )",
        "shl = 3; shl + 1",
        "pushl + 1",
        "str::substring(\"abc\", 1)",
        "1 // 2",
        "1 /* 2 */ + 1",
        "\"shl(1, 99)\"",
        "1 /* shl(1, 99) */",
    ] {
        assert!(is_tame(expr), "{}", expr);
        let _ = value(expr);
    }
    for expr in [
        "shl(1, 64)",
        "shr(1, 99)",
        "shl(1, 6 4)",
        "shl(1, -1)",
        "shl(1, (2) * 40)",
        "shl(1, (64))",
        "shl(1, (2)",
        "shl(1, 2 + (3))",
        "shl((1, 2, 3)",
        "shl x",
        "shl(1; 2, 3)",
        "s/**/hl(1, 64)",
        "sh// \nl(1, 64)",
        "math::abs(9223372036854775807 + 1)",
        "9a = -9223372036854775807 - 1; math::abs(9a)",
        "a = 9223372036854775807; math::abs(-a - 1)",
        "a = 999999; a = a * a * a; math::abs(a * a)",
        "math::abs(0x10)",
        "math::abs(max(-1e300, -1e300))",
        "math::abs(len(\"a\"))",
        "math::abs bitnot(1)",
        "str::substring(\"\u{e9}\", 1)",
        "a = \"xxxxxxxxxxxxxxxxxxxxxxxxxxxxxxxxxxxxxxxxxxxxxxxxxxxxxxxxxxxxxxxxxxxxxx\"; a = a + a + a; a += a; len(a)",
    ] {
        assert!(!is_tame(expr), "{}", expr);
    }
    assert!(is_tame_call("no call"));
    assert!(is_tame_call("<tool name=\"calc\">1 / 2</tool>"));
    assert!(!is_tame_call("<tool name=\"calc\">shl(1, 64)</tool>"));
}

#[test]
fn functions_of_few_arguments_are_evaluated() {
    assert_eq!(value("math::abs(-3)"), Some(3.0));
    assert_eq!(value("math::abs(3 * 4 - 20)"), Some(8.0));
    assert_eq!(value("if(1==1 && 2==2, 3, 4)"), Some(3.0));
    assert_eq!(value("shl(1, 3)"), Some(8.0));
    assert_eq!(value("shr(256, 07)"), Some(2.0));
    assert_eq!(value("shl(1, 63)"), Some(-9223372036854775808.0));
    assert_eq!(value("shl(1, (2))"), Some(4.0));
    assert_eq!(value("shl((1 + 2) * 3, 4)"), Some(144.0));
    assert_eq!(value("math::abs(9223372036854775807)"), Some(9223372036854775807.0));
    assert_eq!(value("a = 2; math::abs(a)"), Some(2.0));
    assert_eq!(value("len(str::substring(\"abc\", 1))"), Some(2.0));
    assert_eq!(value("shl = 3; shl + 1"), Some(4.0));
    assert_eq!(value("7 /* seven */ - 2 /* two */"), value("7 - 2"));
    assert_eq!(value("1 +"), None);
    assert_eq!(value("true"), None);
}

#[test]
fn values_of_two_outcomes() {
    let number = |x: f64| CalcOutcome::Number { bits: x.to_bits(), text: x.to_string() };
    let text = |r: Option<CalcNumber>| r.map(|n| n.text);
    assert_eq!(text(value_of(number(1.5), None)), Some("1.5".to_string()));
    assert_eq!(text(value_of(number(1.5), Some(number(2.5)))), Some("1.5".to_string()));
    assert_eq!(text(value_of(CalcOutcome::Failed, Some(number(2.5)))), Some("2.5".to_string()));
    assert_eq!(text(value_of(CalcOutcome::NotNumber, Some(number(2.5)))), None);
    assert_eq!(text(value_of(CalcOutcome::Failed, Some(CalcOutcome::Failed))), None);
    assert_eq!(text(value_of(CalcOutcome::Failed, None)), None);
    assert_eq!(text(value_of(number(f64::NAN), Some(number(2.5)))), None);
}

#[test]
fn outcomes_give_finite_numbers_only() {
    let number = |x: f64| CalcOutcome::Number { bits: x.to_bits(), text: x.to_string() };
    assert_eq!(number_of_outcome(number(1.5)).map(|n| n.text), Some("1.5".to_string()));
    assert_eq!(number_of_outcome(number(f64::MAX)).map(|n| n.bits), Some(f64::MAX.to_bits()));
    assert_eq!(number_of_outcome(number(-0.0)).map(|n| n.bits), Some((-0.0f64).to_bits()));
    assert!(number_of_outcome(number(f64::INFINITY)).is_none());
    assert!(number_of_outcome(number(f64::NEG_INFINITY)).is_none());
    assert!(number_of_outcome(number(f64::NAN)).is_none());
    assert!(number_of_outcome(CalcOutcome::Failed).is_none());
    assert!(number_of_outcome(CalcOutcome::NotNumber).is_none());
}

#[test]
fn the_last_number_of_an_answer() {
    assert_eq!(extract_last_number("It is 3, or 4.50!").as_deref(), Some("4.50"));
    assert_eq!(extract_last_number("-7").as_deref(), Some("-7"));
    assert_eq!(extract_last_number("from 1-2 or 3 - x").as_deref(), Some("3"));
    assert_eq!(extract_last_number("1.2.3"), None);
    assert_eq!(extract_last_number("answer 5.").as_deref(), Some("5."));
    assert_eq!(extract_last_number(".5 --1 -. .").as_deref(), Some(".5"));
    assert_eq!(extract_last_number("none"), None);
    assert_eq!(extract_last_number("1,234").as_deref(), Some("234"));
}

#[test]
fn the_last_number_is_one_that_std_reads() {
    for run in ["1", "-1", "1.", ".1", "-.1", "-1.", ".", "-", "--1", "1-", "1.1.1", "-.", "0000", "1-2"] {
        assert_eq!(extract_last_number(run).is_some(), run.parse::<f64>().is_ok(), "{:?}", run);
    }
}

#[test]
fn right_answers_are_read_without_commas() {
    assert_eq!(parse_number(" 1,234,567.5\n"), "1234567.5");
    assert_eq!(parse_number("x, y"), "x y");
}

#[test]
fn nearness_to_any_right_answer_counts() {
    assert_eq!(score_numeric(&[]), m(0.0));
    assert_eq!(score_numeric(&[false, false]), m(0.0));
    assert_eq!(score_numeric(&[false, true, false]), m(1.0));
}

#[test]
fn marks_can_be_copied() {
    let a = OpenAIClientCloneable;
    let _b = a.clone();
}
