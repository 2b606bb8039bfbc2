//! The kinds of tasks: what the target model is asked, how its replies are taken, and how its answers
//! are scored.

use vstd::prelude::*;
use crate::calculator;
use crate::calculator::CalcNumber;
use crate::calculator::CalcNumberView;
use crate::gradient;
use crate::numeric;
use crate::openai::{ChatCall, ChatOptions};
use crate::scoring;
use crate::tame;
use crate::single;
use crate::single::Single;
use crate::text;
use crate::types;
use crate::types::{ChatMessage, ChatMessageView, TaskItem, TaskItemView, Trajectory, TrajectoryView};

pub use crate::calculator::{eval_calc, extract_calc};

verus! {

// ---------------------------------------------------------------------------------------------
// What the model is asked
// ---------------------------------------------------------------------------------------------

/// How a SearchQA task is introduced.
pub const SEARCHQA_INTRO: &'static str = "You are a SearchQA solver. Follow this skill exactly.";

/// How a math task is introduced.
pub const LIVEMATH_INTRO: &'static str = "You are a math problem solver. Follow this skill exactly.";

/// How a DocVQA task is introduced.
pub const DOCVQA_INTRO: &'static str = "You are a DocVQA solver. Extract answers from the document. Follow this skill exactly.";

/// How an OfficeQA task is introduced.
pub const OFFICEQA_INTRO: &'static str = "You answer office-style QA. You may compute inline (dates, arithmetic). Follow this skill exactly. Output the FINAL ANSWER on the last line.";

/// How a spreadsheet task is introduced.
pub const SPREADSHEET_INTRO: &'static str = "You generate spreadsheet formulas or numeric answers. Output ONLY the final number or formula result. Follow this skill exactly.";

/// How a task of acting in a small world is introduced.
pub const ALFWORLD_INTRO: &'static str = "You are an embodied agent. Output 'THOUGHT: ...\\nACTION: <action>'. End with 'ACTION: done'.";

/// How a task with a calculator is introduced.
pub const CODEX_INTRO: &'static str = "You are a Codex-style agent. You may emit <tool name=\"calc\">EXPR</tool> tags; harness replies with computed value. End with 'FINAL: <answer>' on the last line.";

/// The system prompt: an introduction, and the skill.
pub open spec fn with_skill(intro: Seq<char>, skill: Seq<char>) -> Seq<char> {
    intro + "\n\n---SKILL---\n"@ + skill + "\n---END SKILL---"@
}

/// A question about a document.
pub open spec fn about_document(item: TaskItemView) -> Seq<char> {
    "Question: "@ + item.question + "\n\n[DOC] "@ + item.context
}

/// A question about a document, or by itself where there is none.
pub open spec fn about_any_document(item: TaskItemView) -> Seq<char> {
    if item.context.len() == 0 {
        item.question
    } else {
        about_document(item)
    }
}

/// A task in a small world.
pub open spec fn about_world(item: TaskItemView) -> Seq<char> {
    "Task: "@ + item.question + "\nEnvironment: "@ + item.context
}

/// The system prompt: an introduction, and the skill.
fn skill_prompt(intro: &str, skill: &str) -> (r: String)
    ensures
        r@ == with_skill(intro@, skill@),
{
    let mut out = text::chars_of(intro);
    text::push_str(&mut out, "\n\n---SKILL---\n");
    text::push_str(&mut out, skill);
    text::push_str(&mut out, "\n---END SKILL---");
    text::string_of(&out)
}

/// Two texts, each behind its label.
fn labelled(first_label: &str, first: &str, second_label: &str, second: &str) -> (r: String)
    ensures
        r@ == first_label@ + first@ + second_label@ + second@,
{
    let mut out = text::chars_of(first_label);
    text::push_str(&mut out, first);
    text::push_str(&mut out, second_label);
    text::push_str(&mut out, second);
    text::string_of(&out)
}

/// A question about a document.
fn document_question(item: &TaskItem) -> (r: String)
    ensures
        r@ == about_document(item@),
{
    labelled("Question: ", item.question.as_str(), "\n\n[DOC] ", item.context.as_str())
}

/// A question about a document, or by itself where there is none.
fn any_document_question(item: &TaskItem) -> (r: String)
    ensures
        r@ == about_any_document(item@),
{
    if text::chars_of(item.context.as_str()).len() == 0 {
        item.question.clone()
    } else {
        document_question(item)
    }
}

// ---------------------------------------------------------------------------------------------
// A conversation about one item
// ---------------------------------------------------------------------------------------------

/// How far a conversation about one item has come: what was said, how many replies came, and what the
/// answer is so far.
#[derive(Debug)]
pub struct Dialogue {
    pub messages: Vec<ChatMessage>,
    pub replies: u32,
    pub prediction: String,
}

/// What a `Dialogue` says.
pub struct DialogueView {
    pub messages: Seq<ChatMessageView>,
    pub replies: nat,
    pub prediction: Seq<char>,
}

impl View for Dialogue {
    type V = DialogueView;

    open spec fn view(&self) -> DialogueView {
        DialogueView {
            messages: types::message_views(self.messages@),
            replies: self.replies as nat,
            prediction: self.prediction@,
        }
    }
}

/// A conversation after a reply, and whether that was the last one.
#[derive(Debug)]
pub struct Turn {
    pub dialogue: Dialogue,
    pub done: bool,
}

/// What a `Turn` says.
pub struct TurnView {
    pub dialogue: DialogueView,
    pub done: bool,
}

impl View for Turn {
    type V = TurnView;

    open spec fn view(&self) -> TurnView {
        TurnView { dialogue: self.dialogue@, done: self.done }
    }
}

/// A conversation that nobody has replied to.
pub open spec fn opened(messages: Seq<ChatMessageView>) -> DialogueView {
    DialogueView { messages, replies: 0, prediction: Seq::empty() }
}

/// The messages, and one more.
pub open spec fn said(messages: Seq<ChatMessageView>, role: Seq<char>, content: Seq<char>) -> Seq<
    ChatMessageView,
> {
    messages.push(ChatMessageView { role, content })
}

/// A conversation that one reply ends; the reply is kept as the answer alone.
pub open spec fn answered(before: DialogueView, prediction: Seq<char>) -> TurnView {
    TurnView {
        dialogue: DialogueView {
            messages: before.messages,
            replies: before.replies + 1,
            prediction,
        },
        done: true,
    }
}

/// A conversation that nobody has replied to.
fn open_with(sys: String, user: String) -> (r: Dialogue)
    ensures
        r@ == opened(gradient::two_messages(sys@, user@)),
{
    let r = Dialogue {
        messages: gradient::system_and_user(sys, user),
        replies: 0,
        prediction: String::new(),
    };
    proof {
        assert(r@.prediction =~= Seq::empty());
    }
    r
}

/// One more message.
fn say(messages: &mut Vec<ChatMessage>, role: &str, content: String)
    ensures
        types::message_views(final(messages)@) == said(
            types::message_views(old(messages)@),
            role@,
            content@,
        ),
{
    messages.push(ChatMessage { role: role.to_owned(), content });
    proof {
        assert(types::message_views(messages@) =~= said(
            types::message_views(old(messages)@),
            role@,
            content@,
        ));
    }
}

/// A conversation that one reply ends.
fn answer(dialogue: Dialogue, prediction: String) -> (r: Turn)
    requires
        dialogue.replies < u32::MAX,
    ensures
        r@ == answered(dialogue@, prediction@),
{
    Turn {
        dialogue: Dialogue {
            messages: dialogue.messages,
            replies: dialogue.replies + 1,
            prediction,
        },
        done: true,
    }
}

/// The text without white space around it.
fn trimmed(s: &str) -> (r: String)
    ensures
        r@ == text::trim(s@),
{
    text::string_of(&text::trim_chars(&text::chars_of(s)))
}

/// The first line of a text, without white space around it.
pub open spec fn first_line(s: Seq<char>) -> Seq<char> {
    let ls = text::lines(text::trim(s));
    if ls.len() == 0 {
        Seq::empty()
    } else {
        text::trim(ls[0])
    }
}

/// The first line of a text, without white space around it.
fn first_line_of(s: &str) -> (r: String)
    ensures
        r@ == first_line(s@),
{
    let ls = text::lines_of(&text::trim_chars(&text::chars_of(s)));
    if ls.len() == 0 {
        let r = String::new();
        proof {
            assert(r@ =~= Seq::empty());
        }
        r
    } else {
        proof {
            assert(text::views(ls@)[0] == ls@[0]@);
        }
        text::string_of(&text::trim_chars(&ls[0]))
    }
}

// ---------------------------------------------------------------------------------------------
// Acting in a small world
// ---------------------------------------------------------------------------------------------

/// How many replies a task in a small world takes at most.
pub const ALFWORLD_TURNS: u32 = 6;

/// The agent says that it is done, in a reply given in lower case.
pub open spec fn says_done(lowered: Seq<char>) -> bool {
    text::contains_text(lowered, "action: done"@) || text::contains_text(lowered, "action:done"@)
}

/// A conversation after the reply of an agent in a small world. The reply is the answer; unless it says
/// that the agent is done, the agent is told to go on.
pub open spec fn acted(before: DialogueView, reply: Seq<char>) -> TurnView {
    let heard = said(before.messages, "assistant"@, reply);
    let replies = before.replies + 1;
    if says_done(scoring::lowercase(reply)) {
        TurnView {
            dialogue: DialogueView { messages: heard, replies, prediction: reply },
            done: true,
        }
    } else {
        TurnView {
            dialogue: DialogueView {
                messages: said(heard, "user"@, "OBSERVATION: ok. Continue."@),
                replies,
                prediction: reply,
            },
            done: replies >= ALFWORLD_TURNS,
        }
    }
}

/// `p` stands in `s`.
fn holds(s: &str, p: &str) -> (r: bool)
    ensures
        r == text::contains_text(s@, p@),
{
    text::find_chars(&text::chars_of(s), &text::chars_of(p)).is_some()
}

/// A conversation after the reply of an agent in a small world.
pub fn act(dialogue: Dialogue, reply: &str) -> (r: Turn)
    requires
        dialogue.replies < ALFWORLD_TURNS,
    ensures
        r@ == acted(dialogue@, reply@),
        forall|p: Seq<char>, q: Seq<char>|
            reply@ == #[trigger] (p + "ACTION: done"@ + q) && (forall|i: int|
                0 <= i < reply@.len() ==> scoring::is_ascii_char(#[trigger] reply@[i])) ==> r@.done
                && r@.dialogue.messages.len() == dialogue@.messages.len() + 1,
{
    let ghost opened = dialogue@;
    let mut messages = dialogue.messages;
    say(&mut messages, "assistant", reply.to_owned());
    let replies: u32 = dialogue.replies + 1;
    let prediction = reply.to_owned();
    let lowered = reply.to_lowercase();
    proof {
        assert forall|p: Seq<char>, q: Seq<char>|
            reply@ == #[trigger] (p + "ACTION: done"@ + q) && (forall|i: int|
                0 <= i < reply@.len() ==> scoring::is_ascii_char(#[trigger] reply@[i])) implies acted(
            opened,
            reply@,
        ).done && acted(opened, reply@).dialogue.messages.len() == opened.messages.len() + 1 by {
            law_written_out_actions_end(opened, reply@, p, q);
        }
    }
    if holds(lowered.as_str(), "action: done") || holds(lowered.as_str(), "action:done") {
        Turn { dialogue: Dialogue { messages, replies, prediction }, done: true }
    } else {
        say(&mut messages, "user", "OBSERVATION: ok. Continue.".to_owned());
        Turn {
            dialogue: Dialogue { messages, replies, prediction },
            done: replies >= ALFWORLD_TURNS,
        }
    }
}

// ---------------------------------------------------------------------------------------------
// Answering with a calculator
// ---------------------------------------------------------------------------------------------

/// How many replies a task with a calculator takes at most.
pub const CODEX_TURNS: u32 = 5;

/// What a line that names the final answer says it is.
pub open spec fn final_on(line: Seq<char>) -> Option<Seq<char>> {
    let t = text::trim(line);
    if text::starts_with(t, "FINAL:"@) {
        Some(text::trim(t.skip("FINAL:"@.len() as int)))
    } else if text::starts_with(t, "Final:"@) {
        Some(text::trim(t.skip("Final:"@.len() as int)))
    } else {
        None
    }
}

/// The final answer that the last of `lines` with one names.
pub open spec fn final_in(lines: Seq<Seq<char>>) -> Option<Seq<char>>
    decreases lines.len(),
{
    if lines.len() == 0 {
        None
    } else {
        match final_on(lines.last()) {
            Some(t) => Some(t),
            None => final_in(lines.drop_last()),
        }
    }
}

/// What stands behind `marker` at the start of `t`, without white space around it.
fn behind(t: &Vec<char>, marker: &str) -> (r: Option<String>)
    ensures
        text::opt_view(r) == (if text::starts_with(t@, marker@) {
            Some(text::trim(t@.skip(marker@.len() as int)))
        } else {
            None
        }),
{
    let m = text::chars_of(marker);
    if text::stands_at(t, &m, 0) {
        let n: usize = t.len();
        let rest = text::slice_of(t, m.len(), n);
        proof {
            assert(rest@ =~= t@.skip(marker@.len() as int));
        }
        Some(text::string_of(&text::trim_chars(&rest)))
    } else {
        None
    }
}

/// The final answer: what the last line that begins with `FINAL:` or `Final:` says behind that.
pub fn extract_final(s: &str) -> (r: Option<String>)
    ensures
        text::opt_view(r) == final_in(text::lines(s@)),
{
    let ls = text::lines_of(&text::chars_of(s));
    let mut i: usize = ls.len();
    proof {
        assert(text::views(ls@).take(i as int) =~= text::views(ls@));
    }
    while i > 0
        invariant
            i <= ls@.len(),
            final_in(text::lines(s@)) == final_in(text::views(ls@).take(i as int)),
        decreases i,
    {
        let t = text::trim_chars(&ls[i - 1]);
        proof {
            assert(text::views(ls@).take(i as int).last() == ls@[i - 1]@);
            assert(text::views(ls@).take(i as int).drop_last() =~= text::views(ls@).take(i - 1));
        }
        match behind(&t, "FINAL:") {
            Some(r) => {
                return Some(r);
            },
            None => {},
        }
        match behind(&t, "Final:") {
            Some(r) => {
                return Some(r);
            },
            None => {},
        }
        i = i - 1;
    }
    None
}

/// What the calculator answers.
pub open spec fn observation(value: Option<CalcNumberView>) -> Seq<char> {
    let shown = match value {
        Some(n) => n.text,
        None => "ERR"@,
    };
    "<observation>"@ + shown + "</observation>"@
}

/// A conversation after the reply of an agent with a calculator. Where the reply calls the calculator,
/// `value` is what it answers; else the reply ends the conversation, and its final answer, or all of it
/// where it names none, is the answer.
pub open spec fn worked(
    before: DialogueView,
    reply: Seq<char>,
    value: Option<CalcNumberView>,
) -> TurnView {
    let heard = said(before.messages, "assistant"@, reply);
    let replies = before.replies + 1;
    if calculator::called(reply) is Some {
        TurnView {
            dialogue: DialogueView {
                messages: said(heard, "user"@, observation(value)),
                replies,
                prediction: before.prediction,
            },
            done: replies >= CODEX_TURNS,
        }
    } else {
        TurnView {
            dialogue: DialogueView {
                messages: heard,
                replies,
                prediction: match final_in(text::lines(reply)) {
                    Some(t) => t,
                    None => reply,
                },
            },
            done: true,
        }
    }
}

/// The call in the reply, where there is one, can be evaluated here.
pub open spec fn tame_call(reply: Seq<char>) -> bool {
    calculator::called(reply) matches Some(expr) ==> tame::tame(expr) && tame::tame(
        calculator::promoted(expr),
    )
}

/// A conversation after the reply of an agent with a calculator, on any value that the calculator may
/// give to the call in the reply.
pub open spec fn worked_somehow(before: DialogueView, reply: Seq<char>, after: TurnView) -> bool {
    exists|value: Option<CalcNumberView>| #[trigger]
        worked(before, reply, value) == after && match calculator::called(reply) {
            Some(expr) => calculator::calculated(expr, value),
            None => true,
        }
}

/// A conversation after the reply of an agent with a calculator, where `value` is what the calculator
/// answers, if the reply calls it.
pub fn work_with(dialogue: Dialogue, reply: &str, value: Option<CalcNumber>) -> (r: Turn)
    requires
        dialogue.replies < CODEX_TURNS,
    ensures
        r@ == worked(dialogue@, reply@, calculator::number_view(value)),
{
    let mut messages = dialogue.messages;
    say(&mut messages, "assistant", reply.to_owned());
    let replies: u32 = dialogue.replies + 1;
    match extract_calc(reply) {
        Some(_) => {
            let mut out = text::chars_of("<observation>");
            match &value {
                Some(n) => text::push_str(&mut out, n.text.as_str()),
                None => text::push_str(&mut out, "ERR"),
            }
            text::push_str(&mut out, "</observation>");
            say(&mut messages, "user", text::string_of(&out));
            Turn {
                dialogue: Dialogue { messages, replies, prediction: dialogue.prediction },
                done: replies >= CODEX_TURNS,
            }
        },
        None => {
            let prediction = match extract_final(reply) {
                Some(t) => t,
                None => reply.to_owned(),
            };
            Turn { dialogue: Dialogue { messages, replies, prediction }, done: true }
        },
    }
}

/// Whether the call in the reply, where there is one, can be evaluated here.
pub fn is_tame_call(reply: &str) -> (r: bool)
    ensures
        r == tame_call(reply@),
{
    match extract_calc(reply) {
        Some(expr) => tame::is_tame(expr.as_str()) && tame::is_tame(
            calculator::promote(expr.as_str()).as_str(),
        ),
        None => true,
    }
}

/// A conversation after the reply of an agent with a calculator.
pub fn work(dialogue: Dialogue, reply: &str) -> (r: Turn)
    requires
        dialogue.replies < CODEX_TURNS,
        tame_call(reply@),
    ensures
        worked_somehow(dialogue@, reply@, r@),
{
    let ghost before = dialogue@;
    let value = match extract_calc(reply) {
        Some(expr) => eval_calc(expr.as_str()),
        None => None,
    };
    let ghost shown = calculator::number_view(value);
    let r = work_with(dialogue, reply, value);
    proof {
        assert(worked(before, reply@, shown) == r@);
    }
    r
}

// ---------------------------------------------------------------------------------------------
// Scores
// ---------------------------------------------------------------------------------------------

/// The score of an answer that has to be one of the right ones.
pub open spec fn exact_score(prediction: Seq<char>, golds: Seq<Seq<char>>) -> Single {
    if scoring::is_right(prediction, golds) {
        single::one()
    } else {
        single::zero()
    }
}

/// The score of an answer that has to be similar to one of the right ones by half.
pub open spec fn similar_score(prediction: Seq<char>, golds: Seq<Seq<char>>) -> Single {
    scoring::anls_of(prediction, golds, Single { bits: single::HALF })
}

/// The last of `lines` that is not blank; an empty one where there is none.
pub open spec fn last_written(lines: Seq<Seq<char>>) -> Seq<char>
    decreases lines.len(),
{
    if lines.len() == 0 {
        Seq::empty()
    } else if text::trim(lines.last()).len() > 0 {
        lines.last()
    } else {
        last_written(lines.drop_last())
    }
}

/// The score of an answer whose last line that is not blank has to be, or to be similar to, one of the
/// right ones: the higher of the two scores.
pub open spec fn office_score(prediction: Seq<char>, golds: Seq<Seq<char>>) -> Single {
    let last = last_written(text::lines(prediction));
    let (exact, similar) = (exact_score(last, golds), similar_score(last, golds));
    if single::less(similar, exact) {
        exact
    } else {
        similar
    }
}

/// The score of an agent in a small world: it has to say that it is done, and one of the right things.
pub open spec fn world_score(prediction: Seq<char>, golds: Seq<Seq<char>>) -> Single {
    let lowered = scoring::lowercase(prediction);
    if text::contains_text(lowered, "done"@) && exists|i: int|
        0 <= i < golds.len() && text::contains_text(lowered, scoring::lowercase(#[trigger] golds[i])) {
        single::one()
    } else {
        single::zero()
    }
}

/// The score of an answer that has to be similar to one of the right ones by half.
pub fn score_docvqa(prediction: &str, golds: &[String]) -> (r: Single)
    ensures
        r == similar_score(prediction@, text::texts(golds@)),
{
    scoring::anls(prediction, golds, Single { bits: single::HALF })
}

/// The last line of `s` that is not blank; an empty one where there is none.
fn last_written_line(s: &str) -> (r: String)
    ensures
        r@ == last_written(text::lines(s@)),
{
    let ls = text::lines_of(&text::chars_of(s));
    let mut i: usize = ls.len();
    proof {
        assert(text::views(ls@).take(i as int) =~= text::views(ls@));
    }
    while i > 0
        invariant
            i <= ls@.len(),
            last_written(text::lines(s@)) == last_written(text::views(ls@).take(i as int)),
        decreases i,
    {
        proof {
            assert(text::views(ls@).take(i as int).last() == ls@[i - 1]@);
            assert(text::views(ls@).take(i as int).drop_last() =~= text::views(ls@).take(i - 1));
        }
        if text::trim_chars(&ls[i - 1]).len() > 0 {
            return text::string_of(&ls[i - 1]);
        }
        i = i - 1;
    }
    let r = String::new();
    proof {
        assert(r@ =~= Seq::empty());
    }
    r
}

/// The score of an answer whose last line that is not blank has to be, or to be similar to, one of the
/// right ones.
pub fn score_officeqa(prediction: &str, golds: &[String]) -> (r: Single)
    ensures
        r == office_score(prediction@, text::texts(golds@)),
{
    let last = last_written_line(prediction);
    let exact = scoring::exact_match(last.as_str(), golds);
    let similar = score_docvqa(last.as_str(), golds);
    if similar.is_less(exact) {
        exact
    } else {
        similar
    }
}

/// The score of an agent in a small world.
pub fn score_alfworld(prediction: &str, golds: &[String]) -> (r: Single)
    ensures
        r == world_score(prediction@, text::texts(golds@)),
{
    let lowered = prediction.to_lowercase();
    if !holds(lowered.as_str(), "done") {
        return Single { bits: 0 };
    }
    let n: usize = golds.len();
    for i in 0..n
        invariant
            n == golds@.len(),
            lowered@ == scoring::lowercase(prediction@),
            text::contains_text(lowered@, "done"@),
            forall|k: int|
                0 <= k < i ==> !text::contains_text(
                    lowered@,
                    scoring::lowercase(#[trigger] text::texts(golds@)[k]),
                ),
    {
        let gold = golds[i].to_lowercase();
        proof {
            assert(text::texts(golds@)[i as int] == golds@[i as int]@);
        }
        if holds(lowered.as_str(), gold.as_str()) {
            return Single { bits: single::ONE };
        }
    }
    Single { bits: 0 }
}

// ---------------------------------------------------------------------------------------------
// Kinds of tasks
// ---------------------------------------------------------------------------------------------

/// A kind of tasks.
pub trait Adapter {
    /// What is said before the model first replies.
    spec fn opening(&self, skill: Seq<char>, item: TaskItemView) -> Seq<ChatMessageView>;

    /// How long a reply may be.
    spec fn token_limit(&self) -> u32;

    /// How many replies a conversation takes at most.
    spec fn turn_limit(&self) -> nat;

    /// A reply that can be taken here.
    spec fn hears(&self, reply: Seq<char>) -> bool;

    /// What a reply makes of a conversation.
    spec fn heard(&self, before: DialogueView, reply: Seq<char>, after: TurnView) -> bool;

    /// The score of an answer; `near` is what `numeric_score` takes.
    spec fn scored(&self, item: TaskItemView, prediction: Seq<char>, near: Seq<bool>) -> Single;

    /// A conversation that the model has not yet replied in.
    fn open_dialogue(&self, skill: &str, item: &TaskItem) -> (r: Dialogue)
        ensures
            r@ == opened(self.opening(skill@, item@)),
    ;

    /// How long a reply may be.
    fn max_tokens(&self) -> (r: u32)
        ensures
            r == self.token_limit(),
    ;

    /// Whether a reply can be taken here.
    fn can_hear(&self, reply: &str) -> (r: bool)
        ensures
            r == self.hears(reply@),
    ;

    /// What a reply makes of a conversation.
    fn hear(&self, dialogue: Dialogue, reply: &str) -> (r: Turn)
        requires
            dialogue.replies < self.turn_limit(),
            self.hears(reply@),
        ensures
            self.heard(dialogue@, reply@, r@),
    ;

    /// The score of an answer.
    fn score(&self, item: &TaskItem, prediction: &str, near: &[bool]) -> (r: Single)
        ensures
            r == self.scored(item@, prediction@, near@),
    ;
}

/// Questions about what a search found.
#[derive(Debug, Clone, Copy)]
pub struct SearchQAAdapter;

impl Adapter for SearchQAAdapter {
    open spec fn opening(&self, skill: Seq<char>, item: TaskItemView) -> Seq<ChatMessageView> {
        gradient::two_messages(with_skill(SEARCHQA_INTRO@, skill), about_document(item))
    }

    open spec fn token_limit(&self) -> u32 {
        200
    }

    open spec fn turn_limit(&self) -> nat {
        1
    }

    open spec fn hears(&self, reply: Seq<char>) -> bool {
        true
    }

    open spec fn heard(&self, before: DialogueView, reply: Seq<char>, after: TurnView) -> bool {
        after == answered(before, first_line(reply))
    }

    open spec fn scored(&self, item: TaskItemView, prediction: Seq<char>, near: Seq<bool>) -> Single {
        exact_score(prediction, item.answers)
    }

    fn open_dialogue(&self, skill: &str, item: &TaskItem) -> (r: Dialogue) {
        open_with(skill_prompt(SEARCHQA_INTRO, skill), document_question(item))
    }

    fn max_tokens(&self) -> (r: u32) {
        200
    }

    fn can_hear(&self, reply: &str) -> (r: bool) {
        true
    }

    fn hear(&self, dialogue: Dialogue, reply: &str) -> (r: Turn) {
        answer(dialogue, first_line_of(reply))
    }

    fn score(&self, item: &TaskItem, prediction: &str, near: &[bool]) -> (r: Single) {
        scoring::exact_match(prediction, item.answers.as_slice())
    }
}

/// Math problems.
#[derive(Debug, Clone, Copy)]
pub struct LiveMathAdapter;

impl Adapter for LiveMathAdapter {
    open spec fn opening(&self, skill: Seq<char>, item: TaskItemView) -> Seq<ChatMessageView> {
        gradient::two_messages(with_skill(LIVEMATH_INTRO@, skill), item.question)
    }

    open spec fn token_limit(&self) -> u32 {
        800
    }

    open spec fn turn_limit(&self) -> nat {
        1
    }

    open spec fn hears(&self, reply: Seq<char>) -> bool {
        true
    }

    open spec fn heard(&self, before: DialogueView, reply: Seq<char>, after: TurnView) -> bool {
        after == answered(before, text::trim(reply))
    }

    open spec fn scored(&self, item: TaskItemView, prediction: Seq<char>, near: Seq<bool>) -> Single {
        numeric::numeric_score(near)
    }

    fn open_dialogue(&self, skill: &str, item: &TaskItem) -> (r: Dialogue) {
        open_with(skill_prompt(LIVEMATH_INTRO, skill), item.question.clone())
    }

    fn max_tokens(&self) -> (r: u32) {
        800
    }

    fn can_hear(&self, reply: &str) -> (r: bool) {
        true
    }

    fn hear(&self, dialogue: Dialogue, reply: &str) -> (r: Turn) {
        answer(dialogue, trimmed(reply))
    }

    fn score(&self, item: &TaskItem, prediction: &str, near: &[bool]) -> (r: Single) {
        numeric::score_numeric(near)
    }
}

/// Questions about a document.
#[derive(Debug, Clone, Copy)]
pub struct DocVQAAdapter;

impl Adapter for DocVQAAdapter {
    open spec fn opening(&self, skill: Seq<char>, item: TaskItemView) -> Seq<ChatMessageView> {
        gradient::two_messages(with_skill(DOCVQA_INTRO@, skill), about_any_document(item))
    }

    open spec fn token_limit(&self) -> u32 {
        200
    }

    open spec fn turn_limit(&self) -> nat {
        1
    }

    open spec fn hears(&self, reply: Seq<char>) -> bool {
        true
    }

    open spec fn heard(&self, before: DialogueView, reply: Seq<char>, after: TurnView) -> bool {
        after == answered(before, text::trim(reply))
    }

    open spec fn scored(&self, item: TaskItemView, prediction: Seq<char>, near: Seq<bool>) -> Single {
        similar_score(prediction, item.answers)
    }

    fn open_dialogue(&self, skill: &str, item: &TaskItem) -> (r: Dialogue) {
        open_with(skill_prompt(DOCVQA_INTRO, skill), any_document_question(item))
    }

    fn max_tokens(&self) -> (r: u32) {
        200
    }

    fn can_hear(&self, reply: &str) -> (r: bool) {
        true
    }

    fn hear(&self, dialogue: Dialogue, reply: &str) -> (r: Turn) {
        answer(dialogue, trimmed(reply))
    }

    fn score(&self, item: &TaskItem, prediction: &str, near: &[bool]) -> (r: Single) {
        score_docvqa(prediction, item.answers.as_slice())
    }
}

/// Questions from an office.
#[derive(Debug, Clone, Copy)]
pub struct OfficeQAAdapter;

impl Adapter for OfficeQAAdapter {
    open spec fn opening(&self, skill: Seq<char>, item: TaskItemView) -> Seq<ChatMessageView> {
        gradient::two_messages(with_skill(OFFICEQA_INTRO@, skill), about_any_document(item))
    }

    open spec fn token_limit(&self) -> u32 {
        600
    }

    open spec fn turn_limit(&self) -> nat {
        1
    }

    open spec fn hears(&self, reply: Seq<char>) -> bool {
        true
    }

    open spec fn heard(&self, before: DialogueView, reply: Seq<char>, after: TurnView) -> bool {
        after == answered(before, text::trim(reply))
    }

    open spec fn scored(&self, item: TaskItemView, prediction: Seq<char>, near: Seq<bool>) -> Single {
        office_score(prediction, item.answers)
    }

    fn open_dialogue(&self, skill: &str, item: &TaskItem) -> (r: Dialogue) {
        open_with(skill_prompt(OFFICEQA_INTRO, skill), any_document_question(item))
    }

    fn max_tokens(&self) -> (r: u32) {
        600
    }

    fn can_hear(&self, reply: &str) -> (r: bool) {
        true
    }

    fn hear(&self, dialogue: Dialogue, reply: &str) -> (r: Turn) {
        answer(dialogue, trimmed(reply))
    }

    fn score(&self, item: &TaskItem, prediction: &str, near: &[bool]) -> (r: Single) {
        score_officeqa(prediction, item.answers.as_slice())
    }
}

/// Spreadsheet formulas.
#[derive(Debug, Clone, Copy)]
pub struct SpreadsheetAdapter;

impl Adapter for SpreadsheetAdapter {
    open spec fn opening(&self, skill: Seq<char>, item: TaskItemView) -> Seq<ChatMessageView> {
        gradient::two_messages(with_skill(SPREADSHEET_INTRO@, skill), about_any_document(item))
    }

    open spec fn token_limit(&self) -> u32 {
        400
    }

    open spec fn turn_limit(&self) -> nat {
        1
    }

    open spec fn hears(&self, reply: Seq<char>) -> bool {
        true
    }

    open spec fn heard(&self, before: DialogueView, reply: Seq<char>, after: TurnView) -> bool {
        after == answered(before, text::trim(reply))
    }

    open spec fn scored(&self, item: TaskItemView, prediction: Seq<char>, near: Seq<bool>) -> Single {
        numeric::numeric_score(near)
    }

    fn open_dialogue(&self, skill: &str, item: &TaskItem) -> (r: Dialogue) {
        open_with(skill_prompt(SPREADSHEET_INTRO, skill), any_document_question(item))
    }

    fn max_tokens(&self) -> (r: u32) {
        400
    }

    fn can_hear(&self, reply: &str) -> (r: bool) {
        true
    }

    fn hear(&self, dialogue: Dialogue, reply: &str) -> (r: Turn) {
        answer(dialogue, trimmed(reply))
    }

    fn score(&self, item: &TaskItem, prediction: &str, near: &[bool]) -> (r: Single) {
        numeric::score_numeric(near)
    }
}

/// Acting in a small world.
#[derive(Debug, Clone, Copy)]
pub struct AlfworldAdapter;

impl Adapter for AlfworldAdapter {
    open spec fn opening(&self, skill: Seq<char>, item: TaskItemView) -> Seq<ChatMessageView> {
        gradient::two_messages(with_skill(ALFWORLD_INTRO@, skill), about_world(item))
    }

    open spec fn token_limit(&self) -> u32 {
        300
    }

    open spec fn turn_limit(&self) -> nat {
        ALFWORLD_TURNS as nat
    }

    open spec fn hears(&self, reply: Seq<char>) -> bool {
        true
    }

    open spec fn heard(&self, before: DialogueView, reply: Seq<char>, after: TurnView) -> bool {
        after == acted(before, reply)
    }

    open spec fn scored(&self, item: TaskItemView, prediction: Seq<char>, near: Seq<bool>) -> Single {
        world_score(prediction, item.answers)
    }

    fn open_dialogue(&self, skill: &str, item: &TaskItem) -> (r: Dialogue) {
        open_with(
            skill_prompt(ALFWORLD_INTRO, skill),
            labelled("Task: ", item.question.as_str(), "\nEnvironment: ", item.context.as_str()),
        )
    }

    fn max_tokens(&self) -> (r: u32) {
        300
    }

    fn can_hear(&self, reply: &str) -> (r: bool) {
        true
    }

    fn hear(&self, dialogue: Dialogue, reply: &str) -> (r: Turn) {
        act(dialogue, reply)
    }

    fn score(&self, item: &TaskItem, prediction: &str, near: &[bool]) -> (r: Single) {
        score_alfworld(prediction, item.answers.as_slice())
    }
}

/// Questions that are answered with a calculator. `inner_score_kind` says how an answer is scored:
/// by nearness where it is `numeric`, else as one that has to be right.
#[derive(Debug)]
pub struct CodexHarnessAdapter {
    pub inner_score_kind: String,
}

impl Adapter for CodexHarnessAdapter {
    open spec fn opening(&self, skill: Seq<char>, item: TaskItemView) -> Seq<ChatMessageView> {
        gradient::two_messages(with_skill(CODEX_INTRO@, skill), about_document(item))
    }

    open spec fn token_limit(&self) -> u32 {
        500
    }

    open spec fn turn_limit(&self) -> nat {
        CODEX_TURNS as nat
    }

    open spec fn hears(&self, reply: Seq<char>) -> bool {
        tame_call(reply)
    }

    open spec fn heard(&self, before: DialogueView, reply: Seq<char>, after: TurnView) -> bool {
        worked_somehow(before, reply, after)
    }

    open spec fn scored(&self, item: TaskItemView, prediction: Seq<char>, near: Seq<bool>) -> Single {
        if self.inner_score_kind@ == "numeric"@ {
            numeric::numeric_score(near)
        } else {
            exact_score(prediction, item.answers)
        }
    }

    fn open_dialogue(&self, skill: &str, item: &TaskItem) -> (r: Dialogue) {
        open_with(
            skill_prompt(CODEX_INTRO, skill),
            document_question(item),
        )
    }

    fn max_tokens(&self) -> (r: u32) {
        500
    }

    fn can_hear(&self, reply: &str) -> (r: bool) {
        is_tame_call(reply)
    }

    fn hear(&self, dialogue: Dialogue, reply: &str) -> (r: Turn) {
        work(dialogue, reply)
    }

    fn score(&self, item: &TaskItem, prediction: &str, near: &[bool]) -> (r: Single) {
        if text::same_str(self.inner_score_kind.as_str(), "numeric") {
            numeric::score_numeric(near)
        } else {
            scoring::exact_match(prediction, item.answers.as_slice())
        }
    }
}

/// Any of the kinds of tasks.
#[derive(Debug)]
pub enum AnyAdapter {
    SearchQA(SearchQAAdapter),
    LiveMath(LiveMathAdapter),
    DocVQA(DocVQAAdapter),
    OfficeQA(OfficeQAAdapter),
    Spreadsheet(SpreadsheetAdapter),
    Alfworld(AlfworldAdapter),
    Codex(CodexHarnessAdapter),
}

impl Adapter for AnyAdapter {
    open spec fn opening(&self, skill: Seq<char>, item: TaskItemView) -> Seq<ChatMessageView> {
        match self {
            AnyAdapter::SearchQA(a) => a.opening(skill, item),
            AnyAdapter::LiveMath(a) => a.opening(skill, item),
            AnyAdapter::DocVQA(a) => a.opening(skill, item),
            AnyAdapter::OfficeQA(a) => a.opening(skill, item),
            AnyAdapter::Spreadsheet(a) => a.opening(skill, item),
            AnyAdapter::Alfworld(a) => a.opening(skill, item),
            AnyAdapter::Codex(a) => a.opening(skill, item),
        }
    }

    open spec fn token_limit(&self) -> u32 {
        match self {
            AnyAdapter::SearchQA(a) => a.token_limit(),
            AnyAdapter::LiveMath(a) => a.token_limit(),
            AnyAdapter::DocVQA(a) => a.token_limit(),
            AnyAdapter::OfficeQA(a) => a.token_limit(),
            AnyAdapter::Spreadsheet(a) => a.token_limit(),
            AnyAdapter::Alfworld(a) => a.token_limit(),
            AnyAdapter::Codex(a) => a.token_limit(),
        }
    }

    open spec fn turn_limit(&self) -> nat {
        match self {
            AnyAdapter::SearchQA(a) => a.turn_limit(),
            AnyAdapter::LiveMath(a) => a.turn_limit(),
            AnyAdapter::DocVQA(a) => a.turn_limit(),
            AnyAdapter::OfficeQA(a) => a.turn_limit(),
            AnyAdapter::Spreadsheet(a) => a.turn_limit(),
            AnyAdapter::Alfworld(a) => a.turn_limit(),
            AnyAdapter::Codex(a) => a.turn_limit(),
        }
    }

    open spec fn hears(&self, reply: Seq<char>) -> bool {
        match self {
            AnyAdapter::SearchQA(a) => a.hears(reply),
            AnyAdapter::LiveMath(a) => a.hears(reply),
            AnyAdapter::DocVQA(a) => a.hears(reply),
            AnyAdapter::OfficeQA(a) => a.hears(reply),
            AnyAdapter::Spreadsheet(a) => a.hears(reply),
            AnyAdapter::Alfworld(a) => a.hears(reply),
            AnyAdapter::Codex(a) => a.hears(reply),
        }
    }

    open spec fn heard(&self, before: DialogueView, reply: Seq<char>, after: TurnView) -> bool {
        match self {
            AnyAdapter::SearchQA(a) => a.heard(before, reply, after),
            AnyAdapter::LiveMath(a) => a.heard(before, reply, after),
            AnyAdapter::DocVQA(a) => a.heard(before, reply, after),
            AnyAdapter::OfficeQA(a) => a.heard(before, reply, after),
            AnyAdapter::Spreadsheet(a) => a.heard(before, reply, after),
            AnyAdapter::Alfworld(a) => a.heard(before, reply, after),
            AnyAdapter::Codex(a) => a.heard(before, reply, after),
        }
    }

    open spec fn scored(&self, item: TaskItemView, prediction: Seq<char>, near: Seq<bool>) -> Single {
        match self {
            AnyAdapter::SearchQA(a) => a.scored(item, prediction, near),
            AnyAdapter::LiveMath(a) => a.scored(item, prediction, near),
            AnyAdapter::DocVQA(a) => a.scored(item, prediction, near),
            AnyAdapter::OfficeQA(a) => a.scored(item, prediction, near),
            AnyAdapter::Spreadsheet(a) => a.scored(item, prediction, near),
            AnyAdapter::Alfworld(a) => a.scored(item, prediction, near),
            AnyAdapter::Codex(a) => a.scored(item, prediction, near),
        }
    }

    fn open_dialogue(&self, skill: &str, item: &TaskItem) -> (r: Dialogue) {
        match self {
            AnyAdapter::SearchQA(a) => a.open_dialogue(skill, item),
            AnyAdapter::LiveMath(a) => a.open_dialogue(skill, item),
            AnyAdapter::DocVQA(a) => a.open_dialogue(skill, item),
            AnyAdapter::OfficeQA(a) => a.open_dialogue(skill, item),
            AnyAdapter::Spreadsheet(a) => a.open_dialogue(skill, item),
            AnyAdapter::Alfworld(a) => a.open_dialogue(skill, item),
            AnyAdapter::Codex(a) => a.open_dialogue(skill, item),
        }
    }

    fn max_tokens(&self) -> (r: u32) {
        match self {
            AnyAdapter::SearchQA(a) => a.max_tokens(),
            AnyAdapter::LiveMath(a) => a.max_tokens(),
            AnyAdapter::DocVQA(a) => a.max_tokens(),
            AnyAdapter::OfficeQA(a) => a.max_tokens(),
            AnyAdapter::Spreadsheet(a) => a.max_tokens(),
            AnyAdapter::Alfworld(a) => a.max_tokens(),
            AnyAdapter::Codex(a) => a.max_tokens(),
        }
    }

    fn can_hear(&self, reply: &str) -> (r: bool) {
        match self {
            AnyAdapter::SearchQA(a) => a.can_hear(reply),
            AnyAdapter::LiveMath(a) => a.can_hear(reply),
            AnyAdapter::DocVQA(a) => a.can_hear(reply),
            AnyAdapter::OfficeQA(a) => a.can_hear(reply),
            AnyAdapter::Spreadsheet(a) => a.can_hear(reply),
            AnyAdapter::Alfworld(a) => a.can_hear(reply),
            AnyAdapter::Codex(a) => a.can_hear(reply),
        }
    }

    fn hear(&self, dialogue: Dialogue, reply: &str) -> (r: Turn) {
        match self {
            AnyAdapter::SearchQA(a) => a.hear(dialogue, reply),
            AnyAdapter::LiveMath(a) => a.hear(dialogue, reply),
            AnyAdapter::DocVQA(a) => a.hear(dialogue, reply),
            AnyAdapter::OfficeQA(a) => a.hear(dialogue, reply),
            AnyAdapter::Spreadsheet(a) => a.hear(dialogue, reply),
            AnyAdapter::Alfworld(a) => a.hear(dialogue, reply),
            AnyAdapter::Codex(a) => a.hear(dialogue, reply),
        }
    }

    fn score(&self, item: &TaskItem, prediction: &str, near: &[bool]) -> (r: Single) {
        match self {
            AnyAdapter::SearchQA(a) => a.score(item, prediction, near),
            AnyAdapter::LiveMath(a) => a.score(item, prediction, near),
            AnyAdapter::DocVQA(a) => a.score(item, prediction, near),
            AnyAdapter::OfficeQA(a) => a.score(item, prediction, near),
            AnyAdapter::Spreadsheet(a) => a.score(item, prediction, near),
            AnyAdapter::Alfworld(a) => a.score(item, prediction, near),
            AnyAdapter::Codex(a) => a.score(item, prediction, near),
        }
    }
}

/// `adapter` is the kind of tasks that goes by `name`.
pub open spec fn goes_by(adapter: AnyAdapter, name: Seq<char>) -> bool {
    match adapter {
        AnyAdapter::SearchQA(_) => name == "searchqa"@,
        AnyAdapter::LiveMath(_) => name == "livemath"@,
        AnyAdapter::DocVQA(_) => name == "docvqa"@,
        AnyAdapter::OfficeQA(_) => name == "officeqa"@,
        AnyAdapter::Spreadsheet(_) => name == "spreadsheet"@,
        AnyAdapter::Alfworld(_) => name == "alfworld"@,
        AnyAdapter::Codex(a) => {
            ||| name == "codex_searchqa"@ && a.inner_score_kind@ == "exact"@
            ||| name == "codex_livemath"@ && a.inner_score_kind@ == "numeric"@
        },
    }
}

/// A kind of tasks goes by `name`.
pub open spec fn is_adapter_name(name: Seq<char>) -> bool {
    ||| name == "searchqa"@
    ||| name == "livemath"@
    ||| name == "docvqa"@
    ||| name == "officeqa"@
    ||| name == "spreadsheet"@
    ||| name == "alfworld"@
    ||| name == "codex_searchqa"@
    ||| name == "codex_livemath"@
}

/// Whether a kind of tasks goes by `name`.
pub fn knows_adapter(name: &str) -> (r: bool)
    ensures
        r == is_adapter_name(name@),
{
    text::same_str(name, "searchqa") || text::same_str(name, "livemath") || text::same_str(
        name,
        "docvqa",
    ) || text::same_str(name, "officeqa") || text::same_str(name, "spreadsheet") || text::same_str(
        name,
        "alfworld",
    ) || text::same_str(name, "codex_searchqa") || text::same_str(name, "codex_livemath")
}

/// The kind of tasks that goes by `name`.
pub fn build_adapter(name: &str) -> (r: AnyAdapter)
    requires
        is_adapter_name(name@),
    ensures
        goes_by(r, name@),
{
    if text::same_str(name, "searchqa") {
        AnyAdapter::SearchQA(SearchQAAdapter)
    } else if text::same_str(name, "livemath") {
        AnyAdapter::LiveMath(LiveMathAdapter)
    } else if text::same_str(name, "docvqa") {
        AnyAdapter::DocVQA(DocVQAAdapter)
    } else if text::same_str(name, "officeqa") {
        AnyAdapter::OfficeQA(OfficeQAAdapter)
    } else if text::same_str(name, "spreadsheet") {
        AnyAdapter::Spreadsheet(SpreadsheetAdapter)
    } else if text::same_str(name, "alfworld") {
        AnyAdapter::Alfworld(AlfworldAdapter)
    } else if text::same_str(name, "codex_searchqa") {
        AnyAdapter::Codex(CodexHarnessAdapter { inner_score_kind: "exact".to_owned() })
    } else {
        AnyAdapter::Codex(CodexHarnessAdapter { inner_score_kind: "numeric".to_owned() })
    }
}

/// A copy of a list of messages.
fn copy_messages(v: &Vec<ChatMessage>) -> (r: Vec<ChatMessage>)
    ensures
        r@ == v@,
{
    let n: usize = v.len();
    let mut r: Vec<ChatMessage> = Vec::new();
    for i in 0..n
        invariant
            n == v.len(),
            r@ == v@.take(i as int),
    {
        r.push(v[i].clone());
        proof {
            assert(v@.take(i + 1) =~= v@.take(i as int).push(v@[i as int]));
        }
    }
    proof {
        assert(v@.take(n as int) =~= v@);
    }
    r
}

/// The request for the next reply, which the target model is asked for.
pub fn request<A: Adapter>(adapter: &A, dialogue: &Dialogue, temperature: Single) -> (r: ChatCall<
    'static,
>)
    ensures
        r.to_target,
        types::message_views(r.messages@) == dialogue@.messages,
        r.options.temperature == Some(temperature),
        r.options.max_tokens == Some(adapter.token_limit()),
        !r.options.json,
        r.options.reasoning_effort is None,
{
    ChatCall {
        to_target: true,
        messages: copy_messages(&dialogue.messages),
        options: ChatOptions {
            temperature: Some(temperature),
            max_tokens: Some(adapter.max_tokens()),
            json: false,
            reasoning_effort: None,
        },
    }
}

/// What is kept of a conversation that has come to its end, with the score of its answer.
pub fn conclude<A: Adapter>(adapter: &A, item: &TaskItem, dialogue: Dialogue, near: &[bool]) -> (r:
    Trajectory)
    ensures
        r@ == (TrajectoryView {
            item_id: item@.id,
            prediction: dialogue@.prediction,
            score: adapter.scored(item@, dialogue@.prediction, near@),
            messages: dialogue@.messages,
        }),
{
    let score = adapter.score(item, dialogue.prediction.as_str(), near);
    Trajectory {
        item_id: item.id.clone(),
        prediction: dialogue.prediction,
        score,
        messages: dialogue.messages,
    }
}

/// A mark for a client that can be copied.
pub struct OpenAIClientCloneable;

impl Clone for OpenAIClientCloneable {
    fn clone(&self) -> (r: Self)
        ensures
            r == *self,
    {
        OpenAIClientCloneable
    }
}

// ---------------------------------------------------------------------------------------------
// Laws
// ---------------------------------------------------------------------------------------------

/// Every score lies between 0 and 1.
pub proof fn law_scores_are_shares(
    adapter: AnyAdapter,
    item: TaskItemView,
    prediction: Seq<char>,
    near: Seq<bool>,
)
    requires
        scoring::can_be_held(scoring::spaced(scoring::lowercase(prediction))),
        scoring::can_be_held(
            scoring::spaced(scoring::lowercase(last_written(text::lines(prediction)))),
        ),
        forall|i: int|
            0 <= i < item.answers.len() ==> scoring::can_be_held(
                scoring::spaced(scoring::lowercase(#[trigger] item.answers[i])),
            ),
    ensures
        single::at_most(single::zero(), adapter.scored(item, prediction, near)),
        single::at_most(adapter.scored(item, prediction, near), single::one()),
{
    let half = Single { bits: single::HALF };
    scoring::law_similarity_is_a_share(prediction, item.answers, half);
    scoring::law_similarity_is_a_share(last_written(text::lines(prediction)), item.answers, half);
}

/// A reply takes back nothing that was said, is counted, and ends the conversation at the latest when
/// as many replies have come as the kind of tasks allows.
pub proof fn law_dialogues_grow_and_end(
    adapter: AnyAdapter,
    before: DialogueView,
    reply: Seq<char>,
    after: TurnView,
)
    requires
        adapter.heard(before, reply, after),
    ensures
        before.messages.is_prefix_of(after.dialogue.messages),
        after.dialogue.messages.len() <= before.messages.len() + 2,
        after.dialogue.replies == before.replies + 1,
        before.replies + 1 >= adapter.turn_limit() ==> after.done,
{
}

/// The answer that stands behind `FINAL:` on the last line of a reply is found, whatever stands on the
/// lines before, and also where there are none.
pub proof fn law_final_answers_are_found(before: Seq<char>, answer: Seq<char>)
    requires
        forall|i: int| 0 <= i < answer.len() ==> answer[i] != '\n',
    ensures
        final_in(text::lines(before + seq!['\n'] + "FINAL:"@ + answer)) == Some(text::trim(answer)),
        final_in(text::lines("FINAL:"@ + answer)) == Some(text::trim(answer)),
{
    reveal_strlit("FINAL:");
    let marker = "FINAL:"@;
    let line = marker + answer;
    assert(before + seq!['\n'] + marker + answer =~= before + seq!['\n'] + line);
    text::lemma_last_line(before, line);
    assert(line[0] == 'F');
    assert(text::trim_start(line) == line);
    text::lemma_trim_end_behind(marker, answer);
    let t = marker + text::trim_end(answer);
    assert(text::trim(line) == t);
    assert(t.subrange(0, marker.len() as int) =~= marker);
    assert(t.skip(marker.len() as int) =~= text::trim_end(answer));
    text::lemma_trim_of_trim_end(answer);
}

/// A reply that does not call the calculator ends a conversation with one, and where its last line
/// names a final answer, that is the answer.
pub proof fn law_final_line_is_the_answer(
    before: DialogueView,
    reply: Seq<char>,
    after: TurnView,
)
    requires
        worked_somehow(before, reply, after),
        calculator::called(reply) is None,
        text::lines(reply).len() > 0,
        final_on(text::lines(reply).last()) is Some,
    ensures
        after.done,
        Some(after.dialogue.prediction) == final_on(text::lines(reply).last()),
{
}

/// An agent in a small world that does not say it is done scores nothing.
pub proof fn law_unfinished_tasks_score_nothing(prediction: Seq<char>, golds: Seq<Seq<char>>)
    requires
        !text::contains_text(scoring::lowercase(prediction), "done"@),
    ensures
        world_score(prediction, golds) == single::zero(),
{
}

/// A reply whose lower case holds "action: done" or "action:done" ends the conversation of an agent in a
/// small world: it is the answer, and nothing is said behind it.
pub proof fn law_agents_that_are_done_end(
    before: DialogueView,
    reply: Seq<char>,
    a: Seq<char>,
    b: Seq<char>,
)
    requires
        scoring::lowercase(reply) == a + "action: done"@ + b || scoring::lowercase(reply) == a
            + "action:done"@ + b,
    ensures
        acted(before, reply).done,
        acted(before, reply).dialogue.messages == before.messages.push(
            ChatMessageView { role: "assistant"@, content: reply },
        ),
        acted(before, reply).dialogue.prediction == reply,
        acted(before, reply).dialogue.replies == before.replies + 1,
{
    text::law_parts_are_contained(a, "action: done"@, b);
    text::law_parts_are_contained(a, "action:done"@, b);
}

/// The lower case of a text of ASCII with "ACTION: done" in it holds "action: done".
proof fn lemma_lowered_action(reply: Seq<char>, p: Seq<char>, q: Seq<char>)
    requires
        reply == p + "ACTION: done"@ + q,
    ensures
        ({
            let f = |c: char| scoring::ascii_lower(c);
            reply.map_values(f) == p.map_values(f) + "action: done"@ + q.map_values(f)
        }),
{
    reveal_strlit("ACTION: done");
    reveal_strlit("action: done");
    let f = |c: char| scoring::ascii_lower(c);
    assert("ACTION: done"@.map_values(f) =~= "action: done"@);
    assert(reply.map_values(f) =~= p.map_values(f) + "ACTION: done"@.map_values(f) + q.map_values(f));
}

/// A reply in which "ACTION: done" stands, as agents are told to write it, ends the conversation, whatever
/// stands before it and behind it, where the letters of the reply go to lower case one by one as those of
/// ASCII do.
pub proof fn law_written_out_actions_end(
    before: DialogueView,
    reply: Seq<char>,
    p: Seq<char>,
    q: Seq<char>,
)
    requires
        reply == p + "ACTION: done"@ + q,
        scoring::lowercase(reply) == reply.map_values(|c: char| scoring::ascii_lower(c)),
    ensures
        acted(before, reply).done,
        acted(before, reply).dialogue.messages.len() == before.messages.len() + 1,
{
    let f = |c: char| scoring::ascii_lower(c);
    lemma_lowered_action(reply, p, q);
    law_agents_that_are_done_end(before, reply, p.map_values(f), q.map_values(f));
}

/// An agent in a small world that does not say it is done is told to go on, and the conversation ends only
/// with its sixth reply.
pub proof fn law_agents_that_are_not_done_go_on(before: DialogueView, reply: Seq<char>)
    requires
        forall|i: int|
            0 <= i && i + 12 <= scoring::lowercase(reply).len() ==> #[trigger] scoring::lowercase(
                reply,
            ).subrange(i, i + 12) != "action: done"@,
        forall|i: int|
            0 <= i && i + 11 <= scoring::lowercase(reply).len() ==> #[trigger] scoring::lowercase(
                reply,
            ).subrange(i, i + 11) != "action:done"@,
    ensures
        acted(before, reply).done == (before.replies + 1 >= 6),
        acted(before, reply).dialogue.messages == before.messages.push(
            ChatMessageView { role: "assistant"@, content: reply },
        ).push(ChatMessageView { role: "user"@, content: "OBSERVATION: ok. Continue."@ }),
        acted(before, reply).dialogue.prediction == reply,
        acted(before, reply).dialogue.replies == before.replies + 1,
{
    reveal_strlit("action: done");
    reveal_strlit("action:done");
    let s = scoring::lowercase(reply);
    text::law_search_finds_the_first(s, "action: done"@);
    text::law_search_finds_the_first(s, "action:done"@);
    if text::contains_text(s, "action: done"@) {
        let i = text::find_in(s, "action: done"@)->0;
        assert(s.subrange(i, i + 12) =~= "action: done"@);
    }
    if text::contains_text(s, "action:done"@) {
        let i = text::find_in(s, "action:done"@)->0;
        assert(s.subrange(i, i + 11) =~= "action:done"@);
    }
}

/// A conversation opens with two messages: the skill, between its marks, behind an introduction to the
/// kind of tasks, and then the question. What the question is about stands with it; kinds of tasks that may
/// do without a document show the question by itself where there is none.
pub proof fn law_conversations_open_with_skill_and_question(
    adapter: AnyAdapter,
    skill: Seq<char>,
    item: TaskItemView,
)
    ensures
        ({
            let m = adapter.opening(skill, item);
            let intro = match adapter {
                AnyAdapter::SearchQA(_) => SEARCHQA_INTRO@,
                AnyAdapter::LiveMath(_) => LIVEMATH_INTRO@,
                AnyAdapter::DocVQA(_) => DOCVQA_INTRO@,
                AnyAdapter::OfficeQA(_) => OFFICEQA_INTRO@,
                AnyAdapter::Spreadsheet(_) => SPREADSHEET_INTRO@,
                AnyAdapter::Alfworld(_) => ALFWORLD_INTRO@,
                AnyAdapter::Codex(_) => CODEX_INTRO@,
            };
            let both = "Question: "@ + item.question + "\n\n[DOC] "@ + item.context;
            &&& m.len() == 2
            &&& m[0].role == "system"@ && m[1].role == "user"@
            &&& m[0].content == intro + "\n\n---SKILL---\n"@ + skill + "\n---END SKILL---"@
            &&& adapter is SearchQA || adapter is Codex ==> m[1].content == both
            &&& adapter is LiveMath ==> m[1].content == item.question
            &&& adapter is Alfworld ==> m[1].content == "Task: "@ + item.question
                + "\nEnvironment: "@ + item.context
            &&& (adapter is DocVQA || adapter is OfficeQA || adapter is Spreadsheet)
                && item.context.len() > 0 ==> m[1].content == both
            &&& (adapter is DocVQA || adapter is OfficeQA || adapter is Spreadsheet)
                && item.context.len() == 0 ==> m[1].content == item.question
        }),
{
}

/// The kinds of tasks that take one reply end with it: nothing is added to what was said, and the answer is
/// the reply without the white space around it.
pub proof fn law_single_replies_are_the_answer(
    adapter: AnyAdapter,
    before: DialogueView,
    a: Seq<char>,
    s: Seq<char>,
    b: Seq<char>,
    after: TurnView,
)
    requires
        adapter is LiveMath || adapter is DocVQA || adapter is OfficeQA || adapter is Spreadsheet,
        forall|i: int| 0 <= i < a.len() ==> text::is_white(#[trigger] a[i]),
        forall|i: int| 0 <= i < b.len() ==> text::is_white(#[trigger] b[i]),
        s.len() > 0 ==> !text::is_white(s[0]) && !text::is_white(s.last()),
        adapter.heard(before, a + s + b, after),
    ensures
        after.done,
        after.dialogue.prediction == s,
        after.dialogue.messages == before.messages,
        after.dialogue.replies == before.replies + 1,
{
    text::law_trimming_takes_off_white_space(a, s, b);
}

/// A question about what a search found is answered by the first line of the reply that is not blank,
/// without the white space around it, whatever stands on the lines below.
pub proof fn law_first_lines_are_the_answer(
    adapter: AnyAdapter,
    before: DialogueView,
    a: Seq<char>,
    line: Seq<char>,
    rest: Seq<char>,
    after: TurnView,
)
    requires
        adapter is SearchQA,
        forall|i: int| 0 <= i < a.len() ==> text::is_white(#[trigger] a[i]),
        line.len() > 0,
        !text::is_white(line[0]) && !text::is_white(line.last()),
        forall|i: int| 0 <= i < line.len() ==> line[i] != '\n',
        rest.len() > 0 ==> rest[0] == '\n',
        adapter.heard(before, a + line + rest, after),
    ensures
        after.done,
        after.dialogue.prediction == line,
        after.dialogue.messages == before.messages,
        after.dialogue.replies == before.replies + 1,
{
    let none = Seq::<char>::empty();
    let reply = a + line + rest;
    assert(reply =~= a + (line + rest));
    text::lemma_trim_start_behind(a, line + rest);
    assert((line + rest)[0] == line[0]);
    assert(text::trim_start(line + rest) == line + rest);
    text::lemma_trim_end_behind(line, rest);
    let x = text::trim_end(rest);
    text::lemma_trim_end_is_prefix(rest);
    assert(text::trim(reply) == line + x);
    assert(line.last() != '\r');
    if x.len() == 0 {
        assert(line + x =~= line);
        text::law_lines_end_in_line_feeds(line, none);
        assert(text::lines(line)[0] == line);
    } else {
        assert(x[0] == rest[0]);
        let y = x.skip(1);
        assert(line + x =~= line + seq!['\n'] + y);
        text::law_lines_end_in_line_feeds(line, y);
        assert((seq![line] + text::lines(y))[0] == line);
    }
    text::law_trimming_takes_off_white_space(none, line, none);
    assert(none + line + none =~= line);
}

/// A line that begins with "FINAL:" or "Final:", with white space before it or not, names what stands
/// behind that, without the white space around it; no other line names a final answer.
pub proof fn law_final_lines_name_the_answer(a: Seq<char>, answer: Seq<char>, other: Seq<char>)
    requires
        forall|i: int| 0 <= i < a.len() ==> text::is_white(#[trigger] a[i]),
    ensures
        final_on(a + "FINAL:"@ + answer) == Some(text::trim(answer)),
        final_on(a + "Final:"@ + answer) == Some(text::trim(answer)),
        final_on(other) is Some ==> text::trim(other).len() >= 6 && (text::trim(other).take(6)
            == "FINAL:"@ || text::trim(other).take(6) == "Final:"@),
{
    reveal_strlit("FINAL:");
    reveal_strlit("Final:");
    lemma_final_on(a, "FINAL:"@, answer);
    lemma_final_on(a, "Final:"@, answer);
    assert("FINAL:"@[1] == 'I' && "Final:"@[1] == 'i');
    let t = text::trim(a + "Final:"@ + answer);
    if text::starts_with(t, "FINAL:"@) {
        assert(t.subrange(0, 6)[1] == t[1]);
        assert(t.subrange(0, 6) == "Final:"@);
    }
    let o = text::trim(other);
    if o.len() >= 6 {
        assert(o.subrange(0, 6) =~= o.take(6));
    }
}

/// What is left of a line with a marker when it is trimmed.
proof fn lemma_final_on(a: Seq<char>, marker: Seq<char>, answer: Seq<char>)
    requires
        forall|i: int| 0 <= i < a.len() ==> text::is_white(#[trigger] a[i]),
        marker.len() == 6,
        !text::is_white(marker[0]),
        !text::is_white(marker.last()),
    ensures
        ({
            let t = text::trim(a + marker + answer);
            &&& text::starts_with(t, marker)
            &&& t.subrange(0, 6) == marker
            &&& text::trim(t.skip(6)) == text::trim(answer)
        }),
{
    assert(a + marker + answer =~= a + (marker + answer));
    text::lemma_trim_start_behind(a, marker + answer);
    assert((marker + answer)[0] == marker[0]);
    assert(text::trim_start(marker + answer) == marker + answer);
    text::lemma_trim_end_behind(marker, answer);
    let t = marker + text::trim_end(answer);
    assert(t.subrange(0, 6) =~= marker);
    assert(t.skip(6) =~= text::trim_end(answer));
    text::lemma_trim_of_trim_end(answer);
}

/// The last line that names a final answer counts: a later one takes the place of those before it, and a
/// line that names none changes nothing.
pub proof fn law_the_last_final_answer_counts(lines: Seq<Seq<char>>, line: Seq<char>)
    ensures
        final_in(Seq::empty()) is None,
        final_on(line) is Some ==> final_in(lines.push(line)) == final_on(line),
        final_on(line) is None ==> final_in(lines.push(line)) == final_in(lines),
{
    assert(lines.push(line).drop_last() =~= lines);
}

/// A reply that calls the calculator is answered with the value, or with "ERR" where there is none; the
/// answer so far stays, and the conversation ends only with the fifth reply.
pub proof fn law_calculator_calls_are_answered(
    before: DialogueView,
    reply: Seq<char>,
    value: Option<CalcNumberView>,
)
    requires
        calculator::called(reply) is Some,
    ensures
        ({
            let after = worked(before, reply, value);
            let shown = if value is Some {
                value->0.text
            } else {
                "ERR"@
            };
            &&& after.done == (before.replies + 1 >= 5)
            &&& after.dialogue.messages == before.messages.push(
                ChatMessageView { role: "assistant"@, content: reply },
            ).push(
                ChatMessageView {
                    role: "user"@,
                    content: "<observation>"@ + shown + "</observation>"@,
                },
            )
            &&& after.dialogue.prediction == before.prediction
            &&& after.dialogue.replies == before.replies + 1
        }),
{
}

/// A reply that does not call the calculator ends the conversation: the final answer that it names is the
/// answer, or all of it where it names none.
pub proof fn law_replies_without_a_call_end(
    before: DialogueView,
    reply: Seq<char>,
    value: Option<CalcNumberView>,
)
    requires
        calculator::called(reply) is None,
    ensures
        ({
            let after = worked(before, reply, value);
            &&& after.done
            &&& after.dialogue.messages == before.messages.push(
                ChatMessageView { role: "assistant"@, content: reply },
            )
            &&& final_in(text::lines(reply)) matches Some(t) ==> after.dialogue.prediction == t
            &&& final_in(text::lines(reply)) is None ==> after.dialogue.prediction == reply
            &&& after.dialogue.replies == before.replies + 1
        }),
{
}

/// The last line that is not blank counts for an office: a later one takes the place of those before it,
/// and a blank one changes nothing.
pub proof fn law_the_last_written_line_counts(lines: Seq<Seq<char>>, line: Seq<char>)
    ensures
        last_written(Seq::empty()) == Seq::<char>::empty(),
        (exists|i: int| 0 <= i < line.len() && !text::is_white(#[trigger] line[i])) ==> last_written(
            lines.push(line),
        ) == line,
        (forall|i: int| 0 <= i < line.len() ==> text::is_white(#[trigger] line[i])) ==> last_written(
            lines.push(line),
        ) == last_written(lines),
{
    assert(lines.push(line).drop_last() =~= lines);
    if exists|i: int| 0 <= i < line.len() && !text::is_white(#[trigger] line[i]) {
        let i = choose|i: int| 0 <= i < line.len() && !text::is_white(#[trigger] line[i]);
        text::lemma_trim_keeps(line, i);
    } else {
        let none = Seq::<char>::empty();
        text::law_trimming_takes_off_white_space(line, none, none);
        assert(line + none + none =~= line);
    }
}

/// An answer scores 1 where it is compared as one of the right answers is, and 0 where it is compared as
/// none of them is.
pub proof fn law_exact_scores_are_one_or_zero(prediction: Seq<char>, golds: Seq<Seq<char>>, i: int)
    ensures
        0 <= i < golds.len() && scoring::normalized(golds[i]) == scoring::normalized(prediction)
            ==> exact_score(prediction, golds) == (Single { bits: 0x3f80_0000 }),
        (forall|k: int|
            0 <= k < golds.len() ==> scoring::normalized(#[trigger] golds[k]) != scoring::normalized(
                prediction,
            )) ==> exact_score(prediction, golds) == (Single { bits: 0 }),
{
}

/// An agent in a small world scores 1 where it says that it is done and says one of the right things, in
/// whatever case, and else 0.
pub proof fn law_finished_tasks_score_by_what_is_said(
    prediction: Seq<char>,
    golds: Seq<Seq<char>>,
    i: int,
)
    ensures
        0 <= i < golds.len() && text::contains_text(scoring::lowercase(prediction), "done"@)
            && text::contains_text(scoring::lowercase(prediction), scoring::lowercase(golds[i]))
            ==> world_score(prediction, golds) == (Single { bits: 0x3f80_0000 }),
        (forall|k: int|
            0 <= k < golds.len() ==> !text::contains_text(
                scoring::lowercase(prediction),
                scoring::lowercase(#[trigger] golds[k]),
            )) ==> world_score(prediction, golds) == (Single { bits: 0 }),
{
}

/// The score of an answer for an office is that of its last written line: 1 where that is one of the right
/// ones, else how similar it is to the most similar of them, from one half on.
pub proof fn law_office_scores_go_by_the_last_line(prediction: Seq<char>, golds: Seq<Seq<char>>)
    ensures
        ({
            let last = last_written(text::lines(prediction));
            let similar = scoring::anls_of(last, golds, Single { bits: 0x3f00_0000 });
            let score = office_score(prediction, golds);
            &&& scoring::is_right(last, golds) && single::less(similar, Single { bits: 0x3f80_0000 })
                ==> score == (Single { bits: 0x3f80_0000 })
            &&& !scoring::is_right(last, golds) && !single::less(similar, Single { bits: 0 })
                ==> score == similar
        }),
{
}

/// Which score an answer gets goes by the kind of tasks.
pub proof fn law_kinds_of_tasks_have_their_scores(
    adapter: AnyAdapter,
    item: TaskItemView,
    prediction: Seq<char>,
    near: Seq<bool>,
)
    ensures
        ({
            let score = adapter.scored(item, prediction, near);
            let by_nearness = numeric::numeric_score(near);
            &&& adapter is SearchQA ==> score == exact_score(prediction, item.answers)
            &&& adapter is LiveMath || adapter is Spreadsheet ==> score == by_nearness
            &&& adapter is DocVQA ==> score == scoring::anls_of(
                prediction,
                item.answers,
                Single { bits: 0x3f00_0000 },
            )
            &&& adapter is OfficeQA ==> score == office_score(prediction, item.answers)
            &&& adapter is Alfworld ==> score == world_score(prediction, item.answers)
            &&& adapter matches AnyAdapter::Codex(a) ==> score == (if a.inner_score_kind@
                == "numeric"@ {
                by_nearness
            } else {
                exact_score(prediction, item.answers)
            })
        }),
{
}

/// A kind of tasks goes by one name, those with a calculator by one for each way of scoring, and by no other.
pub proof fn law_kinds_go_by_their_names(a: AnyAdapter, name: Seq<char>)
    requires
        goes_by(a, name),
    ensures
        is_adapter_name(name),
        name == "searchqa"@ <==> a is SearchQA,
        name == "livemath"@ <==> a is LiveMath,
        name == "docvqa"@ <==> a is DocVQA,
        name == "officeqa"@ <==> a is OfficeQA,
        name == "spreadsheet"@ <==> a is Spreadsheet,
        name == "alfworld"@ <==> a is Alfworld,
        (name == "codex_searchqa"@ || name == "codex_livemath"@) <==> a is Codex,
        a matches AnyAdapter::Codex(c) ==> c.inner_score_kind@ == (if name == "codex_searchqa"@ {
            "exact"@
        } else {
            "numeric"@
        }),
{
    reveal_strlit("searchqa");
    reveal_strlit("livemath");
    reveal_strlit("docvqa");
    reveal_strlit("officeqa");
    reveal_strlit("spreadsheet");
    reveal_strlit("alfworld");
    reveal_strlit("codex_searchqa");
    reveal_strlit("codex_livemath");
    assert("searchqa"@.len() == 8 && "searchqa"@[0] == 's');
    assert("livemath"@.len() == 8 && "livemath"@[0] == 'l');
    assert("docvqa"@.len() == 6);
    assert("officeqa"@.len() == 8 && "officeqa"@[0] == 'o');
    assert("spreadsheet"@.len() == 11);
    assert("alfworld"@.len() == 8 && "alfworld"@[0] == 'a');
    assert("codex_searchqa"@.len() == 14 && "codex_searchqa"@[6] == 's');
    assert("codex_livemath"@.len() == 14 && "codex_livemath"@[6] == 'l');
}

/// How long a reply may be, and how many replies a conversation takes, goes by the kind of tasks.
pub proof fn law_kinds_have_their_limits(a: AnyAdapter)
    ensures
        a.token_limit() == (match a {
            AnyAdapter::SearchQA(_) => 200u32,
            AnyAdapter::LiveMath(_) => 800u32,
            AnyAdapter::DocVQA(_) => 200u32,
            AnyAdapter::OfficeQA(_) => 600u32,
            AnyAdapter::Spreadsheet(_) => 400u32,
            AnyAdapter::Alfworld(_) => 300u32,
            AnyAdapter::Codex(_) => 500u32,
        }),
        a.turn_limit() == (match a {
            AnyAdapter::Alfworld(_) => 6nat,
            AnyAdapter::Codex(_) => 5nat,
            _ => 1nat,
        }),
{
}

} // verus!
