//! The data that the optimizer works on.

use vstd::prelude::*;
use crate::single;
use crate::single::Single;
use crate::text;

verus! {

/// A question with the answers that count as right.
#[derive(Debug)]
pub struct TaskItem {
    pub id: String,
    pub question: String,
    pub context: String,
    pub answers: Vec<String>,
}

/// What a `TaskItem` says.
pub struct TaskItemView {
    pub id: Seq<char>,
    pub question: Seq<char>,
    pub context: Seq<char>,
    pub answers: Seq<Seq<char>>,
}

impl View for TaskItem {
    type V = TaskItemView;

    open spec fn view(&self) -> TaskItemView {
        TaskItemView {
            id: self.id@,
            question: self.question@,
            context: self.context@,
            answers: text::texts(self.answers@),
        }
    }
}

impl Clone for TaskItem {
    fn clone(&self) -> (r: Self)
        ensures
            r@ == self@,
    {
        TaskItem {
            id: self.id.clone(),
            question: self.question.clone(),
            context: self.context.clone(),
            answers: text::copy_strings(&self.answers),
        }
    }
}

/// What a sequence of items says.
pub open spec fn item_views(s: Seq<TaskItem>) -> Seq<TaskItemView> {
    s.map_values(|t: TaskItem| t@)
}

/// One message of a conversation with a model.
#[derive(Debug)]
pub struct ChatMessage {
    pub role: String,
    pub content: String,
}

/// What a `ChatMessage` says.
pub struct ChatMessageView {
    pub role: Seq<char>,
    pub content: Seq<char>,
}

impl View for ChatMessage {
    type V = ChatMessageView;

    open spec fn view(&self) -> ChatMessageView {
        ChatMessageView { role: self.role@, content: self.content@ }
    }
}

impl Clone for ChatMessage {
    fn clone(&self) -> (r: Self)
        ensures
            r == *self,
    {
        ChatMessage { role: self.role.clone(), content: self.content.clone() }
    }
}

/// What a sequence of messages says.
pub open spec fn message_views(s: Seq<ChatMessage>) -> Seq<ChatMessageView> {
    s.map_values(|m: ChatMessage| m@)
}

/// What the target model answered on one item, and how that was scored.
#[derive(Debug)]
pub struct Trajectory {
    pub item_id: String,
    pub prediction: String,
    pub score: Single,
    pub messages: Vec<ChatMessage>,
}

/// What a `Trajectory` says.
pub struct TrajectoryView {
    pub item_id: Seq<char>,
    pub prediction: Seq<char>,
    pub score: Single,
    pub messages: Seq<ChatMessageView>,
}

impl View for Trajectory {
    type V = TrajectoryView;

    open spec fn view(&self) -> TrajectoryView {
        TrajectoryView {
            item_id: self.item_id@,
            prediction: self.prediction@,
            score: self.score,
            messages: message_views(self.messages@),
        }
    }
}

/// What a sequence of trajectories says.
pub open spec fn trajectory_views(s: Seq<Trajectory>) -> Seq<TrajectoryView> {
    s.map_values(|t: Trajectory| t@)
}

/// What an edit does to the skill.
#[derive(Debug, Clone, Copy, PartialEq, Eq, Structural)]
pub enum EditOp {
    Add,
    Delete,
    Replace,
}

/// One proposed change of the skill. `support_count` says how many proposals it stands for.
#[derive(Debug)]
pub struct Edit {
    pub op: EditOp,
    pub anchor: String,
    pub content: String,
    pub rationale: String,
    pub utility: Single,
    pub source_type: String,
    pub support_count: u32,
}

/// What an `Edit` says.
pub struct EditView {
    pub op: EditOp,
    pub anchor: Seq<char>,
    pub content: Seq<char>,
    pub rationale: Seq<char>,
    pub utility: Single,
    pub source_type: Seq<char>,
    pub support_count: u32,
}

impl View for Edit {
    type V = EditView;

    open spec fn view(&self) -> EditView {
        EditView {
            op: self.op,
            anchor: self.anchor@,
            content: self.content@,
            rationale: self.rationale@,
            utility: self.utility,
            source_type: self.source_type@,
            support_count: self.support_count,
        }
    }
}

impl Clone for Edit {
    fn clone(&self) -> (r: Self)
        ensures
            r == *self,
    {
        Edit {
            op: self.op,
            anchor: self.anchor.clone(),
            content: self.content.clone(),
            rationale: self.rationale.clone(),
            utility: self.utility,
            source_type: self.source_type.clone(),
            support_count: self.support_count,
        }
    }
}

/// What a sequence of edits says.
pub open spec fn edit_views(s: Seq<Edit>) -> Seq<EditView> {
    s.map_values(|e: Edit| e@)
}

/// The utility of an edit whose proposal names none.
pub fn default_utility() -> (u: Single)
    ensures
        u == (Single { bits: single::HALF }),
{
    Single { bits: single::HALF }
}

/// The support of an edit whose proposal names none.
pub fn default_support() -> (n: u32)
    ensures
        n == 1,
{
    1
}

/// A patch that was refused at validation, with the score that it would have cost.
#[derive(Debug)]
pub struct RejectedEntry {
    pub edits: Vec<Edit>,
    pub score_drop: Single,
    pub rationale: String,
}

/// What a `RejectedEntry` says.
pub struct RejectedEntryView {
    pub edits: Seq<EditView>,
    pub score_drop: Single,
    pub rationale: Seq<char>,
}

impl View for RejectedEntry {
    type V = RejectedEntryView;

    open spec fn view(&self) -> RejectedEntryView {
        RejectedEntryView {
            edits: edit_views(self.edits@),
            score_drop: self.score_drop,
            rationale: self.rationale@,
        }
    }
}

/// What a sequence of refused patches says.
pub open spec fn rejected_views(s: Seq<RejectedEntry>) -> Seq<RejectedEntryView> {
    s.map_values(|r: RejectedEntry| r@)
}

/// What the optimizer remembers within one epoch.
#[derive(Debug)]
pub struct StepBuffer {
    pub failure_patterns: Vec<String>,
    pub rejected: Vec<RejectedEntry>,
}

/// What a `StepBuffer` says.
pub struct StepBufferView {
    pub failure_patterns: Seq<Seq<char>>,
    pub rejected: Seq<RejectedEntryView>,
}

impl View for StepBuffer {
    type V = StepBufferView;

    open spec fn view(&self) -> StepBufferView {
        StepBufferView {
            failure_patterns: text::texts(self.failure_patterns@),
            rejected: rejected_views(self.rejected@),
        }
    }
}

/// The buffer that remembers nothing.
pub open spec fn empty_buffer() -> StepBufferView {
    StepBufferView { failure_patterns: Seq::empty(), rejected: Seq::empty() }
}

impl Default for StepBuffer {
    fn default() -> (r: Self)
        ensures
            r@ == empty_buffer(),
    {
        let r = StepBuffer { failure_patterns: Vec::new(), rejected: Vec::new() };
        proof {
            assert(r@.failure_patterns =~= Seq::empty());
            assert(r@.rejected =~= Seq::empty());
        }
        r
    }
}

/// What validation decides about a candidate skill.
#[derive(Debug, Clone, Copy, PartialEq, Eq, Structural)]
pub enum GateDecision {
    AcceptNewBest,
    Accept,
    Reject,
}

/// What is kept of one optimization step.
#[derive(Debug)]
pub struct StepRecord {
    pub step: u32,
    pub epoch: u32,
    pub lr_budget: u32,
    pub train_score: Single,
    pub sel_score: Single,
    pub best_sel_score: Single,
    pub gate: GateDecision,
    pub n_proposed: u32,
    pub n_selected: u32,
    pub skill_hash: String,
}

/// What a `StepRecord` says.
pub struct StepRecordView {
    pub step: u32,
    pub epoch: u32,
    pub lr_budget: u32,
    pub train_score: Single,
    pub sel_score: Single,
    pub best_sel_score: Single,
    pub gate: GateDecision,
    pub n_proposed: u32,
    pub n_selected: u32,
    pub skill_hash: Seq<char>,
}

impl View for StepRecord {
    type V = StepRecordView;

    open spec fn view(&self) -> StepRecordView {
        StepRecordView {
            step: self.step,
            epoch: self.epoch,
            lr_budget: self.lr_budget,
            train_score: self.train_score,
            sel_score: self.sel_score,
            best_sel_score: self.best_sel_score,
            gate: self.gate,
            n_proposed: self.n_proposed,
            n_selected: self.n_selected,
            skill_hash: self.skill_hash@,
        }
    }
}

/// What a sequence of records says.
pub open spec fn record_views(s: Seq<StepRecord>) -> Seq<StepRecordView> {
    s.map_values(|r: StepRecord| r@)
}

impl Clone for StepRecord {
    fn clone(&self) -> (r: Self)
        ensures
            r == *self,
    {
        StepRecord {
            step: self.step,
            epoch: self.epoch,
            lr_budget: self.lr_budget,
            train_score: self.train_score,
            sel_score: self.sel_score,
            best_sel_score: self.best_sel_score,
            gate: self.gate,
            n_proposed: self.n_proposed,
            n_selected: self.n_selected,
            skill_hash: self.skill_hash.clone(),
        }
    }
}

/// Where a run stands.
#[derive(Debug)]
pub struct RuntimeState {
    pub step: u32,
    pub epoch: u32,
    pub current_score: Single,
    pub best_score: Single,
    pub current_skill_path: String,
    pub best_skill_path: String,
}

impl Default for RuntimeState {
    fn default() -> (r: Self)
        ensures
            r.step == 0,
            r.epoch == 0,
            r.current_score == single::zero(),
            r.best_score == single::zero(),
            r.current_skill_path@ == Seq::<char>::empty(),
            r.best_skill_path@ == Seq::<char>::empty(),
    {
        RuntimeState {
            step: 0,
            epoch: 0,
            current_score: Single { bits: 0 },
            best_score: Single { bits: 0 },
            current_skill_path: String::new(),
            best_skill_path: String::new(),
        }
    }
}

} // verus!
