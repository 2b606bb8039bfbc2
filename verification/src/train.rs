//! A training run: what it does next, what it proposes, and what it makes of a validated proposal.

use vstd::prelude::*;
use vstd::arithmetic::power2::pow2;
use crate::artifacts;
use crate::config::Config;
use crate::data;
use crate::gate;
use crate::gate::GateInput;
use crate::gradient;
use crate::memory;
use crate::merge;
use crate::numbers;
use crate::patch;
use crate::rank;
use crate::scheduler;
use crate::scheduler::LrSchedule;
use crate::scoring;
use crate::single;
use crate::single::Single;
use crate::single_laws;
use crate::text;
use crate::types;
use crate::types::{Edit, EditView, GateDecision, RejectedEntryView, RuntimeState, StepBuffer};
use crate::types::{StepBufferView, StepRecord, StepRecordView, TaskItem, Trajectory, TrajectoryView};

verus! {

// ---------------------------------------------------------------------------------------------
// The plan of a run
// ---------------------------------------------------------------------------------------------

/// What a run sets out to do.
pub struct Plan {
    pub num_epochs: u32,
    pub steps_per_epoch: u32,
    pub total_steps: u32,
    pub schedule: LrSchedule,
    pub learning_rate: u32,
    pub use_rejected_buffer: bool,
    pub use_slow_update: bool,
    pub use_meta_skill: bool,
}

/// The number of steps that it takes to go through `size` items, `batch` at a time, as single precision
/// counts them. Batches of nothing never come to the end of something.
pub open spec fn steps_to_cover(size: nat, batch: nat) -> nat {
    let q = single::quotient(single::counted(size), single::counted(batch));
    if q.is_nan() {
        0
    } else if q.is_infinite() {
        u32::MAX as nat
    } else if single::raised_whole(q) < u32::MAX {
        single::raised_whole(q)
    } else {
        u32::MAX as nat
    }
}

/// At least one.
pub open spec fn at_least_one(n: nat) -> nat {
    if n < 1 {
        1
    } else {
        n
    }
}

/// The steps of an epoch, as the configuration has them.
pub open spec fn epoch_steps(cfg: Config) -> nat {
    steps_to_cover(
        cfg.train.train_size as nat,
        (cfg.train.batch_size * cfg.train.accumulation) as nat,
    )
}

/// The counts of the run can be held: the size of a step, the number of steps and of epochs.
pub open spec fn can_be_planned(cfg: Config) -> bool {
    &&& cfg.train.batch_size * cfg.train.accumulation <= usize::MAX
    &&& cfg.train.num_epochs < u32::MAX
    &&& cfg.train.num_epochs * at_least_one(epoch_steps(cfg)) <= u32::MAX
}

/// The steps of an epoch.
fn count_steps(size: usize, batch: usize) -> (r: u32)
    ensures
        r == steps_to_cover(size as nat, batch as nat),
{
    let q = Single::count(size as u64).over(Single::count(batch as u64));
    if q.stands_for_none() {
        return 0;
    }
    if q.at() >= single::INFINITY {
        return u32::MAX;
    }
    let steps: u128 = q.raised();
    if steps < u32::MAX as u128 {
        steps as u32
    } else {
        u32::MAX
    }
}

/// Whether the counts of the run can be held.
pub fn is_plannable(cfg: &Config) -> (r: bool)
    ensures
        r == can_be_planned(*cfg),
{
    proof {
        assert(0 <= cfg.train.batch_size * cfg.train.accumulation <= 0xffff_ffff_ffff_ffff
            * 0xffff_ffff_ffff_ffff) by (nonlinear_arith)
            requires
                0 <= cfg.train.batch_size <= 0xffff_ffff_ffff_ffff,
                0 <= cfg.train.accumulation <= 0xffff_ffff_ffff_ffff,
        ;
    }
    let batch: u128 = cfg.train.batch_size as u128 * cfg.train.accumulation as u128;
    if batch > usize::MAX as u128 || cfg.train.num_epochs == u32::MAX {
        return false;
    }
    let steps: u32 = count_steps(cfg.train.train_size, batch as usize);
    let at_least: u64 = if steps < 1 {
        1
    } else {
        steps as u64
    };
    proof {
        assert(0 <= cfg.train.num_epochs * at_least <= 0xffff_ffff * 0xffff_ffff)
            by (nonlinear_arith)
            requires
                0 <= cfg.train.num_epochs <= 0xffff_ffff,
                0 <= at_least <= 0xffff_ffff,
        ;
    }
    cfg.train.num_epochs as u64 * at_least <= u32::MAX as u64
}

/// What a configuration sets out to do.
pub fn plan(cfg: &Config) -> (r: Plan)
    requires
        can_be_planned(*cfg),
    ensures
        r.num_epochs == cfg.train.num_epochs,
        r.steps_per_epoch == epoch_steps(*cfg),
        r.total_steps == cfg.train.num_epochs * at_least_one(epoch_steps(*cfg)),
        r.schedule == scheduler::schedule_named(cfg.optimizer.lr_schedule@),
        r.learning_rate == cfg.optimizer.learning_rate,
        r.use_rejected_buffer == cfg.optimizer.use_rejected_buffer,
        r.use_slow_update == cfg.optimizer.use_slow_update,
        r.use_meta_skill == cfg.optimizer.use_meta_skill,
{
    let batch: usize = cfg.train.batch_size * cfg.train.accumulation;
    let steps_per_epoch: u32 = count_steps(cfg.train.train_size, batch);
    let at_least: u32 = if steps_per_epoch < 1 {
        1
    } else {
        steps_per_epoch
    };
    Plan {
        num_epochs: cfg.train.num_epochs,
        steps_per_epoch,
        total_steps: cfg.train.num_epochs * at_least,
        schedule: LrSchedule::from_str(cfg.optimizer.lr_schedule.as_str()),
        learning_rate: cfg.optimizer.learning_rate,
        use_rejected_buffer: cfg.optimizer.use_rejected_buffer,
        use_slow_update: cfg.optimizer.use_slow_update,
        use_meta_skill: cfg.optimizer.use_meta_skill,
    }
}

/// The steps of an epoch go through all items, and one step fewer would not, where single precision
/// holds the number of items as it is.
pub proof fn law_epochs_cover_the_items(size: nat, batch: nat)
    requires
        size <= 0x100_0000,
        0 < batch <= 0xffff_ffff_ffff_ffff,
    ensures
        steps_to_cover(size, batch) * batch >= size,
        size > 0 ==> (steps_to_cover(size, batch) - 1) * batch < size,
{
    single_laws::lemma_raised_quotient(size, batch);
}

// ---------------------------------------------------------------------------------------------
// The state of a run
// ---------------------------------------------------------------------------------------------

/// Where a run stands. `epoch` is the one that it is in, counted from 1; `step` is how many steps it has
/// done; `previous_skill` is the skill at the end of the epoch before.
#[derive(Debug)]
pub struct Run {
    pub skill: String,
    pub best_skill: String,
    pub previous_skill: String,
    pub current_score: Single,
    pub best_score: Single,
    pub epoch: u32,
    pub step: u32,
    pub buffer: StepBuffer,
    pub history: Vec<StepRecord>,
}

/// What a `Run` says.
pub struct RunView {
    pub skill: Seq<char>,
    pub best_skill: Seq<char>,
    pub previous_skill: Seq<char>,
    pub current_score: Single,
    pub best_score: Single,
    pub epoch: u32,
    pub step: u32,
    pub buffer: StepBufferView,
    pub history: Seq<StepRecordView>,
}

impl View for Run {
    type V = RunView;

    open spec fn view(&self) -> RunView {
        RunView {
            skill: self.skill@,
            best_skill: self.best_skill@,
            previous_skill: self.previous_skill@,
            current_score: self.current_score,
            best_score: self.best_score,
            epoch: self.epoch,
            step: self.step,
            buffer: self.buffer@,
            history: types::record_views(self.history@),
        }
    }
}

/// The scores of trajectories.
pub open spec fn scores(s: Seq<TrajectoryView>) -> Seq<Single> {
    s.map_values(|t: TrajectoryView| t.score)
}

/// The mean score of trajectories.
pub fn mean_score(trajectories: &[Trajectory]) -> (r: Single)
    ensures
        r == scoring::mean_of(scores(types::trajectory_views(trajectories@))),
{
    let n: usize = trajectories.len();
    let ghost all = scores(types::trajectory_views(trajectories@));
    let mut xs: Vec<Single> = Vec::new();
    for i in 0..n
        invariant
            n == trajectories@.len(),
            all == scores(types::trajectory_views(trajectories@)),
            xs@ == all.take(i as int),
    {
        xs.push(trajectories[i].score);
        proof {
            assert(all.take(i + 1) =~= all.take(i as int).push(all[i as int]));
        }
    }
    proof {
        assert(all.take(n as int) =~= all);
    }
    scoring::mean(xs.as_slice())
}

/// A run before its first step, with the score of the skill that it starts from.
pub open spec fn started(skill: Seq<char>, baseline: Single) -> RunView {
    RunView {
        skill,
        best_skill: skill,
        previous_skill: skill,
        current_score: baseline,
        best_score: baseline,
        epoch: 1,
        step: 0,
        buffer: types::empty_buffer(),
        history: Seq::empty(),
    }
}

impl Run {
    /// A run before its first step.
    pub fn start(skill: String, baseline: Single) -> (r: Run)
        ensures
            r@ == started(skill@, baseline),
    {
        let r = Run {
            best_skill: skill.clone(),
            previous_skill: skill.clone(),
            skill,
            current_score: baseline,
            best_score: baseline,
            epoch: 1,
            step: 0,
            buffer: StepBuffer::default(),
            history: Vec::new(),
        };
        proof {
            assert(r@.history =~= Seq::empty());
        }
        r
    }
}

// ---------------------------------------------------------------------------------------------
// What comes next
// ---------------------------------------------------------------------------------------------

/// What a run does next.
#[derive(Debug, Clone, Copy, PartialEq, Eq, Structural)]
pub enum Action {
    /// A step, on the batch that `seed` draws.
    Step { seed: u64 },
    /// The end of an epoch, with a slow update and a memo or without.
    EndEpoch { slow_update: bool, memo: bool },
    /// Nothing: the run is over.
    Finish,
}

/// The steps that were done before the epoch that a run is in.
pub open spec fn steps_before(epoch: u32, plan: Plan) -> int {
    (epoch - 1) * plan.steps_per_epoch
}

/// The run has kept to the plan: it has done all steps of the epochs before the one that it is in, and
/// no more than those of that one.
pub open spec fn on_plan(run: RunView, plan: Plan) -> bool {
    &&& 1 <= run.epoch <= plan.num_epochs + 1
    &&& steps_before(run.epoch, plan) <= run.step <= steps_before(run.epoch, plan)
        + plan.steps_per_epoch
    &&& run.epoch > plan.num_epochs ==> run.step == steps_before(run.epoch, plan)
}

/// The plan counts its steps without overflow.
pub open spec fn is_sound(plan: Plan) -> bool {
    &&& plan.num_epochs < u32::MAX
    &&& plan.num_epochs * plan.steps_per_epoch <= u32::MAX
}

/// What a run does next: the steps of an epoch, then its end; after the last epoch it is over.
pub open spec fn next(run: RunView, plan: Plan) -> Action {
    if run.epoch > plan.num_epochs {
        Action::Finish
    } else if run.step - steps_before(run.epoch, plan) < plan.steps_per_epoch {
        Action::Step { seed: (run.epoch * 1000 + (run.step - steps_before(run.epoch, plan))) as u64 }
    } else {
        Action::EndEpoch {
            slow_update: plan.use_slow_update && run.epoch >= 2,
            memo: plan.use_meta_skill && run.epoch >= 2,
        }
    }
}

impl Run {
    /// What a run does next.
    pub fn next_action(&self, plan: &Plan) -> (r: Action)
        requires
            is_sound(*plan),
            on_plan(self@, *plan),
        ensures
            r == next(self@, *plan),
    {
        if self.epoch > plan.num_epochs {
            return Action::Finish;
        }
        proof {
            assert(0 <= steps_before(self.epoch, *plan) <= plan.num_epochs * plan.steps_per_epoch)
                by (nonlinear_arith)
                requires
                    1 <= self.epoch <= plan.num_epochs,
                    0 <= plan.steps_per_epoch,
                    steps_before(self.epoch, *plan) == (self.epoch - 1) * plan.steps_per_epoch,
            ;
        }
        let before: u32 = (self.epoch - 1) * plan.steps_per_epoch;
        let done: u32 = self.step - before;
        if done < plan.steps_per_epoch {
            Action::Step { seed: self.epoch as u64 * 1000 + done as u64 }
        } else {
            Action::EndEpoch {
                slow_update: plan.use_slow_update && self.epoch >= 2,
                memo: plan.use_meta_skill && self.epoch >= 2,
            }
        }
    }
}

/// The plan that a configuration sets out is sound, and a run that starts keeps to it.
pub proof fn law_runs_start_on_plan(cfg: Config, plan: Plan, skill: Seq<char>, baseline: Single)
    requires
        can_be_planned(cfg),
        plan.num_epochs == cfg.train.num_epochs,
        plan.steps_per_epoch == epoch_steps(cfg),
    ensures
        is_sound(plan),
        on_plan(started(skill, baseline), plan),
{
    let (e, s) = (cfg.train.num_epochs as int, epoch_steps(cfg) as int);
    assert(e * s <= e * at_least_one(s as nat)) by (nonlinear_arith)
        requires
            0 <= e,
            0 <= s <= at_least_one(s as nat),
    ;
    assert(steps_before(1, plan) == 0) by (nonlinear_arith)
        requires
            steps_before(1, plan) == (1 - 1) * plan.steps_per_epoch,
    ;
}

/// Different steps of a run draw their batches with different seeds, as long as an epoch has no more
/// than a thousand steps.
pub proof fn law_steps_have_their_own_seeds(a: RunView, b: RunView, plan: Plan)
    requires
        on_plan(a, plan),
        on_plan(b, plan),
        plan.steps_per_epoch <= 1000,
        next(a, plan) is Step,
        next(b, plan) is Step,
        next(a, plan) == next(b, plan),
    ensures
        a.epoch == b.epoch,
        a.step == b.step,
{
    let (i, j) = (a.step - steps_before(a.epoch, plan), b.step - steps_before(b.epoch, plan));
    assert(0 <= i < 1000 && 0 <= j < 1000);
    assert((a.epoch * 1000 + i) as u64 == a.epoch * 1000 + i);
    assert((b.epoch * 1000 + j) as u64 == b.epoch * 1000 + j);
    assert(a.epoch * 1000 + i == b.epoch * 1000 + j);
    assert(a.epoch == b.epoch);
    assert(i == j);
}

// ---------------------------------------------------------------------------------------------
// Within a step: sorting and grouping trajectories
// ---------------------------------------------------------------------------------------------

/// A trajectory counts as a success where its score is above one half.
pub open spec fn succeeded() -> spec_fn(TrajectoryView) -> bool {
    |t: TrajectoryView| single::less(Single { bits: single::HALF }, t.score)
}

/// A trajectory that is no success is a failure.
pub open spec fn failed() -> spec_fn(TrajectoryView) -> bool {
    |t: TrajectoryView| !succeeded()(t)
}

/// The successes and the failures, each in the order in which they came.
pub fn partition(trajectories: Vec<Trajectory>) -> (r: (Vec<Trajectory>, Vec<Trajectory>))
    ensures
        types::trajectory_views(r.0@) == types::trajectory_views(trajectories@).filter(succeeded()),
        types::trajectory_views(r.1@) == types::trajectory_views(trajectories@).filter(failed()),
{
    let ghost all = types::trajectory_views(trajectories@);
    let mut successes: Vec<Trajectory> = Vec::new();
    let mut failures: Vec<Trajectory> = Vec::new();
    proof {
        assert(all.take(0) =~= Seq::empty());
        reveal(Seq::filter);
        assert(types::trajectory_views(successes@) =~= all.take(0).filter(succeeded()));
        assert(types::trajectory_views(failures@) =~= all.take(0).filter(failed()));
    }
    for t in it: trajectories.into_iter()
        invariant
            it.seq() == trajectories@,
            all == types::trajectory_views(trajectories@),
            types::trajectory_views(successes@) == all.take(it.index() as int).filter(succeeded()),
            types::trajectory_views(failures@) == all.take(it.index() as int).filter(failed()),
    {
        let ghost k = it.index() as int;
        let ghost (s0, f0) = (successes@, failures@);
        proof {
            assert(all[k] == t@);
            assert(all.take(k + 1) =~= all.take(k).push(t@));
            all.take(k).lemma_filter_push(t@, succeeded());
            all.take(k).lemma_filter_push(t@, failed());
        }
        if (Single { bits: single::HALF }).is_less(t.score) {
            successes.push(t);
            proof {
                assert(types::trajectory_views(successes@) =~= types::trajectory_views(s0).push(
                    t@,
                ));
            }
        } else {
            failures.push(t);
            proof {
                assert(types::trajectory_views(failures@) =~= types::trajectory_views(f0).push(t@));
            }
        }
    }
    proof {
        assert(all.take(all.len() as int) =~= all);
    }
    (successes, failures)
}

/// The seed that the pool of a run is drawn with.
pub const POOL_SEED: u64 = 42;

/// The seed that the items are drawn with which the skills of two epochs are compared on.
pub const PAIR_SEED: u64 = 7;

/// The items that a run learns from.
pub fn draw_pool(items: &[TaskItem], cfg: &Config) -> (r: Vec<TaskItem>)
    ensures
        types::item_views(r@) == data::sampled(
            types::item_views(items@),
            cfg.train.train_size as nat,
            POOL_SEED,
        ),
{
    data::sample_batch(items, cfg.train.train_size, POOL_SEED)
}

/// The items of a step, with the seed that it comes with.
pub fn draw_batch(pool: &[TaskItem], cfg: &Config, seed: u64) -> (r: Vec<TaskItem>)
    ensures
        types::item_views(r@) == data::sampled(
            types::item_views(pool@),
            cfg.train.batch_size as nat,
            seed,
        ),
{
    data::sample_batch(pool, cfg.train.batch_size, seed)
}

/// The items that the skills of two epochs are compared on.
pub fn draw_pairs(pool: &[TaskItem], cfg: &Config) -> (r: Vec<TaskItem>)
    ensures
        types::item_views(r@) == data::sampled(
            types::item_views(pool@),
            cfg.gradient.merge_batch_size as nat,
            PAIR_SEED,
        ),
{
    data::sample_batch(pool, cfg.gradient.merge_batch_size, PAIR_SEED)
}

/// Where a piece of a list begins and where it ends.
#[derive(Debug, Clone, Copy, PartialEq, Eq, Structural)]
pub struct Piece {
    pub from: usize,
    pub to: usize,
}

/// The pieces of a list from `from` on: `size` elements each, and what is left in the last.
pub open spec fn pieces_from(len: int, size: int, from: int) -> Seq<(int, int)>
    decreases len - from,
{
    if from >= len || size <= 0 {
        Seq::empty()
    } else {
        let to = if from + size < len {
            from + size
        } else {
            len
        };
        seq![(from, to)] + pieces_from(len, size, to)
    }
}

/// The pieces of a list.
pub open spec fn piece_views(s: Seq<Piece>) -> Seq<(int, int)> {
    s.map_values(|p: Piece| (p.from as int, p.to as int))
}

/// The pieces of a list of `len` elements: `size` elements each, and what is left in the last.
pub fn minibatches(len: usize, size: usize) -> (r: Vec<Piece>)
    requires
        size > 0,
    ensures
        piece_views(r@) == pieces_from(len as int, size as int, 0),
        forall|i: int| 0 <= i < r@.len() ==> (#[trigger] r@[i]).from < r@[i].to <= len,
{
    let ghost all = pieces_from(len as int, size as int, 0);
    let mut r: Vec<Piece> = Vec::new();
    let mut from: usize = 0;
    proof {
        assert(piece_views(r@) + all =~= all);
    }
    while from < len
        invariant
            size > 0,
            from <= len,
            all == pieces_from(len as int, size as int, 0),
            piece_views(r@) + pieces_from(len as int, size as int, from as int) == all,
            forall|i: int| 0 <= i < r@.len() ==> (#[trigger] r@[i]).from < r@[i].to <= len,
        decreases len - from,
    {
        let to: usize = if size < len - from {
            from + size
        } else {
            len
        };
        let ghost before = piece_views(r@);
        r.push(Piece { from, to });
        proof {
            assert(piece_views(r@) =~= before.push((from as int, to as int)));
            assert(piece_views(r@) + pieces_from(len as int, size as int, to as int) =~= before + (
            seq![(from as int, to as int)] + pieces_from(len as int, size as int, to as int)));
        }
        from = to;
    }
    proof {
        assert(piece_views(r@) + Seq::empty() =~= piece_views(r@));
    }
    r
}

/// Pieces stand side by side from the first element to the last, none is empty or too large, and only
/// the last may be smaller than the others.
pub proof fn law_pieces_cover_the_list(len: int, size: int, from: int, i: int)
    requires
        size > 0,
        0 <= from <= len,
        0 <= i < pieces_from(len, size, from).len(),
    ensures
        pieces_from(len, size, from)[0].0 == from,
        pieces_from(len, size, from).last().1 == len,
        0 < pieces_from(len, size, from)[i].1 - pieces_from(len, size, from)[i].0 <= size,
        i + 1 < pieces_from(len, size, from).len() ==> {
            &&& pieces_from(len, size, from)[i].1 == pieces_from(len, size, from)[i + 1].0
            &&& pieces_from(len, size, from)[i].1 - pieces_from(len, size, from)[i].0 == size
        },
    decreases len - from,
{
    let p = pieces_from(len, size, from);
    let to = if from + size < len {
        from + size
    } else {
        len
    };
    let rest = pieces_from(len, size, to);
    assert(p =~= seq![(from, to)] + rest);
    if rest.len() > 0 {
        law_pieces_cover_the_list(len, size, to, if i > 0 {
            i - 1
        } else {
            0
        });
        assert(p.last() == rest.last());
        if i > 0 {
            assert(p[i] == rest[i - 1]);
            if i + 1 < p.len() {
                assert(p[i + 1] == rest[i]);
            }
        } else {
            assert(p[1] == rest[0]);
            assert(to < len);
        }
    } else {
        assert(to == len) by {
            if to < len {
                assert(pieces_from(len, size, to).len() > 0);
            }
        }
        assert(p.last() == (from, to));
    }
}

/// The failure patterns that are known after hearing of `more`: each new one comes last.
pub open spec fn with_patterns(known: Seq<Seq<char>>, more: Seq<Seq<char>>) -> Seq<Seq<char>>
    decreases more.len(),
{
    if more.len() == 0 {
        known
    } else {
        let before = with_patterns(known, more.drop_last());
        if before.contains(more.last()) {
            before
        } else {
            before.push(more.last())
        }
    }
}

/// What is known afterwards: all that was known and all that was heard, and nothing else.
proof fn lemma_with_patterns(known: Seq<Seq<char>>, more: Seq<Seq<char>>)
    ensures
        ({
            let after = with_patterns(known, more);
            &&& known.is_prefix_of(after)
            &&& forall|i: int| 0 <= i < more.len() ==> after.contains(#[trigger] more[i])
            &&& forall|i: int| known.len() <= i < after.len() ==> more.contains(#[trigger] after[i])
        }),
    decreases more.len(),
{
    if more.len() > 0 {
        let rest = more.drop_last();
        lemma_with_patterns(known, rest);
        let before = with_patterns(known, rest);
        let after = with_patterns(known, more);
        assert forall|i: int| 0 <= i < more.len() implies after.contains(#[trigger] more[i]) by {
            if i < rest.len() {
                assert(rest[i] == more[i]);
                let k = choose|k: int| 0 <= k < before.len() && before[k] == more[i];
                assert(after[k] == more[i]);
            } else if !before.contains(more.last()) {
                assert(after[before.len() as int] == more[i]);
            }
        }
        assert forall|i: int| known.len() <= i < after.len() implies more.contains(#[trigger] after[i]) by {
            if i < before.len() {
                assert(after[i] == before[i]);
                let k = choose|k: int| 0 <= k < rest.len() && rest[k] == before[i];
                assert(more[k] == after[i]);
            } else {
                assert(more[more.len() - 1] == after[i]);
            }
        }
    }
}

/// Whether `p` is among the known patterns.
fn is_known(known: &Vec<String>, p: &str) -> (r: bool)
    ensures
        r == text::texts(known@).contains(p@),
{
    let n: usize = known.len();
    for i in 0..n
        invariant
            n == known.len(),
            forall|k: int| 0 <= k < i ==> (#[trigger] known@[k])@ != p@,
    {
        if text::same_str(known[i].as_str(), p) {
            proof {
                assert(text::texts(known@)[i as int] == p@);
            }
            return true;
        }
    }
    proof {
        assert forall|k: int| 0 <= k < text::texts(known@).len() implies #[trigger] text::texts(
            known@,
        )[k] != p@ by {
            assert(text::texts(known@)[k] == known@[k]@);
        }
    }
    false
}

/// Remembers the failure patterns that are not known yet.
pub fn note_patterns(buffer: &mut StepBuffer, patterns: Vec<String>)
    ensures
        final(buffer)@ == (StepBufferView {
            failure_patterns: with_patterns(
                old(buffer)@.failure_patterns,
                text::texts(patterns@),
            ),
            rejected: old(buffer)@.rejected,
        }),
        forall|i: int|
            0 <= i < patterns@.len() ==> final(buffer)@.failure_patterns.contains(
                (#[trigger] patterns@[i])@,
            ),
        old(buffer)@.failure_patterns.is_prefix_of(final(buffer)@.failure_patterns),
        forall|i: int|
            old(buffer)@.failure_patterns.len() <= i < final(buffer)@.failure_patterns.len()
                ==> text::texts(patterns@).contains(#[trigger] final(buffer)@.failure_patterns[i]),
{
    let ghost known = buffer@.failure_patterns;
    let ghost rejected = buffer@.rejected;
    let ghost all = text::texts(patterns@);
    proof {
        assert(all.take(0) =~= Seq::empty());
    }
    for p in it: patterns.into_iter()
        invariant
            it.seq() == patterns@,
            all == text::texts(patterns@),
            buffer@.failure_patterns == with_patterns(known, all.take(it.index() as int)),
            buffer@.rejected == rejected,
    {
        let ghost k = it.index() as int;
        let ghost before = buffer@.failure_patterns;
        proof {
            assert(all[k] == p@);
            assert(all.take(k + 1).drop_last() =~= all.take(k));
            assert(all.take(k + 1).last() == p@);
        }
        if !is_known(&buffer.failure_patterns, p.as_str()) {
            buffer.failure_patterns.push(p);
            proof {
                assert(buffer@.failure_patterns =~= before.push(p@));
            }
        }
    }
    proof {
        assert(all.take(all.len() as int) =~= all);
        lemma_with_patterns(known, all);
        assert forall|i: int| 0 <= i < patterns@.len() implies buffer@.failure_patterns.contains(
            (#[trigger] patterns@[i])@,
        ) by {
            assert(all[i] == patterns@[i]@);
        }
    }
}

/// A minibatch to reflect on: a piece of the failures, or of the successes.
#[derive(Debug, Clone, Copy, PartialEq, Eq, Structural)]
pub struct Round {
    pub failure: bool,
    pub piece: Piece,
}

/// What a minibatch holds: "failure" or "success".
pub open spec fn kind_of(failure: bool) -> Seq<char> {
    if failure {
        "failure"@
    } else {
        "success"@
    }
}

/// What rounds are: whether they are on failures, and where their pieces begin and end.
pub open spec fn round_views(s: Seq<Round>) -> Seq<(bool, int, int)> {
    s.map_values(|r: Round| (r.failure, r.piece.from as int, r.piece.to as int))
}

/// The rounds on the pieces `s` of the failures, or of the successes.
pub open spec fn rounds_on(failure: bool, s: Seq<(int, int)>) -> Seq<(bool, int, int)> {
    s.map_values(|p: (int, int)| (failure, p.0, p.1))
}

impl Round {
    /// What the minibatch holds.
    pub fn kind(&self) -> (r: &'static str)
        ensures
            r@ == kind_of(self.failure),
    {
        if self.failure {
            "failure"
        } else {
            "success"
        }
    }
}

/// The minibatches of a step in the order in which they are reflected on: those of the failures, then
/// those of the successes.
pub fn reflection_rounds(failures: usize, successes: usize, size: usize) -> (r: Vec<Round>)
    requires
        size > 0,
    ensures
        round_views(r@) == rounds_on(true, pieces_from(failures as int, size as int, 0))
            + rounds_on(false, pieces_from(successes as int, size as int, 0)),
        forall|i: int|
            0 <= i < r@.len() ==> (#[trigger] r@[i]).piece.from < r@[i].piece.to <= (
            if r@[i].failure {
                failures
            } else {
                successes
            }),
{
    let first = minibatches(failures, size);
    let second = minibatches(successes, size);
    let mut r: Vec<Round> = Vec::new();
    let n: usize = first.len();
    let m: usize = second.len();
    for i in 0..n
        invariant
            n == first@.len(),
            r@.len() == i,
            forall|k: int|
                0 <= k < i ==> #[trigger] r@[k] == (Round { failure: true, piece: first@[k] }),
    {
        r.push(Round { failure: true, piece: first[i] });
    }
    for i in 0..m
        invariant
            n == first@.len(),
            m == second@.len(),
            r@.len() == n + i,
            forall|k: int|
                0 <= k < n + i ==> #[trigger] r@[k] == (Round {
                    failure: k < n,
                    piece: if k < n {
                        first@[k]
                    } else {
                        second@[k - n]
                    },
                }),
    {
        r.push(Round { failure: false, piece: second[i] });
    }
    proof {
        assert(round_views(r@) =~= rounds_on(true, piece_views(first@)) + rounds_on(
            false,
            piece_views(second@),
        ));
        assert forall|i: int| 0 <= i < r@.len() implies (#[trigger] r@[i]).piece.from
            < r@[i].piece.to <= (if r@[i].failure {
            failures
        } else {
            successes
        }) by {
            if i < n {
                assert(r@[i].piece == first@[i]);
            } else {
                assert(r@[i].piece == second@[i - n]);
            }
        }
    }
    r
}

/// Takes in the failure patterns that a reflection named: those of a reflection on failures are
/// remembered, those of any other are not.
pub fn note_heard(buffer: &mut StepBuffer, kind: &str, patterns: Vec<String>)
    ensures
        kind@ == "failure"@ ==> final(buffer)@ == (StepBufferView {
            failure_patterns: with_patterns(
                old(buffer)@.failure_patterns,
                text::texts(patterns@),
            ),
            rejected: old(buffer)@.rejected,
        }),
        kind@ != "failure"@ ==> *final(buffer) == *old(buffer),
{
    if text::same_str(kind, "failure") {
        note_patterns(buffer, patterns);
    }
}

/// No failure pattern is remembered twice, none is forgotten, and every one that was heard of is
/// remembered.
pub proof fn law_patterns_are_remembered_once(known: Seq<Seq<char>>, more: Seq<Seq<char>>)
    requires
        known.no_duplicates(),
    ensures
        with_patterns(known, more).no_duplicates(),
        known.is_prefix_of(with_patterns(known, more)),
        forall|i: int| 0 <= i < more.len() ==> with_patterns(known, more).contains(#[trigger] more[i]),
    decreases more.len(),
{
    if more.len() > 0 {
        let rest = more.drop_last();
        law_patterns_are_remembered_once(known, rest);
        let before = with_patterns(known, rest);
        let after = with_patterns(known, more);
        assert forall|i: int| 0 <= i < more.len() implies after.contains(#[trigger] more[i]) by {
            if i < rest.len() {
                assert(rest[i] == more[i]);
                let k = choose|k: int| 0 <= k < before.len() && before[k] == more[i];
                assert(after[k] == more[i]);
            } else if !before.contains(more.last()) {
                assert(after[before.len() as int] == more[i]);
            }
        }
    }
}

/// Whether two trajectories are about the same item.
pub open spec fn same_item(p: (TrajectoryView, TrajectoryView)) -> bool {
    p.0.item_id == p.1.item_id
}

/// Two lists side by side, as far as both go.
pub open spec fn side_by_side(a: Seq<TrajectoryView>, b: Seq<TrajectoryView>) -> Seq<
    (TrajectoryView, TrajectoryView),
> {
    Seq::new(
        if a.len() < b.len() {
            a.len()
        } else {
            b.len()
        },
        |i: int| (a[i], b[i]),
    )
}

/// What both skills made of the same items: the trajectories that stand at the same place in both lists
/// and are about the same item.
pub fn pair_up(previous: Vec<Trajectory>, current: Vec<Trajectory>) -> (r: Vec<
    (Trajectory, Trajectory),
>)
    ensures
        memory::pair_views(r@) == side_by_side(
            types::trajectory_views(previous@),
            types::trajectory_views(current@),
        ).filter(|p: (TrajectoryView, TrajectoryView)| same_item(p)),
{
    let ghost (a, b) = (types::trajectory_views(previous@), types::trajectory_views(current@));
    let ghost all = side_by_side(a, b);
    let ghost same = |p: (TrajectoryView, TrajectoryView)| same_item(p);
    let mut left = previous;
    let mut right = current;
    let n: usize = if left.len() < right.len() {
        left.len()
    } else {
        right.len()
    };
    left.truncate(n);
    right.truncate(n);
    let mut r: Vec<(Trajectory, Trajectory)> = Vec::new();
    proof {
        assert(all.take(0) =~= Seq::empty());
        reveal(Seq::filter);
        assert(memory::pair_views(r@) =~= all.take(0).filter(same));
    }
    let ghost rights = right@;
    let mut i: usize = 0;
    proof {
        assert(rights.skip(0) =~= rights);
    }
    for t in it: left.into_iter()
        invariant
            it.seq().len() == n,
            n == all.len(),
            rights.len() == n,
            i == it.index(),
            right@ == rights.skip(i as int),
            forall|k: int| 0 <= k < n ==> (#[trigger] it.seq()[k])@ == all[k].0,
            forall|k: int| 0 <= k < n ==> (#[trigger] rights[k])@ == all[k].1,
            same == |p: (TrajectoryView, TrajectoryView)| same_item(p),
            memory::pair_views(r@) == all.take(i as int).filter(same),
    {
        let ghost k = i as int;
        let ghost before = memory::pair_views(r@);
        let u = right.remove(0);
        proof {
            assert(right@ =~= rights.skip(k + 1));
            assert(all.take(k + 1) =~= all.take(k).push(all[k]));
            all.take(k).lemma_filter_push(all[k], same);
            assert(rights[k] == u);
            assert(all[k] == (t@, u@));
        }
        if text::same_str(t.item_id.as_str(), u.item_id.as_str()) {
            r.push((t, u));
            proof {
                assert(memory::pair_views(r@) =~= before.push((t@, u@)));
            }
        }
        i = i + 1;
    }
    proof {
        assert(all.take(n as int) =~= all);
    }
    r
}

// ---------------------------------------------------------------------------------------------
// A proposal
// ---------------------------------------------------------------------------------------------

/// What a step proposes: the edits that were selected, and the skill that they make of the current one.
#[derive(Debug)]
pub struct Proposal {
    pub patch: Vec<Edit>,
    pub candidate: String,
    pub lr_budget: u32,
    pub n_proposed: u32,
    pub n_selected: u32,
    pub skill_hash: String,
}

/// What a `Proposal` says.
pub struct ProposalView {
    pub patch: Seq<EditView>,
    pub candidate: Seq<char>,
    pub lr_budget: u32,
    pub n_proposed: u32,
    pub n_selected: u32,
    pub skill_hash: Seq<char>,
}

impl View for Proposal {
    type V = ProposalView;

    open spec fn view(&self) -> ProposalView {
        ProposalView {
            patch: types::edit_views(self.patch@),
            candidate: self.candidate@,
            lr_budget: self.lr_budget,
            n_proposed: self.n_proposed,
            n_selected: self.n_selected,
            skill_hash: self.skill_hash@,
        }
    }
}

/// The bits of 1.5, the confidence that the edits of a step may add up to under an autonomous schedule.
pub const CONFIDENCE_BUDGET: u32 = 0x3fc0_0000;

/// The edits that rank highest among the merged ones: as many as the budget allows or, under an
/// autonomous schedule, as their confidence allows within the budget.
pub open spec fn selected(proposed: Seq<EditView>, schedule: LrSchedule, lr_budget: u32) -> Seq<
    EditView,
> {
    let r = rank::ranked(merge::merged(proposed));
    if schedule is Autonomous {
        r.take(scheduler::taken(r, Single { bits: CONFIDENCE_BUDGET }, lr_budget as int))
    } else if lr_budget < r.len() {
        r.take(lr_budget as int)
    } else {
        r
    }
}

/// The edit budget of the step that a run comes to.
pub open spec fn budget_of(run: RunView, plan: Plan) -> u32 {
    scheduler::budget(plan.schedule, run.step, plan.total_steps, plan.learning_rate) as u32
}

/// What a step proposes, given what reflection proposed.
pub open spec fn proposal(run: RunView, plan: Plan, proposed: Seq<EditView>) -> ProposalView {
    let lr_budget = budget_of(run, plan);
    let patch = selected(proposed, plan.schedule, lr_budget);
    let candidate = patch::patched(run.skill, patch);
    ProposalView {
        patch,
        candidate,
        lr_budget,
        n_proposed: merge::merged(proposed).len() as u32,
        n_selected: patch.len() as u32,
        skill_hash: scoring::hex(
            scoring::sha256_digest(vstd::utf8::encode_utf8(candidate)).take(8),
        ),
    }
}

/// Merging makes no edits.
proof fn lemma_merged_len(s: Seq<EditView>)
    ensures
        merge::merged(s).len() <= s.len(),
    decreases s.len(),
{
    if s.len() > 0 {
        lemma_merged_len(s.drop_last());
        lemma_merge_one_len(merge::merged(s.drop_last()), s.last());
    }
}

/// Taking in an edit adds at most one.
proof fn lemma_merge_one_len(s: Seq<EditView>, e: EditView)
    ensures
        merge::merge_one(s, e).len() <= s.len() + 1,
    decreases s.len(),
{
    if s.len() > 0 && !merge::same_change(s[0], e) {
        lemma_merge_one_len(s.skip(1), e);
    }
}

impl Run {
    /// What a step proposes, given what reflection on failures and on successes proposed.
    pub fn propose(&self, plan: &Plan, failure_edits: Vec<Edit>, success_edits: Vec<Edit>) -> (r:
        Proposal)
        requires
            failure_edits@.len() + success_edits@.len() <= u32::MAX,
            merge::support_fits(
                types::edit_views(failure_edits@) + types::edit_views(success_edits@),
            ),
        ensures
            r@ == proposal(
                self@,
                *plan,
                types::edit_views(failure_edits@) + types::edit_views(success_edits@),
            ),
    {
        let ghost proposed = types::edit_views(failure_edits@) + types::edit_views(success_edits@);
        let merged = merge::merge_patches(failure_edits, success_edits);
        proof {
            lemma_merged_len(proposed);
            rank::law_ranking_reorders(merge::merged(proposed));
        }
        let n_proposed: u32 = merged.len() as u32;
        let lr_budget: u32 = scheduler::compute_lr(
            &plan.schedule,
            self.step,
            plan.total_steps,
            plan.learning_rate,
        );
        let patch = match plan.schedule {
            LrSchedule::Autonomous => scheduler::autonomous_select(
                merged,
                Single { bits: CONFIDENCE_BUDGET },
                lr_budget,
            ),
            _ => rank::rank_and_select(merged, lr_budget),
        };
        proof {
            let r = rank::ranked(merge::merged(proposed));
            assert(r.take(r.len() as int) =~= r);
            scheduler::law_autonomous_selection_is_bounded(
                r,
                Single { bits: CONFIDENCE_BUDGET },
                lr_budget as int,
            );
        }
        let n_selected: u32 = patch.len() as u32;
        let candidate = patch::apply_patch(self.skill.as_str(), patch.as_slice());
        let skill_hash = scoring::skill_hash(candidate.as_str());
        Proposal { patch, candidate, lr_budget, n_proposed, n_selected, skill_hash }
    }
}

/// A step changes no more than its budget allows, and the budget never exceeds the configured one.
pub proof fn law_steps_keep_to_the_budget(run: RunView, plan: Plan, proposed: Seq<EditView>)
    ensures
        proposal(run, plan, proposed).patch.len() <= budget_of(run, plan),
        1 <= budget_of(run, plan) <= at_least_one(plan.learning_rate as nat),
{
    let r = rank::ranked(merge::merged(proposed));
    rank::law_ranking_reorders(merge::merged(proposed));
    scheduler::law_autonomous_selection_is_bounded(
        r,
        Single { bits: CONFIDENCE_BUDGET },
        budget_of(run, plan) as int,
    );
    scheduler::law_budget_falls_from_base_to_one(
        plan.schedule,
        run.step,
        run.step,
        plan.total_steps,
        plan.learning_rate,
    );
}

// ---------------------------------------------------------------------------------------------
// After validation
// ---------------------------------------------------------------------------------------------

/// What is decided about a proposal whose candidate scores `score`.
pub open spec fn decision(run: RunView, score: Single) -> GateDecision {
    gate::decide(score, run.current_score, run.best_score)
}

/// The candidate is the best skill so far.
pub open spec fn is_best(run: RunView, score: Single) -> bool {
    match decision(run, score) {
        GateDecision::AcceptNewBest => true,
        GateDecision::Accept => single::at_most(run.best_score, score),
        GateDecision::Reject => false,
    }
}

/// Why a patch was refused.
pub open spec fn refusal(step: nat, drop: Single) -> Seq<char> {
    "step "@ + numbers::digits(step) + " drop "@ + numbers::fixed3(drop)
}

/// The buffer after a decision: a refused patch is remembered, where the plan has it so.
pub open spec fn buffer_after(run: RunView, plan: Plan, p: ProposalView, score: Single) -> StepBufferView {
    if decision(run, score) == GateDecision::Reject && plan.use_rejected_buffer {
        let drop = gate::drop_of(score, run.current_score);
        StepBufferView {
            failure_patterns: run.buffer.failure_patterns,
            rejected: gradient::remembered(
                run.buffer.rejected,
                RejectedEntryView {
                    edits: p.patch,
                    score_drop: drop,
                    rationale: refusal((run.step + 1) as nat, drop),
                },
            ),
        }
    } else {
        run.buffer
    }
}

/// A run after a step: `score` is that of the candidate on the selection items, `train_score` that of
/// the current skill on the batch.
pub open spec fn settled(
    run: RunView,
    plan: Plan,
    p: ProposalView,
    score: Single,
    train_score: Single,
) -> RunView {
    let accepted = decision(run, score) != GateDecision::Reject;
    let best_score = if is_best(run, score) {
        score
    } else {
        run.best_score
    };
    let step = (run.step + 1) as u32;
    RunView {
        skill: if accepted {
            p.candidate
        } else {
            run.skill
        },
        best_skill: if is_best(run, score) {
            p.candidate
        } else {
            run.best_skill
        },
        current_score: if accepted {
            score
        } else {
            run.current_score
        },
        best_score,
        step,
        buffer: buffer_after(run, plan, p, score),
        history: run.history.push(
            StepRecordView {
                step,
                epoch: run.epoch,
                lr_budget: p.lr_budget,
                train_score,
                sel_score: score,
                best_sel_score: best_score,
                gate: decision(run, score),
                n_proposed: p.n_proposed,
                n_selected: p.n_selected,
                skill_hash: p.skill_hash,
            },
        ),
        ..run
    }
}

/// Why a patch was refused.
fn refusal_text(step: u32, drop: Single) -> (r: String)
    ensures
        r@ == refusal(step as nat, drop),
{
    let mut out = text::chars_of("step ");
    numbers::push_digits(&mut out, step as u128);
    text::push_str(&mut out, " drop ");
    numbers::push_fixed3(&mut out, drop);
    text::string_of(&out)
}

impl Run {
    /// Makes of a run what a step leaves of it, and tells what was decided.
    pub fn settle(&mut self, plan: &Plan, proposal: Proposal, score: Single, train_score: Single) -> (r:
        GateDecision)
        requires
            old(self).step < u32::MAX,
        ensures
            final(self)@ == settled(old(self)@, *plan, proposal@, score, train_score),
            r == decision(old(self)@, score),
            final(self).step == old(self).step + 1,
            final(self).epoch == old(self).epoch,
            final(self).previous_skill@ == old(self).previous_skill@,
            final(self).history@.len() == old(self).history@.len() + 1,
            r == GateDecision::Reject ==> {
                &&& final(self).skill@ == old(self).skill@
                &&& final(self).best_skill@ == old(self).best_skill@
                &&& final(self).current_score == old(self).current_score
                &&& final(self).best_score == old(self).best_score
            },
            r != GateDecision::Reject ==> {
                &&& final(self).skill@ == proposal.candidate@
                &&& final(self).current_score == score
                &&& final(self).buffer@ == old(self).buffer@
            },
            single::at_most(old(self).current_score, score) ==> r != GateDecision::Reject,
            single::less(score, old(self).current_score) && single::at_most(
                old(self).current_score,
                old(self).best_score,
            ) ==> r == GateDecision::Reject,
            r == GateDecision::Reject && plan.use_rejected_buffer ==> {
                let kept = final(self).buffer.rejected@;
                &&& kept.len() > 0
                &&& types::edit_views(kept.last().edits@) == types::edit_views(proposal.patch@)
                &&& old(self).buffer.rejected@.len() < 12 ==> kept.len()
                    == old(self).buffer.rejected@.len() + 1
            },
    {
        let ghost before = self@;
        let gate = gate::evaluate_gate(
            &GateInput {
                candidate_score: score,
                current_score: self.current_score,
                best_score: self.best_score,
                patch: proposal.patch.as_slice(),
            },
        );
        self.step = self.step + 1;
        match gate.decision {
            GateDecision::AcceptNewBest => {
                self.skill = proposal.candidate.clone();
                self.current_score = score;
                self.best_skill = proposal.candidate;
                self.best_score = score;
            },
            GateDecision::Accept => {
                self.skill = proposal.candidate.clone();
                self.current_score = score;
                if self.best_score.is_at_most(score) {
                    self.best_skill = proposal.candidate;
                    self.best_score = score;
                }
            },
            GateDecision::Reject => {
                if plan.use_rejected_buffer {
                    let why = refusal_text(self.step, gate.score_drop);
                    gradient::record_rejected(
                        &mut self.buffer,
                        proposal.patch,
                        gate.score_drop,
                        why,
                    );
                }
            },
        }
        let record = StepRecord {
            step: self.step,
            epoch: self.epoch,
            lr_budget: proposal.lr_budget,
            train_score,
            sel_score: score,
            best_sel_score: self.best_score,
            gate: gate.decision,
            n_proposed: proposal.n_proposed,
            n_selected: proposal.n_selected,
            skill_hash: proposal.skill_hash,
        };
        self.history.push(record);
        proof {
            assert(self@.history =~= before.history.push(record@));
            assert(self@.history.len() == self.history@.len());
            assert(before.history.len() == old(self).history@.len());
            gate::law_decisions_go_by_two_comparisons(score, before.current_score, before.best_score);
            if single::less(score, before.current_score) && single::at_most(
                before.current_score,
                before.best_score,
            ) {
                gate::law_lower_scores_are_rejected(score, before.current_score, before.best_score);
            }
            let kept = self@.buffer.rejected;
            assert(kept.len() == self.buffer.rejected@.len());
            assert(before.buffer.rejected.len() == old(self).buffer.rejected@.len());
            if kept.len() > 0 {
                assert(kept.last() == self.buffer.rejected@.last()@);
            }
        }
        gate.decision
    }
}

/// A run after a slow update: the guidance goes into the skill and into the best skill, unless it is
/// blank.
pub open spec fn guided(run: RunView, block: Seq<char>) -> RunView {
    if text::trim(block).len() == 0 {
        run
    } else {
        RunView {
            skill: memory::with_section(run.skill, block),
            best_skill: memory::with_section(run.best_skill, block),
            ..run
        }
    }
}

/// A run at the beginning of the next epoch: nothing is remembered of the steps of the last.
pub open spec fn turned(run: RunView) -> RunView {
    RunView {
        previous_skill: run.skill,
        epoch: (run.epoch + 1) as u32,
        buffer: types::empty_buffer(),
        ..run
    }
}

impl Run {
    /// Puts the guidance of a slow update into the skill and into the best skill, unless it is blank.
    pub fn guide(&mut self, block: &str)
        ensures
            final(self)@ == guided(old(self)@, block@),
            final(self).previous_skill@ == old(self).previous_skill@,
            final(self).step == old(self).step && final(self).epoch == old(self).epoch,
            (forall|i: int| 0 <= i < block@.len() ==> text::is_white(#[trigger] block@[i]))
                ==> final(self).skill@ == old(self).skill@ && final(self).best_skill@
                == old(self).best_skill@,
            (exists|i: int| 0 <= i < block@.len() && !text::is_white(#[trigger] block@[i])) ==> {
                &&& final(self).skill@ == memory::with_section(old(self).skill@, block@)
                &&& final(self).best_skill@ == memory::with_section(old(self).best_skill@, block@)
            },
    {
        proof {
            if forall|i: int| 0 <= i < block@.len() ==> text::is_white(#[trigger] block@[i]) {
                law_blank_guidance_changes_nothing(self@, block@);
            } else {
                let i = choose|i: int| 0 <= i < block@.len() && !text::is_white(#[trigger] block@[i]);
                law_guidance_goes_into_both_skills(self@, block@, i);
            }
        }
        if text::trim_chars(&text::chars_of(block)).len() > 0 {
            self.skill = memory::replace_slow_update_field(self.skill.as_str(), block);
            self.best_skill = memory::replace_slow_update_field(self.best_skill.as_str(), block);
        }
    }

    /// Goes on to the next epoch.
    pub fn turn_epoch(&mut self)
        requires
            old(self).epoch < u32::MAX,
        ensures
            final(self)@ == turned(old(self)@),
            final(self).epoch == old(self).epoch + 1,
            final(self).step == old(self).step,
            final(self).previous_skill@ == old(self).skill@,
            final(self).skill@ == old(self).skill@,
            final(self).best_skill@ == old(self).best_skill@,
            final(self).buffer.failure_patterns@.len() == 0,
            final(self).buffer.rejected@.len() == 0,
    {
        self.previous_skill = self.skill.clone();
        self.epoch = self.epoch + 1;
        self.buffer = StepBuffer::default();
        proof {
            assert(self.buffer@.failure_patterns.len() == self.buffer.failure_patterns@.len());
            assert(self.buffer@.rejected.len() == self.buffer.rejected@.len());
        }
    }
}

// ---------------------------------------------------------------------------------------------
// Leaving off and going on
// ---------------------------------------------------------------------------------------------

/// `state` says where the run stands, and where its skills are kept.
pub open spec fn is_state_of(state: RuntimeState, run: RunView) -> bool {
    &&& state.step == run.step
    &&& state.epoch == run.epoch
    &&& state.current_score == run.current_score
    &&& state.best_score == run.best_score
    &&& state.current_skill_path@ == "skills/skill_v"@ + artifacts::padded(run.step as nat, 4)
        + ".md"@
    &&& state.best_skill_path@ == artifacts::BEST_SKILL@
}

/// The run that left off at `state`, with what was kept of it.
pub open spec fn resumed(
    state: RuntimeState,
    skill: Seq<char>,
    best_skill: Seq<char>,
    previous_skill: Seq<char>,
    buffer: StepBufferView,
    history: Seq<StepRecordView>,
) -> RunView {
    RunView {
        skill,
        best_skill,
        previous_skill,
        current_score: state.current_score,
        best_score: state.best_score,
        epoch: state.epoch,
        step: state.step,
        buffer,
        history,
    }
}

/// A run that leaves off and goes on is the run that it was.
pub proof fn law_resuming_gives_back_the_run(state: RuntimeState, run: RunView)
    requires
        is_state_of(state, run),
    ensures
        resumed(
            state,
            run.skill,
            run.best_skill,
            run.previous_skill,
            run.buffer,
            run.history,
        ) == run,
{
}

impl Run {
    /// Where the run stands, and where its skills are kept.
    pub fn state(&self) -> (r: RuntimeState)
        ensures
            is_state_of(r, self@),
    {
        RuntimeState {
            step: self.step,
            epoch: self.epoch,
            current_score: self.current_score,
            best_score: self.best_score,
            current_skill_path: artifacts::skill_file(self.step),
            best_skill_path: artifacts::BEST_SKILL.to_owned(),
        }
    }

    /// The run that left off at `state`, with what was kept of it.
    pub fn resume(
        state: &RuntimeState,
        skill: String,
        best_skill: String,
        previous_skill: String,
        buffer: StepBuffer,
        history: Vec<StepRecord>,
    ) -> (r: Run)
        ensures
            r@ == resumed(
                *state,
                skill@,
                best_skill@,
                previous_skill@,
                buffer@,
                types::record_views(history@),
            ),
    {
        Run {
            skill,
            best_skill,
            previous_skill,
            current_score: state.current_score,
            best_score: state.best_score,
            epoch: state.epoch,
            step: state.step,
            buffer,
            history,
        }
    }

    /// Whether the run has kept to the plan.
    pub fn is_on_plan(&self, plan: &Plan) -> (r: bool)
        ensures
            r == on_plan(self@, *plan),
    {
        if self.epoch < 1 || self.epoch as u64 > plan.num_epochs as u64 + 1 {
            return false;
        }
        proof {
            assert(0 <= steps_before(self.epoch, *plan) <= 0xffff_ffff * 0xffff_ffff)
                by (nonlinear_arith)
                requires
                    1 <= self.epoch <= 0xffff_ffff,
                    0 <= plan.steps_per_epoch <= 0xffff_ffff,
                    steps_before(self.epoch, *plan) == (self.epoch - 1) * plan.steps_per_epoch,
            ;
        }
        let before: u64 = (self.epoch as u64 - 1) * plan.steps_per_epoch as u64;
        let step: u64 = self.step as u64;
        if step < before || step - before > plan.steps_per_epoch as u64 {
            return false;
        }
        self.epoch <= plan.num_epochs || step == before
    }
}

// ---------------------------------------------------------------------------------------------
// Laws
// ---------------------------------------------------------------------------------------------

/// The best score is not below the current one.
pub open spec fn well_kept(run: RunView) -> bool {
    single::at_most(run.current_score, run.best_score)
}

/// A run that has a score starts with the best score at the current one, and everything that happens to it keeps the best
/// score from falling below the current one.
pub proof fn law_runs_are_well_kept(
    run: RunView,
    plan: Plan,
    p: ProposalView,
    score: Single,
    train_score: Single,
    block: Seq<char>,
)
    requires
        well_kept(run),
    ensures
        !score.is_nan() ==> well_kept(started(run.skill, score)),
        well_kept(settled(run, plan, p, score, train_score)),
        well_kept(guided(run, block)),
        well_kept(turned(run)),
{
    gate::law_new_best_is_better(score, run.current_score, run.best_score);
}

/// The best score is the highest that any candidate has reached: a step leaves the higher of the best
/// score and the score of its candidate. So it never falls.
pub proof fn law_best_score_is_the_highest(
    run: RunView,
    plan: Plan,
    p: ProposalView,
    score: Single,
    train_score: Single,
)
    requires
        well_kept(run),
    ensures
        ({
            let best = settled(run, plan, p, score, train_score).best_score;
            &&& !best.is_nan()
            &&& best.order() == (if single::less(run.best_score, score) {
                score.order()
            } else {
                run.best_score.order()
            })
        }),
{
    gate::law_new_best_is_better(score, run.current_score, run.best_score);
}

/// The score of the skill never falls: a step leaves the current score where it is, or raises it.
pub proof fn law_current_score_never_falls(
    run: RunView,
    plan: Plan,
    p: ProposalView,
    score: Single,
    train_score: Single,
)
    requires
        well_kept(run),
    ensures
        single::at_most(
            run.current_score,
            settled(run, plan, p, score, train_score).current_score,
        ),
{
    gate::law_new_best_is_better(score, run.current_score, run.best_score);
}

/// The best skill after a step is the one that reached the best score: the candidate, with its score, or
/// the best skill before, with its own.
pub proof fn law_best_skill_goes_with_its_score(
    run: RunView,
    plan: Plan,
    p: ProposalView,
    score: Single,
    train_score: Single,
)
    ensures
        ({
            let after = settled(run, plan, p, score, train_score);
            ||| after.best_skill == p.candidate && after.best_score == score
            ||| after.best_skill == run.best_skill && after.best_score == run.best_score
        }),
        ({
            let after = settled(run, plan, p, score, train_score);
            ||| after.skill == p.candidate && after.current_score == score
            ||| after.skill == run.skill && after.current_score == run.current_score
        }),
{
}

/// A run after several steps, each with a proposal, the score of its candidate and the score on the
/// batch.
pub open spec fn settled_all(run: RunView, plan: Plan, steps: Seq<(ProposalView, Single, Single)>) -> RunView
    decreases steps.len(),
{
    if steps.len() == 0 {
        run
    } else {
        let (p, score, train_score) = steps.last();
        settled(settled_all(run, plan, steps.drop_last()), plan, p, score, train_score)
    }
}

/// The skill that a run hands over is its best: no candidate of any step has scored higher, and it is
/// the skill that the run started from or the candidate of a step, with the score that this one reached.
pub proof fn law_the_best_skill_is_handed_over(
    run: RunView,
    plan: Plan,
    steps: Seq<(ProposalView, Single, Single)>,
)
    requires
        well_kept(run),
    ensures
        ({
            let after = settled_all(run, plan, steps);
            &&& well_kept(after)
            &&& single::at_most(run.best_score, after.best_score)
            &&& forall|i: int|
                0 <= i < steps.len() ==> !single::less(after.best_score, (#[trigger] steps[i]).1)
            &&& {
                ||| after.best_skill == run.best_skill && after.best_score == run.best_score
                ||| exists|i: int|
                    0 <= i < steps.len() && after.best_skill == (#[trigger] steps[i]).0.candidate
                        && after.best_score == steps[i].1
            }
        }),
    decreases steps.len(),
{
    if steps.len() > 0 {
        let rest = steps.drop_last();
        law_the_best_skill_is_handed_over(run, plan, rest);
        let before = settled_all(run, plan, rest);
        let (p, score, train_score) = steps.last();
        let after = settled_all(run, plan, steps);
        law_best_score_is_the_highest(before, plan, p, score, train_score);
        law_runs_are_well_kept(before, plan, p, score, train_score, Seq::empty());
        assert forall|i: int| 0 <= i < steps.len() implies !single::less(
            after.best_score,
            (#[trigger] steps[i]).1,
        ) by {
            if i < rest.len() {
                assert(rest[i] == steps[i]);
            }
        }
        if is_best(before, score) {
            assert(after.best_skill == steps[steps.len() - 1].0.candidate);
        } else if !(before.best_skill == run.best_skill && before.best_score == run.best_score) {
            let i = choose|i: int|
                0 <= i < rest.len() && before.best_skill == (#[trigger] rest[i]).0.candidate
                    && before.best_score == rest[i].1;
            assert(steps[i] == rest[i]);
        }
    }
}

/// A refused candidate changes neither the skill nor the best skill nor their scores, and its patch is
/// the last one that is remembered, where the plan has it so.
pub proof fn law_refused_candidates_change_nothing(
    run: RunView,
    plan: Plan,
    p: ProposalView,
    score: Single,
    train_score: Single,
)
    requires
        decision(run, score) == GateDecision::Reject,
    ensures
        ({
            let after = settled(run, plan, p, score, train_score);
            &&& after.skill == run.skill
            &&& after.best_skill == run.best_skill
            &&& after.current_score == run.current_score
            &&& after.best_score == run.best_score
            &&& plan.use_rejected_buffer ==> after.buffer.rejected.last().edits == p.patch
                && after.buffer.rejected.last().score_drop == gate::drop_of(score, run.current_score)
            &&& !plan.use_rejected_buffer ==> after.buffer == run.buffer
        }),
{
}

/// A step adds one record to the history, which says what was decided and how the best score stands, and
/// changes none of the others.
pub proof fn law_history_grows_by_one(
    run: RunView,
    plan: Plan,
    p: ProposalView,
    score: Single,
    train_score: Single,
)
    requires
        run.step < u32::MAX,
    ensures
        ({
            let after = settled(run, plan, p, score, train_score);
            &&& run.history.is_prefix_of(after.history)
            &&& after.history.len() == run.history.len() + 1
            &&& after.history.last().step == after.step
            &&& after.step == run.step + 1
            &&& after.history.last().best_sel_score == after.best_score
            &&& after.history.last().gate == decision(run, score)
        }),
{
}

/// What is remembered lasts to the end of the epoch: a step forgets no failure pattern, and the next
/// epoch begins with nothing remembered.
pub proof fn law_memory_lasts_an_epoch(
    run: RunView,
    plan: Plan,
    p: ProposalView,
    score: Single,
    train_score: Single,
)
    ensures
        settled(run, plan, p, score, train_score).buffer.failure_patterns
            == run.buffer.failure_patterns,
        turned(run).buffer == types::empty_buffer(),
{
}

/// A run that does what comes next keeps to its plan, and when it is over it has done every step of
/// every epoch.
pub proof fn law_runs_keep_to_the_plan(
    run: RunView,
    plan: Plan,
    p: ProposalView,
    score: Single,
    train_score: Single,
    block: Seq<char>,
)
    requires
        is_sound(plan),
        on_plan(run, plan),
    ensures
        next(run, plan) is Step ==> run.step < u32::MAX && on_plan(
            settled(run, plan, p, score, train_score),
            plan,
        ),
        next(run, plan) is EndEpoch ==> run.epoch < u32::MAX && on_plan(
            turned(guided(run, block)),
            plan,
        ),
        next(run, plan) is Finish ==> run.step == plan.num_epochs * plan.steps_per_epoch,
{
    let (e, s) = (run.epoch as int, plan.steps_per_epoch as int);
    assert(e * s == (e - 1) * s + s) by (nonlinear_arith);
    if e <= plan.num_epochs {
        assert(e * s <= plan.num_epochs * s) by (nonlinear_arith)
            requires
                e <= plan.num_epochs,
                0 <= s,
        ;
    }
}

/// How much of a run is still to do: its steps, and the ends of its epochs.
pub open spec fn left_to_do(run: RunView, plan: Plan) -> int {
    plan.num_epochs * plan.steps_per_epoch - run.step + (plan.num_epochs + 1 - run.epoch)
}

/// A run comes to its end: whatever it does next leaves less to do, and never less than nothing.
pub proof fn law_runs_end(
    run: RunView,
    plan: Plan,
    p: ProposalView,
    score: Single,
    train_score: Single,
    block: Seq<char>,
)
    requires
        is_sound(plan),
        on_plan(run, plan),
    ensures
        left_to_do(run, plan) >= 0,
        next(run, plan) is Step ==> left_to_do(settled(run, plan, p, score, train_score), plan)
            < left_to_do(run, plan),
        next(run, plan) is EndEpoch ==> left_to_do(turned(guided(run, block)), plan) < left_to_do(
            run,
            plan,
        ),
{
    law_runs_keep_to_the_plan(run, plan, p, score, train_score, block);
    let (e, s) = (run.epoch as int, plan.steps_per_epoch as int);
    assert(e * s == (e - 1) * s + s) by (nonlinear_arith);
    if e <= plan.num_epochs {
        assert(e * s <= plan.num_epochs * s) by (nonlinear_arith)
            requires
                e <= plan.num_epochs,
                0 <= s,
        ;
    }
}

/// A slow update touches nothing but the two skills, and blank guidance not even those.
pub proof fn law_slow_updates_touch_only_skills(run: RunView, block: Seq<char>)
    ensures
        guided(run, block) == (RunView {
            skill: guided(run, block).skill,
            best_skill: guided(run, block).best_skill,
            ..run
        }),
        text::trim(block).len() == 0 ==> guided(run, block) == run,
{
}

/// Within an epoch come its steps, each with the seed that its epoch and its place there give; when all
/// are done, the epoch ends, with a slow update and a memo from the second epoch on where the plan has
/// them, and never in the first; after the last epoch the run is over.
pub proof fn law_epochs_go_through_steps_and_end(run: RunView, plan: Plan, done: nat)
    requires
        1 <= run.epoch,
        done <= plan.steps_per_epoch,
        run.step == (run.epoch - 1) * plan.steps_per_epoch + done,
    ensures
        run.epoch > plan.num_epochs ==> next(run, plan) == Action::Finish,
        run.epoch <= plan.num_epochs && done < plan.steps_per_epoch ==> next(run, plan) == (
        Action::Step { seed: (1000 * run.epoch + done) as u64 }),
        run.epoch <= plan.num_epochs && done == plan.steps_per_epoch ==> {
            &&& next(run, plan) is EndEpoch
            &&& run.epoch == 1 ==> next(run, plan) == (Action::EndEpoch {
                slow_update: false,
                memo: false,
            })
            &&& run.epoch >= 2 ==> next(run, plan) == (Action::EndEpoch {
                slow_update: plan.use_slow_update,
                memo: plan.use_meta_skill,
            })
        },
{
}

/// A trajectory is a success exactly where its score is above one half.
pub proof fn law_successes_are_above_one_half(t: TrajectoryView)
    requires
        t.score.is_finite(),
    ensures
        succeeded()(t) <==> 2 * t.score.value() > vstd::arithmetic::power2::pow2(149),
        failed()(t) <==> 2 * t.score.value() <= vstd::arithmetic::power2::pow2(149),
{
    let half = Single { bits: single::HALF };
    single::lemma_magnitude_at(125, 0x80_0000);
    vstd::arithmetic::power2::lemma2_to64();
    vstd::arithmetic::power2::lemma_pow2_adds(23, 125);
    vstd::arithmetic::power2::lemma_pow2_unfold(149);
    single::lemma_order(t.score, half);
}

/// What an accepted candidate changes: it is the skill from then on, with its score; it is the best skill,
/// too, where its score is no lower than the best so far; and nothing that is remembered changes.
pub proof fn law_accepted_candidates_are_taken_over(
    run: RunView,
    plan: Plan,
    p: ProposalView,
    score: Single,
    train_score: Single,
)
    requires
        well_kept(run),
        single::at_most(run.current_score, score),
    ensures
        ({
            let after = settled(run, plan, p, score, train_score);
            &&& after.skill == p.candidate
            &&& after.current_score == score
            &&& single::at_most(run.best_score, score) ==> after.best_skill == p.candidate
                && after.best_score == score
            &&& single::less(score, run.best_score) ==> after.best_skill == run.best_skill
                && after.best_score == run.best_score
            &&& after.buffer == run.buffer
            &&& after.previous_skill == run.previous_skill
            &&& after.epoch == run.epoch
        }),
{
    gate::law_new_best_is_better(score, run.current_score, run.best_score);
    gate::law_no_worse_is_accepted(score, run.current_score, run.best_score);
}

/// A candidate that scores lower than the current skill is refused: the skills and their scores stay, and
/// the patch is remembered with its cost and its step, where the plan has it so.
pub proof fn law_lower_candidates_are_refused(
    run: RunView,
    plan: Plan,
    p: ProposalView,
    score: Single,
    train_score: Single,
)
    requires
        well_kept(run),
        single::less(score, run.current_score),
        run.buffer.rejected.len() < 12,
    ensures
        ({
            let after = settled(run, plan, p, score, train_score);
            let drop = single::difference(run.current_score, score);
            &&& after.skill == run.skill && after.current_score == run.current_score
            &&& after.best_skill == run.best_skill && after.best_score == run.best_score
            &&& after.buffer.failure_patterns == run.buffer.failure_patterns
            &&& plan.use_rejected_buffer ==> after.buffer.rejected == run.buffer.rejected.push(
                RejectedEntryView {
                    edits: p.patch,
                    score_drop: drop,
                    rationale: "step "@ + numbers::digits((run.step + 1) as nat) + " drop "@
                        + numbers::fixed3(drop),
                },
            )
            &&& !plan.use_rejected_buffer ==> after.buffer.rejected == run.buffer.rejected
        }),
{
    gate::law_lower_scores_are_rejected(score, run.current_score, run.best_score);
    gate::law_rejected_is_worse(score, run.current_score, run.best_score);
}

/// The record of a step says everything of it: which step of which epoch it was, its budget, its scores,
/// what was decided and how many edits were proposed and selected.
pub proof fn law_records_say_everything(
    run: RunView,
    plan: Plan,
    p: ProposalView,
    score: Single,
    train_score: Single,
)
    requires
        run.step < u32::MAX,
    ensures
        ({
            let after = settled(run, plan, p, score, train_score);
            let r = after.history.last();
            &&& after.history == run.history.push(r)
            &&& r.step == run.step + 1 && r.epoch == run.epoch
            &&& r.lr_budget == p.lr_budget && r.n_proposed == p.n_proposed
            &&& r.n_selected == p.n_selected && r.skill_hash == p.skill_hash
            &&& r.train_score == train_score && r.sel_score == score
            &&& r.best_sel_score == after.best_score
            &&& r.gate == gate::decide(score, run.current_score, run.best_score)
        }),
{
}

/// A new epoch remembers the skill that the last one ended with, forgets what was remembered within it,
/// and changes nothing else.
pub proof fn law_epochs_begin_afresh(run: RunView)
    requires
        run.epoch < u32::MAX,
    ensures
        ({
            let after = turned(run);
            &&& after.epoch == run.epoch + 1
            &&& after.previous_skill == run.skill
            &&& after.buffer.failure_patterns.len() == 0 && after.buffer.rejected.len() == 0
            &&& after.skill == run.skill && after.best_skill == run.best_skill
            &&& after.current_score == run.current_score && after.best_score == run.best_score
            &&& after.step == run.step && after.history == run.history
        }),
{
}

/// Guidance that is not blank goes into the skill and into the best skill alike.
pub proof fn law_guidance_goes_into_both_skills(run: RunView, block: Seq<char>, i: int)
    requires
        0 <= i < block.len(),
        !text::is_white(block[i]),
    ensures
        guided(run, block).skill == memory::with_section(run.skill, block),
        guided(run, block).best_skill == memory::with_section(run.best_skill, block),
{
    text::lemma_trim_keeps(block, i);
}

/// Blank guidance changes nothing.
pub proof fn law_blank_guidance_changes_nothing(run: RunView, block: Seq<char>)
    requires
        forall|i: int| 0 <= i < block.len() ==> text::is_white(#[trigger] block[i]),
    ensures
        guided(run, block) == run,
{
    let none = Seq::<char>::empty();
    text::law_trimming_takes_off_white_space(block, none, none);
    assert(block + none + none =~= block);
}

/// Pairs are made of what stands at the same place in both lists, as far as both go, and are kept where
/// both are about the same item.
pub proof fn law_pairs_stand_side_by_side(a: Seq<TrajectoryView>, b: Seq<TrajectoryView>, i: int)
    requires
        0 <= i < a.len(),
        0 <= i < b.len(),
    ensures
        side_by_side(a, b).len() <= a.len() && side_by_side(a, b).len() <= b.len(),
        side_by_side(a, b).len() == a.len() || side_by_side(a, b).len() == b.len(),
        side_by_side(a, b)[i].0 == a[i] && side_by_side(a, b)[i].1 == b[i],
        same_item(side_by_side(a, b)[i]) <==> a[i].item_id == b[i].item_id,
{
}

/// A step proposes the first of the ranked edits, and the skill that these make of the current one; what
/// it says of itself is true. Unless confidence decides, it takes as many as the budget allows.
pub proof fn law_proposals_apply_the_highest_ranked(run: RunView, plan: Plan, proposed: Seq<EditView>)
    requires
        proposed.len() <= u32::MAX,
    ensures
        ({
            let p = proposal(run, plan, proposed);
            let r = rank::ranked(merge::merged(proposed));
            &&& p.patch.is_prefix_of(r)
            &&& p.candidate == patch::patched(run.skill, p.patch)
            &&& p.n_proposed == merge::merged(proposed).len()
            &&& p.n_selected == p.patch.len()
            &&& p.lr_budget == scheduler::budget(
                plan.schedule,
                run.step,
                plan.total_steps,
                plan.learning_rate,
            )
            &&& p.skill_hash == scoring::hex(
                scoring::sha256_digest(vstd::utf8::encode_utf8(p.candidate)).take(8),
            )
            &&& !(plan.schedule is Autonomous) ==> p.patch.len() == p.lr_budget || (p.patch.len()
                < p.lr_budget && p.patch == r)
        }),
{
    let r = rank::ranked(merge::merged(proposed));
    lemma_merged_len(proposed);
    rank::law_ranking_reorders(merge::merged(proposed));
    scheduler::law_autonomous_selection_is_bounded(
        r,
        Single { bits: CONFIDENCE_BUDGET },
        budget_of(run, plan) as int,
    );
    scheduler::law_budget_falls_from_base_to_one(
        plan.schedule,
        run.step,
        run.step,
        plan.total_steps,
        plan.learning_rate,
    );
    let p = proposal(run, plan, proposed);
    assert(p.patch =~= r.take(p.patch.len() as int));
}

/// Failure patterns are taken in one after the other, each behind those that are known, unless it is
/// known; nothing else is taken in.
pub proof fn law_patterns_are_taken_in_one_by_one(
    known: Seq<Seq<char>>,
    a: Seq<Seq<char>>,
    b: Seq<Seq<char>>,
    p: Seq<char>,
)
    ensures
        with_patterns(known, Seq::empty()) == known,
        with_patterns(known, a + b) == with_patterns(with_patterns(known, a), b),
        known.contains(p) ==> with_patterns(known, seq![p]) == known,
        !known.contains(p) ==> with_patterns(known, seq![p]) == known.push(p),
    decreases b.len(),
{
    assert(seq![p].drop_last() =~= Seq::empty());
    assert(with_patterns(known, Seq::<Seq<char>>::empty()) == known);
    if b.len() == 0 {
        assert(a + b =~= a);
    } else {
        law_patterns_are_taken_in_one_by_one(known, a, b.drop_last(), p);
        assert((a + b).drop_last() =~= a + b.drop_last());
        assert((a + b).last() == b.last());
    }
}

/// The rounds on failures, and those on successes, are as many as there are pieces, each with its piece,
/// and say which they are on.
pub proof fn law_rounds_say_what_they_are_on(s: Seq<(int, int)>, failure: bool, i: int)
    requires
        0 <= i < s.len(),
    ensures
        rounds_on(failure, s).len() == s.len(),
        rounds_on(failure, s)[i].0 == failure,
        rounds_on(failure, s)[i].1 == s[i].0 && rounds_on(failure, s)[i].2 == s[i].1,
        kind_of(true) == "failure"@,
        kind_of(false) == "success"@,
{
}

/// A run that starts has its skill for the best one and for that of the epoch before, and has done and
/// remembers nothing.
pub proof fn law_runs_start_with_their_skill(skill: Seq<char>, baseline: Single)
    ensures
        ({
            let run = started(skill, baseline);
            &&& run.skill == skill && run.best_skill == skill && run.previous_skill == skill
            &&& run.current_score == baseline && run.best_score == baseline
            &&& run.epoch == 1 && run.step == 0
            &&& run.buffer.failure_patterns.len() == 0 && run.buffer.rejected.len() == 0
            &&& run.history.len() == 0
        }),
{
}

/// The scores of trajectories are theirs, in their order.
pub proof fn law_scores_are_those_of_the_trajectories(s: Seq<TrajectoryView>, i: int)
    requires
        0 <= i < s.len(),
    ensures
        scores(s).len() == s.len(),
        scores(s)[i] == s[i].score,
{
}

/// Every element of a list is in a piece: the one at `k` in the piece that as many whole pieces stand before
/// as go into `k`, which begins at a multiple of the size.
pub proof fn law_every_element_is_in_a_piece(len: int, size: int, k: int)
    requires
        size > 0,
        0 <= k < len,
    ensures
        ({
            let p = pieces_from(len, size, 0);
            &&& 0 <= k / size < p.len()
            &&& p[k / size].0 == size * (k / size)
            &&& p[k / size].0 <= k < p[k / size].1
        }),
{
    lemma_piece_of(len, size, 0, k);
}

/// The piece that an element is in, where the pieces begin at `from`.
proof fn lemma_piece_of(len: int, size: int, from: int, k: int)
    requires
        size > 0,
        0 <= from,
        0 <= k,
        from + k < len,
    ensures
        ({
            let p = pieces_from(len, size, from);
            &&& 0 <= k / size < p.len()
            &&& p[k / size].0 == from + size * (k / size)
            &&& p[k / size].0 <= from + k < p[k / size].1
        }),
    decreases k,
{
    let to = if from + size < len {
        from + size
    } else {
        len
    };
    let rest = pieces_from(len, size, to);
    let p = pieces_from(len, size, from);
    assert(p =~= seq![(from, to)] + rest);
    if k < size {
        vstd::arithmetic::div_mod::lemma_basic_div(k, size);
        assert(size * 0 == 0);
        assert(p[0] == (from, to));
    } else {
        assert(to == from + size);
        lemma_piece_of(len, size, to, k - size);
        let q = (k - size) / size;
        vstd::arithmetic::div_mod::lemma_div_plus_one(k - size, size);
        assert(k / size == q + 1);
        assert(size * (q + 1) == size * q + size) by (nonlinear_arith);
        assert(p[q + 1] == rest[q]);
    }
}

/// A step goes through as many items as the batch size times the accumulation says, and an epoch through all
/// of them, in no more steps than it takes; the run has as many steps in all, and at least one in an epoch.
pub proof fn law_steps_go_through_accumulated_batches(cfg: Config)
    requires
        0 < cfg.train.batch_size * cfg.train.accumulation <= usize::MAX,
        0 < cfg.train.train_size <= 0x100_0000,
    ensures
        ({
            let step = cfg.train.batch_size * cfg.train.accumulation;
            &&& epoch_steps(cfg) >= 1
            &&& epoch_steps(cfg) * step >= cfg.train.train_size
            &&& (epoch_steps(cfg) - 1) * step < cfg.train.train_size
            &&& at_least_one(epoch_steps(cfg)) == epoch_steps(cfg)
            &&& can_be_planned(cfg) == (cfg.train.num_epochs < 0xffff_ffff && cfg.train.num_epochs
                * epoch_steps(cfg) <= 0xffff_ffff)
        }),
{
    let step = cfg.train.batch_size * cfg.train.accumulation;
    law_epochs_cover_the_items(cfg.train.train_size as nat, step as nat);
    let n = epoch_steps(cfg);
    assert(n >= 1) by (nonlinear_arith)
        requires
            n * step >= cfg.train.train_size,
            cfg.train.train_size > 0,
            n >= 0,
    ;
}

/// Where a step takes no items, there is no number of steps that goes through some, and no step is needed to
/// go through none; the run still counts one step for each epoch then.
pub proof fn law_steps_without_items_never_end(size: nat)
    requires
        0 < size <= 0xffff_ffff_ffff_ffff,
    ensures
        steps_to_cover(size, 0) == 0xffff_ffff,
        steps_to_cover(0, 0) == 0,
        at_least_one(0) == 1,
{
    single_laws::lemma_counted(size);
    single::lemma_magnitude_grows(0, 0);
    single::lemma_nearest_exact(0, 1);
    assert(0 * pow2(149) == 0 && single::magnitude(0) * 1 == 0);
    single::lemma_make(false, 0);
    assert(single::counted(0).place() == 0);
    single::lemma_make(false, single::INFINITY as nat);
}

/// A buffer that is full loses its oldest refused patch to the one that is refused now.
pub proof fn law_full_buffers_lose_the_oldest(
    run: RunView,
    plan: Plan,
    p: ProposalView,
    score: Single,
    train_score: Single,
)
    requires
        well_kept(run),
        single::less(score, run.current_score),
        run.buffer.rejected.len() == 12,
        plan.use_rejected_buffer,
    ensures
        ({
            let drop = single::difference(run.current_score, score);
            settled(run, plan, p, score, train_score).buffer.rejected
                == run.buffer.rejected.skip(1).push(
                RejectedEntryView {
                    edits: p.patch,
                    score_drop: drop,
                    rationale: "step "@ + numbers::digits((run.step + 1) as nat) + " drop "@
                        + numbers::fixed3(drop),
                },
            )
        }),
{
    gate::law_lower_scores_are_rejected(score, run.current_score, run.best_score);
    gate::law_rejected_is_worse(score, run.current_score, run.best_score);
    let drop = single::difference(run.current_score, score);
    gradient::law_the_oldest_refused_patch_goes(
        run.buffer.rejected,
        RejectedEntryView {
            edits: p.patch,
            score_drop: drop,
            rationale: refusal((run.step + 1) as nat, drop),
        },
    );
}

/// What a run leaves off with names the files of its skills and keeps where it stands, and a run that goes on
/// from it takes over all of it.
pub proof fn law_states_keep_where_a_run_stands(state: RuntimeState, run: RunView, kept: RunView)
    requires
        is_state_of(state, run),
    ensures
        state.step == run.step && state.epoch == run.epoch,
        state.current_score == run.current_score && state.best_score == run.best_score,
        state.best_skill_path@ == "best_skill.md"@,
        state.current_skill_path@ == "skills/skill_v"@ + artifacts::padded(run.step as nat, 4)
            + ".md"@,
        ({
            let r = resumed(
                state,
                kept.skill,
                kept.best_skill,
                kept.previous_skill,
                kept.buffer,
                kept.history,
            );
            &&& r.skill == kept.skill && r.best_skill == kept.best_skill
            &&& r.previous_skill == kept.previous_skill
            &&& r.buffer == kept.buffer && r.history == kept.history
            &&& r.step == run.step && r.epoch == run.epoch
            &&& r.current_score == run.current_score && r.best_score == run.best_score
        }),
{
}

/// A run keeps to the plan exactly where all steps of the epochs before its own are done, some of that one or
/// all, and none once the last epoch is over.
pub proof fn law_runs_keep_to_the_plan_epoch_by_epoch(run: RunView, plan: Plan, done: int)
    requires
        1 <= run.epoch,
        run.step == (run.epoch - 1) * plan.steps_per_epoch + done,
    ensures
        run.epoch <= plan.num_epochs ==> on_plan(run, plan) == (0 <= done <= plan.steps_per_epoch),
        run.epoch == plan.num_epochs + 1 ==> on_plan(run, plan) == (done == 0),
        run.epoch > plan.num_epochs + 1 ==> !on_plan(run, plan),
{
}

/// Under an autonomous schedule a step takes edits from the highest rank on, within the budget and as long as
/// the confidence in them all is no more than one and a half; it takes the next one where both allow it.
pub proof fn law_autonomous_steps_stop_at_one_and_a_half(
    run: RunView,
    plan: Plan,
    proposed: Seq<EditView>,
)
    requires
        plan.schedule is Autonomous,
        proposed.len() <= u32::MAX,
    ensures
        ({
            let p = proposal(run, plan, proposed);
            let r = rank::ranked(merge::merged(proposed));
            let n = p.patch.len() as int;
            let limit = Single { bits: 0x3fc0_0000 };
            &&& p.patch == r.take(n)
            &&& n <= p.lr_budget
            &&& !single::less(limit, scheduler::total_confidence(r, n))
            &&& n < r.len() && n < p.lr_budget ==> single::less(
                limit,
                scheduler::total_confidence(r, n + 1),
            )
        }),
{
    let r = rank::ranked(merge::merged(proposed));
    law_proposals_apply_the_highest_ranked(run, plan, proposed);
    let limit = Single { bits: 0x3fc0_0000 };
    scheduler::law_autonomous_selection_is_bounded(r, limit, budget_of(run, plan) as int);
    assert(limit.order() == 0x3fc0_0000 && single::zero().order() == 0);
}

} // verus!
