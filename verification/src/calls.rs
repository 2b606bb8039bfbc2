//! What the functions of the library do, told by what they are called with and what they give back.

use vstd::prelude::*;
use crate::adapter;
use crate::adapter::{Dialogue, Turn};
use crate::artifacts;
use crate::calculator;
use crate::calculator::{CalcNumber, CalcOutcome};
use crate::data;
use crate::distance;
use crate::gate;
use crate::gate::{GateInput, GateOutput};
use crate::gradient;
use crate::gradient::{ReflectBatch, Reflection};
use crate::memory;
use crate::merge;
use crate::numbers;
use crate::numeric;
use crate::openai;
use crate::openai::{ChatCall, ChatEvent, ChatRun, ChatStep};
use crate::patch;
use crate::rank;
use crate::scheduler;
use crate::scheduler::LrSchedule;
use crate::scoring;
use crate::single;
use crate::single::Single;
use crate::single_laws;
use crate::text;
use crate::train;
use crate::train::{Action, Piece, Plan, Proposal, Round, Run};
use crate::types;
use crate::types::{ChatMessageView, Edit, EditOp, EditView, GateDecision, RuntimeState, StepBuffer};
use crate::types::{TaskItem, Trajectory, TrajectoryView};

verus! {

// ---------------------------------------------------------------------------------------------
// Edits
// ---------------------------------------------------------------------------------------------

/// Where the anchor of an edit first stands behind `before`, with `rest` behind it on its line: a `Replace`
/// gives the document with the content in the place of both, a `Delete` the document without them and
/// without the line feed there, and an `Add` the document with the content on a line of its own below.
pub proof fn law_applying_an_edit_changes_one_line(
    doc: Vec<char>,
    e: &Edit,
    out: Vec<char>,
    before: Seq<char>,
    rest: Seq<char>,
    after: Seq<char>,
)
    requires
        call_ensures(patch::apply_edit, (doc, e), out),
        e.anchor@.len() > 0,
        doc@ == before + e.anchor@ + rest + after,
        forall|i: int|
            0 <= i < before.len() ==> #[trigger] doc@.subrange(i, i + e.anchor@.len()) != e.anchor@,
        forall|i: int| 0 <= i < rest.len() ==> rest[i] != '\n',
        after.len() > 0 ==> after[0] == '\n',
    ensures
        e.op == EditOp::Replace ==> out@ == before + e.content@ + after,
        e.op == EditOp::Delete && after.len() == 0 ==> out@ == before,
        e.op == EditOp::Delete && after.len() > 0 ==> out@ == before + after.skip(1),
        e.op == EditOp::Add ==> out@ == before + e.anchor@ + rest + seq!['\n'] + e.content@ + after,
{
    match e.op {
        EditOp::Replace => patch::law_replace_swaps_to_the_end_of_the_line(before, rest, after, e@),
        EditOp::Delete => patch::law_delete_takes_out_to_the_end_of_the_line(before, rest, after, e@),
        EditOp::Add => patch::law_add_goes_below_the_line(before, rest, after, e@),
    }
}

/// Where the anchor of an edit is not in the document, the content goes to its end, on a line of its own, and
/// a `Delete` changes nothing; with an empty anchor a `Replace` changes nothing either.
pub proof fn law_applying_an_edit_elsewhere_appends(doc: Vec<char>, e: &Edit, out: Vec<char>)
    requires
        call_ensures(patch::apply_edit, (doc, e), out),
        e.anchor@.len() == 0 || forall|i: int|
            0 <= i && i + e.anchor@.len() <= doc@.len() ==> #[trigger] doc@.subrange(
                i,
                i + e.anchor@.len(),
            ) != e.anchor@,
    ensures
        e.op == EditOp::Delete ==> out@ == doc@,
        e.op == EditOp::Add ==> out@ == doc@ + seq!['\n'] + e.content@ + seq!['\n'],
        e.op == EditOp::Replace && e.anchor@.len() == 0 ==> out@ == doc@,
        e.op == EditOp::Replace && e.anchor@.len() > 0 ==> out@ == doc@ + seq!['\n'] + e.content@
            + seq!['\n'],
{
    if e.anchor@.len() == 0 {
        patch::law_empty_anchors_only_add(doc@, e@);
    } else {
        patch::law_without_the_anchor_content_goes_last(doc@, e@);
    }
}

/// A patch of no edits changes nothing, one of a single edit does what the edit does, and one of two parts
/// does what the second part does to what the first one gives.
pub proof fn law_applying_a_patch_applies_its_edits(
    skill: &str,
    first: &[Edit],
    between: &str,
    second: &[Edit],
    both: &[Edit],
    once: String,
    twice: String,
    together: String,
)
    requires
        call_ensures(patch::apply_patch, (skill, first), once),
        call_ensures(patch::apply_patch, (between, second), twice),
        call_ensures(patch::apply_patch, (skill, both), together),
        between@ == once@,
        both@ == first@ + second@,
    ensures
        together@ == twice@,
        first@.len() == 0 ==> once@ == skill@,
        forall|doc: Vec<char>, out: Vec<char>|
            #![trigger call_ensures(patch::apply_edit, (doc, &first@[0]), out)]
            first@.len() == 1 && doc@ == skill@ && call_ensures(
                patch::apply_edit,
                (doc, &first@[0]),
                out,
            ) ==> out@ == once@,
{
    let (a, b) = (types::edit_views(first@), types::edit_views(second@));
    assert(types::edit_views(both@) =~= a + b);
    patch::law_patches_compose(skill@, a, b);
    if first@.len() == 1 {
        assert(a =~= seq![first@[0]@]);
        patch::law_edits_act_in_order(skill@, first@[0]@, Seq::empty());
    }
}

// ---------------------------------------------------------------------------------------------
// Ranks
// ---------------------------------------------------------------------------------------------

/// The rank that an edit is given goes with the square root of its support: with a support of `k * k` it is
/// `k` times the utility, and with a support of one it is the utility.
pub proof fn law_ranks_go_with_the_root_of_support(e: &Edit, r: Single, k: nat)
    requires
        call_ensures(rank::key_of, (e,), r),
        1 <= k <= 0x1000,
        e.support_count == k * k,
    ensures
        r == single::product(e.utility, single::counted(k)),
        k == 1 && e.utility.is_finite() ==> r == e.utility,
{
    rank::law_rank_grows_with_the_root_of_support(e@, k);
}

/// Whatever the support, the rank is the utility times a number whose square is nearest to it: half way to
/// the numbers beside that one, the squares lie on either side of the support as it is held.
pub proof fn law_ranks_are_utility_times_a_root(e: &Edit, r: Single)
    requires
        call_ensures(rank::key_of, (e,), r),
        e.support_count > 0,
    ensures
        exists|w: Single|
            {
                &&& r == #[trigger] single::product(e.utility, w)
                &&& w.is_finite() && !w.negative() && w.place() >= 1
                &&& (single::magnitude((w.place() - 1) as nat) + single::magnitude(w.place())) * (
                single::magnitude((w.place() - 1) as nat) + single::magnitude(w.place())) <= 4
                    * single::counted(e.support_count as nat).value()
                    * vstd::arithmetic::power2::pow2(149) <= (single::magnitude(w.place())
                    + single::magnitude(w.place() + 1)) * (single::magnitude(w.place())
                    + single::magnitude(w.place() + 1))
            },
{
    rank::law_rank_is_utility_times_root_of_support(e@);
}

/// Ranking gives all edits back, from the highest rank to the lowest.
pub proof fn law_ranking_gives_all_back_in_order(
    edits: Vec<Edit>,
    r: Vec<Edit>,
    i: int,
    j: int,
    a: Single,
    b: Single,
)
    requires
        call_ensures(rank::rank, (edits,), r),
        forall|k: int| 0 <= k < edits@.len() ==> (#[trigger] edits@[k]).utility.is_finite(),
        0 <= i < j < r@.len(),
        call_ensures(rank::key_of, (&r@[i],), a),
        call_ensures(rank::key_of, (&r@[j],), b),
    ensures
        types::edit_views(r@).to_multiset() == types::edit_views(edits@).to_multiset(),
        r@.len() == edits@.len(),
        single::at_most(b, a),
{
    let s = types::edit_views(edits@);
    assert forall|k: int| 0 <= k < s.len() implies (#[trigger] s[k]).utility.is_finite() by {
        assert(s[k] == edits@[k]@);
    }
    rank::law_finite_utilities_have_ranks(s);
    rank::law_ranking_reorders(s);
    rank::law_ranking_descends(s);
    assert(rank::ranked(s)[i] == r@[i]@ && rank::ranked(s)[j] == r@[j]@);
}

/// Selecting gives the first of what ranking gives, as many as the budget says.
pub proof fn law_selecting_gives_the_first_of_the_ranking(
    edits: Vec<Edit>,
    lr_budget: u32,
    all: Vec<Edit>,
    r: Vec<Edit>,
)
    requires
        call_ensures(rank::rank, (edits,), all),
        call_ensures(rank::rank_and_select, (edits, lr_budget), r),
    ensures
        r@.len() == (if lr_budget < edits@.len() {
            lr_budget as nat
        } else {
            edits@.len()
        }),
        types::edit_views(r@) == types::edit_views(all@).take(r@.len() as int),
{
    rank::law_ranking_reorders(types::edit_views(edits@));
    let n = if lr_budget < edits@.len() {
        lr_budget as int
    } else {
        edits@.len() as int
    };
    assert(types::edit_views(r@).len() == n);
}

// ---------------------------------------------------------------------------------------------
// Reflection
// ---------------------------------------------------------------------------------------------

/// What is asked of the optimizer model names the kind of the minibatch and shows the skill, each under its
/// heading, and it shows every trajectory: its item, its score and its prediction.
pub proof fn law_reflecting_shows_every_trajectory<'a>(
    skill: &str,
    batch: &ReflectBatch<'_>,
    buffer: &StepBuffer,
    temperature: Single,
    effort: &'a str,
    r: ChatCall<'a>,
    i: int,
)
    requires
        call_ensures(gradient::reflect_call, (skill, batch, buffer, temperature, effort), r),
        0 <= i < batch.trajectories@.len(),
    ensures
        r.messages@.len() == 2,
        r.messages@[0].role@ == "system"@ && r.messages@[1].role@ == "user"@,
        ({
            let t = batch.trajectories@[i];
            let head = "MINIBATCH KIND: "@ + batch.kind@ + "\n\n=== CURRENT SKILL ===\n"@ + skill@
                + "\n\n=== TRAJECTORIES ===\n"@;
            let block = "\n---\nitem: "@ + t.item_id@ + "\nscore: "@ + numbers::fixed2(t.score)
                + "\nprediction: "@ + t.prediction@ + "\n"@;
            exists|x: Seq<char>, y: Seq<char>|
                r.messages@[1].content@ == #[trigger] (head + x + block + y)
        }),
        !r.to_target && r.options.json,
{
    let s = types::trajectory_views(batch.trajectories@);
    let t = batch.trajectories@[i];
    let m = types::message_views(r.messages@);
    assert(m.len() == 2);
    assert(r.messages@[0]@ == m[0] && r.messages@[1]@ == m[1]);
    let head = "MINIBATCH KIND: "@ + batch.kind@ + "\n\n=== CURRENT SKILL ===\n"@ + skill@
        + "\n\n=== TRAJECTORIES ===\n"@;
    let block = "\n---\nitem: "@ + t.item_id@ + "\nscore: "@ + numbers::fixed2(t.score)
        + "\nprediction: "@ + t.prediction@ + "\n"@;
    let (before, after) = (s.take(i), s.skip(i + 1));
    assert(s =~= before + seq![t@] + after);
    gradient::law_reflection_shows_every_trajectory(skill@, batch.kind@, before, t@, after, buffer@);
    let (x, y) = choose|x: Seq<char>, y: Seq<char>|
        #[trigger] gradient::shows(skill@, batch.kind@, before, buffer@, x)
            && #[trigger] gradient::shows(skill@, batch.kind@, after, buffer@, y) && gradient::shows(
            skill@,
            batch.kind@,
            s,
            buffer@,
            x + gradient::trajectory_block(t@) + y,
        );
    let bare = types::TrajectoryView { messages: Seq::empty(), ..t@ };
    gradient::law_trajectories_show_item_score_and_prediction(bare);
    let said = text::glued(
        t@.messages.map_values(|m: ChatMessageView| gradient::message_line(m)),
    );
    assert(gradient::trajectory_block(t@) == block + said);
    let tail = "\n\n=== BUFFER ===\n"@ + gradient::buffer_text(buffer@);
    let rest = said + y + tail;
    assert(head + (x + (block + said) + y) + tail =~= head + x + block + rest);
    assert(r.messages@[1].content@ == head + x + block + rest);
}

// ---------------------------------------------------------------------------------------------
// Agents in a small world
// ---------------------------------------------------------------------------------------------

/// A reply whose lower case holds "action: done" or "action:done" ends the conversation: it is the answer,
/// and nothing is said behind it.
pub proof fn law_acting_ends_when_it_is_done(
    dialogue: Dialogue,
    reply: &str,
    r: Turn,
    a: Seq<char>,
    b: Seq<char>,
)
    requires
        call_ensures(adapter::act, (dialogue, reply), r),
        scoring::lowercase(reply@) == a + "action: done"@ + b || scoring::lowercase(reply@) == a
            + "action:done"@ + b,
    ensures
        r.done,
        r.dialogue.prediction@ == reply@,
        r.dialogue.replies == dialogue.replies + 1,
        r.dialogue.messages@.len() == dialogue.messages@.len() + 1,
        types::message_views(r.dialogue.messages@) == types::message_views(dialogue.messages@).push(
            ChatMessageView { role: "assistant"@, content: reply@ },
        ),
{
    adapter::law_agents_that_are_done_end(dialogue@, reply@, a, b);
    assert(types::message_views(r.dialogue.messages@).len() == r.dialogue.messages@.len());
}

/// Any other reply is answered, and ends the conversation only where it is the sixth.
pub proof fn law_acting_goes_on_until_it_is_done(dialogue: Dialogue, reply: &str, r: Turn)
    requires
        call_ensures(adapter::act, (dialogue, reply), r),
        forall|i: int|
            0 <= i && i + 12 <= scoring::lowercase(reply@).len() ==> #[trigger] scoring::lowercase(
                reply@,
            ).subrange(i, i + 12) != "action: done"@,
        forall|i: int|
            0 <= i && i + 11 <= scoring::lowercase(reply@).len() ==> #[trigger] scoring::lowercase(
                reply@,
            ).subrange(i, i + 11) != "action:done"@,
    ensures
        r.done == (dialogue.replies >= 5),
        r.dialogue.prediction@ == reply@,
        r.dialogue.replies == dialogue.replies + 1,
        types::message_views(r.dialogue.messages@) == types::message_views(dialogue.messages@).push(
            ChatMessageView { role: "assistant"@, content: reply@ },
        ).push(ChatMessageView { role: "user"@, content: "OBSERVATION: ok. Continue."@ }),
{
    adapter::law_agents_that_are_not_done_go_on(dialogue@, reply@);
}

// ---------------------------------------------------------------------------------------------
// Runs
// ---------------------------------------------------------------------------------------------

/// A run takes the steps of its epoch one after the other, each with a seed of its own, and then ends the
/// epoch: with a slow update and a memo from the second epoch on, as the plan has them, and without in the
/// first; after the last epoch it is over.
pub proof fn law_runs_take_steps_and_end_epochs(run: &Run, plan: &Plan, r: Action, done: nat)
    requires
        call_ensures(Run::next_action, (run, plan), r),
        1 <= run.epoch,
        done <= plan.steps_per_epoch,
        run.step == (run.epoch - 1) * plan.steps_per_epoch + done,
    ensures
        run.epoch > plan.num_epochs ==> r == Action::Finish,
        run.epoch <= plan.num_epochs && done < plan.steps_per_epoch ==> r == (Action::Step {
            seed: (1000 * run.epoch + done) as u64,
        }),
        run.epoch == 1 && run.epoch <= plan.num_epochs && done == plan.steps_per_epoch ==> r == (
        Action::EndEpoch { slow_update: false, memo: false }),
        2 <= run.epoch <= plan.num_epochs && done == plan.steps_per_epoch ==> r == (
        Action::EndEpoch { slow_update: plan.use_slow_update, memo: plan.use_meta_skill }),
{
    train::law_epochs_go_through_steps_and_end(run@, *plan, done);
}

/// Trajectories are parted by whether they score above one half, and each part keeps its order.
pub proof fn law_parting_goes_by_one_half(
    all: Vec<Trajectory>,
    r: (Vec<Trajectory>, Vec<Trajectory>),
)
    requires
        call_ensures(train::partition, (all,), r),
    ensures
        types::trajectory_views(r.0@) == types::trajectory_views(all@).filter(
            |t: TrajectoryView| single::less(Single { bits: 0x3f00_0000 }, t.score),
        ),
        types::trajectory_views(r.1@) == types::trajectory_views(all@).filter(
            |t: TrajectoryView| !single::less(Single { bits: 0x3f00_0000 }, t.score),
        ),
{
    assert(train::succeeded() =~= (|t: TrajectoryView| single::less(
        Single { bits: 0x3f00_0000 },
        t.score,
    )));
    assert(train::failed() =~= (|t: TrajectoryView| !single::less(
        Single { bits: 0x3f00_0000 },
        t.score,
    )));
}

/// Every element of a list is in one minibatch, the one that as many whole ones stand before as go into its
/// place; minibatches begin at multiples of the size and end where the next begins, or with the list.
pub proof fn law_minibatches_take_in_everything(len: usize, size: usize, r: Vec<Piece>, k: int)
    requires
        call_ensures(train::minibatches, (len, size), r),
        size > 0,
        0 <= k < len,
    ensures
        0 <= k / (size as int) < r@.len(),
        r@[k / (size as int)].from == size * (k / (size as int)),
        r@[k / (size as int)].from <= k < r@[k / (size as int)].to,
        forall|i: int|
            0 <= i < r@.len() ==> (#[trigger] r@[i]).to == (if i + 1 < r@.len() {
                r@[i + 1].from
            } else {
                len
            }),
{
    let p = train::pieces_from(len as int, size as int, 0);
    train::law_every_element_is_in_a_piece(len as int, size as int, k);
    assert(train::piece_views(r@)[k / (size as int)] == p[k / (size as int)]);
    assert forall|i: int| 0 <= i < r@.len() implies (#[trigger] r@[i]).to == (if i + 1 < r@.len() {
        r@[i + 1].from
    } else {
        len
    }) by {
        train::law_pieces_cover_the_list(len as int, size as int, 0, i);
        assert(train::piece_views(r@)[i] == p[i]);
        if i + 1 < r@.len() {
            assert(train::piece_views(r@)[i + 1] == p[i + 1]);
        } else {
            assert(p.last() == p[i]);
        }
    }
}

/// A step reflects on the minibatches of its failures, and then on those of its successes.
pub proof fn law_failures_are_reflected_on_first(
    failures: usize,
    successes: usize,
    size: usize,
    r: Vec<Round>,
    first: Vec<Piece>,
    second: Vec<Piece>,
    i: int,
)
    requires
        call_ensures(train::reflection_rounds, (failures, successes, size), r),
        call_ensures(train::minibatches, (failures, size), first),
        call_ensures(train::minibatches, (successes, size), second),
    ensures
        r@.len() == first@.len() + second@.len(),
        0 <= i < first@.len() ==> r@[i].failure && r@[i].piece == first@[i],
        0 <= i < second@.len() ==> !r@[first@.len() + i].failure && r@[first@.len() + i].piece
            == second@[i],
{
    let v = train::round_views(r@);
    let (a, b) = (train::piece_views(first@), train::piece_views(second@));
    let n = first@.len();
    assert(v.len() == a.len() + b.len());
    if 0 <= i < n {
        assert(v[i] == (true, a[i].0, a[i].1));
        assert(v[i] == (r@[i].failure, r@[i].piece.from as int, r@[i].piece.to as int));
    }
    if 0 <= i < second@.len() {
        let q = r@[n + i];
        assert(v[n + i] == (false, b[i].0, b[i].1));
        assert(v[n + i] == (q.failure, q.piece.from as int, q.piece.to as int));
    }
}

/// A round is called by what it is on.
pub proof fn law_rounds_are_called_by_their_kind(round: &Round, r: &'static str)
    requires
        call_ensures(Round::kind, (round,), r),
    ensures
        round.failure ==> r@ == "failure"@,
        !round.failure ==> r@ == "success"@,
{
}

/// What two skills made of items is paired up place by place, as far as both lists go, where it is about the
/// same item: one pair more where the last two are, and none more where they are not.
pub proof fn law_pairing_goes_place_by_place(
    previous: Vec<Trajectory>,
    current: Vec<Trajectory>,
    longer: Vec<Trajectory>,
    also: Vec<Trajectory>,
    a: Trajectory,
    b: Trajectory,
    r: Vec<(Trajectory, Trajectory)>,
    more: Vec<(Trajectory, Trajectory)>,
)
    requires
        call_ensures(train::pair_up, (previous, current), r),
        call_ensures(train::pair_up, (longer, also), more),
        previous@.len() == current@.len(),
        longer@ == previous@.push(a),
        also@ == current@.push(b),
    ensures
        previous@.len() == 0 ==> r@.len() == 0,
        a.item_id@ == b.item_id@ ==> memory::pair_views(more@) == memory::pair_views(r@).push((a@, b@)),
        a.item_id@ != b.item_id@ ==> memory::pair_views(more@) == memory::pair_views(r@),
{
    let (x, y) = (types::trajectory_views(previous@), types::trajectory_views(current@));
    let (u, v) = (types::trajectory_views(longer@), types::trajectory_views(also@));
    let f = |p: (TrajectoryView, TrajectoryView)| train::same_item(p);
    let s = train::side_by_side(x, y);
    assert(train::side_by_side(u, v) =~= s.push((a@, b@)));
    s.lemma_filter_push((a@, b@), f);
    if previous@.len() == 0 {
        assert(s =~= Seq::empty());
        reveal(Seq::filter);
        assert(memory::pair_views(r@).len() == 0);
    }
}

/// The mean score of trajectories is the mean of their scores.
pub proof fn law_mean_scores_are_means_of_scores(
    trajectories: &[Trajectory],
    r: Single,
    xs: &[Single],
    m: Single,
)
    requires
        call_ensures(train::mean_score, (trajectories,), r),
        call_ensures(scoring::mean, (xs,), m),
        xs@.len() == trajectories@.len(),
        forall|i: int| 0 <= i < xs@.len() ==> #[trigger] xs@[i] == trajectories@[i].score,
    ensures
        r == m,
{
    assert(train::scores(types::trajectory_views(trajectories@)) =~= xs@);
}

/// The mean of nothing is zero; where scores are zeros and ones, it is the share of the ones.
pub proof fn law_means_are_shares_of_ones(xs: &[Single], r: Single)
    requires
        call_ensures(scoring::mean, (xs,), r),
        forall|i: int|
            0 <= i < xs@.len() ==> (#[trigger] xs@[i]).bits == 0 || xs@[i].bits == 0x3f80_0000,
        xs@.len() <= 0x100_0000,
    ensures
        xs@.len() == 0 ==> r.bits == 0,
        xs@.len() > 0 ==> r == single::quotient(
            single::counted(scoring::ones(xs@)),
            single::counted(xs@.len()),
        ),
{
    if xs@.len() > 0 {
        assert forall|i: int| 0 <= i < xs@.len() implies #[trigger] xs@[i] == single::zero() || xs@[i]
            == single::one() by {}
        scoring::law_mean_counts_the_ones(xs@);
    }
}

/// A plan takes over what the configuration says, and counts as many steps as it takes to go through all
/// items in steps of the batch size times the accumulation.
pub proof fn law_plans_take_over_the_configuration(cfg: &crate::config::Config, r: Plan)
    requires
        call_ensures(train::plan, (cfg,), r),
        0 < cfg.train.batch_size * cfg.train.accumulation <= usize::MAX,
        0 < cfg.train.train_size <= 0x100_0000,
    ensures
        r.num_epochs == cfg.train.num_epochs,
        r.steps_per_epoch * (cfg.train.batch_size * cfg.train.accumulation) >= cfg.train.train_size,
        (r.steps_per_epoch - 1) * (cfg.train.batch_size * cfg.train.accumulation)
            < cfg.train.train_size,
        r.total_steps == r.num_epochs * r.steps_per_epoch,
        cfg.optimizer.lr_schedule@ == "constant"@ ==> r.schedule is Constant,
        cfg.optimizer.lr_schedule@ == "linear"@ ==> r.schedule is Linear,
        cfg.optimizer.lr_schedule@ == "cosine"@ ==> r.schedule is Cosine,
        cfg.optimizer.lr_schedule@ == "autonomous"@ ==> r.schedule is Autonomous,
        r.learning_rate == cfg.optimizer.learning_rate,
        r.use_rejected_buffer == cfg.optimizer.use_rejected_buffer,
        r.use_slow_update == cfg.optimizer.use_slow_update,
        r.use_meta_skill == cfg.optimizer.use_meta_skill,
{
    train::law_steps_go_through_accumulated_batches(*cfg);
    scheduler::law_schedules_are_known_by_name(cfg.optimizer.lr_schedule@);
}

/// A run starts at the first epoch before its first step, with one skill that is the best so far, and with
/// nothing remembered.
pub proof fn law_runs_start_before_their_first_step(skill: String, baseline: Single, r: Run)
    requires
        call_ensures(Run::start, (skill, baseline), r),
    ensures
        r.skill@ == skill@ && r.best_skill@ == skill@ && r.previous_skill@ == skill@,
        r.current_score == baseline && r.best_score == baseline,
        r.epoch == 1 && r.step == 0,
        r.buffer.failure_patterns@.len() == 0 && r.buffer.rejected@.len() == 0,
        r.history@.len() == 0,
{
    assert(r@.buffer.failure_patterns.len() == 0 && r@.buffer.rejected.len() == 0);
    assert(r@.history.len() == 0);
}

/// The pool of a run, the batches of its steps and the items that its epochs are compared on are drawn with
/// the sizes that the configuration has for them.
pub proof fn law_draws_go_by_the_configuration(
    items: &[TaskItem],
    cfg: &crate::config::Config,
    seed: u64,
    pool: Vec<TaskItem>,
    same_pool: Vec<TaskItem>,
    batch: Vec<TaskItem>,
    same_batch: Vec<TaskItem>,
    pairs: Vec<TaskItem>,
    same_pairs: Vec<TaskItem>,
)
    requires
        call_ensures(train::draw_pool, (items, cfg), pool),
        call_ensures(data::sample_batch, (items, cfg.train.train_size, 42u64), same_pool),
        call_ensures(train::draw_batch, (items, cfg, seed), batch),
        call_ensures(data::sample_batch, (items, cfg.train.batch_size, seed), same_batch),
        call_ensures(train::draw_pairs, (items, cfg), pairs),
        call_ensures(data::sample_batch, (items, cfg.gradient.merge_batch_size, 7u64), same_pairs),
    ensures
        types::item_views(pool@) == types::item_views(same_pool@),
        types::item_views(batch@) == types::item_views(same_batch@),
        types::item_views(pairs@) == types::item_views(same_pairs@),
{
}

/// A batch that may hold all items holds them in their order; a smaller one holds as many as it may, and is
/// the beginning of every larger one that the same seed draws.
pub proof fn law_batches_are_beginnings_of_larger_ones(
    items: &[TaskItem],
    small: usize,
    large: usize,
    seed: u64,
    a: Vec<TaskItem>,
    b: Vec<TaskItem>,
)
    requires
        call_ensures(data::sample_batch, (items, small, seed), a),
        call_ensures(data::sample_batch, (items, large, seed), b),
        0 < small <= large,
    ensures
        items@.len() <= small ==> types::item_views(a@) == types::item_views(items@),
        small <= items@.len() ==> a@.len() == small,
        large < items@.len() ==> types::item_views(a@) == types::item_views(b@).take(small as int),
        types::item_views(items@).no_duplicates() ==> types::item_views(a@).no_duplicates(),
        forall|i: int|
            0 <= i < a@.len() ==> types::item_views(items@).contains(
                #[trigger] types::item_views(a@)[i],
            ),
{
    let s = types::item_views(items@);
    data::law_batches_repeat_nothing(types::item_views(a@), s);
    if large < items@.len() {
        data::law_batches_go_by_the_order_of_the_seed(s, small as nat, large as nat, seed, 0);
    }
}

/// Picking takes the items at the first places of an order.
pub proof fn law_picking_takes_the_first_places(
    items: &[TaskItem],
    order: &Vec<usize>,
    n: usize,
    r: Vec<TaskItem>,
    i: int,
)
    requires
        call_ensures(data::pick, (items, order, n), r),
        0 <= i < n <= order@.len(),
        order@[i] < items@.len(),
    ensures
        r@.len() == n,
        r@[i]@ == items@[order@[i] as int]@,
{
    let v = types::item_views(r@);
    assert(v.len() == n);
    assert(v[i] == r@[i]@);
    assert(types::item_views(items@)[order@[i] as int] == items@[order@[i] as int]@);
}

// ---------------------------------------------------------------------------------------------
// Budgets
// ---------------------------------------------------------------------------------------------

/// The budget of a step is at least one edit and at most the base, and no larger than that of an earlier
/// step; a constant or an autonomous schedule keeps the base, and so does every schedule at the first step.
pub proof fn law_budgets_fall_from_the_base(
    sched: &LrSchedule,
    a: u32,
    b: u32,
    total: u32,
    base: u32,
    early: u32,
    late: u32,
)
    requires
        call_ensures(scheduler::compute_lr, (sched, a, total, base), early),
        call_ensures(scheduler::compute_lr, (sched, b, total, base), late),
        a <= b,
        1 <= base <= 0x100_0000,
    ensures
        1 <= late <= early <= base,
        *sched is Constant || *sched is Autonomous || a == 0 || total == 0 ==> early == base,
        (*sched is Linear || *sched is Cosine) && 0 < total <= b ==> late == 1,
{
    scheduler::law_budget_falls_from_base_to_one(*sched, a, b, total, base);
    scheduler::law_constant_budget_is_the_base(a, total, base);
}

/// A linear budget is no further from the straight line from the base to one than a half and a sixteenth of
/// an edit.
pub proof fn law_linear_budgets_keep_to_the_line(
    sched: &LrSchedule,
    step: u32,
    total: u32,
    base: u32,
    r: u32,
)
    requires
        call_ensures(scheduler::compute_lr, (sched, step, total, base), r),
        *sched is Linear,
        step <= total,
        0 < total <= 0x100_0000,
        1 <= base <= 0x1_0000,
    ensures
        16 * single_laws::apart(r * total, base * total - (base - 1) * step) <= 9 * total,
{
    scheduler::law_linear_budget_keeps_to_the_line(step, total, base);
}

/// A cosine budget is no further from `1 + (base - 1) * (1 + c) / 2` than a half and a sixteenth of an edit,
/// `c` being what the cosine of pi times the share of the steps that are done comes to.
pub proof fn law_cosine_budgets_keep_to_the_wave(
    sched: &LrSchedule,
    step: u32,
    total: u32,
    base: u32,
    r: u32,
    turn: Single,
    c: Single,
)
    requires
        call_ensures(scheduler::compute_lr, (sched, step, total, base), r),
        *sched is Cosine,
        step <= total,
        0 < total,
        1 <= base <= 0x1_0000,
        turn == single::product(
            Single { bits: 0x4049_0fdb },
            single::quotient(single::counted(step as nat), single::counted(total as nat)),
        ),
        call_ensures(crate::cosine::cosine, (turn,), c),
    ensures
        ({
            let one = vstd::arithmetic::power2::pow2(149) as int;
            16 * single_laws::apart(r * (2 * one), 2 * one + (base - 1) * (one + c.value())) <= 18
                * one
        }),
{
    scheduler::law_cosine_budget_keeps_to_the_wave(step, total, base);
    scheduler::lemma_progress_is_the_share(step, total);
}

/// A schedule is made from its name, and from any other name a cosine.
pub proof fn law_schedules_are_made_from_names(s: &str, r: LrSchedule)
    requires
        call_ensures(LrSchedule::from_str, (s,), r),
    ensures
        s@ == "constant"@ ==> r is Constant,
        s@ == "linear"@ ==> r is Linear,
        s@ == "autonomous"@ ==> r is Autonomous,
        s@ != "constant"@ && s@ != "linear"@ && s@ != "autonomous"@ ==> r is Cosine,
{
    scheduler::law_schedules_are_known_by_name(s@);
}

/// Selecting by confidence gives the first of what ranking gives: no more than the cap, as long as their
/// confidence stays within the limit, and no fewer than both allow.
pub proof fn law_selecting_by_confidence_stops_at_the_limit(
    edits: Vec<Edit>,
    limit: Single,
    cap: u32,
    all: Vec<Edit>,
    r: Vec<Edit>,
)
    requires
        call_ensures(rank::rank, (edits,), all),
        call_ensures(scheduler::autonomous_select, (edits, limit, cap), r),
    ensures
        ({
            let (s, n) = (types::edit_views(all@), r@.len() as int);
            &&& n <= cap && n <= edits@.len()
            &&& types::edit_views(r@) == s.take(n)
            &&& !single::less(limit, Single { bits: 0 }) ==> !single::less(
                limit,
                scheduler::total_confidence(s, n),
            )
            &&& n < s.len() && n < cap ==> single::less(limit, scheduler::total_confidence(s, n + 1))
        }),
{
    let s = types::edit_views(all@);
    rank::law_ranking_reorders(types::edit_views(edits@));
    scheduler::law_autonomous_selection_is_bounded(s, limit, cap as int);
    assert(types::edit_views(r@).len() == r@.len());
}

// ---------------------------------------------------------------------------------------------
// Merging, proposing and deciding
// ---------------------------------------------------------------------------------------------

/// Merging one more proposal either puts it behind the others, where it makes a change that none of them
/// makes, or adds its support to the one that makes that change and moves that one's utility half way.
pub proof fn law_merging_takes_in_one_more(
    failure: Vec<Edit>,
    success: Vec<Edit>,
    longer: Vec<Edit>,
    e: Edit,
    out: Vec<Edit>,
    more: Vec<Edit>,
    at: int,
)
    requires
        call_ensures(merge::merge_patches, (failure, success), out),
        call_ensures(merge::merge_patches, (failure, longer), more),
        longer@ == success@.push(e),
    ensures
        failure@.len() == 0 && success@.len() == 0 ==> out@.len() == 0,
        (forall|i: int|
            0 <= i < out@.len() ==> !((#[trigger] out@[i]).op == e.op && out@[i].anchor@ == e.anchor@
                && out@[i].content@ == e.content@)) ==> types::edit_views(more@)
            == types::edit_views(out@).push(e@),
        ({
            &&& 0 <= at < out@.len()
            &&& out@[at].op == e.op && out@[at].anchor@ == e.anchor@ && out@[at].content@
                == e.content@
            &&& forall|i: int|
                0 <= i < at ==> !((#[trigger] out@[i]).op == e.op && out@[i].anchor@ == e.anchor@
                    && out@[i].content@ == e.content@)
            &&& out@[at].support_count + e.support_count <= u32::MAX
        }) ==> {
            &&& more@.len() == out@.len()
            &&& more@[at].support_count == out@[at].support_count + e.support_count
            &&& more@[at].utility == single::quotient(
                single::sum(out@[at].utility, e.utility),
                Single { bits: 0x4000_0000 },
            )
            &&& more@[at].op == out@[at].op && more@[at].anchor@ == out@[at].anchor@
            &&& more@[at].content@ == out@[at].content@ && more@[at].rationale@
                == out@[at].rationale@
            &&& forall|i: int|
                0 <= i < more@.len() && i != at ==> (#[trigger] more@[i])@ == out@[i]@
        },
{
    let s = types::edit_views(failure@) + types::edit_views(success@);
    let m = types::edit_views(out@);
    assert(types::edit_views(failure@) + types::edit_views(longer@) =~= s.push(e@));
    assert(m == merge::merged(s));
    assert(forall|i: int| 0 <= i < m.len() ==> #[trigger] m[i] == out@[i]@);
    if failure@.len() == 0 && success@.len() == 0 {
        assert(s =~= Seq::empty());
        assert(m.len() == 0);
    }
    if forall|i: int|
        0 <= i < out@.len() ==> !((#[trigger] out@[i]).op == e.op && out@[i].anchor@ == e.anchor@
            && out@[i].content@ == e.content@) {
        assert forall|i: int| 0 <= i < m.len() implies !((#[trigger] m[i]).op == e@.op && m[i].anchor
            == e@.anchor && m[i].content == e@.content) by {
            assert(m[i] == out@[i]@);
        }
        merge::law_new_changes_come_last(s, e@);
    } else if 0 <= at < out@.len() && out@[at].op == e.op && out@[at].anchor@ == e.anchor@
        && out@[at].content@ == e.content@ && (forall|i: int|
        0 <= i < at ==> !((#[trigger] out@[i]).op == e.op && out@[i].anchor@ == e.anchor@
            && out@[i].content@ == e.content@)) && out@[at].support_count + e.support_count
        <= u32::MAX {
        assert forall|i: int| 0 <= i < at implies !((#[trigger] m[i]).op == e@.op && m[i].anchor
            == e@.anchor && m[i].content == e@.content) by {
            assert(m[i] == out@[i]@);
        }
        assert(m[at] == out@[at]@);
        merge::law_repeated_changes_reinforce(s, e@, at);
        let after = types::edit_views(more@);
        assert(after.len() == m.len());
        assert(after[at] == more@[at]@);
        assert forall|i: int| 0 <= i < more@.len() && i != at implies (#[trigger] more@[i])@
            == out@[i]@ by {
            assert(after[i] == more@[i]@);
            assert(m[i] == out@[i]@);
        }
    }
}

/// A step proposes what its edits, merged, ranked and selected, make of the skill: the candidate is the skill
/// with the patch applied, and the numbers that it gives are those of its edits.
pub proof fn law_proposing_applies_what_is_selected(
    run: &Run,
    plan: &Plan,
    failure: Vec<Edit>,
    success: Vec<Edit>,
    r: Proposal,
    merged: Vec<Edit>,
    budget: u32,
    selected: Vec<Edit>,
    skill: &str,
    patch: &[Edit],
    candidate: String,
    hash: String,
    proposed: &str,
)
    requires
        call_ensures(Run::propose, (run, plan, failure, success), r),
        failure@.len() + success@.len() <= u32::MAX,
        call_ensures(merge::merge_patches, (failure, success), merged),
        call_ensures(
            scheduler::compute_lr,
            (&plan.schedule, run.step, plan.total_steps, plan.learning_rate),
            budget,
        ),
        plan.schedule is Autonomous ==> call_ensures(
            scheduler::autonomous_select,
            (merged, Single { bits: 0x3fc0_0000 }, budget),
            selected,
        ),
        !(plan.schedule is Autonomous) ==> call_ensures(
            rank::rank_and_select,
            (merged, budget),
            selected,
        ),
        skill@ == run.skill@,
        patch@ == selected@,
        call_ensures(patch::apply_patch, (skill, patch), candidate),
        proposed@ == candidate@,
        call_ensures(scoring::skill_hash, (proposed,), hash),
    ensures
        types::edit_views(r.patch@) == types::edit_views(selected@),
        r.candidate@ == candidate@,
        r.lr_budget == budget,
        r.n_proposed == merged@.len(),
        r.n_selected == selected@.len(),
        r.skill_hash@ == hash@,
{
    let s = types::edit_views(failure@) + types::edit_views(success@);
    let m = merge::merged(s);
    train::law_proposals_apply_the_highest_ranked(run@, *plan, s);
    rank::law_ranking_reorders(m);
    assert(types::edit_views(merged@) == m);
    assert(m.len() == merged@.len());
    let views = rank::ranked(m);
    assert(views.take(views.len() as int) =~= views);
    assert(types::edit_views(selected@) =~= train::selected(s, plan.schedule, budget));
    assert(types::edit_views(selected@).len() == selected@.len());
}

/// A candidate is the new best where it beats the best by more than a ten-thousandth, is accepted where it is
/// no worse than the current skill, and is else rejected; the drop is how much lower it scores.
pub proof fn law_deciding_goes_by_two_comparisons(input: &GateInput<'_>, r: GateOutput)
    requires
        call_ensures(gate::evaluate_gate, (input,), r),
    ensures
        ({
            let beats = single::less(
                single::sum(input.best_score, Single { bits: 0x38d1_b717 }),
                input.candidate_score,
            );
            let holds = single::at_most(input.current_score, input.candidate_score);
            &&& r.decision == GateDecision::AcceptNewBest <==> beats
            &&& r.decision == GateDecision::Accept <==> !beats && holds
            &&& r.decision == GateDecision::Reject <==> !beats && !holds
        }),
        single::less(input.candidate_score, input.current_score) ==> r.score_drop
            == single::difference(input.current_score, input.candidate_score),
        single::at_most(input.current_score, input.candidate_score)
            && input.current_score.is_finite() && input.candidate_score.is_finite()
            ==> r.score_drop.bits == 0,
{
    gate::law_decisions_go_by_two_comparisons(
        input.candidate_score,
        input.current_score,
        input.best_score,
    );
}

// ---------------------------------------------------------------------------------------------
// Guidance and memos
// ---------------------------------------------------------------------------------------------

/// Guidance goes to the end of a skill that has no section for it, under its heading.
pub proof fn law_new_guidance_goes_last(
    skill: &str,
    block: &str,
    r: String,
    a: Seq<char>,
    guidance: Seq<char>,
    b: Seq<char>,
)
    requires
        call_ensures(memory::replace_slow_update_field, (skill, block), r),
        block@ == a + guidance + b,
        forall|i: int|
            0 <= i && i + 14 <= skill@.len() ==> #[trigger] skill@.subrange(i, i + 14)
                != "## Slow update"@,
        forall|i: int| 0 <= i < a.len() ==> text::is_white(#[trigger] a[i]),
        forall|i: int| 0 <= i < b.len() ==> text::is_white(#[trigger] b[i]),
        guidance.len() > 0 ==> !text::is_white(guidance[0]) && !text::is_white(guidance.last()),
    ensures
        skill@.len() > 0 && skill@.last() == '\n' ==> r@ == skill@ + "## Slow update"@ + seq!['\n']
            + guidance + seq!['\n'],
        skill@.len() == 0 || skill@.last() != '\n' ==> r@ == skill@ + seq!['\n']
            + "## Slow update"@ + seq!['\n'] + guidance + seq!['\n'],
{
    memory::law_first_guidance_comes_last(skill@, a, guidance, b);
}

/// Guidance takes the place of what the section for it holds, up to the next heading of its level; all else
/// stays.
pub proof fn law_new_guidance_replaces_the_section(
    skill: &str,
    block: &str,
    r: String,
    before: Seq<char>,
    old: Seq<char>,
    after: Seq<char>,
    a: Seq<char>,
    guidance: Seq<char>,
    b: Seq<char>,
)
    requires
        call_ensures(memory::replace_slow_update_field, (skill, block), r),
        skill@ == before + "## Slow update"@ + old + after,
        block@ == a + guidance + b,
        forall|i: int|
            0 <= i < before.len() ==> #[trigger] skill@.subrange(i, i + 14) != "## Slow update"@,
        after.len() > 0 ==> after.len() >= 4 && after.take(4) == "\n## "@,
        forall|i: int|
            before.len() <= i < before.len() + 14 + old.len() && i + 4 <= before.len() + 14 + old.len()
                + after.len() ==> #[trigger] skill@.subrange(i, i + 4) != "\n## "@,
        forall|i: int| 0 <= i < a.len() ==> text::is_white(#[trigger] a[i]),
        forall|i: int| 0 <= i < b.len() ==> text::is_white(#[trigger] b[i]),
        guidance.len() > 0 ==> !text::is_white(guidance[0]) && !text::is_white(guidance.last()),
    ensures
        r@ == before + "## Slow update"@ + seq!['\n'] + guidance + seq!['\n'] + after,
{
    memory::law_guidance_takes_the_place_of_the_section(before, old, after, a, guidance, b);
}

/// What is asked for the memo shows one pair more for one more pair, up to twenty: its item, its two scores
/// and its two predictions. Nothing is asked where there are no pairs.
pub proof fn law_asking_for_the_memo_shows_every_pair<'a>(
    pairs: &[(Trajectory, Trajectory)],
    more: &[(Trajectory, Trajectory)],
    p: (Trajectory, Trajectory),
    temperature: Single,
    effort: &'a str,
    r: Option<ChatCall<'a>>,
    s: Option<ChatCall<'a>>,
)
    requires
        call_ensures(memory::meta_skill_call, (pairs, temperature, effort), r),
        call_ensures(memory::meta_skill_call, (more, temperature, effort), s),
        more@ == pairs@.push(p),
    ensures
        r is None <==> pairs@.len() == 0,
        s is Some && s->0.messages@.len() == 2 && !s->0.to_target && !s->0.options.json,
        s->0.messages@[0].role@ == "system"@ && s->0.messages@[1].role@ == "user"@,
        ({
            let block = "\n--\nitem: "@ + p.0.item_id@ + "\nprev_score: "@ + numbers::fixed2(p.0.score)
                + "\ncurr_score: "@ + numbers::fixed2(p.1.score) + "\nprev_pred: "@
                + p.0.prediction@ + "\ncurr_pred: "@ + p.1.prediction@ + "\n"@;
            &&& pairs@.len() == 0 ==> s->0.messages@[1].content@ == block
            &&& 0 < pairs@.len() < 20 ==> s->0.messages@[1].content@ == r->0.messages@[1].content@
                + block
            &&& pairs@.len() >= 20 ==> s->0.messages@[1].content@ == r->0.messages@[1].content@
        }),
{
    let v = memory::pair_views(pairs@);
    assert(memory::pair_views(more@) =~= v.push((p.0@, p.1@)));
    memory::law_twenty_pairs_are_shown(v, (p.0@, p.1@));
    lemma_two_messages(s->0, memory::META_SYS@, memory::meta_prompt(v.push((p.0@, p.1@))));
    if pairs@.len() > 0 {
        lemma_two_messages(r->0, memory::META_SYS@, memory::meta_prompt(v));
    } else {
        assert(v =~= Seq::empty());
        assert(Seq::<char>::empty() + s->0.messages@[1].content@ =~= s->0.messages@[1].content@);
        let block = "\n--\nitem: "@ + p.0.item_id@ + "\nprev_score: "@ + numbers::fixed2(p.0.score)
            + "\ncurr_score: "@ + numbers::fixed2(p.1.score) + "\nprev_pred: "@ + p.0.prediction@
            + "\ncurr_pred: "@ + p.1.prediction@ + "\n"@;
        assert(Seq::<char>::empty() + block =~= block);
    }
}

/// What is asked for the guidance shows one pair more for one more pair, up to twenty: its item and its two
/// scores. Nothing is asked where there are no pairs.
pub proof fn law_asking_for_guidance_shows_every_pair<'a>(
    pairs: &[(Trajectory, Trajectory)],
    more: &[(Trajectory, Trajectory)],
    p: (Trajectory, Trajectory),
    temperature: Single,
    effort: &'a str,
    r: Option<ChatCall<'a>>,
    s: Option<ChatCall<'a>>,
)
    requires
        call_ensures(memory::slow_update_call, (pairs, temperature, effort), r),
        call_ensures(memory::slow_update_call, (more, temperature, effort), s),
        more@ == pairs@.push(p),
    ensures
        r is None <==> pairs@.len() == 0,
        s is Some && s->0.messages@.len() == 2 && !s->0.to_target && !s->0.options.json,
        s->0.messages@[0].role@ == "system"@ && s->0.messages@[1].role@ == "user"@,
        ({
            let block = "\n--\nitem: "@ + p.0.item_id@ + "\nprev_score: "@ + numbers::fixed2(p.0.score)
                + "\ncurr_score: "@ + numbers::fixed2(p.1.score) + "\n"@;
            &&& pairs@.len() == 0 ==> s->0.messages@[1].content@ == block
            &&& 0 < pairs@.len() < 20 ==> s->0.messages@[1].content@ == r->0.messages@[1].content@
                + block
            &&& pairs@.len() >= 20 ==> s->0.messages@[1].content@ == r->0.messages@[1].content@
        }),
{
    let v = memory::pair_views(pairs@);
    assert(memory::pair_views(more@) =~= v.push((p.0@, p.1@)));
    memory::law_twenty_pairs_are_shown(v, (p.0@, p.1@));
    lemma_two_messages(s->0, memory::SLOW_SYS@, memory::slow_prompt(v.push((p.0@, p.1@))));
    if pairs@.len() > 0 {
        lemma_two_messages(r->0, memory::SLOW_SYS@, memory::slow_prompt(v));
    } else {
        assert(v =~= Seq::empty());
        let block = "\n--\nitem: "@ + p.0.item_id@ + "\nprev_score: "@ + numbers::fixed2(p.0.score)
            + "\ncurr_score: "@ + numbers::fixed2(p.1.score) + "\n"@;
        assert(Seq::<char>::empty() + block =~= block);
    }
}

/// The two messages of a request.
proof fn lemma_two_messages(call: ChatCall<'_>, sys: Seq<char>, user: Seq<char>)
    requires
        types::message_views(call.messages@) == gradient::two_messages(sys, user),
    ensures
        call.messages@.len() == 2,
        call.messages@[0].role@ == "system"@ && call.messages@[0].content@ == sys,
        call.messages@[1].role@ == "user"@ && call.messages@[1].content@ == user,
{
    let m = types::message_views(call.messages@);
    assert(m.len() == call.messages@.len());
    assert(m[0] == call.messages@[0]@ && m[1] == call.messages@[1]@);
}

// ---------------------------------------------------------------------------------------------
// What a reflection proposes
// ---------------------------------------------------------------------------------------------

/// The edits that a reflection proposed are taken over one by one, from the whole answer where that can be
/// read, else from the stretch of it in braces; each says where it came from and counts for at least one.
pub proof fn law_finishing_takes_every_edit_over(
    direct: Option<Reflection>,
    extracted: Option<Reflection>,
    kind: &str,
    r: (Vec<Edit>, Vec<String>),
    i: int,
)
    requires
        call_ensures(gradient::finish_reflection, (direct, extracted, kind), r),
    ensures
        direct is None && extracted is None ==> r.0@.len() == 0 && r.1@.len() == 0,
        ({
            let found = if direct is Some {
                direct->0
            } else {
                extracted->0
            };
            direct is Some || extracted is Some ==> {
                &&& r.0@.len() == found.edits@.len()
                &&& text::texts(r.1@) == text::texts(found.failure_patterns@)
                &&& 0 <= i < r.0@.len() ==> {
                    let (e, made) = (found.edits@[i], r.0@[i]);
                    &&& made.op == e.op && made.anchor@ == e.anchor@ && made.content@ == e.content@
                    &&& made.rationale@ == e.rationale@ && made.utility == e.utility
                    &&& made.source_type@ == kind@
                    &&& made.support_count == (if e.support_count >= 1 {
                        e.support_count
                    } else {
                        1
                    })
                }
            }
        }),
{
    let v = types::edit_views(r.0@);
    assert(v.len() == r.0@.len());
    assert(text::texts(r.1@).len() == r.1@.len());
    if direct is Some || extracted is Some {
        let found = if direct is Some {
            direct->0
        } else {
            extracted->0
        };
        if 0 <= i < r.0@.len() {
            gradient::law_proposals_are_taken_over(direct, extracted, kind@, i);
            assert(v[i] == r.0@[i]@);
        }
    }
}

/// What stands between the first brace that opens and the last that closes is extracted, with both; where
/// there is no such stretch, an empty object is.
pub proof fn law_extracting_goes_from_brace_to_brace(
    s: &str,
    r: String,
    before: Seq<char>,
    inner: Seq<char>,
    after: Seq<char>,
)
    requires
        call_ensures(gradient::extract_json, (s,), r),
        forall|i: int| 0 <= i < before.len() ==> before[i] != '{',
        forall|i: int| 0 <= i < after.len() ==> after[i] != '}',
    ensures
        s@ == before + seq!['{'] + inner + seq!['}'] + after ==> r@ == seq!['{'] + inner + seq!['}'],
        s@ == before + after ==> r@ == "{}"@,
{
    gradient::law_braces_are_extracted(before, inner, after);
}

/// A text is cut where it takes more than so many bytes: to as many characters, and an ellipsis.
pub proof fn law_cutting_goes_by_bytes(s: &str, n: usize, r: String)
    requires
        call_ensures(gradient::truncate, (s, n), r),
    ensures
        vstd::utf8::encode_utf8(s@).len() <= n ==> r@ == s@,
        vstd::utf8::encode_utf8(s@).len() > n && s@.len() > n ==> r@ == s@.take(n as int).push(
            '\u{2026}',
        ),
        vstd::utf8::encode_utf8(s@).len() > n && s@.len() <= n ==> r@ == s@.push('\u{2026}'),
{
    gradient::law_clipping_goes_by_bytes(s@, n as nat);
}

/// A buffer is shown with one line more for one more failure pattern, and with what it cost and why for one
/// more refused patch.
pub proof fn law_formatting_shows_the_whole_buffer(
    a: &StepBuffer,
    b: &StepBuffer,
    c: &StepBuffer,
    p: String,
    refused: types::RejectedEntry,
    x: String,
    y: String,
    z: String,
)
    requires
        call_ensures(gradient::format_buffer, (a,), x),
        call_ensures(gradient::format_buffer, (b,), y),
        call_ensures(gradient::format_buffer, (c,), z),
        a.rejected@.len() == 0,
        b.rejected@.len() == 0,
        b.failure_patterns@ == a.failure_patterns@.push(p),
        c.failure_patterns@ == b.failure_patterns@,
        c.rejected@ == seq![refused],
        refused.edits@.len() == 0,
    ensures
        a.failure_patterns@.len() == 0 ==> x@ == "(empty)"@ && y@ == "Failure patterns:\n"@ + "- "@
            + p@ + "\n"@,
        a.failure_patterns@.len() > 0 ==> y@ == x@ + "- "@ + p@ + "\n"@,
        z@ == y@ + "\nRejected edits (DO NOT REPROPOSE):\n"@ + ("- score_drop "@ + numbers::fixed3(
            refused.score_drop,
        ) + ": "@ + refused.rationale@ + "\n"@),
{
    let s = a@.failure_patterns;
    let none = Seq::<types::RejectedEntryView>::empty();
    assert(a@.rejected =~= none && b@.rejected =~= none);
    assert(b@.failure_patterns =~= s.push(p@));
    assert(c@.failure_patterns =~= b@.failure_patterns);
    assert(c@.rejected =~= none.push(refused@));
    gradient::law_buffers_show_every_pattern(s, p@);
    gradient::law_buffers_show_every_refused_patch(b@, refused@);
    assert(refused@.edits.len() == 0);
    gradient::law_refused_patches_show_cost_and_reason(refused@);
    if s.len() == 0 {
        assert(s =~= Seq::empty());
    }
    assert(c@ == (types::StepBufferView { rejected: b@.rejected.push(refused@), ..b@ }));
}

// ---------------------------------------------------------------------------------------------
// Leaving off and going on
// ---------------------------------------------------------------------------------------------

/// A run leaves off with where it stands, and goes on from there with what was kept of it.
pub proof fn law_runs_go_on_where_they_left_off(
    run: &Run,
    state: RuntimeState,
    skill: String,
    best_skill: String,
    previous_skill: String,
    buffer: StepBuffer,
    history: Vec<types::StepRecord>,
    r: Run,
)
    requires
        call_ensures(Run::state, (run,), state),
        call_ensures(
            Run::resume,
            (&state, skill, best_skill, previous_skill, buffer, history),
            r,
        ),
    ensures
        r.step == run.step && r.epoch == run.epoch,
        r.current_score == run.current_score && r.best_score == run.best_score,
        r.skill@ == skill@ && r.best_skill@ == best_skill@ && r.previous_skill@ == previous_skill@,
        r.buffer@ == buffer@,
        types::record_views(r.history@) == types::record_views(history@),
        state.best_skill_path@ == "best_skill.md"@,
        numbers::digits(run.step as nat).len() <= 4 ==> state.current_skill_path@.len() == 21,
{
    reveal_strlit("skills/skill_v");
    reveal_strlit(".md");
    artifacts::law_names_are_padded_with_zeros(run.step as nat, 4, 0);
}

/// Whether a run has kept to a plan is told by the steps that it has done in its epoch.
pub proof fn law_keeping_to_a_plan_is_told(run: &Run, plan: &Plan, r: bool, done: int)
    requires
        call_ensures(Run::is_on_plan, (run, plan), r),
        1 <= run.epoch,
        run.step == (run.epoch - 1) * plan.steps_per_epoch + done,
    ensures
        run.epoch <= plan.num_epochs ==> r == (0 <= done <= plan.steps_per_epoch),
        run.epoch == plan.num_epochs + 1 ==> r == (done == 0),
        run.epoch > plan.num_epochs + 1 ==> !r,
{
    train::law_runs_keep_to_the_plan_epoch_by_epoch(run@, *plan, done);
}

/// Whether a configuration can be planned is told by its numbers.
pub proof fn law_being_plannable_is_told(cfg: &crate::config::Config, r: bool)
    requires
        call_ensures(train::is_plannable, (cfg,), r),
        0 < cfg.train.batch_size * cfg.train.accumulation,
        0 < cfg.train.train_size <= 0x100_0000,
    ensures
        cfg.train.batch_size * cfg.train.accumulation > usize::MAX ==> !r,
        cfg.train.num_epochs == 0xffff_ffff ==> !r,
        cfg.train.batch_size * cfg.train.accumulation >= cfg.train.train_size
            && cfg.train.batch_size * cfg.train.accumulation <= usize::MAX && cfg.train.num_epochs
            < 0xffff_ffff ==> r,
{
    if cfg.train.batch_size * cfg.train.accumulation <= usize::MAX {
        train::law_steps_go_through_accumulated_batches(*cfg);
        let (n, step, size) = (
            train::epoch_steps(*cfg) as int,
            cfg.train.batch_size * cfg.train.accumulation,
            cfg.train.train_size as int,
        );
        if step >= size {
            assert(n == 1) by (nonlinear_arith)
                requires
                    n >= 1,
                    (n - 1) * step < size,
                    step >= size,
                    size > 0,
            ;
            assert(cfg.train.num_epochs * 1 == cfg.train.num_epochs);
        }
    }
}

// ---------------------------------------------------------------------------------------------
// Answers and their scores
// ---------------------------------------------------------------------------------------------

/// An answer scores 1 where it comes to the same as one of the right ones when both are normalized, and 0
/// where it comes to the same as none.
pub proof fn law_matching_goes_by_normalized_answers(
    pred: &str,
    golds: &[String],
    r: Single,
    gold: &str,
    a: String,
    b: String,
    i: int,
)
    requires
        call_ensures(scoring::exact_match, (pred, golds), r),
        call_ensures(scoring::normalize_answer, (pred,), a),
        0 <= i < golds@.len(),
        gold@ == golds@[i]@,
        call_ensures(scoring::normalize_answer, (gold,), b),
    ensures
        a@ == b@ ==> r.bits == 0x3f80_0000,
        r.bits == 0x3f80_0000 || r.bits == 0,
        golds@.len() == 1 && a@ != b@ ==> r.bits == 0,
{
    let g = text::texts(golds@);
    assert(g[i] == golds@[i]@);
    adapter::law_exact_scores_are_one_or_zero(pred@, g, i);
    if golds@.len() == 1 && a@ != b@ {
        assert forall|k: int| 0 <= k < g.len() implies scoring::normalized(#[trigger] g[k])
            != scoring::normalized(pred@) by {
            assert(k == i);
        }
    }
}

/// Answers are compared by their words, without marks and without an article before them; white space and
/// marks make no difference.
pub proof fn law_comparing_goes_by_words(
    s: &str,
    t: &str,
    x: String,
    y: String,
    a: Seq<char>,
    mark: char,
    b: Seq<char>,
)
    requires
        call_ensures(scoring::compare_form, (s,), x),
        call_ensures(scoring::compare_form, (t,), y),
        s@ == a + seq![mark] + b,
        t@ == a + b,
        !scoring::is_alphanumeric(mark),
        !text::is_white(mark),
    ensures
        x@ == y@,
        ({
            let kept = t@.filter(|c: char| scoring::is_alphanumeric(c) || text::is_white(c));
            y@ == text::join(
                scoring::without_article(
                    scoring::without_article(
                        scoring::without_article(text::words(kept), "a"@),
                        "an"@,
                    ),
                    "the"@,
                ),
                " "@,
            )
        }),
{
    scoring::law_marks_in_answers_do_not_matter(a, mark, b);
    scoring::law_answers_are_compared_by_their_words(t@);
}

/// The similarity of an answer to the one right answer that there is, is the share of characters that stay:
/// the longer length less the edit distance, through the longer length; and 0 where that is below the
/// threshold.
pub proof fn law_similarity_goes_by_edit_distance(
    pred: &str,
    golds: &[String],
    threshold: Single,
    r: Single,
    a: &Vec<char>,
    b: &Vec<char>,
    d: usize,
)
    requires
        call_ensures(scoring::anls, (pred, golds, threshold), r),
        golds@.len() == 1,
        a@ == scoring::spaced(scoring::lowercase(pred@)),
        b@ == scoring::spaced(scoring::lowercase(golds@[0]@)),
        a@.len() > 0,
        call_ensures(distance::edit_distance, (a, b), d),
    ensures
        ({
            let n = if a@.len() >= b@.len() {
                a@.len()
            } else {
                b@.len()
            };
            let share = single::quotient(
                single::counted((n - d) as nat),
                single::counted(n),
            );
            &&& single::at_most(threshold, share) && single::less(Single { bits: 0 }, share) ==> r
                == share
            &&& single::less(share, threshold) ==> r.bits == 0
        }),
{
    let g = text::texts(golds@);
    assert(g[0] == golds@[0]@);
    scoring::law_similarity_is_the_unchanged_share(a@, b@, threshold);
    reveal_with_fuel(scoring::best_similarity, 2);
}

/// The edit distance of two texts is the same both ways, none where they are equal and only there, and goes
/// up by no more than one where one character is changed, put in or taken out.
pub proof fn law_distances_count_changes(
    a: &Vec<char>,
    b: &Vec<char>,
    c: &Vec<char>,
    d: usize,
    back: usize,
    changed: usize,
    before: Seq<char>,
    x: Seq<char>,
    y: Seq<char>,
    after: Seq<char>,
)
    requires
        call_ensures(distance::edit_distance, (a, b), d),
        call_ensures(distance::edit_distance, (b, a), back),
        call_ensures(distance::edit_distance, (c, b), changed),
        a@ == before + x + after,
        c@ == before + y + after,
        x.len() <= 1,
        y.len() <= 1,
    ensures
        d == back,
        d == 0 <==> a@ == b@,
        changed <= d + 1,
        d <= changed + 1,
        a@.len() - b@.len() <= d && b@.len() - a@.len() <= d,
        d <= a@.len() || d <= b@.len(),
{
    distance::law_distance_is_symmetric(a@, b@);
    distance::law_distance_is_zero_only_for_equals(a@, b@);
    distance::law_distance_is_bounded(a@, b@);
    distance::law_one_change_counts_for_one(before, x, y, after, b@);
    distance::law_one_change_counts_for_one(before, y, x, after, b@);
}

/// Where two texts differ, one character of the first can be changed, put in or taken out so that the edit
/// distance goes down by one.
pub proof fn law_distances_are_reached_by_changes(a: &Vec<char>, b: &Vec<char>, d: usize)
    requires
        call_ensures(distance::edit_distance, (a, b), d),
        a@ != b@,
    ensures
        exists|c: Seq<char>, before: Seq<char>, x: Seq<char>, y: Seq<char>, after: Seq<char>|
            #[trigger] distance::changed_at(a@, c, before, x, y, after) && distance::distance(c, b@)
                + 1 == d,
{
    distance::law_some_change_brings_nearer(a@, b@);
}

/// A fingerprint is the first eight bytes of a digest, each in two hexadecimal digits.
pub proof fn law_fingerprints_show_eight_bytes(digest: &Vec<u8>, r: String, i: int)
    requires
        call_ensures(scoring::fingerprint, (digest,), r),
        digest@.len() >= 8,
        0 <= i < 8,
    ensures
        r@.len() == 16,
        r@[2 * i] == "0123456789abcdef"@[digest@[i] as int / 16],
        r@[2 * i + 1] == "0123456789abcdef"@[digest@[i] as int % 16],
{
    scoring::law_fingerprints_are_hexadecimal(digest@.take(8), i);
}

/// The words of a text are counted: one for each stretch without white space.
pub proof fn law_counting_goes_by_words(
    s: &str,
    t: &str,
    n: usize,
    m: usize,
    a: Seq<char>,
    word: Seq<char>,
)
    requires
        call_ensures(scoring::count_tokens, (s,), n),
        call_ensures(scoring::count_tokens, (t,), m),
        s@ == a + word + t@,
        forall|i: int| 0 <= i < a.len() ==> text::is_white(#[trigger] a[i]),
        word.len() > 0,
        forall|i: int| 0 <= i < word.len() ==> !text::is_white(#[trigger] word[i]),
        t@.len() > 0 ==> text::is_white(t@[0]),
    ensures
        n == m + 1,
        t@.len() == 0 ==> m == 0,
{
    text::law_words_end_in_white_space(a, word, t@);
    if t@.len() == 0 {
        assert(t@ =~= Seq::<char>::empty());
        text::law_words_end_in_white_space(Seq::empty(), word, Seq::empty());
    }
}

/// The last number in an answer is found, whole or with decimals, with a minus sign or without; none is found
/// where there are no digits.
pub proof fn law_last_numbers_are_found(
    s: &str,
    r: Option<String>,
    before: Seq<char>,
    minus: bool,
    point: bool,
    whole: Seq<char>,
    decimals: Seq<char>,
    after: Seq<char>,
)
    requires
        call_ensures(numeric::extract_last_number, (s,), r),
        before.len() > 0 ==> !('0' <= before.last() <= '9') && before.last() != '.' && before.last()
            != '-',
        whole.len() + decimals.len() > 0,
        point || whole.len() > 0 && decimals.len() == 0,
        forall|i: int| 0 <= i < whole.len() ==> '0' <= #[trigger] whole[i] <= '9',
        forall|i: int| 0 <= i < decimals.len() ==> '0' <= #[trigger] decimals[i] <= '9',
        forall|i: int|
            0 <= i < after.len() ==> !('0' <= #[trigger] after[i] <= '9') && after[i] != '.' && after[i]
                != '-',
    ensures
        ({
            let sign = if minus {
                seq!['-']
            } else {
                Seq::<char>::empty()
            };
            let number = sign + (if point {
                whole + seq!['.'] + decimals
            } else {
                whole
            });
            s@ == before + number + after ==> r is Some && r->0@ == number
        }),
        s@ == after ==> r is None,
{
    let sign = if minus {
        seq!['-']
    } else {
        Seq::<char>::empty()
    };
    if point {
        numeric::law_last_decimals_count(before, minus, whole, decimals, after);
    } else {
        let number = sign + whole;
        assert forall|i: int| 1 <= i < number.len() implies '0' <= #[trigger] number[i] <= '9' by {
            assert(number[i] == whole[i - sign.len()]);
        }
        if !minus {
            assert(number[0] == whole[0]);
        }
        numeric::law_last_digits_count(before, number, after);
    }
    numeric::law_there_is_no_number_without_digits(after);
}

/// An answer scores 1 where it is near one of the right ones and 0 where it is near none.
pub proof fn law_scoring_goes_by_nearness(near: &[bool], r: Single, i: int)
    requires
        call_ensures(numeric::score_numeric, (near,), r),
    ensures
        0 <= i < near@.len() && near@[i] ==> r.bits == 0x3f80_0000,
        (forall|k: int| 0 <= k < near@.len() ==> !#[trigger] near@[k]) ==> r.bits == 0,
{
    numeric::law_near_answers_score(near@, i);
}

/// A right answer is read as a number without the white space around it and without its commas.
pub proof fn law_reading_leaves_commas_out(
    s: &str,
    r: String,
    b: Seq<char>,
    first: Seq<char>,
    rest: Seq<char>,
)
    requires
        call_ensures(numeric::parse_number, (s,), r),
        forall|i: int| 0 <= i < first.len() ==> first[i] != ',',
        forall|i: int| 0 <= i < rest.len() ==> rest[i] != ',',
        first.len() > 0 && rest.len() > 0,
        !text::is_white(first[0]) && !text::is_white(first.last()),
        !text::is_white(rest.last()),
        forall|i: int| 0 <= i < b.len() ==> text::is_white(#[trigger] b[i]),
    ensures
        s@ == b + first + b ==> r@ == first,
        s@ == b + (first + seq![','] + rest) + b ==> r@ == first + rest,
{
    assert((first + seq![','] + rest)[0] == first[0]);
    assert((first + seq![','] + rest).last() == rest.last());
    numeric::law_commas_are_left_out(rest, b, first);
    text::law_replacing_goes_by_parts(rest, Seq::empty(), ',', Seq::empty());
}

/// A document is answered for by similarity from one half on, and an office by the last line that is written,
/// which has to be right or similar.
pub proof fn law_documents_and_offices_score_by_similarity(
    prediction: &str,
    line: &str,
    golds: &[String],
    r: Single,
    office: Single,
    similar: Single,
    exact: Single,
    of_line: Single,
)
    requires
        call_ensures(adapter::score_docvqa, (prediction, golds), r),
        call_ensures(scoring::anls, (prediction, golds, Single { bits: 0x3f00_0000 }), similar),
        call_ensures(adapter::score_officeqa, (prediction, golds), office),
        line@ == adapter::last_written(text::lines(prediction@)),
        call_ensures(scoring::exact_match, (line, golds), exact),
        call_ensures(scoring::anls, (line, golds, Single { bits: 0x3f00_0000 }), of_line),
    ensures
        r == similar,
        exact.bits == 0x3f80_0000 && single::less(of_line, exact) ==> office == exact,
        exact.bits == 0 ==> office == of_line,
{
    adapter::law_office_scores_go_by_the_last_line(prediction@, text::texts(golds@));
}

/// An agent in a small world scores 1 where its answer holds, in whatever case, that it is done and one of
/// the right things, and else 0.
pub proof fn law_worlds_score_by_what_is_said(
    prediction: &str,
    golds: &[String],
    r: Single,
    i: int,
    a: Seq<char>,
    b: Seq<char>,
    c: Seq<char>,
    d: Seq<char>,
)
    requires
        call_ensures(adapter::score_alfworld, (prediction, golds), r),
        0 <= i < golds@.len(),
    ensures
        r.bits == 0 || r.bits == 0x3f80_0000,
        scoring::lowercase(prediction@) == a + "done"@ + b && scoring::lowercase(prediction@) == c
            + scoring::lowercase(golds@[i]@) + d ==> r.bits == 0x3f80_0000,
        (forall|k: int|
            0 <= k && k + 4 <= scoring::lowercase(prediction@).len() ==> #[trigger] scoring::lowercase(
                prediction@,
            ).subrange(k, k + 4) != "done"@) ==> r.bits == 0,
{
    reveal_strlit("done");
    let s = scoring::lowercase(prediction@);
    let g = text::texts(golds@);
    assert(g[i] == golds@[i]@);
    text::law_parts_are_contained(a, "done"@, b);
    text::law_parts_are_contained(c, scoring::lowercase(golds@[i]@), d);
    adapter::law_finished_tasks_score_by_what_is_said(prediction@, g, i);
    text::law_search_finds_the_first(s, "done"@);
    if text::contains_text(s, "done"@) {
        let k = text::find_in(s, "done"@)->0;
        assert(s.subrange(k, k + 4) =~= "done"@);
    }
}

// ---------------------------------------------------------------------------------------------
// Calculators
// ---------------------------------------------------------------------------------------------

/// The first call of the calculator in a reply is found, without the white space around the expression;
/// none is found where nothing is called or where the call is not finished.
pub proof fn law_calls_of_the_calculator_are_found(
    s: &str,
    r: Option<String>,
    before: Seq<char>,
    expr: Seq<char>,
    after: Seq<char>,
)
    requires
        call_ensures(calculator::extract_calc, (s,), r),
        !text::contains_text(before, "<tool name=\"calc\">"@),
        !text::contains_text(expr, "</tool>"@),
    ensures
        s@ == before + "<tool name=\"calc\">"@ + expr + "</tool>"@ + after ==> r is Some && r->0@
            == text::trim(expr),
        s@ == before || s@ == before + "<tool name=\"calc\">"@ + expr ==> r is None,
{
    calculator::law_calls_are_found(before, expr, after);
    calculator::law_unfinished_calls_call_nothing(before, expr);
}

/// Every division sign is promoted, and nothing else.
pub proof fn law_promoting_goes_by_division_signs(
    s: &str,
    t: &str,
    u: &str,
    x: String,
    y: String,
    z: String,
)
    requires
        call_ensures(calculator::promote, (s,), x),
        call_ensures(calculator::promote, (t,), y),
        call_ensures(calculator::promote, (u,), z),
        s@ == t@ + seq!['/'] + u@,
    ensures
        x@ == y@ + "*1.0/"@ + z@,
        (forall|i: int| 0 <= i < t@.len() ==> t@[i] != '/') ==> y@ == t@,
{
    calculator::law_divisions_are_promoted(t@, u@);
}

/// The value of a calculation is what the promoted expression comes to, where that is a finite number, and
/// what the expression comes to as it stands only where the promoted one fails.
pub proof fn law_values_come_from_the_promoted_expression(
    first: CalcOutcome,
    second: Option<CalcOutcome>,
    r: Option<CalcNumber>,
)
    requires
        call_ensures(calculator::value_of, (first, second), r),
    ensures
        ({
            let finite = |bits: u64| bits as int % 0x8000_0000_0000_0000 < 0x7ff0_0000_0000_0000;
            &&& first matches CalcOutcome::Number { bits, text } ==> (if finite(bits) {
                r is Some && r->0.bits == bits && r->0.text@ == text@
            } else {
                r is None
            })
            &&& first is NotNumber ==> r is None
            &&& first is Failed ==> match second {
                Some(CalcOutcome::Number { bits, text }) => if finite(bits) {
                    r is Some && r->0.bits == bits && r->0.text@ == text@
                } else {
                    r is None
                },
                _ => r is None,
            }
        }),
{
    match first {
        CalcOutcome::Number { bits, text } => calculator::law_finite_numbers_lie_below_infinity(bits),
        _ => {},
    }
    match second {
        Some(CalcOutcome::Number { bits, text }) => calculator::law_finite_numbers_lie_below_infinity(
            bits,
        ),
        _ => {},
    }
}

/// A reply that calls the calculator is answered with the value, or with "ERR"; one that does not, ends the
/// conversation.
pub proof fn law_working_answers_calls(
    dialogue: Dialogue,
    reply: &str,
    value: Option<CalcNumber>,
    r: Turn,
    call: Option<String>,
    last: Option<String>,
)
    requires
        call_ensures(adapter::work_with, (dialogue, reply, value), r),
        call_ensures(calculator::extract_calc, (reply,), call),
        call_ensures(adapter::extract_final, (reply,), last),
    ensures
        r.dialogue.replies == dialogue.replies + 1,
        call is Some ==> {
            let shown = if value is Some {
                value->0.text@
            } else {
                "ERR"@
            };
            &&& r.done == (dialogue.replies >= 4)
            &&& r.dialogue.prediction@ == dialogue.prediction@
            &&& types::message_views(r.dialogue.messages@) == types::message_views(
                dialogue.messages@,
            ).push(ChatMessageView { role: "assistant"@, content: reply@ }).push(
                ChatMessageView {
                    role: "user"@,
                    content: "<observation>"@ + shown + "</observation>"@,
                },
            )
        },
        call is None ==> {
            &&& r.done
            &&& r.dialogue.prediction@ == (if last is Some {
                last->0@
            } else {
                reply@
            })
            &&& types::message_views(r.dialogue.messages@) == types::message_views(
                dialogue.messages@,
            ).push(ChatMessageView { role: "assistant"@, content: reply@ })
        },
{
    let v = calculator::number_view(value);
    if call is Some {
        adapter::law_calculator_calls_are_answered(dialogue@, reply@, v);
    } else {
        adapter::law_replies_without_a_call_end(dialogue@, reply@, v);
    }
}

/// The final answer that a reply names on its last line is found.
pub proof fn law_final_answers_on_the_last_line_are_found(
    s: &str,
    r: Option<String>,
    line: Seq<char>,
    a: Seq<char>,
    answer: Seq<char>,
)
    requires
        call_ensures(adapter::extract_final, (s,), r),
        forall|i: int| 0 <= i < a.len() ==> text::is_white(#[trigger] a[i]),
        line == a + "FINAL:"@ + answer || line == a + "Final:"@ + answer,
        forall|i: int| 0 <= i < line.len() ==> line[i] != '\n',
    ensures
        s@ == line ==> r is Some && r->0@ == text::trim(answer),
{
    adapter::law_final_lines_name_the_answer(a, answer, line);
    text::law_lines_end_in_line_feeds(line, Seq::empty());
    reveal_strlit("FINAL:");
    reveal_strlit("Final:");
    adapter::law_the_last_final_answer_counts(Seq::empty(), line);
    assert(Seq::<Seq<char>>::empty().push(line) =~= seq![line]);
}

// ---------------------------------------------------------------------------------------------
// Kinds of tasks
// ---------------------------------------------------------------------------------------------

/// A kind of tasks is known by its name, and made from it.
pub proof fn law_kinds_are_made_from_their_names(name: &str, known: bool, r: adapter::AnyAdapter)
    requires
        call_ensures(adapter::knows_adapter, (name,), known),
        call_ensures(adapter::build_adapter, (name,), r),
    ensures
        known,
        name@ == "searchqa"@ <==> r is SearchQA,
        name@ == "livemath"@ <==> r is LiveMath,
        name@ == "docvqa"@ <==> r is DocVQA,
        name@ == "officeqa"@ <==> r is OfficeQA,
        name@ == "spreadsheet"@ <==> r is Spreadsheet,
        name@ == "alfworld"@ <==> r is Alfworld,
        (name@ == "codex_searchqa"@ || name@ == "codex_livemath"@) <==> r is Codex,
        r matches adapter::AnyAdapter::Codex(c) ==> c.inner_score_kind@ == (if name@
            == "codex_searchqa"@ {
            "exact"@
        } else {
            "numeric"@
        }),
{
    adapter::law_kinds_go_by_their_names(r, name@);
}

// ---------------------------------------------------------------------------------------------
// Requests
// ---------------------------------------------------------------------------------------------

/// What comes of sending a request decides what is done next: an answer is taken, a trouble that may pass is
/// waited out as long as there are retries, and any other one ends the request.
pub proof fn law_requests_are_answered_repeated_or_given_up(run: ChatRun, event: ChatEvent, r: ChatStep)
    requires
        call_ensures(ChatRun::next, (run, event), r),
    ensures
        event matches ChatEvent::Answered { contents, usage } ==> {
            &&& r is Done
            &&& contents@.len() > 0 && contents@[0] is Some ==> r->Done_0.text@ == contents@[0]->0@
            &&& contents@.len() == 0 || contents@[0] is None ==> r->Done_0.text@.len() == 0
        },
        event matches ChatEvent::Undecodable { message } ==> r is Failed && r->Failed_0@ == message@,
        event matches ChatEvent::Refused { status, message } ==> if status == 429 || 500 <= status
            <= 599 {
            if run.attempt < run.max_retries {
                r is WaitThenSend && r->WaitThenSend_1.attempt == run.attempt + 1
                    && r->WaitThenSend_1.max_retries == run.max_retries
            } else {
                r is WaitThenFail && r->WaitThenFail_1@ == message@
            }
        } else {
            r is Failed && r->Failed_0@ == message@
        },
        event matches ChatEvent::Unreachable { message } ==> if run.attempt < run.max_retries {
            r is WaitThenSend && r->WaitThenSend_1.attempt == run.attempt + 1
                && r->WaitThenSend_1.max_retries == run.max_retries
        } else {
            r is WaitThenFail && r->WaitThenFail_1@ == message@
        },
{
    match event {
        ChatEvent::Answered { contents, usage } => openai::law_answers_are_the_first_choice(
            run,
            contents,
            usage,
            r,
        ),
        _ => {},
    }
}

/// The wait before a request is sent again is 250 milliseconds at first, doubles with every attempt, and is
/// eight seconds from the sixth on.
pub proof fn law_waits_double_up_to_eight_seconds(
    run: ChatRun,
    later: ChatRun,
    event: ChatEvent,
    a: ChatStep,
    b: ChatStep,
)
    requires
        event is Unreachable,
        call_ensures(ChatRun::next, (run, event), a),
        call_ensures(ChatRun::next, (later, event), b),
        later.attempt == run.attempt + 1,
        later.attempt < run.max_retries,
        later.max_retries == run.max_retries,
    ensures
        a is WaitThenSend && b is WaitThenSend,
        run.attempt == 0 ==> a->WaitThenSend_0 == 250,
        run.attempt < 5 ==> b->WaitThenSend_0 == 2 * a->WaitThenSend_0,
        run.attempt >= 5 ==> b->WaitThenSend_0 == a->WaitThenSend_0 && a->WaitThenSend_0 == 8_000,
{
    openai::law_backoff_doubles(run.attempt as nat);
    openai::law_backoff_grows_to_eight_seconds(run.attempt as nat, run.attempt as nat + 1);
    openai::law_backoff_grows_to_eight_seconds(run.attempt as nat, run.attempt as nat);
}

/// Settings are what the variables say: where the base URL is not set there are none; what else is not set
/// has a default, and both models are the general one where they are not set themselves.
pub proof fn law_settings_come_from_the_variables(
    vars: &openai::ClientVars,
    r: Result<openai::ClientSettings, openai::SettingsError>,
    s: Seq<char>,
    slashes: Seq<char>,
)
    requires
        call_ensures(openai::ClientSettings::from_vars, (vars,), r),
        s.len() > 0 ==> s.last() != '/',
        forall|i: int| 0 <= i < slashes.len() ==> slashes[i] == '/',
    ensures
        vars.base_url is None <==> r is Err,
        r matches Ok(c) ==> {
            let general = if vars.model is Some {
                vars.model->0@
            } else {
                "gpt-5.5"@
            };
            &&& vars.base_url->0@ == s + slashes ==> c.base_url@ == s
            &&& c.api_key@ == (if vars.api_key is Some {
                vars.api_key->0@
            } else {
                "sk-noauth"@
            })
            &&& c.target_model@ == (if vars.target_model is Some {
                vars.target_model->0@
            } else {
                general
            })
            &&& c.optimizer_model@ == (if vars.optimizer_model is Some {
                vars.optimizer_model->0@
            } else {
                general
            })
            &&& vars.timeout_secs is None ==> c.timeout_secs == 180
            &&& vars.max_retries is None ==> c.max_retries == 4
            &&& vars.rps is None ==> c.requests_per_second == 30
            &&& c.requests_per_second > 0
        },
{
    openai::law_slashes_at_the_end_are_dropped(s, slashes);
    openai::law_models_have_a_default(*vars);
}

/// A number that a variable holds in decimal digits is taken over, where it is not too large; any other text
/// counts as not set.
pub proof fn law_numbers_in_the_variables_are_taken_over(
    vars: &openai::ClientVars,
    r: Result<openai::ClientSettings, openai::SettingsError>,
    v: String,
)
    requires
        call_ensures(openai::ClientSettings::from_vars, (vars,), r),
        vars.base_url is Some,
        vars.timeout_secs == Some(v),
        vars.max_retries == Some(v),
        vars.rps == Some(v),
        v@.len() > 0,
        v@[0] != '+',
    ensures
        r is Ok,
        (forall|i: int| 0 <= i < v@.len() ==> '0' <= #[trigger] v@[i] <= '9') && numbers::number_of(v@)
            <= 0xffff_ffff ==> {
            &&& r->Ok_0.timeout_secs == numbers::number_of(v@)
            &&& r->Ok_0.max_retries == numbers::number_of(v@)
            &&& numbers::number_of(v@) > 0 ==> r->Ok_0.requests_per_second == numbers::number_of(v@)
            &&& numbers::number_of(v@) == 0 ==> r->Ok_0.requests_per_second == 30
        },
        (exists|i: int| 0 <= i < v@.len() && !('0' <= #[trigger] v@[i] <= '9')) ==> {
            &&& r->Ok_0.timeout_secs == 180
            &&& r->Ok_0.max_retries == 4
            &&& r->Ok_0.requests_per_second == 30
        },
{
    openai::law_numbers_in_variables_count(v, v@, u64::MAX as nat, 180);
    openai::law_numbers_in_variables_count(v, v@, u32::MAX as nat, 4);
    openai::law_numbers_in_variables_count(v, v@, u32::MAX as nat, 0);
}

/// A request is sent to the endpoint below the base URL, for the model that it is meant for, with what is
/// said and how it is to be answered.
pub proof fn law_requests_are_sent_as_they_are<'a>(
    settings: &openai::ClientSettings,
    call: ChatCall<'a>,
    r: openai::ChatBody<'a>,
    url: String,
)
    requires
        call_ensures(openai::body, (settings, call), r),
        call_ensures(openai::ClientSettings::endpoint, (settings,), url),
    ensures
        url@ == settings.base_url@ + "/chat/completions"@,
        call.to_target ==> r.model@ == settings.target_model@,
        !call.to_target ==> r.model@ == settings.optimizer_model@,
        r.messages@ == call.messages@,
        !r.stream,
        r.temperature == call.options.temperature && r.max_tokens == call.options.max_tokens,
        r.json_object == call.options.json,
        r.reasoning_effort == call.options.reasoning_effort,
{
}

/// The next reply in a conversation is asked of the target model, with all that was said, and may be as long
/// as the kind of tasks has it.
pub proof fn law_replies_are_asked_of_the_target(
    kind: &adapter::AnyAdapter,
    dialogue: &Dialogue,
    temperature: Single,
    r: ChatCall<'static>,
)
    requires
        call_ensures(adapter::request::<adapter::AnyAdapter>, (kind, dialogue, temperature), r),
    ensures
        r.to_target,
        types::message_views(r.messages@) == types::message_views(dialogue.messages@),
        r.options.temperature == Some(temperature),
        !r.options.json && r.options.reasoning_effort is None,
        r.options.max_tokens == Some(
            match *kind {
                adapter::AnyAdapter::SearchQA(_) => 200u32,
                adapter::AnyAdapter::LiveMath(_) => 800u32,
                adapter::AnyAdapter::DocVQA(_) => 200u32,
                adapter::AnyAdapter::OfficeQA(_) => 600u32,
                adapter::AnyAdapter::Spreadsheet(_) => 400u32,
                adapter::AnyAdapter::Alfworld(_) => 300u32,
                adapter::AnyAdapter::Codex(_) => 500u32,
            },
        ),
{
    adapter::law_kinds_have_their_limits(*kind);
}

/// What is kept of a conversation is its item, its answer, what was said, and the score of the answer.
pub proof fn law_conversations_are_kept_with_their_score(
    kind: &adapter::AnyAdapter,
    item: &TaskItem,
    dialogue: Dialogue,
    near: &[bool],
    r: Trajectory,
)
    requires
        call_ensures(adapter::conclude::<adapter::AnyAdapter>, (kind, item, dialogue, near), r),
    ensures
        r.item_id@ == item.id@,
        r.prediction@ == dialogue.prediction@,
        types::message_views(r.messages@) == types::message_views(dialogue.messages@),
        kind is LiveMath || kind is Spreadsheet ==> ((exists|i: int|
            0 <= i < near@.len() && #[trigger] near@[i]) ==> r.score.bits == 0x3f80_0000) && ((forall|
            i: int,
        |
            0 <= i < near@.len() ==> !#[trigger] near@[i]) ==> r.score.bits == 0),
        kind is SearchQA ==> r.score == adapter::exact_score(dialogue.prediction@, item@.answers),
        kind is Alfworld ==> r.score == adapter::world_score(dialogue.prediction@, item@.answers),
{
    adapter::law_kinds_of_tasks_have_their_scores(*kind, item@, dialogue@.prediction, near@);
}

// ---------------------------------------------------------------------------------------------
// Names of files
// ---------------------------------------------------------------------------------------------

/// Files and directories are called by what they are for and by a number, with zeros before it.
pub proof fn law_files_are_called_by_their_number(
    n: u32,
    skill: String,
    step: String,
    memo: String,
)
    requires
        call_ensures(artifacts::skill_file, (n,), skill),
        call_ensures(artifacts::step_dir, (n,), step),
        call_ensures(artifacts::memo_dir, (n,), memo),
    ensures
        n < 10 ==> {
            let d = numbers::digits(n as nat);
            &&& skill@ == "skills/skill_v"@ + ("000"@ + d) + ".md"@
            &&& step@ == "steps/step_"@ + ("000"@ + d)
            &&& memo@ == "meta_skill/epoch_"@ + ("0"@ + d)
        },
        n >= 1000 ==> {
            let d = numbers::digits(n as nat);
            &&& skill@ == "skills/skill_v"@ + d + ".md"@
            &&& step@ == "steps/step_"@ + d
            &&& memo@ == "meta_skill/epoch_"@ + d
        },
{
    reveal_strlit("000");
    reveal_strlit("0");
    let d = numbers::digits(n as nat);
    if n < 10 {
        assert(d.len() == 1);
        assert(artifacts::padded(n as nat, 4) =~= "000"@ + d);
        assert(artifacts::padded(n as nat, 2) =~= "0"@ + d);
    }
    if n >= 1000 {
        reveal_with_fuel(numbers::digits, 4);
        assert(d.len() >= 4);
        artifacts::law_names_are_padded_with_zeros(n as nat, 4, 0);
        artifacts::law_names_are_padded_with_zeros(n as nat, 2, 0);
    }
}

// ---------------------------------------------------------------------------------------------
// Texts
// ---------------------------------------------------------------------------------------------

/// Searching finds the first place at which a text stands, and finds none only where there is none.
pub proof fn law_searching_finds_the_first(s: &Vec<char>, p: &Vec<char>, r: Option<usize>)
    requires
        call_ensures(text::find_chars, (s, p), r),
    ensures
        match r {
            Some(i) => {
                &&& i + p@.len() <= s@.len()
                &&& forall|k: int| 0 <= k < p@.len() ==> s@[i + k] == #[trigger] p@[k]
                &&& forall|j: int| 0 <= j < i ==> #[trigger] s@.subrange(j, j + p@.len()) != p@
            },
            None => forall|j: int|
                0 <= j && j + p@.len() <= s@.len() ==> #[trigger] s@.subrange(j, j + p@.len()) != p@,
        },
{
    text::law_search_finds_the_first(s@, p@);
}

/// Trimming takes off the white space at both ends, and nothing else.
pub proof fn law_trimming_takes_off_the_ends(
    v: &Vec<char>,
    r: Vec<char>,
    a: Seq<char>,
    s: Seq<char>,
    b: Seq<char>,
)
    requires
        call_ensures(text::trim_chars, (v,), r),
        v@ == a + s + b,
        forall|i: int| 0 <= i < a.len() ==> text::is_white(#[trigger] a[i]),
        forall|i: int| 0 <= i < b.len() ==> text::is_white(#[trigger] b[i]),
        s.len() > 0 ==> !text::is_white(s[0]) && !text::is_white(s.last()),
    ensures
        r@ == s,
{
    text::law_trimming_takes_off_white_space(a, s, b);
}

/// A line more makes one line more, without its line feed and without the carriage return before that.
pub proof fn law_lines_are_told_apart(
    v: &Vec<char>,
    w: &Vec<char>,
    all: Vec<Vec<char>>,
    rest: Vec<Vec<char>>,
    line: Seq<char>,
)
    requires
        call_ensures(text::lines_of, (v,), all),
        call_ensures(text::lines_of, (w,), rest),
        v@ == line + seq!['\n'] + w@,
        forall|i: int| 0 <= i < line.len() ==> line[i] != '\n',
    ensures
        w@.len() == 0 ==> rest@.len() == 0,
        text::views(all@) == seq![
            if line.len() > 0 && line.last() == '\r' {
                line.drop_last()
            } else {
                line
            },
        ] + text::views(rest@),
{
    text::law_lines_end_in_line_feeds(line, w@);
    if w@.len() == 0 {
        assert(w@ =~= Seq::<char>::empty());
        assert(text::views(rest@).len() == rest@.len());
    }
}

/// A word more makes one word more, and joining words with spaces gives a text with those words.
pub proof fn law_words_are_told_apart(
    v: &Vec<char>,
    w: &Vec<char>,
    all: Vec<Vec<char>>,
    rest: Vec<Vec<char>>,
    a: Seq<char>,
    word: Seq<char>,
)
    requires
        call_ensures(text::words_of, (v,), all),
        call_ensures(text::words_of, (w,), rest),
        v@ == a + word + w@,
        forall|i: int| 0 <= i < a.len() ==> text::is_white(#[trigger] a[i]),
        word.len() > 0,
        forall|i: int| 0 <= i < word.len() ==> !text::is_white(#[trigger] word[i]),
        w@.len() > 0 ==> text::is_white(w@[0]),
    ensures
        text::views(all@) == seq![word] + text::views(rest@),
{
    text::law_words_end_in_white_space(a, word, w@);
}

/// Replacing a character puts the text in every place that holds it, and changes no other.
pub proof fn law_replacing_changes_every_place(
    v: &Vec<char>,
    a: &Vec<char>,
    b: &Vec<char>,
    c: char,
    by: &Vec<char>,
    r: Vec<char>,
    x: Vec<char>,
    y: Vec<char>,
)
    requires
        call_ensures(text::replace_char_with, (v, c, by), r),
        call_ensures(text::replace_char_with, (a, c, by), x),
        call_ensures(text::replace_char_with, (b, c, by), y),
        v@ == a@ + seq![c] + b@,
    ensures
        r@ == x@ + by@ + y@,
        (forall|i: int| 0 <= i < a@.len() ==> a@[i] != c) ==> x@ == a@,
{
    text::law_replacing_goes_by_parts(a@ + seq![c], b@, c, by@);
    text::law_replacing_goes_by_parts(a@, seq![c], c, by@);
}

// ---------------------------------------------------------------------------------------------
// Single-precision numbers
// ---------------------------------------------------------------------------------------------

/// A sum is the number nearest to the exact sum.
pub proof fn law_adding_gives_the_nearest(a: Single, b: Single, r: Single, x: Single)
    requires
        call_ensures(Single::plus, (a, b), r),
        a.is_finite() && b.is_finite() && x.is_finite() && r.is_finite(),
    ensures
        single_laws::apart(r.value(), a.value() + b.value()) <= single_laws::apart(
            x.value(),
            a.value() + b.value(),
        ),
{
    single_laws::law_sums_are_nearest(a, b, x);
}

/// A difference is the number nearest to the exact difference.
pub proof fn law_subtracting_gives_the_nearest(a: Single, b: Single, r: Single, x: Single)
    requires
        call_ensures(Single::minus, (a, b), r),
        a.is_finite() && b.is_finite() && x.is_finite() && r.is_finite(),
    ensures
        single_laws::apart(r.value(), a.value() - b.value()) <= single_laws::apart(
            x.value(),
            a.value() - b.value(),
        ),
{
    let m = single::opposite(b);
    single::lemma_make(!b.negative(), b.place());
    single_laws::law_sums_are_nearest(a, m, x);
}

/// The magnitude of a product is the one nearest to the exact product, and its sign goes by both.
pub proof fn law_multiplying_gives_the_nearest(a: Single, b: Single, r: Single, x: Single)
    requires
        call_ensures(Single::times, (a, b), r),
        a.is_finite() && b.is_finite() && r.is_finite(),
    ensures
        r.negative() == (a.negative() != b.negative()),
        ({
            let exact = single::magnitude(a.place()) * single::magnitude(b.place());
            let unit = vstd::arithmetic::power2::pow2(149);
            single_laws::apart(
                (single::magnitude(r.place()) * unit) as int,
                exact as int,
            ) <= single_laws::apart((single::magnitude(x.place()) * unit) as int, exact as int)
        }),
{
    single_laws::law_products_are_nearest(a, b, x.place());
}

/// The magnitude of a quotient is the one nearest to the exact quotient, and its sign goes by both.
pub proof fn law_dividing_gives_the_nearest(a: Single, b: Single, r: Single, x: Single)
    requires
        call_ensures(Single::over, (a, b), r),
        a.is_finite() && b.is_finite() && r.is_finite(),
        b.place() > 0,
    ensures
        r.negative() == (a.negative() != b.negative()),
        ({
            let exact = single::magnitude(a.place()) * vstd::arithmetic::power2::pow2(149);
            let by = single::magnitude(b.place());
            single_laws::apart((single::magnitude(r.place()) * by) as int, exact as int)
                <= single_laws::apart((single::magnitude(x.place()) * by) as int, exact as int)
        }),
{
    single_laws::law_quotients_are_nearest(a, b, x.place());
}

/// Numbers are compared by their values.
pub proof fn law_comparing_goes_by_values(a: Single, b: Single, less: bool, at_most: bool)
    requires
        call_ensures(Single::is_less, (a, b), less),
        call_ensures(Single::is_at_most, (a, b), at_most),
    ensures
        a.is_finite() && b.is_finite() ==> less == (a.value() < b.value()),
        a.is_finite() && b.is_finite() ==> at_most == (a.value() <= b.value()),
        a.is_nan() || b.is_nan() ==> !less && !at_most,
{
    single::lemma_order(a, b);
    single::lemma_order(b, a);
}

/// Counts are held as they are up to 2^24, and the square root of a square is the number that was squared.
pub proof fn law_counts_and_roots_are_whole(n: u64, k: u64, r: Single, root: Single)
    requires
        call_ensures(Single::count, (n,), r),
        n <= 0x100_0000,
        1 <= k <= 0x1_0000,
        call_ensures(Single::root, ((k * k) as u64,), root),
    ensures
        r.value() == n * vstd::arithmetic::power2::pow2(149),
        root.value() == single::counted(k as nat).value(),
        k <= 0x100_0000 ==> root.value() == k * vstd::arithmetic::power2::pow2(149),
{
    assert(k * k <= 0x1_0000_0000) by (nonlinear_arith)
        requires
            1 <= k <= 0x1_0000,
    ;
    single_laws::lemma_counted_exact(n as nat);
    single_laws::lemma_counted_exact(k as nat);
    single_laws::law_roots_of_squares_are_whole(k as nat);
}

// ---------------------------------------------------------------------------------------------
// Expressions
// ---------------------------------------------------------------------------------------------

/// Calculations with numbers that are written out, of up to 500 characters, can be evaluated; expressions
/// with more than 500 brackets that open are not.
pub proof fn law_plain_calculations_can_be_evaluated(s: &str, r: bool)
    requires
        call_ensures(crate::tame::is_tame, (s,), r),
        forall|i: int| 0 <= i < s@.len() ==> #[trigger] s@[i] != '"' && s@[i] != '/',
    ensures
        s@.len() <= 500 && (forall|i: int|
            0 <= i < s@.len() ==> {
                ||| '0' <= #[trigger] s@[i] <= '9'
                ||| s@[i] == '.' || s@[i] == ' ' || s@[i] == '(' || s@[i] == ')'
                ||| s@[i] == '+' || s@[i] == '-' || s@[i] == '*' || s@[i] == '%' || s@[i] == '^'
            }) ==> r,
        s@.filter(|c: char| c == '(').len() > 500 ==> !r,
{
    if s@.len() <= 500 && (forall|i: int|
        0 <= i < s@.len() ==> {
            ||| '0' <= #[trigger] s@[i] <= '9'
            ||| s@[i] == '.' || s@[i] == ' ' || s@[i] == '(' || s@[i] == ')'
            ||| s@[i] == '+' || s@[i] == '-' || s@[i] == '*' || s@[i] == '%' || s@[i] == '^'
        }) {
        crate::tame::law_plain_calculations_are_tame(s@);
    }
    if s@.filter(|c: char| c == '(').len() > 500 {
        crate::tame::law_deep_expressions_are_not_tame(s@);
    }
}

// ---------------------------------------------------------------------------------------------
// Values and hashes
// ---------------------------------------------------------------------------------------------

/// An expression has the value that the promoted expression comes to, where that cannot fail; where it cannot
/// but fail, it has the value that the expression comes to as it stands.
pub proof fn law_evaluating_promotes_first(
    expr: &str,
    r: Option<CalcNumber>,
    promoted: String,
    bits: u64,
    shown: Seq<char>,
)
    requires
        call_ensures(calculator::eval_calc, (expr,), r),
        call_ensures(calculator::promote, (expr,), promoted),
        bits as int % 0x8000_0000_0000_0000 < 0x7ff0_0000_0000_0000,
    ensures
        (forall|o: calculator::CalcOutcomeView| #[trigger]
            calculator::evalexpr_yields(promoted@, o) ==> o == (calculator::CalcOutcomeView::Number {
                bits,
                text: shown,
            })) ==> r is Some && r->0.bits == bits && r->0.text@ == shown,
        (forall|o: calculator::CalcOutcomeView| #[trigger]
            calculator::evalexpr_yields(promoted@, o) ==> o is Failed) && (forall|
            o: calculator::CalcOutcomeView,
        |
            #[trigger] calculator::evalexpr_yields(expr@, o) ==> o == (
            calculator::CalcOutcomeView::Number { bits, text: shown })) ==> r is Some && r->0.bits
            == bits && r->0.text@ == shown,
        (forall|o: calculator::CalcOutcomeView| #[trigger]
            calculator::evalexpr_yields(promoted@, o) ==> o is NotNumber) ==> r is None,
{
    calculator::law_finite_numbers_lie_below_infinity(bits);
    assert(calculator::calculated(expr@, calculator::number_view(r)));
    assert(promoted@ == calculator::promoted(expr@));
}

/// The hash of a skill is the first eight bytes of the digest of its UTF-8 form, which has 32, in hexadecimal
/// digits.
pub proof fn law_skills_are_hashed_by_their_bytes(skill: &str, r: String, i: int)
    requires
        call_ensures(scoring::skill_hash, (skill,), r),
        scoring::sha256_digest(vstd::utf8::encode_utf8(skill@)).len() == 32,
        0 <= i < 8,
    ensures
        r@.len() == 16,
        ({
            let digest = scoring::sha256_digest(vstd::utf8::encode_utf8(skill@));
            &&& r@[2 * i] == "0123456789abcdef"@[digest[i] as int / 16]
            &&& r@[2 * i + 1] == "0123456789abcdef"@[digest[i] as int % 16]
        }),
{
    let digest = scoring::sha256_digest(vstd::utf8::encode_utf8(skill@));
    scoring::law_fingerprints_are_hexadecimal(digest.take(8), i);
}

/// A base of no edits counts as one.
pub proof fn law_budgets_are_at_least_one(
    sched: &LrSchedule,
    step: u32,
    total: u32,
    none: u32,
    one: u32,
)
    requires
        call_ensures(scheduler::compute_lr, (sched, step, total, 0u32), none),
        call_ensures(scheduler::compute_lr, (sched, step, total, 1u32), one),
    ensures
        none == 1,
        one == 1,
{
    scheduler::law_budget_falls_from_base_to_one(*sched, step, step, total, 0);
    scheduler::law_budget_falls_from_base_to_one(*sched, step, step, total, 1);
}

} // verus!
