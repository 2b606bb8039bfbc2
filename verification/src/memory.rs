//! What carries over from one epoch to the next: the optimizer's memo, and the guidance that is put
//! into the skill.

use vstd::prelude::*;
use crate::gradient;
use crate::numbers;
use crate::openai::{ChatCall, ChatOptions};
use crate::single::Single;
use crate::text;
use crate::types::{Trajectory, TrajectoryView};

verus! {

/// What the optimizer model is told to do when it writes its memo.
pub const META_SYS: &'static str = "You are SkillOpt's meta-skill writer. Read longitudinal pairs (same task solved with previous-epoch and current-epoch skills) and produce a SHORT, optimizer-side memo (<= 30 lines) summarizing durable lessons across epochs. This memo is NOT shipped with the deployed skill; it is consumed by the optimizer in the next epoch.";

/// What the optimizer model is told to do when it writes guidance for the skill.
pub const SLOW_SYS: &'static str = "You are SkillOpt's slow-update writer. From longitudinal comparison pairs, produce a single block of guidance (<= 200 tokens) to be force-injected into the skill under the heading '## Slow update' \u{2014} only durable, cross-epoch rules.";

/// The number of pairs that the optimizer model is shown.
pub const MAX_PAIRS: usize = 20;

/// What pairs of trajectories say.
pub open spec fn pair_views(s: Seq<(Trajectory, Trajectory)>) -> Seq<
    (TrajectoryView, TrajectoryView),
> {
    s.map_values(|p: (Trajectory, Trajectory)| (p.0@, p.1@))
}

/// The pairs that the optimizer model is shown.
pub open spec fn shown<A>(s: Seq<A>) -> Seq<A> {
    if s.len() > MAX_PAIRS {
        s.take(MAX_PAIRS as int)
    } else {
        s
    }
}

/// A pair by its scores.
pub open spec fn score_block(p: (TrajectoryView, TrajectoryView)) -> Seq<char> {
    "\n--\nitem: "@ + p.0.item_id + "\nprev_score: "@ + numbers::fixed2(p.0.score)
        + "\ncurr_score: "@ + numbers::fixed2(p.1.score)
}

/// A pair for the guidance.
pub open spec fn slow_block(p: (TrajectoryView, TrajectoryView)) -> Seq<char> {
    score_block(p) + "\n"@
}

/// A pair for the memo: its predictions too.
pub open spec fn meta_block(p: (TrajectoryView, TrajectoryView)) -> Seq<char> {
    score_block(p) + "\nprev_pred: "@ + p.0.prediction + "\ncurr_pred: "@ + p.1.prediction + "\n"@
}

/// What the optimizer model is shown for the guidance.
pub open spec fn slow_prompt(pairs: Seq<(TrajectoryView, TrajectoryView)>) -> Seq<char> {
    text::glued(shown(pairs).map_values(|p: (TrajectoryView, TrajectoryView)| slow_block(p)))
}

/// What the optimizer model is shown for the memo.
pub open spec fn meta_prompt(pairs: Seq<(TrajectoryView, TrajectoryView)>) -> Seq<char> {
    text::glued(shown(pairs).map_values(|p: (TrajectoryView, TrajectoryView)| meta_block(p)))
}

/// Appends a pair by its scores to `out`.
fn push_score_block(out: &mut Vec<char>, prev: &Trajectory, curr: &Trajectory)
    ensures
        final(out)@ == old(out)@ + score_block((prev@, curr@)),
{
    let ghost before = out@;
    text::push_str(out, "\n--\nitem: ");
    text::push_str(out, prev.item_id.as_str());
    text::push_str(out, "\nprev_score: ");
    numbers::push_fixed2(out, prev.score);
    text::push_str(out, "\ncurr_score: ");
    numbers::push_fixed2(out, curr.score);
    proof {
        assert(out@ =~= before + score_block((prev@, curr@)));
    }
}

/// The request for the memo, or `None` where there are no pairs: the memo is then empty, and no
/// request is made.
pub fn meta_skill_call<'a>(
    pairs: &[(Trajectory, Trajectory)],
    temperature: Single,
    reasoning_effort: &'a str,
) -> (r: Option<ChatCall<'a>>)
    ensures
        r is None == (pairs@.len() == 0),
        r matches Some(c) ==> {
            &&& !c.to_target
            &&& crate::types::message_views(c.messages@) == gradient::two_messages(
                META_SYS@,
                meta_prompt(pair_views(pairs@)),
            )
            &&& c.options.temperature == Some(temperature)
            &&& c.options.max_tokens == Some(800u32)
            &&& !c.options.json
            &&& c.options.reasoning_effort == Some(reasoning_effort)
        },
{
    if pairs.len() == 0 {
        return None;
    }
    let n: usize = if pairs.len() > MAX_PAIRS {
        MAX_PAIRS
    } else {
        pairs.len()
    };
    let ghost views = shown(pair_views(pairs@));
    let ghost f = |p: (TrajectoryView, TrajectoryView)| meta_block(p);
    let mut out: Vec<char> = Vec::new();
    proof {
        assert(views.take(0).map_values(f) =~= Seq::empty());
    }
    for i in 0..n
        invariant
            n <= pairs@.len(),
            n == views.len(),
            views == shown(pair_views(pairs@)),
            f == (|p: (TrajectoryView, TrajectoryView)| meta_block(p)),
            out@ == text::glued(views.take(i as int).map_values(f)),
    {
        let ghost before = out@;
        push_score_block(&mut out, &pairs[i].0, &pairs[i].1);
        text::push_str(&mut out, "\nprev_pred: ");
        text::push_str(&mut out, pairs[i].0.prediction.as_str());
        text::push_str(&mut out, "\ncurr_pred: ");
        text::push_str(&mut out, pairs[i].1.prediction.as_str());
        text::push_str(&mut out, "\n");
        proof {
            gradient::lemma_glued_step(views, f, i as int);
            assert(views[i as int] == pair_views(pairs@)[i as int]);
            assert(out@ =~= before + meta_block(views[i as int]));
        }
    }
    proof {
        assert(views.take(n as int) =~= views);
    }
    Some(
        ChatCall {
            to_target: false,
            messages: gradient::system_and_user(META_SYS.to_owned(), text::string_of(&out)),
            options: ChatOptions {
                temperature: Some(temperature),
                max_tokens: Some(800),
                json: false,
                reasoning_effort: Some(reasoning_effort),
            },
        },
    )
}

/// The request for the guidance, or `None` where there are no pairs: the guidance is then empty, and no
/// request is made.
pub fn slow_update_call<'a>(
    pairs: &[(Trajectory, Trajectory)],
    temperature: Single,
    reasoning_effort: &'a str,
) -> (r: Option<ChatCall<'a>>)
    ensures
        r is None == (pairs@.len() == 0),
        r matches Some(c) ==> {
            &&& !c.to_target
            &&& crate::types::message_views(c.messages@) == gradient::two_messages(
                SLOW_SYS@,
                slow_prompt(pair_views(pairs@)),
            )
            &&& c.options.temperature == Some(temperature)
            &&& c.options.max_tokens == Some(400u32)
            &&& !c.options.json
            &&& c.options.reasoning_effort == Some(reasoning_effort)
        },
{
    if pairs.len() == 0 {
        return None;
    }
    let n: usize = if pairs.len() > MAX_PAIRS {
        MAX_PAIRS
    } else {
        pairs.len()
    };
    let ghost views = shown(pair_views(pairs@));
    let ghost f = |p: (TrajectoryView, TrajectoryView)| slow_block(p);
    let mut out: Vec<char> = Vec::new();
    proof {
        assert(views.take(0).map_values(f) =~= Seq::empty());
    }
    for i in 0..n
        invariant
            n <= pairs@.len(),
            n == views.len(),
            views == shown(pair_views(pairs@)),
            f == (|p: (TrajectoryView, TrajectoryView)| slow_block(p)),
            out@ == text::glued(views.take(i as int).map_values(f)),
    {
        let ghost before = out@;
        push_score_block(&mut out, &pairs[i].0, &pairs[i].1);
        text::push_str(&mut out, "\n");
        proof {
            gradient::lemma_glued_step(views, f, i as int);
            assert(views[i as int] == pair_views(pairs@)[i as int]);
            assert(out@ =~= before + slow_block(views[i as int]));
        }
    }
    proof {
        assert(views.take(n as int) =~= views);
    }
    Some(
        ChatCall {
            to_target: false,
            messages: gradient::system_and_user(SLOW_SYS.to_owned(), text::string_of(&out)),
            options: ChatOptions {
                temperature: Some(temperature),
                max_tokens: Some(400),
                json: false,
                reasoning_effort: Some(reasoning_effort),
            },
        },
    )
}

// ---------------------------------------------------------------------------------------------
// The section of the skill that holds the guidance
// ---------------------------------------------------------------------------------------------

/// The heading of the section.
pub open spec fn heading() -> Seq<char> {
    "## Slow update"@
}

/// The section with the guidance `block`.
pub open spec fn section(block: Seq<char>) -> Seq<char> {
    heading() + seq!['\n'] + text::trim(block) + seq!['\n']
}

/// The end of the section that begins at `start`: the line feed before the next heading of its level,
/// or the end of the skill.
pub open spec fn section_end(skill: Seq<char>, start: int) -> int {
    match text::find_from(skill, "\n## "@, start) {
        Some(i) => i,
        None => skill.len() as int,
    }
}

/// The skill as it is before a section is appended: with a line feed at its end.
pub open spec fn closed_off(skill: Seq<char>) -> Seq<char> {
    if skill.len() > 0 && skill.last() == '\n' {
        skill
    } else {
        skill.push('\n')
    }
}

/// The skill with the guidance `block`: in the place of the section where there is one, else at the
/// end.
pub open spec fn with_section(skill: Seq<char>, block: Seq<char>) -> Seq<char> {
    match text::find_in(skill, heading()) {
        Some(start) => skill.take(start) + section(block) + skill.skip(section_end(skill, start)),
        None => closed_off(skill) + section(block),
    }
}

/// The skill with the guidance `block`.
pub fn replace_slow_update_field(skill: &str, block: &str) -> (r: String)
    ensures
        r@ == with_section(skill@, block@),
{
    let v = text::chars_of(skill);
    let head = text::chars_of("## Slow update");
    let trimmed = text::trim_chars(&text::chars_of(block));
    let n: usize = v.len();
    match text::find_chars(&v, &head) {
        Some(start) => {
            let next = text::chars_of("\n## ");
            let end: usize = match text::find_chars_from(&v, &next, start) {
                Some(i) => i,
                None => n,
            };
            let mut out = text::slice_of(&v, 0, start);
            text::push_all(&mut out, &head);
            out.push('\n');
            text::push_all(&mut out, &trimmed);
            out.push('\n');
            let rest = text::slice_of(&v, end, n);
            text::push_all(&mut out, &rest);
            proof {
                assert(out@ =~= with_section(skill@, block@));
            }
            text::string_of(&out)
        },
        None => {
            let mut out = v;
            if n == 0 || out[n - 1] != '\n' {
                out.push('\n');
            }
            text::push_all(&mut out, &head);
            out.push('\n');
            text::push_all(&mut out, &trimmed);
            out.push('\n');
            proof {
                assert(out@ =~= with_section(skill@, block@));
            }
            text::string_of(&out)
        },
    }
}

// ---------------------------------------------------------------------------------------------
// Laws
// ---------------------------------------------------------------------------------------------

/// The part of the skill before the section, where there is one, or before where it would go.
pub open spec fn before_section(skill: Seq<char>) -> Seq<char> {
    match text::find_in(skill, heading()) {
        Some(start) => skill.take(start),
        None => closed_off(skill),
    }
}

/// The part of the skill after the section.
pub open spec fn after_section(skill: Seq<char>) -> Seq<char> {
    match text::find_in(skill, heading()) {
        Some(start) => skill.skip(section_end(skill, start)),
        None => Seq::empty(),
    }
}

/// The heading holds no line feed.
proof fn lemma_heading()
    ensures
        heading().len() == 14,
        forall|i: int| 0 <= i < heading().len() ==> heading()[i] != '\n',
{
    reveal_strlit("## Slow update");
}

/// The mark of the next section begins with a line feed and holds no other.
proof fn lemma_next_mark()
    ensures
        "\n## "@.len() == 4,
        "\n## "@[0] == '\n',
        "\n## "@[1] == '#',
        forall|i: int| 1 <= i < 4 ==> "\n## "@[i] != '\n',
{
    reveal_strlit("\n## ");
}

/// A heading that begins before `at` in `out`, and that is there in `skill` too, stands in the skill.
proof fn lemma_same_heading(skill: Seq<char>, out: Seq<char>, j: int)
    requires
        0 <= j,
        j + heading().len() <= skill.len(),
        text::occurs_at(out, heading(), j),
        forall|i: int| j <= i < j + heading().len() ==> out[i] == skill[i],
    ensures
        text::occurs_at(skill, heading(), j),
{
    let here = out.subrange(j, j + heading().len());
    assert forall|i: int| 0 <= i < heading().len() implies skill[j + i] == heading()[i] by {
        assert(here[i] == out[j + i]);
    }
    assert(skill.subrange(j, j + heading().len()) =~= heading());
}

/// No heading stands before the part that the section takes the place of.
proof fn lemma_no_earlier_heading(skill: Seq<char>, rest: Seq<char>, j: int)
    requires
        0 <= j < before_section(skill).len(),
        heading().is_prefix_of(rest),
    ensures
        !text::occurs_at(before_section(skill) + rest, heading(), j),
{
    lemma_heading();
    text::lemma_find_from(skill, heading(), 0);
    let pre = before_section(skill);
    let out = pre + rest;
    let at = pre.len() as int;
    if text::occurs_at(out, heading(), j) {
        if let Some(start) = text::find_in(skill, heading()) {
            let there = skill.subrange(start, start + heading().len());
            assert forall|i: int| j <= i < j + heading().len() implies out[i] == skill[i] by {
                if i >= start {
                    assert(skill[i] == there[i - start]);
                    assert(rest[i - start] == heading()[i - start]);
                }
            }
            lemma_same_heading(skill, out, j);
        } else if j + heading().len() < at {
            lemma_same_heading(skill, out, j);
        } else {
            assert(out[at - 1] == '\n');
            assert(out.subrange(j, j + heading().len())[at - 1 - j] == out[at - 1]);
        }
    }
}

/// The skill with guidance is made of the part before the section, the section and the part after it,
/// and the heading first stands where the section begins.
pub proof fn law_guidance_stands_under_its_heading(skill: Seq<char>, block: Seq<char>)
    ensures
        with_section(skill, block) == before_section(skill) + section(block) + after_section(skill),
        text::find_in(with_section(skill, block), heading()) == Some(
            before_section(skill).len() as int,
        ),
        text::contains_text(with_section(skill, block), section(block)),
{
    let out = with_section(skill, block);
    let pre = before_section(skill);
    let rest = section(block) + after_section(skill);
    assert(out =~= pre + section(block) + after_section(skill));
    assert(out =~= pre + rest);
    let at = pre.len() as int;
    assert(rest.take(heading().len() as int) =~= heading());
    assert(out.subrange(at, at + heading().len()) =~= heading());
    assert forall|j: int| 0 <= j < at implies !text::occurs_at(out, heading(), j) by {
        lemma_no_earlier_heading(skill, rest, j);
    }
    text::lemma_find_from_is(out, heading(), 0, at);
    assert(out.subrange(at, at + section(block).len()) =~= section(block));
    assert(text::occurs_at(out, section(block), at));
    text::lemma_find_from(out, section(block), 0);
}

/// Guidance that holds no heading of the section's level.
pub open spec fn holds_no_heading(block: Seq<char>) -> bool {
    !text::contains_text(seq!['\n'] + text::trim(block) + seq!['\n'], "\n## "@)
}

/// What follows the section is nothing, or begins with the mark of the next section.
proof fn lemma_after_section(skill: Seq<char>)
    ensures
        after_section(skill).len() > 0 ==> text::occurs_at(after_section(skill), "\n## "@, 0),
{
    text::lemma_find_from(skill, heading(), 0);
    if let Some(start) = text::find_in(skill, heading()) {
        text::lemma_find_from(skill, "\n## "@, start);
        if let Some(i) = text::find_from(skill, "\n## "@, start) {
            let rest = after_section(skill);
            assert(rest.subrange(0, "\n## "@.len() as int) =~= skill.subrange(
                i,
                i + "\n## "@.len(),
            ));
        }
    }
}

/// The section of guidance that holds no heading ends where the part after the section begins.
proof fn lemma_section_end(skill: Seq<char>, block: Seq<char>)
    requires
        holds_no_heading(block),
    ensures
        section_end(with_section(skill, block), before_section(skill).len() as int)
            == before_section(skill).len() + section(block).len(),
{
    law_guidance_stands_under_its_heading(skill, block);
    lemma_heading();
    lemma_next_mark();
    lemma_after_section(skill);
    let mark = "\n## "@;
    let out = with_section(skill, block);
    let pre = before_section(skill);
    let rest = after_section(skill);
    let body = seq!['\n'] + text::trim(block) + seq!['\n'];
    let at = pre.len() as int;
    let body_at = at + heading().len();
    let end = at + section(block).len();
    assert(section(block) =~= heading() + body);
    assert(out =~= pre + heading() + body + rest);
    text::lemma_find_from(body, mark, 0);
    assert forall|j: int| at <= j < end implies !text::occurs_at(out, mark, j) by {
        if text::occurs_at(out, mark, j) {
            let here = out.subrange(j, j + 4);
            assert(here[0] == out[j]);
            assert(here[1] == out[j + 1]);
            if j < body_at {
                assert(out[j] == heading()[j - at]);
            } else if j + 4 <= end {
                assert(body.subrange(j - body_at, j - body_at + 4) =~= here);
                assert(text::occurs_at(body, mark, j - body_at));
            } else if j < end - 1 {
                assert(out[end - 1] == '\n');
                assert(here[end - 1 - j] == out[end - 1]);
            } else {
                assert(rest.len() > 0);
                assert(out[end] == rest[0]);
                assert(rest.subrange(0, 4)[0] == rest[0]);
            }
        }
    }
    if rest.len() > 0 {
        assert(out.subrange(end, end + 4) =~= rest.subrange(0, 4));
        assert(text::occurs_at(out, mark, end));
        text::lemma_find_from_is(out, mark, at, end);
    } else {
        assert forall|j: int| at <= j implies !text::occurs_at(out, mark, j) by {
            if j >= end {
                assert(out.len() == end);
            }
        }
        text::lemma_find_from_none(out, mark, at);
    }
}

/// Later guidance takes the place of earlier guidance: nothing is left of it, and nothing else of the
/// skill has changed. This holds of earlier guidance that holds no heading of the section's level.
pub proof fn law_later_guidance_replaces_earlier(
    skill: Seq<char>,
    earlier: Seq<char>,
    later: Seq<char>,
)
    requires
        holds_no_heading(earlier),
    ensures
        with_section(with_section(skill, earlier), later) == with_section(skill, later),
{
    law_guidance_stands_under_its_heading(skill, earlier);
    law_guidance_stands_under_its_heading(skill, later);
    lemma_section_end(skill, earlier);
    let once = with_section(skill, earlier);
    let at = before_section(skill).len() as int;
    let end = at + section(earlier).len();
    assert(once.take(at) =~= before_section(skill));
    assert(once.skip(end) =~= after_section(skill));
}

/// In a skill that has no section for guidance, the guidance comes at the end, under its heading and on
/// lines of its own, without the white space around it.
pub proof fn law_first_guidance_comes_last(
    skill: Seq<char>,
    a: Seq<char>,
    guidance: Seq<char>,
    b: Seq<char>,
)
    requires
        forall|i: int|
            0 <= i && i + 14 <= skill.len() ==> #[trigger] skill.subrange(i, i + 14)
                != "## Slow update"@,
        forall|i: int| 0 <= i < a.len() ==> text::is_white(#[trigger] a[i]),
        forall|i: int| 0 <= i < b.len() ==> text::is_white(#[trigger] b[i]),
        guidance.len() > 0 ==> !text::is_white(guidance[0]) && !text::is_white(guidance.last()),
    ensures
        skill.len() > 0 && skill.last() == '\n' ==> with_section(skill, a + guidance + b) == skill
            + "## Slow update"@ + seq!['\n'] + guidance + seq!['\n'],
        skill.len() == 0 || skill.last() != '\n' ==> with_section(skill, a + guidance + b) == skill
            + seq!['\n'] + "## Slow update"@ + seq!['\n'] + guidance + seq!['\n'],
{
    reveal_strlit("## Slow update");
    text::law_trimming_takes_off_white_space(a, guidance, b);
    assert forall|j: int| 0 <= j implies !text::occurs_at(skill, heading(), j) by {
        if j + 14 <= skill.len() {
            assert(skill.subrange(j, j + 14) != "## Slow update"@);
        }
    }
    text::lemma_find_from_none(skill, heading(), 0);
    let out = with_section(skill, a + guidance + b);
    if skill.len() > 0 && skill.last() == '\n' {
        assert(out =~= skill + "## Slow update"@ + seq!['\n'] + guidance + seq!['\n']);
    } else {
        assert(out =~= skill + seq!['\n'] + "## Slow update"@ + seq!['\n'] + guidance + seq!['\n']);
    }
}

/// In a skill that has a section for guidance, the guidance takes the place of that section, from its
/// heading up to the next heading of its level or to the end; all else stays.
pub proof fn law_guidance_takes_the_place_of_the_section(
    before: Seq<char>,
    old: Seq<char>,
    after: Seq<char>,
    a: Seq<char>,
    guidance: Seq<char>,
    b: Seq<char>,
)
    requires
        forall|i: int|
            0 <= i < before.len() ==> #[trigger] (before + "## Slow update"@ + old + after).subrange(
                i,
                i + 14,
            ) != "## Slow update"@,
        after.len() > 0 ==> after.len() >= 4 && after.take(4) == "\n## "@,
        forall|i: int|
            before.len() <= i < before.len() + 14 + old.len() && i + 4 <= before.len() + 14 + old.len()
                + after.len() ==> #[trigger] (before + "## Slow update"@ + old + after).subrange(
                i,
                i + 4,
            ) != "\n## "@,
        forall|i: int| 0 <= i < a.len() ==> text::is_white(#[trigger] a[i]),
        forall|i: int| 0 <= i < b.len() ==> text::is_white(#[trigger] b[i]),
        guidance.len() > 0 ==> !text::is_white(guidance[0]) && !text::is_white(guidance.last()),
    ensures
        with_section(before + "## Slow update"@ + old + after, a + guidance + b) == before
            + "## Slow update"@ + seq!['\n'] + guidance + seq!['\n'] + after,
{
    reveal_strlit("## Slow update");
    reveal_strlit("\n## ");
    text::law_trimming_takes_off_white_space(a, guidance, b);
    let skill = before + "## Slow update"@ + old + after;
    let mark = "\n## "@;
    let start = before.len() as int;
    let end = start + 14 + old.len();
    assert(skill.subrange(start, start + 14) =~= heading());
    assert forall|j: int| 0 <= j < start implies !text::occurs_at(skill, heading(), j) by {
        assert(skill.subrange(j, j + 14) != "## Slow update"@);
    }
    text::lemma_find_from_is(skill, heading(), 0, start);
    assert forall|j: int| start <= j < end implies !text::occurs_at(skill, mark, j) by {
        if j + 4 <= skill.len() {
            assert(skill.subrange(j, j + 4) != mark);
        }
    }
    if after.len() > 0 {
        assert(skill.subrange(end, end + 4) =~= after.take(4));
        text::lemma_find_from_is(skill, mark, start, end);
    } else {
        assert forall|j: int| start <= j implies !text::occurs_at(skill, mark, j) by {
            if j >= end {
                assert(skill.len() == end);
            }
        }
        text::lemma_find_from_none(skill, mark, start);
    }
    assert(section_end(skill, start) == end);
    assert(skill.take(start) =~= before);
    assert(skill.skip(end) =~= after);
    assert(with_section(skill, a + guidance + b) =~= before + "## Slow update"@ + seq!['\n'] + guidance
        + seq!['\n'] + after);
}

/// The first twenty pairs are shown, in their order and each by its item and its two scores, for the memo
/// with the two predictions, too; those behind them are not.
pub proof fn law_twenty_pairs_are_shown(
    pairs: Seq<(TrajectoryView, TrajectoryView)>,
    p: (TrajectoryView, TrajectoryView),
)
    ensures
        slow_prompt(Seq::empty()) == Seq::<char>::empty(),
        meta_prompt(Seq::empty()) == Seq::<char>::empty(),
        pairs.len() < 20 ==> slow_prompt(pairs.push(p)) == slow_prompt(pairs) + ("\n--\nitem: "@
            + p.0.item_id + "\nprev_score: "@ + numbers::fixed2(p.0.score) + "\ncurr_score: "@
            + numbers::fixed2(p.1.score) + "\n"@),
        pairs.len() < 20 ==> meta_prompt(pairs.push(p)) == meta_prompt(pairs) + ("\n--\nitem: "@
            + p.0.item_id + "\nprev_score: "@ + numbers::fixed2(p.0.score) + "\ncurr_score: "@
            + numbers::fixed2(p.1.score) + "\nprev_pred: "@ + p.0.prediction + "\ncurr_pred: "@
            + p.1.prediction + "\n"@),
        pairs.len() >= 20 ==> slow_prompt(pairs.push(p)) == slow_prompt(pairs),
        pairs.len() >= 20 ==> meta_prompt(pairs.push(p)) == meta_prompt(pairs),
{
    let f = |p: (TrajectoryView, TrajectoryView)| slow_block(p);
    let g = |p: (TrajectoryView, TrajectoryView)| meta_block(p);
    let none = Seq::<(TrajectoryView, TrajectoryView)>::empty();
    assert(shown(none).map_values(f) =~= Seq::empty());
    assert(shown(none).map_values(g) =~= Seq::empty());
    if pairs.len() < 20 {
        gradient::lemma_glued_map(pairs, seq![p], f);
        gradient::lemma_glued_map(pairs, seq![p], g);
        assert(shown(pairs.push(p)) =~= pairs + seq![p]);
        assert(f(p) == slow_block(p) && g(p) == meta_block(p));
    } else {
        assert(shown(pairs.push(p)) =~= shown(pairs));
    }
}

} // verus!
