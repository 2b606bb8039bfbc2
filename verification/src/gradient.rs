//! Reflection: what the optimizer model is shown, and what becomes of its proposals.

use vstd::prelude::*;
use crate::numbers;
use crate::openai::{ChatCall, ChatOptions};
use crate::single::Single;
use crate::text;
use crate::types::{
    ChatMessage, ChatMessageView, Edit, EditOp, EditView, RejectedEntry, RejectedEntryView, StepBuffer,
    StepBufferView, Trajectory, TrajectoryView,
};

pub use crate::merge::merge_patches;
pub use crate::patch::apply_patch;
pub use crate::rank::rank_and_select;

verus! {

/// What the optimizer model is told to do when it reflects.
pub const REFLECT_SYS: &'static str = "You are SkillOpt, an optimizer that proposes structured edits to a skill document used by a frozen LLM agent.

You will receive:
- The current skill document.
- A minibatch of trajectories (success or failure) the target produced.
- A buffer of failure patterns and rejected past edits with the score drop they caused.

Your job: propose between 0 and 8 structured edits to the skill that will help on the FAILURES without breaking the SUCCESSES. Edits must be small and reusable, never task-specific.

Return STRICT JSON:
{
  \"edits\": [
    {
      \"op\": \"add\" | \"delete\" | \"replace\",
      \"anchor\": \"verbatim line/heading from current skill (empty for plain add at end)\",
      \"content\": \"new bullet/section to insert OR replacement text (ignored for delete)\",
      \"rationale\": \"why this helps the failure pattern\",
      \"utility\": 0.0 to 1.0
    }
  ],
  \"failure_patterns\": [\"short phrases naming recurring failure modes\"]
}

Guidelines:
- Prefer add/replace over delete unless a rule clearly hurts.
- Keep skill under 2000 tokens; prune dead weight when adding.
- Do not repeat any rejected edit from the buffer.
- If no useful edits, return {\"edits\": [], \"failure_patterns\": [...]}.
";

// ---------------------------------------------------------------------------------------------
// Pieces of text
// ---------------------------------------------------------------------------------------------

/// `s` as it is where its UTF-8 form has at most `n` bytes, else its first `n` characters and an
/// ellipsis.
pub open spec fn clipped(s: Seq<char>, n: nat) -> Seq<char> {
    if vstd::utf8::encode_utf8(s).len() <= n {
        s
    } else if n < s.len() {
        s.take(n as int).push('\u{2026}')
    } else {
        s.push('\u{2026}')
    }
}

/// Appends `s`, clipped to `n`, to `out`.
fn push_clipped(out: &mut Vec<char>, s: &str, n: usize)
    ensures
        final(out)@ == old(out)@ + clipped(s@, n as nat),
{
    let ghost before = out@;
    let chars = text::chars_of(s);
    if s.as_bytes().len() <= n {
        text::push_all(out, &chars);
    } else {
        let to: usize = if n < chars.len() {
            n
        } else {
            chars.len()
        };
        let kept = text::slice_of(&chars, 0, to);
        text::push_all(out, &kept);
        out.push('\u{2026}');
        proof {
            assert(kept@ =~= s@.take(to as int));
            if n >= chars.len() {
                assert(s@.take(to as int) =~= s@);
            }
            assert(out@ =~= before + clipped(s@, n as nat));
        }
    }
}

/// `s` where its UTF-8 form has at most `n` bytes, else its first `n` characters and an ellipsis.
pub fn truncate(s: &str, n: usize) -> (r: String)
    ensures
        r@ == clipped(s@, n as nat),
{
    let mut out: Vec<char> = Vec::new();
    push_clipped(&mut out, s, n);
    proof {
        assert(out@ =~= clipped(s@, n as nat));
    }
    text::string_of(&out)
}

/// The last position that holds `c`, or -1.
pub open spec fn last_of(s: Seq<char>, c: char) -> int
    decreases s.len(),
{
    if s.len() == 0 {
        -1
    } else if s.last() == c {
        s.len() - 1
    } else {
        last_of(s.drop_last(), c)
    }
}

/// The stretch of `s` from its first opening brace to its last closing brace, or an empty object where
/// there is no such stretch.
pub open spec fn braced(s: Seq<char>) -> Seq<char> {
    let from = text::char_or_end(s, '{', 0);
    let to = last_of(s, '}');
    if from < to {
        s.subrange(from, to + 1)
    } else {
        "{}"@
    }
}

/// The stretch of `s` that may be a JSON object.
pub fn extract_json(s: &str) -> (r: String)
    ensures
        r@ == braced(s@),
{
    let v = text::chars_of(s);
    let from: usize = text::find_char_or_end(&v, '{', 0);
    let mut end: usize = v.len();
    proof {
        assert(v@.take(end as int) =~= v@);
    }
    while end > 0 && v[end - 1] != '}'
        invariant
            end <= v.len(),
            last_of(v@, '}') == last_of(v@.take(end as int), '}'),
        decreases end,
    {
        proof {
            assert(v@.take(end as int).last() == v@[end - 1]);
            assert(v@.take(end as int).drop_last() =~= v@.take(end - 1));
        }
        end = end - 1;
    }
    proof {
        if end > 0 {
            assert(v@.take(end as int).last() == v@[end - 1]);
        }
        assert(last_of(v@, '}') == end - 1);
    }
    if end > 0 && from < end - 1 {
        text::string_of(&text::slice_of(&v, from, end))
    } else {
        "{}".to_owned()
    }
}

/// What `last_of` gives is the last position that holds `c`.
proof fn lemma_last_of(s: Seq<char>, c: char)
    ensures
        -1 <= last_of(s, c) < s.len(),
        last_of(s, c) >= 0 ==> s[last_of(s, c)] == c,
        forall|i: int| last_of(s, c) < i < s.len() ==> s[i] != c,
    decreases s.len(),
{
    if s.len() > 0 && s.last() != c {
        let t = s.drop_last();
        lemma_last_of(t, c);
        assert forall|i: int| last_of(s, c) < i < s.len() implies s[i] != c by {
            if i < t.len() {
                assert(t[i] == s[i]);
            }
        }
    }
}

/// What is extracted stands in braces, and takes in everything between the first brace that opens and
/// the last that closes.
pub proof fn law_extracted_text_is_in_braces(s: Seq<char>)
    ensures
        braced(s).len() >= 2,
        braced(s)[0] == '{',
        braced(s).last() == '}',
        text::char_or_end(s, '{', 0) < last_of(s, '}') ==> text::occurs_at(
            s,
            braced(s),
            text::char_or_end(s, '{', 0),
        ),
{
    reveal_strlit("{}");
    text::lemma_char_or_end(s, '{', 0);
    lemma_last_of(s, '}');
}

/// A clipped text is the text itself or a beginning of it with an ellipsis, and is at most one character
/// longer than what it is clipped to.
pub proof fn law_clipping_keeps_a_beginning(s: Seq<char>, n: nat)
    ensures
        clipped(s, n) == s || clipped(s, n).drop_last().is_prefix_of(s) && clipped(s, n).last()
            == '\u{2026}',
        clipped(s, n) != s ==> clipped(s, n).len() <= n + 1,
{
    if clipped(s, n) != s {
        let m = if n < s.len() {
            n as int
        } else {
            s.len() as int
        };
        assert(clipped(s, n).drop_last() =~= s.take(m));
    }
}

// ---------------------------------------------------------------------------------------------
// The buffer as text
// ---------------------------------------------------------------------------------------------

/// The name of an operation.
pub open spec fn op_name(op: EditOp) -> Seq<char> {
    match op {
        EditOp::Add => "Add"@,
        EditOp::Delete => "Delete"@,
        EditOp::Replace => "Replace"@,
    }
}

/// A failure pattern as a line.
pub open spec fn pattern_line(p: Seq<char>) -> Seq<char> {
    "- "@ + p + "\n"@
}

/// A refused edit as a line.
pub open spec fn refused_line(e: EditView) -> Seq<char> {
    "    ["@ + op_name(e.op) + "] anchor=\""@ + clipped(e.anchor, 80) + "\" content=\""@ + clipped(
        e.content,
        120,
    ) + "\"\n"@
}

/// A refused patch as lines: what it would have cost and why it was refused, then its edits.
pub open spec fn refused_block(r: RejectedEntryView) -> Seq<char> {
    "- score_drop "@ + numbers::fixed3(r.score_drop) + ": "@ + r.rationale + "\n"@ + text::glued(
        r.edits.map_values(|e: EditView| refused_line(e)),
    )
}

/// The failure patterns, under their heading.
pub open spec fn patterns_part(patterns: Seq<Seq<char>>) -> Seq<char> {
    if patterns.len() == 0 {
        Seq::empty()
    } else {
        "Failure patterns:\n"@ + text::glued(patterns.map_values(|p: Seq<char>| pattern_line(p)))
    }
}

/// The refused patches, under their heading.
pub open spec fn refused_part(rejected: Seq<RejectedEntryView>) -> Seq<char> {
    if rejected.len() == 0 {
        Seq::empty()
    } else {
        "\nRejected edits (DO NOT REPROPOSE):\n"@ + text::glued(
            rejected.map_values(|r: RejectedEntryView| refused_block(r)),
        )
    }
}

/// What the buffer remembers, as text.
pub open spec fn buffer_text(b: StepBufferView) -> Seq<char> {
    if b.failure_patterns.len() == 0 && b.rejected.len() == 0 {
        "(empty)"@
    } else {
        patterns_part(b.failure_patterns) + refused_part(b.rejected)
    }
}

/// Appends the name of an operation to `out`.
fn push_op_name(out: &mut Vec<char>, op: EditOp)
    ensures
        final(out)@ == old(out)@ + op_name(op),
{
    match op {
        EditOp::Add => text::push_str(out, "Add"),
        EditOp::Delete => text::push_str(out, "Delete"),
        EditOp::Replace => text::push_str(out, "Replace"),
    }
}

/// Appends a refused edit to `out`.
fn push_refused_line(out: &mut Vec<char>, e: &Edit)
    ensures
        final(out)@ == old(out)@ + refused_line(e@),
{
    let ghost before = out@;
    text::push_str(out, "    [");
    push_op_name(out, e.op);
    text::push_str(out, "] anchor=\"");
    push_clipped(out, e.anchor.as_str(), 80);
    text::push_str(out, "\" content=\"");
    push_clipped(out, e.content.as_str(), 120);
    text::push_str(out, "\"\n");
    proof {
        assert(out@ =~= before + refused_line(e@));
    }
}

/// Gluing one part more appends it.
pub proof fn lemma_glued_step<A>(s: Seq<A>, f: spec_fn(A) -> Seq<char>, k: int)
    requires
        0 <= k < s.len(),
    ensures
        text::glued(s.take(k + 1).map_values(f)) == text::glued(s.take(k).map_values(f)) + f(s[k]),
{
    let part = s.take(k + 1).map_values(f);
    assert(part.drop_last() =~= s.take(k).map_values(f));
    assert(part.last() == f(s[k]));
}

/// Appends a refused patch to `out`.
fn push_refused_block(out: &mut Vec<char>, r: &RejectedEntry)
    ensures
        final(out)@ == old(out)@ + refused_block(r@),
{
    let ghost before = out@;
    text::push_str(out, "- score_drop ");
    numbers::push_fixed3(out, r.score_drop);
    text::push_str(out, ": ");
    text::push_str(out, r.rationale.as_str());
    text::push_str(out, "\n");
    let n: usize = r.edits.len();
    let ghost f = |e: EditView| refused_line(e);
    let ghost views = r@.edits;
    let ghost head = out@;
    proof {
        assert(views.take(0).map_values(f) =~= Seq::empty());
        assert(head + text::glued(views.take(0).map_values(f)) =~= head);
    }
    for i in 0..n
        invariant
            n == r.edits.len(),
            views == r@.edits,
            f == (|e: EditView| refused_line(e)),
            out@ == head + text::glued(views.take(i as int).map_values(f)),
    {
        let ghost sofar = out@;
        push_refused_line(out, &r.edits[i]);
        proof {
            lemma_glued_step(views, f, i as int);
            assert(out@ =~= head + text::glued(views.take(i + 1).map_values(f)));
        }
    }
    proof {
        assert(views.take(n as int) =~= views);
        assert(out@ =~= before + refused_block(r@));
    }
}

/// What the buffer remembers, as text for the optimizer model.
pub fn format_buffer(buffer: &StepBuffer) -> (r: String)
    ensures
        r@ == buffer_text(buffer@),
{
    let n: usize = buffer.failure_patterns.len();
    let m: usize = buffer.rejected.len();
    if n == 0 && m == 0 {
        return "(empty)".to_owned();
    }
    let mut out: Vec<char> = Vec::new();
    if n > 0 {
        let ghost f = |p: Seq<char>| pattern_line(p);
        let ghost views = buffer@.failure_patterns;
        text::push_str(&mut out, "Failure patterns:\n");
        let ghost head = "Failure patterns:\n"@;
        proof {
            assert(views.take(0).map_values(f) =~= Seq::empty());
            assert(out@ =~= head + text::glued(views.take(0).map_values(f)));
        }
        for i in 0..n
            invariant
                n == buffer.failure_patterns.len(),
                views == buffer@.failure_patterns,
                f == (|p: Seq<char>| pattern_line(p)),
                out@ == head + text::glued(views.take(i as int).map_values(f)),
        {
            text::push_str(&mut out, "- ");
            text::push_str(&mut out, buffer.failure_patterns[i].as_str());
            text::push_str(&mut out, "\n");
            proof {
                lemma_glued_step(views, f, i as int);
                assert(out@ =~= head + text::glued(views.take(i + 1).map_values(f)));
            }
        }
        proof {
            assert(views.take(n as int) =~= views);
        }
    }
    proof {
        assert(out@ =~= patterns_part(buffer@.failure_patterns));
    }
    if m > 0 {
        let ghost before = out@;
        let ghost f = |r: RejectedEntryView| refused_block(r);
        let ghost views = buffer@.rejected;
        text::push_str(&mut out, "\nRejected edits (DO NOT REPROPOSE):\n");
        let ghost head = out@;
        proof {
            assert(views.take(0).map_values(f) =~= Seq::empty());
            assert(out@ =~= head + text::glued(views.take(0).map_values(f)));
        }
        for i in 0..m
            invariant
                m == buffer.rejected.len(),
                views == buffer@.rejected,
                f == (|r: RejectedEntryView| refused_block(r)),
                out@ == head + text::glued(views.take(i as int).map_values(f)),
        {
            push_refused_block(&mut out, &buffer.rejected[i]);
            proof {
                lemma_glued_step(views, f, i as int);
                assert(out@ =~= head + text::glued(views.take(i + 1).map_values(f)));
            }
        }
        proof {
            assert(views.take(m as int) =~= views);
            assert(out@ =~= before + refused_part(buffer@.rejected));
        }
    }
    proof {
        assert(out@ =~= buffer_text(buffer@));
    }
    text::string_of(&out)
}

// ---------------------------------------------------------------------------------------------
// Reflecting
// ---------------------------------------------------------------------------------------------

/// Trajectories to reflect on together; `kind` is "success" or "failure".
pub struct ReflectBatch<'a> {
    pub trajectories: &'a [Trajectory],
    pub kind: &'a str,
}

/// A message of a trajectory as a line.
pub open spec fn message_line(m: ChatMessageView) -> Seq<char> {
    "["@ + m.role + "] "@ + clipped(m.content, 1200) + "\n"@
}

/// A trajectory as text.
pub open spec fn trajectory_block(t: TrajectoryView) -> Seq<char> {
    "\n---\nitem: "@ + t.item_id + "\nscore: "@ + numbers::fixed2(t.score) + "\nprediction: "@
        + t.prediction + "\n"@ + text::glued(
        t.messages.map_values(|m: ChatMessageView| message_line(m)),
    )
}

/// What the optimizer model is shown.
pub open spec fn reflect_prompt(
    skill: Seq<char>,
    kind: Seq<char>,
    trajectories: Seq<TrajectoryView>,
    buffer: StepBufferView,
) -> Seq<char> {
    "MINIBATCH KIND: "@ + kind + "\n\n=== CURRENT SKILL ===\n"@ + skill
        + "\n\n=== TRAJECTORIES ===\n"@ + text::glued(
        trajectories.map_values(|t: TrajectoryView| trajectory_block(t)),
    ) + "\n\n=== BUFFER ===\n"@ + buffer_text(buffer)
}

/// Appends a message of a trajectory to `out`.
fn push_message_line(out: &mut Vec<char>, m: &ChatMessage)
    ensures
        final(out)@ == old(out)@ + message_line(m@),
{
    let ghost before = out@;
    text::push_str(out, "[");
    text::push_str(out, m.role.as_str());
    text::push_str(out, "] ");
    push_clipped(out, m.content.as_str(), 1200);
    text::push_str(out, "\n");
    proof {
        assert(out@ =~= before + message_line(m@));
    }
}

/// Appends a trajectory to `out`.
fn push_trajectory_block(out: &mut Vec<char>, t: &Trajectory)
    ensures
        final(out)@ == old(out)@ + trajectory_block(t@),
{
    let ghost before = out@;
    text::push_str(out, "\n---\nitem: ");
    text::push_str(out, t.item_id.as_str());
    text::push_str(out, "\nscore: ");
    numbers::push_fixed2(out, t.score);
    text::push_str(out, "\nprediction: ");
    text::push_str(out, t.prediction.as_str());
    text::push_str(out, "\n");
    let n: usize = t.messages.len();
    let ghost f = |m: ChatMessageView| message_line(m);
    let ghost views = t@.messages;
    let ghost head = out@;
    proof {
        assert(views.take(0).map_values(f) =~= Seq::empty());
        assert(head + text::glued(views.take(0).map_values(f)) =~= head);
    }
    for i in 0..n
        invariant
            n == t.messages.len(),
            views == t@.messages,
            f == (|m: ChatMessageView| message_line(m)),
            out@ == head + text::glued(views.take(i as int).map_values(f)),
    {
        push_message_line(out, &t.messages[i]);
        proof {
            lemma_glued_step(views, f, i as int);
            assert(out@ =~= head + text::glued(views.take(i + 1).map_values(f)));
        }
    }
    proof {
        assert(views.take(n as int) =~= views);
        assert(out@ =~= before + trajectory_block(t@));
    }
}

/// The two messages of a request: what the model is told to do, and what it is shown.
pub open spec fn two_messages(sys: Seq<char>, user: Seq<char>) -> Seq<ChatMessageView> {
    seq![
        ChatMessageView { role: "system"@, content: sys },
        ChatMessageView { role: "user"@, content: user },
    ]
}

/// The two messages of a request.
pub fn system_and_user(sys: String, user: String) -> (r: Vec<ChatMessage>)
    ensures
        crate::types::message_views(r@) == two_messages(sys@, user@),
{
    let mut r: Vec<ChatMessage> = Vec::new();
    r.push(ChatMessage { role: "system".to_owned(), content: sys });
    r.push(ChatMessage { role: "user".to_owned(), content: user });
    proof {
        assert(crate::types::message_views(r@) =~= two_messages(sys@, user@));
    }
    r
}

/// The request by which the optimizer model is asked to reflect.
pub fn reflect_call<'a>(
    skill: &str,
    batch: &ReflectBatch<'_>,
    buffer: &StepBuffer,
    temperature: Single,
    reasoning_effort: &'a str,
) -> (r: ChatCall<'a>)
    ensures
        !r.to_target,
        crate::types::message_views(r.messages@) == two_messages(
            REFLECT_SYS@,
            reflect_prompt(
                skill@,
                batch.kind@,
                crate::types::trajectory_views(batch.trajectories@),
                buffer@,
            ),
        ),
        r.options.temperature == Some(temperature),
        r.options.max_tokens == Some(2000u32),
        r.options.json,
        r.options.reasoning_effort == Some(reasoning_effort),
{
    let mut out: Vec<char> = Vec::new();
    text::push_str(&mut out, "MINIBATCH KIND: ");
    text::push_str(&mut out, batch.kind);
    text::push_str(&mut out, "\n\n=== CURRENT SKILL ===\n");
    text::push_str(&mut out, skill);
    text::push_str(&mut out, "\n\n=== TRAJECTORIES ===\n");
    let n: usize = batch.trajectories.len();
    let ghost f = |t: TrajectoryView| trajectory_block(t);
    let ghost views = crate::types::trajectory_views(batch.trajectories@);
    let ghost head = out@;
    proof {
        assert(views.take(0).map_values(f) =~= Seq::empty());
        assert(head + text::glued(views.take(0).map_values(f)) =~= head);
    }
    for i in 0..n
        invariant
            n == batch.trajectories@.len(),
            views == crate::types::trajectory_views(batch.trajectories@),
            f == (|t: TrajectoryView| trajectory_block(t)),
            out@ == head + text::glued(views.take(i as int).map_values(f)),
    {
        push_trajectory_block(&mut out, &batch.trajectories[i]);
        proof {
            lemma_glued_step(views, f, i as int);
            assert(out@ =~= head + text::glued(views.take(i + 1).map_values(f)));
        }
    }
    let buf = format_buffer(buffer);
    text::push_str(&mut out, "\n\n=== BUFFER ===\n");
    text::push_str(&mut out, buf.as_str());
    proof {
        assert(views.take(n as int) =~= views);
        assert(out@ =~= reflect_prompt(skill@, batch.kind@, views, buffer@));
    }
    ChatCall {
        to_target: false,
        messages: system_and_user(REFLECT_SYS.to_owned(), text::string_of(&out)),
        options: ChatOptions {
            temperature: Some(temperature),
            max_tokens: Some(2000),
            json: true,
            reasoning_effort: Some(reasoning_effort),
        },
    }
}

/// What the optimizer model proposed.
pub struct Reflection {
    pub edits: Vec<Edit>,
    pub failure_patterns: Vec<String>,
}

/// A proposal as it is taken over: it names the kind of trajectories it came from, and counts for one
/// where it says zero.
pub open spec fn taken_over(e: EditView, kind: Seq<char>) -> EditView {
    EditView {
        source_type: kind,
        support_count: if e.support_count == 0 {
            1
        } else {
            e.support_count
        },
        ..e
    }
}

/// The reflection that counts: what the answer says as a whole, else what the stretch of it in braces
/// says, else nothing.
pub open spec fn readable(direct: Option<Reflection>, extracted: Option<Reflection>) -> (
    Seq<EditView>,
    Seq<Seq<char>>,
) {
    match (direct, extracted) {
        (Some(r), _) => (crate::types::edit_views(r.edits@), text::texts(r.failure_patterns@)),
        (None, Some(r)) => (crate::types::edit_views(r.edits@), text::texts(r.failure_patterns@)),
        (None, None) => (Seq::empty(), Seq::empty()),
    }
}

/// The edits and the failure patterns of a reflection on trajectories of one kind. `direct` is what
/// was read from the whole answer, `extracted` what was read from the stretch of it in braces.
pub fn finish_reflection(direct: Option<Reflection>, extracted: Option<Reflection>, kind: &str) -> (r:
    (Vec<Edit>, Vec<String>))
    ensures
        crate::types::edit_views(r.0@) == readable(direct, extracted).0.map_values(
            |e: EditView| taken_over(e, kind@),
        ),
        text::texts(r.1@) == readable(direct, extracted).1,
{
    let ghost readable_edits = readable(direct, extracted).0;
    let ghost readable_patterns = readable(direct, extracted).1;
    let found = match direct {
        Some(r) => r,
        None => match extracted {
            Some(r) => r,
            None => Reflection { edits: Vec::new(), failure_patterns: Vec::new() },
        },
    };
    proof {
        assert(crate::types::edit_views(found.edits@) =~= readable_edits);
        assert(text::texts(found.failure_patterns@) =~= readable_patterns);
    }
    let mut edits: Vec<Edit> = Vec::new();
    for e in it: found.edits.into_iter()
        invariant
            it.seq() == found.edits@,
            crate::types::edit_views(found.edits@) == readable_edits,
            edits.len() == it.index(),
            forall|i: int|
                0 <= i < edits.len() ==> (#[trigger] edits@[i])@ == taken_over(
                    readable_edits[i],
                    kind@,
                ),
    {
        let ghost ev = e@;
        let ghost k = it.index() as int;
        proof {
            assert(readable_edits[k] == ev);
        }
        let support: u32 = if e.support_count == 0 {
            1
        } else {
            e.support_count
        };
        let mine = Edit {
            op: e.op,
            anchor: e.anchor,
            content: e.content,
            rationale: e.rationale,
            utility: e.utility,
            source_type: kind.to_owned(),
            support_count: support,
        };
        edits.push(mine);
    }
    proof {
        assert(crate::types::edit_views(edits@) =~= readable_edits.map_values(
            |e: EditView| taken_over(e, kind@),
        ));
    }
    (edits, found.failure_patterns)
}

// ---------------------------------------------------------------------------------------------
// Refused patches
// ---------------------------------------------------------------------------------------------

/// The number of refused patches that are remembered.
pub const MAX_REJECTED: usize = 12;

/// The refused patches after one more: it comes last, and the oldest goes where they are too many.
pub open spec fn remembered(s: Seq<RejectedEntryView>, r: RejectedEntryView) -> Seq<
    RejectedEntryView,
> {
    if s.len() + 1 > MAX_REJECTED {
        s.push(r).skip(1)
    } else {
        s.push(r)
    }
}

/// Remembers a refused patch, with the score that it would have cost.
pub fn record_rejected(buffer: &mut StepBuffer, edits: Vec<Edit>, score_drop: Single, rationale: String)
    ensures
        final(buffer)@.rejected == remembered(
            old(buffer)@.rejected,
            (RejectedEntryView {
                edits: crate::types::edit_views(edits@),
                score_drop,
                rationale: rationale@,
            }),
        ),
        final(buffer)@.failure_patterns == old(buffer)@.failure_patterns,
        final(buffer).rejected@.len() > 0,
        final(buffer).rejected@.last().score_drop == score_drop,
        final(buffer).rejected@.last().rationale@ == rationale@,
        crate::types::edit_views(final(buffer).rejected@.last().edits@) == crate::types::edit_views(
            edits@,
        ),
        old(buffer).rejected@.len() < 12 ==> final(buffer).rejected@.len()
            == old(buffer).rejected@.len() + 1,
        old(buffer).rejected@.len() == 12 ==> final(buffer).rejected@.len() == 12,
{
    let entry = RejectedEntry { edits, score_drop, rationale };
    let ghost before = buffer@.rejected;
    buffer.rejected.push(entry);
    proof {
        assert(buffer@.rejected =~= before.push(entry@));
    }
    if buffer.rejected.len() > MAX_REJECTED {
        let ghost full = buffer@.rejected;
        buffer.rejected.remove(0);
        proof {
            assert(buffer@.rejected =~= full.skip(1));
        }
    }
}

/// The refused patches after those of `more`, one after the other.
pub open spec fn remembered_all(s: Seq<RejectedEntryView>, more: Seq<RejectedEntryView>) -> Seq<
    RejectedEntryView,
>
    decreases more.len(),
{
    if more.len() == 0 {
        s
    } else {
        remembered(remembered_all(s, more.drop_last()), more.last())
    }
}

/// However many patches are refused, the buffer holds the last twelve of them, in their order.
pub proof fn law_buffer_holds_the_last_twelve(more: Seq<RejectedEntryView>)
    ensures
        remembered_all(Seq::empty(), more) == (if more.len() <= MAX_REJECTED {
            more
        } else {
            more.skip(more.len() - MAX_REJECTED)
        }),
    decreases more.len(),
{
    let r = remembered_all(Seq::empty(), more);
    if more.len() == 0 {
        assert(r =~= more);
    } else {
        let t = more.drop_last();
        law_buffer_holds_the_last_twelve(t);
        if more.len() <= MAX_REJECTED {
            assert(r =~= more);
        } else {
            assert(r =~= more.skip(more.len() - MAX_REJECTED));
        }
    }
}

/// A buffer that holds no more than twelve refused patches never comes to hold more, and the patch that
/// was refused last is always the last in it.
pub proof fn law_buffer_stays_bounded(s: Seq<RejectedEntryView>, r: RejectedEntryView)
    requires
        s.len() <= MAX_REJECTED,
    ensures
        remembered(s, r).len() <= MAX_REJECTED,
        remembered(s, r).last() == r,
{
}

// ---------------------------------------------------------------------------------------------
// What a request shows
// ---------------------------------------------------------------------------------------------

/// Gluing what a function makes of two lists is gluing what it makes of each.
pub proof fn lemma_glued_map<A>(a: Seq<A>, b: Seq<A>, f: spec_fn(A) -> Seq<char>)
    ensures
        text::glued((a + b).map_values(f)) == text::glued(a.map_values(f)) + text::glued(
            b.map_values(f),
        ),
        forall|x: A| text::glued(seq![x].map_values(f)) == #[trigger] f(x),
{
    assert((a + b).map_values(f) =~= a.map_values(f) + b.map_values(f));
    text::law_gluing_goes_by_parts(a.map_values(f), b.map_values(f));
    assert forall|x: A| text::glued(seq![x].map_values(f)) == #[trigger] f(x) by {
        assert(seq![x].map_values(f) =~= seq![f(x)]);
    }
}

/// A reflection on nothing shows the kind, the skill and the buffer, each under its heading.
pub proof fn law_reflection_shows_skill_and_buffer(
    skill: Seq<char>,
    kind: Seq<char>,
    buffer: StepBufferView,
)
    ensures
        reflect_prompt(skill, kind, Seq::empty(), buffer) == "MINIBATCH KIND: "@ + kind
            + "\n\n=== CURRENT SKILL ===\n"@ + skill + "\n\n=== TRAJECTORIES ===\n"@
            + "\n\n=== BUFFER ===\n"@ + buffer_text(buffer),
{
    let f = |t: TrajectoryView| trajectory_block(t);
    assert(Seq::<TrajectoryView>::empty().map_values(f) =~= Seq::empty());
    let head = "MINIBATCH KIND: "@ + kind + "\n\n=== CURRENT SKILL ===\n"@ + skill
        + "\n\n=== TRAJECTORIES ===\n"@;
    assert(head + Seq::<char>::empty() =~= head);
}

/// A trajectory without messages is shown with its item, its score and its prediction.
pub proof fn law_trajectories_show_item_score_and_prediction(t: TrajectoryView)
    requires
        t.messages.len() == 0,
    ensures
        trajectory_block(t) == "\n---\nitem: "@ + t.item_id + "\nscore: "@ + numbers::fixed2(t.score)
            + "\nprediction: "@ + t.prediction + "\n"@,
{
    let g = |m: ChatMessageView| message_line(m);
    assert(t.messages.map_values(g) =~= Seq::empty());
    let shown = "\n---\nitem: "@ + t.item_id + "\nscore: "@ + numbers::fixed2(t.score)
        + "\nprediction: "@ + t.prediction + "\n"@;
    assert(shown + Seq::<char>::empty() =~= shown);
}

/// What a reflection on a minibatch shows between the heading for trajectories and that for the buffer.
pub open spec fn shows(
    skill: Seq<char>,
    kind: Seq<char>,
    trajectories: Seq<TrajectoryView>,
    buffer: StepBufferView,
    shown: Seq<char>,
) -> bool {
    reflect_prompt(skill, kind, trajectories, buffer) == ("MINIBATCH KIND: "@ + kind
        + "\n\n=== CURRENT SKILL ===\n"@ + skill + "\n\n=== TRAJECTORIES ===\n"@) + shown
        + ("\n\n=== BUFFER ===\n"@ + buffer_text(buffer))
}

/// Every trajectory of a minibatch is shown, between those before it and those behind it, in the place
/// for trajectories.
pub proof fn law_reflection_shows_every_trajectory(
    skill: Seq<char>,
    kind: Seq<char>,
    before: Seq<TrajectoryView>,
    t: TrajectoryView,
    after: Seq<TrajectoryView>,
    buffer: StepBufferView,
)
    ensures
        exists|x: Seq<char>, y: Seq<char>|
            #[trigger] shows(skill, kind, before, buffer, x) && #[trigger] shows(
                skill,
                kind,
                after,
                buffer,
                y,
            ) && shows(
                skill,
                kind,
                before + seq![t] + after,
                buffer,
                x + trajectory_block(t) + y,
            ),
{
    let f = |t: TrajectoryView| trajectory_block(t);
    let head = "MINIBATCH KIND: "@ + kind + "\n\n=== CURRENT SKILL ===\n"@ + skill
        + "\n\n=== TRAJECTORIES ===\n"@;
    let tail = "\n\n=== BUFFER ===\n"@ + buffer_text(buffer);
    let (x, y) = (text::glued(before.map_values(f)), text::glued(after.map_values(f)));
    lemma_glued_map(before + seq![t], after, f);
    lemma_glued_map(before, seq![t], f);
    assert(f(t) == trajectory_block(t));
    let shown = trajectory_block(t);
    assert(reflect_prompt(skill, kind, before, buffer) =~= head + x + tail);
    assert(reflect_prompt(skill, kind, after, buffer) =~= head + y + tail);
    assert(reflect_prompt(skill, kind, before + seq![t] + after, buffer) =~= head + (x + shown + y)
        + tail);
    assert(shows(skill, kind, before, buffer, x) && shows(skill, kind, after, buffer, y));
}

/// The trajectories of two minibatches that are put together are shown one behind the other: what is
/// shown between the headings is what is shown of the first and then what is shown of the second.
pub proof fn law_reflections_show_minibatches_side_by_side(
    skill: Seq<char>,
    kind: Seq<char>,
    a: Seq<TrajectoryView>,
    b: Seq<TrajectoryView>,
    buffer: StepBufferView,
)
    ensures
        exists|x: Seq<char>, y: Seq<char>|
            #[trigger] shows(skill, kind, a, buffer, x) && #[trigger] shows(
                skill,
                kind,
                b,
                buffer,
                y,
            ) && shows(skill, kind, a + b, buffer, x + y),
{
    let f = |t: TrajectoryView| trajectory_block(t);
    let head = "MINIBATCH KIND: "@ + kind + "\n\n=== CURRENT SKILL ===\n"@ + skill
        + "\n\n=== TRAJECTORIES ===\n"@;
    let tail = "\n\n=== BUFFER ===\n"@ + buffer_text(buffer);
    let (x, y) = (text::glued(a.map_values(f)), text::glued(b.map_values(f)));
    lemma_glued_map(a, b, f);
    assert(reflect_prompt(skill, kind, a, buffer) =~= head + x + tail);
    assert(reflect_prompt(skill, kind, b, buffer) =~= head + y + tail);
    assert(reflect_prompt(skill, kind, a + b, buffer) =~= head + (x + y) + tail);
    assert(shows(skill, kind, a, buffer, x) && shows(skill, kind, b, buffer, y));
}

/// Every message of a trajectory is shown behind the trajectory's prediction, with its role, in a line of
/// its own: one that takes up to 1200 bytes whole, a longer one by its first 1200 characters and an
/// ellipsis.
pub proof fn law_trajectories_show_every_message(t: TrajectoryView, m: ChatMessageView)
    ensures
        trajectory_block(TrajectoryView { messages: t.messages.push(m), ..t }) == trajectory_block(t)
            + ("["@ + m.role + "] "@ + (if vstd::utf8::encode_utf8(m.content).len() <= 1200 {
            m.content
        } else if m.content.len() > 1200 {
            m.content.take(1200).push('\u{2026}')
        } else {
            m.content.push('\u{2026}')
        }) + "\n"@),
{
    let f = |m: ChatMessageView| message_line(m);
    lemma_glued_map(t.messages, seq![m], f);
    assert(t.messages.push(m) =~= t.messages + seq![m]);
    assert(f(m) == message_line(m));
    let more = TrajectoryView { messages: t.messages.push(m), ..t };
    assert(trajectory_block(more) =~= trajectory_block(t) + message_line(m));
}

/// A buffer with nothing in it is shown as empty; every failure pattern in it is shown in a line of its
/// own, behind those before it.
pub proof fn law_buffers_show_every_pattern(patterns: Seq<Seq<char>>, p: Seq<char>)
    ensures
        buffer_text(
            StepBufferView { failure_patterns: Seq::empty(), rejected: Seq::empty() },
        ) == "(empty)"@,
        patterns.len() == 0 ==> buffer_text(
            StepBufferView { failure_patterns: patterns.push(p), rejected: Seq::empty() },
        ) == "Failure patterns:\n"@ + "- "@ + p + "\n"@,
        patterns.len() > 0 ==> buffer_text(
            StepBufferView { failure_patterns: patterns.push(p), rejected: Seq::empty() },
        ) == buffer_text(StepBufferView { failure_patterns: patterns, rejected: Seq::empty() })
            + "- "@ + p + "\n"@,
{
    let f = |p: Seq<char>| pattern_line(p);
    let none = Seq::<RejectedEntryView>::empty();
    lemma_glued_map(patterns, seq![p], f);
    assert(patterns.push(p) =~= patterns + seq![p]);
    assert(f(p) == pattern_line(p));
    let after = StepBufferView { failure_patterns: patterns.push(p), rejected: none };
    if patterns.len() == 0 {
        assert(patterns.map_values(f) =~= Seq::empty());
        assert(buffer_text(after) =~= "Failure patterns:\n"@ + "- "@ + p + "\n"@);
    } else {
        let before = StepBufferView { failure_patterns: patterns, rejected: none };
        assert(buffer_text(after) =~= buffer_text(before) + "- "@ + p + "\n"@);
    }
}

/// A refused patch without edits is shown with what it would have cost and why it was refused.
pub proof fn law_refused_patches_show_cost_and_reason(r: RejectedEntryView)
    requires
        r.edits.len() == 0,
    ensures
        refused_block(r) == "- score_drop "@ + numbers::fixed3(r.score_drop) + ": "@ + r.rationale
            + "\n"@,
{
    let g = |e: EditView| refused_line(e);
    assert(r.edits.map_values(g) =~= Seq::empty());
    let shown = "- score_drop "@ + numbers::fixed3(r.score_drop) + ": "@ + r.rationale + "\n"@;
    assert(shown + Seq::<char>::empty() =~= shown);
}

/// Every refused patch in a buffer is shown, behind the failure patterns and the patches before it; the
/// first one comes under its heading.
pub proof fn law_buffers_show_every_refused_patch(b: StepBufferView, r: RejectedEntryView)
    ensures
        b.failure_patterns.len() > 0 && b.rejected.len() == 0 ==> buffer_text(
            StepBufferView { rejected: b.rejected.push(r), ..b },
        ) == buffer_text(b) + "\nRejected edits (DO NOT REPROPOSE):\n"@ + refused_block(r),
        b.rejected.len() > 0 ==> buffer_text(StepBufferView { rejected: b.rejected.push(r), ..b })
            == buffer_text(b) + refused_block(r),
        buffer_text(
            StepBufferView { failure_patterns: Seq::empty(), rejected: seq![r] },
        ) == "\nRejected edits (DO NOT REPROPOSE):\n"@ + refused_block(r),
{
    let f = |r: RejectedEntryView| refused_block(r);
    lemma_glued_map(b.rejected, seq![r], f);
    assert(b.rejected.push(r) =~= b.rejected + seq![r]);
    assert(f(r) == refused_block(r));
    let after = StepBufferView { rejected: b.rejected.push(r), ..b };
    if b.rejected.len() > 0 {
        assert(buffer_text(after) =~= buffer_text(b) + refused_block(r));
    } else if b.failure_patterns.len() > 0 {
        assert(b.rejected.map_values(f) =~= Seq::empty());
        assert(buffer_text(after) =~= buffer_text(b) + "\nRejected edits (DO NOT REPROPOSE):\n"@
            + refused_block(r));
    }
    let alone = StepBufferView { failure_patterns: Seq::empty(), rejected: seq![r] };
    assert(buffer_text(alone) =~= "\nRejected edits (DO NOT REPROPOSE):\n"@ + refused_block(r));
}

/// Every edit of a refused patch is shown in a line of its own behind those before it, with its operation,
/// its anchor and its content; where these take up to 80 bytes and up to 120, they are shown whole.
pub proof fn law_refused_patches_show_every_edit(r: RejectedEntryView, e: EditView)
    ensures
        refused_block(RejectedEntryView { edits: r.edits.push(e), ..r }) == refused_block(r)
            + ("    ["@ + (match e.op {
            EditOp::Add => "Add"@,
            EditOp::Delete => "Delete"@,
            EditOp::Replace => "Replace"@,
        }) + "] anchor=\""@ + (if vstd::utf8::encode_utf8(e.anchor).len() <= 80 {
            e.anchor
        } else if e.anchor.len() > 80 {
            e.anchor.take(80).push('\u{2026}')
        } else {
            e.anchor.push('\u{2026}')
        }) + "\" content=\""@ + (if vstd::utf8::encode_utf8(e.content).len() <= 120 {
            e.content
        } else if e.content.len() > 120 {
            e.content.take(120).push('\u{2026}')
        } else {
            e.content.push('\u{2026}')
        }) + "\"\n"@),
{
    let g = |e: EditView| refused_line(e);
    lemma_glued_map(r.edits, seq![e], g);
    assert(r.edits.push(e) =~= r.edits + seq![e]);
    assert(g(e) == refused_line(e));
    let more = RejectedEntryView { edits: r.edits.push(e), ..r };
    assert(refused_block(more) =~= refused_block(r) + refused_line(e));
}

/// What stands between the first brace that opens and the last that closes is extracted, with both of
/// them; where no brace closes behind one that opens, an empty object is.
pub proof fn law_braces_are_extracted(before: Seq<char>, inner: Seq<char>, after: Seq<char>)
    requires
        forall|i: int| 0 <= i < before.len() ==> before[i] != '{',
        forall|i: int| 0 <= i < after.len() ==> after[i] != '}',
    ensures
        braced(before + seq!['{'] + inner + seq!['}'] + after) == seq!['{'] + inner + seq!['}'],
        braced(before + after) == "{}"@,
{
    let s = before + seq!['{'] + inner + seq!['}'] + after;
    let (from, to) = (before.len() as int, (before.len() + 1 + inner.len()) as int);
    text::lemma_char_or_end(s, '{', 0);
    lemma_last_of(s, '}');
    assert(s[from] == '{' && s[to] == '}');
    let (a, b) = (text::char_or_end(s, '{', 0), last_of(s, '}'));
    if a < from {
        assert(s[a] == before[a]);
    }
    if b > to {
        assert(s[b] == after[b - to - 1]);
    }
    assert(a == from && b == to);
    assert(s.subrange(from, to + 1) =~= seq!['{'] + inner + seq!['}']);
    let t = before + after;
    text::lemma_char_or_end(t, '{', 0);
    lemma_last_of(t, '}');
    let (c, d) = (text::char_or_end(t, '{', 0), last_of(t, '}'));
    if c < d {
        if c < before.len() {
            assert(t[c] == before[c]);
        } else {
            assert(t[d] == after[d - before.len()]);
        }
    }
}

/// The edits that a reflection proposed are all taken over, in their order and with all that they say but
/// for where they came from, which is the kind of the trajectories, and a support of at least one.
pub proof fn law_proposals_are_taken_over(direct: Option<Reflection>, extracted: Option<Reflection>, kind: Seq<char>, i: int)
    requires
        direct is Some || extracted is Some,
        ({
            let found = if direct is Some {
                direct->0
            } else {
                extracted->0
            };
            0 <= i < found.edits@.len()
        }),
    ensures
        ({
            let found = if direct is Some {
                direct->0
            } else {
                extracted->0
            };
            let e = found.edits@[i];
            let r = taken_over(readable(direct, extracted).0[i], kind);
            &&& readable(direct, extracted).0.len() == found.edits@.len()
            &&& readable(direct, extracted).1 == text::texts(found.failure_patterns@)
            &&& r.op == e.op && r.anchor == e.anchor@ && r.content == e.content@
            &&& r.rationale == e.rationale@ && r.utility == e.utility
            &&& r.source_type == kind
            &&& r.support_count == (if e.support_count >= 1 {
                e.support_count
            } else {
                1
            })
        }),
{
}

/// Where nothing that was read is a reflection, there are no edits and no patterns.
pub proof fn law_unreadable_answers_propose_nothing()
    ensures
        readable(None, None).0.len() == 0,
        readable(None, None).1.len() == 0,
{
}

/// A request says two things: what the model is told to do, as the system, and then what it is shown, as
/// the user.
pub proof fn law_requests_tell_and_then_show(sys: Seq<char>, user: Seq<char>)
    ensures
        two_messages(sys, user).len() == 2,
        two_messages(sys, user)[0].role == "system"@ && two_messages(sys, user)[0].content == sys,
        two_messages(sys, user)[1].role == "user"@ && two_messages(sys, user)[1].content == user,
{
}

/// A text whose UTF-8 form takes up to `n` bytes is not clipped; a longer one is clipped to its first `n`
/// characters, or to all of them where it has fewer, and an ellipsis.
pub proof fn law_clipping_goes_by_bytes(s: Seq<char>, n: nat)
    ensures
        vstd::utf8::encode_utf8(s).len() <= n ==> clipped(s, n) == s,
        vstd::utf8::encode_utf8(s).len() > n && s.len() > n ==> clipped(s, n) == s.take(n as int).push(
            '\u{2026}',
        ),
        vstd::utf8::encode_utf8(s).len() > n && s.len() <= n ==> clipped(s, n) == s.push('\u{2026}'),
{
    if s.len() == n {
        assert(s.take(n as int) =~= s);
    }
}

/// The buffer keeps up to twelve refused patches: the newest comes last, and where there are twelve already
/// the oldest goes.
pub proof fn law_the_oldest_refused_patch_goes(s: Seq<RejectedEntryView>, r: RejectedEntryView)
    ensures
        s.len() < 12 ==> remembered(s, r) == s.push(r),
        s.len() == 12 ==> remembered(s, r) == s.skip(1).push(r),
{
    if s.len() == 12 {
        assert(s.push(r).skip(1) =~= s.skip(1).push(r));
    }
}

} // verus!
