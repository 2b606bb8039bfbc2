//! Talking to an OpenAI-compatible endpoint: the settings, the requests and the retries.

use vstd::prelude::*;
use crate::numbers;
use crate::single::Single;
use crate::text;
use crate::types::ChatMessage;

verus! {

/// What a request cost, as the endpoint counts it.
#[derive(Debug, Clone, Copy, PartialEq, Eq, Structural)]
pub struct Usage {
    pub prompt_tokens: u32,
    pub completion_tokens: u32,
    pub total_tokens: u32,
}

impl Default for Usage {
    fn default() -> (r: Self)
        ensures
            r == (Usage { prompt_tokens: 0, completion_tokens: 0, total_tokens: 0 }),
    {
        Usage { prompt_tokens: 0, completion_tokens: 0, total_tokens: 0 }
    }
}

/// How a request is to be answered.
pub struct ChatOptions<'a> {
    pub temperature: Option<Single>,
    pub max_tokens: Option<u32>,
    pub json: bool,
    pub reasoning_effort: Option<&'a str>,
}

impl<'a> Default for ChatOptions<'a> {
    fn default() -> (r: Self)
        ensures
            r.temperature is None,
            r.max_tokens is None,
            !r.json,
            r.reasoning_effort is None,
    {
        ChatOptions { temperature: None, max_tokens: None, json: false, reasoning_effort: None }
    }
}

/// A request to a model: which one is asked, what is said, and how it is to be answered. `to_target`
/// tells the model that the skill is trained for from the one that optimizes it.
pub struct ChatCall<'a> {
    pub to_target: bool,
    pub messages: Vec<ChatMessage>,
    pub options: ChatOptions<'a>,
}

/// What a request sends. Where an option is `None`, it is left out of what is sent; `json_object` says
/// whether the answer is asked for in the format of that name, and no format is named where it is
/// `false`.
pub struct ChatBody<'a> {
    pub model: String,
    pub messages: Vec<ChatMessage>,
    pub stream: bool,
    pub temperature: Option<Single>,
    pub max_tokens: Option<u32>,
    pub json_object: bool,
    pub reasoning_effort: Option<&'a str>,
}

/// What a model answered.
#[derive(Debug)]
pub struct ChatOutcome {
    pub text: String,
    pub usage: Usage,
}

// ---------------------------------------------------------------------------------------------
// Settings
// ---------------------------------------------------------------------------------------------

/// The variables that a client is set up from; `None` where one is not set.
pub struct ClientVars {
    pub base_url: Option<String>,
    pub api_key: Option<String>,
    pub model: Option<String>,
    pub target_model: Option<String>,
    pub optimizer_model: Option<String>,
    pub timeout_secs: Option<String>,
    pub max_retries: Option<String>,
    pub rps: Option<String>,
}

/// Why a client cannot be set up.
#[derive(Debug, Clone, Copy, PartialEq, Eq, Structural)]
pub enum SettingsError {
    /// No base URL is set.
    MissingBaseUrl,
}

impl SettingsError {
    /// The message for a user.
    pub fn message(&self) -> (r: String)
        ensures
            r@ == "OPENAI_BASE_URL must be set (e.g. http://localhost:8787/v1)"@,
    {
        "OPENAI_BASE_URL must be set (e.g. http://localhost:8787/v1)".to_owned()
    }
}

/// What a client works with.
#[derive(Debug)]
pub struct ClientSettings {
    pub base_url: String,
    pub api_key: String,
    pub target_model: String,
    pub optimizer_model: String,
    pub timeout_secs: u64,
    pub max_retries: u32,
    pub requests_per_second: u32,
}

/// `s` without the slashes at its end.
pub open spec fn without_slashes(s: Seq<char>) -> Seq<char>
    decreases s.len(),
{
    if s.len() > 0 && s.last() == '/' {
        without_slashes(s.drop_last())
    } else {
        s
    }
}

/// The value of a variable, or `default` where it is not set.
pub open spec fn var_or(v: Option<String>, default: Seq<char>) -> Seq<char> {
    match v {
        Some(s) => s@,
        None => default,
    }
}

/// The number up to `limit` that a variable holds, or `default` where it holds none.
pub open spec fn number_or(v: Option<String>, limit: nat, default: nat) -> nat {
    match v {
        Some(s) => match numbers::parsed(s@, limit) {
            Some(n) => n,
            None => default,
        },
        None => default,
    }
}

/// The model where no variable names another.
pub open spec fn default_model(vars: ClientVars) -> Seq<char> {
    var_or(vars.model, "gpt-5.5"@)
}

/// `v` without the slashes at its end.
fn strip_slashes(v: &Vec<char>) -> (r: Vec<char>)
    ensures
        r@ == without_slashes(v@),
{
    let mut to: usize = v.len();
    proof {
        assert(v@.take(to as int) =~= v@);
    }
    while to > 0 && v[to - 1] == '/'
        invariant
            to <= v.len(),
            without_slashes(v@) == without_slashes(v@.take(to as int)),
        decreases to,
    {
        proof {
            assert(v@.take(to as int).last() == v@[to - 1]);
            assert(v@.take(to as int).drop_last() =~= v@.take(to - 1));
        }
        to = to - 1;
    }
    proof {
        if to > 0 {
            assert(v@.take(to as int).last() == v@[to - 1]);
        }
        assert(v@.subrange(0, to as int) =~= v@.take(to as int));
    }
    text::slice_of(v, 0, to)
}

/// The value of a variable, or `default`.
fn value_or(v: &Option<String>, default: &str) -> (r: String)
    ensures
        r@ == var_or(*v, default@),
{
    match v {
        Some(s) => s.clone(),
        None => default.to_owned(),
    }
}

/// The number up to `limit` that a variable holds, or `default`.
fn parsed_or(v: &Option<String>, limit: u64, default: u64) -> (r: u64)
    requires
        default <= limit,
    ensures
        r == number_or(*v, limit as nat, default as nat),
        r <= limit,
{
    match v {
        Some(s) => {
            let digits = text::chars_of(s.as_str());
            match numbers::parse_up_to(&digits, limit) {
                Some(n) => n,
                None => default,
            }
        },
        None => default,
    }
}

impl ClientSettings {
    /// The settings that the variables give. Only the base URL has to be set; the slashes at its
    /// end are dropped. A number that cannot be read, and a rate of zero, count as not set.
    pub fn from_vars(vars: &ClientVars) -> (r: Result<ClientSettings, SettingsError>)
        ensures
            r is Err == vars.base_url is None,
            r matches Err(e) ==> e == SettingsError::MissingBaseUrl,
            r matches Ok(c) ==> {
                &&& c.base_url@ == without_slashes(vars.base_url->0@)
                &&& c.api_key@ == var_or(vars.api_key, "sk-noauth"@)
                &&& c.target_model@ == var_or(vars.target_model, default_model(*vars))
                &&& c.optimizer_model@ == var_or(vars.optimizer_model, default_model(*vars))
                &&& c.timeout_secs == number_or(vars.timeout_secs, u64::MAX as nat, 180)
                &&& c.max_retries == number_or(vars.max_retries, u32::MAX as nat, 4)
                &&& c.requests_per_second == {
                    let n = number_or(vars.rps, u32::MAX as nat, 0);
                    if n == 0 {
                        30
                    } else {
                        n
                    }
                }
            },
    {
        let url = match &vars.base_url {
            Some(s) => text::chars_of(s.as_str()),
            None => return Err(SettingsError::MissingBaseUrl),
        };
        let base_url = text::string_of(&strip_slashes(&url));
        let api_key = value_or(&vars.api_key, "sk-noauth");
        let model = value_or(&vars.model, "gpt-5.5");
        let target_model = value_or(&vars.target_model, model.as_str());
        let optimizer_model = value_or(&vars.optimizer_model, model.as_str());
        let timeout_secs: u64 = parsed_or(&vars.timeout_secs, u64::MAX, 180);
        let max_retries: u32 = parsed_or(&vars.max_retries, u32::MAX as u64, 4) as u32;
        let rps: u32 = parsed_or(&vars.rps, u32::MAX as u64, 0) as u32;
        let requests_per_second: u32 = if rps == 0 {
            30
        } else {
            rps
        };
        Ok(
            ClientSettings {
                base_url,
                api_key,
                target_model,
                optimizer_model,
                timeout_secs,
                max_retries,
                requests_per_second,
            },
        )
    }

    /// The URL that requests go to.
    pub fn endpoint(&self) -> (r: String)
        ensures
            r@ == self.base_url@ + "/chat/completions"@,
    {
        let mut v = text::chars_of(self.base_url.as_str());
        text::push_str(&mut v, "/chat/completions");
        text::string_of(&v)
    }
}

/// What a request sends: the model that it is for, what is said and how it is to be answered, and no
/// streaming.
pub fn body<'a>(settings: &ClientSettings, call: ChatCall<'a>) -> (r: ChatBody<'a>)
    ensures
        r.model@ == (if call.to_target {
            settings.target_model@
        } else {
            settings.optimizer_model@
        }),
        r.messages == call.messages,
        !r.stream,
        r.temperature == call.options.temperature,
        r.max_tokens == call.options.max_tokens,
        r.json_object == call.options.json,
        r.reasoning_effort == call.options.reasoning_effort,
{
    ChatBody {
        model: if call.to_target {
            settings.target_model.clone()
        } else {
            settings.optimizer_model.clone()
        },
        messages: call.messages,
        stream: false,
        temperature: call.options.temperature,
        max_tokens: call.options.max_tokens,
        json_object: call.options.json,
        reasoning_effort: call.options.reasoning_effort,
    }
}

/// A base URL that has lost its slashes does not end in one.
pub proof fn law_base_url_ends_in_no_slash(s: Seq<char>)
    ensures
        without_slashes(s).len() > 0 ==> without_slashes(s).last() != '/',
        without_slashes(s).is_prefix_of(s),
        without_slashes(without_slashes(s)) == without_slashes(s),
    decreases s.len(),
{
    if s.len() > 0 && s.last() == '/' {
        law_base_url_ends_in_no_slash(s.drop_last());
        assert(without_slashes(s) =~= s.take(without_slashes(s).len() as int));
    } else {
        assert(s =~= s.take(s.len() as int));
    }
}

// ---------------------------------------------------------------------------------------------
// Retries
// ---------------------------------------------------------------------------------------------

/// What came of sending a request once.
pub enum ChatEvent {
    /// The endpoint answered; `contents` has what each choice says.
    Answered { contents: Vec<Option<String>>, usage: Option<Usage> },
    /// The endpoint answered with something that is no answer.
    Undecodable { message: String },
    /// The endpoint answered with another status than success.
    Refused { status: u16, message: String },
    /// The endpoint could not be reached.
    Unreachable { message: String },
}

/// A request that is being sent: `attempt` counts from zero.
#[derive(Debug, Clone, Copy, PartialEq, Eq, Structural)]
pub struct ChatRun {
    pub attempt: u32,
    pub max_retries: u32,
}

/// What to do next about a request.
pub enum ChatStep {
    /// The request is answered.
    Done(ChatOutcome),
    /// The request has failed.
    Failed(String),
    /// Wait so many milliseconds, then send again.
    WaitThenSend(u64, ChatRun),
    /// Wait so many milliseconds; then the request has failed.
    WaitThenFail(u64, String),
}

/// A status that means success.
pub open spec fn success_status(status: u16) -> bool {
    200 <= status < 300
}

/// A status after which sending again may help: an error of the server, or too many requests.
pub open spec fn retryable_status(status: u16) -> bool {
    500 <= status < 600 || status == 429
}

/// Whether a status means success.
pub fn is_success(status: u16) -> (r: bool)
    ensures
        r == success_status(status),
{
    200 <= status && status < 300
}

/// The wait after an attempt, in milliseconds: 250 after the first, then twice as long each time, up
/// to 8000.
pub open spec fn backoff_ms(attempt: nat) -> nat
    decreases attempt,
{
    if attempt == 0 {
        250
    } else if attempt > 5 {
        8_000
    } else {
        2 * backoff_ms((attempt - 1) as nat)
    }
}

/// The wait grows with the attempts, and is never longer than eight seconds.
pub proof fn law_backoff_grows_to_eight_seconds(a: nat, b: nat)
    requires
        a <= b,
    ensures
        250 <= backoff_ms(a) <= backoff_ms(b) <= 8_000,
        b >= 5 ==> backoff_ms(b) == 8_000,
{
    reveal_with_fuel(backoff_ms, 7);
}

/// The wait after an attempt, in milliseconds.
fn backoff(attempt: u32) -> (ms: u64)
    ensures
        ms == backoff_ms(attempt as nat),
{
    let limit: u32 = if attempt > 5 {
        5
    } else {
        attempt
    };
    let mut ms: u64 = 250;
    proof {
        reveal_with_fuel(backoff_ms, 7);
    }
    for k in 0..limit
        invariant
            limit <= 5,
            ms == backoff_ms(k as nat),
            ms <= 8_000,
    {
        proof {
            law_backoff_grows_to_eight_seconds(k as nat, 4);
            reveal_with_fuel(backoff_ms, 7);
        }
        ms = 2 * ms;
    }
    ms
}

/// What the first choice says, or nothing.
pub open spec fn first_content(contents: Seq<Option<String>>) -> Seq<char> {
    if contents.len() > 0 && contents[0] is Some {
        contents[0]->0@
    } else {
        Seq::empty()
    }
}

/// The step after an attempt that may be repeated: wait, then send again unless this was the last
/// attempt.
pub open spec fn repeats(run: ChatRun, message: Seq<char>, step: ChatStep) -> bool {
    let ms = backoff_ms(run.attempt as nat);
    if run.attempt < run.max_retries {
        step == ChatStep::WaitThenSend(
            ms as u64,
            ChatRun { attempt: (run.attempt + 1) as u32, max_retries: run.max_retries },
        )
    } else {
        step matches ChatStep::WaitThenFail(w, m) && w == ms && m@ == message
    }
}

/// `step` is what is done after `event`.
pub open spec fn follows(run: ChatRun, event: ChatEvent, step: ChatStep) -> bool {
    match event {
        ChatEvent::Answered { contents, usage } => step matches ChatStep::Done(o) && o.text@
            == first_content(contents@) && o.usage == (match usage {
            Some(u) => u,
            None => Usage { prompt_tokens: 0, completion_tokens: 0, total_tokens: 0 },
        }),
        ChatEvent::Undecodable { message } => step matches ChatStep::Failed(m) && m@ == message@,
        ChatEvent::Refused { status, message } => if retryable_status(status) {
            repeats(run, message@, step)
        } else {
            step matches ChatStep::Failed(m) && m@ == message@
        },
        ChatEvent::Unreachable { message } => repeats(run, message@, step),
    }
}

impl ChatRun {
    /// A request that has not been sent yet.
    pub fn start(max_retries: u32) -> (run: ChatRun)
        ensures
            run == (ChatRun { attempt: 0, max_retries }),
    {
        ChatRun { attempt: 0, max_retries }
    }

    /// Waits, and sends again unless this was the last attempt.
    fn repeat(self, message: String) -> (step: ChatStep)
        ensures
            repeats(self, message@, step),
    {
        let ms: u64 = backoff(self.attempt);
        if self.attempt < self.max_retries {
            ChatStep::WaitThenSend(
                ms,
                ChatRun { attempt: self.attempt + 1, max_retries: self.max_retries },
            )
        } else {
            ChatStep::WaitThenFail(ms, message)
        }
    }

    /// What to do after `event`.
    pub fn next(self, event: ChatEvent) -> (step: ChatStep)
        ensures
            follows(self, event, step),
    {
        match event {
            ChatEvent::Answered { contents, usage } => {
                let text = if contents.len() > 0 {
                    match &contents[0] {
                        Some(s) => s.clone(),
                        None => String::new(),
                    }
                } else {
                    String::new()
                };
                let usage = match usage {
                    Some(u) => u,
                    None => Usage::default(),
                };
                ChatStep::Done(ChatOutcome { text, usage })
            },
            ChatEvent::Undecodable { message } => ChatStep::Failed(message),
            ChatEvent::Refused { status, message } => {
                if (500 <= status && status < 600) || status == 429 {
                    self.repeat(message)
                } else {
                    ChatStep::Failed(message)
                }
            },
            ChatEvent::Unreachable { message } => self.repeat(message),
        }
    }
}

/// `steps` is a run of the retry loop from `run` on: each step follows from the event that came of
/// sending, and each but the last one says to send again.
pub open spec fn is_run(run: ChatRun, events: Seq<ChatEvent>, steps: Seq<ChatStep>) -> bool
    decreases events.len(),
{
    &&& events.len() == steps.len()
    &&& events.len() > 0
    &&& follows(run, events[0], steps[0])
    &&& events.len() > 1 ==> (steps[0] matches ChatStep::WaitThenSend(_, later) && is_run(
        later,
        events.skip(1),
        steps.skip(1),
    ))
}

/// A request is sent at most once more often than it may be retried, whatever the endpoint does.
pub proof fn law_sends_are_bounded(run: ChatRun, events: Seq<ChatEvent>, steps: Seq<ChatStep>)
    requires
        run.attempt <= run.max_retries,
        is_run(run, events, steps),
    ensures
        events.len() <= run.max_retries - run.attempt + 1,
    decreases events.len(),
{
    if events.len() > 1 {
        let later = steps[0]->WaitThenSend_1;
        law_sends_are_bounded(later, events.skip(1), steps.skip(1));
    }
}

/// A request that is refused for good is not sent again: nothing but an error of the server, too many
/// requests or an endpoint out of reach makes it be.
pub proof fn law_only_passing_troubles_are_retried(run: ChatRun, event: ChatEvent, step: ChatStep)
    requires
        follows(run, event, step),
        step is WaitThenSend || step is WaitThenFail,
    ensures
        event is Unreachable || (event matches ChatEvent::Refused { status, .. }
            && retryable_status(status)),
{
}

/// All slashes at the end of a base URL are dropped, and nothing else.
pub proof fn law_slashes_at_the_end_are_dropped(s: Seq<char>, slashes: Seq<char>)
    requires
        s.len() > 0 ==> s.last() != '/',
        forall|i: int| 0 <= i < slashes.len() ==> slashes[i] == '/',
    ensures
        without_slashes(s + slashes) == s,
    decreases slashes.len(),
{
    if slashes.len() == 0 {
        assert(s + slashes =~= s);
    } else {
        assert((s + slashes).last() == slashes[slashes.len() - 1]);
        assert((s + slashes).drop_last() =~= s + slashes.drop_last());
        law_slashes_at_the_end_are_dropped(s, slashes.drop_last());
    }
}

/// The wait is a quarter of a second after the first attempt, and doubles with each of the next five; from
/// then on it stays.
pub proof fn law_backoff_doubles(attempt: nat)
    ensures
        backoff_ms(0) == 250,
        attempt < 5 ==> backoff_ms(attempt + 1) == 2 * backoff_ms(attempt),
        attempt >= 5 ==> backoff_ms(attempt + 1) == backoff_ms(attempt),
{
    reveal_with_fuel(backoff_ms, 7);
}

/// A request that was answered is done with what the first choice says, or with nothing where there is no
/// choice or it says nothing, and with the usage that was named, or none.
pub proof fn law_answers_are_the_first_choice(
    run: ChatRun,
    contents: Vec<Option<String>>,
    usage: Option<Usage>,
    step: ChatStep,
)
    requires
        follows(run, ChatEvent::Answered { contents, usage }, step),
    ensures
        step is Done,
        contents@.len() > 0 && contents@[0] is Some ==> step->Done_0.text@ == contents@[0]->0@,
        contents@.len() == 0 || contents@[0] is None ==> step->Done_0.text@.len() == 0,
        usage is Some ==> step->Done_0.usage == usage->0,
        usage is None ==> step->Done_0.usage.prompt_tokens == 0
            && step->Done_0.usage.completion_tokens == 0 && step->Done_0.usage.total_tokens == 0,
{
}

/// A request that was refused with a status from 500 to 599 or with 429, or whose endpoint is out of reach,
/// is sent again after a wait, as long as there is an attempt left; after the last one it fails, after a
/// wait, with the message.
pub proof fn law_passing_troubles_are_waited_out(
    run: ChatRun,
    status: u16,
    message: String,
    event: ChatEvent,
    step: ChatStep,
)
    requires
        event == (ChatEvent::Refused { status, message }) && (500 <= status <= 599 || status == 429)
            || event == (ChatEvent::Unreachable { message }),
        follows(run, event, step),
    ensures
        run.attempt < run.max_retries ==> {
            &&& step is WaitThenSend
            &&& step->WaitThenSend_0 == backoff_ms(run.attempt as nat)
            &&& step->WaitThenSend_1.attempt == run.attempt + 1
            &&& step->WaitThenSend_1.max_retries == run.max_retries
        },
        run.attempt >= run.max_retries ==> {
            &&& step is WaitThenFail
            &&& step->WaitThenFail_0 == backoff_ms(run.attempt as nat)
            &&& step->WaitThenFail_1@ == message@
        },
{
    law_backoff_grows_to_eight_seconds(run.attempt as nat, run.attempt as nat);
}

/// A request that was refused with any other status, or answered with something that is no answer, has
/// failed with the message, and is not sent again.
pub proof fn law_lasting_troubles_fail_at_once(
    run: ChatRun,
    status: u16,
    message: String,
    event: ChatEvent,
    step: ChatStep,
)
    requires
        event == (ChatEvent::Refused { status, message }) && !(500 <= status <= 599) && status != 429
            || event == (ChatEvent::Undecodable { message }),
        follows(run, event, step),
    ensures
        step is Failed,
        step->Failed_0@ == message@,
{
}

/// A status means success exactly from 200 to 299.
pub proof fn law_success_is_in_the_two_hundreds(status: u16)
    ensures
        success_status(status) <==> status as int / 100 == 2,
{
}

/// A variable that is set counts, and a default counts only where it is not.
pub proof fn law_set_variables_count(v: Option<String>, default: Seq<char>, limit: nat, otherwise: nat)
    ensures
        v is Some ==> var_or(v, default) == v->0@,
        v is None ==> var_or(v, default) == default,
        v is None ==> number_or(v, limit, otherwise) == otherwise,
{
}

/// A variable that is set holds a number where it is written in digits, with a plus sign before them or
/// not, and is not too large; else the default counts.
pub proof fn law_numbers_in_variables_count(v: String, d: Seq<char>, limit: nat, otherwise: nat)
    requires
        d.len() > 0 ==> d[0] != '+',
        v@ == d || v@ == seq!['+'] + d,
    ensures
        d.len() > 0 && (forall|i: int| 0 <= i < d.len() ==> '0' <= #[trigger] d[i] <= '9')
            && numbers::number_of(d) <= limit ==> number_or(Some(v), limit, otherwise)
            == numbers::number_of(d),
        d.len() == 0 ==> number_or(Some(v), limit, otherwise) == otherwise,
        (exists|i: int| 0 <= i < d.len() && !('0' <= #[trigger] d[i] <= '9')) ==> number_or(
            Some(v),
            limit,
            otherwise,
        ) == otherwise,
        numbers::number_of(d) > limit ==> number_or(Some(v), limit, otherwise) == otherwise,
{
    assert((seq!['+'] + d).skip(1) =~= d);
    assert(numbers::unsigned_part(v@) == d);
    if forall|i: int| 0 <= i < d.len() ==> '0' <= #[trigger] d[i] <= '9' {
        assert(numbers::all_digits(d));
    } else {
        let i = choose|i: int| 0 <= i < d.len() && !('0' <= #[trigger] d[i] <= '9');
        assert(!numbers::is_digit(d[i]));
    }
}

/// The model that a variable names is the one where no other is named, and there is one where none is.
pub proof fn law_models_have_a_default(vars: ClientVars)
    ensures
        vars.model is None ==> default_model(vars) == "gpt-5.5"@,
        vars.model matches Some(s) ==> default_model(vars) == s@,
{
}

} // verus!
